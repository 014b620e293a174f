//! The binary container framing: version, KDF parameters, salt, IV, MAC tag,
//! ciphertext, in that order, big-endian integers, no separators and no
//! trailing bytes. The header occupies the first 125 bytes.

use vstd::prelude::*;

use crate::errors::PasswordError;

verus! {

/// The container format version this library reads and writes.
pub const VERSION: u32 = 2;

/// Big-endian encoding of a 32-bit integer.
pub open spec fn be_u32(n: u32) -> Seq<u8> {
    seq![
        (n / 0x1000000) as u8,
        ((n / 0x10000) % 256) as u8,
        ((n / 256) % 256) as u8,
        (n % 256) as u8,
    ]
}

/// The 32-bit integer a big-endian 4-byte sequence denotes.
pub open spec fn u32_of_be(s: Seq<u8>) -> u32
    recommends
        s.len() == 4,
{
    (s[0] * 0x1000000 + s[1] * 0x10000 + s[2] * 256 + s[3]) as u32
}

/// Decoding inverts encoding.
pub proof fn lemma_be_u32_round_trip(n: u32)
    ensures
        u32_of_be(be_u32(n)) == n,
{
    assert(n / 0x1000000 < 256) by (nonlinear_arith);
    assert((n / 0x1000000) * 0x1000000 + ((n / 0x10000) % 256) * 0x10000 + ((n / 256) % 256)
        * 256 + n % 256 == n) by (bit_vector);
}

/// The mathematical value of a parsed container.
#[verifier::ext_equal]
pub struct ContainerView {
    pub log2_n: u8,
    pub r: u32,
    pub p: u32,
    pub salt: Seq<u8>,
    pub iv: Seq<u8>,
    pub tag: Seq<u8>,
    pub ciphertext: Seq<u8>,
}

/// A parsed container: everything the file holds besides the version.
pub struct Container {
    pub log2_n: u8,
    pub r: u32,
    pub p: u32,
    pub salt: Vec<u8>,
    pub iv: Vec<u8>,
    pub tag: Vec<u8>,
    pub ciphertext: Vec<u8>,
}

impl View for Container {
    type V = ContainerView;

    open spec fn view(&self) -> ContainerView {
        ContainerView {
            log2_n: self.log2_n,
            r: self.r,
            p: self.p,
            salt: self.salt@,
            iv: self.iv@,
            tag: self.tag@,
            ciphertext: self.ciphertext@,
        }
    }
}

/// The bytes a container is written as: version, log2_n, r, p, salt, iv,
/// MAC tag, ciphertext, with nothing in between and nothing after.
pub open spec fn container_bytes(c: ContainerView) -> Seq<u8> {
    be_u32(VERSION) + seq![c.log2_n] + be_u32(c.r) + be_u32(c.p) + c.salt + c.iv + c.tag
        + c.ciphertext
}

/// The exact byte string the MAC tag is computed over: version, log2_n, r, p,
/// then IV before salt (the reverse of their order in the file), then the
/// ciphertext.
pub open spec fn mac_message(version: u32, log2_n: u8, r: u32, p: u32, iv: Seq<u8>, salt: Seq<u8>, ct: Seq<u8>) -> Seq<u8> {
    be_u32(version) + seq![log2_n] + be_u32(r) + be_u32(p) + iv + salt + ct
}

/// What parsing a byte string yields: a truncated header, a bad version, or
/// the container's fields.
pub enum ParseOutcome {
    Eof,
    BadVersion,
    Parsed(ContainerView),
}

/// Parsing, as a mathematical function of the input bytes. The version is
/// examined before the rest of the header, so a four-byte file with a bad
/// version is a version error, not a short read.
pub open spec fn spec_parse(input: Seq<u8>) -> ParseOutcome {
    if input.len() < 4 {
        ParseOutcome::Eof
    } else if u32_of_be(input.subrange(0, 4)) != VERSION {
        ParseOutcome::BadVersion
    } else if input.len() < 125 {
        ParseOutcome::Eof
    } else {
        ParseOutcome::Parsed(
            ContainerView {
                log2_n: input[4],
                r: u32_of_be(input.subrange(5, 9)),
                p: u32_of_be(input.subrange(9, 13)),
                salt: input.subrange(13, 45),
                iv: input.subrange(45, 61),
                tag: input.subrange(61, 125),
                ciphertext: input.subrange(125, input.len() as int),
            },
        )
    }
}

/// Appends the big-endian encoding of `n`.
pub fn push_be_u32(out: &mut Vec<u8>, n: u32)
    ensures
        final(out)@ == old(out)@ + be_u32(n),
{
    out.push((n / 0x1000000) as u8);
    out.push(((n / 0x10000) % 256) as u8);
    out.push(((n / 256) % 256) as u8);
    out.push((n % 256) as u8);
    proof {
        assert(final(out)@ =~= old(out)@ + be_u32(n));
    }
}

/// Reads the big-endian 32-bit integer at `at`.
fn read_be_u32(input: &Vec<u8>, at: usize) -> (r: u32)
    requires
        at + 4 <= input@.len(),
    ensures
        r == u32_of_be(input@.subrange(at as int, at + 4)),
{
    let n = input.len();
    let b0 = input[at];
    let b1 = input[at + 1];
    let b2 = input[at + 2];
    let b3 = input[at + 3];
    let r = (b0 as u32) * 0x1000000 + (b1 as u32) * 0x10000 + (b2 as u32) * 256 + (b3 as u32);
    proof {
        let s = input@.subrange(at as int, at + 4);
        assert(s[0] == b0 && s[1] == b1 && s[2] == b2 && s[3] == b3);
    }
    r
}

/// Copies `input[start..end]` into a fresh vector.
pub fn copy_range(input: &Vec<u8>, start: usize, end: usize) -> (r: Vec<u8>)
    requires
        start <= end <= input@.len(),
    ensures
        r@ == input@.subrange(start as int, end as int),
{
    let mut r: Vec<u8> = Vec::new();
    let mut i: usize = start;
    proof {
        assert(r@ =~= input@.subrange(start as int, start as int));
    }
    while i < end
        invariant
            start <= i <= end <= input@.len(),
            r@ == input@.subrange(start as int, i as int),
        decreases end - i,
    {
        r.push(input[i]);
        proof {
            assert(r@ =~= input@.subrange(start as int, i + 1));
        }
        i += 1;
    }
    r
}

/// Parses a container from raw file bytes. A short read at any field is an
/// I/O error; a version other than the supported one is rejected before
/// anything further is read.
pub fn parse_container(input: &Vec<u8>) -> (r: Result<Container, PasswordError>)
    ensures
        spec_parse(input@) is Eof ==> (r matches Err(e) && e is Io),
        spec_parse(input@) is BadVersion ==> (r matches Err(e) && e is WrongVersion),
        spec_parse(input@) matches ParseOutcome::Parsed(c) ==> (r matches Ok(cc) && cc@ == c),
{
    if input.len() < 4 {
        return Err(PasswordError::Io(unexpected_eof()));
    }
    let version = read_be_u32(input, 0);
    if version != VERSION {
        return Err(PasswordError::WrongVersion);
    }
    if input.len() < 125 {
        return Err(PasswordError::Io(unexpected_eof()));
    }
    let log2_n = input[4];
    let r = read_be_u32(input, 5);
    let p = read_be_u32(input, 9);
    let salt = copy_range(input, 13, 45);
    let iv = copy_range(input, 45, 61);
    let tag = copy_range(input, 61, 125);
    let ciphertext = copy_range(input, 125, input.len());
    let parsed = Container { log2_n, r, p, salt, iv, tag, ciphertext };
    proof {
        assert(parsed@ =~= spec_parse(input@)->Parsed_0);
    }
    Ok(parsed)
}

/// The detail string every short read carries.
fn unexpected_eof() -> (r: String)
    ensures
        r@ == "unexpected eof"@,
{
    let r = String::new();
    let mut r = r;
    r.append("unexpected eof");
    r
}

/// Emits a container as the exact byte string `container_bytes` describes.
pub fn emit_container(c: &Container) -> (r: Vec<u8>)
    ensures
        r@ == container_bytes(c@),
{
    let mut out: Vec<u8> = Vec::new();
    push_be_u32(&mut out, VERSION);
    out.push(c.log2_n);
    push_be_u32(&mut out, c.r);
    push_be_u32(&mut out, c.p);
    let mut i: usize = 0;
    proof {
        assert(out@ =~= be_u32(VERSION) + seq![c.log2_n] + be_u32(c.r) + be_u32(c.p)
            + c.salt@.subrange(0, 0));
    }
    while i < c.salt.len()
        invariant
            i <= c.salt@.len(),
            out@ == be_u32(VERSION) + seq![c.log2_n] + be_u32(c.r) + be_u32(c.p)
                + c.salt@.subrange(0, i as int),
        decreases c.salt@.len() - i,
    {
        out.push(c.salt[i]);
        proof {
            assert(out@ =~= be_u32(VERSION) + seq![c.log2_n] + be_u32(c.r) + be_u32(c.p)
                + c.salt@.subrange(0, i + 1));
        }
        i += 1;
    }
    let mut i: usize = 0;
    proof {
        assert(out@ =~= be_u32(VERSION) + seq![c.log2_n] + be_u32(c.r) + be_u32(c.p) + c.salt@
            + c.iv@.subrange(0, 0));
    }
    while i < c.iv.len()
        invariant
            i <= c.iv@.len(),
            out@ == be_u32(VERSION) + seq![c.log2_n] + be_u32(c.r) + be_u32(c.p) + c.salt@
                + c.iv@.subrange(0, i as int),
        decreases c.iv@.len() - i,
    {
        out.push(c.iv[i]);
        proof {
            assert(out@ =~= be_u32(VERSION) + seq![c.log2_n] + be_u32(c.r) + be_u32(c.p) + c.salt@
                + c.iv@.subrange(0, i + 1));
        }
        i += 1;
    }
    let mut i: usize = 0;
    proof {
        assert(out@ =~= be_u32(VERSION) + seq![c.log2_n] + be_u32(c.r) + be_u32(c.p) + c.salt@
            + c.iv@ + c.tag@.subrange(0, 0));
    }
    while i < c.tag.len()
        invariant
            i <= c.tag@.len(),
            out@ == be_u32(VERSION) + seq![c.log2_n] + be_u32(c.r) + be_u32(c.p) + c.salt@ + c.iv@
                + c.tag@.subrange(0, i as int),
        decreases c.tag@.len() - i,
    {
        out.push(c.tag[i]);
        proof {
            assert(out@ =~= be_u32(VERSION) + seq![c.log2_n] + be_u32(c.r) + be_u32(c.p) + c.salt@
                + c.iv@ + c.tag@.subrange(0, i + 1));
        }
        i += 1;
    }
    let mut i: usize = 0;
    proof {
        assert(out@ =~= be_u32(VERSION) + seq![c.log2_n] + be_u32(c.r) + be_u32(c.p) + c.salt@
            + c.iv@ + c.tag@ + c.ciphertext@.subrange(0, 0));
    }
    while i < c.ciphertext.len()
        invariant
            i <= c.ciphertext@.len(),
            out@ == be_u32(VERSION) + seq![c.log2_n] + be_u32(c.r) + be_u32(c.p) + c.salt@ + c.iv@
                + c.tag@ + c.ciphertext@.subrange(0, i as int),
        decreases c.ciphertext@.len() - i,
    {
        out.push(c.ciphertext[i]);
        proof {
            assert(out@ =~= be_u32(VERSION) + seq![c.log2_n] + be_u32(c.r) + be_u32(c.p) + c.salt@
                + c.iv@ + c.tag@ + c.ciphertext@.subrange(0, i + 1));
        }
        i += 1;
    }
    proof {
        assert(out@ =~= container_bytes(c@));
    }
    out
}

/// Writing then parsing a container gives back its fields: the framing loses
/// nothing as long as the fixed-size fields have their prescribed sizes.
pub proof fn lemma_container_round_trip(c: ContainerView)
    requires
        c.salt.len() == 32,
        c.iv.len() == 16,
        c.tag.len() == 64,
    ensures
        spec_parse(container_bytes(c)) == ParseOutcome::Parsed(c),
{
    let bytes = container_bytes(c);
    lemma_be_u32_round_trip(VERSION);
    lemma_be_u32_round_trip(c.r);
    lemma_be_u32_round_trip(c.p);
    assert(bytes.subrange(0, 4) =~= be_u32(VERSION));
    assert(bytes.len() >= 125);
    assert(bytes.subrange(5, 9) =~= be_u32(c.r));
    assert(bytes.subrange(9, 13) =~= be_u32(c.p));
    assert(bytes[4] == c.log2_n);
    assert(bytes.subrange(13, 45) =~= c.salt);
    assert(bytes.subrange(45, 61) =~= c.iv);
    assert(bytes.subrange(61, 125) =~= c.tag);
    assert(bytes.subrange(125, bytes.len() as int) =~= c.ciphertext);
    assert(spec_parse(bytes) == ParseOutcome::Parsed(c));
}

/// The framing is unambiguous: two containers with the prescribed field
/// sizes that serialize to the same bytes are equal, so any change to a
/// field — a flipped bit in the salt, the IV, the tag, the parameters or
/// the ciphertext — changes the bytes on disk.
pub proof fn lemma_container_bytes_injective(c1: ContainerView, c2: ContainerView)
    requires
        c1.salt.len() == 32,
        c1.iv.len() == 16,
        c1.tag.len() == 64,
        c2.salt.len() == 32,
        c2.iv.len() == 16,
        c2.tag.len() == 64,
        container_bytes(c1) == container_bytes(c2),
    ensures
        c1 == c2,
{
    lemma_container_round_trip(c1);
    lemma_container_round_trip(c2);
}

/// The MAC input is unambiguous too: with the prescribed field sizes, equal
/// MAC messages can only come from equal parameters, IV, salt and
/// ciphertext. A tampered field therefore always changes the bytes the tag
/// is computed over.
pub proof fn lemma_mac_message_injective(
    version: u32,
    n1: u8,
    r1: u32,
    p1: u32,
    iv1: Seq<u8>,
    s1: Seq<u8>,
    ct1: Seq<u8>,
    n2: u8,
    r2: u32,
    p2: u32,
    iv2: Seq<u8>,
    s2: Seq<u8>,
    ct2: Seq<u8>,
)
    requires
        iv1.len() == 16,
        iv2.len() == 16,
        s1.len() == 32,
        s2.len() == 32,
        mac_message(version, n1, r1, p1, iv1, s1, ct1) == mac_message(
            version,
            n2,
            r2,
            p2,
            iv2,
            s2,
            ct2,
        ),
    ensures
        n1 == n2,
        r1 == r2,
        p1 == p2,
        iv1 == iv2,
        s1 == s2,
        ct1 == ct2,
{
    let m = mac_message(version, n1, r1, p1, iv1, s1, ct1);
    lemma_be_u32_round_trip(r1);
    lemma_be_u32_round_trip(r2);
    lemma_be_u32_round_trip(p1);
    lemma_be_u32_round_trip(p2);
    assert(m[4] == n1 && m[4] == n2);
    assert(m.subrange(5, 9) =~= be_u32(r1));
    assert(m.subrange(5, 9) =~= be_u32(r2));
    assert(r1 == u32_of_be(m.subrange(5, 9)) && r2 == u32_of_be(m.subrange(5, 9)));
    assert(m.subrange(9, 13) =~= be_u32(p1));
    assert(m.subrange(9, 13) =~= be_u32(p2));
    assert(p1 == u32_of_be(m.subrange(9, 13)) && p2 == u32_of_be(m.subrange(9, 13)));
    assert(iv1 =~= m.subrange(13, 29));
    assert(iv2 =~= m.subrange(13, 29));
    assert(s1 =~= m.subrange(29, 61));
    assert(s2 =~= m.subrange(29, 61));
    assert(ct1 =~= m.subrange(61, m.len() as int));
    assert(ct2 =~= m.subrange(61, m.len() as int));
}

} // verus!
