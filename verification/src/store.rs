//! The password store: the in-memory aggregate owning the derived key, the
//! KDF parameters, the salt and the record list, with the operations that
//! open, query, mutate and save a vault.

use vstd::prelude::*;

use crate::codec::{
    Container, ContainerView, ParseOutcome, container_bytes, emit_container, mac_message,
    parse_container, push_be_u32, spec_parse, VERSION,
};
use crate::crypto::{
    aes_dec, aes_enc, aes256_decrypt, aes256_encrypt, bytes_to_string, hmac_sha512,
    hmac_sha512_tag, hmac_sha512_verify, params_ok, params_ok_exec, random_bytes, scrypt_derive,
    scrypt_key,
};
use crate::errors::PasswordError;
use crate::fold::{eq_fold, fold_eq};
use crate::json::{decode_records, encode_records, json_of_records, parse_schema};
use crate::record::{Password, PasswordView, SafeString, SafeVec, Schema, views_of};

verus! {

/// The cost exponent a fresh vault is created with.
pub const DEFAULT_LOG2_N: u8 = 12;

/// The block-size factor a fresh vault is created with.
pub const DEFAULT_R: u32 = 8;

/// The parallelism factor a fresh vault is created with.
pub const DEFAULT_P: u32 = 1;

/// The mathematical value of a store.
#[verifier::ext_equal]
pub struct StoreView {
    pub key: Seq<u8>,
    pub log2_n: u8,
    pub r: u32,
    pub p: u32,
    pub salt: Seq<u8>,
    pub records: Seq<PasswordView>,
}

/// No two records share a name under case folding.
pub open spec fn names_unique(rs: Seq<PasswordView>) -> bool {
    forall|i: int, j: int| 0 <= i < j < rs.len() ==> !fold_eq(rs[i].name, rs[j].name)
}

/// The first index at or after `i` whose record matches the name under case
/// folding.
pub open spec fn find_from(rs: Seq<PasswordView>, name: Seq<char>, i: int) -> Option<int>
    decreases rs.len() - i,
{
    if 0 <= i < rs.len() {
        if fold_eq(rs[i].name, name) {
            Some(i)
        } else {
            find_from(rs, name, i + 1)
        }
    } else {
        None
    }
}

/// The index of the first record matching the name, if any.
pub open spec fn spec_find(rs: Seq<PasswordView>, name: Seq<char>) -> Option<int> {
    find_from(rs, name, 0)
}

/// The first record matching the name, if any.
pub open spec fn spec_get(rs: Seq<PasswordView>, name: Seq<char>) -> Option<PasswordView> {
    match spec_find(rs, name) {
        Some(i) => Some(rs[i]),
        None => None,
    }
}

proof fn lemma_find_from_none(rs: Seq<PasswordView>, name: Seq<char>, i: int)
    requires
        0 <= i,
        find_from(rs, name, i) is None,
    ensures
        forall|j: int| i <= j < rs.len() ==> !fold_eq(rs[j].name, name),
    decreases rs.len() - i,
{
    if 0 <= i < rs.len() && !fold_eq(rs[i].name, name) {
        lemma_find_from_none(rs, name, i + 1);
    }
}

/// Uniqueness of names is kept by a successful add: appending a record whose
/// name no existing record matches leaves the list free of case-folded
/// duplicates.
pub proof fn lemma_add_keeps_unique(rs: Seq<PasswordView>, p: PasswordView)
    requires
        names_unique(rs),
        spec_find(rs, p.name) is None,
    ensures
        names_unique(rs.push(p)),
{
    lemma_find_from_none(rs, p.name, 0);
    let ps = rs.push(p);
    assert forall|i: int, j: int| 0 <= i < j < ps.len() implies !fold_eq(ps[i].name, ps[j].name) by {
        if j < rs.len() {
            assert(!fold_eq(rs[i].name, rs[j].name));
        } else {
            assert(ps[j] == p);
            assert(!fold_eq(rs[i].name, p.name));
        }
    }
}

/// Uniqueness of names is kept by removal.
pub proof fn lemma_remove_keeps_unique(rs: Seq<PasswordView>, k: int)
    requires
        names_unique(rs),
        0 <= k < rs.len(),
    ensures
        names_unique(rs.remove(k)),
{
    let ps = rs.remove(k);
    assert forall|i: int, j: int| 0 <= i < j < ps.len() implies !fold_eq(ps[i].name, ps[j].name) by {
        let i0 = if i < k {
            i
        } else {
            i + 1
        };
        let j0 = if j < k {
            j
        } else {
            j + 1
        };
        assert(ps[i] == rs[i0]);
        assert(ps[j] == rs[j0]);
        assert(!fold_eq(rs[i0].name, rs[j0].name));
    }
}

/// Case-insensitive lookup: two names equal under folding find the same
/// record, so `get` cannot tell `"YouTube"` from `"youtube"`.
pub proof fn lemma_get_case_insensitive(rs: Seq<PasswordView>, a: Seq<char>, b: Seq<char>)
    requires
        fold_eq(a, b),
    ensures
        spec_get(rs, a) == spec_get(rs, b),
{
    lemma_find_agree(rs, a, b, 0);
}

proof fn lemma_find_agree(rs: Seq<PasswordView>, a: Seq<char>, b: Seq<char>, i: int)
    requires
        fold_eq(a, b),
    ensures
        find_from(rs, a, i) == find_from(rs, b, i),
    decreases rs.len() - i,
{
    if 0 <= i < rs.len() {
        lemma_find_agree(rs, a, b, i + 1);
    }
}

/// The key a passphrase derives for a parsed container.
pub open spec fn derived_key(pw: Seq<char>, c: ContainerView) -> Seq<u8> {
    scrypt_key(vstd::utf8::encode_utf8(pw), c.salt, c.log2_n, c.r, c.p)
}

/// Whether a container's tag is the MAC of its fields under the key.
pub open spec fn mac_ok(key: Seq<u8>, c: ContainerView) -> bool {
    c.tag == hmac_sha512(
        key,
        mac_message(VERSION, c.log2_n, c.r, c.p, c.iv, c.salt, c.ciphertext),
    )
}

/// The plaintext a record list is serialized to: its document, UTF-8 encoded.
pub open spec fn plaintext_of(rs: Seq<PasswordView>) -> Seq<u8> {
    vstd::utf8::encode_utf8(json_of_records(rs))
}

/// The exact bytes a store serializes to under a given IV.
pub open spec fn sync_bytes(v: StoreView, iv: Seq<u8>) -> Seq<u8> {
    container_bytes(
        ContainerView {
            log2_n: v.log2_n,
            r: v.r,
            p: v.p,
            salt: v.salt,
            iv: iv,
            tag: hmac_sha512(
                v.key,
                mac_message(
                    VERSION,
                    v.log2_n,
                    v.r,
                    v.p,
                    iv,
                    v.salt,
                    aes_enc(v.key, iv, plaintext_of(v.records)),
                ),
            ),
            ciphertext: aes_enc(v.key, iv, plaintext_of(v.records)),
        },
    )
}

/// Round trip: the container bytes a store serializes under some IV open,
/// under any passphrase that derives the store's key, back to the same
/// record list, field for field and in the same order. Together with
/// `from_input`'s contract this says `open(pw, sync(S))` rebuilds `S`'s
/// list; since `change_master_password` leaves the records untouched and
/// re-derives the key from the new passphrase, the same instance also says
/// that a rekeyed store round-trips under its new passphrase.
///
/// The last two premises are the cipher's inversion law and the tag's
/// length, which hold of every value the trusted cipher and MAC wrappers
/// return.
pub proof fn lemma_sync_open_round_trip(v: StoreView, pw: Seq<char>, iv: Seq<u8>)
    requires
        v.salt.len() == 32,
        iv.len() == 16,
        params_ok(v.log2_n, v.r, v.p),
        v.key == scrypt_key(vstd::utf8::encode_utf8(pw), v.salt, v.log2_n, v.r, v.p),
        hmac_sha512(
            v.key,
            mac_message(
                VERSION,
                v.log2_n,
                v.r,
                v.p,
                iv,
                v.salt,
                aes_enc(v.key, iv, plaintext_of(v.records)),
            ),
        ).len() == 64,
        aes_dec(v.key, iv, aes_enc(v.key, iv, plaintext_of(v.records))) == Some(
            plaintext_of(v.records),
        ),
    ensures
        spec_parse(sync_bytes(v, iv)) matches ParseOutcome::Parsed(c) && c.log2_n == v.log2_n
            && c.r == v.r && c.p == v.p && c.salt == v.salt && c.iv == iv && params_ok(
            c.log2_n,
            c.r,
            c.p,
        ) && derived_key(pw, c) == v.key && mac_ok(derived_key(pw, c), c) && aes_dec(
            derived_key(pw, c),
            c.iv,
            c.ciphertext,
        ) == Some(plaintext_of(v.records)) && vstd::utf8::valid_utf8(plaintext_of(v.records))
            && parse_schema(vstd::utf8::decode_utf8(plaintext_of(v.records))) == Some(v.records),
{
    let ct = aes_enc(v.key, iv, plaintext_of(v.records));
    let tag = hmac_sha512(v.key, mac_message(VERSION, v.log2_n, v.r, v.p, iv, v.salt, ct));
    let c0 = ContainerView {
        log2_n: v.log2_n,
        r: v.r,
        p: v.p,
        salt: v.salt,
        iv: iv,
        tag: tag,
        ciphertext: ct,
    };
    crate::codec::lemma_container_round_trip(c0);
    assert(sync_bytes(v, iv) == container_bytes(c0));
    vstd::utf8::encode_utf8_valid_utf8(json_of_records(v.records));
    vstd::utf8::encode_utf8_decode_utf8(json_of_records(v.records));
    crate::json::lemma_parse_schema_of_json(v.records);
}

/// The in-memory store: the derived key, the KDF parameters, the salt, and
/// the decrypted record list.
pub struct PasswordStore {
    pub key: SafeVec,
    pub scrypt_log2_n: u8,
    pub scrypt_r: u32,
    pub scrypt_p: u32,
    pub salt: Vec<u8>,
    pub schema: Schema,
}

impl View for PasswordStore {
    type V = StoreView;

    open spec fn view(&self) -> StoreView {
        StoreView {
            key: self.key@,
            log2_n: self.scrypt_log2_n,
            r: self.scrypt_r,
            p: self.scrypt_p,
            salt: self.salt@,
            records: self.schema@,
        }
    }
}

impl PasswordStore {
    /// The sizes and parameter ranges every store satisfies.
    pub open spec fn wf_base(self) -> bool {
        &&& self.key@.len() == 32
        &&& self.salt@.len() == 32
        &&& params_ok(self.scrypt_log2_n, self.scrypt_r, self.scrypt_p)
    }

    /// Well-formed: sizes, parameters, and no duplicated names.
    pub open spec fn wf(self) -> bool {
        self.wf_base() && names_unique(self.schema@)
    }

    /// Creates a fresh store: a new random salt, the default cost parameters,
    /// a key derived from the passphrase, and an empty record list.
    pub fn new(master_password: SafeString) -> (r: Result<PasswordStore, PasswordError>)
        ensures
            r matches Ok(s) ==> s.wf() && s@.records == Seq::<PasswordView>::empty() && s@.log2_n
                == DEFAULT_LOG2_N && s@.r == DEFAULT_R && s@.p == DEFAULT_P && s@.key == scrypt_key(
                vstd::utf8::encode_utf8(master_password@),
                s@.salt,
                DEFAULT_LOG2_N,
                DEFAULT_R,
                DEFAULT_P,
            ),
            r matches Err(e) ==> e is Io,
    {
        let salt = match random_bytes(32) {
            Ok(b) => b,
            Err(e) => return Err(e),
        };
        let pw_bytes = SafeVec::new(master_password.as_str().as_bytes_vec());
        let key = match scrypt_derive(
            pw_bytes.as_slice(),
            salt.as_slice(),
            DEFAULT_LOG2_N,
            DEFAULT_R,
            DEFAULT_P,
        ) {
            Ok(k) => k,
            Err(_) => {
                proof {
                    assert(false);
                }
                vstd::pervasive::unreached()
            },
        };
        Ok(
            PasswordStore {
                key,
                scrypt_log2_n: DEFAULT_LOG2_N,
                scrypt_r: DEFAULT_R,
                scrypt_p: DEFAULT_P,
                salt,
                schema: Schema::new(),
            },
        )
    }

    /// Opens a vault from raw file bytes: parse the container, validate the
    /// stored parameters, derive the key, verify the MAC in constant time,
    /// decrypt, and read the record document. Each check fails with its own
    /// error, in exactly this order.
    pub fn from_input(master_password: SafeString, input: SafeVec) -> (r: Result<
        PasswordStore,
        PasswordError,
    >)
        ensures
            spec_parse(input@) is Eof ==> (r matches Err(e) && e is Io),
            spec_parse(input@) is BadVersion ==> (r matches Err(e) && e is WrongVersion),
            spec_parse(input@) matches ParseOutcome::Parsed(c) ==> {
                &&& !params_ok(c.log2_n, c.r, c.p) ==> (r matches Err(e) && e is InvalidParameters)
                &&& params_ok(c.log2_n, c.r, c.p) && !mac_ok(derived_key(master_password@, c), c)
                    ==> (r matches Err(e) && e is Corruption)
                &&& params_ok(c.log2_n, c.r, c.p) && mac_ok(derived_key(master_password@, c), c)
                    ==> (match aes_dec(derived_key(master_password@, c), c.iv, c.ciphertext) {
                    Some(pt) => {
                        if vstd::utf8::valid_utf8(pt) && parse_schema(vstd::utf8::decode_utf8(pt))
                            is Some {
                            r matches Ok(s) && s@.records == parse_schema(
                                vstd::utf8::decode_utf8(pt),
                            )->0 && s@.key == derived_key(master_password@, c) && s@.log2_n
                                == c.log2_n && s@.r == c.r && s@.p == c.p && s@.salt == c.salt
                                && s.wf_base()
                        } else {
                            r matches Err(e) && e is InvalidJson
                        }
                    },
                    None => r matches Err(e) && e is DecryptionError,
                })
            },
    {
        let container = match parse_container(&input.inner) {
            Ok(c) => c,
            Err(e) => return Err(e),
        };
        if !params_ok_exec(container.log2_n, container.r, container.p) {
            return Err(PasswordError::InvalidParameters);
        }
        let pw_bytes = SafeVec::new(master_password.as_str().as_bytes_vec());
        let key = match scrypt_derive(
            pw_bytes.as_slice(),
            container.salt.as_slice(),
            container.log2_n,
            container.r,
            container.p,
        ) {
            Ok(k) => k,
            Err(_) => {
                proof {
                    assert(false);
                }
                vstd::pervasive::unreached()
            },
        };
        let msg = mac_message_bytes(&container);
        if !hmac_sha512_verify(key.as_slice(), msg.as_slice(), container.tag.as_slice()) {
            return Err(PasswordError::Corruption);
        }
        let plain = match aes256_decrypt(
            key.as_slice(),
            container.iv.as_slice(),
            container.ciphertext.as_slice(),
        ) {
            Some(pt) => pt,
            None => return Err(PasswordError::DecryptionError),
        };
        let doc = match bytes_to_string(plain.as_slice()) {
            Some(d) => d,
            None => return Err(PasswordError::InvalidJson),
        };
        let records = match decode_records(doc.as_str()) {
            Some(ps) => ps,
            None => return Err(PasswordError::InvalidJson),
        };
        Ok(
            PasswordStore {
                key,
                scrypt_log2_n: container.log2_n,
                scrypt_r: container.r,
                scrypt_p: container.p,
                salt: container.salt,
                schema: Schema { passwords: records },
            },
        )
    }

    /// Serializes the store to fresh container bytes: a new random IV, the
    /// record document encrypted under the key, and the MAC over the header
    /// fields and ciphertext. The caller writes the bytes to its file whole.
    pub fn sync(&self) -> (r: Result<Vec<u8>, PasswordError>)
        requires
            self.wf_base(),
        ensures
            r matches Ok(b) ==> exists|ivs: Seq<u8>|
                ivs.len() == 16 && b@ == #[trigger] sync_bytes(self@, ivs),
            r matches Ok(b) ==> b@.len() > 125 && (b@.len() - 125) % 16 == 0 && b@.subrange(0, 4)
                =~= crate::codec::be_u32(VERSION) && b@[4] == self@.log2_n,
            r matches Err(e) ==> e is Io,
    {
        let doc = SafeString::new(encode_records(&self.schema.passwords));
        let plain = SafeVec::new(doc.as_str().as_bytes_vec());
        let iv = match random_bytes(16) {
            Ok(b) => b,
            Err(e) => return Err(e),
        };
        let ciphertext = aes256_encrypt(self.key.as_slice(), iv.as_slice(), plain.as_slice());
        let container = Container {
            log2_n: self.scrypt_log2_n,
            r: self.scrypt_r,
            p: self.scrypt_p,
            salt: clone_bytes(&self.salt),
            iv,
            tag: Vec::new(),
            ciphertext,
        };
        let msg = mac_message_bytes(&container);
        let tag = hmac_sha512_tag(self.key.as_slice(), msg.as_slice());
        let container = Container { tag, ..container };
        let out = emit_container(&container);
        proof {
            assert(container@.ciphertext == aes_enc(
                self@.key,
                container@.iv,
                plaintext_of(self@.records),
            ));
            assert(container@.iv.len() == 16 && out@ == sync_bytes(self@, container@.iv));
            assert(out@.len() == 125 + container@.ciphertext.len());
        }
        Ok(out)
    }

    /// The record list, in insertion order.
    pub fn get_all_passwords(&self) -> (r: &[Password])
        ensures
            views_of(r@) == self@.records,
    {
        self.schema.passwords.as_slice()
    }

    /// The first record whose name matches under case folding, cloned, or
    /// nothing when no record matches.
    pub fn get_password(&self, name: &str) -> (r: Option<Password>)
        ensures
            r matches Some(p) ==> spec_get(self@.records, name@) == Some(p@),
            r is None ==> spec_get(self@.records, name@) is None,
    {
        let n = self.schema.passwords.len();
        let ghost rs = self@.records;
        let mut i: usize = 0;
        while i < n
            invariant
                n == self.schema.passwords@.len(),
                rs == self@.records,
                rs.len() == n,
                i <= n,
                find_from(rs, name@, 0) == find_from(rs, name@, i as int),
            decreases n - i,
        {
            proof {
                assert(rs[i as int] == self.schema.passwords@[i as int]@);
            }
            if eq_fold(self.schema.passwords[i].name.as_str(), name) {
                let p = self.schema.passwords[i].clone();
                proof {
                    assert(find_from(rs, name@, i as int) == Some(i as int));
                }
                return Some(p);
            }
            i += 1;
        }
        None
    }

    /// Whether a record with this name is present, under case folding.
    pub fn has_password(&self, name: &str) -> (r: bool)
        ensures
            r == (spec_get(self@.records, name@) is Some),
    {
        self.get_password(name).is_some()
    }

    /// Appends a record, unless a record with a case-folded-equal name is
    /// already present.
    pub fn add_password(&mut self, password: Password) -> (r: Result<(), PasswordError>)
        ensures
            spec_get(old(self)@.records, password@.name) is Some ==> (r matches Err(e) && e
                is AppExists && *final(self) == *old(self)),
            spec_get(old(self)@.records, password@.name) is None ==> (r is Ok && final(self)@
                =~= (StoreView { records: old(self)@.records.push(password@), ..old(self)@ })),
            old(self).wf() ==> final(self).wf(),
            old(self).wf_base() ==> final(self).wf_base(),
    {
        if self.has_password(password.name.as_str()) {
            return Err(PasswordError::AppExists);
        }
        proof {
            if old(self).wf() {
                lemma_add_keeps_unique(old(self)@.records, password@);
            }
        }
        let ghost old_ps = self.schema.passwords@;
        self.schema.passwords.push(password);
        proof {
            assert(views_of(self.schema.passwords@) =~= views_of(old_ps).push(
                self.schema.passwords@[old_ps.len() as int]@,
            ));
        }
        Ok(())
    }

    /// Removes and returns the record `get_password`'s rule matches, or
    /// fails when no record matches.
    pub fn delete_password(&mut self, name: &str) -> (r: Result<Password, PasswordError>)
        ensures
            spec_find(old(self)@.records, name@) is None ==> (r matches Err(e) && e is NoSuchApp
                && *final(self) == *old(self)),
            spec_find(old(self)@.records, name@) matches Some(k) ==> (r matches Ok(p) && p@ == old(
                self,
            )@.records[k] && final(self)@ =~= (StoreView {
                records: old(self)@.records.remove(k),
                ..old(self)@
            })),
            old(self).wf() ==> final(self).wf(),
            old(self).wf_base() ==> final(self).wf_base(),
    {
        let n = self.schema.passwords.len();
        let ghost rs = self@.records;
        let mut i: usize = 0;
        while i < n
            invariant
                n == self.schema.passwords@.len(),
                rs == self@.records,
                rs.len() == n,
                i <= n,
                find_from(rs, name@, 0) == find_from(rs, name@, i as int),
                self == old(self),
            decreases n - i,
        {
            proof {
                assert(rs[i as int] == self.schema.passwords@[i as int]@);
            }
            if eq_fold(self.schema.passwords[i].name.as_str(), name) {
                proof {
                    assert(find_from(rs, name@, i as int) == Some(i as int));
                    if old(self).wf() {
                        lemma_remove_keeps_unique(rs, i as int);
                    }
                }
                let ghost old_ps = self.schema.passwords@;
                let p = self.schema.passwords.remove(i);
                proof {
                    assert(views_of(self.schema.passwords@) =~= views_of(old_ps).remove(i as int));
                }
                return Ok(p);
            }
            i += 1;
        }
        Err(PasswordError::NoSuchApp)
    }

    /// Re-derives the key from a new passphrase, reusing the existing salt
    /// and cost parameters. The records, the salt and the parameters are
    /// untouched; the change reaches the disk on the next sync.
    pub fn change_master_password(&mut self, master_password: &str)
        requires
            old(self).wf_base(),
        ensures
            final(self)@ =~= (StoreView {
                key: scrypt_key(
                    vstd::utf8::encode_utf8(master_password@),
                    old(self)@.salt,
                    old(self)@.log2_n,
                    old(self)@.r,
                    old(self)@.p,
                ),
                ..old(self)@
            }),
            final(self).wf_base(),
            old(self).wf() ==> final(self).wf(),
    {
        let pw_bytes = SafeVec::new(master_password.as_bytes_vec());
        let key = match scrypt_derive(
            pw_bytes.as_slice(),
            self.salt.as_slice(),
            self.scrypt_log2_n,
            self.scrypt_r,
            self.scrypt_p,
        ) {
            Ok(k) => k,
            Err(_) => {
                proof {
                    assert(false);
                }
                vstd::pervasive::unreached()
            },
        };
        self.key = key;
    }
}

/// A copy of a byte vector.
fn clone_bytes(v: &Vec<u8>) -> (r: Vec<u8>)
    ensures
        r@ == v@,
{
    let mut r: Vec<u8> = Vec::new();
    let mut i: usize = 0;
    proof {
        assert(r@ =~= v@.subrange(0, 0));
    }
    while i < v.len()
        invariant
            i <= v@.len(),
            r@ == v@.subrange(0, i as int),
        decreases v@.len() - i,
    {
        r.push(v[i]);
        proof {
            assert(r@ =~= v@.subrange(0, i + 1));
        }
        i += 1;
    }
    proof {
        assert(v@.subrange(0, v@.len() as int) =~= v@);
    }
    r
}

/// Appends all of `src`.
fn append_bytes(out: &mut Vec<u8>, src: &Vec<u8>)
    ensures
        final(out)@ == old(out)@ + src@,
{
    let mut i: usize = 0;
    proof {
        assert(old(out)@ + src@.subrange(0, 0) =~= old(out)@);
    }
    while i < src.len()
        invariant
            i <= src@.len(),
            out@ == old(out)@ + src@.subrange(0, i as int),
        decreases src@.len() - i,
    {
        out.push(src[i]);
        proof {
            assert(out@ =~= old(out)@ + src@.subrange(0, i + 1));
        }
        i += 1;
    }
    proof {
        assert(src@.subrange(0, src@.len() as int) =~= src@);
    }
}

/// The exact byte string the MAC is computed over for this container:
/// version, cost parameters, then IV before salt, then the ciphertext.
fn mac_message_bytes(c: &Container) -> (r: Vec<u8>)
    ensures
        r@ == mac_message(VERSION, c@.log2_n, c@.r, c@.p, c@.iv, c@.salt, c@.ciphertext),
{
    let mut out: Vec<u8> = Vec::new();
    push_be_u32(&mut out, VERSION);
    out.push(c.log2_n);
    push_be_u32(&mut out, c.r);
    push_be_u32(&mut out, c.p);
    append_bytes(&mut out, &c.iv);
    append_bytes(&mut out, &c.salt);
    append_bytes(&mut out, &c.ciphertext);
    proof {
        assert(out@ =~= mac_message(VERSION, c@.log2_n, c@.r, c@.p, c@.iv, c@.salt, c@.ciphertext));
    }
    out
}

} // verus!
