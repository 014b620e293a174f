//! The record codec: the plaintext inside the ciphertext is a JSON document
//! `{"passwords":[{record},...]}` where each record carries name, username,
//! password, created_at and updated_at. Emission writes exactly these fields;
//! reading tolerates unknown fields and insignificant whitespace, and array
//! order is preserved. Both directions are written here from scratch, with
//! the grammar as the specification.

use vstd::prelude::*;

use crate::record::{Password, PasswordView, SafeString, views_of};

verus! {

// ---------------------------------------------------------------------------
// Emission, as a mathematical function of the record list.
// ---------------------------------------------------------------------------
/// How one character is written inside a JSON string: quotes and backslashes
/// are escaped, everything else is written as itself.
pub open spec fn esc_char(c: char) -> Seq<char> {
    if c == '"' {
        seq!['\\', '"']
    } else if c == '\\' {
        seq!['\\', '\\']
    } else {
        seq![c]
    }
}

/// The escaped form of a whole string.
pub open spec fn esc(s: Seq<char>) -> Seq<char>
    decreases s.len(),
{
    if s.len() == 0 {
        Seq::empty()
    } else {
        esc_char(s[0]) + esc(s.skip(1))
    }
}

/// The character of one decimal digit.
pub open spec fn digit_char(d: int) -> char
    recommends
        0 <= d <= 9,
{
    ((48 + d) as u8) as char
}

/// The decimal digits of a non-negative number, most significant first.
pub open spec fn dec_digits(n: int) -> Seq<char>
    recommends
        n >= 0,
    decreases n,
{
    if n <= 9 {
        seq![digit_char(n)]
    } else {
        dec_digits(n / 10).push(digit_char(n % 10))
    }
}

/// The decimal form of a signed number.
pub open spec fn dec_int(n: int) -> Seq<char> {
    if n < 0 {
        seq!['-'] + dec_digits(-n)
    } else {
        dec_digits(n)
    }
}

/// The exact document emitted for one record.
pub open spec fn json_of_record(p: PasswordView) -> Seq<char> {
    "{\"name\":\""@ + esc(p.name) + "\",\"username\":\""@ + esc(p.username)
        + "\",\"password\":\""@ + esc(p.password) + "\",\"created_at\":"@ + dec_int(
        p.created_at as int,
    ) + ",\"updated_at\":"@ + dec_int(p.updated_at as int) + "}"@
}

/// The records of the list, comma-separated.
pub open spec fn json_of_list(rs: Seq<PasswordView>) -> Seq<char>
    decreases rs.len(),
{
    if rs.len() == 0 {
        Seq::empty()
    } else if rs.len() == 1 {
        json_of_record(rs[0])
    } else {
        json_of_record(rs[0]) + seq![','] + json_of_list(rs.skip(1))
    }
}

/// The exact document emitted for a record list.
pub open spec fn json_of_records(rs: Seq<PasswordView>) -> Seq<char> {
    "{\"passwords\":["@ + json_of_list(rs) + "]}"@
}

// ---------------------------------------------------------------------------
// Small helpers shared by emission and parsing.
// ---------------------------------------------------------------------------
/// Relies on String::push: appends one character to the string.
#[verifier::external_body]
pub fn push_char(s: &mut String, c: char)
    ensures
        final(s)@ == old(s)@.push(c),
{
    s.push(c);
}

/// The characters of a string slice, as a vector.
pub fn str_chars(s: &str) -> (r: Vec<char>)
    ensures
        r@ == s@,
{
    let n = s.unicode_len();
    let mut r: Vec<char> = Vec::new();
    let mut i: usize = 0;
    while i < n
        invariant
            n == s@.len(),
            i <= n,
            r@ == s@.take(i as int),
        decreases n - i,
    {
        r.push(s.get_char(i));
        proof {
            assert(r@ =~= s@.take(i + 1));
        }
        i += 1;
    }
    proof {
        assert(s@.take(n as int) =~= s@);
    }
    r
}

/// A string holding exactly the given characters.
pub fn chars_to_string(v: &Vec<char>) -> (r: String)
    ensures
        r@ == v@,
{
    let mut r = String::new();
    let mut i: usize = 0;
    while i < v.len()
        invariant
            i <= v@.len(),
            r@ == v@.take(i as int),
        decreases v@.len() - i,
    {
        push_char(&mut r, v[i]);
        proof {
            assert(r@ =~= v@.take(i + 1));
        }
        i += 1;
    }
    proof {
        assert(v@.take(v@.len() as int) =~= v@);
    }
    r
}

/// Whether the vector holds exactly the characters of the literal.
fn eq_chars(v: &Vec<char>, lit: &str) -> (r: bool)
    ensures
        r == (v@ == lit@),
{
    let n = lit.unicode_len();
    if v.len() != n {
        return false;
    }
    let mut i: usize = 0;
    while i < n
        invariant
            n == lit@.len(),
            v@.len() == n,
            i <= n,
            forall|j: int| 0 <= j < i ==> v@[j] == lit@[j],
        decreases n - i,
    {
        if v[i] != lit.get_char(i) {
            return false;
        }
        i += 1;
    }
    proof {
        assert(v@ =~= lit@);
    }
    true
}

// ---------------------------------------------------------------------------
// Parsing, as a mathematical function of the characters.
// ---------------------------------------------------------------------------
/// JSON insignificant whitespace.
pub open spec fn is_ws(c: char) -> bool {
    c == ' ' || c == '\t' || c == '\n' || c == '\r'
}

/// A decimal digit.
pub open spec fn is_digit(c: char) -> bool {
    48 <= c as u32 <= 57
}

/// The first position at or after `i` holding no whitespace.
pub open spec fn skip_ws(s: Seq<char>, i: int) -> int
    decreases s.len() - i,
{
    if 0 <= i < s.len() && is_ws(s[i]) {
        skip_ws(s, i + 1)
    } else {
        i
    }
}

/// What one escape character after a backslash denotes.
pub open spec fn unescape(c: char) -> Option<char> {
    if c == '"' {
        Some('"')
    } else if c == '\\' {
        Some('\\')
    } else if c == '/' {
        Some('/')
    } else if c == 'n' {
        Some('\n')
    } else if c == 't' {
        Some('\t')
    } else if c == 'r' {
        Some('\r')
    } else if c == 'b' {
        Some('\x08')
    } else if c == 'f' {
        Some('\x0C')
    } else {
        None
    }
}

/// The value of one hexadecimal digit.
pub open spec fn hex_val(c: char) -> Option<int> {
    if 48 <= c as u32 <= 57 {
        Some(c as u32 - 48)
    } else if 97 <= c as u32 <= 102 {
        Some(c as u32 - 87)
    } else if 65 <= c as u32 <= 70 {
        Some(c as u32 - 55)
    } else {
        None
    }
}

/// The value of the four hexadecimal digits `s[i..i+4)`, if they are there.
pub open spec fn hex4(s: Seq<char>, i: int) -> Option<int> {
    if 0 <= i && i + 4 <= s.len() {
        match (hex_val(s[i]), hex_val(s[i + 1]), hex_val(s[i + 2]), hex_val(s[i + 3])) {
            (Some(a), Some(b), Some(c), Some(d)) => Some(a * 0x1000 + b * 0x100 + c * 16 + d),
            _ => None,
        }
    } else {
        None
    }
}

/// A `\\u` escape starting at the backslash at `i`: the character it
/// denotes and the position after it. A high surrogate must be followed by
/// a low surrogate, together denoting a supplementary character; a lone
/// surrogate is malformed.
pub open spec fn parse_u_escape(s: Seq<char>, i: int) -> Option<(char, int)> {
    match hex4(s, i + 2) {
        Some(h) => if 0xD800 <= h < 0xDC00 {
            if i + 8 <= s.len() && s[i + 6] == '\\' && s[i + 7] == 'u' {
                match hex4(s, i + 8) {
                    Some(l) => if 0xDC00 <= l < 0xE000 {
                        Some(
                            (
                                ((0x10000 + (h - 0xD800) * 0x400 + (l - 0xDC00)) as u32) as char,
                                i + 12,
                            ),
                        )
                    } else {
                        None
                    },
                    None => None,
                }
            } else {
                None
            }
        } else if 0xDC00 <= h < 0xE000 {
            None
        } else {
            Some(((h as u32) as char, i + 6))
        },
        None => None,
    }
}

/// The body of a JSON string, read just after the opening quote: the decoded
/// characters and the position after the closing quote.
pub open spec fn parse_string_body(s: Seq<char>, i: int) -> Option<(Seq<char>, int)>
    decreases s.len() - i,
{
    if !(0 <= i < s.len()) {
        None
    } else if s[i] == '"' {
        Some((Seq::empty(), i + 1))
    } else if s[i] == '\\' {
        if i + 1 < s.len() {
            if s[i + 1] == 'u' {
                match parse_u_escape(s, i) {
                    Some(e) => if !(i < e.1 <= s.len()) {
                        None
                    } else {
                        match parse_string_body(s, e.1) {
                            Some(t) => Some((seq![e.0] + t.0, t.1)),
                            None => None,
                        }
                    },
                    None => None,
                }
            } else {
                match unescape(s[i + 1]) {
                    Some(c) => match parse_string_body(s, i + 2) {
                        Some(t) => Some((seq![c] + t.0, t.1)),
                        None => None,
                    },
                    None => None,
                }
            }
        } else {
            None
        }
    } else {
        match parse_string_body(s, i + 1) {
            Some(t) => Some((seq![s[i]] + t.0, t.1)),
            None => None,
        }
    }
}

/// The first position at or after `i` holding no digit.
pub open spec fn digits_end(s: Seq<char>, i: int) -> int
    decreases s.len() - i,
{
    if 0 <= i < s.len() && is_digit(s[i]) {
        digits_end(s, i + 1)
    } else {
        i
    }
}

/// The value of the digits `s[i..j)`, most significant first.
pub open spec fn digits_val(s: Seq<char>, i: int, j: int) -> int
    decreases j - i,
{
    if i < j {
        digits_val(s, i, j - 1) * 10 + (s[j - 1] as u32 - 48)
    } else {
        0
    }
}

/// A signed 64-bit decimal number at `i`: its value and end position. A
/// number whose magnitude leaves the 64-bit range is rejected.
pub open spec fn parse_i64(s: Seq<char>, i: int) -> Option<(i64, int)> {
    let neg = 0 <= i < s.len() && s[i] == '-';
    let k = if neg {
        i + 1
    } else {
        i
    };
    let e = digits_end(s, k);
    if e == k {
        None
    } else {
        let v = digits_val(s, k, e);
        if neg {
            if v <= 0x8000000000000000 {
                Some(((-v) as i64, e))
            } else {
                None
            }
        } else {
            if v <= 0x7FFFFFFFFFFFFFFF {
                Some((v as i64, e))
            } else {
                None
            }
        }
    }
}

/// Positions after a complete JSON value starting at `i`: used to tolerate
/// unknown fields. Arrays and objects are skipped recursively.
pub open spec fn skip_value(s: Seq<char>, i: int) -> Option<int>
    decreases s.len() - i, 1int,
{
    if !(0 <= i < s.len()) {
        None
    } else if s[i] == '"' {
        match parse_string_body(s, i + 1) {
            Some(t) => Some(t.1),
            None => None,
        }
    } else if s[i] == '-' || is_digit(s[i]) {
        match parse_i64(s, i) {
            Some(t) => Some(t.1),
            None => None,
        }
    } else if s[i] == 't' {
        if i + 4 <= s.len() && s[i + 1] == 'r' && s[i + 2] == 'u' && s[i + 3] == 'e' {
            Some(i + 4)
        } else {
            None
        }
    } else if s[i] == 'f' {
        if i + 5 <= s.len() && s[i + 1] == 'a' && s[i + 2] == 'l' && s[i + 3] == 's' && s[i + 4]
            == 'e' {
            Some(i + 5)
        } else {
            None
        }
    } else if s[i] == 'n' {
        if i + 4 <= s.len() && s[i + 1] == 'u' && s[i + 2] == 'l' && s[i + 3] == 'l' {
            Some(i + 4)
        } else {
            None
        }
    } else if s[i] == '[' {
        skip_elems(s, i + 1, true)
    } else if s[i] == '{' {
        skip_members(s, i + 1, true)
    } else {
        None
    }
}

/// Skips the remaining elements of an array, starting inside the brackets.
pub open spec fn skip_elems(s: Seq<char>, i: int, first: bool) -> Option<int>
    decreases s.len() - i, 2int,
{
    if !(0 <= i <= s.len()) {
        None
    } else {
        let j = skip_ws(s, i);
        if !(i <= j <= s.len()) {
            None
        } else if first && j < s.len() && s[j] == ']' {
            Some(j + 1)
        } else {
            match skip_value(s, j) {
                Some(k) => if !(j < k <= s.len()) {
                    None
                } else {
                    let m = skip_ws(s, k);
                    if !(k <= m <= s.len()) {
                        None
                    } else if m < s.len() && s[m] == ']' {
                        Some(m + 1)
                    } else if m < s.len() && s[m] == ',' {
                        skip_elems(s, m + 1, false)
                    } else {
                        None
                    }
                },
                None => None,
            }
        }
    }
}

/// Skips the remaining members of an object, starting inside the braces.
pub open spec fn skip_members(s: Seq<char>, i: int, first: bool) -> Option<int>
    decreases s.len() - i, 2int,
{
    if !(0 <= i <= s.len()) {
        None
    } else {
        let j = skip_ws(s, i);
        if !(i <= j <= s.len()) {
            None
        } else if first && j < s.len() && s[j] == '}' {
            Some(j + 1)
        } else if j < s.len() && s[j] == '"' {
            match parse_string_body(s, j + 1) {
                Some(t) => if !(j < t.1 <= s.len()) {
                    None
                } else {
                    let k = skip_ws(s, t.1);
                    if !(t.1 <= k <= s.len()) {
                        None
                    } else if k < s.len() && s[k] == ':' {
                        let m = skip_ws(s, k + 1);
                        if !(k < m <= s.len()) {
                            None
                        } else {
                            match skip_value(s, m) {
                                Some(v) => if !(m < v <= s.len()) {
                                    None
                                } else {
                                    let w = skip_ws(s, v);
                                    if !(v <= w <= s.len()) {
                                        None
                                    } else if w < s.len() && s[w] == '}' {
                                        Some(w + 1)
                                    } else if w < s.len() && s[w] == ',' {
                                        skip_members(s, w + 1, false)
                                    } else {
                                        None
                                    }
                                },
                                None => None,
                            }
                        }
                    } else {
                        None
                    }
                },
                None => None,
            }
        } else {
            None
        }
    }
}

/// The fields of one record collected while reading its members.
#[verifier::ext_equal]
pub struct FieldsView {
    pub name: Option<Seq<char>>,
    pub username: Option<Seq<char>>,
    pub password: Option<Seq<char>>,
    pub created_at: Option<i64>,
    pub updated_at: Option<i64>,
}

impl FieldsView {
    /// No field seen yet.
    pub open spec fn empty() -> FieldsView {
        FieldsView { name: None, username: None, password: None, created_at: None, updated_at: None }
    }
}

/// The members of one record object, read inside the braces: the collected
/// fields and the position after the closing brace. A repeated field keeps
/// its last value; an unknown field is skipped.
pub open spec fn parse_members(s: Seq<char>, i: int, first: bool, acc: FieldsView) -> Option<
    (FieldsView, int),
>
    decreases s.len() - i,
{
    if !(0 <= i <= s.len()) {
        None
    } else {
        let j = skip_ws(s, i);
        if !(i <= j <= s.len()) {
            None
        } else if first && j < s.len() && s[j] == '}' {
            Some((acc, j + 1))
        } else if j < s.len() && s[j] == '"' {
            match parse_string_body(s, j + 1) {
                Some(kt) => if !(j < kt.1 <= s.len()) {
                    None
                } else {
                    let k = skip_ws(s, kt.1);
                    if !(kt.1 <= k <= s.len()) {
                        None
                    } else if k < s.len() && s[k] == ':' {
                        let m = skip_ws(s, k + 1);
                        if !(k < m <= s.len()) {
                            None
                        } else {
                            match parse_member_value(s, m, kt.0, acc) {
                                Some(vt) => if !(m < vt.1 <= s.len()) {
                                    None
                                } else {
                                    let w = skip_ws(s, vt.1);
                                    if !(vt.1 <= w <= s.len()) {
                                        None
                                    } else if w < s.len() && s[w] == '}' {
                                        Some((vt.0, w + 1))
                                    } else if w < s.len() && s[w] == ',' {
                                        parse_members(s, w + 1, false, vt.0)
                                    } else {
                                        None
                                    }
                                },
                                None => None,
                            }
                        }
                    } else {
                        None
                    }
                },
                None => None,
            }
        } else {
            None
        }
    }
}

/// One member's value, by its key: the updated fields and the end position.
pub open spec fn parse_member_value(s: Seq<char>, i: int, key: Seq<char>, acc: FieldsView) -> Option<
    (FieldsView, int),
> {
    if key == "name"@ || key == "username"@ || key == "password"@ {
        if 0 <= i < s.len() && s[i] == '"' {
            match parse_string_body(s, i + 1) {
                Some(t) => Some(
                    (
                        if key == "name"@ {
                            FieldsView { name: Some(t.0), ..acc }
                        } else if key == "username"@ {
                            FieldsView { username: Some(t.0), ..acc }
                        } else {
                            FieldsView { password: Some(t.0), ..acc }
                        },
                        t.1,
                    ),
                )
                ,
                None => None,
            }
        } else {
            None
        }
    } else if key == "created_at"@ {
        match parse_i64(s, i) {
            Some(t) => Some((FieldsView { created_at: Some(t.0), ..acc }, t.1)),
            None => None,
        }
    } else if key == "updated_at"@ {
        match parse_i64(s, i) {
            Some(t) => Some((FieldsView { updated_at: Some(t.0), ..acc }, t.1)),
            None => None,
        }
    } else {
        match skip_value(s, i) {
            Some(j) => Some((acc, j)),
            None => None,
        }
    }
}

/// The record its collected fields denote, when all five are present.
pub open spec fn record_of_fields(f: FieldsView) -> Option<PasswordView> {
    if f.name is Some && f.username is Some && f.password is Some && f.created_at is Some
        && f.updated_at is Some {
        Some(
            PasswordView {
                name: f.name->0,
                username: f.username->0,
                password: f.password->0,
                created_at: f.created_at->0,
                updated_at: f.updated_at->0,
            },
        )
    } else {
        None
    }
}

/// The remaining records of the array, read inside the brackets: the records
/// seen so far plus the rest, and the position after the closing bracket.
pub open spec fn parse_list(s: Seq<char>, i: int, first: bool, acc: Seq<PasswordView>) -> Option<
    (Seq<PasswordView>, int),
>
    decreases s.len() - i,
{
    if !(0 <= i <= s.len()) {
        None
    } else {
        let j = skip_ws(s, i);
        if !(i <= j <= s.len()) {
            None
        } else if first && j < s.len() && s[j] == ']' {
            Some((acc, j + 1))
        } else if j < s.len() && s[j] == '{' {
            match parse_members(s, j + 1, true, FieldsView::empty()) {
                Some(ft) => if !(j < ft.1 <= s.len()) {
                    None
                } else {
                    match record_of_fields(ft.0) {
                        Some(rec) => {
                            let w = skip_ws(s, ft.1);
                            if !(ft.1 <= w <= s.len()) {
                                None
                            } else if w < s.len() && s[w] == ']' {
                                Some((acc.push(rec), w + 1))
                            } else if w < s.len() && s[w] == ',' {
                                parse_list(s, w + 1, false, acc.push(rec))
                            } else {
                                None
                            }
                        },
                        None => None,
                    }
                },
                None => None,
            }
        } else {
            None
        }
    }
}

/// The members of the top-level object: the record list once the
/// `passwords` key has been read, and the position after the closing brace.
/// Unknown top-level fields are skipped; a repeated key keeps its last value.
pub open spec fn parse_top(s: Seq<char>, i: int, first: bool, acc: Option<Seq<PasswordView>>) -> Option<
    (Option<Seq<PasswordView>>, int),
>
    decreases s.len() - i,
{
    if !(0 <= i <= s.len()) {
        None
    } else {
        let j = skip_ws(s, i);
        if !(i <= j <= s.len()) {
            None
        } else if first && j < s.len() && s[j] == '}' {
            Some((acc, j + 1))
        } else if j < s.len() && s[j] == '"' {
            match parse_string_body(s, j + 1) {
                Some(kt) => if !(j < kt.1 <= s.len()) {
                    None
                } else {
                    let k = skip_ws(s, kt.1);
                    if !(kt.1 <= k <= s.len()) {
                        None
                    } else if k < s.len() && s[k] == ':' {
                        let m = skip_ws(s, k + 1);
                        if !(k < m <= s.len()) {
                            None
                        } else {
                            let step: Option<(Option<Seq<PasswordView>>, int)> = if kt.0
                                == "passwords"@ {
                                if m < s.len() && s[m] == '[' {
                                    match parse_list(s, m + 1, true, Seq::empty()) {
                                        Some(lt) => Some((Some(lt.0), lt.1)),
                                        None => None,
                                    }
                                } else {
                                    None
                                }
                            } else {
                                match skip_value(s, m) {
                                    Some(v) => Some((acc, v)),
                                    None => None,
                                }
                            };
                            match step {
                                Some(st) => if !(m < st.1 <= s.len()) {
                                    None
                                } else {
                                    let w = skip_ws(s, st.1);
                                    if !(st.1 <= w <= s.len()) {
                                        None
                                    } else if w < s.len() && s[w] == '}' {
                                        Some((st.0, w + 1))
                                    } else if w < s.len() && s[w] == ',' {
                                        parse_top(s, w + 1, false, st.0)
                                    } else {
                                        None
                                    }
                                },
                                None => None,
                            }
                        }
                    } else {
                        None
                    }
                },
                None => None,
            }
        } else {
            None
        }
    }
}

/// Escaping distributes over concatenation.
pub proof fn lemma_esc_append(a: Seq<char>, b: Seq<char>)
    ensures
        esc(a + b) == esc(a) + esc(b),
    decreases a.len(),
{
    if a.len() == 0 {
        assert(a + b =~= b);
        assert(esc(a) + esc(b) =~= esc(b));
    } else {
        assert((a + b).skip(1) =~= a.skip(1) + b);
        assert((a + b)[0] == a[0]);
        lemma_esc_append(a.skip(1), b);
        assert(esc(a + b) =~= esc_char(a[0]) + esc(a.skip(1)) + esc(b));
        assert(esc(a) + esc(b) =~= esc_char(a[0]) + esc(a.skip(1)) + esc(b));
    }
}

/// The escaped form of a single character is that character's escape.
pub proof fn lemma_esc_one(c: char)
    ensures
        esc(seq![c]) == esc_char(c),
{
    assert(seq![c].skip(1) =~= Seq::<char>::empty());
    assert(seq![c][0] == c);
    assert(esc(Seq::<char>::empty()) == Seq::<char>::empty());
    assert(esc(seq![c]) == esc_char(c) + esc(Seq::<char>::empty()));
    assert(esc_char(c) + Seq::<char>::empty() =~= esc_char(c));
}

/// Appends the escaped form of `s`.
fn emit_escaped(out: &mut String, s: &str)
    ensures
        final(out)@ == old(out)@ + esc(s@),
{
    let n = s.unicode_len();
    let mut i: usize = 0;
    proof {
        assert(s@.take(0) =~= Seq::<char>::empty());
        assert(old(out)@ + esc(s@.take(0)) =~= old(out)@);
    }
    while i < n
        invariant
            n == s@.len(),
            i <= n,
            out@ == old(out)@ + esc(s@.take(i as int)),
        decreases n - i,
    {
        let c = s.get_char(i);
        if c == '"' {
            push_char(out, '\\');
            push_char(out, '"');
        } else if c == '\\' {
            push_char(out, '\\');
            push_char(out, '\\');
        } else {
            push_char(out, c);
        }
        proof {
            assert(s@.take(i + 1) =~= s@.take(i as int) + seq![c]);
            lemma_esc_append(s@.take(i as int), seq![c]);
            lemma_esc_one(c);
            assert(out@ =~= old(out)@ + esc(s@.take(i + 1)));
        }
        i += 1;
    }
    proof {
        assert(s@.take(n as int) =~= s@);
    }
}

/// Appends the decimal digits of `n`.
fn emit_u64(out: &mut String, n: u64)
    ensures
        final(out)@ == old(out)@ + dec_digits(n as int),
    decreases n,
{
    if n <= 9 {
        push_char(out, ((48 + n) as u8) as char);
        proof {
            assert(final(out)@ =~= old(out)@ + seq![digit_char(n as int)]);
        }
    } else {
        emit_u64(out, n / 10);
        push_char(out, ((48 + n % 10) as u8) as char);
        proof {
            assert(final(out)@ =~= old(out)@ + dec_digits(n as int));
        }
    }
}

/// Appends the decimal form of `n`, with its sign.
fn emit_i64(out: &mut String, n: i64)
    ensures
        final(out)@ == old(out)@ + dec_int(n as int),
{
    if n >= 0 {
        emit_u64(out, n as u64);
    } else {
        push_char(out, '-');
        let mag: u64 = ((-(n + 1)) as u64) + 1;
        proof {
            assert(mag as int == -(n as int));
        }
        emit_u64(out, mag);
        proof {
            assert(final(out)@ =~= old(out)@ + (seq!['-'] + dec_digits(mag as int)));
        }
    }
}

/// Appends the document of one record.
fn emit_record(out: &mut String, p: &Password)
    ensures
        final(out)@ == old(out)@ + json_of_record(p@),
{
    out.append("{\"name\":\"");
    emit_escaped(out, p.name.as_str());
    out.append("\",\"username\":\"");
    emit_escaped(out, p.username.as_str());
    out.append("\",\"password\":\"");
    emit_escaped(out, p.password.as_str());
    out.append("\",\"created_at\":");
    emit_i64(out, p.created_at);
    out.append(",\"updated_at\":");
    emit_i64(out, p.updated_at);
    out.append("}");
    proof {
        assert(final(out)@ =~= old(out)@ + json_of_record(p@));
    }
}

/// Extending the list by one record appends a comma and that record.
pub proof fn lemma_json_list_snoc(rs: Seq<PasswordView>, i: int)
    requires
        1 <= i < rs.len(),
    ensures
        json_of_list(rs.take(i + 1)) == json_of_list(rs.take(i)) + seq![','] + json_of_record(
            rs[i],
        ),
    decreases i,
{
    let a = rs.take(i + 1);
    assert(a.skip(1) =~= rs.skip(1).take(i));
    if i == 1 {
        assert(rs.skip(1).take(1) =~= seq![rs[1]]);
        assert(json_of_list(seq![rs[1]]) == json_of_record(rs[1]));
        assert(rs.take(1) =~= seq![rs[0]]);
        assert(json_of_list(rs.take(1)) == json_of_record(rs[0]));
        assert(json_of_list(a) =~= json_of_list(rs.take(1)) + seq![','] + json_of_record(rs[1]));
    } else {
        lemma_json_list_snoc(rs.skip(1), i - 1);
        assert(rs.skip(1).take(i - 1) =~= rs.take(i).skip(1));
        assert(rs.skip(1)[i - 1] == rs[i]);
        assert(rs.take(i)[0] == rs[0]);
        assert(rs.take(i).len() == i >= 2);
        assert(json_of_list(rs.take(i)) == json_of_record(rs[0]) + seq![','] + json_of_list(
            rs.take(i).skip(1),
        ));
        assert(json_of_list(a) =~= json_of_list(rs.take(i)) + seq![','] + json_of_record(rs[i]));
    }
}

/// Writes the whole document for a record list.
pub fn encode_records(ps: &Vec<Password>) -> (r: String)
    ensures
        r@ == json_of_records(views_of(ps@)),
{
    let ghost vs = views_of(ps@);
    let mut out = String::new();
    out.append("{\"passwords\":[");
    proof {
        assert(vs.take(0) =~= Seq::<PasswordView>::empty());
        assert(out@ =~= "{\"passwords\":["@ + json_of_list(vs.take(0)));
    }
    let mut i: usize = 0;
    while i < ps.len()
        invariant
            i <= ps@.len(),
            vs == views_of(ps@),
            vs.len() == ps@.len(),
            out@ == "{\"passwords\":["@ + json_of_list(vs.take(i as int)),
        decreases ps@.len() - i,
    {
        if i > 0 {
            out.append(",");
        }
        emit_record(&mut out, &ps[i]);
        proof {
            assert(vs[i as int] == ps@[i as int]@);
            if i == 0 {
                assert(vs.take(1) =~= seq![vs[0]]);
                assert(json_of_list(vs.take(1)) == json_of_record(vs[0]));
                assert(out@ =~= "{\"passwords\":["@ + json_of_list(vs.take(1)));
            } else {
                reveal_strlit(",");
                assert(","@ =~= seq![',']);
                lemma_json_list_snoc(vs, i as int);
                assert(out@ =~= "{\"passwords\":["@ + json_of_list(vs.take(i + 1)));
            }
        }
        i += 1;
    }
    out.append("]}");
    proof {
        assert(vs.take(vs.len() as int) =~= vs);
        assert(out@ =~= json_of_records(vs));
    }
    out
}

/// What a whole plaintext document denotes: the record list, or nothing when
/// the document does not parse, lacks the `passwords` key, or has trailing
/// content.
pub open spec fn parse_schema(s: Seq<char>) -> Option<Seq<PasswordView>> {
    let j = skip_ws(s, 0);
    if 0 <= j < s.len() && s[j] == '{' {
        match parse_top(s, j + 1, true, None) {
            Some(t) => match t.0 {
                Some(rs) => if skip_ws(s, t.1) == s.len() {
                    Some(rs)
                } else {
                    None
                },
                None => None,
            },
            None => None,
        }
    } else {
        None
    }
}

// ---------------------------------------------------------------------------
// The executable parser. Each function mirrors its specification twin and is
// proved to return exactly what the twin denotes.
// ---------------------------------------------------------------------------
fn is_ws_exec(c: char) -> (b: bool)
    ensures
        b == is_ws(c),
{
    c == ' ' || c == '\t' || c == '\n' || c == '\r'
}

fn is_digit_exec(c: char) -> (b: bool)
    ensures
        b == is_digit(c),
{
    let u = c as u32;
    48 <= u && u <= 57
}

fn skip_ws_exec(s: &Vec<char>, i: usize) -> (r: usize)
    requires
        i <= s@.len(),
    ensures
        r as int == skip_ws(s@, i as int),
        i <= r <= s@.len(),
{
    let n = s.len();
    let mut k = i;
    loop
        invariant
            i <= k <= n,
            n == s@.len(),
            skip_ws(s@, i as int) == skip_ws(s@, k as int),
        decreases n - k,
    {
        if k < n && is_ws_exec(s[k]) {
            k += 1;
        } else {
            return k;
        }
    }
}

fn unescape_exec(c: char) -> (r: Option<char>)
    ensures
        r == unescape(c),
{
    if c == '"' {
        Some('"')
    } else if c == '\\' {
        Some('\\')
    } else if c == '/' {
        Some('/')
    } else if c == 'n' {
        Some('\n')
    } else if c == 't' {
        Some('\t')
    } else if c == 'r' {
        Some('\r')
    } else if c == 'b' {
        Some('\x08')
    } else if c == 'f' {
        Some('\x0C')
    } else {
        None
    }
}

/// Relies on char::from_u32: the character with the given code, exactly for
/// Unicode scalar values.
#[verifier::external_body]
fn char_from_u32(u: u32) -> (r: Option<char>)
    ensures
        r matches Some(c) ==> c as u32 == u,
        r is None ==> !(u < 0xD800 || (0xE000 <= u && u <= 0x10FFFF)),
{
    char::from_u32(u)
}

fn hex_val_exec(c: char) -> (r: Option<u32>)
    ensures
        r matches Some(v) ==> hex_val(c) == Some(v as int) && v < 16,
        r is None ==> hex_val(c) is None,
{
    let u = c as u32;
    if 48 <= u && u <= 57 {
        Some(u - 48)
    } else if 97 <= u && u <= 102 {
        Some(u - 87)
    } else if 65 <= u && u <= 70 {
        Some(u - 55)
    } else {
        None
    }
}

fn hex4_exec(s: &Vec<char>, i: usize) -> (r: Option<u32>)
    requires
        i <= s@.len(),
    ensures
        r matches Some(v) ==> hex4(s@, i as int) == Some(v as int) && v < 0x10000,
        r is None ==> hex4(s@, i as int) is None,
{
    if s.len() - i < 4 {
        return None;
    }
    match (hex_val_exec(s[i]), hex_val_exec(s[i + 1]), hex_val_exec(s[i + 2]), hex_val_exec(
        s[i + 3],
    )) {
        (Some(a), Some(b), Some(c), Some(d)) => Some(a * 0x1000 + b * 0x100 + c * 16 + d),
        _ => None,
    }
}

fn parse_u_escape_exec(s: &Vec<char>, i: usize) -> (r: Option<(char, usize)>)
    requires
        i < s@.len(),
    ensures
        r matches Some(t) ==> (parse_u_escape(s@, i as int) matches Some(q) && q.0 == t.0 && q.1
            == t.1 as int && i < t.1 <= s@.len()),
        r is None ==> parse_u_escape(s@, i as int) is None,
{
    let n = s.len();
    if n - i < 6 {
        return None;
    }
    match hex4_exec(s, i + 2) {
        Some(h) => {
            if 0xD800 <= h && h < 0xDC00 {
                if n - i >= 8 && s[i + 6] == '\\' && s[i + 7] == 'u' {
                    match hex4_exec(s, i + 8) {
                        Some(l) => {
                            if 0xDC00 <= l && l < 0xE000 {
                                let u: u32 = 0x10000 + (h - 0xD800) * 0x400 + (l - 0xDC00);
                                match char_from_u32(u) {
                                    Some(c) => {
                                        proof {
                                            assert(u < 0xD800 || (0xE000 <= u && u <= 0x10FFFF));
                                            vstd::utf8::char_u32_cast(c, u);
                                        }
                                        Some((c, i + 12))
                                    },
                                    None => {
                                        proof {
                                            assert(false);
                                        }
                                        vstd::pervasive::unreached()
                                    },
                                }
                            } else {
                                None
                            }
                        },
                        None => None,
                    }
                } else {
                    None
                }
            } else if 0xDC00 <= h && h < 0xE000 {
                None
            } else {
                match char_from_u32(h) {
                    Some(c) => {
                        proof {
                            assert(h < 0xD800 || (0xE000 <= h && h <= 0x10FFFF));
                            vstd::utf8::char_u32_cast(c, h);
                        }
                        Some((c, i + 6))
                    },
                    None => {
                        proof {
                            assert(false);
                        }
                        vstd::pervasive::unreached()
                    },
                }
            }
        },
        None => None,
    }
}

fn parse_string_body_exec(s: &Vec<char>, i: usize) -> (r: Option<(Vec<char>, usize)>)
    requires
        i <= s@.len(),
    ensures
        r matches Some(t) ==> (parse_string_body(s@, i as int) matches Some(q) && q.0 == t.0@
            && q.1 == t.1 as int && i < t.1 <= s@.len()),
        r is None ==> parse_string_body(s@, i as int) is None,
    decreases s@.len() - i,
{
    if i >= s.len() {
        return None;
    }
    let c = s[i];
    if c == '"' {
        Some((Vec::new(), i + 1))
    } else if c == '\\' {
        if i + 1 < s.len() {
            if s[i + 1] == 'u' {
                match parse_u_escape_exec(s, i) {
                    Some(e) => match parse_string_body_exec(s, e.1) {
                        Some(t) => {
                            let mut v = t.0;
                            let j = t.1;
                            v.insert(0, e.0);
                            proof {
                                assert(v@ =~= seq![e.0] + t.0@);
                            }
                            Some((v, j))
                        },
                        None => None,
                    },
                    None => None,
                }
            } else {
                match unescape_exec(s[i + 1]) {
                    Some(e) => match parse_string_body_exec(s, i + 2) {
                        Some(t) => {
                            let mut v = t.0;
                            let j = t.1;
                            v.insert(0, e);
                            proof {
                                assert(v@ =~= seq![e] + t.0@);
                            }
                            Some((v, j))
                        },
                        None => None,
                    },
                    None => None,
                }
            }
        } else {
            None
        }
    } else {
        match parse_string_body_exec(s, i + 1) {
            Some(t) => {
                let mut v = t.0;
                let j = t.1;
                v.insert(0, c);
                proof {
                    assert(v@ =~= seq![c] + t.0@);
                }
                Some((v, j))
            },
            None => None,
        }
    }
}

fn parse_i64_exec(s: &Vec<char>, i: usize) -> (r: Option<(i64, usize)>)
    requires
        i <= s@.len(),
    ensures
        r matches Some(t) ==> (parse_i64(s@, i as int) matches Some(q) && q.0 == t.0 && q.1 == t.1
            as int && i < t.1 <= s@.len()),
        r is None ==> parse_i64(s@, i as int) is None,
{
    let n = s.len();
    let mut k = i;
    let mut neg = false;
    if k < n && s[k] == '-' {
        neg = true;
        k = k + 1;
    }
    let start = k;
    let mut mag: u64 = 0;
    let mut over = false;
    loop
        invariant
            i <= start <= k <= n,
            n == s@.len(),
            digits_end(s@, start as int) == digits_end(s@, k as int),
            !over ==> mag == digits_val(s@, start as int, k as int) && mag <= 0x8000000000000000,
            over ==> digits_val(s@, start as int, k as int) > 0x8000000000000000,
        ensures
            i <= start <= k <= n,
            n == s@.len(),
            digits_end(s@, start as int) == k as int,
            !over ==> mag == digits_val(s@, start as int, k as int) && mag <= 0x8000000000000000,
            over ==> digits_val(s@, start as int, k as int) > 0x8000000000000000,
        decreases n - k,
    {
        if k < n && is_digit_exec(s[k]) {
            let d: u64 = ((s[k] as u32) - 48) as u64;
            proof {
                assert(digits_val(s@, start as int, k + 1) == digits_val(s@, start as int, k as int)
                    * 10 + d);
            }
            if !over {
                if mag > (0x8000000000000000u64 - d) / 10 {
                    over = true;
                    proof {
                        assert(mag * 10 + d > 0x8000000000000000) by (nonlinear_arith)
                            requires
                                mag > (0x8000000000000000u64 - d) / 10,
                                d <= 9,
                        ;
                    }
                } else {
                    proof {
                        assert(mag * 10 + d <= 0x8000000000000000) by (nonlinear_arith)
                            requires
                                mag <= (0x8000000000000000u64 - d) / 10,
                                d <= 9,
                        ;
                    }
                    mag = mag * 10 + d;
                }
            } else {
                proof {
                    assert(digits_val(s@, start as int, k as int) * 10 + d > 0x8000000000000000)
                        by (nonlinear_arith)
                        requires
                            digits_val(s@, start as int, k as int) > 0x8000000000000000,
                            d >= 0,
                    ;
                }
            }
            k += 1;
        } else {
            proof {
                assert(digits_end(s@, k as int) == k);
            }
            break;
        }
    }
    if k == start {
        return None;
    }
    if over {
        return None;
    }
    if neg {
        if mag == 0x8000000000000000u64 {
            Some((i64::MIN, k))
        } else {
            Some((-(mag as i64), k))
        }
    } else {
        if mag > 0x7FFFFFFFFFFFFFFFu64 {
            None
        } else {
            Some((mag as i64, k))
        }
    }
}

fn skip_value_exec(s: &Vec<char>, i: usize) -> (r: Option<usize>)
    requires
        i <= s@.len(),
    ensures
        r matches Some(j) ==> skip_value(s@, i as int) == Some(j as int) && i < j <= s@.len(),
        r is None ==> skip_value(s@, i as int) is None,
    decreases s@.len() - i, 1int,
{
    let n = s.len();
    if i >= n {
        return None;
    }
    let c = s[i];
    if c == '"' {
        match parse_string_body_exec(s, i + 1) {
            Some(t) => Some(t.1),
            None => None,
        }
    } else if c == '-' || is_digit_exec(c) {
        match parse_i64_exec(s, i) {
            Some(t) => Some(t.1),
            None => None,
        }
    } else if c == 't' {
        if n - i >= 4 && s[i + 1] == 'r' && s[i + 2] == 'u' && s[i + 3] == 'e' {
            Some(i + 4)
        } else {
            None
        }
    } else if c == 'f' {
        if n - i >= 5 && s[i + 1] == 'a' && s[i + 2] == 'l' && s[i + 3] == 's' && s[i + 4] == 'e' {
            Some(i + 5)
        } else {
            None
        }
    } else if c == 'n' {
        if n - i >= 4 && s[i + 1] == 'u' && s[i + 2] == 'l' && s[i + 3] == 'l' {
            Some(i + 4)
        } else {
            None
        }
    } else if c == '[' {
        skip_elems_exec(s, i + 1, true)
    } else if c == '{' {
        skip_members_exec(s, i + 1, true)
    } else {
        None
    }
}

fn skip_elems_exec(s: &Vec<char>, i: usize, first: bool) -> (r: Option<usize>)
    requires
        i <= s@.len(),
    ensures
        r matches Some(j) ==> skip_elems(s@, i as int, first) == Some(j as int) && i <= j
            <= s@.len(),
        r is None ==> skip_elems(s@, i as int, first) is None,
    decreases s@.len() - i, 2int,
{
    let n = s.len();
    let j = skip_ws_exec(s, i);
    if first && j < n && s[j] == ']' {
        return Some(j + 1);
    }
    match skip_value_exec(s, j) {
        Some(k) => {
            let m = skip_ws_exec(s, k);
            if m < n && s[m] == ']' {
                Some(m + 1)
            } else if m < n && s[m] == ',' {
                skip_elems_exec(s, m + 1, false)
            } else {
                None
            }
        },
        None => None,
    }
}

fn skip_members_exec(s: &Vec<char>, i: usize, first: bool) -> (r: Option<usize>)
    requires
        i <= s@.len(),
    ensures
        r matches Some(j) ==> skip_members(s@, i as int, first) == Some(j as int) && i <= j
            <= s@.len(),
        r is None ==> skip_members(s@, i as int, first) is None,
    decreases s@.len() - i, 2int,
{
    let n = s.len();
    let j = skip_ws_exec(s, i);
    if first && j < n && s[j] == '}' {
        return Some(j + 1);
    }
    if !(j < n && s[j] == '"') {
        return None;
    }
    match parse_string_body_exec(s, j + 1) {
        Some(t) => {
            let k = skip_ws_exec(s, t.1);
            if !(k < n && s[k] == ':') {
                return None;
            }
            let m = skip_ws_exec(s, k + 1);
            match skip_value_exec(s, m) {
                Some(v) => {
                    let w = skip_ws_exec(s, v);
                    if w < n && s[w] == '}' {
                        Some(w + 1)
                    } else if w < n && s[w] == ',' {
                        skip_members_exec(s, w + 1, false)
                    } else {
                        None
                    }
                },
                None => None,
            }
        },
        None => None,
    }
}

/// The fields of one record collected while reading its members.
pub struct Fields {
    pub name: Option<Vec<char>>,
    pub username: Option<Vec<char>>,
    pub password: Option<Vec<char>>,
    pub created_at: Option<i64>,
    pub updated_at: Option<i64>,
}

impl View for Fields {
    type V = FieldsView;

    open spec fn view(&self) -> FieldsView {
        FieldsView {
            name: match self.name {
                Some(v) => Some(v@),
                None => None,
            },
            username: match self.username {
                Some(v) => Some(v@),
                None => None,
            },
            password: match self.password {
                Some(v) => Some(v@),
                None => None,
            },
            created_at: self.created_at,
            updated_at: self.updated_at,
        }
    }
}

fn parse_member_value_exec(s: &Vec<char>, i: usize, key: &Vec<char>, acc: Fields) -> (r: Option<
    (Fields, usize),
>)
    requires
        i <= s@.len(),
    ensures
        r matches Some(t) ==> (parse_member_value(s@, i as int, key@, acc@) matches Some(q) && q.0
            == t.0@ && q.1 == t.1 as int && i < t.1 <= s@.len()),
        r is None ==> parse_member_value(s@, i as int, key@, acc@) is None,
{
    let n = s.len();
    let is_name = eq_chars(key, "name");
    let is_username = eq_chars(key, "username");
    let is_password = eq_chars(key, "password");
    if is_name || is_username || is_password {
        if i < n && s[i] == '"' {
            match parse_string_body_exec(s, i + 1) {
                Some(t) => {
                    let val = t.0;
                    let fin = t.1;
                    let upd = if is_name {
                        Fields { name: Some(val), ..acc }
                    } else if is_username {
                        Fields { username: Some(val), ..acc }
                    } else {
                        Fields { password: Some(val), ..acc }
                    };
                    Some((upd, fin))
                },
                None => None,
            }
        } else {
            None
        }
    } else if eq_chars(key, "created_at") {
        match parse_i64_exec(s, i) {
            Some(t) => Some((Fields { created_at: Some(t.0), ..acc }, t.1)),
            None => None,
        }
    } else if eq_chars(key, "updated_at") {
        match parse_i64_exec(s, i) {
            Some(t) => Some((Fields { updated_at: Some(t.0), ..acc }, t.1)),
            None => None,
        }
    } else {
        match skip_value_exec(s, i) {
            Some(j) => Some((acc, j)),
            None => None,
        }
    }
}

fn parse_members_exec(s: &Vec<char>, i: usize, first: bool, acc: Fields) -> (r: Option<
    (Fields, usize),
>)
    requires
        i <= s@.len(),
    ensures
        r matches Some(t) ==> (parse_members(s@, i as int, first, acc@) matches Some(q) && q.0
            == t.0@ && q.1 == t.1 as int && i <= t.1 <= s@.len()),
        r is None ==> parse_members(s@, i as int, first, acc@) is None,
    decreases s@.len() - i,
{
    let n = s.len();
    let j = skip_ws_exec(s, i);
    if first && j < n && s[j] == '}' {
        return Some((acc, j + 1));
    }
    if !(j < n && s[j] == '"') {
        return None;
    }
    match parse_string_body_exec(s, j + 1) {
        Some(kt) => {
            let k = skip_ws_exec(s, kt.1);
            if !(k < n && s[k] == ':') {
                return None;
            }
            let m = skip_ws_exec(s, k + 1);
            match parse_member_value_exec(s, m, &kt.0, acc) {
                Some(vt) => {
                    let w = skip_ws_exec(s, vt.1);
                    if w < n && s[w] == '}' {
                        Some((vt.0, w + 1))
                    } else if w < n && s[w] == ',' {
                        parse_members_exec(s, w + 1, false, vt.0)
                    } else {
                        None
                    }
                },
                None => None,
            }
        },
        None => None,
    }
}

/// Builds the record its collected fields denote, when all five are present.
fn record_of_fields_exec(f: Fields) -> (r: Option<Password>)
    ensures
        r matches Some(p) ==> record_of_fields(f@) == Some(p@),
        r is None ==> record_of_fields(f@) is None,
{
    match (f.name, f.username, f.password, f.created_at, f.updated_at) {
        (Some(name), Some(username), Some(password), Some(created_at), Some(updated_at)) => {
            let p = Password {
                name: chars_to_string(&name),
                username: chars_to_string(&username),
                password: SafeString::new(chars_to_string(&password)),
                created_at,
                updated_at,
            };
            Some(p)
        },
        _ => None,
    }
}

fn parse_list_exec(s: &Vec<char>, i: usize, first: bool, acc: Vec<Password>) -> (r: Option<
    (Vec<Password>, usize),
>)
    requires
        i <= s@.len(),
    ensures
        r matches Some(t) ==> (parse_list(s@, i as int, first, views_of(acc@)) matches Some(q)
            && q.0 == views_of(t.0@) && q.1 == t.1 as int && i <= t.1 <= s@.len()),
        r is None ==> parse_list(s@, i as int, first, views_of(acc@)) is None,
    decreases s@.len() - i,
{
    let n = s.len();
    let j = skip_ws_exec(s, i);
    if first && j < n && s[j] == ']' {
        return Some((acc, j + 1));
    }
    if !(j < n && s[j] == '{') {
        return None;
    }
    let empty = Fields { name: None, username: None, password: None, created_at: None, updated_at: None };
    proof {
        assert(empty@ =~= FieldsView::empty());
    }
    match parse_members_exec(s, j + 1, true, empty) {
        Some(ft) => {
            match record_of_fields_exec(ft.0) {
                Some(rec) => {
                    let ghost old_acc = acc@;
                    let mut acc2 = acc;
                    acc2.push(rec);
                    proof {
                        assert(views_of(acc2@) =~= views_of(old_acc).push(rec@));
                    }
                    let w = skip_ws_exec(s, ft.1);
                    if w < n && s[w] == ']' {
                        Some((acc2, w + 1))
                    } else if w < n && s[w] == ',' {
                        parse_list_exec(s, w + 1, false, acc2)
                    } else {
                        None
                    }
                },
                None => None,
            }
        },
        None => None,
    }
}

/// The record views an optional record list holds.
pub open spec fn opt_views(o: Option<Vec<Password>>) -> Option<Seq<PasswordView>> {
    match o {
        Some(ps) => Some(views_of(ps@)),
        None => None,
    }
}

fn parse_top_exec(s: &Vec<char>, i: usize, first: bool, acc: Option<Vec<Password>>) -> (r: Option<
    (Option<Vec<Password>>, usize),
>)
    requires
        i <= s@.len(),
    ensures
        r matches Some(t) ==> (parse_top(s@, i as int, first, opt_views(acc)) matches Some(q)
            && q.0 == opt_views(t.0) && q.1 == t.1 as int && i <= t.1 <= s@.len()),
        r is None ==> parse_top(s@, i as int, first, opt_views(acc)) is None,
    decreases s@.len() - i,
{
    let n = s.len();
    let j = skip_ws_exec(s, i);
    if first && j < n && s[j] == '}' {
        return Some((acc, j + 1));
    }
    if !(j < n && s[j] == '"') {
        return None;
    }
    match parse_string_body_exec(s, j + 1) {
        Some(kt) => {
            let k = skip_ws_exec(s, kt.1);
            if !(k < n && s[k] == ':') {
                return None;
            }
            let m = skip_ws_exec(s, k + 1);
            let step: Option<(Option<Vec<Password>>, usize)> = if eq_chars(&kt.0, "passwords") {
                if m < n && s[m] == '[' {
                    match parse_list_exec(s, m + 1, true, Vec::new()) {
                        Some(lt) => Some((Some(lt.0), lt.1)),
                        None => None,
                    }
                } else {
                    None
                }
            } else {
                match skip_value_exec(s, m) {
                    Some(v) => Some((acc, v)),
                    None => None,
                }
            };
            proof {
                assert(views_of(Seq::<Password>::empty()) =~= Seq::<PasswordView>::empty());
            }
            match step {
                Some(st) => {
                    let found = st.0;
                    let pos = st.1;
                    let w = skip_ws_exec(s, pos);
                    if w < n && s[w] == '}' {
                        Some((found, w + 1))
                    } else if w < n && s[w] == ',' {
                        parse_top_exec(s, w + 1, false, found)
                    } else {
                        None
                    }
                },
                None => None,
            }
        },
        None => None,
    }
}

/// Reads a whole plaintext document: the record list it denotes, or nothing
/// when it is not a document of the expected shape.
pub fn decode_records(doc: &str) -> (r: Option<Vec<Password>>)
    ensures
        r matches Some(ps) ==> parse_schema(doc@) == Some(views_of(ps@)),
        r is None ==> parse_schema(doc@) is None,
{
    let s = str_chars(doc);
    let n = s.len();
    let j = skip_ws_exec(&s, 0);
    if !(j < n && s[j] == '{') {
        return None;
    }
    match parse_top_exec(&s, j + 1, true, None) {
        Some(t) => match t.0 {
            Some(rs) => {
                let e = skip_ws_exec(&s, t.1);
                if e == n {
                    Some(rs)
                } else {
                    None
                }
            },
            None => None,
        },
        None => None,
    }
}

// ---------------------------------------------------------------------------
// The round trip: parsing an emitted document gives back the records.
// ---------------------------------------------------------------------------
/// A string free of quotes and backslashes escapes to itself.
pub proof fn lemma_esc_plain(t: Seq<char>)
    requires
        forall|k: int| 0 <= k < t.len() ==> t[k] != '"' && t[k] != '\\',
    ensures
        esc(t) == t,
    decreases t.len(),
{
    if t.len() == 0 {
        assert(esc(t) =~= t);
    } else {
        lemma_esc_plain(t.skip(1));
        assert(esc(t) =~= seq![t[0]] + t.skip(1));
        assert(seq![t[0]] + t.skip(1) =~= t);
    }
}

/// Reading a string body over the escaped form of `t`, up to a closing
/// quote, gives back `t` and stops just after the quote.
pub proof fn lemma_parse_string_of_esc(s: Seq<char>, i: int, t: Seq<char>)
    requires
        0 <= i,
        i + esc(t).len() + 1 <= s.len(),
        s.subrange(i, i + esc(t).len()) == esc(t),
        s[i + esc(t).len()] == '"',
    ensures
        parse_string_body(s, i) == Some((t, i + esc(t).len() + 1)),
    decreases t.len(),
{
    if t.len() == 0 {
        assert(esc(t).len() == 0);
        assert(t =~= Seq::<char>::empty());
    } else {
        let c = t[0];
        let rest = t.skip(1);
        assert(esc(t) == esc_char(c) + esc(rest));
        assert forall|k: int| 0 <= k < esc(t).len() implies s[i + k] == esc(t)[k] by {
            assert(s.subrange(i, i + esc(t).len())[k] == s[i + k]);
        }
        if c == '"' || c == '\\' {
            assert(esc_char(c).len() == 2);
            assert(esc(t)[0] == '\\' && esc(t)[1] == c);
            assert(s[i] == '\\' && s[i + 1] == c);
            assert(unescape(c) == Some(c));
            assert(s.subrange(i + 2, i + 2 + esc(rest).len()) =~= esc(rest)) by {
                assert forall|k: int| 0 <= k < esc(rest).len() implies s.subrange(
                    i + 2,
                    i + 2 + esc(rest).len(),
                )[k] == esc(rest)[k] by {
                    assert(s[i + 2 + k] == esc(t)[k + 2]);
                    assert(esc(t)[k + 2] == esc(rest)[k]);
                }
            }
            lemma_parse_string_of_esc(s, i + 2, rest);
            assert(parse_string_body(s, i) == Some((seq![c] + rest, i + esc(t).len() + 1)));
            assert(seq![c] + rest =~= t);
        } else {
            assert(esc_char(c).len() == 1);
            assert(esc(t)[0] == c);
            assert(s[i] == c);
            assert(s.subrange(i + 1, i + 1 + esc(rest).len()) =~= esc(rest)) by {
                assert forall|k: int| 0 <= k < esc(rest).len() implies s.subrange(
                    i + 1,
                    i + 1 + esc(rest).len(),
                )[k] == esc(rest)[k] by {
                    assert(s[i + 1 + k] == esc(t)[k + 1]);
                    assert(esc(t)[k + 1] == esc(rest)[k]);
                }
            }
            lemma_parse_string_of_esc(s, i + 1, rest);
            assert(parse_string_body(s, i) == Some((seq![c] + rest, i + esc(t).len() + 1)));
            assert(seq![c] + rest =~= t);
        }
    }
}

/// Every character of a number's digit string is a digit.
pub proof fn lemma_dec_digits_are_digits(n: int)
    requires
        n >= 0,
    ensures
        dec_digits(n).len() >= 1,
        forall|k: int| 0 <= k < dec_digits(n).len() ==> is_digit(#[trigger] dec_digits(n)[k]),
    decreases n,
{
    if n <= 9 {
        let b: u8 = (48 + n) as u8;
        assert(b == 48 + n);
        let c: char = b as char;
        assert(c as u32 == 48 + n);
        assert(is_digit(digit_char(n)));
    } else {
        lemma_dec_digits_are_digits(n / 10);
        let b: u8 = (48 + n % 10) as u8;
        assert(b == 48 + n % 10);
        let c: char = b as char;
        assert(c as u32 == 48 + n % 10);
        assert(is_digit(digit_char(n % 10)));
        assert(forall|k: int|
            0 <= k < dec_digits(n).len() ==> is_digit(#[trigger] dec_digits(n)[k]));
    }
}

/// Where the digits stop: at the first non-digit, or the end.
proof fn lemma_digits_end_determined(s: Seq<char>, k: int, e: int)
    requires
        0 <= k <= e <= s.len(),
        forall|j: int| k <= j < e ==> is_digit(s[j]),
        e == s.len() || !is_digit(s[e]),
    ensures
        digits_end(s, k) == e,
    decreases e - k,
{
    if k < e {
        lemma_digits_end_determined(s, k + 1, e);
    }
}

/// The value read back from a number's digit string is the number.
proof fn lemma_digits_val_of_dec(s: Seq<char>, i: int, n: int)
    requires
        0 <= i,
        n >= 0,
        i + dec_digits(n).len() <= s.len(),
        s.subrange(i, i + dec_digits(n).len()) == dec_digits(n),
    ensures
        digits_val(s, i, i + dec_digits(n).len()) == n,
    decreases n,
{
    let d = dec_digits(n);
    assert forall|k: int| 0 <= k < d.len() implies s[i + k] == d[k] by {
        assert(s.subrange(i, i + d.len())[k] == s[i + k]);
    }
    if n <= 9 {
        assert(s[i + 0] == d[0]);
        assert(d == seq![digit_char(n)]);
        assert(s[i] == digit_char(n));
        let b: u8 = (48 + n) as u8;
        assert(b == 48 + n);
        let c: char = b as char;
        assert(c as u32 == 48 + n);
        assert(digits_val(s, i, i) == 0);
        assert(digits_val(s, i, i + 1) == digits_val(s, i, i) * 10 + (s[i] as u32 - 48));
        assert(digits_val(s, i, i + 1) == n);
    } else {
        let dq = dec_digits(n / 10);
        assert(d == dq.push(digit_char(n % 10)));
        assert(s.subrange(i, i + dq.len()) =~= dq) by {
            assert forall|k: int| 0 <= k < dq.len() implies s.subrange(i, i + dq.len())[k]
                == dq[k] by {
                assert(s[i + k] == d[k]);
                assert(d[k] == dq[k]);
            }
        }
        lemma_digits_val_of_dec(s, i, n / 10);
        assert(s[i + (d.len() - 1)] == d[d.len() - 1]);
        assert(d[d.len() - 1] == digit_char(n % 10));
        assert(s[i + d.len() - 1] == digit_char(n % 10));
        let b: u8 = (48 + n % 10) as u8;
        assert(b == 48 + n % 10);
        let c: char = b as char;
        assert(c as u32 == 48 + n % 10);
        assert(digits_val(s, i, i + d.len()) == digits_val(s, i, i + d.len() - 1) * 10 + n % 10);
    }
}

/// Reading a number over the decimal form of `n`, delimited by a non-digit
/// (or the end), gives back `n`.
pub proof fn lemma_parse_i64_of_dec(s: Seq<char>, i: int, n: i64)
    requires
        0 <= i,
        i + dec_int(n as int).len() <= s.len(),
        s.subrange(i, i + dec_int(n as int).len()) == dec_int(n as int),
        i + dec_int(n as int).len() == s.len() || !is_digit(s[i + dec_int(n as int).len()]),
    ensures
        parse_i64(s, i) == Some((n, i + dec_int(n as int).len())),
{
    let d = dec_int(n as int);
    assert forall|k: int| 0 <= k < d.len() implies s[i + k] == d[k] by {
        assert(s.subrange(i, i + d.len())[k] == s[i + k]);
    }
    if n >= 0 {
        let m = n as int;
        lemma_dec_digits_are_digits(m);
        assert(d == dec_digits(m));
        assert(!(s[i] == '-')) by {
            assert(s[i] == d[0]);
            assert(is_digit(d[0]));
            assert('-' as u32 == 45);
        }
        assert forall|j: int| i <= j < i + d.len() implies is_digit(s[j]) by {
            assert(s[j] == dec_digits(m)[j - i]);
        }
        lemma_digits_end_determined(s, i, i + d.len());
        lemma_digits_val_of_dec(s, i, m);
    } else {
        let m = -(n as int);
        lemma_dec_digits_are_digits(m);
        assert(d =~= seq!['-'] + dec_digits(m));
        assert(s[i + 0] == d[0]);
        assert(s[i] == '-');
        assert(s.subrange(i + 1, i + 1 + dec_digits(m).len()) =~= dec_digits(m)) by {
            assert forall|k: int| 0 <= k < dec_digits(m).len() implies s.subrange(
                i + 1,
                i + 1 + dec_digits(m).len(),
            )[k] == dec_digits(m)[k] by {
                assert(s[i + 1 + k] == d[k + 1]);
                assert(d[k + 1] == dec_digits(m)[k]);
            }
        }
        assert forall|j: int| i + 1 <= j < i + d.len() implies is_digit(s[j]) by {
            assert(s[j] == d[j - i]);
            assert(d[j - i] == dec_digits(m)[j - i - 1]);
        }
        lemma_digits_end_determined(s, i + 1, i + d.len());
        lemma_digits_val_of_dec(s, i + 1, m);
        assert(m <= 0x8000000000000000);
        assert((-m) as i64 == n);
    }
}

/// The fields the members of an emitted record collect.
pub open spec fn fields_of(p: PasswordView) -> FieldsView {
    FieldsView {
        name: Some(p.name),
        username: Some(p.username),
        password: Some(p.password),
        created_at: Some(p.created_at),
        updated_at: Some(p.updated_at),
    }
}

/// The fields collected after reading the name member.
pub open spec fn acc_name(p: PasswordView) -> FieldsView {
    FieldsView { name: Some(p.name), ..FieldsView::empty() }
}

/// ... and the username member.
pub open spec fn acc_username(p: PasswordView) -> FieldsView {
    FieldsView { username: Some(p.username), ..acc_name(p) }
}

/// ... and the password member.
pub open spec fn acc_password(p: PasswordView) -> FieldsView {
    FieldsView { password: Some(p.password), ..acc_username(p) }
}

/// ... and the created_at member.
pub open spec fn acc_created(p: PasswordView) -> FieldsView {
    FieldsView { created_at: Some(p.created_at), ..acc_password(p) }
}

/// The last member of an emitted record: updated_at, then the closing brace.
#[verifier::spinoff_prover]
proof fn lemma_rec_members_5(s: Seq<char>, i: int, p: PasswordView, o8: int)
    requires
        0 <= i,
        i + json_of_record(p).len() <= s.len(),
        s.subrange(i, i + json_of_record(p).len()) == json_of_record(p),
        o8 == i + 9 + esc(p.name).len() + 14 + esc(p.username).len() + 14 + esc(p.password).len()
            + 15 + dec_int(p.created_at as int).len(),
    ensures
        parse_members(s, o8 + 1, false, acc_created(p)) == Some(
            (fields_of(p), i + json_of_record(p).len()),
        ),
{
    reveal_strlit("{\"name\":\"");
    reveal_strlit("\",\"username\":\"");
    reveal_strlit("\",\"password\":\"");
    reveal_strlit("\",\"created_at\":");
    reveal_strlit(",\"updated_at\":");
    reveal_strlit("}");
    reveal_strlit("updated_at");
    reveal_strlit("name");
    reveal_strlit("username");
    reveal_strlit("password");
    reveal_strlit("created_at");
    let r = json_of_record(p);
    let l5 = ",\"updated_at\":"@;
    let d2 = dec_int(p.updated_at as int);
    let o9 = o8 + 14;
    let o10 = o9 + d2.len();
    assert(l5.len() == 14);
    assert(r.len() == 9 + esc(p.name).len() + 14 + esc(p.username).len() + 14 + esc(
        p.password,
    ).len() + 15 + dec_int(p.created_at as int).len() + 14 + d2.len() + 1);
    assert forall|k: int| 0 <= k < r.len() implies s[i + k] == r[k] by {
        assert(s.subrange(i, i + r.len())[k] == s[i + k]);
    }
    assert forall|k: int| 0 <= k < 14 implies s[o8 + k] == l5[k] by {
        assert(s[i + (o8 - i + k)] == r[o8 - i + k]);
        assert(r[o8 - i + k] == l5[k]);
    }
    assert(s[o8 + 1] == l5[1] && s[o8 + 13] == l5[13]);
    assert(s[o8 + 1] == '"' && s[o8 + 13] == ':');
    assert(skip_ws(s, o8 + 1) == o8 + 1);
    lemma_esc_plain("updated_at"@);
    assert(s.subrange(o8 + 2, o8 + 12) =~= "updated_at"@) by {
        assert forall|k: int| 0 <= k < 10 implies s.subrange(o8 + 2, o8 + 12)[k]
            == "updated_at"@[k] by {
            assert(s[o8 + (k + 2)] == l5[k + 2]);
        }
    }
    assert(s[o8 + 12] == l5[12] && l5[12] == '"');
    lemma_parse_string_of_esc(s, o8 + 2, "updated_at"@);
    assert(parse_string_body(s, o8 + 2) == Some(("updated_at"@, o8 + 13)));
    assert(skip_ws(s, o8 + 13) == o8 + 13);
    lemma_dec_digits_are_digits(if p.updated_at >= 0 {
        p.updated_at as int
    } else {
        -(p.updated_at as int)
    });
    assert(s.subrange(o9, o9 + d2.len()) =~= d2) by {
        assert forall|k: int| 0 <= k < d2.len() implies s.subrange(o9, o9 + d2.len())[k]
            == d2[k] by {
            assert(s[i + (o9 - i + k)] == r[o9 - i + k]);
            assert(r[o9 - i + k] == d2[k]);
        }
    }
    assert(s[o10] == '}') by {
        assert(s[i + (o10 - i)] == r[o10 - i]);
        assert(r[o10 - i] == "}"@[0]);
    }
    assert(!is_digit('}')) by {
        assert('}' as u32 == 125);
    }
    assert(s[o9] == d2[0]) by {
        assert(s[i + (o9 - i)] == r[o9 - i]);
        assert(r[o9 - i] == d2[0]);
    }
    assert(!is_ws(s[o9])) by {
        if p.updated_at >= 0 {
            assert(d2[0] == dec_digits(p.updated_at as int)[0]);
            assert(is_digit(d2[0]));
        } else {
            assert(d2 =~= seq!['-'] + dec_digits(-(p.updated_at as int)));
            assert(d2[0] == '-');
        }
    }
    assert(skip_ws(s, o9) == o9);
    lemma_parse_i64_of_dec(s, o9, p.updated_at);
    assert(parse_i64(s, o9) == Some((p.updated_at, o10)));
    assert("updated_at"@ != "name"@ && "updated_at"@ != "username"@ && "updated_at"@
        != "password"@ && "updated_at"@ != "created_at"@);
    let acc5 = FieldsView { updated_at: Some(p.updated_at), ..acc_created(p) };
    assert(parse_member_value(s, o9, "updated_at"@, acc_created(p)) == Some((acc5, o10)));
    assert(skip_ws(s, o10) == o10);
    assert(acc5 =~= fields_of(p));
    assert(parse_members(s, o8 + 1, false, acc_created(p)) == Some((acc5, o10 + 1)));
    assert(o10 + 1 == i + r.len());
}

/// The fourth member of an emitted record: created_at, then a comma.
#[verifier::spinoff_prover]
proof fn lemma_rec_members_4(s: Seq<char>, i: int, p: PasswordView, o6: int)
    requires
        0 <= i,
        i + json_of_record(p).len() <= s.len(),
        s.subrange(i, i + json_of_record(p).len()) == json_of_record(p),
        o6 == i + 9 + esc(p.name).len() + 14 + esc(p.username).len() + 14 + esc(p.password).len(),
    ensures
        parse_members(s, o6 + 2, false, acc_password(p)) == Some(
            (fields_of(p), i + json_of_record(p).len()),
        ),
{
    reveal_strlit("{\"name\":\"");
    reveal_strlit("\",\"username\":\"");
    reveal_strlit("\",\"password\":\"");
    reveal_strlit("\",\"created_at\":");
    reveal_strlit(",\"updated_at\":");
    reveal_strlit("}");
    reveal_strlit("created_at");
    reveal_strlit("name");
    reveal_strlit("username");
    reveal_strlit("password");
    reveal_strlit("updated_at");
    let r = json_of_record(p);
    let l4 = "\",\"created_at\":"@;
    let d1 = dec_int(p.created_at as int);
    let o7 = o6 + 15;
    let o8 = o7 + d1.len();
    assert(l4.len() == 15);
    assert(r.len() == 9 + esc(p.name).len() + 14 + esc(p.username).len() + 14 + esc(
        p.password,
    ).len() + 15 + d1.len() + 14 + dec_int(p.updated_at as int).len() + 1);
    assert forall|k: int| 0 <= k < r.len() implies s[i + k] == r[k] by {
        assert(s.subrange(i, i + r.len())[k] == s[i + k]);
    }
    assert forall|k: int| 0 <= k < 15 implies s[o6 + k] == l4[k] by {
        assert(s[i + (o6 - i + k)] == r[o6 - i + k]);
        assert(r[o6 - i + k] == l4[k]);
    }
    assert(s[o6 + 2] == l4[2] && s[o6 + 14] == l4[14]);
    assert(s[o6 + 2] == '"' && s[o6 + 14] == ':');
    assert(skip_ws(s, o6 + 2) == o6 + 2);
    lemma_esc_plain("created_at"@);
    assert(s.subrange(o6 + 3, o6 + 13) =~= "created_at"@) by {
        assert forall|k: int| 0 <= k < 10 implies s.subrange(o6 + 3, o6 + 13)[k]
            == "created_at"@[k] by {
            assert(s[o6 + (k + 3)] == l4[k + 3]);
        }
    }
    assert(s[o6 + 13] == l4[13] && l4[13] == '"');
    lemma_parse_string_of_esc(s, o6 + 3, "created_at"@);
    assert(parse_string_body(s, o6 + 3) == Some(("created_at"@, o6 + 14)));
    assert(skip_ws(s, o6 + 14) == o6 + 14);
    lemma_dec_digits_are_digits(if p.created_at >= 0 {
        p.created_at as int
    } else {
        -(p.created_at as int)
    });
    assert(s.subrange(o7, o7 + d1.len()) =~= d1) by {
        assert forall|k: int| 0 <= k < d1.len() implies s.subrange(o7, o7 + d1.len())[k]
            == d1[k] by {
            assert(s[i + (o7 - i + k)] == r[o7 - i + k]);
            assert(r[o7 - i + k] == d1[k]);
        }
    }
    assert(s[o8] == ',') by {
        assert(s[i + (o8 - i)] == r[o8 - i]);
        assert(r[o8 - i] == ",\"updated_at\":"@[0]);
    }
    assert(!is_digit(',')) by {
        assert(',' as u32 == 44);
    }
    assert(s[o7] == d1[0]) by {
        assert(s[i + (o7 - i)] == r[o7 - i]);
        assert(r[o7 - i] == d1[0]);
    }
    assert(!is_ws(s[o7])) by {
        if p.created_at >= 0 {
            assert(d1[0] == dec_digits(p.created_at as int)[0]);
            assert(is_digit(d1[0]));
        } else {
            assert(d1 =~= seq!['-'] + dec_digits(-(p.created_at as int)));
            assert(d1[0] == '-');
        }
    }
    assert(skip_ws(s, o7) == o7);
    lemma_parse_i64_of_dec(s, o7, p.created_at);
    assert(parse_i64(s, o7) == Some((p.created_at, o8)));
    assert("created_at"@ != "name"@ && "created_at"@ != "username"@ && "created_at"@
        != "password"@ && "created_at"@ != "updated_at"@);
    assert(parse_member_value(s, o7, "created_at"@, acc_password(p)) == Some(
        (acc_created(p), o8),
    ));
    assert(skip_ws(s, o8) == o8);
    lemma_rec_members_5(s, i, p, o8);
    assert(parse_members(s, o6 + 2, false, acc_password(p)) == Some(
        (fields_of(p), i + r.len()),
    ));
}

/// The third member of an emitted record: password, then a comma.
#[verifier::spinoff_prover]
proof fn lemma_rec_members_3(s: Seq<char>, i: int, p: PasswordView, o4: int)
    requires
        0 <= i,
        i + json_of_record(p).len() <= s.len(),
        s.subrange(i, i + json_of_record(p).len()) == json_of_record(p),
        o4 == i + 9 + esc(p.name).len() + 14 + esc(p.username).len(),
    ensures
        parse_members(s, o4 + 2, false, acc_username(p)) == Some(
            (fields_of(p), i + json_of_record(p).len()),
        ),
{
    reveal_strlit("{\"name\":\"");
    reveal_strlit("\",\"username\":\"");
    reveal_strlit("\",\"password\":\"");
    reveal_strlit("\",\"created_at\":");
    reveal_strlit(",\"updated_at\":");
    reveal_strlit("}");
    reveal_strlit("password");
    reveal_strlit("name");
    reveal_strlit("username");
    let r = json_of_record(p);
    let l3 = "\",\"password\":\""@;
    let e3 = esc(p.password);
    let o5 = o4 + 14;
    let o6 = o5 + e3.len();
    assert(l3.len() == 14);
    assert(r.len() == 9 + esc(p.name).len() + 14 + esc(p.username).len() + 14 + e3.len() + 15
        + dec_int(p.created_at as int).len() + 14 + dec_int(p.updated_at as int).len() + 1);
    assert forall|k: int| 0 <= k < r.len() implies s[i + k] == r[k] by {
        assert(s.subrange(i, i + r.len())[k] == s[i + k]);
    }
    assert forall|k: int| 0 <= k < 14 implies s[o4 + k] == l3[k] by {
        assert(s[i + (o4 - i + k)] == r[o4 - i + k]);
        assert(r[o4 - i + k] == l3[k]);
    }
    assert(s[o4 + 2] == l3[2] && s[o4 + 12] == l3[12] && s[o4 + 13] == l3[13]);
    assert(s[o4 + 2] == '"' && s[o4 + 12] == ':' && s[o4 + 13] == '"');
    assert(skip_ws(s, o4 + 2) == o4 + 2);
    lemma_esc_plain("password"@);
    assert(s.subrange(o4 + 3, o4 + 11) =~= "password"@) by {
        assert forall|k: int| 0 <= k < 8 implies s.subrange(o4 + 3, o4 + 11)[k]
            == "password"@[k] by {
            assert(s[o4 + (k + 3)] == l3[k + 3]);
        }
    }
    assert(s[o4 + 11] == l3[11] && l3[11] == '"');
    lemma_parse_string_of_esc(s, o4 + 3, "password"@);
    assert(parse_string_body(s, o4 + 3) == Some(("password"@, o4 + 12)));
    assert(skip_ws(s, o4 + 12) == o4 + 12);
    assert(skip_ws(s, o4 + 13) == o4 + 13);
    assert(s.subrange(o5, o5 + e3.len()) =~= e3) by {
        assert forall|k: int| 0 <= k < e3.len() implies s.subrange(o5, o5 + e3.len())[k]
            == e3[k] by {
            assert(s[i + (o5 - i + k)] == r[o5 - i + k]);
            assert(r[o5 - i + k] == e3[k]);
        }
    }
    assert(s[o6] == '"') by {
        assert(s[i + (o6 - i)] == r[o6 - i]);
        assert(r[o6 - i] == "\",\"created_at\":"@[0]);
    }
    lemma_parse_string_of_esc(s, o5, p.password);
    assert(parse_string_body(s, o5) == Some((p.password, o6 + 1)));
    assert("password"@ != "name"@ && "password"@ != "username"@);
    assert(parse_member_value(s, o4 + 13, "password"@, acc_username(p)) == Some(
        (acc_password(p), o6 + 1),
    ));
    assert(s[o6 + 1] == ',') by {
        assert(s[i + (o6 + 1 - i)] == r[o6 + 1 - i]);
        assert(r[o6 + 1 - i] == "\",\"created_at\":"@[1]);
    }
    assert(skip_ws(s, o6 + 1) == o6 + 1);
    lemma_rec_members_4(s, i, p, o6);
    assert(parse_members(s, o4 + 2, false, acc_username(p)) == Some(
        (fields_of(p), i + r.len()),
    ));
}

/// The second member of an emitted record: username, then a comma.
#[verifier::spinoff_prover]
proof fn lemma_rec_members_2(s: Seq<char>, i: int, p: PasswordView, o2: int)
    requires
        0 <= i,
        i + json_of_record(p).len() <= s.len(),
        s.subrange(i, i + json_of_record(p).len()) == json_of_record(p),
        o2 == i + 9 + esc(p.name).len(),
    ensures
        parse_members(s, o2 + 2, false, acc_name(p)) == Some(
            (fields_of(p), i + json_of_record(p).len()),
        ),
{
    reveal_strlit("{\"name\":\"");
    reveal_strlit("\",\"username\":\"");
    reveal_strlit("\",\"password\":\"");
    reveal_strlit("\",\"created_at\":");
    reveal_strlit(",\"updated_at\":");
    reveal_strlit("}");
    reveal_strlit("username");
    reveal_strlit("name");
    let r = json_of_record(p);
    let l2 = "\",\"username\":\""@;
    let e2 = esc(p.username);
    let o3 = o2 + 14;
    let o4 = o3 + e2.len();
    assert(l2.len() == 14);
    assert(r.len() == 9 + esc(p.name).len() + 14 + e2.len() + 14 + esc(p.password).len() + 15
        + dec_int(p.created_at as int).len() + 14 + dec_int(p.updated_at as int).len() + 1);
    assert forall|k: int| 0 <= k < r.len() implies s[i + k] == r[k] by {
        assert(s.subrange(i, i + r.len())[k] == s[i + k]);
    }
    assert forall|k: int| 0 <= k < 14 implies s[o2 + k] == l2[k] by {
        assert(s[i + (o2 - i + k)] == r[o2 - i + k]);
        assert(r[o2 - i + k] == l2[k]);
    }
    assert(s[o2 + 2] == l2[2] && s[o2 + 12] == l2[12] && s[o2 + 13] == l2[13]);
    assert(s[o2 + 2] == '"' && s[o2 + 12] == ':' && s[o2 + 13] == '"');
    assert(skip_ws(s, o2 + 2) == o2 + 2);
    lemma_esc_plain("username"@);
    assert(s.subrange(o2 + 3, o2 + 11) =~= "username"@) by {
        assert forall|k: int| 0 <= k < 8 implies s.subrange(o2 + 3, o2 + 11)[k]
            == "username"@[k] by {
            assert(s[o2 + (k + 3)] == l2[k + 3]);
        }
    }
    assert(s[o2 + 11] == l2[11] && l2[11] == '"');
    lemma_parse_string_of_esc(s, o2 + 3, "username"@);
    assert(parse_string_body(s, o2 + 3) == Some(("username"@, o2 + 12)));
    assert(skip_ws(s, o2 + 12) == o2 + 12);
    assert(skip_ws(s, o2 + 13) == o2 + 13);
    assert(s.subrange(o3, o3 + e2.len()) =~= e2) by {
        assert forall|k: int| 0 <= k < e2.len() implies s.subrange(o3, o3 + e2.len())[k]
            == e2[k] by {
            assert(s[i + (o3 - i + k)] == r[o3 - i + k]);
            assert(r[o3 - i + k] == e2[k]);
        }
    }
    assert(s[o4] == '"') by {
        assert(s[i + (o4 - i)] == r[o4 - i]);
        assert(r[o4 - i] == "\",\"password\":\""@[0]);
    }
    lemma_parse_string_of_esc(s, o3, p.username);
    assert(parse_string_body(s, o3) == Some((p.username, o4 + 1)));
    assert("username"@ != "name"@);
    assert(parse_member_value(s, o2 + 13, "username"@, acc_name(p)) == Some(
        (acc_username(p), o4 + 1),
    ));
    assert(s[o4 + 1] == ',') by {
        assert(s[i + (o4 + 1 - i)] == r[o4 + 1 - i]);
        assert(r[o4 + 1 - i] == "\",\"password\":\""@[1]);
    }
    assert(skip_ws(s, o4 + 1) == o4 + 1);
    lemma_rec_members_3(s, i, p, o4);
    assert(parse_members(s, o2 + 2, false, acc_name(p)) == Some((fields_of(p), i + r.len())));
}

/// Reading the members of an emitted record, just after its opening brace,
/// collects exactly its five fields and stops after its closing brace.
#[verifier::spinoff_prover]
pub proof fn lemma_parse_members_of_record(s: Seq<char>, i: int, p: PasswordView)
    requires
        0 <= i,
        i + json_of_record(p).len() <= s.len(),
        s.subrange(i, i + json_of_record(p).len()) == json_of_record(p),
    ensures
        parse_members(s, i + 1, true, FieldsView::empty()) == Some(
            (fields_of(p), i + json_of_record(p).len()),
        ),
{
    reveal_strlit("{\"name\":\"");
    reveal_strlit("\",\"username\":\"");
    reveal_strlit("\",\"password\":\"");
    reveal_strlit("\",\"created_at\":");
    reveal_strlit(",\"updated_at\":");
    reveal_strlit("}");
    reveal_strlit("name");
    let r = json_of_record(p);
    let l1 = "{\"name\":\""@;
    let e1 = esc(p.name);
    let o1 = i + 9;
    let o2 = o1 + e1.len();
    assert(l1.len() == 9);
    assert(r.len() == 9 + e1.len() + 14 + esc(p.username).len() + 14 + esc(p.password).len() + 15
        + dec_int(p.created_at as int).len() + 14 + dec_int(p.updated_at as int).len() + 1);
    assert forall|k: int| 0 <= k < r.len() implies s[i + k] == r[k] by {
        assert(s.subrange(i, i + r.len())[k] == s[i + k]);
    }
    assert forall|k: int| 0 <= k < 9 implies s[i + k] == l1[k] by {
        assert(s[i + k] == r[k]);
        assert(r[k] == l1[k]);
    }
    assert(s[i + 1] == l1[1] && s[i + 6] == l1[6] && s[i + 7] == l1[7] && s[i + 8] == l1[8]);
    assert(s[i + 1] == '"' && s[i + 6] == '"' && s[i + 7] == ':' && s[i + 8] == '"');
    assert(skip_ws(s, i + 1) == i + 1);
    lemma_esc_plain("name"@);
    assert(s.subrange(i + 2, i + 6) =~= "name"@) by {
        assert forall|k: int| 0 <= k < 4 implies s.subrange(i + 2, i + 6)[k] == "name"@[k] by {
            assert(s[i + (k + 2)] == l1[k + 2]);
        }
    }
    lemma_parse_string_of_esc(s, i + 2, "name"@);
    assert(parse_string_body(s, i + 2) == Some(("name"@, i + 7)));
    assert(skip_ws(s, i + 7) == i + 7);
    assert(skip_ws(s, i + 8) == i + 8);
    assert(s.subrange(o1, o1 + e1.len()) =~= e1) by {
        assert forall|k: int| 0 <= k < e1.len() implies s.subrange(o1, o1 + e1.len())[k]
            == e1[k] by {
            assert(s[i + (k + 9)] == r[k + 9]);
            assert(r[k + 9] == e1[k]);
        }
    }
    assert(s[o2] == '"') by {
        assert(s[i + (o2 - i)] == r[o2 - i]);
        assert(r[o2 - i] == "\",\"username\":\""@[0]);
    }
    lemma_parse_string_of_esc(s, o1, p.name);
    assert(parse_string_body(s, o1) == Some((p.name, o2 + 1)));
    assert(parse_member_value(s, i + 8, "name"@, FieldsView::empty()) == Some(
        (acc_name(p), o2 + 1),
    ));
    assert(s[o2 + 1] == ',') by {
        assert(s[i + (o2 + 1 - i)] == r[o2 + 1 - i]);
        assert(r[o2 + 1 - i] == "\",\"username\":\""@[1]);
    }
    assert(skip_ws(s, o2 + 1) == o2 + 1);
    lemma_rec_members_2(s, i, p, o2);
    assert(parse_members(s, i + 1, true, FieldsView::empty()) == Some(
        (fields_of(p), i + r.len()),
    ));
}

/// Reading the elements of an emitted array, from inside the brackets up to
/// the closing bracket, appends exactly the emitted records to the
/// accumulator.
#[verifier::spinoff_prover]
proof fn lemma_parse_list_of_json(
    s: Seq<char>,
    i: int,
    rs: Seq<PasswordView>,
    acc: Seq<PasswordView>,
    first: bool,
)
    requires
        0 <= i,
        i + json_of_list(rs).len() + 1 <= s.len(),
        s.subrange(i, i + json_of_list(rs).len()) == json_of_list(rs),
        s[i + json_of_list(rs).len()] == ']',
        rs.len() > 0 || first,
    ensures
        parse_list(s, i, first, acc) == Some((acc + rs, i + json_of_list(rs).len() + 1)),
    decreases rs.len(),
{
    reveal_strlit("{\"name\":\"");
    let jl = json_of_list(rs);
    if rs.len() == 0 {
        assert(jl.len() == 0);
        assert(skip_ws(s, i) == i);
        assert(acc + rs =~= acc);
        assert(parse_list(s, i, first, acc) == Some((acc, i + 1)));
    } else {
        let r0 = json_of_record(rs[0]);
        let rest = rs.skip(1);
        assert forall|k: int| 0 <= k < jl.len() implies s[i + k] == jl[k] by {
            assert(s.subrange(i, i + jl.len())[k] == s[i + k]);
        }
        assert(r0[0] == "{\"name\":\""@[0]);
        assert(r0[0] == '{');
        if rs.len() == 1 {
            assert(jl == r0);
            assert(s[i + 0] == jl[0]);
            assert(s[i] == '{');
            assert(skip_ws(s, i) == i);
            assert(s.subrange(i, i + r0.len()) == r0);
            lemma_parse_members_of_record(s, i, rs[0]);
            let p = rs[0];
            assert(record_of_fields(fields_of(p)) == Some(p)) by {
                assert(record_of_fields(fields_of(p))->0 =~= p);
            }
            assert(s[i + r0.len()] == ']');
            assert(skip_ws(s, i + r0.len()) == i + r0.len());
            assert(parse_list(s, i, first, acc) == Some((acc.push(p), i + r0.len() + 1)));
            assert(acc.push(p) =~= acc + rs);
        } else {
            assert(jl == r0 + seq![','] + json_of_list(rest));
            assert(s[i + 0] == jl[0]);
            assert(jl[0] == r0[0]);
            assert(s[i] == '{');
            assert(skip_ws(s, i) == i);
            assert(s.subrange(i, i + r0.len()) =~= r0) by {
                assert forall|k: int| 0 <= k < r0.len() implies s.subrange(i, i + r0.len())[k]
                    == r0[k] by {
                    assert(s[i + k] == jl[k]);
                    assert(jl[k] == r0[k]);
                }
            }
            lemma_parse_members_of_record(s, i, rs[0]);
            let p = rs[0];
            assert(record_of_fields(fields_of(p)) == Some(p)) by {
                assert(record_of_fields(fields_of(p))->0 =~= p);
            }
            let w = i + r0.len();
            assert(s[w] == ',') by {
                assert(s[i + (w - i)] == jl[w - i]);
                assert(jl[w - i] == ',');
            }
            assert(skip_ws(s, w) == w);
            assert(s.subrange(w + 1, w + 1 + json_of_list(rest).len()) =~= json_of_list(rest))
                by {
                assert forall|k: int| 0 <= k < json_of_list(rest).len() implies s.subrange(
                    w + 1,
                    w + 1 + json_of_list(rest).len(),
                )[k] == json_of_list(rest)[k] by {
                    assert(s[i + (w + 1 - i + k)] == jl[w + 1 - i + k]);
                    assert(jl[w + 1 - i + k] == json_of_list(rest)[k]);
                }
            }
            assert(s[w + 1 + json_of_list(rest).len()] == ']') by {
                assert(w + 1 + json_of_list(rest).len() == i + jl.len());
            }
            lemma_parse_list_of_json(s, w + 1, rest, acc.push(p), false);
            assert(acc.push(p) + rest =~= acc + rs);
            assert(parse_list(s, i, first, acc) == Some((acc + rs, i + jl.len() + 1)));
        }
    }
}

/// Round trip of the document: parsing what a record list is emitted as
/// gives back exactly that list.
#[verifier::spinoff_prover]
pub proof fn lemma_parse_schema_of_json(rs: Seq<PasswordView>)
    ensures
        parse_schema(json_of_records(rs)) == Some(rs),
{
    reveal_strlit("{\"passwords\":[");
    reveal_strlit("]}");
    reveal_strlit("passwords");
    let s = json_of_records(rs);
    let jl = json_of_list(rs);
    let jln = jl.len() as int;
    let lh = "{\"passwords\":["@;
    assert(lh.len() == 14);
    assert(s.len() == 14 + jln + 2);
    assert forall|k: int| 0 <= k < 14 implies s[k] == lh[k] by {
        assert(s[k] == (lh + jl + "]}"@)[k]);
    }
    assert(s[0] == '{' && s[1] == '"' && s[11] == '"' && s[12] == ':' && s[13] == '[');
    assert(skip_ws(s, 0) == 0);
    assert(skip_ws(s, 1) == 1);
    lemma_esc_plain("passwords"@);
    assert(s.subrange(2, 11) =~= "passwords"@) by {
        assert forall|k: int| 0 <= k < 9 implies s.subrange(2, 11)[k] == "passwords"@[k] by {
            assert(s[0 + (k + 2)] == lh[k + 2]);
        }
    }
    lemma_parse_string_of_esc(s, 2, "passwords"@);
    assert(parse_string_body(s, 2) == Some(("passwords"@, 12int)));
    assert(skip_ws(s, 12) == 12);
    assert(skip_ws(s, 13) == 13);
    assert(s.subrange(14, 14 + jln) =~= jl) by {
        assert forall|k: int| 0 <= k < jln implies s.subrange(14, 14 + jln)[k]
            == jl[k] by {
            assert(s[k + 14] == (lh + jl + "]}"@)[k + 14]);
        }
    }
    assert(s[14 + jln] == ']') by {
        assert(s[14 + jln] == (lh + jl + "]}"@)[14 + jln]);
        assert((lh + jl + "]}"@)[14 + jln] == "]}"@[0]);
    }
    lemma_parse_list_of_json(s, 14, rs, Seq::empty(), true);
    assert(Seq::empty() + rs =~= rs);
    assert(parse_list(s, 14, true, Seq::<PasswordView>::empty()) == Some((rs, 15 + jln)));
    assert(s[15 + jln] == '}') by {
        assert(s[15 + jln] == (lh + jl + "]}"@)[15 + jln]);
        assert((lh + jl + "]}"@)[15 + jln] == "]}"@[1]);
    }
    assert(skip_ws(s, 15 + jln) == 15 + jln);
    assert(parse_top(s, 1, true, None) == Some((Some(rs), 16 + jln)));
    assert(skip_ws(s, 16 + jln) == 16 + jln);
    assert(parse_schema(s) == Some(rs));
}

} // verus!
