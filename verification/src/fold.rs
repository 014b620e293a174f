//! Case folding for record names. Lookup, insertion and deletion compare
//! names case-insensitively; the rule implemented here is ASCII lowercasing,
//! applied character by character, with all other characters left untouched.

use vstd::prelude::*;

verus! {

/// The fold of one character: ASCII uppercase letters map to lowercase,
/// everything else is unchanged.
pub open spec fn fold_char(c: char) -> char {
    if 65 <= c as u32 && c as u32 <= 90 {
        (((c as u32) + 32) as u8) as char
    } else {
        c
    }
}

/// The fold of a whole name, character by character.
pub open spec fn fold(s: Seq<char>) -> Seq<char> {
    s.map_values(|c: char| fold_char(c))
}

/// Folds one character.
pub fn fold_char_exec(c: char) -> (r: char)
    ensures
        r == fold_char(c),
{
    let u: u32 = c as u32;
    if 65 <= u && u <= 90 {
        ((u + 32) as u8) as char
    } else {
        c
    }
}

/// Whether two names are equal under case folding.
pub open spec fn fold_eq(a: Seq<char>, b: Seq<char>) -> bool {
    fold(a) == fold(b)
}

/// Compares two names case-insensitively.
pub fn eq_fold(a: &str, b: &str) -> (r: bool)
    ensures
        r == fold_eq(a@, b@),
{
    let la = a.unicode_len();
    let lb = b.unicode_len();
    if la != lb {
        proof {
            assert(fold(a@).len() == a@.len());
            assert(fold(b@).len() == b@.len());
        }
        return false;
    }
    let mut i: usize = 0;
    while i < la
        invariant
            la == a@.len(),
            lb == b@.len(),
            la == lb,
            i <= la,
            forall|j: int| 0 <= j < i ==> fold(a@)[j] == fold(b@)[j],
        decreases la - i,
    {
        let ca = a.get_char(i);
        let cb = b.get_char(i);
        if fold_char_exec(ca) != fold_char_exec(cb) {
            proof {
                assert(fold(a@)[i as int] != fold(b@)[i as int]);
            }
            return false;
        }
        i += 1;
    }
    proof {
        assert(fold(a@) =~= fold(b@));
    }
    true
}

} // verus!
