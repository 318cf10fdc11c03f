//! Character and string helpers shared by the tokenizer and the stores:
//! ASCII case folding, character classes, and string comparison.

use vstd::prelude::*;

verus! {

/// True for the ASCII lowercase letters.
pub open spec fn spec_is_lower(c: char) -> bool {
    'a' <= c <= 'z'
}

/// True for the ASCII uppercase letters.
pub open spec fn spec_is_upper(c: char) -> bool {
    'A' <= c <= 'Z'
}

/// True for ASCII letters of either case.
pub open spec fn spec_is_letter(c: char) -> bool {
    spec_is_lower(c) || spec_is_upper(c)
}

/// Folds a single ASCII uppercase letter to lowercase; every other
/// character passes through unchanged.
pub open spec fn spec_lower_char(c: char) -> char {
    if spec_is_upper(c) {
        (((c as u32) + 32) as u8) as char
    } else {
        c
    }
}

/// The case-folded form of a character sequence: the canonical key under
/// which a word is stored.
pub open spec fn spec_lower(s: Seq<char>) -> Seq<char> {
    s.map_values(|c: char| spec_lower_char(c))
}

/// Case folding is idempotent: folding an already folded sequence
/// changes nothing.
pub proof fn lemma_lower_idempotent(s: Seq<char>)
    ensures
        spec_lower(spec_lower(s)) =~= spec_lower(s),
{
    assert forall|i: int| 0 <= i < s.len() implies spec_lower_char(
        spec_lower_char(s[i]),
    ) == spec_lower_char(s[i]) by {
        let c = s[i];
        if spec_is_upper(c) {
            assert(!spec_is_upper(spec_lower_char(c)));
        }
    }
}

pub fn is_upper_char(c: char) -> (r: bool)
    ensures
        r == spec_is_upper(c),
{
    'A' <= c && c <= 'Z'
}

pub fn lower_char(c: char) -> (r: char)
    ensures
        r == spec_lower_char(c),
{
    if 'A' <= c && c <= 'Z' {
        let u: u8 = (c as u8) + 32;
        u as char
    } else {
        c
    }
}

/// Relies on `String::push`: appends one character to the string.
#[verifier::external_body]
pub fn push_char(s: &mut String, c: char)
    ensures
        final(s)@ == old(s)@.push(c),
{
    s.push(c);
}

/// Builds the case-folded copy of a string: the canonical lookup key.
pub fn to_folded(s: &str) -> (r: String)
    ensures
        r@ == spec_lower(s@),
{
    let n = s.unicode_len();
    let mut r = String::new();
    let mut i: usize = 0;
    while i < n
        invariant
            i <= n,
            n == s@.len(),
            r@ =~= spec_lower(s@.subrange(0, i as int)),
        decreases n - i,
    {
        let c = lower_char(s.get_char(i));
        push_char(&mut r, c);
        i = i + 1;
        assert(r@ =~= spec_lower(s@.subrange(0, i as int)));
    }
    assert(s@.subrange(0, n as int) =~= s@);
    r
}

/// Compares two strings character for character.
pub fn str_eq(a: &str, b: &str) -> (r: bool)
    ensures
        r == (a@ == b@),
{
    let na = a.unicode_len();
    let nb = b.unicode_len();
    if na != nb {
        assert(a@ != b@);
        return false;
    }
    let mut i: usize = 0;
    while i < na
        invariant
            i <= na,
            na == a@.len(),
            na == b@.len(),
            forall|j: int| 0 <= j < i ==> a@[j] == b@[j],
        decreases na - i,
    {
        if a.get_char(i) != b.get_char(i) {
            return false;
        }
        i = i + 1;
    }
    assert(a@ =~= b@);
    true
}

} // verus!
