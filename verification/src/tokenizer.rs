//! Token boundaries within a line: a token is a maximal run of
//! non-terminating characters, located by its start offset. The
//! tokenizer and the pattern matchers share these definitions.

use vstd::prelude::*;
use crate::dictionary_language::{Language, spec_is_terminating};
use crate::text::spec_is_upper;

verus! {

/// One raw token: its start offset in the line and its text.
pub ghost struct TokenModel {
    pub start: int,
    pub text: Seq<char>,
}

/// The offset just past the token that begins at `i`: the first position
/// at or after `i` holding a terminating character, or the end of the
/// line.
pub open spec fn spec_token_end(lang: Language, s: Seq<char>, i: int) -> int
    decreases s.len() - i,
    when 0 <= i <= s.len()
{
    if i >= s.len() || spec_is_terminating(lang, s[i]) {
        i
    } else {
        spec_token_end(lang, s, i + 1)
    }
}

pub proof fn lemma_token_end(lang: Language, s: Seq<char>, i: int)
    requires
        0 <= i <= s.len(),
    ensures
        i <= spec_token_end(lang, s, i) <= s.len(),
        forall|m: int|
            i <= m < spec_token_end(lang, s, i) ==> !spec_is_terminating(lang, s[m]),
        spec_token_end(lang, s, i) < s.len() ==> spec_is_terminating(
            lang,
            s[spec_token_end(lang, s, i)],
        ),
        i < s.len() && !spec_is_terminating(lang, s[i]) ==> spec_token_end(lang, s, i) > i,
    decreases s.len() - i,
{
    if i < s.len() && !spec_is_terminating(lang, s[i]) {
        lemma_token_end(lang, s, i + 1);
    }
}

/// A scan that saw no terminating character before `j` and stopped at
/// one (or at the end) found exactly the token end.
pub proof fn lemma_token_end_is(lang: Language, s: Seq<char>, i: int, j: int)
    requires
        0 <= i <= j <= s.len(),
        forall|m: int| i <= m < j ==> !spec_is_terminating(lang, s[m]),
        j == s.len() || spec_is_terminating(lang, s[j]),
    ensures
        spec_token_end(lang, s, i) == j,
    decreases j - i,
{
    if i < j {
        lemma_token_end_is(lang, s, i + 1, j);
    }
}

/// The tokens of `s` that begin at or after offset `i`, in order.
pub open spec fn spec_tokens_from(lang: Language, s: Seq<char>, i: int) -> Seq<TokenModel>
    decreases s.len() - i,
    when 0 <= i <= s.len()
    via spec_tokens_from_dec
{
    if i >= s.len() {
        Seq::empty()
    } else if spec_is_terminating(lang, s[i]) {
        spec_tokens_from(lang, s, i + 1)
    } else {
        let j = spec_token_end(lang, s, i);
        seq![TokenModel { start: i, text: s.subrange(i, j) }] + spec_tokens_from(lang, s, j)
    }
}

#[via_fn]
proof fn spec_tokens_from_dec(lang: Language, s: Seq<char>, i: int) {
    if 0 <= i < s.len() && !spec_is_terminating(lang, s[i]) {
        lemma_token_end(lang, s, i);
    }
}

/// A token is a proper-noun candidate when its first character is a
/// capital letter — at offset 0 under the line-start heuristic, which
/// takes precedence, anywhere else under the general name pattern; the
/// two classify a token alike, so the tie-break is immaterial here.
pub open spec fn spec_is_capitalized(t: TokenModel) -> bool {
    t.text.len() > 0 && spec_is_upper(t.text[0])
}

/// Finds the end of the token beginning at `i`.
pub fn token_end(lang: Language, s: &str, i: usize) -> (j: usize)
    requires
        i <= s@.len(),
    ensures
        j == spec_token_end(lang, s@, i as int),
        i <= j <= s@.len(),
{
    let n = s.unicode_len();
    let mut j: usize = i;
    loop
        invariant
            i <= j <= n,
            n == s@.len(),
            forall|m: int| i <= m < j ==> !spec_is_terminating(lang, s@[m]),
        ensures
            i <= j <= n,
            forall|m: int| i <= m < j ==> !spec_is_terminating(lang, s@[m]),
            j == n || spec_is_terminating(lang, s@[j as int]),
        decreases n - j,
    {
        if j == n {
            break ;
        }
        let c = s.get_char(j);
        if lang.is_terminating(c) {
            break ;
        }
        j = j + 1;
    }
    proof {
        lemma_token_end_is(lang, s@, i as int, j as int);
    }
    j
}

} // verus!
