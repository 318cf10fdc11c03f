//! The matching capability behind tokenization: a parser is compiled
//! once from a language's pattern source string, and then locates tokens
//! in a line. Only the pattern sources the languages define are valid;
//! any other source is a construction-time error, never a per-call one.

use vstd::prelude::*;
use crate::dictionary_language::{Language, spec_is_terminating};
use crate::text::{is_upper_char, spec_is_upper, str_eq};
use crate::tokenizer::{lemma_token_end, spec_token_end, token_end};

verus! {

/// What a compiled pattern recognizes.
#[derive(Clone, Copy, Debug, PartialEq, Eq, Structural)]
pub enum MatchPattern {
    /// A capitalized token anywhere at or after the offset.
    ProperNoun,
    /// A capitalized token anchored exactly at the offset.
    LineStartName,
    /// Any token at or after the offset.
    GeneralWord,
}

/// The pattern a source string compiles to, if it is one of the sources
/// the languages define.
pub open spec fn spec_pattern_kind(s: Seq<char>) -> Option<MatchPattern> {
    if s == "[A-Z][a-z]*"@ {
        Some(MatchPattern::ProperNoun)
    } else if s == "^[A-Z][a-z]*"@ {
        Some(MatchPattern::LineStartName)
    } else if s == "[A-Za-z]+"@ {
        Some(MatchPattern::GeneralWord)
    } else {
        None
    }
}

/// The texts of the tokens a pattern picks out of `s` at or after
/// offset `i`, in order. The anchored pattern looks only at a token
/// beginning exactly at the offset; the others scan to the end.
pub open spec fn spec_matches_from(
    kind: MatchPattern,
    lang: Language,
    s: Seq<char>,
    i: int,
) -> Seq<Seq<char>>
    decreases s.len() - i,
    when 0 <= i <= s.len()
    via spec_matches_from_dec
{
    if i >= s.len() {
        Seq::empty()
    } else if spec_is_terminating(lang, s[i]) {
        if kind is LineStartName {
            Seq::empty()
        } else {
            spec_matches_from(kind, lang, s, i + 1)
        }
    } else {
        let j = spec_token_end(lang, s, i);
        let t = s.subrange(i, j);
        let head = if kind is GeneralWord || spec_is_upper(t[0]) {
            seq![t]
        } else {
            Seq::<Seq<char>>::empty()
        };
        if kind is LineStartName {
            head
        } else {
            head + spec_matches_from(kind, lang, s, j)
        }
    }
}

#[via_fn]
proof fn spec_matches_from_dec(kind: MatchPattern, lang: Language, s: Seq<char>, i: int) {
    if 0 <= i < s.len() && !spec_is_terminating(lang, s[i]) {
        lemma_token_end(lang, s, i);
    }
}

/// A compiled extraction pattern, bound to the language whose source
/// string it was compiled from.
#[derive(Debug)]
pub struct RegexParser {
    kind: MatchPattern,
    language: Language,
}

/// The shape of a compiled pattern: what it recognizes, and in which
/// language's tokenization.
pub ghost struct RegexParserModel {
    pub kind: MatchPattern,
    pub language: Language,
}

impl View for RegexParser {
    type V = RegexParserModel;

    closed spec fn view(&self) -> RegexParserModel {
        RegexParserModel { kind: self.kind, language: self.language }
    }
}

/// The matching capability the tokenizer's patterns satisfy.
pub trait RegularExpressionParser {
    /// The first match at or after the offset, if any.
    fn single_match(&self, source: &str, offset: usize) -> Option<String>
        requires
            offset <= source@.len(),
    ;

    /// All matches at or after the offset, in order of position.
    fn all_matches(&self, source: &str, offset: usize) -> Vec<String>
        requires
            offset <= source@.len(),
    ;
}

impl RegexParser {
    /// Compiles a pattern source string. A source the languages do not
    /// define has no meaning here, so the caller must hold one of the
    /// defined sources. Every defined source belongs to English.
    pub fn new(pattern: &str) -> (r: RegexParser)
        requires
            spec_pattern_kind(pattern@) is Some,
        ensures
            Some(r@.kind) == spec_pattern_kind(pattern@),
            r@.language == Language::English,
    {
        if str_eq(pattern, "[A-Z][a-z]*") {
            RegexParser { kind: MatchPattern::ProperNoun, language: Language::English }
        } else if str_eq(pattern, "^[A-Z][a-z]*") {
            RegexParser { kind: MatchPattern::LineStartName, language: Language::English }
        } else if str_eq(pattern, "[A-Za-z]+") {
            RegexParser { kind: MatchPattern::GeneralWord, language: Language::English }
        } else {
            proof {
                assert(false);
            }
            RegexParser { kind: MatchPattern::GeneralWord, language: Language::English }
        }
    }

    /// The text of the first token the pattern picks out at or after
    /// the offset, or nothing when no token matches.
    pub fn single_match(&self, source: &str, offset: usize) -> (r: Option<String>)
        requires
            offset <= source@.len(),
        ensures
            ({
                let ms = spec_matches_from(self@.kind, self@.language, source@, offset as int);
                &&& (r is Some <==> ms.len() > 0)
                &&& (r is Some ==> r->Some_0@ == ms[0])
            }),
    {
        let lang = self.language;
        let kind = self.kind;
        let n = source.unicode_len();
        let mut i: usize = offset;
        while i < n
            invariant
                offset <= i <= n,
                n == source@.len(),
                lang == self@.language,
                kind == self@.kind,
                spec_matches_from(kind, lang, source@, offset as int) == spec_matches_from(
                    kind,
                    lang,
                    source@,
                    i as int,
                ),
            decreases n - i,
        {
            let c = source.get_char(i);
            if lang.is_terminating(c) {
                if matches!(kind, MatchPattern::LineStartName) {
                    return None;
                }
                i = i + 1;
            } else {
                let j = token_end(lang, source, i);
                proof {
                    lemma_token_end(lang, source@, i as int);
                }
                let hit = matches!(kind, MatchPattern::GeneralWord) || is_upper_char(
                    source.get_char(i),
                );
                if hit {
                    let t = source.substring_char(i, j);
                    proof {
                        let ms = spec_matches_from(kind, lang, source@, i as int);
                        assert(ms[0] == source@.subrange(i as int, j as int));
                    }
                    return Some(t.to_owned());
                }
                if matches!(kind, MatchPattern::LineStartName) {
                    return None;
                }
                i = j;
            }
        }
        None
    }

    /// The texts of all tokens the pattern picks out at or after the
    /// offset, in order of position; a token sighted more than once
    /// appears once per sighting.
    pub fn all_matches(&self, source: &str, offset: usize) -> (r: Vec<String>)
        requires
            offset <= source@.len(),
        ensures
            r.deep_view() == spec_matches_from(self@.kind, self@.language, source@, offset as int),
    {
        let lang = self.language;
        let kind = self.kind;
        let n = source.unicode_len();
        let mut acc: Vec<String> = Vec::new();
        let mut i: usize = offset;
        while i < n
            invariant
                offset <= i <= n,
                n == source@.len(),
                lang == self@.language,
                kind == self@.kind,
                spec_matches_from(kind, lang, source@, offset as int) == acc.deep_view()
                    + spec_matches_from(kind, lang, source@, i as int),
            decreases n - i,
        {
            let ghost pre = acc.deep_view();
            let c = source.get_char(i);
            if lang.is_terminating(c) {
                if matches!(kind, MatchPattern::LineStartName) {
                    proof {
                        assert(acc.deep_view() + spec_matches_from(kind, lang, source@, i as int)
                            =~= acc.deep_view());
                    }
                    return acc;
                }
                i = i + 1;
            } else {
                let j = token_end(lang, source, i);
                proof {
                    lemma_token_end(lang, source@, i as int);
                }
                let ghost ms_here = spec_matches_from(kind, lang, source@, i as int);
                let hit = matches!(kind, MatchPattern::GeneralWord) || is_upper_char(
                    source.get_char(i),
                );
                if hit {
                    let t = source.substring_char(i, j);
                    acc.push(t.to_owned());
                    proof {
                        assert(acc.deep_view() =~= pre + seq![
                            source@.subrange(i as int, j as int),
                        ]);
                    }
                }
                if matches!(kind, MatchPattern::LineStartName) {
                    proof {
                        assert(spec_matches_from(kind, lang, source@, offset as int)
                            =~= acc.deep_view());
                    }
                    return acc;
                }
                proof {
                    assert(pre + ms_here =~= acc.deep_view() + spec_matches_from(
                        kind,
                        lang,
                        source@,
                        j as int,
                    ));
                }
                i = j;
            }
        }
        proof {
            assert(acc.deep_view() + spec_matches_from(kind, lang, source@, n as int)
                =~= acc.deep_view());
        }
        acc
    }
}

impl RegularExpressionParser for RegexParser {
    fn single_match(&self, source: &str, offset: usize) -> Option<String> {
        RegexParser::single_match(self, source, offset)
    }

    fn all_matches(&self, source: &str, offset: usize) -> Vec<String> {
        RegexParser::all_matches(self, source, offset)
    }
}

} // verus!
