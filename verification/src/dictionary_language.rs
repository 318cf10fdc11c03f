//! The closed set of languages a dictionary can be built for, together
//! with the per-language tokenization parameters: the minimal length of
//! a substantial word, the characters that terminate a token, and the
//! source strings of the three extraction patterns.

use vstd::prelude::*;
use crate::text::spec_is_letter;

verus! {

/// A language the pipeline can be configured for.
#[derive(Clone, Copy, Debug, PartialEq, Eq, Structural)]
pub enum Language {
    English,
}

/// Tokens shorter than this are discarded as noise.
pub open spec fn spec_substantial_length(lang: Language) -> nat {
    match lang {
        Language::English => 3,
    }
}

/// A character that ends a token: whitespace, punctuation, digits —
/// everything that is not an ASCII letter.
pub open spec fn spec_is_terminating(lang: Language, c: char) -> bool {
    match lang {
        Language::English => !spec_is_letter(c),
    }
}

impl Language {
    /// The minimal length of a substantial word for this language.
    pub fn substantial_length(&self) -> (r: usize)
        ensures
            r == spec_substantial_length(*self),
    {
        match self {
            Language::English => 3,
        }
    }

    /// Whether a character terminates a token in this language.
    pub fn is_terminating(&self, c: char) -> (r: bool)
        ensures
            r == spec_is_terminating(*self, c),
    {
        match self {
            Language::English => !('a' <= c && c <= 'z') && !('A' <= c && c <= 'Z'),
        }
    }

    /// The pattern source for a capitalized name anywhere in a line.
    pub fn proper_noun_pattern(&self) -> (r: &'static str)
        ensures
            r@ == spec_proper_noun_pattern(*self),
    {
        match self {
            Language::English => "[A-Z][a-z]*",
        }
    }

    /// The pattern source for a capitalized name opening a line.
    pub fn line_start_name_pattern(&self) -> (r: &'static str)
        ensures
            r@ == spec_line_start_name_pattern(*self),
    {
        match self {
            Language::English => "^[A-Z][a-z]*",
        }
    }

    /// The pattern source for a general word.
    pub fn word_pattern(&self) -> (r: &'static str)
        ensures
            r@ == spec_word_pattern(*self),
    {
        match self {
            Language::English => "[A-Za-z]+",
        }
    }
}

pub open spec fn spec_proper_noun_pattern(lang: Language) -> Seq<char> {
    match lang {
        Language::English => "[A-Z][a-z]*"@,
    }
}

pub open spec fn spec_line_start_name_pattern(lang: Language) -> Seq<char> {
    match lang {
        Language::English => "^[A-Z][a-z]*"@,
    }
}

pub open spec fn spec_word_pattern(lang: Language) -> Seq<char> {
    match lang {
        Language::English => "[A-Za-z]+"@,
    }
}

} // verus!
