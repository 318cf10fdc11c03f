//! The tokenizer driving a dictionary: it splits each line into raw
//! tokens, discards the insubstantial ones, classifies the rest as
//! proper nouns or common words by the capitalization heuristics, and
//! feeds them into the dictionary in order.

use vstd::prelude::*;
use crate::dictionary::{Dictionary, DictModel, dict_wf, spec_add_word, spec_add_proper_noun};
use crate::dictionary_language::{Language, spec_substantial_length};
use crate::regex_parser::{MatchPattern, RegexParser, spec_matches_from};
use crate::text::spec_is_upper;
use crate::tokenizer::{
    TokenModel, spec_tokens_from, spec_is_capitalized, lemma_token_end, token_end,
};

verus! {

/// The dictionary after one classified token has been fed in: an
/// insubstantial token is discarded, a capitalized one is recorded as a
/// proper noun, any other as a common word (which the dictionary itself
/// case-folds).
pub open spec fn spec_apply_token(d: DictModel, t: TokenModel, lang: Language) -> DictModel {
    if t.text.len() < spec_substantial_length(lang) {
        d
    } else if spec_is_capitalized(t) {
        spec_add_proper_noun(d, t.text)
    } else {
        spec_add_word(d, t.text)
    }
}

/// The dictionary after a sequence of tokens has been fed in, in order.
pub open spec fn spec_feed(d: DictModel, toks: Seq<TokenModel>, lang: Language) -> DictModel
    decreases toks.len(),
{
    if toks.len() == 0 {
        d
    } else {
        spec_feed(spec_apply_token(d, toks[0], lang), toks.drop_first(), lang)
    }
}

/// The dictionary after one whole line has been parsed.
pub open spec fn spec_parse_line(d: DictModel, s: Seq<char>, lang: Language) -> DictModel {
    spec_feed(d, spec_tokens_from(lang, s, 0), lang)
}

/// The dictionary after a sequence of lines has been parsed, in order.
pub open spec fn spec_parse_lines(d: DictModel, lines: Seq<Seq<char>>, lang: Language) -> DictModel
    decreases lines.len(),
{
    if lines.len() == 0 {
        d
    } else {
        spec_parse_lines(spec_parse_line(d, lines[0], lang), lines.drop_first(), lang)
    }
}

/// Over a non-empty token — a run of non-terminating characters — the
/// general name pattern matches exactly when the token is capitalized.
proof fn lemma_all_letter_capital_match(lang: Language, t: Seq<char>)
    requires
        t.len() > 0,
        forall|m: int| 0 <= m < t.len() ==> !crate::dictionary_language::spec_is_terminating(lang, t[m]),
    ensures
        spec_matches_from(MatchPattern::ProperNoun, lang, t, 0).len() > 0 <==> spec_is_upper(t[0]),
{
    crate::tokenizer::lemma_token_end_is(lang, t, 0, t.len() as int);
    assert(t.subrange(0, t.len() as int) =~= t);
    assert(spec_matches_from(MatchPattern::ProperNoun, lang, t, t.len() as int)
        =~= Seq::<Seq<char>>::empty());
    if spec_is_upper(t[0]) {
        assert(spec_matches_from(MatchPattern::ProperNoun, lang, t, 0) =~= seq![t]);
    } else {
        assert(spec_matches_from(MatchPattern::ProperNoun, lang, t, 0) =~= Seq::<Seq<char>>::empty());
    }
}

/// The shape of a tokenizer: its language and the lines queued for
/// parsing.
pub ghost struct CreatorModel {
    pub language: Language,
    pub pending: Seq<Seq<char>>,
}

/// The per-language tokenizer. It owns the language configuration — the
/// minimal substantial word length and the three compiled extraction
/// patterns — and a queue of lines waiting to be parsed.
#[derive(Debug)]
pub struct DictionaryCreator {
    language: Language,
    minimal_substantial_word_length: usize,
    proper_nouns_extractor: RegexParser,
    linestarting_name_extractor: RegexParser,
    words_extractor: RegexParser,
    pending: Vec<String>,
}

impl View for DictionaryCreator {
    type V = CreatorModel;

    closed spec fn view(&self) -> CreatorModel {
        CreatorModel {
            language: self.language,
            pending: Seq::new(self.pending@.len(), |i: int| self.pending@[i]@),
        }
    }
}

impl DictionaryCreator {
    /// The configured threshold agrees with the language, and the three
    /// extractors are the language's own patterns.
    pub closed spec fn wf(&self) -> bool {
        &&& self.minimal_substantial_word_length == spec_substantial_length(self.language)
        &&& self.proper_nouns_extractor@.kind is ProperNoun
        &&& self.linestarting_name_extractor@.kind is LineStartName
        &&& self.words_extractor@.kind is GeneralWord
        &&& self.proper_nouns_extractor@.language == self.language
        &&& self.linestarting_name_extractor@.language == self.language
        &&& self.words_extractor@.language == self.language
    }

    /// A tokenizer configured for a language: threshold and patterns
    /// are taken from the language, and no line is queued yet.
    pub fn new(language: Language) -> (r: DictionaryCreator)
        ensures
            r.wf(),
            r@.language == language,
            r@.pending == Seq::<Seq<char>>::empty(),
    {
        proof {
            reveal_strlit("[A-Z][a-z]*");
            reveal_strlit("^[A-Z][a-z]*");
            reveal_strlit("[A-Za-z]+");
        }
        let r = DictionaryCreator {
            language,
            minimal_substantial_word_length: language.substantial_length(),
            proper_nouns_extractor: RegexParser::new(language.proper_noun_pattern()),
            linestarting_name_extractor: RegexParser::new(language.line_start_name_pattern()),
            words_extractor: RegexParser::new(language.word_pattern()),
            pending: Vec::new(),
        };
        proof {
            match language {
                Language::English => {},
            }
            assert(("^[A-Z][a-z]*"@).len() == 12);
            assert(("[A-Z][a-z]*"@).len() == 11);
            assert(("[A-Za-z]+"@).len() == 9);
            assert("^[A-Z][a-z]*"@ != "[A-Z][a-z]*"@);
            assert("[A-Za-z]+"@ != "[A-Z][a-z]*"@);
            assert("[A-Za-z]+"@ != "^[A-Z][a-z]*"@);
            assert(r@.pending =~= Seq::<Seq<char>>::empty());
        }
        r
    }

    /// Queues one line of raw input for a later `parse_to_dictionary`.
    pub fn add_pending_line(&mut self, line: String)
        requires
            old(self).wf(),
        ensures
            final(self).wf(),
            final(self)@.language == old(self)@.language,
            final(self)@.pending == old(self)@.pending.push(line@),
    {
        let ghost l = line@;
        self.pending.push(line);
        proof {
            assert(self@.pending =~= old(self)@.pending.push(l));
        }
    }

    /// Parses one line into the dictionary, as `spec_parse_line` says.
    /// Tokens shorter than the substantial length are skipped silently.
    pub fn parse_line(&self, line: &str, dictionary: &mut Dictionary)
        requires
            self.wf(),
            dict_wf(old(dictionary)@),
        ensures
            dict_wf(final(dictionary)@),
            final(dictionary)@ == spec_parse_line(old(dictionary)@, line@, self@.language),
    {
        let lang = self.language;
        let min_len = self.minimal_substantial_word_length;
        let n = line.unicode_len();
        let mut i: usize = 0;
        while i < n
            invariant
                i <= n,
                n == line@.len(),
                self.wf(),
                lang == self@.language,
                min_len == spec_substantial_length(lang),
                dict_wf(dictionary@),
                spec_feed(old(dictionary)@, spec_tokens_from(lang, line@, 0), lang) == spec_feed(
                    dictionary@,
                    spec_tokens_from(lang, line@, i as int),
                    lang,
                ),
            decreases n - i,
        {
            let c = line.get_char(i);
            if lang.is_terminating(c) {
                i = i + 1;
            } else {
                let j = token_end(lang, line, i);
                proof {
                    lemma_token_end(lang, line@, i as int);
                }
                let ghost t = TokenModel {
                    start: i as int,
                    text: line@.subrange(i as int, j as int),
                };
                let ghost rest = spec_tokens_from(lang, line@, j as int);
                proof {
                    assert(spec_tokens_from(lang, line@, i as int) =~= seq![t] + rest);
                    assert((seq![t] + rest)[0] == t);
                    assert((seq![t] + rest).drop_first() =~= rest);
                }
                if j - i >= min_len {
                    let token = line.substring_char(i, j);
                    let capitalized = if i == 0 {
                        let hit = self.linestarting_name_extractor.single_match(line, 0);
                        proof {
                            let ms = spec_matches_from(
                                MatchPattern::LineStartName,
                                lang,
                                line@,
                                0,
                            );
                            assert(line@.subrange(0, j as int)[0] == line@[0]);
                            assert(hit is Some <==> spec_is_upper(line@[0]));
                        }
                        hit.is_some()
                    } else {
                        let hit = self.proper_nouns_extractor.single_match(token, 0);
                        proof {
                            lemma_all_letter_capital_match(lang, token@);
                            assert forall|m: int| 0 <= m < token@.len() implies !crate::dictionary_language::spec_is_terminating(
                                lang,
                                token@[m],
                            ) by {
                                assert(token@[m] == line@[i + m]);
                            }
                            assert(hit is Some <==> spec_is_upper(token@[0]));
                            assert(token@[0] == line@[i as int]);
                        }
                        hit.is_some()
                    };
                    if capitalized {
                        dictionary.add_proper_noun(token.to_owned());
                    } else {
                        dictionary.add_word(token.to_owned());
                    }
                }
                i = j;
            }
        }
        proof {
            assert(spec_tokens_from(lang, line@, n as int) =~= Seq::<TokenModel>::empty());
        }
    }

    /// Parses every queued line into the dictionary, in the order they
    /// were queued, and empties the queue. Already parsed lines stay
    /// parsed whatever happens later.
    pub fn parse_to_dictionary(&mut self, dictionary: &mut Dictionary)
        requires
            old(self).wf(),
            dict_wf(old(dictionary)@),
        ensures
            final(self).wf(),
            dict_wf(final(dictionary)@),
            final(self)@.language == old(self)@.language,
            final(self)@.pending == Seq::<Seq<char>>::empty(),
            final(dictionary)@ == spec_parse_lines(
                old(dictionary)@,
                old(self)@.pending,
                old(self)@.language,
            ),
    {
        let n = self.pending.len();
        proof {
            assert(self@.pending.subrange(0, n as int) =~= self@.pending);
        }
        let mut i: usize = 0;
        while i < n
            invariant
                i <= n,
                self == old(self),
                self.wf(),
                n == self.pending@.len(),
                dict_wf(dictionary@),
                spec_parse_lines(old(dictionary)@, self@.pending, self@.language)
                    == spec_parse_lines(
                    dictionary@,
                    self@.pending.subrange(i as int, n as int),
                    self@.language,
                ),
            decreases n - i,
        {
            let line = self.pending[i].clone();
            self.parse_line(line.as_str(), dictionary);
            proof {
                let suffix = self@.pending.subrange(i as int, n as int);
                assert(suffix[0] == self@.pending[i as int]);
                assert(suffix.drop_first() =~= self@.pending.subrange(i + 1 as int, n as int));
            }
            i = i + 1;
        }
        proof {
            assert(self@.pending.subrange(n as int, n as int) =~= Seq::<Seq<char>>::empty());
        }
        self.pending.clear();
        proof {
            assert(self@.pending =~= Seq::<Seq<char>>::empty());
        }
    }
}

} // verus!
