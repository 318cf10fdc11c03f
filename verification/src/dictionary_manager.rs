//! The orchestrator: it owns one dictionary and one tokenizer for a
//! language, queues and parses raw lines, and resolves words into
//! definitions through a caller-supplied definer. Renaming changes only
//! the display name, never the language or the accumulated entries.

use vstd::prelude::*;
use crate::dictionary::{
    Dictionary, DictModel, dict_wf, spec_add_word, spec_define_at, store_at, store_contains,
    lemma_add_word_effect,
};
use crate::dictionary_creator::{DictionaryCreator, spec_parse_line, spec_parse_lines};
use crate::dictionary_entry::{Entry, spec_define};
use crate::dictionary_language::Language;
use crate::dictionary_types::Definitions;
use crate::text::spec_lower;

verus! {

/// The shape of a manager: its display name, its dictionary, and the
/// lines queued for parsing.
pub ghost struct ManagerModel {
    pub name: Seq<char>,
    pub dictionary: DictModel,
    pub pending: Seq<Seq<char>>,
}

/// The entry handed back by `lookup_or_add_word`: the one now stored
/// under the folded word in either collection.
pub open spec fn spec_current_entry(d: DictModel, k: Seq<char>) -> crate::dictionary_entry::EntryModel {
    if store_contains(d.words, k) {
        store_at(d.words, k)
    } else {
        store_at(d.proper_nouns, k)
    }
}

/// A manager drives one dictionary and one tokenizer, both for the same
/// language, under a mutable display name.
#[derive(Debug)]
pub struct DictionaryManager {
    name: String,
    dictionary: Dictionary,
    creator: DictionaryCreator,
}

impl View for DictionaryManager {
    type V = ManagerModel;

    closed spec fn view(&self) -> ManagerModel {
        ManagerModel {
            name: self.name@,
            dictionary: self.dictionary@,
            pending: self.creator@.pending,
        }
    }
}

impl DictionaryManager {
    /// The dictionary is well formed and the tokenizer is configured
    /// for the dictionary's language.
    pub closed spec fn wf(&self) -> bool {
        &&& dict_wf(self.dictionary@)
        &&& self.creator.wf()
        &&& self.creator@.language == self.dictionary@.language
    }

    /// A manager for a language, under the given display name; an empty
    /// name falls back to a fixed placeholder. The dictionary starts
    /// empty.
    pub fn new(language: Language, name: String) -> (r: DictionaryManager)
        ensures
            r.wf(),
            r@.name == if name@.len() > 0 {
                name@
            } else {
                "Default dictionary"@
            },
            r@.dictionary == (DictModel {
                language,
                words: Seq::<crate::dictionary_entry::EntryModel>::empty(),
                proper_nouns: Seq::<crate::dictionary_entry::EntryModel>::empty(),
            }),
            r@.pending == Seq::<Seq<char>>::empty(),
    {
        let use_given = !name.as_str().is_empty();
        DictionaryManager {
            name: if use_given {
                name
            } else {
                "Default dictionary".to_owned()
            },
            dictionary: Dictionary::new(language),
            creator: DictionaryCreator::new(language),
        }
    }

    /// Queues one raw line for a later `parse_all_pending`.
    pub fn add_pending_line(&mut self, line: String)
        requires
            old(self).wf(),
        ensures
            final(self).wf(),
            final(self)@ == (ManagerModel { pending: old(self)@.pending.push(line@), ..old(self)@ }),
    {
        self.creator.add_pending_line(line);
    }

    /// Parses every queued line into the dictionary, in order, and
    /// empties the queue.
    pub fn parse_all_pending(&mut self)
        requires
            old(self).wf(),
        ensures
            final(self).wf(),
            final(self)@ == (ManagerModel {
                pending: Seq::<Seq<char>>::empty(),
                dictionary: spec_parse_lines(
                    old(self)@.dictionary,
                    old(self)@.pending,
                    old(self)@.dictionary.language,
                ),
                ..old(self)@
            }),
    {
        self.creator.parse_to_dictionary(&mut self.dictionary);
    }

    /// Parses one raw line into the dictionary at once, bypassing the
    /// queue.
    pub fn parse_one_line(&mut self, line: String)
        requires
            old(self).wf(),
        ensures
            final(self).wf(),
            final(self)@ == (ManagerModel {
                dictionary: spec_parse_line(
                    old(self)@.dictionary,
                    line@,
                    old(self)@.dictionary.language,
                ),
                ..old(self)@
            }),
    {
        self.creator.parse_line(line.as_str(), &mut self.dictionary);
    }

    /// Records one sighting of `word` as a common word — an existing
    /// entry is counted up, an unknown word gets a fresh entry, never a
    /// duplicate — and hands back a copy of the entry now stored.
    pub fn lookup_or_add_word(&mut self, word: String) -> (r: Entry)
        requires
            old(self).wf(),
        ensures
            final(self).wf(),
            final(self)@ == (ManagerModel {
                dictionary: spec_add_word(old(self)@.dictionary, word@),
                ..old(self)@
            }),
            r@ == spec_current_entry(final(self)@.dictionary, spec_lower(word@)),
    {
        let ghost w = word@;
        proof {
            lemma_add_word_effect(self@.dictionary, w);
        }
        self.dictionary.add_word(word.clone());
        let found = self.dictionary.lookup(word);
        found.unwrap()
    }

    /// Whether `word` is present in either collection.
    pub fn contains_word(&self, word: String) -> (r: bool)
        ensures
            r == (store_contains(self@.dictionary.words, spec_lower(word@)) || store_contains(
                self@.dictionary.proper_nouns,
                spec_lower(word@),
            )),
    {
        self.dictionary.lookup(word).is_some()
    }

    /// Resolves `word` once through the given definer: the word is
    /// recorded as by `lookup_or_add_word`, and if its entry is not yet
    /// defined, whatever the definer returns for it is stored — at most
    /// one successful definition ever sticks, however often this is
    /// called. Hands back a copy of the entry as stored afterwards.
    pub fn define<F: Fn(&str) -> Definitions>(&mut self, word: String, definer: F) -> (r: Entry)
        requires
            old(self).wf(),
            forall|s: &str| #[trigger] call_requires(definer, (s,)),
            forall|s: &str, d: Definitions| #[trigger] call_ensures(definer, (s,), d) ==> d.wf(),
        ensures
            final(self).wf(),
            ({
                let k = spec_lower(word@);
                let d1 = spec_add_word(old(self)@.dictionary, word@);
                &&& final(self)@.name == old(self)@.name
                &&& final(self)@.pending == old(self)@.pending
                &&& spec_current_entry(d1, k).defined ==> final(self)@.dictionary == d1
                &&& !spec_current_entry(d1, k).defined ==> exists|s: &str, defs: Definitions|
                    s@ == spec_current_entry(d1, k).word && #[trigger] call_ensures(
                        definer,
                        (s,),
                        defs,
                    ) && final(self)@.dictionary == spec_define_at(d1, k, defs@)
                &&& r@ == spec_current_entry(final(self)@.dictionary, k)
            }),
    {
        let ghost w = word@;
        let ghost k = spec_lower(word@);
        let word2 = word.clone();
        let entry = self.lookup_or_add_word(word.clone());
        let ghost d1 = self@.dictionary;
        proof {
            lemma_add_word_effect(old(self)@.dictionary, w);
        }
        if !entry.is_defined() {
            let defs = definer(entry.as_str());
            let ghost dv = defs@;
            proof {
                crate::dictionary::lemma_store_index_of(d1.words, k);
                crate::dictionary::lemma_store_index_of(d1.proper_nouns, k);
            }
            self.dictionary.define_word_with(word, defs);
            proof {
                lemma_define_at_current(d1, k, dv);
            }
            let found = self.dictionary.lookup(word2);
            found.unwrap()
        } else {
            proof {
                assert(self@.dictionary == d1);
            }
            entry
        }
    }

    /// Changes the display name and nothing else: the language and the
    /// accumulated entries stay as they are.
    pub fn rename(&mut self, new_name: String)
        requires
            old(self).wf(),
        ensures
            final(self).wf(),
            final(self)@ == (ManagerModel { name: new_name@, ..old(self)@ }),
    {
        self.name = new_name;
    }

    /// The current display name.
    pub fn get_name(&self) -> (r: String)
        ensures
            r@ == self@.name,
    {
        self.name.clone()
    }
}

/// After a definition attempt lands on the entry a lookup would find,
/// the entry a lookup finds afterwards is that entry with the attempt
/// applied; every other entry stays put.
proof fn lemma_define_at_current(d: DictModel, k: Seq<char>, defs: crate::dictionary_types::DefsModel)
    requires
        dict_wf(d),
        store_contains(d.words, k) || store_contains(d.proper_nouns, k),
    ensures
        ({
            let d2 = spec_define_at(d, k, defs);
            &&& store_contains(d2.words, k) == store_contains(d.words, k)
            &&& store_contains(d2.proper_nouns, k) == store_contains(d.proper_nouns, k)
            &&& spec_current_entry(d2, k) == spec_define(spec_current_entry(d, k), defs)
        }),
{
    let d2 = spec_define_at(d, k, defs);
    if store_contains(d.words, k) {
        let i = crate::dictionary::store_index_of(d.words, k);
        crate::dictionary::lemma_store_only_index(d.words, k);
        crate::dictionary::lemma_store_first_index(d2.words, k, i);
    } else {
        let i = crate::dictionary::store_index_of(d.proper_nouns, k);
        crate::dictionary::lemma_store_only_index(d.proper_nouns, k);
        crate::dictionary::lemma_store_first_index(d2.proper_nouns, k, i);
    }
}

} // verus!
