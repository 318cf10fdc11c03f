//! Read-only export of a dictionary's contents, for persistence or
//! display by an outside consumer: the exporter only copies what the
//! dictionary exposes, it never changes it.

use vstd::prelude::*;
use crate::dictionary::Dictionary;
use crate::dictionary_entry::{Entry, EntryModel};

verus! {

/// The words of a store's entries, in storage order.
pub open spec fn words_of(s: Seq<EntryModel>) -> Seq<Seq<char>> {
    Seq::new(s.len(), |i: int| s[i].word)
}

/// Copies a dictionary's words out for an external consumer.
#[derive(Debug)]
pub struct DictionaryExporter {}

impl DictionaryExporter {
    /// An exporter; it carries no state of its own.
    pub fn new() -> (r: DictionaryExporter) {
        DictionaryExporter {  }
    }

    /// Every word the dictionary holds: the common words first, then
    /// the proper nouns, each in storage order.
    pub fn export_words(&self, dictionary: &Dictionary) -> (r: Vec<String>)
        ensures
            r.deep_view() == words_of(dictionary@.words) + words_of(dictionary@.proper_nouns),
    {
        let words = dictionary.get_entries();
        let proper = dictionary.get_proper_nouns();
        let mut r: Vec<String> = Vec::new();
        let mut i: usize = 0;
        while i < words.len()
            invariant
                i <= words@.len(),
                r@.len() == i,
                crate::dictionary::views_of(words@) == dictionary@.words,
                forall|m: int| 0 <= m < i ==> r@[m]@ == dictionary@.words[m].word,
            decreases words@.len() - i,
        {
            proof {
                assert(words@[i as int]@ == dictionary@.words[i as int]);
            }
            r.push(words[i].get_word());
            i = i + 1;
        }
        let ghost half = r.deep_view();
        proof {
            assert(half =~= words_of(dictionary@.words));
        }
        let mut j: usize = 0;
        while j < proper.len()
            invariant
                j <= proper@.len(),
                r@.len() == half.len() + j,
                crate::dictionary::views_of(proper@) == dictionary@.proper_nouns,
                forall|m: int| 0 <= m < half.len() ==> r@[m]@ == half[m],
                forall|m: int| 0 <= m < j ==> r@[half.len() + m]@ == dictionary@.proper_nouns[m].word,
            decreases proper@.len() - j,
        {
            proof {
                assert(proper@[j as int]@ == dictionary@.proper_nouns[j as int]);
            }
            r.push(proper[j].get_word());
            j = j + 1;
        }
        proof {
            assert(r.deep_view() =~= words_of(dictionary@.words) + words_of(
                dictionary@.proper_nouns,
            ));
        }
        r
    }
}

} // verus!
