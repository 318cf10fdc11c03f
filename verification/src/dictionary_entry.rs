//! A single word's record: its text, how often it was encountered, and
//! the definitions resolved for it. The word never changes after
//! creation, the counter only grows, and the defined flag moves from
//! false to true at most once.

use vstd::prelude::*;
use crate::dictionary_types::{Definitions, DefsModel, defs_unique};

verus! {

/// The mathematical shape of an entry.
pub ghost struct EntryModel {
    pub word: Seq<char>,
    pub definitions: DefsModel,
    pub encounters: nat,
    pub defined: bool,
}

/// An entry is defined exactly when it holds at least one gloss, and its
/// definitions structure is itself a mapping.
pub open spec fn entry_wf(m: EntryModel) -> bool {
    &&& m.defined <==> m.definitions.len() > 0
    &&& defs_unique(m.definitions)
}

/// The state of an entry after one definition attempt that produced
/// `defs`: an already defined entry is untouched; otherwise the result
/// is stored, and the flag is set exactly when the result is non-empty.
pub open spec fn spec_define(m: EntryModel, defs: DefsModel) -> EntryModel {
    if m.defined {
        m
    } else {
        EntryModel { definitions: defs, defined: defs.len() > 0, ..m }
    }
}

/// A definition attempt is idempotent: once an attempt has succeeded,
/// any later attempt, whatever it would return, changes nothing.
pub proof fn lemma_define_idempotent(m: EntryModel, first: DefsModel, second: DefsModel)
    requires
        first.len() > 0,
    ensures
        spec_define(spec_define(m, first), second) == spec_define(m, first),
{
}

/// One word's record in a dictionary.
#[derive(Debug, PartialEq, Eq)]
pub struct Entry {
    word: String,
    definitions: Definitions,
    encounters: usize,
    defined: bool,
}

impl View for Entry {
    type V = EntryModel;

    closed spec fn view(&self) -> EntryModel {
        EntryModel {
            word: self.word@,
            definitions: self.definitions@,
            encounters: self.encounters as nat,
            defined: self.defined,
        }
    }
}

impl Clone for Entry {
    /// Clones the record field for field.
    fn clone(&self) -> (r: Self)
        ensures
            r@ == self@,
    {
        Entry {
            word: self.word.clone(),
            definitions: self.definitions.clone(),
            encounters: self.encounters,
            defined: self.defined,
        }
    }
}

impl Entry {
    /// A fresh record for a word sighted for the first time: counter 1,
    /// no definitions, not defined.
    pub fn new(in_word: String) -> (r: Entry)
        ensures
            r@ == (EntryModel {
                word: in_word@,
                definitions: Seq::<(Seq<char>, Seq<Seq<char>>)>::empty(),
                encounters: 1,
                defined: false,
            }),
            entry_wf(r@),
    {
        let r = Entry { word: in_word, definitions: Definitions::new(), encounters: 1, defined: false };
        r
    }

    /// The word this entry records.
    pub fn get_word(&self) -> (r: String)
        ensures
            r@ == self@.word,
    {
        self.word.clone()
    }

    /// The word this entry records, borrowed.
    pub fn as_str(&self) -> (r: &str)
        ensures
            r@ == self@.word,
    {
        self.word.as_str()
    }

    /// A copy of the definitions resolved for this word so far.
    pub fn get_definitions(&self) -> (r: Definitions)
        ensures
            r@ == self@.definitions,
    {
        self.definitions.clone()
    }

    /// Whether a definition attempt has succeeded for this word.
    pub fn is_defined(&self) -> (r: bool)
        ensures
            r == self@.defined,
    {
        self.defined
    }

    /// How often the word has been encountered.
    pub fn get_counter(&self) -> (r: usize)
        ensures
            r == self@.encounters,
    {
        self.encounters
    }

    /// Records one more encounter. The counter saturates at the machine
    /// limit instead of wrapping.
    pub fn increment_counter(&mut self)
        ensures
            final(self)@ == (EntryModel {
                encounters: if old(self)@.encounters + 1 <= usize::MAX {
                    (old(self)@.encounters + 1) as nat
                } else {
                    usize::MAX as nat
                },
                ..old(self)@
            }),
    {
        self.encounters = self.encounters.saturating_add(1);
    }

    /// Records `arg` more encounters at once. The counter saturates at
    /// the machine limit instead of wrapping.
    pub fn increment_counter_by(&mut self, arg: usize)
        ensures
            final(self)@ == (EntryModel {
                encounters: if old(self)@.encounters + arg <= usize::MAX {
                    (old(self)@.encounters + arg) as nat
                } else {
                    usize::MAX as nat
                },
                ..old(self)@
            }),
    {
        self.encounters = self.encounters.saturating_add(arg);
    }

    /// The same record under a different rendering of its word: used
    /// when an entry migrates between the common and proper-noun
    /// collections of a dictionary.
    pub(crate) fn with_word(self, word: String) -> (r: Entry)
        ensures
            r@ == (EntryModel { word: word@, ..self@ }),
    {
        Entry { word, ..self }
    }

    /// Stores a definition result obtained for this word. A defined
    /// entry is left untouched; an undefined one stores the result and
    /// becomes defined exactly when the result is non-empty, so a failed
    /// attempt can be retried later.
    pub fn apply_definitions(&mut self, defs: Definitions)
        requires
            entry_wf(old(self)@),
            defs.wf(),
        ensures
            entry_wf(final(self)@),
            final(self)@ == spec_define(old(self)@, defs@),
    {
        if !self.defined {
            let non_empty = defs.len() > 0;
            self.definitions = defs;
            self.defined = non_empty;
        }
    }

    /// Resolves this word once through the given definer. If the entry
    /// is already defined the definer is not consulted and nothing
    /// changes; otherwise whatever the definer returns for this word is
    /// stored as by `apply_definitions`.
    pub fn define<F: Fn(&str) -> Definitions>(&mut self, definer: F)
        requires
            entry_wf(old(self)@),
            forall|s: &str| #[trigger] call_requires(definer, (s,)),
            forall|s: &str, d: Definitions| #[trigger] call_ensures(definer, (s,), d) ==> d.wf(),
        ensures
            entry_wf(final(self)@),
            old(self)@.defined ==> final(self)@ == old(self)@,
            !old(self)@.defined ==> exists|s: &str, d: Definitions|
                s@ == old(self)@.word && #[trigger] call_ensures(definer, (s,), d) && final(self)@
                    == spec_define(old(self)@, d@),
    {
        if !self.defined {
            let defs = definer(self.word.as_str());
            self.apply_definitions(defs);
        }
    }
}

} // verus!
