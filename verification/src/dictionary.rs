//! The language-scoped store of entries, split into common words and
//! proper nouns. A word's canonical key is its case-folded text; a key
//! lives in at most one of the two collections at a time, and adding a
//! word to one collection migrates any entry for the same key out of the
//! other.

use vstd::prelude::*;
use crate::dictionary_entry::{Entry, EntryModel, entry_wf};
use crate::dictionary_language::Language;
use crate::text::{spec_lower, to_folded, str_eq, lemma_lower_idempotent};

verus! {

/// The canonical key an entry is stored under: the case-folded word.
pub open spec fn key_of(m: EntryModel) -> Seq<char> {
    spec_lower(m.word)
}

/// The index of the entry stored under a key, or -1 when absent.
pub open spec fn store_index_of(s: Seq<EntryModel>, k: Seq<char>) -> int
    decreases s.len(),
{
    if s.len() == 0 {
        -1
    } else if key_of(s[0]) == k {
        0
    } else {
        let r = store_index_of(s.drop_first(), k);
        if r == -1 {
            -1
        } else {
            r + 1
        }
    }
}

/// Whether some entry is stored under a key.
pub open spec fn store_contains(s: Seq<EntryModel>, k: Seq<char>) -> bool {
    store_index_of(s, k) >= 0
}

/// The entry stored under a key.
pub open spec fn store_at(s: Seq<EntryModel>, k: Seq<char>) -> EntryModel {
    s[store_index_of(s, k)]
}

pub proof fn lemma_store_index_of(s: Seq<EntryModel>, k: Seq<char>)
    ensures
        store_contains(s, k) ==> 0 <= store_index_of(s, k) < s.len() && key_of(
            s[store_index_of(s, k)],
        ) == k,
        !store_contains(s, k) ==> forall|i: int| 0 <= i < s.len() ==> key_of(s[i]) != k,
    decreases s.len(),
{
    if s.len() > 0 {
        if key_of(s[0]) != k {
            lemma_store_index_of(s.drop_first(), k);
            assert forall|i: int| !store_contains(s, k) && 0 <= i < s.len() implies key_of(s[i])
                != k by {
                if i > 0 {
                    assert(s.drop_first()[i - 1] == s[i]);
                }
            }
        }
    }
}

/// The position of the first entry under a key, given that no earlier
/// position holds it.
pub proof fn lemma_store_first_index(s: Seq<EntryModel>, k: Seq<char>, i: int)
    requires
        0 <= i < s.len(),
        key_of(s[i]) == k,
        forall|j: int| 0 <= j < i ==> key_of(s[j]) != k,
    ensures
        store_index_of(s, k) == i,
    decreases s.len(),
{
    if i > 0 {
        assert(key_of(s[0]) != k);
        assert forall|j: int| 0 <= j < i - 1 implies key_of(s.drop_first()[j]) != k by {
            assert(s.drop_first()[j] == s[j + 1]);
        }
        assert(s.drop_first()[i - 1] == s[i]);
        lemma_store_first_index(s.drop_first(), k, i - 1);
    }
}

/// A store is well formed when its keys are pairwise distinct and every
/// entry is well formed.
pub open spec fn store_wf(s: Seq<EntryModel>) -> bool {
    &&& forall|i: int, j: int| 0 <= i < j < s.len() ==> key_of(s[i]) != key_of(s[j])
    &&& forall|i: int| 0 <= i < s.len() ==> entry_wf(s[i])
}

/// The sum of the occurrence counters of a store's entries.
pub open spec fn spec_total_words(s: Seq<EntryModel>) -> nat
    decreases s.len(),
{
    if s.len() == 0 {
        0
    } else {
        spec_total_words(s.drop_last()) + s.last().encounters
    }
}

/// The mathematical shape of a dictionary.
pub ghost struct DictModel {
    pub language: Language,
    pub words: Seq<EntryModel>,
    pub proper_nouns: Seq<EntryModel>,
}

/// Both stores are well formed and no key is present in both.
pub open spec fn dict_wf(d: DictModel) -> bool {
    &&& store_wf(d.words)
    &&& store_wf(d.proper_nouns)
    &&& forall|i: int, j: int|
        0 <= i < d.words.len() && 0 <= j < d.proper_nouns.len() ==> key_of(d.words[i]) != key_of(
            d.proper_nouns[j],
        )
}

/// A counter after `n` more encounters: saturating at the machine limit.
pub open spec fn spec_inc(c: nat, n: nat) -> nat {
    if c + n <= usize::MAX {
        (c + n) as nat
    } else {
        usize::MAX as nat
    }
}

/// An entry after one more encounter.
pub open spec fn spec_bump(e: EntryModel) -> EntryModel {
    EntryModel { encounters: spec_inc(e.encounters, 1), ..e }
}

/// A fresh entry for a word sighted for the first time.
pub open spec fn spec_fresh(w: Seq<char>) -> EntryModel {
    EntryModel {
        word: w,
        definitions: Seq::<(Seq<char>, Seq<Seq<char>>)>::empty(),
        encounters: 1,
        defined: false,
    }
}

/// The dictionary after one common-word sighting of `w`: an entry under
/// the folded key is counted up; an entry held as a proper noun migrates
/// to the common collection (under the folded word, counted up); an
/// unknown word gets a fresh entry.
pub open spec fn spec_add_word(d: DictModel, w: Seq<char>) -> DictModel {
    let k = spec_lower(w);
    if store_contains(d.words, k) {
        let i = store_index_of(d.words, k);
        DictModel { words: d.words.update(i, spec_bump(d.words[i])), ..d }
    } else if store_contains(d.proper_nouns, k) {
        let i = store_index_of(d.proper_nouns, k);
        let e = d.proper_nouns[i];
        DictModel {
            words: d.words.push(EntryModel { word: k, ..spec_bump(e) }),
            proper_nouns: d.proper_nouns.remove(i),
            ..d
        }
    } else {
        DictModel { words: d.words.push(spec_fresh(k)), ..d }
    }
}

/// The dictionary after one proper-noun sighting of `w`: an entry under
/// the folded key in the proper-noun collection is counted up; an entry
/// held as a common word migrates to the proper-noun collection (under
/// the sighted casing, counted up); an unknown name gets a fresh entry.
pub open spec fn spec_add_proper_noun(d: DictModel, w: Seq<char>) -> DictModel {
    let k = spec_lower(w);
    if store_contains(d.proper_nouns, k) {
        let i = store_index_of(d.proper_nouns, k);
        DictModel { proper_nouns: d.proper_nouns.update(i, spec_bump(d.proper_nouns[i])), ..d }
    } else if store_contains(d.words, k) {
        let i = store_index_of(d.words, k);
        let e = d.words[i];
        DictModel {
            proper_nouns: d.proper_nouns.push(EntryModel { word: w, ..spec_bump(e) }),
            words: d.words.remove(i),
            ..d
        }
    } else {
        DictModel { proper_nouns: d.proper_nouns.push(EntryModel { word: w, ..spec_fresh(w) }), ..d }
    }
}

/// The dictionary after deleting every trace of `w`: the entry under its
/// folded key leaves whichever collection holds it.
pub open spec fn spec_remove_word(d: DictModel, w: Seq<char>) -> DictModel {
    let k = spec_lower(w);
    if store_contains(d.words, k) {
        DictModel { words: d.words.remove(store_index_of(d.words, k)), ..d }
    } else if store_contains(d.proper_nouns, k) {
        DictModel { proper_nouns: d.proper_nouns.remove(store_index_of(d.proper_nouns, k)), ..d }
    } else {
        d
    }
}

/// The dictionary after one definition attempt for the word under key
/// `k` produced `defs`: the entry in whichever collection holds it is
/// updated as `spec_define` says; a dictionary without the key is
/// unchanged.
pub open spec fn spec_define_at(
    d: DictModel,
    k: Seq<char>,
    defs: crate::dictionary_types::DefsModel,
) -> DictModel {
    if store_contains(d.words, k) {
        let i = store_index_of(d.words, k);
        DictModel { words: d.words.update(i, crate::dictionary_entry::spec_define(d.words[i], defs)), ..d }
    } else if store_contains(d.proper_nouns, k) {
        let i = store_index_of(d.proper_nouns, k);
        DictModel {
            proper_nouns: d.proper_nouns.update(
                i,
                crate::dictionary_entry::spec_define(d.proper_nouns[i], defs),
            ),
            ..d
        }
    } else {
        d
    }
}

/// In a store with distinct keys, the key of every position other than
/// `store_index_of(s, k)` differs from `k`.
pub proof fn lemma_store_only_index(s: Seq<EntryModel>, k: Seq<char>)
    requires
        store_wf(s),
        store_contains(s, k),
    ensures
        0 <= store_index_of(s, k) < s.len(),
        key_of(s[store_index_of(s, k)]) == k,
        forall|j: int| 0 <= j < s.len() && j != store_index_of(s, k) ==> key_of(s[j]) != k,
{
    lemma_store_index_of(s, k);
}

/// What one common-word sighting does, seen through lookups: afterwards
/// the folded key is held by the common collection only, counted up from
/// wherever it was held before (1 when it was new), and well-formedness
/// is preserved.
pub proof fn lemma_add_word_effect(d: DictModel, w: Seq<char>)
    requires
        dict_wf(d),
    ensures
        ({
            let k = spec_lower(w);
            let d2 = spec_add_word(d, w);
            &&& dict_wf(d2)
            &&& d2.language == d.language
            &&& store_contains(d2.words, k)
            &&& !store_contains(d2.proper_nouns, k)
            &&& store_at(d2.words, k).encounters == (if store_contains(d.words, k) {
                spec_inc(store_at(d.words, k).encounters, 1)
            } else if store_contains(d.proper_nouns, k) {
                spec_inc(store_at(d.proper_nouns, k).encounters, 1)
            } else {
                1nat
            })
            &&& d2.words.len() == (if store_contains(d.words, k) {
                d.words.len()
            } else {
                d.words.len() + 1
            })
        }),
{
    let k = spec_lower(w);
    let d2 = spec_add_word(d, w);
    lemma_lower_idempotent(w);
    if store_contains(d.words, k) {
        let i = store_index_of(d.words, k);
        lemma_store_only_index(d.words, k);
        assert forall|j: int| 0 <= j < i implies key_of(d2.words[j]) != k by {}
        lemma_store_first_index(d2.words, k, i);
        assert forall|a: int, b: int| 0 <= a < b < d2.words.len() implies key_of(d2.words[a])
            != key_of(d2.words[b]) by {
            assert(key_of(d2.words[a]) == key_of(d.words[a]));
            assert(key_of(d2.words[b]) == key_of(d.words[b]));
        }
        lemma_store_index_of(d.proper_nouns, k);
    } else if store_contains(d.proper_nouns, k) {
        let i = store_index_of(d.proper_nouns, k);
        lemma_store_only_index(d.proper_nouns, k);
        lemma_store_index_of(d.words, k);
        assert(key_of(d2.words.last()) == k);
        lemma_store_first_index(d2.words, k, d.words.len() as int);
        assert forall|j: int| 0 <= j < d2.proper_nouns.len() implies key_of(d2.proper_nouns[j])
            != k by {
            if j < i {
                assert(d2.proper_nouns[j] == d.proper_nouns[j]);
            } else {
                assert(d2.proper_nouns[j] == d.proper_nouns[j + 1]);
            }
        }
        if store_contains(d2.proper_nouns, k) {
            lemma_store_index_of(d2.proper_nouns, k);
        }
        assert forall|a: int, b: int|
            0 <= a < d2.words.len() && 0 <= b < d2.proper_nouns.len() implies key_of(d2.words[a])
            != key_of(d2.proper_nouns[b]) by {
            if b < i {
                assert(d2.proper_nouns[b] == d.proper_nouns[b]);
            } else {
                assert(d2.proper_nouns[b] == d.proper_nouns[b + 1]);
            }
            if a < d.words.len() {
                assert(d2.words[a] == d.words[a]);
            } else {
                assert(key_of(d2.words[a]) == k);
            }
        }
        assert forall|a: int, b: int| 0 <= a < b < d2.words.len() implies key_of(d2.words[a])
            != key_of(d2.words[b]) by {
            if b == d2.words.len() - 1 {
                assert(key_of(d2.words[b]) == k);
                assert(key_of(d2.words[a]) != k);
            }
        }
    } else {
        lemma_store_index_of(d.words, k);
        lemma_store_index_of(d.proper_nouns, k);
        assert(key_of(d2.words.last()) == k);
        lemma_store_first_index(d2.words, k, d.words.len() as int);
        if store_contains(d2.proper_nouns, k) {
            lemma_store_index_of(d2.proper_nouns, k);
        }
        assert forall|a: int, b: int| 0 <= a < b < d2.words.len() implies key_of(d2.words[a])
            != key_of(d2.words[b]) by {
            if b == d2.words.len() - 1 {
                assert(key_of(d2.words[b]) == k);
                assert(key_of(d2.words[a]) != k);
            }
        }
    }
}

/// What one proper-noun sighting does, seen through lookups: afterwards
/// the folded key is held by the proper-noun collection only, counted up
/// from wherever it was held before (1 when it was new), and
/// well-formedness is preserved.
pub proof fn lemma_add_proper_noun_effect(d: DictModel, w: Seq<char>)
    requires
        dict_wf(d),
    ensures
        ({
            let k = spec_lower(w);
            let d2 = spec_add_proper_noun(d, w);
            &&& dict_wf(d2)
            &&& d2.language == d.language
            &&& store_contains(d2.proper_nouns, k)
            &&& !store_contains(d2.words, k)
            &&& store_at(d2.proper_nouns, k).encounters == (if store_contains(d.proper_nouns, k) {
                spec_inc(store_at(d.proper_nouns, k).encounters, 1)
            } else if store_contains(d.words, k) {
                spec_inc(store_at(d.words, k).encounters, 1)
            } else {
                1nat
            })
            &&& d2.proper_nouns.len() == (if store_contains(d.proper_nouns, k) {
                d.proper_nouns.len()
            } else {
                d.proper_nouns.len() + 1
            })
        }),
{
    let k = spec_lower(w);
    let d2 = spec_add_proper_noun(d, w);
    lemma_lower_idempotent(w);
    if store_contains(d.proper_nouns, k) {
        let i = store_index_of(d.proper_nouns, k);
        lemma_store_only_index(d.proper_nouns, k);
        lemma_store_first_index(d2.proper_nouns, k, i);
        assert forall|a: int, b: int| 0 <= a < b < d2.proper_nouns.len() implies key_of(
            d2.proper_nouns[a],
        ) != key_of(d2.proper_nouns[b]) by {
            assert(key_of(d2.proper_nouns[a]) == key_of(d.proper_nouns[a]));
            assert(key_of(d2.proper_nouns[b]) == key_of(d.proper_nouns[b]));
        }
        lemma_store_index_of(d.words, k);
    } else if store_contains(d.words, k) {
        let i = store_index_of(d.words, k);
        lemma_store_only_index(d.words, k);
        lemma_store_index_of(d.proper_nouns, k);
        assert(key_of(d2.proper_nouns.last()) == k);
        lemma_store_first_index(d2.proper_nouns, k, d.proper_nouns.len() as int);
        assert forall|j: int| 0 <= j < d2.words.len() implies key_of(d2.words[j]) != k by {
            if j < i {
                assert(d2.words[j] == d.words[j]);
            } else {
                assert(d2.words[j] == d.words[j + 1]);
            }
        }
        if store_contains(d2.words, k) {
            lemma_store_index_of(d2.words, k);
        }
        assert forall|a: int, b: int|
            0 <= a < d2.words.len() && 0 <= b < d2.proper_nouns.len() implies key_of(d2.words[a])
            != key_of(d2.proper_nouns[b]) by {
            if a < i {
                assert(d2.words[a] == d.words[a]);
            } else {
                assert(d2.words[a] == d.words[a + 1]);
            }
            if b < d.proper_nouns.len() {
                assert(d2.proper_nouns[b] == d.proper_nouns[b]);
            } else {
                assert(key_of(d2.proper_nouns[b]) == k);
            }
        }
        assert forall|a: int, b: int| 0 <= a < b < d2.proper_nouns.len() implies key_of(
            d2.proper_nouns[a],
        ) != key_of(d2.proper_nouns[b]) by {
            if b == d2.proper_nouns.len() - 1 {
                assert(key_of(d2.proper_nouns[b]) == k);
                assert(key_of(d2.proper_nouns[a]) != k);
            }
        }
    } else {
        lemma_store_index_of(d.words, k);
        lemma_store_index_of(d.proper_nouns, k);
        assert(key_of(d2.proper_nouns.last()) == k);
        lemma_store_first_index(d2.proper_nouns, k, d.proper_nouns.len() as int);
        if store_contains(d2.words, k) {
            lemma_store_index_of(d2.words, k);
        }
        assert forall|a: int, b: int| 0 <= a < b < d2.proper_nouns.len() implies key_of(
            d2.proper_nouns[a],
        ) != key_of(d2.proper_nouns[b]) by {
            if b == d2.proper_nouns.len() - 1 {
                assert(key_of(d2.proper_nouns[b]) == k);
                assert(key_of(d2.proper_nouns[a]) != k);
            }
        }
    }
}

/// The dictionary after `n` common-word sightings of the same word.
pub open spec fn spec_iter_add_word(d: DictModel, w: Seq<char>, n: nat) -> DictModel
    decreases n,
{
    if n == 0 {
        d
    } else {
        spec_add_word(spec_iter_add_word(d, w, (n - 1) as nat), w)
    }
}

/// Sighting one word `n` times in a fresh dictionary yields exactly one
/// entry — under the folded key, whatever the casings — and its counter
/// is exactly `n`; the proper-noun collection stays empty.
pub proof fn lemma_repeated_add_word(lang: Language, w: Seq<char>, n: nat)
    requires
        1 <= n <= usize::MAX,
    ensures
        ({
            let d0 = DictModel {
                language: lang,
                words: Seq::<EntryModel>::empty(),
                proper_nouns: Seq::<EntryModel>::empty(),
            };
            let d = spec_iter_add_word(d0, w, n);
            &&& d.words =~= seq![
                EntryModel {
                    word: spec_lower(w),
                    definitions: Seq::<(Seq<char>, Seq<Seq<char>>)>::empty(),
                    encounters: n,
                    defined: false,
                },
            ]
            &&& d.proper_nouns =~= Seq::<EntryModel>::empty()
        }),
    decreases n,
{
    let d0 = DictModel {
        language: lang,
        words: Seq::<EntryModel>::empty(),
        proper_nouns: Seq::<EntryModel>::empty(),
    };
    let k = spec_lower(w);
    lemma_lower_idempotent(w);
    if n == 1 {
        assert(spec_iter_add_word(d0, w, 0) == d0);
        assert(!store_contains(d0.words, k));
        assert(!store_contains(d0.proper_nouns, k));
        assert(spec_iter_add_word(d0, w, 1).words =~= d0.words.push(spec_fresh(k)));
    } else {
        lemma_repeated_add_word(lang, w, (n - 1) as nat);
        let d1 = spec_iter_add_word(d0, w, (n - 1) as nat);
        assert(key_of(d1.words[0]) == k);
        assert(store_index_of(d1.words, k) == 0);
        assert(spec_iter_add_word(d0, w, n).words =~= d1.words.update(0, spec_bump(d1.words[0])));
    }
}

/// A common-word sighting depends only on the folded word: casings
/// that fold alike change the dictionary alike.
pub proof fn lemma_add_word_case_insensitive(d: DictModel, w1: Seq<char>, w2: Seq<char>)
    requires
        spec_lower(w1) == spec_lower(w2),
    ensures
        spec_add_word(d, w1) == spec_add_word(d, w2),
{
}

/// Sighting a word as a proper noun and then as a common word — or the
/// other way round — leaves it present in exactly one of the two
/// collections, never both: the later sighting wins.
pub proof fn lemma_exclusive_membership(d: DictModel, w: Seq<char>)
    requires
        dict_wf(d),
    ensures
        ({
            let k = spec_lower(w);
            let a = spec_add_word(spec_add_proper_noun(d, w), w);
            let b = spec_add_proper_noun(spec_add_word(d, w), w);
            &&& store_contains(a.words, k) && !store_contains(a.proper_nouns, k)
            &&& store_contains(b.proper_nouns, k) && !store_contains(b.words, k)
        }),
{
    lemma_add_proper_noun_effect(d, w);
    lemma_add_word_effect(spec_add_proper_noun(d, w), w);
    lemma_add_word_effect(d, w);
    lemma_add_proper_noun_effect(spec_add_word(d, w), w);
}

/// Two sightings of the same previously unknown word — as by two
/// `lookup_or_add_word` calls — create exactly one entry, not two, and
/// its counter reflects both calls.
pub proof fn lemma_add_word_twice(d: DictModel, w: Seq<char>)
    requires
        dict_wf(d),
        !store_contains(d.words, spec_lower(w)),
        !store_contains(d.proper_nouns, spec_lower(w)),
    ensures
        ({
            let k = spec_lower(w);
            let d2 = spec_add_word(spec_add_word(d, w), w);
            &&& store_contains(d2.words, k)
            &&& store_at(d2.words, k).encounters == 2
            &&& d2.words.len() == d.words.len() + 1
        }),
{
    lemma_add_word_effect(d, w);
    lemma_add_word_effect(spec_add_word(d, w), w);
}

/// The view sequence of a vector of entries.
pub open spec fn views_of(s: Seq<Entry>) -> Seq<EntryModel> {
    Seq::new(s.len(), |i: int| s[i]@)
}

/// Finds the position of the entry whose folded word equals `key`, which
/// must itself be folded by the caller.
fn find_key(v: &Vec<Entry>, key: &str) -> (r: Option<usize>)
    ensures
        match r {
            Some(i) => 0 <= i < v@.len() && key_of(v@[i as int]@) == key@ && (forall|j: int|
                0 <= j < i ==> key_of(v@[j]@) != key@),
            None => forall|j: int| 0 <= j < v@.len() ==> key_of(v@[j]@) != key@,
        },
{
    let n = v.len();
    let mut i: usize = 0;
    while i < n
        invariant
            i <= n,
            n == v@.len(),
            forall|j: int| 0 <= j < i ==> key_of(v@[j]@) != key@,
        decreases n - i,
    {
        let folded = to_folded(v[i].as_str());
        if str_eq(folded.as_str(), key) {
            return Some(i);
        }
        i = i + 1;
    }
    None
}

/// A language-scoped dictionary: one collection of common words and one
/// of proper nouns, each keyed by the case-folded word.
#[derive(Debug)]
pub struct Dictionary {
    language: Language,
    words: Vec<Entry>,
    proper_nouns: Vec<Entry>,
}

impl View for Dictionary {
    type V = DictModel;

    closed spec fn view(&self) -> DictModel {
        DictModel {
            language: self.language,
            words: views_of(self.words@),
            proper_nouns: views_of(self.proper_nouns@),
        }
    }
}

impl Dictionary {
    /// An empty dictionary for a language.
    pub fn new(language: Language) -> (r: Dictionary)
        ensures
            r@ == (DictModel {
                language,
                words: Seq::<EntryModel>::empty(),
                proper_nouns: Seq::<EntryModel>::empty(),
            }),
            dict_wf(r@),
    {
        let r = Dictionary { language, words: Vec::new(), proper_nouns: Vec::new() };
        proof {
            assert(r@.words =~= Seq::<EntryModel>::empty());
            assert(r@.proper_nouns =~= Seq::<EntryModel>::empty());
        }
        r
    }

    /// The language this dictionary is for.
    pub fn get_language(&self) -> (r: Language)
        ensures
            r == self@.language,
    {
        self.language
    }

    /// Records one sighting of a common word, as `spec_add_word` says.
    pub fn add_word(&mut self, word: String)
        requires
            dict_wf(old(self)@),
        ensures
            dict_wf(final(self)@),
            final(self)@ == spec_add_word(old(self)@, word@),
    {
        let key = to_folded(word.as_str());
        let ghost k = key@;
        proof {
            lemma_lower_idempotent(word@);
        }
        match find_key(&self.words, key.as_str()) {
            Some(i) => {
                proof {
                    lemma_store_first_index(self@.words, k, i as int);
                }
                let mut e = self.words[i].clone();
                e.increment_counter();
                self.words.set(i, e);
                proof {
                    assert(self@.words =~= old(self)@.words.update(
                        i as int,
                        spec_bump(old(self)@.words[i as int]),
                    ));
                    assert(self@.proper_nouns =~= old(self)@.proper_nouns);
                }
            },
            None => {
                proof {
                    assert(!store_contains(old(self)@.words, k)) by {
                        lemma_store_index_of(old(self)@.words, k);
                        if store_contains(old(self)@.words, k) {
                            let i = store_index_of(old(self)@.words, k);
                            assert(key_of(old(self)@.words[i]) == k);
                        }
                    }
                }
                match find_key(&self.proper_nouns, key.as_str()) {
                    Some(i) => {
                        proof {
                            lemma_store_first_index(self@.proper_nouns, k, i as int);
                        }
                        let mut e = self.proper_nouns.remove(i);
                        e.increment_counter();
                        let e2 = e.with_word(key);
                        self.words.push(e2);
                        proof {
                            assert(self@.words =~= old(self)@.words.push(
                                EntryModel {
                                    word: k,
                                    ..spec_bump(old(self)@.proper_nouns[i as int])
                                },
                            ));
                            assert(self@.proper_nouns =~= old(self)@.proper_nouns.remove(
                                i as int,
                            ));
                        }
                    },
                    None => {
                        proof {
                            assert(!store_contains(old(self)@.proper_nouns, k)) by {
                                lemma_store_index_of(old(self)@.proper_nouns, k);
                                if store_contains(old(self)@.proper_nouns, k) {
                                    let i = store_index_of(old(self)@.proper_nouns, k);
                                    assert(key_of(old(self)@.proper_nouns[i]) == k);
                                }
                            }
                        }
                        self.words.push(Entry::new(key));
                        proof {
                            assert(self@.words =~= old(self)@.words.push(spec_fresh(k)));
                            assert(self@.proper_nouns =~= old(self)@.proper_nouns);
                        }
                    },
                }
            },
        }
    }

    /// Records one sighting of a proper noun, as `spec_add_proper_noun`
    /// says.
    pub fn add_proper_noun(&mut self, word: String)
        requires
            dict_wf(old(self)@),
        ensures
            dict_wf(final(self)@),
            final(self)@ == spec_add_proper_noun(old(self)@, word@),
    {
        let key = to_folded(word.as_str());
        let ghost k = key@;
        match find_key(&self.proper_nouns, key.as_str()) {
            Some(i) => {
                proof {
                    lemma_store_first_index(self@.proper_nouns, k, i as int);
                }
                let mut e = self.proper_nouns[i].clone();
                e.increment_counter();
                self.proper_nouns.set(i, e);
                proof {
                    assert(self@.proper_nouns =~= old(self)@.proper_nouns.update(
                        i as int,
                        spec_bump(old(self)@.proper_nouns[i as int]),
                    ));
                    assert(self@.words =~= old(self)@.words);
                }
            },
            None => {
                proof {
                    assert(!store_contains(old(self)@.proper_nouns, k)) by {
                        lemma_store_index_of(old(self)@.proper_nouns, k);
                        if store_contains(old(self)@.proper_nouns, k) {
                            let i = store_index_of(old(self)@.proper_nouns, k);
                            assert(key_of(old(self)@.proper_nouns[i]) == k);
                        }
                    }
                }
                match find_key(&self.words, key.as_str()) {
                    Some(i) => {
                        proof {
                            lemma_store_first_index(self@.words, k, i as int);
                        }
                        let mut e = self.words.remove(i);
                        e.increment_counter();
                        let e2 = e.with_word(word);
                        self.proper_nouns.push(e2);
                        proof {
                            assert(self@.proper_nouns =~= old(self)@.proper_nouns.push(
                                EntryModel { word: word@, ..spec_bump(old(self)@.words[i as int]) },
                            ));
                            assert(self@.words =~= old(self)@.words.remove(i as int));
                        }
                    },
                    None => {
                        proof {
                            assert(!store_contains(old(self)@.words, k)) by {
                                lemma_store_index_of(old(self)@.words, k);
                                if store_contains(old(self)@.words, k) {
                                    let i = store_index_of(old(self)@.words, k);
                                    assert(key_of(old(self)@.words[i]) == k);
                                }
                            }
                        }
                        self.proper_nouns.push(Entry::new(word));
                        proof {
                            assert(self@.proper_nouns =~= old(self)@.proper_nouns.push(
                                EntryModel { word: word@, ..spec_fresh(word@) },
                            ));
                            assert(self@.words =~= old(self)@.words);
                        }
                    },
                }
            },
        }
    }

    /// Deletes the entry for a word from whichever collection holds it,
    /// as `spec_remove_word` says.
    pub fn remove_word(&mut self, word: String)
        requires
            dict_wf(old(self)@),
        ensures
            dict_wf(final(self)@),
            final(self)@ == spec_remove_word(old(self)@, word@),
    {
        let key = to_folded(word.as_str());
        let ghost k = key@;
        match find_key(&self.words, key.as_str()) {
            Some(i) => {
                proof {
                    lemma_store_first_index(self@.words, k, i as int);
                }
                self.words.remove(i);
                proof {
                    assert(self@.words =~= old(self)@.words.remove(i as int));
                    assert(self@.proper_nouns =~= old(self)@.proper_nouns);
                }
            },
            None => {
                proof {
                    assert(!store_contains(old(self)@.words, k)) by {
                        lemma_store_index_of(old(self)@.words, k);
                        if store_contains(old(self)@.words, k) {
                            let i = store_index_of(old(self)@.words, k);
                            assert(key_of(old(self)@.words[i]) == k);
                        }
                    }
                }
                match find_key(&self.proper_nouns, key.as_str()) {
                    Some(i) => {
                        proof {
                            lemma_store_first_index(self@.proper_nouns, k, i as int);
                        }
                        self.proper_nouns.remove(i);
                        proof {
                            assert(self@.proper_nouns =~= old(self)@.proper_nouns.remove(
                                i as int,
                            ));
                            assert(self@.words =~= old(self)@.words);
                        }
                    },
                    None => {
                        proof {
                            assert(!store_contains(old(self)@.proper_nouns, k)) by {
                                lemma_store_index_of(old(self)@.proper_nouns, k);
                                if store_contains(old(self)@.proper_nouns, k) {
                                    let i = store_index_of(old(self)@.proper_nouns, k);
                                    assert(key_of(old(self)@.proper_nouns[i]) == k);
                                }
                            }
                        }
                    },
                }
            },
        }
    }

    /// Clears the proper-noun collection entirely; common words stay.
    pub fn remove_proper_nouns(&mut self)
        requires
            dict_wf(old(self)@),
        ensures
            dict_wf(final(self)@),
            final(self)@ == (DictModel {
                proper_nouns: Seq::<EntryModel>::empty(),
                ..old(self)@
            }),
    {
        self.proper_nouns.clear();
        proof {
            assert(self@.proper_nouns =~= Seq::<EntryModel>::empty());
            assert(self@.words =~= old(self)@.words);
        }
    }

    /// Looks a word up in either collection and hands back a copy of its
    /// entry, or nothing when the word has never been recorded.
    pub fn lookup(&self, word: String) -> (r: Option<Entry>)
        ensures
            ({
                let k = spec_lower(word@);
                if store_contains(self@.words, k) {
                    r is Some && r->Some_0@ == store_at(self@.words, k)
                } else if store_contains(self@.proper_nouns, k) {
                    r is Some && r->Some_0@ == store_at(self@.proper_nouns, k)
                } else {
                    r is None
                }
            }),
    {
        let key = to_folded(word.as_str());
        let ghost k = key@;
        match find_key(&self.words, key.as_str()) {
            Some(i) => {
                proof {
                    lemma_store_first_index(self@.words, k, i as int);
                }
                Some(self.words[i].clone())
            },
            None => {
                proof {
                    assert(!store_contains(self@.words, k)) by {
                        lemma_store_index_of(self@.words, k);
                        if store_contains(self@.words, k) {
                            let i = store_index_of(self@.words, k);
                            assert(key_of(self@.words[i]) == k);
                        }
                    }
                }
                match find_key(&self.proper_nouns, key.as_str()) {
                    Some(i) => {
                        proof {
                            lemma_store_first_index(self@.proper_nouns, k, i as int);
                        }
                        Some(self.proper_nouns[i].clone())
                    },
                    None => {
                        proof {
                            assert(!store_contains(self@.proper_nouns, k)) by {
                                lemma_store_index_of(self@.proper_nouns, k);
                                if store_contains(self@.proper_nouns, k) {
                                    let i = store_index_of(self@.proper_nouns, k);
                                    assert(key_of(self@.proper_nouns[i]) == k);
                                }
                            }
                        }
                        None
                    },
                }
            },
        }
    }

    /// Applies one definition attempt's result to the entry for a word,
    /// in place, as `spec_define_at` says: an already defined entry is
    /// untouched, an undefined one stores the result, and a word the
    /// dictionary does not hold leaves it unchanged.
    pub fn define_word_with(&mut self, word: String, defs: crate::dictionary_types::Definitions)
        requires
            dict_wf(old(self)@),
            defs.wf(),
        ensures
            dict_wf(final(self)@),
            final(self)@ == spec_define_at(old(self)@, spec_lower(word@), defs@),
    {
        let key = to_folded(word.as_str());
        let ghost k = key@;
        let ghost dv = defs@;
        match find_key(&self.words, key.as_str()) {
            Some(i) => {
                proof {
                    lemma_store_first_index(self@.words, k, i as int);
                }
                let mut e = self.words[i].clone();
                e.apply_definitions(defs);
                self.words.set(i, e);
                proof {
                    assert(self@.words =~= old(self)@.words.update(
                        i as int,
                        crate::dictionary_entry::spec_define(old(self)@.words[i as int], dv),
                    ));
                    assert(self@.proper_nouns =~= old(self)@.proper_nouns);
                }
            },
            None => {
                proof {
                    assert(!store_contains(old(self)@.words, k)) by {
                        lemma_store_index_of(old(self)@.words, k);
                        if store_contains(old(self)@.words, k) {
                            let i = store_index_of(old(self)@.words, k);
                            assert(key_of(old(self)@.words[i]) == k);
                        }
                    }
                }
                match find_key(&self.proper_nouns, key.as_str()) {
                    Some(i) => {
                        proof {
                            lemma_store_first_index(self@.proper_nouns, k, i as int);
                        }
                        let mut e = self.proper_nouns[i].clone();
                        e.apply_definitions(defs);
                        self.proper_nouns.set(i, e);
                        proof {
                            assert(self@.proper_nouns =~= old(self)@.proper_nouns.update(
                                i as int,
                                crate::dictionary_entry::spec_define(
                                    old(self)@.proper_nouns[i as int],
                                    dv,
                                ),
                            ));
                            assert(self@.words =~= old(self)@.words);
                        }
                    },
                    None => {
                        proof {
                            assert(!store_contains(old(self)@.proper_nouns, k)) by {
                                lemma_store_index_of(old(self)@.proper_nouns, k);
                                if store_contains(old(self)@.proper_nouns, k) {
                                    let i = store_index_of(old(self)@.proper_nouns, k);
                                    assert(key_of(old(self)@.proper_nouns[i]) == k);
                                }
                            }
                        }
                    },
                }
            },
        }
    }

    /// The sum of the occurrence counters over the common-word
    /// collection — token occurrences, not distinct vocabulary —
    /// saturating at the machine limit.
    pub fn total_words(&self) -> (r: usize)
        ensures
            r as nat == spec_inc(spec_total_words(self@.words), 0),
    {
        let n = self.words.len();
        let mut total: usize = 0;
        let mut i: usize = 0;
        while i < n
            invariant
                i <= n,
                n == self.words@.len(),
                total as nat == spec_inc(spec_total_words(self@.words.subrange(0, i as int)), 0),
            decreases n - i,
        {
            let c = self.words[i].get_counter();
            proof {
                assert(self@.words.subrange(0, i + 1 as int).drop_last() =~= self@.words.subrange(
                    0,
                    i as int,
                ));
                assert(self@.words.subrange(0, i + 1 as int).last() == self@.words[i as int]);
            }
            total = total.saturating_add(c);
            i = i + 1;
        }
        proof {
            assert(self@.words.subrange(0, n as int) =~= self@.words);
        }
        total
    }

    /// How many distinct common words the dictionary holds — the
    /// vocabulary size, deliberately separate from `total_words`, which
    /// counts token occurrences.
    pub fn distinct_words(&self) -> (r: usize)
        ensures
            r == self@.words.len(),
    {
        self.words.len()
    }

    /// Copies of all common-word entries, in storage order.
    pub fn get_entries(&self) -> (r: Vec<Entry>)
        ensures
            views_of(r@) == self@.words,
    {
        clone_entries(&self.words)
    }

    /// Copies of all proper-noun entries, in storage order.
    pub fn get_proper_nouns(&self) -> (r: Vec<Entry>)
        ensures
            views_of(r@) == self@.proper_nouns,
    {
        clone_entries(&self.proper_nouns)
    }
}

fn clone_entries(v: &Vec<Entry>) -> (r: Vec<Entry>)
    ensures
        views_of(r@) == views_of(v@),
{
    let mut r: Vec<Entry> = Vec::new();
    let mut i: usize = 0;
    while i < v.len()
        invariant
            i <= v@.len(),
            r@.len() == i,
            forall|j: int| 0 <= j < i ==> r@[j]@ == v@[j]@,
        decreases v@.len() - i,
    {
        r.push(v[i].clone());
        i = i + 1;
    }
    assert(views_of(r@) =~= views_of(v@));
    r
}

} // verus!
