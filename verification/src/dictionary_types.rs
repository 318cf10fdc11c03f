//! The definitions structure attached to an entry: a mapping from a
//! gloss key to the related terms (synonyms, examples) under that gloss.

use vstd::prelude::*;

verus! {

/// The mathematical shape of a definitions structure: gloss keys paired
/// with their related terms, in insertion order.
pub type DefsModel = Seq<(Seq<char>, Seq<Seq<char>>)>;

/// The gloss keys of a definitions model are pairwise distinct, so the
/// structure is a mapping.
pub open spec fn defs_unique(m: DefsModel) -> bool {
    forall|i: int, j: int| 0 <= i < j < m.len() ==> m[i].0 != m[j].0
}

/// The index of a gloss key in the model, or -1 when absent.
pub open spec fn defs_index_of(m: DefsModel, g: Seq<char>) -> int
    decreases m.len(),
{
    if m.len() == 0 {
        -1
    } else if m[0].0 == g {
        0
    } else {
        let r = defs_index_of(m.drop_first(), g);
        if r == -1 {
            -1
        } else {
            r + 1
        }
    }
}

/// Whether a gloss key is present in the model.
pub open spec fn defs_contains(m: DefsModel, g: Seq<char>) -> bool {
    defs_index_of(m, g) >= 0
}

pub proof fn lemma_defs_index_of(m: DefsModel, g: Seq<char>)
    ensures
        defs_contains(m, g) ==> 0 <= defs_index_of(m, g) < m.len() && m[defs_index_of(m, g)].0
            == g,
        !defs_contains(m, g) ==> forall|i: int| 0 <= i < m.len() ==> m[i].0 != g,
    decreases m.len(),
{
    if m.len() > 0 {
        if m[0].0 != g {
            lemma_defs_index_of(m.drop_first(), g);
            assert forall|i: int| !defs_contains(m, g) && 0 <= i < m.len() implies m[i].0
                != g by {
                if i > 0 {
                    assert(m.drop_first()[i - 1] == m[i]);
                }
            }
        }
    }
}

/// The model after binding a gloss key to terms: the existing binding is
/// replaced, an absent one is appended.
pub open spec fn spec_defs_insert(m: DefsModel, g: Seq<char>, ts: Seq<Seq<char>>) -> DefsModel {
    if defs_contains(m, g) {
        m.update(defs_index_of(m, g), (g, ts))
    } else {
        m.push((g, ts))
    }
}

/// A mapping from gloss keys to their related terms, built up one gloss
/// at a time. Later bindings for a gloss replace earlier ones.
#[derive(Debug, PartialEq, Eq)]
pub struct Definitions {
    groups: Vec<(String, Vec<String>)>,
}

impl View for Definitions {
    type V = DefsModel;

    closed spec fn view(&self) -> DefsModel {
        Seq::new(
            self.groups@.len(),
            |i: int| (self.groups@[i].0@, self.groups@[i].1.deep_view()),
        )
    }
}

impl Clone for Definitions {
    /// Clones the structure, gloss for gloss and term for term.
    fn clone(&self) -> (r: Self)
        ensures
            r@ == self@,
    {
        let mut groups: Vec<(String, Vec<String>)> = Vec::new();
        let mut i: usize = 0;
        while i < self.groups.len()
            invariant
                i <= self.groups@.len(),
                groups@.len() == i,
                forall|j: int|
                    0 <= j < i ==> groups@[j].0@ == self.groups@[j].0@ && groups@[j].1.deep_view()
                        == self.groups@[j].1.deep_view(),
            decreases self.groups@.len() - i,
        {
            let g = self.groups[i].0.clone();
            let ts = clone_terms(&self.groups[i].1);
            groups.push((g, ts));
            i = i + 1;
        }
        let r = Definitions { groups };
        assert(r@ =~= self@);
        r
    }
}

fn clone_terms(v: &Vec<String>) -> (r: Vec<String>)
    ensures
        r.deep_view() == v.deep_view(),
{
    let mut r: Vec<String> = Vec::new();
    let mut i: usize = 0;
    while i < v.len()
        invariant
            i <= v@.len(),
            r@.len() == i,
            forall|j: int| 0 <= j < i ==> r@[j]@ == v@[j]@,
        decreases v@.len() - i,
    {
        r.push(v[i].clone());
        i = i + 1;
    }
    assert(r.deep_view() =~= v.deep_view());
    r
}

impl Definitions {
    /// The gloss keys are pairwise distinct.
    pub open spec fn wf(&self) -> bool {
        defs_unique(self@)
    }

    /// An empty mapping: the state of a word for which no definition has
    /// been found.
    pub fn new() -> (r: Definitions)
        ensures
            r@ == Seq::<(Seq<char>, Seq<Seq<char>>)>::empty(),
            r.wf(),
    {
        let r = Definitions { groups: Vec::new() };
        assert(r@ =~= Seq::<(Seq<char>, Seq<Seq<char>>)>::empty());
        r
    }

    /// The number of gloss keys bound.
    pub fn len(&self) -> (r: usize)
        ensures
            r == self@.len(),
    {
        self.groups.len()
    }

    /// Whether no gloss key is bound.
    pub fn is_empty(&self) -> (r: bool)
        ensures
            r == (self@.len() == 0),
    {
        self.groups.len() == 0
    }

    /// Binds a gloss key to its related terms, replacing any earlier
    /// binding for the same key.
    pub fn insert(&mut self, gloss: String, terms: Vec<String>)
        requires
            old(self).wf(),
        ensures
            final(self).wf(),
            final(self)@ == spec_defs_insert(old(self)@, gloss@, terms.deep_view()),
    {
        let ghost g = gloss@;
        let ghost ts = terms.deep_view();
        let n = self.groups.len();
        let mut i: usize = 0;
        while i < n
            invariant
                i <= n,
                self == old(self),
                old(self).wf(),
                g == gloss@,
                ts == terms.deep_view(),
                n == self.groups@.len(),
                forall|j: int| 0 <= j < i ==> self@[j].0 != g,
            decreases n - i,
        {
            let hit = crate::text::str_eq(self.groups[i].0.as_str(), gloss.as_str());
            proof {
                assert(self@[i as int].0 == self.groups@[i as int].0@);
            }
            if hit {
                proof {
                    lemma_defs_first_index(self@, g, i as int);
                }
                self.groups.set(i, (gloss, terms));
                proof {
                    assert(self@ =~= old(self)@.update(i as int, (g, ts)));
                    assert forall|a: int, b: int| 0 <= a < b < self@.len() implies self@[a].0
                        != self@[b].0 by {
                        assert(self@[a].0 == old(self)@[a].0);
                        assert(self@[b].0 == old(self)@[b].0);
                    }
                }
                return ;
            }
            i = i + 1;
        }
        proof {
            lemma_defs_index_of(self@, g);
        }
        self.groups.push((gloss, terms));
        proof {
            assert(self@ =~= old(self)@.push((g, ts)));
            assert forall|a: int, b: int| 0 <= a < b < self@.len() implies self@[a].0
                != self@[b].0 by {
                if b == self@.len() - 1 {
                    assert(self@[a].0 != g);
                }
            }
        }
    }
}

/// The position of the first occurrence of a gloss key, given that no
/// earlier position holds it.
proof fn lemma_defs_first_index(m: DefsModel, g: Seq<char>, i: int)
    requires
        0 <= i < m.len(),
        m[i].0 == g,
        forall|j: int| 0 <= j < i ==> m[j].0 != g,
    ensures
        defs_index_of(m, g) == i,
    decreases m.len(),
{
    if i > 0 {
        assert(m[0].0 != g);
        assert forall|j: int| 0 <= j < i - 1 implies m.drop_first()[j].0 != g by {
            assert(m.drop_first()[j] == m[j + 1]);
        }
        assert(m.drop_first()[i - 1] == m[i]);
        lemma_defs_first_index(m.drop_first(), g, i - 1);
    }
}

} // verus!
