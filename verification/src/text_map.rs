//! A map keyed by text whose entries are visited in the order of their keys.
use vstd::prelude::*;

use crate::text::{
    before, in_order, increasing, is_before, lemma_before_irreflexive, lemma_before_total,
    lemma_before_transitive, lemma_in_order, same,
};

verus! {

/// A map from text to `V`. Entries are kept in increasing order of their keys.
#[derive(Debug, PartialEq)]
pub struct TextMap<V> {
    entries: Vec<(String, V)>,
}

impl<V> View for TextMap<V> {
    type V = Map<Seq<char>, V>;

    closed spec fn view(&self) -> Map<Seq<char>, V> {
        Map::new(
            |k: Seq<char>| entry_keys(self.entries@).contains(k),
            |k: Seq<char>| self.entries@[entry_keys(self.entries@).index_of(k)].1,
        )
    }
}

spec fn entry_keys<V>(entries: Seq<(String, V)>) -> Seq<Seq<char>> {
    Seq::new(entries.len(), |i: int| entries[i].0@)
}

/// A map holds finitely many keys.
pub proof fn lemma_text_map_finite<V>(m: TextMap<V>)
    ensures
        m@.dom().finite(),
{
    assert(m@.dom() =~= entry_keys(m.entries@).to_set());
}

/// The position of the first key that does not come before `k`.
fn position<V>(entries: &Vec<(String, V)>, k: &str) -> (r: usize)
    requires
        increasing(entry_keys(entries@)),
    ensures
        r <= entries@.len(),
        forall|i: int| 0 <= i < r ==> before(#[trigger] entries@[i].0@, k@),
        forall|i: int| r <= i < entries@.len() ==> !before(#[trigger] entries@[i].0@, k@),
{
    let mut i: usize = 0;
    while i < entries.len() && is_before(entries[i].0.as_str(), k)
        invariant
            i <= entries@.len(),
            forall|j: int| 0 <= j < i ==> before(#[trigger] entries@[j].0@, k@),
        decreases entries.len() - i,
    {
        i += 1;
    }
    proof {
        let ks = entry_keys(entries@);
        assert forall|j: int| i <= j < entries@.len() implies !before(#[trigger] entries@[j].0@, k@) by {
            if before(entries@[j].0@, k@) && j > i {
                assert(before(ks[i as int], ks[j]));
                lemma_before_transitive(ks[i as int], ks[j], k@);
            }
        }
    }
    i
}

impl<V> TextMap<V> {
    #[verifier::type_invariant]
    spec fn ordered(self) -> bool {
        increasing(entry_keys(self.entries@))
    }

    proof fn lemma_at(self, i: int)
        requires
            self.ordered(),
            0 <= i < self.entries@.len(),
        ensures
            self@.dom().contains(self.entries@[i].0@),
            self@[self.entries@[i].0@] == self.entries@[i].1,
    {
        let ks = entry_keys(self.entries@);
        let k = self.entries@[i].0@;
        assert(ks[i] == k);
        let j = ks.index_of(k);
        assert(0 <= j < ks.len() && ks[j] == k);
        lemma_before_irreflexive(k);
    }

    proof fn lemma_keys(self)
        requires
            self.ordered(),
        ensures
            entry_keys(self.entries@) == in_order(self@.dom()),
            entry_keys(self.entries@).to_set() == self@.dom(),
            self@.dom().finite(),
    {
        lemma_in_order(entry_keys(self.entries@));
        assert(entry_keys(self.entries@).to_set() =~= self@.dom());
    }

    /// An empty map.
    pub fn new() -> (r: Self)
        ensures
            r@ == Map::<Seq<char>, V>::empty(),
    {
        let r = TextMap { entries: Vec::new() };
        assert(r@ =~= Map::<Seq<char>, V>::empty());
        r
    }

    /// How many keys the map holds.
    pub fn len(&self) -> (r: usize)
        ensures
            r == self@.len(),
            r == in_order(self@.dom()).len(),
            self@.dom().finite(),
            increasing(in_order(self@.dom())),
            in_order(self@.dom()).to_set() == self@.dom(),
    {
        proof {
            use_type_invariant(self);
            self.lemma_keys();
            let ks = entry_keys(self.entries@);
            lemma_increasing_distinct(ks);
            ks.unique_seq_to_set();
        }
        self.entries.len()
    }

    /// `true` exactly when the map holds no key.
    pub fn is_empty(&self) -> (r: bool)
        ensures
            r == (self@.len() == 0),
    {
        self.len() == 0
    }

    /// The `i`-th entry in the order of the keys.
    pub fn entry(&self, i: usize) -> (r: (&String, &V))
        requires
            i < in_order(self@.dom()).len(),
        ensures
            r.0@ == in_order(self@.dom())[i as int],
            self@.dom().contains(r.0@),
            *r.1 == self@[r.0@],
    {
        proof {
            use_type_invariant(self);
            self.lemma_keys();
            self.lemma_at(i as int);
        }
        let e = &self.entries[i];
        (&e.0, &e.1)
    }

    /// The value under `k`, if there is one.
    pub fn get(&self, k: &str) -> (r: Option<&V>)
        ensures
            r is Some <==> self@.dom().contains(k@),
            r matches Some(v) ==> *v == self@[k@],
    {
        proof {
            use_type_invariant(self);
        }
        let i: usize = position(&self.entries, k);
        if i < self.entries.len() && same(self.entries[i].0.as_str(), k) {
            proof {
                self.lemma_at(i as int);
            }
            Some(&self.entries[i].1)
        } else {
            proof {
                self.lemma_absent(k@, i as int);
            }
            None
        }
    }

    proof fn lemma_absent(self, k: Seq<char>, i: int)
        requires
            self.ordered(),
            0 <= i <= self.entries@.len(),
            forall|j: int| 0 <= j < i ==> before(#[trigger] self.entries@[j].0@, k),
            forall|j: int| i <= j < self.entries@.len() ==> !before(#[trigger] self.entries@[j].0@, k),
            i < self.entries@.len() ==> self.entries@[i].0@ != k,
        ensures
            !self@.dom().contains(k),
            forall|j: int| i <= j < self.entries@.len() ==> before(k, #[trigger] self.entries@[j].0@),
    {
        let ks = entry_keys(self.entries@);
        lemma_before_irreflexive(k);
        assert forall|j: int| i <= j < self.entries@.len() implies before(k, #[trigger] self.entries@[j].0@) by {
            lemma_before_total(k, ks[i]);
            assert(before(k, ks[i]));
            if j > i {
                assert(before(ks[i], ks[j]));
                lemma_before_transitive(k, ks[i], ks[j]);
            }
        }
        if self@.dom().contains(k) {
            let j = choose|j: int| 0 <= j < ks.len() && ks[j] == k;
            assert(self.entries@[j].0@ == k);
        }
    }

    /// `true` exactly when the map holds `k`.
    pub fn contains_key(&self, k: &str) -> (r: bool)
        ensures
            r == self@.dom().contains(k@),
    {
        self.get(k).is_some()
    }

    /// Puts `v` under `k`, in place of any value that was there.
    pub fn insert(&mut self, k: String, v: V)
        ensures
            final(self)@ == old(self)@.insert(k@, v),
    {
        proof {
            use_type_invariant(&*self);
        }
        let ghost before_it = *self;
        let ghost key = k@;
        let mut entries: Vec<(String, V)> = Vec::new();
        std::mem::swap(&mut entries, &mut self.entries);
        let i: usize = position(&entries, k.as_str());
        let ghost es = entries@;
        if i < entries.len() && same(entries[i].0.as_str(), k.as_str()) {
            entries[i] = (k, v);
            assert(entry_keys(entries@) =~= entry_keys(es));
        } else {
            entries.insert(i, (k, v));
            proof {
                before_it.lemma_absent(key, i as int);
                let ks = entry_keys(es);
                let ns = entry_keys(entries@);
                assert(ns =~= ks.insert(i as int, key));
                assert forall|a: int, b: int| 0 <= a < b < ns.len() implies before(
                    #[trigger] ns[a],
                    #[trigger] ns[b],
                ) by {
                    if a < i && b == i {
                        assert(before(es[a].0@, key));
                    } else if a == i {
                        assert(before(key, es[b - 1].0@));
                    } else {
                        let a1 = if a < i { a } else { a - 1 };
                        let b1 = if b < i { b } else { b - 1 };
                        assert(before(ks[a1], ks[b1]));
                    }
                }
            }
        }
        self.entries = entries;
        proof {
            let now = *self;
            assert(now.entries@[i as int] == (k, v));
            assert forall|x: Seq<char>| now@.dom().contains(x) <==> before_it@.insert(key, v).dom().contains(x) by {
                if now@.dom().contains(x) {
                    let j = entry_keys(now.entries@).index_of(x);
                    if j != i {
                        let j1 = if now.entries@.len() == es.len() || j < i { j } else { j - 1 };
                        before_it.lemma_at(j1);
                    }
                }
                if before_it@.dom().contains(x) {
                    let j = entry_keys(es).index_of(x);
                    let j1 = if now.entries@.len() == es.len() || j < i { j } else { j + 1 };
                    now.lemma_at(j1);
                }
                now.lemma_at(i as int);
            }
            assert forall|x: Seq<char>| now@.dom().contains(x) implies now@[x] == before_it@.insert(key, v)[x] by {
                now.lemma_at(i as int);
                if x != key {
                    let j = entry_keys(now.entries@).index_of(x);
                    let j1 = if now.entries@.len() == es.len() || j < i { j } else { j - 1 };
                    before_it.lemma_at(j1);
                }
            }
            assert(now@ =~= before_it@.insert(key, v));
        }
    }

    /// Takes `k` and its value out of the map.
    pub fn remove(&mut self, k: &str)
        ensures
            final(self)@ == old(self)@.remove(k@),
    {
        proof {
            use_type_invariant(&*self);
        }
        let ghost before_it = *self;
        let mut entries: Vec<(String, V)> = Vec::new();
        std::mem::swap(&mut entries, &mut self.entries);
        let i: usize = position(&entries, k);
        let ghost es = entries@;
        if i < entries.len() && same(entries[i].0.as_str(), k) {
            let _gone = entries.remove(i);
            proof {
                let ks = entry_keys(es);
                let ns = entry_keys(entries@);
                assert(ns =~= ks.remove(i as int));
                assert forall|a: int, b: int| 0 <= a < b < ns.len() implies before(
                    #[trigger] ns[a],
                    #[trigger] ns[b],
                ) by {
                    let a1 = if a < i { a } else { a + 1 };
                    let b1 = if b < i { b } else { b + 1 };
                    assert(before(ks[a1], ks[b1]));
                }
            }
        } else {
            proof {
                before_it.lemma_absent(k@, i as int);
            }
        }
        self.entries = entries;
        proof {
            let now = *self;
            let gone = now.entries@.len() < es.len();
            assert forall|x: Seq<char>| #[trigger] now@.dom().contains(x) implies before_it@.dom().contains(x)
                && x != k@ && now@[x] == before_it@[x] by {
                let j = entry_keys(now.entries@).index_of(x);
                let j1 = if !gone || j < i { j } else { j + 1 };
                before_it.lemma_at(j1);
                if gone {
                    before_it.lemma_at(i as int);
                    lemma_before_irreflexive(x);
                    assert(entry_keys(es)[j1] != entry_keys(es)[i as int]);
                }
            }
            assert forall|x: Seq<char>| #[trigger] before_it@.dom().contains(x) && x != k@ implies now@.dom().contains(x) by {
                let j = entry_keys(es).index_of(x);
                assert(entry_keys(es)[j] == x);
                let j1 = if !gone || j < i { j } else { j - 1 };
                now.lemma_at(j1);
            }
            assert(now@ =~= before_it@.remove(k@));
        }
    }
}

/// Texts in increasing order are distinct.
pub proof fn lemma_increasing_distinct(s: Seq<Seq<char>>)
    requires
        increasing(s),
    ensures
        s.no_duplicates(),
{
    assert forall|i: int, j: int| 0 <= i < s.len() && 0 <= j < s.len() && i != j implies s[i] != s[j] by {
        lemma_before_irreflexive(s[i]);
        if i < j {
            assert(before(s[i], s[j]));
        } else {
            assert(before(s[j], s[i]));
        }
    }
}

impl<V: Clone> Clone for TextMap<V> {
    fn clone(&self) -> (r: Self)
        ensures
            r@.dom() == self@.dom(),
            forall|k: Seq<char>| #[trigger] r@.dom().contains(k) ==> cloned::<V>(self@[k], r@[k]),
    {
        proof {
            use_type_invariant(self);
        }
        let mut entries: Vec<(String, V)> = Vec::new();
        let mut i: usize = 0;
        while i < self.entries.len()
            invariant
                i <= self.entries@.len(),
                entries@.len() == i,
                forall|j: int| 0 <= j < i ==> #[trigger] entries@[j].0@ == self.entries@[j].0@,
                forall|j: int| 0 <= j < i ==> cloned::<V>(self.entries@[j].1, #[trigger] entries@[j].1),
            decreases self.entries.len() - i,
        {
            let e = &self.entries[i];
            entries.push((e.0.clone(), e.1.clone()));
            i += 1;
        }
        assert(entry_keys(entries@) =~= entry_keys(self.entries@));
        let r = TextMap { entries };
        proof {
            assert forall|k: Seq<char>| #[trigger] r@.dom().contains(k) implies cloned::<V>(self@[k], r@[k]) by {
                let j = entry_keys(r.entries@).index_of(k);
                assert(entry_keys(r.entries@)[j] == k);
                self.lemma_at(j);
                r.lemma_at(j);
            }
            assert(r@.dom() =~= self@.dom());
        }
        r
    }
}

} // verus!
