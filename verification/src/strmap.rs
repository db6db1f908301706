//! A map from strings to values that keeps its keys in order.
//!
//! The entries live in one vector, sorted strictly by key, so walking them by
//! index visits every key once and in string order.

use vstd::prelude::*;

use crate::strings::{str_order, Order};

verus! {

/// An ordered map keyed by strings.
#[derive(Debug, Clone, PartialEq, Eq)]
pub struct StrMap<V> {
    entries: Vec<(String, V)>,
}

impl<V> StrMap<V> {
    /// The keys, in the order in which the map is walked.
    pub closed spec fn keys(&self) -> Seq<Seq<char>> {
        self.entries@.map_values(|e: (String, V)| e.0@)
    }

    /// The values, in the order in which the map is walked.
    pub closed spec fn values(&self) -> Seq<V> {
        self.entries@.map_values(|e: (String, V)| e.1)
    }

    /// The position of a key.
    pub closed spec fn position(&self, k: Seq<char>) -> int {
        choose|i: int| 0 <= i < self.entries@.len() && (#[trigger] self.entries@[i]).0@ == k
    }

    /// The map from keys to values.
    pub closed spec fn view(&self) -> Map<Seq<char>, V> {
        Map::new(
            |k: Seq<char>| exists|i: int|
                0 <= i < self.entries@.len() && (#[trigger] self.entries@[i]).0@ == k,
            |k: Seq<char>| self.entries@[self.position(k)].1,
        )
    }

    /// The keys are strictly ascending.
    pub closed spec fn wf(&self) -> bool {
        forall|i: int, j: int|
            #![trigger self.entries@[i], self.entries@[j]]
            0 <= i < j < self.entries@.len() ==> crate::strings::str_lt(
                self.entries@[i].0@,
                self.entries@[j].0@,
            )
    }

    /// What a well-formed map is: its keys ascend strictly, there is one value for each key, and
    /// the pairs of the walk are exactly the pairs of the map.
    pub proof fn lemma_walk(&self)
        requires
            self.wf(),
        ensures
            self.keys().len() == self.values().len(),
            forall|i: int, j: int|
                #![trigger self.keys()[i], self.keys()[j]]
                0 <= i < j < self.keys().len() ==> crate::strings::str_lt(
                    self.keys()[i],
                    self.keys()[j],
                ),
            forall|i: int|
                0 <= i < self.keys().len() ==> self@.dom().contains(#[trigger] self.keys()[i])
                    && self@[self.keys()[i]] == self.values()[i],
            forall|k: Seq<char>| #[trigger]
                self@.dom().contains(k) ==> 0 <= self.position(k) < self.keys().len()
                    && self.keys()[self.position(k)] == k,
    {
        assert forall|i: int| 0 <= i < self.keys().len() implies self@.dom().contains(
            #[trigger] self.keys()[i],
        ) && self@[self.keys()[i]] == self.values()[i] by {
            self.lemma_entry(i);
        }
        assert forall|i: int, j: int|
            #![trigger self.keys()[i], self.keys()[j]]
            0 <= i < j < self.keys().len() implies crate::strings::str_lt(
            self.keys()[i],
            self.keys()[j],
        ) by {
            assert(self.keys()[i] == self.entries@[i].0@);
            assert(self.keys()[j] == self.entries@[j].0@);
        }
    }

    /// In a well-formed map no key occurs at two positions.
    pub proof fn lemma_keys_distinct(&self)
        requires
            self.wf(),
        ensures
            forall|i: int, j: int|
                #![trigger self.keys()[i], self.keys()[j]]
                0 <= i < self.keys().len() && 0 <= j < self.keys().len() && self.keys()[i]
                    == self.keys()[j] ==> i == j,
    {
        self.lemma_walk();
        assert forall|i: int, j: int|
            #![trigger self.keys()[i], self.keys()[j]]
            0 <= i < self.keys().len() && 0 <= j < self.keys().len() && self.keys()[i]
                == self.keys()[j] implies i == j by {
            crate::strings::lemma_str_lt_irreflexive(self.keys()[i]);
        }
    }

    proof fn lemma_entry(&self, i: int)
        requires
            self.wf(),
            0 <= i < self.entries@.len(),
        ensures
            self@.dom().contains(self.entries@[i].0@),
            self@[self.entries@[i].0@] == self.entries@[i].1,
            self.position(self.entries@[i].0@) == i,
    {
        let k = self.entries@[i].0@;
        let p = self.position(k);
        assert(0 <= p < self.entries@.len() && self.entries@[p].0@ == k);
        crate::strings::lemma_str_lt_irreflexive(k);
        assert(!(p < i));
        assert(!(i < p));
    }

    /// An empty map.
    pub fn new() -> (r: Self)
        ensures
            r.wf(),
            r@ == Map::<Seq<char>, V>::empty(),
            r.keys() == Seq::<Seq<char>>::empty(),
            r.values() == Seq::<V>::empty(),
    {
        StrMap { entries: Vec::new() }
    }

    /// The number of keys.
    pub fn len(&self) -> (r: usize)
        requires
            self.wf(),
        ensures
            r == self.keys().len(),
            r == self.values().len(),
            r == self@.dom().len(),
            self@.dom().finite(),
    {
        proof {
            self.lemma_walk();
            self.lemma_keys_distinct();
            assert(self.keys().no_duplicates());
            self.keys().unique_seq_to_set();
            assert(self.keys().to_set() =~= self@.dom()) by {
                assert forall|k: Seq<char>|
                    self@.dom().contains(k) implies self.keys().to_set().contains(k) by {
                    assert(self.keys()[self.position(k)] == k);
                }
            }
        }
        self.entries.len()
    }

    /// The key at a position of the walk.
    pub fn key_at(&self, i: usize) -> (r: &String)
        requires
            i < self.keys().len(),
        ensures
            r@ == self.keys()[i as int],
    {
        &self.entries[i].0
    }

    /// The value at a position of the walk.
    pub fn value_at(&self, i: usize) -> (r: &V)
        requires
            i < self.values().len(),
        ensures
            *r == self.values()[i as int],
    {
        &self.entries[i].1
    }

    /// The first position whose key is not before `key`, and whether it holds `key`.
    fn locate(&self, key: &str) -> (r: (usize, bool))
        requires
            self.wf(),
        ensures
            r.0 <= self.entries@.len(),
            forall|j: int|
                0 <= j < r.0 ==> crate::strings::str_lt((#[trigger] self.entries@[j]).0@, key@),
            r.1 ==> r.0 < self.entries@.len() && self.entries@[r.0 as int].0@ == key@,
            !r.1 ==> !self@.dom().contains(key@),
            !r.1 ==> forall|j: int|
                r.0 <= j < self.entries@.len() ==> crate::strings::str_lt(
                    key@,
                    (#[trigger] self.entries@[j]).0@,
                ),
    {
        let mut i: usize = 0;
        while i < self.entries.len()
            invariant
                i <= self.entries@.len(),
                self.wf(),
                forall|j: int|
                    0 <= j < i ==> crate::strings::str_lt((#[trigger] self.entries@[j]).0@, key@),
            decreases self.entries@.len() - i,
        {
            match str_order(self.entries[i].0.as_str(), key) {
                Order::Before => {},
                Order::Same => {
                    return (i, true);
                },
                Order::After => {
                    proof {
                        assert forall|j: int|
                            i <= j < self.entries@.len() implies crate::strings::str_lt(
                            key@,
                            (#[trigger] self.entries@[j]).0@,
                        ) by {
                            if j > i {
                                crate::strings::lemma_str_lt_transitive(
                                    key@,
                                    self.entries@[i as int].0@,
                                    self.entries@[j].0@,
                                );
                            }
                        }
                        crate::strings::lemma_str_lt_irreflexive(key@);
                    }
                    return (i, false);
                },
            }
            i = i + 1;
        }
        proof {
            crate::strings::lemma_str_lt_irreflexive(key@);
        }
        (i, false)
    }

    /// The value of a key.
    pub fn get(&self, key: &str) -> (r: Option<&V>)
        requires
            self.wf(),
        ensures
            r == (if self@.dom().contains(key@) {
                Some(&self@[key@])
            } else {
                None
            }),
    {
        let (i, found) = self.locate(key);
        if found {
            proof {
                self.lemma_entry(i as int);
            }
            Some(&self.entries[i].1)
        } else {
            None
        }
    }

    /// Whether a key is present.
    pub fn contains_key(&self, key: &str) -> (r: bool)
        requires
            self.wf(),
        ensures
            r == self@.dom().contains(key@),
    {
        let (i, found) = self.locate(key);
        proof {
            if found {
                self.lemma_entry(i as int);
            }
        }
        found
    }

    /// Sets the value of a key, replacing the value it had.
    pub fn insert(&mut self, key: String, value: V)
        requires
            old(self).wf(),
        ensures
            final(self).wf(),
            final(self)@ == old(self)@.insert(key@, value),
    {
        let (i, found) = self.locate(key.as_str());
        let ghost before = *self;
        if found {
            self.entries.set(i, (key, value));
            proof {
                assert forall|a: int, b: int|
                    #![trigger self.entries@[a], self.entries@[b]]
                    0 <= a < b < self.entries@.len() implies crate::strings::str_lt(
                    self.entries@[a].0@,
                    self.entries@[b].0@,
                ) by {
                    assert(self.entries@[a].0@ == before.entries@[a].0@);
                    assert(self.entries@[b].0@ == before.entries@[b].0@);
                }
            }
        } else {
            self.entries.insert(i, (key, value));
            proof {
                assert forall|a: int, b: int|
                    #![trigger self.entries@[a], self.entries@[b]]
                    0 <= a < b < self.entries@.len() implies crate::strings::str_lt(
                    self.entries@[a].0@,
                    self.entries@[b].0@,
                ) by {
                    let a0 = if a < i { a } else { a - 1 };
                    let b0 = if b < i { b } else { b - 1 };
                    if a != i {
                        assert(self.entries@[a] == before.entries@[a0]);
                    }
                    if b != i {
                        assert(self.entries@[b] == before.entries@[b0]);
                    }
                }
            }
        }
        proof {
            assert(self.entries@[i as int] == (key, value));
            self.lemma_entry(i as int);
            let after = before@.insert(key@, value);
            assert forall|k: Seq<char>|
                #![trigger self@.dom().contains(k)]
                #![trigger after.dom().contains(k)]
                self@.dom().contains(k) == after.dom().contains(k) && (
            after.dom().contains(k) ==> self@[k] == after[k]) by {
                if k != key@ {
                    if before@.dom().contains(k) {
                        let p = before.position(k);
                        let q = if found || p < i { p } else { p + 1 };
                        assert(before.entries@[p].0@ == k);
                        assert(self.entries@[q] == before.entries@[p]);
                        self.lemma_entry(q);
                        before.lemma_entry(p);
                    }
                    if self@.dom().contains(k) {
                        let q = self.position(k);
                        assert(self.entries@[q].0@ == k);
                        let p = if found || q < i { q } else { q - 1 };
                        assert(self.entries@[q] == before.entries@[p]);
                        before.lemma_entry(p);
                    }
                }
            }
            assert(self@.dom() =~= after.dom());
            assert(self@ =~= after);
        }
    }

    /// Removes a key, and says whether it was present.
    pub fn remove(&mut self, key: &str) -> (r: bool)
        requires
            old(self).wf(),
        ensures
            final(self).wf(),
            r == old(self)@.dom().contains(key@),
            final(self)@ == old(self)@.remove(key@),
            !r ==> *final(self) == *old(self),
    {
        let (i, found) = self.locate(key);
        let ghost before = *self;
        if found {
            proof {
                self.lemma_entry(i as int);
            }
            self.entries.remove(i);
            proof {
                assert forall|a: int, b: int|
                    #![trigger self.entries@[a], self.entries@[b]]
                    0 <= a < b < self.entries@.len() implies crate::strings::str_lt(
                    self.entries@[a].0@,
                    self.entries@[b].0@,
                ) by {
                    let a0 = if a < i { a } else { a + 1 };
                    let b0 = if b < i { b } else { b + 1 };
                    assert(self.entries@[a] == before.entries@[a0]);
                    assert(self.entries@[b] == before.entries@[b0]);
                }
                let after = before@.remove(key@);
                assert forall|k: Seq<char>|
                #![trigger self@.dom().contains(k)]
                #![trigger after.dom().contains(k)]
                self@.dom().contains(k) == after.dom().contains(k) && (
                after.dom().contains(k) ==> self@[k] == after[k]) by {
                    if self@.dom().contains(k) {
                        let q = self.position(k);
                        assert(self.entries@[q].0@ == k);
                        let p = if q < i { q } else { q + 1 };
                        assert(self.entries@[q] == before.entries@[p]);
                        before.lemma_entry(p);
                        self.lemma_entry(q);
                    }
                    if k != key@ && before@.dom().contains(k) {
                        let p = before.position(k);
                        assert(before.entries@[p].0@ == k);
                        before.lemma_entry(p);
                        let q = if p < i { p } else { p - 1 };
                        assert(self.entries@[q] == before.entries@[p]);
                        self.lemma_entry(q);
                    }
                }
                assert(self@.dom() =~= after.dom());
            assert(self@ =~= after);
            }
        } else {
            assert(self@.remove(key@) =~= self@);
        }
        found
    }
}

} // verus!
