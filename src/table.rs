//! A node's table: keys (byte strings) mapped to 32-bit signed values, kept
//! as a list of entries whose keys are unique.

use vstd::prelude::*;
use crate::text::bytes_eq;

verus! {

pub struct Table {
    entries: Vec<(Vec<u8>, i32)>,
}

impl Table {
    /// No two entries share a key.
    pub closed spec fn wf(&self) -> bool {
        forall|i: int, j: int|
            0 <= i < j < self.entries@.len() ==> (#[trigger] self.entries@[i]).0@
                != (#[trigger] self.entries@[j]).0@
    }

    closed spec fn holds(&self, key: Seq<u8>) -> bool {
        exists|i: int| 0 <= i < self.entries@.len() && (#[trigger] self.entries@[i]).0@ == key
    }

    closed spec fn index_of(&self, key: Seq<u8>) -> int {
        choose|i: int| 0 <= i < self.entries@.len() && (#[trigger] self.entries@[i]).0@ == key
    }

    /// The table's contents as a map from key to value.
    pub closed spec fn view(&self) -> Map<Seq<u8>, i32> {
        Map::new(|k: Seq<u8>| self.holds(k), |k: Seq<u8>| self.entries@[self.index_of(k)].1)
    }

    proof fn lemma_entry(&self, i: int)
        requires
            self.wf(),
            0 <= i < self.entries@.len(),
        ensures
            self@.contains_key(self.entries@[i].0@),
            self@[self.entries@[i].0@] == self.entries@[i].1,
    {
        let k = self.entries@[i].0@;
        assert(self.holds(k));
        let c = self.index_of(k);
        assert(self.entries@[c].0@ == k);
    }

    /// An empty table.
    pub fn new() -> (r: Table)
        ensures
            r.wf(),
            r@ == Map::<Seq<u8>, i32>::empty(),
    {
        let r = Table { entries: Vec::new() };
        assert(r@ =~= Map::<Seq<u8>, i32>::empty());
        r
    }

    /// The number of keys held.
    pub fn len(&self) -> (r: usize)
        requires
            self.wf(),
        ensures
            r == self@.len(),
    {
        proof {
            self.lemma_len();
        }
        self.entries.len()
    }

    proof fn lemma_len(&self)
        requires
            self.wf(),
        ensures
            self@.len() == self.entries@.len(),
            self@.dom().finite(),
    {
        let keys = Seq::new(self.entries@.len(), |i: int| self.entries@[i].0@);
        assert forall|i: int, j: int| 0 <= i < j < keys.len() implies keys[i] != keys[j] by {
            assert(self.entries@[i].0@ != self.entries@[j].0@);
        };
        assert(keys.no_duplicates());
        assert(self@.dom() =~= keys.to_set()) by {
            assert forall|k: Seq<u8>| self@.dom().contains(k) implies keys.to_set().contains(k) by {
                let i = self.index_of(k);
                assert(keys[i] == k);
            };
            assert forall|k: Seq<u8>| keys.to_set().contains(k) implies self@.dom().contains(k) by {
                let i = choose|i: int| 0 <= i < keys.len() && keys[i] == k;
                assert(self.entries@[i].0@ == k);
            };
        };
        keys.unique_seq_to_set();
    }

    fn find(&self, key: &[u8]) -> (r: Option<usize>)
        requires
            self.wf(),
        ensures
            r is None ==> !self@.contains_key(key@),
            r matches Some(i) ==> i < self.entries@.len() && self.entries@[i as int].0@ == key@,
    {
        let mut i: usize = 0;
        while i < self.entries.len()
            invariant
                i <= self.entries@.len(),
                forall|j: int| 0 <= j < i ==> (#[trigger] self.entries@[j]).0@ != key@,
            decreases self.entries@.len() - i,
        {
            if bytes_eq(self.entries[i].0.as_slice(), key) {
                return Some(i);
            }
            i = i + 1;
        }
        None
    }

    /// The value held under `key`, if any.
    pub fn get(&self, key: &[u8]) -> (r: Option<i32>)
        requires
            self.wf(),
        ensures
            r == (if self@.contains_key(key@) {
                Some(self@[key@])
            } else {
                None::<i32>
            }),
    {
        match self.find(key) {
            Some(i) => {
                proof {
                    self.lemma_entry(i as int);
                }
                Some(self.entries[i].1)
            },
            None => None,
        }
    }

    /// Holds `value` under `key`, replacing any earlier value.
    pub fn insert(&mut self, key: Vec<u8>, value: i32)
        requires
            old(self).wf(),
        ensures
            final(self).wf(),
            final(self)@ == old(self)@.insert(key@, value),
    {
        let ghost before = *self;
        match self.find(key.as_slice()) {
            Some(i) => {
                self.entries.set(i, (key, value));
                proof {
                    assert(self.wf());
                    self.lemma_update(before, i as int);
                }
            },
            None => {
                self.entries.push((key, value));
                proof {
                    assert(self.entries@.drop_last() =~= before.entries@);
                    assert(self.wf());
                    self.lemma_push(before);
                }
            },
        }
    }

    proof fn lemma_update(&self, before: Table, i: int)
        requires
            before.wf(),
            self.wf(),
            0 <= i < before.entries@.len(),
            before.entries@[i].0@ == self.entries@[i].0@,
            self.entries@ == before.entries@.update(i, self.entries@[i]),
        ensures
            self@ == before@.insert(self.entries@[i].0@, self.entries@[i].1),
    {
        let k = self.entries@[i].0@;
        let m = before@.insert(k, self.entries@[i].1);
        assert forall|q: Seq<u8>| self@.contains_key(q) <==> m.contains_key(q) by {
            if self.holds(q) {
                let j = self.index_of(q);
                if j != i {
                    assert(before.entries@[j].0@ == q);
                }
            }
            if before.holds(q) {
                let j = before.index_of(q);
                if j != i {
                    assert(self.entries@[j].0@ == q);
                }
            }
            if q == k {
                assert(self.entries@[i].0@ == q);
            }
        };
        assert forall|q: Seq<u8>| #[trigger] self@.contains_key(q) implies self@[q] == m[q] by {
            let j = self.index_of(q);
            self.lemma_entry(j);
            if j != i {
                before.lemma_entry(j);
            }
        };
        assert(self@ =~= m);
    }

    proof fn lemma_push(&self, before: Table)
        requires
            before.wf(),
            self.wf(),
            self.entries@.len() == before.entries@.len() + 1,
            self.entries@.drop_last() == before.entries@,
        ensures
            self@ == before@.insert(self.entries@.last().0@, self.entries@.last().1),
    {
        let n = before.entries@.len() as int;
        let k = self.entries@[n].0@;
        let m = before@.insert(k, self.entries@[n].1);
        assert forall|j: int| 0 <= j < n implies self.entries@[j] == before.entries@[j] by {
            assert(self.entries@.drop_last()[j] == self.entries@[j]);
        };
        assert forall|q: Seq<u8>| self@.contains_key(q) <==> m.contains_key(q) by {
            if self.holds(q) {
                let j = self.index_of(q);
                if j != n {
                    assert(before.entries@[j].0@ == q);
                }
            }
            if before.holds(q) {
                let j = before.index_of(q);
                assert(self.entries@[j].0@ == q);
            }
            if q == k {
                assert(self.entries@[n].0@ == q);
            }
        };
        assert forall|q: Seq<u8>| #[trigger] self@.contains_key(q) implies self@[q] == m[q] by {
            let j = self.index_of(q);
            self.lemma_entry(j);
            if j != n {
                before.lemma_entry(j);
            }
        };
        assert(self@ =~= m);
    }

    /// Removes `key`; says whether it was held.
    pub fn remove(&mut self, key: &[u8]) -> (r: bool)
        requires
            old(self).wf(),
        ensures
            final(self).wf(),
            r == old(self)@.contains_key(key@),
            final(self)@ == old(self)@.remove(key@),
    {
        let ghost before = *self;
        match self.find(key) {
            Some(i) => {
                proof {
                    before.lemma_entry(i as int);
                }
                let _ = self.entries.swap_remove(i);
                proof {
                    self.lemma_swap_remove(before, i as int);
                }
                true
            },
            None => {
                assert(self@ =~= before@.remove(key@));
                false
            },
        }
    }

    proof fn lemma_swap_remove(&self, before: Table, i: int)
        requires
            before.wf(),
            0 <= i < before.entries@.len(),
            self.entries@ == before.entries@.update(i, before.entries@.last()).drop_last(),
        ensures
            self.wf(),
            self@ == before@.remove(before.entries@[i].0@),
    {
        let n = before.entries@.len() - 1;
        let k = before.entries@[i].0@;
        let m = before@.remove(k);
        assert(self.entries@.len() == n);
        assert forall|j: int| 0 <= j < n implies (#[trigger] self.entries@[j]) == (if j == i {
            before.entries@[n]
        } else {
            before.entries@[j]
        }) by {};
        assert forall|a: int, b: int| 0 <= a < b < self.entries@.len() implies (
        #[trigger] self.entries@[a]).0@ != (#[trigger] self.entries@[b]).0@ by {
            let a0 = if a == i { n } else { a };
            let b0 = if b == i { n } else { b };
            assert(before.entries@[a0].0@ != before.entries@[b0].0@ || a0 == b0);
        };
        assert forall|q: Seq<u8>| self@.contains_key(q) <==> m.contains_key(q) by {
            if self.holds(q) {
                let j = self.index_of(q);
                let j0 = if j == i { n } else { j };
                assert(before.entries@[j0].0@ == q);
                assert(j0 != i);
            }
            if m.contains_key(q) {
                let j = before.index_of(q);
                assert(j != i);
                let j1 = if j == n { i } else { j };
                assert(self.entries@[j1].0@ == q);
            }
        };
        assert forall|q: Seq<u8>| #[trigger] self@.contains_key(q) implies self@[q] == m[q] by {
            let j = self.index_of(q);
            self.lemma_entry(j);
            let j0 = if j == i { n } else { j };
            before.lemma_entry(j0);
        };
        assert(self@ =~= m);
    }
}

} // verus!
