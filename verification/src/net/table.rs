//! A map for few entries.

use vstd::prelude::*;

verus! {

/// A value that entries of a table can be found by.
pub trait Id: Copy {
    /// Tests whether the two are the same.
    fn same(&self, other: &Self) -> (result: bool)
        ensures
            result == (*self == *other),
    ;
}

/// A map that is kept as a list of entries.
pub struct Table<K, V> {
    entries: Vec<(K, V)>,
}

impl<K, V> Table<K, V> {
    /// Some entry has the key.
    spec fn has(self, key: K) -> bool {
        exists|i: int| 0 <= i < self.entries@.len() && (#[trigger] self.entries@[i]).0 == key
    }

    /// The place of the key.
    spec fn place(self, key: K) -> int {
        choose|i: int| 0 <= i < self.entries@.len() && (#[trigger] self.entries@[i]).0 == key
    }

    /// The map.
    pub closed spec fn view(&self) -> Map<K, V> {
        Map::new(|key: K| self.has(key), |key: K| self.entries@[self.place(key)].1)
    }

    /// No key has two entries.
    #[verifier::type_invariant]
    spec fn wf(self) -> bool {
        forall|i: int, j: int|
            #![trigger self.entries@[i], self.entries@[j]]
            0 <= i < j < self.entries@.len() ==> self.entries@[i].0 != self.entries@[j].0
    }
}

impl<K: Id, V: Copy> Table<K, V> {
    proof fn lemma_at(self, i: int)
        requires
            self.wf(),
            0 <= i < self.entries@.len(),
        ensures
            self@.dom().contains(self.entries@[i].0),
            self@[self.entries@[i].0] == self.entries@[i].1,
            self.place(self.entries@[i].0) == i,
    {
        let key = self.entries@[i].0;
        let j = self.place(key);
        assert(self.entries@[i].0 == self.entries@[j].0);
    }

    /// Makes an empty map.
    pub fn new() -> (result: Self)
        ensures
            result@ == Map::<K, V>::empty(),
    {
        let result = Table { entries: Vec::new() };
        assert(result@ =~= Map::empty());
        result
    }

    fn find(&self, key: &K) -> (result: Option<usize>)
        ensures
            match result {
                Some(i) => i < self.entries@.len() && self.entries@[i as int].0 == *key,
                None => !self.has(*key),
            },
    {
        let mut i: usize = 0;
        while i < self.entries.len()
            invariant
                i <= self.entries@.len(),
                forall|j: int| 0 <= j < i ==> (#[trigger] self.entries@[j]).0 != *key,
            decreases self.entries@.len() - i,
        {
            if self.entries[i].0.same(key) {
                return Some(i);
            }
            i = i + 1;
        }
        None
    }

    /// Tests whether the key has an entry.
    pub fn contains(&self, key: &K) -> (result: bool)
        ensures
            result == self@.dom().contains(*key),
    {
        self.find(key).is_some()
    }

    /// The value of the key.
    pub fn get(&self, key: &K) -> (result: Option<V>)
        ensures
            result == if self@.dom().contains(*key) {
                Some(self@[*key])
            } else {
                None
            },
    {
        match self.find(key) {
            Some(i) => {
                proof {
                    use_type_invariant(self);
                    self.lemma_at(i as int);
                }
                Some(self.entries[i].1)
            },
            None => None,
        }
    }

    /// Gives the key a value; returns the one that it had.
    pub fn insert(&mut self, key: K, value: V) -> (result: Option<V>)
        ensures
            final(self)@ == old(self)@.insert(key, value),
            result == if old(self)@.dom().contains(key) {
                Some(old(self)@[key])
            } else {
                None
            },
    {
        proof {
            use_type_invariant(&*self);
        }
        let found = self.find(&key);
        let mut entries: Vec<(K, V)> = Vec::new();
        std::mem::swap(&mut entries, &mut self.entries);
        let result = match found {
            Some(i) => {
                proof {
                    old(self).lemma_at(i as int);
                }
                let had = entries[i].1;
                entries.set(i, (key, value));
                Some(had)
            },
            None => {
                entries.push((key, value));
                None
            },
        };
        let ghost made = Table { entries };
        proof {
            let a = old(self).entries@;
            let b = made.entries@;
            let at = match found {
                Some(i) => i as int,
                None => a.len() as int,
            };
            assert(b[at] == (key, value));
            assert(made.wf()) by {
                assert forall|i: int, j: int|
                    #![trigger b[i], b[j]]
                    0 <= i < j < b.len() implies b[i].0 != b[j].0 by {
                    if found is None && j == at {
                        assert(b[i] == a[i]);
                    } else {
                        assert(b[i].0 == a[i].0);
                        assert(b[j].0 == a[j].0);
                    }
                }
            }
            made.lemma_at(at);
            assert forall|k: K| #[trigger] made.has(k) == (old(self).has(k) || k == key) by {
                if old(self).has(k) && k != key {
                    let i = old(self).place(k);
                    assert(b[i] == a[i]);
                }
                if made.has(k) && k != key {
                    let i = made.place(k);
                    assert(b[i] == a[i]);
                }
            }
            assert forall|k: K| made.has(k) && k != key implies #[trigger] made@[k] == old(self)@[k] by {
                let i = made.place(k);
                assert(b[i] == a[i]);
                made.lemma_at(i);
                old(self).lemma_at(i);
            }
            assert(made@ =~= old(self)@.insert(key, value));
        }
        self.entries = entries;
        result
    }

    /// Removes the key; returns the value that it had.
    pub fn remove(&mut self, key: &K) -> (result: Option<V>)
        ensures
            final(self)@ == old(self)@.remove(*key),
            old(self)@.dom().contains(*key) ==> final(self).count() == old(self).count() - 1,
            result == if old(self)@.dom().contains(*key) {
                Some(old(self)@[*key])
            } else {
                None
            },
    {
        proof {
            use_type_invariant(&*self);
        }
        match self.find(key) {
            Some(i) => {
                let mut entries: Vec<(K, V)> = Vec::new();
                std::mem::swap(&mut entries, &mut self.entries);
                let entry = entries.remove(i);
                let ghost made = Table { entries };
                proof {
                    let a = old(self).entries@;
                    let b = made.entries@;
                    let at = i as int;
                    old(self).lemma_at(at);
                    assert(forall|j: int| 0 <= j < b.len() ==> #[trigger] b[j] == a[if j < at {
                        j
                    } else {
                        j + 1
                    }]);
                    assert(made.wf());
                    assert forall|k: K| #[trigger] made.has(k) == (old(self).has(k) && k
                        != *key) by {
                        if old(self).has(k) && k != *key {
                            let j = old(self).place(k);
                            if j < at {
                                assert(b[j] == a[j]);
                            } else {
                                assert(b[j - 1] == a[j]);
                            }
                        }
                        if made.has(k) {
                            let j = made.place(k);
                            let m = if j < at {
                                j
                            } else {
                                j + 1
                            };
                            assert(b[j] == a[m]);
                        }
                    }
                    assert forall|k: K| made.has(k) implies #[trigger] made@[k] == old(self)@[k] by {
                        let j = made.place(k);
                        let m = if j < at {
                            j
                        } else {
                            j + 1
                        };
                        assert(b[j] == a[m]);
                        made.lemma_at(j);
                        old(self).lemma_at(m);
                    }
                    assert(made@ =~= old(self)@.remove(*key));
                }
                self.entries = entries;
                Some(entry.1)
            },
            None => {
                assert(self@.remove(*key) =~= self@);
                None
            },
        }
    }

    /// The number of entries.
    pub fn len(&self) -> (result: usize)
        ensures
            result == self.count(),
    {
        self.entries.len()
    }

    /// The number of entries.
    pub closed spec fn count(&self) -> nat {
        self.entries@.len()
    }

    /// The entry at a place, in the order of the list.
    pub closed spec fn entry(&self, index: int) -> (K, V) {
        self.entries@[index]
    }

    /// The entry at a place.
    pub fn at(&self, index: usize) -> (result: (K, V))
        requires
            index < self.count(),
        ensures
            result == self.entry(index as int),
            self@.dom().contains(result.0),
            self@[result.0] == result.1,
    {
        proof {
            use_type_invariant(self);
            self.lemma_at(index as int);
        }
        self.entries[index]
    }

    /// Every key has a place.
    pub proof fn lemma_places(self)
        ensures
            forall|key: K| #[trigger]
                self@.dom().contains(key) ==> exists|i: int|
                    0 <= i < self.count() && (#[trigger] self.entry(i)).0 == key,
    {
        assert forall|key: K| #[trigger] self@.dom().contains(key) implies exists|i: int|
            0 <= i < self.count() && (#[trigger] self.entry(i)).0 == key by {
            assert(self.has(key));
            let i = self.place(key);
            assert(self.entry(i).0 == key);
        }
    }
}

} // verus!
