//! Values kept under state labels.

use vstd::prelude::*;

use crate::ordered;
use crate::ordered::{find, Coded};

verus! {

/// Values under keys, each key at most once.
#[derive(Clone, Debug)]
pub struct StateTable<K, V> {
    keys: Vec<K>,
    values: Vec<V>,
}

/// First place of a sorted list whose entry is not below the item.
fn place_for<K: Coded>(keys: &Vec<K>, item: K) -> (place: usize)
    requires
        ordered::strictly_sorted(keys@),
    ensures
        place <= keys@.len(),
        forall|i: int| 0 <= i < place ==> (#[trigger] keys@[i]).rank() < item.rank(),
        forall|i: int| place <= i < keys@.len() ==> item.rank() <= (#[trigger] keys@[i]).rank(),
{
    let mut low: usize = 0;
    let mut high: usize = keys.len();
    while low < high
        invariant
            low <= high <= keys@.len(),
            ordered::strictly_sorted(keys@),
            forall|i: int| 0 <= i < low ==> (#[trigger] keys@[i]).rank() < item.rank(),
            forall|i: int| high <= i < keys@.len() ==> item.rank() <= (#[trigger] keys@[i]).rank(),
        decreases high - low,
    {
        let middle: usize = low + (high - low) / 2;
        if item.at_most(&keys[middle]) {
            high = middle;
        } else {
            low = middle + 1;
        }
    }
    low
}

impl<K: Coded, V: Copy> StateTable<K, V> {
    /// Keys in order of rank, one value for each.
    pub closed spec fn wf(&self) -> bool {
        &&& self.keys@.len() == self.values@.len()
        &&& ordered::strictly_sorted(self.keys@)
    }

    /// The value under a key.
    pub closed spec fn entry(&self, key: K) -> Option<V> {
        if self.keys@.contains(key) {
            Some(self.values@[self.keys@.index_of(key)])
        } else {
            None
        }
    }

    proof fn lemma_entry(&self, place: int)
        requires
            self.wf(),
            0 <= place < self.keys@.len(),
        ensures
            self.entry(self.keys@[place]) == Some(self.values@[place]),
    {
        let key = self.keys@[place];
        let found = self.keys@.index_of(key);
        assert(self.keys@[found] == key);
        assert(found == place);
    }

    /// No entry.
    pub fn new() -> (table: Self)
        ensures
            table.wf(),
            forall|key: K| #[trigger] table.entry(key) is None,
    {
        StateTable { keys: Vec::new(), values: Vec::new() }
    }

    /// The value under a key, if there is one.
    pub fn get(&self, key: K) -> (value: Option<V>)
        requires
            self.wf(),
        ensures
            value == self.entry(key),
    {
        match find(&self.keys, key) {
            Some(place) => {
                proof {
                    self.lemma_entry(place as int);
                }
                Some(self.values[place])
            },
            None => None,
        }
    }

    /// Puts a value under a key in place of any other.
    pub fn insert(&mut self, key: K, value: V)
        requires
            old(self).wf(),
        ensures
            final(self).wf(),
            forall|other: K| #[trigger]
                final(self).entry(other) == if other == key {
                    Some(value)
                } else {
                    old(self).entry(other)
                },
    {
        let ghost before = *self;
        let place: usize = place_for(&self.keys, key);
        if place < self.keys.len() && self.keys[place].at_most(&key) {
            proof {
                K::rank_identifies(self.keys@[place as int], key);
            }
            self.values[place] = value;
            proof {
                assert forall|other: K| #[trigger] self.entry(other) == if other == key {
                    Some(value)
                } else {
                    before.entry(other)
                } by {
                    if self.keys@.contains(other) {
                        let at = self.keys@.index_of(other);
                        self.lemma_entry(at);
                        before.lemma_entry(at);
                    }
                    self.lemma_entry(place as int);
                }
            }
        } else {
            self.keys.insert(place, key);
            self.values.insert(place, value);
            proof {
                let keys = self.keys@;
                assert forall|i: int, j: int| 0 <= i < j < keys.len() implies keys[i].rank()
                    < keys[j].rank() by {
                    if j < place {
                    } else if i >= place {
                        if i == place {
                            assert(before.keys@[place as int].rank() <= before.keys@[j - 1].rank());
                        }
                    }
                }
                assert forall|other: K| #[trigger] self.entry(other) == if other == key {
                    Some(value)
                } else {
                    before.entry(other)
                } by {
                    self.lemma_entry(place as int);
                    if before.keys@.contains(other) {
                        let at = before.keys@.index_of(other);
                        before.lemma_entry(at);
                        if at < place {
                            assert(keys[at] == other);
                            self.lemma_entry(at);
                        } else {
                            assert(keys[at + 1] == other);
                            self.lemma_entry(at + 1);
                        }
                        assert(other != key);
                    } else if other != key && keys.contains(other) {
                        let at = keys.index_of(other);
                        if at < place {
                            assert(before.keys@[at] == other);
                        } else {
                            assert(before.keys@[at - 1] == other);
                        }
                    }
                }
            }
        }
    }
}

} // verus!
