//! A map from texts.

use vstd::prelude::*;
use vstd::string::*;
use crate::intern::{place, Interner};

verus! {

/// A map from texts to values.
pub struct TextMap<V> {
    keys: Interner,
    slots: Vec<Option<V>>,
}

impl<V> TextMap<V> {
    pub closed spec fn wf(&self) -> bool {
        self.keys.wf() && self.slots@.len() == self.keys.keys().len()
    }

    /// The value of a text.
    pub closed spec fn at(&self, key: Seq<char>) -> Option<V> {
        match place(self.keys.keys(), key) {
            Some(i) => self.slots@[i],
            None => None,
        }
    }

    pub fn new() -> (r: TextMap<V>)
        ensures
            r.wf(),
            forall|k: Seq<char>| #[trigger] r.at(k) is None,
    {
        TextMap { keys: Interner::new(), slots: Vec::new() }
    }

    pub fn get(&self, key: &str) -> (r: Option<&V>)
        requires
            self.wf(),
        ensures
            match r {
                Some(v) => self.at(key@) == Some(*v),
                None => self.at(key@) is None,
            },
    {
        match self.keys.get(key) {
            Some(i) => match &self.slots[i] {
                Some(v) => Some(v),
                None => None,
            },
            None => None,
        }
    }

    /// Sets the value of a text.
    pub fn put(&mut self, key: &str, value: V)
        requires
            old(self).wf(),
        ensures
            final(self).wf(),
            final(self).at(key@) == Some(value),
            forall|k: Seq<char>| k != key@ ==> #[trigger] final(self).at(k) == old(self).at(k),
    {
        let ghost before = self.keys.keys();
        let ghost slots0 = self.slots@;
        proof {
            self.keys.keys_are_distinct();
        }
        match self.keys.get(key) {
            Some(i) => {
                self.slots[i] = Some(value);
                proof {
                    assert forall|k: Seq<char>| k != key@ implies #[trigger] self.at(k) == old(self).at(k) by {
                        if before.contains(k) {
                            assert(before[before.index_of(k)] == k);
                        }
                    }
                }
            },
            None => {
                self.keys.add(key);
                self.slots.push(Some(value));
                proof {
                    let after = self.keys.keys();
                    self.keys.keys_are_distinct();
                    assert(after[before.len() as int] == key@);
                    assert(after.contains(key@));
                    assert(after.index_of(key@) == before.len());
                    assert forall|k: Seq<char>| k != key@ implies #[trigger] self.at(k) == old(self).at(k) by {
                        if before.contains(k) {
                            let i = before.index_of(k);
                            assert(before[i] == k);
                            assert(after[i] == k);
                            assert(after.contains(k));
                            assert(after.index_of(k) == i);
                        } else if after.contains(k) {
                            let i = after.index_of(k);
                            assert(after[i] == k);
                            assert(i < before.len());
                            assert(before[i] == k);
                        }
                    }
                }
            },
        }
    }

    /// Takes a text out of the map; tells whether it was there.
    pub fn remove(&mut self, key: &str) -> (r: bool)
        requires
            old(self).wf(),
        ensures
            final(self).wf(),
            r == (old(self).at(key@) is Some),
            final(self).at(key@) is None,
            forall|k: Seq<char>| k != key@ ==> #[trigger] final(self).at(k) == old(self).at(k),
    {
        let ghost before = self.keys.keys();
        proof {
            self.keys.keys_are_distinct();
        }
        match self.keys.get(key) {
            Some(i) => {
                let there: bool = self.slots[i].is_some();
                self.slots[i] = None;
                proof {
                    assert forall|k: Seq<char>| k != key@ implies #[trigger] self.at(k) == old(self).at(k) by {
                        if before.contains(k) {
                            assert(before[before.index_of(k)] == k);
                        }
                    }
                }
                there
            },
            None => false,
        }
    }
}

} // verus!
