//! A table of distinct texts, numbered in the order in which they came.

use std::collections::HashMap;
use vstd::prelude::*;
use vstd::string::*;
use vstd::utf8::encode_utf8;
use crate::text::{copy_text, same_text, text_views};

verus! {

/// The number that a text is filed under.
pub open spec fn filed_under(bytes: Seq<u8>) -> nat
    decreases bytes.len(),
{
    if bytes.len() == 0 {
        7
    } else {
        (filed_under(bytes.drop_last()) * 131 + bytes.last() as nat) % 36_028_797_018_963_913
    }
}

fn file_number(s: &str) -> (r: u64)
    ensures
        r == filed_under(encode_utf8(s@)),
{
    let bytes = s.as_bytes();
    let mut h: u64 = 7;
    let mut i: usize = 0;
    proof {
        assert(bytes@.take(0) =~= Seq::<u8>::empty());
    }
    while i < bytes.len()
        invariant
            i <= bytes@.len(),
            h < 36_028_797_018_963_913,
            h == filed_under(bytes@.take(i as int)),
        decreases bytes@.len() - i,
    {
        proof {
            assert(bytes@.take(i as int + 1).drop_last() =~= bytes@.take(i as int));
        }
        h = (h * 131 + bytes[i] as u64) % 36_028_797_018_963_913;
        i = i + 1;
    }
    proof {
        assert(bytes@.take(i as int) =~= bytes@);
    }
    h
}

/// Distinct texts with their numbers.
pub struct Interner {
    keys: Vec<String>,
    files: HashMap<u64, Vec<usize>>,
}

/// Where a text stands in a list.
pub open spec fn place(keys: Seq<Seq<char>>, key: Seq<char>) -> Option<int> {
    if keys.contains(key) {
        Some(keys.index_of(key))
    } else {
        None
    }
}

impl Interner {
    /// The texts, in order.
    pub closed spec fn keys(&self) -> Seq<Seq<char>> {
        text_views(self.keys@)
    }

    pub closed spec fn wf(&self) -> bool {
        &&& self.keys().no_duplicates()
        &&& forall|h: u64|
            #[trigger] self.files@.contains_key(h) ==> forall|j: int|
                0 <= j < self.files@[h]@.len() ==> (#[trigger] self.files@[h]@[j]) < self.keys@.len()
        &&& forall|i: int|
            0 <= i < self.keys@.len() ==> {
                let h = filed_under(encode_utf8((#[trigger] self.keys@[i])@)) as u64;
                self.files@.contains_key(h) && self.files@[h]@.contains(i as usize)
            }
    }

    pub proof fn keys_are_distinct(&self)
        requires
            self.wf(),
        ensures
            self.keys().no_duplicates(),
    {
    }

    pub fn new() -> (r: Interner)
        ensures
            r.wf(),
            r.keys() == Seq::<Seq<char>>::empty(),
    {
        broadcast use vstd::std_specs::hash::group_hash_axioms;

        let r = Interner { keys: Vec::new(), files: HashMap::new() };
        proof {
            assert(r.keys() =~= Seq::<Seq<char>>::empty());
        }
        r
    }

    pub fn len(&self) -> (r: usize)
        ensures
            r == self.keys().len(),
    {
        self.keys.len()
    }

    /// The text of a number.
    pub fn key(&self, i: usize) -> (r: &String)
        requires
            i < self.keys().len(),
        ensures
            r@ == self.keys()[i as int],
    {
        &self.keys[i]
    }

    /// The number of a text.
    pub fn get(&self, key: &str) -> (r: Option<usize>)
        requires
            self.wf(),
        ensures
            match r {
                Some(i) => place(self.keys(), key@) == Some(i as int) && i < self.keys().len()
                    && self.keys()[i as int] == key@,
                None => place(self.keys(), key@) is None,
            },
    {
        broadcast use vstd::std_specs::hash::group_hash_axioms;

        let h: u64 = file_number(key);
        let ghost all = self.keys();
        match self.files.get(&h) {
            None => {
                proof {
                    if all.contains(key@) {
                        let i = choose|i: int| 0 <= i < all.len() && all[i] == key@;
                        assert(self.keys@.len() == self.keys.len());
                        assert(self.keys@[i]@ == key@);
                    }
                }
                None
            },
            Some(list) => {
                let mut j: usize = 0;
                while j < list.len()
                    invariant
                        j <= list@.len(),
                        self.wf(),
                        all == self.keys(),
                        h == filed_under(encode_utf8(key@)),
                        self.files@.contains_key(h),
                        self.files@[h] == *list,
                        forall|m: int| 0 <= m < j ==> all[(#[trigger] list@[m]) as int] != key@,
                    decreases list@.len() - j,
                {
                    let i: usize = list[j];
                    if same_text(&self.keys[i], key) {
                        proof {
                            assert(all[i as int] == key@);
                            assert(all.contains(key@));
                            assert(all.index_of(key@) == i as int);
                        }
                        return Some(i);
                    }
                    j = j + 1;
                }
                proof {
                    if all.contains(key@) {
                        let i = choose|i: int| 0 <= i < all.len() && all[i] == key@;
                        assert(self.keys@.len() == self.keys.len());
                        assert(self.keys@[i]@ == key@);
                        assert(list@.contains(i as usize));
                        let m = choose|m: int| 0 <= m < list@.len() && list@[m] == i as usize;
                        assert(all[list@[m] as int] != key@);
                    }
                }
                None
            },
        }
    }

    /// Adds a text that is not there yet; its number is the next.
    pub fn add(&mut self, key: &str)
        requires
            old(self).wf(),
            !old(self).keys().contains(key@),
        ensures
            final(self).wf(),
            final(self).keys() == old(self).keys().push(key@),
    {
        broadcast use vstd::std_specs::hash::group_hash_axioms;

        let h: u64 = file_number(key);
        let n: usize = self.keys.len();
        let ghost old_keys = self.keys();
        let ghost old_files = self.files@;
        let ghost old_vec = self.keys@;
        let mut list: Vec<usize> = match self.files.remove(&h) {
            Some(l) => l,
            None => Vec::new(),
        };
        let ghost before = list@;
        list.push(n);
        let ghost after = list@;
        self.files.insert(h, list);
        self.keys.push(copy_text(key));
        proof {
            assert(self.keys() =~= old_keys.push(key@));
            assert(self.keys().no_duplicates()) by {
                assert forall|i: int, j: int|
                    0 <= i < self.keys().len() && 0 <= j < self.keys().len() && i != j implies #[trigger] self.keys()[i]
                    != #[trigger] self.keys()[j] by {
                    if i < n && j < n {
                        assert(old_keys[i] != old_keys[j]);
                    } else if i < n {
                        assert(old_keys.contains(old_keys[i]));
                    } else if j < n {
                        assert(old_keys.contains(old_keys[j]));
                    }
                }
            }
            assert(after[before.len() as int] == n);
            assert forall|i: int| 0 <= i < self.keys@.len() implies {
                let g = filed_under(encode_utf8((#[trigger] self.keys@[i])@)) as u64;
                self.files@.contains_key(g) && self.files@[g]@.contains(i as usize)
            } by {
                let g = filed_under(encode_utf8(self.keys@[i]@)) as u64;
                if i < n {
                    assert(self.keys@[i] == old_vec[i]);
                    assert(old_files.contains_key(g) && old_files[g]@.contains(i as usize));
                    if g == h {
                        let m = choose|m: int| 0 <= m < before.len() && before[m] == i as usize;
                        assert(after[m] == i as usize);
                    }
                } else {
                    assert(g == h);
                }
            }
            assert forall|g: u64| #[trigger] self.files@.contains_key(g) implies forall|j: int|
                0 <= j < self.files@[g]@.len() ==> (#[trigger] self.files@[g]@[j]) < self.keys@.len() by {
                if g == h {
                    assert forall|j: int| 0 <= j < after.len() implies (#[trigger] after[j])
                        < self.keys@.len() by {
                        if j < before.len() {
                            assert(after[j] == before[j]);
                            assert(old_files.contains_key(h));
                        }
                    }
                } else {
                    assert(old_files.contains_key(g));
                }
            }
        }
    }
}

} // verus!
