//! The hot slot: a small unsorted buffer of key/value pairs that absorbs
//! every new insertion until it reaches its capacity.

use vstd::prelude::*;

use crate::model::{keys_distinct, lemma_seq_to_map_contains, lemma_seq_to_map_update,
    lemma_seq_to_map_value, lemma_swap_remove_map, seq_to_map};

verus! {

/// Whether an insertion left free room or filled the slot to capacity.
pub enum Filled {
    HasSlots,
    Full,
}

pub struct Slot {
    size: usize,
    data: Vec<(u64, u64)>,
}

impl View for Slot {
    type V = Seq<(u64, u64)>;

    closed spec fn view(&self) -> Seq<(u64, u64)> {
        self.data@
    }
}

impl Slot {
    /// Capacity of the slot.
    pub closed spec fn spec_max(&self) -> int {
        self.size as int
    }

    /// The map the slot currently holds.
    pub open spec fn as_map(&self) -> Map<u64, u64> {
        seq_to_map(self@)
    }

    pub open spec fn wf(&self) -> bool {
        &&& 1 <= self.spec_max() <= usize::MAX as int / 4
        &&& self@.len() <= self.spec_max()
        &&& keys_distinct(self@)
    }

    /// An empty slot with the canonical capacity of 64 entries.
    pub fn new() -> (r: Slot)
        ensures
            r.wf(),
            r@ == Seq::<(u64, u64)>::empty(),
            r.spec_max() == 64,
    {
        Slot { size: 64, data: Vec::new() }
    }

    /// An empty slot with a chosen capacity.
    pub fn with_size(sz: usize) -> (r: Slot)
        requires
            1 <= sz <= usize::MAX / 4,
        ensures
            r.wf(),
            r@ == Seq::<(u64, u64)>::empty(),
            r.spec_max() == sz,
    {
        Slot { size: sz, data: Vec::new() }
    }

    pub fn len(&self) -> (r: usize)
        ensures
            r == self@.len(),
    {
        self.data.len()
    }

    pub fn max_size(&self) -> (r: usize)
        ensures
            r == self.spec_max(),
    {
        self.size
    }

    /// Index of the entry holding `k`, if the slot has one.
    pub fn contains(&self, k: &u64) -> (r: Option<usize>)
        ensures
            match r {
                Some(i) => i < self@.len() && self@[i as int].0 == *k,
                None => forall|i: int| 0 <= i < self@.len() ==> (#[trigger] self@[i]).0 != *k,
            },
    {
        let n = self.data.len();
        let mut i: usize = 0;
        while i < n
            invariant
                n == self@.len(),
                i <= n,
                forall|m: int| 0 <= m < i ==> (#[trigger] self@[m]).0 != *k,
            decreases n - i,
        {
            if self.data[i].0 == *k {
                return Some(i);
            }
            i += 1;
        }
        None
    }

    pub fn get(&self, k: &u64) -> (r: Option<&u64>)
        requires
            self.wf(),
        ensures
            match r {
                Some(v) => self.as_map().contains_key(*k) && *v == self.as_map()[*k],
                None => !self.as_map().contains_key(*k),
            },
    {
        proof {
            lemma_seq_to_map_contains(self@, *k);
        }
        match self.contains(k) {
            Some(idx) => {
                proof {
                    lemma_seq_to_map_value(self@, idx as int);
                }
                Some(&self.data[idx].1)
            },
            None => None,
        }
    }

    pub fn get_mut(&mut self, k: &u64) -> (r: Option<&mut u64>)
        requires
            old(self).wf(),
        ensures
            match r {
                Some(v) => {
                    &&& old(self).as_map().contains_key(*k)
                    &&& *v == old(self).as_map()[*k]
                    &&& final(self).wf()
                    &&& final(self).spec_max() == old(self).spec_max()
                    &&& final(self)@.len() == old(self)@.len()
                    &&& final(self).as_map() == old(self).as_map().insert(*k, *final(v))
                },
                None => !old(self).as_map().contains_key(*k) && *final(self) == *old(self),
            },
    {
        proof {
            lemma_seq_to_map_contains(self@, *k);
        }
        match self.contains(k) {
            Some(idx) => {
                proof {
                    lemma_seq_to_map_value(self@, idx as int);
                }
                let ghost s0 = self@;
                let p = &mut self.data[idx];
                let r = &mut p.1;
                proof {
                    lemma_seq_to_map_update(s0, idx as int, *final(r));
                    assert(after_borrow(*self)@ =~= s0.update(
                        idx as int,
                        (s0[idx as int].0, *final(r)),
                    ));
                }
                Some(r)
            },
            None => None,
        }
    }

    /// Insert or overwrite; reports a displaced value and whether the slot
    /// is now full.
    pub fn insert(&mut self, k: u64, v: u64) -> (r: (Option<u64>, Filled))
        requires
            old(self).wf(),
            old(self)@.len() < old(self).spec_max(),
        ensures
            final(self).wf(),
            final(self).spec_max() == old(self).spec_max(),
            final(self).as_map() == old(self).as_map().insert(k, v),
            match r.0 {
                Some(pv) => {
                    &&& old(self).as_map().contains_key(k)
                    &&& pv == old(self).as_map()[k]
                    &&& final(self)@.len() == old(self)@.len()
                },
                None => {
                    &&& !old(self).as_map().contains_key(k)
                    &&& final(self)@.len() == old(self)@.len() + 1
                },
            },
            (r.1 is Full) == (final(self)@.len() == final(self).spec_max()),
    {
        proof {
            lemma_seq_to_map_contains(self@, k);
        }
        let opt_v = match self.contains(&k) {
            Some(idx) => {
                proof {
                    lemma_seq_to_map_value(self@, idx as int);
                    lemma_seq_to_map_update(self@, idx as int, v);
                }
                let prior = self.data[idx].1;
                self.data.set(idx, (k, v));
                Some(prior)
            },
            None => {
                self.data.push((k, v));
                proof {
                    assert(self@.drop_last() =~= old(self)@);
                }
                None
            },
        };
        let filled = if self.data.len() >= self.size {
            Filled::Full
        } else {
            Filled::HasSlots
        };
        (opt_v, filled)
    }

    /// Remove the entry for `k`, swapping the last entry into its place.
    pub fn remove(&mut self, k: &u64) -> (r: Option<u64>)
        requires
            old(self).wf(),
        ensures
            final(self).wf(),
            final(self).spec_max() == old(self).spec_max(),
            final(self).as_map() == old(self).as_map().remove(*k),
            match r {
                Some(v) => {
                    &&& old(self).as_map().contains_key(*k)
                    &&& v == old(self).as_map()[*k]
                    &&& final(self)@.len() == old(self)@.len() - 1
                },
                None => !old(self).as_map().contains_key(*k) && *final(self) == *old(self),
            },
    {
        proof {
            lemma_seq_to_map_contains(self@, *k);
        }
        match self.contains(k) {
            Some(idx) => {
                proof {
                    lemma_seq_to_map_value(self@, idx as int);
                    lemma_swap_remove_map(self@, idx as int);
                }
                let pr = self.data.swap_remove(idx);
                Some(pr.1)
            },
            None => {
                proof {
                    assert(old(self).as_map().remove(*k) =~= old(self).as_map());
                }
                None
            },
        }
    }

    /// Drop every entry.
    pub fn clear(&mut self)
        requires
            old(self).wf(),
        ensures
            final(self).wf(),
            final(self).spec_max() == old(self).spec_max(),
            final(self)@ == Seq::<(u64, u64)>::empty(),
            final(self).as_map() == Map::<u64, u64>::empty(),
    {
        self.data.clear();
    }

    /// Hand the entries over for a merge, leaving the slot empty.
    pub fn take_entries(&mut self) -> (r: Vec<(u64, u64)>)
        requires
            old(self).wf(),
        ensures
            final(self).wf(),
            final(self).spec_max() == old(self).spec_max(),
            final(self)@ == Seq::<(u64, u64)>::empty(),
            r@ == old(self)@,
    {
        let mut out: Vec<(u64, u64)> = Vec::new();
        core::mem::swap(&mut out, &mut self.data);
        out
    }

    /// A slot rebuilt from its capacity and entries, as read back from a
    /// snapshot.
    pub(crate) fn from_parts(size: usize, data: Vec<(u64, u64)>) -> (r: Slot)
        requires
            1 <= size <= usize::MAX / 4,
            data@.len() <= size,
            keys_distinct(data@),
        ensures
            r.wf(),
            r@ == data@,
            r.spec_max() == size,
    {
        Slot { size, data }
    }

    /// The entries in slot order.
    pub fn entries(&self) -> (r: &Vec<(u64, u64)>)
        ensures
            r@ == self@,
    {
        &self.data
    }
}

} // verus!
