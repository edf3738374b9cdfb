//! One tier of the cascade: a key-sorted pair of parallel arrays with a
//! live mask.  A cleared mask bit marks a tombstone: the cell is still
//! physically present but reads as absent.

use vstd::prelude::*;

use crate::flags::Flags;
use crate::model::{count_true, keys_distinct, lemma_count_true_prefix, lemma_masked_all_true,
    lemma_masked_contains, lemma_masked_equal, lemma_masked_len, lemma_masked_sorted,
    lemma_masked_split, lemma_masked_update_false, lemma_seq_to_map_contains,
    lemma_seq_to_map_drop_mid, lemma_seq_to_map_value, masked_range, pairs_sorted, seq_to_map,
    strict_sorted};

verus! {

pub struct MapMultiSlot {
    pub(crate) capacity: usize,
    pub(crate) flags: Flags,
    pub(crate) keys: Vec<u64>,
    pub(crate) values: Vec<u64>,
}

impl MapMultiSlot {
    /// The entries in physical order, dead cells included.
    pub(crate) open spec fn pair_seq(&self) -> Seq<(u64, u64)> {
        Seq::new(self.keys@.len(), |i: int| (self.keys@[i], self.values@[i]))
    }

    /// The live entries in key order.
    pub(crate) open spec fn live_seq(&self) -> Seq<(u64, u64)> {
        masked_range(self.pair_seq(), self.flags@, 0, self.keys@.len() as int)
    }

    /// The map this level holds.
    pub(crate) open spec fn as_map(&self) -> Map<u64, u64> {
        seq_to_map(self.live_seq())
    }

    pub(crate) open spec fn is_empty(&self) -> bool {
        self.keys@.len() == 0
    }

    pub(crate) open spec fn live_count(&self) -> int {
        self.live_seq().len() as int
    }

    /// Dead cells of an occupied level: reserved capacity not backing a
    /// live entry.
    pub(crate) open spec fn dead_count(&self) -> int {
        if self.is_empty() {
            0
        } else {
            self.capacity - self.live_seq().len()
        }
    }

    pub(crate) open spec fn wf(&self) -> bool {
        &&& self.keys@.len() == self.values@.len()
        &&& self.keys@.len() <= self.capacity
        &&& self.capacity <= usize::MAX as int / 2
        &&& self.flags.wf()
        &&& self.flags@.len() == 64 * (self.capacity as int / 64 + 1)
        &&& forall|i: int| 0 <= i < self.flags@.len() && self.flags@[i] ==> i < self.keys@.len()
        &&& strict_sorted(self.keys@)
        &&& self.live_seq().len() <= self.keys@.len()
    }

    /// The live sequence is key-sorted, so it denotes each key at most once.
    pub(crate) proof fn lemma_live_sorted(&self)
        requires
            self.wf(),
        ensures
            pairs_sorted(self.live_seq()),
            keys_distinct(self.live_seq()),
    {
        lemma_masked_sorted(self.pair_seq(), self.flags@, 0, self.keys@.len() as int);
    }

    /// A key is in the level's map exactly when some live cell holds it.
    pub(crate) proof fn lemma_lookup(&self, k: u64)
        requires
            self.wf(),
        ensures
            self.as_map().contains_key(k) <==> exists|i: int|
                0 <= i < self.keys@.len() && self.keys@[i] == k && self.flags@[i],
            forall|i: int|
                0 <= i < self.keys@.len() && self.keys@[i] == k && self.flags@[i]
                    ==> self.as_map()[k] == self.values@[i],
    {
        let n = self.keys@.len() as int;
        let live = self.live_seq();
        self.lemma_live_sorted();
        lemma_masked_contains(self.pair_seq(), self.flags@, 0, n);
        lemma_seq_to_map_contains(live, k);
        if self.as_map().contains_key(k) {
            let idx = choose|idx: int| 0 <= idx < live.len() && (#[trigger] live[idx]).0 == k;
            assert(live.contains(live[idx]));
            let i = choose|i: int| 0 <= i < n && self.flags@[i] && self.pair_seq()[i] == live[idx];
            assert(self.keys@[i] == k && self.flags@[i]);
        }
        if exists|i: int| 0 <= i < self.keys@.len() && self.keys@[i] == k && self.flags@[i] {
            let i = choose|i: int| 0 <= i < self.keys@.len() && self.keys@[i] == k
                && self.flags@[i];
            let p = self.pair_seq()[i];
            assert(live.contains(p));
            let idx = choose|idx: int| 0 <= idx < live.len() && #[trigger] live[idx] == p;
            assert(live[idx].0 == k);
        }
        assert forall|i: int|
            0 <= i < n && self.keys@[i] == k && self.flags@[i] implies self.as_map()[k]
            == self.values@[i] by {
            let p = self.pair_seq()[i];
            assert(live.contains(p));
            let idx = choose|idx: int| 0 <= idx < live.len() && #[trigger] live[idx] == p;
            lemma_seq_to_map_value(live, idx);
        }
    }

    /// Count of live entries equals the popcount of the mask.
    pub(crate) proof fn lemma_live_count(&self)
        requires
            self.wf(),
        ensures
            count_true(self.flags@) == self.live_seq().len(),
    {
        let n = self.keys@.len() as int;
        lemma_count_true_prefix(self.flags@, n);
        lemma_masked_len(self.pair_seq(), self.flags@, 0, n);
    }

    /// An empty level with the given reserved capacity.
    pub(crate) fn new_empty(cap: usize) -> (r: MapMultiSlot)
        requires
            cap <= usize::MAX / 2,
        ensures
            r.wf(),
            r.is_empty(),
            r.capacity == cap,
            r.live_seq() == Seq::<(u64, u64)>::empty(),
            r.as_map() == Map::<u64, u64>::empty(),
    {
        let r = MapMultiSlot {
            capacity: cap,
            flags: Flags::nulls(cap),
            keys: Vec::new(),
            values: Vec::new(),
        };
        proof {
            assert(r.live_seq() =~= Seq::<(u64, u64)>::empty());
        }
        r
    }

    /// A level freshly filled from sorted entries; its capacity is the
    /// number of entries.
    pub(crate) fn new(data: Vec<(u64, u64)>) -> (r: MapMultiSlot)
        requires
            pairs_sorted(data@),
            data@.len() <= usize::MAX / 4,
        ensures
            r.wf(),
            r.capacity == data@.len(),
            r.live_seq() == data@,
            r.keys@.len() == data@.len(),
    {
        let cap = data.len();
        let mut r = MapMultiSlot::new_empty(cap);
        r.fill(data);
        r
    }

    /// Move sorted entries into an empty level, marking them all live.
    pub(crate) fn fill(&mut self, data: Vec<(u64, u64)>)
        requires
            old(self).wf(),
            old(self).is_empty(),
            pairs_sorted(data@),
            data@.len() <= old(self).capacity,
        ensures
            final(self).wf(),
            final(self).capacity == old(self).capacity,
            final(self).live_seq() == data@,
            final(self).keys@.len() == data@.len(),
    {
        let n = data.len();
        let mut i: usize = 0;
        while i < n
            invariant
                n == data@.len(),
                i <= n,
                self.capacity == old(self).capacity,
                self.flags == old(self).flags,
                self.values@.len() == self.keys@.len(),
                self.keys@.len() == i,
                forall|m: int| 0 <= m < i ==> (#[trigger] self.keys@[m]) == data@[m].0,
                forall|m: int| 0 <= m < i ==> (#[trigger] self.values@[m]) == data@[m].1,
                pairs_sorted(data@),
            decreases n - i,
        {
            let p = data[i];
            self.keys.push(p.0);
            self.values.push(p.1);
            i += 1;
        }
        proof {
            vstd::arithmetic::div_mod::lemma_div_is_ordered(
                n as int,
                self.capacity as int,
                64,
            );
        }
        self.flags.set_ones(n);
        proof {
            assert(forall|m: int|
                0 <= m < self.flags@.len() ==> self.flags@[m] == (m < n));
            assert(forall|m: int| 0 <= m < n ==> (#[trigger] self.pair_seq()[m]) == data@[m]);
            assert(strict_sorted(self.keys@)) by {
                assert forall|a: int, b: int| 0 <= a < b < n implies self.keys@[a]
                    < self.keys@[b] by {
                    assert(data@[a].0 < data@[b].0);
                }
            }
            lemma_masked_all_true(self.pair_seq(), self.flags@, 0, n as int);
            assert(self.pair_seq().subrange(0, n as int) =~= self.pair_seq());
            assert(self.live_seq() =~= data@);
        }
    }

    /// Whether the level holds no entries at all.
    pub(crate) fn empty(&self) -> (r: bool)
        ensures
            r == self.is_empty(),
    {
        self.keys.len() == 0
    }

    /// Recount the live entries from the mask.
    pub(crate) fn check_len(&self) -> (r: usize)
        requires
            self.wf(),
        ensures
            r == self.live_seq().len(),
    {
        proof {
            self.lemma_live_count();
        }
        self.flags.popcount()
    }

    /// Index of the live cell holding `k`, found by bounded binary search;
    /// a tombstone reads as absent.
    pub(crate) fn contains(&self, k: &u64) -> (r: Option<usize>)
        requires
            self.wf(),
        ensures
            match r {
                Some(i) => {
                    &&& i < self.keys@.len()
                    &&& self.keys@[i as int] == *k
                    &&& self.flags@[i as int]
                    &&& self.as_map().contains_key(*k)
                    &&& self.as_map()[*k] == self.values@[i as int]
                },
                None => !self.as_map().contains_key(*k),
            },
    {
        proof {
            self.lemma_lookup(*k);
        }
        let n = self.keys.len();
        if n == 0 {
            return None;
        }
        if *k < self.keys[0] || *k > self.keys[n - 1] {
            proof {
                assert forall|i: int| 0 <= i < n implies self.keys@[i] != *k by {
                    if 0 < i {
                        assert(self.keys@[0] < self.keys@[i]);
                    }
                    if i < n - 1 {
                        assert(self.keys@[i] < self.keys@[n - 1]);
                    }
                }
            }
            return None;
        }
        let mut lo: usize = 0;
        let mut hi: usize = n;
        while lo < hi
            invariant
                self.wf(),
                lo <= hi <= n,
                n == self.keys@.len(),
                forall|i: int| 0 <= i < n && self.keys@[i] == *k ==> lo <= i < hi,
            decreases hi - lo,
        {
            let mid = lo + (hi - lo) / 2;
            let cur = self.keys[mid];
            if cur < *k {
                proof {
                    assert forall|i: int|
                        0 <= i < n && self.keys@[i] == *k implies mid < i < hi by {
                        if i <= mid && i < mid {
                            assert(self.keys@[i] < self.keys@[mid as int]);
                        }
                    }
                }
                lo = mid + 1;
            } else if cur > *k {
                proof {
                    assert forall|i: int|
                        0 <= i < n && self.keys@[i] == *k implies lo <= i < mid by {
                        if i >= mid && i > mid {
                            assert(self.keys@[mid as int] < self.keys@[i]);
                        }
                    }
                }
                hi = mid;
            } else {
                if self.flags.get(mid) {
                    proof {
                        self.lemma_lookup(*k);
                    }
                    return Some(mid);
                } else {
                    proof {
                        self.lemma_lookup(*k);
                        assert forall|i: int|
                            0 <= i < n && self.keys@[i] == *k && self.flags@[i] implies false by {
                            if i < mid {
                                assert(self.keys@[i] < self.keys@[mid as int]);
                            }
                            if i > mid {
                                assert(self.keys@[mid as int] < self.keys@[i]);
                            }
                        }
                    }
                    return None;
                }
            }
        }
        proof {
            self.lemma_lookup(*k);
        }
        None
    }

    /// Clear the live bit of cell `i`, removing its key from the map.
    pub(crate) fn unset(&mut self, i: usize)
        requires
            old(self).wf(),
            i < old(self).keys@.len(),
            old(self).flags@[i as int],
        ensures
            final(self).wf(),
            final(self).capacity == old(self).capacity,
            final(self).keys@ == old(self).keys@,
            final(self).values@ == old(self).values@,
            !final(self).is_empty(),
            final(self).as_map() == old(self).as_map().remove(old(self).keys@[i as int]),
            final(self).live_seq().len() == old(self).live_seq().len() - 1,
    {
        proof {
            self.lemma_live_sorted();
        }
        let ghost p = old(self).pair_seq();
        let ghost m = old(self).flags@;
        let ghost n = old(self).keys@.len() as int;
        self.flags.unset(i);
        proof {
            reveal_with_fuel(masked_range, 2);
            lemma_masked_update_false(p, m, i as int, 0, n);
            lemma_masked_split(p, m, 0, i as int, n);
            lemma_masked_split(p, m, i as int, i as int + 1, n);
            let front = masked_range(p, m, 0, i as int);
            let back = masked_range(p, m, i as int + 1, n);
            assert(masked_range(p, m, i as int, i as int + 1) =~= seq![p[i as int]]);
            assert(old(self).live_seq() =~= front + seq![p[i as int]] + back);
            lemma_seq_to_map_drop_mid(front, p[i as int], back);
            lemma_masked_equal(self.pair_seq(), self.flags@, p, m.update(i as int, false), 0, n);
            assert(self.live_seq() =~= front + back);
            assert(p[i as int].0 == old(self).keys@[i as int]);
            lemma_masked_len(p, m, 0, i as int);
            lemma_masked_len(p, m, i as int + 1, n);
            lemma_masked_len(self.pair_seq(), self.flags@, 0, n);
        }
    }

    /// Overwrite the value of live cell `i` in place.
    pub(crate) fn set_value(&mut self, i: usize, v: u64)
        requires
            old(self).wf(),
            i < old(self).keys@.len(),
            old(self).flags@[i as int],
        ensures
            final(self).wf(),
            final(self).capacity == old(self).capacity,
            final(self).keys@ == old(self).keys@,
            final(self).flags@ == old(self).flags@,
            final(self).is_empty() == old(self).is_empty(),
            final(self).as_map() == old(self).as_map().insert(old(self).keys@[i as int], v),
            final(self).live_seq().len() == old(self).live_seq().len(),
    {
        self.values.set(i, v);
        proof {
            self.lemma_set_value_effect(*old(self), i as int, v);
        }
    }

    /// Effect of overwriting one live value cell on the level's map.
    pub(crate) proof fn lemma_set_value_effect(&self, prev: MapMultiSlot, i: int, v: u64)
        requires
            prev.wf(),
            0 <= i < prev.keys@.len(),
            prev.flags@[i],
            self.capacity == prev.capacity,
            self.flags == prev.flags,
            self.keys@ == prev.keys@,
            self.values@ == prev.values@.update(i, v),
        ensures
            self.wf(),
            self.as_map() == prev.as_map().insert(prev.keys@[i], v),
            self.live_seq().len() == prev.live_seq().len(),
    {
        prev.lemma_live_sorted();
        let p0 = prev.pair_seq();
        let p1 = self.pair_seq();
        let m = prev.flags@;
        let n = prev.keys@.len() as int;
        let k = prev.keys@[i];
        reveal_with_fuel(masked_range, 2);
        lemma_masked_split(p0, m, 0, i, n);
        lemma_masked_split(p0, m, i, i + 1, n);
        lemma_masked_split(p1, m, 0, i, n);
        lemma_masked_split(p1, m, i, i + 1, n);
        lemma_masked_equal(p0, m, p1, m, 0, i);
        lemma_masked_equal(p0, m, p1, m, i + 1, n);
        let front = masked_range(p0, m, 0, i);
        let back = masked_range(p0, m, i + 1, n);
        assert(masked_range(p0, m, i, i + 1) =~= seq![(k, prev.values@[i])]);
        assert(masked_range(p1, m, i, i + 1) =~= seq![(k, v)]);
        assert(prev.live_seq() =~= front + seq![(k, prev.values@[i])] + back);
        assert(self.live_seq() =~= front + seq![(k, v)] + back);
        crate::model::lemma_seq_to_map_set_mid(front, k, prev.values@[i], v, back);
        lemma_masked_len(p0, m, 0, n);
        lemma_masked_len(p1, m, 0, n);
    }

    /// Copy out the live entries in key order.
    pub(crate) fn live_entries(&self) -> (r: Vec<(u64, u64)>)
        requires
            self.wf(),
        ensures
            r@ == self.live_seq(),
    {
        let n = self.keys.len();
        let mut r: Vec<(u64, u64)> = Vec::new();
        let mut i: usize = 0;
        while i < n
            invariant
                self.wf(),
                n == self.keys@.len(),
                i <= n,
                r@ == masked_range(self.pair_seq(), self.flags@, 0, i as int),
            decreases n - i,
        {
            proof {
                reveal_with_fuel(masked_range, 2);
                lemma_masked_split(self.pair_seq(), self.flags@, 0, i as int, i as int + 1);
                if self.flags@[i as int] {
                    assert(masked_range(self.pair_seq(), self.flags@, i as int, i as int + 1)
                        =~= seq![self.pair_seq()[i as int]]);
                } else {
                    assert(masked_range(self.pair_seq(), self.flags@, i as int, i as int + 1)
                        =~= Seq::<(u64, u64)>::empty());
                }
            }
            if self.flags.get(i) {
                let p = (self.keys[i], self.values[i]);
                r.push(p);
                proof {
                    assert(r@ =~= masked_range(self.pair_seq(), self.flags@, 0, i as int + 1));
                }
            } else {
                proof {
                    assert(r@ =~= masked_range(self.pair_seq(), self.flags@, 0, i as int + 1));
                }
            }
            i += 1;
        }
        r
    }

    /// Hand out the live entries in key order and empty the level, which
    /// keeps its reserved capacity.
    pub(crate) fn take_live(&mut self) -> (r: Vec<(u64, u64)>)
        requires
            old(self).wf(),
        ensures
            final(self).wf(),
            final(self).capacity == old(self).capacity,
            final(self).is_empty(),
            final(self).as_map() == Map::<u64, u64>::empty(),
            final(self).live_seq() == Seq::<(u64, u64)>::empty(),
            r@ == old(self).live_seq(),
            pairs_sorted(r@),
    {
        proof {
            self.lemma_live_sorted();
        }
        let n = self.keys.len();
        let mut r: Vec<(u64, u64)> = Vec::new();
        let mut i: usize = 0;
        while i < n
            invariant
                self == old(self),
                self.wf(),
                n == self.keys@.len(),
                i <= n,
                r@ == masked_range(self.pair_seq(), self.flags@, 0, i as int),
            decreases n - i,
        {
            proof {
                reveal_with_fuel(masked_range, 2);
                lemma_masked_split(self.pair_seq(), self.flags@, 0, i as int, i as int + 1);
                if self.flags@[i as int] {
                    assert(masked_range(self.pair_seq(), self.flags@, i as int, i as int + 1)
                        =~= seq![self.pair_seq()[i as int]]);
                } else {
                    assert(masked_range(self.pair_seq(), self.flags@, i as int, i as int + 1)
                        =~= Seq::<(u64, u64)>::empty());
                }
            }
            if self.flags.get(i) {
                let p = (self.keys[i], self.values[i]);
                r.push(p);
                proof {
                    assert(r@ =~= masked_range(self.pair_seq(), self.flags@, 0, i as int + 1));
                }
            } else {
                proof {
                    assert(r@ =~= masked_range(self.pair_seq(), self.flags@, 0, i as int + 1));
                }
            }
            i += 1;
        }
        self.clear();
        r
    }

    /// Release spare allocated room on the entry arrays.
    pub(crate) fn shrink_to_fit(&mut self)
        requires
            old(self).wf(),
        ensures
            final(self).wf(),
            final(self).capacity == old(self).capacity,
            final(self).flags == old(self).flags,
            final(self).keys@ == old(self).keys@,
            final(self).values@ == old(self).values@,
            final(self).pair_seq() == old(self).pair_seq(),
            final(self).live_seq() == old(self).live_seq(),
            final(self).as_map() == old(self).as_map(),
            final(self).is_empty() == old(self).is_empty(),
            final(self).live_count() == old(self).live_count(),
            final(self).dead_count() == old(self).dead_count(),
    {
        vec_shrink(&mut self.keys);
        vec_shrink(&mut self.values);
        proof {
            assert(final(self).pair_seq() =~= old(self).pair_seq());
        }
    }

    /// Drop the entries and zero the mask, keeping the reserved capacity.
    pub(crate) fn clear(&mut self)
        requires
            old(self).wf(),
        ensures
            final(self).wf(),
            final(self).capacity == old(self).capacity,
            final(self).is_empty(),
            final(self).as_map() == Map::<u64, u64>::empty(),
            final(self).live_seq() == Seq::<(u64, u64)>::empty(),
    {
        self.flags.set_nulls();
        self.keys.clear();
        self.values.clear();
        proof {
            assert(self.live_seq() =~= Seq::<(u64, u64)>::empty());
        }
    }
}


/// Relies on Vec::shrink_to_fit of std: it changes only the allocation,
/// never the contents.
#[verifier::external_body]
pub(crate) fn vec_shrink(v: &mut Vec<u64>)
    ensures
        final(v)@ == old(v)@,
{
    v.shrink_to_fit();
}

/// Relies on Vec::capacity of std: the allocated room is at least the
/// current length.
#[verifier::external_body]
pub(crate) fn vec_capacity(v: &Vec<u64>) -> (r: usize)
    ensures
        r >= v@.len(),
{
    v.capacity()
}


/// Merge the two key-sorted runs `data[0 .. bound]` and
/// `data[bound ..]` in place, carrying each entry's mask bit with it.
pub fn merge_sort(data: &mut Vec<u64>, flags: &mut Flags, bound: usize)
    requires
        bound <= old(data)@.len(),
        old(data)@.len() <= usize::MAX / 2,
        strict_sorted(old(data)@.subrange(0, bound as int)),
        strict_sorted(old(data)@.subrange(bound as int, old(data)@.len() as int)),
        old(flags).wf(),
        old(flags)@.len() >= old(data)@.len(),
        forall|i: int| old(data)@.len() <= i < old(flags)@.len() ==> !old(flags)@[i],
    ensures
        final(data)@.len() == old(data)@.len(),
        final(flags).wf(),
        final(flags)@.len() == old(flags)@.len(),
        forall|i: int| old(data)@.len() <= i < final(flags)@.len() ==> !final(flags)@[i],
        forall|i: int, j: int|
            0 <= i < j < final(data)@.len() ==> final(data)@[i] <= final(data)@[j],
        crate::model::tagged(final(data)@, final(flags)@).to_multiset() == crate::model::tagged(
            old(data)@,
            old(flags)@,
        ).to_multiset(),
{
    broadcast use vstd::seq_lib::group_to_multiset_ensures;

    let n = data.len();
    let ghost told = crate::model::tagged(old(data)@, old(flags)@);
    let mut a: Vec<(u64, u64)> = Vec::new();
    let mut i: usize = 0;
    while i < bound
        invariant
            bound <= n,
            n == data@.len(),
            data@ == old(data)@,
            *flags == *old(flags),
            old(flags)@.len() >= n,
            i <= bound,
            a@ == crate::model::tagged(data@, flags@).subrange(0, i as int),
        decreases bound - i,
    {
        let bit: u64 = if flags.get(i) {
            1
        } else {
            0
        };
        let p = (data[i], bit);
        a.push(p);
        proof {
            assert(a@ =~= crate::model::tagged(data@, flags@).subrange(0, i as int + 1));
        }
        i += 1;
    }
    let mut b: Vec<(u64, u64)> = Vec::new();
    let mut j: usize = bound;
    while j < n
        invariant
            bound <= j <= n,
            n == data@.len(),
            data@ == old(data)@,
            *flags == *old(flags),
            old(flags)@.len() >= n,
            b@ == crate::model::tagged(data@, flags@).subrange(bound as int, j as int),
        decreases n - j,
    {
        let bit: u64 = if flags.get(j) {
            1
        } else {
            0
        };
        let p = (data[j], bit);
        b.push(p);
        proof {
            assert(b@ =~= crate::model::tagged(data@, flags@).subrange(bound as int, j as int + 1));
        }
        j += 1;
    }
    proof {
        assert(a@ + b@ =~= told);
        crate::model::lemma_concat_multiset(a@, b@);
        assert forall|x: int, y: int| 0 <= x < y < a@.len() implies (#[trigger] a@[x]).0 <= (
        #[trigger] a@[y]).0 by {
            assert(old(data)@.subrange(0, bound as int)[x] < old(data)@.subrange(
                0,
                bound as int,
            )[y]);
        }
        assert forall|x: int, y: int| 0 <= x < y < b@.len() implies (#[trigger] b@[x]).0 <= (
        #[trigger] b@[y]).0 by {
            assert(old(data)@.subrange(bound as int, n as int)[x] < old(data)@.subrange(
                bound as int,
                n as int,
            )[y]);
        }
    }
    let merged = crate::merge::merge_pairs(a, b);
    proof {
        assert forall|m: int| 0 <= m < merged@.len() implies (#[trigger] merged@[m]).1 == 0
            || merged@[m].1 == 1 by {
            assert(merged@.contains(merged@[m]));
            assert(merged@.to_multiset().count(merged@[m]) > 0);
            assert(told.to_multiset().count(merged@[m]) > 0);
            assert(told.contains(merged@[m]));
            let w = choose|w: int| 0 <= w < told.len() && #[trigger] told[w] == merged@[m];
            assert(told[w].1 == 0 || told[w].1 == 1);
        }
    }
    let mut newkeys: Vec<u64> = Vec::new();
    let mut m: usize = 0;
    while m < n
        invariant
            n == merged@.len(),
            m <= n,
            newkeys@.len() == m,
            forall|x: int| 0 <= x < m ==> (#[trigger] newkeys@[x]) == merged@[x].0,
        decreases n - m,
    {
        let kk = merged[m].0;
        newkeys.push(kk);
        m += 1;
    }
    *data = newkeys;
    flags.set_nulls();
    let mut m2: usize = 0;
    while m2 < n
        invariant
            n == merged@.len(),
            n == data@.len(),
            m2 <= n,
            flags.wf(),
            flags@.len() == old(flags)@.len(),
            old(flags)@.len() >= n,
            forall|x: int| 0 <= x < m2 ==> (#[trigger] flags@[x]) == (merged@[x].1 == 1),
            forall|x: int| m2 <= x < flags@.len() ==> !(#[trigger] flags@[x]),
        decreases n - m2,
    {
        if merged[m2].1 == 1 {
            flags.set(m2);
        }
        m2 += 1;
    }
    proof {
        assert(crate::model::tagged(data@, flags@) =~= merged@);
    }
}

} // verus!
