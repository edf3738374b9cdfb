//! The map engine: a hot slot for fresh writes in front of a cascade of
//! key-sorted levels, with tombstone deletion and tombstone-driven
//! compaction.

use vstd::prelude::*;

use crate::hotslot::{Filled, Slot};
use crate::level::MapMultiSlot;
use crate::merge::{merge_pairs, msort_pairs};
use crate::model::{keys_distinct, lemma_concat_distinct, lemma_concat_multiset,
    lemma_multiset_keys_distinct, lemma_union_disjoint,
    lemma_seq_to_map_card, lemma_seq_to_map_concat, lemma_seq_to_map_contains,
    lemma_seq_to_map_multiset, pairs_le, pairs_sorted, seq_to_map};
use crate::tiers::{all_wf, cap_sum, caps_law, dead_sum, lemma_cap_sum_equal, lemma_cap_sum_pow2,
    lemma_cap_sum_split, lemma_dead_sum_occupied, lemma_sum_empty,
    lemma_dead_sum_split, lemma_lmap_all_empty, lemma_lmap_card, lemma_lmap_contains,
    lemma_lmap_equal, lemma_lmap_overwrite, lemma_lmap_remove, lemma_lmap_split, lemma_lmap_value,
    lemma_live_sum_split, lemma_sums_equal,
    lemma_sums_nonneg, levels_disjoint, live_sum, lmap};

verus! {

/// A level whose reserved capacity reaches this bound releases its
/// backing storage as soon as it empties.
pub const AUTO_SHRINK_LIMIT: usize = 30000000;

/// Default tombstone-fraction threshold for compaction, as a ratio.
pub const TOMBS_LIMIT_NUM: usize = 1;

pub const TOMBS_LIMIT_DEN: usize = 20;

/// What `remove` hands back: the value of the removed entry.  A value
/// copied out of a level's dead cell (the cell itself stays in place as
/// a tombstone) is tagged `Ref`; a value that left the hot slot for good
/// is tagged `Owned`.
pub enum RemovedItem {
    Ref(u64),
    Owned(u64),
}

impl RemovedItem {
    /// The removed value, whichever way it was obtained.
    pub open spec fn spec_value(self) -> u64 {
        match self {
            RemovedItem::Ref(v) => v,
            RemovedItem::Owned(v) => v,
        }
    }

    /// Exchange the removed value against a replacement; the replacement
    /// is discarded, since the value was already copied out of the cell.
    pub fn swap(self, tmp: u64) -> (r: u64)
        ensures
            r == self.spec_value(),
    {
        match self {
            RemovedItem::Ref(v) => v,
            RemovedItem::Owned(v) => v,
        }
    }

    pub fn copied(self) -> (r: u64)
        ensures
            r == self.spec_value(),
    {
        match self {
            RemovedItem::Ref(v) => v,
            RemovedItem::Owned(v) => v,
        }
    }

    pub fn cloned(self) -> (r: u64)
        ensures
            r == self.spec_value(),
    {
        match self {
            RemovedItem::Ref(v) => v,
            RemovedItem::Owned(v) => v,
        }
    }
}

pub struct CivMap {
    pub(crate) len: usize,
    pub(crate) tombs: usize,
    pub(crate) slot: Slot,
    pub(crate) data: Vec<MapMultiSlot>,
    pub(crate) tombs_num: usize,
    pub(crate) tombs_den: usize,
}

impl View for CivMap {
    type V = Map<u64, u64>;

    closed spec fn view(&self) -> Map<u64, u64> {
        self.full_map()
    }
}

impl CivMap {
    /// Combined map of the levels alone.
    pub(crate) open spec fn lev_map(&self) -> Map<u64, u64> {
        lmap(self.data@, 0, self.data@.len() as int)
    }

    /// Everything the engine holds: hot slot plus levels.
    pub(crate) open spec fn full_map(&self) -> Map<u64, u64> {
        self.slot.as_map().union_prefer_right(self.lev_map())
    }

    /// Every piece of the invariant except the hot slot's fill level and
    /// the `len` account; the write path re-establishes those last.
    pub(crate) open spec fn inv_core(&self) -> bool {
        &&& self.slot.wf()
        &&& 1 <= self.slot.spec_max() <= usize::MAX as int / 4
        &&& all_wf(self.data@)
        &&& caps_law(self.data@, self.slot.spec_max())
        &&& levels_disjoint(self.data@)
        &&& forall|i: int|
            0 <= i < self.data@.len() ==> self.slot.as_map().dom().disjoint(
                (#[trigger] self.data@[i]).as_map().dom(),
            )
        &&& self.tombs == dead_sum(self.data@, 0, self.data@.len() as int)
        &&& cap_sum(self.data@, 0, self.data@.len() as int) <= usize::MAX as int / 2
        &&& self.tombs_den >= 1
    }

    pub(crate) open spec fn inv(&self) -> bool {
        &&& self.inv_core()
        &&& self.slot@.len() < self.slot.spec_max()
        &&& self.len == self.slot@.len() + live_sum(self.data@, 0, self.data@.len() as int)
    }

    /// The whole engine invariant.
    pub closed spec fn wf(&self) -> bool {
        self.inv()
    }

    /// Dead cells the engine accounts for.
    pub closed spec fn spec_tombs(&self) -> int {
        self.tombs as int
    }

    /// Capacity of the hot slot: the base size of the cascade.
    pub closed spec fn slot_capacity(&self) -> int {
        self.slot.spec_max()
    }

    /// The engine's `len` field counts exactly the keys it holds.
    pub(crate) proof fn lemma_len_is_card(&self)
        requires
            self.inv(),
        ensures
            self.full_map().dom().finite(),
            self.full_map().dom().len() == self.len,
    {
        let d = self.data@;
        let e = d.len() as int;
        lemma_seq_to_map_card(self.slot@);
        lemma_lmap_card(d, 0, e);
        let m1 = self.slot.as_map();
        let m2 = self.lev_map();
        lemma_lmap_contains(d, 0, e);
        assert(m1.dom().disjoint(m2.dom())) by {
            assert forall|k: u64| m1.dom().contains(k) implies !m2.dom().contains(k) by {
                if m2.contains_key(k) {
                    let j = choose|j: int| 0 <= j < e && (#[trigger] d[j]).as_map().contains_key(k);
                    assert(self.slot.as_map().dom().disjoint(d[j].as_map().dom()));
                }
            }
        }
        assert(self.full_map().dom() =~= m1.dom() + m2.dom());
        vstd::set_lib::lemma_set_disjoint_lens(m1.dom(), m2.dom());
    }

    /// A fresh engine with the canonical hot-slot capacity of 64 and the
    /// default compaction threshold.
    pub fn new() -> (r: CivMap)
        ensures
            r.wf(),
            r@ == Map::<u64, u64>::empty(),
            r.spec_tombs() == 0,
            r.slot_capacity() == 64,
            r.levels_count() == 0,
            r.slot_live() == 0,
    {
        CivMap::with_config(64, TOMBS_LIMIT_NUM, TOMBS_LIMIT_DEN)
    }

    /// A fresh engine with a chosen hot-slot capacity and a tombstone
    /// threshold of `tombs_num / tombs_den`.
    pub fn with_config(slot_size: usize, tombs_num: usize, tombs_den: usize) -> (r: CivMap)
        requires
            1 <= slot_size <= usize::MAX / 4,
            tombs_den >= 1,
        ensures
            r.wf(),
            r@ == Map::<u64, u64>::empty(),
            r.spec_tombs() == 0,
            r.slot_capacity() == slot_size,
            r.levels_count() == 0,
            r.slot_live() == 0,
    {
        let r = CivMap {
            len: 0,
            tombs: 0,
            slot: Slot::with_size(slot_size),
            data: Vec::new(),
            tombs_num,
            tombs_den,
        };
        proof {
            assert(r.full_map() =~= Map::<u64, u64>::empty());
        }
        r
    }

    /// Drop everything, keeping the configuration.
    pub fn clear(&mut self)
        requires
            old(self).wf(),
        ensures
            final(self).wf(),
            final(self)@ == Map::<u64, u64>::empty(),
            final(self).spec_tombs() == 0,
            final(self).slot_capacity() == old(self).slot_capacity(),
            final(self).levels_count() == 0,
            final(self).slot_live() == 0,
    {
        self.len = 0;
        self.tombs = 0;
        self.slot.clear();
        self.data.clear();
        proof {
            assert(self.full_map() =~= Map::<u64, u64>::empty());
        }
    }

    /// Number of live entries.
    pub fn len(&self) -> (r: usize)
        requires
            self.wf(),
        ensures
            r == self@.dom().len(),
    {
        proof {
            self.lemma_len_is_card();
        }
        self.len
    }

    /// Number of dead cells the levels still hold room for.
    pub fn tombs(&self) -> (r: usize)
        requires
            self.wf(),
        ensures
            r == self.spec_tombs(),
    {
        self.tombs
    }

    /// Where the levels hold `k`: level index and cell index.
    pub(crate) fn multy_contains(&self, k: &u64) -> (r: Option<(usize, usize)>)
        requires
            self.inv_core(),
        ensures
            match r {
                Some(pair) => {
                    &&& pair.0 < self.data@.len()
                    &&& pair.1 < self.data@[pair.0 as int].keys@.len()
                    &&& self.data@[pair.0 as int].keys@[pair.1 as int] == *k
                    &&& self.data@[pair.0 as int].flags@[pair.1 as int]
                    &&& self.data@[pair.0 as int].as_map().contains_key(*k)
                    &&& self.lev_map().contains_key(*k)
                    &&& self.lev_map()[*k] == self.data@[pair.0 as int].values@[pair.1 as int]
                },
                None => !self.lev_map().contains_key(*k),
            },
    {
        let e = self.data.len();
        let mut i: usize = 0;
        while i < e
            invariant
                self.inv_core(),
                e == self.data@.len(),
                i <= e,
                forall|j: int| 0 <= j < i ==> !(#[trigger] self.data@[j]).as_map().contains_key(*k),
            decreases e - i,
        {
            let lr = self.data[i].contains(k);
            if let Some(idx) = lr {
                proof {
                    assert forall|j: int|
                        0 <= j < self.data@.len() && j != i implies !(#[trigger] self.data@[j])
                        .as_map().contains_key(*k) by {
                        if j < i {
                            assert(self.data@[j as int].as_map().dom().disjoint(
                                self.data@[i as int].as_map().dom(),
                            ));
                        } else {
                            assert(self.data@[i as int].as_map().dom().disjoint(
                                self.data@[j as int].as_map().dom(),
                            ));
                        }
                    }
                    lemma_lmap_value(self.data@, 0, self.data@.len() as int, i as int, *k);
                    self.data@[i as int].lemma_lookup(*k);
                }
                return Some((i, idx));
            }
            i += 1;
        }
        proof {
            lemma_lmap_contains(self.data@, 0, self.data@.len() as int);
        }
        None
    }

    /// Whether the engine holds `k`.
    pub fn contains(&self, k: &u64) -> (r: bool)
        requires
            self.wf(),
        ensures
            r == self@.contains_key(*k),
    {
        match self.slot.contains(k) {
            Some(_) => {
                proof {
                    lemma_seq_to_map_contains(self.slot@, *k);
                }
                true
            },
            None => {
                proof {
                    lemma_seq_to_map_contains(self.slot@, *k);
                }
                self.multy_contains(k).is_some()
            },
        }
    }

    /// The value stored under `k`, if any.
    pub fn get(&self, k: &u64) -> (r: Option<&u64>)
        requires
            self.wf(),
        ensures
            match r {
                Some(v) => self@.contains_key(*k) && *v == self@[*k],
                None => !self@.contains_key(*k),
            },
    {
        match self.slot.get(k) {
            Some(v) => {
                proof {
                    lemma_lmap_contains(self.data@, 0, self.data@.len() as int);
                    assert(!self.lev_map().contains_key(*k)) by {
                        if self.lev_map().contains_key(*k) {
                            let j = choose|j: int|
                                0 <= j < self.data@.len() && (#[trigger] self.data@[j]).as_map()
                                    .contains_key(*k);
                            assert(self.slot.as_map().dom().disjoint(
                                self.data@[j].as_map().dom(),
                            ));
                        }
                    }
                }
                Some(v)
            },
            None => {
                match self.multy_contains(k) {
                    Some((msi, idx)) => Some(&self.data[msi].values[idx]),
                    None => None,
                }
            },
        }
    }

    /// Insert `k -> v`.  A key already live in a level is overwritten in
    /// place; otherwise the pair goes to the hot slot, and a slot that
    /// fills up triggers the cascade merge and the tombstone check.
    #[verifier::rlimit(100)]
    #[verifier::spinoff_prover]
    pub fn insert(&mut self, k: u64, v: u64) -> (r: Option<u64>)
        requires
            old(self).wf(),
            old(self)@.dom().len() + old(self).spec_tombs() + old(self).slot_capacity()
                < usize::MAX as int / 4,
        ensures
            final(self).wf(),
            final(self)@ == old(self)@.insert(k, v),
            match r {
                Some(pv) => old(self)@.contains_key(k) && pv == old(self)@[k],
                None => !old(self)@.contains_key(k),
            },
            final(self).spec_tombs() <= old(self).spec_tombs(),
            final(self).slot_capacity() == old(self).slot_capacity(),
            final(self).levels_count() >= old(self).levels_count(),
            final(self).slot_live() <= old(self).slot_live() + 1,
            final(self).slot_live() < final(self).slot_capacity(),
            old(self).in_levels(k) ==> {
                &&& final(self).slot_live() == old(self).slot_live()
                &&& final(self).levels_count() == old(self).levels_count()
                &&& final(self).in_levels(k)
                &&& forall|i: int|
                    0 <= i < old(self).levels_count() ==> final(self).level_keys(i) == old(
                        self,
                    ).level_keys(i)
            },
            (!old(self)@.contains_key(k) && old(self).slot_live() + 1 == old(
                self,
            ).slot_capacity()) ==> final(self).slot_live() == 0,
            (!old(self)@.contains_key(k) && old(self).slot_live() + 1 == old(
                self,
            ).slot_capacity() && old(self).levels_count() == 0) ==> {
                &&& final(self).levels_count() == 1
                &&& final(self).level_occupied(0)
                &&& final(self).level_capacity(0) == old(self).slot_capacity()
                &&& final(self).level_keys(0).len() == old(self).slot_capacity()
                &&& final(self).level_live(0) == old(self).slot_capacity()
            },
    {
        proof {
            self.lemma_len_is_card();
        }
        let ghost e = self.data@.len() as int;
        let mc = self.multy_contains(&k);
        if let Some((msi, idx)) = mc {
            let prior = self.data[msi].values[idx];
            let ghost dpre = self.data@;
            let lvl = &mut self.data[msi];
            lvl.set_value(idx, v);
            proof {
                let dn = self.data@;
                assert(dn =~= dpre.update(msi as int, dn[msi as int]));
                assert forall|j: int|
                    0 <= j < e && j != msi implies !(#[trigger] dpre[j]).as_map().contains_key(
                k) by {
                    if j < msi {
                        assert(dpre[j].as_map().dom().disjoint(dpre[msi as int].as_map().dom()));
                    } else {
                        assert(dpre[msi as int].as_map().dom().disjoint(dpre[j].as_map().dom()));
                    }
                }
                lemma_lmap_overwrite(dpre, dn, msi as int, 0, e, k, v);
                assert(self.full_map() =~= old(self).full_map().insert(k, v));
                lemma_sums_equal(dn, dpre, 0, e);
                lemma_cap_sum_equal(dn, dpre, 0, e);
                assert(caps_law(dn, self.slot.spec_max())) by {
                    assert(forall|j: int|
                        0 <= j < e ==> (#[trigger] dn[j]).capacity == dpre[j].capacity);
                }
                assert(dn[msi as int].as_map().dom() =~= dpre[msi as int].as_map().dom());
                assert(levels_disjoint(dn)) by {
                    assert(forall|j: int|
                        0 <= j < e ==> (#[trigger] dn[j]).as_map().dom() == dpre[j].as_map().dom());
                }
                assert forall|j: int| 0 <= j < e implies self.slot.as_map().dom().disjoint(
                    (#[trigger] dn[j]).as_map().dom(),
                ) by {
                    assert(dn[j].as_map().dom() == dpre[j].as_map().dom());
                    assert(self.slot.as_map().dom().disjoint(dpre[j].as_map().dom()));
                }
                assert(!self.slot.as_map().contains_key(k)) by {
                    assert(self.slot.as_map().dom().disjoint(dpre[msi as int].as_map().dom()));
                }
                assert(old(self)@[k] == prior);
            }
            return Some(prior);
        }
        proof {
            lemma_lmap_contains(self.data@, 0, e);
            assert(old(self)@.contains_key(k) == self.slot.as_map().contains_key(k));
        }
        let ghost lev0 = self.lev_map();
        let (r, filled) = self.slot.insert(k, v);
        proof {
            assert(self.full_map() =~= old(self).full_map().insert(k, v));
            assert forall|j: int| 0 <= j < e implies self.slot.as_map().dom().disjoint(
                (#[trigger] self.data@[j]).as_map().dom(),
            ) by {
                assert(old(self).slot.as_map().dom().disjoint(self.data@[j].as_map().dom()));
                assert(self.slot.as_map().dom() =~= old(self).slot.as_map().dom().insert(k));
                assert(!self.data@[j].as_map().contains_key(k));
            }
        }
        if let Filled::Full = filled {
            proof {
                assert(r is None);
                assert(self.slot@.len() == self.slot.spec_max());
            }
            if self.data.len() == 0 {
                let ghost smap1 = self.slot.as_map();
                let ghost fullpre = self.full_map();
                let pairs = self.slot.take_entries();
                let sorted = msort_pairs(pairs);
                proof {
                    lemma_multiset_keys_distinct(pairs@, sorted@);
                    lemma_seq_to_map_multiset(pairs@, sorted@);
                    assert(pairs_sorted(sorted@)) by {
                        assert forall|x: int, y: int|
                            0 <= x < y < sorted@.len() implies (#[trigger] sorted@[x]).0 < (
                        #[trigger] sorted@[y]).0 by {
                            assert(sorted@[x].0 <= sorted@[y].0);
                            assert(sorted@[x].0 != sorted@[y].0);
                        }
                    }
                }
                let lvl = MapMultiSlot::new(sorted);
                self.data.push(lvl);
                proof {
                    vstd::arithmetic::power2::lemma2_to64();
                    let dn = self.data@;
                    assert(dn.len() == 1);
                    reveal_with_fuel(lmap, 2);
                    reveal_with_fuel(live_sum, 2);
                    reveal_with_fuel(dead_sum, 2);
                    reveal_with_fuel(cap_sum, 2);
                    assert(lmap(dn, 0, 1) =~= dn[0].as_map());
                    assert(dn[0].as_map() == seq_to_map(sorted@));
                    assert(self.full_map() =~= fullpre) by {
                        assert(self.slot.as_map() =~= Map::<u64, u64>::empty()) by {
                            assert(self.slot@ =~= Seq::<(u64, u64)>::empty());
                        }
                        assert(dn[0].as_map() == smap1);
                        assert(lev0 =~= Map::<u64, u64>::empty());
                    }
                    assert(caps_law(dn, self.slot.spec_max())) by {
                        assert(dn[0].capacity == self.slot.spec_max() * 1);
                    }
                    assert(dn[0].live_count() == dn[0].keys@.len());
                    assert(dn[0].dead_count() == 0);
                    assert(live_sum(dn, 0, 1) == old(self).slot@.len() + 1);
                    assert(dead_sum(dn, 0, 1) == 0);
                    assert(cap_sum(dn, 0, 1) == dn[0].capacity);
                    assert(levels_disjoint(dn));
                    assert forall|j: int| 0 <= j < 1 implies self.slot.as_map().dom().disjoint(
                        (#[trigger] dn[j]).as_map().dom(),
                    ) by {
                        assert(self.slot.as_map().dom() =~= Set::<u64>::empty()) by {
                            assert(self.slot@ =~= Seq::<(u64, u64)>::empty());
                        }
                    }
                }
            } else {
                let ghost pre = *self;
                let mut n: usize = 0;
                let elen = self.data.len();
                while n < elen && !self.data[n].empty()
                    invariant
                        *self == pre,
                        n <= elen,
                        elen == self.data@.len(),
                        forall|i: int| 0 <= i < n ==> !(#[trigger] self.data@[i]).is_empty(),
                    decreases elen - n,
                {
                    n += 1;
                }
                if n == elen {
                    let lastcap = self.data[elen - 1].capacity;
                    proof {
                        assert(live_sum(self.data@, 0, e) == old(self).len - old(self).slot@.len());
                        Self::lemma_room(
                            self.data@,
                            self.slot.spec_max(),
                            self.tombs as int,
                        );
                        assert(2 * lastcap < usize::MAX / 4);
                    }
                    let newcap = 2 * lastcap;
                    let ghost dpre2 = self.data@;
                    let fresh = MapMultiSlot::new_empty(newcap);
                    self.data.push(fresh);
                    proof {
                        vstd::arithmetic::power2::lemma_pow2_unfold(elen as nat);
                        let p = vstd::arithmetic::power2::pow2((elen - 1) as nat) as int;
                        let sz = self.slot.spec_max();
                        assert(2 * (sz * p) == sz * (2 * p)) by (nonlinear_arith);
                        assert(fresh.capacity == sz * vstd::arithmetic::power2::pow2(elen as nat));
                        Self::lemma_push_level(dpre2, self.data@, fresh, sz);
                        assert forall|j: int|
                            0 <= j < self.data@.len() implies self.slot.as_map().dom().disjoint(
                            (#[trigger] self.data@[j]).as_map().dom(),
                        ) by {
                            if j < dpre2.len() {
                                assert(self.data@[j] == dpre2[j]);
                            } else {
                                assert(self.data@[j].as_map().dom() =~= Set::<u64>::empty());
                            }
                        }
                    }
                }
                proof {
                    lemma_sums_nonneg(self.data@, 0, self.data@.len() as int);
                    assert(live_sum(self.data@, 0, self.data@.len() as int) <= old(self).len);
                }
                self.merge_into(n);
                self.check_tombs(n);
                self.shrink_long();
            }
        }
        if r.is_none() {
            self.len = self.len + 1;
        }
        proof {
            if r is Some {
                assert(old(self)@[k] == old(self).slot.as_map()[k]) by {
                    assert(!lev0.contains_key(k));
                }
            }
        }
        r
    }

    /// With every tier occupied, the next tier's doubled capacity is the
    /// engine's whole reserved room plus one hot slot, which the caller
    /// has bounded.
    proof fn lemma_room(d: Seq<MapMultiSlot>, sz: int, tombsf: int)
        requires
            d.len() >= 1,
            all_wf(d),
            caps_law(d, sz),
            1 <= sz,
            forall|i: int| 0 <= i < d.len() ==> !(#[trigger] d[i]).is_empty(),
            tombsf == dead_sum(d, 0, d.len() as int),
            live_sum(d, 0, d.len() as int) + tombsf + sz < usize::MAX as int / 4,
        ensures
            2 * d[d.len() - 1].capacity == sz * vstd::arithmetic::power2::pow2(d.len() as nat),
            2 * d[d.len() - 1].capacity == cap_sum(d, 0, d.len() as int) + sz,
            2 * d[d.len() - 1].capacity < usize::MAX as int / 4,
    {
        let e = d.len() as int;
        lemma_cap_sum_pow2(d, sz, e);
        vstd::arithmetic::power2::lemma_pow2_unfold(e as nat);
        let p = vstd::arithmetic::power2::pow2((e - 1) as nat) as int;
        let q = vstd::arithmetic::power2::pow2(e as nat) as int;
        assert(d[e - 1].capacity == sz * p);
        assert(2 * (sz * p) == sz * q && sz * (q - 1) == sz * q - sz) by (nonlinear_arith)
            requires
                q == 2 * p,
        ;
        lemma_dead_sum_occupied(d, 0, e);
    }

    /// Pushing a fresh empty tier extends the cascade without changing
    /// what it holds.
    proof fn lemma_push_level(d: Seq<MapMultiSlot>, dn: Seq<MapMultiSlot>, fresh: MapMultiSlot, sz: int)
        requires
            dn == d.push(fresh),
            all_wf(d),
            caps_law(d, sz),
            levels_disjoint(d),
            fresh.wf(),
            fresh.is_empty(),
            fresh.capacity == sz * vstd::arithmetic::power2::pow2(d.len() as nat),
        ensures
            all_wf(dn),
            caps_law(dn, sz),
            levels_disjoint(dn),
            lmap(dn, 0, dn.len() as int) == lmap(d, 0, d.len() as int),
            live_sum(dn, 0, dn.len() as int) == live_sum(d, 0, d.len() as int),
            dead_sum(dn, 0, dn.len() as int) == dead_sum(d, 0, d.len() as int),
            cap_sum(dn, 0, dn.len() as int) == cap_sum(d, 0, d.len() as int) + fresh.capacity,
    {
        let e = d.len() as int;
        assert(forall|i: int| 0 <= i < e ==> (#[trigger] dn[i]) == d[i]);
        assert(fresh.as_map() =~= Map::<u64, u64>::empty()) by {
            assert(fresh.live_seq() =~= Seq::<(u64, u64)>::empty());
        }
        reveal_with_fuel(lmap, 2);
        reveal_with_fuel(live_sum, 2);
        reveal_with_fuel(dead_sum, 2);
        reveal_with_fuel(cap_sum, 2);
        lemma_lmap_split(dn, 0, e, e + 1);
        lemma_lmap_equal(dn, d, 0, e);
        assert(lmap(dn, e, e + 1) =~= Map::<u64, u64>::empty());
        assert(lmap(dn, 0, e + 1) =~= lmap(d, 0, e));
        lemma_live_sum_split(dn, 0, e, e + 1);
        lemma_dead_sum_split(dn, 0, e, e + 1);
        lemma_cap_sum_split(dn, 0, e, e + 1);
        lemma_sums_equal(dn, d, 0, e);
        assert(caps_law(dn, sz)) by {
            assert(forall|i: int| 0 <= i < e ==> (#[trigger] dn[i]).capacity == d[i].capacity);
        }
        assert(levels_disjoint(dn)) by {
            assert forall|x: int, y: int| 0 <= x < y < dn.len() implies (#[trigger] dn[x]).as_map()
                .dom().disjoint((#[trigger] dn[y]).as_map().dom()) by {
                if y == e {
                    assert(dn[y].as_map().dom() =~= Set::<u64>::empty());
                } else {
                    assert(dn[x] == d[x] && dn[y] == d[y]);
                }
            }
        }
    }

    /// Release the backing storage of any emptied level whose reserved
    /// capacity reaches the auto-shrink bound.
    pub(crate) fn shrink_long(&mut self)
        requires
            old(self).inv_core(),
        ensures
            final(self).inv_core(),
            final(self).slot == old(self).slot,
            final(self).len == old(self).len,
            final(self).tombs == old(self).tombs,
            final(self).tombs_num == old(self).tombs_num,
            final(self).tombs_den == old(self).tombs_den,
            final(self).data@.len() == old(self).data@.len(),
            final(self).full_map() == old(self).full_map(),
            live_sum(final(self).data@, 0, final(self).data@.len() as int) == live_sum(
                old(self).data@,
                0,
                old(self).data@.len() as int,
            ),
            forall|i: int|
                0 <= i < final(self).data@.len() ==> (#[trigger] final(self).data@[i]).is_empty()
                    == old(self).data@[i].is_empty() && final(self).data@[i].capacity == old(
                    self,
                ).data@[i].capacity && final(self).data@[i].keys@.len() == old(self).data@[i].keys@.len()
                    && final(self).data@[i].live_count() == old(self).data@[i].live_count(),
    {
        let ghost d0 = old(self).data@;
        let ghost e = d0.len() as int;
        let elen = self.data.len();
        let mut i: usize = 0;
        while i < elen
            invariant
                i <= elen,
                elen == self.data@.len(),
                d0.len() == elen,
                self.slot == old(self).slot,
                self.len == old(self).len,
                self.tombs == old(self).tombs,
                self.tombs_num == old(self).tombs_num,
                self.tombs_den == old(self).tombs_den,
                old(self).inv_core(),
                forall|j: int|
                    0 <= j < elen ==> (#[trigger] self.data@[j]).wf() && self.data@[j].as_map()
                        == d0[j].as_map() && self.data@[j].capacity == d0[j].capacity
                        && self.data@[j].live_count() == d0[j].live_count()
                        && self.data@[j].dead_count() == d0[j].dead_count() && self.data@[j].is_empty()
                        == d0[j].is_empty() && self.data@[j].keys@.len() == d0[j].keys@.len(),
            decreases elen - i,
        {
            proof {
                assert(self.data@[i as int].wf());
            }
            if self.data[i].capacity >= AUTO_SHRINK_LIMIT && self.data[i].empty() {
                let lvl = &mut self.data[i];
                lvl.shrink_to_fit();
            }
            i += 1;
        }
        proof {
            let dn = self.data@;
            lemma_lmap_equal(dn, d0, 0, e);
            lemma_sums_equal(dn, d0, 0, e);
            lemma_cap_sum_equal(dn, d0, 0, e);
            assert(caps_law(dn, self.slot.spec_max())) by {
                assert(forall|j: int|
                    0 <= j < e ==> (#[trigger] dn[j]).capacity == d0[j].capacity);
            }
            assert(levels_disjoint(dn)) by {
                assert(forall|j: int|
                    0 <= j < e ==> (#[trigger] dn[j]).as_map().dom() == d0[j].as_map().dom());
            }
            assert forall|j: int| 0 <= j < e implies self.slot.as_map().dom().disjoint(
                (#[trigger] dn[j]).as_map().dom(),
            ) by {
                assert(dn[j].as_map().dom() == d0[j].as_map().dom());
                assert(old(self).slot.as_map().dom().disjoint(d0[j].as_map().dom()));
            }
        }
    }

    /// Remove `k`.  A key found in a level is tombstoned in place (its
    /// bit is cleared and the cell stays); a key in the hot slot leaves
    /// it.  The removed value is handed back either way.
    pub fn remove(&mut self, k: &u64) -> (r: Option<RemovedItem>)
        requires
            old(self).wf(),
            old(self).spec_tombs() < usize::MAX as int,
        ensures
            final(self).wf(),
            final(self)@ == old(self)@.remove(*k),
            match r {
                Some(item) => {
                    &&& old(self)@.contains_key(*k)
                    &&& item.spec_value() == old(self)@[*k]
                    &&& (item is Ref) == old(self).in_levels(*k)
                    &&& (item is Ref ==> final(self).spec_tombs() == old(self).spec_tombs() + 1)
                    &&& (item is Owned ==> final(self).spec_tombs() == old(self).spec_tombs())
                },
                None => !old(self)@.contains_key(*k) && *final(self) == *old(self),
            },
            final(self).slot_capacity() == old(self).slot_capacity(),
            old(self).spec_tombs() <= final(self).spec_tombs(),
            final(self).spec_tombs() <= old(self).spec_tombs() + 1,
            final(self).levels_count() == old(self).levels_count(),
            forall|i: int|
                0 <= i < old(self).levels_count() ==> final(self).level_keys(i) == old(
                    self,
                ).level_keys(i),
    {
        let ghost e = self.data@.len() as int;
        match self.multy_contains(k) {
            Some((msi, idx)) => {
                let val = self.data[msi].values[idx];
                let ghost dpre = self.data@;
                self.tombs = self.tombs + 1;
                let lvl = &mut self.data[msi];
                lvl.unset(idx);
                proof {
                    let dn = self.data@;
                    assert(dn =~= dpre.update(msi as int, dn[msi as int]));
                    assert forall|j: int|
                        0 <= j < e && j != msi implies !(#[trigger] dpre[j]).as_map().contains_key(
                    *k) by {
                        if j < msi {
                            assert(dpre[j].as_map().dom().disjoint(
                                dpre[msi as int].as_map().dom(),
                            ));
                        } else {
                            assert(dpre[msi as int].as_map().dom().disjoint(
                                dpre[j].as_map().dom(),
                            ));
                        }
                    }
                    lemma_lmap_remove(dpre, dn, msi as int, 0, e, *k);
                    assert(!self.slot.as_map().contains_key(*k)) by {
                        assert(self.slot.as_map().dom().disjoint(dpre[msi as int].as_map().dom()));
                    }
                    assert(self.full_map() =~= old(self).full_map().remove(*k));
                    // one live cell became dead in level msi
                    reveal_with_fuel(live_sum, 2);
                    reveal_with_fuel(dead_sum, 2);
                    lemma_live_sum_split(dn, 0, msi as int, e);
                    lemma_live_sum_split(dn, msi as int, msi as int + 1, e);
                    lemma_live_sum_split(dpre, 0, msi as int, e);
                    lemma_live_sum_split(dpre, msi as int, msi as int + 1, e);
                    lemma_dead_sum_split(dn, 0, msi as int, e);
                    lemma_dead_sum_split(dn, msi as int, msi as int + 1, e);
                    lemma_dead_sum_split(dpre, 0, msi as int, e);
                    lemma_dead_sum_split(dpre, msi as int, msi as int + 1, e);
                    lemma_sums_equal(dn, dpre, 0, msi as int);
                    lemma_sums_equal(dn, dpre, msi as int + 1, e);
                    lemma_cap_sum_equal(dn, dpre, 0, e);
                    assert(caps_law(dn, self.slot.spec_max())) by {
                        assert(forall|j: int|
                            0 <= j < e ==> (#[trigger] dn[j]).capacity == dpre[j].capacity);
                    }
                    // key sets only shrink, so disjointness is kept
                    assert(levels_disjoint(dn)) by {
                        assert forall|x: int, y: int|
                            0 <= x < y < e implies (#[trigger] dn[x]).as_map().dom().disjoint(
                            (#[trigger] dn[y]).as_map().dom(),
                        ) by {
                            assert(dn[msi as int].as_map().dom() =~= dpre[msi as int].as_map()
                                .dom().remove(*k));
                            assert(dpre[x].as_map().dom().disjoint(dpre[y].as_map().dom()));
                            assert forall|k2: u64|
                                dn[x].as_map().dom().contains(k2) implies !dn[y].as_map().dom()
                                .contains(k2) by {
                                assert(dpre[x].as_map().dom().contains(k2));
                            }
                        }
                    }
                    assert forall|j: int| 0 <= j < e implies self.slot.as_map().dom().disjoint(
                        (#[trigger] dn[j]).as_map().dom(),
                    ) by {
                        assert(dn[msi as int].as_map().dom() =~= dpre[msi as int].as_map().dom()
                            .remove(*k));
                        assert(self.slot.as_map().dom().disjoint(dpre[j].as_map().dom()));
                        assert forall|k2: u64|
                            self.slot.as_map().dom().contains(k2) implies !dn[j].as_map().dom()
                            .contains(k2) by {
                            assert(!dpre[j].as_map().dom().contains(k2));
                        }
                    }
                    // the count of live entries is positive
                    lemma_sums_nonneg(dn, 0, msi as int);
                    lemma_sums_nonneg(dn, msi as int + 1, e);
                    assert(old(self)@[*k] == val) by {
                        assert(!old(self).slot.as_map().contains_key(*k));
                    }
                }
                self.len = self.len - 1;
                Some(RemovedItem::Ref(val))
            },
            None => {
                let sr = self.slot.remove(k);
                match sr {
                    Some(v) => {
                        proof {
                            assert(self.full_map() =~= old(self).full_map().remove(*k));
                            assert forall|j: int|
                                0 <= j < e implies self.slot.as_map().dom().disjoint(
                                (#[trigger] self.data@[j]).as_map().dom(),
                            ) by {
                                assert(old(self).slot.as_map().dom().disjoint(
                                    self.data@[j].as_map().dom(),
                                ));
                                assert forall|k2: u64|
                                    self.slot.as_map().dom().contains(k2) implies !self.data@[j]
                                    .as_map().dom().contains(k2) by {
                                    assert(old(self).slot.as_map().dom().contains(k2));
                                }
                            }
                            assert(old(self)@[*k] == old(self).slot.as_map()[*k]) by {
                                assert(!old(self).lev_map().contains_key(*k));
                            }
                            lemma_sums_nonneg(self.data@, 0, e);
                        }
                        self.len = self.len - 1;
                        Some(RemovedItem::Owned(v))
                    },
                    None => {
                        proof {
                            assert(old(self).full_map().remove(*k) =~= old(self).full_map());
                        }
                        None
                    },
                }
            },
        }
    }

    /// A mutable borrow of the value under `k`: in place inside the
    /// level that holds it, else inside the hot slot.
    pub fn get_mut(&mut self, k: &u64) -> (r: Option<&mut u64>)
        requires
            old(self).wf(),
        ensures
            match r {
                Some(v) => {
                    &&& old(self)@.contains_key(*k)
                    &&& *v == old(self)@[*k]
                    &&& final(self).wf()
                    &&& final(self)@ == old(self)@.insert(*k, *final(v))
                    &&& final(self).spec_tombs() == old(self).spec_tombs()
                    &&& final(self).slot_capacity() == old(self).slot_capacity()
                },
                None => !old(self)@.contains_key(*k) && *final(self) == *old(self),
            },
    {
        let ghost e = self.data@.len() as int;
        match self.multy_contains(k) {
            Some((msi, idx)) => {
                let ghost dpre = self.data@;
                let ghost smap = self.slot.as_map();
                let lvl = &mut self.data[msi];
                let ghost lpre = *lvl;
                let r = &mut lvl.values[idx];
                proof {
                    let lfin = after_borrow(*lvl);
                    let vfin = *final(r);
                    lfin.lemma_set_value_effect(lpre, idx as int, vfin);
                    let sfin = after_borrow(*self);
                    let dn = sfin.data@;
                    assert(dn =~= dpre.update(msi as int, lfin));
                    assert forall|j: int|
                        0 <= j < e && j != msi implies !(#[trigger] dpre[j]).as_map().contains_key(
                    *k) by {
                        if j < msi {
                            assert(dpre[j].as_map().dom().disjoint(
                                dpre[msi as int].as_map().dom(),
                            ));
                        } else {
                            assert(dpre[msi as int].as_map().dom().disjoint(
                                dpre[j].as_map().dom(),
                            ));
                        }
                    }
                    lemma_lmap_overwrite(dpre, dn, msi as int, 0, e, *k, vfin);
                    assert(sfin.full_map() =~= old(self).full_map().insert(*k, vfin));
                    lemma_sums_equal(dn, dpre, 0, e);
                    lemma_cap_sum_equal(dn, dpre, 0, e);
                    assert(caps_law(dn, sfin.slot.spec_max())) by {
                        assert(forall|j: int|
                            0 <= j < e ==> (#[trigger] dn[j]).capacity == dpre[j].capacity);
                    }
                    assert(dn[msi as int].as_map().dom() =~= dpre[msi as int].as_map().dom());
                    assert(levels_disjoint(dn)) by {
                        assert(forall|j: int|
                            0 <= j < e ==> (#[trigger] dn[j]).as_map().dom() == dpre[j].as_map()
                                .dom());
                    }
                    assert forall|j: int| 0 <= j < e implies sfin.slot.as_map().dom().disjoint(
                        (#[trigger] dn[j]).as_map().dom(),
                    ) by {
                        assert(dn[j].as_map().dom() == dpre[j].as_map().dom());
                        assert(smap.dom().disjoint(dpre[j].as_map().dom()));
                    }
                    assert(!smap.contains_key(*k)) by {
                        assert(smap.dom().disjoint(dpre[msi as int].as_map().dom()));
                    }
                    assert(old(self)@[*k] == dpre[msi as int].values@[idx as int]);
                }
                Some(r)
            },
            None => {
                proof {
                    lemma_lmap_contains(self.data@, 0, e);
                }
                let ghost lev0 = self.lev_map();
                let sr = self.slot.get_mut(k);
                match sr {
                    Some(v) => {
                        proof {
                            let sfin = after_borrow(*self);
                            let vfin = *final(v);
                            assert(sfin.data@ == old(self).data@);
                            assert(sfin.full_map() =~= old(self).full_map().insert(*k, vfin));
                            assert forall|j: int|
                                0 <= j < e implies sfin.slot.as_map().dom().disjoint(
                                (#[trigger] sfin.data@[j]).as_map().dom(),
                            ) by {
                                assert(old(self).slot.as_map().dom().disjoint(
                                    old(self).data@[j].as_map().dom(),
                                ));
                                assert(sfin.slot.as_map().dom() =~= old(self).slot.as_map().dom()
                                    .insert(*k));
                                assert(!old(self).data@[j].as_map().contains_key(*k));
                            }
                            assert(old(self)@[*k] == old(self).slot.as_map()[*k]) by {
                                assert(!lev0.contains_key(*k));
                            }
                        }
                        Some(v)
                    },
                    None => None,
                }
            },
        }
    }

    /// Recount the live entries by walking the hot slot and every level.
    pub fn check_len(&self) -> (r: usize)
        requires
            self.wf(),
        ensures
            r == self@.dom().len(),
    {
        proof {
            self.lemma_len_is_card();
        }
        let ghost e = self.data@.len() as int;
        let mut acc = self.slot.len();
        let elen = self.data.len();
        proof {
            lemma_sums_nonneg(self.data@, 0, e);
        }
        let mut i: usize = 0;
        while i < elen
            invariant
                self.wf(),
                i <= elen,
                elen == self.data@.len(),
                acc == self.slot@.len() + live_sum(self.data@, 0, i as int),
                acc <= self.len,
            decreases elen - i,
        {
            proof {
                reveal_with_fuel(live_sum, 2);
                lemma_live_sum_split(self.data@, 0, i as int, i as int + 1);
                lemma_live_sum_split(self.data@, 0, i as int + 1, elen as int);
                lemma_sums_nonneg(self.data@, i as int + 1, elen as int);
                lemma_sums_nonneg(self.data@, 0, i as int + 1);
                assert(self.data@[i as int].wf());
            }
            let c = self.data[i].check_len();
            acc = acc + c;
            i += 1;
        }
        proof {
            self.lemma_len_is_card();
        }
        acc
    }

    /// The number of cells the engine has reserved: hot slot plus every
    /// tier's capacity.
    pub fn max_capacity(&self) -> (r: usize)
        requires
            self.wf(),
        ensures
            r == self.spec_max_capacity(),
    {
        let mut acc = self.slot.max_size();
        let elen = self.data.len();
        let mut i: usize = 0;
        while i < elen
            invariant
                self.wf(),
                i <= elen,
                elen == self.data@.len(),
                acc == self.slot.spec_max() + cap_sum(self.data@, 0, i as int),
            decreases elen - i,
        {
            proof {
                reveal_with_fuel(cap_sum, 2);
                lemma_cap_sum_split(self.data@, 0, i as int, i as int + 1);
                lemma_cap_sum_split(self.data@, 0, i as int + 1, elen as int);
                lemma_sums_nonneg(self.data@, i as int + 1, elen as int);
                lemma_sums_nonneg(self.data@, 0, i as int);
                assert(self.data@[i as int].wf());
            }
            let c = self.data[i].capacity;
            acc = acc + c;
            i += 1;
        }
        acc
    }

    /// The room actually allocated for keys, hot slot capacity included;
    /// what the allocator granted beyond the lengths is not pinned down.
    pub fn real_capacity(&self) -> (r: usize)
        requires
            self.wf(),
        ensures
            r >= self.slot_capacity(),
    {
        let mut acc = self.slot.max_size();
        let elen = self.data.len();
        let mut i: usize = 0;
        while i < elen
            invariant
                self.wf(),
                i <= elen,
                elen == self.data@.len(),
                acc >= self.slot.spec_max(),
            decreases elen - i,
        {
            let c = crate::level::vec_capacity(&self.data[i].keys);
            acc = acc.saturating_add(c);
            i += 1;
        }
        acc
    }

    /// Allocated key-array capacity of each tier, in tier order; each is
    /// at least the tier's physical key count.
    pub fn capacities(&self) -> (r: Vec<usize>)
        requires
            self.wf(),
        ensures
            r@.len() == self.levels_count(),
            forall|i: int| 0 <= i < r@.len() ==> (#[trigger] r@[i]) >= self.level_keys(i).len(),
    {
        let mut r: Vec<usize> = Vec::new();
        let elen = self.data.len();
        let mut i: usize = 0;
        while i < elen
            invariant
                i <= elen,
                elen == self.data@.len(),
                r@.len() == i,
                forall|m: int| 0 <= m < i ==> (#[trigger] r@[m]) >= self.data@[m].keys@.len(),
            decreases elen - i,
        {
            let c = crate::level::vec_capacity(&self.data[i].keys);
            r.push(c);
            i += 1;
        }
        r
    }

    /// One row for each occupied tier: its index, reserved capacity,
    /// live count and dead count.
    pub fn statistics(&self) -> (r: Vec<(usize, usize, usize, usize)>)
        requires
            self.wf(),
        ensures
            r@.len() == self.occupied_walk(self.levels_count()),
            forall|m: int|
                0 <= m < r@.len() ==> {
                    let row = #[trigger] r@[m];
                    &&& row.0 < self.levels_count()
                    &&& self.level_occupied(row.0 as int)
                    &&& row.1 == self.level_capacity(row.0 as int)
                    &&& row.2 == self.level_live(row.0 as int)
                    &&& row.3 == self.level_capacity(row.0 as int) - self.level_live(row.0 as int)
                },
            forall|m1: int, m2: int|
                0 <= m1 < m2 < r@.len() ==> (#[trigger] r@[m1]).0 < (#[trigger] r@[m2]).0,
            forall|i: int|
                0 <= i < self.levels_count() && self.level_occupied(i) ==> exists|m: int|
                    0 <= m < r@.len() && (#[trigger] r@[m]).0 == i,
    {
        let mut r: Vec<(usize, usize, usize, usize)> = Vec::new();
        let elen = self.data.len();
        let mut i: usize = 0;
        while i < elen
            invariant
                self.wf(),
                i <= elen,
                elen == self.data@.len(),
                r@.len() == self.occupied_walk(i as int),
                forall|m: int|
                    0 <= m < r@.len() ==> {
                        let row = #[trigger] r@[m];
                        &&& row.0 < i
                        &&& self.level_occupied(row.0 as int)
                        &&& row.1 == self.level_capacity(row.0 as int)
                        &&& row.2 == self.level_live(row.0 as int)
                        &&& row.3 == self.level_capacity(row.0 as int) - self.level_live(
                            row.0 as int,
                        )
                    },
                forall|m1: int, m2: int|
                    0 <= m1 < m2 < r@.len() ==> (#[trigger] r@[m1]).0 < (#[trigger] r@[m2]).0,
                forall|ii: int|
                    0 <= ii < i && self.level_occupied(ii) ==> exists|m: int|
                        0 <= m < r@.len() && (#[trigger] r@[m]).0 == ii,
            decreases elen - i,
        {
            proof {
                assert(self.data@[i as int].wf());
            }
            if !self.data[i].empty() {
                let cap = self.data[i].capacity;
                let live = self.data[i].check_len();
                let row = (i, cap, live, cap - live);
                let ghost rpre = r@;
                r.push(row);
                proof {
                    assert(r@[r@.len() - 1].0 == i);
                    assert forall|ii: int|
                        0 <= ii < i + 1 && self.level_occupied(ii) implies exists|m: int|
                        0 <= m < r@.len() && (#[trigger] r@[m]).0 == ii by {
                        if ii < i {
                            let m = choose|m: int|
                                0 <= m < rpre.len() && (#[trigger] rpre[m]).0 == ii;
                            assert(r@[m].0 == ii);
                        } else {
                            assert(r@[r@.len() - 1].0 == ii);
                        }
                    }
                }
            }
            i += 1;
        }
        r
    }

    /// Number of tiers the cascade currently has, empty ones included.
    pub closed spec fn levels_count(&self) -> int {
        self.data@.len() as int
    }

    /// Reserved capacity of tier `i`.
    pub closed spec fn level_capacity(&self, i: int) -> int {
        self.data@[i].capacity as int
    }

    /// Live entries of tier `i`.
    pub closed spec fn level_live(&self, i: int) -> int {
        self.data@[i].live_count()
    }

    /// Whether tier `i` holds any entries.
    pub closed spec fn level_occupied(&self, i: int) -> bool {
        !self.data@[i].is_empty()
    }

    /// Hot slot plus all reserved tier capacities.
    pub closed spec fn spec_max_capacity(&self) -> int {
        self.slot.spec_max() + cap_sum(self.data@, 0, self.data@.len() as int)
    }

    /// Release spare allocated room on every tier.
    pub fn shrink_to_fit(&mut self)
        requires
            old(self).wf(),
        ensures
            final(self).wf(),
            final(self)@ == old(self)@,
            final(self).spec_tombs() == old(self).spec_tombs(),
            final(self).slot_capacity() == old(self).slot_capacity(),
    {
        let ghost d0 = old(self).data@;
        let ghost e = d0.len() as int;
        let elen = self.data.len();
        let mut i: usize = 0;
        while i < elen
            invariant
                i <= elen,
                elen == self.data@.len(),
                d0.len() == elen,
                self.slot == old(self).slot,
                self.len == old(self).len,
                self.tombs == old(self).tombs,
                self.tombs_num == old(self).tombs_num,
                self.tombs_den == old(self).tombs_den,
                old(self).inv(),
                forall|j: int|
                    0 <= j < elen ==> (#[trigger] self.data@[j]).wf() && self.data@[j].as_map()
                        == d0[j].as_map() && self.data@[j].capacity == d0[j].capacity
                        && self.data@[j].live_count() == d0[j].live_count()
                        && self.data@[j].dead_count() == d0[j].dead_count()
                        && self.data@[j].is_empty() == d0[j].is_empty(),
            decreases elen - i,
        {
            proof {
                assert(self.data@[i as int].wf());
            }
            let lvl = &mut self.data[i];
            lvl.shrink_to_fit();
            i += 1;
        }
        proof {
            let dn = self.data@;
            lemma_lmap_equal(dn, d0, 0, e);
            lemma_sums_equal(dn, d0, 0, e);
            lemma_cap_sum_equal(dn, d0, 0, e);
            assert(caps_law(dn, self.slot.spec_max())) by {
                assert(forall|j: int|
                    0 <= j < e ==> (#[trigger] dn[j]).capacity == d0[j].capacity);
            }
            assert(levels_disjoint(dn)) by {
                assert(forall|j: int|
                    0 <= j < e ==> (#[trigger] dn[j]).as_map().dom() == d0[j].as_map().dom());
            }
            assert forall|j: int| 0 <= j < e implies self.slot.as_map().dom().disjoint(
                (#[trigger] dn[j]).as_map().dom(),
            ) by {
                assert(dn[j].as_map().dom() == d0[j].as_map().dom());
                assert(old(self).slot.as_map().dom().disjoint(d0[j].as_map().dom()));
            }
        }
    }

    /// Every live entry, each key once: the hot slot's entries first,
    /// then each tier's live entries from the lowest tier up.  No global
    /// order is promised.
    pub fn filtered_iter(&self) -> (r: Vec<(u64, u64)>)
        requires
            self.wf(),
        ensures
            seq_to_map(r@) == self@,
            keys_distinct(r@),
            r@.len() == self@.dom().len(),
            forall|m: int|
                0 <= m < r@.len() ==> self@.contains_key((#[trigger] r@[m]).0) && self@[r@[m].0]
                    == r@[m].1,
    {
        let ghost e = self.data@.len() as int;
        let slot_part = self.slot.entries();
        let mut r: Vec<(u64, u64)> = Vec::new();
        let mut s: usize = 0;
        let ns = slot_part.len();
        while s < ns
            invariant
                ns == slot_part@.len(),
                s <= ns,
                r@ == slot_part@.take(s as int),
            decreases ns - s,
        {
            let p = slot_part[s];
            r.push(p);
            proof {
                assert(r@ =~= slot_part@.take(s as int + 1));
            }
            s += 1;
        }
        proof {
            assert(r@ =~= self.slot@);
        }
        let mut i: usize = 0;
        let elen = self.data.len();
        while i < elen
            invariant
                self.wf(),
                i <= elen,
                elen == self.data@.len(),
                e == elen,
                keys_distinct(r@),
                seq_to_map(r@) == self.slot.as_map().union_prefer_right(
                    lmap(self.data@, 0, i as int),
                ),
                forall|j: int|
                    i <= j < e ==> seq_to_map(r@).dom().disjoint(
                        (#[trigger] self.data@[j]).as_map().dom(),
                    ),
            decreases elen - i,
        {
            proof {
                assert(self.data@[i as int].wf());
                self.data@[i as int].lemma_live_sorted();
            }
            let part = self.data[i].live_entries();
            let ghost r0 = r@;
            let mut t: usize = 0;
            let nt = part.len();
            while t < nt
                invariant
                    nt == part@.len(),
                    t <= nt,
                    r@ == r0 + part@.take(t as int),
                decreases nt - t,
            {
                let p = part[t];
                r.push(p);
                proof {
                    assert(r@ =~= r0 + part@.take(t as int + 1));
                }
                t += 1;
            }
            proof {
                assert(r@ =~= r0 + part@);
                assert(seq_to_map(part@) == self.data@[i as int].as_map());
                assert(seq_to_map(r0).dom().disjoint(seq_to_map(part@).dom()));
                lemma_concat_distinct(r0, part@);
                lemma_seq_to_map_concat(r0, part@);
                assert(seq_to_map(r@) =~= self.slot.as_map().union_prefer_right(
                    lmap(self.data@, 0, i as int + 1),
                )) by {
                    lemma_lmap_split(self.data@, 0, i as int, i as int + 1);
                    reveal_with_fuel(lmap, 2);
                    assert(lmap(self.data@, i as int, i as int + 1) =~= self.data@[i as int].as_map());
                }
                assert forall|j: int| i + 1 <= j < e implies seq_to_map(r@).dom().disjoint(
                    (#[trigger] self.data@[j]).as_map().dom(),
                ) by {
                    assert(seq_to_map(r@).dom() =~= seq_to_map(r0).dom() + seq_to_map(
                        part@,
                    ).dom());
                    assert(seq_to_map(r0).dom().disjoint(self.data@[j].as_map().dom()));
                    assert(self.data@[i as int].as_map().dom().disjoint(
                        self.data@[j].as_map().dom(),
                    ));
                    lemma_union_disjoint(
                        seq_to_map(r0).dom(),
                        seq_to_map(part@).dom(),
                        self.data@[j].as_map().dom(),
                    );
                }
            }
            i += 1;
        }
        proof {
            assert(seq_to_map(r@) == self@);
            crate::model::lemma_seq_to_map_card(r@);
            self.lemma_len_is_card();
            assert forall|m: int|
                0 <= m < r@.len() implies self@.contains_key((#[trigger] r@[m]).0) && self@[r@[m].0]
                == r@[m].1 by {
                crate::model::lemma_seq_to_map_value(r@, m);
            }
        }
        r
    }

    /// Bridge for sibling modules: the public opaque specs in terms of
    /// the crate-visible state.
    pub(crate) proof fn lemma_specs(&self)
        ensures
            self.wf() == self.inv(),
            self.slot_capacity() == self.slot.spec_max(),
            self.spec_tombs() == self.tombs as int,
            self@ == self.full_map(),
    {
    }

    /// The keys of tier `i`, dead cells included.
    pub closed spec fn level_keys(&self, i: int) -> Seq<u64> {
        self.data@[i].keys@
    }

    /// Live entries of the hot slot.
    pub closed spec fn slot_live(&self) -> int {
        self.slot@.len() as int
    }

    /// Whether `k` is live in one of the tiers (rather than the hot slot).
    pub closed spec fn in_levels(&self, k: u64) -> bool {
        self.lev_map().contains_key(k)
    }

    /// Dead cells summed over the first `i` tiers, walking the levels as
    /// an auditor would: an occupied tier accounts its reserved capacity
    /// less its live entries, an empty tier accounts nothing.
    pub open spec fn dead_walk(&self, i: int) -> int
        decreases i,
    {
        if i <= 0 {
            0
        } else {
            self.dead_walk(i - 1) + if self.level_occupied(i - 1) {
                self.level_capacity(i - 1) - self.level_live(i - 1)
            } else {
                0
            }
        }
    }

    /// Live entries summed over the first `i` tiers.
    pub open spec fn live_walk(&self, i: int) -> int
        decreases i,
    {
        if i <= 0 {
            0
        } else {
            self.live_walk(i - 1) + self.level_live(i - 1)
        }
    }

    /// Occupied tiers among the first `i`.
    pub open spec fn occupied_walk(&self, i: int) -> int
        decreases i,
    {
        if i <= 0 {
            0
        } else {
            self.occupied_walk(i - 1) + if self.level_occupied(i - 1) {
                1int
            } else {
                0int
            }
        }
    }

    /// Size accounting: the engine's key count is the live cells of the
    /// hot slot and every tier, and its tombstone count is the dead
    /// cells of every occupied tier.
    pub proof fn lemma_size_accounting(&self)
        requires
            self.wf(),
        ensures
            self@.dom().len() == self.slot_live() + self.live_walk(self.levels_count()),
            self.spec_tombs() == self.dead_walk(self.levels_count()),
    {
        self.lemma_len_is_card();
        self.lemma_walks(self.levels_count());
    }

    proof fn lemma_walks(&self, i: int)
        requires
            i <= self.data@.len(),
        ensures
            self.dead_walk(i) == dead_sum(self.data@, 0, i),
            self.live_walk(i) == live_sum(self.data@, 0, i),
        decreases i,
    {
        if i > 0 {
            self.lemma_walks(i - 1);
            lemma_dead_sum_split(self.data@, 0, i - 1, i);
            lemma_live_sum_split(self.data@, 0, i - 1, i);
            reveal_with_fuel(dead_sum, 2);
            reveal_with_fuel(live_sum, 2);
            assert(dead_sum(self.data@, i - 1, i) == self.data@[i - 1].dead_count());
            assert(live_sum(self.data@, i - 1, i) == self.data@[i - 1].live_count());
        }
    }

    /// Level sortedness: the keys of any tier ascend strictly, dead
    /// cells included.
    pub proof fn lemma_level_sorted(&self, i: int)
        requires
            self.wf(),
            0 <= i < self.levels_count(),
        ensures
            crate::model::strict_sorted(self.level_keys(i)),
    {
        assert(self.data@[i].wf());
    }

    /// Level capacity law: tier `i` reserves `slot_capacity * 2^i` cells
    /// and holds at most that many, live cells fewest of all.
    pub proof fn lemma_level_capacity(&self, i: int)
        requires
            self.wf(),
            0 <= i < self.levels_count(),
        ensures
            self.level_capacity(i) == self.slot_capacity() * vstd::arithmetic::power2::pow2(
                i as nat,
            ),
            self.level_keys(i).len() <= self.level_capacity(i),
            0 <= self.level_live(i) <= self.level_keys(i).len(),
    {
        assert(self.data@[i].wf());
    }

    /// After the redistribution walk, the engine holds the same keys and
    /// has traded the big level's slack for the final target's.
    proof fn lemma_compact_finish(
        &self,
        d0: Seq<MapMultiSlot>,
        pairs: Seq<(u64, u64)>,
        n: int,
        j: int,
        slack: int,
    )
        requires
            0 <= j <= n < d0.len(),
            d0.len() == self.data@.len(),
            all_wf(d0),
            levels_disjoint(d0),
            forall|i: int| 0 <= i < n ==> (#[trigger] d0[i]).is_empty(),
            seq_to_map(pairs) == d0[n].as_map(),
            d0[n].live_seq() == pairs,
            !d0[n].is_empty(),
            forall|i: int| 0 <= i < j ==> (#[trigger] self.data@[i]) == d0[i],
            forall|i: int| n < i < d0.len() ==> (#[trigger] self.data@[i]) == d0[i],
            self.data@[n].wf(),
            self.data@[n].is_empty(),
            self.data@[n].capacity == d0[n].capacity,
            forall|i: int|
                j <= i < n ==> (#[trigger] self.data@[i]).wf() && self.data@[i].capacity
                    == d0[i].capacity,
            lmap(self.data@, j, n) == seq_to_map(pairs),
            live_sum(self.data@, j, n) == pairs.len(),
            dead_sum(self.data@, j, n) == slack,
        ensures
            all_wf(self.data@),
            forall|i: int|
                0 <= i < d0.len() ==> (#[trigger] self.data@[i]).capacity == d0[i].capacity,
            lmap(self.data@, 0, d0.len() as int) == lmap(d0, 0, d0.len() as int),
            live_sum(self.data@, 0, d0.len() as int) == live_sum(d0, 0, d0.len() as int),
            dead_sum(self.data@, 0, d0.len() as int) == dead_sum(d0, 0, d0.len() as int)
                - d0[n].dead_count() + slack,
            cap_sum(self.data@, 0, d0.len() as int) == cap_sum(d0, 0, d0.len() as int),
    {
        let dn = self.data@;
        let e = d0.len() as int;
        reveal_with_fuel(lmap, 2);
        reveal_with_fuel(live_sum, 2);
        reveal_with_fuel(dead_sum, 2);
        assert forall|i: int| 0 <= i < j implies (#[trigger] dn[i]).as_map()
            == Map::<u64, u64>::empty() by {
            assert(d0[i].live_seq() =~= Seq::<(u64, u64)>::empty());
            assert(dn[i].as_map() =~= Map::<u64, u64>::empty());
        }
        assert forall|i: int| 0 <= i < n implies (#[trigger] d0[i]).as_map()
            == Map::<u64, u64>::empty() by {
            assert(d0[i].live_seq() =~= Seq::<(u64, u64)>::empty());
            assert(d0[i].as_map() =~= Map::<u64, u64>::empty());
        }
        lemma_lmap_all_empty(dn, 0, j);
        lemma_lmap_all_empty(d0, 0, n);
        lemma_sum_empty(dn, 0, j);
        lemma_sum_empty(d0, 0, n);
        lemma_lmap_split(dn, 0, j, e);
        lemma_lmap_split(dn, j, n, e);
        lemma_lmap_split(dn, n, n + 1, e);
        lemma_lmap_split(d0, 0, n, e);
        lemma_lmap_split(d0, n, n + 1, e);
        lemma_lmap_equal(dn, d0, n + 1, e);
        assert(dn[n].as_map() =~= Map::<u64, u64>::empty()) by {
            assert(dn[n].live_seq() =~= Seq::<(u64, u64)>::empty());
        }
        assert(lmap(dn, n, n + 1) =~= dn[n].as_map());
        assert(lmap(d0, n, n + 1) =~= d0[n].as_map());
        assert(lmap(dn, 0, e) =~= lmap(d0, 0, e));
        lemma_live_sum_split(dn, 0, j, e);
        lemma_live_sum_split(dn, j, n, e);
        lemma_live_sum_split(dn, n, n + 1, e);
        lemma_live_sum_split(d0, 0, n, e);
        lemma_live_sum_split(d0, n, n + 1, e);
        lemma_dead_sum_split(dn, 0, j, e);
        lemma_dead_sum_split(dn, j, n, e);
        lemma_dead_sum_split(dn, n, n + 1, e);
        lemma_dead_sum_split(d0, 0, n, e);
        lemma_dead_sum_split(d0, n, n + 1, e);
        lemma_sums_equal(dn, d0, n + 1, e);
        assert(live_sum(dn, n, n + 1) == 0 && dead_sum(dn, n, n + 1) == 0);
        assert(live_sum(d0, n, n + 1) == d0[n].live_count());
        assert(dead_sum(d0, n, n + 1) == d0[n].dead_count());
        assert(d0[n].live_count() == pairs.len());
        lemma_cap_sum_equal(dn, d0, 0, e);
    }

    /// One redistribution step: level `jj` was just filled with the
    /// window `pos .. upto` of the entries being pushed down.
    proof fn lemma_compact_fill_step(
        &self,
        d0: Seq<MapMultiSlot>,
        dpre: Seq<MapMultiSlot>,
        pairs: Seq<(u64, u64)>,
        n: int,
        jj: int,
        j: int,
        pos: int,
        upto: int,
    )
        requires
            0 <= jj < j <= n < d0.len(),
            jj + 1 == j,
            d0.len() == dpre.len(),
            d0.len() == self.data@.len(),
            pairs_sorted(pairs),
            keys_distinct(pairs),
            0 <= pos < upto <= pairs.len(),
            seq_to_map(pairs) == d0[n].as_map(),
            all_wf(d0),
            levels_disjoint(d0),
            forall|i: int| 0 <= i < n ==> (#[trigger] d0[i]).is_empty(),
            forall|i: int| 0 <= i < j ==> (#[trigger] dpre[i]) == d0[i],
            forall|i: int| n < i < d0.len() ==> (#[trigger] dpre[i]) == d0[i],
            dpre[n].wf(),
            dpre[n].is_empty(),
            forall|i: int|
                j <= i < n ==> (#[trigger] dpre[i]).wf() && dpre[i].capacity == d0[i].capacity,
            lmap(dpre, j, n) == seq_to_map(pairs.take(pos)),
            live_sum(dpre, j, n) == pos,
            dead_sum(dpre, j, n) == 0,
            levels_disjoint(dpre),
            self.data@ == dpre.update(jj, self.data@[jj]),
            self.data@[jj].wf(),
            self.data@[jj].capacity == d0[jj].capacity,
            self.data@[jj].live_seq() == pairs.subrange(pos, upto),
            self.data@[jj].keys@.len() == upto - pos,
        ensures
            forall|i: int| 0 <= i < jj ==> (#[trigger] self.data@[i]) == d0[i],
            forall|i: int| n < i < d0.len() ==> (#[trigger] self.data@[i]) == d0[i],
            self.data@[n].wf(),
            self.data@[n].is_empty(),
            forall|i: int|
                jj <= i < n ==> (#[trigger] self.data@[i]).wf() && self.data@[i].capacity == d0[i].capacity,
            lmap(self.data@, jj, n) == seq_to_map(pairs.take(upto)),
            live_sum(self.data@, jj, n) == upto,
            dead_sum(self.data@, jj, n) == d0[jj].capacity - (upto - pos),
            levels_disjoint(self.data@),
    {
        let dn = self.data@;
        let e = d0.len() as int;
        let fl = dn[jj];
        let chunk = pairs.subrange(pos, upto);
        let front = pairs.take(pos);
        assert(fl.as_map() == seq_to_map(chunk));
        assert(!fl.is_empty());
        assert(fl.live_count() == upto - pos);
        assert(fl.dead_count() == d0[jj].capacity - (upto - pos));
        assert(forall|i: int| jj < i < e ==> (#[trigger] dn[i]) == dpre[i]);
        assert(forall|i: int| j <= i < n ==> (#[trigger] dn[i]) == dpre[i]);
        // capacities of the processed range
        assert forall|i: int| jj <= i < n implies (#[trigger] self.data@[i]).wf()
            && self.data@[i].capacity == d0[i].capacity by {
            if i != jj {
                assert(dn[i] == dpre[i]);
            }
        }
        // the combined map of the processed range grows by the new window
        reveal_with_fuel(lmap, 2);
        reveal_with_fuel(live_sum, 2);
        reveal_with_fuel(dead_sum, 2);
        lemma_lmap_split(dn, jj, jj + 1, n);
        lemma_live_sum_split(dn, jj, jj + 1, n);
        lemma_dead_sum_split(dn, jj, jj + 1, n);
        lemma_lmap_equal(dn, dpre, j, n);
        lemma_sums_equal(dn, dpre, j, n);
        assert(jj + 1 == j);
        assert(lmap(dn, jj, jj + 1) =~= fl.as_map());
        assert(live_sum(dn, jj, jj + 1) == fl.live_count());
        assert(dead_sum(dn, jj, jj + 1) == fl.dead_count());
        crate::model::lemma_subrange_disjoint(pairs, 0, pos, pos, upto);
        assert(front == pairs.subrange(0, pos));
        lemma_seq_to_map_concat(front, chunk);
        assert(front + chunk =~= pairs.take(upto));
        crate::model::lemma_disjoint_union_comm(seq_to_map(front), seq_to_map(chunk));
        assert(lmap(dn, jj, n) =~= seq_to_map(pairs.take(upto)));
        // disjointness of the updated sequence
        lemma_lmap_contains(dpre, j, n);
        assert forall|x: int, y: int| 0 <= x < y < e implies (#[trigger] dn[x]).as_map().dom()
            .disjoint((#[trigger] dn[y]).as_map().dom()) by {
            if x != jj && y != jj {
                assert(dn[x] == dpre[x] && dn[y] == dpre[y]);
            } else {
                let other = if x == jj {
                    y
                } else {
                    x
                };
                Self::lemma_compact_disjoint_other(dn, dpre, d0, pairs, n, jj, j, pos, upto, other);
                if x == jj {
                    assert(dn[x].as_map().dom().disjoint(dn[y].as_map().dom()));
                } else {
                    assert(dn[y].as_map().dom().disjoint(dn[x].as_map().dom()));
                    assert forall|k: u64|
                        dn[x].as_map().dom().contains(k) implies !dn[y].as_map().dom().contains(
                    k) by {
                        assert(!dn[x].as_map().dom().contains(k) || !dn[y].as_map().dom().contains(
                            k,
                        ));
                    }
                }
            }
        }
    }

    /// The freshly filled level `jj` is key-disjoint from every other
    /// level of the redistribution state.
    proof fn lemma_compact_disjoint_other(
        dn: Seq<MapMultiSlot>,
        dpre: Seq<MapMultiSlot>,
        d0: Seq<MapMultiSlot>,
        pairs: Seq<(u64, u64)>,
        n: int,
        jj: int,
        j: int,
        pos: int,
        upto: int,
        other: int,
    )
        requires
            0 <= jj < j <= n < d0.len(),
            d0.len() == dpre.len() && d0.len() == dn.len(),
            0 <= other < d0.len(),
            other != jj,
            pairs_sorted(pairs),
            keys_distinct(pairs),
            0 <= pos < upto <= pairs.len(),
            seq_to_map(pairs) == d0[n].as_map(),
            all_wf(d0),
            levels_disjoint(d0),
            forall|i: int| 0 <= i < n ==> (#[trigger] d0[i]).is_empty(),
            forall|i: int| 0 <= i < j ==> (#[trigger] dpre[i]) == d0[i],
            forall|i: int| n < i < d0.len() ==> (#[trigger] dpre[i]) == d0[i],
            dpre[n].is_empty(),
            lmap(dpre, j, n) == seq_to_map(pairs.take(pos)),
            dn == dpre.update(jj, dn[jj]),
            dn[jj].as_map() == seq_to_map(pairs.subrange(pos, upto)),
        ensures
            dn[jj].as_map().dom().disjoint(dn[other].as_map().dom()),
    {
        let chunk = pairs.subrange(pos, upto);
        assert(dn[other] == dpre[other]);
        if other < jj {
            assert(dpre[other] == d0[other]);
            assert(d0[other].is_empty());
            assert(d0[other].live_seq() =~= Seq::<(u64, u64)>::empty());
            assert(dn[other].as_map().dom() =~= Set::<u64>::empty());
        } else if other == n {
            assert(dpre[n].live_seq() =~= Seq::<(u64, u64)>::empty());
            assert(dn[other].as_map().dom() =~= Set::<u64>::empty());
        } else if other > n {
            assert(dpre[other] == d0[other]);
            assert forall|k: u64|
                dn[jj].as_map().dom().contains(k) implies !dn[other].as_map().dom().contains(
                k,
            ) by {
                crate::model::lemma_seq_to_map_contains(chunk, k);
                let i = choose|i: int| 0 <= i < chunk.len() && (#[trigger] chunk[i]).0 == k;
                crate::model::lemma_seq_to_map_contains(pairs, k);
                assert(pairs[pos + i].0 == k);
                assert(d0[n].as_map().dom().contains(k));
                assert(d0[n].as_map().dom().disjoint(d0[other].as_map().dom()));
            }
        } else {
            // a previously processed level holds an earlier window
            crate::model::lemma_subrange_disjoint(pairs, 0, pos, pos, upto);
            lemma_lmap_contains(dpre, j, n);
            assert forall|k: u64|
                dn[jj].as_map().dom().contains(k) implies !dn[other].as_map().dom().contains(
                k,
            ) by {
                if dpre[other].as_map().contains_key(k) {
                    assert(lmap(dpre, j, n).contains_key(k));
                    assert(seq_to_map(pairs.take(pos)).dom().contains(k));
                    assert(seq_to_map(pairs.subrange(0, pos)).dom().contains(k)) by {
                        assert(pairs.take(pos) == pairs.subrange(0, pos));
                    }
                    assert(seq_to_map(chunk).dom().contains(k));
                }
            }
        }
    }

    /// Tombstone compaction: when the freshly merged level `n` reserves
    /// far more cells than it holds, redistribute its live entries down
    /// into the (empty) lower tiers, walking from the largest downward.
    /// A triggered pass reclaims all of the level's slack but the dead
    /// room of its final target, which is at most one hot slot.
    /// Whether the freshly merged level `n` trips the compaction pass:
    /// its slack exceeds one hot slot and the configured fraction of its
    /// reserved capacity.
    pub(crate) open spec fn compact_trigger(&self, n: int) -> bool {
        let cap = self.data@[n].capacity as int;
        let local = cap - self.data@[n].keys@.len();
        local > self.slot.spec_max() && local * self.tombs_den > cap * self.tombs_num
    }

    #[verifier::rlimit(100)]
    #[verifier::spinoff_prover]
    pub(crate) fn check_tombs(&mut self, n: usize)
        requires
            old(self).inv_core(),
            old(self).slot@.len() == 0,
            n < old(self).data@.len(),
            !old(self).data@[n as int].is_empty(),
            forall|i: int| 0 <= i < n ==> (#[trigger] old(self).data@[i]).is_empty(),
            old(self).data@[n as int].live_count() == old(self).data@[n as int].keys@.len(),
        ensures
            final(self).inv_core(),
            final(self).slot == old(self).slot,
            final(self).data@.len() == old(self).data@.len(),
            forall|i: int|
                0 <= i < final(self).data@.len() ==> (#[trigger] final(self).data@[i]).capacity
                    == old(self).data@[i].capacity,
            final(self).full_map() == old(self).full_map(),
            live_sum(final(self).data@, 0, final(self).data@.len() as int) == live_sum(
                old(self).data@,
                0,
                old(self).data@.len() as int,
            ),
            final(self).len == old(self).len,
            final(self).tombs <= old(self).tombs,
            final(self).tombs_num == old(self).tombs_num,
            final(self).tombs_den == old(self).tombs_den,
            !old(self).compact_trigger(n as int) ==> *final(self) == *old(self),
            old(self).compact_trigger(n as int) ==> final(self).tombs <= old(self).tombs - ((
            old(self).data@[n as int].capacity - old(self).data@[n as int].keys@.len()) - old(
                self,
            ).slot.spec_max()),
            old(self).compact_trigger(n as int) ==> final(self).data@[n as int].is_empty(),
            old(self).compact_trigger(n as int) ==> forall|i: int|
                0 <= i < n ==> exists|a: int, b: int|
                    0 <= a <= b <= old(self).data@[n as int].live_seq().len() && (
                    #[trigger] final(self).data@[i]).live_seq() == old(
                        self,
                    ).data@[n as int].live_seq().subrange(a, b),
            old(self).compact_trigger(n as int) ==> forall|i: int|
                0 <= i < n ==> (#[trigger] final(self).data@[i]).is_empty()
                    || final(self).data@[i].keys@.len() == final(self).data@[i].capacity
                    || final(self).data@[i].capacity - final(self).data@[i].keys@.len() <= old(
                    self,
                ).slot.spec_max(),
            old(self).compact_trigger(n as int) ==> forall|i1: int, i2: int|
                0 <= i1 < i2 < n && !(#[trigger] final(self).data@[i1]).is_empty() && !(
                #[trigger] final(self).data@[i2]).is_empty()
                    ==> final(self).data@[i2].live_seq().last().0
                    < final(self).data@[i1].live_seq().first().0,
    {
        let ghost d0 = old(self).data@;
        let ghost e = d0.len() as int;
        let ghost sz0 = old(self).slot.spec_max();

        let sz = self.slot.max_size();
        let cap_n = self.data[n].capacity;
        let filled = self.data[n].keys.len();
        let local_tombs = cap_n - filled;
        if local_tombs <= sz {
            return ;
        }
        proof {
            let a = local_tombs as int;
            let b = self.tombs_den as int;
            let c = cap_n as int;
            let d = self.tombs_num as int;
            assert(a * b < 0x100000000000000000000000000000000int) by (nonlinear_arith)
                requires
                    0 <= a < 0x10000000000000000,
                    0 <= b < 0x10000000000000000,
            ;
            assert(c * d < 0x100000000000000000000000000000000int) by (nonlinear_arith)
                requires
                    0 <= c < 0x10000000000000000,
                    0 <= d < 0x10000000000000000,
            ;
        }
        let wide = (local_tombs as u128) * (self.tombs_den as u128);
        let bound = (cap_n as u128) * (self.tombs_num as u128);
        if wide <= bound {
            return ;
        }
        proof {
            // a triggered pass never happens on tier 0: its slack is
            // bounded by the base size
            vstd::arithmetic::power2::lemma2_to64();
            if n == 0 {
                assert(d0[0].capacity == sz0 * 1);
            }
            assert(n >= 1);
            lemma_cap_sum_pow2(d0, sz0, n as int);
            let p = vstd::arithmetic::power2::pow2(n as nat) as int;
            assert(sz0 * p - sz0 == sz0 * (p - 1)) by (nonlinear_arith);
            assert(cap_sum(d0, 0, n as int) == cap_n - sz0);
            d0[n as int].lemma_live_sorted();
        }
        let ghost pairs0 = d0[n as int].live_seq();
        let pairs = {
            let lvl = &mut self.data[n];
            lvl.take_live()
        };
        let total = pairs.len();
        let mut pos: usize = 0;
        let mut slack: usize = 0;
        let mut done = false;
        let mut j: usize = n;
        proof {
            assert(lmap(self.data@, n as int, n as int) =~= seq_to_map(
                pairs@.take(0),
            )) by {
                assert(pairs@.take(0) =~= Seq::<(u64, u64)>::empty());
            }
        }
        while j > 0 && !done
            invariant
                j <= n < e,
                self.data@.len() == e,
                d0.len() == e,
                self.slot == old(self).slot,
                self.slot@.len() == 0,
                self.slot.wf(),
                1 <= sz0 <= usize::MAX as int / 4,
                sz == sz0,
                self.len == old(self).len,
                self.tombs == old(self).tombs,
                self.tombs_num == old(self).tombs_num,
                self.tombs_den == old(self).tombs_den,
                self.tombs_den >= 1,
                pairs@ == pairs0,
                pairs_sorted(pairs@),
                keys_distinct(pairs@),
                total == pairs@.len(),
                total == d0[n as int].keys@.len(),
                cap_n == d0[n as int].capacity,
                local_tombs == cap_n - total,
                pos <= total,
                slack <= sz0,
                1 <= total,
                all_wf(d0),
                levels_disjoint(d0),
                forall|i: int| 0 <= i < n ==> (#[trigger] d0[i]).is_empty(),
                seq_to_map(pairs@) == d0[n as int].as_map(),
                caps_law(d0, sz0),
                cap_sum(d0, 0, e) <= usize::MAX as int / 2,
                forall|i: int| 0 <= i < j ==> (#[trigger] self.data@[i]) == d0[i],
                forall|i: int| n < i < e ==> (#[trigger] self.data@[i]) == d0[i],
                self.data@[n as int].wf(),
                self.data@[n as int].is_empty(),
                self.data@[n as int].capacity == cap_n,
                forall|i: int|
                    j <= i < n ==> (#[trigger] self.data@[i]).wf() && self.data@[i].capacity
                        == d0[i].capacity,
                lmap(self.data@, j as int, n as int) == seq_to_map(pairs@.take(pos as int)),
                live_sum(self.data@, j as int, n as int) == pos,
                dead_sum(self.data@, j as int, n as int) == slack,
                !done ==> slack == 0,
                !done ==> pos < total,
                !done ==> total - pos < cap_sum(d0, 0, j as int),
                done ==> pos == total,
                levels_disjoint(self.data@),
                pairs0 == d0[n as int].live_seq(),
                forall|i: int|
                    j <= i < n ==> exists|a: int, b: int|
                        0 <= a <= b <= pos && b - a == self.data@[i].keys@.len() && (
                        #[trigger] self.data@[i]).live_seq() == pairs@.subrange(a, b),
                forall|i: int|
                    j <= i < n ==> (#[trigger] self.data@[i]).is_empty() || self.data@[i].keys@.len()
                        == self.data@[i].capacity || self.data@[i].capacity
                        - self.data@[i].keys@.len() <= sz0,
                forall|i1: int, i2: int|
                    j <= i1 < i2 < n && !(#[trigger] self.data@[i1]).is_empty() && !(
                    #[trigger] self.data@[i2]).is_empty() ==> self.data@[i2].live_seq().last().0
                        < self.data@[i1].live_seq().first().0,
            decreases j,
        {
            let jj = j - 1;
            let cap_j = self.data[jj].capacity;
            let remaining = total - pos;
            proof {
                assert(self.data@[jj as int] == d0[jj as int]);
                assert(d0[jj as int].wf());
                assert(cap_j == sz0 * vstd::arithmetic::power2::pow2(jj as nat));
                lemma_cap_sum_pow2(d0, sz0, jj as int);
                let p = vstd::arithmetic::power2::pow2(jj as nat) as int;
                vstd::arithmetic::power2::lemma_pow2_pos(jj as nat);
                assert(sz0 * p - sz0 == sz0 * (p - 1) && sz0 * p >= 1) by (nonlinear_arith)
                    requires
                        sz0 >= 1,
                        p >= 1,
                ;
                assert(cap_sum(d0, 0, jj as int) == cap_j - sz0);
                assert(cap_j >= 1);
            }
            if remaining >= cap_j || cap_j - remaining <= sz {
                let upto = if remaining >= cap_j {
                    pos + cap_j
                } else {
                    total
                };
                let chunk = crate::merge::copy_range(&pairs, pos, upto);
                proof {
                    assert forall|a: int, b: int| 0 <= a < b < chunk@.len() implies (
                    #[trigger] chunk@[a]).0 < (#[trigger] chunk@[b]).0 by {
                        assert(chunk@[a] == pairs@[pos + a] && chunk@[b] == pairs@[pos + b]);
                    }
                    assert(chunk@.len() <= cap_j);
                }
                let ghost dpre = self.data@;
                let ghost pos0w = pos;
                let lvl = &mut self.data[jj];
                lvl.fill(chunk);
                proof {
                    self.lemma_compact_fill_step(
                        d0,
                        dpre,
                        pairs@,
                        n as int,
                        jj as int,
                        j as int,
                        pos as int,
                        upto as int,
                    );
                }
                if remaining >= cap_j {
                    pos = pos + cap_j;
                    if pos == total {
                        done = true;
                    }
                } else {
                    slack = cap_j - remaining;
                    pos = total;
                    done = true;
                }
                proof {
                    if !done {
                        lemma_cap_sum_split(d0, 0, jj as int, jj as int + 1);
                        reveal_with_fuel(cap_sum, 2);
                        assert(cap_sum(d0, jj as int, jj as int + 1) == d0[jj as int].capacity);
                        assert(total - pos < cap_sum(d0, 0, jj as int));
                    }
                    // the filled tier holds one consecutive window of the
                    // entries being pushed down; the others are untouched
                    assert forall|i: int| jj <= i < n implies exists|a: int, b: int|
                        0 <= a <= b <= pos && b - a == self.data@[i].keys@.len() && (
                        #[trigger] self.data@[i]).live_seq() == pairs@.subrange(a, b) by {
                        if i == jj {
                            assert(self.data@[i].live_seq() == pairs@.subrange(
                                pos0w as int,
                                upto as int,
                            ));
                        } else {
                            assert(self.data@[i] == dpre[i]);
                        }
                    }
                    // the freshly filled tier holds larger keys than every
                    // tier filled before it
                    assert forall|i1: int, i2: int|
                        jj <= i1 < i2 < n && !(#[trigger] self.data@[i1]).is_empty() && !(
                        #[trigger] self.data@[i2]).is_empty() implies self.data@[i2].live_seq()
                        .last().0 < self.data@[i1].live_seq().first().0 by {
                        if i1 == jj {
                            assert(self.data@[i2] == dpre[i2]);
                            let (a, b) = choose|a: int, b: int|
                                0 <= a <= b <= pos0w && b - a == dpre[i2].keys@.len() && (
                                #[trigger] dpre[i2].live_seq()) == pairs@.subrange(a, b);
                            assert(b - a >= 1);
                            assert(self.data@[i2].live_seq().last() == pairs@[b - 1]);
                            assert(self.data@[i1].live_seq().first() == pairs@[pos0w as int]);
                            assert(pairs@[b - 1].0 < pairs@[pos0w as int].0);
                        } else {
                            assert(self.data@[i1] == dpre[i1] && self.data@[i2] == dpre[i2]);
                        }
                    }
                }
            } else {
                proof {
                    assert(remaining < cap_j - sz0);
                    assert(total - pos < cap_sum(d0, 0, jj as int));
                    lemma_lmap_split(self.data@, jj as int, j as int, n as int);
                    lemma_live_sum_split(self.data@, jj as int, j as int, n as int);
                    lemma_dead_sum_split(self.data@, jj as int, j as int, n as int);
                    reveal_with_fuel(lmap, 2);
                    reveal_with_fuel(live_sum, 2);
                    reveal_with_fuel(dead_sum, 2);
                    assert(d0[jj as int].as_map() =~= Map::<u64, u64>::empty()) by {
                        assert(d0[jj as int].live_seq() =~= Seq::<(u64, u64)>::empty());
                    }
                    assert(lmap(self.data@, jj as int, n as int) =~= seq_to_map(
                        pairs@.take(pos as int),
                    ));
                    // a skipped tier stays empty: its live entries are the
                    // empty window
                    assert(self.data@[jj as int].live_seq() =~= pairs@.subrange(0, 0));
                    assert forall|i: int| jj <= i < n implies exists|a: int, b: int|
                        0 <= a <= b <= pos && b - a == self.data@[i].keys@.len() && (
                        #[trigger] self.data@[i]).live_seq() == pairs@.subrange(a, b) by {
                        if i == jj {
                            assert(self.data@[i].live_seq() == pairs@.subrange(0, 0));
                        }
                    }
                }
            }
            j = jj;
        }
        proof {
            if !done {
                lemma_sums_nonneg(d0, 0, 0);
                assert(pos == total);
            }
        }
        proof {
            assert(pairs@.take(pos as int) =~= pairs0);
            self.lemma_compact_finish(d0, pairs0, n as int, j as int, slack as int);
            assert(self.slot.as_map() =~= Map::<u64, u64>::empty()) by {
                assert(self.slot@ =~= Seq::<(u64, u64)>::empty());
            }
            assert(caps_law(self.data@, sz0)) by {
                assert forall|i: int| 0 <= i < e implies (#[trigger] self.data@[i]).capacity == sz0
                    * vstd::arithmetic::power2::pow2(i as nat) by {
                    assert(self.data@[i].capacity == d0[i].capacity);
                }
            }
            lemma_cap_sum_equal(self.data@, d0, 0, e);
            assert(d0[n as int].dead_count() == local_tombs);
            assert forall|i: int| 0 <= i < e implies self.slot.as_map().dom().disjoint(
                (#[trigger] self.data@[i]).as_map().dom(),
            ) by {
                assert(self.slot.as_map().dom() =~= Set::<u64>::empty());
            }
            assert(self.full_map() =~= old(self).full_map());
            // the engine accounts at least the big level's slack
            reveal_with_fuel(dead_sum, 2);
            lemma_dead_sum_split(d0, 0, n as int, e);
            lemma_dead_sum_split(d0, n as int, n as int + 1, e);
            lemma_sum_empty(d0, 0, n as int);
            lemma_sums_nonneg(d0, n as int + 1, e);
            assert(dead_sum(d0, n as int, n as int + 1) == d0[n as int].dead_count());
            assert(old(self).tombs >= local_tombs);
        }
        self.tombs = self.tombs - local_tombs + slack;
    }

    /// Merge the full hot slot and the occupied levels `0 .. n` into the
    /// empty level `n`, emptying every source.  Both the key set and the
    /// dead-cell account of the engine are preserved.
    pub(crate) fn merge_into(&mut self, n: usize)
        requires
            old(self).inv_core(),
            old(self).slot@.len() == old(self).slot.spec_max(),
            n < old(self).data@.len(),
            old(self).data@[n as int].is_empty(),
            forall|i: int| 0 <= i < n ==> !(#[trigger] old(self).data@[i]).is_empty(),
            old(self).slot@.len() + live_sum(old(self).data@, 0, old(self).data@.len() as int)
                <= usize::MAX as int / 2,
        ensures
            final(self).inv_core(),
            final(self).slot@.len() == 0,
            final(self).slot.spec_max() == old(self).slot.spec_max(),
            final(self).data@.len() == old(self).data@.len(),
            forall|i: int| 0 <= i < n ==> (#[trigger] final(self).data@[i]).is_empty(),
            !final(self).data@[n as int].is_empty(),
            final(self).data@[n as int].live_count() == final(self).data@[n as int].keys@.len(),
            forall|i: int|
                n < i < final(self).data@.len() ==> (#[trigger] final(self).data@[i]) == old(
                    self,
                ).data@[i],
            forall|i: int|
                0 <= i < final(self).data@.len() ==> (#[trigger] final(self).data@[i]).capacity
                    == old(self).data@[i].capacity,
            final(self).full_map() == old(self).full_map(),
            live_sum(final(self).data@, 0, final(self).data@.len() as int) == old(self).slot@.len()
                + live_sum(old(self).data@, 0, old(self).data@.len() as int),
            final(self).tombs == old(self).tombs,
            final(self).len == old(self).len,
            final(self).tombs_num == old(self).tombs_num,
            final(self).tombs_den == old(self).tombs_den,
    {
        broadcast use vstd::seq_lib::group_to_multiset_ensures;

        let ghost d0 = old(self).data@;
        let ghost e = d0.len() as int;
        let ghost smap0 = old(self).slot.as_map();
        let ghost sz0 = old(self).slot.spec_max();
        let ghost slot_len0 = old(self).slot@.len() as int;

        let pairs = self.slot.take_entries();
        let mut acc = msort_pairs(pairs);
        proof {
            lemma_multiset_keys_distinct(pairs@, acc@);
            lemma_seq_to_map_multiset(pairs@, acc@);
            assert(seq_to_map(acc@) =~= smap0.union_prefer_right(lmap(d0, 0, 0)));
            assert forall|j: int| 0 <= j < e implies seq_to_map(acc@).dom().disjoint(
                (#[trigger] d0[j]).as_map().dom(),
            ) by {
                assert(smap0.dom().disjoint(d0[j].as_map().dom()));
            }
        }
        let mut i: usize = 0;
        while i < n
            invariant
                i <= n < e,
                self.data@.len() == e,
                d0.len() == e,
                self.slot.wf(),
                self.slot@.len() == 0,
                self.slot.spec_max() == sz0,
                1 <= sz0 <= usize::MAX as int / 4,
                self.tombs == old(self).tombs,
                self.len == old(self).len,
                self.tombs_num == old(self).tombs_num,
                self.tombs_den == old(self).tombs_den,
                all_wf(d0),
                levels_disjoint(d0),
                forall|j: int| 0 <= j < n ==> !(#[trigger] d0[j]).is_empty(),
                slot_len0 + live_sum(d0, 0, e) <= usize::MAX as int / 2,
                forall|j: int| i <= j < e ==> (#[trigger] self.data@[j]) == d0[j],
                forall|j: int|
                    0 <= j < i ==> (#[trigger] self.data@[j]).wf() && self.data@[j].is_empty()
                        && self.data@[j].capacity == d0[j].capacity && self.data@[j].as_map()
                        == Map::<u64, u64>::empty(),
                pairs_le(acc@),
                keys_distinct(acc@),
                seq_to_map(acc@) == smap0.union_prefer_right(lmap(d0, 0, i as int)),
                acc@.len() == slot_len0 + live_sum(d0, 0, i as int),
                forall|j: int|
                    i <= j < e ==> seq_to_map(acc@).dom().disjoint(
                        (#[trigger] d0[j]).as_map().dom(),
                    ),
            decreases n - i,
        {
            broadcast use vstd::seq_lib::group_to_multiset_ensures;

            let ghost acc0 = acc@;
            proof {
                assert(self.data@[i as int] == d0[i as int]);
                assert(d0[i as int].wf());
            }
            let lvl = &mut self.data[i];
            let live = lvl.take_live();
            proof {
                assert(live@ == d0[i as int].live_seq());
                assert(seq_to_map(live@) == d0[i as int].as_map());
                d0[i as int].lemma_live_sorted();
                // the concatenation has distinct keys: acc and level i are
                // key-disjoint
                assert(seq_to_map(acc0).dom().disjoint(seq_to_map(live@).dom()));
                lemma_concat_distinct(acc0, live@);
                assert(acc0.len() + live@.len() <= usize::MAX as int) by {
                    reveal_with_fuel(live_sum, 2);
                    lemma_live_sum_split(d0, 0, i as int, e);
                    lemma_live_sum_split(d0, i as int, i as int + 1, e);
                    lemma_sums_nonneg(d0, 0, i as int);
                    lemma_sums_nonneg(d0, i as int + 1, e);
                    assert(live_sum(d0, i as int, i as int + 1) == d0[i as int].live_count());
                }
            }
            acc = merge_pairs(acc, live);
            proof {
                lemma_concat_multiset(acc0, live@);
                lemma_multiset_keys_distinct(acc0 + live@, acc@);
                lemma_seq_to_map_multiset(acc0 + live@, acc@);
                lemma_seq_to_map_concat(acc0, live@);
                // the accumulated map now covers levels 0 ..= i
                assert(seq_to_map(acc@) =~= smap0.union_prefer_right(
                    lmap(d0, 0, i as int + 1),
                )) by {
                    lemma_lmap_split(d0, 0, i as int, i as int + 1);
                    reveal_with_fuel(lmap, 2);
                    assert(lmap(d0, i as int, i as int + 1) =~= d0[i as int].as_map());
                }
                assert(acc@.len() == slot_len0 + live_sum(d0, 0, i as int + 1)) by {
                    reveal_with_fuel(live_sum, 2);
                    lemma_live_sum_split(d0, 0, i as int, i as int + 1);
                    assert(live_sum(d0, i as int, i as int + 1) == d0[i as int].live_count());
                }
                assert forall|j: int| i + 1 <= j < e implies seq_to_map(acc@).dom().disjoint(
                    (#[trigger] d0[j]).as_map().dom(),
                ) by {
                    assert(seq_to_map(acc@).dom() =~= seq_to_map(acc0).dom() + seq_to_map(
                        live@,
                    ).dom());
                    assert(seq_to_map(acc0).dom().disjoint(d0[j].as_map().dom()));
                    assert(seq_to_map(live@).dom().disjoint(d0[j].as_map().dom()));
                    lemma_union_disjoint(
                        seq_to_map(acc0).dom(),
                        seq_to_map(live@).dom(),
                        d0[j].as_map().dom(),
                    );
                }
            }
            i += 1;
        }
        proof {
            assert(pairs_sorted(acc@)) by {
                assert forall|x: int, y: int|
                    0 <= x < y < acc@.len() implies (#[trigger] acc@[x]).0 < (
                #[trigger] acc@[y]).0 by {
                    assert(acc@[x].0 <= acc@[y].0);
                    assert(acc@[x].0 != acc@[y].0);
                }
            }
            // the merged entries fit the destination tier
            lemma_sums_nonneg(d0, 0, n as int);
            lemma_cap_sum_pow2(d0, sz0, n as int);
            assert(d0[n as int].capacity == sz0 * vstd::arithmetic::power2::pow2(n as nat));
            let p = vstd::arithmetic::power2::pow2(n as nat) as int;
            assert(sz0 + sz0 * (p - 1) == sz0 * p) by (nonlinear_arith);
            assert(acc@.len() <= d0[n as int].capacity);
        }
        let ghost dmid = self.data@;
        let ghost accs = acc@;
        let lvl = &mut self.data[n];
        lvl.fill(acc);
        proof {
            let dfin = self.data@;
            let fl = dfin[n as int];
            assert(dfin =~= dmid.update(n as int, fl));
            assert(fl.as_map() == seq_to_map(accs));
            assert(fl.live_count() == accs.len());
            // well-formedness of the new level sequence
            assert(all_wf(dfin));
            assert(caps_law(dfin, sz0)) by {
                assert forall|j: int| 0 <= j < e implies (#[trigger] dfin[j]).capacity == sz0
                    * vstd::arithmetic::power2::pow2(j as nat) by {
                    assert(dfin[j].capacity == d0[j].capacity);
                }
            }
            // maps: level n now holds the old slot plus old levels 0 .. n
            assert(forall|j: int| 0 <= j < n ==> (#[trigger] dfin[j]).as_map()
                == Map::<u64, u64>::empty());
            assert(forall|j: int| n < j < e ==> (#[trigger] dfin[j]) == d0[j]);
            lemma_lmap_contains(d0, 0, n as int);
            assert(levels_disjoint(dfin)) by {
                assert(fl.as_map().dom() =~= seq_to_map(accs).dom());
                assert forall|x: int, y: int| 0 <= x < y < e implies (#[trigger] dfin[x]).as_map()
                    .dom().disjoint((#[trigger] dfin[y]).as_map().dom()) by {
                    if x < n as int {
                        assert(dfin[x].as_map().dom() =~= Set::<u64>::empty());
                    } else if x == n as int {
                        assert(dfin[y] == d0[y]);
                        assert(seq_to_map(accs).dom().disjoint(d0[y].as_map().dom()));
                    } else {
                        assert(dfin[x] == d0[x] && dfin[y] == d0[y]);
                    }
                }
            }
            // combined map unchanged
            assert(self.full_map() =~= old(self).full_map()) by {
                lemma_lmap_split(dfin, 0, n as int, e);
                lemma_lmap_split(dfin, n as int, n as int + 1, e);
                lemma_lmap_all_empty(dfin, 0, n as int);
                reveal_with_fuel(lmap, 2);
                assert(lmap(dfin, n as int, n as int + 1) =~= fl.as_map());
                lemma_lmap_equal(dfin, d0, n as int + 1, e);
                assert(lmap(dfin, 0, e) =~= seq_to_map(accs).union_prefer_right(
                    lmap(d0, n as int + 1, e),
                ));
                lemma_lmap_split(d0, 0, n as int, e);
                lemma_lmap_split(d0, n as int, n as int + 1, e);
                assert(d0[n as int].as_map() =~= Map::<u64, u64>::empty()) by {
                    assert(d0[n as int].live_seq() =~= Seq::<(u64, u64)>::empty());
                }
                assert(lmap(d0, n as int, n as int + 1) =~= Map::<u64, u64>::empty());
                assert(self.slot.as_map() =~= Map::<u64, u64>::empty());
            }
            // the sums
            reveal_with_fuel(live_sum, 2);
            reveal_with_fuel(dead_sum, 2);
            lemma_sum_empty(dfin, 0, n as int);
            lemma_sums_equal(dfin, d0, n as int + 1, e);
            lemma_live_sum_split(dfin, 0, n as int, e);
            lemma_live_sum_split(dfin, n as int, n as int + 1, e);
            lemma_dead_sum_split(dfin, 0, n as int, e);
            lemma_dead_sum_split(dfin, n as int, n as int + 1, e);
            lemma_live_sum_split(d0, 0, n as int, e);
            lemma_live_sum_split(d0, n as int, n as int + 1, e);
            lemma_dead_sum_split(d0, 0, n as int, e);
            lemma_dead_sum_split(d0, n as int, n as int + 1, e);
            assert(live_sum(dfin, n as int, n as int + 1) == fl.live_count());
            assert(dead_sum(dfin, n as int, n as int + 1) == fl.dead_count());
            assert(live_sum(d0, n as int, n as int + 1) == 0 && dead_sum(d0, n as int, n as int + 1)
                == 0) by {
                assert(d0[n as int].live_seq() =~= Seq::<(u64, u64)>::empty());
            }
            lemma_dead_sum_occupied(d0, 0, n as int);
            assert(fl.dead_count() == dead_sum(d0, 0, n as int));
            assert(dead_sum(dfin, 0, e) == dead_sum(d0, 0, e));
            // capacity sums unchanged
            lemma_cap_sum_equal(dfin, d0, 0, e);
        }
    }
}

} // verus!
