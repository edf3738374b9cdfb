//! The set engine: the map with a unit payload.  Every operation defers
//! to the map and every property is inherited from it.

use vstd::prelude::*;

use crate::civmap::CivMap;

verus! {

pub struct CivSet {
    pub(crate) map: CivMap,
}

impl View for CivSet {
    type V = Set<u64>;

    closed spec fn view(&self) -> Set<u64> {
        self.map@.dom()
    }
}

impl CivSet {
    pub closed spec fn wf(&self) -> bool {
        self.map.wf()
    }

    pub closed spec fn spec_tombs(&self) -> int {
        self.map.spec_tombs()
    }

    pub closed spec fn slot_capacity(&self) -> int {
        self.map.slot_capacity()
    }

    /// Hot slot plus all reserved tier capacities.
    pub closed spec fn spec_max_capacity(&self) -> int {
        self.map.spec_max_capacity()
    }

    /// Number of tiers the cascade currently has, empty ones included.
    pub closed spec fn levels_count(&self) -> int {
        self.map.levels_count()
    }

    /// Reserved capacity of tier `i`.
    pub closed spec fn level_capacity(&self, i: int) -> int {
        self.map.level_capacity(i)
    }

    /// Live keys of tier `i`.
    pub closed spec fn level_live(&self, i: int) -> int {
        self.map.level_live(i)
    }

    /// Whether tier `i` holds any entries.
    pub closed spec fn level_occupied(&self, i: int) -> bool {
        self.map.level_occupied(i)
    }

    /// Occupied tiers among the first `i`.
    pub open spec fn occupied_walk(&self, i: int) -> int
        decreases i,
    {
        if i <= 0 {
            0
        } else {
            self.occupied_walk(i - 1) + if self.level_occupied(i - 1) {
                1int
            } else {
                0int
            }
        }
    }

    /// The set walks its tiers as the underlying map does.
    proof fn lemma_occupied_walk(&self, i: int)
        ensures
            self.occupied_walk(i) == self.map.occupied_walk(i),
        decreases i,
    {
        if i > 0 {
            self.lemma_occupied_walk(i - 1);
        }
    }

    /// Bridge for sibling modules: the public opaque specs in terms of
    /// the crate-visible state.
    pub(crate) proof fn lemma_specs_set(&self)
        ensures
            self.wf() == self.map.wf(),
            self.slot_capacity() == self.map.slot_capacity(),
            self.spec_tombs() == self.map.spec_tombs(),
            self@ == self.map@.dom(),
    {
    }

    /// A fresh set with the canonical hot-slot capacity of 64.
    pub fn new() -> (r: CivSet)
        ensures
            r.wf(),
            r@ == Set::<u64>::empty(),
            r.spec_tombs() == 0,
            r.slot_capacity() == 64,
            r.levels_count() == 0,
    {
        let r = CivSet { map: CivMap::new() };
        proof {
            assert(r@ =~= Set::<u64>::empty());
        }
        r
    }

    /// A fresh set with a chosen hot-slot capacity and tombstone
    /// threshold.
    pub fn with_config(slot_size: usize, tombs_num: usize, tombs_den: usize) -> (r: CivSet)
        requires
            1 <= slot_size <= usize::MAX / 4,
            tombs_den >= 1,
        ensures
            r.wf(),
            r@ == Set::<u64>::empty(),
            r.spec_tombs() == 0,
            r.slot_capacity() == slot_size,
            r.levels_count() == 0,
    {
        let r = CivSet { map: CivMap::with_config(slot_size, tombs_num, tombs_den) };
        proof {
            assert(r@ =~= Set::<u64>::empty());
        }
        r
    }

    /// Drop everything, keeping the configuration.
    pub fn clear(&mut self)
        requires
            old(self).wf(),
        ensures
            final(self).wf(),
            final(self)@ == Set::<u64>::empty(),
            final(self).spec_tombs() == 0,
            final(self).slot_capacity() == old(self).slot_capacity(),
            final(self).levels_count() == 0,
    {
        self.map.clear();
        proof {
            assert(self@ =~= Set::<u64>::empty());
        }
    }

    pub fn contains(&self, k: &u64) -> (r: bool)
        requires
            self.wf(),
        ensures
            r == self@.contains(*k),
    {
        self.map.contains(k)
    }

    /// Insert `k`; `true` means the key is newly inserted.
    pub fn insert(&mut self, k: u64) -> (r: bool)
        requires
            old(self).wf(),
            old(self)@.len() + old(self).spec_tombs() + old(self).slot_capacity() < usize::MAX
                as int / 4,
        ensures
            final(self).wf(),
            final(self)@ == old(self)@.insert(k),
            r == !old(self)@.contains(k),
            final(self).spec_tombs() <= old(self).spec_tombs(),
            final(self).slot_capacity() == old(self).slot_capacity(),
            final(self).levels_count() >= old(self).levels_count(),
    {
        let prior = self.map.insert(k, 0);
        proof {
            assert(self@ =~= old(self)@.insert(k));
        }
        prior.is_none()
    }

    pub fn len(&self) -> (r: usize)
        requires
            self.wf(),
        ensures
            r == self@.len(),
    {
        self.map.len()
    }

    pub fn tombs(&self) -> (r: usize)
        requires
            self.wf(),
        ensures
            r == self.spec_tombs(),
    {
        self.map.tombs()
    }

    /// Remove `k`; `true` means the key was present.
    pub fn remove(&mut self, k: &u64) -> (r: bool)
        requires
            old(self).wf(),
            old(self).spec_tombs() < usize::MAX as int,
        ensures
            final(self).wf(),
            final(self)@ == old(self)@.remove(*k),
            r == old(self)@.contains(*k),
            final(self).slot_capacity() == old(self).slot_capacity(),
            old(self).spec_tombs() <= final(self).spec_tombs(),
            final(self).spec_tombs() <= old(self).spec_tombs() + 1,
            !r ==> *final(self) == *old(self),
    {
        let rr = self.map.remove(k);
        proof {
            assert(self@ =~= old(self)@.remove(*k));
        }
        rr.is_some()
    }

    /// Release spare allocated room on every tier.
    pub fn shrink_to_fit(&mut self)
        requires
            old(self).wf(),
        ensures
            final(self).wf(),
            final(self)@ == old(self)@,
            final(self).spec_tombs() == old(self).spec_tombs(),
            final(self).slot_capacity() == old(self).slot_capacity(),
    {
        self.map.shrink_to_fit();
    }

    /// Recount the live keys by walking the hot slot and every level.
    pub fn check_len(&self) -> (r: usize)
        requires
            self.wf(),
        ensures
            r == self@.len(),
    {
        self.map.check_len()
    }

    /// The number of cells the engine has reserved.
    pub fn max_capacity(&self) -> (r: usize)
        requires
            self.wf(),
        ensures
            r == self.spec_max_capacity(),
    {
        self.map.max_capacity()
    }

    /// The room actually allocated for keys.
    pub fn real_capacity(&self) -> (r: usize)
        requires
            self.wf(),
        ensures
            r >= self.slot_capacity(),
    {
        self.map.real_capacity()
    }

    /// One row for each occupied tier: index, capacity, live and dead
    /// counts.
    pub fn statistics(&self) -> (r: Vec<(usize, usize, usize, usize)>)
        requires
            self.wf(),
        ensures
            r@.len() == self.occupied_walk(self.levels_count()),
            forall|m: int|
                0 <= m < r@.len() ==> {
                    let row = #[trigger] r@[m];
                    &&& row.0 < self.levels_count()
                    &&& self.level_occupied(row.0 as int)
                    &&& row.1 == self.level_capacity(row.0 as int)
                    &&& row.2 == self.level_live(row.0 as int)
                    &&& row.3 == self.level_capacity(row.0 as int) - self.level_live(row.0 as int)
                },
            forall|m1: int, m2: int|
                0 <= m1 < m2 < r@.len() ==> (#[trigger] r@[m1]).0 < (#[trigger] r@[m2]).0,
            forall|i: int|
                0 <= i < self.levels_count() && self.level_occupied(i) ==> exists|m: int|
                    0 <= m < r@.len() && (#[trigger] r@[m]).0 == i,
    {
        proof {
            self.lemma_occupied_walk(self.levels_count());
        }
        self.map.statistics()
    }

    /// The live keys, each once, in no promised order.
    pub fn filtered_iter(&self) -> (r: Vec<u64>)
        requires
            self.wf(),
        ensures
            r@.len() == self@.len(),
            forall|m: int| 0 <= m < r@.len() ==> self@.contains(#[trigger] r@[m]),
            forall|m1: int, m2: int| 0 <= m1 < m2 < r@.len() ==> r@[m1] != r@[m2],
    {
        let pairs = self.map.filtered_iter();
        let mut r: Vec<u64> = Vec::new();
        let n = pairs.len();
        let mut i: usize = 0;
        while i < n
            invariant
                n == pairs@.len(),
                i <= n,
                r@.len() == i,
                forall|m: int| 0 <= m < i ==> (#[trigger] r@[m]) == pairs@[m].0,
            decreases n - i,
        {
            let p = pairs[i].0;
            r.push(p);
            i += 1;
        }
        proof {
            assert forall|m: int| 0 <= m < r@.len() implies self@.contains(#[trigger] r@[m]) by {
                assert(self.map@.contains_key(pairs@[m].0));
            }
            assert forall|m1: int, m2: int| 0 <= m1 < m2 < r@.len() implies r@[m1] != r@[m2] by {
                assert(pairs@[m1].0 != pairs@[m2].0);
            }
        }
        r
    }
}

} // verus!
