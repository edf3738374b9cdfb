//! Spec-level algebra over a sequence of levels: the combined map of a
//! range of tiers, and range sums of live and dead cells.

use vstd::prelude::*;
use vstd::arithmetic::power2::pow2;

use crate::level::MapMultiSlot;

verus! {

/// Combined map of levels `a .. b`; levels are key-disjoint, so the
/// union order carries no weight.
pub(crate) open spec fn lmap(s: Seq<MapMultiSlot>, a: int, b: int) -> Map<u64, u64>
    decreases b - a,
{
    if a >= b {
        Map::empty()
    } else {
        s[a].as_map().union_prefer_right(lmap(s, a + 1, b))
    }
}

pub(crate) open spec fn live_sum(s: Seq<MapMultiSlot>, a: int, b: int) -> int
    decreases b - a,
{
    if a >= b {
        0
    } else {
        s[a].live_count() + live_sum(s, a + 1, b)
    }
}

pub(crate) open spec fn dead_sum(s: Seq<MapMultiSlot>, a: int, b: int) -> int
    decreases b - a,
{
    if a >= b {
        0
    } else {
        s[a].dead_count() + dead_sum(s, a + 1, b)
    }
}

pub(crate) open spec fn cap_sum(s: Seq<MapMultiSlot>, a: int, b: int) -> int
    decreases b - a,
{
    if a >= b {
        0
    } else {
        s[a].capacity + cap_sum(s, a + 1, b)
    }
}

/// Tier `i` reserves `base * 2^i` cells.
pub(crate) open spec fn caps_law(s: Seq<MapMultiSlot>, base: int) -> bool {
    forall|i: int| 0 <= i < s.len() ==> (#[trigger] s[i]).capacity == base * pow2(i as nat)
}

pub(crate) open spec fn all_wf(s: Seq<MapMultiSlot>) -> bool {
    forall|i: int| 0 <= i < s.len() ==> (#[trigger] s[i]).wf()
}

/// No key is live in two different levels.
pub(crate) open spec fn levels_disjoint(s: Seq<MapMultiSlot>) -> bool {
    forall|i: int, j: int|
        0 <= i < j < s.len() ==> (#[trigger] s[i]).as_map().dom().disjoint(
            (#[trigger] s[j]).as_map().dom(),
        )
}

pub(crate) proof fn lemma_lmap_split(s: Seq<MapMultiSlot>, a: int, b: int, c: int)
    requires
        a <= b <= c,
    ensures
        lmap(s, a, c) == lmap(s, a, b).union_prefer_right(lmap(s, b, c)),
    decreases b - a,
{
    if a >= b {
        assert(lmap(s, a, b) == Map::<u64, u64>::empty());
        assert(lmap(s, a, b).union_prefer_right(lmap(s, b, c)) =~= lmap(s, b, c));
    } else {
        lemma_lmap_split(s, a + 1, b, c);
        assert(s[a].as_map().union_prefer_right(
            lmap(s, a + 1, b).union_prefer_right(lmap(s, b, c)),
        ) =~= (s[a].as_map().union_prefer_right(lmap(s, a + 1, b))).union_prefer_right(
            lmap(s, b, c),
        ));
    }
}

pub(crate) proof fn lemma_lmap_equal(s1: Seq<MapMultiSlot>, s2: Seq<MapMultiSlot>, a: int, b: int)
    requires
        forall|i: int| a <= i < b ==> s1[i].as_map() == s2[i].as_map(),
    ensures
        lmap(s1, a, b) == lmap(s2, a, b),
    decreases b - a,
{
    if a < b {
        lemma_lmap_equal(s1, s2, a + 1, b);
        assert(lmap(s1, a, b) =~= lmap(s2, a, b));
    }
}

pub(crate) proof fn lemma_lmap_contains(s: Seq<MapMultiSlot>, a: int, b: int)
    ensures
        forall|k: u64|
            #[trigger] lmap(s, a, b).contains_key(k) <==> exists|i: int|
                a <= i < b && (#[trigger] s[i]).as_map().contains_key(k),
    decreases b - a,
{
    if a < b {
        lemma_lmap_contains(s, a + 1, b);
        assert forall|k: u64| #[trigger] lmap(s, a, b).contains_key(k) implies exists|i: int|
            a <= i < b && (#[trigger] s[i]).as_map().contains_key(k) by {
            if s[a].as_map().contains_key(k) {
                assert(s[a].as_map().contains_key(k));
            } else {
                assert(lmap(s, a + 1, b).contains_key(k));
            }
        }
        assert forall|k: u64|
            (exists|i: int| a <= i < b && (#[trigger] s[i]).as_map().contains_key(k))
            implies #[trigger] lmap(s, a, b).contains_key(k) by {
            let i = choose|i: int| a <= i < b && (#[trigger] s[i]).as_map().contains_key(k);
            if i == a {
            } else {
                assert(lmap(s, a + 1, b).contains_key(k));
            }
        }
    }
}

/// When only level `i` of the range holds `k`, the combined map takes
/// its value from that level.
pub(crate) proof fn lemma_lmap_value(s: Seq<MapMultiSlot>, a: int, b: int, i: int, k: u64)
    requires
        a <= i < b,
        s[i].as_map().contains_key(k),
        forall|j: int| a <= j < b && j != i ==> !(#[trigger] s[j]).as_map().contains_key(k),
    ensures
        lmap(s, a, b).contains_key(k),
        lmap(s, a, b)[k] == s[i].as_map()[k],
    decreases b - a,
{
    lemma_lmap_contains(s, a + 1, b);
    if i == a {
        assert(!lmap(s, a + 1, b).contains_key(k));
    } else {
        lemma_lmap_value(s, a + 1, b, i, k);
    }
}

pub(crate) proof fn lemma_lmap_all_empty(s: Seq<MapMultiSlot>, a: int, b: int)
    requires
        forall|i: int| a <= i < b ==> (#[trigger] s[i]).as_map() == Map::<u64, u64>::empty(),
    ensures
        lmap(s, a, b) == Map::<u64, u64>::empty(),
    decreases b - a,
{
    if a < b {
        lemma_lmap_all_empty(s, a + 1, b);
        assert(lmap(s, a, b) =~= Map::<u64, u64>::empty());
    }
}

pub(crate) proof fn lemma_live_sum_split(s: Seq<MapMultiSlot>, a: int, b: int, c: int)
    requires
        a <= b <= c,
    ensures
        live_sum(s, a, c) == live_sum(s, a, b) + live_sum(s, b, c),
    decreases b - a,
{
    if a < b {
        lemma_live_sum_split(s, a + 1, b, c);
    }
}

pub(crate) proof fn lemma_dead_sum_split(s: Seq<MapMultiSlot>, a: int, b: int, c: int)
    requires
        a <= b <= c,
    ensures
        dead_sum(s, a, c) == dead_sum(s, a, b) + dead_sum(s, b, c),
    decreases b - a,
{
    if a < b {
        lemma_dead_sum_split(s, a + 1, b, c);
    }
}

pub(crate) proof fn lemma_cap_sum_split(s: Seq<MapMultiSlot>, a: int, b: int, c: int)
    requires
        a <= b <= c,
    ensures
        cap_sum(s, a, c) == cap_sum(s, a, b) + cap_sum(s, b, c),
    decreases b - a,
{
    if a < b {
        lemma_cap_sum_split(s, a + 1, b, c);
    }
}

pub(crate) proof fn lemma_sums_equal(s1: Seq<MapMultiSlot>, s2: Seq<MapMultiSlot>, a: int, b: int)
    requires
        forall|i: int|
            a <= i < b ==> (#[trigger] s1[i]).live_count() == s2[i].live_count() && s1[i].dead_count()
                == s2[i].dead_count() && s1[i].capacity == s2[i].capacity,
    ensures
        live_sum(s1, a, b) == live_sum(s2, a, b),
        dead_sum(s1, a, b) == dead_sum(s2, a, b),
        cap_sum(s1, a, b) == cap_sum(s2, a, b),
    decreases b - a,
{
    if a < b {
        lemma_sums_equal(s1, s2, a + 1, b);
    }
}

pub(crate) proof fn lemma_sums_nonneg(s: Seq<MapMultiSlot>, a: int, b: int)
    requires
        0 <= a,
        b <= s.len(),
        all_wf(s),
    ensures
        live_sum(s, a, b) >= 0,
        dead_sum(s, a, b) >= 0,
        cap_sum(s, a, b) >= 0,
        dead_sum(s, a, b) <= cap_sum(s, a, b),
        live_sum(s, a, b) <= cap_sum(s, a, b),
    decreases b - a,
{
    if a < b {
        lemma_sums_nonneg(s, a + 1, b);
        assert(s[a].wf());
    }
}

/// Under the doubling law the capacities of tiers `0 .. n` sum to one
/// tier-`n` capacity less the base.
pub(crate) proof fn lemma_cap_sum_pow2(s: Seq<MapMultiSlot>, base: int, n: int)
    requires
        caps_law(s, base),
        0 <= n <= s.len(),
    ensures
        cap_sum(s, 0, n) == base * (pow2(n as nat) - 1),
    decreases n,
{
    broadcast use vstd::arithmetic::power2::lemma_pow2_unfold;

    if n == 0 {
        vstd::arithmetic::power2::lemma2_to64();
        assert(pow2(0) == 1);
        assert(cap_sum(s, 0, 0) == 0);
        assert(pow2(0) - 1 == 0);
        assert(base * (pow2(0) - 1) == 0);
    } else {
        lemma_cap_sum_pow2(s, base, n - 1);
        lemma_cap_sum_split(s, 0, n - 1, n);
        reveal_with_fuel(cap_sum, 2);
        assert(cap_sum(s, n - 1, n) == s[n - 1].capacity);
        assert(s[n - 1].capacity == base * pow2((n - 1) as nat));
        assert(pow2(n as nat) == 2 * pow2((n - 1) as nat));
        let p = pow2((n - 1) as nat) as int;
        let q = pow2(n as nat) as int;
        assert(base * (p - 1) + base * p == base * (q - 1)) by (nonlinear_arith)
            requires
                q == 2 * p,
        ;
        assert(cap_sum(s, 0, n) == base * (p - 1) + base * p);
        assert(base * (q - 1) == base * (pow2(n as nat) - 1));
    }
}

/// The combined map of disjoint well-formed levels has one entry per
/// live cell.
pub(crate) proof fn lemma_lmap_card(s: Seq<MapMultiSlot>, a: int, b: int)
    requires
        0 <= a,
        b <= s.len(),
        all_wf(s),
        levels_disjoint(s),
    ensures
        lmap(s, a, b).dom().finite(),
        lmap(s, a, b).dom().len() == live_sum(s, a, b),
    decreases b - a,
{
    if a >= b {
        assert(lmap(s, a, b).dom() =~= Set::<u64>::empty());
    } else {
        lemma_lmap_card(s, a + 1, b);
        assert(s[a].wf());
        s[a].lemma_live_sorted();
        crate::model::lemma_seq_to_map_card(s[a].live_seq());
        let m1 = s[a].as_map();
        let m2 = lmap(s, a + 1, b);
        lemma_lmap_contains(s, a + 1, b);
        assert(m1.dom().disjoint(m2.dom())) by {
            assert forall|k: u64| m1.dom().contains(k) implies !m2.dom().contains(k) by {
                if m2.contains_key(k) {
                    let j = choose|j: int|
                        a + 1 <= j < b && (#[trigger] s[j]).as_map().contains_key(k);
                    assert(s[a].as_map().dom().disjoint(s[j].as_map().dom()));
                }
            }
        }
        assert(lmap(s, a, b).dom() =~= m1.dom() + m2.dom());
        vstd::set_lib::lemma_set_disjoint_lens(m1.dom(), m2.dom());
    }
}


/// Over occupied levels, dead cells are reserved capacity minus live cells.
pub(crate) proof fn lemma_dead_sum_occupied(s: Seq<MapMultiSlot>, a: int, b: int)
    requires
        forall|i: int| a <= i < b ==> !(#[trigger] s[i]).is_empty(),
    ensures
        dead_sum(s, a, b) == cap_sum(s, a, b) - live_sum(s, a, b),
    decreases b - a,
{
    if a < b {
        lemma_dead_sum_occupied(s, a + 1, b);
    }
}

/// Empty levels hold nothing, live or dead.
pub(crate) proof fn lemma_sum_empty(s: Seq<MapMultiSlot>, a: int, b: int)
    requires
        forall|i: int| a <= i < b ==> (#[trigger] s[i]).is_empty(),
    ensures
        dead_sum(s, a, b) == 0,
        live_sum(s, a, b) == 0,
    decreases b - a,
{
    if a < b {
        lemma_sum_empty(s, a + 1, b);
    }
}


pub(crate) proof fn lemma_cap_sum_equal(s1: Seq<MapMultiSlot>, s2: Seq<MapMultiSlot>, a: int, b: int)
    requires
        forall|i: int| a <= i < b ==> (#[trigger] s1[i]).capacity == s2[i].capacity,
    ensures
        cap_sum(s1, a, b) == cap_sum(s2, a, b),
    decreases b - a,
{
    if a < b {
        lemma_cap_sum_equal(s1, s2, a + 1, b);
    }
}


/// Overwriting the value under `k` inside the one level that holds it
/// updates the combined map at `k` alone.
pub(crate) proof fn lemma_lmap_overwrite(
    s: Seq<MapMultiSlot>,
    s2: Seq<MapMultiSlot>,
    i: int,
    a: int,
    b: int,
    k: u64,
    v: u64,
)
    requires
        a <= i < b <= s.len(),
        s2.len() == s.len(),
        forall|j: int| a <= j < b && j != i ==> (#[trigger] s2[j]).as_map() == s[j].as_map(),
        s2[i].as_map() == s[i].as_map().insert(k, v),
        s[i].as_map().contains_key(k),
        forall|j: int| a <= j < b && j != i ==> !(#[trigger] s[j]).as_map().contains_key(k),
    ensures
        lmap(s2, a, b) == lmap(s, a, b).insert(k, v),
    decreases b - a,
{
    lemma_lmap_contains(s, a + 1, b);
    if i == a {
        lemma_lmap_equal(s2, s, a + 1, b);
        assert(!lmap(s, a + 1, b).contains_key(k));
        assert(s2[a].as_map().union_prefer_right(lmap(s, a + 1, b)) =~= s[a].as_map()
            .union_prefer_right(lmap(s, a + 1, b)).insert(k, v));
    } else {
        lemma_lmap_overwrite(s, s2, i, a + 1, b, k, v);
        assert(s2[a].as_map().union_prefer_right(lmap(s, a + 1, b).insert(k, v)) =~= s[a].as_map()
            .union_prefer_right(lmap(s, a + 1, b)).insert(k, v));
    }
}

/// Removing `k` from the one level that holds it removes it from the
/// combined map.
pub(crate) proof fn lemma_lmap_remove(
    s: Seq<MapMultiSlot>,
    s2: Seq<MapMultiSlot>,
    i: int,
    a: int,
    b: int,
    k: u64,
)
    requires
        a <= i < b <= s.len(),
        s2.len() == s.len(),
        forall|j: int| a <= j < b && j != i ==> (#[trigger] s2[j]).as_map() == s[j].as_map(),
        s2[i].as_map() == s[i].as_map().remove(k),
        forall|j: int| a <= j < b && j != i ==> !(#[trigger] s[j]).as_map().contains_key(k),
    ensures
        lmap(s2, a, b) == lmap(s, a, b).remove(k),
    decreases b - a,
{
    lemma_lmap_contains(s, a + 1, b);
    if i == a {
        lemma_lmap_equal(s2, s, a + 1, b);
        assert(!lmap(s, a + 1, b).contains_key(k));
        assert(s2[a].as_map().union_prefer_right(lmap(s, a + 1, b)) =~= s[a].as_map()
            .union_prefer_right(lmap(s, a + 1, b)).remove(k));
    } else {
        lemma_lmap_remove(s, s2, i, a + 1, b, k);
        assert(s2[a].as_map().union_prefer_right(lmap(s, a + 1, b).remove(k)) =~= s[a].as_map()
            .union_prefer_right(lmap(s, a + 1, b)).remove(k));
    }
}


/// Under the doubling law with a positive base, every tier reserves at
/// least one cell.
pub(crate) proof fn lemma_cap_sum_lower(s: Seq<MapMultiSlot>, base: int, a: int, b: int)
    requires
        caps_law(s, base),
        base >= 1,
        0 <= a,
        b <= s.len(),
    ensures
        cap_sum(s, a, b) >= b - a,
    decreases b - a,
{
    if a < b {
        lemma_cap_sum_lower(s, base, a + 1, b);
        vstd::arithmetic::power2::lemma_pow2_pos(a as nat);
        let p = pow2(a as nat) as int;
        assert(base * p >= 1) by (nonlinear_arith)
            requires
                base >= 1,
                p >= 1,
        ;
    }
}


pub(crate) proof fn lemma_lmap_dom_equal(
    s1: Seq<MapMultiSlot>,
    s2: Seq<MapMultiSlot>,
    a: int,
    b: int,
)
    requires
        forall|i: int| a <= i < b ==> (#[trigger] s1[i]).as_map().dom() == s2[i].as_map().dom(),
    ensures
        lmap(s1, a, b).dom() == lmap(s2, a, b).dom(),
    decreases b - a,
{
    if a < b {
        lemma_lmap_dom_equal(s1, s2, a + 1, b);
        assert(lmap(s1, a, b).dom() =~= lmap(s2, a, b).dom());
    }
}

} // verus!
