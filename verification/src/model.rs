//! Mathematical helpers shared by the contracts: bit counting, sortedness
//! of key sequences, and the map denoted by a sequence of key/value pairs.

use vstd::prelude::*;
use vstd::seq_lib::lemma_multiset_commutative;

verus! {

/// Number of `true` entries in a boolean sequence.
pub open spec fn count_true(s: Seq<bool>) -> nat
    decreases s.len(),
{
    if s.len() == 0 {
        0
    } else {
        count_true(s.drop_last()) + if s.last() {
            1nat
        } else {
            0nat
        }
    }
}

/// Keys occur in strictly ascending order.
pub open spec fn strict_sorted(s: Seq<u64>) -> bool {
    forall|i: int, j: int| 0 <= i < j < s.len() ==> s[i] < s[j]
}

/// Pairs occur in strictly ascending key order.
pub open spec fn pairs_sorted(s: Seq<(u64, u64)>) -> bool {
    forall|i: int, j: int| 0 <= i < j < s.len() ==> (#[trigger] s[i]).0 < (#[trigger] s[j]).0
}

/// Pairs occur in ascending (not necessarily strict) key order.
pub open spec fn pairs_le(s: Seq<(u64, u64)>) -> bool {
    forall|i: int, j: int| 0 <= i < j < s.len() ==> (#[trigger] s[i]).0 <= (#[trigger] s[j]).0
}

/// The keys of a pair sequence, in order.
pub open spec fn keys_of(s: Seq<(u64, u64)>) -> Seq<u64> {
    s.map_values(|p: (u64, u64)| p.0)
}

/// No key occurs twice.
pub open spec fn keys_distinct(s: Seq<(u64, u64)>) -> bool {
    forall|i: int, j: int| 0 <= i < j < s.len() ==> (#[trigger] s[i]).0 != (#[trigger] s[j]).0
}

/// The finite map described by a sequence of key/value pairs; a later
/// occurrence of a key wins, though the engine never produces duplicates.
pub open spec fn seq_to_map(s: Seq<(u64, u64)>) -> Map<u64, u64>
    decreases s.len(),
{
    if s.len() == 0 {
        Map::empty()
    } else {
        seq_to_map(s.drop_last()).insert(s.last().0, s.last().1)
    }
}

pub proof fn lemma_seq_to_map_contains(s: Seq<(u64, u64)>, k: u64)
    ensures
        seq_to_map(s).contains_key(k) <==> exists|i: int|
            0 <= i < s.len() && (#[trigger] s[i]).0 == k,
    decreases s.len(),
{
    if s.len() > 0 {
        lemma_seq_to_map_contains(s.drop_last(), k);
        if seq_to_map(s).contains_key(k) {
            if s.last().0 == k {
                assert(s[s.len() - 1].0 == k);
            } else {
                let i = choose|i: int|
                    0 <= i < s.drop_last().len() && (#[trigger] s.drop_last()[i]).0 == k;
                assert(s[i].0 == k);
            }
        }
        if exists|i: int| 0 <= i < s.len() && (#[trigger] s[i]).0 == k {
            let i = choose|i: int| 0 <= i < s.len() && (#[trigger] s[i]).0 == k;
            if i < s.len() - 1 {
                assert(s.drop_last()[i].0 == k);
            }
        }
    }
}

pub proof fn lemma_seq_to_map_value(s: Seq<(u64, u64)>, i: int)
    requires
        keys_distinct(s),
        0 <= i < s.len(),
    ensures
        seq_to_map(s).contains_key(s[i].0),
        seq_to_map(s)[s[i].0] == s[i].1,
    decreases s.len(),
{
    lemma_seq_to_map_contains(s, s[i].0);
    if i < s.len() - 1 {
        assert(s[i].0 != s[s.len() - 1].0);
        assert(s.drop_last()[i] == s[i]);
        lemma_seq_to_map_value(s.drop_last(), i);
    }
}

pub proof fn lemma_seq_to_map_card(s: Seq<(u64, u64)>)
    requires
        keys_distinct(s),
    ensures
        seq_to_map(s).dom().finite(),
        seq_to_map(s).dom().len() == s.len(),
    decreases s.len(),
{
    if s.len() > 0 {
        lemma_seq_to_map_card(s.drop_last());
        lemma_seq_to_map_contains(s.drop_last(), s.last().0);
        assert(forall|i: int| 0 <= i < s.len() - 1 ==> (#[trigger] s[i]).0 != s.last().0);
        assert(!seq_to_map(s.drop_last()).contains_key(s.last().0));
    }
}

/// Concatenation of pair sequences denotes the union of their maps, the
/// later sequence winning on common keys.
pub proof fn lemma_seq_to_map_concat(a: Seq<(u64, u64)>, b: Seq<(u64, u64)>)
    ensures
        seq_to_map(a + b) == seq_to_map(a).union_prefer_right(seq_to_map(b)),
    decreases b.len(),
{
    if b.len() == 0 {
        assert(a + b =~= a);
        assert(seq_to_map(a).union_prefer_right(seq_to_map(b)) =~= seq_to_map(a));
    } else {
        lemma_seq_to_map_concat(a, b.drop_last());
        assert((a + b).drop_last() =~= a + b.drop_last());
        assert((a + b).last() == b.last());
        assert(seq_to_map(a).union_prefer_right(seq_to_map(b.drop_last())).insert(
            b.last().0,
            b.last().1,
        ) =~= seq_to_map(a).union_prefer_right(seq_to_map(b.drop_last()).insert(
            b.last().0,
            b.last().1,
        )));
    }
}

/// A reordering of a sequence with distinct keys keeps its keys distinct.
pub proof fn lemma_multiset_keys_distinct(a: Seq<(u64, u64)>, b: Seq<(u64, u64)>)
    requires
        keys_distinct(a),
        a.to_multiset() == b.to_multiset(),
    ensures
        keys_distinct(b),
{
    broadcast use vstd::seq_lib::group_to_multiset_ensures;

    assert(a.no_duplicates());
    a.lemma_multiset_has_no_duplicates();
    b.lemma_multiset_has_no_duplicates_conv();
    assert forall|i: int, j: int| 0 <= i < j < b.len() implies (#[trigger] b[i]).0 != (
    #[trigger] b[j]).0 by {
        if b[i].0 == b[j].0 {
            assert(b[i] != b[j]);
            assert(b.contains(b[i]));
            assert(b.contains(b[j]));
            assert(b.to_multiset().count(b[i]) > 0);
            assert(b.to_multiset().count(b[j]) > 0);
            assert(a.to_multiset().count(b[i]) > 0);
            assert(a.to_multiset().count(b[j]) > 0);
            assert(a.contains(b[i]));
            assert(a.contains(b[j]));
            let ai = choose|m: int| 0 <= m < a.len() && a[m] == b[i];
            let aj = choose|m: int| 0 <= m < a.len() && a[m] == b[j];
            assert(a[ai].0 == a[aj].0 && ai != aj);
        }
    }
}

/// A reordering of a sequence with distinct keys denotes the same map.
pub proof fn lemma_seq_to_map_multiset(a: Seq<(u64, u64)>, b: Seq<(u64, u64)>)
    requires
        keys_distinct(a),
        a.to_multiset() == b.to_multiset(),
    ensures
        seq_to_map(b) == seq_to_map(a),
{
    broadcast use vstd::seq_lib::group_to_multiset_ensures;

    lemma_multiset_keys_distinct(a, b);
    assert(seq_to_map(b) =~= seq_to_map(a)) by {
        assert forall|k: u64| #[trigger]
            seq_to_map(a).contains_key(k) == seq_to_map(b).contains_key(k) by {
            lemma_seq_to_map_contains(a, k);
            lemma_seq_to_map_contains(b, k);
            if exists|i: int| 0 <= i < a.len() && (#[trigger] a[i]).0 == k {
                let i = choose|i: int| 0 <= i < a.len() && (#[trigger] a[i]).0 == k;
                assert(a.contains(a[i]));
                assert(a.to_multiset().count(a[i]) > 0);
                assert(b.to_multiset().count(a[i]) > 0);
                assert(b.contains(a[i]));
                let m = choose|m: int| 0 <= m < b.len() && b[m] == a[i];
                assert(b[m].0 == k);
            }
            if exists|i: int| 0 <= i < b.len() && (#[trigger] b[i]).0 == k {
                let i = choose|i: int| 0 <= i < b.len() && (#[trigger] b[i]).0 == k;
                assert(b.contains(b[i]));
                assert(b.to_multiset().count(b[i]) > 0);
                assert(a.to_multiset().count(b[i]) > 0);
                assert(a.contains(b[i]));
                let m = choose|m: int| 0 <= m < a.len() && a[m] == b[i];
                assert(a[m].0 == k);
            }
        }
        assert forall|k: u64|
            seq_to_map(a).contains_key(k) && seq_to_map(b).contains_key(
                k,
            ) implies #[trigger] seq_to_map(a)[k] == seq_to_map(b)[k] by {
            lemma_seq_to_map_contains(a, k);
            let i = choose|i: int| 0 <= i < a.len() && (#[trigger] a[i]).0 == k;
            lemma_seq_to_map_value(a, i);
            assert(a.contains(a[i]));
            assert(a.to_multiset().count(a[i]) > 0);
            assert(b.to_multiset().count(a[i]) > 0);
            assert(b.contains(a[i]));
            let m = choose|m: int| 0 <= m < b.len() && b[m] == a[i];
            lemma_seq_to_map_value(b, m);
        }
    }
}

/// Concatenating two sequences adds their multisets.
pub proof fn lemma_concat_multiset(a: Seq<(u64, u64)>, b: Seq<(u64, u64)>)
    ensures
        (a + b).to_multiset() == a.to_multiset().add(b.to_multiset()),
{
    lemma_multiset_commutative(a, b);
}


/// Overwriting the value at position `i` updates the denoted map at that key.
pub proof fn lemma_seq_to_map_update(s: Seq<(u64, u64)>, i: int, v: u64)
    requires
        keys_distinct(s),
        0 <= i < s.len(),
    ensures
        keys_distinct(s.update(i, (s[i].0, v))),
        seq_to_map(s.update(i, (s[i].0, v))) == seq_to_map(s).insert(s[i].0, v),
    decreases s.len(),
{
    let t = s.update(i, (s[i].0, v));
    let k = s[i].0;
    assert(forall|m: int| 0 <= m < s.len() ==> (#[trigger] t[m]).0 == s[m].0);
    if i == s.len() - 1 {
        assert(t.drop_last() =~= s.drop_last());
        assert(t.last() == (k, v));
        assert(seq_to_map(s.drop_last()).insert(k, s[i].1).insert(k, v) =~= seq_to_map(
            s.drop_last(),
        ).insert(k, v));
    } else {
        assert(t.drop_last() =~= s.drop_last().update(i, (s[i].0, v)));
        assert(s.drop_last()[i] == s[i]);
        lemma_seq_to_map_update(s.drop_last(), i, v);
        let lk = s.last().0;
        let lv = s.last().1;
        assert(t.last() == s.last());
        assert(k != lk);
        assert(seq_to_map(s.drop_last()).insert(k, v).insert(lk, lv) =~= seq_to_map(
            s.drop_last(),
        ).insert(lk, lv).insert(k, v));
    }
}

/// Removing position `i` by swapping in the last element removes exactly
/// that key from the denoted map.
pub proof fn lemma_swap_remove_map(s: Seq<(u64, u64)>, i: int)
    requires
        keys_distinct(s),
        0 <= i < s.len(),
    ensures
        keys_distinct(s.update(i, s.last()).drop_last()),
        seq_to_map(s.update(i, s.last()).drop_last()) == seq_to_map(s).remove(s[i].0),
{
    let t = s.update(i, s.last()).drop_last();
    let k = s[i].0;
    assert(forall|m: int|
        0 <= m < t.len() ==> #[trigger] t[m] == if m == i {
            s[s.len() - 1]
        } else {
            s[m]
        });
    assert forall|m1: int, m2: int| 0 <= m1 < m2 < t.len() implies (#[trigger] t[m1]).0 != (
    #[trigger] t[m2]).0 by {
        if m1 == i {
            assert(t[m1] == s[s.len() - 1] && t[m2] == s[m2]);
        } else if m2 == i {
            assert(t[m1] == s[m1] && t[m2] == s[s.len() - 1]);
        }
    }
    assert(seq_to_map(t) =~= seq_to_map(s).remove(k)) by {
        assert forall|k2: u64| #[trigger]
            seq_to_map(t).contains_key(k2) == seq_to_map(s).remove(k).contains_key(k2) by {
            lemma_seq_to_map_contains(t, k2);
            lemma_seq_to_map_contains(s, k2);
            if exists|m: int| 0 <= m < t.len() && (#[trigger] t[m]).0 == k2 {
                let m = choose|m: int| 0 <= m < t.len() && (#[trigger] t[m]).0 == k2;
                if m == i {
                    assert(s[s.len() - 1].0 == k2);
                    assert(k2 != k || i == s.len() - 1);
                    assert(k2 != k);
                } else {
                    assert(s[m].0 == k2);
                    assert(k2 != k);
                }
            }
            if seq_to_map(s).remove(k).contains_key(k2) {
                let m = choose|m: int| 0 <= m < s.len() && (#[trigger] s[m]).0 == k2;
                assert(k2 != k);
                assert(m != i);
                if m == s.len() - 1 {
                    assert(i < s.len() - 1);
                    assert(t[i].0 == k2);
                } else {
                    assert(t[m].0 == k2);
                }
            }
        }
        assert forall|k2: u64|
            seq_to_map(t).contains_key(k2) && seq_to_map(s).remove(k).contains_key(
                k2,
            ) implies #[trigger] seq_to_map(t)[k2] == seq_to_map(s).remove(k)[k2] by {
            lemma_seq_to_map_contains(t, k2);
            let m = choose|m: int| 0 <= m < t.len() && (#[trigger] t[m]).0 == k2;
            lemma_seq_to_map_value(t, m);
            if m == i {
                lemma_seq_to_map_value(s, s.len() - 1);
            } else {
                lemma_seq_to_map_value(s, m);
            }
        }
    }
}


/// The live entries of `p` between positions `a` and `b`: those whose
/// mask bit is set, in position order.
pub open spec fn masked_range(p: Seq<(u64, u64)>, m: Seq<bool>, a: int, b: int) -> Seq<(u64, u64)>
    decreases b - a,
{
    if a >= b {
        Seq::empty()
    } else {
        (if m[a] {
            seq![p[a]]
        } else {
            Seq::empty()
        }) + masked_range(p, m, a + 1, b)
    }
}

pub proof fn lemma_masked_split(p: Seq<(u64, u64)>, m: Seq<bool>, a: int, b: int, c: int)
    requires
        a <= b <= c,
    ensures
        masked_range(p, m, a, c) == masked_range(p, m, a, b) + masked_range(p, m, b, c),
    decreases b - a,
{
    if a >= b {
        assert(masked_range(p, m, a, b) =~= Seq::empty());
        assert(masked_range(p, m, a, b) + masked_range(p, m, b, c) =~= masked_range(p, m, b, c));
    } else {
        lemma_masked_split(p, m, a + 1, b, c);
        let head: Seq<(u64, u64)> = if m[a] {
            seq![p[a]]
        } else {
            Seq::empty()
        };
        assert(head + (masked_range(p, m, a + 1, b) + masked_range(p, m, b, c)) =~= (head
            + masked_range(p, m, a + 1, b)) + masked_range(p, m, b, c));
    }
}

pub proof fn lemma_masked_len(p: Seq<(u64, u64)>, m: Seq<bool>, a: int, b: int)
    requires
        0 <= a <= b <= m.len(),
    ensures
        masked_range(p, m, a, b).len() == count_true(m.subrange(a, b)),
        masked_range(p, m, a, b).len() <= b - a,
    decreases b - a,
{
    if a >= b {
        assert(m.subrange(a, b).len() == 0);
    } else {
        lemma_masked_len(p, m, a, b - 1);
        lemma_masked_split(p, m, a, b - 1, b);
        assert(m.subrange(a, b).drop_last() =~= m.subrange(a, b - 1));
        assert(m.subrange(a, b).last() == m[b - 1]);
        reveal_with_fuel(masked_range, 2);
        if m[b - 1] {
            assert(masked_range(p, m, b - 1, b) =~= seq![p[b - 1]]);
        } else {
            assert(masked_range(p, m, b - 1, b) =~= Seq::empty());
        }
    }
}

pub proof fn lemma_masked_contains(p: Seq<(u64, u64)>, m: Seq<bool>, a: int, b: int)
    ensures
        forall|x: (u64, u64)|
            #[trigger] masked_range(p, m, a, b).contains(x) <==> exists|i: int|
                a <= i < b && m[i] && p[i] == x,
    decreases b - a,
{
    if a < b {
        lemma_masked_contains(p, m, a + 1, b);
        assert forall|x: (u64, u64)| #[trigger] masked_range(p, m, a, b).contains(x) implies exists|
        i: int| a <= i < b && m[i] && p[i] == x by {
            let idx = choose|idx: int|
                0 <= idx < masked_range(p, m, a, b).len() && #[trigger] masked_range(p, m, a, b)[idx]
                    == x;
            let head: Seq<(u64, u64)> = if m[a] {
                seq![p[a]]
            } else {
                Seq::empty()
            };
            if idx < head.len() {
                assert(m[a] && p[a] == x);
            } else {
                assert(masked_range(p, m, a + 1, b)[idx - head.len()] == x);
                assert(masked_range(p, m, a + 1, b).contains(x));
            }
        }
        assert forall|x: (u64, u64)| (exists|i: int| a <= i < b && m[i] && p[i] == x)
            implies #[trigger] masked_range(p, m, a, b).contains(x) by {
            let i = choose|i: int| a <= i < b && m[i] && p[i] == x;
            let head: Seq<(u64, u64)> = if m[a] {
                seq![p[a]]
            } else {
                Seq::empty()
            };
            if i == a {
                assert(masked_range(p, m, a, b)[0] == x);
            } else {
                assert(masked_range(p, m, a + 1, b).contains(x));
                let idx = choose|idx: int|
                    0 <= idx < masked_range(p, m, a + 1, b).len() && #[trigger] masked_range(
                        p,
                        m,
                        a + 1,
                        b,
                    )[idx] == x;
                assert(masked_range(p, m, a, b)[head.len() + idx] == x);
            }
        }
    }
}

pub proof fn lemma_masked_sorted(p: Seq<(u64, u64)>, m: Seq<bool>, a: int, b: int)
    requires
        forall|i: int, j: int| a <= i < j < b ==> (#[trigger] p[i]).0 < (#[trigger] p[j]).0,
    ensures
        pairs_sorted(masked_range(p, m, a, b)),
    decreases b - a,
{
    if a < b {
        lemma_masked_sorted(p, m, a + 1, b);
        lemma_masked_contains(p, m, a + 1, b);
        let s = masked_range(p, m, a, b);
        let rest = masked_range(p, m, a + 1, b);
        assert forall|i: int, j: int| 0 <= i < j < s.len() implies (#[trigger] s[i]).0 < (
        #[trigger] s[j]).0 by {
            if m[a] {
                if i == 0 {
                    assert(rest.contains(s[j])) by {
                        assert(s[j] == rest[j - 1]);
                    }
                    let idx = choose|idx: int| a + 1 <= idx < b && m[idx] && p[idx] == s[j];
                    assert(p[a].0 < p[idx].0);
                } else {
                    assert(s[i] == rest[i - 1] && s[j] == rest[j - 1]);
                }
            } else {
                assert(s[i] == rest[i] && s[j] == rest[j]);
            }
        }
    }
}

pub proof fn lemma_masked_all_true(p: Seq<(u64, u64)>, m: Seq<bool>, a: int, b: int)
    requires
        0 <= a <= b <= p.len(),
        forall|i: int| a <= i < b ==> m[i],
    ensures
        masked_range(p, m, a, b) == p.subrange(a, b),
    decreases b - a,
{
    if a >= b {
        assert(masked_range(p, m, a, b) =~= p.subrange(a, b));
    } else {
        lemma_masked_all_true(p, m, a + 1, b);
        assert(seq![p[a]] + p.subrange(a + 1, b) =~= p.subrange(a, b));
    }
}

pub proof fn lemma_masked_equal(
    p1: Seq<(u64, u64)>,
    m1: Seq<bool>,
    p2: Seq<(u64, u64)>,
    m2: Seq<bool>,
    a: int,
    b: int,
)
    requires
        forall|i: int| a <= i < b ==> p1[i] == p2[i] && m1[i] == m2[i],
    ensures
        masked_range(p1, m1, a, b) == masked_range(p2, m2, a, b),
    decreases b - a,
{
    if a < b {
        lemma_masked_equal(p1, m1, p2, m2, a + 1, b);
        assert(masked_range(p1, m1, a, b) =~= masked_range(p2, m2, a, b));
    }
}

/// Clearing bit `i` cuts the live sequence into the part before and the
/// part after position `i`.
pub proof fn lemma_masked_update_false(p: Seq<(u64, u64)>, m: Seq<bool>, i: int, a: int, b: int)
    requires
        0 <= a <= i < b <= m.len(),
    ensures
        masked_range(p, m.update(i, false), a, b) == masked_range(p, m, a, i) + masked_range(
            p,
            m,
            i + 1,
            b,
        ),
{
    let m2 = m.update(i, false);
    assert(forall|x: int| a <= x < i ==> m2[x] == m[x] && p[x] == p[x]);
    assert(forall|x: int| i + 1 <= x < b ==> m2[x] == m[x] && p[x] == p[x]);
    lemma_masked_split(p, m2, a, i, b);
    lemma_masked_split(p, m2, i, i + 1, b);
    lemma_masked_equal(p, m2, p, m, a, i);
    lemma_masked_equal(p, m2, p, m, i + 1, b);
    assert(masked_range(p, m2, i, i + 1) =~= Seq::empty());
    assert(masked_range(p, m2, a, i) + (masked_range(p, m2, i, i + 1) + masked_range(
        p,
        m2,
        i + 1,
        b,
    )) =~= masked_range(p, m, a, i) + masked_range(p, m, i + 1, b));
    assert(masked_range(p, m2, a, b) =~= masked_range(p, m2, a, i) + (masked_range(p, m2, i, i + 1)
        + masked_range(p, m2, i + 1, b))) by {
        lemma_masked_split(p, m2, a, i, b);
        lemma_masked_split(p, m2, i, i + 1, b);
    }
}

/// Dropping one pair out of the middle removes exactly its key from the
/// denoted map.
pub proof fn lemma_seq_to_map_drop_mid(a: Seq<(u64, u64)>, x: (u64, u64), b: Seq<(u64, u64)>)
    requires
        keys_distinct(a + seq![x] + b),
    ensures
        keys_distinct(a + b),
        seq_to_map(a + b) == seq_to_map(a + seq![x] + b).remove(x.0),
{
    let whole = a + seq![x] + b;
    assert(forall|i: int| 0 <= i < a.len() ==> (#[trigger] whole[i]) == a[i]);
    assert(whole[a.len() as int] == x);
    assert(forall|i: int|
        a.len() + 1 <= i < whole.len() ==> (#[trigger] whole[i]) == b[i - a.len() - 1]);
    assert forall|i: int, j: int| 0 <= i < j < (a + b).len() implies (#[trigger] (a + b)[i]).0 != (
    #[trigger] (a + b)[j]).0 by {
        let wi = if i < a.len() {
            i
        } else {
            i + 1
        };
        let wj = if j < a.len() {
            j
        } else {
            j + 1
        };
        assert(whole[wi] == (a + b)[i] && whole[wj] == (a + b)[j]);
    }
    lemma_seq_to_map_concat(a + seq![x], b);
    lemma_seq_to_map_concat(a, seq![x]);
    lemma_seq_to_map_concat(a, b);
    assert(seq_to_map(seq![x]) =~= Map::<u64, u64>::empty().insert(x.0, x.1)) by {
        assert(seq![x].len() == 1);
        assert(seq![x].last() == x);
        assert(seq![x].drop_last() =~= Seq::<(u64, u64)>::empty());
        assert(seq_to_map(seq![x].drop_last()) == Map::<u64, u64>::empty());
    }
    assert(seq_to_map(a + b) =~= seq_to_map(a + seq![x] + b).remove(x.0)) by {
        lemma_seq_to_map_contains(a, x.0);
        lemma_seq_to_map_contains(b, x.0);
        assert forall|i: int| 0 <= i < a.len() implies (#[trigger] a[i]).0 != x.0 by {
            assert(whole[i] == a[i]);
            assert(whole[i].0 != whole[a.len() as int].0);
        }
        assert forall|i: int| 0 <= i < b.len() implies (#[trigger] b[i]).0 != x.0 by {
            assert(whole[i + a.len() + 1] == b[i]);
            assert(whole[i + a.len() + 1].0 != whole[a.len() as int].0);
        }
        assert(!seq_to_map(a).contains_key(x.0));
        assert(!seq_to_map(b).contains_key(x.0));
    }
}


/// Counting set bits may stop at `n` when no later bit is set.
pub proof fn lemma_count_true_prefix(m: Seq<bool>, n: int)
    requires
        0 <= n <= m.len(),
        forall|i: int| n <= i < m.len() ==> !m[i],
    ensures
        count_true(m) == count_true(m.subrange(0, n)),
    decreases m.len(),
{
    if m.len() == n {
        assert(m.subrange(0, n) =~= m);
    } else {
        assert(!m.last());
        lemma_count_true_prefix(m.drop_last(), n);
        assert(m.drop_last().subrange(0, n) =~= m.subrange(0, n));
    }
}

/// Overwriting the value of the middle pair updates exactly its key in
/// the denoted map.
pub proof fn lemma_seq_to_map_set_mid(
    a: Seq<(u64, u64)>,
    k: u64,
    v0: u64,
    v: u64,
    b: Seq<(u64, u64)>,
)
    requires
        keys_distinct(a + seq![(k, v0)] + b),
    ensures
        keys_distinct(a + seq![(k, v)] + b),
        seq_to_map(a + seq![(k, v)] + b) == seq_to_map(a + seq![(k, v0)] + b).insert(k, v),
{
    let w0 = a + seq![(k, v0)] + b;
    let w1 = a + seq![(k, v)] + b;
    assert(forall|i: int| 0 <= i < w0.len() ==> (#[trigger] w0[i]).0 == (#[trigger] w1[i]).0);
    assert forall|i: int, j: int| 0 <= i < j < w1.len() implies (#[trigger] w1[i]).0 != (
    #[trigger] w1[j]).0 by {
        assert(w0[i].0 != w0[j].0);
    }
    lemma_seq_to_map_concat(a + seq![(k, v0)], b);
    lemma_seq_to_map_concat(a, seq![(k, v0)]);
    lemma_seq_to_map_concat(a + seq![(k, v)], b);
    lemma_seq_to_map_concat(a, seq![(k, v)]);
    assert(seq_to_map(seq![(k, v0)]) =~= Map::<u64, u64>::empty().insert(k, v0)) by {
        assert(seq![(k, v0)].len() == 1);
        assert(seq![(k, v0)].last() == (k, v0));
        assert(seq![(k, v0)].drop_last() =~= Seq::<(u64, u64)>::empty());
        assert(seq_to_map(seq![(k, v0)].drop_last()) == Map::<u64, u64>::empty());
    }
    assert(seq_to_map(seq![(k, v)]) =~= Map::<u64, u64>::empty().insert(k, v)) by {
        assert(seq![(k, v)].len() == 1);
        assert(seq![(k, v)].last() == (k, v));
        assert(seq![(k, v)].drop_last() =~= Seq::<(u64, u64)>::empty());
        assert(seq_to_map(seq![(k, v)].drop_last()) == Map::<u64, u64>::empty());
    }
    assert(seq_to_map(w1) =~= seq_to_map(w0).insert(k, v)) by {
        assert forall|i: int| 0 <= i < b.len() implies (#[trigger] b[i]).0 != k by {
            assert(w0[i + a.len() + 1] == b[i]);
            assert(w0[i + a.len() + 1].0 != w0[a.len() as int].0);
        }
        lemma_seq_to_map_contains(b, k);
        assert(!seq_to_map(b).contains_key(k));
    }
}


/// Two disjoint sets on the left stay disjoint from the right after union.
pub proof fn lemma_union_disjoint(a: Set<u64>, b: Set<u64>, c: Set<u64>)
    requires
        a.disjoint(c),
        b.disjoint(c),
    ensures
        (a + b).disjoint(c),
{
    assert forall|k: u64| (a + b).contains(k) implies !c.contains(k) by {
        if a.contains(k) {
        } else {
            assert(b.contains(k));
        }
    }
}

/// Concatenating key-disjoint sequences with distinct keys keeps the
/// keys distinct.
pub proof fn lemma_concat_distinct(a: Seq<(u64, u64)>, b: Seq<(u64, u64)>)
    requires
        keys_distinct(a),
        keys_distinct(b),
        seq_to_map(a).dom().disjoint(seq_to_map(b).dom()),
    ensures
        keys_distinct(a + b),
{
    assert forall|x: int, y: int| 0 <= x < y < (a + b).len() implies (#[trigger] (a + b)[x]).0 != (
    #[trigger] (a + b)[y]).0 by {
        if x < a.len() && y >= a.len() {
            let p = a[x];
            let q = b[y - a.len()];
            assert((a + b)[x] == p && (a + b)[y] == q);
            if p.0 == q.0 {
                lemma_seq_to_map_contains(a, p.0);
                lemma_seq_to_map_contains(b, q.0);
                assert(seq_to_map(a).dom().contains(p.0));
                assert(seq_to_map(b).dom().contains(q.0));
            }
        } else if x >= a.len() {
            assert((a + b)[x] == b[x - a.len()] && (a + b)[y] == b[y - a.len()]);
        } else {
            assert((a + b)[x] == a[x] && (a + b)[y] == a[y]);
        }
    }
}


/// Non-overlapping windows of a distinct-key sequence denote key-disjoint maps.
pub proof fn lemma_subrange_disjoint(s: Seq<(u64, u64)>, a: int, b: int, c: int, d: int)
    requires
        keys_distinct(s),
        0 <= a <= b <= c <= d <= s.len(),
    ensures
        seq_to_map(s.subrange(a, b)).dom().disjoint(seq_to_map(s.subrange(c, d)).dom()),
{
    let s1 = s.subrange(a, b);
    let s2 = s.subrange(c, d);
    assert forall|k: u64|
        seq_to_map(s1).dom().contains(k) implies !seq_to_map(s2).dom().contains(k) by {
        lemma_seq_to_map_contains(s1, k);
        lemma_seq_to_map_contains(s2, k);
        let i = choose|i: int| 0 <= i < s1.len() && (#[trigger] s1[i]).0 == k;
        if exists|j: int| 0 <= j < s2.len() && (#[trigger] s2[j]).0 == k {
            let j = choose|j: int| 0 <= j < s2.len() && (#[trigger] s2[j]).0 == k;
            assert(s[a + i].0 == k && s[c + j].0 == k);
        }
    }
}


/// Key-disjoint maps may be united in either order.
pub proof fn lemma_disjoint_union_comm(m1: Map<u64, u64>, m2: Map<u64, u64>)
    requires
        m1.dom().disjoint(m2.dom()),
    ensures
        m1.union_prefer_right(m2) == m2.union_prefer_right(m1),
{
    assert(m1.union_prefer_right(m2) =~= m2.union_prefer_right(m1));
}


/// Keys paired with their mask bits (1 for live), position by position.
pub open spec fn tagged(keys: Seq<u64>, m: Seq<bool>) -> Seq<(u64, u64)> {
    Seq::new(
        keys.len(),
        |i: int|
            (
                keys[i],
                if m[i] {
                    1u64
                } else {
                    0u64
                },
            ),
    )
}


/// Pair sequences with the same keys denote maps over the same keys.
pub proof fn lemma_seq_to_map_dom_keys(a: Seq<(u64, u64)>, b: Seq<(u64, u64)>)
    requires
        keys_of(a) == keys_of(b),
    ensures
        seq_to_map(a).dom() == seq_to_map(b).dom(),
{
    assert(a.len() == b.len()) by {
        assert(keys_of(a).len() == a.len() && keys_of(b).len() == b.len());
    }
    assert forall|k: u64| #[trigger] seq_to_map(a).dom().contains(k) == seq_to_map(b).dom()
        .contains(k) by {
        lemma_seq_to_map_contains(a, k);
        lemma_seq_to_map_contains(b, k);
        assert(forall|i: int| 0 <= i < a.len() ==> (#[trigger] a[i]).0 == keys_of(a)[i]);
        assert(forall|i: int| 0 <= i < b.len() ==> (#[trigger] b[i]).0 == keys_of(b)[i]);
        if exists|i: int| 0 <= i < a.len() && (#[trigger] a[i]).0 == k {
            let i = choose|i: int| 0 <= i < a.len() && (#[trigger] a[i]).0 == k;
            assert(keys_of(a)[i] == k);
            assert(keys_of(b)[i] == k);
            assert(b[i].0 == k);
        }
        if exists|i: int| 0 <= i < b.len() && (#[trigger] b[i]).0 == k {
            let i = choose|i: int| 0 <= i < b.len() && (#[trigger] b[i]).0 == k;
            assert(keys_of(b)[i] == k);
            assert(keys_of(a)[i] == k);
            assert(a[i].0 == k);
        }
    }
    assert(seq_to_map(a).dom() =~= seq_to_map(b).dom());
}

} // verus!
