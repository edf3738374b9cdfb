//! Verified merging and sorting of key/value pair vectors, the workhorse
//! of the cascade merge.

use vstd::prelude::*;

use crate::model::{lemma_concat_multiset, pairs_le};

verus! {

/// Merge two key-sorted vectors into one key-sorted vector holding
/// exactly the entries of both.  On equal keys the entry of `b`, the
/// later source, is emitted first.
pub fn merge_pairs(a: Vec<(u64, u64)>, b: Vec<(u64, u64)>) -> (r: Vec<(u64, u64)>)
    requires
        pairs_le(a@),
        pairs_le(b@),
        a@.len() + b@.len() <= usize::MAX as int,
    ensures
        pairs_le(r@),
        r@.to_multiset() == a@.to_multiset().add(b@.to_multiset()),
        r@.len() == a@.len() + b@.len(),
{
    broadcast use vstd::seq_lib::group_to_multiset_ensures;

    let na = a.len();
    let nb = b.len();
    let mut r: Vec<(u64, u64)> = Vec::new();
    let mut i: usize = 0;
    let mut j: usize = 0;
    while i < na || j < nb
        invariant
            na == a@.len(),
            nb == b@.len(),
            i <= na,
            j <= nb,
            pairs_le(a@),
            pairs_le(b@),
            pairs_le(r@),
            r@.len() == i + j,
            r@.to_multiset() == a@.take(i as int).to_multiset().add(
                b@.take(j as int).to_multiset(),
            ),
            forall|m: int| i <= m < na && r@.len() > 0 ==> r@.last().0 <= (#[trigger] a@[m]).0,
            forall|m: int| j <= m < nb && r@.len() > 0 ==> r@.last().0 <= (#[trigger] b@[m]).0,
        decreases na - i + nb - j,
    {
        broadcast use vstd::seq_lib::group_to_multiset_ensures;

        let take_a = if i < na {
            if j < nb {
                a[i].0 < b[j].0
            } else {
                true
            }
        } else {
            false
        };
        if take_a {
            let p = a[i];
            assert(a@.take(i as int + 1) =~= a@.take(i as int).push(p));
            assert(a@.take(i as int + 1).to_multiset() == a@.take(i as int).to_multiset().insert(
                p,
            ));
            r.push(p);
            proof {
                assert(r@.to_multiset() =~= a@.take(i as int + 1).to_multiset().add(
                    b@.take(j as int).to_multiset(),
                ));
            }
            i += 1;
        } else {
            let p = b[j];
            assert(b@.take(j as int + 1) =~= b@.take(j as int).push(p));
            assert(b@.take(j as int + 1).to_multiset() == b@.take(j as int).to_multiset().insert(
                p,
            ));
            r.push(p);
            proof {
                assert(r@.to_multiset() =~= a@.take(i as int).to_multiset().add(
                    b@.take(j as int + 1).to_multiset(),
                ));
            }
            j += 1;
        }
    }
    proof {
        assert(a@.take(na as int) =~= a@);
        assert(b@.take(nb as int) =~= b@);
    }
    r
}

/// Sort a pair vector by key with a merge sort.
pub fn msort_pairs(v: Vec<(u64, u64)>) -> (r: Vec<(u64, u64)>)
    ensures
        pairs_le(r@),
        r@.to_multiset() == v@.to_multiset(),
        r@.len() == v@.len(),
    decreases v@.len(),
{
    if v.len() <= 1 {
        return v;
    }
    let mid = v.len() / 2;
    let ghost v0 = v@;
    let mut left = v;
    let right = left.split_off(mid);
    proof {
        assert(v0 =~= left@ + right@);
        lemma_concat_multiset(left@, right@);
    }
    let ls = msort_pairs(left);
    let rs = msort_pairs(right);
    merge_pairs(ls, rs)
}


/// Copy the entries at positions `a .. b` into a fresh vector.
pub fn copy_range(v: &Vec<(u64, u64)>, a: usize, b: usize) -> (r: Vec<(u64, u64)>)
    requires
        a <= b <= v@.len(),
    ensures
        r@ == v@.subrange(a as int, b as int),
{
    let mut r: Vec<(u64, u64)> = Vec::new();
    let mut i = a;
    while i < b
        invariant
            a <= i <= b <= v@.len(),
            r@ == v@.subrange(a as int, i as int),
        decreases b - i,
    {
        let p = v[i];
        r.push(p);
        proof {
            assert(r@ =~= v@.subrange(a as int, i as int + 1));
        }
        i += 1;
    }
    r
}

} // verus!
