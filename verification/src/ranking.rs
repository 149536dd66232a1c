//! Farthest-first rankings: samples ordered by descending distance, and by
//! ascending index among equal distances. What is not a number ranks by its
//! pattern, beyond the infinities.

use crate::float_order::{bits_below, order_value64};
use crate::rng::{identity, identity_vec};
use vstd::prelude::*;

verus! {

/// Whether sample `a` ranks before sample `b`.
pub open spec fn ranks_before(dist: Seq<u64>, a: usize, b: usize) -> bool {
    let da = order_value64(dist[a as int]);
    let db = order_value64(dist[b as int]);
    da > db || da == db && a < b
}

/// Entries that are samples, each ranking before all that follow.
pub open spec fn ranked(order: Seq<usize>, dist: Seq<u64>) -> bool {
    &&& forall|i: int| 0 <= i < order.len() ==> #[trigger] order[i] < dist.len()
    &&& forall|i: int, j: int|
        0 <= i < j < order.len() ==> ranks_before(dist, #[trigger] order[i], #[trigger] order[j])
}

/// The ranking of all samples.
pub open spec fn is_ranking(order: Seq<usize>, dist: Seq<u64>) -> bool {
    &&& ranked(order, dist)
    &&& order.to_multiset() == identity(dist.len()).to_multiset()
}

fn before(dist: &Vec<u64>, a: usize, b: usize) -> (r: bool)
    requires
        a < dist.len(),
        b < dist.len(),
    ensures
        r == ranks_before(dist@, a, b),
{
    if bits_below(dist[b], dist[a]) {
        true
    } else if bits_below(dist[a], dist[b]) {
        false
    } else {
        a < b
    }
}

/// Merges two ranked runs.
fn merge_runs(a: &Vec<usize>, b: &Vec<usize>, dist: &Vec<u64>) -> (r: Vec<usize>)
    requires
        ranked(a@, dist@),
        ranked(b@, dist@),
        forall|i: int, j: int| 0 <= i < a.len() && 0 <= j < b.len() ==> a[i] != b[j],
    ensures
        ranked(r@, dist@),
        r@.to_multiset() == a@.to_multiset().add(b@.to_multiset()),
{
    broadcast use vstd::seq_lib::group_to_multiset_ensures;

    let mut out: Vec<usize> = Vec::new();
    let mut i: usize = 0;
    let mut j: usize = 0;
    proof {
        assert(a@.take(0) =~= Seq::<usize>::empty());
        assert(b@.take(0) =~= Seq::<usize>::empty());
        assert(out@ =~= Seq::<usize>::empty());
        lemma_empty_multiset();
    }
    while i < a.len() || j < b.len()
        invariant
            i <= a.len(),
            j <= b.len(),
            ranked(a@, dist@),
            ranked(b@, dist@),
            forall|p: int, q: int| 0 <= p < a.len() && 0 <= q < b.len() ==> a[p] != b[q],
            ranked(out@, dist@),
            forall|p: int, q: int|
                0 <= p < out.len() && i <= q < a.len() ==> ranks_before(
                    dist@,
                    #[trigger] out[p],
                    #[trigger] a[q],
                ),
            forall|p: int, q: int|
                0 <= p < out.len() && j <= q < b.len() ==> ranks_before(
                    dist@,
                    #[trigger] out[p],
                    #[trigger] b[q],
                ),
            out@.to_multiset() == a@.take(i as int).to_multiset().add(
                b@.take(j as int).to_multiset(),
            ),
        decreases a.len() - i + b.len() - j,
    {
        let from_a: bool = if i >= a.len() {
            false
        } else if j >= b.len() {
            true
        } else {
            before(dist, a[i], b[j])
        };
        let ghost prev = out@;
        if from_a {
            proof {
                assert(a@.take(i + 1) =~= a@.take(i as int).push(a@[i as int]));
                assert forall|q: int| i < q < a.len() implies ranks_before(
                    dist@,
                    a@[i as int],
                    #[trigger] a[q],
                ) by {}
                if j < b.len() {
                    assert forall|q: int| j <= q < b.len() implies ranks_before(
                        dist@,
                        a@[i as int],
                        #[trigger] b[q],
                    ) by {
                        if q > j {
                            assert(ranks_before(dist@, b[j as int], b[q]));
                        }
                    }
                }
            }
            out.push(a[i]);
            i = i + 1;
        } else {
            proof {
                assert(b@.take(j + 1) =~= b@.take(j as int).push(b@[j as int]));
                if i < a.len() {
                    assert(a[i as int] != b[j as int]);
                    assert(ranks_before(dist@, b@[j as int], a@[i as int]));
                    assert forall|q: int| i <= q < a.len() implies ranks_before(
                        dist@,
                        b@[j as int],
                        #[trigger] a[q],
                    ) by {
                        if q > i {
                            assert(ranks_before(dist@, a[i as int], a[q]));
                        }
                    }
                }
            }
            out.push(b[j]);
            j = j + 1;
        }
        proof {
            let x = out@[prev.len() as int];
            assert(out@ =~= prev.push(x));
            vstd::seq_lib::to_multiset_build(prev, x);
            if from_a {
                vstd::seq_lib::to_multiset_build(a@.take(i - 1), x);
                assert(a@.take(i as int) =~= a@.take(i - 1).push(x));
            } else {
                vstd::seq_lib::to_multiset_build(b@.take(j - 1), x);
                assert(b@.take(j as int) =~= b@.take(j - 1).push(x));
            }
            assert(out@.to_multiset() =~= a@.take(i as int).to_multiset().add(
                b@.take(j as int).to_multiset(),
            ));
        }
    }
    assert(a@.take(i as int) =~= a@);
    assert(b@.take(j as int) =~= b@);
    out
}

proof fn lemma_empty_multiset()
    ensures
        Seq::<usize>::empty().to_multiset() == vstd::multiset::Multiset::<usize>::empty().add(
            vstd::multiset::Multiset::<usize>::empty(),
        ),
        Seq::<usize>::empty().to_multiset() == vstd::multiset::Multiset::<usize>::empty(),
{
    broadcast use vstd::seq_lib::group_to_multiset_ensures;

    let e = Seq::<usize>::empty();
    assert(e.to_multiset() =~= vstd::multiset::Multiset::<usize>::empty()) by {
        assert(e.to_multiset().len() == 0);
    }
}

/// Ranks distinct samples by merge sort.
fn sort_run(items: &Vec<usize>, lo: usize, hi: usize, dist: &Vec<u64>) -> (r: Vec<usize>)
    requires
        lo <= hi <= items.len(),
        items@.no_duplicates(),
        forall|i: int| 0 <= i < items.len() ==> #[trigger] items[i] < dist.len(),
    ensures
        ranked(r@, dist@),
        r@.to_multiset() == items@.subrange(lo as int, hi as int).to_multiset(),
    decreases hi - lo,
{
    broadcast use vstd::seq_lib::group_to_multiset_ensures;

    if hi - lo <= 1 {
        let mut out: Vec<usize> = Vec::new();
        if lo < hi {
            out.push(items[lo]);
        }
        assert(out@ =~= items@.subrange(lo as int, hi as int));
        return out;
    }
    let mid: usize = lo + (hi - lo) / 2;
    let a: Vec<usize> = sort_run(items, lo, mid, dist);
    let b: Vec<usize> = sort_run(items, mid, hi, dist);
    proof {
        let left = items@.subrange(lo as int, mid as int);
        let right = items@.subrange(mid as int, hi as int);
        assert forall|i: int, j: int| 0 <= i < a.len() && 0 <= j < b.len() implies a[i] != b[j] by {
            assert(a@.contains(a[i]));
            assert(a@.to_multiset().count(a[i]) > 0);
            assert(left.contains(a[i]));
            assert(b@.contains(b[j]));
            assert(b@.to_multiset().count(b[j]) > 0);
            assert(right.contains(b[j]));
            let p = choose|p: int| 0 <= p < left.len() && left[p] == a[i];
            let q = choose|q: int| 0 <= q < right.len() && right[q] == b[j];
            assert(items@[lo + p] != items@[mid + q]);
        }
        vstd::seq_lib::lemma_multiset_commutative(left, right);
        assert(left + right =~= items@.subrange(lo as int, hi as int));
    }
    merge_runs(&a, &b, dist)
}

/// Ranks all samples, farthest first.
pub fn rank_farthest(dist: &Vec<u64>) -> (r: Vec<usize>)
    ensures
        is_ranking(r@, dist@),
        forall|i: int, j: int|
            0 <= i < j < r@.len() ==> order_value64(dist@[#[trigger] r@[i] as int])
                >= order_value64(dist@[#[trigger] r@[j] as int]),
{
    let n: usize = dist.len();
    let items: Vec<usize> = identity_vec(n);
    let r: Vec<usize> = sort_run(&items, 0, n, dist);
    assert(items@.subrange(0, n as int) =~= items@);
    r
}

/// There is one ranking.
pub proof fn lemma_ranking_unique(a: Seq<usize>, b: Seq<usize>, dist: Seq<u64>)
    requires
        is_ranking(a, dist),
        is_ranking(b, dist),
        dist.len() <= usize::MAX,
    ensures
        a == b,
{
    let leq = |x: usize, y: usize|
        if x < dist.len() && y < dist.len() {
            x == y || ranks_before(dist, x, y)
        } else if x < dist.len() || y < dist.len() {
            x < dist.len()
        } else {
            x <= y
        };
    assert(vstd::relations::total_ordering(leq));
    assert(vstd::relations::sorted_by(a, leq));
    assert(vstd::relations::sorted_by(b, leq));
    vstd::seq_lib::lemma_sorted_unique(a, b, leq);
}

/// A ranking lists every sample exactly once.
pub proof fn lemma_ranking_is_permutation(order: Seq<usize>, dist: Seq<u64>)
    requires
        is_ranking(order, dist),
        dist.len() <= usize::MAX,
    ensures
        crate::rng::is_permutation(order, dist.len()),
{
    broadcast use vstd::seq_lib::group_to_multiset_ensures;

    let id = identity(dist.len());
    assert(order.len() == order.to_multiset().len());
    assert(id.len() == id.to_multiset().len());
    assert forall|v: usize| v < dist.len() implies #[trigger] order.contains(v) by {
        assert(id[v as int] == v);
        assert(id.contains(v));
        assert(id.to_multiset().count(v) > 0);
    }
    assert(order.no_duplicates());
}

/// A ranking is farthest first: of two samples the farther comes first, and of
/// two that are equally far the one with the lower index.
pub proof fn lemma_ranking_farthest_first(order: Seq<usize>, dist: Seq<u64>, i: int, j: int)
    requires
        is_ranking(order, dist),
        0 <= i < order.len(),
        0 <= j < order.len(),
    ensures
        order_value64(dist[order[i] as int]) > order_value64(dist[order[j] as int]) ==> i < j,
        order_value64(dist[order[i] as int]) == order_value64(dist[order[j] as int]) && order[i]
            < order[j] ==> i < j,
{
    if j < i {
        assert(ranks_before(dist, order[j], order[i]));
    }
}

} // verus!
