//! Candidate split thresholds. A feature's thresholds are midpoints between
//! neighbouring values of its sorted column; this module picks the neighbours.

use crate::chunks::{joined_parts, lemma_parts_are_blocks, lemma_same_parts};
use crate::float_order::{all_numbers, bits_lt, is_nan64, le64, lt64, order_value64};
use crate::matrix::{column, column_of};
use crate::radix::{ascending_total64, is_sorting_of, lemma_sorting, radix_sort_total, sorting};
use crate::seqs::{block, injective_into};
use vstd::prelude::*;

verus! {

/// The entries of a column that exceed every entry kept before them.
pub open spec fn rising(s: Seq<u64>) -> Seq<u64>
    decreases s.len(),
{
    if s.len() == 0 {
        Seq::empty()
    } else {
        let r = rising(s.drop_last());
        if r.len() == 0 || lt64(r.last(), s.last()) {
            r.push(s.last())
        } else {
            r
        }
    }
}

/// Each value with its successor.
pub open spec fn neighbours(s: Seq<u64>) -> Seq<(u64, u64)> {
    Seq::new(
        if s.len() == 0 {
            0
        } else {
            (s.len() - 1) as nat
        },
        |i: int| (s[i], s[i + 1]),
    )
}

/// The position of the `k`-th of `n_bins` quantiles in a column of `n`.
pub open spec fn quantile_pos(k: int, n: int, n_bins: int) -> int {
    (k * n) / n_bins
}

/// The neighbours around the first `k - 1` quantile positions, where they
/// differ.
pub open spec fn quantile_pairs(col: Seq<u64>, n_bins: int, k: int) -> Seq<(u64, u64)>
    decreases k,
{
    if k <= 1 {
        Seq::empty()
    } else {
        let before = quantile_pairs(col, n_bins, k - 1);
        let i = quantile_pos(k - 1, col.len() as int, n_bins);
        if i >= 1 && lt64(col[i - 1], col[i]) {
            before.push((col[i - 1], col[i]))
        } else {
            before
        }
    }
}

/// The neighbours whose midpoints are a feature's candidate thresholds.
#[derive(Debug, PartialEq, Eq)]
pub struct EdgePairs {
    /// Whether every pair of neighbouring distinct values is there. Otherwise
    /// the pairs sit at the quantiles, and their midpoints still have to be
    /// thinned to a strictly rising run.
    pub exact: bool,
    pub pairs: Vec<(u64, u64)>,
    /// The last entry of the sorted column, which spare thresholds lie past.
    pub largest: u64,
}

/// Whether the distinct values leave no more gaps than there are thresholds.
pub open spec fn all_gaps_fit(col: Seq<u64>, n_bins: int) -> bool {
    rising(col).len() <= n_bins
}

/// The pairs for a sorted column.
pub open spec fn edge_pairs_of(col: Seq<u64>, n_bins: int) -> Seq<(u64, u64)> {
    if all_gaps_fit(col, n_bins) {
        neighbours(rising(col))
    } else {
        quantile_pairs(col, n_bins, n_bins)
    }
}

proof fn lemma_rising_len(s: Seq<u64>)
    ensures
        rising(s).len() <= s.len(),
        s.len() > 0 ==> rising(s).len() >= 1,
    decreases s.len(),
{
    if s.len() > 0 {
        lemma_rising_len(s.drop_last());
    }
}

/// A rising run is strictly increasing from each entry to the next.
pub proof fn lemma_rising_increases(s: Seq<u64>, i: int)
    requires
        0 <= i,
        i + 1 < rising(s).len(),
    ensures
        lt64(rising(s)[i], rising(s)[i + 1]),
    decreases s.len(),
{
    if s.len() > 0 {
        let r = rising(s.drop_last());
        if i + 1 < r.len() {
            lemma_rising_increases(s.drop_last(), i);
        }
    }
}

/// Keeps the entries that exceed every entry kept before them.
pub fn rising_run(s: &Vec<u64>) -> (r: Vec<u64>)
    ensures
        r@ == rising(s@),
{
    let mut out: Vec<u64> = Vec::new();
    let mut i: usize = 0;
    assert(s@.take(0) =~= Seq::<u64>::empty());
    while i < s.len()
        invariant
            i <= s.len(),
            out@ == rising(s@.take(i as int)),
        decreases s.len() - i,
    {
        let v: u64 = s[i];
        proof {
            assert(s@.take(i + 1).drop_last() =~= s@.take(i as int));
            assert(s@.take(i + 1).last() == v);
        }
        let m: usize = out.len();
        if m == 0 {
            out.push(v);
        } else if bits_lt(out[m - 1], v) {
            out.push(v);
        }
        i = i + 1;
    }
    assert(s@.take(i as int) =~= s@);
    out
}

proof fn lemma_quantile_pos(k: int, n: int, n_bins: int)
    requires
        0 <= k < n_bins,
        n > 0,
    ensures
        0 <= quantile_pos(k, n, n_bins) < n,
{
    vstd::arithmetic::div_mod::lemma_fundamental_div_mod(k * n, n_bins);
    vstd::arithmetic::div_mod::lemma_mod_bound(k * n, n_bins);
    let q = (k * n) / n_bins;
    let r = (k * n) % n_bins;
    assert(0 <= q < n) by (nonlinear_arith)
        requires
            k * n == n_bins * q + r,
            0 <= r < n_bins,
            0 <= k < n_bins,
            n > 0,
    ;
}

proof fn lemma_quantile_pairs_len(col: Seq<u64>, n_bins: int, k: int)
    requires
        k >= 1,
    ensures
        quantile_pairs(col, n_bins, k).len() <= k - 1,
    decreases k,
{
    if k > 1 {
        lemma_quantile_pairs_len(col, n_bins, k - 1);
    }
}

/// Picks the neighbours of a sorted, non-empty column: all of them when they
/// fit `n_bins - 1` thresholds, otherwise those around the quantiles.
pub fn edges_from_sorted(col: &Vec<u64>, n_bins: usize) -> (r: EdgePairs)
    requires
        col.len() > 0,
        n_bins >= 1,
        (n_bins - 1) * col.len() <= usize::MAX,
    ensures
        r.exact == all_gaps_fit(col@, n_bins as int),
        r.pairs@ == edge_pairs_of(col@, n_bins as int),
        r.pairs.len() <= n_bins - 1,
        r.largest == col@.last(),
{
    let n: usize = col.len();
    let largest: u64 = col[n - 1];
    let n_edges: usize = n_bins - 1;
    let distinct: Vec<u64> = rising_run(col);
    let mut pairs: Vec<(u64, u64)> = Vec::new();
    proof {
        lemma_rising_len(col@);
    }
    if distinct.len() - 1 <= n_edges {
        let mut i: usize = 0;
        while i + 1 < distinct.len()
            invariant
                distinct.len() >= 1,
                i <= distinct.len() - 1,
                pairs@ == neighbours(distinct@).take(i as int),
            decreases distinct.len() - i,
        {
            pairs.push((distinct[i], distinct[i + 1]));
            i = i + 1;
            assert(pairs@ =~= neighbours(distinct@).take(i as int));
        }
        assert(neighbours(distinct@).take(i as int) =~= neighbours(distinct@));
        return EdgePairs { exact: true, pairs, largest };
    }
    let mut k: usize = 1;
    while k < n_bins
        invariant
            1 <= k <= n_bins,
            n == col.len(),
            n > 0,
            (n_bins - 1) * n <= usize::MAX,
            pairs@ == quantile_pairs(col@, n_bins as int, k as int),
        decreases n_bins - k,
    {
        assert(k * n <= (n_bins - 1) * n) by (nonlinear_arith)
            requires
                k <= n_bins - 1,
        ;
        let i: usize = (k * n) / n_bins;
        proof {
            lemma_quantile_pos(k as int, n as int, n_bins as int);
        }
        if i >= 1 {
            if bits_lt(col[i - 1], col[i]) {
                pairs.push((col[i - 1], col[i]));
            }
        }
        k = k + 1;
    }
    proof {
        lemma_quantile_pairs_len(col@, n_bins as int, n_bins as int);
    }
    EdgePairs { exact: false, pairs, largest }
}

/// Two neighbouring entries of a column.
pub open spec fn entries_at(col: Seq<u64>, i: int) -> (u64, u64) {
    (col[i - 1], col[i])
}

/// The threshold neighbours of feature `j` of a row-major matrix of
/// floating-point patterns.
pub fn compute_edge_pairs(x: &[u64], n: usize, d: usize, j: usize, n_bins: usize) -> (r: EdgePairs)
    requires
        x@.len() == n * d,
        n > 0,
        j < d,
        n_bins >= 1,
        (n_bins - 1) * n <= usize::MAX,
    ensures
        ({
            let sorted = sorting(column(x@, n as int, d as int, j as int));
            &&& r.exact == all_gaps_fit(sorted, n_bins as int)
            &&& r.pairs@ == edge_pairs_of(sorted, n_bins as int)
            &&& r.largest == sorted.last()
        }),
        r.pairs.len() <= n_bins - 1,
{
    let col: Vec<u64> = column_of(x, n, d, j);
    let sorted: Vec<u64> = radix_sort_total(&col);
    proof {
        lemma_sorting(col@);
        crate::radix::lemma_sorting_unique(sorting(col@), sorted@);
    }
    edges_from_sorted(&sorted, n_bins)
}

/// Fills the thresholds of a feature up to `n_edges` with a value past its
/// largest, so that the spare slots stay empty.
pub fn pad_edges(edges: &Vec<u64>, n_edges: usize, pad: u64) -> (r: Vec<u64>)
    requires
        edges.len() <= n_edges,
    ensures
        r.len() == n_edges,
        forall|i: int|
            0 <= i < n_edges ==> #[trigger] r[i] == if i < edges.len() {
                edges[i]
            } else {
                pad
            },
{
    let mut out: Vec<u64> = Vec::new();
    let mut i: usize = 0;
    while i < n_edges
        invariant
            i <= n_edges,
            out.len() == i,
            forall|k: int|
                0 <= k < i ==> #[trigger] out[k] == if k < edges.len() {
                    edges[k]
                } else {
                    pad
                },
        decreases n_edges - i,
    {
        if i < edges.len() {
            out.push(edges[i]);
        } else {
            out.push(pad);
        }
        i = i + 1;
    }
    out
}

/// The thresholds that the midpoints of the pairs give: all of them, or where
/// they sit at the quantiles a strictly rising run.
pub open spec fn candidates(exact: bool, mids: Seq<u64>) -> Seq<u64> {
    if exact {
        mids
    } else {
        rising(mids)
    }
}

/// The thresholds of a feature: its candidates, and then `pad`.
pub open spec fn edges_of(exact: bool, mids: Seq<u64>, n_edges: nat, pad: u64) -> Seq<u64> {
    Seq::new(
        n_edges,
        |i: int|
            if i < candidates(exact, mids).len() {
                candidates(exact, mids)[i]
            } else {
                pad
            },
    )
}

/// The thresholds of a feature from the midpoints of its pairs, filled up to
/// `n_edges` with `pad`.
pub fn finish_edges(exact: bool, mids: &Vec<u64>, n_edges: usize, pad: u64) -> (r: Vec<u64>)
    requires
        mids.len() <= n_edges,
    ensures
        r@ == edges_of(exact, mids@, n_edges as nat, pad),
{
    proof {
        lemma_rising_len(mids@);
    }
    if exact {
        pad_edges(mids, n_edges, pad)
    } else {
        pad_edges(&rising_run(mids), n_edges, pad)
    }
}

proof fn lemma_rising_covers(s: Seq<u64>, i: int)
    requires
        ascending_total64(s),
        all_numbers(s),
        0 <= i < s.len(),
    ensures
        exists|j: int|
            0 <= j < rising(s).len() && order_value64(#[trigger] rising(s)[j]) == order_value64(
                s[i],
            ),
        order_value64(rising(s).last()) == order_value64(s.last()),
    decreases s.len(),
{
    let p = s.drop_last();
    let r = rising(p);
    lemma_rising_len(p);
    assert(rising(s).last() == s.last() || rising(s) == r);
    if p.len() > 0 {
        assert(ascending_total64(p)) by {
            assert forall|a: int, b: int| 0 <= a <= b < p.len() implies #[trigger]
                crate::float_order::total_value64(p[a]) <= #[trigger]
                crate::float_order::total_value64(p[b]) by {
                assert(p[a] == s[a] && p[b] == s[b]);
            }
        }
        assert(all_numbers(p)) by {
            assert forall|a: int| 0 <= a < p.len() implies !is_nan64(#[trigger] p[a]) by {
                assert(p[a] == s[a]);
            }
        }
        lemma_rising_covers(p, p.len() - 1);
        let m = s.len() - 1;
        assert(crate::float_order::total_value64(s[m - 1]) <= crate::float_order::total_value64(
            s[m],
        ));
        crate::float_order::lemma_total_refines_order(s[m - 1], s[m]);
        lemma_rising_members(p, r.len() - 1);
        assert(!is_nan64(s[m]));
        assert(order_value64(rising(s).last()) == order_value64(s.last()));
        if i < p.len() {
            lemma_rising_covers(p, i);
            let j = choose|j: int|
                0 <= j < r.len() && order_value64(#[trigger] r[j]) == order_value64(p[i]);
            assert(rising(s)[j] == r[j]);
        } else {
            assert(rising(s)[rising(s).len() - 1] == rising(s).last());
        }
    } else {
        assert(rising(s)[0] == s[0]);
    }
}

proof fn lemma_rising_members(s: Seq<u64>, j: int)
    requires
        0 <= j < rising(s).len(),
    ensures
        s.contains(rising(s)[j]),
    decreases s.len(),
{
    if s.len() > 0 {
        let p = s.drop_last();
        if j < rising(p).len() {
            lemma_rising_members(p, j);
            let k = choose|k: int| 0 <= k < p.len() && p[k] == rising(p)[j];
            assert(s[k] == rising(s)[j]);
        } else {
            assert(s[s.len() - 1] == rising(s)[j]);
        }
    }
}

proof fn lemma_rising_ordered(s: Seq<u64>, i: int, j: int)
    requires
        0 <= i <= j < rising(s).len(),
        all_numbers(s),
    ensures
        order_value64(rising(s)[i]) <= order_value64(rising(s)[j]),
        i < j ==> order_value64(rising(s)[i]) < order_value64(rising(s)[j]),
    decreases j - i,
{
    if i < j {
        lemma_rising_increases(s, i);
        lemma_rising_ordered(s, i + 1, j);
    }
}

/// Exactness: when a column without NaN has few distinct values, its pairs are
/// all the pairs of neighbouring distinct values. Each pair is strictly
/// increasing, and no value of the column lies strictly between its two ends,
/// so the midpoints are the complete candidate set.
pub proof fn lemma_exact_pairs_complete(col: Seq<u64>, n_bins: int, p: int, i: int)
    requires
        ascending_total64(col),
        all_numbers(col),
        all_gaps_fit(col, n_bins),
        0 <= p < edge_pairs_of(col, n_bins).len(),
        0 <= i < col.len(),
    ensures
        lt64(edge_pairs_of(col, n_bins)[p].0, edge_pairs_of(col, n_bins)[p].1),
        order_value64(col[i]) <= order_value64(edge_pairs_of(col, n_bins)[p].0) || order_value64(
            col[i],
        ) >= order_value64(edge_pairs_of(col, n_bins)[p].1),
{
    lemma_rising_increases(col, p);
    lemma_rising_covers(col, i);
    let r = rising(col);
    let j = choose|j: int|
        0 <= j < r.len() && order_value64(#[trigger] r[j]) == order_value64(col[i]);
    if j <= p {
        lemma_rising_ordered(col, j, p);
    } else {
        lemma_rising_ordered(col, p + 1, j);
    }
}

/// Quantile pairs lie around data too: each is two neighbouring entries of the
/// sorted column, strictly increasing, with no entry strictly between them.
pub proof fn lemma_quantile_pairs_adjacent(col: Seq<u64>, n_bins: int, k: int, p: int)
    requires
        n_bins >= k,
        col.len() > 0,
        0 <= p < quantile_pairs(col, n_bins, k).len(),
    ensures
        exists|i: int|
            1 <= i < col.len() && quantile_pairs(col, n_bins, k)[p] == #[trigger] entries_at(
                col,
                i,
            ),
        lt64(quantile_pairs(col, n_bins, k)[p].0, quantile_pairs(col, n_bins, k)[p].1),
    decreases k,
{
    if k > 1 {
        let before = quantile_pairs(col, n_bins, k - 1);
        if p < before.len() {
            lemma_quantile_pairs_adjacent(col, n_bins, k - 1, p);
            let i = choose|i: int|
                1 <= i < col.len() && before[p] == #[trigger] entries_at(col, i);
            assert(quantile_pairs(col, n_bins, k)[p] == entries_at(col, i));
        } else {
            let i = quantile_pos(k - 1, col.len() as int, n_bins);
            lemma_quantile_pos(k - 1, col.len() as int, n_bins);
            assert(quantile_pairs(col, n_bins, k)[p] == entries_at(col, i));
        }
    }
}

/// The order of the rows makes no difference: where the rows of `y` are those of
/// `x`, row `i` at place `place[i]`, every feature has the same sorted column in
/// both, and so the same pairs and the same largest entry.
pub proof fn lemma_edges_ignore_row_order(
    x: Seq<u64>,
    y: Seq<u64>,
    place: Seq<int>,
    n: int,
    d: int,
    j: int,
)
    requires
        n >= 0,
        0 <= j < d,
        x.len() == n * d,
        y.len() == n * d,
        place.len() == n,
        injective_into(place, n),
        forall|i: int| 0 <= i < n ==> block(y, #[trigger] place[i], d) == block(x, i, d),
    ensures
        is_sorting_of(sorting(column(x, n, d, j)), column(x, n, d, j)),
        sorting(column(x, n, d, j)) == sorting(column(y, n, d, j)),
{
    let a = column(x, n, d, j);
    let b = column(y, n, d, j);
    assert forall|i: int| 0 <= i < n implies b[#[trigger] place[i]] == a[i] by {
        let p = place[i];
        crate::arith::lemma_flat_index(i, j, n, d);
        crate::arith::lemma_flat_index(p, j, n, d);
        assert(block(y, p, d)[j] == y[p * d + j]);
        assert(block(x, i, d)[j] == x[i * d + j]);
    }
    crate::seqs::lemma_scatter_keeps_items(a, b, place);
    lemma_sorting(a);
    lemma_sorting(b);
    crate::radix::lemma_sorting_unique(sorting(a), sorting(b));
}

/// Whether a value lies between the two of a pair.
pub open spec fn lies_between(pair: (u64, u64), m: u64) -> bool {
    le64(pair.0, m) && le64(m, pair.1)
}

proof fn lemma_pairs_in_column(col: Seq<u64>, n_bins: int, q: int)
    requires
        ascending_total64(col),
        all_numbers(col),
        col.len() > 0,
        0 <= q < edge_pairs_of(col, n_bins).len(),
    ensures
        lt64(edge_pairs_of(col, n_bins)[q].0, edge_pairs_of(col, n_bins)[q].1),
        order_value64(edge_pairs_of(col, n_bins)[q].1) <= order_value64(col.last()),
{
    let r = rising(col);
    let last = col.len() - 1;
    if all_gaps_fit(col, n_bins) {
        lemma_rising_increases(col, q);
        lemma_rising_ordered(col, q + 1, r.len() - 1);
        lemma_rising_covers(col, 0);
    } else {
        lemma_quantile_pairs_adjacent(col, n_bins, n_bins, q);
        let i = choose|i: int|
            1 <= i < col.len() && quantile_pairs(col, n_bins, n_bins)[q] == #[trigger] entries_at(
                col,
                i,
            );
        assert(crate::float_order::total_value64(col[i]) <= crate::float_order::total_value64(
            col[last],
        ));
        assert(!is_nan64(col[i]) && !is_nan64(col[last]));
        crate::float_order::lemma_total_refines_order(col[i], col[last]);
    }
}

/// Finished thresholds ascend, and each is padding or lies between the two
/// values of a pair of neighbouring distinct values. Stated of columns without
/// NaN, for midpoints that lie between their values and padding that is not
/// below the largest entry.
pub proof fn lemma_edges_ascend(
    col: Seq<u64>,
    n_bins: int,
    mids: Seq<u64>,
    pad: u64,
    i: int,
    k: int,
)
    requires
        ascending_total64(col),
        all_numbers(col),
        col.len() > 0,
        n_bins >= 1,
        mids.len() == edge_pairs_of(col, n_bins).len(),
        forall|q: int|
            0 <= q < mids.len() ==> lies_between(
                edge_pairs_of(col, n_bins)[q],
                #[trigger] mids[q],
            ),
        le64(col.last(), pad),
        0 <= i <= k < n_bins - 1,
    ensures
        ({
            let edges = edges_of(all_gaps_fit(col, n_bins), mids, (n_bins - 1) as nat, pad);
            &&& le64(edges[i], edges[k])
            &&& edges[i] == pad || exists|q: int|
                0 <= q < mids.len() && lies_between(
                    #[trigger] edge_pairs_of(col, n_bins)[q],
                    edges[i],
                ) && lt64(edge_pairs_of(col, n_bins)[q].0, edge_pairs_of(col, n_bins)[q].1)
        }),
{
    let exact = all_gaps_fit(col, n_bins);
    let pairs = edge_pairs_of(col, n_bins);
    let cand = candidates(exact, mids);
    assert(all_numbers(mids)) by {
        assert forall|q: int| 0 <= q < mids.len() implies !is_nan64(#[trigger] mids[q]) by {
            assert(lies_between(pairs[q], mids[q]));
        }
    }
    if i < cand.len() {
        let q = lemma_candidate_pair(exact, mids, i);
        assert(lies_between(pairs[q], mids[q]));
        lemma_pairs_in_column(col, n_bins, q);
        if k < cand.len() {
            if exact {
                if i < k {
                    lemma_rising_ordered(col, i + 1, k);
                    assert(lies_between(pairs[k], mids[k]));
                }
            } else {
                lemma_rising_ordered(mids, i, k);
                lemma_candidate_pair(exact, mids, k);
            }
        }
    }
}

/// The pair whose midpoint candidate `i` is.
proof fn lemma_candidate_pair(exact: bool, mids: Seq<u64>, i: int) -> (q: int)
    requires
        0 <= i < candidates(exact, mids).len(),
    ensures
        0 <= q < mids.len(),
        mids[q] == candidates(exact, mids)[i],
{
    if exact {
        i
    } else {
        lemma_rising_members(mids, i);
        choose|q: int| 0 <= q < mids.len() && mids[q] == rising(mids)[i]
    }
}

/// The thresholds of a feature, from how the midpoint of a pair and the padding
/// past a largest entry are computed.
pub open spec fn feature_edges(
    col: Seq<u64>,
    n_bins: int,
    midpoint: spec_fn((u64, u64)) -> u64,
    past: spec_fn(u64) -> u64,
) -> Seq<u64> {
    let sorted = sorting(col);
    edges_of(
        all_gaps_fit(sorted, n_bins),
        edge_pairs_of(sorted, n_bins).map_values(midpoint),
        (n_bins - 1) as nat,
        past(sorted.last()),
    )
}

/// The thresholds of a feature do not depend on the order of the rows, however
/// midpoints and padding are computed.
pub proof fn lemma_feature_edges_ignore_row_order(
    x: Seq<u64>,
    y: Seq<u64>,
    place: Seq<int>,
    n: int,
    d: int,
    j: int,
    n_bins: int,
    midpoint: spec_fn((u64, u64)) -> u64,
    past: spec_fn(u64) -> u64,
)
    requires
        n >= 0,
        0 <= j < d,
        x.len() == n * d,
        y.len() == n * d,
        n_bins >= 1,
        place.len() == n,
        injective_into(place, n),
        forall|i: int| 0 <= i < n ==> block(y, #[trigger] place[i], d) == block(x, i, d),
    ensures
        feature_edges(column(x, n, d, j), n_bins, midpoint, past).len() == n_bins - 1,
        feature_edges(column(x, n, d, j), n_bins, midpoint, past) == feature_edges(
            column(y, n, d, j),
            n_bins,
            midpoint,
            past,
        ),
{
    lemma_edges_ignore_row_order(x, y, place, n, d, j);
}

/// The thresholds of a feature ascend, and each is padding or lies between two
/// neighbouring distinct values. Stated of columns without NaN whose midpoints
/// lie between their values, with padding that is not below the largest entry.
pub proof fn lemma_feature_edges_ascend(
    col: Seq<u64>,
    n_bins: int,
    midpoint: spec_fn((u64, u64)) -> u64,
    past: spec_fn(u64) -> u64,
    i: int,
    k: int,
)
    requires
        all_numbers(col),
        col.len() > 0,
        0 <= i <= k < n_bins - 1,
        forall|q: int|
            0 <= q < edge_pairs_of(sorting(col), n_bins).len() ==> lies_between(
                #[trigger] edge_pairs_of(sorting(col), n_bins)[q],
                midpoint(edge_pairs_of(sorting(col), n_bins)[q]),
            ),
        le64(sorting(col).last(), past(sorting(col).last())),
    ensures
        ({
            let edges = feature_edges(col, n_bins, midpoint, past);
            let pairs = edge_pairs_of(sorting(col), n_bins);
            &&& le64(edges[i], edges[k])
            &&& edges[i] == past(sorting(col).last()) || exists|q: int|
                0 <= q < pairs.len() && lies_between(#[trigger] pairs[q], edges[i]) && lt64(
                    pairs[q].0,
                    pairs[q].1,
                )
        }),
{
    broadcast use vstd::seq_lib::group_to_multiset_ensures;

    let sorted = sorting(col);
    lemma_sorting(col);
    assert(sorted.len() == col.len()) by {
        assert(sorted.to_multiset().len() == sorted.len());
        assert(col.to_multiset().len() == col.len());
    }
    assert forall|p: int| 0 <= p < sorted.len() implies !is_nan64(#[trigger] sorted[p]) by {
        assert(sorted.contains(sorted[p]));
        assert(col.to_multiset().count(sorted[p]) > 0);
        assert(col.contains(sorted[p]));
    }
    let pairs = edge_pairs_of(sorted, n_bins);
    let mids = pairs.map_values(midpoint);
    assert forall|q: int| 0 <= q < mids.len() implies lies_between(pairs[q], #[trigger] mids[q]) by {
        assert(lies_between(pairs[q], midpoint(pairs[q])));
    }
    lemma_edges_ascend(sorted, n_bins, mids, past(sorted.last()), i, k);
}

/// The table of all thresholds, one feature after the other, has `n_bins - 1` of
/// each, and does not depend on the order of the rows.
pub proof fn lemma_edge_table(
    x: Seq<u64>,
    y: Seq<u64>,
    place: Seq<int>,
    n: int,
    d: int,
    n_bins: int,
    midpoint: spec_fn((u64, u64)) -> u64,
    past: spec_fn(u64) -> u64,
    of_x: Seq<Vec<u64>>,
    of_y: Seq<Vec<u64>>,
)
    requires
        n >= 0,
        d >= 0,
        x.len() == n * d,
        y.len() == n * d,
        n_bins >= 1,
        place.len() == n,
        injective_into(place, n),
        forall|i: int| 0 <= i < n ==> block(y, #[trigger] place[i], d) == block(x, i, d),
        of_x.len() == d,
        of_y.len() == d,
        forall|j: int|
            0 <= j < d ==> (#[trigger] of_x[j])@ == feature_edges(
                column(x, n, d, j),
                n_bins,
                midpoint,
                past,
            ),
        forall|j: int|
            0 <= j < d ==> (#[trigger] of_y[j])@ == feature_edges(
                column(y, n, d, j),
                n_bins,
                midpoint,
                past,
            ),
    ensures
        joined_parts(of_x, d as nat).len() == d * (n_bins - 1),
        forall|j: int|
            0 <= j < d ==> #[trigger] block(joined_parts(of_x, d as nat), j, n_bins - 1)
                == feature_edges(column(x, n, d, j), n_bins, midpoint, past),
        joined_parts(of_x, d as nat) == joined_parts(of_y, d as nat),
{
    assert forall|j: int| 0 <= j < d implies (#[trigger] of_x[j])@ == of_y[j]@ by {
        lemma_feature_edges_ignore_row_order(x, y, place, n, d, j, n_bins, midpoint, past);
    }
    lemma_parts_are_blocks(of_x, (n_bins - 1) as nat, d as nat);
    lemma_same_parts(of_x, of_y, d as nat);
}

/// A quantile stands where its share of the column ends: `k` of `n_bins` equal
/// shares.
pub proof fn lemma_quantile_share(k: int, n: int, n_bins: int)
    requires
        n_bins >= 1,
    ensures
        quantile_pos(k, n, n_bins) * n_bins <= k * n,
        k * n < (quantile_pos(k, n, n_bins) + 1) * n_bins,
{
    vstd::arithmetic::div_mod::lemma_fundamental_div_mod(k * n, n_bins);
    vstd::arithmetic::div_mod::lemma_mod_bound(k * n, n_bins);
    let q = (k * n) / n_bins;
    assert(q * n_bins <= k * n && k * n < (q + 1) * n_bins) by (nonlinear_arith)
        requires
            k * n == n_bins * q + (k * n) % n_bins,
            0 <= (k * n) % n_bins < n_bins,
    ;
}

/// No quantile is left out: where the two entries around one differ, they are
/// among the pairs.
pub proof fn lemma_every_quantile_pair(col: Seq<u64>, n_bins: int, m: int, k: int)
    requires
        1 <= k < m,
    ensures
        ({
            let i = quantile_pos(k, col.len() as int, n_bins);
            i >= 1 && lt64(col[i - 1], col[i]) ==> quantile_pairs(col, n_bins, m).contains(
                (col[i - 1], col[i]),
            )
        }),
    decreases m,
{
    let i = quantile_pos(k, col.len() as int, n_bins);
    let before = quantile_pairs(col, n_bins, m - 1);
    let all = quantile_pairs(col, n_bins, m);
    if i >= 1 && lt64(col[i - 1], col[i]) {
        if k == m - 1 {
            assert(all[before.len() as int] == (col[i - 1], col[i]));
        } else {
            lemma_every_quantile_pair(col, n_bins, m - 1, k);
            let p = choose|p: int| 0 <= p < before.len() && before[p] == (col[i - 1], col[i]);
            assert(all[p] == (col[i - 1], col[i]));
        }
    }
}

/// Quantiles are used only where the gaps between distinct values are more than
/// the thresholds: there are `n_bins` distinct values and one more.
pub proof fn lemma_quantiles_only_for_many(col: Seq<u64>, n_bins: int)
    requires
        col.len() > 0,
        n_bins >= 1,
    ensures
        all_gaps_fit(col, n_bins) <==> neighbours(rising(col)).len() <= n_bins - 1,
        all_gaps_fit(col, n_bins) ==> edge_pairs_of(col, n_bins).len() == rising(col).len() - 1,
{
    lemma_rising_len(col);
}

/// Thresholds are the candidates in order and then padding: nothing else is put
/// between them, and none is lost while there is room.
pub proof fn lemma_edges_then_padding(
    exact: bool,
    mids: Seq<u64>,
    n_edges: nat,
    pad: u64,
    i: int,
)
    requires
        0 <= i < n_edges,
    ensures
        edges_of(exact, mids, n_edges, pad).len() == n_edges,
        exact && i < mids.len() ==> edges_of(exact, mids, n_edges, pad)[i] == mids[i],
        i >= mids.len() ==> edges_of(exact, mids, n_edges, pad)[i] == pad,
        !exact && i + 1 < rising(mids).len() && i + 1 < n_edges ==> lt64(
            edges_of(exact, mids, n_edges, pad)[i],
            edges_of(exact, mids, n_edges, pad)[i + 1],
        ),
{
    lemma_rising_len(mids);
    if i + 1 < rising(mids).len() {
        lemma_rising_increases(mids, i);
    }
}

} // verus!
