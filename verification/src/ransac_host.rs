//! The host side of a consensus fit: the fixed row blocks that every trial is
//! scanned in, how they are dealt to workers, which rows are inliers, and the
//! gathering of sub-samples.

use crate::arith::{ceil_div_int, max_usize, min_usize, product_is};
use crate::chunks::{
    are_chunks, chunk_bounds, chunk_hi, chunk_lo, joined_parts, lemma_chunks_join,
    lemma_chunks_partition,
};
use crate::error::{shape_error, shape_mismatch, PrimError};
use crate::flag::{flag_text, parse_count, parsed_count};
use crate::float_order::{
    all_numbers, bits_is_nan, bits_lt, is_nan64, le64, lemma_total_refines_order, lt64,
    magnitude64, total_value64, SIGN64,
};
use crate::matrix::gather_rows;
use crate::radix::{ascending_total64, radix_sort_total, sorting};
use crate::seqs::block;
use vstd::prelude::*;

verus! {

/// Rows of one scan block. It is fixed, so that sums over blocks do not depend
/// on the number of workers.
pub const SCAN_BLOCK: usize = 4096;

/// Work below which another worker is not worth entering.
pub const MIN_WORK_PER_UNIT: usize = 32_768;

/// How a row's error is measured.
#[derive(Debug, Clone, Copy, PartialEq, Eq, Structural)]
pub enum RansacLoss {
    /// The sum of absolute errors over the targets.
    AbsoluteError,
    /// The sum of squared errors over the targets.
    SquaredError,
}

impl RansacLoss {
    /// The name of the loss.
    pub fn as_str(self) -> (r: &'static str)
        ensures
            r@ == match self {
                RansacLoss::AbsoluteError => "absolute_error"@,
                RansacLoss::SquaredError => "squared_error"@,
            },
    {
        match self {
            RansacLoss::AbsoluteError => "absolute_error",
            RansacLoss::SquaredError => "squared_error",
        }
    }
}

/// What the scan of one trial found: how many rows are inliers, and their
/// squared error per target.
#[derive(Debug, Clone)]
pub struct TrialScan<T> {
    pub n_inliers: usize,
    pub sq_err: Vec<T>,
}

// ---------------------------------------------------------------------------
// Blocks and workers
// ---------------------------------------------------------------------------

/// Whether the list holds the scan blocks of `n` rows.
pub open spec fn are_scan_blocks(blocks: Seq<(usize, usize)>, n: int) -> bool {
    are_chunks(blocks, n, SCAN_BLOCK as int)
}

/// The scan blocks of `n` rows.
pub fn scan_blocks(n: usize) -> (r: Vec<(usize, usize)>)
    ensures
        are_scan_blocks(r@, n as int),
{
    chunk_bounds(n, SCAN_BLOCK)
}

/// The number of workers for a pass: what the flag asks for, else one for each
/// share of work, within the machine and the number of blocks.
pub open spec fn units_planned(
    work_per_pass: usize,
    n_blocks: usize,
    units_flag: Option<&str>,
    machine_units: usize,
) -> int {
    match flag_text(units_flag) {
        Some(t) if parsed_count(t) is Some => vstd::math::max(parsed_count(t)->0 as int, 1),
        _ => vstd::math::max(
            1,
            vstd::math::min(
                vstd::math::min(
                    vstd::math::max(work_per_pass as int / (MIN_WORK_PER_UNIT as int), 1),
                    machine_units as int,
                ),
                vstd::math::max(n_blocks as int, 1),
            ),
        ),
    }
}

/// Plans the number of workers for a pass.
pub fn plan_units(
    work_per_pass: usize,
    n_blocks: usize,
    units_flag: Option<&str>,
    machine_units: usize,
) -> (r: usize)
    ensures
        r == units_planned(work_per_pass, n_blocks, units_flag, machine_units),
        r >= 1,
{
    match units_flag {
        Some(v) => {
            match parse_count(v) {
                Some(u) => {
                    return max_usize(u, 1);
                },
                None => {},
            }
        },
        None => {},
    }
    let by_work: usize = max_usize(work_per_pass / MIN_WORK_PER_UNIT, 1);
    max_usize(min_usize(min_usize(by_work, machine_units), max_usize(n_blocks, 1)), 1)
}

/// Whether worker `u` of `units` is dealt item `it`: the workers take turns.
pub open spec fn owns(u: int, units: int, it: int) -> bool {
    u <= it && (it - u) % units == 0
}

/// The items of worker `u`, ascending.
pub fn unit_items(u: usize, units: usize, items: usize) -> (r: Vec<usize>)
    requires
        units >= 1,
        u < units,
    ensures
        forall|i: int| 0 <= i < r.len() ==> #[trigger] r[i] == u + i * units && r[i] < items,
        forall|it: int|
            0 <= it < items && #[trigger] owns(u as int, units as int, it) ==> r@.contains(
                it as usize,
            ),
{
    let mut out: Vec<usize> = Vec::new();
    let mut it: usize = u;
    let mut done: bool = u >= items;
    assert(u + 0 * units == u) by (nonlinear_arith);
    while !done
        invariant
            units >= 1,
            done ==> u + out.len() * units >= items,
            !done ==> it == u + out.len() * units && it < items,
            forall|i: int|
                0 <= i < out.len() ==> #[trigger] out[i] == u + i * units && out[i] < items,
        decreases items - it + (if done { 0int } else { 1int }),
    {
        out.push(it);
        assert(u + out.len() * units == it + units) by (nonlinear_arith)
            requires
                it == u + (out.len() - 1) * units,
        ;
        if units >= items - it {
            done = true;
        } else {
            it = it + units;
        }
    }
    proof {
        assert forall|x: int|
            0 <= x < items && #[trigger] owns(u as int, units as int, x) implies out@.contains(
            x as usize,
        ) by {
            let q = (x - u) / (units as int);
            vstd::arithmetic::div_mod::lemma_fundamental_div_mod(x - u, units as int);
            assert(x == u + q * units) by (nonlinear_arith)
                requires
                    x - u == units * q + (x - u) % (units as int),
                    (x - u) % (units as int) == 0,
            ;
            let len = out.len() as int;
            assert(0 <= q < len) by (nonlinear_arith)
                requires
                    x == u + q * units,
                    u <= x < items,
                    u + len * units >= items,
                    units >= 1,
            ;
            assert(out[q] == x);
        }
    }
    out
}

/// Every item is dealt to exactly one worker, so the workers write to disjoint
/// slots and the slots hold the same whatever their number.
pub proof fn lemma_one_owner(units: int, it: int)
    requires
        units >= 1,
        it >= 0,
    ensures
        0 <= it % units < units,
        owns(it % units, units, it),
        forall|u: int| 0 <= u < units && #[trigger] owns(u, units, it) ==> u == it % units,
{
    vstd::arithmetic::div_mod::lemma_fundamental_div_mod(it, units);
    let u0 = it % units;
    let q = it / units;
    assert(q >= 0) by {
        vstd::arithmetic::div_mod::lemma_div_pos_is_pos(it, units);
    }
    assert(0 <= units * q) by (nonlinear_arith)
        requires
            units >= 1,
            q >= 0,
    ;
    assert((it - u0) % units == 0) by {
        assert(it - u0 == units * q);
        vstd::arithmetic::div_mod::lemma_mod_multiples_basic(q, units);
        assert(units * q == q * units) by (nonlinear_arith);
    }
    assert forall|u: int| 0 <= u < units && #[trigger] owns(u, units, it) implies u == u0 by {
        vstd::arithmetic::div_mod::lemma_fundamental_div_mod(it - u, units);
        let p = (it - u) / units;
        vstd::arithmetic::div_mod::lemma_fundamental_div_mod_converse(it, units, p, u);
    }
}

/// The worker that is dealt an item, and the place of the item among that
/// worker's.
pub fn item_place(it: usize, units: usize) -> (r: (usize, usize))
    requires
        units >= 1,
    ensures
        r.0 == it as int % units as int,
        r.1 == it as int / units as int,
        r.0 < units,
        r.0 + r.1 * units == it,
{
    proof {
        vstd::arithmetic::div_mod::lemma_fundamental_div_mod(it as int, units as int);
        assert(units * (it as int / units as int) == (it as int / units as int) * units)
            by (nonlinear_arith);
    }
    (it % units, it / units)
}

/// How many workers share a pass does not show: whatever the result of each item
/// is, when every worker holds the results of its own items in order, the place
/// of an item holds that item's result.
pub proof fn lemma_units_invisible<T>(
    value: spec_fn(int) -> T,
    held: Seq<Seq<T>>,
    units: int,
    it: int,
)
    requires
        units >= 1,
        it >= 0,
        held.len() == units,
        it / units < held[it % units].len(),
        forall|u: int, i: int|
            0 <= u < units && 0 <= i < held[u].len() ==> #[trigger] held[u][i] == value(
                u + i * units,
            ),
    ensures
        held[it % units][it / units] == value(it),
{
    vstd::arithmetic::div_mod::lemma_fundamental_div_mod(it, units);
    vstd::arithmetic::div_mod::lemma_div_pos_is_pos(it, units);
    assert(units * (it / units) == (it / units) * units) by (nonlinear_arith);
}

/// One piece of a batched scan: a trial, and the rows of one block.
#[derive(Debug, Clone, Copy, PartialEq, Eq)]
pub struct ScanItem {
    pub trial: usize,
    pub lo: usize,
    pub hi: usize,
}

/// The start of the mask of `trial`.
pub open spec fn mask_start(trial: int, n: int) -> int {
    trial * n
}

/// Items of a batched scan write to disjoint parts of the masks: two items whose
/// mask ranges share a position are the same.
pub proof fn lemma_items_disjoint(
    n: int,
    t1: int,
    b1: int,
    t2: int,
    b2: int,
    pos: int,
)
    requires
        n >= 0,
        t1 >= 0,
        t2 >= 0,
        0 <= b1 < ceil_div_int(n, SCAN_BLOCK as int),
        0 <= b2 < ceil_div_int(n, SCAN_BLOCK as int),
        mask_start(t1, n) + chunk_lo(SCAN_BLOCK as int, b1) <= pos < mask_start(t1, n) + chunk_hi(
            n,
            SCAN_BLOCK as int,
            b1,
        ),
        mask_start(t2, n) + chunk_lo(SCAN_BLOCK as int, b2) <= pos < mask_start(t2, n) + chunk_hi(
            n,
            SCAN_BLOCK as int,
            b2,
        ),
    ensures
        t1 == t2,
        b1 == b2,
{
    let r1 = pos - t1 * n;
    let r2 = pos - t2 * n;
    assert(t1 == t2) by (nonlinear_arith)
        requires
            0 <= r1 < n,
            0 <= r2 < n,
            r1 + t1 * n == r2 + t2 * n,
    ;
    lemma_chunks_partition(n, SCAN_BLOCK as int, r1);
    assert(chunk_lo(SCAN_BLOCK as int, b1) <= r1);
    assert(chunk_lo(SCAN_BLOCK as int, b2) <= r1);
}

/// The sum of the counts from `lo` to `hi`.
pub open spec fn count_sum(c: Seq<usize>, lo: int, hi: int) -> int
    decreases hi - lo,
{
    if lo >= hi {
        0
    } else {
        count_sum(c, lo, hi - 1) + c[hi - 1]
    }
}

proof fn lemma_count_sum_step(c: Seq<usize>, lo: int, mid: int, hi: int)
    requires
        0 <= lo <= mid <= hi <= c.len(),
    ensures
        0 <= count_sum(c, lo, mid) <= count_sum(c, lo, hi),
    decreases hi - lo,
{
    if lo < hi {
        if mid == hi {
            lemma_count_sum_step(c, lo, hi - 1, hi - 1);
        } else {
            lemma_count_sum_step(c, lo, mid, hi - 1);
        }
    }
}

/// The inlier count of each trial: the sum over its blocks.
pub fn fold_counts(part_n: &Vec<usize>, batch: usize, nb: usize) -> (r: Vec<usize>)
    requires
        part_n.len() == batch * nb,
        forall|trial: int|
            0 <= trial < batch ==> #[trigger] count_sum(
                part_n@,
                trial * nb,
                trial * nb + nb,
            ) <= usize::MAX,
    ensures
        r.len() == batch,
        forall|trial: int|
            0 <= trial < batch ==> #[trigger] r[trial] == count_sum(
                part_n@,
                trial * nb,
                trial * nb + nb,
            ),
{
    let len: usize = part_n.len();
    let mut out: Vec<usize> = Vec::new();
    let mut trial: usize = 0;
    while trial < batch
        invariant
            trial <= batch,
            len == batch * nb,
            part_n.len() == len,
            forall|t: int|
                0 <= t < batch ==> #[trigger] count_sum(part_n@, t * nb, t * nb + nb)
                    <= usize::MAX,
            out.len() == trial,
            forall|t: int|
                0 <= t < trial ==> #[trigger] out[t] == count_sum(part_n@, t * nb, t * nb + nb),
        decreases batch - trial,
    {
        assert(0 <= trial * nb && trial * nb + nb <= len) by (nonlinear_arith)
            requires
                0 <= trial < batch,
                len == batch * nb,
                nb >= 0,
        ;
        let start: usize = trial * nb;
        let mut sum: usize = 0;
        let mut b: usize = 0;
        assert(count_sum(part_n@, trial * nb, trial * nb + nb) <= usize::MAX);
        while b < nb
            invariant
                b <= nb,
                start + nb <= len,
                part_n.len() == len,
                sum == count_sum(part_n@, start as int, start + b),
                count_sum(part_n@, start as int, start + nb) <= usize::MAX,
            decreases nb - b,
        {
            proof {
                lemma_count_sum_step(part_n@, start as int, start + b + 1, start + nb);
            }
            sum = sum + part_n[start + b];
            b = b + 1;
        }
        out.push(sum);
        trial = trial + 1;
    }
    out
}

// ---------------------------------------------------------------------------
// Inliers and scores
// ---------------------------------------------------------------------------

/// How many of the first `m` rows are inliers: their residual does not exceed
/// the threshold.
pub open spec fn inliers_below(resid: Seq<u64>, threshold: u64, m: nat) -> nat
    decreases m,
{
    if m == 0 {
        0
    } else {
        inliers_below(resid, threshold, (m - 1) as nat) + if le64(resid[m - 1], threshold) {
            1nat
        } else {
            0nat
        }
    }
}

/// Marks the inliers among rows with the given residuals and counts them. A
/// residual equal to the threshold is an inlier; one that is not a number is
/// not. Values are floating-point bits.
pub fn classify(resid: &Vec<u64>, threshold: u64) -> (r: (Vec<bool>, usize))
    ensures
        r.0.len() == resid.len(),
        forall|i: int| 0 <= i < resid.len() ==> #[trigger] r.0[i] == le64(resid[i], threshold),
        r.0@ == marks(resid@, threshold),
        r.1 == inliers_below(resid@, threshold, resid@.len()),
{
    let mut mask: Vec<bool> = Vec::new();
    let mut n_in: usize = 0;
    let mut i: usize = 0;
    while i < resid.len()
        invariant
            i <= resid.len(),
            mask.len() == i,
            forall|j: int| 0 <= j < i ==> #[trigger] mask[j] == le64(resid[j], threshold),
            n_in == inliers_below(resid@, threshold, i as nat),
            n_in <= i,
        decreases resid.len() - i,
    {
        let v: u64 = resid[i];
        let inlier: bool = !bits_is_nan(v) && !bits_is_nan(threshold) && !bits_lt(threshold, v);
        mask.push(inlier);
        if inlier {
            n_in = n_in + 1;
        }
        i = i + 1;
    }
    (mask, n_in)
}

/// The inliers of consecutive blocks add up to the inliers of all rows.
pub proof fn lemma_inliers_add(resid: Seq<u64>, threshold: u64, cut: nat)
    requires
        cut <= resid.len(),
    ensures
        inliers_below(resid, threshold, resid.len()) == inliers_below(
            resid.take(cut as int),
            threshold,
            cut,
        ) + inliers_below(resid.skip(cut as int), threshold, (resid.len() - cut) as nat),
    decreases resid.len(),
{
    if resid.len() == cut {
        assert(resid.take(cut as int) =~= resid);
    } else {
        let rest = resid.drop_last();
        lemma_inliers_add(rest, threshold, cut);
        assert(rest.take(cut as int) =~= resid.take(cut as int));
        assert(rest.skip(cut as int) =~= resid.skip(cut as int).drop_last());
        lemma_inliers_prefix(resid, rest, threshold, rest.len());
        lemma_inliers_prefix(
            resid.skip(cut as int),
            rest.skip(cut as int),
            threshold,
            (rest.len() - cut) as nat,
        );
    }
}

proof fn lemma_inliers_prefix(a: Seq<u64>, b: Seq<u64>, threshold: u64, m: nat)
    requires
        m <= a.len(),
        m <= b.len(),
        forall|i: int| 0 <= i < m ==> a[i] == b[i],
    ensures
        inliers_below(a, threshold, m) == inliers_below(b, threshold, m),
    decreases m,
{
    if m > 0 {
        lemma_inliers_prefix(a, b, threshold, (m - 1) as nat);
    }
}

/// The inlier marks of rows with the given residuals.
pub open spec fn marks(resid: Seq<u64>, threshold: u64) -> Seq<bool> {
    Seq::new(resid.len(), |i: int| le64(resid[i], threshold))
}

/// How many of the first `m` marks are set.
pub open spec fn set_marks(mask: Seq<bool>, m: nat) -> nat
    decreases m,
{
    if m == 0 {
        0
    } else {
        set_marks(mask, (m - 1) as nat) + if mask[m - 1] {
            1nat
        } else {
            0nat
        }
    }
}

/// The inlier count of a scan is the number of marks that it sets.
pub proof fn lemma_count_is_marks(resid: Seq<u64>, threshold: u64, m: nat)
    requires
        m <= resid.len(),
    ensures
        inliers_below(resid, threshold, m) == set_marks(marks(resid, threshold), m),
    decreases m,
{
    if m > 0 {
        lemma_count_is_marks(resid, threshold, (m - 1) as nat);
    }
}

/// Whether the items of a batched scan hold the marks and the counts of their
/// rows: item `it` those of block `it % nb` of trial `it / nb`.
pub open spec fn items_scanned(
    resid: Seq<Seq<u64>>,
    threshold: u64,
    n: int,
    nb: int,
    masks: Seq<Vec<bool>>,
    counts: Seq<usize>,
) -> bool {
    &&& masks.len() == resid.len() * nb
    &&& counts.len() == resid.len() * nb
    &&& forall|t: int| 0 <= t < resid.len() ==> (#[trigger] resid[t]).len() == n
    &&& forall|it: int|
        0 <= it < masks.len() ==> (#[trigger] masks[it])@ == marks(
            item_rows(resid, n, nb, it),
            threshold,
        )
    &&& forall|it: int|
        0 <= it < counts.len() ==> #[trigger] counts[it] == inliers_below(
            item_rows(resid, n, nb, it),
            threshold,
            item_rows(resid, n, nb, it).len(),
        )
}

/// The residuals of the rows of item `it`.
pub open spec fn item_rows(resid: Seq<Seq<u64>>, n: int, nb: int, it: int) -> Seq<u64> {
    resid[it / nb].subrange(
        chunk_lo(SCAN_BLOCK as int, it % nb),
        chunk_hi(n, SCAN_BLOCK as int, it % nb),
    )
}

/// A batch gives every trial what a scan of it alone gives: with the items put
/// together in order, the mask of trial `t` is that of all its rows, its count
/// is their inliers, and the count is the number of marks set. The count of
/// workers does not occur.
pub proof fn lemma_batch_is_single_scans(
    resid: Seq<Seq<u64>>,
    threshold: u64,
    n: int,
    nb: int,
    masks: Seq<Vec<bool>>,
    counts: Seq<usize>,
    t: int,
)
    requires
        n >= 0,
        nb == ceil_div_int(n, SCAN_BLOCK as int),
        items_scanned(resid, threshold, n, nb, masks, counts),
        0 <= t < resid.len(),
    ensures
        joined_parts(masks, masks.len()).len() == resid.len() * n,
        block(joined_parts(masks, masks.len()), t, n) == marks(resid[t], threshold),
        count_sum(counts, t * nb, t * nb + nb) == inliers_below(resid[t], threshold, n as nat),
        count_sum(counts, t * nb, t * nb + nb) == set_marks(
            block(joined_parts(masks, masks.len()), t, n),
            n as nat,
        ),
{
    crate::arith::lemma_ceil_div_brackets(n, SCAN_BLOCK as int);
    lemma_batch_masks(resid, threshold, n, nb, masks, counts, resid.len(), t);
    lemma_trial_count(resid, threshold, n, nb, masks, counts, t, nb);
    assert(resid[t].take(n) =~= resid[t]);
    lemma_count_is_marks(resid[t], threshold, n as nat);
}

/// The item of block `b` of trial `t`.
proof fn lemma_item(t: int, b: int, trials: int, nb: int)
    requires
        0 <= t < trials,
        0 <= b < nb,
    ensures
        0 <= t * nb + b < trials * nb,
        (t * nb + b) / nb == t,
        (t * nb + b) % nb == b,
{
    crate::arith::lemma_flat_index(t, b, trials, nb);
    vstd::arithmetic::div_mod::lemma_fundamental_div_mod_converse(t * nb + b, nb, t, b);
}

proof fn lemma_batch_masks(
    resid: Seq<Seq<u64>>,
    threshold: u64,
    n: int,
    nb: int,
    masks: Seq<Vec<bool>>,
    counts: Seq<usize>,
    m: nat,
    t: int,
)
    requires
        n >= 0,
        nb == ceil_div_int(n, SCAN_BLOCK as int),
        nb >= 0,
        items_scanned(resid, threshold, n, nb, masks, counts),
        m <= resid.len(),
        0 <= t < m,
    ensures
        joined_parts(masks, (m * nb) as nat).len() == m * n,
        block(joined_parts(masks, (m * nb) as nat), t, n) == marks(resid[t], threshold),
    decreases m,
{
    let k = (m - 1) as nat;
    let trial = resid[k as int];
    let whole = marks(trial, threshold);
    let first = (k * nb) as nat;
    assert(k * nb >= 0 && m * nb == k * nb + nb && m * n == k * n + n && k * nb + nb <= resid.len()
        * nb) by (nonlinear_arith)
        requires
            k == m - 1,
            k >= 0,
            m <= resid.len(),
            nb >= 0,
    ;
    crate::arith::lemma_ceil_div_brackets(n, SCAN_BLOCK as int);
    assert(trial.len() == n);
    assert forall|i: int| first <= i < first + nb implies (#[trigger] masks[i])@
        == whole.subrange(
        chunk_lo(SCAN_BLOCK as int, i - first),
        chunk_hi(n, SCAN_BLOCK as int, i - first),
    ) by {
        let b = i - first;
        lemma_item(k as int, b, resid.len() as int, nb);
        assert(b * SCAN_BLOCK < n) by (nonlinear_arith)
            requires
                0 <= b <= nb - 1,
                (nb - 1) * SCAN_BLOCK < n || nb == 0,
        ;
        assert(masks[i]@ == marks(item_rows(resid, n, nb, i), threshold));
        assert(masks[i]@ =~= whole.subrange(
            chunk_lo(SCAN_BLOCK as int, b),
            chunk_hi(n, SCAN_BLOCK as int, b),
        ));
    }
    lemma_chunks_join(masks, first, whole, SCAN_BLOCK as int, nb as nat);
    let before = joined_parts(masks, first);
    assert(joined_parts(masks, (m * nb) as nat) == before + whole);
    if k == 0 {
        assert(0 * n == 0 && 0 * nb == 0) by (nonlinear_arith);
        assert(before.len() == k * n);
    } else {
        lemma_batch_masks(
            resid,
            threshold,
            n,
            nb,
            masks,
            counts,
            k,
            if t < k {
                t
            } else {
                0
            },
        );
    }
    crate::seqs::lemma_append_block(before, whole, k as int, n);
    if t < k {
        assert(block(before + whole, t, n) == block(before, t, n));
    }
}

proof fn lemma_trial_count(
    resid: Seq<Seq<u64>>,
    threshold: u64,
    n: int,
    nb: int,
    masks: Seq<Vec<bool>>,
    counts: Seq<usize>,
    t: int,
    m: int,
)
    requires
        n >= 0,
        nb == ceil_div_int(n, SCAN_BLOCK as int),
        items_scanned(resid, threshold, n, nb, masks, counts),
        0 <= t < resid.len(),
        0 <= m <= nb,
    ensures
        count_sum(counts, t * nb, t * nb + m) == inliers_below(
            resid[t],
            threshold,
            vstd::math::min(m * SCAN_BLOCK, n) as nat,
        ),
    decreases m,
{
    crate::arith::lemma_ceil_div_brackets(n, SCAN_BLOCK as int);
    if m > 0 {
        let b = m - 1;
        lemma_trial_count(resid, threshold, n, nb, masks, counts, t, b);
        lemma_item(t, b, resid.len() as int, nb);
        assert(0 <= b * SCAN_BLOCK < n && m * SCAN_BLOCK == b * SCAN_BLOCK + SCAN_BLOCK)
            by (nonlinear_arith)
            requires
                b == m - 1,
                0 <= b <= nb - 1,
                (nb - 1) * SCAN_BLOCK < n || nb == 0,
        ;
        let lo = chunk_lo(SCAN_BLOCK as int, b);
        let hi = chunk_hi(n, SCAN_BLOCK as int, b);
        let row = resid[t];
        assert(row.len() == n);
        let upto = row.take(hi);
        let part = row.subrange(lo, hi);
        assert(counts[t * nb + b] == inliers_below(part, threshold, part.len()));
        lemma_inliers_add(upto, threshold, lo as nat);
        assert(upto.skip(lo) =~= part);
        assert(upto.take(lo) =~= row.take(lo));
        lemma_inliers_prefix(row, upto, threshold, hi as nat);
        lemma_inliers_prefix(row, row.take(lo), threshold, lo as nat);
    }
}

/// A batch folds every trial as a scan of it alone does: whatever each item
/// gives, the items of trial `t` are those of its blocks in order, and however
/// they are added up, in that order, the total is that of the trial's own
/// blocks.
pub proof fn lemma_batch_folds_alone<T, A>(
    part: spec_fn(int, int) -> T,
    items: Seq<T>,
    trials: int,
    nb: int,
    t: int,
    zero: A,
    plus: spec_fn(A, T) -> A,
)
    requires
        0 <= t < trials,
        nb >= 0,
        items.len() == trials * nb,
        forall|it: int| 0 <= it < items.len() ==> #[trigger] items[it] == part(it / nb, it % nb),
    ensures
        block(items, t, nb) == Seq::new(nb as nat, |b: int| part(t, b)),
        block(items, t, nb).fold_left(zero, plus) == Seq::new(
            nb as nat,
            |b: int| part(t, b),
        ).fold_left(zero, plus),
{
    let own = Seq::new(nb as nat, |b: int| part(t, b));
    assert(0 <= t * nb && t * nb + nb <= trials * nb) by (nonlinear_arith)
        requires
            0 <= t < trials,
            nb >= 0,
    ;
    assert forall|b: int| 0 <= b < nb implies #[trigger] block(items, t, nb)[b] == own[b] by {
        lemma_item(t, b, trials, nb);
        assert(items[t * nb + b] == part(t, b));
    }
    assert(block(items, t, nb) =~= own);
}

/// The rows that trial `trial` of a batch draws.
pub fn trial_rows(idxs: &[i64], m: usize, batch: usize, trial: usize) -> (r: &[i64])
    requires
        idxs@.len() == batch * m,
        trial < batch,
    ensures
        r@ == block(idxs@, trial as int, m as int),
{
    let len: usize = idxs.len();
    assert(trial * m + m <= len) by (nonlinear_arith)
        requires
            trial < batch,
            len == batch * m,
    ;
    vstd::slice::slice_subrange(idxs, trial * m, trial * m + m)
}

/// A batch solves every trial as a solve of it alone does: whatever the solve of
/// a sub-sample gives, when part `i` is that of the rows of trial `i`, the parts
/// put together hold the solve of trial `j` as block `j`.
pub proof fn lemma_batch_solves_alone<T>(
    idxs: Seq<i64>,
    m: int,
    solve: spec_fn(Seq<i64>) -> Seq<T>,
    parts: Seq<Vec<T>>,
    len: nat,
    j: int,
)
    requires
        0 <= j < parts.len(),
        forall|i: int| 0 <= i < parts.len() ==> (#[trigger] parts[i])@ == solve(block(idxs, i, m)),
        forall|rows: Seq<i64>| (#[trigger] solve(rows)).len() == len,
    ensures
        joined_parts(parts, parts.len()).len() == parts.len() * len,
        block(joined_parts(parts, parts.len()), j, len as int) == solve(block(idxs, j, m)),
{
    crate::chunks::lemma_parts_are_blocks(parts, len, parts.len());
    assert(parts[j]@ == solve(block(idxs, j, m)));
}

/// What a median is computed from.
#[derive(Debug, Clone, Copy, PartialEq, Eq)]
pub enum MedianOf {
    /// There are no values, or one of them is not a number: neither is the
    /// median.
    Nothing,
    /// The middle value.
    One(u64),
    /// The two middle values, which are averaged.
    Two(u64, u64),
}

/// What the median of a sorted list is computed from.
pub open spec fn median_of_sorted(s: Seq<u64>) -> MedianOf {
    let mid = (s.len() / 2) as int;
    if s.len() == 0 {
        MedianOf::Nothing
    } else if s.len() % 2 == 1 {
        MedianOf::One(s[mid])
    } else {
        MedianOf::Two(s[mid - 1], s[mid])
    }
}

/// What the median of a list of floating-point bits is computed from. A list
/// with an entry that is not a number has no median.
pub open spec fn median_of(v: Seq<u64>) -> MedianOf {
    if all_numbers(v) {
        median_of_sorted(sorting(v))
    } else {
        MedianOf::Nothing
    }
}

/// Picks the middle values of a list of floating-point bits.
pub fn median_parts(v: &Vec<u64>) -> (r: MedianOf)
    ensures
        r == median_of(v@),
{
    let mut i: usize = 0;
    while i < v.len()
        invariant
            i <= v.len(),
            forall|j: int| 0 <= j < i ==> !is_nan64(#[trigger] v@[j]),
        decreases v.len() - i,
    {
        if bits_is_nan(v[i]) {
            assert(is_nan64(v@[i as int]));
            return MedianOf::Nothing;
        }
        i = i + 1;
    }
    let sorted: Vec<u64> = radix_sort_total(v);
    proof {
        crate::radix::lemma_sorting(v@);
        crate::radix::lemma_sorting_unique(sorting(v@), sorted@);
    }
    let n: usize = sorted.len();
    if n == 0 {
        return MedianOf::Nothing;
    }
    let mid: usize = n / 2;
    if n % 2 == 1 {
        MedianOf::One(sorted[mid])
    } else {
        MedianOf::Two(sorted[mid - 1], sorted[mid])
    }
}

/// The score of one target.
#[derive(Debug, Clone, Copy, PartialEq, Eq, Structural)]
pub enum R2Term {
    /// One minus the ratio of the squared error to the spread.
    Ratio,
    One,
    Zero,
}

/// The score of a target from its spread and squared error. A target without
/// spread scores one when it is predicted exactly and zero otherwise.
pub open spec fn r2_term(den: u64, sq_err: u64) -> R2Term {
    if magnitude64(sq_err) == 0 {
        R2Term::One
    } else if magnitude64(den) == 0 {
        R2Term::Zero
    } else {
        R2Term::Ratio
    }
}

fn is_zero_bits(b: u64) -> (r: bool)
    ensures
        r == (magnitude64(b) == 0),
{
    b == 0 || b == SIGN64
}

/// Whether a pattern is one of the two zeros.
pub open spec fn is_zero64(b: u64) -> bool {
    b == 0 || b == 0x8000_0000_0000_0000
}

/// The scores of the targets, to be averaged; `None` where fewer than two rows
/// are inliers and there is no score. Values are floating-point bits.
pub fn r2_from_sums(n_inliers: usize, sq_err: &Vec<u64>, den: &Vec<u64>) -> (r: Option<
    Vec<R2Term>,
>)
    requires
        sq_err.len() == den.len(),
    ensures
        n_inliers < 2 <==> r is None,
        r matches Some(v) ==> v.len() == den.len() && forall|k: int|
            0 <= k < v.len() ==> #[trigger] v[k] == r2_term(den[k], sq_err[k]),
        r matches Some(v) ==> forall|k: int|
            0 <= k < v.len() ==> {
                &&& #[trigger] v[k] == R2Term::One <==> is_zero64(sq_err[k])
                &&& v[k] == R2Term::Zero <==> !is_zero64(sq_err[k]) && is_zero64(den[k])
            },
{
    if n_inliers < 2 {
        return None;
    }
    let mut out: Vec<R2Term> = Vec::new();
    let mut k: usize = 0;
    while k < den.len()
        invariant
            k <= den.len(),
            sq_err.len() == den.len(),
            out.len() == k,
            forall|i: int| 0 <= i < k ==> #[trigger] out[i] == r2_term(den[i], sq_err[i]),
        decreases den.len() - k,
    {
        let spread: bool = !is_zero_bits(den[k]);
        let wrong: bool = !is_zero_bits(sq_err[k]);
        out.push(
            if spread && wrong {
                R2Term::Ratio
            } else if wrong {
                R2Term::Zero
            } else {
                R2Term::One
            },
        );
        k = k + 1;
    }
    Some(out)
}

// ---------------------------------------------------------------------------
// Sub-samples
// ---------------------------------------------------------------------------

/// Whether every index names a row.
pub open spec fn rows_named(idxs: Seq<i64>, n: int) -> bool {
    forall|k: int| 0 <= k < idxs.len() ==> 0 <= #[trigger] idxs[k] < n
}

fn as_rows(idxs: &[i64], n: usize) -> (r: Vec<usize>)
    requires
        rows_named(idxs@, n as int),
    ensures
        r.len() == idxs@.len(),
        forall|k: int| 0 <= k < r.len() ==> #[trigger] r[k] == idxs@[k] && r[k] < n,
{
    let mut out: Vec<usize> = Vec::new();
    let mut k: usize = 0;
    while k < idxs.len()
        invariant
            k <= idxs@.len(),
            rows_named(idxs@, n as int),
            out.len() == k,
            forall|i: int| 0 <= i < k ==> #[trigger] out[i] == idxs@[i] && out[i] < n,
        decreases idxs@.len() - k,
    {
        out.push(idxs[k] as usize);
        k = k + 1;
    }
    out
}

/// The listed rows of a row-major matrix, column by column: the column-major
/// copy that a least-squares solve works on.
pub fn gather_columns<T: Copy>(x: &[T], n: usize, d: usize, idxs: &[i64]) -> (r: Vec<T>)
    requires
        x@.len() == n * d,
        rows_named(idxs@, n as int),
        idxs@.len() * d <= usize::MAX,
    ensures
        r.len() == idxs@.len() * d,
        forall|c: int, i: int|
            0 <= c < d && 0 <= i < idxs@.len() ==> #[trigger] r@[column_slot(
                c,
                i,
                idxs@.len() as int,
            )] == x@[row_slot(idxs@[i] as int, c, d as int)],
{
    let len: usize = x.len();
    let m: usize = idxs.len();
    let rows: Vec<usize> = as_rows(idxs, n);
    let mut out: Vec<T> = Vec::new();
    let mut c: usize = 0;
    assert(0 * m == 0) by (nonlinear_arith);
    while c < d
        invariant
            c <= d,
            len == n * d,
            x@.len() == len,
            m == idxs@.len(),
            rows.len() == m,
            forall|k: int| 0 <= k < m ==> #[trigger] rows[k] == idxs@[k] && rows[k] < n,
            out.len() == c * m,
            forall|e: int, i: int|
                0 <= e < c && 0 <= i < m ==> #[trigger] out@[column_slot(e, i, m as int)] == x@[row_slot(
                    idxs@[i] as int,
                    e,
                    d as int,
                )],
        decreases d - c,
    {
        let mut i: usize = 0;
        while i < m
            invariant
                i <= m,
                c < d,
                len == n * d,
                x@.len() == len,
                m == idxs@.len(),
                rows.len() == m,
                forall|k: int| 0 <= k < m ==> #[trigger] rows[k] == idxs@[k] && rows[k] < n,
                out.len() == c * m + i,
                forall|e: int, k: int|
                    0 <= e < c && 0 <= k < m ==> #[trigger] out@[column_slot(e, k, m as int)] == x@[row_slot(
                        idxs@[k] as int,
                        e,
                        d as int,
                    )],
                forall|k: int|
                    0 <= k < i ==> #[trigger] out@[column_slot(c as int, k, m as int)] == x@[row_slot(
                        idxs@[k] as int,
                        c as int,
                        d as int,
                    )],
            decreases m - i,
        {
            proof {
                crate::arith::lemma_flat_index(
                    rows[i as int] as int,
                    c as int,
                    n as int,
                    d as int,
                );
                assert forall|e: int, k: int| 0 <= e < c && 0 <= k < m implies 0 <= #[trigger] column_slot(
                    e,
                    k,
                    m as int,
                ) < c * m by {
                    crate::arith::lemma_flat_index(e, k, c as int, m as int);
                }
                assert(rows[i as int] == idxs@[i as int]);
            }
            out.push(x[rows[i] * d + c]);
            i = i + 1;
        }
        assert((c + 1) * m == c * m + m) by (nonlinear_arith);
        c = c + 1;
    }
    assert(d * m == m * d) by (nonlinear_arith);
    out
}

/// Where entry `i` of column `c` stands in a column-major matrix of `m` rows.
pub open spec fn column_slot(c: int, i: int, m: int) -> int {
    c * m + i
}

/// Where column `c` of row `i` stands in a row-major matrix of `d` columns.
pub open spec fn row_slot(i: int, c: int, d: int) -> int {
    i * d + c
}

/// How a sub-sample is solved.
#[derive(Debug, Clone, Copy, PartialEq, Eq, Structural)]
pub enum SubsetSolver {
    /// Householder QR.
    Qr,
    /// Jacobi SVD of the columns.
    TallSvd,
    /// Jacobi SVD of the rows: there are fewer rows than columns.
    WideSvd,
    /// There is nothing to solve: the coefficients are zero.
    Zero,
}

/// The solver of an `m` by `d` sub-sample: QR where there are enough rows and
/// it did not find the columns close to dependent, else the SVD.
pub fn subset_solver(m: usize, d: usize, qr_accepted: bool) -> (r: SubsetSolver)
    ensures
        r == if d > 0 && m >= d && qr_accepted {
            SubsetSolver::Qr
        } else if m == 0 || d == 0 {
            SubsetSolver::Zero
        } else if m >= d {
            SubsetSolver::TallSvd
        } else {
            SubsetSolver::WideSvd
        },
{
    if d > 0 && m >= d && qr_accepted {
        SubsetSolver::Qr
    } else if m == 0 || d == 0 {
        SubsetSolver::Zero
    } else if m >= d {
        SubsetSolver::TallSvd
    } else {
        SubsetSolver::WideSvd
    }
}

// ---------------------------------------------------------------------------
// The engine
// ---------------------------------------------------------------------------

/// A design and its targets, with the blocks and workers that scan them.
pub struct RansacHostEngine<'a, F> {
    x: &'a [F],
    y: &'a [F],
    n: usize,
    d: usize,
    t: usize,
    units: usize,
    blocks: Vec<(usize, usize)>,
}

impl<'a, F: Copy> RansacHostEngine<'a, F> {
    /// The design, row by row.
    pub closed spec fn design(self) -> Seq<F> {
        self.x@
    }

    /// The targets, row by row.
    pub closed spec fn targets(self) -> Seq<F> {
        self.y@
    }

    /// Rows, columns and target columns.
    pub closed spec fn shape(self) -> (nat, nat, nat) {
        (self.n as nat, self.d as nat, self.t as nat)
    }

    /// The number of workers.
    pub closed spec fn workers(self) -> nat {
        self.units as nat
    }

    /// The scan blocks.
    pub closed spec fn block_list(self) -> Seq<(usize, usize)> {
        self.blocks@
    }

    /// Design and targets match their shapes, the blocks are the scan blocks of
    /// the rows, and there is a worker.
    pub open spec fn wf(self) -> bool {
        &&& self.design().len() == self.shape().0 * self.shape().1
        &&& self.targets().len() == self.shape().0 * self.shape().2
        &&& are_scan_blocks(self.block_list(), self.shape().0 as int)
        &&& self.workers() >= 1
    }

    /// Borrows a row-major design of `n` rows and `d` columns with `t` target
    /// columns. `work_per_pass` is the number of elements that one pass reads.
    pub fn new(
        x: &'a [F],
        y: &'a [F],
        n: usize,
        d: usize,
        t: usize,
        work_per_pass: usize,
        units_flag: Option<&str>,
        machine_units: usize,
    ) -> (r: Result<Self, PrimError>)
        ensures
            if n * d != x@.len() {
                r is Err && r->Err_0 == shape_error("ransac_x", n, d, x@.len() as usize)
            } else if n * t != y@.len() {
                r is Err && r->Err_0 == shape_error("ransac_y", n, t, y@.len() as usize)
            } else {
                &&& r is Ok
                &&& r->Ok_0.wf()
                &&& r->Ok_0.design() == x@
                &&& r->Ok_0.targets() == y@
                &&& r->Ok_0.shape() == (n as nat, d as nat, t as nat)
                &&& r->Ok_0.workers() == units_planned(
                    work_per_pass,
                    ceil_div_int(n as int, SCAN_BLOCK as int) as usize,
                    units_flag,
                    machine_units,
                )
            },
    {
        if !product_is(n, d, x.len()) {
            return Err(shape_mismatch("ransac_x", n, d, x.len()));
        }
        if !product_is(n, t, y.len()) {
            return Err(shape_mismatch("ransac_y", n, t, y.len()));
        }
        let blocks: Vec<(usize, usize)> = scan_blocks(n);
        let units: usize = plan_units(work_per_pass, blocks.len(), units_flag, machine_units);
        Ok(RansacHostEngine { x, y, n, d, t, units, blocks })
    }

    /// Rows of the design.
    pub fn n_samples(&self) -> (r: usize)
        ensures
            r == self.shape().0,
    {
        self.n
    }

    /// Columns of the design.
    pub fn n_features(&self) -> (r: usize)
        ensures
            r == self.shape().1,
    {
        self.d
    }

    /// Target columns.
    pub fn n_targets(&self) -> (r: usize)
        ensures
            r == self.shape().2,
    {
        self.t
    }

    /// The number of workers.
    pub fn units(&self) -> (r: usize)
        ensures
            r == self.workers(),
    {
        self.units
    }

    /// The number of scan blocks.
    pub fn n_blocks(&self) -> (r: usize)
        ensures
            r == self.block_list().len(),
    {
        self.blocks.len()
    }

    /// Item `it` of a batched scan: the trial and the rows of its block. Items
    /// run through the blocks of the first trial, then those of the next.
    pub fn scan_item(&self, it: usize) -> (r: ScanItem)
        requires
            self.block_list().len() > 0,
        ensures
            r.trial == it / (self.block_list().len() as usize),
            (r.lo, r.hi) == self.block_list()[(it % (self.block_list().len() as usize)) as int],
    {
        let nb: usize = self.blocks.len();
        let (lo, hi): (usize, usize) = self.blocks[it % nb];
        ScanItem { trial: it / nb, lo, hi }
    }

    /// The listed rows of the design.
    pub fn gather_x(&self, idxs: &[i64]) -> (r: Vec<F>)
        requires
            self.wf(),
            rows_named(idxs@, self.shape().0 as int),
        ensures
            r.len() == idxs@.len() * self.shape().1,
            forall|k: int|
                0 <= k < idxs@.len() ==> #[trigger] block(r@, k, self.shape().1 as int) == block(
                    self.design(),
                    idxs@[k] as int,
                    self.shape().1 as int,
                ),
    {
        let rows: Vec<usize> = as_rows(idxs, self.n);
        gather_rows(self.x, self.n, self.d, rows.as_slice())
    }

    /// The listed rows of the targets.
    pub fn gather_y(&self, idxs: &[i64]) -> (r: Vec<F>)
        requires
            self.wf(),
            rows_named(idxs@, self.shape().0 as int),
        ensures
            r.len() == idxs@.len() * self.shape().2,
            forall|k: int|
                0 <= k < idxs@.len() ==> #[trigger] block(r@, k, self.shape().2 as int) == block(
                    self.targets(),
                    idxs@[k] as int,
                    self.shape().2 as int,
                ),
    {
        let rows: Vec<usize> = as_rows(idxs, self.n);
        gather_rows(self.y, self.n, self.t, rows.as_slice())
    }

    /// The operands of a sub-sample solve: the listed rows of the design and of
    /// the targets, column by column.
    pub fn subset_operands(&self, idxs: &[i64]) -> (r: (Vec<F>, Vec<F>))
        requires
            self.wf(),
            rows_named(idxs@, self.shape().0 as int),
            idxs@.len() * self.shape().1 <= usize::MAX,
            idxs@.len() * self.shape().2 <= usize::MAX,
        ensures
            r.0.len() == idxs@.len() * self.shape().1,
            r.1.len() == idxs@.len() * self.shape().2,
            forall|c: int, i: int|
                0 <= c < self.shape().1 && 0 <= i < idxs@.len() ==> #[trigger] r.0@[column_slot(
                    c,
                    i,
                    idxs@.len() as int,
                )] == self.design()[row_slot(idxs@[i] as int, c, self.shape().1 as int)],
            forall|c: int, i: int|
                0 <= c < self.shape().2 && 0 <= i < idxs@.len() ==> #[trigger] r.1@[column_slot(
                    c,
                    i,
                    idxs@.len() as int,
                )] == self.targets()[row_slot(idxs@[i] as int, c, self.shape().2 as int)],
    {
        (
            gather_columns(self.x, self.n, self.d, idxs),
            gather_columns(self.y, self.n, self.t, idxs),
        )
    }
}

// ---------------------------------------------------------------------------
// What the medians, workers and layouts amount to
// ---------------------------------------------------------------------------

/// How many of the first `m` entries lie below `x`.
pub open spec fn entries_below(v: Seq<u64>, x: u64, m: nat) -> nat
    decreases m,
{
    if m == 0 {
        0
    } else {
        entries_below(v, x, (m - 1) as nat) + if lt64(v[m - 1], x) {
            1nat
        } else {
            0nat
        }
    }
}

/// How many of the first `m` entries lie above `x`.
pub open spec fn entries_above(v: Seq<u64>, x: u64, m: nat) -> nat
    decreases m,
{
    if m == 0 {
        0
    } else {
        entries_above(v, x, (m - 1) as nat) + if lt64(x, v[m - 1]) {
            1nat
        } else {
            0nat
        }
    }
}

proof fn lemma_entries_by_multiset(v: Seq<u64>, x: u64, m: nat)
    requires
        m <= v.len(),
    ensures
        entries_below(v, x, m) == v.take(m as int).to_multiset().filter(
            |b: u64| lt64(b, x),
        ).len(),
        entries_above(v, x, m) == v.take(m as int).to_multiset().filter(
            |b: u64| lt64(x, b),
        ).len(),
    decreases m,
{
    broadcast use vstd::seq_lib::group_to_multiset_ensures;

    let under = |b: u64| lt64(b, x);
    let over = |b: u64| lt64(x, b);
    let now = v.take(m as int).to_multiset();
    if m == 0 {
        assert(now.len() == 0);
        assert(now.filter(under) =~= vstd::multiset::Multiset::empty());
        assert(now.filter(over) =~= vstd::multiset::Multiset::empty());
    } else {
        lemma_entries_by_multiset(v, x, (m - 1) as nat);
        let last = v[m - 1];
        let before = v.take(m - 1).to_multiset();
        assert(v.take(m as int) =~= v.take(m - 1).push(last));
        assert(now =~= before.insert(last));
        if under(last) {
            assert(now.filter(under) =~= before.filter(under).insert(last));
        } else {
            assert(now.filter(under) =~= before.filter(under));
        }
        if over(last) {
            assert(now.filter(over) =~= before.filter(over).insert(last));
        } else {
            assert(now.filter(over) =~= before.filter(over));
        }
    }
}

proof fn lemma_sorted_splits(s: Seq<u64>, p: int, m: nat)
    requires
        ascending_total64(s),
        all_numbers(s),
        0 <= p < s.len(),
        m <= s.len(),
    ensures
        entries_below(s, s[p], m) <= p,
        entries_above(s, s[p], m) <= if m <= p + 1 {
            0
        } else {
            m - p - 1
        },
        m <= p ==> entries_below(s, s[p], m) <= m,
    decreases m,
{
    if m > 0 {
        lemma_sorted_splits(s, p, (m - 1) as nat);
        let i = m - 1;
        assert(!is_nan64(s[i]) && !is_nan64(s[p]));
        if i >= p {
            assert(total_value64(s[p]) <= total_value64(s[i]));
            lemma_total_refines_order(s[p], s[i]);
        }
        if i <= p {
            assert(total_value64(s[i]) <= total_value64(s[p]));
            lemma_total_refines_order(s[i], s[p]);
        }
    }
}

/// A median splits its list in half. The middle value of an odd number of
/// entries has no more than half of the rest on either side. Of the two middle
/// values of an even number the lower has fewer than half below and no more than
/// half above it, and the upper the other way round. All of them are entries.
pub proof fn lemma_median_splits(v: Seq<u64>)
    requires
        all_numbers(v),
        v.len() > 0,
    ensures
        ({
            let n = v.len() as int;
            match median_of(v) {
                MedianOf::Nothing => false,
                MedianOf::One(x) => {
                    &&& n % 2 == 1
                    &&& v.contains(x)
                    &&& entries_below(v, x, v.len()) <= n / 2
                    &&& entries_above(v, x, v.len()) <= n / 2
                },
                MedianOf::Two(a, b) => {
                    &&& n % 2 == 0
                    &&& v.contains(a) && v.contains(b)
                    &&& le64(a, b)
                    &&& entries_below(v, a, v.len()) <= n / 2 - 1
                    &&& entries_above(v, a, v.len()) <= n / 2
                    &&& entries_below(v, b, v.len()) <= n / 2
                    &&& entries_above(v, b, v.len()) <= n / 2 - 1
                },
            }
        }),
{
    broadcast use vstd::seq_lib::group_to_multiset_ensures;

    let s = sorting(v);
    crate::radix::lemma_sorting(v);
    assert(s.len() == v.len()) by {
        assert(s.to_multiset().len() == s.len());
        assert(v.to_multiset().len() == v.len());
    }
    assert forall|p: int| 0 <= p < s.len() implies v.contains(#[trigger] s[p]) by {
        assert(s.contains(s[p]));
        assert(v.to_multiset().count(s[p]) > 0);
    }
    assert forall|p: int| 0 <= p < s.len() implies !is_nan64(#[trigger] s[p]) by {
        assert(v.contains(s[p]));
    }
    assert(s.take(s.len() as int) =~= s);
    assert(v.take(v.len() as int) =~= v);
    assert forall|p: int| 0 <= p < s.len() implies entries_below(v, #[trigger] s[p], v.len()) <= p
        && entries_above(v, s[p], v.len()) <= s.len() - p - 1 by {
        lemma_entries_by_multiset(s, s[p], s.len());
        lemma_entries_by_multiset(v, s[p], v.len());
        lemma_sorted_splits(s, p, s.len());
    }
    if v.len() % 2 == 0 {
        let mid = (v.len() / 2) as int;
        assert(total_value64(s[mid - 1]) <= total_value64(s[mid]));
        lemma_total_refines_order(s[mid - 1], s[mid]);
    }
}

/// Without a flag a pass gets no more workers than the machine has, than there
/// are blocks, or than its work keeps busy, and as many as these allow; a count
/// in the flag is taken as it is, with one worker at the least.
pub proof fn lemma_units_planned(
    work_per_pass: usize,
    n_blocks: usize,
    units_flag: Option<&str>,
    machine_units: usize,
)
    ensures
        ({
            let r = units_planned(work_per_pass, n_blocks, units_flag, machine_units);
            let asked = match units_flag {
                Some(t) => parsed_count(t@),
                None => None,
            };
            &&& r >= 1
            &&& asked is Some && asked->0 >= 1 ==> r == asked->0
            &&& asked is Some && asked->0 == 0 ==> r == 1
            &&& asked is None && r > 1 ==> r <= machine_units && r <= n_blocks && r * 32_768
                <= work_per_pass
            &&& asked is None ==> r >= machine_units || r >= n_blocks || (r + 1) * 32_768
                > work_per_pass
        }),
{
}

/// One row counts once where its residual does not exceed the threshold, and not
/// where it does; more rows add up ([`lemma_inliers_add`]).
pub proof fn lemma_inliers_one(resid: u64, threshold: u64)
    ensures
        le64(resid, threshold) ==> inliers_below(seq![resid], threshold, 1) == 1,
        !le64(resid, threshold) ==> inliers_below(seq![resid], threshold, 1) == 0,
{
    reveal_with_fuel(inliers_below, 2);
}

/// Counts add up over neighbouring ranges, and one count is itself.
pub proof fn lemma_count_sum_adds(c: Seq<usize>, lo: int, mid: int, hi: int)
    requires
        lo <= mid <= hi,
    ensures
        count_sum(c, lo, hi) == count_sum(c, lo, mid) + count_sum(c, mid, hi),
        count_sum(c, lo, lo) == 0,
        count_sum(c, lo, lo + 1) == c[lo],
    decreases hi - mid,
{
    reveal_with_fuel(count_sum, 2);
    if mid < hi {
        lemma_count_sum_adds(c, lo, mid, hi - 1);
    }
}

/// Column by column, the entries of a column stand next to each other and the
/// columns one after the other; row by row it is the other way round.
pub proof fn lemma_slots(i: int, c: int, m: int, d: int)
    ensures
        column_slot(0, 0, m) == 0,
        column_slot(c, i + 1, m) == column_slot(c, i, m) + 1,
        column_slot(c + 1, i, m) == column_slot(c, i, m) + m,
        row_slot(0, 0, d) == 0,
        row_slot(i, c + 1, d) == row_slot(i, c, d) + 1,
        row_slot(i + 1, c, d) == row_slot(i, c, d) + d,
{
    assert((c + 1) * m == c * m + m && (i + 1) * d == i * d + d && 0 * m == 0 && 0 * d == 0)
        by (nonlinear_arith);
}

/// Scan blocks are 4096 rows each, from the first row on, but for the last,
/// which ends with the rows.
pub proof fn lemma_scan_blocks(blocks: Seq<(usize, usize)>, n: int, b: int)
    requires
        are_scan_blocks(blocks, n),
        n >= 0,
        0 <= b < blocks.len(),
    ensures
        blocks[b].0 == b * 4096,
        b + 1 < blocks.len() ==> blocks[b].1 == b * 4096 + 4096,
        b + 1 == blocks.len() ==> blocks[b].1 == n,
        blocks[b].0 < blocks[b].1 <= n,
{
    crate::arith::lemma_ceil_div_brackets(n, 4096);
}

} // verus!
