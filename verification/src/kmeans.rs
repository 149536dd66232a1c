//! K-means: argument checks, the row-block layouts and path choices of its
//! device passes, the relocation of empty clusters, and D²-weighted seeding.

use crate::arith::{ceil_div, ceil_div_int, clamp_int, clamp_usize, max_usize};
use crate::error::{
    first_fault, guard_u32, shape_error, shape_mismatch, u32_fault, verdict, PrimError,
};
use crate::float_order::{all_numbers, bits_is_nan, bits_lt, le64, lt64};
use crate::launch::{
    cube_dims, folded_dims, launch_cubes, launch_dims_1d_folded, launch_dims_2d, tile_dims,
    LaunchDims, PERF_TUNED_BLOCK,
};
use crate::ranking::{is_ranking, rank_farthest};
use crate::rng::{below, identity, is_permutation, mix, next_state, unit_numerator, SplitMix64};
use crate::seqs::{first_bad_label, label_ok, sum_counts};
use vstd::prelude::*;

verus! {

// ---------------------------------------------------------------------------
// Argument checks
// ---------------------------------------------------------------------------

/// Why `k` clusters of `n` samples with `d` features are refused.
pub open spec fn geometry_fault(x_len: usize, n: usize, d: usize, k: usize) -> Option<PrimError> {
    if n * d != x_len {
        Some(shape_error("x", n, d, x_len))
    } else if k < 1 || k > n {
        Some(shape_error("k", 1, k, n))
    } else {
        first_fault(u32_fault("n", n), first_fault(u32_fault("d", d), u32_fault("k", k)))
    }
}

/// Refuses a sample matrix that does not match its shape, a cluster count
/// outside `1..=n`, or a dimension beyond 32 bits.
pub fn validate_geometry(x_len: usize, n: usize, d: usize, k: usize) -> (r: Result<(), PrimError>)
    ensures
        r == verdict(geometry_fault(x_len, n, d, k)),
{
    if !crate::arith::product_is(n, d, x_len) {
        return Err(shape_mismatch("x", n, d, x_len));
    }
    if k < 1 || k > n {
        return Err(shape_mismatch("k", 1, k, n));
    }
    match guard_u32("n", n) {
        Err(e) => {
            return Err(e);
        },
        Ok(()) => {},
    }
    match guard_u32("d", d) {
        Err(e) => {
            return Err(e);
        },
        Ok(()) => {},
    }
    guard_u32("k", k)
}

/// What a label check returns: the first label that names no cluster is
/// reported with its position.
pub open spec fn labels_verdict(
    labels: Seq<u32>,
    n: usize,
    k: usize,
    r: Result<(), PrimError>,
) -> bool {
    if labels.len() != n {
        r == Err::<(), PrimError>(shape_error("labels", n, 1, labels.len() as usize))
    } else {
        match r {
            Ok(()) => forall|i: int| 0 <= i < labels.len() ==> #[trigger] label_ok(labels, k, i),
            Err(e) => exists|i: int| #[trigger]
                first_bad_label(labels, k, i) && e == shape_error(
                    "labels",
                    i as usize,
                    labels[i] as usize,
                    k,
                ),
        }
    }
}

/// Refuses labels that do not match the samples or the clusters.
pub fn check_labels(labels: &[u32], n: usize, k: usize) -> (r: Result<(), PrimError>)
    ensures
        labels_verdict(labels@, n, k, r),
        r is Ok <==> labels@.len() == n && forall|i: int|
            0 <= i < n ==> #[trigger] labels@[i] < k,
{
    if labels.len() != n {
        return Err(shape_mismatch("labels", n, 1, labels.len()));
    }
    let r: Result<(), PrimError> = check_label_range(labels, k);
    proof {
        lemma_labels_accepted(labels@, n, k, r, 0);
    }
    r
}

fn check_label_range(labels: &[u32], k: usize) -> (r: Result<(), PrimError>)
    ensures
        match r {
            Ok(()) => forall|i: int| 0 <= i < labels@.len() ==> #[trigger] label_ok(labels@, k, i),
            Err(e) => exists|i: int| #[trigger]
                first_bad_label(labels@, k, i) && e == shape_error(
                    "labels",
                    i as usize,
                    labels@[i] as usize,
                    k,
                ),
        },
{
    let n: usize = labels.len();
    let mut i: usize = 0;
    while i < n
        invariant
            i <= n,
            n == labels@.len(),
            forall|j: int| 0 <= j < i ==> #[trigger] label_ok(labels@, k, j),
        decreases n - i,
    {
        let l: usize = labels[i] as usize;
        if l >= k {
            assert(first_bad_label(labels@, k, i as int));
            return Err(shape_mismatch("labels", i, l, k));
        }
        assert(label_ok(labels@, k, i as int));
        i = i + 1;
    }
    Ok(())
}

/// Refuses the operands of a centroid update: the geometry, then the label and
/// distance counts, then the labels.
pub fn validate_update(
    x_len: usize,
    labels: &[u32],
    dist_len: usize,
    n: usize,
    d: usize,
    k: usize,
) -> (r: Result<(), PrimError>)
    ensures
        match geometry_fault(x_len, n, d, k) {
            Some(e) => r == Err::<(), PrimError>(e),
            None => if labels@.len() == n && dist_len != n {
                r == Err::<(), PrimError>(shape_error("dist_to_assigned", n, 1, dist_len))
            } else {
                labels_verdict(labels@, n, k, r)
            },
        },
{
    match validate_geometry(x_len, n, d, k) {
        Err(e) => {
            return Err(e);
        },
        Ok(()) => {},
    }
    if labels.len() != n {
        return Err(shape_mismatch("labels", n, 1, labels.len()));
    }
    if dist_len != n {
        return Err(shape_mismatch("dist_to_assigned", n, 1, dist_len));
    }
    check_label_range(labels, k)
}

/// Why the operands of an inertia are refused before its labels are looked at.
pub open spec fn inertia_fault(
    x_len: usize,
    centers_len: usize,
    n: usize,
    d: usize,
) -> Option<PrimError> {
    if n * d != x_len {
        Some(shape_error("x", n, d, x_len))
    } else if d == 0 || centers_len % d != 0 || centers_len / d == 0 {
        Some(shape_error("centers", 0, d, centers_len))
    } else {
        None
    }
}

/// Refuses the operands of an inertia and otherwise gives the cluster count,
/// which the center matrix implies.
pub fn validate_inertia(x_len: usize, centers_len: usize, labels: &[u32], n: usize, d: usize) -> (r:
    Result<usize, PrimError>)
    ensures
        match inertia_fault(x_len, centers_len, n, d) {
            Some(e) => r == Err::<usize, PrimError>(e),
            None => {
                let k = (centers_len / d) as usize;
                if labels@.len() != n || exists|i: int| first_bad_label(labels@, k, i) {
                    r is Err && labels_verdict(labels@, n, k, Err::<(), PrimError>(r->Err_0))
                } else {
                    match first_fault(u32_fault("n", n), u32_fault("d", d)) {
                        Some(e) => r == Err::<usize, PrimError>(e),
                        None => r == Ok::<usize, PrimError>(k),
                    }
                }
            },
        },
{
    if !crate::arith::product_is(n, d, x_len) {
        return Err(shape_mismatch("x", n, d, x_len));
    }
    if d == 0 || centers_len % d != 0 {
        return Err(shape_mismatch("centers", 0, d, centers_len));
    }
    let k: usize = centers_len / d;
    if k == 0 {
        return Err(shape_mismatch("centers", 0, d, centers_len));
    }
    match check_labels(labels, n, k) {
        Err(e) => {
            return Err(e);
        },
        Ok(()) => {},
    }
    assert(!exists|i: int| first_bad_label(labels@, k, i)) by {
        if exists|i: int| first_bad_label(labels@, k, i) {
            let i = choose|i: int| first_bad_label(labels@, k, i);
            assert(label_ok(labels@, k, i));
        }
    }
    match guard_u32("n", n) {
        Err(e) => {
            return Err(e);
        },
        Ok(()) => {},
    }
    match guard_u32("d", d) {
        Err(e) => Err(e),
        Ok(()) => Ok(k),
    }
}

/// Why a pass over rows alone is refused.
pub open spec fn rows_fault(x_len: usize, n: usize, d: usize) -> Option<PrimError> {
    if n * d != x_len {
        Some(shape_error("x", n, d, x_len))
    } else {
        first_fault(u32_fault("n", n), u32_fault("d", d))
    }
}

/// Refuses the sample matrix of a row norm or moment pass.
pub fn validate_rows(x_len: usize, n: usize, d: usize) -> (r: Result<(), PrimError>)
    ensures
        r == verdict(rows_fault(x_len, n, d)),
{
    if !crate::arith::product_is(n, d, x_len) {
        return Err(shape_mismatch("x", n, d, x_len));
    }
    match guard_u32("n", n) {
        Err(e) => {
            return Err(e);
        },
        Ok(()) => {},
    }
    guard_u32("d", d)
}

/// Why a device inertia pass is refused.
pub open spec fn inertia_rows_fault(
    x_len: usize,
    labels_len: usize,
    dist_len: usize,
    n: usize,
    d: usize,
) -> Option<PrimError> {
    if n * d != x_len {
        Some(shape_error("x", n, d, x_len))
    } else if labels_len != n || dist_len != n {
        Some(
            shape_error(
                "labels",
                n,
                1,
                vstd::math::min(labels_len as int, dist_len as int) as usize,
            ),
        )
    } else {
        first_fault(u32_fault("n", n), u32_fault("d", d))
    }
}

/// Refuses the operands of a device inertia pass and otherwise gives its
/// launch.
pub fn inertia_rows_device_plan(
    x_len: usize,
    labels_len: usize,
    dist_len: usize,
    n: usize,
    d: usize,
) -> (r: Result<LaunchDims, PrimError>)
    ensures
        match inertia_rows_fault(x_len, labels_len, dist_len, n, d) {
            Some(e) => r == Err::<LaunchDims, PrimError>(e),
            None => r == Ok::<LaunchDims, PrimError>(folded_dims(n as int, PERF_TUNED_BLOCK)),
        },
{
    if !crate::arith::product_is(n, d, x_len) {
        return Err(shape_mismatch("x", n, d, x_len));
    }
    if labels_len != n || dist_len != n {
        return Err(shape_mismatch("labels", n, 1, crate::arith::min_usize(labels_len, dist_len)));
    }
    match guard_u32("n", n) {
        Err(e) => {
            return Err(e);
        },
        Ok(()) => {},
    }
    match guard_u32("d", d) {
        Err(e) => Err(e),
        Ok(()) => Ok(launch_dims_1d_folded(n, PERF_TUNED_BLOCK)),
    }
}

/// Whether `i` is the first row index that is out of range.
pub open spec fn first_bad_row(idx: Seq<u32>, n: usize, i: int) -> bool {
    first_bad_label(idx, n, i)
}

/// Refuses a row gather for its geometry or for a row index out of range;
/// otherwise gives its launch.
pub fn gather_rows_device_plan(x_len: usize, idx: &[u32], n: usize, d: usize) -> (r: Result<
    LaunchDims,
    PrimError,
>)
    ensures
        match geometry_fault(x_len, n, d, idx@.len() as usize) {
            Some(e) => r == Err::<LaunchDims, PrimError>(e),
            None => match r {
                Ok(l) => l == folded_dims(
                    (((idx@.len() * d) as usize) as u32) as int,
                    PERF_TUNED_BLOCK,
                ) && forall|i: int| 0 <= i < idx@.len() ==> #[trigger] label_ok(idx@, n, i),
                Err(e) => exists|i: int| #[trigger]
                    first_bad_row(idx@, n, i) && e == shape_error(
                        "idx",
                        idx@[i] as usize,
                        1,
                        n,
                    ),
            },
        },
{
    let k: usize = idx.len();
    match validate_geometry(x_len, n, d, k) {
        Err(e) => {
            return Err(e);
        },
        Ok(()) => {},
    }
    let mut i: usize = 0;
    while i < k
        invariant
            i <= k,
            k == idx@.len(),
            geometry_fault(x_len, n, d, k) is None,
            forall|j: int| 0 <= j < i ==> #[trigger] label_ok(idx@, n, j),
        decreases k - i,
    {
        if idx[i] as usize >= n {
            assert(first_bad_row(idx@, n, i as int));
            return Err(shape_mismatch("idx", idx[i] as usize, 1, n));
        }
        assert(label_ok(idx@, n, i as int));
        i = i + 1;
    }
    assert(k * d <= n * d) by (nonlinear_arith)
        requires
            k <= n,
            d >= 0,
    ;
    Ok(launch_dims_1d_folded(k * d, PERF_TUNED_BLOCK))
}

// ---------------------------------------------------------------------------
// Row blocks
// ---------------------------------------------------------------------------

/// The rows of one block when at most `cap` blocks of about 256 rows are used.
pub open spec fn rows_per_block(n: int, cap: int) -> int {
    ceil_div_int(n, clamp_int(ceil_div_int(n, 256), 1, cap))
}

/// The number of blocks.
pub open spec fn block_count(n: int, cap: int) -> int {
    ceil_div_int(n, rows_per_block(n, cap))
}

/// Cuts `n` rows into blocks: how many, and how many rows each.
pub fn row_blocking(n: usize, cap: usize) -> (r: (usize, usize))
    requires
        n >= 1,
        cap >= 1,
    ensures
        r.0 == block_count(n as int, cap as int),
        r.1 == rows_per_block(n as int, cap as int),
        1 <= r.0 <= cap,
        1 <= r.1 <= n,
{
    let first: usize = clamp_usize(ceil_div(n, 256), 1, cap);
    proof {
        lemma_blocks_tile(n as int, cap as int);
        crate::arith::lemma_ceil_div_brackets(n as int, first as int);
    }
    let rpb: usize = ceil_div(n, first);
    (ceil_div(n, rpb), rpb)
}

/// Row blocks hold every row once: all but the last are full and the last is
/// not empty, and there are no more than the cap.
pub proof fn lemma_blocks_tile(n: int, cap: int)
    requires
        n >= 1,
        cap >= 1,
    ensures
        rows_per_block(n, cap) >= 1,
        block_count(n, cap) * rows_per_block(n, cap) >= n,
        (block_count(n, cap) - 1) * rows_per_block(n, cap) < n,
        1 <= block_count(n, cap) <= cap,
{
    let first = clamp_int(ceil_div_int(n, 256), 1, cap);
    crate::arith::lemma_ceil_div_brackets(n, 256);
    crate::arith::lemma_ceil_div_brackets(n, first);
    let rpb = ceil_div_int(n, first);
    crate::arith::lemma_ceil_div_brackets(n, rpb);
    assert(first * rpb >= n) by (nonlinear_arith)
        requires
            rpb * first >= n,
    ;
    crate::arith::lemma_ceil_div_least(n, rpb, first);
}

/// The most blocks of a centroid-sum pass: its partial sums stay within eight
/// million entries, and at least 64 blocks are allowed.
pub open spec fn sums_block_cap(kd: int) -> int {
    vstd::math::max(64, 8_388_608int / vstd::math::max(kd, 1))
}

/// Blocks of a centroid-sum pass over `k` clusters of `d` features.
pub fn sums_blocking(n: usize, kd: usize) -> (r: (usize, usize))
    requires
        n >= 1,
    ensures
        r.0 == block_count(n as int, sums_block_cap(kd as int)),
        r.1 == rows_per_block(n as int, sums_block_cap(kd as int)),
        r.0 >= 1,
{
    row_blocking(n, max_usize(64, 8_388_608 / max_usize(kd, 1)))
}

/// The most blocks of a moment pass over `d` features.
pub open spec fn moment_block_cap(d: int) -> int {
    vstd::math::max(64, 4_194_304int / vstd::math::max(d, 1))
}

/// Blocks of a moment pass.
pub fn moment_blocking(n: usize, d: usize) -> (r: (usize, usize))
    requires
        n >= 1,
    ensures
        r.0 == block_count(n as int, moment_block_cap(d as int)),
        r.1 == rows_per_block(n as int, moment_block_cap(d as int)),
        r.0 >= 1,
{
    row_blocking(n, max_usize(64, 4_194_304 / max_usize(d, 1)))
}

/// A blocked pass over one vector: its blocks and its launch.
#[derive(Debug, Clone, Copy, PartialEq, Eq)]
pub struct BlockPlan {
    pub blocks: usize,
    pub rows_per_block: usize,
    pub launch: LaunchDims,
}

/// Whether a plan is the blocked pass over `n` entries with at most 256 blocks.
pub open spec fn vector_plan_matches(p: BlockPlan, n: usize) -> bool {
    &&& p.blocks == block_count(n as int, 256)
    &&& p.rows_per_block == rows_per_block(n as int, 256)
    &&& p.launch == folded_dims(p.blocks as int, PERF_TUNED_BLOCK)
}

fn vector_plan(n: usize) -> (p: BlockPlan)
    requires
        n >= 1,
    ensures
        vector_plan_matches(p, n),
{
    let (blocks, rows_per_block): (usize, usize) = row_blocking(n, 256);
    BlockPlan {
        blocks,
        rows_per_block,
        launch: launch_dims_1d_folded(blocks, PERF_TUNED_BLOCK),
    }
}

/// Plans the comparison of two labelings.
pub fn labels_changed_plan(a_len: usize, b_len: usize, n: usize) -> (r: Result<
    BlockPlan,
    PrimError,
>)
    requires
        a_len == n && b_len == n ==> n >= 1,
    ensures
        if a_len != n || b_len != n {
            r == Err::<BlockPlan, PrimError>(
                shape_error(
                    "labels",
                    n,
                    1,
                    vstd::math::min(a_len as int, b_len as int) as usize,
                ),
            )
        } else {
            match u32_fault("n", n) {
                Some(e) => r == Err::<BlockPlan, PrimError>(e),
                None => r matches Ok(p) && vector_plan_matches(p, n),
            }
        },
{
    if a_len != n || b_len != n {
        return Err(shape_mismatch("labels", n, 1, crate::arith::min_usize(a_len, b_len)));
    }
    match guard_u32("n", n) {
        Err(e) => Err(e),
        Ok(()) => Ok(vector_plan(n)),
    }
}

/// Plans the sum of a vector.
pub fn sum_device_plan(v_len: usize, n: usize) -> (r: Result<BlockPlan, PrimError>)
    requires
        v_len == n ==> n >= 1,
    ensures
        if v_len != n {
            r == Err::<BlockPlan, PrimError>(shape_error("v", n, 1, v_len))
        } else {
            match u32_fault("n", n) {
                Some(e) => r == Err::<BlockPlan, PrimError>(e),
                None => r matches Ok(p) && vector_plan_matches(p, n),
            }
        },
{
    if v_len != n {
        return Err(shape_mismatch("v", n, 1, v_len));
    }
    match guard_u32("n", n) {
        Err(e) => Err(e),
        Ok(()) => Ok(vector_plan(n)),
    }
}

/// How many of the positions from `lo` to `hi` differ.
pub open spec fn differing(a: Seq<u32>, b: Seq<u32>, lo: int, hi: int) -> int
    decreases hi - lo,
{
    if lo >= hi {
        0
    } else {
        differing(a, b, lo, hi - 1) + if a[hi - 1] != b[hi - 1] {
            1int
        } else {
            0int
        }
    }
}

/// The change counts of consecutive blocks add up.
pub proof fn lemma_differing_adds(a: Seq<u32>, b: Seq<u32>, lo: int, mid: int, hi: int)
    requires
        lo <= mid <= hi,
    ensures
        differing(a, b, lo, hi) == differing(a, b, lo, mid) + differing(a, b, mid, hi),
    decreases hi - mid,
{
    if mid < hi {
        lemma_differing_adds(a, b, lo, mid, hi - 1);
    }
}

/// Labelings are equal exactly when no position differs: the convergence test.
pub proof fn lemma_unchanged_iff_equal(a: Seq<u32>, b: Seq<u32>)
    requires
        a.len() == b.len(),
    ensures
        differing(a, b, 0, a.len() as int) == 0 <==> a == b,
{
    lemma_differing_zero(a, b, a.len() as int);
    if differing(a, b, 0, a.len() as int) == 0 {
        assert(a =~= b);
    }
}

proof fn lemma_differing_zero(a: Seq<u32>, b: Seq<u32>, m: int)
    requires
        0 <= m <= a.len(),
        a.len() == b.len(),
    ensures
        differing(a, b, 0, m) >= 0,
        differing(a, b, 0, m) == 0 <==> forall|i: int| 0 <= i < m ==> a[i] == b[i],
    decreases m,
{
    if m > 0 {
        lemma_differing_zero(a, b, m - 1);
    }
}

/// Counts the positions at which two labelings differ, block after block, as
/// the planned pass does.
pub fn labels_changed(a: &[u32], b: &[u32], n: usize) -> (r: Result<u64, PrimError>)
    requires
        a@.len() == n && b@.len() == n ==> n >= 1,
    ensures
        if a@.len() != n || b@.len() != n {
            r == Err::<u64, PrimError>(
                shape_error(
                    "labels",
                    n,
                    1,
                    vstd::math::min(a@.len() as int, b@.len() as int) as usize,
                ),
            )
        } else {
            match u32_fault("n", n) {
                Some(e) => r == Err::<u64, PrimError>(e),
                None => r matches Ok(c) && c == differing(a@, b@, 0, n as int),
            }
        },
{
    let p: BlockPlan = match labels_changed_plan(a.len(), b.len(), n) {
        Err(e) => {
            return Err(e);
        },
        Ok(p) => p,
    };
    proof {
        lemma_blocks_tile(n as int, 256);
    }
    let mut total: u64 = 0;
    let mut start: usize = 0;
    while start < n
        invariant
            start <= n <= u32::MAX,
            n == a@.len(),
            n == b@.len(),
            p.rows_per_block >= 1,
            total == differing(a@, b@, 0, start as int),
            total <= start,
        decreases n - start,
    {
        let end: usize = if p.rows_per_block >= n - start {
            n
        } else {
            start + p.rows_per_block
        };
        let mut part: u64 = 0;
        let mut i: usize = start;
        while i < end
            invariant
                start <= i <= end <= n,
                n == a@.len(),
                n == b@.len(),
                part == differing(a@, b@, start as int, i as int),
                part <= i - start,
            decreases end - i,
        {
            if a[i] != b[i] {
                part = part + 1;
            }
            i = i + 1;
        }
        proof {
            lemma_differing_adds(a@, b@, 0, start as int, end as int);
        }
        total = total + part;
        start = end;
    }
    Ok(total)
}

/// Adds up the change counts that the blocks of a comparison reported.
pub fn labels_changed_total(parts: &Vec<u32>) -> (r: u64)
    requires
        parts.len() <= u32::MAX,
    ensures
        r == sum_counts(parts@),
{
    let mut total: u64 = 0;
    let mut b: usize = 0;
    assert(parts@.take(0) =~= Seq::<u32>::empty());
    while b < parts.len()
        invariant
            b <= parts.len() <= u32::MAX,
            total == sum_counts(parts@.take(b as int)),
            total <= b * u32::MAX,
        decreases parts.len() - b,
    {
        proof {
            assert(parts@.take(b + 1).drop_last() =~= parts@.take(b as int));
            assert((b + 1) * u32::MAX == b * u32::MAX + u32::MAX && (b + 1) * u32::MAX <= u32::MAX
                * u32::MAX) by (nonlinear_arith)
                requires
                    b + 1 <= u32::MAX,
            ;
        }
        total = total + parts[b] as u64;
        b = b + 1;
    }
    assert(parts@.take(b as int) =~= parts@);
    total
}

/// The end of block `b` of a pass over `n` rows.
pub open spec fn block_end(n: int, cap: int, b: int) -> int {
    vstd::math::min((b + 1) * rows_per_block(n, cap), n)
}

/// The blocked comparison is exact: when every block reports the changes among
/// its own rows, the reports of the first `m` blocks add up to the changes up to
/// the end of the last of them, and those of all blocks to all changes.
pub proof fn lemma_changed_parts(a: Seq<u32>, b: Seq<u32>, parts: Seq<u32>, n: int, m: nat)
    requires
        n >= 1,
        1 <= m <= parts.len(),
        parts.len() == block_count(n, 256),
        forall|i: int|
            0 <= i < parts.len() ==> #[trigger] parts[i] == differing(
                a,
                b,
                i * rows_per_block(n, 256),
                block_end(n, 256, i),
            ),
    ensures
        sum_counts(parts.take(m as int)) == differing(a, b, 0, block_end(n, 256, m - 1)),
        m == parts.len() ==> sum_counts(parts) == differing(a, b, 0, n),
    decreases m,
{
    let rows = rows_per_block(n, 256);
    lemma_blocks_tile(n, 256);
    let i = m - 1;
    let lo = i * rows;
    let end = block_end(n, 256, i);
    assert(0 <= lo < n && (i + 1) * rows == lo + rows) by (nonlinear_arith)
        requires
            lo == i * rows,
            0 <= i <= parts.len() - 1,
            (parts.len() - 1) * rows < n,
            rows >= 1,
    ;
    assert(parts[i] == differing(a, b, lo, end));
    assert(parts.take(m as int).drop_last() =~= parts.take(i));
    assert(sum_counts(parts.take(m as int)) == sum_counts(parts.take(i)) + parts[i]);
    if i == 0 {
        assert(parts.take(0) =~= Seq::<u32>::empty());
        assert(lo == 0) by (nonlinear_arith)
            requires
                lo == i * rows,
                i == 0,
        ;
    } else {
        lemma_changed_parts(a, b, parts, n, i as nat);
        assert(((i - 1) + 1) * rows == lo);
        assert(block_end(n, 256, i - 1) == lo);
        lemma_differing_adds(a, b, 0, lo, end);
    }
    if m == parts.len() {
        assert(parts.take(m as int) =~= parts);
        assert(end == n);
    }
}

// ---------------------------------------------------------------------------
// Path choices
// ---------------------------------------------------------------------------

/// How a centroid-sum pass is done.
#[derive(Debug, Clone, Copy, PartialEq, Eq)]
pub enum SumsPath {
    /// One-hot labels times samples.
    Gemm,
    /// Shared-memory block sums.
    Shared,
    /// Row-blocked gather.
    Gather,
}

/// The shared-memory sums hold at most this many entries.
pub const SHARED_SUMS_SLOTS: usize = 4096;

/// Whether distances are assigned through a matrix product: only on request,
/// and never on the cpu backend.
pub fn use_gemm_assign(cpu_backend: bool, gemm_flag: bool) -> (r: bool)
    ensures
        r == (!cpu_backend && gemm_flag),
{
    !cpu_backend && gemm_flag
}

/// Whether centroid sums fit the shared-memory pass: never on the cpu backend,
/// and not where the gather is asked for.
pub fn use_shared_sums(kd: usize, cpu_backend: bool, gather_flag: bool) -> (r: bool)
    ensures
        r == (!cpu_backend && !gather_flag && kd <= SHARED_SUMS_SLOTS),
        r <==> !cpu_backend && !gather_flag && kd <= 4096,
{
    !cpu_backend && !gather_flag && kd <= SHARED_SUMS_SLOTS
}

/// A planned centroid-sum pass.
#[derive(Debug, Clone, Copy, PartialEq, Eq)]
pub struct SumsPlan {
    pub path: SumsPath,
    /// Row blocks of the counts, and of the sums where they are blocked.
    pub blocks: usize,
    pub rows_per_block: usize,
    /// Entries that the first stage writes: partial sums, or one-hot labels.
    pub staged: usize,
    /// Partial counts.
    pub partial_counts: usize,
    /// The launch of the first stage.
    pub stage: LaunchDims,
    /// The launch of the partial counts, where the first stage leaves them out.
    pub count: Option<LaunchDims>,
    /// The launch that folds the blocks.
    pub fold: LaunchDims,
}

/// The path of a centroid-sum pass.
pub open spec fn sums_path(
    kd: usize,
    cpu_backend: bool,
    gemm_flag: bool,
    gather_flag: bool,
) -> SumsPath {
    if gemm_flag {
        SumsPath::Gemm
    } else if !cpu_backend && !gather_flag && kd <= SHARED_SUMS_SLOTS {
        SumsPath::Shared
    } else {
        SumsPath::Gather
    }
}

/// Why a centroid-sum pass is refused: the geometry, the label count, or the
/// one-hot size of the matrix product.
pub open spec fn sums_fault(
    x_len: usize,
    labels_len: usize,
    n: usize,
    d: usize,
    k: usize,
    gemm_flag: bool,
) -> Option<PrimError> {
    first_fault(
        geometry_fault(x_len, n, d, k),
        if labels_len != n {
            Some(shape_error("labels", n, 1, labels_len))
        } else if gemm_flag {
            u32_fault("n*k", (n * k) as usize)
        } else {
            None
        },
    )
}

/// The launch over a count that the kernels take as 32 bits.
pub open spec fn wide_dims(count: int) -> LaunchDims {
    folded_dims(((count as usize) as u32) as int, PERF_TUNED_BLOCK)
}

/// Whether a plan is the centroid-sum pass of a path.
pub open spec fn sums_plan_matches(p: SumsPlan, path: SumsPath, n: int, d: int, k: int) -> bool {
    let cap = if path == SumsPath::Gemm {
        256
    } else {
        sums_block_cap(k * d)
    };
    let nb = block_count(n, cap);
    &&& p.path == path
    &&& p.blocks == nb
    &&& p.rows_per_block == rows_per_block(n, cap)
    &&& p.partial_counts == nb * k
    &&& match path {
        SumsPath::Gemm => p.staged == n * k && p.stage == wide_dims(n * k) && p.count == Some(
            wide_dims(nb * k),
        ) && p.fold == wide_dims(k),
        SumsPath::Shared => p.staged == nb * (k * d) && p.stage == cube_dims(
            vstd::math::max(1, ((nb as usize) as u32) as int),
            64,
        ) && p.count == Some(wide_dims(nb * k)) && p.fold == wide_dims(k * d),
        SumsPath::Gather => p.staged == nb * (k * d) && p.stage == wide_dims(nb * (k * d))
            && p.count is None && p.fold == wide_dims(k * d),
    }
}

/// Plans the centroid sums of `k` clusters.
pub fn centroid_sums_dev_plan(
    x_len: usize,
    labels_len: usize,
    n: usize,
    d: usize,
    k: usize,
    cpu_backend: bool,
    gemm_flag: bool,
    gather_flag: bool,
) -> (r: Result<SumsPlan, PrimError>)
    requires
        geometry_fault(x_len, n, d, k) is None ==> n * k <= usize::MAX && block_count(
            n as int,
            sums_block_cap(k * d),
        ) * (k * d) <= usize::MAX,
    ensures
        match sums_fault(x_len, labels_len, n, d, k, gemm_flag) {
            Some(e) => r == Err::<SumsPlan, PrimError>(e),
            None => r matches Ok(p) && sums_plan_matches(
                p,
                sums_path((k * d) as usize, cpu_backend, gemm_flag, gather_flag),
                n as int,
                d as int,
                k as int,
            ),
        },
{
    match validate_geometry(x_len, n, d, k) {
        Err(e) => {
            return Err(e);
        },
        Ok(()) => {},
    }
    if labels_len != n {
        return Err(shape_mismatch("labels", n, 1, labels_len));
    }
    assert(k * d <= n * d) by (nonlinear_arith)
        requires
            k <= n,
            d >= 0,
    ;
    let kd: usize = k * d;
    if gemm_flag {
        match guard_u32("n*k", n * k) {
            Err(e) => {
                return Err(e);
            },
            Ok(()) => {},
        }
        let (blocks, rows_per_block): (usize, usize) = row_blocking(n, 256);
        proof {
            lemma_counts_fit(n as int, 256, k as int);
        }
        let partial_counts: usize = blocks * k;
        return Ok(
            SumsPlan {
                path: SumsPath::Gemm,
                blocks,
                rows_per_block,
                staged: n * k,
                partial_counts,
                stage: launch_dims_1d_folded(n * k, PERF_TUNED_BLOCK),
                count: Some(launch_dims_1d_folded(partial_counts, PERF_TUNED_BLOCK)),
                fold: launch_dims_1d_folded(k, PERF_TUNED_BLOCK),
            },
        );
    }
    let (blocks, rows_per_block): (usize, usize) = sums_blocking(n, kd);
    proof {
        lemma_counts_fit(n as int, sums_block_cap(kd as int), k as int);
    }
    let staged: usize = blocks * kd;
    let partial_counts: usize = blocks * k;
    let fold: LaunchDims = launch_dims_1d_folded(kd, PERF_TUNED_BLOCK);
    if use_shared_sums(kd, cpu_backend, gather_flag) {
        return Ok(
            SumsPlan {
                path: SumsPath::Shared,
                blocks,
                rows_per_block,
                staged,
                partial_counts,
                stage: launch_cubes(blocks, 64),
                count: Some(launch_dims_1d_folded(partial_counts, PERF_TUNED_BLOCK)),
                fold,
            },
        );
    }
    Ok(
        SumsPlan {
            path: SumsPath::Gather,
            blocks,
            rows_per_block,
            staged,
            partial_counts,
            stage: launch_dims_1d_folded(staged, PERF_TUNED_BLOCK),
            count: None,
            fold,
        },
    )
}

proof fn lemma_counts_fit(n: int, cap: int, k: int)
    requires
        n >= 1,
        cap >= 1,
        k >= 0,
        n * k <= usize::MAX,
    ensures
        0 <= block_count(n, cap) * k <= usize::MAX,
{
    lemma_blocks_tile(n, cap);
    let nb = block_count(n, cap);
    let rpb = rows_per_block(n, cap);
    assert(0 <= nb * k <= n * k) by (nonlinear_arith)
        requires
            (nb - 1) * rpb < n,
            rpb >= 1,
            nb >= 1,
            n >= 1,
            k >= 0,
    ;
}

/// The partial sums of a blocked pass stay within eight million entries, or
/// within 64 copies of the sums where those are larger.
pub proof fn lemma_partial_sums_bounded(n: int, kd: int)
    requires
        n >= 1,
        kd >= 1,
    ensures
        block_count(n, sums_block_cap(kd)) * kd <= 8_388_608 || block_count(
            n,
            sums_block_cap(kd),
        ) <= 64,
{
    lemma_blocks_tile(n, sums_block_cap(kd));
    let nb = block_count(n, sums_block_cap(kd));
    if nb > 64 {
        let q = 8_388_608int / kd;
        vstd::arithmetic::div_mod::lemma_fundamental_div_mod(8_388_608int, kd);
        assert(nb * kd <= 8_388_608) by (nonlinear_arith)
            requires
                nb <= q,
                8_388_608int == kd * q + 8_388_608int % kd,
                8_388_608int % kd >= 0,
                kd >= 1,
        ;
    }
}

/// Plans the blocked column moments of `n` rows with `d` features: the blocks,
/// and the launch over one partial per block and column.
pub fn feature_mean_var_plan(x_len: usize, n: usize, d: usize) -> (r: Result<BlockPlan, PrimError>)
    requires
        rows_fault(x_len, n, d) is None ==> n >= 1 && block_count(
            n as int,
            moment_block_cap(d as int),
        ) * d <= usize::MAX,
    ensures
        match rows_fault(x_len, n, d) {
            Some(e) => r == Err::<BlockPlan, PrimError>(e),
            None => {
                let nb = block_count(n as int, moment_block_cap(d as int));
                r == Ok::<BlockPlan, PrimError>(
                    BlockPlan {
                        blocks: nb as usize,
                        rows_per_block: rows_per_block(
                            n as int,
                            moment_block_cap(d as int),
                        ) as usize,
                        launch: wide_dims(nb * d),
                    },
                )
            },
        },
{
    match validate_rows(x_len, n, d) {
        Err(e) => {
            return Err(e);
        },
        Ok(()) => {},
    }
    let (blocks, rows_per_block): (usize, usize) = moment_blocking(n, d);
    Ok(
        BlockPlan {
            blocks,
            rows_per_block,
            launch: launch_dims_1d_folded(blocks * d, PERF_TUNED_BLOCK),
        },
    )
}

/// How the distances to all centers are staged.
#[derive(Debug, Clone, Copy, PartialEq, Eq)]
pub enum AssignStage {
    /// Norms and a matrix product.
    Gemm,
    /// One unit per sample and center.
    PerCenter,
    /// One unit per sample and four centers.
    PerFourCenters,
}

/// A planned nearest-center assignment.
#[derive(Debug, Clone, Copy, PartialEq, Eq)]
pub struct AssignPlan {
    pub stage: AssignStage,
    pub stage_launch: LaunchDims,
    pub argmin_launch: LaunchDims,
    /// Entries of the staged distances.
    pub staged: usize,
}

/// Why an assignment is refused.
pub open spec fn assign_fault(
    x_len: usize,
    centers_len: usize,
    labels_len: usize,
    dist_len: usize,
    xnorm_len: Option<usize>,
    n: usize,
    d: usize,
    k: usize,
) -> Option<PrimError> {
    first_fault(
        geometry_fault(x_len, n, d, k),
        if centers_len != k * d {
            Some(shape_error("centers", k, d, centers_len))
        } else if labels_len != n || dist_len != n {
            Some(
                shape_error(
                    "labels",
                    n,
                    1,
                    vstd::math::min(labels_len as int, dist_len as int) as usize,
                ),
            )
        } else if xnorm_len matches Some(l) && l != n {
            Some(shape_error("xnorm", n, 1, xnorm_len->0))
        } else {
            u32_fault("n*k", (n * k) as usize)
        },
    )
}

/// The staging of an assignment.
pub open spec fn assign_stage(norms: bool, gemm: bool, per_center_flag: bool) -> AssignStage {
    if norms && gemm {
        AssignStage::Gemm
    } else if per_center_flag {
        AssignStage::PerCenter
    } else {
        AssignStage::PerFourCenters
    }
}

/// The staging launch of an assignment of `n` samples to `k` centers.
pub open spec fn stage_dims(stage: AssignStage, n: int, k: int) -> LaunchDims {
    match stage {
        AssignStage::Gemm => tile_dims(n, k),
        AssignStage::PerCenter => folded_dims(n * k, PERF_TUNED_BLOCK),
        AssignStage::PerFourCenters => folded_dims(n * ceil_div_int(k, 4), PERF_TUNED_BLOCK),
    }
}

/// Plans a nearest-center assignment. The matrix product needs the sample norms
/// and is used only where `gemm` asks for it.
pub fn assign_min_plan(
    x_len: usize,
    centers_len: usize,
    labels_len: usize,
    dist_len: usize,
    xnorm_len: Option<usize>,
    n: usize,
    d: usize,
    k: usize,
    gemm: bool,
    per_center_flag: bool,
) -> (r: Result<AssignPlan, PrimError>)
    requires
        geometry_fault(x_len, n, d, k) is None ==> n * k <= usize::MAX && (gemm ==> n <= u32::MAX
            - 15),
    ensures
        match assign_fault(x_len, centers_len, labels_len, dist_len, xnorm_len, n, d, k) {
            Some(e) => r == Err::<AssignPlan, PrimError>(e),
            None => r matches Ok(p) && p.stage == assign_stage(
                xnorm_len is Some,
                gemm,
                per_center_flag,
            ) && p.stage_launch == stage_dims(p.stage, n as int, k as int) && p.argmin_launch
                == folded_dims(n as int, PERF_TUNED_BLOCK) && p.staged == n * k,
        },
{
    match validate_geometry(x_len, n, d, k) {
        Err(e) => {
            return Err(e);
        },
        Ok(()) => {},
    }
    if !crate::arith::product_is(k, d, centers_len) {
        return Err(shape_mismatch("centers", k, d, centers_len));
    }
    if labels_len != n || dist_len != n {
        return Err(shape_mismatch("labels", n, 1, crate::arith::min_usize(labels_len, dist_len)));
    }
    let norms: bool = match xnorm_len {
        Some(l) => {
            if l != n {
                return Err(shape_mismatch("xnorm", n, 1, l));
            }
            true
        },
        None => false,
    };
    match guard_u32("n*k", n * k) {
        Err(e) => {
            return Err(e);
        },
        Ok(()) => {},
    }
    let chunks: usize = ceil_div(k, 4);
    assert(n * chunks <= n * k) by (nonlinear_arith)
        requires
            chunks <= k,
            n >= 0,
    ;
    let (stage, stage_launch): (AssignStage, LaunchDims) = if norms && gemm {
        (AssignStage::Gemm, launch_dims_2d(n, k))
    } else if per_center_flag {
        (AssignStage::PerCenter, launch_dims_1d_folded(n * k, PERF_TUNED_BLOCK))
    } else {
        (AssignStage::PerFourCenters, launch_dims_1d_folded(n * chunks, PERF_TUNED_BLOCK))
    };
    Ok(
        AssignPlan {
            stage,
            stage_launch,
            argmin_launch: launch_dims_1d_folded(n, PERF_TUNED_BLOCK),
            staged: n * k,
        },
    )
}

// ---------------------------------------------------------------------------
// Empty clusters
// ---------------------------------------------------------------------------

/// A sample that leaves its cluster for an empty one.
#[derive(Debug, Clone, Copy, PartialEq, Eq)]
pub struct Relocation {
    pub sample: usize,
    /// The cluster that the sample leaves.
    pub donor: usize,
    /// The empty cluster that it fills.
    pub cluster: usize,
}

/// The empty clusters below `m`, ascending.
pub open spec fn empty_clusters(counts: Seq<i64>, m: nat) -> Seq<usize>
    decreases m,
{
    if m == 0 {
        Seq::empty()
    } else {
        let before = empty_clusters(counts, (m - 1) as nat);
        if counts[m - 1] == 0 {
            before.push((m - 1) as usize)
        } else {
            before
        }
    }
}

/// The first rank from `cursor` on whose sample can leave its cluster without
/// emptying it; the number of samples if there is none.
pub open spec fn next_movable(
    order: Seq<usize>,
    labels: Seq<u32>,
    counts: Seq<i64>,
    cursor: nat,
) -> nat
    decreases order.len() - cursor,
{
    if cursor >= order.len() {
        order.len()
    } else if counts[labels[order[cursor as int] as int] as int] > 1 {
        cursor
    } else {
        next_movable(order, labels, counts, cursor + 1)
    }
}

/// The counts after a sample of `donor` has filled `cluster`.
pub open spec fn counts_after(counts: Seq<i64>, cluster: usize, donor: usize) -> Seq<i64> {
    let filled = counts.update(cluster as int, (counts[cluster as int] + 1) as i64);
    filled.update(donor as int, (filled[donor as int] - 1) as i64)
}

/// Fills the empty clusters in turn, each with the next movable sample of the
/// ranking: the moves, the counts after them, and whether every cluster was
/// filled.
pub open spec fn relocation_walk(
    order: Seq<usize>,
    labels: Seq<u32>,
    counts: Seq<i64>,
    empties: Seq<usize>,
    cursor: nat,
) -> (Seq<Relocation>, Seq<i64>, bool)
    decreases empties.len(),
{
    if empties.len() == 0 {
        (Seq::empty(), counts, true)
    } else {
        let at = next_movable(order, labels, counts, cursor);
        if at >= order.len() {
            (Seq::empty(), counts, false)
        } else {
            let sample = order[at as int];
            let donor = labels[sample as int] as usize;
            let rest = relocation_walk(
                order,
                labels,
                counts_after(counts, empties[0], donor),
                empties.drop_first(),
                at + 1,
            );
            (
                seq![Relocation { sample, donor, cluster: empties[0] }] + rest.0,
                rest.1,
                rest.2,
            )
        }
    }
}

fn list_empty(counts: &Vec<i64>) -> (r: Vec<usize>)
    ensures
        r@ == empty_clusters(counts@, counts@.len()),
        forall|i: int|
            0 <= i < r.len() ==> #[trigger] r[i] < counts.len() && counts[r[i] as int] == 0,
        forall|i: int, j: int| 0 <= i < j < r.len() ==> r[i] < r[j],
{
    let mut out: Vec<usize> = Vec::new();
    let mut c: usize = 0;
    while c < counts.len()
        invariant
            c <= counts.len(),
            out@ == empty_clusters(counts@, c as nat),
            forall|i: int|
                0 <= i < out.len() ==> #[trigger] out[i] < c && counts[out[i] as int] == 0,
            forall|i: int, j: int| 0 <= i < j < out.len() ==> out[i] < out[j],
        decreases counts.len() - c,
    {
        if counts[c] == 0 {
            out.push(c);
        }
        c = c + 1;
    }
    out
}

proof fn lemma_next_movable(order: Seq<usize>, labels: Seq<u32>, counts: Seq<i64>, cursor: nat)
    requires
        cursor <= order.len(),
    ensures
        cursor <= next_movable(order, labels, counts, cursor) <= order.len(),
        next_movable(order, labels, counts, cursor) < order.len() ==> counts[labels[order[next_movable(
            order,
            labels,
            counts,
            cursor,
        ) as int] as int] as int] > 1,
    decreases order.len() - cursor,
{
    if cursor < order.len() {
        if counts[labels[order[cursor as int] as int] as int] > 1 {
        } else {
            lemma_next_movable(order, labels, counts, cursor + 1);
        }
    }
}

/// The outcome of filling the empty clusters with the samples in `order`: the
/// counts after it, and the moves, or the refusal where a cluster stays empty.
pub open spec fn relocated(
    order: Seq<usize>,
    labels: Seq<u32>,
    counts: Seq<i64>,
    after: Seq<i64>,
    r: Result<Vec<Relocation>, PrimError>,
) -> bool {
    let empties = empty_clusters(counts, counts.len());
    let w = relocation_walk(order, labels, counts, empties, 0);
    &&& after == w.1
    &&& if w.2 {
        r matches Ok(moves) && moves@ == w.0
    } else {
        r == Err::<Vec<Relocation>, PrimError>(
            shape_error(
                "labels",
                labels.len() as usize,
                counts.len() as usize,
                empties.len() as usize,
            ),
        )
    }
}

/// Gives every empty cluster a sample. The samples farthest from their centers
/// are taken first, the lowest index among equals; a sample stays where its
/// cluster has no other. When a cluster cannot be filled the call is refused.
/// Where no cluster is empty nothing changes, and the distances are not read.
/// `dist` holds the distances to the assigned centers as floating-point bits;
/// where one is not a number the samples are taken in some order.
pub fn relocate_empty_clusters(
    counts: &mut Vec<i64>,
    labels: &Vec<u32>,
    dist: &Vec<u64>,
    n: usize,
    k: usize,
) -> (r: Result<Vec<Relocation>, PrimError>)
    requires
        old(counts).len() == k,
        labels.len() == n,
        dist.len() == n,
        forall|i: int| 0 <= i < n ==> #[trigger] label_ok(labels@, k, i),
    ensures
        empty_clusters(old(counts)@, k as nat).len() == 0 ==> r is Ok && r->Ok_0@.len() == 0
            && final(counts)@ == old(counts)@,
        all_numbers(dist@) ==> forall|order: Seq<usize>| #[trigger]
            is_ranking(order, dist@) ==> relocated(
                order,
                labels@,
                old(counts)@,
                final(counts)@,
                r,
            ),
        exists|order: Seq<usize>| #[trigger]
            is_permutation(order, n as nat) && relocated(
                order,
                labels@,
                old(counts)@,
                final(counts)@,
                r,
            ),
        no_negative(old(counts)@) ==> {
            &&& sum_signed(final(counts)@) == sum_signed(old(counts)@)
            &&& r is Ok ==> forall|c: int| 0 <= c < k ==> #[trigger] final(counts)@[c] >= 1
        },
        r matches Ok(moves) ==> forall|i: int, j: int|
            0 <= i < j < moves@.len() ==> (#[trigger] moves@[i]).sample != (
            #[trigger] moves@[j]).sample,
        tallies(old(counts)@, labels@) ==> (r is Ok <==> k <= n),
        r matches Err(e) ==> e == (PrimError::ShapeMismatch {
            operand: "labels",
            rows: n,
            cols: k,
            len: empty_clusters(old(counts)@, k as nat).len() as usize,
        }),
        r matches Ok(moves) ==> moves@.len() == empty_clusters(old(counts)@, k as nat).len(),
{
    let ghost start = counts@;
    let empties: Vec<usize> = list_empty(counts);
    let mut moves: Vec<Relocation> = Vec::new();
    if empties.len() == 0 {
        proof {
            let order = identity(n as nat);
            assert forall|v: usize| v < n implies #[trigger] order.contains(v) by {
                assert(order[v as int] == v);
            }
            assert(is_permutation(order, n as nat));
            lemma_relocated(order, labels@, start, counts@, Ok(moves));
        }
        return Ok(moves);
    }
    let order: Vec<usize> = rank_farthest(dist);
    let ghost whole = relocation_walk(order@, labels@, start, empties@, 0);
    proof {
        crate::ranking::lemma_ranking_is_permutation(order@, dist@);
        assert forall|o: Seq<usize>| #[trigger] is_ranking(o, dist@) implies o == order@ by {
            crate::ranking::lemma_ranking_unique(o, order@, dist@);
        }
        assert(empties@.skip(0) =~= empties@);
        assert(moves@ + whole.0 =~= whole.0);
    }
    let mut cursor: usize = 0;
    let mut e: usize = 0;
    while e < empties.len()
        invariant
            e <= empties.len(),
            cursor <= n,
            n == order.len(),
            n == labels.len(),
            n == dist.len(),
            counts.len() == k,
            start.len() == k,
            start == old(counts)@,
            empties@ == empty_clusters(start, k as nat),
            forall|o: Seq<usize>| #[trigger] is_ranking(o, dist@) ==> o == order@,
            is_permutation(order@, n as nat),
            forall|i: int| 0 <= i < n ==> #[trigger] order[i] < n,
            forall|i: int| 0 <= i < n ==> #[trigger] label_ok(labels@, k, i),
            forall|i: int|
                e <= i < empties.len() ==> #[trigger] empties[i] < k && counts[empties[i] as int]
                    == 0,
            forall|i: int, j: int| 0 <= i < j < empties.len() ==> empties[i] < empties[j],
            whole == relocation_walk(order@, labels@, start, empties@, 0),
            ({
                let rest = relocation_walk(
                    order@,
                    labels@,
                    counts@,
                    empties@.skip(e as int),
                    cursor as nat,
                );
                whole == (moves@ + rest.0, rest.1, rest.2)
            }),
        decreases empties.len() - e,
    {
        let ghost rest = relocation_walk(
            order@,
            labels@,
            counts@,
            empties@.skip(e as int),
            cursor as nat,
        );
        let ghost entry = cursor as nat;
        let c: usize = empties[e];
        let mut found: bool = false;
        while cursor < n && !found
            invariant
                entry <= cursor <= n,
                n == order.len(),
                n == labels.len(),
                counts.len() == k,
                forall|i: int| 0 <= i < n ==> #[trigger] order[i] < n,
                forall|i: int| 0 <= i < n ==> #[trigger] label_ok(labels@, k, i),
                next_movable(order@, labels@, counts@, entry) == next_movable(
                    order@,
                    labels@,
                    counts@,
                    cursor as nat,
                ),
                found ==> cursor < n && counts[labels[order[cursor as int] as int] as int] > 1,
            decreases n - cursor + (if found { 0int } else { 1int }),
        {
            assert(order[cursor as int] < n);
            assert(label_ok(labels@, k, order[cursor as int] as int));
            let donor: usize = labels[order[cursor]] as usize;
            if counts[donor] > 1 {
                found = true;
            } else {
                cursor = cursor + 1;
            }
        }
        proof {
            assert(empties@.skip(e as int)[0] == c);
            assert(empties@.skip(e as int).drop_first() =~= empties@.skip(e + 1));
        }
        if !found {
            let refusal: PrimError = shape_mismatch("labels", n, k, empties.len());
            proof {
                assert(moves@ + rest.0 =~= moves@);
                lemma_relocated(order@, labels@, start, counts@, Err(refusal));
            }
            return Err(refusal);
        }
        let sample: usize = order[cursor];
        assert(order[cursor as int] < n);
        assert(label_ok(labels@, k, sample as int));
        let donor: usize = labels[sample] as usize;
        let ghost before = counts@;
        let filled: i64 = counts[c];
        assert(empties[e as int] < k && counts[empties[e as int] as int] == 0);
        counts.set(c, filled + 1);
        let given: i64 = counts[donor];
        counts.set(donor, given - 1);
        let ghost prev = moves@;
        moves.push(Relocation { sample, donor, cluster: c });
        cursor = cursor + 1;
        e = e + 1;
        proof {
            assert(counts@ =~= counts_after(before, c, donor));
            let next = relocation_walk(
                order@,
                labels@,
                counts@,
                empties@.skip(e as int),
                cursor as nat,
            );
            assert(rest.0 == seq![Relocation { sample, donor, cluster: c }] + next.0);
            assert(prev + rest.0 =~= moves@ + next.0);
            assert forall|i: int| e <= i < empties.len() implies #[trigger] empties[i] < k
                && counts[empties[i] as int] == 0 by {
                assert(empties[e - 1] < empties[i]);
                assert(before[empties[i] as int] == 0);
            }
        }
    }
    proof {
        assert(empties@.skip(e as int).len() == 0);
        let rest = relocation_walk(
            order@,
            labels@,
            counts@,
            empties@.skip(e as int),
            cursor as nat,
        );
        assert(moves@ + rest.0 =~= moves@);
        lemma_relocated(order@, labels@, start, counts@, Ok(moves));
    }
    Ok(moves)
}

/// What holds of the outcome in whatever order the samples were taken.
proof fn lemma_relocated(
    order: Seq<usize>,
    labels: Seq<u32>,
    counts: Seq<i64>,
    after: Seq<i64>,
    r: Result<Vec<Relocation>, PrimError>,
)
    requires
        is_permutation(order, labels.len()),
        counts.len() <= usize::MAX,
        forall|i: int|
            0 <= i < labels.len() ==> #[trigger] label_ok(labels, counts.len() as usize, i),
        relocated(order, labels, counts, after, r),
    ensures
        no_negative(counts) ==> {
            &&& after.len() == counts.len()
            &&& sum_signed(after) == sum_signed(counts)
            &&& r is Ok ==> forall|c: int| 0 <= c < after.len() ==> #[trigger] after[c] >= 1
        },
        r matches Ok(moves) ==> forall|i: int, j: int|
            0 <= i < j < moves@.len() ==> (#[trigger] moves@[i]).sample != (
            #[trigger] moves@[j]).sample,
        tallies(counts, labels) ==> (r is Ok <==> counts.len() <= labels.len()),
        r matches Ok(moves) ==> moves@.len() == empty_clusters(counts, counts.len()).len(),
{
    let empties = empty_clusters(counts, counts.len());
    lemma_empty_clusters_listed(counts, counts.len());
    assert forall|i: int| 0 <= i < labels.len() implies (#[trigger] labels[i]) < counts.len() by {
        assert(label_ok(labels, counts.len() as usize, i));
    }
    if no_negative(counts) {
        lemma_relocation_fills(order, labels, counts, empties, 0);
    }
    if tallies(counts, labels) {
        lemma_relocation_succeeds(order, labels, counts);
    }
    lemma_walk_moves_each(order, labels, counts, empties, 0);
    if let Ok(moves) = r {
        assert forall|i: int, j: int| 0 <= i < j < moves@.len() implies (
        #[trigger] moves@[i]).sample != (#[trigger] moves@[j]).sample by {
            lemma_relocation_moves(order, labels, counts, empties, 0, i);
        }
    }
}

proof fn lemma_walk_moves_each(
    order: Seq<usize>,
    labels: Seq<u32>,
    counts: Seq<i64>,
    empties: Seq<usize>,
    cursor: nat,
)
    ensures
        ({
            let w = relocation_walk(order, labels, counts, empties, cursor);
            w.2 ==> w.0.len() == empties.len()
        }),
    decreases empties.len(),
{
    if empties.len() > 0 {
        let at = next_movable(order, labels, counts, cursor);
        if at < order.len() {
            let donor = labels[order[at as int] as int] as usize;
            lemma_walk_moves_each(
                order,
                labels,
                counts_after(counts, empties[0], donor),
                empties.drop_first(),
                at + 1,
            );
        }
    }
}

/// No count is negative.
pub open spec fn no_negative(counts: Seq<i64>) -> bool {
    forall|c: int| 0 <= c < counts.len() ==> #[trigger] counts[c] >= 0
}

/// The sum of signed counts.
pub open spec fn sum_signed(c: Seq<i64>) -> int
    decreases c.len(),
{
    if c.len() == 0 {
        0
    } else {
        sum_signed(c.drop_last()) + c.last()
    }
}

proof fn lemma_sum_update(c: Seq<i64>, i: int, v: i64)
    requires
        0 <= i < c.len(),
    ensures
        sum_signed(c.update(i, v)) == sum_signed(c) - c[i] + v,
    decreases c.len(),
{
    let u = c.update(i, v);
    if i == c.len() - 1 {
        assert(u.drop_last() =~= c.drop_last());
    } else {
        lemma_sum_update(c.drop_last(), i, v);
        assert(u.drop_last() =~= c.drop_last().update(i, v));
    }
}

/// The listed clusters are exactly the empty ones, each once.
pub open spec fn lists_empty(empties: Seq<usize>, counts: Seq<i64>) -> bool {
    &&& empties.no_duplicates()
    &&& forall|c: int|
        0 <= c < counts.len() ==> (#[trigger] counts[c] == 0 <==> empties.contains(c as usize))
    &&& forall|i: int| 0 <= i < empties.len() ==> #[trigger] empties[i] < counts.len()
}

/// [`empty_clusters`] lists the empty clusters, each once.
pub proof fn lemma_empty_clusters_listed(counts: Seq<i64>, m: nat)
    requires
        m == counts.len(),
        m <= usize::MAX,
    ensures
        lists_empty(empty_clusters(counts, m), counts),
{
    lemma_empty_prefix(counts, m);
}

proof fn lemma_empty_prefix(counts: Seq<i64>, m: nat)
    requires
        m <= counts.len(),
        counts.len() <= usize::MAX,
    ensures
        empty_clusters(counts, m).no_duplicates(),
        forall|i: int|
            0 <= i < empty_clusters(counts, m).len() ==> #[trigger] empty_clusters(counts, m)[i]
                < m,
        forall|c: int|
            0 <= c < m ==> (#[trigger] counts[c] == 0 <==> empty_clusters(counts, m).contains(
                c as usize,
            )),
    decreases m,
{
    if m > 0 {
        lemma_empty_prefix(counts, (m - 1) as nat);
        let before = empty_clusters(counts, (m - 1) as nat);
        let all = empty_clusters(counts, m);
        assert forall|c: int| 0 <= c < m implies (#[trigger] counts[c] == 0 <==> all.contains(
            c as usize,
        )) by {
            if c == m - 1 {
                if counts[c] == 0 {
                    assert(all[all.len() - 1] == c as usize);
                }
            } else {
                if before.contains(c as usize) {
                    let i = choose|i: int| 0 <= i < before.len() && before[i] == c as usize;
                    assert(all[i] == c as usize);
                }
                if all.contains(c as usize) {
                    let i = choose|i: int| 0 <= i < all.len() && all[i] == c as usize;
                    if i < before.len() {
                        assert(before[i] == c as usize);
                    }
                }
            }
        }
    }
}

/// A move from a cluster with samples to spare fills the first of the listed
/// clusters, and changes no other and not the sum.
proof fn lemma_move(counts: Seq<i64>, empties: Seq<usize>, donor: usize)
    requires
        empties.len() > 0,
        lists_empty(empties, counts),
        counts.len() <= usize::MAX,
        donor < counts.len(),
        counts[donor as int] > 1,
    ensures
        ({
            let next = counts_after(counts, empties[0], donor);
            &&& next.len() == counts.len()
            &&& lists_empty(empties.drop_first(), next)
            &&& sum_signed(next) == sum_signed(counts)
            &&& forall|c: int|
                0 <= c < next.len() ==> #[trigger] next[c] == if c == empties[0] {
                    1
                } else if c == donor {
                    counts[c] - 1
                } else {
                    counts[c] as int
                }
        }),
{
    let c0 = empties[0];
    assert(empties.contains(c0));
    assert(counts[c0 as int] == 0);
    let next = counts_after(counts, c0, donor);
    let rest = empties.drop_first();
    lemma_sum_update(counts, c0 as int, (counts[c0 as int] + 1) as i64);
    let filled = counts.update(c0 as int, (counts[c0 as int] + 1) as i64);
    lemma_sum_update(filled, donor as int, (filled[donor as int] - 1) as i64);
    assert forall|c: int| 0 <= c < next.len() implies (#[trigger] next[c] == 0
        <==> rest.contains(c as usize)) by {
        assert(counts[c] == 0 <==> empties.contains(c as usize));
        if empties.contains(c as usize) && c != c0 {
            let i = choose|i: int| 0 <= i < empties.len() && empties[i] == c as usize;
            assert(rest[i - 1] == c as usize);
        }
        if rest.contains(c as usize) {
            let i = choose|i: int| 0 <= i < rest.len() && rest[i] == c as usize;
            assert(empties[i + 1] == c as usize);
            assert(empties.contains(c as usize));
        }
    }
    assert forall|i: int| 0 <= i < rest.len() implies #[trigger] rest[i] < next.len() by {
        assert(empties[i + 1] < counts.len());
    }
}

/// Relocation loses no sample: the counts have the same sum as before. When it
/// succeeds no cluster is left empty: every count is at least one.
pub proof fn lemma_relocation_fills(
    order: Seq<usize>,
    labels: Seq<u32>,
    counts: Seq<i64>,
    empties: Seq<usize>,
    cursor: nat,
)
    requires
        cursor <= order.len(),
        lists_empty(empties, counts),
        counts.len() <= usize::MAX,
        forall|i: int| 0 <= i < order.len() ==> (#[trigger] order[i]) < labels.len(),
        forall|i: int| 0 <= i < labels.len() ==> (#[trigger] labels[i]) < counts.len(),
        forall|c: int| 0 <= c < counts.len() ==> #[trigger] counts[c] >= 0,
    ensures
        ({
            let w = relocation_walk(order, labels, counts, empties, cursor);
            &&& w.1.len() == counts.len()
            &&& sum_signed(w.1) == sum_signed(counts)
            &&& w.2 ==> forall|c: int| 0 <= c < w.1.len() ==> #[trigger] w.1[c] >= 1
        }),
    decreases empties.len(),
{
    if empties.len() == 0 {
        assert forall|c: int| 0 <= c < counts.len() implies #[trigger] counts[c] >= 1 by {
            assert(!empties.contains(c as usize));
        }
    } else {
        lemma_next_movable(order, labels, counts, cursor);
        let at = next_movable(order, labels, counts, cursor);
        if at < order.len() {
            let donor = labels[order[at as int] as int] as usize;
            lemma_move(counts, empties, donor);
            lemma_relocation_fills(
                order,
                labels,
                counts_after(counts, empties[0], donor),
                empties.drop_first(),
                at + 1,
            );
        }
    }
}

/// How many of the first `m` labels are `c`.
pub open spec fn label_count(labels: Seq<u32>, c: int, m: nat) -> nat
    decreases m,
{
    if m == 0 {
        0
    } else {
        label_count(labels, c, (m - 1) as nat) + if labels[m - 1] == c {
            1nat
        } else {
            0nat
        }
    }
}

/// The counts are those of the labels: each cluster has as many samples as are
/// labelled with it.
pub open spec fn tallies(counts: Seq<i64>, labels: Seq<u32>) -> bool {
    forall|c: int|
        0 <= c < counts.len() ==> #[trigger] counts[c] == label_count(labels, c, labels.len())
}

proof fn lemma_label_count_grows(labels: Seq<u32>, c: int, a: nat, b: nat)
    requires
        a <= b,
    ensures
        label_count(labels, c, a) <= label_count(labels, c, b),
    decreases b,
{
    if a < b {
        lemma_label_count_grows(labels, c, a, (b - 1) as nat);
    }
}

proof fn lemma_label_count_multiset(labels: Seq<u32>, c: int, m: nat)
    requires
        m <= labels.len(),
    ensures
        label_count(labels, c, m) == if 0 <= c <= u32::MAX {
            labels.take(m as int).to_multiset().count(c as u32)
        } else {
            0
        },
    decreases m,
{
    broadcast use vstd::seq_lib::group_to_multiset_ensures;

    if m > 0 {
        lemma_label_count_multiset(labels, c, (m - 1) as nat);
        assert(labels.take(m as int) =~= labels.take(m - 1).push(labels[m - 1]));
    } else {
        assert(labels.take(0).to_multiset().len() == 0);
    }
}

/// How many of the first `m` labels are below `j`.
spec fn label_below(labels: Seq<u32>, j: int, m: nat) -> nat
    decreases m,
{
    if m == 0 {
        0
    } else {
        label_below(labels, j, (m - 1) as nat) + if labels[m - 1] < j {
            1nat
        } else {
            0nat
        }
    }
}

proof fn lemma_label_below_next(labels: Seq<u32>, j: int, m: nat)
    ensures
        label_below(labels, j + 1, m) == label_below(labels, j, m) + label_count(labels, j, m),
    decreases m,
{
    if m > 0 {
        lemma_label_below_next(labels, j, (m - 1) as nat);
    }
}

proof fn lemma_label_below_ends(labels: Seq<u32>, j: int, m: nat)
    requires
        m <= labels.len(),
    ensures
        label_below(labels, 0, m) == 0,
        (forall|i: int| 0 <= i < m ==> #[trigger] labels[i] < j) ==> label_below(labels, j, m) == m,
    decreases m,
{
    if m > 0 {
        lemma_label_below_ends(labels, j, (m - 1) as nat);
    }
}

proof fn lemma_sum_tallies(counts: Seq<i64>, labels: Seq<u32>)
    requires
        tallies(counts, labels),
    ensures
        sum_signed(counts) == label_below(labels, counts.len() as int, labels.len()),
    decreases counts.len(),
{
    if counts.len() == 0 {
        lemma_label_below_ends(labels, 0, labels.len());
    } else {
        let less = counts.drop_last();
        assert forall|c: int| 0 <= c < less.len() implies #[trigger] less[c] == label_count(
            labels,
            c,
            labels.len(),
        ) by {
            assert(counts[c] == label_count(labels, c, labels.len()));
        }
        lemma_sum_tallies(less, labels);
        lemma_label_below_next(labels, counts.len() - 1, labels.len());
    }
}

proof fn lemma_sum_bounds(counts: Seq<i64>)
    ensures
        (forall|c: int| 0 <= c < counts.len() ==> #[trigger] counts[c] <= 1) ==> sum_signed(counts)
            <= counts.len(),
        (forall|c: int| 0 <= c < counts.len() ==> #[trigger] counts[c] >= 1) ==> sum_signed(counts)
            >= counts.len(),
    decreases counts.len(),
{
    if counts.len() > 0 {
        let less = counts.drop_last();
        lemma_sum_bounds(less);
        assert(forall|c: int| 0 <= c < less.len() ==> #[trigger] less[c] == counts[c]);
    }
}

/// The labels in the order of the ranking.
spec fn ranked_labels(order: Seq<usize>, labels: Seq<u32>) -> Seq<u32> {
    Seq::new(order.len(), |i: int| labels[order[i] as int])
}

/// Every cluster has, from the cursor on, all its samples but one.
spec fn donors_ahead(s: Seq<u32>, counts: Seq<i64>, cursor: nat) -> bool {
    forall|c: int|
        0 <= c < counts.len() ==> #[trigger] counts[c] - 1 <= label_count(s, c, s.len())
            - label_count(s, c, cursor)
}

proof fn lemma_passed(order: Seq<usize>, labels: Seq<u32>, counts: Seq<i64>, cursor: nat)
    requires
        cursor <= order.len(),
        donors_ahead(ranked_labels(order, labels), counts, cursor),
    ensures
        donors_ahead(
            ranked_labels(order, labels),
            counts,
            next_movable(order, labels, counts, cursor),
        ),
    decreases order.len() - cursor,
{
    let s = ranked_labels(order, labels);
    if cursor < order.len() && counts[s[cursor as int] as int] <= 1 {
        assert forall|c: int| 0 <= c < counts.len() implies #[trigger] counts[c] - 1
            <= label_count(s, c, s.len()) - label_count(s, c, cursor + 1) by {
            lemma_label_count_grows(s, c, cursor + 1, s.len());
        }
        lemma_passed(order, labels, counts, cursor + 1);
    }
}

proof fn lemma_walk_succeeds(
    order: Seq<usize>,
    labels: Seq<u32>,
    counts: Seq<i64>,
    empties: Seq<usize>,
    cursor: nat,
)
    requires
        cursor <= order.len(),
        lists_empty(empties, counts),
        counts.len() <= usize::MAX,
        forall|i: int| 0 <= i < order.len() ==> (#[trigger] order[i]) < labels.len(),
        forall|i: int| 0 <= i < labels.len() ==> (#[trigger] labels[i]) < counts.len(),
        forall|c: int| 0 <= c < counts.len() ==> #[trigger] counts[c] >= 0,
        donors_ahead(ranked_labels(order, labels), counts, cursor),
    ensures
        relocation_walk(order, labels, counts, empties, cursor).2 == (counts.len() <= sum_signed(
            counts,
        )),
    decreases empties.len(),
{
    let s = ranked_labels(order, labels);
    if empties.len() == 0 {
        assert forall|c: int| 0 <= c < counts.len() implies #[trigger] counts[c] >= 1 by {
            assert(!empties.contains(c as usize));
        }
        lemma_sum_bounds(counts);
    } else {
        lemma_next_movable(order, labels, counts, cursor);
        lemma_passed(order, labels, counts, cursor);
        let at = next_movable(order, labels, counts, cursor);
        let c0 = empties[0];
        assert(empties.contains(c0));
        if at < order.len() {
            let donor = labels[order[at as int] as int] as usize;
            let next = counts_after(counts, c0, donor);
            lemma_move(counts, empties, donor);
            assert(donors_ahead(s, next, at + 1)) by {
                assert forall|c: int| 0 <= c < next.len() implies #[trigger] next[c] - 1
                    <= label_count(s, c, s.len()) - label_count(s, c, at + 1) by {
                    lemma_label_count_grows(s, c, at + 1, s.len());
                    assert(counts[c] - 1 <= label_count(s, c, s.len()) - label_count(s, c, at));
                }
            }
            lemma_walk_succeeds(order, labels, next, empties.drop_first(), at + 1);
        } else {
            let filled = counts.update(c0 as int, 1);
            assert forall|c: int| 0 <= c < filled.len() implies #[trigger] filled[c] <= 1 by {
                assert(counts[c] - 1 <= label_count(s, c, s.len()) - label_count(s, c, at));
            }
            lemma_sum_bounds(filled);
            lemma_sum_update(counts, c0 as int, 1);
        }
    }
}

/// Relocation succeeds exactly where there are samples enough: in whatever order
/// the samples are taken, every empty cluster is filled if and only if there are
/// no more clusters than samples.
pub proof fn lemma_relocation_succeeds(order: Seq<usize>, labels: Seq<u32>, counts: Seq<i64>)
    requires
        is_permutation(order, labels.len()),
        tallies(counts, labels),
        counts.len() <= usize::MAX,
        forall|i: int| 0 <= i < labels.len() ==> (#[trigger] labels[i]) < counts.len(),
    ensures
        relocation_walk(order, labels, counts, empty_clusters(counts, counts.len()), 0).2 == (
        counts.len() <= labels.len()),
{
    let s = ranked_labels(order, labels);
    let n = labels.len();
    lemma_empty_clusters_listed(counts, counts.len());
    lemma_sum_tallies(counts, labels);
    lemma_label_below_ends(labels, counts.len() as int, n);
    let places = Seq::new(n, |i: int| order[i] as int);
    assert(order.len() == n);
    assert forall|i: int, j: int| 0 <= i < n && 0 <= j < n && i != j implies places[i]
        != places[j] by {
        assert(order[i] != order[j]);
    }
    crate::seqs::lemma_scatter_keeps_items(s, labels, places);
    assert(s.take(n as int) =~= s);
    assert(labels.take(n as int) =~= labels);
    assert forall|c: int| 0 <= c < counts.len() implies #[trigger] counts[c] - 1 <= label_count(
        s,
        c,
        s.len(),
    ) - label_count(s, c, 0) by {
        lemma_label_count_multiset(s, c, n);
        lemma_label_count_multiset(labels, c, n);
        assert(counts[c] == label_count(labels, c, n));
    }
    assert forall|c: int| 0 <= c < counts.len() implies #[trigger] counts[c] >= 0 by {
        assert(counts[c] == label_count(labels, c, n));
    }
    lemma_walk_succeeds(order, labels, counts, empty_clusters(counts, counts.len()), 0);
}

/// Every move takes a sample of its own out of the cluster that it was assigned
/// to: the samples follow the ranking, so none is moved twice.
pub proof fn lemma_relocation_moves(
    order: Seq<usize>,
    labels: Seq<u32>,
    counts: Seq<i64>,
    empties: Seq<usize>,
    cursor: nat,
    i: int,
)
    requires
        cursor <= order.len(),
        order.no_duplicates(),
        0 <= i < relocation_walk(order, labels, counts, empties, cursor).0.len(),
    ensures
        ({
            let moves = relocation_walk(order, labels, counts, empties, cursor).0;
            &&& moves.len() <= empties.len()
            &&& moves[i].cluster == empties[i]
            &&& moves[i].donor == labels[moves[i].sample as int] as usize
            &&& exists|p: int| cursor <= p < order.len() && #[trigger] order[p] == moves[i].sample
            &&& forall|j: int|
                0 <= j < moves.len() && j != i ==> (#[trigger] moves[j]).sample != moves[i].sample
        }),
    decreases empties.len(),
{
    lemma_next_movable(order, labels, counts, cursor);
    let at = next_movable(order, labels, counts, cursor);
    let donor = labels[order[at as int] as int] as usize;
    let next = counts_after(counts, empties[0], donor);
    let rest = relocation_walk(order, labels, next, empties.drop_first(), at + 1);
    let moves = relocation_walk(order, labels, counts, empties, cursor).0;
    assert(moves[0].sample == order[at as int]);
    assert forall|j: int| 1 <= j < moves.len() implies (#[trigger] moves[j]).sample
        != moves[0].sample && moves[j] == rest.0[j - 1] && exists|p: int|
        at < p < order.len() && #[trigger] order[p] == moves[j].sample by {
        lemma_relocation_moves(order, labels, next, empties.drop_first(), at + 1, j - 1);
        let p = choose|p: int|
            at + 1 <= p < order.len() && #[trigger] order[p] == rest.0[j - 1].sample;
        assert(order[p] == moves[j].sample);
    }
    if i > 0 {
        lemma_relocation_moves(order, labels, next, empties.drop_first(), at + 1, i - 1);
        assert forall|j: int| 0 <= j < moves.len() && j != i implies (#[trigger] moves[j]).sample
            != moves[i].sample by {
            if j > 0 {
                assert(rest.0[j - 1].sample != rest.0[i - 1].sample);
            }
        }
        let p = choose|p: int| at < p < order.len() && #[trigger] order[p] == moves[i].sample;
        assert(cursor <= p);
    } else {
        assert(cursor <= at < order.len());
        if empties.len() > 1 && rest.0.len() > 0 {
            lemma_relocation_moves(order, labels, next, empties.drop_first(), at + 1, 0);
        }
    }
}

// ---------------------------------------------------------------------------
// D²-weighted seeding
// ---------------------------------------------------------------------------

/// The first sample that was not chosen; the number of samples if all were.
pub open spec fn first_unchosen(chosen: Seq<bool>, from: nat) -> nat
    decreases chosen.len() - from,
{
    if from >= chosen.len() {
        chosen.len()
    } else if !chosen[from as int] {
        from
    } else {
        first_unchosen(chosen, from + 1)
    }
}

/// The last of the first `m` samples with a positive weight; `-1` if none has.
pub open spec fn last_positive(weights: Seq<u64>, m: nat) -> int
    decreases m,
{
    if m == 0 {
        -1
    } else if lt64(0, weights[m - 1]) {
        m - 1
    } else {
        last_positive(weights, (m - 1) as nat)
    }
}

/// The sample that a weighted draw settles on. `hit` is the first sample whose
/// cumulative weight reaches the target, if rounding let one reach it; a sample
/// without weight gives way to the last one that has some, and a sample that
/// was chosen before to the first that was not.
pub open spec fn settled(weights: Seq<u64>, chosen: Seq<bool>, hit: Option<usize>) -> int {
    let n = weights.len();
    let first: int = match hit {
        Some(i) => i as int,
        None => n - 1,
    };
    let pick = if le64(weights[first], 0) && last_positive(weights, n) >= 0 {
        last_positive(weights, n)
    } else {
        first
    };
    if chosen[pick] && first_unchosen(chosen, 0) < n {
        first_unchosen(chosen, 0) as int
    } else {
        pick
    }
}

/// How many flags are set.
pub open spec fn count_set(s: Seq<bool>) -> nat
    decreases s.len(),
{
    if s.len() == 0 {
        0
    } else {
        count_set(s.drop_last()) + if s.last() {
            1nat
        } else {
            0nat
        }
    }
}

proof fn lemma_count_set(s: Seq<bool>)
    ensures
        count_set(s) <= s.len(),
        count_set(s) < s.len() ==> exists|i: int| 0 <= i < s.len() && !#[trigger] s[i],
    decreases s.len(),
{
    if s.len() > 0 {
        lemma_count_set(s.drop_last());
        if count_set(s) < s.len() {
            if s.last() {
                let p = s.drop_last();
                let i = choose|i: int| 0 <= i < p.len() && !#[trigger] p[i];
                assert(!s[i]);
            } else {
                assert(!s[s.len() - 1]);
            }
        }
    }
}

proof fn lemma_count_set_update(s: Seq<bool>, i: int)
    requires
        0 <= i < s.len(),
        !s[i],
    ensures
        count_set(s.update(i, true)) == count_set(s) + 1,
    decreases s.len(),
{
    let u = s.update(i, true);
    if i == s.len() - 1 {
        assert(u.drop_last() =~= s.drop_last());
    } else {
        lemma_count_set_update(s.drop_last(), i);
        assert(u.drop_last() =~= s.drop_last().update(i, true));
    }
}

proof fn lemma_first_unchosen(chosen: Seq<bool>, from: nat)
    requires
        from <= chosen.len(),
    ensures
        from <= first_unchosen(chosen, from) <= chosen.len(),
        first_unchosen(chosen, from) < chosen.len() ==> !chosen[first_unchosen(
            chosen,
            from,
        ) as int],
        forall|i: int| from <= i < first_unchosen(chosen, from) ==> #[trigger] chosen[i],
    decreases chosen.len() - from,
{
    if from < chosen.len() {
        if chosen[from as int] {
            lemma_first_unchosen(chosen, from + 1);
        }
    }
}

proof fn lemma_last_positive(weights: Seq<u64>, m: nat)
    requires
        m <= weights.len(),
    ensures
        -1 <= last_positive(weights, m) < m,
        last_positive(weights, m) >= 0 ==> lt64(0, weights[last_positive(weights, m)]),
    decreases m,
{
    if m > 0 {
        lemma_last_positive(weights, (m - 1) as nat);
    }
}

/// The centers that were drawn so far, with the generator that draws them.
pub struct Seeding {
    rng: SplitMix64,
    chosen: Vec<usize>,
    is_chosen: Vec<bool>,
    k: usize,
}

impl Seeding {
    /// The samples that were drawn, in drawing order.
    pub closed spec fn centers(self) -> Seq<usize> {
        self.chosen@
    }

    /// Which samples were drawn.
    pub closed spec fn flags(self) -> Seq<bool> {
        self.is_chosen@
    }

    /// The generator's counter.
    pub closed spec fn counter(self) -> u64 {
        self.rng@
    }

    /// How many centers are wanted.
    pub closed spec fn wanted(self) -> nat {
        self.k as nat
    }

    /// Between one and all of the wanted centers, all of them distinct samples,
    /// with a flag on exactly those.
    pub open spec fn wf(self) -> bool {
        &&& 1 <= self.centers().len() <= self.wanted() <= self.flags().len()
        &&& self.centers().no_duplicates()
        &&& forall|i: int|
            0 <= i < self.centers().len() ==> #[trigger] self.centers()[i] < self.flags().len()
        &&& forall|s: int|
            0 <= s < self.flags().len() ==> (#[trigger] self.flags()[s]
                <==> self.centers().contains(s as usize))
        &&& count_set(self.flags()) == self.centers().len()
    }

    /// Starts a seeding of `k` centers: the first is drawn uniformly.
    pub fn start(x_len: usize, n: usize, d: usize, k: usize, seed: u64) -> (r: Result<
        Seeding,
        PrimError,
    >)
        ensures
            match geometry_fault(x_len, n, d, k) {
                Some(e) => r is Err && r->Err_0 == e,
                None => r matches Ok(s) && s.wf() && s.wanted() == k && s.flags().len() == n
                    && s.centers() == seq![below(seed, n as u64).0 as usize] && s.counter()
                    == below(seed, n as u64).1,
            },
    {
        match validate_geometry(x_len, n, d, k) {
            Err(e) => {
                return Err(e);
            },
            Ok(()) => {},
        }
        let mut rng: SplitMix64 = SplitMix64::new(seed);
        let first: usize = rng.next_below(n as u64) as usize;
        let mut chosen: Vec<usize> = Vec::new();
        chosen.push(first);
        let mut is_chosen: Vec<bool> = vec![false; n];
        let ghost unset = is_chosen@;
        is_chosen.set(first, true);
        proof {
            lemma_none_set(unset);
            lemma_count_set_update(unset, first as int);
            assert(chosen@ =~= seq![first]);
            assert(chosen@[0] == first);
        }
        let s: Seeding = Seeding { rng, chosen, is_chosen, k };
        proof {
            assert forall|i: int| 0 <= i < s.flags().len() implies (#[trigger] s.flags()[i]
                <==> s.centers().contains(i as usize)) by {
                if i == first {
                    assert(s.centers()[0] == first);
                }
            }
        }
        Ok(s)
    }

    /// Whether centers are still missing.
    pub fn unfinished(&self) -> (r: bool)
        ensures
            r == (self.centers().len() < self.wanted()),
    {
        self.chosen.len() < self.k
    }

    /// The center that was drawn last.
    pub fn last_center(&self) -> (r: usize)
        requires
            self.centers().len() >= 1,
        ensures
            r == self.centers().last(),
    {
        self.chosen[self.chosen.len() - 1]
    }

    /// The numerator, over 2^53, of the uniform value that scales the next
    /// draw's target. Only a draw with a positive total weight takes one.
    pub fn draw_target(&mut self) -> (r: u64)
        ensures
            final(self).counter() == next_state(old(self).counter()),
            r == unit_numerator(mix(final(self).counter())),
            final(self).centers() == old(self).centers(),
            final(self).flags() == old(self).flags(),
            final(self).wanted() == old(self).wanted(),
    {
        self.rng.next_unit_numerator()
    }

    fn record(&mut self, next: usize)
        requires
            old(self).wf(),
            old(self).centers().len() < old(self).wanted(),
            next < old(self).flags().len(),
            !old(self).flags()[next as int],
        ensures
            final(self).wf(),
            final(self).centers() == old(self).centers().push(next),
            final(self).flags() == old(self).flags().update(next as int, true),
            final(self).counter() == old(self).counter(),
            final(self).wanted() == old(self).wanted(),
    {
        let ghost c = self.centers();
        let ghost f = self.flags();
        let n: usize = self.is_chosen.len();
        self.chosen.push(next);
        self.is_chosen.set(next, true);
        proof {
            lemma_count_set_update(f, next as int);
            let c2 = self.centers();
            assert(f.len() == n);
            assert forall|s: int| 0 <= s < self.flags().len() implies (#[trigger] self.flags()[s]
                <==> c2.contains(s as usize)) by {
                assert(f[s] <==> c.contains(s as usize));
                if c.contains(s as usize) {
                    let i = choose|i: int| 0 <= i < c.len() && c[i] == s as usize;
                    assert(c2[i] == s as usize);
                }
                if s == next {
                    assert(c2[c.len() as int] == next);
                }
            }
            assert(!c.contains(next)) by {
                assert(f[next as int] <==> c.contains(next));
            }
            assert(c2.no_duplicates());
        }
    }

    fn find_unchosen(&self) -> (r: Option<usize>)
        ensures
            match r {
                Some(i) => i == first_unchosen(self.flags(), 0) && i < self.flags().len(),
                None => first_unchosen(self.flags(), 0) == self.flags().len(),
            },
    {
        let n: usize = self.is_chosen.len();
        let mut i: usize = 0;
        while i < n
            invariant
                i <= n,
                n == self.is_chosen.len(),
                first_unchosen(self.is_chosen@, 0) == first_unchosen(self.is_chosen@, i as nat),
            decreases n - i,
        {
            if !self.is_chosen[i] {
                return Some(i);
            }
            i = i + 1;
        }
        None
    }

    /// Draws the next center when no sample has weight left: the first that was
    /// not chosen.
    pub fn choose_unweighted(&mut self) -> (r: usize)
        requires
            old(self).wf(),
            old(self).centers().len() < old(self).wanted(),
        ensures
            r == first_unchosen(old(self).flags(), 0),
            !old(self).flags()[r as int],
            forall|j: int| 0 <= j < r ==> #[trigger] old(self).flags()[j],
            final(self).wf(),
            final(self).centers() == old(self).centers().push(r),
            final(self).counter() == old(self).counter(),
            final(self).wanted() == old(self).wanted(),
            final(self).flags().len() == old(self).flags().len(),
    {
        proof {
            lemma_count_set(self.flags());
            lemma_first_unchosen(self.flags(), 0);
        }
        let next: usize = match self.find_unchosen() {
            Some(i) => i,
            None => 0,
        };
        self.record(next);
        next
    }

    /// Draws the next center by weight. `weights` are floating-point bits;
    /// `hit` is the first sample whose cumulative weight reaches the target.
    pub fn choose_weighted(&mut self, weights: &Vec<u64>, hit: Option<usize>) -> (r: usize)
        requires
            old(self).wf(),
            old(self).centers().len() < old(self).wanted(),
            weights.len() == old(self).flags().len(),
            hit matches Some(i) ==> i < weights.len(),
        ensures
            r == settled(weights@, old(self).flags(), hit),
            !old(self).flags()[r as int],
            hit matches Some(i) && !le64(weights@[i as int], 0) && !old(self).flags()[i as int]
                ==> r == hit->0,
            hit is None && !le64(weights@[weights@.len() - 1], 0)
                && !old(self).flags()[weights@.len() - 1] ==> r == weights@.len() - 1,
            final(self).wf(),
            final(self).centers() == old(self).centers().push(r),
            final(self).counter() == old(self).counter(),
            final(self).wanted() == old(self).wanted(),
            final(self).flags().len() == old(self).flags().len(),
    {
        let n: usize = weights.len();
        proof {
            lemma_count_set(self.flags());
            lemma_first_unchosen(self.flags(), 0);
            lemma_last_positive(weights@, n as nat);
        }
        let first: usize = match hit {
            Some(i) => i,
            None => n - 1,
        };
        let w: u64 = weights[first];
        let weightless: bool = !bits_is_nan(w) && !bits_lt(0, w);
        assert(weightless == le64(weights@[first as int], 0));
        let mut pick: usize = first;
        if weightless {
            let mut m: usize = n;
            let mut found: bool = false;
            while m > 0 && !found
                invariant
                    m <= n,
                    n == weights.len(),
                    last_positive(weights@, n as nat) == last_positive(weights@, m as nat),
                    found ==> m > 0 && lt64(0, weights@[m - 1]),
                decreases m + (if found { 0int } else { 1int }),
            {
                if bits_lt(0, weights[m - 1]) {
                    found = true;
                } else {
                    m = m - 1;
                }
            }
            if found {
                pick = m - 1;
            }
        }
        let next: usize = if self.is_chosen[pick] {
            match self.find_unchosen() {
                Some(i) => i,
                None => pick,
            }
        } else {
            pick
        };
        self.record(next);
        next
    }

    /// The drawn centers.
    pub fn into_centers(self) -> (r: Vec<usize>)
        ensures
            r@ == self.centers(),
    {
        self.chosen
    }
}

proof fn lemma_none_set(s: Seq<bool>)
    requires
        forall|i: int| 0 <= i < s.len() ==> !#[trigger] s[i],
    ensures
        count_set(s) == 0,
    decreases s.len(),
{
    if s.len() > 0 {
        assert forall|i: int| 0 <= i < s.drop_last().len() implies !#[trigger] s.drop_last()[i] by {
            assert(s.drop_last()[i] == s[i]);
        }
        lemma_none_set(s.drop_last());
    }
}

/// Whatever the weights and draws were, a finished seeding holds exactly the
/// wanted number of distinct samples.
pub proof fn lemma_seeding_distinct(s: Seeding)
    requires
        s.wf(),
        s.centers().len() >= s.wanted(),
    ensures
        s.centers().len() == s.wanted(),
        s.centers().no_duplicates(),
        forall|i: int|
            0 <= i < s.centers().len() ==> #[trigger] s.centers()[i] < s.flags().len(),
{
}

/// Which of `n` samples are centers.
pub open spec fn flags_of(centers: Seq<usize>, n: nat) -> Seq<bool> {
    Seq::new(n, |s: int| centers.contains(s as usize))
}

/// What decides a draw after given centers: the weights of the samples, and the
/// sample that each target numerator hits; `None` where no sample has weight.
pub type Weighing = spec_fn(Seq<usize>) -> Option<(Seq<u64>, spec_fn(u64) -> Option<usize>)>;

/// The first `m` centers of a seeding, with the generator's counter after them.
pub open spec fn seeding_run(seed: u64, n: nat, weigh: Weighing, m: nat) -> (Seq<usize>, u64)
    decreases m,
{
    if m <= 1 {
        (seq![below(seed, n as u64).0 as usize], below(seed, n as u64).1)
    } else {
        let (centers, counter) = seeding_run(seed, n, weigh, (m - 1) as nat);
        match weigh(centers) {
            None => (
                centers.push(first_unchosen(flags_of(centers, n), 0) as usize),
                counter,
            ),
            Some((weights, hit)) => {
                let after = next_state(counter);
                let target = unit_numerator(mix(after));
                (
                    centers.push(settled(weights, flags_of(centers, n), hit(target)) as usize),
                    after,
                )
            },
        }
    }
}

/// A seeding for fewer centers is a prefix of one for more: the number of wanted
/// centers does not occur in the draws.
pub proof fn lemma_seeding_prefix(seed: u64, n: nat, weigh: Weighing, j: nat, k: nat)
    requires
        1 <= j <= k,
    ensures
        seeding_run(seed, n, weigh, k).0.len() == k,
        seeding_run(seed, n, weigh, k).0.take(j as int) == seeding_run(seed, n, weigh, j).0,
    decreases k,
{
    if k == j {
        if k > 1 {
            lemma_seeding_prefix(seed, n, weigh, 1, (k - 1) as nat);
        }
        let run = seeding_run(seed, n, weigh, k).0;
        assert(run.take(k as int) =~= run);
    } else {
        lemma_seeding_prefix(seed, n, weigh, j, (k - 1) as nat);
        let before = seeding_run(seed, n, weigh, (k - 1) as nat).0;
        let run = seeding_run(seed, n, weigh, k).0;
        assert(run.drop_last() =~= before);
        assert(run.take(j as int) =~= before.take(j as int));
    }
}

/// A [`Seeding`] draws [`seeding_run`]: one that holds its first `m` centers,
/// with the counter after them, chooses the next by the flags that it keeps,
/// with the target that it draws.
pub proof fn lemma_seeding_follows(s: Seeding, seed: u64, weigh: Weighing, m: nat)
    requires
        s.wf(),
        m >= 1,
        seeding_run(seed, s.flags().len(), weigh, m) == (s.centers(), s.counter()),
    ensures
        s.flags() == flags_of(s.centers(), s.flags().len()),
        weigh(s.centers()) is None ==> seeding_run(seed, s.flags().len(), weigh, m + 1) == (
            s.centers().push(first_unchosen(s.flags(), 0) as usize),
            s.counter(),
        ),
        weigh(s.centers()) matches Some((weights, hit)) ==> seeding_run(
            seed,
            s.flags().len(),
            weigh,
            m + 1,
        ) == (
            s.centers().push(
                settled(
                    weights,
                    s.flags(),
                    hit(unit_numerator(mix(next_state(s.counter())))),
                ) as usize,
            ),
            next_state(s.counter()),
        ),
{
    assert(s.flags() =~= flags_of(s.centers(), s.flags().len()));
}

/// Whether a weighing is one of `n` samples: it weighs all of them, and hits
/// none but them.
pub open spec fn weighs(weigh: Weighing, n: nat) -> bool {
    forall|centers: Seq<usize>|
        (#[trigger] weigh(centers)) matches Some((weights, hit)) ==> weights.len() == n && forall|
            u: u64,
        |
            (#[trigger] hit(u)) matches Some(i) ==> i < n
}

proof fn lemma_some_unchosen(centers: Seq<usize>, n: nat)
    requires
        centers.len() < n <= usize::MAX,
    ensures
        first_unchosen(flags_of(centers, n), 0) < n,
{
    let flags = flags_of(centers, n);
    lemma_first_unchosen(flags, 0);
    if first_unchosen(flags, 0) >= n {
        let all = vstd::set_lib::set_int_range(0, n as int);
        let held = centers.map_values(|c: usize| c as int);
        vstd::set_lib::lemma_int_range(0, n as int);
        held.lemma_cardinality_of_set();
        assert(all.subset_of(held.to_set())) by {
            assert forall|s: int| all.contains(s) implies held.to_set().contains(s) by {
                assert(flags[s]);
                let i = choose|i: int| 0 <= i < centers.len() && centers[i] == s as usize;
                assert(held[i] == s);
            }
        }
        vstd::set_lib::lemma_len_subset(all, held.to_set());
    }
}

/// A seeding draws distinct samples, whatever the weights and the targets are:
/// the first `k` centers of [`seeding_run`] are `k` different ones of the `n`
/// samples.
pub proof fn lemma_seeding_run_distinct(seed: u64, n: nat, weigh: Weighing, k: nat)
    requires
        1 <= k <= n <= usize::MAX,
        weighs(weigh, n),
    ensures
        seeding_run(seed, n, weigh, k).0.len() == k,
        seeding_run(seed, n, weigh, k).0.no_duplicates(),
        forall|i: int| 0 <= i < k ==> #[trigger] seeding_run(seed, n, weigh, k).0[i] < n,
    decreases k,
{
    crate::rng::lemma_below_in_range(seed, n as u64);
    if k > 1 {
        lemma_seeding_run_distinct(seed, n, weigh, (k - 1) as nat);
        let (centers, counter) = seeding_run(seed, n, weigh, (k - 1) as nat);
        let flags = flags_of(centers, n);
        lemma_some_unchosen(centers, n);
        lemma_first_unchosen(flags, 0);
        let run = seeding_run(seed, n, weigh, k).0;
        let next = run[k - 1];
        assert(run == centers.push(next));
        assert(next < n && !flags[next as int]) by {
            match weigh(centers) {
                None => {},
                Some((weights, hit)) => {
                    lemma_last_positive(weights, n);
                    let target = unit_numerator(mix(next_state(counter)));
                    assert(hit(target) matches Some(i) ==> i < n);
                },
            }
        }
        assert(!centers.contains(next));
    }
}

// ---------------------------------------------------------------------------
// What the checks, plans and draws amount to
// ---------------------------------------------------------------------------

/// A clustering is accepted exactly where the samples fill their matrix, there
/// is a cluster and a sample for each, and every size fits 32 bits. A refusal
/// names the matrix before the cluster count.
pub proof fn lemma_geometry_accepts(x_len: usize, n: usize, d: usize, k: usize)
    ensures
        geometry_fault(x_len, n, d, k) is None <==> {
            &&& x_len == n * d && 1 <= k <= n
            &&& n <= u32::MAX && d <= u32::MAX
        },
        x_len != n * d ==> geometry_fault(x_len, n, d, k) == Some(
            PrimError::ShapeMismatch { operand: "x", rows: n, cols: d, len: x_len },
        ),
        x_len == n * d && (k == 0 || k > n) ==> geometry_fault(x_len, n, d, k) == Some(
            PrimError::ShapeMismatch { operand: "k", rows: 1, cols: k, len: n },
        ),
{
}

/// Labels are accepted exactly where there is one for each sample and each names
/// a cluster; the first that does not is reported with its place and value.
pub proof fn lemma_labels_accepted(
    labels: Seq<u32>,
    n: usize,
    k: usize,
    r: Result<(), PrimError>,
    i: int,
)
    requires
        labels_verdict(labels, n, k, r),
        labels.len() <= usize::MAX,
    ensures
        r is Ok <==> labels.len() == n && forall|j: int|
            0 <= j < labels.len() ==> #[trigger] labels[j] < k,
        labels.len() == n && 0 <= i < n && labels[i] >= k && (forall|j: int|
            0 <= j < i ==> #[trigger] labels[j] < k) ==> r == Err::<(), PrimError>(
            PrimError::ShapeMismatch {
                operand: "labels",
                rows: i as usize,
                cols: labels[i] as usize,
                len: k,
            },
        ),
{
    if labels.len() == n {
        match r {
            Ok(()) => {
                assert forall|j: int| 0 <= j < labels.len() implies #[trigger] labels[j] < k by {
                    assert(label_ok(labels, k, j));
                }
            },
            Err(e) => {
                let p = choose|p: int| #[trigger]
                    first_bad_label(labels, k, p) && e == shape_error(
                        "labels",
                        p as usize,
                        labels[p] as usize,
                        k,
                    );
                assert(!label_ok(labels, k, p));
                if p < i && 0 <= i < n {
                    assert(!(labels[p] < k));
                }
                if 0 <= i < p {
                    assert(label_ok(labels, k, i));
                }
            },
        }
    }
}

/// The operands of an inertia are accepted exactly where the samples fill their
/// matrix and the centers make up one row or more of whole width.
pub proof fn lemma_inertia_accepts(x_len: usize, centers_len: usize, n: usize, d: usize)
    ensures
        inertia_fault(x_len, centers_len, n, d) is None <==> x_len == n * d && d >= 1
            && centers_len >= 1 && centers_len as int % d as int == 0,
{
    if d >= 1 {
        vstd::arithmetic::div_mod::lemma_fundamental_div_mod(centers_len as int, d as int);
        let q = centers_len as int / d as int;
        if centers_len as int % d as int == 0 {
            assert(centers_len == 0 <==> q == 0) by (nonlinear_arith)
                requires
                    centers_len == d * q,
                    d >= 1,
            ;
        }
    }
}

/// A pass over rows is accepted exactly where they fill their matrix and the
/// sizes fit 32 bits; one that reads labels and writes distances needs one of
/// each for every row.
pub proof fn lemma_row_passes_accept(
    x_len: usize,
    labels_len: usize,
    dist_len: usize,
    n: usize,
    d: usize,
)
    ensures
        rows_fault(x_len, n, d) is None <==> x_len == n * d && n <= u32::MAX && d <= u32::MAX,
        inertia_rows_fault(x_len, labels_len, dist_len, n, d) is None <==> x_len == n * d
            && labels_len == n && dist_len == n && n <= u32::MAX && d <= u32::MAX,
{
}

/// Blocks hold about 256 rows as long as the cap allows: there are no more rows
/// in a block than that, unless all blocks that the cap allows are needed.
pub proof fn lemma_blocks_hold_256(n: int, cap: int)
    requires
        n >= 1,
        cap >= 1,
    ensures
        n <= 256 * cap ==> rows_per_block(n, cap) <= 256,
        n > 256 * cap ==> (rows_per_block(n, cap) - 1) * cap < n,
        n <= 256 ==> block_count(n, cap) == 1,
{
    let c = ceil_div_int(n, 256);
    crate::arith::lemma_ceil_div_brackets(n, 256);
    let held = clamp_int(c, 1, cap);
    crate::arith::lemma_ceil_div_brackets(n, held);
    if n <= 256 * cap {
        crate::arith::lemma_ceil_div_least(n, 256, cap);
        assert(256 * held >= n);
        crate::arith::lemma_ceil_div_least(n, held, 256);
    } else {
        assert(held == cap);
    }
    if n <= 256 {
        crate::arith::lemma_ceil_div_least(n, 256, 1);
        assert(held == 1);
        assert(rows_per_block(n, cap) * 1 >= n);
        assert(1 * rows_per_block(n, cap) >= n);
        crate::arith::lemma_ceil_div_brackets(n, rows_per_block(n, cap));
        crate::arith::lemma_ceil_div_least(n, rows_per_block(n, cap), 1);
    }
}

/// The most blocks of a pass are as many as its partial results allow, and 64
/// where they allow fewer.
pub proof fn lemma_block_caps(width: int)
    requires
        width >= 1,
    ensures
        sums_block_cap(width) >= 64,
        sums_block_cap(width) > 64 ==> sums_block_cap(width) * width <= 8_388_608,
        (sums_block_cap(width) + 1) * width > 8_388_608,
        moment_block_cap(width) >= 64,
        moment_block_cap(width) > 64 ==> moment_block_cap(width) * width <= 4_194_304,
        (moment_block_cap(width) + 1) * width > 4_194_304,
{
    let a = 8_388_608int / width;
    let b = 4_194_304int / width;
    vstd::arithmetic::div_mod::lemma_fundamental_div_mod(8_388_608, width);
    vstd::arithmetic::div_mod::lemma_fundamental_div_mod(4_194_304, width);
    vstd::arithmetic::div_mod::lemma_mod_bound(8_388_608, width);
    vstd::arithmetic::div_mod::lemma_mod_bound(4_194_304, width);
    let (ca, cb) = (sums_block_cap(width), moment_block_cap(width));
    assert(a * width <= 8_388_608 && (ca + 1) * width > 8_388_608 && b * width <= 4_194_304 && (cb
        + 1) * width > 4_194_304) by (nonlinear_arith)
        requires
            ca >= a,
            cb >= b,
            8_388_608 == width * a + 8_388_608int % width,
            4_194_304 == width * b + 4_194_304int % width,
            0 <= 8_388_608int % width < width,
            0 <= 4_194_304int % width < width,
    ;
}

/// One position counts once where it differs and not where it agrees; longer
/// ranges add up ([`lemma_differing_adds`]).
pub proof fn lemma_differing_one(a: Seq<u32>, b: Seq<u32>, i: int)
    ensures
        differing(a, b, i, i) == 0,
        a[i] != b[i] ==> differing(a, b, i, i + 1) == 1,
        a[i] == b[i] ==> differing(a, b, i, i + 1) == 0,
{
    reveal_with_fuel(differing, 2);
}

/// Centroid sums go through a matrix product only on request, never through
/// shared memory on the cpu or where the sums do not fit it or the gather is
/// asked for, and through it everywhere else.
pub proof fn lemma_sums_path(kd: usize, cpu_backend: bool, gemm_flag: bool, gather_flag: bool)
    ensures
        sums_path(kd, cpu_backend, gemm_flag, gather_flag) == SumsPath::Gemm <==> gemm_flag,
        sums_path(kd, cpu_backend, gemm_flag, gather_flag) == SumsPath::Shared ==> !cpu_backend
            && !gather_flag && kd <= 4096,
        sums_path(kd, cpu_backend, gemm_flag, gather_flag) == SumsPath::Gather ==> cpu_backend
            || gather_flag || kd > 4096,
{
}

/// Centroid sums are accepted exactly where the clustering is and there is one
/// label for each sample; the one-hot matrix of a product has to fit 32 bits.
pub proof fn lemma_sums_accepted(
    x_len: usize,
    labels_len: usize,
    n: usize,
    d: usize,
    k: usize,
    gemm_flag: bool,
)
    requires
        n * k <= usize::MAX,
    ensures
        sums_fault(x_len, labels_len, n, d, k, gemm_flag) is None <==> {
            &&& x_len == n * d && 1 <= k <= n && n <= u32::MAX && d <= u32::MAX
            &&& labels_len == n
            &&& gemm_flag ==> n * k <= u32::MAX
        },
{
}

/// Every stage of a centroid-sum pass has a unit for what it writes: a product
/// for each entry of the one-hot matrix, a gather for each partial sum, shared
/// sums a cube for each block; the fold has one for each result.
pub proof fn lemma_sums_stages_cover(p: SumsPlan, path: SumsPath, n: int, d: int, k: int)
    requires
        n >= 1,
        d >= 0,
        k >= 1,
        sums_plan_matches(p, path, n, d, k),
        n * k <= u32::MAX,
        k * d <= u32::MAX,
        p.blocks * k <= u32::MAX,
        p.blocks * (k * d) <= u32::MAX,
    ensures
        p.path == path,
        p.blocks * p.rows_per_block >= n && (p.blocks - 1) * p.rows_per_block < n,
        p.partial_counts == p.blocks * k,
        path == SumsPath::Gemm ==> p.staged == n * k && p.stage.cubes() * p.stage.block.0 >= n * k
            && p.fold.cubes() * p.fold.block.0 >= k,
        path == SumsPath::Gather ==> p.staged == p.blocks * (k * d) && p.stage.cubes()
            * p.stage.block.0 >= p.staged && p.fold.cubes() * p.fold.block.0 >= k * d,
        path == SumsPath::Shared ==> p.staged == p.blocks * (k * d) && p.stage.cubes() >= p.blocks
            && p.fold.cubes() * p.fold.block.0 >= k * d,
        p.count is None <==> path == SumsPath::Gather,
        p.count matches Some(l) ==> l.cubes() * l.block.0 >= p.blocks * k,
{
    let cap = if path == SumsPath::Gemm {
        256
    } else {
        sums_block_cap(k * d)
    };
    lemma_blocks_tile(n, cap);
    assert(p.blocks <= p.blocks * k) by (nonlinear_arith)
        requires
            k >= 1,
            p.blocks >= 0,
    ;
    assert(n * k >= 0 && k * d >= 0 && p.blocks * (k * d) >= 0 && k <= n * k) by (nonlinear_arith)
        requires
            n >= 1,
            k >= 1,
            d >= 0,
            p.blocks >= 0,
    ;
    crate::launch::lemma_launch_covers(n * k, PERF_TUNED_BLOCK);
    crate::launch::lemma_launch_covers(k * d, PERF_TUNED_BLOCK);
    crate::launch::lemma_launch_covers(k, PERF_TUNED_BLOCK);
    crate::launch::lemma_launch_covers(p.blocks * k, PERF_TUNED_BLOCK);
    crate::launch::lemma_launch_covers(p.blocks * (k * d), PERF_TUNED_BLOCK);
    crate::launch::lemma_cubes_cover(p.blocks as int, 64);
}

/// An assignment is accepted exactly where the clustering is, the centers fill
/// their matrix, there is a label, a distance and, if any, a norm for every
/// sample, and the distances to all centers fit 32 bits.
pub proof fn lemma_assignment_accepted(
    x_len: usize,
    centers_len: usize,
    labels_len: usize,
    dist_len: usize,
    xnorm_len: Option<usize>,
    n: usize,
    d: usize,
    k: usize,
)
    requires
        n * k <= usize::MAX,
    ensures
        assign_fault(x_len, centers_len, labels_len, dist_len, xnorm_len, n, d, k) is None <==> {
            &&& x_len == n * d && 1 <= k <= n && n <= u32::MAX && d <= u32::MAX
            &&& centers_len == k * d
            &&& labels_len == n && dist_len == n
            &&& xnorm_len matches Some(l) ==> l == n
            &&& n * k <= u32::MAX
        },
{
}

/// The distances are staged through a matrix product exactly where the norms are
/// there and it is asked for, and otherwise one center at a time exactly where
/// that is asked for.
pub proof fn lemma_assignment_stage(norms: bool, gemm: bool, per_center_flag: bool)
    ensures
        assign_stage(norms, gemm, per_center_flag) == AssignStage::Gemm <==> norms && gemm,
        assign_stage(norms, gemm, per_center_flag) == AssignStage::PerCenter <==> !(norms && gemm)
            && per_center_flag,
{
}

/// Every staging has units for all distances: one for each sample and center,
/// one for each sample and four centers, or a tile for each corner.
pub proof fn lemma_assignment_stages_cover(n: int, k: int)
    requires
        1 <= k <= n,
        n * k <= u32::MAX,
    ensures
        ({
            let l = stage_dims(AssignStage::PerCenter, n, k);
            l.cubes() * l.block.0 >= n * k
        }),
        ({
            let l = stage_dims(AssignStage::PerFourCenters, n, k);
            4 * (l.cubes() * l.block.0) >= n * k
        }),
        ({
            let l = stage_dims(AssignStage::Gemm, n, k);
            l.grid.0 * l.block.0 >= n && l.grid.1 * l.block.1 >= k
        }),
{
    let q = ceil_div_int(k, 4);
    crate::arith::lemma_ceil_div_brackets(k, 4);
    assert(n * k >= 0 && 0 <= n * q <= n * k && 4 * (n * q) >= n * k && n <= n * k && k <= n * k)
        by (nonlinear_arith)
        requires
            n >= 1,
            1 <= k,
            q * 4 >= k,
            0 <= q <= k,
    ;
    crate::launch::lemma_launch_covers(n * k, PERF_TUNED_BLOCK);
    crate::launch::lemma_launch_covers(n * q, PERF_TUNED_BLOCK);
    crate::launch::lemma_tiles_cover(n, k);
}

proof fn lemma_walk_shrinks_donors(
    order: Seq<usize>,
    labels: Seq<u32>,
    counts: Seq<i64>,
    empties: Seq<usize>,
    cursor: nat,
    c: int,
)
    requires
        cursor <= order.len(),
        lists_empty(empties, counts),
        counts.len() <= usize::MAX,
        forall|i: int| 0 <= i < order.len() ==> (#[trigger] order[i]) < labels.len(),
        forall|i: int| 0 <= i < labels.len() ==> (#[trigger] labels[i]) < counts.len(),
        0 <= c < counts.len(),
        relocation_walk(order, labels, counts, empties, cursor).1[c] > 1,
    ensures
        counts[c] >= relocation_walk(order, labels, counts, empties, cursor).1[c],
    decreases empties.len(),
{
    if empties.len() > 0 {
        lemma_next_movable(order, labels, counts, cursor);
        let at = next_movable(order, labels, counts, cursor);
        if at < order.len() {
            let donor = labels[order[at as int] as int] as usize;
            lemma_move(counts, empties, donor);
            let next = counts_after(counts, empties[0], donor);
            lemma_walk_shrinks_donors(order, labels, next, empties.drop_first(), at + 1, c);
            assert(next[c] > 1);
        }
    }
}

proof fn lemma_passed_over(
    order: Seq<usize>,
    labels: Seq<u32>,
    counts: Seq<i64>,
    cursor: nat,
    q: int,
)
    requires
        cursor <= q < order.len(),
        counts[labels[order[q] as int] as int] > 1,
    ensures
        next_movable(order, labels, counts, cursor) <= q,
    decreases order.len() - cursor,
{
    if cursor < q && !(counts[labels[order[cursor as int] as int] as int] > 1) {
        lemma_passed_over(order, labels, counts, cursor + 1, q);
    }
}

proof fn lemma_walk_takes_in_order(
    order: Seq<usize>,
    labels: Seq<u32>,
    counts: Seq<i64>,
    empties: Seq<usize>,
    cursor: nat,
    q: int,
    i: int,
)
    requires
        cursor <= q < order.len(),
        order.no_duplicates(),
        lists_empty(empties, counts),
        counts.len() <= usize::MAX,
        forall|j: int| 0 <= j < order.len() ==> (#[trigger] order[j]) < labels.len(),
        forall|j: int| 0 <= j < labels.len() ==> (#[trigger] labels[j]) < counts.len(),
        ({
            let w = relocation_walk(order, labels, counts, empties, cursor);
            &&& w.1[labels[order[q] as int] as int] > 1
            &&& 0 <= i < w.0.len()
            &&& forall|j: int| 0 <= j < w.0.len() ==> (#[trigger] w.0[j]).sample != order[q]
        }),
    ensures
        exists|p: int|
            0 <= p < q && #[trigger] order[p] == relocation_walk(
                order,
                labels,
                counts,
                empties,
                cursor,
            ).0[i].sample,
    decreases empties.len(),
{
    let w = relocation_walk(order, labels, counts, empties, cursor);
    let c = labels[order[q] as int] as int;
    lemma_walk_shrinks_donors(order, labels, counts, empties, cursor, c);
    lemma_passed_over(order, labels, counts, cursor, q);
    let at = next_movable(order, labels, counts, cursor);
    let donor = labels[order[at as int] as int] as usize;
    let next = counts_after(counts, empties[0], donor);
    let rest = relocation_walk(order, labels, next, empties.drop_first(), at + 1);
    lemma_next_movable(order, labels, counts, cursor);
    assert(w.0[0].sample == order[at as int]);
    assert(at != q);
    if i == 0 {
        assert(order[at as int] == w.0[i].sample);
    } else {
        lemma_move(counts, empties, donor);
        assert forall|j: int| 0 <= j < rest.0.len() implies (#[trigger] rest.0[j]).sample
            != order[q] by {
            assert(w.0[j + 1] == rest.0[j]);
        }
        assert(w.0[i] == rest.0[i - 1]);
        lemma_walk_takes_in_order(
            order,
            labels,
            next,
            empties.drop_first(),
            at + 1,
            q,
            i - 1,
        );
    }
}

/// The farthest samples are moved: a sample that stays although its cluster
/// could still spare it is no farther from its center than any that was moved,
/// and of equally far ones the lower index was moved.
pub proof fn lemma_relocation_takes_the_farthest(
    dist: Seq<u64>,
    order: Seq<usize>,
    labels: Seq<u32>,
    counts: Seq<i64>,
    s: usize,
    i: int,
)
    requires
        is_ranking(order, dist),
        dist.len() == labels.len(),
        dist.len() <= usize::MAX,
        counts.len() <= usize::MAX,
        forall|j: int| 0 <= j < labels.len() ==> (#[trigger] labels[j]) < counts.len(),
        s < labels.len(),
        ({
            let w = relocation_walk(
                order,
                labels,
                counts,
                empty_clusters(counts, counts.len()),
                0,
            );
            &&& w.1[labels[s as int] as int] > 1
            &&& 0 <= i < w.0.len()
            &&& forall|j: int| 0 <= j < w.0.len() ==> (#[trigger] w.0[j]).sample != s
        }),
    ensures
        ({
            let moved = relocation_walk(
                order,
                labels,
                counts,
                empty_clusters(counts, counts.len()),
                0,
            ).0[i].sample;
            let (far, near) = (
                crate::float_order::order_value64(dist[moved as int]),
                crate::float_order::order_value64(dist[s as int]),
            );
            far > near || far == near && moved < s
        }),
{
    crate::ranking::lemma_ranking_is_permutation(order, dist);
    lemma_empty_clusters_listed(counts, counts.len());
    assert(order.contains(s));
    let q = choose|q: int| 0 <= q < order.len() && order[q] == s;
    let empties = empty_clusters(counts, counts.len());
    lemma_walk_takes_in_order(order, labels, counts, empties, 0, q, i);
    let moved = relocation_walk(order, labels, counts, empties, 0).0[i].sample;
    let p = choose|p: int| 0 <= p < q && #[trigger] order[p] == moved;
    crate::ranking::lemma_ranking_farthest_first(order, dist, q, p);
    assert(order[p] != order[q]);
}

/// A weighted draw takes what it hit: a hit sample with weight that was not
/// chosen before is the next center.
pub proof fn lemma_draw_takes_its_hit(weights: Seq<u64>, chosen: Seq<bool>, i: usize)
    requires
        i < weights.len(),
        lt64(0, weights[i as int]),
        !chosen[i as int],
    ensures
        settled(weights, chosen, Some(i)) == i,
{
}

/// A draw that hit nothing counts as one that hit the last sample.
pub proof fn lemma_draw_without_a_hit(weights: Seq<u64>, chosen: Seq<bool>)
    requires
        1 <= weights.len() <= usize::MAX,
    ensures
        settled(weights, chosen, None) == settled(
            weights,
            chosen,
            Some((weights.len() - 1) as usize),
        ),
{
}

/// A sample without weight is not drawn where another has some: the hit gives
/// way to the last sample with weight, if that was not chosen before.
pub proof fn lemma_draw_needs_weight(weights: Seq<u64>, chosen: Seq<bool>, i: usize, p: int)
    requires
        i < weights.len(),
        le64(weights[i as int], 0),
        0 <= p < weights.len(),
        lt64(0, weights[p]),
        forall|j: int| p < j < weights.len() ==> !lt64(0, #[trigger] weights[j]),
        !chosen[p],
    ensures
        settled(weights, chosen, Some(i)) == p,
{
    lemma_last_weighted(weights, weights.len(), p);
}

proof fn lemma_last_weighted(weights: Seq<u64>, m: nat, p: int)
    requires
        0 <= p < m <= weights.len(),
        lt64(0, weights[p]),
        forall|j: int| p < j < m ==> !lt64(0, #[trigger] weights[j]),
    ensures
        last_positive(weights, m) == p,
    decreases m,
{
    if p < m - 1 {
        lemma_last_weighted(weights, (m - 1) as nat, p);
    }
}

/// Where no sample has weight a hit stands, unless it was chosen before.
pub proof fn lemma_weightless_draw_stands(weights: Seq<u64>, chosen: Seq<bool>, i: usize)
    requires
        i < weights.len(),
        forall|j: int| 0 <= j < weights.len() ==> !lt64(0, #[trigger] weights[j]),
        !chosen[i as int],
    ensures
        settled(weights, chosen, Some(i)) == i,
{
    lemma_last_positive(weights, weights.len());
}

/// A draw never repeats a sample while one is left, and a repeated one gives way
/// to the first that is left: where `f` is that, the result is `f` or was not
/// chosen before.
pub proof fn lemma_draw_repeats_none(
    weights: Seq<u64>,
    chosen: Seq<bool>,
    hit: Option<usize>,
    f: int,
)
    requires
        weights.len() == chosen.len(),
        1 <= weights.len(),
        hit matches Some(i) ==> i < weights.len(),
        0 <= f < chosen.len(),
        !chosen[f],
        forall|j: int| 0 <= j < f ==> #[trigger] chosen[j],
    ensures
        0 <= settled(weights, chosen, hit) < weights.len(),
        !chosen[settled(weights, chosen, hit)],
        hit matches Some(i) && !le64(weights[i as int], 0) && chosen[i as int] ==> settled(
            weights,
            chosen,
            hit,
        ) == f,
        first_unchosen(chosen, 0) == f,
{
    lemma_last_positive(weights, weights.len());
    lemma_first_unchosen(chosen, 0);
    let u = first_unchosen(chosen, 0);
    if u < f {
        assert(chosen[u as int]);
    }
    if u > f {
        assert(chosen[f]);
    }
}

/// A refused clustering names what is wrong first: the matrix, the cluster count,
/// and then a size beyond 32 bits.
pub proof fn lemma_geometry_refusals(
    x_len: usize,
    n: usize,
    d: usize,
    k: usize,
)
    ensures
        x_len != n * d ==> geometry_fault(x_len, n, d, k) == Some(
            PrimError::ShapeMismatch { operand: "x", rows: n, cols: d, len: x_len },
        ),
        x_len == n * d && (k == 0 || k > n) ==> geometry_fault(x_len, n, d, k) == Some(
            PrimError::ShapeMismatch { operand: "k", rows: 1, cols: k, len: n },
        ),
        x_len == n * d && !(k == 0 || k > n) && n > u32::MAX
            ==> geometry_fault(x_len, n, d, k) == Some(
            PrimError::ShapeMismatch { operand: "n", rows: n, cols: 0, len: 0xFFFF_FFFF },
        ),
        x_len == n * d && !(k == 0 || k > n) && n <= u32::MAX && d > u32::MAX
            ==> geometry_fault(x_len, n, d, k) == Some(
            PrimError::ShapeMismatch { operand: "d", rows: d, cols: 0, len: 0xFFFF_FFFF },
        ),
{
}

/// A refused inertia names the samples before the centers.
pub proof fn lemma_inertia_refusals(
    x_len: usize,
    centers_len: usize,
    n: usize,
    d: usize,
)
    ensures
        x_len != n * d ==> inertia_fault(x_len, centers_len, n, d) == Some(
            PrimError::ShapeMismatch { operand: "x", rows: n, cols: d, len: x_len },
        ),
        x_len == n * d && (d == 0 || centers_len == 0 || centers_len % d != 0)
            ==> inertia_fault(x_len, centers_len, n, d) == Some(
            PrimError::ShapeMismatch { operand: "centers", rows: 0, cols: d, len: centers_len },
        ),
{
}

/// A refused inertia pass names the samples before the shorter of labels and
/// distances.
pub proof fn lemma_inertia_rows_refusals(
    x_len: usize,
    labels_len: usize,
    dist_len: usize,
    n: usize,
    d: usize,
)
    ensures
        x_len != n * d ==> inertia_rows_fault(x_len, labels_len, dist_len, n, d) == Some(
            PrimError::ShapeMismatch { operand: "x", rows: n, cols: d, len: x_len },
        ),
        x_len == n * d && ((labels_len != n || dist_len != n) && labels_len <= dist_len)
            ==> inertia_rows_fault(x_len, labels_len, dist_len, n, d) == Some(
            PrimError::ShapeMismatch { operand: "labels", rows: n, cols: 1, len: labels_len },
        ),
        x_len == n * d && !((labels_len != n || dist_len != n) && labels_len <= dist_len)
            && (labels_len != n || dist_len != n)
            ==> inertia_rows_fault(x_len, labels_len, dist_len, n, d) == Some(
            PrimError::ShapeMismatch { operand: "labels", rows: n, cols: 1, len: dist_len },
        ),
        x_len == n * d && !((labels_len != n || dist_len != n) && labels_len <= dist_len)
            && !(labels_len != n || dist_len != n) && n > u32::MAX
            ==> inertia_rows_fault(x_len, labels_len, dist_len, n, d) == Some(
            PrimError::ShapeMismatch { operand: "n", rows: n, cols: 0, len: 0xFFFF_FFFF },
        ),
        x_len == n * d && !((labels_len != n || dist_len != n) && labels_len <= dist_len)
            && !(labels_len != n || dist_len != n) && n <= u32::MAX && d > u32::MAX
            ==> inertia_rows_fault(x_len, labels_len, dist_len, n, d) == Some(
            PrimError::ShapeMismatch { operand: "d", rows: d, cols: 0, len: 0xFFFF_FFFF },
        ),
{
}

/// A refused row pass names the samples, or a size beyond 32 bits.
pub proof fn lemma_rows_refusals(
    x_len: usize,
    n: usize,
    d: usize,
)
    ensures
        x_len != n * d ==> rows_fault(x_len, n, d) == Some(
            PrimError::ShapeMismatch { operand: "x", rows: n, cols: d, len: x_len },
        ),
        x_len == n * d && n > u32::MAX ==> rows_fault(x_len, n, d) == Some(
            PrimError::ShapeMismatch { operand: "n", rows: n, cols: 0, len: 0xFFFF_FFFF },
        ),
        x_len == n * d && n <= u32::MAX && d > u32::MAX ==> rows_fault(x_len, n, d) == Some(
            PrimError::ShapeMismatch { operand: "d", rows: d, cols: 0, len: 0xFFFF_FFFF },
        ),
{
}

/// Where the clustering is fine, refused centroid sums name the labels before the
/// one-hot size.
pub proof fn lemma_sums_refusals(
    x_len: usize,
    labels_len: usize,
    n: usize,
    d: usize,
    k: usize,
    gemm_flag: bool,
)
    requires
        geometry_fault(x_len, n, d, k) is None,
        n * k <= usize::MAX,
    ensures
        labels_len != n ==> sums_fault(x_len, labels_len, n, d, k, gemm_flag) == Some(
            PrimError::ShapeMismatch { operand: "labels", rows: n, cols: 1, len: labels_len },
        ),
        labels_len == n && (gemm_flag && n * k > u32::MAX)
            ==> sums_fault(x_len, labels_len, n, d, k, gemm_flag) == Some(
            PrimError::ShapeMismatch { operand: "n*k", rows: (n * k) as usize, cols: 0, len: 0xFFFF_FFFF },
        ),
{
}

/// Where the clustering is fine, a refused assignment names the centers, the shorter
/// of labels and distances, the norms, and then the number of distances.
pub proof fn lemma_assignment_refusals(
    x_len: usize,
    centers_len: usize,
    labels_len: usize,
    dist_len: usize,
    xnorm_len: Option<usize>,
    n: usize,
    d: usize,
    k: usize,
)
    requires
        geometry_fault(x_len, n, d, k) is None,
        n * k <= usize::MAX,
    ensures
        centers_len != k * d
            ==> assign_fault(x_len, centers_len, labels_len, dist_len, xnorm_len, n, d, k) == Some(
            PrimError::ShapeMismatch { operand: "centers", rows: k, cols: d, len: centers_len },
        ),
        centers_len == k * d && ((labels_len != n || dist_len != n) && labels_len <= dist_len)
            ==> assign_fault(x_len, centers_len, labels_len, dist_len, xnorm_len, n, d, k) == Some(
            PrimError::ShapeMismatch { operand: "labels", rows: n, cols: 1, len: labels_len },
        ),
        centers_len == k * d && !((labels_len != n || dist_len != n) && labels_len <= dist_len)
            && (labels_len != n || dist_len != n)
            ==> assign_fault(x_len, centers_len, labels_len, dist_len, xnorm_len, n, d, k) == Some(
            PrimError::ShapeMismatch { operand: "labels", rows: n, cols: 1, len: dist_len },
        ),
        centers_len == k * d && !((labels_len != n || dist_len != n) && labels_len <= dist_len)
            && !(labels_len != n || dist_len != n) && (xnorm_len is Some && xnorm_len->0 != n)
            ==> assign_fault(x_len, centers_len, labels_len, dist_len, xnorm_len, n, d, k) == Some(
            PrimError::ShapeMismatch { operand: "xnorm", rows: n, cols: 1, len: xnorm_len->0 },
        ),
        centers_len == k * d && !((labels_len != n || dist_len != n) && labels_len <= dist_len)
            && !(labels_len != n || dist_len != n) && !(xnorm_len is Some && xnorm_len->0 != n)
            && n * k > u32::MAX
            ==> assign_fault(x_len, centers_len, labels_len, dist_len, xnorm_len, n, d, k) == Some(
            PrimError::ShapeMismatch { operand: "n*k", rows: (n * k) as usize, cols: 0, len: 0xFFFF_FFFF },
        ),
{
}

/// A blocked pass over a vector has no more than 256 blocks, which hold every
/// entry once, and a unit for each block.
pub proof fn lemma_vector_pass(p: BlockPlan, n: usize)
    requires
        1 <= n <= u32::MAX,
        vector_plan_matches(p, n),
    ensures
        1 <= p.blocks <= 256,
        p.blocks * p.rows_per_block >= n,
        (p.blocks - 1) * p.rows_per_block < n,
        n <= 65_536 ==> p.rows_per_block <= 256,
        p.launch.cubes() * p.launch.block.0 >= p.blocks,
{
    lemma_blocks_tile(n as int, 256);
    lemma_blocks_hold_256(n as int, 256);
    crate::launch::lemma_launch_covers(p.blocks as int, PERF_TUNED_BLOCK);
}

/// A row index is bad exactly where it names no row; the first bad one has only
/// good ones before it.
pub proof fn lemma_first_bad_row(idx: Seq<u32>, n: usize, i: int)
    ensures
        first_bad_row(idx, n, i) <==> 0 <= i < idx.len() && idx[i] >= n && forall|j: int|
            0 <= j < i ==> #[trigger] idx[j] < n,
{
    crate::seqs::lemma_labels(idx, n, i);
}

} // verus!
