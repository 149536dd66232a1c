//! Nearest-neighbour search on the device: which kernel serves a search, how it
//! is launched, and how its training rows are split into strips.

use crate::arith::{
    ceil_div, ceil_div_int, ceil_div_u32, clamp_int, clamp_usize, max_u32, max_usize, min_usize,
    product_is,
};
use crate::backend::Backend;
use crate::error::{
    first_fault, guard_u32, shape_error, shape_mismatch, u32_fault, verdict, PrimError,
};
use crate::flag::{
    flag_off, flag_on, flag_text, is_flag_off, is_flag_on, parse_count, parsed_count,
};
use crate::knn_host::{is_k_nearest, not_after, vacant, Candidate};
use crate::float_order::is_nan64;
use crate::launch::{launch_dims_1d, line_dims, LaunchDims};
use vstd::prelude::*;

verus! {

// ---------------------------------------------------------------------------
// Neighbour means and copies
// ---------------------------------------------------------------------------

/// Why a neighbour-target mean is refused.
pub open spec fn regress_fault(
    y_len: usize,
    idx_len: usize,
    n_query: usize,
    k: usize,
    n_train: usize,
) -> Option<PrimError> {
    if k < 1 || n_query < 1 {
        Some(shape_error("k", n_query, k, idx_len))
    } else if n_query * k != idx_len {
        Some(shape_error("idx", n_query, k, idx_len))
    } else if y_len != n_train || n_train < 1 {
        Some(shape_error("y_train", n_train, 1, y_len))
    } else {
        first_fault(
            u32_fault("n_query", n_query),
            first_fault(u32_fault("k", k), u32_fault("n_train", n_train)),
        )
    }
}

/// Plans the mean of the `k` neighbour targets of each query row: one unit per
/// row, in cubes of `width`.
pub fn knn_regress_mean_gather_plan(
    y_len: usize,
    idx_len: usize,
    n_query: usize,
    k: usize,
    n_train: usize,
    width: u32,
) -> (r: Result<LaunchDims, PrimError>)
    requires
        width > 0,
    ensures
        match regress_fault(y_len, idx_len, n_query, k, n_train) {
            Some(e) => r == Err::<LaunchDims, PrimError>(e),
            None => r == Ok::<LaunchDims, PrimError>(line_dims(n_query as int, width)),
        },
{
    if k < 1 || n_query < 1 {
        return Err(shape_mismatch("k", n_query, k, idx_len));
    }
    if !product_is(n_query, k, idx_len) {
        return Err(shape_mismatch("idx", n_query, k, idx_len));
    }
    if y_len != n_train || n_train < 1 {
        return Err(shape_mismatch("y_train", n_train, 1, y_len));
    }
    match guard_u32("n_query", n_query) {
        Err(e) => {
            return Err(e);
        },
        Ok(()) => {},
    }
    match guard_u32("k", k) {
        Err(e) => {
            return Err(e);
        },
        Ok(()) => {},
    }
    match guard_u32("n_train", n_train) {
        Err(e) => Err(e),
        Ok(()) => Ok(launch_dims_1d(n_query, width)),
    }
}

/// How a device buffer is duplicated.
#[derive(Debug, Clone, Copy, PartialEq, Eq)]
pub enum CopyPlan {
    /// One cube whose units each copy a contiguous span.
    Spans(LaunchDims),
    /// One unit per element.
    PerElement(LaunchDims),
}

/// Plans the duplication of `len` elements. The cpu backend runs a unit as a
/// thread, so there one cube of `units` threads copies spans.
pub fn device_copy_plan(len: usize, cpu_backend: bool, units: u32, width: u32) -> (r: CopyPlan)
    requires
        len <= u32::MAX,
        width > 0,
    ensures
        r == if cpu_backend {
            CopyPlan::Spans(LaunchDims { grid: (1, 1, 1), block: (units, 1, 1) })
        } else {
            CopyPlan::PerElement(line_dims(len as int, width))
        },
{
    if cpu_backend {
        CopyPlan::Spans(LaunchDims { grid: (1, 1, 1), block: (units, 1, 1) })
    } else {
        CopyPlan::PerElement(launch_dims_1d(len, width))
    }
}

// ---------------------------------------------------------------------------
// Row scan on the cpu backend
// ---------------------------------------------------------------------------

/// The limits that the row-scan kernels are compiled with.
#[derive(Debug, Clone, Copy, PartialEq, Eq)]
pub struct RowScanLimits {
    /// The longest neighbour list.
    pub k_cap: u32,
    /// The widest row.
    pub max_cols: u32,
    /// Query rows of one unit in the norm-expansion kernels.
    pub query_tile: u32,
    /// Query rows of one unit in the direct kernel.
    pub query_tile_wide: u32,
}

/// Whether the row scan can serve a search.
pub open spec fn rows_shape_fits(
    n_query: usize,
    n_train: usize,
    n_features: usize,
    k: usize,
    limits: RowScanLimits,
) -> bool {
    n_query >= 1 && 1 <= n_features <= limits.max_cols && 1 <= k <= n_train && k <= limits.k_cap
}

/// Whether the row scan serves a search: only on the cpu backend, within the
/// kernel's limits, and unless the flag turns it off.
pub fn cpu_rows_applicable(
    n_query: usize,
    n_train: usize,
    n_features: usize,
    k: usize,
    limits: RowScanLimits,
    cpu_backend: bool,
    rows_flag: Option<&str>,
) -> (r: bool)
    ensures
        r == (cpu_backend && rows_shape_fits(n_query, n_train, n_features, k, limits)
            && !flag_off(rows_flag)),
{
    cpu_backend && n_query >= 1 && n_features >= 1 && n_features <= limits.max_cols as usize && k
        >= 1 && k <= n_train && k <= limits.k_cap as usize && !is_flag_off(rows_flag)
}

/// Whether the lane-parallel row scan is used; the flag `"0"` picks the scalar
/// one.
pub fn cpu_rows_vec_selected(vec_flag: Option<&str>) -> (r: bool)
    ensures
        r == !flag_off(vec_flag),
{
    !is_flag_off(vec_flag)
}

/// Whether the row scan sums squared differences instead of expanding them: the
/// default, which the dot flag overrides unless the direct flag is set too.
pub fn direct_selected(direct_flag: Option<&str>, dot_flag: Option<&str>) -> (r: bool)
    ensures
        r == (flag_on(direct_flag) || !flag_on(dot_flag)),
{
    is_flag_on(direct_flag) || !is_flag_on(dot_flag)
}

/// The row-scan launch over `n_query` rows: `units` threads per cube, `tile`
/// query rows per thread.
pub open spec fn rows_dims(n_query: int, tile: int, units: u32) -> LaunchDims {
    line_dims(ceil_div_int(n_query, tile), units)
}

/// The row-scan launch.
pub fn cpu_rows_launch_dims(n_query: usize, tile: u32, units: u32) -> (r: LaunchDims)
    requires
        n_query <= u32::MAX,
        tile > 0,
        units > 0,
    ensures
        r == rows_dims(n_query as int, tile as int, units),
{
    let tiles: u32 = ceil_div_u32(n_query as u32, tile);
    LaunchDims { grid: (max_u32(ceil_div_u32(tiles, units), 1), 1, 1), block: (units, 1, 1) }
}

/// A row-scan launch reaches every query row: there is a unit for each tile.
pub proof fn lemma_rows_launch_covers(n_query: int, tile: int, units: u32)
    requires
        0 <= n_query <= u32::MAX,
        tile > 0,
        units > 0,
    ensures
        rows_dims(n_query, tile, units).grid.0 * units * tile >= n_query,
{
    let tiles = ceil_div_int(n_query, tile);
    crate::arith::lemma_ceil_div_brackets(n_query, tile);
    crate::arith::lemma_ceil_div_brackets(tiles, units as int);
    assert(tiles <= n_query) by (nonlinear_arith)
        requires
            (tiles - 1) * tile < n_query || tiles == 0,
            tile > 0,
            n_query >= 0,
    ;
    let g = ceil_div_int(tiles, units as int);
    assert(g <= tiles) by (nonlinear_arith)
        requires
            (g - 1) * units < tiles || g == 0,
            units > 0,
            tiles >= 0,
    ;
    let c = rows_dims(n_query, tile, units).grid.0 as int;
    assert(c >= g);
    assert(c * units >= tiles) by (nonlinear_arith)
        requires
            c >= g,
            g * units >= tiles,
            units > 0,
    ;
    assert(c * units * tile >= n_query) by (nonlinear_arith)
        requires
            c * units >= tiles,
            tiles * tile >= n_query,
            tile > 0,
    ;
}

/// Which row-scan kernel runs.
#[derive(Debug, Clone, Copy, PartialEq, Eq)]
pub enum RowScanKernel {
    /// Sums of squared differences.
    Direct,
    /// Norm expansion, one lane per query row.
    ExpandedLanes,
    /// Norm expansion, scalar.
    ExpandedScalar,
}

/// A planned row scan.
#[derive(Debug, Clone, Copy, PartialEq, Eq)]
pub struct RowScanPlan {
    pub kernel: RowScanKernel,
    pub launch: LaunchDims,
    /// The launches of the query and training norms, where they are needed.
    pub norms: Option<(LaunchDims, LaunchDims)>,
    /// The launch of the square roots, where they are asked for.
    pub roots: Option<LaunchDims>,
    /// Entries of each result.
    pub out_len: usize,
}

/// Why a row scan is refused.
pub open spec fn rows_fault(
    xq_len: usize,
    n_query: usize,
    n_features: usize,
    train_len: usize,
    n_train: usize,
    k: usize,
    limits: RowScanLimits,
) -> Option<PrimError> {
    if n_query * n_features != xq_len {
        Some(shape_error("x", n_query, n_features, xq_len))
    } else if n_train * n_features != train_len {
        Some(shape_error("y", n_train, n_features, train_len))
    } else if k < 1 || k > n_train || k > limits.k_cap {
        Some(
            shape_error(
                "k",
                1,
                k,
                vstd::math::min(n_train as int, limits.k_cap as int) as usize,
            ),
        )
    } else if n_features < 1 || n_features > limits.max_cols {
        Some(shape_error("features", n_features, 0, limits.max_cols as usize))
    } else {
        first_fault(u32_fault("rows", n_query), u32_fault("cols", n_train))
    }
}

/// Which row-scan kernel the flags pick.
pub open spec fn rows_kernel(
    direct_flag: Option<&str>,
    dot_flag: Option<&str>,
    vec_flag: Option<&str>,
) -> RowScanKernel {
    if flag_on(direct_flag) || !flag_on(dot_flag) {
        RowScanKernel::Direct
    } else if !flag_off(vec_flag) {
        RowScanKernel::ExpandedLanes
    } else {
        RowScanKernel::ExpandedScalar
    }
}

/// The square-root launch over `out_len` results, where it is asked for.
pub open spec fn roots_dims(sqrt: bool, out_len: int, width: u32) -> Option<LaunchDims> {
    if sqrt {
        Some(line_dims(((out_len as usize) as u32) as int, width))
    } else {
        None
    }
}

/// Whether a plan is the row scan of a search.
pub open spec fn rows_plan_matches(
    p: RowScanPlan,
    kernel: RowScanKernel,
    n_query: usize,
    n_train: usize,
    k: usize,
    sqrt: bool,
    limits: RowScanLimits,
    units: u32,
    width: u32,
) -> bool {
    &&& p.kernel == kernel
    &&& p.out_len == n_query * k
    &&& p.launch == rows_dims(
        n_query as int,
        if kernel == RowScanKernel::Direct {
            limits.query_tile_wide as int
        } else {
            limits.query_tile as int
        },
        units,
    )
    &&& p.norms == if kernel == RowScanKernel::Direct {
        None
    } else {
        Some((line_dims(n_query as int, width), line_dims(n_train as int, width)))
    }
    &&& p.roots == roots_dims(sqrt, n_query * k, width)
}

/// Refuses a row scan for its operands, its `k` or the kernel's limits.
pub fn validate_row_scan(
    xq_len: usize,
    n_query: usize,
    n_features: usize,
    train_len: usize,
    n_train: usize,
    k: usize,
    limits: RowScanLimits,
) -> (r: Result<(), PrimError>)
    ensures
        r == verdict(rows_fault(xq_len, n_query, n_features, train_len, n_train, k, limits)),
{
    if !product_is(n_query, n_features, xq_len) {
        return Err(shape_mismatch("x", n_query, n_features, xq_len));
    }
    if !product_is(n_train, n_features, train_len) {
        return Err(shape_mismatch("y", n_train, n_features, train_len));
    }
    if k < 1 || k > n_train || k > limits.k_cap as usize {
        return Err(shape_mismatch("k", 1, k, min_usize(n_train, limits.k_cap as usize)));
    }
    if n_features < 1 || n_features > limits.max_cols as usize {
        return Err(shape_mismatch("features", n_features, 0, limits.max_cols as usize));
    }
    match guard_u32("rows", n_query) {
        Err(e) => {
            return Err(e);
        },
        Ok(()) => {},
    }
    guard_u32("cols", n_train)
}

/// Plans a row scan for the `k` nearest training rows of each query row.
pub fn cpu_rows_topk_plan(
    xq_len: usize,
    n_query: usize,
    n_features: usize,
    train_len: usize,
    n_train: usize,
    k: usize,
    sqrt: bool,
    limits: RowScanLimits,
    units: u32,
    width: u32,
    direct_flag: Option<&str>,
    dot_flag: Option<&str>,
    vec_flag: Option<&str>,
) -> (r: Result<RowScanPlan, PrimError>)
    requires
        units > 0,
        width > 0,
        limits.query_tile > 0,
        limits.query_tile_wide > 0,
        rows_fault(xq_len, n_query, n_features, train_len, n_train, k, limits) is None ==> n_query
            * k <= usize::MAX,
    ensures
        match rows_fault(xq_len, n_query, n_features, train_len, n_train, k, limits) {
            Some(e) => r == Err::<RowScanPlan, PrimError>(e),
            None => r matches Ok(p) && rows_plan_matches(
                p,
                rows_kernel(direct_flag, dot_flag, vec_flag),
                n_query,
                n_train,
                k,
                sqrt,
                limits,
                units,
                width,
            ),
        },
{
    match validate_row_scan(xq_len, n_query, n_features, train_len, n_train, k, limits) {
        Err(e) => {
            return Err(e);
        },
        Ok(()) => {},
    }
    let out_len: usize = n_query * k;
    let roots: Option<LaunchDims> = if sqrt {
        Some(launch_dims_1d(out_len, width))
    } else {
        None
    };
    if direct_selected(direct_flag, dot_flag) {
        return Ok(
            RowScanPlan {
                kernel: RowScanKernel::Direct,
                launch: cpu_rows_launch_dims(n_query, limits.query_tile_wide, units),
                norms: None,
                roots,
                out_len,
            },
        );
    }
    let kernel: RowScanKernel = if cpu_rows_vec_selected(vec_flag) {
        RowScanKernel::ExpandedLanes
    } else {
        RowScanKernel::ExpandedScalar
    };
    Ok(
        RowScanPlan {
            kernel,
            launch: cpu_rows_launch_dims(n_query, limits.query_tile, units),
            norms: Some((launch_dims_1d(n_query, width), launch_dims_1d(n_train, width))),
            roots,
            out_len,
        },
    )
}

// ---------------------------------------------------------------------------
// The fused search
// ---------------------------------------------------------------------------

/// The longest neighbour list of the fused search.
pub const FUSED_K_CAP: usize = 16;

/// Query rows that one cube of the fused search covers.
pub const FUSED_QUERY_BLOCK: usize = 64;

/// The most query rows of one fused launch: a block for each cube of the
/// grid's second axis.
pub const FUSED_MAX_QUERY: usize = 4_194_240;

/// The fewest query rows that the fused search is used for.
pub const FUSED_MIN_QUERY: usize = 4096;

/// The largest index that a 32-bit float carries exactly.
pub const F32_EXACT_INDEX: usize = 16_777_216;

/// The training columns of one block; a strip holds a whole number of them.
pub const STRIP_BLOCK: usize = 64;

/// Whether the fused search is turned off by its flag.
pub fn fused_topk_forced_off(unfused_flag: Option<&str>) -> (r: bool)
    ensures
        r == flag_on(unfused_flag),
{
    is_flag_on(unfused_flag)
}

/// Whether the fused search expands squared distances into norms: the default,
/// which the direct flag overrides unless the dot flag is set too.
pub fn dot_fused_selected(dot_flag: Option<&str>, direct_flag: Option<&str>) -> (r: bool)
    ensures
        r == (flag_on(dot_flag) || !flag_on(direct_flag)),
{
    is_flag_on(dot_flag) || !is_flag_on(direct_flag)
}

/// Whether the fused search serves a search of `elem_size`-byte elements. It
/// never does on the cpu backend. Four-byte elements carry the training index
/// through the merge only up to the largest index they hold exactly.
pub fn fused_topk_applicable(
    n_query: usize,
    n_train: usize,
    k: usize,
    elem_size: usize,
    cpu_backend: bool,
    max_shared_memory: usize,
    unfused_flag: Option<&str>,
) -> (r: bool)
    requires
        elem_size <= 8,
    ensures
        r == (!cpu_backend && 1 <= k <= FUSED_K_CAP && k <= n_train && FUSED_MIN_QUERY <= n_query
            <= FUSED_MAX_QUERY && (elem_size == 4 ==> n_train <= F32_EXACT_INDEX)
            && max_shared_memory >= 4096 * elem_size && !flag_on(unfused_flag)),
        r ==> 1 <= k <= 16 && k <= n_train && 4096 <= n_query <= 65_535 * 64,
        r && elem_size == 4 ==> n_train <= 16_777_216,
{
    if cpu_backend {
        return false;
    }
    let shared_needed: usize = 4096 * elem_size;
    let idx_exact: bool = elem_size != 4 || n_train <= F32_EXACT_INDEX;
    k >= 1 && k <= FUSED_K_CAP && k <= n_train && n_query >= FUSED_MIN_QUERY && n_query
        <= FUSED_MAX_QUERY && idx_exact && max_shared_memory >= shared_needed
        && !fused_topk_forced_off(unfused_flag)
}

/// The register tile of the norm-expansion kernel.
#[derive(Debug, Clone, Copy, PartialEq, Eq)]
pub enum DotVariant {
    Scalar,
    /// Four by four outputs per unit.
    Vec4,
    /// Four by eight outputs per unit.
    Vec8,
}

/// The register tile that a backend uses by default.
pub open spec fn default_variant(
    n_features: usize,
    backend: Backend,
    wide_denied: bool,
) -> DotVariant {
    match backend {
        Backend::Cuda | Backend::Rocm => if n_features > 16 && !wide_denied {
            DotVariant::Vec8
        } else {
            DotVariant::Vec4
        },
        Backend::Wgpu => if wide_denied {
            DotVariant::Vec4
        } else {
            DotVariant::Vec8
        },
        Backend::Cpu | Backend::Other => DotVariant::Scalar,
    }
}

/// The register tile: the wide flag is looked at first, then the narrow one;
/// each is forced by `"1"` and denied by `"0"`.
pub open spec fn dot_variant(
    n_features: usize,
    backend: Backend,
    vec8_flag: Option<&str>,
    vec_flag: Option<&str>,
) -> DotVariant {
    let by_default = default_variant(n_features, backend, flag_off(vec8_flag));
    if flag_on(vec8_flag) || by_default == DotVariant::Vec8 {
        DotVariant::Vec8
    } else if flag_on(vec_flag) {
        DotVariant::Vec4
    } else if flag_off(vec_flag) {
        DotVariant::Scalar
    } else {
        by_default
    }
}

/// Picks the register tile of the norm-expansion kernel.
pub fn dot_variant_selected(
    n_features: usize,
    backend: Backend,
    vec8_flag: Option<&str>,
    vec_flag: Option<&str>,
) -> (r: DotVariant)
    ensures
        r == dot_variant(n_features, backend, vec8_flag, vec_flag),
{
    if is_flag_on(vec8_flag) {
        return DotVariant::Vec8;
    }
    if !is_flag_off(vec8_flag) {
        match backend {
            Backend::Cuda | Backend::Rocm => {
                if n_features > 16 {
                    return DotVariant::Vec8;
                }
            },
            Backend::Wgpu => {
                return DotVariant::Vec8;
            },
            Backend::Cpu | Backend::Other => {},
        }
    }
    if is_flag_on(vec_flag) {
        return DotVariant::Vec4;
    }
    if is_flag_off(vec_flag) {
        return DotVariant::Scalar;
    }
    match backend {
        Backend::Cuda | Backend::Rocm | Backend::Wgpu => DotVariant::Vec4,
        Backend::Cpu | Backend::Other => DotVariant::Scalar,
    }
}

/// The training rows of one strip when `n_train` rows are split into `strips`:
/// an even share, rounded up to whole blocks.
pub open spec fn strip_len(n_train: int, strips: int) -> int {
    ceil_div_int(ceil_div_int(n_train, strips), STRIP_BLOCK as int) * STRIP_BLOCK
}

/// Whether `strips` strips can be used: there is one, or the last of them still
/// holds a whole block.
pub open spec fn strips_fit(n_train: int, strips: int) -> bool {
    strips == 1 || n_train - (strips - 1) * strip_len(n_train, strips) >= STRIP_BLOCK
}

/// The strips that are tried first: what the flag asks for, at most 64, and
/// none without a block of its own.
pub open spec fn strips_wanted(n_train: int, strips_flag: Option<&str>) -> int {
    let desired = match flag_text(strips_flag) {
        Some(t) => match parsed_count(t) {
            Some(s) => clamp_int(s as int, 1, 64),
            None => 1,
        },
        None => 1,
    };
    vstd::math::max(1, vstd::math::min(desired, n_train / (STRIP_BLOCK as int)))
}

/// The most strips, from `strips` down, that can be used.
pub open spec fn strips_chosen(n_train: int, strips: int) -> int
    decreases strips,
{
    if strips <= 1 || strips_fit(n_train, strips) {
        strips
    } else {
        strips_chosen(n_train, strips - 1)
    }
}

proof fn lemma_strip_len_bound(n_train: int, strips: int)
    requires
        n_train >= 0,
        strips >= 1,
    ensures
        strip_len(n_train, strips) * strips >= n_train,
        0 <= strip_len(n_train, strips) <= n_train + 63,
        strip_len(n_train, strips) % (STRIP_BLOCK as int) == 0,
{
    let even = ceil_div_int(n_train, strips);
    crate::arith::lemma_ceil_div_brackets(n_train, strips);
    crate::arith::lemma_ceil_div_brackets(even, 64);
    assert(even <= n_train) by (nonlinear_arith)
        requires
            (even - 1) * strips < n_train || even == 0,
            strips >= 1,
            n_train >= 0,
    ;
    let len = strip_len(n_train, strips);
    assert(len >= even);
    assert(len * strips >= n_train) by (nonlinear_arith)
        requires
            len >= even,
            even * strips >= n_train,
            strips >= 1,
    ;
}

/// Splits the training rows into strips: how many, and how many rows each.
pub fn pick_strips(n_train: usize, strips_flag: Option<&str>) -> (r: (usize, usize))
    requires
        n_train <= usize::MAX - 63,
    ensures
        r.0 == strips_chosen(n_train as int, strips_wanted(n_train as int, strips_flag)),
        r.1 == strip_len(n_train as int, r.0 as int),
        1 <= r.0 <= 64,
        strips_fit(n_train as int, r.0 as int),
{
    let desired: usize = match strips_flag {
        Some(v) => match parse_count(v) {
            Some(s) => clamp_usize(s, 1, 64),
            None => 1,
        },
        None => 1,
    };
    let mut strips: usize = max_usize(min_usize(desired, n_train / STRIP_BLOCK), 1);
    while strips > 1
        invariant
            1 <= strips <= 64,
            n_train <= usize::MAX - 63,
            strips_chosen(n_train as int, strips as int) == strips_chosen(
                n_train as int,
                strips_wanted(n_train as int, strips_flag),
            ),
        decreases strips,
    {
        proof {
            lemma_strip_len_bound(n_train as int, strips as int);
            crate::arith::lemma_ceil_div_brackets(n_train as int, strips as int);
            crate::arith::lemma_ceil_div_brackets(ceil_div_int(n_train as int, strips as int), 64);
        }
        let len: usize = ceil_div(ceil_div(n_train, strips), STRIP_BLOCK) * STRIP_BLOCK;
        assert((strips - 1) * len <= 63 * u64::MAX) by (nonlinear_arith)
            requires
                strips <= 64,
                len <= u64::MAX,
        ;
        let used: u128 = (strips as u128 - 1) * (len as u128);
        if used < n_train as u128 && n_train as u128 - used >= 64 {
            assert(strips_fit(n_train as int, strips as int));
            return (strips, len);
        }
        assert(!strips_fit(n_train as int, strips as int));
        strips = strips - 1;
    }
    proof {
        lemma_strip_len_bound(n_train as int, 1);
        crate::arith::lemma_ceil_div_brackets(n_train as int, 1);
    }
    (1, ceil_div(ceil_div(n_train, 1), STRIP_BLOCK) * STRIP_BLOCK)
}

/// Strips hold every training row once: they start at multiples of the strip
/// length, the last one starts before the end, and together they reach it. The
/// length is a whole number of blocks, and each of several strips holds at least
/// one, which is more than the longest neighbour list.
pub proof fn lemma_strips_tile(n_train: int, strips: int)
    requires
        n_train >= 1,
        strips >= 1,
        strips_fit(n_train, strips),
    ensures
        strips * strip_len(n_train, strips) >= n_train,
        (strips - 1) * strip_len(n_train, strips) < n_train,
        strip_len(n_train, strips) % (STRIP_BLOCK as int) == 0,
        strips > 1 ==> strip_len(n_train, strips) >= STRIP_BLOCK && n_train - (strips - 1)
            * strip_len(n_train, strips) >= STRIP_BLOCK,
{
    lemma_strip_len_bound(n_train, strips);
    let len = strip_len(n_train, strips);
    assert(strips * len >= n_train) by (nonlinear_arith)
        requires
            len * strips >= n_train,
    ;
    if strips > 1 {
        assert(len > 0) by (nonlinear_arith)
            requires
                len * strips >= n_train,
                n_train >= 1,
                len >= 0,
                strips >= 1,
        ;
    } else {
        assert((strips - 1) * len == 0) by (nonlinear_arith)
            requires
                strips == 1,
        ;
    }
}

/// The first training row of strip `s`, or the end where the strips have run
/// out.
pub open spec fn strip_cut(n_train: int, len: int, s: int) -> int {
    vstd::math::min(s * len, n_train)
}

/// What makes a list the `k` nearest of the training rows from `lo` to `hi`.
pub open spec fn is_strip_nearest(
    list: Seq<Candidate>,
    dist: Seq<u64>,
    k: nat,
    lo: int,
    hi: int,
) -> bool {
    &&& list.len() == k
    &&& forall|i: int|
        0 <= i < k ==> #[trigger] list[i] == vacant() || (lo <= list[i].1 < hi && list[i].0
            == dist[list[i].1 as int] && !is_nan64(list[i].0))
    &&& forall|i: int, j: int|
        0 <= i <= j < k ==> not_after(#[trigger] list[i], #[trigger] list[j])
    &&& forall|i: int, j: int|
        0 <= i < j < k && (#[trigger] list[i]).1 != u32::MAX ==> list[i].1 != (
        #[trigger] list[j]).1
    &&& forall|t: int|
        lo <= t < hi && !is_nan64(#[trigger] dist[t]) ==> list.contains((dist[t], t as u32)) || (k
            > 0 ==> not_after(list.last(), (dist[t], t as u32)))
}

/// Whether some strip lists the candidate.
pub open spec fn listed(lists: Seq<Seq<Candidate>>, c: Candidate) -> bool {
    exists|s: int| 0 <= s < lists.len() && #[trigger] lists[s].contains(c)
}

/// What makes a list the `k` nearest of the strips' lists: its entries are
/// listed or vacant, in ascending order and without repetition, and whatever
/// listed candidate is missing comes after all of them.
pub open spec fn is_merge(merged: Seq<Candidate>, lists: Seq<Seq<Candidate>>, k: nat) -> bool {
    &&& merged.len() == k
    &&& forall|i: int| 0 <= i < k ==> #[trigger] merged[i] == vacant() || listed(lists, merged[i])
    &&& forall|i: int, j: int|
        0 <= i <= j < k ==> not_after(#[trigger] merged[i], #[trigger] merged[j])
    &&& forall|i: int, j: int|
        0 <= i < j < k && (#[trigger] merged[i]).1 != u32::MAX ==> merged[i].1 != (
        #[trigger] merged[j]).1
    &&& forall|c: Candidate| #[trigger]
        listed(lists, c) && c != vacant() ==> merged.contains(c) || (k > 0 ==> not_after(
            merged.last(),
            c,
        ))
}

/// Splitting a search into strips changes nothing: merging the `k` nearest of
/// each strip gives the `k` nearest of all training rows, ties still going to
/// the lowest training index.
pub proof fn lemma_strips_merge(
    merged: Seq<Candidate>,
    lists: Seq<Seq<Candidate>>,
    dist: Seq<u64>,
    k: nat,
    len: int,
)
    requires
        dist.len() <= u32::MAX,
        len > 0,
        lists.len() * len >= dist.len(),
        forall|s: int|
            0 <= s < lists.len() ==> is_strip_nearest(
                #[trigger] lists[s],
                dist,
                k,
                strip_cut(dist.len() as int, len, s),
                strip_cut(dist.len() as int, len, s + 1),
            ),
        is_merge(merged, lists, k),
    ensures
        is_k_nearest(merged, dist, k, dist.len()),
{
    let n = dist.len() as int;
    assert forall|i: int| 0 <= i < k implies #[trigger] merged[i] == vacant() || (merged[i].1 < n
        && merged[i].0 == dist[merged[i].1 as int] && !is_nan64(merged[i].0)) by {
        if merged[i] != vacant() {
            assert(listed(lists, merged[i]));
            let s = choose|s: int| 0 <= s < lists.len() && #[trigger] lists[s].contains(merged[i]);
            let list = lists[s];
            let j = choose|j: int| 0 <= j < list.len() && list[j] == merged[i];
            assert(list[j] == merged[i]);
        }
    }
    assert forall|t: int| 0 <= t < n && !is_nan64(#[trigger] dist[t]) implies merged.contains(
        (dist[t], t as u32),
    ) || (k > 0 ==> not_after(merged.last(), (dist[t], t as u32))) by {
        let c: Candidate = (dist[t], t as u32);
        let s = t / len;
        assert(0 <= s < lists.len() && s * len <= t < (s + 1) * len) by (nonlinear_arith)
            requires
                s == t / len,
                0 <= t < n,
                len > 0,
                lists.len() * len >= n,
        ;
        let list = lists[s];
        assert(is_strip_nearest(list, dist, k, strip_cut(n, len, s), strip_cut(n, len, s + 1)));
        if list.contains(c) {
            assert(listed(lists, c));
        } else if k > 0 && !merged.contains(c) {
            lemma_full_list_last(merged, lists, s, dist, k, strip_cut(n, len, s), strip_cut(
                n,
                len,
                s + 1,
            ), c);
        }
    }
}

proof fn lemma_full_list_last(
    merged: Seq<Candidate>,
    lists: Seq<Seq<Candidate>>,
    s: int,
    dist: Seq<u64>,
    k: nat,
    lo: int,
    hi: int,
    c: Candidate,
)
    requires
        k > 0,
        0 <= s < lists.len(),
        is_strip_nearest(lists[s], dist, k, lo, hi),
        is_merge(merged, lists, k),
        hi <= u32::MAX,
        c.1 < u32::MAX,
        !is_nan64(c.0),
        not_after(lists[s].last(), c),
    ensures
        not_after(merged.last(), c),
{
    let list = lists[s];
    assert(list.last() != vacant());
    assert forall|j: int| 0 <= j < k implies #[trigger] list[j] != vacant() && not_after(list[j], c)
        && listed(lists, list[j]) by {
        assert(not_after(list[j], list[k - 1]));
        assert(lists[s].contains(list[j]));
    }
    if exists|j: int| 0 <= j < k && !merged.contains(#[trigger] list[j]) {
        let j = choose|j: int| 0 <= j < k && !merged.contains(#[trigger] list[j]);
        assert(listed(lists, list[j]));
    } else {
        let f = Seq::new(k, |j: int| choose|i: int| 0 <= i < k && merged[i] == list[j]);
        assert forall|j: int| 0 <= j < k implies 0 <= #[trigger] f[j] < k && merged[f[j]]
            == list[j] by {
            assert(merged.contains(list[j]));
        }
        assert(f.no_duplicates()) by {
            assert forall|i: int, j: int| 0 <= i < j < k implies f[i] != f[j] by {
                assert(list[i] != vacant());
                assert(list[i].1 != list[j].1);
                assert(merged[f[i]] == list[i]);
                assert(merged[f[j]] == list[j]);
            }
        }
        crate::seqs::lemma_injective_is_onto(f, k - 1);
        let j = choose|j: int| 0 <= j < k && f[j] == k - 1;
        assert(merged[f[j]] == list[j]);
    }
}

/// The widest power of two, at most 256, that a candidate row fills.
pub open spec fn merge_width(cols: int) -> u32 {
    if cols >= 256 {
        256
    } else if cols >= 128 {
        128
    } else if cols >= 64 {
        64
    } else if cols >= 32 {
        32
    } else if cols >= 16 {
        16
    } else if cols >= 8 {
        8
    } else if cols >= 4 {
        4
    } else if cols >= 2 {
        2
    } else {
        1
    }
}

/// The launch of the candidate merge: one cube per query row.
pub fn merge_launch_dims(rows: usize, cols: usize) -> (r: LaunchDims)
    ensures
        r == (LaunchDims {
            grid: (vstd::math::max(1, (rows as u32) as int) as u32, 1, 1),
            block: (merge_width(cols as int), 1, 1),
        }),
{
    let mut width: u32 = 1;
    while width < 256 && (width as usize) * 2 <= cols
        invariant
            width == 1 || width == 2 || width == 4 || width == 8 || width == 16 || width == 32
                || width == 64 || width == 128 || width == 256,
            width == 1 || width <= cols,
        decreases 256 - width,
    {
        width = width * 2;
    }
    let cubes: u32 = max_u32(#[verifier::truncate] (rows as u32), 1);
    LaunchDims { grid: (cubes, 1, 1), block: (width, 1, 1) }
}

/// Which kernel a fused search runs.
#[derive(Debug, Clone, Copy, PartialEq, Eq)]
pub enum FusedKernel {
    /// Sums of squared differences.
    Direct,
    /// Norm expansion.
    Dot(DotVariant),
}

/// A planned fused search.
#[derive(Debug, Clone, Copy, PartialEq, Eq)]
pub struct FusedPlan {
    pub kernel: FusedKernel,
    pub launch: LaunchDims,
    pub strips: usize,
    pub strip_len: usize,
    /// Candidates of one query row: `k` for each strip.
    pub cand_cols: usize,
    pub cand_len: usize,
    pub out_len: usize,
    /// The launches of the query and training norms, where they are needed.
    pub norms: Option<(LaunchDims, LaunchDims)>,
    /// The launch that merges the strips' candidates; with one strip there is
    /// nothing to merge.
    pub merge: Option<LaunchDims>,
    /// The launch of the square roots, where they are asked for.
    pub roots: Option<LaunchDims>,
}

/// Why a fused search is refused.
pub open spec fn fused_fault(
    xq_len: usize,
    n_query: usize,
    n_features: usize,
    train_len: usize,
    n_train: usize,
    n_features_t: usize,
    k: usize,
) -> Option<PrimError> {
    if n_features != n_features_t {
        Some(PrimError::DimMismatch { dim: "cols", lhs: n_features, rhs: n_features_t })
    } else if n_query * n_features != xq_len {
        Some(shape_error("x", n_query, n_features, xq_len))
    } else if n_train * n_features != train_len {
        Some(shape_error("y", n_train, n_features, train_len))
    } else if k < 1 || k > n_train || k > FUSED_K_CAP {
        Some(
            shape_error("k", 1, k, vstd::math::min(n_train as int, FUSED_K_CAP as int) as usize),
        )
    } else if n_query > FUSED_MAX_QUERY {
        Some(shape_error("n_query", n_query, 0, FUSED_MAX_QUERY))
    } else {
        first_fault(
            u32_fault("rows", n_query),
            first_fault(u32_fault("cols", n_train), u32_fault("features", n_features)),
        )
    }
}

/// Which kernel a fused search runs: rows of at most 32 features expand into
/// norms unless the flags ask for the direct sums.
pub open spec fn fused_kernel(
    n_features: usize,
    backend: Backend,
    dot_flag: Option<&str>,
    direct_flag: Option<&str>,
    vec8_flag: Option<&str>,
    vec_flag: Option<&str>,
) -> FusedKernel {
    if n_features <= 32 && (flag_on(dot_flag) || !flag_on(direct_flag)) {
        FusedKernel::Dot(dot_variant(n_features, backend, vec8_flag, vec_flag))
    } else {
        FusedKernel::Direct
    }
}

/// The launch of a fused search: a cube for each strip and query block, whose
/// shape follows the kernel's register tile.
pub open spec fn fused_dims(kernel: FusedKernel, strips: int, n_query: int) -> LaunchDims {
    LaunchDims {
        grid: (
            strips as u32,
            vstd::math::max(1, ceil_div_int(n_query, FUSED_QUERY_BLOCK as int)) as u32,
            1,
        ),
        block: if kernel == FusedKernel::Dot(DotVariant::Vec8) {
            (8, 16, 1)
        } else {
            (16, 16, 1)
        },
    }
}

/// Whether a plan is the fused search over `strips` strips.
pub open spec fn fused_plan_matches(
    p: FusedPlan,
    kernel: FusedKernel,
    strips: int,
    n_query: usize,
    n_train: usize,
    k: usize,
    sqrt: bool,
    width: u32,
) -> bool {
    &&& p.kernel == kernel
    &&& p.launch == fused_dims(kernel, strips, n_query as int)
    &&& p.strips == strips
    &&& p.strip_len == strip_len(n_train as int, strips)
    &&& p.cand_cols == strips * k
    &&& p.cand_len == n_query * (strips * k)
    &&& p.out_len == n_query * k
    &&& p.norms == if kernel == FusedKernel::Direct {
        None
    } else {
        Some((line_dims(n_query as int, width), line_dims(n_train as int, width)))
    }
    &&& p.merge == if strips == 1 {
        None
    } else {
        Some(
            LaunchDims {
                grid: (vstd::math::max(1, n_query as int) as u32, 1, 1),
                block: (merge_width(strips * k), 1, 1),
            },
        )
    }
    &&& p.roots == roots_dims(sqrt, n_query * k, width)
}

/// Plans a fused search for the `k` nearest training rows of each query row.
pub fn fused_distance_topk_plan(
    xq_len: usize,
    n_query: usize,
    n_features: usize,
    train_len: usize,
    n_train: usize,
    n_features_t: usize,
    k: usize,
    sqrt: bool,
    backend: Backend,
    width: u32,
    strips_flag: Option<&str>,
    dot_flag: Option<&str>,
    direct_flag: Option<&str>,
    vec8_flag: Option<&str>,
    vec_flag: Option<&str>,
) -> (r: Result<FusedPlan, PrimError>)
    requires
        width > 0,
        fused_fault(xq_len, n_query, n_features, train_len, n_train, n_features_t, k) is None
            ==> n_train <= usize::MAX - 63,
    ensures
        match fused_fault(xq_len, n_query, n_features, train_len, n_train, n_features_t, k) {
            Some(e) => r == Err::<FusedPlan, PrimError>(e),
            None => r matches Ok(p) && fused_plan_matches(
                p,
                fused_kernel(n_features, backend, dot_flag, direct_flag, vec8_flag, vec_flag),
                strips_chosen(n_train as int, strips_wanted(n_train as int, strips_flag)),
                n_query,
                n_train,
                k,
                sqrt,
                width,
            ),
        },
{
    if n_features != n_features_t {
        return Err(PrimError::DimMismatch { dim: "cols", lhs: n_features, rhs: n_features_t });
    }
    if !product_is(n_query, n_features, xq_len) {
        return Err(shape_mismatch("x", n_query, n_features, xq_len));
    }
    if !product_is(n_train, n_features, train_len) {
        return Err(shape_mismatch("y", n_train, n_features, train_len));
    }
    if k < 1 || k > n_train || k > FUSED_K_CAP {
        return Err(shape_mismatch("k", 1, k, min_usize(n_train, FUSED_K_CAP)));
    }
    if n_query > FUSED_MAX_QUERY {
        return Err(shape_mismatch("n_query", n_query, 0, FUSED_MAX_QUERY));
    }
    match guard_u32("rows", n_query) {
        Err(e) => {
            return Err(e);
        },
        Ok(()) => {},
    }
    match guard_u32("cols", n_train) {
        Err(e) => {
            return Err(e);
        },
        Ok(()) => {},
    }
    match guard_u32("features", n_features) {
        Err(e) => {
            return Err(e);
        },
        Ok(()) => {},
    }
    let blocks: usize = max_usize(ceil_div(n_query, FUSED_QUERY_BLOCK), 1);
    let (strips, strip_len): (usize, usize) = pick_strips(n_train, strips_flag);
    assert(strips * k <= 64 * 16) by (nonlinear_arith)
        requires
            strips <= 64,
            k <= 16,
    ;
    let cand_cols: usize = strips * k;
    assert(n_query * cand_cols <= 4_194_240 * 1024) by (nonlinear_arith)
        requires
            n_query <= 4_194_240,
            cand_cols <= 1024,
    ;
    assert(n_query * k <= 4_194_240 * 16) by (nonlinear_arith)
        requires
            n_query <= 4_194_240,
            k <= 16,
    ;
    let cand_len: usize = n_query * cand_cols;
    let out_len: usize = n_query * k;
    let kernel: FusedKernel = if n_features <= 32 && dot_fused_selected(dot_flag, direct_flag) {
        FusedKernel::Dot(dot_variant_selected(n_features, backend, vec8_flag, vec_flag))
    } else {
        FusedKernel::Direct
    };
    let (wide, norms): (bool, Option<(LaunchDims, LaunchDims)>) = match kernel {
        FusedKernel::Direct => (false, None),
        FusedKernel::Dot(v) => (
            matches!(v, DotVariant::Vec8),
            Some((launch_dims_1d(n_query, width), launch_dims_1d(n_train, width))),
        ),
    };
    let launch: LaunchDims = LaunchDims {
        grid: (strips as u32, blocks as u32, 1),
        block: if wide {
            (8, 16, 1)
        } else {
            (16, 16, 1)
        },
    };
    let merge: Option<LaunchDims> = if strips == 1 {
        None
    } else {
        Some(merge_launch_dims(n_query, cand_cols))
    };
    let roots: Option<LaunchDims> = if sqrt {
        Some(launch_dims_1d(out_len, width))
    } else {
        None
    };
    Ok(
        FusedPlan {
            kernel,
            launch,
            strips,
            strip_len,
            cand_cols,
            cand_len,
            out_len,
            norms,
            merge,
            roots,
        },
    )
}

// ---------------------------------------------------------------------------
// What the checks and plans amount to
// ---------------------------------------------------------------------------

/// A neighbour-target mean is accepted exactly where there are queries,
/// neighbours and training rows, an index for every query and neighbour, a
/// target for every training row, and 32-bit sizes.
pub proof fn lemma_regress_accepted(
    y_len: usize,
    idx_len: usize,
    n_query: usize,
    k: usize,
    n_train: usize,
)
    ensures
        regress_fault(y_len, idx_len, n_query, k, n_train) is None <==> {
            &&& n_query >= 1 && k >= 1 && n_train >= 1
            &&& idx_len == n_query * k && y_len == n_train
            &&& n_query <= u32::MAX && k <= u32::MAX && n_train <= u32::MAX
        },
{
}

/// A row scan is accepted exactly where both matrices are full, `k` is a count of
/// training rows within the kernel's list, the rows have features within its
/// width, and the sizes fit 32 bits.
pub proof fn lemma_row_scan_accepted(
    xq_len: usize,
    n_query: usize,
    n_features: usize,
    train_len: usize,
    n_train: usize,
    k: usize,
    limits: RowScanLimits,
)
    ensures
        rows_fault(xq_len, n_query, n_features, train_len, n_train, k, limits) is None <==> {
            &&& xq_len == n_query * n_features && train_len == n_train * n_features
            &&& 1 <= k <= n_train && k <= limits.k_cap
            &&& 1 <= n_features <= limits.max_cols
            &&& n_query <= u32::MAX && n_train <= u32::MAX
        },
        rows_shape_fits(n_query, n_train, n_features, k, limits) <==> {
            &&& n_query >= 1
            &&& 1 <= k <= n_train && k <= limits.k_cap
            &&& 1 <= n_features <= limits.max_cols
        },
{
}

/// Whether a flag holds the given character and nothing else.
pub open spec fn says(flag: Option<&str>, c: char) -> bool {
    flag is Some && flag->0@ == seq![c]
}

/// A row scan sums squared differences unless the dot flag alone is set; where
/// it is, the lanes are used unless their flag is zero.
pub proof fn lemma_row_scan_kernel(
    direct_flag: Option<&str>,
    dot_flag: Option<&str>,
    vec_flag: Option<&str>,
)
    ensures
        rows_kernel(direct_flag, dot_flag, vec_flag) == RowScanKernel::Direct <==> says(
            direct_flag,
            '1',
        ) || !says(dot_flag, '1'),
        rows_kernel(direct_flag, dot_flag, vec_flag) == RowScanKernel::ExpandedScalar <==> !says(
            direct_flag,
            '1',
        ) && says(dot_flag, '1') && says(vec_flag, '0'),
{
}

/// A planned row scan covers every query row, has a result for each neighbour of
/// each, takes norms of all rows exactly where the kernel expands into them, and
/// roots of all results exactly where they are asked for.
pub proof fn lemma_row_scan_covers(
    p: RowScanPlan,
    kernel: RowScanKernel,
    n_query: usize,
    n_train: usize,
    k: usize,
    sqrt: bool,
    limits: RowScanLimits,
    units: u32,
    width: u32,
)
    requires
        rows_plan_matches(p, kernel, n_query, n_train, k, sqrt, limits, units, width),
        units > 0,
        width > 0,
        limits.query_tile > 0,
        limits.query_tile_wide > 0,
        n_query <= u32::MAX,
        n_train <= u32::MAX,
        n_query * k <= u32::MAX,
    ensures
        p.kernel == kernel,
        p.out_len == n_query * k,
        kernel == RowScanKernel::Direct ==> p.launch.grid.0 * units * limits.query_tile_wide
            >= n_query,
        kernel != RowScanKernel::Direct ==> p.launch.grid.0 * units * limits.query_tile >= n_query,
        p.norms is None <==> kernel == RowScanKernel::Direct,
        p.norms matches Some((q, t)) ==> q.cubes() * q.block.0 >= n_query && t.cubes() * t.block.0
            >= n_train,
        p.roots is Some <==> sqrt,
        p.roots matches Some(l) ==> l.cubes() * l.block.0 >= n_query * k,
{
    lemma_rows_launch_covers(n_query as int, limits.query_tile as int, units);
    lemma_rows_launch_covers(n_query as int, limits.query_tile_wide as int, units);
    crate::launch::lemma_launch_covers(n_query as int, width);
    crate::launch::lemma_launch_covers(n_train as int, width);
    assert(n_query * k >= 0) by (nonlinear_arith);
    crate::launch::lemma_launch_covers(n_query * k, width);
}

/// The register tile: a flag that is set wins over the backend. Without flags
/// the cpu is scalar, wgpu is wide, and cuda and rocm are wide for more than 16
/// features and narrow for fewer.
pub proof fn lemma_register_tile(
    n_features: usize,
    backend: Backend,
    vec8_flag: Option<&str>,
    vec_flag: Option<&str>,
)
    ensures
        says(vec8_flag, '1') ==> dot_variant(n_features, backend, vec8_flag, vec_flag)
            == DotVariant::Vec8,
        says(vec8_flag, '0') ==> dot_variant(n_features, backend, vec8_flag, vec_flag)
            != DotVariant::Vec8,
        says(vec8_flag, '0') && says(vec_flag, '1') ==> dot_variant(
            n_features,
            backend,
            vec8_flag,
            vec_flag,
        ) == DotVariant::Vec4,
        says(vec8_flag, '0') && says(vec_flag, '0') ==> dot_variant(
            n_features,
            backend,
            vec8_flag,
            vec_flag,
        ) == DotVariant::Scalar,
        vec8_flag is None && vec_flag is None ==> {
            let v = dot_variant(n_features, backend, vec8_flag, vec_flag);
            &&& v == DotVariant::Scalar <==> backend == Backend::Cpu || backend == Backend::Other
            &&& v == DotVariant::Vec8 <==> backend == Backend::Wgpu || n_features > 16 && (backend
                == Backend::Cuda || backend == Backend::Rocm)
        },
        says(vec8_flag, '0') && vec_flag is None && (backend == Backend::Cuda || backend
            == Backend::Rocm || backend == Backend::Wgpu) ==> dot_variant(
            n_features,
            backend,
            vec8_flag,
            vec_flag,
        ) == DotVariant::Vec4,
{
    if says(vec8_flag, '1') {
        assert(seq!['1'] != seq!['0']) by {
            assert(seq!['1'][0] != seq!['0'][0]);
        }
    }
    if says(vec8_flag, '0') {
        assert(seq!['0'][0] != seq!['1'][0]);
    }
    if says(vec_flag, '0') {
        assert(seq!['0'][0] != seq!['1'][0]);
    }
}

/// Strips are used only where a flag asks for them: no more than it asks for,
/// than 64, or than there are whole blocks of 64 training rows; one strip can
/// always be used.
pub proof fn lemma_strips_wanted(n_train: int, strips_flag: Option<&str>)
    requires
        n_train >= 0,
    ensures
        ({
            let s = strips_wanted(n_train, strips_flag);
            let asked = match strips_flag {
                Some(t) => parsed_count(t@),
                None => None,
            };
            &&& 1 <= s <= 64
            &&& asked is None ==> s == 1
            &&& asked is Some && s > 1 ==> s <= asked->0 && s * 64 <= n_train
            &&& asked is Some ==> s >= asked->0 || s == 64 || (s + 1) * 64 > n_train
        }),
{
}

/// The strips are as many as can be used: those chosen fit, and no larger number
/// up to the one wanted does.
pub proof fn lemma_strips_most(n_train: int, strips: int, more: int)
    requires
        strips >= 1,
    ensures
        1 <= strips_chosen(n_train, strips) <= strips,
        strips_chosen(n_train, strips) == 1 || n_train - (strips_chosen(n_train, strips) - 1)
            * strip_len(n_train, strips_chosen(n_train, strips)) >= 64,
        strips_chosen(n_train, strips) < more <= strips ==> n_train - (more - 1) * strip_len(
            n_train,
            more,
        ) < 64,
    decreases strips,
{
    if strips > 1 && !strips_fit(n_train, strips) {
        lemma_strips_most(n_train, strips - 1, more);
    }
}

/// A strip is the shortest whole number of 64-row blocks that lets the strips
/// hold all rows.
pub proof fn lemma_strip_len_least(n_train: int, strips: int)
    requires
        n_train >= 1,
        strips >= 1,
    ensures
        strip_len(n_train, strips) % 64 == 0,
        strips * strip_len(n_train, strips) >= n_train,
        strips * (strip_len(n_train, strips) - 64) < n_train,
{
    let share = ceil_div_int(n_train, strips);
    crate::arith::lemma_ceil_div_brackets(n_train, strips);
    crate::arith::lemma_ceil_div_brackets(share, 64);
    let blocks = ceil_div_int(share, 64);
    assert(strips * (blocks * 64) >= n_train && strips * (blocks * 64 - 64) < n_train)
        by (nonlinear_arith)
        requires
            blocks * 64 >= share,
            (blocks - 1) * 64 < share,
            share * strips >= n_train,
            (share - 1) * strips < n_train,
            strips >= 1,
    ;
    vstd::arithmetic::div_mod::lemma_mod_multiples_basic(blocks, 64);
}

/// A merge cube is the widest power of two that its candidates fill, up to 256.
pub proof fn lemma_merge_width(cols: int)
    ensures
        1 <= merge_width(cols) <= 256,
        cols >= 1 ==> merge_width(cols) <= cols,
        merge_width(cols) < 256 ==> cols < 2 * merge_width(cols),
        256int % merge_width(cols) as int == 0,
{
    let w = merge_width(cols) as int;
    assert(256int % w == 0) by (nonlinear_arith)
        requires
            w == 1 || w == 2 || w == 4 || w == 8 || w == 16 || w == 32 || w == 64 || w == 128 || w
                == 256,
    ;
}

/// A fused search is accepted exactly where both matrices are full and share
/// their features, `k` is a count of training rows up to 16, and the sizes fit a
/// launch.
pub proof fn lemma_fused_accepted(
    xq_len: usize,
    n_query: usize,
    n_features: usize,
    train_len: usize,
    n_train: usize,
    n_features_t: usize,
    k: usize,
)
    ensures
        fused_fault(xq_len, n_query, n_features, train_len, n_train, n_features_t, k) is None <==> {
            &&& n_features == n_features_t
            &&& xq_len == n_query * n_features && train_len == n_train * n_features
            &&& 1 <= k <= n_train && k <= 16
            &&& n_query <= 65_535 * 64 && n_train <= u32::MAX && n_features <= u32::MAX
        },
{
}

/// A fused search expands into norms exactly for rows of up to 32 features, and
/// not where the direct flag alone asks for direct sums.
pub proof fn lemma_fused_kernel_choice(
    n_features: usize,
    backend: Backend,
    dot_flag: Option<&str>,
    direct_flag: Option<&str>,
    vec8_flag: Option<&str>,
    vec_flag: Option<&str>,
)
    ensures
        fused_kernel(n_features, backend, dot_flag, direct_flag, vec8_flag, vec_flag)
            == FusedKernel::Direct <==> n_features > 32 || says(direct_flag, '1') && !says(
            dot_flag,
            '1',
        ),
        fused_kernel(n_features, backend, dot_flag, direct_flag, vec8_flag, vec_flag) matches
            FusedKernel::Dot(v) ==> v == dot_variant(n_features, backend, vec8_flag, vec_flag),
{
}

/// A planned fused search covers everything: a cube for each strip and each 64
/// queries, `k` candidates of each strip for each query, all training rows in
/// the strips, a merge of every query exactly where there are several strips,
/// norms exactly where the kernel expands, and roots exactly where they are
/// asked for. A cube computes 64 by 64 distances whatever its register tile is.
pub proof fn lemma_fused_plan_covers(
    p: FusedPlan,
    kernel: FusedKernel,
    strips: int,
    n_query: usize,
    n_train: usize,
    k: usize,
    sqrt: bool,
    width: u32,
)
    requires
        fused_plan_matches(p, kernel, strips, n_query, n_train, k, sqrt, width),
        1 <= strips <= 64,
        1 <= k <= 16,
        1 <= n_query <= 65_535 * 64,
        1 <= n_train <= u32::MAX,
        width > 0,
    ensures
        p.kernel == kernel,
        p.strips == strips && p.strips * p.strip_len >= n_train,
        p.launch.grid.0 == strips,
        p.launch.grid.1 * 64 >= n_query && (p.launch.grid.1 - 1) * 64 < n_query,
        p.launch.grid.1 <= 65_535,
        p.launch.block.0 * p.launch.block.1 == if kernel == FusedKernel::Dot(DotVariant::Vec8) {
            128int
        } else {
            256int
        },
        p.cand_cols == strips * k,
        p.cand_len == n_query * p.cand_cols,
        p.out_len == n_query * k,
        p.merge is None <==> strips == 1,
        p.merge matches Some(l) ==> l.grid.0 == n_query && l.block.0 <= p.cand_cols,
        p.norms is None <==> kernel == FusedKernel::Direct,
        p.norms matches Some((q, t)) ==> q.cubes() * q.block.0 >= n_query && t.cubes() * t.block.0
            >= n_train,
        p.roots is Some <==> sqrt,
        p.roots matches Some(l) ==> l.cubes() * l.block.0 >= n_query * k,
{
    lemma_strip_len_least(n_train as int, strips);
    crate::arith::lemma_ceil_div_brackets(n_query as int, 64);
    crate::arith::lemma_ceil_div_least(n_query as int, 64, 65_535);
    assert(1 <= strips * k && 0 <= n_query * k <= 65_535 * 64 * 16) by (nonlinear_arith)
        requires
            strips >= 1,
            1 <= k <= 16,
            n_query <= 65_535 * 64,
    ;
    lemma_merge_width(strips * k);
    crate::launch::lemma_launch_covers(n_query as int, width);
    crate::launch::lemma_launch_covers(n_train as int, width);
    crate::launch::lemma_launch_covers(n_query * k, width);
}

/// A refused neighbour mean names the neighbours, the indices, the targets, and then
/// a size beyond 32 bits.
pub proof fn lemma_regress_refusals(
    y_len: usize,
    idx_len: usize,
    n_query: usize,
    k: usize,
    n_train: usize,
)
    ensures
        (k == 0 || n_query == 0) ==> regress_fault(y_len, idx_len, n_query, k, n_train) == Some(
            PrimError::ShapeMismatch { operand: "k", rows: n_query, cols: k, len: idx_len },
        ),
        !(k == 0 || n_query == 0) && idx_len != n_query * k
            ==> regress_fault(y_len, idx_len, n_query, k, n_train) == Some(
            PrimError::ShapeMismatch { operand: "idx", rows: n_query, cols: k, len: idx_len },
        ),
        !(k == 0 || n_query == 0) && idx_len == n_query * k
            && (y_len != n_train || n_train == 0)
            ==> regress_fault(y_len, idx_len, n_query, k, n_train) == Some(
            PrimError::ShapeMismatch { operand: "y_train", rows: n_train, cols: 1, len: y_len },
        ),
        !(k == 0 || n_query == 0) && idx_len == n_query * k
            && !(y_len != n_train || n_train == 0) && n_query > u32::MAX
            ==> regress_fault(y_len, idx_len, n_query, k, n_train) == Some(
            PrimError::ShapeMismatch { operand: "n_query", rows: n_query, cols: 0, len: 0xFFFF_FFFF },
        ),
        !(k == 0 || n_query == 0) && idx_len == n_query * k
            && !(y_len != n_train || n_train == 0) && n_query <= u32::MAX && k > u32::MAX
            ==> regress_fault(y_len, idx_len, n_query, k, n_train) == Some(
            PrimError::ShapeMismatch { operand: "k", rows: k, cols: 0, len: 0xFFFF_FFFF },
        ),
        !(k == 0 || n_query == 0) && idx_len == n_query * k
            && !(y_len != n_train || n_train == 0) && n_query <= u32::MAX && k <= u32::MAX
            && n_train > u32::MAX ==> regress_fault(y_len, idx_len, n_query, k, n_train) == Some(
            PrimError::ShapeMismatch { operand: "n_train", rows: n_train, cols: 0, len: 0xFFFF_FFFF },
        ),
{
}

/// A refused row scan names the queries, the training rows, `k` with the most that it
/// can be, the features, and then a size beyond 32 bits.
pub proof fn lemma_row_scan_refusals(
    xq_len: usize,
    n_query: usize,
    n_features: usize,
    train_len: usize,
    n_train: usize,
    k: usize,
    limits: RowScanLimits,
)
    ensures
        xq_len != n_query * n_features
            ==> rows_fault(xq_len, n_query, n_features, train_len, n_train, k, limits) == Some(
            PrimError::ShapeMismatch { operand: "x", rows: n_query, cols: n_features, len: xq_len },
        ),
        xq_len == n_query * n_features && train_len != n_train * n_features
            ==> rows_fault(xq_len, n_query, n_features, train_len, n_train, k, limits) == Some(
            PrimError::ShapeMismatch { operand: "y", rows: n_train, cols: n_features, len: train_len },
        ),
        xq_len == n_query * n_features && train_len == n_train * n_features
            && ((k == 0 || k > n_train || k > limits.k_cap) && n_train <= limits.k_cap)
            ==> rows_fault(xq_len, n_query, n_features, train_len, n_train, k, limits) == Some(
            PrimError::ShapeMismatch { operand: "k", rows: 1, cols: k, len: n_train },
        ),
        xq_len == n_query * n_features && train_len == n_train * n_features
            && !((k == 0 || k > n_train || k > limits.k_cap) && n_train <= limits.k_cap)
            && (k == 0 || k > n_train || k > limits.k_cap)
            ==> rows_fault(xq_len, n_query, n_features, train_len, n_train, k, limits) == Some(
            PrimError::ShapeMismatch { operand: "k", rows: 1, cols: k, len: limits.k_cap as usize },
        ),
        xq_len == n_query * n_features && train_len == n_train * n_features
            && !((k == 0 || k > n_train || k > limits.k_cap) && n_train <= limits.k_cap)
            && !(k == 0 || k > n_train || k > limits.k_cap)
            && (n_features == 0 || n_features > limits.max_cols)
            ==> rows_fault(xq_len, n_query, n_features, train_len, n_train, k, limits) == Some(
            PrimError::ShapeMismatch { operand: "features", rows: n_features, cols: 0, len: limits.max_cols as usize },
        ),
        xq_len == n_query * n_features && train_len == n_train * n_features
            && !((k == 0 || k > n_train || k > limits.k_cap) && n_train <= limits.k_cap)
            && !(k == 0 || k > n_train || k > limits.k_cap)
            && !(n_features == 0 || n_features > limits.max_cols) && n_query > u32::MAX
            ==> rows_fault(xq_len, n_query, n_features, train_len, n_train, k, limits) == Some(
            PrimError::ShapeMismatch { operand: "rows", rows: n_query, cols: 0, len: 0xFFFF_FFFF },
        ),
        xq_len == n_query * n_features && train_len == n_train * n_features
            && !((k == 0 || k > n_train || k > limits.k_cap) && n_train <= limits.k_cap)
            && !(k == 0 || k > n_train || k > limits.k_cap)
            && !(n_features == 0 || n_features > limits.max_cols) && n_query <= u32::MAX
            && n_train > u32::MAX
            ==> rows_fault(xq_len, n_query, n_features, train_len, n_train, k, limits) == Some(
            PrimError::ShapeMismatch { operand: "cols", rows: n_train, cols: 0, len: 0xFFFF_FFFF },
        ),
{
}

/// A refused fused search names the features that differ, the queries, the training
/// rows, `k`, too many queries, and then a size beyond 32 bits.
pub proof fn lemma_fused_refusals(
    xq_len: usize,
    n_query: usize,
    n_features: usize,
    train_len: usize,
    n_train: usize,
    n_features_t: usize,
    k: usize,
)
    ensures
        n_features != n_features_t
            ==> fused_fault(xq_len, n_query, n_features, train_len, n_train, n_features_t, k) == Some(
            PrimError::DimMismatch { dim: "cols", lhs: n_features, rhs: n_features_t },
        ),
        n_features == n_features_t && xq_len != n_query * n_features
            ==> fused_fault(xq_len, n_query, n_features, train_len, n_train, n_features_t, k) == Some(
            PrimError::ShapeMismatch { operand: "x", rows: n_query, cols: n_features, len: xq_len },
        ),
        n_features == n_features_t && xq_len == n_query * n_features
            && train_len != n_train * n_features
            ==> fused_fault(xq_len, n_query, n_features, train_len, n_train, n_features_t, k) == Some(
            PrimError::ShapeMismatch { operand: "y", rows: n_train, cols: n_features, len: train_len },
        ),
        n_features == n_features_t && xq_len == n_query * n_features
            && train_len == n_train * n_features
            && ((k == 0 || k > n_train || k > 16) && n_train <= 16)
            ==> fused_fault(xq_len, n_query, n_features, train_len, n_train, n_features_t, k) == Some(
            PrimError::ShapeMismatch { operand: "k", rows: 1, cols: k, len: n_train },
        ),
        n_features == n_features_t && xq_len == n_query * n_features
            && train_len == n_train * n_features
            && !((k == 0 || k > n_train || k > 16) && n_train <= 16)
            && (k == 0 || k > n_train || k > 16)
            ==> fused_fault(xq_len, n_query, n_features, train_len, n_train, n_features_t, k) == Some(
            PrimError::ShapeMismatch { operand: "k", rows: 1, cols: k, len: 16 },
        ),
        n_features == n_features_t && xq_len == n_query * n_features
            && train_len == n_train * n_features
            && !((k == 0 || k > n_train || k > 16) && n_train <= 16)
            && !(k == 0 || k > n_train || k > 16) && n_query > 4_194_240
            ==> fused_fault(xq_len, n_query, n_features, train_len, n_train, n_features_t, k) == Some(
            PrimError::ShapeMismatch { operand: "n_query", rows: n_query, cols: 0, len: 4_194_240 },
        ),
        n_features == n_features_t && xq_len == n_query * n_features
            && train_len == n_train * n_features
            && !((k == 0 || k > n_train || k > 16) && n_train <= 16)
            && !(k == 0 || k > n_train || k > 16) && n_query <= 4_194_240 && n_train > u32::MAX
            ==> fused_fault(xq_len, n_query, n_features, train_len, n_train, n_features_t, k) == Some(
            PrimError::ShapeMismatch { operand: "cols", rows: n_train, cols: 0, len: 0xFFFF_FFFF },
        ),
        n_features == n_features_t && xq_len == n_query * n_features
            && train_len == n_train * n_features
            && !((k == 0 || k > n_train || k > 16) && n_train <= 16)
            && !(k == 0 || k > n_train || k > 16) && n_query <= 4_194_240 && n_train <= u32::MAX
            && n_features > u32::MAX
            ==> fused_fault(xq_len, n_query, n_features, train_len, n_train, n_features_t, k) == Some(
            PrimError::ShapeMismatch { operand: "features", rows: n_features, cols: 0, len: 0xFFFF_FFFF },
        ),
{
}

} // verus!
