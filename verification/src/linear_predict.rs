//! Linear prediction: operand checks, the choice between host and device and
//! between kernels, the split of rows over workers, and the finiteness verdict.

use crate::arith::{
    ceil_div, ceil_div_int, clamp_int, clamp_usize, max_usize, min_usize, product_is, sat_mul_int,
    saturating_mul,
};
use crate::backend::Backend;
use crate::chunks::{
    are_chunks, chunk_bounds, chunk_hi, chunk_lo, join_parts, joined_parts, lemma_chunks_join,
};
use crate::error::{shape_error, shape_mismatch, verdict, PrimError};
use crate::flag::{flag_text, is_zero_text, text_is_zero};
use crate::float_order::{magnitude64, INF64, SIGN32, SIGN64};
use crate::launch::{
    cube_dims, folded_dims, launch_cubes, launch_dims_1d_folded, LaunchDims,
};
use vstd::prelude::*;

verus! {

/// Why a prediction is refused.
pub open spec fn predict_fault(
    x_len: usize,
    m: usize,
    n: usize,
    coef_len: usize,
    bias_len: usize,
) -> Option<PrimError> {
    if m == 0 || n == 0 || m * n != x_len {
        Some(shape_error("x", m, n, x_len))
    } else if coef_len != n {
        Some(PrimError::DimMismatch { dim: "n_features", lhs: coef_len, rhs: n })
    } else if bias_len == 0 {
        Some(shape_error("bias", 1, 1, bias_len))
    } else {
        None
    }
}

/// Refuses the operands of a prediction of `m` rows with `n` features.
pub fn validate_geometry(x_len: usize, m: usize, n: usize, coef_len: usize, bias_len: usize) -> (r:
    Result<(), PrimError>)
    ensures
        r == verdict(predict_fault(x_len, m, n, coef_len, bias_len)),
{
    if m == 0 || n == 0 || !product_is(m, n, x_len) {
        return Err(shape_mismatch("x", m, n, x_len));
    }
    if coef_len != n {
        return Err(PrimError::DimMismatch { dim: "n_features", lhs: coef_len, rhs: n });
    }
    if bias_len == 0 {
        return Err(shape_mismatch("bias", 1, 1, bias_len));
    }
    Ok(())
}

// ---------------------------------------------------------------------------
// Device prediction
// ---------------------------------------------------------------------------

/// The limits that the shared-tile kernel is compiled with.
#[derive(Debug, Clone, Copy, PartialEq, Eq)]
pub struct SharedTile {
    /// Rows of one cube.
    pub rows_per_block: u32,
    /// Entries of the tile.
    pub elems: usize,
    /// The features from which the tile pays.
    pub min_features: u32,
    /// The most features that it holds.
    pub max_features: u32,
}

/// Whether the shared tile is used: on the one backend where it pays, unless
/// the gather is asked for, within its feature band, and where it fits the
/// adapter's shared memory.
pub open spec fn shared_used(
    n: usize,
    elem_size: usize,
    backend: Backend,
    gather_flag: bool,
    tile: SharedTile,
    max_shared_memory: usize,
) -> bool {
    backend == Backend::Wgpu && !gather_flag && tile.min_features <= n <= tile.max_features
        && tile.elems * elem_size <= max_shared_memory
}

/// Whether the shared tile is used.
pub fn use_shared_predict(
    n: usize,
    elem_size: usize,
    backend: Backend,
    gather_flag: bool,
    tile: SharedTile,
    max_shared_memory: usize,
) -> (r: bool)
    ensures
        r == shared_used(n, elem_size, backend, gather_flag, tile, max_shared_memory),
{
    if backend != Backend::Wgpu || gather_flag {
        return false;
    }
    match tile.elems.checked_mul(elem_size) {
        Some(bytes) => n >= tile.min_features as usize && n <= tile.max_features as usize && bytes
            <= max_shared_memory,
        None => false,
    }
}

/// A planned device prediction.
#[derive(Debug, Clone, Copy, PartialEq, Eq)]
pub enum PredictPlan {
    /// One cube for each block of rows.
    Shared { nblocks: usize, launch: LaunchDims },
    /// One unit for each row.
    Gather { launch: LaunchDims },
}

/// Plans a device prediction; `width` is the cube width of the gather. The
/// launch takes 32-bit counts, and reads the rows as such.
pub fn linear_predict_plan(
    x_len: usize,
    m: usize,
    n: usize,
    coef_len: usize,
    bias_len: usize,
    elem_size: usize,
    backend: Backend,
    gather_flag: bool,
    tile: SharedTile,
    max_shared_memory: usize,
    width: u32,
) -> (r: Result<PredictPlan, PrimError>)
    requires
        width > 0,
        tile.rows_per_block > 0,
    ensures
        match predict_fault(x_len, m, n, coef_len, bias_len) {
            Some(e) => r == Err::<PredictPlan, PrimError>(e),
            None => r == Ok::<PredictPlan, PrimError>(
                if shared_used(n, elem_size, backend, gather_flag, tile, max_shared_memory) {
                    let nblocks = ceil_div_int(m as int, tile.rows_per_block as int);
                    PredictPlan::Shared {
                        nblocks: nblocks as usize,
                        launch: cube_dims(
                            vstd::math::max(1, ((nblocks as usize) as u32) as int),
                            tile.rows_per_block,
                        ),
                    }
                } else {
                    PredictPlan::Gather { launch: folded_dims((m as u32) as int, width) }
                },
            ),
        },
{
    match validate_geometry(x_len, m, n, coef_len, bias_len) {
        Err(e) => {
            return Err(e);
        },
        Ok(()) => {},
    }
    if use_shared_predict(n, elem_size, backend, gather_flag, tile, max_shared_memory) {
        let nblocks: usize = ceil_div(m, tile.rows_per_block as usize);
        return Ok(
            PredictPlan::Shared { nblocks, launch: launch_cubes(nblocks, tile.rows_per_block) },
        );
    }
    Ok(PredictPlan::Gather { launch: launch_dims_1d_folded(m, width) })
}

// ---------------------------------------------------------------------------
// Host prediction
// ---------------------------------------------------------------------------

/// Elements that a worker must be given before it pays.
pub const HOST_ELEMS_PER_UNIT: usize = 262_144;

/// The workers for `elems` elements: one for each share of work, within the
/// machine.
pub open spec fn units_for(elems: int, machine_units: u32) -> int {
    clamp_int(
        elems / (HOST_ELEMS_PER_UNIT as int),
        1,
        vstd::math::max(machine_units as int, 1),
    )
}

/// The workers for `elems` elements.
pub fn host_units(elems: usize, machine_units: u32) -> (r: usize)
    ensures
        r == units_for(elems as int, machine_units),
        r >= 1,
{
    clamp_usize(elems / HOST_ELEMS_PER_UNIT, 1, max_usize(machine_units as usize, 1))
}

/// The rows of each worker of a prediction of `m` rows: consecutive, in even
/// shares. A stated number of workers wins over the one that the work suggests.
pub fn predict_slabs(m: usize, n: usize, units: Option<usize>, machine_units: u32) -> (r: Vec<
    (usize, usize),
>)
    requires
        m >= 1,
        m * n <= usize::MAX,
    ensures
        ({
            let u = vstd::math::max(
                match units {
                    Some(u) => u as int,
                    None => units_for(m * n, machine_units),
                },
                1,
            );
            are_chunks(r@, m as int, ceil_div_int(m as int, u)) && 1 <= r.len() <= u
        }),
        exists|size: int| size >= 1 && #[trigger] are_chunks(r@, m as int, size),
        forall|b: int| 0 <= b < r.len() ==> (#[trigger] r[b]).0 < r[b].1 <= m,
{
    let wanted: usize = match units {
        Some(u) => u,
        None => host_units(m * n, machine_units),
    };
    let u: usize = max_usize(wanted, 1);
    proof {
        crate::chunks::lemma_share_count(m as int, u as int);
    }
    chunk_bounds(m, ceil_div(m, u))
}

/// What a host prediction gives: the predictions, which mean something only
/// where every element of the operand is finite.
pub struct HostPrediction<F> {
    pub values: Vec<F>,
    pub operand_finite: bool,
}

/// Whether a 64-bit pattern is neither infinite nor NaN.
pub open spec fn finite64(b: u64) -> bool {
    magnitude64(b) < INF64
}

/// The pattern of 32-bit infinity.
pub const INF32: u32 = 0x7F80_0000;

/// Whether a 32-bit pattern is neither infinite nor NaN.
pub open spec fn finite32(b: u32) -> bool {
    if b >= SIGN32 {
        b - SIGN32 < INF32
    } else {
        b < INF32
    }
}

/// Whether all entries from `lo` to `hi` are finite.
pub open spec fn all_finite_in(x: Seq<u64>, lo: int, hi: int) -> bool {
    forall|i: int| lo <= i < hi ==> finite64(#[trigger] x[i])
}

/// Whether the entries from `lo` to `hi` are all finite.
pub fn row_all_finite(x: &[u64], lo: usize, hi: usize) -> (r: bool)
    requires
        lo <= hi <= x@.len(),
    ensures
        r == all_finite_in(x@, lo as int, hi as int),
{
    let mut ok: bool = true;
    let mut i: usize = lo;
    while i < hi
        invariant
            lo <= i <= hi <= x@.len(),
            ok == all_finite_in(x@, lo as int, i as int),
        decreases hi - i,
    {
        let b: u64 = x[i];
        let finite: bool = if b >= SIGN64 {
            b - SIGN64 < INF64
        } else {
            b < INF64
        };
        assert(finite == finite64(x@[i as int]));
        ok = ok && finite;
        i = i + 1;
    }
    ok
}

/// Whether every element of a 64-bit operand is finite. The operand is scanned
/// share by share; how many shares there are makes no difference.
pub fn operand_all_finite(x: &[u64], machine_units: u32) -> (r: bool)
    ensures
        r == all_finite_in(x@, 0, x@.len() as int),
{
    let len: usize = x.len();
    let units: usize = host_units(len, machine_units);
    if units <= 1 || len == 0 {
        return row_all_finite(x, 0, len);
    }
    proof {
        crate::chunks::lemma_share_count(len as int, units as int);
    }
    let share: usize = ceil_div(len, units);
    let chunks: Vec<(usize, usize)> = chunk_bounds(len, share);
    let mut ok: bool = true;
    let mut c: usize = 0;
    let ghost mut done: int = 0;
    while c < chunks.len()
        invariant
            c <= chunks.len(),
            len == x@.len(),
            share >= 1,
            are_chunks(chunks@, len as int, share as int),
            forall|b: int| 0 <= b < chunks.len() ==> (#[trigger] chunks[b]).0 < chunks[b].1 <= len,
            0 <= done <= len,
            c < chunks.len() ==> done == chunk_lo(share as int, c as int),
            c == chunks.len() && c > 0 ==> done == chunk_hi(
                len as int,
                share as int,
                c as int - 1,
            ),
            c == 0 ==> done == 0,
            ok == all_finite_in(x@, 0, done),
        decreases chunks.len() - c,
    {
        let (lo, hi): (usize, usize) = chunks[c];
        let part: bool = row_all_finite(x, lo, hi);
        proof {
            assert(lo == done);
            assert((ok && part) == all_finite_in(x@, 0, hi as int)) by {
                if ok && part {
                    assert(all_finite_in(x@, 0, hi as int));
                }
            }
            done = hi as int;
            if c + 1 < chunks.len() {
                assert(chunks[c + 1].0 == chunk_lo(share as int, c + 1));
                assert(chunks[c + 1].0 < len);
                assert(((c as int) + 1) * share == chunk_lo(share as int, c + 1));
            }
        }
        ok = ok && part;
        c = c + 1;
    }
    proof {
        crate::arith::lemma_ceil_div_brackets(len as int, share as int);
        let count = chunks.len() as int;
        assert(count >= 1) by (nonlinear_arith)
            requires
                count * share >= len,
                len >= 1,
                share >= 1,
        ;
        assert(done == len);
    }
    ok
}

/// The predictions of the rows from `lo` to `hi`, where `value` gives each row's.
pub open spec fn rows_predicted<F>(value: spec_fn(int) -> F, lo: int, hi: int) -> Seq<F> {
    Seq::new((hi - lo) as nat, |i: int| value(lo + i))
}

/// Whether each worker holds one prediction for each of its rows.
pub open spec fn parts_fill<F>(parts: Seq<Vec<F>>, slabs: Seq<(usize, usize)>) -> bool {
    &&& parts.len() == slabs.len()
    &&& forall|b: int|
        0 <= b < parts.len() ==> (#[trigger] parts[b])@.len() == slabs[b].1 - slabs[b].0
}

proof fn lemma_parts_len<F>(parts: Seq<Vec<F>>, slabs: Seq<(usize, usize)>, m: int, size: int)
    requires
        size >= 1,
        m >= 0,
        are_chunks(slabs, m, size),
        parts_fill(parts, slabs),
    ensures
        joined_parts(parts, parts.len()).len() == m,
{
    lemma_prefix_len(parts, slabs, m, size, parts.len());
    crate::arith::lemma_ceil_div_brackets(m, size);
}

proof fn lemma_prefix_len<F>(
    parts: Seq<Vec<F>>,
    slabs: Seq<(usize, usize)>,
    m: int,
    size: int,
    k: nat,
)
    requires
        size >= 1,
        m >= 0,
        are_chunks(slabs, m, size),
        parts_fill(parts, slabs),
        k <= parts.len(),
    ensures
        joined_parts(parts, k).len() == vstd::math::min(k * size, m),
    decreases k,
{
    crate::arith::lemma_ceil_div_brackets(m, size);
    if k == 0 {
        assert(0 * size == 0) by (nonlinear_arith);
    } else {
        let j = k - 1;
        let count = ceil_div_int(m, size);
        lemma_prefix_len(parts, slabs, m, size, j as nat);
        assert(0 <= j * size < m && k * size == j * size + size) by (nonlinear_arith)
            requires
                j == k - 1,
                0 <= j <= count - 1,
                (count - 1) * size < m || count == 0,
                size >= 1,
        ;
        assert(parts[j]@.len() == slabs[j].1 - slabs[j].0);
        assert(slabs[j].0 == chunk_lo(size, j));
    }
}

/// The prediction that the workers' parts make up, with the verdict on the
/// operand: there is one value for each of the `m` rows.
pub fn host_prediction<F: Copy>(
    parts: &Vec<Vec<F>>,
    slabs: &Vec<(usize, usize)>,
    m: usize,
    x: &[u64],
    machine_units: u32,
) -> (r: HostPrediction<F>)
    requires
        exists|size: int| size >= 1 && #[trigger] are_chunks(slabs@, m as int, size),
        parts_fill(parts@, slabs@),
    ensures
        r.values@ == joined_parts(parts@, parts@.len()),
        r.values.len() == m,
        r.operand_finite == all_finite_in(x@, 0, x@.len() as int),
{
    proof {
        let size = choose|size: int| size >= 1 && #[trigger] are_chunks(slabs@, m as int, size);
        lemma_parts_len(parts@, slabs@, m as int, size);
    }
    HostPrediction {
        values: join_parts(parts),
        operand_finite: operand_all_finite(x, machine_units),
    }
}

/// How many workers share a prediction does not show: whatever the value of each
/// row is, and however the rows are cut, workers that predict their own rows
/// give together the values of all rows in order.
pub proof fn lemma_workers_invisible<F>(
    value: spec_fn(int) -> F,
    m: nat,
    parts1: Seq<Vec<F>>,
    slabs1: Seq<(usize, usize)>,
    size1: int,
    parts2: Seq<Vec<F>>,
    slabs2: Seq<(usize, usize)>,
    size2: int,
)
    requires
        size1 >= 1,
        size2 >= 1,
        are_chunks(slabs1, m as int, size1),
        are_chunks(slabs2, m as int, size2),
        parts1.len() == slabs1.len(),
        parts2.len() == slabs2.len(),
        forall|b: int|
            0 <= b < parts1.len() ==> (#[trigger] parts1[b])@ == rows_predicted(
                value,
                slabs1[b].0 as int,
                slabs1[b].1 as int,
            ),
        forall|b: int|
            0 <= b < parts2.len() ==> (#[trigger] parts2[b])@ == rows_predicted(
                value,
                slabs2[b].0 as int,
                slabs2[b].1 as int,
            ),
    ensures
        joined_parts(parts1, parts1.len()) == rows_predicted(value, 0, m as int),
        joined_parts(parts1, parts1.len()) == joined_parts(parts2, parts2.len()),
{
    lemma_rows_join(value, m, parts1, slabs1, size1);
    lemma_rows_join(value, m, parts2, slabs2, size2);
}

proof fn lemma_rows_join<F>(
    value: spec_fn(int) -> F,
    m: nat,
    parts: Seq<Vec<F>>,
    slabs: Seq<(usize, usize)>,
    size: int,
)
    requires
        size >= 1,
        are_chunks(slabs, m as int, size),
        parts.len() == slabs.len(),
        forall|b: int|
            0 <= b < parts.len() ==> (#[trigger] parts[b])@ == rows_predicted(
                value,
                slabs[b].0 as int,
                slabs[b].1 as int,
            ),
    ensures
        joined_parts(parts, parts.len()) == rows_predicted(value, 0, m as int),
{
    let whole = rows_predicted(value, 0, m as int);
    crate::arith::lemma_ceil_div_brackets(m as int, size);
    let count = ceil_div_int(m as int, size);
    assert forall|i: int| 0 <= i < parts.len() implies (#[trigger] parts[i])@ == whole.subrange(
        chunk_lo(size, i),
        chunk_hi(m as int, size, i),
    ) by {
        assert(slabs[i].0 == chunk_lo(size, i));
        assert(0 <= i * size < m && (i + 1) * size == i * size + size) by (nonlinear_arith)
            requires
                0 <= i <= count - 1,
                (count - 1) * size < m || count == 0,
                size >= 1,
        ;
        assert(parts[i]@ =~= whole.subrange(chunk_lo(size, i), chunk_hi(m as int, size, i)));
    }
    lemma_chunks_join(parts, 0, whole, size, parts.len());
    assert(joined_parts(parts, 0) + whole =~= whole);
}

/// Whether every element of a 32-bit operand is finite.
pub fn operand_all_finite_f32(x: &[u32]) -> (r: bool)
    ensures
        r == forall|i: int| 0 <= i < x@.len() ==> finite32(#[trigger] x@[i]),
{
    let mut ok: bool = true;
    let mut i: usize = 0;
    while i < x.len()
        invariant
            i <= x@.len(),
            ok == forall|j: int| 0 <= j < i ==> finite32(#[trigger] x@[j]),
        decreases x@.len() - i,
    {
        let b: u32 = x[i];
        let finite: bool = if b >= SIGN32 {
            b - SIGN32 < INF32
        } else {
            b < INF32
        };
        assert(finite == finite32(x@[i as int]));
        ok = ok && finite;
        i = i + 1;
    }
    ok
}

/// A host copy of fitted coefficients, read back at most once.
pub struct HostMirror<F> {
    cell: Option<(Vec<F>, F)>,
}

impl<F> HostMirror<F> {
    /// The coefficients and the bias, once they were read.
    pub closed spec fn held(self) -> Option<(Seq<F>, F)> {
        match self.cell {
            Some((coef, bias)) => Some((coef@, bias)),
            None => None,
        }
    }

    /// An empty mirror.
    pub fn new() -> (r: HostMirror<F>)
        ensures
            r.held() is None,
    {
        HostMirror { cell: None }
    }

    /// Whether the coefficients still have to be read.
    pub fn is_empty(&self) -> (r: bool)
        ensures
            r == (self.held() is None),
    {
        match &self.cell {
            Some(_) => false,
            None => true,
        }
    }

    /// Takes what was read, unless something was read before: a mirror never
    /// changes once it holds something.
    pub fn fill(&mut self, coef: Vec<F>, bias: F)
        ensures
            final(self).held() == match old(self).held() {
                Some(h) => Some(h),
                None => Some((coef@, bias)),
            },
    {
        if self.is_empty() {
            self.cell = Some((coef, bias));
        }
    }

    /// What the mirror holds.
    pub fn get(&self) -> (r: Option<(&Vec<F>, &F)>)
        ensures
            match r {
                Some((coef, bias)) => self.held() == Some((coef@, *bias)),
                None => self.held() is None,
            },
    {
        match &self.cell {
            Some((coef, bias)) => Some((coef, bias)),
            None => None,
        }
    }
}

impl<F> Default for HostMirror<F> {
    fn default() -> (r: HostMirror<F>)
        ensures
            r.held() is None,
    {
        HostMirror::new()
    }
}

/// How a prediction from a host operand is made.
#[derive(Debug, Clone, Copy, PartialEq, Eq)]
pub enum PredictRoute {
    /// On the host, straight from the operand.
    Host,
    /// Not at all: the operand is not finite, and nothing is uploaded.
    Rejected,
    /// On the device.
    Device,
}

/// Chooses how a prediction from a host operand is made; `operand_finite` is
/// the verdict on the operand.
pub fn predict_route(
    x_len: usize,
    m: usize,
    n: usize,
    coef_len: usize,
    bias_len: usize,
    cpu_backend: bool,
    operand_finite: bool,
) -> (r: Result<PredictRoute, PrimError>)
    ensures
        match predict_fault(x_len, m, n, coef_len, bias_len) {
            Some(e) => r == Err::<PredictRoute, PrimError>(e),
            None => r == Ok::<PredictRoute, PrimError>(
                if cpu_backend {
                    PredictRoute::Host
                } else if operand_finite {
                    PredictRoute::Device
                } else {
                    PredictRoute::Rejected
                },
            ),
        },
{
    match validate_geometry(x_len, m, n, coef_len, bias_len) {
        Err(e) => {
            return Err(e);
        },
        Ok(()) => {},
    }
    if cpu_backend {
        Ok(PredictRoute::Host)
    } else if operand_finite {
        Ok(PredictRoute::Device)
    } else {
        Ok(PredictRoute::Rejected)
    }
}

// ---------------------------------------------------------------------------
// Predictive deviation
// ---------------------------------------------------------------------------

/// Multiply-adds that one launch may take.
pub const STD_MACS_PER_LAUNCH: usize = 268_435_456;

/// Rows of one unit.
pub const STD_ROWS_PER_UNIT: usize = 4;

/// Rows of one block of the host deviation.
pub const STD_ROW_BLOCK: usize = 32;

/// The features from which the device computes deviations.
pub const STD_DEVICE_MIN_FEATURES: usize = 128;

/// Why a deviation is refused.
pub open spec fn std_fault(
    x_len: usize,
    n: usize,
    d: usize,
    offset_len: usize,
    mt_len: usize,
) -> Option<PrimError> {
    if n == 0 || d == 0 || n * d != x_len {
        Some(shape_error("x", n, d, x_len))
    } else if offset_len != d {
        Some(PrimError::DimMismatch { dim: "n_features", lhs: offset_len, rhs: d })
    } else if mt_len != d * d {
        Some(shape_error("mt", d, d, mt_len))
    } else {
        None
    }
}

/// Refuses the operands of a deviation of `n` rows with `d` features.
pub fn validate_std(x_len: usize, n: usize, d: usize, offset_len: usize, mt_len: usize) -> (r:
    Result<(), PrimError>)
    ensures
        r == verdict(std_fault(x_len, n, d, offset_len, mt_len)),
{
    match validate_geometry(x_len, n, d, offset_len, 1) {
        Err(e) => {
            return Err(e);
        },
        Ok(()) => {},
    }
    if !product_is(d, d, mt_len) {
        return Err(shape_mismatch("mt", d, d, mt_len));
    }
    Ok(())
}

/// Row tiles of one launch: what the multiply-adds allow, and at least one.
pub open spec fn std_chunk(d: int) -> int {
    vstd::math::max(
        1,
        (STD_MACS_PER_LAUNCH as int) / vstd::math::max(
            1,
            sat_mul_int(sat_mul_int(d, d), STD_ROWS_PER_UNIT as int),
        ),
    )
}

/// One launch of a deviation: the first row tile, and how many.
#[derive(Debug, Clone, Copy, PartialEq, Eq)]
pub struct StdLaunch {
    pub tile0: usize,
    pub tiles: usize,
    pub launch: LaunchDims,
}

/// Plans the launches of a deviation: consecutive runs of row tiles, each within
/// the multiply-adds of one launch. A launch reads its tiles as a 32-bit count.
pub fn bayes_predict_std_plan(
    x_len: usize,
    n: usize,
    d: usize,
    offset_len: usize,
    mt_len: usize,
    width: u32,
) -> (r: Result<Vec<StdLaunch>, PrimError>)
    requires
        width > 0,
    ensures
        match std_fault(x_len, n, d, offset_len, mt_len) {
            Some(e) => r is Err && r->Err_0 == e,
            None => {
                let tiles = ceil_div_int(n as int, STD_ROWS_PER_UNIT as int);
                let chunk = std_chunk(d as int);
                r matches Ok(v) && v.len() == ceil_div_int(tiles, chunk) && forall|i: int|
                    0 <= i < v.len() ==> (#[trigger] v[i]).tile0 == chunk_lo(chunk, i)
                        && v[i].tiles == chunk_hi(tiles, chunk, i) - chunk_lo(chunk, i)
                        && v[i].launch == folded_dims((v[i].tiles as u32) as int, width)
            },
        },
{
    match validate_std(x_len, n, d, offset_len, mt_len) {
        Err(e) => {
            return Err(e);
        },
        Ok(()) => {},
    }
    let tiles: usize = ceil_div(n, STD_ROWS_PER_UNIT);
    proof {
        crate::arith::lemma_ceil_div_brackets(n as int, 4);
    }
    let macs: usize = max_usize(saturating_mul(saturating_mul(d, d), STD_ROWS_PER_UNIT), 1);
    let chunk: usize = max_usize(STD_MACS_PER_LAUNCH / macs, 1);
    assert(chunk == std_chunk(d as int));
    let runs: Vec<(usize, usize)> = chunk_bounds(tiles, chunk);
    let mut out: Vec<StdLaunch> = Vec::new();
    let mut i: usize = 0;
    while i < runs.len()
        invariant
            i <= runs.len(),
            width > 0,
            are_chunks(runs@, tiles as int, chunk as int),
            forall|b: int| 0 <= b < runs.len() ==> (#[trigger] runs[b]).0 < runs[b].1 <= tiles,
            out.len() == i,
            forall|k: int|
                0 <= k < i ==> (#[trigger] out[k]).tile0 == chunk_lo(chunk as int, k)
                    && out[k].tiles == chunk_hi(tiles as int, chunk as int, k) - chunk_lo(
                    chunk as int,
                    k,
                ) && out[k].launch == folded_dims((out[k].tiles as u32) as int, width),
        decreases runs.len() - i,
    {
        let (lo, hi): (usize, usize) = runs[i];
        out.push(
            StdLaunch {
                tile0: lo,
                tiles: hi - lo,
                launch: launch_dims_1d_folded(hi - lo, width),
            },
        );
        i = i + 1;
    }
    Ok(out)
}

/// A launch of a deviation stays within its multiply-adds, unless a single row
/// tile exceeds them.
pub proof fn lemma_std_launch_bounded(d: int, tiles: int)
    requires
        d >= 1,
        1 <= tiles <= std_chunk(d),
    ensures
        tiles == 1 || tiles * sat_mul_int(sat_mul_int(d, d), STD_ROWS_PER_UNIT as int)
            <= STD_MACS_PER_LAUNCH,
{
    let macs = sat_mul_int(sat_mul_int(d, d), STD_ROWS_PER_UNIT as int);
    assert(d * d >= 1) by (nonlinear_arith)
        requires
            d >= 1,
    ;
    let dd = sat_mul_int(d, d);
    assert(dd >= 1 && dd * 4 >= 1);
    assert(macs >= 1);
    if tiles > 1 {
        let q = (STD_MACS_PER_LAUNCH as int) / macs;
        vstd::arithmetic::div_mod::lemma_fundamental_div_mod(STD_MACS_PER_LAUNCH as int, macs);
        assert(tiles * macs <= STD_MACS_PER_LAUNCH) by (nonlinear_arith)
            requires
                tiles <= q,
                STD_MACS_PER_LAUNCH == macs * q + (STD_MACS_PER_LAUNCH as int) % macs,
                (STD_MACS_PER_LAUNCH as int) % macs >= 0,
                macs >= 1,
        ;
    }
}

/// Whether deviations are computed on the host: as the flag says, else on the
/// backends without fast doubles, else for few features.
pub fn use_host_std(d: usize, backend: Backend, host_flag: Option<&str>) -> (r: bool)
    ensures
        r == match flag_text(host_flag) {
            Some(t) => !is_zero_text(t),
            None => backend == Backend::Cpu || backend == Backend::Wgpu || d
                < STD_DEVICE_MIN_FEATURES,
        },
        host_flag is None ==> (r <==> backend == Backend::Cpu || backend == Backend::Wgpu || d
            < 128),
        host_flag is Some ==> (r <==> host_flag->0@ != seq!['0']),
{
    match host_flag {
        Some(v) => {
            return !text_is_zero(v);
        },
        None => {},
    }
    match backend {
        Backend::Cpu | Backend::Wgpu => {
            return true;
        },
        Backend::Cuda | Backend::Rocm | Backend::Other => {},
    }
    d < STD_DEVICE_MIN_FEATURES
}

/// The rows of each worker of a host deviation: consecutive, in even shares,
/// with no worker that has none.
pub fn std_slabs(n: usize, d: usize, machine_units: u32) -> (r: Vec<(usize, usize)>)
    requires
        n >= 1,
        n * d <= usize::MAX,
    ensures
        ({
            let u = vstd::math::min(units_for(n * d, machine_units), n as int);
            are_chunks(r@, n as int, ceil_div_int(n as int, u)) && 1 <= r.len() <= u
        }),
        forall|b: int| 0 <= b < r.len() ==> (#[trigger] r[b]).0 < r[b].1 <= n,
{
    let units: usize = min_usize(host_units(n * d, machine_units), max_usize(n, 1));
    proof {
        crate::chunks::lemma_share_count(n as int, units as int);
    }
    chunk_bounds(n, ceil_div(n, units))
}

/// The row blocks that one worker of a host deviation centers at a time.
pub fn std_blocks(rows: usize) -> (r: Vec<(usize, usize)>)
    ensures
        are_chunks(r@, rows as int, STD_ROW_BLOCK as int),
        forall|b: int| 0 <= b < r.len() ==> (#[trigger] r[b]).0 == b * 32,
{
    chunk_bounds(rows, STD_ROW_BLOCK)
}

// ---------------------------------------------------------------------------
// What the checks and choices amount to
// ---------------------------------------------------------------------------

/// A prediction is accepted exactly where there are rows and features, the
/// operand is full, there is a coefficient for each feature and a bias.
pub proof fn lemma_prediction_accepted(
    x_len: usize,
    m: usize,
    n: usize,
    coef_len: usize,
    bias_len: usize,
)
    ensures
        predict_fault(x_len, m, n, coef_len, bias_len) is None <==> {
            &&& m >= 1 && n >= 1 && x_len == m * n
            &&& coef_len == n && bias_len >= 1
        },
{
}

/// The shared tile is used exactly on wgpu, for a feature count within its band,
/// where it fits the shared memory and the gather is not asked for.
pub proof fn lemma_shared_tile_choice(
    n: usize,
    elem_size: usize,
    backend: Backend,
    gather_flag: bool,
    tile: SharedTile,
    max_shared_memory: usize,
)
    ensures
        shared_used(n, elem_size, backend, gather_flag, tile, max_shared_memory) <==> {
            &&& backend == Backend::Wgpu
            &&& !gather_flag
            &&& n >= tile.min_features && n <= tile.max_features
            &&& max_shared_memory >= tile.elems * elem_size
        },
{
}

/// A prediction takes no more workers than the machine has or than its elements
/// keep busy, and as many as these allow, one at the least.
pub proof fn lemma_workers_for(elems: int, machine_units: u32)
    requires
        elems >= 0,
    ensures
        units_for(elems, machine_units) >= 1,
        units_for(elems, machine_units) > 1 ==> units_for(elems, machine_units) <= machine_units
            && units_for(elems, machine_units) * 262_144 <= elems,
        units_for(elems, machine_units) >= machine_units || (units_for(elems, machine_units) + 1)
            * 262_144 > elems,
{
}

/// A pattern is finite exactly when its exponent is not full: what is not finite
/// is an infinity or not a number.
pub proof fn lemma_finite_pattern(b: u64, c: u32)
    ensures
        finite64(b) <==> (b as int / 0x10_0000_0000_0000) % 0x800 != 0x7FF,
        finite32(c) <==> (c as int / 0x80_0000) % 0x100 != 0xFF,
{
}

/// Entries are finite together exactly when each is: one that is not spoils
/// every range that holds it, and ranges put together are finite where both are.
pub proof fn lemma_finite_ranges(x: Seq<u64>, lo: int, mid: int, hi: int, i: int)
    requires
        lo <= mid <= hi,
    ensures
        all_finite_in(x, lo, hi) <==> all_finite_in(x, lo, mid) && all_finite_in(x, mid, hi),
        lo <= i < hi && !finite64(x[i]) ==> !all_finite_in(x, lo, hi),
        all_finite_in(x, lo, lo),
        all_finite_in(x, lo, lo + 1) <==> finite64(x[lo]),
{
}

/// A deviation is accepted exactly where there are rows and features, the
/// operand is full, there is an offset for each feature and a square matrix.
pub proof fn lemma_deviation_accepted(
    x_len: usize,
    n: usize,
    d: usize,
    offset_len: usize,
    mt_len: usize,
)
    ensures
        std_fault(x_len, n, d, offset_len, mt_len) is None <==> {
            &&& n >= 1 && d >= 1 && x_len == n * d
            &&& offset_len == d && mt_len == d * d
        },
{
}

/// A launch of a deviation takes as many tiles of four rows as its
/// multiply-adds allow, `d` squared for each row, and one at the least.
pub proof fn lemma_deviation_chunk(d: int)
    requires
        d >= 1,
        d * d * 4 <= usize::MAX,
    ensures
        std_chunk(d) >= 1,
        std_chunk(d) > 1 ==> std_chunk(d) * (d * d * 4) <= 268_435_456,
        (std_chunk(d) + 1) * (d * d * 4) > 268_435_456,
{
    let w = d * d * 4;
    assert(d * d >= 1) by (nonlinear_arith)
        requires
            d >= 1,
    ;
    let q = 268_435_456int / w;
    let c = std_chunk(d);
    vstd::arithmetic::div_mod::lemma_fundamental_div_mod(268_435_456, w);
    vstd::arithmetic::div_mod::lemma_mod_bound(268_435_456, w);
    assert(q * w <= 268_435_456 && (c + 1) * w > 268_435_456) by (nonlinear_arith)
        requires
            c >= q,
            268_435_456 == w * q + 268_435_456int % w,
            0 <= 268_435_456int % w < w,
    ;
}

/// A refused prediction names the operand, the coefficients, and then the bias.
pub proof fn lemma_prediction_refusals(
    x_len: usize,
    m: usize,
    n: usize,
    coef_len: usize,
    bias_len: usize,
)
    ensures
        (m == 0 || n == 0 || x_len != m * n)
            ==> predict_fault(x_len, m, n, coef_len, bias_len) == Some(
            PrimError::ShapeMismatch { operand: "x", rows: m, cols: n, len: x_len },
        ),
        !(m == 0 || n == 0 || x_len != m * n) && coef_len != n
            ==> predict_fault(x_len, m, n, coef_len, bias_len) == Some(
            PrimError::DimMismatch { dim: "n_features", lhs: coef_len, rhs: n },
        ),
        !(m == 0 || n == 0 || x_len != m * n) && coef_len == n && bias_len == 0
            ==> predict_fault(x_len, m, n, coef_len, bias_len) == Some(
            PrimError::ShapeMismatch { operand: "bias", rows: 1, cols: 1, len: 0 },
        ),
{
}

/// A refused deviation names the operand, the offsets, and then the matrix.
pub proof fn lemma_deviation_refusals(
    x_len: usize,
    n: usize,
    d: usize,
    offset_len: usize,
    mt_len: usize,
)
    ensures
        (n == 0 || d == 0 || x_len != n * d)
            ==> std_fault(x_len, n, d, offset_len, mt_len) == Some(
            PrimError::ShapeMismatch { operand: "x", rows: n, cols: d, len: x_len },
        ),
        !(n == 0 || d == 0 || x_len != n * d) && offset_len != d
            ==> std_fault(x_len, n, d, offset_len, mt_len) == Some(
            PrimError::DimMismatch { dim: "n_features", lhs: offset_len, rhs: d },
        ),
        !(n == 0 || d == 0 || x_len != n * d) && offset_len == d && mt_len != d * d
            ==> std_fault(x_len, n, d, offset_len, mt_len) == Some(
            PrimError::ShapeMismatch { operand: "mt", rows: d, cols: d, len: mt_len },
        ),
{
}

} // verus!
