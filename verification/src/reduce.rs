//! Reductions: the passes that fold a segment to one value, how an axis is cut
//! into segments, and the combination of per-cube extremes.

use crate::arith::{ceil_div_int, ceil_div_u32, max_u32, product_is};
use crate::error::{shape_error, shape_mismatch, verdict, PrimError};
use crate::float_order::{all_numbers, bits_is_nan, bits_lt, is_nan64, le64, lt64, order_value64};
use crate::matrix::{column, column_of, row_of};
use crate::seqs::block;
use vstd::prelude::*;

verus! {

/// Which reduction kernels are launched.
#[derive(Debug, Clone, Copy, PartialEq, Eq, Structural)]
pub enum ReducePath {
    /// Subgroup shuffles; needs an adapter that has subgroups.
    Plane,
    /// A shared-memory tree; always available.
    Shared,
}

/// What a reduction kernel folds.
#[derive(Debug, Clone, Copy, PartialEq, Eq, Structural)]
pub enum Op {
    Sum,
    Min,
    Max,
    SumSq,
}

/// A reduction along an axis.
#[derive(Debug, Clone, Copy, PartialEq, Eq, Structural)]
pub enum ScalarOp {
    Sum,
    Mean,
    Min,
    Max,
    /// The square root of the sum of squares.
    L2Norm,
    /// The sum of squares.
    SumSq,
}

/// What is done to a folded value.
#[derive(Debug, Clone, Copy, PartialEq, Eq, Structural)]
pub enum Finish {
    AsIs,
    /// Divided by the number of entries, or by one where there are none.
    PerEntry,
    SquareRoot,
}

impl ScalarOp {
    /// The fold that a reduction starts with.
    pub open spec fn fold_op(self) -> Op {
        match self {
            ScalarOp::Sum | ScalarOp::Mean => Op::Sum,
            ScalarOp::Min => Op::Min,
            ScalarOp::Max => Op::Max,
            ScalarOp::L2Norm | ScalarOp::SumSq => Op::SumSq,
        }
    }

    /// The fold that a reduction starts with.
    pub fn into_op(self) -> (r: Op)
        ensures
            r == self.fold_op(),
            self == ScalarOp::Sum ==> r == Op::Sum,
            self == ScalarOp::Mean ==> r == Op::Sum,
            self == ScalarOp::Min ==> r == Op::Min,
            self == ScalarOp::Max ==> r == Op::Max,
            self == ScalarOp::L2Norm ==> r == Op::SumSq,
            self == ScalarOp::SumSq ==> r == Op::SumSq,
    {
        match self {
            ScalarOp::Sum | ScalarOp::Mean => Op::Sum,
            ScalarOp::Min => Op::Min,
            ScalarOp::Max => Op::Max,
            ScalarOp::L2Norm | ScalarOp::SumSq => Op::SumSq,
        }
    }

    /// What a reduction does to the folded value.
    pub fn finish(self) -> (r: Finish)
        ensures
            r == match self {
                ScalarOp::Mean => Finish::PerEntry,
                ScalarOp::L2Norm => Finish::SquareRoot,
                _ => Finish::AsIs,
            },
            r is PerEntry <==> self == ScalarOp::Mean,
            r is SquareRoot <==> self == ScalarOp::L2Norm,
    {
        match self {
            ScalarOp::Sum | ScalarOp::Min | ScalarOp::Max | ScalarOp::SumSq => Finish::AsIs,
            ScalarOp::Mean => Finish::PerEntry,
            ScalarOp::L2Norm => Finish::SquareRoot,
        }
    }
}

/// The most entries that one cube folds.
pub const MAX_CUBE: usize = 256;

/// The smallest power of two that covers `n`, at most 256.
pub open spec fn cube_dim(n: int) -> u32 {
    if n <= 1 {
        1
    } else if n <= 2 {
        2
    } else if n <= 4 {
        4
    } else if n <= 8 {
        8
    } else if n <= 16 {
        16
    } else if n <= 32 {
        32
    } else if n <= 64 {
        64
    } else if n <= 128 {
        128
    } else {
        256
    }
}

/// The width of a cube that folds `n` entries.
pub fn cube_dim_for(n: usize) -> (r: u32)
    ensures
        r == cube_dim(n as int),
{
    let mut d: u32 = 1;
    while (d as usize) < n && (d as usize) < MAX_CUBE
        invariant
            d == cube_dim(d as int),
            1 <= d <= 256,
            d > 1 ==> n > d / 2,
        decreases 256 - d,
    {
        d = d * 2;
    }
    d
}

/// Refuses a matrix whose element count does not match its shape.
pub fn validate_matrix(len: usize, rows: usize, cols: usize) -> (r: Result<(), PrimError>)
    ensures
        r == verdict(
            if rows * cols != len {
                Some(shape_error("input", rows, cols, len))
            } else {
                None
            },
        ),
{
    if !product_is(rows, cols, len) {
        return Err(shape_mismatch("input", rows, cols, len));
    }
    Ok(())
}

/// Whether a reduction is skipped: subgroups are asked for and missing.
pub fn plane_skipped(path: ReducePath, plane_supported: bool) -> (r: bool)
    ensures
        r == (path == ReducePath::Plane && !plane_supported),
{
    path == ReducePath::Plane && !plane_supported
}

// ---------------------------------------------------------------------------
// Axes
// ---------------------------------------------------------------------------

/// The rows of a matrix, to be reduced one by one.
pub fn row_segments<T: Copy>(x: &[T], rows: usize, cols: usize) -> (r: Result<
    Vec<Vec<T>>,
    PrimError,
>)
    ensures
        if rows * cols != x@.len() {
            r is Err && r->Err_0 == shape_error("input", rows, cols, x@.len() as usize)
        } else {
            r matches Ok(v) && v.len() == rows && forall|i: int|
                0 <= i < rows ==> (#[trigger] v[i])@ == block(x@, i, cols as int)
        },
{
    match validate_matrix(x.len(), rows, cols) {
        Err(e) => {
            return Err(e);
        },
        Ok(()) => {},
    }
    let mut out: Vec<Vec<T>> = Vec::new();
    let mut i: usize = 0;
    while i < rows
        invariant
            i <= rows,
            rows * cols == x@.len(),
            out.len() == i,
            forall|k: int| 0 <= k < i ==> (#[trigger] out[k])@ == block(x@, k, cols as int),
        decreases rows - i,
    {
        out.push(row_of(x, rows, cols, i));
        i = i + 1;
    }
    Ok(out)
}

/// The columns of a matrix, to be reduced one by one.
pub fn column_segments<T: Copy>(x: &[T], rows: usize, cols: usize) -> (r: Result<
    Vec<Vec<T>>,
    PrimError,
>)
    ensures
        if rows * cols != x@.len() {
            r is Err && r->Err_0 == shape_error("input", rows, cols, x@.len() as usize)
        } else {
            r matches Ok(v) && v.len() == cols && forall|j: int|
                0 <= j < cols ==> (#[trigger] v[j])@ == column(x@, rows as int, cols as int, j)
        },
{
    match validate_matrix(x.len(), rows, cols) {
        Err(e) => {
            return Err(e);
        },
        Ok(()) => {},
    }
    let mut out: Vec<Vec<T>> = Vec::new();
    let mut j: usize = 0;
    while j < cols
        invariant
            j <= cols,
            rows * cols == x@.len(),
            out.len() == j,
            forall|k: int|
                0 <= k < j ==> (#[trigger] out[k])@ == column(x@, rows as int, cols as int, k),
        decreases cols - j,
    {
        out.push(column_of(x, rows, cols, j));
        j = j + 1;
    }
    Ok(out)
}

// ---------------------------------------------------------------------------
// Passes
// ---------------------------------------------------------------------------

/// One pass over the partial results: every cube folds its entries to one.
#[derive(Debug, Clone, Copy, PartialEq, Eq)]
pub struct Pass {
    pub kernel: Op,
    /// Entries that the pass reads.
    pub len: u32,
    /// Units of one cube.
    pub cube: u32,
    /// Cubes, and entries that the pass writes.
    pub cubes: u32,
}

/// The cube width of a pass over `len` entries. A subgroup cube holds at least
/// one whole subgroup.
pub open spec fn pass_cube(len: int, path: ReducePath, plane_width: u32) -> u32 {
    match path {
        ReducePath::Shared => cube_dim(len),
        ReducePath::Plane => vstd::math::max(
            cube_dim(len) as int,
            cube_dim(vstd::math::max(plane_width as int, 1)) as int,
        ) as u32,
    }
}

/// The fold of a pass: only the first one squares.
pub open spec fn pass_op(op: Op, first: bool) -> Op {
    if op == Op::SumSq && !first {
        Op::Sum
    } else {
        op
    }
}

/// A pass over two or more entries leaves fewer.
pub proof fn lemma_cubes_shrink(len: int, cube: int)
    requires
        len >= 2,
        cube >= 2,
    ensures
        1 <= ceil_div_int(len, cube) < len,
{
    let c = ceil_div_int(len, cube);
    crate::arith::lemma_ceil_div_brackets(len, cube);
    assert(1 <= c < len) by (nonlinear_arith)
        requires
            c * cube >= len,
            (c - 1) * cube < len,
            len >= 2,
            cube >= 2,
    ;
}

/// The cube of a pass covers up to 256 entries.
pub proof fn lemma_pass_cube(len: int, path: ReducePath, plane_width: u32)
    requires
        len >= 1,
    ensures
        1 <= pass_cube(len, path, plane_width) <= 256,
        len >= 2 ==> pass_cube(len, path, plane_width) >= 2,
        len <= 256 ==> pass_cube(len, path, plane_width) >= len,
        len > 256 ==> pass_cube(len, path, plane_width) == 256,
{
}

/// The passes that fold `len` entries to one.
pub open spec fn passes(len: int, op: Op, path: ReducePath, plane_width: u32, first: bool) -> Seq<
    Pass,
>
    decreases len,
{
    let cube = pass_cube(len, path, plane_width);
    let cubes = ceil_div_int(len, cube as int);
    let pass = Pass { kernel: pass_op(op, first), len: len as u32, cube, cubes: cubes as u32 };
    if len < 2 || cubes < 2 {
        seq![pass]
    } else {
        proof {
            lemma_pass_cube(len, path, plane_width);
            lemma_cubes_shrink(len, cube as int);
        }
        seq![pass] + passes(cubes, op, path, plane_width, false)
    }
}

/// A planned reduction.
pub enum ReducePlan {
    /// Subgroups are asked for and missing: nothing is computed.
    Skipped,
    /// There is nothing to fold: the result is zero.
    Zero,
    /// The passes, first to last.
    Passes(Vec<Pass>),
}

/// Plans the fold of a segment of `len` entries.
pub fn reduce_segment(
    len: usize,
    op: Op,
    path: ReducePath,
    plane_supported: bool,
    plane_width: u32,
) -> (r: ReducePlan)
    requires
        len <= u32::MAX,
    ensures
        if path == ReducePath::Plane && !plane_supported {
            r is Skipped
        } else if len == 0 {
            r is Zero
        } else {
            r matches ReducePlan::Passes(v) && v@ == passes(
                len as int,
                op,
                path,
                plane_width,
                true,
            )
        },
{
    if plane_skipped(path, plane_supported) {
        return ReducePlan::Skipped;
    }
    if len == 0 {
        return ReducePlan::Zero;
    }
    let mut out: Vec<Pass> = Vec::new();
    let mut cur: u32 = len as u32;
    let mut first: bool = true;
    let ghost whole = passes(len as int, op, path, plane_width, true);
    assert(out@ + passes(cur as int, op, path, plane_width, first) =~= whole);
    loop
        invariant
            cur >= 1,
            whole == passes(len as int, op, path, plane_width, true),
            out@ + passes(cur as int, op, path, plane_width, first) == whole,
            !(path == ReducePath::Plane && !plane_supported),
            len != 0,
        decreases cur,
    {
        let tight: u32 = cube_dim_for(cur as usize);
        let cube: u32 = match path {
            ReducePath::Plane => {
                let pw: u32 = cube_dim_for(max_u32(plane_width, 1) as usize);
                max_u32(tight, pw)
            },
            ReducePath::Shared => tight,
        };
        assert(cube == pass_cube(cur as int, path, plane_width));
        proof {
            lemma_pass_cube(cur as int, path, plane_width);
            crate::arith::lemma_ceil_div_brackets(cur as int, cube as int);
            if cur >= 2 {
                lemma_cubes_shrink(cur as int, cube as int);
            }
        }
        let cubes: u32 = ceil_div_u32(cur, cube);
        let kernel: Op = match op {
            Op::SumSq => {
                if first {
                    Op::SumSq
                } else {
                    Op::Sum
                }
            },
            Op::Sum => Op::Sum,
            Op::Min => Op::Min,
            Op::Max => Op::Max,
        };
        let pass: Pass = Pass { kernel, len: cur, cube, cubes };
        let ghost before = out@;
        let ghost rest = passes(cur as int, op, path, plane_width, first);
        out.push(pass);
        if cubes == 1 {
            assert(rest =~= seq![pass]);
            assert(before + rest =~= out@);
            return ReducePlan::Passes(out);
        }
        assert(cur >= 2) by {
            if cur == 1 {
                assert(cube >= 1);
                assert(ceil_div_int(1, cube as int) == 1);
            }
        }
        assert(before + rest =~= out@ + passes(cubes as int, op, path, plane_width, false));
        cur = cubes;
        first = false;
    }
}

/// A pass feeds the next: it writes what the next one reads, its cubes hold
/// every entry once, and only the first pass may square.
pub open spec fn pass_sound(p: Pass) -> bool {
    &&& 1 <= p.cube <= MAX_CUBE
    &&& p.cubes >= 1
    &&& p.cubes * p.cube >= p.len
    &&& (p.cubes - 1) * p.cube < p.len
}

/// The passes of a reduction form a chain from the segment to one value, and a
/// sum of squares squares exactly once.
pub proof fn lemma_passes_chain(
    len: int,
    op: Op,
    path: ReducePath,
    plane_width: u32,
    first: bool,
    i: int,
)
    requires
        1 <= len <= u32::MAX,
        0 <= i < passes(len, op, path, plane_width, first).len(),
    ensures
        ({
            let ps = passes(len, op, path, plane_width, first);
            &&& ps[0].len == len
            &&& ps.last().cubes == 1
            &&& pass_sound(ps[i])
            &&& ps[i].kernel == pass_op(op, first && i == 0)
            &&& i + 1 < ps.len() ==> ps[i + 1].len == ps[i].cubes
        }),
    decreases len,
{
    let cube = pass_cube(len, path, plane_width);
    let cubes = ceil_div_int(len, cube as int);
    lemma_pass_cube(len, path, plane_width);
    crate::arith::lemma_ceil_div_brackets(len, cube as int);
    let ps = passes(len, op, path, plane_width, first);
    assert(cubes >= 1) by (nonlinear_arith)
        requires
            cubes * cube >= len,
            len >= 1,
            cube >= 1,
    ;
    assert(cubes <= len) by (nonlinear_arith)
        requires
            (cubes - 1) * cube < len,
            len >= 1,
            cube >= 1,
    ;
    if len < 2 || cubes < 2 {
        assert(ps =~= seq![ps[0]]);
    } else {
        lemma_cubes_shrink(len, cube as int);
        let rest = passes(cubes, op, path, plane_width, false);
        lemma_passes_chain(cubes, op, path, plane_width, false, 0);
        assert(ps.last() == rest.last());
        if i > 0 {
            lemma_passes_chain(cubes, op, path, plane_width, false, i - 1);
            assert(ps[i] == rest[i - 1]);
            if i + 1 < ps.len() {
                assert(ps[i + 1] == rest[i]);
            }
        } else {
            assert(ps[1] == rest[0]);
        }
    }
}

/// A reduction takes at most four passes.
pub proof fn lemma_few_passes(
    len: int,
    op: Op,
    path: ReducePath,
    plane_width: u32,
    first: bool,
)
    requires
        1 <= len <= u32::MAX,
    ensures
        passes(len, op, path, plane_width, first).len() <= 4,
{
    lemma_passes_within(len, op, path, plane_width, first, 4_294_967_296, 4);
}

proof fn lemma_passes_within(
    len: int,
    op: Op,
    path: ReducePath,
    plane_width: u32,
    first: bool,
    limit: int,
    k: nat,
)
    requires
        1 <= len <= limit,
        limit == 256 && k == 1 || limit == 65_536 && k == 2 || limit == 16_777_216 && k == 3
            || limit == 4_294_967_296 && k == 4,
    ensures
        passes(len, op, path, plane_width, first).len() <= k,
    decreases k,
{
    let cube = pass_cube(len, path, plane_width);
    let cubes = ceil_div_int(len, cube as int);
    lemma_pass_cube(len, path, plane_width);
    crate::arith::lemma_ceil_div_brackets(len, cube as int);
    if len <= 256 {
        assert(cubes <= 1) by (nonlinear_arith)
            requires
                (cubes - 1) * cube < len,
                len <= cube,
        ;
    } else {
        lemma_cubes_shrink(len, cube as int);
        assert((cubes - 1) * 256 < len) by (nonlinear_arith)
            requires
                (cubes - 1) * cube < len,
                cube == 256,
        ;
        lemma_passes_within(
            cubes,
            op,
            path,
            plane_width,
            false,
            limit / 256,
            (k - 1) as nat,
        );
    }
}

// ---------------------------------------------------------------------------
// Extremes
// ---------------------------------------------------------------------------

/// The launch of an extreme search over `len` entries: the cube width and the
/// number of cubes, each of which reports one winner. Nothing is launched where
/// there are no entries.
pub fn arg_cubes(len: usize) -> (r: Option<(u32, u32)>)
    requires
        len <= u32::MAX,
    ensures
        len == 0 ==> r is None,
        len > 0 ==> r == Some(
            (
                cube_dim(len as int),
                ceil_div_int(len as int, cube_dim(len as int) as int) as u32,
            ),
        ),
        r matches Some((cube, cubes)) ==> {
            &&& 1 <= cube <= 256 && (len <= 256 ==> cubes == 1)
            &&& cubes * cube >= len && (cubes - 1) * cube < len
        },
{
    if len == 0 {
        return None;
    }
    let cube: u32 = cube_dim_for(len);
    proof {
        crate::arith::lemma_ceil_div_brackets(len as int, cube as int);
        let c = ceil_div_int(len as int, cube as int);
        assert(1 <= c <= len) by (nonlinear_arith)
            requires
                c * cube >= len,
                (c - 1) * cube < len,
                len >= 1,
                cube >= 1,
        ;
    }
    Some((cube, ceil_div_u32(len as u32, cube)))
}

/// Whether `v` beats `best`.
pub open spec fn beats(v: u64, best: u64, is_min: bool) -> bool {
    if is_min {
        lt64(v, best)
    } else {
        lt64(best, v)
    }
}

/// The best of the first `m` cube winners, with its index in the whole segment;
/// of equals the lowest index wins.
pub open spec fn combined(
    vals: Seq<u64>,
    idxs: Seq<u32>,
    cube: u32,
    is_min: bool,
    m: nat,
) -> (u64, int)
    decreases m,
{
    if m <= 1 {
        (vals[0], idxs[0] as int)
    } else {
        let best = combined(vals, idxs, cube, is_min, (m - 1) as nat);
        let v = vals[m - 1];
        let at = (m - 1) * cube + idxs[m - 1];
        if beats(v, best.0, is_min) || le64(v, best.0) && le64(best.0, v) && at < best.1 {
            (v, at)
        } else {
            best
        }
    }
}

/// Combines the cube winners of an extreme search. `vals` are floating-point
/// bits and `idxs` positions within the cubes. Without winners, because there
/// was nothing to search, the index is zero.
pub fn argreduce(vals: &Vec<u64>, idxs: &Vec<u32>, cube: u32, is_min: bool) -> (r: u32)
    requires
        vals.len() == idxs.len(),
        forall|c: int| 0 <= c < idxs.len() ==> c * cube + #[trigger] idxs[c] <= u32::MAX,
    ensures
        r == if vals@.len() == 0 {
            0
        } else {
            combined(vals@, idxs@, cube, is_min, vals@.len()).1
        },
{
    if vals.len() == 0 {
        return 0;
    }
    let mut best_val: u64 = vals[0];
    let mut best_idx: u32 = idxs[0];
    let mut c: usize = 1;
    while c < vals.len()
        invariant
            1 <= c <= vals.len(),
            vals.len() == idxs.len(),
            forall|i: int| 0 <= i < idxs.len() ==> i * cube + #[trigger] idxs[i] <= u32::MAX,
            combined(vals@, idxs@, cube, is_min, c as nat) == (best_val, best_idx as int),
        decreases vals.len() - c,
    {
        let v: u64 = vals[c];
        assert(c * cube + idxs[c as int] <= u32::MAX);
        assert(c * cube >= 0) by (nonlinear_arith)
            requires
                c >= 0,
                cube >= 0,
        ;
        let at: u32 = ((c as u128) * (cube as u128)) as u32 + idxs[c];
        let better: bool = if is_min {
            bits_lt(v, best_val)
        } else {
            bits_lt(best_val, v)
        };
        let equal: bool = !bits_is_nan(v) && !bits_is_nan(best_val) && !bits_lt(v, best_val)
            && !bits_lt(best_val, v);
        if better || (equal && at < best_idx) {
            best_val = v;
            best_idx = at;
        }
        c = c + 1;
    }
    best_idx
}

/// Whether position `i` holds the first extreme of the entries from `lo` to
/// `hi`: none beats it, and no earlier one equals it.
pub open spec fn first_extreme(data: Seq<u64>, lo: int, hi: int, is_min: bool, i: int) -> bool {
    &&& lo <= i < hi
    &&& forall|j: int| lo <= j < hi ==> !beats(#[trigger] data[j], data[i], is_min)
    &&& forall|j: int| lo <= j < i ==> beats(data[i], #[trigger] data[j], is_min)
}

/// The end of cube `c`.
pub open spec fn cube_end(len: int, cube: u32, c: int) -> int {
    vstd::math::min((c + 1) * cube, len)
}

/// Whether the cube reports its first extreme.
pub open spec fn winner_ok(
    data: Seq<u64>,
    vals: Seq<u64>,
    idxs: Seq<u32>,
    cube: u32,
    is_min: bool,
    c: int,
) -> bool {
    let at = c * cube + idxs[c];
    first_extreme(data, c * cube, cube_end(data.len() as int, cube, c), is_min, at) && vals[c]
        == data[at]
}

/// The extreme search is exact: when every cube reports its first extreme, the
/// combination is the first extreme of the whole segment, so ties go to the
/// lowest index whatever cube it lies in. Stated of segments without NaN.
pub proof fn lemma_argreduce_first_extreme(
    data: Seq<u64>,
    vals: Seq<u64>,
    idxs: Seq<u32>,
    cube: u32,
    is_min: bool,
    m: nat,
)
    requires
        1 <= m <= vals.len(),
        vals.len() == idxs.len(),
        cube >= 1,
        forall|j: int| 0 <= j < data.len() ==> !is_nan64(#[trigger] data[j]),
        forall|c: int| 0 <= c < vals.len() ==> #[trigger] winner_ok(data, vals, idxs, cube, is_min, c),
    ensures
        ({
            let best = combined(vals, idxs, cube, is_min, m);
            first_extreme(data, 0, cube_end(data.len() as int, cube, m - 1), is_min, best.1)
                && best.0 == data[best.1]
        }),
    decreases m,
{
    let n = data.len() as int;
    assert(winner_ok(data, vals, idxs, cube, is_min, m - 1));
    if m == 1 {
        assert(0 * cube == 0) by (nonlinear_arith);
    } else {
        lemma_argreduce_first_extreme(data, vals, idxs, cube, is_min, (m - 1) as nat);
        assert(winner_ok(data, vals, idxs, cube, is_min, m - 1));
        let old_best = combined(vals, idxs, cube, is_min, (m - 1) as nat);
        let best = combined(vals, idxs, cube, is_min, m);
        let lo = (m - 1) * cube;
        let hi = cube_end(n, cube, m - 1);
        let at = lo + idxs[m - 1];
        assert(cube_end(n, cube, m - 2) == lo) by {
            assert(((m - 2) + 1) * cube == lo);
            assert(lo <= at < n);
        }
        assert forall|j: int| 0 <= j < hi implies !beats(#[trigger] data[j], data[best.1], is_min) by {
            assert(!beats(data[j], data[old_best.1], is_min) || !beats(data[j], data[at], is_min));
        }
        assert forall|j: int| 0 <= j < best.1 implies beats(
            data[best.1],
            #[trigger] data[j],
            is_min,
        ) by {
            if best == (data[at], at) && best != old_best {
                if j < lo {
                    assert(!beats(data[j], data[old_best.1], is_min));
                }
            }
        }
    }
}

/// What two partial values fold to.
pub open spec fn folded_pair(op: Op, a: int, b: int) -> int {
    match op {
        Op::Sum | Op::SumSq => a + b,
        Op::Min => if a <= b {
            a
        } else {
            b
        },
        Op::Max => if a <= b {
            b
        } else {
            a
        },
    }
}

/// Each reduction starts with the fold of its own name: a maximum with one whose
/// value no operand exceeds, a minimum with one that exceeds no operand, and the
/// others with one that adds. The norm and the sum of squares square their
/// entries, the rest do not.
pub proof fn lemma_reduction_folds(s: ScalarOp, a: int, b: int)
    ensures
        s == ScalarOp::Max ==> folded_pair(s.fold_op(), a, b) >= a && folded_pair(
            s.fold_op(),
            a,
            b,
        ) >= b,
        s == ScalarOp::Min ==> folded_pair(s.fold_op(), a, b) <= a && folded_pair(
            s.fold_op(),
            a,
            b,
        ) <= b,
        s == ScalarOp::Max || s == ScalarOp::Min ==> folded_pair(s.fold_op(), a, b) == a
            || folded_pair(s.fold_op(), a, b) == b,
        s != ScalarOp::Max && s != ScalarOp::Min ==> folded_pair(s.fold_op(), a, b) == a + b,
        s.fold_op() == Op::SumSq <==> s == ScalarOp::L2Norm || s == ScalarOp::SumSq,
        s.fold_op() == Op::Sum <==> s == ScalarOp::Sum || s == ScalarOp::Mean,
        s.fold_op() == Op::Max <==> s == ScalarOp::Max,
        s.fold_op() == Op::Min <==> s == ScalarOp::Min,
{
}

/// Only the first pass of a sum of squares squares: later passes add, and every
/// other fold is the same in all passes.
pub proof fn lemma_pass_kernels(len: int, op: Op, path: ReducePath, plane_width: u32, i: int)
    requires
        1 <= len <= u32::MAX,
        0 <= i < passes(len, op, path, plane_width, true).len(),
    ensures
        ({
            let kernel = passes(len, op, path, plane_width, true)[i].kernel;
            &&& i == 0 ==> kernel == op
            &&& i > 0 && op == Op::SumSq ==> kernel == Op::Sum
            &&& i > 0 && op != Op::SumSq ==> kernel == op
        }),
{
    lemma_passes_chain(len, op, path, plane_width, true, i);
}

/// The width of a cube is the least power of two that covers its entries, and
/// 256 where they are more: it covers them, half of it does not.
pub proof fn lemma_cube_dim_least(n: int)
    ensures
        1 <= cube_dim(n) <= 256,
        256int % cube_dim(n) as int == 0,
        n <= 256 ==> cube_dim(n) >= n,
        n >= 2 ==> cube_dim(n) >= 2 && cube_dim(n) / 2 < n,
        n <= 1 ==> cube_dim(n) == 1,
        n > 256 ==> cube_dim(n) == 256,
{
    let c = cube_dim(n) as int;
    assert(256int % c == 0) by (nonlinear_arith)
        requires
            c == 1 || c == 2 || c == 4 || c == 8 || c == 16 || c == 32 || c == 64 || c == 128 || c
                == 256,
    ;
}

/// A subgroup cube is no smaller than a shared one, and holds a whole subgroup
/// of up to 256 units.
pub proof fn lemma_plane_cube_holds_a_subgroup(len: int, plane_width: u32)
    ensures
        pass_cube(len, ReducePath::Shared, plane_width) == cube_dim(len),
        pass_cube(len, ReducePath::Plane, plane_width) >= cube_dim(len),
        plane_width <= 256 ==> pass_cube(len, ReducePath::Plane, plane_width) >= plane_width,
        256int % pass_cube(len, ReducePath::Plane, plane_width) as int == 0,
{
    lemma_cube_dim_least(len);
    lemma_cube_dim_least(vstd::math::max(plane_width as int, 1));
}

/// Whether cube `c` reports the first of its smallest entries, or of its largest:
/// the place within the cube, and the entry.
pub open spec fn reports_first(
    data: Seq<u64>,
    vals: Seq<u64>,
    idxs: Seq<u32>,
    cube: int,
    is_min: bool,
    c: int,
) -> bool {
    let lo = c * cube;
    let at = lo + idxs[c];
    let hi = if lo + cube <= data.len() {
        lo + cube
    } else {
        data.len() as int
    };
    &&& at < hi
    &&& vals[c] == data[at]
    &&& forall|j: int|
        lo <= j < hi ==> {
            let (best, other) = (order_value64(data[at]), order_value64(#[trigger] data[j]));
            &&& is_min ==> best <= other && (j < at ==> best < other)
            &&& !is_min ==> best >= other && (j < at ==> best > other)
        }
}

/// The search for a minimum finds the first of the smallest entries, and the
/// search for a maximum the first of the largest, when every cube reports its
/// own. Stated of segments without NaN.
pub proof fn lemma_argreduce_finds_the_extreme(
    data: Seq<u64>,
    vals: Seq<u64>,
    idxs: Seq<u32>,
    cube: u32,
    is_min: bool,
    j: int,
)
    requires
        vals.len() == idxs.len(),
        vals.len() >= 1,
        cube >= 1,
        vals.len() * cube >= data.len(),
        all_numbers(data),
        forall|c: int|
            0 <= c < vals.len() ==> #[trigger] reports_first(
                data,
                vals,
                idxs,
                cube as int,
                is_min,
                c,
            ),
        0 <= j < data.len(),
    ensures
        ({
            let at = combined(vals, idxs, cube, is_min, vals.len()).1;
            let (best, other) = (order_value64(data[at]), order_value64(data[j]));
            &&& 0 <= at < data.len()
            &&& is_min ==> best <= other && (j < at ==> best < other)
            &&& !is_min ==> best >= other && (j < at ==> best > other)
        }),
{
    assert forall|c: int| 0 <= c < vals.len() implies #[trigger] winner_ok(
        data,
        vals,
        idxs,
        cube,
        is_min,
        c,
    ) by {
        assert(reports_first(data, vals, idxs, cube as int, is_min, c));
        let lo = c * cube;
        let at = lo + idxs[c];
        let hi = cube_end(data.len() as int, cube, c);
        assert((c + 1) * cube == lo + cube && lo >= 0) by (nonlinear_arith)
            requires
                c >= 0,
                lo == c * cube,
        ;
        assert forall|i: int| lo <= i < hi implies !beats(#[trigger] data[i], data[at], is_min) by {
            assert(!is_nan64(data[i]) && !is_nan64(data[at]));
        }
        assert forall|i: int| lo <= i < at implies beats(data[at], #[trigger] data[i], is_min) by {
            assert(!is_nan64(data[i]) && !is_nan64(data[at]));
        }
    }
    lemma_argreduce_first_extreme(data, vals, idxs, cube, is_min, vals.len());
    let at = combined(vals, idxs, cube, is_min, vals.len()).1;
    let hi = cube_end(data.len() as int, cube, vals.len() - 1);
    assert((vals.len() - 1 + 1) * cube == vals.len() * cube) by (nonlinear_arith);
    assert(hi == data.len());
    assert(!beats(data[j], data[at], is_min));
    if j < at {
        assert(beats(data[at], data[j], is_min));
    }
    assert(!is_nan64(data[j]) && !is_nan64(data[at]));
}

} // verus!
