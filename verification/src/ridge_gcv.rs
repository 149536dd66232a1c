//! Generalized cross-validation on the device: when it is possible, how its
//! normal equations are formed, and how its sweep over the penalties is blocked.

use crate::arith::{
    ceil_div, ceil_div_int, clamp_int, clamp_usize, max_usize, product_is, sat_mul_int,
    saturating_mul,
};
use crate::error::{
    first_fault, guard_u32, shape_error, shape_mismatch, u32_fault, verdict, PrimError,
};
use crate::flag::{flag_text, is_one_text, text_is_one};
use crate::launch::{cube_dims, launch_cubes, LaunchDims};
use vstd::prelude::*;

verus! {

/// The limits that the sweep kernel is compiled with.
#[derive(Debug, Clone, Copy, PartialEq, Eq)]
pub struct SweepLimits {
    /// The most features.
    pub max_d: u32,
    /// Rows of one staged tile.
    pub row_tile: u32,
    /// Units of one cube.
    pub cube_dim: u32,
}

/// Whether the sweep can run: double-precision kernels, a feature count that the
/// kernel takes, a fused kernel for the normal equations, and shared memory for
/// two staged tiles.
pub open spec fn sweep_possible(
    d: usize,
    f64_kernels: bool,
    fused_centering: bool,
    limits: SweepLimits,
    max_shared_memory: usize,
) -> bool {
    f64_kernels && 1 <= d <= limits.max_d && fused_centering && 2 * limits.row_tile * limits.max_d
        * 8 <= max_shared_memory
}

/// Whether the sweep can run.
pub fn gcv_device_possible(
    d: usize,
    f64_kernels: bool,
    fused_centering: bool,
    limits: SweepLimits,
    max_shared_memory: usize,
) -> (r: bool)
    ensures
        r == sweep_possible(d, f64_kernels, fused_centering, limits, max_shared_memory),
{
    if !f64_kernels || d == 0 || d > limits.max_d as usize || !fused_centering {
        return false;
    }
    assert(2 * limits.row_tile * limits.max_d * 8 <= 2 * u32::MAX * u32::MAX * 8)
        by (nonlinear_arith)
        requires
            limits.row_tile <= u32::MAX,
            limits.max_d <= u32::MAX,
    ;
    let need: u128 = 2 * (limits.row_tile as u128) * (limits.max_d as u128) * 8;
    max_shared_memory as u128 >= need
}

/// Whether a design on the host is uploaded for the sake of the device: only
/// where that is possible and the flag asks for it.
pub fn gcv_device_preferred(
    d: usize,
    f64_kernels: bool,
    fused_centering: bool,
    limits: SweepLimits,
    max_shared_memory: usize,
    device_flag: Option<&str>,
) -> (r: bool)
    ensures
        r == (sweep_possible(d, f64_kernels, fused_centering, limits, max_shared_memory)
            && match flag_text(device_flag) {
            Some(t) => is_one_text(t),
            None => false,
        }),
{
    if !gcv_device_possible(d, f64_kernels, fused_centering, limits, max_shared_memory) {
        return false;
    }
    match device_flag {
        Some(v) => text_is_one(v),
        None => false,
    }
}

/// Where the column means come from.
#[derive(Debug, Clone, Copy, PartialEq, Eq, Structural)]
pub enum MeansRoute {
    /// They are zero.
    Zero,
    Plain,
    /// Weighted by the squared roots of the weights.
    Weighted,
}

/// Where the products with the roots of the weights come from.
#[derive(Debug, Clone, Copy, PartialEq, Eq, Structural)]
pub enum RootProducts {
    /// They are zero.
    Zero,
    /// From the design, with the centering inside the kernel.
    Fused,
    /// From the centered and scaled copy of the design.
    FromCopy,
}

/// How the normal equations are formed, and the lengths of what they give.
#[derive(Debug, Clone, Copy, PartialEq, Eq)]
pub struct NormalEquationsPlan {
    pub means: MeansRoute,
    /// Whether design and targets are centered and scaled into copies; otherwise
    /// the centering is inside the kernel.
    pub materialize: bool,
    pub roots: RootProducts,
    pub x_offset_len: usize,
    pub y_offset_len: usize,
    pub gram_len: usize,
    pub xty_len: usize,
    pub xtsw_len: usize,
}

/// What a sweep gives: the sums of squared leave-one-out errors for each penalty
/// and target, unless predictions are wanted, and the per-row values, if asked
/// for.
pub struct GcvSweepOut<T> {
    pub score_sums: Vec<T>,
    pub cv_values: Vec<T>,
}

/// A planned sweep.
#[derive(Debug, Clone, Copy, PartialEq, Eq)]
pub struct SweepPlan {
    pub nblocks: usize,
    pub rows_per_block: usize,
    /// Pairs of a penalty and a target, row by row of penalties.
    pub cells: usize,
    /// Partial sums: one for each block, penalty and target.
    pub part_len: usize,
    /// Per-row values; a single unused slot where they are not asked for.
    pub cv_len: usize,
    pub launch: LaunchDims,
}

/// The most blocks of a sweep: its partial sums stay within four million.
pub open spec fn sweep_block_cap(n_alphas: int, n_y: int) -> int {
    vstd::math::max(1, 4_194_304int / vstd::math::max(sat_mul_int(n_alphas, n_y), 1))
}

/// Rows of one block of a sweep: an even share, rounded up to whole tiles.
pub open spec fn sweep_rows(n: int, n_alphas: int, n_y: int, tile: int) -> int {
    let nb = clamp_int(ceil_div_int(n, 256), 1, sweep_block_cap(n_alphas, n_y));
    ceil_div_int(ceil_div_int(n, nb), tile) * tile
}

/// Blocks of a sweep.
pub open spec fn sweep_blocks(n: int, n_alphas: int, n_y: int, tile: int) -> int {
    ceil_div_int(n, sweep_rows(n, n_alphas, n_y, tile))
}

/// The blocks of a sweep hold every row once, in whole tiles but for the last,
/// and there are no more than the cap.
pub proof fn lemma_sweep_blocks(n: int, n_alphas: int, n_y: int, tile: int)
    requires
        n >= 1,
        n_alphas >= 0,
        n_y >= 0,
        tile >= 1,
    ensures
        sweep_rows(n, n_alphas, n_y, tile) >= 1,
        sweep_rows(n, n_alphas, n_y, tile) < n + tile,
        sweep_rows(n, n_alphas, n_y, tile) % tile == 0,
        sweep_blocks(n, n_alphas, n_y, tile) * sweep_rows(n, n_alphas, n_y, tile) >= n,
        (sweep_blocks(n, n_alphas, n_y, tile) - 1) * sweep_rows(n, n_alphas, n_y, tile) < n,
        1 <= sweep_blocks(n, n_alphas, n_y, tile) <= sweep_block_cap(n_alphas, n_y),
{
    let cap = sweep_block_cap(n_alphas, n_y);
    let nb = clamp_int(ceil_div_int(n, 256), 1, cap);
    crate::arith::lemma_ceil_div_brackets(n, 256);
    crate::arith::lemma_ceil_div_brackets(n, nb);
    let even = ceil_div_int(n, nb);
    assert(1 <= even <= n) by (nonlinear_arith)
        requires
            even * nb >= n,
            (even - 1) * nb < n,
            n >= 1,
            nb >= 1,
    ;
    crate::arith::lemma_ceil_div_brackets(even, tile);
    let q = ceil_div_int(even, tile);
    let rows = q * tile;
    assert(rows >= even && rows < even + tile) by (nonlinear_arith)
        requires
            q * tile >= even,
            (q - 1) * tile < even,
            rows == q * tile,
    ;
    vstd::arithmetic::div_mod::lemma_mod_multiples_basic(q, tile);
    crate::arith::lemma_ceil_div_brackets(n, rows);
    assert(nb * rows >= n) by (nonlinear_arith)
        requires
            rows >= even,
            even * nb >= n,
            nb >= 1,
    ;
    crate::arith::lemma_ceil_div_least(n, rows, nb);
    let c = ceil_div_int(n, rows);
    assert(c >= 1) by (nonlinear_arith)
        requires
            c * rows >= n,
            n >= 1,
            rows >= 1,
    ;
}

/// The partial sums of a sweep stay within four million, unless a single block
/// has more.
pub proof fn lemma_partials_fit(n: int, n_alphas: int, n_y: int, tile: int)
    requires
        n >= 1,
        n_alphas >= 0,
        n_y >= 0,
        tile >= 1,
        n_alphas * n_y <= usize::MAX,
    ensures
        0 <= sweep_blocks(n, n_alphas, n_y, tile) * (n_alphas * n_y) <= vstd::math::max(
            4_194_304,
            n_alphas * n_y,
        ),
{
    lemma_sweep_blocks(n, n_alphas, n_y, tile);
    let nb = sweep_blocks(n, n_alphas, n_y, tile);
    let cells = n_alphas * n_y;
    assert(cells >= 0) by (nonlinear_arith)
        requires
            cells == n_alphas * n_y,
            n_alphas >= 0,
            n_y >= 0,
    ;
    if cells == 0 {
        assert(nb * cells == 0) by (nonlinear_arith)
            requires
                cells == 0,
        ;
    } else if nb <= 1 {
        assert(nb * cells == cells) by (nonlinear_arith)
            requires
                nb == 1,
        ;
    } else {
        let q = 4_194_304int / cells;
        vstd::arithmetic::div_mod::lemma_fundamental_div_mod(4_194_304, cells);
        assert(0 <= nb * cells <= 4_194_304) by (nonlinear_arith)
            requires
                1 < nb <= q,
                4_194_304 == cells * q + 4_194_304int % cells,
                0 <= 4_194_304int % cells,
                cells >= 1,
        ;
    }
}

/// Blocks a sweep over `n` rows: how many blocks, and how many rows each.
pub fn sweep_blocking(n: usize, n_alphas: usize, n_y: usize, tile: u32) -> (r: (usize, usize))
    requires
        n >= 1,
        tile >= 1,
        n + tile <= usize::MAX,
    ensures
        r.0 == sweep_blocks(n as int, n_alphas as int, n_y as int, tile as int),
        r.1 == sweep_rows(n as int, n_alphas as int, n_y as int, tile as int),
        r.0 >= 1,
{
    let cap: usize = max_usize(4_194_304 / max_usize(saturating_mul(n_alphas, n_y), 1), 1);
    let nb: usize = clamp_usize(ceil_div(n, 256), 1, cap);
    proof {
        lemma_sweep_blocks(n as int, n_alphas as int, n_y as int, tile as int);
    }
    let rows: usize = ceil_div(ceil_div(n, nb), tile as usize) * (tile as usize);
    (ceil_div(n, rows), rows)
}

/// Why a design is refused.
pub open spec fn design_fault(
    x_len: usize,
    y_len: usize,
    sw_len: usize,
    n: usize,
    d: usize,
    n_y: usize,
) -> Option<PrimError> {
    if n == 0 || d == 0 || n_y == 0 || n * d != x_len || n * n_y != y_len {
        Some(shape_error("ridge_gcv.x", n, d, x_len))
    } else if sw_len != n {
        Some(shape_error("ridge_gcv.sqrt_sw", n, 1, sw_len))
    } else {
        first_fault(u32_fault("n", n), first_fault(u32_fault("d", d), u32_fault("n_y", n_y)))
    }
}

/// The lengths of a sweep's operands.
#[derive(Debug, Clone, Copy, PartialEq, Eq)]
pub struct SweepOperands {
    pub v: usize,
    pub g: usize,
    pub gz: usize,
    pub gzsw: usize,
    pub x_offset: usize,
    pub y_offset: usize,
}

/// A design held for a whole fit: its shape, and whether its weights are real.
#[derive(Debug, Clone, Copy)]
pub struct GcvDevice {
    n: usize,
    d: usize,
    n_y: usize,
    weighted: bool,
}

impl GcvDevice {
    /// Rows, features and targets.
    pub closed spec fn shape(self) -> (nat, nat, nat) {
        (self.n as nat, self.d as nat, self.n_y as nat)
    }

    /// Whether the weights are real.
    pub closed spec fn is_weighted(self) -> bool {
        self.weighted
    }

    /// Nothing is empty, and every count fits a launch argument.
    pub open spec fn wf(self) -> bool {
        &&& 1 <= self.shape().0 <= u32::MAX
        &&& 1 <= self.shape().1 <= u32::MAX
        &&& 1 <= self.shape().2 <= u32::MAX
    }

    /// Takes a design of `n` rows and `d` features with `n_y` targets, and the
    /// roots of the row weights. The result also says whether the elements have
    /// to be widened.
    pub fn from_host(
        x_len: usize,
        y_len: usize,
        sw_len: usize,
        n: usize,
        d: usize,
        n_y: usize,
        weighted: bool,
        elem_size: usize,
    ) -> (r: Result<(GcvDevice, bool), PrimError>)
        ensures
            match design_fault(x_len, y_len, sw_len, n, d, n_y) {
                Some(e) => r is Err && r->Err_0 == e,
                None => {
                    &&& r is Ok
                    &&& r->Ok_0.0.wf()
                    &&& r->Ok_0.0.shape() == (n as nat, d as nat, n_y as nat)
                    &&& r->Ok_0.0.is_weighted() == weighted
                    &&& r->Ok_0.1 == (elem_size != 8)
                },
            },
    {
        if n == 0 || d == 0 || n_y == 0 || !product_is(n, d, x_len) || !product_is(n, n_y, y_len) {
            return Err(shape_mismatch("ridge_gcv.x", n, d, x_len));
        }
        if sw_len != n {
            return Err(shape_mismatch("ridge_gcv.sqrt_sw", n, 1, sw_len));
        }
        match guard_u32("n", n) {
            Err(e) => {
                return Err(e);
            },
            Ok(()) => {},
        }
        match guard_u32("d", d) {
            Err(e) => {
                return Err(e);
            },
            Ok(()) => {},
        }
        match guard_u32("n_y", n_y) {
            Err(e) => {
                return Err(e);
            },
            Ok(()) => {},
        }
        Ok((GcvDevice { n, d, n_y, weighted }, elem_size != 8))
    }

    /// Plans the normal equations. Real weights multiply the operands, so they
    /// need copies; without an intercept there are no means, and no products
    /// with the roots of the weights.
    pub fn normal_equations_plan(&self, fit_intercept: bool) -> (r: NormalEquationsPlan)
        requires
            self.wf(),
            self.shape().1 * self.shape().1 <= usize::MAX,
            self.shape().1 * self.shape().2 <= usize::MAX,
        ensures
            r.means == if !fit_intercept {
                MeansRoute::Zero
            } else if self.is_weighted() {
                MeansRoute::Weighted
            } else {
                MeansRoute::Plain
            },
            r.materialize == self.is_weighted(),
            r.roots == if !fit_intercept {
                RootProducts::Zero
            } else if self.is_weighted() {
                RootProducts::FromCopy
            } else {
                RootProducts::Fused
            },
            r.x_offset_len == self.shape().1,
            r.y_offset_len == self.shape().2,
            r.gram_len == self.shape().1 * self.shape().1,
            r.xty_len == self.shape().1 * self.shape().2,
            r.xtsw_len == self.shape().1,
    {
        let (means, roots): (MeansRoute, RootProducts) = if !fit_intercept {
            (MeansRoute::Zero, RootProducts::Zero)
        } else if self.weighted {
            (MeansRoute::Weighted, RootProducts::FromCopy)
        } else {
            (MeansRoute::Plain, RootProducts::Fused)
        };
        NormalEquationsPlan {
            means,
            materialize: self.weighted,
            roots,
            x_offset_len: self.d,
            y_offset_len: self.n_y,
            gram_len: self.d * self.d,
            xty_len: self.d * self.n_y,
            xtsw_len: self.d,
        }
    }

    /// Whether the operands of a sweep over `n_alphas` penalties have the right
    /// lengths.
    pub open spec fn operands_fit(self, ops: SweepOperands, n_alphas: int) -> bool {
        let (n, d, n_y) = self.shape();
        &&& ops.v == d * d
        &&& ops.g == n_alphas * d
        &&& ops.gz == n_alphas * d * n_y
        &&& ops.gzsw == n_alphas * d
        &&& ops.x_offset == d
        &&& ops.y_offset == n_y
    }

    /// Why a sweep is refused.
    pub open spec fn sweep_fault(self, ops: SweepOperands, n_alphas: usize) -> Option<PrimError> {
        if !self.operands_fit(ops, n_alphas as int) {
            Some(
                shape_error("ridge_gcv.sweep operands", self.shape().1 as usize, n_alphas, ops.v),
            )
        } else {
            u32_fault("n_alphas", n_alphas)
        }
    }

    /// Refuses the operands of a sweep over `n_alphas` penalties.
    pub fn validate_sweep(&self, ops: SweepOperands, n_alphas: usize) -> (r: Result<
        (),
        PrimError,
    >)
        requires
            self.wf(),
        ensures
            r == verdict(self.sweep_fault(ops, n_alphas)),
    {
        let ad_known: bool = product_is(n_alphas, self.d, ops.g);
        if !product_is(self.d, self.d, ops.v) || !ad_known || !product_is(ops.g, self.n_y, ops.gz)
            || ops.gzsw != ops.g || ops.x_offset != self.d || ops.y_offset != self.n_y {
            return Err(shape_mismatch("ridge_gcv.sweep operands", self.d, n_alphas, ops.v));
        }
        guard_u32("n_alphas", n_alphas)
    }

    /// Plans a sweep over `n_alphas` penalties.
    pub fn sweep_plan(
        &self,
        ops: SweepOperands,
        n_alphas: usize,
        emit_values: bool,
        limits: SweepLimits,
    ) -> (r: Result<SweepPlan, PrimError>)
        requires
            self.wf(),
            limits.row_tile >= 1,
            self.sweep_fault(ops, n_alphas) is None ==> {
                &&& self.shape().0 + limits.row_tile <= usize::MAX
                &&& emit_values ==> self.shape().0 * n_alphas * self.shape().2 <= usize::MAX
            },
        ensures
            match self.sweep_fault(ops, n_alphas) {
                Some(e) => r == Err::<SweepPlan, PrimError>(e),
                None => {
                    let (n, d, n_y) = self.shape();
                    let nb = sweep_blocks(
                        n as int,
                        n_alphas as int,
                        n_y as int,
                        limits.row_tile as int,
                    );
                    r == Ok::<SweepPlan, PrimError>(
                        SweepPlan {
                            nblocks: nb as usize,
                            rows_per_block: sweep_rows(
                                n as int,
                                n_alphas as int,
                                n_y as int,
                                limits.row_tile as int,
                            ) as usize,
                            cells: (n_alphas * n_y) as usize,
                            part_len: (nb * n_alphas * n_y) as usize,
                            cv_len: if emit_values {
                                (n * n_alphas * n_y) as usize
                            } else {
                                1
                            },
                            launch: cube_dims(nb, limits.cube_dim),
                        },
                    )
                },
            },
            r matches Ok(p) ==> p.part_len == p.nblocks * p.cells,
    {
        match self.validate_sweep(ops, n_alphas) {
            Err(e) => {
                return Err(e);
            },
            Ok(()) => {},
        }
        let (nb, rows): (usize, usize) = sweep_blocking(self.n, n_alphas, self.n_y, limits.row_tile);
        proof {
            lemma_sweep_blocks(
                self.n as int,
                n_alphas as int,
                self.n_y as int,
                limits.row_tile as int,
            );
            assert(0 <= n_alphas * self.n_y <= n_alphas * self.d * self.n_y) by (nonlinear_arith)
                requires
                    self.d >= 1,
                    self.n_y >= 0,
                    n_alphas >= 0,
            ;
            lemma_partials_fit(
                self.n as int,
                n_alphas as int,
                self.n_y as int,
                limits.row_tile as int,
            );
            assert(nb * n_alphas * self.n_y == nb * (n_alphas * self.n_y)) by (nonlinear_arith);
            assert(self.n * n_alphas * self.n_y == self.n * (n_alphas * self.n_y))
                by (nonlinear_arith);
        }
        let cells: usize = n_alphas * self.n_y;
        let part_len: usize = nb * cells;
        let cv_len: usize = if emit_values {
            self.n * cells
        } else {
            1
        };
        Ok(
            SweepPlan {
                nblocks: nb,
                rows_per_block: rows,
                cells,
                part_len,
                cv_len,
                launch: launch_cubes(nb, limits.cube_dim),
            },
        )
    }
}

/// Where the partial sums of a pair of penalty and target stand: one in each
/// block. Its score is their sum.
pub fn score_slots(plan: &SweepPlan, cell: usize) -> (r: Vec<usize>)
    requires
        cell < plan.cells,
        plan.part_len == plan.nblocks * plan.cells,
    ensures
        r.len() == plan.nblocks,
        forall|b: int|
            0 <= b < r.len() ==> #[trigger] r[b] == b * plan.cells + cell && r[b] < plan.part_len,
{
    let mut out: Vec<usize> = Vec::new();
    let mut b: usize = 0;
    while b < plan.nblocks
        invariant
            b <= plan.nblocks,
            cell < plan.cells,
            plan.part_len == plan.nblocks * plan.cells,
            out.len() == b,
            forall|k: int|
                0 <= k < b ==> #[trigger] out[k] == k * plan.cells + cell && out[k]
                    < plan.part_len,
        decreases plan.nblocks - b,
    {
        proof {
            crate::arith::lemma_flat_index(
                b as int,
                cell as int,
                plan.nblocks as int,
                plan.cells as int,
            );
        }
        out.push(b * plan.cells + cell);
        b = b + 1;
    }
    out
}

/// What a sweep gives, from the summed scores and the per-row values: no scores
/// where predictions are wanted, and no values unless they are asked for.
pub fn sweep_out<T>(
    plan: &SweepPlan,
    want_predictions: bool,
    emit_values: bool,
    sums: Vec<T>,
    values: Vec<T>,
) -> (r: GcvSweepOut<T>)
    requires
        !want_predictions ==> sums.len() == plan.cells,
        emit_values ==> values.len() == plan.cv_len,
    ensures
        r.score_sums@ == if want_predictions {
            Seq::empty()
        } else {
            sums@
        },
        r.cv_values@ == if emit_values {
            values@
        } else {
            Seq::empty()
        },
        r.score_sums.len() == if want_predictions {
            0
        } else {
            plan.cells
        },
        r.cv_values.len() == if emit_values {
            plan.cv_len
        } else {
            0
        },
{
    GcvSweepOut {
        score_sums: if want_predictions {
            Vec::new()
        } else {
            sums
        },
        cv_values: if emit_values {
            values
        } else {
            Vec::new()
        },
    }
}

/// A sweep needs double-precision kernels, a fused kernel for the normal
/// equations, features within the kernel's, and room for two tiles of them at
/// eight bytes an entry.
pub proof fn lemma_sweep_possible(
    d: usize,
    f64_kernels: bool,
    fused_centering: bool,
    limits: SweepLimits,
    max_shared_memory: usize,
)
    ensures
        sweep_possible(d, f64_kernels, fused_centering, limits, max_shared_memory) <==> {
            &&& f64_kernels && fused_centering
            &&& d >= 1 && d <= limits.max_d
            &&& max_shared_memory >= 16 * (limits.row_tile * limits.max_d)
        },
{
    let (t, m) = (limits.row_tile as int, limits.max_d as int);
    assert(2 * t * m * 8 == 16 * (t * m)) by (nonlinear_arith);
}

/// A design is accepted exactly where it holds something, design and targets are
/// full, there is a weight for each row, and the sizes fit 32 bits.
pub proof fn lemma_design_accepted(
    x_len: usize,
    y_len: usize,
    sw_len: usize,
    n: usize,
    d: usize,
    n_y: usize,
)
    ensures
        design_fault(x_len, y_len, sw_len, n, d, n_y) is None <==> {
            &&& n >= 1 && d >= 1 && n_y >= 1
            &&& x_len == n * d && y_len == n * n_y && sw_len == n
            &&& n <= u32::MAX && d <= u32::MAX && n_y <= u32::MAX
        },
{
}

/// The operands of a sweep are accepted exactly where there is a square matrix
/// of the features, for each penalty a value and a weight sum per feature and a
/// product per feature and target, and an offset per feature and per target.
pub proof fn lemma_sweep_accepted(dev: GcvDevice, ops: SweepOperands, n_alphas: usize)
    ensures
        dev.sweep_fault(ops, n_alphas) is None <==> {
            let (n, d, n_y) = dev.shape();
            &&& ops.v == d * d && ops.g == n_alphas * d && ops.gzsw == ops.g
            &&& ops.gz == n_alphas * d * n_y
            &&& ops.x_offset == d && ops.y_offset == n_y
            &&& n_alphas <= u32::MAX
        },
{
}

/// The blocks of a sweep are as many as keep its partial sums within four
/// million, one at the least.
pub proof fn lemma_sweep_cap(n_alphas: int, n_y: int)
    requires
        n_alphas >= 1,
        n_y >= 1,
        n_alphas * n_y <= usize::MAX,
    ensures
        sweep_block_cap(n_alphas, n_y) >= 1,
        sweep_block_cap(n_alphas, n_y) > 1 ==> sweep_block_cap(n_alphas, n_y) * (n_alphas * n_y)
            <= 4_194_304,
        (sweep_block_cap(n_alphas, n_y) + 1) * (n_alphas * n_y) > 4_194_304,
{
    let w = n_alphas * n_y;
    assert(w >= 1) by (nonlinear_arith)
        requires
            n_alphas >= 1,
            n_y >= 1,
            w == n_alphas * n_y,
    ;
    let q = 4_194_304int / w;
    let c = sweep_block_cap(n_alphas, n_y);
    vstd::arithmetic::div_mod::lemma_fundamental_div_mod(4_194_304, w);
    vstd::arithmetic::div_mod::lemma_mod_bound(4_194_304, w);
    assert(q * w <= 4_194_304 && (c + 1) * w > 4_194_304) by (nonlinear_arith)
        requires
            c >= q,
            4_194_304 == w * q + 4_194_304int % w,
            0 <= 4_194_304int % w < w,
    ;
}

/// The blocks of a sweep hold about 256 rows, rounded up to whole tiles, as long
/// as the cap on the blocks allows.
pub proof fn lemma_sweep_rows_256(n: int, n_alphas: int, n_y: int, tile: int)
    requires
        n >= 1,
        n_alphas >= 0,
        n_y >= 0,
        tile >= 1,
        n <= 256 * sweep_block_cap(n_alphas, n_y),
    ensures
        sweep_rows(n, n_alphas, n_y, tile) < 256 + tile,
{
    let cap = sweep_block_cap(n_alphas, n_y);
    let c = ceil_div_int(n, 256);
    crate::arith::lemma_ceil_div_brackets(n, 256);
    crate::arith::lemma_ceil_div_least(n, 256, cap);
    let nb = clamp_int(c, 1, cap);
    assert(256 * nb >= n);
    crate::arith::lemma_ceil_div_least(n, nb, 256);
    let share = ceil_div_int(n, nb);
    crate::arith::lemma_ceil_div_brackets(n, nb);
    crate::arith::lemma_ceil_div_brackets(share, tile);
    let t = ceil_div_int(share, tile);
    assert(t * tile == (t - 1) * tile + tile) by (nonlinear_arith);
}

/// A refused design is named itself, then its weights, and then a size beyond 32 bits.
pub proof fn lemma_design_refusals(
    x_len: usize,
    y_len: usize,
    sw_len: usize,
    n: usize,
    d: usize,
    n_y: usize,
)
    ensures
        (n == 0 || d == 0 || n_y == 0 || x_len != n * d || y_len != n * n_y)
            ==> design_fault(x_len, y_len, sw_len, n, d, n_y) == Some(
            PrimError::ShapeMismatch { operand: "ridge_gcv.x", rows: n, cols: d, len: x_len },
        ),
        !(n == 0 || d == 0 || n_y == 0 || x_len != n * d || y_len != n * n_y) && sw_len != n
            ==> design_fault(x_len, y_len, sw_len, n, d, n_y) == Some(
            PrimError::ShapeMismatch { operand: "ridge_gcv.sqrt_sw", rows: n, cols: 1, len: sw_len },
        ),
        !(n == 0 || d == 0 || n_y == 0 || x_len != n * d || y_len != n * n_y) && sw_len == n
            && n > u32::MAX ==> design_fault(x_len, y_len, sw_len, n, d, n_y) == Some(
            PrimError::ShapeMismatch { operand: "n", rows: n, cols: 0, len: 0xFFFF_FFFF },
        ),
        !(n == 0 || d == 0 || n_y == 0 || x_len != n * d || y_len != n * n_y) && sw_len == n
            && n <= u32::MAX && d > u32::MAX
            ==> design_fault(x_len, y_len, sw_len, n, d, n_y) == Some(
            PrimError::ShapeMismatch { operand: "d", rows: d, cols: 0, len: 0xFFFF_FFFF },
        ),
        !(n == 0 || d == 0 || n_y == 0 || x_len != n * d || y_len != n * n_y) && sw_len == n
            && n <= u32::MAX && d <= u32::MAX && n_y > u32::MAX
            ==> design_fault(x_len, y_len, sw_len, n, d, n_y) == Some(
            PrimError::ShapeMismatch { operand: "n_y", rows: n_y, cols: 0, len: 0xFFFF_FFFF },
        ),
{
}

} // verus!
