//! The build plan of a forest: which parameters are refused, how the trees of
//! each level are cut into chunks that fit the histogram budget, and how large
//! the buffers are that serve every level.

use crate::arith::{ceil_div_int, clamp_int, clamp_u64, ceil_div_u64, max_u64, min_u64, two_pow};
use crate::error::{first_fault, shape_error, shape_mismatch, u32_fault, verdict, PrimError};
use crate::float_order::{magnitude64, order_value64, INF64, SIGN64};
use crate::launch::{
    cube_dims, folded_dims, launch_cubes, launch_dims_1d_folded, LaunchDims, PERF_TUNED_BLOCK,
};
use crate::random_forest::sampling::level_offset;
use crate::seqs::{first_bad_label, label_ok};
use vstd::arithmetic::power2::pow2;
use vstd::prelude::*;

verus! {

/// Bytes that the transient histograms of one level may take.
pub const RF_HIST_BUDGET_BYTES: u64 = 67_108_864;

/// Units that a row-blocked launch aims for.
pub const RF_TARGET_UNITS: u64 = 131_072;

/// The most row blocks per histogram column.
pub const RF_MAX_ROW_BLOCKS: u64 = 512;

/// Histogram slots that fit the shared memory of one cube.
pub const RF_ATOMIC_SHARED_SLOTS: u64 = 4096;

/// The deepest tree: a complete layout grows with two to the depth.
pub const RF_MAX_DEPTH_CAP: usize = 16;

/// How many row blocks the histogram of a level chunk is gathered in.
pub open spec fn hist_blocks_int(
    cols: int,
    hist_bytes: int,
    n: int,
    nodes: int,
    slice: int,
) -> int {
    clamp_int(
        vstd::math::min(
            vstd::math::min(
                ceil_div_int(RF_TARGET_UNITS as int, vstd::math::max(cols, 1)),
                RF_HIST_BUDGET_BYTES as int / vstd::math::max(hist_bytes, 1),
            ),
            vstd::math::max(
                n / vstd::math::max(nodes, 1) / vstd::math::max(slice, 1),
                1,
            ),
        ),
        1,
        RF_MAX_ROW_BLOCKS as int,
    )
}

/// Row blocks for the histogram of a level chunk: enough to reach the launch
/// target, within the byte budget, and never less than a slice of rows each.
pub fn hist_blocks(cols: u64, hist_bytes: u64, n: u64, nodes: u64, slice: u64) -> (r: u64)
    ensures
        r == hist_blocks_int(
            cols as int,
            hist_bytes as int,
            n as int,
            nodes as int,
            slice as int,
        ),
        1 <= r <= RF_MAX_ROW_BLOCKS,
{
    let by_units: u64 = ceil_div_u64(RF_TARGET_UNITS, max_u64(cols, 1));
    let by_bytes: u64 = RF_HIST_BUDGET_BYTES / max_u64(hist_bytes, 1);
    let by_rows: u64 = max_u64(n / max_u64(nodes, 1) / max_u64(slice, 1), 1);
    clamp_u64(min_u64(min_u64(by_units, by_bytes), by_rows), 1, RF_MAX_ROW_BLOCKS)
}

/// How many cubes share a node's rows in the shared-memory histogram.
pub open spec fn atomic_hist_blocks_int(cols: int) -> int {
    clamp_int(ceil_div_int(512, vstd::math::max(cols, 1)), 1, 64)
}

/// Cubes per node for the shared-memory histogram.
pub fn atomic_hist_blocks(cols: u64) -> (r: u64)
    ensures
        r == atomic_hist_blocks_int(cols as int),
        1 <= r <= 64,
{
    clamp_u64(ceil_div_u64(512, max_u64(cols, 1)), 1, 64)
}

/// How many row blocks the partition of a level is done in.
pub open spec fn partition_blocks_int(units: int, n: int, nodes: int) -> int {
    clamp_int(
        vstd::math::min(
            ceil_div_int(RF_TARGET_UNITS as int, vstd::math::max(units, 1)),
            vstd::math::max(n / vstd::math::max(nodes, 1) / 16, 1),
        ),
        1,
        RF_MAX_ROW_BLOCKS as int,
    )
}

/// Row blocks for the partition of a level, with at least 16 rows each.
pub fn partition_blocks(units: u64, n: u64, nodes: u64) -> (r: u64)
    ensures
        r == partition_blocks_int(units as int, n as int, nodes as int),
        1 <= r <= RF_MAX_ROW_BLOCKS,
{
    let by_units: u64 = ceil_div_u64(RF_TARGET_UNITS, max_u64(units, 1));
    let by_rows: u64 = max_u64(n / max_u64(nodes, 1) / 16, 1);
    clamp_u64(min_u64(by_units, by_rows), 1, RF_MAX_ROW_BLOCKS)
}

/// Refuses an index range that 32-bit kernel indices cannot address.
pub fn fits_u32(value: usize, operand: &'static str) -> (r: Result<u32, PrimError>)
    ensures
        match u32_fault(operand, value) {
            Some(e) => r == Err::<u32, PrimError>(e),
            None => r == Ok::<u32, PrimError>(value as u32),
        },
        r is Ok <==> value <= 0xFFFF_FFFF,
        r is Ok ==> r->Ok_0 == value,
{
    match crate::error::guard_u32(operand, value) {
        Err(e) => Err(e),
        Ok(()) => Ok(value as u32),
    }
}

/// The parameters of a forest fit.
#[derive(Debug, Clone, Copy, PartialEq, Eq)]
pub struct RfParams {
    /// Number of trees.
    pub n_trees: usize,
    /// Depth at which every leaf is forced.
    pub max_depth: usize,
    /// Histogram bins per feature.
    pub n_bins: usize,
    /// Features that a node may choose from.
    pub max_features: usize,
    /// Smallest weight that is split, as 64-bit floating-point bits.
    pub min_samples_split: u64,
    /// Smallest weight of a child, as 64-bit floating-point bits.
    pub min_samples_leaf: u64,
    /// Whether each tree draws its rows with replacement.
    pub bootstrap: bool,
    /// Seed of the whole fit.
    pub seed: u64,
    /// Whether the fit is scored on the rows that its trees did not draw.
    pub oob_score: bool,
}

/// What a forest predicts.
#[derive(Debug, Clone, Copy, PartialEq, Eq)]
pub enum RfTarget {
    /// One of `n_classes` classes.
    Class { n_classes: usize },
    /// A number.
    Reg,
}

impl RfTarget {
    /// Histogram slots per bin: one per class, or a count and a sum.
    pub open spec fn slots(self) -> int {
        match self {
            RfTarget::Class { n_classes } => n_classes as int,
            RfTarget::Reg => 2,
        }
    }

    /// Values stored per leaf.
    pub open spec fn leaf_values(self) -> int {
        match self {
            RfTarget::Class { n_classes } => n_classes as int,
            RfTarget::Reg => 1,
        }
    }
}

/// A floating-point pattern that is finite and not negative.
pub open spec fn finite_nonnegative(b: u64) -> bool {
    magnitude64(b) < INF64 && order_value64(b) >= 0
}

fn is_finite_nonnegative(b: u64) -> (r: bool)
    ensures
        r == finite_nonnegative(b),
{
    b < INF64 || b == SIGN64
}

/// Why a fit is refused for its geometry or parameters.
pub open spec fn fit_fault(x_len: usize, n: usize, d: usize, p: RfParams) -> Option<PrimError> {
    if n == 0 || d == 0 || x_len != n * d {
        Some(shape_error("x", n, d, x_len))
    } else if p.n_trees == 0 {
        Some(shape_error("n_trees", 0, 0, 0))
    } else if p.max_depth == 0 || p.max_depth > RF_MAX_DEPTH_CAP {
        Some(shape_error("max_depth", p.max_depth, 1, RF_MAX_DEPTH_CAP))
    } else if p.n_bins < 2 || p.n_bins > 256 {
        Some(shape_error("n_bins", p.n_bins, 2, 256))
    } else if p.max_features == 0 || p.max_features > d {
        Some(shape_error("max_features", p.max_features, 1, d))
    } else if !finite_nonnegative(p.min_samples_split) || !finite_nonnegative(p.min_samples_leaf) {
        Some(shape_error("min_samples", 0, 0, 0))
    } else {
        None
    }
}

/// Refuses a fit for its geometry or parameters.
pub fn validate_fit(x_len: usize, n: usize, d: usize, p: &RfParams) -> (r: Result<(), PrimError>)
    ensures
        r == verdict(fit_fault(x_len, n, d, *p)),
{
    if n == 0 || d == 0 || !crate::arith::product_is(n, d, x_len) {
        return Err(shape_mismatch("x", n, d, x_len));
    }
    if p.n_trees == 0 {
        return Err(shape_mismatch("n_trees", 0, 0, 0));
    }
    if p.max_depth == 0 || p.max_depth > RF_MAX_DEPTH_CAP {
        return Err(shape_mismatch("max_depth", p.max_depth, 1, RF_MAX_DEPTH_CAP));
    }
    if p.n_bins < 2 || p.n_bins > 256 {
        return Err(shape_mismatch("n_bins", p.n_bins, 2, 256));
    }
    if p.max_features == 0 || p.max_features > d {
        return Err(shape_mismatch("max_features", p.max_features, 1, d));
    }
    if !is_finite_nonnegative(p.min_samples_split) || !is_finite_nonnegative(p.min_samples_leaf) {
        return Err(shape_mismatch("min_samples", 0, 0, 0));
    }
    Ok(())
}

/// Refuses class labels that do not match the rows, the class count, or whose
/// first out-of-range entry is reported with its position.
pub fn validate_class_target(y: &[u32], n: usize, n_classes: usize) -> (r: Result<(), PrimError>)
    ensures
        if y@.len() != n {
            r == Err::<(), PrimError>(shape_error("y_idx", n, 1, y@.len() as usize))
        } else if n_classes < 2 || n_classes > 1024 {
            r == Err::<(), PrimError>(shape_error("n_classes", n_classes, 1, n_classes))
        } else {
            match r {
                Ok(()) => forall|i: int|
                    0 <= i < y@.len() ==> #[trigger] label_ok(y@, n_classes, i),
                Err(e) => exists|i: int| #[trigger]
                    first_bad_label(y@, n_classes, i) && e == shape_error(
                        "y_idx",
                        i as usize,
                        y@[i] as usize,
                        n_classes,
                    ),
            }
        },
{
    if y.len() != n {
        return Err(shape_mismatch("y_idx", n, 1, y.len()));
    }
    if n_classes < 2 || n_classes > 1024 {
        return Err(shape_mismatch("n_classes", n_classes, 1, n_classes));
    }
    let mut i: usize = 0;
    while i < n
        invariant
            i <= n,
            n == y@.len(),
            2 <= n_classes <= 1024,
            forall|j: int| 0 <= j < i ==> #[trigger] label_ok(y@, n_classes, j),
        decreases n - i,
    {
        let c: usize = y[i] as usize;
        if c >= n_classes {
            assert(first_bad_label(y@, n_classes, i as int));
            return Err(shape_mismatch("y_idx", i, c, n_classes));
        }
        assert(label_ok(y@, n_classes, i as int));
        i = i + 1;
    }
    Ok(())
}

/// Refuses a regression target that does not match the rows.
pub fn validate_reg_target(y_len: usize, n: usize) -> (r: Result<(), PrimError>)
    ensures
        r == verdict(
            if y_len != n {
                Some(shape_error("y", n, 1, y_len))
            } else {
                None
            },
        ),
{
    if y_len != n {
        return Err(shape_mismatch("y", n, 1, y_len));
    }
    Ok(())
}

/// The sizes that a forest build is planned from.
#[derive(Debug, Clone, Copy, PartialEq, Eq)]
pub struct RfGeometry {
    pub n: usize,
    pub d: usize,
    pub n_trees: usize,
    pub depth: usize,
    pub n_bins: usize,
    pub max_features: usize,
    /// Histogram slots per bin.
    pub slots: usize,
    /// Values stored per leaf.
    pub n_values: usize,
    /// Bytes per floating-point element.
    pub elem_bytes: usize,
    /// Whether the shared-memory histogram is used.
    pub use_atomic: bool,
}

impl RfGeometry {
    /// Nodes of a complete tree.
    pub open spec fn total_nodes(self) -> int {
        pow2((self.depth + 1) as nat) - 1
    }

    /// Histogram columns of `trees` trees at level `l`.
    pub open spec fn cols(self, l: nat, trees: int) -> int {
        trees * pow2(l) * self.max_features
    }

    /// Histogram entries per column.
    pub open spec fn slice(self) -> int {
        self.n_bins * self.slots
    }

    /// Histogram entries of `trees` trees at level `l`.
    pub open spec fn hist_len(self, l: nat, trees: int) -> int {
        self.cols(l, trees) * self.slice()
    }

    /// Split scores of `trees` trees at level `l`.
    pub open spec fn scores_len(self, l: nat, trees: int) -> int {
        self.cols(l, trees) * (self.n_bins - 1)
    }

    /// Nodes of `trees` trees at level `l`.
    pub open spec fn stats_len(self, l: nat, trees: int) -> int {
        trees * pow2(l)
    }

    /// Bytes that one tree needs at level `l`.
    pub open spec fn per_tree_bytes(self, l: nat) -> int {
        self.hist_len(l, 1) * self.elem_bytes + self.scores_len(l, 1) * self.elem_bytes + 3
            * self.stats_len(l, 1) * self.elem_bytes
    }

    /// Trees that are built together at level `l`: as many as the budget holds,
    /// and at least one.
    pub open spec fn chunk_trees(self, l: nat) -> int {
        clamp_int(
            RF_HIST_BUDGET_BYTES as int / vstd::math::max(self.per_tree_bytes(l), 1),
            1,
            self.n_trees as int,
        )
    }

    /// Trees left over for the last chunk of level `l`.
    pub open spec fn tail_trees(self, l: nat) -> int {
        self.n_trees as int % self.chunk_trees(l)
    }

    /// Row blocks of a histogram over `trees` trees at level `l`.
    pub open spec fn row_blocks(self, l: nat, trees: int) -> int {
        hist_blocks_int(
            self.cols(l, trees),
            self.hist_len(l, trees) * self.elem_bytes,
            self.n as int,
            pow2(l) as int,
            self.slice(),
        )
    }

    /// Partial histogram entries that a chunk needs: none when its rows are
    /// gathered in one block or in shared memory.
    pub open spec fn part_len(self, l: nat, trees: int) -> int {
        if self.row_blocks(l, trees) > 1 && !self.use_atomic {
            self.hist_len(l, trees) * self.row_blocks(l, trees)
        } else {
            0
        }
    }

    /// Block counters that the partition of level `l` needs; the last level is
    /// not partitioned.
    pub open spec fn blk_len(self, l: nat) -> int {
        if l < self.depth {
            self.stats_len(l, self.n_trees as int) * partition_blocks_int(
                self.stats_len(l, self.n_trees as int),
                self.n as int,
                pow2(l) as int,
            )
        } else {
            0
        }
    }

    /// The largest histogram of the levels below `m`.
    pub open spec fn peak_hist(self, m: nat) -> int
        decreases m,
    {
        if m == 0 {
            0
        } else {
            let l = (m - 1) as nat;
            vstd::math::max3(
                self.peak_hist(l),
                self.hist_len(l, self.chunk_trees(l)),
                self.hist_len(l, self.tail_trees(l)),
            )
        }
    }

    /// The largest partial histogram of the levels below `m`.
    pub open spec fn peak_part(self, m: nat) -> int
        decreases m,
    {
        if m == 0 {
            0
        } else {
            let l = (m - 1) as nat;
            vstd::math::max3(
                self.peak_part(l),
                self.part_len(l, self.chunk_trees(l)),
                self.part_len(l, self.tail_trees(l)),
            )
        }
    }

    /// The largest score buffer of the levels below `m`.
    pub open spec fn peak_scores(self, m: nat) -> int
        decreases m,
    {
        if m == 0 {
            0
        } else {
            let l = (m - 1) as nat;
            vstd::math::max3(
                self.peak_scores(l),
                self.scores_len(l, self.chunk_trees(l)),
                self.scores_len(l, self.tail_trees(l)),
            )
        }
    }

    /// The largest node-statistics buffer of the levels below `m`.
    pub open spec fn peak_stats(self, m: nat) -> int
        decreases m,
    {
        if m == 0 {
            0
        } else {
            let l = (m - 1) as nat;
            vstd::math::max3(
                self.peak_stats(l),
                self.stats_len(l, self.chunk_trees(l)),
                self.stats_len(l, self.tail_trees(l)),
            )
        }
    }

    /// The largest partition buffer of the levels below `m`.
    pub open spec fn peak_blk(self, m: nat) -> int
        decreases m,
    {
        if m == 0 {
            0
        } else {
            vstd::math::max(self.peak_blk((m - 1) as nat), self.blk_len((m - 1) as nat))
        }
    }

    /// What the checks before a build establish.
    pub open spec fn bounded(self) -> bool {
        &&& 1 <= self.n_trees
        &&& 1 <= self.depth <= RF_MAX_DEPTH_CAP
        &&& 2 <= self.n_bins <= 256
        &&& 1 <= self.max_features
        &&& 1 <= self.slots
        &&& self.elem_bytes == 4 || self.elem_bytes == 8
        &&& self.hist_len(self.depth as nat, self.n_trees as int) <= u32::MAX
    }

    /// Every size of a level chunk is bounded by the full level's histogram.
    proof fn lemma_chunk_bounds(self, l: nat, trees: int)
        requires
            self.bounded(),
            l <= self.depth,
            0 <= trees <= self.n_trees,
        ensures
            1 <= pow2(l) <= 65536,
            0 <= self.stats_len(l, trees) <= self.cols(l, trees),
            0 <= self.cols(l, trees) <= self.hist_len(l, trees) <= u32::MAX,
            0 <= self.scores_len(l, trees) <= self.hist_len(l, trees),
            2 <= self.slice(),
            self.slice() <= u32::MAX,
            pow2(l) * self.max_features <= u32::MAX,
            trees >= 1 ==> self.hist_len(l, trees) >= 1,
            0 <= self.per_tree_bytes(l) <= 5 * 8 * u32::MAX,
    {
        let p = pow2(l) as int;
        let pd = pow2(self.depth as nat) as int;
        vstd::arithmetic::power2::lemma_pow2_pos(l);
        vstd::arithmetic::power2::lemma2_to64();
        if l < self.depth {
            vstd::arithmetic::power2::lemma_pow2_strictly_increases(l, self.depth as nat);
        }
        if self.depth < 16 {
            vstd::arithmetic::power2::lemma_pow2_strictly_increases(self.depth as nat, 16);
        }
        let mf = self.max_features as int;
        let s = self.slice();
        let nb = self.n_bins as int;
        let t = self.n_trees as int;
        assert(s >= nb >= 2) by (nonlinear_arith)
            requires
                s == nb * self.slots,
                self.slots >= 1,
                nb >= 2,
        ;
        self.lemma_cols_bound(l, trees, p, pd, mf, s, nb, t);
        self.lemma_cols_bound(l, 1, p, pd, mf, s, nb, t);
        let a = self.hist_len(l, 1);
        let b = self.scores_len(l, 1);
        let c = self.stats_len(l, 1);
        let e = self.elem_bytes as int;
        assert(0 <= a * e <= 8 * u32::MAX && 0 <= b * e <= 8 * u32::MAX && 0 <= 3 * c * e <= 3 * 8
            * u32::MAX) by (nonlinear_arith)
            requires
                0 <= a <= u32::MAX,
                0 <= b <= u32::MAX,
                0 <= c <= u32::MAX,
                e == 4 || e == 8,
        ;
    }

    proof fn lemma_cols_bound(
        self,
        l: nat,
        trees: int,
        p: int,
        pd: int,
        mf: int,
        s: int,
        nb: int,
        t: int,
    )
        requires
            p == pow2(l),
            pd == pow2(self.depth as nat),
            mf == self.max_features,
            s == self.slice(),
            nb == self.n_bins,
            t == self.n_trees,
            1 <= p <= pd,
            mf >= 1,
            s >= nb >= 2,
            0 <= trees <= t,
            self.hist_len(self.depth as nat, t) <= u32::MAX,
        ensures
            0 <= self.stats_len(l, trees) <= self.cols(l, trees),
            0 <= self.cols(l, trees) <= self.hist_len(l, trees) <= u32::MAX,
            0 <= self.scores_len(l, trees) <= self.hist_len(l, trees),
            trees >= 1 ==> self.hist_len(l, trees) >= 1,
            trees >= 1 ==> s <= u32::MAX,
            trees >= 1 ==> p * mf <= u32::MAX,
    {
        let c = trees * p * mf;
        let cd = t * pd * mf;
        assert(0 <= trees * p <= t * pd) by (nonlinear_arith)
            requires
                0 <= trees <= t,
                1 <= p <= pd,
        ;
        let x = trees * p;
        let xd = t * pd;
        assert(0 <= x <= x * mf && x * mf <= xd * mf) by (nonlinear_arith)
            requires
                0 <= x <= xd,
                mf >= 1,
        ;
        assert(c <= c * s && c * s <= cd * s && 0 <= c * (nb - 1) <= c * s) by (nonlinear_arith)
            requires
                0 <= c <= cd,
                s >= nb >= 2,
        ;
        if trees >= 1 {
            assert(c >= p * mf && c * s >= s && p * mf >= 1) by (nonlinear_arith)
                requires
                    c == trees * p * mf,
                    trees >= 1,
                    p >= 1,
                    mf >= 1,
                    s >= 2,
            ;
        }
    }
}

/// The sizes of one chunk of trees at one level.
#[derive(Debug, Clone, Copy, PartialEq, Eq)]
pub struct RfChunk {
    /// First tree of the chunk.
    pub tree_base: usize,
    /// Trees in the chunk.
    pub trees: usize,
    /// Histogram columns.
    pub cols: u64,
    /// Histogram entries.
    pub hist_len: u64,
    /// Split scores.
    pub scores_len: u64,
    /// Nodes.
    pub stats_len: u64,
    /// Row blocks that the histogram is gathered in.
    pub row_blocks: u64,
    /// Partial histogram entries.
    pub part_len: u64,
    /// Cubes per node on the shared-memory path.
    pub atomic_blocks: u64,
}

/// The chunk that builds `trees` trees from `tree_base` on at level `l`.
pub open spec fn chunk_at(g: RfGeometry, l: nat, tree_base: int, trees: int, c: RfChunk) -> bool {
    &&& c.tree_base == tree_base
    &&& c.trees == trees
    &&& c.cols == g.cols(l, trees)
    &&& c.hist_len == g.hist_len(l, trees)
    &&& c.scores_len == g.scores_len(l, trees)
    &&& c.stats_len == g.stats_len(l, trees)
    &&& c.row_blocks == g.row_blocks(l, trees)
    &&& c.part_len == g.part_len(l, trees)
    &&& c.atomic_blocks == atomic_hist_blocks_int(g.stats_len(l, trees))
}

fn chunk_sizes(g: &RfGeometry, l: usize, nodes: u64, tree_base: usize, trees: usize) -> (c: RfChunk)
    requires
        g.bounded(),
        l <= g.depth,
        nodes == pow2(l as nat),
        trees <= g.n_trees,
    ensures
        chunk_at(*g, l as nat, tree_base as int, trees as int, c),
        c.part_len <= 512 * u32::MAX,
{
    proof {
        g.lemma_chunk_bounds(l as nat, trees as int);
    }
    let slice: u64 = g.n_bins as u64 * g.slots as u64;
    let stats_len: u64 = trees as u64 * nodes;
    let cols: u64 = stats_len * g.max_features as u64;
    let hist_len: u64 = cols * slice;
    let scores_len: u64 = cols * (g.n_bins as u64 - 1);
    assert(hist_len * g.elem_bytes <= 8 * u32::MAX) by (nonlinear_arith)
        requires
            hist_len <= u32::MAX,
            g.elem_bytes == 4 || g.elem_bytes == 8,
    ;
    let row_blocks: u64 = hist_blocks(
        cols,
        hist_len * g.elem_bytes as u64,
        g.n as u64,
        nodes,
        slice,
    );
    assert(hist_len * row_blocks <= 512 * u32::MAX) by (nonlinear_arith)
        requires
            hist_len <= u32::MAX,
            row_blocks <= 512,
    ;
    let part_len: u64 = if row_blocks > 1 && !g.use_atomic {
        hist_len * row_blocks
    } else {
        0
    };
    RfChunk {
        tree_base,
        trees,
        cols,
        hist_len,
        scores_len,
        stats_len,
        row_blocks,
        part_len,
        atomic_blocks: atomic_hist_blocks(stats_len),
    }
}

fn level_chunk_trees(g: &RfGeometry, l: usize, nodes: u64) -> (r: usize)
    requires
        g.bounded(),
        l <= g.depth,
        nodes == pow2(l as nat),
    ensures
        r == g.chunk_trees(l as nat),
        1 <= r <= g.n_trees,
{
    proof {
        g.lemma_chunk_bounds(l as nat, 1);
    }
    let c: RfChunk = chunk_sizes(g, l, nodes, 0, 1);
    let e: u64 = g.elem_bytes as u64;
    proof {
        let a = c.hist_len as int;
        let b = c.scores_len as int;
        let k = c.stats_len as int;
        assert(0 <= a * e <= 8 * u32::MAX && 0 <= b * e <= 8 * u32::MAX && 0 <= 3 * k * e <= 3 * 8
            * u32::MAX) by (nonlinear_arith)
            requires
                0 <= a <= u32::MAX,
                0 <= b <= u32::MAX,
                0 <= k <= u32::MAX,
                e == 4 || e == 8,
        ;
    }
    let bytes: u64 = c.hist_len * e + c.scores_len * e + 3 * c.stats_len * e;
    clamp_u64(RF_HIST_BUDGET_BYTES / max_u64(bytes, 1), 1, g.n_trees as u64) as usize
}

/// The sizes that serve a whole build.
#[derive(Debug, Clone, Copy, PartialEq, Eq)]
pub struct RfPlan {
    pub geometry: RfGeometry,
    /// Nodes of a complete tree.
    pub total_nodes: usize,
    /// Entries of the node range table: two per node of the widest level.
    pub ranges_len: usize,
    /// Entries of the whole-forest feature table.
    pub total_feat_len: u64,
    /// Whether the feature table is small enough to be drawn up front.
    pub pregen_feats: bool,
    /// Histogram entries that serve every chunk.
    pub max_hist: u64,
    /// Partial histogram entries that serve every chunk.
    pub max_part: u64,
    /// Split scores that serve every chunk.
    pub max_scores: u64,
    /// Node statistics that serve every chunk.
    pub max_stats: u64,
    /// Block counters that serve the partition of every level.
    pub max_blk: u64,
}

/// The sizes of a fit, as its arguments give them.
pub open spec fn geometry_of(
    n: usize,
    d: usize,
    target: RfTarget,
    p: RfParams,
    elem_bytes: usize,
    atomic_histograms: bool,
) -> RfGeometry {
    RfGeometry {
        n,
        d,
        n_trees: p.n_trees,
        depth: p.max_depth,
        n_bins: p.n_bins,
        max_features: p.max_features,
        slots: target.slots() as usize,
        n_values: target.leaf_values() as usize,
        elem_bytes,
        use_atomic: atomic_histograms && target is Class && p.max_features * p.n_bins
            * target.slots() <= RF_ATOMIC_SHARED_SLOTS,
    }
}

/// The fault of a size beyond 32 bits.
pub open spec fn wide_fault(operand: &'static str, v: int) -> Option<PrimError> {
    if v > u32::MAX {
        Some(crate::error::u32_error(operand, v as usize))
    } else {
        None
    }
}

/// Why a build of this geometry is refused: one of its index ranges, or one of
/// its level buffers, is beyond 32-bit indices.
pub open spec fn size_fault(g: RfGeometry) -> Option<PrimError> {
    let levels = (g.depth + 1) as nat;
    first_fault(
        wide_fault("n*d", g.n * g.d),
        first_fault(
            wide_fault("n_trees*n", g.n_trees * g.n),
            first_fault(
                wide_fault(
                    "n_trees*total_nodes*n_values",
                    g.n_trees * g.total_nodes() * g.n_values,
                ),
                first_fault(
                    wide_fault("level_hist", g.hist_len(g.depth as nat, g.n_trees as int)),
                    first_fault(
                        wide_fault(
                            "level_hist_part",
                            vstd::math::max(g.peak_part(levels), g.peak_hist(levels)),
                        ),
                        wide_fault("partition_units", g.peak_blk(levels)),
                    ),
                ),
            ),
        ),
    )
}

/// Whether the products that the size checks look at fit a `usize`.
pub open spec fn products_fit(g: RfGeometry) -> bool {
    &&& g.n_trees * g.n <= usize::MAX
    &&& g.n_trees * g.total_nodes() * g.n_values <= usize::MAX
    &&& g.hist_len(g.depth as nat, g.n_trees as int) <= usize::MAX
}

/// What a plan says of its geometry.
pub open spec fn plan_matches(plan: RfPlan, g: RfGeometry) -> bool {
    let levels = (g.depth + 1) as nat;
    &&& plan.geometry == g
    &&& plan.total_nodes == g.total_nodes()
    &&& plan.ranges_len == g.stats_len(g.depth as nat, g.n_trees as int) * 2
    &&& plan.total_feat_len == level_offset(g.n_trees as int, g.max_features as int, levels)
    &&& plan.pregen_feats == (plan.total_feat_len * 4 <= RF_HIST_BUDGET_BYTES)
    &&& plan.max_hist == g.peak_hist(levels)
    &&& plan.max_part == g.peak_part(levels)
    &&& plan.max_scores == g.peak_scores(levels)
    &&& plan.max_stats == g.peak_stats(levels)
    &&& plan.max_blk == g.peak_blk(levels)
}

fn check_wide(v: u64, operand: &'static str) -> (r: Result<(), PrimError>)
    ensures
        r == verdict(wide_fault(operand, v as int)),
{
    if v > u32::MAX as u64 {
        Err(shape_mismatch(operand, v as usize, 0, u32::MAX as usize))
    } else {
        Ok(())
    }
}

proof fn lemma_total_feat(g: RfGeometry)
    requires
        g.bounded(),
    ensures
        0 <= level_offset(g.n_trees as int, g.max_features as int, (g.depth + 1) as nat)
            <= g.hist_len(g.depth as nat, g.n_trees as int),
        0 <= g.stats_len(g.depth as nat, g.n_trees as int) * 2 <= g.hist_len(
            g.depth as nat,
            g.n_trees as int,
        ),
{
    let t = g.n_trees as int;
    let mf = g.max_features as int;
    let p = pow2(g.depth as nat) as int;
    let s = g.slice();
    g.lemma_chunk_bounds(g.depth as nat, t);
    vstd::arithmetic::power2::lemma_pow2_unfold((g.depth + 1) as nat);
    let c = t * p * mf;
    assert(t * mf * (2 * p - 1) <= 2 * c && t * mf * (2 * p - 1) >= 0) by (nonlinear_arith)
        requires
            c == t * p * mf,
            t >= 1,
            mf >= 1,
            p >= 1,
    ;
    assert(2 * c <= c * s) by (nonlinear_arith)
        requires
            c >= 0,
            s >= 2,
    ;
}

/// Plans a build: refuses what [`validate_fit`] or the index ranges refuse, and
/// otherwise gives the sizes of every buffer. `atomic_histograms` says whether
/// the backend has shared-memory histograms.
pub fn rf_fit_plan(
    x_len: usize,
    n: usize,
    d: usize,
    target: RfTarget,
    p: &RfParams,
    elem_bytes: usize,
    atomic_histograms: bool,
) -> (r: Result<RfPlan, PrimError>)
    requires
        elem_bytes == 4 || elem_bytes == 8,
        target matches RfTarget::Class { n_classes } ==> 2 <= n_classes <= 1024,
        fit_fault(x_len, n, d, *p) is None ==> products_fit(
            geometry_of(n, d, target, *p, elem_bytes, atomic_histograms),
        ),
    ensures
        ({
            let g = geometry_of(n, d, target, *p, elem_bytes, atomic_histograms);
            match first_fault(fit_fault(x_len, n, d, *p), size_fault(g)) {
                Some(e) => r == Err::<RfPlan, PrimError>(e),
                None => r matches Ok(plan) && plan_matches(plan, g) && g.bounded() && plan.max_hist
                    <= u32::MAX && plan.max_part <= u32::MAX && plan.max_blk <= u32::MAX,
            }
        }),
{
    match validate_fit(x_len, n, d, p) {
        Err(e) => {
            return Err(e);
        },
        Ok(()) => {},
    }
    let ghost g0 = geometry_of(n, d, target, *p, elem_bytes, atomic_histograms);
    let t: usize = p.n_trees;
    let depth: usize = p.max_depth;
    let (slots, n_values, classify): (usize, usize, bool) = match target {
        RfTarget::Class { n_classes } => (n_classes, n_classes, true),
        RfTarget::Reg => (2, 1, false),
    };
    proof {
        vstd::arithmetic::power2::lemma2_to64();
        if depth < 16 {
            vstd::arithmetic::power2::lemma_pow2_strictly_increases(depth as nat, 16);
        }
        vstd::arithmetic::power2::lemma_pow2_unfold((depth + 1) as nat);
        vstd::arithmetic::power2::lemma_pow2_pos(depth as nat);
    }
    let widest: usize = two_pow(depth);
    let total_nodes: usize = widest * 2 - 1;
    match check_wide((n * d) as u64, "n*d") {
        Err(e) => {
            return Err(e);
        },
        Ok(()) => {},
    }
    match check_wide((t * n) as u64, "n_trees*n") {
        Err(e) => {
            return Err(e);
        },
        Ok(()) => {},
    }
    assert(t * total_nodes <= t * total_nodes * n_values) by (nonlinear_arith)
        requires
            t >= 0,
            total_nodes >= 0,
            n_values >= 1,
    ;
    match check_wide((t * total_nodes * n_values) as u64, "n_trees*total_nodes*n_values") {
        Err(e) => {
            return Err(e);
        },
        Ok(()) => {},
    }
    let mf: usize = p.max_features;
    let nb: usize = p.n_bins;
    assert(nb * slots <= 256 * 1024 && nb * slots >= 2) by (nonlinear_arith)
        requires
            2 <= nb <= 256,
            1 <= slots <= 1024,
    ;
    let slice: usize = nb * slots;
    assert(t * widest <= t * widest * mf && t * widest * mf <= (t * widest * mf) * slice)
        by (nonlinear_arith)
        requires
            t >= 0,
            widest >= 0,
            mf >= 1,
            slice >= 1,
    ;
    assert(g0.hist_len(depth as nat, t as int) == (t * widest * mf) * slice);
    match check_wide((t * widest * mf * slice) as u64, "level_hist") {
        Err(e) => {
            return Err(e);
        },
        Ok(()) => {},
    }
    assert(mf * nb * slots == mf * slice) by (nonlinear_arith)
        requires
            slice == nb * slots,
    ;
    assert(mf * slice <= (t * widest * mf) * slice) by (nonlinear_arith)
        requires
            t >= 1,
            widest >= 1,
            mf >= 1,
            slice >= 1,
    ;
    let use_atomic: bool = atomic_histograms && classify && (mf * slice) as u64
        <= RF_ATOMIC_SHARED_SLOTS;
    let g: RfGeometry = RfGeometry {
        n,
        d,
        n_trees: t,
        depth,
        n_bins: nb,
        max_features: mf,
        slots,
        n_values,
        elem_bytes,
        use_atomic,
    };
    assert(g == g0);
    let mut max_hist: u64 = 0;
    let mut max_part: u64 = 0;
    let mut max_scores: u64 = 0;
    let mut max_stats: u64 = 0;
    let mut max_blk: u64 = 0;
    let mut level: usize = 0;
    let mut nodes: u64 = 1;
    while level < depth + 1
        invariant
            level <= depth + 1,
            depth == g.depth,
            t == g.n_trees,
            g.bounded(),
            level <= depth ==> nodes == pow2(level as nat),
            max_hist == g.peak_hist(level as nat),
            max_part == g.peak_part(level as nat),
            max_scores == g.peak_scores(level as nat),
            max_stats == g.peak_stats(level as nat),
            max_blk == g.peak_blk(level as nat),
        decreases depth + 1 - level,
    {
        let chunk: usize = level_chunk_trees(&g, level, nodes);
        let full: RfChunk = chunk_sizes(&g, level, nodes, 0, chunk);
        let tail: RfChunk = chunk_sizes(&g, level, nodes, 0, t % chunk);
        max_hist = max_u64(max_u64(max_hist, full.hist_len), tail.hist_len);
        max_part = max_u64(max_u64(max_part, full.part_len), tail.part_len);
        max_scores = max_u64(max_u64(max_scores, full.scores_len), tail.scores_len);
        max_stats = max_u64(max_u64(max_stats, full.stats_len), tail.stats_len);
        proof {
            g.lemma_chunk_bounds(level as nat, t as int);
        }
        if level < depth {
            let units: u64 = t as u64 * nodes;
            let blocks: u64 = partition_blocks(units, g.n as u64, nodes);
            assert(units * blocks <= 512 * u32::MAX) by (nonlinear_arith)
                requires
                    units <= u32::MAX,
                    blocks <= 512,
            ;
            max_blk = max_u64(max_blk, units * blocks);
            proof {
                vstd::arithmetic::power2::lemma_pow2_unfold((level + 1) as nat);
            }
            nodes = nodes * 2;
        }
        level = level + 1;
    }
    match check_wide(max_u64(max_part, max_hist), "level_hist_part") {
        Err(e) => {
            return Err(e);
        },
        Ok(()) => {},
    }
    match check_wide(max_blk, "partition_units") {
        Err(e) => {
            return Err(e);
        },
        Ok(()) => {},
    }
    proof {
        lemma_total_feat(g);
        let w2 = 2 * widest - 1;
        assert(t * mf <= t * mf * w2) by (nonlinear_arith)
            requires
                t >= 0,
                mf >= 0,
                w2 >= 1,
        ;
        assert(t * widest >= 0) by (nonlinear_arith)
            requires
                t >= 0,
                widest >= 0,
        ;
    }
    let total_feat_len: u64 = t as u64 * mf as u64 * (widest as u64 * 2 - 1);
    Ok(
        RfPlan {
            geometry: g,
            total_nodes,
            ranges_len: t * widest * 2,
            total_feat_len,
            pregen_feats: total_feat_len * 4 <= RF_HIST_BUDGET_BYTES,
            max_hist,
            max_part,
            max_scores,
            max_stats,
            max_blk,
        },
    )
}

proof fn lemma_peaks(g: RfGeometry, l: nat, m: nat, trees: int)
    requires
        l < m,
        trees == g.chunk_trees(l) || trees == g.tail_trees(l),
    ensures
        g.hist_len(l, trees) <= g.peak_hist(m),
        g.part_len(l, trees) <= g.peak_part(m),
        g.scores_len(l, trees) <= g.peak_scores(m),
        g.stats_len(l, trees) <= g.peak_stats(m),
    decreases m - l,
{
    if l + 1 < m {
        lemma_peaks(g, l, (m - 1) as nat, trees);
    }
}

proof fn lemma_peak_blk(g: RfGeometry, l: nat, m: nat)
    requires
        l < m,
    ensures
        g.blk_len(l) <= g.peak_blk(m),
    decreases m - l,
{
    if l + 1 < m {
        lemma_peak_blk(g, l, (m - 1) as nat);
    }
}

/// Cuts the trees of a level into chunks. The chunks follow each other from the
/// first tree to the last, all but the last have the same width, and every size
/// of every chunk is within the buffers of the plan.
pub fn level_chunks(plan: &RfPlan, level: usize) -> (r: Vec<RfChunk>)
    requires
        plan.geometry.bounded(),
        plan_matches(*plan, plan.geometry),
        level <= plan.geometry.depth,
    ensures
        ({
            let g = plan.geometry;
            let width = g.chunk_trees(level as nat);
            &&& r.len() == ceil_div_int(g.n_trees as int, width)
            &&& forall|i: int|
                0 <= i < r.len() ==> #[trigger] chunk_at(
                    g,
                    level as nat,
                    i * width,
                    vstd::math::min(width, g.n_trees - i * width),
                    r[i],
                )
        }),
        forall|i: int|
            0 <= i < r.len() ==> #[trigger] r[i].trees >= 1 && r[i].hist_len <= plan.max_hist
                && r[i].part_len <= plan.max_part && r[i].scores_len <= plan.max_scores
                && r[i].stats_len <= plan.max_stats,
{
    let g: RfGeometry = plan.geometry;
    proof {
        g.lemma_chunk_bounds(level as nat, 1);
        vstd::arithmetic::power2::lemma2_to64();
    }
    let nodes: u64 = two_pow(level) as u64;
    let width: usize = level_chunk_trees(&g, level, nodes);
    let t: usize = g.n_trees;
    let count: usize = crate::arith::ceil_div(t, width);
    proof {
        crate::arith::lemma_ceil_div_brackets(t as int, width as int);
    }
    let mut out: Vec<RfChunk> = Vec::new();
    let mut i: usize = 0;
    let mut base: usize = 0;
    assert(0 * width == 0);
    while i < count
        invariant
            i <= count,
            g == plan.geometry,
            g.bounded(),
            plan_matches(*plan, g),
            level <= g.depth,
            nodes == pow2(level as nat),
            width == g.chunk_trees(level as nat),
            t == g.n_trees,
            1 <= width <= t,
            (count - 1) * width < t,
            count * width >= t,
            i < count ==> base == i * width,
            out.len() == i,
            forall|k: int|
                0 <= k < i ==> #[trigger] chunk_at(
                    g,
                    level as nat,
                    k * width,
                    vstd::math::min(width as int, t - k * width),
                    out[k],
                ),
            forall|k: int|
                0 <= k < i ==> #[trigger] out[k].trees >= 1 && out[k].hist_len <= plan.max_hist
                    && out[k].part_len <= plan.max_part && out[k].scores_len <= plan.max_scores
                    && out[k].stats_len <= plan.max_stats,
        decreases count - i,
    {
        assert(base == i * width);
        assert(i * width < t && (i + 1 < count ==> (i + 1) * width < t)) by (nonlinear_arith)
            requires
                i < count,
                (count - 1) * width < t,
                width >= 1,
        ;
        assert((i + 1) * width == i * width + width) by (nonlinear_arith);
        let trees: usize = if width <= t - base {
            width
        } else {
            t - base
        };
        proof {
            if trees != width {
                vstd::arithmetic::div_mod::lemma_fundamental_div_mod_converse(
                    t as int,
                    width as int,
                    i as int,
                    trees as int,
                );
                assert(trees == g.tail_trees(level as nat));
            }
            lemma_peaks(g, level as nat, (g.depth + 1) as nat, trees as int);
        }
        let c: RfChunk = chunk_sizes(&g, level, nodes, base, trees);
        out.push(c);
        if i + 1 < count {
            base = base + width;
        }
        i = i + 1;
        assert(chunk_at(
            g,
            level as nat,
            (i - 1) * width,
            vstd::math::min(width as int, t - (i - 1) * width),
            out[i - 1],
        ));
    }
    out
}

/// Chunks leave out no tree and repeat none: a chunk ends where the next one
/// starts, and the last one ends at the last tree.
pub proof fn lemma_chunks_tile(g: RfGeometry, l: nat, i: int)
    requires
        g.bounded(),
        0 <= i < ceil_div_int(g.n_trees as int, g.chunk_trees(l)),
    ensures
        ({
            let w = g.chunk_trees(l);
            let trees = vstd::math::min(w, g.n_trees - i * w);
            &&& trees >= 1
            &&& i + 1 < ceil_div_int(g.n_trees as int, w) ==> i * w + trees == (i + 1) * w
            &&& i + 1 == ceil_div_int(g.n_trees as int, w) ==> i * w + trees == g.n_trees
        }),
{
    let w = g.chunk_trees(l);
    let t = g.n_trees as int;
    let m = ceil_div_int(t, w);
    crate::arith::lemma_ceil_div_brackets(t, w);
    assert(i * w < t && (i + 1 < m ==> (i + 1) * w < t) && (i + 1 == m ==> (i + 1) * w >= t))
        by (nonlinear_arith)
        requires
            0 <= i < m,
            (m - 1) * w < t,
            m * w >= t,
            w >= 1,
    ;
    assert((i + 1) * w == i * w + w) by (nonlinear_arith);
}

/// How the rows of a level are dealt to its children.
#[derive(Debug, Clone, Copy, PartialEq, Eq)]
pub struct RfPartition {
    /// Nodes that are split.
    pub units: u64,
    /// Row blocks per node.
    pub blocks: u64,
    /// Block counters.
    pub len: u64,
}

/// The partition of a level: none at the last one. Its counters are within the
/// plan's buffer.
pub fn level_partition(plan: &RfPlan, level: usize) -> (r: Option<RfPartition>)
    requires
        plan.geometry.bounded(),
        plan_matches(*plan, plan.geometry),
        level <= plan.geometry.depth,
    ensures
        ({
            let g = plan.geometry;
            let units = g.stats_len(level as nat, g.n_trees as int);
            if level < g.depth {
                r matches Some(q) && q.units == units && q.blocks == partition_blocks_int(
                    units,
                    g.n as int,
                    pow2(level as nat) as int,
                ) && q.len == units * q.blocks && q.len <= plan.max_blk
            } else {
                r is None
            }
        }),
{
    let g: RfGeometry = plan.geometry;
    if level >= g.depth {
        return None;
    }
    proof {
        g.lemma_chunk_bounds(level as nat, g.n_trees as int);
        vstd::arithmetic::power2::lemma2_to64();
        lemma_peak_blk(g, level as nat, (g.depth + 1) as nat);
    }
    let nodes: u64 = two_pow(level) as u64;
    let units: u64 = g.n_trees as u64 * nodes;
    let blocks: u64 = partition_blocks(units, g.n as u64, nodes);
    assert(units * blocks <= 512 * u32::MAX) by (nonlinear_arith)
        requires
            units <= u32::MAX,
            blocks <= 512,
    ;
    Some(RfPartition { units, blocks, len: units * blocks })
}

/// The kernels of a build.
#[derive(Debug, Clone, Copy, PartialEq, Eq)]
pub enum RfKernel {
    /// Clears the shared-memory histogram's output.
    HistZero,
    /// Gathers the histogram in shared memory.
    HistAtomic,
    /// Turns integer counts into running sums over the bins.
    HistCumCounts,
    /// Gathers the histogram in row blocks.
    HistPart,
    /// Adds up the row blocks.
    HistReduce,
    /// Running sums over the bins.
    HistCum,
    /// Weight, largest slot and sum of squares of each node.
    NodeStats,
    /// Score of each candidate split.
    SplitScores,
    /// Best split or leaf value of each node.
    BestSplit,
    /// Counts the rows that go left, per row block.
    CountLeft,
    /// Row ranges of the children.
    ChildRanges,
    /// Deals the rows to the children, in order.
    Partition,
}

/// The histogram launches of a chunk.
pub open spec fn hist_launches(g: RfGeometry, c: RfChunk) -> Seq<(RfKernel, LaunchDims)> {
    if g.use_atomic {
        seq![
            (RfKernel::HistZero, folded_dims(c.hist_len as int, PERF_TUNED_BLOCK)),
            (
                RfKernel::HistAtomic,
                cube_dims(
                    vstd::math::max(1, c.stats_len * c.atomic_blocks),
                    PERF_TUNED_BLOCK,
                ),
            ),
            (RfKernel::HistCumCounts, folded_dims(c.cols * g.slots, PERF_TUNED_BLOCK)),
        ]
    } else if c.row_blocks > 1 {
        seq![
            (RfKernel::HistPart, folded_dims(c.cols * c.row_blocks, PERF_TUNED_BLOCK)),
            (RfKernel::HistReduce, folded_dims(c.hist_len as int, PERF_TUNED_BLOCK)),
            (RfKernel::HistCum, folded_dims(c.cols * g.slots, PERF_TUNED_BLOCK)),
        ]
    } else {
        seq![
            (RfKernel::HistPart, folded_dims(c.cols * c.row_blocks, PERF_TUNED_BLOCK)),
            (RfKernel::HistCum, folded_dims(c.cols * g.slots, PERF_TUNED_BLOCK)),
        ]
    }
}

/// The launches that follow a chunk's histogram.
pub open spec fn split_launches(c: RfChunk) -> Seq<(RfKernel, LaunchDims)> {
    seq![
        (RfKernel::NodeStats, folded_dims(c.stats_len as int, PERF_TUNED_BLOCK)),
        (RfKernel::SplitScores, folded_dims(c.scores_len as int, PERF_TUNED_BLOCK)),
        (RfKernel::BestSplit, folded_dims(c.stats_len as int, PERF_TUNED_BLOCK)),
    ]
}

/// The launches of one chunk, in order: its histogram, by shared memory where
/// that is used and otherwise by row blocks that are added up when there are
/// several, then node statistics, split scores and the choice of the split.
pub fn chunk_launches(plan: &RfPlan, level: usize, chunk: &RfChunk) -> (r: Vec<
    (RfKernel, LaunchDims),
>)
    requires
        plan.geometry.bounded(),
        plan_matches(*plan, plan.geometry),
        plan.max_part <= u32::MAX,
        level <= plan.geometry.depth,
        1 <= chunk.trees <= plan.geometry.n_trees,
        chunk_at(
            plan.geometry,
            level as nat,
            chunk.tree_base as int,
            chunk.trees as int,
            *chunk,
        ),
        chunk.part_len <= plan.max_part,
    ensures
        r@ == hist_launches(plan.geometry, *chunk) + split_launches(*chunk),
{
    let g: RfGeometry = plan.geometry;
    proof {
        g.lemma_chunk_bounds(level as nat, chunk.trees as int);
    }
    let mut out: Vec<(RfKernel, LaunchDims)> = Vec::new();
    let ghost nb = g.n_bins as int;
    assert(chunk.cols * g.slots <= chunk.hist_len) by (nonlinear_arith)
        requires
            chunk.hist_len == chunk.cols * (nb * g.slots),
            nb >= 1,
            chunk.cols >= 0,
            g.slots >= 0,
    ;
    if g.use_atomic {
        proof {
            let c = chunk.stats_len as int;
            let b = chunk.atomic_blocks as int;
            let m = vstd::math::max(c, 1);
            crate::arith::lemma_ceil_div_brackets(512, m);
            let q = ceil_div_int(512, m);
            if c >= 512 {
                assert(q <= 1) by (nonlinear_arith)
                    requires
                        (q - 1) * m < 512,
                        m >= 512,
                ;
                assert(c * b == c) by (nonlinear_arith)
                    requires
                        b == 1,
                ;
            } else {
                assert(c * b <= 1024) by (nonlinear_arith)
                    requires
                        (q - 1) * m < 512,
                        b <= q,
                        b >= 1,
                        0 <= c <= m <= 512,
                ;
            }
            assert(c * b >= 0) by (nonlinear_arith)
                requires
                    c >= 0,
                    b >= 0,
            ;
        }
        launch_wide(&mut out, RfKernel::HistZero, chunk.hist_len);
        out.push(
            (
                RfKernel::HistAtomic,
                launch_cubes((chunk.stats_len * chunk.atomic_blocks) as usize, PERF_TUNED_BLOCK),
            ),
        );
        launch_wide(&mut out, RfKernel::HistCumCounts, chunk.cols * g.slots as u64);
    } else {
        let blocks: u64 = chunk.row_blocks;
        assert(chunk.cols * blocks <= u32::MAX) by {
            if blocks > 1 {
                let s = g.slice();
                assert(chunk.cols * blocks <= chunk.cols * s * blocks) by (nonlinear_arith)
                    requires
                        s >= 1,
                        chunk.cols >= 0,
                        blocks >= 0,
                ;
            } else {
                assert(chunk.cols * blocks == chunk.cols) by (nonlinear_arith)
                    requires
                        blocks == 1,
                ;
            }
        }
        launch_wide(&mut out, RfKernel::HistPart, chunk.cols * blocks);
        if blocks > 1 {
            launch_wide(&mut out, RfKernel::HistReduce, chunk.hist_len);
        }
        launch_wide(&mut out, RfKernel::HistCum, chunk.cols * g.slots as u64);
    }
    assert(out@ =~= hist_launches(g, *chunk));
    launch_wide(&mut out, RfKernel::NodeStats, chunk.stats_len);
    launch_wide(&mut out, RfKernel::SplitScores, chunk.scores_len);
    launch_wide(&mut out, RfKernel::BestSplit, chunk.stats_len);
    assert(out@ =~= hist_launches(g, *chunk) + split_launches(*chunk));
    out
}

fn launch_wide(out: &mut Vec<(RfKernel, LaunchDims)>, k: RfKernel, units: u64)
    requires
        units <= u32::MAX,
    ensures
        final(out)@ == old(out)@.push((k, folded_dims(units as int, PERF_TUNED_BLOCK))),
{
    out.push((k, launch_dims_1d_folded(units as usize, PERF_TUNED_BLOCK)));
}

/// The launches that deal the rows of a level to its children.
pub fn partition_launches(plan: &RfPlan, q: &RfPartition) -> (r: Vec<(RfKernel, LaunchDims)>)
    requires
        plan.max_blk <= u32::MAX,
        q.blocks >= 1,
        q.len == q.units * q.blocks,
        q.len <= plan.max_blk,
    ensures
        r@ == seq![
            (RfKernel::CountLeft, folded_dims(q.units * q.blocks, PERF_TUNED_BLOCK)),
            (RfKernel::ChildRanges, folded_dims(q.units as int, PERF_TUNED_BLOCK)),
            (RfKernel::Partition, folded_dims(q.units * q.blocks, PERF_TUNED_BLOCK)),
        ],
{
    assert(q.units <= q.len) by (nonlinear_arith)
        requires
            q.len == q.units * q.blocks,
            q.blocks >= 1,
            q.units >= 0,
    ;
    let mut out: Vec<(RfKernel, LaunchDims)> = Vec::new();
    launch_wide(&mut out, RfKernel::CountLeft, q.len);
    launch_wide(&mut out, RfKernel::ChildRanges, q.units);
    launch_wide(&mut out, RfKernel::Partition, q.len);
    assert(out@ =~= seq![
        (RfKernel::CountLeft, folded_dims(q.units * q.blocks, PERF_TUNED_BLOCK)),
        (RfKernel::ChildRanges, folded_dims(q.units as int, PERF_TUNED_BLOCK)),
        (RfKernel::Partition, folded_dims(q.units * q.blocks, PERF_TUNED_BLOCK)),
    ]);
    out
}

// ---------------------------------------------------------------------------
// What the checks, sizes and launches amount to
// ---------------------------------------------------------------------------

proof fn lemma_quotient(a: int, b: int)
    requires
        a >= 0,
        b >= 1,
    ensures
        (a / b) * b <= a,
        a < (a / b + 1) * b,
        a / b >= 0,
{
    vstd::arithmetic::div_mod::lemma_fundamental_div_mod(a, b);
    vstd::arithmetic::div_mod::lemma_mod_bound(a, b);
    vstd::arithmetic::div_mod::lemma_div_pos_is_pos(a, b);
    let q = a / b;
    assert(q * b <= a && a < (q + 1) * b) by (nonlinear_arith)
        requires
            a == b * q + a % b,
            0 <= a % b < b,
    ;
}

/// A histogram is gathered in as many row blocks as it takes to reach the launch
/// target, as fit the byte budget, and as have a slice of rows for every node,
/// and in no more than any of these allows; at most 512, one at the least.
pub proof fn lemma_hist_blocks(cols: int, hist_bytes: int, n: int, nodes: int, slice: int)
    requires
        cols >= 1,
        hist_bytes >= 1,
        n >= 0,
        nodes >= 1,
        slice >= 1,
    ensures
        ({
            let r = hist_blocks_int(cols, hist_bytes, n, nodes, slice);
            &&& 1 <= r <= 512
            &&& r > 1 ==> (r - 1) * cols < 131_072
            &&& r > 1 ==> r * hist_bytes <= 67_108_864
            &&& r > 1 ==> (r * slice) * nodes <= n
            &&& r == 512 || r * cols >= 131_072 || (r + 1) * hist_bytes > 67_108_864 || ((r + 1)
                * slice) * nodes > n
        }),
{
    let r = hist_blocks_int(cols, hist_bytes, n, nodes, slice);
    let c = ceil_div_int(131_072, cols);
    let b = 67_108_864int / hist_bytes;
    let rows = n / nodes;
    let s = rows / slice;
    crate::arith::lemma_ceil_div_brackets(131_072, cols);
    lemma_quotient(67_108_864, hist_bytes);
    lemma_quotient(n, nodes);
    lemma_quotient(rows, slice);
    if r > 1 {
        assert((r - 1) * cols < 131_072) by (nonlinear_arith)
            requires
                r <= c,
                (c - 1) * cols < 131_072,
                cols >= 1,
        ;
        assert(r * hist_bytes <= 67_108_864) by (nonlinear_arith)
            requires
                r <= b,
                b * hist_bytes <= 67_108_864,
                hist_bytes >= 1,
        ;
        assert((r * slice) * nodes <= n) by (nonlinear_arith)
            requires
                r <= s,
                s * slice <= rows,
                rows * nodes <= n,
                slice >= 1,
                nodes >= 1,
        ;
    }
    if r < 512 {
        if r >= c {
            assert(r * cols >= 131_072) by (nonlinear_arith)
                requires
                    r >= c,
                    c * cols >= 131_072,
                    cols >= 1,
            ;
        } else if r >= b {
            assert((r + 1) * hist_bytes > 67_108_864) by (nonlinear_arith)
                requires
                    r >= b,
                    (b + 1) * hist_bytes > 67_108_864,
                    hist_bytes >= 1,
            ;
        } else {
            assert(r >= s);
            assert(((r + 1) * slice) * nodes > n) by (nonlinear_arith)
                requires
                    r >= s,
                    (s + 1) * slice > rows,
                    (rows + 1) * nodes > n,
                    slice >= 1,
                    nodes >= 1,
            ;
        }
    }
}

/// A level is partitioned in as many row blocks as it takes to reach the launch
/// target and as have 16 rows for every node, and in no more than either allows;
/// at most 512, one at the least.
pub proof fn lemma_partition_blocks(units: int, n: int, nodes: int)
    requires
        units >= 1,
        n >= 0,
        nodes >= 1,
    ensures
        ({
            let r = partition_blocks_int(units, n, nodes);
            &&& 1 <= r <= 512
            &&& r > 1 ==> (r - 1) * units < 131_072
            &&& r > 1 ==> (r * 16) * nodes <= n
            &&& r == 512 || r * units >= 131_072 || ((r + 1) * 16) * nodes > n
        }),
{
    let r = partition_blocks_int(units, n, nodes);
    let c = ceil_div_int(131_072, units);
    let rows = n / nodes;
    let s = rows / 16;
    crate::arith::lemma_ceil_div_brackets(131_072, units);
    lemma_quotient(n, nodes);
    lemma_quotient(rows, 16);
    if r > 1 {
        assert((r - 1) * units < 131_072) by (nonlinear_arith)
            requires
                r <= c,
                (c - 1) * units < 131_072,
                units >= 1,
        ;
        assert((r * 16) * nodes <= n) by (nonlinear_arith)
            requires
                r <= s,
                s * 16 <= rows,
                rows * nodes <= n,
                nodes >= 1,
        ;
    }
    if r < 512 {
        if r >= c {
            assert(r * units >= 131_072) by (nonlinear_arith)
                requires
                    r >= c,
                    c * units >= 131_072,
                    units >= 1,
            ;
        } else {
            assert(((r + 1) * 16) * nodes > n) by (nonlinear_arith)
                requires
                    r >= s,
                    (s + 1) * 16 > rows,
                    (rows + 1) * nodes > n,
                    nodes >= 1,
            ;
        }
    }
}

/// The shared-memory histogram takes as many cubes a node as make 512 in all, at
/// most 64.
pub proof fn lemma_atomic_blocks(cols: int)
    requires
        cols >= 1,
    ensures
        1 <= atomic_hist_blocks_int(cols) <= 64,
        atomic_hist_blocks_int(cols) > 1 ==> (atomic_hist_blocks_int(cols) - 1) * cols < 512,
        atomic_hist_blocks_int(cols) == 64 || atomic_hist_blocks_int(cols) * cols >= 512,
{
    crate::arith::lemma_ceil_div_brackets(512, cols);
    let (r, c) = (atomic_hist_blocks_int(cols), ceil_div_int(512, cols));
    if r > 1 {
        assert((r - 1) * cols < 512) by (nonlinear_arith)
            requires
                r <= c,
                (c - 1) * cols < 512,
                cols >= 1,
        ;
    }
}

/// A classifier has a slot and a leaf value for every class; a regression has a
/// count and a sum for a slot pair, and one leaf value.
pub proof fn lemma_target_slots(n_classes: usize)
    ensures
        (RfTarget::Class { n_classes }).slots() == n_classes,
        (RfTarget::Class { n_classes }).leaf_values() == n_classes,
        RfTarget::Reg.slots() == 2,
        RfTarget::Reg.leaf_values() == 1,
{
}

/// A weight limit is fine exactly where it is no smaller than zero and below
/// infinity.
pub proof fn lemma_weight_limits(b: u64)
    ensures
        finite_nonnegative(b) <==> crate::float_order::le64(0, b) && crate::float_order::lt64(
            b,
            0x7FF0_0000_0000_0000,
        ),
{
}

/// A fit is accepted exactly where the samples fill their matrix, there are
/// trees, the depth is from 1 to 16, the bins are from 2 to 256, a node has some
/// of the features to choose from, and the weight limits are finite and not
/// negative.
pub proof fn lemma_fit_accepted(x_len: usize, n: usize, d: usize, p: RfParams)
    ensures
        fit_fault(x_len, n, d, p) is None <==> {
            &&& n >= 1 && d >= 1 && x_len == n * d
            &&& p.n_trees >= 1
            &&& 1 <= p.max_depth <= 16
            &&& 2 <= p.n_bins <= 256
            &&& 1 <= p.max_features <= d
            &&& finite_nonnegative(p.min_samples_split) && finite_nonnegative(p.min_samples_leaf)
        },
{
}

/// The sizes of a level: one node at the root of each tree and twice as many at
/// each level below, the features on offer for each node, a bin of every slot
/// for each of these, and a score between any two neighbouring bins.
pub proof fn lemma_level_sizes(g: RfGeometry, l: nat, trees: int)
    ensures
        g.stats_len(0, trees) == trees,
        g.stats_len(l + 1, trees) == 2 * g.stats_len(l, trees),
        g.cols(l, trees) == g.stats_len(l, trees) * g.max_features,
        g.hist_len(l, trees) == g.cols(l, trees) * (g.n_bins * g.slots),
        g.scores_len(l, trees) + g.cols(l, trees) == g.cols(l, trees) * g.n_bins,
        g.stats_len(l, trees + 1) == g.stats_len(l, trees) + g.stats_len(l, 1),
        g.total_nodes() + 1 == g.stats_len((g.depth + 1) as nat, 1),
        g.per_tree_bytes(l) == (g.hist_len(l, 1) + g.scores_len(l, 1) + 3 * g.stats_len(l, 1))
            * g.elem_bytes,
{
    vstd::arithmetic::power2::lemma2_to64();
    vstd::arithmetic::power2::lemma_pow2_unfold(l + 1);
    let p = pow2(l) as int;
    let (h, c, s, e) = (
        g.hist_len(l, 1),
        g.scores_len(l, 1),
        g.stats_len(l, 1),
        g.elem_bytes as int,
    );
    assert(trees * (2 * p) == 2 * (trees * p) && (trees + 1) * p == trees * p + 1 * p)
        by (nonlinear_arith);
    let k = g.cols(l, trees);
    let nb = g.n_bins as int;
    assert(k * (nb - 1) + k == k * nb) by (nonlinear_arith);
    assert(h * e + c * e + 3 * s * e == (h + c + 3 * s) * e) by (nonlinear_arith);
}

/// Trees are built together as far as the byte budget holds them: those of a
/// chunk fit it unless there is only one, and one more would not fit unless all
/// trees are there.
pub proof fn lemma_chunk_fits_budget(g: RfGeometry, l: nat)
    requires
        g.n_trees >= 1,
        g.per_tree_bytes(l) >= 1,
    ensures
        1 <= g.chunk_trees(l) <= g.n_trees,
        g.chunk_trees(l) > 1 ==> g.chunk_trees(l) * g.per_tree_bytes(l) <= 67_108_864,
        g.chunk_trees(l) == g.n_trees || (g.chunk_trees(l) + 1) * g.per_tree_bytes(l)
            > 67_108_864,
        0 <= g.tail_trees(l) < g.chunk_trees(l),
{
    let b = g.per_tree_bytes(l);
    let q = 67_108_864int / b;
    lemma_quotient(67_108_864, b);
    let t = g.chunk_trees(l);
    if t > 1 {
        assert(t * b <= 67_108_864) by (nonlinear_arith)
            requires
                t <= q,
                q * b <= 67_108_864,
                b >= 1,
        ;
    }
    if t < g.n_trees {
        assert((t + 1) * b > 67_108_864) by (nonlinear_arith)
            requires
                t >= q,
                (q + 1) * b > 67_108_864,
                b >= 1,
        ;
    }
}

/// Partial histograms are there exactly where rows are gathered in several
/// blocks outside shared memory, one for each block; the last level has no
/// partition, and the others a counter for each node and block.
pub proof fn lemma_partial_sizes(g: RfGeometry, l: nat, trees: int)
    ensures
        g.use_atomic || g.row_blocks(l, trees) <= 1 ==> g.part_len(l, trees) == 0,
        !g.use_atomic && g.row_blocks(l, trees) > 1 ==> g.part_len(l, trees) == g.hist_len(l, trees)
            * g.row_blocks(l, trees),
        l >= g.depth ==> g.blk_len(l) == 0,
        l < g.depth ==> g.blk_len(l) == g.stats_len(l, g.n_trees as int) * partition_blocks_int(
            g.stats_len(l, g.n_trees as int),
            g.n as int,
            pow2(l) as int,
        ),
{
}

/// The buffers of a build serve every level, the full chunks and the last one,
/// and are no larger than some level needs.
pub proof fn lemma_buffers_serve_every_level(g: RfGeometry, m: nat, l: nat)
    requires
        l < m,
    ensures
        g.peak_hist(m) >= g.hist_len(l, g.chunk_trees(l)) && g.peak_hist(m) >= g.hist_len(
            l,
            g.tail_trees(l),
        ),
        g.peak_part(m) >= g.part_len(l, g.chunk_trees(l)) && g.peak_part(m) >= g.part_len(
            l,
            g.tail_trees(l),
        ),
        g.peak_scores(m) >= g.scores_len(l, g.chunk_trees(l)) && g.peak_scores(m) >= g.scores_len(
            l,
            g.tail_trees(l),
        ),
        g.peak_stats(m) >= g.stats_len(l, g.chunk_trees(l)) && g.peak_stats(m) >= g.stats_len(
            l,
            g.tail_trees(l),
        ),
        g.peak_blk(m) >= g.blk_len(l),
    decreases m,
{
    if l < m - 1 {
        lemma_buffers_serve_every_level(g, (m - 1) as nat, l);
    }
}

/// No buffer of a build is larger than the largest that some level needs.
pub proof fn lemma_buffers_are_needed(g: RfGeometry, m: nat)
    ensures
        g.peak_hist(m) == 0 || exists|l: nat|
            l < m && (#[trigger] g.hist_len(l, g.chunk_trees(l)) == g.peak_hist(m) || g.hist_len(
                l,
                g.tail_trees(l),
            ) == g.peak_hist(m)),
        g.peak_part(m) == 0 || exists|l: nat|
            l < m && (#[trigger] g.part_len(l, g.chunk_trees(l)) == g.peak_part(m) || g.part_len(
                l,
                g.tail_trees(l),
            ) == g.peak_part(m)),
        g.peak_scores(m) == 0 || exists|l: nat|
            l < m && (#[trigger] g.scores_len(l, g.chunk_trees(l)) == g.peak_scores(m)
                || g.scores_len(l, g.tail_trees(l)) == g.peak_scores(m)),
        g.peak_stats(m) == 0 || exists|l: nat|
            l < m && (#[trigger] g.stats_len(l, g.chunk_trees(l)) == g.peak_stats(m)
                || g.stats_len(l, g.tail_trees(l)) == g.peak_stats(m)),
        g.peak_blk(m) == 0 || exists|l: nat| l < m && #[trigger] g.blk_len(l) == g.peak_blk(m),
    decreases m,
{
    if m > 0 {
        let k = (m - 1) as nat;
        lemma_buffers_are_needed(g, k);
        if g.peak_hist(m) == g.peak_hist(k) && g.peak_hist(m) != 0 {
            let l = choose|l: nat|
                l < k && (#[trigger] g.hist_len(l, g.chunk_trees(l)) == g.peak_hist(k)
                    || g.hist_len(l, g.tail_trees(l)) == g.peak_hist(k));
            assert(l < m);
        } else {
            assert(g.hist_len(k, g.chunk_trees(k)) == g.peak_hist(m) || g.hist_len(
                k,
                g.tail_trees(k),
            ) == g.peak_hist(m) || g.peak_hist(m) == 0);
        }
        if g.peak_part(m) == g.peak_part(k) && g.peak_part(m) != 0 {
            let l = choose|l: nat|
                l < k && (#[trigger] g.part_len(l, g.chunk_trees(l)) == g.peak_part(k)
                    || g.part_len(l, g.tail_trees(l)) == g.peak_part(k));
            assert(l < m);
        } else {
            assert(g.part_len(k, g.chunk_trees(k)) == g.peak_part(m) || g.part_len(
                k,
                g.tail_trees(k),
            ) == g.peak_part(m) || g.peak_part(m) == 0);
        }
        if g.peak_scores(m) == g.peak_scores(k) && g.peak_scores(m) != 0 {
            let l = choose|l: nat|
                l < k && (#[trigger] g.scores_len(l, g.chunk_trees(l)) == g.peak_scores(k)
                    || g.scores_len(l, g.tail_trees(l)) == g.peak_scores(k));
            assert(l < m);
        } else {
            assert(g.scores_len(k, g.chunk_trees(k)) == g.peak_scores(m) || g.scores_len(
                k,
                g.tail_trees(k),
            ) == g.peak_scores(m) || g.peak_scores(m) == 0);
        }
        if g.peak_stats(m) == g.peak_stats(k) && g.peak_stats(m) != 0 {
            let l = choose|l: nat|
                l < k && (#[trigger] g.stats_len(l, g.chunk_trees(l)) == g.peak_stats(k)
                    || g.stats_len(l, g.tail_trees(l)) == g.peak_stats(k));
            assert(l < m);
        } else {
            assert(g.stats_len(k, g.chunk_trees(k)) == g.peak_stats(m) || g.stats_len(
                k,
                g.tail_trees(k),
            ) == g.peak_stats(m) || g.peak_stats(m) == 0);
        }
        if g.peak_blk(m) == g.peak_blk(k) && g.peak_blk(m) != 0 {
            let l = choose|l: nat| l < k && #[trigger] g.blk_len(l) == g.peak_blk(k);
            assert(l < m);
        } else {
            assert(g.blk_len(k) == g.peak_blk(m) || g.peak_blk(m) == 0);
        }
    }
}

/// A build is accepted exactly where its rows, samples, leaf values and level
/// histograms, and every buffer of its levels, have 32-bit indices.
pub proof fn lemma_sizes_accepted(g: RfGeometry)
    ensures
        size_fault(g) is None <==> {
            let levels = (g.depth + 1) as nat;
            &&& g.n * g.d <= u32::MAX && g.n_trees * g.n <= u32::MAX
            &&& g.n_trees * g.total_nodes() * g.n_values <= u32::MAX
            &&& g.hist_len(g.depth as nat, g.n_trees as int) <= u32::MAX
            &&& g.peak_part(levels) <= u32::MAX && g.peak_hist(levels) <= u32::MAX
            &&& g.peak_blk(levels) <= u32::MAX
        },
{
}

/// Shared-memory histograms are used exactly for classifiers, where the backend
/// has them and the bins of all features on offer fit 4096 slots.
pub proof fn lemma_shared_histograms(
    n: usize,
    d: usize,
    target: RfTarget,
    p: RfParams,
    elem_bytes: usize,
    atomic_histograms: bool,
)
    ensures
        geometry_of(n, d, target, p, elem_bytes, atomic_histograms).use_atomic <==> {
            &&& atomic_histograms
            &&& target is Class
            &&& p.max_features * p.n_bins * target->n_classes <= 4096
        },
        ({
            let g = geometry_of(n, d, target, p, elem_bytes, atomic_histograms);
            &&& g.n == n && g.d == d && g.elem_bytes == elem_bytes
            &&& g.n_trees == p.n_trees && g.depth == p.max_depth && g.n_bins == p.n_bins
            &&& g.max_features == p.max_features
        }),
{
}

/// The kernels of a launch list.
pub open spec fn kernels_of(launches: Seq<(RfKernel, LaunchDims)>) -> Seq<RfKernel> {
    launches.map_values(|l: (RfKernel, LaunchDims)| l.0)
}

/// A chunk's histogram is cleared, gathered and summed up over the bins in shared
/// memory where that is used, and otherwise gathered in row blocks, added up
/// where there are several, and summed up over the bins; then come the node
/// statistics, the scores and the choice of the split.
pub proof fn lemma_chunk_kernels(g: RfGeometry, c: RfChunk)
    ensures
        g.use_atomic ==> kernels_of(hist_launches(g, c)) == seq![
            RfKernel::HistZero,
            RfKernel::HistAtomic,
            RfKernel::HistCumCounts,
        ],
        !g.use_atomic && c.row_blocks > 1 ==> kernels_of(hist_launches(g, c)) == seq![
            RfKernel::HistPart,
            RfKernel::HistReduce,
            RfKernel::HistCum,
        ],
        !g.use_atomic && c.row_blocks <= 1 ==> kernels_of(hist_launches(g, c)) == seq![
            RfKernel::HistPart,
            RfKernel::HistCum,
        ],
        kernels_of(split_launches(c)) == seq![
            RfKernel::NodeStats,
            RfKernel::SplitScores,
            RfKernel::BestSplit,
        ],
{
    if g.use_atomic {
        assert(kernels_of(hist_launches(g, c)) =~= seq![
            RfKernel::HistZero,
            RfKernel::HistAtomic,
            RfKernel::HistCumCounts,
        ]);
    } else if c.row_blocks > 1 {
        assert(kernels_of(hist_launches(g, c)) =~= seq![
            RfKernel::HistPart,
            RfKernel::HistReduce,
            RfKernel::HistCum,
        ]);
    } else {
        assert(kernels_of(hist_launches(g, c)) =~= seq![RfKernel::HistPart, RfKernel::HistCum]);
    }
    assert(kernels_of(split_launches(c)) =~= seq![
        RfKernel::NodeStats,
        RfKernel::SplitScores,
        RfKernel::BestSplit,
    ]);
}

/// Every launch of a chunk covers what it works on: the entries of the
/// histogram, its columns in each row block, its columns and slots, the nodes,
/// and the scores.
pub proof fn lemma_chunk_launches_cover(g: RfGeometry, c: RfChunk, i: int)
    requires
        c.hist_len <= u32::MAX,
        c.scores_len <= u32::MAX,
        c.stats_len <= u32::MAX,
        0 <= c.cols * c.row_blocks <= u32::MAX,
        0 <= c.cols * g.slots <= u32::MAX,
        1 <= c.stats_len * c.atomic_blocks <= u32::MAX,
        0 <= i < (hist_launches(g, c) + split_launches(c)).len(),
    ensures
        ({
            let (kernel, l) = (hist_launches(g, c) + split_launches(c))[i];
            let units = l.cubes() * l.block.0;
            &&& kernel == RfKernel::HistZero || kernel == RfKernel::HistReduce ==> units
                >= c.hist_len
            &&& kernel == RfKernel::HistAtomic ==> l.cubes() >= c.stats_len * c.atomic_blocks
            &&& kernel == RfKernel::HistPart ==> units >= c.cols * c.row_blocks
            &&& kernel == RfKernel::HistCum || kernel == RfKernel::HistCumCounts ==> units
                >= c.cols * g.slots
            &&& kernel == RfKernel::NodeStats || kernel == RfKernel::BestSplit ==> units
                >= c.stats_len
            &&& kernel == RfKernel::SplitScores ==> units >= c.scores_len
        }),
{
    crate::launch::lemma_launch_covers(c.hist_len as int, PERF_TUNED_BLOCK);
    crate::launch::lemma_launch_covers(c.scores_len as int, PERF_TUNED_BLOCK);
    crate::launch::lemma_launch_covers(c.stats_len as int, PERF_TUNED_BLOCK);
    crate::launch::lemma_launch_covers(c.cols * c.row_blocks, PERF_TUNED_BLOCK);
    crate::launch::lemma_launch_covers(c.cols * g.slots, PERF_TUNED_BLOCK);
    crate::launch::lemma_cubes_cover(c.stats_len * c.atomic_blocks, PERF_TUNED_BLOCK);
}

/// A refused fit names the samples, the trees, the depth, the bins, the features, and then
/// the weight limits.
pub proof fn lemma_fit_refusals(
    x_len: usize,
    n: usize,
    d: usize,
    p: RfParams,
)
    ensures
        (n == 0 || d == 0 || x_len != n * d) ==> fit_fault(x_len, n, d, p) == Some(
            PrimError::ShapeMismatch { operand: "x", rows: n, cols: d, len: x_len },
        ),
        !(n == 0 || d == 0 || x_len != n * d) && p.n_trees == 0
            ==> fit_fault(x_len, n, d, p) == Some(
            PrimError::ShapeMismatch { operand: "n_trees", rows: 0, cols: 0, len: 0 },
        ),
        !(n == 0 || d == 0 || x_len != n * d) && p.n_trees != 0
            && (p.max_depth == 0 || p.max_depth > 16) ==> fit_fault(x_len, n, d, p) == Some(
            PrimError::ShapeMismatch { operand: "max_depth", rows: p.max_depth, cols: 1, len: 16 },
        ),
        !(n == 0 || d == 0 || x_len != n * d) && p.n_trees != 0
            && !(p.max_depth == 0 || p.max_depth > 16) && (p.n_bins < 2 || p.n_bins > 256)
            ==> fit_fault(x_len, n, d, p) == Some(
            PrimError::ShapeMismatch { operand: "n_bins", rows: p.n_bins, cols: 2, len: 256 },
        ),
        !(n == 0 || d == 0 || x_len != n * d) && p.n_trees != 0
            && !(p.max_depth == 0 || p.max_depth > 16) && !(p.n_bins < 2 || p.n_bins > 256)
            && (p.max_features == 0 || p.max_features > d) ==> fit_fault(x_len, n, d, p) == Some(
            PrimError::ShapeMismatch { operand: "max_features", rows: p.max_features, cols: 1, len: d },
        ),
        !(n == 0 || d == 0 || x_len != n * d) && p.n_trees != 0
            && !(p.max_depth == 0 || p.max_depth > 16) && !(p.n_bins < 2 || p.n_bins > 256)
            && !(p.max_features == 0 || p.max_features > d)
            && (!finite_nonnegative(p.min_samples_split) || !finite_nonnegative(p.min_samples_leaf))
            ==> fit_fault(x_len, n, d, p) == Some(
            PrimError::ShapeMismatch { operand: "min_samples", rows: 0, cols: 0, len: 0 },
        ),
{
}

/// A build with too many indices names the first range that has them: the samples, the
/// rows of all trees, the leaf values, the level histogram, the partial histograms,
/// and the partition.
pub proof fn lemma_size_refusals(
    g: RfGeometry,
)
    ensures
        g.n * g.d > u32::MAX ==> size_fault(g) == Some(
            PrimError::ShapeMismatch { operand: "n*d", rows: (g.n * g.d) as usize, cols: 0, len: 0xFFFF_FFFF },
        ),
        g.n * g.d <= u32::MAX && g.n_trees * g.n > u32::MAX ==> size_fault(g) == Some(
            PrimError::ShapeMismatch { operand: "n_trees*n", rows: (g.n_trees * g.n) as usize, cols: 0, len: 0xFFFF_FFFF },
        ),
        g.n * g.d <= u32::MAX && g.n_trees * g.n <= u32::MAX
            && g.n_trees * g.total_nodes() * g.n_values > u32::MAX ==> size_fault(g) == Some(
            PrimError::ShapeMismatch { operand: "n_trees*total_nodes*n_values", rows: (g.n_trees * g.total_nodes() * g.n_values) as usize, cols: 0, len: 0xFFFF_FFFF },
        ),
        g.n * g.d <= u32::MAX && g.n_trees * g.n <= u32::MAX
            && g.n_trees * g.total_nodes() * g.n_values <= u32::MAX
            && g.hist_len(g.depth as nat, g.n_trees as int) > u32::MAX ==> size_fault(g) == Some(
            PrimError::ShapeMismatch { operand: "level_hist", rows: g.hist_len(g.depth as nat, g.n_trees as int) as usize, cols: 0, len: 0xFFFF_FFFF },
        ),
        g.n * g.d <= u32::MAX && g.n_trees * g.n <= u32::MAX
            && g.n_trees * g.total_nodes() * g.n_values <= u32::MAX
            && g.hist_len(g.depth as nat, g.n_trees as int) <= u32::MAX
            && (g.peak_part((g.depth + 1) as nat) > u32::MAX && g.peak_part((g.depth + 1) as nat) >= g.peak_hist((g.depth + 1) as nat))
            ==> size_fault(g) == Some(
            PrimError::ShapeMismatch { operand: "level_hist_part", rows: g.peak_part((g.depth + 1) as nat) as usize, cols: 0, len: 0xFFFF_FFFF },
        ),
{
}

/// A chunk holds the sizes of its own trees at its own level.
pub proof fn lemma_chunk_sizes(g: RfGeometry, l: nat, tree_base: int, trees: int, c: RfChunk)
    requires
        chunk_at(g, l, tree_base, trees, c),
    ensures
        c.tree_base == tree_base,
        c.trees == trees,
        c.stats_len == trees * pow2(l),
        c.cols == c.stats_len * g.max_features,
        c.hist_len == c.cols * (g.n_bins * g.slots),
        c.scores_len == c.cols * (g.n_bins - 1),
        c.row_blocks == hist_blocks_int(
            c.cols as int,
            c.hist_len * g.elem_bytes,
            g.n as int,
            pow2(l) as int,
            g.n_bins * g.slots,
        ),
        c.part_len == if c.row_blocks > 1 && !g.use_atomic {
            c.hist_len * c.row_blocks
        } else {
            0
        },
        c.atomic_blocks == atomic_hist_blocks_int(c.stats_len as int),
{
}

/// A plan holds the sizes of its build: the nodes of a complete tree, a first and
/// a last row for each node of the widest level, the features of all nodes,
/// which are drawn up front exactly where four bytes for each fit the budget,
/// and the buffers of the largest level.
pub proof fn lemma_plan_sizes(plan: RfPlan, g: RfGeometry)
    requires
        plan_matches(plan, g),
    ensures
        plan.geometry == g,
        plan.total_nodes == pow2((g.depth + 1) as nat) - 1,
        plan.ranges_len == 2 * (g.n_trees * pow2(g.depth as nat)),
        plan.total_feat_len == g.n_trees * g.max_features * plan.total_nodes,
        plan.pregen_feats <==> 4 * plan.total_feat_len <= 67_108_864,
        plan.max_hist == g.peak_hist((g.depth + 1) as nat),
        plan.max_part == g.peak_part((g.depth + 1) as nat),
        plan.max_scores == g.peak_scores((g.depth + 1) as nat),
        plan.max_stats == g.peak_stats((g.depth + 1) as nat),
        plan.max_blk == g.peak_blk((g.depth + 1) as nat),
{
}

} // verus!
