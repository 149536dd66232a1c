//! The schedule of a build: every launch of every level, in order.

use crate::arith::ceil_div_int;
use crate::launch::{folded_dims, LaunchDims, PERF_TUNED_BLOCK};
use crate::random_forest::plan::{
    atomic_hist_blocks_int, chunk_at, chunk_launches, hist_launches, level_chunks, level_partition,
    partition_blocks_int, partition_launches, plan_matches, split_launches, RfChunk, RfGeometry,
    RfKernel, RfPartition, RfPlan,
};
use vstd::arithmetic::power2::pow2;
use vstd::prelude::*;

verus! {

/// One launch of a build.
#[derive(Debug, Clone, Copy, PartialEq, Eq)]
pub struct RfStep {
    pub level: usize,
    /// The first tree that the launch serves.
    pub tree_base: usize,
    /// The trees that it serves: a chunk's, or all of them for a partition.
    pub trees: usize,
    pub kernel: RfKernel,
    pub launch: LaunchDims,
    /// Row blocks of a histogram column, or of a partitioned node.
    pub blocks: u64,
    /// Whether the row order and the node ranges are read from the second of
    /// their two buffers. A partition writes the other one.
    pub from_second: bool,
    /// Whether every node becomes a leaf.
    pub force_leaf: bool,
}

/// The chunk that builds `trees` trees from `tree_base` on at level `l`.
pub open spec fn chunk_of(g: RfGeometry, l: nat, tree_base: int, trees: int) -> RfChunk {
    RfChunk {
        tree_base: tree_base as usize,
        trees: trees as usize,
        cols: g.cols(l, trees) as u64,
        hist_len: g.hist_len(l, trees) as u64,
        scores_len: g.scores_len(l, trees) as u64,
        stats_len: g.stats_len(l, trees) as u64,
        row_blocks: g.row_blocks(l, trees) as u64,
        part_len: g.part_len(l, trees) as u64,
        atomic_blocks: atomic_hist_blocks_int(g.stats_len(l, trees)) as u64,
    }
}

/// Launches as steps of a level.
pub open spec fn as_steps(
    g: RfGeometry,
    launches: Seq<(RfKernel, LaunchDims)>,
    l: nat,
    tree_base: int,
    trees: int,
    blocks: u64,
) -> Seq<RfStep> {
    Seq::new(
        launches.len(),
        |i: int|
            RfStep {
                level: l as usize,
                tree_base: tree_base as usize,
                trees: trees as usize,
                kernel: launches[i].0,
                launch: launches[i].1,
                blocks,
                from_second: l % 2 == 1,
                force_leaf: l == g.depth,
            },
    )
}

/// The trees of chunk `i` of a level.
pub open spec fn chunk_width(g: RfGeometry, l: nat, i: int) -> int {
    vstd::math::min(g.chunk_trees(l), g.n_trees - i * g.chunk_trees(l))
}

/// The row blocks that a chunk's histogram is gathered in.
pub open spec fn chunk_blocks(g: RfGeometry, c: RfChunk) -> u64 {
    if g.use_atomic {
        c.atomic_blocks
    } else {
        c.row_blocks
    }
}

/// The steps of chunk `i` of a level.
pub open spec fn chunk_steps(g: RfGeometry, l: nat, i: int) -> Seq<RfStep> {
    let c = chunk_of(g, l, i * g.chunk_trees(l), chunk_width(g, l, i));
    as_steps(
        g,
        hist_launches(g, c) + split_launches(c),
        l,
        i * g.chunk_trees(l),
        chunk_width(g, l, i),
        chunk_blocks(g, c),
    )
}

/// The steps of the first `m` chunks of a level.
pub open spec fn chunks_steps(g: RfGeometry, l: nat, m: nat) -> Seq<RfStep>
    decreases m,
{
    if m == 0 {
        Seq::empty()
    } else {
        chunks_steps(g, l, (m - 1) as nat) + chunk_steps(g, l, m - 1)
    }
}

/// The steps that deal the rows of a level to its children; the last level has
/// none.
pub open spec fn partition_steps(g: RfGeometry, l: nat) -> Seq<RfStep> {
    let units = g.stats_len(l, g.n_trees as int);
    let blocks = partition_blocks_int(units, g.n as int, pow2(l) as int);
    if l < g.depth {
        as_steps(
            g,
            seq![
                (RfKernel::CountLeft, folded_dims(units * blocks, PERF_TUNED_BLOCK)),
                (RfKernel::ChildRanges, folded_dims(units, PERF_TUNED_BLOCK)),
                (RfKernel::Partition, folded_dims(units * blocks, PERF_TUNED_BLOCK)),
            ],
            l,
            0,
            g.n_trees as int,
            blocks as u64,
        )
    } else {
        Seq::empty()
    }
}

/// The number of chunks of a level.
pub open spec fn chunk_count(g: RfGeometry, l: nat) -> int {
    ceil_div_int(g.n_trees as int, g.chunk_trees(l))
}

/// The steps of a level: all chunks, then the partition.
pub open spec fn level_steps(g: RfGeometry, l: nat) -> Seq<RfStep> {
    chunks_steps(g, l, chunk_count(g, l) as nat) + partition_steps(g, l)
}

/// The steps of the first `m` levels.
pub open spec fn schedule(g: RfGeometry, m: nat) -> Seq<RfStep>
    decreases m,
{
    if m == 0 {
        Seq::empty()
    } else {
        schedule(g, (m - 1) as nat) + level_steps(g, (m - 1) as nat)
    }
}

fn push_steps(
    out: &mut Vec<RfStep>,
    g: &RfGeometry,
    launches: &Vec<(RfKernel, LaunchDims)>,
    level: usize,
    tree_base: usize,
    trees: usize,
    blocks: u64,
)
    ensures
        final(out)@ == old(out)@ + as_steps(
            *g,
            launches@,
            level as nat,
            tree_base as int,
            trees as int,
            blocks,
        ),
{
    let ghost all = as_steps(
        *g,
        launches@,
        level as nat,
        tree_base as int,
        trees as int,
        blocks,
    );
    let ghost before = out@;
    let mut i: usize = 0;
    assert(out@ =~= before + all.take(0));
    while i < launches.len()
        invariant
            i <= launches.len(),
            all == as_steps(
                *g,
                launches@,
                level as nat,
                tree_base as int,
                trees as int,
                blocks,
            ),
            out@ == before + all.take(i as int),
        decreases launches.len() - i,
    {
        let (kernel, launch): (RfKernel, LaunchDims) = launches[i];
        out.push(
            RfStep {
                level,
                tree_base,
                trees,
                kernel,
                launch,
                blocks,
                from_second: level % 2 == 1,
                force_leaf: level == g.depth,
            },
        );
        i = i + 1;
        assert(all.take(i as int) =~= all.take(i - 1).push(all[i - 1]));
        assert(out@ =~= before + all.take(i as int));
    }
    assert(all.take(i as int) =~= all);
}

/// Schedules a build: for every level the histograms, statistics, scores and
/// splits of each chunk of trees, and then, but for the last level, the
/// partition of the rows. Rows and ranges alternate between two buffers.
pub fn rf_fit_schedule(plan: &RfPlan) -> (r: Vec<RfStep>)
    requires
        plan.geometry.bounded(),
        plan_matches(*plan, plan.geometry),
        plan.max_part <= u32::MAX,
        plan.max_blk <= u32::MAX,
    ensures
        r@ == schedule(plan.geometry, (plan.geometry.depth + 1) as nat),
{
    let g: RfGeometry = plan.geometry;
    let mut out: Vec<RfStep> = Vec::new();
    let mut level: usize = 0;
    while level < g.depth + 1
        invariant
            level <= g.depth + 1,
            g == plan.geometry,
            g.bounded(),
            plan_matches(*plan, g),
            plan.max_part <= u32::MAX,
            plan.max_blk <= u32::MAX,
            out@ == schedule(g, level as nat),
        decreases g.depth + 1 - level,
    {
        let chunks: Vec<RfChunk> = level_chunks(plan, level);
        let ghost width = g.chunk_trees(level as nat);
        let mut i: usize = 0;
        assert(out@ =~= schedule(g, level as nat) + chunks_steps(g, level as nat, 0));
        while i < chunks.len()
            invariant
                i <= chunks.len(),
                level <= g.depth,
                g == plan.geometry,
                g.bounded(),
                plan_matches(*plan, g),
                plan.max_part <= u32::MAX,
                width == g.chunk_trees(level as nat),
                chunks.len() == ceil_div_int(g.n_trees as int, width),
                forall|k: int|
                    0 <= k < chunks.len() ==> #[trigger] chunk_at(
                        g,
                        level as nat,
                        k * width,
                        vstd::math::min(width, g.n_trees - k * width),
                        chunks[k],
                    ),
                forall|k: int|
                    0 <= k < chunks.len() ==> #[trigger] chunks[k].trees >= 1
                        && chunks[k].part_len <= plan.max_part,
                out@ == schedule(g, level as nat) + chunks_steps(g, level as nat, i as nat),
            decreases chunks.len() - i,
        {
            let c: RfChunk = chunks[i];
            assert(chunk_at(
                g,
                level as nat,
                i * width,
                vstd::math::min(width, g.n_trees - i * width),
                chunks[i as int],
            ));
            assert(chunks[i as int].trees >= 1);
            assert(c == chunk_of(g, level as nat, i * width, chunk_width(g, level as nat, i as int)));
            assert(c.trees <= g.n_trees) by {
                assert(i * width >= 0) by (nonlinear_arith)
                    requires
                        i >= 0,
                        width >= 1,
                ;
            }
            let launches: Vec<(RfKernel, LaunchDims)> = chunk_launches(plan, level, &c);
            let blocks: u64 = if g.use_atomic {
                c.atomic_blocks
            } else {
                c.row_blocks
            };
            push_steps(&mut out, &g, &launches, level, c.tree_base, c.trees, blocks);
            i = i + 1;
            assert(out@ =~= schedule(g, level as nat) + chunks_steps(g, level as nat, i as nat));
        }
        match level_partition(plan, level) {
            Some(q) => {
                let launches: Vec<(RfKernel, LaunchDims)> = partition_launches(plan, &q);
                push_steps(&mut out, &g, &launches, level, 0, g.n_trees, q.blocks);
            },
            None => {},
        }
        assert(out@ =~= schedule(g, level as nat) + level_steps(g, level as nat));
        level = level + 1;
    }
    out
}

/// How often the steps choose the split of a tree at a level.
pub open spec fn splits_chosen(s: Seq<RfStep>, level: int, tree: int) -> int
    decreases s.len(),
{
    if s.len() == 0 {
        0
    } else {
        let last = s.last();
        splits_chosen(s.drop_last(), level, tree) + if last.kernel == RfKernel::BestSplit
            && last.level == level && last.tree_base <= tree < last.tree_base + last.trees {
            1int
        } else {
            0
        }
    }
}

proof fn lemma_splits_add(a: Seq<RfStep>, b: Seq<RfStep>, level: int, tree: int)
    ensures
        splits_chosen(a + b, level, tree) == splits_chosen(a, level, tree) + splits_chosen(
            b,
            level,
            tree,
        ),
    decreases b.len(),
{
    if b.len() == 0 {
        assert(a + b =~= a);
    } else {
        assert((a + b).drop_last() =~= a + b.drop_last());
        lemma_splits_add(a, b.drop_last(), level, tree);
    }
}

proof fn lemma_no_splits(s: Seq<RfStep>, level: int, tree: int)
    requires
        forall|i: int|
            0 <= i < s.len() ==> (#[trigger] s[i]).kernel != RfKernel::BestSplit || s[i].level
                != level || !(s[i].tree_base <= tree < s[i].tree_base + s[i].trees),
    ensures
        splits_chosen(s, level, tree) == 0,
    decreases s.len(),
{
    if s.len() > 0 {
        assert(s.last() == s[s.len() - 1]);
        assert forall|i: int| 0 <= i < s.drop_last().len() implies (#[trigger] s.drop_last()[i]).kernel
            != RfKernel::BestSplit || s.drop_last()[i].level != level || !(s.drop_last()[i].tree_base
            <= tree < s.drop_last()[i].tree_base + s.drop_last()[i].trees) by {
            assert(s.drop_last()[i] == s[i]);
        }
        lemma_no_splits(s.drop_last(), level, tree);
    }
}

proof fn lemma_chunk_splits(g: RfGeometry, l: nat, i: int, level: int, tree: int)
    requires
        l <= usize::MAX,
        0 <= i * g.chunk_trees(l),
        i * g.chunk_trees(l) + chunk_width(g, l, i) <= g.n_trees,
        0 <= chunk_width(g, l, i),
    ensures
        splits_chosen(chunk_steps(g, l, i), level, tree) == if l == level && i * g.chunk_trees(l)
            <= tree < i * g.chunk_trees(l) + chunk_width(g, l, i) {
            1int
        } else {
            0
        },
{
    let s = chunk_steps(g, l, i);
    let c = chunk_of(g, l, i * g.chunk_trees(l), chunk_width(g, l, i));
    let all = hist_launches(g, c) + split_launches(c);
    let last = s.len() - 1;
    assert(all[last] == split_launches(c)[2]);
    assert(s[last].kernel == RfKernel::BestSplit);
    assert forall|k: int| 0 <= k < s.drop_last().len() implies (#[trigger] s.drop_last()[k]).kernel
        != RfKernel::BestSplit || s.drop_last()[k].level != level || !(s.drop_last()[k].tree_base
        <= tree < s.drop_last()[k].tree_base + s.drop_last()[k].trees) by {
        assert(s.drop_last()[k].kernel == all[k].0);
        if k < hist_launches(g, c).len() {
            assert(all[k] == hist_launches(g, c)[k]);
        } else {
            assert(all[k] == split_launches(c)[k - hist_launches(g, c).len()]);
        }
    }
    lemma_no_splits(s.drop_last(), level, tree);
    assert(s.last() == s[last]);
}

proof fn lemma_chunks_splits(g: RfGeometry, l: nat, m: nat, level: int, tree: int)
    requires
        g.bounded(),
        l <= usize::MAX,
        m <= chunk_count(g, l),
    ensures
        splits_chosen(chunks_steps(g, l, m), level, tree) == if l == level && 0 <= tree
            < g.n_trees && tree < m * g.chunk_trees(l) {
            1int
        } else {
            0
        },
    decreases m,
{
    let w = g.chunk_trees(l);
    if m == 0 {
        assert(0 * w == 0);
    } else {
        let i = m - 1;
        lemma_chunks_splits(g, l, (m - 1) as nat, level, tree);
        crate::random_forest::plan::lemma_chunks_tile(g, l, i);
        assert(i * w >= 0 && m * w == i * w + w) by (nonlinear_arith)
            requires
                i == m - 1,
                i >= 0,
                w >= 1,
        ;
        lemma_chunk_splits(g, l, i, level, tree);
        lemma_splits_add(chunks_steps(g, l, (m - 1) as nat), chunk_steps(g, l, i), level, tree);
    }
}

/// Every tree gets its split chosen exactly once at every level of the build,
/// however the trees are cut into chunks.
pub proof fn lemma_split_once(g: RfGeometry, m: nat, level: int, tree: int)
    requires
        g.bounded(),
        m <= g.depth + 1,
        0 <= tree < g.n_trees,
    ensures
        splits_chosen(schedule(g, m), level, tree) == if 0 <= level < m {
            1int
        } else {
            0
        },
    decreases m,
{
    if m > 0 {
        let l = (m - 1) as nat;
        lemma_split_once(g, l, level, tree);
        let count = chunk_count(g, l) as nat;
        crate::arith::lemma_ceil_div_brackets(g.n_trees as int, g.chunk_trees(l));
        lemma_chunks_splits(g, l, count, level, tree);
        lemma_no_splits(partition_steps(g, l), level, tree);
        lemma_splits_add(
            chunks_steps(g, l, count),
            partition_steps(g, l),
            level,
            tree,
        );
        lemma_splits_add(schedule(g, l), level_steps(g, l), level, tree);
    }
}

proof fn lemma_chunks_level(g: RfGeometry, l: nat, m: nat, i: int)
    requires
        l <= usize::MAX,
        0 <= i < chunks_steps(g, l, m).len(),
    ensures
        chunks_steps(g, l, m)[i].level == l,
        chunks_steps(g, l, m)[i].kernel != RfKernel::CountLeft,
        chunks_steps(g, l, m)[i].kernel != RfKernel::ChildRanges,
        chunks_steps(g, l, m)[i].kernel != RfKernel::Partition,
    decreases m,
{
    let before = chunks_steps(g, l, (m - 1) as nat);
    if i < before.len() {
        lemma_chunks_level(g, l, (m - 1) as nat, i);
    } else {
        let c = chunk_of(g, l, (m - 1) * g.chunk_trees(l), chunk_width(g, l, m - 1));
        let all = hist_launches(g, c) + split_launches(c);
        let k = i - before.len();
        assert(chunks_steps(g, l, m)[i] == chunk_steps(g, l, m - 1)[k]);
        assert(chunk_steps(g, l, m - 1)[k].kernel == all[k].0);
        if k < hist_launches(g, c).len() {
            assert(all[k] == hist_launches(g, c)[k]);
        } else {
            assert(all[k] == split_launches(c)[k - hist_launches(g, c).len()]);
        }
    }
}

/// Whether a kernel belongs to the partition of a level.
pub open spec fn deals_rows(kernel: RfKernel) -> bool {
    kernel == RfKernel::CountLeft || kernel == RfKernel::ChildRanges || kernel
        == RfKernel::Partition
}

/// Steps never go back: their levels ascend, and within a level every chunk is
/// done before the rows are dealt to the children.
pub proof fn lemma_schedule_ascends(g: RfGeometry, m: nat, i: int, j: int)
    requires
        m <= usize::MAX,
        0 <= i < j < schedule(g, m).len(),
    ensures
        schedule(g, m)[i].level <= schedule(g, m)[j].level < m,
        schedule(g, m)[i].level == schedule(g, m)[j].level && deals_rows(
            schedule(g, m)[i].kernel,
        ) ==> deals_rows(schedule(g, m)[j].kernel),
    decreases m,
{
    let l = (m - 1) as nat;
    let before = schedule(g, l);
    let chunks = chunks_steps(g, l, chunk_count(g, l) as nat);
    let own = level_steps(g, l);
    if j < before.len() {
        lemma_schedule_ascends(g, l, i, j);
    } else {
        let q = j - before.len();
        assert(schedule(g, m)[j] == own[q]);
        if q < chunks.len() {
            assert(own[q] == chunks[q]);
            lemma_chunks_level(g, l, chunk_count(g, l) as nat, q);
        } else {
            assert(own[q] == partition_steps(g, l)[q - chunks.len()]);
        }
        if i < before.len() {
            lemma_level_below(g, l, i);
        } else {
            let p = i - before.len();
            assert(schedule(g, m)[i] == own[p]);
            if p < chunks.len() {
                assert(own[p] == chunks[p]);
                lemma_chunks_level(g, l, chunk_count(g, l) as nat, p);
            } else {
                assert(own[p] == partition_steps(g, l)[p - chunks.len()]);
            }
        }
    }
}

proof fn lemma_level_below(g: RfGeometry, m: nat, i: int)
    requires
        m <= usize::MAX,
        0 <= i < schedule(g, m).len(),
    ensures
        schedule(g, m)[i].level < m,
    decreases m,
{
    let l = (m - 1) as nat;
    let before = schedule(g, l);
    let chunks = chunks_steps(g, l, chunk_count(g, l) as nat);
    if i < before.len() {
        lemma_level_below(g, l, i);
    } else {
        let q = i - before.len();
        assert(schedule(g, m)[i] == level_steps(g, l)[q]);
        if q < chunks.len() {
            assert(level_steps(g, l)[q] == chunks[q]);
            lemma_chunks_level(g, l, chunk_count(g, l) as nat, q);
        } else {
            assert(level_steps(g, l)[q] == partition_steps(g, l)[q - chunks.len()]);
        }
    }
}

/// Whether a step has the marks of its level: rows and ranges are read from the
/// second buffer at every other level, starting with the second; every node
/// becomes a leaf exactly at the last; and rows are dealt only above it, for all
/// trees at once.
pub open spec fn step_fits_level(g: RfGeometry, s: RfStep) -> bool {
    &&& s.level <= g.depth
    &&& s.from_second <==> s.level % 2 == 1
    &&& s.force_leaf <==> s.level == g.depth
    &&& deals_rows(s.kernel) ==> s.level < g.depth && s.tree_base == 0 && s.trees == g.n_trees
}

proof fn lemma_chunk_steps_fit(g: RfGeometry, l: nat, m: nat, i: int)
    requires
        l <= g.depth,
        0 <= i < chunks_steps(g, l, m).len(),
    ensures
        step_fits_level(g, chunks_steps(g, l, m)[i]),
        chunks_steps(g, l, m)[i].level == l,
    decreases m,
{
    let before = chunks_steps(g, l, (m - 1) as nat);
    if i < before.len() {
        lemma_chunk_steps_fit(g, l, (m - 1) as nat, i);
    } else {
        let s = chunk_steps(g, l, m - 1)[i - before.len()];
        assert(chunks_steps(g, l, m)[i] == s);
    }
}

/// Every step of a build has the marks of its level.
pub proof fn lemma_steps_fit_their_levels(g: RfGeometry, m: nat, i: int)
    requires
        m <= g.depth + 1,
        0 <= i < schedule(g, m).len(),
    ensures
        step_fits_level(g, schedule(g, m)[i]),
    decreases m,
{
    let l = (m - 1) as nat;
    let before = schedule(g, l);
    if i < before.len() {
        lemma_steps_fit_their_levels(g, l, i);
        assert(schedule(g, m)[i] == before[i]);
    } else {
        let j = i - before.len();
        let chunks = chunks_steps(g, l, chunk_count(g, l) as nat);
        assert(schedule(g, m)[i] == level_steps(g, l)[j]);
        if j < chunks.len() {
            lemma_chunk_steps_fit(g, l, chunk_count(g, l) as nat, j);
            assert(level_steps(g, l)[j] == chunks[j]);
        } else {
            assert(level_steps(g, l)[j] == partition_steps(g, l)[j - chunks.len()]);
        }
    }
}

/// The rows of a level are dealt in three steps: what goes left is counted, the
/// children get their ranges, and the rows are moved.
pub proof fn lemma_rows_dealt_in_order(g: RfGeometry, l: nat)
    ensures
        l < g.depth ==> partition_steps(g, l).len() == 3 && partition_steps(g, l)[0].kernel
            == RfKernel::CountLeft && partition_steps(g, l)[1].kernel == RfKernel::ChildRanges
            && partition_steps(g, l)[2].kernel == RfKernel::Partition,
        l >= g.depth ==> partition_steps(g, l).len() == 0,
{
}

/// Steps carry their launches over unchanged, in order, with the trees, the
/// level and the blocks that they are for.
pub proof fn lemma_steps_carry_launches(
    g: RfGeometry,
    launches: Seq<(RfKernel, LaunchDims)>,
    l: nat,
    tree_base: int,
    trees: int,
    blocks: u64,
    i: int,
)
    requires
        0 <= i < launches.len(),
        l <= usize::MAX,
        0 <= tree_base <= usize::MAX,
        0 <= trees <= usize::MAX,
    ensures
        ({
            let s = as_steps(g, launches, l, tree_base, trees, blocks);
            &&& s.len() == launches.len()
            &&& (s[i].kernel, s[i].launch) == launches[i]
            &&& s[i].level == l && s[i].tree_base == tree_base && s[i].trees == trees
            &&& s[i].blocks == blocks
        }),
{
}

/// The blocks of a chunk's steps are the cubes of a node in shared memory where
/// that is used, and the row blocks otherwise.
pub proof fn lemma_chunk_blocks(g: RfGeometry, c: RfChunk)
    ensures
        g.use_atomic ==> chunk_blocks(g, c) == c.atomic_blocks,
        !g.use_atomic ==> chunk_blocks(g, c) == c.row_blocks,
{
}

/// The chunk of a step has the sizes of its trees and level.
pub proof fn lemma_chunk_of(g: RfGeometry, l: nat, tree_base: int, trees: int)
    requires
        0 <= tree_base <= usize::MAX,
        0 <= trees <= usize::MAX,
        0 <= g.cols(l, trees) <= u64::MAX,
        0 <= g.hist_len(l, trees) <= u64::MAX,
        0 <= g.scores_len(l, trees) <= u64::MAX,
        0 <= g.stats_len(l, trees) <= u64::MAX,
        0 <= g.part_len(l, trees) <= u64::MAX,
    ensures
        chunk_at(g, l, tree_base, trees, chunk_of(g, l, tree_base, trees)),
{
}

/// Whether two steps serve the same trees at the same level.
pub open spec fn same_chunk(a: RfStep, b: RfStep) -> bool {
    a.level == b.level && a.tree_base == b.tree_base && a.trees == b.trees
}

/// Whether everything that the split at step `i` is chosen from is computed in
/// the steps right before it, for the same trees: the histogram is gathered,
/// cleared first or added up where that is due, summed over the bins, and the
/// node statistics and the scores follow.
pub open spec fn split_prepared(s: Seq<RfStep>, i: int) -> bool {
    &&& i >= 4
    &&& s[i - 1].kernel == RfKernel::SplitScores && same_chunk(s[i - 1], s[i])
    &&& s[i - 2].kernel == RfKernel::NodeStats && same_chunk(s[i - 2], s[i])
    &&& same_chunk(s[i - 3], s[i]) && same_chunk(s[i - 4], s[i])
    &&& s[i - 3].kernel == RfKernel::HistCumCounts && s[i - 4].kernel == RfKernel::HistAtomic && i
        >= 5 && s[i - 5].kernel == RfKernel::HistZero && same_chunk(s[i - 5], s[i]) || s[i
        - 3].kernel == RfKernel::HistCum && s[i - 4].kernel == RfKernel::HistPart || s[i - 3].kernel
        == RfKernel::HistCum && s[i - 4].kernel == RfKernel::HistReduce && i >= 5 && s[i
        - 5].kernel == RfKernel::HistPart && same_chunk(s[i - 5], s[i])
}

proof fn lemma_chunk_prepares(g: RfGeometry, l: nat, i: int, k: int)
    requires
        0 <= k < chunk_steps(g, l, i).len(),
        chunk_steps(g, l, i)[k].kernel == RfKernel::BestSplit,
    ensures
        split_prepared(chunk_steps(g, l, i), k),
{
    let c = chunk_of(g, l, i * g.chunk_trees(l), chunk_width(g, l, i));
    let (hist, split) = (hist_launches(g, c), split_launches(c));
    let all = hist + split;
    let s = chunk_steps(g, l, i);
    assert(s.len() == all.len());
    assert(s[k].kernel == all[k].0);
    if k < hist.len() {
        assert(all[k] == hist[k]);
    } else {
        assert(all[k] == split[k - hist.len()]);
    }
    assert(k == hist.len() + 2);
    assert(all[k - 1] == split[1] && all[k - 2] == split[0]);
    assert(all[k - 3] == hist[hist.len() - 1] && all[k - 4] == hist[hist.len() - 2]);
    if hist.len() == 3 {
        assert(all[k - 5] == hist[0]);
    }
}

proof fn lemma_chunks_prepare(g: RfGeometry, l: nat, m: nat, k: int)
    requires
        0 <= k < chunks_steps(g, l, m).len(),
        chunks_steps(g, l, m)[k].kernel == RfKernel::BestSplit,
    ensures
        split_prepared(chunks_steps(g, l, m), k),
    decreases m,
{
    let before = chunks_steps(g, l, (m - 1) as nat);
    let all = chunks_steps(g, l, m);
    if k < before.len() {
        assert(all[k] == before[k]);
        lemma_chunks_prepare(g, l, (m - 1) as nat, k);
        assert(all[k - 1] == before[k - 1] && all[k - 2] == before[k - 2] && all[k - 3] == before[k
            - 3] && all[k - 4] == before[k - 4]);
        if k >= 5 {
            assert(all[k - 5] == before[k - 5]);
        }
    } else {
        let s = chunk_steps(g, l, m - 1);
        let j = k - before.len();
        assert(all[k] == s[j]);
        lemma_chunk_prepares(g, l, m - 1, j);
        assert(all[k - 1] == s[j - 1] && all[k - 2] == s[j - 2] && all[k - 3] == s[j - 3] && all[k
            - 4] == s[j - 4]);
        if j >= 5 {
            assert(all[k - 5] == s[j - 5]);
        }
    }
}

/// No split is chosen before what it is chosen from was computed, for its own
/// trees and level.
pub proof fn lemma_splits_are_prepared(g: RfGeometry, m: nat, k: int)
    requires
        0 <= k < schedule(g, m).len(),
        schedule(g, m)[k].kernel == RfKernel::BestSplit,
    ensures
        split_prepared(schedule(g, m), k),
    decreases m,
{
    let l = (m - 1) as nat;
    let before = schedule(g, l);
    let all = schedule(g, m);
    if k < before.len() {
        assert(all[k] == before[k]);
        lemma_splits_are_prepared(g, l, k);
        assert(all[k - 1] == before[k - 1] && all[k - 2] == before[k - 2] && all[k - 3] == before[k
            - 3] && all[k - 4] == before[k - 4]);
        if k >= 5 {
            assert(all[k - 5] == before[k - 5]);
        }
    } else {
        let count = chunk_count(g, l) as nat;
        let s = chunks_steps(g, l, count);
        let j = k - before.len();
        assert(all[k] == level_steps(g, l)[j]);
        if j < s.len() {
            assert(level_steps(g, l)[j] == s[j]);
            lemma_chunks_prepare(g, l, count, j);
            assert(all[k - 1] == s[j - 1] && all[k - 2] == s[j - 2] && all[k - 3] == s[j - 3]
                && all[k - 4] == s[j - 4]);
            if j >= 5 {
                assert(all[k - 5] == s[j - 5]);
            }
        } else {
            assert(level_steps(g, l)[j] == partition_steps(g, l)[j - s.len()]);
        }
    }
}

/// Every level but the last ends with dealing its rows to the children: what goes
/// left is counted, the children get their ranges, and the rows are moved.
pub proof fn lemma_levels_end_with_dealing(g: RfGeometry, m: nat, l: nat)
    requires
        l < m,
        l < g.depth,
    ensures
        ({
            let s = schedule(g, m);
            let end = schedule(g, l + 1).len() as int;
            &&& 3 <= end <= s.len()
            &&& s[end - 3].kernel == RfKernel::CountLeft && s[end - 3].level == l
            &&& s[end - 2].kernel == RfKernel::ChildRanges && s[end - 2].level == l
            &&& s[end - 1].kernel == RfKernel::Partition && s[end - 1].level == l
        }),
    decreases m,
{
    let last = (m - 1) as nat;
    let before = schedule(g, last);
    if l < last {
        lemma_levels_end_with_dealing(g, last, l);
        let end = schedule(g, l + 1).len() as int;
        assert(schedule(g, m)[end - 1] == before[end - 1] && schedule(g, m)[end - 2] == before[end
            - 2] && schedule(g, m)[end - 3] == before[end - 3]);
    } else {
        let s = schedule(g, m);
        let deal = partition_steps(g, l);
        let steps = level_steps(g, l);
        assert(deal.len() == 3);
        let end = s.len() as int;
        assert(s[end - 1] == steps[steps.len() - 1] && s[end - 2] == steps[steps.len() - 2] && s[end
            - 3] == steps[steps.len() - 3]);
        assert(steps[steps.len() - 1] == deal[2] && steps[steps.len() - 2] == deal[1]
            && steps[steps.len() - 3] == deal[0]);
    }
}

} // verus!
