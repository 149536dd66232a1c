//! Seeded resampling: which rows each tree is grown on, and which features each
//! node may split on. Everything is a function of the fit seed.

use crate::rng::{
    below, lemma_below_in_range, next_state, state_after, stream, swap_entries, swapped,
    SplitMix64,
};
use crate::seqs::{append_all, block, lemma_append_block, sum_counts};
use vstd::arithmetic::power2::pow2;
use vstd::prelude::*;

verus! {

// ---------------------------------------------------------------------------
// Sub-seeds
// ---------------------------------------------------------------------------

/// The seeds that a fit hands to its trees and levels.
#[derive(Debug, PartialEq, Eq)]
pub struct ForestSeeds {
    /// One per tree, when rows are resampled.
    pub boot: Option<Vec<u64>>,
    /// One per level, when features are subsampled.
    pub feat: Option<Vec<u64>>,
}

/// `count` consecutive outputs of a generator, from output `from` on.
pub open spec fn outputs(seed: u64, from: nat, count: nat) -> Seq<u64> {
    Seq::new(count, |i: int| stream(seed, from + i as nat))
}

fn take_outputs(rng: &mut SplitMix64, count: usize, Ghost(seed): Ghost<u64>, Ghost(from): Ghost<
    nat,
>) -> (r: Vec<u64>)
    requires
        old(rng)@ == crate::rng::state_after(seed, from),
    ensures
        final(rng)@ == crate::rng::state_after(seed, from + count as nat),
        r@ == outputs(seed, from, count as nat),
{
    let mut out: Vec<u64> = Vec::new();
    let mut i: usize = 0;
    while i < count
        invariant
            i <= count,
            out@ == outputs(seed, from, i as nat),
            rng@ == crate::rng::state_after(seed, from + i as nat),
        decreases count - i,
    {
        proof {
            crate::rng::lemma_state_after_step(seed, from + i as nat);
        }
        let v: u64 = rng.next_u64();
        out.push(v);
        i = i + 1;
        assert(out@ =~= outputs(seed, from, i as nat));
    }
    out
}

/// Draws the sub-seeds of a fit from its seed: first one per tree when rows are
/// resampled, then one per level when features are subsampled. What is switched
/// off draws nothing.
pub fn derive_seeds(
    seed: u64,
    bootstrap: bool,
    n_trees: usize,
    subsample: bool,
    depth: usize,
) -> (r: ForestSeeds)
    requires
        depth < usize::MAX,
    ensures
        bootstrap ==> (r.boot matches Some(b) && b@ == outputs(seed, 0, n_trees as nat)),
        !bootstrap ==> r.boot is None,
        subsample ==> (r.feat matches Some(f) && f@ == outputs(
            seed,
            if bootstrap {
                n_trees as nat
            } else {
                0
            },
            (depth + 1) as nat,
        )),
        !subsample ==> r.feat is None,
{
    let mut rng: SplitMix64 = SplitMix64::new(seed);
    proof {
        crate::rng::lemma_state_after_step(seed, 0);
    }
    let boot: Option<Vec<u64>> = if bootstrap {
        Some(take_outputs(&mut rng, n_trees, Ghost(seed), Ghost(0)))
    } else {
        None
    };
    let ghost from: nat = if bootstrap {
        n_trees as nat
    } else {
        0
    };
    let feat: Option<Vec<u64>> = if subsample {
        Some(take_outputs(&mut rng, depth + 1, Ghost(seed), Ghost(from)))
    } else {
        None
    };
    ForestSeeds { boot, feat }
}

/// The seed of level `l`: its own one, or zero where every feature is on offer
/// and nothing is drawn.
pub open spec fn level_seed(seeds: ForestSeeds, l: int) -> u64 {
    match seeds.feat {
        Some(f) => f@[l],
        None => 0,
    }
}

/// The seeds that the feature tables of the levels start from.
pub fn level_seeds(seeds: &ForestSeeds, depth: usize) -> (r: Vec<u64>)
    requires
        depth < usize::MAX,
        seeds.feat matches Some(f) ==> f@.len() == depth + 1,
    ensures
        r@ == Seq::new((depth + 1) as nat, |l: int| level_seed(*seeds, l)),
        r.len() == depth + 1,
        seeds.feat matches Some(f) ==> r@ == f@,
        seeds.feat is None ==> forall|l: int| 0 <= l <= depth ==> #[trigger] r[l] == 0,
{
    let mut out: Vec<u64> = Vec::new();
    let mut l: usize = 0;
    while l < depth + 1
        invariant
            l <= depth + 1,
            depth < usize::MAX,
            seeds.feat matches Some(f) ==> f@.len() == depth + 1,
            out@ == Seq::new(l as nat, |k: int| level_seed(*seeds, k)),
        decreases depth + 1 - l,
    {
        match &seeds.feat {
            Some(f) => {
                out.push(f[l]);
            },
            None => {
                out.push(0);
            },
        }
        l = l + 1;
        assert(out@ =~= Seq::new(l as nat, |k: int| level_seed(*seeds, k)));
    }
    out
}

// ---------------------------------------------------------------------------
// Bootstrap rows
// ---------------------------------------------------------------------------

/// The counter after `j` draws below `bound`.
pub open spec fn draw_state(seed: u64, bound: u64, j: nat) -> u64
    decreases j,
{
    if j == 0 {
        seed
    } else {
        below(draw_state(seed, bound, (j - 1) as nat), bound).1
    }
}

/// The `j`-th draw below `bound`.
pub open spec fn draw(seed: u64, bound: u64, j: nat) -> u64 {
    below(draw_state(seed, bound, j), bound).0
}

/// How often the first `m` draws below `bound` gave `row`.
pub open spec fn draw_count(seed: u64, bound: u64, m: nat, row: int) -> int
    decreases m,
{
    if m == 0 {
        0
    } else {
        draw_count(seed, bound, (m - 1) as nat, row) + if draw(seed, bound, (m - 1) as nat) == row {
            1int
        } else {
            0int
        }
    }
}

/// The draw counts of the rows `0..n` of one tree.
pub open spec fn tree_draws(seed: u64, n: nat) -> Seq<u32> {
    Seq::new(n, |i: int| draw_count(seed, n as u64, n, i) as u32)
}

proof fn lemma_draw_count_bounds(seed: u64, bound: u64, m: nat, row: int)
    ensures
        0 <= draw_count(seed, bound, m, row) <= m,
    decreases m,
{
    if m > 0 {
        lemma_draw_count_bounds(seed, bound, (m - 1) as nat, row);
    }
}

/// One tree's draw counts.
fn count_draws(seed: u64, n: usize) -> (r: Vec<u32>)
    requires
        1 <= n <= u32::MAX,
    ensures
        r@ == tree_draws(seed, n as nat),
{
    let mut counts: Vec<u32> = vec![0; n];
    let mut rng: SplitMix64 = SplitMix64::new(seed);
    let mut j: usize = 0;
    while j < n
        invariant
            j <= n,
            1 <= n <= u32::MAX,
            counts.len() == n,
            rng@ == draw_state(seed, n as u64, j as nat),
            forall|i: int|
                0 <= i < n ==> #[trigger] counts[i] == draw_count(seed, n as u64, j as nat, i),
        decreases n - j,
    {
        let row: usize = rng.next_below(n as u64) as usize;
        let c: u32 = counts[row];
        proof {
            lemma_draw_count_bounds(seed, n as u64, j as nat, row as int);
        }
        counts.set(row, c + 1);
        j = j + 1;
    }
    assert(counts@ =~= tree_draws(seed, n as nat));
    counts
}

/// Whether block `k` of a list holds the draw counts of the tree of seed `k`.
pub open spec fn are_tree_counts(counts: Seq<u32>, sub_seeds: Seq<u64>, n: nat) -> bool {
    &&& counts.len() == sub_seeds.len() * n
    &&& forall|k: int|
        0 <= k < sub_seeds.len() ==> #[trigger] block(counts, k, n as int) == tree_draws(
            sub_seeds[k],
            n,
        )
}

/// A tree's rows depend on its own seed only: the counts of tree `k` among many
/// are those that its seed gives alone, and they add up to `n`.
pub proof fn lemma_trees_independent(
    counts: Seq<u32>,
    sub_seeds: Seq<u64>,
    alone: Seq<u32>,
    n: nat,
    k: int,
)
    requires
        1 <= n <= u32::MAX,
        0 <= k < sub_seeds.len(),
        are_tree_counts(counts, sub_seeds, n),
        are_tree_counts(alone, seq![sub_seeds[k]], n),
    ensures
        counts.len() == sub_seeds.len() * n,
        block(counts, k, n as int) == alone,
        sum_counts(block(counts, k, n as int)) == n,
{
    assert(seq![sub_seeds[k]].len() * n == n && 0 * n == 0) by (nonlinear_arith)
        requires
            seq![sub_seeds[k]].len() == 1,
    ;
    assert(block(alone, 0, n as int) =~= alone);
    lemma_draws_total(sub_seeds[k], n);
}

/// How often each tree draws each row: `n` draws with replacement per tree,
/// each tree from a seed of its own. Tree `k` holds block `k` of the result.
pub fn bootstrap_counts(sub_seeds: &Vec<u64>, n: usize) -> (r: Vec<u32>)
    requires
        sub_seeds.len() >= 1,
        1 <= n <= u32::MAX,
        sub_seeds.len() * n <= usize::MAX,
    ensures
        are_tree_counts(r@, sub_seeds@, n as nat),
{
    let mut out: Vec<u32> = Vec::new();
    let mut k: usize = 0;
    assert(0 * n == 0);
    while k < sub_seeds.len()
        invariant
            k <= sub_seeds.len(),
            1 <= n <= u32::MAX,
            out.len() == k * n,
            forall|q: int|
                0 <= q < k ==> #[trigger] block(out@, q, n as int) == tree_draws(
                    sub_seeds[q],
                    n as nat,
                ),
        decreases sub_seeds.len() - k,
    {
        let tree: Vec<u32> = count_draws(sub_seeds[k], n);
        proof {
            lemma_append_block(out@, tree@, k as int, n as int);
        }
        append_all(&mut out, &tree);
        k = k + 1;
    }
    out
}

/// Row `i` written `c[i]` times, rows ascending.
pub open spec fn expanded(c: Seq<u32>) -> Seq<u32>
    decreases c.len(),
{
    if c.len() == 0 {
        Seq::empty()
    } else {
        expanded(c.drop_last()) + Seq::new(c.last() as nat, |i: int| (c.len() - 1) as u32)
    }
}

proof fn lemma_expanded_len(c: Seq<u32>)
    ensures
        expanded(c).len() == sum_counts(c),
        sum_counts(c) >= 0,
    decreases c.len(),
{
    if c.len() > 0 {
        lemma_expanded_len(c.drop_last());
    }
}

/// The rows that each tree is grown on, ascending: row `i` as often as the tree
/// drew it. A row that was never drawn is absent.
pub fn expand_order(counts: &Vec<u32>, n_trees: usize, n: usize) -> (r: Vec<u32>)
    requires
        1 <= n <= u32::MAX,
        counts.len() == n_trees * n,
        forall|k: int|
            0 <= k < n_trees ==> sum_counts(#[trigger] block(counts@, k, n as int)) == n,
    ensures
        r.len() == n_trees * n,
        forall|k: int|
            0 <= k < n_trees ==> #[trigger] block(r@, k, n as int) == expanded(
                block(counts@, k, n as int),
            ),
{
    let total: usize = counts.len();
    let mut out: Vec<u32> = Vec::new();
    let mut k: usize = 0;
    assert(0 * n == 0);
    while k < n_trees
        invariant
            k <= n_trees,
            1 <= n <= u32::MAX,
            total == n_trees * n,
            counts.len() == n_trees * n,
            out.len() == k * n,
            forall|q: int|
                0 <= q < n_trees ==> sum_counts(#[trigger] block(counts@, q, n as int)) == n,
            forall|q: int|
                0 <= q < k ==> #[trigger] block(out@, q, n as int) == expanded(
                    block(counts@, q, n as int),
                ),
        decreases n_trees - k,
    {
        proof {
            crate::arith::lemma_flat_index(k as int, 0, n_trees as int, n as int);
        }
        let ghost c = block(counts@, k as int, n as int);
        let mut tree: Vec<u32> = Vec::new();
        let mut i: usize = 0;
        assert(c.take(0) =~= Seq::<u32>::empty());
        while i < n
            invariant
                i <= n,
                1 <= n <= u32::MAX,
                total == n_trees * n,
                counts.len() == n_trees * n,
                k < n_trees,
                0 <= k * n,
                k * n + n <= n_trees * n,
                c == block(counts@, k as int, n as int),
                tree@ == expanded(c.take(i as int)),
            decreases n - i,
        {
            let reps: u32 = counts[k * n + i];
            let mut q: u32 = 0;
            let ghost before = tree@;
            assert(before + Seq::new(0, |j: int| i as u32) =~= before);
            while q < reps
                invariant
                    q <= reps,
                    i < n <= u32::MAX,
                    tree@ == before + Seq::new(q as nat, |j: int| i as u32),
                decreases reps - q,
            {
                tree.push(i as u32);
                q = q + 1;
                assert(tree@ =~= before + Seq::new(q as nat, |j: int| i as u32));
            }
            proof {
                assert(c.take(i + 1).drop_last() =~= c.take(i as int));
                assert(c.take(i + 1).last() == reps);
                assert(c.take(i + 1).len() - 1 == i);
                assert(Seq::new(reps as nat, |j: int| i as u32) =~= Seq::new(
                    reps as nat,
                    |j: int| (c.take(i + 1).len() - 1) as u32,
                ));
            }
            i = i + 1;
        }
        proof {
            assert(c.take(n as int) =~= c);
            lemma_expanded_len(c);
            lemma_append_block(out@, tree@, k as int, n as int);
        }
        append_all(&mut out, &tree);
        k = k + 1;
    }
    out
}

/// Sum of the draw counts of the rows below `rows`.
spec fn total_draws(seed: u64, bound: u64, m: nat, rows: nat) -> int
    decreases rows,
{
    if rows == 0 {
        0
    } else {
        total_draws(seed, bound, m, (rows - 1) as nat) + draw_count(
            seed,
            bound,
            m,
            rows - 1,
        )
    }
}

proof fn lemma_total_step(seed: u64, bound: u64, m: nat, rows: nat)
    requires
        m > 0,
    ensures
        total_draws(seed, bound, m, rows) == total_draws(seed, bound, (m - 1) as nat, rows) + if draw(
            seed,
            bound,
            (m - 1) as nat,
        ) < rows {
            1int
        } else {
            0int
        },
    decreases rows,
{
    if rows > 0 {
        lemma_total_step(seed, bound, m, (rows - 1) as nat);
    }
}

proof fn lemma_total_is_m(seed: u64, bound: u64, m: nat)
    requires
        bound >= 1,
    ensures
        total_draws(seed, bound, m, bound as nat) == m,
    decreases m,
{
    if m == 0 {
        lemma_total_zero(seed, bound, bound as nat);
    } else {
        lemma_total_step(seed, bound, m, bound as nat);
        lemma_total_is_m(seed, bound, (m - 1) as nat);
        lemma_below_in_range(draw_state(seed, bound, (m - 1) as nat), bound);
    }
}

proof fn lemma_total_zero(seed: u64, bound: u64, rows: nat)
    ensures
        total_draws(seed, bound, 0, rows) == 0,
    decreases rows,
{
    if rows > 0 {
        lemma_total_zero(seed, bound, (rows - 1) as nat);
    }
}

proof fn lemma_sum_is_total(seed: u64, n: nat, rows: nat)
    requires
        n <= u32::MAX,
        rows <= n,
    ensures
        sum_counts(tree_draws(seed, n).take(rows as int)) == total_draws(seed, n as u64, n, rows),
    decreases rows,
{
    let t = tree_draws(seed, n);
    if rows > 0 {
        lemma_sum_is_total(seed, n, (rows - 1) as nat);
        assert(t.take(rows as int).drop_last() =~= t.take(rows - 1));
        lemma_draw_count_bounds(seed, n as u64, n, rows - 1);
    }
}

/// A tree draws as many rows as there are: its counts add up to `n`.
pub proof fn lemma_draws_total(seed: u64, n: nat)
    requires
        1 <= n <= u32::MAX,
    ensures
        sum_counts(tree_draws(seed, n)) == n,
{
    lemma_sum_is_total(seed, n, n);
    lemma_total_is_m(seed, n as u64, n);
    assert(tree_draws(seed, n).take(n as int) =~= tree_draws(seed, n));
}

/// An expanded row list is ascending and names each row exactly as often as it
/// was counted, so a row that was not drawn is absent.
pub proof fn lemma_expanded_rows(c: Seq<u32>, row: int)
    requires
        c.len() <= u32::MAX,
        0 <= row < c.len(),
    ensures
        expanded(c).to_multiset().count(row as u32) == c[row],
        forall|i: int, j: int|
            0 <= i <= j < expanded(c).len() ==> expanded(c)[i] <= expanded(c)[j],
        forall|i: int| 0 <= i < expanded(c).len() ==> #[trigger] expanded(c)[i] < c.len(),
    decreases c.len(),
{
    broadcast use vstd::seq_lib::group_to_multiset_ensures;

    let p = c.drop_last();
    let tail = Seq::new(c.last() as nat, |i: int| (c.len() - 1) as u32);
    vstd::seq_lib::lemma_multiset_commutative(expanded(p), tail);
    lemma_constant_multiset(c.last() as nat, (c.len() - 1) as u32, row as u32);
    if p.len() > 0 {
        lemma_expanded_rows(p, 0);
    }
    if row < p.len() {
        lemma_expanded_rows(p, row);
    } else {
        assert(expanded(p).to_multiset().count(row as u32) == 0) by {
            assert(!expanded(p).contains(row as u32));
        }
    }
}

proof fn lemma_constant_multiset(m: nat, v: u32, x: u32)
    ensures
        Seq::new(m, |i: int| v).to_multiset().count(x) == if x == v {
            m
        } else {
            0
        },
    decreases m,
{
    broadcast use vstd::seq_lib::group_to_multiset_ensures;

    let s = Seq::new(m, |i: int| v);
    if m == 0 {
        assert(s =~= Seq::<u32>::empty());
        assert(!s.contains(x));
    } else {
        lemma_constant_multiset((m - 1) as nat, v, x);
        assert(s =~= Seq::new((m - 1) as nat, |i: int| v).push(v));
    }
}

/// The rows of every tree of a resampled fit, from the trees' seeds.
pub fn bootstrap_order(sub_seeds: &Vec<u64>, n: usize) -> (r: Vec<u32>)
    requires
        sub_seeds.len() >= 1,
        1 <= n <= u32::MAX,
        sub_seeds.len() * n <= usize::MAX,
    ensures
        r.len() == sub_seeds.len() * n,
        forall|k: int|
            0 <= k < sub_seeds.len() ==> #[trigger] block(r@, k, n as int) == expanded(
                tree_draws(sub_seeds[k], n as nat),
            ),
{
    let counts: Vec<u32> = bootstrap_counts(sub_seeds, n);
    proof {
        assert forall|k: int| 0 <= k < sub_seeds.len() implies sum_counts(
            #[trigger] block(counts@, k, n as int),
        ) == n by {
            lemma_draws_total(sub_seeds[k], n as nat);
        }
    }
    expand_order(&counts, sub_seeds.len(), n)
}

// ---------------------------------------------------------------------------
// Feature subsets
// ---------------------------------------------------------------------------

/// `0, 1, .., d - 1`.
pub open spec fn iota(d: nat) -> Seq<u32> {
    Seq::new(d, |i: int| i as u32)
}

/// A partial Fisher-Yates shuffle: entries `k..mf` are each exchanged with a
/// draw from themselves onward.
pub open spec fn partial_shuffle(scratch: Seq<u32>, k: nat, mf: nat, s: u64) -> (Seq<u32>, u64)
    decreases mf - k,
{
    if k >= mf {
        (scratch, s)
    } else {
        let dr = below(s, (scratch.len() - k) as u64);
        partial_shuffle(swapped(scratch, k as int, k + dr.0), k + 1, mf, dr.1)
    }
}

/// The `mf` of `d` features that one node draws from counter `s`, and the
/// counter after it.
pub open spec fn node_features(s: u64, mf: nat, d: nat) -> (Seq<u32>, u64) {
    let r = partial_shuffle(iota(d), 0, mf, s);
    (r.0.take(mf as int), r.1)
}

/// The features of `blocks` nodes in a row. All features are listed as they
/// are, without a draw, when every node takes all of them.
pub open spec fn feature_table(s: u64, blocks: nat, mf: nat, d: nat) -> (Seq<u32>, u64)
    decreases blocks,
{
    if blocks == 0 {
        (Seq::empty(), s)
    } else {
        let before = feature_table(s, (blocks - 1) as nat, mf, d);
        if mf == d {
            (before.0 + iota(d), before.1)
        } else {
            let f = node_features(before.1, mf, d);
            (before.0 + f.0, f.1)
        }
    }
}

/// Distinct features, all below `d`.
pub open spec fn distinct_below(s: Seq<u32>, d: int) -> bool {
    &&& s.no_duplicates()
    &&& forall|i: int| 0 <= i < s.len() ==> #[trigger] s[i] < d
}

proof fn lemma_partial_shuffle(scratch: Seq<u32>, k: nat, mf: nat, s: u64)
    requires
        distinct_below(scratch, scratch.len() as int),
        mf <= scratch.len() <= u32::MAX,
    ensures
        distinct_below(partial_shuffle(scratch, k, mf, s).0, scratch.len() as int),
        partial_shuffle(scratch, k, mf, s).0.len() == scratch.len(),
    decreases mf - k,
{
    if k < mf {
        let b = (scratch.len() - k) as u64;
        lemma_below_in_range(s, b);
        let dr = below(s, b);
        let next = swapped(scratch, k as int, k + dr.0);
        lemma_partial_shuffle(next, k + 1, mf, dr.1);
    }
}

/// Without replacement: whatever the draws, a node's features are `mf` distinct
/// features below `d`.
pub proof fn lemma_node_features_distinct(s: u64, mf: nat, d: nat)
    requires
        mf <= d <= u32::MAX,
    ensures
        node_features(s, mf, d).0.len() == mf,
        distinct_below(node_features(s, mf, d).0, d as int),
{
    assert(distinct_below(iota(d), d as int));
    lemma_partial_shuffle(iota(d), 0, mf, s);
}

proof fn lemma_feature_table_len(s: u64, blocks: nat, mf: nat, d: nat)
    requires
        mf <= d <= u32::MAX,
    ensures
        feature_table(s, blocks, mf, d).0.len() == blocks * mf,
    decreases blocks,
{
    if blocks > 0 {
        let before = feature_table(s, (blocks - 1) as nat, mf, d);
        lemma_feature_table_len(s, (blocks - 1) as nat, mf, d);
        lemma_node_features_distinct(before.1, mf, d);
        assert(blocks * mf == (blocks - 1) * mf + mf) by (nonlinear_arith)
            requires
                blocks > 0,
        ;
    } else {
        assert(0 * mf == 0);
    }
}

/// When every node takes all features the table does not depend on the seed.
pub proof fn lemma_full_features_unseeded(s: u64, t: u64, blocks: nat, d: nat)
    ensures
        feature_table(s, blocks, d, d).0 == feature_table(t, blocks, d, d).0,
        feature_table(s, blocks, d, d).1 == s,
    decreases blocks,
{
    if blocks > 0 {
        lemma_full_features_unseeded(s, t, (blocks - 1) as nat, d);
    }
}

fn iota_vec(d: usize) -> (r: Vec<u32>)
    requires
        d <= u32::MAX,
    ensures
        r@ == iota(d as nat),
{
    let mut out: Vec<u32> = Vec::new();
    let mut i: usize = 0;
    while i < d
        invariant
            i <= d <= u32::MAX,
            out@ == iota(i as nat),
        decreases d - i,
    {
        out.push(i as u32);
        i = i + 1;
        assert(out@ =~= iota(i as nat));
    }
    out
}

/// The features of one node.
fn draw_node_features(rng: &mut SplitMix64, mf: usize, d: usize) -> (r: Vec<u32>)
    requires
        mf <= d <= u32::MAX,
    ensures
        r@ == node_features(old(rng)@, mf as nat, d as nat).0,
        final(rng)@ == node_features(old(rng)@, mf as nat, d as nat).1,
{
    let mut scratch: Vec<u32> = iota_vec(d);
    let mut k: usize = 0;
    while k < mf
        invariant
            k <= mf <= d <= u32::MAX,
            scratch.len() == d,
            partial_shuffle(scratch@, k as nat, mf as nat, rng@) == partial_shuffle(
                iota(d as nat),
                0,
                mf as nat,
                old(rng)@,
            ),
        decreases mf - k,
    {
        let r: usize = k + rng.next_below((d - k) as u64) as usize;
        swap_entries(&mut scratch, k, r);
        k = k + 1;
    }
    let mut out: Vec<u32> = Vec::new();
    let mut i: usize = 0;
    while i < mf
        invariant
            i <= mf <= d,
            scratch.len() == d,
            out@ == scratch@.take(i as int),
        decreases mf - i,
    {
        out.push(scratch[i]);
        i = i + 1;
        assert(out@ =~= scratch@.take(i as int));
    }
    out
}

/// The features that each of `n_trees * nodes` nodes may split on, `mf` of `d`
/// without replacement, in drawing order.
pub fn sample_features(
    rng: &mut SplitMix64,
    n_trees: usize,
    nodes: usize,
    mf: usize,
    d: usize,
) -> (r: Vec<u32>)
    requires
        mf <= d <= u32::MAX,
        n_trees * nodes <= usize::MAX,
    ensures
        r@ == feature_table(old(rng)@, (n_trees * nodes) as nat, mf as nat, d as nat).0,
        final(rng)@ == feature_table(old(rng)@, (n_trees * nodes) as nat, mf as nat, d as nat).1,
        r.len() == n_trees * nodes * mf,
{
    let blocks: usize = n_trees * nodes;
    let mut out: Vec<u32> = Vec::new();
    let mut b: usize = 0;
    proof {
        lemma_feature_table_len(old(rng)@, blocks as nat, mf as nat, d as nat);
    }
    while b < blocks
        invariant
            b <= blocks,
            mf <= d <= u32::MAX,
            out@ == feature_table(old(rng)@, b as nat, mf as nat, d as nat).0,
            rng@ == feature_table(old(rng)@, b as nat, mf as nat, d as nat).1,
        decreases blocks - b,
    {
        if mf == d {
            let all: Vec<u32> = iota_vec(d);
            append_all(&mut out, &all);
        } else {
            let f: Vec<u32> = draw_node_features(rng, mf, d);
            append_all(&mut out, &f);
        }
        b = b + 1;
    }
    out
}

/// Where level `l` starts in the whole-forest feature table.
pub open spec fn level_offset(n_trees: int, mf: int, l: nat) -> int {
    n_trees * mf * (pow2(l) - 1)
}

/// The features of the nodes of level `l`, drawn from that level's seed.
pub open spec fn level_features(seed: u64, n_trees: nat, l: nat, mf: nat, d: nat) -> Seq<u32> {
    feature_table(seed, n_trees * pow2(l), mf, d).0
}

proof fn lemma_level_offset_step(n_trees: int, mf: int, l: nat)
    requires
        n_trees >= 0,
        mf >= 0,
    ensures
        level_offset(n_trees, mf, l + 1) == level_offset(n_trees, mf, l) + n_trees * pow2(l) * mf,
        level_offset(n_trees, mf, l) >= 0,
        n_trees * pow2(l) * mf >= 0,
{
    vstd::arithmetic::power2::lemma_pow2_unfold(l + 1);
    vstd::arithmetic::power2::lemma_pow2_pos(l);
    let p = pow2(l) as int;
    assert(n_trees * mf * (2 * p - 1) == n_trees * mf * (p - 1) + n_trees * p * mf)
        by (nonlinear_arith);
    assert(n_trees * mf * (p - 1) >= 0 && n_trees * p * mf >= 0) by (nonlinear_arith)
        requires
            n_trees >= 0,
            mf >= 0,
            p >= 1,
    ;
}

proof fn lemma_level_offset_monotone(n_trees: int, mf: int, l: nat, m: nat)
    requires
        n_trees >= 0,
        mf >= 0,
        l <= m,
    ensures
        level_offset(n_trees, mf, l) <= level_offset(n_trees, mf, m),
    decreases m - l,
{
    if l < m {
        lemma_level_offset_step(n_trees, mf, l);
        lemma_level_offset_monotone(n_trees, mf, l + 1, m);
    }
}

/// The whole-forest feature table: level after level, each from its own seed,
/// with the position at which each level starts.
pub fn sample_features_all(
    level_seeds: &Vec<u64>,
    n_trees: usize,
    depth: usize,
    mf: usize,
    d: usize,
) -> (r: (Vec<u32>, Vec<usize>))
    requires
        depth < 62,
        level_seeds.len() == depth + 1,
        n_trees >= 1,
        1 <= mf <= d <= u32::MAX,
        level_offset(n_trees as int, mf as int, (depth + 1) as nat) <= usize::MAX,
    ensures
        r.1.len() == depth + 1,
        r.0.len() == level_offset(n_trees as int, mf as int, (depth + 1) as nat),
        forall|l: int|
            0 <= l <= depth ==> #[trigger] r.1[l] == level_offset(
                n_trees as int,
                mf as int,
                l as nat,
            ),
        forall|l: int|
            0 <= l <= depth ==> #[trigger] r.0@.subrange(
                level_offset(n_trees as int, mf as int, l as nat),
                level_offset(n_trees as int, mf as int, (l + 1) as nat),
            ) == level_features(level_seeds[l], n_trees as nat, l as nat, mf as nat, d as nat),
{
    let ghost tt = n_trees as int;
    let ghost mm = mf as int;
    let mut offs: Vec<usize> = Vec::new();
    let mut table: Vec<u32> = Vec::new();
    let mut l: usize = 0;
    let mut nodes: usize = 1;
    proof {
        vstd::arithmetic::power2::lemma2_to64();
        assert(tt * mm * 0 == 0);
    }
    while l < depth + 1
        invariant
            l <= depth + 1,
            depth < 62,
            tt == n_trees,
            mm == mf,
            n_trees >= 1,
            1 <= mf <= d <= u32::MAX,
            level_seeds.len() == depth + 1,
            l <= depth ==> nodes == pow2(l as nat),
            level_offset(tt, mm, (depth + 1) as nat) <= usize::MAX,
            offs.len() == l,
            table.len() == level_offset(tt, mm, l as nat),
            forall|q: int| 0 <= q < l ==> #[trigger] offs[q] == level_offset(tt, mm, q as nat),
            forall|q: int|
                0 <= q < l ==> #[trigger] table@.subrange(
                    level_offset(tt, mm, q as nat),
                    level_offset(tt, mm, (q + 1) as nat),
                ) == level_features(
                    level_seeds[q],
                    n_trees as nat,
                    q as nat,
                    mf as nat,
                    d as nat,
                ),
        decreases depth + 1 - l,
    {
        offs.push(table.len());
        proof {
            lemma_level_offset_step(tt, mm, l as nat);
            lemma_level_offset_monotone(tt, mm, (l + 1) as nat, (depth + 1) as nat);
            assert(n_trees * nodes <= n_trees * nodes * mf) by (nonlinear_arith)
                requires
                    mf >= 1,
                    n_trees >= 0,
                    nodes >= 0,
            ;
        }
        let mut rng: SplitMix64 = SplitMix64::new(level_seeds[l]);
        let part: Vec<u32> = sample_features(&mut rng, n_trees, nodes, mf, d);
        let ghost before = table@;
        append_all(&mut table, &part);
        proof {
            assert((n_trees * nodes) as nat == n_trees as nat * pow2(l as nat));
            assert(table@.subrange(
                level_offset(tt, mm, l as nat),
                level_offset(tt, mm, (l + 1) as nat),
            ) =~= part@);
            assert forall|q: int| 0 <= q < l implies #[trigger] table@.subrange(
                level_offset(tt, mm, q as nat),
                level_offset(tt, mm, (q + 1) as nat),
            ) == level_features(
                level_seeds[q],
                n_trees as nat,
                q as nat,
                mf as nat,
                d as nat,
            ) by {
                lemma_level_offset_step(tt, mm, q as nat);
                lemma_level_offset_monotone(tt, mm, (q + 1) as nat, l as nat);
                assert(table@.subrange(
                    level_offset(tt, mm, q as nat),
                    level_offset(tt, mm, (q + 1) as nat),
                ) =~= before.subrange(
                    level_offset(tt, mm, q as nat),
                    level_offset(tt, mm, (q + 1) as nat),
                ));
            }
            vstd::arithmetic::power2::lemma_pow2_unfold((l + 1) as nat);
            vstd::arithmetic::power2::lemma_pow2_strictly_increases(l as nat, 62);
            vstd::arithmetic::power2::lemma2_to64();
            vstd::arithmetic::power2::lemma2_to64_rest();
        }
        if l < depth {
            proof {
                lemma_level_offset_step(tt, mm, (l + 1) as nat);
                lemma_level_offset_monotone(tt, mm, (l + 2) as nat, (depth + 1) as nat);
                assert(pow2((l + 1) as nat) <= n_trees * pow2((l + 1) as nat) * mf)
                    by (nonlinear_arith)
                    requires
                        n_trees >= 1,
                        mf >= 1,
                        pow2((l + 1) as nat) >= 0,
                ;
            }
            nodes = nodes * 2;
        }
        l = l + 1;
    }
    (table, offs)
}

// ---------------------------------------------------------------------------
// All draws of a build
// ---------------------------------------------------------------------------

/// What a build draws: the rows of each tree, where they are resampled, and the
/// features of the nodes of each level.
pub open spec fn build_draws(
    seed: u64,
    bootstrap: bool,
    n: nat,
    n_trees: nat,
    depth: nat,
    mf: nat,
    d: nat,
) -> (Option<Seq<Seq<u32>>>, Seq<Seq<u32>>) {
    let from: nat = if bootstrap {
        n_trees
    } else {
        0
    };
    (
        if bootstrap {
            Some(Seq::new(n_trees, |k: int| expanded(tree_draws(stream(seed, k as nat), n))))
        } else {
            None
        },
        Seq::new(
            depth + 1,
            |l: int|
                level_features(
                    if mf < d {
                        stream(seed, from + l as nat)
                    } else {
                        0
                    },
                    n_trees,
                    l as nat,
                    mf,
                    d,
                ),
        ),
    )
}

/// The draws of a build, level after level.
#[derive(Debug, PartialEq, Eq)]
pub struct ForestDraws {
    /// The rows of the trees, tree after tree, when they are resampled.
    pub order: Option<Vec<u32>>,
    /// The features of the nodes, level after level.
    pub features: Vec<u32>,
    /// Where each level starts among the features.
    pub offsets: Vec<usize>,
}

/// Makes all draws of a build from its seed.
pub fn draw_forest(
    seed: u64,
    bootstrap: bool,
    n: usize,
    n_trees: usize,
    depth: usize,
    mf: usize,
    d: usize,
) -> (r: ForestDraws)
    requires
        depth < 62,
        n_trees >= 1,
        1 <= n <= u32::MAX,
        1 <= mf <= d <= u32::MAX,
        n_trees * n <= usize::MAX,
        level_offset(n_trees as int, mf as int, (depth + 1) as nat) <= usize::MAX,
    ensures
        ({
            let draws = build_draws(
                seed,
                bootstrap,
                n as nat,
                n_trees as nat,
                depth as nat,
                mf as nat,
                d as nat,
            );
            &&& r.order is Some == draws.0 is Some
            &&& r.order is Some ==> r.order->0@.len() == n_trees * n && forall|k: int|
                0 <= k < n_trees ==> #[trigger] block(r.order->0@, k, n as int)
                    == draws.0->0[k]
            &&& r.offsets.len() == depth + 1
            &&& r.features.len() == level_offset(n_trees as int, mf as int, (depth + 1) as nat)
            &&& forall|l: int|
                0 <= l <= depth ==> #[trigger] r.offsets[l] == level_offset(
                    n_trees as int,
                    mf as int,
                    l as nat,
                )
            &&& forall|l: int|
                0 <= l <= depth ==> #[trigger] r.features@.subrange(
                    level_offset(n_trees as int, mf as int, l as nat),
                    level_offset(n_trees as int, mf as int, (l + 1) as nat),
                ) == draws.1[l]
        }),
{
    let seeds: ForestSeeds = derive_seeds(seed, bootstrap, n_trees, mf < d, depth);
    let by_level: Vec<u64> = level_seeds(&seeds, depth);
    let (features, offsets): (Vec<u32>, Vec<usize>) = sample_features_all(
        &by_level,
        n_trees,
        depth,
        mf,
        d,
    );
    let order: Option<Vec<u32>> = match &seeds.boot {
        Some(b) => Some(bootstrap_order(b, n)),
        None => None,
    };
    proof {
        let draws = build_draws(
            seed,
            bootstrap,
            n as nat,
            n_trees as nat,
            depth as nat,
            mf as nat,
            d as nat,
        );
        assert forall|l: int| 0 <= l <= depth implies #[trigger] features@.subrange(
            level_offset(n_trees as int, mf as int, l as nat),
            level_offset(n_trees as int, mf as int, (l + 1) as nat),
        ) == draws.1[l] by {
            assert(by_level[l] == level_seed(seeds, l));
        }
    }
    ForestDraws { order, features, offsets }
}

proof fn lemma_full_features_listed(s: u64, blocks: nat, d: nat, b: int)
    requires
        0 <= b < blocks,
    ensures
        feature_table(s, blocks, d, d).0.len() == blocks * d,
        block(feature_table(s, blocks, d, d).0, b, d as int) == iota(d),
    decreases blocks,
{
    let k = (blocks - 1) as nat;
    let before = feature_table(s, k, d, d).0;
    if k == 0 {
        assert(0 * d == 0);
    } else {
        lemma_full_features_listed(
            s,
            k,
            d,
            if b < k {
                b
            } else {
                0
            },
        );
    }
    crate::seqs::lemma_append_block(before, iota(d), k as int, d as int);
}

/// Without resampling and with all features on offer a build draws nothing: the
/// seed makes no difference, and every node of every tree, those of the first
/// tree among them, is offered the features as they are.
pub proof fn lemma_plain_build_unseeded(
    seed1: u64,
    seed2: u64,
    n: nat,
    n_trees: nat,
    depth: nat,
    d: nat,
    l: nat,
    node: int,
)
    requires
        l <= depth,
        0 <= node < n_trees * pow2(l),
    ensures
        build_draws(seed1, false, n, n_trees, depth, d, d) == build_draws(
            seed2,
            false,
            n,
            n_trees,
            depth,
            d,
            d,
        ),
        build_draws(seed1, false, n, n_trees, depth, d, d).0 is None,
        block(build_draws(seed1, false, n, n_trees, depth, d, d).1[l as int], node, d as int)
            == iota(d),
{
    assert(build_draws(seed1, false, n, n_trees, depth, d, d).1 =~= build_draws(
        seed2,
        false,
        n,
        n_trees,
        depth,
        d,
        d,
    ).1);
    lemma_full_features_listed(0, n_trees * pow2(l), d, node);
}

/// The features on offer in tree `t`, level after level: those of its nodes.
pub open spec fn tree_offers(levels: Seq<Seq<u32>>, t: int, mf: nat) -> Seq<Seq<u32>> {
    Seq::new(levels.len(), |l: int| block(levels[l], t, (pow2(l as nat) * mf) as int))
}

/// Without resampling and with all features on offer forests agree: whatever
/// grows from the draws of a build is the same for every seed, and whatever
/// grows in a tree from the rows and the features that it is offered is the same
/// in every tree of a forest.
pub proof fn lemma_plain_forests_agree<M, T>(
    grow: spec_fn((Option<Seq<Seq<u32>>>, Seq<Seq<u32>>)) -> M,
    grow_tree: spec_fn((Option<Seq<u32>>, Seq<Seq<u32>>)) -> T,
    seed1: u64,
    seed2: u64,
    n: nat,
    n_trees: nat,
    depth: nat,
    d: nat,
    t: int,
)
    requires
        0 <= t < n_trees,
    ensures
        grow(build_draws(seed1, false, n, n_trees, depth, d, d)) == grow(
            build_draws(seed2, false, n, n_trees, depth, d, d),
        ),
        build_draws(seed1, false, n, n_trees, depth, d, d).0 is None,
        ({
            let levels = build_draws(seed1, false, n, n_trees, depth, d, d).1;
            grow_tree((None, tree_offers(levels, t, d))) == grow_tree(
                (None, tree_offers(levels, 0, d)),
            )
        }),
{
    let levels = build_draws(seed1, false, n, n_trees, depth, d, d).1;
    assert(levels =~= build_draws(seed2, false, n, n_trees, depth, d, d).1);
    assert forall|l: int| 0 <= l < levels.len() implies block(
        #[trigger] levels[l],
        t,
        (pow2(l as nat) * d) as int,
    ) == block(levels[l], 0, (pow2(l as nat) * d) as int) by {
        lemma_trees_offered_alike(n_trees, pow2(l as nat), d, t);
    }
    assert(tree_offers(levels, t, d) =~= tree_offers(levels, 0, d));
}

proof fn lemma_trees_offered_alike(n_trees: nat, nodes: nat, d: nat, t: int)
    requires
        0 <= t < n_trees,
    ensures
        ({
            let table = feature_table(0, n_trees * nodes, d, d).0;
            block(table, t, (nodes * d) as int) == block(table, 0, (nodes * d) as int)
        }),
{
    let table = feature_table(0, n_trees * nodes, d, d).0;
    let len = (nodes * d) as int;
    let a = block(table, t, len);
    let b = block(table, 0, len);
    assert(0 * len == 0 && t * len + len == (t + 1) * len) by (nonlinear_arith);
    if len == 0 {
        assert(t * len == 0) by (nonlinear_arith)
            requires
                len == 0,
        ;
        assert(a =~= b);
    } else {
        assert(nodes >= 1 && d >= 1) by (nonlinear_arith)
            requires
                nodes * d == len,
                len > 0,
                nodes >= 0,
                d >= 0,
        ;
        assert(n_trees * nodes >= 1 && 0 <= t * len && t * len + len <= n_trees * nodes * d)
            by (nonlinear_arith)
            requires
                0 <= t < n_trees,
                nodes >= 1,
                d >= 1,
                len == nodes * d,
        ;
        lemma_full_features_listed(0, n_trees * nodes, d, 0);
        assert forall|q: int| 0 <= q < len implies #[trigger] a[q] == b[q] by {
            let i = q / (d as int);
            let k = q % (d as int);
            vstd::arithmetic::div_mod::lemma_fundamental_div_mod(q, d as int);
            assert(0 <= i < nodes && i * d + k == q && (t * nodes + i) * d + k == t * len + q
                && 0 <= t * nodes + i < n_trees * nodes) by (nonlinear_arith)
                requires
                    q == d * i + k,
                    0 <= k < d,
                    0 <= q < len,
                    len == nodes * d,
                    0 <= t < n_trees,
            ;
            assert(0 <= i < n_trees * nodes) by (nonlinear_arith)
                requires
                    0 <= i < nodes,
                    n_trees >= 1,
            ;
            lemma_full_features_listed(0, n_trees * nodes, d, i);
            lemma_full_features_listed(0, n_trees * nodes, d, t * nodes + i);
            crate::arith::lemma_flat_index(i, k, (n_trees * nodes) as int, d as int);
            crate::arith::lemma_flat_index(
                t * nodes + i,
                k,
                (n_trees * nodes) as int,
                d as int,
            );
            assert(block(table, i, d as int)[k] == table[i * d + k]);
            assert(block(table, t * nodes + i, d as int)[k] == table[(t * nodes + i) * d + k]);
        }
        assert(a =~= b);
    }
}

// ---------------------------------------------------------------------------
// What the draws amount to
// ---------------------------------------------------------------------------

/// Sub-seeds are consecutive outputs of one generator: the seeds from a later
/// output on are those of a generator that has made the draws before.
pub proof fn lemma_outputs_in_turn(seed: u64, from: nat, count: nat, i: int)
    requires
        0 <= i < count,
    ensures
        outputs(seed, from, count).len() == count,
        outputs(seed, from, count)[i] == outputs(state_after(seed, from), 0, count)[i],
{
    lemma_stream_from(seed, from, i as nat);
}

proof fn lemma_stream_from(seed: u64, from: nat, i: nat)
    ensures
        stream(seed, from + i) == stream(state_after(seed, from), i),
    decreases from,
{
    crate::rng::lemma_state_after_step(seed, 0);
    if from > 0 {
        let k = (from - 1) as nat;
        lemma_stream_from(next_state(seed), k, i);
        crate::rng::lemma_stream_shifts(seed, k + i);
        crate::rng::lemma_stream_shifts(seed, k);
        assert(stream(seed, k + i + 1) == stream(next_state(seed), k + i));
        assert(state_after(next_state(seed), k) == state_after(seed, k + 1));
    }
}

/// Draws follow each other: the first is a bounded draw from the seed, and those
/// after it are the draws of a generator that has made it.
pub proof fn lemma_draws_in_turn(seed: u64, bound: u64, j: nat)
    ensures
        draw(seed, bound, 0) == below(seed, bound).0,
        draw(seed, bound, j + 1) == draw(below(seed, bound).1, bound, j),
        draw_state(seed, bound, j + 1) == draw_state(below(seed, bound).1, bound, j),
    decreases j,
{
    reveal_with_fuel(draw_state, 2);
    if j > 0 {
        lemma_draws_in_turn(seed, bound, (j - 1) as nat);
    }
}

/// A row counts as drawn exactly where some draw gave it, and each draw counts
/// once: one more draw adds one to the row that it gives and nothing to others.
pub proof fn lemma_draw_counts(seed: u64, bound: u64, m: nat, row: int)
    ensures
        draw_count(seed, bound, m, row) > 0 <==> exists|j: nat|
            j < m && #[trigger] draw(seed, bound, j) == row,
        draw_count(seed, bound, m, row) >= 0,
        draw(seed, bound, m) == row ==> draw_count(seed, bound, m + 1, row) == draw_count(
            seed,
            bound,
            m,
            row,
        ) + 1,
        draw(seed, bound, m) != row ==> draw_count(seed, bound, m + 1, row) == draw_count(
            seed,
            bound,
            m,
            row,
        ),
    decreases m,
{
    if m > 0 {
        let k = (m - 1) as nat;
        lemma_draw_counts(seed, bound, k, row);
        if draw(seed, bound, k) == row {
            assert(draw_count(seed, bound, m, row) > 0);
        } else if draw_count(seed, bound, k, row) > 0 {
            let j = choose|j: nat| j < k && #[trigger] draw(seed, bound, j) == row;
            assert(j < m && draw(seed, bound, j) == row);
        }
    }
}

/// Every feature that is left can be drawn next: place `k` of a partial shuffle
/// takes the entry at a place drawn from `k` on to the end, and the places
/// before it stay.
pub proof fn lemma_feature_drawn_from_all_left(
    scratch: Seq<u32>,
    k: nat,
    mf: nat,
    s: u64,
    i: int,
)
    requires
        k < mf <= scratch.len() <= u32::MAX,
        0 <= i < k,
    ensures
        partial_shuffle(scratch, k, mf, s).0.len() == scratch.len(),
        partial_shuffle(scratch, k, mf, s).0[k as int] == scratch[k + below(
            s,
            (scratch.len() - k) as u64,
        ).0],
        partial_shuffle(scratch, k, mf, s).0[i] == scratch[i],
{
    let dr = below(s, (scratch.len() - k) as u64);
    crate::rng::lemma_below_in_range(s, (scratch.len() - k) as u64);
    let next = swapped(scratch, k as int, k + dr.0);
    lemma_shuffle_keeps_earlier(next, k + 1, mf, dr.1, k as int);
    lemma_shuffle_keeps_earlier(next, k + 1, mf, dr.1, i);
}

proof fn lemma_shuffle_keeps_earlier(scratch: Seq<u32>, k: nat, mf: nat, s: u64, i: int)
    requires
        mf <= scratch.len() <= u32::MAX,
        0 <= i < k,
        i < scratch.len(),
    ensures
        partial_shuffle(scratch, k, mf, s).0.len() == scratch.len(),
        partial_shuffle(scratch, k, mf, s).0[i] == scratch[i],
    decreases mf - k,
{
    if k < mf {
        let dr = below(s, (scratch.len() - k) as u64);
        crate::rng::lemma_below_in_range(s, (scratch.len() - k) as u64);
        lemma_shuffle_keeps_earlier(
            swapped(scratch, k as int, k + dr.0),
            k + 1,
            mf,
            dr.1,
            i,
        );
    }
}

/// The first feature of a node is a draw below the number of features.
pub proof fn lemma_first_feature(s: u64, mf: nat, d: nat)
    requires
        1 <= mf <= d <= u32::MAX,
    ensures
        node_features(s, mf, d).0.len() == mf,
        node_features(s, mf, d).0[0] == below(s, d as u64).0,
{
    let dr = below(s, d as u64);
    crate::rng::lemma_below_in_range(s, d as u64);
    let next = swapped(iota(d), 0, 0 + dr.0);
    lemma_shuffle_keeps_earlier(next, 1, mf, dr.1, 0);
    assert(partial_shuffle(iota(d), 0, mf, s) == partial_shuffle(next, 1, mf, dr.1));
}

/// Every node draws its own features: those of node `b` are drawn by a generator
/// that has made the draws of the nodes before it. They are different features.
pub proof fn lemma_nodes_draw_in_turn(s: u64, blocks: nat, mf: nat, d: nat, b: int)
    requires
        0 <= b < blocks,
        mf < d <= u32::MAX,
    ensures
        feature_table(s, blocks, mf, d).0.len() == blocks * mf,
        block(feature_table(s, blocks, mf, d).0, b, mf as int) == node_features(
            feature_table(s, b as nat, mf, d).1,
            mf,
            d,
        ).0,
        distinct_below(block(feature_table(s, blocks, mf, d).0, b, mf as int), d as int),
    decreases blocks,
{
    let k = (blocks - 1) as nat;
    let before = feature_table(s, k, mf, d);
    let f = node_features(before.1, mf, d);
    lemma_node_features_distinct(before.1, mf, d);
    if k == 0 {
        assert(0 * mf == 0) by (nonlinear_arith);
    } else {
        lemma_nodes_draw_in_turn(
            s,
            k,
            mf,
            d,
            if b < k {
                b
            } else {
                0
            },
        );
    }
    crate::seqs::lemma_append_block(before.0, f.0, k as int, mf as int);
    if b < k {
        assert(block(before.0 + f.0, b, mf as int) == block(before.0, b, mf as int));
    }
    lemma_node_features_distinct(feature_table(s, b as nat, mf, d).1, mf, d);
}

/// Levels stand one after the other in the feature table: the first at the
/// start, and each with `mf` features for every node of every tree.
pub proof fn lemma_levels_in_turn(n_trees: int, mf: int, l: nat)
    requires
        n_trees >= 0,
        mf >= 0,
    ensures
        level_offset(n_trees, mf, 0) == 0,
        level_offset(n_trees, mf, l + 1) - level_offset(n_trees, mf, l) == n_trees * pow2(l) * mf,
{
    lemma_level_offset_step(n_trees, mf, l);
    vstd::arithmetic::power2::lemma2_to64();
    assert(n_trees * mf * 0 == 0) by (nonlinear_arith);
}

/// A resampled build draws the rows of its trees first, one output for each, and
/// its features as a build without resampling does whose generator has made
/// those draws. Tree `k` draws as the first tree of a generator that has made
/// `k` draws.
pub proof fn lemma_build_draws_in_turn(
    seed: u64,
    n: nat,
    n_trees: nat,
    depth: nat,
    mf: nat,
    d: nat,
    k: int,
)
    requires
        0 <= k < n_trees,
    ensures
        build_draws(seed, true, n, n_trees, depth, mf, d).1 == build_draws(
            state_after(seed, n_trees),
            false,
            n,
            n_trees,
            depth,
            mf,
            d,
        ).1,
        build_draws(seed, true, n, n_trees, depth, mf, d).0 is Some,
        build_draws(seed, false, n, n_trees, depth, mf, d).0 is None,
        build_draws(seed, true, n, n_trees, depth, mf, d).0->0.len() == n_trees,
        build_draws(seed, true, n, n_trees, depth, mf, d).0->0[k] == build_draws(
            state_after(seed, k as nat),
            true,
            n,
            n_trees,
            depth,
            mf,
            d,
        ).0->0[0],
{
    let a = build_draws(seed, true, n, n_trees, depth, mf, d).1;
    let b = build_draws(state_after(seed, n_trees), false, n, n_trees, depth, mf, d).1;
    assert forall|l: int| 0 <= l < depth + 1 implies #[trigger] a[l] == b[l] by {
        lemma_stream_from(seed, n_trees, l as nat);
    }
    assert(a =~= b);
    lemma_stream_from(seed, k as nat, 0);
}

/// The counts of a tree are those of its rows: a row has a count exactly where
/// one of the tree's draws gave it, at its own place.
pub proof fn lemma_tree_counts_its_rows(seed: u64, n: nat, row: int)
    requires
        1 <= n <= u32::MAX,
        0 <= row < n,
    ensures
        tree_draws(seed, n).len() == n,
        tree_draws(seed, n)[row] == draw_count(seed, n as u64, n, row),
        tree_draws(seed, n)[row] > 0 <==> exists|j: nat|
            j < n && #[trigger] draw(seed, n as u64, j) == row,
{
    lemma_draw_counts(seed, n as u64, n, row);
    lemma_draw_count_bounded(seed, n as u64, n, row);
}

proof fn lemma_draw_count_bounded(seed: u64, bound: u64, m: nat, row: int)
    ensures
        0 <= draw_count(seed, bound, m, row) <= m,
    decreases m,
{
    if m > 0 {
        lemma_draw_count_bounded(seed, bound, (m - 1) as nat, row);
    }
}

/// All features in order: feature `i` stands at place `i`.
pub proof fn lemma_all_features(d: nat, i: int)
    requires
        0 <= i < d <= u32::MAX,
    ensures
        iota(d).len() == d,
        iota(d)[i] == i,
{
}

} // verus!
