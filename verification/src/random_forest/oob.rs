//! Out-of-bag scoring: each row is judged only by the trees that did not draw
//! it.

use crate::float_order::{bits_lt, is_nan64, lt64, order_value64};
use crate::seqs::block;
use vstd::prelude::*;

verus! {

/// Whether tree `t` did not draw `row`.
pub open spec fn left_out(counts: Seq<u32>, n: int, t: int, row: int) -> bool {
    counts[t * n + row] == 0
}

/// The trees below `m` that did not draw `row`, ascending.
pub open spec fn left_out_trees(counts: Seq<u32>, n: int, m: nat, row: int) -> Seq<usize>
    decreases m,
{
    if m == 0 {
        Seq::empty()
    } else {
        let before = left_out_trees(counts, n, (m - 1) as nat, row);
        if left_out(counts, n, m - 1, row) {
            before.push((m - 1) as usize)
        } else {
            before
        }
    }
}

/// The trees that did not draw `row`, ascending. Without resampling (`None`)
/// every tree has seen every row.
pub fn out_of_bag_trees(counts: Option<&Vec<u32>>, n_trees: usize, n: usize, row: usize) -> (r: Vec<
    usize,
>)
    requires
        row < n,
        counts matches Some(c) ==> c@.len() == n_trees * n,
    ensures
        r@ == match counts {
            Some(c) => left_out_trees(c@, n as int, n_trees as nat, row as int),
            None => Seq::empty(),
        },
{
    let mut out: Vec<usize> = Vec::new();
    match counts {
        None => {},
        Some(c) => {
            let total: usize = c.len();
            let mut t: usize = 0;
            while t < n_trees
                invariant
                    t <= n_trees,
                    row < n,
                    total == n_trees * n,
                    c@.len() == n_trees * n,
                    out@ == left_out_trees(c@, n as int, t as nat, row as int),
                decreases n_trees - t,
            {
                proof {
                    crate::arith::lemma_flat_index(t as int, row as int, n_trees as int, n as int);
                }
                if c[t * n + row] == 0 {
                    out.push(t);
                }
                t = t + 1;
            }
        },
    }
    out
}

/// The best of the first `m` votes: a later vote wins only if it is greater.
pub open spec fn leading(votes: Seq<u64>, m: nat) -> int
    decreases m,
{
    if m <= 1 {
        0
    } else {
        let b = leading(votes, (m - 1) as nat);
        if lt64(votes[b], votes[m - 1]) {
            m - 1
        } else {
            b
        }
    }
}

proof fn lemma_leading_range(votes: Seq<u64>, m: nat)
    requires
        1 <= m <= votes.len(),
    ensures
        0 <= leading(votes, m) < m,
    decreases m,
{
    if m > 1 {
        lemma_leading_range(votes, (m - 1) as nat);
    }
}

/// The class with the most votes; of equal classes the lowest. The votes are
/// floating-point bits.
pub fn leading_class(votes: &Vec<u64>) -> (r: usize)
    requires
        votes.len() >= 1,
    ensures
        r == leading(votes@, votes@.len()),
        r < votes.len(),
{
    let mut best: usize = 0;
    let mut c: usize = 1;
    while c < votes.len()
        invariant
            1 <= c <= votes.len(),
            best == leading(votes@, c as nat),
            best < c,
        decreases votes.len() - c,
    {
        if bits_lt(votes[best], votes[c]) {
            best = c;
        }
        c = c + 1;
    }
    best
}

/// Among votes that are numbers the leading class has the greatest vote, and no
/// lower class has as great a one.
pub proof fn lemma_leading_is_first_max(votes: Seq<u64>, m: nat, c: int)
    requires
        1 <= m <= votes.len(),
        forall|i: int| 0 <= i < m ==> !is_nan64(#[trigger] votes[i]),
        0 <= c < m,
    ensures
        order_value64(votes[c]) <= order_value64(votes[leading(votes, m)]),
        c < leading(votes, m) ==> order_value64(votes[c]) < order_value64(
            votes[leading(votes, m)],
        ),
    decreases m,
{
    lemma_leading_range(votes, m);
    if m > 1 {
        lemma_leading_range(votes, (m - 1) as nat);
        lemma_leading_is_first_max(votes, (m - 1) as nat, leading(votes, (m - 1) as nat));
        if c < m - 1 {
            lemma_leading_is_first_max(votes, (m - 1) as nat, c);
        }
    }
}

/// How the rows of a classifier were judged.
#[derive(Debug, Clone, Copy, PartialEq, Eq)]
pub struct OobTally {
    /// Rows judged as their class.
    pub correct: usize,
    /// Rows that at least one tree left out.
    pub total: usize,
    /// Rows that every tree drew.
    pub skipped: usize,
}

/// The tally over the first `m` rows.
pub open spec fn tally(winners: Seq<Option<u32>>, y: Seq<u32>, m: nat) -> (int, int, int)
    decreases m,
{
    if m == 0 {
        (0, 0, 0)
    } else {
        let t = tally(winners, y, (m - 1) as nat);
        match winners[m - 1] {
            None => (t.0, t.1, t.2 + 1),
            Some(w) => (
                t.0 + if w == y[m - 1] {
                    1int
                } else {
                    0int
                },
                t.1 + 1,
                t.2,
            ),
        }
    }
}

proof fn lemma_tally_bounds(winners: Seq<Option<u32>>, y: Seq<u32>, m: nat)
    ensures
        0 <= tally(winners, y, m).0 <= tally(winners, y, m).1,
        0 <= tally(winners, y, m).2,
        tally(winners, y, m).1 + tally(winners, y, m).2 == m,
    decreases m,
{
    if m > 0 {
        lemma_tally_bounds(winners, y, (m - 1) as nat);
    }
}

/// Counts the rows that the trees which left them out judge correctly. A row
/// without such trees (`None`) is left out of the total.
pub fn oob_tally(winners: &Vec<Option<u32>>, y: &Vec<u32>) -> (r: OobTally)
    requires
        winners.len() == y.len(),
    ensures
        (r.correct as int, r.total as int, r.skipped as int) == tally(
            winners@,
            y@,
            winners@.len(),
        ),
        r.correct <= r.total,
        r.total + r.skipped == winners.len(),
{
    let mut correct: usize = 0;
    let mut total: usize = 0;
    let mut skipped: usize = 0;
    let mut i: usize = 0;
    while i < winners.len()
        invariant
            i <= winners.len(),
            winners.len() == y.len(),
            (correct as int, total as int, skipped as int) == tally(winners@, y@, i as nat),
            correct <= total,
            total + skipped == i,
        decreases winners.len() - i,
    {
        match winners[i] {
            None => {
                skipped = skipped + 1;
            },
            Some(w) => {
                total = total + 1;
                if w == y[i] {
                    correct = correct + 1;
                }
            },
        }
        i = i + 1;
    }
    OobTally { correct, total, skipped }
}

/// A row that a tree drew at least once does not count as left out by it, and
/// one that it never drew does: the counts of tree `t` are block `t`.
pub proof fn lemma_left_out_is_undrawn(counts: Seq<u32>, n_trees: int, n: int, t: int, row: int)
    requires
        counts.len() == n_trees * n,
        0 <= t < n_trees,
        0 <= row < n,
    ensures
        left_out(counts, n, t, row) <==> block(counts, t, n)[row] == 0,
{
    crate::arith::lemma_flat_index(t, row, n_trees, n);
}

/// The trees that judge a row are exactly those that never drew it, ascending.
pub proof fn lemma_judges_left_the_row_out(
    counts: Seq<u32>,
    n: int,
    m: nat,
    row: int,
    t: int,
)
    requires
        0 <= t < m <= usize::MAX,
    ensures
        left_out_trees(counts, n, m, row).contains(t as usize) <==> counts[t * n + row] == 0,
        forall|i: int, j: int|
            0 <= i < j < left_out_trees(counts, n, m, row).len() ==> left_out_trees(
                counts,
                n,
                m,
                row,
            )[i] < left_out_trees(counts, n, m, row)[j],
        forall|i: int|
            0 <= i < left_out_trees(counts, n, m, row).len() ==> #[trigger] left_out_trees(
                counts,
                n,
                m,
                row,
            )[i] < m,
    decreases m,
{
    let all = left_out_trees(counts, n, m, row);
    let before = left_out_trees(counts, n, (m - 1) as nat, row);
    if m > 1 {
        lemma_judges_left_the_row_out(
            counts,
            n,
            (m - 1) as nat,
            row,
            if t < m - 1 {
                t
            } else {
                0
            },
        );
    } else {
        assert(before =~= Seq::empty());
    }
    if counts[(m - 1) * n + row] == 0 {
        assert(all[before.len() as int] == (m - 1) as usize);
    }
    if t < m - 1 {
        if before.contains(t as usize) {
            let p = choose|p: int| 0 <= p < before.len() && before[p] == t as usize;
            assert(all[p] == t as usize);
        }
        if all.contains(t as usize) {
            let p = choose|p: int| 0 <= p < all.len() && all[p] == t as usize;
            if p < before.len() {
                assert(before[p] == all[p]);
            }
        }
    } else if all.contains(t as usize) {
        let p = choose|p: int| 0 <= p < all.len() && all[p] == t as usize;
        if p < before.len() {
            assert(before[p] < m - 1);
        }
    }
}

/// One row is correct where its judgement is its class, wrong where it is
/// another, and left out where there is none; more rows add up.
pub proof fn lemma_tally_adds(
    winners: Seq<Option<u32>>,
    y: Seq<u32>,
    more: Seq<Option<u32>>,
    z: Seq<u32>,
    w: u32,
    c: u32,
)
    requires
        winners.len() == y.len(),
        more.len() == z.len(),
    ensures
        ({
            let (a, b) = (tally(winners, y, y.len()), tally(more, z, z.len()));
            tally(winners + more, y + z, (y + z).len()) == (a.0 + b.0, a.1 + b.1, a.2 + b.2)
        }),
        tally(seq![None], seq![c], 1) == (0int, 0int, 1int),
        w == c ==> tally(seq![Some(w)], seq![c], 1) == (1int, 1int, 0int),
        w != c ==> tally(seq![Some(w)], seq![c], 1) == (0int, 1int, 0int),
    decreases z.len(),
{
    reveal_with_fuel(tally, 2);
    lemma_tally_prefix(winners, y, more, z, y.len());
    if z.len() == 0 {
        assert(y + z =~= y);
    } else {
        let (less, zl) = (more.drop_last(), z.drop_last());
        lemma_tally_adds(winners, y, less, zl, w, c);
        assert(winners + more =~= (winners + less).push(more.last()));
        assert(y + z =~= (y + zl).push(z.last()));
        lemma_tally_prefix(winners + less, y + zl, seq![more.last()], seq![z.last()], (y + zl).len());
        assert((winners + less) + seq![more.last()] =~= winners + more);
        assert((y + zl) + seq![z.last()] =~= y + z);
        lemma_tally_prefix(less, zl, seq![more.last()], seq![z.last()], zl.len());
        assert(less + seq![more.last()] =~= more);
        assert(zl + seq![z.last()] =~= z);
    }
}

proof fn lemma_tally_prefix(
    winners: Seq<Option<u32>>,
    y: Seq<u32>,
    more: Seq<Option<u32>>,
    z: Seq<u32>,
    m: nat,
)
    requires
        winners.len() == y.len(),
        m <= y.len(),
    ensures
        tally(winners + more, y + z, m) == tally(winners, y, m),
    decreases m,
{
    if m > 0 {
        lemma_tally_prefix(winners, y, more, z, (m - 1) as nat);
    }
}

} // verus!
