//! Fixed-radius neighbours: the ragged result both searches return, and the
//! device search's tiling, offsets and assembly.

use crate::arith::{ceil_div, ceil_div_int, max_usize};
use crate::error::{first_fault, shape_error, shape_mismatch, u32_fault, PrimError};
use crate::flag::{flag_text, is_zero_text, text_is_zero};
use crate::launch::{folded_dims, launch_dims_1d_folded, LaunchDims};
use crate::seqs::{append_all, copy_vec, sum_counts};
use vstd::prelude::*;

verus! {

/// Training columns that one unit scans.
pub const SEGMENT_COLS: usize = 128;

/// The matches of a radius search: every query row's matches one after the
/// other, and how many each row has.
#[derive(Debug)]
pub struct RadiusMatches<F> {
    /// Distances of the matches.
    pub distances: Vec<F>,
    /// Training indices of the matches, ascending within a row.
    pub indices: Vec<i32>,
    /// Matches per row.
    pub counts: Vec<u32>,
}

/// One query row's matches: distances and training indices.
pub type MatchRow<F> = (Seq<F>, Seq<i32>);

impl<F> RadiusMatches<F> {
    /// Where row `r` starts.
    pub open spec fn start(self, r: int) -> int {
        sum_counts(self.counts@.take(r))
    }

    /// The counts add up to the matches.
    pub open spec fn wf(self) -> bool {
        &&& self.distances@.len() == sum_counts(self.counts@)
        &&& self.indices@.len() == sum_counts(self.counts@)
    }

    /// The matches of row `r`, split off by the running sum of the counts.
    pub open spec fn row(self, r: int) -> MatchRow<F> {
        (
            self.distances@.subrange(self.start(r), self.start(r + 1)),
            self.indices@.subrange(self.start(r), self.start(r + 1)),
        )
    }

    /// All rows.
    pub open spec fn rows(self) -> Seq<MatchRow<F>> {
        Seq::new(self.counts@.len(), |r: int| self.row(r))
    }
}

impl<F: Copy> RadiusMatches<F> {
    /// No rows yet.
    pub fn empty() -> (r: RadiusMatches<F>)
        ensures
            r.wf(),
            r.rows() == Seq::<MatchRow<F>>::empty(),
    {
        let r: RadiusMatches<F> = RadiusMatches {
            distances: Vec::new(),
            indices: Vec::new(),
            counts: Vec::new(),
        };
        assert(r.rows() =~= Seq::<MatchRow<F>>::empty());
        r
    }

    /// Appends the rows of another result.
    pub fn append(&mut self, other: &RadiusMatches<F>)
        requires
            old(self).wf(),
            other.wf(),
        ensures
            final(self).wf(),
            final(self).rows() == old(self).rows() + other.rows(),
            final(self).counts@ == old(self).counts@ + other.counts@,
    {
        let ghost before = *self;
        append_all(&mut self.distances, &other.distances);
        append_all(&mut self.indices, &other.indices);
        append_all(&mut self.counts, &other.counts);
        proof {
            let after = *self;
            crate::seqs::lemma_sum_append(before.counts@, other.counts@);
            let m = before.counts@.len() as int;
            assert forall|r: int| 0 <= r < after.counts@.len() implies after.row(r) == (
            before.rows() + other.rows())[r] by {
                if r < m {
                    crate::seqs::lemma_sum_monotone(before.counts@, r, r + 1);
                    crate::seqs::lemma_sum_monotone(before.counts@, r + 1, m);
                    assert(before.counts@.take(m) =~= before.counts@);
                    assert(after.counts@.take(r) =~= before.counts@.take(r));
                    assert(after.counts@.take(r + 1) =~= before.counts@.take(r + 1));
                    assert(after.row(r).0 =~= before.row(r).0);
                    assert(after.row(r).1 =~= before.row(r).1);
                } else {
                    let q = r - m;
                    crate::seqs::lemma_sum_monotone(other.counts@, q, q + 1);
                    crate::seqs::lemma_sum_monotone(other.counts@, q + 1, other.counts@.len() as int);
                    assert(other.counts@.take(other.counts@.len() as int) =~= other.counts@);
                    assert(after.counts@.take(r) =~= before.counts@ + other.counts@.take(q));
                    assert(after.counts@.take(r + 1) =~= before.counts@ + other.counts@.take(
                        q + 1,
                    ));
                    crate::seqs::lemma_sum_append(before.counts@, other.counts@.take(q));
                    crate::seqs::lemma_sum_append(before.counts@, other.counts@.take(q + 1));
                    assert(after.row(r).0 =~= other.row(q).0);
                    assert(after.row(r).1 =~= other.row(q).1);
                }
            }
            assert(after.rows() =~= before.rows() + other.rows());
        }
    }

    /// Appends one query row's matches. Training indices are reported as signed
    /// integers.
    pub fn push_row(&mut self, distances: &Vec<F>, indices: &Vec<u32>)
        requires
            old(self).wf(),
            distances.len() == indices.len(),
            distances.len() <= u32::MAX,
        ensures
            final(self).wf(),
            final(self).rows() == old(self).rows().push(
                (distances@, indices@.map_values(|u: u32| u as i32)),
            ),
            final(self).counts@ == old(self).counts@.push(distances@.len() as u32),
    {
        let signed: Vec<i32> = to_signed(indices);
        let mut counts: Vec<u32> = Vec::new();
        counts.push(distances.len() as u32);
        let one: RadiusMatches<F> = RadiusMatches {
            distances: copy_vec(distances),
            indices: signed,
            counts,
        };
        proof {
            assert(one.counts@.drop_last() =~= Seq::<u32>::empty());
            assert(one.counts@.take(1) =~= one.counts@);
            assert(one.counts@.take(0) =~= Seq::<u32>::empty());
            reveal_with_fuel(sum_counts, 2);
            assert(one.row(0).0 =~= distances@);
            assert(one.row(0).1 =~= signed@);
            assert(signed@ =~= indices@.map_values(|u: u32| u as i32));
            assert(one.rows() =~= seq![(distances@, signed@)]);
        }
        let ghost before = *self;
        self.append(&one);
        assert(before.rows() + seq![(distances@, signed@)] =~= before.rows().push(
            (distances@, signed@),
        ));
        assert(before.counts@ + one.counts@ =~= before.counts@.push(distances@.len() as u32));
    }
}

/// Unsigned indices as signed ones.
pub fn to_signed(v: &Vec<u32>) -> (r: Vec<i32>)
    ensures
        r@ == v@.map_values(|u: u32| u as i32),
{
    let mut out: Vec<i32> = Vec::new();
    let mut i: usize = 0;
    while i < v.len()
        invariant
            i <= v.len(),
            out.len() == i,
            forall|j: int| 0 <= j < i ==> #[trigger] out[j] == v[j] as i32,
        decreases v.len() - i,
    {
        out.push(#[verifier::truncate] (v[i] as i32));
        i = i + 1;
    }
    assert(out@ =~= v@.map_values(|u: u32| u as i32));
    out
}

/// Whether the device search is used: only where it is asked for.
pub open spec fn device_scan_used(rows: usize, cols: usize, flag: Option<Seq<char>>) -> bool {
    rows > 0 && cols > 0 && match flag {
        Some(v) => !is_zero_text(v),
        None => false,
    }
}

/// Whether the device search serves this tile. `device_flag` is the opt-in:
/// any value but `"0"` switches it on.
pub fn radius_device_applicable(rows: usize, cols: usize, device_flag: Option<&str>) -> (r: bool)
    ensures
        r == device_scan_used(rows, cols, flag_text(device_flag)),
{
    if !(rows > 0 && cols > 0) {
        return false;
    }
    match device_flag {
        Some(v) => !text_is_zero(v),
        None => false,
    }
}

/// How a distance tile is cut into segments.
#[derive(Debug, Clone, Copy, PartialEq, Eq)]
pub struct TilePlan {
    /// Segments per row.
    pub segs: usize,
    /// Columns per segment; the last one of a row may be shorter.
    pub seg_len: usize,
    /// Segments of the tile.
    pub n_seg: usize,
    /// The launch of both passes.
    pub launch: LaunchDims,
}

/// The columns of a segment.
pub open spec fn seg_len_of(cols: int) -> int {
    vstd::math::max(
        1,
        ceil_div_int(cols, vstd::math::max(1, ceil_div_int(cols, SEGMENT_COLS as int))),
    )
}

/// The segments of a row.
pub open spec fn segs_of(cols: int) -> int {
    vstd::math::max(1, ceil_div_int(cols, seg_len_of(cols)))
}

/// Why a tile is refused.
pub open spec fn tile_fault(
    dist_len: usize,
    rows: usize,
    cols: usize,
    train_base: usize,
) -> Option<PrimError> {
    if rows * cols != dist_len {
        Some(shape_error("dist", rows, cols, dist_len))
    } else {
        first_fault(
            u32_fault("rows", rows),
            first_fault(
                u32_fault("cols", cols),
                first_fault(
                    u32_fault("train_base", train_base),
                    if rows * segs_of(cols as int) > usize::MAX {
                        Some(
                            PrimError::Overflow {
                                operand: "radius_segments",
                                lhs: rows,
                                rhs: segs_of(cols as int) as usize,
                            },
                        )
                    } else {
                        None
                    },
                ),
            ),
        )
    }
}

/// Plans the passes over a `rows` by `cols` distance tile whose first column is
/// training row `train_base`. `width` is the launch width.
pub fn radius_tile_plan(
    dist_len: usize,
    rows: usize,
    cols: usize,
    train_base: usize,
    width: u32,
) -> (r: Result<TilePlan, PrimError>)
    requires
        width > 0,
    ensures
        match tile_fault(dist_len, rows, cols, train_base) {
            Some(e) => r == Err::<TilePlan, PrimError>(e),
            None => r matches Ok(p) && p.segs == segs_of(cols as int) && p.seg_len == seg_len_of(
                cols as int,
            ) && p.n_seg == rows * segs_of(cols as int) && p.launch == folded_dims(
                (p.n_seg as u32) as int,
                width,
            ),
        },
{
    if !crate::arith::product_is(rows, cols, dist_len) {
        return Err(shape_mismatch("dist", rows, cols, dist_len));
    }
    match crate::error::guard_u32("rows", rows) {
        Err(e) => {
            return Err(e);
        },
        Ok(()) => {},
    }
    match crate::error::guard_u32("cols", cols) {
        Err(e) => {
            return Err(e);
        },
        Ok(()) => {},
    }
    match crate::error::guard_u32("train_base", train_base) {
        Err(e) => {
            return Err(e);
        },
        Ok(()) => {},
    }
    let first: usize = max_usize(1, ceil_div(cols, SEGMENT_COLS));
    let seg_len: usize = max_usize(1, ceil_div(cols, first));
    let segs: usize = max_usize(1, ceil_div(cols, seg_len));
    match rows.checked_mul(segs) {
        None => Err(PrimError::Overflow { operand: "radius_segments", lhs: rows, rhs: segs }),
        Some(n_seg) => Ok(
            TilePlan { segs, seg_len, n_seg, launch: launch_dims_1d_folded(n_seg, width) },
        ),
    }
}

/// The segments of a row cover its columns once: all but the last are full, the
/// last is not empty, and none is longer than the scan limit.
pub proof fn lemma_segments_tile(cols: int)
    requires
        cols >= 1,
    ensures
        segs_of(cols) * seg_len_of(cols) >= cols,
        (segs_of(cols) - 1) * seg_len_of(cols) < cols,
        1 <= seg_len_of(cols) <= SEGMENT_COLS,
{
    let first = ceil_div_int(cols, SEGMENT_COLS as int);
    crate::arith::lemma_ceil_div_brackets(cols, SEGMENT_COLS as int);
    crate::arith::lemma_ceil_div_brackets(cols, first);
    crate::arith::lemma_ceil_div_brackets(cols, seg_len_of(cols));
    assert(SEGMENT_COLS * first >= cols) by (nonlinear_arith)
        requires
            first * SEGMENT_COLS >= cols,
    ;
    crate::arith::lemma_ceil_div_least(cols, first, SEGMENT_COLS as int);
}

/// Where the segments of a tile write their matches.
#[derive(Debug)]
pub struct TileOffsets {
    /// First match of each segment.
    pub offsets: Vec<u32>,
    /// Matches of each row.
    pub row_counts: Vec<u32>,
    /// Matches of the tile.
    pub total: usize,
}

/// The segment counts of row `r`.
pub open spec fn row_segments(seg_counts: Seq<u32>, segs: int, r: int) -> Seq<u32> {
    seg_counts.subrange(r * segs, r * segs + segs)
}

/// Turns the match counts of a tile's segments into the position of each
/// segment's first match and the count of each row. More matches than 32-bit
/// positions can hold are refused.
pub fn radius_offsets(seg_counts: &Vec<u32>, rows: usize, segs: usize) -> (r: Result<
    TileOffsets,
    PrimError,
>)
    requires
        seg_counts.len() == rows * segs,
        segs >= 1,
        sum_counts(seg_counts@) <= usize::MAX,
    ensures
        if sum_counts(seg_counts@) > u32::MAX {
            r == Err::<TileOffsets, PrimError>(
                crate::error::u32_error(
                    "radius_matches",
                    sum_counts(seg_counts@) as usize,
                ),
            )
        } else {
            r matches Ok(t) && t.total == sum_counts(seg_counts@) && t.offsets.len()
                == seg_counts.len() && t.row_counts.len() == rows && (forall|g: int|
                0 <= g < seg_counts.len() ==> #[trigger] t.offsets[g] == sum_counts(
                    seg_counts@.take(g),
                )) && (forall|q: int|
                0 <= q < rows ==> #[trigger] t.row_counts[q] == sum_counts(
                    row_segments(seg_counts@, segs as int, q),
                ))
        },
{
    let n: usize = seg_counts.len();
    let mut total: usize = 0;
    let mut g: usize = 0;
    assert(seg_counts@.take(0) =~= Seq::<u32>::empty());
    while g < n
        invariant
            g <= n,
            n == seg_counts.len(),
            sum_counts(seg_counts@) <= usize::MAX,
            total == sum_counts(seg_counts@.take(g as int)),
        decreases n - g,
    {
        proof {
            assert(seg_counts@.take(g + 1).drop_last() =~= seg_counts@.take(g as int));
            crate::seqs::lemma_sum_monotone(seg_counts@, g + 1, n as int);
            assert(seg_counts@.take(n as int) =~= seg_counts@);
        }
        total = total + seg_counts[g] as usize;
        g = g + 1;
    }
    assert(seg_counts@.take(n as int) =~= seg_counts@);
    if total > u32::MAX as usize {
        return Err(shape_mismatch("radius_matches", total, 0, u32::MAX as usize));
    }
    let mut offsets: Vec<u32> = Vec::new();
    let mut acc: u32 = 0;
    let mut i: usize = 0;
    while i < n
        invariant
            i <= n,
            n == seg_counts.len(),
            total == sum_counts(seg_counts@),
            total <= u32::MAX,
            acc == sum_counts(seg_counts@.take(i as int)),
            offsets.len() == i,
            forall|q: int| 0 <= q < i ==> #[trigger] offsets[q] == sum_counts(seg_counts@.take(q)),
        decreases n - i,
    {
        offsets.push(acc);
        proof {
            assert(seg_counts@.take(i + 1).drop_last() =~= seg_counts@.take(i as int));
            crate::seqs::lemma_sum_monotone(seg_counts@, i + 1, n as int);
            assert(seg_counts@.take(n as int) =~= seg_counts@);
        }
        acc = acc + seg_counts[i];
        i = i + 1;
    }
    let mut row_counts: Vec<u32> = Vec::new();
    let mut q: usize = 0;
    while q < rows
        invariant
            q <= rows,
            n == seg_counts.len(),
            n == rows * segs,
            segs >= 1,
            total == sum_counts(seg_counts@),
            total <= u32::MAX,
            row_counts.len() == q,
            forall|p: int|
                0 <= p < q ==> #[trigger] row_counts[p] == sum_counts(
                    row_segments(seg_counts@, segs as int, p),
                ),
        decreases rows - q,
    {
        proof {
            crate::arith::lemma_flat_index(q as int, 0, rows as int, segs as int);
        }
        let base: usize = q * segs;
        let ghost row = row_segments(seg_counts@, segs as int, q as int);
        let mut sum: u32 = 0;
        let mut s: usize = 0;
        assert(row.take(0) =~= Seq::<u32>::empty());
        while s < segs
            invariant
                s <= segs,
                n == seg_counts.len(),
                base == q * segs,
                base + segs <= n,
                row == row_segments(seg_counts@, segs as int, q as int),
                total == sum_counts(seg_counts@),
                total <= u32::MAX,
                sum == sum_counts(row.take(s as int)),
            decreases segs - s,
        {
            proof {
                assert(row.take(s + 1).drop_last() =~= row.take(s as int));
                assert(row.take(s + 1).last() == seg_counts[base + s]);
                crate::seqs::lemma_sum_monotone(row, s + 1, segs as int);
                assert(row.take(segs as int) =~= row);
                crate::seqs::lemma_sum_subrange(seg_counts@, base as int, base + segs);
                crate::seqs::lemma_sum_monotone(seg_counts@, base + segs, n as int);
                crate::seqs::lemma_sum_monotone(seg_counts@, 0, base as int);
                assert(seg_counts@.take(n as int) =~= seg_counts@);
            }
            sum = sum + seg_counts[base + s];
            s = s + 1;
        }
        assert(row.take(segs as int) =~= row);
        row_counts.push(sum);
        q = q + 1;
    }
    Ok(TileOffsets { offsets, row_counts, total })
}

/// Segments do not write over each other: a segment's matches end where the
/// next segment's begin, and the last ends at the total.
pub proof fn lemma_offsets_disjoint(seg_counts: Seq<u32>, g: int)
    requires
        0 <= g < seg_counts.len(),
    ensures
        sum_counts(seg_counts.take(g)) + seg_counts[g] == sum_counts(seg_counts.take(g + 1)),
        sum_counts(seg_counts.take(g + 1)) <= sum_counts(seg_counts),
{
    assert(seg_counts.take(g + 1).drop_last() =~= seg_counts.take(g));
    crate::seqs::lemma_sum_monotone(seg_counts, g + 1, seg_counts.len() as int);
    assert(seg_counts.take(seg_counts.len() as int) =~= seg_counts);
}

/// The row counts of a tile add up to its matches, so that they split the
/// matches back into rows.
pub proof fn lemma_row_counts_total(
    seg_counts: Seq<u32>,
    rows: nat,
    segs: int,
    row_counts: Seq<u32>,
)
    requires
        segs >= 1,
        seg_counts.len() == rows * segs,
        row_counts.len() == rows,
        forall|q: int|
            0 <= q < rows ==> #[trigger] row_counts[q] == sum_counts(
                row_segments(seg_counts, segs, q),
            ),
    ensures
        sum_counts(row_counts) == sum_counts(seg_counts),
    decreases rows,
{
    if rows == 0 {
        assert(0 * segs == 0);
    } else {
        let m = (rows - 1) as nat;
        assert(rows * segs == m * segs + segs && m * segs >= 0) by (nonlinear_arith)
            requires
                m == rows - 1,
                m >= 0,
                segs >= 1,
        ;
        let head = seg_counts.take(m * segs);
        assert forall|q: int| 0 <= q < m implies #[trigger] row_counts.drop_last()[q] == sum_counts(
            row_segments(head, segs, q),
        ) by {
            assert(row_counts[q] == sum_counts(row_segments(seg_counts, segs, q)));
            crate::arith::lemma_flat_index(q, 0, m as int, segs);
            assert(row_segments(head, segs, q) =~= row_segments(seg_counts, segs, q));
        }
        lemma_row_counts_total(head, m, segs, row_counts.drop_last());
        crate::seqs::lemma_sum_subrange(seg_counts, m * segs, rows * segs);
        assert(seg_counts.take(rows * segs) =~= seg_counts);
        assert(row_segments(seg_counts, segs, m as int) =~= seg_counts.subrange(
            m * segs,
            rows * segs,
        ));
        assert(row_counts[m as int] == sum_counts(row_segments(seg_counts, segs, m as int)));
    }
}

/// Puts the compacted matches of a tile together. A tile without matches has
/// only its counts.
pub fn radius_assemble<F>(distances: Vec<F>, indices: &Vec<u32>, row_counts: Vec<u32>) -> (r:
    RadiusMatches<F>)
    requires
        distances.len() == indices.len(),
        distances.len() == sum_counts(row_counts@),
    ensures
        r.wf(),
        r.distances@ == distances@,
        r.indices@ == indices@.map_values(|u: u32| u as i32),
        r.counts@ == row_counts@,
{
    RadiusMatches { distances, indices: to_signed(indices), counts: row_counts }
}

/// The rows of a result stand one after the other: the first starts at the
/// beginning, each ends where the next starts, and each has as many matches as
/// its count says.
pub proof fn lemma_rows_in_turn<F>(m: RadiusMatches<F>, r: int)
    requires
        m.wf(),
        0 <= r < m.counts@.len(),
    ensures
        m.start(0) == 0,
        m.start(r + 1) == m.start(r) + m.counts@[r],
        m.row(r).0.len() == m.counts@[r],
        m.row(r).1.len() == m.counts@[r],
        forall|i: int|
            0 <= i < m.counts@[r] ==> #[trigger] m.row(r).0[i] == m.distances@[m.start(r) + i],
        forall|i: int|
            0 <= i < m.counts@[r] ==> #[trigger] m.row(r).1[i] == m.indices@[m.start(r) + i],
{
    let c = m.counts@;
    assert(c.take(0) =~= Seq::<u32>::empty());
    lemma_offsets_disjoint(c, r);
    crate::seqs::lemma_sum_monotone(c, 0, r);
    crate::seqs::lemma_sum_monotone(c, r + 1, c.len() as int);
    assert(c.take(c.len() as int) =~= c);
}

/// The device search is used exactly on request, for tiles that hold something:
/// any value of its flag but zero asks for it.
pub proof fn lemma_device_scan_choice(rows: usize, cols: usize, flag: Option<Seq<char>>)
    ensures
        device_scan_used(rows, cols, flag) <==> rows >= 1 && cols >= 1 && flag is Some && flag->0
            != seq!['0'],
{
}

/// A tile is cut into the fewest segments of at most 128 columns.
pub proof fn lemma_fewest_segments(cols: int)
    requires
        cols >= 1,
    ensures
        1 <= seg_len_of(cols) <= 128,
        segs_of(cols) * 128 >= cols,
        (segs_of(cols) - 1) * 128 < cols,
{
    lemma_segments_tile(cols);
    let want = ceil_div_int(cols, SEGMENT_COLS as int);
    crate::arith::lemma_ceil_div_brackets(cols, 128);
    crate::arith::lemma_ceil_div_brackets(cols, want);
    let per = seg_len_of(cols);
    assert(want * per >= cols) by (nonlinear_arith)
        requires
            ceil_div_int(cols, want) * want >= cols,
            per >= ceil_div_int(cols, want),
            want >= 1,
    ;
    crate::arith::lemma_ceil_div_least(cols, per, want);
    let (s, l) = (segs_of(cols), seg_len_of(cols));
    assert(s * 128 >= cols) by (nonlinear_arith)
        requires
            s * l >= cols,
            l <= 128,
            s >= 1,
    ;
    assert((s - 1) * 128 < cols) by (nonlinear_arith)
        requires
            s <= want,
            (want - 1) * 128 < cols,
    ;
}

/// A tile is accepted exactly where its distances fill it and the sizes and the
/// first training row fit 32 bits, as long as its segments can be counted.
pub proof fn lemma_tile_accepted(dist_len: usize, rows: usize, cols: usize, train_base: usize)
    requires
        rows * segs_of(cols as int) <= usize::MAX,
    ensures
        tile_fault(dist_len, rows, cols, train_base) is None <==> {
            &&& dist_len == rows * cols
            &&& rows <= u32::MAX && cols <= u32::MAX && train_base <= u32::MAX
        },
{
}

/// The segments of a row are the next `segs` after those of the row before.
pub proof fn lemma_row_segments(seg_counts: Seq<u32>, segs: int, r: int, i: int)
    requires
        0 <= r,
        0 <= i < segs,
        r * segs + segs <= seg_counts.len(),
    ensures
        row_segments(seg_counts, segs, r).len() == segs,
        row_segments(seg_counts, segs, r)[i] == seg_counts[r * segs + i],
{
    assert(r * segs >= 0) by (nonlinear_arith)
        requires
            r >= 0,
            segs >= 0,
    ;
}

/// A refused tile names its distances, and then a size or first row beyond 32 bits.
pub proof fn lemma_tile_refusals(
    dist_len: usize,
    rows: usize,
    cols: usize,
    train_base: usize,
)
    ensures
        dist_len != rows * cols ==> tile_fault(dist_len, rows, cols, train_base) == Some(
            PrimError::ShapeMismatch { operand: "dist", rows: rows, cols: cols, len: dist_len },
        ),
        dist_len == rows * cols && rows > u32::MAX
            ==> tile_fault(dist_len, rows, cols, train_base) == Some(
            PrimError::ShapeMismatch { operand: "rows", rows: rows, cols: 0, len: 0xFFFF_FFFF },
        ),
        dist_len == rows * cols && rows <= u32::MAX && cols > u32::MAX
            ==> tile_fault(dist_len, rows, cols, train_base) == Some(
            PrimError::ShapeMismatch { operand: "cols", rows: cols, cols: 0, len: 0xFFFF_FFFF },
        ),
        dist_len == rows * cols && rows <= u32::MAX && cols <= u32::MAX && train_base > u32::MAX
            ==> tile_fault(dist_len, rows, cols, train_base) == Some(
            PrimError::ShapeMismatch { operand: "train_base", rows: train_base, cols: 0, len: 0xFFFF_FFFF },
        ),
{
}

} // verus!
