//! Nearest-neighbour search on the host: when it is used, how the query rows are
//! dealt to workers in blocks, and how each row keeps its `k` nearest training
//! rows.
//!
//! Distances arrive as 64-bit floating-point bits. Neighbours are ordered by
//! distance and, among equal distances, by training index, so that ties go to
//! the lowest index.

use crate::arith::{ceil_div, ceil_div_int, max_usize, min_usize};
use crate::error::{shape_error, shape_mismatch, verdict, PrimError};
use crate::flag::{flag_text, is_zero_text, text_is_zero};
use crate::float_order::{
    all_numbers, bits_is_nan, bits_lt, is_nan64, le64, lemma_order_is_by_value, order_value64,
    scaled_value, INF64,
};
use vstd::arithmetic::power2::{lemma_pow2_unfold, pow2};
use vstd::prelude::*;

verus! {

/// Query rows that a worker scans together.
pub const QB: usize = 16;

/// The largest exponent that is raised by repeated multiplication.
pub const MINKOWSKI_POWI_MAX: u32 = 8;

/// Whether the host search is used: an override decides first; otherwise it
/// serves the cpu backend, unless a tuned kernel covers the shape.
pub open spec fn host_search_used(
    n_query: usize,
    n_train: usize,
    n_features: usize,
    k: usize,
    tuned_arm_available: bool,
    cpu_backend: bool,
    host_flag: Option<Seq<char>>,
) -> bool {
    match host_flag {
        Some(v) => !is_zero_text(v),
        None => cpu_backend && !tuned_arm_available && n_query > 0 && n_train > 0 && n_features > 0
            && 1 <= k <= n_train,
    }
}

/// Whether the host search serves this shape. `host_flag` is the override:
/// `"0"` forces it off, any other value on.
pub fn knn_host_applicable(
    n_query: usize,
    n_train: usize,
    n_features: usize,
    k: usize,
    tuned_arm_available: bool,
    cpu_backend: bool,
    host_flag: Option<&str>,
) -> (r: bool)
    ensures
        r == host_search_used(
            n_query,
            n_train,
            n_features,
            k,
            tuned_arm_available,
            cpu_backend,
            flag_text(host_flag),
        ),
{
    match host_flag {
        Some(v) => {
            return !text_is_zero(v);
        },
        None => {},
    }
    if !cpu_backend || tuned_arm_available {
        return false;
    }
    n_query > 0 && n_train > 0 && n_features > 0 && k >= 1 && k <= n_train
}

/// Why a search is refused.
pub open spec fn search_fault(
    x_len: usize,
    n_query: usize,
    n_features: usize,
    y_len: usize,
    n_train: usize,
    k: usize,
) -> Option<PrimError> {
    if n_query * n_features != x_len {
        Some(shape_error("x", n_query, n_features, x_len))
    } else if n_train * n_features != y_len {
        Some(shape_error("y", n_train, n_features, y_len))
    } else if k < 1 || k > n_train {
        Some(shape_error("k", 1, k, n_train))
    } else if n_query > u32::MAX || n_train > u32::MAX {
        Some(
            shape_error(
                "rows",
                vstd::math::max(n_query as int, n_train as int) as usize,
                0,
                u32::MAX as usize,
            ),
        )
    } else {
        None
    }
}

/// Refuses a search whose operands do not match their shapes, whose `k` is out
/// of range, or whose rows are beyond 32-bit indices.
pub fn validate_search(
    x_len: usize,
    n_query: usize,
    n_features: usize,
    y_len: usize,
    n_train: usize,
    k: usize,
) -> (r: Result<(), PrimError>)
    ensures
        r == verdict(search_fault(x_len, n_query, n_features, y_len, n_train, k)),
{
    if !crate::arith::product_is(n_query, n_features, x_len) {
        return Err(shape_mismatch("x", n_query, n_features, x_len));
    }
    if !crate::arith::product_is(n_train, n_features, y_len) {
        return Err(shape_mismatch("y", n_train, n_features, y_len));
    }
    if k < 1 || k > n_train {
        return Err(shape_mismatch("k", 1, k, n_train));
    }
    if n_query > u32::MAX as usize || n_train > u32::MAX as usize {
        return Err(shape_mismatch("rows", max_usize(n_query, n_train), 0, u32::MAX as usize));
    }
    Ok(())
}

// ---------------------------------------------------------------------------
// Metrics
// ---------------------------------------------------------------------------

/// A distance.
#[derive(Debug, Clone, Copy, PartialEq, Eq)]
pub enum Metric {
    Euclidean,
    Manhattan,
    Chebyshev,
    /// The exponent, as 64-bit floating-point bits.
    Minkowski { p: u64 },
    Cosine,
}

/// How a distance is accumulated over the features.
#[derive(Debug, Clone, Copy, PartialEq, Eq)]
pub enum LaneForm {
    /// Sum of squared differences; the root is taken of what is kept.
    SquaredSum,
    /// Sum of absolute differences.
    AbsSum,
    /// Largest absolute difference.
    AbsMax,
    /// Sum of absolute differences raised to a whole exponent by
    /// multiplication.
    PowerSum { exponent: u32 },
    /// Sum of absolute differences raised to a general exponent.
    GeneralPowerSum,
    /// Dot product, scaled by both norms.
    Dot,
}

/// The whole exponent that `p` is, when it is one from 3 to
/// [`MINKOWSKI_POWI_MAX`]. An exponent that is off by one bit is another
/// metric.
pub open spec fn whole_exponent(p: u64) -> Option<u32> {
    if p == 0x4008_0000_0000_0000 {
        Some(3)
    } else if p == 0x4010_0000_0000_0000 {
        Some(4)
    } else if p == 0x4014_0000_0000_0000 {
        Some(5)
    } else if p == 0x4018_0000_0000_0000 {
        Some(6)
    } else if p == 0x401C_0000_0000_0000 {
        Some(7)
    } else if p == 0x4020_0000_0000_0000 {
        Some(8)
    } else {
        None
    }
}

/// The whole exponent behind a floating-point pattern.
pub fn minkowski_powi(p: u64) -> (r: Option<u32>)
    ensures
        r == whole_exponent(p),
        r matches Some(e) ==> 3 <= e <= MINKOWSKI_POWI_MAX,
{
    if p == 0x4008_0000_0000_0000 {
        Some(3)
    } else if p == 0x4010_0000_0000_0000 {
        Some(4)
    } else if p == 0x4014_0000_0000_0000 {
        Some(5)
    } else if p == 0x4018_0000_0000_0000 {
        Some(6)
    } else if p == 0x401C_0000_0000_0000 {
        Some(7)
    } else if p == 0x4020_0000_0000_0000 {
        Some(8)
    } else {
        None
    }
}

/// The accumulation that a metric needs.
pub open spec fn lane_form_of(metric: Metric) -> LaneForm {
    match metric {
        Metric::Euclidean => LaneForm::SquaredSum,
        Metric::Manhattan => LaneForm::AbsSum,
        Metric::Chebyshev => LaneForm::AbsMax,
        Metric::Cosine => LaneForm::Dot,
        Metric::Minkowski { p } => match whole_exponent(p) {
            Some(e) => LaneForm::PowerSum { exponent: e },
            None => LaneForm::GeneralPowerSum,
        },
    }
}

/// Chooses the accumulation once, outside the scan.
pub fn lane_form(metric: Metric) -> (r: LaneForm)
    ensures
        r == lane_form_of(metric),
{
    match metric {
        Metric::Euclidean => LaneForm::SquaredSum,
        Metric::Manhattan => LaneForm::AbsSum,
        Metric::Chebyshev => LaneForm::AbsMax,
        Metric::Cosine => LaneForm::Dot,
        Metric::Minkowski { p } => match minkowski_powi(p) {
            Some(e) => LaneForm::PowerSum { exponent: e },
            None => LaneForm::GeneralPowerSum,
        },
    }
}

// ---------------------------------------------------------------------------
// Blocks and workers
// ---------------------------------------------------------------------------

/// How many workers a search of `n_query` rows takes: no more than there are
/// blocks, no more than the machine offers, and at least one.
pub open spec fn worker_count(n_query: int, machine_units: int) -> int {
    vstd::math::min(
        vstd::math::max(ceil_div_int(n_query, QB as int), 1),
        vstd::math::max(machine_units, 1),
    )
}

/// Workers for a search of `n_query` rows on a machine of `machine_units`.
pub fn host_units(n_query: usize, machine_units: usize) -> (r: usize)
    ensures
        r == worker_count(n_query as int, machine_units as int),
        r >= 1,
{
    min_usize(max_usize(ceil_div(n_query, QB), 1), max_usize(machine_units, 1))
}

/// The first block of worker `u`.
pub open spec fn worker_start(n_blocks: int, units: int, u: int) -> int {
    (n_blocks * u) / units
}

/// The blocks of worker `u`, as a half-open range.
pub fn worker_blocks(n_blocks: usize, units: usize, u: usize) -> (r: (usize, usize))
    requires
        u < units,
        n_blocks * units <= usize::MAX,
    ensures
        r.0 == worker_start(n_blocks as int, units as int, u as int),
        r.1 == worker_start(n_blocks as int, units as int, u + 1),
        r.0 <= r.1 <= n_blocks,
{
    assert(n_blocks * u <= n_blocks * units && n_blocks * (u + 1) <= n_blocks * units)
        by (nonlinear_arith)
        requires
            u < units,
            n_blocks >= 0,
    ;
    proof {
        lemma_worker_monotone(n_blocks as int, units as int, u as int);
        lemma_worker_monotone(n_blocks as int, units as int, units as int);
        lemma_worker_bound(n_blocks as int, units as int, u + 1);
    }
    (n_blocks * u / units, n_blocks * (u + 1) / units)
}

proof fn lemma_worker_monotone(n_blocks: int, units: int, u: int)
    requires
        n_blocks >= 0,
        units > 0,
        u >= 0,
    ensures
        0 <= worker_start(n_blocks, units, u) <= worker_start(n_blocks, units, u + 1),
{
    assert(0 <= n_blocks * u <= n_blocks * (u + 1)) by (nonlinear_arith)
        requires
            n_blocks >= 0,
            u >= 0,
    ;
    vstd::arithmetic::div_mod::lemma_div_is_ordered(n_blocks * u, n_blocks * (u + 1), units);
    vstd::arithmetic::div_mod::lemma_div_pos_is_pos(n_blocks * u, units);
}

proof fn lemma_worker_bound(n_blocks: int, units: int, u: int)
    requires
        n_blocks >= 0,
        units > 0,
        0 <= u <= units,
    ensures
        worker_start(n_blocks, units, u) <= n_blocks,
        worker_start(n_blocks, units, units) == n_blocks,
{
    assert(n_blocks * u <= n_blocks * units) by (nonlinear_arith)
        requires
            n_blocks >= 0,
            u <= units,
    ;
    vstd::arithmetic::div_mod::lemma_div_is_ordered(n_blocks * u, n_blocks * units, units);
    vstd::arithmetic::div_mod::lemma_div_by_multiple(n_blocks, units);
}

/// Every block has exactly one worker: the ranges start at the first block, each
/// ends where the next one starts, and the last ends at the last block.
pub proof fn lemma_workers_tile(n_blocks: int, units: int, u: int)
    requires
        n_blocks >= 0,
        units > 0,
        0 <= u < units,
    ensures
        worker_start(n_blocks, units, 0) == 0,
        worker_start(n_blocks, units, units) == n_blocks,
        worker_start(n_blocks, units, u) <= worker_start(n_blocks, units, u + 1),
{
    lemma_worker_monotone(n_blocks, units, u);
    lemma_worker_bound(n_blocks, units, u);
    assert(n_blocks * 0 == 0);
    vstd::arithmetic::div_mod::lemma_div_basics_1(units);
}

/// The rows of block `b`: the first one, and how many there are.
pub fn block_rows(b: usize, n_query: usize) -> (r: (usize, usize))
    requires
        b < ceil_div_int(n_query as int, QB as int),
    ensures
        r.0 == b * QB,
        r.1 == vstd::math::min(QB as int, n_query - b * QB),
        r.0 == b * 16,
        1 <= r.1 <= 16,
        1 <= r.1 <= QB,
        r.0 + r.1 <= n_query,
{
    proof {
        crate::arith::lemma_ceil_div_brackets(n_query as int, QB as int);
    }
    let q0: usize = b * QB;
    (q0, min_usize(n_query - q0, QB))
}

/// The query rows of a block, transposed: feature after feature, one lane per
/// row. Lanes past the last row hold `zero`.
pub fn stage_tile<T: Copy>(xq: &[T], q0: usize, active: usize, d: usize, zero: T) -> (r: Vec<T>)
    requires
        active <= QB,
        (q0 + active) * d <= xq@.len(),
        d * QB <= usize::MAX,
    ensures
        r.len() == d * QB,
        forall|c: int, a: int|
            0 <= c < d && 0 <= a < QB ==> #[trigger] r[c * QB + a] == if a < active {
                xq@[(q0 + a) * d + c]
            } else {
                zero
            },
{
    let len: usize = xq.len();
    let mut out: Vec<T> = Vec::new();
    let mut c: usize = 0;
    while c < d
        invariant
            c <= d,
            active <= QB,
            len == xq@.len(),
            (q0 + active) * d <= len,
            d * QB <= usize::MAX,
            out.len() == c * QB,
            forall|e: int, a: int|
                0 <= e < c && 0 <= a < QB ==> #[trigger] out[e * QB + a] == if a < active {
                    xq@[(q0 + a) * d + e]
                } else {
                    zero
                },
        decreases d - c,
    {
        let mut a: usize = 0;
        while a < QB
            invariant
                a <= QB,
                c < d,
                active <= QB,
                len == xq@.len(),
                (q0 + active) * d <= len,
                d * QB <= usize::MAX,
                out.len() == c * QB + a,
                forall|e: int, b: int|
                    0 <= b < QB && (0 <= e < c || e == c && b < a) ==> #[trigger] out[e * QB + b]
                        == if b < active {
                        xq@[(q0 + b) * d + e]
                    } else {
                        zero
                    },
            decreases QB - a,
        {
            if a < active {
                assert((q0 + a) * d + c < (q0 + active) * d && 0 <= (q0 + a) * d)
                    by (nonlinear_arith)
                    requires
                        a < active,
                        c < d,
                        q0 >= 0,
                        a >= 0,
                ;
                assert(q0 + a <= (q0 + a) * d) by (nonlinear_arith)
                    requires
                        d >= 1,
                        q0 + a >= 0,
                ;
                out.push(xq[(q0 + a) * d + c]);
            } else {
                out.push(zero);
            }
            a = a + 1;
        }
        c = c + 1;
    }
    out
}

// ---------------------------------------------------------------------------
// The k nearest
// ---------------------------------------------------------------------------

/// A candidate: its distance and its training index.
pub type Candidate = (u64, u32);

/// The entry of a list that has no candidate yet: it sorts after every one.
pub open spec fn vacant() -> Candidate {
    (INF64, u32::MAX)
}

/// Whether `a` is nearer than `b`, or as near with a lower index. What is not a
/// number is nearer than nothing.
pub open spec fn nearer(a: Candidate, b: Candidate) -> bool {
    !is_nan64(a.0) && !is_nan64(b.0) && (order_value64(a.0) < order_value64(b.0) || order_value64(
        a.0,
    ) == order_value64(b.0) && a.1 < b.1)
}

/// How many entries of a list come before `p`.
pub open spec fn rank_in(list: Seq<Candidate>, p: Candidate) -> nat
    decreases list.len(),
{
    if list.len() == 0 || nearer(p, list[0]) {
        0
    } else {
        1 + rank_in(list.drop_first(), p)
    }
}

/// A list after candidate `p` was offered to it: `p` takes its place if it is
/// nearer than the last entry, which then drops out.
pub open spec fn keep(list: Seq<Candidate>, p: Candidate) -> Seq<Candidate> {
    if list.len() > 0 && nearer(p, list.last()) {
        list.insert(rank_in(list, p) as int, p).drop_last()
    } else {
        list
    }
}

/// The list of length `k` after the first `m` distances were offered in order.
pub open spec fn nearest(dist: Seq<u64>, k: nat, m: nat) -> Seq<Candidate>
    decreases m,
{
    if m == 0 {
        Seq::new(k, |i: int| vacant())
    } else {
        keep(nearest(dist, k, (m - 1) as nat), (dist[m - 1], (m - 1) as u32))
    }
}

fn is_nearer(a: Candidate, b: Candidate) -> (r: bool)
    ensures
        r == nearer(a, b),
{
    if bits_lt(a.0, b.0) {
        return true;
    }
    if bits_is_nan(a.0) || bits_is_nan(b.0) || bits_lt(b.0, a.0) {
        return false;
    }
    a.1 < b.1
}

/// The nearest candidates that one query row has seen, nearest first.
pub struct NearestList {
    entries: Vec<Candidate>,
}

impl View for NearestList {
    type V = Seq<Candidate>;

    closed spec fn view(&self) -> Seq<Candidate> {
        self.entries@
    }
}

impl NearestList {
    /// A list with room for `k` candidates.
    pub fn new(k: usize) -> (r: NearestList)
        ensures
            r@ == nearest(Seq::empty(), k as nat, 0),
    {
        let mut entries: Vec<Candidate> = Vec::new();
        let mut i: usize = 0;
        while i < k
            invariant
                i <= k,
                entries@ == Seq::new(i as nat, |j: int| vacant()),
            decreases k - i,
        {
            entries.push((INF64, u32::MAX));
            i = i + 1;
            assert(entries@ =~= Seq::new(i as nat, |j: int| vacant()));
        }
        NearestList { entries }
    }

    /// Offers a candidate to the list.
    pub fn offer(&mut self, v: u64, t: u32)
        ensures
            final(self)@ == keep(old(self)@, (v, t)),
    {
        let k: usize = self.entries.len();
        if k == 0 {
            return;
        }
        let p: Candidate = (v, t);
        if !is_nearer(p, self.entries[k - 1]) {
            return;
        }
        let ghost list = self.entries@;
        let mut pos: usize = 0;
        assert(list.skip(0) =~= list);
        while !is_nearer(p, self.entries[pos])
            invariant
                pos < k,
                k == list.len(),
                self.entries@ == list,
                p == (v, t),
                nearer(p, list[k - 1]),
                rank_in(list, p) == pos + rank_in(list.skip(pos as int), p),
            decreases k - pos,
        {
            assert(list.skip(pos as int)[0] == list[pos as int]);
            assert(list.skip(pos as int).drop_first() =~= list.skip(pos + 1));
            pos = pos + 1;
        }
        assert(list.skip(pos as int)[0] == list[pos as int]);
        self.entries.insert(pos, p);
        let _last: Option<Candidate> = self.entries.pop();
        assert(self.entries@ =~= list.insert(pos as int, p).drop_last());
    }

    /// The distance of the last entry.
    pub fn worst(&self) -> (r: u64)
        requires
            self@.len() > 0,
        ensures
            r == self@.last().0,
    {
        let k: usize = self.entries.len();
        self.entries[k - 1].0
    }

    /// The distances and training indices of the list. A vacant entry is given
    /// the index zero; its infinite distance tells it apart.
    pub fn emit(&self) -> (r: (Vec<u64>, Vec<u32>))
        ensures
            r.0.len() == self@.len(),
            r.1.len() == self@.len(),
            forall|j: int| 0 <= j < self@.len() ==> #[trigger] r.0[j] == self@[j].0,
            forall|j: int|
                0 <= j < self@.len() ==> #[trigger] r.1[j] == if self@[j].1 == u32::MAX {
                    0
                } else {
                    self@[j].1
                },
    {
        let mut vals: Vec<u64> = Vec::new();
        let mut idxs: Vec<u32> = Vec::new();
        let mut j: usize = 0;
        while j < self.entries.len()
            invariant
                j <= self.entries.len(),
                vals.len() == j,
                idxs.len() == j,
                forall|i: int| 0 <= i < j ==> #[trigger] vals[i] == self.entries@[i].0,
                forall|i: int|
                    0 <= i < j ==> #[trigger] idxs[i] == if self.entries@[i].1 == u32::MAX {
                        0
                    } else {
                        self.entries@[i].1
                    },
            decreases self.entries.len() - j,
        {
            let e: Candidate = self.entries[j];
            vals.push(e.0);
            idxs.push(
                if e.1 == u32::MAX {
                    0
                } else {
                    e.1
                },
            );
            j = j + 1;
        }
        (vals, idxs)
    }
}

/// A distance that exceeds a list's last entry leaves the list as it is, so a
/// block that no lane is close to can be skipped whole.
pub proof fn lemma_screen_sound(list: Seq<Candidate>, v: u64, t: u32)
    requires
        list.len() > 0,
        !le64(v, list.last().0),
    ensures
        keep(list, (v, t)) == list,
{
}

/// Offers training row `t` to every lane of a block, after a screen that skips
/// the row when no lane is close to it. The screen changes nothing.
pub fn offer_block(lists: Vec<NearestList>, acc: &Vec<u64>, t: u32) -> (r: Vec<NearestList>)
    requires
        lists.len() == acc.len(),
        forall|a: int| 0 <= a < lists.len() ==> (#[trigger] lists[a])@.len() > 0,
    ensures
        r.len() == lists.len(),
        forall|a: int|
            0 <= a < lists.len() ==> (#[trigger] r[a])@ == keep(lists[a]@, (acc[a], t)),
{
    let n: usize = lists.len();
    let mut hit: bool = false;
    let mut a: usize = 0;
    while a < n
        invariant
            a <= n,
            n == lists.len(),
            n == acc.len(),
            forall|b: int| 0 <= b < n ==> (#[trigger] lists[b])@.len() > 0,
            hit == exists|b: int| 0 <= b < a && #[trigger] le64(acc[b], lists[b]@.last().0),
        decreases n - a,
    {
        let w: u64 = lists[a].worst();
        let close: bool = !bits_is_nan(acc[a]) && !bits_is_nan(w) && !bits_lt(w, acc[a]);
        assert(close == le64(acc[a as int], lists[a as int]@.last().0));
        hit = hit || close;
        a = a + 1;
    }
    if !hit {
        proof {
            assert forall|b: int| 0 <= b < n implies (#[trigger] lists[b])@ == keep(
                lists[b]@,
                (acc[b], t),
            ) by {
                assert(!le64(acc[b], lists[b]@.last().0));
            }
        }
        return lists;
    }
    let ghost before = lists@;
    let mut rest: Vec<NearestList> = lists;
    let mut i: usize = 0;
    while i < n
        invariant
            i <= n,
            n == acc.len(),
            rest.len() == n,
            before.len() == n,
            forall|b: int| i <= b < n ==> #[trigger] rest@[b] == before[b],
            forall|b: int|
                0 <= b < i ==> (#[trigger] rest@[b])@ == keep(before[b]@, (acc[b], t)),
        decreases n - i,
    {
        rest[i].offer(acc[i], t);
        i = i + 1;
    }
    rest
}

/// The `k` nearest of a row of distances.
pub fn nearest_of(dist: &Vec<u64>, k: usize) -> (r: NearestList)
    requires
        dist.len() <= u32::MAX,
    ensures
        r@ == nearest(dist@, k as nat, dist@.len()),
{
    let mut list: NearestList = NearestList::new(k);
    let mut t: usize = 0;
    assert(nearest(Seq::<u64>::empty(), k as nat, 0) =~= nearest(dist@, k as nat, 0));
    while t < dist.len()
        invariant
            t <= dist.len() <= u32::MAX,
            list@ == nearest(dist@, k as nat, t as nat),
        decreases dist.len() - t,
    {
        list.offer(dist[t], t as u32);
        t = t + 1;
    }
    list
}

/// Not farther: nearer, or as near with an index that is not higher.
pub open spec fn not_after(a: Candidate, b: Candidate) -> bool {
    order_value64(a.0) < order_value64(b.0) || order_value64(a.0) == order_value64(b.0) && a.1
        <= b.1
}

/// What makes a list the `k` nearest of the first `m` distances: its entries
/// are candidates or vacant, in ascending order and without repetition, and
/// whatever candidate is missing comes after all of them.
pub open spec fn is_k_nearest(list: Seq<Candidate>, dist: Seq<u64>, k: nat, m: nat) -> bool {
    &&& list.len() == k
    &&& forall|i: int|
        0 <= i < k ==> #[trigger] list[i] == vacant() || (list[i].1 < m && list[i].0
            == dist[list[i].1 as int] && !is_nan64(list[i].0))
    &&& forall|i: int, j: int|
        0 <= i <= j < k ==> not_after(#[trigger] list[i], #[trigger] list[j])
    &&& forall|i: int, j: int|
        0 <= i < j < k && (#[trigger] list[i]).1 != u32::MAX ==> list[i].1 != (
        #[trigger] list[j]).1
    &&& forall|t: int|
        0 <= t < m && !is_nan64(#[trigger] dist[t]) ==> list.contains((dist[t], t as u32)) || (k
            > 0 ==> not_after(list.last(), (dist[t], t as u32)))
}

proof fn lemma_rank_in(list: Seq<Candidate>, p: Candidate)
    requires
        list.len() > 0,
        nearer(p, list.last()),
    ensures
        rank_in(list, p) < list.len(),
        nearer(p, list[rank_in(list, p) as int]),
        forall|i: int| 0 <= i < rank_in(list, p) ==> !nearer(p, #[trigger] list[i]),
    decreases list.len(),
{
    if !nearer(p, list[0]) {
        let rest = list.drop_first();
        assert(list.len() > 1);
        assert(rest.last() == list.last());
        lemma_rank_in(rest, p);
        assert forall|i: int| 0 <= i < rank_in(list, p) implies !nearer(p, #[trigger] list[i]) by {
            if i > 0 {
                assert(rest[i - 1] == list[i]);
            }
        }
        assert(rest[rank_in(rest, p) as int] == list[rank_in(list, p) as int]);
    }
}

proof fn lemma_keep_preserves(list: Seq<Candidate>, dist: Seq<u64>, k: nat, m: nat)
    requires
        m < dist.len(),
        m < u32::MAX,
        is_k_nearest(list, dist, k, m),
    ensures
        is_k_nearest(keep(list, (dist[m as int], m as u32)), dist, k, m + 1),
{
    let p: Candidate = (dist[m as int], m as u32);
    let out = keep(list, p);
    if k > 0 && nearer(p, list.last()) {
        lemma_rank_in(list, p);
        let r = rank_in(list, p) as int;
        let full = list.insert(r, p);
        assert(out =~= full.drop_last());
        assert(forall|i: int| 0 <= i < r ==> out[i] == list[i]);
        assert(out[r] == p);
        assert(forall|i: int| r < i < k ==> #[trigger] out[i] == list[i - 1]);
        assert forall|i: int, j: int| 0 <= i <= j < k implies not_after(
            #[trigger] out[i],
            #[trigger] out[j],
        ) by {
            if i < r && j == r {
                assert(!nearer(p, list[i]));
                assert(list[i] == vacant() || !is_nan64(list[i].0));
            } else if i == r && j > r {
                assert(not_after(list[r], list[j - 1]));
            } else if i < r && j > r {
                assert(not_after(list[i], list[j - 1]));
            } else if i > r {
                assert(not_after(list[i - 1], list[j - 1]));
            } else if j < r {
                assert(not_after(list[i], list[j]));
            }
        }
        assert forall|i: int, j: int|
            0 <= i < j < k && (#[trigger] out[i]).1 != u32::MAX implies out[i].1 != (
        #[trigger] out[j]).1 by {
            let a = if i < r {
                i
            } else {
                i - 1
            };
            let b = if j < r {
                j
            } else {
                j - 1
            };
            if i != r && j != r {
                assert(list[a].1 != list[b].1);
            } else if i == r {
                assert(list[b] == vacant() || list[b].1 < m);
            } else {
                assert(list[a] == vacant() || list[a].1 < m);
            }
        }
        assert forall|i: int| 0 <= i < k implies #[trigger] out[i] == vacant() || (out[i].1 < m + 1
            && out[i].0 == dist[out[i].1 as int] && !is_nan64(out[i].0)) by {
            if i < r {
                assert(out[i] == list[i]);
            } else if i > r {
                assert(out[i] == list[i - 1]);
            }
        }
        assert forall|t: int| 0 <= t < m + 1 && !is_nan64(#[trigger] dist[t]) implies out.contains(
            (dist[t], t as u32),
        ) || not_after(out.last(), (dist[t], t as u32)) by {
            let c: Candidate = (dist[t], t as u32);
            assert(not_after(out.last(), list.last())) by {
                if r == k - 1 {
                    assert(out.last() == p);
                } else {
                    assert(out.last() == list[k - 2]);
                    assert(not_after(list[k - 2], list[k - 1]));
                }
            }
            if t == m {
                assert(out[r] == c);
            } else if list.contains(c) {
                let i = choose|i: int| 0 <= i < k && list[i] == c;
                if i < r {
                    assert(out[i] == c);
                } else if i < k - 1 {
                    assert(out[i + 1] == c);
                } else {
                    assert(c == list.last());
                }
            } else {
                assert(not_after(list.last(), c));
            }
        }
    } else {
        assert(out == list);
        assert forall|t: int| 0 <= t < m + 1 && !is_nan64(#[trigger] dist[t]) implies out.contains(
            (dist[t], t as u32),
        ) || (k > 0 ==> not_after(out.last(), (dist[t], t as u32))) by {
            if t == m && k > 0 {
                assert(list[k - 1] == vacant() || !is_nan64(list[k - 1].0));
            }
        }
    }
}

/// The result contract of the search: offering the distances in index order
/// leaves exactly the `k` smallest `(distance, index)` pairs, ascending, with
/// ties going to the lowest training index. What is not a number is never
/// kept.
pub proof fn lemma_nearest_is_k_nearest(dist: Seq<u64>, k: nat, m: nat)
    requires
        m <= dist.len() <= u32::MAX,
    ensures
        is_k_nearest(nearest(dist, k, m), dist, k, m),
    decreases m,
{
    if m > 0 {
        lemma_nearest_is_k_nearest(dist, k, (m - 1) as nat);
        lemma_keep_preserves(nearest(dist, k, (m - 1) as nat), dist, k, (m - 1) as nat);
    }
}

// ---------------------------------------------------------------------------
// What the search and its choices amount to
// ---------------------------------------------------------------------------

/// The kept neighbours run from near to far, and of equally near ones from the
/// lowest index; every row that is left out is no nearer than the last one kept,
/// and has the higher index where it is as near.
pub proof fn lemma_neighbours_are_the_nearest(dist: Seq<u64>, k: nat, i: int, t: int)
    requires
        k > 0,
        dist.len() <= u32::MAX,
        all_numbers(dist),
        0 <= i < k,
        0 <= t < dist.len(),
    ensures
        ({
            let list = nearest(dist, k, dist.len());
            let last = list[k - 1];
            &&& list.len() == k
            &&& forall|j: int|
                i <= j < k ==> order_value64(list[i].0) <= order_value64((#[trigger] list[j]).0)
            &&& forall|j: int|
                i < j < k && order_value64(list[i].0) == order_value64((#[trigger] list[j]).0)
                    && list[i].1 < dist.len() ==> list[i].1 < list[j].1
            &&& list[i].1 < dist.len() ==> list[i].0 == dist[list[i].1 as int]
            &&& (forall|j: int| 0 <= j < k ==> (#[trigger] list[j]).1 != t) ==> order_value64(
                last.0,
            ) < order_value64(dist[t]) || order_value64(last.0) == order_value64(dist[t]) && last.1
                < t
        }),
{
    lemma_nearest_is_k_nearest(dist, k, dist.len());
    let list = nearest(dist, k, dist.len());
    assert forall|j: int| i <= j < k implies order_value64(list[i].0) <= order_value64(
        (#[trigger] list[j]).0,
    ) && (i < j && order_value64(list[i].0) == order_value64(list[j].0) && list[i].1 < dist.len()
        ==> list[i].1 < list[j].1) by {
        assert(not_after(list[i], list[j]));
    }
    assert(!is_nan64(dist[t]));
    if forall|j: int| 0 <= j < k ==> (#[trigger] list[j]).1 != t {
        if list.contains((dist[t], t as u32)) {
            let p = choose|p: int| 0 <= p < list.len() && list[p] == (dist[t], t as u32);
            assert(list[p].1 == t);
        }
        assert(not_after(list.last(), (dist[t], t as u32)));
        assert(list[k - 1].1 != t);
    }
}

/// Where there are enough rows, and all their distances are numbers, no place of
/// the list stays vacant.
pub proof fn lemma_enough_neighbours(dist: Seq<u64>, k: nat, i: int)
    requires
        k <= dist.len() <= u32::MAX,
        all_numbers(dist),
        0 <= i < k,
    ensures
        nearest(dist, k, dist.len())[i].1 < dist.len(),
{
    lemma_nearest_is_k_nearest(dist, k, dist.len());
    let list = nearest(dist, k, dist.len());
    if list[i] == vacant() {
        assert(not_after(list[i], list[k - 1]));
        assert forall|t: int| 0 <= t < dist.len() implies list.contains(
            (#[trigger] dist[t], t as u32),
        ) by {
            assert(!is_nan64(dist[t]));
            if !list.contains((dist[t], t as u32)) {
                assert(not_after(list.last(), (dist[t], t as u32)));
            }
        }
        let f = Seq::new(
            k,
            |t: int| choose|p: int| 0 <= p < list.len() && list[p] == (dist[t], t as u32),
        );
        assert forall|t: int| 0 <= t < k implies 0 <= #[trigger] f[t] < k && list[f[t]] == (
            dist[t],
            t as u32,
        ) by {
            assert(list.contains((dist[t], t as u32)));
        }
        assert forall|s: int, t: int| 0 <= s < k && 0 <= t < k && s != t implies f[s] != f[t] by {
            assert(list[f[s]].1 == s && list[f[t]].1 == t);
        }
        crate::seqs::lemma_injective_is_onto(f, i);
        let j = choose|j: int| 0 <= j < f.len() && #[trigger] f[j] == i;
        assert(list[f[j]] == (dist[j], j as u32));
    }
}

/// The host search is used where it is forced on, and not where it is forced
/// off; without an override it serves searches that can be answered, on the cpu
/// backend, where no tuned kernel does.
pub proof fn lemma_host_search_choice(
    n_query: usize,
    n_train: usize,
    n_features: usize,
    k: usize,
    tuned: bool,
    cpu_backend: bool,
    host_flag: Option<Seq<char>>,
)
    ensures
        host_flag == Some(seq!['0']) ==> !host_search_used(
            n_query,
            n_train,
            n_features,
            k,
            tuned,
            cpu_backend,
            host_flag,
        ),
        host_flag is Some && host_flag->0 != seq!['0'] ==> host_search_used(
            n_query,
            n_train,
            n_features,
            k,
            tuned,
            cpu_backend,
            host_flag,
        ),
        host_flag is None ==> (host_search_used(
            n_query,
            n_train,
            n_features,
            k,
            tuned,
            cpu_backend,
            host_flag,
        ) <==> {
            &&& cpu_backend && !tuned
            &&& n_query >= 1 && n_features >= 1
            &&& 1 <= k <= n_train
        }),
{
}

/// A search is accepted exactly where both matrices are full, `k` is a count of
/// training rows, and the rows have 32-bit indices.
pub proof fn lemma_search_accepted(
    x_len: usize,
    n_query: usize,
    n_features: usize,
    y_len: usize,
    n_train: usize,
    k: usize,
)
    ensures
        search_fault(x_len, n_query, n_features, y_len, n_train, k) is None <==> {
            &&& x_len == n_query * n_features && y_len == n_train * n_features
            &&& 1 <= k <= n_train
            &&& n_query <= u32::MAX && n_train <= u32::MAX
        },
        x_len == n_query * n_features && y_len == n_train * n_features && (k == 0 || k > n_train)
            ==> search_fault(x_len, n_query, n_features, y_len, n_train, k) == Some(
            PrimError::ShapeMismatch { operand: "k", rows: 1, cols: k, len: n_train },
        ),
{
}

/// An exponent is raised by multiplication exactly when it is a whole number
/// from three to eight, and then that often: the pattern has `e` times the value
/// of the pattern of one.
pub proof fn lemma_whole_exponent_value(p: u64, e: int)
    requires
        3 <= e <= 8,
    ensures
        whole_exponent(p) == Some(e as u32) <==> scaled_value(p) == e * scaled_value(
            0x3FF0_0000_0000_0000,
        ),
        whole_exponent(p) matches Some(w) ==> 3 <= w <= 8,
{
    let q: u64 = if e == 3 {
        0x4008_0000_0000_0000
    } else if e == 4 {
        0x4010_0000_0000_0000
    } else if e == 5 {
        0x4014_0000_0000_0000
    } else if e == 6 {
        0x4018_0000_0000_0000
    } else if e == 7 {
        0x401C_0000_0000_0000
    } else {
        0x4020_0000_0000_0000
    };
    let u = pow2(1022) as int;
    lemma_pow2_unfold(1023);
    lemma_pow2_unfold(1024);
    lemma_pow2_unfold(1025);
    assert(pow2(1023) == 2 * u && pow2(1024) == 4 * u && pow2(1025) == 8 * u);
    assert(scaled_value(0x3FF0_0000_0000_0000) == 0x10_0000_0000_0000 * u);
    if e == 3 {
        assert(scaled_value(q) == 0x18_0000_0000_0000 * (2 * u));
    } else if e == 4 {
        assert(scaled_value(q) == 0x10_0000_0000_0000 * (4 * u));
    } else if e == 5 {
        assert(scaled_value(q) == 0x14_0000_0000_0000 * (4 * u));
    } else if e == 6 {
        assert(scaled_value(q) == 0x18_0000_0000_0000 * (4 * u));
    } else if e == 7 {
        assert(scaled_value(q) == 0x1C_0000_0000_0000 * (4 * u));
    } else {
        assert(scaled_value(q) == 0x10_0000_0000_0000 * (8 * u));
    }
    assert(scaled_value(q) == e * scaled_value(0x3FF0_0000_0000_0000));
    lemma_order_is_by_value(p, q);
    lemma_order_is_by_value(q, p);
}

/// Each metric is accumulated by its own form: squares for the Euclidean,
/// absolute differences for the Manhattan, their maximum for the Chebyshev, the
/// dot product for the cosine, and powers for the Minkowski distance.
pub proof fn lemma_metric_forms(p: u64)
    ensures
        lane_form_of(Metric::Euclidean) == LaneForm::SquaredSum,
        lane_form_of(Metric::Manhattan) == LaneForm::AbsSum,
        lane_form_of(Metric::Chebyshev) == LaneForm::AbsMax,
        lane_form_of(Metric::Cosine) == LaneForm::Dot,
        lane_form_of(Metric::Minkowski { p }) == LaneForm::GeneralPowerSum <==> whole_exponent(
            p,
        ) is None,
        whole_exponent(p) matches Some(e) ==> lane_form_of(Metric::Minkowski { p })
            == (LaneForm::PowerSum { exponent: e }),
{
}

/// A search takes no more workers than it has blocks of 16 rows, and no more
/// than the machine has, and as many as these allow.
pub proof fn lemma_worker_count(n_query: int, machine_units: int)
    requires
        n_query >= 0,
    ensures
        worker_count(n_query, machine_units) >= 1,
        worker_count(n_query, machine_units) > 1 ==> worker_count(n_query, machine_units)
            <= machine_units && (worker_count(n_query, machine_units) - 1) * 16 < n_query,
        worker_count(n_query, machine_units) >= machine_units || worker_count(
            n_query,
            machine_units,
        ) * 16 >= n_query,
{
    crate::arith::lemma_ceil_div_brackets(n_query, 16);
}

/// The blocks are shared evenly: no worker has more than one above an exact
/// share, and none less than one below.
pub proof fn lemma_workers_even(n_blocks: int, units: int, u: int)
    requires
        n_blocks >= 0,
        0 <= u < units,
    ensures
        (worker_start(n_blocks, units, u + 1) - worker_start(n_blocks, units, u) - 1) * units
            < n_blocks,
        (worker_start(n_blocks, units, u + 1) - worker_start(n_blocks, units, u) + 1) * units
            > n_blocks,
{
    let (a, b) = (n_blocks * u, n_blocks * (u + 1));
    vstd::arithmetic::div_mod::lemma_fundamental_div_mod(a, units);
    vstd::arithmetic::div_mod::lemma_fundamental_div_mod(b, units);
    vstd::arithmetic::div_mod::lemma_mod_bound(a, units);
    vstd::arithmetic::div_mod::lemma_mod_bound(b, units);
    let (x, y) = (a / units, b / units);
    assert((y - x - 1) * units < n_blocks && (y - x + 1) * units > n_blocks) by (nonlinear_arith)
        requires
            a == units * x + a % units,
            b == units * y + b % units,
            0 <= a % units < units,
            0 <= b % units < units,
            a == n_blocks * u,
            b == n_blocks * (u + 1),
    ;
}

/// A refused search names the queries, the training rows, `k`, and then the larger row
/// count where it is beyond 32 bits.
pub proof fn lemma_search_refusals(
    x_len: usize,
    n_query: usize,
    n_features: usize,
    y_len: usize,
    n_train: usize,
    k: usize,
)
    ensures
        x_len != n_query * n_features
            ==> search_fault(x_len, n_query, n_features, y_len, n_train, k) == Some(
            PrimError::ShapeMismatch { operand: "x", rows: n_query, cols: n_features, len: x_len },
        ),
        x_len == n_query * n_features && y_len != n_train * n_features
            ==> search_fault(x_len, n_query, n_features, y_len, n_train, k) == Some(
            PrimError::ShapeMismatch { operand: "y", rows: n_train, cols: n_features, len: y_len },
        ),
        x_len == n_query * n_features && y_len == n_train * n_features
            && (k == 0 || k > n_train)
            ==> search_fault(x_len, n_query, n_features, y_len, n_train, k) == Some(
            PrimError::ShapeMismatch { operand: "k", rows: 1, cols: k, len: n_train },
        ),
        x_len == n_query * n_features && y_len == n_train * n_features
            && !(k == 0 || k > n_train) && (n_query > u32::MAX && n_query >= n_train)
            ==> search_fault(x_len, n_query, n_features, y_len, n_train, k) == Some(
            PrimError::ShapeMismatch { operand: "rows", rows: n_query, cols: 0, len: 0xFFFF_FFFF },
        ),
        x_len == n_query * n_features && y_len == n_train * n_features
            && !(k == 0 || k > n_train) && !(n_query > u32::MAX && n_query >= n_train)
            && (n_train > u32::MAX || n_query > u32::MAX)
            ==> search_fault(x_len, n_query, n_features, y_len, n_train, k) == Some(
            PrimError::ShapeMismatch { operand: "rows", rows: n_train, cols: 0, len: 0xFFFF_FFFF },
        ),
{
}

} // verus!
