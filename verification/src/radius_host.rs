//! Fixed-radius neighbours on the host: when that search is used, what it
//! refuses, and how each query row collects the training rows within the
//! radius.

use crate::error::{first_fault, shape_error, shape_mismatch, u32_fault, verdict, PrimError};
use crate::flag::{flag_text, is_one_text, is_zero_text, text_is_one, text_is_zero};
use crate::float_order::{bits_is_nan, bits_lt, is_nan64, le64, order_value64};
use crate::radius::{MatchRow, RadiusMatches};
use vstd::prelude::*;

verus! {

/// Whether the host search is used: its own override decides first; otherwise
/// it stands down only where the device search is forced on.
pub open spec fn host_scan_used(
    n_query: usize,
    n_train: usize,
    n_features: usize,
    host_flag: Option<Seq<char>>,
    device_flag: Option<Seq<char>>,
) -> bool {
    n_query > 0 && n_train > 0 && n_features > 0 && match host_flag {
        Some(v) => !is_zero_text(v),
        None => !(device_flag matches Some(v) && is_one_text(v)),
    }
}

/// Whether the host search serves this shape. `host_flag` forces it off with
/// `"0"` and on with any other value; `device_flag` stands it down with `"1"`.
pub fn radius_host_applicable(
    n_query: usize,
    n_train: usize,
    n_features: usize,
    host_flag: Option<&str>,
    device_flag: Option<&str>,
) -> (r: bool)
    ensures
        r == host_scan_used(
            n_query,
            n_train,
            n_features,
            flag_text(host_flag),
            flag_text(device_flag),
        ),
{
    if !(n_query > 0 && n_train > 0 && n_features > 0) {
        return false;
    }
    match host_flag {
        Some(v) => {
            return !text_is_zero(v);
        },
        None => {},
    }
    match device_flag {
        Some(v) => !text_is_one(v),
        None => true,
    }
}

/// Why a search is refused. The radius is given as floating-point bits; it has
/// to be a number that is not negative.
pub open spec fn scan_fault(
    x_len: usize,
    n_query: usize,
    n_features: usize,
    y_len: usize,
    n_train: usize,
    radius: u64,
) -> Option<PrimError> {
    if n_query * n_features != x_len {
        Some(shape_error("x", n_query, n_features, x_len))
    } else if n_train * n_features != y_len {
        Some(shape_error("y", n_train, n_features, y_len))
    } else {
        first_fault(
            u32_fault("rows", n_train),
            if !is_nan64(radius) && order_value64(radius) >= 0 {
                None
            } else {
                Some(shape_error("radius", 1, 0, 0))
            },
        )
    }
}

/// Refuses a search whose operands do not match their shapes, whose training
/// rows are beyond 32-bit indices, or whose radius is negative or no number.
pub fn validate_scan(
    x_len: usize,
    n_query: usize,
    n_features: usize,
    y_len: usize,
    n_train: usize,
    radius: u64,
) -> (r: Result<(), PrimError>)
    ensures
        r == verdict(scan_fault(x_len, n_query, n_features, y_len, n_train, radius)),
{
    if !crate::arith::product_is(n_query, n_features, x_len) {
        return Err(shape_mismatch("x", n_query, n_features, x_len));
    }
    if !crate::arith::product_is(n_train, n_features, y_len) {
        return Err(shape_mismatch("y", n_train, n_features, y_len));
    }
    match crate::error::guard_u32("rows", n_train) {
        Err(e) => {
            return Err(e);
        },
        Ok(()) => {},
    }
    if bits_is_nan(radius) || bits_lt(radius, 0) {
        return Err(shape_mismatch("radius", 1, 0, 0));
    }
    Ok(())
}

/// The training rows below `m` whose distance is within `thresh`, ascending.
pub open spec fn within(dist: Seq<u64>, thresh: u64, m: nat) -> Seq<u32>
    decreases m,
{
    if m == 0 {
        Seq::empty()
    } else {
        let before = within(dist, thresh, (m - 1) as nat);
        if le64(dist[m - 1], thresh) {
            before.push((m - 1) as u32)
        } else {
            before
        }
    }
}

/// The training rows within `thresh` of a query row, ascending, from the row's
/// distances. A distance that is not a number matches nothing.
pub fn rows_within(dist: &Vec<u64>, thresh: u64) -> (r: Vec<u32>)
    requires
        dist.len() <= u32::MAX,
    ensures
        r@ == within(dist@, thresh, dist@.len()),
{
    let mut out: Vec<u32> = Vec::new();
    let mut t: usize = 0;
    while t < dist.len()
        invariant
            t <= dist.len() <= u32::MAX,
            out@ == within(dist@, thresh, t as nat),
        decreases dist.len() - t,
    {
        let v: u64 = dist[t];
        if !bits_is_nan(v) && !bits_is_nan(thresh) && !bits_lt(thresh, v) {
            out.push(t as u32);
        }
        t = t + 1;
    }
    out
}

/// The matches of a row are exactly the rows within the threshold, in strictly
/// ascending index order.
pub proof fn lemma_within_exact(dist: Seq<u64>, thresh: u64, m: nat, t: int)
    requires
        m <= dist.len() <= u32::MAX,
        0 <= t < m,
    ensures
        within(dist, thresh, m).contains(t as u32) <==> le64(dist[t], thresh),
        forall|i: int, j: int|
            0 <= i < j < within(dist, thresh, m).len() ==> within(dist, thresh, m)[i] < within(
                dist,
                thresh,
                m,
            )[j],
        forall|i: int|
            0 <= i < within(dist, thresh, m).len() ==> #[trigger] within(dist, thresh, m)[i] < m,
    decreases m,
{
    let before = within(dist, thresh, (m - 1) as nat);
    let all = within(dist, thresh, m);
    if m >= 2 {
        lemma_within_exact(dist, thresh, (m - 1) as nat, 0);
    } else {
        assert(before =~= Seq::<u32>::empty());
    }
    if t < m - 1 {
        lemma_within_exact(dist, thresh, (m - 1) as nat, t);
        if before.contains(t as u32) {
            let i = choose|i: int| 0 <= i < before.len() && before[i] == t as u32;
            assert(all[i] == t as u32);
        }
        if all.contains(t as u32) {
            let i = choose|i: int| 0 <= i < all.len() && all[i] == t as u32;
            if i < before.len() {
                assert(before[i] == t as u32);
            }
        }
    } else {
        if le64(dist[t], thresh) {
            assert(all[all.len() - 1] == t as u32);
        }
    }
}

/// Puts the slices of several workers together in worker order.
pub fn concat_slices<F: Copy>(slices: &Vec<RadiusMatches<F>>) -> (r: RadiusMatches<F>)
    requires
        forall|u: int| 0 <= u < slices.len() ==> (#[trigger] slices[u]).wf(),
    ensures
        r.wf(),
        r.rows() == joined(slices@, slices@.len()),
{
    let mut out: RadiusMatches<F> = RadiusMatches::empty();
    let mut u: usize = 0;
    while u < slices.len()
        invariant
            u <= slices.len(),
            out.wf(),
            out.rows() == joined(slices@, u as nat),
            forall|v: int| 0 <= v < slices.len() ==> (#[trigger] slices[v]).wf(),
        decreases slices.len() - u,
    {
        assert(slices[u as int].wf());
        out.append(&slices[u]);
        u = u + 1;
    }
    out
}

/// The rows of the first `m` slices, one slice after the other.
pub open spec fn joined<F>(slices: Seq<RadiusMatches<F>>, m: nat) -> Seq<MatchRow<F>>
    decreases m,
{
    if m == 0 {
        Seq::empty()
    } else {
        joined(slices, (m - 1) as nat) + slices[m - 1].rows()
    }
}

/// How many workers share a search does not show in its result: when worker `u`
/// holds the rows from `cuts[u]` to `cuts[u + 1]` of the whole, the slices put
/// together are the whole up to the last cut.
pub proof fn lemma_split_invisible<F>(
    whole: Seq<MatchRow<F>>,
    slices: Seq<RadiusMatches<F>>,
    cuts: Seq<int>,
    m: nat,
)
    requires
        m <= slices.len(),
        cuts.len() == slices.len() + 1,
        cuts[0] == 0,
        forall|u: int|
            0 <= u < slices.len() ==> 0 <= #[trigger] cuts[u] <= cuts[u + 1] <= whole.len()
                && slices[u].rows() == whole.subrange(cuts[u], cuts[u + 1]),
    ensures
        joined(slices, m) == whole.take(cuts[m as int]),
    decreases m,
{
    if m == 0 {
        assert(whole.take(0) =~= Seq::<MatchRow<F>>::empty());
    } else {
        lemma_split_invisible(whole, slices, cuts, (m - 1) as nat);
        let u = m - 1;
        assert(0 <= cuts[u] <= cuts[u + 1]);
        assert(whole.take(cuts[u]) + whole.subrange(cuts[u], cuts[u + 1]) =~= whole.take(
            cuts[u + 1],
        ));
    }
}

/// The host search needs something to search. Its own flag decides: zero turns
/// it off, anything else on. Without it the search stands down exactly where the
/// device flag is one.
pub proof fn lemma_host_scan_choice(
    n_query: usize,
    n_train: usize,
    n_features: usize,
    host_flag: Option<Seq<char>>,
    device_flag: Option<Seq<char>>,
)
    ensures
        host_scan_used(n_query, n_train, n_features, host_flag, device_flag) ==> n_query >= 1
            && n_train >= 1 && n_features >= 1,
        n_query >= 1 && n_train >= 1 && n_features >= 1 ==> {
            &&& host_flag is Some ==> (host_scan_used(
                n_query,
                n_train,
                n_features,
                host_flag,
                device_flag,
            ) <==> host_flag->0 != seq!['0'])
            &&& host_flag is None ==> (host_scan_used(
                n_query,
                n_train,
                n_features,
                host_flag,
                device_flag,
            ) <==> device_flag != Some(seq!['1']))
        },
{
}

/// A search is accepted exactly where both matrices are full, the training rows
/// have 32-bit indices, and the radius is a number that is not below zero.
pub proof fn lemma_scan_accepted(
    x_len: usize,
    n_query: usize,
    n_features: usize,
    y_len: usize,
    n_train: usize,
    radius: u64,
)
    ensures
        scan_fault(x_len, n_query, n_features, y_len, n_train, radius) is None <==> {
            &&& x_len == n_query * n_features && y_len == n_train * n_features
            &&& n_train <= u32::MAX
            &&& !is_nan64(radius) && !crate::float_order::lt64(radius, 0)
        },
{
}

/// A refused search names the queries, the training rows, their number, and then the
/// radius.
pub proof fn lemma_scan_refusals(
    x_len: usize,
    n_query: usize,
    n_features: usize,
    y_len: usize,
    n_train: usize,
    radius: u64,
)
    ensures
        x_len != n_query * n_features
            ==> scan_fault(x_len, n_query, n_features, y_len, n_train, radius) == Some(
            PrimError::ShapeMismatch { operand: "x", rows: n_query, cols: n_features, len: x_len },
        ),
        x_len == n_query * n_features && y_len != n_train * n_features
            ==> scan_fault(x_len, n_query, n_features, y_len, n_train, radius) == Some(
            PrimError::ShapeMismatch { operand: "y", rows: n_train, cols: n_features, len: y_len },
        ),
        x_len == n_query * n_features && y_len == n_train * n_features && n_train > u32::MAX
            ==> scan_fault(x_len, n_query, n_features, y_len, n_train, radius) == Some(
            PrimError::ShapeMismatch { operand: "rows", rows: n_train, cols: 0, len: 0xFFFF_FFFF },
        ),
        x_len == n_query * n_features && y_len == n_train * n_features && n_train <= u32::MAX
            && (is_nan64(radius) || crate::float_order::lt64(radius, 0))
            ==> scan_fault(x_len, n_query, n_features, y_len, n_train, radius) == Some(
            PrimError::ShapeMismatch { operand: "radius", rows: 1, cols: 0, len: 0 },
        ),
{
}

} // verus!
