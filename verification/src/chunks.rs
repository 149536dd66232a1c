//! Cutting a range into consecutive chunks of one size.

use crate::arith::{ceil_div, ceil_div_int};
use crate::seqs::{append_all, block};
use vstd::prelude::*;

verus! {

/// The start of chunk `b`.
pub open spec fn chunk_lo(size: int, b: int) -> int {
    b * size
}

/// The end of chunk `b` of `len` entries: only the last one may be short.
pub open spec fn chunk_hi(len: int, size: int, b: int) -> int {
    vstd::math::min((b + 1) * size, len)
}

/// Whether the list holds the bounds of the chunks of `len` entries.
pub open spec fn are_chunks(bounds: Seq<(usize, usize)>, len: int, size: int) -> bool {
    &&& bounds.len() == ceil_div_int(len, size)
    &&& forall|b: int|
        0 <= b < bounds.len() ==> (#[trigger] bounds[b]).0 == chunk_lo(size, b) && bounds[b].1
            == chunk_hi(len, size, b)
}

/// The bounds of the chunks of `len` entries.
pub fn chunk_bounds(len: usize, size: usize) -> (r: Vec<(usize, usize)>)
    requires
        size >= 1,
    ensures
        are_chunks(r@, len as int, size as int),
        forall|b: int| 0 <= b < r.len() ==> (#[trigger] r[b]).0 < r[b].1 <= len,
{
    let count: usize = ceil_div(len, size);
    let mut out: Vec<(usize, usize)> = Vec::new();
    let mut b: usize = 0;
    proof {
        crate::arith::lemma_ceil_div_brackets(len as int, size as int);
    }
    while b < count
        invariant
            b <= count,
            size >= 1,
            count == ceil_div_int(len as int, size as int),
            (count - 1) * size < len || count == 0,
            out.len() == b,
            forall|i: int|
                0 <= i < b ==> (#[trigger] out[i]).0 == chunk_lo(size as int, i) && out[i].1
                    == chunk_hi(len as int, size as int, i),
            forall|i: int| 0 <= i < b ==> (#[trigger] out[i]).0 < out[i].1 <= len,
        decreases count - b,
    {
        assert(0 <= b * size <= (count - 1) * size) by (nonlinear_arith)
            requires
                0 <= b <= count - 1,
                size >= 1,
        ;
        assert((b + 1) * size == b * size + size) by (nonlinear_arith);
        let lo: usize = b * size;
        let hi: usize = if len - lo <= size {
            len
        } else {
            lo + size
        };
        out.push((lo, hi));
        b = b + 1;
    }
    out
}

/// The chunks follow one another: the first starts at zero, each of the others
/// where the one before it ends, and the last one ends with the range. All are
/// of the one size but the last, which is not longer.
pub proof fn lemma_chunks_follow(bounds: Seq<(usize, usize)>, len: int, size: int, b: int)
    requires
        are_chunks(bounds, len, size),
        len >= 0,
        size >= 1,
        0 <= b < bounds.len(),
    ensures
        bounds[0].0 == 0,
        b + 1 < bounds.len() ==> bounds[b + 1].0 == bounds[b].1 && bounds[b].1 - bounds[b].0
            == size,
        b + 1 == bounds.len() ==> bounds[b].1 == len && 1 <= len - bounds[b].0 <= size,
{
    crate::arith::lemma_ceil_div_brackets(len, size);
    let count = ceil_div_int(len, size);
    assert(bounds[0].0 == 0 * size);
    assert(0 * size == 0 && (b + 1) * size == b * size + size) by (nonlinear_arith);
    assert(b * size < len && (b + 1 < count ==> (b + 1) * size < len) && (b + 1 == count ==> (b + 1)
        * size >= len)) by (nonlinear_arith)
        requires
            0 <= b < count,
            count * size >= len,
            (count - 1) * size < len || count == 0,
            size >= 1,
    ;
    assert(bounds[b].0 == chunk_lo(size, b));
    if b + 1 < count {
        assert(bounds[b + 1].0 == chunk_lo(size, b + 1));
    }
}

/// Every entry lies in exactly one chunk.
pub proof fn lemma_chunks_partition(len: int, size: int, i: int)
    requires
        0 <= i < len,
        size >= 1,
    ensures
        0 <= i / size < ceil_div_int(len, size),
        forall|b: int|
            0 <= b < ceil_div_int(len, size) ==> (#[trigger] chunk_lo(size, b) <= i < chunk_hi(
                len,
                size,
                b,
            ) <==> b == i / size),
{
    crate::arith::lemma_ceil_div_brackets(len, size);
    let count = ceil_div_int(len, size);
    vstd::arithmetic::div_mod::lemma_fundamental_div_mod(i, size);
    let q = i / size;
    assert(0 <= q < count && q * size <= i < (q + 1) * size) by (nonlinear_arith)
        requires
            i == size * q + i % size,
            0 <= i % size < size,
            0 <= i < len,
            count * size >= len,
            size >= 1,
    ;
    assert forall|b: int| 0 <= b < count implies (#[trigger] chunk_lo(size, b) <= i < chunk_hi(
        len,
        size,
        b,
    ) <==> b == q) by {
        if b * size <= i < (b + 1) * size {
            assert(b == q) by (nonlinear_arith)
                requires
                    b * size <= i < (b + 1) * size,
                    q * size <= i < (q + 1) * size,
                    size >= 1,
            ;
        }
    }
}

/// Cutting into an even share for each of `units` workers gives no more chunks
/// than workers.
pub proof fn lemma_share_count(len: int, units: int)
    requires
        len >= 1,
        units >= 1,
    ensures
        ceil_div_int(len, units) >= 1,
        1 <= ceil_div_int(len, ceil_div_int(len, units)) <= units,
{
    crate::arith::lemma_ceil_div_brackets(len, units);
    let share = ceil_div_int(len, units);
    assert(share >= 1) by (nonlinear_arith)
        requires
            share * units >= len,
            len >= 1,
            units >= 1,
    ;
    assert(units * share >= len) by (nonlinear_arith)
        requires
            share * units >= len,
    ;
    crate::arith::lemma_ceil_div_least(len, share, units);
    crate::arith::lemma_ceil_div_brackets(len, share);
    let c = ceil_div_int(len, share);
    assert(c >= 1) by (nonlinear_arith)
        requires
            c * share >= len,
            len >= 1,
            share >= 1,
    ;
}

/// The first `m` parts, one after the other.
pub open spec fn joined_parts<T>(parts: Seq<Vec<T>>, m: nat) -> Seq<T>
    decreases m,
{
    if m == 0 {
        Seq::empty()
    } else {
        joined_parts(parts, (m - 1) as nat) + parts[m - 1]@
    }
}

/// Puts parts together in order.
pub fn join_parts<T: Copy>(parts: &Vec<Vec<T>>) -> (r: Vec<T>)
    ensures
        r@ == joined_parts(parts@, parts@.len()),
{
    let mut out: Vec<T> = Vec::new();
    let mut b: usize = 0;
    while b < parts.len()
        invariant
            b <= parts.len(),
            out@ == joined_parts(parts@, b as nat),
        decreases parts.len() - b,
    {
        append_all(&mut out, &parts[b]);
        b = b + 1;
    }
    out
}

/// Cutting does not show: when part `first + b` holds chunk `b` of a whole, for
/// each of its chunks, the parts from `first` on put behind those before them
/// are the whole behind those.
pub proof fn lemma_chunks_join<T>(
    parts: Seq<Vec<T>>,
    first: nat,
    whole: Seq<T>,
    size: int,
    m: nat,
)
    requires
        size >= 1,
        m <= ceil_div_int(whole.len() as int, size),
        first + m <= parts.len(),
        forall|i: int|
            first <= i < first + m ==> (#[trigger] parts[i])@ == whole.subrange(
                chunk_lo(size, i - first),
                chunk_hi(whole.len() as int, size, i - first),
            ),
    ensures
        joined_parts(parts, first + m) == joined_parts(parts, first) + whole.take(
            vstd::math::min(m * size, whole.len() as int),
        ),
        m == ceil_div_int(whole.len() as int, size) ==> joined_parts(parts, first + m)
            == joined_parts(parts, first) + whole,
    decreases m,
{
    let len = whole.len() as int;
    crate::arith::lemma_ceil_div_brackets(len, size);
    if m == 0 {
        assert(0 * size == 0) by (nonlinear_arith);
        assert(joined_parts(parts, first) + whole.take(0) =~= joined_parts(parts, first));
    } else {
        let k = (m - 1) as nat;
        lemma_chunks_join(parts, first, whole, size, k);
        let count = ceil_div_int(len, size);
        assert(0 <= k * size < len && m * size == k * size + size) by (nonlinear_arith)
            requires
                k == m - 1,
                0 <= k <= count - 1,
                (count - 1) * size < len || count == 0,
                size >= 1,
        ;
        let hi = chunk_hi(len, size, k as int);
        assert(parts[(first + k) as int]@ == whole.subrange(k * size, hi));
        assert(whole.take(k * size) + whole.subrange(k * size, hi) =~= whole.take(hi));
        assert(joined_parts(parts, first + m) =~= joined_parts(parts, first) + whole.take(hi));
    }
    if m == ceil_div_int(len, size) {
        assert(whole.take(len) =~= whole);
    }
}

/// Parts of one length are the blocks of what they are put together to: block
/// `j` is part `j`.
pub proof fn lemma_parts_are_blocks<T>(parts: Seq<Vec<T>>, len: nat, m: nat)
    requires
        m <= parts.len(),
        forall|i: int| 0 <= i < m ==> (#[trigger] parts[i])@.len() == len,
    ensures
        joined_parts(parts, m).len() == m * len,
        forall|j: int|
            0 <= j < m ==> #[trigger] block(joined_parts(parts, m), j, len as int) == parts[j]@,
    decreases m,
{
    if m == 0 {
        assert(0 * len == 0) by (nonlinear_arith);
    } else {
        let before = joined_parts(parts, (m - 1) as nat);
        lemma_parts_are_blocks(parts, len, (m - 1) as nat);
        crate::seqs::lemma_append_block(before, parts[m - 1]@, m - 1, len as int);
        assert forall|j: int| 0 <= j < m implies #[trigger] block(
            joined_parts(parts, m),
            j,
            len as int,
        ) == parts[j]@ by {
            if j < m - 1 {
                assert(block(before, j, len as int) == parts[j]@);
            }
        }
    }
}

/// Equal parts are put together to the same.
pub proof fn lemma_same_parts<T>(a: Seq<Vec<T>>, b: Seq<Vec<T>>, m: nat)
    requires
        m <= a.len(),
        m <= b.len(),
        forall|i: int| 0 <= i < m ==> (#[trigger] a[i])@ == b[i]@,
    ensures
        joined_parts(a, m) == joined_parts(b, m),
    decreases m,
{
    if m > 0 {
        lemma_same_parts(a, b, (m - 1) as nat);
        assert(a[m - 1]@ == b[m - 1]@);
    }
}

} // verus!
