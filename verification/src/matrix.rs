//! Rows and columns of row-major matrices.

use crate::seqs::block;
use vstd::prelude::*;

verus! {

/// Column `j` of a row-major matrix of `n` rows and `d` columns.
pub open spec fn column<T>(x: Seq<T>, n: int, d: int, j: int) -> Seq<T> {
    Seq::new(n as nat, |i: int| x[i * d + j])
}

/// Column `j` of a row-major matrix.
pub fn column_of<T: Copy>(x: &[T], n: usize, d: usize, j: usize) -> (r: Vec<T>)
    requires
        x@.len() == n * d,
        j < d,
    ensures
        r@ == column(x@, n as int, d as int, j as int),
        r@.len() == n,
        forall|i: int| 0 <= i < n ==> #[trigger] r@[i] == x@[i * d + j],
{
    let len: usize = x.len();
    let mut out: Vec<T> = Vec::new();
    let mut i: usize = 0;
    while i < n
        invariant
            i <= n,
            j < d,
            len == n * d,
            x@.len() == n * d,
            out.len() == i,
            forall|k: int| 0 <= k < i ==> #[trigger] out[k] == x@[k * d + j],
        decreases n - i,
    {
        proof {
            crate::arith::lemma_flat_index(i as int, j as int, n as int, d as int);
        }
        out.push(x[i * d + j]);
        i = i + 1;
    }
    assert(out@ =~= column(x@, n as int, d as int, j as int));
    out
}

/// Row `i` of a row-major matrix.
pub fn row_of<T: Copy>(x: &[T], n: usize, d: usize, i: usize) -> (r: Vec<T>)
    requires
        x@.len() == n * d,
        i < n,
    ensures
        r@ == block(x@, i as int, d as int),
{
    let len: usize = x.len();
    let mut out: Vec<T> = Vec::new();
    let mut j: usize = 0;
    while j < d
        invariant
            j <= d,
            i < n,
            len == n * d,
            x@.len() == n * d,
            out.len() == j,
            forall|k: int| 0 <= k < j ==> #[trigger] out[k] == x@[i * d + k],
        decreases d - j,
    {
        proof {
            crate::arith::lemma_flat_index(i as int, j as int, n as int, d as int);
        }
        out.push(x[i * d + j]);
        j = j + 1;
    }
    proof {
        assert(0 <= i * d && i * d + d <= n * d) by (nonlinear_arith)
            requires
                0 <= i < n,
                d >= 0,
        ;
        assert(out@ =~= block(x@, i as int, d as int));
    }
    out
}

/// The listed rows of a row-major matrix, one after the other.
pub fn gather_rows<T: Copy>(x: &[T], n: usize, d: usize, idx: &[usize]) -> (r: Vec<T>)
    requires
        x@.len() == n * d,
        forall|k: int| 0 <= k < idx@.len() ==> #[trigger] idx@[k] < n,
    ensures
        r@.len() == idx@.len() * d,
        forall|k: int|
            0 <= k < idx@.len() ==> #[trigger] block(r@, k, d as int) == block(
                x@,
                idx@[k] as int,
                d as int,
            ),
{
    let mut out: Vec<T> = Vec::new();
    let mut k: usize = 0;
    assert(0 * d == 0) by (nonlinear_arith);
    while k < idx.len()
        invariant
            k <= idx@.len(),
            x@.len() == n * d,
            forall|i: int| 0 <= i < idx@.len() ==> #[trigger] idx@[i] < n,
            out@.len() == k * d,
            forall|i: int|
                0 <= i < k ==> #[trigger] block(out@, i, d as int) == block(
                    x@,
                    idx@[i] as int,
                    d as int,
                ),
        decreases idx@.len() - k,
    {
        let row: Vec<T> = row_of(x, n, d, idx[k]);
        let ghost before = out@;
        proof {
            let i = idx@[k as int] as int;
            assert(0 <= i * d && i * d + d <= n * d) by (nonlinear_arith)
                requires
                    0 <= i < n,
                    d >= 0,
            ;
            crate::seqs::lemma_append_block(before, row@, k as int, d as int);
        }
        crate::seqs::append_all(&mut out, &row);
        k = k + 1;
    }
    out
}

} // verus!
