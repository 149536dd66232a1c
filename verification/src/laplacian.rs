//! The normalized graph Laplacian: its operand check and its passes.

use crate::arith::{ceil_div_int, product_is};
use crate::error::{shape_error, shape_mismatch, verdict, PrimError};
use crate::launch::{launch_dims_elementwise, line_dims, LaunchDims};
use vstd::prelude::*;

verus! {

/// Why an affinity matrix is refused: it is empty or not square.
pub open spec fn affinity_fault(a_len: usize, n: usize) -> Option<PrimError> {
    if n == 0 || n * n != a_len {
        Some(shape_error("a", n, n, a_len))
    } else {
        None
    }
}

/// Refuses an affinity matrix that is empty or not `n` by `n`.
pub fn validate_geometry(a_len: usize, n: usize) -> (r: Result<(), PrimError>)
    ensures
        r == verdict(affinity_fault(a_len, n)),
{
    if n == 0 || !product_is(n, n, a_len) {
        return Err(shape_mismatch("a", n, n, a_len));
    }
    Ok(())
}

/// A planned Laplacian. The diagonal is zeroed into a working copy, the row sums
/// of the copy are the degrees, the degrees are turned into divisors, and the
/// Laplacian is built from copy, degrees and divisors.
#[derive(Debug, Clone, Copy, PartialEq, Eq)]
pub struct LaplacianPlan {
    /// Entries of the matrix, of the working copy and of the result.
    pub entries: usize,
    /// The launch of the passes over entries.
    pub over_entries: LaunchDims,
    /// The launch of the pass over nodes.
    pub over_nodes: LaunchDims,
}

/// Plans the Laplacian of an `n` by `n` affinity matrix.
pub fn laplacian_plan(a_len: usize, n: usize) -> (r: Result<LaplacianPlan, PrimError>)
    requires
        affinity_fault(a_len, n) is None ==> ceil_div_int(a_len as int, 256) <= u32::MAX,
    ensures
        match affinity_fault(a_len, n) {
            Some(e) => r == Err::<LaplacianPlan, PrimError>(e),
            None => r == Ok::<LaplacianPlan, PrimError>(
                LaplacianPlan {
                    entries: a_len,
                    over_entries: line_dims(n * n, 256),
                    over_nodes: line_dims(n as int, 256),
                },
            ),
        },
{
    match validate_geometry(a_len, n) {
        Err(e) => {
            return Err(e);
        },
        Ok(()) => {},
    }
    assert(n <= n * n) by (nonlinear_arith)
        requires
            n >= 1,
    ;
    proof {
        crate::arith::lemma_ceil_div_monotone(n as int, a_len as int, 256);
    }
    Ok(
        LaplacianPlan {
            entries: a_len,
            over_entries: launch_dims_elementwise(a_len),
            over_nodes: launch_dims_elementwise(n),
        },
    )
}

/// An affinity matrix is accepted exactly where it has a node and is square.
pub proof fn lemma_affinity_accepted(a_len: usize, n: usize)
    ensures
        affinity_fault(a_len, n) is None <==> n >= 1 && a_len == n * n,
        affinity_fault(a_len, n) is Some ==> affinity_fault(a_len, n) == Some(
            PrimError::ShapeMismatch { operand: "a", rows: n, cols: n, len: a_len },
        ),
{
}

} // verus!
