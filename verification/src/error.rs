//! The error every planner reports: which operand was refused and the numbers
//! that refuse it.

use vstd::prelude::*;

verus! {

/// Why a primitive refused its arguments before doing any work.
#[derive(Debug, Clone, Copy, PartialEq, Eq)]
pub enum PrimError {
    /// An operand's element count does not agree with the shape it was given
    /// as, or a scalar argument is outside its range.
    ShapeMismatch {
        operand: &'static str,
        rows: usize,
        cols: usize,
        len: usize,
    },
    /// Two operands disagree on a dimension that they share.
    DimMismatch { dim: &'static str, lhs: usize, rhs: usize },
    /// A product of two counts does not fit a `usize`.
    Overflow { operand: &'static str, lhs: usize, rhs: usize },
}

/// The error for `operand`, given as `rows` by `cols` over `len` elements.
pub open spec fn shape_error(
    operand: &'static str,
    rows: usize,
    cols: usize,
    len: usize,
) -> PrimError {
    PrimError::ShapeMismatch { operand, rows, cols, len }
}

/// The error for a dimension too large for the 32-bit launch arguments.
pub open spec fn u32_error(operand: &'static str, dim: usize) -> PrimError {
    PrimError::ShapeMismatch { operand, rows: dim, cols: 0, len: u32::MAX as usize }
}

/// Turns an optional fault into the verdict a validator returns.
pub open spec fn verdict(fault: Option<PrimError>) -> Result<(), PrimError> {
    match fault {
        Some(e) => Err(e),
        None => Ok(()),
    }
}

/// The first of several optional faults.
pub open spec fn first_fault(a: Option<PrimError>, b: Option<PrimError>) -> Option<PrimError> {
    match a {
        Some(e) => Some(e),
        None => b,
    }
}

/// Builds a [`PrimError::ShapeMismatch`].
pub fn shape_mismatch(operand: &'static str, rows: usize, cols: usize, len: usize) -> (r: PrimError)
    ensures
        r == shape_error(operand, rows, cols, len),
        r == (PrimError::ShapeMismatch { operand, rows, cols, len }),
{
    PrimError::ShapeMismatch { operand, rows, cols, len }
}

/// The fault of a dimension that does not fit a 32-bit launch argument.
pub open spec fn u32_fault(operand: &'static str, dim: usize) -> Option<PrimError> {
    if dim > u32::MAX {
        Some(u32_error(operand, dim))
    } else {
        None
    }
}

/// Refuses a dimension that does not fit the 32-bit launch arguments, where a
/// truncated value would read out of bounds.
pub fn guard_u32(operand: &'static str, dim: usize) -> (r: Result<(), PrimError>)
    ensures
        r == verdict(u32_fault(operand, dim)),
        r is Ok <==> dim <= 0xFFFF_FFFF,
        r matches Err(e) ==> e == (PrimError::ShapeMismatch {
            operand,
            rows: dim,
            cols: 0,
            len: 0xFFFF_FFFF,
        }),
{
    if dim > u32::MAX as usize {
        Err(shape_mismatch(operand, dim, 0, u32::MAX as usize))
    } else {
        Ok(())
    }
}

/// Faults are reported in order: a verdict is the first fault that there is, and
/// an approval where there is none.
pub proof fn lemma_first_fault_wins(a: Option<PrimError>, b: Option<PrimError>)
    ensures
        verdict(first_fault(a, b)) is Ok <==> a is None && b is None,
        a is Some ==> verdict(first_fault(a, b)) == Err::<(), PrimError>(a->0),
        a is None && b is Some ==> verdict(first_fault(a, b)) == Err::<(), PrimError>(b->0),
{
}

} // verus!
