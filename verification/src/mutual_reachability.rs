//! Mutual-reachability distances: the operand checks and the launch.

use crate::arith::product_is;
use crate::error::{
    first_fault, guard_u32, shape_error, shape_mismatch, u32_fault, PrimError,
};
use crate::launch::{launch_dims_2d, tile_dims, LaunchDims};
use vstd::prelude::*;

verus! {

/// Why a mutual-reachability matrix is refused.
pub open spec fn reachability_fault(
    d_len: usize,
    core_len: usize,
    rows_x: usize,
    rows_y: usize,
) -> Option<PrimError> {
    if d_len != rows_x * rows_y {
        Some(shape_error("d", rows_x, rows_y, d_len))
    } else if core_len != rows_x {
        Some(shape_error("core", rows_x, 1, core_len))
    } else {
        first_fault(u32_fault("d", rows_x), u32_fault("d", rows_y))
    }
}

/// Plans the mutual-reachability matrix of a distance block: its entries and
/// its launch.
pub fn mutual_reachability_plan(d_len: usize, core_len: usize, rows_x: usize, rows_y: usize) -> (r:
    Result<(usize, LaunchDims), PrimError>)
    requires
        reachability_fault(d_len, core_len, rows_x, rows_y) is None ==> rows_x <= u32::MAX - 15
            && rows_y <= u32::MAX - 15,
    ensures
        match reachability_fault(d_len, core_len, rows_x, rows_y) {
            Some(e) => r == Err::<(usize, LaunchDims), PrimError>(e),
            None => r == Ok::<(usize, LaunchDims), PrimError>(
                (d_len, tile_dims(rows_x as int, rows_y as int)),
            ),
        },
{
    if !product_is(rows_x, rows_y, d_len) {
        return Err(shape_mismatch("d", rows_x, rows_y, d_len));
    }
    if core_len != rows_x {
        return Err(shape_mismatch("core", rows_x, 1, core_len));
    }
    match guard_u32("d", rows_x) {
        Err(e) => {
            return Err(e);
        },
        Ok(()) => {},
    }
    match guard_u32("d", rows_y) {
        Err(e) => {
            return Err(e);
        },
        Ok(()) => {},
    }
    Ok((d_len, launch_dims_2d(rows_x, rows_y)))
}

/// A distance block is accepted exactly where it is full, there is a core
/// distance for each row, and the sizes fit 32 bits.
pub proof fn lemma_reachability_accepted(
    d_len: usize,
    core_len: usize,
    rows_x: usize,
    rows_y: usize,
)
    ensures
        reachability_fault(d_len, core_len, rows_x, rows_y) is None <==> {
            &&& d_len == rows_x * rows_y && core_len == rows_x
            &&& rows_x <= u32::MAX && rows_y <= u32::MAX
        },
        d_len != rows_x * rows_y ==> reachability_fault(d_len, core_len, rows_x, rows_y) == Some(
            PrimError::ShapeMismatch { operand: "d", rows: rows_x, cols: rows_y, len: d_len },
        ),
{
}

/// A refused block names its distances, its core distances, and then a size beyond 32
/// bits.
pub proof fn lemma_reachability_refusals(
    d_len: usize,
    core_len: usize,
    rows_x: usize,
    rows_y: usize,
)
    ensures
        d_len != rows_x * rows_y ==> reachability_fault(d_len, core_len, rows_x, rows_y) == Some(
            PrimError::ShapeMismatch { operand: "d", rows: rows_x, cols: rows_y, len: d_len },
        ),
        d_len == rows_x * rows_y && core_len != rows_x
            ==> reachability_fault(d_len, core_len, rows_x, rows_y) == Some(
            PrimError::ShapeMismatch { operand: "core", rows: rows_x, cols: 1, len: core_len },
        ),
        d_len == rows_x * rows_y && core_len == rows_x && rows_x > u32::MAX
            ==> reachability_fault(d_len, core_len, rows_x, rows_y) == Some(
            PrimError::ShapeMismatch { operand: "d", rows: rows_x, cols: 0, len: 0xFFFF_FFFF },
        ),
        d_len == rows_x * rows_y && core_len == rows_x && rows_x <= u32::MAX
            && rows_y > u32::MAX ==> reachability_fault(d_len, core_len, rows_x, rows_y) == Some(
            PrimError::ShapeMismatch { operand: "d", rows: rows_y, cols: 0, len: 0xFFFF_FFFF },
        ),
{
}

} // verus!
