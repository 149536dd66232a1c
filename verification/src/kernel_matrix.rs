//! Kernel matrices: operand checks, and how each kernel is composed of a
//! pairwise base operation and an elementwise map.

use crate::arith::{ceil_div_int, product_is};
use crate::error::{
    first_fault, guard_u32, shape_error, shape_mismatch, u32_fault, verdict, PrimError,
};
use crate::launch::{launch_dims_2d, launch_dims_elementwise, line_dims, tile_dims, LaunchDims};
use vstd::prelude::*;

verus! {

/// A kernel with its parameters.
#[derive(Debug, Clone, Copy, PartialEq)]
pub enum Kernel<F> {
    Linear,
    Rbf { gamma: F },
    Poly { gamma: F, degree: F, coef0: F },
    Sigmoid { gamma: F, coef0: F },
    Laplacian { gamma: F },
    Cosine,
    Chi2 { gamma: F },
    AdditiveChi2,
}

/// What is computed for each pair of rows.
#[derive(Debug, Clone, Copy, PartialEq, Eq, Structural)]
pub enum BaseOp {
    /// The inner product.
    Inner,
    /// The inner product of the rows scaled to unit length; a zero row stays
    /// zero.
    UnitInner,
    /// The squared Euclidean distance.
    SquaredDistance,
    /// The sum of absolute differences.
    Manhattan,
    /// The negated sum of squared differences over sums.
    AdditiveChi2,
}

/// What is done to each entry of the base.
#[derive(Debug, Clone, Copy, PartialEq)]
pub enum EntryMap<F> {
    /// `exp(-gamma * v)`.
    ExpOfNegated { gamma: F },
    /// `exp(gamma * v)`.
    ExpOf { gamma: F },
    /// `(gamma * v + coef0) ^ degree`.
    Power { gamma: F, coef0: F, degree: F },
    /// `tanh(gamma * v + coef0)`.
    Tanh { gamma: F, coef0: F },
}

impl<F> Kernel<F> {
    /// The base operation of a kernel.
    pub open spec fn base(self) -> BaseOp {
        match self {
            Kernel::Linear => BaseOp::Inner,
            Kernel::Rbf { gamma } => BaseOp::SquaredDistance,
            Kernel::Poly { gamma, degree, coef0 } => BaseOp::Inner,
            Kernel::Sigmoid { gamma, coef0 } => BaseOp::Inner,
            Kernel::Laplacian { gamma } => BaseOp::Manhattan,
            Kernel::Cosine => BaseOp::UnitInner,
            Kernel::Chi2 { gamma } => BaseOp::AdditiveChi2,
            Kernel::AdditiveChi2 => BaseOp::AdditiveChi2,
        }
    }

    /// The map of a kernel; `None` where the base is the kernel.
    pub open spec fn map(self) -> Option<EntryMap<F>> {
        match self {
            Kernel::Linear => None,
            Kernel::Rbf { gamma } => Some(EntryMap::ExpOfNegated { gamma }),
            Kernel::Poly { gamma, degree, coef0 } => Some(
                EntryMap::Power { gamma, coef0, degree },
            ),
            Kernel::Sigmoid { gamma, coef0 } => Some(EntryMap::Tanh { gamma, coef0 }),
            Kernel::Laplacian { gamma } => Some(EntryMap::ExpOfNegated { gamma }),
            Kernel::Cosine => None,
            Kernel::Chi2 { gamma } => Some(EntryMap::ExpOf { gamma }),
            Kernel::AdditiveChi2 => None,
        }
    }
}

/// Why a kernel matrix is refused, whatever the kernel.
pub open spec fn operands_fault(
    x_len: usize,
    rows_x: usize,
    cols: usize,
    y_len: usize,
    rows_y: usize,
    cols_y: usize,
    out_len: Option<usize>,
) -> Option<PrimError> {
    if rows_x * cols != x_len {
        Some(shape_error("x", rows_x, cols, x_len))
    } else if rows_y * cols_y != y_len {
        Some(shape_error("y", rows_y, cols_y, y_len))
    } else if cols != cols_y {
        Some(PrimError::DimMismatch { dim: "n_features", lhs: cols, rhs: cols_y })
    } else if rows_x == 0 || rows_y == 0 || cols == 0 {
        Some(shape_error("x", rows_x, cols, x_len))
    } else if out_len matches Some(o) && o != rows_x * rows_y {
        Some(shape_error("out", rows_x, rows_y, out_len->0))
    } else {
        None
    }
}

/// Refuses operands that do not match their shapes or each other, that are
/// empty, or whose output buffer has the wrong size.
pub fn validate_geometry(
    x_len: usize,
    rows_x: usize,
    cols: usize,
    y_len: usize,
    rows_y: usize,
    cols_y: usize,
    out_len: Option<usize>,
) -> (r: Result<(), PrimError>)
    ensures
        r == verdict(operands_fault(x_len, rows_x, cols, y_len, rows_y, cols_y, out_len)),
{
    if !product_is(rows_x, cols, x_len) {
        return Err(shape_mismatch("x", rows_x, cols, x_len));
    }
    if !product_is(rows_y, cols_y, y_len) {
        return Err(shape_mismatch("y", rows_y, cols_y, y_len));
    }
    if cols != cols_y {
        return Err(PrimError::DimMismatch { dim: "n_features", lhs: cols, rhs: cols_y });
    }
    if rows_x == 0 || rows_y == 0 || cols == 0 {
        return Err(shape_mismatch("x", rows_x, cols, x_len));
    }
    match out_len {
        Some(o) => {
            if !product_is(rows_x, rows_y, o) {
                return Err(shape_mismatch("out", rows_x, rows_y, o));
            }
        },
        None => {},
    }
    Ok(())
}

/// Why the additive chi-squared base is refused: a dimension beyond 32 bits, or
/// more entries than can be counted.
pub open spec fn chi2_fault(rows_x: usize, rows_y: usize, cols: usize) -> Option<PrimError> {
    first_fault(
        u32_fault("rows_x", rows_x),
        first_fault(
            u32_fault("rows_y", rows_y),
            first_fault(
                u32_fault("cols", cols),
                if rows_x * rows_y > usize::MAX {
                    Some(
                        PrimError::Overflow { operand: "additive_chi2", lhs: rows_x, rhs: rows_y },
                    )
                } else {
                    None
                },
            ),
        ),
    )
}

fn validate_chi2(rows_x: usize, rows_y: usize, cols: usize) -> (r: Result<(), PrimError>)
    ensures
        r == verdict(chi2_fault(rows_x, rows_y, cols)),
{
    match guard_u32("rows_x", rows_x) {
        Err(e) => {
            return Err(e);
        },
        Ok(()) => {},
    }
    match guard_u32("rows_y", rows_y) {
        Err(e) => {
            return Err(e);
        },
        Ok(()) => {},
    }
    match guard_u32("cols", cols) {
        Err(e) => {
            return Err(e);
        },
        Ok(()) => {},
    }
    match rows_x.checked_mul(rows_y) {
        Some(_) => Ok(()),
        None => Err(PrimError::Overflow { operand: "additive_chi2", lhs: rows_x, rhs: rows_y }),
    }
}

/// Where a map runs.
#[derive(Debug, Clone, Copy, PartialEq, Eq)]
pub enum MapPlace {
    /// On the host: the elements are eight bytes wide and the device has no
    /// transcendental functions for them.
    Host,
    /// On the device, in place.
    Device(LaunchDims),
}

/// Whether maps run on the host.
pub fn host_map_applicable(elem_size: usize, f64_transcendentals: bool) -> (r: bool)
    ensures
        r == (elem_size == 8 && !f64_transcendentals),
{
    elem_size == 8 && !f64_transcendentals
}

/// A planned kernel matrix.
pub struct KernelPlan<F> {
    pub base: BaseOp,
    /// The launch of the additive chi-squared base; the other bases plan their
    /// own.
    pub base_launch: Option<LaunchDims>,
    pub map: Option<(EntryMap<F>, MapPlace)>,
    /// Entries of the matrix.
    pub entries: usize,
}

/// Why a kernel matrix is refused.
pub open spec fn kernel_fault<F>(
    x_len: usize,
    rows_x: usize,
    cols: usize,
    y_len: usize,
    rows_y: usize,
    cols_y: usize,
    kernel: Kernel<F>,
    out_len: Option<usize>,
) -> Option<PrimError> {
    first_fault(
        operands_fault(x_len, rows_x, cols, y_len, rows_y, cols_y, out_len),
        if kernel.base() == BaseOp::AdditiveChi2 {
            chi2_fault(rows_x, rows_y, cols)
        } else {
            None
        },
    )
}

/// Refuses the operands of a kernel matrix, and what its kernel cannot take.
pub fn validate_kernel<F: Copy>(
    x_len: usize,
    rows_x: usize,
    cols: usize,
    y_len: usize,
    rows_y: usize,
    cols_y: usize,
    kernel: Kernel<F>,
    out_len: Option<usize>,
) -> (r: Result<(), PrimError>)
    ensures
        r == verdict(
            kernel_fault(x_len, rows_x, cols, y_len, rows_y, cols_y, kernel, out_len),
        ),
{
    match validate_geometry(x_len, rows_x, cols, y_len, rows_y, cols_y, out_len) {
        Err(e) => {
            return Err(e);
        },
        Ok(()) => {},
    }
    match kernel {
        Kernel::Chi2 { gamma: _ } => validate_chi2(rows_x, rows_y, cols),
        Kernel::AdditiveChi2 => validate_chi2(rows_x, rows_y, cols),
        _ => Ok(()),
    }
}

/// Plans the kernel matrix of two row sets.
pub fn kernel_matrix_plan<F: Copy>(
    x_len: usize,
    rows_x: usize,
    cols: usize,
    y_len: usize,
    rows_y: usize,
    cols_y: usize,
    kernel: Kernel<F>,
    out_len: Option<usize>,
    elem_size: usize,
    f64_transcendentals: bool,
) -> (r: Result<KernelPlan<F>, PrimError>)
    requires
        kernel_fault(x_len, rows_x, cols, y_len, rows_y, cols_y, kernel, out_len) is None
            ==> {
            &&& rows_x * rows_y <= usize::MAX
            &&& kernel.map() is Some && !(elem_size == 8 && !f64_transcendentals)
                ==> ceil_div_int(rows_x * rows_y, 256) <= u32::MAX
            &&& kernel.base() == BaseOp::AdditiveChi2 ==> rows_x <= u32::MAX - 15 && rows_y
                <= u32::MAX - 15
        },
    ensures
        match kernel_fault(x_len, rows_x, cols, y_len, rows_y, cols_y, kernel, out_len) {
            Some(e) => r is Err && r->Err_0 == e,
            None => {
                &&& r is Ok
                &&& r->Ok_0.base == kernel.base()
                &&& r->Ok_0.base_launch == if kernel.base() == BaseOp::AdditiveChi2 {
                    Some(tile_dims(rows_x as int, rows_y as int))
                } else {
                    None
                }
                &&& r->Ok_0.entries == rows_x * rows_y
                &&& r->Ok_0.map == match kernel.map() {
                    Some(m) => Some(
                        (
                            m,
                            if elem_size == 8 && !f64_transcendentals {
                                MapPlace::Host
                            } else {
                                MapPlace::Device(line_dims(rows_x * rows_y, 256))
                            },
                        ),
                    ),
                    None => None,
                }
            },
        },
{
    match validate_kernel(x_len, rows_x, cols, y_len, rows_y, cols_y, kernel, out_len) {
        Err(e) => {
            return Err(e);
        },
        Ok(()) => {},
    }
    let (base, map): (BaseOp, Option<EntryMap<F>>) = match kernel {
        Kernel::Linear => (BaseOp::Inner, None),
        Kernel::Rbf { gamma } => (
            BaseOp::SquaredDistance,
            Some(EntryMap::ExpOfNegated { gamma }),
        ),
        Kernel::Poly { gamma, degree, coef0 } => (
            BaseOp::Inner,
            Some(EntryMap::Power { gamma, coef0, degree }),
        ),
        Kernel::Sigmoid { gamma, coef0 } => (
            BaseOp::Inner,
            Some(EntryMap::Tanh { gamma, coef0 }),
        ),
        Kernel::Laplacian { gamma } => (
            BaseOp::Manhattan,
            Some(EntryMap::ExpOfNegated { gamma }),
        ),
        Kernel::Cosine => (BaseOp::UnitInner, None),
        Kernel::Chi2 { gamma } => (BaseOp::AdditiveChi2, Some(EntryMap::ExpOf { gamma })),
        Kernel::AdditiveChi2 => (BaseOp::AdditiveChi2, None),
    };
    let mut base_launch: Option<LaunchDims> = None;
    if base == BaseOp::AdditiveChi2 {
        base_launch = Some(launch_dims_2d(rows_x, rows_y));
    }
    let entries: usize = rows_x * rows_y;
    let placed: Option<(EntryMap<F>, MapPlace)> = match map {
        Some(m) => {
            let place: MapPlace = if host_map_applicable(elem_size, f64_transcendentals) {
                MapPlace::Host
            } else {
                MapPlace::Device(launch_dims_elementwise(entries))
            };
            Some((m, place))
        },
        None => None,
    };
    Ok(KernelPlan { base, base_launch, map: placed, entries })
}

/// A kernel without a map is one that the base already is; the two kernels that
/// share the additive chi-squared base, and the two that share the exponential
/// of a negated distance, differ in the other half alone.
pub proof fn lemma_kernel_factors<F>(gamma: F)
    ensures
        Kernel::<F>::Linear.map() is None && Kernel::<F>::Cosine.map() is None
            && Kernel::<F>::AdditiveChi2.map() is None,
        (Kernel::Chi2 { gamma }).base() == Kernel::<F>::AdditiveChi2.base(),
        (Kernel::Rbf { gamma }).map() == (Kernel::Laplacian { gamma }).map(),
        (Kernel::Rbf { gamma }).base() != (Kernel::Laplacian { gamma }).base(),
{
}

/// Each kernel is the map of its name over the base of its name: the radial
/// kernel falls with the squared distance and the Laplacian kernel with the sum
/// of absolute differences, the polynomial and sigmoid kernels shape the inner
/// product, the cosine kernel is that of unit rows, and the two chi-squared
/// kernels go over the negated chi-squared sum.
pub proof fn lemma_kernel_parts<F>(gamma: F, degree: F, coef0: F)
    ensures
        Kernel::<F>::Linear.base() == BaseOp::Inner,
        Kernel::<F>::Linear.map() is None,
        Kernel::<F>::Cosine.base() == BaseOp::UnitInner,
        Kernel::<F>::Cosine.map() is None,
        Kernel::<F>::AdditiveChi2.base() == BaseOp::AdditiveChi2,
        Kernel::<F>::AdditiveChi2.map() is None,
        (Kernel::Rbf { gamma }).base() == BaseOp::SquaredDistance,
        (Kernel::Rbf { gamma }).map() == Some(EntryMap::ExpOfNegated { gamma }),
        (Kernel::Laplacian { gamma }).base() == BaseOp::Manhattan,
        (Kernel::Laplacian { gamma }).map() == Some(EntryMap::ExpOfNegated { gamma }),
        (Kernel::Chi2 { gamma }).base() == BaseOp::AdditiveChi2,
        (Kernel::Chi2 { gamma }).map() == Some(EntryMap::ExpOf { gamma }),
        (Kernel::Poly { gamma, degree, coef0 }).base() == BaseOp::Inner,
        (Kernel::Poly { gamma, degree, coef0 }).map() == Some(
            EntryMap::Power { gamma, coef0, degree },
        ),
        (Kernel::Sigmoid { gamma, coef0 }).base() == BaseOp::Inner,
        (Kernel::Sigmoid { gamma, coef0 }).map() == Some(EntryMap::Tanh { gamma, coef0 }),
{
}

/// A kernel matrix is accepted exactly where both operands are full and hold
/// something, they share their features, the output has an entry for each pair
/// of rows, and, for the chi-squared kernels, the sizes fit 32 bits.
pub proof fn lemma_kernel_accepted<F>(
    x_len: usize,
    rows_x: usize,
    cols: usize,
    y_len: usize,
    rows_y: usize,
    cols_y: usize,
    kernel: Kernel<F>,
    out_len: Option<usize>,
)
    requires
        rows_x * rows_y <= usize::MAX,
    ensures
        kernel_fault(x_len, rows_x, cols, y_len, rows_y, cols_y, kernel, out_len) is None <==> {
            &&& x_len == rows_x * cols && y_len == rows_y * cols_y && cols == cols_y
            &&& rows_x >= 1 && rows_y >= 1 && cols >= 1
            &&& out_len is Some ==> out_len->0 == rows_x * rows_y
            &&& kernel is Chi2 || kernel is AdditiveChi2 ==> rows_x <= u32::MAX && rows_y
                <= u32::MAX && cols <= u32::MAX
        },
{
}

/// Refused operands are named in order: the first, the second, features that differ,
/// an empty operand, and then the output.
pub proof fn lemma_operand_refusals(
    x_len: usize,
    rows_x: usize,
    cols: usize,
    y_len: usize,
    rows_y: usize,
    cols_y: usize,
    out_len: Option<usize>,
)
    ensures
        x_len != rows_x * cols
            ==> operands_fault(x_len, rows_x, cols, y_len, rows_y, cols_y, out_len) == Some(
            PrimError::ShapeMismatch { operand: "x", rows: rows_x, cols: cols, len: x_len },
        ),
        x_len == rows_x * cols && y_len != rows_y * cols_y
            ==> operands_fault(x_len, rows_x, cols, y_len, rows_y, cols_y, out_len) == Some(
            PrimError::ShapeMismatch { operand: "y", rows: rows_y, cols: cols_y, len: y_len },
        ),
        x_len == rows_x * cols && y_len == rows_y * cols_y && cols != cols_y
            ==> operands_fault(x_len, rows_x, cols, y_len, rows_y, cols_y, out_len) == Some(
            PrimError::DimMismatch { dim: "n_features", lhs: cols, rhs: cols_y },
        ),
        x_len == rows_x * cols && y_len == rows_y * cols_y && cols == cols_y
            && (rows_x == 0 || rows_y == 0 || cols == 0)
            ==> operands_fault(x_len, rows_x, cols, y_len, rows_y, cols_y, out_len) == Some(
            PrimError::ShapeMismatch { operand: "x", rows: rows_x, cols: cols, len: x_len },
        ),
        x_len == rows_x * cols && y_len == rows_y * cols_y && cols == cols_y
            && !(rows_x == 0 || rows_y == 0 || cols == 0)
            && (out_len is Some && out_len->0 != rows_x * rows_y)
            ==> operands_fault(x_len, rows_x, cols, y_len, rows_y, cols_y, out_len) == Some(
            PrimError::ShapeMismatch { operand: "out", rows: rows_x, cols: rows_y, len: out_len->0 },
        ),
{
}

/// A chi-squared base names the first size beyond 32 bits, or the number of pairs where
/// it cannot be counted.
pub proof fn lemma_chi2_refusals(
    rows_x: usize,
    rows_y: usize,
    cols: usize,
)
    ensures
        rows_x > u32::MAX ==> chi2_fault(rows_x, rows_y, cols) == Some(
            PrimError::ShapeMismatch { operand: "rows_x", rows: rows_x, cols: 0, len: 0xFFFF_FFFF },
        ),
        rows_x <= u32::MAX && rows_y > u32::MAX ==> chi2_fault(rows_x, rows_y, cols) == Some(
            PrimError::ShapeMismatch { operand: "rows_y", rows: rows_y, cols: 0, len: 0xFFFF_FFFF },
        ),
        rows_x <= u32::MAX && rows_y <= u32::MAX && cols > u32::MAX
            ==> chi2_fault(rows_x, rows_y, cols) == Some(
            PrimError::ShapeMismatch { operand: "cols", rows: cols, cols: 0, len: 0xFFFF_FFFF },
        ),
        rows_x <= u32::MAX && rows_y <= u32::MAX && cols <= u32::MAX
            && rows_x * rows_y > usize::MAX ==> chi2_fault(rows_x, rows_y, cols) == Some(
            PrimError::Overflow { operand: "additive_chi2", lhs: rows_x, rhs: rows_y },
        ),
{
}

} // verus!
