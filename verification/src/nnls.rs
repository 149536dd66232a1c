//! Non-negative ridge on the device: when it is used and how it is launched.

use crate::arith::{min_usize, product_is};
use crate::error::{shape_error, shape_mismatch, verdict, PrimError};
use crate::launch::LaunchDims;
use vstd::prelude::*;

verus! {

/// Sweeps of a solve that names no limit.
pub const NNLS_DEFAULT_MAX_ITER: usize = 1000;

/// Why a solve is refused; `max_dim` is the most features the kernel takes.
pub open spec fn nnls_fault(
    gram_len: usize,
    xty_len: usize,
    d: usize,
    max_dim: u32,
) -> Option<PrimError> {
    if d == 0 || d > max_dim || d * d != gram_len {
        Some(shape_error("nnls.gram", d, d, gram_len))
    } else if xty_len != d {
        Some(shape_error("nnls.xty", d, 1, xty_len))
    } else {
        None
    }
}

/// Refuses normal equations that do not match, or exceed the kernel.
pub fn validate_geometry(gram_len: usize, xty_len: usize, d: usize, max_dim: u32) -> (r: Result<
    (),
    PrimError,
>)
    ensures
        r == verdict(nnls_fault(gram_len, xty_len, d, max_dim)),
{
    if d == 0 || d > max_dim as usize || !product_is(d, d, gram_len) {
        return Err(shape_mismatch("nnls.gram", d, d, gram_len));
    }
    if xty_len != d {
        return Err(shape_mismatch("nnls.xty", d, 1, xty_len));
    }
    Ok(())
}

/// A planned solve: one cube with a unit for each feature, and the sweeps.
#[derive(Debug, Clone, Copy, PartialEq, Eq)]
pub struct NnlsPlan {
    pub launch: LaunchDims,
    pub sweeps: u32,
}

/// Plans a solve over `d` features.
pub fn ridge_nnls_plan(
    gram_len: usize,
    xty_len: usize,
    d: usize,
    max_iter: Option<usize>,
    max_dim: u32,
) -> (r: Result<NnlsPlan, PrimError>)
    ensures
        match nnls_fault(gram_len, xty_len, d, max_dim) {
            Some(e) => r == Err::<NnlsPlan, PrimError>(e),
            None => r == Ok::<NnlsPlan, PrimError>(
                NnlsPlan {
                    launch: LaunchDims { grid: (1, 1, 1), block: (d as u32, 1, 1) },
                    sweeps: vstd::math::min(
                        match max_iter {
                            Some(v) => v as int,
                            None => NNLS_DEFAULT_MAX_ITER as int,
                        },
                        u32::MAX as int,
                    ) as u32,
                },
            ),
        },
        r is Ok && max_iter is None ==> r->Ok_0.sweeps == 1000,
        r is Ok && max_iter is Some && max_iter->0 <= u32::MAX ==> r->Ok_0.sweeps == max_iter->0,
{
    match validate_geometry(gram_len, xty_len, d, max_dim) {
        Err(e) => {
            return Err(e);
        },
        Ok(()) => {},
    }
    let wanted: usize = match max_iter {
        Some(v) => v,
        None => NNLS_DEFAULT_MAX_ITER,
    };
    Ok(
        NnlsPlan {
            launch: LaunchDims { grid: (1, 1, 1), block: (d as u32, 1, 1) },
            sweeps: min_usize(wanted, u32::MAX as usize) as u32,
        },
    )
}

/// Whether the device solves over `d` features: never on the cpu backend or
/// where the host is asked for, within the kernel's features, and where its two
/// staged vectors and two further slots fit the adapter's shared memory.
pub fn device_nnls_applicable(
    d: usize,
    elem_size: usize,
    cpu_backend: bool,
    host_flag: bool,
    max_dim: u32,
    max_shared_memory: usize,
) -> (r: bool)
    requires
        elem_size <= 8,
    ensures
        r == (!cpu_backend && !host_flag && 1 <= d <= max_dim && (2 * max_dim + 2) * elem_size
            <= max_shared_memory),
{
    if cpu_backend || host_flag || d == 0 || d > max_dim as usize {
        return false;
    }
    assert((2 * max_dim + 2) * elem_size <= (2 * u32::MAX + 2) * 8) by (nonlinear_arith)
        requires
            max_dim <= u32::MAX,
            elem_size <= 8,
    ;
    let needed: u64 = (2 * (max_dim as u64) + 2) * (elem_size as u64);
    needed <= max_shared_memory as u64
}

/// Why an intercept is refused.
pub open spec fn intercept_fault(
    xmean_len: usize,
    ymean_len: usize,
    coef_len: usize,
    d: usize,
) -> Option<PrimError> {
    if d == 0 || xmean_len != d || coef_len != d {
        Some(shape_error("ridge_intercept.xmean", d, 1, xmean_len))
    } else if ymean_len != 1 {
        Some(shape_error("ridge_intercept.ymean", 1, 1, ymean_len))
    } else {
        None
    }
}

/// Plans an intercept: a single unit walks the features.
pub fn ridge_intercept_plan(xmean_len: usize, ymean_len: usize, coef_len: usize, d: usize) -> (r:
    Result<LaunchDims, PrimError>)
    ensures
        match intercept_fault(xmean_len, ymean_len, coef_len, d) {
            Some(e) => r == Err::<LaunchDims, PrimError>(e),
            None => r == Ok::<LaunchDims, PrimError>(
                LaunchDims { grid: (1, 1, 1), block: (1, 1, 1) },
            ),
        },
{
    if d == 0 || xmean_len != d || coef_len != d {
        return Err(shape_mismatch("ridge_intercept.xmean", d, 1, xmean_len));
    }
    if ymean_len != 1 {
        return Err(shape_mismatch("ridge_intercept.ymean", 1, 1, ymean_len));
    }
    Ok(LaunchDims { grid: (1, 1, 1), block: (1, 1, 1) })
}

/// A solve is accepted exactly where it has features, within the kernel's, a
/// square Gram matrix of them, and a product for each; an intercept where there
/// is a mean and a coefficient for each feature and one target mean.
pub proof fn lemma_nnls_accepted(
    gram_len: usize,
    xty_len: usize,
    xmean_len: usize,
    ymean_len: usize,
    coef_len: usize,
    d: usize,
    max_dim: u32,
)
    ensures
        nnls_fault(gram_len, xty_len, d, max_dim) is None <==> {
            &&& d >= 1 && d <= max_dim
            &&& gram_len == d * d && xty_len == d
        },
        intercept_fault(xmean_len, ymean_len, coef_len, d) is None <==> {
            &&& d >= 1
            &&& xmean_len == d && coef_len == d && ymean_len == 1
        },
{
}

/// A refused solve names the Gram matrix before the products.
pub proof fn lemma_nnls_refusals(
    gram_len: usize,
    xty_len: usize,
    d: usize,
    max_dim: u32,
)
    ensures
        (d == 0 || d > max_dim || gram_len != d * d)
            ==> nnls_fault(gram_len, xty_len, d, max_dim) == Some(
            PrimError::ShapeMismatch { operand: "nnls.gram", rows: d, cols: d, len: gram_len },
        ),
        !(d == 0 || d > max_dim || gram_len != d * d) && xty_len != d
            ==> nnls_fault(gram_len, xty_len, d, max_dim) == Some(
            PrimError::ShapeMismatch { operand: "nnls.xty", rows: d, cols: 1, len: xty_len },
        ),
{
}

/// A refused intercept names the feature means before the target mean.
pub proof fn lemma_intercept_refusals(
    xmean_len: usize,
    ymean_len: usize,
    coef_len: usize,
    d: usize,
)
    ensures
        (d == 0 || xmean_len != d || coef_len != d)
            ==> intercept_fault(xmean_len, ymean_len, coef_len, d) == Some(
            PrimError::ShapeMismatch { operand: "ridge_intercept.xmean", rows: d, cols: 1, len: xmean_len },
        ),
        !(d == 0 || xmean_len != d || coef_len != d) && ymean_len != 1
            ==> intercept_fault(xmean_len, ymean_len, coef_len, d) == Some(
            PrimError::ShapeMismatch { operand: "ridge_intercept.ymean", rows: 1, cols: 1, len: ymean_len },
        ),
{
}

} // verus!
