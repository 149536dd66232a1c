//! Normal equations assembled on the device in double precision: when that is
//! possible, and by which route.

use crate::arith::max_usize;
use crate::flag::{flag_text, is_zero_text, text_is_zero};
use crate::launch::{cube_dims, folded_dims, launch_cubes, launch_dims_1d_folded, LaunchDims};
use vstd::prelude::*;

verus! {

/// Whether the device can assemble the normal equations, and the flag does not
/// forbid it.
pub open spec fn gram_applicable(
    cpu_backend: bool,
    f64_kernels: bool,
    fused_centering: bool,
    gram_flag: Option<&str>,
) -> bool {
    !cpu_backend && f64_kernels && fused_centering && match flag_text(gram_flag) {
        Some(t) => !is_zero_text(t),
        None => true,
    }
}

/// Whether the device assembles the normal equations: never on the cpu backend,
/// only with double-precision kernels and a fused kernel for the features, and
/// unless the flag is `"0"`.
pub fn device_gram_applicable(
    cpu_backend: bool,
    f64_kernels: bool,
    fused_centering: bool,
    gram_flag: Option<&str>,
) -> (r: bool)
    ensures
        r == gram_applicable(cpu_backend, f64_kernels, fused_centering, gram_flag),
{
    if cpu_backend || !f64_kernels || !fused_centering {
        return false;
    }
    match gram_flag {
        Some(v) => !text_is_zero(v),
        None => true,
    }
}

/// Whether a design on the host is uploaded for the sake of the device: only
/// where the flag, by being `"0"`, forbids the host.
pub fn device_fit_preferred(
    cpu_backend: bool,
    f64_kernels: bool,
    fused_centering: bool,
    gram_flag: Option<&str>,
    fit_flag: Option<&str>,
) -> (r: bool)
    ensures
        r == (gram_applicable(cpu_backend, f64_kernels, fused_centering, gram_flag)
            && match flag_text(fit_flag) {
            Some(t) => is_zero_text(t),
            None => false,
        }),
{
    if !device_gram_applicable(cpu_backend, f64_kernels, fused_centering, gram_flag) {
        return false;
    }
    match fit_flag {
        Some(v) => text_is_zero(v),
        None => false,
    }
}

/// How the centered Gram matrix is formed.
#[derive(Debug, Clone, Copy, PartialEq, Eq, Structural)]
pub enum GramRoute {
    /// From the design, with the centering inside the kernel.
    FusedCentered,
    /// From the design as it is; the means are zero.
    FusedRaw,
    /// From a copy of the design, centered by the weighted means and with its
    /// rows scaled by the roots of the weights.
    WeightedCentered,
    /// From a copy of the design with its rows scaled by the roots of the
    /// weights; the means are zero.
    WeightedRaw,
}

/// A planned assembly.
#[derive(Debug, Clone, Copy, PartialEq, Eq)]
pub struct AssemblyPlan {
    /// Whether design and target are first copied to double precision. Only
    /// such copies are released afterwards.
    pub widen: bool,
    pub route: GramRoute,
    /// The elementwise launches over the design and over the target.
    pub over_design: LaunchDims,
    pub over_target: LaunchDims,
}

/// The route of an assembly.
pub open spec fn gram_route(weighted: bool, fit_intercept: bool) -> GramRoute {
    match (weighted, fit_intercept) {
        (false, true) => GramRoute::FusedCentered,
        (false, false) => GramRoute::FusedRaw,
        (true, true) => GramRoute::WeightedCentered,
        (true, false) => GramRoute::WeightedRaw,
    }
}

/// Plans the assembly of the normal equations of a design of `x_len` entries
/// with a target of `y_len`; `width` is the cube width of elementwise launches,
/// which read the lengths as 32-bit counts.
pub fn centered_gram_xty_plan(
    x_len: usize,
    y_len: usize,
    elem_size: usize,
    weighted: bool,
    fit_intercept: bool,
    width: u32,
) -> (r: AssemblyPlan)
    requires
        width > 0,
    ensures
        r == (AssemblyPlan {
            widen: elem_size != 8,
            route: gram_route(weighted, fit_intercept),
            over_design: folded_dims((x_len as u32) as int, width),
            over_target: folded_dims((y_len as u32) as int, width),
        }),
{
    let route: GramRoute = if weighted {
        if fit_intercept {
            GramRoute::WeightedCentered
        } else {
            GramRoute::WeightedRaw
        }
    } else if fit_intercept {
        GramRoute::FusedCentered
    } else {
        GramRoute::FusedRaw
    };
    AssemblyPlan {
        widen: elem_size != 8,
        route,
        over_design: launch_dims_1d_folded(x_len, width),
        over_target: launch_dims_1d_folded(y_len, width),
    }
}

/// Whether a route needs the means, and gives them back; otherwise they are
/// zero.
pub fn route_centers(route: GramRoute) -> (r: bool)
    ensures
        r == (route == GramRoute::FusedCentered || route == GramRoute::WeightedCentered),
        forall|weighted: bool, fit_intercept: bool|
            route == #[trigger] gram_route(weighted, fit_intercept) ==> r == fit_intercept,
{
    match route {
        GramRoute::FusedCentered | GramRoute::WeightedCentered => true,
        GramRoute::FusedRaw | GramRoute::WeightedRaw => false,
    }
}

/// Planned column sums over `nb` row blocks: one partial per block and column,
/// and one per block for the target.
#[derive(Debug, Clone, Copy, PartialEq, Eq)]
pub struct ColumnSumsPlan {
    pub partials: usize,
    pub target_partials: usize,
    pub blocks: LaunchDims,
    pub fold: LaunchDims,
}

/// Plans the column sums of a design with `d` columns.
pub fn column_sums_plan(nb: usize, d: usize, cube: u32, width: u32) -> (r: ColumnSumsPlan)
    requires
        nb * d <= usize::MAX,
        1 <= nb <= u32::MAX,
        d <= u32::MAX,
        width > 0,
    ensures
        r == (ColumnSumsPlan {
            partials: (nb * d) as usize,
            target_partials: nb,
            blocks: cube_dims(nb as int, cube),
            fold: folded_dims(vstd::math::max(d as int, 1), width),
        }),
{
    ColumnSumsPlan {
        partials: nb * d,
        target_partials: nb,
        blocks: launch_cubes(nb, cube),
        fold: launch_dims_1d_folded(max_usize(d, 1), width),
    }
}

/// The device assembles normal equations exactly off the cpu backend, with both
/// kernels that it takes, and unless its flag is zero.
pub proof fn lemma_gram_applicable(
    cpu_backend: bool,
    f64_kernels: bool,
    fused_centering: bool,
    gram_flag: Option<&str>,
)
    ensures
        gram_applicable(cpu_backend, f64_kernels, fused_centering, gram_flag) <==> {
            &&& !cpu_backend
            &&& f64_kernels && fused_centering
            &&& gram_flag is Some ==> gram_flag->0@ != seq!['0']
        },
{
}

/// An assembly centers exactly where an intercept is fitted, and scales a copy
/// of the design exactly where it is weighted.
pub proof fn lemma_gram_route(weighted: bool, fit_intercept: bool)
    ensures
        fit_intercept <==> gram_route(weighted, fit_intercept) == GramRoute::FusedCentered
            || gram_route(weighted, fit_intercept) == GramRoute::WeightedCentered,
        weighted <==> gram_route(weighted, fit_intercept) == GramRoute::WeightedRaw || gram_route(
            weighted,
            fit_intercept,
        ) == GramRoute::WeightedCentered,
{
}

} // verus!
