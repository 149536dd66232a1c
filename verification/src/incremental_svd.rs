//! Incremental decomposition: how a batch is stacked under the components that
//! are already known, and what is kept of the stack's decomposition.

use crate::arith::{max_usize, min_usize, product_is};
use crate::error::{shape_error, shape_mismatch, verdict, PrimError};
use crate::seqs::{append_all, block, copy_vec};
use vstd::prelude::*;

verus! {

/// The largest matrix that the decomposition takes.
#[derive(Debug, Clone, Copy, PartialEq, Eq)]
pub struct SvdLimits {
    pub max_rows: u32,
    pub max_cols: u32,
}

/// A running decomposition: the leading components, row by row, with their
/// singular values and variances, and the running mean and variance of each
/// feature.
pub struct IncrementalSvdState<T> {
    pub components_: Vec<T>,
    pub singular_values_: Vec<T>,
    pub explained_variance_: Vec<T>,
    pub explained_variance_ratio_: Vec<T>,
    pub mean_: Vec<T>,
    pub var_: Vec<T>,
    pub n_samples_seen_: usize,
    pub n_features: usize,
    pub n_components: usize,
}

impl<T> IncrementalSvdState<T> {
    /// There is a singular value and a variance for each component, and a
    /// component entry, a mean and a variance for each feature.
    pub open spec fn wf(self) -> bool {
        &&& self.components_@.len() == self.n_components * self.n_features
        &&& self.singular_values_@.len() == self.n_components
        &&& self.explained_variance_@.len() == self.n_components
        &&& self.explained_variance_ratio_@.len() == self.n_components
        &&& self.mean_@.len() == self.n_features
        &&& self.var_@.len() == self.n_features
    }
}

/// The running counts that a merge starts from: the components kept, and the
/// samples seen.
#[derive(Debug, Clone, Copy, PartialEq, Eq)]
pub struct SvdProgress {
    pub n_components: usize,
    pub n_samples_seen: usize,
}

/// A planned merge of a batch.
#[derive(Debug, Clone, Copy, PartialEq, Eq)]
pub struct MergePlan {
    /// Rows of known components in the stack.
    pub known: usize,
    /// Rows of the stack.
    pub stacked_rows: usize,
    /// Samples seen after the merge.
    pub n_total: usize,
    /// The divisor of the variances.
    pub variance_divisor: usize,
    /// Components kept.
    pub kept: usize,
}

/// Rows of the stack: the batch alone at first, later the known components, the
/// batch, and one row that corrects the mean.
pub open spec fn stack_rows(progress: Option<SvdProgress>, b: int) -> int {
    match progress {
        Some(s) => s.n_components + b + 1,
        None => b,
    }
}

/// The samples seen once a batch of `b` is merged.
pub open spec fn samples_after(progress: Option<SvdProgress>, b: int) -> int {
    match progress {
        Some(s) => s.n_samples_seen + b,
        None => b,
    }
}

/// Why a merge is refused.
pub open spec fn merge_fault(
    progress: Option<SvdProgress>,
    x_len: usize,
    b: usize,
    p: usize,
    limits: SvdLimits,
) -> Option<PrimError> {
    let rows = stack_rows(progress, b as int);
    if b == 0 || p == 0 || b * p != x_len {
        Some(shape_error("x_batch", b, p, x_len))
    } else if rows > limits.max_rows || p > limits.max_cols {
        Some(shape_error("incremental_svd_stack", rows as usize, p, (rows * p) as usize))
    } else {
        None
    }
}

/// Refuses a batch that does not match its shape, or whose stack exceeds the
/// decomposition.
pub fn validate_batch(
    progress: Option<SvdProgress>,
    x_len: usize,
    b: usize,
    p: usize,
    limits: SvdLimits,
) -> (r: Result<(), PrimError>)
    requires
        b > 0 && p > 0 && b * p == x_len ==> stack_rows(progress, b as int) * p <= usize::MAX,
    ensures
        r == verdict(merge_fault(progress, x_len, b, p, limits)),
{
    if b == 0 || p == 0 || !product_is(b, p, x_len) {
        return Err(shape_mismatch("x_batch", b, p, x_len));
    }
    assert(stack_rows(progress, b as int) <= stack_rows(progress, b as int) * p)
        by (nonlinear_arith)
        requires
            p >= 1,
            stack_rows(progress, b as int) >= 0,
    ;
    let rows: usize = match progress {
        Some(s) => s.n_components + b + 1,
        None => b,
    };
    if rows > limits.max_rows as usize || p > limits.max_cols as usize {
        return Err(shape_mismatch("incremental_svd_stack", rows, p, rows * p));
    }
    Ok(())
}

/// Plans the merge of a batch of `b` samples with `p` features.
pub fn merge_plan(
    progress: Option<SvdProgress>,
    x_len: usize,
    b: usize,
    p: usize,
    n_components: usize,
    limits: SvdLimits,
) -> (r: Result<MergePlan, PrimError>)
    requires
        b > 0 && p > 0 && b * p == x_len ==> stack_rows(progress, b as int) * p <= usize::MAX,
        merge_fault(progress, x_len, b, p, limits) is None ==> samples_after(progress, b as int)
            <= usize::MAX,
    ensures
        match merge_fault(progress, x_len, b, p, limits) {
            Some(e) => r == Err::<MergePlan, PrimError>(e),
            None => {
                let rows = stack_rows(progress, b as int);
                let total = samples_after(progress, b as int);
                r == Ok::<MergePlan, PrimError>(
                    MergePlan {
                        known: match progress {
                            Some(s) => s.n_components,
                            None => 0,
                        },
                        stacked_rows: rows as usize,
                        n_total: total as usize,
                        variance_divisor: vstd::math::max(total - 1, 1) as usize,
                        kept: vstd::math::min(
                            n_components as int,
                            vstd::math::min(rows, p as int),
                        ) as usize,
                    },
                )
            },
        },
{
    match validate_batch(progress, x_len, b, p, limits) {
        Err(e) => {
            return Err(e);
        },
        Ok(()) => {},
    }
    let (known, seen, stacked_rows): (usize, usize, usize) = match progress {
        Some(s) => (s.n_components, s.n_samples_seen, s.n_components + b + 1),
        None => (0, 0, b),
    };
    let n_total: usize = seen + b;
    Ok(
        MergePlan {
            known,
            stacked_rows,
            n_total,
            variance_divisor: max_usize(n_total - 1, 1),
            kept: min_usize(n_components, min_usize(stacked_rows, p)),
        },
    )
}

/// Stacks the scaled components, the centered batch and the correcting row. At
/// first there are no components and no correction: the stack is the batch.
pub fn assemble_stack<T: Copy>(
    plan: MergePlan,
    scaled: &Vec<T>,
    centered: &Vec<T>,
    correction: Option<&Vec<T>>,
    b: usize,
    p: usize,
) -> (r: Vec<T>)
    requires
        scaled.len() == plan.known * p,
        centered.len() == b * p,
        correction is None ==> plan.known == 0 && plan.stacked_rows == b,
        correction matches Some(c) ==> c.len() == p && plan.stacked_rows == plan.known + b + 1,
    ensures
        r@ == scaled@ + centered@ + match correction {
            Some(c) => c@,
            None => Seq::empty(),
        },
        r.len() == plan.stacked_rows * p,
{
    let mut out: Vec<T> = Vec::new();
    append_all(&mut out, scaled);
    append_all(&mut out, centered);
    proof {
        assert(out@ =~= scaled@ + centered@);
        assert(plan.known == 0 ==> plan.known * p == 0) by (nonlinear_arith);
        assert((plan.known + b + 1) * p == plan.known * p + b * p + p) by (nonlinear_arith);
    }
    match correction {
        Some(c) => {
            append_all(&mut out, c);
        },
        None => {},
    }
    proof {
        let tail = match correction {
            Some(c) => c@,
            None => Seq::empty(),
        };
        assert(out@ =~= scaled@ + centered@ + tail);
    }
    out
}

/// The rows of a stack: first the scaled components, then the batch, and last
/// the correction.
pub proof fn lemma_stack_rows<T>(
    scaled: Seq<T>,
    centered: Seq<T>,
    correction: Seq<T>,
    known: int,
    b: int,
    p: int,
    i: int,
)
    requires
        known >= 0,
        b >= 0,
        p >= 0,
        scaled.len() == known * p,
        centered.len() == b * p,
        correction.len() == p,
        0 <= i < known + b + 1,
    ensures
        ({
            let stack = scaled + centered + correction;
            block(stack, i, p) == if i < known {
                block(scaled, i, p)
            } else if i < known + b {
                block(centered, i - known, p)
            } else {
                correction
            }
        }),
{
    let stack = scaled + centered + correction;
    assert((known + b + 1) * p == known * p + b * p + p) by (nonlinear_arith);
    assert(0 <= i * p && i * p + p <= (known + b + 1) * p) by (nonlinear_arith)
        requires
            0 <= i < known + b + 1,
            p >= 0,
    ;
    if i < known {
        assert(i * p + p <= known * p) by (nonlinear_arith)
            requires
                0 <= i < known,
                p >= 0,
        ;
        assert(block(stack, i, p) =~= block(scaled, i, p));
    } else if i < known + b {
        let j = i - known;
        assert(i * p == known * p + j * p && 0 <= j * p && j * p + p <= b * p) by (nonlinear_arith)
            requires
                i == known + j,
                0 <= j < b,
                p >= 0,
        ;
        assert(block(stack, i, p) =~= block(centered, j, p));
    } else {
        assert(i * p == known * p + b * p) by (nonlinear_arith)
            requires
                i == known + b,
        ;
        assert(block(stack, i, p) =~= correction);
    }
}

/// The first entries of a list.
fn leading<T: Copy>(v: &Vec<T>, len: usize) -> (r: Vec<T>)
    requires
        len <= v.len(),
    ensures
        r@ == v@.take(len as int),
{
    let mut out: Vec<T> = Vec::new();
    let mut i: usize = 0;
    while i < len
        invariant
            i <= len <= v.len(),
            out@ == v@.take(i as int),
        decreases len - i,
    {
        out.push(v[i]);
        i = i + 1;
        assert(out@ =~= v@.take(i as int));
    }
    out
}

/// Keeps the leading components of a decomposition of the stack, whose rows are
/// `vt` and whose singular values, variances and variance ratios are given.
pub fn merged_state<T: Copy>(
    plan: MergePlan,
    p: usize,
    vt: &Vec<T>,
    singular_values: &Vec<T>,
    variances: &Vec<T>,
    ratios: &Vec<T>,
    mean: &Vec<T>,
    var: &Vec<T>,
) -> (r: IncrementalSvdState<T>)
    requires
        plan.kept <= singular_values.len(),
        variances.len() == singular_values.len(),
        ratios.len() == singular_values.len(),
        vt.len() == singular_values.len() * p,
        mean.len() == p,
        var.len() == p,
    ensures
        r.wf(),
        r.n_features == p,
        r.n_components == plan.kept,
        r.n_samples_seen_ == plan.n_total,
        r.components_@ == vt@.take(plan.kept * p),
        r.singular_values_@ == singular_values@.take(plan.kept as int),
        r.explained_variance_@ == variances@.take(plan.kept as int),
        r.explained_variance_ratio_@ == ratios@.take(plan.kept as int),
        r.mean_@ == mean@,
        r.var_@ == var@,
{
    let len: usize = vt.len();
    let found: usize = singular_values.len();
    assert(0 <= plan.kept * p <= len) by (nonlinear_arith)
        requires
            plan.kept <= found,
            len == found * p,
            p >= 0,
    ;
    IncrementalSvdState {
        components_: leading(vt, plan.kept * p),
        singular_values_: leading(singular_values, plan.kept),
        explained_variance_: leading(variances, plan.kept),
        explained_variance_ratio_: leading(ratios, plan.kept),
        mean_: copy_vec(mean),
        var_: copy_vec(var),
        n_samples_seen_: plan.n_total,
        n_features: p,
        n_components: plan.kept,
    }
}

/// A stack holds the batch and, once components are known, these and one row
/// more; merging changes the number of samples by those of the batch, so that
/// two batches count as much as one of both.
pub proof fn lemma_merges_count(
    progress: Option<SvdProgress>,
    b: int,
    more: int,
    n_components: usize,
)
    requires
        b >= 0,
        more >= 0,
        0 <= samples_after(progress, b) <= usize::MAX,
    ensures
        progress is None ==> stack_rows(progress, b) == b && samples_after(progress, b) == b,
        progress is Some ==> stack_rows(progress, b) - b == progress->0.n_components + 1,
        progress is Some ==> samples_after(progress, b) - b == progress->0.n_samples_seen,
        samples_after(
            Some(
                SvdProgress {
                    n_components,
                    n_samples_seen: samples_after(progress, b) as usize,
                },
            ),
            more,
        ) == samples_after(progress, b + more),
{
}

/// A batch is accepted exactly where it holds something, fills its matrix, and
/// its stack is within the decomposition.
pub proof fn lemma_merge_accepted(
    progress: Option<SvdProgress>,
    x_len: usize,
    b: usize,
    p: usize,
    limits: SvdLimits,
)
    ensures
        merge_fault(progress, x_len, b, p, limits) is None <==> {
            &&& b >= 1 && p >= 1 && x_len == b * p
            &&& p <= limits.max_cols
            &&& progress is None ==> b <= limits.max_rows
            &&& progress is Some ==> progress->0.n_components + b + 1 <= limits.max_rows
        },
        b == 0 || p == 0 || x_len != b * p ==> merge_fault(progress, x_len, b, p, limits) == Some(
            PrimError::ShapeMismatch { operand: "x_batch", rows: b, cols: p, len: x_len },
        ),
{
}

/// A batch that fills its matrix is refused with the size of its stack.
pub proof fn lemma_stack_refusals(
    progress: Option<SvdProgress>,
    x_len: usize,
    b: usize,
    p: usize,
    limits: SvdLimits,
)
    requires
        b >= 1,
        p >= 1,
        x_len == b * p,
    ensures
        (progress is None && (b > limits.max_rows || p > limits.max_cols))
            ==> merge_fault(progress, x_len, b, p, limits) == Some(
            PrimError::ShapeMismatch { operand: "incremental_svd_stack", rows: b, cols: p, len: (b * p) as usize },
        ),
        !(progress is None && (b > limits.max_rows || p > limits.max_cols))
            && (progress is Some && (progress->0.n_components + b + 1 > limits.max_rows || p > limits.max_cols))
            ==> merge_fault(progress, x_len, b, p, limits) == Some(
            PrimError::ShapeMismatch { operand: "incremental_svd_stack", rows: (progress->0.n_components + b + 1) as usize, cols: p, len: ((progress->0.n_components + b + 1) * p) as usize },
        ),
{
}

} // verus!
