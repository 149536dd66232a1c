//! A fitted forest: complete trees side by side, one entry per node.

use crate::arith::{product_is, two_pow};
use crate::error::{first_fault, shape_error, shape_mismatch, u32_fault, verdict, PrimError};
use crate::launch::{folded_dims, launch_dims_1d_folded, LaunchDims, PERF_TUNED_BLOCK};
use crate::random_forest::plan::fits_u32;
use crate::seqs::copy_vec;
use vstd::arithmetic::power2::pow2;
use vstd::prelude::*;

verus! {

/// A forest of complete trees. Node `i` of a tree has the children `2 * i + 1`
/// and `2 * i + 2`; a tree's nodes follow those of the tree before it.
pub struct RfModel<F> {
    split_feature: Vec<u32>,
    threshold: Vec<F>,
    is_leaf: Vec<u32>,
    leaf_dist: Vec<F>,
    node_decrease: Vec<F>,
    n_trees: usize,
    max_depth: usize,
    total_nodes: usize,
    n_features: usize,
    n_values: usize,
}

/// What a forest holds.
pub struct RfModelView<F> {
    pub split_feature: Seq<u32>,
    pub threshold: Seq<F>,
    pub is_leaf: Seq<u32>,
    pub leaf_dist: Seq<F>,
    pub node_decrease: Seq<F>,
    pub n_trees: nat,
    pub max_depth: nat,
    pub n_features: nat,
    pub n_values: nat,
}

impl<F> RfModelView<F> {
    /// Nodes of one complete tree.
    pub open spec fn total_nodes(self) -> int {
        pow2(self.max_depth + 1) - 1
    }

    /// Every array has one entry per node, or one per leaf value.
    pub open spec fn well_formed(self) -> bool {
        let tn = self.n_trees * self.total_nodes();
        &&& self.split_feature.len() == tn
        &&& self.threshold.len() == tn
        &&& self.is_leaf.len() == tn
        &&& self.leaf_dist.len() == tn * self.n_values
        &&& self.node_decrease.len() == tn
        &&& tn <= u32::MAX
    }
}

/// The fault of an array whose length is not `expect`.
pub open spec fn array_fault(
    operand: &'static str,
    n_trees: usize,
    total_nodes: usize,
    len: int,
    expect: int,
) -> Option<PrimError> {
    if len != expect {
        Some(shape_error(operand, n_trees, total_nodes, len as usize))
    } else {
        None
    }
}

/// Why arrays of these lengths are no forest.
pub open spec fn parts_fault(
    split_feature: int,
    threshold: int,
    is_leaf: int,
    leaf_dist: int,
    n_trees: usize,
    max_depth: usize,
    n_values: usize,
) -> Option<PrimError> {
    let total_nodes = (pow2((max_depth + 1) as nat) - 1) as usize;
    let tn = n_trees * total_nodes;
    first_fault(
        array_fault("split_feature", n_trees, total_nodes, split_feature, tn),
        first_fault(
            array_fault("threshold", n_trees, total_nodes, threshold, tn),
            first_fault(
                array_fault("is_leaf", n_trees, total_nodes, is_leaf, tn),
                first_fault(
                    array_fault("leaf_dist", n_trees, total_nodes, leaf_dist, tn * n_values),
                    u32_fault("total_nodes", tn as usize),
                ),
            ),
        ),
    )
}

/// The inner nodes among the `m` from `base` on, each with its place and its
/// split feature.
pub open spec fn inner_nodes(
    is_leaf: Seq<u32>,
    split_feature: Seq<u32>,
    base: int,
    m: nat,
) -> Seq<(usize, u32)>
    decreases m,
{
    if m == 0 {
        Seq::empty()
    } else {
        let before = inner_nodes(is_leaf, split_feature, base, (m - 1) as nat);
        let i = base + m - 1;
        if is_leaf[i] == 0 {
            before.push((i as usize, split_feature[i]))
        } else {
            before
        }
    }
}

/// What a fit gives: the forest, the importance of each feature, and the
/// out-of-bag score, if asked for.
pub struct RfFitOutcome<F> {
    pub model: RfModel<F>,
    pub feature_importances: Vec<F>,
    pub oob_score: Option<F>,
}

impl<F: Copy> RfModel<F> {
    /// What the forest holds.
    pub closed spec fn model(self) -> RfModelView<F> {
        RfModelView {
            split_feature: self.split_feature@,
            threshold: self.threshold@,
            is_leaf: self.is_leaf@,
            leaf_dist: self.leaf_dist@,
            node_decrease: self.node_decrease@,
            n_trees: self.n_trees as nat,
            max_depth: self.max_depth as nat,
            n_features: self.n_features as nat,
            n_values: self.n_values as nat,
        }
    }

    /// The invariant of a forest.
    pub closed spec fn wf(self) -> bool {
        &&& self.model().well_formed()
        &&& self.total_nodes == self.model().total_nodes()
    }

    /// A forest has as many entries as its trees have nodes.
    pub proof fn lemma_well_formed(self)
        requires
            self.wf(),
        ensures
            self.model().well_formed(),
    {
    }

    /// Assembles a forest from complete-layout arrays. `zero` fills the impurity
    /// decreases, which only a fit produces.
    pub fn from_parts(
        split_feature: Vec<u32>,
        threshold: Vec<F>,
        is_leaf: Vec<u32>,
        leaf_dist: Vec<F>,
        zero: F,
        n_trees: usize,
        max_depth: usize,
        n_features: usize,
        n_values: usize,
    ) -> (r: Result<RfModel<F>, PrimError>)
        requires
            max_depth < usize::MAX,
            pow2((max_depth + 1) as nat) <= usize::MAX,
        ensures
            match parts_fault(
                split_feature@.len() as int,
                threshold@.len() as int,
                is_leaf@.len() as int,
                leaf_dist@.len() as int,
                n_trees,
                max_depth,
                n_values,
            ) {
                Some(e) => r == Err::<RfModel<F>, PrimError>(e),
                None => r matches Ok(m) && m.wf() && m.model() == (RfModelView {
                    split_feature: split_feature@,
                    threshold: threshold@,
                    is_leaf: is_leaf@,
                    leaf_dist: leaf_dist@,
                    node_decrease: Seq::new(split_feature@.len(), |i: int| zero),
                    n_trees: n_trees as nat,
                    max_depth: max_depth as nat,
                    n_features: n_features as nat,
                    n_values: n_values as nat,
                }),
            },
    {
        proof {
            vstd::arithmetic::power2::lemma_pow2_pos((max_depth + 1) as nat);
        }
        let total_nodes: usize = two_pow(max_depth + 1) - 1;
        let tn: usize = split_feature.len();
        if !product_is(n_trees, total_nodes, tn) {
            return Err(
                shape_mismatch("split_feature", n_trees, total_nodes, split_feature.len()),
            );
        }
        if threshold.len() != tn {
            return Err(shape_mismatch("threshold", n_trees, total_nodes, threshold.len()));
        }
        if is_leaf.len() != tn {
            return Err(shape_mismatch("is_leaf", n_trees, total_nodes, is_leaf.len()));
        }
        if !product_is(tn, n_values, leaf_dist.len()) {
            return Err(shape_mismatch("leaf_dist", n_trees, total_nodes, leaf_dist.len()));
        }
        match fits_u32(tn, "total_nodes") {
            Err(e) => {
                return Err(e);
            },
            Ok(_) => {},
        }
        let mut node_decrease: Vec<F> = Vec::new();
        let mut i: usize = 0;
        while i < tn
            invariant
                i <= tn,
                node_decrease@ == Seq::new(i as nat, |k: int| zero),
            decreases tn - i,
        {
            node_decrease.push(zero);
            i = i + 1;
            assert(node_decrease@ =~= Seq::new(i as nat, |k: int| zero));
        }
        let m: RfModel<F> = RfModel {
            split_feature,
            threshold,
            is_leaf,
            leaf_dist,
            node_decrease,
            n_trees,
            max_depth,
            total_nodes,
            n_features,
            n_values,
        };
        Ok(m)
    }

    /// A forest out of the arrays that a fit produced.
    pub fn fitted(
        split_feature: Vec<u32>,
        threshold: Vec<F>,
        is_leaf: Vec<u32>,
        leaf_dist: Vec<F>,
        node_decrease: Vec<F>,
        n_trees: usize,
        max_depth: usize,
        n_features: usize,
        n_values: usize,
    ) -> (r: RfModel<F>)
        requires
            max_depth < usize::MAX,
            pow2((max_depth + 1) as nat) <= usize::MAX,
            (RfModelView {
                split_feature: split_feature@,
                threshold: threshold@,
                is_leaf: is_leaf@,
                leaf_dist: leaf_dist@,
                node_decrease: node_decrease@,
                n_trees: n_trees as nat,
                max_depth: max_depth as nat,
                n_features: n_features as nat,
                n_values: n_values as nat,
            }).well_formed(),
        ensures
            r.wf(),
            r.model() == (RfModelView {
                split_feature: split_feature@,
                threshold: threshold@,
                is_leaf: is_leaf@,
                leaf_dist: leaf_dist@,
                node_decrease: node_decrease@,
                n_trees: n_trees as nat,
                max_depth: max_depth as nat,
                n_features: n_features as nat,
                n_values: n_values as nat,
            }),
    {
        proof {
            vstd::arithmetic::power2::lemma_pow2_pos((max_depth + 1) as nat);
        }
        RfModel {
            split_feature,
            threshold,
            is_leaf,
            leaf_dist,
            node_decrease,
            n_trees,
            max_depth,
            total_nodes: two_pow(max_depth + 1) - 1,
            n_features,
            n_values,
        }
    }

    /// The inner nodes of a tree, ascending, each with its place in the arrays
    /// and its split feature: what the importances of the tree are summed over.
    pub fn split_nodes(&self, tree: usize) -> (r: Vec<(usize, u32)>)
        requires
            self.wf(),
            tree < self.model().n_trees,
        ensures
            r@ == inner_nodes(
                self.model().is_leaf,
                self.model().split_feature,
                tree * self.model().total_nodes(),
                self.model().total_nodes() as nat,
            ),
    {
        let len: usize = self.is_leaf.len();
        assert(0 <= tree * self.total_nodes && tree * self.total_nodes + self.total_nodes <= len)
            by (nonlinear_arith)
            requires
                tree < self.n_trees,
                len == self.n_trees * self.total_nodes,
        ;
        let base: usize = tree * self.total_nodes;
        let mut out: Vec<(usize, u32)> = Vec::new();
        let mut node: usize = 0;
        while node < self.total_nodes
            invariant
                node <= self.total_nodes,
                base + self.total_nodes <= len,
                len == self.is_leaf.len(),
                len == self.split_feature.len(),
                out@ == inner_nodes(
                    self.is_leaf@,
                    self.split_feature@,
                    base as int,
                    node as nat,
                ),
            decreases self.total_nodes - node,
        {
            if self.is_leaf[base + node] == 0 {
                out.push((base + node, self.split_feature[base + node]));
            }
            node = node + 1;
        }
        out
    }

    /// Number of trees.
    pub fn n_trees(&self) -> (r: usize)
        ensures
            r == self.model().n_trees,
    {
        self.n_trees
    }

    /// Depth of the trees.
    pub fn max_depth(&self) -> (r: usize)
        ensures
            r == self.model().max_depth,
    {
        self.max_depth
    }

    /// Features that the forest was fitted on.
    pub fn n_features(&self) -> (r: usize)
        ensures
            r == self.model().n_features,
    {
        self.n_features
    }

    /// Values per leaf: one per class, or one.
    pub fn n_values(&self) -> (r: usize)
        ensures
            r == self.model().n_values,
    {
        self.n_values
    }

    /// Nodes of one complete tree.
    pub fn total_nodes(&self) -> (r: usize)
        requires
            self.wf(),
        ensures
            r == self.model().total_nodes(),
    {
        self.total_nodes
    }

    /// The leaf flags.
    pub fn is_leaf_host(&self) -> (r: Vec<u32>)
        ensures
            r@ == self.model().is_leaf,
    {
        copy_vec(&self.is_leaf)
    }

    /// The split features.
    pub fn split_feature_host(&self) -> (r: Vec<u32>)
        ensures
            r@ == self.model().split_feature,
    {
        copy_vec(&self.split_feature)
    }

    /// The split thresholds.
    pub fn threshold_host(&self) -> (r: Vec<F>)
        ensures
            r@ == self.model().threshold,
    {
        copy_vec(&self.threshold)
    }

    /// The leaf values.
    pub fn leaf_dist_host(&self) -> (r: Vec<F>)
        ensures
            r@ == self.model().leaf_dist,
    {
        copy_vec(&self.leaf_dist)
    }

    /// The impurity decreases.
    pub fn node_decrease_host(&self) -> (r: Vec<F>)
        ensures
            r@ == self.model().node_decrease,
    {
        copy_vec(&self.node_decrease)
    }
}

/// Why a query of `q` rows of `d` features does not suit a forest.
pub open spec fn query_fault<F>(
    m: RfModelView<F>,
    xq_len: usize,
    q: usize,
    d: usize,
) -> Option<PrimError> {
    if q == 0 || d == 0 || xq_len != q * d {
        Some(shape_error("xq", q, d, xq_len))
    } else if d != m.n_features {
        Some(
            PrimError::DimMismatch { dim: "n_features", lhs: m.n_features as usize, rhs: d },
        )
    } else {
        None
    }
}

/// Why a prediction over `q` rows of `d` features is refused.
pub open spec fn predict_fault<F>(
    m: RfModelView<F>,
    xq_len: usize,
    q: usize,
    d: usize,
) -> Option<PrimError> {
    first_fault(
        query_fault(m, xq_len, q, d),
        u32_fault("n_trees*q", (m.n_trees * q) as usize),
    )
}

/// Refuses a prediction for its geometry.
pub fn validate_predict<F: Copy>(model: &RfModel<F>, xq_len: usize, q: usize, d: usize) -> (r:
    Result<(), PrimError>)
    requires
        query_fault(model.model(), xq_len, q, d) is None ==> model.model().n_trees * q
            <= usize::MAX,
    ensures
        r == verdict(predict_fault(model.model(), xq_len, q, d)),
{
    if q == 0 || d == 0 || !product_is(q, d, xq_len) {
        return Err(shape_mismatch("xq", q, d, xq_len));
    }
    if d != model.n_features() {
        return Err(
            PrimError::DimMismatch { dim: "n_features", lhs: model.n_features(), rhs: d },
        );
    }
    match fits_u32(model.n_trees() * q, "n_trees*q") {
        Err(e) => Err(e),
        Ok(_) => Ok(()),
    }
}

/// How a prediction is launched: one unit per tree and row to find the leaves,
/// one per row to combine them.
#[derive(Debug, Clone, Copy, PartialEq, Eq)]
pub struct PredictPlan {
    pub leaf_len: usize,
    pub leaf_launch: LaunchDims,
    pub vote_launch: LaunchDims,
    pub out_len: usize,
}

/// What a prediction plan says.
pub open spec fn predict_plan_matches<F>(m: RfModelView<F>, q: usize, p: PredictPlan) -> bool {
    &&& p.leaf_len == m.n_trees * q
    &&& p.leaf_launch == folded_dims(m.n_trees * q, PERF_TUNED_BLOCK)
    &&& p.vote_launch == folded_dims((q as u32) as int, PERF_TUNED_BLOCK)
    &&& p.out_len == q * m.n_values
}

fn predict_plan<F: Copy>(model: &RfModel<F>, q: usize) -> (p: PredictPlan)
    requires
        model.model().n_trees * q <= u32::MAX,
        q * model.model().n_values <= usize::MAX,
    ensures
        predict_plan_matches(model.model(), q, p),
{
    let leaf_len: usize = model.n_trees() * q;
    PredictPlan {
        leaf_len,
        leaf_launch: launch_dims_1d_folded(leaf_len, PERF_TUNED_BLOCK),
        vote_launch: launch_dims_1d_folded(q, PERF_TUNED_BLOCK),
        out_len: q * model.n_values(),
    }
}

/// Plans class probabilities for `q` rows: refused for a forest with fewer than
/// two values per leaf.
pub fn rf_predict_proba_plan<F: Copy>(model: &RfModel<F>, xq_len: usize, q: usize, d: usize) -> (r:
    Result<PredictPlan, PrimError>)
    requires
        query_fault(model.model(), xq_len, q, d) is None ==> model.model().n_trees * q
            <= usize::MAX,
        predict_fault(model.model(), xq_len, q, d) is None ==> q * model.model().n_values
            <= usize::MAX,
    ensures
        match predict_fault(model.model(), xq_len, q, d) {
            Some(e) => r == Err::<PredictPlan, PrimError>(e),
            None => if model.model().n_values < 2 {
                r == Err::<PredictPlan, PrimError>(
                    PrimError::DimMismatch {
                        dim: "n_values",
                        lhs: model.model().n_values as usize,
                        rhs: 2,
                    },
                )
            } else {
                r matches Ok(p) && predict_plan_matches(model.model(), q, p)
            },
        },
{
    match validate_predict(model, xq_len, q, d) {
        Err(e) => {
            return Err(e);
        },
        Ok(()) => {},
    }
    if model.n_values() < 2 {
        return Err(PrimError::DimMismatch { dim: "n_values", lhs: model.n_values(), rhs: 2 });
    }
    Ok(predict_plan(model, q))
}

/// Plans mean predictions for `q` rows: refused for a forest with other than
/// one value per leaf.
pub fn rf_predict_reg_plan<F: Copy>(model: &RfModel<F>, xq_len: usize, q: usize, d: usize) -> (r:
    Result<PredictPlan, PrimError>)
    requires
        query_fault(model.model(), xq_len, q, d) is None ==> model.model().n_trees * q
            <= usize::MAX,
        predict_fault(model.model(), xq_len, q, d) is None ==> q * model.model().n_values
            <= usize::MAX,
    ensures
        match predict_fault(model.model(), xq_len, q, d) {
            Some(e) => r == Err::<PredictPlan, PrimError>(e),
            None => if model.model().n_values != 1 {
                r == Err::<PredictPlan, PrimError>(
                    PrimError::DimMismatch {
                        dim: "n_values",
                        lhs: model.model().n_values as usize,
                        rhs: 1,
                    },
                )
            } else {
                r matches Ok(p) && predict_plan_matches(model.model(), q, p)
            },
        },
{
    match validate_predict(model, xq_len, q, d) {
        Err(e) => {
            return Err(e);
        },
        Ok(()) => {},
    }
    if model.n_values() != 1 {
        return Err(PrimError::DimMismatch { dim: "n_values", lhs: model.n_values(), rhs: 1 });
    }
    Ok(predict_plan(model, q))
}

/// The split nodes of a tree are exactly its nodes that are no leaves, each once
/// and ascending, with their own split features.
pub proof fn lemma_inner_nodes_exact(
    is_leaf: Seq<u32>,
    split_feature: Seq<u32>,
    base: int,
    m: nat,
    i: int,
)
    requires
        0 <= base <= i < base + m <= usize::MAX,
    ensures
        ({
            let nodes = inner_nodes(is_leaf, split_feature, base, m);
            &&& nodes.contains((i as usize, split_feature[i])) <==> is_leaf[i] == 0
            &&& forall|a: int, b: int|
                0 <= a < b < nodes.len() ==> (#[trigger] nodes[a]).0 < (#[trigger] nodes[b]).0
            &&& forall|a: int|
                0 <= a < nodes.len() ==> base <= (#[trigger] nodes[a]).0 < base + m && nodes[a].1
                    == split_feature[nodes[a].0 as int] && is_leaf[nodes[a].0 as int] == 0
        }),
    decreases m,
{
    let nodes = inner_nodes(is_leaf, split_feature, base, m);
    let before = inner_nodes(is_leaf, split_feature, base, (m - 1) as nat);
    let last = base + m - 1;
    if m > 1 {
        lemma_inner_nodes_exact(
            is_leaf,
            split_feature,
            base,
            (m - 1) as nat,
            if i < last {
                i
            } else {
                base
            },
        );
    } else {
        assert(before =~= Seq::empty());
    }
    if is_leaf[last] == 0 {
        assert(nodes[before.len() as int] == (last as usize, split_feature[last]));
    }
    if i < last {
        if before.contains((i as usize, split_feature[i])) {
            let p = choose|p: int|
                0 <= p < before.len() && before[p] == (i as usize, split_feature[i]);
            assert(nodes[p] == (i as usize, split_feature[i]));
        }
        if nodes.contains((i as usize, split_feature[i])) {
            let p = choose|p: int|
                0 <= p < nodes.len() && nodes[p] == (i as usize, split_feature[i]);
            if p < before.len() {
                assert(before[p] == nodes[p]);
            }
        }
    } else if nodes.contains((i as usize, split_feature[i])) {
        let p = choose|p: int| 0 <= p < nodes.len() && nodes[p] == (i as usize, split_feature[i]);
        if p < before.len() {
            assert(before[p].0 < last);
        }
    }
}

/// A complete tree has room for the children of every node above its last level,
/// and no more nodes than these and the root: twice as many as end before the
/// last level, and one.
pub proof fn lemma_complete_tree<F>(m: RfModelView<F>, i: int)
    ensures
        m.total_nodes() == 2 * (pow2(m.max_depth) - 1) + 1,
        0 <= i < pow2(m.max_depth) - 1 ==> i < 2 * i + 1 < 2 * i + 2 < m.total_nodes(),
        m.max_depth == 0 ==> m.total_nodes() == 1,
{
    vstd::arithmetic::power2::lemma_pow2_unfold(m.max_depth + 1);
    vstd::arithmetic::power2::lemma2_to64();
}

/// Arrays are a forest exactly where there is an entry for every node of every
/// tree, and a value for every node and leaf value, as long as 32 bits can count
/// the nodes.
pub proof fn lemma_parts_accepted(
    split_feature: int,
    threshold: int,
    is_leaf: int,
    leaf_dist: int,
    n_trees: usize,
    max_depth: usize,
    n_values: usize,
)
    requires
        pow2((max_depth + 1) as nat) <= usize::MAX,
        n_trees * (pow2((max_depth + 1) as nat) - 1) <= usize::MAX,
    ensures
        parts_fault(
            split_feature,
            threshold,
            is_leaf,
            leaf_dist,
            n_trees,
            max_depth,
            n_values,
        ) is None <==> {
            let nodes = n_trees * (pow2((max_depth + 1) as nat) - 1);
            &&& split_feature == nodes && threshold == nodes && is_leaf == nodes
            &&& leaf_dist == nodes * n_values
            &&& nodes <= u32::MAX
        },
{
    vstd::arithmetic::power2::lemma_pow2_pos((max_depth + 1) as nat);
    let t = pow2((max_depth + 1) as nat) - 1;
    assert(n_trees * t >= 0) by (nonlinear_arith)
        requires
            t >= 0,
    ;
}

/// A query suits a forest exactly where it has rows and features, is full, and
/// has as many features as the forest was fitted on; a prediction also needs an
/// index for each tree and row.
pub proof fn lemma_query_accepted<F>(m: RfModelView<F>, xq_len: usize, q: usize, d: usize)
    requires
        m.n_trees * q <= usize::MAX,
    ensures
        query_fault(m, xq_len, q, d) is None <==> {
            &&& q >= 1 && d >= 1 && xq_len == q * d
            &&& d == m.n_features
        },
        predict_fault(m, xq_len, q, d) is None <==> query_fault(m, xq_len, q, d) is None
            && m.n_trees * q <= u32::MAX,
{
}

/// A planned prediction has a unit for every tree and row, one for every row that
/// is voted on, and a value of each kind for every row.
pub proof fn lemma_prediction_covers<F>(m: RfModelView<F>, q: usize, p: PredictPlan)
    requires
        predict_plan_matches(m, q, p),
        m.n_trees * q <= u32::MAX,
        q <= u32::MAX,
    ensures
        p.leaf_len == m.n_trees * q,
        p.leaf_launch.cubes() * p.leaf_launch.block.0 >= m.n_trees * q,
        p.vote_launch.cubes() * p.vote_launch.block.0 >= q,
        p.out_len == q * m.n_values,
{
    assert(m.n_trees * q >= 0) by (nonlinear_arith)
        requires
            m.n_trees >= 0,
            q >= 0,
    ;
    crate::launch::lemma_launch_covers((m.n_trees * q) as int, PERF_TUNED_BLOCK);
    crate::launch::lemma_launch_covers(q as int, PERF_TUNED_BLOCK);
}

/// A refused query names itself before the features that differ, and a prediction then
/// the number of trees and rows.
pub proof fn lemma_query_refusals<F>(
    m: RfModelView<F>,
    xq_len: usize,
    q: usize,
    d: usize,
)
    requires
        m.n_trees * q <= usize::MAX,
    ensures
        (q == 0 || d == 0 || xq_len != q * d) ==> predict_fault(m, xq_len, q, d) == Some(
            PrimError::ShapeMismatch { operand: "xq", rows: q, cols: d, len: xq_len },
        ),
        !(q == 0 || d == 0 || xq_len != q * d) && d != m.n_features
            ==> predict_fault(m, xq_len, q, d) == Some(
            PrimError::DimMismatch { dim: "n_features", lhs: m.n_features as usize, rhs: d },
        ),
        !(q == 0 || d == 0 || xq_len != q * d) && d == m.n_features && m.n_trees * q > u32::MAX
            ==> predict_fault(m, xq_len, q, d) == Some(
            PrimError::ShapeMismatch { operand: "n_trees*q", rows: (m.n_trees * q) as usize, cols: 0, len: 0xFFFF_FFFF },
        ),
{
}

/// Arrays that are no forest are refused with the first of wrong length, beside the
/// trees and the nodes of each.
pub proof fn lemma_part_refusals(
    split_feature: int,
    threshold: int,
    is_leaf: int,
    leaf_dist: int,
    n_trees: usize,
    max_depth: usize,
    n_values: usize,
)
    requires
        1 <= pow2((max_depth + 1) as nat) <= usize::MAX,
    ensures
        split_feature != n_trees * (pow2((max_depth + 1) as nat) - 1)
            ==> parts_fault(split_feature, threshold, is_leaf, leaf_dist, n_trees, max_depth, n_values) == Some(
            PrimError::ShapeMismatch { operand: "split_feature", rows: n_trees, cols: (pow2((max_depth + 1) as nat) - 1) as usize, len: split_feature as usize },
        ),
        split_feature == n_trees * (pow2((max_depth + 1) as nat) - 1)
            && threshold != n_trees * (pow2((max_depth + 1) as nat) - 1)
            ==> parts_fault(split_feature, threshold, is_leaf, leaf_dist, n_trees, max_depth, n_values) == Some(
            PrimError::ShapeMismatch { operand: "threshold", rows: n_trees, cols: (pow2((max_depth + 1) as nat) - 1) as usize, len: threshold as usize },
        ),
        split_feature == n_trees * (pow2((max_depth + 1) as nat) - 1)
            && threshold == n_trees * (pow2((max_depth + 1) as nat) - 1)
            && is_leaf != n_trees * (pow2((max_depth + 1) as nat) - 1)
            ==> parts_fault(split_feature, threshold, is_leaf, leaf_dist, n_trees, max_depth, n_values) == Some(
            PrimError::ShapeMismatch { operand: "is_leaf", rows: n_trees, cols: (pow2((max_depth + 1) as nat) - 1) as usize, len: is_leaf as usize },
        ),
        split_feature == n_trees * (pow2((max_depth + 1) as nat) - 1)
            && threshold == n_trees * (pow2((max_depth + 1) as nat) - 1)
            && is_leaf == n_trees * (pow2((max_depth + 1) as nat) - 1)
            && leaf_dist != n_trees * (pow2((max_depth + 1) as nat) - 1) * n_values
            ==> parts_fault(split_feature, threshold, is_leaf, leaf_dist, n_trees, max_depth, n_values) == Some(
            PrimError::ShapeMismatch { operand: "leaf_dist", rows: n_trees, cols: (pow2((max_depth + 1) as nat) - 1) as usize, len: leaf_dist as usize },
        ),
{
}

} // verus!
