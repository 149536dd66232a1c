use mlrs_backend::error::PrimError;
use mlrs_backend::incremental_svd::{
    assemble_stack, merge_plan, merged_state, SvdLimits, SvdProgress,
};
use mlrs_backend::kernel_matrix::{
    host_map_applicable, kernel_matrix_plan, validate_geometry, BaseOp, EntryMap, Kernel, MapPlace,
};
use mlrs_backend::laplacian::laplacian_plan;
use mlrs_backend::mutual_reachability::mutual_reachability_plan;
use mlrs_backend::reduce::{
    arg_cubes, argreduce, column_segments, cube_dim_for, plane_skipped, reduce_segment,
    row_segments, validate_matrix, Finish, Op, Pass, ReducePath, ReducePlan, ScalarOp,
};

fn bits(v: &[f64]) -> Vec<u64> {
    v.iter().map(|x| x.to_bits()).collect()
}

fn shape(operand: &'static str, rows: usize, cols: usize, len: usize) -> PrimError {
    PrimError::ShapeMismatch { operand, rows, cols, len }
}

fn passes(len: usize, op: Op, path: ReducePath, width: u32) -> Vec<Pass> {
    match reduce_segment(len, op, path, true, width) {
        ReducePlan::Passes(v) => v,
        _ => unreachable!(),
    }
}

#[test]
fn reductions_start_with_their_fold() {
    assert_eq!(ScalarOp::Mean.into_op(), Op::Sum);
    assert_eq!(ScalarOp::L2Norm.into_op(), Op::SumSq);
    assert_eq!(ScalarOp::Min.into_op(), Op::Min);
    assert_eq!(ScalarOp::Mean.finish(), Finish::PerEntry);
    assert_eq!(ScalarOp::L2Norm.finish(), Finish::SquareRoot);
    assert_eq!(ScalarOp::SumSq.finish(), Finish::AsIs);
}

#[test]
fn cubes_are_powers_of_two() {
    let dims: Vec<u32> = [0, 1, 2, 3, 200, 256, 257].iter().map(|&n| cube_dim_for(n)).collect();
    assert_eq!(dims, vec![1, 1, 2, 4, 256, 256, 256]);
}

#[test]
fn passes_fold_to_one_value() {
    let pass = |kernel, len, cube, cubes| Pass { kernel, len, cube, cubes };
    assert_eq!(
        passes(1000, Op::SumSq, ReducePath::Shared, 32),
        vec![pass(Op::SumSq, 1000, 256, 4), pass(Op::Sum, 4, 4, 1)]
    );
    assert_eq!(
        passes(1000, Op::Min, ReducePath::Plane, 32),
        vec![pass(Op::Min, 1000, 256, 4), pass(Op::Min, 4, 32, 1)]
    );
    assert_eq!(passes(1, Op::Sum, ReducePath::Shared, 32), vec![pass(Op::Sum, 1, 1, 1)]);
    assert_eq!(passes(u32::MAX as usize, Op::Sum, ReducePath::Shared, 32).len(), 4);
    for len in [2usize, 255, 256, 257, 65_537, 20_000_000] {
        let v = passes(len, Op::SumSq, ReducePath::Shared, 32);
        assert!(v.len() <= 4 && v[v.len() - 1].cubes == 1);
        for w in v.windows(2) {
            assert_eq!(w[0].cubes, w[1].len);
            assert_eq!(w[1].kernel, Op::Sum);
        }
    }
}

#[test]
fn empty_and_unsupported_reductions_launch_nothing() {
    assert!(matches!(
        reduce_segment(0, Op::Sum, ReducePath::Shared, false, 32),
        ReducePlan::Zero
    ));
    assert!(matches!(
        reduce_segment(5, Op::Sum, ReducePath::Plane, false, 32),
        ReducePlan::Skipped
    ));
    assert!(plane_skipped(ReducePath::Plane, false));
    assert!(!plane_skipped(ReducePath::Shared, false));
}

#[test]
fn axes_are_cut_into_rows_and_columns() {
    let x = [1, 2, 3, 4, 5, 6];
    assert_eq!(row_segments(&x, 2, 3), Ok(vec![vec![1, 2, 3], vec![4, 5, 6]]));
    assert_eq!(column_segments(&x, 2, 3), Ok(vec![vec![1, 4], vec![2, 5], vec![3, 6]]));
    assert_eq!(row_segments(&x, 2, 2), Err(shape("input", 2, 2, 6)));
    assert_eq!(validate_matrix(6, 4, 2), Err(shape("input", 4, 2, 6)));
}

#[test]
fn the_first_extreme_wins() {
    assert_eq!(arg_cubes(1000), Some((256, 4)));
    assert_eq!(arg_cubes(1), Some((1, 1)));
    assert_eq!(arg_cubes(0), None);
    assert_eq!(argreduce(&vec![], &vec![], 256, true), 0);
    let vals = bits(&[3.0, 1.0, 1.0, 3.0]);
    let idxs = vec![5, 2, 0, 1];
    assert_eq!(argreduce(&vals, &idxs, 256, true), 258);
    assert_eq!(argreduce(&vals, &idxs, 256, false), 5);
}

#[test]
fn kernels_are_a_base_and_a_map() {
    let plan = |k| kernel_matrix_plan(6, 3, 2, 8, 4, 2, k, None, 4, false).unwrap();
    let p = plan(Kernel::Rbf { gamma: 7 });
    assert_eq!((p.base, p.entries), (BaseOp::SquaredDistance, 12));
    match p.map {
        Some((EntryMap::ExpOfNegated { gamma: 7 }, MapPlace::Device(l))) => {
            assert_eq!(l.grid, (1, 1, 1));
        }
        _ => unreachable!(),
    }
    let p = plan(Kernel::Poly { gamma: 1, degree: 2, coef0: 3 });
    assert_eq!(p.base, BaseOp::Inner);
    assert_eq!(p.map.unwrap().0, EntryMap::Power { gamma: 1, coef0: 3, degree: 2 });
    let p = plan(Kernel::Sigmoid { gamma: 1, coef0: 3 });
    assert_eq!((p.base, p.map.unwrap().0), (BaseOp::Inner, EntryMap::Tanh { gamma: 1, coef0: 3 }));
    let p = plan(Kernel::Laplacian { gamma: 1 });
    assert_eq!(p.base, BaseOp::Manhattan);
    let p = plan(Kernel::Chi2 { gamma: 1 });
    assert_eq!((p.base, p.base_launch.is_some()), (BaseOp::AdditiveChi2, true));
    assert_eq!(p.map.unwrap().0, EntryMap::ExpOf { gamma: 1 });
    for (k, base) in [
        (Kernel::Linear, BaseOp::Inner),
        (Kernel::Cosine, BaseOp::UnitInner),
        (Kernel::AdditiveChi2, BaseOp::AdditiveChi2),
    ] {
        let p = kernel_matrix_plan::<u64>(6, 3, 2, 8, 4, 2, k, Some(12), 8, false).unwrap();
        assert_eq!(p.base, base);
        assert!(p.map.is_none());
    }
}

#[test]
fn maps_run_on_the_host_without_device_functions() {
    assert!(host_map_applicable(8, false));
    assert!(!host_map_applicable(8, true));
    assert!(!host_map_applicable(4, false));
    let p = kernel_matrix_plan(6, 3, 2, 8, 4, 2, Kernel::Rbf { gamma: 1 }, None, 8, false).unwrap();
    assert_eq!(p.map.unwrap().1, MapPlace::Host);
}

#[test]
fn kernel_operands_are_checked_in_order() {
    let v = validate_geometry;
    assert_eq!(v(6, 3, 2, 8, 4, 2, Some(12)), Ok(()));
    assert_eq!(v(5, 3, 2, 8, 4, 2, None), Err(shape("x", 3, 2, 5)));
    assert_eq!(v(6, 3, 2, 9, 4, 2, None), Err(shape("y", 4, 2, 9)));
    assert_eq!(
        v(6, 3, 2, 12, 4, 3, None),
        Err(PrimError::DimMismatch { dim: "n_features", lhs: 2, rhs: 3 })
    );
    assert_eq!(v(0, 0, 2, 8, 4, 2, None), Err(shape("x", 0, 2, 0)));
    assert_eq!(v(6, 3, 2, 8, 4, 2, Some(11)), Err(shape("out", 3, 4, 11)));
}

#[test]
fn laplacians_and_reachability_are_planned() {
    let p = laplacian_plan(900, 30).unwrap();
    assert_eq!((p.entries, p.over_entries.grid, p.over_nodes.grid), (900, (4, 1, 1), (1, 1, 1)));
    assert_eq!(laplacian_plan(0, 0), Err(shape("a", 0, 0, 0)));
    assert_eq!(laplacian_plan(899, 30), Err(shape("a", 30, 30, 899)));
    let (len, launch) = mutual_reachability_plan(600, 20, 20, 30).unwrap();
    assert_eq!((len, launch.block), (600, (16, 16, 1)));
    assert_eq!(mutual_reachability_plan(599, 20, 20, 30), Err(shape("d", 20, 30, 599)));
    assert_eq!(mutual_reachability_plan(600, 19, 20, 30), Err(shape("core", 20, 1, 19)));
    assert_eq!(
        mutual_reachability_plan(0, 0, usize::MAX, 2),
        Err(shape("d", usize::MAX, 2, 0))
    );
}

#[test]
fn batches_are_stacked_under_the_components() {
    let limits = SvdLimits { max_rows: 64, max_cols: 8 };
    let p = merge_plan(None, 10, 5, 2, 3, limits).unwrap();
    assert_eq!((p.known, p.stacked_rows, p.n_total, p.variance_divisor, p.kept), (0, 5, 5, 4, 2));
    let seen = Some(SvdProgress { n_components: 2, n_samples_seen: 5 });
    let p = merge_plan(seen, 2, 1, 2, 2, limits).unwrap();
    assert_eq!((p.known, p.stacked_rows, p.n_total, p.variance_divisor, p.kept), (2, 4, 6, 5, 2));
    let stack = assemble_stack(p, &vec![1, 2, 3, 4], &vec![5, 6], Some(&vec![7, 8]), 1, 2);
    assert_eq!(stack, vec![1, 2, 3, 4, 5, 6, 7, 8]);
    let s = merged_state(
        p,
        2,
        &vec![1, 2, 3, 4, 5, 6],
        &vec![9, 8, 7],
        &vec![6, 5, 4],
        &vec![3, 2, 1],
        &vec![0, 1],
        &vec![2, 3],
    );
    assert_eq!(s.components_, vec![1, 2, 3, 4]);
    assert_eq!(s.singular_values_, vec![9, 8]);
    assert_eq!((s.n_samples_seen_, s.n_components, s.n_features), (6, 2, 2));
    assert_eq!(merge_plan(None, 9, 5, 2, 3, limits), Err(shape("x_batch", 5, 2, 9)));
    assert_eq!(
        merge_plan(None, 130, 65, 2, 3, limits),
        Err(shape("incremental_svd_stack", 65, 2, 130))
    );
    assert_eq!(
        merge_plan(seen, 9, 1, 9, 3, limits),
        Err(shape("incremental_svd_stack", 4, 9, 36))
    );
}
