use mlrs_backend::backend::Backend;
use mlrs_backend::error::PrimError;
use mlrs_backend::knn::{
    cpu_rows_applicable, cpu_rows_launch_dims, cpu_rows_topk_plan, cpu_rows_vec_selected,
    device_copy_plan, direct_selected, dot_fused_selected, dot_variant_selected,
    fused_distance_topk_plan, fused_topk_applicable, fused_topk_forced_off,
    knn_regress_mean_gather_plan, merge_launch_dims, pick_strips, CopyPlan, DotVariant,
    FusedKernel, RowScanKernel, RowScanLimits, FUSED_MAX_QUERY,
};
use mlrs_backend::knn_host::{
    block_rows, host_units, knn_host_applicable, lane_form, minkowski_powi, nearest_of,
    offer_block, stage_tile, validate_search, worker_blocks, LaneForm, Metric, NearestList,
};

const LIMITS: RowScanLimits =
    RowScanLimits { k_cap: 64, max_cols: 128, query_tile: 8, query_tile_wide: 16 };

fn shape(operand: &'static str, rows: usize, cols: usize, len: usize) -> PrimError {
    PrimError::ShapeMismatch { operand, rows, cols, len }
}

fn bits(v: &[f64]) -> Vec<u64> {
    v.iter().map(|x| x.to_bits()).collect()
}

#[test]
fn neighbour_means_are_checked_before_launch() {
    assert_eq!(knn_regress_mean_gather_plan(9, 6, 3, 2, 9, 256).unwrap().grid, (1, 1, 1));
    assert_eq!(knn_regress_mean_gather_plan(9, 6, 3, 0, 9, 256), Err(shape("k", 3, 0, 6)));
    assert_eq!(knn_regress_mean_gather_plan(9, 5, 3, 2, 9, 256), Err(shape("idx", 3, 2, 5)));
    assert_eq!(
        knn_regress_mean_gather_plan(8, 6, 3, 2, 9, 256),
        Err(shape("y_train", 9, 1, 8))
    );
}

#[test]
fn copies_are_chunked_on_the_cpu_backend() {
    match device_copy_plan(1000, true, 12, 256) {
        CopyPlan::Spans(l) => assert_eq!((l.grid, l.block), ((1, 1, 1), (12, 1, 1))),
        CopyPlan::PerElement(_) => unreachable!(),
    }
    match device_copy_plan(1000, false, 12, 256) {
        CopyPlan::PerElement(l) => assert_eq!(l.grid, (4, 1, 1)),
        CopyPlan::Spans(_) => unreachable!(),
    }
}

#[test]
fn the_row_scan_serves_only_what_its_limits_hold() {
    assert!(cpu_rows_applicable(1, 100, 128, 64, LIMITS, true, None));
    assert!(!cpu_rows_applicable(1, 100, 129, 64, LIMITS, true, None));
    assert!(!cpu_rows_applicable(1, 100, 128, 65, LIMITS, true, None));
    assert!(!cpu_rows_applicable(1, 10, 128, 11, LIMITS, true, None));
    assert!(!cpu_rows_applicable(0, 100, 128, 64, LIMITS, true, None));
    assert!(!cpu_rows_applicable(1, 100, 128, 64, LIMITS, false, Some("1")));
    assert!(!cpu_rows_applicable(1, 100, 128, 64, LIMITS, true, Some("0")));
    assert!(cpu_rows_applicable(1, 100, 128, 64, LIMITS, true, Some("no")));
    assert!(cpu_rows_vec_selected(None));
    assert!(!cpu_rows_vec_selected(Some("0")));
}

#[test]
fn direct_sums_are_the_row_scan_default() {
    assert!(direct_selected(None, None));
    assert!(!direct_selected(None, Some("1")));
    assert!(direct_selected(Some("1"), Some("1")));
    assert!(dot_fused_selected(None, None));
    assert!(!dot_fused_selected(None, Some("1")));
    assert!(dot_fused_selected(Some("1"), Some("1")));
}

#[test]
fn row_scan_launches_reach_every_query() {
    let l = cpu_rows_launch_dims(1000, 16, 8);
    assert_eq!((l.grid, l.block), ((8, 1, 1), (8, 1, 1)));
    assert!(l.grid.0 as usize * 8 * 16 >= 1000);
    assert_eq!(cpu_rows_launch_dims(0, 16, 8).grid, (1, 1, 1));
}

#[test]
fn row_scan_plans_follow_the_flags() {
    let p = cpu_rows_topk_plan(20, 10, 2, 40, 20, 3, true, LIMITS, 4, 32, None, None, None)
        .unwrap();
    assert_eq!((p.kernel, p.out_len), (RowScanKernel::Direct, 30));
    assert!(p.norms.is_none() && p.roots.is_some());
    assert_eq!(p.launch.grid, (1, 1, 1));
    let p = cpu_rows_topk_plan(
        20, 10, 2, 40, 20, 3, false, LIMITS, 4, 32, None, Some("1"), Some("0"),
    )
    .unwrap();
    assert_eq!(p.kernel, RowScanKernel::ExpandedScalar);
    assert!(p.norms.is_some() && p.roots.is_none());
    let fail = |xq, nq, d, tr, nt, k| {
        cpu_rows_topk_plan(xq, nq, d, tr, nt, k, false, LIMITS, 4, 32, None, None, None)
    };
    assert_eq!(fail(21, 10, 2, 40, 20, 3), Err(shape("x", 10, 2, 21)));
    assert_eq!(fail(20, 10, 2, 41, 20, 3), Err(shape("y", 20, 2, 41)));
    assert_eq!(fail(20, 10, 2, 40, 20, 21), Err(shape("k", 1, 21, 20)));
    assert_eq!(fail(1300, 10, 130, 2600, 20, 3), Err(shape("features", 130, 0, 128)));
}

#[test]
fn the_fused_search_needs_a_large_query_and_shared_memory() {
    let ok = |nq, nt, k, es, cpu, sm, f| fused_topk_applicable(nq, nt, k, es, cpu, sm, f);
    assert!(ok(4096, 1000, 16, 4, false, 16_384, None));
    assert!(!ok(4095, 1000, 16, 4, false, 16_384, None));
    assert!(!ok(4096, 1000, 17, 4, false, 16_384, None));
    assert!(!ok(4096, 15, 16, 4, false, 16_384, None));
    assert!(!ok(4096, 1000, 16, 8, false, 16_384, None));
    assert!(!ok(4096, 1000, 16, 4, true, 1 << 40, None));
    assert!(!ok(4096, 1000, 16, 4, false, 16_384, Some("1")));
    assert!(ok(FUSED_MAX_QUERY, 1 << 24, 1, 4, false, 16_384, Some("0")));
    assert!(!ok(FUSED_MAX_QUERY + 1, 1 << 24, 1, 4, false, 16_384, None));
    assert!(!ok(4096, (1 << 24) + 1, 1, 4, false, 16_384, None));
    assert!(ok(4096, (1 << 24) + 1, 1, 8, false, 32_768, None));
    assert!(fused_topk_forced_off(Some("1")));
}

#[test]
fn register_tiles_follow_backend_and_flags() {
    let v = dot_variant_selected;
    assert_eq!(v(32, Backend::Cuda, None, None), DotVariant::Vec8);
    assert_eq!(v(16, Backend::Cuda, None, None), DotVariant::Vec4);
    assert_eq!(v(16, Backend::Wgpu, None, None), DotVariant::Vec8);
    assert_eq!(v(32, Backend::Cpu, None, None), DotVariant::Scalar);
    assert_eq!(v(32, Backend::Rocm, Some("0"), None), DotVariant::Vec4);
    assert_eq!(v(32, Backend::Rocm, Some("0"), Some("0")), DotVariant::Scalar);
    assert_eq!(v(32, Backend::Other, Some("1"), Some("0")), DotVariant::Vec8);
    assert_eq!(v(8, Backend::Other, None, Some("1")), DotVariant::Vec4);
    assert_eq!(v(8, Backend::Wgpu, None, Some("0")), DotVariant::Vec8);
}

#[test]
fn strips_hold_every_training_row() {
    assert_eq!(pick_strips(1000, None), (1, 1024));
    assert_eq!(pick_strips(1000, Some("4")), (4, 256));
    assert_eq!(pick_strips(100, Some("4")), (1, 128));
    assert_eq!(pick_strips(1000, Some("zero")), (1, 1024));
    assert_eq!(pick_strips(1_000_000, Some("1000")).0, 64);
    // Four strips of 192 rows would leave the last one short.
    assert_eq!(pick_strips(600, Some("4")), (3, 256));
    for n in 1usize..700 {
        for s in ["1", "2", "3", "5", "8"] {
            let (strips, len) = pick_strips(n, Some(s));
            assert!(strips * len >= n && (strips - 1) * len < n);
            assert!(strips == 1 || n - (strips - 1) * len >= 64);
        }
    }
}

#[test]
fn merges_use_a_power_of_two_width() {
    assert_eq!(merge_launch_dims(7, 100).block, (64, 1, 1));
    assert_eq!(merge_launch_dims(7, 100).grid, (7, 1, 1));
    assert_eq!(merge_launch_dims(0, 0).block, (1, 1, 1));
    assert_eq!(merge_launch_dims(1, 1024).block, (256, 1, 1));
    assert_eq!(merge_launch_dims(1, 64).block, (64, 1, 1));
}

#[test]
fn fused_plans_follow_shape_and_flags() {
    let plan = |strips: Option<&str>, direct: Option<&str>| {
        fused_distance_topk_plan(
            20_000, 5000, 4, 4000, 1000, 4, 10, true, Backend::Cuda, 256, strips, None, direct,
            None, None,
        )
    };
    let p = plan(None, None).unwrap();
    assert_eq!(p.kernel, FusedKernel::Dot(DotVariant::Vec4));
    assert_eq!((p.strips, p.strip_len, p.cand_len, p.out_len), (1, 1024, 50_000, 50_000));
    assert_eq!((p.launch.grid, p.launch.block), ((1, 79, 1), (16, 16, 1)));
    assert!(p.norms.is_some() && p.merge.is_none() && p.roots.is_some());
    let p = plan(Some("4"), Some("1")).unwrap();
    assert_eq!(p.kernel, FusedKernel::Direct);
    assert_eq!((p.strips, p.cand_cols, p.cand_len), (4, 40, 200_000));
    assert_eq!(p.merge.unwrap().block, (32, 1, 1));
    assert!(p.norms.is_none());
}

#[test]
fn fused_searches_are_checked_in_order() {
    let run = |xq, nq, d, tr, nt, dt, k| {
        fused_distance_topk_plan(
            xq, nq, d, tr, nt, dt, k, false, Backend::Wgpu, 256, None, None, None, None, None,
        )
    };
    assert_eq!(
        run(20, 10, 2, 60, 20, 3, 3),
        Err(PrimError::DimMismatch { dim: "cols", lhs: 2, rhs: 3 })
    );
    assert_eq!(run(21, 10, 2, 40, 20, 2, 3), Err(shape("x", 10, 2, 21)));
    assert_eq!(run(20, 10, 2, 41, 20, 2, 3), Err(shape("y", 20, 2, 41)));
    assert_eq!(run(20, 10, 2, 40, 20, 2, 17), Err(shape("k", 1, 17, 16)));
    let many = FUSED_MAX_QUERY + 1;
    assert_eq!(run(many, many, 1, 20, 20, 1, 3), Err(shape("n_query", many, 0, FUSED_MAX_QUERY)));
    assert_eq!(run(20, 10, 2, 40, 20, 2, 3).unwrap().launch.block, (8, 16, 1));
}

#[test]
fn host_searches_keep_the_nearest_with_low_index_ties() {
    let (d, i) = nearest_of(&bits(&[5.0, 1.0, 3.0, 1.0, 0.5]), 3).emit();
    assert_eq!(i, vec![4, 1, 3]);
    assert_eq!(d, bits(&[0.5, 1.0, 1.0]));
    let (d, i) = nearest_of(&bits(&[f64::NAN, 2.0]), 3).emit();
    assert_eq!(i, vec![1, 0, 0]);
    assert_eq!(d, bits(&[2.0, f64::INFINITY, f64::INFINITY]));
}

#[test]
fn splitting_a_search_and_merging_changes_nothing() {
    let dist = bits(&[4.0, 2.0, 9.0, 2.0, 7.0, 1.0, 2.0, 8.0]);
    let whole = nearest_of(&dist, 3).emit();
    let (d0, i0) = nearest_of(&dist[..4].to_vec(), 3).emit();
    let (d1, i1) = nearest_of(&dist[4..].to_vec(), 3).emit();
    let mut merged = NearestList::new(3);
    for j in 0..3 {
        merged.offer(d0[j], i0[j]);
    }
    for j in 0..3 {
        merged.offer(d1[j], i1[j] + 4);
    }
    assert_eq!(merged.emit(), whole);
}

#[test]
fn screening_a_block_changes_nothing() {
    let mut a = NearestList::new(2);
    let mut b = NearestList::new(2);
    for (t, v) in [3.0f64, 1.0].iter().enumerate() {
        a.offer(v.to_bits(), t as u32);
        b.offer(v.to_bits(), t as u32);
    }
    let lists = offer_block(vec![a], &bits(&[9.0]), 2);
    assert_eq!(lists[0].emit(), b.emit());
    b.offer(2.0f64.to_bits(), 3);
    let lists = offer_block(lists, &bits(&[2.0]), 3);
    assert_eq!(lists[0].emit(), b.emit());
    assert_eq!(lists[0].worst(), 2.0f64.to_bits());
}

#[test]
fn metrics_map_to_their_accumulation() {
    assert_eq!(lane_form(Metric::Euclidean), LaneForm::SquaredSum);
    assert_eq!(lane_form(Metric::Manhattan), LaneForm::AbsSum);
    assert_eq!(lane_form(Metric::Chebyshev), LaneForm::AbsMax);
    assert_eq!(lane_form(Metric::Cosine), LaneForm::Dot);
    assert_eq!(minkowski_powi(3.0f64.to_bits()), Some(3));
    assert_eq!(minkowski_powi(2.5f64.to_bits()), None);
    assert_eq!(minkowski_powi(9.0f64.to_bits()), None);
    assert_eq!(
        lane_form(Metric::Minkowski { p: 4.0f64.to_bits() }),
        LaneForm::PowerSum { exponent: 4 }
    );
    assert_eq!(lane_form(Metric::Minkowski { p: 1.5f64.to_bits() }), LaneForm::GeneralPowerSum);
}

#[test]
fn workers_share_all_query_blocks() {
    let units = host_units(100, 4);
    assert!((1..=4).contains(&units));
    let blocks = (100 + 15) / 16;
    let all: Vec<usize> = (0..units)
        .flat_map(|u| {
            let (lo, hi) = worker_blocks(blocks, units, u);
            lo..hi
        })
        .collect();
    assert_eq!(all, (0..blocks).collect::<Vec<usize>>());
    assert_eq!(block_rows(6, 100), (96, 4));
}

#[test]
fn query_tiles_are_staged_feature_by_feature() {
    let x = [1, 2, 3, 4, 5, 6];
    let tile = stage_tile(&x, 1, 2, 2, 0);
    assert_eq!(tile.len(), 32);
    assert_eq!(&tile[..3], &[3, 5, 0]);
    assert_eq!(&tile[16..19], &[4, 6, 0]);
}

#[test]
fn host_searches_are_checked() {
    assert_eq!(validate_search(6, 3, 2, 8, 4, 2), Ok(()));
    assert!(validate_search(7, 3, 2, 8, 4, 2).is_err());
    assert!(validate_search(6, 3, 2, 9, 4, 2).is_err());
    assert!(validate_search(6, 3, 2, 8, 4, 5).is_err());
    assert!(!knn_host_applicable(100, 100, 4, 5, false, true, Some("0")));
}
