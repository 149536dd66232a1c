use mlrs_backend::backend::Backend;
use mlrs_backend::error::PrimError;
use mlrs_backend::linear_predict::{
    bayes_predict_std_plan, host_prediction, host_units, linear_predict_plan,
    operand_all_finite, operand_all_finite_f32, predict_route, predict_slabs, row_all_finite, std_blocks, std_slabs,
    use_host_std, use_shared_predict, validate_geometry, validate_std, HostMirror, PredictPlan,
    PredictRoute, SharedTile,
};
use mlrs_backend::nnls::{
    device_nnls_applicable, ridge_intercept_plan, ridge_nnls_plan, NNLS_DEFAULT_MAX_ITER,
};
use mlrs_backend::normal_eq::{
    centered_gram_xty_plan, column_sums_plan, device_fit_preferred, device_gram_applicable,
    route_centers, GramRoute,
};
use mlrs_backend::ridge_gcv::{
    gcv_device_possible, gcv_device_preferred, score_slots, sweep_blocking, sweep_out, GcvDevice,
    GcvSweepOut, MeansRoute, RootProducts, SweepLimits, SweepOperands,
};

const TILE: SharedTile =
    SharedTile { rows_per_block: 64, elems: 2048, min_features: 8, max_features: 32 };

const LIMITS: SweepLimits = SweepLimits { max_d: 64, row_tile: 16, cube_dim: 128 };

fn shape(operand: &'static str, rows: usize, cols: usize, len: usize) -> PrimError {
    PrimError::ShapeMismatch { operand, rows, cols, len }
}

fn bits(v: &[f64]) -> Vec<u64> {
    v.iter().map(|x| x.to_bits()).collect()
}

#[test]
fn prediction_operands_are_checked_in_order() {
    assert_eq!(validate_geometry(6, 3, 2, 2, 1), Ok(()));
    assert_eq!(validate_geometry(5, 3, 2, 2, 1), Err(shape("x", 3, 2, 5)));
    assert_eq!(validate_geometry(0, 0, 2, 2, 1), Err(shape("x", 0, 2, 0)));
    assert_eq!(
        validate_geometry(6, 3, 2, 3, 1),
        Err(PrimError::DimMismatch { dim: "n_features", lhs: 3, rhs: 2 })
    );
    assert_eq!(validate_geometry(6, 3, 2, 2, 0), Err(shape("bias", 1, 1, 0)));
}

#[test]
fn shared_tiles_are_used_on_one_backend() {
    assert!(use_shared_predict(8, 4, Backend::Wgpu, false, TILE, 16_384));
    assert!(!use_shared_predict(7, 4, Backend::Wgpu, false, TILE, 16_384));
    assert!(!use_shared_predict(33, 4, Backend::Wgpu, false, TILE, 16_384));
    assert!(!use_shared_predict(8, 4, Backend::Cuda, false, TILE, 16_384));
    assert!(!use_shared_predict(8, 4, Backend::Wgpu, true, TILE, 16_384));
    assert!(!use_shared_predict(8, 4, Backend::Wgpu, false, TILE, 8191));
    match linear_predict_plan(1600, 200, 8, 8, 1, 4, Backend::Wgpu, false, TILE, 8192, 256) {
        Ok(PredictPlan::Shared { nblocks, launch }) => {
            assert_eq!((nblocks, launch.grid, launch.block), (4, (4, 1, 1), (64, 1, 1)));
        }
        _ => unreachable!(),
    }
    match linear_predict_plan(1600, 200, 8, 8, 1, 4, Backend::Cuda, false, TILE, 8192, 128) {
        Ok(PredictPlan::Gather { launch }) => assert_eq!(launch.grid, (2, 1, 1)),
        _ => unreachable!(),
    }
}

#[test]
fn rows_are_shared_out_in_even_slabs() {
    assert_eq!(host_units(0, 8), 1);
    assert_eq!(host_units(262_144 * 3, 8), 3);
    assert_eq!(host_units(usize::MAX, 8), 8);
    assert_eq!(host_units(usize::MAX, 0), 1);
    assert_eq!(predict_slabs(10, 4, Some(3), 8), vec![(0, 4), (4, 8), (8, 10)]);
    assert_eq!(predict_slabs(10, 4, None, 8), vec![(0, 10)]);
    assert_eq!(predict_slabs(2, 4, Some(0), 8), vec![(0, 2)]);
    let x: Vec<u64> = (0..40).map(|i| (i as f64).to_bits()).collect();
    for units in [None, Some(0), Some(1), Some(3), Some(7), Some(50)] {
        let slabs = predict_slabs(10, 4, units, 8);
        let parts: Vec<Vec<usize>> =
            slabs.iter().map(|&(lo, hi)| (lo..hi).map(|r| r * r).collect()).collect();
        let p = host_prediction(&parts, &slabs, 10, &x, 8);
        assert_eq!(p.values, (0..10).map(|r| r * r).collect::<Vec<usize>>());
        assert!(p.operand_finite);
        let nan = vec![f64::NAN.to_bits(); 40];
        assert!(!host_prediction(&parts, &slabs, 10, &nan, 8).operand_finite);
    }
    assert_eq!(std_slabs(2, 1_000_000, 8), vec![(0, 1), (1, 2)]);
    assert_eq!(std_blocks(70), vec![(0, 32), (32, 64), (64, 70)]);
}

#[test]
fn finiteness_looks_at_every_element() {
    assert!(operand_all_finite(&bits(&[1.0, -0.0, f64::MAX, f64::MIN_POSITIVE]), 4));
    assert!(operand_all_finite(&[], 4));
    for bad in [f64::NAN, f64::INFINITY, f64::NEG_INFINITY] {
        assert!(!operand_all_finite(&bits(&[1.0, bad, 2.0]), 4));
        assert!(!operand_all_finite_f32(&[1.0f32.to_bits(), (bad as f32).to_bits()]));
    }
    assert!(operand_all_finite_f32(&[f32::MAX.to_bits(), (-1.0f32).to_bits()]));
    assert!(row_all_finite(&bits(&[f64::NAN, 1.0, f64::NAN]), 1, 2));
}

#[test]
fn the_number_of_shares_does_not_change_the_verdict() {
    let mut x = vec![0u64; 262_144 * 4 + 5];
    for units in [1, 2, 3, 8] {
        assert!(operand_all_finite(&x, units));
    }
    let last = x.len() - 1;
    x[last] = f64::INFINITY.to_bits();
    for units in [1, 2, 3, 8] {
        assert!(!operand_all_finite(&x, units));
    }
}

#[test]
fn mirrors_are_filled_once() {
    let mut m: HostMirror<u64> = HostMirror::default();
    assert!(m.is_empty() && m.get().is_none());
    m.fill(vec![1, 2], 3);
    m.fill(vec![9], 9);
    assert_eq!(m.get(), Some((&vec![1, 2], &3)));
}

#[test]
fn predictions_are_routed_by_backend_and_verdict() {
    assert_eq!(predict_route(6, 3, 2, 2, 1, true, false), Ok(PredictRoute::Host));
    assert_eq!(predict_route(6, 3, 2, 2, 1, false, true), Ok(PredictRoute::Device));
    assert_eq!(predict_route(6, 3, 2, 2, 1, false, false), Ok(PredictRoute::Rejected));
    assert_eq!(predict_route(5, 3, 2, 2, 1, true, true), Err(shape("x", 3, 2, 5)));
}

#[test]
fn deviations_stay_within_their_launch() {
    assert_eq!(validate_std(6, 3, 2, 2, 4), Ok(()));
    assert_eq!(validate_std(6, 3, 2, 2, 5), Err(shape("mt", 2, 2, 5)));
    assert_eq!(
        validate_std(6, 3, 2, 1, 4),
        Err(PrimError::DimMismatch { dim: "n_features", lhs: 1, rhs: 2 })
    );
    let v = bayes_predict_std_plan(20, 10, 2, 2, 4, 256).unwrap();
    assert_eq!(v.len(), 1);
    assert_eq!((v[0].tile0, v[0].tiles), (0, 3));
    let d = 8192;
    let v = bayes_predict_std_plan(9 * d, 9, d, d, d * d, 256).unwrap();
    let spans: Vec<(usize, usize)> = v.iter().map(|l| (l.tile0, l.tiles)).collect();
    assert_eq!(spans, vec![(0, 1), (1, 1), (2, 1)]);
    let d = 4096;
    let v = bayes_predict_std_plan(21 * d, 21, d, d, d * d, 256).unwrap();
    let spans: Vec<(usize, usize)> = v.iter().map(|l| (l.tile0, l.tiles)).collect();
    assert_eq!(spans, vec![(0, 4), (4, 2)]);
}

#[test]
fn deviations_are_computed_where_doubles_are_fast() {
    assert!(use_host_std(1000, Backend::Cpu, None));
    assert!(use_host_std(1000, Backend::Wgpu, None));
    assert!(!use_host_std(128, Backend::Cuda, None));
    assert!(use_host_std(127, Backend::Cuda, None));
    assert!(!use_host_std(1, Backend::Cpu, Some("0")));
    assert!(use_host_std(1000, Backend::Cuda, Some("1")));
}

#[test]
fn non_negative_solves_are_planned() {
    let p = ridge_nnls_plan(9, 3, 3, None, 64).unwrap();
    assert_eq!((p.launch.grid, p.launch.block), ((1, 1, 1), (3, 1, 1)));
    assert_eq!(p.sweeps as usize, NNLS_DEFAULT_MAX_ITER);
    assert_eq!(ridge_nnls_plan(9, 3, 3, Some(usize::MAX), 64).unwrap().sweeps, u32::MAX);
    assert_eq!(ridge_nnls_plan(9, 3, 3, Some(5), 2), Err(shape("nnls.gram", 3, 3, 9)));
    assert_eq!(ridge_nnls_plan(8, 3, 3, None, 64), Err(shape("nnls.gram", 3, 3, 8)));
    assert_eq!(ridge_nnls_plan(9, 2, 3, None, 64), Err(shape("nnls.xty", 3, 1, 2)));
    assert!(device_nnls_applicable(64, 8, false, false, 64, 1040));
    assert!(!device_nnls_applicable(64, 8, false, false, 64, 1039));
    assert!(!device_nnls_applicable(65, 8, false, false, 64, 1040));
    assert!(!device_nnls_applicable(64, 8, true, false, 64, 1040));
    assert!(!device_nnls_applicable(64, 8, false, true, 64, 1040));
    assert_eq!(ridge_intercept_plan(3, 1, 3, 3).unwrap().block, (1, 1, 1));
    assert_eq!(ridge_intercept_plan(2, 1, 3, 3), Err(shape("ridge_intercept.xmean", 3, 1, 2)));
    assert_eq!(ridge_intercept_plan(3, 2, 3, 3), Err(shape("ridge_intercept.ymean", 1, 1, 2)));
}

#[test]
fn normal_equations_choose_their_route() {
    assert!(device_gram_applicable(false, true, true, None));
    assert!(!device_gram_applicable(true, true, true, Some("1")));
    assert!(!device_gram_applicable(false, false, true, None));
    assert!(!device_gram_applicable(false, true, false, None));
    assert!(!device_gram_applicable(false, true, true, Some("0")));
    assert!(device_fit_preferred(false, true, true, None, Some("0")));
    assert!(!device_fit_preferred(false, true, true, None, Some("1")));
    assert!(!device_fit_preferred(false, true, true, None, None));
    let route = |w, i| centered_gram_xty_plan(600, 300, 4, w, i, 256).route;
    assert_eq!(route(false, true), GramRoute::FusedCentered);
    assert_eq!(route(false, false), GramRoute::FusedRaw);
    assert_eq!(route(true, true), GramRoute::WeightedCentered);
    assert_eq!(route(true, false), GramRoute::WeightedRaw);
    assert!(route_centers(GramRoute::WeightedCentered) && !route_centers(GramRoute::WeightedRaw));
    let p = centered_gram_xty_plan(600, 300, 8, false, true, 256);
    assert!(!p.widen);
    assert_eq!((p.over_design.grid, p.over_target.grid), ((3, 1, 1), (2, 1, 1)));
    let s = column_sums_plan(5, 7, 64, 256);
    assert_eq!((s.partials, s.target_partials, s.blocks.grid), (35, 5, (5, 1, 1)));
}

#[test]
fn sweeps_are_blocked_in_whole_tiles() {
    assert_eq!(sweep_blocking(1000, 10, 1, 16), (4, 256));
    assert_eq!(sweep_blocking(1000, 4_194_304, 1, 16), (1, 1008));
    assert_eq!(sweep_blocking(1, 1, 1, 16), (1, 16));
    for n in [1usize, 255, 256, 1023, 99_999] {
        let (nb, rows) = sweep_blocking(n, 7, 3, 16);
        assert!(rows % 16 == 0 && nb * rows >= n && (nb - 1) * rows < n);
    }
}

#[test]
fn cross_validation_runs_where_it_fits() {
    let need = 2 * 16 * 64 * 8;
    assert!(gcv_device_possible(64, true, true, LIMITS, need));
    assert!(!gcv_device_possible(64, true, true, LIMITS, need - 1));
    assert!(!gcv_device_possible(65, true, true, LIMITS, need));
    assert!(!gcv_device_possible(0, true, true, LIMITS, need));
    assert!(!gcv_device_possible(64, false, true, LIMITS, need));
    assert!(!gcv_device_possible(64, true, false, LIMITS, need));
    assert!(gcv_device_preferred(64, true, true, LIMITS, need, Some("1")));
    assert!(!gcv_device_preferred(64, true, true, LIMITS, need, None));
}

#[test]
fn cross_validation_designs_are_checked_and_planned() {
    let fail = |x, y, s, n, d, t| GcvDevice::from_host(x, y, s, n, d, t, false, 4).err();
    assert_eq!(fail(2999, 1000, 1000, 1000, 3, 1), Some(shape("ridge_gcv.x", 1000, 3, 2999)));
    assert_eq!(fail(3000, 999, 1000, 1000, 3, 1), Some(shape("ridge_gcv.x", 1000, 3, 3000)));
    assert_eq!(fail(3000, 1000, 999, 1000, 3, 1), Some(shape("ridge_gcv.sqrt_sw", 1000, 1, 999)));
    let (dev, widen) = GcvDevice::from_host(3000, 1000, 1000, 1000, 3, 1, false, 4).unwrap();
    assert!(widen);
    let p = dev.normal_equations_plan(true);
    assert_eq!((p.means, p.roots, p.materialize), (MeansRoute::Plain, RootProducts::Fused, false));
    assert_eq!((p.gram_len, p.xty_len, p.xtsw_len), (9, 3, 3));
    let (w, _) = GcvDevice::from_host(3000, 1000, 1000, 1000, 3, 1, true, 8).unwrap();
    let p = w.normal_equations_plan(true);
    assert_eq!((p.means, p.roots), (MeansRoute::Weighted, RootProducts::FromCopy));
    let p = w.normal_equations_plan(false);
    assert_eq!((p.means, p.roots), (MeansRoute::Zero, RootProducts::Zero));
    let ops = SweepOperands { v: 9, g: 30, gz: 30, gzsw: 30, x_offset: 3, y_offset: 1 };
    let s = dev.sweep_plan(ops, 10, true, LIMITS).unwrap();
    assert_eq!((s.nblocks, s.rows_per_block, s.part_len, s.cv_len), (4, 256, 40, 10_000));
    assert_eq!((s.launch.grid, s.launch.block), ((4, 1, 1), (128, 1, 1)));
    assert_eq!(s.cells, 10);
    assert_eq!(score_slots(&s, 3), vec![3, 13, 23, 33]);
    let bare = dev.sweep_plan(ops, 10, false, LIMITS).unwrap();
    assert_eq!(bare.cv_len, 1);
    let lens = |o: GcvSweepOut<u64>| (o.score_sums.len(), o.cv_values.len());
    let sums = vec![1u64; 10];
    assert_eq!(lens(sweep_out(&s, false, true, sums.clone(), vec![2; 10_000])), (10, 10_000));
    assert_eq!(lens(sweep_out(&s, true, true, vec![], vec![2; 10_000])), (0, 10_000));
    assert_eq!(lens(sweep_out(&bare, false, false, sums.clone(), vec![])), (10, 0));
    assert_eq!(lens(sweep_out(&bare, true, false, sums.clone(), vec![2])), (0, 0));
    assert_eq!(sweep_out(&bare, false, false, sums.clone(), vec![]).score_sums, sums);
    let bad = SweepOperands { v: 8, ..ops };
    assert_eq!(
        dev.sweep_plan(bad, 10, true, LIMITS),
        Err(shape("ridge_gcv.sweep operands", 3, 10, 8))
    );
}
