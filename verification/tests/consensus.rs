use mlrs_backend::backend::Device;
use mlrs_backend::chunks::join_parts;
use mlrs_backend::error::PrimError;
use mlrs_backend::ransac_device::{
    plan_blocks, ransac_batch_width, ransac_device_applicable, ransac_device_chosen,
    ransac_device_possible, DeviceTrialScan, RansacDevice,
};
use mlrs_backend::ransac_host::{
    classify, fold_counts, gather_columns, item_place, median_parts, plan_units, r2_from_sums,
    scan_blocks, subset_solver, trial_rows, unit_items, MedianOf, R2Term, RansacHostEngine,
    RansacLoss, SubsetSolver,
};

fn bits(v: &[f64]) -> Vec<u64> {
    v.iter().map(|x| x.to_bits()).collect()
}

fn shape(operand: &'static str, rows: usize, cols: usize, len: usize) -> PrimError {
    PrimError::ShapeMismatch { operand, rows, cols, len }
}

#[test]
fn losses_have_names() {
    assert_eq!(RansacLoss::AbsoluteError.as_str(), "absolute_error");
    assert_eq!(RansacLoss::SquaredError.as_str(), "squared_error");
}

#[test]
fn scan_blocks_do_not_depend_on_the_machine() {
    assert_eq!(scan_blocks(10_000), vec![(0, 4096), (4096, 8192), (8192, 10_000)]);
    assert_eq!(scan_blocks(0), vec![]);
}

#[test]
fn workers_follow_the_work() {
    assert_eq!(plan_units(32_768 * 4, 10, None, 8), 4);
    assert_eq!(plan_units(32_768 * 4, 3, None, 8), 3);
    assert_eq!(plan_units(32_768 * 100, 100, None, 8), 8);
    assert_eq!(plan_units(1, 100, None, 8), 1);
    assert_eq!(plan_units(1, 1, Some("5"), 8), 5);
    assert_eq!(plan_units(1, 1, Some("0"), 8), 1);
    assert_eq!(plan_units(1, 1, Some("many"), 8), 1);
}

#[test]
fn items_are_dealt_round_robin() {
    assert_eq!(unit_items(1, 3, 8), vec![1, 4, 7]);
    assert_eq!(unit_items(2, 3, 2), Vec::<usize>::new());
    for units in 1usize..6 {
        let mut all: Vec<usize> = (0..units).flat_map(|u| unit_items(u, units, 17)).collect();
        all.sort();
        assert_eq!(all, (0..17).collect::<Vec<usize>>());
    }
}

#[test]
fn block_counts_add_up_per_trial() {
    assert_eq!(fold_counts(&vec![1, 2, 3, 4], 2, 2), vec![3, 7]);
    assert_eq!(fold_counts(&vec![], 2, 0), vec![0, 0]);
}

#[test]
fn inliers_are_within_the_threshold() {
    let resid = bits(&[0.5, 1.0, 1.5, f64::NAN, 0.0]);
    let (mask, n) = classify(&resid, 1.0f64.to_bits());
    assert_eq!(mask, vec![true, true, false, false, true]);
    assert_eq!(n, 3);
    let (_, head) = classify(&resid[..2].to_vec(), 1.0f64.to_bits());
    let (_, tail) = classify(&resid[2..].to_vec(), 1.0f64.to_bits());
    assert_eq!(head + tail, n);
}

/// Scans a batch of trials of `n` rows with the given number of workers.
fn scan(resid: &[Vec<u64>], n: usize, threshold: u64, units: &str) -> (Vec<bool>, Vec<usize>) {
    let x = vec![0u8; n];
    let e = RansacHostEngine::new(&x, &x, n, 1, 1, 1, Some(units), 8).unwrap();
    let items = resid.len() * e.n_blocks();
    let held: Vec<Vec<(Vec<bool>, usize)>> = (0..e.units())
        .map(|u| {
            let own = unit_items(u, e.units(), items).into_iter().map(|it| e.scan_item(it));
            own.map(|i| classify(&resid[i.trial][i.lo..i.hi].to_vec(), threshold)).collect()
        })
        .collect();
    let in_order: Vec<(Vec<bool>, usize)> = (0..items)
        .map(|it| {
            let (u, i) = item_place(it, e.units());
            held[u][i].clone()
        })
        .collect();
    let counts: Vec<usize> = in_order.iter().map(|s| s.1).collect();
    let masks: Vec<Vec<bool>> = in_order.into_iter().map(|s| s.0).collect();
    (join_parts(&masks), fold_counts(&counts, resid.len(), e.n_blocks()))
}

#[test]
fn a_batch_gives_every_trial_its_own_scan() {
    let n = 10_000;
    let resid: Vec<Vec<u64>> = (0..3)
        .map(|t| (0..n).map(|i| (((i * 7 + t * 3) % 11) as f64).to_bits()).collect())
        .collect();
    let threshold = 4.0f64.to_bits();
    let (masks, counts) = scan(&resid, n, threshold, "1");
    assert_eq!(masks.len(), 3 * n);
    for units in ["2", "3", "7"] {
        assert_eq!(scan(&resid, n, threshold, units), (masks.clone(), counts.clone()));
    }
    for t in 0..3 {
        let (mask, count) = classify(&resid[t], threshold);
        assert_eq!(masks[t * n..(t + 1) * n], mask);
        assert_eq!((counts[t], mask.iter().filter(|m| **m).count()), (count, count));
    }
}

#[test]
fn medians_take_the_middle() {
    assert_eq!(median_parts(&vec![]), MedianOf::Nothing);
    assert_eq!(median_parts(&bits(&[3.0, 1.0, 2.0])), MedianOf::One(2.0f64.to_bits()));
    assert_eq!(
        median_parts(&bits(&[4.0, 1.0, 2.0, 3.0])),
        MedianOf::Two(2.0f64.to_bits(), 3.0f64.to_bits())
    );
}

#[test]
fn a_list_with_an_entry_that_is_not_a_number_has_no_median() {
    assert_eq!(median_parts(&bits(&[1.0, 2.0, f64::NAN])), MedianOf::Nothing);
    assert_eq!(median_parts(&bits(&[-f64::NAN, 1.0, 2.0, 3.0])), MedianOf::Nothing);
    assert_eq!(
        median_parts(&bits(&[f64::INFINITY, f64::NEG_INFINITY, 0.0])),
        MedianOf::One(0.0f64.to_bits())
    );
}

#[test]
fn a_batch_holds_the_solve_of_each_trial_in_its_block() {
    let idxs: Vec<i64> = vec![4, 1, 0, 3, 3, 2];
    assert_eq!(trial_rows(&idxs, 2, 3, 0), &[4, 1]);
    assert_eq!(trial_rows(&idxs, 2, 3, 2), &[3, 2]);
    assert!(trial_rows(&[], 0, 3, 1).is_empty());
    let solve = |rows: &[i64]| vec![rows[0] - rows[1], rows[0] + rows[1], 7];
    let parts: Vec<Vec<i64>> = (0..3).map(|t| solve(trial_rows(&idxs, 2, 3, t))).collect();
    let joined = join_parts(&parts);
    assert_eq!(joined, vec![3, 5, 7, -3, 3, 7, 1, 5, 7]);
    for t in 0..3 {
        assert_eq!(joined[t * 3..(t + 1) * 3], solve(trial_rows(&idxs, 2, 3, t)));
    }
}

#[test]
fn scores_need_two_inliers() {
    assert!(r2_from_sums(1, &bits(&[0.0]), &bits(&[1.0])).is_none());
    let terms =
        r2_from_sums(5, &bits(&[1.0, 0.0, 1.0, -0.0]), &bits(&[2.0, 2.0, 0.0, 0.0])).unwrap();
    assert_eq!(terms, vec![R2Term::Ratio, R2Term::One, R2Term::Zero, R2Term::One]);
}

#[test]
fn sub_samples_choose_their_solver() {
    assert_eq!(subset_solver(5, 3, true), SubsetSolver::Qr);
    assert_eq!(subset_solver(5, 3, false), SubsetSolver::TallSvd);
    assert_eq!(subset_solver(2, 3, true), SubsetSolver::WideSvd);
    assert_eq!(subset_solver(0, 3, true), SubsetSolver::Zero);
    assert_eq!(subset_solver(3, 0, false), SubsetSolver::Zero);
}

#[test]
fn engines_hold_and_gather_their_rows() {
    let x = [1, 2, 3, 4, 5, 6];
    let y = [10, 20, 30];
    let e = RansacHostEngine::new(&x, &y, 3, 2, 1, 1, None, 8).unwrap();
    assert_eq!((e.n_samples(), e.n_features(), e.n_targets()), (3, 2, 1));
    assert_eq!((e.units(), e.n_blocks()), (1, 1));
    assert_eq!(e.gather_x(&[2, 0]), vec![5, 6, 1, 2]);
    assert_eq!(e.gather_y(&[2, 0]), vec![30, 10]);
    assert_eq!(e.subset_operands(&[2, 0]), (vec![5, 1, 6, 2], vec![30, 10]));
    assert_eq!(gather_columns(&x, 3, 2, &[0, 1, 2]), vec![1, 3, 5, 2, 4, 6]);
    let item = e.scan_item(4);
    assert_eq!((item.trial, item.lo, item.hi), (4, 0, 3));
    let bad = RansacHostEngine::new(&x, &y, 3, 3, 1, 1, None, 8).err();
    assert_eq!(bad, Some(shape("ransac_x", 3, 3, 6)));
    let bad = RansacHostEngine::new(&x, &y, 3, 2, 2, 1, None, 8).err();
    assert_eq!(bad, Some(shape("ransac_y", 3, 2, 3)));
}

#[test]
fn the_device_is_used_on_request() {
    assert!(ransac_device_possible(4, false));
    assert!(!ransac_device_possible(8, false));
    assert!(!ransac_device_applicable(1 << 40, 100, 4, false, None));
    assert!(ransac_device_applicable(10, 1, 4, false, Some("device")));
    assert!(!ransac_device_applicable(10, 1, 8, false, Some("device")));
    assert!(!ransac_device_applicable(usize::MAX, 2, 4, false, Some("host")));
    assert!(ransac_device_applicable(usize::MAX, 2, 4, false, Some("other")));
    assert!(ransac_device_chosen(10, 1, Device::Gpu, 4, false, None));
    assert!(!ransac_device_chosen(10, 1, Device::Gpu, 8, false, None));
    assert!(!ransac_device_chosen(10, 1, Device::Cpu, 4, false, Some("device")));
    assert!(ransac_device_chosen(10, 1, Device::Auto, 4, false, Some("device")));
}

#[test]
fn batches_do_not_run_past_the_trials() {
    assert_eq!(ransac_batch_width(100, None), 8);
    assert_eq!(ransac_batch_width(3, None), 3);
    assert_eq!(ransac_batch_width(100, Some("16")), 16);
    assert_eq!(ransac_batch_width(100, Some("0")), 1);
    assert_eq!(ransac_batch_width(100, Some("x")), 8);
    assert_eq!(ransac_batch_width(0, None), 1);
}

#[test]
fn device_blocks_fill_the_device() {
    assert_eq!(plan_blocks(100_000, 8), (256, 391));
    assert_eq!(plan_blocks(10, 8), (1, 32));
    assert_eq!(plan_blocks(0, 8), (1, 32));
    for n in [1usize, 33, 5000, 99_991] {
        let (nb, rows) = plan_blocks(n, 4);
        assert!(nb * rows >= n && (nb - 1) * rows < n && nb <= 512);
    }
}

#[test]
fn batch_slots_do_not_overlap() {
    let dev = RansacDevice::new(300, 200, 100, 3, 2, 4).unwrap();
    assert_eq!(dev.batch_max(), 4);
    assert_eq!(dev.blocks(), (4, 32));
    let p = dev.scan_batch_plan(3).unwrap();
    assert_eq!((p.stride, p.part_len), (5, 60));
    let mut all: Vec<usize> = (0..3).flat_map(|b| dev.trial_slots(b, 3)).collect();
    assert_eq!(dev.trial_slots(1, 3), vec![20, 25, 30, 35]);
    all.sort();
    assert_eq!(all, (0..12).map(|i| i * 5).collect::<Vec<usize>>());
    assert_eq!(dev.scan_batch_plan(5), Err(shape("ransac_batch", 4, 1, 5)));
    assert_eq!(dev.scan_batch_plan(0), Err(shape("ransac_batch", 4, 1, 0)));
    assert_eq!(dev.r2_den_plan().1, 8);
    let refused = |x, y| RansacDevice::new(x, y, 100, 3, 2, 4).err();
    assert_eq!(refused(299, 200), Some(shape("ransac_x", 100, 3, 299)));
    assert_eq!(refused(300, 199), Some(shape("ransac_y", 100, 2, 199)));
}

#[test]
fn masks_are_cut_out_of_the_batch() {
    let dev = RansacDevice::new(3, 3, 3, 1, 1, 2).unwrap();
    let host = vec![1, 0, 1, 0, 1, 2];
    assert_eq!(dev.mask_of(&host, 0), vec![true, false, true]);
    assert_eq!(dev.mask_of(&host, 1), vec![false, true, false]);
    let s = DeviceTrialScan { n_inliers: 4, sq_err: vec![1, 2], y_sum: vec![3, 4] };
    let t = s.as_trial_scan();
    assert_eq!((t.n_inliers, t.sq_err), (4, vec![1, 2]));
}
