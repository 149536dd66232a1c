use mlrs_backend::error::PrimError;
use mlrs_backend::kmeans::{
    assign_min_plan, centroid_sums_dev_plan, check_labels, feature_mean_var_plan,
    gather_rows_device_plan, inertia_rows_device_plan, labels_changed, labels_changed_total,
    relocate_empty_clusters, row_blocking, sum_device_plan, sums_blocking, use_gemm_assign,
    use_shared_sums,
    validate_geometry, validate_inertia, validate_rows, validate_update, AssignStage, Relocation,
    Seeding, SumsPath,
};

fn shape(operand: &'static str, rows: usize, cols: usize, len: usize) -> PrimError {
    PrimError::ShapeMismatch { operand, rows, cols, len }
}

fn bits(v: &[f64]) -> Vec<u64> {
    v.iter().map(|x| x.to_bits()).collect()
}

#[test]
fn geometry_is_checked_in_order() {
    assert_eq!(validate_geometry(6, 3, 2, 2), Ok(()));
    assert_eq!(validate_geometry(5, 3, 2, 0), Err(shape("x", 3, 2, 5)));
    assert_eq!(validate_geometry(6, 3, 2, 0), Err(shape("k", 1, 0, 3)));
    assert_eq!(validate_geometry(6, 3, 2, 4), Err(shape("k", 1, 4, 3)));
    assert_eq!(validate_geometry(6, usize::MAX, 2, 4), Err(shape("x", usize::MAX, 2, 6)));
}

#[test]
fn bad_labels_are_reported_with_their_position() {
    assert_eq!(check_labels(&[0, 1, 1], 3, 2), Ok(()));
    assert_eq!(check_labels(&[0, 1], 3, 2), Err(shape("labels", 3, 1, 2)));
    assert_eq!(check_labels(&[0, 2, 3], 3, 2), Err(shape("labels", 1, 2, 2)));
    assert_eq!(validate_update(6, &[0, 1, 1], 3, 3, 2, 2), Ok(()));
    assert_eq!(
        validate_update(6, &[0, 1, 1], 2, 3, 2, 2),
        Err(shape("dist_to_assigned", 3, 1, 2))
    );
    assert_eq!(validate_update(6, &[0, 1], 2, 3, 2, 2), Err(shape("labels", 3, 1, 2)));
}

#[test]
fn inertia_implies_its_cluster_count() {
    assert_eq!(validate_inertia(6, 4, &[0, 1, 1], 3, 2), Ok(2));
    assert_eq!(validate_inertia(6, 5, &[0, 1, 1], 3, 2), Err(shape("centers", 0, 2, 5)));
    assert_eq!(validate_inertia(6, 0, &[0, 1, 1], 3, 2), Err(shape("centers", 0, 2, 0)));
    assert_eq!(validate_inertia(7, 4, &[0, 1, 1], 3, 2), Err(shape("x", 3, 2, 7)));
    assert_eq!(validate_inertia(6, 4, &[0, 2, 1], 3, 2), Err(shape("labels", 1, 2, 2)));
    assert_eq!(validate_rows(6, 3, 2), Ok(()));
    assert_eq!(inertia_rows_device_plan(6, 3, 2, 3, 2), Err(shape("labels", 3, 1, 2)));
    assert_eq!(inertia_rows_device_plan(6, 3, 3, 3, 2).unwrap().grid, (1, 1, 1));
}

#[test]
fn gathered_rows_must_exist() {
    assert_eq!(gather_rows_device_plan(6, &[0, 5], 3, 2), Err(shape("idx", 5, 1, 3)));
    assert_eq!(gather_rows_device_plan(6, &[], 3, 2), Err(shape("k", 1, 0, 3)));
    assert_eq!(gather_rows_device_plan(6, &[0, 2], 3, 2).unwrap().block, (256, 1, 1));
}

#[test]
fn row_blocks_cover_the_rows() {
    assert_eq!(row_blocking(1000, 256), (4, 250));
    assert_eq!(row_blocking(1, 256), (1, 1));
    assert_eq!(row_blocking(100_000, 64), (64, 1563));
    for n in [1usize, 255, 256, 257, 5000, 123_457] {
        let (nb, rpb) = row_blocking(n, 100);
        assert!(nb * rpb >= n && (nb - 1) * rpb < n && nb <= 100);
    }
    assert_eq!(sums_blocking(1_000_000, 1), (3907, 256));
    assert_eq!(sums_blocking(1_000_000, 1 << 20).0, 64);
}

#[test]
fn changed_labels_are_counted_across_blocks() {
    let n = 1000;
    let a: Vec<u32> = (0..n).map(|i| i as u32 % 7).collect();
    let mut b = a.clone();
    assert_eq!(labels_changed(&a, &b, n), Ok(0));
    b[0] = 9;
    b[499] = 9;
    b[999] = 9;
    assert_eq!(labels_changed(&a, &b, n), Ok(3));
    assert_eq!(labels_changed_total(&vec![1, 1, 0, 1]), 3);
    assert_eq!(labels_changed_total(&vec![u32::MAX; 2]), 2 * u32::MAX as u64);
    assert_eq!(labels_changed(&a[1..], &b, n), Err(shape("labels", 1000, 1, 999)));
    assert_eq!(sum_device_plan(3, 4), Err(shape("v", 4, 1, 3)));
    assert_eq!(sum_device_plan(1000, 1000).unwrap().blocks, 4);
}

#[test]
fn centroid_sums_take_the_path_that_fits() {
    assert!(use_shared_sums(4096, false, false));
    assert!(!use_shared_sums(4097, false, false));
    assert!(!use_shared_sums(8, true, false));
    assert!(!use_shared_sums(8, false, true));
    assert!(use_gemm_assign(false, true));
    assert!(!use_gemm_assign(true, true));

    let p = centroid_sums_dev_plan(2000, 1000, 1000, 2, 3, false, false, false).unwrap();
    assert_eq!((p.path, p.blocks, p.rows_per_block), (SumsPath::Shared, 4, 250));
    assert_eq!((p.staged, p.partial_counts), (24, 12));
    assert_eq!(p.stage.block, (64, 1, 1));
    assert!(p.count.is_some());

    let p = centroid_sums_dev_plan(2000, 1000, 1000, 2, 3, true, false, false).unwrap();
    assert_eq!(p.path, SumsPath::Gather);
    assert!(p.count.is_none());

    let p = centroid_sums_dev_plan(2000, 1000, 1000, 2, 3, false, true, false).unwrap();
    assert_eq!((p.path, p.staged), (SumsPath::Gemm, 3000));
    assert_eq!(
        centroid_sums_dev_plan(2000, 999, 1000, 2, 3, false, true, false),
        Err(shape("labels", 1000, 1, 999))
    );
    assert_eq!(feature_mean_var_plan(2000, 1000, 2).unwrap().blocks, 4);
    assert_eq!(feature_mean_var_plan(1999, 1000, 2), Err(shape("x", 1000, 2, 1999)));
}

#[test]
fn assignment_is_staged_by_norms_and_flags() {
    let p = assign_min_plan(6, 4, 3, 3, Some(3), 3, 2, 2, true, false).unwrap();
    assert_eq!((p.stage, p.staged), (AssignStage::Gemm, 6));
    let p = assign_min_plan(6, 4, 3, 3, Some(3), 3, 2, 2, false, true).unwrap();
    assert_eq!(p.stage, AssignStage::PerCenter);
    let p = assign_min_plan(6, 4, 3, 3, None, 3, 2, 2, true, false).unwrap();
    assert_eq!(p.stage, AssignStage::PerFourCenters);
    assert_eq!(
        assign_min_plan(6, 5, 3, 3, None, 3, 2, 2, true, false),
        Err(shape("centers", 2, 2, 5))
    );
    assert_eq!(
        assign_min_plan(6, 4, 3, 2, None, 3, 2, 2, true, false),
        Err(shape("labels", 3, 1, 2))
    );
    assert_eq!(
        assign_min_plan(6, 4, 3, 3, Some(4), 3, 2, 2, true, false),
        Err(shape("xnorm", 3, 1, 4))
    );
}

#[test]
fn empty_clusters_take_the_farthest_movable_samples() {
    let mut counts = vec![3, 0, 1, 0];
    let labels = vec![0, 0, 0, 2];
    let dist = bits(&[1.0, 5.0, 2.0, 9.0]);
    let moves = relocate_empty_clusters(&mut counts, &labels, &dist, 4, 4).unwrap();
    assert_eq!(
        moves,
        vec![
            Relocation { sample: 1, donor: 0, cluster: 1 },
            Relocation { sample: 2, donor: 0, cluster: 3 },
        ]
    );
    assert_eq!(counts, vec![1, 1, 1, 1]);
}

#[test]
fn relocation_breaks_ties_by_the_lowest_index() {
    let mut counts = vec![3, 0];
    let moves =
        relocate_empty_clusters(&mut counts, &vec![0, 0, 0], &bits(&[4.0, 4.0, 4.0]), 3, 2)
            .unwrap();
    assert_eq!(moves, vec![Relocation { sample: 0, donor: 0, cluster: 1 }]);
    assert_eq!(counts, vec![2, 1]);
}

#[test]
fn relocation_without_a_donor_is_refused() {
    let mut counts = vec![1, 0, 0];
    assert_eq!(
        relocate_empty_clusters(&mut counts, &vec![0], &bits(&[1.0]), 1, 3),
        Err(shape("labels", 1, 3, 2))
    );
    let mut full = vec![1, 1];
    assert_eq!(
        relocate_empty_clusters(&mut full, &vec![0, 1], &bits(&[1.0, 2.0]), 2, 2),
        Ok(vec![])
    );
}

#[test]
fn relocation_keeps_the_number_of_samples() {
    let mut counts = vec![5, 0, 4, 0, 1];
    let labels = vec![0, 0, 0, 0, 0, 2, 2, 2, 2, 4];
    let dist = bits(&[0.5, 7.0, 3.0, 3.0, 0.0, 8.0, 1.0, 2.0, 6.0, 99.0]);
    relocate_empty_clusters(&mut counts, &labels, &dist, 10, 5).unwrap();
    assert_eq!(counts, vec![4, 1, 3, 1, 1]);
}

#[test]
fn seeding_starts_with_a_uniform_draw() {
    let mut s = Seeding::start(10, 5, 2, 3, 42).unwrap();
    assert!(s.unfinished());
    assert_eq!(s.last_center(), 3);
    assert_eq!(s.draw_target(), 1440344771546334);
    assert_eq!(s.choose_weighted(&bits(&[1.0, 2.0, 3.0, 0.0, 4.0]), Some(2)), 2);
    assert_eq!(s.last_center(), 2);
    assert_eq!(s.choose_unweighted(), 0);
    assert!(!s.unfinished());
    assert_eq!(s.into_centers(), vec![3, 2, 0]);
}

#[test]
fn seeding_gives_way_to_samples_that_can_be_chosen() {
    // The first center is sample 3.
    let mut s = Seeding::start(10, 5, 2, 4, 42).unwrap();
    // A weightless hit gives way to the last sample with weight.
    assert_eq!(s.choose_weighted(&bits(&[0.0, 1.0, 0.0, 0.0, 0.0]), Some(0)), 1);
    // A missed target falls on the last sample.
    assert_eq!(s.choose_weighted(&bits(&[1.0, 0.0, 1.0, 0.0, 1.0]), None), 4);
    // A sample that was chosen gives way to the first that was not.
    assert_eq!(s.choose_weighted(&bits(&[1.0, 1.0, 1.0, 1.0, 1.0]), Some(4)), 0);
    let mut centers = s.into_centers();
    centers.sort();
    assert_eq!(centers, vec![0, 1, 3, 4]);
}

#[test]
fn fewer_centers_are_a_prefix_of_more() {
    let centers = |k: usize| -> Vec<usize> {
        let mut s = Seeding::start(12, 12, 1, k, 7).unwrap();
        while s.unfinished() {
            let last = s.last_center();
            let weights: Vec<f64> = (0..12).map(|i| (i as f64 - last as f64).powi(2)).collect();
            let total: f64 = weights.iter().sum();
            let target = s.draw_target() as f64 / (1u64 << 53) as f64 * total;
            let mut sum = 0.0;
            let hit = weights.iter().position(|w| {
                sum += w;
                sum >= target
            });
            s.choose_weighted(&bits(&weights), hit);
        }
        s.into_centers()
    };
    let all = centers(12);
    for k in 1..12 {
        assert_eq!(centers(k), all[..k]);
    }
    let mut sorted = all.clone();
    sorted.sort();
    assert_eq!(sorted, (0..12).collect::<Vec<usize>>());
}

#[test]
fn distances_are_read_only_where_a_cluster_is_empty() {
    let mut counts = vec![1, 2];
    let nan = vec![f64::NAN.to_bits(); 3];
    let moves = relocate_empty_clusters(&mut counts, &vec![0, 1, 1], &nan, 3, 2);
    assert!(moves.unwrap().is_empty());
    assert_eq!(counts, vec![1, 2]);
}

#[test]
fn relocation_fills_clusters_when_distances_are_not_numbers() {
    let labels = vec![0, 0, 0, 2, 2];
    for dist in [[f64::NAN; 5], [1.0, f64::NAN, 3.0, -f64::NAN, 2.0]] {
        let mut counts = vec![3, 0, 2, 0];
        let moves = relocate_empty_clusters(&mut counts, &labels, &bits(&dist), 5, 4).unwrap();
        assert!(counts.iter().all(|&c| c >= 1));
        assert_eq!(counts.iter().sum::<i64>(), 5);
        let mut samples: Vec<usize> = moves.iter().map(|m| m.sample).collect();
        samples.sort();
        samples.dedup();
        assert_eq!(samples.len(), 2);
        assert!(moves.iter().all(|m| m.donor == labels[m.sample] as usize));
        assert_eq!(moves.iter().map(|m| m.cluster).collect::<Vec<_>>(), vec![1, 3]);
    }
}

#[test]
fn relocation_succeeds_exactly_where_there_are_samples_enough() {
    for n in 0..7usize {
        for k in 1..7usize {
            let labels: Vec<u32> = (0..n).map(|i| (i * i % k) as u32).collect();
            let mut counts = vec![0i64; k];
            labels.iter().for_each(|&l| counts[l as usize] += 1);
            let dist: Vec<f64> = (0..n).map(|i| (i * 5 % 7) as f64).collect();
            let r = relocate_empty_clusters(&mut counts, &labels, &bits(&dist), n, k);
            assert_eq!(r.is_ok(), k <= n);
            assert_eq!(counts.iter().sum::<i64>(), n as i64);
        }
    }
}

#[test]
fn seedings_draw_distinct_samples() {
    for seed in 0..20 {
        let mut s = Seeding::start(6, 6, 1, 6, seed).unwrap();
        while s.unfinished() {
            let hit = s.draw_target() % 6;
            s.choose_weighted(&bits(&[1.0, 0.0, 2.0, f64::NAN, 0.0, 3.0]), Some(hit as usize));
        }
        let mut centers = s.into_centers();
        centers.sort();
        assert_eq!(centers, vec![0, 1, 2, 3, 4, 5]);
    }
}

#[test]
fn seeding_refuses_more_centers_than_samples() {
    assert_eq!(Seeding::start(4, 2, 2, 3, 1).err(), Some(shape("k", 1, 3, 2)));
}
