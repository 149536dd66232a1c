use mlrs_backend::error::PrimError;
use mlrs_backend::random_forest::edges::{
    compute_edge_pairs, edges_from_sorted, finish_edges, pad_edges, rising_run,
};
use mlrs_backend::random_forest::model::{
    rf_predict_proba_plan, rf_predict_reg_plan, validate_predict, RfModel,
};
use mlrs_backend::random_forest::oob::{leading_class, oob_tally, out_of_bag_trees};
use mlrs_backend::random_forest::plan::{
    atomic_hist_blocks, chunk_launches, fits_u32, hist_blocks, level_chunks, level_partition,
    partition_blocks, partition_launches, rf_fit_plan, validate_class_target, validate_fit,
    validate_reg_target, RfKernel, RfParams, RfTarget,
};
use mlrs_backend::random_forest::sampling::{
    bootstrap_counts, bootstrap_order, derive_seeds, draw_forest, expand_order, level_seeds,
    sample_features, sample_features_all,
};
use mlrs_backend::random_forest::schedule::rf_fit_schedule;
use mlrs_backend::rng::SplitMix64;

fn bits(v: &[f64]) -> Vec<u64> {
    v.iter().map(|x| x.to_bits()).collect()
}

fn shape(operand: &'static str, rows: usize, cols: usize, len: usize) -> PrimError {
    PrimError::ShapeMismatch { operand, rows, cols, len }
}

fn params() -> RfParams {
    RfParams {
        n_trees: 10,
        max_depth: 2,
        n_bins: 16,
        max_features: 2,
        min_samples_split: 2.0f64.to_bits(),
        min_samples_leaf: 1.0f64.to_bits(),
        bootstrap: true,
        seed: 42,
        oob_score: false,
    }
}

#[test]
fn seeds_come_from_one_stream() {
    let s = derive_seeds(42, true, 2, true, 1);
    let boot = s.boot.unwrap();
    let feat = s.feat.unwrap();
    assert_eq!(boot, vec![13679457532755275413, 2949826092126892291]);
    assert_eq!(feat, vec![5139283748462763858, 6349198060258255764]);
    let s = derive_seeds(42, false, 2, true, 1);
    assert!(s.boot.is_none());
    assert_eq!(s.feat.unwrap(), boot);
    assert!(derive_seeds(42, true, 2, false, 1).feat.is_none());
    assert_eq!(level_seeds(&derive_seeds(42, true, 2, false, 1), 1), vec![0, 0]);
    assert_eq!(level_seeds(&derive_seeds(42, true, 2, true, 1), 1), feat);
}

#[test]
fn every_tree_draws_as_many_rows_as_there_are() {
    let boot = vec![13679457532755275413, 2949826092126892291];
    let counts = bootstrap_counts(&boot, 6);
    assert_eq!(counts, vec![0, 0, 3, 2, 0, 1, 0, 0, 2, 2, 2, 0]);
    let order = vec![2, 2, 2, 3, 3, 5, 2, 2, 3, 3, 4, 4];
    assert_eq!(expand_order(&counts, 2, 6), order);
    assert_eq!(bootstrap_order(&boot, 6), order);
    for n in [1usize, 7, 100] {
        let c = bootstrap_counts(&vec![5, 6, 7], n);
        for t in 0..3 {
            assert_eq!(c[t * n..(t + 1) * n].iter().sum::<u32>() as usize, n);
        }
    }
}

#[test]
fn nodes_draw_distinct_features() {
    let mut rng = SplitMix64::new(9);
    assert_eq!(sample_features(&mut rng, 2, 2, 2, 5), vec![3, 0, 3, 1, 1, 3, 3, 2]);
    let feat = vec![5139283748462763858, 6349198060258255764];
    let (table, offsets) = sample_features_all(&feat, 2, 1, 2, 4);
    assert_eq!(table, vec![3, 1, 3, 0, 3, 2, 2, 3, 2, 0, 1, 0]);
    assert_eq!(offsets, vec![0, 4]);
    let (table, _) = sample_features_all(&vec![1, 2, 3], 3, 2, 4, 9);
    for node in table.chunks(4) {
        let mut sorted = node.to_vec();
        sorted.sort();
        sorted.dedup();
        assert_eq!(sorted.len(), 4);
        assert!(sorted.iter().all(|&f| f < 9));
    }
}

#[test]
fn all_features_need_no_draw() {
    let mut a = SplitMix64::new(1);
    let mut b = SplitMix64::new(2);
    assert_eq!(sample_features(&mut a, 1, 2, 3, 3), vec![0, 1, 2, 0, 1, 2]);
    assert_eq!(sample_features(&mut b, 1, 2, 3, 3), vec![0, 1, 2, 0, 1, 2]);
    assert_eq!(a.next_u64(), SplitMix64::new(1).next_u64());
}

#[test]
fn a_tree_depends_on_its_own_seed_only() {
    let seeds = vec![7, 11, 13];
    let all = bootstrap_counts(&seeds, 20);
    for (k, &seed) in seeds.iter().enumerate() {
        let own = &all[k * 20..(k + 1) * 20];
        assert_eq!(own, bootstrap_counts(&vec![seed], 20));
        assert_eq!(own.iter().sum::<u32>(), 20);
    }
}

#[test]
fn a_plain_build_draws_nothing() {
    let a = draw_forest(1, false, 30, 3, 2, 4, 4);
    assert_eq!(a, draw_forest(99, false, 30, 3, 2, 4, 4));
    assert!(a.order.is_none());
    assert_eq!(a.offsets, vec![0, 12, 36]);
    assert!(a.features.chunks(4).all(|node| node == [0, 1, 2, 3]));
    assert_ne!(draw_forest(1, false, 30, 3, 2, 2, 4), draw_forest(99, false, 30, 3, 2, 2, 4));
}

#[test]
fn the_trees_of_a_plain_build_are_offered_the_same() {
    let (trees, d) = (3, 4);
    let a = draw_forest(7, false, 30, trees, 2, d, d);
    for (l, &lo) in a.offsets.iter().enumerate() {
        let len = (1 << l) * d;
        let of = |t: usize| &a.features[lo + t * len..lo + (t + 1) * len];
        assert!((0..trees).all(|t| of(t) == of(0)));
    }
}

#[test]
fn a_build_draws_rows_before_features() {
    let seeds = derive_seeds(5, true, 3, true, 2);
    let draws = draw_forest(5, true, 30, 3, 2, 2, 4);
    assert_eq!(draws.order.unwrap(), bootstrap_order(seeds.boot.as_ref().unwrap(), 30));
    let (features, offsets) = sample_features_all(&level_seeds(&seeds, 2), 3, 2, 2, 4);
    assert_eq!((draws.features, draws.offsets), (features, offsets));
}

#[test]
fn thresholds_do_not_depend_on_the_order_of_rows() {
    let x = bits(&[5.0, -1.0, 2.0, 7.0, 5.0, 3.0, 9.0, 3.0]);
    let y = bits(&[9.0, 3.0, 5.0, 3.0, 5.0, -1.0, 2.0, 7.0]);
    for n_bins in [2, 3, 8] {
        for j in 0..2 {
            let e = compute_edge_pairs(&x, 4, 2, j, n_bins);
            assert_eq!(e, compute_edge_pairs(&y, 4, 2, j, n_bins));
            let middle = |p: &(u64, u64)| 0.5 * (f64::from_bits(p.0) + f64::from_bits(p.1));
            let mids: Vec<f64> = e.pairs.iter().map(middle).collect();
            let edges = finish_edges(e.exact, &bits(&mids), n_bins - 1, 99.0f64.to_bits());
            let values: Vec<f64> = edges.iter().map(|b| f64::from_bits(*b)).collect();
            assert_eq!(values.len(), n_bins - 1);
            assert!(values.windows(2).all(|w| w[0] <= w[1]));
        }
    }
}

#[test]
fn few_distinct_values_give_every_gap() {
    let e = edges_from_sorted(&bits(&[1.0, 2.0, 2.0, 4.0]), 4);
    assert!(e.exact);
    let (one, two, four) = (1.0f64.to_bits(), 2.0f64.to_bits(), 4.0f64.to_bits());
    assert_eq!(e.pairs, vec![(one, two), (two, four)]);
    let e = edges_from_sorted(&bits(&[3.0, 3.0]), 2);
    assert!(e.exact && e.pairs.is_empty());
}

#[test]
fn many_values_give_quantile_gaps() {
    let col: Vec<u64> = (0..8).map(|i| (i as f64).to_bits()).collect();
    let e = edges_from_sorted(&col, 4);
    assert!(!e.exact);
    let at = |i: usize| (col[i - 1], col[i]);
    assert_eq!(e.pairs, vec![at(2), at(4), at(6)]);
}

#[test]
fn a_feature_is_sorted_before_it_is_cut() {
    let x = bits(&[5.0, -1.0, 2.0, 7.0, 5.0, 3.0]);
    let e = compute_edge_pairs(&x, 3, 2, 0, 8);
    assert_eq!(e.pairs, vec![(2.0f64.to_bits(), 5.0f64.to_bits())]);
    let e = compute_edge_pairs(&x, 3, 2, 1, 8);
    let v = bits(&[-1.0, 3.0, 7.0]);
    assert_eq!(e.pairs, vec![(v[0], v[1]), (v[1], v[2])]);
    assert_eq!(e.largest, v[2]);
    assert_eq!(pad_edges(&vec![1, 2], 4, 9), vec![1, 2, 9, 9]);
    let (mids, pad) = (bits(&[1.5, 1.5, 3.0]), 9.0f64.to_bits());
    assert_eq!(finish_edges(true, &mids, 4, pad), bits(&[1.5, 1.5, 3.0, 9.0]));
    assert_eq!(finish_edges(false, &mids, 4, pad), bits(&[1.5, 3.0, 9.0, 9.0]));
    let run = rising_run(&bits(&[1.0, 1.0, 0.5, 2.0, f64::NAN, 3.0]));
    assert_eq!(run, bits(&[1.0, 2.0, 3.0]));
}

#[test]
fn parameters_are_checked_in_order() {
    let p = params();
    assert_eq!(validate_fit(400, 100, 4, &p), Ok(()));
    assert_eq!(validate_fit(399, 100, 4, &p), Err(shape("x", 100, 4, 399)));
    assert_eq!(validate_fit(0, 0, 4, &p), Err(shape("x", 0, 4, 0)));
    let bad = RfParams { n_trees: 0, ..p };
    assert_eq!(validate_fit(400, 100, 4, &bad), Err(shape("n_trees", 0, 0, 0)));
    let bad = RfParams { max_depth: 17, ..p };
    assert_eq!(validate_fit(400, 100, 4, &bad), Err(shape("max_depth", 17, 1, 16)));
    let bad = RfParams { n_bins: 257, ..p };
    assert_eq!(validate_fit(400, 100, 4, &bad), Err(shape("n_bins", 257, 2, 256)));
    let bad = RfParams { max_features: 5, ..p };
    assert_eq!(validate_fit(400, 100, 4, &bad), Err(shape("max_features", 5, 1, 4)));
    let bad = RfParams { min_samples_leaf: f64::NAN.to_bits(), ..p };
    assert_eq!(validate_fit(400, 100, 4, &bad), Err(shape("min_samples", 0, 0, 0)));
    let bad = RfParams { min_samples_split: (-1.0f64).to_bits(), ..p };
    assert_eq!(validate_fit(400, 100, 4, &bad), Err(shape("min_samples", 0, 0, 0)));
    let bad = RfParams { min_samples_split: f64::INFINITY.to_bits(), ..p };
    assert_eq!(validate_fit(400, 100, 4, &bad), Err(shape("min_samples", 0, 0, 0)));
}

#[test]
fn targets_are_checked() {
    assert_eq!(validate_class_target(&[0, 1, 2], 3, 3), Ok(()));
    assert_eq!(validate_class_target(&[0, 1], 3, 3), Err(shape("y_idx", 3, 1, 2)));
    assert_eq!(validate_class_target(&[0, 1, 2], 3, 1), Err(shape("n_classes", 1, 1, 1)));
    assert_eq!(validate_class_target(&[0, 3, 9], 3, 3), Err(shape("y_idx", 1, 3, 3)));
    assert_eq!(validate_reg_target(3, 3), Ok(()));
    assert_eq!(validate_reg_target(4, 3), Err(shape("y", 3, 1, 4)));
    assert_eq!(fits_u32(7, "n"), Ok(7));
    let big = u32::MAX as usize + 1;
    assert_eq!(fits_u32(big, "n"), Err(shape("n", big, 0, u32::MAX as usize)));
}

#[test]
fn row_blocks_follow_the_launch_target() {
    assert_eq!(hist_blocks(128, 1000, 1_000_000, 1, 256), 512);
    assert_eq!(hist_blocks(131_072, 1000, 1_000_000, 1, 256), 1);
    assert_eq!(hist_blocks(1024, 33_554_432, 1_000_000, 1, 256), 2);
    assert_eq!(hist_blocks(1024, 1, 1000, 4, 100), 2);
    assert_eq!(hist_blocks(0, 0, 0, 0, 0), 1);
    assert_eq!(atomic_hist_blocks(1), 64);
    assert_eq!(atomic_hist_blocks(100), 6);
    assert_eq!(atomic_hist_blocks(1000), 1);
    assert_eq!(partition_blocks(10, 100, 1), 6);
    assert_eq!(partition_blocks(131_072, 1_000_000, 1), 1);
}

#[test]
fn a_build_is_planned_level_by_level() {
    let plan = rf_fit_plan(400, 100, 4, RfTarget::Class { n_classes: 3 }, &params(), 8, false)
        .unwrap();
    assert_eq!((plan.total_nodes, plan.ranges_len, plan.total_feat_len), (7, 80, 140));
    assert!(plan.pregen_feats && !plan.geometry.use_atomic);
    assert_eq!((plan.max_hist, plan.max_part, plan.max_scores), (3840, 1920, 1200));
    assert_eq!((plan.max_stats, plan.max_blk), (40, 60));

    let chunks = level_chunks(&plan, 0);
    assert_eq!(chunks.len(), 1);
    let c = chunks[0];
    assert_eq!((c.tree_base, c.trees, c.cols, c.hist_len), (0, 10, 20, 960));
    assert_eq!((c.row_blocks, c.part_len), (2, 1920));
    let kernels: Vec<RfKernel> = chunk_launches(&plan, 0, &c).iter().map(|l| l.0).collect();
    assert_eq!(
        kernels,
        vec![
            RfKernel::HistPart,
            RfKernel::HistReduce,
            RfKernel::HistCum,
            RfKernel::NodeStats,
            RfKernel::SplitScores,
            RfKernel::BestSplit,
        ]
    );
    let q = level_partition(&plan, 0).unwrap();
    assert_eq!((q.units, q.blocks, q.len), (10, 6, 60));
    assert_eq!(partition_launches(&plan, &q).len(), 3);
    assert!(level_partition(&plan, 2).is_none());
}

#[test]
fn a_build_is_scheduled_level_by_level() {
    let plan = rf_fit_plan(400, 100, 4, RfTarget::Class { n_classes: 3 }, &params(), 8, false)
        .unwrap();
    let steps = rf_fit_schedule(&plan);
    let levels: Vec<usize> =
        (0..4).map(|l| steps.iter().filter(|s| s.level == l).count()).collect();
    assert_eq!(levels, vec![9, 8, 5, 0]);
    let last_of = |l: usize| steps.iter().rfind(|s| s.level == l).unwrap();
    assert_eq!(last_of(0).kernel, RfKernel::Partition);
    assert_eq!((last_of(0).trees, last_of(0).blocks), (10, 6));
    assert_eq!(last_of(2).kernel, RfKernel::BestSplit);
    assert!(steps.iter().all(|s| s.force_leaf == (s.level == 2)));
    assert!(steps.iter().all(|s| s.from_second == (s.level == 1)));
    assert!(steps.windows(2).all(|w| w[0].level <= w[1].level));
}

#[test]
fn the_splits_of_a_tree_are_chosen_once_per_level() {
    let p = RfParams { n_trees: 3, max_depth: 10, n_bins: 256, max_features: 8, ..params() };
    let plan = rf_fit_plan(800, 100, 8, RfTarget::Reg, &p, 8, false).unwrap();
    let steps = rf_fit_schedule(&plan);
    for level in 0..=10 {
        for tree in 0..3 {
            let chosen = steps.iter().filter(|s| {
                s.kernel == RfKernel::BestSplit
                    && s.level == level
                    && s.tree_base <= tree
                    && tree < s.tree_base + s.trees
            });
            assert_eq!(chosen.count(), 1);
        }
    }
}

#[test]
fn shared_memory_histograms_need_no_partials() {
    let plan = rf_fit_plan(400, 100, 4, RfTarget::Class { n_classes: 3 }, &params(), 8, true)
        .unwrap();
    assert!(plan.geometry.use_atomic);
    assert_eq!(plan.max_part, 0);
    let c = level_chunks(&plan, 1)[0];
    let launches = chunk_launches(&plan, 1, &c);
    assert_eq!(launches[1].0, RfKernel::HistAtomic);
    assert_eq!(launches[1].1.grid.0, 20 * 26);
    let reg = rf_fit_plan(400, 100, 4, RfTarget::Reg, &params(), 8, true).unwrap();
    assert!(!reg.geometry.use_atomic);
}

#[test]
fn deep_levels_are_cut_into_chunks_of_trees() {
    let p = RfParams { n_trees: 3, max_depth: 10, n_bins: 256, max_features: 8, ..params() };
    let plan = rf_fit_plan(800, 100, 8, RfTarget::Reg, &p, 8, false).unwrap();
    let spans = |level| -> Vec<(usize, usize)> {
        level_chunks(&plan, level).iter().map(|c| (c.tree_base, c.trees)).collect()
    };
    assert_eq!(spans(10), vec![(0, 1), (1, 1), (2, 1)]);
    assert_eq!(spans(9), vec![(0, 2), (2, 1)]);
    assert_eq!(spans(0), vec![(0, 3)]);
    for level in 0..=10 {
        for c in level_chunks(&plan, level) {
            assert!(c.hist_len <= plan.max_hist && c.scores_len <= plan.max_scores);
            assert!(c.part_len <= plan.max_part && c.stats_len <= plan.max_stats);
        }
    }
}

#[test]
fn builds_beyond_32_bit_indices_are_refused() {
    let p = RfParams { n_trees: 1 << 20, ..params() };
    assert_eq!(
        rf_fit_plan(400_000, 100_000, 4, RfTarget::Reg, &p, 8, false).err(),
        Some(shape("n_trees*n", (1 << 20) * 100_000, 0, u32::MAX as usize))
    );
    let p = RfParams { n_trees: 1 << 12, max_depth: 16, n_bins: 256, ..params() };
    assert_eq!(
        rf_fit_plan(400, 100, 4, RfTarget::Class { n_classes: 2 }, &p, 8, false).err(),
        Some(shape("level_hist", (1 << 12) * 65_536 * 2 * 512, 0, u32::MAX as usize))
    );
}

fn small_model() -> RfModel<u64> {
    RfModel::from_parts(
        vec![1, 0, 0, 0, 1, 0],
        vec![10, 0, 0, 20, 0, 0],
        vec![0, 1, 1, 1, 1, 1],
        vec![1, 2, 3, 4, 5, 6],
        0,
        2,
        1,
        2,
        1,
    )
    .unwrap()
}

#[test]
fn models_give_back_what_they_were_made_of() {
    let m = small_model();
    assert_eq!((m.n_trees(), m.max_depth(), m.n_features(), m.n_values()), (2, 1, 2, 1));
    assert_eq!(m.total_nodes(), 3);
    assert_eq!(m.split_feature_host(), vec![1, 0, 0, 0, 1, 0]);
    assert_eq!(m.threshold_host(), vec![10, 0, 0, 20, 0, 0]);
    assert_eq!(m.is_leaf_host(), vec![0, 1, 1, 1, 1, 1]);
    assert_eq!(m.leaf_dist_host(), vec![1, 2, 3, 4, 5, 6]);
    assert_eq!(m.node_decrease_host(), vec![0; 6]);
    assert_eq!(m.split_nodes(0), vec![(0, 1)]);
    assert_eq!(m.split_nodes(1), vec![]);
}

#[test]
fn parts_that_are_no_forest_are_refused() {
    let make = |s: usize, t: usize, l: usize, v: usize| {
        RfModel::from_parts(vec![0; s], vec![0u64; t], vec![1; l], vec![0; v], 0, 2, 1, 2, 1).err()
    };
    assert_eq!(make(5, 6, 6, 6), Some(shape("split_feature", 2, 3, 5)));
    assert_eq!(make(6, 5, 6, 6), Some(shape("threshold", 2, 3, 5)));
    assert_eq!(make(6, 6, 5, 6), Some(shape("is_leaf", 2, 3, 5)));
    assert_eq!(make(6, 6, 6, 5), Some(shape("leaf_dist", 2, 3, 5)));
    assert_eq!(make(6, 6, 6, 6), None);
    assert_eq!(
        RfModel::<u64>::from_parts(vec![], vec![], vec![], vec![], 0, usize::MAX, 1, 2, 1).err(),
        Some(shape("split_feature", usize::MAX, 3, 0))
    );
}

#[test]
fn predictions_are_checked_and_planned() {
    let m = small_model();
    assert_eq!(validate_predict(&m, 6, 3, 2), Ok(()));
    assert_eq!(validate_predict(&m, 5, 3, 2), Err(shape("xq", 3, 2, 5)));
    assert_eq!(
        validate_predict(&m, 9, 3, 3),
        Err(PrimError::DimMismatch { dim: "n_features", lhs: 2, rhs: 3 })
    );
    let p = rf_predict_reg_plan(&m, 6, 3, 2).unwrap();
    assert_eq!((p.leaf_len, p.out_len), (6, 3));
    assert_eq!(
        rf_predict_proba_plan(&m, 6, 3, 2),
        Err(PrimError::DimMismatch { dim: "n_values", lhs: 1, rhs: 2 })
    );
}

#[test]
fn undrawn_rows_are_scored_by_the_trees_that_left_them_out() {
    let counts = vec![0, 0, 3, 2, 0, 1, 0, 0, 2, 2, 2, 0];
    assert_eq!(out_of_bag_trees(Some(&counts), 2, 6, 0), vec![0, 1]);
    assert_eq!(out_of_bag_trees(Some(&counts), 2, 6, 4), vec![0]);
    assert_eq!(out_of_bag_trees(Some(&counts), 2, 6, 5), vec![1]);
    assert_eq!(out_of_bag_trees(Some(&counts), 2, 6, 2), Vec::<usize>::new());
    assert_eq!(out_of_bag_trees(None, 2, 6, 2), Vec::<usize>::new());
    assert_eq!(leading_class(&bits(&[0.2, 0.5, 0.5])), 1);
    assert_eq!(leading_class(&bits(&[0.0])), 0);
    let t = oob_tally(&vec![Some(1), None, Some(0)], &vec![1, 0, 1]);
    assert_eq!((t.correct, t.total, t.skipped), (1, 2, 1));
}
