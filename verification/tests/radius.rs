use mlrs_backend::error::PrimError;
use mlrs_backend::radius::{
    radius_assemble, radius_device_applicable, radius_offsets, radius_tile_plan, to_signed,
    RadiusMatches,
};
use mlrs_backend::radius_host::{
    concat_slices, radius_host_applicable, rows_within, validate_scan,
};

fn bits(v: &[f64]) -> Vec<u64> {
    v.iter().map(|x| x.to_bits()).collect()
}

fn shape(operand: &'static str, rows: usize, cols: usize, len: usize) -> PrimError {
    PrimError::ShapeMismatch { operand, rows, cols, len }
}

#[test]
fn matches_are_those_within_the_radius_ascending() {
    let dist = bits(&[4.0, 1.0, 2.0, f64::NAN, 2.0, 2.5]);
    assert_eq!(rows_within(&dist, 2.0f64.to_bits()), vec![1, 2, 4]);
    assert_eq!(rows_within(&dist, f64::INFINITY.to_bits()), vec![0, 1, 2, 4, 5]);
    assert_eq!(rows_within(&dist, 0.5f64.to_bits()), Vec::<u32>::new());
    assert_eq!(rows_within(&dist, f64::NAN.to_bits()), Vec::<u32>::new());
}

#[test]
fn rows_are_appended_with_their_counts() {
    let mut m: RadiusMatches<u64> = RadiusMatches::empty();
    m.push_row(&vec![7, 8], &vec![3, 5]);
    m.push_row(&vec![], &vec![]);
    m.push_row(&vec![9], &vec![0]);
    assert_eq!(m.counts, vec![2, 0, 1]);
    assert_eq!(m.distances, vec![7, 8, 9]);
    assert_eq!(m.indices, vec![3, 5, 0]);
}

#[test]
fn the_number_of_workers_does_not_show() {
    let rows: Vec<(Vec<u64>, Vec<u32>)> = vec![
        (vec![1, 2], vec![0, 4]),
        (vec![], vec![]),
        (vec![3], vec![2]),
        (vec![4, 5, 6], vec![1, 2, 3]),
    ];
    let mut whole: RadiusMatches<u64> = RadiusMatches::empty();
    for (d, i) in &rows {
        whole.push_row(d, i);
    }
    for cut in 0..=rows.len() {
        let mut a: RadiusMatches<u64> = RadiusMatches::empty();
        let mut b: RadiusMatches<u64> = RadiusMatches::empty();
        for (d, i) in &rows[..cut] {
            a.push_row(d, i);
        }
        for (d, i) in &rows[cut..] {
            b.push_row(d, i);
        }
        let joined = concat_slices(&vec![a, b]);
        assert_eq!(joined.counts, whole.counts);
        assert_eq!(joined.distances, whole.distances);
        assert_eq!(joined.indices, whole.indices);
    }
}

#[test]
fn tiles_are_cut_into_even_segments() {
    let p = radius_tile_plan(600, 2, 300, 0, 256).unwrap();
    assert_eq!((p.segs, p.seg_len, p.n_seg), (3, 100, 6));
    let p = radius_tile_plan(2 * 129, 2, 129, 7, 256).unwrap();
    assert_eq!((p.segs, p.seg_len), (2, 65));
    for cols in 1usize..1000 {
        let p = radius_tile_plan(cols, 1, cols, 0, 64).unwrap();
        assert!(p.segs * p.seg_len >= cols && (p.segs - 1) * p.seg_len < cols);
        assert!(p.seg_len <= 128);
    }
}

#[test]
fn tiles_are_checked_in_order() {
    assert_eq!(radius_tile_plan(599, 2, 300, 0, 256), Err(shape("dist", 2, 300, 599)));
    let big = u32::MAX as usize + 1;
    assert_eq!(
        radius_tile_plan(big, big, 1, 0, 256),
        Err(shape("rows", big, 0, u32::MAX as usize))
    );
    assert_eq!(
        radius_tile_plan(big, 1, big, 0, 256),
        Err(shape("cols", big, 0, u32::MAX as usize))
    );
    assert_eq!(
        radius_tile_plan(1, 1, 1, big, 256),
        Err(shape("train_base", big, 0, u32::MAX as usize))
    );
}

#[test]
fn offsets_are_running_sums() {
    let t = radius_offsets(&vec![1, 0, 2, 3], 2, 2).unwrap();
    assert_eq!(t.offsets, vec![0, 1, 1, 3]);
    assert_eq!(t.row_counts, vec![1, 5]);
    assert_eq!(t.total, 6);
    assert_eq!(
        radius_offsets(&vec![u32::MAX, 1], 1, 2).err(),
        Some(shape("radius_matches", u32::MAX as usize + 1, 0, u32::MAX as usize))
    );
}

#[test]
fn compacted_matches_keep_their_order() {
    let m = radius_assemble(vec![5u64, 6], &vec![2, 9], vec![0, 2]);
    assert_eq!(m.indices, vec![2, 9]);
    assert_eq!(m.counts, vec![0, 2]);
    assert_eq!(to_signed(&vec![0, 7]), vec![0, 7]);
}

#[test]
fn searches_are_checked_in_order() {
    let one = 1.0f64.to_bits();
    assert_eq!(validate_scan(6, 3, 2, 8, 4, one), Ok(()));
    assert_eq!(validate_scan(5, 3, 2, 8, 4, one), Err(shape("x", 3, 2, 5)));
    assert_eq!(validate_scan(6, 3, 2, 7, 4, one), Err(shape("y", 4, 2, 7)));
    assert_eq!(
        validate_scan(6, 3, 2, 8, 4, (-1.0f64).to_bits()),
        Err(shape("radius", 1, 0, 0))
    );
    assert_eq!(validate_scan(6, 3, 2, 8, 4, f64::NAN.to_bits()), Err(shape("radius", 1, 0, 0)));
    assert_eq!(validate_scan(6, 3, 2, 8, 4, (-0.0f64).to_bits()), Ok(()));
    let big = u32::MAX as usize + 1;
    assert_eq!(
        validate_scan(0, 3, 0, 0, big, one),
        Err(shape("rows", big, 0, u32::MAX as usize))
    );
}

#[test]
fn the_host_search_is_the_default() {
    assert!(radius_host_applicable(1, 1, 1, None, None));
    assert!(!radius_host_applicable(0, 1, 1, Some("1"), None));
    assert!(!radius_host_applicable(1, 1, 1, Some("0"), None));
    assert!(radius_host_applicable(1, 1, 1, Some("1"), Some("1")));
    assert!(!radius_host_applicable(1, 1, 1, None, Some("1")));
    assert!(radius_host_applicable(1, 1, 1, None, Some("yes")));
    assert!(!radius_device_applicable(1, 1, None));
    assert!(radius_device_applicable(1, 1, Some("1")));
    assert!(!radius_device_applicable(1, 1, Some("0")));
    assert!(!radius_device_applicable(0, 1, Some("1")));
}
