use mlrs_backend::error::PrimError;
use mlrs_backend::rng::{
    gaussian_matrix_draws, permutation, sparse_achlioptas_signs, validate_shape, Sign, SplitMix64,
};

#[test]
fn generator_matches_its_reference_stream() {
    let mut r = SplitMix64::new(0);
    assert_eq!(r.next_u64(), 0xe220a8397b1dcdaf);
    assert_eq!(r.next_u64(), 0x6e789e6aa1b965f4);
    assert_eq!(r.next_u64(), 0x06c45d188009454f);
    assert_eq!(r.next_u64(), 0xf88bb8a8724c81ec);
    let mut r = SplitMix64::new(42);
    assert_eq!(r.next_u64(), 13679457532755275413);
    assert_eq!(r.next_u64(), 2949826092126892291);
    assert_eq!(r.next_u64(), 5139283748462763858);
}

#[test]
fn unit_draws_are_53_bit_numerators() {
    let mut r = SplitMix64::new(1);
    assert_eq!(r.next_unit_numerator(), 5103132997656651);
    for _ in 0..100 {
        assert!(r.next_unit_numerator() < 1 << 53);
    }
}

#[test]
fn bounded_draws_stay_below_their_bound() {
    let mut r = SplitMix64::new(42);
    let draws: Vec<u64> = (0..8).map(|_| r.next_below(10)).collect();
    assert_eq!(draws, vec![3, 1, 8, 4, 0, 2, 5, 8]);
    let mut r = SplitMix64::new(7);
    assert_eq!(r.next_below(1), 0);
    assert_eq!(r.next_below(0), 0);
    for bound in [2u64, 3, 1 << 40, u64::MAX] {
        for _ in 0..50 {
            assert!(r.next_below(bound) < bound);
        }
    }
}

#[test]
fn bounds_up_to_one_draw_nothing() {
    let mut a = SplitMix64::new(9);
    let mut b = SplitMix64::new(9);
    a.next_below(1);
    assert_eq!(a.next_u64(), b.next_u64());
}

#[test]
fn permutations_are_reproducible_rearrangements() {
    assert_eq!(permutation(42, 8), vec![3, 1, 6, 2, 4, 0, 7, 5]);
    assert_eq!(permutation(7, 5), vec![4, 1, 3, 0, 2]);
    assert_eq!(permutation(0, 2), vec![0, 1]);
    assert_eq!(permutation(3, 1), vec![0]);
    assert_eq!(permutation(3, 0), Vec::<usize>::new());
    let mut p = permutation(123, 500);
    p.sort();
    assert_eq!(p, (0..500).collect::<Vec<usize>>());
}

#[test]
fn empty_projections_are_refused() {
    assert_eq!(
        validate_shape(0, 3),
        Err(PrimError::ShapeMismatch { operand: "n_components", rows: 0, cols: 3, len: 0 })
    );
    assert_eq!(
        validate_shape(2, 0),
        Err(PrimError::ShapeMismatch { operand: "n_features", rows: 2, cols: 0, len: 0 })
    );
    assert_eq!(validate_shape(2, 3), Ok(()));
}

#[test]
fn gaussian_draws_come_in_pairs() {
    assert_eq!(
        gaussian_matrix_draws(5, 1, 3),
        Ok(vec![
            (3483696855544120, 6776179192394470),
            (2096057823661432, 894769871667383),
        ])
    );
    assert!(gaussian_matrix_draws(5, 0, 3).is_err());
}

#[test]
fn sparse_signs_follow_the_density() {
    let half = 1u64 << 51;
    let full = 1u64 << 52;
    assert_eq!(
        sparse_achlioptas_signs(11, 2, 4, true, half, full),
        Ok(vec![
            Sign::Minus,
            Sign::Minus,
            Sign::Zero,
            Sign::Zero,
            Sign::Plus,
            Sign::Zero,
            Sign::Plus,
            Sign::Zero,
        ])
    );
    assert_eq!(
        sparse_achlioptas_signs(11, 2, 4, false, half, full),
        Err(PrimError::ShapeMismatch { operand: "density", rows: 0, cols: 1, len: 0 })
    );
}
