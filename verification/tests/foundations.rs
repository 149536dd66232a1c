use mlrs_backend::arith::{ceil_div, clamp_usize, product_is, saturating_mul, two_pow};
use mlrs_backend::backend::Device;
use mlrs_backend::chunks::chunk_bounds;
use mlrs_backend::error::{guard_u32, PrimError};
use mlrs_backend::flag::{is_flag_off, is_flag_on, parse_count, text_eq, text_is_one, text_is_zero};
use mlrs_backend::float_order::{
    bits_is_nan, bits_lt, f32_from_total_key, f32_total_key, f64_from_total_key, f64_total_key,
};
use mlrs_backend::launch::{
    fold_grid, launch_cubes, launch_dims_1d, launch_dims_1d_folded, launch_dims_2d,
    launch_dims_elementwise,
};
use mlrs_backend::matrix::{column_of, gather_rows, row_of};
use mlrs_backend::radix::{radix_sort_total, radix_sort_total_f32};
use mlrs_backend::ranking::rank_farthest;

#[test]
fn rounded_up_division_brackets_its_dividend() {
    assert_eq!(ceil_div(0, 7), 0);
    assert_eq!(ceil_div(7, 7), 1);
    assert_eq!(ceil_div(8, 7), 2);
    assert_eq!(ceil_div(usize::MAX, 1), usize::MAX);
    assert_eq!(ceil_div(usize::MAX, 2), usize::MAX / 2 + 1);
}

#[test]
fn products_are_checked_without_wrapping() {
    assert!(product_is(3, 4, 12));
    assert!(!product_is(3, 4, 11));
    assert!(!product_is(usize::MAX, 2, usize::MAX - 1));
    assert_eq!(saturating_mul(usize::MAX, 2), usize::MAX);
    assert_eq!(saturating_mul(6, 7), 42);
    assert_eq!(clamp_usize(9, 1, 4), 4);
    assert_eq!(clamp_usize(0, 1, 4), 1);
    assert_eq!(two_pow(10), 1024);
}

#[test]
fn dimensions_beyond_32_bits_are_refused() {
    assert_eq!(guard_u32("n", u32::MAX as usize), Ok(()));
    assert_eq!(
        guard_u32("n", u32::MAX as usize + 1),
        Err(PrimError::ShapeMismatch {
            operand: "n",
            rows: u32::MAX as usize + 1,
            cols: 0,
            len: u32::MAX as usize,
        })
    );
}

#[test]
fn flags_are_read_exactly() {
    assert!(text_is_zero("0"));
    assert!(!text_is_zero("00"));
    assert!(!text_is_zero(""));
    assert!(text_is_one("1"));
    assert!(!text_is_one("true"));
    assert!(text_eq("host", "host"));
    assert!(!text_eq("host", "hosts"));
    assert!(is_flag_on(Some("1")));
    assert!(!is_flag_on(None));
    assert!(is_flag_off(Some("0")));
    assert!(!is_flag_off(Some("1")));
}

#[test]
fn counts_are_parsed_as_decimal_numbers() {
    assert_eq!(parse_count("17"), Some(17));
    assert_eq!(parse_count("+17"), Some(17));
    assert_eq!(parse_count("007"), Some(7));
    assert_eq!(parse_count(""), None);
    assert_eq!(parse_count("+"), None);
    assert_eq!(parse_count("-1"), None);
    assert_eq!(parse_count(" 1"), None);
    assert_eq!(parse_count("1e3"), None);
    assert_eq!(parse_count("18446744073709551615"), Some(18446744073709551615));
    assert_eq!(parse_count("18446744073709551616"), None);
}

#[test]
fn bit_order_is_float_order() {
    let values = [-f64::INFINITY, -2.5, -0.0, 0.0, 1e-300, 1.0, f64::INFINITY, f64::NAN];
    for a in values {
        assert_eq!(bits_is_nan(a.to_bits()), a.is_nan());
        for b in values {
            assert_eq!(bits_lt(a.to_bits(), b.to_bits()), a < b);
            assert_eq!(
                f64_total_key(a.to_bits()) < f64_total_key(b.to_bits()),
                a.total_cmp(&b).is_lt()
            );
        }
        assert_eq!(f64_from_total_key(f64_total_key(a.to_bits())), a.to_bits());
    }
    for a in [-1.5f32, -0.0, 0.0, 3.0] {
        assert_eq!(f32_from_total_key(f32_total_key(a.to_bits())), a.to_bits());
    }
    assert!(f32_total_key((-0.0f32).to_bits()) < f32_total_key(0.0f32.to_bits()));
}

#[test]
fn sorting_is_the_total_order() {
    let values = [3.0, -1.0, f64::NAN, 0.0, -0.0, f64::NEG_INFINITY, 2.5e10, -7.25, 3.0];
    let bits: Vec<u64> = values.iter().map(|v| v.to_bits()).collect();
    let mut expect = values.to_vec();
    expect.sort_by(|a, b| a.total_cmp(b));
    let expect: Vec<u64> = expect.iter().map(|v| v.to_bits()).collect();
    assert_eq!(radix_sort_total(&bits), expect);

    let narrow: Vec<u32> = [2.0f32, -3.5, 0.0, 2.0].iter().map(|v| v.to_bits()).collect();
    let sorted: Vec<u32> = [-3.5f32, 0.0, 2.0, 2.0].iter().map(|v| v.to_bits()).collect();
    assert_eq!(radix_sort_total_f32(&narrow), sorted);
    assert_eq!(radix_sort_total(&vec![]), Vec::<u64>::new());
}

#[test]
fn ranking_is_farthest_first_with_low_index_ties() {
    let dist: Vec<u64> = [1.0, 4.0, 4.0, 0.0, 9.0].iter().map(|v: &f64| v.to_bits()).collect();
    assert_eq!(rank_farthest(&dist), vec![4, 1, 2, 0, 3]);
    let zeros: Vec<u64> = [0.0f64, -0.0].iter().map(|v| v.to_bits()).collect();
    assert_eq!(rank_farthest(&zeros), vec![0, 1]);
    let odd = [1.0f64, f64::NAN.copysign(-1.0), f64::INFINITY, f64::NAN.abs()].map(f64::to_bits).to_vec();
    assert_eq!(rank_farthest(&odd), vec![3, 2, 0, 1]);
}

#[test]
fn line_launches_cover_their_units() {
    let l = launch_dims_1d(1000, 256);
    assert_eq!((l.grid, l.block), ((4, 1, 1), (256, 1, 1)));
    let empty = launch_dims_1d(0, 256);
    assert_eq!(empty.grid, (1, 1, 1));
    assert_eq!(launch_dims_elementwise(513).grid, (3, 1, 1));
}

#[test]
fn folded_grids_keep_every_axis_within_the_cap() {
    assert_eq!(fold_grid(65_535), (65_535, 1));
    assert_eq!(fold_grid(65_536), (32_768, 2));
    assert_eq!(fold_grid(200_000), (50_000, 4));
    let l = launch_dims_1d_folded(65_535 * 256 + 1, 256);
    assert_eq!(l.grid, (32_768, 2, 1));
    assert!(l.grid.0 as u64 * l.grid.1 as u64 * 256 >= 65_535 * 256 + 1);
    assert_eq!(launch_cubes(0, 64).grid, (1, 1, 1));
    assert_eq!(launch_cubes(7, 64).block, (64, 1, 1));
}

#[test]
fn tile_launches_cover_rows_and_columns() {
    let l = launch_dims_2d(33, 16);
    assert_eq!((l.grid, l.block), ((3, 1, 1), (16, 16, 1)));
}

#[test]
fn chunks_hold_every_entry_once() {
    assert_eq!(chunk_bounds(10, 4), vec![(0, 4), (4, 8), (8, 10)]);
    assert_eq!(chunk_bounds(8, 4), vec![(0, 4), (4, 8)]);
    assert_eq!(chunk_bounds(0, 4), vec![]);
    for len in 1usize..40 {
        for size in 1usize..9 {
            let all: Vec<usize> =
                chunk_bounds(len, size).iter().flat_map(|&(lo, hi)| lo..hi).collect();
            assert_eq!(all, (0..len).collect::<Vec<usize>>());
        }
    }
}

#[test]
fn rows_and_columns_of_a_matrix() {
    let x = [1, 2, 3, 4, 5, 6];
    assert_eq!(row_of(&x, 2, 3, 1), vec![4, 5, 6]);
    assert_eq!(column_of(&x, 2, 3, 2), vec![3, 6]);
    assert_eq!(gather_rows(&x, 2, 3, &[1, 0, 1]), vec![4, 5, 6, 1, 2, 3, 4, 5, 6]);
}

#[test]
fn a_stated_device_wins_over_the_suggestion() {
    assert!(Device::Gpu.prefers_device(false));
    assert!(!Device::Cpu.prefers_device(true));
    assert!(Device::Auto.prefers_device(true));
    assert!(!Device::Auto.prefers_device(false));
}
