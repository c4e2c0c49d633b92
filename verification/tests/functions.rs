use step_perf::functions::{accum_fn, map_accum_fn, map_fn};
use step_perf::functions::map_fn::{
    col_wise_append, mask_col, mask_row, multihot_to_u64, row_wise_append, u64_to_multihot,
};
use step_perf::primitives::array::Array2;
use step_perf::primitives::select::MultiHotN;
use step_perf::primitives::tile::Tile;

fn array<T>(rows: usize, cols: usize, data: Vec<T>) -> Array2<T> {
    Array2::from_shape_vec((rows, cols), data).unwrap()
}

fn tile<T>(rows: usize, cols: usize, data: Vec<T>) -> Tile<T> {
    Tile::new(array(rows, cols, data), 4, false)
}

fn values<T: Clone>(tile: &Tile<T>) -> Vec<T> {
    tile.underlying.as_ref().unwrap().data.clone()
}

fn cell<T: Copy>(tile: &Tile<T>, i: usize, j: usize) -> T {
    *tile.underlying.as_ref().unwrap().get(i, j)
}

#[test]
fn test_row_wise_sum() {
    let arr = Array2::from_shape_fn(3, 4, |i: usize, j: usize| i as f32 + j as f32);
    let sums = (0..3)
        .map(|i| arr.data[4 * i..4 * i + 4].iter().sum::<f32>())
        .collect::<Vec<_>>();
    let in_data = Tile::new_padded(arr, 4, false, 3);
    let (flop_count, out_data) = map_fn::row_wise_sum_with(&in_data, Some(sums), 6, false);
    assert_eq!(flop_count, 2);
    assert_eq!(values(&out_data), vec![6.0, 10.0, 14.0]);

    let arr = Array2::from_shape_fn(3, 4, |i: usize, j: usize| (i + j) as u64);
    let in_data = Tile::new_padded(arr, 4, false, 3);
    let (flop_count, out_data) = map_fn::row_wise_sum(&in_data, 6, false);
    assert_eq!(flop_count, 2);
    assert_eq!(out_data, Tile::new_padded(array(3, 1, vec![6, 10, 14]), 4, false, 3));
}

#[test]
fn test_row_wise_append() {
    let arr = Array2::from_shape_fn(6, 4, |i: usize, j: usize| {
        if i < 3 { i as f32 + j as f32 } else { 0.0 }
    });
    let in_data = Tile::new_padded(arr, 4, false, 3);
    let arr_to_append = Array2::from_shape_fn(1, 4, |_i: usize, j: usize| 3 as f32 + j as f32);
    let data_to_append = Tile::new_padded(arr_to_append, 4, false, 1);

    let (flop_count, out_data) = row_wise_append(&in_data, &data_to_append, false);
    assert_eq!(out_data.offset, 4);
    assert_eq!(flop_count, 1);
    for i in 0..6 {
        for j in 0..4 {
            let want = if i < 4 { i as f32 + j as f32 } else { 0.0 };
            assert_eq!(cell(&out_data, i, j), want);
        }
    }
}

#[test]
fn test_col_wise_append() {
    // (4 rows, 6 cols): columns 0..3 already filled, columns 3..6 blank.
    let arr = Array2::from_shape_fn(4, 6, |i: usize, j: usize| {
        if j < 3 { i as f32 + j as f32 } else { 0.0 }
    });
    let in_data = Tile::new_padded(arr, 4, false, 3);
    // A row of four, which becomes the column.
    let arr_to_append = Array2::from_shape_fn(1, 4, |_i: usize, j: usize| 10.0 * (j as f32 + 1.0));
    let data_to_append = Tile::new_padded(arr_to_append, 4, false, 1);

    let (flop_count, out_data) = col_wise_append(&in_data, &data_to_append, false);

    assert_eq!(out_data.offset, 4);
    assert_eq!(flop_count, 1);
    for i in 0..4 {
        assert_eq!(cell(&out_data, i, 3), 10.0 * (i as f32 + 1.0));
    }
    for j in 0..3 {
        for i in 0..4 {
            assert_eq!(cell(&out_data, i, j), i as f32 + j as f32);
        }
    }
    for j in 4..6 {
        for i in 0..4 {
            assert_eq!(cell(&out_data, i, j), 0.0);
        }
    }
}

fn count_tile(count: u64) -> Tile<u64> {
    Tile::new(array(1, 1, vec![count]), 8, false)
}

#[test]
fn test_mask_col_partial_is_the_intra_tile_case() {
    let (cycles, out) = mask_col::<u64, f32>(&count_tile(3), false, 2, 8, false, 0.0, 1.0);
    assert_eq!(cycles, 1);
    assert_eq!(out.shape, (2, 8));
    for i in 0..2 {
        for j in 0..8 {
            let want = if j < 3 { 1.0 } else { 0.0 };
            assert_eq!(cell(&out, i, j), want, "row {i} col {j}");
        }
    }
}

#[test]
fn test_mask_col_clamps_to_all_ones() {
    for count in [8u64, 9, 4096] {
        let (_c, out) = mask_col::<u64, f32>(&count_tile(count), false, 1, 8, false, 0.0, 1.0);
        for j in 0..8 {
            assert_eq!(cell(&out, 0, j), 1.0, "count {count} col {j} should be valid");
        }
    }
}

#[test]
fn test_mask_col_zero_is_all_zeros() {
    let (_c, out) = mask_col::<u64, f32>(&count_tile(0), false, 1, 8, false, 0.0, 1.0);
    for j in 0..8 {
        assert_eq!(cell(&out, 0, j), 0.0, "col {j}");
    }
}

#[test]
fn test_mask_col_wrapped_negative_count_masks_everything() {
    for count in [u64::MAX, u64::MAX - 31, 1u64 << 63] {
        let (_c, out) = mask_col::<u64, f32>(&count_tile(count), false, 1, 8, false, 0.0, 1.0);
        for j in 0..8 {
            assert_eq!(
                cell(&out, 0, j), 0.0,
                "wrapped count {count} must mask column {j}, not saturate to valid"
            );
        }
    }
}

#[test]
fn test_mask_col_is_not_a_transposed_mask_row() {
    let in_data = count_tile(2);
    let (_c, c) = mask_col::<u64, f32>(&in_data, false, 4, 4, false, 0.0, 1.0);
    let (_c2, rw) = mask_row::<u64, f32>(&in_data, false, 4, 4, false, 0.0, 1.0);
    // A prefix of the columns in every row ...
    assert_eq!((cell(&c, 0, 0), cell(&c, 0, 1), cell(&c, 0, 2)), (1.0, 1.0, 0.0));
    assert_eq!((cell(&c, 3, 0), cell(&c, 3, 1), cell(&c, 3, 2)), (1.0, 1.0, 0.0));
    // ... versus one whole row set.
    assert_eq!((cell(&rw, 2, 0), cell(&rw, 2, 3)), (1.0, 1.0));
    assert_eq!((cell(&rw, 0, 0), cell(&rw, 3, 0)), (0.0, 0.0));
}

#[test]
fn mask_col_tells_ragged_tiles_apart() {
    // 91 valid columns in tiles of 32: full, full, 27, and a tile of padding
    // whose count has wrapped around.
    for (tile, want) in [(0u64, 32usize), (1, 32), (2, 27), (3, 0)] {
        let count = 91u64.wrapping_sub(tile * 32);
        let (_c, out) = mask_col::<u64, u8>(&count_tile(count), false, 1, 32, true, 0, 1);
        assert_eq!(values(&out).iter().filter(|x| **x == 1).count(), want);
        assert_eq!(out.bytes_per_elem, 2);
    }
}

#[test]
fn test_mask_row() {
    let (cycles, out_data) = mask_row::<u64, f32>(&count_tile(2), false, 5, 3, false, 0.0, 1.0);
    assert_eq!(cycles, 1);
    assert_eq!(out_data.shape, (5, 3));
    for i in 0..5 {
        for j in 0..3 {
            if i == 2 {
                assert_eq!(cell(&out_data, i, j), 1.0, "Row {} col {} should be 1.0", i, j);
            } else {
                assert_eq!(cell(&out_data, i, j), 0.0, "Row {} col {} should be 0.0", i, j);
            }
        }
    }
}

#[test]
fn test_mask_row_first_row() {
    let in_data = Tile::new(array(1, 1, vec![0u32]), 4, false);
    let (cycles, out_data) = mask_row::<u32, f64>(&in_data, false, 3, 4, false, 0.0, 1.0);
    assert_eq!(cycles, 1);
    assert_eq!(out_data.shape, (3, 4));
    for j in 0..4 {
        assert_eq!(cell(&out_data, 0, j), 1.0);
    }
    for i in 1..3 {
        for j in 0..4 {
            assert_eq!(cell(&out_data, i, j), 0.0);
        }
    }
}

#[test]
fn test_mask_row_last_row() {
    let (cycles, out_data) = mask_row::<u64, f32>(&count_tile(4), false, 5, 2, false, 0.0, 1.0);
    assert_eq!(cycles, 1);
    assert_eq!(out_data.shape, (5, 2));
    for j in 0..2 {
        assert_eq!(cell(&out_data, 4, j), 1.0);
    }
    for i in 0..4 {
        for j in 0..2 {
            assert_eq!(cell(&out_data, i, j), 0.0);
        }
    }
}

#[test]
fn test_multihot_to_u64_single() {
    let mh = MultiHotN::new(vec![false, false, true, false], false);
    let (cycles, tile) = multihot_to_u64(&mh, 1, false);
    assert_eq!(cycles, 1);
    assert_eq!(tile.shape, (1, 1));
    assert_eq!(cell(&tile, 0, 0), 2);
}

#[test]
fn test_multihot_to_u64_multiple() {
    let mh = MultiHotN::new(vec![true, false, true, true, false], false);
    let (cycles, tile) = multihot_to_u64(&mh, 1, false);
    assert_eq!(cycles, 1);
    assert_eq!(tile.shape, (1, 3));
    assert_eq!(cell(&tile, 0, 0), 0);
    assert_eq!(cell(&tile, 0, 1), 2);
    assert_eq!(cell(&tile, 0, 2), 3);
}

#[test]
fn test_multihot_to_u64_none_selected() {
    let mh = MultiHotN::new(vec![false, false, false], false);
    let (cycles, tile) = multihot_to_u64(&mh, 1, false);
    assert_eq!(cycles, 1);
    assert_eq!(tile.shape, (1, 1));
    assert_eq!(cell(&tile, 0, 0), 0);
}

#[test]
fn test_multihot_to_u64_all_selected() {
    let mh = MultiHotN::new(vec![true, true, true], false);
    let (cycles, tile) = multihot_to_u64(&mh, 1, true);
    assert_eq!(cycles, 1);
    assert_eq!(tile.shape, (1, 3));
    assert!(tile.read_from_mu);
    assert_eq!(cell(&tile, 0, 0), 0);
    assert_eq!(cell(&tile, 0, 1), 1);
    assert_eq!(cell(&tile, 0, 2), 2);
}

#[test]
fn test_u64_to_multihot_single() {
    let (cycles, mh) = u64_to_multihot(&count_tile(2), 4, 1, false);
    assert_eq!(cycles, 1);
    assert_eq!(mh.underlying.len(), 4);
    assert_eq!(mh.underlying, vec![false, false, true, false]);
}

#[test]
fn test_u64_to_multihot_multiple() {
    let tile = Tile::new(array(1, 3, vec![0u64, 2, 3]), 8, false);
    let (cycles, mh) = u64_to_multihot(&tile, 5, 1, true);
    assert_eq!(cycles, 1);
    assert_eq!(mh.underlying.len(), 5);
    assert_eq!(mh.underlying, vec![true, false, true, true, false]);
    assert!(mh.read_from_mu);
}

#[test]
fn test_u64_to_multihot_empty() {
    let (cycles, mh) = u64_to_multihot(&count_tile(10), 3, 1, false);
    assert_eq!(cycles, 1);
    assert_eq!(mh.underlying, vec![false, false, false]);
}

#[test]
fn test_u64_to_multihot_roundtrip() {
    let original = MultiHotN::new(vec![true, false, true, false, true], false);
    let (_, tile) = multihot_to_u64(&original, 1, false);
    let (_, reconstructed) = u64_to_multihot(&tile, 5, 1, false);
    assert_eq!(original.underlying, reconstructed.underlying);
}

fn zeros(rows: usize, cols: usize) -> Tile<f32> {
    Tile::new(array(rows, cols, vec![0.0; rows * cols]), 2, false)
}

const TILE_ROW: usize = 64;
const TILE_COL: usize = 512;
const VALID_ROWS: usize = 16;

#[test]
fn add_preserves_input_offset() {
    // Timing only: the input is blank.
    let in1: Tile<f32> = Tile::new_blank_padded((TILE_ROW, TILE_COL), 2, false, VALID_ROWS);
    let acc: Tile<f32> = zeros(TILE_ROW, TILE_COL);
    let (_cycles, out) = accum_fn::add(&in1, &acc, 6400, false, 128);
    assert_eq!(out.offset, VALID_ROWS, "blank path dropped the offset");

    let ones = array(TILE_ROW, TILE_COL, vec![1.0f32; TILE_ROW * TILE_COL]);
    let in1: Tile<f32> = Tile::new_padded(ones, 2, false, VALID_ROWS);
    let acc: Tile<f32> = zeros(TILE_ROW, TILE_COL);
    let (_cycles, out) = accum_fn::add(&in1, &acc, 6400, false, 128);
    assert_eq!(out.offset, VALID_ROWS, "functional path dropped the offset");
}

#[test]
fn mul_preserves_input_offset() {
    let in1: Tile<f32> = Tile::new_blank_padded((TILE_ROW, TILE_COL), 2, false, VALID_ROWS);
    let acc: Tile<f32> = zeros(TILE_ROW, TILE_COL);
    let (_cycles, out) = accum_fn::mul(&in1, &acc, 6400, false, 128);
    assert_eq!(out.offset, VALID_ROWS, "blank path dropped the offset");

    let ones = array(TILE_ROW, TILE_COL, vec![1.0f32; TILE_ROW * TILE_COL]);
    let in1: Tile<f32> = Tile::new_padded(ones, 2, false, VALID_ROWS);
    let acc: Tile<f32> = zeros(TILE_ROW, TILE_COL);
    let (_cycles, out) = accum_fn::mul(&in1, &acc, 6400, false, 128);
    assert_eq!(out.offset, VALID_ROWS, "functional path dropped the offset");
}

#[test]
fn an_empty_accumulator_has_no_say_in_the_padding() {
    let row: Tile<f32> = Tile::new_blank_padded((1, 4), 4, false, 1);
    let empty: Tile<f32> = Tile::new_blank_padded((0, 4), 4, false, 0);
    let (_cycles, out) = accum_fn::mul(&row, &empty, 1, false, 0);
    assert_eq!(out.offset, 1);
    // A row that is repeated for a taller accumulator takes its padding.
    let taller: Tile<f32> = Tile::new_blank_padded((3, 4), 4, false, 2);
    let (_cycles, out) = accum_fn::mul(&row, &taller, 1, false, 0);
    assert_eq!(out.offset, 2);
}

#[test]
fn add_empty_accumulator_adopts_input_shape() {
    let in1: Tile<f32> = Tile::new(array(13, 64, vec![1.0f32; 13 * 64]), 4, false);
    let acc: Tile<f32> = Tile::new(array(0, 64, vec![]), 4, false);
    let (_cycles, out) = accum_fn::add(&in1, &acc, 6400, false, 122);
    assert_eq!(out.shape, (13, 64));
    let out_arr = out.underlying.expect("output should carry data");
    assert_eq!((out_arr.rows, out_arr.cols), (13, 64));
    assert!(out_arr.data.iter().all(|&v| v == 1.0f32));
}

#[test]
fn add_matching_shapes_accumulates() {
    let in1: Tile<f32> = Tile::new(array(13, 64, vec![1.0f32; 13 * 64]), 4, false);
    let acc: Tile<f32> = Tile::new(array(13, 64, vec![2.0f32; 13 * 64]), 4, false);
    let (_cycles, out) = accum_fn::add(&in1, &acc, 6400, false, 122);
    let out_arr = out.underlying.expect("output should carry data");
    assert_eq!((out_arr.rows, out_arr.cols), (13, 64));
    assert!(out_arr.data.iter().all(|&v| v == 3.0f32));
}

#[test]
fn accumulation_combines_cells_and_counts_cycles() {
    let in1 = tile(2, 3, vec![1u32, 2, 3, 4, 5, 6]);
    let in2 = tile(2, 3, vec![10u32, 20, 30, 40, 50, 60]);
    let (cycles, sum) = accum_fn::add(&in1, &in2, 4, true, 0);
    assert_eq!(cycles, 2);
    assert_eq!(values(&sum), vec![11, 22, 33, 44, 55, 66]);
    assert!(sum.read_from_mu);
    let (cycles, product) = accum_fn::mul(&in1, &in2, 6, false, 0);
    assert_eq!(cycles, 1);
    assert_eq!(values(&product), vec![10, 40, 90, 160, 250, 360]);
}

#[test]
fn retiling_joins_tiles() {
    let right = tile(2, 1, vec![5u32, 6]);
    let left = tile(2, 2, vec![1u32, 2, 3, 4]);
    let (cycles, joined) = accum_fn::retile_col(&right, &left, 1000, true, 0);
    assert_eq!(cycles, 0);
    assert_eq!(joined.shape, (2, 3));
    assert_eq!(values(&joined), vec![1, 2, 5, 3, 4, 6]);

    let below = Tile::new_padded(array(2, 2, vec![5u32, 6, 0, 0]), 4, false, 1);
    let (cycles, joined) = accum_fn::retile_row(&below, &left, 1000, true, 0);
    assert_eq!(cycles, 0);
    assert_eq!(joined.shape, (4, 2));
    assert_eq!(values(&joined), vec![1, 2, 3, 4, 5, 6, 0, 0]);
    assert_eq!(joined.offset, 3);
}

#[test]
fn retiling_a_blank_tile_keeps_only_the_shape() {
    let blank: Tile<u32> = Tile::new_blank((2, 2), 4, true);
    let empty: Tile<u32> = Tile::new_empty((2, 0), 4, false);
    let (_, joined) = accum_fn::retile_col(&blank, &empty, 1000, true, 0);
    assert_eq!(joined.shape, (2, 2));
    assert!(joined.underlying.is_none());
}

#[test]
fn signal_follows_the_data() {
    let (cycles, out) = accum_fn::signal_req_all_read(
        &tile(1, 1, vec![7u32]),
        &count_tile(4),
        false,
        0,
    );
    assert_eq!(cycles, 1);
    assert_eq!(values(&out), vec![1]);
}

#[test]
fn matmul_multiplies_matrices() {
    let a = tile(2, 3, vec![1u64, 2, 3, 4, 5, 6]);
    let b = tile(3, 2, vec![7u64, 8, 9, 10, 11, 12]);
    // 2 * 2 * 3 * 2 operations.
    let (cycles, out) = map_fn::matmul(&a, &b, 5, false, false);
    assert_eq!(cycles, 5);
    assert_eq!(out.shape, (2, 2));
    assert_eq!(values(&out), vec![58, 64, 139, 154]);

    let b_t = tile(2, 3, vec![7u64, 9, 11, 8, 10, 12]);
    let (_, out_t) = map_fn::matmul(&a, &b_t, 5, false, true);
    assert_eq!(values(&out_t), vec![58, 64, 139, 154]);

    let acc = tile(2, 2, vec![1u64, 1, 1, 1]);
    let (_, out) = map_accum_fn::matmul(&a, &b, &acc, 5, false, false);
    assert_eq!(values(&out), vec![59, 65, 140, 155]);
    let empty = Tile::new(array(0, 2, vec![]), 4, false);
    let (_, out) = map_accum_fn::dyn_matmul(&a, &b, &empty, 5, false, false);
    assert_eq!(values(&out), vec![58, 64, 139, 154]);
}

#[test]
fn combinations_repeat_a_row_or_a_column() {
    let grid = tile(2, 2, vec![8u64, 6, 4, 2]);
    let row = tile(1, 2, vec![2u64, 1]);
    let column = tile(2, 1, vec![4u64, 2]);
    assert_eq!(values(&map_fn::add(&grid, &row, 1, false).1), vec![10, 7, 6, 3]);
    assert_eq!(values(&map_fn::sub(&grid, &row, 1, false).1), vec![6, 5, 2, 1]);
    assert_eq!(values(&map_fn::mul(&grid, &column, 1, false).1), vec![32, 24, 8, 4]);
    assert_eq!(values(&map_fn::div(&grid, &column, 1, false).1), vec![2, 1, 2, 1]);
    assert_eq!(values(&map_fn::max(&grid, &column, 1, false).1), vec![8, 6, 4, 2]);
    assert_eq!(map_fn::add(&grid, &row, 3, false).0, 2);
}

#[test]
fn constants_apply_to_every_cell() {
    let grid = tile(2, 2, vec![8u64, 6, 4, 2]);
    assert_eq!(values(&map_fn::add_constant(&grid, 1, 1, false).1), vec![9, 7, 5, 3]);
    assert_eq!(values(&map_fn::sub_constant(&grid, 1, 1, false).1), vec![7, 5, 3, 1]);
    assert_eq!(values(&map_fn::mul_constant(&grid, 3, 1, false).1), vec![24, 18, 12, 6]);
}

#[test]
fn scalar_functions_apply_to_every_cell() {
    let in_data = tile(1, 3, vec![-1.0f32, 0.0, 1.0]);
    let (cycles, out) = map_fn::silu(&in_data, |x: f32| x / (1.0 + (-x).exp()), 1, false);
    assert_eq!(cycles, 24);
    assert_eq!(cell(&out, 0, 1), 0.0);
    assert!((cell(&out, 0, 2) - 0.731_058_6).abs() < 1e-6);
    let (cycles, out) = map_fn::pow2(&in_data, |x: f32| 2.0f32.powf(x), 1, false);
    assert_eq!(cycles, 12);
    assert_eq!(values(&out), vec![0.5, 1.0, 2.0]);
    assert_eq!(values(&map_fn::exp(&in_data, |x: f32| x.exp(), 1, false).1)[1], 1.0);
    assert_eq!(values(&map_fn::tanh(&in_data, |x: f32| x.tanh(), 1, false).1)[1], 0.0);
    assert_eq!(values(&map_fn::pow(&in_data, |x: f32| x.powi(3), 1, false).1), vec![-1.0, 0.0, 1.0]);
    assert_eq!(
        values(&map_fn::rsqrt(&tile(1, 1, vec![4.0f32]), |x: f32| 1.0 / x.sqrt(), 1, false).1),
        vec![0.5]
    );
}

#[test]
fn row_wise_max_takes_the_largest_of_each_row() {
    let (cycles, out) = map_fn::row_wise_max(&tile(2, 3, vec![1i64, 9, 3, -5, -2, -7]), 6, false);
    assert_eq!(cycles, 1);
    assert_eq!(out.shape, (2, 1));
    assert_eq!(values(&out), vec![9, -2]);
}

#[test]
fn u64_scalars_apply_to_every_cell() {
    let in_data = tile(1, 2, vec![10u64, 20]);
    let (_, out) = map_fn::sub_u64_scalar(&in_data, &count_tile(3), |x: u64| x, false);
    assert_eq!(values(&out), vec![7, 17]);
    let (_, out) = map_fn::mul_by_u64_scalar(&in_data, &count_tile(3), |x: u64| x, false);
    assert_eq!(values(&out), vec![30, 60]);
}

#[test]
fn set_offset_marks_the_valid_rows() {
    let (_, out) = map_fn::set_offset(&tile(4, 1, vec![1u32, 2, 3, 4]), &count_tile(3), true);
    assert_eq!(out.offset, 3);
    assert!(out.read_from_mu);
    assert_eq!(values(&out), vec![1, 2, 3, 4]);
}

#[test]
fn cache_write_address_is_slot_plus_length() {
    let (cycles, out) = map_fn::cache_write_addr_gen(&count_tile(3), &count_tile(5), 16, 1, false);
    assert_eq!(cycles, 1);
    assert_eq!(values(&out), vec![3 * 16 + 5]);
}

#[test]
fn equality_selects_an_output() {
    let same = map_fn::is_equal_scalar(&count_tile(3), &count_tile(3), false).1;
    let other = map_fn::is_equal_scalar(&count_tile(3), &count_tile(4), false).1;
    assert_eq!(same.underlying, vec![true, false]);
    assert_eq!(other.underlying, vec![false, true]);
}

#[test]
fn rows_are_repeated() {
    let (_, out) = map_fn::broadcast_rows(&tile(1, 2, vec![1u32, 2]), 3, 1, false);
    assert_eq!(out.shape, (3, 2));
    assert_eq!(values(&out), vec![1, 2, 1, 2, 1, 2]);
}

#[test]
fn selection_becomes_its_only_index() {
    let sel = MultiHotN::new(vec![false, true, false], false);
    assert_eq!(values(&map_fn::select_to_scalar(&sel, 1, false).1), vec![1]);
    assert_eq!(values(&map_fn::to_const_int(&sel, 42, false).1), vec![42]);
}

#[test]
fn a_cloned_tile_equals_its_original() {
    let original = tile(2, 2, vec![1u32, 2, 3, 4]);
    let copy = original.clone();
    assert_eq!(copy, original);
    assert_eq!(values(&copy), vec![1, 2, 3, 4]);
}
