use step_perf::memory::random_tile_address::{random_tile_byte_addresses, RandomTileAddressError};
use step_perf::memory::tile_base_addr;

#[test]
fn rank_two_row_major_addresses() {
    let addresses = random_tile_byte_addresses(&[2, 3], 4, 1, 2, 4, 100, 4).unwrap();
    assert_eq!(addresses, vec![132, 136]);
}

#[test]
fn rank_three_flattens_leading_dimensions() {
    let addresses = random_tile_byte_addresses(&[2, 2, 3], 7, 1, 2, 4, 100, 4).unwrap();
    assert_eq!(addresses, vec![156, 160]);
}

#[test]
fn multirow_tile_uses_physical_row_stride() {
    let addresses = random_tile_byte_addresses(&[2, 3], 1, 2, 4, 1, 100, 2).unwrap();
    assert_eq!(addresses, vec![104, 106, 116, 118]);
}

#[test]
fn rejects_out_of_bounds_tile_before_address_generation() {
    assert_eq!(
        random_tile_byte_addresses(&[2, 3, 4], 24, 1, 1, 4, 0, 4),
        Err(RandomTileAddressError::OutOfBounds {
            index: 24,
            tile_count: 24,
        })
    );
}

#[test]
fn preserves_a_base_above_four_gibibytes() {
    let base = (1_u64 << 32) + 128;
    assert_eq!(
        random_tile_byte_addresses(&[1, 1], 0, 1, 1, 8, base, 8).unwrap(),
        vec![base]
    );
}

#[test]
fn rejects_an_allocation_of_rank_one() {
    assert_eq!(
        random_tile_byte_addresses(&[4], 0, 1, 1, 4, 0, 4),
        Err(RandomTileAddressError::Rank(1))
    );
}

#[test]
fn rejects_empty_geometry() {
    for (row, col, bytes) in [(0, 1, 1), (1, 0, 1), (1, 1, 0)] {
        assert_eq!(
            random_tile_byte_addresses(&[2, 2], 0, row, col, bytes, 0, 4),
            Err(RandomTileAddressError::ZeroGeometry)
        );
    }
}

#[test]
fn rejects_a_zero_increment() {
    assert_eq!(
        random_tile_byte_addresses(&[2, 2], 0, 1, 1, 1, 0, 0),
        Err(RandomTileAddressError::ZeroAddressIncrement)
    );
}

#[test]
fn reports_overflow_of_count_and_address() {
    let huge = usize::MAX / 2;
    assert_eq!(
        random_tile_byte_addresses(&[huge, 3], 0, 1, 1, 1, 0, 1),
        Err(RandomTileAddressError::Overflow)
    );
    assert_eq!(
        random_tile_byte_addresses(&[1, 2], 1, 1, 1, 8, u64::MAX - 4, 8),
        Err(RandomTileAddressError::Overflow)
    );
}

#[test]
fn first_address_is_the_base_plus_the_tile_offset() {
    for idx in 0..12 {
        let addresses = random_tile_byte_addresses(&[2, 2, 3], idx, 2, 4, 2, 1000, 8).unwrap();
        assert_eq!(addresses[0], 1000 + tile_base_addr(idx, 3, 2, 4, 2));
    }
}

#[test]
fn tiles_share_no_address() {
    let mut seen = std::collections::HashSet::new();
    for idx in 0..6 {
        for address in random_tile_byte_addresses(&[2, 3], idx, 2, 4, 1, 0, 2).unwrap() {
            assert!(seen.insert(address));
        }
    }
    assert_eq!(seen.len(), 24);
}

#[test]
fn tile_base_counts_rows_of_the_tensor() {
    assert_eq!(tile_base_addr(4, 3, 2, 5, 4), (1 * 2 * 3 + 1) * 5 * 4);
}

#[test]
fn the_tiles_partition_the_allocation() {
    // Three slabs of two by two tiles, of two rows of eight bytes each.
    let mut all = Vec::new();
    for tile in 0..12 {
        all.extend(random_tile_byte_addresses(&[3, 2, 2], tile, 2, 4, 2, 1000, 4).unwrap());
    }
    all.sort();
    let expected: Vec<u64> = (0..12 * 2 * 8 / 4).map(|k| 1000 + 4 * k).collect();
    assert_eq!(all, expected);
}
