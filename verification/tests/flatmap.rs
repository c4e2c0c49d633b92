use step_perf::functions::accum_fn::{retile_col, retile_row};
use step_perf::operator::accum::{Accum, AccumConfig};
use step_perf::operator::flatmap::{
    CacheReadAddrGen, DynAddrGen, ExpertAddrGen, FilterLastTile, RetileStreamify,
};
use step_perf::operator::flatmap_decomp::{
    FlatmapCounter, FlatmapFilterRowStreamify, FlatmapRowStreamify,
};
use step_perf::operator::reshape::Reshape;
use step_perf::operator::retile_streamify;
use step_perf::primitives::array::Array2;
use step_perf::primitives::buffer::Buffer;
use step_perf::primitives::elem::Elem;
use step_perf::primitives::select::MultiHotN;
use step_perf::primitives::tile::Tile;

fn array<T>(rows: usize, cols: usize, data: Vec<T>) -> Array2<T> {
    Array2::from_shape_vec((rows, cols), data).unwrap()
}

fn filled(rows: usize, cols: usize, v: i32) -> Tile<i32> {
    Tile::new(array(rows, cols, vec![v; rows * cols]), 4, true)
}

/// Three tiles of three columns, which hold 0 to 8.
fn columns() -> Vec<Elem<Tile<i32>>> {
    let tiles = (0..3)
        .map(|i| Tile::new(Array2::from_shape_fn(4, 3, |_r, c| 3 * i + c as i32), 4, true))
        .collect();
    Buffer::new(vec![3], tiles, 0).to_elem_iter()
}

/// Three tiles of three rows, which hold 0 to 8; `offset` of the last count.
fn rows(offset: usize) -> Vec<Elem<Tile<i32>>> {
    let tiles = (0..3)
        .map(|i| {
            let data = Array2::from_shape_fn(3, 4, |r, _c| 3 * i + r as i32);
            Tile::new_padded(data, 4, true, if i == 2 { offset } else { 3 })
        })
        .collect();
    Buffer::new(vec![3], tiles, 0).to_elem_iter()
}

fn singles(n: i32, rows: usize, cols: usize) -> Vec<Elem<Tile<i32>>> {
    let tiles: Vec<Tile<i32>> = (0..n).map(|i| filled(rows, cols, i)).collect();
    Buffer::new(vec![n as usize], tiles, 0).to_elem_iter()
}

#[test]
fn flatmap_test_retile_col() {
    // [1,3] => [1,9], [4,3] tile => [4,1] tile
    let op = RetileStreamify::new(false, false, 1, 0);
    let out: Vec<_> = columns().iter().flat_map(|e| op.step(e)).collect();
    assert_eq!(out, singles(9, 4, 1));
}

#[test]
fn flatmap_test_retile_row() {
    // [1,3] => [1,9], [3,4] tile => [1,4] tile
    let op = RetileStreamify::new(true, false, 1, 0);
    let out: Vec<_> = rows(3).iter().flat_map(|e| op.step(e)).collect();
    assert_eq!(out, singles(9, 1, 4));
}

#[test]
fn flatmap_test_retile_row_filter() {
    // [1,3] => [1,7]: two rows of the last tile are padding
    let op = RetileStreamify::new(true, true, 1, 0);
    let out: Vec<_> = rows(1).iter().flat_map(|e| op.step(e)).collect();
    assert_eq!(out, singles(7, 1, 4));
}

#[test]
fn retile_streamify_test_retile_col() {
    // [1,3] => [1,9], [4,3] tile => [1,4] tile
    let op = retile_streamify::RetileStreamify::new(false, false, 0);
    let out: Vec<_> = columns().iter().flat_map(|e| op.step(e)).collect();
    assert_eq!(out, singles(9, 1, 4));
}

#[test]
fn retile_streamify_test_retile_row() {
    let op = retile_streamify::RetileStreamify::new(true, false, 0);
    let out: Vec<_> = rows(3).iter().flat_map(|e| op.step(e)).collect();
    assert_eq!(out, singles(9, 1, 4));
}

#[test]
fn retile_streamify_test_retile_row_filter() {
    let op = retile_streamify::RetileStreamify::new(true, true, 0);
    let out: Vec<_> = rows(1).iter().flat_map(|e| op.step(e)).collect();
    assert_eq!(out, singles(7, 1, 4));
}

#[test]
fn chunks_join_to_the_tile_again() {
    let data = Array2::from_shape_fn(4, 6, |r, c| (10 * r + c) as i32);
    let tile = Tile::new_padded(data, 4, true, 3);
    let by_rows = RetileStreamify::new(true, false, 2, 0).step(&Elem::ValStop(tile.clone(), 1));
    assert_eq!(by_rows.len(), 2);
    let mut joined = Tile::new_empty((0, 6), 4, true);
    for elem in by_rows.iter() {
        let chunk = match elem {
            Elem::Val(chunk) => chunk,
            Elem::ValStop(chunk, _) => chunk,
        };
        joined = retile_row(chunk, &joined, 1, true, 0).1;
    }
    assert_eq!(joined, tile);

    let by_cols = RetileStreamify::new(false, false, 2, 0).step(&Elem::ValStop(tile.clone(), 1));
    assert_eq!(by_cols.len(), 3);
    let mut joined = Tile::new_empty((4, 0), 4, true);
    for elem in by_cols.iter() {
        let chunk = match elem {
            Elem::Val(chunk) => chunk,
            Elem::ValStop(chunk, _) => chunk,
        };
        joined = retile_col(chunk, &joined, 1, true, 0).1;
    }
    assert_eq!(joined, tile);
}

fn one_hot(width: usize, i: usize) -> MultiHotN {
    let mut flags = vec![false; width];
    flags[i] = true;
    MultiHotN::new(flags, false)
}

/// The `[1,1]` tile for one address.
fn addr_tile(addr: u64) -> Tile<u64> {
    Tile::new(array(1, 1, vec![addr]), 8, false)
}

fn expert_addresses() -> Vec<Elem<Tile<u64>>> {
    let mut gold = vec![];
    for expert in [2u64, 1, 3, 7] {
        for i in 0..3 {
            gold.push(Elem::ValStop(addr_tile(expert * 3 + i), if i < 2 { 1 } else { 2 }));
        }
    }
    gold
}

#[test]
fn test_expert_addr_gen() {
    let op = ExpertAddrGen::new(3, 0, 0);
    let out: Vec<_> =
        [2, 1, 3, 7].iter().flat_map(|e| op.step(&Elem::Val(one_hot(8, *e)))).collect();
    assert_eq!(out, expert_addresses());
}

#[test]
fn test_dyn_addr_gen_expert_equivalence() {
    let op = DynAddrGen::new(&vec![3, 1], &vec![1, 1], &vec![3, 1], 0, 0);
    let out: Vec<_> =
        [2, 1, 3, 7].iter().flat_map(|e| op.step(&Elem::Val(one_hot(8, *e)))).collect();
    assert_eq!(out, expert_addresses());
}

#[test]
fn test_dyn_addr_gen_strided_view() {
    // A [2,3] grid read transposed; each index steps past a slab of 6 tiles.
    let op = DynAddrGen::new(&vec![2, 3], &vec![1, 3], &vec![3, 2], 100, 0);
    let out: Vec<_> = [0, 2].iter().flat_map(|b| op.step(&Elem::Val(addr_tile(*b)))).collect();
    let view: Vec<(u64, Option<u32>)> =
        vec![(0, None), (3, Some(1)), (1, None), (4, Some(1)), (2, None), (5, Some(2))];
    let mut gold = vec![];
    for base in [0u64, 2] {
        for (offset, stop) in view.iter() {
            let tile = addr_tile(100 + base * 6 + offset);
            gold.push(match stop {
                None => Elem::Val(tile),
                Some(level) => Elem::ValStop(tile, *level),
            });
        }
    }
    assert_eq!(out, gold);
}

#[test]
fn test_dyn_addr_gen_input_stop_token() {
    let op = DynAddrGen::new(&vec![2, 1], &vec![1, 1], &vec![2, 1], 0, 0);
    let input = vec![Elem::Val(addr_tile(0)), Elem::ValStop(addr_tile(1), 1)];
    let out: Vec<_> = input.iter().flat_map(|e| op.step(e)).collect();
    let gold = vec![
        Elem::ValStop(addr_tile(0), 1),
        Elem::ValStop(addr_tile(1), 2),
        Elem::ValStop(addr_tile(2), 1),
        Elem::ValStop(addr_tile(3), 3),
    ];
    assert_eq!(out, gold);
}

#[test]
fn test_cache_read_addr_gen() {
    let op = CacheReadAddrGen::new(16, 0);
    let mut out = vec![];
    let mut gold = vec![];
    for (idx, seq_len) in [(0u64, 2u64), (3, 4), (11, 3)] {
        let idx_elem = Elem::Val(addr_tile(idx));
        for (_, elem) in op.step(&idx_elem, &Elem::Val(addr_tile(seq_len))) {
            out.push(elem);
        }
        for i in 0..seq_len - 1 {
            gold.push(Elem::Val(addr_tile(idx * 16 + i)));
        }
        gold.push(Elem::ValStop(addr_tile(idx * 16 + seq_len - 1), 1));
    }
    assert_eq!(out, gold);
}

#[test]
fn test_filter_last_tile() {
    let op = FilterLastTile::new(0);
    let mut out = vec![];
    let mut gold = vec![];
    for seq_len in [2u64, 4, 3] {
        out.extend(op.step(&Elem::Val(addr_tile(seq_len))));
        for _ in 0..seq_len - 1 {
            gold.push(Elem::Val(MultiHotN::new(vec![false, true], false)));
        }
        gold.push(Elem::ValStop(MultiHotN::new(vec![true, false], false), 1));
    }
    assert_eq!(out, gold);
}

#[test]
fn roundtrip_test() {
    // Reshape with padding: (1, 3, 9) => (1, 3, 3, 4), for data and mask
    // Accum: (1, 3, 3, 4) => (1, 3, 3)
    // FlatmapFilterRowStreamify: (1, 3, 3) => (1, 3, 9)
    let row = || Tile::<u32>::new_blank((1, 4), 2, true);
    let flag = |b: bool| Tile::new(array(1, 1, vec![b]), 2, true);
    let input = Buffer::new(vec![3, 9], vec![row(); 27], 0).to_elem_iter();
    let valid = Buffer::new(vec![3, 9], vec![flag(true); 27], 0).to_elem_iter();
    let pad = Tile::new_blank_padded((1, 4), 2, true, 0);
    let data = Reshape::new(0, 4, Some(pad), 2, false, 0).run(&input);
    let mask = Reshape::new(0, 4, Some(flag(false)), 2, false, 0).run(&valid);

    let config = AccumConfig { compute_bw: 1024, write_back_mu: false };
    let data_accum = Accum::new(
        |t: &Tile<u32>, acc: &Tile<u32>, bw: u64, mu: bool| retile_row(t, acc, bw, mu, 0),
        || Tile::new_empty((0, 4), 2, false),
        1,
        config,
        0,
    );
    let mask_accum = Accum::new(
        |t: &Tile<bool>, acc: &Tile<bool>, bw: u64, mu: bool| retile_row(t, acc, bw, mu, 0),
        || Tile::new_empty((0, 1), 2, false),
        1,
        config,
        0,
    );
    let mut acc = data_accum.start();
    let data: Vec<_> = data.iter().filter_map(|e| data_accum.step(&mut acc, e).out).collect();
    let mut acc = mask_accum.start();
    let mask: Vec<_> = mask.iter().filter_map(|e| mask_accum.step(&mut acc, e).out).collect();
    assert_eq!(data.len(), 9);

    let op = FlatmapFilterRowStreamify::new(0);
    let out: Vec<_> = data.iter().zip(mask.iter()).flat_map(|(d, m)| op.step(d, m)).collect();
    assert_eq!(out, Buffer::new(vec![3, 9], vec![row(); 27], 0).to_elem_iter());
}

fn count(n: u32) -> Tile<u32> {
    Tile::new(array(1, 1, vec![n]), 4, false)
}

fn range(n: u32) -> Vec<Elem<Tile<u32>>> {
    (0..n)
        .map(|i| if i == n - 1 { Elem::ValStop(count(i), 1) } else { Elem::Val(count(i)) })
        .collect()
}

#[test]
fn flatmap_counter_test() {
    let op = FlatmapCounter::new(0);
    assert_eq!(op.gen_stream(&count(5), Some(0)), range(5));
}

#[test]
fn flatmap_counter_multiple_inputs_test() {
    let op = FlatmapCounter::new(0);
    let mut out = op.gen_stream(&count(3), None);
    out.extend(op.gen_stream(&count(2), None));
    out.extend(op.gen_stream(&count(4), Some(0)));
    let mut expected = range(3);
    expected.extend(range(2));
    expected.extend(range(4));
    assert_eq!(out, expected);
}

fn row_tile(data: Vec<u32>) -> Tile<u32> {
    Tile::new_padded(array(1, data.len(), data), 4, false, 1)
}

#[test]
fn flatmap_row_streamify_with_data_test() {
    let tile = Tile::new(array(3, 4, (1..13u32).collect()), 4, false);
    let out = FlatmapRowStreamify::new(0).step(&Elem::ValStop(tile, 0));
    let expected = vec![
        Elem::Val(row_tile(vec![1, 2, 3, 4])),
        Elem::Val(row_tile(vec![5, 6, 7, 8])),
        Elem::ValStop(row_tile(vec![9, 10, 11, 12]), 0),
    ];
    assert_eq!(out, expected);
}

#[test]
fn flatmap_row_streamify_blank_test() {
    let tile: Tile<u32> = Tile::new_blank((2, 5), 4, false);
    let out = FlatmapRowStreamify::new(0).step(&Elem::ValStop(tile, 0));
    let row = || Tile::<u32>::new_blank((1, 5), 4, false);
    assert_eq!(out, vec![Elem::Val(row()), Elem::ValStop(row(), 0)]);
}

#[test]
fn flatmap_row_streamify_multiple_inputs_test() {
    let op = FlatmapRowStreamify::new(0);
    let first = Tile::new(array(2, 3, (1..7u32).collect()), 4, false);
    let second = Tile::new(array(2, 3, (7..13u32).collect()), 4, false);
    let mut out = op.step(&Elem::Val(first));
    out.extend(op.step(&Elem::ValStop(second, 0)));
    let expected = vec![
        Elem::Val(row_tile(vec![1, 2, 3])),
        Elem::Val(row_tile(vec![4, 5, 6])),
        Elem::Val(row_tile(vec![7, 8, 9])),
        Elem::ValStop(row_tile(vec![10, 11, 12]), 0),
    ];
    assert_eq!(out, expected);
}

#[test]
fn a_full_mask_keeps_every_row() {
    let tile = Tile::new(array(2, 2, vec![1u32, 2, 3, 4]), 4, false);
    let all = Tile::new(array(2, 1, vec![true, true]), 4, false);
    let filtered =
        FlatmapFilterRowStreamify::new(0).step(&Elem::ValStop(tile.clone(), 2), &Elem::ValStop(all, 2));
    assert_eq!(filtered, FlatmapRowStreamify::new(0).step(&Elem::ValStop(tile.clone(), 2)));
    let some = Tile::new(array(2, 1, vec![true, false]), 4, false);
    let filtered = FlatmapFilterRowStreamify::new(0).step(&Elem::Val(tile), &Elem::Val(some));
    assert_eq!(filtered, vec![Elem::Val(row_tile(vec![1, 2]))]);
}
