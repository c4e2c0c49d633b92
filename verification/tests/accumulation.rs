use step_perf::functions::accum_fn;
use step_perf::operator::accum::{Accum, AccumConfig};
use step_perf::operator::accum_buff::AccumBuff;
use step_perf::operator::bufferize::Bufferize;
use step_perf::operator::gina_scan::{GinaScan, ScanConfig};
use step_perf::operator::map::{BinaryMap, UnaryMap, UnaryMapConfig};
use step_perf::operator::map_accum::BinaryMapAccum;
use step_perf::functions::{map_accum_fn, map_fn};
use step_perf::primitives::array::Array2;
use step_perf::primitives::buffer::{Buffer, BufferizeError};
use step_perf::primitives::elem::Elem;
use step_perf::primitives::tile::Tile;

fn array(rows: usize, cols: usize, data: Vec<i32>) -> Array2<i32> {
    Array2::from_shape_vec((rows, cols), data).unwrap()
}

/// A `rows x cols` tile whose every element is `v`.
fn filled_tile(rows: usize, cols: usize, v: i32, read_from_mu: bool) -> Tile<i32> {
    Tile::new(array(rows, cols, vec![v; rows * cols]), 4, read_from_mu)
}

const CONFIG: AccumConfig = AccumConfig { compute_bw: 1000, write_back_mu: true };

/// A stream of three rows of three tiles each.
fn grid_stream(tiles: Vec<Tile<i32>>) -> Vec<Elem<Tile<i32>>> {
    Buffer::new(vec![3, 3], tiles, 0).to_elem_iter()
}

#[test]
fn accum_test_retile_col() {
    let tiles: Vec<Tile<i32>> = (0..9).map(|i| filled_tile(2, 2, i, true)).collect();
    let in_stream_data = grid_stream(tiles);
    assert_eq!(in_stream_data[2], Elem::ValStop(filled_tile(2, 2, 2, true), 1));
    assert_eq!(in_stream_data[8], Elem::ValStop(filled_tile(2, 2, 8, true), 2));

    let ground_truth: Vec<Elem<Tile<i32>>> = (0..3)
        .map(|i| {
            let (a, b, c) = (3 * i, 3 * i + 1, 3 * i + 2);
            let row = vec![a, a, b, b, c, c, a, a, b, b, c, c];
            let tile = Tile::new(array(2, 6, row), 4, true);
            if i == 2 { Elem::ValStop(tile, 1) } else { Elem::Val(tile) }
        })
        .collect();

    let accum = Accum::new(
        |t: &Tile<i32>, acc: &Tile<i32>, bw: u64, mu: bool| accum_fn::retile_col(t, acc, bw, mu, 0),
        || Tile::new_empty((2, 0), 4, true),
        1,
        CONFIG,
        0,
    );
    let mut acc = accum.start();
    let mut out = Vec::new();
    for elem in in_stream_data.iter() {
        out.extend(accum.step(&mut acc, elem).out);
    }
    assert_eq!(out, ground_truth);
}

#[test]
fn accum_test_retile_row() {
    // [1,3,3] => [1,3], [1,4] tile => [3,4] tile
    let tiles: Vec<Tile<i32>> = (0..9).map(|i| filled_tile(1, 4, i, true)).collect();
    let in_stream_data = grid_stream(tiles);
    let ground_truth: Vec<Elem<Tile<i32>>> = (0..3)
        .map(|i| {
            let rows = (0..12).map(|k| 3 * i + k / 4).collect();
            let tile = Tile::new(array(3, 4, rows), 4, true);
            if i == 2 { Elem::ValStop(tile, 1) } else { Elem::Val(tile) }
        })
        .collect();

    let accum = Accum::new(
        |t: &Tile<i32>, acc: &Tile<i32>, bw: u64, mu: bool| accum_fn::retile_row(t, acc, bw, mu, 0),
        || Tile::new_empty((0, 4), 4, true),
        1,
        CONFIG,
        0,
    );
    let mut acc = accum.start();
    let mut out = Vec::new();
    for elem in in_stream_data.iter() {
        out.extend(accum.step(&mut acc, elem).out);
    }
    assert_eq!(out, ground_truth);
}

/// A `1x2` tile whose elements are `v`.
fn pair_tile(v: i32) -> Tile<i32> {
    filled_tile(1, 2, v, true)
}

fn run_reduction<I: Fn(usize, usize) -> Tile<i32>>(
    in_stream_data: Vec<Elem<Tile<i32>>>,
    ground_truth_data: Vec<Elem<Buffer<Tile<i32>>>>,
    rank: u32,
    buffer_shape: Vec<usize>,
    tile_row: usize,
    tile_col: usize,
    init_accum: I,
) {
    let accum = AccumBuff::new(
        |t: &Tile<i32>, acc: &Tile<i32>, bw: u64, mu: bool| accum_fn::add(t, acc, bw, mu, 0),
        init_accum,
        rank,
        buffer_shape,
        tile_row,
        tile_col,
        CONFIG,
        0,
    );
    let mut state = accum.start();
    let mut out = Vec::new();
    for elem in in_stream_data.iter() {
        out.extend(accum.step(&mut state, elem, 0).out);
    }
    // Only the contents are fixed in advance, not when they are complete.
    for elem in out.iter_mut() {
        match elem {
            Elem::Val(buffer) => buffer.creation_time = 0,
            Elem::ValStop(buffer, _) => buffer.creation_time = 0,
        }
    }
    assert_eq!(out, ground_truth_data);
}

/// The rank-3 stream whose value at `(a, b, c)` is `100 a + 10 b + c`.
fn cube_stream(a: usize, b: usize, c: usize) -> Vec<Elem<Tile<i32>>> {
    let mut tiles = Vec::new();
    for i in 0..a {
        for j in 0..b {
            for k in 0..c {
                tiles.push(pair_tile((i * 100 + j * 10 + k) as i32));
            }
        }
    }
    Buffer::new(vec![a, b, c], tiles, 0).to_elem_iter()
}

#[test]
fn test_accum_buff_rank2() {
    // [I,K,J] -> [I,J], reducing over K.
    let (i_dim, k_dim, j_dim) = (2usize, 3usize, 2usize);
    let in_stream_data = cube_stream(i_dim, k_dim, j_dim);
    assert_eq!(in_stream_data[1], Elem::ValStop(pair_tile(1), 1));
    assert_eq!(in_stream_data[5], Elem::ValStop(pair_tile(21), 2));
    assert_eq!(in_stream_data[11], Elem::ValStop(pair_tile(121), 3));

    let mut ground_truth_data: Vec<Elem<Buffer<Tile<i32>>>> = Vec::new();
    for i in 0..i_dim {
        let slots: Vec<Tile<i32>> = (0..j_dim)
            .map(|j| pair_tile((0..k_dim).map(|k| (i * 100 + k * 10 + j) as i32).sum()))
            .collect();
        let buffer = Buffer::new(vec![j_dim], slots, 0);
        if i == i_dim - 1 {
            ground_truth_data.push(Elem::ValStop(buffer, 1));
        } else {
            ground_truth_data.push(Elem::Val(buffer));
        }
    }
    run_reduction(in_stream_data, ground_truth_data, 2, vec![j_dim], 1, 2, |_r, _c| pair_tile(0));
}

#[test]
fn test_accum_buff_rank3() {
    // [I,J,K] -> [J,K], reducing over I.
    let (i_dim, j_dim, k_dim) = (2usize, 2usize, 3usize);
    let in_stream_data = cube_stream(i_dim, j_dim, k_dim);
    let mut slots = Vec::new();
    for j in 0..j_dim {
        for k in 0..k_dim {
            slots.push(pair_tile((0..i_dim).map(|i| (i * 100 + j * 10 + k) as i32).sum()));
        }
    }
    let ground_truth_data = vec![Elem::Val(Buffer::new(vec![j_dim, k_dim], slots, 0))];
    run_reduction(
        in_stream_data,
        ground_truth_data,
        3,
        vec![j_dim, k_dim],
        1,
        2,
        |_r, _c| pair_tile(0),
    );
}

#[test]
fn test_accum_buff_reduce_two_dims() {
    // [I,K,J] -> [J], reducing over both I and K.
    let (i_dim, k_dim, j_dim) = (2usize, 3usize, 2usize);
    let in_stream_data = cube_stream(i_dim, k_dim, j_dim);
    let slots: Vec<Tile<i32>> = (0..j_dim)
        .map(|j| {
            let mut sum = 0i32;
            for i in 0..i_dim {
                for k in 0..k_dim {
                    sum += (i * 100 + k * 10 + j) as i32;
                }
            }
            pair_tile(sum)
        })
        .collect();
    let ground_truth_data = vec![Elem::Val(Buffer::new(vec![j_dim], slots, 0))];
    run_reduction(in_stream_data, ground_truth_data, 3, vec![j_dim], 1, 2, |_r, _c| pair_tile(0));
}

#[test]
fn test_accum_buff_dynamic_row_single_group() {
    let (rows, cols) = (2usize, 3usize);
    let (k_dim, j_dim) = (2usize, 2usize);
    let mut tiles = Vec::new();
    for k in 0..k_dim {
        for j in 0..j_dim {
            tiles.push(filled_tile(rows, cols, (k * 10 + j) as i32, true));
        }
    }
    let in_stream_data = Buffer::new(vec![k_dim, j_dim], tiles, 0).to_elem_iter();
    let slots: Vec<Tile<i32>> = (0..j_dim)
        .map(|j| {
            let sum: i32 = (0..k_dim).map(|k| (k * 10 + j) as i32).sum();
            filled_tile(rows, cols, sum, true)
        })
        .collect();
    let ground_truth_data = vec![Elem::Val(Buffer::new(vec![j_dim], slots, 0))];
    run_reduction(in_stream_data, ground_truth_data, 2, vec![j_dim], 0, cols, |r, c| {
        filled_tile(r, c, 0, true)
    });
}

#[test]
fn test_accum_buff_dynamic_row_per_group() {
    // Two groups whose tiles have different row counts.
    let cols = 2usize;
    let group_rows = [2usize, 3usize];
    let k_dim = 2usize;
    let mut tiles = Vec::new();
    for i in 0..group_rows.len() {
        for k in 0..k_dim {
            tiles.push(filled_tile(group_rows[i], cols, (i * 10 + k) as i32, true));
        }
    }
    let in_stream_data = Buffer::new(vec![2, k_dim, 1], tiles, 0).to_elem_iter();
    assert_eq!(in_stream_data[0], Elem::ValStop(filled_tile(2, 2, 0, true), 1));
    assert_eq!(in_stream_data[3], Elem::ValStop(filled_tile(3, 2, 11, true), 3));

    let mut ground_truth_data: Vec<Elem<Buffer<Tile<i32>>>> = Vec::new();
    for i in 0..group_rows.len() {
        let sum: i32 = (0..k_dim).map(|k| (i * 10 + k) as i32).sum();
        let slot = filled_tile(group_rows[i], cols, sum, true);
        let buffer = Buffer::new(vec![1], vec![slot], 0);
        if i == group_rows.len() - 1 {
            ground_truth_data.push(Elem::ValStop(buffer, 1));
        } else {
            ground_truth_data.push(Elem::Val(buffer));
        }
    }
    run_reduction(in_stream_data, ground_truth_data, 2, vec![1], 0, cols, |r, c| {
        filled_tile(r, c, 0, true)
    });
}

#[test]
fn accumulation_takes_the_slowest_of_its_parts() {
    // Loading 16 bytes takes one cycle; one operation per cycle takes four.
    let accum = Accum::new(
        |t: &Tile<i32>, acc: &Tile<i32>, bw: u64, mu: bool| accum_fn::add(t, acc, bw, mu, 0),
        || filled_tile(2, 2, 0, true),
        1,
        AccumConfig { compute_bw: 1, write_back_mu: true },
        0,
    );
    let mut acc = accum.start();
    let step = accum.step(&mut acc, &Elem::ValStop(filled_tile(2, 2, 3, true), 1));
    assert_eq!(step.cycles, 4);
    assert_eq!(step.out, Some(Elem::Val(filled_tile(2, 2, 3, true))));
    assert_eq!(acc, filled_tile(2, 2, 0, true));
}

#[test]
fn bufferize_collects_what_a_stream_carries() {
    let stream = Buffer::new(vec![2, 2, 2], (0..8).collect::<Vec<u32>>(), 0).to_elem_iter();
    let bufferize = Bufferize::new(2, 0);
    let mut start = 0usize;
    let first = bufferize.step(bufferize.read(&stream, &mut start, 7));
    assert_eq!(first, Some(Elem::Val(Buffer::new(vec![2, 2], vec![0, 1, 2, 3], 7))));
    assert_eq!(start, 4);
    let second = bufferize.step(bufferize.read(&stream, &mut start, 9));
    assert_eq!(second, Some(Elem::ValStop(Buffer::new(vec![2, 2], vec![4, 5, 6, 7], 9), 1)));
    assert_eq!(bufferize.read(&stream, &mut start, 9), Err(BufferizeError::Finished));
    assert_eq!(bufferize.step::<u32>(Err(BufferizeError::Finished)), None);
    let mut start = 0usize;
    let cut: Vec<Elem<u32>> = vec![Elem::Val(1), Elem::ValStop(2, 1)];
    assert_eq!(bufferize.read(&cut, &mut start, 0), Err(BufferizeError::Incomplete));
}

#[test]
fn round_trip_test_3d() {
    let blank = || Tile::<u32>::new_blank((2, 2), 2, false);
    let golden = vec![
        Elem::Val(blank()),
        Elem::Val(blank()),
        Elem::ValStop(blank(), 1),
        Elem::Val(blank()),
        Elem::Val(blank()),
        Elem::ValStop(blank(), 2),
    ];
    let bufferize = Bufferize::new(1, 0);
    let mut start = 0usize;
    let mut out = Vec::new();
    while start < golden.len() {
        out.extend(bufferize.step(bufferize.read(&golden, &mut start, 0)));
    }
    let buffer = || Buffer::new(vec![3], vec![blank(), blank(), blank()], 0);
    assert_eq!(out, vec![Elem::Val(buffer()), Elem::ValStop(buffer(), 1)]);
}

#[test]
fn buffers_give_the_stream_back() {
    // Every bufferized rank gives the stream back.
    for rank in 1..3u32 {
        let tiles: Vec<Tile<i32>> = (0..24).map(|i| filled_tile(1, 1, i, false)).collect();
        let stream = Buffer::new(vec![2, 3, 4], tiles, 0).to_elem_iter();
        let bufferize = Bufferize::new(rank, 0);
        let mut start = 0usize;
        let mut back = Vec::new();
        while start < stream.len() {
            match bufferize.step(bufferize.read(&stream, &mut start, 0)) {
                Some(Elem::Val(buffer)) => back.extend(buffer.to_elem_iter()),
                Some(Elem::ValStop(buffer, level)) => {
                    let mut elems = buffer.to_elem_iter();
                    if let Some(Elem::ValStop(tile, _)) = elems.pop() {
                        elems.push(Elem::ValStop(tile, rank + level));
                    }
                    back.extend(elems);
                }
                None => panic!("the stream ended early"),
            }
        }
        assert_eq!(back, stream);
    }
}

#[test]
fn scans_emit_running_sums() {
    let stream: Vec<Elem<Tile<i32>>> = vec![
        Elem::Val(filled_tile(1, 1, 1, false)),
        Elem::Val(filled_tile(1, 1, 2, false)),
        Elem::ValStop(filled_tile(1, 1, 3, false), 1),
        Elem::ValStop(filled_tile(1, 1, 4, false), 2),
    ];
    for (inclusive, want) in [(true, [1, 3, 6, 4]), (false, [0, 1, 3, 0])] {
        let add = |t: &Tile<i32>, acc: &Tile<i32>, bw: u64, mu: bool| accum_fn::add(t, acc, bw, mu, 0);
        let config = ScanConfig { compute_bw: 1, write_back_mu: false, inclusive };
        let init = || filled_tile(1, 1, 0, false);
        let mut scan = GinaScan::new(false, false, add, Some(add), init, 1, config, 0);
        scan.fn2 = None;
        let mut state = scan.start();
        for (i, elem) in stream.iter().enumerate() {
            let step = scan.step(&mut state, elem, None, None);
            let (tile, level) = match step.out {
                Elem::Val(tile) => (tile, 0),
                Elem::ValStop(tile, level) => (tile, level),
            };
            assert_eq!(tile, filled_tile(1, 1, want[i], false));
            assert_eq!(level, [0, 0, 1, 2][i]);
            assert_eq!(step.group_end, i >= 2);
        }
    }
}

#[test]
fn maps_apply_their_function() {
    let unary = UnaryMap::new(
        |t: &Tile<i32>, bw: u64, mu: bool| map_fn::add_constant(t, 1, bw, mu),
        UnaryMapConfig { compute_bw: 2, write_back_mu: false },
        0,
    );
    let step = unary.step(&Elem::ValStop(filled_tile(2, 2, 3, false), 1));
    assert_eq!(step.cycles, 2);
    assert_eq!(step.data, Elem::ValStop(filled_tile(2, 2, 4, false), 1));

    let binary = BinaryMap::new(
        |a: &Tile<i32>, b: &Tile<i32>, bw: u64, mu: bool| map_fn::mul(a, b, bw, mu),
        4,
        false,
        0,
    );
    let five = Elem::Val(filled_tile(2, 2, 5, false));
    let step = binary.step(&five, &Elem::Val(filled_tile(2, 2, 6, false)));
    assert_eq!(step.cycles, 1);
    assert_eq!(step.data, Elem::Val(filled_tile(2, 2, 30, false)));
}

#[test]
fn map_accumulation_sums_products() {
    let tile = |v: u64| -> Tile<u64> {
        Tile::new(Array2::from_shape_vec((1, 1), vec![v]).unwrap(), 8, false)
    };
    let accum = BinaryMapAccum::new(
        |a: &Tile<u64>, b: &Tile<u64>, acc: &Tile<u64>, bw: u64, mu: bool| {
            map_accum_fn::matmul(a, b, acc, bw, mu, false)
        },
        || Tile::new(Array2::from_shape_vec((1, 1), vec![0u64]).unwrap(), 8, false),
        1,
        1,
        false,
        0,
    );
    let mut acc = accum.start();
    let step = accum.step(&mut acc, &Elem::Val(tile(2)), &Elem::Val(tile(3)));
    assert_eq!(step.out, None);
    let step = accum.step(&mut acc, &Elem::ValStop(tile(4), 2), &Elem::ValStop(tile(5), 2));
    assert_eq!(step.out, Some(Elem::ValStop(tile(26), 1)));
}
