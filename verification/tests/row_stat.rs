use step_perf::operator::accum_row_stat::{AccumRowStat, AccumRowStatConfig, GroupState, RowStat};
use step_perf::primitives::array::Array2;
use step_perf::primitives::elem::Elem;
use step_perf::primitives::tile::Tile;

const BYTES: usize = 4;
const COMPUTE_BW: u64 = 1000;

fn tile(rows: usize, cols: usize, vals: Vec<f32>) -> Tile<f32> {
    Tile::new(Array2::from_shape_vec((rows, cols), vals).unwrap(), BYTES, false)
}

fn close(a: &Elem<Tile<f32>>, b: &Elem<Tile<f32>>) -> bool {
    let (a_tile, b_tile) = match (a, b) {
        (Elem::Val(x), Elem::Val(y)) => (x, y),
        (Elem::ValStop(x, xl), Elem::ValStop(y, yl)) if xl == yl => (x, y),
        _ => return false,
    };
    if a_tile.shape != b_tile.shape {
        return false;
    }
    match (&a_tile.underlying, &b_tile.underlying) {
        (Some(x), Some(y)) => x
            .data
            .iter()
            .zip(y.data.iter())
            .all(|(l, r)| (l - r).abs() < 1e-5 * r.abs().max(1.0)),
        (None, None) => true,
        _ => false,
    }
}

fn emitted(
    input: Vec<Elem<Tile<f32>>>,
    stat: RowStat,
    count: Option<u64>,
    rank: u32,
) -> Vec<Elem<Tile<f32>>> {
    let config = AccumRowStatConfig { compute_bw: COMPUTE_BW, write_back_mu: false, stat, count };
    let op = AccumRowStat::new(rank, BYTES, config, 0.0f32, |n: u64| n as f32, 0);
    let mut state = GroupState::new();
    let mut out = Vec::new();
    for elem in input.iter() {
        out.extend(op.step(&mut state, elem).out);
    }
    out
}

/// Drive reduction groups through the operator and compare what it emits.
fn run_group(
    input: Vec<Elem<Tile<f32>>>,
    expected: Vec<Elem<Tile<f32>>>,
    stat: RowStat,
    count: Option<u64>,
    rank: u32,
) {
    let out = emitted(input, stat, count, rank);
    assert_eq!(out.len(), expected.len());
    for (a, b) in out.iter().zip(expected.iter()) {
        assert!(close(a, b), "{a:?} is not {b:?}");
    }
}

#[test]
fn mean_static_single_tile_collapses_columns() {
    let input = vec![Elem::ValStop(tile(2, 3, vec![1., 2., 3., 7., 8., 9.]), 1)];
    let expected = vec![Elem::Val(tile(2, 1, vec![2., 8.]))];
    run_group(input, expected, RowStat::Mean, Some(3), 1);
}

#[test]
fn mean_static_reduces_across_tiles() {
    let input = vec![
        Elem::Val(tile(2, 2, vec![1., 2., 10., 20.])),
        Elem::Val(tile(2, 2, vec![3., 4., 30., 40.])),
        Elem::ValStop(tile(2, 2, vec![5., 6., 50., 60.]), 1),
    ];
    let expected = vec![Elem::Val(tile(2, 1, vec![3.5, 35.]))];
    run_group(input, expected, RowStat::Mean, Some(6), 1);
}

#[test]
fn mean_dyn_matches_static() {
    let input = vec![
        Elem::Val(tile(2, 2, vec![1., 2., 10., 20.])),
        Elem::ValStop(tile(2, 2, vec![3., 4., 30., 40.]), 1),
    ];
    let expected = vec![Elem::Val(tile(2, 1, vec![2.5, 25.]))];
    run_group(input, expected, RowStat::Mean, None, 1);
}

#[test]
fn var_static_is_population_variance() {
    let input = vec![Elem::ValStop(tile(2, 4, vec![1., 2., 3., 4., 2., 4., 6., 8.]), 1)];
    let expected = vec![Elem::Val(tile(2, 1, vec![1.25, 5.]))];
    run_group(input, expected, RowStat::Var, Some(4), 1);
}

#[test]
fn var_dyn_matches_static() {
    let input = vec![
        Elem::Val(tile(1, 2, vec![1., 2.])),
        Elem::ValStop(tile(1, 2, vec![3., 4.]), 1),
    ];
    let expected = vec![Elem::Val(tile(1, 1, vec![1.25]))];
    run_group(input, expected, RowStat::Var, None, 1);
}

#[test]
fn var_of_constant_row_is_exactly_zero() {
    let input = vec![Elem::ValStop(tile(1, 8, vec![1e4; 8]), 1)];
    let expected = vec![Elem::Val(tile(1, 1, vec![0.0]))];
    run_group(input, expected, RowStat::Var, Some(8), 1);
}

#[test]
fn outer_stop_level_is_forwarded() {
    let input = vec![
        Elem::ValStop(tile(1, 2, vec![1., 3.]), 1),
        Elem::ValStop(tile(1, 2, vec![10., 30.]), 2),
    ];
    let expected = vec![
        Elem::Val(tile(1, 1, vec![2.])),
        Elem::ValStop(tile(1, 1, vec![20.]), 1),
    ];
    run_group(input, expected, RowStat::Mean, Some(2), 1);
}

#[test]
fn blank_tiles_produce_a_blank_output() {
    let input = vec![Elem::ValStop(Tile::<f32>::new_blank((4, 16), BYTES, false), 1)];
    let expected = vec![Elem::Val(Tile::<f32>::new_blank((4, 1), BYTES, false))];
    run_group(input, expected, RowStat::Mean, Some(16), 1);
}

#[test]
fn offset_is_preserved() {
    let padded = Tile::new_padded(
        Array2::from_shape_vec((4, 2), vec![1.0f32; 8]).unwrap(),
        BYTES,
        false,
        2,
    );
    let out = emitted(vec![Elem::ValStop(padded, 1)], RowStat::Mean, Some(2), 1);
    let want = Tile::new_padded(
        Array2::from_shape_vec((4, 1), vec![1.0f32; 4]).unwrap(),
        BYTES,
        false,
        2,
    );
    assert_eq!(out, vec![Elem::Val(want)]);
}

#[test]
fn a_group_leaves_nothing_behind() {
    // An exact statistic over integers, and its cycles: 3 operations for each
    // of the 4 cells, then 4 for the one row.
    let config = AccumRowStatConfig {
        compute_bw: 1,
        write_back_mu: false,
        stat: RowStat::Var,
        count: None,
    };
    let op = AccumRowStat::new(1, 8, config, 0i64, |n: u64| n as i64, 0);
    let mut state = GroupState::new();
    let fives = Tile::new(Array2::from_shape_vec((1, 4), vec![5i64; 4]).unwrap(), 8, false);
    let step = op.step(&mut state, &Elem::ValStop(fives, 3));
    let zero = Tile::new(Array2::from_shape_vec((1, 1), vec![0i64]).unwrap(), 8, false);
    assert_eq!(step.out, Some(Elem::ValStop(zero, 2)));
    assert_eq!(step.cycles, 12 + 4);
    assert_eq!(state.rows(), 0);
    assert_eq!(state.n, 0);
    assert!(!state.started);
}
