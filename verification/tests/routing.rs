use step_perf::operator::broadcast::BroadcastContext;
use step_perf::operator::eager_merge::{EagerMerge, MergeDecision, Peek};
use step_perf::operator::parallelize::{Parallelize, Routed};
use step_perf::operator::partition::{FlatPartition, FlatPartitionConfig};
use step_perf::operator::reassemble::{arrival_order, FlatReassemble, FlatReassembleConfig};
use step_perf::primitives::array::Array2;
use step_perf::primitives::buffer::Buffer;
use step_perf::primitives::elem::Elem;
use step_perf::primitives::select::MultiHotN;
use step_perf::primitives::tile::Tile;

fn square(i: i32) -> Tile<i32> {
    Tile::new(Array2::from_shape_vec((2, 2), vec![i; 4]).unwrap(), 4, true)
}

fn squares(shape: Vec<usize>) -> Vec<Elem<Tile<i32>>> {
    Buffer::new(shape, (0..9).map(square).collect(), 0).to_elem_iter()
}

fn stop(elem: &Elem<Tile<i32>>) -> u32 {
    match elem {
        Elem::Val(_) => 0,
        Elem::ValStop(_, level) => *level,
    }
}

/// Splits `input` into the groups that its selections ask for and routes them.
fn partition(
    op: &FlatPartition,
    input: &Vec<Elem<Tile<i32>>>,
    select: &Vec<Elem<MultiHotN>>,
) -> Vec<Vec<Elem<Tile<i32>>>> {
    let mut outputs: Vec<Vec<Elem<Tile<i32>>>> = vec![Vec::new(); op.outputs];
    let mut start = 0usize;
    for sel in select {
        let selection = op.select(sel);
        let mut end = start;
        while stop(&input[end]) < op.partition_rank {
            end += 1;
        }
        let group: Vec<Elem<Tile<i32>>> = input[start..end + 1].to_vec();
        for step in op.process_input_stream(&selection, &group) {
            for expert in selection.experts.iter() {
                outputs[*expert].push(step.data.clone());
            }
        }
        start = end + 1;
    }
    assert_eq!(start, input.len());
    outputs
}

fn switch_config() -> FlatPartitionConfig {
    FlatPartitionConfig { switch_cycles: vec![1, 2, 3, 4], write_back_mu: true }
}

#[test]
fn flat_partition_2d_multi_hot_rank_1() {
    let input = squares(vec![3, 3]);
    let select = vec![
        Elem::Val(MultiHotN::new(vec![true, true, false, false], true)),
        Elem::Val(MultiHotN::new(vec![false, true, true, false], true)),
        Elem::ValStop(MultiHotN::new(vec![false, false, true, true], true), 1),
    ];
    let mappings: Vec<Vec<i32>> =
        vec![vec![0, 1, 2], vec![0, 1, 2, 3, 4, 5], vec![3, 4, 5, 6, 7, 8], vec![6, 7, 8]];
    let expected: Vec<Vec<Elem<Tile<i32>>>> = mappings
        .iter()
        .map(|indices| {
            indices
                .iter()
                .enumerate()
                .map(|(pos, i)| {
                    if (pos + 1) % 3 == 0 {
                        Elem::ValStop(square(*i), 1)
                    } else {
                        Elem::Val(square(*i))
                    }
                })
                .collect()
        })
        .collect();
    let op = FlatPartition::new(4, 1, switch_config(), 0);
    assert_eq!(partition(&op, &input, &select), expected);
}

fn rotating_selections(sel: usize, length: usize) -> Vec<Vec<bool>> {
    (0..length)
        .map(|i| {
            let mut selection = vec![false; 4];
            for j in 0..sel {
                selection[(i + j) % 4] = true;
            }
            selection
        })
        .collect()
}

#[test]
fn flat_partition_1d_multi_hot_rank_0() {
    let input = squares(vec![9]);
    let flags = rotating_selections(2, 9);
    let select: Vec<Elem<MultiHotN>> = flags
        .iter()
        .enumerate()
        .map(|(i, f)| {
            let multi_hot = MultiHotN::new(f.clone(), true);
            if i == 8 { Elem::ValStop(multi_hot, 1) } else { Elem::Val(multi_hot) }
        })
        .collect();
    let mut expected: Vec<Vec<Elem<Tile<i32>>>> = vec![Vec::new(); 4];
    for (i, f) in flags.iter().enumerate() {
        for j in 0..4 {
            if f[j] {
                expected[j].push(Elem::Val(square(i as i32)));
            }
        }
    }
    let op = FlatPartition::new(4, 0, switch_config(), 0);
    assert_eq!(partition(&op, &input, &select), expected);
}

#[test]
fn partition_waits_for_its_slowest_switch() {
    let op = FlatPartition::new(4, 0, switch_config(), 0);
    let sel = Elem::Val(MultiHotN::new(vec![false, true, false, true], false));
    let selection = op.select(&sel);
    assert_eq!(selection.experts, vec![1, 3]);
    let step = op.step(&selection, &Elem::Val(square(1)));
    assert_eq!(step.data, Elem::Val(square(1)));
    // Sixteen bytes take one cycle each way, after the slower switch.
    assert_eq!(step.load_cycles, 1);
    assert_eq!(step.write_cycles, 5);
    assert!(step.done);
}

fn reassemble(
    op: &FlatReassemble,
    inputs: Vec<Vec<Elem<Tile<i32>>>>,
    select: &Vec<Elem<MultiHotN>>,
) -> Vec<Elem<Tile<i32>>> {
    let mut heads = vec![0usize; inputs.len()];
    let mut out = Vec::new();
    for sel in select {
        let (flags, level) = match sel {
            Elem::Val(m) => (&m.underlying, None),
            Elem::ValStop(m, level) => (&m.underlying, Some(*level)),
        };
        let select_vec: Vec<usize> = (0..flags.len()).filter(|i| flags[*i]).collect();
        let groups: Vec<Vec<Elem<Tile<i32>>>> = select_vec
            .iter()
            .map(|i| {
                let start = heads[*i];
                let mut end = start;
                while stop(&inputs[*i][end]) < op.reassemble_rank {
                    end += 1;
                }
                heads[*i] = end + 1;
                inputs[*i][start..end + 1].to_vec()
            })
            .collect();
        let arrivals = vec![0u64; select_vec.len()];
        for step in op.process_input_stream(&select_vec, &arrivals, &groups, level) {
            out.push(step.data);
        }
    }
    out
}

fn reassemble_config() -> FlatReassembleConfig {
    FlatReassembleConfig { switch_cycles: vec![1, 2, 3, 4], write_back_mu: true }
}

#[test]
fn flat_reassemble_2d_multi_hot_rank_1() {
    let mappings: Vec<Vec<i32>> =
        vec![vec![0, 1, 2], vec![0, 1, 2, 3, 4, 5], vec![3, 4, 5, 6, 7, 8], vec![6, 7, 8]];
    let inputs: Vec<Vec<Elem<Tile<i32>>>> = mappings
        .iter()
        .map(|indices| {
            indices
                .iter()
                .enumerate()
                .map(|(pos, i)| {
                    if (pos + 1) % 3 == 0 {
                        Elem::ValStop(square(*i), 1)
                    } else {
                        Elem::Val(square(*i))
                    }
                })
                .collect()
        })
        .collect();
    let select = vec![
        Elem::Val(MultiHotN::new(vec![true, true, false, false], true)),
        Elem::Val(MultiHotN::new(vec![false, true, true, false], true)),
        Elem::ValStop(MultiHotN::new(vec![false, false, true, true], true), 1),
    ];
    let mut expected = Vec::new();
    for i in 0..3 {
        for t in 0..2 {
            for j in 0..3 {
                let tile = square(i * 3 + j);
                if i == 2 && t == 1 && j == 2 {
                    expected.push(Elem::ValStop(tile, 3));
                } else if i < 2 && t == 1 && j == 2 {
                    expected.push(Elem::ValStop(tile, 2));
                } else if t < 1 && j == 2 {
                    expected.push(Elem::ValStop(tile, 1));
                } else {
                    expected.push(Elem::Val(tile));
                }
            }
        }
    }
    let op = FlatReassemble::new(4, 1, reassemble_config(), 0);
    assert_eq!(reassemble(&op, inputs, &select), expected);
}

#[test]
fn flat_reassemble_1d_multi_hot_rank_0() {
    let flags = rotating_selections(2, 9);
    let mut inputs: Vec<Vec<Elem<Tile<i32>>>> = vec![Vec::new(); 4];
    for (i, f) in flags.iter().enumerate() {
        for j in 0..4 {
            if f[j] {
                inputs[j].push(Elem::Val(square(i as i32)));
            }
        }
    }
    let select: Vec<Elem<MultiHotN>> =
        flags.iter().map(|f| Elem::Val(MultiHotN::new(f.clone(), true))).collect();
    let mut expected = Vec::new();
    for i in 0..9 {
        expected.push(Elem::Val(square(i)));
        expected.push(Elem::ValStop(square(i), 1));
    }
    let op = FlatReassemble::new(4, 0, reassemble_config(), 0);
    assert_eq!(reassemble(&op, inputs, &select), expected);
}

#[test]
fn partitioned_rows_reassemble() {
    let input = squares(vec![3, 3]);
    let one_hot = |i: usize| MultiHotN::new((0..4).map(|j| j == i).collect(), true);
    let select =
        vec![Elem::Val(one_hot(2)), Elem::Val(one_hot(0)), Elem::ValStop(one_hot(2), 1)];
    let parts = partition(&FlatPartition::new(4, 1, switch_config(), 0), &input, &select);
    let op = FlatReassemble::new(4, 1, reassemble_config(), 0);
    let out = reassemble(&op, parts, &select);
    // Each row comes back alone, so that it closes one more dimension.
    for (sent, elem) in input.iter().zip(out.iter()) {
        match (sent, elem) {
            (Elem::Val(a), Elem::Val(b)) => assert_eq!(a, b),
            (Elem::ValStop(a, s), Elem::ValStop(b, t)) => assert_eq!((a, s + 1), (b, *t)),
            _ => panic!("a stop was lost"),
        }
    }
    assert_eq!(out.len(), 9);
}

#[test]
fn inputs_are_taken_in_the_order_of_their_arrival() {
    assert_eq!(arrival_order(&vec![5, 1, 5, 0]), vec![3, 1, 0, 2]);
    let op = FlatReassemble::new(2, 0, reassemble_config(), 0);
    let groups = vec![vec![Elem::Val(square(1))], vec![Elem::Val(square(2))]];
    let steps = op.process_input_stream(&vec![0, 1], &vec![9, 3], &groups, Some(2));
    assert_eq!(steps[0].data, Elem::Val(square(2)));
    assert_eq!(steps[1].data, Elem::ValStop(square(1), 3));
}

/// Two elements and a stop of level one, two elements and one of level two.
fn group(bytes: usize) -> Vec<Elem<Tile<u32>>> {
    let tile = || Tile::<u32>::new_blank((2, 2), bytes, false);
    vec![
        Elem::Val(tile()),
        Elem::ValStop(tile(), 1),
        Elem::Val(tile()),
        Elem::ValStop(tile(), 2),
    ]
}

/// Merges two senders: the first starts three groups, twelve cycles apart,
/// and the second one group at cycle fourteen.
fn merge_senders() -> (Vec<Elem<Tile<u32>>>, Vec<Elem<MultiHotN>>, Vec<usize>) {
    let merge = EagerMerge::new(2, 2, 0);
    let mut arrivals: Vec<Vec<(u64, Vec<Elem<Tile<u32>>>)>> = vec![
        vec![(12, group(2)), (24, group(2)), (36, group(2))],
        vec![(14, group(4))],
    ];
    let (mut out, mut selects, mut order) = (Vec::new(), Vec::new(), Vec::new());
    let mut now = 0u64;
    loop {
        let mut poll = merge.poll();
        for i in 0..2 {
            match arrivals[i].first() {
                Some((time, _)) => poll.observe(i, Peek::Something(*time)),
                None => poll.observe(i, Peek::Closed),
            }
        }
        match poll.decide(now) {
            MergeDecision::Take(input) => {
                let (time, elems) = arrivals[input].remove(0);
                now = now.max(time);
                selects.push(merge.select::<MultiHotN>(input));
                order.push(input);
                for elem in elems.iter() {
                    let taken = now;
                    let step = merge.step(&mut now, elem);
                    assert_eq!(step.time, taken);
                    out.push(step.data);
                    if step.done {
                        break;
                    }
                }
            }
            MergeDecision::Wait => now += 1,
            MergeDecision::Finished => return (out, selects, order),
        }
    }
}

#[test]
fn eager_merge_simple_2d() {
    let (out, _, order) = merge_senders();
    // merged in the 0 1 0 0 order
    assert_eq!(order, vec![0, 1, 0, 0]);
    assert_eq!(out.len(), 16);
}

#[test]
fn eager_merge_round_trip_2d() {
    let (out, selects, _) = merge_senders();
    let config = FlatPartitionConfig { switch_cycles: vec![1, 1], write_back_mu: false };
    let op = FlatPartition::new(2, 2, config, 0);
    let mut parts: Vec<Vec<Elem<Tile<u32>>>> = vec![Vec::new(); 2];
    for (i, sel) in selects.iter().enumerate() {
        let selection = op.select(sel);
        for step in op.process_input_stream(&selection, &out[4 * i..4 * i + 4].to_vec()) {
            for expert in selection.experts.iter() {
                parts[*expert].push(step.data.clone());
            }
        }
    }
    let mut from_sender0 = group(2);
    from_sender0.extend(group(2));
    from_sender0.extend(group(2));
    assert_eq!(parts[0], from_sender0);
    assert_eq!(parts[1], group(4));
}

#[test]
fn a_merge_waits_or_finishes_without_input() {
    let merge = EagerMerge::new(2, 1, 0);
    let mut poll = merge.poll();
    poll.observe(0, Peek::Nothing);
    poll.observe(1, Peek::Closed);
    assert_eq!(poll.decide(5), MergeDecision::Wait);
    let mut poll = merge.poll();
    poll.observe(0, Peek::Closed);
    poll.observe(1, Peek::Closed);
    assert_eq!(poll.decide(5), MergeDecision::Finished);
}

fn small_tile(first: u32) -> Tile<u32> {
    Tile::new(Array2::from_shape_vec((2, 2), (first..first + 4).collect()).unwrap(), 2, false)
}

fn parallelize(lanes: usize, rank: u32, output_dim: u32) -> Parallelize {
    let config = FlatPartitionConfig { switch_cycles: vec![1; lanes], write_back_mu: false };
    Parallelize::new(lanes, rank, output_dim, config, 0)
}

#[test]
fn parallelize_0d() {
    let input = vec![
        Elem::Val(small_tile(0)),
        Elem::Val(small_tile(4)),
        Elem::Val(small_tile(8)),
        Elem::ValStop(small_tile(12), 1),
    ];
    let lanes = parallelize(4, 0, 1).run(input);
    assert_eq!(
        lanes,
        vec![
            vec![Elem::ValStop(small_tile(0), 1)],
            vec![Elem::ValStop(small_tile(4), 1)],
            vec![Elem::ValStop(small_tile(8), 1)],
            vec![Elem::ValStop(small_tile(12), 1)],
        ]
    );
}

#[test]
fn parallelize_1d() {
    let input = vec![
        Elem::ValStop(small_tile(0), 1),
        Elem::ValStop(small_tile(4), 1),
        Elem::ValStop(small_tile(8), 1),
        Elem::ValStop(small_tile(12), 2),
    ];
    let lanes = parallelize(4, 1, 1).run(input);
    assert_eq!(
        lanes,
        vec![
            vec![Elem::ValStop(small_tile(0), 2)],
            vec![Elem::ValStop(small_tile(4), 2)],
            vec![Elem::ValStop(small_tile(8), 2)],
            vec![Elem::ValStop(small_tile(12), 2)],
        ]
    );
}

fn numbers(shape: Vec<usize>, values: Vec<u32>) -> Vec<Elem<Tile<u32>>> {
    let tile = |v: u32| Tile::new(Array2::from_shape_vec((1, 1), vec![v]).unwrap(), 0, false);
    Buffer::new(shape, values.into_iter().map(tile).collect(), 0).to_elem_iter()
}

#[test]
fn parallelize_inner_rank_preserves_outer_stops_on_every_lane() {
    let input = numbers(vec![2, 4, 3], (0..24).collect());
    let lanes = parallelize(2, 1, 2).run(input);
    assert_eq!(lanes[0], numbers(vec![2, 2, 3], (0..6).chain(12..18).collect()));
    assert_eq!(lanes[1], numbers(vec![2, 2, 3], (6..12).chain(18..24).collect()));
}

#[test]
fn parallelize_then_reassemble_inner_rank_round_trips() {
    let input = numbers(vec![2, 4, 3], (0..24).collect());
    let expected = numbers(vec![2, 4, 3], (0..24).collect());
    let lanes = parallelize(2, 1, 2).run(input);
    // Rejoin the lanes: two rows of each in turn. A row closes the outer
    // dimension only where it is the last row of the last lane.
    let mut out: Vec<Elem<Tile<u32>>> = Vec::new();
    for round in 0..2 {
        for (l, lane) in lanes.iter().enumerate() {
            for elem in lane[6 * round..6 * round + 6].iter() {
                out.push(match elem {
                    Elem::ValStop(tile, level) if *level > 1 && l + 1 < lanes.len() => {
                        Elem::ValStop(tile.clone(), 1)
                    }
                    _ => elem.clone(),
                });
            }
        }
    }
    assert_eq!(out, expected);
}

#[test]
fn dealing_takes_no_time() {
    let config = FlatPartitionConfig { switch_cycles: vec![3, 7], write_back_mu: false };
    let op = Parallelize::new(2, 0, 2, config, 0);
    let mut state = op.start::<u32>();
    let first = op.step(5, &mut state, Elem::Val(1));
    assert_eq!(first, vec![Routed { lane: 0, time: 5, data: Elem::Val(1) }]);
    // The last value of a lane waits for the end of the round.
    assert!(op.step(6, &mut state, Elem::Val(2)).is_empty());
    assert_eq!(op.step(7, &mut state, Elem::Val(3))[0].time, 7);
    let last = op.step(9, &mut state, Elem::ValStop(4, 1));
    assert_eq!(
        last,
        vec![
            Routed { lane: 0, time: 9, data: Elem::ValStop(2, 1) },
            Routed { lane: 1, time: 9, data: Elem::ValStop(4, 1) },
        ]
    );
    assert!(op.may_end(&state));
}

#[test]
fn a_whole_merge_partitions_into_its_inputs() {
    let streams = vec![
        [group(2), group(2), group(2)].concat(),
        group(4),
    ];
    let arrivals = vec![
        vec![12, 13, 14, 15, 24, 25, 26, 27, 36, 37, 38, 39],
        vec![14, 15, 16, 17],
    ];
    let merge = EagerMerge::new(2, 2, 0);
    let (sent, sent_selects) = merge.run::<Tile<u32>, MultiHotN>(0, &streams, &arrivals);
    let times: Vec<u64> = sent.iter().map(|(time, _)| *time).collect();
    // The second group is chosen in the cycle in which the last element of the
    // first one leaves.
    assert_eq!(times, vec![12, 13, 14, 15, 15, 16, 17, 18, 24, 25, 26, 27, 36, 37, 38, 39]);
    let select_times: Vec<u64> = sent_selects.iter().map(|(time, _)| *time).collect();
    assert_eq!(select_times, vec![0, 15, 18, 27]);
    let out: Vec<Elem<Tile<u32>>> = sent.into_iter().map(|(_, data)| data).collect();
    let selects: Vec<Elem<MultiHotN>> = sent_selects.into_iter().map(|(_, data)| data).collect();
    assert_eq!(out, merge_senders().0);
    let flags: Vec<Vec<bool>> = selects
        .iter()
        .map(|sel| match sel {
            Elem::Val(sel) => {
                assert!(!sel.read_from_mu);
                sel.underlying.clone()
            }
            Elem::ValStop(_, _) => panic!("a select element closes nothing"),
        })
        .collect();
    assert_eq!(
        flags,
        vec![vec![true, false], vec![false, true], vec![true, false], vec![true, false]]
    );
    let config = FlatPartitionConfig { switch_cycles: vec![1, 1], write_back_mu: false };
    let op = FlatPartition::new(2, 2, config, 0);
    let mut parts: Vec<Vec<Elem<Tile<u32>>>> = vec![Vec::new(); 2];
    for (i, sel) in selects.iter().enumerate() {
        let selection = op.select(sel);
        for step in op.process_input_stream(&selection, &out[4 * i..4 * i + 4].to_vec()) {
            parts[selection.experts[0]].push(step.data);
        }
    }
    assert_eq!(parts, streams);
    // Of elements that arrive together the first input is taken.
    let (sent, _) = merge.run::<Tile<u32>, MultiHotN>(
        5,
        &vec![group(2), group(4)],
        &vec![vec![3, 4, 5, 6], vec![3, 4, 5, 6]],
    );
    let times: Vec<u64> = sent.iter().map(|(time, _)| *time).collect();
    assert_eq!(times, vec![5, 6, 7, 8, 8, 9, 10, 11]);
    let out: Vec<Elem<Tile<u32>>> = sent.into_iter().map(|(_, data)| data).collect();
    assert_eq!(out, [group(2), group(4)].concat());
}

#[test]
fn the_groups_of_an_input_make_up_that_input() {
    // Stops of level 0 stay as they are.
    let streams = vec![
        vec![Elem::ValStop(1u32, 0), Elem::ValStop(2, 1), Elem::ValStop(3, 1)],
        Vec::new(),
        vec![Elem::Val(4), Elem::ValStop(5, 1)],
    ];
    let arrivals = vec![vec![9, 2, 20], Vec::new(), vec![9, 30]];
    let merge = EagerMerge::new(3, 1, 0);
    let (sent, selects) = merge.run::<u32, MultiHotN>(0, &streams, &arrivals);
    let times: Vec<u64> = sent.iter().map(|(time, _)| *time).collect();
    assert_eq!(times, vec![9, 10, 10, 30, 30]);
    let select_times: Vec<u64> = selects.iter().map(|(time, _)| *time).collect();
    assert_eq!(select_times, vec![0, 10, 30]);
    let mut rest = sent.into_iter().map(|(_, data)| data);
    let mut parts: Vec<Vec<Elem<u32>>> = vec![Vec::new(); 3];
    for (_, sel) in &selects {
        let Elem::Val(sel) = sel else { panic!("a select element closes nothing") };
        let input = sel.underlying.iter().position(|flag| *flag).unwrap();
        loop {
            let elem = rest.next().unwrap();
            let ends = matches!(elem, Elem::ValStop(_, 1));
            parts[input].push(elem);
            if ends {
                break;
            }
        }
    }
    assert_eq!(rest.next(), None);
    assert_eq!(parts, streams);
}

#[test]
fn broadcast_reaches_every_target() {
    let mut op = BroadcastContext::new();
    assert_eq!(op.add_target(), 0);
    assert_eq!(op.add_target(), 1);
    let out = op.step(&Elem::ValStop(7u32, 2));
    assert_eq!(out, vec![Elem::ValStop(7, 2), Elem::ValStop(7, 2)]);
}
