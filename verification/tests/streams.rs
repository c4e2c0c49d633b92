use step_perf::operator::context_lanes::{ContextDeinterleave, ContextInterleave};
use step_perf::operator::counter::{count_range_elems, Counter};
use step_perf::operator::dynstreamify::DynStreamify;
use step_perf::operator::expand::ExpandRef;
use step_perf::operator::flatten::Flatten;
use step_perf::operator::promote::Promote;
use step_perf::operator::repeat::{RepeatRef, RepeatStatic};
use step_perf::operator::repeat_trace::RepeatTrace;
use step_perf::operator::reshape::Reshape;
use step_perf::primitives::buffer::Buffer;
use step_perf::primitives::elem::Elem;
use step_perf::primitives::tile::Tile;
use step_perf::utils::id_list::parse_id_list;

type Blank = Tile<u32>;

fn blank() -> Blank {
    Tile::new_blank((2, 2), 2, true)
}

/// A stream of blank tiles.
fn blanks(shape: Vec<usize>) -> Vec<Elem<Blank>> {
    let count = shape.iter().product();
    Buffer::new(shape, vec![blank(); count], 0).to_elem_iter()
}

#[test]
fn flatten_0_1() {
    let out = Flatten::new(0, 1).run(&blanks(vec![3, 2, 4]));
    assert_eq!(out, blanks(vec![3, 8]));
}

#[test]
fn flatten_0_1_size1() {
    let out = Flatten::new(0, 1).run(&blanks(vec![3, 2, 1]));
    assert_eq!(out, blanks(vec![3, 2]));
}

#[test]
fn flatten_1_3() {
    // (5, 2, 3, 2, 4) => (5, 2 * 3 * 2, 4)
    let out = Flatten::new(1, 3).run(&blanks(vec![5, 2, 3, 2, 4]));
    assert_eq!(out, blanks(vec![5, 2 * 3 * 2, 4]));
}

fn row() -> Blank {
    Tile::new_blank((1, 4), 2, true)
}

fn pad() -> Blank {
    Tile::new_blank_padded((1, 4), 2, true, 0)
}

#[test]
fn reshape_0d_with_pad() {
    // (1, 3, 9) => (1, 3, 3, 4): the last three tiles are padding
    let input = Buffer::new(vec![3, 9], vec![row(); 27], 0).to_elem_iter();
    let mut tiles = vec![];
    for _ in 0..3 {
        tiles.extend(vec![row(); 9]);
        tiles.extend(vec![pad(); 3]);
    }
    let expected = Buffer::new(vec![3, 3, 4], tiles, 0).to_elem_iter();
    assert_eq!(Reshape::new(0, 4, Some(pad()), 2, false, 0).run(&input), expected);
}

fn nine_rows() -> Vec<Elem<Blank>> {
    (0..9).map(|_| Elem::Val(row())).collect()
}

#[test]
fn reshape_0d_with_pad_0d_stream() {
    // (9) => (3, 4)
    let expected = vec![
        Elem::Val(row()),
        Elem::Val(row()),
        Elem::Val(row()),
        Elem::ValStop(row(), 1),
        Elem::Val(row()),
        Elem::Val(row()),
        Elem::Val(row()),
        Elem::ValStop(row(), 1),
        Elem::Val(row()),
        Elem::Val(pad()),
        Elem::Val(pad()),
        Elem::ValStop(pad(), 1),
    ];
    assert_eq!(Reshape::new(0, 4, Some(pad()), 0, false, 0).run(&nine_rows()), expected);
}

#[test]
fn reshape_0d_with_pad_0d_stream_add_outer_dim_divisible() {
    // (9) => (1, 3, 3)
    let expected = vec![
        Elem::Val(row()),
        Elem::Val(row()),
        Elem::ValStop(row(), 1),
        Elem::Val(row()),
        Elem::Val(row()),
        Elem::ValStop(row(), 1),
        Elem::Val(row()),
        Elem::Val(row()),
        Elem::ValStop(row(), 2),
    ];
    assert_eq!(Reshape::new(0, 3, Some(pad()), 0, true, 0).run(&nine_rows()), expected);
}

#[test]
fn reshape_0d_with_pad_0d_stream_add_outer_dim() {
    // (9) => (1, 3, 4)
    let expected = vec![
        Elem::Val(row()),
        Elem::Val(row()),
        Elem::Val(row()),
        Elem::ValStop(row(), 1),
        Elem::Val(row()),
        Elem::Val(row()),
        Elem::Val(row()),
        Elem::ValStop(row(), 1),
        Elem::Val(row()),
        Elem::Val(pad()),
        Elem::Val(pad()),
        Elem::ValStop(pad(), 2),
    ];
    assert_eq!(Reshape::new(0, 4, Some(pad()), 0, true, 0).run(&nine_rows()), expected);
}

#[test]
fn reshape_as_promote() {
    // (1,3, 2 * 1) => (1,3, 2, 1)
    let out = Reshape::new(0, 1, None, 2, false, 0).run(&blanks(vec![3, 2]));
    assert_eq!(out, blanks(vec![3, 2, 1]));
}

#[test]
fn reshape_1d() {
    // (5, 2 * 3, 4) => (5, 2, 3, 4)
    let out = Reshape::new(1, 3, None, 2, false, 0).run(&blanks(vec![5, 2 * 3, 4]));
    assert_eq!(out, blanks(vec![5, 2, 3, 4]));
}

#[test]
fn flatten_undoes_reshape_and_promote() {
    let stream = blanks(vec![5, 6, 4]);
    let split = Reshape::new(1, 3, None, 2, false, 0).run(&stream);
    assert_eq!(Flatten::new(1, 2).run(&split), stream);
    let promoted = Promote::new(0).run(&stream);
    assert_eq!(promoted, blanks(vec![5, 6, 4, 1]));
    assert_eq!(Flatten::new(0, 1).run(&promoted), stream);
    assert_eq!(Reshape::new(0, 1, None, 3, false, 0).run(&stream), promoted);
}

#[test]
fn shapes_change_in_no_time() {
    assert_eq!(Flatten::new(0, 1).step(7, &Elem::ValStop(1u32, 2)), (7, Elem::ValStop(1, 1)));
    assert_eq!(Promote::new(0).step(8, &Elem::Val(1u32)), (8, Elem::ValStop(1, 1)));
    let reshape = Reshape::new(0, 3, Some(0u32), 1, false, 0);
    let mut counter = 0usize;
    let sent = reshape.step(9, &mut counter, &Elem::ValStop(1, 1), false);
    assert_eq!(sent, vec![(9, Elem::Val(1)), (9, Elem::Val(0)), (9, Elem::ValStop(0, 2))]);
    assert_eq!(counter, 0);
    let open = Reshape::new(0, 2, Some(0u32), 0, true, 0);
    assert_eq!(open.finish(4, 1), vec![(4, Elem::ValStop(0, 2))]);
}

fn counted_group(last: u32) -> Vec<Elem<u32>> {
    let mut group: Vec<Elem<u32>> = (0..4u32).map(Elem::Val).collect();
    group.push(Elem::ValStop(5, last));
    group
}

#[test]
fn promote_2d() {
    let mut input = counted_group(1);
    input.extend(counted_group(2));
    let mut expected = counted_group(1);
    expected.extend(counted_group(3));
    assert_eq!(Promote::new(2).run(&input), expected);
}

#[test]
fn promote_0d() {
    let input = vec![Elem::Val(0), Elem::Val(1), Elem::ValStop(2, 1)];
    let expected = vec![Elem::ValStop(0, 1), Elem::ValStop(1, 1), Elem::ValStop(2, 2)];
    assert_eq!(Promote::new(0).run(&input), expected);
}

#[test]
fn promote_0d_on_0d() {
    let input: Vec<Elem<u32>> = (0..2u32).map(Elem::Val).collect();
    let expected = vec![Elem::ValStop(0, 1), Elem::ValStop(1, 1), Elem::ValStop(2, 1)];
    let out = Promote::new(0).run(&input);
    // The stream ends after two of the three elements.
    assert_eq!(out.len(), 2);
    for (x, y) in out.iter().zip(expected.iter()) {
        assert_eq!(x, y);
    }
}

#[test]
fn expand_0d() {
    let refs = vec![Elem::Val(2), Elem::Val(2), Elem::Val(2)];
    let out = ExpandRef::new(1, 0).run(&vec![Elem::Val(1)], &refs);
    assert_eq!(out, vec![Elem::Val(1), Elem::Val(1), Elem::Val(1)]);
}

#[test]
fn expand_3d() {
    // [2,3,1,1] => [2,3,2,4]
    let input = vec![
        Elem::ValStop(1, 2),
        Elem::ValStop(2, 2),
        Elem::ValStop(3, 3),
        Elem::ValStop(4, 2),
        Elem::ValStop(5, 2),
        Elem::ValStop(6, 3),
    ];
    let vec1 = vec![
        Elem::Val(1),
        Elem::Val(1),
        Elem::Val(1),
        Elem::ValStop(1, 1),
        Elem::Val(1),
        Elem::Val(1),
        Elem::Val(1),
        Elem::ValStop(2, 2),
    ];
    let vec2 = vec![
        Elem::Val(1),
        Elem::Val(1),
        Elem::Val(1),
        Elem::ValStop(1, 1),
        Elem::Val(1),
        Elem::Val(1),
        Elem::Val(1),
        Elem::ValStop(2, 3),
    ];
    let chained: Vec<Elem<i32>> = vec1
        .iter()
        .chain(vec1.iter())
        .chain(vec2.iter())
        .chain(vec1.iter())
        .chain(vec1.iter())
        .chain(vec2.iter())
        .cloned()
        .collect();
    let out = ExpandRef::new(2, 0).run(&input, &chained);
    assert_eq!(out[..3], [Elem::Val(1), Elem::Val(1), Elem::Val(1)]);
    // Each value takes the place of eight references and closes what they close.
    assert_eq!(out.len(), chained.len());
    for i in 0..out.len() {
        let value = (i / 8 + 1) as i32;
        match chained[i] {
            Elem::Val(_) => assert_eq!(out[i], Elem::Val(value)),
            Elem::ValStop(_, level) => assert_eq!(out[i], Elem::ValStop(value, level)),
        }
    }
}

#[test]
fn repeat_ref_simple() {
    let input = vec![Elem::Val(1), Elem::Val(2), Elem::Val(3)];
    let refs = vec![
        Elem::Val(0),
        Elem::Val(0),
        Elem::ValStop(0, 1),
        Elem::Val(0),
        Elem::ValStop(0, 1),
        Elem::Val(0),
        Elem::Val(0),
        Elem::Val(0),
        Elem::ValStop(0, 1),
    ];
    let expected = vec![
        Elem::Val(1),
        Elem::Val(1),
        Elem::ValStop(1, 1),
        Elem::Val(2),
        Elem::ValStop(2, 1),
        Elem::Val(3),
        Elem::Val(3),
        Elem::Val(3),
        Elem::ValStop(3, 1),
    ];
    assert_eq!(RepeatRef::new(0).run(&input, &refs), expected);
}

#[test]
fn repeat_ref_2d() {
    let input = vec![Elem::Val(1), Elem::ValStop(2, 1), Elem::Val(3), Elem::ValStop(4, 2)];
    let refs = vec![
        Elem::Val(0),
        Elem::Val(0),
        Elem::ValStop(0, 1),
        Elem::Val(0),
        Elem::ValStop(0, 2),
        Elem::Val(0),
        Elem::Val(0),
        Elem::Val(0),
        Elem::ValStop(0, 1),
        Elem::Val(0),
        Elem::ValStop(0, 3),
    ];
    let expected = vec![
        Elem::Val(1),
        Elem::Val(1),
        Elem::ValStop(1, 1),
        Elem::Val(2),
        Elem::ValStop(2, 2),
        Elem::Val(3),
        Elem::Val(3),
        Elem::Val(3),
        Elem::ValStop(3, 1),
        Elem::Val(4),
        Elem::ValStop(4, 3),
    ];
    assert_eq!(RepeatRef::new(0).run(&input, &refs), expected);
}

#[test]
fn static_repetition_adds_a_dimension() {
    let repeat = RepeatStatic::new(3);
    let mut now = 10u64;
    let out = repeat.step(&mut now, &Elem::ValStop(7u32, 1));
    let elems: Vec<Elem<u32>> = out.iter().map(|(_, e)| e.clone()).collect();
    assert_eq!(elems, vec![Elem::Val(7), Elem::Val(7), Elem::ValStop(7, 2)]);
    let times: Vec<u64> = out.iter().map(|(t, _)| *t).collect();
    assert_eq!(times, vec![10, 11, 12]);
    assert_eq!(now, 13);
    let copies: Vec<Elem<Blank>> = blanks(vec![2, 4])
        .iter()
        .flat_map(|elem| repeat.step(&mut now, elem))
        .map(|(_, elem)| elem)
        .collect();
    assert_eq!(copies, blanks(vec![2, 4, 3]));
}

#[test]
fn round_trip_test_repeat_rank_0() {
    // [1] buffers of shape [2], [4] references: [4, 2] out
    let tile = || Tile::<u32>::new_blank((2, 2), 2, false);
    let buffer = || Buffer::new(vec![2], vec![tile(), tile()], 0);
    let refs = vec![Elem::Val(0), Elem::Val(0), Elem::Val(0), Elem::Val(0)];
    let out = DynStreamify::new(1, 0, 0).run(&vec![Elem::Val(buffer())], &refs);
    let mut expected = Vec::new();
    for _ in 0..4 {
        expected.extend(buffer().to_elem_iter());
    }
    assert_eq!(out, expected);
}

#[test]
fn round_trip_test_repeat_rank_1() {
    // [2,3,1,1] buffers of shape [2,2], [2,3,2,4] references: [2,3,2,4,2,2] out
    let buffer = || Buffer::new(vec![2, 2], vec![blank(); 4], 0);
    let input: Vec<Elem<Buffer<Blank>>> =
        [2, 2, 3, 2, 2, 3].iter().map(|level| Elem::ValStop(buffer(), *level)).collect();
    let mut refs = blanks(vec![3, 2, 4]);
    refs.extend(blanks(vec![3, 2, 4]));
    let out = DynStreamify::new(2, 1, 0).run(&input, &refs);
    let mut expected = blanks(vec![3, 2, 4, 2, 2]);
    expected.extend(blanks(vec![3, 2, 4, 2, 2]));
    assert_eq!(out, expected);
}

#[test]
fn a_buffer_leaves_one_element_per_cycle() {
    let op = DynStreamify::new(1, 0, 0);
    let buffer = Buffer::new(vec![2], vec![7u32, 8], 0);
    let mut now = 20u64;
    let (sent, done) = op.step(&mut now, &Elem::ValStop(buffer, 1), &Elem::ValStop(0, 1));
    assert_eq!(sent, vec![(20, Elem::Val(7)), (21, Elem::ValStop(8, 2))]);
    assert!(done);
    assert_eq!(now, 22);
}

#[test]
fn counter_emits_rank_one_range() {
    let expected = count_range_elems::<u64>(4, 8, false, None, 17);
    assert_eq!(Counter::new(4, 17).run(), expected);
    assert_eq!(expected.len(), 4);
}

#[test]
fn range_helper_raises_the_terminal_stop() {
    let values = count_range_elems::<u64>(2, 8, false, Some(3), 1);
    assert!(matches!(values[0], Elem::Val(_)));
    assert!(matches!(values[1], Elem::ValStop(_, 4)));
}

#[test]
fn lanes_are_dealt_out_and_gathered_in_turn() {
    let stream = Buffer::new(vec![6], (0..6).collect::<Vec<u32>>(), 0).to_elem_iter();
    let lanes = ContextDeinterleave::new(2).run(&stream);
    let values = |lane: &Vec<Elem<u32>>| -> Vec<u32> {
        lane.iter()
            .map(|e| match e {
                Elem::Val(v) => *v,
                Elem::ValStop(v, _) => *v,
            })
            .collect()
    };
    assert_eq!(values(&lanes[0]), vec![0, 2, 4]);
    assert_eq!(values(&lanes[1]), vec![1, 3, 5]);
    let joined = ContextInterleave::new(2).run(&lanes);
    assert_eq!(joined, stream);
    assert_eq!(ContextDeinterleave::new(2).run(&joined), lanes);
}

#[test]
fn identifiers_are_listed_between_commas() {
    assert_eq!(parse_id_list(""), Some(vec![]));
    assert_eq!(parse_id_list(" 3, 4 ,, 15\u{3000}"), Some(vec![3, 4, 15]));
    assert_eq!(parse_id_list("+7,4294967295"), Some(vec![7, u32::MAX]));
    assert_eq!(parse_id_list("4294967296"), None);
    assert_eq!(parse_id_list("1 2"), None);
    assert_eq!(parse_id_list("+"), None);
    assert_eq!(parse_id_list("-1"), None);
}

#[test]
fn a_traced_repeat_counts_its_windows() {
    let mut trace = RepeatTrace::new(17, &[4, 17]);
    let mut lines = Vec::new();
    for window in [vec![Elem::Val(0u32), Elem::Val(0), Elem::ValStop(0, 1)], vec![Elem::ValStop(0, 2)]] {
        trace.take_input();
        for reference in &window {
            lines.push(trace.take_reference(reference));
        }
    }
    assert_eq!(
        lines,
        vec![
            None,
            None,
            Some(
                "[repeat-ref-trace] id=17 input=1 window_outputs=3 ref_count=3 output_count=3 ref_stop=1"
                    .to_string()
            ),
            Some(
                "[repeat-ref-trace] id=17 input=2 window_outputs=1 ref_count=4 output_count=4 ref_stop=2"
                    .to_string()
            ),
        ]
    );
    assert_eq!(
        trace.close(),
        Some(
            "[repeat-ref-trace] id=17 input_closed input_count=2 ref_count=4 output_count=4".to_string()
        )
    );
}

#[test]
fn an_operator_that_is_not_listed_is_not_traced() {
    let mut trace = RepeatTrace::new(1, &[11, 10]);
    trace.take_input();
    assert_eq!(trace.take_reference(&Elem::ValStop(0u32, 1)), None);
    assert_eq!(trace.close(), None);
    assert_eq!((trace.input_count, trace.ref_count, trace.output_count), (1, 1, 1));
}
