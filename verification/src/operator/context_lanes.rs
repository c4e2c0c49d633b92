//! Dealing a stream out to lanes in turn, and gathering the lanes again.

use vstd::prelude::*;

use crate::primitives::array::{lemma_cell_in_bounds, lemma_cell_of_position};
use crate::primitives::elem::{elem_cloned, pack, packed, stop_of, stream_cloned, value_of, Elem, StopType};

verus! {

/// Deals the elements of a rank-one stream out to `lanes` lanes in turn. The
/// stop that closes a group reaches every lane.
#[derive(Debug)]
pub struct ContextDeinterleave {
    pub lanes: usize,
}

/// Gathers one element from each lane in turn. The stop on which the lanes
/// agree is sent with the element of the last lane.
#[derive(Debug)]
pub struct ContextInterleave {
    pub lanes: usize,
}

impl ContextDeinterleave {
    /// Only the last element of a round closes a group.
    pub open spec fn round_ok<T>(self, round: Seq<Elem<T>>) -> bool {
        &&& round.len() == self.lanes
        &&& forall|l: int|
            0 <= l < round.len() - 1 ==> (#[trigger] round[l]).level() == 0
    }

    /// What the lanes receive for a round.
    pub open spec fn dealt<T>(self, round: Seq<Elem<T>>) -> Seq<Elem<T>> {
        Seq::new(
            self.lanes as nat,
            |l: int| packed(round[l].value(), round[self.lanes - 1].level() as StopType),
        )
    }

    /// The stream consists of whole rounds, and its last group is closed.
    pub open spec fn accepts_stream<T>(self, input: Seq<Elem<T>>) -> bool {
        &&& input.len() % (self.lanes as nat) == 0
        &&& forall|i: int|
            0 <= i < input.len() && (#[trigger] input[i]).level() > 0 ==> (i + 1) % (
            self.lanes as int) == 0
        &&& input.len() > 0 ==> input.last().level() > 0
    }

    /// What lane `l` receives of a whole stream.
    pub open spec fn lane_output<T>(self, input: Seq<Elem<T>>, l: int) -> Seq<Elem<T>> {
        let n = self.lanes as int;
        Seq::new(
            (input.len() / self.lanes as nat) as nat,
            |r: int| packed(input[r * n + l].value(), input[r * n + n - 1].level() as StopType),
        )
    }

    pub fn new(lanes: usize) -> (res: Self)
        requires
            lanes >= 2,
        ensures
            res.lanes == lanes,
    {
        ContextDeinterleave { lanes }
    }

    /// Deals out one round; the lanes receive their elements in one cycle.
    pub fn round<T: Clone>(&self, round: &Vec<Elem<T>>) -> (res: Vec<Elem<T>>)
        requires
            self.lanes >= 2,
            self.round_ok(round@),
        ensures
            stream_cloned(self.dealt(round@), res@),
    {
        let stop: StopType = stop_of(&round[self.lanes - 1]);
        let mut out: Vec<Elem<T>> = Vec::new();
        let mut l: usize = 0;
        while l < self.lanes
            invariant
                l <= self.lanes,
                round@.len() == self.lanes,
                stop == round@[self.lanes - 1].level(),
                out@.len() == l,
                forall|k: int|
                    0 <= k < l ==> elem_cloned(self.dealt(round@)[k], #[trigger] out@[k]),
            decreases self.lanes - l,
        {
            out.push(pack(value_of(&round[l]), stop));
            l = l + 1;
        }
        out
    }

    /// Deals out a whole stream.
    pub fn run<T: Clone>(&self, input: &Vec<Elem<T>>) -> (res: Vec<Vec<Elem<T>>>)
        requires
            self.lanes >= 2,
            self.accepts_stream(input@),
        ensures
            res@.len() == self.lanes,
            forall|l: int|
                0 <= l < self.lanes ==> stream_cloned(
                    self.lane_output(input@, l),
                    (#[trigger] res@[l])@,
                ),
    {
        let n: usize = self.lanes;
        let rounds: usize = input.len() / n;
        proof {
            vstd::arithmetic::div_mod::lemma_fundamental_div_mod(input@.len() as int, n as int);
            assert(rounds * n == input@.len()) by (nonlinear_arith)
                requires
                    input@.len() == n * (input@.len() as int / n as int),
                    rounds == input@.len() as int / n as int,
            ;
        }
        let mut out: Vec<Vec<Elem<T>>> = Vec::new();
        let mut l: usize = 0;
        while l < n
            invariant
                l <= n,
                n == self.lanes,
                n >= 2,
                rounds * n == input@.len(),
                rounds == input@.len() / n as nat,
                out@.len() == l,
                forall|k: int|
                    0 <= k < l ==> stream_cloned(self.lane_output(input@, k), (#[trigger] out@[k])@),
            decreases n - l,
        {
            let mut lane: Vec<Elem<T>> = Vec::new();
            let mut r: usize = 0;
            while r < rounds
                invariant
                    l < n,
                    r <= rounds,
                    n == self.lanes,
                    n >= 2,
                    rounds * n == input@.len(),
                    rounds == input@.len() / n as nat,
                    lane@.len() == r,
                    forall|k: int|
                        0 <= k < r ==> elem_cloned(
                            self.lane_output(input@, l as int)[k],
                            #[trigger] lane@[k],
                        ),
                decreases rounds - r,
            {
                let len: usize = input.len();
                proof {
                    lemma_cell_in_bounds(r as int, l as int, rounds as int, n as int);
                    lemma_cell_in_bounds(r as int, n - 1, rounds as int, n as int);
                }
                let first: usize = r * n;
                let stop: StopType = stop_of(&input[first + (n - 1)]);
                lane.push(pack(value_of(&input[first + l]), stop));
                r = r + 1;
            }
            out.push(lane);
            l = l + 1;
        }
        out
    }
}

impl ContextInterleave {
    /// Every lane takes part in the round, with the same stop.
    pub open spec fn round_ok<T>(self, round: Seq<Elem<T>>) -> bool {
        &&& round.len() == self.lanes
        &&& forall|l: int|
            0 <= l < round.len() ==> (#[trigger] round[l]).level() == round[0].level()
    }

    /// What is sent for a round: the values in the order of the lanes, the
    /// stop with the last one.
    pub open spec fn gathered<T>(self, round: Seq<Elem<T>>) -> Seq<Elem<T>> {
        Seq::new(
            self.lanes as nat,
            |l: int|
                packed(
                    round[l].value(),
                    if l == self.lanes - 1 {
                        round[0].level() as StopType
                    } else {
                        0
                    },
                ),
        )
    }

    /// The lanes are equally long, agree on their stops, and end with a closed
    /// group.
    pub open spec fn accepts_lanes<T>(self, lanes: Seq<Seq<Elem<T>>>) -> bool {
        &&& lanes.len() == self.lanes
        &&& forall|l: int| 0 <= l < lanes.len() ==> (#[trigger] lanes[l]).len() == lanes[0].len()
        &&& forall|l: int, r: int|
            0 <= l < lanes.len() && 0 <= r < lanes[0].len() ==> (#[trigger] lanes[l][r]).level()
                == lanes[0][r].level()
        &&& lanes[0].len() > 0 ==> lanes[0].last().level() > 0
    }

    /// The stream that leaves for whole lanes.
    pub open spec fn output<T>(self, lanes: Seq<Seq<Elem<T>>>) -> Seq<Elem<T>> {
        let n = self.lanes as int;
        Seq::new(
            (lanes[0].len() * self.lanes as nat) as nat,
            |i: int|
                packed(
                    lanes[i % n][i / n].value(),
                    if i % n == n - 1 {
                        lanes[0][i / n].level() as StopType
                    } else {
                        0
                    },
                ),
        )
    }

    pub fn new(lanes: usize) -> (res: Self)
        requires
            lanes >= 2,
        ensures
            res.lanes == lanes,
    {
        ContextInterleave { lanes }
    }

    /// Gathers one round.
    pub fn round<T: Clone>(&self, round: &Vec<Elem<T>>) -> (res: Vec<Elem<T>>)
        requires
            self.lanes >= 2,
            self.round_ok(round@),
        ensures
            stream_cloned(self.gathered(round@), res@),
    {
        let stop: StopType = stop_of(&round[0]);
        let mut out: Vec<Elem<T>> = Vec::new();
        let mut l: usize = 0;
        while l < self.lanes
            invariant
                l <= self.lanes,
                round@.len() == self.lanes,
                stop == round@[0].level(),
                out@.len() == l,
                forall|k: int|
                    0 <= k < l ==> elem_cloned(self.gathered(round@)[k], #[trigger] out@[k]),
            decreases self.lanes - l,
        {
            let level: StopType = if l == self.lanes - 1 {
                stop
            } else {
                0
            };
            out.push(pack(value_of(&round[l]), level));
            l = l + 1;
        }
        out
    }

    /// Gathers whole lanes.
    pub fn run<T: Clone>(&self, lanes: &Vec<Vec<Elem<T>>>) -> (res: Vec<Elem<T>>)
        requires
            self.lanes >= 2,
            self.accepts_lanes(lanes@.map_values(|lane: Vec<Elem<T>>| lane@)),
            lanes@[0]@.len() * self.lanes <= usize::MAX,
        ensures
            stream_cloned(self.output(lanes@.map_values(|lane: Vec<Elem<T>>| lane@)), res@),
    {
        let ghost views = lanes@.map_values(|lane: Vec<Elem<T>>| lane@);
        let ghost ideal = self.output(views);
        let n: usize = self.lanes;
        let rounds: usize = lanes[0].len();
        let mut out: Vec<Elem<T>> = Vec::new();
        let mut r: usize = 0;
        while r < rounds
            invariant
                n == self.lanes,
                n >= 2,
                r <= rounds,
                rounds * n <= usize::MAX,
                views == lanes@.map_values(|lane: Vec<Elem<T>>| lane@),
                self.accepts_lanes(views),
                rounds == views[0].len(),
                ideal == self.output(views),
                out@.len() == r * n,
                forall|k: int| 0 <= k < out@.len() ==> elem_cloned(ideal[k], #[trigger] out@[k]),
            decreases rounds - r,
        {
            let mut l: usize = 0;
            while l < n
                invariant
                    n == self.lanes,
                    n >= 2,
                    l <= n,
                    r < rounds,
                    rounds * n <= usize::MAX,
                    views == lanes@.map_values(|lane: Vec<Elem<T>>| lane@),
                    self.accepts_lanes(views),
                    rounds == views[0].len(),
                    ideal == self.output(views),
                    out@.len() == r * n + l,
                    forall|k: int|
                        0 <= k < out@.len() ==> elem_cloned(ideal[k], #[trigger] out@[k]),
                decreases n - l,
            {
                assert(views[l as int] == lanes@[l as int]@);
                assert(views[0] == lanes@[0]@);
                let level: StopType = if l == n - 1 {
                    stop_of(&lanes[0][r])
                } else {
                    0
                };
                proof {
                    let k = r * n + l;
                    lemma_cell_in_bounds(r as int, l as int, rounds as int, n as int);
                    vstd::arithmetic::div_mod::lemma_fundamental_div_mod_converse(
                        k,
                        n as int,
                        r as int,
                        l as int,
                    );
                    assert(ideal[k] == packed(views[l as int][r as int].value(), level));
                }
                out.push(pack(value_of(&lanes[l][r]), level));
                l = l + 1;
            }
            assert(r * n + n == (r + 1) * n) by (nonlinear_arith);
            r = r + 1;
        }
        out
    }
}

/// Gathering the lanes to which a stream was dealt out gives back the stream.
pub proof fn law_interleave_undoes_deinterleave<T>(n: usize, input: Seq<Elem<T>>)
    requires
        n >= 2,
        (ContextDeinterleave { lanes: n }).accepts_stream(input),
        forall|i: int| 0 <= i < input.len() ==> (#[trigger] input[i]).canonical(),
    ensures
        ({
            let lanes = Seq::new(
                n as nat,
                |l: int| (ContextDeinterleave { lanes: n }).lane_output(input, l),
            );
            &&& (ContextInterleave { lanes: n }).accepts_lanes(lanes)
            &&& (ContextInterleave { lanes: n }).output(lanes) == input
        }),
{
    let deal = ContextDeinterleave { lanes: n };
    let gather = ContextInterleave { lanes: n };
    let lanes = Seq::new(n as nat, |l: int| deal.lane_output(input, l));
    let rounds = (input.len() / n as nat) as int;
    vstd::arithmetic::div_mod::lemma_fundamental_div_mod(input.len() as int, n as int);
    assert(rounds * n == input.len()) by (nonlinear_arith)
        requires
            input.len() == n * (input.len() as int / n as int),
            rounds == input.len() as int / n as int,
    ;
    assert forall|i: int| 0 <= i < input.len() implies gather.output(lanes)[i] == input[i] by {
        lemma_cell_of_position(i, rounds, n as int);
        let r = i / n as int;
        let l = i % n as int;
        if l < n - 1 {
            if input[i].level() > 0 {
                vstd::arithmetic::div_mod::lemma_fundamental_div_mod_converse(
                    i + 1,
                    n as int,
                    r,
                    l + 1,
                );
                assert(false);
            }
        }
        lemma_cell_in_bounds(r, n - 1, rounds, n as int);
    }
    assert(lanes[0].len() == rounds);
    assert(gather.output(lanes) =~= input);
    if rounds > 0 {
        assert((rounds - 1) * n + n - 1 == input.len() - 1) by (nonlinear_arith)
            requires
                rounds * n == input.len(),
        ;
    }
}

/// Dealing out the stream gathered from lanes gives back the lanes.
pub proof fn law_deinterleave_undoes_interleave<T>(n: usize, lanes: Seq<Seq<Elem<T>>>, l: int)
    requires
        n >= 2,
        0 <= l < n,
        (ContextInterleave { lanes: n }).accepts_lanes(lanes),
        forall|r: int| 0 <= r < lanes[l].len() ==> (#[trigger] lanes[l][r]).canonical(),
    ensures
        (ContextDeinterleave { lanes: n }).lane_output(
            (ContextInterleave { lanes: n }).output(lanes),
            l,
        ) == lanes[l],
{
    let deal = ContextDeinterleave { lanes: n };
    let joined = (ContextInterleave { lanes: n }).output(lanes);
    let rounds = lanes[0].len() as int;
    vstd::arithmetic::div_mod::lemma_div_multiples_vanish(rounds, n as int);
    assert(joined.len() == n * rounds) by (nonlinear_arith)
        requires
            joined.len() == rounds * n,
    ;
    assert(deal.lane_output(joined, l).len() == rounds);
    assert forall|r: int| 0 <= r < rounds implies deal.lane_output(joined, l)[r]
        == lanes[l][r] by {
        lemma_cell_in_bounds(r, l, rounds, n as int);
        lemma_cell_in_bounds(r, n - 1, rounds, n as int);
        vstd::arithmetic::div_mod::lemma_fundamental_div_mod_converse(r * n + l, n as int, r, l);
        vstd::arithmetic::div_mod::lemma_fundamental_div_mod_converse(
            r * n + n - 1,
            n as int,
            r,
            n - 1,
        );
        assert(lanes[l][r].level() == lanes[0][r].level());
    }
    assert(lanes[l].len() == rounds);
    assert(deal.lane_output(joined, l) =~= lanes[l]);
}

/// Dealing a stream out: element `l` of round `r` goes to lane `l`, as its
/// element `r`, with the stop that closes the round.
pub proof fn law_rounds_are_dealt<T: Clone>(
    op: ContextDeinterleave,
    input: Vec<Elem<T>>,
    lanes: Vec<Vec<Elem<T>>>,
    r: int,
    l: int,
)
    requires
        op.lanes >= 2,
        op.accepts_stream(input@),
        call_ensures(ContextDeinterleave::run::<T>, (&op, &input), lanes),
        0 <= l < op.lanes,
        0 <= r,
        r * op.lanes + op.lanes <= input@.len(),
    ensures
        lanes@.len() == op.lanes,
        lanes@[l]@.len() * op.lanes == input@.len(),
        cloned(input@[r * op.lanes + l].value(), lanes@[l]@[r].value()),
        lanes@[l]@[r].level() == input@[r * op.lanes + op.lanes - 1].level(),
{
    let n = op.lanes as int;
    let len = input@.len() as int;
    vstd::arithmetic::div_mod::lemma_fundamental_div_mod(len, n);
    let rounds = len / n;
    assert(rounds * n == len && 0 <= r < rounds) by (nonlinear_arith)
        requires
            len == n * rounds,
            r * n + n <= len,
            r >= 0,
            n > 0,
    ;
    let ideal = op.lane_output(input@, l);
    assert(stream_cloned(ideal, lanes@[l]@));
    assert(elem_cloned(ideal[r], lanes@[l]@[r]));
}

/// Gathering lanes: round `r` takes element `r` of each lane in turn, and only
/// the last of them carries the stop that they share.
pub proof fn law_rounds_are_gathered<T: Clone>(
    op: ContextInterleave,
    lanes: Vec<Vec<Elem<T>>>,
    out: Vec<Elem<T>>,
    r: int,
    l: int,
)
    requires
        op.lanes >= 2,
        lanes@.len() == op.lanes,
        call_ensures(ContextInterleave::run::<T>, (&op, &lanes), out),
        0 <= l < op.lanes,
        0 <= r < lanes@[0]@.len(),
    ensures
        out@.len() == lanes@[0]@.len() * op.lanes,
        0 <= r * op.lanes + l < out@.len(),
        cloned(lanes@[l]@[r].value(), out@[r * op.lanes + l].value()),
        out@[r * op.lanes + l].level() == (if l == op.lanes - 1 {
            lanes@[0]@[r].level()
        } else {
            0
        }),
{
    let n = op.lanes as int;
    let all = lanes@.map_values(|lane: Vec<Elem<T>>| lane@);
    let ideal = op.output(all);
    let i = r * n + l;
    assert(0 <= i < lanes@[0]@.len() * n) by (nonlinear_arith)
        requires
            i == r * n + l,
            0 <= l < n,
            0 <= r < lanes@[0]@.len(),
    ;
    vstd::arithmetic::div_mod::lemma_fundamental_div_mod_converse(i, n, r, l);
    assert(all[l] == lanes@[l]@ && all[0] == lanes@[0]@);
    assert(elem_cloned(ideal[i], out@[i]));
}

/// One round is dealt out with the stop of its last element, and gathered with
/// the stop on its last element alone; the values stay in their lanes.
pub proof fn law_round_keeps_lanes<T: Clone>(
    deal: ContextDeinterleave,
    gather: ContextInterleave,
    round: Vec<Elem<T>>,
    dealt: Vec<Elem<T>>,
    gathered: Vec<Elem<T>>,
    l: int,
)
    requires
        deal.lanes == round@.len(),
        gather.lanes == round@.len(),
        call_ensures(ContextDeinterleave::round::<T>, (&deal, &round), dealt),
        call_ensures(ContextInterleave::round::<T>, (&gather, &round), gathered),
        0 <= l < round@.len(),
    ensures
        dealt@.len() == round@.len() == gathered@.len(),
        cloned(round@[l].value(), dealt@[l].value()),
        cloned(round@[l].value(), gathered@[l].value()),
        dealt@[l].level() == round@[round@.len() - 1].level(),
        gathered@[l].level() == (if l == round@.len() - 1 {
            round@[0].level()
        } else {
            0
        }),
{
    assert(elem_cloned(deal.dealt(round@)[l], dealt@[l]));
    assert(elem_cloned(gather.gathered(round@)[l], gathered@[l]));
}

} // verus!
