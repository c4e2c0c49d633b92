//! Dealing blocks of a stream out to lanes.

use vstd::prelude::*;

use crate::operator::partition::FlatPartitionConfig;
use crate::primitives::elem::{packed, unpack, Elem, StopType};
use crate::utils::mapping::reversed;

verus! {

/// Deals the stream out to `lanes` lanes, in blocks of `output_dim` groups of
/// rank `parallelize_rank`. The stop that ends the last lane's block ends the
/// blocks of all lanes. Dealing takes no time: an element leaves in the cycle
/// of the element that sends it. The configuration has an entry for each lane.
#[derive(Debug)]
pub struct Parallelize {
    pub lanes: usize,
    pub parallelize_rank: StopType,
    pub output_dim: u32,
    pub config: FlatPartitionConfig,
    pub id: u32,
}

/// Where the dealing stands. The last lane reveals at which level the current
/// round ends, so the last value of each earlier lane waits in `pending`; the
/// next lane is the one after them. `count` groups of its block are done.
#[derive(Debug)]
pub struct ParallelizeState<A> {
    pub pending: Vec<A>,
    pub count: u32,
}

/// An element for a lane, and the cycle in which it is sent.
#[derive(Debug, PartialEq, Eq)]
pub struct Routed<A> {
    pub lane: usize,
    pub time: u64,
    pub data: Elem<A>,
}

/// The elements that a list of routed elements holds for one lane.
pub open spec fn for_lane<A>(sent: Seq<Routed<A>>, lane: int) -> Seq<Elem<A>>
    decreases sent.len(),
{
    if sent.len() == 0 {
        Seq::empty()
    } else {
        let before = for_lane(sent.drop_last(), lane);
        if sent.last().lane == lane {
            before.push(sent.last().data)
        } else {
            before
        }
    }
}

impl Parallelize {
    /// There are lanes, blocks are not empty, and every lane has its entry in the
    /// configuration.
    pub open spec fn wf(self) -> bool {
        &&& self.lanes > 0
        &&& self.output_dim > 0
        &&& self.config.switch_cycles@.len() == self.lanes
    }

    /// The state between two elements.
    pub open spec fn state_ok<A>(self, state: ParallelizeState<A>) -> bool {
        &&& state.pending@.len() < self.lanes
        &&& state.count < self.output_dim
    }

    /// The element ends a group of the block.
    pub open spec fn ends_group<A>(self, e: Elem<A>) -> bool {
        e.level() >= self.parallelize_rank
    }

    /// The element ends a round: it closes more than a group.
    pub open spec fn ends_round<A>(self, e: Elem<A>) -> bool {
        e.level() > self.parallelize_rank
    }

    /// The element ends the block of a lane.
    pub open spec fn ends_block<A>(self, state: ParallelizeState<A>, e: Elem<A>) -> bool {
        self.ends_group(e) && state.count + 1 == self.output_dim
    }

    /// A round ends exactly with the block of the last lane.
    pub open spec fn accepts<A>(self, state: ParallelizeState<A>, e: Elem<A>) -> bool {
        &&& self.parallelize_rank == 0 ==> e.canonical()
        &&& self.ends_round(e) <==> self.ends_block(state, e) && state.pending@.len() == self.lanes
            - 1
    }

    /// An element for a lane that is sent in cycle `now`.
    pub open spec fn routed<A>(self, now: u64, lane: int, data: Elem<A>) -> Routed<A> {
        Routed { lane: lane as usize, time: now, data }
    }

    /// What is sent for an element that is taken in cycle `now`: all of it
    /// leaves in that cycle.
    pub open spec fn sent<A>(
        self,
        now: u64,
        state: ParallelizeState<A>,
        e: Elem<A>,
    ) -> Seq<Routed<A>> {
        let lane = state.pending@.len();
        if self.ends_round(e) {
            Seq::new(
                self.lanes as nat,
                |l: int|
                    self.routed(
                        now,
                        l,
                        Elem::ValStop(
                            if l < lane {
                                state.pending@[l]
                            } else {
                                e.value()
                            },
                            e.level() as StopType,
                        ),
                    ),
            )
        } else if self.ends_block(state, e) {
            Seq::empty()
        } else {
            seq![self.routed(now, lane as int, e)]
        }
    }

    /// The values that wait after an element.
    pub open spec fn next_pending<A>(self, state: ParallelizeState<A>, e: Elem<A>) -> Seq<A> {
        if self.ends_round(e) {
            Seq::empty()
        } else if self.ends_block(state, e) {
            state.pending@.push(e.value())
        } else {
            state.pending@
        }
    }

    /// The groups done in the current block after an element.
    pub open spec fn next_count<A>(self, state: ParallelizeState<A>, e: Elem<A>) -> int {
        if self.ends_block(state, e) {
            0
        } else if self.ends_group(e) {
            state.count + 1
        } else {
            state.count as int
        }
    }

    pub fn new(
        lanes: usize,
        parallelize_rank: StopType,
        output_dim: u32,
        config: FlatPartitionConfig,
        id: u32,
    ) -> (res: Self)
        requires
            lanes > 0,
            output_dim > 0,
            config.switch_cycles@.len() == lanes,
        ensures
            res.wf(),
            res == (Parallelize { lanes, parallelize_rank, output_dim, config, id }),
    {
        Parallelize { lanes, parallelize_rank, output_dim, config, id }
    }

    /// The state before the first element.
    pub fn start<A>(&self) -> (res: ParallelizeState<A>)
        requires
            self.wf(),
        ensures
            self.state_ok(res),
            res.pending@.len() == 0,
            res.count == 0,
    {
        ParallelizeState { pending: Vec::new(), count: 0 }
    }

    /// Ends a round: every lane receives its last value with the same stop.
    fn flush_lane_group<A>(
        &self,
        now: u64,
        pending: &mut Vec<A>,
        final_value: A,
        stop_level: StopType,
    ) -> (res: Vec<Routed<A>>)
        requires
            self.wf(),
            old(pending)@.len() == self.lanes - 1,
        ensures
            final(pending)@.len() == 0,
            res@ == Seq::new(
                self.lanes as nat,
                |l: int|
                    self.routed(
                        now,
                        l,
                        Elem::ValStop(
                            if l < self.lanes - 1 {
                                old(pending)@[l]
                            } else {
                                final_value
                            },
                            stop_level,
                        ),
                    ),
            ),
    {
        let ghost waiting = pending@;
        let mut out: Vec<Routed<A>> = Vec::new();
        let mut lane: usize = 0;
        while lane < self.lanes - 1
            invariant
                self.wf(),
                lane <= self.lanes - 1,
                waiting.len() == self.lanes - 1,
                pending@ == waiting.skip(lane as int),
                out@.len() == lane,
                forall|l: int|
                    0 <= l < lane ==> #[trigger] out@[l] == self.routed(
                        now,
                        l,
                        Elem::ValStop(waiting[l], stop_level),
                    ),
            decreases self.lanes - lane,
        {
            let value = pending.remove(0);
            out.push(
                Routed {
                    lane,
                    time: now,
                    data: Elem::ValStop(value, stop_level),
                },
            );
            lane = lane + 1;
            assert(pending@ =~= waiting.skip(lane as int));
        }
        out.push(
            Routed {
                lane,
                time: now,
                data: Elem::ValStop(final_value, stop_level),
            },
        );
        assert(out@ =~= Seq::new(
            self.lanes as nat,
            |l: int|
                self.routed(
                    now,
                    l,
                    Elem::ValStop(
                        if l < self.lanes - 1 {
                            waiting[l]
                        } else {
                            final_value
                        },
                        stop_level,
                    ),
                ),
        ));
        out
    }

    /// Deals out one element, which is taken in cycle `now`.
    pub fn step<A>(
        &self,
        now: u64,
        state: &mut ParallelizeState<A>,
        elem: Elem<A>,
    ) -> (res: Vec<Routed<A>>)
        requires
            self.wf(),
            self.state_ok(*old(state)),
            self.accepts(*old(state), elem),
        ensures
            self.state_ok(*final(state)),
            res@ == self.sent(now, *old(state), elem),
            final(state).pending@ == self.next_pending(*old(state), elem),
            final(state).count == self.next_count(*old(state), elem),
    {
        let level: StopType = match &elem {
            Elem::Val(_) => 0,
            Elem::ValStop(_, s) => *s,
        };
        let lane: usize = state.pending.len();
        let ends_group = level >= self.parallelize_rank;
        let ends_block = ends_group && state.count + 1 == self.output_dim;
        if level > self.parallelize_rank {
            let (value, _) = unpack(elem);
            state.count = 0;
            let out = self.flush_lane_group(now, &mut state.pending, value, level);
            assert(out@ =~= self.sent(now, *old(state), elem));
            assert(state.pending@ =~= self.next_pending(*old(state), elem));
            out
        } else if ends_block {
            let (value, _) = unpack(elem);
            state.pending.push(value);
            state.count = 0;
            Vec::new()
        } else {
            if ends_group {
                state.count = state.count + 1;
            }
            let mut out: Vec<Routed<A>> = Vec::new();
            out.push(Routed { lane, time: now, data: elem });
            assert(out@ =~= self.sent(now, *old(state), elem));
            out
        }
    }

    /// Deals out a whole stream: what each lane receives, whenever it does.
    pub fn run<A>(&self, input: Vec<Elem<A>>) -> (res: Vec<Vec<Elem<A>>>)
        requires
            self.wf(),
            self.accepts_upto(input@, input@.len()),
            self.state_at(input@, input@.len()).0.len() == 0,
            self.state_at(input@, input@.len()).1 == 0,
        ensures
            res@.len() == self.lanes,
            forall|l: int|
                0 <= l < self.lanes ==> (#[trigger] res@[l])@ == self.lane_at(
                    input@,
                    input@.len(),
                    l,
                ),
    {
        let ghost all = input@;
        let mut rest = reversed(input);
        let mut state = self.start();
        let mut lanes: Vec<Vec<Elem<A>>> = Vec::new();
        let mut l: usize = 0;
        while l < self.lanes
            invariant
                l <= self.lanes,
                lanes@.len() == l,
                forall|k: int| 0 <= k < l ==> (#[trigger] lanes@[k])@.len() == 0,
            decreases self.lanes - l,
        {
            lanes.push(Vec::new());
            l = l + 1;
        }
        let ghost mut n: nat = 0;
        assert forall|l: int| 0 <= l < self.lanes implies (#[trigger] lanes@[l])@ == self.lane_at(
            all,
            n,
            l,
        ) by {
            assert(lanes@[l]@ =~= self.lane_at(all, 0, l));
        }
        assert(state.pending@ =~= self.state_at(all, n).0);
        assert(rest@.len() == all.len() && forall|k: int|
            0 <= k < rest@.len() ==> #[trigger] rest@[k] == all[all.len() - 1 - k]);
        while rest.len() > 0
            invariant
                self.wf(),
                self.accepts_upto(all, all.len()),
                n + rest@.len() == all.len(),
                forall|k: int|
                    0 <= k < rest@.len() ==> #[trigger] rest@[k] == all[all.len() - 1 - k],
                self.state_ok(state),
                state.pending@ == self.state_at(all, n).0,
                state.count == self.state_at(all, n).1,
                lanes@.len() == self.lanes,
                forall|l: int|
                    0 <= l < self.lanes ==> (#[trigger] lanes@[l])@ == self.lane_at(all, n, l),
            decreases rest@.len(),
        {
            if let Some(elem) = rest.pop() {
                assert(elem == all[n as int]);
                let ghost before = state;
                let ghost filled = lanes@;
                let sent = self.step(0, &mut state, elem);
                deliver(&mut lanes, sent);
                proof {
                    n = n + 1;
                    assert forall|l: int| 0 <= l < self.lanes implies (#[trigger] lanes@[l])@
                        == self.lane_at(all, n, l) by {
                        self.lemma_sent_for_lane(before, elem, l);
                        assert(filled[l]@ == self.lane_at(all, (n - 1) as nat, l));
                        assert(lanes@[l]@ =~= self.lane_at(all, n, l));
                    }
                }
            }
        }
        lanes
    }

    /// What is sent for an element holds at most one element for a lane.
    proof fn lemma_sent_for_lane<A>(self, state: ParallelizeState<A>, e: Elem<A>, l: int)
        requires
            self.wf(),
            self.state_ok(state),
            0 <= l < self.lanes,
        ensures
            for_lane(self.sent(0, state, e), l) == (if self.ends_round(e) {
                seq![
                    Elem::ValStop(
                        if l < state.pending@.len() {
                            state.pending@[l]
                        } else {
                            e.value()
                        },
                        e.level() as StopType,
                    ),
                ]
            } else if !self.ends_block(state, e) && l == state.pending@.len() {
                seq![e]
            } else {
                Seq::empty()
            }),
    {
        let sent = self.sent(0, state, e);
        if self.ends_round(e) {
            lemma_one_per_lane(sent, sent.len() as int, l);
            assert(sent.take(sent.len() as int) =~= sent);
        } else if !self.ends_block(state, e) {
            assert(sent.drop_last().len() == 0);
            assert(for_lane(sent.drop_last(), l) =~= Seq::empty());
            assert(for_lane(sent, l) =~= if l == state.pending@.len() {
                seq![e]
            } else {
                Seq::empty()
            });
        }
    }

    /// Whether the stream may end here: only between rounds.
    pub fn may_end<A>(&self, state: &ParallelizeState<A>) -> (res: bool)
        ensures
            res == (state.pending@.len() == 0 && state.count == 0),
    {
        state.pending.len() == 0 && state.count == 0
    }

    /// The state after the first `n` elements.
    pub open spec fn state_at<A>(self, input: Seq<Elem<A>>, n: nat) -> (Seq<A>, int)
        decreases n,
    {
        if n == 0 {
            (Seq::empty(), 0)
        } else {
            let (pending, count) = self.state_at(input, (n - 1) as nat);
            let e = input[n - 1];
            let block = self.ends_group(e) && count + 1 == self.output_dim;
            (
                if self.ends_round(e) {
                    Seq::empty()
                } else if block {
                    pending.push(e.value())
                } else {
                    pending
                },
                if block {
                    0
                } else if self.ends_group(e) {
                    count + 1
                } else {
                    count
                },
            )
        }
    }

    /// What lane `l` has received after the first `n` elements.
    pub open spec fn lane_at<A>(self, input: Seq<Elem<A>>, n: nat, l: int) -> Seq<Elem<A>>
        decreases n,
    {
        if n == 0 {
            Seq::empty()
        } else {
            let before = self.lane_at(input, (n - 1) as nat, l);
            let (pending, count) = self.state_at(input, (n - 1) as nat);
            let e = input[n - 1];
            let lane = pending.len();
            if self.ends_round(e) {
                before.push(
                    Elem::ValStop(
                        if l < lane {
                            pending[l]
                        } else {
                            e.value()
                        },
                        e.level() as StopType,
                    ),
                )
            } else if self.ends_group(e) && count + 1 == self.output_dim {
                before
            } else if l == lane {
                before.push(e)
            } else {
                before
            }
        }
    }

    /// The first `n` elements are accepted one after the other.
    pub open spec fn accepts_upto<A>(self, input: Seq<Elem<A>>, n: nat) -> bool {
        forall|k: int|
            0 <= k < n ==> {
                let (pending, count) = self.state_at(input, k as nat);
                let e = #[trigger] input[k];
                &&& self.parallelize_rank == 0 ==> e.canonical()
                &&& self.ends_round(e) <==> self.ends_group(e) && count + 1 == self.output_dim
                    && pending.len() == self.lanes - 1
            }
    }

    /// A block of an earlier lane with the level at which it ended in the
    /// input.
    pub open spec fn restored<A>(self, block: Seq<Elem<A>>) -> Seq<Elem<A>> {
        block.drop_last().push(packed(block.last().value(), self.parallelize_rank))
    }

    /// What the first `l` lanes have received of the first `n` elements, block
    /// after block.
    pub open spec fn rejoined<A>(self, input: Seq<Elem<A>>, n: nat, l: int) -> Seq<Elem<A>>
        decreases l,
    {
        if l <= 0 {
            Seq::empty()
        } else {
            let block = self.lane_at(input, n, l - 1);
            self.rejoined(input, n, l - 1) + if l == self.lanes {
                block
            } else {
                self.restored(block)
            }
        }
    }

    /// What has been received of a round: the blocks of the first `l` lanes
    /// with their waiting values.
    pub open spec fn received<A>(
        self,
        input: Seq<Elem<A>>,
        n: nat,
        pending: Seq<A>,
        l: int,
    ) -> Seq<Elem<A>>
        decreases l,
    {
        if l <= 0 {
            Seq::empty()
        } else {
            self.received(input, n, pending, l - 1) + self.lane_at(input, n, l - 1).push(
                packed(pending[l - 1], self.parallelize_rank),
            )
        }
    }
}

/// In a list with one element per lane, in order, each lane finds its own.
proof fn lemma_one_per_lane<A>(sent: Seq<Routed<A>>, n: int, l: int)
    requires
        0 <= n <= sent.len(),
        0 <= l < sent.len(),
        forall|k: int| 0 <= k < sent.len() ==> (#[trigger] sent[k]).lane == k,
    ensures
        for_lane(sent.take(n), l) == (if l < n {
            seq![sent[l].data]
        } else {
            Seq::empty()
        }),
    decreases n,
{
    if n > 0 {
        lemma_one_per_lane(sent, n - 1, l);
        assert(sent.take(n).drop_last() =~= sent.take(n - 1));
        assert(for_lane(sent.take(n), l) =~= if l < n {
            seq![sent[l].data]
        } else {
            Seq::empty()
        });
    }
}

/// Hands routed elements to their lanes.
pub fn deliver<A>(lanes: &mut Vec<Vec<Elem<A>>>, sent: Vec<Routed<A>>)
    requires
        forall|k: int| 0 <= k < sent@.len() ==> (#[trigger] sent@[k]).lane < old(lanes)@.len(),
    ensures
        final(lanes)@.len() == old(lanes)@.len(),
        forall|l: int|
            0 <= l < old(lanes)@.len() ==> (#[trigger] final(lanes)@[l])@ == old(lanes)@[l]@
                + for_lane(sent@, l),
{
    let ghost all = sent@;
    let ghost start = lanes@;
    let mut rest = reversed(sent);
    let ghost mut n: int = 0;
    assert(rest@.len() == all.len() && forall|k: int|
        0 <= k < rest@.len() ==> #[trigger] rest@[k] == all[all.len() - 1 - k]);
    assert forall|l: int| 0 <= l < start.len() implies (#[trigger] lanes@[l])@ == start[l]@
        + for_lane(all.take(n), l) by {
        assert(lanes@[l]@ =~= start[l]@ + for_lane(all.take(n), l));
    }
    while rest.len() > 0
        invariant
            0 <= n,
            n + rest@.len() == all.len(),
            forall|k: int| 0 <= k < rest@.len() ==> #[trigger] rest@[k] == all[all.len() - 1 - k],
            forall|k: int| 0 <= k < all.len() ==> (#[trigger] all[k]).lane < start.len(),
            lanes@.len() == start.len(),
            forall|l: int|
                0 <= l < start.len() ==> (#[trigger] lanes@[l])@ == start[l]@ + for_lane(
                    all.take(n),
                    l,
                ),
        decreases rest@.len(),
    {
        if let Some(routed) = rest.pop() {
            assert(routed == all[n]);
            let ghost before = lanes@;
            lanes[routed.lane].push(routed.data);
            proof {
                assert(all.take(n + 1).drop_last() =~= all.take(n));
                n = n + 1;
                assert forall|l: int| 0 <= l < start.len() implies (#[trigger] lanes@[l])@
                    == start[l]@ + for_lane(all.take(n), l) by {
                    assert(before[l]@ == start[l]@ + for_lane(all.take(n - 1), l));
                    assert(lanes@[l]@ =~= start[l]@ + for_lane(all.take(n), l));
                }
            }
        }
    }
    assert(all.take(n) =~= all);
}

/// The lanes' blocks of a round, one after the other and with the levels at
/// which they ended, are the round: dealing out loses and reorders nothing.
/// Every lane ends the round with the same stop.
pub proof fn law_lanes_rejoin_to_round<A>(op: Parallelize, input: Seq<Elem<A>>)
    requires
        op.wf(),
        input.len() > 0,
        op.accepts_upto(input, input.len()),
        forall|k: int| 0 <= k < input.len() - 1 ==> !op.ends_round(#[trigger] input[k]),
        op.ends_round(input.last()),
        forall|k: int| 0 <= k < input.len() ==> (#[trigger] input[k]).canonical(),
    ensures
        op.rejoined(input, input.len(), op.lanes as int) == input,
        forall|l: int|
            0 <= l < op.lanes ==> (#[trigger] op.lane_at(input, input.len(), l)).last().level()
                == input.last().level(),
{
    let n = input.len();
    let m = (n - 1) as nat;
    lemma_round_prefix(op, input, m);
    let (pending, count) = op.state_at(input, m);
    let e = input.last();
    assert(op.ends_round(input[n - 1]));
    assert(pending.len() == op.lanes - 1);
    lemma_flush(op, input, pending, op.lanes - 1);
    assert(input.take(m as int).push(e) =~= input);
    assert(op.rejoined(input, n, op.lanes as int) =~= input);
}

/// Rounds are dealt out independently of each other: what follows the end of a
/// round reaches the lanes as if the stream began there.
pub proof fn law_rounds_are_independent<A>(
    op: Parallelize,
    input: Seq<Elem<A>>,
    n: nat,
    m: nat,
    l: int,
)
    requires
        op.wf(),
        0 < n,
        n + m <= input.len(),
        op.accepts_upto(input, n + m),
        op.ends_round(input[n - 1]),
    ensures
        op.accepts_upto(input.skip(n as int), m),
        op.state_at(input, n + m) == op.state_at(input.skip(n as int), m),
        op.lane_at(input, n + m, l) == op.lane_at(input, n, l) + op.lane_at(
            input.skip(n as int),
            m,
            l,
        ),
    decreases m,
{
    let rest = input.skip(n as int);
    if m == 0 {
        let (pending, count) = op.state_at(input, (n - 1) as nat);
        assert(op.ends_round(input[n - 1]) <==> op.ends_group(input[n - 1]) && count + 1
            == op.output_dim && pending.len() == op.lanes - 1);
        assert(op.lane_at(input, n, l) =~= op.lane_at(input, n, l) + op.lane_at(rest, 0, l));
    } else {
        let k = (m - 1) as nat;
        law_rounds_are_independent(op, input, n, k, l);
        assert(rest[k as int] == input[(n + k) as int]);
        assert((n + m - 1) as nat == n + k);
        assert(op.lane_at(input, n + m, l) =~= op.lane_at(input, n, l) + op.lane_at(rest, m, l));
        assert forall|i: int| 0 <= i < m implies ({
            let (pending, count) = op.state_at(rest, i as nat);
            let e = #[trigger] rest[i];
            &&& op.parallelize_rank == 0 ==> e.canonical()
            &&& op.ends_round(e) <==> op.ends_group(e) && count + 1 == op.output_dim
                && pending.len() == op.lanes - 1
        }) by {
            if i == k {
                assert(rest[i] == input[n + i]);
            }
        }
    }
}

/// Before the round ends, what has been received is what the lanes hold and
/// what waits.
proof fn lemma_round_prefix<A>(op: Parallelize, input: Seq<Elem<A>>, n: nat)
    requires
        op.wf(),
        n < input.len(),
        op.accepts_upto(input, input.len()),
        forall|k: int| 0 <= k < input.len() - 1 ==> !op.ends_round(#[trigger] input[k]),
        forall|k: int| 0 <= k < input.len() ==> (#[trigger] input[k]).canonical(),
    ensures
        ({
            let (pending, count) = op.state_at(input, n);
            let lane = pending.len() as int;
            &&& pending.len() < op.lanes
            &&& 0 <= count < op.output_dim
            &&& op.received(input, n, pending, lane) + op.lane_at(input, n, lane) == input.take(
                n as int,
            )
            &&& forall|l: int|
                lane < l < op.lanes ==> (#[trigger] op.lane_at(input, n, l)).len() == 0
        }),
    decreases n,
{
    let (pending, count) = op.state_at(input, n);
    let lane = pending.len() as int;
    if n == 0 {
        assert(op.received(input, n, pending, lane) + op.lane_at(input, n, lane) =~= input.take(0));
    } else {
        let m = (n - 1) as nat;
        lemma_round_prefix(op, input, m);
        let (pending0, count0) = op.state_at(input, m);
        let e = input[n - 1];
        let lane0 = pending0.len() as int;
        assert(!op.ends_round(input[m as int]));
        assert(input.take(n as int) =~= input.take(m as int).push(e));
        assert forall|l: int| 0 <= l < lane0 implies #[trigger] op.lane_at(input, n, l)
            == op.lane_at(input, m, l) by {}
        assert forall|l: int| lane < l < op.lanes implies (#[trigger] op.lane_at(input, n, l)).len()
            == 0 by {
            assert(op.lane_at(input, m, l).len() == 0);
        }
        if op.ends_group(e) && count0 + 1 == op.output_dim {
            assert(pending == pending0.push(e.value()));
            assert(pending0.len() != op.lanes - 1);
            lemma_received_same(op, input, n, pending0, pending, lane0);
            assert(op.lane_at(input, n, lane0) == op.lane_at(input, m, lane0));
            assert(packed(e.value(), op.parallelize_rank) == e);
            assert(op.lane_at(input, n, lane0 + 1) == op.lane_at(input, m, lane0 + 1));
            assert(op.received(input, n, pending, lane0 + 1) + op.lane_at(input, n, lane0 + 1)
                =~= input.take(n as int));
        } else {
            lemma_received_same(op, input, n, pending0, pending, lane0);
            assert(op.received(input, n, pending, lane0) + op.lane_at(input, n, lane0)
                =~= input.take(n as int));
        }
    }
}

/// What has been received of the lanes that are done does not change with the
/// next element.
proof fn lemma_received_same<A>(
    op: Parallelize,
    input: Seq<Elem<A>>,
    n: nat,
    pending1: Seq<A>,
    pending2: Seq<A>,
    l: int,
)
    requires
        n > 0,
        0 <= l <= pending1.len(),
        l <= pending2.len(),
        forall|k: int|
            0 <= k < l ==> #[trigger] op.lane_at(input, n, k) == op.lane_at(
                input,
                (n - 1) as nat,
                k,
            ),
        forall|k: int| 0 <= k < l ==> #[trigger] pending1[k] == pending2[k],
    ensures
        op.received(input, (n - 1) as nat, pending1, l) == op.received(input, n, pending2, l),
    decreases l,
{
    if l > 0 {
        lemma_received_same(op, input, n, pending1, pending2, l - 1);
        assert(op.lane_at(input, n, l - 1) == op.lane_at(input, (n - 1) as nat, l - 1));
        assert(pending1[l - 1] == pending2[l - 1]);
    }
}

/// Ending the round appends the waiting values; restoring their levels gives
/// what had been received.
proof fn lemma_flush<A>(op: Parallelize, input: Seq<Elem<A>>, pending: Seq<A>, l: int)
    requires
        input.len() > 0,
        0 <= l <= pending.len(),
        l < op.lanes,
        pending == op.state_at(input, (input.len() - 1) as nat).0,
        op.ends_round(input.last()),
    ensures
        op.rejoined(input, input.len(), l) == op.received(
            input,
            (input.len() - 1) as nat,
            pending,
            l,
        ),
    decreases l,
{
    if l > 0 {
        lemma_flush(op, input, pending, l - 1);
        let before = op.lane_at(input, (input.len() - 1) as nat, l - 1);
        let level = input.last().level() as StopType;
        assert(op.lane_at(input, input.len(), l - 1) == before.push(
            Elem::ValStop(pending[l - 1], level),
        ));
        assert(op.restored(op.lane_at(input, input.len(), l - 1)) =~= before.push(
            packed(pending[l - 1], op.parallelize_rank),
        ));
    }
}

/// What leaves for an element leaves in its own cycle. An element inside a
/// block, or one that ends a group but not the block, goes to the lane of the
/// block as it is; the end of a block waits; and the end of a round sends the
/// last value of every lane, each with the stop of the round.
pub proof fn law_round_leaves_together<A>(op: Parallelize, now: u64, elem: Elem<A>)
    requires
        op.wf(),
    ensures
        forall|state: &mut ParallelizeState<A>, res: Vec<Routed<A>>|
            op.state_ok(*state) && op.accepts(*state, elem) && #[trigger] call_ensures(
                Parallelize::step::<A>,
                (&op, now, state, elem),
                res,
            ) ==> {
                let lane = state.pending@.len();
                let rank = op.parallelize_rank;
                let block = elem.level() >= rank && state.count + 1 == op.output_dim;
                let after = *final(state);
                &&& forall|i: int| 0 <= i < res@.len() ==> (#[trigger] res@[i]).time == now
                &&& elem.level() > rank ==> {
                    &&& res@.len() == op.lanes
                    &&& forall|l: int|
                        0 <= l < op.lanes ==> (#[trigger] res@[l]).lane == l && res@[l].data
                            is ValStop && res@[l].data.level() == elem.level()
                            && res@[l].data.value() == (if l < lane {
                            state.pending@[l]
                        } else {
                            elem.value()
                        })
                    &&& after.pending@.len() == 0
                    &&& after.count == 0
                }
                &&& block && elem.level() <= rank ==> res@.len() == 0 && after.pending@
                    == state.pending@.push(elem.value()) && after.count == 0
                &&& !block ==> {
                    &&& res@.len() == 1
                    &&& res@[0].lane == lane
                    &&& res@[0].data == elem
                    &&& after.pending@ == state.pending@
                    &&& after.count == state.count + (if elem.level() >= rank {
                        1int
                    } else {
                        0
                    })
                }
            },
{
}

} // verus!
