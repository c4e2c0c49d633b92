//! Merging streams in the order in which their groups arrive.

use vstd::prelude::*;

use crate::operator::partition::{FlatPartition, Selection};
use crate::primitives::elem::{
    elem_cloned, lemma_stream_cloned_concat, packed, stream_cloned, Bufferizable, Elem, StopType,
};
use crate::primitives::select::{as_ints, flags_of, sel_vec, selected, SelectAdapter};

verus! {

/// Sends a group of rank `input_rank` from the input on which one arrives
/// first, and the number of that input on a select stream. Nothing is delayed:
/// an element leaves in the cycle in which it is taken.
#[derive(Debug)]
pub struct EagerMerge {
    pub inputs: usize,
    pub input_rank: StopType,
    pub id: u32,
}

/// What is seen at the head of an input: an element that arrives at some time,
/// nothing yet, or the end of the stream.
#[derive(Debug, Clone, Copy, PartialEq, Eq)]
pub enum Peek {
    Something(u64),
    Nothing,
    Closed,
}

/// What has been seen of the inputs since the last group.
#[derive(Debug)]
pub struct MergePoll {
    pub seen: Vec<Peek>,
    pub earliest: Option<(usize, u64)>,
}

/// What to do after the inputs have been looked at.
#[derive(Debug, Clone, Copy, PartialEq, Eq)]
pub enum MergeDecision {
    /// Take the next group from this input.
    Take(usize),
    /// Let a cycle pass and look again at the inputs that showed nothing.
    Wait,
    /// All inputs have ended.
    Finished,
}

/// An element of a group, and the cycle in which it is sent. `done` ends the
/// group.
#[derive(Debug, PartialEq, Eq)]
pub struct MergeStep<A> {
    pub time: u64,
    pub data: Elem<A>,
    pub done: bool,
}

impl MergePoll {
    /// The earliest element seen: no other arrives before it.
    pub open spec fn wf(&self) -> bool {
        match self.earliest {
            Some((i, time)) => {
                &&& i < self.seen@.len()
                &&& self.seen@[i as int] == Peek::Something(time)
                &&& forall|k: int|
                    0 <= k < self.seen@.len() ==> ((#[trigger] self.seen@[k]) matches Peek::Something(
                        t,
                    ) ==> time <= t)
            },
            None => forall|k: int|
                0 <= k < self.seen@.len() ==> !((#[trigger] self.seen@[k]) is Something),
        }
    }

    /// Some input has shown nothing yet.
    pub open spec fn incomplete(&self) -> bool {
        exists|k: int| 0 <= k < self.seen@.len() && (#[trigger] self.seen@[k]) is Nothing
    }

    /// Records what is seen at an input that has shown nothing so far.
    pub fn observe(&mut self, input: usize, peek: Peek)
        requires
            old(self).wf(),
            input < old(self).seen@.len(),
            old(self).seen@[input as int] is Nothing,
        ensures
            final(self).wf(),
            final(self).seen@ == old(self).seen@.update(input as int, peek),
            final(self).earliest == (match (peek, old(self).earliest) {
                (Peek::Something(t), None) => Some((input, t)),
                (Peek::Something(t), Some((i, time))) => if t < time {
                    Some((input, t))
                } else {
                    Some((i, time))
                },
                (_, earliest) => earliest,
            }),
    {
        let ghost before = self.seen@;
        self.seen[input] = peek;
        if let Peek::Something(time) = peek {
            let sooner = match self.earliest {
                None => true,
                Some((_, earliest)) => time < earliest,
            };
            if sooner {
                self.earliest = Some((input, time));
            }
        }
        proof {
            assert forall|k: int| 0 <= k < self.seen@.len() implies ((#[trigger] self.seen@[k])
                == if k == input {
                peek
            } else {
                before[k]
            }) by {}
        }
    }

    fn is_incomplete(&self) -> (res: bool)
        ensures
            res == self.incomplete(),
    {
        let mut k: usize = 0;
        while k < self.seen.len()
            invariant
                k <= self.seen@.len(),
                forall|j: int| 0 <= j < k ==> !((#[trigger] self.seen@[j]) is Nothing),
            decreases self.seen@.len() - k,
        {
            if let Peek::Nothing = self.seen[k] {
                assert(self.seen@[k as int] is Nothing);
                return true;
            }
            k = k + 1;
        }
        false
    }

    /// What to do in cycle `now`. An element that has arrived by now is the
    /// earliest, since an input that shows nothing has nothing until now; an
    /// element of the future is the earliest once all inputs have been seen.
    pub fn decide(&self, now: u64) -> (res: MergeDecision)
        requires
            self.wf(),
        ensures
            res == (match self.earliest {
                Some((i, time)) => if self.incomplete() && now < time {
                    MergeDecision::Wait
                } else {
                    MergeDecision::Take(i)
                },
                None => if self.incomplete() {
                    MergeDecision::Wait
                } else {
                    MergeDecision::Finished
                },
            }),
    {
        match self.earliest {
            Some((i, time)) => if self.is_incomplete() && now < time {
                MergeDecision::Wait
            } else {
                MergeDecision::Take(i)
            },
            None => if self.is_incomplete() {
                MergeDecision::Wait
            } else {
                MergeDecision::Finished
            },
        }
    }
}

/// The input that is taken shows an element, and no input shows an earlier
/// one; inputs that show nothing cannot hold an earlier one either, as the
/// element has arrived.
pub proof fn law_earliest_is_taken(poll: MergePoll, now: u64, input: usize, time: u64)
    requires
        poll.wf(),
        poll.earliest == Some((input, time)),
        !(poll.incomplete() && now < time),
    ensures
        poll.seen@[input as int] == Peek::Something(time),
        forall|k: int|
            0 <= k < poll.seen@.len() ==> match #[trigger] poll.seen@[k] {
                Peek::Something(t) => time <= t,
                Peek::Nothing => time <= now,
                Peek::Closed => true,
            },
{
}

impl EagerMerge {
    pub fn new(inputs: usize, input_rank: StopType, id: u32) -> (res: Self)
        ensures
            res == (EagerMerge { inputs, input_rank, id }),
    {
        EagerMerge { inputs, input_rank, id }
    }

    /// Nothing has been seen of the inputs.
    pub fn poll(&self) -> (res: MergePoll)
        ensures
            res.wf(),
            res.seen@.len() == self.inputs,
            res.earliest is None,
            forall|k: int| 0 <= k < res.seen@.len() ==> (#[trigger] res.seen@[k]) is Nothing,
    {
        let mut seen: Vec<Peek> = Vec::new();
        let mut k: usize = 0;
        while k < self.inputs
            invariant
                k <= self.inputs,
                seen@.len() == k,
                forall|k: int| 0 <= k < seen@.len() ==> (#[trigger] seen@[k]) is Nothing,
            decreases self.inputs - k,
        {
            seen.push(Peek::Nothing);
            k = k + 1;
        }
        MergePoll { seen, earliest: None }
    }

    /// The select element for a group from an input: that input alone.
    pub fn select<S: SelectAdapter>(&self, input: usize) -> (res: Elem<S>)
        requires
            input < self.inputs,
        ensures
            self.is_select(res, input as int),
    {
        let mut positions: Vec<usize> = Vec::new();
        positions.push(input);
        let sel = S::from_sel_vec(positions, self.inputs, false);
        proof {
            let ints = as_ints(positions@);
            assert(ints[0] == input);
            assert(flags_of(ints, self.inputs as nat) =~= one_hot(
                self.inputs as nat,
                input as int,
            ));
        }
        Elem::Val(sel)
    }

    /// The element ends its group.
    pub open spec fn ends<A>(self, e: Elem<A>) -> bool {
        match e {
            Elem::Val(_) => self.input_rank == 0,
            Elem::ValStop(_, s) => s == self.input_rank,
        }
    }

    /// Sends on one element of a group in the cycle `now` in which it is
    /// taken. The next element of the group is taken a cycle later.
    pub fn step<A: Clone>(&self, now: &mut u64, elem: &Elem<A>) -> (res: MergeStep<A>)
        requires
            elem is ValStop ==> elem.level() <= self.input_rank,
            *old(now) < u64::MAX,
        ensures
            res.time == *old(now),
            elem_cloned(*elem, res.data),
            res.done == self.ends(*elem),
            *final(now) == *old(now) + (if self.ends(*elem) {
                0int
            } else {
                1
            }),
    {
        let ends = match elem {
            Elem::Val(_) => self.input_rank == 0,
            Elem::ValStop(_, s) => *s == self.input_rank,
        };
        let time: u64 = *now;
        if !ends {
            *now = *now + 1;
        }
        MergeStep { time, data: elem.clone(), done: ends }
    }
}

/// Partitioning a merged stream by the select stream of the merge sends every
/// group back where it came from: the select element names the input of the
/// group alone, the group ends where it ended, and its elements keep their
/// values and stops.
pub proof fn law_partition_undoes_merge<A: Bufferizable>(
    merge: EagerMerge,
    partition: FlatPartition,
    input: int,
    flags: Seq<bool>,
    selection: Selection,
    e: Elem<A>,
)
    requires
        partition.outputs == merge.inputs,
        partition.partition_rank == merge.input_rank,
        0 <= input < merge.inputs,
        flags == one_hot(merge.inputs as nat, input),
        as_ints(selection.experts@) == sel_vec(flags),
        selection.expected_stop is None,
        e.canonical(),
        e is ValStop ==> e.level() <= merge.input_rank,
    ensures
        as_ints(selection.experts@) == seq![input],
        partition.selection_ok(selection),
        partition.accepts(selection, e),
        partition.ends(selection, e) == merge.ends(e),
        partition.sent(selection, e) == packed(
            e.value().placed(partition.config.write_back_mu),
            e.level() as StopType,
        ),
{
    lemma_one_selected(flags, input, flags.len());
    let ints = as_ints(selection.experts@);
    assert forall|k: int| 0 <= k < selection.experts@.len() implies #[trigger] selection.experts@[k]
        < partition.outputs by {
        assert(ints.len() == 1 && ints[0] == input);
        assert(ints[k] == selection.experts@[k]);
    }
}

/// Of flags of which one is set, that one is selected.
proof fn lemma_one_selected(flags: Seq<bool>, input: int, n: nat)
    requires
        n <= flags.len(),
        0 <= input < flags.len(),
        forall|i: int| 0 <= i < flags.len() ==> (#[trigger] flags[i] <==> i == input),
    ensures
        selected(flags, n) == (if input < n {
            seq![input]
        } else {
            Seq::empty()
        }),
    decreases n,
{
    if n > 0 {
        lemma_one_selected(flags, input, (n - 1) as nat);
        assert(flags[n - 1] <==> n - 1 == input);
        assert(selected(flags, n) =~= if input < n {
            seq![input]
        } else {
            Seq::empty()
        });
    }
}

/// The contents of a list of lists.
pub open spec fn contents<X>(lists: Seq<Vec<X>>) -> Seq<Seq<X>> {
    Seq::new(lists.len(), |i: int| lists[i]@)
}

/// The flags that select one of `n` inputs.
pub open spec fn one_hot(n: nat, input: int) -> Seq<bool> {
    Seq::new(n, |i: int| i == input)
}

/// What is sent, without the cycles in which it is sent.
pub open spec fn data_of<X>(sent: Seq<(u64, X)>) -> Seq<X> {
    Seq::new(sent.len(), |k: int| sent[k].1)
}

/// The cycle in which element `k` of a group is taken and sent, where the
/// group begins at `start` of its input and is chosen in cycle `now`: as soon
/// as it has arrived, but not before the cycle after the element before it.
pub open spec fn cycle_of(arrivals: Seq<u64>, start: int, now: int, k: nat) -> int
    decreases k,
{
    let ready = if k == 0 {
        now
    } else {
        cycle_of(arrivals, start, now, (k - 1) as nat) + 1
    };
    if ready < arrivals[start + k] {
        arrivals[start + k] as int
    } else {
        ready
    }
}

impl EagerMerge {
    /// Where the group ends of which the element at `start` is a part: behind
    /// the element that ends it.
    pub open spec fn group_end<A>(self, stream: Seq<Elem<A>>, start: int) -> int
        decreases stream.len() - start,
    {
        if start >= stream.len() {
            stream.len() as int
        } else if self.ends(stream[start]) {
            start + 1
        } else {
            self.group_end(stream, start + 1)
        }
    }

    /// The stream consists of whole groups.
    pub open spec fn is_stream<A>(self, stream: Seq<Elem<A>>) -> bool {
        &&& forall|k: int|
            0 <= k < stream.len() && (#[trigger] stream[k]) is ValStop ==> stream[k].level()
                <= self.input_rank
        &&& stream.len() > 0 ==> self.ends(stream.last())
    }

    /// How much of each input has been taken after `n` groups, where `order`
    /// lists the inputs of the groups.
    pub open spec fn heads<A>(
        self,
        streams: Seq<Seq<Elem<A>>>,
        order: Seq<int>,
        n: nat,
    ) -> Seq<int>
        decreases n,
    {
        if n == 0 {
            Seq::new(streams.len(), |i: int| 0int)
        } else {
            let before = self.heads(streams, order, (n - 1) as nat);
            let i = order[n - 1];
            before.update(i, self.group_end(streams[i], before[i]))
        }
    }

    /// The `n`-th group that is taken.
    pub open spec fn group<A>(
        self,
        streams: Seq<Seq<Elem<A>>>,
        order: Seq<int>,
        n: nat,
    ) -> Seq<Elem<A>> {
        let start = self.heads(streams, order, n)[order[n as int]];
        streams[order[n as int]].subrange(
            start,
            self.group_end(streams[order[n as int]], start),
        )
    }

    /// The first `n` groups, one after the other.
    pub open spec fn merged<A>(
        self,
        streams: Seq<Seq<Elem<A>>>,
        order: Seq<int>,
        n: nat,
    ) -> Seq<Elem<A>>
        decreases n,
    {
        if n == 0 {
            Seq::empty()
        } else {
            self.merged(streams, order, (n - 1) as nat) + self.group(streams, order, (n - 1) as nat)
        }
    }

    /// The cycle after `n` groups of a merge that begins in cycle `now`, in
    /// which the next group is chosen: that of the last element sent.
    pub open spec fn clock<A>(
        self,
        now: int,
        streams: Seq<Seq<Elem<A>>>,
        arrivals: Seq<Seq<u64>>,
        order: Seq<int>,
        n: nat,
    ) -> int
        decreases n,
    {
        if n == 0 {
            now
        } else {
            let m = (n - 1) as nat;
            let i = order[m as int];
            let start = self.heads(streams, order, m)[i];
            let len = self.group_end(streams[i], start) - start;
            cycle_of(
                arrivals[i],
                start,
                self.clock(now, streams, arrivals, order, m),
                (len - 1) as nat,
            )
        }
    }

    /// The cycles in which the elements of the `n`-th group are taken and
    /// sent.
    pub open spec fn group_cycles<A>(
        self,
        now: int,
        streams: Seq<Seq<Elem<A>>>,
        arrivals: Seq<Seq<u64>>,
        order: Seq<int>,
        n: nat,
    ) -> Seq<int> {
        let i = order[n as int];
        let start = self.heads(streams, order, n)[i];
        let chosen = self.clock(now, streams, arrivals, order, n);
        Seq::new(
            (self.group_end(streams[i], start) - start) as nat,
            |k: int| cycle_of(arrivals[i], start, chosen, k as nat),
        )
    }

    /// The cycles in which the elements of the first `n` groups are taken and
    /// sent.
    pub open spec fn cycles<A>(
        self,
        now: int,
        streams: Seq<Seq<Elem<A>>>,
        arrivals: Seq<Seq<u64>>,
        order: Seq<int>,
        n: nat,
    ) -> Seq<int>
        decreases n,
    {
        if n == 0 {
            Seq::empty()
        } else {
            self.cycles(now, streams, arrivals, order, (n - 1) as nat) + self.group_cycles(
                now,
                streams,
                arrivals,
                order,
                (n - 1) as nat,
            )
        }
    }

    /// Where group `n` of a stream begins.
    pub open spec fn group_start<A>(self, stream: Seq<Elem<A>>, n: nat) -> int
        decreases n,
    {
        if n == 0 {
            0
        } else {
            self.group_end(stream, self.group_start(stream, (n - 1) as nat))
        }
    }

    /// Those of the first `n` groups of a merged stream for which the select
    /// stream names input `l`, one after the other.
    pub open spec fn routed<A, S: SelectAdapter>(
        self,
        out: Seq<Elem<A>>,
        selects: Seq<Elem<S>>,
        n: nat,
        l: int,
    ) -> Seq<Elem<A>>
        decreases n,
    {
        if n == 0 {
            Seq::empty()
        } else {
            let m = (n - 1) as nat;
            let before = self.routed(out, selects, m, l);
            if selects[m as int].value().flags()[l] {
                before + out.subrange(self.group_start(out, m), self.group_start(out, n))
            } else {
                before
            }
        }
    }

    /// The two streams of a merge hold its inputs: the merged stream is cut
    /// into groups, one for each select element, and those of an input, in
    /// order, are that input from its beginning to its end.
    pub open spec fn routes_back<A: Clone, S: SelectAdapter>(
        self,
        streams: Seq<Seq<Elem<A>>>,
        out: Seq<Elem<A>>,
        selects: Seq<Elem<S>>,
    ) -> bool {
        &&& self.group_start(out, selects.len()) == out.len()
        &&& forall|l: int|
            0 <= l < streams.len() ==> stream_cloned(
                #[trigger] streams[l],
                self.routed(out, selects, selects.len(), l),
            )
    }

    /// Every group comes from an input that has one left.
    pub open spec fn in_turn<A>(self, streams: Seq<Seq<Elem<A>>>, order: Seq<int>) -> bool {
        forall|n: int|
            0 <= n < order.len() ==> 0 <= #[trigger] order[n] < streams.len() && self.heads(
                streams,
                order,
                n as nat,
            )[order[n]] < streams[order[n]].len()
    }

    /// Every input has been taken to its end.
    pub open spec fn finished<A>(self, streams: Seq<Seq<Elem<A>>>, order: Seq<int>) -> bool {
        forall|i: int|
            0 <= i < streams.len() ==> self.heads(streams, order, order.len())[i]
                == (#[trigger] streams[i]).len()
    }

    /// Input `i` is the one from which the next group is taken: its next
    /// element arrives first, and it is the first such input.
    pub open spec fn is_earliest<A>(
        self,
        streams: Seq<Seq<Elem<A>>>,
        arrivals: Seq<Seq<u64>>,
        heads: Seq<int>,
        i: int,
    ) -> bool {
        forall|k: int|
            0 <= k < streams.len() && heads[k] < (#[trigger] streams[k]).len() ==> if k < i {
                arrivals[i][heads[i]] < arrivals[k][heads[k]]
            } else {
                arrivals[i][heads[i]] <= arrivals[k][heads[k]]
            }
    }

    /// The element of the select stream for a group from an input.
    pub open spec fn is_select<S: SelectAdapter>(self, sel: Elem<S>, input: int) -> bool {
        &&& sel is Val
        &&& sel.value().flags() == one_hot(self.inputs as nat, input)
        &&& !sel.value().from_mu()
    }

    /// The groups of `order` are a whole merge that begins in cycle `now`: each
    /// is the earliest one left, none is left in the end, and both streams
    /// leave in this order. A select element leaves in the cycle in which its
    /// group is chosen, an element in that in which it is taken.
    pub open spec fn is_run<A: Clone, S: SelectAdapter>(
        self,
        now: int,
        streams: Seq<Seq<Elem<A>>>,
        arrivals: Seq<Seq<u64>>,
        order: Seq<int>,
        out: Seq<(u64, Elem<A>)>,
        selects: Seq<(u64, Elem<S>)>,
    ) -> bool {
        &&& self.in_turn(streams, order)
        &&& self.finished(streams, order)
        &&& forall|n: int|
            0 <= n < order.len() ==> self.is_earliest(
                streams,
                arrivals,
                self.heads(streams, order, n as nat),
                #[trigger] order[n],
            )
        &&& stream_cloned(self.merged(streams, order, order.len()), data_of(out))
        &&& out.len() == self.cycles(now, streams, arrivals, order, order.len()).len()
        &&& forall|k: int|
            0 <= k < out.len() ==> (#[trigger] out[k]).0 == self.cycles(
                now,
                streams,
                arrivals,
                order,
                order.len(),
            )[k]
        &&& selects.len() == order.len()
        &&& forall|n: int|
            0 <= n < order.len() ==> (#[trigger] selects[n]).0 == self.clock(
                now,
                streams,
                arrivals,
                order,
                n as nat,
            ) && self.is_select(selects[n].1, order[n])
    }
}

/// The end of a group lies behind its start, and only its last element ends
/// it.
proof fn lemma_group<A>(merge: EagerMerge, stream: Seq<Elem<A>>, start: int)
    requires
        merge.is_stream(stream),
        0 <= start < stream.len(),
    ensures
        start < merge.group_end(stream, start) <= stream.len(),
        forall|k: int|
            start <= k < merge.group_end(stream, start) ==> (merge.ends(#[trigger] stream[k]) <==> k
                == merge.group_end(stream, start) - 1),
    decreases stream.len() - start,
{
    if !merge.ends(stream[start]) {
        assert(start + 1 < stream.len()) by {
            if start + 1 == stream.len() {
                assert(stream[start] == stream.last());
            }
        }
        lemma_group(merge, stream, start + 1);
    }
}

/// What has been taken of the inputs is in range.
pub open spec fn heads_ok<A>(streams: Seq<Seq<Elem<A>>>, heads: Seq<int>) -> bool {
    &&& heads.len() == streams.len()
    &&& forall|i: int|
        0 <= i < streams.len() ==> 0 <= #[trigger] heads[i] <= streams[i].len()
}

/// What has been taken stays in range.
proof fn lemma_advance<A>(merge: EagerMerge, streams: Seq<Seq<Elem<A>>>, heads: Seq<int>, i: int)
    requires
        heads_ok(streams, heads),
        0 <= i < streams.len(),
        merge.is_stream(streams[i]),
        heads[i] < streams[i].len(),
    ensures
        heads_ok(streams, heads.update(i, merge.group_end(streams[i], heads[i]))),
        heads[i] < merge.group_end(streams[i], heads[i]),
{
    lemma_group(merge, streams[i], heads[i]);
}

proof fn lemma_heads<A>(merge: EagerMerge, streams: Seq<Seq<Elem<A>>>, order: Seq<int>, n: nat)
    requires
        n <= order.len(),
        merge.in_turn(streams, order),
        forall|i: int| 0 <= i < streams.len() ==> merge.is_stream(#[trigger] streams[i]),
    ensures
        heads_ok(streams, merge.heads(streams, order, n)),
    decreases n,
{
    if n > 0 {
        let m = (n - 1) as nat;
        lemma_heads(merge, streams, order, m);
        let i = order[m as int];
        assert(0 <= i < streams.len());
        lemma_advance(merge, streams, merge.heads(streams, order, m), i);
    }
}

/// What has been taken depends only on the groups taken so far.
proof fn lemma_order_prefix<A>(
    merge: EagerMerge,
    streams: Seq<Seq<Elem<A>>>,
    order: Seq<int>,
    next: int,
    n: nat,
)
    requires
        n <= order.len(),
    ensures
        merge.heads(streams, order.push(next), n) == merge.heads(streams, order, n),
        merge.merged(streams, order.push(next), n) == merge.merged(streams, order, n),
    decreases n,
{
    if n > 0 {
        let m = (n - 1) as nat;
        lemma_order_prefix(merge, streams, order, next, m);
        assert(order.push(next)[m as int] == order[m as int]);
    }
}

/// The cycles depend only on the groups taken so far.
proof fn lemma_clock_prefix<A>(
    merge: EagerMerge,
    now: int,
    streams: Seq<Seq<Elem<A>>>,
    arrivals: Seq<Seq<u64>>,
    order: Seq<int>,
    next: int,
    n: nat,
)
    requires
        n <= order.len(),
    ensures
        merge.clock(now, streams, arrivals, order.push(next), n) == merge.clock(
            now,
            streams,
            arrivals,
            order,
            n,
        ),
        merge.cycles(now, streams, arrivals, order.push(next), n) == merge.cycles(
            now,
            streams,
            arrivals,
            order,
            n,
        ),
    decreases n,
{
    if n > 0 {
        let m = (n - 1) as nat;
        lemma_clock_prefix(merge, now, streams, arrivals, order, next, m);
        lemma_order_prefix(merge, streams, order, next, m);
        assert(order.push(next)[m as int] == order[m as int]);
        assert(merge.group_cycles(now, streams, arrivals, order.push(next), m)
            =~= merge.group_cycles(now, streams, arrivals, order, m));
    }
}

/// What one more group adds.
proof fn lemma_taken_next<A>(
    merge: EagerMerge,
    streams: Seq<Seq<Elem<A>>>,
    arrivals: Seq<Seq<u64>>,
    order: Seq<int>,
    i: int,
)
    requires
        merge.in_turn(streams, order),
        0 <= i < streams.len(),
        merge.heads(streams, order, order.len())[i] < streams[i].len(),
        merge.is_earliest(streams, arrivals, merge.heads(streams, order, order.len()), i),
        forall|n: int|
            0 <= n < order.len() ==> merge.is_earliest(
                streams,
                arrivals,
                merge.heads(streams, order, n as nat),
                #[trigger] order[n],
            ),
    ensures
        ({
            let longer = order.push(i);
            let before = merge.heads(streams, order, order.len());
            &&& merge.in_turn(streams, longer)
            &&& merge.heads(streams, longer, longer.len()) == before.update(
                i,
                merge.group_end(streams[i], before[i]),
            )
            &&& merge.group(streams, longer, order.len()) == streams[i].subrange(
                before[i],
                merge.group_end(streams[i], before[i]),
            )
            &&& merge.merged(streams, longer, longer.len()) == merge.merged(
                streams,
                order,
                order.len(),
            ) + merge.group(streams, longer, order.len())
            &&& forall|n: int|
                0 <= n < longer.len() ==> merge.is_earliest(
                    streams,
                    arrivals,
                    merge.heads(streams, longer, n as nat),
                    #[trigger] longer[n],
                )
        }),
{
    let longer = order.push(i);
    let last = order.len();
    lemma_order_prefix(merge, streams, order, i, last);
    assert(longer[last as int] == i);
    assert forall|n: int| 0 <= n < longer.len() implies 0 <= #[trigger] longer[n] < streams.len()
        && merge.heads(streams, longer, n as nat)[longer[n]] < streams[longer[n]].len() by {
        lemma_order_prefix(merge, streams, order, i, n as nat);
        if n < order.len() {
            assert(longer[n] == order[n]);
        }
    }
    assert forall|n: int| 0 <= n < longer.len() implies merge.is_earliest(
        streams,
        arrivals,
        merge.heads(streams, longer, n as nat),
        #[trigger] longer[n],
    ) by {
        lemma_order_prefix(merge, streams, order, i, n as nat);
        if n < order.len() {
            assert(longer[n] == order[n]);
        }
    }
}

/// The groups of `order` are the beginning of a merge: each is the earliest
/// one left, and both streams leave in this order and in its cycles.
#[verifier::opaque]
spec fn has_run<A: Clone, S: SelectAdapter>(
    merge: EagerMerge,
    now: int,
    streams: Seq<Seq<Elem<A>>>,
    arrivals: Seq<Seq<u64>>,
    order: Seq<int>,
    out: Seq<(u64, Elem<A>)>,
    selects: Seq<(u64, Elem<S>)>,
) -> bool {
    &&& merge.in_turn(streams, order)
    &&& forall|n: int|
        0 <= n < order.len() ==> merge.is_earliest(
            streams,
            arrivals,
            merge.heads(streams, order, n as nat),
            #[trigger] order[n],
        )
    &&& stream_cloned(merge.merged(streams, order, order.len()), data_of(out))
    &&& out.len() == merge.cycles(now, streams, arrivals, order, order.len()).len()
    &&& forall|k: int|
        0 <= k < out.len() ==> (#[trigger] out[k]).0 == merge.cycles(
            now,
            streams,
            arrivals,
            order,
            order.len(),
        )[k]
    &&& selects.len() == order.len()
    &&& forall|n: int|
        0 <= n < order.len() ==> (#[trigger] selects[n]).0 == merge.clock(
            now,
            streams,
            arrivals,
            order,
            n as nat,
        ) && merge.is_select(selects[n].1, order[n])
}

/// A merge goes on with a group of the earliest input.
proof fn lemma_run_next<A: Clone, S: SelectAdapter>(
    merge: EagerMerge,
    now: int,
    streams: Seq<Seq<Elem<A>>>,
    arrivals: Seq<Seq<u64>>,
    order: Seq<int>,
    out: Seq<(u64, Elem<A>)>,
    selects: Seq<(u64, Elem<S>)>,
    i: int,
    sent: Seq<(u64, Elem<A>)>,
    sel: (u64, Elem<S>),
)
    requires
        has_run(merge, now, streams, arrivals, order, out, selects),
        0 <= i < streams.len(),
        merge.heads(streams, order, order.len())[i] < streams[i].len(),
        merge.is_earliest(streams, arrivals, merge.heads(streams, order, order.len()), i),
        sel.0 == merge.clock(now, streams, arrivals, order, order.len()),
        merge.is_select(sel.1, i),
        ({
            let start = merge.heads(streams, order, order.len())[i];
            &&& stream_cloned(
                streams[i].subrange(start, merge.group_end(streams[i], start)),
                data_of(sent),
            )
            &&& sent.len() == merge.group_end(streams[i], start) - start
            &&& forall|k: int|
                0 <= k < sent.len() ==> (#[trigger] sent[k]).0 == cycle_of(
                    arrivals[i],
                    start,
                    sel.0 as int,
                    k as nat,
                )
        }),
    ensures
        has_run(merge, now, streams, arrivals, order.push(i), out + sent, selects.push(sel)),
        ({
            let before = merge.heads(streams, order, order.len());
            let len = merge.group_end(streams[i], before[i]) - before[i];
            &&& merge.heads(streams, order.push(i), order.push(i).len()) == before.update(
                i,
                merge.group_end(streams[i], before[i]),
            )
            &&& merge.clock(now, streams, arrivals, order.push(i), order.push(i).len())
                == cycle_of(arrivals[i], before[i], sel.0 as int, (len - 1) as nat)
        }),
{
    reveal(has_run);
    lemma_taken_next(merge, streams, arrivals, order, i);
    let longer = order.push(i);
    let last = order.len();
    lemma_stream_cloned_concat(
        merge.merged(streams, order, last),
        data_of(out),
        merge.group(streams, longer, last),
        data_of(sent),
    );
    assert(data_of(out + sent) =~= data_of(out) + data_of(sent));
    lemma_order_prefix(merge, streams, order, i, last);
    lemma_clock_prefix(merge, now, streams, arrivals, order, i, last);
    assert(longer[last as int] == i);
    let old_cycles = merge.cycles(now, streams, arrivals, order, last);
    let new_cycles = merge.group_cycles(now, streams, arrivals, longer, last);
    assert(merge.cycles(now, streams, arrivals, longer, longer.len()) == old_cycles + new_cycles);
    let all = out + sent;
    assert forall|k: int| 0 <= k < all.len() implies (#[trigger] all[k]).0 == (old_cycles
        + new_cycles)[k] by {
        if k < out.len() {
            assert(all[k] == out[k]);
        } else {
            assert(all[k] == sent[k - out.len()]);
        }
    }
    let more = selects.push(sel);
    assert forall|n: int| 0 <= n < longer.len() implies (#[trigger] more[n]).0 == merge.clock(
        now,
        streams,
        arrivals,
        longer,
        n as nat,
    ) && merge.is_select(more[n].1, longer[n]) by {
        lemma_clock_prefix(merge, now, streams, arrivals, order, i, n as nat);
        if n < last {
            assert(more[n] == selects[n]);
            assert(longer[n] == order[n]);
        }
    }
}

/// Elements of the first `k` inputs that have not been taken.
pub open spec fn left<A>(streams: Seq<Seq<Elem<A>>>, heads: Seq<int>, k: nat) -> int
    decreases k,
{
    if k == 0 {
        0
    } else {
        left(streams, heads, (k - 1) as nat) + (streams[k - 1].len() - heads[k - 1])
    }
}

/// How many elements the inputs hold together.
pub open spec fn total<A>(streams: Seq<Seq<Elem<A>>>) -> int {
    left(streams, Seq::new(streams.len(), |i: int| 0int), streams.len())
}

/// Taking from an input leaves less.
proof fn lemma_less_left<A>(
    streams: Seq<Seq<Elem<A>>>,
    heads: Seq<int>,
    i: int,
    head: int,
    k: nat,
)
    requires
        heads_ok(streams, heads),
        0 <= i < streams.len(),
        heads[i] <= head <= streams[i].len(),
        k <= streams.len(),
    ensures
        left(streams, heads.update(i, head), k) == left(streams, heads, k) - (if i < k {
            head - heads[i]
        } else {
            0
        }),
        left(streams, heads, k) >= 0,
    decreases k,
{
    if k > 0 {
        lemma_less_left(streams, heads, i, head, (k - 1) as nat);
        assert(0 <= heads[k - 1] <= streams[k - 1].len());
    }
}

impl EagerMerge {
    /// What is seen of the inputs when all their elements are known.
    fn look<A>(&self, streams: &Vec<Vec<Elem<A>>>, arrivals: &Vec<Vec<u64>>, heads: &Vec<usize>)
        -> (res: MergePoll)
        requires
            streams@.len() == self.inputs,
            arrivals@.len() == self.inputs,
            heads@.len() == self.inputs,
            forall|i: int|
                0 <= i < self.inputs ==> (#[trigger] arrivals@[i])@.len() == streams@[i]@.len(),
        ensures
            res.wf(),
            res.seen@.len() == self.inputs,
            forall|k: int|
                0 <= k < self.inputs ==> #[trigger] res.seen@[k] == (if heads@[k]
                    < streams@[k]@.len() {
                    Peek::Something(arrivals@[k]@[heads@[k] as int])
                } else {
                    Peek::Closed
                }),
            res.earliest matches Some((e, time)) ==> forall|k: int|
                0 <= k < e ==> ((#[trigger] res.seen@[k]) matches Peek::Something(t) ==> time < t),
    {
        let mut poll = self.poll();
        let mut i: usize = 0;
        while i < self.inputs
            invariant
                i <= self.inputs,
                streams@.len() == self.inputs,
                arrivals@.len() == self.inputs,
                heads@.len() == self.inputs,
                forall|i: int|
                    0 <= i < self.inputs ==> (#[trigger] arrivals@[i])@.len() == streams@[i]@.len(),
                poll.wf(),
                poll.seen@.len() == self.inputs,
                forall|k: int|
                    0 <= k < self.inputs ==> #[trigger] poll.seen@[k] == (if k >= i {
                        Peek::Nothing
                    } else if heads@[k] < streams@[k]@.len() {
                        Peek::Something(arrivals@[k]@[heads@[k] as int])
                    } else {
                        Peek::Closed
                    }),
                poll.earliest matches Some((e, time)) ==> e < i && forall|k: int|
                    0 <= k < e ==> ((#[trigger] poll.seen@[k]) matches Peek::Something(t) ==> time
                        < t),
            decreases self.inputs - i,
        {
            assert(arrivals@[i as int]@.len() == streams@[i as int]@.len());
            let peek = if heads[i] < streams[i].len() {
                Peek::Something(arrivals[i][heads[i]])
            } else {
                Peek::Closed
            };
            let ghost before = poll.seen@;
            poll.observe(i, peek);
            assert forall|k: int| 0 <= k < self.inputs implies (#[trigger] poll.seen@[k]) == (if k
                == i {
                peek
            } else {
                before[k]
            }) by {}
            i = i + 1;
        }
        poll
    }

    /// Takes the group of an input that begins at `start`: where it ends. No
    /// element arrives after cycle `top`.
    fn take_group<A: Clone>(
        &self,
        now: &mut u64,
        stream: &Vec<Elem<A>>,
        arrivals: &Vec<u64>,
        start: usize,
        out: &mut Vec<(u64, Elem<A>)>,
        Ghost(top): Ghost<int>,
    ) -> (res: usize)
        requires
            self.is_stream(stream@),
            start < stream@.len(),
            arrivals@.len() == stream@.len(),
            *old(now) <= top,
            forall|k: int| start <= k < arrivals@.len() ==> #[trigger] arrivals@[k] <= top,
            top + (stream@.len() - start) < u64::MAX,
        ensures
            res == self.group_end(stream@, start as int),
            start < res <= stream@.len(),
            *final(now) == cycle_of(
                arrivals@,
                start as int,
                *old(now) as int,
                (res - start - 1) as nat,
            ),
            *final(now) < top + (res - start),
            final(out)@.len() == old(out)@.len() + (res - start),
            final(out)@.take(old(out)@.len() as int) == old(out)@,
            stream_cloned(
                stream@.subrange(start as int, res as int),
                data_of(final(out)@.skip(old(out)@.len() as int)),
            ),
            forall|k: int|
                0 <= k < res - start ==> (#[trigger] final(out)@.skip(
                    old(out)@.len() as int,
                )[k]).0 == cycle_of(arrivals@, start as int, *old(now) as int, k as nat),
    {
        let ghost base = out@;
        let ghost begin = *now as int;
        let mut j: usize = start;
        let mut done = false;
        assert(out@.take(base.len() as int) =~= base);
        while !done
            invariant
                self.is_stream(stream@),
                arrivals@.len() == stream@.len(),
                forall|k: int| start <= k < arrivals@.len() ==> #[trigger] arrivals@[k] <= top,
                top + (stream@.len() - start) < u64::MAX,
                start <= j <= stream@.len(),
                done ==> j > start && j == self.group_end(stream@, start as int),
                !done ==> j < stream@.len() && self.group_end(stream@, start as int)
                    == self.group_end(stream@, j as int),
                done ==> *now == cycle_of(arrivals@, start as int, begin, (j - start - 1) as nat)
                    && *now < top + (j - start),
                !done ==> *now == (if j == start {
                    begin
                } else {
                    cycle_of(arrivals@, start as int, begin, (j - start - 1) as nat) + 1
                }) && *now <= top + (j - start),
                out@.len() == base.len() + (j - start),
                out@.take(base.len() as int) == base,
                forall|k: int|
                    start <= k < j ==> elem_cloned(
                        #[trigger] stream@[k],
                        out@[base.len() + (k - start)].1,
                    ) && out@[base.len() + (k - start)].0 == cycle_of(
                        arrivals@,
                        start as int,
                        begin,
                        (k - start) as nat,
                    ),
            decreases stream@.len() - j,
        {
            let len: usize = stream.len();
            let ghost before = out@;
            assert(arrivals@[j as int] <= top);
            if *now < arrivals[j] {
                *now = arrivals[j];
            }
            assert(*now == cycle_of(arrivals@, start as int, begin, (j - start) as nat));
            let step = self.step(now, &stream[j]);
            out.push((step.time, step.data));
            proof {
                assert(out@.take(base.len() as int) =~= before.take(base.len() as int));
                assert forall|k: int| start <= k < j + 1 implies elem_cloned(
                    #[trigger] stream@[k],
                    out@[base.len() + (k - start)].1,
                ) && out@[base.len() + (k - start)].0 == cycle_of(
                    arrivals@,
                    start as int,
                    begin,
                    (k - start) as nat,
                ) by {
                    if k < j {
                        assert(out@[base.len() + (k - start)] == before[base.len() + (k - start)]);
                    }
                }
                if !step.done && j + 1 == stream@.len() {
                    assert(stream@[j as int] == stream@.last());
                }
            }
            done = step.done;
            j = j + 1;
        }
        proof {
            let part = stream@.subrange(start as int, j as int);
            let new = out@.skip(base.len() as int);
            assert forall|k: int| 0 <= k < part.len() implies elem_cloned(
                part[k],
                #[trigger] data_of(new)[k],
            ) by {
                assert(elem_cloned(stream@[start + k], out@[base.len() + k].1));
            }
            assert forall|k: int| 0 <= k < j - start implies (#[trigger] new[k]).0 == cycle_of(
                arrivals@,
                start as int,
                begin,
                k as nat,
            ) by {
                assert(elem_cloned(stream@[start + k], out@[base.len() + k].1));
            }
        }
        j
    }

    /// Merges whole streams of which it is known when each element arrives,
    /// from cycle `now` on: the merged stream and the select stream, with the
    /// cycles in which their elements leave. The groups that the select stream
    /// names for an input, in order, are that input.
    pub fn run<A: Clone, S: SelectAdapter>(
        &self,
        now: u64,
        streams: &Vec<Vec<Elem<A>>>,
        arrivals: &Vec<Vec<u64>>,
    ) -> (res: (Vec<(u64, Elem<A>)>, Vec<(u64, Elem<S>)>))
        requires
            streams@.len() == self.inputs,
            arrivals@.len() == self.inputs,
            forall|i: int|
                0 <= i < self.inputs ==> (#[trigger] arrivals@[i])@.len() == streams@[i]@.len(),
            forall|i: int| 0 <= i < self.inputs ==> self.is_stream((#[trigger] streams@[i])@),
            now + total(contents(streams@)) < u64::MAX,
            forall|i: int, k: int|
                0 <= i < self.inputs && 0 <= k < arrivals@[i]@.len() ==> #[trigger] arrivals@[i]@[k]
                    + total(contents(streams@)) < u64::MAX,
        ensures
            exists|order: Seq<int>| #[trigger]
                self.is_run(
                    now as int,
                    contents(streams@),
                    contents(arrivals@),
                    order,
                    res.0@,
                    res.1@,
                ),
            self.routes_back(contents(streams@), data_of(res.0@), data_of(res.1@)),
    {
        let ghost all = contents(streams@);
        let ghost times = contents(arrivals@);
        let mut heads: Vec<usize> = vec![0; self.inputs];
        let ghost begin = now as int;
        let ghost top = u64::MAX - 1 - total(all);
        let mut now: u64 = now;
        let mut out: Vec<(u64, Elem<A>)> = Vec::new();
        let mut selects: Vec<(u64, Elem<S>)> = Vec::new();
        let ghost mut order: Seq<int> = Seq::empty();
        let ghost mut taken: Seq<int> = self.heads(all, order, 0);
        let mut finished = false;
        proof {
            reveal(has_run);
            assert(has_run(*self, begin, all, times, order, out@, selects@));
        }
        while !finished
            invariant
                streams@.len() == self.inputs,
                arrivals@.len() == self.inputs,
                forall|i: int|
                    0 <= i < self.inputs ==> (#[trigger] arrivals@[i])@.len() == streams@[i]@.len(),
                forall|i: int| 0 <= i < self.inputs ==> self.is_stream((#[trigger] streams@[i])@),
                all == contents(streams@),
                times == contents(arrivals@),
                heads@.len() == self.inputs,
                heads_ok(all, taken),
                forall|i: int| 0 <= i < self.inputs ==> #[trigger] heads@[i] == taken[i],
                taken == self.heads(all, order, order.len()),
                finished ==> forall|i: int|
                    0 <= i < all.len() ==> taken[i] == (#[trigger] all[i]).len(),
                has_run(*self, begin, all, times, order, out@, selects@),
                now == self.clock(begin, all, times, order, order.len()),
                top == u64::MAX - 1 - total(all),
                forall|i: int, k: int|
                    0 <= i < self.inputs && 0 <= k < arrivals@[i]@.len() ==> #[trigger]
                        arrivals@[i]@[k] <= top,
                now <= top + out@.len(),
                out@.len() + left(all, taken, all.len()) == total(all),
            decreases
                left(all, taken, all.len()),
                if finished {
                    0int
                } else {
                    1
                },
        {
            let poll = self.look(streams, arrivals, &heads);
            match poll.decide(now) {
                MergeDecision::Take(input) => {
                    let ghost i = input as int;
                    let ghost sent = out@;
                    let ghost chosen = selects@;
                    let ghost before = taken;
                    proof {
                        assert(poll.seen@[i] is Something);
                        assert(heads@[i] == taken[i]);
                        assert(self.is_stream(streams@[i]@));
                        assert forall|k: int|
                            0 <= k < all.len() && taken[k] < (#[trigger] all[k]).len() implies if k
                            < i {
                            times[i][taken[i]] < times[k][taken[k]]
                        } else {
                            times[i][taken[i]] <= times[k][taken[k]]
                        } by {
                            assert(heads@[k] == taken[k]);
                            assert(poll.seen@[k] == Peek::Something(times[k][taken[k]]));
                        }
                    }
                    let sel = (now, self.select::<S>(input));
                    let start: usize = heads[input];
                    proof {
                        let len = all[i].len() as int;
                        lemma_less_left(all, before, i, len, all.len());
                        lemma_less_left(all, before.update(i, len), i, len, all.len());
                        assert forall|k: int|
                            start <= k < arrivals@[i]@.len() implies #[trigger] arrivals@[i]@[k]
                            <= top + sent.len() by {}
                    }
                    let end: usize = self.take_group(
                        &mut now,
                        &streams[input],
                        &arrivals[input],
                        start,
                        &mut out,
                        Ghost(top + sent.len()),
                    );
                    proof {
                        lemma_advance(*self, all, before, i);
                        assert(before.update(i, end as int)[i] == end);
                        lemma_less_left(all, before, i, end as int, all.len());
                        lemma_run_next(
                            *self,
                            begin,
                            all,
                            times,
                            order,
                            sent,
                            chosen,
                            i,
                            out@.skip(sent.len() as int),
                            sel,
                        );
                        assert(out@ =~= sent + out@.skip(sent.len() as int));
                        order = order.push(i);
                        taken = before.update(i, end as int);
                        lemma_less_left(all, taken, i, end as int, all.len());
                    }
                    selects.push(sel);
                    heads[input] = end;
                },
                MergeDecision::Wait => {
                    proof {
                        let k = choose|k: int|
                            0 <= k < poll.seen@.len() && (#[trigger] poll.seen@[k]) is Nothing;
                        assert(!(poll.seen@[k] is Nothing));
                    }
                    vstd::pervasive::unreached()
                },
                MergeDecision::Finished => {
                    proof {
                        assert forall|i: int| 0 <= i < all.len() implies taken[i]
                            == (#[trigger] all[i]).len() by {
                            assert(!(poll.seen@[i] is Something));
                            assert(heads@[i] == taken[i]);
                        }
                    }
                    finished = true;
                },
            }
        }
        let res = (out, selects);
        proof {
            reveal(has_run);
            assert(self.finished(all, order));
            assert(self.is_run(
                begin,
                contents(streams@),
                contents(arrivals@),
                order,
                res.0@,
                res.1@,
            ));
            law_merge_routes_back(*self, begin, all, times, order, res.0@, res.1@);
        }
        res
    }
}

/// Only the last of the elements ends a group, so the group ends there.
proof fn lemma_group_end_at<A>(merge: EagerMerge, stream: Seq<Elem<A>>, start: int, end: int)
    requires
        0 <= start < end <= stream.len(),
        forall|k: int| start <= k < end ==> (merge.ends(#[trigger] stream[k]) <==> k == end - 1),
    ensures
        merge.group_end(stream, start) == end,
    decreases end - start,
{
    assert(merge.ends(stream[start]) <==> start == end - 1);
    if start < end - 1 {
        lemma_group_end_at(merge, stream, start + 1, end);
    }
}

/// The first groups are the beginning of the merged stream.
proof fn lemma_merged_prefix<A>(
    merge: EagerMerge,
    streams: Seq<Seq<Elem<A>>>,
    order: Seq<int>,
    n: nat,
    all: nat,
)
    requires
        n <= all,
    ensures
        merge.merged(streams, order, n).len() <= merge.merged(streams, order, all).len(),
        merge.merged(streams, order, all).take(merge.merged(streams, order, n).len() as int)
            == merge.merged(streams, order, n),
    decreases all - n,
{
    let part = merge.merged(streams, order, n);
    let whole = merge.merged(streams, order, all);
    if n < all {
        lemma_merged_prefix(merge, streams, order, n + 1, all);
        let next = merge.merged(streams, order, n + 1);
        assert(next == part + merge.group(streams, order, n));
        assert(next.take(part.len() as int) =~= part);
        assert(whole.take(part.len() as int) =~= next.take(part.len() as int));
    } else {
        assert(whole.take(part.len() as int) =~= part);
    }
}

/// Group `n` of a merged stream begins behind the groups before it and holds
/// what has been taken for it.
proof fn lemma_group_place<A: Clone>(
    merge: EagerMerge,
    streams: Seq<Seq<Elem<A>>>,
    order: Seq<int>,
    out: Seq<Elem<A>>,
    n: nat,
)
    requires
        forall|i: int| 0 <= i < streams.len() ==> merge.is_stream(#[trigger] streams[i]),
        merge.in_turn(streams, order),
        stream_cloned(merge.merged(streams, order, order.len()), out),
        n <= order.len(),
    ensures
        merge.group_start(out, n) == merge.merged(streams, order, n).len(),
        n < order.len() ==> stream_cloned(
            merge.group(streams, order, n),
            out.subrange(merge.group_start(out, n), merge.group_start(out, n + 1)),
        ) && merge.group_start(out, n) <= merge.group_start(out, n + 1) <= out.len(),
    decreases n,
{
    if n > 0 {
        lemma_group_place(merge, streams, order, out, (n - 1) as nat);
        lemma_group_follows(merge, streams, order, out, (n - 1) as nat);
    }
    if n < order.len() {
        lemma_group_follows(merge, streams, order, out, n);
    }
}

/// A group that is sent behind others is found there.
proof fn lemma_group_cut<A: Clone>(
    merge: EagerMerge,
    before: Seq<Elem<A>>,
    group: Seq<Elem<A>>,
    whole: Seq<Elem<A>>,
    out: Seq<Elem<A>>,
)
    requires
        group.len() > 0,
        forall|k: int|
            0 <= k < group.len() ==> (merge.ends(#[trigger] group[k]) <==> k == group.len() - 1),
        (before + group).len() <= whole.len(),
        whole.take((before + group).len() as int) == before + group,
        stream_cloned(whole, out),
    ensures
        merge.group_end(out, before.len() as int) == (before + group).len(),
        stream_cloned(group, out.subrange(before.len() as int, (before + group).len() as int)),
{
    let from = before.len() as int;
    let to = (before + group).len() as int;
    assert forall|k: int| from <= k < to implies elem_cloned(
        group[k - from],
        #[trigger] out[k],
    ) by {
        assert((before + group)[k] == whole.take(to)[k]);
        assert(elem_cloned(whole[k], out[k]));
    }
    assert forall|k: int| from <= k < to implies (merge.ends(#[trigger] out[k]) <==> k == to
        - 1) by {
        assert(elem_cloned(group[k - from], out[k]));
        assert(merge.ends(group[k - from]) <==> k == to - 1);
    }
    lemma_group_end_at(merge, out, from, to);
}

/// A group that begins behind the groups before it ends where the next one
/// begins.
proof fn lemma_group_follows<A: Clone>(
    merge: EagerMerge,
    streams: Seq<Seq<Elem<A>>>,
    order: Seq<int>,
    out: Seq<Elem<A>>,
    n: nat,
)
    requires
        forall|i: int| 0 <= i < streams.len() ==> merge.is_stream(#[trigger] streams[i]),
        merge.in_turn(streams, order),
        stream_cloned(merge.merged(streams, order, order.len()), out),
        n < order.len(),
        merge.group_start(out, n) == merge.merged(streams, order, n).len(),
    ensures
        merge.group_start(out, n + 1) == merge.merged(streams, order, n + 1).len(),
        stream_cloned(
            merge.group(streams, order, n),
            out.subrange(merge.group_start(out, n), merge.group_start(out, n + 1)),
        ),
        merge.group_start(out, n) <= merge.group_start(out, n + 1) <= out.len(),
{
    let i = order[n as int];
    let start = merge.heads(streams, order, n)[i];
    lemma_heads(merge, streams, order, n);
    assert(0 <= i < streams.len());
    assert(merge.is_stream(streams[i]));
    lemma_group(merge, streams[i], start);
    let before = merge.merged(streams, order, n);
    let group = merge.group(streams, order, n);
    assert forall|k: int| 0 <= k < group.len() implies (merge.ends(#[trigger] group[k]) <==> k
        == group.len() - 1) by {
        assert(group[k] == streams[i][start + k]);
    }
    assert(merge.merged(streams, order, n + 1) == before + group);
    lemma_merged_prefix(merge, streams, order, n + 1, order.len());
    lemma_group_cut(merge, before, group, merge.merged(streams, order, order.len()), out);
}

/// The groups that a merge has sent for an input are what it has taken of it.
proof fn lemma_routed_prefix<A: Clone, S: SelectAdapter>(
    merge: EagerMerge,
    streams: Seq<Seq<Elem<A>>>,
    order: Seq<int>,
    out: Seq<Elem<A>>,
    selects: Seq<Elem<S>>,
    n: nat,
    l: int,
)
    requires
        streams.len() == merge.inputs,
        forall|i: int| 0 <= i < streams.len() ==> merge.is_stream(#[trigger] streams[i]),
        merge.in_turn(streams, order),
        stream_cloned(merge.merged(streams, order, order.len()), out),
        selects.len() == order.len(),
        forall|n: int|
            0 <= n < order.len() ==> merge.is_select(#[trigger] selects[n], order[n]),
        n <= order.len(),
        0 <= l < streams.len(),
    ensures
        stream_cloned(
            streams[l].take(merge.heads(streams, order, n)[l]),
            merge.routed(out, selects, n, l),
        ),
    decreases n,
{
    if n > 0 {
        let m = (n - 1) as nat;
        lemma_routed_prefix(merge, streams, order, out, selects, m, l);
        lemma_heads(merge, streams, order, m);
        lemma_group_place(merge, streams, order, out, m);
        let i = order[m as int];
        assert(0 <= i < streams.len());
        assert(merge.is_select(selects[m as int], i));
        if l == i {
            let start = merge.heads(streams, order, m)[i];
            assert(merge.is_stream(streams[i]));
            lemma_group(merge, streams[i], start);
            lemma_stream_cloned_concat(
                streams[l].take(start),
                merge.routed(out, selects, m, l),
                merge.group(streams, order, m),
                out.subrange(merge.group_start(out, m), merge.group_start(out, n)),
            );
            assert(streams[l].take(merge.group_end(streams[i], start)) =~= streams[l].take(start)
                + merge.group(streams, order, m));
        }
    }
}

/// Merging loses and mixes nothing: when the merged stream of a whole run is
/// cut into groups, one for each select element, those selected for an input
/// make up, in order, exactly that input, whatever its stops and values.
pub proof fn law_merge_routes_back<A: Clone, S: SelectAdapter>(
    merge: EagerMerge,
    now: int,
    streams: Seq<Seq<Elem<A>>>,
    arrivals: Seq<Seq<u64>>,
    order: Seq<int>,
    out: Seq<(u64, Elem<A>)>,
    selects: Seq<(u64, Elem<S>)>,
)
    requires
        streams.len() == merge.inputs,
        forall|i: int| 0 <= i < streams.len() ==> merge.is_stream(#[trigger] streams[i]),
        merge.is_run(now, streams, arrivals, order, out, selects),
    ensures
        merge.routes_back(streams, data_of(out), data_of(selects)),
{
    let sels = data_of(selects);
    assert forall|n: int| 0 <= n < order.len() implies merge.is_select(
        #[trigger] sels[n],
        order[n],
    ) by {
        assert(merge.is_select(selects[n].1, order[n]));
    }
    lemma_group_place(merge, streams, order, data_of(out), order.len());
    assert forall|l: int| 0 <= l < streams.len() implies stream_cloned(
        #[trigger] streams[l],
        merge.routed(data_of(out), sels, sels.len(), l),
    ) by {
        lemma_routed_prefix(merge, streams, order, data_of(out), sels, order.len(), l);
        assert(streams[l].take(streams[l].len() as int) =~= streams[l]);
    }
}

/// What the outputs of a partition receive of the first `n` groups: output `l`
/// receives those for which it is selected.
pub open spec fn delivered<A: Bufferizable>(
    merge: EagerMerge,
    partition: FlatPartition,
    streams: Seq<Seq<Elem<A>>>,
    order: Seq<int>,
    selections: Seq<Selection>,
    n: nat,
    l: int,
) -> Seq<Elem<A>>
    decreases n,
{
    if n == 0 {
        Seq::empty()
    } else {
        let m = (n - 1) as nat;
        let before = delivered(merge, partition, streams, order, selections, m, l);
        let selection = selections[m as int];
        if as_ints(selection.experts@).contains(l) {
            before + merge.group(streams, order, m).map_values(
                |e: Elem<A>| partition.sent(selection, e),
            )
        } else {
            before
        }
    }
}

/// Partitioning a whole merged stream by its select stream gives back every
/// input: the groups of the merge are groups for the partition, and each
/// output receives all groups of its input, unchanged and in order. The
/// selections are those that a partition makes of the select stream, and the
/// values lie where the partition puts them.
pub proof fn law_partition_undoes_merge_run<A: Bufferizable>(
    merge: EagerMerge,
    partition: FlatPartition,
    streams: Seq<Seq<Elem<A>>>,
    order: Seq<int>,
    selections: Seq<Selection>,
)
    requires
        partition.outputs == merge.inputs,
        partition.partition_rank == merge.input_rank,
        streams.len() == merge.inputs,
        forall|i: int| 0 <= i < streams.len() ==> merge.is_stream(#[trigger] streams[i]),
        forall|i: int, k: int|
            0 <= i < streams.len() && 0 <= k < streams[i].len() ==> {
                &&& (#[trigger] streams[i][k]).canonical()
                &&& streams[i][k].value().placed(partition.config.write_back_mu)
                    == streams[i][k].value()
            },
        merge.in_turn(streams, order),
        merge.finished(streams, order),
        selections.len() == order.len(),
        forall|n: int|
            0 <= n < order.len() ==> {
                &&& as_ints((#[trigger] selections[n]).experts@) == sel_vec(
                    one_hot(merge.inputs as nat, order[n]),
                )
                &&& selections[n].expected_stop is None
            },
    ensures
        forall|n: int|
            0 <= n < order.len() ==> partition.selection_ok(#[trigger] selections[n])
                && partition.is_group(selections[n], merge.group(streams, order, n as nat)),
        forall|l: int|
            0 <= l < streams.len() ==> delivered(
                merge,
                partition,
                streams,
                order,
                selections,
                order.len(),
                l,
            ) == #[trigger] streams[l],
{
    assert forall|n: int| 0 <= n < order.len() implies partition.selection_ok(
        #[trigger] selections[n],
    ) && partition.is_group(selections[n], merge.group(streams, order, n as nat)) by {
        lemma_taken_group(merge, partition, streams, order, selections, n as nat);
    }
    assert forall|l: int| 0 <= l < streams.len() implies delivered(
        merge,
        partition,
        streams,
        order,
        selections,
        order.len(),
        l,
    ) == #[trigger] streams[l] by {
        lemma_delivered_prefix(merge, partition, streams, order, selections, order.len(), l);
        assert(streams[l].take(streams[l].len() as int) =~= streams[l]);
    }
}

/// A group of a merge is one for the partition, which sends it on unchanged to
/// the output that its select element names.
proof fn lemma_taken_group<A: Bufferizable>(
    merge: EagerMerge,
    partition: FlatPartition,
    streams: Seq<Seq<Elem<A>>>,
    order: Seq<int>,
    selections: Seq<Selection>,
    n: nat,
)
    requires
        partition.outputs == merge.inputs,
        partition.partition_rank == merge.input_rank,
        streams.len() == merge.inputs,
        forall|i: int| 0 <= i < streams.len() ==> merge.is_stream(#[trigger] streams[i]),
        forall|i: int, k: int|
            0 <= i < streams.len() && 0 <= k < streams[i].len() ==> {
                &&& (#[trigger] streams[i][k]).canonical()
                &&& streams[i][k].value().placed(partition.config.write_back_mu)
                    == streams[i][k].value()
            },
        merge.in_turn(streams, order),
        n < order.len() == selections.len(),
        as_ints(selections[n as int].experts@) == sel_vec(
            one_hot(merge.inputs as nat, order[n as int]),
        ),
        selections[n as int].expected_stop is None,
    ensures
        partition.selection_ok(selections[n as int]),
        partition.is_group(selections[n as int], merge.group(streams, order, n)),
        as_ints(selections[n as int].experts@) == seq![order[n as int]],
        merge.group(streams, order, n).map_values(
            |e: Elem<A>| partition.sent(selections[n as int], e),
        ) == merge.group(streams, order, n),
{
    let i = order[n as int];
    let stream = streams[i];
    let start = merge.heads(streams, order, n)[i];
    let group = merge.group(streams, order, n);
    let selection = selections[n as int];
    lemma_heads(merge, streams, order, n);
    assert(merge.is_stream(stream));
    lemma_group(merge, stream, start);
    let flags = one_hot(merge.inputs as nat, i);
    assert forall|k: int| 0 <= k < group.len() implies partition.accepts(
        selection,
        #[trigger] group[k],
    ) && (partition.ends(selection, group[k]) <==> k == group.len() - 1) && partition.sent(
        selection,
        group[k],
    ) == group[k] by {
        let e = streams[i][start + k];
        assert(group[k] == e);
        law_partition_undoes_merge(merge, partition, i, flags, selection, e);
    }
    law_partition_undoes_merge(merge, partition, i, flags, selection, streams[i][start]);
    assert(group.map_values(|e: Elem<A>| partition.sent(selection, e)) =~= group);
}

/// After `n` groups an output has received what has been taken of its input.
proof fn lemma_delivered_prefix<A: Bufferizable>(
    merge: EagerMerge,
    partition: FlatPartition,
    streams: Seq<Seq<Elem<A>>>,
    order: Seq<int>,
    selections: Seq<Selection>,
    n: nat,
    l: int,
)
    requires
        partition.outputs == merge.inputs,
        partition.partition_rank == merge.input_rank,
        streams.len() == merge.inputs,
        forall|i: int| 0 <= i < streams.len() ==> merge.is_stream(#[trigger] streams[i]),
        forall|i: int, k: int|
            0 <= i < streams.len() && 0 <= k < streams[i].len() ==> {
                &&& (#[trigger] streams[i][k]).canonical()
                &&& streams[i][k].value().placed(partition.config.write_back_mu)
                    == streams[i][k].value()
            },
        merge.in_turn(streams, order),
        selections.len() == order.len(),
        forall|n: int|
            0 <= n < order.len() ==> {
                &&& as_ints((#[trigger] selections[n]).experts@) == sel_vec(
                    one_hot(merge.inputs as nat, order[n]),
                )
                &&& selections[n].expected_stop is None
            },
        n <= order.len(),
        0 <= l < streams.len(),
    ensures
        delivered(merge, partition, streams, order, selections, n, l) == streams[l].take(
            merge.heads(streams, order, n)[l],
        ),
    decreases n,
{
    let got = delivered(merge, partition, streams, order, selections, n, l);
    if n == 0 {
        assert(got =~= streams[l].take(0));
    } else {
        let m = (n - 1) as nat;
        lemma_delivered_prefix(merge, partition, streams, order, selections, m, l);
        lemma_heads(merge, streams, order, m);
        assert(as_ints(selections[m as int].experts@) == sel_vec(
            one_hot(merge.inputs as nat, order[m as int]),
        ));
        lemma_taken_group(merge, partition, streams, order, selections, m);
        let i = order[m as int];
        let start = merge.heads(streams, order, m)[i];
        assert(merge.is_stream(streams[i]));
        lemma_group(merge, streams[i], start);
        let experts = as_ints(selections[m as int].experts@);
        assert(experts.contains(l) <==> l == i) by {
            assert(experts[0] == i);
        }
        if l == i {
            assert(got =~= streams[l].take(merge.group_end(streams[i], start)));
        }
    }
}

/// The cycles of the first groups come first.
proof fn lemma_cycles_prefix<A>(
    merge: EagerMerge,
    now: int,
    streams: Seq<Seq<Elem<A>>>,
    arrivals: Seq<Seq<u64>>,
    order: Seq<int>,
    n: nat,
    all: nat,
)
    requires
        n <= all,
    ensures
        merge.cycles(now, streams, arrivals, order, n).len() <= merge.cycles(
            now,
            streams,
            arrivals,
            order,
            all,
        ).len(),
        merge.cycles(now, streams, arrivals, order, all).take(
            merge.cycles(now, streams, arrivals, order, n).len() as int,
        ) == merge.cycles(now, streams, arrivals, order, n),
    decreases all,
{
    let part = merge.cycles(now, streams, arrivals, order, n);
    let whole = merge.cycles(now, streams, arrivals, order, all);
    if n < all {
        lemma_cycles_prefix(merge, now, streams, arrivals, order, n, (all - 1) as nat);
        let less = merge.cycles(now, streams, arrivals, order, (all - 1) as nat);
        assert(whole.take(part.len() as int) =~= less.take(part.len() as int));
    } else {
        assert(whole.take(part.len() as int) =~= part);
    }
}

/// There is a cycle for each element.
proof fn lemma_cycles_len<A>(
    merge: EagerMerge,
    now: int,
    streams: Seq<Seq<Elem<A>>>,
    arrivals: Seq<Seq<u64>>,
    order: Seq<int>,
    n: nat,
)
    requires
        n <= order.len(),
        merge.in_turn(streams, order),
        forall|i: int| 0 <= i < streams.len() ==> merge.is_stream(#[trigger] streams[i]),
    ensures
        merge.cycles(now, streams, arrivals, order, n).len() == merge.merged(
            streams,
            order,
            n,
        ).len(),
    decreases n,
{
    if n > 0 {
        let m = (n - 1) as nat;
        lemma_cycles_len(merge, now, streams, arrivals, order, m);
        lemma_heads(merge, streams, order, m);
        let i = order[m as int];
        assert(0 <= i < streams.len());
        assert(merge.is_stream(streams[i]));
        lemma_group(merge, streams[i], merge.heads(streams, order, m)[i]);
    }
}

/// Nothing leaves before it has arrived, and nothing waits longer than it has
/// to. A merge chooses its first group at once, and every other in the cycle in
/// which the group before it is done. The first element of a group leaves once
/// it has arrived, and every other a cycle after the one before it, or when it
/// arrives. `k` numbers the elements of group `n`, which is the next group of
/// its input.
pub proof fn law_merged_elements_do_not_wait<A: Clone, S: SelectAdapter>(
    merge: EagerMerge,
    now: int,
    streams: Seq<Seq<Elem<A>>>,
    arrivals: Seq<Seq<u64>>,
    order: Seq<int>,
    out: Seq<(u64, Elem<A>)>,
    selects: Seq<(u64, Elem<S>)>,
    n: int,
    k: int,
)
    requires
        streams.len() == merge.inputs,
        forall|i: int| 0 <= i < streams.len() ==> merge.is_stream(#[trigger] streams[i]),
        merge.is_run(now, streams, arrivals, order, out, selects),
        0 <= n < order.len(),
        0 <= k < merge.group(streams, order, n as nat).len(),
    ensures
        ({
            let i = order[n];
            let start = merge.heads(streams, order, n as nat)[i];
            let begin = merge.group_start(data_of(out), n as nat);
            let len = merge.group(streams, order, n as nat).len();
            &&& 0 <= begin && begin + len <= out.len()
            &&& selects[0].0 == now
            &&& selects[n].1.value().flags()[i]
            &&& out[begin + k].0 == vstd::math::max(
                if k == 0 {
                    selects[n].0 as int
                } else {
                    out[begin + k - 1].0 + 1
                },
                arrivals[i][start + k] as int,
            )
            &&& n + 1 < order.len() ==> selects[n + 1].0 == out[begin + len - 1].0
        }),
{
    let i = order[n];
    let m = n as nat;
    let start = merge.heads(streams, order, m)[i];
    lemma_heads(merge, streams, order, m);
    assert(0 <= i < streams.len());
    assert(merge.is_stream(streams[i]));
    lemma_group(merge, streams[i], start);
    let len = merge.group(streams, order, m).len() as int;
    lemma_group_place(merge, streams, order, data_of(out), m);
    let begin = merge.merged(streams, order, m).len() as int;
    lemma_cycles_len(merge, now, streams, arrivals, order, m);
    lemma_cycles_len(merge, now, streams, arrivals, order, m + 1);
    lemma_cycles_prefix(merge, now, streams, arrivals, order, m + 1, order.len());
    let whole = merge.cycles(now, streams, arrivals, order, order.len());
    let upto = merge.cycles(now, streams, arrivals, order, m + 1);
    let own = merge.group_cycles(now, streams, arrivals, order, m);
    assert(upto == merge.cycles(now, streams, arrivals, order, m) + own);
    assert forall|j: int| 0 <= j < len implies (#[trigger] out[begin + j]).0 == own[j] by {
        assert(upto[begin + j] == own[j]);
        assert(whole.take(upto.len() as int)[begin + j] == whole[begin + j]);
    }
    assert(out[begin + k].0 == own[k]);
    if k > 0 {
        assert(out[begin + (k - 1)].0 == own[k - 1]);
    }
    assert(out[begin + (len - 1)].0 == own[len - 1]);
    assert(selects[n].0 == merge.clock(now, streams, arrivals, order, m));
    assert(selects[0].0 == merge.clock(now, streams, arrivals, order, 0));
    if n + 1 < order.len() {
        assert(selects[n + 1].0 == merge.clock(now, streams, arrivals, order, m + 1));
    }
}

/// A merge takes whole groups, and always the one that arrives first: a group
/// begins with the next element of its input, which arrives no later than the
/// next element of any other, and ends with the first element that closes the
/// rank. Its select element names its input and no other.
pub proof fn law_first_group_is_taken<A: Clone, S: SelectAdapter>(
    merge: EagerMerge,
    now: int,
    streams: Seq<Seq<Elem<A>>>,
    arrivals: Seq<Seq<u64>>,
    order: Seq<int>,
    out: Seq<(u64, Elem<A>)>,
    selects: Seq<(u64, Elem<S>)>,
    n: int,
    other: int,
    k: int,
)
    requires
        streams.len() == merge.inputs,
        forall|i: int| 0 <= i < streams.len() ==> merge.is_stream(#[trigger] streams[i]),
        merge.is_run(now, streams, arrivals, order, out, selects),
        0 <= n < order.len(),
        0 <= other < streams.len(),
        0 <= k < merge.group(streams, order, n as nat).len(),
    ensures
        ({
            let i = order[n];
            let heads = merge.heads(streams, order, n as nat);
            let group = merge.group(streams, order, n as nat);
            &&& selects.len() == order.len()
            &&& selects[n].1 is Val
            &&& selects[n].1.value().flags().len() == merge.inputs
            &&& selects[n].1.value().flags()[other] <==> other == i
            &&& group[k] == streams[i][heads[i] + k]
            &&& k == group.len() - 1 <==> group[k].level() == merge.input_rank && (group[k] is ValStop
                || merge.input_rank == 0)
            &&& heads[other] < streams[other].len() ==> {
                &&& arrivals[i][heads[i]] <= arrivals[other][heads[other]]
                &&& arrivals[i][heads[i]] == arrivals[other][heads[other]] ==> i <= other
            }
            &&& n + 1 < order.len() ==> merge.heads(streams, order, (n + 1) as nat)[other]
                == heads[other] + (if other == i {
                group.len() as int
            } else {
                0
            })
        }),
{
    assert(merge.is_select(selects[n].1, order[n]));
    assert(merge.is_earliest(
        streams,
        arrivals,
        merge.heads(streams, order, n as nat),
        order[n],
    ));
    lemma_taken_first(merge, streams, arrivals, order, n, other, k);
}

proof fn lemma_taken_first<A>(
    merge: EagerMerge,
    streams: Seq<Seq<Elem<A>>>,
    arrivals: Seq<Seq<u64>>,
    order: Seq<int>,
    n: int,
    other: int,
    k: int,
)
    requires
        forall|i: int| 0 <= i < streams.len() ==> merge.is_stream(#[trigger] streams[i]),
        merge.in_turn(streams, order),
        0 <= n < order.len(),
        0 <= other < streams.len(),
        0 <= k < merge.group(streams, order, n as nat).len(),
        merge.is_earliest(streams, arrivals, merge.heads(streams, order, n as nat), order[n]),
    ensures
        ({
            let i = order[n];
            let heads = merge.heads(streams, order, n as nat);
            let group = merge.group(streams, order, n as nat);
            &&& 0 <= i < streams.len()
            &&& group[k] == streams[i][heads[i] + k]
            &&& k == group.len() - 1 <==> group[k].level() == merge.input_rank && (group[k] is ValStop
                || merge.input_rank == 0)
            &&& heads[other] < streams[other].len() ==> {
                &&& arrivals[i][heads[i]] <= arrivals[other][heads[other]]
                &&& arrivals[i][heads[i]] == arrivals[other][heads[other]] ==> i <= other
            }
            &&& merge.heads(streams, order, (n + 1) as nat)[other] == heads[other] + (if other
                == i {
                group.len() as int
            } else {
                0
            })
        }),
{
    let i = order[n];
    let m = n as nat;
    let heads = merge.heads(streams, order, m);
    let start = heads[i];
    lemma_heads(merge, streams, order, m);
    assert(0 <= i < streams.len());
    assert(merge.is_stream(streams[i]));
    lemma_group(merge, streams[i], start);
    let e = streams[i][start + k];
    let o = streams[other];
    assert(merge.group(streams, order, m)[k] == e);
    assert(merge.ends(e) <==> k == merge.group_end(streams[i], start) - 1 - start);
    assert(merge.heads(streams, order, m + 1) == heads.update(
        i,
        merge.group_end(streams[i], start),
    ));
}

/// Looking at an input: an element that is seen becomes the earliest one if
/// there is none yet or it arrives before that one, and the first that was
/// seen stays among those that arrive together.
pub proof fn law_earlier_element_is_preferred(input: usize, peek: Peek)
    ensures
        forall|poll: &mut MergePoll|
            input < poll.seen@.len() && #[trigger] call_ensures(
                MergePoll::observe,
                (poll, input, peek),
                (),
            ) ==> {
                let after = *final(poll);
                &&& after.seen@.len() == poll.seen@.len()
                &&& after.seen@[input as int] == peek
                &&& !(peek is Something) ==> after.earliest == poll.earliest
                &&& peek matches Peek::Something(t) ==> {
                    &&& after.earliest is Some
                    &&& poll.earliest matches Some((_, time)) ==> {
                        &&& t < time ==> after.earliest == Some((input, t))
                        &&& t >= time ==> after.earliest == poll.earliest
                    }
                    &&& poll.earliest is None ==> after.earliest == Some((input, t))
                }
            },
{
}

/// A merge waits while an input that shows nothing may still bring an element
/// before the earliest one. It takes that one as soon as none can, and it is
/// finished only once all inputs have ended.
pub proof fn law_merge_waits_for_earlier(poll: MergePoll, now: u64, res: MergeDecision)
    requires
        poll.wf(),
        call_ensures(MergePoll::decide, (&poll, now), res),
    ensures
        res is Finished <==> forall|k: int|
            0 <= k < poll.seen@.len() ==> (#[trigger] poll.seen@[k]) is Closed,
        res is Wait ==> exists|k: int|
            0 <= k < poll.seen@.len() && (#[trigger] poll.seen@[k]) is Nothing,
        res matches MergeDecision::Take(i) ==> i < poll.seen@.len() && (
        poll.seen@[i as int] matches Peek::Something(time) && forall|k: int|
            0 <= k < poll.seen@.len() ==> match #[trigger] poll.seen@[k] {
                Peek::Something(t) => time <= t,
                Peek::Nothing => time <= now,
                Peek::Closed => true,
            }),
        forall|k: int|
            0 <= k < poll.seen@.len() && ((#[trigger] poll.seen@[k]) matches Peek::Something(t) && t
                <= now) ==> res is Take,
{
    if poll.incomplete() {
        let k = choose|k: int| 0 <= k < poll.seen@.len() && (#[trigger] poll.seen@[k]) is Nothing;
        assert(poll.seen@[k] is Nothing);
    }
    if let Some((i, time)) = poll.earliest {
        assert(poll.seen@[i as int] is Something);
    }
}

/// An element of a group leaves in the cycle in which it is taken, and the next
/// one of the group is taken a cycle later. The group ends with an element that
/// closes its rank.
pub proof fn law_group_element_is_sent<A: Clone>(merge: EagerMerge, e: Elem<A>)
    requires
        e is ValStop ==> e.level() <= merge.input_rank,
    ensures
        forall|now: &mut u64, res: MergeStep<A>| #[trigger]
            call_ensures(EagerMerge::step::<A>, (&merge, now, &e), res) ==> {
                &&& res.time == *now
                &&& cloned(e.value(), res.data.value())
                &&& res.data.level() == e.level()
                &&& res.data is ValStop <==> e is ValStop
                &&& res.done <==> e.level() == merge.input_rank && (e is ValStop
                    || merge.input_rank == 0)
                &&& *final(now) == *now + (if res.done {
                    0int
                } else {
                    1
                })
            },
{
}

/// The select element for an input sets the flag of that input alone, closes
/// nothing and does not lie in a memory unit.
pub proof fn law_select_names_one_input<S: SelectAdapter>(
    merge: EagerMerge,
    input: usize,
    sel: Elem<S>,
    k: int,
)
    requires
        call_ensures(EagerMerge::select::<S>, (&merge, input), sel),
        0 <= k < merge.inputs,
    ensures
        sel is Val,
        sel.value().flags().len() == merge.inputs,
        sel.value().flags()[k] <==> k == input,
        !sel.value().from_mu(),
{
}

} // verus!
