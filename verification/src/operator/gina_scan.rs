//! Rank-delimited prefix scan.

use vstd::prelude::*;

use crate::primitives::elem::{
    attach_stop, mu_cycles, opt_value, referent, transfer_cycles, with_value, Elem, StopType,
};
use crate::primitives::tile::{lemma_tile_cycles, tile_cycles, Tile};
use crate::utils::calculation::{roofline, roofline_cycles};

verus! {

#[derive(Debug, Clone, Copy)]
pub struct ScanConfig {
    pub compute_bw: u64,
    pub write_back_mu: bool,
    pub inclusive: bool,
}

/// Folds each group of a stream into an accumulator and sends the accumulator
/// for every element: the one after the element, or the one before it if the
/// scan is exclusive. A group ends with a stop of level `rank` or more.
///
/// `fn1` folds in the element of the first stream, and `fn2` that of the
/// second one where two streams are paired. With `paired_out` both
/// accumulators are sent, each on a stream of its own. With `counted` a trip
/// count is read for each group.
pub struct GinaScan<F1, F2, I> {
    pub paired_out: bool,
    pub counted: bool,
    pub fn1: F1,
    pub fn2: Option<F2>,
    pub init: I,
    pub rank: StopType,
    pub config: ScanConfig,
    pub id: u32,
}

/// Where a scan stands.
pub struct ScanState<OT> {
    pub accumulator: Tile<OT>,
    pub group_open: bool,
    pub expected_steps: Option<u64>,
    pub observed_steps: u64,
}

/// What a scan does for one element: it takes `cycles` cycles and then sends.
pub struct ScanStep<OT> {
    pub cycles: u64,
    pub out: Elem<Tile<OT>>,
    pub paired: Option<Elem<Tile<OT>>>,
    pub group_end: bool,
}

/// The count that a trip tile carries: its first value, where it has one.
pub open spec fn trip_count(trip: Tile<u64>) -> Option<u64> {
    match trip.underlying {
        Some(values) => if values.data@.len() > 0 {
            Some(values.data@[0])
        } else {
            None
        },
        None => None,
    }
}

impl<F1, F2, I> GinaScan<F1, F2, I> {
    /// The element ends its group.
    pub open spec fn ends_group<T>(self, e: Elem<T>) -> bool {
        e matches Elem::ValStop(_, s) && s >= self.rank
    }

    /// The second stream takes part exactly where there is a function for it,
    /// and both streams have the same stops.
    pub open spec fn pairs<T>(self, first: Elem<Tile<T>>, second: Option<Elem<Tile<T>>>) -> bool {
        &&& second is Some <==> self.fn2 is Some
        &&& second matches Some(e) ==> with_value(first, 0int) == with_value(e, 0int)
    }

    /// The trip count of the group that the element belongs to.
    pub open spec fn expected<OT>(self, state: ScanState<OT>, trip: Option<Tile<u64>>) -> Option<
        u64,
    > {
        if state.group_open {
            state.expected_steps
        } else if self.counted {
            trip_count(trip->0)
        } else {
            state.expected_steps
        }
    }

    /// Elements of the group, the current one included.
    pub open spec fn observed<OT>(self, state: ScanState<OT>) -> int {
        if state.group_open {
            state.observed_steps + 1
        } else {
            1
        }
    }

    /// The trip count, where there is one, agrees with the end of the group.
    pub open spec fn count_agrees<T, OT>(
        self,
        state: ScanState<OT>,
        first: Elem<Tile<T>>,
        trip: Option<Tile<u64>>,
    ) -> bool {
        self.expected(state, trip) matches Some(n) ==> if self.ends_group(first) {
            self.observed(state) == n
        } else {
            self.observed(state) < n
        }
    }

    /// Cycles to load the inputs.
    pub open spec fn load_cycles<T>(
        self,
        first: Elem<Tile<T>>,
        second: Option<Elem<Tile<T>>>,
    ) -> int {
        mu_cycles(first.value().read_from_mu, first.value().bytes()) + (match second {
            Some(e) => mu_cycles(e.value().read_from_mu, e.value().bytes()),
            None => 0,
        })
    }

    /// `folded` is what the functions make of the inputs and the accumulator:
    /// the cycles and the next accumulator.
    pub open spec fn folds<T, OT>(
        self,
        first: Tile<T>,
        second: Option<Tile<T>>,
        accumulator: Tile<OT>,
        folded: (u64, Tile<OT>),
    ) -> bool where
        F1: Fn(&Tile<T>, &Tile<OT>, u64, bool) -> (u64, Tile<OT>),
        F2: Fn(&Tile<T>, &Tile<OT>, u64, bool) -> (u64, Tile<OT>),
     {
        let bw = self.config.compute_bw;
        let wb = self.config.write_back_mu;
        match second {
            None => call_ensures(self.fn1, (&first, &accumulator, bw, wb), folded),
            Some(other) => exists|c1: u64, between: Tile<OT>, c2: u64|
                {
                    &&& #[trigger] call_ensures(
                        self.fn1,
                        (&first, &accumulator, bw, wb),
                        (c1, between),
                    )
                    &&& #[trigger] call_ensures(
                        self.fn2->0,
                        (&other, &between, bw, wb),
                        (c2, folded.1),
                    )
                    &&& folded.0 == c1 + c2
                },
        }
    }

    /// The functions can be called, and their cycles can be counted.
    pub open spec fn foldable<T, OT>(
        self,
        first: Tile<T>,
        second: Option<Tile<T>>,
        accumulator: Tile<OT>,
    ) -> bool where
        F1: Fn(&Tile<T>, &Tile<OT>, u64, bool) -> (u64, Tile<OT>),
        F2: Fn(&Tile<T>, &Tile<OT>, u64, bool) -> (u64, Tile<OT>),
     {
        let bw = self.config.compute_bw;
        let wb = self.config.write_back_mu;
        &&& call_requires(self.fn1, (&first, &accumulator, bw, wb))
        &&& second matches Some(other) ==> forall|c1: u64, between: Tile<OT>|
            #[trigger] call_ensures(self.fn1, (&first, &accumulator, bw, wb), (c1, between)) ==> {
                &&& call_requires(self.fn2->0, (&other, &between, bw, wb))
                &&& forall|c2: u64, next: Tile<OT>| #[trigger]
                    call_ensures(self.fn2->0, (&other, &between, bw, wb), (c2, next)) ==> c1 + c2
                        <= u64::MAX
            }
    }

    /// The accumulator that the main stream carries for an element.
    pub open spec fn canonical<OT>(self, prior: Tile<OT>, next: Tile<OT>) -> Tile<OT> {
        if self.paired_out || self.config.inclusive {
            next
        } else {
            prior
        }
    }

    /// What is done for an element, given what the functions made of it.
    pub open spec fn step_result<T, OT>(
        self,
        first: Elem<Tile<T>>,
        second: Option<Elem<Tile<T>>>,
        prior: Tile<OT>,
        folded: (u64, Tile<OT>),
        res: ScanStep<OT>,
    ) -> bool {
        let sent = self.canonical(prior, folded.1);
        &&& res.out == with_value(first, sent)
        &&& res.paired == (if self.paired_out {
            Some(with_value(first, prior))
        } else {
            None
        })
        &&& res.group_end == self.ends_group(first)
        &&& res.cycles == roofline(
            self.load_cycles(first, second),
            folded.0 as int,
            mu_cycles(self.config.write_back_mu, sent.bytes()),
        )
    }

    /// What is done for an element and the next accumulator, given what the
    /// functions made of it: a group that has ended leaves a new one.
    pub open spec fn is_step_with<T, OT>(
        self,
        before: ScanState<OT>,
        first: Elem<Tile<T>>,
        second: Option<Elem<Tile<T>>>,
        after: ScanState<OT>,
        res: ScanStep<OT>,
        folded: (u64, Tile<OT>),
    ) -> bool where
        F1: Fn(&Tile<T>, &Tile<OT>, u64, bool) -> (u64, Tile<OT>),
        F2: Fn(&Tile<T>, &Tile<OT>, u64, bool) -> (u64, Tile<OT>),
        I: Fn() -> Tile<OT>,
     {
        &&& self.folds(
            first.value(),
            match second {
                Some(e) => Some(e.value()),
                None => None,
            },
            before.accumulator,
            folded,
        )
        &&& self.step_result(first, second, before.accumulator, folded, res)
        &&& if self.ends_group(first) {
            call_ensures(self.init, (), after.accumulator)
        } else {
            after.accumulator == folded.1
        }
    }

    /// What is done for an element, and the next accumulator.
    pub open spec fn is_step<T, OT>(
        self,
        before: ScanState<OT>,
        first: Elem<Tile<T>>,
        second: Option<Elem<Tile<T>>>,
        after: ScanState<OT>,
        res: ScanStep<OT>,
    ) -> bool where
        F1: Fn(&Tile<T>, &Tile<OT>, u64, bool) -> (u64, Tile<OT>),
        F2: Fn(&Tile<T>, &Tile<OT>, u64, bool) -> (u64, Tile<OT>),
        I: Fn() -> Tile<OT>,
     {
        exists|folded: (u64, Tile<OT>)| #[trigger]
            self.is_step_with(before, first, second, after, res, folded)
    }

    pub fn new(
        paired_out: bool,
        counted: bool,
        fn1: F1,
        fn2: Option<F2>,
        init: I,
        rank: StopType,
        config: ScanConfig,
        id: u32,
    ) -> (res: Self)
        requires
            rank > 0,
        ensures
            res == (GinaScan { paired_out, counted, fn1, fn2, init, rank, config, id }),
    {
        GinaScan { paired_out, counted, fn1, fn2, init, rank, config, id }
    }

    /// The state before the first element.
    pub fn start<OT>(&self) -> (res: ScanState<OT>) where I: Fn() -> Tile<OT>
        requires
            call_requires(self.init, ()),
        ensures
            call_ensures(self.init, (), res.accumulator),
            !res.group_open,
            res.expected_steps is None,
            res.observed_steps == 0,
    {
        ScanState {
            accumulator: (self.init)(),
            group_open: false,
            expected_steps: None,
            observed_steps: 0,
        }
    }

    /// Whether a trip count has to be read before the next element.
    pub fn needs_trip<OT>(&self, state: &ScanState<OT>) -> (res: bool)
        ensures
            res == (self.counted && !state.group_open),
    {
        self.counted && !state.group_open
    }

    fn fold<T, OT>(
        &self,
        first: &Tile<T>,
        second: Option<&Tile<T>>,
        accumulator: &Tile<OT>,
    ) -> (res: (u64, Tile<OT>)) where
        F1: Fn(&Tile<T>, &Tile<OT>, u64, bool) -> (u64, Tile<OT>),
        F2: Fn(&Tile<T>, &Tile<OT>, u64, bool) -> (u64, Tile<OT>),

        requires
            second is Some <==> self.fn2 is Some,
            self.foldable(
                *first,
                referent(second),
                *accumulator,
            ),
        ensures
            self.folds(
                *first,
                referent(second),
                *accumulator,
                res,
            ),
    {
        let bw: u64 = self.config.compute_bw;
        let wb = self.config.write_back_mu;
        let (c1, between) = (self.fn1)(first, accumulator, bw, wb);
        match (&self.fn2, second) {
            (Some(function), Some(other)) => {
                let (c2, next) = function(other, &between, bw, wb);
                let folded = (c1 + c2, next);
                assert(call_ensures(self.fn1, (&*first, &*accumulator, bw, wb), (c1, between)));
                assert(call_ensures(self.fn2->0, (&*other, &between, bw, wb), (c2, folded.1)));
                assert(folded.0 == c1 + c2);
                folded
            },
            _ => (c1, between),
        }
    }

    /// Takes one element of the first stream, and one of the second where
    /// there is one. `trip` is the trip count tile, where
    /// [`GinaScan::needs_trip`] asks for it.
    pub fn step<T, OT>(
        &self,
        state: &mut ScanState<OT>,
        first: &Elem<Tile<T>>,
        second: Option<&Elem<Tile<T>>>,
        trip: Option<&Tile<u64>>,
    ) -> (res: ScanStep<OT>) where
        F1: Fn(&Tile<T>, &Tile<OT>, u64, bool) -> (u64, Tile<OT>),
        F2: Fn(&Tile<T>, &Tile<OT>, u64, bool) -> (u64, Tile<OT>),
        I: Fn() -> Tile<OT>,

        requires
            self.rank > 0,
            self.pairs(
                *first,
                referent(second),
            ),
            self.counted && !old(state).group_open ==> trip is Some,
            old(state).group_open ==> old(state).observed_steps < u64::MAX,
            self.count_agrees(
                *old(state),
                *first,
                referent(trip),
            ),
            first.value().read_from_mu ==> first.value().sized(),
            second matches Some(e) ==> (e.value().read_from_mu ==> e.value().sized()),
            self.foldable(
                first.value(),
                opt_value(second),
                old(state).accumulator,
            ),
            self.config.write_back_mu ==> forall|folded: (u64, Tile<OT>)|
                #[trigger] self.folds(
                    first.value(),
                    opt_value(second),
                    old(state).accumulator,
                    folded,
                ) ==> self.canonical(old(state).accumulator, folded.1).sized(),
            self.ends_group(*first) ==> call_requires(self.init, ()),
        ensures
            self.is_step(*old(state), *first, referent(second), *final(state), res),
            final(state).group_open == !self.ends_group(*first),
            final(state).observed_steps == self.observed(*old(state)),
            final(state).expected_steps == (if self.ends_group(*first) {
                None
            } else {
                self.expected(
                    *old(state),
                    referent(trip),
                )
            }),
    {
        if !state.group_open {
            if self.counted {
                if let Some(tile) = trip {
                    state.expected_steps = match &tile.underlying {
                        Some(values) => if values.data.len() > 0 {
                            Some(values.data[0])
                        } else {
                            None
                        },
                        None => None,
                    };
                }
            }
            state.observed_steps = 0;
            state.group_open = true;
        }
        let (data1, stop) = match first {
            Elem::Val(data) => (data, None),
            Elem::ValStop(data, level) => (data, Some(*level)),
        };
        let data2: Option<&Tile<T>> = match second {
            Some(Elem::Val(data)) => Some(data),
            Some(Elem::ValStop(data, _)) => Some(data),
            None => None,
        };
        let load1: u64 = transfer_cycles(data1, data1.read_from_mu);
        let load2: u64 = match data2 {
            Some(data) => transfer_cycles(data, data.read_from_mu),
            None => 0,
        };
        let load: u64 = load1 + load2;
        let prior = state.accumulator.clone();
        let (compute, next) = self.fold(data1, data2, &prior);
        let ghost folded = (compute, next);
        let group_end = match stop {
            Some(level) => level >= self.rank,
            None => false,
        };
        state.observed_steps = state.observed_steps + 1;
        let canonical = if self.paired_out || self.config.inclusive {
            next.clone()
        } else {
            prior.clone()
        };
        assert(self.folds(
            first.value(),
            opt_value(second),
            old(state).accumulator,
            folded,
        ));
        let store: u64 = transfer_cycles(&canonical, self.config.write_back_mu);
        let cycles: u64 = roofline_cycles(load, compute, store);
        if group_end {
            state.accumulator = (self.init)();
            state.group_open = false;
            state.expected_steps = None;
        } else {
            state.accumulator = next;
        }
        let paired = if self.paired_out {
            Some(attach_stop(prior, stop))
        } else {
            None
        };
        let step = ScanStep { cycles, out: attach_stop(canonical, stop), paired, group_end };
        assert(self.is_step_with(*old(state), *first, referent(second), *state, step, folded));
        step
    }
}

impl<F1, F2, I> GinaScan<F1, F2, I> {
    /// `prior` and `next` list the accumulators before and after each element,
    /// `compute` the cycles that the functions took: every group begins with a
    /// new accumulator and goes on with the last one.
    pub open spec fn is_trace<T, OT>(
        self,
        in1: Seq<Elem<Tile<T>>>,
        in2: Option<Seq<Elem<Tile<T>>>>,
        prior: Seq<Tile<OT>>,
        next: Seq<Tile<OT>>,
        compute: Seq<u64>,
    ) -> bool where
        F1: Fn(&Tile<T>, &Tile<OT>, u64, bool) -> (u64, Tile<OT>),
        F2: Fn(&Tile<T>, &Tile<OT>, u64, bool) -> (u64, Tile<OT>),
        I: Fn() -> Tile<OT>,
     {
        &&& prior.len() == in1.len()
        &&& next.len() == in1.len()
        &&& compute.len() == in1.len()
        &&& forall|k: int|
            0 <= k < in1.len() ==> self.folds(
                in1[k].value(),
                match in2 {
                    Some(second) => Some(second[k].value()),
                    None => None,
                },
                #[trigger] prior[k],
                (compute[k], next[k]),
            )
        &&& forall|k: int|
            0 <= k < in1.len() && (k == 0 || self.ends_group(in1[k - 1])) ==> call_ensures(
                self.init,
                (),
                #[trigger] prior[k],
            )
        &&& forall|k: int|
            0 < k < in1.len() && !self.ends_group(in1[k - 1]) ==> #[trigger] prior[k] == next[k
                - 1]
    }
}

/// Within a group, an exclusive scan sends for each element what an inclusive
/// scan sends for the one before it, and a paired scan sends both.
pub proof fn law_exclusive_follows_inclusive<F1, F2, I, T, OT>(
    inclusive: GinaScan<F1, F2, I>,
    exclusive: GinaScan<F1, F2, I>,
    paired: GinaScan<F1, F2, I>,
    in1: Seq<Elem<Tile<T>>>,
    in2: Option<Seq<Elem<Tile<T>>>>,
    prior: Seq<Tile<OT>>,
    next: Seq<Tile<OT>>,
    compute: Seq<u64>,
    k: int,
) where
    F1: Fn(&Tile<T>, &Tile<OT>, u64, bool) -> (u64, Tile<OT>),
    F2: Fn(&Tile<T>, &Tile<OT>, u64, bool) -> (u64, Tile<OT>),
    I: Fn() -> Tile<OT>,

    requires
        inclusive.config.inclusive,
        !exclusive.config.inclusive,
        !exclusive.paired_out,
        paired.paired_out,
        inclusive.is_trace(in1, in2, prior, next, compute),
        0 < k < in1.len(),
        !inclusive.ends_group(in1[k - 1]),
    ensures
        exclusive.canonical(prior[k], next[k]) == inclusive.canonical(prior[k - 1], next[k - 1]),
        paired.canonical(prior[k], next[k]) == inclusive.canonical(prior[k], next[k]),
        prior[k] == exclusive.canonical(prior[k], next[k]),
{
}

/// The second element of a pair of streams, where there is a second stream.
pub open spec fn second_at<T>(in2: Option<Seq<Elem<Tile<T>>>>, k: int) -> Option<Elem<Tile<T>>> {
    match in2 {
        Some(second) => Some(second[k]),
        None => None,
    }
}

/// The accumulators of the first `n` states.
pub open spec fn accumulators<OT>(states: Seq<ScanState<OT>>, n: nat) -> Seq<Tile<OT>> {
    Seq::new(n, |k: int| states[k].accumulator)
}

/// A run of steps scans: the accumulators that it goes through begin anew with
/// each group and are folded element by element, and every step sends what
/// the scan is to send of them.
pub proof fn law_steps_scan<F1, F2, I, T, OT>(
    op: GinaScan<F1, F2, I>,
    in1: Seq<Elem<Tile<T>>>,
    in2: Option<Seq<Elem<Tile<T>>>>,
    states: Seq<ScanState<OT>>,
    results: Seq<ScanStep<OT>>,
) where
    F1: Fn(&Tile<T>, &Tile<OT>, u64, bool) -> (u64, Tile<OT>),
    F2: Fn(&Tile<T>, &Tile<OT>, u64, bool) -> (u64, Tile<OT>),
    I: Fn() -> Tile<OT>,

    requires
        states.len() == in1.len() + 1,
        results.len() == in1.len(),
        call_ensures(op.init, (), states[0].accumulator),
        forall|k: int|
            0 <= k < in1.len() ==> op.is_step(
                states[k],
                in1[k],
                second_at(in2, k),
                states[k + 1],
                #[trigger] results[k],
            ),
    ensures
        exists|next: Seq<Tile<OT>>, compute: Seq<u64>|
            {
                &&& #[trigger] op.is_trace(
                    in1,
                    in2,
                    accumulators(states, in1.len()),
                    next,
                    compute,
                )
                &&& forall|k: int|
                    0 <= k < in1.len() ==> op.step_result(
                        in1[k],
                        second_at(in2, k),
                        states[k].accumulator,
                        (compute[k], next[k]),
                        #[trigger] results[k],
                    )
            },
{
    let prior = accumulators(states, in1.len());
    let folded = Seq::new(
        in1.len(),
        |k: int|
            choose|folded: (u64, Tile<OT>)| #[trigger]
                op.is_step_with(
                    states[k],
                    in1[k],
                    second_at(in2, k),
                    states[k + 1],
                    results[k],
                    folded,
                ),
    );
    let next = folded.map_values(|f: (u64, Tile<OT>)| f.1);
    let compute = folded.map_values(|f: (u64, Tile<OT>)| f.0);
    assert forall|k: int| 0 <= k < in1.len() implies op.is_step_with(
        states[k],
        in1[k],
        second_at(in2, k),
        states[k + 1],
        #[trigger] results[k],
        (compute[k], next[k]),
    ) by {
        assert(op.is_step(states[k], in1[k], second_at(in2, k), states[k + 1], results[k]));
        assert(folded[k] == (compute[k], next[k]));
    }
    assert forall|k: int| 0 <= k < in1.len() implies op.folds(
        in1[k].value(),
        match in2 {
            Some(second) => Some(second[k].value()),
            None => None,
        },
        #[trigger] prior[k],
        (compute[k], next[k]),
    ) by {
        assert(op.is_step_with(
            states[k],
            in1[k],
            second_at(in2, k),
            states[k + 1],
            results[k],
            (compute[k], next[k]),
        ));
    }
    assert forall|k: int|
        0 <= k < in1.len() && (k == 0 || op.ends_group(in1[k - 1])) implies call_ensures(
        op.init,
        (),
        #[trigger] prior[k],
    ) by {
        if k > 0 {
            assert(op.is_step_with(
                states[k - 1],
                in1[k - 1],
                second_at(in2, k - 1),
                states[k - 1 + 1],
                results[k - 1],
                (compute[k - 1], next[k - 1]),
            ));
        }
    }
    assert forall|k: int|
        0 < k < in1.len() && !op.ends_group(in1[k - 1]) implies #[trigger] prior[k] == next[k
        - 1] by {
        assert(op.is_step_with(
            states[k - 1],
            in1[k - 1],
            second_at(in2, k - 1),
            states[k - 1 + 1],
            results[k - 1],
            (compute[k - 1], next[k - 1]),
        ));
    }
    assert(op.is_trace(in1, in2, prior, next, compute));
}

/// The functions fold a pair of values into an accumulator: the function for
/// the first stream takes the accumulator, and the one for the second stream
/// takes what the first one left. `compute` are the cycles of both.
pub open spec fn folded_by<F1, F2, I, T, OT>(
    op: GinaScan<F1, F2, I>,
    first: Tile<T>,
    second: Option<Tile<T>>,
    acc: Tile<OT>,
    compute: int,
    next: Tile<OT>,
) -> bool where
    F1: Fn(&Tile<T>, &Tile<OT>, u64, bool) -> (u64, Tile<OT>),
    F2: Fn(&Tile<T>, &Tile<OT>, u64, bool) -> (u64, Tile<OT>),
 {
    let bw = op.config.compute_bw;
    let wb = op.config.write_back_mu;
    exists|c1: u64, between: Tile<OT>|
        {
            &&& #[trigger] call_ensures(op.fn1, (&first, &acc, bw, wb), (c1, between))
            &&& match second {
                None => compute == c1 && next == between,
                Some(other) => exists|c2: u64|
                    {
                        &&& #[trigger] call_ensures(
                            op.fn2->0,
                            (&other, &between, bw, wb),
                            (c2, next),
                        )
                        &&& compute == c1 + c2
                    },
            }
        }
}

/// The value of the element of the second stream, where there is one.
pub open spec fn second_value<T>(second: Option<Elem<Tile<T>>>) -> Option<Tile<T>> {
    match second {
        Some(e) => Some(e.value()),
        None => None,
    }
}

/// One call of a scan: the accumulator is folded and carried on, or begins
/// anew behind the end of a group. The main stream carries the accumulator
/// after the element, or the one before it if the scan is exclusive and not
/// paired; a paired scan sends the one before it on the other stream. Both
/// carry the stops of the input, and the slowest of loading, computing and
/// storing decides the cycles.
pub proof fn law_scan_call<F1, F2, I, T, OT>(
    op: GinaScan<F1, F2, I>,
    before: ScanState<OT>,
    first: Elem<Tile<T>>,
    second: Option<Elem<Tile<T>>>,
    after: ScanState<OT>,
    res: ScanStep<OT>,
) where
    F1: Fn(&Tile<T>, &Tile<OT>, u64, bool) -> (u64, Tile<OT>),
    F2: Fn(&Tile<T>, &Tile<OT>, u64, bool) -> (u64, Tile<OT>),
    I: Fn() -> Tile<OT>,

    requires
        op.is_step(before, first, second, after, res),
    ensures
        exists|compute: int, next: Tile<OT>|
            {
                let sent = if op.paired_out || op.config.inclusive {
                    next
                } else {
                    before.accumulator
                };
                let load = tile_cycles(first.value().read_from_mu, first.value()) + (match second {
                    Some(e) => tile_cycles(e.value().read_from_mu, e.value()),
                    None => 0,
                });
                &&& #[trigger] folded_by(
                    op,
                    first.value(),
                    second_value(second),
                    before.accumulator,
                    compute,
                    next,
                )
                &&& res.out.value() == sent
                &&& res.cycles == vstd::math::max(
                    vstd::math::max(load, compute),
                    tile_cycles(op.config.write_back_mu, sent),
                )
                &&& first is ValStop && first.level() >= op.rank ==> call_ensures(
                    op.init,
                    (),
                    after.accumulator,
                )
                &&& !(first is ValStop && first.level() >= op.rank) ==> after.accumulator == next
            },
        res.out is ValStop <==> first is ValStop,
        res.out.level() == first.level(),
        res.paired is Some <==> op.paired_out,
        res.paired matches Some(e) ==> e.value() == before.accumulator && (e is ValStop <==> first
            is ValStop) && e.level() == first.level(),
        res.group_end <==> first is ValStop && first.level() >= op.rank,
{
    let folded = choose|folded: (u64, Tile<OT>)| #[trigger]
        op.is_step_with(before, first, second, after, res, folded);
    assert(op.is_step(before, first, second, after, res));
    assert(op.is_step_with(before, first, second, after, res, folded));
    lemma_tile_cycles(first.value().read_from_mu, first.value());
    if let Some(e) = second {
        lemma_tile_cycles(e.value().read_from_mu, e.value());
    }
    lemma_tile_cycles(op.config.write_back_mu, op.canonical(before.accumulator, folded.1));
    assert(folded_by(
        op,
        first.value(),
        second_value(second),
        before.accumulator,
        folded.0 as int,
        folded.1,
    ));
}

/// A group is open from its first element until one closes its rank. Its
/// elements are counted from one on, and the count that was read for it, where
/// there is one, is kept until it ends.
pub proof fn law_scan_counts_group<F1, F2, I, T, OT>(
    op: GinaScan<F1, F2, I>,
    first: Elem<Tile<T>>,
    second: Option<&Elem<Tile<T>>>,
    trip: Option<&Tile<u64>>,
) where
    F1: Fn(&Tile<T>, &Tile<OT>, u64, bool) -> (u64, Tile<OT>),
    F2: Fn(&Tile<T>, &Tile<OT>, u64, bool) -> (u64, Tile<OT>),
    I: Fn() -> Tile<OT>,

    ensures
        forall|state: &mut ScanState<OT>, res: ScanStep<OT>| #[trigger]
            call_ensures(
                GinaScan::<F1, F2, I>::step::<T, OT>,
                (&op, state, &first, second, trip),
                res,
            ) ==> {
                let ends = first is ValStop && first.level() >= op.rank;
                let after = *final(state);
                &&& res.group_end == ends
                &&& after.group_open == !ends
                &&& after.observed_steps == (if state.group_open {
                    state.observed_steps + 1
                } else {
                    1
                })
                &&& ends ==> after.expected_steps is None
                &&& !ends && (state.group_open || !op.counted) ==> after.expected_steps
                    == state.expected_steps
                &&& !ends && !state.group_open && op.counted && trip is Some
                    && trip->0.underlying is Some && trip->0.underlying->0.data@.len() > 0
                    ==> after.expected_steps == Some(trip->0.underlying->0.data@[0])
            },
{
    assert forall|state: &mut ScanState<OT>, res: ScanStep<OT>| #[trigger]
        call_ensures(
            GinaScan::<F1, F2, I>::step::<T, OT>,
            (&op, state, &first, second, trip),
            res,
        ) implies res.group_end == (first is ValStop && first.level() >= op.rank) by {
        let folded = choose|folded: (u64, Tile<OT>)| #[trigger]
            op.is_step_with(*state, first, referent(second), *final(state), res, folded);
        assert(op.is_step_with(*state, first, referent(second), *final(state), res, folded));
    }
}

/// A run of steps of a scan over a stream.
pub open spec fn scan_run<F1, F2, I, T, OT>(
    op: GinaScan<F1, F2, I>,
    in1: Seq<Elem<Tile<T>>>,
    in2: Seq<Option<Elem<Tile<T>>>>,
    states: Seq<ScanState<OT>>,
    results: Seq<ScanStep<OT>>,
) -> bool where
    F1: Fn(&Tile<T>, &Tile<OT>, u64, bool) -> (u64, Tile<OT>),
    F2: Fn(&Tile<T>, &Tile<OT>, u64, bool) -> (u64, Tile<OT>),
    I: Fn() -> Tile<OT>,
 {
    &&& in2.len() == in1.len()
    &&& states.len() == in1.len() + 1
    &&& results.len() == in1.len()
    &&& call_ensures(GinaScan::<F1, F2, I>::start::<OT>, (&op,), states[0])
    &&& forall|k: int|
        0 <= k < in1.len() ==> op.is_step(
            states[k],
            in1[k],
            in2[k],
            states[k + 1],
            #[trigger] results[k],
        )
}

/// A paired scan sends for element `k`, on its second stream, the accumulator
/// that the element started from: a new one for the first element of a group,
/// and otherwise what the main stream carried for the element before it.
pub proof fn law_paired_stream_is_exclusive<F1, F2, I, T, OT>(
    op: GinaScan<F1, F2, I>,
    in1: Seq<Elem<Tile<T>>>,
    in2: Seq<Option<Elem<Tile<T>>>>,
    states: Seq<ScanState<OT>>,
    results: Seq<ScanStep<OT>>,
    k: int,
) where
    F1: Fn(&Tile<T>, &Tile<OT>, u64, bool) -> (u64, Tile<OT>),
    F2: Fn(&Tile<T>, &Tile<OT>, u64, bool) -> (u64, Tile<OT>),
    I: Fn() -> Tile<OT>,

    requires
        op.paired_out,
        scan_run(op, in1, in2, states, results),
        0 <= k < in1.len(),
    ensures
        results[k].paired is Some,
        k == 0 || results[k - 1].group_end ==> call_ensures(
            op.init,
            (),
            results[k].paired->0.value(),
        ),
        k > 0 && !results[k - 1].group_end ==> results[k].paired->0.value() == results[k
            - 1].out.value(),
        exists|compute: int| #[trigger]
            folded_by(
                op,
                in1[k].value(),
                second_value(in2[k]),
                results[k].paired->0.value(),
                compute,
                results[k].out.value(),
            ),
{
    assert(op.is_step(states[k], in1[k], in2[k], states[k + 1], results[k]));
    law_scan_call(op, states[k], in1[k], in2[k], states[k + 1], results[k]);
    if k > 0 {
        let p = k - 1;
        assert(op.is_step(states[p], in1[p], in2[p], states[p + 1], results[p]));
        law_scan_call(op, states[p], in1[p], in2[p], states[p + 1], results[p]);
    }
}

/// A scan that is not paired: an inclusive one sends for element `k` the
/// element folded into what was sent for the one before it, or into a new
/// accumulator at the beginning of a group. An exclusive one sends a new
/// accumulator at the beginning of a group, and otherwise the element before
/// folded into what was sent for that.
pub proof fn law_single_stream_scans<F1, F2, I, T, OT>(
    op: GinaScan<F1, F2, I>,
    in1: Seq<Elem<Tile<T>>>,
    in2: Seq<Option<Elem<Tile<T>>>>,
    states: Seq<ScanState<OT>>,
    results: Seq<ScanStep<OT>>,
    k: int,
) where
    F1: Fn(&Tile<T>, &Tile<OT>, u64, bool) -> (u64, Tile<OT>),
    F2: Fn(&Tile<T>, &Tile<OT>, u64, bool) -> (u64, Tile<OT>),
    I: Fn() -> Tile<OT>,

    requires
        !op.paired_out,
        scan_run(op, in1, in2, states, results),
        0 <= k < in1.len(),
    ensures
        results[k].paired is None,
        op.config.inclusive ==> exists|compute: int, from: Tile<OT>|
            {
                &&& #[trigger] folded_by(
                    op,
                    in1[k].value(),
                    second_value(in2[k]),
                    from,
                    compute,
                    results[k].out.value(),
                )
                &&& if k == 0 || results[k - 1].group_end {
                    call_ensures(op.init, (), from)
                } else {
                    from == results[k - 1].out.value()
                }
            },
        !op.config.inclusive && (k == 0 || results[k - 1].group_end) ==> call_ensures(
            op.init,
            (),
            results[k].out.value(),
        ),
        !op.config.inclusive && k > 0 && !results[k - 1].group_end ==> exists|compute: int|
         #[trigger]
            folded_by(
                op,
                in1[k - 1].value(),
                second_value(in2[k - 1]),
                results[k - 1].out.value(),
                compute,
                results[k].out.value(),
            ),
{
    assert(op.is_step(states[k], in1[k], in2[k], states[k + 1], results[k]));
    law_scan_call(op, states[k], in1[k], in2[k], states[k + 1], results[k]);
    if k > 0 {
        let p = k - 1;
        assert(op.is_step(states[p], in1[p], in2[p], states[p + 1], results[p]));
        law_scan_call(op, states[p], in1[p], in2[p], states[p + 1], results[p]);
    }
}

} // verus!
