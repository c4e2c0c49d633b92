//! Routing groups of a stream to selected outputs.

use vstd::prelude::*;

use crate::primitives::elem::{
    mu_cycles, packed, transfer_cycles, Bufferizable, Elem, StopType,
};
use crate::primitives::select::{as_ints, sel_vec, SelectAdapter};

verus! {

/// How an operator that routes data is built: the cycles to switch to each
/// output, and whether the output is written to a memory unit.
#[derive(Debug)]
pub struct FlatPartitionConfig {
    pub switch_cycles: Vec<u64>,
    pub write_back_mu: bool,
}

/// Sends each group of rank `partition_rank` to the outputs that an element
/// of a select stream names.
#[derive(Debug)]
pub struct FlatPartition {
    pub outputs: usize,
    pub partition_rank: StopType,
    pub config: FlatPartitionConfig,
    pub id: u32,
}

/// The outputs for a group, and the stop with which the group has to end, if
/// the select element closes anything.
#[derive(Debug, PartialEq, Eq)]
pub struct Selection {
    pub experts: Vec<usize>,
    pub expected_stop: Option<StopType>,
}

/// What is done for an element of a group: it is loaded, taken, written and
/// sent to every selected output. `done` ends the group.
#[derive(Debug, PartialEq, Eq)]
pub struct PartitionStep<A> {
    pub load_cycles: u64,
    pub write_cycles: u64,
    pub data: Elem<A>,
    pub done: bool,
}

/// The largest of the switch cycles of the first `n` selected outputs.
pub open spec fn slowest_switch(switch_cycles: Seq<u64>, experts: Seq<usize>, n: nat) -> u64
    decreases n,
{
    if n == 0 {
        0
    } else {
        let before = slowest_switch(switch_cycles, experts, (n - 1) as nat);
        let this = switch_cycles[experts[n - 1] as int];
        if this > before {
            this
        } else {
            before
        }
    }
}

impl FlatPartition {
    /// Every output has its switch cycles.
    pub open spec fn wf(self) -> bool {
        self.config.switch_cycles@.len() == self.outputs
    }

    /// The selected outputs exist.
    pub open spec fn selection_ok(self, selection: Selection) -> bool {
        forall|k: int|
            0 <= k < selection.experts@.len() ==> #[trigger] selection.experts@[k] < self.outputs
    }

    /// The stop of the group is the one that the selection expects, or no
    /// larger than the group's rank.
    pub open spec fn accepts<A>(self, selection: Selection, e: Elem<A>) -> bool {
        e is ValStop ==> match selection.expected_stop {
            Some(expected) => e.level() == expected,
            None => e.level() <= self.partition_rank,
        }
    }

    /// The element ends its group.
    pub open spec fn ends<A>(self, selection: Selection, e: Elem<A>) -> bool {
        match e {
            Elem::Val(_) => self.partition_rank == 0,
            Elem::ValStop(_, s) => s == self.partition_rank || selection.expected_stop == Some(s),
        }
    }

    /// What the selected outputs receive: the value where the outputs keep
    /// their data, closing no more than the group.
    pub open spec fn sent<A: Bufferizable>(self, selection: Selection, e: Elem<A>) -> Elem<A> {
        let value = e.value().placed(self.config.write_back_mu);
        match e {
            Elem::Val(_) => Elem::Val(value),
            Elem::ValStop(_, s) => packed(
                value,
                if selection.expected_stop is Some {
                    self.partition_rank
                } else {
                    s
                },
            ),
        }
    }

    /// Cycles to write an element to the selected outputs.
    pub open spec fn write_cycles<A: Bufferizable>(self, selection: Selection, e: Elem<A>) -> int {
        slowest_switch(
            self.config.switch_cycles@,
            selection.experts@,
            selection.experts@.len(),
        ) + mu_cycles(self.config.write_back_mu, e.value().byte_size())
    }

    pub fn new(
        outputs: usize,
        partition_rank: StopType,
        config: FlatPartitionConfig,
        id: u32,
    ) -> (res: Self)
        ensures
            res == (FlatPartition { outputs, partition_rank, config, id }),
    {
        FlatPartition { outputs, partition_rank, config, id }
    }

    /// The selection for the next group.
    pub fn select<S: SelectAdapter>(&self, sel: &Elem<S>) -> (res: Selection)
        requires
            sel is ValStop ==> sel.level() + self.partition_rank <= StopType::MAX,
        ensures
            as_ints(res.experts@) == sel_vec(sel.value().flags()),
            res.expected_stop == (match *sel {
                Elem::Val(_) => None,
                Elem::ValStop(_, s) => Some((s + self.partition_rank) as StopType),
            }),
    {
        match sel {
            Elem::Val(s) => Selection { experts: s.to_sel_vec(), expected_stop: None },
            Elem::ValStop(s, level) => Selection {
                experts: s.to_sel_vec(),
                expected_stop: Some(*level + self.partition_rank),
            },
        }
    }

    fn slowest(&self, experts: &Vec<usize>) -> (res: u64)
        requires
            self.wf(),
            forall|k: int| 0 <= k < experts@.len() ==> #[trigger] experts@[k] < self.outputs,
        ensures
            res == slowest_switch(self.config.switch_cycles@, experts@, experts@.len()),
    {
        let mut cycles: u64 = 0;
        let mut k: usize = 0;
        while k < experts.len()
            invariant
                self.wf(),
                forall|k: int| 0 <= k < experts@.len() ==> #[trigger] experts@[k] < self.outputs,
                k <= experts@.len(),
                cycles == slowest_switch(self.config.switch_cycles@, experts@, k as nat),
            decreases experts@.len() - k,
        {
            if self.config.switch_cycles[experts[k]] > cycles {
                cycles = self.config.switch_cycles[experts[k]];
            }
            k = k + 1;
        }
        cycles
    }

    /// Takes one element of a group.
    pub fn step<A: Bufferizable>(&self, selection: &Selection, elem: &Elem<A>) -> (res:
        PartitionStep<A>)
        requires
            self.wf(),
            self.selection_ok(*selection),
            self.accepts(*selection, *elem),
            elem.value().in_mu() || self.config.write_back_mu ==> elem.value().measurable(),
            self.write_cycles(*selection, *elem) <= u64::MAX,
        ensures
            res.load_cycles == mu_cycles(elem.value().in_mu(), elem.value().byte_size()),
            res.write_cycles == self.write_cycles(*selection, *elem),
            res.data == self.sent(*selection, *elem),
            res.done == self.ends(*selection, *elem),
    {
        let (value, data, done) = match elem {
            Elem::Val(x) => {
                let placed = x.clone_with_updated_read_from_mu(self.config.write_back_mu);
                (x, Elem::Val(placed), self.partition_rank == 0)
            },
            Elem::ValStop(x, s) => {
                let placed = x.clone_with_updated_read_from_mu(self.config.write_back_mu);
                let (level, expected) = match selection.expected_stop {
                    Some(expected) => (self.partition_rank, expected == *s),
                    None => (*s, false),
                };
                let data = if level == 0 {
                    Elem::Val(placed)
                } else {
                    Elem::ValStop(placed, level)
                };
                (x, data, *s == self.partition_rank || expected)
            },
        };
        let load_cycles: u64 = transfer_cycles(value, value.read_from_mu());
        let switch: u64 = self.slowest(&selection.experts);
        let store: u64 = transfer_cycles(value, self.config.write_back_mu);
        PartitionStep { load_cycles, write_cycles: switch + store, data, done }
    }
}

impl FlatPartition {
    /// The elements make up one group: only the last ends it.
    pub open spec fn is_group<A>(self, selection: Selection, group: Seq<Elem<A>>) -> bool {
        &&& group.len() > 0
        &&& forall|k: int|
            0 <= k < group.len() ==> self.accepts(selection, #[trigger] group[k]) && (self.ends(
                selection,
                group[k],
            ) <==> k == group.len() - 1)
    }

    /// The cycles for an element can be counted.
    pub open spec fn priceable<A: Bufferizable>(self, selection: Selection, e: Elem<A>) -> bool {
        &&& e.value().in_mu() || self.config.write_back_mu ==> e.value().measurable()
        &&& self.write_cycles(selection, e) <= u64::MAX
    }

    /// What is done for an element.
    pub open spec fn step_of<A: Bufferizable>(self, selection: Selection, e: Elem<A>) -> PartitionStep<
        A,
    > {
        PartitionStep {
            load_cycles: mu_cycles(e.value().in_mu(), e.value().byte_size()) as u64,
            write_cycles: self.write_cycles(selection, e) as u64,
            data: self.sent(selection, e),
            done: self.ends(selection, e),
        }
    }

    /// Takes a whole group: what is done for each of its elements.
    pub fn process_input_stream<A: Bufferizable>(
        &self,
        selection: &Selection,
        group: &Vec<Elem<A>>,
    ) -> (res: Vec<PartitionStep<A>>)
        requires
            self.wf(),
            self.selection_ok(*selection),
            self.is_group(*selection, group@),
            forall|k: int|
                0 <= k < group@.len() ==> self.priceable(*selection, #[trigger] group@[k]),
        ensures
            res@ == group@.map_values(|e: Elem<A>| self.step_of(*selection, e)),
    {
        let ghost ideal = group@.map_values(|e: Elem<A>| self.step_of(*selection, e));
        let mut out: Vec<PartitionStep<A>> = Vec::new();
        let mut k: usize = 0;
        while k < group.len()
            invariant
                self.wf(),
                self.selection_ok(*selection),
                self.is_group(*selection, group@),
                forall|k: int|
                    0 <= k < group@.len() ==> self.priceable(*selection, #[trigger] group@[k]),
                k <= group@.len(),
                ideal == group@.map_values(|e: Elem<A>| self.step_of(*selection, e)),
                out@ == ideal.take(k as int),
            decreases group@.len() - k,
        {
            assert(self.priceable(*selection, group@[k as int]));
            assert(self.accepts(*selection, group@[k as int]));
            let step = self.step(selection, &group[k]);
            assert(step == self.step_of(*selection, group@[k as int]));
            out.push(step);
            assert(out@ =~= ideal.take(k + 1));
            k = k + 1;
        }
        assert(ideal.take(k as int) =~= ideal);
        out
    }
}

/// The switch of every selected output has been waited for.
pub proof fn law_slowest_switch_covers(
    switch_cycles: Seq<u64>,
    experts: Seq<usize>,
    n: nat,
    k: int,
)
    requires
        n <= experts.len(),
        0 <= k < n,
    ensures
        slowest_switch(switch_cycles, experts, n) >= switch_cycles[experts[k] as int],
    decreases n,
{
    if k < n - 1 {
        law_slowest_switch_covers(switch_cycles, experts, (n - 1) as nat, k);
    }
}

/// The slowest switch is that of one of the outputs that are switched to.
proof fn lemma_slowest_is_one(switch_cycles: Seq<u64>, experts: Seq<usize>, n: nat)
    requires
        n <= experts.len(),
    ensures
        slowest_switch(switch_cycles, experts, n) == 0 || exists|k: int|
            0 <= k < n && switch_cycles[#[trigger] experts[k] as int] == slowest_switch(
                switch_cycles,
                experts,
                n,
            ),
    decreases n,
{
    if n > 0 {
        lemma_slowest_is_one(switch_cycles, experts, (n - 1) as nat);
        assert(switch_cycles[experts[n - 1] as int] >= 0);
    }
}

/// An element of a partitioned group: it is loaded from a memory unit at 512
/// bytes per cycle. It is written once the slowest of the selected outputs has
/// been switched to, at the same rate where it goes to a memory unit. It keeps
/// its value. It closes what it closed, or just the rank of the partition where
/// the select element closes something itself.
pub proof fn law_partitioned_element<A: Bufferizable>(
    op: FlatPartition,
    selection: Selection,
    e: Elem<A>,
    res: PartitionStep<A>,
)
    requires
        op.accepts(selection, e),
        e.value().byte_size() >= 0,
        call_ensures(FlatPartition::step::<A>, (&op, &selection, &e), res),
    ensures
        res.load_cycles == (if e.value().in_mu() {
            (e.value().byte_size() + 511) / 512
        } else {
            0
        }),
        ({
            let switch = res.write_cycles - (if op.config.write_back_mu {
                (e.value().byte_size() + 511) / 512
            } else {
                0
            });
            &&& forall|k: int|
                0 <= k < selection.experts@.len()
                    ==> op.config.switch_cycles@[#[trigger] selection.experts@[k] as int] <= switch
            &&& switch == 0 || exists|k: int|
                0 <= k < selection.experts@.len()
                    && op.config.switch_cycles@[#[trigger] selection.experts@[k] as int] == switch
        }),
        res.data.value() == e.value().placed(op.config.write_back_mu),
        selection.expected_stop is None ==> res.data.level() == e.level(),
        selection.expected_stop is Some ==> res.data.level() == (if e is ValStop {
            op.partition_rank as int
        } else {
            0
        }),
        res.data is Val <==> res.data.level() == 0,
        res.done <==> e.level() == op.partition_rank || (e is ValStop && selection.expected_stop
            is Some),
{
    let experts = selection.experts@;
    let cycles = op.config.switch_cycles@;
    let slowest = slowest_switch(cycles, experts, experts.len());
    lemma_slowest_is_one(cycles, experts, experts.len());
    assert forall|k: int| 0 <= k < experts.len() implies cycles[#[trigger] experts[k] as int]
        <= slowest by {
        law_slowest_switch_covers(cycles, experts, experts.len(), k);
    }
}

/// A select element names the outputs whose flags are set. A stop on it tells
/// that the group ends with a stop that is higher by the rank of the partition.
pub proof fn law_selection_names_outputs<S: SelectAdapter>(
    op: FlatPartition,
    sel: Elem<S>,
    res: Selection,
)
    requires
        call_ensures(FlatPartition::select::<S>, (&op, &sel), res),
        sel.level() + op.partition_rank <= StopType::MAX,
    ensures
        as_ints(res.experts@) == sel_vec(sel.value().flags()),
        res.expected_stop is Some <==> sel is ValStop,
        res.expected_stop matches Some(level) ==> level == sel.level() + op.partition_rank,
{
}

/// A whole group is partitioned element by element: one step for each, and the
/// last one alone ends the group.
pub proof fn law_partitioned_group<A: Bufferizable>(
    op: FlatPartition,
    selection: Selection,
    group: Vec<Elem<A>>,
    steps: Vec<PartitionStep<A>>,
    k: int,
)
    requires
        op.is_group(selection, group@),
        0 <= k < group@.len(),
        op.priceable(selection, group@[k]),
        0 <= group@[k].value().byte_size() <= usize::MAX,
        call_ensures(
            FlatPartition::process_input_stream::<A>,
            (&op, &selection, &group),
            steps,
        ),
    ensures
        ({
            let e = group@[k];
            let step = steps@[k];
            let switch = step.write_cycles - (if op.config.write_back_mu {
                (e.value().byte_size() + 511) / 512
            } else {
                0
            });
            &&& steps@.len() == group@.len()
            &&& step.load_cycles == (if e.value().in_mu() {
                (e.value().byte_size() + 511) / 512
            } else {
                0
            })
            &&& forall|i: int|
                0 <= i < selection.experts@.len()
                    ==> op.config.switch_cycles@[#[trigger] selection.experts@[i] as int] <= switch
            &&& switch == 0 || exists|i: int|
                0 <= i < selection.experts@.len()
                    && op.config.switch_cycles@[#[trigger] selection.experts@[i] as int] == switch
            &&& step.data.value() == e.value().placed(op.config.write_back_mu)
            &&& step.data.level() == (if selection.expected_stop is Some && e is ValStop {
                op.partition_rank as int
            } else {
                e.level()
            })
            &&& step.done <==> k == group@.len() - 1
        }),
{
    let e = group@[k];
    let experts = selection.experts@;
    let cycles = op.config.switch_cycles@;
    let slowest = slowest_switch(cycles, experts, experts.len());
    lemma_slowest_is_one(cycles, experts, experts.len());
    assert forall|i: int| 0 <= i < experts.len() implies cycles[#[trigger] experts[i] as int]
        <= slowest by {
        law_slowest_switch_covers(cycles, experts, experts.len(), i);
    }
    assert(steps@[k] == op.step_of(selection, e));
    assert(op.accepts(selection, e));
}

} // verus!
