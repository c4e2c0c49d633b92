//! Merging groups of selected inputs in the order of their arrival.

use vstd::prelude::*;

use crate::memory::PMU_BW;
use crate::operator::partition::{FlatPartition, Selection};
use crate::primitives::elem::{mu_cycles, transfer_cycles, Bufferizable, Elem, StopType};
use crate::utils::calculation::lemma_ceil_div;

verus! {

#[derive(Debug)]
pub struct FlatReassembleConfig {
    pub switch_cycles: Vec<u64>,
    pub write_back_mu: bool,
}

/// Sends one group of rank `reassemble_rank` from each of the inputs that an
/// element of a select stream names, in the order in which they arrive. The
/// last group closes one more dimension, and what the select element closes.
#[derive(Debug)]
pub struct FlatReassemble {
    pub inputs: usize,
    pub reassemble_rank: StopType,
    pub config: FlatReassembleConfig,
    pub id: u32,
}

/// What is done for an element of a group: it is taken in cycle `ready`, takes
/// `store_cycles` cycles to write, and is sent. `done` ends the group.
#[derive(Debug, PartialEq, Eq)]
pub struct ReassembleStep<A> {
    pub ready: u64,
    pub store_cycles: u64,
    pub data: Elem<A>,
    pub done: bool,
}

/// Position `a` comes before position `b`: it arrives earlier, or it comes
/// first among those that arrive together.
pub open spec fn arrives_before(times: Seq<u64>, a: int, b: int) -> bool {
    times[a] < times[b] || (times[a] == times[b] && a < b)
}

/// `order` lists all positions in the order of their arrival.
pub open spec fn is_arrival_order(times: Seq<u64>, order: Seq<usize>) -> bool {
    &&& order.len() == times.len()
    &&& forall|i: int| 0 <= i < order.len() ==> (#[trigger] order[i]) < times.len()
    &&& forall|i: int, j: int|
        0 <= i < j < order.len() ==> arrives_before(
            times,
            #[trigger] order[i] as int,
            #[trigger] order[j] as int,
        )
}

/// The positions of a list of arrival times, earliest first.
pub fn arrival_order(times: &Vec<u64>) -> (res: Vec<usize>)
    ensures
        is_arrival_order(times@, res@),
{
    let mut order: Vec<usize> = Vec::new();
    let mut n: usize = 0;
    while n < times.len()
        invariant
            n <= times@.len(),
            is_arrival_order(times@.take(n as int), order@),
        decreases times@.len() - n,
    {
        let mut at: usize = order.len();
        while at > 0 && times[order[at - 1]] > times[n]
            invariant
                n < times@.len(),
                at <= order@.len(),
                is_arrival_order(times@.take(n as int), order@),
                forall|i: int|
                    at <= i < order@.len() ==> times@[#[trigger] order@[i] as int] > times@[n as int],
            decreases at,
        {
            assert(order@[at - 1] < n);
            at = at - 1;
        }
        let ghost before = order@;
        order.insert(at, n);
        proof {
            let now = times@.take(n + 1);
            let old_times = times@.take(n as int);
            assert forall|i: int, j: int| 0 <= i < j < order@.len() implies arrives_before(
                now,
                #[trigger] order@[i] as int,
                #[trigger] order@[j] as int,
            ) by {
                let oi = if i < at {
                    i
                } else {
                    i - 1
                };
                let oj = if j < at {
                    j
                } else {
                    j - 1
                };
                if i != at && j != at {
                    assert(arrives_before(old_times, before[oi] as int, before[oj] as int));
                } else if i == at {
                    assert(times@[before[oj] as int] > times@[n as int]);
                } else {
                    assert(before[i] < n);
                    if at > 0 {
                        assert(before[at - 1] < n);
                        if i < at - 1 {
                            assert(arrives_before(
                                old_times,
                                before[i] as int,
                                before[at - 1] as int,
                            ));
                        }
                    }
                }
            }
            assert forall|i: int| 0 <= i < order@.len() implies (#[trigger] order@[i])
                < now.len() by {
                if i < at {
                    assert(before[i] < n);
                } else if i > at {
                    assert(before[i - 1] < n);
                }
            }
        }
        n = n + 1;
    }
    assert(times@.take(n as int) =~= times@);
    order
}

/// Every position is listed exactly once.
pub proof fn law_arrival_order_is_permutation(times: Seq<u64>, order: Seq<usize>)
    requires
        is_arrival_order(times, order),
        times.len() <= usize::MAX,
    ensures
        order.no_duplicates(),
        forall|k: int| 0 <= k < times.len() ==> order.contains(#[trigger] (k as usize)),
{
    assert forall|i: int, j: int| 0 <= i < order.len() && 0 <= j < order.len() && i != j implies order[i]
        != order[j] by {
        if i < j {
            assert(arrives_before(times, order[i] as int, order[j] as int));
        } else {
            assert(arrives_before(times, order[j] as int, order[i] as int));
        }
    }
    let positions = order.map_values(|x: usize| x as int).to_set();
    let all = vstd::set_lib::set_int_range(0, times.len() as int);
    vstd::set_lib::lemma_int_range(0, times.len() as int);
    let ints = order.map_values(|x: usize| x as int);
    assert(ints.no_duplicates());
    ints.unique_seq_to_set();
    assert(positions.subset_of(all)) by {
        assert forall|x: int| positions.contains(x) implies all.contains(x) by {
            let i = choose|i: int| 0 <= i < ints.len() && ints[i] == x;
            assert(order[i] < times.len());
        }
    }
    vstd::set_lib::lemma_subset_equality(positions, all);
    assert forall|k: int| 0 <= k < times.len() implies order.contains(#[trigger] (k as usize)) by {
        assert(all.contains(k));
        let i = choose|i: int| 0 <= i < ints.len() && ints[i] == k;
        assert(order[i] == k);
        assert(order[i] == (k as usize));
    }
}

impl FlatReassemble {
    /// Every input has its switch cycles.
    pub open spec fn wf(self) -> bool {
        self.config.switch_cycles@.len() == self.inputs
    }

    /// The element ends the group of its input.
    pub open spec fn ends<A>(self, e: Elem<A>) -> bool {
        match e {
            Elem::Val(_) => self.reassemble_rank == 0,
            Elem::ValStop(_, s) => s >= self.reassemble_rank,
        }
    }

    /// What is sent for an element. The end of the last group closes one more
    /// dimension, and `select_level` dimensions of the select stream.
    pub open spec fn sent<A: Bufferizable>(
        self,
        e: Elem<A>,
        is_last: bool,
        select_level: StopType,
    ) -> Elem<A> {
        let value = e.value().placed(self.config.write_back_mu);
        if is_last && self.ends(e) {
            Elem::ValStop(value, (e.level() + select_level + 1) as StopType)
        } else if self.reassemble_rank == 0 {
            Elem::Val(value)
        } else {
            match e {
                Elem::Val(_) => Elem::Val(value),
                Elem::ValStop(_, s) => Elem::ValStop(value, s),
            }
        }
    }

    /// The cycle in which an element of an input whose group arrived in cycle
    /// `arrival` has been loaded.
    pub open spec fn ready<A: Bufferizable>(self, input: int, arrival: u64, e: Elem<A>) -> int {
        arrival + self.config.switch_cycles@[input] + mu_cycles(
            e.value().in_mu(),
            e.value().byte_size(),
        )
    }

    pub fn new(
        inputs: usize,
        reassemble_rank: StopType,
        config: FlatReassembleConfig,
        id: u32,
    ) -> (res: Self)
        ensures
            res == (FlatReassemble { inputs, reassemble_rank, config, id }),
    {
        FlatReassemble { inputs, reassemble_rank, config, id }
    }

    /// Takes one element of the group of an input. `is_last` says that the
    /// group is the last of the selected ones.
    pub fn step<A: Bufferizable>(
        &self,
        input: usize,
        arrival: u64,
        elem: &Elem<A>,
        is_last: bool,
        select_level: Option<StopType>,
    ) -> (res: ReassembleStep<A>)
        requires
            self.wf(),
            input < self.inputs,
            elem.value().in_mu() || self.config.write_back_mu ==> elem.value().measurable(),
            self.ready(input as int, arrival, *elem) <= u64::MAX,
            is_last && self.ends(*elem) ==> elem.level() + select_level.unwrap_or(0) + 1
                <= StopType::MAX,
        ensures
            res.ready == self.ready(input as int, arrival, *elem),
            res.store_cycles == mu_cycles(self.config.write_back_mu, elem.value().byte_size()),
            res.data == self.sent(*elem, is_last, select_level.unwrap_or(0)),
            res.done == self.ends(*elem),
    {
        let additional: StopType = match select_level {
            Some(level) => level,
            None => 0,
        };
        let (value, data, done) = match elem {
            Elem::Val(x) => {
                let placed = x.clone_with_updated_read_from_mu(self.config.write_back_mu);
                let data = if self.reassemble_rank == 0 && is_last {
                    Elem::ValStop(placed, 1 + additional)
                } else {
                    Elem::Val(placed)
                };
                (x, data, self.reassemble_rank == 0)
            },
            Elem::ValStop(x, s) => {
                let placed = x.clone_with_updated_read_from_mu(self.config.write_back_mu);
                let done = *s >= self.reassemble_rank;
                let data = if is_last && done {
                    Elem::ValStop(placed, *s + additional + 1)
                } else if self.reassemble_rank == 0 {
                    Elem::Val(placed)
                } else {
                    Elem::ValStop(placed, *s)
                };
                (x, data, done)
            },
        };
        let load: u64 = transfer_cycles(value, value.read_from_mu());
        let store_cycles: u64 = transfer_cycles(value, self.config.write_back_mu);
        ReassembleStep {
            ready: arrival + self.config.switch_cycles[input] + load,
            store_cycles,
            data,
            done,
        }
    }
}

/// The groups of the inputs that a select element names, and when they arrive.
pub struct SelectedGroups<A> {
    pub inputs: Seq<usize>,
    pub arrivals: Seq<u64>,
    pub groups: Seq<Seq<Elem<A>>>,
}

impl FlatReassemble {
    /// The elements make up one group: only the last ends it.
    pub open spec fn is_group<A>(self, group: Seq<Elem<A>>) -> bool {
        &&& group.len() > 0
        &&& forall|j: int|
            0 <= j < group.len() ==> (self.ends(#[trigger] group[j]) <==> j == group.len() - 1)
    }

    /// What is done for an element.
    pub open spec fn step_of<A: Bufferizable>(
        self,
        input: usize,
        arrival: u64,
        e: Elem<A>,
        is_last: bool,
        select_level: StopType,
    ) -> ReassembleStep<A> {
        ReassembleStep {
            ready: self.ready(input as int, arrival, e) as u64,
            store_cycles: mu_cycles(self.config.write_back_mu, e.value().byte_size()) as u64,
            data: self.sent(e, is_last, select_level),
            done: self.ends(e),
        }
    }

    /// Everything that is done for an element can be computed.
    pub open spec fn priceable<A: Bufferizable>(
        self,
        input: usize,
        arrival: u64,
        e: Elem<A>,
        select_level: StopType,
    ) -> bool {
        &&& e.value().in_mu() || self.config.write_back_mu ==> e.value().measurable()
        &&& self.ready(input as int, arrival, e) <= u64::MAX
        &&& e.level() + select_level + 1 <= StopType::MAX
    }

    /// What is done for the group at position `i` of the selection.
    pub open spec fn group_steps<A: Bufferizable>(
        self,
        selected: SelectedGroups<A>,
        i: int,
        is_last: bool,
        select_level: StopType,
    ) -> Seq<ReassembleStep<A>> {
        Seq::new(
            selected.groups[i].len(),
            |j: int|
                self.step_of(
                    selected.inputs[i],
                    selected.arrivals[i],
                    selected.groups[i][j],
                    is_last,
                    select_level,
                ),
        )
    }

    /// What is done for the first `n` groups of an order.
    pub open spec fn steps_upto<A: Bufferizable>(
        self,
        selected: SelectedGroups<A>,
        order: Seq<usize>,
        n: nat,
        select_level: StopType,
    ) -> Seq<ReassembleStep<A>>
        decreases n,
    {
        if n == 0 {
            Seq::empty()
        } else {
            self.steps_upto(selected, order, (n - 1) as nat, select_level) + self.group_steps(
                selected,
                order[n - 1] as int,
                n == order.len(),
                select_level,
            )
        }
    }

    /// The selected inputs exist, each with an arrival time and a group.
    pub open spec fn selected_ok<A: Bufferizable>(
        self,
        selected: SelectedGroups<A>,
        select_level: StopType,
    ) -> bool {
        &&& selected.arrivals.len() == selected.inputs.len()
        &&& selected.groups.len() == selected.inputs.len()
        &&& forall|i: int|
            0 <= i < selected.inputs.len() ==> {
                &&& #[trigger] selected.inputs[i] < self.inputs
                &&& self.is_group(selected.groups[i])
                &&& forall|j: int|
                    0 <= j < selected.groups[i].len() ==> self.priceable(
                        selected.inputs[i],
                        selected.arrivals[i],
                        #[trigger] selected.groups[i][j],
                        select_level,
                    )
            }
    }

    /// Takes one group from each selected input, in the order of their
    /// arrival: what is done for each element. The last group to arrive closes
    /// one more dimension.
    pub fn process_input_stream<A: Bufferizable>(
        &self,
        select_vec: &Vec<usize>,
        arrivals: &Vec<u64>,
        groups: &Vec<Vec<Elem<A>>>,
        select_level: Option<StopType>,
    ) -> (res: Vec<ReassembleStep<A>>)
        requires
            self.wf(),
            self.selected_ok(
                SelectedGroups {
                    inputs: select_vec@,
                    arrivals: arrivals@,
                    groups: groups@.map_values(|g: Vec<Elem<A>>| g@),
                },
                select_level.unwrap_or(0),
            ),
        ensures
            exists|order: Seq<usize>|
                {
                    &&& #[trigger] is_arrival_order(arrivals@, order)
                    &&& res@ == self.steps_upto(
                        SelectedGroups {
                            inputs: select_vec@,
                            arrivals: arrivals@,
                            groups: groups@.map_values(|g: Vec<Elem<A>>| g@),
                        },
                        order,
                        order.len(),
                        select_level.unwrap_or(0),
                    )
                },
    {
        let ghost selected = SelectedGroups {
            inputs: select_vec@,
            arrivals: arrivals@,
            groups: groups@.map_values(|g: Vec<Elem<A>>| g@),
        };
        let ghost level = select_level.unwrap_or(0);
        let order = arrival_order(arrivals);
        let n: usize = order.len();
        let mut out: Vec<ReassembleStep<A>> = Vec::new();
        let mut k: usize = 0;
        while k < n
            invariant
                self.wf(),
                self.selected_ok(selected, level),
                selected.inputs == select_vec@,
                selected.arrivals == arrivals@,
                selected.groups == groups@.map_values(|g: Vec<Elem<A>>| g@),
                level == select_level.unwrap_or(0),
                is_arrival_order(arrivals@, order@),
                n == order@.len(),
                k <= n,
                out@ == self.steps_upto(selected, order@, k as nat, level),
            decreases n - k,
        {
            let i: usize = order[k];
            let is_last = k + 1 == n;
            let ghost before = out@;
            let ghost ideal = self.group_steps(selected, i as int, is_last, level);
            assert(selected.inputs[i as int] < self.inputs);
            assert(selected.groups[i as int] == groups@[i as int]@);
            let mut j: usize = 0;
            assert(out@ =~= before + ideal.take(0));
            while j < groups[i].len()
                invariant
                    self.wf(),
                    self.selected_ok(selected, level),
                    selected.inputs == select_vec@,
                    selected.arrivals == arrivals@,
                    selected.groups == groups@.map_values(|g: Vec<Elem<A>>| g@),
                    level == select_level.unwrap_or(0),
                    i < groups@.len(),
                    selected.groups[i as int] == groups@[i as int]@,
                    ideal == self.group_steps(selected, i as int, is_last, level),
                    j <= groups@[i as int]@.len(),
                    out@ == before + ideal.take(j as int),
                decreases groups@[i as int]@.len() - j,
            {
                assert(selected.inputs[i as int] < self.inputs);
                assert(self.priceable(
                    selected.inputs[i as int],
                    selected.arrivals[i as int],
                    selected.groups[i as int][j as int],
                    level,
                ));
                let step = self.step(
                    select_vec[i],
                    arrivals[i],
                    &groups[i][j],
                    is_last,
                    select_level,
                );
                assert(step == ideal[j as int]);
                out.push(step);
                assert(out@ =~= before + ideal.take(j + 1));
                j = j + 1;
            }
            assert(ideal.take(j as int) =~= ideal);
            k = k + 1;
        }
        assert(is_arrival_order(arrivals@, order@));
        out
    }
}

/// The groups that a partition sends are groups that a reassembly of the same
/// rank takes: they end with the same element, and its stops come through,
/// but for those that the last group to arrive adds.
pub proof fn law_partitioned_groups_reassemble<A: Bufferizable>(
    partition: FlatPartition,
    reassemble: FlatReassemble,
    selection: Selection,
    e: Elem<A>,
    select_level: StopType,
)
    requires
        partition.partition_rank == reassemble.reassemble_rank,
        partition.accepts(selection, e),
        selection.expected_stop matches Some(level) ==> level >= partition.partition_rank,
        partition.partition_rank + select_level + 1 <= StopType::MAX,
    ensures
        ({
            let part = partition.sent(selection, e);
            &&& reassemble.ends(part) == partition.ends(selection, e)
            &&& reassemble.sent(part, false, select_level).level() == part.level()
            &&& reassemble.sent(part, true, select_level).level() == part.level() + (
            if partition.ends(selection, e) {
                select_level + 1
            } else {
                0int
            })
        }),
{
}

/// Positions are listed by the time of their arrival, the first of them first
/// among those that arrive together, and each exactly once.
pub proof fn law_arrivals_are_sorted(times: Vec<u64>, order: Vec<usize>, i: int, j: int)
    requires
        call_ensures(arrival_order, (&times,), order),
        0 <= i < j < order@.len(),
    ensures
        order@.len() == times@.len(),
        order@[i] < times@.len(),
        order@[j] < times@.len(),
        times@[order@[i] as int] <= times@[order@[j] as int],
        times@[order@[i] as int] == times@[order@[j] as int] ==> order@[i] < order@[j],
        order@[i] != order@[j],
{
    assert(arrives_before(times@, order@[i] as int, order@[j] as int));
}

/// No element is taken before it can be: from its arrival on, the switch
/// cycles of its input pass, and the cycles to load it, at 512 bytes per
/// cycle, where it lies in a memory unit. Writing it takes as many cycles as
/// its bytes need, where it is written to a memory unit.
pub proof fn law_element_is_ready_when_loaded<A: Bufferizable>(
    op: FlatReassemble,
    input: usize,
    arrival: u64,
    e: Elem<A>,
    is_last: bool,
    select_level: Option<StopType>,
    res: ReassembleStep<A>,
)
    requires
        call_ensures(
            FlatReassemble::step::<A>,
            (&op, input, arrival, &e, is_last, select_level),
            res,
        ),
        e.value().byte_size() >= 0,
    ensures
        res.ready >= arrival,
        res.ready - arrival == op.config.switch_cycles@[input as int] + (if e.value().in_mu() {
            (e.value().byte_size() + 511) / 512
        } else {
            0
        }),
        res.store_cycles == (if op.config.write_back_mu {
            (e.value().byte_size() + 511) / 512
        } else {
            0
        }),
{
    lemma_ceil_div(e.value().byte_size(), PMU_BW as int);
}

/// An element that arrives `d` cycles later is ready `d` cycles later, and
/// nothing else about it changes.
pub proof fn law_late_arrival_is_ready_late<A: Bufferizable>(
    op: FlatReassemble,
    input: usize,
    arrival: u64,
    later: u64,
    e: Elem<A>,
    is_last: bool,
    select_level: Option<StopType>,
    res: ReassembleStep<A>,
    late: ReassembleStep<A>,
)
    requires
        call_ensures(
            FlatReassemble::step::<A>,
            (&op, input, arrival, &e, is_last, select_level),
            res,
        ),
        call_ensures(
            FlatReassemble::step::<A>,
            (&op, input, later, &e, is_last, select_level),
            late,
        ),
    ensures
        late.ready - res.ready == later - arrival,
        late.store_cycles == res.store_cycles,
        late.data == res.data,
        late.done == res.done,
{
}

/// A group ends with the first element that closes its rank. What is sent
/// carries the value of the element, placed where the operator writes; the end
/// of the last group closes one dimension more than the element and the select
/// element do together, and the end of any other group closes what the element
/// closes.
pub proof fn law_reassembled_stops<A: Bufferizable>(
    op: FlatReassemble,
    input: usize,
    arrival: u64,
    e: Elem<A>,
    is_last: bool,
    select_level: Option<StopType>,
    res: ReassembleStep<A>,
)
    requires
        call_ensures(
            FlatReassemble::step::<A>,
            (&op, input, arrival, &e, is_last, select_level),
            res,
        ),
        e.level() + select_level.unwrap_or(0) + 1 <= StopType::MAX,
    ensures
        res.done <==> e.level() >= op.reassemble_rank && (e is ValStop || op.reassemble_rank == 0),
        res.data.value() == e.value().placed(op.config.write_back_mu),
        is_last && res.done ==> res.data is ValStop && res.data.level() == e.level()
            + select_level.unwrap_or(0) + 1,
        !(is_last && res.done) && op.reassemble_rank > 0 ==> res.data.level() == e.level() && (
        res.data is ValStop <==> e is ValStop),
        !(is_last && res.done) && op.reassemble_rank == 0 ==> res.data is Val,
{
}

/// A step takes an element of a group that arrived in cycle `arrival`: it is
/// ready once its input has been switched to and it has been loaded, its value
/// is written where the operator writes, and `closes` is how many dimensions
/// are closed with it.
pub open spec fn takes_element<A: Bufferizable>(
    op: FlatReassemble,
    input: usize,
    arrival: u64,
    e: Elem<A>,
    closes: int,
    step: ReassembleStep<A>,
) -> bool {
    &&& step.ready - arrival - op.config.switch_cycles@[input as int] == (if e.value().in_mu() {
        (e.value().byte_size() + 511) / 512
    } else {
        0
    })
    &&& step.data.value() == e.value().placed(op.config.write_back_mu)
    &&& step.data.level() == closes
}

/// `steps` takes a whole group: the last element, and only that one, ends it
/// and closes `more` dimensions more than it closes itself.
pub open spec fn takes_group<A: Bufferizable>(
    op: FlatReassemble,
    input: usize,
    arrival: u64,
    group: Seq<Elem<A>>,
    more: int,
    steps: Seq<ReassembleStep<A>>,
) -> bool {
    &&& steps.len() == group.len()
    &&& forall|j: int|
        0 <= j < steps.len() ==> (#[trigger] steps[j]).done == (j == steps.len() - 1)
            && takes_element(
            op,
            input,
            arrival,
            group[j],
            if more > 0 && j == steps.len() - 1 {
                group[j].level() + more
            } else if op.reassemble_rank == 0 {
                0
            } else {
                group[j].level()
            },
            steps[j],
        )
}

/// `steps` takes the selected groups whole, one after the other, each once and
/// in the order of their arrival: `starts[k]` is where the `k`-th of them
/// begins. Only the end of the group that arrives last closes more than its
/// element does.
pub open spec fn takes_groups<A: Bufferizable>(
    op: FlatReassemble,
    inputs: Seq<usize>,
    arrivals: Seq<u64>,
    groups: Seq<Vec<Elem<A>>>,
    select_level: Option<StopType>,
    order: Seq<usize>,
    starts: Seq<int>,
    steps: Seq<ReassembleStep<A>>,
) -> bool {
    &&& order.len() == inputs.len()
    &&& starts.len() == order.len() + 1
    &&& starts[0] == 0
    &&& starts[order.len() as int] == steps.len()
    &&& forall|k: int|
        0 <= k < order.len() ==> {
            &&& #[trigger] order[k] < inputs.len()
            &&& 0 <= starts[k]
            &&& starts[k + 1] == starts[k] + groups[order[k] as int]@.len()
            &&& starts[k + 1] <= steps.len()
        }
    &&& forall|i: int, k: int|
        0 <= i < k < order.len() ==> {
            &&& #[trigger] order[i] != #[trigger] order[k]
            &&& arrivals[order[i] as int] <= arrivals[order[k] as int]
        }
    &&& forall|k: int|
        0 <= k < order.len() ==> takes_group(
            op,
            inputs[#[trigger] order[k] as int],
            arrivals[order[k] as int],
            groups[order[k] as int]@,
            if k == order.len() - 1 {
                select_level.unwrap_or(0) + 1
            } else {
                0int
            },
            steps.subrange(starts[k], starts[k + 1]),
        )
}

/// Reassembling takes all groups that were selected, in the order of their
/// arrival, and takes every element of them when it is ready.
pub proof fn law_groups_are_taken_as_they_arrive<A: Bufferizable>(
    op: FlatReassemble,
    select_vec: Vec<usize>,
    arrivals: Vec<u64>,
    groups: Vec<Vec<Elem<A>>>,
    select_level: Option<StopType>,
    steps: Vec<ReassembleStep<A>>,
)
    requires
        op.wf(),
        op.selected_ok(
            SelectedGroups {
                inputs: select_vec@,
                arrivals: arrivals@,
                groups: groups@.map_values(|g: Vec<Elem<A>>| g@),
            },
            select_level.unwrap_or(0),
        ),
        forall|i: int, j: int|
            0 <= i < groups@.len() && 0 <= j < groups@[i]@.len() ==> (
            #[trigger] groups@[i]@[j]).value().byte_size() >= 0,
        call_ensures(
            FlatReassemble::process_input_stream::<A>,
            (&op, &select_vec, &arrivals, &groups, select_level),
            steps,
        ),
    ensures
        exists|order: Seq<usize>, starts: Seq<int>| #[trigger]
            takes_groups(
                op,
                select_vec@,
                arrivals@,
                groups@,
                select_level,
                order,
                starts,
                steps@,
            ),
{
    let level = select_level.unwrap_or(0);
    let selected = SelectedGroups {
        inputs: select_vec@,
        arrivals: arrivals@,
        groups: groups@.map_values(|g: Vec<Elem<A>>| g@),
    };
    let order = choose|order: Seq<usize>|
        {
            &&& #[trigger] is_arrival_order(arrivals@, order)
            &&& steps@ == op.steps_upto(selected, order, order.len(), level)
        };
    lemma_takes_groups(op, selected, groups@, select_level, order);
    assert(takes_groups(
        op,
        select_vec@,
        arrivals@,
        groups@,
        select_level,
        order,
        starts_of(op, selected, order, level),
        steps@,
    ));
}

/// Where the groups begin that are taken in an order.
spec fn starts_of<A: Bufferizable>(
    op: FlatReassemble,
    selected: SelectedGroups<A>,
    order: Seq<usize>,
    level: StopType,
) -> Seq<int> {
    Seq::new(
        order.len() + 1,
        |k: int| op.steps_upto(selected, order, k as nat, level).len() as int,
    )
}

proof fn lemma_takes_groups<A: Bufferizable>(
    op: FlatReassemble,
    selected: SelectedGroups<A>,
    groups: Seq<Vec<Elem<A>>>,
    select_level: Option<StopType>,
    order: Seq<usize>,
)
    requires
        op.selected_ok(selected, select_level.unwrap_or(0)),
        selected.groups == groups.map_values(|g: Vec<Elem<A>>| g@),
        is_arrival_order(selected.arrivals, order),
        forall|i: int, j: int|
            0 <= i < groups.len() && 0 <= j < groups[i]@.len() ==> (
            #[trigger] groups[i]@[j]).value().byte_size() >= 0,
    ensures
        takes_groups(
            op,
            selected.inputs,
            selected.arrivals,
            groups,
            select_level,
            order,
            starts_of(op, selected, order, select_level.unwrap_or(0)),
            op.steps_upto(selected, order, order.len(), select_level.unwrap_or(0)),
        ),
{
    let level = select_level.unwrap_or(0);
    let n = order.len() as int;
    let starts = starts_of(op, selected, order, level);
    let steps = op.steps_upto(selected, order, order.len(), level);
    assert forall|k: int| 0 <= k < n implies {
        &&& #[trigger] order[k] < selected.inputs.len()
        &&& 0 <= starts[k]
        &&& starts[k + 1] == starts[k] + groups[order[k] as int]@.len()
        &&& starts[k + 1] <= steps.len()
    } by {
        lemma_steps_prefix(op, selected, order, (k + 1) as nat, order.len(), level);
        assert(selected.groups[order[k] as int] == groups[order[k] as int]@);
    }
    assert forall|i: int, k: int| 0 <= i < k < n implies {
        &&& #[trigger] order[i] != #[trigger] order[k]
        &&& selected.arrivals[order[i] as int] <= selected.arrivals[order[k] as int]
    } by {
        assert(arrives_before(selected.arrivals, order[i] as int, order[k] as int));
    }
    assert forall|k: int| 0 <= k < n implies takes_group(
        op,
        selected.inputs[#[trigger] order[k] as int],
        selected.arrivals[order[k] as int],
        groups[order[k] as int]@,
        if k == order.len() - 1 {
            select_level.unwrap_or(0) + 1
        } else {
            0int
        },
        steps.subrange(starts[k], starts[k + 1]),
    ) by {
        let i = order[k] as int;
        assert(order[k] < selected.inputs.len());
        assert(selected.groups[i] == groups[i]@);
        assert forall|j: int| 0 <= j < selected.groups[i].len() implies (
        #[trigger] selected.groups[i][j]).value().byte_size() >= 0 by {
            assert(groups[i]@[j].value().byte_size() >= 0);
        }
        lemma_group_taken(op, selected, order, level, k);
    }
}

/// What is done for the `k`-th group to arrive.
proof fn lemma_group_taken<A: Bufferizable>(
    op: FlatReassemble,
    selected: SelectedGroups<A>,
    order: Seq<usize>,
    level: StopType,
    k: int,
)
    requires
        op.selected_ok(selected, level),
        0 <= k < order.len(),
        order[k] < selected.inputs.len(),
        forall|j: int|
            0 <= j < selected.groups[order[k] as int].len() ==> (
            #[trigger] selected.groups[order[k] as int][j]).value().byte_size() >= 0,
    ensures
        ({
            let i = order[k] as int;
            let start = op.steps_upto(selected, order, k as nat, level).len() as int;
            let end = op.steps_upto(selected, order, (k + 1) as nat, level).len() as int;
            takes_group(
                op,
                selected.inputs[i],
                selected.arrivals[i],
                selected.groups[i],
                if k == order.len() - 1 {
                    level + 1
                } else {
                    0int
                },
                op.steps_upto(selected, order, order.len(), level).subrange(start, end),
            )
        }),
{
    let i = order[k] as int;
    let is_last = k + 1 == order.len();
    lemma_steps_prefix(op, selected, order, (k + 1) as nat, order.len(), level);
    let before = op.steps_upto(selected, order, k as nat, level);
    let upto = op.steps_upto(selected, order, (k + 1) as nat, level);
    let whole = op.steps_upto(selected, order, order.len(), level);
    let own = op.group_steps(selected, i, is_last, level);
    assert(upto == before + own);
    let part = whole.subrange(before.len() as int, upto.len() as int);
    assert(part =~= own) by {
        assert forall|j: int| 0 <= j < own.len() implies part[j] == #[trigger] own[j] by {
            assert(upto[before.len() + j] == own[j]);
            assert(whole.take(upto.len() as int)[before.len() + j] == whole[before.len() + j]);
        }
    }
    lemma_group_steps(op, selected, i, is_last, level);
}

proof fn lemma_group_steps<A: Bufferizable>(
    op: FlatReassemble,
    selected: SelectedGroups<A>,
    i: int,
    is_last: bool,
    level: StopType,
)
    requires
        op.selected_ok(selected, level),
        0 <= i < selected.inputs.len(),
        forall|j: int|
            0 <= j < selected.groups[i].len() ==> (
            #[trigger] selected.groups[i][j]).value().byte_size() >= 0,
    ensures
        takes_group(
            op,
            selected.inputs[i],
            selected.arrivals[i],
            selected.groups[i],
            if is_last {
                level + 1
            } else {
                0int
            },
            op.group_steps(selected, i, is_last, level),
        ),
{
    let group = selected.groups[i];
    let own = op.group_steps(selected, i, is_last, level);
    assert(selected.inputs[i] < op.inputs);
    assert forall|j: int| 0 <= j < own.len() implies (#[trigger] own[j]).done == (j == own.len()
        - 1) && takes_element(
        op,
        selected.inputs[i],
        selected.arrivals[i],
        group[j],
        if is_last && j == own.len() - 1 {
            group[j].level() + level + 1
        } else if op.reassemble_rank == 0 {
            0
        } else {
            group[j].level()
        },
        own[j],
    ) by {
        let e = group[j];
        assert(e == selected.groups[i][j]);
        assert(op.priceable(selected.inputs[i], selected.arrivals[i], e, level));
        assert(op.ends(e) <==> j == group.len() - 1);
        lemma_step_of(op, selected.inputs[i], selected.arrivals[i], e, is_last, level);
    }
}

proof fn lemma_step_of<A: Bufferizable>(
    op: FlatReassemble,
    input: usize,
    arrival: u64,
    e: Elem<A>,
    is_last: bool,
    level: StopType,
)
    requires
        op.priceable(input, arrival, e, level),
        e.value().byte_size() >= 0,
    ensures
        takes_element(
            op,
            input,
            arrival,
            e,
            if is_last && op.ends(e) {
                e.level() + level + 1
            } else if op.reassemble_rank == 0 {
                0
            } else {
                e.level()
            },
            op.step_of(input, arrival, e, is_last, level),
        ),
        op.step_of(input, arrival, e, is_last, level).done == op.ends(e),
{
    lemma_ceil_div(e.value().byte_size(), PMU_BW as int);
}

/// What is done for the first groups comes first.
proof fn lemma_steps_prefix<A: Bufferizable>(
    op: FlatReassemble,
    selected: SelectedGroups<A>,
    order: Seq<usize>,
    n: nat,
    all: nat,
    level: StopType,
)
    requires
        n <= all,
    ensures
        op.steps_upto(selected, order, n, level).len() <= op.steps_upto(
            selected,
            order,
            all,
            level,
        ).len(),
        op.steps_upto(selected, order, all, level).take(
            op.steps_upto(selected, order, n, level).len() as int,
        ) == op.steps_upto(selected, order, n, level),
    decreases all,
{
    let part = op.steps_upto(selected, order, n, level);
    let whole = op.steps_upto(selected, order, all, level);
    if n < all {
        lemma_steps_prefix(op, selected, order, n, (all - 1) as nat, level);
        let less = op.steps_upto(selected, order, (all - 1) as nat, level);
        assert(whole.take(part.len() as int) =~= less.take(part.len() as int));
    } else {
        assert(whole.take(part.len() as int) =~= part);
    }
}

} // verus!
