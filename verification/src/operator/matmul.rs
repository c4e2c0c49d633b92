//! Timing of projections whose operands stream in.

use vstd::prelude::*;

use crate::memory_simple::PMUEntry;
use crate::operator::ActEntry;
use crate::utils::calculation::roofline;

verus! {

/// When something that began at one time was done.
#[derive(Debug, Clone, Copy, PartialEq, Eq)]
pub struct TimeBlock {
    pub start: u64,
    pub end: u64,
}

/// What is done for an element whose loading and computing overlap: the
/// result is sent after `latency`.
#[derive(Debug, Clone, Copy, PartialEq, Eq)]
pub struct StreamedStep {
    pub latency: u64,
    pub compute: TimeBlock,
    pub load: TimeBlock,
    pub data: ActEntry,
}

impl StreamedStep {
    /// The step that begins at time `now`.
    pub open spec fn is_step(self, now: int, load_ns: int, compute_ns: int) -> bool {
        &&& self.latency == roofline(load_ns, compute_ns, 0)
        &&& self.compute.start == now
        &&& self.compute.end == now + compute_ns
        &&& self.load.start == now
        &&& self.load.end == now + load_ns
    }
}

/// The step of an operator that begins at time `now`, given how long loading
/// and computing take.
pub(crate) fn streamed_step(now: u64, load_ns: u64, compute_ns: u64) -> (res: StreamedStep)
    requires
        now + load_ns <= u64::MAX,
        now + compute_ns <= u64::MAX,
    ensures
        res.is_step(now as int, load_ns as int, compute_ns as int),
{
    let latency: u64 = if load_ns > compute_ns {
        load_ns
    } else {
        compute_ns
    };
    StreamedStep {
        latency,
        compute: TimeBlock { start: now, end: now + compute_ns },
        load: TimeBlock { start: now, end: now + load_ns },
        data: ActEntry {  },
    }
}

/// Generates queries, keys and values from tiles in on-chip memory, `flop`
/// operations for each.
#[derive(Debug)]
pub struct GenQKV {
    pub flop: u64,
}

impl GenQKV {
    pub fn new(flop: u64) -> (res: Self)
        ensures
            res.flop == flop,
    {
        GenQKV { flop }
    }

    /// Takes a tile at time `now`.
    pub fn step(&self, now: u64, load_ns: u64, compute_ns: u64) -> (res: StreamedStep)
        requires
            now + load_ns <= u64::MAX,
            now + compute_ns <= u64::MAX,
        ensures
            res.is_step(now as int, load_ns as int, compute_ns as int),
    {
        streamed_step(now, load_ns, compute_ns)
    }
}

/// Projects a stream by a weight that is loaded once and then stays in
/// registers, `flop` operations for each element.
#[derive(Debug)]
pub struct Proj {
    pub flop: u64,
}

/// The size of the output, known once the weight has been loaded.
#[derive(Debug)]
pub struct ProjState {
    pub out_size: Option<u32>,
}

/// What is done for an element: the result is sent after `latency`. Only the
/// first element waits for the weight.
#[derive(Debug, Clone, Copy, PartialEq, Eq)]
pub struct ProjStep {
    pub latency: u64,
    pub compute: TimeBlock,
    pub load: Option<TimeBlock>,
    pub store: TimeBlock,
    pub data: PMUEntry,
}

/// A tile of `num_elems` elements that is not part of any grid.
pub open spec fn output_tile(num_elems: u32) -> PMUEntry {
    PMUEntry { outer: 0, m: 0, n: 0, k: 0, output_tile_available: false, num_elems }
}

impl Proj {
    pub fn new(flop: u64) -> (res: Self)
        ensures
            res.flop == flop,
    {
        Proj { flop }
    }

    /// The state before the weight has been loaded.
    pub fn start(&self) -> (res: ProjState)
        ensures
            res.out_size is None,
    {
        ProjState { out_size: None }
    }

    /// The tile that is sent for an element: as many elements as the weight
    /// has columns. `weight` is read before the first element.
    pub fn output(&self, state: &mut ProjState, weight: Option<&PMUEntry>) -> (res: PMUEntry)
        requires
            old(state).out_size is None ==> weight is Some,
        ensures
            final(state).out_size == Some(
                match old(state).out_size {
                    Some(size) => size,
                    None => weight->0.n,
                },
            ),
            res == output_tile(final(state).out_size->0),
    {
        let size: u32 = match (state.out_size, weight) {
            (Some(size), _) => size,
            (None, Some(entry)) => entry.n,
            (None, None) => 0,
        };
        state.out_size = Some(size);
        PMUEntry { outer: 0, m: 0, n: 0, k: 0, output_tile_available: false, num_elems: size }
    }

    /// Takes an element at time `now` and sends `data`. `load_ns` is the time
    /// to load the weight, for the first element.
    pub fn step(
        &self,
        now: u64,
        load_ns: Option<u64>,
        compute_ns: u64,
        store_ns: u64,
        data: PMUEntry,
    ) -> (res: ProjStep)
        requires
            load_ns matches Some(ns) ==> now + ns <= u64::MAX,
            now + compute_ns <= u64::MAX,
            now + store_ns <= u64::MAX,
        ensures
            res.latency == roofline(
                match load_ns {
                    Some(ns) => ns as int,
                    None => 0,
                },
                compute_ns as int,
                store_ns as int,
            ),
            res.compute == (TimeBlock { start: now, end: (now + compute_ns) as u64 }),
            res.store == (TimeBlock { start: now, end: (now + store_ns) as u64 }),
            res.load == (match load_ns {
                Some(ns) => Some(TimeBlock { start: now, end: (now + ns) as u64 }),
                None => None,
            }),
            res.data == data,
    {
        let load: u64 = match load_ns {
            Some(ns) => ns,
            None => 0,
        };
        ProjStep {
            latency: crate::utils::calculation::roofline_cycles(load, compute_ns, store_ns),
            compute: TimeBlock { start: now, end: now + compute_ns },
            load: match load_ns {
                Some(ns) => Some(TimeBlock { start: now, end: now + ns }),
                None => None,
            },
            store: TimeBlock { start: now, end: now + store_ns },
            data,
        }
    }
}

/// Loading and computing begin together, and the slower of the two decides
/// when the result is sent.
pub proof fn law_streamed_step_overlaps(
    op: GenQKV,
    now: u64,
    load_ns: u64,
    compute_ns: u64,
    res: StreamedStep,
)
    requires
        call_ensures(GenQKV::step, (&op, now, load_ns, compute_ns), res),
    ensures
        res.latency >= load_ns,
        res.latency >= compute_ns,
        res.latency == load_ns || res.latency == compute_ns,
        res.compute.start == now && res.compute.end - now == compute_ns,
        res.load.start == now && res.load.end - now == load_ns,
{
}

/// A projection overlaps loading, computing and storing, which begin together,
/// and the slowest of them decides when the result is sent.
pub proof fn law_projection_overlaps(
    op: Proj,
    now: u64,
    load_ns: Option<u64>,
    compute_ns: u64,
    store_ns: u64,
    data: PMUEntry,
    res: ProjStep,
)
    requires
        call_ensures(Proj::step, (&op, now, load_ns, compute_ns, store_ns, data), res),
        now + compute_ns <= u64::MAX,
        now + store_ns <= u64::MAX,
        load_ns matches Some(ns) ==> now + ns <= u64::MAX,
    ensures
        res.latency >= compute_ns,
        res.latency >= store_ns,
        load_ns matches Some(ns) ==> res.latency >= ns,
        res.latency == compute_ns || res.latency == store_ns || load_ns == Some(res.latency),
        res.compute.start == now && res.compute.end - now == compute_ns,
        res.store.start == now && res.store.end - now == store_ns,
        res.load is Some <==> load_ns is Some,
        load_ns matches Some(ns) ==> res.load->0.start == now && res.load->0.end - now == ns,
        res.data == data,
{
}

/// The size of what a projection sends is the width of its weight, which is
/// read before the first element and then kept.
pub proof fn law_projection_keeps_width(op: Proj, weight: Option<&PMUEntry>)
    requires
        weight is Some,
    ensures
        forall|state: &mut ProjState, res: PMUEntry| #[trigger]
            call_ensures(Proj::output, (&op, state, weight), res) ==> {
                &&& final(state).out_size == Some(res.num_elems)
                &&& state.out_size matches Some(size) ==> res.num_elems == size
                &&& state.out_size is None ==> res.num_elems == weight->0.n
            },
{
}

} // verus!
