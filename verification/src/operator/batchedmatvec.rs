//! Timing of batched matrix-vector products.

use vstd::prelude::*;

use crate::operator::matmul::{streamed_step, StreamedStep};

verus! {

/// Multiplies queries by keys, with a number of operations for each element of
/// the batch.
#[derive(Debug)]
pub struct QKt {
    pub flop: Vec<u64>,
}

/// Multiplies attention by values, with a number of operations for each
/// element of the batch.
#[derive(Debug)]
pub struct AttnV {
    pub flop: Vec<u64>,
}

/// The number of operations for element `i` of a batch; `None` behind its end.
pub open spec fn flop_at(flop: Seq<u64>, i: int) -> Option<u64> {
    if i < flop.len() {
        Some(flop[i])
    } else {
        None
    }
}

impl QKt {
    pub fn new(flop: Vec<u64>) -> (res: Self)
        ensures
            res.flop == flop,
    {
        QKt { flop }
    }

    /// The number of operations for the next element, as long as there is one.
    pub fn next_flop(&self, i: usize) -> (res: Option<u64>)
        ensures
            res == flop_at(self.flop@, i as int),
    {
        if i < self.flop.len() {
            Some(self.flop[i])
        } else {
            None
        }
    }

    /// Takes an element of each stream at time `now`.
    pub fn step(&self, now: u64, load_ns: u64, compute_ns: u64) -> (res: StreamedStep)
        requires
            now + load_ns <= u64::MAX,
            now + compute_ns <= u64::MAX,
        ensures
            res.is_step(now as int, load_ns as int, compute_ns as int),
    {
        streamed_step(now, load_ns, compute_ns)
    }
}

impl AttnV {
    pub fn new(flop: Vec<u64>) -> (res: Self)
        ensures
            res.flop == flop,
    {
        AttnV { flop }
    }

    /// The number of operations for the next element, as long as there is one.
    pub fn next_flop(&self, i: usize) -> (res: Option<u64>)
        ensures
            res == flop_at(self.flop@, i as int),
    {
        if i < self.flop.len() {
            Some(self.flop[i])
        } else {
            None
        }
    }

    /// Takes an element of each stream at time `now`.
    pub fn step(&self, now: u64, load_ns: u64, compute_ns: u64) -> (res: StreamedStep)
        requires
            now + load_ns <= u64::MAX,
            now + compute_ns <= u64::MAX,
        ensures
            res.is_step(now as int, load_ns as int, compute_ns as int),
    {
        streamed_step(now, load_ns, compute_ns)
    }
}

/// Both operators read their lists of operations from the front to the end and
/// overlap loading and computing, of which the slower decides.
pub proof fn law_attention_overlaps(
    scores: QKt,
    values: AttnV,
    i: usize,
    flop: Option<u64>,
    value_flop: Option<u64>,
    now: u64,
    load_ns: u64,
    compute_ns: u64,
    score: StreamedStep,
    value: StreamedStep,
)
    requires
        call_ensures(QKt::next_flop, (&scores, i), flop),
        call_ensures(AttnV::next_flop, (&values, i), value_flop),
        call_ensures(QKt::step, (&scores, now, load_ns, compute_ns), score),
        call_ensures(AttnV::step, (&values, now, load_ns, compute_ns), value),
    ensures
        flop is Some <==> i < scores.flop@.len(),
        flop matches Some(n) ==> n == scores.flop@[i as int],
        value_flop is Some <==> i < values.flop@.len(),
        value_flop matches Some(n) ==> n == values.flop@[i as int],
        score.latency == vstd::math::max(load_ns as int, compute_ns as int),
        value.latency == vstd::math::max(load_ns as int, compute_ns as int),
        score.compute.start == now && score.compute.end - now == compute_ns,
        value.load.start == now && value.load.end - now == load_ns,
{
}

} // verus!
