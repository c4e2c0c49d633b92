//! Replaying a recorded memory trace.

use vstd::prelude::*;

use crate::memory_simple::{hbm_to_pmu, HBMEntry, PMUEntry};

verus! {

/// Loads the tiles of a recorded trace one after the other. Since the trace
/// only says how long loading each tile takes, the time at which a tile is
/// there also depends on when the one before it could be sent.
#[derive(Debug)]
pub struct HBMLoadContext {
    pub file_path: String,
}

impl HBMLoadContext {
    pub fn new(file_path: String) -> (res: Self)
        ensures
            res == (HBMLoadContext { file_path }),
    {
        HBMLoadContext { file_path }
    }

    /// Loads a tile that is begun at time `now`: when it is there, and what is
    /// sent then.
    pub fn step(&self, now: u64, entry: &HBMEntry) -> (res: (u64, PMUEntry))
        requires
            now + entry.time_block_ns <= u64::MAX,
        ensures
            res.0 == now + entry.time_block_ns,
            res.1.outer == entry.outer,
            res.1.m == entry.m,
            res.1.n == entry.n,
            res.1.k == entry.k,
            res.1.output_tile_available == entry.output_tile_available,
            res.1.num_elems == entry.num_elems,
    {
        (now + entry.time_block_ns, hbm_to_pmu(entry))
    }
}

} // verus!
