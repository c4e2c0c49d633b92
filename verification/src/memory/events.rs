//! Events that a simulation logs.

use vstd::prelude::*;

verus! {

/// An event that lasts from one time to another.
pub trait LoggableEventSimple: Sized {
    /// When the event starts.
    spec fn starts(&self) -> u64;

    /// When the event ends.
    spec fn ends(&self) -> u64;

    fn new(start_ns: u64, end_ns: u64) -> (res: Self)
        ensures
            res.starts() == start_ns,
            res.ends() == end_ns,
    ;
}

/// An event without anything but its times.
#[derive(Debug, Clone, Copy, PartialEq, Eq)]
pub struct SimpleEvent {
    pub start_ns: u64,
    pub end_ns: u64,
}

impl LoggableEventSimple for SimpleEvent {
    open spec fn starts(&self) -> u64 {
        self.start_ns
    }

    open spec fn ends(&self) -> u64 {
        self.end_ns
    }

    fn new(start_ns: u64, end_ns: u64) -> (res: Self) {
        SimpleEvent { start_ns, end_ns }
    }
}

} // verus!
