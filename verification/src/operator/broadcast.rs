//! Sending one stream to several targets.

use vstd::prelude::*;

use crate::primitives::elem::{elem_cloned, Elem};

verus! {

/// Sends every element to each of `targets` targets, once all of them have
/// room.
#[derive(Debug)]
pub struct BroadcastContext {
    pub targets: usize,
}

impl BroadcastContext {
    /// A broadcast without targets.
    pub fn new() -> (res: Self)
        ensures
            res.targets == 0,
    {
        BroadcastContext { targets: 0 }
    }

    /// Registers one more target and returns its number.
    pub fn add_target(&mut self) -> (res: usize)
        requires
            old(self).targets < usize::MAX,
        ensures
            res == old(self).targets,
            final(self).targets == old(self).targets + 1,
    {
        let target: usize = self.targets;
        self.targets = self.targets + 1;
        target
    }

    /// What the targets receive for one element, all in the same cycle.
    pub fn step<T: Clone>(&self, elem: &Elem<T>) -> (res: Vec<Elem<T>>)
        ensures
            res@.len() == self.targets,
            forall|k: int| 0 <= k < res@.len() ==> elem_cloned(*elem, #[trigger] res@[k]),
    {
        let mut out: Vec<Elem<T>> = Vec::new();
        let mut k: usize = 0;
        while k < self.targets
            invariant
                k <= self.targets,
                out@.len() == k,
                forall|k: int| 0 <= k < out@.len() ==> elem_cloned(*elem, #[trigger] out@[k]),
            decreases self.targets - k,
        {
            out.push(elem.clone());
            k = k + 1;
        }
        out
    }
}

/// Every target that has been added receives the element as it is.
pub proof fn law_every_target_receives<T: Clone>(
    op: BroadcastContext,
    elem: Elem<T>,
    res: Vec<Elem<T>>,
    k: int,
)
    requires
        call_ensures(BroadcastContext::step::<T>, (&op, &elem), res),
        0 <= k < op.targets,
    ensures
        res@.len() == op.targets,
        cloned(elem.value(), res@[k].value()),
        res@[k].level() == elem.level(),
        res@[k] is ValStop <==> elem is ValStop,
{
    assert(elem_cloned(elem, res@[k]));
}

} // verus!
