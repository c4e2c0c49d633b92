//! Adding a dimension of size one to a stream.

use vstd::prelude::*;

use crate::primitives::elem::{elem_cloned, stream_cloned, Elem, StopType};

verus! {

/// Inserts a dimension of size one at rank `promote_rank`, in no time: an
/// element is sent in the cycle in which it arrives.
#[derive(Debug)]
pub struct Promote {
    pub promote_rank: StopType,
}

impl Promote {
    /// The element that is sent for an element.
    pub open spec fn promoted<T>(self, e: Elem<T>) -> Elem<T> {
        match e {
            Elem::Val(x) => if self.promote_rank == 0 {
                Elem::ValStop(x, 1)
            } else {
                Elem::Val(x)
            },
            Elem::ValStop(x, s) => if self.promote_rank > s {
                Elem::ValStop(x, s)
            } else {
                Elem::ValStop(x, (s + 1) as StopType)
            },
        }
    }

    /// The stream that leaves for a whole input stream.
    pub open spec fn output<T>(self, input: Seq<Elem<T>>) -> Seq<Elem<T>> {
        input.map_values(|e: Elem<T>| self.promoted(e))
    }

    pub fn new(promote_rank: StopType) -> (res: Self)
        ensures
            res.promote_rank == promote_rank,
    {
        Promote { promote_rank }
    }

    /// Sends on one element, in the cycle `now` in which it arrives.
    pub fn step<T: Clone>(&self, now: u64, elem: &Elem<T>) -> (res: (u64, Elem<T>))
        requires
            self.promote_rank <= elem.level() ==> elem.level() < StopType::MAX,
        ensures
            res.0 == now,
            elem_cloned(self.promoted(*elem), res.1),
    {
        let sent = match elem {
            Elem::Val(x) => if self.promote_rank == 0 {
                Elem::ValStop(x.clone(), 1)
            } else {
                Elem::Val(x.clone())
            },
            Elem::ValStop(x, s) => {
                let level: StopType = if self.promote_rank > *s {
                    *s
                } else {
                    *s + 1
                };
                Elem::ValStop(x.clone(), level)
            },
        };
        (now, sent)
    }

    /// Sends a whole stream through, whenever its elements arrive.
    pub fn run<T: Clone>(&self, input: &Vec<Elem<T>>) -> (res: Vec<Elem<T>>)
        requires
            forall|i: int|
                0 <= i < input@.len() && self.promote_rank <= (#[trigger] input@[i]).level()
                    ==> input@[i].level() < StopType::MAX,
        ensures
            stream_cloned(self.output(input@), res@),
    {
        let mut out: Vec<Elem<T>> = Vec::new();
        let mut i: usize = 0;
        while i < input.len()
            invariant
                i <= input@.len(),
                forall|i: int|
                    0 <= i < input@.len() && self.promote_rank <= (#[trigger] input@[i]).level()
                        ==> input@[i].level() < StopType::MAX,
                stream_cloned(self.output(input@.take(i as int)), out@),
            decreases input@.len() - i,
        {
            let (_, sent) = self.step(0, &input[i]);
            out.push(sent);
            i = i + 1;
        }
        assert(input@.take(i as int) =~= input@);
        out
    }
}

} // verus!
