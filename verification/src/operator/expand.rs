//! Expanding a stream to the shape of a reference stream.

use vstd::prelude::*;

use crate::primitives::elem::{
    elem_cloned, lemma_stream_cloned_concat, stream_cloned, Elem, StopType,
};

verus! {

/// Sends every element for each element of a reference stream up to a stop of
/// level `expand_rank` or more, with the stops of the reference stream.
#[derive(Debug)]
pub struct ExpandRef {
    pub expand_rank: StopType,
    pub id: u32,
}

impl ExpandRef {
    /// The element that is sent for an element of the reference stream.
    pub open spec fn sent<T, R>(self, e: Elem<T>, r: Elem<R>) -> Elem<T> {
        match r {
            Elem::Val(_) => Elem::Val(e.value()),
            Elem::ValStop(_, s) => Elem::ValStop(e.value(), s),
        }
    }

    /// The element is done with an element of the reference stream.
    pub open spec fn finishes<T, R>(self, e: Elem<T>, r: Elem<R>) -> bool {
        e is ValStop && r is ValStop && r.level() >= self.expand_rank
    }

    /// An element that closes nothing is the only one of a stream of rank
    /// zero: its reference stream has no stops either.
    pub open spec fn accepts<T, R>(self, e: Elem<T>, r: Elem<R>) -> bool {
        e is Val ==> self.expand_rank == 1 && r is Val
    }

    /// The reference stream may end at an element that closes nothing.
    pub open spec fn accepts_end<T>(self, e: Elem<T>) -> bool {
        e is Val && self.expand_rank == 1
    }

    /// How many elements are done after `k` elements of the reference stream.
    pub open spec fn done<T, R>(self, input: Seq<Elem<T>>, refs: Seq<Elem<R>>, k: nat) -> int
        decreases k,
    {
        if k == 0 {
            0
        } else {
            let d = self.done(input, refs, (k - 1) as nat);
            if d < input.len() && self.finishes(input[d], refs[k - 1]) {
                d + 1
            } else {
                d
            }
        }
    }

    /// The stream that leaves for the first `k` elements of the reference
    /// stream.
    pub open spec fn output_upto<T, R>(
        self,
        input: Seq<Elem<T>>,
        refs: Seq<Elem<R>>,
        k: nat,
    ) -> Seq<Elem<T>>
        decreases k,
    {
        if k == 0 {
            Seq::empty()
        } else {
            let before = self.output_upto(input, refs, (k - 1) as nat);
            let d = self.done(input, refs, (k - 1) as nat);
            if d < input.len() {
                before.push(self.sent(input[d], refs[k - 1]))
            } else {
                before
            }
        }
    }

    /// Every element of the reference stream is accepted, and so is its end.
    pub open spec fn accepts_streams<T, R>(self, input: Seq<Elem<T>>, refs: Seq<Elem<R>>) -> bool {
        let last = self.done(input, refs, refs.len());
        &&& forall|k: int|
            0 <= k < refs.len() && self.done(input, refs, k as nat) < input.len() ==> self.accepts(
                input[self.done(input, refs, k as nat)],
                #[trigger] refs[k],
            )
        &&& last < input.len() ==> self.accepts_end(input[last])
    }

    pub fn new(expand_rank: StopType, id: u32) -> (res: Self)
        ensures
            res == (ExpandRef { expand_rank, id }),
    {
        ExpandRef { expand_rank, id }
    }

    /// Sends the current element once more; the flag says whether it is done.
    pub fn step<T: Clone, R>(&self, elem: &Elem<T>, reference: &Elem<R>) -> (res: (Elem<T>, bool))
        requires
            self.accepts(*elem, *reference),
        ensures
            elem_cloned(self.sent(*elem, *reference), res.0),
            res.1 == self.finishes(*elem, *reference),
    {
        let (value, closes) = match elem {
            Elem::Val(x) => (x, false),
            Elem::ValStop(x, _) => (x, true),
        };
        match reference {
            Elem::Val(_) => (Elem::Val(value.clone()), false),
            Elem::ValStop(_, s) => (
                Elem::ValStop(value.clone(), *s),
                closes && *s >= self.expand_rank,
            ),
        }
    }

    /// Sends a whole stream.
    pub fn run<T: Clone, R>(&self, input: &Vec<Elem<T>>, refs: &Vec<Elem<R>>) -> (res: Vec<Elem<T>>)
        requires
            self.accepts_streams(input@, refs@),
        ensures
            stream_cloned(self.output_upto(input@, refs@, refs@.len()), res@),
    {
        let mut out: Vec<Elem<T>> = Vec::new();
        let mut done: usize = 0;
        let mut k: usize = 0;
        while k < refs.len()
            invariant
                k <= refs@.len(),
                self.accepts_streams(input@, refs@),
                done == self.done(input@, refs@, k as nat),
                done <= input@.len(),
                stream_cloned(self.output_upto(input@, refs@, k as nat), out@),
            decreases refs@.len() - k,
        {
            if done < input.len() {
                let ghost ideal = self.output_upto(input@, refs@, k as nat);
                let ghost next = self.sent(input@[done as int], refs@[k as int]);
                let (elem, finished) = self.step(&input[done], &refs[k]);
                proof {
                    lemma_stream_cloned_concat(ideal, out@, seq![next], seq![elem]);
                    assert(ideal.push(next) =~= ideal + seq![next]);
                    assert(out@.push(elem) =~= out@ + seq![elem]);
                }
                out.push(elem);
                if finished {
                    done = done + 1;
                }
            }
            k = k + 1;
        }
        out
    }
}

/// An expanded stream has the stops of its reference stream.
pub proof fn law_expand_has_reference_shape<T, R>(
    op: ExpandRef,
    input: Seq<Elem<T>>,
    refs: Seq<Elem<R>>,
    n: nat,
    k: int,
)
    requires
        n <= refs.len(),
        0 <= k < n,
        forall|j: int| 0 <= j < n ==> #[trigger] op.done(input, refs, j as nat) < input.len(),
    ensures
        op.output_upto(input, refs, n).len() == n,
        op.output_upto(input, refs, n)[k].level() == refs[k].level(),
    decreases n,
{
    assert(op.done(input, refs, (n - 1) as nat) < input.len());
    if k < n - 1 {
        law_expand_has_reference_shape(op, input, refs, (n - 1) as nat, k);
    } else if n > 1 {
        law_expand_has_reference_shape(op, input, refs, (n - 1) as nat, 0);
    } else {
        assert(op.output_upto(input, refs, 0).len() == 0);
    }
}

/// For every element of the reference stream the current element is sent with
/// the stop of the reference. It is done once it closes something and the
/// reference closes the expanded dimensions.
pub proof fn law_expanded_element<T: Clone, R>(
    op: ExpandRef,
    e: Elem<T>,
    r: Elem<R>,
    res: (Elem<T>, bool),
)
    requires
        call_ensures(ExpandRef::step::<T, R>, (&op, &e, &r), res),
    ensures
        cloned(e.value(), res.0.value()),
        res.0 is ValStop <==> r is ValStop,
        res.0.level() == r.level(),
        res.1 <==> e is ValStop && r is ValStop && r.level() >= op.expand_rank,
{
}

/// Expanding a stream after a reference: the element that is sent is the first
/// one at the beginning, and the next one once an element that closes something
/// meets a stop of the reference that closes the expanded dimensions.
/// `at` lists which element that is.
pub proof fn law_expand_moves_with_reference<T: Clone, R>(
    op: ExpandRef,
    input: Vec<Elem<T>>,
    refs: Vec<Elem<R>>,
    out: Vec<Elem<T>>,
    at: Seq<int>,
    k: int,
)
    requires
        call_ensures(ExpandRef::run::<T, R>, (&op, &input, &refs), out),
        at.len() == refs@.len() + 1,
        at[0] == 0,
        forall|k: int|
            0 <= k < refs@.len() ==> 0 <= at[k] < input@.len() && at[k + 1] == at[k] + (
            if input@[at[k]] is ValStop && (#[trigger] refs@[k]) is ValStop && refs@[k].level() >= op.expand_rank {
                1int
            } else {
                0
            }),
        0 <= k < refs@.len(),
    ensures
        out@.len() == refs@.len(),
        cloned(input@[at[k]].value(), out@[k].value()),
        out@[k] is ValStop <==> refs@[k] is ValStop,
{
    let r = refs@[k];
    lemma_moves(op, input@, refs@, at, refs@.len(), k);
    let ideal = op.output_upto(input@, refs@, refs@.len());
    assert(elem_cloned(ideal[k], out@[k]));
}

proof fn lemma_moves<T, R>(
    op: ExpandRef,
    input: Seq<Elem<T>>,
    refs: Seq<Elem<R>>,
    at: Seq<int>,
    n: nat,
    k: int,
)
    requires
        at.len() == refs.len() + 1,
        at[0] == 0,
        forall|k: int|
            0 <= k < refs.len() ==> 0 <= at[k] < input.len() && at[k + 1] == at[k] + (
            if input[at[k]] is ValStop && (#[trigger] refs[k]) is ValStop && refs[k].level() >= op.expand_rank {
                1int
            } else {
                0
            }),
        n <= refs.len(),
        0 <= k < refs.len(),
    ensures
        op.done(input, refs, n) == at[n as int],
        op.output_upto(input, refs, n).len() == n,
        k < n ==> op.output_upto(input, refs, n)[k] == op.sent(input[at[k]], refs[k]),
    decreases n,
{
    if n > 0 {
        lemma_moves(op, input, refs, at, (n - 1) as nat, k);
        let r = refs[n - 1];
        assert(at[n - 1 + 1] == at[n as int]);
    }
}

} // verus!
