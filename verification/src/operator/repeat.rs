//! Repeating the elements of a stream.

use vstd::prelude::*;

use crate::primitives::elem::{
    elem_cloned, lemma_stream_cloned_concat, stream_cloned, Elem, StopType,
};

verus! {

/// Sends every element `repeat_factor` times, one copy per cycle.
#[derive(Debug)]
pub struct RepeatStatic {
    pub repeat_factor: usize,
}

impl RepeatStatic {
    /// The copies of an element: the last closes the new dimension, and what
    /// the element closes.
    pub open spec fn copies<T>(self, e: Elem<T>) -> Seq<Elem<T>> {
        Seq::new(
            self.repeat_factor as nat,
            |i: int|
                if i == self.repeat_factor - 1 {
                    Elem::ValStop(e.value(), (e.level() + 1) as StopType)
                } else {
                    Elem::Val(e.value())
                },
        )
    }

    pub fn new(repeat_factor: usize) -> (res: Self)
        ensures
            res.repeat_factor == repeat_factor,
    {
        RepeatStatic { repeat_factor }
    }

    /// Repeats an element that arrives in cycle `now`. Copy `i` leaves in
    /// cycle `now + i`, and the next element is taken once all have left.
    pub fn step<T: Clone>(&self, now: &mut u64, elem: &Elem<T>) -> (res: Vec<(u64, Elem<T>)>)
        requires
            self.repeat_factor > 0,
            elem.level() < StopType::MAX,
            *old(now) + self.repeat_factor <= u64::MAX,
        ensures
            *final(now) == *old(now) + self.repeat_factor,
            res@.len() == self.repeat_factor,
            forall|i: int|
                0 <= i < res@.len() ==> (#[trigger] res@[i]).0 == *old(now) + i && elem_cloned(
                    self.copies(*elem)[i],
                    res@[i].1,
                ),
    {
        let start: u64 = *now;
        let mut out: Vec<(u64, Elem<T>)> = Vec::new();
        let mut i: usize = 0;
        while i < self.repeat_factor
            invariant
                i <= self.repeat_factor,
                elem.level() < StopType::MAX,
                start + self.repeat_factor <= u64::MAX,
                out@.len() == i,
                forall|k: int|
                    0 <= k < out@.len() ==> (#[trigger] out@[k]).0 == start + k && elem_cloned(
                        self.copies(*elem)[k],
                        out@[k].1,
                    ),
            decreases self.repeat_factor - i,
        {
            let (value, level) = match elem {
                Elem::Val(x) => (x, 0),
                Elem::ValStop(x, s) => (x, *s),
            };
            let copy = if i == self.repeat_factor - 1 {
                Elem::ValStop(value.clone(), level + 1)
            } else {
                Elem::Val(value.clone())
            };
            out.push((start + i as u64, copy));
            i = i + 1;
        }
        *now = start + self.repeat_factor as u64;
        out
    }
}

/// Sends every element as often as a reference stream has elements up to its
/// next stop.
#[derive(Debug)]
pub struct RepeatRef {
    pub id: u32,
}

impl RepeatRef {
    /// The element that is sent for an element of the reference stream.
    pub open spec fn sent<T, R>(self, e: Elem<T>, r: Elem<R>) -> Elem<T> {
        match r {
            Elem::Val(_) => Elem::Val(e.value()),
            Elem::ValStop(_, _) => Elem::ValStop(e.value(), (e.level() + 1) as StopType),
        }
    }

    /// A stop of the reference stream closes the new dimension and what the
    /// element closes; an element that closes nothing accepts any stop.
    pub open spec fn accepts<T, R>(self, e: Elem<T>, r: Elem<R>) -> bool {
        r matches Elem::ValStop(_, s) ==> (e matches Elem::ValStop(_, in_s) ==> in_s + 1 == s)
    }

    /// How many elements are done after `k` elements of the reference stream.
    pub open spec fn done<T, R>(self, input: Seq<Elem<T>>, refs: Seq<Elem<R>>, k: nat) -> int
        decreases k,
    {
        if k == 0 {
            0
        } else {
            let d = self.done(input, refs, (k - 1) as nat);
            if d < input.len() && refs[k - 1] is ValStop {
                d + 1
            } else {
                d
            }
        }
    }

    /// The stream that leaves for the first `k` elements of the reference
    /// stream.
    pub open spec fn output_upto<T, R>(
        self,
        input: Seq<Elem<T>>,
        refs: Seq<Elem<R>>,
        k: nat,
    ) -> Seq<Elem<T>>
        decreases k,
    {
        if k == 0 {
            Seq::empty()
        } else {
            let before = self.output_upto(input, refs, (k - 1) as nat);
            let d = self.done(input, refs, (k - 1) as nat);
            if d < input.len() {
                before.push(self.sent(input[d], refs[k - 1]))
            } else {
                before
            }
        }
    }

    /// The stops agree, and the reference stream does not end early.
    pub open spec fn accepts_streams<T, R>(self, input: Seq<Elem<T>>, refs: Seq<Elem<R>>) -> bool {
        &&& forall|k: int|
            0 <= k < refs.len() && self.done(input, refs, k as nat) < input.len() ==> self.accepts(
                input[self.done(input, refs, k as nat)],
                #[trigger] refs[k],
            )
        &&& self.done(input, refs, refs.len()) == input.len()
    }

    pub fn new(id: u32) -> (res: Self)
        ensures
            res.id == id,
    {
        RepeatRef { id }
    }

    /// Sends the current element once more; the flag says whether it is done.
    pub fn step<T: Clone, R>(&self, elem: &Elem<T>, reference: &Elem<R>) -> (res: (Elem<T>, bool))
        requires
            self.accepts(*elem, *reference),
        ensures
            elem_cloned(self.sent(*elem, *reference), res.0),
            res.1 == (reference is ValStop),
    {
        match reference {
            Elem::Val(_) => match elem {
                Elem::Val(x) => (Elem::Val(x.clone()), false),
                Elem::ValStop(x, _) => (Elem::Val(x.clone()), false),
            },
            Elem::ValStop(_, s) => match elem {
                Elem::Val(x) => (Elem::ValStop(x.clone(), 1), true),
                Elem::ValStop(x, _) => (Elem::ValStop(x.clone(), *s), true),
            },
        }
    }

    /// Sends a whole stream.
    pub fn run<T: Clone, R>(&self, input: &Vec<Elem<T>>, refs: &Vec<Elem<R>>) -> (res: Vec<Elem<T>>)
        requires
            self.accepts_streams(input@, refs@),
        ensures
            stream_cloned(self.output_upto(input@, refs@, refs@.len()), res@),
    {
        let mut out: Vec<Elem<T>> = Vec::new();
        let mut done: usize = 0;
        let mut k: usize = 0;
        while k < refs.len()
            invariant
                k <= refs@.len(),
                self.accepts_streams(input@, refs@),
                done == self.done(input@, refs@, k as nat),
                done <= input@.len(),
                stream_cloned(self.output_upto(input@, refs@, k as nat), out@),
            decreases refs@.len() - k,
        {
            if done < input.len() {
                let ghost ideal = self.output_upto(input@, refs@, k as nat);
                let ghost next = self.sent(input@[done as int], refs@[k as int]);
                let (elem, finished) = self.step(&input[done], &refs[k]);
                proof {
                    lemma_stream_cloned_concat(ideal, out@, seq![next], seq![elem]);
                    assert(ideal.push(next) =~= ideal + seq![next]);
                    assert(out@.push(elem) =~= out@ + seq![elem]);
                }
                out.push(elem);
                if finished {
                    done = done + 1;
                }
            }
            k = k + 1;
        }
        out
    }
}

/// A stream repeated after a reference stream has the stops of the reference
/// stream, if that begins anew after each element with the element's own stop
/// raised by one.
pub proof fn law_repeat_has_reference_shape<T, R>(
    op: RepeatRef,
    input: Seq<Elem<T>>,
    refs: Seq<Elem<R>>,
    k: int,
)
    requires
        op.accepts_streams(input, refs),
        0 <= k < refs.len(),
        forall|j: int|
            0 <= j < refs.len() && op.done(input, refs, j as nat) < input.len() && (
            #[trigger] refs[j]) is ValStop ==> refs[j].level() == input[op.done(
                input,
                refs,
                j as nat,
            )].level() + 1,
        forall|j: int|
            0 <= j < refs.len() ==> #[trigger] op.done(input, refs, j as nat) < input.len(),
    ensures
        op.output_upto(input, refs, refs.len()).len() == refs.len(),
        op.output_upto(input, refs, refs.len())[k].level() == refs[k].level(),
{
    lemma_repeat_prefix(op, input, refs, refs.len(), k);
}

proof fn lemma_repeat_prefix<T, R>(
    op: RepeatRef,
    input: Seq<Elem<T>>,
    refs: Seq<Elem<R>>,
    n: nat,
    k: int,
)
    requires
        n <= refs.len(),
        0 <= k < refs.len(),
        forall|j: int|
            0 <= j < refs.len() && op.done(input, refs, j as nat) < input.len() && (
            #[trigger] refs[j]) is ValStop ==> refs[j].level() == input[op.done(
                input,
                refs,
                j as nat,
            )].level() + 1,
        forall|j: int|
            0 <= j < refs.len() ==> #[trigger] op.done(input, refs, j as nat) < input.len(),
    ensures
        op.output_upto(input, refs, n).len() == n,
        k < n ==> op.output_upto(input, refs, n)[k].level() == refs[k].level(),
    decreases n,
{
    if n > 0 {
        lemma_repeat_prefix(op, input, refs, (n - 1) as nat, k);
        assert(op.done(input, refs, (n - 1) as nat) < input.len());
        assert(refs[n - 1] is ValStop ==> refs[n - 1].level() == input[op.done(
            input,
            refs,
            (n - 1) as nat,
        )].level() + 1);
    }
}

/// For every element of the reference stream the current element is sent once
/// more. A stop of the reference ends it: its last copy closes one dimension
/// more than it closes itself, and no other copy closes anything.
pub proof fn law_repeated_element<T: Clone, R>(
    op: RepeatRef,
    e: Elem<T>,
    r: Elem<R>,
    res: (Elem<T>, bool),
)
    requires
        op.accepts(e, r),
        e.level() < StopType::MAX,
        call_ensures(RepeatRef::step::<T, R>, (&op, &e, &r), res),
    ensures
        cloned(e.value(), res.0.value()),
        res.1 <==> r is ValStop,
        res.0 is ValStop <==> r is ValStop,
        res.0.level() == (if r is ValStop {
            e.level() + 1
        } else {
            0
        }),
{
}

/// An element leaves `repeat_factor` times, one copy per cycle from the cycle
/// in which it is taken, and only the last copy closes anything: one dimension
/// more than the element.
pub proof fn law_copies_leave_in_turn<T: Clone>(op: RepeatStatic, e: Elem<T>, i: int)
    requires
        0 <= i < op.repeat_factor,
        e.level() < StopType::MAX,
    ensures
        forall|now: &mut u64, res: Vec<(u64, Elem<T>)>| #[trigger]
            call_ensures(RepeatStatic::step::<T>, (&op, now, &e), res) ==> {
                &&& res@.len() == op.repeat_factor
                &&& *final(now) == *now + op.repeat_factor
                &&& res@[i].0 == *now + i
                &&& cloned(e.value(), res@[i].1.value())
                &&& res@[i].1.level() == (if i == op.repeat_factor - 1 {
                    e.level() + 1
                } else {
                    0
                })
            },
{
    assert forall|now: &mut u64, res: Vec<(u64, Elem<T>)>| #[trigger]
        call_ensures(RepeatStatic::step::<T>, (&op, now, &e), res) implies res@[i].0 == *now + i
        && elem_cloned(op.copies(e)[i], res@[i].1) by {}
}

/// Repeating a stream after a reference: the element that is sent is the first
/// one at the beginning, and the next one behind every stop of the reference.
/// `at` lists which element that is.
pub proof fn law_repeat_moves_with_reference<T: Clone, R>(
    op: RepeatRef,
    input: Vec<Elem<T>>,
    refs: Vec<Elem<R>>,
    out: Vec<Elem<T>>,
    at: Seq<int>,
    k: int,
)
    requires
        call_ensures(RepeatRef::run::<T, R>, (&op, &input, &refs), out),
        at.len() == refs@.len() + 1,
        at[0] == 0,
        forall|k: int|
            0 <= k < refs@.len() ==> 0 <= at[k] < input@.len() && at[k + 1] == at[k] + (
            if (#[trigger] refs@[k]) is ValStop {
                1int
            } else {
                0
            }),
        0 <= k < refs@.len(),
    ensures
        out@.len() == refs@.len(),
        cloned(input@[at[k]].value(), out@[k].value()),
        out@[k] is ValStop <==> refs@[k] is ValStop,
{
    let r = refs@[k];
    lemma_moves(op, input@, refs@, at, refs@.len(), k);
    let ideal = op.output_upto(input@, refs@, refs@.len());
    assert(elem_cloned(ideal[k], out@[k]));
}

proof fn lemma_moves<T, R>(
    op: RepeatRef,
    input: Seq<Elem<T>>,
    refs: Seq<Elem<R>>,
    at: Seq<int>,
    n: nat,
    k: int,
)
    requires
        at.len() == refs.len() + 1,
        at[0] == 0,
        forall|k: int|
            0 <= k < refs.len() ==> 0 <= at[k] < input.len() && at[k + 1] == at[k] + (
            if (#[trigger] refs[k]) is ValStop {
                1int
            } else {
                0
            }),
        n <= refs.len(),
        0 <= k < refs.len(),
    ensures
        op.done(input, refs, n) == at[n as int],
        op.output_upto(input, refs, n).len() == n,
        k < n ==> op.output_upto(input, refs, n)[k] == op.sent(input[at[k]], refs[k]),
    decreases n,
{
    if n > 0 {
        lemma_moves(op, input, refs, at, (n - 1) as nat, k);
        let r = refs[n - 1];
        assert(at[n - 1 + 1] == at[n as int]);
    }
}

} // verus!
