//! Streaming buffers as often as a reference stream asks.

use vstd::prelude::*;

use crate::primitives::buffer::Buffer;
use crate::primitives::elem::{
    elem_cloned, lemma_stream_cloned_concat, stream_cloned, Elem, StopType,
};
use crate::utils::indexing::{
    law_last_step_ends_all, law_stop_level, lemma_product_nonneg, lemma_stop_level_bound, positive,
    product, stop_level,
};
use crate::utils::mapping::reversed;

verus! {

/// Streams each buffer once for each element of a reference stream.
///
/// The buffers have rank `bufferized_rank`. `repeat_rank` is the last
/// (largest) rank that is expanded: the dimensions up to it have extent one in
/// the stream of buffers, and the dimensions above it are those of the
/// reference stream. The output has the shape of the reference stream, with
/// the buffers' dimensions inside.
#[derive(Debug)]
pub struct DynStreamify {
    pub bufferized_rank: StopType,
    pub repeat_rank: StopType,
    pub id: u32,
}

impl DynStreamify {
    /// An element of the buffer, closing also what the reference element
    /// closes if it is the buffer's last.
    pub open spec fn raised<T>(self, e: Elem<T>, ref_stop: StopType) -> Elem<T> {
        match e {
            Elem::Val(x) => Elem::Val(x),
            Elem::ValStop(x, s) => if s == self.bufferized_rank {
                Elem::ValStop(x, (s + ref_stop) as StopType)
            } else {
                Elem::ValStop(x, s)
            },
        }
    }

    /// What is sent for an element of the reference stream, one per cycle.
    pub open spec fn sent<T, R>(self, head: Elem<Buffer<T>>, r: Elem<R>) -> Seq<Elem<T>> {
        let stream = head.value().stream();
        match r {
            Elem::Val(_) => stream,
            Elem::ValStop(_, s) => stream.map_values(|e: Elem<T>| self.raised(e, s)),
        }
    }

    /// The buffer is done with an element of the reference stream.
    pub open spec fn finishes<T, R>(self, head: Elem<Buffer<T>>, r: Elem<R>) -> bool {
        head is ValStop && r is ValStop && r.level() >= self.repeat_rank + 1
    }

    /// A buffer that closes nothing is the only one of a stream of rank zero:
    /// its reference stream has no stops. A stop comes with a buffer whose
    /// rank is no larger than declared.
    pub open spec fn accepts<T, R>(self, head: Elem<Buffer<T>>, r: Elem<R>) -> bool {
        let buffer = head.value();
        &&& buffer.wf()
        &&& buffer.shape@.len() <= u32::MAX
        &&& r matches Elem::ValStop(_, s) ==> {
            &&& head is ValStop
            &&& self.repeat_rank < StopType::MAX
            &&& buffer.data@.len() > 0 ==> buffer.shape@.len() <= self.bufferized_rank
            &&& buffer.data@.len() > 0 && buffer.shape@.len() == self.bufferized_rank ==> s
                + self.bufferized_rank <= StopType::MAX
        }
    }

    /// How many buffers are done after `k` elements of the reference stream.
    pub open spec fn done<T, R>(
        self,
        input: Seq<Elem<Buffer<T>>>,
        refs: Seq<Elem<R>>,
        k: nat,
    ) -> int
        decreases k,
    {
        if k == 0 {
            0
        } else {
            let d = self.done(input, refs, (k - 1) as nat);
            if d < input.len() && self.finishes(input[d], refs[k - 1]) {
                d + 1
            } else {
                d
            }
        }
    }

    /// The stream that leaves for the first `k` elements of the reference
    /// stream.
    pub open spec fn output_upto<T, R>(
        self,
        input: Seq<Elem<Buffer<T>>>,
        refs: Seq<Elem<R>>,
        k: nat,
    ) -> Seq<Elem<T>>
        decreases k,
    {
        if k == 0 {
            Seq::empty()
        } else {
            let before = self.output_upto(input, refs, (k - 1) as nat);
            let d = self.done(input, refs, (k - 1) as nat);
            if d < input.len() {
                before + self.sent(input[d], refs[k - 1])
            } else {
                before
            }
        }
    }

    /// Every element of the reference stream is accepted.
    pub open spec fn accepts_streams<T, R>(
        self,
        input: Seq<Elem<Buffer<T>>>,
        refs: Seq<Elem<R>>,
    ) -> bool {
        forall|k: int|
            0 <= k < refs.len() && self.done(input, refs, k as nat) < input.len() ==> self.accepts(
                input[self.done(input, refs, k as nat)],
                #[trigger] refs[k],
            )
    }

    pub fn new(bufferized_rank: StopType, repeat_rank: StopType, id: u32) -> (res: Self)
        ensures
            res == (DynStreamify { bufferized_rank, repeat_rank, id }),
    {
        DynStreamify { bufferized_rank, repeat_rank, id }
    }

    /// Streams the current buffer once more; the flag says whether the buffer
    /// is done.
    fn streamed<T: Clone, R>(&self, head: &Elem<Buffer<T>>, reference: &Elem<R>) -> (res: (
        Vec<Elem<T>>,
        bool,
    ))
        requires
            self.accepts(*head, *reference),
        ensures
            stream_cloned(self.sent(*head, *reference), res.0@),
            res.1 == self.finishes(*head, *reference),
    {
        let (buffer, closes) = match head {
            Elem::Val(buffer) => (buffer, false),
            Elem::ValStop(buffer, _) => (buffer, true),
        };
        let mut elems = buffer.to_elem_iter();
        let ghost plain = elems@;
        match reference {
            Elem::Val(_) => (elems, false),
            Elem::ValStop(_, s) => {
                let mut i: usize = 0;
                while i < elems.len()
                    invariant
                        i <= elems@.len(),
                        self.accepts(*head, *reference),
                        *reference is ValStop,
                        *s == reference->ValStop_1,
                        *buffer == head.value(),
                        stream_cloned(buffer.stream(), plain),
                        elems@.len() == plain.len(),
                        forall|k: int|
                            0 <= k < i ==> elem_cloned(
                                self.raised(buffer.stream()[k], *s),
                                #[trigger] elems@[k],
                            ),
                        forall|k: int| i <= k < elems@.len() ==> #[trigger] elems@[k] == plain[k],
                    decreases elems@.len() - i,
                {
                    proof {
                        assert(elem_cloned(buffer.stream()[i as int], plain[i as int]));
                        lemma_stop_level_bound(buffer.shape@, i as int);
                    }
                    if let Elem::ValStop(_, level) = &mut elems[i] {
                        if *level == self.bufferized_rank {
                            *level = *level + *s;
                        }
                    }
                    i = i + 1;
                }
                (elems, closes && *s >= self.repeat_rank + 1)
            },
        }
    }

    /// Streams the current buffer once more from cycle `now` on. An element
    /// leaves in each cycle; the flag says whether the buffer is done.
    pub fn step<T: Clone, R>(
        &self,
        now: &mut u64,
        head: &Elem<Buffer<T>>,
        reference: &Elem<R>,
    ) -> (res: (Vec<(u64, Elem<T>)>, bool))
        requires
            self.accepts(*head, *reference),
            *old(now) + head.value().data@.len() <= u64::MAX,
        ensures
            *final(now) == *old(now) + res.0@.len(),
            res.0@.len() == self.sent(*head, *reference).len(),
            forall|i: int|
                0 <= i < res.0@.len() ==> (#[trigger] res.0@[i]).0 == *old(now) + i && elem_cloned(
                    self.sent(*head, *reference)[i],
                    res.0@[i].1,
                ),
            res.1 == self.finishes(*head, *reference),
    {
        let (elems, done) = self.streamed(head, reference);
        let ghost all = elems@;
        let ghost start = *now;
        let mut rest = reversed(elems);
        let mut out: Vec<(u64, Elem<T>)> = Vec::new();
        while rest.len() > 0
            invariant
                rest@.len() + out@.len() == all.len(),
                rest@ == all.reverse().take(rest@.len() as int),
                all.len() <= head.value().data@.len(),
                start + head.value().data@.len() <= u64::MAX,
                *now == start + out@.len(),
                forall|i: int|
                    0 <= i < out@.len() ==> (#[trigger] out@[i]).0 == start + i && out@[i].1
                        == all[i],
            decreases rest@.len(),
        {
            if let Some(elem) = rest.pop() {
                assert(rest@ =~= all.reverse().take(rest@.len() as int));
                out.push((*now, elem));
                *now = *now + 1;
            }
        }
        (out, done)
    }

    /// Streams whole streams.
    pub fn run<T: Clone, R>(&self, input: &Vec<Elem<Buffer<T>>>, refs: &Vec<Elem<R>>) -> (res: Vec<
        Elem<T>,
    >)
        requires
            self.accepts_streams(input@, refs@),
        ensures
            stream_cloned(self.output_upto(input@, refs@, refs@.len()), res@),
    {
        let mut out: Vec<Elem<T>> = Vec::new();
        let mut done: usize = 0;
        let mut k: usize = 0;
        while k < refs.len()
            invariant
                k <= refs@.len(),
                self.accepts_streams(input@, refs@),
                done == self.done(input@, refs@, k as nat),
                done <= input@.len(),
                stream_cloned(self.output_upto(input@, refs@, k as nat), out@),
            decreases refs@.len() - k,
        {
            if done < input.len() {
                let ghost ideal = self.output_upto(input@, refs@, k as nat);
                let ghost next = self.sent(input@[done as int], refs@[k as int]);
                let (mut elems, finished) = self.streamed(&input[done], &refs[k]);
                proof {
                    lemma_stream_cloned_concat(ideal, out@, next, elems@);
                }
                out.append(&mut elems);
                if finished {
                    done = done + 1;
                }
            }
            k = k + 1;
        }
        out
    }
}

/// A buffer streamed for a reference element closes, with its last element,
/// its own dimensions and what the reference element closes.
pub proof fn law_last_element_closes_reference<T, R>(
    op: DynStreamify,
    head: Elem<Buffer<T>>,
    r: Elem<R>,
)
    requires
        op.accepts(head, r),
        head.value().data@.len() > 0,
        head.value().shape@.len() == op.bufferized_rank,
        op.bufferized_rank > 0,
    ensures
        op.sent(head, r).len() == head.value().data@.len(),
        op.sent(head, r).last().level() == op.bufferized_rank + r.level(),
{
    let buffer = head.value();
    lemma_product_nonneg(buffer.shape@);
    law_last_step_ends_all(buffer.shape@);
}

/// Streaming a buffer for an element of the reference stream: its values leave
/// in order, one per cycle, with the stops of its shape; the last one also
/// closes what the reference closes. The buffer is done once the reference
/// closes more than the repeated dimensions and the buffer closes something
/// itself.
pub proof fn law_buffer_is_streamed<T: Clone, R>(
    op: DynStreamify,
    head: Elem<Buffer<T>>,
    r: Elem<R>,
    i: int,
)
    requires
        op.accepts(head, r),
        op.bufferized_rank > 0,
        positive(head.value().shape@),
        head.value().shape@.len() == op.bufferized_rank,
        0 <= i < head.value().data@.len(),
    ensures
        forall|now: &mut u64, res: (Vec<(u64, Elem<T>)>, bool)| #[trigger]
            call_ensures(DynStreamify::step::<T, R>, (&op, now, &head, &r), res) ==> {
                let n = head.value().data@.len();
                &&& res.0@.len() == n
                &&& *final(now) == *now + n
                &&& res.0@[i].0 == *now + i
                &&& cloned(head.value().data@[i], res.0@[i].1.value())
                &&& res.0@[i].1.level() == stop_level(head.value().shape@, i) + (if i == n - 1 {
                    r.level()
                } else {
                    0
                })
                &&& res.1 <==> head is ValStop && r is ValStop && r.level() > op.repeat_rank
            },
{
    let shape = head.value().shape@;
    let n = product(shape);
    lemma_product_nonneg(shape);
    lemma_stop_level_bound(shape, i);
    law_stop_level(shape, i, shape.len() as int);
    assert(shape.skip(0) =~= shape);
    if i == n - 1 {
        vstd::arithmetic::div_mod::lemma_mod_self_0(n);
    } else {
        vstd::arithmetic::div_mod::lemma_small_mod((i + 1) as nat, n as nat);
    }
    let sent = op.sent(head, r);
    let stream = head.value().stream();
    assert(sent.len() == n);
    assert(sent[i].value() == head.value().data@[i]);
    assert(sent[i].level() == stop_level(shape, i) + (if i == n - 1 {
        r.level()
    } else {
        0
    }));
    assert forall|now: &mut u64, res: (Vec<(u64, Elem<T>)>, bool)| #[trigger]
        call_ensures(DynStreamify::step::<T, R>, (&op, now, &head, &r), res) implies res.0@[i].0
        == *now + i && elem_cloned(sent[i], res.0@[i].1) by {}
}

/// Streaming buffers after a reference: the buffer that is streamed is the
/// first one at the beginning, and the next one once a buffer that closes
/// something meets a stop of the reference that closes more than the repeated
/// dimensions. `at` lists which buffer that is, and `starts` where its stream
/// begins for each element of the reference.
pub proof fn law_streams_move_with_reference<T: Clone, R>(
    op: DynStreamify,
    input: Vec<Elem<Buffer<T>>>,
    refs: Vec<Elem<R>>,
    out: Vec<Elem<T>>,
    at: Seq<int>,
    starts: Seq<int>,
    k: int,
    i: int,
)
    requires
        op.accepts_streams(input@, refs@),
        call_ensures(DynStreamify::run::<T, R>, (&op, &input, &refs), out),
        at.len() == refs@.len() + 1,
        starts.len() == refs@.len() + 1,
        at[0] == 0,
        starts[0] == 0,
        forall|k: int|
            0 <= k < refs@.len() ==> {
                &&& 0 <= at[k] < input@.len()
                &&& at[k + 1] == at[k] + (if input@[at[k]] is ValStop && (#[trigger] refs@[k])
                    is ValStop && refs@[k].level() > op.repeat_rank {
                    1int
                } else {
                    0
                })
                &&& starts[k + 1] == starts[k] + input@[at[k]].value().data@.len()
            },
        0 <= k < refs@.len(),
        0 <= i < input@[at[k]].value().data@.len(),
    ensures
        out@.len() == starts[refs@.len() as int],
        0 <= starts[k] + i < out@.len(),
        cloned(input@[at[k]].value().data@[i], out@[starts[k] + i].value()),
{
    let r = refs@[k];
    lemma_moves(op, input@, refs@, at, starts, refs@.len(), k, i);
    let ideal = op.output_upto(input@, refs@, refs@.len());
    assert(elem_cloned(ideal[starts[k] + i], out@[starts[k] + i]));
}

proof fn lemma_moves<T, R>(
    op: DynStreamify,
    input: Seq<Elem<Buffer<T>>>,
    refs: Seq<Elem<R>>,
    at: Seq<int>,
    starts: Seq<int>,
    n: nat,
    k: int,
    i: int,
)
    requires
        at.len() == refs.len() + 1,
        starts.len() == refs.len() + 1,
        at[0] == 0,
        starts[0] == 0,
        forall|k: int|
            0 <= k < refs.len() ==> {
                &&& 0 <= at[k] < input.len()
                &&& at[k + 1] == at[k] + (if input[at[k]] is ValStop && (#[trigger] refs[k])
                    is ValStop && refs[k].level() > op.repeat_rank {
                    1int
                } else {
                    0
                })
                &&& starts[k + 1] == starts[k] + input[at[k]].value().data@.len()
            },
        n <= refs.len(),
        0 <= k < refs.len(),
        0 <= i < input[at[k]].value().data@.len(),
    ensures
        op.done(input, refs, n) == at[n as int],
        op.output_upto(input, refs, n).len() == starts[n as int],
        k < n ==> 0 <= starts[k] + i < starts[n as int] && op.output_upto(input, refs, n)[starts[k]
            + i].value() == input[at[k]].value().data@[i],
        starts[n as int] >= 0,
    decreases n,
{
    if n > 0 {
        let m = n - 1;
        lemma_moves(op, input, refs, at, starts, m as nat, k, i);
        let r = refs[m];
        assert(at[m + 1] == at[n as int]);
        let sent = op.sent(input[at[m]], refs[m]);
        assert(sent.len() == input[at[m]].value().data@.len());
        let before = op.output_upto(input, refs, m as nat);
        assert(op.output_upto(input, refs, n) == before + sent);
        if k == m {
            assert(sent[i].value() == input[at[k]].value().data@[i]);
        }
    }
}

} // verus!
