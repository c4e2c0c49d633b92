//! Splitting a dimension of a stream into chunks.

use vstd::prelude::*;

use crate::operator::promote::Promote;
use crate::primitives::elem::{
    elem_cloned, lemma_stream_cloned_concat, stream_cloned, Elem, StopType,
};
use crate::utils::mapping::in_cycle;

verus! {

/// Splits dimension `split_dim` into chunks of `chunk_size`.
///
/// Splitting the innermost dimension pads a dimension that is not a multiple
/// of the chunk size with `pad_val`; a stream of rank zero is padded at its
/// end. `add_outer_dim` closes one more dimension with the last chunk of such
/// a stream. All of this takes no time.
#[derive(Debug)]
pub struct Reshape<T> {
    pub split_dim: usize,
    pub chunk_size: usize,
    pub pad_val: Option<T>,
    pub input_stream_rank: StopType,
    pub add_outer_dim: bool,
    pub id: u32,
}

impl<T> Reshape<T> {
    /// `n` padding elements, the last of which closes `level` dimensions.
    pub open spec fn padding(self, n: int, level: StopType) -> Seq<Elem<T>> {
        let pad = self.pad_val->0;
        Seq::new(
            n as nat,
            |i: int|
                if i == n - 1 {
                    Elem::ValStop(pad, level)
                } else {
                    Elem::Val(pad)
                },
        )
    }

    /// Whether an element counts towards the current chunk.
    pub open spec fn counts(self, e: Elem<T>) -> bool {
        self.split_dim == 0 || (e matches Elem::ValStop(_, s) && s >= self.split_dim as StopType)
    }

    /// Elements counted in the current chunk, the given one included.
    pub open spec fn counted(self, counter: int, e: Elem<T>) -> int {
        if self.counts(e) {
            counter + 1
        } else {
            counter
        }
    }

    /// The element completes a chunk.
    pub open spec fn completes(self, counter: int, e: Elem<T>) -> bool {
        &&& self.counted(counter, e) == self.chunk_size
        &&& self.split_dim == 0 || e is ValStop
    }

    /// Elements counted in the chunk that is open after the given element.
    pub open spec fn next_counter(self, counter: int, e: Elem<T>) -> int {
        if self.completes(counter, e) || (self.split_dim == 0 && e is ValStop) {
            0
        } else {
            self.counted(counter, e)
        }
    }

    /// What is sent for an element; `more` says whether another one follows.
    pub open spec fn emitted(self, counter: int, e: Elem<T>, more: bool) -> Seq<Elem<T>> {
        match e {
            Elem::Val(x) => if self.completes(counter, e) {
                seq![Elem::ValStop(x, if self.add_outer_dim && !more { 2 } else { 1 })]
            } else {
                seq![Elem::Val(x)]
            },
            Elem::ValStop(x, s) => if self.completes(counter, e) {
                seq![Elem::ValStop(x, (s + 1) as StopType)]
            } else if self.split_dim == 0 {
                seq![Elem::Val(x)] + self.padding(
                    self.chunk_size - self.counted(counter, e),
                    (s + 1) as StopType,
                )
            } else {
                seq![Elem::ValStop(x, s)]
            },
        }
    }

    /// What is sent when the stream ends inside a chunk.
    pub open spec fn closing(self, counter: int) -> Seq<Elem<T>> {
        if self.split_dim == 0 && 0 < counter < self.chunk_size {
            self.padding(self.chunk_size - counter, if self.add_outer_dim { 2 } else { 1 })
        } else {
            Seq::empty()
        }
    }

    /// The counter and the levels stay in range, and padding is at hand where
    /// the element needs it.
    pub open spec fn accepts(self, counter: int, e: Elem<T>) -> bool {
        &&& self.counted(counter, e) <= usize::MAX
        &&& e matches Elem::ValStop(_, s) ==> {
            &&& self.completes(counter, e) || self.split_dim == 0 ==> s < StopType::MAX
            &&& self.split_dim == 0 ==> counter + 1 <= self.chunk_size
            &&& self.split_dim == 0 && !self.completes(counter, e) ==> self.pad_val is Some
        }
    }

    /// Padding is at hand where the end of the stream needs it, which only
    /// happens to a stream of rank zero.
    pub open spec fn accepts_end(self, counter: int) -> bool {
        self.split_dim == 0 && 0 < counter < self.chunk_size ==> self.pad_val is Some
            && self.input_stream_rank == 0
    }

    /// The counter after the first `n` elements.
    pub open spec fn counter_at(self, input: Seq<Elem<T>>, n: nat) -> int
        decreases n,
    {
        if n == 0 {
            0
        } else {
            self.next_counter(self.counter_at(input, (n - 1) as nat), input[n - 1])
        }
    }

    /// What is sent for the first `n` elements.
    pub open spec fn output_upto(self, input: Seq<Elem<T>>, n: nat) -> Seq<Elem<T>>
        decreases n,
    {
        if n == 0 {
            Seq::empty()
        } else {
            self.output_upto(input, (n - 1) as nat) + self.emitted(
                self.counter_at(input, (n - 1) as nat),
                input[n - 1],
                n < input.len(),
            )
        }
    }

    /// The stream that leaves for a whole input stream.
    pub open spec fn output(self, input: Seq<Elem<T>>) -> Seq<Elem<T>> {
        self.output_upto(input, input.len()) + self.closing(self.counter_at(input, input.len()))
    }

    /// Every element, and the end of the stream, is accepted.
    pub open spec fn accepts_stream(self, input: Seq<Elem<T>>) -> bool {
        &&& forall|k: int|
            0 <= k < input.len() ==> self.accepts(self.counter_at(input, k as nat), #[trigger] input[k])
        &&& self.accepts_end(self.counter_at(input, input.len()))
    }
}

impl<T: Clone> Reshape<T> {
    pub fn new(
        split_dim: usize,
        chunk_size: usize,
        pad_val: Option<T>,
        input_stream_rank: StopType,
        add_outer_dim: bool,
        id: u32,
    ) -> (res: Self)
        ensures
            res == (Reshape {
                split_dim,
                chunk_size,
                pad_val,
                input_stream_rank,
                add_outer_dim,
                id,
            }),
    {
        Reshape { split_dim, chunk_size, pad_val, input_stream_rank, add_outer_dim, id }
    }

    /// Whether what is sent for an element depends on another one following.
    pub fn needs_lookahead(&self, counter: usize, elem: &Elem<T>) -> (res: bool)
        requires
            self.accepts(counter as int, *elem),
        ensures
            !res ==> self.emitted(counter as int, *elem, true) == self.emitted(
                counter as int,
                *elem,
                false,
            ),
            res ==> elem is Val && self.completes(counter as int, *elem),
    {
        match elem {
            Elem::Val(_) => self.split_dim == 0 && self.add_outer_dim && counter + 1
                == self.chunk_size,
            Elem::ValStop(_, _) => false,
        }
    }

    /// Appends `n` padding elements, the last of which closes `level`
    /// dimensions.
    fn push_padding(&self, out: &mut Vec<Elem<T>>, n: usize, level: StopType)
        requires
            n > 0 ==> self.pad_val is Some,
        ensures
            final(out)@.len() == old(out)@.len() + n,
            final(out)@.take(old(out)@.len() as int) == old(out)@,
            stream_cloned(
                self.padding(n as int, level),
                final(out)@.skip(old(out)@.len() as int),
            ),
    {
        let ghost start = out@;
        let ghost ideal = self.padding(n as int, level);
        let mut i: usize = 0;
        while i < n
            invariant
                i <= n,
                n > 0 ==> self.pad_val is Some,
                ideal == self.padding(n as int, level),
                out@.len() == start.len() + i,
                out@.take(start.len() as int) == start,
                stream_cloned(ideal.take(i as int), out@.skip(start.len() as int)),
            decreases n - i,
        {
            if let Some(pad) = &self.pad_val {
                let elem = if i == n - 1 {
                    Elem::ValStop(pad.clone(), level)
                } else {
                    Elem::Val(pad.clone())
                };
                let ghost before = out@;
                out.push(elem);
                proof {
                    lemma_stream_cloned_concat(
                        ideal.take(i as int),
                        before.skip(start.len() as int),
                        seq![ideal[i as int]],
                        seq![elem],
                    );
                    assert(ideal.take(i + 1) =~= ideal.take(i as int) + seq![ideal[i as int]]);
                    assert(out@.skip(start.len() as int) =~= before.skip(start.len() as int)
                        + seq![elem]);
                    assert(out@.take(start.len() as int) =~= start);
                }
            }
            i = i + 1;
        }
        assert(ideal.take(n as int) =~= ideal);
    }

    /// What is sent for one element.
    fn chunked(&self, counter: &mut usize, elem: &Elem<T>, more: bool) -> (res: Vec<Elem<T>>)
        requires
            self.accepts(*old(counter) as int, *elem),
        ensures
            *final(counter) == self.next_counter(*old(counter) as int, *elem),
            stream_cloned(self.emitted(*old(counter) as int, *elem, more), res@),
    {
        let mut out: Vec<Elem<T>> = Vec::new();
        match elem {
            Elem::Val(x) => {
                if self.split_dim == 0 {
                    *counter = *counter + 1;
                    if *counter == self.chunk_size {
                        *counter = 0;
                        let level: StopType = if self.add_outer_dim && !more {
                            2
                        } else {
                            1
                        };
                        out.push(Elem::ValStop(x.clone(), level));
                    } else {
                        out.push(Elem::Val(x.clone()));
                    }
                } else {
                    out.push(Elem::Val(x.clone()));
                }
            },
            Elem::ValStop(x, s) => {
                if self.split_dim == 0 || *s >= self.split_dim as StopType {
                    *counter = *counter + 1;
                }
                if *counter == self.chunk_size {
                    *counter = 0;
                    out.push(Elem::ValStop(x.clone(), *s + 1));
                } else if self.split_dim == 0 {
                    out.push(Elem::Val(x.clone()));
                    let ghost head = out@;
                    let ghost ideal = self.padding(self.chunk_size - *counter, (*s + 1) as StopType);
                    let missing: usize = self.chunk_size - *counter;
                    self.push_padding(&mut out, missing, *s + 1);
                    proof {
                        lemma_stream_cloned_concat(seq![Elem::Val(*x)], head, ideal, out@.skip(1));
                        assert(out@ =~= head + out@.skip(1));
                    }
                    *counter = 0;
                } else {
                    out.push(Elem::ValStop(x.clone(), *s));
                }
            },
        }
        out
    }

    /// What is sent at the end of the stream.
    fn padded(&self, counter: usize) -> (res: Vec<Elem<T>>)
        requires
            self.accepts_end(counter as int),
        ensures
            stream_cloned(self.closing(counter as int), res@),
    {
        let mut out: Vec<Elem<T>> = Vec::new();
        if self.split_dim == 0 && 0 < counter && counter < self.chunk_size {
            let level: StopType = if self.add_outer_dim {
                2
            } else {
                1
            };
            self.push_padding(&mut out, self.chunk_size - counter, level);
            assert(out@ =~= out@.skip(0));
        }
        out
    }

    /// Sends on one element, with its padding, all in the cycle `now` in which
    /// it is taken. `more` says whether another element follows; it matters
    /// only where [`Reshape::needs_lookahead`] holds.
    pub fn step(&self, now: u64, counter: &mut usize, elem: &Elem<T>, more: bool) -> (res: Vec<
        (u64, Elem<T>),
    >)
        requires
            self.accepts(*old(counter) as int, *elem),
        ensures
            *final(counter) == self.next_counter(*old(counter) as int, *elem),
            res@.len() == self.emitted(*old(counter) as int, *elem, more).len(),
            forall|i: int|
                0 <= i < res@.len() ==> (#[trigger] res@[i]).0 == now && elem_cloned(
                    self.emitted(*old(counter) as int, *elem, more)[i],
                    res@[i].1,
                ),
    {
        in_cycle(now, self.chunked(counter, elem, more))
    }

    /// Pads the open chunk at the end of the stream, all in the cycle `now` in
    /// which it ends.
    pub fn finish(&self, now: u64, counter: usize) -> (res: Vec<(u64, Elem<T>)>)
        requires
            self.accepts_end(counter as int),
        ensures
            res@.len() == self.closing(counter as int).len(),
            forall|i: int|
                0 <= i < res@.len() ==> (#[trigger] res@[i]).0 == now && elem_cloned(
                    self.closing(counter as int)[i],
                    res@[i].1,
                ),
    {
        in_cycle(now, self.padded(counter))
    }

    /// Sends a whole stream through, whenever its elements arrive.
    pub fn run(&self, input: &Vec<Elem<T>>) -> (res: Vec<Elem<T>>)
        requires
            self.accepts_stream(input@),
        ensures
            stream_cloned(self.output(input@), res@),
    {
        let mut out: Vec<Elem<T>> = Vec::new();
        let mut counter: usize = 0;
        let mut i: usize = 0;
        while i < input.len()
            invariant
                i <= input@.len(),
                self.accepts_stream(input@),
                counter == self.counter_at(input@, i as nat),
                stream_cloned(self.output_upto(input@, i as nat), out@),
            decreases input@.len() - i,
        {
            let mut sent = self.chunked(&mut counter, &input[i], i + 1 < input.len());
            proof {
                lemma_stream_cloned_concat(
                    self.output_upto(input@, i as nat),
                    out@,
                    self.emitted(
                        self.counter_at(input@, i as nat),
                        input@[i as int],
                        i + 1 < input@.len(),
                    ),
                    sent@,
                );
            }
            out.append(&mut sent);
            i = i + 1;
        }
        let mut sent = self.padded(counter);
        proof {
            lemma_stream_cloned_concat(
                self.output_upto(input@, input@.len()),
                out@,
                self.closing(counter as int),
                sent@,
            );
        }
        out.append(&mut sent);
        out
    }
}

/// Splitting the innermost dimension gives full chunks: exactly the elements
/// at the end of a chunk close a dimension, and the stream ends with a chunk.
#[verifier::rlimit(40)]
pub proof fn law_chunks_are_full<T>(reshape: Reshape<T>, input: Seq<Elem<T>>)
    requires
        reshape.split_dim == 0,
        reshape.chunk_size > 0,
        reshape.accepts_stream(input),
    ensures
        reshape.output(input).len() % reshape.chunk_size as nat == 0,
        forall|k: int|
            0 <= k < reshape.output(input).len() ==> ((#[trigger] reshape.output(input)[k]) is ValStop
                <==> (k + 1) % (reshape.chunk_size as int) == 0),
{
    let chunk = reshape.chunk_size as int;
    let q = lemma_chunked_prefix(reshape, input, input.len());
    let before = reshape.output_upto(input, input.len());
    let counter = reshape.counter_at(input, input.len());
    let closing = reshape.closing(counter);
    let out = reshape.output(input);
    assert(out == before + closing);
    assert(closing.len() == (if counter == 0 {
        0
    } else {
        chunk - counter
    }));
    assert forall|k: int| 0 <= k < out.len() implies ((#[trigger] out[k]) is ValStop <==> (k + 1)
        % chunk == 0) by {
        if k < before.len() {
            assert(out[k] == before[k]);
        } else {
            let i = k - before.len();
            assert(out[k] == closing[i]);
            assert(closing[i] is ValStop <==> i == closing.len() - 1);
            assert(k + 1 == q * chunk + (counter + i + 1));
            lemma_position_in_chunk(q, counter + i + 1, chunk);
        }
    }
    lemma_position_in_chunk(q, if counter == 0 { 0 } else { chunk }, chunk);
    assert(out.len() == q * chunk + (if counter == 0 {
        0
    } else {
        chunk
    }));
}

/// Where a position lies in its chunk.
proof fn lemma_position_in_chunk(q: int, c: int, chunk: int)
    requires
        q >= 0,
        0 <= c <= chunk,
        chunk > 0,
    ensures
        (q * chunk + c) % chunk == (if c == chunk {
            0
        } else {
            c
        }),
{
    if c == chunk {
        assert(q * chunk + c == (q + 1) * chunk + 0) by (nonlinear_arith)
            requires
                c == chunk,
        ;
        vstd::arithmetic::div_mod::lemma_fundamental_div_mod_converse(
            q * chunk + c,
            chunk,
            q + 1,
            0,
        );
    } else {
        vstd::arithmetic::div_mod::lemma_fundamental_div_mod_converse(q * chunk + c, chunk, q, c);
    }
}

/// The number of whole chunks sent for the first `n` elements.
#[verifier::rlimit(40)]
proof fn lemma_chunked_prefix<T>(reshape: Reshape<T>, input: Seq<Elem<T>>, n: nat) -> (q: int)
    requires
        n <= input.len(),
        reshape.split_dim == 0,
        reshape.chunk_size > 0,
        reshape.accepts_stream(input),
    ensures
        q >= 0,
        0 <= reshape.counter_at(input, n) < reshape.chunk_size,
        reshape.output_upto(input, n).len() == q * reshape.chunk_size + reshape.counter_at(input, n),
        forall|k: int|
            0 <= k < reshape.output_upto(input, n).len() ==> ((#[trigger] reshape.output_upto(
                input,
                n,
            )[k]) is ValStop <==> (k + 1) % (reshape.chunk_size as int) == 0),
    decreases n,
{
    if n == 0 {
        0
    } else {
        let chunk = reshape.chunk_size as int;
        let m = (n - 1) as nat;
        let p = lemma_chunked_prefix(reshape, input, m);
        let before = reshape.output_upto(input, m);
        let counter = reshape.counter_at(input, m);
        let e = input[m as int];
        let sent = reshape.emitted(counter, e, n < input.len());
        let out = reshape.output_upto(input, n);
        assert(reshape.accepts(counter, e));
        assert forall|k: int| 0 <= k < out.len() implies ((#[trigger] out[k]) is ValStop <==> (k
            + 1) % chunk == 0) by {
            if k >= before.len() {
                lemma_position_in_chunk(p, counter + (k - before.len()) + 1, chunk);
                assert(out[k] == sent[k - before.len()]);
            } else {
                assert(out[k] == before[k]);
            }
        }
        assert((p + 1) * chunk == p * chunk + chunk) by (nonlinear_arith);
        if reshape.next_counter(counter, e) == 0 {
            p + 1
        } else {
            p
        }
    }
}

/// Splitting the innermost dimension into chunks of one inserts a dimension of
/// size one.
pub proof fn law_chunks_of_one_promote<T>(reshape: Reshape<T>, input: Seq<Elem<T>>)
    requires
        reshape.split_dim == 0,
        reshape.chunk_size == 1,
        !reshape.add_outer_dim,
    ensures
        reshape.output(input) == (Promote { promote_rank: 0 }).output(input),
{
    lemma_chunks_of_one(reshape, input, input.len());
    assert(input.take(input.len() as int) =~= input);
    assert(reshape.output(input) =~= reshape.output_upto(input, input.len()));
}

proof fn lemma_chunks_of_one<T>(reshape: Reshape<T>, input: Seq<Elem<T>>, n: nat)
    requires
        n <= input.len(),
        reshape.split_dim == 0,
        reshape.chunk_size == 1,
        !reshape.add_outer_dim,
    ensures
        reshape.counter_at(input, n) == 0,
        reshape.output_upto(input, n) == (Promote { promote_rank: 0 }).output(
            input.take(n as int),
        ),
    decreases n,
{
    let promote = Promote { promote_rank: 0 };
    if n == 0 {
        assert(reshape.output_upto(input, n) =~= promote.output(input.take(0)));
    } else {
        let m = (n - 1) as nat;
        lemma_chunks_of_one(reshape, input, m);
        let e = input[n - 1];
        assert(reshape.emitted(0, e, n < input.len()) =~= seq![promote.promoted(e)]);
        assert(input.take(n as int) =~= input.take(m as int).push(e));
        assert(reshape.output_upto(input, n) =~= promote.output(input.take(n as int)));
    }
}

/// Splitting the innermost dimension into chunks: the element that fills a
/// chunk closes one dimension more than it did. One that closes something
/// before its chunk is full is followed, in its own cycle, by as many padding
/// values as the chunk lacks, of which the last closes in its place.
pub proof fn law_innermost_chunk_is_filled<T: Clone>(
    op: Reshape<T>,
    now: u64,
    elem: Elem<T>,
    more: bool,
)
    requires
        op.split_dim == 0,
        op.chunk_size > 0,
        elem.level() < StopType::MAX,
    ensures
        forall|counter: &mut usize, res: Vec<(u64, Elem<T>)>|
            op.accepts(*counter as int, elem) && #[trigger] call_ensures(
                Reshape::<T>::step,
                (&op, now, counter, &elem, more),
                res,
            ) ==> {
                let filled = *counter + 1 == op.chunk_size;
                let lacking = op.chunk_size - *counter - 1;
                let last = res@[res@.len() - 1];
                &&& res@.len() > 0
                &&& res@[0].0 == now && last.0 == now
                &&& cloned(elem.value(), res@[0].1.value())
                &&& filled || elem is ValStop ==> *final(counter) == 0
                &&& !filled && elem is Val ==> *final(counter) == *counter + 1
                &&& !filled && elem is Val ==> res@.len() == 1 && res@[0].1 is Val
                &&& filled && elem is ValStop ==> res@.len() == 1 && res@[0].1.level()
                    == elem.level() + 1
                &&& filled && elem is Val ==> res@.len() == 1 && res@[0].1.level() == (
                if op.add_outer_dim && !more {
                    2int
                } else {
                    1
                })
                &&& !filled && elem is ValStop ==> {
                    &&& res@.len() == 1 + lacking
                    &&& res@[0].1 is Val
                    &&& cloned(op.pad_val->0, last.1.value())
                    &&& last.1.level() == elem.level() + 1
                }
            },
{
    assert forall|counter: &mut usize, res: Vec<(u64, Elem<T>)>|
        op.accepts(*counter as int, elem) && #[trigger] call_ensures(
            Reshape::<T>::step,
            (&op, now, counter, &elem, more),
            res,
        ) implies res@.len() > 0 && elem_cloned(
        op.emitted(*counter as int, elem, more)[0],
        res@[0].1,
    ) && elem_cloned(
        op.emitted(*counter as int, elem, more)[res@.len() - 1],
        res@[res@.len() - 1].1,
    ) by {}
}

/// Splitting an outer dimension into chunks: every element leaves alone, and
/// one that ends the last block of a chunk closes one dimension more.
pub proof fn law_outer_chunk_is_closed<T: Clone>(
    op: Reshape<T>,
    now: u64,
    elem: Elem<T>,
    more: bool,
)
    requires
        0 < op.split_dim <= StopType::MAX,
        elem.level() < StopType::MAX,
    ensures
        forall|counter: &mut usize, res: Vec<(u64, Elem<T>)>|
            op.accepts(*counter as int, elem) && #[trigger] call_ensures(
                Reshape::<T>::step,
                (&op, now, counter, &elem, more),
                res,
            ) ==> {
                let ends = elem is ValStop && elem.level() >= op.split_dim;
                let counted = *counter + (if ends {
                    1int
                } else {
                    0
                });
                let filled = elem is ValStop && counted == op.chunk_size;
                &&& res@.len() == 1
                &&& res@[0].0 == now
                &&& cloned(elem.value(), res@[0].1.value())
                &&& res@[0].1.level() == elem.level() + (if filled {
                    1int
                } else {
                    0
                })
                &&& *final(counter) == (if filled {
                    0
                } else {
                    counted
                })
            },
{
    assert forall|counter: &mut usize, res: Vec<(u64, Elem<T>)>|
        op.accepts(*counter as int, elem) && #[trigger] call_ensures(
            Reshape::<T>::step,
            (&op, now, counter, &elem, more),
            res,
        ) implies res@.len() == 1 && elem_cloned(
        op.emitted(*counter as int, elem, more)[0],
        res@[0].1,
    ) by {}
}

/// At the end of a stream a chunk of the innermost dimension that is not full
/// is filled with padding values in one cycle, of which the last closes the
/// chunk, and the outer dimension too where one is added.
pub proof fn law_last_chunk_is_filled<T: Clone>(
    op: Reshape<T>,
    now: u64,
    counter: usize,
    res: Vec<(u64, Elem<T>)>,
    i: int,
)
    requires
        call_ensures(Reshape::<T>::finish, (&op, now, counter), res),
        0 <= i < res@.len(),
    ensures
        op.split_dim == 0,
        0 < counter < op.chunk_size,
        res@.len() == op.chunk_size - counter,
        res@[i].0 == now,
        cloned(op.pad_val->0, res@[i].1.value()),
        res@[i].1.level() == (if i < res@.len() - 1 {
            0int
        } else if op.add_outer_dim {
            2
        } else {
            1
        }),
{
    assert(elem_cloned(op.closing(counter as int)[i], res@[i].1));
}

/// Nothing is left to fill behind a full chunk, or where an outer dimension is
/// split.
pub proof fn law_full_chunk_needs_no_padding<T: Clone>(
    op: Reshape<T>,
    now: u64,
    counter: usize,
    res: Vec<(u64, Elem<T>)>,
)
    requires
        call_ensures(Reshape::<T>::finish, (&op, now, counter), res),
    ensures
        op.split_dim == 0 && 0 < counter < op.chunk_size <==> res@.len() > 0,
{
}

} // verus!
