//! Collecting streams into buffers.

use vstd::arithmetic::div_mod::{lemma_fundamental_div_mod, lemma_fundamental_div_mod_converse};
use vstd::prelude::*;

use crate::memory::metadata_gen::canonical_stream;
use crate::primitives::buffer::{Buffer, BufferizeError};
use crate::primitives::elem::{stop_of, value_of, Elem, StopType};
use crate::utils::indexing::{
    law_last_step_ends_all, law_stop_level, lemma_product_nonneg, lemma_stop_level_bound, positive,
    product,
};

verus! {

/// Collects the innermost `rank` dimensions of a stream into buffers.
#[derive(Debug)]
pub struct Bufferize {
    pub rank: StopType,
    pub id: u32,
}

/// The first element from `start` on that closes `rank` dimensions, or the end
/// of the stream.
pub open spec fn closing_index<T>(input: Seq<Elem<T>>, start: int, rank: int) -> int
    decreases input.len() - start,
{
    if start >= input.len() || input[start].level() >= rank {
        start
    } else {
        closing_index(input, start + 1, rank)
    }
}

/// How many of the elements from `start` to before `end` close at least
/// `level` dimensions.
pub open spec fn closings<T>(input: Seq<Elem<T>>, start: int, end: int, level: int) -> int
    decreases end - start,
{
    if end <= start {
        0
    } else {
        closings(input, start, end - 1, level) + (if input[end - 1].level() >= level {
            1int
        } else {
            0
        })
    }
}

/// The extents of the dimensions that the elements from `start` to before
/// `end` fill: how often each dimension closes for each time that the next
/// one closes.
pub open spec fn group_shape<T>(input: Seq<Elem<T>>, start: int, end: int, rank: nat) -> Seq<
    usize,
> {
    Seq::new(
        rank,
        |d: int|
            (closings(input, start, end, rank - 1 - d) / closings(
                input,
                start,
                end,
                rank - d,
            )) as usize,
    )
}

/// The elements fill an array: every dimension closes equally often in the
/// next one.
pub open spec fn fills_array<T>(input: Seq<Elem<T>>, start: int, end: int, rank: nat) -> bool {
    product(group_shape(input, start, end, rank)) == end - start
}

/// The values of the elements from `start` to before `end`, possibly cloned.
pub open spec fn values_cloned<T: Clone>(
    input: Seq<Elem<T>>,
    start: int,
    end: int,
    data: Seq<T>,
) -> bool {
    &&& data.len() == end - start
    &&& forall|i: int|
        0 <= i < data.len() ==> cloned(input[start + i].value(), #[trigger] data[i])
}

impl Bufferize {
    /// The buffer holds the elements from `begin` to `end`.
    pub open spec fn holds_group<T: Clone>(
        &self,
        input: Seq<Elem<T>>,
        begin: int,
        end: int,
        now: u64,
        buffer: Buffer<T>,
    ) -> bool {
        &&& buffer.wf()
        &&& buffer.shape@ == group_shape(input, begin, end + 1, self.rank as nat)
        &&& values_cloned(input, begin, end + 1, buffer.data@)
        &&& buffer.creation_time == now
    }

    /// Reads the next buffer from position `start` of a stream.
    pub fn read<T: Clone>(&self, input: &Vec<Elem<T>>, start: &mut usize, now: u64) -> (res: Result<
        Buffer<T>,
        BufferizeError<T>,
    >)
        requires
            *old(start) <= input@.len(),
            ({
                let end = closing_index(input@, *old(start) as int, self.rank as int);
                end < input@.len() ==> fills_array(
                    input@,
                    *old(start) as int,
                    end + 1,
                    self.rank as nat,
                )
            }),
        ensures
            ({
                let begin = *old(start) as int;
                let end = closing_index(input@, begin, self.rank as int);
                if begin == input@.len() {
                    &&& res == Err::<Buffer<T>, BufferizeError<T>>(BufferizeError::Finished)
                    &&& *final(start) == begin
                } else if end == input@.len() {
                    &&& res == Err::<Buffer<T>, BufferizeError<T>>(BufferizeError::Incomplete)
                    &&& *final(start) == end
                } else {
                    let level = input@[end].level() - self.rank;
                    &&& match res {
                        Ok(buffer) => level == 0 && self.holds_group(input@, begin, end, now, buffer),
                        Err(BufferizeError::StopToken(buffer, outer)) => {
                            &&& level > 0
                            &&& outer == level
                            &&& self.holds_group(input@, begin, end, now, buffer)
                        },
                        Err(_) => false,
                    }
                    &&& *final(start) == end + 1
                }
            }),
    {
        let begin: usize = *start;
        if begin == input.len() {
            return Err(BufferizeError::Finished);
        }
        let rank: usize = self.rank as usize;
        let mut data: Vec<T> = Vec::new();
        let mut end: usize = begin;
        while end < input.len() && stop_of(&input[end]) < self.rank
            invariant
                begin <= end <= input@.len(),
                closing_index(input@, begin as int, self.rank as int) == closing_index(
                    input@,
                    end as int,
                    self.rank as int,
                ),
                values_cloned(input@, begin as int, end as int, data@),
            decreases input@.len() - end,
        {
            data.push(value_of(&input[end]));
            end = end + 1;
        }
        if end == input.len() {
            *start = end;
            return Err(BufferizeError::Incomplete);
        }
        data.push(value_of(&input[end]));
        let stop: StopType = stop_of(&input[end]);
        let last: usize = end;
        end = end + 1;
        let mut shape: Vec<usize> = Vec::new();
        let mut outer: usize = count_closings(input, begin, end, self.rank);
        let mut d: usize = 0;
        proof {
            lemma_one_closing(input@, begin as int, last as int, self.rank as int);
        }
        while d < rank
            invariant
                begin < end <= input@.len(),
                d <= rank,
                rank == self.rank,
                outer == closings(input@, begin as int, end as int, rank - d),
                outer > 0,
                shape@.len() == d,
                forall|k: int|
                    0 <= k < d ==> #[trigger] shape@[k] == group_shape(
                        input@,
                        begin as int,
                        end as int,
                        rank as nat,
                    )[k],
            decreases rank - d,
        {
            let level: usize = rank - 1 - d;
            let inner: usize = count_closings(input, begin, end, level as StopType);
            proof {
                lemma_more_closings(input@, begin as int, end as int, rank - 1 - d, rank - d);
            }
            shape.push(inner / outer);
            outer = inner;
            d = d + 1;
        }
        assert(shape@ =~= group_shape(input@, begin as int, end as int, rank as nat));
        *start = end;
        let buffer = Buffer::new(shape, data, now);
        if stop == self.rank {
            Ok(buffer)
        } else {
            Err(BufferizeError::StopToken(buffer, stop - self.rank))
        }
    }

    pub fn new(rank: StopType, id: u32) -> (res: Self)
        ensures
            res == (Bufferize { rank, id }),
    {
        Bufferize { rank, id }
    }

    /// The element that is sent for what was read from the stream; `None` at
    /// the end of the stream.
    pub fn step<T>(&self, read: Result<Buffer<T>, BufferizeError<T>>) -> (res: Option<
        Elem<Buffer<T>>,
    >)
        requires
            read != Err::<Buffer<T>, BufferizeError<T>>(BufferizeError::Incomplete),
        ensures
            res == (match read {
                Ok(buffer) => Some(Elem::Val(buffer)),
                Err(BufferizeError::StopToken(buffer, level)) => Some(Elem::ValStop(buffer, level)),
                Err(_) => None,
            }),
    {
        match read {
            Ok(buffer) => Some(Elem::Val(buffer)),
            Err(BufferizeError::StopToken(buffer, level)) => Some(Elem::ValStop(buffer, level)),
            Err(_) => None,
        }
    }
}

fn count_closings<T>(input: &Vec<Elem<T>>, start: usize, end: usize, level: StopType) -> (res:
    usize)
    requires
        start <= end <= input@.len(),
    ensures
        res == closings(input@, start as int, end as int, level as int),
{
    let mut count: usize = 0;
    let mut i: usize = start;
    while i < end
        invariant
            start <= i <= end,
            end <= input@.len(),
            count == closings(input@, start as int, i as int, level as int),
            count <= i - start,
        decreases end - i,
    {
        if stop_of(&input[i]) >= level {
            count = count + 1;
        }
        i = i + 1;
    }
    count
}

/// A dimension closes at least as often as the next one.
proof fn lemma_more_closings<T>(input: Seq<Elem<T>>, start: int, end: int, low: int, high: int)
    requires
        low <= high,
        start <= end,
    ensures
        0 <= closings(input, start, end, high) <= closings(input, start, end, low) <= end - start,
    decreases end - start,
{
    if start < end {
        lemma_more_closings(input, start, end - 1, low, high);
    }
}

/// Up to the first element that closes `rank` dimensions, they close once.
proof fn lemma_one_closing<T>(input: Seq<Elem<T>>, start: int, last: int, rank: int)
    requires
        0 <= start <= last < input.len(),
        last == closing_index(input, start, rank),
    ensures
        closings(input, start, last + 1, rank) == 1,
{
    lemma_no_closing(input, start, last, last, rank);
    lemma_closing_index(input, start, rank);
}

proof fn lemma_closing_index<T>(input: Seq<Elem<T>>, start: int, rank: int)
    requires
        0 <= start <= input.len(),
    ensures
        start <= closing_index(input, start, rank) <= input.len(),
        closing_index(input, start, rank) < input.len() ==> input[closing_index(
            input,
            start,
            rank,
        )].level() >= rank,
        forall|i: int|
            start <= i < closing_index(input, start, rank) ==> (#[trigger] input[i]).level() < rank,
    decreases input.len() - start,
{
    if start < input.len() && input[start].level() < rank {
        lemma_closing_index(input, start + 1, rank);
    }
}

proof fn lemma_no_closing<T>(input: Seq<Elem<T>>, start: int, end: int, last: int, rank: int)
    requires
        0 <= start <= end <= last < input.len(),
        last == closing_index(input, start, rank),
    ensures
        closings(input, start, end, rank) == 0,
    decreases end - start,
{
    lemma_closing_index(input, start, rank);
    if start < end {
        lemma_no_closing(input, start, end - 1, last, rank);
        assert(input[end - 1].level() < rank);
    }
}

/// Of the first `n` elements of an array's stream, every one at the end of the
/// `k` innermost dimensions closes them.
proof fn lemma_count_in_stream<T>(shape: Seq<usize>, data: Seq<T>, n: int, k: int)
    requires
        positive(shape),
        shape.len() <= u32::MAX,
        0 <= n <= data.len(),
        0 <= k <= shape.len(),
    ensures
        closings(canonical_stream(shape, data), 0, n, k) == n / product(
            shape.skip(shape.len() - k),
        ),
    decreases n,
{
    let p = product(shape.skip(shape.len() - k));
    assert(positive(shape.skip(shape.len() - k))) by {
        assert forall|i: int| 0 <= i < k implies #[trigger] shape.skip(shape.len() - k)[i] > 0 by {
            assert(shape[shape.len() - k + i] > 0);
        }
    }
    lemma_product_nonneg(shape.skip(shape.len() - k));
    if n == 0 {
        lemma_fundamental_div_mod_converse(0, p, 0, 0);
    } else {
        lemma_count_in_stream(shape, data, n - 1, k);
        law_stop_level(shape, n - 1, k);
        lemma_stop_level_bound(shape, n - 1);
        lemma_fundamental_div_mod(n - 1, p);
        let q = (n - 1) / p;
        let r = (n - 1) % p;
        assert(q * p == p * q) by (nonlinear_arith);
        if r + 1 == p {
            assert(n == (q + 1) * p + 0) by (nonlinear_arith)
                requires
                    n - 1 == p * q + r,
                    r + 1 == p,
            ;
            lemma_fundamental_div_mod_converse(n, p, q + 1, 0);
        } else {
            lemma_fundamental_div_mod_converse(n, p, q, r + 1);
        }
    }
}

/// Reading the stream of a buffer gives back the buffer's shape, all its
/// values, and closes nothing more.
pub proof fn law_bufferize_undoes_stream<T>(buffer: Buffer<T>)
    requires
        buffer.wf(),
        positive(buffer.shape@),
        buffer.shape@.len() <= u32::MAX,
    ensures
        ({
            let input = buffer.stream();
            let rank = buffer.shape@.len();
            let end = closing_index(input, 0, rank as int);
            &&& end == input.len() - 1
            &&& input[end].level() == rank
            &&& group_shape(input, 0, end + 1, rank) == buffer.shape@
            &&& fills_array(input, 0, end + 1, rank)
            &&& forall|i: int|
                0 <= i < input.len() ==> (#[trigger] input[i]).value() == buffer.data@[i]
        }),
{
    let shape = buffer.shape@;
    let input = buffer.stream();
    let rank = shape.len();
    let n = input.len() as int;
    lemma_product_nonneg(shape);
    law_last_step_ends_all(shape);
    lemma_closing_index(input, 0, rank as int);
    let end = closing_index(input, 0, rank as int);
    assert(input[n - 1].level() == rank);
    if end < n - 1 {
        lemma_stop_level_bound(shape, end);
        law_stop_level(shape, end, rank as int);
        assert(shape.skip(0) =~= shape);
        lemma_fundamental_div_mod(end + 1, n);
        lemma_fundamental_div_mod_converse(end + 1, n, 0, end + 1);
        assert(false);
    }
    assert(end == n - 1) by {
        if end >= n {
            assert(input[n - 1].level() < rank);
        }
    }
    assert forall|d: int| 0 <= d < rank implies group_shape(input, 0, n, rank)[d] == shape[d] by {
        let inner = shape.skip(d + 1);
        let with = shape.skip(d);
        lemma_count_in_stream(shape, buffer.data@, n, rank - 1 - d);
        lemma_count_in_stream(shape, buffer.data@, n, rank - d);
        lemma_product_split(shape, d);
        lemma_product_split(shape, d + 1);
        let a = product(shape.take(d));
        let b = product(shape.take(d + 1));
        assert(shape.take(d + 1).drop_last() =~= shape.take(d));
        assert(shape.take(d + 1).last() == shape[d]);
        assert(positive(inner)) by {
            assert forall|i: int| 0 <= i < inner.len() implies #[trigger] inner[i] > 0 by {
                assert(shape[d + 1 + i] > 0);
            }
        }
        assert(positive(with)) by {
            assert forall|i: int| 0 <= i < with.len() implies #[trigger] with[i] > 0 by {
                assert(shape[d + i] > 0);
            }
        }
        lemma_product_nonneg(inner);
        lemma_product_nonneg(with);
        lemma_fundamental_div_mod_converse(n, product(inner), b, 0);
        lemma_fundamental_div_mod_converse(n, product(with), a, 0);
        assert(positive(shape.take(d))) by {
            assert forall|i: int| 0 <= i < d implies #[trigger] shape.take(d)[i] > 0 by {
                assert(shape[i] > 0);
            }
        }
        lemma_product_nonneg(shape.take(d));
        assert(b == shape[d] * a + 0) by (nonlinear_arith)
            requires
                b == a * shape[d],
        ;
        lemma_fundamental_div_mod_converse(b, a, shape[d] as int, 0);
    }
    assert(group_shape(input, 0, n, rank) =~= shape);
}

/// The positions of a shape are those of its outer dimensions times those of
/// its inner ones.
proof fn lemma_product_split(shape: Seq<usize>, d: int)
    requires
        0 <= d <= shape.len(),
    ensures
        product(shape) == product(shape.take(d)) * product(shape.skip(d)),
{
    if d == shape.len() {
        assert(shape.take(d) =~= shape);
        assert(shape.skip(d).len() == 0);
        assert(product(shape.skip(d)) == 1);
    } else {
        lemma_product_split_inner(shape, d);
    }
}

proof fn lemma_product_split_inner(shape: Seq<usize>, d: int)
    requires
        0 <= d < shape.len(),
    ensures
        product(shape) == product(shape.take(d)) * product(shape.skip(d)),
    decreases shape.len(),
{
    let last = shape.last() as int;
    let outer = shape.drop_last();
    assert(shape.skip(d).drop_last() =~= outer.skip(d));
    assert(shape.skip(d).last() == shape.last());
    assert(shape.take(d) =~= outer.take(d));
    if d < outer.len() {
        lemma_product_split_inner(outer, d);
    } else {
        assert(outer.skip(d).len() == 0);
        assert(product(outer.skip(d)) == 1);
        assert(outer.take(d) =~= outer);
    }
    let a = product(outer.take(d));
    let b = product(outer.skip(d));
    assert((a * b) * last == a * (b * last)) by (nonlinear_arith);
}

/// Reading a group: the elements up to the first that closes the rank, in
/// order, make up the buffer, which is made in the cycle of reading. What that
/// element closes above the rank is told, and the next group begins behind it.
/// A stream that ends within a group is incomplete.
pub proof fn law_group_is_read<T: Clone>(op: Bufferize, input: Vec<Elem<T>>, now: u64, end: int)
    ensures
        forall|start: &mut usize, res: Result<Buffer<T>, BufferizeError<T>>|
            *start <= end <= input@.len() && (forall|i: int|
                *start <= i < end ==> (#[trigger] input@[i]).level() < op.rank) && (end
                < input@.len() ==> input@[end].level() >= op.rank) && #[trigger] call_ensures(
                Bufferize::read::<T>,
                (&op, &input, start, now),
                res,
            ) ==> {
                let level = input@[end].level() - op.rank;
                let n = end + 1 - *start;
                &&& *start == input@.len() ==> res == Err::<Buffer<T>, BufferizeError<T>>(
                    BufferizeError::Finished,
                )
                &&& *start < input@.len() && end == input@.len() ==> res == Err::<
                    Buffer<T>,
                    BufferizeError<T>,
                >(BufferizeError::Incomplete)
                &&& end < input@.len() ==> {
                    &&& *final(start) == end + 1
                    &&& match res {
                        Ok(buffer) => level == 0 && buffer.creation_time == now
                            && buffer.data@.len() == n && buffer.shape@.len() == op.rank,
                        Err(BufferizeError::StopToken(buffer, outer)) => level > 0 && outer == level
                            && buffer.creation_time == now && buffer.data@.len() == n
                            && buffer.shape@.len() == op.rank,
                        Err(_) => false,
                    }
                    &&& res matches Ok(buffer) ==> forall|i: int|
                        0 <= i < n ==> cloned(
                            input@[*start + i].value(),
                            #[trigger] buffer.data@[i],
                        )
                    &&& res matches Err(BufferizeError::StopToken(buffer, _)) ==> forall|i: int|
                        0 <= i < n ==> cloned(
                            input@[*start + i].value(),
                            #[trigger] buffer.data@[i],
                        )
                }
            },
{
    assert forall|start: &mut usize, res: Result<Buffer<T>, BufferizeError<T>>|
        *start <= end <= input@.len() && (forall|i: int|
            *start <= i < end ==> (#[trigger] input@[i]).level() < op.rank) && (end < input@.len()
            ==> input@[end].level() >= op.rank) && #[trigger] call_ensures(
            Bufferize::read::<T>,
            (&op, &input, start, now),
            res,
        ) implies closing_index(input@, *start as int, op.rank as int) == end by {
        lemma_closing_at(input@, *start as int, end, op.rank as int);
    }
}

proof fn lemma_closing_at<T>(input: Seq<Elem<T>>, start: int, end: int, rank: int)
    requires
        0 <= start <= end <= input.len(),
        forall|i: int| start <= i < end ==> (#[trigger] input[i]).level() < rank,
        end < input.len() ==> input[end].level() >= rank,
    ensures
        closing_index(input, start, rank) == end,
    decreases end - start,
{
    if start < end {
        lemma_closing_at(input, start + 1, end, rank);
    }
}

} // verus!
