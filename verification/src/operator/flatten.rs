//! Merging adjacent dimensions of a stream.

use vstd::prelude::*;

use crate::operator::promote::Promote;
use crate::operator::reshape::Reshape;
use crate::primitives::elem::{elem_cloned, packed, stream_cloned, Elem, StopType};

verus! {

/// Merges the dimensions `min_rank` to `max_rank` into one, in no time: an
/// element is sent in the cycle in which it arrives.
#[derive(Debug)]
pub struct Flatten {
    pub min_rank: StopType,
    pub max_rank: StopType,
}

impl Flatten {
    /// More than one dimension is merged.
    pub open spec fn wf(self) -> bool {
        self.min_rank < self.max_rank
    }

    /// The level that remains of a stop level.
    pub open spec fn flattened_level(self, level: int) -> int {
        if level <= self.min_rank {
            level
        } else if level <= self.max_rank {
            self.min_rank as int
        } else {
            level - (self.max_rank - self.min_rank)
        }
    }

    /// The element that is sent for an element.
    pub open spec fn flattened<T>(self, e: Elem<T>) -> Elem<T> {
        packed(e.value(), self.flattened_level(e.level()) as StopType)
    }

    /// The stream that leaves for a whole input stream.
    pub open spec fn output<T>(self, input: Seq<Elem<T>>) -> Seq<Elem<T>> {
        input.map_values(|e: Elem<T>| self.flattened(e))
    }

    pub fn new(min_rank: StopType, max_rank: StopType) -> (res: Self)
        requires
            min_rank < max_rank,
        ensures
            res.wf(),
            res.min_rank == min_rank,
            res.max_rank == max_rank,
    {
        Flatten { min_rank, max_rank }
    }

    /// Sends on one element, in the cycle `now` in which it arrives.
    pub fn step<T: Clone>(&self, now: u64, elem: &Elem<T>) -> (res: (u64, Elem<T>))
        requires
            self.wf(),
        ensures
            res.0 == now,
            elem_cloned(self.flattened(*elem), res.1),
    {
        let sent = match elem {
            Elem::Val(x) => Elem::Val(x.clone()),
            Elem::ValStop(x, s) => {
                let level: StopType = if *s <= self.min_rank {
                    *s
                } else if *s <= self.max_rank {
                    self.min_rank
                } else {
                    *s - (self.max_rank - self.min_rank)
                };
                if level == 0 {
                    Elem::Val(x.clone())
                } else {
                    Elem::ValStop(x.clone(), level)
                }
            },
        };
        (now, sent)
    }

    /// Sends a whole stream through, whenever its elements arrive.
    pub fn run<T: Clone>(&self, input: &Vec<Elem<T>>) -> (res: Vec<Elem<T>>)
        requires
            self.wf(),
        ensures
            stream_cloned(self.output(input@), res@),
    {
        let mut out: Vec<Elem<T>> = Vec::new();
        let mut i: usize = 0;
        while i < input.len()
            invariant
                self.wf(),
                i <= input@.len(),
                stream_cloned(self.output(input@.take(i as int)), out@),
            decreases input@.len() - i,
        {
            let (_, sent) = self.step(0, &input[i]);
            out.push(sent);
            i = i + 1;
        }
        assert(input@.take(i as int) =~= input@);
        out
    }
}

/// Merging a dimension of size one with the one below it undoes the insertion
/// of that dimension.
pub proof fn law_flatten_undoes_promote<T>(rank: StopType, input: Seq<Elem<T>>)
    requires
        rank < StopType::MAX,
        forall|i: int|
            0 <= i < input.len() ==> (#[trigger] input[i]).canonical() && input[i].level()
                < StopType::MAX,
    ensures
        (Flatten { min_rank: rank, max_rank: (rank + 1) as StopType }).output(
            (Promote { promote_rank: rank }).output(input),
        ) == input,
{
    let flatten = Flatten { min_rank: rank, max_rank: (rank + 1) as StopType };
    let promote = Promote { promote_rank: rank };
    assert(flatten.output(promote.output(input)) =~= input);
}

/// Splitting a dimension into chunks that it fills exactly, and merging the
/// two dimensions again, gives back the stream.
pub proof fn law_flatten_undoes_reshape<T>(reshape: Reshape<T>, input: Seq<Elem<T>>)
    requires
        reshape.chunk_size > 0,
        reshape.split_dim < StopType::MAX,
        !reshape.add_outer_dim,
        reshape.accepts_stream(input),
        forall|k: int| 0 <= k < input.len() ==> (#[trigger] input[k]).canonical(),
        // A dimension outside the split one closes only with a full chunk.
        forall|k: int|
            0 <= k < input.len() && (#[trigger] input[k]).level() > reshape.split_dim
                ==> reshape.completes(reshape.counter_at(input, k as nat), input[k]),
        reshape.split_dim == 0 ==> reshape.counter_at(input, input.len()) == 0,
    ensures
        (Flatten {
            min_rank: reshape.split_dim as StopType,
            max_rank: (reshape.split_dim + 1) as StopType,
        }).output(reshape.output(input)) == input,
{
    let flatten = Flatten {
        min_rank: reshape.split_dim as StopType,
        max_rank: (reshape.split_dim + 1) as StopType,
    };
    lemma_aligned_prefix(reshape, input, input.len());
    assert(reshape.output(input) =~= reshape.output_upto(input, input.len()));
    assert(input.take(input.len() as int) =~= input);
}

proof fn lemma_aligned_prefix<T>(reshape: Reshape<T>, input: Seq<Elem<T>>, n: nat)
    requires
        n <= input.len(),
        reshape.chunk_size > 0,
        reshape.split_dim < StopType::MAX,
        !reshape.add_outer_dim,
        reshape.accepts_stream(input),
        forall|k: int| 0 <= k < input.len() ==> (#[trigger] input[k]).canonical(),
        forall|k: int|
            0 <= k < input.len() && (#[trigger] input[k]).level() > reshape.split_dim
                ==> reshape.completes(reshape.counter_at(input, k as nat), input[k]),
    ensures
        (Flatten {
            min_rank: reshape.split_dim as StopType,
            max_rank: (reshape.split_dim + 1) as StopType,
        }).output(reshape.output_upto(input, n)) == input.take(n as int),
        0 <= reshape.counter_at(input, n) < reshape.chunk_size,
    decreases n,
{
    let flatten = Flatten {
        min_rank: reshape.split_dim as StopType,
        max_rank: (reshape.split_dim + 1) as StopType,
    };
    if n > 0 {
        let m = (n - 1) as nat;
        lemma_aligned_prefix(reshape, input, m);
        let counter = reshape.counter_at(input, m);
        let e = input[n - 1];
        assert(reshape.accepts(counter, e));
        let sent = reshape.emitted(counter, e, n < input.len());
        assert(sent.len() == 1);
        assert(flatten.flattened(sent[0]) == e);
        assert(flatten.output(reshape.output_upto(input, n)) =~= flatten.output(
            reshape.output_upto(input, m),
        ).push(e));
        assert(input.take(n as int) =~= input.take(m as int).push(e));
    } else {
        assert(flatten.output(reshape.output_upto(input, n)) =~= input.take(0));
    }
}

} // verus!
