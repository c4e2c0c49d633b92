//! Streams of consecutive numbers.

use vstd::prelude::*;
use vstd::std_specs::convert::TryFromSpec;

use crate::primitives::elem::{Elem, StopType};
use crate::primitives::tile::{is_scalar_tile, scalar_tile, Tile};
use crate::utils::indexing::stop_level;

verus! {

/// The level that closes a range: one more than what its input closes.
pub open spec fn range_stop(input_stop: Option<StopType>) -> int {
    match input_stop {
        Some(level) => level + 1,
        None => 1,
    }
}

/// The number at position `i` of a range, as a value of type `T`.
pub open spec fn range_value<T: TryFrom<usize>>(i: usize) -> T {
    T::try_from_spec(i)->Ok_0
}

/// All numbers below `count` are values of type `T`.
pub open spec fn range_representable<T: TryFrom<usize>>(count: usize) -> bool {
    &&& T::obeys_try_from_spec()
    &&& forall|i: usize| i < count ==> (#[trigger] T::try_from_spec(i)) is Ok
}

/// `elems` is the range of the numbers below `count`, as tiles of one value,
/// of which the last closes `stop` dimensions.
pub open spec fn is_range<T: TryFrom<usize>>(
    elems: Seq<Elem<Tile<T>>>,
    count: usize,
    bytes_per_elem: usize,
    read_from_mu: bool,
    stop: int,
) -> bool {
    &&& elems.len() == count
    &&& forall|i: int|
        0 <= i < count ==> {
            &&& is_scalar_tile(
                (#[trigger] elems[i]).value(),
                range_value::<T>(i as usize),
                bytes_per_elem,
                read_from_mu,
            )
            &&& elems[i] is ValStop <==> i == count - 1
            &&& elems[i] is ValStop ==> elems[i].level() == stop
        }
}

/// The numbers below `count`, as tiles of one value. The last closes one
/// dimension more than the input did.
pub fn count_range_elems<T: TryFrom<usize>>(
    count: usize,
    bytes_per_elem: usize,
    read_from_mu: bool,
    input_stop: Option<StopType>,
    id: u32,
) -> (res: Vec<Elem<Tile<T>>>)
    requires
        count > 0,
        range_representable::<T>(count),
        range_stop(input_stop) <= StopType::MAX,
    ensures
        is_range(res@, count, bytes_per_elem, read_from_mu, range_stop(input_stop)),
{
    let output_stop: StopType = match input_stop {
        Some(level) => level + 1,
        None => 1,
    };
    let mut out: Vec<Elem<Tile<T>>> = Vec::new();
    let mut i: usize = 0;
    while i < count
        invariant
            i <= count,
            range_representable::<T>(count),
            output_stop == range_stop(input_stop),
            out@.len() == i,
            forall|k: int|
                0 <= k < i ==> {
                    &&& is_scalar_tile(
                        (#[trigger] out@[k]).value(),
                        range_value::<T>(k as usize),
                        bytes_per_elem,
                        read_from_mu,
                    )
                    &&& out@[k] is ValStop <==> k == count - 1
                    &&& out@[k] is ValStop ==> out@[k].level() == output_stop
                },
        decreases count - i,
    {
        match T::try_from(i) {
            Ok(value) => {
                let tile = scalar_tile(value, bytes_per_elem, read_from_mu);
                if i + 1 == count {
                    out.push(Elem::ValStop(tile, output_stop));
                } else {
                    out.push(Elem::Val(tile));
                }
            },
            Err(_) => {
                assert(T::try_from_spec(i) is Ok);
                assert(false);
            },
        }
        i = i + 1;
    }
    out
}

/// Sends the numbers below `count`.
#[derive(Debug)]
pub struct Counter {
    pub count: u64,
    pub id: u32,
}

impl Counter {
    pub fn new(count: u64, id: u32) -> (res: Self)
        ensures
            res == (Counter { count, id }),
    {
        Counter { count, id }
    }

    /// The whole stream, sent in one cycle.
    pub fn run(&self) -> (res: Vec<Elem<Tile<u64>>>)
        requires
            0 < self.count <= usize::MAX,
            range_representable::<u64>(self.count as usize),
        ensures
            is_range(res@, self.count as usize, 8, false, 1),
    {
        count_range_elems(self.count as usize, 8, false, None, self.id)
    }
}

/// A counter sends as many values as it is told, and only the last closes
/// something: one dimension, and what the input closes. So counting adds an
/// innermost dimension to a stream of some shape, of which the input is element
/// `k`.
pub proof fn law_count_adds_dimension<T: TryFrom<usize>>(
    count: usize,
    bytes_per_elem: usize,
    read_from_mu: bool,
    input_stop: Option<StopType>,
    id: u32,
    res: Vec<Elem<Tile<T>>>,
    shape: Seq<usize>,
    k: int,
    i: int,
)
    requires
        call_ensures(
            count_range_elems::<T>,
            (count, bytes_per_elem, read_from_mu, input_stop, id),
            res,
        ),
        stop_level(shape, k) == (match input_stop {
            Some(level) => level as int,
            None => 0,
        }),
        0 <= i < count,
    ensures
        res@.len() == count,
        res@[i] is ValStop <==> i == count - 1,
        res@[i].level() == stop_level(shape.push(count), k * count + i),
        res@[i].value().shape == (1usize, 1usize),
        res@[i].value().bytes_per_elem == bytes_per_elem,
        res@[i].value().read_from_mu == read_from_mu,
        T::try_from_spec(i as usize) matches Ok(x) ==> res@[i].value().at(0, 0) == x,
{
    let larger = shape.push(count);
    assert(larger.drop_last() =~= shape);
    vstd::arithmetic::div_mod::lemma_fundamental_div_mod_converse(
        k * count + i,
        count as int,
        k,
        i,
    );
}

/// A counter of its own sends `count` values of eight bytes, of which the last
/// closes one dimension.
pub proof fn law_counter_closes_once(op: Counter, res: Vec<Elem<Tile<u64>>>, i: int)
    requires
        op.count <= usize::MAX,
        call_ensures(Counter::run, (&op,), res),
        0 <= i < op.count,
    ensures
        res@.len() == op.count,
        res@[i].level() == (if i == op.count - 1 {
            1int
        } else {
            0
        }),
        res@[i].value().bytes_per_elem == 8,
        !res@[i].value().read_from_mu,
{
}

} // verus!
