//! Stream elements: a value, optionally closing one or more dimensions.

use vstd::prelude::*;

use crate::memory::PMU_BW;
use crate::utils::calculation::{ceil_div, div_ceil};

verus! {

/// The number of dimensions that an element closes.
pub type StopType = u32;

/// An element of a stream. `ValStop(x, s)` carries `x` and closes the `s`
/// innermost dimensions of the stream.
#[derive(Debug, PartialEq, Eq)]
pub enum Elem<T> {
    Val(T),
    ValStop(T, StopType),
}

impl<T> Elem<T> {
    /// The value that the element carries.
    pub open spec fn value(self) -> T {
        match self {
            Elem::Val(x) => x,
            Elem::ValStop(x, _) => x,
        }
    }

    /// The stop level; zero for an element that closes nothing.
    pub open spec fn level(self) -> int {
        match self {
            Elem::Val(_) => 0,
            Elem::ValStop(_, s) => s as int,
        }
    }

    /// No element spells "closes nothing" as a stop of level zero.
    pub open spec fn canonical(self) -> bool {
        self matches Elem::ValStop(_, s) ==> s > 0
    }
}

impl<T: Clone> Clone for Elem<T> {
    fn clone(&self) -> (res: Self)
        ensures
            elem_cloned(*self, res),
    {
        match self {
            Elem::Val(x) => Elem::Val(x.clone()),
            Elem::ValStop(x, s) => Elem::ValStop(x.clone(), *s),
        }
    }
}

/// The canonical element for a value and a stop level.
pub open spec fn packed<T>(value: T, stop: StopType) -> Elem<T> {
    if stop == 0 {
        Elem::Val(value)
    } else {
        Elem::ValStop(value, stop)
    }
}

/// A value in the place of the one that an element carries.
pub open spec fn with_value<A, B>(e: Elem<A>, value: B) -> Elem<B> {
    match e {
        Elem::Val(_) => Elem::Val(value),
        Elem::ValStop(_, s) => Elem::ValStop(value, s),
    }
}

/// What an optional reference refers to.
pub open spec fn referent<A>(o: Option<&A>) -> Option<A> {
    match o {
        Some(a) => Some(*a),
        None => None,
    }
}

/// The value of an optional element.
pub open spec fn opt_value<T>(o: Option<&Elem<T>>) -> Option<T> {
    match o {
        Some(e) => Some(e.value()),
        None => None,
    }
}

/// Splits an element into its value and stop level.
pub fn unpack<T>(elem: Elem<T>) -> (res: (T, StopType))
    ensures
        res.0 == elem.value(),
        res.1 == elem.level(),
{
    match elem {
        Elem::Val(value) => (value, 0),
        Elem::ValStop(value, stop) => (value, stop),
    }
}

/// Joins a value and a stop level; level zero gives a plain value.
pub fn pack<T>(value: T, stop: StopType) -> (res: Elem<T>)
    ensures
        res == packed(value, stop),
{
    if stop == 0 {
        Elem::Val(value)
    } else {
        Elem::ValStop(value, stop)
    }
}

/// The stop level of a borrowed element.
pub fn stop_of<T>(elem: &Elem<T>) -> (res: StopType)
    ensures
        res == elem.level(),
{
    match elem {
        Elem::Val(_) => 0,
        Elem::ValStop(_, s) => *s,
    }
}

/// The stop that an element carries, if it carries one.
pub open spec fn stop_option<T>(e: Elem<T>) -> Option<StopType> {
    match e {
        Elem::Val(_) => None,
        Elem::ValStop(_, s) => Some(s),
    }
}

/// An element with a value and, where there is one, a stop.
pub fn attach_stop<B>(value: B, stop: Option<StopType>) -> (res: Elem<B>)
    ensures
        res == (match stop {
            Some(level) => Elem::ValStop(value, level),
            None => Elem::Val(value),
        }),
{
    match stop {
        Some(level) => Elem::ValStop(value, level),
        None => Elem::Val(value),
    }
}

/// Clones the value that an element carries.
pub fn value_of<T: Clone>(elem: &Elem<T>) -> (res: T)
    ensures
        cloned(elem.value(), res),
{
    match elem {
        Elem::Val(x) => x.clone(),
        Elem::ValStop(x, _) => x.clone(),
    }
}

/// `b` is `a` or a clone of it: same form, same level, cloned value.
pub open spec fn elem_cloned<T: Clone>(a: Elem<T>, b: Elem<T>) -> bool {
    match (a, b) {
        (Elem::Val(x), Elem::Val(y)) => cloned(x, y),
        (Elem::ValStop(x, s), Elem::ValStop(y, t)) => cloned(x, y) && s == t,
        _ => false,
    }
}

/// `actual` is the stream `ideal`, with values that may be clones.
pub open spec fn stream_cloned<T: Clone>(ideal: Seq<Elem<T>>, actual: Seq<Elem<T>>) -> bool {
    &&& ideal.len() == actual.len()
    &&& forall|i: int| 0 <= i < ideal.len() ==> elem_cloned(ideal[i], #[trigger] actual[i])
}

/// Cycles that a memory unit needs for a number of bytes.
pub open spec fn mu_cycles(in_mu: bool, bytes: int) -> int {
    if in_mu {
        ceil_div(bytes, PMU_BW as int)
    } else {
        0
    }
}

/// A value that can lie in a memory unit.
pub trait Bufferizable: Sized {
    /// The bytes that the value occupies.
    spec fn byte_size(&self) -> int;

    /// The size can be computed.
    spec fn measurable(&self) -> bool;

    /// Whether the value lies in a memory unit.
    spec fn in_mu(&self) -> bool;

    /// The same value, in a memory unit or not.
    spec fn placed(&self, in_mu: bool) -> Self;

    fn size_in_bytes(&self) -> (res: usize)
        requires
            self.measurable(),
        ensures
            res == self.byte_size(),
    ;

    fn read_from_mu(&self) -> (res: bool)
        ensures
            res == self.in_mu(),
    ;

    fn clone_with_updated_read_from_mu(&self, read_from_mu: bool) -> (res: Self)
        ensures
            res == self.placed(read_from_mu),
    ;
}

/// Cycles to move a value into or out of a memory unit, where `in_mu` says
/// that it lies there.
pub fn transfer_cycles<A: Bufferizable>(data: &A, in_mu: bool) -> (res: u64)
    requires
        in_mu ==> data.measurable(),
    ensures
        res == mu_cycles(in_mu, data.byte_size()),
        res <= u64::MAX / PMU_BW + 1,
{
    if in_mu {
        let bytes: u64 = data.size_in_bytes() as u64;
        div_ceil(bytes, PMU_BW)
    } else {
        0
    }
}

/// Cloned streams stay cloned when they are joined.
pub proof fn lemma_stream_cloned_concat<T: Clone>(
    ideal1: Seq<Elem<T>>,
    actual1: Seq<Elem<T>>,
    ideal2: Seq<Elem<T>>,
    actual2: Seq<Elem<T>>,
)
    requires
        stream_cloned(ideal1, actual1),
        stream_cloned(ideal2, actual2),
    ensures
        stream_cloned(ideal1 + ideal2, actual1 + actual2),
{
    let ideal = ideal1 + ideal2;
    let actual = actual1 + actual2;
    assert forall|i: int| 0 <= i < ideal.len() implies elem_cloned(ideal[i], #[trigger] actual[i]) by {
        if i < ideal1.len() {
            assert(elem_cloned(ideal1[i], actual1[i]));
        } else {
            assert(elem_cloned(ideal2[i - ideal1.len()], actual2[i - ideal1.len()]));
        }
    }
}

/// The cycles of a transfer are enough for the bytes that are moved, at 512
/// bytes per cycle, and one cycle less would not be. A value that does not lie
/// in a memory unit is not moved at all.
pub proof fn law_transfer_is_tight<A: Bufferizable>(data: A, in_mu: bool, cycles: u64)
    requires
        call_ensures(transfer_cycles::<A>, (&data, in_mu), cycles),
    ensures
        in_mu ==> cycles * 512 >= data.byte_size() && (cycles - 1) * 512 < data.byte_size(),
        in_mu && data.byte_size() >= 0 ==> cycles == (data.byte_size() + 511) / 512,
        !in_mu ==> cycles == 0,
{
}

/// More bytes take no fewer cycles, and 512 bytes more take one cycle more.
pub proof fn law_transfer_grows<A: Bufferizable, B: Bufferizable>(
    small: A,
    large: B,
    cycles: u64,
    more_cycles: u64,
)
    requires
        0 <= small.byte_size() <= large.byte_size(),
        call_ensures(transfer_cycles::<A>, (&small, true), cycles),
        call_ensures(transfer_cycles::<B>, (&large, true), more_cycles),
    ensures
        cycles <= more_cycles,
        large.byte_size() == small.byte_size() + 512 ==> more_cycles == cycles + 1,
{
    law_transfer_is_tight(small, true, cycles);
    law_transfer_is_tight(large, true, more_cycles);
}

/// Splitting undoes joining, and joining undoes splitting wherever the element
/// does not spell "closes nothing" as a stop of level zero. No joined element
/// does.
pub proof fn law_unpack_undoes_pack<T>(
    value: T,
    stop: StopType,
    elem: Elem<T>,
    joined: Elem<T>,
    parts: (T, StopType),
    split: (T, StopType),
    rejoined: Elem<T>,
)
    requires
        call_ensures(pack::<T>, (value, stop), joined),
        call_ensures(unpack::<T>, (joined,), parts),
        call_ensures(unpack::<T>, (elem,), split),
        call_ensures(pack::<T>, split, rejoined),
    ensures
        parts == (value, stop),
        joined is Val <==> stop == 0,
        elem is Val ==> rejoined == elem,
        elem matches Elem::ValStop(x, s) ==> (s > 0 ==> rejoined == elem) && (s == 0 ==> rejoined
            == Elem::Val(x)),
{
}

/// A stop that is attached is the stop that is read back, and the value is the
/// one that was given.
pub proof fn law_attached_stop_is_read<T>(
    value: T,
    stop: Option<StopType>,
    elem: Elem<T>,
    level: StopType,
    parts: (T, StopType),
)
    requires
        call_ensures(attach_stop::<T>, (value, stop), elem),
        call_ensures(stop_of::<T>, (&elem,), level),
        call_ensures(unpack::<T>, (elem,), parts),
    ensures
        elem is ValStop <==> stop is Some,
        level == stop.unwrap_or(0),
        parts == (value, level),
{
}

} // verus!
