//! Element-wise conversion of vectors.

use vstd::prelude::*;

verus! {

/// The elements in reverse order.
pub fn reversed<A>(input: Vec<A>) -> (res: Vec<A>)
    ensures
        res@ == input@.reverse(),
{
    let ghost all = input@;
    let mut rest = input;
    let mut out: Vec<A> = Vec::new();
    while rest.len() > 0
        invariant
            rest@.len() + out@.len() == all.len(),
            rest@ == all.take(rest@.len() as int),
            forall|k: int| 0 <= k < out@.len() ==> #[trigger] out@[k] == all[all.len() - 1 - k],
        decreases rest@.len(),
    {
        if let Some(x) = rest.pop() {
            assert(rest@ =~= all.take(rest@.len() as int));
            out.push(x);
        }
    }
    assert(out@ =~= all.reverse());
    out
}

/// Applies a function to every element, in order.
pub fn map_into<A, B, F: Fn(A) -> B>(input: Vec<A>, f: F) -> (res: Vec<B>)
    requires
        forall|i: int| 0 <= i < input@.len() ==> call_requires(f, (#[trigger] input@[i],)),
    ensures
        res@.len() == input@.len(),
        forall|i: int|
            0 <= i < input@.len() ==> call_ensures(f, (input@[i],), #[trigger] res@[i]),
{
    let ghost all = input@;
    let mut rest = input;
    let mut reversed: Vec<B> = Vec::new();
    while rest.len() > 0
        invariant
            rest@.len() + reversed@.len() == all.len(),
            rest@ == all.take(rest@.len() as int),
            forall|i: int| 0 <= i < all.len() ==> call_requires(f, (#[trigger] all[i],)),
            forall|k: int|
                0 <= k < reversed@.len() ==> call_ensures(
                    f,
                    (all[all.len() - 1 - k],),
                    #[trigger] reversed@[k],
                ),
        decreases rest@.len(),
    {
        if let Some(x) = rest.pop() {
            assert(x == all[rest@.len() as int]);
            assert(rest@ =~= all.take(rest@.len() as int));
            reversed.push(f(x));
        }
    }
    let mut out: Vec<B> = Vec::new();
    while reversed.len() > 0
        invariant
            reversed@.len() + out@.len() == all.len(),
            forall|k: int|
                0 <= k < reversed@.len() ==> call_ensures(
                    f,
                    (all[all.len() - 1 - k],),
                    #[trigger] reversed@[k],
                ),
            forall|k: int|
                0 <= k < out@.len() ==> call_ensures(f, (all[k],), #[trigger] out@[k]),
        decreases reversed@.len(),
    {
        if let Some(y) = reversed.pop() {
            out.push(y);
        }
    }
    out
}

/// Elements that are all sent in one cycle.
pub fn in_cycle<A>(now: u64, elems: Vec<A>) -> (res: Vec<(u64, A)>)
    ensures
        res@.len() == elems@.len(),
        forall|i: int| 0 <= i < res@.len() ==> #[trigger] res@[i] == (now, elems@[i]),
{
    let stamp = |elem: A| -> (timed: (u64, A))
        ensures
            timed == (now, elem),
        { (now, elem) };
    map_into(elems, stamp)
}

} // verus!
