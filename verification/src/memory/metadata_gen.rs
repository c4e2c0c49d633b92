//! Streaming a tensor element by element.

use vstd::prelude::*;

use crate::primitives::elem::{elem_cloned, pack, packed, stream_cloned, Elem, StopType};
use crate::primitives::tensor::Tensor;
use crate::utils::indexing::{
    law_stop_level, lemma_product_nonneg, lemma_stop_level_bound, positive, product, stop_level,
    stop_level_at,
};

verus! {

/// Sends the elements of a tensor in row-major order, one per cycle.
#[derive(Debug)]
pub struct MetadataGen<T> {
    pub underlying: Tensor<T>,
    pub id: u32,
}

/// The values of a tensor as a stream: each closes the dimensions that end
/// with it.
pub open spec fn canonical_stream<T>(shape: Seq<usize>, data: Seq<T>) -> Seq<Elem<T>> {
    Seq::new(data.len(), |i: int| packed(data[i], stop_level(shape, i) as StopType))
}

/// The values of a tensor as a stream.
pub fn to_elems<T: Clone>(shape: &Vec<usize>, data: &Vec<T>) -> (res: Vec<Elem<T>>)
    requires
        shape@.len() <= u32::MAX,
        data@.len() > 0 ==> positive(shape@),
    ensures
        stream_cloned(canonical_stream(shape@, data@), res@),
{
    let mut out: Vec<Elem<T>> = Vec::new();
    let mut i: usize = 0;
    while i < data.len()
        invariant
            i <= data@.len(),
            shape@.len() <= u32::MAX,
            data@.len() > 0 ==> positive(shape@),
            stream_cloned(canonical_stream(shape@, data@).take(i as int), out@),
        decreases data@.len() - i,
    {
        let stop: StopType = stop_level_at(shape, i);
        out.push(pack(data[i].clone(), stop));
        i = i + 1;
    }
    assert(canonical_stream(shape@, data@).take(i as int) =~= canonical_stream(shape@, data@));
    out
}

impl<T: Clone> MetadataGen<T> {
    pub fn new(underlying: Tensor<T>, id: u32) -> (res: Self)
        ensures
            res == (MetadataGen { underlying, id }),
    {
        MetadataGen { underlying, id }
    }

    /// The stream; the `i`-th element is sent `i` cycles after the first.
    pub fn get_elem_array(&self) -> (res: Vec<Elem<T>>)
        requires
            self.underlying.wf(),
            1 <= self.underlying.shape@.len() <= u32::MAX,
        ensures
            stream_cloned(
                canonical_stream(self.underlying.shape@, self.underlying.data@),
                res@,
            ),
    {
        proof {
            lemma_product_nonneg(self.underlying.shape@);
        }
        to_elems(&self.underlying.shape, &self.underlying.data)
    }
}

/// The stream of a tensor holds its values in order, and element `i` closes
/// the `k` innermost dimensions exactly if it is the last of a block of them.
pub proof fn law_stream_closes_blocks<T: Clone>(
    op: MetadataGen<T>,
    elems: Vec<Elem<T>>,
    i: int,
    k: int,
)
    requires
        op.underlying.wf(),
        positive(op.underlying.shape@),
        op.underlying.shape@.len() <= u32::MAX,
        call_ensures(MetadataGen::<T>::get_elem_array, (&op,), elems),
        0 <= i < elems@.len(),
        0 <= k <= op.underlying.shape@.len(),
    ensures
        elems@.len() == op.underlying.data@.len(),
        cloned(op.underlying.data@[i], elems@[i].value()),
        elems@[i].level() >= k <==> (i + 1) % product(
            op.underlying.shape@.skip(op.underlying.shape@.len() - k),
        ) == 0,
        elems@[i].level() <= op.underlying.shape@.len(),
        elems@[i] is Val <==> elems@[i].level() == 0,
{
    let shape = op.underlying.shape@;
    law_stop_level(shape, i, k);
    lemma_stop_level_bound(shape, i);
    let ideal = canonical_stream(shape, op.underlying.data@);
    assert(elem_cloned(ideal[i], elems@[i]));
}

} // verus!
