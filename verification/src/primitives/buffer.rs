//! Buffers: dense arrays of stream values.

use vstd::prelude::*;

use crate::memory::metadata_gen::{canonical_stream, to_elems};
use crate::primitives::elem::{stream_cloned, Elem, StopType};
use crate::utils::indexing::{lemma_product_nonneg, product};

verus! {

/// An array of values that were read from a stream, and the cycle in which it
/// was completed.
#[derive(Debug, PartialEq, Eq)]
pub struct Buffer<T> {
    pub shape: Vec<usize>,
    pub data: Vec<T>,
    pub creation_time: u64,
}

/// Why no buffer that closes nothing came out of a stream: it closes further
/// dimensions, the stream is finished, or it ended inside a buffer.
#[derive(Debug, PartialEq, Eq)]
pub enum BufferizeError<T> {
    StopToken(Buffer<T>, StopType),
    Finished,
    Incomplete,
}

impl<T> Buffer<T> {
    /// There is one value for each position.
    pub open spec fn wf(&self) -> bool {
        self.data@.len() == product(self.shape@)
    }

    /// The values as a stream.
    pub open spec fn stream(&self) -> Seq<Elem<T>> {
        canonical_stream(self.shape@, self.data@)
    }

    pub fn new(shape: Vec<usize>, data: Vec<T>, creation_time: u64) -> (res: Self)
        requires
            data@.len() == product(shape@),
        ensures
            res.wf(),
            res == (Buffer { shape, data, creation_time }),
    {
        Buffer { shape, data, creation_time }
    }
}

impl<T: Clone> Buffer<T> {
    /// The values as a stream: each closes the dimensions that end with it.
    pub fn to_elem_iter(&self) -> (res: Vec<Elem<T>>)
        requires
            self.wf(),
            self.shape@.len() <= u32::MAX,
        ensures
            stream_cloned(self.stream(), res@),
    {
        proof {
            lemma_product_nonneg(self.shape@);
        }
        to_elems(&self.shape, &self.data)
    }
}

} // verus!
