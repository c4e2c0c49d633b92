//! Tiles of any rank, known by their shape alone.

use vstd::prelude::*;

use crate::utils::indexing::{count_positions, product, product_fits};

verus! {

#[derive(Debug, PartialEq)]
pub struct Tile {
    pub shape: Vec<usize>,
    pub bytes_per_elem: usize,
    pub read_from_mu: bool,
}

impl Clone for Tile {
    fn clone(&self) -> (res: Self)
        ensures
            res.shape@ == self.shape@,
            res.bytes_per_elem == self.bytes_per_elem,
            res.read_from_mu == self.read_from_mu,
    {
        let shape = self.shape.clone();
        assert(shape@ =~= self.shape@);
        Tile { shape, bytes_per_elem: self.bytes_per_elem, read_from_mu: self.read_from_mu }
    }
}

impl Default for Tile {
    fn default() -> (res: Self)
        ensures
            res.shape@ == Seq::<usize>::empty(),
            res.bytes_per_elem == 0,
            !res.read_from_mu,
    {
        Tile { shape: Vec::new(), bytes_per_elem: 0, read_from_mu: false }
    }
}

impl Tile {
    /// The bytes that the tile occupies.
    pub fn size_in_bytes(&self) -> (res: usize)
        requires
            product_fits(self.shape@),
            self.bytes_per_elem * product(self.shape@) <= usize::MAX,
        ensures
            res == self.bytes_per_elem * product(self.shape@),
    {
        let total_elems: usize = count_positions(&self.shape);
        self.bytes_per_elem * total_elems
    }
}

} // verus!
