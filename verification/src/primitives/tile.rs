//! Tiles: two-dimensional blocks of data that flow through streams.

use std::sync::Arc;
use vstd::prelude::*;

use crate::primitives::array::Array2;
use crate::primitives::elem::{mu_cycles, transfer_cycles, Bufferizable};

verus! {

/// A block of `shape.0` by `shape.1` elements.
///
/// `underlying` is absent in a blank tile, which only carries a shape.
/// `offset` counts the leading rows that hold data; the rows below are
/// padding. `read_from_mu` marks a tile that lies in a memory unit, so that
/// loading it costs cycles.
#[derive(Debug, PartialEq, Eq)]
pub struct Tile<T> {
    pub underlying: Option<Arc<Array2<T>>>,
    pub shape: (usize, usize),
    pub bytes_per_elem: usize,
    pub read_from_mu: bool,
    pub offset: usize,
}

/// Another handle on the same array.
///
/// Calls `std::sync::Arc::clone`, of which it claims that the new handle
/// refers to the same array.
#[verifier::external_body]
fn share<T>(array: &Arc<Array2<T>>) -> (res: Arc<Array2<T>>)
    ensures
        res == *array,
{
    Arc::clone(array)
}

impl<T> Tile<T> {
    /// The data, where there is any, has the tile's shape.
    pub open spec fn wf(&self) -> bool {
        self.underlying matches Some(array) ==> {
            &&& array.wf()
            &&& array.rows == self.shape.0
            &&& array.cols == self.shape.1
        }
    }

    /// The value in row `i` and column `j` of a tile that has data.
    pub open spec fn at(&self, i: int, j: int) -> T {
        self.underlying->0.at(i, j)
    }

    /// The bytes that the tile occupies.
    pub open spec fn bytes(&self) -> int {
        self.bytes_per_elem * (self.shape.0 * self.shape.1)
    }

    /// A tile whose rows all hold data.
    pub fn new(array: Array2<T>, bytes_per_elem: usize, read_from_mu: bool) -> (res: Tile<T>)
        requires
            array.wf(),
        ensures
            res.wf(),
            res == padded_tile(array, bytes_per_elem, read_from_mu, array.rows),
    {
        let rows: usize = array.rows;
        Tile::new_padded(array, bytes_per_elem, read_from_mu, rows)
    }

    /// A tile whose first `offset` rows hold data.
    pub fn new_padded(
        array: Array2<T>,
        bytes_per_elem: usize,
        read_from_mu: bool,
        offset: usize,
    ) -> (res: Tile<T>)
        requires
            array.wf(),
        ensures
            res.wf(),
            res == padded_tile(array, bytes_per_elem, read_from_mu, offset),
    {
        let shape = (array.rows, array.cols);
        Tile { underlying: Some(Arc::new(array)), shape, bytes_per_elem, read_from_mu, offset }
    }

    /// A tile without data.
    pub fn new_blank(shape: (usize, usize), bytes_per_elem: usize, read_from_mu: bool) -> (res: Tile<
        T,
    >)
        ensures
            res.wf(),
            res == blank_tile::<T>(shape, bytes_per_elem, read_from_mu, shape.0),
    {
        Tile::new_blank_padded(shape, bytes_per_elem, read_from_mu, shape.0)
    }

    /// A tile without data of which `offset` rows count as valid.
    pub fn new_blank_padded(
        shape: (usize, usize),
        bytes_per_elem: usize,
        read_from_mu: bool,
        offset: usize,
    ) -> (res: Tile<T>)
        ensures
            res.wf(),
            res == blank_tile::<T>(shape, bytes_per_elem, read_from_mu, offset),
    {
        Tile { underlying: None, shape, bytes_per_elem, read_from_mu, offset }
    }

    /// A tile with data but no cells: one of its dimensions is zero.
    pub fn new_empty(shape: (usize, usize), bytes_per_elem: usize, read_from_mu: bool) -> (res: Tile<
        T,
    >)
        requires
            shape.0 == 0 || shape.1 == 0,
        ensures
            res.wf(),
            res.underlying is Some,
            res.shape == shape,
            res.bytes_per_elem == bytes_per_elem,
            res.read_from_mu == read_from_mu,
            res.offset == shape.0,
    {
        let array: Array2<T> = Array2 { rows: shape.0, cols: shape.1, data: Vec::new() };
        assert(array.rows * array.cols == 0) by (nonlinear_arith)
            requires
                array.rows == 0 || array.cols == 0,
        ;
        Tile::new(array, bytes_per_elem, read_from_mu)
    }

    /// The tile's size can be computed.
    pub open spec fn sized(&self) -> bool {
        &&& self.shape.0 * self.shape.1 <= usize::MAX
        &&& self.bytes() <= usize::MAX
    }
}

impl<T> Bufferizable for Tile<T> {
    open spec fn byte_size(&self) -> int {
        self.bytes()
    }

    open spec fn measurable(&self) -> bool {
        self.sized()
    }

    open spec fn in_mu(&self) -> bool {
        self.read_from_mu
    }

    open spec fn placed(&self, in_mu: bool) -> Self {
        Tile { read_from_mu: in_mu, ..*self }
    }

    fn size_in_bytes(&self) -> (res: usize) {
        let cells: usize = self.shape.0 * self.shape.1;
        self.bytes_per_elem * cells
    }

    fn read_from_mu(&self) -> (res: bool) {
        self.read_from_mu
    }

    fn clone_with_updated_read_from_mu(&self, read_from_mu: bool) -> (res: Self) {
        let copy = self.clone();
        Tile { read_from_mu, ..copy }
    }
}

impl<T> Clone for Tile<T> {
    fn clone(&self) -> (res: Self)
        ensures
            res == *self,
    {
        let underlying = match &self.underlying {
            Some(array) => Some(share(array)),
            None => None,
        };
        Tile {
            underlying,
            shape: self.shape,
            bytes_per_elem: self.bytes_per_elem,
            read_from_mu: self.read_from_mu,
            offset: self.offset,
        }
    }
}

/// A tile of one value.
pub open spec fn is_scalar_tile<T>(
    tile: Tile<T>,
    value: T,
    bytes_per_elem: usize,
    read_from_mu: bool,
) -> bool {
    &&& tile.wf()
    &&& tile.shape == (1usize, 1usize)
    &&& tile.underlying is Some
    &&& tile.underlying->0.data@ == seq![value]
    &&& tile.at(0, 0) == value
    &&& tile.bytes_per_elem == bytes_per_elem
    &&& tile.read_from_mu == read_from_mu
    &&& tile.offset == 1
}

/// A tile of one value.
pub fn scalar_tile<T>(value: T, bytes_per_elem: usize, read_from_mu: bool) -> (res: Tile<T>)
    ensures
        is_scalar_tile(res, value, bytes_per_elem, read_from_mu),
{
    let mut data: Vec<T> = Vec::new();
    data.push(value);
    assert(data@ =~= seq![value]);
    Tile::new(Array2 { rows: 1, cols: 1, data }, bytes_per_elem, read_from_mu)
}

/// A tile over an array whose first `offset` rows hold data.
pub open spec fn padded_tile<T>(
    array: Array2<T>,
    bytes_per_elem: usize,
    read_from_mu: bool,
    offset: usize,
) -> Tile<T> {
    Tile {
        underlying: Some(Arc::new(array)),
        shape: (array.rows, array.cols),
        bytes_per_elem,
        read_from_mu,
        offset,
    }
}

/// A tile without data.
pub open spec fn blank_tile<T>(
    shape: (usize, usize),
    bytes_per_elem: usize,
    read_from_mu: bool,
    offset: usize,
) -> Tile<T> {
    Tile { underlying: None, shape, bytes_per_elem, read_from_mu, offset }
}

/// The cycles to move a tile that lies in a memory unit, at 512 bytes per
/// cycle; none for one that does not.
pub open spec fn tile_cycles<T>(in_mu: bool, tile: Tile<T>) -> int {
    if in_mu {
        (tile.bytes_per_elem * (tile.shape.0 * tile.shape.1) + 511) / 512
    } else {
        0
    }
}

/// Transfers of tiles are priced by the size of the tile.
pub proof fn lemma_tile_cycles<T>(in_mu: bool, tile: Tile<T>)
    ensures
        mu_cycles(in_mu, tile.bytes()) == tile_cycles(in_mu, tile),
{
    assert(tile.bytes_per_elem * (tile.shape.0 * tile.shape.1) >= 0) by (nonlinear_arith)
        requires
            tile.bytes_per_elem >= 0,
            tile.shape.0 >= 0,
            tile.shape.1 >= 0,
    ;
}

/// A tile occupies `bytes_per_elem` bytes for each of its cells, padding
/// included, and moving it into or out of a memory unit changes nothing else
/// about it.
pub proof fn law_tile_is_moved_whole<T>(
    tile: Tile<T>,
    in_mu: bool,
    bytes: usize,
    moved: Tile<T>,
    cycles: u64,
)
    requires
        call_ensures(<Tile<T> as Bufferizable>::size_in_bytes, (&tile,), bytes),
        call_ensures(
            <Tile<T> as Bufferizable>::clone_with_updated_read_from_mu,
            (&tile, in_mu),
            moved,
        ),
        call_ensures(transfer_cycles::<Tile<T>>, (&tile, true), cycles),
    ensures
        bytes == tile.bytes_per_elem * (tile.shape.0 * tile.shape.1),
        cycles * 512 >= tile.bytes_per_elem * (tile.shape.0 * tile.shape.1) > (cycles - 1) * 512,
        moved.read_from_mu == in_mu,
        moved.underlying == tile.underlying,
        moved.shape == tile.shape,
        moved.bytes_per_elem == tile.bytes_per_elem,
        moved.offset == tile.offset,
{
    lemma_tile_cycles(true, tile);
}

/// A new tile has the cells of its array, all of whose rows hold data unless
/// it is told how many do. A blank tile has its shape alone.
pub proof fn law_tile_has_cells_of_array<T>(
    array: Array2<T>,
    shape: (usize, usize),
    bytes_per_elem: usize,
    read_from_mu: bool,
    offset: usize,
    full: Tile<T>,
    padded: Tile<T>,
    blank: Tile<T>,
    blank_padded: Tile<T>,
)
    requires
        call_ensures(Tile::<T>::new, (array, bytes_per_elem, read_from_mu), full),
        call_ensures(Tile::<T>::new_padded, (array, bytes_per_elem, read_from_mu, offset), padded),
        call_ensures(Tile::<T>::new_blank, (shape, bytes_per_elem, read_from_mu), blank),
        call_ensures(
            Tile::<T>::new_blank_padded,
            (shape, bytes_per_elem, read_from_mu, offset),
            blank_padded,
        ),
    ensures
        full.underlying is Some && padded.underlying is Some,
        forall|i: int, j: int| #[trigger] full.at(i, j) == array.at(i, j),
        forall|i: int, j: int| #[trigger] padded.at(i, j) == array.at(i, j),
        full.shape == (array.rows, array.cols),
        padded.shape == (array.rows, array.cols),
        full.offset == array.rows,
        padded.offset == offset,
        blank.underlying is None && blank_padded.underlying is None,
        blank.shape == shape && blank_padded.shape == shape,
        blank.offset == shape.0,
        blank_padded.offset == offset,
        full.bytes_per_elem == bytes_per_elem && padded.bytes_per_elem == bytes_per_elem,
        blank.bytes_per_elem == bytes_per_elem && blank_padded.bytes_per_elem == bytes_per_elem,
        full.read_from_mu == read_from_mu && padded.read_from_mu == read_from_mu,
        blank.read_from_mu == read_from_mu && blank_padded.read_from_mu == read_from_mu,
{
}

} // verus!
