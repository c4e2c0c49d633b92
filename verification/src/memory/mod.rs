//! Loads and stores in off-chip memory: their addresses and their data.

pub mod aw_trace;
pub mod data;
pub mod dyn_linear_offchip_load;
pub mod dyn_offchip_store;
pub mod events;
pub mod metadata_gen;
pub mod offchip_load;
pub mod offchip_store;
pub mod random_offchip_load;
pub mod random_offchip_store;
pub mod random_tile_address;
pub mod requests;
pub mod shape_text;
pub mod store_plan;

use vstd::prelude::*;

use crate::primitives::elem::StopType;
use crate::primitives::tensor::{tiles_of, tiled_shape, Tensor};
use crate::primitives::array::Array2;
use crate::primitives::tile::{blank_tile, padded_tile, Tile};
use crate::utils::indexing::product;
use crate::utils::mapping::map_into;

verus! {

/// Bytes that a memory unit moves in one cycle.
pub const PMU_BW: u64 = 512;

/// The byte offset of the first element of a tile: tiles are numbered row by
/// row in a grid of `columns` columns, and the tensor is stored row by row.
pub open spec fn tile_base(index: int, columns: int, rows: int, cols: int, bytes: int) -> int {
    ((index / columns) * rows * columns + index % columns) * cols * bytes
}

/// Byte offset of a tile in a row-major tensor, including tiled columns.
pub fn tile_base_addr(index: u64, columns: usize, rows: usize, cols: usize, bytes: usize) -> (res:
    u64)
    requires
        columns > 0,
        (index / columns as u64) * rows <= u64::MAX,
        (index / columns as u64) * rows * columns + index % columns as u64 <= u64::MAX,
        ((index / columns as u64) * rows * columns + index % columns as u64) * cols <= u64::MAX,
        tile_base(index as int, columns as int, rows as int, cols as int, bytes as int)
            <= u64::MAX,
    ensures
        res == tile_base(index as int, columns as int, rows as int, cols as int, bytes as int),
{
    let columns: u64 = columns as u64;
    let row: u64 = index / columns;
    proof {
        assert(row * rows * columns >= 0) by (nonlinear_arith)
            requires
                row >= 0,
                rows >= 0,
                columns >= 0,
        ;
    }
    (row * rows as u64 * columns + index % columns) * cols as u64 * bytes as u64
}

/// The addresses to read for a tile, and the tile that is sent on once they
/// have been read; the second form closes dimensions of the stream.
#[derive(Debug, PartialEq)]
pub enum HbmAddrEnum<T> {
    ADDR(Vec<u64>, Tile<T>),
    ADDRSTOP(Vec<u64>, Tile<T>, StopType),
}

impl<T> HbmAddrEnum<T> {
    /// The addresses to read.
    pub open spec fn addrs(self) -> Seq<u64> {
        match self {
            HbmAddrEnum::ADDR(addrs, _) => addrs@,
            HbmAddrEnum::ADDRSTOP(addrs, _, _) => addrs@,
        }
    }

    /// The tile to send on.
    pub open spec fn tile(self) -> Tile<T> {
        match self {
            HbmAddrEnum::ADDR(_, tile) => tile,
            HbmAddrEnum::ADDRSTOP(_, tile, _) => tile,
        }
    }

    /// The request closes exactly `level` dimensions.
    pub open spec fn closes(self, level: int) -> bool {
        match self {
            HbmAddrEnum::ADDR(_, _) => level == 0,
            HbmAddrEnum::ADDRSTOP(_, _, s) => s == level && s > 0,
        }
    }

    /// A request with a stop level; level zero closes nothing.
    pub fn new(addrs: Vec<u64>, tile: Tile<T>, level: StopType) -> (res: Self)
        ensures
            res.addrs() == addrs@,
            res.tile() == tile,
            res.closes(level as int),
    {
        if level > 0 {
            HbmAddrEnum::ADDRSTOP(addrs, tile, level)
        } else {
            HbmAddrEnum::ADDR(addrs, tile)
        }
    }
}

/// `tile` is what loading tile `t` of a tensor gives: its data where there is
/// any, a blank tile otherwise. It lies in a memory unit.
pub open spec fn is_loaded_tile<T>(
    underlying: Option<Tensor<T>>,
    tile_row: usize,
    tile_col: usize,
    n_byte: usize,
    t: int,
    tile: Tile<T>,
) -> bool {
    match underlying {
        Some(tensor) => {
            &&& tile.wf()
            &&& tile.underlying is Some
            &&& tensor.is_tile(tile_row, tile_col, t, *tile.underlying->0)
            &&& tile.shape == (tile_row, tile_col)
            &&& tile.bytes_per_elem == n_byte
            &&& tile.read_from_mu
            &&& tile.offset == tile_row
        },
        None => tile == blank_tile::<T>((tile_row, tile_col), n_byte, true, tile_row),
    }
}

/// All tiles of a tensor, ready to be sent.
pub(crate) fn loaded_tiles<T: Copy>(
    tensor: &Tensor<T>,
    tile_row: usize,
    tile_col: usize,
    n_byte: usize,
) -> (res: Vec<Tile<T>>)
    requires
        tensor.wf(),
        tensor.shape@.len() >= 2,
        tile_row > 0,
        tile_col > 0,
    ensures
        res@.len() == product(tiled_shape(tensor.shape@, tile_row, tile_col)),
        forall|t: int|
            0 <= t < res@.len() ==> is_loaded_tile(
                Some(*tensor),
                tile_row,
                tile_col,
                n_byte,
                t,
                #[trigger] res@[t],
            ),
{
    let arrays = tiles_of(tensor, tile_row, tile_col);
    let in_memory_unit = |array: Array2<T>| -> (tile: Tile<T>)
        requires
            array.wf(),
        ensures
            tile.wf(),
            tile == padded_tile(array, n_byte, true, array.rows),
        {
            Tile::new(array, n_byte, true)
        };
    map_into(arrays, in_memory_unit)
}

/// The tile in row `i` and column `j` of the grid begins behind `i` rows of
/// tiles and beside `j` tiles.
pub proof fn law_tile_base_in_grid(
    i: int,
    j: int,
    index: u64,
    columns: usize,
    rows: usize,
    cols: usize,
    bytes: usize,
    base: u64,
)
    requires
        0 <= i,
        0 <= j < columns,
        index == i * columns + j,
        call_ensures(tile_base_addr, (index, columns, rows, cols, bytes), base),
    ensures
        base == (i * rows) * (columns * cols * bytes) + j * (cols * bytes),
{
    vstd::arithmetic::div_mod::lemma_fundamental_div_mod_converse(
        index as int,
        columns as int,
        i,
        j,
    );
    assert((i * rows * columns + j) * cols * bytes == (i * rows) * (columns * cols * bytes) + j * (
    cols * bytes)) by (nonlinear_arith);
}

} // verus!
