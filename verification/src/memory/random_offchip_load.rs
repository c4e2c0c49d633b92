//! Loading single tiles of a tensor by their index.

use vstd::prelude::*;

use crate::memory::requests::{lemma_layout_walks_rows, walks_rows, TileLayout};
use crate::memory::{is_loaded_tile, loaded_tiles};
use crate::primitives::elem::{with_value, Elem};
use crate::primitives::tensor::{law_tiled_undoes_untiled, tile_cell, untiled, Tensor};
use crate::primitives::tile::{blank_tile, Tile};
use crate::utils::indexing::product;

verus! {

/// Reads the tiles of a tensor that a stream of tile indices asks for.
#[derive(Debug)]
pub struct RandomOffChipLoad<T> {
    pub tensor_shape_tiled: Vec<usize>,
    pub underlying: Option<Tensor<T>>,
    pub tile_row: usize,
    pub tile_col: usize,
    pub n_byte: usize,
    pub pre_computed_tiles: Option<Vec<Tile<T>>>,
    pub base_addr_byte: u64,
    pub addr_offset: u64,
    pub par_dispatch: usize,
    pub id: u32,
}

/// What a tile index asks for: the addresses to read, and the tile that is
/// sent on once they have been read.
#[derive(Debug, PartialEq)]
pub struct ReadRequest<T> {
    pub addrs: Vec<u64>,
    pub data: Elem<Tile<T>>,
}

/// A tile that carries an index has a first cell.
pub open spec fn carries_index(tile: Tile<u64>) -> bool {
    tile.wf() && tile.underlying is Some && tile.shape.0 > 0 && tile.shape.1 > 0
}

/// The index in the first cell of a tile.
pub(crate) fn index_of(tile: &Tile<u64>) -> (res: u64)
    requires
        carries_index(*tile),
    ensures
        res == tile.at(0, 0),
{
    match &tile.underlying {
        Some(array) => *array.get(0, 0),
        None => 0,
    }
}

impl<T> RandomOffChipLoad<T> {
    /// The tiles are those of the data, where there is any.
    pub open spec fn wf(&self) -> bool {
        &&& self.tensor_shape_tiled@.len() > 0
        &&& self.pre_computed_tiles is Some <==> self.underlying is Some
        &&& self.pre_computed_tiles matches Some(tiles) ==> {
            &&& tiles@.len() == product(self.tensor_shape_tiled@)
            &&& forall|t: int|
                0 <= t < tiles@.len() ==> is_loaded_tile(
                    self.underlying,
                    self.tile_row,
                    self.tile_col,
                    self.n_byte,
                    t,
                    #[trigger] tiles@[t],
                )
        }
    }

    /// Where the tiles lie.
    pub open spec fn layout(&self) -> TileLayout {
        TileLayout {
            tile_row: self.tile_row,
            tile_col: self.tile_col,
            n_byte: self.n_byte,
            tile_bytes: (self.tile_row * self.tile_col * self.n_byte) as usize,
            grid_cols: self.tensor_shape_tiled@.last(),
            base_addr_byte: self.base_addr_byte,
            addr_offset: self.addr_offset,
        }
    }

    /// The addresses of a tile can be computed.
    pub open spec fn addressable(&self, tile_idx: int) -> bool {
        &&& self.tile_row * self.tile_col <= usize::MAX
        &&& self.tile_row * self.tile_col * self.n_byte <= usize::MAX
        &&& self.layout().fits(tile_idx)
    }

    /// `tile` is what tile index `tile_idx` gives: a blank tile where there is
    /// no data for it.
    pub open spec fn is_tile_data(&self, tile_idx: int, tile: Tile<T>) -> bool {
        if self.underlying is Some && tile_idx < product(self.tensor_shape_tiled@) {
            is_loaded_tile(
                self.underlying,
                self.tile_row,
                self.tile_col,
                self.n_byte,
                tile_idx,
                tile,
            )
        } else {
            tile == blank_tile::<T>(
                (self.tile_row, self.tile_col),
                self.n_byte,
                true,
                self.tile_row,
            )
        }
    }

    /// Generates the addresses for a specific tile index.
    pub fn generate_tile_addresses(&self, tile_idx: u64) -> (res: Vec<u64>)
        requires
            self.wf(),
            self.addressable(tile_idx as int),
        ensures
            res@ == self.layout().addrs(tile_idx as int),
    {
        let layout = TileLayout {
            tile_row: self.tile_row,
            tile_col: self.tile_col,
            n_byte: self.n_byte,
            tile_bytes: self.tile_row * self.tile_col * self.n_byte,
            grid_cols: self.tensor_shape_tiled[self.tensor_shape_tiled.len() - 1],
            base_addr_byte: self.base_addr_byte,
            addr_offset: self.addr_offset,
        };
        layout.tile_addresses(tile_idx)
    }

    /// Creates the tile for a specific tile index.
    pub fn create_tile_data(&self, tile_idx: u64) -> (res: Tile<T>)
        requires
            self.wf(),
        ensures
            self.is_tile_data(tile_idx as int, res),
    {
        match &self.pre_computed_tiles {
            Some(tiles) => if tile_idx < tiles.len() as u64 {
                tiles[tile_idx as usize].clone()
            } else {
                Tile::new_blank((self.tile_row, self.tile_col), self.n_byte, true)
            },
            None => Tile::new_blank((self.tile_row, self.tile_col), self.n_byte, true),
        }
    }

    /// Answers one tile index; the answer closes what the index closes.
    pub fn step(&self, raddr: &Elem<Tile<u64>>) -> (res: ReadRequest<T>)
        requires
            self.wf(),
            carries_index(raddr.value()),
            self.addressable(raddr.value().at(0, 0) as int),
        ensures
            res.addrs@ == self.layout().addrs(raddr.value().at(0, 0) as int),
            self.is_tile_data(raddr.value().at(0, 0) as int, res.data.value()),
            res.data == with_value(*raddr, res.data.value()),
    {
        match raddr {
            Elem::Val(tile) => {
                let tile_idx: u64 = index_of(tile);
                let addrs = self.generate_tile_addresses(tile_idx);
                ReadRequest { addrs, data: Elem::Val(self.create_tile_data(tile_idx)) }
            },
            Elem::ValStop(tile, level) => {
                let tile_idx: u64 = index_of(tile);
                let addrs = self.generate_tile_addresses(tile_idx);
                ReadRequest { addrs, data: Elem::ValStop(self.create_tile_data(tile_idx), *level) }
            },
        }
    }
}

impl<T: Copy> RandomOffChipLoad<T> {
    pub fn new(
        tensor_shape_tiled: Vec<usize>,
        underlying: Option<Tensor<T>>,
        tile_row: usize,
        tile_col: usize,
        n_byte: usize,
        base_addr_byte: u64,
        addr_offset: u64,
        par_dispatch: usize,
        id: u32,
    ) -> (res: Self)
        requires
            tensor_shape_tiled@.len() > 0,
            underlying matches Some(tensor) ==> {
                let n = tensor_shape_tiled@.len();
                &&& tensor.wf()
                &&& n >= 2
                &&& tile_row > 0
                &&& tile_col > 0
                &&& tensor_shape_tiled@[n - 2] * tile_row <= usize::MAX
                &&& tensor_shape_tiled@[n - 1] * tile_col <= usize::MAX
                &&& tensor.shape@ == untiled(tensor_shape_tiled@, tile_row, tile_col)
            },
        ensures
            res.wf(),
            res.tensor_shape_tiled == tensor_shape_tiled,
            res.underlying == underlying,
            res.tile_row == tile_row,
            res.tile_col == tile_col,
            res.n_byte == n_byte,
            res.base_addr_byte == base_addr_byte,
            res.addr_offset == addr_offset,
            res.par_dispatch == par_dispatch,
            res.id == id,
    {
        let pre_computed_tiles = match &underlying {
            Some(tensor) => {
                proof {
                    law_tiled_undoes_untiled(tensor_shape_tiled@, tile_row, tile_col);
                }
                Some(loaded_tiles(tensor, tile_row, tile_col, n_byte))
            },
            None => None,
        };
        RandomOffChipLoad {
            tensor_shape_tiled,
            underlying,
            tile_row,
            tile_col,
            n_byte,
            pre_computed_tiles,
            base_addr_byte,
            addr_offset,
            par_dispatch,
            id,
        }
    }
}

/// A read asks for the tile that the index names, from end to end, and what is
/// sent on has the stops of the index.
pub proof fn law_read_asks_for_tile<T>(
    op: RandomOffChipLoad<T>,
    raddr: Elem<Tile<u64>>,
    res: ReadRequest<T>,
)
    requires
        op.wf(),
        op.tile_row > 0,
        op.addressable(raddr.value().at(0, 0) as int),
        call_ensures(RandomOffChipLoad::<T>::step, (&op, &raddr), res),
    ensures
        exists|n: int| #[trigger]
            walks_rows(
                res.addrs@,
                op.base_addr_byte + raddr.value().at(0, 0) * (op.tile_row * op.tile_col * op.n_byte),
                op.tile_row as int,
                op.tile_col * op.n_byte,
                op.tensor_shape_tiled@.last() * op.tile_col * op.n_byte,
                op.addr_offset as int,
                n,
            ),
        res.data is ValStop <==> raddr is ValStop,
        res.data.level() == raddr.level(),
        res.data.value().shape == (op.tile_row, op.tile_col),
        res.data.value().bytes_per_elem == op.n_byte,
        res.data.value().read_from_mu,
        res.data.value().underlying is Some <==> op.underlying is Some && raddr.value().at(0, 0)
            < product(op.tensor_shape_tiled@),
{
    lemma_layout_walks_rows(op.layout(), raddr.value().at(0, 0) as int);
}

/// The tile that is sent on for a read holds the cells of the tensor that it
/// was asked for.
pub proof fn law_read_carries_data<T>(
    op: RandomOffChipLoad<T>,
    raddr: Elem<Tile<u64>>,
    res: ReadRequest<T>,
    r: int,
    c: int,
)
    requires
        call_ensures(RandomOffChipLoad::<T>::step, (&op, &raddr), res),
        raddr.value().at(0, 0) < product(op.tensor_shape_tiled@),
        op.underlying is Some,
        0 <= r < op.tile_row,
        0 <= c < op.tile_col,
    ensures
        res.data.value().underlying is Some,
        res.data.value().at(r, c) == op.underlying->0.data@[tile_cell(
            op.underlying->0.shape@,
            op.tile_row,
            op.tile_col,
            raddr.value().at(0, 0) as int,
            r,
            c,
        )],
{
    let cell = res.data.value().underlying->0.at(r, c);
}

} // verus!
