//! Loading a strided view of a tiled tensor.

use vstd::prelude::*;

use crate::memory::requests::{lemma_layout_walks_rows, walks_rows, TileLayout};
use crate::memory::{is_loaded_tile, loaded_tiles, HbmAddrEnum};
use crate::primitives::tensor::{law_tiled_undoes_untiled, tile_cell, untiled, Tensor};
use crate::primitives::tile::Tile;
use crate::utils::indexing::{
    count_positions, lemma_product_nonneg, locate, positive, product, product_fits, stop_level,
    view_index,
};

verus! {

/// Reads the tiles that a view of a tensor visits. The tensor's shape, the
/// view's shape and its strides are given in tiles.
#[derive(Debug)]
pub struct OffChipLoad<T> {
    pub tensor_shape_tiled: Vec<usize>,
    pub stride: Vec<usize>,
    pub out_shape_tiled: Vec<usize>,
    pub underlying: Option<Tensor<T>>,
    pub tile_row: usize,
    pub tile_col: usize,
    pub n_byte: usize,
    pub base_addr_byte: u64,
    pub addr_offset: u64,
    pub par_dispatch: usize,
    pub id: u32,
}

impl<T> OffChipLoad<T> {
    /// The data, where there is any, has the tensor's shape.
    pub open spec fn wf(&self) -> bool {
        self.underlying matches Some(tensor) ==> {
            let n = self.tensor_shape_tiled@.len();
            &&& tensor.wf()
            &&& n >= 2
            &&& self.tensor_shape_tiled@[n - 2] * self.tile_row <= usize::MAX
            &&& self.tensor_shape_tiled@[n - 1] * self.tile_col <= usize::MAX
            &&& tensor.shape@ == untiled(self.tensor_shape_tiled@, self.tile_row, self.tile_col)
        }
    }

    /// Where the tiles lie.
    pub open spec fn layout(&self) -> TileLayout {
        TileLayout {
            tile_row: self.tile_row,
            tile_col: self.tile_col,
            n_byte: self.n_byte,
            tile_bytes: (self.tile_row * self.tile_col * self.n_byte) as usize,
            grid_cols: self.tensor_shape_tiled@.last(),
            base_addr_byte: self.base_addr_byte,
            addr_offset: self.addr_offset,
        }
    }

    /// The tile that the view reads at its `k`-th step.
    pub open spec fn tile_index(&self, k: int) -> int {
        let size = product(self.tensor_shape_tiled@);
        if size > 0 {
            view_index(self.out_shape_tiled@, self.stride@, k) % size
        } else {
            0
        }
    }

    /// A tile has anything to read.
    pub open spec fn nonempty(&self) -> bool {
        self.tile_row > 0 && self.tile_col * self.n_byte > 0
    }

    /// Nothing that the walk computes is out of range.
    pub open spec fn walkable(&self) -> bool {
        let total = product(self.out_shape_tiled@);
        &&& self.stride@.len() == self.out_shape_tiled@.len()
        &&& self.out_shape_tiled@.len() <= u32::MAX
        &&& product_fits(self.out_shape_tiled@)
        &&& self.underlying is Some ==> self.tile_row > 0 && self.tile_col > 0
        &&& total > 0 ==> {
            &&& self.tensor_shape_tiled@.len() > 0
            &&& product_fits(self.tensor_shape_tiled@)
            &&& self.tile_row * self.tile_col <= usize::MAX
            &&& self.tile_row * self.tile_col * self.n_byte <= usize::MAX
            &&& self.underlying is Some && self.nonempty() ==> product(self.tensor_shape_tiled@) > 0
        }
        &&& forall|k: int|
            0 <= k < total ==> {
                &&& #[trigger] view_index(self.out_shape_tiled@, self.stride@, k) <= usize::MAX
                &&& self.layout().fits(self.tile_index(k))
            }
    }

    /// `request` is what the view asks for at its `k`-th step.
    pub open spec fn is_request(&self, k: int, request: HbmAddrEnum<T>) -> bool {
        &&& request.addrs() == self.layout().addrs(self.tile_index(k))
        &&& request.closes(stop_level(self.out_shape_tiled@, k))
        &&& is_loaded_tile(
            self.underlying,
            self.tile_row,
            self.tile_col,
            self.n_byte,
            self.tile_index(k),
            request.tile(),
        )
    }

    pub fn new(
        tensor_shape_tiled: Vec<usize>,
        stride: Vec<usize>,
        out_shape_tiled: Vec<usize>,
        underlying: Option<Tensor<T>>,
        tile_row: usize,
        tile_col: usize,
        n_byte: usize,
        base_addr_byte: u64,
        addr_offset: u64,
        par_dispatch: usize,
        id: u32,
    ) -> (res: Self)
        requires
            underlying matches Some(tensor) ==> {
                let n = tensor_shape_tiled@.len();
                &&& tensor.wf()
                &&& n >= 2
                &&& tensor_shape_tiled@[n - 2] * tile_row <= usize::MAX
                &&& tensor_shape_tiled@[n - 1] * tile_col <= usize::MAX
                &&& tensor.shape@ == untiled(tensor_shape_tiled@, tile_row, tile_col)
            },
        ensures
            res.wf(),
            res == (OffChipLoad {
                tensor_shape_tiled,
                stride,
                out_shape_tiled,
                underlying,
                tile_row,
                tile_col,
                n_byte,
                base_addr_byte,
                addr_offset,
                par_dispatch,
                id,
            }),
    {
        OffChipLoad {
            tensor_shape_tiled,
            stride,
            out_shape_tiled,
            underlying,
            tile_row,
            tile_col,
            n_byte,
            base_addr_byte,
            addr_offset,
            par_dispatch,
            id,
        }
    }

    /// Elements that one tile asks for.
    pub fn on_chip_req_elems(&self) -> (res: usize)
        requires
            self.tile_row * self.tile_col <= usize::MAX,
        ensures
            res == self.tile_row * self.tile_col,
    {
        self.tile_row * self.tile_col
    }

    /// Elements that the whole view loads.
    pub fn loaded_elems(&self) -> (res: usize)
        requires
            product_fits(self.out_shape_tiled@),
            product(self.out_shape_tiled@) * self.tile_row <= usize::MAX,
            product(self.out_shape_tiled@) * self.tile_row * self.tile_col <= usize::MAX,
        ensures
            res == product(self.out_shape_tiled@) * self.tile_row * self.tile_col,
    {
        let total_tiles: usize = count_positions(&self.out_shape_tiled);
        proof {
            lemma_product_nonneg(self.out_shape_tiled@);
            assert(total_tiles * self.tile_row >= 0) by (nonlinear_arith)
                requires
                    total_tiles >= 0,
                    self.tile_row >= 0,
            ;
        }
        total_tiles * self.tile_row * self.tile_col
    }
}

impl<T: Copy> OffChipLoad<T> {
    /// The requests of the whole view, in the order in which it is walked.
    pub fn generate_addr(&self) -> (res: Vec<HbmAddrEnum<T>>)
        requires
            self.wf(),
            self.walkable(),
        ensures
            res@.len() == (if self.nonempty() {
                product(self.out_shape_tiled@)
            } else {
                0
            }),
            forall|k: int| 0 <= k < res@.len() ==> self.is_request(k, #[trigger] res@[k]),
    {
        let tiles: Option<Vec<Tile<T>>> = match &self.underlying {
            Some(tensor) => {
                proof {
                    law_tiled_undoes_untiled(
                        self.tensor_shape_tiled@,
                        self.tile_row,
                        self.tile_col,
                    );
                }
                Some(loaded_tiles(tensor, self.tile_row, self.tile_col, self.n_byte))
            },
            None => None,
        };
        let total: usize = count_positions(&self.out_shape_tiled);
        let mut requests: Vec<HbmAddrEnum<T>> = Vec::new();
        if total == 0 {
            return requests;
        }
        proof {
            lemma_product_nonneg(self.out_shape_tiled@);
            lemma_product_nonneg(self.tensor_shape_tiled@);
        }
        let layout = TileLayout {
            tile_row: self.tile_row,
            tile_col: self.tile_col,
            n_byte: self.n_byte,
            tile_bytes: self.tile_row * self.tile_col * self.n_byte,
            grid_cols: self.tensor_shape_tiled[self.tensor_shape_tiled.len() - 1],
            base_addr_byte: self.base_addr_byte,
            addr_offset: self.addr_offset,
        };
        let tile_count: usize = count_positions(&self.tensor_shape_tiled);
        proof {
            assert(view_index(self.out_shape_tiled@, self.stride@, 0) <= usize::MAX);
            layout.lemma_count();
        }
        let mut flat: usize = 0;
        while flat < total
            invariant
                self.wf(),
                self.walkable(),
                positive(self.out_shape_tiled@),
                flat <= total,
                total == product(self.out_shape_tiled@),
                total > 0,
                tile_count == product(self.tensor_shape_tiled@),
                layout == self.layout(),
                self.nonempty() <==> layout.count() > 0,
                tiles is Some <==> self.underlying is Some,
                tiles matches Some(all) ==> {
                    &&& all@.len() == tile_count
                    &&& forall|t: int|
                        0 <= t < all@.len() ==> is_loaded_tile(
                            self.underlying,
                            self.tile_row,
                            self.tile_col,
                            self.n_byte,
                            t,
                            #[trigger] all@[t],
                        )
                },
                requests@.len() == (if self.nonempty() {
                    flat as int
                } else {
                    0
                }),
                forall|k: int|
                    0 <= k < requests@.len() ==> self.is_request(k, #[trigger] requests@[k]),
            decreases total - flat,
        {
            assert(view_index(self.out_shape_tiled@, self.stride@, flat as int) <= usize::MAX);
            let (index, stop) = locate(&self.out_shape_tiled, &self.stride, flat);
            let tile_idx: usize = if tile_count > 0 {
                index % tile_count
            } else {
                0
            };
            assert(tile_idx == self.tile_index(flat as int));
            let addrs = layout.tile_addresses(tile_idx as u64);
            if addrs.len() > 0 {
                let tile = match &tiles {
                    Some(all) => all[tile_idx].clone(),
                    None => Tile::new_blank((self.tile_row, self.tile_col), self.n_byte, true),
                };
                requests.push(HbmAddrEnum::new(addrs, tile, stop));
            }
            flat = flat + 1;
        }
        requests
    }
}

/// The request that a load makes at step `k` of its view: the rows of the tile
/// that the view reads there, wrapped into the tensor, are asked for from end
/// to end, and the tile that is sent on lies in a memory unit and closes the
/// dimensions of the view that end there.
pub proof fn law_load_asks_for_view<T: Copy>(
    op: OffChipLoad<T>,
    requests: Vec<HbmAddrEnum<T>>,
    k: int,
)
    requires
        op.wf(),
        op.walkable(),
        call_ensures(OffChipLoad::<T>::generate_addr, (&op,), requests),
        op.tile_row > 0,
        op.tile_col * op.n_byte > 0,
        product(op.tensor_shape_tiled@) > 0,
        0 <= k < product(op.out_shape_tiled@),
    ensures
        requests@.len() == product(op.out_shape_tiled@),
        ({
            let t = view_index(op.out_shape_tiled@, op.stride@, k) % product(op.tensor_shape_tiled@);
            exists|n: int| #[trigger]
                walks_rows(
                    requests@[k].addrs(),
                    op.base_addr_byte + t * (op.tile_row * op.tile_col * op.n_byte),
                    op.tile_row as int,
                    op.tile_col * op.n_byte,
                    op.tensor_shape_tiled@.last() * op.tile_col * op.n_byte,
                    op.addr_offset as int,
                    n,
                )
        }),
        match requests@[k] {
            HbmAddrEnum::ADDR(_, _) => stop_level(op.out_shape_tiled@, k) == 0,
            HbmAddrEnum::ADDRSTOP(_, _, s) => s == stop_level(op.out_shape_tiled@, k) && s > 0,
        },
        requests@[k].tile().shape == (op.tile_row, op.tile_col),
        requests@[k].tile().bytes_per_elem == op.n_byte,
        requests@[k].tile().read_from_mu,
        requests@[k].tile().offset == op.tile_row,
        requests@[k].tile().underlying is Some <==> op.underlying is Some,
{
    let t = op.tile_index(k);
    assert(op.is_request(k, requests@[k]));
    assert(view_index(op.out_shape_tiled@, op.stride@, k) <= usize::MAX);
    vstd::arithmetic::div_mod::lemma_mod_bound(
        view_index(op.out_shape_tiled@, op.stride@, k),
        product(op.tensor_shape_tiled@),
    );
    lemma_layout_walks_rows(op.layout(), t);
}

/// The tile that is sent on for a read holds the cells of the tensor that it
/// was asked for.
pub proof fn law_load_carries_data<T: Copy>(
    op: OffChipLoad<T>,
    requests: Vec<HbmAddrEnum<T>>,
    k: int,
    r: int,
    c: int,
)
    requires
        call_ensures(OffChipLoad::<T>::generate_addr, (&op,), requests),
        product(op.tensor_shape_tiled@) > 0,
        0 <= k < requests@.len(),
        op.underlying is Some,
        0 <= r < op.tile_row,
        0 <= c < op.tile_col,
    ensures
        requests@[k].tile().underlying is Some,
        requests@[k].tile().at(r, c) == op.underlying->0.data@[tile_cell(
            op.underlying->0.shape@,
            op.tile_row,
            op.tile_col,
            view_index(op.out_shape_tiled@, op.stride@, k) % product(op.tensor_shape_tiled@),
            r,
            c,
        )],
{
    assert(op.is_request(k, requests@[k]));
    let cell = requests@[k].tile().underlying->0.at(r, c);
}

/// A load moves as many elements as its tiles have together, one tile for each
/// step of its walk.
pub proof fn law_view_loads_all_tiles<T>(op: OffChipLoad<T>, per_tile: usize, all: usize)
    requires
        call_ensures(OffChipLoad::<T>::on_chip_req_elems, (&op,), per_tile),
        call_ensures(OffChipLoad::<T>::loaded_elems, (&op,), all),
    ensures
        per_tile == op.tile_row * op.tile_col,
        all == product(op.out_shape_tiled@) * per_tile,
{
    assert(product(op.out_shape_tiled@) * op.tile_row * op.tile_col == product(op.out_shape_tiled@) * (op.tile_row
        * op.tile_col)) by (nonlinear_arith);
}

} // verus!
