//! Loading a whole tiled tensor whose shape is only known at run time.

use vstd::prelude::*;

use crate::memory::offchip_load::OffChipLoad;
use crate::memory::requests::{lemma_layout_walks_rows, walks_rows, TileLayout};
use crate::memory::shape_text::{json_numbers, read_shape, shape_from, ShapeError};
use crate::memory::{is_loaded_tile, loaded_tiles, HbmAddrEnum};
use crate::primitives::tensor::{fills_shape, shape_in_tiles, tile_cell, tiled_shape, Tensor};
use crate::primitives::tile::Tile;
use crate::utils::indexing::{
    count_positions, law_row_major_stride, lemma_product_nonneg, positive, product, product_fits,
    row_major_stride, stop_level, stop_level_at,
};

verus! {

/// Reads all tiles of a tensor, row by row.
#[derive(Debug)]
pub struct DynLinearOffChipLoad<T> {
    pub tensor_shape_tiled: Vec<usize>,
    pub underlying: Option<Tensor<T>>,
    pub tile_row: usize,
    pub tile_col: usize,
    pub n_byte: usize,
    pub base_addr_byte: u64,
    pub addr_offset: u64,
    pub par_dispatch: usize,
    pub id: u32,
}

impl<T> DynLinearOffChipLoad<T> {
    /// Whole tiles are read, and the data, where there is any, has the
    /// tensor's shape.
    pub open spec fn wf(&self) -> bool {
        &&& self.tile_row > 0
        &&& self.tile_col > 0
        &&& self.tensor_shape_tiled@.len() >= 2
        &&& self.underlying matches Some(tensor) ==> {
            &&& tensor.wf()
            &&& tensor.shape@.len() >= 2
            &&& self.tensor_shape_tiled@ == tiled_shape(
                tensor.shape@,
                self.tile_row,
                self.tile_col,
            )
        }
    }

    /// Where the tiles lie.
    pub open spec fn layout(&self) -> TileLayout {
        TileLayout {
            tile_row: self.tile_row,
            tile_col: self.tile_col,
            n_byte: self.n_byte,
            tile_bytes: (self.tile_row * self.tile_col * self.n_byte) as usize,
            grid_cols: self.tensor_shape_tiled@.last(),
            base_addr_byte: self.base_addr_byte,
            addr_offset: self.addr_offset,
        }
    }

    /// A tile has anything to read.
    pub open spec fn nonempty(&self) -> bool {
        self.tile_col * self.n_byte > 0
    }

    /// Nothing that the walk computes is out of range.
    pub open spec fn walkable(&self) -> bool {
        &&& self.tensor_shape_tiled@.len() <= u32::MAX
        &&& product_fits(self.tensor_shape_tiled@)
        &&& product(self.tensor_shape_tiled@) > 0 ==> self.tile_row * self.tile_col <= usize::MAX
            && self.tile_row * self.tile_col * self.n_byte <= usize::MAX
        &&& forall|k: int|
            0 <= k < product(self.tensor_shape_tiled@) ==> #[trigger] self.layout().fits(k)
    }

    /// `request` is what is asked for at the `k`-th step.
    pub open spec fn is_request(&self, k: int, request: HbmAddrEnum<T>) -> bool {
        &&& request.addrs() == self.layout().addrs(k)
        &&& request.closes(stop_level(self.tensor_shape_tiled@, k))
        &&& is_loaded_tile(
            self.underlying,
            self.tile_row,
            self.tile_col,
            self.n_byte,
            k,
            request.tile(),
        )
    }

    /// A load of a tensor of shape `untiled_shape`, given in elements.
    pub fn new(
        untiled_shape: &Vec<usize>,
        underlying: Option<Tensor<T>>,
        tile_row: usize,
        tile_col: usize,
        n_byte: usize,
        base_addr_byte: u64,
        addr_offset: u64,
        par_dispatch: usize,
        id: u32,
    ) -> (res: Self)
        requires
            untiled_shape@.len() >= 2,
            tile_row > 0,
            tile_col > 0,
            underlying matches Some(tensor) ==> tensor.wf() && tensor.shape@ == untiled_shape@,
        ensures
            res.wf(),
            res.tensor_shape_tiled@ == tiled_shape(untiled_shape@, tile_row, tile_col),
            res.underlying == underlying,
            res.tile_row == tile_row,
            res.tile_col == tile_col,
            res.n_byte == n_byte,
            res.base_addr_byte == base_addr_byte,
            res.addr_offset == addr_offset,
            res.par_dispatch == par_dispatch,
            res.id == id,
    {
        let tensor_shape_tiled = shape_in_tiles(untiled_shape, tile_row, tile_col);
        DynLinearOffChipLoad {
            tensor_shape_tiled,
            underlying,
            tile_row,
            tile_col,
            n_byte,
            base_addr_byte,
            addr_offset,
            par_dispatch,
            id,
        }
    }

    /// A load of a tensor whose shape in elements is given by a text, with its
    /// data in row-major order where there is any.
    pub fn from_shape_text(
        text: &str,
        data: Option<Vec<T>>,
        tile_row: usize,
        tile_col: usize,
        n_byte: usize,
        base_addr_byte: u64,
        addr_offset: u64,
        par_dispatch: usize,
        id: u32,
    ) -> (res: Result<Self, ShapeError>)
        ensures
            match shape_from(json_numbers(text@), tile_row, tile_col) {
                Err(error) => res == Err::<Self, ShapeError>(error),
                Ok(shape) => if data is Some && !fills_shape(data->0@, shape) {
                    res == Err::<Self, ShapeError>(ShapeError::Data)
                } else {
                    &&& res is Ok
                    &&& res->Ok_0.wf()
                    &&& res->Ok_0.tensor_shape_tiled@ == tiled_shape(shape, tile_row, tile_col)
                    &&& res->Ok_0.underlying is Some <==> data is Some
                    &&& data is Some ==> {
                        &&& res->Ok_0.underlying->0.shape@ == shape
                        &&& res->Ok_0.underlying->0.data@ == data->0@
                    }
                    &&& res->Ok_0.tile_row == tile_row
                    &&& res->Ok_0.tile_col == tile_col
                    &&& res->Ok_0.n_byte == n_byte
                    &&& res->Ok_0.base_addr_byte == base_addr_byte
                    &&& res->Ok_0.addr_offset == addr_offset
                    &&& res->Ok_0.par_dispatch == par_dispatch
                    &&& res->Ok_0.id == id
                },
            },
    {
        let shape = match read_shape(text, tile_row, tile_col) {
            Ok(shape) => shape,
            Err(error) => return Err(error),
        };
        let underlying = match data {
            Some(data) => {
                let own = shape.clone();
                assert(own@ =~= shape@);
                match Tensor::from_shape_vec(own, data) {
                    Some(tensor) => Some(tensor),
                    None => return Err(ShapeError::Data),
                }
            },
            None => None,
        };
        Ok(
            DynLinearOffChipLoad::new(
                &shape,
                underlying,
                tile_row,
                tile_col,
                n_byte,
                base_addr_byte,
                addr_offset,
                par_dispatch,
                id,
            ),
        )
    }

    /// Elements that one tile asks for.
    pub fn on_chip_req_elems(&self) -> (res: usize)
        requires
            self.tile_row * self.tile_col <= usize::MAX,
        ensures
            res == self.tile_row * self.tile_col,
    {
        self.tile_row * self.tile_col
    }

    /// Elements that the whole load reads.
    pub fn loaded_elems(&self) -> (res: usize)
        requires
            product_fits(self.tensor_shape_tiled@),
            product(self.tensor_shape_tiled@) * self.tile_row <= usize::MAX,
            product(self.tensor_shape_tiled@) * self.tile_row * self.tile_col <= usize::MAX,
        ensures
            res == product(self.tensor_shape_tiled@) * self.tile_row * self.tile_col,
    {
        let total_tiles: usize = count_positions(&self.tensor_shape_tiled);
        proof {
            lemma_product_nonneg(self.tensor_shape_tiled@);
            assert(total_tiles * self.tile_row >= 0) by (nonlinear_arith)
                requires
                    total_tiles >= 0,
                    self.tile_row >= 0,
            ;
        }
        total_tiles * self.tile_row * self.tile_col
    }
}

impl<T: Copy> DynLinearOffChipLoad<T> {
    /// The requests for all tiles, row by row.
    pub fn generate_addr(&self) -> (res: Vec<HbmAddrEnum<T>>)
        requires
            self.wf(),
            self.walkable(),
        ensures
            res@.len() == (if self.nonempty() {
                product(self.tensor_shape_tiled@)
            } else {
                0
            }),
            forall|k: int| 0 <= k < res@.len() ==> self.is_request(k, #[trigger] res@[k]),
    {
        let tiles: Option<Vec<Tile<T>>> = match &self.underlying {
            Some(tensor) => Some(loaded_tiles(tensor, self.tile_row, self.tile_col, self.n_byte)),
            None => None,
        };
        let total: usize = count_positions(&self.tensor_shape_tiled);
        let mut requests: Vec<HbmAddrEnum<T>> = Vec::new();
        if total == 0 {
            return requests;
        }
        proof {
            lemma_product_nonneg(self.tensor_shape_tiled@);
        }
        let layout = TileLayout {
            tile_row: self.tile_row,
            tile_col: self.tile_col,
            n_byte: self.n_byte,
            tile_bytes: self.tile_row * self.tile_col * self.n_byte,
            grid_cols: self.tensor_shape_tiled[self.tensor_shape_tiled.len() - 1],
            base_addr_byte: self.base_addr_byte,
            addr_offset: self.addr_offset,
        };
        proof {
            assert(self.layout().fits(0));
            layout.lemma_count();
        }
        let mut flat: usize = 0;
        while flat < total
            invariant
                self.wf(),
                self.walkable(),
                positive(self.tensor_shape_tiled@),
                flat <= total,
                total == product(self.tensor_shape_tiled@),
                layout == self.layout(),
                self.nonempty() <==> layout.count() > 0,
                tiles is Some <==> self.underlying is Some,
                tiles matches Some(all) ==> {
                    &&& all@.len() == total
                    &&& forall|t: int|
                        0 <= t < all@.len() ==> is_loaded_tile(
                            self.underlying,
                            self.tile_row,
                            self.tile_col,
                            self.n_byte,
                            t,
                            #[trigger] all@[t],
                        )
                },
                requests@.len() == (if self.nonempty() {
                    flat as int
                } else {
                    0
                }),
                forall|k: int|
                    0 <= k < requests@.len() ==> self.is_request(k, #[trigger] requests@[k]),
            decreases total - flat,
        {
            assert(self.layout().fits(flat as int));
            let stop: u32 = stop_level_at(&self.tensor_shape_tiled, flat);
            let addrs = layout.tile_addresses(flat as u64);
            if addrs.len() > 0 {
                let tile = match &tiles {
                    Some(all) => all[flat].clone(),
                    None => Tile::new_blank((self.tile_row, self.tile_col), self.n_byte, true),
                };
                requests.push(HbmAddrEnum::new(addrs, tile, stop));
            }
            flat = flat + 1;
        }
        requests
    }
}

/// A load of a whole tensor asks for the same as a strided load of the view
/// that visits the tensor row by row.
pub proof fn law_linear_is_identity_view<T>(
    linear: DynLinearOffChipLoad<T>,
    strided: OffChipLoad<T>,
    k: int,
    request: HbmAddrEnum<T>,
)
    requires
        strided.tensor_shape_tiled@ == linear.tensor_shape_tiled@,
        strided.out_shape_tiled@ == linear.tensor_shape_tiled@,
        strided.underlying == linear.underlying,
        strided.tile_row == linear.tile_row,
        strided.tile_col == linear.tile_col,
        strided.n_byte == linear.n_byte,
        strided.base_addr_byte == linear.base_addr_byte,
        strided.addr_offset == linear.addr_offset,
        strided.stride@.len() == linear.tensor_shape_tiled@.len(),
        forall|d: int|
            0 <= d < strided.stride@.len() ==> #[trigger] strided.stride@[d] == row_major_stride(
                linear.tensor_shape_tiled@,
                d,
            ),
        0 <= k < product(linear.tensor_shape_tiled@),
    ensures
        linear.is_request(k, request) <==> strided.is_request(k, request),
{
    law_row_major_stride(linear.tensor_shape_tiled@, strided.stride@, k);
    vstd::arithmetic::div_mod::lemma_small_mod(
        k as nat,
        product(linear.tensor_shape_tiled@) as nat,
    );
}

/// A linear load asks for the tiles of the tensor one after the other, each
/// from end to end, and closes the dimensions of the tensor as they end.
pub proof fn law_linear_load_asks_for_all<T: Copy>(
    op: DynLinearOffChipLoad<T>,
    requests: Vec<HbmAddrEnum<T>>,
    k: int,
)
    requires
        op.wf(),
        op.walkable(),
        call_ensures(DynLinearOffChipLoad::<T>::generate_addr, (&op,), requests),
        op.tile_col * op.n_byte > 0,
        0 <= k < product(op.tensor_shape_tiled@),
    ensures
        requests@.len() == product(op.tensor_shape_tiled@),
        exists|n: int| #[trigger]
            walks_rows(
                requests@[k].addrs(),
                op.base_addr_byte + k * (op.tile_row * op.tile_col * op.n_byte),
                op.tile_row as int,
                op.tile_col * op.n_byte,
                op.tensor_shape_tiled@.last() * op.tile_col * op.n_byte,
                op.addr_offset as int,
                n,
            ),
        match requests@[k] {
            HbmAddrEnum::ADDR(_, _) => stop_level(op.tensor_shape_tiled@, k) == 0,
            HbmAddrEnum::ADDRSTOP(_, _, s) => s == stop_level(op.tensor_shape_tiled@, k) && s > 0,
        },
        requests@[k].tile().shape == (op.tile_row, op.tile_col),
        requests@[k].tile().bytes_per_elem == op.n_byte,
        requests@[k].tile().read_from_mu,
        requests@[k].tile().offset == op.tile_row,
        requests@[k].tile().underlying is Some <==> op.underlying is Some,
{
    assert(op.is_request(k, requests@[k]));
    assert(op.layout().fits(k));
    lemma_layout_walks_rows(op.layout(), k);
}

/// The tile that is sent on for a read holds the cells of the tensor that it
/// was asked for.
pub proof fn law_linear_load_carries_data<T: Copy>(
    op: DynLinearOffChipLoad<T>,
    requests: Vec<HbmAddrEnum<T>>,
    k: int,
    r: int,
    c: int,
)
    requires
        call_ensures(DynLinearOffChipLoad::<T>::generate_addr, (&op,), requests),
        0 <= k < requests@.len(),
        op.underlying is Some,
        0 <= r < op.tile_row,
        0 <= c < op.tile_col,
    ensures
        requests@[k].tile().underlying is Some,
        requests@[k].tile().at(r, c) == op.underlying->0.data@[tile_cell(
            op.underlying->0.shape@,
            op.tile_row,
            op.tile_col,
            k,
            r,
            c,
        )],
{
    assert(op.is_request(k, requests@[k]));
    let cell = requests@[k].tile().underlying->0.at(r, c);
}

/// A load moves as many elements as its tiles have together, one tile for each
/// step of its walk.
pub proof fn law_linear_load_counts_tiles<T>(op: DynLinearOffChipLoad<T>, per_tile: usize, all: usize)
    requires
        call_ensures(DynLinearOffChipLoad::<T>::on_chip_req_elems, (&op,), per_tile),
        call_ensures(DynLinearOffChipLoad::<T>::loaded_elems, (&op,), all),
    ensures
        per_tile == op.tile_row * op.tile_col,
        all == product(op.tensor_shape_tiled@) * per_tile,
{
    assert(product(op.tensor_shape_tiled@) * op.tile_row * op.tile_col == product(op.tensor_shape_tiled@) * (op.tile_row
        * op.tile_col)) by (nonlinear_arith);
}

} // verus!
