//! Writing a stream of tiles: the addresses to write, and the tensor that the
//! tiles make up.

use vstd::arithmetic::div_mod::{lemma_fundamental_div_mod, lemma_fundamental_div_mod_converse};
use vstd::prelude::*;

use crate::memory::requests::{lemma_layout_walks_rows, walks_rows, TileLayout};
use crate::primitives::array::{
    concatenate, is_above, is_beside, lemma_cell_before_row, representable, Array2,
};
use crate::primitives::elem::{Bufferizable, Elem};
use crate::primitives::tensor::{tile_cell, untiled, untiled_shape, Tensor};
use crate::primitives::tile::Tile;
use crate::utils::indexing::{count_positions, lemma_product_nonneg, product, product_fits};

verus! {

/// What is stored where. The tensor's shape is given in tiles; its data is
/// kept only where there is a path to save it to.
#[derive(Debug)]
pub struct StorePlan {
    pub tensor_shape_tiled: Vec<usize>,
    pub tile_row: usize,
    pub tile_col: usize,
    pub store_path: Option<String>,
    pub base_addr_byte: u64,
    pub addr_offset: u64,
    pub id: u32,
}

/// The tiles received so far: whole rows of tiles in `accum`, the row that is
/// being received in `horizontal_accum`.
#[derive(Debug)]
pub struct StoreState<T> {
    pub accum: Array2<T>,
    pub horizontal_accum: Array2<T>,
    pub tile_idx: usize,
    pub n_bytes: Option<usize>,
}

/// A tensor to save: its data in row-major order and its shape in elements.
#[derive(Debug, PartialEq, Eq)]
pub struct StoredTensor<T> {
    pub data: Vec<T>,
    pub shape: Vec<usize>,
}

/// The position in the stored data of cell `(r, c)` of tile `t`, with
/// `grid_cols` tiles beside each other.
pub open spec fn stored_cell(
    grid_cols: int,
    tile_row: int,
    tile_col: int,
    t: int,
    r: int,
    c: int,
) -> int {
    ((t / grid_cols) * tile_row + r) * (grid_cols * tile_col) + ((t % grid_cols) * tile_col + c)
}

impl StorePlan {
    /// Tiles beside each other in the tensor.
    pub open spec fn grid_cols(&self) -> usize {
        self.tensor_shape_tiled@.last()
    }

    /// Where the tiles of the stream lie.
    pub open spec fn layout<T>(&self, tile: Tile<T>) -> TileLayout {
        TileLayout {
            tile_row: self.tile_row,
            tile_col: self.tile_col,
            n_byte: tile.bytes_per_elem,
            tile_bytes: tile.bytes() as usize,
            grid_cols: self.grid_cols(),
            base_addr_byte: self.base_addr_byte,
            addr_offset: self.addr_offset,
        }
    }

    /// The collected data has the shape that the plan gives it.
    pub open spec fn state_ok<T>(&self, state: StoreState<T>) -> bool {
        &&& state.accum.wf()
        &&& state.accum.cols == self.grid_cols() * self.tile_col
        &&& state.horizontal_accum.wf()
        &&& state.horizontal_accum.rows == self.tile_row
    }

    /// The tile fits the plan and what has been received before.
    pub open spec fn accepts<T>(&self, state: StoreState<T>, elem: Elem<Tile<T>>) -> bool {
        let tile = elem.value();
        &&& self.tensor_shape_tiled@.len() > 0
        &&& tile.wf()
        &&& tile.shape == (self.tile_row, self.tile_col)
        &&& state.n_bytes matches Some(n) ==> n == tile.bytes_per_elem
        &&& tile.sized()
        &&& state.tile_idx < usize::MAX
        &&& self.layout(tile).fits(state.tile_idx as int)
        &&& self.store_path is Some ==> {
            &&& tile.underlying is Some
            &&& state.horizontal_accum.cols + self.tile_col <= usize::MAX
            &&& representable(
                self.tile_row as int,
                state.horizontal_accum.cols + self.tile_col,
            )
            &&& elem is ValStop ==> {
                &&& state.horizontal_accum.cols + self.tile_col == state.accum.cols
                &&& state.accum.rows + self.tile_row <= usize::MAX
                &&& representable(state.accum.rows + self.tile_row, state.accum.cols as int)
            }
        }
    }

    /// `after` is `before` with the data of a tile added: beside the row that
    /// is being received, which a stop completes.
    pub open spec fn collects<T>(
        &self,
        before: StoreState<T>,
        elem: Elem<Tile<T>>,
        after: StoreState<T>,
    ) -> bool {
        let tile = *elem.value().underlying->0;
        if self.store_path is None {
            &&& after.accum == before.accum
            &&& after.horizontal_accum == before.horizontal_accum
        } else if elem is Val {
            &&& after.accum == before.accum
            &&& is_beside(before.horizontal_accum, tile, after.horizontal_accum)
        } else {
            &&& exists|row: Array2<T>|
                #![trigger is_beside(before.horizontal_accum, tile, row)]
                is_beside(before.horizontal_accum, tile, row) && is_above(
                    before.accum,
                    row,
                    after.accum,
                )
            &&& after.horizontal_accum.rows == self.tile_row
            &&& after.horizontal_accum.cols == 0
        }
    }

    /// Nothing received yet.
    pub fn start<T>(&self) -> (res: StoreState<T>)
        requires
            self.tensor_shape_tiled@.len() > 0,
            self.grid_cols() * self.tile_col <= usize::MAX,
        ensures
            self.state_ok(res),
            res.accum.rows == 0,
            res.horizontal_accum.cols == 0,
            res.tile_idx == 0,
            res.n_bytes is None,
    {
        let grid_cols: usize = self.tensor_shape_tiled[self.tensor_shape_tiled.len() - 1];
        assert(self.tile_row * 0 == 0);
        StoreState {
            accum: Array2 { rows: 0, cols: grid_cols * self.tile_col, data: Vec::new() },
            horizontal_accum: Array2 { rows: self.tile_row, cols: 0, data: Vec::new() },
            tile_idx: 0,
            n_bytes: None,
        }
    }

    /// Takes one tile and returns the addresses to write. The stream goes on
    /// when each of them has been acknowledged.
    pub fn step<T: Copy>(&self, state: &mut StoreState<T>, elem: &Elem<Tile<T>>) -> (res: Vec<u64>)
        requires
            self.state_ok(*old(state)),
            self.accepts(*old(state), *elem),
        ensures
            res@ == self.layout(elem.value()).addrs(old(state).tile_idx as int),
            self.state_ok(*final(state)),
            self.collects(*old(state), *elem, *final(state)),
            final(state).tile_idx == old(state).tile_idx + 1,
            final(state).n_bytes == Some(elem.value().bytes_per_elem),
    {
        let (tile, closes_row) = match elem {
            Elem::Val(tile) => (tile, false),
            Elem::ValStop(tile, _) => (tile, true),
        };
        if self.store_path.is_some() {
            if let Some(array) = &tile.underlying {
                let row = concatenate(1, &state.horizontal_accum, array);
                if closes_row {
                    let ghost before = *state;
                    let accum = concatenate(0, &state.accum, &row);
                    state.accum = accum;
                    assert(is_beside(before.horizontal_accum, **array, row));
                    assert(self.tile_row * 0 == 0);
                    state.horizontal_accum =
                    Array2 { rows: self.tile_row, cols: 0, data: Vec::new() };
                } else {
                    state.horizontal_accum = row;
                }
            }
        }
        state.n_bytes = Some(tile.bytes_per_elem);
        let layout = TileLayout {
            tile_row: self.tile_row,
            tile_col: self.tile_col,
            n_byte: tile.bytes_per_elem,
            tile_bytes: tile.size_in_bytes(),
            grid_cols: self.tensor_shape_tiled[self.tensor_shape_tiled.len() - 1],
            base_addr_byte: self.base_addr_byte,
            addr_offset: self.addr_offset,
        };
        let addrs = layout.tile_addresses(state.tile_idx as u64);
        state.tile_idx = state.tile_idx + 1;
        addrs
    }

    /// The tensor to save at the end of the stream, where it is to be saved.
    pub fn finish<T>(&self, state: StoreState<T>) -> (res: Option<StoredTensor<T>>)
        requires
            self.state_ok(state),
            self.store_path is Some ==> {
                let n = self.tensor_shape_tiled@.len();
                &&& n >= 2
                &&& state.accum.data@.len() == product(self.tensor_shape_tiled@) * self.tile_row
                    * self.tile_col
                &&& self.tensor_shape_tiled@[n - 2] * self.tile_row <= usize::MAX
            },
        ensures
            res is Some <==> self.store_path is Some,
            res matches Some(tensor) ==> {
                &&& tensor.data@ == state.accum.data@
                &&& tensor.shape@ == untiled(self.tensor_shape_tiled@, self.tile_row, self.tile_col)
            },
    {
        if self.store_path.is_some() {
            let shape = untiled_shape(&self.tensor_shape_tiled, self.tile_row, self.tile_col);
            Some(StoredTensor { data: state.accum.data, shape })
        } else {
            None
        }
    }

    /// Elements that one tile writes.
    pub fn on_chip_req_elems(&self) -> (res: usize)
        requires
            self.tile_row * self.tile_col <= usize::MAX,
        ensures
            res == self.tile_row * self.tile_col,
    {
        self.tile_row * self.tile_col
    }

    /// Elements that the whole stream writes.
    pub fn stored_elems(&self) -> (res: usize)
        requires
            product_fits(self.tensor_shape_tiled@),
            product(self.tensor_shape_tiled@) * self.tile_row <= usize::MAX,
            product(self.tensor_shape_tiled@) * self.tile_row * self.tile_col <= usize::MAX,
        ensures
            res == product(self.tensor_shape_tiled@) * self.tile_row * self.tile_col,
    {
        let total_tiles: usize = count_positions(&self.tensor_shape_tiled);
        proof {
            lemma_product_nonneg(self.tensor_shape_tiled@);
            assert(total_tiles * self.tile_row >= 0) by (nonlinear_arith)
                requires
                    total_tiles >= 0,
                    self.tile_row >= 0,
            ;
        }
        total_tiles * self.tile_row * self.tile_col
    }

    /// The stream fills the tensor: one tile for each place, with a stop at
    /// the end of each row of tiles.
    pub open spec fn fills<T>(&self, input: Seq<Elem<Tile<T>>>) -> bool {
        let gc = self.grid_cols() as int;
        &&& self.tensor_shape_tiled@.len() >= 2
        &&& input.len() == product(self.tensor_shape_tiled@)
        &&& forall|i: int|
            0 <= i < input.len() ==> ((#[trigger] input[i]) is ValStop <==> (i + 1) % gc == 0)
    }

    /// Every tile fits the plan.
    pub open spec fn tiles_ok<T>(&self, input: Seq<Elem<Tile<T>>>) -> bool {
        forall|i: int|
            0 <= i < input.len() ==> {
                let tile = (#[trigger] input[i]).value();
                &&& tile.wf()
                &&& tile.shape == (self.tile_row, self.tile_col)
                &&& tile.bytes_per_elem == input[0].value().bytes_per_elem
                &&& tile.sized()
                &&& self.layout(tile).fits(i)
                &&& self.store_path is Some ==> tile.underlying is Some
            }
    }

    /// The cells of the tiles are where the tensor has them.
    pub open spec fn holds_tiles<T>(&self, input: Seq<Elem<Tile<T>>>, data: Seq<T>) -> bool {
        forall|t: int, r: int, c: int|
            0 <= t < input.len() && 0 <= r < self.tile_row && 0 <= c < self.tile_col
                ==> #[trigger] input[t].value().at(r, c) == data[stored_cell(
                self.grid_cols() as int,
                self.tile_row as int,
                self.tile_col as int,
                t,
                r,
                c,
            )]
    }

    /// What has been collected after `n` tiles of a stream that fills the
    /// tensor.
    pub open spec fn collected<T>(
        &self,
        input: Seq<Elem<Tile<T>>>,
        n: int,
        state: StoreState<T>,
    ) -> bool {
        let gc = self.grid_cols() as int;
        let tr = self.tile_row as int;
        let tc = self.tile_col as int;
        &&& state.accum.rows == (n / gc) * tr
        &&& state.horizontal_accum.cols == (n % gc) * tc
        &&& forall|t: int, r: int, c: int|
            0 <= t < (n / gc) * gc && 0 <= r < tr && 0 <= c < tc ==> #[trigger] input[t].value().at(
                r,
                c,
            ) == state.accum.at((t / gc) * tr + r, (t % gc) * tc + c)
        &&& forall|t: int, r: int, c: int|
            (n / gc) * gc <= t < n && 0 <= r < tr && 0 <= c < tc ==> #[trigger] input[t].value().at(
                r,
                c,
            ) == state.horizontal_accum.at(r, (t % gc) * tc + c)
    }

    /// Takes a whole stream: the addresses to write for each tile, and the
    /// tensor to save.
    pub fn run<T: Copy>(&self, input: &Vec<Elem<Tile<T>>>) -> (res: (
        Vec<Vec<u64>>,
        Option<StoredTensor<T>>,
    ))
        requires
            self.tensor_shape_tiled@.len() > 0,
            self.grid_cols() * self.tile_col <= usize::MAX,
            self.tiles_ok(input@),
            self.store_path is Some ==> {
                let n = self.tensor_shape_tiled@.len();
                &&& self.fills(input@)
                &&& self.tensor_shape_tiled@[n - 2] * self.tile_row <= usize::MAX
                &&& (input@.len() as int / self.grid_cols() as int) * self.tile_row <= usize::MAX
                &&& representable(
                    (input@.len() as int / self.grid_cols() as int) * self.tile_row,
                    self.grid_cols() * self.tile_col,
                )
            },
        ensures
            res.0@.len() == input@.len(),
            forall|i: int|
                0 <= i < input@.len() ==> (#[trigger] res.0@[i])@ == self.layout(
                    input@[i].value(),
                ).addrs(i),
            res.1 is Some <==> self.store_path is Some,
            res.1 matches Some(tensor) ==> {
                &&& tensor.shape@ == untiled(self.tensor_shape_tiled@, self.tile_row, self.tile_col)
                &&& tensor.data@.len() == product(self.tensor_shape_tiled@) * self.tile_row
                    * self.tile_col
                &&& self.holds_tiles(input@, tensor.data@)
            },
    {
        let mut state: StoreState<T> = self.start();
        let ghost gc = self.grid_cols() as int;
        let ghost tr = self.tile_row as int;
        let ghost tc = self.tile_col as int;
        let mut requests: Vec<Vec<u64>> = Vec::new();
        let mut i: usize = 0;
        proof {
            lemma_product_nonneg(self.tensor_shape_tiled@);
            if self.store_path is Some && input@.len() > 0 {
                assert(self.tensor_shape_tiled@[self.tensor_shape_tiled@.len() - 1] > 0);
                lemma_fundamental_div_mod_converse(0, gc, 0, 0);
            }
        }
        while i < input.len()
            invariant
                gc == self.grid_cols(),
                tr == self.tile_row,
                tc == self.tile_col,
                i <= input@.len(),
                self.tensor_shape_tiled@.len() > 0,
                self.tiles_ok(input@),
                self.store_path is Some ==> self.fills(input@),
                i == 0 ==> state.accum.rows == 0,
                self.store_path is Some && input@.len() > 0 ==> {
                    &&& gc > 0
                    &&& (input@.len() as int / gc) * tr <= usize::MAX
                    &&& representable((input@.len() as int / gc) * tr, gc * tc)
                    &&& self.collected(input@, i as int, state)
                },
                self.state_ok(state),
                state.tile_idx == i,
                i > 0 ==> state.n_bytes == Some(input@[0].value().bytes_per_elem),
                i == 0 ==> state.n_bytes is None,
                requests@.len() == i,
                forall|k: int|
                    0 <= k < i ==> (#[trigger] requests@[k])@ == self.layout(
                        input@[k].value(),
                    ).addrs(k),
            decreases input@.len() - i,
        {
            let ghost before = state;
            proof {
                assert(self.layout(input@[i as int].value()).fits(i as int));
                if self.store_path is Some {
                    self.lemma_accepts(input@, i as int, state);
                }
            }
            let len: usize = input.len();
            requests.push(self.step(&mut state, &input[i]));
            proof {
                if self.store_path is Some {
                    self.lemma_collects(input@, i as int, before, state);
                }
            }
            i = i + 1;
        }
        proof {
            if self.store_path is Some {
                self.lemma_complete(input@, state);
            }
        }
        let stored = self.finish(state);
        (requests, stored)
    }

    /// The next tile of a stream that fills the tensor is accepted.
    proof fn lemma_accepts<T>(&self, input: Seq<Elem<Tile<T>>>, i: int, state: StoreState<T>)
        requires
            self.store_path is Some,
            self.fills(input),
            self.tiles_ok(input),
            0 <= i < input.len(),
            input.len() <= usize::MAX,
            self.grid_cols() > 0,
            (input.len() as int / self.grid_cols() as int) * self.tile_row <= usize::MAX,
            representable(
                (input.len() as int / self.grid_cols() as int) * self.tile_row,
                self.grid_cols() * self.tile_col,
            ),
            self.state_ok(state),
            self.collected(input, i, state),
            state.tile_idx == i,
            i > 0 ==> state.n_bytes == Some(input[0].value().bytes_per_elem),
            i == 0 ==> state.n_bytes is None,
        ensures
            self.accepts(state, input[i]),
    {
        let gc = self.grid_cols() as int;
        let tr = self.tile_row as int;
        let tc = self.tile_col as int;
        let total = input.len() as int / gc;
        let g = i / gc;
        let h = i % gc;
        self.lemma_whole_rows(input);
        lemma_fundamental_div_mod(i, gc);
        lemma_fundamental_div_mod(input.len() as int, gc);
        assert(0 <= g < total && i == g * gc + h) by (nonlinear_arith)
            requires
                i == gc * g + h,
                0 <= h < gc,
                0 <= i < gc * total,
        ;
        assert(h * tc + tc == (h + 1) * tc && (h + 1) * tc <= gc * tc && g * tr + tr == (g + 1)
            * tr && (g + 1) * tr <= total * tr && 0 <= h * tc && 0 <= g * tr && tr <= total * tr)
            by (nonlinear_arith)
            requires
                0 <= h < gc,
                0 <= g < total,
                0 <= tc,
                0 <= tr,
        ;
        let rows = if total * tr == 0 {
            1
        } else {
            total * tr
        };
        let cols = if gc * tc == 0 {
            1
        } else {
            gc * tc
        };
        assert(rows * cols <= isize::MAX);
        let r1 = if tr == 0 {
            1
        } else {
            tr
        };
        let c1 = if h * tc + tc == 0 {
            1
        } else {
            h * tc + tc
        };
        assert(r1 <= rows && c1 <= cols);
        assert(r1 * c1 <= rows * cols) by (nonlinear_arith)
            requires
                1 <= r1 <= rows,
                1 <= c1 <= cols,
        ;
        let r2 = if g * tr + tr == 0 {
            1
        } else {
            g * tr + tr
        };
        assert(r2 * cols <= rows * cols) by (nonlinear_arith)
            requires
                1 <= r2 <= rows,
                1 <= cols,
        ;
        if input[i] is ValStop {
            lemma_fundamental_div_mod(i + 1, gc);
            if h + 1 < gc {
                lemma_fundamental_div_mod_converse(i + 1, gc, g, h + 1);
                assert(false);
            }
            assert(h + 1 == gc);
        }
        assert(input[i].value().shape == (self.tile_row, self.tile_col));
        assert(self.layout(input[i].value()).fits(i));
    }

    /// Whole rows of tiles fill the tensor.
    proof fn lemma_whole_rows<T>(&self, input: Seq<Elem<Tile<T>>>)
        requires
            self.fills(input),
            self.grid_cols() > 0,
        ensures
            input.len() % self.grid_cols() as nat == 0,
    {
        let gc = self.grid_cols() as int;
        let lead = product(self.tensor_shape_tiled@.drop_last());
        assert(input.len() == lead * gc);
        lemma_product_nonneg(self.tensor_shape_tiled@.drop_last());
        lemma_fundamental_div_mod_converse(input.len() as int, gc, lead, 0);
    }

    /// Collecting one more tile.
    proof fn lemma_collects<T>(
        &self,
        input: Seq<Elem<Tile<T>>>,
        i: int,
        before: StoreState<T>,
        after: StoreState<T>,
    )
        requires
            self.store_path is Some,
            self.fills(input),
            self.tiles_ok(input),
            0 <= i < input.len(),
            self.grid_cols() > 0,
            self.state_ok(before),
            self.state_ok(after),
            self.collected(input, i, before),
            self.collects(before, input[i], after),
        ensures
            self.collected(input, i + 1, after),
    {
        let gc = self.grid_cols() as int;
        let tr = self.tile_row as int;
        let tc = self.tile_col as int;
        let g = i / gc;
        let h = i % gc;
        lemma_fundamental_div_mod(i, gc);
        assert(i == g * gc + h && 0 <= g && 0 <= g * gc) by (nonlinear_arith)
            requires
                i == gc * g + h,
                0 <= h < gc,
                0 <= i,
                gc > 0,
        ;
        let tile = *input[i].value().underlying->0;
        assert(input[i].value().wf());
        if h + 1 < gc {
            lemma_fundamental_div_mod_converse(i + 1, gc, g, h + 1);
            assert(input[i] is Val);
            assert((h + 1) * tc == h * tc + tc) by (nonlinear_arith);
            assert forall|t: int, r: int, c: int|
                g * gc <= t < i + 1 && 0 <= r < tr && 0 <= c < tc implies #[trigger] input[t].value().at(
                r,
                c,
            ) == after.horizontal_accum.at(r, (t % gc) * tc + c) by {
                let j = t - g * gc;
                lemma_fundamental_div_mod_converse(t, gc, g, j);
                assert(0 <= j * tc && j * tc + tc <= h * tc + tc && (j < h ==> j * tc + tc <= h
                    * tc)) by (nonlinear_arith)
                    requires
                        0 <= j <= h,
                        0 <= tc,
                ;
            }
        } else {
            assert(i + 1 == (g + 1) * gc + 0) by (nonlinear_arith)
                requires
                    i == g * gc + h,
                    h + 1 == gc,
            ;
            lemma_fundamental_div_mod_converse(i + 1, gc, g + 1, 0);
            assert(input[i] is ValStop);
            let row = choose|row: Array2<T>|
                #![trigger is_beside(before.horizontal_accum, tile, row)]
                is_beside(before.horizontal_accum, tile, row) && is_above(
                    before.accum,
                    row,
                    after.accum,
                );
            assert((g + 1) * tr == g * tr + tr && 0 <= g * tr) by (nonlinear_arith)
                requires
                    0 <= g,
                    0 <= tr,
            ;
            assert forall|t: int, r: int, c: int|
                0 <= t < (g + 1) * gc && 0 <= r < tr && 0 <= c < tc implies #[trigger] input[t].value().at(
                r,
                c,
            ) == after.accum.at((t / gc) * tr + r, (t % gc) * tc + c) by {
                lemma_fundamental_div_mod(t, gc);
                let q = t / gc;
                let j = t % gc;
                assert(0 <= q <= g && (t < g * gc ==> q < g) && (t >= g * gc ==> q == g))
                    by (nonlinear_arith)
                    requires
                        t == gc * q + j,
                        0 <= j < gc,
                        0 <= t < (g + 1) * gc,
                ;
                assert(0 <= j * tc && j * tc + tc <= gc * tc && (j < h ==> j * tc + tc <= h * tc)
                    && (j == h ==> j * tc == h * tc)) by (nonlinear_arith)
                    requires
                        0 <= j <= h,
                        h + 1 == gc,
                        0 <= tc,
                ;
                if q < g {
                    lemma_cell_before_row(q, r, g, tr);
                    assert(t < g * gc) by (nonlinear_arith)
                        requires
                            t == gc * q + j,
                            j < gc,
                            q < g,
                            gc > 0,
                    ;
                } else {
                    assert(after.accum.at(q * tr + r, j * tc + c) == row.at(r, j * tc + c));
                }
            }
        }
    }

    /// A stream that fills the tensor is collected completely.
    proof fn lemma_complete<T>(&self, input: Seq<Elem<Tile<T>>>, state: StoreState<T>)
        requires
            self.store_path is Some,
            self.fills(input),
            self.state_ok(state),
            input.len() > 0 ==> self.grid_cols() > 0 && self.collected(
                input,
                input.len() as int,
                state,
            ),
            input.len() == 0 ==> state.accum.rows == 0,
        ensures
            state.accum.data@.len() == product(self.tensor_shape_tiled@) * self.tile_row
                * self.tile_col,
            self.holds_tiles(input, state.accum.data@),
    {
        let gc = self.grid_cols() as int;
        let tr = self.tile_row as int;
        let tc = self.tile_col as int;
        let n = input.len() as int;
        let rows = state.accum.rows as int;
        if n > 0 {
            self.lemma_whole_rows(input);
            lemma_fundamental_div_mod(n, gc);
            let g = n / gc;
            assert(rows * (gc * tc) == n * tr * tc) by (nonlinear_arith)
                requires
                    rows == g * tr,
                    n == gc * g,
            ;
            assert((n / gc) * gc == n) by (nonlinear_arith)
                requires
                    n == gc * (n / gc),
            ;
        } else {
            assert(rows * (gc * tc) == 0 && n * tr * tc == 0) by (nonlinear_arith)
                requires
                    rows == 0,
                    n == 0,
            ;
        }
    }
}

/// Dividing a stored tensor into tiles gives back the tiles of the stream.
pub proof fn law_load_reads_what_store_wrote<T>(
    plan: StorePlan,
    input: Seq<Elem<Tile<T>>>,
    tensor: Tensor<T>,
    t: int,
)
    requires
        plan.tile_row > 0,
        plan.tile_col > 0,
        plan.fills(input),
        plan.tiles_ok(input),
        plan.tensor_shape_tiled@[plan.tensor_shape_tiled@.len() - 2] * plan.tile_row
            <= usize::MAX,
        plan.grid_cols() * plan.tile_col <= usize::MAX,
        tensor.shape@ == untiled(plan.tensor_shape_tiled@, plan.tile_row, plan.tile_col),
        plan.holds_tiles(input, tensor.data@),
        0 <= t < input.len(),
        input[t].value().underlying is Some,
    ensures
        tensor.is_tile(plan.tile_row, plan.tile_col, t, *input[t].value().underlying->0),
{
    let shape = plan.tensor_shape_tiled@;
    let n = shape.len();
    let gr = shape[n - 2] as int;
    let gc = shape[n - 1] as int;
    let tr = plan.tile_row as int;
    let tc = plan.tile_col as int;
    lemma_product_nonneg(shape);
    assert(shape[n - 1] > 0 && shape[n - 2] > 0);
    let array = *input[t].value().underlying->0;
    assert(input[t].value().wf() && input[t].value().shape == (plan.tile_row, plan.tile_col));
    vstd::arithmetic::div_mod::lemma_div_multiples_vanish(gr, tr);
    vstd::arithmetic::div_mod::lemma_div_multiples_vanish(gc, tc);
    assert(gr * tr == tr * gr && gc * tc == tc * gc) by (nonlinear_arith);
    let row = t / gc;
    let slab = row / gr;
    let i = row % gr;
    lemma_fundamental_div_mod(row, gr);
    assert(slab * (gr * tr) + i * tr == row * tr) by (nonlinear_arith)
        requires
            row == gr * slab + i,
    ;
    assert forall|r: int, c: int| 0 <= r < tr && 0 <= c < tc implies #[trigger] array.at(r, c)
        == tensor.data@[tile_cell(tensor.shape@, plan.tile_row, plan.tile_col, t, r, c)] by {
        assert(input[t].value().at(r, c) == array.at(r, c));
        assert(tile_cell(tensor.shape@, plan.tile_row, plan.tile_col, t, r, c) == stored_cell(
            gc,
            tr,
            tc,
            t,
            r,
            c,
        ));
    }
}

/// A tile that is stored is asked for from end to end, behind the tiles stored
/// before it, each of which takes as many bytes as it has.
pub proof fn law_store_asks_for_tile<T: Copy>(plan: StorePlan, elem: Elem<Tile<T>>)
    requires
        plan.tile_row > 0,
    ensures
        forall|state: &mut StoreState<T>, addrs: Vec<u64>|
            plan.accepts(*state, elem) && #[trigger] call_ensures(
                StorePlan::step::<T>,
                (&plan, state, &elem),
                addrs,
            ) ==> {
                let bytes = elem.value().bytes_per_elem;
                &&& exists|n: int| #[trigger]
                    walks_rows(
                        addrs@,
                        plan.base_addr_byte + state.tile_idx * (bytes * (plan.tile_row
                            * plan.tile_col)),
                        plan.tile_row as int,
                        plan.tile_col * bytes,
                        plan.tensor_shape_tiled@.last() * plan.tile_col * bytes,
                        plan.addr_offset as int,
                        n,
                    )
                &&& final(state).tile_idx == state.tile_idx + 1
            },
{
    assert forall|state: &mut StoreState<T>, addrs: Vec<u64>|
        plan.accepts(*state, elem) && #[trigger] call_ensures(
            StorePlan::step::<T>,
            (&plan, state, &elem),
            addrs,
        ) implies exists|n: int| #[trigger]
        walks_rows(
            addrs@,
            plan.base_addr_byte + state.tile_idx * (elem.value().bytes_per_elem * (plan.tile_row
                * plan.tile_col)),
            plan.tile_row as int,
            plan.tile_col * elem.value().bytes_per_elem,
            plan.tensor_shape_tiled@.last() * plan.tile_col * elem.value().bytes_per_elem,
            plan.addr_offset as int,
            n,
        ) by {
        let layout = plan.layout(elem.value());
        let tile = elem.value();
        assert(tile.bytes() >= 0) by (nonlinear_arith)
            requires
                tile.bytes() == tile.bytes_per_elem * (tile.shape.0 * tile.shape.1),
                tile.bytes_per_elem >= 0,
                tile.shape.0 >= 0,
                tile.shape.1 >= 0,
        ;
        lemma_layout_walks_rows(layout, state.tile_idx as int);
    }
}

/// What has been stored: the tile in row `i` and column `j` of the grid lies,
/// cell by cell, `i` tiles below and `j` tiles beside the start of the tensor,
/// which has whole rows of tiles beside each other.
pub proof fn law_stored_tiles_lie_in_grid<T: Copy>(
    plan: StorePlan,
    input: Vec<Elem<Tile<T>>>,
    requests: Vec<Vec<u64>>,
    stored: StoredTensor<T>,
    i: int,
    j: int,
    r: int,
    c: int,
)
    requires
        call_ensures(StorePlan::run::<T>, (&plan, &input), (requests, Some(stored))),
        plan.tensor_shape_tiled@.len() > 0,
        0 <= i,
        0 <= j < plan.tensor_shape_tiled@.last(),
        i * plan.tensor_shape_tiled@.last() + j < input@.len(),
        0 <= r < plan.tile_row,
        0 <= c < plan.tile_col,
    ensures
        ({
            let grid = plan.tensor_shape_tiled@.last();
            let row = i * plan.tile_row + r;
            let col = j * plan.tile_col + c;
            &&& requests@.len() == input@.len()
            &&& stored.data@[row * (grid * plan.tile_col) + col] == input@[i * grid
                + j].value().at(r, c)
        }),
{
    let grid = plan.tensor_shape_tiled@.last() as int;
    let t = i * grid + j;
    assert(t >= 0) by (nonlinear_arith)
        requires
            t == i * grid + j,
            i >= 0,
            grid >= 0,
            j >= 0,
    ;
    lemma_fundamental_div_mod_converse(t, grid, i, j);
    let cell = input@[t].value().at(r, c);
}

/// A store moves as many elements as its tiles have together.
pub proof fn law_store_counts_tiles(plan: StorePlan, per_tile: usize, all: usize)
    requires
        call_ensures(StorePlan::on_chip_req_elems, (&plan,), per_tile),
        call_ensures(StorePlan::stored_elems, (&plan,), all),
    ensures
        per_tile == plan.tile_row * plan.tile_col,
        all == product(plan.tensor_shape_tiled@) * per_tile,
{
    assert(product(plan.tensor_shape_tiled@) * plan.tile_row * plan.tile_col == product(
        plan.tensor_shape_tiled@,
    ) * (plan.tile_row * plan.tile_col)) by (nonlinear_arith);
}

} // verus!
