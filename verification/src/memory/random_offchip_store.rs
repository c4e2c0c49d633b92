//! Storing single tiles of a tensor by their index.

use vstd::arithmetic::div_mod::{lemma_fundamental_div_mod, lemma_fundamental_div_mod_converse};
use vstd::prelude::*;

use crate::memory::random_offchip_load::{carries_index, index_of};
use crate::memory::requests::{lemma_layout_walks_rows, walks_rows, TileLayout};
use crate::memory::store_plan::StoredTensor;
use crate::primitives::array::{lemma_cell_in_bounds, Array2};
use crate::primitives::elem::{with_value, Bufferizable, Elem};
use crate::primitives::tensor::{tile_cell, untiled, Tensor};
use crate::primitives::tile::Tile;
use crate::utils::indexing::product;

verus! {

/// Writes tiles to the places of a two-dimensional tensor that a stream of
/// tile indices names, and acknowledges each of them.
#[derive(Debug)]
pub struct RandomOffChipStore<T> {
    pub tensor_shape_tiled: Vec<usize>,
    pub npy_path: Option<String>,
    pub underlying: Option<Tensor<T>>,
    pub tile_row: usize,
    pub tile_col: usize,
    pub n_byte: usize,
    pub base_addr_byte: u64,
    pub addr_offset: u64,
    pub par_dispatch: usize,
    /// Whether the acknowledgements close what the indices close, and not what
    /// the tiles close.
    pub ack_based_on_waddr: bool,
    pub id: u32,
}

/// The position of an extent of one or `n` cells that stands for position `i`.
pub open spec fn stretched(extent: usize, i: int) -> int {
    if extent == 1 {
        0
    } else {
        i
    }
}

/// Cell `(i, j)` lies in tile `(tile_i, tile_j)` of a grid.
pub open spec fn in_tile(i: int, j: int, tile_i: int, tile_j: int, tr: int, tc: int) -> bool {
    &&& tile_i * tr <= i < tile_i * tr + tr
    &&& tile_j * tc <= j < tile_j * tc + tc
}

impl<T> RandomOffChipStore<T> {
    /// The tensor has two dimensions, and the data, where there is any, has
    /// its shape.
    pub open spec fn wf(&self) -> bool {
        &&& self.tensor_shape_tiled@.len() == 2
        &&& self.npy_path is Some <==> self.underlying is Some
        &&& self.underlying matches Some(tensor) ==> {
            &&& tensor.wf()
            &&& self.tensor_shape_tiled@[0] * self.tile_row <= usize::MAX
            &&& self.tensor_shape_tiled@[1] * self.tile_col <= usize::MAX
            &&& tensor.shape@ == untiled(self.tensor_shape_tiled@, self.tile_row, self.tile_col)
        }
    }

    /// Rows of the tensor.
    pub open spec fn rows(&self) -> int {
        self.tensor_shape_tiled@[0] * self.tile_row
    }

    /// Columns of the tensor.
    pub open spec fn cols(&self) -> int {
        self.tensor_shape_tiled@[1] * self.tile_col
    }

    /// Where a tile of the stream lies.
    pub open spec fn layout(&self, wdata: Tile<T>) -> TileLayout {
        TileLayout {
            tile_row: self.tile_row,
            tile_col: self.tile_col,
            n_byte: wdata.bytes_per_elem,
            tile_bytes: wdata.bytes() as usize,
            grid_cols: self.tensor_shape_tiled@[1],
            base_addr_byte: self.base_addr_byte,
            addr_offset: self.addr_offset,
        }
    }

    /// The tile can be written: it has data for a tensor with data, it names a
    /// place in the tensor, and it has that place's shape or is stretched to
    /// it.
    pub open spec fn writable(&self, waddr: int, wdata: Tile<T>) -> bool {
        self.underlying is Some ==> {
            &&& wdata.underlying is Some
            &&& self.tensor_shape_tiled@[1] > 0
            &&& waddr / (self.tensor_shape_tiled@[1] as int) < self.tensor_shape_tiled@[0]
            &&& wdata.shape.0 == self.tile_row || wdata.shape.0 == 1
            &&& wdata.shape.1 == self.tile_col || wdata.shape.1 == 1
        }
    }

    /// Writing one tile leaves the rest of the tensor as it is.
    pub open spec fn written(&self, waddr: int, wdata: Tile<T>, after: Option<Tensor<T>>) -> bool {
        match self.underlying {
            None => after is None,
            Some(before) => {
                let gc = self.tensor_shape_tiled@[1] as int;
                let tr = self.tile_row as int;
                let tc = self.tile_col as int;
                &&& after is Some
                &&& after->0.shape@ == before.shape@
                &&& after->0.data@.len() == before.data@.len()
                &&& forall|i: int, j: int|
                    0 <= i < self.rows() && 0 <= j < self.cols()
                        ==> #[trigger] after->0.data@[i * self.cols() + j] == if in_tile(
                        i,
                        j,
                        waddr / gc,
                        waddr % gc,
                        tr,
                        tc,
                    ) {
                        wdata.at(
                            stretched(wdata.shape.0, i - (waddr / gc) * tr),
                            stretched(wdata.shape.1, j - (waddr % gc) * tc),
                        )
                    } else {
                        before.data@[i * self.cols() + j]
                    }
            },
        }
    }

    pub fn new(
        tensor_shape_tiled: Vec<usize>,
        npy_path: Option<String>,
        underlying: Option<Tensor<T>>,
        tile_row: usize,
        tile_col: usize,
        n_byte: usize,
        base_addr_byte: u64,
        addr_offset: u64,
        par_dispatch: usize,
        id: u32,
        ack_based_on_waddr: bool,
    ) -> (res: Self)
        requires
            tensor_shape_tiled@.len() == 2,
            npy_path is Some <==> underlying is Some,
            underlying matches Some(tensor) ==> {
                &&& tensor.wf()
                &&& tensor_shape_tiled@[0] * tile_row <= usize::MAX
                &&& tensor_shape_tiled@[1] * tile_col <= usize::MAX
                &&& tensor.shape@ == untiled(tensor_shape_tiled@, tile_row, tile_col)
            },
        ensures
            res.wf(),
            res == (RandomOffChipStore {
                tensor_shape_tiled,
                npy_path,
                underlying,
                tile_row,
                tile_col,
                n_byte,
                base_addr_byte,
                addr_offset,
                par_dispatch,
                ack_based_on_waddr,
                id,
            }),
    {
        RandomOffChipStore {
            tensor_shape_tiled,
            npy_path,
            underlying,
            tile_row,
            tile_col,
            n_byte,
            base_addr_byte,
            addr_offset,
            par_dispatch,
            ack_based_on_waddr,
            id,
        }
    }

    /// The addresses to write for a tile at place `waddr`.
    pub fn send_write_request(&self, waddr: u64, wdata: &Tile<T>) -> (res: Vec<u64>)
        requires
            self.wf(),
            wdata.sized(),
            self.layout(*wdata).fits(waddr as int),
        ensures
            res@ == self.layout(*wdata).addrs(waddr as int),
    {
        let layout = TileLayout {
            tile_row: self.tile_row,
            tile_col: self.tile_col,
            n_byte: wdata.bytes_per_elem,
            tile_bytes: wdata.size_in_bytes(),
            grid_cols: self.tensor_shape_tiled[1],
            base_addr_byte: self.base_addr_byte,
            addr_offset: self.addr_offset,
        };
        layout.tile_addresses(waddr)
    }

    /// What is saved at the end of the streams, where there is data.
    pub fn finish(self) -> (res: Option<StoredTensor<T>>)
        requires
            self.wf(),
        ensures
            match self.underlying {
                Some(tensor) => res is Some && res->0.data@ == tensor.data@ && res->0.shape@
                    == untiled(self.tensor_shape_tiled@, self.tile_row, self.tile_col),
                None => res is None,
            },
    {
        match self.underlying {
            Some(tensor) => Some(StoredTensor { data: tensor.data, shape: tensor.shape }),
            None => None,
        }
    }
}

impl<T: Copy> RandomOffChipStore<T> {
    /// Writes a tile into the tensor, where it has data.
    pub fn update_underlying(&mut self, waddr: u64, wdata: &Tile<T>)
        requires
            old(self).wf(),
            wdata.wf(),
            old(self).writable(waddr as int, *wdata),
            waddr <= usize::MAX,
        ensures
            *final(self) == (RandomOffChipStore { underlying: final(self).underlying, ..*old(self) }),
            final(self).wf(),
            old(self).written(waddr as int, *wdata, final(self).underlying),
    {
        let ghost start = *self;
        if self.underlying.is_none() {
            return;
        }
        let gc: usize = self.tensor_shape_tiled[1];
        let gr: usize = self.tensor_shape_tiled[0];
        let tr: usize = self.tile_row;
        let tc: usize = self.tile_col;
        let tile_idx: usize = waddr as usize;
        let tile_i: usize = tile_idx / gc;
        let tile_j: usize = tile_idx % gc;
        let ghost rows = gr * tr;
        let ghost cols = gc * tc;
        proof {
            assert(tile_i * tr + tr <= gr * tr && 0 <= tile_i * tr && tile_j * tc + tc <= gc * tc
                && 0 <= tile_j * tc) by (nonlinear_arith)
                requires
                    0 <= tile_i < gr,
                    0 <= tile_j < gc,
                    0 <= tr,
                    0 <= tc,
            ;
        }
        let width: usize = gc * tc;
        let start_row: usize = tile_i * tr;
        let start_col: usize = tile_j * tc;
        if let Some(tensor) = &mut self.underlying {
            if let Some(array) = &wdata.underlying {
                let ghost before = tensor.data@;
                let ghost shape = tensor.shape@;
                proof {
                    let s = untiled(start.tensor_shape_tiled@, start.tile_row, start.tile_col);
                    assert(shape == s);
                    assert(s.drop_last().drop_last().len() == 0);
                    assert(product(s.drop_last().drop_last()) == 1);
                    assert(s.drop_last().last() == rows);
                    assert(s.last() == cols);
                    assert(product(s.drop_last()) == 1 * rows);
                    assert(product(s) == rows * cols);
                    assert(before.len() == rows * cols);
                }
                let mut r: usize = 0;
                while r < tr
                    invariant
                        r <= tr,
                        tr == start.tile_row,
                        tc == start.tile_col,
                        width == cols,
                        rows == start.rows(),
                        cols == start.cols(),
                        start_row + tr <= rows <= usize::MAX,
                        start_col + tc <= cols,
                        rows * cols == before.len(),
                        array.wf(),
                        array.rows == wdata.shape.0,
                        array.cols == wdata.shape.1,
                        wdata.underlying == Some(*array),
                        wdata.shape.0 == tr || wdata.shape.0 == 1,
                        wdata.shape.1 == tc || wdata.shape.1 == 1,
                        tensor.shape@ == shape,
                        tensor.data@.len() == before.len(),
                        forall|i: int, j: int|
                            0 <= i < rows && 0 <= j < cols ==> #[trigger] tensor.data@[i * cols
                                + j] == if start_row <= i < start_row + r && start_col <= j
                                < start_col + tc {
                                wdata.at(
                                    stretched(wdata.shape.0, i - start_row),
                                    stretched(wdata.shape.1, j - start_col),
                                )
                            } else {
                                before[i * cols + j]
                            },
                    decreases tr - r,
                {
                    let mut c: usize = 0;
                    while c < tc
                        invariant
                            r < tr,
                            c <= tc,
                            tr == start.tile_row,
                            tc == start.tile_col,
                            width == cols,
                            start_row + tr <= rows <= usize::MAX,
                            start_col + tc <= cols,
                            rows * cols == before.len(),
                            array.wf(),
                            array.rows == wdata.shape.0,
                            array.cols == wdata.shape.1,
                            wdata.underlying == Some(*array),
                            wdata.shape.0 == tr || wdata.shape.0 == 1,
                            wdata.shape.1 == tc || wdata.shape.1 == 1,
                            tensor.shape@ == shape,
                            tensor.data@.len() == before.len(),
                            forall|i: int, j: int|
                                0 <= i < rows && 0 <= j < cols ==> #[trigger] tensor.data@[i * cols
                                    + j] == if start_col <= j < start_col + tc && (start_row <= i
                                    < start_row + r || (i == start_row + r && j < start_col + c)) {
                                    wdata.at(
                                        stretched(wdata.shape.0, i - start_row),
                                        stretched(wdata.shape.1, j - start_col),
                                    )
                                } else {
                                    before[i * cols + j]
                                },
                        decreases tc - c,
                    {
                        let from_row: usize = if array.rows == 1 {
                            0
                        } else {
                            r
                        };
                        let from_col: usize = if array.cols == 1 {
                            0
                        } else {
                            c
                        };
                        let value = *array.get(from_row, from_col);
                        let len: usize = tensor.data.len();
                        proof {
                            lemma_cell_in_bounds(
                                start_row + r,
                                start_col + c,
                                rows as int,
                                cols as int,
                            );
                        }
                        let ghost old_data = tensor.data@;
                        let position: usize = (start_row + r) * width + (start_col + c);
                        tensor.data[position] = value;
                        proof {
                            assert forall|i: int, j: int|
                                0 <= i < rows && 0 <= j < cols implies #[trigger] tensor.data@[i
                                * cols + j] == if start_col <= j < start_col + tc && (start_row
                                <= i < start_row + r || (i == start_row + r && j < start_col + (c
                                + 1))) {
                                wdata.at(
                                    stretched(wdata.shape.0, i - start_row),
                                    stretched(wdata.shape.1, j - start_col),
                                )
                            } else {
                                before[i * cols + j]
                            } by {
                                lemma_cell_in_bounds(i, j, rows as int, cols as int);
                                if i * cols + j == position {
                                    lemma_fundamental_div_mod_converse(
                                        position as int,
                                        cols as int,
                                        i,
                                        j,
                                    );
                                    lemma_fundamental_div_mod_converse(
                                        position as int,
                                        cols as int,
                                        start_row + r,
                                        start_col + c,
                                    );
                                } else {
                                    assert(tensor.data@[i * cols + j] == old_data[i * cols + j]);
                                }
                            }
                        }
                        c = c + 1;
                    }
                    r = r + 1;
                }
            }
        }
    }

    /// Writes one tile: the addresses to write, and the acknowledgement that
    /// is sent once they have been written.
    pub fn step(&mut self, waddr: &Elem<Tile<u64>>, wdata: &Elem<Tile<T>>) -> (res: (
        Vec<u64>,
        Elem<bool>,
    ))
        requires
            old(self).wf(),
            carries_index(waddr.value()),
            waddr.value().at(0, 0) <= usize::MAX,
            wdata.value().wf(),
            wdata.value().sized(),
            old(self).layout(wdata.value()).fits(waddr.value().at(0, 0) as int),
            old(self).writable(waddr.value().at(0, 0) as int, wdata.value()),
        ensures
            *final(self) == (RandomOffChipStore { underlying: final(self).underlying, ..*old(self) }),
            final(self).wf(),
            old(self).written(
                waddr.value().at(0, 0) as int,
                wdata.value(),
                final(self).underlying,
            ),
            res.0@ == old(self).layout(wdata.value()).addrs(waddr.value().at(0, 0) as int),
            res.1 == (if old(self).ack_based_on_waddr {
                with_value(*waddr, true)
            } else {
                with_value(*wdata, true)
            }),
    {
        let (addr_tile, addr_stop) = match waddr {
            Elem::Val(tile) => (tile, None),
            Elem::ValStop(tile, level) => (tile, Some(*level)),
        };
        let (data_tile, data_stop) = match wdata {
            Elem::Val(tile) => (tile, None),
            Elem::ValStop(tile, level) => (tile, Some(*level)),
        };
        let place: u64 = index_of(addr_tile);
        let addrs = self.send_write_request(place, data_tile);
        self.update_underlying(place, data_tile);
        let stop = if self.ack_based_on_waddr {
            addr_stop
        } else {
            data_stop
        };
        let ack = match stop {
            Some(level) => Elem::ValStop(true, level),
            None => Elem::Val(true),
        };
        (addrs, ack)
    }
}

/// The position of a cell of a tile in a tensor of two dimensions.
proof fn lemma_tile_cell<T>(store: RandomOffChipStore<T>, t: int, r: int, c: int)
    requires
        store.wf(),
        store.underlying is Some,
        store.tile_row > 0,
        store.tile_col > 0,
        store.tensor_shape_tiled@[1] > 0,
        0 <= t,
        t / (store.tensor_shape_tiled@[1] as int) < store.tensor_shape_tiled@[0],
        0 <= r < store.tile_row,
        0 <= c < store.tile_col,
    ensures
        ({
            let gc = store.tensor_shape_tiled@[1] as int;
            let i = (t / gc) * store.tile_row + r;
            let j = (t % gc) * store.tile_col + c;
            &&& 0 <= i < store.rows()
            &&& 0 <= j < store.cols()
            &&& tile_cell(store.underlying->0.shape@, store.tile_row, store.tile_col, t, r, c) == i
                * store.cols() + j
        }),
{
    let gr = store.tensor_shape_tiled@[0] as int;
    let gc = store.tensor_shape_tiled@[1] as int;
    let tr = store.tile_row as int;
    let tc = store.tile_col as int;
    vstd::arithmetic::div_mod::lemma_div_multiples_vanish(gr, tr);
    vstd::arithmetic::div_mod::lemma_div_multiples_vanish(gc, tc);
    assert(gr * tr == tr * gr && gc * tc == tc * gc) by (nonlinear_arith);
    lemma_fundamental_div_mod(t, gc);
    let row = t / gc;
    let col = t % gc;
    assert(row >= 0) by (nonlinear_arith)
        requires
            row == t / gc,
            t >= 0,
            gc > 0,
    ;
    lemma_fundamental_div_mod_converse(row, gr, 0, row);
    assert(0 * (gr * tr) == 0);
    assert(0 <= row * tr && row * tr + tr <= gr * tr && 0 <= col * tc && col * tc + tc <= gc * tc)
        by (nonlinear_arith)
        requires
            0 <= row < gr,
            0 <= col < gc,
            0 < tr,
            0 < tc,
    ;
}

/// Reading the tile that was written gives back what was written.
pub proof fn law_read_after_write<T>(
    store: RandomOffChipStore<T>,
    waddr: int,
    wdata: Tile<T>,
    after: Tensor<T>,
)
    requires
        store.wf(),
        store.underlying is Some,
        store.tile_row > 0,
        store.tile_col > 0,
        0 <= waddr,
        wdata.wf(),
        store.writable(waddr, wdata),
        wdata.shape == (store.tile_row, store.tile_col),
        store.written(waddr, wdata, Some(after)),
    ensures
        after.is_tile(store.tile_row, store.tile_col, waddr, *wdata.underlying->0),
{
    let array = *wdata.underlying->0;
    assert forall|r: int, c: int|
        0 <= r < store.tile_row && 0 <= c < store.tile_col implies #[trigger] array.at(r, c)
        == after.data@[tile_cell(
        after.shape@,
        store.tile_row,
        store.tile_col,
        waddr,
        r,
        c,
    )] by {
        lemma_tile_cell(store, waddr, r, c);
        let gc = store.tensor_shape_tiled@[1] as int;
        let i = (waddr / gc) * store.tile_row + r;
        let j = (waddr % gc) * store.tile_col + c;
        assert(after.data@[i * store.cols() + j] == wdata.at(
            stretched(wdata.shape.0, r),
            stretched(wdata.shape.1, c),
        ));
    }
}

/// Writing one tile leaves every other tile as it was.
pub proof fn law_write_keeps_other_tiles<T>(
    store: RandomOffChipStore<T>,
    waddr: int,
    wdata: Tile<T>,
    after: Tensor<T>,
    t: int,
    array: Array2<T>,
)
    requires
        store.wf(),
        store.underlying is Some,
        store.tile_row > 0,
        store.tile_col > 0,
        0 <= waddr,
        store.writable(waddr, wdata),
        store.written(waddr, wdata, Some(after)),
        0 <= t,
        t / (store.tensor_shape_tiled@[1] as int) < store.tensor_shape_tiled@[0],
        t != waddr,
        store.underlying->0.is_tile(store.tile_row, store.tile_col, t, array),
    ensures
        after.is_tile(store.tile_row, store.tile_col, t, array),
{
    let before = store.underlying->0;
    let gc = store.tensor_shape_tiled@[1] as int;
    let tr = store.tile_row as int;
    let tc = store.tile_col as int;
    lemma_fundamental_div_mod(t, gc);
    lemma_fundamental_div_mod(waddr, gc);
    assert forall|r: int, c: int| 0 <= r < tr && 0 <= c < tc implies #[trigger] array.at(r, c)
        == after.data@[tile_cell(after.shape@, store.tile_row, store.tile_col, t, r, c)] by {
        lemma_tile_cell(store, t, r, c);
        let i = (t / gc) * tr + r;
        let j = (t % gc) * tc + c;
        if in_tile(i, j, waddr / gc, waddr % gc, tr, tc) {
            lemma_fundamental_div_mod_converse(i, tr, t / gc, r);
            lemma_fundamental_div_mod_converse(i, tr, waddr / gc, i - (waddr / gc) * tr);
            lemma_fundamental_div_mod_converse(j, tc, t % gc, c);
            lemma_fundamental_div_mod_converse(j, tc, waddr % gc, j - (waddr % gc) * tc);
            assert(false);
        }
        assert(after.data@[i * store.cols() + j] == before.data@[i * store.cols() + j]);
    }
}

/// Writing a tile: every cell of the tile that the address names takes the cell
/// of the data, where a dimension of size one is repeated, and every other cell
/// keeps its value.
pub proof fn law_write_fills_tile<T: Copy>(waddr: u64, wdata: Tile<T>, i: int, j: int)
    ensures
        forall|store: &mut RandomOffChipStore<T>|
            store.wf() && store.underlying is Some && store.tensor_shape_tiled@[1] > 0 && 0 <= i
                < store.tensor_shape_tiled@[0] * store.tile_row && 0 <= j
                < store.tensor_shape_tiled@[1] * store.tile_col && #[trigger] call_ensures(
                RandomOffChipStore::<T>::update_underlying,
                (store, waddr, &wdata),
                (),
            ) ==> {
                let cols = store.tensor_shape_tiled@[1] * store.tile_col;
                let grid = store.tensor_shape_tiled@[1] as int;
                let top = (waddr as int / grid) * store.tile_row;
                let left = (waddr as int % grid) * store.tile_col;
                let after = final(store).underlying;
                &&& after is Some
                &&& after->0.shape@ == store.underlying->0.shape@
                &&& after->0.data@.len() == store.underlying->0.data@.len()
                &&& after->0.data@[i * cols + j] == (if top <= i < top + store.tile_row && left <= j
                    < left + store.tile_col {
                    wdata.at(
                        if wdata.shape.0 == 1 {
                            0
                        } else {
                            i - top
                        },
                        if wdata.shape.1 == 1 {
                            0
                        } else {
                            j - left
                        },
                    )
                } else {
                    store.underlying->0.data@[i * cols + j]
                })
            },
{
    assert forall|store: &mut RandomOffChipStore<T>|
        store.wf() && store.underlying is Some && store.tensor_shape_tiled@[1] > 0 && 0 <= i
            < store.tensor_shape_tiled@[0] * store.tile_row && 0 <= j < store.tensor_shape_tiled@[1]
            * store.tile_col && #[trigger] call_ensures(
            RandomOffChipStore::<T>::update_underlying,
            (store, waddr, &wdata),
            (),
        ) implies final(store).underlying->0.data@[i * store.cols() + j] == (if in_tile(
        i,
        j,
        waddr as int / store.tensor_shape_tiled@[1] as int,
        waddr as int % store.tensor_shape_tiled@[1] as int,
        store.tile_row as int,
        store.tile_col as int,
    ) {
        wdata.at(
            stretched(
                wdata.shape.0,
                i - (waddr as int / store.tensor_shape_tiled@[1] as int) * store.tile_row,
            ),
            stretched(
                wdata.shape.1,
                j - (waddr as int % store.tensor_shape_tiled@[1] as int) * store.tile_col,
            ),
        )
    } else {
        store.underlying->0.data@[i * store.cols() + j]
    }) by {
        assert(store.written(waddr as int, wdata, final(store).underlying));
    }
}

/// A write asks for the tile that the address names, from end to end, and is
/// acknowledged with the stops of the address stream or of the data stream, as
/// the store is told.
pub proof fn law_write_is_acknowledged<T: Copy>(waddr: Elem<Tile<u64>>, wdata: Elem<Tile<T>>)
    ensures
        forall|store: &mut RandomOffChipStore<T>, res: (Vec<u64>, Elem<bool>)|
            store.wf() && store.tile_row > 0 && wdata.value().sized() && wdata.value().shape == (
            store.tile_row, store.tile_col) && store.layout(wdata.value()).fits(
                waddr.value().at(0, 0) as int,
            ) && #[trigger] call_ensures(
                RandomOffChipStore::<T>::step,
                (store, &waddr, &wdata),
                res,
            ) ==> {
                let bytes = wdata.value().bytes_per_elem;
                &&& exists|n: int| #[trigger]
                    walks_rows(
                        res.0@,
                        store.base_addr_byte + waddr.value().at(0, 0) * (bytes * (store.tile_row
                            * store.tile_col)),
                        store.tile_row as int,
                        store.tile_col * bytes,
                        store.tensor_shape_tiled@[1] * store.tile_col * bytes,
                        store.addr_offset as int,
                        n,
                    )
                &&& res.1.value()
                &&& store.ack_based_on_waddr ==> res.1.level() == waddr.level() && (res.1 is ValStop
                    <==> waddr is ValStop)
                &&& !store.ack_based_on_waddr ==> res.1.level() == wdata.level() && (res.1
                    is ValStop <==> wdata is ValStop)
            },
{
    assert forall|store: &mut RandomOffChipStore<T>, res: (Vec<u64>, Elem<bool>)|
        store.wf() && store.tile_row > 0 && wdata.value().sized() && wdata.value().shape == (
        store.tile_row, store.tile_col) && store.layout(wdata.value()).fits(
            waddr.value().at(0, 0) as int,
        ) && #[trigger] call_ensures(
            RandomOffChipStore::<T>::step,
            (store, &waddr, &wdata),
            res,
        ) implies exists|n: int| #[trigger]
        walks_rows(
            res.0@,
            store.base_addr_byte + waddr.value().at(0, 0) * (wdata.value().bytes_per_elem * (
            store.tile_row * store.tile_col)),
            store.tile_row as int,
            store.tile_col * wdata.value().bytes_per_elem,
            store.tensor_shape_tiled@[1] * store.tile_col * wdata.value().bytes_per_elem,
            store.addr_offset as int,
            n,
        ) by {
        let tile = wdata.value();
        assert(tile.bytes() >= 0) by (nonlinear_arith)
            requires
                tile.bytes() == tile.bytes_per_elem * (tile.shape.0 * tile.shape.1),
                tile.bytes_per_elem >= 0,
                tile.shape.0 >= 0,
                tile.shape.1 >= 0,
        ;
        lemma_layout_walks_rows(store.layout(tile), waddr.value().at(0, 0) as int);
    }
}

} // verus!
