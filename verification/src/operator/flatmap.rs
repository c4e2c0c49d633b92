//! Operators that send several elements for each one they take.

use vstd::prelude::*;

use crate::functions::accum_fn::{is_col_joined, is_row_joined};
use crate::memory::is_loaded_tile;
use crate::memory::offchip_load::OffChipLoad;
use crate::memory::random_offchip_load::{carries_index, index_of, RandomOffChipLoad};
use crate::primitives::elem::{stop_option, Elem, StopType};
use crate::primitives::select::{as_ints, sel_vec, selected, MultiHotN, SelectAdapter};
use crate::primitives::tile::{is_scalar_tile, scalar_tile, Tile};
use crate::utils::calculation::{ceil_div, lemma_ceil_div};
use crate::utils::indexing::{
    count_positions, law_stop_level, lemma_product_nonneg, lemma_stop_level_bound, locate, positive, product,
    product_fits, stop_level, view_index,
};

verus! {

/// Cuts tiles into chunks of `chunk` rows or columns. With `filter_mask`, a
/// tile that is cut into rows ends with the chunk that holds the last valid
/// row.
#[derive(Debug)]
pub struct RetileStreamify {
    pub split_row: bool,
    pub filter_mask: bool,
    pub chunk: usize,
    pub id: u32,
}

/// How many of the rows from `start` to before `end` are among the first
/// `offset`.
pub open spec fn valid_rows(offset: int, start: int, end: int) -> int {
    if offset <= start {
        0
    } else if offset >= end {
        end - start
    } else {
        offset - start
    }
}

impl RetileStreamify {
    /// How many rows or columns the tile has.
    pub open spec fn extent<T>(self, data: Tile<T>) -> int {
        if self.split_row {
            data.shape.0 as int
        } else {
            data.shape.1 as int
        }
    }

    /// The first row or column of chunk `k`.
    pub open spec fn chunk_start(self, k: int) -> int {
        k * self.chunk
    }

    /// The row or column after chunk `k`, which may be shorter than others.
    pub open spec fn chunk_end<T>(self, data: Tile<T>, k: int) -> int {
        let end = self.chunk_start(k) + self.chunk;
        if end <= self.extent(data) {
            end
        } else {
            self.extent(data)
        }
    }

    /// How many chunks are sent.
    pub open spec fn count<T>(self, data: Tile<T>) -> int {
        if self.filter_mask && self.split_row && 0 < data.offset <= self.extent(data) {
            ceil_div(data.offset as int, self.chunk as int)
        } else {
            ceil_div(self.extent(data), self.chunk as int)
        }
    }

    /// `piece` is chunk `k` of the tile.
    pub open spec fn is_chunk<T>(self, data: Tile<T>, k: int, piece: Tile<T>) -> bool {
        let start = self.chunk_start(k);
        let end = self.chunk_end(data, k);
        &&& piece.wf()
        &&& piece.shape == (if self.split_row {
            ((end - start) as usize, data.shape.1)
        } else {
            (data.shape.0, (end - start) as usize)
        })
        &&& piece.bytes_per_elem == data.bytes_per_elem
        &&& piece.read_from_mu == data.read_from_mu
        &&& piece.offset == (if self.split_row {
            valid_rows(data.offset as int, start, end)
        } else {
            data.offset as int
        })
        &&& piece.underlying is Some <==> data.underlying is Some
        &&& data.underlying is Some ==> forall|i: int, j: int|
            0 <= i < piece.shape.0 && 0 <= j < piece.shape.1 ==> #[trigger] piece.at(i, j)
                == if self.split_row {
                data.at(start + i, j)
            } else {
                data.at(i, start + j)
            }
    }

    /// `out` is what is sent for a tile: its chunks, of which the last closes
    /// what the tile closes.
    pub open spec fn is_retiled<T>(
        self,
        data: Tile<T>,
        stop_level: Option<StopType>,
        out: Seq<Elem<Tile<T>>>,
    ) -> bool {
        &&& out.len() == self.count(data)
        &&& forall|k: int|
            0 <= k < out.len() ==> {
                &&& self.is_chunk(data, k, (#[trigger] out[k]).value())
                &&& out[k] is ValStop <==> stop_level is Some && k == out.len() - 1
                &&& out[k] is ValStop ==> out[k].level() == stop_level->0
            }
    }

    pub fn new(split_row: bool, filter_mask: bool, chunk: usize, id: u32) -> (res: Self)
        ensures
            res == (RetileStreamify { split_row, filter_mask, chunk, id }),
    {
        RetileStreamify { split_row, filter_mask, chunk, id }
    }

    fn chunk_tile<T: Copy>(&self, data: &Tile<T>, start: usize, end: usize, Ghost(k): Ghost<int>)
        -> (res: Tile<T>)
        requires
            data.wf(),
            start == self.chunk_start(k),
            end == self.chunk_end(*data, k),
            start < end <= self.extent(*data),
        ensures
            self.is_chunk(*data, k, res),
    {
        let offset: usize = if self.split_row {
            if data.offset <= start {
                0
            } else if data.offset >= end {
                end - start
            } else {
                data.offset - start
            }
        } else {
            data.offset
        };
        match &data.underlying {
            Some(array) => {
                let slice = if self.split_row {
                    array.slice_rows(start, end)
                } else {
                    array.slice_cols(start, end)
                };
                Tile::new_padded(slice, data.bytes_per_elem, data.read_from_mu, offset)
            },
            None => {
                let shape: (usize, usize) = if self.split_row {
                    (end - start, data.shape.1)
                } else {
                    (data.shape.0, end - start)
                };
                Tile::new_blank_padded(shape, data.bytes_per_elem, data.read_from_mu, offset)
            },
        }
    }

    /// Cuts a tile into chunks.
    pub fn retile<T: Copy>(&self, data: &Tile<T>, stop_level: Option<StopType>) -> (res: Vec<
        Elem<Tile<T>>,
    >)
        requires
            data.wf(),
            self.chunk > 0,
            self.extent(*data) + self.chunk - 1 <= usize::MAX,
        ensures
            self.is_retiled(*data, stop_level, res@),
    {
        let extent: usize = if self.split_row {
            data.shape.0
        } else {
            data.shape.1
        };
        let covered: usize = if self.filter_mask && self.split_row && 0 < data.offset && data.offset
            <= extent {
            data.offset
        } else {
            extent
        };
        let ghost count = self.count(*data);
        proof {
            lemma_ceil_div(covered as int, self.chunk as int);
        }
        let mut out: Vec<Elem<Tile<T>>> = Vec::new();
        let mut start: usize = 0;
        let ghost mut k: int = 0;
        while start < covered
            invariant
                data.wf(),
                self.chunk > 0,
                extent == self.extent(*data),
                extent + self.chunk - 1 <= usize::MAX,
                covered <= extent,
                count == self.count(*data),
                covered <= count * self.chunk < covered + self.chunk,
                0 <= k <= count,
                start == k * self.chunk,
                out@.len() == k,
                forall|j: int|
                    0 <= j < k ==> {
                        &&& self.is_chunk(*data, j, (#[trigger] out@[j]).value())
                        &&& out@[j] is ValStop <==> stop_level is Some && j == count - 1
                        &&& out@[j] is ValStop ==> out@[j].level() == stop_level->0
                    },
            decreases covered + self.chunk - start,
        {
            let end: usize = if start + self.chunk <= extent {
                start + self.chunk
            } else {
                extent
            };
            let piece = self.chunk_tile(data, start, end, Ghost(k));
            proof {
                let chunk = self.chunk as int;
                assert(k < count && (k + 1) * chunk == k * chunk + chunk && (k * chunk + chunk
                    >= covered <==> k == count - 1)) by (nonlinear_arith)
                    requires
                        k * chunk < covered,
                        covered <= count * chunk,
                        count * chunk < covered + chunk,
                        0 <= k <= count,
                        chunk > 0,
                ;
            }
            let elem = match stop_level {
                Some(level) if start + self.chunk >= covered => Elem::ValStop(piece, level),
                _ => Elem::Val(piece),
            };
            out.push(elem);
            start = start + self.chunk;
            proof {
                k = k + 1;
            }
        }
        proof {
            assert(k == count) by (nonlinear_arith)
                requires
                    k * self.chunk >= covered,
                    count * self.chunk < covered + self.chunk,
                    k <= count,
                    self.chunk > 0,
            ;
        }
        out
    }

    /// Sends on one element, in the cycle in which it arrives.
    pub fn step<T: Copy>(&self, elem: &Elem<Tile<T>>) -> (res: Vec<Elem<Tile<T>>>)
        requires
            elem.value().wf(),
            self.chunk > 0,
            self.extent(elem.value()) + self.chunk - 1 <= usize::MAX,
        ensures
            self.is_retiled(
                elem.value(),
                stop_option(*elem),
                res@,
            ),
    {
        match elem {
            Elem::Val(data) => self.retile(data, None),
            Elem::ValStop(data, s) => self.retile(data, Some(*s)),
        }
    }
}

/// The valid rows of the first `n` chunks.
pub open spec fn valid_rows_upto<T>(op: RetileStreamify, data: Tile<T>, n: nat) -> int
    decreases n,
{
    if n == 0 {
        0
    } else {
        valid_rows_upto(op, data, (n - 1) as nat) + valid_rows(
            data.offset as int,
            op.chunk_start(n - 1),
            op.chunk_end(data, n - 1),
        )
    }
}

/// Cutting into rows neither loses nor invents valid rows, whether or not the
/// chunks behind the last valid row are dropped.
pub proof fn law_chunks_keep_valid_rows<T>(op: RetileStreamify, data: Tile<T>)
    requires
        op.split_row,
        op.chunk > 0,
        data.offset <= data.shape.0,
    ensures
        valid_rows_upto(op, data, op.count(data) as nat) == data.offset,
{
    let chunk = op.chunk as int;
    let n = op.count(data);
    let covered = if op.filter_mask && 0 < data.offset {
        data.offset as int
    } else {
        data.shape.0 as int
    };
    lemma_ceil_div(covered, chunk);
    assert((n - 1) * chunk == n * chunk - chunk) by (nonlinear_arith);
    lemma_valid_rows_prefix(op, data, n as nat);
}

proof fn lemma_valid_rows_prefix<T>(op: RetileStreamify, data: Tile<T>, n: nat)
    requires
        op.split_row,
        op.chunk > 0,
        data.offset <= data.shape.0,
        n > 0 ==> (n - 1) * op.chunk < data.shape.0,
    ensures
        valid_rows_upto(op, data, n) == (if n * op.chunk <= data.offset {
            n * op.chunk
        } else {
            data.offset as int
        }),
    decreases n,
{
    if n > 0 {
        let chunk = op.chunk as int;
        assert((n - 1) * chunk == n * chunk - chunk) by (nonlinear_arith);
        if n > 1 {
            assert((n - 2) * chunk < (n - 1) * chunk) by (nonlinear_arith)
                requires
                    chunk > 0,
            ;
        }
        lemma_valid_rows_prefix(op, data, (n - 1) as nat);
    } else {
        assert(0 * op.chunk == 0);
    }
}

/// Every cell of a tile is in exactly the chunk that its row or column
/// belongs to.
pub proof fn law_chunks_cover_tile<T>(
    op: RetileStreamify,
    data: Tile<T>,
    stop_level: Option<StopType>,
    out: Seq<Elem<Tile<T>>>,
    i: int,
    j: int,
)
    requires
        op.chunk > 0,
        !op.filter_mask,
        data.underlying is Some,
        op.is_retiled(data, stop_level, out),
        0 <= i < data.shape.0,
        0 <= j < data.shape.1,
    ensures
        ({
            let at = if op.split_row {
                i
            } else {
                j
            };
            let k = at / op.chunk as int;
            let within = at % op.chunk as int;
            &&& 0 <= k < out.len()
            &&& if op.split_row {
                within < out[k].value().shape.0 && out[k].value().at(within, j) == data.at(i, j)
            } else {
                within < out[k].value().shape.1 && out[k].value().at(i, within) == data.at(i, j)
            }
        }),
{
    let chunk = op.chunk as int;
    let at = if op.split_row {
        i
    } else {
        j
    };
    let k = at / chunk;
    let within = at % chunk;
    vstd::arithmetic::div_mod::lemma_fundamental_div_mod(at, chunk);
    lemma_ceil_div(op.extent(data), chunk);
    assert(k * chunk == chunk * k) by (nonlinear_arith);
    assert(0 <= k < out.len()) by (nonlinear_arith)
        requires
            at == chunk * k + within,
            0 <= within < chunk,
            0 <= at < op.extent(data),
            op.extent(data) <= out.len() * chunk,
            chunk > 0,
    ;
    let piece = out[k].value();
    assert(op.is_chunk(data, k, piece));
    if op.split_row {
        assert(piece.at(within, j) == data.at(k * chunk + within, j));
    } else {
        assert(piece.at(i, within) == data.at(i, k * chunk + within));
    }
}

/// `tile` is the first `rows` rows of a tile with data.
pub open spec fn is_row_prefix<T>(data: Tile<T>, rows: int, tile: Tile<T>) -> bool {
    &&& tile.underlying is Some
    &&& tile.shape == (rows as usize, data.shape.1)
    &&& tile.offset == valid_rows(data.offset as int, 0, rows)
    &&& rows > 0 ==> tile.bytes_per_elem == data.bytes_per_elem && tile.read_from_mu
        == data.read_from_mu
    &&& forall|i: int, j: int|
        0 <= i < rows && 0 <= j < data.shape.1 ==> #[trigger] tile.at(i, j) == data.at(i, j)
}

/// Appending the next chunk of rows to the rows before it gives one chunk of
/// rows more. So appending all chunks, beginning with no rows, gives back the
/// tile: its cells, its valid rows, and where it lies.
pub proof fn law_retile_row_undoes_chunks<T>(
    op: RetileStreamify,
    data: Tile<T>,
    k: int,
    piece: Tile<T>,
    accumulator: Tile<T>,
    out: Tile<T>,
)
    requires
        op.split_row,
        op.chunk > 0,
        0 <= k,
        op.chunk_start(k) < data.shape.0,
        data.underlying is Some,
        op.is_chunk(data, k, piece),
        is_row_prefix(data, op.chunk_start(k), accumulator),
        is_row_joined(piece, accumulator, out),
    ensures
        is_row_prefix(data, op.chunk_end(data, k), out),
{
    let start = op.chunk_start(k);
    let end = op.chunk_end(data, k);
    assert(start >= 0) by (nonlinear_arith)
        requires
            start == k * op.chunk,
            k >= 0,
            op.chunk > 0,
    ;
    assert forall|i: int, j: int| 0 <= i < end && 0 <= j < data.shape.1 implies #[trigger] out.at(
        i,
        j,
    ) == data.at(i, j) by {
        if i < start {
            assert(accumulator.at(i, j) == data.at(i, j));
        } else {
            assert(piece.at(i - start, j) == data.at(start + (i - start), j));
        }
    }
}

/// `tile` is the first `cols` columns of a tile with data.
pub open spec fn is_col_prefix<T>(data: Tile<T>, cols: int, tile: Tile<T>) -> bool {
    &&& tile.underlying is Some
    &&& tile.shape == (data.shape.0, cols as usize)
    &&& cols > 0 ==> tile.bytes_per_elem == data.bytes_per_elem && tile.read_from_mu
        == data.read_from_mu && tile.offset == data.offset
    &&& forall|i: int, j: int|
        0 <= i < data.shape.0 && 0 <= j < cols ==> #[trigger] tile.at(i, j) == data.at(i, j)
}

/// Appending the next chunk of columns to the columns before it gives one
/// chunk of columns more. So appending all chunks, beginning with no columns,
/// gives back the tile.
pub proof fn law_retile_col_undoes_chunks<T>(
    op: RetileStreamify,
    data: Tile<T>,
    k: int,
    piece: Tile<T>,
    accumulator: Tile<T>,
    out: Tile<T>,
)
    requires
        !op.split_row,
        op.chunk > 0,
        0 <= k,
        op.chunk_start(k) < data.shape.1,
        data.underlying is Some,
        op.is_chunk(data, k, piece),
        is_col_prefix(data, op.chunk_start(k), accumulator),
        is_col_joined(piece, accumulator, out),
    ensures
        is_col_prefix(data, op.chunk_end(data, k), out),
{
    let start = op.chunk_start(k);
    let end = op.chunk_end(data, k);
    assert(start >= 0) by (nonlinear_arith)
        requires
            start == k * op.chunk,
            k >= 0,
            op.chunk > 0,
    ;
    assert forall|i: int, j: int| 0 <= i < data.shape.0 && 0 <= j < end implies #[trigger] out.at(
        i,
        j,
    ) == data.at(i, j) by {
        if j < start {
            assert(accumulator.at(i, j) == data.at(i, j));
        } else {
            assert(piece.at(i, j - start) == data.at(i, start + (j - start)));
        }
    }
}

/// Addresses of the tiles of a selected expert, each of which occupies
/// `num_tile_per_expert` consecutive tiles.
#[derive(Debug)]
pub struct ExpertAddrGen {
    pub num_tile_per_expert: u64,
    pub expert_addr_base: u64,
    pub id: u32,
}

impl ExpertAddrGen {
    /// The address of tile `i` of an expert.
    pub open spec fn addr(self, expert: int, i: int) -> int {
        self.expert_addr_base + expert * self.num_tile_per_expert + i
    }

    /// The level that closes at tile `i`.
    pub open spec fn level(self, i: int) -> int {
        if i < self.num_tile_per_expert - 1 {
            1
        } else {
            2
        }
    }

    pub fn new(num_tile_per_expert: u64, expert_addr_base: u64, id: u32) -> (res: Self)
        ensures
            res == (ExpertAddrGen { num_tile_per_expert, expert_addr_base, id }),
    {
        ExpertAddrGen { num_tile_per_expert, expert_addr_base, id }
    }

    /// Sends the addresses of the one expert that is selected. Stops are not
    /// expected: the select stream has rank zero.
    pub fn step<S: SelectAdapter>(&self, sel: &Elem<S>) -> (res: Vec<Elem<Tile<u64>>>)
        requires
            sel is Val,
            sel_vec(sel.value().flags()).len() == 1,
            self.addr(sel_vec(sel.value().flags())[0], 0) <= u64::MAX,
            self.num_tile_per_expert > 0 ==> self.addr(
                sel_vec(sel.value().flags())[0],
                self.num_tile_per_expert - 1,
            ) <= u64::MAX,
        ensures
            res@.len() == self.num_tile_per_expert,
            forall|i: int|
                0 <= i < res@.len() ==> {
                    &&& is_scalar_tile(
                        (#[trigger] res@[i]).value(),
                        self.addr(sel_vec(sel.value().flags())[0], i) as u64,
                        8,
                        false,
                    )
                    &&& res@[i] is ValStop
                    &&& res@[i].level() == self.level(i)
                },
    {
        let experts = match sel {
            Elem::Val(s) => s.to_sel_vec(),
            Elem::ValStop(s, _) => s.to_sel_vec(),
        };
        let ghost expert = sel_vec(sel.value().flags())[0];
        assert(as_ints(experts@).len() == 1 && as_ints(experts@)[0] == experts@[0]);
        assert(0 <= expert * self.num_tile_per_expert) by (nonlinear_arith)
            requires
                0 <= expert,
                0 <= self.num_tile_per_expert,
        ;
        let first: u64 = self.expert_addr_base + experts[0] as u64 * self.num_tile_per_expert;
        let mut out: Vec<Elem<Tile<u64>>> = Vec::new();
        let mut i: u64 = 0;
        while i < self.num_tile_per_expert
            invariant
                i <= self.num_tile_per_expert,
                first == self.addr(expert, 0),
                self.num_tile_per_expert > 0 ==> self.addr(expert, self.num_tile_per_expert - 1)
                    <= u64::MAX,
                out@.len() == i,
                forall|k: int|
                    0 <= k < i ==> {
                        &&& is_scalar_tile(
                            (#[trigger] out@[k]).value(),
                            self.addr(expert, k) as u64,
                            8,
                            false,
                        )
                        &&& out@[k] is ValStop
                        &&& out@[k].level() == self.level(k)
                    },
            decreases self.num_tile_per_expert - i,
        {
            let level: StopType = if i < self.num_tile_per_expert - 1 {
                1
            } else {
                2
            };
            out.push(Elem::ValStop(scalar_tile(first + i, 8, false), level));
            i = i + 1;
        }
        out
    }
}

/// The scalar an input element contributes to the base tile index.
///
/// [`DynAddrGen`] accepts either a select stream (one chosen index per
/// element) or a rank-0 index tile.
pub trait DynAddrBase {
    /// The element names an index.
    spec fn has_base(&self) -> bool;

    /// The index that the element names.
    spec fn base_idx(&self) -> int;

    fn to_base_idx(&self) -> (res: u64)
        requires
            self.has_base(),
        ensures
            res == self.base_idx(),
    ;
}

impl DynAddrBase for MultiHotN {
    /// A blank selection, or exactly one selected position.
    open spec fn has_base(&self) -> bool {
        self.underlying@.len() == 0 || sel_vec(self.underlying@).len() == 1
    }

    /// The selected position. A blank selection carries no data (timing-only
    /// simulation). The number of addresses is data-independent, so zero keeps
    /// the timing faithful without inventing an index.
    open spec fn base_idx(&self) -> int {
        if self.underlying@.len() == 0 {
            0
        } else {
            sel_vec(self.underlying@)[0]
        }
    }

    fn to_base_idx(&self) -> (res: u64) {
        if self.is_blank() {
            return 0;
        }
        let positions = self.to_sel_vec();
        assert(as_ints(positions@)[0] == positions@[0]);
        positions[0] as u64
    }
}

impl DynAddrBase for Tile<u64> {
    open spec fn has_base(&self) -> bool {
        self.underlying is Some ==> carries_index(*self)
    }

    /// The value of the first cell; zero in a timing-only tile.
    open spec fn base_idx(&self) -> int {
        match self.underlying {
            Some(_) => self.at(0, 0) as int,
            None => 0,
        }
    }

    fn to_base_idx(&self) -> (res: u64) {
        match &self.underlying {
            Some(array) => *array.get(0, 0),
            None => 0,
        }
    }
}

/// The general form of [`ExpertAddrGen`]: for every element of the input, the
/// tile indices that a view reads out of one slab of `slab_tiles` tiles.
///
/// The input element picks the slab (its scalar times the slab size, plus
/// `addr_base`); the view inside that slab is walked as a strided load walks
/// it. [`ExpertAddrGen`] is the special case of `n` by one tiles with unit
/// strides.
#[derive(Debug)]
pub struct DynAddrGen {
    /// Slab-relative tile index and the stop token that closes at it, for
    /// every position of the view.
    pub view: Vec<(u64, Option<StopType>)>,
    pub slab_tiles: u64,
    pub addr_base: u64,
    /// The level of the stop token that closes the whole address grid, and so
    /// the one the input's own stop folds into.
    pub out_rank: StopType,
    pub id: u32,
}

/// The tile of a slab of `tiles` tiles that a view reads at step `k`.
pub open spec fn slab_index(
    tiles: int,
    stride: Seq<usize>,
    out_shape_tiled: Seq<usize>,
    k: int,
) -> int {
    if tiles > 0 {
        view_index(out_shape_tiled, stride, k) % tiles
    } else {
        0
    }
}

/// `view` lists, for every step of a view, the tile that is read and the level
/// that closes.
pub open spec fn is_view(
    tensor_shape_tiled: Seq<usize>,
    stride: Seq<usize>,
    out_shape_tiled: Seq<usize>,
    view: Seq<(u64, Option<StopType>)>,
) -> bool {
    &&& view.len() == product(out_shape_tiled)
    &&& forall|k: int|
        0 <= k < view.len() ==> {
            let level = stop_level(out_shape_tiled, k);
            &&& (#[trigger] view[k]).0 == slab_index(
                product(tensor_shape_tiled),
                stride,
                out_shape_tiled,
                k,
            )
            &&& view[k].1 == (if level > 0 {
                Some(level as StopType)
            } else {
                None
            })
        }
}

impl DynAddrGen {
    /// The stop of an address: the level that closes in the view, raised by
    /// what the input closes where the whole view closes.
    pub open spec fn level(self, k: int, in_stop: Option<StopType>) -> int {
        match self.view@[k].1 {
            None => 0,
            Some(level) => if in_stop is Some && level == self.out_rank {
                level + in_stop->0
            } else {
                level as int
            },
        }
    }

    /// The address at step `k` of the view of an input element.
    pub open spec fn addr(self, base_idx: int, k: int) -> int {
        self.addr_base + base_idx * self.slab_tiles + self.view@[k].0
    }

    /// `out` is what is sent for an input element.
    pub open spec fn is_walk(
        self,
        base_idx: int,
        in_stop: Option<StopType>,
        out: Seq<Elem<Tile<u64>>>,
    ) -> bool {
        &&& out.len() == self.view@.len()
        &&& forall|k: int|
            0 <= k < out.len() ==> {
                &&& is_scalar_tile(
                    (#[trigger] out[k]).value(),
                    self.addr(base_idx, k) as u64,
                    8,
                    false,
                )
                &&& out[k] is ValStop <==> self.view@[k].1 is Some
                &&& out[k].level() == self.level(k, in_stop)
            }
    }

    /// Everything that is sent for an input element is in range.
    pub open spec fn fits(self, base_idx: int, in_stop: Option<StopType>) -> bool {
        &&& base_idx * self.slab_tiles <= u64::MAX
        &&& self.addr_base + base_idx * self.slab_tiles <= u64::MAX
        &&& forall|k: int|
            0 <= k < self.view@.len() ==> #[trigger] self.addr(base_idx, k) <= u64::MAX
                && self.level(k, in_stop) <= StopType::MAX
    }

    /// Walks a shape in row-major order, mapping each position to the tile it
    /// reads through `stride` (wrapped into the tensor) and to the highest
    /// stop token that closes there.
    pub fn generate_view(
        tensor_shape_tiled: &Vec<usize>,
        stride: &Vec<usize>,
        out_shape_tiled: &Vec<usize>,
    ) -> (res: Vec<(u64, Option<StopType>)>)
        requires
            stride@.len() == out_shape_tiled@.len(),
            out_shape_tiled@.len() <= u32::MAX,
            product_fits(tensor_shape_tiled@),
            product_fits(out_shape_tiled@),
            forall|k: int|
                0 <= k < product(out_shape_tiled@) ==> #[trigger] view_index(
                    out_shape_tiled@,
                    stride@,
                    k,
                ) <= usize::MAX,
        ensures
            is_view(tensor_shape_tiled@, stride@, out_shape_tiled@, res@),
    {
        let total_tiles: usize = count_positions(out_shape_tiled);
        let tensor_tiles: usize = count_positions(tensor_shape_tiled);
        let mut view: Vec<(u64, Option<StopType>)> = Vec::new();
        proof {
            lemma_product_nonneg(out_shape_tiled@);
        }
        let mut flat: usize = 0;
        while flat < total_tiles
            invariant
                stride@.len() == out_shape_tiled@.len(),
                out_shape_tiled@.len() <= u32::MAX,
                forall|k: int|
                    0 <= k < product(out_shape_tiled@) ==> #[trigger] view_index(
                        out_shape_tiled@,
                        stride@,
                        k,
                    ) <= usize::MAX,
                flat <= total_tiles,
                total_tiles == product(out_shape_tiled@),
                total_tiles > 0 ==> positive(out_shape_tiled@),
                tensor_tiles == product(tensor_shape_tiled@),
                view@.len() == flat,
                forall|k: int|
                    0 <= k < view@.len() ==> {
                        let level = stop_level(out_shape_tiled@, k);
                        &&& (#[trigger] view@[k]).0 == slab_index(
                            tensor_tiles as int,
                            stride@,
                            out_shape_tiled@,
                            k,
                        )
                        &&& view@[k].1 == (if level > 0 {
                            Some(level as StopType)
                        } else {
                            None
                        })
                    },
            decreases total_tiles - flat,
        {
            assert(view_index(out_shape_tiled@, stride@, flat as int) <= usize::MAX);
            let (index, stop) = locate(out_shape_tiled, stride, flat);
            let tile_idx: usize = if tensor_tiles > 0 {
                index % tensor_tiles
            } else {
                0
            };
            let closes = if stop > 0 {
                Some(stop)
            } else {
                None
            };
            view.push((tile_idx as u64, closes));
            flat = flat + 1;
        }
        view
    }

    pub fn new(
        tensor_shape_tiled: &Vec<usize>,
        stride: &Vec<usize>,
        out_shape_tiled: &Vec<usize>,
        addr_base: u64,
        id: u32,
    ) -> (res: Self)
        requires
            stride@.len() == out_shape_tiled@.len(),
            out_shape_tiled@.len() <= u32::MAX,
            product_fits(tensor_shape_tiled@),
            product_fits(out_shape_tiled@),
            forall|k: int|
                0 <= k < product(out_shape_tiled@) ==> #[trigger] view_index(
                    out_shape_tiled@,
                    stride@,
                    k,
                ) <= usize::MAX,
        ensures
            is_view(tensor_shape_tiled@, stride@, out_shape_tiled@, res.view@),
            res.slab_tiles == product(tensor_shape_tiled@),
            res.addr_base == addr_base,
            res.out_rank == out_shape_tiled@.len(),
            res.id == id,
    {
        DynAddrGen {
            view: DynAddrGen::generate_view(tensor_shape_tiled, stride, out_shape_tiled),
            slab_tiles: count_positions(tensor_shape_tiled) as u64,
            addr_base,
            out_rank: out_shape_tiled.len() as StopType,
            id,
        }
    }

    /// Sends the tile indices for an input element. A stop on the input closes
    /// the ranks above the address grid, so it is folded into the token that
    /// closes the grid.
    pub fn step<I: DynAddrBase>(&self, elem: &Elem<I>) -> (res: Vec<Elem<Tile<u64>>>)
        requires
            elem.value().has_base(),
            elem.value().base_idx() >= 0,
            self.fits(
                elem.value().base_idx(),
                stop_option(*elem),
            ),
        ensures
            self.is_walk(
                elem.value().base_idx(),
                stop_option(*elem),
                res@,
            ),
    {
        let (data, in_stop) = match elem {
            Elem::Val(data) => (data, None),
            Elem::ValStop(data, s) => (data, Some(*s)),
        };
        let base_idx: u64 = data.to_base_idx();
        assert(base_idx * self.slab_tiles >= 0) by (nonlinear_arith)
            requires
                base_idx >= 0,
                self.slab_tiles >= 0,
        ;
        let base: u64 = self.addr_base + base_idx * self.slab_tiles;
        let mut out: Vec<Elem<Tile<u64>>> = Vec::new();
        let mut k: usize = 0;
        while k < self.view.len()
            invariant
                k <= self.view@.len(),
                self.fits(base_idx as int, in_stop),
                base == self.addr_base + base_idx * self.slab_tiles,
                out@.len() == k,
                forall|j: int|
                    0 <= j < k ==> {
                        &&& is_scalar_tile(
                            (#[trigger] out@[j]).value(),
                            self.addr(base_idx as int, j) as u64,
                            8,
                            false,
                        )
                        &&& out@[j] is ValStop <==> self.view@[j].1 is Some
                        &&& out@[j].level() == self.level(j, in_stop)
                    },
            decreases self.view@.len() - k,
        {
            assert(self.addr(base_idx as int, k as int) <= u64::MAX);
            let tile = scalar_tile(base + self.view[k].0, 8, false);
            let elem = match self.view[k].1 {
                None => Elem::Val(tile),
                Some(level) => {
                    let stop: StopType = match in_stop {
                        Some(in_stop) if level == self.out_rank => in_stop + level,
                        _ => level,
                    };
                    Elem::ValStop(tile, stop)
                },
            };
            out.push(elem);
            k = k + 1;
        }
        out
    }
}

/// A view of `n` by one tiles with unit strides gives the addresses and stops
/// of an expert with `n` tiles.
pub proof fn law_expert_is_dyn_special_case(
    expert: ExpertAddrGen,
    general: DynAddrGen,
    n: usize,
    idx: int,
    k: int,
)
    requires
        n > 0,
        expert.num_tile_per_expert == n,
        is_view(seq![n, 1], seq![1, 1], seq![n, 1], general.view@),
        general.slab_tiles == n,
        general.addr_base == expert.expert_addr_base,
        general.out_rank == 2,
        0 <= k < n,
    ensures
        general.view@.len() == n,
        general.addr(idx, k) == expert.addr(idx, k),
        general.level(k, None) == expert.level(k),
{
    let shape: Seq<usize> = seq![n, 1];
    let stride: Seq<usize> = seq![1, 1];
    assert(shape.drop_last() =~= seq![n]);
    assert(stride.drop_last() =~= seq![1usize]);
    let outer: Seq<usize> = seq![n];
    let outer_stride: Seq<usize> = seq![1];
    assert(outer.drop_last() =~= Seq::<usize>::empty());
    assert(outer_stride.drop_last() =~= Seq::<usize>::empty());
    assert(product(Seq::<usize>::empty()) == 1);
    assert(outer.last() == n && outer_stride.last() == 1 && shape.last() == 1 && stride.last()
        == 1);
    assert(product(outer) == product(outer.drop_last()) * outer.last());
    assert(product(outer) == n);
    assert(product(shape) == product(shape.drop_last()) * shape.last());
    assert(product(shape) == n);
    assert(k / 1 == k && k % 1 == 0) by (nonlinear_arith);
    vstd::arithmetic::div_mod::lemma_small_mod(k as nat, n as nat);
    let none = Seq::<usize>::empty();
    assert(view_index(none, none, k / n as int) == 0);
    assert(view_index(outer, outer_stride, k) == view_index(
        outer.drop_last(),
        outer_stride.drop_last(),
        k / n as int,
    ) + (k % n as int) * 1);
    assert(view_index(shape, stride, k) == k);
    assert(stop_level(none, k / n as int) == 0);
    assert(stop_level(outer, k) == (if k == n - 1 {
        1int
    } else {
        0
    }));
    assert(stop_level(shape, k) == 1 + stop_level(outer, k));
    assert(general.view@[k].0 == k);
}

/// A view is walked inside a slab exactly as a load walks it: at every step
/// the address is that of the tile that the load reads, counted from the start
/// of the slab, and the same dimensions close.
pub proof fn law_view_walks_like_load<T>(
    general: DynAddrGen,
    load: OffChipLoad<T>,
    base_idx: int,
    k: int,
)
    requires
        is_view(
            load.tensor_shape_tiled@,
            load.stride@,
            load.out_shape_tiled@,
            general.view@,
        ),
        load.out_shape_tiled@.len() <= StopType::MAX,
        0 <= k < general.view@.len(),
    ensures
        general.addr(base_idx, k) == general.addr_base + base_idx * general.slab_tiles
            + load.tile_index(k),
        general.level(k, None) == stop_level(load.out_shape_tiled@, k),
{
    lemma_stop_level_bound(load.out_shape_tiled@, k);
}

/// Reading tile by tile at the indices of a view gives what a load of the same
/// view asks for: the same tiles at the same addresses, with the same stops.
pub proof fn law_view_reads_like_load<T>(
    general: DynAddrGen,
    random: RandomOffChipLoad<T>,
    load: OffChipLoad<T>,
    out: Seq<Elem<Tile<u64>>>,
    k: int,
    tile: Tile<T>,
)
    requires
        is_view(
            load.tensor_shape_tiled@,
            load.stride@,
            load.out_shape_tiled@,
            general.view@,
        ),
        general.addr_base == 0,
        general.is_walk(0, None, out),
        0 <= k < out.len(),
        product(load.tensor_shape_tiled@) > 0,
        load.out_shape_tiled@.len() <= StopType::MAX,
        random.tensor_shape_tiled@ == load.tensor_shape_tiled@,
        random.underlying == load.underlying,
        random.tile_row == load.tile_row,
        random.tile_col == load.tile_col,
        random.n_byte == load.n_byte,
        random.base_addr_byte == load.base_addr_byte,
        random.addr_offset == load.addr_offset,
        random.is_tile_data(out[k].value().at(0, 0) as int, tile),
    ensures
        carries_index(out[k].value()),
        out[k].value().at(0, 0) == load.tile_index(k),
        random.layout() == load.layout(),
        out[k].level() == stop_level(load.out_shape_tiled@, k),
        is_loaded_tile(
            load.underlying,
            load.tile_row,
            load.tile_col,
            load.n_byte,
            load.tile_index(k),
            tile,
        ),
{
    lemma_stop_level_bound(load.out_shape_tiled@, k);
    let tiles = product(load.tensor_shape_tiled@);
    assert(is_scalar_tile(out[k].value(), general.addr(0, k) as u64, 8, false));
    assert(general.addr(0, k) == general.view@[k].0) by {
        assert(0 * general.slab_tiles == 0);
    }
    vstd::arithmetic::div_mod::lemma_mod_bound(view_index(load.out_shape_tiled@, load.stride@, k), tiles);
}

/// Addresses of the first entries of a cache line: `seq_len` consecutive
/// addresses from `idx * offset_per_idx` on.
#[derive(Debug)]
pub struct CacheReadAddrGen {
    pub offset_per_idx: u64,
    pub id: u32,
}

/// The level that closes after a group for an element: one more than the
/// element closes.
pub open spec fn group_level<T>(e: Elem<T>) -> int {
    e.level() + 1
}

impl CacheReadAddrGen {
    /// The address of entry `i` of a line.
    pub open spec fn addr(self, idx: int, i: int) -> int {
        idx * self.offset_per_idx + i
    }

    /// Both streams have the same stops, carry values, and the line is not
    /// empty.
    pub open spec fn accepts(self, idx: Elem<Tile<u64>>, seq_len: Elem<Tile<u64>>) -> bool {
        &&& idx is Val <==> seq_len is Val
        &&& idx.level() == seq_len.level()
        &&& idx.level() < StopType::MAX
        &&& carries_index(idx.value())
        &&& carries_index(seq_len.value())
        &&& seq_len.value().at(0, 0) > 0
        &&& self.addr(idx.value().at(0, 0) as int, seq_len.value().at(0, 0) - 1) <= u64::MAX
    }

    pub fn new(offset_per_idx: u64, id: u32) -> (res: Self)
        ensures
            res == (CacheReadAddrGen { offset_per_idx, id }),
    {
        CacheReadAddrGen { offset_per_idx, id }
    }

    /// Sends the addresses of a line. The `i`-th leaves `i` cycles after the
    /// elements arrived, as the first component says.
    pub fn step(&self, idx: &Elem<Tile<u64>>, seq_len: &Elem<Tile<u64>>) -> (res: Vec<
        (u64, Elem<Tile<u64>>),
    >)
        requires
            self.accepts(*idx, *seq_len),
        ensures
            res@.len() == seq_len.value().at(0, 0),
            forall|i: int|
                0 <= i < res@.len() ==> {
                    &&& (#[trigger] res@[i]).0 == i
                    &&& is_scalar_tile(
                        res@[i].1.value(),
                        self.addr(idx.value().at(0, 0) as int, i) as u64,
                        8,
                        false,
                    )
                    &&& res@[i].1 is ValStop <==> i == res@.len() - 1
                    &&& res@[i].1 is ValStop ==> res@[i].1.level() == group_level(*idx)
                },
    {
        let (idx_tile, level) = match idx {
            Elem::Val(tile) => (tile, 0),
            Elem::ValStop(tile, s) => (tile, *s),
        };
        let len_tile = match seq_len {
            Elem::Val(tile) => tile,
            Elem::ValStop(tile, _) => tile,
        };
        let line: u64 = index_of(idx_tile);
        let count: u64 = index_of(len_tile);
        assert(line * self.offset_per_idx >= 0) by (nonlinear_arith)
            requires
                line >= 0,
                self.offset_per_idx >= 0,
        ;
        let first: u64 = line * self.offset_per_idx;
        let mut out: Vec<(u64, Elem<Tile<u64>>)> = Vec::new();
        let mut i: u64 = 0;
        while i < count
            invariant
                i <= count,
                first == self.addr(line as int, 0),
                self.addr(line as int, count - 1) <= u64::MAX,
                level < StopType::MAX,
                level == idx.level(),
                out@.len() == i,
                forall|k: int|
                    0 <= k < i ==> {
                        &&& (#[trigger] out@[k]).0 == k
                        &&& is_scalar_tile(
                            out@[k].1.value(),
                            self.addr(line as int, k) as u64,
                            8,
                            false,
                        )
                        &&& out@[k].1 is ValStop <==> k == count - 1
                        &&& out@[k].1 is ValStop ==> out@[k].1.level() == group_level(*idx)
                    },
            decreases count - i,
        {
            let tile = scalar_tile(first + i, 8, false);
            let elem = if i == count - 1 {
                Elem::ValStop(tile, level + 1)
            } else {
                Elem::Val(tile)
            };
            out.push((i, elem));
            i = i + 1;
        }
        out
    }
}

/// Selects, for each tile of a sequence, the second output; for the last one,
/// the first output.
#[derive(Debug)]
pub struct FilterLastTile {
    pub id: u32,
}

impl FilterLastTile {
    pub fn new(id: u32) -> (res: Self)
        ensures
            res == (FilterLastTile { id }),
    {
        FilterLastTile { id }
    }

    /// Sends the selections for a sequence, all in one cycle.
    pub fn step(&self, seq_len: &Elem<Tile<u64>>) -> (res: Vec<Elem<MultiHotN>>)
        requires
            carries_index(seq_len.value()),
            seq_len.value().at(0, 0) > 0,
            seq_len.level() < StopType::MAX,
        ensures
            res@.len() == seq_len.value().at(0, 0),
            forall|i: int|
                0 <= i < res@.len() ==> {
                    let last = i == res@.len() - 1;
                    &&& (#[trigger] res@[i]).value().underlying@ == seq![last, !last]
                    &&& !res@[i].value().read_from_mu
                    &&& res@[i] is ValStop <==> last
                    &&& res@[i] is ValStop ==> res@[i].level() == group_level(*seq_len)
                },
    {
        let (tile, level) = match seq_len {
            Elem::Val(tile) => (tile, 0),
            Elem::ValStop(tile, s) => (tile, *s),
        };
        let count: u64 = index_of(tile);
        let mut out: Vec<Elem<MultiHotN>> = Vec::new();
        let mut i: u64 = 0;
        while i < count
            invariant
                i <= count,
                level < StopType::MAX,
                level == seq_len.level(),
                out@.len() == i,
                forall|k: int|
                    0 <= k < i ==> {
                        let last = k == count - 1;
                        &&& (#[trigger] out@[k]).value().underlying@ == seq![last, !last]
                        &&& !out@[k].value().read_from_mu
                        &&& out@[k] is ValStop <==> last
                        &&& out@[k] is ValStop ==> out@[k].level() == group_level(*seq_len)
                    },
            decreases count - i,
        {
            let last = i == count - 1;
            let mut flags: Vec<bool> = Vec::new();
            flags.push(last);
            flags.push(!last);
            assert(flags@ =~= seq![last, !last]);
            let sel = MultiHotN::new(flags, false);
            let elem = if last {
                Elem::ValStop(sel, level + 1)
            } else {
                Elem::Val(sel)
            };
            out.push(elem);
            i = i + 1;
        }
        out
    }
}

/// The addresses of a line are consecutive, from the line's own start on, and
/// leave one per cycle. Only the last of them closes anything: one dimension
/// more than the index closes.
pub proof fn law_cache_line_is_walked(
    op: CacheReadAddrGen,
    idx: Elem<Tile<u64>>,
    seq_len: Elem<Tile<u64>>,
    res: Vec<(u64, Elem<Tile<u64>>)>,
    i: int,
)
    requires
        op.accepts(idx, seq_len),
        call_ensures(CacheReadAddrGen::step, (&op, &idx, &seq_len), res),
        0 <= i < res@.len(),
    ensures
        res@.len() == seq_len.value().at(0, 0),
        res@[i].0 == i,
        res@[i].1.value().at(0, 0) == idx.value().at(0, 0) * op.offset_per_idx + i,
        res@[i].1.value().shape == (1usize, 1usize),
        i < res@.len() - 1 ==> res@[i].1 is Val,
        i == res@.len() - 1 ==> res@[i].1 is ValStop && res@[i].1.level() == idx.level() + 1,
{
    let first = idx.value().at(0, 0) as int;
    assert(0 <= first * op.offset_per_idx) by (nonlinear_arith)
        requires
            first >= 0,
            op.offset_per_idx >= 0,
    ;
    assert(op.addr(first, i) <= op.addr(first, res@.len() - 1));
}

/// Walking lines of `n` addresses adds an innermost dimension: the addresses
/// for element `k` of a stream of some shape have the stops of the stream of
/// that shape followed by `n`.
pub proof fn law_cache_lines_add_dimension(
    op: CacheReadAddrGen,
    shape: Seq<usize>,
    n: usize,
    k: int,
    idx: Elem<Tile<u64>>,
    seq_len: Elem<Tile<u64>>,
    res: Vec<(u64, Elem<Tile<u64>>)>,
    i: int,
)
    requires
        op.accepts(idx, seq_len),
        call_ensures(CacheReadAddrGen::step, (&op, &idx, &seq_len), res),
        seq_len.value().at(0, 0) == n,
        k >= 0,
        idx.level() == stop_level(shape, k),
        0 <= i < n,
    ensures
        res@[i].1.level() == stop_level(shape.push(n), k * n + i),
{
    law_cache_line_is_walked(op, idx, seq_len, res, i);
    lemma_innermost_level(shape, n, k, i);
}

/// The stops of a shape with one more innermost dimension.
proof fn lemma_innermost_level(shape: Seq<usize>, n: usize, k: int, i: int)
    requires
        0 <= i < n,
    ensures
        stop_level(shape.push(n), k * n + i) == (if i == n - 1 {
            stop_level(shape, k) + 1
        } else {
            0
        }),
{
    let larger = shape.push(n);
    assert(larger.drop_last() =~= shape);
    vstd::arithmetic::div_mod::lemma_fundamental_div_mod_converse(k * n + i, n as int, k, i);
}

/// For a sequence the last selection names the first output and alone closes
/// something: one dimension more than the sequence does. All others name the
/// second output. So selecting adds an innermost dimension to a stream of some
/// shape, of which the sequence is element `k`.
pub proof fn law_last_tile_is_told_apart(
    op: FilterLastTile,
    shape: Seq<usize>,
    k: int,
    seq_len: Elem<Tile<u64>>,
    res: Vec<Elem<MultiHotN>>,
    i: int,
)
    requires
        call_ensures(FilterLastTile::step, (&op, &seq_len), res),
        seq_len.value().at(0, 0) <= usize::MAX,
        k >= 0,
        seq_len.level() == stop_level(shape, k),
        0 <= i < res@.len(),
    ensures
        res@.len() == seq_len.value().at(0, 0),
        res@[i].value().underlying@.len() == 2,
        res@[i].value().underlying@[0] <==> i == res@.len() - 1,
        res@[i].value().underlying@[1] <==> i < res@.len() - 1,
        res@[i] is ValStop <==> i == res@.len() - 1,
        res@[i] is ValStop ==> res@[i].level() == seq_len.level() + 1,
        res@[i].level() == stop_level(shape.push(res@.len() as usize), k * res@.len() + i),
{
    lemma_innermost_level(shape, res@.len() as usize, k, i);
}

/// The tiles of an expert lie behind each other, and those of the next expert
/// behind them. Every address closes the inner dimension, and the last one
/// closes the expert too.
pub proof fn law_expert_tiles_are_consecutive<S: SelectAdapter>(
    op: ExpertAddrGen,
    sel: Elem<S>,
    expert: int,
    res: Vec<Elem<Tile<u64>>>,
    i: int,
)
    requires
        call_ensures(ExpertAddrGen::step::<S>, (&op, &sel), res),
        0 <= expert < sel.value().flags().len(),
        forall|e: int|
            0 <= e < sel.value().flags().len() ==> (#[trigger] sel.value().flags()[e] <==> e
                == expert),
        op.expert_addr_base + (expert + 1) * op.num_tile_per_expert <= u64::MAX,
        0 <= i < res@.len(),
    ensures
        res@.len() == op.num_tile_per_expert,
        res@[i].value().at(0, 0) == op.expert_addr_base + expert * op.num_tile_per_expert + i,
        res@[i] is ValStop,
        res@[i].level() == (if i == res@.len() - 1 {
            2int
        } else {
            1
        }),
{
    let flags = sel.value().flags();
    lemma_sel_of_one(flags, expert, flags.len());
    assert((expert + 1) * op.num_tile_per_expert == expert * op.num_tile_per_expert
        + op.num_tile_per_expert && expert * op.num_tile_per_expert >= 0) by (nonlinear_arith)
        requires
            expert >= 0,
            op.num_tile_per_expert >= 0,
    ;
    assert(sel_vec(flags)[0] == expert);
    assert(is_scalar_tile(res@[i].value(), op.addr(expert, i) as u64, 8, false));
}

/// Of flags of which one is set, that one is selected.
proof fn lemma_sel_of_one(flags: Seq<bool>, input: int, n: nat)
    requires
        n <= flags.len(),
        0 <= input < flags.len(),
        forall|i: int| 0 <= i < flags.len() ==> (#[trigger] flags[i] <==> i == input),
    ensures
        selected(flags, n) == (if input < n {
            seq![input]
        } else {
            Seq::empty()
        }),
    decreases n,
{
    if n > 0 {
        lemma_sel_of_one(flags, input, (n - 1) as nat);
        assert(flags[n - 1] <==> n - 1 == input);
        assert(selected(flags, n) =~= if input < n {
            seq![input]
        } else {
            Seq::empty()
        });
    }
}

/// Cutting a tile: as many chunks leave as the rows or columns that are sent
/// fill, and only the last one carries a stop: that of the tile.
pub proof fn law_last_chunk_keeps_stop<T: Copy>(
    op: RetileStreamify,
    elem: Elem<Tile<T>>,
    res: Vec<Elem<Tile<T>>>,
    k: int,
)
    requires
        op.chunk > 0,
        call_ensures(RetileStreamify::step::<T>, (&op, &elem), res),
        0 <= k < res@.len(),
    ensures
        ({
            let data = elem.value();
            let extent = if op.split_row {
                data.shape.0 as int
            } else {
                data.shape.1 as int
            };
            let sent = if op.filter_mask && op.split_row && 0 < data.offset <= extent {
                data.offset as int
            } else {
                extent
            };
            &&& sent <= res@.len() * op.chunk < sent + op.chunk
            &&& res@[k] is ValStop <==> elem is ValStop && k == res@.len() - 1
            &&& res@[k] is ValStop ==> res@[k].level() == elem.level()
            &&& res@[k].value().read_from_mu == data.read_from_mu
            &&& res@[k].value().bytes_per_elem == data.bytes_per_elem
            &&& if op.split_row {
                &&& res@[k].value().shape.1 == data.shape.1
                &&& res@[k].value().shape.0 == (if (k + 1) * op.chunk <= extent {
                    op.chunk as int
                } else {
                    extent - k * op.chunk
                })
            } else {
                &&& res@[k].value().shape.0 == data.shape.0
                &&& res@[k].value().offset == data.offset
                &&& res@[k].value().shape.1 == (if (k + 1) * op.chunk <= extent {
                    op.chunk as int
                } else {
                    extent - k * op.chunk
                })
            }
        }),
{
    let chunk = op.chunk as int;
    let data = elem.value();
    let extent = op.extent(data);
    let sent = if op.filter_mask && op.split_row && 0 < data.offset <= extent {
        data.offset as int
    } else {
        extent
    };
    lemma_ceil_div(sent, chunk);
    let n = res@.len() as int;
    assert((k + 1) * chunk == k * chunk + chunk && 0 <= k * chunk < sent) by (nonlinear_arith)
        requires
            0 <= k < n,
            n * chunk < sent + chunk,
            chunk > 0,
    ;
    assert(op.is_chunk(data, k, res@[k].value()));
}

/// A view that has been made for a slab and walked for an input element: the
/// addresses lie in the slab that the element names, and the whole view closes
/// once more what the element closes.
pub proof fn law_view_stays_in_slab<I: DynAddrBase>(
    tensor_shape_tiled: Vec<usize>,
    stride: Vec<usize>,
    out_shape_tiled: Vec<usize>,
    addr_base: u64,
    id: u32,
    op: DynAddrGen,
    elem: Elem<I>,
    res: Vec<Elem<Tile<u64>>>,
    k: int,
)
    requires
        call_ensures(
            DynAddrGen::new,
            (&tensor_shape_tiled, &stride, &out_shape_tiled, addr_base, id),
            op,
        ),
        positive(out_shape_tiled@),
        0 < out_shape_tiled@.len() <= StopType::MAX,
        product(tensor_shape_tiled@) > 0,
        elem.value().base_idx() >= 0,
        op.fits(elem.value().base_idx(), stop_option(elem)),
        call_ensures(DynAddrGen::step::<I>, (&op, &elem), res),
        0 <= k < res@.len(),
    ensures
        ({
            let tiles = product(tensor_shape_tiled@);
            let start = addr_base + elem.value().base_idx() * tiles;
            let level = stop_level(out_shape_tiled@, k);
            &&& res@.len() == product(out_shape_tiled@)
            &&& start <= res@[k].value().at(0, 0) < start + tiles
            &&& res@[k].value().at(0, 0) == start + view_index(out_shape_tiled@, stride@, k) % tiles
            &&& res@[k].level() == level + (if k == res@.len() - 1 {
                elem.level()
            } else {
                0
            })
        }),
{
    let tiles = product(tensor_shape_tiled@);
    let shape = out_shape_tiled@;
    lemma_stop_level_bound(shape, k);
    lemma_product_nonneg(shape);
    vstd::arithmetic::div_mod::lemma_mod_bound(view_index(shape, stride@, k), tiles);
    let base = elem.value().base_idx();
    assert(base * op.slab_tiles >= 0) by (nonlinear_arith)
        requires
            base >= 0,
            op.slab_tiles >= 0,
    ;
    assert(op.addr(base, k) <= u64::MAX);
    assert(is_scalar_tile(res@[k].value(), op.addr(base, k) as u64, 8, false));
    // Only the last step closes the whole view.
    law_stop_level(shape, k, shape.len() as int);
    assert(shape.skip(0) =~= shape);
    let n = product(shape);
    if k == n - 1 {
        vstd::arithmetic::div_mod::lemma_mod_self_0(n);
    } else {
        vstd::arithmetic::div_mod::lemma_small_mod((k + 1) as nat, n as nat);
    }
}

} // verus!
