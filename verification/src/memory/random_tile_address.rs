//! Byte addresses of single tiles of a row-major allocation.

use vstd::arithmetic::div_mod::lemma_fundamental_div_mod;
use vstd::prelude::*;

use crate::memory::requests::walks_rows;
use crate::memory::tile_base;
use crate::utils::calculation::{ceil_div, lemma_ceil_div};
use crate::utils::indexing::{lemma_product_nonneg, product};

verus! {

#[derive(Debug, PartialEq, Eq, Clone, Copy)]
pub enum RandomTileAddressError {
    Rank(usize),
    ZeroGeometry,
    ZeroAddressIncrement,
    OutOfBounds { index: u64, tile_count: u64 },
    Overflow,
}

fn checked_mul(lhs: u64, rhs: u64) -> (res: Result<u64, RandomTileAddressError>)
    ensures
        res == (if lhs * rhs <= u64::MAX {
            Ok((lhs * rhs) as u64)
        } else {
            Err(RandomTileAddressError::Overflow)
        }),
{
    match lhs.checked_mul(rhs) {
        Some(value) => Ok(value),
        None => Err(RandomTileAddressError::Overflow),
    }
}

fn checked_add(lhs: u64, rhs: u64) -> (res: Result<u64, RandomTileAddressError>)
    ensures
        res == (if lhs + rhs <= u64::MAX {
            Ok((lhs + rhs) as u64)
        } else {
            Err(RandomTileAddressError::Overflow)
        }),
{
    match lhs.checked_add(rhs) {
        Some(value) => Ok(value),
        None => Err(RandomTileAddressError::Overflow),
    }
}

/// A tile of an allocation: its index, its geometry, and how it is requested.
pub struct TileRequest {
    pub grid_cols: int,
    pub grid_rows: int,
    pub tile_idx: int,
    pub tile_row: int,
    pub tile_col: int,
    pub n_byte: int,
    pub base: int,
    pub step: int,
}

impl TileRequest {
    /// Bytes in a row of the tile.
    pub open spec fn row_bytes(self) -> int {
        self.tile_col * self.n_byte
    }

    /// Bytes in a row of the allocation.
    pub open spec fn pitch(self) -> int {
        self.grid_cols * self.row_bytes()
    }

    /// The row of the allocation in which the tile begins.
    pub open spec fn first_row(self) -> int {
        (self.tile_idx / self.grid_cols) * self.tile_row
    }

    /// Where the tile begins in a row of the allocation.
    pub open spec fn first_byte(self) -> int {
        (self.tile_idx % self.grid_cols) * self.row_bytes()
    }

    /// Requests for each row.
    pub open spec fn per_row(self) -> int {
        ceil_div(self.row_bytes(), self.step)
    }

    /// The address at which row `r` of the tile begins.
    pub open spec fn row_addr(self, r: int) -> int {
        self.base + (self.first_row() + r) * self.pitch() + self.first_byte()
    }

    /// All addresses, row by row.
    pub open spec fn addrs(self) -> Seq<u64> {
        Seq::new(
            (self.tile_row * self.per_row()) as nat,
            |i: int| (self.row_addr(i / self.per_row()) + (i % self.per_row()) * self.step) as u64,
        )
    }

    /// Neither the last address nor anything on the way to it, the step past
    /// the end of a row included, exceeds 64 bits.
    pub open spec fn fits(self) -> bool {
        &&& self.pitch() <= u64::MAX
        &&& self.grid_rows * self.tile_row <= u64::MAX
        &&& self.first_row() + self.tile_row - 1 <= u64::MAX
        &&& self.row_addr(self.tile_row - 1) + (self.per_row() - 1) * self.step <= u64::MAX
        &&& self.per_row() * self.step <= u64::MAX
    }

    /// The request is for a tile of the allocation, and nothing is empty.
    pub open spec fn wf(self) -> bool {
        &&& self.grid_cols > 0
        &&& self.grid_rows > 0
        &&& self.tile_idx >= 0
        &&& self.tile_row > 0
        &&& self.tile_col > 0
        &&& self.n_byte > 0
        &&& self.base >= 0
        &&& self.step > 0
    }
}

/// Counting the tiles of a shape dimension by dimension stays below 64 bits.
pub open spec fn tile_count_fits(shape: Seq<usize>) -> bool {
    forall|k: int| 0 <= k <= shape.len() ==> #[trigger] product(shape.take(k)) <= u64::MAX
}

/// The request for one tile of an allocation.
pub open spec fn request_of(
    shape: Seq<usize>,
    tile_idx: u64,
    tile_row: usize,
    tile_col: usize,
    n_byte: usize,
    base_addr_byte: u64,
    addr_offset: u64,
) -> TileRequest {
    TileRequest {
        grid_cols: shape[shape.len() - 1] as int,
        grid_rows: shape[shape.len() - 2] as int,
        tile_idx: tile_idx as int,
        tile_row: tile_row as int,
        tile_col: tile_col as int,
        n_byte: n_byte as int,
        base: base_addr_byte as int,
        step: addr_offset as int,
    }
}

/// The addresses of a tile, or the first reason for which there are none.
pub open spec fn byte_addresses(
    shape: Seq<usize>,
    tile_idx: u64,
    tile_row: usize,
    tile_col: usize,
    n_byte: usize,
    base_addr_byte: u64,
    addr_offset: u64,
) -> Result<Seq<u64>, RandomTileAddressError> {
    let request = request_of(
        shape,
        tile_idx,
        tile_row,
        tile_col,
        n_byte,
        base_addr_byte,
        addr_offset,
    );
    if shape.len() < 2 {
        Err(RandomTileAddressError::Rank(shape.len() as usize))
    } else if tile_row == 0 || tile_col == 0 || n_byte == 0 {
        Err(RandomTileAddressError::ZeroGeometry)
    } else if addr_offset == 0 {
        Err(RandomTileAddressError::ZeroAddressIncrement)
    } else if !tile_count_fits(shape) {
        Err(RandomTileAddressError::Overflow)
    } else if tile_idx >= product(shape) {
        Err(
            RandomTileAddressError::OutOfBounds {
                index: tile_idx,
                tile_count: product(shape) as u64,
            },
        )
    } else if !request.fits() {
        Err(RandomTileAddressError::Overflow)
    } else {
        Ok(request.addrs())
    }
}

fn count_tiles(shape: &[usize]) -> (res: Result<u64, RandomTileAddressError>)
    ensures
        res == (if tile_count_fits(shape@) {
            Ok(product(shape@) as u64)
        } else {
            Err(RandomTileAddressError::Overflow)
        }),
        res is Ok ==> res->Ok_0 == product(shape@),
{
    let mut count: u64 = 1;
    let mut i: usize = 0;
    while i < shape.len()
        invariant
            i <= shape@.len(),
            count == product(shape@.take(i as int)),
            forall|k: int| 0 <= k <= i ==> #[trigger] product(shape@.take(k)) <= u64::MAX,
        decreases shape@.len() - i,
    {
        proof {
            assert(shape@.take(i + 1).drop_last() =~= shape@.take(i as int));
            lemma_product_nonneg(shape@.take(i + 1));
        }
        match checked_mul(count, shape[i] as u64) {
            Ok(next) => {
                count = next;
            },
            Err(error) => {
                return Err(error);
            },
        }
        i = i + 1;
    }
    assert(shape@.take(i as int) =~= shape@);
    Ok(count)
}

/// Where a tile index lies: slab by slab, then row by row.
proof fn lemma_slab(idx: int, grid_rows: int, grid_cols: int)
    requires
        idx >= 0,
        grid_rows > 0,
        grid_cols > 0,
    ensures
        ({
            let slab = idx / (grid_rows * grid_cols);
            let within = idx % (grid_rows * grid_cols);
            &&& slab * grid_rows + within / grid_cols == idx / grid_cols
            &&& within % grid_cols == idx % grid_cols
            &&& slab >= 0
            &&& within >= 0
            &&& within / grid_cols >= 0
        }),
{
    let slab_size = grid_rows * grid_cols;
    assert(slab_size == grid_cols * grid_rows && slab_size > 0) by (nonlinear_arith)
        requires
            slab_size == grid_rows * grid_cols,
            grid_rows > 0,
            grid_cols > 0,
    ;
    let slab = idx / slab_size;
    let within = idx % slab_size;
    let row = idx / grid_cols;
    vstd::arithmetic::div_mod::lemma_div_denominator(idx, grid_cols, grid_rows);
    assert(slab == row / grid_rows);
    vstd::arithmetic::div_mod::lemma_mod_breakdown(idx, grid_cols, grid_rows);
    assert(within == grid_cols * (row % grid_rows) + idx % grid_cols);
    assert(grid_cols * (row % grid_rows) == (row % grid_rows) * grid_cols) by (nonlinear_arith);
    vstd::arithmetic::div_mod::lemma_fundamental_div_mod_converse(
        within,
        grid_cols,
        row % grid_rows,
        idx % grid_cols,
    );
    lemma_fundamental_div_mod(row, grid_rows);
    assert(slab * grid_rows == grid_rows * slab) by (nonlinear_arith);
    assert(row >= 0 && slab >= 0) by (nonlinear_arith)
        requires
            row == idx / grid_cols,
            slab == row / grid_rows,
            idx >= 0,
            grid_cols > 0,
            grid_rows > 0,
    ;
}

/// Addresses grow with the row.
proof fn lemma_row_addr_grows(request: TileRequest, r: int)
    requires
        request.wf(),
        0 <= r < request.tile_row,
    ensures
        request.row_bytes() > 0,
        request.pitch() >= request.row_bytes(),
        request.first_row() >= 0,
        0 <= request.first_byte() <= request.pitch(),
        request.per_row() > 0,
        (request.first_row() + r) * request.pitch() >= 0,
        request.row_addr(r) <= request.row_addr(request.tile_row - 1),
        (request.per_row() - 1) * request.step >= 0,
{
    let row_bytes = request.row_bytes();
    let pitch = request.pitch();
    let row = request.tile_idx / request.grid_cols;
    let col = request.tile_idx % request.grid_cols;
    lemma_fundamental_div_mod(request.tile_idx, request.grid_cols);
    assert(row_bytes > 0) by (nonlinear_arith)
        requires
            row_bytes == request.tile_col * request.n_byte,
            request.tile_col > 0,
            request.n_byte > 0,
    ;
    assert(pitch >= row_bytes) by (nonlinear_arith)
        requires
            pitch == request.grid_cols * row_bytes,
            request.grid_cols > 0,
            row_bytes > 0,
    ;
    assert(row >= 0) by (nonlinear_arith)
        requires
            row == request.tile_idx / request.grid_cols,
            request.tile_idx >= 0,
            request.grid_cols > 0,
    ;
    let first = request.first_row();
    assert(first >= 0) by (nonlinear_arith)
        requires
            first == row * request.tile_row,
            row >= 0,
            request.tile_row > 0,
    ;
    assert(0 <= col * row_bytes <= request.grid_cols * row_bytes) by (nonlinear_arith)
        requires
            0 <= col < request.grid_cols,
            row_bytes > 0,
    ;
    let last = request.tile_row - 1;
    assert(0 <= (first + r) * pitch <= (first + last) * pitch) by (nonlinear_arith)
        requires
            0 <= first,
            0 <= r <= last,
            pitch > 0,
    ;
    lemma_ceil_div(row_bytes, request.step);
    assert((request.per_row() - 1) * request.step >= 0) by (nonlinear_arith)
        requires
            request.per_row() > 0,
            request.step > 0,
    ;
}

/// Translates one row-major tile index into the byte addresses of its
/// requests.
///
/// Leading allocation dimensions form consecutive two-dimensional slabs. The
/// last two dimensions are the tile-row and tile-column grid. A tile with more
/// than one row therefore issues each row at the allocation's physical row
/// stride instead of treating the whole tile as one contiguous byte interval.
pub fn random_tile_byte_addresses(
    tensor_shape_tiled: &[usize],
    tile_idx: u64,
    tile_row: usize,
    tile_col: usize,
    n_byte: usize,
    base_addr_byte: u64,
    addr_offset: u64,
) -> (res: Result<Vec<u64>, RandomTileAddressError>)
    ensures
        match byte_addresses(
            tensor_shape_tiled@,
            tile_idx,
            tile_row,
            tile_col,
            n_byte,
            base_addr_byte,
            addr_offset,
        ) {
            Ok(addrs) => res is Ok && res->Ok_0@ == addrs,
            Err(error) => res == Err::<Vec<u64>, RandomTileAddressError>(error),
        },
{
    let rank: usize = tensor_shape_tiled.len();
    if rank < 2 {
        return Err(RandomTileAddressError::Rank(rank));
    }
    if tile_row == 0 || tile_col == 0 || n_byte == 0 {
        return Err(RandomTileAddressError::ZeroGeometry);
    }
    if addr_offset == 0 {
        return Err(RandomTileAddressError::ZeroAddressIncrement);
    }
    let tile_count: u64 = count_tiles(tensor_shape_tiled)?;
    if tile_idx >= tile_count {
        return Err(RandomTileAddressError::OutOfBounds { index: tile_idx, tile_count });
    }
    let grid_rows: u64 = tensor_shape_tiled[rank - 2] as u64;
    let grid_cols: u64 = tensor_shape_tiled[rank - 1] as u64;
    let ghost request = request_of(
        tensor_shape_tiled@,
        tile_idx,
        tile_row,
        tile_col,
        n_byte,
        base_addr_byte,
        addr_offset,
    );
    proof {
        let shape = tensor_shape_tiled@;
        lemma_product_nonneg(shape);
        assert(shape[rank - 2] > 0 && shape[rank - 1] > 0);
        let outer = shape.drop_last();
        lemma_product_nonneg(outer.drop_last());
        lemma_product_nonneg(outer);
        assert(outer.last() == shape[rank - 2]);
        let lead = product(outer.drop_last());
        assert forall|i: int| 0 <= i < outer.drop_last().len() implies #[trigger] outer.drop_last()[i]
            > 0 by {
            assert(shape[i] > 0);
        }
        assert(lead * grid_rows * grid_cols == product(shape));
        assert(grid_rows * grid_cols <= lead * grid_rows * grid_cols) by (nonlinear_arith)
            requires
                lead >= 1,
                grid_rows > 0,
                grid_cols > 0,
        ;
        assert(grid_rows * grid_cols > 0) by (nonlinear_arith)
            requires
                grid_rows > 0,
                grid_cols > 0,
        ;
        lemma_slab(tile_idx as int, grid_rows as int, grid_cols as int);
        lemma_row_addr_grows(request, 0);
        lemma_row_addr_grows(request, tile_row - 1);
    }
    let tiles_per_slab: u64 = checked_mul(grid_rows, grid_cols)?;
    let slab_idx: u64 = tile_idx / tiles_per_slab;
    let within_slab: u64 = tile_idx % tiles_per_slab;
    let tile_grid_row: u64 = within_slab / grid_cols;
    let tile_grid_col: u64 = within_slab % grid_cols;
    let rows: u64 = tile_row as u64;
    let tile_row_bytes: u64 = checked_mul(tile_col as u64, n_byte as u64)?;
    let physical_row_bytes: u64 = checked_mul(grid_cols, tile_row_bytes)?;
    let physical_rows_per_slab: u64 = checked_mul(grid_rows, rows)?;
    proof {
        let row = tile_idx as int / grid_cols as int;
        assert(slab_idx * physical_rows_per_slab + tile_grid_row * tile_row == row * tile_row
            && slab_idx * physical_rows_per_slab >= 0 && tile_grid_row * tile_row >= 0)
            by (nonlinear_arith)
            requires
                physical_rows_per_slab == grid_rows * tile_row,
                slab_idx * grid_rows + tile_grid_row == row,
                slab_idx >= 0,
                physical_rows_per_slab >= 0,
                tile_grid_row >= 0,
                tile_row >= 0,
                rows == tile_row,
        ;
    }
    let slab_row: u64 = checked_mul(slab_idx, physical_rows_per_slab)?;
    let grid_row: u64 = checked_mul(tile_grid_row, rows)?;
    let first_physical_row: u64 = checked_add(slab_row, grid_row)?;
    let first_col_byte: u64 = checked_mul(tile_grid_col, tile_row_bytes)?;
    let mut addresses: Vec<u64> = Vec::new();
    let mut row: u64 = 0;
    while row < rows
        invariant
            request == request_of(
                tensor_shape_tiled@,
                tile_idx,
                tile_row,
                tile_col,
                n_byte,
                base_addr_byte,
                addr_offset,
            ),
            request.wf(),
            tile_row == request.tile_row,
            rows == tile_row,
            row <= rows,
            tile_row_bytes == request.row_bytes(),
            physical_row_bytes == request.pitch(),
            request.grid_rows * request.tile_row <= u64::MAX,
            first_physical_row == request.first_row(),
            first_col_byte == request.first_byte(),
            base_addr_byte == request.base,
            addr_offset == request.step,
            byte_addresses(
                tensor_shape_tiled@,
                tile_idx,
                tile_row,
                tile_col,
                n_byte,
                base_addr_byte,
                addr_offset,
            ) == (if request.fits() {
                Ok(request.addrs())
            } else {
                Err(RandomTileAddressError::Overflow)
            }),
            addresses@.len() == row * request.per_row(),
            forall|i: int|
                0 <= i < addresses@.len() ==> #[trigger] addresses@[i] == request.row_addr(
                    i / request.per_row(),
                ) + (i % request.per_row()) * request.step,
            row > 0 ==> {
                &&& request.first_row() + row - 1 <= u64::MAX
                &&& request.row_addr(row - 1) + (request.per_row() - 1) * request.step <= u64::MAX
                &&& request.per_row() * request.step <= u64::MAX
            },
        decreases rows - row,
    {
        proof {
            lemma_row_addr_grows(request, row as int);
        }
        let physical_row: u64 = checked_add(first_physical_row, row)?;
        let row_start: u64 = checked_mul(physical_row, physical_row_bytes)?;
        let offset: u64 = checked_add(row_start, first_col_byte)?;
        let row_addr: u64 = checked_add(base_addr_byte, offset)?;
        let mut col_byte: u64 = 0;
        let ghost mut k: int = 0;
        proof {
            lemma_ceil_div(tile_row_bytes as int, addr_offset as int);
        }
        while col_byte < tile_row_bytes
            invariant
                request.wf(),
                tile_row == request.tile_row,
            rows == tile_row,
                row < rows,
                tile_row_bytes == request.row_bytes(),
                row_addr == request.row_addr(row as int),
                addr_offset == request.step,
                request.row_addr(row as int) <= request.row_addr(request.tile_row - 1),
                request.per_row() == ceil_div(tile_row_bytes as int, addr_offset as int),
                request.per_row() > 0,
                tile_row_bytes <= request.per_row() * addr_offset < tile_row_bytes + addr_offset,
                byte_addresses(
                    tensor_shape_tiled@,
                    tile_idx,
                    tile_row,
                    tile_col,
                    n_byte,
                    base_addr_byte,
                    addr_offset,
                ) == (if request.fits() {
                    Ok(request.addrs())
                } else {
                    Err(RandomTileAddressError::Overflow)
                }),
                0 <= k <= request.per_row(),
                col_byte == k * addr_offset,
                addresses@.len() == row * request.per_row() + k,
                forall|i: int|
                    0 <= i < addresses@.len() ==> #[trigger] addresses@[i] == request.row_addr(
                        i / request.per_row(),
                    ) + (i % request.per_row()) * request.step,
                k > 0 ==> row_addr + (k - 1) * addr_offset <= u64::MAX,
            decreases tile_row_bytes + addr_offset - col_byte,
        {
            proof {
                let n = request.per_row();
                assert(k < n) by (nonlinear_arith)
                    requires
                        k * addr_offset < tile_row_bytes,
                        tile_row_bytes <= n * addr_offset,
                        addr_offset > 0,
                ;
                assert(k * addr_offset <= (n - 1) * addr_offset && (k + 1) * addr_offset <= n
                    * addr_offset && (k + 1) * addr_offset == k * addr_offset + addr_offset)
                    by (nonlinear_arith)
                    requires
                        k <= n - 1,
                        addr_offset > 0,
                ;
                vstd::arithmetic::div_mod::lemma_fundamental_div_mod_converse(
                    row * n + k,
                    n,
                    row as int,
                    k,
                );
            }
            let addr: u64 = checked_add(row_addr, col_byte)?;
            addresses.push(addr);
            col_byte = checked_add(col_byte, addr_offset)?;
            proof {
                k = k + 1;
            }
        }
        proof {
            let n = request.per_row();
            assert(k == n) by (nonlinear_arith)
                requires
                    k <= n,
                    k * addr_offset >= tile_row_bytes,
                    n * addr_offset < tile_row_bytes + addr_offset,
                    addr_offset > 0,
            ;
            assert(row * n + n == (row + 1) * n) by (nonlinear_arith);
        }
        row = row + 1;
    }
    assert(addresses@ =~= request.addrs());
    Ok(addresses)
}

/// The first address of a tile is the base address plus the tile's offset in
/// the row-major tensor.
pub proof fn law_first_address(
    shape: Seq<usize>,
    tile_idx: u64,
    tile_row: usize,
    tile_col: usize,
    n_byte: usize,
    base_addr_byte: u64,
    addr_offset: u64,
)
    requires
        byte_addresses(
            shape,
            tile_idx,
            tile_row,
            tile_col,
            n_byte,
            base_addr_byte,
            addr_offset,
        ) is Ok,
    ensures
        ({
            let addrs = byte_addresses(
                shape,
                tile_idx,
                tile_row,
                tile_col,
                n_byte,
                base_addr_byte,
                addr_offset,
            )->Ok_0;
            &&& addrs.len() > 0
            &&& addrs[0] == base_addr_byte + tile_base(
                tile_idx as int,
                shape.last() as int,
                tile_row as int,
                tile_col as int,
                n_byte as int,
            )
        }),
{
    let request = request_of(
        shape,
        tile_idx,
        tile_row,
        tile_col,
        n_byte,
        base_addr_byte,
        addr_offset,
    );
    lemma_product_nonneg(shape);
    assert(shape[shape.len() - 1] > 0 && shape[shape.len() - 2] > 0);
    lemma_row_addr_grows(request, 0);
    let n = request.per_row();
    assert(tile_row * n > 0) by (nonlinear_arith)
        requires
            tile_row > 0,
            n > 0,
    ;
    assert(0int / n == 0 && 0int % n == 0) by (nonlinear_arith)
        requires
            n > 0,
    ;
    let row = tile_idx as int / request.grid_cols;
    let col = tile_idx as int % request.grid_cols;
    assert((row * request.tile_row) * (request.grid_cols * (request.tile_col * request.n_byte))
        + col * (request.tile_col * request.n_byte) == (row * request.tile_row * request.grid_cols
        + col) * request.tile_col * request.n_byte) by (nonlinear_arith);
    assert(0 * request.step == 0);
}

/// Different tiles of an allocation share no address.
pub proof fn law_tiles_are_disjoint(a: TileRequest, b: TileRequest, i: int, j: int)
    requires
        a.wf(),
        a.fits(),
        b.fits(),
        b.tile_idx >= 0,
        b == (TileRequest { tile_idx: b.tile_idx, ..a }),
        a.tile_idx != b.tile_idx,
        0 <= i < a.addrs().len(),
        0 <= j < b.addrs().len(),
    ensures
        a.addrs()[i] != b.addrs()[j],
{
    lemma_address_names_tile(a, i);
    lemma_address_names_tile(b, j);
}

/// The tile can be read off each of its addresses.
proof fn lemma_address_names_tile(request: TileRequest, i: int)
    requires
        request.wf(),
        request.fits(),
        0 <= i < request.addrs().len(),
    ensures
        request.tile_idx == (((request.addrs()[i] - request.base) / request.pitch())
            / request.tile_row) * request.grid_cols + ((request.addrs()[i] - request.base)
            % request.pitch()) / request.row_bytes(),
{
    let n = request.per_row();
    let row_bytes = request.row_bytes();
    let pitch = request.pitch();
    lemma_row_addr_grows(request, 0);
    crate::primitives::array::lemma_cell_of_position(i, request.tile_row, n);
    let r = i / n;
    let k = i % n;
    lemma_row_addr_grows(request, r);
    lemma_ceil_div(row_bytes, request.step);
    let row = request.tile_idx / request.grid_cols;
    let col = request.tile_idx % request.grid_cols;
    lemma_fundamental_div_mod(request.tile_idx, request.grid_cols);
    assert(0 <= k * request.step <= (n - 1) * request.step && (n - 1) * request.step == n
        * request.step - request.step) by (nonlinear_arith)
        requires
            0 <= k <= n - 1,
            request.step > 0,
    ;
    let within = col * row_bytes + k * request.step;
    assert(0 <= within < pitch) by (nonlinear_arith)
        requires
            within == col * row_bytes + k * request.step,
            0 <= k * request.step < row_bytes,
            0 <= col <= request.grid_cols - 1,
            pitch == request.grid_cols * row_bytes,
    ;
    let first = request.first_row();
    let offset = request.addrs()[i] - request.base;
    assert(offset == (first + r) * pitch + within);
    vstd::arithmetic::div_mod::lemma_fundamental_div_mod_converse(
        offset,
        pitch,
        first + r,
        within,
    );
    vstd::arithmetic::div_mod::lemma_fundamental_div_mod_converse(
        within,
        row_bytes,
        col,
        k * request.step,
    );
    vstd::arithmetic::div_mod::lemma_fundamental_div_mod_converse(
        first + r,
        request.tile_row,
        row,
        r,
    );
    assert(request.grid_cols * row == row * request.grid_cols) by (nonlinear_arith);
}

/// Which multiple of the step, counted from the base, the `j`-th address of
/// tile `t` is, in an allocation with `cols` tiles beside each other of `rows`
/// rows with `n` addresses each.
pub open spec fn address_number(cols: int, rows: int, n: int, t: int, j: int) -> int {
    ((t / cols) * rows + j / n) * (cols * n) + ((t % cols) * n + j % n)
}

/// The tile that holds the `k`-th multiple of the step.
pub open spec fn tile_with(cols: int, rows: int, n: int, k: int) -> int {
    ((k / (cols * n)) / rows) * cols + (k % (cols * n)) / n
}

/// Where in its tile the `k`-th multiple of the step is.
pub open spec fn place_in_tile(cols: int, rows: int, n: int, k: int) -> int {
    ((k / (cols * n)) % rows) * n + (k % (cols * n)) % n
}

/// A number that is put together from a quotient and a remainder.
proof fn lemma_composed(q: int, d: int, r: int)
    requires
        0 <= r < d,
    ensures
        (q * d + r) / d == q,
        (q * d + r) % d == r,
{
    vstd::arithmetic::div_mod::lemma_fundamental_div_mod_converse(q * d + r, d, q, r);
}

/// Every address of a tile has its number, from which the tile and the place
/// can be read off.
proof fn lemma_number_of_address(grid: int, cols: int, rows: int, n: int, t: int, j: int)
    requires
        grid >= 0,
        cols > 0,
        rows > 0,
        n > 0,
        0 <= t < grid * cols,
        0 <= j < rows * n,
    ensures
        ({
            let k = address_number(cols, rows, n, t, j);
            &&& 0 <= k < (grid * rows) * (cols * n)
            &&& tile_with(cols, rows, n, k) == t
            &&& place_in_tile(cols, rows, n, k) == j
        }),
{
    lemma_fundamental_div_mod(t, cols);
    lemma_fundamental_div_mod(j, n);
    crate::primitives::array::lemma_cell_of_position(t, grid, cols);
    crate::primitives::array::lemma_cell_of_position(j, rows, n);
    let a = t / cols;
    let b = t % cols;
    let r = j / n;
    let c = j % n;
    crate::primitives::array::lemma_cell_in_bounds(a, r, grid, rows);
    crate::primitives::array::lemma_cell_in_bounds(b, c, cols, n);
    let x = a * rows + r;
    let y = b * n + c;
    crate::primitives::array::lemma_cell_in_bounds(x, y, grid * rows, cols * n);
    lemma_composed(x, cols * n, y);
    lemma_composed(b, n, c);
    lemma_composed(a, rows, r);
    assert(a * cols == cols * a && r * n == n * r) by (nonlinear_arith);
}

/// Every number is that of an address of some tile.
proof fn lemma_address_of_number(grid: int, cols: int, rows: int, n: int, k: int)
    requires
        cols > 0,
        rows > 0,
        n > 0,
        grid >= 0,
        0 <= k < (grid * rows) * (cols * n),
    ensures
        ({
            let t = tile_with(cols, rows, n, k);
            let j = place_in_tile(cols, rows, n, k);
            &&& 0 <= t < grid * cols
            &&& 0 <= j < rows * n
            &&& address_number(cols, rows, n, t, j) == k
        }),
{
    assert(cols * n > 0) by (nonlinear_arith)
        requires
            cols > 0,
            n > 0,
    ;
    crate::primitives::array::lemma_cell_of_position(k, grid * rows, cols * n);
    let x = k / (cols * n);
    let y = k % (cols * n);
    crate::primitives::array::lemma_cell_of_position(x, grid, rows);
    crate::primitives::array::lemma_cell_of_position(y, cols, n);
    lemma_fundamental_div_mod(k, cols * n);
    lemma_fundamental_div_mod(x, rows);
    lemma_fundamental_div_mod(y, n);
    crate::primitives::array::lemma_cell_in_bounds(x / rows, y / n, grid, cols);
    crate::primitives::array::lemma_cell_in_bounds(x % rows, y % n, rows, n);
    lemma_composed(x / rows, cols, y / n);
    lemma_composed(x % rows, n, y % n);
    assert((x / rows) * rows == rows * (x / rows) && (y / n) * n == n * (y / n) && x * (cols * n)
        == (cols * n) * x) by (nonlinear_arith);
}

/// An address of a tile whose rows are whole numbers of requests.
proof fn lemma_numbered_address(request: TileRequest, j: int)
    requires
        request.wf(),
        request.fits(),
        request.row_bytes() % request.step == 0,
        0 <= j < request.addrs().len(),
    ensures
        request.per_row() * request.step == request.row_bytes(),
        request.per_row() > 0,
        request.addrs()[j] == request.base + address_number(
            request.grid_cols,
            request.tile_row,
            request.per_row(),
            request.tile_idx,
            j,
        ) * request.step,
{
    let n = request.per_row();
    let cols = request.grid_cols;
    let step = request.step;
    let row_bytes = request.row_bytes();
    lemma_row_addr_grows(request, 0);
    lemma_ceil_div(row_bytes, step);
    lemma_fundamental_div_mod(row_bytes, step);
    let q = row_bytes / step;
    assert(n == q) by (nonlinear_arith)
        requires
            row_bytes == step * q,
            row_bytes <= n * step < row_bytes + step,
            step > 0,
    ;
    assert(n * step == row_bytes) by (nonlinear_arith)
        requires
            row_bytes == step * q,
            n == q,
    ;
    crate::primitives::array::lemma_cell_of_position(j, request.tile_row, n);
    let r = j / n;
    let c = j % n;
    lemma_row_addr_grows(request, r);
    let x = request.first_row() + r;
    let b = request.tile_idx % cols;
    lemma_factor_step(x, cols, n, step, b, c);
    assert(0 <= c * step <= (n - 1) * step) by (nonlinear_arith)
        requires
            0 <= c <= n - 1,
            step > 0,
    ;
}

proof fn lemma_factor_step(x: int, cols: int, n: int, step: int, b: int, c: int)
    ensures
        x * (cols * (n * step)) + b * (n * step) + c * step == (x * (cols * n) + (b * n + c))
            * step,
{
    vstd::arithmetic::mul::lemma_mul_is_associative(cols, n, step);
    vstd::arithmetic::mul::lemma_mul_is_associative(x, cols * n, step);
    vstd::arithmetic::mul::lemma_mul_is_associative(b, n, step);
    vstd::arithmetic::mul::lemma_mul_is_distributive_add_other_way(step, b * n, c);
    vstd::arithmetic::mul::lemma_mul_is_distributive_add_other_way(step, x * (cols * n), b * n + c);
}

/// An allocation for the tiles of a tensor, and how its tiles are requested.
pub struct Allocation {
    pub shape: Seq<usize>,
    pub tile_row: usize,
    pub tile_col: usize,
    pub n_byte: usize,
    pub base: u64,
    pub step: u64,
}

impl Allocation {
    /// The addresses of tile `t`.
    pub open spec fn addresses(self, t: int) -> Result<Seq<u64>, RandomTileAddressError> {
        byte_addresses(
            self.shape,
            t as u64,
            self.tile_row,
            self.tile_col,
            self.n_byte,
            self.base,
            self.step,
        )
    }

    /// There is a `j`-th address of a tile `t`.
    pub open spec fn is_address(self, t: int, j: int) -> bool {
        0 <= t < product(self.shape) && 0 <= j < self.addresses(t)->Ok_0.len()
    }

    /// The `j`-th address of tile `t`.
    pub open spec fn addr(self, t: int, j: int) -> u64 {
        self.addresses(t)->Ok_0[j]
    }

    /// The `k`-th multiple of the request size, counted from the base.
    pub open spec fn multiple(self, k: int) -> int {
        self.base + k * self.step
    }

    /// The `k`-th multiple of the request size is an address of some tile.
    pub open spec fn is_held(self, k: int) -> bool {
        exists|t: int, j: int| #[trigger]
            self.is_address(t, j) && self.addr(t, j) == self.multiple(k)
    }

    /// How many requests fill the allocation.
    pub open spec fn requests(self) -> int {
        product(self.shape) * self.tile_row * (self.tile_col * self.n_byte) / self.step as int
    }

    /// The request for tile `t`.
    pub open spec fn request(self, t: int) -> TileRequest {
        request_of(
            self.shape,
            t as u64,
            self.tile_row,
            self.tile_col,
            self.n_byte,
            self.base,
            self.step,
        )
    }
}

/// The address of a tile in an allocation, by its number.
proof fn lemma_allocated_address(allocation: Allocation, t: int, j: int)
    requires
        allocation.step > 0,
        (allocation.tile_col * allocation.n_byte) % (allocation.step as int) == 0,
        0 <= t < product(allocation.shape),
        allocation.addresses(t) is Ok,
    ensures
        ({
            let cols = allocation.shape.last() as int;
            let rows = allocation.tile_row as int;
            let n = allocation.request(0).per_row();
            let grid = product(allocation.shape.drop_last());
            &&& allocation.shape.len() >= 2
            &&& cols > 0
            &&& rows > 0
            &&& n > 0
            &&& grid >= 0
            &&& product(allocation.shape) == grid * cols
            &&& allocation.addresses(t)->Ok_0.len() == rows * n
            &&& allocation.requests() == (grid * rows) * (cols * n)
            &&& allocation.is_address(t, j) ==> allocation.addr(t, j) == allocation.multiple(
                address_number(cols, rows, n, t, j),
            )
        }),
{
    let shape = allocation.shape;
    let request = allocation.request(t);
    lemma_product_nonneg(shape);
    lemma_product_nonneg(shape.drop_last());
    assert(tile_count_fits(shape));
    assert(shape.take(shape.len() as int) =~= shape);
    assert(product(shape.take(shape.len() as int)) <= u64::MAX);
    assert(shape[shape.len() - 1] > 0 && shape[shape.len() - 2] > 0);
    let cols = shape.last() as int;
    let rows = allocation.tile_row as int;
    let n = request.per_row();
    let grid = product(shape.drop_last());
    let step = allocation.step as int;
    lemma_row_addr_grows(request, 0);
    assert(rows * n > 0) by (nonlinear_arith)
        requires
            rows > 0,
            n > 0,
    ;
    lemma_numbered_address(request, 0);
    if allocation.is_address(t, j) {
        lemma_numbered_address(request, j);
    }
    let total = (grid * rows) * (cols * n);
    assert(grid * cols * rows * (n * step) == total * step) by (nonlinear_arith)
        requires
            total == (grid * rows) * (cols * n),
    ;
    vstd::arithmetic::div_mod::lemma_div_by_multiple(total, step);
}

/// The tiles partition the allocation: where the rows of a tile are whole
/// numbers of requests, the addresses of all tiles together hold every
/// multiple of the request size in the allocation exactly once, and nothing
/// else.
pub proof fn law_tiles_partition_allocation(allocation: Allocation)
    requires
        allocation.step > 0,
        (allocation.tile_col * allocation.n_byte) % (allocation.step as int) == 0,
        forall|t: int|
            0 <= t < product(allocation.shape) ==> #[trigger] allocation.addresses(t) is Ok,
    ensures
        forall|t: int, j: int| #[trigger]
            allocation.is_address(t, j) ==> exists|k: int|
                0 <= k < allocation.requests() && allocation.addr(t, j)
                    == #[trigger] allocation.multiple(k),
        forall|k: int| 0 <= k < allocation.requests() ==> #[trigger] allocation.is_held(k),
        forall|t: int, j: int, u: int, i: int| #[trigger]
            allocation.is_address(t, j) && #[trigger] allocation.is_address(u, i)
                && allocation.addr(t, j) == allocation.addr(u, i) ==> t == u && j == i,
{
    let cols = allocation.shape.last() as int;
    let rows = allocation.tile_row as int;
    let n = allocation.request(0).per_row();
    let grid = product(allocation.shape.drop_last());
    assert forall|t: int, j: int| #[trigger] allocation.is_address(t, j) implies exists|k: int|
        0 <= k < allocation.requests() && allocation.addr(t, j) == #[trigger] allocation.multiple(
            k,
        ) by {
        assert(allocation.addresses(t) is Ok);
        lemma_allocated_address(allocation, t, j);
        lemma_number_of_address(grid, cols, rows, n, t, j);
        let k = address_number(cols, rows, n, t, j);
        assert(allocation.addr(t, j) == allocation.multiple(k));
    }
    assert forall|k: int| 0 <= k < allocation.requests() implies #[trigger] allocation.is_held(
        k,
    ) by {
        lemma_product_nonneg(allocation.shape);
        if product(allocation.shape) == 0 {
            assert(0 * rows * (allocation.tile_col * allocation.n_byte) == 0) by (nonlinear_arith);
            assert(0int / allocation.step as int == 0) by (nonlinear_arith)
                requires
                    allocation.step > 0,
            ;
        }
        assert(allocation.addresses(0) is Ok);
        lemma_allocated_address(allocation, 0, 0);
        lemma_address_of_number(grid, cols, rows, n, k);
        let t = tile_with(cols, rows, n, k);
        let j = place_in_tile(cols, rows, n, k);
        assert(allocation.addresses(t) is Ok);
        lemma_allocated_address(allocation, t, j);
        assert(allocation.is_address(t, j));
    }
    assert forall|t: int, j: int, u: int, i: int| #[trigger]
        allocation.is_address(t, j) && #[trigger] allocation.is_address(u, i) && allocation.addr(
            t,
            j,
        ) == allocation.addr(u, i) implies t == u && j == i by {
        assert(allocation.addresses(t) is Ok && allocation.addresses(u) is Ok);
        lemma_allocated_address(allocation, t, j);
        lemma_allocated_address(allocation, u, i);
        lemma_number_of_address(grid, cols, rows, n, t, j);
        lemma_number_of_address(grid, cols, rows, n, u, i);
        let k = address_number(cols, rows, n, t, j);
        let l = address_number(cols, rows, n, u, i);
        let step = allocation.step as int;
        assert(k == l) by (nonlinear_arith)
            requires
                k * step == l * step,
                step > 0,
        ;
    }
}

/// The addresses of a tile, in terms of the tensor that holds it: the tile lies
/// below the whole rows of tiles before it and beside the tiles before it in
/// its row, and its rows are asked for from end to end.
pub proof fn law_addresses_walk_tile(
    shape: &[usize],
    tile_idx: u64,
    tile_row: usize,
    tile_col: usize,
    n_byte: usize,
    base_addr_byte: u64,
    addr_offset: u64,
    addrs: Vec<u64>,
)
    requires
        call_ensures(
            random_tile_byte_addresses,
            (shape, tile_idx, tile_row, tile_col, n_byte, base_addr_byte, addr_offset),
            Ok::<Vec<u64>, RandomTileAddressError>(addrs),
        ),
    ensures
        shape@.len() >= 2,
        tile_idx < product(shape@),
        ({
            let grid = shape@.last() as int;
            let row_bytes = tile_col * n_byte;
            let pitch = grid * row_bytes;
            exists|n: int| #[trigger]
                walks_rows(
                    addrs@,
                    base_addr_byte + ((tile_idx as int / grid) * tile_row) * pitch + (
                    tile_idx as int % grid) * row_bytes,
                    tile_row as int,
                    row_bytes,
                    pitch,
                    addr_offset as int,
                    n,
                )
        }),
{
    let request = request_of(
        shape@,
        tile_idx,
        tile_row,
        tile_col,
        n_byte,
        base_addr_byte,
        addr_offset,
    );
    lemma_product_nonneg(shape@);
    assert(shape@[shape@.len() - 1] > 0 && shape@[shape@.len() - 2] > 0);
    assert(request.wf());
    let n = request.per_row();
    let rows = request.tile_row;
    let step = request.step;
    let pitch = request.pitch();
    lemma_row_addr_grows(request, 0);
    lemma_ceil_div(request.row_bytes(), step);
    let start = base_addr_byte + request.first_row() * pitch + request.first_byte();
    assert(rows * n >= 0) by (nonlinear_arith)
        requires
            rows > 0,
            n > 0,
    ;
    assert forall|i: int| 0 <= i < addrs@.len() implies #[trigger] addrs@[i] == start + (i / n)
        * pitch + (i % n) * step by {
        crate::primitives::array::lemma_cell_of_position(i, rows, n);
        let r = i / n;
        let k = i % n;
        lemma_row_addr_grows(request, r);
        assert(0 <= k * step <= (n - 1) * step) by (nonlinear_arith)
            requires
                0 <= k <= n - 1,
                step > 0,
        ;
        assert((request.first_row() + r) * pitch == request.first_row() * pitch + r * pitch)
            by (nonlinear_arith);
        assert(addrs@[i] == (request.row_addr(r) + k * step) as u64);
        assert(request.row_addr(r) >= 0);
    }
    assert(walks_rows(addrs@, start, rows, request.row_bytes(), pitch, step, n));
}

/// A request that cannot be met is refused for the first of these reasons: too
/// few dimensions, an empty tile, no step between addresses, or a tile that the
/// tensor does not have.
pub proof fn law_bad_request_is_refused(
    shape: &[usize],
    tile_idx: u64,
    tile_row: usize,
    tile_col: usize,
    n_byte: usize,
    base_addr_byte: u64,
    addr_offset: u64,
    res: Result<Vec<u64>, RandomTileAddressError>,
)
    requires
        call_ensures(
            random_tile_byte_addresses,
            (shape, tile_idx, tile_row, tile_col, n_byte, base_addr_byte, addr_offset),
            res,
        ),
    ensures
        ({
            let few = shape@.len() < 2;
            let empty = tile_row == 0 || tile_col == 0 || n_byte == 0;
            &&& few ==> res == Err::<Vec<u64>, _>(RandomTileAddressError::Rank(shape@.len() as usize))
            &&& !few && empty ==> res == Err::<Vec<u64>, _>(RandomTileAddressError::ZeroGeometry)
            &&& !few && !empty && addr_offset == 0 ==> res == Err::<Vec<u64>, _>(
                RandomTileAddressError::ZeroAddressIncrement,
            )
            &&& !few && !empty && addr_offset > 0 && tile_count_fits(shape@) && tile_idx >= product(
                shape@,
            ) ==> res == Err::<Vec<u64>, _>(
                RandomTileAddressError::OutOfBounds {
                    index: tile_idx,
                    tile_count: product(shape@) as u64,
                },
            )
            &&& res is Ok ==> !few && !empty && addr_offset > 0 && tile_idx < product(shape@)
        }),
{
}

} // verus!
