//! Memory requests: the addresses of a tile, and how they are dispatched.

use itertools::Itertools;
use vstd::arithmetic::div_mod::{lemma_fundamental_div_mod, lemma_fundamental_div_mod_converse};
use vstd::prelude::*;

use crate::utils::calculation::{ceil_div, div_ceil, lemma_ceil_div};
use crate::utils::mapping::map_into;

verus! {

/// Where the tiles of a tensor lie in memory and how they are requested.
///
/// A tile has `tile_row` rows of `tile_col` elements of `n_byte` bytes; rows
/// of a tile are as far apart as the rows of the tensor, which has `grid_cols`
/// tiles beside each other. Tiles start `tile_bytes` bytes after each other.
/// Each request moves `addr_offset` bytes.
#[derive(Debug, Clone, Copy)]
pub struct TileLayout {
    pub tile_row: usize,
    pub tile_col: usize,
    pub n_byte: usize,
    pub tile_bytes: usize,
    pub grid_cols: usize,
    pub base_addr_byte: u64,
    pub addr_offset: u64,
}

impl TileLayout {
    /// Bytes in a row of a tile.
    pub open spec fn row_bytes(self) -> int {
        self.tile_col * self.n_byte
    }

    /// Bytes between the starts of two rows.
    pub open spec fn row_offset(self) -> int {
        self.grid_cols * self.tile_col * self.n_byte
    }

    /// Requests for a row of a tile.
    pub open spec fn per_row(self) -> int {
        ceil_div(self.row_bytes(), self.addr_offset as int)
    }

    /// Requests for a tile.
    pub open spec fn count(self) -> int {
        self.tile_row * self.per_row()
    }

    /// The address of the first request for a tile.
    pub open spec fn tile_addr(self, tile_idx: int) -> int {
        self.base_addr_byte + tile_idx * self.tile_bytes
    }

    /// The address of the `k`-th request for row `r` of a tile.
    pub open spec fn addr(self, tile_idx: int, r: int, k: int) -> int {
        self.tile_addr(tile_idx) + r * self.row_offset() + k * self.addr_offset
    }

    /// The addresses of all requests for a tile, row by row.
    pub open spec fn addrs(self, tile_idx: int) -> Seq<u64> {
        Seq::new(
            self.count() as nat,
            |i: int| self.addr(tile_idx, i / self.per_row(), i % self.per_row()) as u64,
        )
    }

    /// The addresses can be computed, and there are no more of them than a
    /// vector can hold.
    pub open spec fn fits(self, tile_idx: int) -> bool {
        &&& self.tile_row > 0 ==> self.addr_offset > 0
        &&& self.row_bytes() <= u64::MAX
        &&& self.grid_cols * self.tile_col <= u64::MAX
        &&& self.row_offset() <= u64::MAX
        &&& self.tile_addr(tile_idx) <= u64::MAX
        &&& self.tile_row > 0 && self.row_bytes() > 0 ==> self.addr(
            tile_idx,
            self.tile_row - 1,
            self.per_row() - 1,
        ) <= u64::MAX
        &&& self.tile_row > 0 ==> self.count() <= usize::MAX
    }

    /// There is a request exactly where a tile has rows and bytes in them.
    pub proof fn lemma_count(self)
        requires
            self.tile_row > 0 ==> self.addr_offset > 0,
        ensures
            self.count() > 0 <==> self.tile_row > 0 && self.row_bytes() > 0,
            self.row_bytes() >= 0,
    {
        assert(self.row_bytes() >= 0) by (nonlinear_arith)
            requires
                self.row_bytes() == self.tile_col * self.n_byte,
                self.tile_col >= 0,
                self.n_byte >= 0,
        ;
        if self.tile_row > 0 {
            lemma_ceil_div(self.row_bytes(), self.addr_offset as int);
            assert(self.count() > 0 <==> self.per_row() > 0) by (nonlinear_arith)
                requires
                    self.count() == self.tile_row * self.per_row(),
                    self.tile_row > 0,
                    self.per_row() >= 0,
            ;
        } else {
            assert(self.count() == 0) by (nonlinear_arith)
                requires
                    self.tile_row == 0,
                    self.count() == self.tile_row * self.per_row(),
            ;
        }
    }

    /// The addresses of the requests for a tile.
    pub fn tile_addresses(&self, tile_idx: u64) -> (res: Vec<u64>)
        requires
            self.fits(tile_idx as int),
        ensures
            res@ == self.addrs(tile_idx as int),
    {
        let mut addrs: Vec<u64> = Vec::new();
        if self.tile_row == 0 {
            assert(self.count() == 0) by (nonlinear_arith)
                requires
                    self.tile_row == 0,
                    self.count() == self.tile_row * self.per_row(),
            ;
            assert(addrs@ =~= self.addrs(tile_idx as int));
            return addrs;
        }
        proof {
            assert(tile_idx * self.tile_bytes >= 0) by (nonlinear_arith)
                requires
                    tile_idx >= 0,
                    self.tile_bytes >= 0,
            ;
            assert(self.grid_cols * self.tile_col * self.n_byte >= 0) by (nonlinear_arith)
                requires
                    self.grid_cols >= 0,
                    self.tile_col >= 0,
                    self.n_byte >= 0,
            ;
            assert(self.tile_col * self.n_byte >= 0) by (nonlinear_arith)
                requires
                    self.tile_col >= 0,
                    self.n_byte >= 0,
            ;
        }
        let base: u64 = self.base_addr_byte + tile_idx * self.tile_bytes as u64;
        let row_offset: u64 = self.grid_cols as u64 * self.tile_col as u64 * self.n_byte as u64;
        let row_bytes: u64 = self.tile_col as u64 * self.n_byte as u64;
        let per_row: u64 = div_ceil(row_bytes, self.addr_offset);
        proof {
            lemma_ceil_div(row_bytes as int, self.addr_offset as int);
        }
        let mut r: usize = 0;
        while r < self.tile_row
            invariant
                self.fits(tile_idx as int),
                self.tile_row > 0,
                r <= self.tile_row,
                base == self.tile_addr(tile_idx as int),
                row_offset == self.row_offset(),
                row_bytes == self.row_bytes(),
                per_row == self.per_row(),
                row_bytes > 0 <==> per_row > 0,
                addrs@.len() == r * per_row,
                forall|i: int|
                    0 <= i < addrs@.len() ==> #[trigger] addrs@[i] == self.addr(
                        tile_idx as int,
                        i / per_row as int,
                        i % per_row as int,
                    ),
            decreases self.tile_row - r,
        {
            let mut k: u64 = 0;
            while k < per_row
                invariant
                    self.fits(tile_idx as int),
                    r < self.tile_row,
                    k <= per_row,
                    base == self.tile_addr(tile_idx as int),
                    row_offset == self.row_offset(),
                    row_bytes == self.row_bytes(),
                    per_row == self.per_row(),
                    row_bytes > 0 <==> per_row > 0,
                    addrs@.len() == r * per_row + k,
                    forall|i: int|
                        0 <= i < addrs@.len() ==> #[trigger] addrs@[i] == self.addr(
                            tile_idx as int,
                            i / per_row as int,
                            i % per_row as int,
                        ),
                decreases per_row - k,
            {
                proof {
                    let step = self.addr_offset;
                    let last_r = self.tile_row - 1;
                    assert(0 <= r * row_offset <= last_r * row_offset) by (nonlinear_arith)
                        requires
                            0 <= r <= last_r,
                            0 <= row_offset,
                    ;
                    assert(0 <= k * step <= (per_row - 1) * step) by (nonlinear_arith)
                        requires
                            0 <= k <= per_row - 1,
                            0 <= step,
                    ;
                    lemma_fundamental_div_mod_converse(
                        r * per_row + k,
                        per_row as int,
                        r as int,
                        k as int,
                    );
                }
                addrs.push(base + (r as u64 * row_offset + k * self.addr_offset));
                k = k + 1;
            }
            assert(r * per_row + per_row == (r + 1) * per_row) by (nonlinear_arith);
            r = r + 1;
        }
        assert(addrs@ =~= self.addrs(tile_idx as int));
        addrs
    }
}

/// Chunk `k` of a list cut into chunks of `size`; the last may be shorter.
pub open spec fn chunk_of(addrs: Seq<u64>, size: int, k: int) -> Seq<u64> {
    addrs.subrange(
        k * size,
        if (k + 1) * size <= addrs.len() {
            (k + 1) * size
        } else {
            addrs.len() as int
        },
    )
}

/// Cuts a list of addresses into chunks.
///
/// Calls `itertools::Itertools::chunks`. Claims that the chunks are the
/// consecutive stretches of `size` addresses, the last of which may be
/// shorter. A chunk size of zero is left out: the call panics on it.
#[verifier::external_body]
fn par_chunks(addrs: &Vec<u64>, size: usize) -> (res: Vec<Vec<u64>>)
    requires
        size > 0,
    ensures
        res@.len() == ceil_div(addrs@.len() as int, size as int),
        forall|k: int|
            0 <= k < res@.len() ==> (#[trigger] res@[k])@ == chunk_of(addrs@, size as int, k),
{
    let chunks = addrs.iter().chunks(size);
    chunks.into_iter().map(|chunk| chunk.copied().collect()).collect()
}

/// Addresses that are sent together, `delay` cycles after the first ones.
#[derive(Debug, PartialEq, Eq)]
pub struct Dispatch {
    pub delay: u64,
    pub addrs: Vec<u64>,
}

fn undelayed(addrs: Vec<u64>) -> (res: Dispatch)
    ensures
        res.delay == 0,
        res.addrs@ == addrs@,
{
    Dispatch { delay: 0, addrs }
}

/// The addresses are sent in chunks of `par_dispatch`, one chunk per cycle.
pub open spec fn dispatched(addrs: Seq<u64>, par_dispatch: int, res: Seq<Dispatch>) -> bool {
    &&& res.len() == ceil_div(addrs.len() as int, par_dispatch)
    &&& forall|k: int|
        0 <= k < res.len() ==> (#[trigger] res[k]).delay == k && res[k].addrs@ == chunk_of(
            addrs,
            par_dispatch,
            k,
        )
}

/// Plans the dispatch of a tile's requests.
pub fn dispatch(addrs: &Vec<u64>, par_dispatch: usize) -> (res: Vec<Dispatch>)
    requires
        par_dispatch > 0,
    ensures
        dispatched(addrs@, par_dispatch as int, res@),
{
    let chunks = par_chunks(addrs, par_dispatch);
    let mut out: Vec<Dispatch> = map_into(chunks, undelayed);
    let ghost all = out@;
    let mut k: usize = 0;
    while k < out.len()
        invariant
            k <= out@.len(),
            out@.len() == all.len(),
            forall|j: int| 0 <= j < k ==> (#[trigger] out@[j]).delay == j,
            forall|j: int| 0 <= j < out@.len() ==> (#[trigger] out@[j]).addrs@ == all[j].addrs@,
        decreases out@.len() - k,
    {
        out[k].delay = k as u64;
        k = k + 1;
    }
    out
}

/// Every address is dispatched exactly once, in order: address `i` leaves with
/// chunk `i / par_dispatch`.
pub proof fn law_dispatch_covers(
    addrs: Seq<u64>,
    par_dispatch: int,
    res: Seq<Dispatch>,
    i: int,
)
    requires
        par_dispatch > 0,
        dispatched(addrs, par_dispatch, res),
        0 <= i < addrs.len(),
    ensures
        0 <= i / par_dispatch < res.len(),
        0 <= i % par_dispatch < res[i / par_dispatch].addrs@.len() <= par_dispatch,
        res[i / par_dispatch].addrs@[i % par_dispatch] == addrs[i],
{
    let k = i / par_dispatch;
    lemma_ceil_div(addrs.len() as int, par_dispatch);
    lemma_fundamental_div_mod(i, par_dispatch);
    let n = res.len() as int;
    assert(0 <= k < n) by (nonlinear_arith)
        requires
            i == par_dispatch * k + i % par_dispatch,
            0 <= i % par_dispatch < par_dispatch,
            0 <= i < addrs.len(),
            addrs.len() <= n * par_dispatch,
            par_dispatch > 0,
    ;
    assert((k + 1) * par_dispatch == par_dispatch * k + par_dispatch && k * par_dispatch
        == par_dispatch * k) by (nonlinear_arith);
}

/// The requests for a tile, in the terms of its layout: row by row, each row
/// is covered from its first byte on by as many requests, one behind the
/// other, as its bytes need and no more. `n` is that number, and `k` numbers
/// the requests for row `r`.
pub proof fn law_requests_walk_rows(
    layout: TileLayout,
    tile_idx: u64,
    addrs: Vec<u64>,
    n: int,
    r: int,
    k: int,
)
    requires
        layout.fits(tile_idx as int),
        call_ensures(TileLayout::tile_addresses, (&layout, tile_idx), addrs),
        layout.tile_row > 0,
        n >= 0,
        layout.tile_col * layout.n_byte <= n * layout.addr_offset,
        n > 0 ==> (n - 1) * layout.addr_offset < layout.tile_col * layout.n_byte,
    ensures
        addrs@.len() == layout.tile_row * n,
        0 <= r < layout.tile_row && 0 <= k < n ==> 0 <= r * n + k < addrs@.len() && addrs@[r * n
            + k] == layout.base_addr_byte + tile_idx * layout.tile_bytes + r * (layout.grid_cols
            * layout.tile_col * layout.n_byte) + k * layout.addr_offset,
{
    let step = layout.addr_offset as int;
    let bytes = layout.row_bytes();
    let per_row = layout.per_row();
    layout.lemma_count();
    lemma_ceil_div(bytes, step);
    assert(per_row == n) by (nonlinear_arith)
        requires
            bytes <= n * step,
            n > 0 ==> (n - 1) * step < bytes,
            bytes <= per_row * step,
            per_row * step < bytes + step,
            per_row > 0 <==> bytes > 0,
            per_row >= 0,
            n >= 0,
            bytes >= 0,
            step > 0,
    ;
    assert(layout.tile_row * n >= 0) by (nonlinear_arith)
        requires
            layout.tile_row >= 0,
            n >= 0,
    ;
    if 0 <= r < layout.tile_row && 0 <= k < n {
        let last = layout.tile_row - 1;
        assert(0 <= r * n + k < layout.tile_row * n) by (nonlinear_arith)
            requires
                0 <= r < layout.tile_row,
                0 <= k < n,
        ;
        assert(bytes > 0) by (nonlinear_arith)
            requires
                (n - 1) * step < bytes,
                n > 0,
                step > 0,
        ;
        lemma_fundamental_div_mod_converse(r * n + k, n, r, k);
        assert(layout.row_offset() >= 0) by (nonlinear_arith)
            requires
                layout.row_offset() == layout.grid_cols * layout.tile_col * layout.n_byte,
                layout.grid_cols >= 0,
                layout.tile_col >= 0,
                layout.n_byte >= 0,
        ;
        assert(0 <= r * layout.row_offset() <= last * layout.row_offset()) by (nonlinear_arith)
            requires
                0 <= r <= last,
                0 <= layout.row_offset(),
        ;
        assert(0 <= k * step <= (n - 1) * step) by (nonlinear_arith)
            requires
                0 <= k <= n - 1,
                0 <= step,
        ;
        assert(tile_idx * layout.tile_bytes >= 0) by (nonlinear_arith)
            requires
                tile_idx >= 0,
                layout.tile_bytes >= 0,
        ;
        assert(addrs@[r * n + k] == layout.addr(tile_idx as int, r, k));
    }
}

/// The requests for a tile cover it: byte `b` of row `r` lies in one of them.
pub proof fn law_requests_cover_tile(
    layout: TileLayout,
    tile_idx: u64,
    addrs: Vec<u64>,
    r: int,
    b: int,
)
    requires
        layout.fits(tile_idx as int),
        call_ensures(TileLayout::tile_addresses, (&layout, tile_idx), addrs),
        0 <= r < layout.tile_row,
        0 <= b < layout.tile_col * layout.n_byte,
    ensures
        exists|i: int|
            0 <= i < addrs@.len() && #[trigger] addrs@[i] <= layout.base_addr_byte + tile_idx
                * layout.tile_bytes + r * (layout.grid_cols * layout.tile_col * layout.n_byte) + b
                < addrs@[i] + layout.addr_offset,
{
    let step = layout.addr_offset as int;
    let bytes = layout.row_bytes();
    let n = layout.per_row();
    lemma_ceil_div(bytes, step);
    assert((n - 1) * step == n * step - step) by (nonlinear_arith);
    let k = b / step;
    lemma_fundamental_div_mod(b, step);
    assert(0 <= k < n && k * step <= b < k * step + step) by (nonlinear_arith)
        requires
            b == step * k + b % step,
            0 <= b % step < step,
            0 <= b < bytes,
            bytes <= n * step,
            step > 0,
    ;
    law_requests_walk_rows(layout, tile_idx, addrs, n, r, k);
    let i = r * n + k;
    assert(addrs@[i] <= layout.base_addr_byte + tile_idx * layout.tile_bytes + r * (
    layout.grid_cols * layout.tile_col * layout.n_byte) + b);
}

/// Nothing is asked for in vain: every request for a tile begins with a byte
/// of the tile. And no row is asked for the same address twice: within a row,
/// a request begins where the one before it ends.
pub proof fn law_no_request_in_vain(layout: TileLayout, tile_idx: u64, addrs: Vec<u64>, i: int)
    requires
        layout.fits(tile_idx as int),
        call_ensures(TileLayout::tile_addresses, (&layout, tile_idx), addrs),
        0 <= i < addrs@.len(),
    ensures
        exists|r: int, b: int|
            0 <= r < layout.tile_row && 0 <= b < layout.tile_col * layout.n_byte && addrs@[i]
                == layout.base_addr_byte + tile_idx * layout.tile_bytes + #[trigger] (r * (
            layout.grid_cols * layout.tile_col * layout.n_byte)) + #[trigger] (b + 0),
        i > 0 && i % (addrs@.len() / layout.tile_row as nat) as int != 0 ==> addrs@[i] == addrs@[i
            - 1] + layout.addr_offset,
{
    let step = layout.addr_offset as int;
    let bytes = layout.row_bytes();
    let n = layout.per_row();
    let rows = layout.tile_row as int;
    layout.lemma_count();
    assert(rows > 0) by {
        if rows == 0 {
            assert(layout.count() == 0) by (nonlinear_arith)
                requires
                    layout.tile_row == 0,
                    layout.count() == layout.tile_row * layout.per_row(),
            ;
        }
    }
    lemma_ceil_div(bytes, step);
    assert((n - 1) * step == n * step - step) by (nonlinear_arith);
    lemma_row_of(i, n, rows);
    let r = i / n;
    let k = i % n;
    law_requests_walk_rows(layout, tile_idx, addrs, n, r, k);
    assert(0 <= k * step < bytes) by (nonlinear_arith)
        requires
            0 <= k < n,
            (n - 1) * step < bytes,
            step > 0,
    ;
    let b = k * step;
    assert(addrs@[i] == layout.base_addr_byte + tile_idx * layout.tile_bytes + (r * (
    layout.grid_cols * layout.tile_col * layout.n_byte)) + (b + 0));
    if k > 0 {
        law_requests_walk_rows(layout, tile_idx, addrs, n, r, k - 1);
        assert((k - 1) * step == k * step - step) by (nonlinear_arith);
    }
    assert((rows * n) / rows == n) by (nonlinear_arith)
        requires
            rows > 0,
    ;
}

/// The row and the place in it of entry `i` of a list of rows of `n` entries.
proof fn lemma_row_of(i: int, n: int, rows: int)
    requires
        0 <= i < rows * n,
        n >= 0,
        rows > 0,
    ensures
        n > 0,
        0 <= i / n < rows,
        0 <= i % n < n,
        (i / n) * n + i % n == i,
{
    assert(n > 0) by (nonlinear_arith)
        requires
            0 <= i < rows * n,
            n >= 0,
    ;
    lemma_fundamental_div_mod(i, n);
    assert((i / n) * n == n * (i / n)) by (nonlinear_arith);
    assert(0 <= i / n < rows) by (nonlinear_arith)
        requires
            0 <= i < rows * n,
            n > 0,
            i == n * (i / n) + i % n,
            0 <= i % n < n,
    ;
}

/// One chunk of `par_dispatch` addresses leaves per cycle, beginning at once:
/// address `i` leaves `i / par_dispatch` cycles after the first one, in no
/// other chunk, and there are no more chunks than the addresses fill.
pub proof fn law_dispatch_keeps_pace(
    addrs: Vec<u64>,
    par_dispatch: usize,
    chunks: Vec<Dispatch>,
    i: int,
)
    requires
        par_dispatch > 0,
        call_ensures(dispatch, (&addrs, par_dispatch), chunks),
        0 <= i < addrs@.len(),
    ensures
        addrs@.len() <= chunks@.len() * par_dispatch < addrs@.len() + par_dispatch,
        (i / par_dispatch as int) < chunks@.len(),
        chunks@[i / par_dispatch as int].delay == i / par_dispatch as int,
        chunks@[i / par_dispatch as int].addrs@[i % par_dispatch as int] == addrs@[i],
{
    law_dispatch_covers(addrs@, par_dispatch as int, chunks@, i);
    lemma_ceil_div(addrs@.len() as int, par_dispatch as int);
}

/// The addresses walk `rows` rows that are `pitch` bytes apart, from `start`
/// on: `n` requests of `step` bytes behind each other for each row, as many as
/// its `row_bytes` bytes need and no more.
pub open spec fn walks_rows(
    addrs: Seq<u64>,
    start: int,
    rows: int,
    row_bytes: int,
    pitch: int,
    step: int,
    n: int,
) -> bool {
    &&& row_bytes <= n * step < row_bytes + step
    &&& addrs.len() == rows * n
    &&& forall|i: int|
        0 <= i < addrs.len() ==> #[trigger] addrs[i] == start + (i / n) * pitch + (i % n) * step
}

/// The addresses of a layout walk the rows of the tile.
pub proof fn lemma_layout_walks_rows(layout: TileLayout, tile_idx: int)
    requires
        layout.fits(tile_idx),
        tile_idx >= 0,
        layout.tile_row > 0,
    ensures
        walks_rows(
            layout.addrs(tile_idx),
            layout.base_addr_byte + tile_idx * layout.tile_bytes,
            layout.tile_row as int,
            layout.tile_col * layout.n_byte,
            layout.grid_cols * layout.tile_col * layout.n_byte,
            layout.addr_offset as int,
            layout.per_row(),
        ),
{
    let step = layout.addr_offset as int;
    let bytes = layout.row_bytes();
    let n = layout.per_row();
    let rows = layout.tile_row as int;
    let addrs = layout.addrs(tile_idx);
    layout.lemma_count();
    lemma_ceil_div(bytes, step);
    assert(rows * n >= 0) by (nonlinear_arith)
        requires
            rows >= 0,
            n >= 0,
    ;
    assert forall|i: int| 0 <= i < addrs.len() implies #[trigger] addrs[i] == layout.base_addr_byte
        + tile_idx * layout.tile_bytes + (i / n) * (layout.grid_cols * layout.tile_col
        * layout.n_byte) + (i % n) * step by {
        lemma_row_of(i, n, rows);
        let r = i / n;
        let k = i % n;
        let pitch = layout.row_offset();
        assert(pitch >= 0) by (nonlinear_arith)
            requires
                pitch == layout.grid_cols * layout.tile_col * layout.n_byte,
                layout.grid_cols >= 0,
                layout.tile_col >= 0,
                layout.n_byte >= 0,
        ;
        assert(0 <= r * pitch <= (rows - 1) * pitch) by (nonlinear_arith)
            requires
                0 <= r <= rows - 1,
                0 <= pitch,
        ;
        assert(0 <= k * step <= (n - 1) * step) by (nonlinear_arith)
            requires
                0 <= k <= n - 1,
                0 <= step,
        ;
        assert(tile_idx * layout.tile_bytes >= 0) by (nonlinear_arith)
            requires
                tile_idx >= 0,
                layout.tile_bytes >= 0,
        ;
        assert(addrs[i] == layout.addr(tile_idx, r, k) as u64);
        assert(layout.addr(tile_idx, r, k) <= layout.addr(tile_idx, rows - 1, n - 1));
    }
}

/// Address `i` leaves with the chunk that it belongs to, and that chunk leaves
/// in its own cycle.
pub open spec fn leaves_with_chunk(
    addrs: Seq<u64>,
    par_dispatch: int,
    chunks: Seq<Dispatch>,
    i: int,
) -> bool {
    &&& 0 <= i / par_dispatch < chunks.len()
    &&& chunks[i / par_dispatch].delay == i / par_dispatch
    &&& chunks[i / par_dispatch].addrs@[i % par_dispatch] == addrs[i]
}

/// The addresses leave in chunks of `par_dispatch`, one chunk per cycle.
pub open spec fn leaves_in_chunks(
    addrs: Seq<u64>,
    par_dispatch: int,
    chunks: Seq<Dispatch>,
) -> bool {
    forall|i: int|
        0 <= i < addrs.len() ==> #[trigger] leaves_with_chunk(addrs, par_dispatch, chunks, i)
}

/// Dispatched addresses leave in chunks.
pub proof fn lemma_leaves_in_chunks(addrs: Seq<u64>, par_dispatch: int, chunks: Seq<Dispatch>)
    requires
        par_dispatch > 0,
        dispatched(addrs, par_dispatch, chunks),
    ensures
        leaves_in_chunks(addrs, par_dispatch, chunks),
{
    assert forall|i: int| 0 <= i < addrs.len() implies #[trigger] leaves_with_chunk(
        addrs,
        par_dispatch,
        chunks,
        i,
    ) by {
        law_dispatch_covers(addrs, par_dispatch, chunks, i);
    }
}

} // verus!
