//! Storing a stream of tiles whose shape is known beforehand.

use vstd::prelude::*;

use crate::memory::requests::{
    dispatch, dispatched, lemma_layout_walks_rows, lemma_leaves_in_chunks, leaves_in_chunks,
    walks_rows, Dispatch,
};
use crate::memory::store_plan::{StorePlan, StoreState, StoredTensor};
use crate::primitives::elem::Elem;
use crate::primitives::tensor::untiled;
use crate::primitives::tile::Tile;
use crate::utils::indexing::{product, product_fits};

verus! {

/// Writes a stream of tiles, `par_dispatch` requests at a time.
#[derive(Debug)]
pub struct OffChipStore {
    pub plan: StorePlan,
    pub par_dispatch: usize,
}

/// Writes a stream of tiles, one request at a time.
#[derive(Debug)]
pub struct OffChipStoreRamulator {
    pub plan: StorePlan,
}

/// The requests for one tile, and how many acknowledgements to wait for.
#[derive(Debug, PartialEq, Eq)]
pub struct WriteRequest {
    pub dispatches: Vec<Dispatch>,
    pub acks: usize,
}

impl WriteRequest {
    /// The request writes the addresses in chunks and waits for all of them.
    pub open spec fn writes(self, addrs: Seq<u64>, par_dispatch: int) -> bool {
        &&& dispatched(addrs, par_dispatch, self.dispatches@)
        &&& self.acks == addrs.len()
    }
}

impl OffChipStore {
    pub fn new(
        tensor_shape_tiled: Vec<usize>,
        tile_row: usize,
        tile_col: usize,
        store_path: Option<String>,
        base_addr_byte: u64,
        addr_offset: u64,
        par_dispatch: usize,
        id: u32,
    ) -> (res: Self)
        ensures
            res == (OffChipStore {
                plan: StorePlan {
                    tensor_shape_tiled,
                    tile_row,
                    tile_col,
                    store_path,
                    base_addr_byte,
                    addr_offset,
                    id,
                },
                par_dispatch,
            }),
    {
        OffChipStore {
            plan: StorePlan {
                tensor_shape_tiled,
                tile_row,
                tile_col,
                store_path,
                base_addr_byte,
                addr_offset,
                id,
            },
            par_dispatch,
        }
    }

    /// Takes one tile and plans its requests.
    pub fn step<T: Copy>(&self, state: &mut StoreState<T>, elem: &Elem<Tile<T>>) -> (res:
        WriteRequest)
        requires
            self.par_dispatch > 0,
            self.plan.state_ok(*old(state)),
            self.plan.accepts(*old(state), *elem),
        ensures
            res.writes(
                self.plan.layout(elem.value()).addrs(old(state).tile_idx as int),
                self.par_dispatch as int,
            ),
            self.plan.state_ok(*final(state)),
            self.plan.collects(*old(state), *elem, *final(state)),
            final(state).tile_idx == old(state).tile_idx + 1,
            final(state).n_bytes == Some(elem.value().bytes_per_elem),
    {
        let addrs = self.plan.step(state, elem);
        WriteRequest { dispatches: dispatch(&addrs, self.par_dispatch), acks: addrs.len() }
    }

    /// The tensor to save at the end of the stream, where it is to be saved.
    pub fn finish<T>(&self, state: StoreState<T>) -> (res: Option<StoredTensor<T>>)
        requires
            self.plan.state_ok(state),
            self.plan.store_path is Some ==> {
                let n = self.plan.tensor_shape_tiled@.len();
                &&& n >= 2
                &&& state.accum.data@.len() == product(self.plan.tensor_shape_tiled@)
                    * self.plan.tile_row * self.plan.tile_col
                &&& self.plan.tensor_shape_tiled@[n - 2] * self.plan.tile_row <= usize::MAX
            },
        ensures
            res is Some <==> self.plan.store_path is Some,
            res matches Some(tensor) ==> {
                &&& tensor.data@ == state.accum.data@
                &&& tensor.shape@ == untiled(
                    self.plan.tensor_shape_tiled@,
                    self.plan.tile_row,
                    self.plan.tile_col,
                )
            },
    {
        self.plan.finish(state)
    }

    /// Elements that one tile writes.
    pub fn on_chip_req_elems(&self) -> (res: usize)
        requires
            self.plan.tile_row * self.plan.tile_col <= usize::MAX,
        ensures
            res == self.plan.tile_row * self.plan.tile_col,
    {
        self.plan.on_chip_req_elems()
    }

    /// Elements that the whole stream writes.
    pub fn stored_elems(&self) -> (res: usize)
        requires
            product_fits(self.plan.tensor_shape_tiled@),
            product(self.plan.tensor_shape_tiled@) * self.plan.tile_row <= usize::MAX,
            product(self.plan.tensor_shape_tiled@) * self.plan.tile_row * self.plan.tile_col
                <= usize::MAX,
        ensures
            res == product(self.plan.tensor_shape_tiled@) * self.plan.tile_row
                * self.plan.tile_col,
    {
        self.plan.stored_elems()
    }
}

impl OffChipStoreRamulator {
    pub fn new(
        tensor_shape_tiled: Vec<usize>,
        tile_row: usize,
        tile_col: usize,
        store_path: Option<String>,
        base_addr_byte: u64,
        addr_offset: u64,
        id: u32,
    ) -> (res: Self)
        ensures
            res == (OffChipStoreRamulator {
                plan: StorePlan {
                    tensor_shape_tiled,
                    tile_row,
                    tile_col,
                    store_path,
                    base_addr_byte,
                    addr_offset,
                    id,
                },
            }),
    {
        OffChipStoreRamulator {
            plan: StorePlan {
                tensor_shape_tiled,
                tile_row,
                tile_col,
                store_path,
                base_addr_byte,
                addr_offset,
                id,
            },
        }
    }

    /// Takes one tile and plans its requests: one address in each cycle, which
    /// is sent together with a block of zeros.
    pub fn step<T: Copy>(&self, state: &mut StoreState<T>, elem: &Elem<Tile<T>>) -> (res:
        WriteRequest)
        requires
            self.plan.state_ok(*old(state)),
            self.plan.accepts(*old(state), *elem),
        ensures
            res.writes(self.plan.layout(elem.value()).addrs(old(state).tile_idx as int), 1),
            self.plan.state_ok(*final(state)),
            self.plan.collects(*old(state), *elem, *final(state)),
            final(state).tile_idx == old(state).tile_idx + 1,
            final(state).n_bytes == Some(elem.value().bytes_per_elem),
    {
        let addrs = self.plan.step(state, elem);
        WriteRequest { dispatches: dispatch(&addrs, 1), acks: addrs.len() }
    }

    /// Elements that one tile writes.
    pub fn on_chip_req_elems(&self) -> (res: usize)
        requires
            self.plan.tile_row * self.plan.tile_col <= usize::MAX,
        ensures
            res == self.plan.tile_row * self.plan.tile_col,
    {
        self.plan.on_chip_req_elems()
    }

    /// Elements that the whole stream writes.
    pub fn stored_elems(&self) -> (res: usize)
        requires
            product_fits(self.plan.tensor_shape_tiled@),
            product(self.plan.tensor_shape_tiled@) * self.plan.tile_row <= usize::MAX,
            product(self.plan.tensor_shape_tiled@) * self.plan.tile_row * self.plan.tile_col
                <= usize::MAX,
        ensures
            res == product(self.plan.tensor_shape_tiled@) * self.plan.tile_row
                * self.plan.tile_col,
    {
        self.plan.stored_elems()
    }
}

/// Storing a tile: its addresses, from end to end of its rows, leave in chunks,
/// one per cycle and `par_dispatch` addresses each, and as many acknowledgements
/// are awaited.
pub proof fn law_store_waits_for_all<T: Copy>(op: OffChipStore, elem: Elem<Tile<T>>)
    requires
        op.par_dispatch > 0,
    ensures
        forall|state: &mut StoreState<T>, res: WriteRequest|
            op.plan.tile_row > 0 && op.plan.accepts(*state, elem) && #[trigger] call_ensures(
                OffChipStore::step::<T>,
                (&op, state, &elem),
                res,
            ) ==> exists|addrs: Seq<u64>, n: int|
                {
                    &&& #[trigger] walks_rows(
                        addrs,
                        op.plan.base_addr_byte + state.tile_idx * (elem.value().bytes_per_elem
                            * (op.plan.tile_row * op.plan.tile_col)),
                        op.plan.tile_row as int,
                        op.plan.tile_col * elem.value().bytes_per_elem,
                        op.plan.tensor_shape_tiled@.last() * op.plan.tile_col
                            * elem.value().bytes_per_elem,
                        op.plan.addr_offset as int,
                        n,
                    )
                    &&& res.acks == addrs.len()
                    &&& leaves_in_chunks(addrs, op.par_dispatch as int, res.dispatches@)
                },
{
    assert forall|state: &mut StoreState<T>, res: WriteRequest|
        op.plan.tile_row > 0 && op.plan.accepts(*state, elem) && #[trigger] call_ensures(
            OffChipStore::step::<T>,
            (&op, state, &elem),
            res,
        ) implies exists|addrs: Seq<u64>, n: int|
        {
            &&& #[trigger] walks_rows(
                addrs,
                op.plan.base_addr_byte + state.tile_idx * (elem.value().bytes_per_elem
                    * (op.plan.tile_row * op.plan.tile_col)),
                op.plan.tile_row as int,
                op.plan.tile_col * elem.value().bytes_per_elem,
                op.plan.tensor_shape_tiled@.last() * op.plan.tile_col
                    * elem.value().bytes_per_elem,
                op.plan.addr_offset as int,
                n,
            )
            &&& res.acks == addrs.len()
            &&& leaves_in_chunks(addrs, op.par_dispatch as int, res.dispatches@)
        } by {
        let layout = op.plan.layout(elem.value());
        let addrs = layout.addrs(state.tile_idx as int);
        let tile = elem.value();
        assert(tile.bytes() >= 0) by (nonlinear_arith)
            requires
                tile.bytes() == tile.bytes_per_elem * (tile.shape.0 * tile.shape.1),
                tile.bytes_per_elem >= 0,
                tile.shape.0 >= 0,
                tile.shape.1 >= 0,
        ;
        lemma_layout_walks_rows(layout, state.tile_idx as int);
        lemma_leaves_in_chunks(addrs, op.par_dispatch as int, res.dispatches@);
    }
}

/// Storing a tile: its addresses, from end to end of its rows, leave in chunks,
/// one per cycle and one address each, and as many acknowledgements are
/// awaited.
pub proof fn law_single_store_waits_for_all<T: Copy>(op: OffChipStoreRamulator, elem: Elem<Tile<T>>)
    ensures
        forall|state: &mut StoreState<T>, res: WriteRequest|
            op.plan.tile_row > 0 && op.plan.accepts(*state, elem) && #[trigger] call_ensures(
                OffChipStoreRamulator::step::<T>,
                (&op, state, &elem),
                res,
            ) ==> exists|addrs: Seq<u64>, n: int|
                {
                    &&& #[trigger] walks_rows(
                        addrs,
                        op.plan.base_addr_byte + state.tile_idx * (elem.value().bytes_per_elem
                            * (op.plan.tile_row * op.plan.tile_col)),
                        op.plan.tile_row as int,
                        op.plan.tile_col * elem.value().bytes_per_elem,
                        op.plan.tensor_shape_tiled@.last() * op.plan.tile_col
                            * elem.value().bytes_per_elem,
                        op.plan.addr_offset as int,
                        n,
                    )
                    &&& res.acks == addrs.len()
                    &&& leaves_in_chunks(addrs, 1, res.dispatches@)
                },
{
    assert forall|state: &mut StoreState<T>, res: WriteRequest|
        op.plan.tile_row > 0 && op.plan.accepts(*state, elem) && #[trigger] call_ensures(
            OffChipStoreRamulator::step::<T>,
            (&op, state, &elem),
            res,
        ) implies exists|addrs: Seq<u64>, n: int|
        {
            &&& #[trigger] walks_rows(
                addrs,
                op.plan.base_addr_byte + state.tile_idx * (elem.value().bytes_per_elem
                    * (op.plan.tile_row * op.plan.tile_col)),
                op.plan.tile_row as int,
                op.plan.tile_col * elem.value().bytes_per_elem,
                op.plan.tensor_shape_tiled@.last() * op.plan.tile_col
                    * elem.value().bytes_per_elem,
                op.plan.addr_offset as int,
                n,
            )
            &&& res.acks == addrs.len()
            &&& leaves_in_chunks(addrs, 1, res.dispatches@)
        } by {
        let layout = op.plan.layout(elem.value());
        let addrs = layout.addrs(state.tile_idx as int);
        let tile = elem.value();
        assert(tile.bytes() >= 0) by (nonlinear_arith)
            requires
                tile.bytes() == tile.bytes_per_elem * (tile.shape.0 * tile.shape.1),
                tile.bytes_per_elem >= 0,
                tile.shape.0 >= 0,
                tile.shape.1 >= 0,
        ;
        lemma_layout_walks_rows(layout, state.tile_idx as int);
        lemma_leaves_in_chunks(addrs, 1, res.dispatches@);
    }
}

} // verus!
