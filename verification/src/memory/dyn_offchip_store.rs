//! Storing a stream of tiles whose shape is only known at run time.

use vstd::prelude::*;

use crate::memory::aw_trace::{aw_write_line, trace_aw_write};
use crate::memory::offchip_store::WriteRequest;
use crate::memory::requests::{
    dispatch, lemma_layout_walks_rows, lemma_leaves_in_chunks, leaves_in_chunks, walks_rows,
};
use crate::memory::shape_text::{json_numbers, read_shape, shape_from, ShapeError};
use crate::memory::store_plan::{StorePlan, StoreState, StoredTensor};
use crate::primitives::elem::{stop_of, Elem};
use crate::primitives::tensor::{shape_in_tiles, tiled_shape, untiled};
use crate::primitives::tile::Tile;
use crate::utils::indexing::{product, product_fits};

verus! {

/// Writes a stream of tiles, `par_dispatch` requests at a time, and traces
/// each write.
#[derive(Debug)]
pub struct DynOffChipStore {
    pub plan: StorePlan,
    pub par_dispatch: usize,
}

impl DynOffChipStore {
    /// A store of a tensor of shape `untiled_shape`, given in elements.
    pub fn new(
        untiled_shape: &Vec<usize>,
        tile_row: usize,
        tile_col: usize,
        store_path: Option<String>,
        base_addr_byte: u64,
        addr_offset: u64,
        par_dispatch: usize,
        id: u32,
    ) -> (res: Self)
        requires
            untiled_shape@.len() >= 2,
            tile_row > 0,
            tile_col > 0,
        ensures
            res.plan.tensor_shape_tiled@ == tiled_shape(untiled_shape@, tile_row, tile_col),
            res.plan.tile_row == tile_row,
            res.plan.tile_col == tile_col,
            res.plan.store_path == store_path,
            res.plan.base_addr_byte == base_addr_byte,
            res.plan.addr_offset == addr_offset,
            res.plan.id == id,
            res.par_dispatch == par_dispatch,
    {
        let tensor_shape_tiled = shape_in_tiles(untiled_shape, tile_row, tile_col);
        DynOffChipStore {
            plan: StorePlan {
                tensor_shape_tiled,
                tile_row,
                tile_col,
                store_path,
                base_addr_byte,
                addr_offset,
                id,
            },
            par_dispatch,
        }
    }

    /// A store of a tensor whose shape in elements is given by a text.
    pub fn from_shape_text(
        text: &str,
        tile_row: usize,
        tile_col: usize,
        store_path: Option<String>,
        base_addr_byte: u64,
        addr_offset: u64,
        par_dispatch: usize,
        id: u32,
    ) -> (res: Result<Self, ShapeError>)
        ensures
            match shape_from(json_numbers(text@), tile_row, tile_col) {
                Err(error) => res == Err::<Self, ShapeError>(error),
                Ok(shape) => {
                    &&& res is Ok
                    &&& res->Ok_0.plan.tensor_shape_tiled@ == tiled_shape(
                        shape,
                        tile_row,
                        tile_col,
                    )
                    &&& res->Ok_0.plan.tile_row == tile_row
                    &&& res->Ok_0.plan.tile_col == tile_col
                    &&& res->Ok_0.plan.store_path == store_path
                    &&& res->Ok_0.plan.base_addr_byte == base_addr_byte
                    &&& res->Ok_0.plan.addr_offset == addr_offset
                    &&& res->Ok_0.plan.id == id
                    &&& res->Ok_0.par_dispatch == par_dispatch
                },
            },
    {
        match read_shape(text, tile_row, tile_col) {
            Ok(shape) => Ok(
                DynOffChipStore::new(
                    &shape,
                    tile_row,
                    tile_col,
                    store_path,
                    base_addr_byte,
                    addr_offset,
                    par_dispatch,
                    id,
                ),
            ),
            Err(error) => Err(error),
        }
    }

    /// Takes one tile and plans its requests.
    pub fn step<T: Copy>(&self, state: &mut StoreState<T>, elem: &Elem<Tile<T>>) -> (res:
        WriteRequest)
        requires
            self.par_dispatch > 0,
            self.plan.state_ok(*old(state)),
            self.plan.accepts(*old(state), *elem),
        ensures
            res.writes(
                self.plan.layout(elem.value()).addrs(old(state).tile_idx as int),
                self.par_dispatch as int,
            ),
            self.plan.state_ok(*final(state)),
            self.plan.collects(*old(state), *elem, *final(state)),
            final(state).tile_idx == old(state).tile_idx + 1,
            final(state).n_bytes == Some(elem.value().bytes_per_elem),
    {
        let addrs = self.plan.step(state, elem);
        WriteRequest { dispatches: dispatch(&addrs, self.par_dispatch), acks: addrs.len() }
    }

    /// The tensor to save at the end of the stream, where it is to be saved.
    pub fn finish<T>(&self, state: StoreState<T>) -> (res: Option<StoredTensor<T>>)
        requires
            self.plan.state_ok(state),
            self.plan.store_path is Some ==> {
                let n = self.plan.tensor_shape_tiled@.len();
                &&& n >= 2
                &&& state.accum.data@.len() == product(self.plan.tensor_shape_tiled@)
                    * self.plan.tile_row * self.plan.tile_col
                &&& self.plan.tensor_shape_tiled@[n - 2] * self.plan.tile_row <= usize::MAX
            },
        ensures
            res is Some <==> self.plan.store_path is Some,
            res matches Some(tensor) ==> {
                &&& tensor.data@ == state.accum.data@
                &&& tensor.shape@ == untiled(
                    self.plan.tensor_shape_tiled@,
                    self.plan.tile_row,
                    self.plan.tile_col,
                )
            },
    {
        self.plan.finish(state)
    }

    /// The trace line for a tile whose writes were acknowledged by `cycle`.
    pub fn trace<T>(&self, elem: &Elem<Tile<T>>, cycle: u64) -> (res: String)
        ensures
            res@ == aw_write_line(
                self.plan.id,
                cycle,
                self.plan.tensor_shape_tiled@,
                elem.level() as u32,
                false,
            ),
    {
        trace_aw_write(
            self.plan.id,
            cycle,
            self.plan.tensor_shape_tiled.as_slice(),
            stop_of(elem),
            false,
        )
    }

    /// Elements that one tile writes.
    pub fn on_chip_req_elems(&self) -> (res: usize)
        requires
            self.plan.tile_row * self.plan.tile_col <= usize::MAX,
        ensures
            res == self.plan.tile_row * self.plan.tile_col,
    {
        self.plan.on_chip_req_elems()
    }

    /// Elements that the whole stream writes.
    pub fn stored_elems(&self) -> (res: usize)
        requires
            product_fits(self.plan.tensor_shape_tiled@),
            product(self.plan.tensor_shape_tiled@) * self.plan.tile_row <= usize::MAX,
            product(self.plan.tensor_shape_tiled@) * self.plan.tile_row * self.plan.tile_col
                <= usize::MAX,
        ensures
            res == product(self.plan.tensor_shape_tiled@) * self.plan.tile_row
                * self.plan.tile_col,
    {
        self.plan.stored_elems()
    }
}

/// Storing a tile: its addresses, from end to end of its rows, leave in chunks,
/// one per cycle and `par_dispatch` addresses each, and as many acknowledgements
/// are awaited.
pub proof fn law_dyn_store_waits_for_all<T: Copy>(op: DynOffChipStore, elem: Elem<Tile<T>>)
    requires
        op.par_dispatch > 0,
    ensures
        forall|state: &mut StoreState<T>, res: WriteRequest|
            op.plan.tile_row > 0 && op.plan.accepts(*state, elem) && #[trigger] call_ensures(
                DynOffChipStore::step::<T>,
                (&op, state, &elem),
                res,
            ) ==> exists|addrs: Seq<u64>, n: int|
                {
                    &&& #[trigger] walks_rows(
                        addrs,
                        op.plan.base_addr_byte + state.tile_idx * (elem.value().bytes_per_elem
                            * (op.plan.tile_row * op.plan.tile_col)),
                        op.plan.tile_row as int,
                        op.plan.tile_col * elem.value().bytes_per_elem,
                        op.plan.tensor_shape_tiled@.last() * op.plan.tile_col
                            * elem.value().bytes_per_elem,
                        op.plan.addr_offset as int,
                        n,
                    )
                    &&& res.acks == addrs.len()
                    &&& leaves_in_chunks(addrs, op.par_dispatch as int, res.dispatches@)
                },
{
    assert forall|state: &mut StoreState<T>, res: WriteRequest|
        op.plan.tile_row > 0 && op.plan.accepts(*state, elem) && #[trigger] call_ensures(
            DynOffChipStore::step::<T>,
            (&op, state, &elem),
            res,
        ) implies exists|addrs: Seq<u64>, n: int|
        {
            &&& #[trigger] walks_rows(
                addrs,
                op.plan.base_addr_byte + state.tile_idx * (elem.value().bytes_per_elem
                    * (op.plan.tile_row * op.plan.tile_col)),
                op.plan.tile_row as int,
                op.plan.tile_col * elem.value().bytes_per_elem,
                op.plan.tensor_shape_tiled@.last() * op.plan.tile_col
                    * elem.value().bytes_per_elem,
                op.plan.addr_offset as int,
                n,
            )
            &&& res.acks == addrs.len()
            &&& leaves_in_chunks(addrs, op.par_dispatch as int, res.dispatches@)
        } by {
        let layout = op.plan.layout(elem.value());
        let addrs = layout.addrs(state.tile_idx as int);
        let tile = elem.value();
        assert(tile.bytes() >= 0) by (nonlinear_arith)
            requires
                tile.bytes() == tile.bytes_per_elem * (tile.shape.0 * tile.shape.1),
                tile.bytes_per_elem >= 0,
                tile.shape.0 >= 0,
                tile.shape.1 >= 0,
        ;
        lemma_layout_walks_rows(layout, state.tile_idx as int);
        lemma_leaves_in_chunks(addrs, op.par_dispatch as int, res.dispatches@);
    }
}

} // verus!
