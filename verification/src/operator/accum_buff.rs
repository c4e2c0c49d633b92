//! Reducing the outer dimensions of a stream onto a buffer.

use vstd::arithmetic::div_mod::{lemma_fundamental_div_mod, lemma_fundamental_div_mod_converse};
use vstd::prelude::*;

use crate::operator::accum::{ends_reduction, reduced, AccumConfig, AccumStep};
use crate::operator::map::{load_of, loadable};
use crate::primitives::buffer::Buffer;
use crate::primitives::elem::{mu_cycles, transfer_cycles, Elem, StopType};
use crate::primitives::tile::{lemma_tile_cycles, tile_cycles, Tile};
use crate::utils::calculation::{roofline, roofline_cycles};
use crate::utils::indexing::{
    count_positions, law_stop_level, lemma_product_nonneg, positive, product, product_fits,
    stop_level,
};

verus! {

/// Higher-order reduction operator.
///
/// Where [`Accum`](crate::operator::accum::Accum) reduces a stream onto a
/// single accumulator tile, `AccumBuff` reduces onto a *buffer* of accumulator
/// tiles. By stop level the dimensions form three contiguous bands:
///
/// * **retained** (levels `1..=L`, where `L = buffer_shape.len()`): the
///   innermost dimensions; they become the accumulator-buffer slots.
/// * **reduced** (levels `L+1..=rank`): folded into the buffer.
/// * **passthrough** (levels `> rank`): outer dimensions streamed through
///   unchanged; each completed buffer closes `level - rank` dimensions.
///
/// Because the retained dimensions are streamed innermost in identical
/// row-major order on every reduction pass, a single flat index that
/// increments per tile and wraps modulo the number of slots always selects the
/// correct accumulator slot.
pub struct AccumBuff<F, I> {
    pub func: F,
    pub init_accum: I,
    /// Stop level at which one complete reduction group flushes.
    pub rank: StopType,
    /// Extents of the retained (innermost) dimensions.
    pub buffer_shape: Vec<usize>,
    /// Row extent of each accumulator slot tile, or `0` if it is taken from
    /// the first input tile of each reduction group.
    pub tile_row: usize,
    /// Column extent of each accumulator slot tile, or `0` if it is taken from
    /// the first input tile of each reduction group.
    pub tile_col: usize,
    pub config: AccumConfig,
    pub id: u32,
}

/// The slots of the current group, none before its first tile, and the slot
/// for the next tile.
pub struct AccumBuffState<OT> {
    pub accumulators: Vec<Tile<OT>>,
    pub index: usize,
}

impl<F, I> AccumBuff<F, I> {
    /// Number of slots.
    pub open spec fn slots(&self) -> int {
        product(self.buffer_shape@)
    }

    /// There is at least one slot.
    pub open spec fn wf(&self) -> bool {
        product_fits(self.buffer_shape@) && self.slots() > 0
    }

    /// The state between two elements.
    pub open spec fn state_ok<OT>(&self, state: AccumBuffState<OT>) -> bool {
        &&& state.accumulators@.len() == 0 || state.accumulators@.len() == self.slots()
        &&& state.index < self.slots()
    }

    /// Rows of a slot, for a group that begins with a tile.
    pub open spec fn slot_rows<T>(&self, tile: Tile<T>) -> usize {
        if self.tile_row == 0 {
            tile.shape.0
        } else {
            self.tile_row
        }
    }

    /// Columns of a slot, for a group that begins with a tile.
    pub open spec fn slot_cols<T>(&self, tile: Tile<T>) -> usize {
        if self.tile_col == 0 {
            tile.shape.1
        } else {
            self.tile_col
        }
    }

    /// `slots` are those that a tile is folded into: the ones at hand, or new
    /// ones at the start of a group.
    pub open spec fn opens<T, OT>(
        &self,
        state: AccumBuffState<OT>,
        tile: Tile<T>,
        slots: Seq<Tile<OT>>,
    ) -> bool where I: Fn(usize, usize) -> Tile<OT> {
        if state.accumulators@.len() > 0 {
            slots == state.accumulators@
        } else {
            &&& slots.len() == self.slots()
            &&& forall|k: int|
                0 <= k < slots.len() ==> call_ensures(
                    self.init_accum,
                    (self.slot_rows(tile), self.slot_cols(tile)),
                    #[trigger] slots[k],
                )
        }
    }

    /// `out` is what the function makes of a tile and a slot.
    pub open spec fn folds<T, OT>(
        &self,
        tile: Tile<T>,
        slot: Tile<OT>,
        out: (u64, Tile<OT>),
    ) -> bool where F: Fn(&Tile<T>, &Tile<OT>, u64, bool) -> (u64, Tile<OT>) {
        call_ensures(
            self.func,
            (&tile, &slot, self.config.compute_bw, self.config.write_back_mu),
            out,
        )
    }

    /// The tile can be folded into the slots.
    pub open spec fn foldable<T, OT>(
        &self,
        state: AccumBuffState<OT>,
        tile: Tile<T>,
        now: u64,
    ) -> bool where
        F: Fn(&Tile<T>, &Tile<OT>, u64, bool) -> (u64, Tile<OT>),
        I: Fn(usize, usize) -> Tile<OT>,
     {
        forall|slots: Seq<Tile<OT>>|
            #[trigger] self.opens(state, tile, slots) ==> {
                &&& slots[0].sized()
                &&& call_requires(
                    self.func,
                    (
                        &tile,
                        &slots[state.index as int],
                        self.config.compute_bw,
                        self.config.write_back_mu,
                    ),
                )
                &&& forall|out: (u64, Tile<OT>)| #[trigger]
                    self.folds(tile, slots[state.index as int], out) ==> now + self.cycles(
                        tile,
                        slots,
                        out,
                    ) <= u64::MAX
            }
    }

    /// The cycles for a tile: a slot is loaded and stored.
    pub open spec fn cycles<T, OT>(
        &self,
        tile: Tile<T>,
        slots: Seq<Tile<OT>>,
        out: (u64, Tile<OT>),
    ) -> int {
        let slot = mu_cycles(true, slots[0].bytes());
        roofline(slot + load_of(tile), out.0 as int, slot)
    }

    /// What is done for an element, given the slots and what the function made
    /// of the one that the element is folded into.
    pub open spec fn is_step_with<T, OT>(
        &self,
        before: AccumBuffState<OT>,
        elem: Elem<Tile<T>>,
        now: u64,
        after: AccumBuffState<OT>,
        res: AccumStep<Buffer<Tile<OT>>>,
        slots: Seq<Tile<OT>>,
        out: (u64, Tile<OT>),
    ) -> bool where
        F: Fn(&Tile<T>, &Tile<OT>, u64, bool) -> (u64, Tile<OT>),
        I: Fn(usize, usize) -> Tile<OT>,
     {
        let updated = slots.update(before.index as int, out.1);
        &&& self.opens(before, elem.value(), slots)
        &&& self.folds(elem.value(), slots[before.index as int], out)
        &&& res.cycles == self.cycles(elem.value(), slots, out)
        &&& if ends_reduction(self.rank, elem) {
            &&& res.out is Some
            &&& res.out->0 == reduced(self.rank, elem, res.out->0.value())
            &&& res.out->0.value().shape@ == self.buffer_shape@
            &&& res.out->0.value().data@ == updated
            &&& res.out->0.value().creation_time == now + res.cycles
            &&& after.accumulators@.len() == 0
            &&& after.index == 0
        } else {
            &&& res.out is None
            &&& after.accumulators@ == updated
            &&& after.index == (before.index + 1) % self.slots()
        }
    }

    /// What is done for an element, and the next state.
    pub open spec fn is_step<T, OT>(
        &self,
        before: AccumBuffState<OT>,
        elem: Elem<Tile<T>>,
        now: u64,
        after: AccumBuffState<OT>,
        res: AccumStep<Buffer<Tile<OT>>>,
    ) -> bool where
        F: Fn(&Tile<T>, &Tile<OT>, u64, bool) -> (u64, Tile<OT>),
        I: Fn(usize, usize) -> Tile<OT>,
     {
        exists|slots: Seq<Tile<OT>>, out: (u64, Tile<OT>)| #[trigger]
            self.is_step_with(before, elem, now, after, res, slots, out)
    }

    pub fn new(
        func: F,
        init_accum: I,
        rank: StopType,
        buffer_shape: Vec<usize>,
        tile_row: usize,
        tile_col: usize,
        config: AccumConfig,
        id: u32,
    ) -> (res: Self)
        ensures
            res == (AccumBuff {
                func,
                init_accum,
                rank,
                buffer_shape,
                tile_row,
                tile_col,
                config,
                id,
            }),
    {
        AccumBuff { func, init_accum, rank, buffer_shape, tile_row, tile_col, config, id }
    }

    /// The state before the first element.
    pub fn start<OT>(&self) -> (res: AccumBuffState<OT>)
        requires
            self.wf(),
        ensures
            self.state_ok(res),
            res.accumulators@.len() == 0,
            res.index == 0,
    {
        AccumBuffState { accumulators: Vec::new(), index: 0 }
    }

    /// Builds the slots for a group that begins with a tile.
    fn build<T, OT>(&self, n: usize, tile: &Tile<T>) -> (res: Vec<Tile<OT>>) where
        I: Fn(usize, usize) -> Tile<OT>,

        requires
            call_requires(self.init_accum, (self.slot_rows(*tile), self.slot_cols(*tile))),
        ensures
            res@.len() == n,
            forall|k: int|
                0 <= k < n ==> call_ensures(
                    self.init_accum,
                    (self.slot_rows(*tile), self.slot_cols(*tile)),
                    #[trigger] res@[k],
                ),
    {
        let rows: usize = if self.tile_row == 0 {
            tile.shape.0
        } else {
            self.tile_row
        };
        let cols: usize = if self.tile_col == 0 {
            tile.shape.1
        } else {
            self.tile_col
        };
        let mut slots: Vec<Tile<OT>> = Vec::new();
        let mut k: usize = 0;
        while k < n
            invariant
                k <= n,
                rows == self.slot_rows(*tile),
                cols == self.slot_cols(*tile),
                call_requires(self.init_accum, (rows, cols)),
                slots@.len() == k,
                forall|j: int|
                    0 <= j < k ==> call_ensures(
                        self.init_accum,
                        (rows, cols),
                        #[trigger] slots@[j],
                    ),
            decreases n - k,
        {
            slots.push((self.init_accum)(rows, cols));
            k = k + 1;
        }
        slots
    }

    /// Folds one element, taken in cycle `now`, into its slot. The element
    /// that ends a group sends the buffer of all slots.
    pub fn step<T, OT>(
        &self,
        state: &mut AccumBuffState<OT>,
        elem: &Elem<Tile<T>>,
        now: u64,
    ) -> (res: AccumStep<Buffer<Tile<OT>>>) where
        F: Fn(&Tile<T>, &Tile<OT>, u64, bool) -> (u64, Tile<OT>),
        I: Fn(usize, usize) -> Tile<OT>,

        requires
            self.wf(),
            self.state_ok(*old(state)),
            loadable(elem.value()),
            old(state).accumulators@.len() == 0 ==> call_requires(
                self.init_accum,
                (self.slot_rows(elem.value()), self.slot_cols(elem.value())),
            ),
            self.foldable(*old(state), elem.value(), now),
        ensures
            self.state_ok(*final(state)),
            self.is_step(*old(state), *elem, now, *final(state), res),
    {
        let (tile, level, stops) = match elem {
            Elem::Val(tile) => (tile, 0, false),
            Elem::ValStop(tile, level) => (tile, *level, true),
        };
        let n: usize = count_positions(&self.buffer_shape);
        let ghost before = *state;
        if state.accumulators.len() == 0 {
            state.accumulators = self.build(n, tile);
        }
        let ghost slots = state.accumulators@;
        assert(self.opens(before, elem.value(), slots));
        let index: usize = state.index;
        let store: u64 = transfer_cycles(&state.accumulators[0], true);
        let load: u64 = store + transfer_cycles(tile, tile.read_from_mu);
        let (compute, next) = (self.func)(
            tile,
            &state.accumulators[index],
            self.config.compute_bw,
            self.config.write_back_mu,
        );
        let ghost out = (compute, next);
        assert(self.folds(elem.value(), slots[index as int], out));
        let cycles: u64 = roofline_cycles(load, compute, store);
        state.accumulators[index] = next;
        assert(state.accumulators@ == slots.update(index as int, out.1));
        assert(now + self.cycles(elem.value(), slots, out) <= u64::MAX);
        if stops && level >= self.rank {
            let mut data: Vec<Tile<OT>> = Vec::new();
            let shape = self.buffer_shape.clone();
            assert(shape@ =~= self.buffer_shape@);
            data.append(&mut state.accumulators);
            assert(data@ =~= slots.update(index as int, out.1));
            state.index = 0;
            let buffer = Buffer::new(shape, data, now + cycles);
            let rest: StopType = level - self.rank;
            let sent = if rest == 0 {
                Elem::Val(buffer)
            } else {
                Elem::ValStop(buffer, rest)
            };
            let step = AccumStep { cycles, out: Some(sent) };
            assert(self.is_step_with(*old(state), *elem, now, *state, step, slots, out));
            step
        } else {
            state.index = if index + 1 == n {
                0
            } else {
                index + 1
            };
            proof {
                if index + 1 == n {
                    vstd::arithmetic::div_mod::lemma_mod_self_0(n as int);
                } else {
                    vstd::arithmetic::div_mod::lemma_small_mod((index + 1) as nat, n as nat);
                }
            }
            let step = AccumStep { cycles, out: None };
            assert(self.is_step_with(*old(state), *elem, now, *state, step, slots, out));
            step
        }
    }
}

/// The slot for the `k`-th tile of a group: the index wraps after each sweep.
pub open spec fn slot_of(slots: int, k: nat) -> int
    decreases k,
{
    if k == 0 {
        0
    } else {
        (slot_of(slots, (k - 1) as nat) + 1) % slots
    }
}

/// Where the reduced dimensions lie directly outside the retained ones, the
/// wrapping index selects for every tile the slot of its retained coordinates,
/// and a boundary of a reduced dimension lands back on slot zero.
pub proof fn law_index_selects_retained_slot(
    reduced_shape: Seq<usize>,
    retained_shape: Seq<usize>,
    k: nat,
)
    requires
        positive(reduced_shape),
        positive(retained_shape),
        k < product(reduced_shape + retained_shape),
    ensures
        slot_of(product(retained_shape), k) == k % product(retained_shape) as nat,
        stop_level(reduced_shape + retained_shape, k as int) >= retained_shape.len() <==> slot_of(
            product(retained_shape),
            k + 1,
        ) == 0,
{
    let shape = reduced_shape + retained_shape;
    assert(positive(shape)) by {
        assert forall|i: int| 0 <= i < shape.len() implies #[trigger] shape[i] > 0 by {
            if i < reduced_shape.len() {
                assert(reduced_shape[i] > 0);
            } else {
                assert(retained_shape[i - reduced_shape.len()] > 0);
            }
        }
    }
    lemma_product_nonneg(retained_shape);
    let n = product(retained_shape);
    lemma_slot_is_remainder(n, k);
    lemma_slot_is_remainder(n, k + 1);
    law_stop_level(shape, k as int, retained_shape.len() as int);
    assert(shape.skip(shape.len() - retained_shape.len()) =~= retained_shape);
}

proof fn lemma_slot_is_remainder(n: int, k: nat)
    requires
        n > 0,
    ensures
        slot_of(n, k) == k as int % n,
    decreases k,
{
    if k > 0 {
        lemma_slot_is_remainder(n, (k - 1) as nat);
        vstd::arithmetic::div_mod::lemma_add_mod_noop(k - 1, 1, n);
        if n == 1 {
        } else {
            vstd::arithmetic::div_mod::lemma_small_mod(1, n as nat);
        }
    } else {
        vstd::arithmetic::div_mod::lemma_small_mod(0, n as nat);
    }
}

/// How many of the first `k` tiles of a group belong to slot `j`.
pub open spec fn tiles_for_slot(slots: int, k: int, j: int) -> int {
    if k <= j {
        0
    } else {
        (k - 1 - j) / slots + 1
    }
}

impl<F, I> AccumBuff<F, I> {
    /// `next` is what the function makes of a tile and a slot, in some number
    /// of cycles.
    pub open spec fn folds_to<T, OT>(
        &self,
        tile: Tile<T>,
        slot: Tile<OT>,
        next: Tile<OT>,
    ) -> bool where F: Fn(&Tile<T>, &Tile<OT>, u64, bool) -> (u64, Tile<OT>) {
        exists|cycles: u64| #[trigger] self.folds(tile, slot, (cycles, next))
    }

    /// `trace` lists what slot `j` holds: a new tile, and then, for each of
    /// its tiles among the first `k` of a group, what that tile is folded to.
    /// The tiles of slot `j` are those at `j`, one sweep behind it, and so on.
    pub open spec fn is_slot_trace<T, OT>(
        &self,
        group: Seq<Elem<Tile<T>>>,
        j: int,
        k: int,
        trace: Seq<Tile<OT>>,
    ) -> bool where
        F: Fn(&Tile<T>, &Tile<OT>, u64, bool) -> (u64, Tile<OT>),
        I: Fn(usize, usize) -> Tile<OT>,
     {
        &&& trace.len() == tiles_for_slot(self.slots(), k, j) + 1
        &&& call_ensures(
            self.init_accum,
            (self.slot_rows(group[0].value()), self.slot_cols(group[0].value())),
            trace[0],
        )
        &&& forall|i: int|
            0 <= i < trace.len() - 1 ==> self.folds_to(
                group[j + i * self.slots()].value(),
                trace[i],
                #[trigger] trace[i + 1],
            )
    }

    /// `value` is the fold of the tiles of slot `j` among the first `k` of a
    /// group.
    pub open spec fn is_slot_fold<T, OT>(
        &self,
        group: Seq<Elem<Tile<T>>>,
        j: int,
        k: int,
        value: Tile<OT>,
    ) -> bool where
        F: Fn(&Tile<T>, &Tile<OT>, u64, bool) -> (u64, Tile<OT>),
        I: Fn(usize, usize) -> Tile<OT>,
     {
        exists|trace: Seq<Tile<OT>>| #[trigger]
            self.is_slot_trace(group, j, k, trace) && value == trace.last()
    }

    /// The states and results are those of a run of steps over a whole group.
    pub open spec fn is_group_run<T, OT>(
        &self,
        group: Seq<Elem<Tile<T>>>,
        times: Seq<u64>,
        states: Seq<AccumBuffState<OT>>,
        results: Seq<AccumStep<Buffer<Tile<OT>>>>,
    ) -> bool where
        F: Fn(&Tile<T>, &Tile<OT>, u64, bool) -> (u64, Tile<OT>),
        I: Fn(usize, usize) -> Tile<OT>,
     {
        &&& group.len() > 0
        &&& states.len() == group.len() + 1
        &&& results.len() == group.len()
        &&& states[0].accumulators@.len() == 0
        &&& states[0].index == 0
        &&& forall|k: int|
            0 <= k < group.len() ==> self.is_step(
                states[k],
                group[k],
                times[k],
                states[k + 1],
                #[trigger] results[k],
            )
        &&& forall|k: int|
            0 <= k < group.len() ==> (ends_reduction(self.rank, #[trigger] group[k]) <==> k
                == group.len() - 1)
    }
}

/// What the slots hold after the first `k` tiles of a group.
pub open spec fn slots_after<OT>(
    states: Seq<AccumBuffState<OT>>,
    results: Seq<AccumStep<Buffer<Tile<OT>>>>,
    k: int,
) -> Seq<Tile<OT>> {
    if k < results.len() {
        states[k].accumulators@
    } else {
        results.last().out->0.value().data@
    }
}

/// A buffer holds in slot `j` the fold of the tiles of its group at `j`, one
/// sweep of the buffer behind it, two sweeps behind it and so on, beginning
/// with a new tile. Until then the index of the state is the slot of the next
/// tile.
pub proof fn law_slots_fold_their_tiles<F, I, T, OT>(
    op: AccumBuff<F, I>,
    group: Seq<Elem<Tile<T>>>,
    times: Seq<u64>,
    states: Seq<AccumBuffState<OT>>,
    results: Seq<AccumStep<Buffer<Tile<OT>>>>,
) where
    F: Fn(&Tile<T>, &Tile<OT>, u64, bool) -> (u64, Tile<OT>),
    I: Fn(usize, usize) -> Tile<OT>,

    requires
        op.wf(),
        op.is_group_run(group, times, states, results),
    ensures
        forall|k: int|
            0 <= k < group.len() ==> (#[trigger] states[k]).index == slot_of(
                op.slots(),
                k as nat,
            ),
        results.last().out is Some,
        results.last().out->0.value().data@.len() == op.slots(),
        forall|j: int|
            0 <= j < op.slots() ==> op.is_slot_fold(
                group,
                j,
                group.len() as int,
                #[trigger] results.last().out->0.value().data@[j],
            ),
{
    assert forall|k: int| 0 <= k < group.len() implies (#[trigger] states[k]).index == slot_of(
        op.slots(),
        k as nat,
    ) by {
        if k > 0 {
            lemma_slots_after(op, group, times, states, results, k, 0);
        }
    }
    lemma_slots_after(op, group, times, states, results, group.len() as int, 0);
    assert(op.is_step(
        states[group.len() - 1],
        group[group.len() - 1],
        times[group.len() - 1],
        states[group.len() - 1 + 1],
        results[group.len() - 1],
    ));
    assert forall|j: int| 0 <= j < op.slots() implies op.is_slot_fold(
        group,
        j,
        group.len() as int,
        #[trigger] results.last().out->0.value().data@[j],
    ) by {
        lemma_slots_after(op, group, times, states, results, group.len() as int, j);
    }
}

/// One more tile belongs to the slot of its remainder.
proof fn lemma_tiles_for_slot(slots: int, k: int, j: int)
    requires
        0 <= j < slots,
        k >= 0,
    ensures
        tiles_for_slot(slots, k + 1, j) == tiles_for_slot(slots, k, j) + (if k % slots == j {
            1int
        } else {
            0
        }),
        k % slots == j ==> k == j + tiles_for_slot(slots, k, j) * slots,
        tiles_for_slot(slots, k, j) >= 0,
{
    let q = k / slots;
    let r = k % slots;
    lemma_fundamental_div_mod(k, slots);
    vstd::arithmetic::div_mod::lemma_mod_bound(k, slots);
    assert(q >= 0) by (nonlinear_arith)
        requires
            k >= 0,
            slots > 0,
            q == k / slots,
    ;
    assert(slots * q == q * slots) by (nonlinear_arith);
    // The quotient of `k - j`, and of `k - 1 - j`.
    if r >= j {
        lemma_fundamental_div_mod_converse(k - j, slots, q, r - j);
    } else {
        assert((q - 1) * slots == q * slots - slots) by (nonlinear_arith);
        if q > 0 {
            lemma_fundamental_div_mod_converse(k - j, slots, q - 1, r - j + slots);
        }
    }
    if r > j {
        lemma_fundamental_div_mod_converse(k - 1 - j, slots, q, r - 1 - j);
    } else {
        assert((q - 1) * slots == q * slots - slots) by (nonlinear_arith);
        if q > 0 {
            lemma_fundamental_div_mod_converse(k - 1 - j, slots, q - 1, r - 1 - j + slots);
        }
    }
    if q == 0 && r <= j {
        assert(k <= j);
    }
}

/// What slot `j` holds, and the index, after the first `k` tiles of a group.
proof fn lemma_slots_after<F, I, T, OT>(
    op: AccumBuff<F, I>,
    group: Seq<Elem<Tile<T>>>,
    times: Seq<u64>,
    states: Seq<AccumBuffState<OT>>,
    results: Seq<AccumStep<Buffer<Tile<OT>>>>,
    k: int,
    j: int,
) where
    F: Fn(&Tile<T>, &Tile<OT>, u64, bool) -> (u64, Tile<OT>),
    I: Fn(usize, usize) -> Tile<OT>,

    requires
        op.wf(),
        op.is_group_run(group, times, states, results),
        0 < k <= group.len(),
        0 <= j < op.slots(),
    ensures
        slots_after(states, results, k).len() == op.slots(),
        op.is_slot_fold(group, j, k, slots_after(states, results, k)[j]),
        k < group.len() ==> states[k].index == slot_of(op.slots(), k as nat),
    decreases k,
{
    let n = op.slots();
    let m = k - 1;
    let before = states[m];
    assert(op.is_step(before, group[m], times[m], states[m + 1], results[m]));
    let (slots, out) = choose|slots: Seq<Tile<OT>>, out: (u64, Tile<OT>)| #[trigger]
        op.is_step_with(before, group[m], times[m], states[m + 1], results[m], slots, out);
    assert(ends_reduction(op.rank, group[m]) <==> m == group.len() - 1);
    if m > 0 {
        lemma_slots_after(op, group, times, states, results, m, j);
    }
    lemma_slot_is_remainder(n, m as nat);
    lemma_tiles_for_slot(n, m, j);
    let after = slots_after(states, results, k);
    assert(after == slots.update(before.index as int, out.1));
    // What the slot held before.
    let trace = if m == 0 {
        seq![slots[j]]
    } else {
        choose|trace: Seq<Tile<OT>>| #[trigger]
            op.is_slot_trace(group, j, m, trace) && slots[j] == trace.last()
    };
    assert(op.is_slot_trace(group, j, m, trace) && slots[j] == trace.last());
    if before.index == j {
        let longer = trace.push(out.1);
        assert(op.folds_to(group[m].value(), slots[j], out.1)) by {
            assert(op.folds(group[m].value(), slots[j], (out.0, out.1)));
        }
        assert forall|i: int| 0 <= i < longer.len() - 1 implies op.folds_to(
            group[j + i * n].value(),
            longer[i],
            #[trigger] longer[i + 1],
        ) by {
            if i < trace.len() - 1 {
                assert(op.folds_to(group[j + i * n].value(), trace[i], trace[i + 1]));
            }
        }
        assert(op.is_slot_trace(group, j, k, longer));
        assert(after[j] == longer.last());
    } else {
        assert(op.is_slot_trace(group, j, k, trace));
        assert(after[j] == trace.last());
    }
}

/// One step of a buffered reduction: the slot whose turn it is takes the tile.
/// Loading the slot and the tile overlaps with computing and with storing the
/// slot. The end of a group sends all slots as a buffer, made when the step is
/// done, with the stops that are left, and the next group begins with the first
/// slot; otherwise the turn goes to the next slot, and around.
pub proof fn law_slots_take_turns<F, I, T, OT>(
    op: AccumBuff<F, I>,
    before: AccumBuffState<OT>,
    elem: Elem<Tile<T>>,
    now: u64,
    after: AccumBuffState<OT>,
    res: AccumStep<Buffer<Tile<OT>>>,
) where
    F: Fn(&Tile<T>, &Tile<OT>, u64, bool) -> (u64, Tile<OT>),
    I: Fn(usize, usize) -> Tile<OT>,

    requires
        op.wf(),
        op.state_ok(before),
        op.is_step(before, elem, now, after, res),
    ensures
        exists|slots: Seq<Tile<OT>>, out: (u64, Tile<OT>)|
            {
                let ends = elem is ValStop && elem.level() >= op.rank;
                let next = slots.update(before.index as int, out.1);
                let slot = tile_cycles(true, slots[0]);
                &&& #[trigger] call_ensures(
                    op.func,
                    (
                        &elem.value(),
                        &slots[before.index as int],
                        op.config.compute_bw,
                        op.config.write_back_mu,
                    ),
                    out,
                )
                &&& slots.len() == product(op.buffer_shape@)
                &&& before.accumulators@.len() > 0 ==> slots == before.accumulators@
                &&& before.accumulators@.len() == 0 ==> forall|k: int|
                    0 <= k < slots.len() ==> call_ensures(
                        op.init_accum,
                        (
                            if op.tile_row == 0 {
                                elem.value().shape.0
                            } else {
                                op.tile_row
                            },
                            if op.tile_col == 0 {
                                elem.value().shape.1
                            } else {
                                op.tile_col
                            },
                        ),
                        #[trigger] slots[k],
                    )
                &&& res.cycles == vstd::math::max(
                    vstd::math::max(
                        slot + tile_cycles(elem.value().read_from_mu, elem.value()),
                        out.0 as int,
                    ),
                    slot,
                )
                &&& ends ==> {
                    &&& res.out is Some
                    &&& res.out->0.level() == elem.level() - op.rank
                    &&& res.out->0 is Val <==> elem.level() == op.rank
                    &&& res.out->0.value().shape@ == op.buffer_shape@
                    &&& res.out->0.value().data@ == next
                    &&& res.out->0.value().creation_time == now + res.cycles
                    &&& after.accumulators@.len() == 0
                    &&& after.index == 0
                }
                &&& !ends ==> {
                    &&& res.out is None
                    &&& after.accumulators@ == next
                    &&& after.index == (if before.index + 1 == slots.len() {
                        0
                    } else {
                        before.index + 1
                    })
                }
            },
{
    let (slots, out) = choose|slots: Seq<Tile<OT>>, out: (u64, Tile<OT>)| #[trigger]
        op.is_step_with(before, elem, now, after, res, slots, out);
    assert(op.is_step_with(before, elem, now, after, res, slots, out));
    lemma_tile_cycles(true, slots[0]);
    lemma_tile_cycles(elem.value().read_from_mu, elem.value());
    let n = op.slots();
    if before.index + 1 < n {
        vstd::arithmetic::div_mod::lemma_small_mod((before.index + 1) as nat, n as nat);
    } else {
        vstd::arithmetic::div_mod::lemma_mod_self_0(n);
    }
    assert(call_ensures(
        op.func,
        (
            &elem.value(),
            &slots[before.index as int],
            op.config.compute_bw,
            op.config.write_back_mu,
        ),
        out,
    ));
}

} // verus!
