//! Row-wise mean and variance of the innermost dimensions of a stream.

use core::ops::{Add, Div, Mul, Sub};
use vstd::prelude::*;
use vstd::std_specs::ops::{AddSpec, DivSpec, MulSpec, SubSpec};

use crate::functions::elementwise::{difference_of, product_of, quotient_of, sum_of};
use crate::operator::accum::{ends_reduction, reduced, AccumStep};
use crate::operator::map::{load_of, loadable};
use crate::primitives::array::Array2;
use crate::primitives::elem::{mu_cycles, transfer_cycles, Elem, StopType};
use crate::primitives::tile::{blank_tile, lemma_tile_cycles, tile_cycles, Tile};
use crate::utils::calculation::{
    ceil_div, div_ceil, lemma_ceil_div, roofline, roofline_cycles,
};

verus! {

/// Which row-wise statistic the operator emits at the end of a reduction group.
#[derive(Clone, Copy, Debug, PartialEq, Eq)]
pub enum RowStat {
    Mean,
    Var,
}

#[derive(Debug, Clone, Copy)]
pub struct AccumRowStatConfig {
    pub compute_bw: u64,
    pub write_back_mu: bool,
    pub stat: RowStat,
    /// The number of elements per row where it is known beforehand; counted
    /// otherwise.
    pub count: Option<u64>,
}

/// Running Welford state for one reduction group, one entry per tile row.
#[derive(Debug)]
pub struct GroupState<T> {
    pub mean: Vec<T>,
    pub m2: Vec<T>,
    /// Elements folded into *each* row so far (identical across rows).
    pub n: u64,
    /// Non-padded row count, carried over from the most recent input tile.
    pub offset: usize,
    /// Cleared by the first blank (timing-only) tile in the group.
    pub has_data: bool,
    pub started: bool,
}

/// Row-wise mean / variance over the innermost `rank` stream ranks.
///
/// Unlike [`Accum`](crate::operator::accum::Accum), the accumulator is *not*
/// the output: tiles of `R` rows collapse to a single tile of `R` rows and one
/// column per reduction group, so the tile's columns are reduced alongside the
/// stream ranks.
///
/// The running state is Welford's. The cycle model instead prices the
/// two-accumulator (sum, sum of squares) datapath the hardware would use.
/// `of_count` converts a count to the type of the elements.
pub struct AccumRowStat<T, C> {
    pub rank: StopType,
    pub bytes_per_elem: usize,
    pub config: AccumRowStatConfig,
    pub zero: T,
    pub of_count: C,
    pub id: u32,
}

/// One step of Welford's recurrence: `x` is the `count`-th element.
pub open spec fn welford_step<
    T: Add<Output = T> + Sub<Output = T> + Mul<Output = T> + Div<Output = T>,
>(x: T, count: T, before: (T, T), after: (T, T)) -> bool {
    exists|delta: T, correction: T, rest: T, square: T|
        {
            &&& #[trigger] difference_of(x, before.0, delta)
            &&& #[trigger] quotient_of(delta, count, correction)
            &&& sum_of(before.0, correction, after.0)
            &&& #[trigger] difference_of(x, after.0, rest)
            &&& #[trigger] product_of(delta, rest, square)
            &&& sum_of(before.1, square, after.1)
        }
}

/// The operations of a step of Welford's recurrence can be carried out.
pub open spec fn welford_defined<
    T: Add<Output = T> + Sub<Output = T> + Mul<Output = T> + Div<Output = T>,
>(x: T, count: T, before: (T, T)) -> bool {
    &&& x.sub_req(before.0)
    &&& forall|delta: T|
        #![trigger difference_of(x, before.0, delta)]
        difference_of(x, before.0, delta) ==> {
            &&& delta.div_req(count)
            &&& forall|correction: T|
                #![trigger quotient_of(delta, count, correction)]
                quotient_of(delta, count, correction) ==> {
                    &&& before.0.add_req(correction)
                    &&& forall|mean: T|
                        #![trigger sum_of(before.0, correction, mean)]
                        sum_of(before.0, correction, mean) ==> {
                            &&& x.sub_req(mean)
                            &&& forall|rest: T|
                                #![trigger difference_of(x, mean, rest)]
                                difference_of(x, mean, rest) ==> {
                                    &&& delta.mul_req(rest)
                                    &&& forall|square: T|
                                        #![trigger product_of(delta, rest, square)]
                                        product_of(delta, rest, square) ==> before.1.add_req(
                                            square,
                                        )
                                }
                        }
                }
        }
}

/// `trace` lists mean and squared deviation after each of the first `n` cells
/// of row `i`, where `counts` lists the counts.
pub open spec fn is_welford_trace<
    T: Add<Output = T> + Sub<Output = T> + Mul<Output = T> + Div<Output = T>,
>(
    array: Array2<T>,
    i: int,
    counts: Seq<T>,
    n: int,
    start: (T, T),
    trace: Seq<(T, T)>,
) -> bool {
    &&& trace.len() == n + 1
    &&& trace[0] == start
    &&& forall|j: int|
        0 <= j < n ==> welford_step(array.at(i, j), counts[j], trace[j], #[trigger] trace[j + 1])
}

/// Every step of a row can be carried out.
pub open spec fn row_defined<
    T: Add<Output = T> + Sub<Output = T> + Mul<Output = T> + Div<Output = T>,
>(array: Array2<T>, i: int, counts: Seq<T>, start: (T, T)) -> bool {
    forall|j: int, trace: Seq<(T, T)>|
        0 <= j < array.cols && #[trigger] is_welford_trace(array, i, counts, j, start, trace)
            ==> welford_defined(array.at(i, j), counts[j], trace.last())
}

/// `after` is what a row makes of its running quantities.
pub open spec fn is_folded_row<
    T: Add<Output = T> + Sub<Output = T> + Mul<Output = T> + Div<Output = T>,
>(array: Array2<T>, i: int, counts: Seq<T>, start: (T, T), after: (T, T)) -> bool {
    exists|trace: Seq<(T, T)>|
        #[trigger] is_welford_trace(array, i, counts, array.cols as int, start, trace) && after
            == trace.last()
}

impl<T> GroupState<T> {
    /// Both running quantities have an entry for each row.
    pub open spec fn wf(&self) -> bool {
        self.mean@.len() == self.m2@.len()
    }

    /// Nothing has been folded in.
    pub open spec fn is_reset(&self) -> bool {
        &&& self.mean@.len() == 0
        &&& self.m2@.len() == 0
        &&& self.n == 0
        &&& self.offset == 0
        &&& self.has_data
        &&& !self.started
    }

    pub fn new() -> (res: Self)
        ensures
            res.is_reset(),
            res.wf(),
    {
        GroupState {
            mean: Vec::new(),
            m2: Vec::new(),
            n: 0,
            offset: 0,
            has_data: true,
            started: false,
        }
    }

    pub fn rows(&self) -> (res: usize)
        ensures
            res == self.mean@.len(),
    {
        self.mean.len()
    }

    pub fn reset(&mut self)
        ensures
            final(self).is_reset(),
            final(self).wf(),
    {
        self.mean.clear();
        self.m2.clear();
        self.n = 0;
        self.offset = 0;
        self.has_data = true;
        self.started = false;
    }
}

impl<
    T: Copy + Add<Output = T> + Sub<Output = T> + Mul<Output = T> + Div<Output = T>,
    C: Fn(u64) -> T,
> AccumRowStat<T, C> {
    /// Operations for folding in a tile.
    pub open spec fn fold_flops(&self, data: Tile<T>) -> int {
        match self.config.stat {
            RowStat::Mean => data.shape.0 * data.shape.1,
            RowStat::Var => 3 * (data.shape.0 * data.shape.1),
        }
    }

    /// Operations for the statistic of a group.
    pub open spec fn finalize_flops(&self, rows: int) -> int {
        match self.config.stat {
            RowStat::Mean => rows,
            RowStat::Var => 4 * rows,
        }
    }

    /// The tile continues the group: it has as many rows.
    pub open spec fn accepts(&self, state: GroupState<T>, data: Tile<T>) -> bool {
        &&& state.wf()
        &&& data.wf()
        &&& self.config.compute_bw > 0
        &&& state.started ==> state.mean@.len() == data.shape.0
        &&& state.n + data.shape.1 <= u64::MAX
        &&& data.shape.0 * data.shape.1 <= usize::MAX
        &&& self.fold_flops(data) <= u64::MAX
        &&& data.underlying matches Some(array) ==> {
            &&& forall|n: u64|
                state.n < n <= state.n + data.shape.1 ==> #[trigger] call_requires(
                    self.of_count,
                    (n,),
                )
            &&& forall|counts: Seq<T>, i: int|
                #![trigger self.are_counts(state, data.shape.1 as int, counts), self.row_start(
                    state,
                    i,
                )]
                self.are_counts(state, data.shape.1 as int, counts) && 0 <= i < data.shape.0
                    ==> row_defined(*array, i, counts, self.row_start(state, i))
        }
    }

    /// Mean and squared deviation of a row before a tile.
    pub open spec fn row_start(&self, state: GroupState<T>, i: int) -> (T, T) {
        if state.started {
            (state.mean@[i], state.m2@[i])
        } else {
            (self.zero, self.zero)
        }
    }

    /// `counts` are the counts of the columns of a tile.
    pub open spec fn are_counts(&self, state: GroupState<T>, cols: int, counts: Seq<T>) -> bool {
        &&& counts.len() == cols
        &&& forall|j: int|
            0 <= j < cols ==> call_ensures(
                self.of_count,
                ((state.n + j + 1) as u64,),
                #[trigger] counts[j],
            )
    }

    /// `after` is the state after folding in a tile.
    pub open spec fn is_folded(
        &self,
        before: GroupState<T>,
        data: Tile<T>,
        after: GroupState<T>,
    ) -> bool {
        &&& after.wf()
        &&& after.mean@.len() == data.shape.0
        &&& after.started
        &&& after.offset == data.offset
        &&& after.n == before.n + data.shape.1
        &&& after.has_data == (before.has_data && data.underlying is Some)
        &&& match data.underlying {
            None => forall|i: int|
                0 <= i < data.shape.0 ==> (#[trigger] after.mean@[i], after.m2@[i])
                    == self.row_start(before, i),
            Some(array) => exists|counts: Seq<T>|
                {
                    &&& #[trigger] self.are_counts(before, data.shape.1 as int, counts)
                    &&& forall|i: int|
                        0 <= i < data.shape.0 ==> is_folded_row(
                            *array,
                            i,
                            counts,
                            self.row_start(before, i),
                            (#[trigger] after.mean@[i], after.m2@[i]),
                        )
                },
        }
    }

    pub fn new(
        rank: StopType,
        bytes_per_elem: usize,
        config: AccumRowStatConfig,
        zero: T,
        of_count: C,
        id: u32,
    ) -> (res: Self)
        ensures
            res == (AccumRowStat { rank, bytes_per_elem, config, zero, of_count, id }),
    {
        AccumRowStat { rank, bytes_per_elem, config, zero, of_count, id }
    }

    /// Folds a row into its running quantities.
    fn fold_row(&self, array: &Array2<T>, i: usize, counts: &Vec<T>, start: (T, T)) -> (res: (T, T))
        requires
            array.wf(),
            i < array.rows,
            counts@.len() == array.cols,
            row_defined(*array, i as int, counts@, start),
        ensures
            is_folded_row(*array, i as int, counts@, start, res),
    {
        let mut mean = start.0;
        let mut m2 = start.1;
        let ghost mut trace: Seq<(T, T)> = seq![start];
        let mut j: usize = 0;
        while j < array.cols
            invariant
                array.wf(),
                i < array.rows,
                j <= array.cols,
                counts@.len() == array.cols,
                row_defined(*array, i as int, counts@, start),
                is_welford_trace(*array, i as int, counts@, j as int, start, trace),
                (mean, m2) == trace.last(),
            decreases array.cols - j,
        {
            let ghost before = (mean, m2);
            let x = *array.get(i, j);
            let count = counts[j];
            assert(welford_defined(x, count, before));
            let delta = x - mean;
            assert(difference_of(x, before.0, delta));
            let correction = delta / count;
            assert(quotient_of(delta, count, correction));
            mean = mean + correction;
            assert(sum_of(before.0, correction, mean));
            let rest = x - mean;
            assert(difference_of(x, mean, rest));
            let square = delta * rest;
            assert(product_of(delta, rest, square));
            m2 = m2 + square;
            proof {
                let after = (mean, m2);
                assert(difference_of(x, before.0, delta));
                assert(quotient_of(delta, count, correction));
                assert(sum_of(before.0, correction, after.0));
                assert(difference_of(x, after.0, rest));
                assert(product_of(delta, rest, square));
                assert(sum_of(before.1, square, after.1));
                assert(welford_step(x, count, before, after));
                let longer = trace.push((mean, m2));
                assert forall|k: int| 0 <= k < j + 1 implies welford_step(
                    array.at(i as int, k),
                    counts@[k],
                    longer[k],
                    #[trigger] longer[k + 1],
                ) by {
                    if k < j {
                        assert(welford_step(
                            array.at(i as int, k),
                            counts@[k],
                            trace[k],
                            trace[k + 1],
                        ));
                    }
                }
                trace = longer;
            }
            j = j + 1;
        }
        assert(is_welford_trace(*array, i as int, counts@, array.cols as int, start, trace));
        (mean, m2)
    }

    /// Folds one input tile into the running statistics. Returns compute
    /// cycles.
    pub fn fold(&self, state: &mut GroupState<T>, data: &Tile<T>) -> (res: u64)
        requires
            self.accepts(*old(state), *data),
        ensures
            self.is_folded(*old(state), *data, *final(state)),
            res == ceil_div(self.fold_flops(*data), self.config.compute_bw as int),
    {
        let ghost before = *state;
        let rows: usize = data.shape.0;
        let cols: usize = data.shape.1;
        if !state.started {
            state.mean.clear();
            state.m2.clear();
            let mut i: usize = 0;
            while i < rows
                invariant
                    i <= rows,
                    state.mean@.len() == i,
                    state.m2@.len() == i,
                    forall|k: int| 0 <= k < i ==> #[trigger] state.mean@[k] == self.zero,
                    forall|k: int| 0 <= k < i ==> #[trigger] state.m2@[k] == self.zero,
                    state.n == before.n,
                    state.offset == before.offset,
                    state.has_data == before.has_data,
                    state.started == before.started,
                decreases rows - i,
            {
                state.mean.push(self.zero);
                state.m2.push(self.zero);
                i = i + 1;
            }
            state.started = true;
        }
        state.offset = data.offset;
        let ghost opened = *state;
        assert forall|i: int| 0 <= i < rows implies (#[trigger] state.mean@[i], state.m2@[i])
            == self.row_start(before, i) by {}
        match &data.underlying {
            Some(array) => {
                let mut counts: Vec<T> = Vec::new();
                let mut j: usize = 0;
                while j < cols
                    invariant
                        j <= cols,
                        cols == data.shape.1,
                        data.underlying == Some(*array),
                        self.accepts(before, *data),
                        state.n == before.n,
                        counts@.len() == j,
                        forall|k: int|
                            0 <= k < j ==> call_ensures(
                                self.of_count,
                                ((before.n + k + 1) as u64,),
                                #[trigger] counts@[k],
                            ),
                    decreases cols - j,
                {
                    let position: u64 = state.n + j as u64 + 1;
                    assert(call_requires(self.of_count, (position,)));
                    counts.push((self.of_count)(position));
                    j = j + 1;
                }
                assert(self.are_counts(before, cols as int, counts@));
                let mut i: usize = 0;
                while i < rows
                    invariant
                        i <= rows,
                        rows == data.shape.0,
                        cols == data.shape.1,
                        data.wf(),
                        data.underlying == Some(*array),
                        self.accepts(before, *data),
                        self.are_counts(before, cols as int, counts@),
                        counts@.len() == cols,
                        state.mean@.len() == rows,
                        state.m2@.len() == rows,
                        state.n == before.n,
                        state.offset == data.offset,
                        state.has_data == before.has_data,
                        state.started,
                        forall|k: int|
                            i <= k < rows ==> (#[trigger] state.mean@[k], state.m2@[k])
                                == self.row_start(before, k),
                        forall|k: int|
                            0 <= k < i ==> is_folded_row(
                                **array,
                                k,
                                counts@,
                                self.row_start(before, k),
                                (#[trigger] state.mean@[k], state.m2@[k]),
                            ),
                    decreases rows - i,
                {
                    let ghost old_mean = state.mean@;
                    let ghost old_m2 = state.m2@;
                    assert((old_mean[i as int], old_m2[i as int]) == self.row_start(
                        before,
                        i as int,
                    ));
                    assert(row_defined(**array, i as int, counts@, self.row_start(before, i as int)));
                    let (mean, m2) = self.fold_row(
                        array,
                        i,
                        &counts,
                        (state.mean[i], state.m2[i]),
                    );
                    state.mean[i] = mean;
                    state.m2[i] = m2;
                    proof {
                        assert forall|k: int| 0 <= k < i + 1 implies is_folded_row(
                            **array,
                            k,
                            counts@,
                            self.row_start(before, k),
                            (#[trigger] state.mean@[k], state.m2@[k]),
                        ) by {
                            if k < i {
                                assert(state.mean@[k] == old_mean[k]);
                                assert(state.m2@[k] == old_m2[k]);
                            }
                        }
                    }
                    i = i + 1;
                }
            },
            None => {
                state.has_data = false;
            },
        }
        state.n = state.n + cols as u64;
        let cells: u64 = (rows * cols) as u64;
        let flops: u64 = match self.config.stat {
            RowStat::Mean => cells,
            RowStat::Var => 3 * cells,
        };
        div_ceil(flops, self.config.compute_bw)
    }

    /// The count by which the statistic of a group is scaled.
    pub open spec fn divisor(&self, state: GroupState<T>) -> u64 {
        match self.config.count {
            Some(count) => count,
            None => state.n,
        }
    }

    /// The group has a value: all its tiles had data, and there was any.
    pub open spec fn has_value(&self, state: GroupState<T>) -> bool {
        state.has_data && state.started && self.divisor(state) > 0 && state.n > 0
    }

    /// `value` is the statistic of a row: the mean, rescaled from the counted
    /// to the declared number of elements, or the mean squared deviation.
    pub open spec fn is_statistic(&self, state: GroupState<T>, i: int, value: T) -> bool {
        match self.config.stat {
            RowStat::Mean => exists|counted: T, declared: T, ratio: T|
                {
                    &&& #[trigger] call_ensures(self.of_count, (state.n,), counted)
                    &&& #[trigger] call_ensures(self.of_count, (self.divisor(state),), declared)
                    &&& #[trigger] quotient_of(counted, declared, ratio)
                    &&& product_of(state.mean@[i], ratio, value)
                },
            RowStat::Var => exists|declared: T|
                {
                    &&& #[trigger] call_ensures(self.of_count, (self.divisor(state),), declared)
                    &&& quotient_of(state.m2@[i], declared, value)
                },
        }
    }

    /// `out` is what a group sends: a column of statistics with the valid rows
    /// of the last tile.
    pub open spec fn is_result(&self, state: GroupState<T>, out: Tile<T>) -> bool {
        let rows = state.mean@.len() as usize;
        if self.has_value(state) {
            &&& out.wf()
            &&& out.underlying is Some
            &&& out.shape == (rows, 1usize)
            &&& out.bytes_per_elem == self.bytes_per_elem
            &&& out.read_from_mu == self.config.write_back_mu
            &&& out.offset == state.offset
            &&& forall|i: int|
                0 <= i < rows ==> self.is_statistic(state, i, #[trigger] out.at(i, 0))
        } else {
            out == blank_tile::<T>(
                (rows, 1),
                self.bytes_per_elem,
                self.config.write_back_mu,
                state.offset,
            )
        }
    }

    /// The statistic of a row can be computed.
    pub open spec fn statistic_defined(&self, state: GroupState<T>, i: int) -> bool {
        &&& call_requires(self.of_count, (self.divisor(state),))
        &&& match self.config.stat {
            RowStat::Mean => {
                &&& call_requires(self.of_count, (state.n,))
                &&& forall|counted: T, declared: T|
                    #![trigger call_ensures(self.of_count, (state.n,), counted), call_ensures(
                        self.of_count,
                        (self.divisor(state),),
                        declared,
                    )]
                    call_ensures(self.of_count, (state.n,), counted) && call_ensures(
                        self.of_count,
                        (self.divisor(state),),
                        declared,
                    ) ==> {
                        &&& counted.div_req(declared)
                        &&& forall|ratio: T| #[trigger]
                            quotient_of(counted, declared, ratio) ==> state.mean@[i].mul_req(ratio)
                    }
            },
            RowStat::Var => forall|declared: T| #[trigger]
                call_ensures(self.of_count, (self.divisor(state),), declared) ==> state.m2@[i].div_req(
                    declared,
                ),
        }
    }

    fn statistic(&self, state: &GroupState<T>, i: usize, divisor: u64) -> (res: T)
        requires
            state.wf(),
            i < state.mean@.len(),
            divisor == self.divisor(*state),
            self.statistic_defined(*state, i as int),
        ensures
            self.is_statistic(*state, i as int, res),
    {
        match self.config.stat {
            RowStat::Mean => {
                let counted = (self.of_count)(state.n);
                let declared = (self.of_count)(divisor);
                assert(call_ensures(self.of_count, (state.n,), counted));
                assert(call_ensures(self.of_count, (self.divisor(*state),), declared));
                let ratio = counted / declared;
                let mean = state.mean[i];
                assert(quotient_of(counted, declared, ratio));
                let value = mean * ratio;
                assert(product_of(mean, ratio, value));
                value
            },
            RowStat::Var => {
                let declared = (self.of_count)(divisor);
                let m2 = state.m2[i];
                assert(call_ensures(self.of_count, (self.divisor(*state),), declared));
                let value = m2 / declared;
                assert(quotient_of(m2, declared, value));
                value
            },
        }
    }

    /// The group can be finished. A declared number of elements has to be the
    /// one that was counted.
    pub open spec fn finishable(&self, state: GroupState<T>) -> bool {
        &&& state.wf()
        &&& state.mean@.len() <= usize::MAX
        &&& self.config.compute_bw > 0
        &&& self.config.count is None || self.config.count == Some(state.n)
        &&& self.finalize_flops(state.mean@.len() as int) <= u64::MAX
        &&& self.has_value(state) ==> forall|i: int|
            0 <= i < state.mean@.len() ==> #[trigger] self.statistic_defined(state, i)
    }

    /// Emits the group's statistic and resets for the next group.
    pub fn finalize(&self, state: &mut GroupState<T>) -> (res: (u64, Tile<T>))
        requires
            self.finishable(*old(state)),
        ensures
            final(state).is_reset(),
            final(state).wf(),
            res.0 == ceil_div(
                self.finalize_flops(old(state).mean@.len() as int),
                self.config.compute_bw as int,
            ),
            self.is_result(*old(state), res.1),
    {
        let ghost before = *state;
        let rows: usize = state.rows();
        let counted: u64 = state.n;
        let divisor: u64 = match self.config.count {
            Some(count) => count,
            None => counted,
        };
        let out = if state.has_data && state.started && divisor > 0 && counted > 0 {
            let mut data: Vec<T> = Vec::new();
            let mut i: usize = 0;
            while i < rows
                invariant
                    i <= rows,
                    rows == state.mean@.len(),
                    self.finishable(*state),
                    self.has_value(*state),
                    divisor == self.divisor(*state),
                    data@.len() == i,
                    forall|k: int|
                        0 <= k < i ==> self.is_statistic(*state, k, #[trigger] data@[k]),
                decreases rows - i,
            {
                data.push(self.statistic(&*state, i, divisor));
                i = i + 1;
            }
            let column = Array2 { rows, cols: 1, data };
            assert forall|k: int| 0 <= k < rows implies #[trigger] column.at(k, 0) == data@[k] by {}
            Tile::new_padded(
                column,
                self.bytes_per_elem,
                self.config.write_back_mu,
                state.offset,
            )
        } else {
            Tile::new_blank_padded(
                (rows, 1),
                self.bytes_per_elem,
                self.config.write_back_mu,
                state.offset,
            )
        };
        let flops: u64 = match self.config.stat {
            RowStat::Mean => rows as u64,
            RowStat::Var => 4 * rows as u64,
        };
        state.reset();
        (div_ceil(flops, self.config.compute_bw), out)
    }

    /// The element can be taken: the tile continues the group and, where it
    /// ends it, the group can be finished.
    pub open spec fn takes(&self, state: GroupState<T>, elem: Elem<Tile<T>>) -> bool {
        let data = elem.value();
        &&& self.accepts(state, data)
        &&& loadable(data)
        &&& ends_reduction(self.rank, elem) ==> {
            &&& self.bytes_per_elem * data.shape.0 <= usize::MAX
            &&& forall|mid: GroupState<T>| #[trigger]
                self.is_folded(state, data, mid) ==> self.finishable(mid)
            &&& self.group_cycles(data) <= u64::MAX
        }
    }

    /// The compute cycles for the last tile of a group.
    pub open spec fn group_cycles(&self, data: Tile<T>) -> int {
        ceil_div(self.fold_flops(data), self.config.compute_bw as int) + ceil_div(
            self.finalize_flops(data.shape.0 as int),
            self.config.compute_bw as int,
        )
    }

    /// Folds one element in. The element that ends a group sends the group's
    /// statistic.
    pub fn step(&self, state: &mut GroupState<T>, elem: &Elem<Tile<T>>) -> (res: AccumStep<Tile<T>>)
        requires
            self.takes(*old(state), *elem),
        ensures
            exists|mid: GroupState<T>|
                {
                    &&& #[trigger] self.is_folded(*old(state), elem.value(), mid)
                    &&& if ends_reduction(self.rank, *elem) {
                        &&& final(state).is_reset()
                        &&& final(state).wf()
                        &&& res.out is Some
                        &&& res.out->0 == reduced(self.rank, *elem, res.out->0.value())
                        &&& self.is_result(mid, res.out->0.value())
                        &&& res.cycles == roofline(
                            load_of(elem.value()),
                            self.group_cycles(elem.value()),
                            mu_cycles(
                                self.config.write_back_mu,
                                res.out->0.value().bytes(),
                            ),
                        )
                    } else {
                        &&& *final(state) == mid
                        &&& res.out is None
                        &&& res.cycles == roofline(
                            load_of(elem.value()),
                            ceil_div(
                                self.fold_flops(elem.value()),
                                self.config.compute_bw as int,
                            ),
                            0,
                        )
                    }
                },
    {
        let (data, level, stops) = match elem {
            Elem::Val(data) => (data, 0, false),
            Elem::ValStop(data, level) => (data, *level, true),
        };
        let load: u64 = transfer_cycles(data, data.read_from_mu);
        let ghost before = *state;
        let fold: u64 = self.fold(state, data);
        let ghost mid = *state;
        assert(self.is_folded(before, elem.value(), mid));
        if stops && level >= self.rank {
            let (finish, out) = self.finalize(state);
            assert(out.shape.0 * out.shape.1 == out.shape.0 && out.bytes() == self.bytes_per_elem
                * data.shape.0) by (nonlinear_arith)
                requires
                    out.shape.1 == 1,
                    out.shape.0 == data.shape.0,
                    out.bytes_per_elem == self.bytes_per_elem,
                    out.bytes() == out.bytes_per_elem * (out.shape.0 * out.shape.1),
            ;
            let store: u64 = transfer_cycles(&out, self.config.write_back_mu);
            let cycles: u64 = roofline_cycles(load, fold + finish, store);
            let rest: StopType = level - self.rank;
            let sent = if rest == 0 {
                Elem::Val(out)
            } else {
                Elem::ValStop(out, rest)
            };
            AccumStep { cycles, out: Some(sent) }
        } else {
            AccumStep { cycles: roofline_cycles(load, fold, 0), out: None }
        }
    }
}

/// A group's statistic has the rows of the group and as many valid ones as its
/// last tile: padding is neither lost nor invented.
pub proof fn law_statistic_keeps_padding<
    T: Copy + Add<Output = T> + Sub<Output = T> + Mul<Output = T> + Div<Output = T>,
    C: Fn(u64) -> T,
>(
    op: AccumRowStat<T, C>,
    before: GroupState<T>,
    last: Tile<T>,
    mid: GroupState<T>,
    out: Tile<T>,
)
    requires
        op.is_folded(before, last, mid),
        op.is_result(mid, out),
    ensures
        out.shape == (last.shape.0, 1usize),
        out.offset == last.offset,
{
}

/// A group with a blank tile sends a blank tile, whatever else it holds.
pub proof fn law_blank_group_stays_blank<
    T: Copy + Add<Output = T> + Sub<Output = T> + Mul<Output = T> + Div<Output = T>,
    C: Fn(u64) -> T,
>(
    op: AccumRowStat<T, C>,
    before: GroupState<T>,
    data: Tile<T>,
    mid: GroupState<T>,
    out: Tile<T>,
)
    requires
        data.underlying is None || !before.has_data,
        op.is_folded(before, data, mid),
        op.is_result(mid, out),
    ensures
        !mid.has_data,
        out.underlying is None,
{
}

/// Declaring the number of elements that a group has changes nothing: the
/// statistic is the one of an operator that counts.
pub proof fn law_declared_count_agrees<
    T: Copy + Add<Output = T> + Sub<Output = T> + Mul<Output = T> + Div<Output = T>,
    C: Fn(u64) -> T,
>(counting: AccumRowStat<T, C>, declaring: AccumRowStat<T, C>, state: GroupState<T>, out: Tile<T>)
    requires
        counting.config.count is None,
        declaring.config == (AccumRowStatConfig { count: Some(state.n), ..counting.config }),
        declaring.bytes_per_elem == counting.bytes_per_elem,
        declaring.of_count == counting.of_count,
    ensures
        declaring.is_result(state, out) == counting.is_result(state, out),
        declaring.finalize_flops(state.mean@.len() as int) == counting.finalize_flops(
            state.mean@.len() as int,
        ),
{
    assert(declaring.divisor(state) == counting.divisor(state));
    assert forall|i: int, value: T| #[trigger]
        declaring.is_statistic(state, i, value) implies counting.is_statistic(state, i, value) by {
        lemma_same_statistic(declaring, counting, state, i, value);
    }
    assert forall|i: int, value: T| #[trigger]
        counting.is_statistic(state, i, value) implies declaring.is_statistic(state, i, value) by {
        lemma_same_statistic(counting, declaring, state, i, value);
    }
}

/// A statistic is that of another operator with the same divisor.
proof fn lemma_same_statistic<
    T: Copy + Add<Output = T> + Sub<Output = T> + Mul<Output = T> + Div<Output = T>,
    C: Fn(u64) -> T,
>(one: AccumRowStat<T, C>, other: AccumRowStat<T, C>, state: GroupState<T>, i: int, value: T)
    requires
        one.divisor(state) == other.divisor(state),
        one.of_count == other.of_count,
        one.config.stat == other.config.stat,
        one.is_statistic(state, i, value),
    ensures
        other.is_statistic(state, i, value),
{
    match one.config.stat {
        RowStat::Mean => {
            let (counted, declared, ratio) = choose|counted: T, declared: T, ratio: T|
                {
                    &&& #[trigger] call_ensures(one.of_count, (state.n,), counted)
                    &&& #[trigger] call_ensures(one.of_count, (one.divisor(state),), declared)
                    &&& #[trigger] quotient_of(counted, declared, ratio)
                    &&& product_of(state.mean@[i], ratio, value)
                };
            assert(call_ensures(other.of_count, (state.n,), counted));
            assert(call_ensures(other.of_count, (other.divisor(state),), declared));
            assert(quotient_of(counted, declared, ratio));
        },
        RowStat::Var => {
            let declared = choose|declared: T|
                {
                    &&& #[trigger] call_ensures(one.of_count, (one.divisor(state),), declared)
                    &&& quotient_of(state.m2@[i], declared, value)
                };
            assert(call_ensures(other.of_count, (other.divisor(state),), declared));
        },
    }
}

/// The squared deviation of integers never shrinks, so it is never negative.
pub proof fn law_deviation_never_shrinks(x: i64, count: i64, before: (i64, i64), after: (i64, i64))
    requires
        count >= 1,
        welford_defined(x, count, before),
        welford_step(x, count, before, after),
    ensures
        after.1 >= before.1,
{
    let (delta, correction, rest, square) = choose|
        delta: i64,
        correction: i64,
        rest: i64,
        square: i64,
    |
        {
            &&& #[trigger] difference_of(x, before.0, delta)
            &&& #[trigger] quotient_of(delta, count, correction)
            &&& sum_of(before.0, correction, after.0)
            &&& #[trigger] difference_of(x, after.0, rest)
            &&& #[trigger] product_of(delta, rest, square)
            &&& sum_of(before.1, square, after.1)
        };
    assert(delta == x - before.0);
    let size = if delta >= 0 {
        delta as int
    } else {
        -delta as int
    };
    assert(0 <= size / (count as int) <= size) by (nonlinear_arith)
        requires
            size >= 0,
            count >= 1,
    ;
    assert(after.0 == before.0 + correction);
    assert(rest == delta - correction);
    assert(square == delta * rest);
    assert(delta * rest >= 0) by (nonlinear_arith)
        requires
            delta >= 0 && rest >= 0 || delta <= 0 && rest <= 0,
    ;
    assert(after.1 == before.1 + square);
}

/// The quantities after a part of a constant row.
proof fn lemma_constant_trace(
    array: Array2<i64>,
    i: int,
    counts: Seq<i64>,
    value: i64,
    n: int,
    trace: Seq<(i64, i64)>,
)
    requires
        0 < n <= array.cols,
        counts.len() == array.cols,
        forall|j: int| 0 <= j < array.cols ==> #[trigger] counts[j] == j + 1,
        forall|j: int| 0 <= j < array.cols ==> #[trigger] array.at(i, j) == value,
        is_welford_trace(array, i, counts, n, (0, 0), trace),
        row_defined(array, i, counts, (0, 0)),
    ensures
        trace[n] == (value, 0i64),
    decreases n,
{
    let before = trace[n - 1];
    let prefix = trace.take(n);
    assert forall|j: int| 0 <= j < n - 1 implies welford_step(
        array.at(i, j),
        counts[j],
        prefix[j],
        #[trigger] prefix[j + 1],
    ) by {
        assert(prefix[j] == trace[j] && prefix[j + 1] == trace[j + 1]);
        assert(welford_step(array.at(i, j), counts[j], trace[j], trace[j + 1]));
    }
    assert(is_welford_trace(array, i, counts, n - 1, (0, 0), prefix));
    if n > 1 {
        lemma_constant_trace(array, i, counts, value, n - 1, prefix);
    }
    assert(welford_defined(array.at(i, n - 1), counts[n - 1], prefix.last()));
    assert(prefix.last() == before);
    let after = trace[n - 1 + 1];
    let x = array.at(i, n - 1);
    let count = counts[n - 1];
    assert(welford_step(x, count, before, after));
    let (delta, correction, rest, square) = choose|
        delta: i64,
        correction: i64,
        rest: i64,
        square: i64,
    |
        {
            &&& #[trigger] difference_of(x, before.0, delta)
            &&& #[trigger] quotient_of(delta, count, correction)
            &&& sum_of(before.0, correction, after.0)
            &&& #[trigger] difference_of(x, after.0, rest)
            &&& #[trigger] product_of(delta, rest, square)
            &&& sum_of(before.1, square, after.1)
        };
    assert(delta == x - before.0);
    assert(count == n);
    assert(delta == 0 || count == 1);
    assert(correction == delta) by (nonlinear_arith)
        requires
            delta == 0 || count == 1,
            correction == (if delta >= 0 {
                delta as int / count as int
            } else {
                -((-delta) / count as int)
            }),
            count >= 1,
    ;
    assert(after.0 == before.0 + correction);
    assert(rest == 0);
    assert(square == delta * rest);
    assert(delta * rest == 0) by (nonlinear_arith)
        requires
            rest == 0,
    ;
    assert(after.1 == before.1 + square);
}

/// A constant row of integers has no deviation at all.
pub proof fn law_constant_row_has_no_deviation(
    array: Array2<i64>,
    i: int,
    counts: Seq<i64>,
    value: i64,
    after: (i64, i64),
)
    requires
        array.cols > 0,
        counts.len() == array.cols,
        forall|j: int| 0 <= j < array.cols ==> #[trigger] counts[j] == j + 1,
        forall|j: int| 0 <= j < array.cols ==> #[trigger] array.at(i, j) == value,
        row_defined(array, i, counts, (0, 0)),
        is_folded_row(array, i, counts, (0, 0), after),
    ensures
        after == (value, 0i64),
{
    let trace = choose|trace: Seq<(i64, i64)>|
        #[trigger] is_welford_trace(array, i, counts, array.cols as int, (0, 0), trace) && after
            == trace.last();
    lemma_constant_trace(array, i, counts, value, array.cols as int, trace);
}

/// Folding a tile in: the count grows by its columns and the padding is that
/// of the tile. One operation is counted for each cell for a mean, and three
/// for a variance.
pub proof fn law_fold_is_priced<
    T: Copy + Add<Output = T> + Sub<Output = T> + Mul<Output = T> + Div<Output = T>,
    C: Fn(u64) -> T,
>(op: AccumRowStat<T, C>, data: Tile<T>)
    requires
        op.config.compute_bw > 0,
    ensures
        forall|state: &mut GroupState<T>, res: u64| #[trigger]
            call_ensures(AccumRowStat::<T, C>::fold, (&op, state, &data), res) ==> {
                let flops = (if op.config.stat is Mean {
                    1int
                } else {
                    3
                }) * (data.shape.0 * data.shape.1);
                let after = *final(state);
                &&& res * op.config.compute_bw >= flops > (res - 1) * op.config.compute_bw
                &&& after.n == state.n + data.shape.1
                &&& after.offset == data.offset
                &&& after.mean@.len() == data.shape.0
                &&& after.m2@.len() == data.shape.0
                &&& after.started
                &&& after.has_data == (state.has_data && data.underlying is Some)
            },
{
    let cells = data.shape.0 * data.shape.1;
    assert(cells >= 0) by (nonlinear_arith)
        requires
            cells == data.shape.0 * data.shape.1,
            data.shape.0 >= 0,
            data.shape.1 >= 0,
    ;
    let bw = op.config.compute_bw as int;
    let flops = op.fold_flops(data);
    lemma_ceil_div(flops, bw);
    assert forall|res: int| #[trigger] ((res - 1) * bw) == res * bw - bw by {
        assert((res - 1) * bw == res * bw - bw) by (nonlinear_arith);
    }
}

/// A cell moves the mean of its row by its deviation from it over the number
/// of cells so far, and adds to the squared deviation the product of its
/// deviations from the mean before and after.
pub proof fn law_cell_moves_mean<
    T: Add<Output = T> + Sub<Output = T> + Mul<Output = T> + Div<Output = T>,
>(x: T, count: T, before: (T, T), after: (T, T))
    requires
        welford_step(x, count, before, after),
    ensures
        exists|delta: T, correction: T, rest: T, square: T|
            {
                &&& #[trigger] call_ensures(<T as Sub>::sub, (x, before.0), delta)
                &&& #[trigger] call_ensures(<T as Div>::div, (delta, count), correction)
                &&& call_ensures(<T as Add>::add, (before.0, correction), after.0)
                &&& #[trigger] call_ensures(<T as Sub>::sub, (x, after.0), rest)
                &&& #[trigger] call_ensures(<T as Mul>::mul, (delta, rest), square)
                &&& call_ensures(<T as Add>::add, (before.1, square), after.1)
            },
{
    let (delta, correction, rest, square) = choose|delta: T, correction: T, rest: T, square: T|
        {
            &&& #[trigger] difference_of(x, before.0, delta)
            &&& #[trigger] quotient_of(delta, count, correction)
            &&& sum_of(before.0, correction, after.0)
            &&& #[trigger] difference_of(x, after.0, rest)
            &&& #[trigger] product_of(delta, rest, square)
            &&& sum_of(before.1, square, after.1)
        };
    assert(call_ensures(<T as Sub>::sub, (x, before.0), delta));
    assert(call_ensures(<T as Div>::div, (delta, count), correction));
    assert(call_ensures(<T as Sub>::sub, (x, after.0), rest));
    assert(call_ensures(<T as Mul>::mul, (delta, rest), square));
}

/// A cell of a single-column tile is the next cell of its row: it is counted
/// as one more than the group has seen, on top of what the group has gathered,
/// or of nothing at its beginning.
pub proof fn law_column_is_next_cell<
    T: Copy + Add<Output = T> + Sub<Output = T> + Mul<Output = T> + Div<Output = T>,
    C: Fn(u64) -> T,
>(op: AccumRowStat<T, C>, before: GroupState<T>, data: Tile<T>, after: GroupState<T>, i: int)
    requires
        op.is_folded(before, data, after),
        data.underlying is Some,
        data.shape.1 == 1,
        data.underlying->0.cols == 1,
        0 <= i < data.shape.0,
        before.n < u64::MAX,
    ensures
        exists|count: T|
            {
                &&& #[trigger] call_ensures(op.of_count, ((before.n + 1) as u64,), count)
                &&& welford_step(
                    data.at(i, 0),
                    count,
                    if before.started {
                        (before.mean@[i], before.m2@[i])
                    } else {
                        (op.zero, op.zero)
                    },
                    (after.mean@[i], after.m2@[i]),
                )
            },
{
    let array = data.underlying->0;
    let counts = choose|counts: Seq<T>|
        {
            &&& #[trigger] op.are_counts(before, data.shape.1 as int, counts)
            &&& forall|i: int|
                0 <= i < data.shape.0 ==> is_folded_row(
                    *array,
                    i,
                    counts,
                    op.row_start(before, i),
                    (#[trigger] after.mean@[i], after.m2@[i]),
                )
        };
    assert(op.are_counts(before, data.shape.1 as int, counts));
    let m = after.mean@[i];
    let start = op.row_start(before, i);
    let end = (after.mean@[i], after.m2@[i]);
    assert(is_folded_row(*array, i, counts, start, end));
    let trace = choose|trace: Seq<(T, T)>|
        #[trigger] is_welford_trace(*array, i, counts, array.cols as int, start, trace) && end
            == trace.last();
    assert(is_welford_trace(*array, i, counts, array.cols as int, start, trace));
    let j: int = 0;
    assert(welford_step(array.at(i, j), counts[j], trace[j], trace[j + 1]));
    assert(call_ensures(op.of_count, ((before.n + j + 1) as u64,), counts[j]));
}

/// Ending a group: one operation for each row is counted for a mean, and four
/// for a variance. The result is a column, one value for each row, with the
/// padding of the group, and the group begins anew. The mean of the cells that
/// were seen is scaled to the declared count, and the variance is the squared
/// deviation over that count; without one the cells that were seen count. A
/// group without data gives a blank column.
pub proof fn law_statistic_of_group<
    T: Copy + Add<Output = T> + Sub<Output = T> + Mul<Output = T> + Div<Output = T>,
    C: Fn(u64) -> T,
>(op: AccumRowStat<T, C>, divisor: u64, i: int)
    requires
        op.config.compute_bw > 0,
    ensures
        forall|state: &mut GroupState<T>, res: (u64, Tile<T>)|
            state.wf() && 0 <= i < state.mean@.len() <= usize::MAX && (op.config.count == Some(divisor)
                || (op.config.count is None && state.n == divisor)) && #[trigger] call_ensures(
                AccumRowStat::<T, C>::finalize,
                (&op, state),
                res,
            ) ==> {
                let rows = state.mean@.len();
                let flops = (if op.config.stat is Mean {
                    1int
                } else {
                    4
                }) * rows;
                &&& res.0 * op.config.compute_bw >= flops > (res.0 - 1) * op.config.compute_bw
                &&& res.1.shape.0 == rows
                &&& res.1.shape.1 == 1
                &&& res.1.offset == state.offset
                &&& res.1.bytes_per_elem == op.bytes_per_elem
                &&& res.1.read_from_mu == op.config.write_back_mu
                &&& res.1.underlying is Some <==> state.has_data && state.started && divisor > 0
                    && state.n > 0
                &&& res.1.underlying is Some && op.config.stat is Var ==> exists|declared: T|
                    {
                        &&& #[trigger] call_ensures(op.of_count, (divisor,), declared)
                        &&& call_ensures(
                            <T as Div>::div,
                            (state.m2@[i], declared),
                            res.1.at(i, 0),
                        )
                    }
                &&& res.1.underlying is Some && op.config.stat is Mean ==> exists|
                    counted: T,
                    declared: T,
                    ratio: T,
                |
                    {
                        &&& #[trigger] call_ensures(op.of_count, (state.n,), counted)
                        &&& #[trigger] call_ensures(op.of_count, (divisor,), declared)
                        &&& #[trigger] call_ensures(<T as Div>::div, (counted, declared), ratio)
                        &&& call_ensures(
                            <T as Mul>::mul,
                            (state.mean@[i], ratio),
                            res.1.at(i, 0),
                        )
                    }
                &&& final(state).n == 0
                &&& !final(state).started
                &&& final(state).has_data
                &&& final(state).mean@.len() == 0
            },
{
    let bw = op.config.compute_bw as int;
    assert forall|res: int| #[trigger] ((res - 1) * bw) == res * bw - bw by {
        assert((res - 1) * bw == res * bw - bw) by (nonlinear_arith);
    }
    assert forall|state: &mut GroupState<T>, res: (u64, Tile<T>)|
        state.wf() && 0 <= i < state.mean@.len() <= usize::MAX && (op.config.count == Some(divisor)
                || (op.config.count is None && state.n == divisor)) && #[trigger] call_ensures(
            AccumRowStat::<T, C>::finalize,
            (&op, state),
            res,
        ) implies {
        let rows = state.mean@.len();
        let flops = (if op.config.stat is Mean {
            1int
        } else {
            4
        }) * rows;
        &&& res.0 * op.config.compute_bw >= flops > (res.0 - 1) * op.config.compute_bw
        &&& op.has_value(*state) && op.config.stat is Var ==> exists|declared: T|
            {
                &&& #[trigger] call_ensures(op.of_count, (divisor,), declared)
                &&& call_ensures(<T as Div>::div, (state.m2@[i], declared), res.1.at(i, 0))
            }
        &&& op.has_value(*state) && op.config.stat is Mean ==> exists|
            counted: T,
            declared: T,
            ratio: T,
        |
            {
                &&& #[trigger] call_ensures(op.of_count, (state.n,), counted)
                &&& #[trigger] call_ensures(op.of_count, (divisor,), declared)
                &&& #[trigger] call_ensures(<T as Div>::div, (counted, declared), ratio)
                &&& call_ensures(<T as Mul>::mul, (state.mean@[i], ratio), res.1.at(i, 0))
            }
    } by {
        lemma_ceil_div(op.finalize_flops(state.mean@.len() as int), bw);
        assert(op.is_result(*state, res.1));
        if op.has_value(*state) {
            let v = res.1.at(i, 0);
            assert(op.is_statistic(*state, i, v));
            if op.config.stat is Mean {
                let (counted, declared, ratio) = choose|counted: T, declared: T, ratio: T|
                    {
                        &&& #[trigger] call_ensures(op.of_count, (state.n,), counted)
                        &&& #[trigger] call_ensures(op.of_count, (op.divisor(*state),), declared)
                        &&& #[trigger] quotient_of(counted, declared, ratio)
                        &&& product_of(state.mean@[i], ratio, v)
                    };
                assert(call_ensures(<T as Div>::div, (counted, declared), ratio));
            }
        }
    }
}

/// A step of a statistic: nothing is sent before the group ends. Then a column
/// is sent with the stops that are left. The slowest of loading, computing and
/// storing the column decides the cycles.
pub proof fn law_statistic_is_sent_at_end<
    T: Copy + Add<Output = T> + Sub<Output = T> + Mul<Output = T> + Div<Output = T>,
    C: Fn(u64) -> T,
>(op: AccumRowStat<T, C>, elem: Elem<Tile<T>>, fold: int, finish: int)
    requires
        op.config.compute_bw > 0,
        ({
            let cells = elem.value().shape.0 * elem.value().shape.1;
            let rows = elem.value().shape.0 as int;
            let per_cell = if op.config.stat is Mean {
                1int
            } else {
                3
            };
            let per_row = if op.config.stat is Mean {
                1int
            } else {
                4
            };
            let bw = op.config.compute_bw as int;
            &&& per_cell * cells <= fold * bw < per_cell * cells + bw
            &&& per_row * rows <= finish * bw < per_row * rows + bw
        }),
    ensures
        forall|state: &mut GroupState<T>, res: AccumStep<Tile<T>>| #[trigger]
            call_ensures(AccumRowStat::<T, C>::step, (&op, state, &elem), res) ==> {
                let ends = elem is ValStop && elem.level() >= op.rank;
                let load = tile_cycles(elem.value().read_from_mu, elem.value());
                &&& res.out is Some <==> ends
                &&& ends ==> {
                    let column = res.out->0.value();
                    &&& res.out->0.level() == elem.level() - op.rank
                    &&& res.out->0 is Val <==> elem.level() == op.rank
                    &&& column.shape == (elem.value().shape.0, 1usize)
                    &&& column.offset == elem.value().offset
                    &&& res.cycles == vstd::math::max(
                        vstd::math::max(load, fold + finish),
                        tile_cycles(op.config.write_back_mu, column),
                    )
                    &&& final(state).n == 0
                    &&& !final(state).started
                }
                &&& !ends ==> res.cycles == vstd::math::max(load, fold) && final(state).n == state.n
                    + elem.value().shape.1
            },
{
    let data = elem.value();
    let bw = op.config.compute_bw as int;
    let cells = data.shape.0 * data.shape.1;
    assert(cells >= 0) by (nonlinear_arith)
        requires
            cells == data.shape.0 * data.shape.1,
            data.shape.0 >= 0,
            data.shape.1 >= 0,
    ;
    let flops = op.fold_flops(data);
    let last = op.finalize_flops(data.shape.0 as int);
    lemma_ceil_div(flops, bw);
    lemma_ceil_div(last, bw);
    lemma_same_quotient(flops, bw, fold, ceil_div(flops, bw));
    lemma_same_quotient(last, bw, finish, ceil_div(last, bw));
    lemma_tile_cycles(data.read_from_mu, data);
    assert forall|state: &mut GroupState<T>, res: AccumStep<Tile<T>>| #[trigger]
        call_ensures(AccumRowStat::<T, C>::step, (&op, state, &elem), res) implies ({
        let ends = elem is ValStop && elem.level() >= op.rank;
        let load = tile_cycles(elem.value().read_from_mu, elem.value());
        &&& res.out is Some <==> ends
        &&& ends ==> {
            let column = res.out->0.value();
            &&& res.out->0.level() == elem.level() - op.rank
            &&& res.out->0 is Val <==> elem.level() == op.rank
            &&& column.shape == (elem.value().shape.0, 1usize)
            &&& column.offset == elem.value().offset
            &&& res.cycles == vstd::math::max(
                vstd::math::max(load, fold + finish),
                tile_cycles(op.config.write_back_mu, column),
            )
            &&& final(state).n == 0
            &&& !final(state).started
        }
        &&& !ends ==> res.cycles == vstd::math::max(load, fold) && final(state).n == state.n
            + elem.value().shape.1
    }) by {
        if res.out is Some {
            lemma_tile_cycles(op.config.write_back_mu, res.out->0.value());
        }
    }
}

/// A rounded quotient is known by what it covers.
proof fn lemma_same_quotient(a: int, b: int, p: int, q: int)
    requires
        b > 0,
        a <= p * b < a + b,
        a <= q * b < a + b,
    ensures
        p == q,
{
    assert(p == q) by (nonlinear_arith)
        requires
            b > 0,
            a <= p * b,
            p * b < a + b,
            a <= q * b,
            q * b < a + b,
    ;
}

} // verus!
