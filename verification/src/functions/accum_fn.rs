//! Functions that fold a tile into an accumulator.

use core::ops::{Add, Mul};
use vstd::prelude::*;
use vstd::std_specs::ops::{AddSpec, MulSpec};

use crate::functions::elementwise::{
    both_data, combinable, combine, combined_shape, is_combination, product_of, repeated_cell,
    sum_of,
};
use crate::primitives::array::{concatenate, representable, Array2};
use crate::primitives::tile::{is_scalar_tile, scalar_tile, Tile};
use crate::utils::calculation::{ceil_div, div_ceil, lemma_ceil_div};

verus! {

/// Valid-row count for one accumulation step.
///
/// `in1` is the incoming data tile and `in2` the running accumulator, so the
/// padding is described by `in1`: the accumulator covers the same rows and, on
/// the first step, is a neutral tile whose `offset` is meaningless. Taking the
/// larger of the two would therefore let that neutral tile unmask rows the
/// input marked as padding. Only when `in1` is a broadcast row against a
/// taller accumulator does `in2` carry the row count.
pub open spec fn accumulated_offset<T>(in1: Tile<T>, in2: Tile<T>) -> usize {
    if in1.shape.0 == 1 && in2.shape.0 > 1 {
        in2.offset
    } else {
        in1.offset
    }
}

fn accum_offset<T>(in1: &Tile<T>, in2: &Tile<T>) -> (res: usize)
    ensures
        res == accumulated_offset(*in1, *in2),
{
    if in1.shape.0 == 1 && in2.shape.0 > 1 {
        in2.offset
    } else {
        in1.offset
    }
}

/// The product of a tile and the accumulator, cell by cell.
pub fn mul<T: Copy + Mul<Output = T>>(
    in1: &Tile<T>,
    in2: &Tile<T>,
    flop_per_cycle: u64,
    write_back_mu: bool,
    id: u32,
) -> (res: (u64, Tile<T>))
    requires
        combinable(*in1, *in2, flop_per_cycle),
        both_data(*in1, *in2) ==> forall|i: int, j: int|
            #![trigger repeated_cell(*in1, i, j)]
            0 <= i < combined_shape(*in1, *in2).0 && 0 <= j < combined_shape(*in1, *in2).1
                ==> repeated_cell(*in1, i, j).mul_req(repeated_cell(*in2, i, j)),
    ensures
        res.0 == ceil_div(
            combined_shape(*in1, *in2).0 * combined_shape(*in1, *in2).1,
            flop_per_cycle as int,
        ),
        is_combination(
            *in1,
            *in2,
            write_back_mu,
            accumulated_offset(*in1, *in2),
            |x: T, y: T, z: T| product_of(x, y, z),
            res.1,
        ),
{
    let product = |x: T, y: T| -> (z: T)
        requires
            x.mul_req(y),
        ensures
            product_of(x, y, z),
        { x * y };
    combine(in1, in2, flop_per_cycle, write_back_mu, accum_offset(in1, in2), product)
}

/// The accumulator is empty, as it is before the first step where the number
/// of rows is not known beforehand. It is the additive identity.
pub open spec fn is_empty_accumulator<T>(accumulator: Tile<T>) -> bool {
    accumulator.shape.0 == 0
}

/// The sum of a tile and the accumulator, cell by cell. An accumulator
/// without rows adopts the tile.
pub fn add<T: Copy + Add<Output = T>>(
    in1: &Tile<T>,
    in2: &Tile<T>,
    flop_per_cycle: u64,
    write_back_mu: bool,
    id: u32,
) -> (res: (u64, Tile<T>))
    requires
        in1.wf(),
        flop_per_cycle > 0,
        in1.shape.0 * in1.shape.1 <= usize::MAX,
        !is_empty_accumulator(*in2) ==> combinable(*in1, *in2, flop_per_cycle),
        !is_empty_accumulator(*in2) && both_data(*in1, *in2) ==> forall|i: int, j: int|
            #![trigger repeated_cell(*in1, i, j)]
            0 <= i < combined_shape(*in1, *in2).0 && 0 <= j < combined_shape(*in1, *in2).1
                ==> repeated_cell(*in1, i, j).add_req(repeated_cell(*in2, i, j)),
    ensures
        is_empty_accumulator(*in2) ==> {
            &&& res.0 == ceil_div(in1.shape.0 * in1.shape.1, flop_per_cycle as int)
            &&& res.1 == (Tile { read_from_mu: write_back_mu, ..*in1 })
        },
        !is_empty_accumulator(*in2) ==> {
            &&& res.0 == ceil_div(
                combined_shape(*in1, *in2).0 * combined_shape(*in1, *in2).1,
                flop_per_cycle as int,
            )
            &&& is_combination(
                *in1,
                *in2,
                write_back_mu,
                accumulated_offset(*in1, *in2),
                |x: T, y: T, z: T| sum_of(x, y, z),
                res.1,
            )
        },
{
    if in2.shape.0 == 0 {
        let cycles: u64 = div_ceil((in1.shape.0 * in1.shape.1) as u64, flop_per_cycle);
        let adopted = in1.clone();
        return (cycles, Tile { read_from_mu: write_back_mu, ..adopted });
    }
    let sum = |x: T, y: T| -> (z: T)
        requires
            x.add_req(y),
        ensures
            sum_of(x, y, z),
        { x + y };
    combine(in1, in2, flop_per_cycle, write_back_mu, accum_offset(in1, in2), sum)
}

/// Adding or multiplying never marks rows as valid that the incoming tile
/// marks as padding, nor the other way round, unless the tile is a single row
/// that is repeated for the rows of a taller accumulator.
pub proof fn law_accumulation_keeps_padding<T>(in1: Tile<T>, in2: Tile<T>)
    requires
        in1.shape.0 != 1 || in2.shape.0 <= 1,
    ensures
        accumulated_offset(in1, in2) == in1.offset,
{
}

/// `out` is the accumulator with the columns of a tile behind its own. The
/// valid rows are those of the tile.
pub open spec fn is_col_joined<T>(in_data: Tile<T>, accumulator: Tile<T>, out: Tile<T>) -> bool {
    &&& out.wf()
    &&& out.shape == (in_data.shape.0, (in_data.shape.1 + accumulator.shape.1) as usize)
    &&& out.bytes_per_elem == in_data.bytes_per_elem
    &&& out.read_from_mu == in_data.read_from_mu
    &&& out.offset == in_data.offset
    &&& out.underlying is Some <==> both_data(in_data, accumulator)
    &&& both_data(in_data, accumulator) ==> forall|i: int, j: int|
        0 <= i < out.shape.0 && 0 <= j < out.shape.1 ==> #[trigger] out.at(i, j) == if j
            < accumulator.shape.1 {
            accumulator.at(i, j)
        } else {
            in_data.at(i, j - accumulator.shape.1)
        }
}

/// `out` is the accumulator with the rows of a tile below its own. The valid
/// rows of both add up.
pub open spec fn is_row_joined<T>(in_data: Tile<T>, accumulator: Tile<T>, out: Tile<T>) -> bool {
    &&& out.wf()
    &&& out.shape == ((in_data.shape.0 + accumulator.shape.0) as usize, in_data.shape.1)
    &&& out.bytes_per_elem == in_data.bytes_per_elem
    &&& out.read_from_mu == in_data.read_from_mu
    &&& out.offset == accumulator.offset + in_data.offset
    &&& out.underlying is Some <==> both_data(in_data, accumulator)
    &&& both_data(in_data, accumulator) ==> forall|i: int, j: int|
        0 <= i < out.shape.0 && 0 <= j < out.shape.1 ==> #[trigger] out.at(i, j) == if i
            < accumulator.shape.0 {
            accumulator.at(i, j)
        } else {
            in_data.at(i - accumulator.shape.0, j)
        }
}

/// Appends the columns of a tile to the accumulator. An accumulator of no rows
/// and no columns takes on the tile's rows.
pub fn retile_col<T: Copy>(
    in_data: &Tile<T>,
    accumulator: &Tile<T>,
    flop_per_cycle: u64,
    write_back_mu: bool,
    id: u32,
) -> (res: (u64, Tile<T>))
    requires
        in_data.wf(),
        accumulator.wf(),
        in_data.shape.1 + accumulator.shape.1 <= usize::MAX,
        accumulator.shape != (0usize, 0usize) ==> in_data.shape.0 == accumulator.shape.0,
        both_data(*in_data, *accumulator) ==> representable(
            in_data.shape.0 as int,
            in_data.shape.1 + accumulator.shape.1,
        ),
    ensures
        res.0 == 0,
        is_col_joined(*in_data, *accumulator, res.1),
{
    match (&in_data.underlying, &accumulator.underlying) {
        (Some(in_array), Some(accum_array)) => {
            let joined = if accum_array.rows == 0 && accum_array.cols == 0 {
                let first: Array2<T> = Array2 { rows: in_array.rows, cols: 0, data: Vec::new() };
                assert(first.rows * 0 == 0);
                concatenate(1, &first, in_array)
            } else {
                concatenate(1, accum_array, in_array)
            };
            (
                0,
                Tile::new_padded(
                    joined,
                    in_data.bytes_per_elem,
                    in_data.read_from_mu,
                    in_data.offset,
                ),
            )
        },
        _ => (
            0,
            Tile::new_blank_padded(
                (in_data.shape.0, in_data.shape.1 + accumulator.shape.1),
                in_data.bytes_per_elem,
                in_data.read_from_mu,
                in_data.offset,
            ),
        ),
    }
}

/// Appends the rows of a tile to the accumulator. An accumulator with data but
/// no rows and no columns takes on the tile's columns.
pub fn retile_row<T: Copy>(
    in_data: &Tile<T>,
    accumulator: &Tile<T>,
    flop_per_cycle: u64,
    write_back_mu: bool,
    id: u32,
) -> (res: (u64, Tile<T>))
    requires
        in_data.wf(),
        accumulator.wf(),
        in_data.shape.0 + accumulator.shape.0 <= usize::MAX,
        in_data.offset + accumulator.offset <= usize::MAX,
        both_data(*in_data, *accumulator) ==> {
            &&& accumulator.shape != (0usize, 0usize) ==> in_data.shape.1 == accumulator.shape.1
            &&& representable(
                in_data.shape.0 + accumulator.shape.0,
                in_data.shape.1 as int,
            )
        },
        !both_data(*in_data, *accumulator) ==> {
            &&& in_data.shape.1 == accumulator.shape.1
            &&& in_data.offset == in_data.shape.0 || in_data.offset == 0
        },
    ensures
        res.0 == 0,
        is_row_joined(*in_data, *accumulator, res.1),
{
    match (&in_data.underlying, &accumulator.underlying) {
        (Some(in_array), Some(accum_array)) => {
            let joined = if accum_array.rows == 0 && accum_array.cols == 0 {
                let first: Array2<T> = Array2 { rows: 0, cols: in_array.cols, data: Vec::new() };
                assert(0 * first.cols == 0);
                concatenate(0, &first, in_array)
            } else {
                concatenate(0, accum_array, in_array)
            };
            (
                0,
                Tile::new_padded(
                    joined,
                    in_data.bytes_per_elem,
                    in_data.read_from_mu,
                    accumulator.offset + in_data.offset,
                ),
            )
        },
        _ => (
            0,
            Tile::new_blank_padded(
                (in_data.shape.0 + accumulator.shape.0, accumulator.shape.1),
                in_data.bytes_per_elem,
                in_data.read_from_mu,
                accumulator.offset + in_data.offset,
            ),
        ),
    }
}

/// A signal that a tile has been read: a one where it has data.
pub fn signal_req_all_read<T>(
    in_data: &Tile<T>,
    accumulator: &Tile<u64>,
    write_back_mu: bool,
    id: u32,
) -> (res: (u64, Tile<u64>))
    ensures
        res.0 == 1,
        in_data.underlying is Some ==> is_scalar_tile(res.1, 1u64, 8, write_back_mu),
        in_data.underlying is None ==> res.1 == crate::primitives::tile::blank_tile::<u64>(
            (1, 1),
            8,
            write_back_mu,
            1,
        ),
{
    match &in_data.underlying {
        Some(_) => (1, scalar_tile(1u64, 8, write_back_mu)),
        None => (1, Tile::new_blank((1, 1), 8, write_back_mu)),
    }
}

/// The product of a tile and the accumulator, cell by cell: a dimension of size
/// one is repeated. The valid rows are those of the tile, unless its one row is
/// repeated.
pub proof fn law_product_with_accumulator<T: Copy + Mul<Output = T>>(
    in1: Tile<T>,
    in2: Tile<T>,
    flop_per_cycle: u64,
    write_back_mu: bool,
    id: u32,
    res: (u64, Tile<T>),
    i: int,
    j: int,
)
    requires
        combinable(in1, in2, flop_per_cycle),
        call_ensures(self::mul::<T>, (&in1, &in2, flop_per_cycle, write_back_mu, id), res),
        0 <= i < res.1.shape.0,
        0 <= j < res.1.shape.1,
    ensures
        res.0 * flop_per_cycle >= res.1.shape.0 * res.1.shape.1 > (res.0 - 1) * flop_per_cycle,
        res.1.shape.0 == vstd::math::max(in1.shape.0 as int, in2.shape.0 as int),
        res.1.shape.1 == vstd::math::max(in1.shape.1 as int, in2.shape.1 as int),
        res.1.bytes_per_elem == in1.bytes_per_elem,
        res.1.read_from_mu == write_back_mu,
        res.1.offset == (if in1.shape.0 == 1 && in2.shape.0 > 1 {
            in2.offset
        } else {
            in1.offset
        }),
        res.1.underlying is Some <==> in1.underlying is Some && in2.underlying is Some,
        in1.underlying is Some && in2.underlying is Some ==> {
            let i1 = if in1.shape.0 == 1 { 0 } else { i };
            let j1 = if in1.shape.1 == 1 { 0 } else { j };
            let i2 = if in2.shape.0 == 1 { 0 } else { i };
            let j2 = if in2.shape.1 == 1 { 0 } else { j };
            call_ensures(
                <T as Mul>::mul,
                (in1.at(i1, j1), in2.at(i2, j2)),
                res.1.at(i, j),
            )
        },
{
    let cells = res.1.shape.0 * res.1.shape.1;
    assert(cells >= 0) by (nonlinear_arith)
        requires
            cells == res.1.shape.0 * res.1.shape.1,
            res.1.shape.0 >= 0,
            res.1.shape.1 >= 0,
    ;
    lemma_ceil_div(cells, flop_per_cycle as int);
    assert((res.0 - 1) * flop_per_cycle == res.0 * flop_per_cycle - flop_per_cycle)
        by (nonlinear_arith);
    if in1.underlying is Some && in2.underlying is Some {
        let out = res.1.at(i, j);
        assert(repeated_cell(in1, i, j) == in1.at(
            if in1.shape.0 == 1 { 0 } else { i },
            if in1.shape.1 == 1 { 0 } else { j },
        ));
        assert(repeated_cell(in2, i, j) == in2.at(
            if in2.shape.0 == 1 { 0 } else { i },
            if in2.shape.1 == 1 { 0 } else { j },
        ));
    }
}

/// The sum of a tile and an accumulator that has rows, cell by cell: a dimension
/// of size one is repeated. The valid rows are those of the tile, unless its
/// one row is repeated.
pub proof fn law_sum_with_accumulator<T: Copy + Add<Output = T>>(
    in1: Tile<T>,
    in2: Tile<T>,
    flop_per_cycle: u64,
    write_back_mu: bool,
    id: u32,
    res: (u64, Tile<T>),
    i: int,
    j: int,
)
    requires
        combinable(in1, in2, flop_per_cycle),
        in2.shape.0 > 0,
        call_ensures(self::add::<T>, (&in1, &in2, flop_per_cycle, write_back_mu, id), res),
        0 <= i < res.1.shape.0,
        0 <= j < res.1.shape.1,
    ensures
        res.0 * flop_per_cycle >= res.1.shape.0 * res.1.shape.1 > (res.0 - 1) * flop_per_cycle,
        res.1.shape.0 == vstd::math::max(in1.shape.0 as int, in2.shape.0 as int),
        res.1.shape.1 == vstd::math::max(in1.shape.1 as int, in2.shape.1 as int),
        res.1.bytes_per_elem == in1.bytes_per_elem,
        res.1.read_from_mu == write_back_mu,
        res.1.offset == (if in1.shape.0 == 1 && in2.shape.0 > 1 {
            in2.offset
        } else {
            in1.offset
        }),
        res.1.underlying is Some <==> in1.underlying is Some && in2.underlying is Some,
        in1.underlying is Some && in2.underlying is Some ==> {
            let i1 = if in1.shape.0 == 1 { 0 } else { i };
            let j1 = if in1.shape.1 == 1 { 0 } else { j };
            let i2 = if in2.shape.0 == 1 { 0 } else { i };
            let j2 = if in2.shape.1 == 1 { 0 } else { j };
            call_ensures(
                <T as Add>::add,
                (in1.at(i1, j1), in2.at(i2, j2)),
                res.1.at(i, j),
            )
        },
{
    let cells = res.1.shape.0 * res.1.shape.1;
    assert(cells >= 0) by (nonlinear_arith)
        requires
            cells == res.1.shape.0 * res.1.shape.1,
            res.1.shape.0 >= 0,
            res.1.shape.1 >= 0,
    ;
    lemma_ceil_div(cells, flop_per_cycle as int);
    assert((res.0 - 1) * flop_per_cycle == res.0 * flop_per_cycle - flop_per_cycle)
        by (nonlinear_arith);
    if in1.underlying is Some && in2.underlying is Some {
        let out = res.1.at(i, j);
        assert(repeated_cell(in1, i, j) == in1.at(
            if in1.shape.0 == 1 { 0 } else { i },
            if in1.shape.1 == 1 { 0 } else { j },
        ));
        assert(repeated_cell(in2, i, j) == in2.at(
            if in2.shape.0 == 1 { 0 } else { i },
            if in2.shape.1 == 1 { 0 } else { j },
        ));
    }
}

/// An accumulator without rows adopts the tile as it is, for the price of a
/// sum.
pub proof fn law_empty_accumulator_adopts<T: Copy + Add<Output = T>>(
    in1: Tile<T>,
    in2: Tile<T>,
    flop_per_cycle: u64,
    write_back_mu: bool,
    id: u32,
    res: (u64, Tile<T>),
)
    requires
        in2.shape.0 == 0,
        flop_per_cycle > 0,
        call_ensures(self::add::<T>, (&in1, &in2, flop_per_cycle, write_back_mu, id), res),
    ensures
        res.1.underlying == in1.underlying,
        res.1.shape == in1.shape,
        res.1.offset == in1.offset,
        res.1.bytes_per_elem == in1.bytes_per_elem,
        res.1.read_from_mu == write_back_mu,
        res.0 * flop_per_cycle >= in1.shape.0 * in1.shape.1 > (res.0 - 1) * flop_per_cycle,
{
    let cells = in1.shape.0 * in1.shape.1;
    assert(cells >= 0) by (nonlinear_arith)
        requires
            cells == in1.shape.0 * in1.shape.1,
            in1.shape.0 >= 0,
            in1.shape.1 >= 0,
    ;
    lemma_ceil_div(cells, flop_per_cycle as int);
    assert((res.0 - 1) * flop_per_cycle == res.0 * flop_per_cycle - flop_per_cycle)
        by (nonlinear_arith);
}

/// Joining puts the tile behind the accumulator, beside it or below it, and
/// takes no cycles. The cells of both stay, and rows that are joined add up
/// their valid rows.
pub proof fn law_joined_tiles_keep_cells<T: Copy>(
    in_data: Tile<T>,
    accumulator: Tile<T>,
    flop_per_cycle: u64,
    write_back_mu: bool,
    id: u32,
    by_col: (u64, Tile<T>),
    by_row: (u64, Tile<T>),
    i: int,
    j: int,
)
    requires
        in_data.underlying is Some,
        accumulator.underlying is Some,
        in_data.shape == accumulator.shape,
        in_data.shape.0 + accumulator.shape.0 <= usize::MAX,
        in_data.shape.1 + accumulator.shape.1 <= usize::MAX,
        call_ensures(
            retile_col::<T>,
            (&in_data, &accumulator, flop_per_cycle, write_back_mu, id),
            by_col,
        ),
        call_ensures(
            retile_row::<T>,
            (&in_data, &accumulator, flop_per_cycle, write_back_mu, id),
            by_row,
        ),
        0 <= i < in_data.shape.0,
        0 <= j < in_data.shape.1,
    ensures
        by_col.0 == 0 && by_row.0 == 0,
        by_col.1.shape == (in_data.shape.0, (in_data.shape.1 * 2) as usize),
        by_row.1.shape == ((in_data.shape.0 * 2) as usize, in_data.shape.1),
        by_col.1.at(i, j) == accumulator.at(i, j),
        by_col.1.at(i, in_data.shape.1 + j) == in_data.at(i, j),
        by_row.1.at(i, j) == accumulator.at(i, j),
        by_row.1.at(in_data.shape.0 + i, j) == in_data.at(i, j),
        by_col.1.offset == in_data.offset,
        by_row.1.offset == accumulator.offset + in_data.offset,
{
    let a = by_col.1.at(i, j);
    let b = by_row.1.at(i, j);
    assert(by_col.1.at(i, in_data.shape.1 + j) == in_data.at(i, j));
    assert(by_row.1.at(in_data.shape.0 + i, j) == in_data.at(i, j));
}

} // verus!
