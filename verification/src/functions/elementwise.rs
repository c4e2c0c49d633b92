//! Applying scalar operations to all cells of tiles.

use core::ops::{Add, Div, Mul, Sub};
use vstd::prelude::*;

use crate::primitives::array::Array2;
use crate::primitives::tile::Tile;
use crate::utils::calculation::{ceil_div, div_ceil};

verus! {

/// `z` is a result of `x + y`.
pub open spec fn sum_of<T: Add<Output = T>>(x: T, y: T, z: T) -> bool {
    call_ensures(<T as Add>::add, (x, y), z)
}

/// `z` is a result of `x - y`.
pub open spec fn difference_of<T: Sub<Output = T>>(x: T, y: T, z: T) -> bool {
    call_ensures(<T as Sub>::sub, (x, y), z)
}

/// `z` is a result of `x * y`.
pub open spec fn product_of<T: Mul<Output = T>>(x: T, y: T, z: T) -> bool {
    call_ensures(<T as Mul>::mul, (x, y), z)
}

/// `z` is a result of `x / y`.
pub open spec fn quotient_of<T: Div<Output = T>>(x: T, y: T, z: T) -> bool {
    call_ensures(<T as Div>::div, (x, y), z)
}

/// `z` is `x` where `x > y`, and `y` otherwise.
pub open spec fn larger_of<T: PartialOrd>(x: T, y: T, z: T) -> bool {
    ||| call_ensures(<T as PartialOrd>::gt, (&x, &y), true) && z == x
    ||| call_ensures(<T as PartialOrd>::gt, (&x, &y), false) && z == y
}

/// Two extents agree, or one of them is one and is repeated.
pub open spec fn extents_match(a: usize, b: usize) -> bool {
    a == b || a == 1 || b == 1
}

/// The larger of two extents.
pub open spec fn larger(a: usize, b: usize) -> usize {
    if a >= b {
        a
    } else {
        b
    }
}

/// The shape of the combination of two tiles.
pub open spec fn combined_shape<T>(in1: Tile<T>, in2: Tile<T>) -> (usize, usize) {
    (larger(in1.shape.0, in2.shape.0), larger(in1.shape.1, in2.shape.1))
}

/// The position of an extent that stands for position `i`: its last one beyond
/// its end.
pub open spec fn repeated(extent: usize, i: int) -> int {
    if i < extent {
        i
    } else {
        extent - 1
    }
}

/// The cell of a tile that stands for cell `(i, j)` of a combination.
pub open spec fn repeated_cell<T>(tile: Tile<T>, i: int, j: int) -> T {
    tile.at(repeated(tile.shape.0, i), repeated(tile.shape.1, j))
}

/// Both tiles have data.
pub open spec fn both_data<T>(in1: Tile<T>, in2: Tile<T>) -> bool {
    in1.underlying is Some && in2.underlying is Some
}

/// The tiles can be combined cell by cell, and the cells can be counted.
pub open spec fn combinable<T>(in1: Tile<T>, in2: Tile<T>, flop_per_cycle: u64) -> bool {
    let shape = combined_shape(in1, in2);
    &&& in1.wf()
    &&& in2.wf()
    &&& flop_per_cycle > 0
    &&& extents_match(in1.shape.0, in2.shape.0)
    &&& extents_match(in1.shape.1, in2.shape.1)
    &&& shape.0 * shape.1 <= usize::MAX
    &&& both_data(in1, in2) && shape.0 > 0 && shape.1 > 0 ==> {
        &&& in1.shape.0 > 0
        &&& in1.shape.1 > 0
        &&& in2.shape.0 > 0
        &&& in2.shape.1 > 0
    }
}

/// `out` is the combination of two tiles: its cells, where there is data, are
/// in relation `rel` to those of the tiles.
pub open spec fn is_combination<T>(
    in1: Tile<T>,
    in2: Tile<T>,
    write_back_mu: bool,
    offset: usize,
    rel: spec_fn(T, T, T) -> bool,
    out: Tile<T>,
) -> bool {
    &&& out.wf()
    &&& out.shape == combined_shape(in1, in2)
    &&& out.bytes_per_elem == in1.bytes_per_elem
    &&& out.read_from_mu == write_back_mu
    &&& out.offset == offset
    &&& out.underlying is Some <==> both_data(in1, in2)
    &&& both_data(in1, in2) ==> forall|i: int, j: int|
        0 <= i < out.shape.0 && 0 <= j < out.shape.1 ==> rel(
            repeated_cell(in1, i, j),
            repeated_cell(in2, i, j),
            #[trigger] out.at(i, j),
        )
}

/// The cell of an array that stands for cell `(i, j)` of a combination.
pub open spec fn stand_in<T>(array: &Array2<T>, i: int, j: int) -> T {
    array.at(repeated(array.rows, i), repeated(array.cols, j))
}

/// The function can be applied to the cells that stand for cell `(i, j)`.
pub open spec fn pair_requires<T, F: Fn(T, T) -> T>(
    a: &Array2<T>,
    b: &Array2<T>,
    f: &F,
    i: int,
    j: int,
) -> bool {
    &&& a.wf() && a.rows > 0 && a.cols > 0
    &&& b.wf() && b.rows > 0 && b.cols > 0
    &&& call_requires(*f, (stand_in(a, i, j), stand_in(b, i, j)))
}

/// `z` is what the function makes of the cells that stand for cell `(i, j)`.
pub open spec fn pair_ensures<T, F: Fn(T, T) -> T>(
    a: &Array2<T>,
    b: &Array2<T>,
    f: &F,
    i: int,
    j: int,
    z: T,
) -> bool {
    call_ensures(*f, (stand_in(a, i, j), stand_in(b, i, j)), z)
}

fn cell_for<T>(array: &Array2<T>, i: usize, j: usize) -> (res: &T)
    requires
        array.wf(),
        array.rows > 0,
        array.cols > 0,
    ensures
        *res == stand_in(array, i as int, j as int),
{
    let row: usize = if i < array.rows {
        i
    } else {
        array.rows - 1
    };
    let col: usize = if j < array.cols {
        j
    } else {
        array.cols - 1
    };
    array.get(row, col)
}

/// Combines two tiles cell by cell.
pub(crate) fn combine<T: Copy, F: Fn(T, T) -> T>(
    in1: &Tile<T>,
    in2: &Tile<T>,
    flop_per_cycle: u64,
    write_back_mu: bool,
    offset: usize,
    f: F,
) -> (res: (u64, Tile<T>))
    requires
        combinable(*in1, *in2, flop_per_cycle),
        both_data(*in1, *in2) ==> forall|i: int, j: int|
            #![trigger repeated_cell(*in1, i, j)]
            0 <= i < combined_shape(*in1, *in2).0 && 0 <= j < combined_shape(*in1, *in2).1
                ==> call_requires(f, (repeated_cell(*in1, i, j), repeated_cell(*in2, i, j))),
    ensures
        res.0 == ceil_div(
            combined_shape(*in1, *in2).0 * combined_shape(*in1, *in2).1,
            flop_per_cycle as int,
        ),
        is_combination(
            *in1,
            *in2,
            write_back_mu,
            offset,
            |x: T, y: T, z: T| call_ensures(f, (x, y), z),
            res.1,
        ),
{
    let rows: usize = if in1.shape.0 >= in2.shape.0 {
        in1.shape.0
    } else {
        in2.shape.0
    };
    let cols: usize = if in1.shape.1 >= in2.shape.1 {
        in1.shape.1
    } else {
        in2.shape.1
    };
    let cycles: u64 = div_ceil((rows * cols) as u64, flop_per_cycle);
    match (&in1.underlying, &in2.underlying) {
        (Some(a), Some(b)) => {
            let cell = |i: usize, j: usize| -> (z: T)
                requires
                    pair_requires(&**a, &**b, &f, i as int, j as int),
                ensures
                    pair_ensures(&**a, &**b, &f, i as int, j as int, z),
                { f(*cell_for(a, i, j), *cell_for(b, i, j)) };
            proof {
                assert forall|i: usize, j: usize| i < rows && j < cols implies #[trigger]
                    call_requires(cell, (i, j)) by {
                    assert(repeated_cell(*in1, i as int, j as int) == stand_in(
                        &**a,
                        i as int,
                        j as int,
                    ));
                }
            }
            let array = Array2::from_shape_fn(rows, cols, cell);
            let tile = Tile::new_padded(array, in1.bytes_per_elem, write_back_mu, offset);
            (cycles, tile)
        },
        _ => (
            cycles,
            Tile::new_blank_padded((rows, cols), in1.bytes_per_elem, write_back_mu, offset),
        ),
    }
}

/// `out` is the tile with every cell replaced by one that is in relation `rel`
/// to it.
pub open spec fn is_mapped<T, U>(
    in_data: Tile<T>,
    bytes_per_elem: usize,
    write_back_mu: bool,
    offset: usize,
    rel: spec_fn(T, U) -> bool,
    out: Tile<U>,
) -> bool {
    &&& out.wf()
    &&& out.shape == in_data.shape
    &&& out.bytes_per_elem == bytes_per_elem
    &&& out.read_from_mu == write_back_mu
    &&& out.offset == offset
    &&& out.underlying is Some <==> in_data.underlying is Some
    &&& in_data.underlying is Some ==> forall|i: int, j: int|
        0 <= i < out.shape.0 && 0 <= j < out.shape.1 ==> rel(
            in_data.at(i, j),
            #[trigger] out.at(i, j),
        )
}

/// The function can be applied to every cell.
pub open spec fn mappable<T, U, F: Fn(T) -> U>(in_data: Tile<T>, f: F) -> bool {
    in_data.underlying is Some ==> forall|i: int, j: int|
        0 <= i < in_data.shape.0 && 0 <= j < in_data.shape.1 ==> call_requires(
            f,
            (#[trigger] in_data.at(i, j),),
        )
}

/// The function can be applied to a cell.
pub open spec fn cell_requires<T, U, F: Fn(T) -> U>(
    array: &Array2<T>,
    f: &F,
    i: int,
    j: int,
) -> bool {
    array.wf() && 0 <= i < array.rows && 0 <= j < array.cols && call_requires(
        *f,
        (array.at(i, j),),
    )
}

/// `y` is what the function makes of a cell.
pub open spec fn cell_ensures<T, U, F: Fn(T) -> U>(
    array: &Array2<T>,
    f: &F,
    i: int,
    j: int,
    y: U,
) -> bool {
    call_ensures(*f, (array.at(i, j),), y)
}

/// Replaces every cell of a tile.
pub(crate) fn map_tile<T: Copy, F: Fn(T) -> T>(
    in_data: &Tile<T>,
    write_back_mu: bool,
    offset: usize,
    f: F,
) -> (res: Tile<T>)
    requires
        in_data.wf(),
        in_data.shape.0 * in_data.shape.1 <= usize::MAX,
        mappable(*in_data, f),
    ensures
        is_mapped(
            *in_data,
            in_data.bytes_per_elem,
            write_back_mu,
            offset,
            |x: T, y: T| call_ensures(f, (x,), y),
            res,
        ),
{
    match &in_data.underlying {
        Some(array) => {
            let cell = |i: usize, j: usize| -> (y: T)
                requires
                    cell_requires(&**array, &f, i as int, j as int),
                ensures
                    cell_ensures(&**array, &f, i as int, j as int, y),
                { f(*array.get(i, j)) };
            proof {
                assert forall|i: usize, j: usize| i < array.rows && j < array.cols implies #[trigger]
                    call_requires(cell, (i, j)) by {
                    assert(in_data.at(i as int, j as int) == array.at(i as int, j as int));
                }
            }
            let mapped = Array2::from_shape_fn(array.rows, array.cols, cell);
            Tile::new_padded(mapped, in_data.bytes_per_elem, write_back_mu, offset)
        },
        None => Tile::new_blank_padded(
            in_data.shape,
            in_data.bytes_per_elem,
            write_back_mu,
            offset,
        ),
    }
}

} // verus!
