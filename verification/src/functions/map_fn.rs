//! Functions on tiles.
//!
//! Each returns the cycles that it takes and its result. `write_back_mu` says
//! whether the output is written to a memory unit; the result is marked
//! accordingly, so that the next unit adds load latency.

use core::ops::{Add, Div, Mul, Sub};
use vstd::prelude::*;
use vstd::std_specs::convert::TryIntoSpec;
use vstd::std_specs::ops::{AddSpec, DivSpec, MulSpec, SubSpec};

use crate::functions::elementwise::{
    both_data, combinable, combine, combined_shape, difference_of, is_combination, is_mapped,
    larger_of, map_tile, mappable, product_of, quotient_of, repeated_cell, sum_of,
};
use crate::memory::random_offchip_load::{carries_index, index_of};
use crate::primitives::array::{
    dot, dot_sum, representable, row_sum, sum_rows, Array2,
};
use crate::primitives::select::{
    as_ints, flags_of, lemma_flags_of_sel_vec, sel_vec, MultiHotN, SelectAdapter,
};
use crate::primitives::tile::{blank_tile, is_scalar_tile, padded_tile, scalar_tile, Tile};
use crate::utils::calculation::{ceil_div, div_ceil, lemma_ceil_div};

verus! {

/// The columns of the product: those of the weight, which may be transposed.
pub open spec fn weight_cols<T>(in2: Tile<T>, weight_transposed: bool) -> usize {
    if weight_transposed {
        in2.shape.0
    } else {
        in2.shape.1
    }
}

/// The extent over which the products are summed.
pub open spec fn weight_rows<T>(in2: Tile<T>, weight_transposed: bool) -> usize {
    if weight_transposed {
        in2.shape.1
    } else {
        in2.shape.0
    }
}

/// The tiles can be multiplied, and the operations can be counted.
pub open spec fn multipliable<T>(
    in1: Tile<T>,
    in2: Tile<T>,
    flop_per_cycle: u64,
    weight_transposed: bool,
) -> bool {
    let m = in1.shape.0;
    let k = in1.shape.1;
    let n = weight_cols(in2, weight_transposed);
    &&& in1.wf()
    &&& in2.wf()
    &&& flop_per_cycle > 0
    &&& k == weight_rows(in2, weight_transposed)
    &&& in1.bytes_per_elem == in2.bytes_per_elem
    &&& 2 * m <= usize::MAX
    &&& 2 * m * k <= usize::MAX
    &&& 2 * m * k * n <= usize::MAX
}

/// Two operations for each product that is summed.
pub open spec fn matmul_cycles<T>(
    in1: Tile<T>,
    in2: Tile<T>,
    flop_per_cycle: u64,
    weight_transposed: bool,
) -> int {
    ceil_div(
        2 * in1.shape.0 * in1.shape.1 * weight_cols(in2, weight_transposed),
        flop_per_cycle as int,
    )
}

/// The tile of a matrix product, given the product itself.
pub open spec fn product_tile<T>(
    in1: Tile<T>,
    in2: Tile<T>,
    product: Option<Array2<T>>,
    write_back_mu: bool,
    weight_transposed: bool,
) -> Tile<T> {
    match product {
        Some(array) => padded_tile(array, in1.bytes_per_elem, write_back_mu, in1.offset),
        None => blank_tile(
            (in1.shape.0, weight_cols(in2, weight_transposed)),
            in1.bytes_per_elem,
            write_back_mu,
            in1.offset,
        ),
    }
}

/// The cycles of a matrix product.
pub(crate) fn count_matmul_cycles<T>(
    in1: &Tile<T>,
    in2: &Tile<T>,
    flop_per_cycle: u64,
    weight_transposed: bool,
) -> (res: u64)
    requires
        multipliable(*in1, *in2, flop_per_cycle, weight_transposed),
    ensures
        res == matmul_cycles(*in1, *in2, flop_per_cycle, weight_transposed),
{
    let n: usize = if weight_transposed {
        in2.shape.0
    } else {
        in2.shape.1
    };
    proof {
        assert(2 * in1.shape.0 * in1.shape.1 >= 0) by (nonlinear_arith)
            requires
                in1.shape.0 >= 0,
                in1.shape.1 >= 0,
        ;
        assert(2 * in1.shape.0 * in1.shape.1 * n >= 0) by (nonlinear_arith)
            requires
                2 * in1.shape.0 * in1.shape.1 >= 0,
                n >= 0,
        ;
    }
    div_ceil((2 * in1.shape.0 * in1.shape.1 * n) as u64, flop_per_cycle)
}

/// Matrix product of two tiles whose data, where both have any, is multiplied
/// by the caller. `weight_transposed` says that the weight is stored with rows
/// and columns exchanged. The valid rows are those of the first tile.
pub fn matmul_with<T>(
    in1: &Tile<T>,
    in2: &Tile<T>,
    product: Option<Array2<T>>,
    flop_per_cycle: u64,
    write_back_mu: bool,
    weight_transposed: bool,
) -> (res: (u64, Tile<T>))
    requires
        multipliable(*in1, *in2, flop_per_cycle, weight_transposed),
        product is Some <==> both_data(*in1, *in2),
        product matches Some(array) ==> {
            &&& array.wf()
            &&& array.rows == in1.shape.0
            &&& array.cols == weight_cols(*in2, weight_transposed)
        },
    ensures
        res.0 == matmul_cycles(*in1, *in2, flop_per_cycle, weight_transposed),
        res.1 == product_tile(*in1, *in2, product, write_back_mu, weight_transposed),
        res.1.wf(),
        res.1.shape == (in1.shape.0, weight_cols(*in2, weight_transposed)),
{
    let cycles: u64 = count_matmul_cycles(in1, in2, flop_per_cycle, weight_transposed);
    let n: usize = if weight_transposed {
        in2.shape.0
    } else {
        in2.shape.1
    };
    let tile = match product {
        Some(array) => Tile::new_padded(array, in1.bytes_per_elem, write_back_mu, in1.offset),
        None => Tile::new_blank_padded(
            (in1.shape.0, n),
            in1.bytes_per_elem,
            write_back_mu,
            in1.offset,
        ),
    };
    (cycles, tile)
}

/// Cell `(k, j)` of a weight, which may be stored transposed.
pub open spec fn weight_at(in2: Tile<u64>, weight_transposed: bool, k: int, j: int) -> u64 {
    if weight_transposed {
        in2.at(j, k)
    } else {
        in2.at(k, j)
    }
}

/// The sum of the first `n` products for cell `(i, j)` of a matrix product.
pub open spec fn matmul_sum(
    in1: Tile<u64>,
    in2: Tile<u64>,
    weight_transposed: bool,
    i: int,
    j: int,
    n: int,
) -> int
    decreases n,
{
    if n <= 0 {
        0
    } else {
        matmul_sum(in1, in2, weight_transposed, i, j, n - 1) + in1.at(i, n - 1) * weight_at(
            in2,
            weight_transposed,
            n - 1,
            j,
        )
    }
}

/// The matrix product of the tiles' data exists: no cell exceeds 64 bits, and
/// the matrices can be represented.
pub open spec fn product_fits(in1: Tile<u64>, in2: Tile<u64>, weight_transposed: bool) -> bool {
    both_data(in1, in2) ==> {
        let n = weight_cols(in2, weight_transposed);
        &&& representable(in1.shape.0 as int, in1.shape.1 as int)
        &&& representable(in1.shape.1 as int, n as int)
        &&& representable(in1.shape.0 as int, n as int)
        &&& forall|i: int, j: int|
            0 <= i < in1.shape.0 && 0 <= j < n ==> #[trigger] matmul_sum(
                in1,
                in2,
                weight_transposed,
                i,
                j,
                in1.shape.1 as int,
            ) <= u64::MAX
    }
}

/// `product` is the matrix product of the tiles' data.
pub open spec fn is_matmul(
    in1: Tile<u64>,
    in2: Tile<u64>,
    weight_transposed: bool,
    product: Array2<u64>,
) -> bool {
    &&& product.wf()
    &&& product.rows == in1.shape.0
    &&& product.cols == weight_cols(in2, weight_transposed)
    &&& forall|i: int, j: int|
        0 <= i < product.rows && 0 <= j < product.cols ==> #[trigger] product.at(i, j)
            == matmul_sum(in1, in2, weight_transposed, i, j, in1.shape.1 as int)
}

proof fn lemma_dot_is_matmul(
    in1: Tile<u64>,
    in2: Tile<u64>,
    weight_transposed: bool,
    a: Array2<u64>,
    b: Array2<u64>,
    i: int,
    j: int,
    n: int,
)
    requires
        n <= b.rows,
        0 <= j < b.cols,
        forall|i: int, k: int| #[trigger] a.at(i, k) == in1.at(i, k),
        forall|k: int, j: int|
            0 <= k < b.rows && 0 <= j < b.cols ==> #[trigger] b.at(k, j) == weight_at(
                in2,
                weight_transposed,
                k,
                j,
            ),
    ensures
        dot_sum(a, b, i, j, n) == matmul_sum(in1, in2, weight_transposed, i, j, n),
    decreases n,
{
    if n > 0 {
        lemma_dot_is_matmul(in1, in2, weight_transposed, a, b, i, j, n - 1);
        assert(a.at(i, n - 1) == in1.at(i, n - 1));
        assert(b.at(n - 1, j) == weight_at(in2, weight_transposed, n - 1, j));
    }
}

/// The matrix product of the data of two tiles, where both have any.
pub(crate) fn multiply(in1: &Tile<u64>, in2: &Tile<u64>, weight_transposed: bool) -> (res: Option<
    Array2<u64>,
>)
    requires
        in1.wf(),
        in2.wf(),
        in1.shape.1 == weight_rows(*in2, weight_transposed),
        product_fits(*in1, *in2, weight_transposed),
    ensures
        res is Some <==> both_data(*in1, *in2),
        res matches Some(product) ==> is_matmul(*in1, *in2, weight_transposed, product),
{
    match (&in1.underlying, &in2.underlying) {
        (Some(a), Some(b)) => {
            if weight_transposed {
                let weight = b.transposed();
                proof {
                    assert forall|i: int, j: int|
                        0 <= i < a.rows && 0 <= j < weight.cols implies #[trigger] dot_sum(
                        **a,
                        weight,
                        i,
                        j,
                        a.cols as int,
                    ) == matmul_sum(*in1, *in2, weight_transposed, i, j, in1.shape.1 as int) by {
                        lemma_dot_is_matmul(
                            *in1,
                            *in2,
                            weight_transposed,
                            **a,
                            weight,
                            i,
                            j,
                            a.cols as int,
                        );
                    }
                }
                Some(dot(a, &weight))
            } else {
                proof {
                    assert forall|i: int, j: int|
                        0 <= i < a.rows && 0 <= j < b.cols implies #[trigger] dot_sum(
                        **a,
                        **b,
                        i,
                        j,
                        a.cols as int,
                    ) == matmul_sum(*in1, *in2, weight_transposed, i, j, in1.shape.1 as int) by {
                        lemma_dot_is_matmul(
                            *in1,
                            *in2,
                            weight_transposed,
                            **a,
                            **b,
                            i,
                            j,
                            a.cols as int,
                        );
                    }
                }
                Some(dot(a, b))
            }
        },
        _ => None,
    }
}

/// Matrix product of two tiles. `weight_transposed` says that the weight is
/// stored with rows and columns exchanged. The valid rows are those of the
/// first tile.
pub fn matmul(
    in1: &Tile<u64>,
    in2: &Tile<u64>,
    flop_per_cycle: u64,
    write_back_mu: bool,
    weight_transposed: bool,
) -> (res: (u64, Tile<u64>))
    requires
        multipliable(*in1, *in2, flop_per_cycle, weight_transposed),
        product_fits(*in1, *in2, weight_transposed),
    ensures
        res.0 == matmul_cycles(*in1, *in2, flop_per_cycle, weight_transposed),
        both_data(*in1, *in2) ==> exists|product: Array2<u64>|
            #[trigger] is_matmul(*in1, *in2, weight_transposed, product) && res.1 == product_tile(
                *in1,
                *in2,
                Some(product),
                write_back_mu,
                weight_transposed,
            ),
        !both_data(*in1, *in2) ==> res.1 == product_tile(
            *in1,
            *in2,
            None,
            write_back_mu,
            weight_transposed,
        ),
{
    let product = multiply(in1, in2, weight_transposed);
    matmul_with(in1, in2, product, flop_per_cycle, write_back_mu, weight_transposed)
}

/// The valid rows of a combination: the larger count where the tiles have as
/// many rows, and otherwise that of the tile whose rows are not repeated.
pub open spec fn combined_offset<T>(in1: Tile<T>, in2: Tile<T>) -> usize {
    if in1.shape.0 == in2.shape.0 {
        if in1.offset >= in2.offset {
            in1.offset
        } else {
            in2.offset
        }
    } else if in1.shape.0 == 1 {
        in2.offset
    } else {
        in1.offset
    }
}

fn map_offset<T>(in1: &Tile<T>, in2: &Tile<T>) -> (res: usize)
    ensures
        res == combined_offset(*in1, *in2),
{
    if in1.shape.0 == in2.shape.0 {
        if in1.offset >= in2.offset {
            in1.offset
        } else {
            in2.offset
        }
    } else if in1.shape.0 == 1 {
        in2.offset
    } else {
        in1.offset
    }
}

/// One operation for each cell of the combination.
pub open spec fn combination_cycles<T>(in1: Tile<T>, in2: Tile<T>, flop_per_cycle: u64) -> int {
    ceil_div(combined_shape(in1, in2).0 * combined_shape(in1, in2).1, flop_per_cycle as int)
}

/// Quotient, cell by cell.
pub fn div<T: Copy + Div<Output = T>>(
    in1: &Tile<T>,
    in2: &Tile<T>,
    flop_per_cycle: u64,
    write_back_mu: bool,
) -> (res: (u64, Tile<T>))
    requires
        combinable(*in1, *in2, flop_per_cycle),
        both_data(*in1, *in2) ==> forall|i: int, j: int|
            #![trigger repeated_cell(*in1, i, j)]
            0 <= i < combined_shape(*in1, *in2).0 && 0 <= j < combined_shape(*in1, *in2).1
                ==> repeated_cell(*in1, i, j).div_req(repeated_cell(*in2, i, j)),
    ensures
        res.0 == combination_cycles(*in1, *in2, flop_per_cycle),
        is_combination(
            *in1,
            *in2,
            write_back_mu,
            combined_offset(*in1, *in2),
            |x: T, y: T, z: T| quotient_of(x, y, z),
            res.1,
        ),
{
    let quotient = |x: T, y: T| -> (z: T)
        requires
            x.div_req(y),
        ensures
            quotient_of(x, y, z),
        { x / y };
    combine(in1, in2, flop_per_cycle, write_back_mu, map_offset(in1, in2), quotient)
}

/// Product, cell by cell.
pub fn mul<T: Copy + Mul<Output = T>>(
    in1: &Tile<T>,
    in2: &Tile<T>,
    flop_per_cycle: u64,
    write_back_mu: bool,
) -> (res: (u64, Tile<T>))
    requires
        combinable(*in1, *in2, flop_per_cycle),
        both_data(*in1, *in2) ==> forall|i: int, j: int|
            #![trigger repeated_cell(*in1, i, j)]
            0 <= i < combined_shape(*in1, *in2).0 && 0 <= j < combined_shape(*in1, *in2).1
                ==> repeated_cell(*in1, i, j).mul_req(repeated_cell(*in2, i, j)),
    ensures
        res.0 == combination_cycles(*in1, *in2, flop_per_cycle),
        is_combination(
            *in1,
            *in2,
            write_back_mu,
            combined_offset(*in1, *in2),
            |x: T, y: T, z: T| product_of(x, y, z),
            res.1,
        ),
{
    let product = |x: T, y: T| -> (z: T)
        requires
            x.mul_req(y),
        ensures
            product_of(x, y, z),
        { x * y };
    combine(in1, in2, flop_per_cycle, write_back_mu, map_offset(in1, in2), product)
}

/// Sum, cell by cell.
pub fn add<T: Copy + Add<Output = T>>(
    in1: &Tile<T>,
    in2: &Tile<T>,
    flop_per_cycle: u64,
    write_back_mu: bool,
) -> (res: (u64, Tile<T>))
    requires
        combinable(*in1, *in2, flop_per_cycle),
        both_data(*in1, *in2) ==> forall|i: int, j: int|
            #![trigger repeated_cell(*in1, i, j)]
            0 <= i < combined_shape(*in1, *in2).0 && 0 <= j < combined_shape(*in1, *in2).1
                ==> repeated_cell(*in1, i, j).add_req(repeated_cell(*in2, i, j)),
    ensures
        res.0 == combination_cycles(*in1, *in2, flop_per_cycle),
        is_combination(
            *in1,
            *in2,
            write_back_mu,
            combined_offset(*in1, *in2),
            |x: T, y: T, z: T| sum_of(x, y, z),
            res.1,
        ),
{
    let sum = |x: T, y: T| -> (z: T)
        requires
            x.add_req(y),
        ensures
            sum_of(x, y, z),
        { x + y };
    combine(in1, in2, flop_per_cycle, write_back_mu, map_offset(in1, in2), sum)
}

/// Difference, cell by cell.
pub fn sub<T: Copy + Sub<Output = T>>(
    in1: &Tile<T>,
    in2: &Tile<T>,
    flop_per_cycle: u64,
    write_back_mu: bool,
) -> (res: (u64, Tile<T>))
    requires
        combinable(*in1, *in2, flop_per_cycle),
        both_data(*in1, *in2) ==> forall|i: int, j: int|
            #![trigger repeated_cell(*in1, i, j)]
            0 <= i < combined_shape(*in1, *in2).0 && 0 <= j < combined_shape(*in1, *in2).1
                ==> repeated_cell(*in1, i, j).sub_req(repeated_cell(*in2, i, j)),
    ensures
        res.0 == combination_cycles(*in1, *in2, flop_per_cycle),
        is_combination(
            *in1,
            *in2,
            write_back_mu,
            combined_offset(*in1, *in2),
            |x: T, y: T, z: T| difference_of(x, y, z),
            res.1,
        ),
{
    let difference = |x: T, y: T| -> (z: T)
        requires
            x.sub_req(y),
        ensures
            difference_of(x, y, z),
        { x - y };
    combine(in1, in2, flop_per_cycle, write_back_mu, map_offset(in1, in2), difference)
}

/// The larger value, cell by cell.
pub fn max<T: Copy + PartialOrd>(
    in1: &Tile<T>,
    in2: &Tile<T>,
    flop_per_cycle: u64,
    write_back_mu: bool,
) -> (res: (u64, Tile<T>))
    requires
        combinable(*in1, *in2, flop_per_cycle),
    ensures
        res.0 == combination_cycles(*in1, *in2, flop_per_cycle),
        is_combination(
            *in1,
            *in2,
            write_back_mu,
            combined_offset(*in1, *in2),
            |x: T, y: T, z: T| larger_of(x, y, z),
            res.1,
        ),
{
    let greater = |x: T, y: T| -> (z: T)
        ensures
            larger_of(x, y, z),
        {
            if x > y {
                x
            } else {
                y
            }
        };
    combine(in1, in2, flop_per_cycle, write_back_mu, map_offset(in1, in2), greater)
}

/// The cells of a tile, times the operations for each, can be counted.
pub open spec fn countable<T>(in_data: Tile<T>, flops: int, flop_per_cycle: u64) -> bool {
    &&& in_data.wf()
    &&& flop_per_cycle > 0
    &&& in_data.shape.0 * in_data.shape.1 <= usize::MAX
    &&& in_data.shape.0 * in_data.shape.1 * flops <= usize::MAX
}

/// The cycles for a number of operations on each cell.
pub open spec fn cell_cycles<T>(in_data: Tile<T>, flops: int, flop_per_cycle: u64) -> int {
    ceil_div(in_data.shape.0 * in_data.shape.1 * flops, flop_per_cycle as int)
}

/// Adds a constant to every cell. All rows of the result count as valid.
pub fn add_constant<T: Copy + Add<Output = T>>(
    in1: &Tile<T>,
    constant: T,
    flop_per_cycle: u64,
    write_back_mu: bool,
) -> (res: (u64, Tile<T>))
    requires
        countable(*in1, 1, flop_per_cycle),
        in1.underlying is Some ==> forall|i: int, j: int|
            0 <= i < in1.shape.0 && 0 <= j < in1.shape.1 ==> (#[trigger] in1.at(i, j)).add_req(
                constant,
            ),
    ensures
        res.0 == cell_cycles(*in1, 1, flop_per_cycle),
        is_mapped(
            *in1,
            in1.bytes_per_elem,
            write_back_mu,
            in1.shape.0,
            |x: T, y: T| sum_of(x, constant, y),
            res.1,
        ),
{
    let sum = |x: T| -> (y: T)
        requires
            x.add_req(constant),
        ensures
            sum_of(x, constant, y),
        { x + constant };
    let cycles: u64 = div_ceil((in1.shape.0 * in1.shape.1) as u64, flop_per_cycle);
    (cycles, map_tile(in1, write_back_mu, in1.shape.0, sum))
}

/// Subtracts a constant from every cell. All rows of the result count as
/// valid.
pub fn sub_constant<T: Copy + Sub<Output = T>>(
    in1: &Tile<T>,
    constant: T,
    flop_per_cycle: u64,
    write_back_mu: bool,
) -> (res: (u64, Tile<T>))
    requires
        countable(*in1, 1, flop_per_cycle),
        in1.underlying is Some ==> forall|i: int, j: int|
            0 <= i < in1.shape.0 && 0 <= j < in1.shape.1 ==> (#[trigger] in1.at(i, j)).sub_req(
                constant,
            ),
    ensures
        res.0 == cell_cycles(*in1, 1, flop_per_cycle),
        is_mapped(
            *in1,
            in1.bytes_per_elem,
            write_back_mu,
            in1.shape.0,
            |x: T, y: T| difference_of(x, constant, y),
            res.1,
        ),
{
    let difference = |x: T| -> (y: T)
        requires
            x.sub_req(constant),
        ensures
            difference_of(x, constant, y),
        { x - constant };
    let cycles: u64 = div_ceil((in1.shape.0 * in1.shape.1) as u64, flop_per_cycle);
    (cycles, map_tile(in1, write_back_mu, in1.shape.0, difference))
}

/// Multiplies every cell by a constant. All rows of the result count as valid.
pub fn mul_constant<T: Copy + Mul<Output = T>>(
    in1: &Tile<T>,
    constant: T,
    flop_per_cycle: u64,
    write_back_mu: bool,
) -> (res: (u64, Tile<T>))
    requires
        countable(*in1, 1, flop_per_cycle),
        in1.underlying is Some ==> forall|i: int, j: int|
            0 <= i < in1.shape.0 && 0 <= j < in1.shape.1 ==> (#[trigger] in1.at(i, j)).mul_req(
                constant,
            ),
    ensures
        res.0 == cell_cycles(*in1, 1, flop_per_cycle),
        is_mapped(
            *in1,
            in1.bytes_per_elem,
            write_back_mu,
            in1.shape.0,
            |x: T, y: T| product_of(x, constant, y),
            res.1,
        ),
{
    let product = |x: T| -> (y: T)
        requires
            x.mul_req(constant),
        ensures
            product_of(x, constant, y),
        { x * constant };
    let cycles: u64 = div_ceil((in1.shape.0 * in1.shape.1) as u64, flop_per_cycle);
    (cycles, map_tile(in1, write_back_mu, in1.shape.0, product))
}

fn apply<T: Copy, F: Fn(T) -> T>(
    in_data: &Tile<T>,
    f: F,
    flops: usize,
    flop_per_cycle: u64,
    write_back_mu: bool,
) -> (res: (u64, Tile<T>))
    requires
        countable(*in_data, flops as int, flop_per_cycle),
        mappable(*in_data, f),
    ensures
        res.0 == cell_cycles(*in_data, flops as int, flop_per_cycle),
        is_mapped(
            *in_data,
            in_data.bytes_per_elem,
            write_back_mu,
            in_data.offset,
            |x: T, y: T| call_ensures(f, (x,), y),
            res.1,
        ),
{
    proof {
        assert(in_data.shape.0 * in_data.shape.1 >= 0) by (nonlinear_arith)
            requires
                in_data.shape.0 >= 0,
                in_data.shape.1 >= 0,
        ;
    }
    let cycles: u64 = div_ceil((in_data.shape.0 * in_data.shape.1 * flops) as u64, flop_per_cycle);
    (cycles, map_tile(in_data, write_back_mu, in_data.offset, f))
}

/// SiLU, `x / (1 + e^-x)`, counted as eight operations per cell. The scalar
/// function is the caller's.
pub fn silu<T: Copy, F: Fn(T) -> T>(
    in_data: &Tile<T>,
    scalar_silu: F,
    flop_per_cycle: u64,
    write_back_mu: bool,
) -> (res: (u64, Tile<T>))
    requires
        countable(*in_data, 8, flop_per_cycle),
        mappable(*in_data, scalar_silu),
    ensures
        res.0 == cell_cycles(*in_data, 8, flop_per_cycle),
        is_mapped(
            *in_data,
            in_data.bytes_per_elem,
            write_back_mu,
            in_data.offset,
            |x: T, y: T| call_ensures(scalar_silu, (x,), y),
            res.1,
        ),
{
    apply(in_data, scalar_silu, 8, flop_per_cycle, write_back_mu)
}

/// `e^x`, counted as four operations per cell. The scalar function is the
/// caller's.
pub fn exp<T: Copy, F: Fn(T) -> T>(
    in_data: &Tile<T>,
    scalar_exp: F,
    flop_per_cycle: u64,
    write_back_mu: bool,
) -> (res: (u64, Tile<T>))
    requires
        countable(*in_data, 4, flop_per_cycle),
        mappable(*in_data, scalar_exp),
    ensures
        res.0 == cell_cycles(*in_data, 4, flop_per_cycle),
        is_mapped(
            *in_data,
            in_data.bytes_per_elem,
            write_back_mu,
            in_data.offset,
            |x: T, y: T| call_ensures(scalar_exp, (x,), y),
            res.1,
        ),
{
    apply(in_data, scalar_exp, 4, flop_per_cycle, write_back_mu)
}

/// `2^x`, counted as four operations per cell. The scalar function is the
/// caller's.
pub fn pow2<T: Copy, F: Fn(T) -> T>(
    in_data: &Tile<T>,
    scalar_pow2: F,
    flop_per_cycle: u64,
    write_back_mu: bool,
) -> (res: (u64, Tile<T>))
    requires
        countable(*in_data, 4, flop_per_cycle),
        mappable(*in_data, scalar_pow2),
    ensures
        res.0 == cell_cycles(*in_data, 4, flop_per_cycle),
        is_mapped(
            *in_data,
            in_data.bytes_per_elem,
            write_back_mu,
            in_data.offset,
            |x: T, y: T| call_ensures(scalar_pow2, (x,), y),
            res.1,
        ),
{
    apply(in_data, scalar_pow2, 4, flop_per_cycle, write_back_mu)
}

/// Hyperbolic tangent, counted as four operations per cell. The scalar
/// function is the caller's.
pub fn tanh<T: Copy, F: Fn(T) -> T>(
    in_data: &Tile<T>,
    scalar_tanh: F,
    flop_per_cycle: u64,
    write_back_mu: bool,
) -> (res: (u64, Tile<T>))
    requires
        countable(*in_data, 4, flop_per_cycle),
        mappable(*in_data, scalar_tanh),
    ensures
        res.0 == cell_cycles(*in_data, 4, flop_per_cycle),
        is_mapped(
            *in_data,
            in_data.bytes_per_elem,
            write_back_mu,
            in_data.offset,
            |x: T, y: T| call_ensures(scalar_tanh, (x,), y),
            res.1,
        ),
{
    apply(in_data, scalar_tanh, 4, flop_per_cycle, write_back_mu)
}

/// `x^c`, counted as four operations per cell. The scalar function, with its
/// exponent, is the caller's.
pub fn pow<T: Copy, F: Fn(T) -> T>(
    in_data: &Tile<T>,
    scalar_pow: F,
    flop_per_cycle: u64,
    write_back_mu: bool,
) -> (res: (u64, Tile<T>))
    requires
        countable(*in_data, 4, flop_per_cycle),
        mappable(*in_data, scalar_pow),
    ensures
        res.0 == cell_cycles(*in_data, 4, flop_per_cycle),
        is_mapped(
            *in_data,
            in_data.bytes_per_elem,
            write_back_mu,
            in_data.offset,
            |x: T, y: T| call_ensures(scalar_pow, (x,), y),
            res.1,
        ),
{
    apply(in_data, scalar_pow, 4, flop_per_cycle, write_back_mu)
}

/// `1 / sqrt(x)`, counted as four operations per cell. The scalar function is
/// the caller's.
pub fn rsqrt<T: Copy, F: Fn(T) -> T>(
    in_data: &Tile<T>,
    scalar_rsqrt: F,
    flop_per_cycle: u64,
    write_back_mu: bool,
) -> (res: (u64, Tile<T>))
    requires
        countable(*in_data, 4, flop_per_cycle),
        mappable(*in_data, scalar_rsqrt),
    ensures
        res.0 == cell_cycles(*in_data, 4, flop_per_cycle),
        is_mapped(
            *in_data,
            in_data.bytes_per_elem,
            write_back_mu,
            in_data.offset,
            |x: T, y: T| call_ensures(scalar_rsqrt, (x,), y),
            res.1,
        ),
{
    apply(in_data, scalar_rsqrt, 4, flop_per_cycle, write_back_mu)
}

/// A tile of one column, with the valid rows of the input.
pub open spec fn column_tile<T>(
    in_data: Tile<T>,
    column: Option<Array2<T>>,
    write_back_mu: bool,
) -> Tile<T> {
    match column {
        Some(array) => padded_tile(array, in_data.bytes_per_elem, write_back_mu, in_data.offset),
        None => blank_tile(
            (in_data.shape.0, 1),
            in_data.bytes_per_elem,
            write_back_mu,
            in_data.offset,
        ),
    }
}

/// Row sums of a tile whose data, where there is any, is summed by the caller.
pub fn row_wise_sum_with<T>(
    in_data: &Tile<T>,
    sums: Option<Vec<T>>,
    flop_per_cycle: u64,
    write_back_mu: bool,
) -> (res: (u64, Tile<T>))
    requires
        countable(*in_data, 1, flop_per_cycle),
        sums is Some <==> in_data.underlying is Some,
        sums matches Some(values) ==> values@.len() == in_data.shape.0,
    ensures
        res.0 == cell_cycles(*in_data, 1, flop_per_cycle),
        sums matches Some(values) ==> res.1 == column_tile(
            *in_data,
            Some(Array2 { rows: in_data.shape.0, cols: 1, data: values }),
            write_back_mu,
        ),
        sums is None ==> res.1 == column_tile(*in_data, None, write_back_mu),
        res.1.wf(),
{
    let cycles: u64 = div_ceil((in_data.shape.0 * in_data.shape.1) as u64, flop_per_cycle);
    let tile = match sums {
        Some(values) => Tile::new_padded(
            Array2 { rows: in_data.shape.0, cols: 1, data: values },
            in_data.bytes_per_elem,
            write_back_mu,
            in_data.offset,
        ),
        None => Tile::new_blank_padded(
            (in_data.shape.0, 1),
            in_data.bytes_per_elem,
            write_back_mu,
            in_data.offset,
        ),
    };
    (cycles, tile)
}

/// Row sums.
pub fn row_wise_sum(in_data: &Tile<u64>, flop_per_cycle: u64, write_back_mu: bool) -> (res: (
    u64,
    Tile<u64>,
))
    requires
        countable(*in_data, 1, flop_per_cycle),
        in_data.underlying matches Some(array) ==> {
            &&& representable(array.rows as int, array.cols as int)
            &&& forall|i: int|
                0 <= i < array.rows ==> #[trigger] row_sum(*array, i, array.cols as int)
                    <= u64::MAX
        },
    ensures
        res.0 == cell_cycles(*in_data, 1, flop_per_cycle),
        res.1.wf(),
        res.1.shape == (in_data.shape.0, 1usize),
        res.1.bytes_per_elem == in_data.bytes_per_elem,
        res.1.read_from_mu == write_back_mu,
        res.1.offset == in_data.offset,
        res.1.underlying is Some <==> in_data.underlying is Some,
        in_data.underlying is Some ==> forall|i: int|
            0 <= i < in_data.shape.0 ==> #[trigger] res.1.at(i, 0) == row_sum(
                *in_data.underlying->0,
                i,
                in_data.shape.1 as int,
            ),
{
    let sums = match &in_data.underlying {
        Some(array) => Some(sum_rows(array)),
        None => None,
    };
    row_wise_sum_with(in_data, sums, flop_per_cycle, write_back_mu)
}

/// `trace` lists what remains of the first cells of row `i`, one more each
/// time, when a cell takes the place of what remains where it is greater.
pub open spec fn is_max_trace<T: PartialOrd>(
    array: Array2<T>,
    i: int,
    n: int,
    trace: Seq<T>,
) -> bool {
    &&& trace.len() == n
    &&& trace[0] == array.at(i, 0)
    &&& forall|k: int|
        1 <= k < n ==> larger_of(array.at(i, k), trace[k - 1], #[trigger] trace[k])
}

/// `m` is what remains of the first `n` cells of row `i`.
pub open spec fn is_running_max<T: PartialOrd>(
    array: Array2<T>,
    i: int,
    n: int,
    m: T,
) -> bool {
    exists|trace: Seq<T>| #[trigger] is_max_trace(array, i, n, trace) && m == trace.last()
}

fn max_of_row<T: Copy + PartialOrd>(array: &Array2<T>, i: usize) -> (res: T)
    requires
        array.wf(),
        i < array.rows,
        array.cols > 0,
    ensures
        is_running_max(*array, i as int, array.cols as int, res),
{
    let mut row_max = *array.get(i, 0);
    let ghost mut trace: Seq<T> = seq![row_max];
    let mut j: usize = 1;
    while j < array.cols
        invariant
            array.wf(),
            i < array.rows,
            1 <= j <= array.cols,
            is_max_trace(*array, i as int, j as int, trace),
            row_max == trace.last(),
        decreases array.cols - j,
    {
        let v = *array.get(i, j);
        let ghost before = row_max;
        if v > row_max {
            row_max = v;
        }
        assert(larger_of(v, before, row_max));
        proof {
            trace = trace.push(row_max);
        }
        j = j + 1;
    }
    assert(is_max_trace(*array, i as int, array.cols as int, trace));
    row_max
}

/// Row maxima.
pub fn row_wise_max<T: Copy + PartialOrd>(
    in_data: &Tile<T>,
    flop_per_cycle: u64,
    write_back_mu: bool,
) -> (res: (u64, Tile<T>))
    requires
        countable(*in_data, 1, flop_per_cycle),
        in_data.underlying is Some ==> in_data.shape.0 > 0 && in_data.shape.1 > 0,
    ensures
        res.0 == cell_cycles(*in_data, 1, flop_per_cycle),
        res.1.wf(),
        res.1.shape == (in_data.shape.0, 1usize),
        res.1.bytes_per_elem == in_data.bytes_per_elem,
        res.1.read_from_mu == write_back_mu,
        res.1.offset == in_data.offset,
        res.1.underlying is Some <==> in_data.underlying is Some,
        in_data.underlying is Some ==> forall|i: int|
            0 <= i < in_data.shape.0 ==> is_running_max(
                *in_data.underlying->0,
                i,
                in_data.shape.1 as int,
                #[trigger] res.1.at(i, 0),
            ),
{
    let cycles: u64 = div_ceil((in_data.shape.0 * in_data.shape.1) as u64, flop_per_cycle);
    match &in_data.underlying {
        Some(array) => {
            let mut data: Vec<T> = Vec::new();
            let mut i: usize = 0;
            while i < array.rows
                invariant
                    array.wf(),
                    array.cols > 0,
                    i <= array.rows,
                    data@.len() == i,
                    forall|k: int|
                        0 <= k < i ==> is_running_max(
                            **array,
                            k,
                            array.cols as int,
                            #[trigger] data@[k],
                        ),
                decreases array.rows - i,
            {
                data.push(max_of_row(array, i));
                i = i + 1;
            }
            let column = Array2 { rows: array.rows, cols: 1, data };
            assert forall|k: int| 0 <= k < column.rows implies #[trigger] column.at(k, 0)
                == data@[k] by {}
            (
                cycles,
                Tile::new_padded(column, in_data.bytes_per_elem, write_back_mu, in_data.offset),
            )
        },
        None => (
            cycles,
            Tile::new_blank_padded(
                (in_data.shape.0, 1),
                in_data.bytes_per_elem,
                write_back_mu,
                in_data.offset,
            ),
        ),
    }
}

/// Subtracts a scalar carried in a `u64` tile from every cell. The count is
/// converted by the caller's function. All rows of the result count as valid.
pub fn sub_u64_scalar<T: Copy + Sub<Output = T>, F: Fn(u64) -> T>(
    in_data: &Tile<T>,
    scalar: &Tile<u64>,
    of_u64: F,
    write_back_mu: bool,
) -> (res: (u64, Tile<T>))
    requires
        in_data.wf(),
        in_data.shape.0 * in_data.shape.1 <= usize::MAX,
        carries_index(*scalar),
        call_requires(of_u64, (scalar.at(0, 0),)),
        in_data.underlying is Some ==> forall|k: T, i: int, j: int|
            #[trigger] call_ensures(of_u64, (scalar.at(0, 0),), k) && 0 <= i < in_data.shape.0 && 0
                <= j < in_data.shape.1 ==> (#[trigger] in_data.at(i, j)).sub_req(k),
    ensures
        res.0 == 1,
        exists|k: T|
            {
                &&& #[trigger] call_ensures(of_u64, (scalar.at(0, 0),), k)
                &&& is_mapped(
                    *in_data,
                    in_data.bytes_per_elem,
                    write_back_mu,
                    in_data.shape.0,
                    |x: T, y: T| difference_of(x, k, y),
                    res.1,
                )
            },
{
    let k = of_u64(index_of(scalar));
    let difference = |x: T| -> (y: T)
        requires
            x.sub_req(k),
        ensures
            difference_of(x, k, y),
        { x - k };
    let tile = map_tile(in_data, write_back_mu, in_data.shape.0, difference);
    assert(call_ensures(of_u64, (scalar.at(0, 0),), k));
    (1, tile)
}

/// Multiplies every cell by a scalar carried in a `u64` tile. The count is
/// converted by the caller's function. All rows of the result count as valid.
/// A blank tile stays blank.
pub fn mul_by_u64_scalar<T: Copy + Mul<Output = T>, F: Fn(u64) -> T>(
    in_data: &Tile<T>,
    scalar: &Tile<u64>,
    of_u64: F,
    write_back_mu: bool,
) -> (res: (u64, Tile<T>))
    requires
        in_data.wf(),
        in_data.shape.0 * in_data.shape.1 <= usize::MAX,
        carries_index(*scalar),
        call_requires(of_u64, (scalar.at(0, 0),)),
        in_data.underlying is Some ==> forall|k: T, i: int, j: int|
            #[trigger] call_ensures(of_u64, (scalar.at(0, 0),), k) && 0 <= i < in_data.shape.0 && 0
                <= j < in_data.shape.1 ==> (#[trigger] in_data.at(i, j)).mul_req(k),
    ensures
        res.0 == 1,
        exists|k: T|
            {
                &&& #[trigger] call_ensures(of_u64, (scalar.at(0, 0),), k)
                &&& is_mapped(
                    *in_data,
                    in_data.bytes_per_elem,
                    write_back_mu,
                    in_data.shape.0,
                    |x: T, y: T| product_of(x, k, y),
                    res.1,
                )
            },
{
    let k = of_u64(index_of(scalar));
    let product = |x: T| -> (y: T)
        requires
            x.mul_req(k),
        ensures
            product_of(x, k, y),
        { x * k };
    let tile = map_tile(in_data, write_back_mu, in_data.shape.0, product);
    assert(call_ensures(of_u64, (scalar.at(0, 0),), k));
    (1, tile)
}

/// Sets the number of valid rows to the one that a tile carries.
pub fn set_offset<T>(in_data: &Tile<T>, offset: &Tile<u64>, write_back_mu: bool) -> (res: (
    u64,
    Tile<T>,
))
    requires
        carries_index(*offset),
        offset.at(0, 0) <= usize::MAX,
    ensures
        res.0 == 1,
        res.1 == (Tile {
            read_from_mu: write_back_mu,
            offset: offset.at(0, 0) as usize,
            ..*in_data
        }),
{
    let rows: usize = index_of(offset) as usize;
    let copy = in_data.clone();
    (1, Tile { read_from_mu: write_back_mu, offset: rows, ..copy })
}

/// The bytes of a mask's element.
pub open spec fn mask_bytes<D>(mock_bf16: bool) -> nat {
    if mock_bf16 {
        2
    } else {
        vstd::layout::size_of::<D>()
    }
}

/// `out` is a mask: a `one` where `keeps` holds of the row and the column, and
/// a `zero` elsewhere; blank where the input is.
pub open spec fn is_mask_tile<T, D>(
    in_data: Tile<T>,
    row: usize,
    col: usize,
    mock_bf16: bool,
    write_back_mu: bool,
    zero: D,
    one: D,
    keeps: spec_fn(int, int) -> bool,
    out: Tile<D>,
) -> bool {
    &&& out.wf()
    &&& out.shape == (row, col)
    &&& out.bytes_per_elem == mask_bytes::<D>(mock_bf16)
    &&& out.read_from_mu == write_back_mu
    &&& out.offset == row
    &&& out.underlying is Some <==> in_data.underlying is Some
    &&& in_data.underlying is Some ==> forall|i: int, j: int|
        0 <= i < row && 0 <= j < col ==> #[trigger] out.at(i, j) == if keeps(i, j) {
            one
        } else {
            zero
        }
}

/// The index that a tile of one cell carries can be read.
pub open spec fn has_index<T: TryInto<usize>>(in_data: Tile<T>) -> bool {
    &&& in_data.wf()
    &&& in_data.shape == (1usize, 1usize)
    &&& in_data.underlying is Some ==> {
        &&& <T as TryIntoSpec<usize>>::obeys_try_into_spec()
        &&& TryIntoSpec::<usize>::try_into_spec(in_data.at(0, 0)) is Ok
    }
}

/// The index that a tile of one cell carries.
pub open spec fn index_value<T: TryInto<usize>>(in_data: Tile<T>) -> usize {
    TryIntoSpec::<usize>::try_into_spec(in_data.at(0, 0))->Ok_0
}

fn read_index<T: Copy + TryInto<usize>>(in_data: &Tile<T>) -> (res: Option<usize>)
    requires
        has_index(*in_data),
    ensures
        res is Some <==> in_data.underlying is Some,
        res matches Some(index) ==> index == index_value(*in_data),
{
    match &in_data.underlying {
        Some(array) => {
            let converted: Result<usize, _> = (*array.get(0, 0)).try_into();
            match converted {
                Ok(index) => Some(index),
                Err(_) => {
                    assert(false);
                    None
                },
            }
        },
        None => None,
    }
}

fn mask_elem_bytes<D>(mock_bf16: bool) -> (res: usize)
    ensures
        res == mask_bytes::<D>(mock_bf16),
{
    if mock_bf16 {
        2
    } else {
        core::mem::size_of::<D>()
    }
}

/// A mask of `row` by `col` cells that keeps the one row that a tile names, and
/// none if there is no such row.
pub fn mask_row<T: Copy + TryInto<usize>, D: Copy>(
    in_data: &Tile<T>,
    write_back_mu: bool,
    row: usize,
    col: usize,
    mock_bf16: bool,
    zero: D,
    one: D,
) -> (res: (u64, Tile<D>))
    requires
        has_index(*in_data),
        row * col <= usize::MAX,
    ensures
        res.0 == 1,
        is_mask_tile(
            *in_data,
            row,
            col,
            mock_bf16,
            write_back_mu,
            zero,
            one,
            |i: int, j: int| i == index_value(*in_data),
            res.1,
        ),
{
    let bytes: usize = mask_elem_bytes::<D>(mock_bf16);
    match read_index(in_data) {
        Some(index) => {
            let cell = |i: usize, j: usize| -> (x: D)
                ensures
                    x == (if i == index {
                        one
                    } else {
                        zero
                    }),
                {
                    if i == index {
                        one
                    } else {
                        zero
                    }
                };
            let array = Array2::from_shape_fn(row, col, cell);
            (1, Tile::new(array, bytes, write_back_mu))
        },
        None => (1, Tile::new_blank((row, col), bytes, write_back_mu)),
    }
}

/// How many columns a count keeps: no more than there are, and none where the
/// count is a negative number that has wrapped around.
pub open spec fn clamped_count(raw: usize, col: usize) -> int {
    if raw > i64::MAX {
        0
    } else if raw <= col {
        raw as int
    } else {
        col as int
    }
}

/// Column-oriented sibling of [`mask_row`] -- and NOT a transpose of it.
///
/// [`mask_row`] is a one-hot row selector. This is a prefix column mask: ones
/// in the first `n` columns and zeros from there on, for every row, with `n`
/// clamped to what there is.
///
/// The clamp is load-bearing: it lets one count cover a fully-valid tile
/// (`n >= col`), the ragged tail tile, and a whole pad tile (`n <= 0`).
///
/// A count that became negative in unsigned arithmetic has already wrapped by
/// the time it arrives. Left alone that reads as an enormous count, and a
/// whole pad tile would come out entirely unmasked. So the value is
/// reinterpreted as signed and floored at zero.
pub fn mask_col<T: Copy + TryInto<usize>, D: Copy>(
    in_data: &Tile<T>,
    write_back_mu: bool,
    row: usize,
    col: usize,
    mock_bf16: bool,
    zero: D,
    one: D,
) -> (res: (u64, Tile<D>))
    requires
        has_index(*in_data),
        row * col <= usize::MAX,
    ensures
        res.0 == 1,
        is_mask_tile(
            *in_data,
            row,
            col,
            mock_bf16,
            write_back_mu,
            zero,
            one,
            |i: int, j: int| j < clamped_count(index_value(*in_data), col),
            res.1,
        ),
{
    let bytes: usize = mask_elem_bytes::<D>(mock_bf16);
    match read_index(in_data) {
        Some(raw) => {
            let count: usize = if raw as u64 > i64::MAX as u64 {
                0
            } else if raw <= col {
                raw
            } else {
                col
            };
            let cell = |i: usize, j: usize| -> (x: D)
                ensures
                    x == (if j < count {
                        one
                    } else {
                        zero
                    }),
                {
                    if j < count {
                        one
                    } else {
                        zero
                    }
                };
            let array = Array2::from_shape_fn(row, col, cell);
            (1, Tile::new(array, bytes, write_back_mu))
        },
        None => (1, Tile::new_blank((row, col), bytes, write_back_mu)),
    }
}

/// The count `total_valid - n * col` masks, in all three cases, exactly the
/// columns of tile `n` that lie behind the valid ones: a whole tile keeps
/// everything, the ragged tail keeps its prefix, and a tile beyond the end,
/// whose count has wrapped around, keeps nothing.
pub proof fn law_mask_col_covers_ragged_tiles(total_valid: usize, n: usize, col: usize, j: int)
    requires
        0 <= j < col,
        total_valid <= i64::MAX,
        n * col <= i64::MAX,
        usize::MAX > 2 * i64::MAX,
    ensures
        ({
            let count = total_valid - n * col;
            let raw = if count >= 0 {
                count as usize
            } else {
                (usize::MAX + 1 + count) as usize
            };
            j < clamped_count(raw, col) <==> n * col + j < total_valid
        }),
{
}

/// Writes new rows behind the valid ones.
pub fn row_wise_append<T: Copy>(
    in_data: &Tile<T>,
    data_to_append: &Tile<T>,
    write_back_mu: bool,
) -> (res: (u64, Tile<T>))
    requires
        in_data.wf(),
        data_to_append.wf(),
        in_data.shape.1 == data_to_append.shape.1,
        in_data.offset + data_to_append.shape.0 <= in_data.shape.0,
    ensures
        res.0 == 1,
        res.1.wf(),
        res.1.shape == in_data.shape,
        res.1.bytes_per_elem == in_data.bytes_per_elem,
        res.1.read_from_mu == write_back_mu,
        res.1.offset == in_data.offset + data_to_append.shape.0,
        res.1.underlying is Some <==> both_data(*in_data, *data_to_append),
        both_data(*in_data, *data_to_append) ==> forall|i: int, j: int|
            0 <= i < res.1.shape.0 && 0 <= j < res.1.shape.1 ==> #[trigger] res.1.at(i, j)
                == if in_data.offset <= i < in_data.offset + data_to_append.shape.0 {
                data_to_append.at(i - in_data.offset, j)
            } else {
                in_data.at(i, j)
            },
{
    let start: usize = in_data.offset;
    let end: usize = in_data.offset + data_to_append.shape.0;
    match (&in_data.underlying, &data_to_append.underlying) {
        (Some(array), Some(new_rows)) => {
            let len: usize = array.data.len();
            let cell = |i: usize, j: usize| -> (x: T)
                requires
                    array.wf(),
                    new_rows.wf(),
                    i < array.rows,
                    j < array.cols,
                    new_rows.cols == array.cols,
                    end == start + new_rows.rows,
                ensures
                    x == (if start <= i < end {
                        new_rows.at(i - start, j as int)
                    } else {
                        array.at(i as int, j as int)
                    }),
                {
                    if start <= i && i < end {
                        *new_rows.get(i - start, j)
                    } else {
                        *array.get(i, j)
                    }
                };
            let result = Array2::from_shape_fn(array.rows, array.cols, cell);
            (1, Tile::new_padded(result, in_data.bytes_per_elem, write_back_mu, end))
        },
        _ => (
            1,
            Tile::new_blank_padded(in_data.shape, in_data.bytes_per_elem, write_back_mu, end),
        ),
    }
}

/// Writes new columns behind the first `offset` ones. They arrive as rows, one
/// for each new item, and are transposed.
pub fn col_wise_append<T: Copy>(
    in_data: &Tile<T>,
    data_to_append: &Tile<T>,
    write_back_mu: bool,
) -> (res: (u64, Tile<T>))
    requires
        in_data.wf(),
        data_to_append.wf(),
        in_data.shape.0 == data_to_append.shape.1,
        in_data.offset + data_to_append.shape.0 <= in_data.shape.1,
    ensures
        res.0 == 1,
        res.1.wf(),
        res.1.shape == in_data.shape,
        res.1.bytes_per_elem == in_data.bytes_per_elem,
        res.1.read_from_mu == write_back_mu,
        res.1.offset == in_data.offset + data_to_append.shape.0,
        res.1.underlying is Some <==> both_data(*in_data, *data_to_append),
        both_data(*in_data, *data_to_append) ==> forall|i: int, j: int|
            0 <= i < res.1.shape.0 && 0 <= j < res.1.shape.1 ==> #[trigger] res.1.at(i, j)
                == if in_data.offset <= j < in_data.offset + data_to_append.shape.0 {
                data_to_append.at(j - in_data.offset, i)
            } else {
                in_data.at(i, j)
            },
{
    let start: usize = in_data.offset;
    let end: usize = in_data.offset + data_to_append.shape.0;
    match (&in_data.underlying, &data_to_append.underlying) {
        (Some(array), Some(new_rows)) => {
            let len: usize = array.data.len();
            let cell = |i: usize, j: usize| -> (x: T)
                requires
                    array.wf(),
                    new_rows.wf(),
                    i < array.rows,
                    j < array.cols,
                    new_rows.cols == array.rows,
                    end == start + new_rows.rows,
                ensures
                    x == (if start <= j < end {
                        new_rows.at(j - start, i as int)
                    } else {
                        array.at(i as int, j as int)
                    }),
                {
                    if start <= j && j < end {
                        *new_rows.get(j - start, i)
                    } else {
                        *array.get(i, j)
                    }
                };
            let result = Array2::from_shape_fn(array.rows, array.cols, cell);
            (1, Tile::new_padded(result, in_data.bytes_per_elem, write_back_mu, end))
        },
        _ => (
            1,
            Tile::new_blank_padded(in_data.shape, in_data.bytes_per_elem, write_back_mu, end),
        ),
    }
}

/// The address behind the first `len` entries of cache line `idx`.
pub fn cache_write_addr_gen(
    idx: &Tile<u64>,
    len: &Tile<u64>,
    offset_per_idx: u64,
    comp_bw: u64,
    write_back_mu: bool,
) -> (res: (u64, Tile<u64>))
    requires
        carries_index(*idx),
        carries_index(*len),
        idx.at(0, 0) * offset_per_idx + len.at(0, 0) <= u64::MAX,
    ensures
        res.0 == 1,
        is_scalar_tile(
            res.1,
            (idx.at(0, 0) * offset_per_idx + len.at(0, 0)) as u64,
            8,
            write_back_mu,
        ),
{
    let line: u64 = index_of(idx);
    let entries: u64 = index_of(len);
    assert(line * offset_per_idx >= 0) by (nonlinear_arith)
        requires
            line >= 0,
            offset_per_idx >= 0,
    ;
    (1, scalar_tile(line * offset_per_idx + entries, 8, write_back_mu))
}

/// Selects the first alternative where two tiles carry equal values, and the
/// second one otherwise.
pub fn is_equal_scalar<T: Copy + PartialEq>(in1: &Tile<T>, in2: &Tile<T>, write_back_mu: bool)
    -> (res: (u64, MultiHotN))
    requires
        in1.wf(),
        in2.wf(),
        in1.shape == (1usize, 1usize),
        in2.shape == (1usize, 1usize),
        both_data(*in1, *in2),
    ensures
        res.0 == 1,
        exists|equal: bool|
            {
                &&& #[trigger] call_ensures(
                    <T as PartialEq>::eq,
                    (&in1.at(0, 0), &in2.at(0, 0)),
                    equal,
                )
                &&& res.1.underlying@ == seq![equal, !equal]
            },
        res.1.read_from_mu == write_back_mu,
{
    let mut flags: Vec<bool> = Vec::new();
    if let (Some(a), Some(b)) = (&in1.underlying, &in2.underlying) {
        let equal = *a.get(0, 0) == *b.get(0, 0);
        assert(call_ensures(<T as PartialEq>::eq, (&in1.at(0, 0), &in2.at(0, 0)), equal));
        flags.push(equal);
        flags.push(!equal);
        assert(flags@ =~= seq![equal, !equal]);
    }
    (1, MultiHotN::new(flags, write_back_mu))
}

/// Repeats the one row of a tile `row_size` times. All rows of the result
/// count as valid.
pub fn broadcast_rows<T: Copy>(
    in_data: &Tile<T>,
    row_size: usize,
    flop_per_cycle: u64,
    write_back_mu: bool,
) -> (res: (u64, Tile<T>))
    requires
        in_data.wf(),
        in_data.shape.0 == 1,
        row_size * in_data.shape.1 <= usize::MAX,
    ensures
        res.0 == 1,
        res.1.wf(),
        res.1.shape == (row_size, in_data.shape.1),
        res.1.bytes_per_elem == in_data.bytes_per_elem,
        res.1.read_from_mu == write_back_mu,
        res.1.offset == row_size,
        res.1.underlying is Some <==> in_data.underlying is Some,
        in_data.underlying is Some ==> forall|i: int, j: int|
            0 <= i < row_size && 0 <= j < in_data.shape.1 ==> #[trigger] res.1.at(i, j)
                == in_data.at(0, j),
{
    match &in_data.underlying {
        Some(array) => {
            let cell = |i: usize, j: usize| -> (x: T)
                requires
                    array.wf(),
                    array.rows == 1,
                    j < array.cols,
                ensures
                    x == array.at(0, j as int),
                {
                    *array.get(0, j)
                };
            let result = Array2::from_shape_fn(row_size, array.cols, cell);
            (1, Tile::new(result, in_data.bytes_per_elem, write_back_mu))
        },
        None => (
            1,
            Tile::new_blank((row_size, in_data.shape.1), in_data.bytes_per_elem, write_back_mu),
        ),
    }
}

/// The first selected position; zero where nothing is selected.
pub fn select_to_scalar<S: SelectAdapter>(in_data: &S, comp_bw: u64, write_back_mu: bool) -> (res: (
    u64,
    Tile<u64>,
))
    ensures
        res.0 == 1,
        is_scalar_tile(
            res.1,
            (if sel_vec(in_data.flags()).len() > 0 {
                sel_vec(in_data.flags())[0]
            } else {
                0
            }) as u64,
            8,
            write_back_mu,
        ),
{
    let positions = in_data.to_sel_vec();
    assert(as_ints(positions@).len() == positions@.len());
    let value: u64 = if positions.len() == 0 {
        0
    } else {
        assert(as_ints(positions@)[0] == positions@[0]);
        positions[0] as u64
    };
    (1, scalar_tile(value, 8, write_back_mu))
}

/// The positions that a selection selects, as a tile of one row; a zero where
/// it selects nothing.
pub open spec fn selected_values(flags: Seq<bool>) -> Seq<int> {
    if sel_vec(flags).len() == 0 {
        seq![0]
    } else {
        sel_vec(flags)
    }
}

/// The values of a row of `u64` as mathematical integers.
pub open spec fn row_values(data: Seq<u64>) -> Seq<int> {
    data.map_values(|x: u64| x as int)
}

/// `tile` is a tile of one row with the given values, all of it valid.
pub open spec fn is_row_of(tile: Tile<u64>, values: Seq<int>, write_back_mu: bool) -> bool {
    &&& tile.wf()
    &&& tile.underlying is Some
    &&& tile.shape == (1usize, values.len() as usize)
    &&& row_values(tile.underlying->0.data@) == values
    &&& tile.bytes_per_elem == 8
    &&& tile.read_from_mu == write_back_mu
    &&& tile.offset == 1
}

/// The positions that a selection selects, as a tile of one row; a zero where
/// it selects nothing.
pub fn multihot_to_u64(in_data: &MultiHotN, comp_bw: u64, write_back_mu: bool) -> (res: (
    u64,
    Tile<u64>,
))
    ensures
        res.0 == 1,
        is_row_of(res.1, selected_values(in_data.underlying@), write_back_mu),
{
    let positions = in_data.to_sel_vec();
    let ghost flags = in_data.underlying@;
    assert(as_ints(positions@).len() == positions@.len());
    let n: usize = positions.len();
    if n == 0 {
        let tile = scalar_tile(0u64, 8, write_back_mu);
        assert(row_values(tile.underlying->0.data@) =~= seq![0int]);
        return (1, tile);
    }
    let mut data: Vec<u64> = Vec::new();
    let mut k: usize = 0;
    while k < n
        invariant
            k <= n,
            n == positions@.len(),
            data@.len() == k,
            forall|j: int| 0 <= j < k ==> #[trigger] data@[j] == positions@[j],
        decreases n - k,
    {
        data.push(positions[k] as u64);
        k = k + 1;
    }
    assert(row_values(data@) =~= as_ints(positions@));
    assert(1 * n == n);
    (1, Tile::new(Array2 { rows: 1, cols: n, data }, 8, write_back_mu))
}

/// Selects, among `width` alternatives, the positions that a tile lists.
/// Positions beyond the width are passed over, and a blank tile selects
/// nothing.
pub fn u64_to_multihot(in_data: &Tile<u64>, width: usize, comp_bw: u64, write_back_mu: bool)
    -> (res: (u64, MultiHotN))
    ensures
        res.0 == 1,
        res.1.read_from_mu == write_back_mu,
        res.1.underlying@ == (match in_data.underlying {
            Some(array) => flags_of(row_values(array.data@), width as nat),
            None => Seq::new(width as nat, |i: int| false),
        }),
{
    let mut hot: Vec<bool> = vec![false; width];
    if let Some(array) = &in_data.underlying {
        let ghost values = row_values(array.data@);
        assert(hot@ =~= flags_of(values.take(0), width as nat));
        let mut k: usize = 0;
        while k < array.data.len()
            invariant
                k <= array.data@.len(),
                values == row_values(array.data@),
                hot@.len() == width,
                hot@ == flags_of(values.take(k as int), width as nat),
            decreases array.data@.len() - k,
        {
            let value: u64 = array.data[k];
            let ghost before = values.take(k as int);
            let ghost after = values.take(k + 1);
            let ghost old_hot = hot@;
            if value < width as u64 {
                hot[value as usize] = true;
            }
            proof {
                assert(after =~= before.push(value as int));
                assert forall|i: int| 0 <= i < width implies hot@[i] == after.contains(i) by {
                    assert(old_hot[i] == before.contains(i));
                    if before.contains(i) {
                        let m = choose|m: int| 0 <= m < before.len() && before[m] == i;
                        assert(after[m] == i);
                    }
                    if after.contains(i) {
                        let m = choose|m: int| 0 <= m < after.len() && after[m] == i;
                        if m < before.len() {
                            assert(before[m] == i);
                        }
                    }
                    assert(after[before.len() as int] == value);
                }
                assert(hot@ =~= flags_of(after, width as nat));
            }
            k = k + 1;
        }
        assert(values.take(k as int) =~= values);
    } else {
        assert(hot@ =~= Seq::new(width as nat, |i: int| false));
    }
    (1, MultiHotN::new(hot, write_back_mu))
}

/// Listing the positions of a selection and selecting them again gives back
/// the selection, if it selects anything.
pub proof fn law_multihot_round_trip(flags: Seq<bool>, tile: Tile<u64>, write_back_mu: bool)
    requires
        sel_vec(flags).len() > 0,
        is_row_of(tile, selected_values(flags), write_back_mu),
    ensures
        flags_of(row_values(tile.underlying->0.data@), flags.len()) == flags,
{
    lemma_flags_of_sel_vec(flags);
}

/// A constant, whatever the input is.
pub fn to_const_int<T>(in_data: &T, constant: u64, write_back_mu: bool) -> (res: (u64, Tile<u64>))
    ensures
        res.0 == 1,
        is_scalar_tile(res.1, constant, 8, write_back_mu),
{
    (1, scalar_tile(constant, 8, write_back_mu))
}

/// The sum of two tiles, cell by cell: a dimension of size one is repeated. One
/// operation is counted for each cell, and the valid rows are those of the
/// tile that is not repeated, or the more of the two.
pub proof fn law_sum_of_tiles<T: Copy + Add<Output = T>>(
    in1: Tile<T>,
    in2: Tile<T>,
    flop_per_cycle: u64,
    write_back_mu: bool,
    res: (u64, Tile<T>),
    i: int,
    j: int,
)
    requires
        combinable(in1, in2, flop_per_cycle),
        call_ensures(self::add::<T>, (&in1, &in2, flop_per_cycle, write_back_mu), res),
        0 <= i < res.1.shape.0,
        0 <= j < res.1.shape.1,
    ensures
        res.0 * flop_per_cycle >= res.1.shape.0 * res.1.shape.1 > (res.0 - 1) * flop_per_cycle,
        res.1.shape.0 == vstd::math::max(in1.shape.0 as int, in2.shape.0 as int),
        res.1.shape.1 == vstd::math::max(in1.shape.1 as int, in2.shape.1 as int),
        res.1.bytes_per_elem == in1.bytes_per_elem,
        res.1.read_from_mu == write_back_mu,
        res.1.offset == (if in1.shape.0 == in2.shape.0 {
            vstd::math::max(in1.offset as int, in2.offset as int)
        } else if in1.shape.0 == 1 {
            in2.offset as int
        } else {
            in1.offset as int
        }),
        res.1.underlying is Some <==> in1.underlying is Some && in2.underlying is Some,
        in1.underlying is Some && in2.underlying is Some ==> {
            let i1 = if in1.shape.0 == 1 { 0 } else { i };
            let j1 = if in1.shape.1 == 1 { 0 } else { j };
            let i2 = if in2.shape.0 == 1 { 0 } else { i };
            let j2 = if in2.shape.1 == 1 { 0 } else { j };
            call_ensures(
                <T as Add>::add,
                (in1.at(i1, j1), in2.at(i2, j2)),
                res.1.at(i, j),
            )
        },
{
    let cells = res.1.shape.0 * res.1.shape.1;
    assert(cells >= 0) by (nonlinear_arith)
        requires
            cells == res.1.shape.0 * res.1.shape.1,
            res.1.shape.0 >= 0,
            res.1.shape.1 >= 0,
    ;
    lemma_ceil_div(cells, flop_per_cycle as int);
    assert((res.0 - 1) * flop_per_cycle == res.0 * flop_per_cycle - flop_per_cycle)
        by (nonlinear_arith);
    if in1.underlying is Some && in2.underlying is Some {
        let out = res.1.at(i, j);
        assert(repeated_cell(in1, i, j) == in1.at(
            if in1.shape.0 == 1 { 0 } else { i },
            if in1.shape.1 == 1 { 0 } else { j },
        ));
        assert(repeated_cell(in2, i, j) == in2.at(
            if in2.shape.0 == 1 { 0 } else { i },
            if in2.shape.1 == 1 { 0 } else { j },
        ));
    }
}

/// The difference of two tiles, cell by cell: a dimension of size one is repeated. One
/// operation is counted for each cell, and the valid rows are those of the
/// tile that is not repeated, or the more of the two.
pub proof fn law_difference_of_tiles<T: Copy + Sub<Output = T>>(
    in1: Tile<T>,
    in2: Tile<T>,
    flop_per_cycle: u64,
    write_back_mu: bool,
    res: (u64, Tile<T>),
    i: int,
    j: int,
)
    requires
        combinable(in1, in2, flop_per_cycle),
        call_ensures(self::sub::<T>, (&in1, &in2, flop_per_cycle, write_back_mu), res),
        0 <= i < res.1.shape.0,
        0 <= j < res.1.shape.1,
    ensures
        res.0 * flop_per_cycle >= res.1.shape.0 * res.1.shape.1 > (res.0 - 1) * flop_per_cycle,
        res.1.shape.0 == vstd::math::max(in1.shape.0 as int, in2.shape.0 as int),
        res.1.shape.1 == vstd::math::max(in1.shape.1 as int, in2.shape.1 as int),
        res.1.bytes_per_elem == in1.bytes_per_elem,
        res.1.read_from_mu == write_back_mu,
        res.1.offset == (if in1.shape.0 == in2.shape.0 {
            vstd::math::max(in1.offset as int, in2.offset as int)
        } else if in1.shape.0 == 1 {
            in2.offset as int
        } else {
            in1.offset as int
        }),
        res.1.underlying is Some <==> in1.underlying is Some && in2.underlying is Some,
        in1.underlying is Some && in2.underlying is Some ==> {
            let i1 = if in1.shape.0 == 1 { 0 } else { i };
            let j1 = if in1.shape.1 == 1 { 0 } else { j };
            let i2 = if in2.shape.0 == 1 { 0 } else { i };
            let j2 = if in2.shape.1 == 1 { 0 } else { j };
            call_ensures(
                <T as Sub>::sub,
                (in1.at(i1, j1), in2.at(i2, j2)),
                res.1.at(i, j),
            )
        },
{
    let cells = res.1.shape.0 * res.1.shape.1;
    assert(cells >= 0) by (nonlinear_arith)
        requires
            cells == res.1.shape.0 * res.1.shape.1,
            res.1.shape.0 >= 0,
            res.1.shape.1 >= 0,
    ;
    lemma_ceil_div(cells, flop_per_cycle as int);
    assert((res.0 - 1) * flop_per_cycle == res.0 * flop_per_cycle - flop_per_cycle)
        by (nonlinear_arith);
    if in1.underlying is Some && in2.underlying is Some {
        let out = res.1.at(i, j);
        assert(repeated_cell(in1, i, j) == in1.at(
            if in1.shape.0 == 1 { 0 } else { i },
            if in1.shape.1 == 1 { 0 } else { j },
        ));
        assert(repeated_cell(in2, i, j) == in2.at(
            if in2.shape.0 == 1 { 0 } else { i },
            if in2.shape.1 == 1 { 0 } else { j },
        ));
    }
}

/// The product of two tiles, cell by cell: a dimension of size one is repeated. One
/// operation is counted for each cell, and the valid rows are those of the
/// tile that is not repeated, or the more of the two.
pub proof fn law_product_of_tiles<T: Copy + Mul<Output = T>>(
    in1: Tile<T>,
    in2: Tile<T>,
    flop_per_cycle: u64,
    write_back_mu: bool,
    res: (u64, Tile<T>),
    i: int,
    j: int,
)
    requires
        combinable(in1, in2, flop_per_cycle),
        call_ensures(self::mul::<T>, (&in1, &in2, flop_per_cycle, write_back_mu), res),
        0 <= i < res.1.shape.0,
        0 <= j < res.1.shape.1,
    ensures
        res.0 * flop_per_cycle >= res.1.shape.0 * res.1.shape.1 > (res.0 - 1) * flop_per_cycle,
        res.1.shape.0 == vstd::math::max(in1.shape.0 as int, in2.shape.0 as int),
        res.1.shape.1 == vstd::math::max(in1.shape.1 as int, in2.shape.1 as int),
        res.1.bytes_per_elem == in1.bytes_per_elem,
        res.1.read_from_mu == write_back_mu,
        res.1.offset == (if in1.shape.0 == in2.shape.0 {
            vstd::math::max(in1.offset as int, in2.offset as int)
        } else if in1.shape.0 == 1 {
            in2.offset as int
        } else {
            in1.offset as int
        }),
        res.1.underlying is Some <==> in1.underlying is Some && in2.underlying is Some,
        in1.underlying is Some && in2.underlying is Some ==> {
            let i1 = if in1.shape.0 == 1 { 0 } else { i };
            let j1 = if in1.shape.1 == 1 { 0 } else { j };
            let i2 = if in2.shape.0 == 1 { 0 } else { i };
            let j2 = if in2.shape.1 == 1 { 0 } else { j };
            call_ensures(
                <T as Mul>::mul,
                (in1.at(i1, j1), in2.at(i2, j2)),
                res.1.at(i, j),
            )
        },
{
    let cells = res.1.shape.0 * res.1.shape.1;
    assert(cells >= 0) by (nonlinear_arith)
        requires
            cells == res.1.shape.0 * res.1.shape.1,
            res.1.shape.0 >= 0,
            res.1.shape.1 >= 0,
    ;
    lemma_ceil_div(cells, flop_per_cycle as int);
    assert((res.0 - 1) * flop_per_cycle == res.0 * flop_per_cycle - flop_per_cycle)
        by (nonlinear_arith);
    if in1.underlying is Some && in2.underlying is Some {
        let out = res.1.at(i, j);
        assert(repeated_cell(in1, i, j) == in1.at(
            if in1.shape.0 == 1 { 0 } else { i },
            if in1.shape.1 == 1 { 0 } else { j },
        ));
        assert(repeated_cell(in2, i, j) == in2.at(
            if in2.shape.0 == 1 { 0 } else { i },
            if in2.shape.1 == 1 { 0 } else { j },
        ));
    }
}

/// The quotient of two tiles, cell by cell: a dimension of size one is repeated. One
/// operation is counted for each cell, and the valid rows are those of the
/// tile that is not repeated, or the more of the two.
pub proof fn law_quotient_of_tiles<T: Copy + Div<Output = T>>(
    in1: Tile<T>,
    in2: Tile<T>,
    flop_per_cycle: u64,
    write_back_mu: bool,
    res: (u64, Tile<T>),
    i: int,
    j: int,
)
    requires
        combinable(in1, in2, flop_per_cycle),
        call_ensures(self::div::<T>, (&in1, &in2, flop_per_cycle, write_back_mu), res),
        0 <= i < res.1.shape.0,
        0 <= j < res.1.shape.1,
    ensures
        res.0 * flop_per_cycle >= res.1.shape.0 * res.1.shape.1 > (res.0 - 1) * flop_per_cycle,
        res.1.shape.0 == vstd::math::max(in1.shape.0 as int, in2.shape.0 as int),
        res.1.shape.1 == vstd::math::max(in1.shape.1 as int, in2.shape.1 as int),
        res.1.bytes_per_elem == in1.bytes_per_elem,
        res.1.read_from_mu == write_back_mu,
        res.1.offset == (if in1.shape.0 == in2.shape.0 {
            vstd::math::max(in1.offset as int, in2.offset as int)
        } else if in1.shape.0 == 1 {
            in2.offset as int
        } else {
            in1.offset as int
        }),
        res.1.underlying is Some <==> in1.underlying is Some && in2.underlying is Some,
        in1.underlying is Some && in2.underlying is Some ==> {
            let i1 = if in1.shape.0 == 1 { 0 } else { i };
            let j1 = if in1.shape.1 == 1 { 0 } else { j };
            let i2 = if in2.shape.0 == 1 { 0 } else { i };
            let j2 = if in2.shape.1 == 1 { 0 } else { j };
            call_ensures(
                <T as Div>::div,
                (in1.at(i1, j1), in2.at(i2, j2)),
                res.1.at(i, j),
            )
        },
{
    let cells = res.1.shape.0 * res.1.shape.1;
    assert(cells >= 0) by (nonlinear_arith)
        requires
            cells == res.1.shape.0 * res.1.shape.1,
            res.1.shape.0 >= 0,
            res.1.shape.1 >= 0,
    ;
    lemma_ceil_div(cells, flop_per_cycle as int);
    assert((res.0 - 1) * flop_per_cycle == res.0 * flop_per_cycle - flop_per_cycle)
        by (nonlinear_arith);
    if in1.underlying is Some && in2.underlying is Some {
        let out = res.1.at(i, j);
        assert(repeated_cell(in1, i, j) == in1.at(
            if in1.shape.0 == 1 { 0 } else { i },
            if in1.shape.1 == 1 { 0 } else { j },
        ));
        assert(repeated_cell(in2, i, j) == in2.at(
            if in2.shape.0 == 1 { 0 } else { i },
            if in2.shape.1 == 1 { 0 } else { j },
        ));
    }
}

/// The greater of the cells of two tiles: a dimension of size one is repeated,
/// and the cell of the second tile stays unless that of the first is greater.
pub proof fn law_maximum_of_tiles<T: Copy + PartialOrd>(
    in1: Tile<T>,
    in2: Tile<T>,
    flop_per_cycle: u64,
    write_back_mu: bool,
    res: (u64, Tile<T>),
    i: int,
    j: int,
)
    requires
        combinable(in1, in2, flop_per_cycle),
        call_ensures(self::max::<T>, (&in1, &in2, flop_per_cycle, write_back_mu), res),
        0 <= i < res.1.shape.0,
        0 <= j < res.1.shape.1,
    ensures
        res.0 * flop_per_cycle >= res.1.shape.0 * res.1.shape.1 > (res.0 - 1) * flop_per_cycle,
        res.1.shape.0 == vstd::math::max(in1.shape.0 as int, in2.shape.0 as int),
        res.1.shape.1 == vstd::math::max(in1.shape.1 as int, in2.shape.1 as int),
        res.1.bytes_per_elem == in1.bytes_per_elem,
        res.1.read_from_mu == write_back_mu,
        res.1.offset == (if in1.shape.0 == in2.shape.0 {
            vstd::math::max(in1.offset as int, in2.offset as int)
        } else if in1.shape.0 == 1 {
            in2.offset as int
        } else {
            in1.offset as int
        }),
        res.1.underlying is Some <==> in1.underlying is Some && in2.underlying is Some,
        in1.underlying is Some && in2.underlying is Some ==> {
            let i1 = if in1.shape.0 == 1 { 0 } else { i };
            let j1 = if in1.shape.1 == 1 { 0 } else { j };
            let i2 = if in2.shape.0 == 1 { 0 } else { i };
            let j2 = if in2.shape.1 == 1 { 0 } else { j };
            {
                ||| call_ensures(
                    <T as PartialOrd>::gt,
                    (&in1.at(i1, j1), &in2.at(i2, j2)),
                    true,
                ) && res.1.at(i, j) == in1.at(i1, j1)
                ||| call_ensures(
                    <T as PartialOrd>::gt,
                    (&in1.at(i1, j1), &in2.at(i2, j2)),
                    false,
                ) && res.1.at(i, j) == in2.at(i2, j2)
            }
        },
{
    let cells = res.1.shape.0 * res.1.shape.1;
    assert(cells >= 0) by (nonlinear_arith)
        requires
            cells == res.1.shape.0 * res.1.shape.1,
            res.1.shape.0 >= 0,
            res.1.shape.1 >= 0,
    ;
    lemma_ceil_div(cells, flop_per_cycle as int);
    assert((res.0 - 1) * flop_per_cycle == res.0 * flop_per_cycle - flop_per_cycle)
        by (nonlinear_arith);
    if in1.underlying is Some && in2.underlying is Some {
        let out = res.1.at(i, j);
        assert(repeated_cell(in1, i, j) == in1.at(
            if in1.shape.0 == 1 { 0 } else { i },
            if in1.shape.1 == 1 { 0 } else { j },
        ));
        assert(repeated_cell(in2, i, j) == in2.at(
            if in2.shape.0 == 1 { 0 } else { i },
            if in2.shape.1 == 1 { 0 } else { j },
        ));
    }
}

/// The sum of a tile and a constant, cell by cell. One operation is counted for
/// each cell, and all rows become valid.
pub proof fn law_add_constant<T: Copy + Add<Output = T>>(
    in1: Tile<T>,
    constant: T,
    flop_per_cycle: u64,
    write_back_mu: bool,
    res: (u64, Tile<T>),
    i: int,
    j: int,
)
    requires
        flop_per_cycle > 0,
        call_ensures(add_constant::<T>, (&in1, constant, flop_per_cycle, write_back_mu), res),
        0 <= i < in1.shape.0,
        0 <= j < in1.shape.1,
    ensures
        res.0 * flop_per_cycle >= in1.shape.0 * in1.shape.1 > (res.0 - 1) * flop_per_cycle,
        res.1.shape == in1.shape,
        res.1.bytes_per_elem == in1.bytes_per_elem,
        res.1.read_from_mu == write_back_mu,
        res.1.offset == in1.shape.0,
        in1.underlying is Some ==> call_ensures(
            <T as Add>::add,
            (in1.at(i, j), constant),
            res.1.at(i, j),
        ),
{
    lemma_cell_cycles(in1, 1, flop_per_cycle, res.0 as int);
    if in1.underlying is Some {
        let out = res.1.at(i, j);
    }
}

/// The difference of a tile and a constant, cell by cell. One operation is counted for
/// each cell, and all rows become valid.
pub proof fn law_sub_constant<T: Copy + Sub<Output = T>>(
    in1: Tile<T>,
    constant: T,
    flop_per_cycle: u64,
    write_back_mu: bool,
    res: (u64, Tile<T>),
    i: int,
    j: int,
)
    requires
        flop_per_cycle > 0,
        call_ensures(sub_constant::<T>, (&in1, constant, flop_per_cycle, write_back_mu), res),
        0 <= i < in1.shape.0,
        0 <= j < in1.shape.1,
    ensures
        res.0 * flop_per_cycle >= in1.shape.0 * in1.shape.1 > (res.0 - 1) * flop_per_cycle,
        res.1.shape == in1.shape,
        res.1.bytes_per_elem == in1.bytes_per_elem,
        res.1.read_from_mu == write_back_mu,
        res.1.offset == in1.shape.0,
        in1.underlying is Some ==> call_ensures(
            <T as Sub>::sub,
            (in1.at(i, j), constant),
            res.1.at(i, j),
        ),
{
    lemma_cell_cycles(in1, 1, flop_per_cycle, res.0 as int);
    if in1.underlying is Some {
        let out = res.1.at(i, j);
    }
}

/// The product of a tile and a constant, cell by cell. One operation is counted for
/// each cell, and all rows become valid.
pub proof fn law_mul_constant<T: Copy + Mul<Output = T>>(
    in1: Tile<T>,
    constant: T,
    flop_per_cycle: u64,
    write_back_mu: bool,
    res: (u64, Tile<T>),
    i: int,
    j: int,
)
    requires
        flop_per_cycle > 0,
        call_ensures(mul_constant::<T>, (&in1, constant, flop_per_cycle, write_back_mu), res),
        0 <= i < in1.shape.0,
        0 <= j < in1.shape.1,
    ensures
        res.0 * flop_per_cycle >= in1.shape.0 * in1.shape.1 > (res.0 - 1) * flop_per_cycle,
        res.1.shape == in1.shape,
        res.1.bytes_per_elem == in1.bytes_per_elem,
        res.1.read_from_mu == write_back_mu,
        res.1.offset == in1.shape.0,
        in1.underlying is Some ==> call_ensures(
            <T as Mul>::mul,
            (in1.at(i, j), constant),
            res.1.at(i, j),
        ),
{
    lemma_cell_cycles(in1, 1, flop_per_cycle, res.0 as int);
    if in1.underlying is Some {
        let out = res.1.at(i, j);
    }
}

/// Enough cycles for so many operations on each cell, and no more.
proof fn lemma_cell_cycles<T>(in_data: Tile<T>, flops: int, flop_per_cycle: u64, cycles: int)
    requires
        flop_per_cycle > 0,
        flops >= 0,
        cycles == cell_cycles(in_data, flops, flop_per_cycle),
    ensures
        cycles * flop_per_cycle >= in_data.shape.0 * in_data.shape.1 * flops > (cycles - 1)
            * flop_per_cycle,
{
    let count = in_data.shape.0 * in_data.shape.1 * flops;
    assert(count >= 0) by (nonlinear_arith)
        requires
            count == in_data.shape.0 * in_data.shape.1 * flops,
            in_data.shape.0 >= 0,
            in_data.shape.1 >= 0,
            flops >= 0,
    ;
    lemma_ceil_div(count, flop_per_cycle as int);
    assert((cycles - 1) * flop_per_cycle == cycles * flop_per_cycle - flop_per_cycle)
        by (nonlinear_arith);
}

/// The scalar function is applied to every cell, and the padding stays. Eight
/// operations are counted for each cell.
pub proof fn law_silu_of_cells<T: Copy, F: Fn(T) -> T>(
    in_data: Tile<T>,
    f: F,
    flop_per_cycle: u64,
    write_back_mu: bool,
    res: (u64, Tile<T>),
    i: int,
    j: int,
)
    requires
        flop_per_cycle > 0,
        call_ensures(silu::<T, F>, (&in_data, f, flop_per_cycle, write_back_mu), res),
        0 <= i < in_data.shape.0,
        0 <= j < in_data.shape.1,
    ensures
        res.0 * flop_per_cycle >= in_data.shape.0 * in_data.shape.1 * 8 > (res.0 - 1)
            * flop_per_cycle,
        res.1.shape == in_data.shape,
        res.1.bytes_per_elem == in_data.bytes_per_elem,
        res.1.read_from_mu == write_back_mu,
        res.1.offset == in_data.offset,
        in_data.underlying is Some ==> call_ensures(f, (in_data.at(i, j),), res.1.at(i, j)),
{
    lemma_cell_cycles(in_data, 8, flop_per_cycle, res.0 as int);
    if in_data.underlying is Some {
        let out = res.1.at(i, j);
    }
}

/// The scalar function is applied to every cell, and the padding stays. Four
/// operations are counted for each cell.
pub proof fn law_exp_of_cells<T: Copy, F: Fn(T) -> T>(
    in_data: Tile<T>,
    f: F,
    flop_per_cycle: u64,
    write_back_mu: bool,
    res: (u64, Tile<T>),
    i: int,
    j: int,
)
    requires
        flop_per_cycle > 0,
        call_ensures(exp::<T, F>, (&in_data, f, flop_per_cycle, write_back_mu), res),
        0 <= i < in_data.shape.0,
        0 <= j < in_data.shape.1,
    ensures
        res.0 * flop_per_cycle >= in_data.shape.0 * in_data.shape.1 * 4 > (res.0 - 1)
            * flop_per_cycle,
        res.1.shape == in_data.shape,
        res.1.bytes_per_elem == in_data.bytes_per_elem,
        res.1.read_from_mu == write_back_mu,
        res.1.offset == in_data.offset,
        in_data.underlying is Some ==> call_ensures(f, (in_data.at(i, j),), res.1.at(i, j)),
{
    lemma_cell_cycles(in_data, 4, flop_per_cycle, res.0 as int);
    if in_data.underlying is Some {
        let out = res.1.at(i, j);
    }
}

/// The scalar function is applied to every cell, and the padding stays. Four
/// operations are counted for each cell.
pub proof fn law_pow2_of_cells<T: Copy, F: Fn(T) -> T>(
    in_data: Tile<T>,
    f: F,
    flop_per_cycle: u64,
    write_back_mu: bool,
    res: (u64, Tile<T>),
    i: int,
    j: int,
)
    requires
        flop_per_cycle > 0,
        call_ensures(pow2::<T, F>, (&in_data, f, flop_per_cycle, write_back_mu), res),
        0 <= i < in_data.shape.0,
        0 <= j < in_data.shape.1,
    ensures
        res.0 * flop_per_cycle >= in_data.shape.0 * in_data.shape.1 * 4 > (res.0 - 1)
            * flop_per_cycle,
        res.1.shape == in_data.shape,
        res.1.bytes_per_elem == in_data.bytes_per_elem,
        res.1.read_from_mu == write_back_mu,
        res.1.offset == in_data.offset,
        in_data.underlying is Some ==> call_ensures(f, (in_data.at(i, j),), res.1.at(i, j)),
{
    lemma_cell_cycles(in_data, 4, flop_per_cycle, res.0 as int);
    if in_data.underlying is Some {
        let out = res.1.at(i, j);
    }
}

/// The scalar function is applied to every cell, and the padding stays. Four
/// operations are counted for each cell.
pub proof fn law_tanh_of_cells<T: Copy, F: Fn(T) -> T>(
    in_data: Tile<T>,
    f: F,
    flop_per_cycle: u64,
    write_back_mu: bool,
    res: (u64, Tile<T>),
    i: int,
    j: int,
)
    requires
        flop_per_cycle > 0,
        call_ensures(tanh::<T, F>, (&in_data, f, flop_per_cycle, write_back_mu), res),
        0 <= i < in_data.shape.0,
        0 <= j < in_data.shape.1,
    ensures
        res.0 * flop_per_cycle >= in_data.shape.0 * in_data.shape.1 * 4 > (res.0 - 1)
            * flop_per_cycle,
        res.1.shape == in_data.shape,
        res.1.bytes_per_elem == in_data.bytes_per_elem,
        res.1.read_from_mu == write_back_mu,
        res.1.offset == in_data.offset,
        in_data.underlying is Some ==> call_ensures(f, (in_data.at(i, j),), res.1.at(i, j)),
{
    lemma_cell_cycles(in_data, 4, flop_per_cycle, res.0 as int);
    if in_data.underlying is Some {
        let out = res.1.at(i, j);
    }
}

/// The scalar function is applied to every cell, and the padding stays. Four
/// operations are counted for each cell.
pub proof fn law_pow_of_cells<T: Copy, F: Fn(T) -> T>(
    in_data: Tile<T>,
    f: F,
    flop_per_cycle: u64,
    write_back_mu: bool,
    res: (u64, Tile<T>),
    i: int,
    j: int,
)
    requires
        flop_per_cycle > 0,
        call_ensures(pow::<T, F>, (&in_data, f, flop_per_cycle, write_back_mu), res),
        0 <= i < in_data.shape.0,
        0 <= j < in_data.shape.1,
    ensures
        res.0 * flop_per_cycle >= in_data.shape.0 * in_data.shape.1 * 4 > (res.0 - 1)
            * flop_per_cycle,
        res.1.shape == in_data.shape,
        res.1.bytes_per_elem == in_data.bytes_per_elem,
        res.1.read_from_mu == write_back_mu,
        res.1.offset == in_data.offset,
        in_data.underlying is Some ==> call_ensures(f, (in_data.at(i, j),), res.1.at(i, j)),
{
    lemma_cell_cycles(in_data, 4, flop_per_cycle, res.0 as int);
    if in_data.underlying is Some {
        let out = res.1.at(i, j);
    }
}

/// The scalar function is applied to every cell, and the padding stays. Four
/// operations are counted for each cell.
pub proof fn law_rsqrt_of_cells<T: Copy, F: Fn(T) -> T>(
    in_data: Tile<T>,
    f: F,
    flop_per_cycle: u64,
    write_back_mu: bool,
    res: (u64, Tile<T>),
    i: int,
    j: int,
)
    requires
        flop_per_cycle > 0,
        call_ensures(rsqrt::<T, F>, (&in_data, f, flop_per_cycle, write_back_mu), res),
        0 <= i < in_data.shape.0,
        0 <= j < in_data.shape.1,
    ensures
        res.0 * flop_per_cycle >= in_data.shape.0 * in_data.shape.1 * 4 > (res.0 - 1)
            * flop_per_cycle,
        res.1.shape == in_data.shape,
        res.1.bytes_per_elem == in_data.bytes_per_elem,
        res.1.read_from_mu == write_back_mu,
        res.1.offset == in_data.offset,
        in_data.underlying is Some ==> call_ensures(f, (in_data.at(i, j),), res.1.at(i, j)),
{
    lemma_cell_cycles(in_data, 4, flop_per_cycle, res.0 as int);
    if in_data.underlying is Some {
        let out = res.1.at(i, j);
    }
}

/// A cell of a product is the sum of the products of a row and a column.
pub proof fn lemma_matmul_fold(
    in1: Tile<u64>,
    in2: Tile<u64>,
    weight_transposed: bool,
    i: int,
    j: int,
    n: nat,
)
    ensures
        matmul_sum(in1, in2, weight_transposed, i, j, n as int) == Seq::new(
            n,
            |k: int| in1.at(i, k) * (if weight_transposed {
                in2.at(j, k)
            } else {
                in2.at(k, j)
            }),
        ).fold_left(0int, |a: int, b: int| a + b),
    decreases n,
{
    let terms = Seq::new(
        n,
        |k: int| in1.at(i, k) * (if weight_transposed {
            in2.at(j, k)
        } else {
            in2.at(k, j)
        }),
    );
    if n > 0 {
        lemma_matmul_fold(in1, in2, weight_transposed, i, j, (n - 1) as nat);
        assert(terms.drop_last() =~= Seq::new(
            (n - 1) as nat,
            |k: int| in1.at(i, k) * (if weight_transposed {
                in2.at(j, k)
            } else {
                in2.at(k, j)
            }),
        ));
    }
}

/// A matrix product: every cell is the sum of the products of a row of the
/// first tile and a column of the second, or a row of it if that is given
/// transposed. Two operations are counted for each of those products.
pub proof fn law_matrix_product(
    in1: Tile<u64>,
    in2: Tile<u64>,
    flop_per_cycle: u64,
    write_back_mu: bool,
    weight_transposed: bool,
    res: (u64, Tile<u64>),
    i: int,
    j: int,
)
    requires
        multipliable(in1, in2, flop_per_cycle, weight_transposed),
        call_ensures(
            self::matmul,
            (&in1, &in2, flop_per_cycle, write_back_mu, weight_transposed),
            res,
        ),
        0 <= i < res.1.shape.0,
        0 <= j < res.1.shape.1,
    ensures
        res.1.shape.0 == in1.shape.0,
        res.1.shape.1 == (if weight_transposed {
            in2.shape.0
        } else {
            in2.shape.1
        }),
        res.0 * flop_per_cycle >= 2 * in1.shape.0 * in1.shape.1 * res.1.shape.1 > (res.0 - 1)
            * flop_per_cycle,
        res.1.bytes_per_elem == in1.bytes_per_elem,
        res.1.read_from_mu == write_back_mu,
        res.1.offset == in1.offset,
        res.1.underlying is Some <==> in1.underlying is Some && in2.underlying is Some,
        in1.underlying is Some && in2.underlying is Some ==> res.1.at(i, j) == Seq::new(
            in1.shape.1 as nat,
            |k: int| in1.at(i, k) * (if weight_transposed {
                in2.at(j, k)
            } else {
                in2.at(k, j)
            }),
        ).fold_left(0int, |a: int, b: int| a + b),
{
    let n = weight_cols(in2, weight_transposed);
    let count = 2 * in1.shape.0 * in1.shape.1 * n;
    assert(count >= 0) by (nonlinear_arith)
        requires
            count == 2 * in1.shape.0 * in1.shape.1 * n,
            in1.shape.0 >= 0,
            in1.shape.1 >= 0,
            n >= 0,
    ;
    lemma_ceil_div(count, flop_per_cycle as int);
    assert((res.0 - 1) * flop_per_cycle == res.0 * flop_per_cycle - flop_per_cycle)
        by (nonlinear_arith);
    lemma_matmul_fold(in1, in2, weight_transposed, i, j, in1.shape.1 as nat);
    if both_data(in1, in2) {
        let product = choose|product: Array2<u64>|
            #[trigger] is_matmul(in1, in2, weight_transposed, product) && res.1 == product_tile(
                in1,
                in2,
                Some(product),
                write_back_mu,
                weight_transposed,
            );
        assert(is_matmul(in1, in2, weight_transposed, product));
        assert(res.1.at(i, j) == product.at(i, j));
    }
}

/// The sum of a row is the sum of its cells.
proof fn lemma_row_fold(tile: Tile<u64>, i: int, n: nat)
    ensures
        row_sum(*tile.underlying->0, i, n as int) == Seq::new(
            n,
            |k: int| tile.at(i, k) as int,
        ).fold_left(0int, |a: int, b: int| a + b),
    decreases n,
{
    let terms = Seq::new(n, |k: int| tile.at(i, k) as int);
    if n > 0 {
        lemma_row_fold(tile, i, (n - 1) as nat);
        assert(terms.drop_last() =~= Seq::new((n - 1) as nat, |k: int| tile.at(i, k) as int));
    }
}

/// The sum of each row of a tile, as a column. One operation is counted for
/// each cell, and the padding stays.
pub proof fn law_sum_of_row(
    in_data: Tile<u64>,
    flop_per_cycle: u64,
    write_back_mu: bool,
    res: (u64, Tile<u64>),
    i: int,
)
    requires
        flop_per_cycle > 0,
        call_ensures(row_wise_sum, (&in_data, flop_per_cycle, write_back_mu), res),
        0 <= i < in_data.shape.0,
    ensures
        res.0 * flop_per_cycle >= in_data.shape.0 * in_data.shape.1 > (res.0 - 1) * flop_per_cycle,
        res.1.shape == (in_data.shape.0, 1usize),
        res.1.read_from_mu == write_back_mu,
        res.1.offset == in_data.offset,
        in_data.underlying is Some ==> res.1.at(i, 0) == Seq::new(
            in_data.shape.1 as nat,
            |k: int| in_data.at(i, k) as int,
        ).fold_left(0int, |a: int, b: int| a + b),
{
    lemma_cell_cycles(in_data, 1, flop_per_cycle, res.0 as int);
    if in_data.underlying is Some {
        lemma_row_fold(in_data, i, in_data.shape.1 as nat);
    }
}

/// A mask for one row keeps exactly that row, and a mask for columns keeps the
/// first of them, as many as it is told but not more than there are; a count
/// beyond the range of signed numbers stands for a negative one and keeps none.
pub proof fn law_masks_keep_row_and_columns<T: Copy + TryInto<usize>, D: Copy>(
    in_data: Tile<T>,
    write_back_mu: bool,
    row: usize,
    col: usize,
    mock_bf16: bool,
    zero: D,
    one: D,
    by_row: (u64, Tile<D>),
    by_col: (u64, Tile<D>),
    i: int,
    j: int,
)
    requires
        in_data.underlying is Some,
        call_ensures(
            mask_row::<T, D>,
            (&in_data, write_back_mu, row, col, mock_bf16, zero, one),
            by_row,
        ),
        call_ensures(
            mask_col::<T, D>,
            (&in_data, write_back_mu, row, col, mock_bf16, zero, one),
            by_col,
        ),
        0 <= i < row,
        0 <= j < col,
    ensures
        by_row.0 == 1 && by_col.0 == 1,
        by_row.1.shape == (row, col) && by_col.1.shape == (row, col),
        by_row.1.offset == row && by_col.1.offset == row,
        mock_bf16 ==> by_row.1.bytes_per_elem == 2 && by_col.1.bytes_per_elem == 2,
        ({
            let index = TryIntoSpec::<usize>::try_into_spec(in_data.at(0, 0))->Ok_0;
            &&& by_row.1.at(i, j) == (if i == index {
                one
            } else {
                zero
            })
            &&& by_col.1.at(i, j) == (if j < index && index <= i64::MAX {
                one
            } else {
                zero
            })
        }),
{
    let a = by_row.1.at(i, j);
    let b = by_col.1.at(i, j);
}

/// The address to which an entry is appended lies as far behind the start of
/// its line as the line is long.
pub proof fn law_entry_is_appended(
    idx: Tile<u64>,
    len: Tile<u64>,
    offset_per_idx: u64,
    comp_bw: u64,
    write_back_mu: bool,
    res: (u64, Tile<u64>),
)
    requires
        idx.at(0, 0) * offset_per_idx + len.at(0, 0) <= u64::MAX,
        call_ensures(
            cache_write_addr_gen,
            (&idx, &len, offset_per_idx, comp_bw, write_back_mu),
            res,
        ),
    ensures
        res.0 == 1,
        res.1.at(0, 0) == idx.at(0, 0) * offset_per_idx + len.at(0, 0),
        res.1.shape == (1usize, 1usize),
        res.1.read_from_mu == write_back_mu,
{
    assert(idx.at(0, 0) * offset_per_idx >= 0) by (nonlinear_arith)
        requires
            idx.at(0, 0) >= 0,
            offset_per_idx >= 0,
    ;
}

/// A selection as numbers: the positions that are selected, in ascending order,
/// as one row; the number zero stands for none. As one number: the first of
/// them.
pub proof fn law_selection_as_numbers(
    sel: MultiHotN,
    comp_bw: u64,
    write_back_mu: bool,
    all: (u64, Tile<u64>),
    first: (u64, Tile<u64>),
    k: int,
)
    requires
        call_ensures(multihot_to_u64, (&sel, comp_bw, write_back_mu), all),
        call_ensures(select_to_scalar::<MultiHotN>, (&sel, comp_bw, write_back_mu), first),
        0 <= k < sel_vec(sel.underlying@).len(),
        sel_vec(sel.underlying@).len() <= usize::MAX,
    ensures
        all.0 == 1 && first.0 == 1,
        all.1.shape.0 == 1,
        all.1.shape.1 == sel_vec(sel.underlying@).len(),
        all.1.underlying->0.data@[k] == sel_vec(sel.underlying@)[k],
        first.1.shape == (1usize, 1usize),
        first.1.at(0, 0) == sel_vec(sel.underlying@)[0],
{
    let values = selected_values(sel.underlying@);
    assert(row_values(all.1.underlying->0.data@)[k] == values[k]);
    assert(row_values(all.1.underlying->0.data@)[0] == values[0]);
}

/// The greatest cell of a row is one of its cells, and no cell is greater.
pub proof fn law_maximum_of_row(
    in_data: Tile<u64>,
    flop_per_cycle: u64,
    write_back_mu: bool,
    res: (u64, Tile<u64>),
    i: int,
    j: int,
)
    requires
        flop_per_cycle > 0,
        in_data.wf(),
        in_data.underlying is Some,
        call_ensures(row_wise_max::<u64>, (&in_data, flop_per_cycle, write_back_mu), res),
        0 <= i < in_data.shape.0,
        0 <= j < in_data.shape.1,
    ensures
        res.1.shape == (in_data.shape.0, 1usize),
        res.1.offset == in_data.offset,
        res.1.at(i, 0) >= in_data.at(i, j),
        exists|k: int| 0 <= k < in_data.shape.1 && #[trigger] in_data.at(i, k) == res.1.at(i, 0),
        res.0 * flop_per_cycle >= in_data.shape.0 * in_data.shape.1 > (res.0 - 1) * flop_per_cycle,
{
    lemma_cell_cycles(in_data, 1, flop_per_cycle, res.0 as int);
    let n = in_data.shape.1 as int;
    let m = res.1.at(i, 0);
    let trace = choose|trace: Seq<u64>|
        #[trigger] is_max_trace(*in_data.underlying->0, i, n, trace) && m == trace.last();
    assert(is_running_max(*in_data.underlying->0, i, n, m));
    assert(is_max_trace(*in_data.underlying->0, i, n, trace));
    lemma_max_trace(in_data, i, n, trace, n - 1, j);
}

proof fn lemma_max_trace(tile: Tile<u64>, i: int, n: int, trace: Seq<u64>, last: int, j: int)
    requires
        is_max_trace(*tile.underlying->0, i, n, trace),
        0 <= last < n,
    ensures
        0 <= j <= last ==> trace[last] >= tile.at(i, j),
        exists|k: int| 0 <= k <= last && #[trigger] tile.at(i, k) == trace[last],
    decreases last,
{
    if last > 0 {
        lemma_max_trace(tile, i, n, trace, last - 1, j);
        assert(larger_of(tile.at(i, last), trace[last - 1], trace[last]));
    } else {
        assert(tile.at(i, 0) == trace[0]);
    }
}

/// Appending puts the rows of one tile into a cache, as rows or as columns,
/// behind the valid ones; every other cell stays, and as many more are valid.
pub proof fn law_appended_rows_follow_valid_ones<T: Copy>(
    cache: Tile<T>,
    turned: Tile<T>,
    rows: Tile<T>,
    write_back_mu: bool,
    by_row: (u64, Tile<T>),
    by_col: (u64, Tile<T>),
    i: int,
    j: int,
)
    requires
        cache.underlying is Some,
        turned.underlying is Some,
        rows.underlying is Some,
        turned.shape == (cache.shape.1, cache.shape.0),
        turned.offset == cache.offset,
        call_ensures(row_wise_append::<T>, (&cache, &rows, write_back_mu), by_row),
        call_ensures(col_wise_append::<T>, (&turned, &rows, write_back_mu), by_col),
        0 <= i < cache.shape.0,
        0 <= j < cache.shape.1,
    ensures
        ({
            let k = i - cache.offset;
            &&& by_row.0 == 1 && by_col.0 == 1
            &&& by_row.1.shape == cache.shape && by_col.1.shape == turned.shape
            &&& by_row.1.offset == cache.offset + rows.shape.0
            &&& by_col.1.offset == cache.offset + rows.shape.0
            &&& 0 <= k < rows.shape.0 ==> by_row.1.at(i, j) == rows.at(k, j) && by_col.1.at(j, i)
                == rows.at(k, j)
            &&& !(0 <= k < rows.shape.0) ==> by_row.1.at(i, j) == cache.at(i, j) && by_col.1.at(
                j,
                i,
            ) == turned.at(j, i)
        }),
{
    let a = by_row.1.at(i, j);
    let b = by_col.1.at(j, i);
}

/// Every row of a tile that is repeated is the one row of the tile, and all of
/// them are valid.
pub proof fn law_repeated_row_is_the_row<T: Copy>(
    in_data: Tile<T>,
    row_size: usize,
    flop_per_cycle: u64,
    write_back_mu: bool,
    res: (u64, Tile<T>),
    i: int,
    j: int,
)
    requires
        call_ensures(
            broadcast_rows::<T>,
            (&in_data, row_size, flop_per_cycle, write_back_mu),
            res,
        ),
        0 <= i < row_size,
        0 <= j < in_data.shape.1,
    ensures
        res.0 == 1,
        res.1.shape == (row_size, in_data.shape.1),
        res.1.offset == row_size,
        res.1.read_from_mu == write_back_mu,
        in_data.underlying is Some ==> res.1.at(i, j) == in_data.at(0, j),
{
    if in_data.underlying is Some {
        let cell = res.1.at(i, j);
    }
}

/// Telling a tile how many of its rows are valid changes nothing else about it.
pub proof fn law_offset_is_set<T>(
    in_data: Tile<T>,
    offset: Tile<u64>,
    write_back_mu: bool,
    res: (u64, Tile<T>),
)
    requires
        offset.at(0, 0) <= usize::MAX,
        call_ensures(set_offset::<T>, (&in_data, &offset, write_back_mu), res),
    ensures
        res.0 == 1,
        res.1.offset == offset.at(0, 0),
        res.1.underlying == in_data.underlying,
        res.1.shape == in_data.shape,
        res.1.bytes_per_elem == in_data.bytes_per_elem,
        res.1.read_from_mu == write_back_mu,
{
}

/// Comparing two scalars selects the first of two outputs if they are equal,
/// and the second if they are not.
pub proof fn law_equal_scalars_select_first<T: Copy + PartialEq>(
    in1: Tile<T>,
    in2: Tile<T>,
    write_back_mu: bool,
    res: (u64, MultiHotN),
)
    requires
        call_ensures(is_equal_scalar::<T>, (&in1, &in2, write_back_mu), res),
    ensures
        res.0 == 1,
        res.1.underlying@.len() == 2,
        res.1.underlying@[0] != res.1.underlying@[1],
        call_ensures(
            <T as PartialEq>::eq,
            (&in1.at(0, 0), &in2.at(0, 0)),
            res.1.underlying@[0],
        ),
        res.1.read_from_mu == write_back_mu,
{
    let equal = choose|equal: bool|
        {
            &&& #[trigger] call_ensures(
                <T as PartialEq>::eq,
                (&in1.at(0, 0), &in2.at(0, 0)),
                equal,
            )
            &&& res.1.underlying@ == seq![equal, !equal]
        };
    assert(res.1.underlying@[0] == equal);
}

/// A constant is sent whatever the input is, as one cell of eight bytes.
pub proof fn law_constant_is_sent<T>(
    in_data: T,
    constant: u64,
    write_back_mu: bool,
    res: (u64, Tile<u64>),
)
    requires
        call_ensures(to_const_int::<T>, (&in_data, constant, write_back_mu), res),
    ensures
        res.0 == 1,
        res.1.at(0, 0) == constant,
        res.1.shape == (1usize, 1usize),
        res.1.bytes_per_elem == 8,
        res.1.read_from_mu == write_back_mu,
{
}

/// The difference of a tile and the number that a scalar tile carries, cell by cell,
/// in one cycle; all rows become valid.
pub proof fn law_sub_u64_scalar<T: Copy + Sub<Output = T>, F: Fn(u64) -> T>(
    in_data: Tile<T>,
    scalar: Tile<u64>,
    of_u64: F,
    write_back_mu: bool,
    res: (u64, Tile<T>),
    i: int,
    j: int,
)
    requires
        in_data.underlying is Some,
        call_ensures(sub_u64_scalar::<T, F>, (&in_data, &scalar, of_u64, write_back_mu), res),
        0 <= i < in_data.shape.0,
        0 <= j < in_data.shape.1,
    ensures
        res.0 == 1,
        res.1.shape == in_data.shape,
        res.1.offset == in_data.shape.0,
        res.1.read_from_mu == write_back_mu,
        exists|k: T|
            {
                &&& #[trigger] call_ensures(of_u64, (scalar.at(0, 0),), k)
                &&& call_ensures(<T as Sub>::sub, (in_data.at(i, j), k), res.1.at(i, j))
            },
{
    let k = choose|k: T|
        {
            &&& #[trigger] call_ensures(of_u64, (scalar.at(0, 0),), k)
            &&& is_mapped(
                in_data,
                in_data.bytes_per_elem,
                write_back_mu,
                in_data.shape.0,
                |x: T, y: T| difference_of(x, k, y),
                res.1,
            )
        };
    let cell = res.1.at(i, j);
    assert(call_ensures(of_u64, (scalar.at(0, 0),), k));
    assert(difference_of(in_data.at(i, j), k, cell));
}

/// The product of a tile and the number that a scalar tile carries, cell by cell,
/// in one cycle; all rows become valid.
pub proof fn law_mul_by_u64_scalar<T: Copy + Mul<Output = T>, F: Fn(u64) -> T>(
    in_data: Tile<T>,
    scalar: Tile<u64>,
    of_u64: F,
    write_back_mu: bool,
    res: (u64, Tile<T>),
    i: int,
    j: int,
)
    requires
        in_data.underlying is Some,
        call_ensures(mul_by_u64_scalar::<T, F>, (&in_data, &scalar, of_u64, write_back_mu), res),
        0 <= i < in_data.shape.0,
        0 <= j < in_data.shape.1,
    ensures
        res.0 == 1,
        res.1.shape == in_data.shape,
        res.1.offset == in_data.shape.0,
        res.1.read_from_mu == write_back_mu,
        exists|k: T|
            {
                &&& #[trigger] call_ensures(of_u64, (scalar.at(0, 0),), k)
                &&& call_ensures(<T as Mul>::mul, (in_data.at(i, j), k), res.1.at(i, j))
            },
{
    let k = choose|k: T|
        {
            &&& #[trigger] call_ensures(of_u64, (scalar.at(0, 0),), k)
            &&& is_mapped(
                in_data,
                in_data.bytes_per_elem,
                write_back_mu,
                in_data.shape.0,
                |x: T, y: T| product_of(x, k, y),
                res.1,
            )
        };
    let cell = res.1.at(i, j);
    assert(call_ensures(of_u64, (scalar.at(0, 0),), k));
    assert(product_of(in_data.at(i, j), k, cell));
}

} // verus!
