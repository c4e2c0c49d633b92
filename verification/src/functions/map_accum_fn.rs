//! Functions that fold a combination of two tiles into an accumulator.

use core::ops::Add;
use vstd::prelude::*;
use vstd::std_specs::ops::AddSpec;

use crate::functions::elementwise::{both_data, sum_of};
use crate::functions::map_fn::{
    count_matmul_cycles, is_matmul, lemma_matmul_fold, matmul_cycles, matmul_sum, multipliable,
    multiply, product_fits, weight_cols,
};
use crate::primitives::array::Array2;
use crate::primitives::tile::{blank_tile, Tile};
use crate::utils::calculation::lemma_ceil_div;

verus! {

/// The accumulator has the shape of the product.
pub open spec fn accumulates<T>(
    in1: Tile<T>,
    in2: Tile<T>,
    accumulator: Tile<T>,
    weight_transposed: bool,
) -> bool {
    &&& accumulator.wf()
    &&& accumulator.shape == (in1.shape.0, weight_cols(in2, weight_transposed))
    &&& both_data(in1, in2) ==> accumulator.underlying is Some
}

/// The accumulator has no cells, as before the first step of an accumulation
/// whose shape is not known beforehand.
pub open spec fn is_unallocated<T>(accumulator: Tile<T>) -> bool {
    accumulator.shape.0 == 0 || accumulator.shape.1 == 0
}

/// The result of a step: the sum of the accumulator and the product, cell by
/// cell, or the product alone. The valid rows are those of the first tile.
pub open spec fn is_accumulated<T: Add<Output = T>>(
    in1: Tile<T>,
    in2: Tile<T>,
    accumulator: Tile<T>,
    product: Option<Array2<T>>,
    adds: bool,
    write_back_mu: bool,
    weight_transposed: bool,
    out: Tile<T>,
) -> bool {
    let shape = (in1.shape.0, weight_cols(in2, weight_transposed));
    match product {
        None => out == blank_tile::<T>(shape, in1.bytes_per_elem, write_back_mu, in1.offset),
        Some(array) => {
            &&& out.wf()
            &&& out.underlying is Some
            &&& out.shape == shape
            &&& out.bytes_per_elem == in1.bytes_per_elem
            &&& out.read_from_mu == write_back_mu
            &&& out.offset == in1.offset
            &&& forall|i: int, j: int|
                0 <= i < out.shape.0 && 0 <= j < out.shape.1 ==> if adds {
                    sum_of(accumulator.at(i, j), array.at(i, j), #[trigger] out.at(i, j))
                } else {
                    out.at(i, j) == array.at(i, j)
                }
        },
    }
}

/// The sums of two arrays, cell by cell.
fn add_arrays<T: Copy + Add<Output = T>>(a: &Array2<T>, b: &Array2<T>) -> (res: Array2<T>)
    requires
        a.wf(),
        b.wf(),
        a.rows == b.rows,
        a.cols == b.cols,
        forall|i: int, j: int|
            0 <= i < a.rows && 0 <= j < a.cols ==> (#[trigger] a.at(i, j)).add_req(b.at(i, j)),
    ensures
        res.wf(),
        res.rows == a.rows,
        res.cols == a.cols,
        forall|i: int, j: int|
            0 <= i < a.rows && 0 <= j < a.cols ==> sum_of(
                a.at(i, j),
                b.at(i, j),
                #[trigger] res.at(i, j),
            ),
{
    let len: usize = a.data.len();
    let cell = |i: usize, j: usize| -> (x: T)
        requires
            a.wf(),
            b.wf(),
            a.rows == b.rows,
            a.cols == b.cols,
            i < a.rows,
            j < a.cols,
            a.at(i as int, j as int).add_req(b.at(i as int, j as int)),
        ensures
            sum_of(a.at(i as int, j as int), b.at(i as int, j as int), x),
        { *a.get(i, j) + *b.get(i, j) };
    proof {
        assert forall|i: usize, j: usize| i < a.rows && j < a.cols implies #[trigger] call_requires(
            cell,
            (i, j),
        ) by {
            assert(a.at(i as int, j as int).add_req(b.at(i as int, j as int)));
        }
    }
    Array2::from_shape_fn(a.rows, a.cols, cell)
}

/// Every sum of the accumulator and the product can be computed.
pub open spec fn addable<T: Add<Output = T>>(
    accumulator: Tile<T>,
    product: Option<Array2<T>>,
) -> bool {
    product matches Some(array) ==> forall|i: int, j: int|
        0 <= i < array.rows && 0 <= j < array.cols ==> (#[trigger] accumulator.at(i, j)).add_req(
            array.at(i, j),
        )
}

/// The product has the shape of the result.
pub open spec fn is_product_shape<T>(
    in1: Tile<T>,
    in2: Tile<T>,
    weight_transposed: bool,
    product: Option<Array2<T>>,
) -> bool {
    &&& product is Some <==> both_data(in1, in2)
    &&& product matches Some(array) ==> {
        &&& array.wf()
        &&& array.rows == in1.shape.0
        &&& array.cols == weight_cols(in2, weight_transposed)
    }
}

fn accumulate<T: Copy + Add<Output = T>>(
    in1: &Tile<T>,
    in2: &Tile<T>,
    accumulator: &Tile<T>,
    product: Option<Array2<T>>,
    adds: bool,
    write_back_mu: bool,
    weight_transposed: bool,
) -> (res: Tile<T>)
    requires
        is_product_shape(*in1, *in2, weight_transposed, product),
        adds ==> accumulates(*in1, *in2, *accumulator, weight_transposed) && addable(
            *accumulator,
            product,
        ),
    ensures
        is_accumulated(
            *in1,
            *in2,
            *accumulator,
            product,
            adds,
            write_back_mu,
            weight_transposed,
            res,
        ),
{
    match product {
        None => {
            let n: usize = if weight_transposed {
                in2.shape.0
            } else {
                in2.shape.1
            };
            Tile::new_blank_padded(
                (in1.shape.0, n),
                in1.bytes_per_elem,
                write_back_mu,
                in1.offset,
            )
        },
        Some(array) => {
            let ghost product_array = array;
            let out = match &accumulator.underlying {
                Some(accum_array) if adds => {
                    assert forall|i: int, j: int|
                        0 <= i < accum_array.rows && 0 <= j < accum_array.cols implies (
                    #[trigger] accum_array.at(i, j)).add_req(array.at(i, j)) by {
                        assert(accumulator.at(i, j).add_req(array.at(i, j)));
                    }
                    add_arrays(accum_array, &array)
                },
                _ => array,
            };
            let tile = Tile::new_padded(out, in1.bytes_per_elem, write_back_mu, in1.offset);
            tile
        },
    }
}

/// A step of a matrix multiplication whose product is computed by the caller:
/// the product is added to the accumulator.
pub fn matmul_with<T: Copy + Add<Output = T>>(
    in1: &Tile<T>,
    in2: &Tile<T>,
    accumulator: &Tile<T>,
    product: Option<Array2<T>>,
    flop_per_cycle: u64,
    write_back_mu: bool,
    weight_transposed: bool,
) -> (res: (u64, Tile<T>))
    requires
        multipliable(*in1, *in2, flop_per_cycle, weight_transposed),
        accumulates(*in1, *in2, *accumulator, weight_transposed),
        is_product_shape(*in1, *in2, weight_transposed, product),
        addable(*accumulator, product),
    ensures
        res.0 == matmul_cycles(*in1, *in2, flop_per_cycle, weight_transposed),
        is_accumulated(
            *in1,
            *in2,
            *accumulator,
            product,
            true,
            write_back_mu,
            weight_transposed,
            res.1,
        ),
{
    let cycles: u64 = count_matmul_cycles(in1, in2, flop_per_cycle, weight_transposed);
    let tile = accumulate(
        in1,
        in2,
        accumulator,
        product,
        true,
        write_back_mu,
        weight_transposed,
    );
    (cycles, tile)
}

/// A step of a matrix multiplication whose product is computed by the caller.
/// An accumulator without cells takes on the product: it is allocated when the
/// first input comes in.
pub fn dyn_matmul_with<T: Copy + Add<Output = T>>(
    in1: &Tile<T>,
    in2: &Tile<T>,
    accumulator: &Tile<T>,
    product: Option<Array2<T>>,
    flop_per_cycle: u64,
    write_back_mu: bool,
    weight_transposed: bool,
) -> (res: (u64, Tile<T>))
    requires
        multipliable(*in1, *in2, flop_per_cycle, weight_transposed),
        both_data(*in1, *in2) ==> accumulator.underlying is Some,
        is_product_shape(*in1, *in2, weight_transposed, product),
        !is_unallocated(*accumulator) ==> accumulates(
            *in1,
            *in2,
            *accumulator,
            weight_transposed,
        ) && addable(*accumulator, product),
    ensures
        res.0 == matmul_cycles(*in1, *in2, flop_per_cycle, weight_transposed),
        is_accumulated(
            *in1,
            *in2,
            *accumulator,
            product,
            !is_unallocated(*accumulator),
            write_back_mu,
            weight_transposed,
            res.1,
        ),
{
    let cycles: u64 = count_matmul_cycles(in1, in2, flop_per_cycle, weight_transposed);
    let adds = accumulator.shape.0 != 0 && accumulator.shape.1 != 0;
    let tile = accumulate(
        in1,
        in2,
        accumulator,
        product,
        adds,
        write_back_mu,
        weight_transposed,
    );
    (cycles, tile)
}

/// The sums of the accumulator and the matrix product fit into 64 bits.
pub open spec fn total_fits(
    in1: Tile<u64>,
    in2: Tile<u64>,
    accumulator: Tile<u64>,
    weight_transposed: bool,
) -> bool {
    both_data(in1, in2) ==> forall|i: int, j: int|
        0 <= i < in1.shape.0 && 0 <= j < weight_cols(in2, weight_transposed)
            ==> #[trigger] accumulator.at(i, j) + matmul_sum(
            in1,
            in2,
            weight_transposed,
            i,
            j,
            in1.shape.1 as int,
        ) <= u64::MAX
}

/// A step of a matrix multiplication: the matrix product of two tiles is added
/// to the accumulator. `weight_transposed` says that the weight is stored with
/// rows and columns exchanged.
pub fn matmul(
    in1: &Tile<u64>,
    in2: &Tile<u64>,
    accumulator: &Tile<u64>,
    flop_per_cycle: u64,
    write_back_mu: bool,
    weight_transposed: bool,
) -> (res: (u64, Tile<u64>))
    requires
        multipliable(*in1, *in2, flop_per_cycle, weight_transposed),
        product_fits(*in1, *in2, weight_transposed),
        accumulates(*in1, *in2, *accumulator, weight_transposed),
        total_fits(*in1, *in2, *accumulator, weight_transposed),
    ensures
        res.0 == matmul_cycles(*in1, *in2, flop_per_cycle, weight_transposed),
        both_data(*in1, *in2) ==> exists|product: Array2<u64>|
            #[trigger] is_matmul(*in1, *in2, weight_transposed, product) && is_accumulated(
                *in1,
                *in2,
                *accumulator,
                Some(product),
                true,
                write_back_mu,
                weight_transposed,
                res.1,
            ),
        !both_data(*in1, *in2) ==> is_accumulated(
            *in1,
            *in2,
            *accumulator,
            None,
            true,
            write_back_mu,
            weight_transposed,
            res.1,
        ),
{
    let product = multiply(in1, in2, weight_transposed);
    let ghost result = product;
    proof {
        lemma_addable(*in1, *in2, *accumulator, weight_transposed, product);
    }
    let out = matmul_with(
        in1,
        in2,
        accumulator,
        product,
        flop_per_cycle,
        write_back_mu,
        weight_transposed,
    );
    proof {
        if let Some(array) = result {
            assert(is_matmul(*in1, *in2, weight_transposed, array));
        }
    }
    out
}

/// A step of a matrix multiplication whose accumulator may have no cells yet;
/// it then takes on the product.
pub fn dyn_matmul(
    in1: &Tile<u64>,
    in2: &Tile<u64>,
    accumulator: &Tile<u64>,
    flop_per_cycle: u64,
    write_back_mu: bool,
    weight_transposed: bool,
) -> (res: (u64, Tile<u64>))
    requires
        multipliable(*in1, *in2, flop_per_cycle, weight_transposed),
        product_fits(*in1, *in2, weight_transposed),
        both_data(*in1, *in2) ==> accumulator.underlying is Some,
        !is_unallocated(*accumulator) ==> accumulates(
            *in1,
            *in2,
            *accumulator,
            weight_transposed,
        ) && total_fits(*in1, *in2, *accumulator, weight_transposed),
    ensures
        res.0 == matmul_cycles(*in1, *in2, flop_per_cycle, weight_transposed),
        both_data(*in1, *in2) ==> exists|product: Array2<u64>|
            #[trigger] is_matmul(*in1, *in2, weight_transposed, product) && is_accumulated(
                *in1,
                *in2,
                *accumulator,
                Some(product),
                !is_unallocated(*accumulator),
                write_back_mu,
                weight_transposed,
                res.1,
            ),
        !both_data(*in1, *in2) ==> is_accumulated(
            *in1,
            *in2,
            *accumulator,
            None,
            !is_unallocated(*accumulator),
            write_back_mu,
            weight_transposed,
            res.1,
        ),
{
    let product = multiply(in1, in2, weight_transposed);
    let ghost result = product;
    proof {
        if !is_unallocated(*accumulator) {
            lemma_addable(*in1, *in2, *accumulator, weight_transposed, product);
        }
    }
    let out = dyn_matmul_with(
        in1,
        in2,
        accumulator,
        product,
        flop_per_cycle,
        write_back_mu,
        weight_transposed,
    );
    proof {
        if let Some(array) = result {
            assert(is_matmul(*in1, *in2, weight_transposed, array));
        }
    }
    out
}

proof fn lemma_addable(
    in1: Tile<u64>,
    in2: Tile<u64>,
    accumulator: Tile<u64>,
    weight_transposed: bool,
    product: Option<Array2<u64>>,
)
    requires
        total_fits(in1, in2, accumulator, weight_transposed),
        product is Some ==> both_data(in1, in2),
        product matches Some(array) ==> is_matmul(in1, in2, weight_transposed, array),
    ensures
        addable(accumulator, product),
{
    if let Some(array) = product {
        assert forall|i: int, j: int| 0 <= i < array.rows && 0 <= j < array.cols implies (
        #[trigger] accumulator.at(i, j)).add_req(array.at(i, j)) by {
            assert(array.at(i, j) == matmul_sum(
                in1,
                in2,
                weight_transposed,
                i,
                j,
                in1.shape.1 as int,
            ));
        }
    }
}

/// Multiplying and accumulating: every cell of the result is that of the
/// accumulator plus the sum of the products of a row and a column. An
/// accumulator that has not been allocated counts for nothing. The product
/// alone decides the cycles.
pub proof fn law_product_is_accumulated(
    in1: Tile<u64>,
    in2: Tile<u64>,
    accumulator: Tile<u64>,
    flop_per_cycle: u64,
    write_back_mu: bool,
    weight_transposed: bool,
    res: (u64, Tile<u64>),
    dynamic: (u64, Tile<u64>),
    i: int,
    j: int,
)
    requires
        in1.underlying is Some,
        in2.underlying is Some,
        multipliable(in1, in2, flop_per_cycle, weight_transposed),
        call_ensures(
            self::matmul,
            (&in1, &in2, &accumulator, flop_per_cycle, write_back_mu, weight_transposed),
            res,
        ),
        call_ensures(
            dyn_matmul,
            (&in1, &in2, &accumulator, flop_per_cycle, write_back_mu, weight_transposed),
            dynamic,
        ),
        0 <= i < in1.shape.0,
        0 <= j < (if weight_transposed {
            in2.shape.0
        } else {
            in2.shape.1
        }),
    ensures
        ({
            let terms = Seq::new(
                in1.shape.1 as nat,
                |k: int| in1.at(i, k) * (if weight_transposed {
                    in2.at(j, k)
                } else {
                    in2.at(k, j)
                }),
            );
            let sum = terms.fold_left(0int, |a: int, b: int| a + b);
            &&& exists|p: u64|
                p == sum && #[trigger] call_ensures(
                    <u64 as Add>::add,
                    (accumulator.at(i, j), p),
                    res.1.at(i, j),
                )
            &&& accumulator.shape.0 == 0 || accumulator.shape.1 == 0 ==> dynamic.1.at(i, j) == sum
            &&& accumulator.shape.0 > 0 && accumulator.shape.1 > 0 ==> exists|p: u64|
                p == sum && #[trigger] call_ensures(
                    <u64 as Add>::add,
                    (accumulator.at(i, j), p),
                    dynamic.1.at(i, j),
                )
        }),
        res.1.shape.0 == in1.shape.0,
        res.1.offset == in1.offset,
        res.1.read_from_mu == write_back_mu,
        res.0 == dynamic.0,
        res.0 * flop_per_cycle >= 2 * in1.shape.0 * in1.shape.1 * res.1.shape.1 > (res.0 - 1)
            * flop_per_cycle,
{
    let n = weight_cols(in2, weight_transposed);
    let count = 2 * in1.shape.0 * in1.shape.1 * n;
    assert(count >= 0) by (nonlinear_arith)
        requires
            count == 2 * in1.shape.0 * in1.shape.1 * n,
            in1.shape.0 >= 0,
            in1.shape.1 >= 0,
            n >= 0,
    ;
    lemma_ceil_div(count, flop_per_cycle as int);
    assert((res.0 - 1) * flop_per_cycle == res.0 * flop_per_cycle - flop_per_cycle)
        by (nonlinear_arith);
    lemma_matmul_fold(in1, in2, weight_transposed, i, j, in1.shape.1 as nat);
    let product = choose|product: Array2<u64>|
        #[trigger] is_matmul(in1, in2, weight_transposed, product) && is_accumulated(
            in1,
            in2,
            accumulator,
            Some(product),
            true,
            write_back_mu,
            weight_transposed,
            res.1,
        );
    assert(is_matmul(in1, in2, weight_transposed, product));
    let p = product.at(i, j);
    assert(sum_of(accumulator.at(i, j), p, res.1.at(i, j)));
    assert(call_ensures(<u64 as Add>::add, (accumulator.at(i, j), p), res.1.at(i, j)));
    let other = choose|product: Array2<u64>|
        #[trigger] is_matmul(in1, in2, weight_transposed, product) && is_accumulated(
            in1,
            in2,
            accumulator,
            Some(product),
            !is_unallocated(accumulator),
            write_back_mu,
            weight_transposed,
            dynamic.1,
        );
    assert(is_matmul(in1, in2, weight_transposed, other));
    let q = other.at(i, j);
    let d = dynamic.1.at(i, j);
    if !is_unallocated(accumulator) {
        assert(sum_of(accumulator.at(i, j), q, d));
        assert(call_ensures(<u64 as Add>::add, (accumulator.at(i, j), q), d));
    }
}

} // verus!
