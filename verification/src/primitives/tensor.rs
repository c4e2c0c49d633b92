//! Dense arrays of any rank, and their division into tiles.

use vstd::prelude::*;

use crate::primitives::array::Array2;
use crate::utils::indexing::product;

verus! {

/// A dense array with its data in row-major order.
#[derive(Debug, PartialEq, Eq)]
pub struct Tensor<T> {
    pub shape: Vec<usize>,
    pub data: Vec<T>,
}

/// The product of the dimensions that are not zero.
pub open spec fn nonzero_product(shape: Seq<usize>) -> int
    decreases shape.len(),
{
    if shape.len() == 0 {
        1
    } else if shape.last() == 0 {
        nonzero_product(shape.drop_last())
    } else {
        nonzero_product(shape.drop_last()) * shape.last()
    }
}

/// The shape in terms of tiles: how many whole tiles fit.
pub open spec fn tiled_shape(shape: Seq<usize>, tile_row: usize, tile_col: usize) -> Seq<usize> {
    let n = shape.len();
    shape.update(n - 2, (shape[n - 2] / tile_row) as usize).update(
        n - 1,
        (shape[n - 1] / tile_col) as usize,
    )
}

/// The shape in terms of elements of a grid of tiles.
pub open spec fn untiled(tiled: Seq<usize>, tile_row: usize, tile_col: usize) -> Seq<usize> {
    let n = tiled.len();
    tiled.update(n - 2, (tiled[n - 2] * tile_row) as usize).update(
        n - 1,
        (tiled[n - 1] * tile_col) as usize,
    )
}

/// The position in the data of cell `(r, c)` of tile `t`, where tiles are
/// numbered row by row, grid after grid.
pub open spec fn tile_cell(
    shape: Seq<usize>,
    tile_row: usize,
    tile_col: usize,
    t: int,
    r: int,
    c: int,
) -> int {
    let rows = shape[shape.len() - 2] as int;
    let cols = shape[shape.len() - 1] as int;
    let grid_rows = rows / tile_row as int;
    let grid_cols = cols / tile_col as int;
    let slab = (t / grid_cols) / grid_rows;
    let i = (t / grid_cols) % grid_rows;
    let j = t % grid_cols;
    (slab * rows + i * tile_row + r) * cols + j * tile_col + c
}

/// The data has one value for each position of a shape that is small enough to
/// be represented.
pub open spec fn fills_shape<T>(data: Seq<T>, shape: Seq<usize>) -> bool {
    &&& data.len() == product(shape)
    &&& nonzero_product(shape) <= isize::MAX
}

impl<T> Tensor<T> {
    /// There is one value for each position, and the shape is small enough to
    /// be represented.
    pub open spec fn wf(&self) -> bool {
        fills_shape(self.data@, self.shape@)
    }

    /// `array` is tile `t` of the tensor.
    pub open spec fn is_tile(
        &self,
        tile_row: usize,
        tile_col: usize,
        t: int,
        array: Array2<T>,
    ) -> bool {
        &&& array.wf()
        &&& array.rows == tile_row
        &&& array.cols == tile_col
        &&& forall|r: int, c: int|
            0 <= r < tile_row && 0 <= c < tile_col ==> #[trigger] array.at(r, c)
                == self.data@[tile_cell(self.shape@, tile_row, tile_col, t, r, c)]
    }

    /// Builds a tensor from its shape and row-major data; `None` where they do
    /// not match or the shape is too large.
    pub fn from_shape_vec(shape: Vec<usize>, data: Vec<T>) -> (res: Option<Tensor<T>>)
        ensures
            res is Some <==> fills_shape(data@, shape@),
            res matches Some(t) ==> t.wf() && t.shape@ == shape@ && t.data@ == data@,
    {
        let mut nonzero: usize = 1;
        let mut empty = false;
        let mut i: usize = 0;
        while i < shape.len()
            invariant
                i <= shape@.len(),
                1 <= nonzero <= isize::MAX,
                nonzero == nonzero_product(shape@.take(i as int)),
                product(shape@.take(i as int)) == (if empty {
                    0
                } else {
                    nonzero as int
                }),
            decreases shape@.len() - i,
        {
            let ghost next = shape@.take(i + 1);
            proof {
                assert(next.drop_last() =~= shape@.take(i as int));
                assert(next.last() == shape@[i as int]);
            }
            if shape[i] == 0 {
                empty = true;
                assert(product(next) == 0);
            } else {
                let extent: usize = shape[i];
                let grown = nonzero.checked_mul(extent);
                match grown {
                    Some(m) if m <= isize::MAX as usize => {
                        assert(nonzero * extent >= 1) by (nonlinear_arith)
                            requires
                                nonzero >= 1,
                                extent >= 1,
                        ;
                        nonzero = m;
                    },
                    _ => {
                        proof {
                            lemma_nonzero_product_grows(shape@, i + 1);
                        }
                        return None;
                    },
                }
            }
            i = i + 1;
        }
        assert(shape@.take(i as int) =~= shape@);
        let expected: usize = if empty {
            0
        } else {
            nonzero
        };
        if data.len() == expected {
            Some(Tensor { shape, data })
        } else {
            None
        }
    }
}

/// The product of the dimensions that are not zero grows with the dimensions.
proof fn lemma_nonzero_product_grows(shape: Seq<usize>, k: int)
    requires
        0 <= k <= shape.len(),
    ensures
        1 <= nonzero_product(shape.take(k)) <= nonzero_product(shape),
    decreases shape.len(),
{
    if shape.len() == 0 {
        assert(shape.take(k) =~= shape);
    } else if k == shape.len() {
        assert(shape.take(k) =~= shape);
        lemma_nonzero_product_grows(shape.drop_last(), k - 1);
        let outer = nonzero_product(shape.drop_last());
        if shape.last() != 0 {
            assert(outer * shape.last() >= 1) by (nonlinear_arith)
                requires
                    outer >= 1,
                    shape.last() >= 1,
            ;
        }
    } else {
        assert(shape.drop_last().take(k) =~= shape.take(k));
        lemma_nonzero_product_grows(shape.drop_last(), k);
        let outer = nonzero_product(shape.drop_last());
        if shape.last() != 0 {
            assert(outer * shape.last() >= outer) by (nonlinear_arith)
                requires
                    outer >= 1,
                    shape.last() >= 1,
            ;
        }
    }
}

/// The windows of a tensor that a window of shape `window` visits in steps of
/// its own size, each as an array of its two innermost dimensions.
///
/// Calls `windows_with_stride` of `ndarray`, with the window's shape as the
/// step. Claims, of windows that span only the two innermost dimensions, that
/// they are the tiles of the tensor, in row-major order.
#[verifier::external_body]
fn windows<T: Copy>(tensor: &Tensor<T>, window: &Vec<usize>) -> (res: Vec<Array2<T>>)
    requires
        tensor.wf(),
        tensor.shape@.len() >= 2,
        window@.len() == tensor.shape@.len(),
        window@[window@.len() - 2] > 0,
        window@[window@.len() - 1] > 0,
        forall|d: int| 0 <= d < window@.len() - 2 ==> #[trigger] window@[d] == 1,
    ensures
        res@.len() == product(
            tiled_shape(tensor.shape@, window@[window@.len() - 2], window@[window@.len() - 1]),
        ),
        forall|t: int|
            0 <= t < res@.len() ==> tensor.is_tile(
                window@[window@.len() - 2],
                window@[window@.len() - 1],
                t,
                #[trigger] res@[t],
            ),
{
    let array = ndarray::ArrayViewD::from_shape(tensor.shape.as_slice(), &tensor.data).unwrap();
    let step = ndarray::IxDyn(window);
    let (rows, cols) = (window[window.len() - 2], window[window.len() - 1]);
    let windows = array.windows_with_stride(step.clone(), step).into_iter();
    windows.map(|w| Array2 { rows, cols, data: w.iter().copied().collect() }).collect()
}

/// All tiles of a tensor, row by row.
pub fn tiles_of<T: Copy>(tensor: &Tensor<T>, tile_row: usize, tile_col: usize) -> (res: Vec<
    Array2<T>,
>)
    requires
        tensor.wf(),
        tensor.shape@.len() >= 2,
        tile_row > 0,
        tile_col > 0,
    ensures
        res@.len() == product(tiled_shape(tensor.shape@, tile_row, tile_col)),
        forall|t: int|
            0 <= t < res@.len() ==> tensor.is_tile(tile_row, tile_col, t, #[trigger] res@[t]),
{
    let n: usize = tensor.shape.len();
    let mut window: Vec<usize> = vec![1; n];
    window[n - 2] = tile_row;
    window[n - 1] = tile_col;
    windows(tensor, &window)
}

/// The shape in terms of elements of a grid of tiles.
pub fn untiled_shape(tiled: &Vec<usize>, tile_row: usize, tile_col: usize) -> (res: Vec<usize>)
    requires
        tiled@.len() >= 2,
        tiled@[tiled@.len() - 2] * tile_row <= usize::MAX,
        tiled@[tiled@.len() - 1] * tile_col <= usize::MAX,
    ensures
        res@ == untiled(tiled@, tile_row, tile_col),
{
    let n: usize = tiled.len();
    let mut shape = tiled.clone();
    assert(shape@ =~= tiled@);
    shape[n - 2] = tiled[n - 2] * tile_row;
    shape[n - 1] = tiled[n - 1] * tile_col;
    shape
}

/// The shape in terms of tiles: how many whole tiles fit.
pub fn shape_in_tiles(shape: &Vec<usize>, tile_row: usize, tile_col: usize) -> (res: Vec<usize>)
    requires
        shape@.len() >= 2,
        tile_row > 0,
        tile_col > 0,
    ensures
        res@ == tiled_shape(shape@, tile_row, tile_col),
{
    let n: usize = shape.len();
    let mut tiled = shape.clone();
    assert(tiled@ =~= shape@);
    tiled[n - 2] = shape[n - 2] / tile_row;
    tiled[n - 1] = shape[n - 1] / tile_col;
    tiled
}

/// Counting elements and counting tiles undo each other.
pub proof fn law_tiled_undoes_untiled(tiled: Seq<usize>, tile_row: usize, tile_col: usize)
    requires
        tiled.len() >= 2,
        tile_row > 0,
        tile_col > 0,
        tiled[tiled.len() - 2] * tile_row <= usize::MAX,
        tiled[tiled.len() - 1] * tile_col <= usize::MAX,
    ensures
        tiled_shape(untiled(tiled, tile_row, tile_col), tile_row, tile_col) == tiled,
{
    let n = tiled.len();
    vstd::arithmetic::div_mod::lemma_div_multiples_vanish(tiled[n - 2] as int, tile_row as int);
    vstd::arithmetic::div_mod::lemma_div_multiples_vanish(tiled[n - 1] as int, tile_col as int);
    assert(tiled[n - 2] * tile_row == tile_row * tiled[n - 2]) by (nonlinear_arith);
    assert(tiled[n - 1] * tile_col == tile_col * tiled[n - 1]) by (nonlinear_arith);
    assert(tiled_shape(untiled(tiled, tile_row, tile_col), tile_row, tile_col) =~= tiled);
}

/// Tiles are cut out of the last two dimensions of a tensor: the tile in row
/// `i` and column `j` of the grid of matrix `slab` holds, in row `r` and column
/// `c`, the cell that lies `i` tiles below and `j` tiles beside it.
pub proof fn law_tiles_are_cut_from_grid<T: Copy>(
    tensor: Tensor<T>,
    tile_row: usize,
    tile_col: usize,
    tiles: Vec<Array2<T>>,
    slab: int,
    i: int,
    j: int,
    r: int,
    c: int,
)
    requires
        tensor.shape@.len() >= 2,
        tile_row > 0,
        tile_col > 0,
        call_ensures(tiles_of::<T>, (&tensor, tile_row, tile_col), tiles),
        0 <= slab,
        0 <= i < tensor.shape@[tensor.shape@.len() - 2] as int / tile_row as int,
        0 <= j < tensor.shape@[tensor.shape@.len() - 1] as int / tile_col as int,
        0 <= r < tile_row,
        0 <= c < tile_col,
    ensures
        ({
            let rows = tensor.shape@[tensor.shape@.len() - 2] as int;
            let cols = tensor.shape@[tensor.shape@.len() - 1] as int;
            let t = (slab * (rows / tile_row as int) + i) * (cols / tile_col as int) + j;
            t < tiles@.len() ==> {
                &&& tiles@[t].rows == tile_row
                &&& tiles@[t].cols == tile_col
                &&& tiles@[t].at(r, c) == tensor.data@[(slab * rows + i * tile_row + r) * cols + j
                    * tile_col + c]
            }
        }),
{
    let rows = tensor.shape@[tensor.shape@.len() - 2] as int;
    let cols = tensor.shape@[tensor.shape@.len() - 1] as int;
    let gr = rows / tile_row as int;
    let gc = cols / tile_col as int;
    let row = slab * gr + i;
    let t = row * gc + j;
    assert(row >= 0 && t >= 0) by (nonlinear_arith)
        requires
            row == slab * gr + i,
            t == row * gc + j,
            slab >= 0,
            gr >= 0,
            i >= 0,
            gc >= 0,
            j >= 0,
    ;
    vstd::arithmetic::div_mod::lemma_fundamental_div_mod_converse(t, gc, row, j);
    vstd::arithmetic::div_mod::lemma_fundamental_div_mod_converse(row, gr, slab, i);
    if t < tiles@.len() {
        assert(tensor.is_tile(tile_row, tile_col, t, tiles@[t]));
    }
}

/// The two innermost dimensions of a tensor are counted in tiles, and whole
/// tiles make up whole dimensions; the outer dimensions stay as they are.
pub proof fn law_shape_counts_tiles(
    shape: Vec<usize>,
    tile_row: usize,
    tile_col: usize,
    tiled: Vec<usize>,
    back: Vec<usize>,
    d: int,
)
    requires
        shape@.len() >= 2,
        tile_row > 0,
        tile_col > 0,
        call_ensures(shape_in_tiles, (&shape, tile_row, tile_col), tiled),
        call_ensures(untiled_shape, (&tiled, tile_row, tile_col), back),
        0 <= d < shape@.len(),
    ensures
        tiled@.len() == shape@.len() == back@.len(),
        d < shape@.len() - 2 ==> tiled@[d] == shape@[d] == back@[d],
        d == shape@.len() - 2 ==> tiled@[d] * tile_row <= shape@[d] < (tiled@[d] + 1) * tile_row
            && back@[d] == tiled@[d] * tile_row,
        d == shape@.len() - 1 ==> tiled@[d] * tile_col <= shape@[d] < (tiled@[d] + 1) * tile_col
            && back@[d] == tiled@[d] * tile_col,
{
    let n = shape@.len() as int;
    let a = shape@[n - 2] as int;
    let b = shape@[n - 1] as int;
    let tr = tile_row as int;
    let tc = tile_col as int;
    vstd::arithmetic::div_mod::lemma_fundamental_div_mod(a, tr);
    vstd::arithmetic::div_mod::lemma_fundamental_div_mod(b, tc);
    assert((a / tr) * tr <= a < (a / tr + 1) * tr && 0 <= a / tr <= a) by (nonlinear_arith)
        requires
            a == tr * (a / tr) + a % tr,
            0 <= a % tr < tr,
            a >= 0,
            tr > 0,
    ;
    assert((b / tc) * tc <= b < (b / tc + 1) * tc && 0 <= b / tc <= b) by (nonlinear_arith)
        requires
            b == tc * (b / tc) + b % tc,
            0 <= b % tc < tc,
            b >= 0,
            tc > 0,
    ;
}

} // verus!
