//! Dense two-dimensional arrays in row-major order.

use vstd::prelude::*;

verus! {

/// A dense array of `rows * cols` cells, stored row by row.
#[derive(Debug, PartialEq, Eq)]
pub struct Array2<T> {
    pub rows: usize,
    pub cols: usize,
    pub data: Vec<T>,
}

/// A cell's position in the row-major data lies inside it.
pub proof fn lemma_cell_in_bounds(i: int, j: int, rows: int, cols: int)
    requires
        0 <= i < rows,
        0 <= j < cols,
    ensures
        0 <= i * cols + j < rows * cols,
        i * cols <= rows * cols - cols,
{
    assert(i * cols + j < rows * cols && 0 <= i * cols && i * cols <= rows * cols - cols)
        by (nonlinear_arith)
        requires
            0 <= i < rows,
            0 <= j < cols,
    ;
}

/// A cell of an earlier row lies before the first cell of a later row.
pub proof fn lemma_cell_before_row(a: int, b: int, i: int, cols: int)
    requires
        0 <= a < i,
        0 <= b < cols,
    ensures
        0 <= a * cols + b < i * cols,
{
    lemma_cell_in_bounds(a, b, i, cols);
}

impl<T> Array2<T> {
    /// The data holds one value for each cell.
    pub open spec fn wf(&self) -> bool {
        self.data@.len() == self.rows * self.cols
    }

    /// The value in row `i` and column `j`.
    pub open spec fn at(&self, i: int, j: int) -> T {
        self.data@[i * self.cols + j]
    }

    /// Builds an array from its row-major data; `None` where the length does
    /// not match the shape.
    pub fn from_shape_vec(shape: (usize, usize), data: Vec<T>) -> (res: Option<Array2<T>>)
        ensures
            res is Some <==> shape.0 * shape.1 == data@.len(),
            res matches Some(a) ==> a.wf() && a.rows == shape.0 && a.cols == shape.1 && a.data@
                == data@,
    {
        let len: usize = data.len();
        match shape.0.checked_mul(shape.1) {
            Some(cells) if cells == len => Some(
                Array2 { rows: shape.0, cols: shape.1, data },
            ),
            _ => None,
        }
    }

    /// Builds an array by computing each cell from its row and column.
    pub fn from_shape_fn<F: Fn(usize, usize) -> T>(rows: usize, cols: usize, f: F) -> (res: Array2<
        T,
    >)
        requires
            rows * cols <= usize::MAX,
            forall|i: usize, j: usize|
                i < rows && j < cols ==> #[trigger] call_requires(f, (i, j)),
        ensures
            res.wf(),
            res.rows == rows,
            res.cols == cols,
            forall|i: int, j: int|
                0 <= i < rows && 0 <= j < cols ==> call_ensures(
                    f,
                    (i as usize, j as usize),
                    #[trigger] res.at(i, j),
                ),
    {
        let mut data: Vec<T> = Vec::new();
        let mut i: usize = 0;
        while i < rows
            invariant
                i <= rows,
                data@.len() == i * cols,
                forall|i: usize, j: usize|
                    i < rows && j < cols ==> #[trigger] call_requires(f, (i, j)),
                forall|a: int, b: int|
                    #![trigger data@[a * cols + b]]
                    0 <= a < i && 0 <= b < cols ==> call_ensures(
                        f,
                        (a as usize, b as usize),
                        data@[a * cols + b],
                    ),
            decreases rows - i,
        {
            let mut j: usize = 0;
            while j < cols
                invariant
                    i < rows,
                    j <= cols,
                    data@.len() == i * cols + j,
                    forall|i: usize, j: usize|
                        i < rows && j < cols ==> #[trigger] call_requires(f, (i, j)),
                    forall|a: int, b: int|
                        #![trigger data@[a * cols + b]]
                        0 <= a <= i && 0 <= b < cols && (a < i || b < j) ==> call_ensures(
                            f,
                            (a as usize, b as usize),
                            data@[a * cols + b],
                        ),
                decreases cols - j,
            {
                let x = f(i, j);
                let ghost before = data@;
                data.push(x);
                assert forall|a: int, b: int|
                    #![trigger data@[a * cols + b]]
                    0 <= a <= i && 0 <= b < cols && (a < i || b <= j) implies call_ensures(
                    f,
                    (a as usize, b as usize),
                    data@[a * cols + b],
                ) by {
                    if a < i {
                        lemma_cell_before_row(a, b, i as int, cols as int);
                        assert(data@[a * cols + b] == before[a * cols + b]);
                    } else if b < j {
                        assert(0 <= i * cols) by (nonlinear_arith)
                            requires
                                0 <= i,
                                0 <= cols,
                        ;
                        assert(data@[a * cols + b] == before[a * cols + b]);
                    }
                }
                j = j + 1;
            }
            assert(i * cols + cols == (i + 1) * cols) by (nonlinear_arith);
            i = i + 1;
        }
        Array2 { rows, cols, data }
    }

    /// The value in row `i` and column `j`.
    pub fn get(&self, i: usize, j: usize) -> (res: &T)
        requires
            self.wf(),
            i < self.rows,
            j < self.cols,
        ensures
            *res == self.at(i as int, j as int),
    {
        let len: usize = self.data.len();
        proof {
            lemma_cell_in_bounds(i as int, j as int, self.rows as int, self.cols as int);
            assert(self.rows * self.cols == len);
        }
        &self.data[i * self.cols + j]
    }
}

impl<T: Copy> Array2<T> {
    /// The rows from `start` to before `end`.
    pub fn slice_rows(&self, start: usize, end: usize) -> (res: Array2<T>)
        requires
            self.wf(),
            start <= end <= self.rows,
        ensures
            res.wf(),
            res.rows == end - start,
            res.cols == self.cols,
            forall|i: int, j: int|
                0 <= i < res.rows && 0 <= j < res.cols ==> #[trigger] res.at(i, j) == self.at(
                    start + i,
                    j,
                ),
    {
        let len: usize = self.data.len();
        let rows: usize = end - start;
        proof {
            assert(rows * self.cols <= self.rows * self.cols) by (nonlinear_arith)
                requires
                    0 <= rows <= self.rows,
                    0 <= self.cols,
            ;
        }
        let cell = |i: usize, j: usize| -> (x: T)
            requires
                self.wf(),
                i < rows,
                j < self.cols,
                rows == end - start,
                start <= end <= self.rows,
            ensures
                x == self.at(start + i, j as int),
            {
                *self.get(start + i, j)
            };
        Array2::from_shape_fn(rows, self.cols, cell)
    }

    /// The columns from `start` to before `end`.
    pub fn slice_cols(&self, start: usize, end: usize) -> (res: Array2<T>)
        requires
            self.wf(),
            start <= end <= self.cols,
        ensures
            res.wf(),
            res.rows == self.rows,
            res.cols == end - start,
            forall|i: int, j: int|
                0 <= i < res.rows && 0 <= j < res.cols ==> #[trigger] res.at(i, j) == self.at(
                    i,
                    start + j,
                ),
    {
        let len: usize = self.data.len();
        let cols: usize = end - start;
        proof {
            assert(self.rows * cols <= self.rows * self.cols) by (nonlinear_arith)
                requires
                    0 <= cols <= self.cols,
                    0 <= self.rows,
            ;
        }
        let cell = |i: usize, j: usize| -> (x: T)
            requires
                self.wf(),
                i < self.rows,
                j < cols,
                cols == end - start,
                start <= end <= self.cols,
            ensures
                x == self.at(i as int, start + j),
            {
                *self.get(i, start + j)
            };
        Array2::from_shape_fn(self.rows, cols, cell)
    }

    /// Rows and columns exchanged.
    pub fn transposed(&self) -> (res: Array2<T>)
        requires
            self.wf(),
        ensures
            res.wf(),
            res.rows == self.cols,
            res.cols == self.rows,
            forall|i: int, j: int|
                0 <= i < res.rows && 0 <= j < res.cols ==> #[trigger] res.at(i, j) == self.at(j, i),
    {
        let len: usize = self.data.len();
        assert(self.cols * self.rows == self.rows * self.cols) by (nonlinear_arith);
        let cell = |i: usize, j: usize| -> (x: T)
            requires
                self.wf(),
                i < self.cols,
                j < self.rows,
            ensures
                x == self.at(j as int, i as int),
            {
                *self.get(j, i)
            };
        Array2::from_shape_fn(self.cols, self.rows, cell)
    }

    /// Row `i` as an array of one row.
    pub fn row(&self, i: usize) -> (res: Array2<T>)
        requires
            self.wf(),
            i < self.rows,
        ensures
            res.wf(),
            res.rows == 1,
            res.cols == self.cols,
            forall|j: int|
                0 <= j < res.cols ==> #[trigger] res.at(0, j) == self.at(i as int, j),
    {
        let res = self.slice_rows(i, i + 1);
        assert forall|j: int| 0 <= j < res.cols implies #[trigger] res.at(0, j) == self.at(
            i as int,
            j,
        ) by {
            assert(res.at(0, j) == self.at(i + 0, j));
        }
        res
    }

    /// Column `j` as an array of one row.
    pub fn column_as_row(&self, j: usize) -> (res: Array2<T>)
        requires
            self.wf(),
            j < self.cols,
        ensures
            res.wf(),
            res.rows == 1,
            res.cols == self.rows,
            forall|i: int|
                0 <= i < res.cols ==> #[trigger] res.at(0, i) == self.at(i, j as int),
    {
        let cell = |r: usize, i: usize| -> (x: T)
            requires
                self.wf(),
                i < self.rows,
                j < self.cols,
            ensures
                x == self.at(i as int, j as int),
            {
                *self.get(i, j)
            };
        assert(1 * self.rows == self.rows);
        Array2::from_shape_fn(1, self.rows, cell)
    }
}

/// An array of this shape can be represented: the lengths that are not zero
/// have a product that a signed index can express.
pub open spec fn representable(rows: int, cols: int) -> bool {
    (if rows == 0 {
        1
    } else {
        rows
    }) * (if cols == 0 {
        1
    } else {
        cols
    }) <= isize::MAX
}

/// `joined` is `left` with the columns of `right` after its own.
pub open spec fn is_beside<T>(left: Array2<T>, right: Array2<T>, joined: Array2<T>) -> bool {
    &&& joined.wf()
    &&& joined.rows == left.rows
    &&& joined.cols == left.cols + right.cols
    &&& forall|i: int, j: int|
        0 <= i < joined.rows && 0 <= j < joined.cols ==> #[trigger] joined.at(i, j) == if j
            < left.cols {
            left.at(i, j)
        } else {
            right.at(i, j - left.cols)
        }
}

/// `joined` is `top` with the rows of `bottom` below its own.
pub open spec fn is_above<T>(top: Array2<T>, bottom: Array2<T>, joined: Array2<T>) -> bool {
    &&& joined.wf()
    &&& joined.rows == top.rows + bottom.rows
    &&& joined.cols == top.cols
    &&& forall|i: int, j: int|
        0 <= i < joined.rows && 0 <= j < joined.cols ==> #[trigger] joined.at(i, j) == if i
            < top.rows {
            top.at(i, j)
        } else {
            bottom.at(i - top.rows, j)
        }
}

/// Joins two arrays along an axis: the second below the first along axis zero,
/// beside it along axis one.
///
/// Calls `ndarray::concatenate`. Claims that the result has the cells of both
/// arrays, each in its place. The shapes have to agree on the other axis, and
/// the arrays and the result have to be small enough for `ndarray`.
#[verifier::external_body]
pub(crate) fn concatenate<T: Copy>(axis: usize, first: &Array2<T>, second: &Array2<T>) -> (res:
    Array2<T>)
    requires
        first.wf(),
        second.wf(),
        axis < 2,
        axis == 0 ==> first.cols == second.cols && representable(
            first.rows + second.rows,
            first.cols as int,
        ),
        axis == 1 ==> first.rows == second.rows && representable(
            first.rows as int,
            first.cols + second.cols,
        ),
    ensures
        axis == 0 ==> is_above(*first, *second, res),
        axis == 1 ==> is_beside(*first, *second, res),
{
    let a = ndarray::ArrayView2::from_shape((first.rows, first.cols), &first.data).unwrap();
    let b = ndarray::ArrayView2::from_shape((second.rows, second.cols), &second.data).unwrap();
    let joined = ndarray::concatenate(ndarray::Axis(axis), &[a, b]).unwrap();
    let (rows, cols) = joined.dim();
    Array2 { rows, cols, data: joined.iter().copied().collect() }
}

/// The sum of the first `n` products of row `i` of `a` and column `j` of `b`.
pub open spec fn dot_sum(a: Array2<u64>, b: Array2<u64>, i: int, j: int, n: int) -> int
    decreases n,
{
    if n <= 0 {
        0
    } else {
        dot_sum(a, b, i, j, n - 1) + a.at(i, n - 1) * b.at(n - 1, j)
    }
}

/// The product of two matrices.
///
/// Calls `dot` of `ndarray`. Claims that every cell of the result is the sum
/// of the products of a row of the first and a column of the second matrix.
/// The matrices have to agree in their inner extent, no cell may exceed 64
/// bits, and the matrices and the result have to be small enough for
/// `ndarray`.
#[verifier::external_body]
pub(crate) fn dot(a: &Array2<u64>, b: &Array2<u64>) -> (res: Array2<u64>)
    requires
        a.wf(),
        b.wf(),
        a.cols == b.rows,
        representable(a.rows as int, a.cols as int),
        representable(b.rows as int, b.cols as int),
        representable(a.rows as int, b.cols as int),
        forall|i: int, j: int|
            0 <= i < a.rows && 0 <= j < b.cols ==> #[trigger] dot_sum(
                *a,
                *b,
                i,
                j,
                a.cols as int,
            ) <= u64::MAX,
    ensures
        res.wf(),
        res.rows == a.rows,
        res.cols == b.cols,
        forall|i: int, j: int|
            0 <= i < res.rows && 0 <= j < res.cols ==> #[trigger] res.at(i, j) == dot_sum(
                *a,
                *b,
                i,
                j,
                a.cols as int,
            ),
{
    let left = ndarray::ArrayView2::from_shape((a.rows, a.cols), &a.data).unwrap();
    let right = ndarray::ArrayView2::from_shape((b.rows, b.cols), &b.data).unwrap();
    let product = left.dot(&right);
    Array2 { rows: a.rows, cols: b.cols, data: product.iter().copied().collect() }
}

/// The sum of the first `n` cells of row `i`.
pub open spec fn row_sum(a: Array2<u64>, i: int, n: int) -> int
    decreases n,
{
    if n <= 0 {
        0
    } else {
        row_sum(a, i, n - 1) + a.at(i, n - 1)
    }
}

/// The sums of the rows of an array.
///
/// Calls `sum_axis` of `ndarray` along the second axis. Claims that the
/// results are the sums of the rows. No sum may exceed 64 bits, and the array
/// has to be small enough for `ndarray`.
#[verifier::external_body]
pub(crate) fn sum_rows(a: &Array2<u64>) -> (res: Vec<u64>)
    requires
        a.wf(),
        representable(a.rows as int, a.cols as int),
        forall|i: int| 0 <= i < a.rows ==> #[trigger] row_sum(*a, i, a.cols as int) <= u64::MAX,
    ensures
        res@.len() == a.rows,
        forall|i: int|
            0 <= i < a.rows ==> #[trigger] res@[i] == row_sum(*a, i, a.cols as int),
{
    let array = ndarray::ArrayView2::from_shape((a.rows, a.cols), &a.data).unwrap();
    array.sum_axis(ndarray::Axis(1)).to_vec()
}

/// Every position of the row-major data is a cell.
pub proof fn lemma_cell_of_position(k: int, rows: int, cols: int)
    requires
        0 <= k < rows * cols,
        0 <= cols,
        0 <= rows,
    ensures
        cols > 0,
        0 <= k / cols < rows,
        0 <= k % cols < cols,
        k == (k / cols) * cols + k % cols,
{
    assert(cols != 0) by (nonlinear_arith)
        requires
            0 <= k < rows * cols,
    ;
    vstd::arithmetic::div_mod::lemma_fundamental_div_mod(k, cols);
    assert(0 <= k / cols < rows && k == (k / cols) * cols + k % cols) by (nonlinear_arith)
        requires
            0 <= k < rows * cols,
            0 < cols,
            k == cols * (k / cols) + k % cols,
            0 <= k % cols < cols,
    ;
}

/// Turning an array swaps its rows and columns, and turning it twice gives it
/// back.
pub proof fn law_turning_twice_restores<T: Copy>(
    array: Array2<T>,
    turned: Array2<T>,
    back: Array2<T>,
    i: int,
    j: int,
)
    requires
        call_ensures(Array2::<T>::transposed, (&array,), turned),
        call_ensures(Array2::<T>::transposed, (&turned,), back),
        0 <= i < array.rows,
        0 <= j < array.cols,
    ensures
        turned.rows == array.cols && turned.cols == array.rows,
        turned.at(j, i) == array.at(i, j),
        back.rows == array.rows && back.cols == array.cols,
        back.at(i, j) == array.at(i, j),
{
}

/// A stretch of rows or columns of an array holds the cells from its start on.
pub proof fn law_slice_holds_stretch<T: Copy>(
    array: Array2<T>,
    start: usize,
    end: usize,
    rows: Array2<T>,
    cols: Array2<T>,
    i: int,
    j: int,
)
    requires
        start <= end,
        call_ensures(Array2::<T>::slice_rows, (&array, start, end), rows),
        call_ensures(Array2::<T>::slice_cols, (&array, start, end), cols),
        0 <= i,
        0 <= j,
    ensures
        rows.rows == end - start && rows.cols == array.cols,
        cols.cols == end - start && cols.rows == array.rows,
        i < rows.rows && j < rows.cols ==> rows.at(i, j) == array.at(start + i, j),
        i < cols.rows && j < cols.cols ==> cols.at(i, j) == array.at(i, start + j),
{
}

} // verus!
