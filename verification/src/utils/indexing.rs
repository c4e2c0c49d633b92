//! Row-major walks over shapes and strided views.

use vstd::arithmetic::div_mod::{lemma_fundamental_div_mod, lemma_fundamental_div_mod_converse};
use vstd::prelude::*;

verus! {

/// The number of positions of a shape.
pub open spec fn product(shape: Seq<usize>) -> int
    decreases shape.len(),
{
    if shape.len() == 0 {
        1
    } else {
        product(shape.drop_last()) * shape.last()
    }
}

/// The number of positions can be computed from the outermost dimension on.
pub open spec fn product_fits(shape: Seq<usize>) -> bool {
    forall|k: int| 0 <= k <= shape.len() ==> #[trigger] product(shape.take(k)) <= usize::MAX
}

/// What the walk over a view reads at its `flat`-th step: the sum over the
/// dimensions of the coordinate times the stride.
pub open spec fn view_index(shape: Seq<usize>, stride: Seq<usize>, flat: int) -> int
    decreases shape.len(),
{
    if shape.len() == 0 {
        0
    } else {
        view_index(shape.drop_last(), stride.drop_last(), flat / shape.last() as int) + (flat
            % shape.last() as int) * stride.last()
    }
}

/// How many of the innermost dimensions end with the `flat`-th step of a walk.
pub open spec fn stop_level(shape: Seq<usize>, flat: int) -> int
    decreases shape.len(),
{
    if shape.len() > 0 && flat % shape.last() as int == shape.last() - 1 {
        1 + stop_level(shape.drop_last(), flat / shape.last() as int)
    } else {
        0
    }
}

/// No dimension is empty.
pub open spec fn positive(shape: Seq<usize>) -> bool {
    forall|i: int| 0 <= i < shape.len() ==> #[trigger] shape[i] > 0
}

pub proof fn lemma_product_nonneg(shape: Seq<usize>)
    ensures
        product(shape) >= 0,
        product(shape) > 0 <==> positive(shape),
    decreases shape.len(),
{
    if shape.len() > 0 {
        lemma_product_nonneg(shape.drop_last());
        let outer = product(shape.drop_last());
        assert(outer * shape.last() >= 0 && (outer * shape.last() > 0 <==> outer > 0
            && shape.last() > 0)) by (nonlinear_arith)
            requires
                outer >= 0,
                shape.last() >= 0,
        ;
        if positive(shape) {
            assert forall|i: int| 0 <= i < shape.len() - 1 implies #[trigger] shape.drop_last()[i]
                > 0 by {
                assert(shape[i] > 0);
            }
            assert(shape[shape.len() - 1] > 0);
        }
        if product(shape) > 0 {
            assert forall|i: int| 0 <= i < shape.len() implies #[trigger] shape[i] > 0 by {
                if i < shape.len() - 1 {
                    assert(shape.drop_last()[i] > 0);
                }
            }
        }
    }
}

pub proof fn lemma_view_index_nonneg(shape: Seq<usize>, stride: Seq<usize>, flat: int)
    requires
        shape.len() == stride.len(),
        positive(shape),
        flat >= 0,
    ensures
        view_index(shape, stride, flat) >= 0,
    decreases shape.len(),
{
    if shape.len() > 0 {
        let last = shape.last() as int;
        assert(shape[shape.len() - 1] > 0);
        lemma_fundamental_div_mod(flat, last);
        assert(flat / last >= 0) by (nonlinear_arith)
            requires
                flat >= 0,
                last > 0,
        ;
        assert forall|i: int| 0 <= i < shape.len() - 1 implies #[trigger] shape.drop_last()[i]
            > 0 by {
            assert(shape[i] > 0);
        }
        lemma_view_index_nonneg(shape.drop_last(), stride.drop_last(), flat / last);
        assert((flat % last) * stride.last() >= 0) by (nonlinear_arith)
            requires
                flat % last >= 0,
                stride.last() >= 0,
        ;
    }
}

pub proof fn lemma_stop_level_bound(shape: Seq<usize>, flat: int)
    ensures
        0 <= stop_level(shape, flat) <= shape.len(),
    decreases shape.len(),
{
    if shape.len() > 0 {
        lemma_stop_level_bound(shape.drop_last(), flat / shape.last() as int);
    }
}

/// A step ends the `k` innermost dimensions exactly when the number of steps
/// so far is a multiple of the number of positions in those dimensions.
pub proof fn law_stop_level(shape: Seq<usize>, flat: int, k: int)
    requires
        positive(shape),
        flat >= 0,
        0 <= k <= shape.len(),
    ensures
        stop_level(shape, flat) >= k <==> (flat + 1) % product(shape.skip(shape.len() - k)) == 0,
    decreases shape.len(),
{
    let inner = shape.skip(shape.len() - k);
    assert(positive(inner)) by {
        assert forall|i: int| 0 <= i < inner.len() implies #[trigger] inner[i] > 0 by {
            assert(shape[shape.len() - k + i] > 0);
        }
    }
    lemma_product_nonneg(inner);
    lemma_stop_level_bound(shape, flat);
    if k > 0 {
        let last = shape.last() as int;
        let outer = shape.drop_last();
        assert(shape[shape.len() - 1] > 0);
        assert forall|i: int| 0 <= i < outer.len() implies #[trigger] outer[i] > 0 by {
            assert(shape[i] > 0);
        }
        assert(flat / last >= 0) by (nonlinear_arith)
            requires
                flat >= 0,
                last > 0,
        ;
        law_stop_level(outer, flat / last, k - 1);
        assert(inner.drop_last() =~= outer.skip(outer.len() - (k - 1)));
        let p = product(inner.drop_last());
        assert(positive(inner.drop_last())) by {
            assert forall|i: int| 0 <= i < inner.len() - 1 implies #[trigger] inner.drop_last()[i]
                > 0 by {
                assert(inner[i] > 0);
            }
        }
        lemma_product_nonneg(inner.drop_last());
        assert(product(inner) == p * last);
        lemma_fundamental_div_mod(flat, last);
        let q = flat / last;
        let r = flat % last;
        assert(p * last == last * p) by (nonlinear_arith);
        if r == last - 1 {
            assert(flat + 1 == last * (q + 1)) by (nonlinear_arith)
                requires
                    flat == last * q + r,
                    r == last - 1,
            ;
            vstd::arithmetic::div_mod::lemma_truncate_middle(q + 1, last, p);
            assert((last * (q + 1)) % (last * p) == last * ((q + 1) % p));
            assert(last * ((q + 1) % p) == 0 <==> (q + 1) % p == 0) by (nonlinear_arith)
                requires
                    last > 0,
            ;
        } else {
            assert(stop_level(shape, flat) == 0);
            if (flat + 1) % (p * last) == 0 {
                lemma_fundamental_div_mod(flat + 1, p * last);
                let m = (flat + 1) / (p * last);
                assert((p * m) * last == (p * last) * m) by (nonlinear_arith);
                assert(flat + 1 == last * q + (r + 1));
                lemma_fundamental_div_mod_converse(flat + 1, last, q, r + 1);
                lemma_fundamental_div_mod_converse(flat + 1, last, p * m, 0);
                assert(false);
            }
        }
    } else {
        assert(inner.len() == 0);
        assert(product(inner) == 1);
    }
}

/// The last step of a walk ends every dimension.
pub proof fn law_last_step_ends_all(shape: Seq<usize>)
    requires
        positive(shape),
    ensures
        stop_level(shape, product(shape) - 1) == shape.len(),
{
    lemma_product_nonneg(shape);
    law_stop_level(shape, product(shape) - 1, shape.len() as int);
    lemma_stop_level_bound(shape, product(shape) - 1);
    assert(shape.skip(0) =~= shape);
    vstd::arithmetic::div_mod::lemma_mod_self_0(product(shape));
}

/// The stride of dimension `d` in a row-major walk: the number of positions in
/// the dimensions inside it.
pub open spec fn row_major_stride(shape: Seq<usize>, d: int) -> int {
    product(shape.skip(d + 1))
}

/// A view with the strides of a row-major walk reads position `k` at its
/// `k`-th step.
pub proof fn law_row_major_stride(shape: Seq<usize>, stride: Seq<usize>, k: int)
    requires
        shape.len() == stride.len(),
        forall|d: int|
            0 <= d < stride.len() ==> #[trigger] stride[d] == row_major_stride(shape, d),
        0 <= k < product(shape),
    ensures
        view_index(shape, stride, k) == k,
{
    lemma_scaled_walk(shape, stride, k, 1);
}

/// A walk whose strides are those of a row-major walk times a factor reads
/// multiples of that factor.
proof fn lemma_scaled_walk(shape: Seq<usize>, stride: Seq<usize>, k: int, factor: int)
    requires
        shape.len() == stride.len(),
        factor >= 0,
        forall|d: int|
            0 <= d < stride.len() ==> #[trigger] stride[d] == row_major_stride(shape, d) * factor,
        0 <= k < product(shape),
    ensures
        view_index(shape, stride, k) == k * factor,
    decreases shape.len(),
{
    if shape.len() > 0 {
        let n = shape.len();
        let last = shape.last() as int;
        let outer = shape.drop_last();
        lemma_product_nonneg(shape);
        lemma_product_nonneg(outer);
        assert(shape[n - 1] > 0);
        lemma_fundamental_div_mod(k, last);
        let q = k / last;
        assert(0 <= q < product(outer)) by (nonlinear_arith)
            requires
                k == last * q + k % last,
                0 <= k % last < last,
                0 <= k < product(outer) * last,
        ;
        assert forall|d: int| 0 <= d < outer.len() implies #[trigger] stride.drop_last()[d]
            == row_major_stride(outer, d) * (last * factor) by {
            assert(stride[d] == row_major_stride(shape, d) * factor);
            assert(shape.skip(d + 1).drop_last() =~= outer.skip(d + 1));
            assert(shape.skip(d + 1).last() == last);
            let p = product(outer.skip(d + 1));
            assert((p * last) * factor == p * (last * factor)) by (nonlinear_arith);
        }
        assert(last * factor >= 0) by (nonlinear_arith)
            requires
                last > 0,
                factor >= 0,
        ;
        lemma_scaled_walk(outer, stride.drop_last(), q, last * factor);
        assert(stride[n - 1] == row_major_stride(shape, n - 1) * factor);
        assert(shape.skip(n as int).len() == 0);
        assert(product(shape.skip(n as int)) == 1);
        assert(q * (last * factor) + (k % last) * factor == k * factor) by (nonlinear_arith)
            requires
                k == last * q + k % last,
        ;
    } else {
        assert(product(shape) == 1);
        assert(k * factor == 0) by (nonlinear_arith)
            requires
                k == 0,
        ;
    }
}

/// The number of positions of a shape.
pub fn count_positions(shape: &Vec<usize>) -> (res: usize)
    requires
        product_fits(shape@),
    ensures
        res == product(shape@),
{
    let mut total: usize = 1;
    let mut i: usize = 0;
    while i < shape.len()
        invariant
            i <= shape@.len(),
            product_fits(shape@),
            total == product(shape@.take(i as int)),
        decreases shape@.len() - i,
    {
        proof {
            let next = shape@.take(i + 1);
            assert(next.drop_last() =~= shape@.take(i as int));
            assert(product(next) <= usize::MAX);
            lemma_product_nonneg(next);
        }
        total = total * shape[i];
        i = i + 1;
    }
    assert(shape@.take(i as int) =~= shape@);
    total
}

/// The index that a view reads at its `flat`-th step, and the stop level of
/// that step.
pub fn locate(shape: &Vec<usize>, stride: &Vec<usize>, flat: usize) -> (res: (usize, u32))
    requires
        shape@.len() == stride@.len(),
        shape@.len() <= u32::MAX,
        positive(shape@),
        view_index(shape@, stride@, flat as int) <= usize::MAX,
    ensures
        res.0 == view_index(shape@, stride@, flat as int),
        res.1 == stop_level(shape@, flat as int),
{
    let mut remaining: usize = flat;
    let mut index: usize = 0;
    let mut stop: u32 = 0;
    let mut at_end = true;
    let mut i: usize = shape.len();
    assert(shape@.take(i as int) =~= shape@);
    assert(stride@.take(i as int) =~= stride@);
    while i > 0
        invariant
            i <= shape@.len(),
            shape@.len() == stride@.len(),
            shape@.len() <= u32::MAX,
            positive(shape@),
            view_index(shape@, stride@, flat as int) <= usize::MAX,
            index + view_index(shape@.take(i as int), stride@.take(i as int), remaining as int)
                == view_index(shape@, stride@, flat as int),
            at_end ==> stop == shape@.len() - i && stop_level(shape@, flat as int) == stop
                + stop_level(shape@.take(i as int), remaining as int),
            !at_end ==> stop_level(shape@, flat as int) == stop,
        decreases i,
    {
        i = i - 1;
        let extent: usize = shape[i];
        let coordinate: usize = remaining % extent;
        proof {
            let s = shape@.take(i + 1);
            let t = stride@.take(i + 1);
            assert(s.drop_last() =~= shape@.take(i as int));
            assert(t.drop_last() =~= stride@.take(i as int));
            assert(positive(shape@.take(i as int)));
            assert(remaining as int / extent as int >= 0) by (nonlinear_arith)
                requires
                    remaining >= 0,
                    extent > 0,
            ;
            lemma_view_index_nonneg(
                shape@.take(i as int),
                stride@.take(i as int),
                remaining as int / extent as int,
            );
            assert(coordinate * stride@[i as int] >= 0) by (nonlinear_arith)
                requires
                    coordinate >= 0,
                    stride@[i as int] >= 0,
            ;
        }
        index = index + coordinate * stride[i];
        if at_end {
            if coordinate == extent - 1 {
                stop = stop + 1;
            } else {
                at_end = false;
            }
        }
        remaining = remaining / extent;
    }
    (index, stop)
}

/// The stop level of the `flat`-th step of a walk over a shape.
pub fn stop_level_at(shape: &Vec<usize>, flat: usize) -> (res: u32)
    requires
        shape@.len() <= u32::MAX,
        positive(shape@),
    ensures
        res == stop_level(shape@, flat as int),
{
    let mut remaining: usize = flat;
    let mut stop: u32 = 0;
    let mut i: usize = shape.len();
    assert(shape@.take(i as int) =~= shape@);
    while i > 0
        invariant
            i <= shape@.len(),
            shape@.len() <= u32::MAX,
            positive(shape@),
            stop == shape@.len() - i,
            stop_level(shape@, flat as int) == stop + stop_level(
                shape@.take(i as int),
                remaining as int,
            ),
        decreases i,
    {
        i = i - 1;
        assert(shape@.take(i + 1).drop_last() =~= shape@.take(i as int));
        let extent: usize = shape[i];
        if remaining % extent != extent - 1 {
            return stop;
        }
        stop = stop + 1;
        remaining = remaining / extent;
    }
    stop
}

/// A view reads at every step the sum of its coordinates times the strides:
/// step `i` of the innermost dimension lies `i` strides behind the start of
/// that dimension, which the outer dimensions decide.
pub proof fn law_view_adds_strides(
    shape: Seq<usize>,
    stride: Seq<usize>,
    n: usize,
    s: usize,
    k: int,
    i: int,
)
    requires
        shape.len() == stride.len(),
        0 <= i < n,
    ensures
        view_index(shape.push(n), stride.push(s), k * n + i) == view_index(shape, stride, k) + i
            * s,
        view_index(Seq::empty(), Seq::empty(), k) == 0,
{
    assert(shape.push(n).drop_last() =~= shape);
    assert(stride.push(s).drop_last() =~= stride);
    lemma_fundamental_div_mod_converse(k * n + i, n as int, k, i);
}

} // verus!
