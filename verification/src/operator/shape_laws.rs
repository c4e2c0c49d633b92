//! What the operators on shapes make of the stream of a whole tensor.

use vstd::arithmetic::div_mod::{lemma_fundamental_div_mod, lemma_fundamental_div_mod_converse};
use vstd::prelude::*;

use crate::memory::metadata_gen::canonical_stream;
use crate::operator::accum::{ends_reduction, reduced};
use crate::operator::flatten::Flatten;
use crate::operator::promote::Promote;
use crate::operator::repeat::RepeatStatic;
use crate::operator::reshape::Reshape;
use crate::primitives::elem::{packed, StopType};
use crate::utils::indexing::{
    law_stop_level, lemma_product_nonneg, lemma_stop_level_bound, positive, product, stop_level,
};

verus! {

/// The positions of a block are those of its outer dimensions times those of
/// its inner ones.
proof fn lemma_product_concat(outer: Seq<usize>, inner: Seq<usize>)
    ensures
        product(outer + inner) == product(outer) * product(inner),
    decreases inner.len(),
{
    if inner.len() == 0 {
        assert(outer + inner =~= outer);
        assert(product(outer) * 1 == product(outer));
    } else {
        lemma_product_concat(outer, inner.drop_last());
        assert((outer + inner).drop_last() =~= outer + inner.drop_last());
        let a = product(outer);
        let b = product(inner.drop_last());
        let c = inner.last() as int;
        assert((a * b) * c == a * (b * c)) by (nonlinear_arith);
    }
}

/// A part of a shape without empty dimensions has none.
proof fn lemma_positive_parts(shape: Seq<usize>, low: int, high: int)
    requires
        positive(shape),
        0 <= low <= high <= shape.len(),
    ensures
        positive(shape.subrange(low, high)),
        product(shape.subrange(low, high)) > 0,
{
    let part = shape.subrange(low, high);
    assert forall|i: int| 0 <= i < part.len() implies #[trigger] part[i] > 0 by {
        assert(shape[low + i] > 0);
    }
    lemma_product_nonneg(part);
}

/// The shape with the dimensions of ranks `min` to `max` merged into one.
pub open spec fn merged_shape(shape: Seq<usize>, min: int, max: int) -> Seq<usize> {
    let n = shape.len();
    shape.take(n - 1 - max) + seq![product(shape.subrange(n - 1 - max, n - min)) as usize]
        + shape.skip(n - min)
}

/// Merging dimensions of a tensor: the stream of the tensor becomes the stream
/// of the tensor with these dimensions merged.
pub proof fn law_flatten_merges_dimensions<T>(flatten: Flatten, shape: Seq<usize>, data: Seq<T>)
    requires
        flatten.wf(),
        positive(shape),
        flatten.max_rank < shape.len() <= StopType::MAX,
        product(shape) <= usize::MAX,
    ensures
        flatten.output(canonical_stream(shape, data)) == canonical_stream(
            merged_shape(shape, flatten.min_rank as int, flatten.max_rank as int),
            data,
        ),
{
    let min = flatten.min_rank as int;
    let max = flatten.max_rank as int;
    let merged = merged_shape(shape, min, max);
    let out = flatten.output(canonical_stream(shape, data));
    let want = canonical_stream(merged, data);
    assert forall|k: int| 0 <= k < data.len() implies out[k] == want[k] by {
        lemma_merged_level(shape, min, max, k);
        lemma_stop_level_bound(shape, k);
        lemma_stop_level_bound(merged, k);
        let level = stop_level(shape, k);
        assert(canonical_stream(shape, data)[k] == packed(data[k], level as StopType));
        assert(stop_level(merged, k) == flatten.flattened_level(level));
    }
    assert(out =~= want);
}

/// The merged shape has no empty dimension.
proof fn lemma_merged_positive(shape: Seq<usize>, min: int, max: int)
    requires
        positive(shape),
        0 <= min < max < shape.len(),
        product(shape) <= usize::MAX,
    ensures
        positive(merged_shape(shape, min, max)),
        merged_shape(shape, min, max).len() == shape.len() - (max - min),
        product(shape.subrange(shape.len() - 1 - max, shape.len() - min)) <= usize::MAX,
{
    let n = shape.len() as int;
    let merged = merged_shape(shape, min, max);
    lemma_positive_parts(shape, n - 1 - max, n - min);
    lemma_middle_fits(shape, n - 1 - max, n - min);
    assert forall|i: int| 0 <= i < merged.len() implies #[trigger] merged[i] > 0 by {
        if i < n - 1 - max {
            assert(merged[i] == shape[i]);
        } else if i > n - 1 - max {
            assert(merged[i] == shape[i + (max - min)]);
        }
    }
}

/// The dimensions below the merged ones end as before.
proof fn lemma_merged_below(shape: Seq<usize>, min: int, max: int, k: int, j: int)
    requires
        positive(shape),
        0 <= min < max < shape.len(),
        product(shape) <= usize::MAX,
        k >= 0,
        0 <= j <= min,
    ensures
        stop_level(merged_shape(shape, min, max), k) >= j <==> stop_level(shape, k) >= j,
{
    let merged = merged_shape(shape, min, max);
    lemma_merged_positive(shape, min, max);
    law_stop_level(shape, k, j);
    law_stop_level(merged, k, j);
    assert(merged.skip(merged.len() - j) =~= shape.skip(shape.len() - j));
}

/// The merged dimension, and those above it, end with all that they hold.
proof fn lemma_merged_above(shape: Seq<usize>, min: int, max: int, k: int, j: int)
    requires
        positive(shape),
        0 <= min < max < shape.len(),
        product(shape) <= usize::MAX,
        k >= 0,
        min < j <= shape.len() - (max - min),
    ensures
        stop_level(merged_shape(shape, min, max), k) >= j <==> stop_level(shape, k) >= j + (max
            - min),
{
    let n = shape.len() as int;
    let d = max - min;
    let merged = merged_shape(shape, min, max);
    lemma_merged_positive(shape, min, max);
    law_stop_level(shape, k, j + d);
    law_stop_level(merged, k, j);
    let middle = shape.subrange(n - 1 - max, n - min);
    let inner = shape.skip(n - min);
    let rest = shape.subrange(n - (j + d), n - 1 - max);
    let one: Seq<usize> = seq![product(middle) as usize];
    assert(merged.skip(n - d - j) =~= rest + one + inner);
    assert(shape.skip(n - (j + d)) =~= rest + middle + inner);
    lemma_product_concat(rest + one, inner);
    lemma_product_concat(rest, one);
    lemma_product_concat(rest + middle, inner);
    lemma_product_concat(rest, middle);
    lemma_product_single(one[0]);
    lemma_positive_parts(shape, n - 1 - max, n - min);
}

/// What remains of the level that ends at a step when dimensions are merged.
proof fn lemma_merged_level(shape: Seq<usize>, min: int, max: int, k: int)
    requires
        positive(shape),
        0 <= min < max < shape.len(),
        product(shape) <= usize::MAX,
        k >= 0,
    ensures
        stop_level(merged_shape(shape, min, max), k) == (if stop_level(shape, k) <= min {
            stop_level(shape, k)
        } else if stop_level(shape, k) <= max {
            min
        } else {
            stop_level(shape, k) - (max - min)
        }),
{
    let n = shape.len() as int;
    let d = max - min;
    let merged = merged_shape(shape, min, max);
    lemma_merged_positive(shape, min, max);
    lemma_stop_level_bound(shape, k);
    lemma_stop_level_bound(merged, k);
    let level = stop_level(shape, k);
    if level <= max {
        lemma_merged_above(shape, min, max, k, min + 1);
        if level < min {
            lemma_merged_below(shape, min, max, k, level);
            lemma_merged_below(shape, min, max, k, level + 1);
        } else {
            lemma_merged_below(shape, min, max, k, min);
        }
    } else {
        lemma_merged_above(shape, min, max, k, level - d);
        if level < n {
            lemma_merged_above(shape, min, max, k, level - d + 1);
        }
    }
}

/// The positions of one dimension.
proof fn lemma_product_single(extent: usize)
    ensures
        product(seq![extent]) == extent,
{
    let one: Seq<usize> = seq![extent];
    assert(one.drop_last() =~= Seq::<usize>::empty());
    assert(product(one.drop_last()) == 1);
    assert(1 * extent == extent);
}

/// A part of a shape has no more positions than the whole.
proof fn lemma_middle_fits(shape: Seq<usize>, low: int, high: int)
    requires
        positive(shape),
        0 <= low <= high <= shape.len(),
    ensures
        product(shape.subrange(low, high)) <= product(shape),
{
    let outer = shape.subrange(0, low);
    let middle = shape.subrange(low, high);
    let inner = shape.subrange(high, shape.len() as int);
    assert(shape =~= outer + middle + inner);
    lemma_product_concat(outer + middle, inner);
    lemma_product_concat(outer, middle);
    lemma_positive_parts(shape, 0, low);
    lemma_positive_parts(shape, low, high);
    lemma_positive_parts(shape, high, shape.len() as int);
    let a = product(outer);
    let b = product(middle);
    let c = product(inner);
    assert(b <= a * b * c) by (nonlinear_arith)
        requires
            a >= 1,
            b >= 1,
            c >= 1,
    ;
}

/// `split` has one dimension more than `shape`, of extent `chunk` at `rank`,
/// and as many positions in the dimensions above.
pub open spec fn is_split_at(shape: Seq<usize>, rank: int, chunk: int, split: Seq<usize>) -> bool {
    let n = shape.len() as int;
    &&& positive(split)
    &&& split.len() == n + 1
    &&& split.skip(n + 1 - rank) == shape.skip(n - rank)
    &&& product(split.skip(n - rank)) == product(shape.skip(n - rank)) * chunk
    &&& forall|j: int|
        rank < j <= n ==> product(#[trigger] split.skip(n - j)) == product(shape.skip(n - j))
}

/// The dimensions below the added one end as before.
proof fn lemma_split_below(shape: Seq<usize>, rank: int, chunk: int, split: Seq<usize>, k: int, j: int)
    requires
        positive(shape),
        0 <= j <= rank <= shape.len(),
        is_split_at(shape, rank, chunk, split),
        k >= 0,
    ensures
        stop_level(split, k) >= j <==> stop_level(shape, k) >= j,
{
    let n = shape.len() as int;
    law_stop_level(shape, k, j);
    law_stop_level(split, k, j);
    assert(split.skip(n + 1 - j) =~= split.skip(n + 1 - rank).skip(rank - j));
    assert(shape.skip(n - j) =~= shape.skip(n - rank).skip(rank - j));
}

/// The dimensions above the added one end as before, one level higher.
proof fn lemma_split_above(shape: Seq<usize>, rank: int, chunk: int, split: Seq<usize>, k: int, j: int)
    requires
        positive(shape),
        0 <= rank < j <= shape.len(),
        is_split_at(shape, rank, chunk, split),
        k >= 0,
    ensures
        stop_level(split, k) >= j + 1 <==> stop_level(shape, k) >= j,
{
    let n = shape.len() as int;
    law_stop_level(shape, k, j);
    law_stop_level(split, k, j + 1);
    assert(product(split.skip(n - j)) == product(shape.skip(n - j)));
}

/// The level that ends at a step when a dimension is added.
proof fn lemma_split_level(shape: Seq<usize>, rank: int, chunk: int, split: Seq<usize>, k: int)
    requires
        positive(shape),
        0 <= rank <= shape.len(),
        is_split_at(shape, rank, chunk, split),
        k >= 0,
    ensures
        stop_level(split, k) == (if stop_level(shape, k) < rank {
            stop_level(shape, k)
        } else if stop_level(shape, k) > rank || (k + 1) % (product(
            shape.skip(shape.len() - rank),
        ) * chunk) == 0 {
            stop_level(shape, k) + 1
        } else {
            rank
        }),
{
    let n = shape.len() as int;
    let level = stop_level(shape, k);
    law_stop_level(split, k, rank + 1);
    lemma_stop_level_bound(shape, k);
    lemma_stop_level_bound(split, k);
    if level < rank {
        lemma_split_below(shape, rank, chunk, split, k, level);
        lemma_split_below(shape, rank, chunk, split, k, level + 1);
    } else {
        lemma_split_below(shape, rank, chunk, split, k, rank);
        if level > rank {
            lemma_split_above(shape, rank, chunk, split, k, level);
        }
        if level < n {
            lemma_split_above(shape, rank, chunk, split, k, level + 1);
        }
    }
}

/// The shape with a dimension of size one inserted at a rank.
pub open spec fn promoted_shape(shape: Seq<usize>, rank: int) -> Seq<usize> {
    shape.take(shape.len() - rank) + seq![1usize] + shape.skip(shape.len() - rank)
}

/// Inserting a dimension of size one: the stream of a tensor becomes the
/// stream of the tensor with this dimension.
pub proof fn law_promote_inserts_dimension<T>(promote: Promote, shape: Seq<usize>, data: Seq<T>)
    requires
        positive(shape),
        promote.promote_rank <= shape.len() < StopType::MAX,
    ensures
        promote.output(canonical_stream(shape, data)) == canonical_stream(
            promoted_shape(shape, promote.promote_rank as int),
            data,
        ),
{
    let n = shape.len() as int;
    let rank = promote.promote_rank as int;
    let promoted = promoted_shape(shape, rank);
    let inner = shape.skip(n - rank);
    let one: Seq<usize> = seq![1];
    assert(is_split_at(shape, rank, 1, promoted)) by {
        assert forall|i: int| 0 <= i < promoted.len() implies #[trigger] promoted[i] > 0 by {
            if i < n - rank {
                assert(promoted[i] == shape[i]);
            } else if i > n - rank {
                assert(promoted[i] == shape[i - 1]);
            }
        }
        assert(promoted.skip(n + 1 - rank) =~= inner);
        assert(promoted.skip(n - rank) =~= one + inner);
        lemma_product_concat(one, inner);
        lemma_product_single(1);
        assert forall|j: int| rank < j <= n implies product(#[trigger] promoted.skip(n - j))
            == product(shape.skip(n - j)) by {
            let rest = shape.subrange(n - j, n - rank);
            assert(promoted.skip(n - j) =~= rest + (one + inner));
            assert(shape.skip(n - j) =~= rest + inner);
            lemma_product_concat(rest, one + inner);
            lemma_product_concat(rest, inner);
        }
    }
    let out = promote.output(canonical_stream(shape, data));
    let want = canonical_stream(promoted, data);
    assert forall|k: int| 0 <= k < data.len() implies out[k] == want[k] by {
        lemma_split_level(shape, rank, 1, promoted, k);
        lemma_stop_level_bound(shape, k);
        lemma_stop_level_bound(promoted, k);
        law_stop_level(shape, k, rank);
        let level = stop_level(shape, k);
        assert(canonical_stream(shape, data)[k] == packed(data[k], level as StopType));
    }
    assert(out =~= want);
}

/// The shape with the dimension of a rank split into chunks.
pub open spec fn split_shape(shape: Seq<usize>, rank: int, chunk: usize) -> Seq<usize> {
    let n = shape.len();
    shape.take(n - 1 - rank) + seq![(shape[n - 1 - rank] / chunk) as usize, chunk] + shape.skip(
        n - rank,
    )
}

/// The counter of chunks after one more step, where `block` positions lie in
/// the dimensions below the split one.
proof fn lemma_chunk_counter(k: int, block: int, chunk: int)
    requires
        k >= 0,
        block > 0,
        chunk > 0,
    ensures
        0 <= (k / block) % chunk < chunk,
        (k + 1) % block == 0 && (k / block) % chunk + 1 == chunk <==> (k + 1) % (block * chunk)
            == 0,
        ((k + 1) / block) % chunk == (if (k + 1) % block != 0 {
            (k / block) % chunk
        } else if (k / block) % chunk + 1 == chunk {
            0
        } else {
            (k / block) % chunk + 1
        }),
{
    let q = k / block;
    let r = k % block;
    lemma_fundamental_div_mod(k, block);
    lemma_fundamental_div_mod(q, chunk);
    vstd::arithmetic::div_mod::lemma_mod_bound(k, block);
    vstd::arithmetic::div_mod::lemma_mod_bound(q, chunk);
    vstd::arithmetic::div_mod::lemma_mod_breakdown(k + 1, block, chunk);
    if r + 1 == block {
        assert(k + 1 == (q + 1) * block + 0) by (nonlinear_arith)
            requires
                k == block * q + r,
                r + 1 == block,
        ;
        lemma_fundamental_div_mod_converse(k + 1, block, q + 1, 0);
        let p = q / chunk;
        let c = q % chunk;
        if c + 1 == chunk {
            assert(q + 1 == (p + 1) * chunk + 0) by (nonlinear_arith)
                requires
                    q == chunk * p + c,
                    c + 1 == chunk,
            ;
            lemma_fundamental_div_mod_converse(q + 1, chunk, p + 1, 0);
            assert(block * 0 == 0);
        } else {
            assert(q + 1 == p * chunk + (c + 1)) by (nonlinear_arith)
                requires
                    q == chunk * p + c,
            ;
            lemma_fundamental_div_mod_converse(q + 1, chunk, p, c + 1);
            assert(block * (c + 1) > 0) by (nonlinear_arith)
                requires
                    block > 0,
                    c >= 0,
            ;
        }
    } else {
        assert(k + 1 == q * block + (r + 1)) by (nonlinear_arith)
            requires
                k == block * q + r,
        ;
        lemma_fundamental_div_mod_converse(k + 1, block, q, r + 1);
        assert(block * (q % chunk) >= 0) by (nonlinear_arith)
            requires
                block > 0,
                q % chunk >= 0,
        ;
    }
}

/// Splitting a dimension of a tensor gives a shape with one dimension more.
proof fn lemma_is_split(shape: Seq<usize>, rank: int, chunk: usize)
    requires
        positive(shape),
        0 <= rank < shape.len(),
        chunk > 0,
        shape[shape.len() - 1 - rank] % chunk == 0,
    ensures
        is_split_at(shape, rank, chunk as int, split_shape(shape, rank, chunk)),
{
    let n = shape.len() as int;
    let split = split_shape(shape, rank, chunk);
    let extent = shape[n - 1 - rank];
    let parts = (extent / chunk) as usize;
    let inner = shape.skip(n - rank);
    let one: Seq<usize> = seq![chunk];
    let two: Seq<usize> = seq![parts, chunk];
    assert(shape[n - 1 - rank] > 0);
    lemma_fundamental_div_mod(extent as int, chunk as int);
    assert(parts > 0 && parts * chunk == extent) by (nonlinear_arith)
        requires
            extent == chunk * parts + 0,
            extent > 0,
            chunk > 0,
            parts >= 0,
    ;
    assert forall|i: int| 0 <= i < split.len() implies #[trigger] split[i] > 0 by {
        if i < n - 1 - rank {
            assert(split[i] == shape[i]);
        } else if i > n - rank {
            assert(split[i] == shape[i - 1]);
        }
    }
    assert(split.skip(n + 1 - rank) =~= inner);
    assert(split.skip(n - rank) =~= one + inner);
    lemma_product_concat(one, inner);
    lemma_product_single(chunk);
    assert(product(one + inner) == product(inner) * chunk) by (nonlinear_arith)
        requires
            product(one + inner) == product(one) * product(inner),
            product(one) == chunk,
    ;
    assert forall|j: int| rank < j <= n implies product(#[trigger] split.skip(n - j)) == product(
        shape.skip(n - j),
    ) by {
        let rest = shape.subrange(n - j, n - 1 - rank);
        let whole: Seq<usize> = seq![extent];
        assert(split.skip(n - j) =~= rest + two + inner);
        assert(shape.skip(n - j) =~= rest + whole + inner);
        lemma_product_concat(rest + two, inner);
        lemma_product_concat(rest, two);
        lemma_product_concat(rest + whole, inner);
        lemma_product_concat(rest, whole);
        lemma_product_single(extent);
        let first: Seq<usize> = seq![parts];
        assert(two =~= first + one);
        lemma_product_concat(first, one);
        lemma_product_single(parts);
    }
}

/// What is sent for the first `m` elements of the stream of a tensor.
proof fn lemma_split_prefix<T>(reshape: Reshape<T>, shape: Seq<usize>, data: Seq<T>, m: nat)
    requires
        positive(shape),
        reshape.split_dim < shape.len() < StopType::MAX,
        reshape.chunk_size > 0,
        !reshape.add_outer_dim,
        shape[shape.len() - 1 - reshape.split_dim] % reshape.chunk_size == 0,
        m <= data.len(),
    ensures
        ({
            let rank = reshape.split_dim as int;
            let input = canonical_stream(shape, data);
            let split = split_shape(shape, rank, reshape.chunk_size);
            let block = product(shape.skip(shape.len() - rank));
            &&& reshape.counter_at(input, m) == (m as int / block) % (reshape.chunk_size as int)
            &&& 0 <= reshape.counter_at(input, m) < reshape.chunk_size
            &&& reshape.output_upto(input, m) == canonical_stream(split, data).take(m as int)
            &&& forall|k: int|
                0 <= k < m ==> reshape.accepts(
                    reshape.counter_at(input, k as nat),
                    #[trigger] input[k],
                )
        }),
    decreases m,
{
    let n = shape.len() as int;
    let rank = reshape.split_dim as int;
    let chunk = reshape.chunk_size as int;
    let input = canonical_stream(shape, data);
    let split = split_shape(shape, rank, reshape.chunk_size);
    let want = canonical_stream(split, data);
    let inner = shape.skip(n - rank);
    let block = product(inner);
    assert(inner =~= shape.subrange(n - rank, n));
    lemma_positive_parts(shape, n - rank, n);
    if m == 0 {
        assert(reshape.output_upto(input, m) =~= want.take(0));
        assert(0int / block == 0) by (nonlinear_arith)
            requires
                block > 0,
        ;
        vstd::arithmetic::div_mod::lemma_small_mod(0, chunk as nat);
    } else {
        let k = m - 1;
        lemma_split_prefix(reshape, shape, data, k as nat);
        let counter = reshape.counter_at(input, k as nat);
        let e = input[k];
        let level = stop_level(shape, k);
        lemma_chunk_counter(k, block, chunk);
        lemma_is_split(shape, rank, reshape.chunk_size);
        lemma_split_level(shape, rank, chunk, split, k);
        lemma_stop_level_bound(shape, k);
        lemma_stop_level_bound(split, k);
        law_stop_level(shape, k, rank);
        if level > rank {
            // A step that ends the split dimension ends a chunk.
            lemma_split_above(shape, rank, chunk, split, k, rank + 1);
            law_stop_level(split, k, rank + 1);
        }
        assert(e == packed(data[k], level as StopType));
        let sent = reshape.emitted(counter, e, m < input.len());
        assert(sent =~= seq![want[k]]);
        assert(reshape.output_upto(input, m) =~= want.take(m as int));
        assert(reshape.accepts(counter, e));
    }
}

/// Splitting a dimension of a tensor into chunks that it fills exactly: the
/// stream of the tensor becomes the stream of the tensor with this dimension
/// split in two.
pub proof fn law_reshape_splits_dimension<T>(reshape: Reshape<T>, shape: Seq<usize>, data: Seq<T>)
    requires
        positive(shape),
        reshape.split_dim < shape.len() < StopType::MAX,
        reshape.chunk_size > 0,
        !reshape.add_outer_dim,
        shape[shape.len() - 1 - reshape.split_dim] % reshape.chunk_size == 0,
        data.len() == product(shape),
    ensures
        reshape.accepts_stream(canonical_stream(shape, data)),
        reshape.output(canonical_stream(shape, data)) == canonical_stream(
            split_shape(shape, reshape.split_dim as int, reshape.chunk_size),
            data,
        ),
{
    let n = shape.len() as int;
    let rank = reshape.split_dim as int;
    let chunk = reshape.chunk_size as int;
    let input = canonical_stream(shape, data);
    let split = split_shape(shape, rank, reshape.chunk_size);
    let inner = shape.skip(n - rank);
    let block = product(inner);
    lemma_split_prefix(reshape, shape, data, data.len());
    lemma_is_split(shape, rank, reshape.chunk_size);
    lemma_product_nonneg(shape);
    let last = product(shape) - 1;
    assert(inner =~= shape.subrange(n - rank, n));
    lemma_positive_parts(shape, n - rank, n);
    law_stop_level(shape, last, n);
    assert(shape.skip(0) =~= shape);
    vstd::arithmetic::div_mod::lemma_mod_self_0(product(shape));
    lemma_split_above(shape, rank, chunk, split, last, rank + 1);
    law_stop_level(split, last, rank + 1);
    lemma_chunk_counter(last, block, chunk);
    assert(reshape.counter_at(input, input.len()) == 0);
    let want = canonical_stream(split, data);
    assert(want.take(data.len() as int) =~= want);
    assert(reshape.output(input) =~= want);
}

/// Repeating every element adds an innermost dimension: the copies of element
/// `k` are the elements of the stream of the larger tensor.
pub proof fn law_repeat_adds_dimension<T>(
    repeat: RepeatStatic,
    shape: Seq<usize>,
    data: Seq<T>,
    k: int,
    i: int,
)
    requires
        shape.len() < StopType::MAX,
        0 <= k < data.len(),
        0 <= i < repeat.repeat_factor,
    ensures
        repeat.copies(canonical_stream(shape, data)[k])[i] == packed(
            data[k],
            stop_level(shape.push(repeat.repeat_factor), k * repeat.repeat_factor + i) as StopType,
        ),
{
    let factor = repeat.repeat_factor as int;
    let larger = shape.push(repeat.repeat_factor);
    assert(larger.drop_last() =~= shape);
    lemma_fundamental_div_mod_converse(k * factor + i, factor, k, i);
    lemma_stop_level_bound(shape, k);
    lemma_stop_level_bound(larger, k * factor + i);
}

/// Reducing the innermost dimensions of a tensor leaves the stream of the
/// outer ones: a reduction ends with every block of the inner dimensions, and
/// its result closes what ends with that block.
pub proof fn law_reduction_leaves_outer_dimensions<T, B>(
    rank: StopType,
    shape: Seq<usize>,
    data: Seq<T>,
    k: int,
    out: B,
)
    requires
        positive(shape),
        0 < rank <= shape.len() <= StopType::MAX,
        0 <= k < data.len(),
    ensures
        ({
            let block = product(shape.skip(shape.len() - rank));
            let e = canonical_stream(shape, data)[k];
            &&& ends_reduction(rank, e) <==> (k + 1) % block == 0
            &&& ends_reduction(rank, e) ==> reduced(rank, e, out) == packed(
                out,
                stop_level(shape.take(shape.len() - rank), k / block) as StopType,
            )
        }),
{
    law_stop_level(shape, k, rank as int);
    lemma_stop_level_bound(shape, k);
    if stop_level(shape, k) >= rank {
        lemma_outer_level(shape, rank as int, k);
    }
}

/// A step that ends the innermost dimensions ends as many of the outer ones as
/// the step of the walk over those.
proof fn lemma_outer_level(shape: Seq<usize>, rank: int, k: int)
    requires
        positive(shape),
        0 <= rank <= shape.len(),
        k >= 0,
        stop_level(shape, k) >= rank,
    ensures
        stop_level(shape, k) == rank + stop_level(
            shape.take(shape.len() - rank),
            k / product(shape.skip(shape.len() - rank)),
        ),
    decreases rank,
{
    let n = shape.len() as int;
    if rank == 0 {
        assert(shape.take(n) =~= shape);
        assert(shape.skip(n) =~= Seq::<usize>::empty());
        assert(k / 1 == k);
    } else {
        let last = shape.last() as int;
        let outer = shape.drop_last();
        assert(shape[n - 1] > 0);
        assert forall|i: int| 0 <= i < outer.len() implies #[trigger] outer[i] > 0 by {
            assert(shape[i] > 0);
        }
        lemma_fundamental_div_mod(k, last);
        assert(k / last >= 0) by (nonlinear_arith)
            requires
                k >= 0,
                last > 0,
        ;
        lemma_outer_level(outer, rank - 1, k / last);
        assert(outer.take(n - rank) =~= shape.take(n - rank));
        let inner = shape.skip(n - rank);
        assert(inner.drop_last() =~= outer.skip(n - rank));
        assert(inner.last() == shape.last());
        let block = product(outer.skip(n - rank));
        assert(product(inner) == block * last);
        assert(outer.skip(n - rank) =~= shape.subrange(n - rank, n - 1));
        lemma_positive_parts(shape, n - rank, n - 1);
        vstd::arithmetic::div_mod::lemma_div_denominator(k, last, block);
        assert(last * block == block * last) by (nonlinear_arith);
    }
}

} // verus!
