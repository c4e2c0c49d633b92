//! Functions on tiles that are known by their shape alone.

use vstd::prelude::*;

use crate::memory::data::Tile;
use crate::utils::calculation::{ceil_div, div_ceil, lemma_ceil_div};

verus! {

/// Matrix product: the cycles, two operations for each product that is summed,
/// and the shape of the result.
pub fn matmul(in1: &Tile, in2: &Tile, flop_per_cycle: u64, read_from_mu: bool) -> (res: (u64, Tile))
    requires
        in1.shape@.len() == 2,
        in2.shape@.len() == 2,
        in1.shape@[1] == in2.shape@[0],
        in1.bytes_per_elem == in2.bytes_per_elem,
        flop_per_cycle > 0,
        2 * in1.shape@[0] <= usize::MAX,
        2 * in1.shape@[0] * in1.shape@[1] <= usize::MAX,
        2 * in1.shape@[0] * in1.shape@[1] * in2.shape@[1] <= usize::MAX,
    ensures
        res.0 == ceil_div(
            2 * in1.shape@[0] * in1.shape@[1] * in2.shape@[1],
            flop_per_cycle as int,
        ),
        res.1.shape@ == seq![in1.shape@[0], in2.shape@[1]],
        res.1.bytes_per_elem == in1.bytes_per_elem,
        res.1.read_from_mu == read_from_mu,
{
    let m: usize = in1.shape[0];
    let k: usize = in1.shape[1];
    let n: usize = in2.shape[1];
    proof {
        assert(2 * m * k >= 0) by (nonlinear_arith)
            requires
                m >= 0,
                k >= 0,
        ;
        assert(2 * m * k * n >= 0) by (nonlinear_arith)
            requires
                2 * m * k >= 0,
                n >= 0,
        ;
    }
    let cycles: u64 = div_ceil((2 * m * k * n) as u64, flop_per_cycle);
    let mut shape: Vec<usize> = Vec::new();
    shape.push(m);
    shape.push(n);
    assert(shape@ =~= seq![m, n]);
    (cycles, Tile { shape, bytes_per_elem: in1.bytes_per_elem, read_from_mu })
}

/// The product of two matrices takes two operations for each row of the first,
/// column of the second and row of the second, and has a row for each row of
/// the first and a column for each column of the second.
pub proof fn law_matmul_counts_operations(
    in1: Tile,
    in2: Tile,
    flop_per_cycle: u64,
    read_from_mu: bool,
    res: (u64, Tile),
)
    requires
        flop_per_cycle > 0,
        call_ensures(matmul, (&in1, &in2, flop_per_cycle, read_from_mu), res),
    ensures
        ({
            let flops = 2 * in1.shape@[0] * in1.shape@[1] * in2.shape@[1];
            res.0 * flop_per_cycle >= flops > (res.0 - 1) * flop_per_cycle
        }),
        res.1.shape@.len() == 2,
        res.1.shape@[0] == in1.shape@[0],
        res.1.shape@[1] == in2.shape@[1],
        res.1.bytes_per_elem == in1.bytes_per_elem,
        res.1.read_from_mu == read_from_mu,
{
    let m = in1.shape@[0];
    let k = in1.shape@[1];
    let n = in2.shape@[1];
    let flops = 2 * m * k * n;
    assert(flops >= 0) by (nonlinear_arith)
        requires
            flops == 2 * m * k * n,
            m >= 0,
            k >= 0,
            n >= 0,
    ;
    lemma_ceil_div(flops, flop_per_cycle as int);
    assert((res.0 - 1) * flop_per_cycle == res.0 * flop_per_cycle - flop_per_cycle)
        by (nonlinear_arith);
}

} // verus!
