//! Integer arithmetic shared by the cycle models.

use vstd::arithmetic::div_mod::lemma_fundamental_div_mod;
use vstd::prelude::*;

verus! {

/// The least integer that is at least `a / b`.
pub open spec fn ceil_div(a: int, b: int) -> int
    recommends
        b > 0,
{
    if a % b == 0 {
        a / b
    } else {
        a / b + 1
    }
}

/// The larger of two cycle counts.
pub open spec fn max_of(a: int, b: int) -> int {
    if a >= b {
        a
    } else {
        b
    }
}

/// Loading, computing and storing overlap, so the slowest of them decides.
pub open spec fn roofline(load: int, compute: int, store: int) -> int {
    max_of(max_of(load, compute), store)
}

/// The cycles of an operation whose parts overlap.
pub fn roofline_cycles(load: u64, compute: u64, store: u64) -> (res: u64)
    ensures
        res == roofline(load as int, compute as int, store as int),
{
    let mut cycles: u64 = load;
    if compute > cycles {
        cycles = compute;
    }
    if store > cycles {
        cycles = store;
    }
    cycles
}

/// `ceil_div(a, b)` is the number of steps of length `b` that cover `a`.
pub proof fn lemma_ceil_div(a: int, b: int)
    requires
        a >= 0,
        b > 0,
    ensures
        ceil_div(a, b) >= 0,
        ceil_div(a, b) > 0 <==> a > 0,
        a <= ceil_div(a, b) * b < a + b,
{
    lemma_fundamental_div_mod(a, b);
    let q = a / b;
    let r = a % b;
    assert(q >= 0 && (q > 0 || r > 0 <==> a > 0) && (q + 1) * b == b * q + b && q * b == b * q)
        by (nonlinear_arith)
        requires
            a == b * q + r,
            0 <= r < b,
            a >= 0,
            b > 0,
    ;
}

/// Rounds the quotient of two cycle or byte counts up.
pub fn div_ceil(a: u64, b: u64) -> (res: u64)
    requires
        b > 0,
    ensures
        res == ceil_div(a as int, b as int),
{
    if a % b == 0 {
        a / b
    } else {
        proof {
            lemma_fundamental_div_mod(a as int, b as int);
            assert(a / b < u64::MAX) by (nonlinear_arith)
                requires
                    a % b != 0,
                    b > 0,
                    a == b * (a / b) + (a % b),
                    a <= u64::MAX,
            ;
        }
        a / b + 1
    }
}

/// The slowest of three parts that overlap decides: none of them takes longer
/// than the whole, and one of them takes as long.
pub proof fn law_slowest_part_decides(load: u64, compute: u64, store: u64, cycles: u64)
    requires
        call_ensures(roofline_cycles, (load, compute, store), cycles),
    ensures
        cycles >= load,
        cycles >= compute,
        cycles >= store,
        cycles == load || cycles == compute || cycles == store,
{
}

/// A quotient that is rounded up covers the dividend, and one less would not.
pub proof fn law_rounded_quotient_covers(a: u64, b: u64, res: u64)
    requires
        b > 0,
        call_ensures(div_ceil, (a, b), res),
    ensures
        res * b >= a,
        (res - 1) * b < a,
{
    lemma_ceil_div(a as int, b as int);
    assert((res - 1) * b == res * b - b) by (nonlinear_arith);
}

} // verus!
