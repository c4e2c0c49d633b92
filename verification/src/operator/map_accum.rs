//! Combining two streams and reducing the result.

use vstd::prelude::*;

use crate::operator::accum::{ends_reduction, reduced, AccumStep};
use crate::operator::map::{load_of, loadable, same_stops};
use crate::primitives::elem::{mu_cycles, transfer_cycles, Elem, StopType};
use crate::primitives::tile::{lemma_tile_cycles, tile_cycles, Tile};
use crate::utils::calculation::{roofline, roofline_cycles};

verus! {

/// Folds pairs of tiles of two streams into one tile for each group of the
/// innermost `rank` dimensions.
pub struct BinaryMapAccum<F, I> {
    pub func: F,
    pub init_accum: I,
    pub rank: StopType,
    pub compute_bw: u64,
    pub write_back_mu: bool,
    pub id: u32,
}

impl<F, I> BinaryMapAccum<F, I> {
    /// `out` is what the function makes of two tiles and the accumulator: the
    /// cycles and the next accumulator.
    pub open spec fn folds<T, OT>(
        self,
        tile1: Tile<T>,
        tile2: Tile<T>,
        accumulator: Tile<OT>,
        out: (u64, Tile<OT>),
    ) -> bool where F: Fn(&Tile<T>, &Tile<T>, &Tile<OT>, u64, bool) -> (u64, Tile<OT>) {
        call_ensures(
            self.func,
            (&tile1, &tile2, &accumulator, self.compute_bw, self.write_back_mu),
            out,
        )
    }

    pub fn new(
        func: F,
        init_accum: I,
        rank: StopType,
        compute_bw: u64,
        write_back_mu: bool,
        id: u32,
    ) -> (res: Self)
        ensures
            res == (BinaryMapAccum { func, init_accum, rank, compute_bw, write_back_mu, id }),
    {
        BinaryMapAccum { func, init_accum, rank, compute_bw, write_back_mu, id }
    }

    /// The accumulator before the first pair.
    pub fn start<OT>(&self) -> (res: Tile<OT>) where I: Fn() -> Tile<OT>
        requires
            call_requires(self.init_accum, ()),
        ensures
            call_ensures(self.init_accum, (), res),
    {
        (self.init_accum)()
    }

    /// Folds one pair in. The pair that ends a group sends the result and
    /// makes the accumulator anew; storing is priced by the new accumulator.
    pub fn step<T, OT>(
        &self,
        accumulator: &mut Tile<OT>,
        in1: &Elem<Tile<T>>,
        in2: &Elem<Tile<T>>,
    ) -> (res: AccumStep<Tile<OT>>) where
        F: Fn(&Tile<T>, &Tile<T>, &Tile<OT>, u64, bool) -> (u64, Tile<OT>),
        I: Fn() -> Tile<OT>,

        requires
            same_stops(*in1, *in2),
            loadable(in1.value()),
            loadable(in2.value()),
            call_requires(
                self.func,
                (
                    &in1.value(),
                    &in2.value(),
                    &*old(accumulator),
                    self.compute_bw,
                    self.write_back_mu,
                ),
            ),
            ends_reduction(self.rank, *in1) ==> call_requires(self.init_accum, ()),
            ends_reduction(self.rank, *in1) && self.write_back_mu ==> forall|fresh: Tile<OT>|
                #[trigger] call_ensures(self.init_accum, (), fresh) ==> fresh.sized(),
        ensures
            exists|out: (u64, Tile<OT>)|
                {
                    &&& #[trigger] self.folds(in1.value(), in2.value(), *old(accumulator), out)
                    &&& if ends_reduction(self.rank, *in1) {
                        &&& call_ensures(self.init_accum, (), *final(accumulator))
                        &&& res.out == Some(reduced(self.rank, *in1, out.1))
                        &&& res.cycles == roofline(
                            load_of(in1.value()) + load_of(in2.value()),
                            out.0 as int,
                            mu_cycles(self.write_back_mu, final(accumulator).bytes()),
                        )
                    } else {
                        &&& *final(accumulator) == out.1
                        &&& res.out is None
                        &&& res.cycles == roofline(
                            load_of(in1.value()) + load_of(in2.value()),
                            out.0 as int,
                            0,
                        )
                    }
                },
    {
        let (tile1, level, stops) = match in1 {
            Elem::Val(tile) => (tile, 0, false),
            Elem::ValStop(tile, level) => (tile, *level, true),
        };
        let tile2 = match in2 {
            Elem::Val(tile) => tile,
            Elem::ValStop(tile, _) => tile,
        };
        let ghost before = *accumulator;
        let load1: u64 = transfer_cycles(tile1, tile1.read_from_mu);
        let load2: u64 = transfer_cycles(tile2, tile2.read_from_mu);
        let load: u64 = load1 + load2;
        let (compute, next) = (self.func)(
            tile1,
            tile2,
            &*accumulator,
            self.compute_bw,
            self.write_back_mu,
        );
        assert(self.folds(in1.value(), in2.value(), before, (compute, next)));
        if stops && level >= self.rank {
            *accumulator = (self.init_accum)();
            let store: u64 = transfer_cycles(&*accumulator, self.write_back_mu);
            let cycles: u64 = roofline_cycles(load, compute, store);
            let rest: StopType = level - self.rank;
            let out = if rest == 0 {
                Elem::Val(next)
            } else {
                Elem::ValStop(next, rest)
            };
            AccumStep { cycles, out: Some(out) }
        } else {
            *accumulator = next;
            AccumStep { cycles: roofline_cycles(load, compute, 0), out: None }
        }
    }
}

/// Combining and reducing: the function is given the two tiles and the accumulator. An
/// element that closes the reduced dimensions sends what the function made,
/// with the stops that are left, and makes the accumulator anew; any other
/// leaves what the function made in the accumulator and sends nothing. The
/// slowest of loading, computing and, at the end of a group, storing the new
/// accumulator decides the cycles.
pub proof fn law_map_accumulation_step<F, I, T, OT>(
    op: BinaryMapAccum<F, I>,
    in1: Elem<Tile<T>>,
    in2: Elem<Tile<T>>,
) where F: Fn(&Tile<T>, &Tile<T>, &Tile<OT>, u64, bool) -> (u64, Tile<OT>), I: Fn() -> Tile<OT>
    ensures
        forall|acc: &mut Tile<OT>, res: AccumStep<Tile<OT>>| #[trigger]
            call_ensures(BinaryMapAccum::<F, I>::step::<T, OT>, (&op, acc, &in1, &in2), res) ==> exists|
                out: (u64, Tile<OT>),
            |
                {
                    let ends = in1 is ValStop && in1.level() >= op.rank;
                    let load = tile_cycles(in1.value().read_from_mu, in1.value()) + tile_cycles(
                        in2.value().read_from_mu,
                        in2.value(),
                    );
                    &&& #[trigger] call_ensures(
                        op.func,
                        (&in1.value(), &in2.value(), &*acc, op.compute_bw, op.write_back_mu),
                        out,
                    )
                    &&& res.cycles == vstd::math::max(
                        vstd::math::max(load, out.0 as int),
                        if ends {
                            tile_cycles(op.write_back_mu, *final(acc))
                        } else {
                            0
                        },
                    )
                    &&& !ends ==> res.out is None && *final(acc) == out.1
                    &&& ends ==> {
                        &&& call_ensures(op.init_accum, (), *final(acc))
                        &&& res.out is Some
                        &&& res.out->0.value() == out.1
                        &&& res.out->0.level() == in1.level() - op.rank
                        &&& res.out->0 is Val <==> in1.level() == op.rank
                    }
                },
{
    assert forall|acc: &mut Tile<OT>, res: AccumStep<Tile<OT>>| #[trigger]
        call_ensures(BinaryMapAccum::<F, I>::step::<T, OT>, (&op, acc, &in1, &in2), res) implies exists|
        out: (u64, Tile<OT>),
    |
        {
            let ends = in1 is ValStop && in1.level() >= op.rank;
            let load = tile_cycles(in1.value().read_from_mu, in1.value()) + tile_cycles(
                        in2.value().read_from_mu,
                        in2.value(),
                    );
            &&& #[trigger] call_ensures(
                op.func,
                (&in1.value(), &in2.value(), &*acc, op.compute_bw, op.write_back_mu),
                out,
            )
            &&& res.cycles == vstd::math::max(
                vstd::math::max(load, out.0 as int),
                if ends {
                    tile_cycles(op.write_back_mu, *final(acc))
                } else {
                    0
                },
            )
            &&& !ends ==> res.out is None && *final(acc) == out.1
            &&& ends ==> {
                &&& call_ensures(op.init_accum, (), *final(acc))
                &&& res.out is Some
                &&& res.out->0.value() == out.1
                &&& res.out->0.level() == in1.level() - op.rank
                &&& res.out->0 is Val <==> in1.level() == op.rank
            }
        } by {
        let out = choose|out: (u64, Tile<OT>)|
            {
                &&& #[trigger] op.folds(in1.value(), in2.value(), *acc, out)
                &&& if ends_reduction(op.rank, in1) {
                    &&& call_ensures(op.init_accum, (), *final(acc))
                    &&& res.out == Some(reduced(op.rank, in1, out.1))
                    &&& res.cycles == roofline(
                        load_of(in1.value()) + load_of(in2.value()),
                        out.0 as int,
                        mu_cycles(op.write_back_mu, final(acc).bytes()),
                    )
                } else {
                    &&& *final(acc) == out.1
                    &&& res.out is None
                    &&& res.cycles == roofline(load_of(in1.value()) + load_of(in2.value()), out.0 as int, 0)
                }
            };
        assert(op.folds(in1.value(), in2.value(), *acc, out));
        lemma_tile_cycles(in1.value().read_from_mu, in1.value());
        lemma_tile_cycles(in2.value().read_from_mu, in2.value());
        lemma_tile_cycles(op.write_back_mu, *final(acc));
        assert(call_ensures(op.func, (&in1.value(), &in2.value(), &*acc, op.compute_bw, op.write_back_mu), out));
    }
}

} // verus!
