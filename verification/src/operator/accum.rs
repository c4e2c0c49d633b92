//! Reducing the innermost dimensions of a stream.

use vstd::prelude::*;

use crate::operator::map::{load_of, loadable};
use crate::primitives::elem::{mu_cycles, packed, transfer_cycles, Elem, StopType};
use crate::primitives::tile::{lemma_tile_cycles, tile_cycles, Tile};
use crate::utils::calculation::{roofline, roofline_cycles};

verus! {

#[derive(Debug, Clone, Copy)]
pub struct AccumConfig {
    pub compute_bw: u64,
    pub write_back_mu: bool,
}

/// Folds the innermost `rank` dimensions of a stream into one tile.
pub struct Accum<F, I> {
    pub func: F,
    pub init_accum: I,
    pub rank: StopType,
    pub config: AccumConfig,
    pub id: u32,
}

/// What is done for an element: it takes `cycles` cycles, and then the result
/// of the group is sent, if the group ends.
#[derive(Debug, PartialEq, Eq)]
pub struct AccumStep<B> {
    pub cycles: u64,
    pub out: Option<Elem<B>>,
}

/// An element that closes `rank` dimensions or more ends its group.
pub open spec fn ends_reduction<T>(rank: StopType, e: Elem<T>) -> bool {
    e is ValStop && e.level() >= rank
}

/// The result of a group closes what remains above the reduced dimensions.
pub open spec fn reduced<T, B>(rank: StopType, e: Elem<T>, value: B) -> Elem<B> {
    packed(value, (e.level() - rank) as StopType)
}

impl<F, I> Accum<F, I> {
    /// `out` is what the function makes of a tile and the accumulator: the
    /// cycles and the next accumulator.
    pub open spec fn folds<T, OT>(
        self,
        tile: Tile<T>,
        accumulator: Tile<OT>,
        out: (u64, Tile<OT>),
    ) -> bool where F: Fn(&Tile<T>, &Tile<OT>, u64, bool) -> (u64, Tile<OT>) {
        call_ensures(
            self.func,
            (&tile, &accumulator, self.config.compute_bw, self.config.write_back_mu),
            out,
        )
    }

    pub fn new(
        func: F,
        init_accum: I,
        rank: StopType,
        config: AccumConfig,
        id: u32,
    ) -> (res: Self)
        ensures
            res == (Accum { func, init_accum, rank, config, id }),
    {
        Accum { func, init_accum, rank, config, id }
    }

    /// The accumulator before the first element.
    pub fn start<OT>(&self) -> (res: Tile<OT>) where I: Fn() -> Tile<OT>
        requires
            call_requires(self.init_accum, ()),
        ensures
            call_ensures(self.init_accum, (), res),
    {
        (self.init_accum)()
    }

    /// Folds one element in. The element that ends a group sends the result
    /// and makes the accumulator anew; storing is priced by the new
    /// accumulator.
    pub fn step<T, OT>(&self, accumulator: &mut Tile<OT>, elem: &Elem<Tile<T>>) -> (res: AccumStep<
        Tile<OT>,
    >) where F: Fn(&Tile<T>, &Tile<OT>, u64, bool) -> (u64, Tile<OT>), I: Fn() -> Tile<OT>
        requires
            loadable(elem.value()),
            call_requires(
                self.func,
                (
                    &elem.value(),
                    &*old(accumulator),
                    self.config.compute_bw,
                    self.config.write_back_mu,
                ),
            ),
            ends_reduction(self.rank, *elem) ==> call_requires(self.init_accum, ()),
            ends_reduction(self.rank, *elem) && self.config.write_back_mu ==> forall|fresh: Tile<
                OT,
            >| #[trigger] call_ensures(self.init_accum, (), fresh) ==> fresh.sized(),
        ensures
            exists|out: (u64, Tile<OT>)|
                {
                    &&& #[trigger] self.folds(elem.value(), *old(accumulator), out)
                    &&& if ends_reduction(self.rank, *elem) {
                        &&& call_ensures(self.init_accum, (), *final(accumulator))
                        &&& res.out == Some(reduced(self.rank, *elem, out.1))
                        &&& res.cycles == roofline(
                            load_of(elem.value()),
                            out.0 as int,
                            mu_cycles(self.config.write_back_mu, final(accumulator).bytes()),
                        )
                    } else {
                        &&& *final(accumulator) == out.1
                        &&& res.out is None
                        &&& res.cycles == roofline(load_of(elem.value()), out.0 as int, 0)
                    }
                },
    {
        let (tile, level, stops) = match elem {
            Elem::Val(tile) => (tile, 0, false),
            Elem::ValStop(tile, level) => (tile, *level, true),
        };
        let ghost before = *accumulator;
        let load: u64 = transfer_cycles(tile, tile.read_from_mu);
        let (compute, next) = (self.func)(
            tile,
            &*accumulator,
            self.config.compute_bw,
            self.config.write_back_mu,
        );
        assert(self.folds(elem.value(), before, (compute, next)));
        if stops && level >= self.rank {
            *accumulator = (self.init_accum)();
            let store: u64 = transfer_cycles(&*accumulator, self.config.write_back_mu);
            let cycles: u64 = roofline_cycles(load, compute, store);
            let rest: StopType = level - self.rank;
            let out = if rest == 0 {
                Elem::Val(next)
            } else {
                Elem::ValStop(next, rest)
            };
            AccumStep { cycles, out: Some(out) }
        } else {
            *accumulator = next;
            AccumStep { cycles: roofline_cycles(load, compute, 0), out: None }
        }
    }
}

/// Reducing: the function is given the tile and the accumulator. An
/// element that closes the reduced dimensions sends what the function made,
/// with the stops that are left, and makes the accumulator anew; any other
/// leaves what the function made in the accumulator and sends nothing. The
/// slowest of loading, computing and, at the end of a group, storing the new
/// accumulator decides the cycles.
pub proof fn law_accumulation_step<F, I, T, OT>(
    op: Accum<F, I>,
    elem: Elem<Tile<T>>,
) where F: Fn(&Tile<T>, &Tile<OT>, u64, bool) -> (u64, Tile<OT>), I: Fn() -> Tile<OT>
    ensures
        forall|acc: &mut Tile<OT>, res: AccumStep<Tile<OT>>| #[trigger]
            call_ensures(Accum::<F, I>::step::<T, OT>, (&op, acc, &elem), res) ==> exists|
                out: (u64, Tile<OT>),
            |
                {
                    let ends = elem is ValStop && elem.level() >= op.rank;
                    let load = tile_cycles(elem.value().read_from_mu, elem.value());
                    &&& #[trigger] call_ensures(
                        op.func,
                        (&elem.value(), &*acc, op.config.compute_bw, op.config.write_back_mu),
                        out,
                    )
                    &&& res.cycles == vstd::math::max(
                        vstd::math::max(load, out.0 as int),
                        if ends {
                            tile_cycles(op.config.write_back_mu, *final(acc))
                        } else {
                            0
                        },
                    )
                    &&& !ends ==> res.out is None && *final(acc) == out.1
                    &&& ends ==> {
                        &&& call_ensures(op.init_accum, (), *final(acc))
                        &&& res.out is Some
                        &&& res.out->0.value() == out.1
                        &&& res.out->0.level() == elem.level() - op.rank
                        &&& res.out->0 is Val <==> elem.level() == op.rank
                    }
                },
{
    assert forall|acc: &mut Tile<OT>, res: AccumStep<Tile<OT>>| #[trigger]
        call_ensures(Accum::<F, I>::step::<T, OT>, (&op, acc, &elem), res) implies exists|
        out: (u64, Tile<OT>),
    |
        {
            let ends = elem is ValStop && elem.level() >= op.rank;
            let load = tile_cycles(elem.value().read_from_mu, elem.value());
            &&& #[trigger] call_ensures(
                op.func,
                (&elem.value(), &*acc, op.config.compute_bw, op.config.write_back_mu),
                out,
            )
            &&& res.cycles == vstd::math::max(
                vstd::math::max(load, out.0 as int),
                if ends {
                    tile_cycles(op.config.write_back_mu, *final(acc))
                } else {
                    0
                },
            )
            &&& !ends ==> res.out is None && *final(acc) == out.1
            &&& ends ==> {
                &&& call_ensures(op.init_accum, (), *final(acc))
                &&& res.out is Some
                &&& res.out->0.value() == out.1
                &&& res.out->0.level() == elem.level() - op.rank
                &&& res.out->0 is Val <==> elem.level() == op.rank
            }
        } by {
        let out = choose|out: (u64, Tile<OT>)|
            {
                &&& #[trigger] op.folds(elem.value(), *acc, out)
                &&& if ends_reduction(op.rank, elem) {
                    &&& call_ensures(op.init_accum, (), *final(acc))
                    &&& res.out == Some(reduced(op.rank, elem, out.1))
                    &&& res.cycles == roofline(
                        load_of(elem.value()),
                        out.0 as int,
                        mu_cycles(op.config.write_back_mu, final(acc).bytes()),
                    )
                } else {
                    &&& *final(acc) == out.1
                    &&& res.out is None
                    &&& res.cycles == roofline(load_of(elem.value()), out.0 as int, 0)
                }
            };
        assert(op.folds(elem.value(), *acc, out));
        lemma_tile_cycles(elem.value().read_from_mu, elem.value());
        lemma_tile_cycles(op.config.write_back_mu, *final(acc));
        assert(call_ensures(op.func, (&elem.value(), &*acc, op.config.compute_bw, op.config.write_back_mu), out));
    }
}

} // verus!
