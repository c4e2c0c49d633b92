//! Applying functions to the tiles of streams.

use vstd::prelude::*;

use crate::primitives::elem::{attach_stop, mu_cycles, transfer_cycles, with_value, Elem};
use crate::primitives::tile::{lemma_tile_cycles, tile_cycles, Tile};
use crate::utils::calculation::{roofline, roofline_cycles};

verus! {

/// Applies a binary function that returns the latency in cycles, based on the
/// size of the operands and the allocated bandwidth, and the result.
///
/// Assumptions used during the roofline analysis:
/// - Each operand is stored in separate PMUs
/// - No further on-chip tiling.
/// - When reading from / writing to a PMU, we use the full bandwidth. This
///   gives an optimistic (upper) bound.
pub struct BinaryMap<F> {
    pub func: F,
    pub compute_bw: u64,
    pub write_back_mu: bool,
    pub id: u32,
}

/// What is done for an element: it takes `cycles` cycles, and then `data` is
/// sent.
#[derive(Debug, PartialEq, Eq)]
pub struct MapStep<B> {
    pub cycles: u64,
    pub data: Elem<Tile<B>>,
}

/// Both elements close the same.
pub open spec fn same_stops<A, B>(e1: Elem<A>, e2: Elem<B>) -> bool {
    &&& e1 is Val <==> e2 is Val
    &&& e1.level() == e2.level()
}

/// The cycles to load a tile.
pub open spec fn load_of<A>(tile: Tile<A>) -> int {
    mu_cycles(tile.read_from_mu, tile.bytes())
}

/// The cycles to load a tile can be computed.
pub open spec fn loadable<A>(tile: Tile<A>) -> bool {
    tile.read_from_mu ==> tile.sized()
}

impl<F> BinaryMap<F> {
    pub fn new(func: F, compute_bw: u64, write_back_mu: bool, id: u32) -> (res: Self)
        ensures
            res == (BinaryMap { func, compute_bw, write_back_mu, id }),
    {
        BinaryMap { func, compute_bw, write_back_mu, id }
    }

    /// Takes one element of each stream.
    pub fn step<A, B>(&self, in1: &Elem<Tile<A>>, in2: &Elem<Tile<A>>) -> (res: MapStep<B>) where
        F: Fn(&Tile<A>, &Tile<A>, u64, bool) -> (u64, Tile<B>),

        requires
            same_stops(*in1, *in2),
            loadable(in1.value()),
            loadable(in2.value()),
            call_requires(
                self.func,
                (&in1.value(), &in2.value(), self.compute_bw, self.write_back_mu),
            ),
            self.write_back_mu ==> forall|out: (u64, Tile<B>)|
                call_ensures(
                    self.func,
                    (&in1.value(), &in2.value(), self.compute_bw, self.write_back_mu),
                    out,
                ) ==> (#[trigger] out.1.sized()),
        ensures
            exists|out: (u64, Tile<B>)|
                {
                    &&& #[trigger] call_ensures(
                        self.func,
                        (&in1.value(), &in2.value(), self.compute_bw, self.write_back_mu),
                        out,
                    )
                    &&& res.data == with_value(*in1, out.1)
                    &&& res.cycles == roofline(
                        load_of(in1.value()) + load_of(in2.value()),
                        out.0 as int,
                        mu_cycles(self.write_back_mu, out.1.bytes()),
                    )
                },
    {
        let (tile1, stop) = match in1 {
            Elem::Val(tile) => (tile, None),
            Elem::ValStop(tile, level) => (tile, Some(*level)),
        };
        let tile2 = match in2 {
            Elem::Val(tile) => tile,
            Elem::ValStop(tile, _) => tile,
        };
        let load1: u64 = transfer_cycles(tile1, tile1.read_from_mu);
        let load2: u64 = transfer_cycles(tile2, tile2.read_from_mu);
        let out = (self.func)(tile1, tile2, self.compute_bw, self.write_back_mu);
        assert(call_ensures(
            self.func,
            (&in1.value(), &in2.value(), self.compute_bw, self.write_back_mu),
            out,
        ));
        assert(self.write_back_mu ==> out.1.sized());
        let (compute, tile) = out;
        let store: u64 = transfer_cycles(&tile, self.write_back_mu);
        let cycles: u64 = roofline_cycles(load1 + load2, compute, store);
        MapStep { cycles, data: attach_stop(tile, stop) }
    }
}

#[derive(Debug, Clone, Copy)]
pub struct UnaryMapConfig {
    pub compute_bw: u64,
    pub write_back_mu: bool,
}

/// Applies a unary function that returns the latency in cycles and the result.
pub struct UnaryMap<F> {
    pub func: F,
    pub config: UnaryMapConfig,
    pub id: u32,
}

impl<F> UnaryMap<F> {
    pub fn new(func: F, config: UnaryMapConfig, id: u32) -> (res: Self)
        ensures
            res == (UnaryMap { func, config, id }),
    {
        UnaryMap { func, config, id }
    }

    /// Takes one element.
    pub fn step<T, OT>(&self, elem: &Elem<Tile<T>>) -> (res: MapStep<OT>) where
        F: Fn(&Tile<T>, u64, bool) -> (u64, Tile<OT>),

        requires
            loadable(elem.value()),
            call_requires(
                self.func,
                (&elem.value(), self.config.compute_bw, self.config.write_back_mu),
            ),
            self.config.write_back_mu ==> forall|out: (u64, Tile<OT>)|
                call_ensures(
                    self.func,
                    (&elem.value(), self.config.compute_bw, self.config.write_back_mu),
                    out,
                ) ==> (#[trigger] out.1.sized()),
        ensures
            exists|out: (u64, Tile<OT>)|
                {
                    &&& #[trigger] call_ensures(
                        self.func,
                        (&elem.value(), self.config.compute_bw, self.config.write_back_mu),
                        out,
                    )
                    &&& res.data == with_value(*elem, out.1)
                    &&& res.cycles == roofline(
                        load_of(elem.value()),
                        out.0 as int,
                        mu_cycles(self.config.write_back_mu, out.1.bytes()),
                    )
                },
    {
        let (tile, stop) = match elem {
            Elem::Val(tile) => (tile, None),
            Elem::ValStop(tile, level) => (tile, Some(*level)),
        };
        let load: u64 = transfer_cycles(tile, tile.read_from_mu);
        let out = (self.func)(tile, self.config.compute_bw, self.config.write_back_mu);
        assert(call_ensures(
            self.func,
            (&elem.value(), self.config.compute_bw, self.config.write_back_mu),
            out,
        ));
        assert(self.config.write_back_mu ==> out.1.sized());
        let (compute, result) = out;
        let store: u64 = transfer_cycles(&result, self.config.write_back_mu);
        let cycles: u64 = roofline_cycles(load, compute, store);
        MapStep { cycles, data: attach_stop(result, stop) }
    }
}

/// Mapping two streams: the function is given both tiles, its result carries
/// the stops of the input, and the slowest of loading both operands, computing
/// and storing the result decides the cycles.
pub proof fn law_binary_map_is_priced<F, A, B>(
    op: BinaryMap<F>,
    in1: Elem<Tile<A>>,
    in2: Elem<Tile<A>>,
    res: MapStep<B>,
) where F: Fn(&Tile<A>, &Tile<A>, u64, bool) -> (u64, Tile<B>)
    requires
        call_ensures(BinaryMap::<F>::step::<A, B>, (&op, &in1, &in2), res),
    ensures
        res.data is ValStop <==> in1 is ValStop,
        res.data.level() == in1.level(),
        exists|compute: u64|
            {
                &&& #[trigger] call_ensures(
                    op.func,
                    (&in1.value(), &in2.value(), op.compute_bw, op.write_back_mu),
                    (compute, res.data.value()),
                )
                &&& res.cycles == vstd::math::max(
                    vstd::math::max(
                        tile_cycles(in1.value().read_from_mu, in1.value()) + tile_cycles(
                            in2.value().read_from_mu,
                            in2.value(),
                        ),
                        compute as int,
                    ),
                    tile_cycles(op.write_back_mu, res.data.value()),
                )
            },
{
    lemma_tile_cycles(in1.value().read_from_mu, in1.value());
    lemma_tile_cycles(in2.value().read_from_mu, in2.value());
    lemma_tile_cycles(op.write_back_mu, res.data.value());
    let out = choose|out: (u64, Tile<B>)|
        {
            &&& #[trigger] call_ensures(
                op.func,
                (&in1.value(), &in2.value(), op.compute_bw, op.write_back_mu),
                out,
            )
            &&& res.data == with_value(in1, out.1)
            &&& res.cycles == roofline(
                load_of(in1.value()) + load_of(in2.value()),
                out.0 as int,
                mu_cycles(op.write_back_mu, out.1.bytes()),
            )
        };
    assert(call_ensures(
        op.func,
        (&in1.value(), &in2.value(), op.compute_bw, op.write_back_mu),
        (out.0, res.data.value()),
    ));
}

/// Mapping one stream: the result carries the stops of the input, and the
/// slowest of loading, computing and storing decides the cycles.
pub proof fn law_unary_map_is_priced<F, T, OT>(
    op: UnaryMap<F>,
    elem: Elem<Tile<T>>,
    res: MapStep<OT>,
) where F: Fn(&Tile<T>, u64, bool) -> (u64, Tile<OT>)
    requires
        call_ensures(UnaryMap::<F>::step::<T, OT>, (&op, &elem), res),
    ensures
        res.data is ValStop <==> elem is ValStop,
        res.data.level() == elem.level(),
        exists|compute: u64|
            {
                &&& #[trigger] call_ensures(
                    op.func,
                    (&elem.value(), op.config.compute_bw, op.config.write_back_mu),
                    (compute, res.data.value()),
                )
                &&& res.cycles == vstd::math::max(
                    vstd::math::max(
                        tile_cycles(elem.value().read_from_mu, elem.value()),
                        compute as int,
                    ),
                    tile_cycles(op.config.write_back_mu, res.data.value()),
                )
            },
{
    lemma_tile_cycles(elem.value().read_from_mu, elem.value());
    lemma_tile_cycles(op.config.write_back_mu, res.data.value());
    let out = choose|out: (u64, Tile<OT>)|
        {
            &&& #[trigger] call_ensures(
                op.func,
                (&elem.value(), op.config.compute_bw, op.config.write_back_mu),
                out,
            )
            &&& res.data == with_value(elem, out.1)
            &&& res.cycles == roofline(
                load_of(elem.value()),
                out.0 as int,
                mu_cycles(op.config.write_back_mu, out.1.bytes()),
            )
        };
    assert(call_ensures(
        op.func,
        (&elem.value(), op.config.compute_bw, op.config.write_back_mu),
        (out.0, res.data.value()),
    ));
}

} // verus!
