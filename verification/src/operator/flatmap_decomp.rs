//! Splitting tiles into rows and counters into ranges.

use vstd::prelude::*;
use vstd::std_specs::convert::TryIntoSpec;

use crate::operator::counter::{
    count_range_elems, is_range, range_representable, range_stop,
};
use crate::primitives::elem::{stop_option, Elem, StopType};
use crate::primitives::select::{lemma_selected_len, selected};
use crate::primitives::tile::Tile;

verus! {

/// `piece` is row `r` of a tile, as a tile of one valid row.
pub open spec fn is_row_tile<T>(data: Tile<T>, r: int, piece: Tile<T>) -> bool {
    &&& piece.wf()
    &&& piece.shape == (1usize, data.shape.1)
    &&& piece.bytes_per_elem == data.bytes_per_elem
    &&& piece.read_from_mu == data.read_from_mu
    &&& piece.offset == 1
    &&& piece.underlying is Some <==> data.underlying is Some
    &&& data.underlying is Some ==> forall|j: int|
        0 <= j < data.shape.1 ==> #[trigger] piece.at(0, j) == data.at(r, j)
}

fn row_tile<T: Copy>(data: &Tile<T>, r: usize) -> (res: Tile<T>)
    requires
        data.wf(),
        data.underlying is Some ==> r < data.shape.0,
    ensures
        is_row_tile(*data, r as int, res),
{
    match &data.underlying {
        Some(array) => Tile::new_padded(array.row(r), data.bytes_per_elem, data.read_from_mu, 1),
        None => Tile::new_blank((1, data.shape.1), data.bytes_per_elem, data.read_from_mu),
    }
}

/// Sends the rows of a tile that a mask keeps, each as a tile of one row. The
/// mask has one column.
#[derive(Debug)]
pub struct FlatmapFilterRowStreamify {
    pub id: u32,
}

/// A mask has data, and a first column if it has rows.
pub open spec fn is_mask(mask: Tile<bool>) -> bool {
    mask.wf() && mask.underlying is Some && (mask.shape.0 > 0 ==> mask.shape.1 > 0)
}

/// The flags of a mask: its first column.
pub open spec fn mask_flags(mask: Tile<bool>) -> Seq<bool> {
    Seq::new(mask.shape.0 as nat, |i: int| mask.at(i, 0))
}

impl FlatmapFilterRowStreamify {
    /// The rows that are sent. A blank tile gives as many as the mask keeps; a
    /// tile with data, those of its own rows that the mask keeps.
    pub open spec fn kept<T>(self, data: Tile<T>, mask: Tile<bool>) -> Seq<int> {
        let rows = mask.shape.0;
        selected(
            mask_flags(mask),
            if data.underlying is Some && data.shape.0 < rows {
                data.shape.0 as nat
            } else {
                rows as nat
            },
        )
    }

    /// `out` is what is sent for a tile: the rows that are kept. The last row
    /// that the mask keeps closes what the tile closes.
    pub open spec fn is_filtered<T>(
        self,
        data: Tile<T>,
        mask: Tile<bool>,
        stop_level: Option<StopType>,
        out: Seq<Elem<Tile<T>>>,
    ) -> bool {
        let kept = self.kept(data, mask);
        let total = selected(mask_flags(mask), mask.shape.0 as nat).len();
        &&& out.len() == kept.len()
        &&& forall|k: int|
            0 <= k < out.len() ==> {
                &&& is_row_tile(data, kept[k], (#[trigger] out[k]).value())
                &&& out[k] is ValStop <==> stop_level is Some && k == total - 1
                &&& out[k] is ValStop ==> out[k].level() == stop_level->0
            }
    }

    pub fn new(id: u32) -> (res: Self)
        ensures
            res == (FlatmapFilterRowStreamify { id }),
    {
        FlatmapFilterRowStreamify { id }
    }

    fn count_kept(mask: &Tile<bool>) -> (res: usize)
        requires
            is_mask(*mask),
        ensures
            res == selected(mask_flags(*mask), mask.shape.0 as nat).len(),
    {
        let mut count: usize = 0;
        if let Some(flags) = &mask.underlying {
            let mut i: usize = 0;
            while i < mask.shape.0
                invariant
                    is_mask(*mask),
                    mask.underlying == Some(*flags),
                    i <= mask.shape.0,
                    count <= i,
                    count == selected(mask_flags(*mask), i as nat).len(),
                decreases mask.shape.0 - i,
            {
                if *flags.get(i, 0) {
                    count = count + 1;
                }
                i = i + 1;
            }
        }
        count
    }

    /// Sends the rows of a tile that a mask keeps.
    pub fn filter_streamify<T: Copy>(
        &self,
        data: &Tile<T>,
        mask: &Tile<bool>,
        stop_level: Option<StopType>,
    ) -> (res: Vec<Elem<Tile<T>>>)
        requires
            data.wf(),
            is_mask(*mask),
        ensures
            self.is_filtered(*data, *mask, stop_level, res@),
    {
        let total: usize = FlatmapFilterRowStreamify::count_kept(mask);
        let rows: usize = if data.underlying.is_some() && data.shape.0 < mask.shape.0 {
            data.shape.0
        } else {
            mask.shape.0
        };
        let ghost flags_seq = mask_flags(*mask);
        let mut out: Vec<Elem<Tile<T>>> = Vec::new();
        if let Some(flags) = &mask.underlying {
            let mut i: usize = 0;
            while i < rows
                invariant
                    data.wf(),
                    is_mask(*mask),
                    mask.underlying == Some(*flags),
                    flags_seq == mask_flags(*mask),
                    i <= rows <= mask.shape.0,
                    data.underlying is Some ==> rows <= data.shape.0,
                    out@.len() == selected(flags_seq, i as nat).len(),
                    forall|k: int|
                        0 <= k < out@.len() ==> {
                            &&& is_row_tile(
                                *data,
                                selected(flags_seq, i as nat)[k],
                                (#[trigger] out@[k]).value(),
                            )
                            &&& out@[k] is ValStop <==> stop_level is Some && k == total - 1
                            &&& out@[k] is ValStop ==> out@[k].level() == stop_level->0
                        },
                decreases rows - i,
            {
                if *flags.get(i, 0) {
                    proof {
                        lemma_selected_len(flags_seq, i as nat);
                    }
                    let piece = row_tile(data, i);
                    let sent: usize = out.len();
                    let elem = match stop_level {
                        Some(level) if sent + 1 == total => Elem::ValStop(piece, level),
                        _ => Elem::Val(piece),
                    };
                    out.push(elem);
                }
                i = i + 1;
            }
        }
        out
    }

    /// Sends on one pair of elements; both close the same.
    pub fn step<T: Copy>(&self, elem: &Elem<Tile<T>>, mask: &Elem<Tile<bool>>) -> (res: Vec<
        Elem<Tile<T>>,
    >)
        requires
            elem is Val <==> mask is Val,
            elem.level() == mask.level(),
            elem.value().wf(),
            is_mask(mask.value()),
        ensures
            self.is_filtered(
                elem.value(),
                mask.value(),
                stop_option(*elem),
                res@,
            ),
    {
        let mask_tile = match mask {
            Elem::Val(tile) => tile,
            Elem::ValStop(tile, _) => tile,
        };
        match elem {
            Elem::Val(data) => self.filter_streamify(data, mask_tile, None),
            Elem::ValStop(data, s) => self.filter_streamify(data, mask_tile, Some(*s)),
        }
    }
}

/// Sends every row of a tile as a tile of one row.
#[derive(Debug)]
pub struct FlatmapRowStreamify {
    pub id: u32,
}

impl FlatmapRowStreamify {
    /// `out` is what is sent for a tile: its rows, of which the last closes
    /// what the tile closes.
    pub open spec fn is_streamed<T>(
        self,
        data: Tile<T>,
        stop_level: Option<StopType>,
        out: Seq<Elem<Tile<T>>>,
    ) -> bool {
        &&& out.len() == data.shape.0
        &&& forall|k: int|
            0 <= k < out.len() ==> {
                &&& is_row_tile(data, k, (#[trigger] out[k]).value())
                &&& out[k] is ValStop <==> stop_level is Some && k == out.len() - 1
                &&& out[k] is ValStop ==> out[k].level() == stop_level->0
            }
    }

    pub fn new(id: u32) -> (res: Self)
        ensures
            res == (FlatmapRowStreamify { id }),
    {
        FlatmapRowStreamify { id }
    }

    /// Sends the rows of a tile.
    pub fn streamify<T: Copy>(&self, data: &Tile<T>, stop_level: Option<StopType>) -> (res: Vec<
        Elem<Tile<T>>,
    >)
        requires
            data.wf(),
        ensures
            self.is_streamed(*data, stop_level, res@),
    {
        let rows: usize = data.shape.0;
        let mut out: Vec<Elem<Tile<T>>> = Vec::new();
        let mut k: usize = 0;
        while k < rows
            invariant
                data.wf(),
                k <= rows,
                rows == data.shape.0,
                out@.len() == k,
                forall|j: int|
                    0 <= j < k ==> {
                        &&& is_row_tile(*data, j, (#[trigger] out@[j]).value())
                        &&& out@[j] is ValStop <==> stop_level is Some && j == rows - 1
                        &&& out@[j] is ValStop ==> out@[j].level() == stop_level->0
                    },
            decreases rows - k,
        {
            let piece = row_tile(data, k);
            let elem = match stop_level {
                Some(level) if k + 1 == rows => Elem::ValStop(piece, level),
                _ => Elem::Val(piece),
            };
            out.push(elem);
            k = k + 1;
        }
        out
    }

    /// Sends on one element.
    pub fn step<T: Copy>(&self, elem: &Elem<Tile<T>>) -> (res: Vec<Elem<Tile<T>>>)
        requires
            elem.value().wf(),
        ensures
            self.is_streamed(
                elem.value(),
                stop_option(*elem),
                res@,
            ),
    {
        match elem {
            Elem::Val(data) => self.streamify(data, None),
            Elem::ValStop(data, s) => self.streamify(data, Some(*s)),
        }
    }
}

/// A mask that keeps every row filters nothing out.
pub proof fn law_full_mask_streams_all_rows<T>(
    filter: FlatmapFilterRowStreamify,
    stream: FlatmapRowStreamify,
    data: Tile<T>,
    mask: Tile<bool>,
    stop_level: Option<StopType>,
    out: Seq<Elem<Tile<T>>>,
)
    requires
        is_mask(mask),
        mask.shape.0 == data.shape.0,
        forall|i: int| 0 <= i < mask.shape.0 ==> #[trigger] mask.at(i, 0),
    ensures
        filter.is_filtered(data, mask, stop_level, out) <==> stream.is_streamed(
            data,
            stop_level,
            out,
        ),
{
    let flags = mask_flags(mask);
    lemma_all_selected(flags, mask.shape.0 as nat);
    let kept = filter.kept(data, mask);
    assert(kept == selected(flags, mask.shape.0 as nat));
    if filter.is_filtered(data, mask, stop_level, out) {
        assert forall|k: int| 0 <= k < out.len() implies {
            &&& is_row_tile(data, k, (#[trigger] out[k]).value())
            &&& out[k] is ValStop <==> stop_level is Some && k == out.len() - 1
            &&& out[k] is ValStop ==> out[k].level() == stop_level->0
        } by {
            assert(is_row_tile(data, kept[k], out[k].value()));
        }
    }
    if stream.is_streamed(data, stop_level, out) {
        assert forall|k: int| 0 <= k < out.len() implies {
            &&& is_row_tile(data, kept[k], (#[trigger] out[k]).value())
            &&& out[k] is ValStop <==> stop_level is Some && k == kept.len() - 1
            &&& out[k] is ValStop ==> out[k].level() == stop_level->0
        } by {
            assert(is_row_tile(data, k, out[k].value()));
        }
    }
}

proof fn lemma_all_selected(flags: Seq<bool>, n: nat)
    requires
        n <= flags.len(),
        forall|i: int| 0 <= i < flags.len() ==> #[trigger] flags[i],
    ensures
        selected(flags, n).len() == n,
        forall|k: int| 0 <= k < n ==> #[trigger] selected(flags, n)[k] == k,
    decreases n,
{
    if n > 0 {
        lemma_all_selected(flags, (n - 1) as nat);
        assert(flags[n - 1]);
    }
}

/// Sends, for each number, the range of the numbers below it.
#[derive(Debug)]
pub struct FlatmapCounter {
    pub id: u32,
}

impl FlatmapCounter {
    pub fn new(id: u32) -> (res: Self)
        ensures
            res == (FlatmapCounter { id }),
    {
        FlatmapCounter { id }
    }

    /// The range below the number that a tile of one value carries.
    pub fn gen_stream<T: Copy + TryInto<usize> + TryFrom<usize>>(
        &self,
        scalar_tile: &Tile<T>,
        stop_level: Option<StopType>,
    ) -> (res: Vec<Elem<Tile<T>>>)
        requires
            scalar_tile.wf(),
            scalar_tile.underlying is Some,
            scalar_tile.shape.0 > 0,
            scalar_tile.shape.1 > 0,
            <T as TryIntoSpec<usize>>::obeys_try_into_spec(),
            ({
                let count = TryIntoSpec::<usize>::try_into_spec(
                    scalar_tile.at(0, 0),
                );
                &&& count is Ok
                &&& count->Ok_0 > 0
                &&& range_representable::<T>(count->Ok_0)
            }),
            range_stop(stop_level) <= StopType::MAX,
        ensures
            is_range(
                res@,
                TryIntoSpec::<usize>::try_into_spec(
                    scalar_tile.at(0, 0),
                )->Ok_0,
                scalar_tile.bytes_per_elem,
                scalar_tile.read_from_mu,
                range_stop(stop_level),
            ),
    {
        if let Some(array) = &scalar_tile.underlying {
            let value = *array.get(0, 0);
            let converted: Result<usize, _> = value.try_into();
            if let Ok(count) = converted {
                return count_range_elems(
                    count,
                    scalar_tile.bytes_per_elem,
                    scalar_tile.read_from_mu,
                    stop_level,
                    self.id,
                );
            }
        }
        assert(false);
        Vec::new()
    }
}

/// Streaming a tile row by row: row `k` leaves as element `k`, and only the
/// last one carries a stop: that of the tile.
pub proof fn law_rows_are_streamed<T: Copy>(
    op: FlatmapRowStreamify,
    elem: Elem<Tile<T>>,
    res: Vec<Elem<Tile<T>>>,
    k: int,
    j: int,
)
    requires
        call_ensures(FlatmapRowStreamify::step::<T>, (&op, &elem), res),
        0 <= k < res@.len(),
        0 <= j < elem.value().shape.1,
    ensures
        res@.len() == elem.value().shape.0,
        res@[k].value().shape == (1usize, elem.value().shape.1),
        res@[k].value().offset == 1,
        elem.value().underlying is Some ==> res@[k].value().at(0, j) == elem.value().at(k, j),
        res@[k] is ValStop <==> elem is ValStop && k == res@.len() - 1,
        res@[k] is ValStop ==> res@[k].level() == elem.level(),
{
    assert(is_row_tile(elem.value(), k, res@[k].value()));
}

/// Filtering a tile by a mask of as many rows: a row is sent exactly if the
/// mask keeps it, in the order of the rows, and only the last one carries a
/// stop: that of the tile.
pub proof fn law_mask_keeps_rows<T: Copy>(
    op: FlatmapFilterRowStreamify,
    elem: Elem<Tile<T>>,
    mask: Elem<Tile<bool>>,
    res: Vec<Elem<Tile<T>>>,
    rows: Seq<int>,
    k: int,
    j: int,
)
    requires
        elem.value().shape.0 == mask.value().shape.0,
        elem.value().underlying is Some,
        call_ensures(FlatmapFilterRowStreamify::step::<T>, (&op, &elem, &mask), res),
        rows == selected(
            Seq::new(mask.value().shape.0 as nat, |i: int| mask.value().at(i, 0)),
            mask.value().shape.0 as nat,
        ),
        0 <= k < res@.len(),
        0 <= j < elem.value().shape.1,
    ensures
        res@.len() == rows.len(),
        res@[k].value().shape == (1usize, elem.value().shape.1),
        res@[k].value().at(0, j) == elem.value().at(rows[k], j),
        res@[k] is ValStop <==> elem is ValStop && k == res@.len() - 1,
        res@[k] is ValStop ==> res@[k].level() == elem.level(),
{
    assert(mask_flags(mask.value()) =~= Seq::new(
        mask.value().shape.0 as nat,
        |i: int| mask.value().at(i, 0),
    ));
    assert(is_row_tile(elem.value(), rows[k], res@[k].value()));
}

} // verus!
