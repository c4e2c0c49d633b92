//! Cutting tiles into rows or columns.

use vstd::prelude::*;

use crate::primitives::elem::{stop_option, Elem, StopType};
use crate::primitives::tile::Tile;

verus! {

/// Sends each row or column of a tile as a tile of one row. With
/// `filter_mask`, nothing is sent after the last valid row.
#[derive(Debug)]
pub struct RetileStreamify {
    pub split_row: bool,
    pub filter_mask: bool,
    pub id: u32,
}

impl RetileStreamify {
    /// How many rows or columns the tile has.
    pub open spec fn extent<T>(self, data: Tile<T>) -> int {
        if self.split_row {
            data.shape.0 as int
        } else {
            data.shape.1 as int
        }
    }

    /// How many rows or columns are sent.
    pub open spec fn count<T>(self, data: Tile<T>) -> int {
        if self.filter_mask && 0 < data.offset <= self.extent(data) {
            data.offset as int
        } else {
            self.extent(data)
        }
    }

    /// `piece` is the tile for row or column `k`.
    pub open spec fn is_piece<T>(self, data: Tile<T>, k: int, piece: Tile<T>) -> bool {
        let width = if self.split_row {
            data.shape.1
        } else {
            data.shape.0
        };
        &&& piece.wf()
        &&& piece.shape == (1usize, width)
        &&& piece.bytes_per_elem == data.bytes_per_elem
        &&& piece.read_from_mu == data.read_from_mu
        &&& piece.offset == (if k < data.offset {
            1int
        } else {
            0
        })
        &&& piece.underlying is Some <==> data.underlying is Some
        &&& data.underlying is Some ==> forall|j: int|
            0 <= j < width ==> #[trigger] piece.at(0, j) == if self.split_row {
                data.at(k, j)
            } else {
                data.at(j, k)
            }
    }

    /// `out` is what is sent for a tile: its pieces, of which the last closes
    /// what the tile closes.
    pub open spec fn is_retiled<T>(
        self,
        data: Tile<T>,
        stop_level: Option<StopType>,
        out: Seq<Elem<Tile<T>>>,
    ) -> bool {
        &&& out.len() == self.count(data)
        &&& forall|k: int|
            0 <= k < out.len() ==> {
                &&& self.is_piece(data, k, (#[trigger] out[k]).value())
                &&& out[k] is ValStop <==> stop_level is Some && k == out.len() - 1
                &&& out[k] is ValStop ==> out[k].level() == stop_level->0
            }
    }

    pub fn new(split_row: bool, filter_mask: bool, id: u32) -> (res: Self)
        ensures
            res == (RetileStreamify { split_row, filter_mask, id }),
    {
        RetileStreamify { split_row, filter_mask, id }
    }

    fn piece<T: Copy>(&self, data: &Tile<T>, k: usize) -> (res: Tile<T>)
        requires
            data.wf(),
            k < self.extent(*data),
        ensures
            self.is_piece(*data, k as int, res),
    {
        let offset: usize = if k < data.offset {
            1
        } else {
            0
        };
        match &data.underlying {
            Some(array) => {
                let row = if self.split_row {
                    array.row(k)
                } else {
                    array.column_as_row(k)
                };
                Tile::new_padded(row, data.bytes_per_elem, data.read_from_mu, offset)
            },
            None => {
                let width: usize = if self.split_row {
                    data.shape.1
                } else {
                    data.shape.0
                };
                Tile::new_blank_padded((1, width), data.bytes_per_elem, data.read_from_mu, offset)
            },
        }
    }

    /// Cuts a tile into rows or columns.
    pub fn retile<T: Copy>(&self, data: &Tile<T>, stop_level: Option<StopType>) -> (res: Vec<
        Elem<Tile<T>>,
    >)
        requires
            data.wf(),
        ensures
            self.is_retiled(*data, stop_level, res@),
    {
        let extent: usize = if self.split_row {
            data.shape.0
        } else {
            data.shape.1
        };
        let count: usize = if self.filter_mask && 0 < data.offset && data.offset <= extent {
            data.offset
        } else {
            extent
        };
        let mut out: Vec<Elem<Tile<T>>> = Vec::new();
        let mut k: usize = 0;
        while k < count
            invariant
                data.wf(),
                k <= count,
                count <= extent,
                extent == self.extent(*data),
                count == self.count(*data),
                out@.len() == k,
                forall|j: int|
                    0 <= j < k ==> {
                        &&& self.is_piece(*data, j, (#[trigger] out@[j]).value())
                        &&& out@[j] is ValStop <==> stop_level is Some && j == count - 1
                        &&& out@[j] is ValStop ==> out@[j].level() == stop_level->0
                    },
            decreases count - k,
        {
            let piece = self.piece(data, k);
            let elem = match stop_level {
                Some(level) if k + 1 == count => Elem::ValStop(piece, level),
                _ => Elem::Val(piece),
            };
            out.push(elem);
            k = k + 1;
        }
        out
    }

    /// Sends on one element, in the cycle in which it arrives.
    pub fn step<T: Copy>(&self, elem: &Elem<Tile<T>>) -> (res: Vec<Elem<Tile<T>>>)
        requires
            elem.value().wf(),
        ensures
            self.is_retiled(
                elem.value(),
                stop_option(*elem),
                res@,
            ),
    {
        match elem {
            Elem::Val(data) => self.retile(data, None),
            Elem::ValStop(data, s) => self.retile(data, Some(*s)),
        }
    }
}

/// Filtering drops only rows without data: what is sent has as many valid rows
/// as the tile.
pub proof fn law_filter_keeps_valid_rows<T>(op: RetileStreamify, data: Tile<T>, k: int)
    requires
        op.split_row,
        data.offset <= data.shape.0,
        op.count(data) <= k < data.shape.0,
    ensures
        k >= data.offset,
{
}

/// Streaming a tile row by row or column by column: every row or column that
/// is sent is a tile of one row that holds its cells, valid where it is one of
/// the valid ones of the tile. Where padding is filtered, nothing is sent
/// behind the last valid one. Only the last one carries a stop: that of the
/// tile.
pub proof fn law_pieces_hold_cells<T: Copy>(
    op: RetileStreamify,
    elem: Elem<Tile<T>>,
    res: Vec<Elem<Tile<T>>>,
    k: int,
    j: int,
)
    requires
        call_ensures(RetileStreamify::step::<T>, (&op, &elem), res),
        0 <= k < res@.len(),
        0 <= j < (if op.split_row {
            elem.value().shape.1
        } else {
            elem.value().shape.0
        }),
    ensures
        ({
            let data = elem.value();
            let extent = if op.split_row {
                data.shape.0
            } else {
                data.shape.1
            };
            &&& res@.len() == (if op.filter_mask && 0 < data.offset <= extent {
                data.offset
            } else {
                extent
            })
            &&& res@[k].value().shape == (1usize, if op.split_row {
                data.shape.1
            } else {
                data.shape.0
            })
            &&& res@[k].value().offset == (if k < data.offset {
                1int
            } else {
                0
            })
            &&& data.underlying is Some ==> res@[k].value().at(0, j) == (if op.split_row {
                data.at(k, j)
            } else {
                data.at(j, k)
            })
            &&& res@[k] is ValStop <==> elem is ValStop && k == res@.len() - 1
            &&& res@[k] is ValStop ==> res@[k].level() == elem.level()
        }),
{
    assert(op.is_piece(elem.value(), k, res@[k].value()));
}

} // verus!
