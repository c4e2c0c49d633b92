//! The text that records the shape of a tensor beside its data: a JSON list of
//! its extents.

use vstd::prelude::*;
use vstd::string::*;

use crate::memory::aw_trace::comma_separated;

verus! {

/// The error of `serde_json`.
#[verifier::external_type_specification]
#[verifier::external_body]
pub struct ExJsonError(serde_json::Error);

/// Why a text does not give the shape of a tensor that can be tiled.
#[derive(Debug, Clone, Copy, PartialEq, Eq)]
pub enum ShapeError {
    /// The text is not a list of numbers.
    Text,
    /// An extent is too large for this machine.
    TooLarge,
    /// There are fewer than two dimensions.
    Rank,
    /// A tile has no elements.
    EmptyTile,
    /// The data has another size.
    Data,
}

/// The list of numbers that a JSON text holds, where it holds one.
pub uninterp spec fn json_numbers(text: Seq<char>) -> Option<Seq<u64>>;

/// Reads a JSON list of numbers.
///
/// Calls `serde_json::from_str` for a `Vec<u64>`. Claims that whether it
/// succeeds, and with which numbers, depends on the text alone.
#[verifier::external_body]
fn parse_numbers(text: &str) -> (res: Result<Vec<u64>, serde_json::Error>)
    ensures
        match res {
            Ok(numbers) => json_numbers(text@) == Some(numbers@),
            Err(_) => json_numbers(text@) is None,
        },
{
    serde_json::from_str(text)
}

/// The numbers of a list of extents.
pub open spec fn as_numbers(extents: Seq<usize>) -> Seq<u64> {
    extents.map_values(|x: usize| x as u64)
}

/// The text for a list of extents.
pub open spec fn list_text(extents: Seq<usize>) -> Seq<char> {
    "["@ + comma_separated(extents, extents.len()) + "]"@
}

/// Writes a JSON list of extents.
///
/// Calls `serde_json::to_string` for a `Vec<usize>`. Claims that it succeeds
/// with the numbers in decimal notation, separated by commas and in brackets,
/// and that the text reads as the same numbers.
#[verifier::external_body]
fn format_extents(extents: &Vec<usize>) -> (res: Result<String, serde_json::Error>)
    ensures
        res is Ok,
        res->Ok_0@ == list_text(extents@),
        json_numbers(res->Ok_0@) == Some(as_numbers(extents@)),
{
    serde_json::to_string(extents)
}

/// The shape that a list of numbers gives to a tensor that is read in tiles of
/// the given size.
pub open spec fn shape_from(
    numbers: Option<Seq<u64>>,
    tile_row: usize,
    tile_col: usize,
) -> Result<Seq<usize>, ShapeError> {
    match numbers {
        None => Err(ShapeError::Text),
        Some(list) => if exists|i: int| 0 <= i < list.len() && #[trigger] list[i] > usize::MAX {
            Err(ShapeError::TooLarge)
        } else if list.len() < 2 {
            Err(ShapeError::Rank)
        } else if tile_row == 0 || tile_col == 0 {
            Err(ShapeError::EmptyTile)
        } else {
            Ok(list.map_values(|x: u64| x as usize))
        },
    }
}

/// Checks that a list of numbers can be the shape of a tensor that is read in
/// tiles of the given size.
pub fn checked_shape(numbers: Option<Vec<u64>>, tile_row: usize, tile_col: usize) -> (res: Result<
    Vec<usize>,
    ShapeError,
>)
    ensures
        ({
            let list = match numbers {
                Some(list) => Some(list@),
                None => None,
            };
            match res {
                Ok(shape) => shape_from(list, tile_row, tile_col) == Ok::<Seq<usize>, ShapeError>(
                    shape@,
                ),
                Err(error) => shape_from(list, tile_row, tile_col)
                    == Err::<Seq<usize>, ShapeError>(error),
            }
        }),
{
    match &numbers {
        None => Err(ShapeError::Text),
        Some(list) => {
            let mut shape: Vec<usize> = Vec::new();
            let mut i: usize = 0;
            while i < list.len()
                invariant
                    numbers == Some(*list),
                    i <= list@.len(),
                    shape@.len() == i,
                    forall|k: int| 0 <= k < i ==> #[trigger] list@[k] <= usize::MAX,
                    forall|k: int| 0 <= k < i ==> #[trigger] shape@[k] == list@[k],
                decreases list@.len() - i,
            {
                if list[i] > usize::MAX as u64 {
                    return Err(ShapeError::TooLarge);
                }
                shape.push(list[i] as usize);
                i = i + 1;
            }
            if shape.len() < 2 {
                Err(ShapeError::Rank)
            } else if tile_row == 0 || tile_col == 0 {
                Err(ShapeError::EmptyTile)
            } else {
                assert(shape@ =~= list@.map_values(|x: u64| x as usize));
                Ok(shape)
            }
        },
    }
}

/// Reads the shape of a tensor that is read in tiles of the given size.
pub fn read_shape(text: &str, tile_row: usize, tile_col: usize) -> (res: Result<
    Vec<usize>,
    ShapeError,
>)
    ensures
        match res {
            Ok(shape) => shape_from(json_numbers(text@), tile_row, tile_col) == Ok::<
                Seq<usize>,
                ShapeError,
            >(shape@),
            Err(error) => shape_from(json_numbers(text@), tile_row, tile_col) == Err::<
                Seq<usize>,
                ShapeError,
            >(error),
        },
{
    match parse_numbers(text) {
        Ok(numbers) => checked_shape(Some(numbers), tile_row, tile_col),
        Err(_) => checked_shape(None, tile_row, tile_col),
    }
}

/// Writes the shape of a tensor.
pub fn shape_text(shape: &Vec<usize>) -> (res: String)
    ensures
        res@ == list_text(shape@),
        json_numbers(res@) == Some(as_numbers(shape@)),
{
    match format_extents(shape) {
        Ok(text) => text,
        Err(_) => String::new(),
    }
}

/// The numbers that are written for a shape of at least two dimensions give
/// the same shape when they are read.
pub proof fn law_shape_is_read_back(shape: Seq<usize>, tile_row: usize, tile_col: usize)
    requires
        shape.len() >= 2,
        tile_row > 0,
        tile_col > 0,
    ensures
        shape_from(Some(as_numbers(shape)), tile_row, tile_col) == Ok::<Seq<usize>, ShapeError>(
            shape,
        ),
{
    let list = as_numbers(shape);
    assert forall|i: int| 0 <= i < list.len() implies #[trigger] list[i] <= usize::MAX by {
        assert(list[i] == shape[i] as u64);
    }
    assert(list.map_values(|x: u64| x as usize) =~= shape);
}

} // verus!
