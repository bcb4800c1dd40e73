//! The board file format: a JSON array of rows, each an array of booleans.
//! Parsing and writing JSON text is serde_json's work; these are the items
//! through which the library calls it.

use vstd::prelude::*;
use crate::board::rows_of_board;

verus! {

#[verifier::external_type_specification]
#[verifier::external_body]
pub struct ExJsonError(serde_json::Error);

/// What parsing `text` as JSON gives, read as a board file reads it: `None`
/// where the text is not JSON; else `Some(None)` where the value is not an
/// array, and otherwise one entry per element of the array, `None` for an
/// element that is not an array and else one entry per element of that row,
/// `Some(b)` for a boolean `b` and `None` for any other value.
pub uninterp spec fn json_rows_of(text: Seq<char>) -> Option<Option<Seq<Option<Seq<Option<bool>>>>>>;

/// The JSON text of a boolean.
pub open spec fn bool_text(b: bool) -> Seq<char> {
    if b {
        seq!['t', 'r', 'u', 'e']
    } else {
        seq!['f', 'a', 'l', 's', 'e']
    }
}

/// The booleans of `row` as JSON, separated by commas.
pub open spec fn joined_bools(row: Seq<bool>) -> Seq<char>
    decreases row.len(),
{
    if row.len() == 0 {
        Seq::empty()
    } else if row.len() == 1 {
        bool_text(row[0])
    } else {
        joined_bools(row.drop_last()) + seq![','] + bool_text(row.last())
    }
}

/// A row as a JSON array of booleans.
pub open spec fn row_json(row: Seq<bool>) -> Seq<char> {
    seq!['['] + joined_bools(row) + seq![']']
}

/// The rows of `cells` as JSON arrays, separated by commas.
pub open spec fn joined_rows(cells: Seq<Seq<bool>>) -> Seq<char>
    decreases cells.len(),
{
    if cells.len() == 0 {
        Seq::empty()
    } else if cells.len() == 1 {
        row_json(cells[0])
    } else {
        joined_rows(cells.drop_last()) + seq![','] + row_json(cells.last())
    }
}

/// The compact JSON text of a matrix of booleans: an array of arrays, with no
/// white space.
pub open spec fn json_text_of(cells: Seq<Seq<bool>>) -> Seq<char> {
    seq!['['] + joined_rows(cells) + seq![']']
}

/// Relies on serde_json::from_str to parse `text` into a serde_json::Value,
/// which Value::as_array and Value::as_bool then read at the two levels that a
/// board file has.
#[verifier::external_body]
pub(crate) fn parse_rows(text: &str) -> (r: Result<
    Option<Vec<Option<Vec<Option<bool>>>>>,
    serde_json::Error,
>)
    ensures
        r is Ok <==> json_rows_of(text@) is Some,
        r is Ok ==> json_rows_of(text@) == Some(r->Ok_0.deep_view()),
{
    let v: serde_json::Value = serde_json::from_str(text)?;
    Ok(
        v.as_array().map(
            |rows| rows.iter().map(|row| row.as_array().map(|cells| cells.iter().map(|c| c.as_bool()).collect())).collect(),
        ),
    )
}

/// Relies on serde_json::to_string to write a matrix of booleans as a compact
/// JSON array of arrays. It fails only where a `Serialize` impl fails or a map
/// has keys that are not strings, which a matrix of booleans cannot; and
/// serde_json::from_str reads that text back as the same arrays of booleans.
#[verifier::external_body]
pub(crate) fn encode_cells(cells: &Vec<Vec<bool>>) -> (r: Result<String, serde_json::Error>)
    ensures
        r is Ok,
        r->Ok_0@ == json_text_of(cells.deep_view()),
        json_rows_of(r->Ok_0@) == rows_of_board(cells.deep_view()),
{
    serde_json::to_string(cells)
}

} // verus!
