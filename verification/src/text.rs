//! Text made of rows of characters.

use itertools::Itertools;
use vstd::prelude::*;

verus! {

/// The rows one after the other, with a line feed between each two.
pub open spec fn lines(rows: Seq<Seq<char>>) -> Seq<char>
    decreases rows.len(),
{
    if rows.len() == 0 {
        Seq::empty()
    } else if rows.len() == 1 {
        rows[0]
    } else {
        lines(rows.drop_last()) + seq!['\n'] + rows.last()
    }
}

/// `Itertools::join` of the `itertools` crate, on the characters of each
/// row with the empty separator and on the rows with a line feed as the
/// separator. The outside function writes every item as its `Display`
/// gives it, a character as itself and a text as it is, and the separator
/// between each two items.
#[verifier::external_body]
pub(crate) fn join_rows(rows: &Vec<Vec<char>>) -> (r: String)
    ensures
        r@ == lines(rows@.map_values(|row: Vec<char>| row@)),
{
    rows.iter().map(|row| row.iter().join("")).join("\n")
}

} // verus!
