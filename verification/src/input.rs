use vstd::prelude::*;

use crate::text::digit_char;
use crate::utils::{Change, Reference, Value, arr9, lemma_arr9, names_cell, spec_ordinal};

verus! {

/// What a typed character sets a cell to: the digit `1` to `9`, or every
/// digit possible for anything else (`0` included).
pub open spec fn char_value_spec(c: char) -> Value {
    if '1' <= c <= '9' {
        Value::Def((c as u32 - 48) as u8)
    } else {
        Value::Pos(arr9(|k: int| true))
    }
}

/// What a typed character sets a cell to: the digit `1` to `9`, or every
/// digit possible for anything else (`0` included).
pub fn char_value(c: char) -> (r: Value)
    ensures
        r == char_value_spec(c),
{
    if '1' <= c && c <= '9' {
        Value::Def((c as u32 - 48) as u8)
    } else {
        let all = [true;9];
        proof {
            crate::utils::lemma_arr9_ext(|k: int| true, all);
        }
        Value::Pos(all)
    }
}

/// The changes for row `y` (from 0) typed as `row`: character `i` sets the
/// cell in column `i + 1`.
pub open spec fn row_changes_spec(y: u8, row: Seq<char>) -> Seq<Change> {
    Seq::new(row.len(), |i: int| Change(Reference::XY(((i + 1) as u8, (y + 1) as u8)), char_value_spec(row[i])))
}

/// The changes for the whole board typed as one line: character `i` sets
/// cell `i` in row-major order.
pub open spec fn board_changes_spec(line: Seq<char>) -> Seq<Change> {
    Seq::new(line.len(), |i: int| Change(Reference::Ord(i as usize), char_value_spec(line[i])))
}

/// What a typed row asks for.
pub enum RowInput {
    /// `z` first: the whole board follows on one line.
    WholeBoard,
    /// More than nine characters: the row is left out.
    Skip,
    /// The changes for the row.
    Cells(Vec<Change>),
}

/// Reads row `y` (from 0) as typed: `z` first asks for the whole board on
/// one line, more than nine characters leave the row out, and otherwise
/// each character sets the cell of its column.
pub fn parse_row(y: u8, row: &Vec<char>) -> (r: RowInput)
    requires
        y < 9,
        row@.len() > 0,
    ensures
        row@[0] == 'z' ==> r is WholeBoard,
        row@[0] != 'z' && row@.len() > 9 ==> r is Skip,
        row@[0] != 'z' && row@.len() <= 9 ==> (r matches RowInput::Cells(cs) && cs@ == row_changes_spec(y, row@)),
{
    if row[0] == 'z' {
        return RowInput::WholeBoard;
    }
    if row.len() > 9 {
        return RowInput::Skip;
    }
    let mut changes: Vec<Change> = Vec::new();
    let mut i: usize = 0;
    while i < row.len()
        invariant
            y < 9,
            i <= row@.len() <= 9,
            changes@ == row_changes_spec(y, row@).take(i as int),
        decreases row@.len() - i,
    {
        changes.push(Change(Reference::XY(((i + 1) as u8, y + 1)), char_value(row[i])));
        assert(changes@ =~= row_changes_spec(y, row@).take(i + 1));
        i += 1;
    }
    assert(changes@ =~= row_changes_spec(y, row@));
    RowInput::Cells(changes)
}

/// The changes for the whole board typed as one line: character `i` sets
/// cell `i` in row-major order.
pub fn parse_board(line: &Vec<char>) -> (r: Vec<Change>)
    ensures
        r@ == board_changes_spec(line@),
{
    let mut changes: Vec<Change> = Vec::new();
    let mut i: usize = 0;
    while i < line.len()
        invariant
            i <= line@.len(),
            changes@ == board_changes_spec(line@).take(i as int),
        decreases line@.len() - i,
    {
        changes.push(Change(Reference::Ord(i), char_value(line[i])));
        assert(changes@ =~= board_changes_spec(line@).take(i + 1));
        i += 1;
    }
    assert(changes@ =~= board_changes_spec(line@));
    changes
}

/// A typed digit sets its cell to that digit, which prints back as the
/// character typed; any other character leaves every digit possible.
pub proof fn lemma_typed_value(c: char)
    ensures
        '1' <= c <= '9' ==> (char_value_spec(c) matches Value::Def(d) && 1 <= d <= 9 && digit_char(d as int) == c),
        !('1' <= c <= '9') ==> (char_value_spec(c) matches Value::Pos(p) && forall|k: int| 0 <= k < 9 ==> #[trigger] p[k]),
{
    broadcast use lemma_arr9;

}

/// Character `i` of row `y`, typed, sets the cell on row `y + 1` and column
/// `i + 1`: the cell at index `9 * y + i`.
pub proof fn lemma_row_changes_cells(y: u8, row: Seq<char>)
    requires
        y < 9,
        row.len() <= 9,
    ensures
        row_changes_spec(y, row).len() == row.len(),
        forall|i: int|
            0 <= i < row.len() ==> names_cell(#[trigger] row_changes_spec(y, row)[i].0) && spec_ordinal(
                row_changes_spec(y, row)[i].0,
            ) == 9 * y + i && row_changes_spec(y, row)[i].1 == char_value_spec(row[i]),
{
}

/// Character `i` of the board typed as one line sets the cell at index `i`,
/// row `i / 9 + 1` and column `i % 9 + 1`.
pub proof fn lemma_board_changes_cells(line: Seq<char>)
    requires
        line.len() <= 81,
    ensures
        board_changes_spec(line).len() == line.len(),
        forall|i: int|
            0 <= i < line.len() ==> names_cell(#[trigger] board_changes_spec(line)[i].0) && spec_ordinal(
                board_changes_spec(line)[i].0,
            ) == i && board_changes_spec(line)[i].1 == char_value_spec(line[i]),
{
}

} // verus!
