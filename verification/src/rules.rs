//! The mathematical model of a board and of the sudoku rules.
//!
//! A board is modelled as a sequence of 81 cells in row-major order, each
//! cell either `None` (empty) or `Some(digit)`.

use vstd::prelude::*;

verus! {

/// The coordinates name a cell of the board.
pub open spec fn on_board(row: int, column: int) -> bool {
    0 <= row < 9 && 0 <= column < 9
}

/// The cell at a row and a column.
pub open spec fn cell(grid: Seq<Option<u8>>, row: int, column: int) -> Option<u8> {
    grid[row * 9 + column]
}

/// The grid has 81 cells, and every filled cell holds a digit 1-9.
pub open spec fn well_formed(grid: Seq<Option<u8>>) -> bool {
    &&& grid.len() == 81
    &&& forall|i: int|
        0 <= i < 81 ==> ((#[trigger] grid[i]) matches Some(digit) ==> 1 <= digit <= 9)
}

/// Every cell of the grid is filled.
pub open spec fn full(grid: Seq<Option<u8>>) -> bool {
    forall|i: int| 0 <= i < grid.len() ==> (#[trigger] grid[i]) is Some
}

/// Some cell of the row holds `number`.
pub open spec fn used_in_row(grid: Seq<Option<u8>>, row: int, number: Option<u8>) -> bool {
    exists|column: int| 0 <= column < 9 && #[trigger] cell(grid, row, column) == number
}

/// Some cell of the column holds `number`.
pub open spec fn used_in_column(grid: Seq<Option<u8>>, column: int, number: Option<u8>) -> bool {
    exists|row: int| 0 <= row < 9 && #[trigger] cell(grid, row, column) == number
}

/// Two cells lie in the same 3x3 square.
pub open spec fn same_square(row1: int, column1: int, row2: int, column2: int) -> bool {
    row1 / 3 == row2 / 3 && column1 / 3 == column2 / 3
}

/// Some cell of the 3x3 square around (`row`, `column`) holds `number`.
pub open spec fn used_in_square(
    grid: Seq<Option<u8>>,
    row: int,
    column: int,
    number: Option<u8>,
) -> bool {
    exists|r: int, c: int|
        on_board(r, c) && same_square(row, column, r, c) && #[trigger] cell(grid, r, c) == number
}

/// `number` occurs neither in the row, nor in the column, nor in the square
/// of the position. The cell at the position itself counts like any other.
pub open spec fn valid_number(
    grid: Seq<Option<u8>>,
    row: int,
    column: int,
    number: Option<u8>,
) -> bool {
    &&& !used_in_row(grid, row, number)
    &&& !used_in_column(grid, column, number)
    &&& !used_in_square(grid, row, column, number)
}

/// Two cells share a row, a column or a square.
pub open spec fn same_unit(row1: int, column1: int, row2: int, column2: int) -> bool {
    row1 == row2 || column1 == column2 || same_square(row1, column1, row2, column2)
}

/// Two different cells of one row, column or square hold the same digit.
pub open spec fn conflict(
    grid: Seq<Option<u8>>,
    row1: int,
    column1: int,
    row2: int,
    column2: int,
) -> bool {
    &&& on_board(row1, column1)
    &&& on_board(row2, column2)
    &&& (row1 != row2 || column1 != column2)
    &&& same_unit(row1, column1, row2, column2)
    &&& cell(grid, row1, column1) is Some
    &&& cell(grid, row1, column1) == cell(grid, row2, column2)
}

/// The sudoku rule: no row, column or 3x3 square holds a digit twice.
pub open spec fn obeys_rules(grid: Seq<Option<u8>>) -> bool {
    forall|row1: int, column1: int, row2: int, column2: int|
        !(#[trigger] conflict(grid, row1, column1, row2, column2))
}

/// The cell is filled, and with the cell taken off the board its digit could
/// not be put back: the digit occurs once more in its row, column or square.
pub open spec fn violates_rules(grid: Seq<Option<u8>>, row: int, column: int) -> bool {
    &&& cell(grid, row, column) is Some
    &&& !valid_number(grid.update(row * 9 + column, None), row, column, cell(grid, row, column))
}

/// The index of the first empty cell at or after `start`, 81 if there is none.
pub open spec fn first_empty_from(grid: Seq<Option<u8>>, start: int) -> int
    decreases 81 - start,
{
    if start < 0 || start >= 81 {
        81
    } else if grid[start] is None {
        start
    } else {
        first_empty_from(grid, start + 1)
    }
}

/// `first_empty_from` is the least index of an empty cell from `start` on.
pub proof fn lemma_first_empty_from(grid: Seq<Option<u8>>, start: int)
    requires
        0 <= start <= 81,
    ensures
        start <= first_empty_from(grid, start) <= 81,
        first_empty_from(grid, start) < 81 ==> grid[first_empty_from(grid, start)] is None,
        forall|i: int| start <= i < first_empty_from(grid, start) ==> (#[trigger] grid[i]) is Some,
    decreases 81 - start,
{
    if start < 81 && grid[start] is Some {
        lemma_first_empty_from(grid, start + 1);
    }
}

/// The least index of an empty cell from `start` on is `first_empty_from`.
pub proof fn lemma_first_empty_is(grid: Seq<Option<u8>>, start: int, first: int)
    requires
        0 <= start <= first <= 81,
        forall|i: int| start <= i < first ==> (#[trigger] grid[i]) is Some,
        first < 81 ==> grid[first] is None,
    ensures
        first_empty_from(grid, start) == first,
    decreases first - start,
{
    if start < first {
        lemma_first_empty_is(grid, start + 1, first);
    }
}

/// A cell of a row and a column is a cell of the grid, and the other way round.
pub proof fn lemma_index_coordinates(index: int)
    requires
        0 <= index < 81,
    ensures
        on_board(index / 9, index % 9),
        (index / 9) * 9 + index % 9 == index,
{
}

/// Different cells have different indices.
pub proof fn lemma_coordinates_index(row: int, column: int)
    requires
        on_board(row, column),
    ensures
        0 <= row * 9 + column < 81,
        (row * 9 + column) / 9 == row,
        (row * 9 + column) % 9 == column,
{
}

/// A digit that is valid at an empty or differently filled position can be
/// placed there without breaking the rules.
pub proof fn lemma_placement_obeys_rules(
    grid: Seq<Option<u8>>,
    row: int,
    column: int,
    digit: u8,
)
    requires
        grid.len() == 81,
        obeys_rules(grid),
        on_board(row, column),
        valid_number(grid, row, column, Some(digit)),
    ensures
        obeys_rules(grid.update(row * 9 + column, Some(digit))),
{
    let placed = grid.update(row * 9 + column, Some(digit));
    assert forall|row1: int, column1: int, row2: int, column2: int|
        !(#[trigger] conflict(placed, row1, column1, row2, column2)) by {
        if conflict(placed, row1, column1, row2, column2) {
            lemma_coordinates_index(row, column);
            lemma_coordinates_index(row1, column1);
            lemma_coordinates_index(row2, column2);
            let here1 = row1 == row && column1 == column;
            let here2 = row2 == row && column2 == column;
            if !here1 && !here2 {
                assert(conflict(grid, row1, column1, row2, column2));
            } else if here1 {
                assert(cell(grid, row2, column2) == Some(digit));
            } else {
                assert(cell(grid, row1, column1) == Some(digit));
            }
        }
    }
}

/// Emptying a cell never breaks the rules.
pub proof fn lemma_clearing_obeys_rules(grid: Seq<Option<u8>>, index: int)
    requires
        grid.len() == 81,
        obeys_rules(grid),
        0 <= index < 81,
    ensures
        obeys_rules(grid.update(index, None)),
{
    let cleared = grid.update(index, None);
    assert forall|row1: int, column1: int, row2: int, column2: int|
        !(#[trigger] conflict(cleared, row1, column1, row2, column2)) by {
        if conflict(cleared, row1, column1, row2, column2) {
            lemma_coordinates_index(row1, column1);
            lemma_coordinates_index(row2, column2);
            assert(conflict(grid, row1, column1, row2, column2));
        }
    }
}

/// A grid obeys the rules exactly if none of its cells violates them.
pub proof fn lemma_rules_by_cell(grid: Seq<Option<u8>>)
    requires
        grid.len() == 81,
    ensures
        obeys_rules(grid) <==> forall|row: int, column: int|
            on_board(row, column) ==> !#[trigger] violates_rules(grid, row, column),
{
    if obeys_rules(grid) {
        assert forall|row: int, column: int|
            on_board(row, column) implies !#[trigger] violates_rules(grid, row, column) by {
            if violates_rules(grid, row, column) {
                lemma_violation_has_partner(grid, row, column);
            }
        }
    }
    if forall|row: int, column: int|
        on_board(row, column) ==> !#[trigger] violates_rules(grid, row, column) {
        assert forall|row1: int, column1: int, row2: int, column2: int|
            !(#[trigger] conflict(grid, row1, column1, row2, column2)) by {
            if conflict(grid, row1, column1, row2, column2) {
                lemma_partner_is_violation(grid, row1, column1, row2, column2);
                assert(violates_rules(grid, row1, column1));
            }
        }
    }
}

/// A violating cell is in conflict with some other cell.
pub proof fn lemma_violation_has_partner(grid: Seq<Option<u8>>, row: int, column: int)
    requires
        grid.len() == 81,
        on_board(row, column),
        violates_rules(grid, row, column),
    ensures
        exists|row2: int, column2: int| #[trigger] conflict(grid, row, column, row2, column2),
{
    let number = cell(grid, row, column);
    let cleared = grid.update(row * 9 + column, None);
    lemma_coordinates_index(row, column);
    if used_in_row(cleared, row, number) {
        let column2 = choose|column2: int|
            0 <= column2 < 9 && #[trigger] cell(cleared, row, column2) == number;
        lemma_coordinates_index(row, column2);
        assert(conflict(grid, row, column, row, column2));
    } else if used_in_column(cleared, column, number) {
        let row2 = choose|row2: int|
            0 <= row2 < 9 && #[trigger] cell(cleared, row2, column) == number;
        lemma_coordinates_index(row2, column);
        assert(conflict(grid, row, column, row2, column));
    } else {
        let (row2, column2) = choose|r: int, c: int|
            on_board(r, c) && same_square(row, column, r, c) && #[trigger] cell(cleared, r, c)
                == number;
        lemma_coordinates_index(row2, column2);
        assert(conflict(grid, row, column, row2, column2));
    }
}

/// Each party of a conflict violates the rules.
pub proof fn lemma_partner_is_violation(
    grid: Seq<Option<u8>>,
    row1: int,
    column1: int,
    row2: int,
    column2: int,
)
    requires
        grid.len() == 81,
        conflict(grid, row1, column1, row2, column2),
    ensures
        violates_rules(grid, row1, column1),
        violates_rules(grid, row2, column2),
{
    lemma_coordinates_index(row1, column1);
    lemma_coordinates_index(row2, column2);
    let number = cell(grid, row1, column1);
    let cleared1 = grid.update(row1 * 9 + column1, None);
    let cleared2 = grid.update(row2 * 9 + column2, None);
    assert(cell(cleared1, row2, column2) == number);
    assert(cell(cleared2, row1, column1) == number);
    if row1 == row2 {
        assert(used_in_row(cleared1, row1, number));
        assert(used_in_row(cleared2, row2, number));
    } else if column1 == column2 {
        assert(used_in_column(cleared1, column1, number));
        assert(used_in_column(cleared2, column2, number));
    } else {
        assert(used_in_square(cleared1, row1, column1, number));
        assert(used_in_square(cleared2, row2, column2, number));
    }
}

} // verus!
