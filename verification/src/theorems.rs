//! What holds of the library as a whole.

use vstd::prelude::*;

use crate::board::{parsed, Board};
use crate::error::SudokuParseError;
use crate::field::cell_char;
use crate::rules::{
    cell, lemma_coordinates_index, lemma_index_coordinates, lemma_rules_by_cell, obeys_rules,
    on_board, violates_rules, well_formed,
};
use crate::search::{
    first_solution_of, initial_state, lemma_reachable, solutions_counted, solved_count, state_after,
};
use crate::text::{
    bytes_of_cells, cells_of_bytes, invalid_at, lemma_invalid_cells, lemma_rendered,
    lemma_violating_cells, lenient, parse_errors, rendered, violates_at,
};

verus! {

/// An input of 81 cells with which nothing is wrong holds digits 1-9 only and
/// obeys the sudoku rules: no row, column or square holds a digit twice.
pub proof fn accepted_input_obeys_rules(input: Seq<Option<u8>>)
    requires
        input.len() == 81,
        parse_errors(input).len() == 0,
    ensures
        well_formed(input),
        obeys_rules(input),
{
    lemma_invalid_cells(input, 81);
    assert(lenient(input) =~= input);
    lemma_violating_cells(input, 81);
    lemma_rules_by_cell(input);
    assert forall|i: int| 0 <= i < 81 implies ((#[trigger] input[i]) matches Some(digit) ==> 1
        <= digit <= 9) by {
        assert(!invalid_at(input, i));
    }
    assert forall|row: int, column: int| on_board(row, column) implies !#[trigger] violates_rules(
        input,
        row,
        column,
    ) by {
        lemma_coordinates_index(row, column);
        assert(!violates_at(input, row * 9 + column));
    }
}

/// Nothing is wrong with the cells of a grid that holds digits 1-9 only
/// and obeys the sudoku rules.
pub proof fn valid_grid_is_accepted(grid: Seq<Option<u8>>)
    requires
        well_formed(grid),
        obeys_rules(grid),
    ensures
        parse_errors(grid).len() == 0,
{
    lemma_invalid_cells(grid, 81);
    assert(lenient(grid) =~= grid);
    lemma_violating_cells(grid, 81);
    lemma_rules_by_cell(grid);
    assert forall|index: int| 0 <= index < 81 implies !violates_at(grid, index) by {
        lemma_index_coordinates(index);
    }
}

/// Every board that the search of a valid puzzle produces holds digits 1-9
/// only and obeys the sudoku rules.
pub proof fn search_obeys_rules(puzzle: Board, steps: nat)
    requires
        puzzle.valid(),
        state_after(initial_state(puzzle@), steps) is Some,
    ensures
        well_formed(state_after(initial_state(puzzle@), steps).unwrap().grid),
        obeys_rules(state_after(initial_state(puzzle@), steps).unwrap().grid),
{
    lemma_reachable(puzzle@, steps);
}

/// The search is determined by the cells of the board: boards with the same
/// cells are the same board, their searches pass through the same states,
/// find the same first solution and count the same number of solutions.
pub proof fn search_is_determined(
    first: Board,
    second: Board,
    steps: nat,
    max_solutions: Option<usize>,
    max_iterations: Option<usize>,
)
    requires
        first@ == second@,
    ensures
        first == second,
        state_after(initial_state(first@), steps) == state_after(initial_state(second@), steps),
        first_solution_of(first@) == first_solution_of(second@),
        solutions_counted(first@, max_solutions, max_iterations) == solutions_counted(
            second@,
            max_solutions,
            max_iterations,
        ),
{
    first.lemma_view_determines(second);
}

/// The display of a board is determined by its cells.
pub proof fn display_is_determined(first: Board, second: Board)
    requires
        first@ == second@,
    ensures
        rendered(first@) == rendered(second@),
{
}

/// The display of a board shows every cell: valid boards that are displayed
/// alike are the same board.
pub proof fn display_tells_boards_apart(first: Board, second: Board)
    requires
        first.valid(),
        second.valid(),
        rendered(first@) == rendered(second@),
    ensures
        first == second,
{
    lemma_rendered(first@);
    lemma_rendered(second@);
    assert forall|i: int| 0 <= i < 81 implies first@[i] == second@[i] by {
        lemma_index_coordinates(i);
        let row = i / 9;
        let column = i % 9;
        assert(cell_char(cell(first@, row, column)) == cell_char(cell(second@, row, column)));
    }
    assert(first@ =~= second@);
    first.lemma_view_determines(second);
}

/// Writing the cells of a grid as text bytes and reading the bytes gives the
/// cells back.
pub proof fn cells_survive_text(grid: Seq<Option<u8>>)
    requires
        well_formed(grid),
    ensures
        cells_of_bytes(bytes_of_cells(grid)) == grid,
{
    assert(cells_of_bytes(bytes_of_cells(grid)) =~= grid);
}

/// Reading digits `1` to `9` as cells and writing the cells as text bytes
/// gives the digits back: on texts of digits, reading is one to one.
pub proof fn digits_survive_cells(bytes: Seq<u8>)
    requires
        forall|i: int| 0 <= i < bytes.len() ==> 49 <= #[trigger] bytes[i] <= 57,
    ensures
        bytes_of_cells(cells_of_bytes(bytes)) == bytes,
{
    assert(bytes_of_cells(cells_of_bytes(bytes)) =~= bytes);
}

/// A valid board is read back from its own cells, and from the text bytes
/// of its cells: any other result of reading them is ruled out.
pub proof fn board_reads_back(board: Board, result: Result<Board, SudokuParseError>)
    requires
        board.valid(),
        parsed(board@, result) || parsed(cells_of_bytes(bytes_of_cells(board@)), result),
    ensures
        result == Ok::<Board, SudokuParseError>(board),
{
    cells_survive_text(board@);
    valid_grid_is_accepted(board@);
    match result {
        Ok(read) => {
            read.lemma_view_determines(board);
        },
        Err(_) => {},
    }
}

/// No more solved boards are counted than steps are taken.
pub proof fn solved_count_within_steps(puzzle: Seq<Option<u8>>, steps: nat)
    ensures
        solved_count(initial_state(puzzle), steps) <= steps,
    decreases steps,
{
    if steps > 0 {
        solved_count_within_steps(puzzle, (steps - 1) as nat);
    }
}

/// The count of solutions keeps within both caps. In particular, with no
/// iteration allowed no solution is counted.
pub proof fn count_keeps_within_caps(
    puzzle: Seq<Option<u8>>,
    max_solutions: Option<usize>,
    max_iterations: Option<usize>,
)
    ensures
        max_solutions matches Some(max) ==> solutions_counted(puzzle, max_solutions, max_iterations)
            <= max,
        max_iterations matches Some(max) ==> solutions_counted(
            puzzle,
            max_solutions,
            max_iterations,
        ) <= max,
        max_iterations == Some(0usize) ==> solutions_counted(puzzle, max_solutions, max_iterations)
            == 0,
        solutions_counted(puzzle, max_solutions, max_iterations) <= usize::MAX,
{
    if let Some(max) = max_iterations {
        solved_count_within_steps(puzzle, max as nat);
    }
}

} // verus!
