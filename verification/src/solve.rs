//! Solving a board while a renderer looks on.

use vstd::prelude::*;

use crate::board::Board;
use crate::error::SudokuSolveError;
use crate::renderers::sudoku_renderer::SudokuRenderer;
use crate::rules::full;
use crate::search::{
    first_solution_of, first_solved_at, grid_number, initial_state, lemma_first_solution_is,
    lemma_no_first_solution, pow10, solved_at, state_after,
};
use crate::solutions::{first_solution_decides, has_solution, least_solution};

verus! {

/// Search for the first solution of the board. The renderer is shown the
/// board after every step of the search, and when the search is over it is
/// shown the solution, or told that there is none. The result is that of
/// `Board::first_solution`: the least solution of the board, or `Unsolvable`
/// if the board has no solution or is full already.
pub fn solve_board<R: SudokuRenderer>(board: Board, renderer: &R) -> (result: Result<
    Board,
    SudokuSolveError,
>)
    ensures
        match result {
            Ok(solution) => {
                &&& first_solution_of(board@) == Some(solution@)
                &&& !full(board@)
                &&& least_solution(solution@, board@)
            },
            Err(error) => {
                &&& first_solution_of(board@) is None
                &&& full(board@) || !has_solution(board@)
            },
        },
{
    let mut iter = board.solve_iter();
    let ghost start = initial_state(board@);
    let ghost mut steps: nat = 0;
    proof {
        use_type_invariant(&board);
        first_solution_decides(board@);
    }
    loop
        invariant
            board.valid(),
            start == initial_state(board@),
            iter.wf(),
            state_after(start, steps) == Some(iter@),
            forall|earlier: nat| earlier <= steps ==> !solved_at(start, earlier),
            match first_solution_of(board@) {
                Some(first) => !full(board@) && least_solution(first, board@),
                None => full(board@) || !has_solution(board@),
            },
        decreases pow10(81) - grid_number(iter@.grid),
    {
        match iter.next() {
            Some((board_snapshot, is_solved)) => {
                proof {
                    steps = steps + 1;
                    assert(state_after(start, steps) == Some(iter@));
                }
                renderer.display_step(&board_snapshot);

                if is_solved {
                    proof {
                        assert(first_solved_at(start, steps));
                        lemma_first_solution_is(board@, steps);
                    }
                    renderer.display_final_result(Some(&board_snapshot));
                    return Ok(board_snapshot);
                }
            },
            None => {
                proof {
                    lemma_no_first_solution(board@, steps);
                }
                renderer.display_final_result(None);
                return Err(SudokuSolveError::Unsolvable);
            },
        }
    }
}

} // verus!
