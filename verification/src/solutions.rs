//! The search finds every solution of a puzzle, in rising order.
//!
//! A solution of a puzzle is a full grid that obeys the rules and keeps the
//! digits of the puzzle. Grids are ordered by the numbers they read as
//! (`grid_number`): for full grids this is the order of the digits in
//! row-major order.

use vstd::prelude::*;

use crate::rules::{
    cell, conflict, full, lemma_coordinates_index, lemma_first_empty_from, lemma_first_empty_is,
    lemma_index_coordinates, obeys_rules, on_board, same_square, used_in_column, used_in_row,
    used_in_square, well_formed,
};
use crate::search::{
    advance, at_most, candidate_fits, digit_of, extends, first_solution_of, first_solved_at,
    frame_fits, grid_number, initial_state, least_candidate, lemma_advance,
    lemma_clearing_obeys_rules_of_top, lemma_complete_is_full, lemma_digits, lemma_exhausted_stays,
    lemma_first_solution_is, lemma_least_candidate, lemma_number_grows, lemma_prepared_stack,
    lemma_prepared_works_on, lemma_reachable, lemma_rest_fits, lemma_rest_works_on,
    lemma_search_ends, lemma_solved_count_settles, lemma_total_steps, prepared_stack, run_stack,
    solutions_counted, solved_at, solved_count, stack_fits, state_after, state_wf, total_steps,
    works_on, Frame, SearchState,
};

verus! {

/// The grid solves the puzzle: it is full, obeys the rules and keeps the
/// digits of the puzzle.
pub open spec fn is_solution(grid: Seq<Option<u8>>, puzzle: Seq<Option<u8>>) -> bool {
    &&& well_formed(grid)
    &&& full(grid)
    &&& obeys_rules(grid)
    &&& extends(grid, puzzle)
}

/// The puzzle has a solution.
pub open spec fn has_solution(puzzle: Seq<Option<u8>>) -> bool {
    exists|grid: Seq<Option<u8>>| is_solution(grid, puzzle)
}

/// The grid is the least solution of the puzzle: every other solution reads
/// as a larger number.
pub open spec fn least_solution(grid: Seq<Option<u8>>, puzzle: Seq<Option<u8>>) -> bool {
    &&& is_solution(grid, puzzle)
    &&& forall|other: Seq<Option<u8>>| #[trigger]
        is_solution(other, puzzle) ==> other == grid || grid_number(grid) < grid_number(other)
}

/// The solutions of a puzzle.
pub open spec fn solutions_of(puzzle: Seq<Option<u8>>) -> Set<Seq<Option<u8>>> {
    Set::new(|grid: Seq<Option<u8>>| is_solution(grid, puzzle))
}

/// The boards that the first `steps` steps of the search report as solved.
pub open spec fn reported(start: SearchState, steps: nat) -> Set<Seq<Option<u8>>>
    decreases steps,
{
    if steps == 0 {
        Set::empty()
    } else {
        let before = reported(start, (steps - 1) as nat);
        if solved_at(start, steps) {
            before.insert(state_after(start, steps).unwrap().grid)
        } else {
            before
        }
    }
}

/// Every filled cell holds a digit 1-9.
pub open spec fn digits_in_range(grid: Seq<Option<u8>>) -> bool {
    forall|i: int|
        0 <= i < grid.len() ==> ((#[trigger] grid[i]) matches Some(digit) ==> 1 <= digit <= 9)
}

/// Cell by cell, `lower` holds no larger digit than `upper`.
pub open spec fn dominated(lower: Seq<Option<u8>>, upper: Seq<Option<u8>>) -> bool {
    &&& lower.len() == upper.len()
    &&& forall|i: int| 0 <= i < lower.len() ==> digit_of(#[trigger] lower[i]) <= digit_of(upper[i])
}

/// The solution lies ahead of a frame of the stack: it agrees with the grid
/// before the cell of the frame, and its digit in that cell is still to be tried.
pub open spec fn aims_at(
    grid: Seq<Option<u8>>,
    stack: Seq<Frame>,
    solution: Seq<Option<u8>>,
    target: int,
) -> bool {
    &&& 0 <= target < stack.len()
    &&& forall|i: int| 0 <= i < stack[target].index ==> (#[trigger] grid[i]) == solution[i]
    &&& digit_of(solution[stack[target].index]) >= stack[target].candidate
}

/// The first index from `from` on at which the grids differ, their length if
/// there is none.
pub open spec fn first_difference(a: Seq<Option<u8>>, b: Seq<Option<u8>>, from: int) -> int
    decreases a.len() - from,
{
    if from < 0 || from >= a.len() {
        a.len() as int
    } else if a[from] != b[from] {
        from
    } else {
        first_difference(a, b, from + 1)
    }
}

/// `first_difference` is the least index from `from` on at which the grids differ.
pub proof fn lemma_first_difference(a: Seq<Option<u8>>, b: Seq<Option<u8>>, from: int)
    requires
        0 <= from <= a.len(),
    ensures
        from <= first_difference(a, b, from) <= a.len(),
        first_difference(a, b, from) < a.len() ==> a[first_difference(a, b, from)]
            != b[first_difference(a, b, from)],
        forall|i: int| from <= i < first_difference(a, b, from) ==> (#[trigger] a[i]) == b[i],
    decreases a.len() - from,
{
    if from < a.len() && a[from] == b[from] {
        lemma_first_difference(a, b, from + 1);
    }
}

/// A grid that is dominated by another reads as no larger number, and as a
/// smaller one unless the grids are the same.
pub proof fn lemma_dominated(lower: Seq<Option<u8>>, upper: Seq<Option<u8>>)
    requires
        dominated(lower, upper),
        digits_in_range(lower),
        digits_in_range(upper),
    ensures
        grid_number(lower) <= grid_number(upper),
        lower == upper || grid_number(lower) < grid_number(upper),
    decreases lower.len(),
{
    if lower.len() == 0 {
        assert(lower =~= upper);
    } else {
        let shorter_lower = lower.drop_last();
        let shorter_upper = upper.drop_last();
        assert(dominated(shorter_lower, shorter_upper)) by {
            assert forall|i: int| 0 <= i < shorter_lower.len() implies digit_of(
                #[trigger] shorter_lower[i],
            ) <= digit_of(shorter_upper[i]) by {
                assert(shorter_lower[i] == lower[i]);
                assert(shorter_upper[i] == upper[i]);
            }
        }
        assert(digits_in_range(shorter_lower)) by {
            assert forall|i: int| 0 <= i < shorter_lower.len() implies ((
            #[trigger] shorter_lower[i]) matches Some(digit) ==> 1 <= digit <= 9) by {
                assert(shorter_lower[i] == lower[i]);
            }
        }
        assert(digits_in_range(shorter_upper)) by {
            assert forall|i: int| 0 <= i < shorter_upper.len() implies ((
            #[trigger] shorter_upper[i]) matches Some(digit) ==> 1 <= digit <= 9) by {
                assert(shorter_upper[i] == upper[i]);
            }
        }
        lemma_dominated(shorter_lower, shorter_upper);
        let last = lower.len() - 1;
        assert(digit_of(lower[last]) <= digit_of(upper[last]));
        assert(digit_of(lower[last]) <= 9 && digit_of(upper[last]) <= 9);
        if shorter_lower == shorter_upper && lower.last() == upper.last() {
            assert(lower =~= shorter_lower.push(lower.last()));
            assert(upper =~= shorter_upper.push(upper.last()));
        }
    }
}

/// Of two grids with digits 1-9, the one that reads as the smaller number
/// holds the smaller digit where they first differ.
pub proof fn lemma_smaller_number(smaller: Seq<Option<u8>>, larger: Seq<Option<u8>>)
    requires
        smaller.len() == larger.len(),
        digits_in_range(smaller),
        digits_in_range(larger),
        grid_number(smaller) < grid_number(larger),
    ensures
        first_difference(smaller, larger, 0) < smaller.len(),
        digit_of(smaller[first_difference(smaller, larger, 0)]) < digit_of(
            larger[first_difference(smaller, larger, 0)],
        ),
        forall|i: int|
            0 <= i < first_difference(smaller, larger, 0) ==> (#[trigger] smaller[i]) == larger[i],
{
    let index = first_difference(smaller, larger, 0);
    lemma_first_difference(smaller, larger, 0);
    if index == smaller.len() {
        assert(smaller =~= larger);
    } else if digit_of(smaller[index]) > digit_of(larger[index]) {
        assert forall|i: int| 0 <= i < larger.len() implies digit_of(#[trigger] larger[i])
            <= 9 by {}
        lemma_number_grows(larger, smaller, index);
    }
}

/// A filled cell of the grid other than the cell of the top frame holds the
/// digit of a solution that agrees with the grid before that cell.
proof fn lemma_filled_cells_agree(
    grid: Seq<Option<u8>>,
    cursor: int,
    stack: Seq<Frame>,
    puzzle: Seq<Option<u8>>,
    solution: Seq<Option<u8>>,
    index: int,
)
    requires
        well_formed(grid),
        stack_fits(grid, stack),
        works_on(SearchState { grid, cursor, stack }, puzzle),
        is_solution(solution, puzzle),
        aims_at(grid, stack, solution, stack.len() - 1),
        0 <= index < 81,
        index != stack.last().index,
        grid[index] is Some,
    ensures
        grid[index] == solution[index],
{
    let top = stack.last().index;
    if index > top {
        if puzzle[index] is None {
            let k = choose|k: int| 0 <= k < stack.len() && (#[trigger] stack[k]).index == index;
            if k < stack.len() - 1 {
                assert(stack[k].index < stack[stack.len() - 1].index);
            }
        }
    }
}

/// The digit of a solution that lies ahead of the top frame fits at the cell
/// of that frame.
proof fn lemma_target_fits(
    grid: Seq<Option<u8>>,
    cursor: int,
    stack: Seq<Frame>,
    puzzle: Seq<Option<u8>>,
    solution: Seq<Option<u8>>,
)
    requires
        well_formed(grid),
        stack_fits(grid, stack),
        works_on(SearchState { grid, cursor, stack }, puzzle),
        is_solution(solution, puzzle),
        aims_at(grid, stack, solution, stack.len() - 1),
    ensures
        candidate_fits(grid, stack.last().index, digit_of(solution[stack.last().index]) as int),
{
    let top = stack.last().index;
    assert(frame_fits(grid, stack[stack.len() - 1]));
    let number = solution[top];
    assert(number is Some);
    let row = top / 9;
    let column = top % 9;
    lemma_index_coordinates(top);
    assert(cell(solution, row, column) == number);
    assert forall|row2: int, column2: int|
        on_board(row2, column2) && (row2 == row || column2 == column || same_square(
            row,
            column,
            row2,
            column2,
        )) implies #[trigger] cell(grid, row2, column2) != number by {
        lemma_coordinates_index(row2, column2);
        let index = row2 * 9 + column2;
        if cell(grid, row2, column2) == number {
            if index != top {
                lemma_filled_cells_agree(grid, cursor, stack, puzzle, solution, index);
                assert(conflict(solution, row, column, row2, column2));
            }
        }
    }
    assert(!used_in_row(grid, row, number));
    assert(!used_in_column(grid, column, number));
    assert(!used_in_square(grid, row, column, number));
}

/// Running the stack does not pass over a solution that lies ahead of one of
/// its frames: a digit is placed, and the grid then is the solution or reads
/// as a smaller number.
proof fn lemma_run_keeps_ahead(
    grid: Seq<Option<u8>>,
    cursor: int,
    stack: Seq<Frame>,
    puzzle: Seq<Option<u8>>,
    solution: Seq<Option<u8>>,
    target: int,
)
    requires
        well_formed(grid),
        obeys_rules(grid),
        0 <= cursor < 81,
        stack_fits(grid, stack),
        works_on(SearchState { grid, cursor, stack }, puzzle),
        is_solution(solution, puzzle),
        aims_at(grid, stack, solution, target),
    ensures
        run_stack(grid, cursor, stack).placed,
        run_stack(grid, cursor, stack).state.grid == solution || grid_number(
            run_stack(grid, cursor, stack).state.grid,
        ) < grid_number(solution),
    decreases stack.len(),
{
    let frame = stack.last();
    let rest = stack.drop_last();
    let digit = least_candidate(grid, frame.index, frame.candidate);
    assert(frame_fits(grid, stack[stack.len() - 1]));
    assert(frame_fits(grid, stack[target]));
    lemma_least_candidate(grid, frame.index, frame.candidate);
    lemma_digits(solution);
    let aim = stack[target].index;
    if target == stack.len() - 1 {
        let wanted = digit_of(solution[frame.index]) as int;
        lemma_target_fits(grid, cursor, stack, puzzle, solution);
        assert(digit <= wanted);
        let placed = grid.update(frame.index, Some(digit as u8));
        if digit < wanted {
            lemma_digits(placed);
            lemma_number_grows(placed, solution, frame.index);
        } else {
            assert(dominated(placed, solution)) by {
                assert forall|i: int| 0 <= i < placed.len() implies digit_of(#[trigger] placed[i])
                    <= digit_of(solution[i]) by {
                    if i != frame.index && grid[i] is Some {
                        lemma_filled_cells_agree(grid, cursor, stack, puzzle, solution, i);
                    }
                }
            }
            lemma_dominated(placed, solution);
        }
    } else {
        assert(stack[target].index < stack[stack.len() - 1].index);
        if digit <= 9 {
            let placed = grid.update(frame.index, Some(digit as u8));
            lemma_digits(placed);
            assert forall|i: int| 0 <= i < aim implies placed[i] == solution[i] by {
                assert(grid[i] == solution[i]);
            }
            lemma_number_grows(placed, solution, aim);
        } else {
            let cleared = grid.update(frame.index, None);
            lemma_clearing_obeys_rules_of_top(grid, stack);
            lemma_rest_fits(grid, stack);
            lemma_rest_works_on(grid, cursor, stack, puzzle);
            assert(rest[target] == stack[target]);
            assert forall|i: int| 0 <= i < rest[target].index implies (#[trigger] cleared[i])
                == solution[i] by {
                assert(grid[i] == solution[i]);
            }
            lemma_run_keeps_ahead(cleared, frame.index, rest, puzzle, solution, target);
        }
    }
}

/// A step of the search does not pass over a solution: if the grid reads as
/// a smaller number than a solution, the step places a digit, and the grid
/// then is the solution or still reads as a smaller number.
pub proof fn lemma_step_keeps_ahead(
    state: SearchState,
    puzzle: Seq<Option<u8>>,
    solution: Seq<Option<u8>>,
)
    requires
        state_wf(state),
        works_on(state, puzzle),
        is_solution(solution, puzzle),
        grid_number(state.grid) < grid_number(solution),
    ensures
        advance(state).placed,
        advance(state).state.grid == solution || grid_number(advance(state).state.grid)
            < grid_number(solution),
{
    let grid = state.grid;
    let prepared = prepared_stack(state);
    assert(digits_in_range(grid));
    assert(digits_in_range(solution));
    lemma_smaller_number(grid, solution);
    let index = first_difference(grid, solution, 0);
    assert(0 <= index < 81) by {
        lemma_first_difference(grid, solution, 0);
    }
    assert(grid[index] != solution[index]);
    assert(solution[index] is Some);
    lemma_prepared_stack(state);
    lemma_prepared_works_on(state, puzzle);
    lemma_first_empty_from(grid, state.cursor);
    if grid[index] is Some {
        assert(puzzle[index] is None);
        let k = choose|k: int|
            0 <= k < state.stack.len() && (#[trigger] state.stack[k]).index == index;
        assert(prepared[k] == state.stack[k]);
        assert(frame_fits(grid, state.stack[k]));
        assert(aims_at(grid, prepared, solution, k));
        lemma_run_keeps_ahead(grid, state.cursor, prepared, puzzle, solution, k);
    } else {
        assert(index >= state.cursor);
        assert forall|i: int| state.cursor <= i < index implies (#[trigger] grid[i]) is Some by {
            assert(grid[i] == solution[i]);
        }
        lemma_first_empty_is(grid, state.cursor, index);
        let top = prepared.len() - 1;
        assert(prepared[top] == Frame { index, candidate: 1 });
        assert(solution[index] is Some);
        assert(aims_at(grid, prepared, solution, top));
        lemma_run_keeps_ahead(grid, state.cursor, prepared, puzzle, solution, top);
    }
}

/// A puzzle that is not full reads as a smaller number than each of its solutions.
pub proof fn lemma_puzzle_behind(puzzle: Seq<Option<u8>>, solution: Seq<Option<u8>>)
    requires
        well_formed(puzzle),
        !full(puzzle),
        is_solution(solution, puzzle),
    ensures
        grid_number(puzzle) < grid_number(solution),
{
    assert(dominated(puzzle, solution));
    lemma_dominated(puzzle, solution);
}

/// Step number `step` reports the grid as solved.
pub open spec fn reported_at(start: SearchState, step: nat, grid: Seq<Option<u8>>) -> bool {
    solved_at(start, step) && state_after(start, step).unwrap().grid == grid
}

/// The boards reported within `steps` steps are finitely many, and are
/// those that one of these steps reports.
pub proof fn lemma_reported(start: SearchState, steps: nat)
    ensures
        reported(start, steps).finite(),
        forall|grid: Seq<Option<u8>>|
            reported(start, steps).contains(grid) <==> exists|step: nat|
                step <= steps && #[trigger] reported_at(start, step, grid),
    decreases steps,
{
    if steps > 0 {
        let before = (steps - 1) as nat;
        lemma_reported(start, before);
        assert forall|grid: Seq<Option<u8>>|
            reported(start, steps).contains(grid) <==> exists|step: nat|
                step <= steps && #[trigger] reported_at(start, step, grid) by {
            if reported(start, steps).contains(grid) {
                if reported(start, before).contains(grid) {
                    let step = choose|step: nat|
                        step <= before && #[trigger] reported_at(start, step, grid);
                    assert(step <= steps && reported_at(start, step, grid));
                } else {
                    assert(reported_at(start, steps, grid));
                }
            }
            if exists|step: nat| step <= steps && #[trigger] reported_at(start, step, grid) {
                let step = choose|step: nat|
                    step <= steps && #[trigger] reported_at(start, step, grid);
                if step <= before {
                    assert(reported(start, before).contains(grid));
                }
            }
        }
    } else {
        assert forall|grid: Seq<Option<u8>>|
            reported(start, steps).contains(grid) <==> exists|step: nat|
                step <= steps && #[trigger] reported_at(start, step, grid) by {
            if exists|step: nat| step <= steps && #[trigger] reported_at(start, step, grid) {
                let step = choose|step: nat|
                    step <= steps && #[trigger] reported_at(start, step, grid);
                assert(!solved_at(start, step));
            }
        }
    }
}

/// Along the search of a valid puzzle the grid reads as an ever larger number.
pub proof fn lemma_numbers_rise(puzzle: Seq<Option<u8>>, earlier: nat, later: nat)
    requires
        well_formed(puzzle),
        obeys_rules(puzzle),
        earlier < later,
        state_after(initial_state(puzzle), later) is Some,
    ensures
        state_after(initial_state(puzzle), earlier) is Some,
        grid_number(state_after(initial_state(puzzle), earlier).unwrap().grid) < grid_number(
            state_after(initial_state(puzzle), later).unwrap().grid,
        ),
    decreases later,
{
    let start = initial_state(puzzle);
    let before = (later - 1) as nat;
    assert(state_after(start, before) is Some);
    lemma_reachable(puzzle, before);
    lemma_advance(state_after(start, before).unwrap());
    if earlier < before {
        lemma_numbers_rise(puzzle, earlier, before);
    }
}

/// Every board that the search of a valid puzzle reports as solved is a
/// solution of the puzzle.
pub proof fn lemma_reported_solves(puzzle: Seq<Option<u8>>, step: nat)
    requires
        well_formed(puzzle),
        obeys_rules(puzzle),
        solved_at(initial_state(puzzle), step),
    ensures
        is_solution(state_after(initial_state(puzzle), step).unwrap().grid, puzzle),
{
    lemma_reachable(puzzle, step);
    lemma_complete_is_full(state_after(initial_state(puzzle), step).unwrap());
}

/// The number of boards reported within `steps` steps is the number of
/// steps that report one: no board is reported twice.
pub proof fn lemma_reported_count(puzzle: Seq<Option<u8>>, steps: nat)
    requires
        well_formed(puzzle),
        obeys_rules(puzzle),
    ensures
        reported(initial_state(puzzle), steps).finite(),
        reported(initial_state(puzzle), steps).len() == solved_count(initial_state(puzzle), steps),
    decreases steps,
{
    let start = initial_state(puzzle);
    if steps > 0 {
        let before = (steps - 1) as nat;
        lemma_reported_count(puzzle, before);
        lemma_reported(start, before);
        if solved_at(start, steps) {
            let grid = state_after(start, steps).unwrap().grid;
            if reported(start, before).contains(grid) {
                let step = choose|step: nat|
                    step <= before && #[trigger] reported_at(start, step, grid);
                lemma_numbers_rise(puzzle, step, steps);
            }
        }
    }
}

/// Within any number of steps, the search of a valid puzzle that is not full
/// has reported a given solution, or is still on its way to it: its grid
/// reads as a smaller number than the solution.
pub proof fn lemma_reported_or_ahead(puzzle: Seq<Option<u8>>, solution: Seq<Option<u8>>, steps: nat)
    requires
        well_formed(puzzle),
        obeys_rules(puzzle),
        !full(puzzle),
        is_solution(solution, puzzle),
    ensures
        reported(initial_state(puzzle), steps).contains(solution) || (state_after(
            initial_state(puzzle),
            steps,
        ) matches Some(state) && grid_number(state.grid) < grid_number(solution)),
    decreases steps,
{
    let start = initial_state(puzzle);
    if steps == 0 {
        lemma_puzzle_behind(puzzle, solution);
    } else {
        let before = (steps - 1) as nat;
        lemma_reported_or_ahead(puzzle, solution, before);
        if !reported(start, before).contains(solution) {
            let state = state_after(start, before).unwrap();
            lemma_reachable(puzzle, before);
            lemma_step_keeps_ahead(state, puzzle, solution);
            let after = advance(state).state;
            assert(state_after(start, steps) == Some(after));
            if after.grid == solution {
                lemma_reachable(puzzle, steps);
                lemma_complete_is_full(after);
                assert(solved_at(start, steps));
            }
        }
    }
}

/// The search of a valid puzzle that is not full reports exactly the
/// solutions of the puzzle, each of them once: the puzzle has finitely many
/// solutions, as many as the search counts in all.
pub proof fn search_reports_the_solutions(puzzle: Seq<Option<u8>>)
    requires
        well_formed(puzzle),
        obeys_rules(puzzle),
        !full(puzzle),
    ensures
        solutions_of(puzzle) == reported(
            initial_state(puzzle),
            total_steps(initial_state(puzzle)),
        ),
        solutions_of(puzzle).finite(),
        solutions_of(puzzle).len() == solved_count(
            initial_state(puzzle),
            total_steps(initial_state(puzzle)),
        ),
{
    let start = initial_state(puzzle);
    let total = total_steps(start);
    assert(state_wf(start));
    lemma_search_ends(start);
    lemma_reported_count(puzzle, total);
    lemma_reported(start, total);
    assert forall|grid: Seq<Option<u8>>|
        solutions_of(puzzle).contains(grid) <==> reported(start, total).contains(grid) by {
        if is_solution(grid, puzzle) {
            lemma_reported_or_ahead(puzzle, grid, total + 1);
            assert(!solved_at(start, total + 1));
            assert(reported(start, total + 1) == reported(start, total));
        }
        if reported(start, total).contains(grid) {
            let step = choose|step: nat| step <= total && #[trigger] reported_at(start, step, grid);
            lemma_reported_solves(puzzle, step);
        }
    }
    assert(solutions_of(puzzle) =~= reported(start, total));
}

/// Before every step whose board is reported as solved comes a first such step.
pub proof fn lemma_first_solved_exists(start: SearchState, step: nat)
    requires
        solved_at(start, step),
    ensures
        exists|first: nat| first <= step && first_solved_at(start, first),
    decreases step,
{
    if exists|earlier: nat| earlier < step && solved_at(start, earlier) {
        let earlier = choose|earlier: nat| earlier < step && solved_at(start, earlier);
        lemma_first_solved_exists(start, earlier);
        let first = choose|first: nat| first <= earlier && first_solved_at(start, first);
        assert(first <= step && first_solved_at(start, first));
    } else {
        assert(first_solved_at(start, step));
    }
}

/// The first solution that the search finds solves the puzzle.
pub proof fn first_solution_solves(puzzle: Seq<Option<u8>>)
    requires
        well_formed(puzzle),
        obeys_rules(puzzle),
        first_solution_of(puzzle) is Some,
    ensures
        is_solution(first_solution_of(puzzle).unwrap(), puzzle),
{
    let start = initial_state(puzzle);
    let step = choose|step: nat| solved_at(start, step);
    lemma_first_solved_exists(start, step);
    let first = choose|first: nat| first_solved_at(start, first);
    lemma_reported_solves(puzzle, first);
}

/// Where a valid puzzle that is not full has a solution, the search finds a
/// first solution, and that is the least of all: the given solution itself,
/// or one that reads as a smaller number.
pub proof fn first_solution_is_least(puzzle: Seq<Option<u8>>, solution: Seq<Option<u8>>)
    requires
        well_formed(puzzle),
        obeys_rules(puzzle),
        !full(puzzle),
        is_solution(solution, puzzle),
    ensures
        first_solution_of(puzzle) is Some,
        first_solution_of(puzzle).unwrap() == solution || grid_number(
            first_solution_of(puzzle).unwrap(),
        ) < grid_number(solution),
{
    let start = initial_state(puzzle);
    let total = total_steps(start);
    assert(state_wf(start));
    lemma_search_ends(start);
    lemma_reported_or_ahead(puzzle, solution, total + 1);
    lemma_reported(start, total + 1);
    let step = choose|step: nat| step <= total + 1 && #[trigger] reported_at(start, step, solution);
    assert(solved_at(start, step));
    lemma_first_solved_exists(start, step);
    let first = choose|first: nat| first <= step && first_solved_at(start, first);
    lemma_first_solution_is(puzzle, first);
    if first < step {
        lemma_numbers_rise(puzzle, first, step);
    }
}

/// The search of a full puzzle takes no step: no board is reported, whether
/// or not the puzzle obeys the rules.
pub proof fn full_puzzle_yields_nothing(puzzle: Seq<Option<u8>>, steps: nat)
    requires
        puzzle.len() == 81,
        full(puzzle),
    ensures
        !solved_at(initial_state(puzzle), steps),
        first_solution_of(puzzle) is None,
        total_steps(initial_state(puzzle)) == 0,
{
    let start = initial_state(puzzle);
    lemma_first_empty_is(puzzle, 0, 81);
    assert(prepared_stack(start) =~= Seq::<Frame>::empty());
    assert(!advance(start).placed);
    assert(state_after(start, 0) == Some(start));
    assert(state_after(start, 1) is None);
    lemma_total_steps(start, 0);
    assert forall|any: nat| !solved_at(start, any) by {
        if any >= 1 {
            lemma_exhausted_stays(start, 1, any);
        }
    }
}

/// What the search for a first solution decides: it finds the least
/// solution of a valid puzzle that is not full and has a solution, and finds
/// nothing otherwise.
pub proof fn first_solution_decides(puzzle: Seq<Option<u8>>)
    requires
        well_formed(puzzle),
        obeys_rules(puzzle),
    ensures
        match first_solution_of(puzzle) {
            Some(first) => !full(puzzle) && least_solution(first, puzzle),
            None => full(puzzle) || !has_solution(puzzle),
        },
{
    if full(puzzle) {
        full_puzzle_yields_nothing(puzzle, 0);
    } else {
        match first_solution_of(puzzle) {
            Some(first) => {
                first_solution_solves(puzzle);
                assert forall|other: Seq<Option<u8>>| #[trigger]
                    is_solution(other, puzzle) implies other == first || grid_number(first)
                    < grid_number(other) by {
                    first_solution_is_least(puzzle, other);
                }
            },
            None => {
                if has_solution(puzzle) {
                    let grid = choose|grid: Seq<Option<u8>>| is_solution(grid, puzzle);
                    first_solution_is_least(puzzle, grid);
                }
            },
        }
    }
}

/// Without caps the solutions of a valid puzzle that is not full are counted
/// all, up to `usize::MAX`.
pub proof fn all_solutions_are_counted(puzzle: Seq<Option<u8>>)
    requires
        well_formed(puzzle),
        obeys_rules(puzzle),
        !full(puzzle),
    ensures
        solutions_of(puzzle).finite(),
        solutions_counted(puzzle, None, None) == at_most(
            solutions_of(puzzle).len(),
            usize::MAX as nat,
        ),
{
    search_reports_the_solutions(puzzle);
}

/// A valid puzzle with exactly one solution counts one solution, with any
/// cap on the solutions but 0 and any cap on the iterations that lets the
/// search come to its end.
pub proof fn single_solution_is_counted_once(
    puzzle: Seq<Option<u8>>,
    max_solutions: Option<usize>,
    max_iterations: Option<usize>,
)
    requires
        well_formed(puzzle),
        obeys_rules(puzzle),
        !full(puzzle),
        solutions_of(puzzle).len() == 1,
        max_solutions matches Some(max) ==> max >= 1,
        max_iterations matches Some(max) ==> max >= total_steps(initial_state(puzzle)),
    ensures
        solutions_counted(puzzle, max_solutions, max_iterations) == 1,
{
    let start = initial_state(puzzle);
    search_reports_the_solutions(puzzle);
    assert(state_wf(start));
    lemma_search_ends(start);
    if let Some(max) = max_iterations {
        lemma_solved_count_settles(start, total_steps(start), max as nat);
    }
}

} // verus!
