//! The mathematical model of the backtracking search.
//!
//! The search keeps a grid, a cursor and a stack of frames. A frame names an
//! empty cell of the puzzle and the next digit to try there. One step of the
//! search puts one new digit on the grid, or finds that nothing is left to try.

use vstd::prelude::*;

use crate::rules::{
    first_empty_from, full, lemma_clearing_obeys_rules, lemma_first_empty_from,
    lemma_first_empty_is, lemma_index_coordinates, lemma_placement_obeys_rules, obeys_rules,
    valid_number, well_formed,
};

verus! {

/// Work to resume: the cell at `index` is to be tried with the digits from
/// `candidate` on. A candidate of 10 says that every digit has been tried.
pub struct Frame {
    pub index: int,
    pub candidate: int,
}

/// The state of the search between two steps.
pub struct SearchState {
    /// The working grid.
    pub grid: Seq<Option<u8>>,
    /// The index of the cell that was worked on last.
    pub cursor: int,
    /// The frames of the cells that the search has filled, the latest on top.
    pub stack: Seq<Frame>,
}

/// What one step of the search did.
pub struct Step {
    /// The state after the step.
    pub state: SearchState,
    /// Whether the step put a new digit on the grid. If not, the stack ran out.
    pub placed: bool,
}

/// The state in which the search of a grid starts.
pub open spec fn initial_state(grid: Seq<Option<u8>>) -> SearchState {
    SearchState { grid, cursor: 0, stack: Seq::empty() }
}

/// The digit fits at the cell: it is one of 1-9 and occurs neither in the
/// row, nor in the column, nor in the square of the cell.
pub open spec fn candidate_fits(grid: Seq<Option<u8>>, index: int, digit: int) -> bool {
    1 <= digit <= 9 && valid_number(grid, index / 9, index % 9, Some(digit as u8))
}

/// The least digit from `from` on that fits at the cell, 10 if none does.
pub open spec fn least_candidate(grid: Seq<Option<u8>>, index: int, from: int) -> int
    decreases 10 - from,
{
    if from >= 10 {
        10
    } else if candidate_fits(grid, index, from) {
        from
    } else {
        least_candidate(grid, index, from + 1)
    }
}

/// The stack as a step finds it after its first half: if an empty cell is
/// left from the cursor on, a frame that tries the digit 1 at the first such
/// cell is pushed.
pub open spec fn prepared_stack(state: SearchState) -> Seq<Frame> {
    let first = first_empty_from(state.grid, state.cursor);
    if first < 81 {
        state.stack.push(Frame { index: first, candidate: 1 })
    } else {
        state.stack
    }
}

/// The second half of a step: frames are popped until one holds a digit that
/// fits. That digit is placed, together with a frame to resume with the next
/// digit. The cell of a frame with no digit left is emptied.
pub open spec fn run_stack(grid: Seq<Option<u8>>, cursor: int, stack: Seq<Frame>) -> Step
    decreases stack.len(),
{
    if stack.len() == 0 {
        Step { state: SearchState { grid, cursor, stack }, placed: false }
    } else {
        let frame = stack.last();
        let digit = least_candidate(grid, frame.index, frame.candidate);
        if digit <= 9 {
            Step {
                state: SearchState {
                    grid: grid.update(frame.index, Some(digit as u8)),
                    cursor: frame.index,
                    stack: stack.drop_last().push(
                        Frame { index: frame.index, candidate: digit + 1 },
                    ),
                },
                placed: true,
            }
        } else {
            run_stack(grid.update(frame.index, None), frame.index, stack.drop_last())
        }
    }
}

/// One step of the search.
pub open spec fn advance(state: SearchState) -> Step {
    run_stack(state.grid, state.cursor, prepared_stack(state))
}

/// No empty cell is left from the cursor on: the search reports the grid as solved.
pub open spec fn is_complete(state: SearchState) -> bool {
    first_empty_from(state.grid, state.cursor) == 81
}

/// The digit of a cell, 0 for an empty one.
pub open spec fn digit_of(cell: Option<u8>) -> nat {
    match cell {
        Some(digit) => digit as nat,
        None => 0,
    }
}

/// The frame names a cell of the grid, and that cell holds the digit before
/// the frame's candidate (nothing before the candidate 1).
pub open spec fn frame_fits(grid: Seq<Option<u8>>, frame: Frame) -> bool {
    &&& 0 <= frame.index < 81
    &&& 1 <= frame.candidate <= 10
    &&& digit_of(grid[frame.index]) == frame.candidate - 1
}

/// Every frame fits the grid, and the frames go up the board from the bottom
/// of the stack to its top.
pub open spec fn stack_fits(grid: Seq<Option<u8>>, stack: Seq<Frame>) -> bool {
    &&& forall|k: int| 0 <= k < stack.len() ==> frame_fits(grid, #[trigger] stack[k])
    &&& forall|j: int, k: int|
        0 <= j < k < stack.len() ==> (#[trigger] stack[j]).index < (#[trigger] stack[k]).index
}

/// Every cell before `index` is filled.
pub open spec fn filled_before(grid: Seq<Option<u8>>, index: int) -> bool {
    forall|i: int| 0 <= i < index ==> (#[trigger] grid[i]) is Some
}

/// The stack is fit to be run: it fits the grid, and every cell before the
/// cell of its top frame is filled (before the cursor, if it has no frame).
pub open spec fn stack_ready(grid: Seq<Option<u8>>, cursor: int, stack: Seq<Frame>) -> bool {
    &&& stack_fits(grid, stack)
    &&& filled_before(
        grid,
        if stack.len() > 0 {
            stack.last().index
        } else {
            cursor
        },
    )
}

/// The invariant of the search between two steps: the grid obeys the rules,
/// every cell before the cursor is filled, the stack fits the grid, and the
/// cursor stands on the filled cell of the top frame.
pub open spec fn state_wf(state: SearchState) -> bool {
    &&& well_formed(state.grid)
    &&& obeys_rules(state.grid)
    &&& 0 <= state.cursor < 81
    &&& filled_before(state.grid, state.cursor)
    &&& stack_fits(state.grid, state.stack)
    &&& state.stack.len() > 0 ==> state.stack.last().index == state.cursor
        && state.stack.last().candidate >= 2
}

/// The grid keeps every digit of the puzzle.
pub open spec fn extends(grid: Seq<Option<u8>>, puzzle: Seq<Option<u8>>) -> bool {
    &&& grid.len() == puzzle.len()
    &&& forall|i: int|
        0 <= i < puzzle.len() && (#[trigger] puzzle[i]) is Some ==> grid[i] == puzzle[i]
}

/// Some frame of the stack names the cell.
pub open spec fn on_stack(stack: Seq<Frame>, index: int) -> bool {
    exists|k: int| 0 <= k < stack.len() && (#[trigger] stack[k]).index == index
}

/// The search works on the puzzle: its grid keeps the digits of the puzzle,
/// every frame names a cell that the puzzle leaves empty, and beside the
/// digits of the puzzle the grid holds digits in the cells of the frames only.
pub open spec fn works_on(state: SearchState, puzzle: Seq<Option<u8>>) -> bool {
    &&& extends(state.grid, puzzle)
    &&& forall|k: int|
        0 <= k < state.stack.len() ==> puzzle[(#[trigger] state.stack[k]).index] is None
    &&& forall|i: int|
        0 <= i < state.grid.len() && (#[trigger] state.grid[i]) is Some && puzzle[i] is None
            ==> on_stack(state.stack, i)
}

/// The grid read as a decimal number of one digit per cell, the first cell
/// leading. Every step of the search makes this number larger.
pub open spec fn grid_number(grid: Seq<Option<u8>>) -> nat
    decreases grid.len(),
{
    if grid.len() == 0 {
        0
    } else {
        10 * grid_number(grid.drop_last()) + digit_of(grid.last())
    }
}

/// Ten to the power of `exponent`.
pub open spec fn pow10(exponent: nat) -> nat
    decreases exponent,
{
    if exponent == 0 {
        1
    } else {
        10 * pow10((exponent - 1) as nat)
    }
}

/// The state after the search has made `steps` productive steps from `start`,
/// `None` if the stack runs out before.
pub open spec fn state_after(start: SearchState, steps: nat) -> Option<SearchState>
    decreases steps,
{
    if steps == 0 {
        Some(start)
    } else {
        match state_after(start, (steps - 1) as nat) {
            Some(state) => {
                let step = advance(state);
                if step.placed {
                    Some(step.state)
                } else {
                    None
                }
            },
            None => None,
        }
    }
}

/// The board that step number `steps` produces is reported as solved.
pub open spec fn solved_at(start: SearchState, steps: nat) -> bool {
    &&& steps >= 1
    &&& state_after(start, steps) matches Some(state)
    &&& is_complete(state)
}

/// Step number `steps` is the first whose board is reported as solved.
pub open spec fn first_solved_at(start: SearchState, steps: nat) -> bool {
    &&& solved_at(start, steps)
    &&& forall|earlier: nat| earlier < steps ==> !solved_at(start, earlier)
}

/// How many of the first `steps` steps produce a board reported as solved.
pub open spec fn solved_count(start: SearchState, steps: nat) -> nat
    decreases steps,
{
    if steps == 0 {
        0
    } else {
        solved_count(start, (steps - 1) as nat) + if solved_at(start, steps) {
            1nat
        } else {
            0nat
        }
    }
}

/// The search makes exactly `steps` productive steps from `start`, and then
/// runs out of stack.
pub open spec fn exhausted_after(start: SearchState, steps: nat) -> bool {
    state_after(start, steps) is Some && state_after(start, steps + 1) is None
}

/// The number of productive steps that the search makes from `start` in all.
pub open spec fn total_steps(start: SearchState) -> nat {
    choose|steps: nat| exhausted_after(start, steps)
}

/// The first board that the search of the puzzle reports as solved, `None`
/// if the search ends without one.
pub open spec fn first_solution_of(puzzle: Seq<Option<u8>>) -> Option<Seq<Option<u8>>> {
    let start = initial_state(puzzle);
    if exists|steps: nat| solved_at(start, steps) {
        let first = choose|steps: nat| first_solved_at(start, steps);
        Some(state_after(start, first).unwrap().grid)
    } else {
        None
    }
}

/// The count, or the cap if the count is larger.
pub open spec fn at_most(count: nat, cap: nat) -> nat {
    if count <= cap {
        count
    } else {
        cap
    }
}

/// The number of boards that the search of the puzzle reports as solved,
/// counting the boards of no more than `max_iterations` steps, and no more
/// than `max_solutions` of them (no more than `usize::MAX` without that cap).
pub open spec fn solutions_counted(
    puzzle: Seq<Option<u8>>,
    max_solutions: Option<usize>,
    max_iterations: Option<usize>,
) -> nat {
    let start = initial_state(puzzle);
    let steps = match max_iterations {
        Some(max) => max as nat,
        None => total_steps(start),
    };
    let cap = match max_solutions {
        Some(max) => max as nat,
        None => usize::MAX as nat,
    };
    at_most(solved_count(start, steps), cap)
}

/// What `least_candidate` finds: a digit that fits, with none before it from
/// `from` on, or 10.
pub proof fn lemma_least_candidate(grid: Seq<Option<u8>>, index: int, from: int)
    requires
        1 <= from <= 10,
    ensures
        from <= least_candidate(grid, index, from) <= 10,
        least_candidate(grid, index, from) <= 9 ==> candidate_fits(
            grid,
            index,
            least_candidate(grid, index, from),
        ),
        forall|digit: int|
            from <= digit < least_candidate(grid, index, from) ==> !candidate_fits(
                grid,
                index,
                digit,
            ),
    decreases 10 - from,
{
    if from < 10 && !candidate_fits(grid, index, from) {
        lemma_least_candidate(grid, index, from + 1);
    }
}

/// A digit that fits, with none fitting before it from `from` on, is what
/// `least_candidate` finds. With no digit fitting up to 9, it finds 10.
pub proof fn lemma_least_candidate_is(grid: Seq<Option<u8>>, index: int, from: int, digit: int)
    requires
        1 <= from <= digit <= 10,
        forall|earlier: int| from <= earlier < digit ==> !candidate_fits(grid, index, earlier),
        digit <= 9 ==> candidate_fits(grid, index, digit),
    ensures
        least_candidate(grid, index, from) == digit,
    decreases digit - from,
{
    if from < digit {
        lemma_least_candidate_is(grid, index, from + 1, digit);
    }
}

/// A grid whose first difference from another is a larger digit reads as the
/// larger number.
pub proof fn lemma_number_grows(smaller: Seq<Option<u8>>, larger: Seq<Option<u8>>, index: int)
    requires
        smaller.len() == larger.len(),
        0 <= index < smaller.len(),
        forall|i: int| 0 <= i < index ==> smaller[i] == larger[i],
        digit_of(smaller[index]) < digit_of(larger[index]),
        forall|i: int| 0 <= i < smaller.len() ==> digit_of(#[trigger] smaller[i]) <= 9,
    ensures
        grid_number(smaller) < grid_number(larger),
    decreases smaller.len(),
{
    if index == smaller.len() - 1 {
        assert(smaller.drop_last() =~= larger.drop_last());
    } else {
        lemma_number_grows(smaller.drop_last(), larger.drop_last(), index);
    }
}

/// A grid of digits up to 9 reads as a number of as many decimal places.
pub proof fn lemma_number_bound(grid: Seq<Option<u8>>)
    requires
        forall|i: int| 0 <= i < grid.len() ==> digit_of(#[trigger] grid[i]) <= 9,
    ensures
        grid_number(grid) < pow10(grid.len()),
    decreases grid.len(),
{
    if grid.len() > 0 {
        lemma_number_bound(grid.drop_last());
    }
}

/// With the cell of the top frame emptied, the rest of the stack fits the grid.
pub proof fn lemma_rest_fits(grid: Seq<Option<u8>>, stack: Seq<Frame>)
    requires
        grid.len() == 81,
        stack_fits(grid, stack),
        stack.len() > 0,
    ensures
        stack_fits(grid.update(stack.last().index, None), stack.drop_last()),
        stack.len() > 1 ==> stack.drop_last().last().index < stack.last().index,
{
    let rest = stack.drop_last();
    assert(frame_fits(grid, stack[stack.len() - 1]));
    let cleared = grid.update(stack.last().index, None);
    assert forall|k: int| 0 <= k < rest.len() implies frame_fits(cleared, #[trigger] rest[k]) by {
        assert(rest[k] == stack[k]);
        assert(stack[k].index < stack[stack.len() - 1].index);
    }
    assert forall|j: int, k: int| 0 <= j < k < rest.len() implies (#[trigger] rest[j]).index < (
    #[trigger] rest[k]).index by {
        assert(rest[j] == stack[j]);
        assert(rest[k] == stack[k]);
    }
    if stack.len() > 1 {
        assert(rest[rest.len() - 1] == stack[rest.len() - 1]);
        assert(stack[rest.len() - 1].index < stack[stack.len() - 1].index);
    }
}

/// Emptying the cell of the top frame never breaks the rules.
pub proof fn lemma_clearing_obeys_rules_of_top(grid: Seq<Option<u8>>, stack: Seq<Frame>)
    requires
        well_formed(grid),
        obeys_rules(grid),
        stack_fits(grid, stack),
        stack.len() > 0,
    ensures
        well_formed(grid.update(stack.last().index, None)),
        obeys_rules(grid.update(stack.last().index, None)),
{
    assert(frame_fits(grid, stack[stack.len() - 1]));
    lemma_clearing_obeys_rules(grid, stack.last().index);
}

/// Running a stack that fits the grid leaves a state that obeys the
/// invariant. If a digit was placed, the grid is unchanged before the cell of
/// the placement, and that cell holds a larger digit than before.
pub proof fn lemma_run_stack(grid: Seq<Option<u8>>, cursor: int, stack: Seq<Frame>)
    requires
        well_formed(grid),
        obeys_rules(grid),
        0 <= cursor < 81,
        stack_ready(grid, cursor, stack),
    ensures
        state_wf(run_stack(grid, cursor, stack).state),
        run_stack(grid, cursor, stack).placed ==> {
            let after = run_stack(grid, cursor, stack).state;
            &&& after.cursor <= stack.last().index
            &&& forall|i: int| 0 <= i < after.cursor ==> after.grid[i] == grid[i]
            &&& digit_of(grid[after.cursor]) < digit_of(after.grid[after.cursor])
        },
        !run_stack(grid, cursor, stack).placed ==> run_stack(grid, cursor, stack).state.stack.len()
            == 0,
    decreases stack.len(),
{
    if stack.len() > 0 {
        let frame = stack.last();
        let rest = stack.drop_last();
        let digit = least_candidate(grid, frame.index, frame.candidate);
        assert(frame_fits(grid, stack[stack.len() - 1]));
        lemma_least_candidate(grid, frame.index, frame.candidate);
        lemma_index_coordinates(frame.index);
        if digit <= 9 {
            let placed = grid.update(frame.index, Some(digit as u8));
            let resumed = rest.push(Frame { index: frame.index, candidate: digit + 1 });
            lemma_placement_obeys_rules(grid, frame.index / 9, frame.index % 9, digit as u8);
            assert forall|k: int| 0 <= k < resumed.len() implies frame_fits(
                placed,
                #[trigger] resumed[k],
            ) by {
                if k < rest.len() {
                    assert(resumed[k] == stack[k]);
                    assert(stack[k].index < stack[stack.len() - 1].index);
                }
            }
            assert forall|j: int, k: int| 0 <= j < k < resumed.len() implies (
            #[trigger] resumed[j]).index < (#[trigger] resumed[k]).index by {
                assert(resumed[j] == stack[j]);
                if k < rest.len() {
                    assert(resumed[k] == stack[k]);
                } else {
                    assert(stack[j].index < stack[stack.len() - 1].index);
                }
            }
        } else {
            let cleared = grid.update(frame.index, None);
            lemma_clearing_obeys_rules(grid, frame.index);
            lemma_rest_fits(grid, stack);
            lemma_run_stack(cleared, frame.index, rest);
            if run_stack(cleared, frame.index, rest).placed {
                let after = run_stack(cleared, frame.index, rest).state;
                assert(after.cursor < frame.index);
                assert(cleared[after.cursor] == grid[after.cursor]);
                assert forall|i: int| 0 <= i < after.cursor implies after.grid[i] == grid[i] by {
                    assert(cleared[i] == grid[i]);
                }
            }
        }
    }
}

/// The stack that a step prepares is fit to be run.
pub proof fn lemma_prepared_stack(state: SearchState)
    requires
        state_wf(state),
    ensures
        stack_ready(state.grid, state.cursor, prepared_stack(state)),
{
    let first = first_empty_from(state.grid, state.cursor);
    lemma_first_empty_from(state.grid, state.cursor);
    if first < 81 {
        let prepared = prepared_stack(state);
        assert forall|k: int| 0 <= k < prepared.len() implies frame_fits(
            state.grid,
            #[trigger] prepared[k],
        ) by {
            if k < state.stack.len() {
                assert(prepared[k] == state.stack[k]);
            }
        }
        assert forall|j: int, k: int| 0 <= j < k < prepared.len() implies (
        #[trigger] prepared[j]).index < (#[trigger] prepared[k]).index by {
            assert(prepared[j] == state.stack[j]);
            if k < state.stack.len() {
                assert(prepared[k] == state.stack[k]);
            } else {
                let top = state.stack.last();
                assert(frame_fits(state.grid, top));
                assert(state.stack[j].index <= top.index);
                assert(state.grid[state.cursor] is Some);
            }
        }
    }
}

/// A step keeps the invariant of the search, and a productive step makes the
/// grid read as a larger number.
pub proof fn lemma_advance(state: SearchState)
    requires
        state_wf(state),
    ensures
        state_wf(advance(state).state),
        advance(state).placed ==> grid_number(state.grid) < grid_number(advance(state).state.grid),
        grid_number(state.grid) < pow10(81),
{
    lemma_prepared_stack(state);
    lemma_run_stack(state.grid, state.cursor, prepared_stack(state));
    lemma_digits(state.grid);
    lemma_number_bound(state.grid);
    if advance(state).placed {
        let after = advance(state).state;
        lemma_number_grows(state.grid, after.grid, after.cursor);
    }
}

/// The cells of a well-formed grid are digits up to 9.
pub proof fn lemma_digits(grid: Seq<Option<u8>>)
    requires
        well_formed(grid),
    ensures
        forall|i: int| 0 <= i < grid.len() ==> digit_of(#[trigger] grid[i]) <= 9,
{
}

/// Between two steps, the search reports a grid as solved exactly if the
/// grid is full.
pub proof fn lemma_complete_is_full(state: SearchState)
    requires
        state_wf(state),
    ensures
        is_complete(state) <==> full(state.grid),
{
    lemma_first_empty_from(state.grid, state.cursor);
    if full(state.grid) {
        lemma_first_empty_is(state.grid, state.cursor, 81);
    }
}

/// Running the stack of a search that works on a puzzle leaves a search
/// that works on the puzzle.
pub proof fn lemma_run_stack_works_on(
    grid: Seq<Option<u8>>,
    cursor: int,
    stack: Seq<Frame>,
    puzzle: Seq<Option<u8>>,
)
    requires
        grid.len() == 81,
        stack_fits(grid, stack),
        works_on(SearchState { grid, cursor, stack }, puzzle),
    ensures
        works_on(run_stack(grid, cursor, stack).state, puzzle),
    decreases stack.len(),
{
    if stack.len() > 0 {
        let frame = stack.last();
        let rest = stack.drop_last();
        let digit = least_candidate(grid, frame.index, frame.candidate);
        assert(frame_fits(grid, stack[stack.len() - 1]));
        assert(puzzle[stack[stack.len() - 1].index] is None);
        if digit <= 9 {
            let resumed = rest.push(Frame { index: frame.index, candidate: digit + 1 });
            let placed = grid.update(frame.index, Some(digit as u8));
            assert forall|k: int| 0 <= k < resumed.len() implies puzzle[(
            #[trigger] resumed[k]).index] is None by {
                if k < rest.len() {
                    assert(resumed[k] == stack[k]);
                }
            }
            assert forall|i: int|
                0 <= i < placed.len() && (#[trigger] placed[i]) is Some
                    && puzzle[i] is None implies on_stack(resumed, i) by {
                if i == frame.index {
                    assert(resumed[resumed.len() - 1].index == i);
                } else {
                    assert(grid[i] is Some);
                    let k = choose|k: int| 0 <= k < stack.len() && (#[trigger] stack[k]).index == i;
                    assert(resumed[k] == stack[k]);
                }
            }
        } else {
            let cleared = grid.update(frame.index, None);
            lemma_rest_works_on(grid, cursor, stack, puzzle);
            lemma_rest_fits(grid, stack);
            lemma_run_stack_works_on(cleared, frame.index, rest, puzzle);
        }
    }
}

/// With the cell of the top frame emptied, the search with the rest of the
/// stack works on the puzzle.
pub proof fn lemma_rest_works_on(
    grid: Seq<Option<u8>>,
    cursor: int,
    stack: Seq<Frame>,
    puzzle: Seq<Option<u8>>,
)
    requires
        grid.len() == 81,
        stack_fits(grid, stack),
        stack.len() > 0,
        works_on(SearchState { grid, cursor, stack }, puzzle),
    ensures
        works_on(
            SearchState {
                grid: grid.update(stack.last().index, None),
                cursor: stack.last().index,
                stack: stack.drop_last(),
            },
            puzzle,
        ),
{
    let frame = stack.last();
    let rest = stack.drop_last();
    let cleared = grid.update(frame.index, None);
    assert(frame_fits(grid, stack[stack.len() - 1]));
    assert(puzzle[stack[stack.len() - 1].index] is None);
    assert forall|k: int| 0 <= k < rest.len() implies puzzle[(#[trigger] rest[k]).index]
        is None by {
        assert(rest[k] == stack[k]);
    }
    assert forall|i: int|
        0 <= i < cleared.len() && (#[trigger] cleared[i]) is Some
            && puzzle[i] is None implies on_stack(rest, i) by {
        assert(grid[i] is Some);
        let k = choose|k: int| 0 <= k < stack.len() && (#[trigger] stack[k]).index == i;
        assert(rest[k] == stack[k]);
    }
}

/// With the stack that a step prepares, the search works on the puzzle.
pub proof fn lemma_prepared_works_on(state: SearchState, puzzle: Seq<Option<u8>>)
    requires
        state_wf(state),
        works_on(state, puzzle),
    ensures
        works_on(
            SearchState { grid: state.grid, cursor: state.cursor, stack: prepared_stack(state) },
            puzzle,
        ),
{
    lemma_first_empty_from(state.grid, state.cursor);
    let prepared = prepared_stack(state);
    assert forall|k: int| 0 <= k < prepared.len() implies puzzle[(#[trigger] prepared[k]).index]
        is None by {
        if k < state.stack.len() {
            assert(prepared[k] == state.stack[k]);
        }
    }
    assert forall|i: int|
        0 <= i < state.grid.len() && (#[trigger] state.grid[i]) is Some
            && puzzle[i] is None implies on_stack(prepared, i) by {
        let k = choose|k: int|
            0 <= k < state.stack.len() && (#[trigger] state.stack[k]).index == i;
        assert(prepared[k] == state.stack[k]);
    }
}

/// A step of a search that works on a puzzle leaves a search that works on
/// the puzzle.
pub proof fn lemma_advance_works_on(state: SearchState, puzzle: Seq<Option<u8>>)
    requires
        state_wf(state),
        works_on(state, puzzle),
    ensures
        works_on(advance(state).state, puzzle),
{
    lemma_prepared_stack(state);
    lemma_prepared_works_on(state, puzzle);
    lemma_run_stack_works_on(state.grid, state.cursor, prepared_stack(state), puzzle);
}

/// Every state that the search of a puzzle reaches obeys the invariant and
/// works on the puzzle.
pub proof fn lemma_reachable(puzzle: Seq<Option<u8>>, steps: nat)
    requires
        well_formed(puzzle),
        obeys_rules(puzzle),
        state_after(initial_state(puzzle), steps) is Some,
    ensures
        state_wf(state_after(initial_state(puzzle), steps).unwrap()),
        works_on(state_after(initial_state(puzzle), steps).unwrap(), puzzle),
    decreases steps,
{
    if steps > 0 {
        let before = (steps - 1) as nat;
        lemma_reachable(puzzle, before);
        let state = state_after(initial_state(puzzle), before).unwrap();
        lemma_advance(state);
        lemma_advance_works_on(state, puzzle);
    }
}

/// Once the stack has run out, no later step produces a board.
pub proof fn lemma_exhausted_stays(start: SearchState, steps: nat, later: nat)
    requires
        state_after(start, steps) is None,
        steps <= later,
    ensures
        state_after(start, later) is None,
    decreases later,
{
    if steps < later {
        lemma_exhausted_stays(start, steps, (later - 1) as nat);
    }
}

/// After a productive first step the search goes on as a search from the
/// state that the step left.
pub proof fn lemma_state_after_shift(start: SearchState, steps: nat)
    requires
        advance(start).placed,
    ensures
        state_after(start, steps + 1) == state_after(advance(start).state, steps),
    decreases steps,
{
    if steps > 0 {
        lemma_state_after_shift(start, (steps - 1) as nat);
    } else {
        assert(state_after(start, 0) == Some(start));
    }
}

/// The search comes to an end: after some number of productive steps the
/// stack runs out.
pub proof fn lemma_search_ends(start: SearchState)
    requires
        state_wf(start),
    ensures
        exhausted_after(start, total_steps(start)),
    decreases pow10(81) - grid_number(start.grid),
{
    lemma_advance(start);
    let step = advance(start);
    assert(state_after(start, 0) == Some(start));
    if step.placed {
        lemma_advance(step.state);
        lemma_search_ends(step.state);
        let rest = total_steps(step.state);
        lemma_state_after_shift(start, rest);
        lemma_state_after_shift(start, rest + 1);
        assert(exhausted_after(start, rest + 1));
    } else {
        assert(exhausted_after(start, 0));
    }
}

/// The search has one length only.
pub proof fn lemma_total_steps(start: SearchState, steps: nat)
    requires
        exhausted_after(start, steps),
    ensures
        total_steps(start) == steps,
{
    let total = total_steps(start);
    if total < steps {
        lemma_exhausted_stays(start, total + 1, steps);
    } else if steps < total {
        lemma_exhausted_stays(start, steps + 1, total);
    }
}

/// More steps never count fewer solved boards.
pub proof fn lemma_solved_count_grows(start: SearchState, steps: nat, later: nat)
    requires
        steps <= later,
    ensures
        solved_count(start, steps) <= solved_count(start, later),
    decreases later,
{
    if steps < later {
        lemma_solved_count_grows(start, steps, (later - 1) as nat);
    }
}

/// Steps after the stack has run out count no further solved board.
pub proof fn lemma_solved_count_settles(start: SearchState, steps: nat, later: nat)
    requires
        state_after(start, steps + 1) is None,
        steps <= later,
    ensures
        solved_count(start, later) == solved_count(start, steps),
    decreases later,
{
    if steps < later {
        lemma_solved_count_settles(start, steps, (later - 1) as nat);
        lemma_exhausted_stays(start, steps + 1, later);
    }
}

/// A search that runs out of stack with no board reported as solved never
/// reports one, and finds no first solution.
pub proof fn lemma_no_first_solution(puzzle: Seq<Option<u8>>, steps: nat)
    requires
        state_after(initial_state(puzzle), steps + 1) is None,
        forall|earlier: nat| earlier <= steps ==> !solved_at(initial_state(puzzle), earlier),
    ensures
        first_solution_of(puzzle) is None,
{
    let start = initial_state(puzzle);
    assert forall|any: nat| !solved_at(start, any) by {
        if any > steps {
            lemma_exhausted_stays(start, steps + 1, any);
        }
    }
}

/// The first step whose board is reported as solved gives the first solution.
pub proof fn lemma_first_solution_is(puzzle: Seq<Option<u8>>, steps: nat)
    requires
        first_solved_at(initial_state(puzzle), steps),
    ensures
        first_solution_of(puzzle) == Some(
            state_after(initial_state(puzzle), steps).unwrap().grid,
        ),
{
    let start = initial_state(puzzle);
    assert(solved_at(start, steps));
    let first = choose|first: nat| first_solved_at(start, first);
    assert(first_solved_at(start, first));
    if first < steps {
        assert(!solved_at(start, first));
    } else if steps < first {
        assert(!solved_at(start, steps));
    }
}

} // verus!
