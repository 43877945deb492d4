//! The backtracking search, one step at a time.

use vstd::prelude::*;

use crate::board::Board;
use crate::field::Field;
use crate::position::Position;
use crate::rules::{
    full, lemma_clearing_obeys_rules, lemma_first_empty_from, lemma_placement_obeys_rules,
    obeys_rules, well_formed,
};
use crate::search::{
    advance, candidate_fits, grid_number, initial_state, is_complete, lemma_advance,
    lemma_complete_is_full, lemma_least_candidate_is, lemma_prepared_stack, lemma_rest_fits, pow10,
    prepared_stack, run_stack, stack_fits, state_wf, Frame, SearchState,
};

verus! {

/// Iterator emitting `Board`s representing each steps towards a solved
/// sudoku using a backtracking algorithm.
///
/// The iterator will emit all possible boards for the input until it finally
/// emits None, which means all possibilities have been tried for the given
/// input board.
#[derive(Debug)]
pub struct BacktrackingIter {
    board: Board,
    current_position: Position,
    stack: Vec<WorkOnField>,
}

enum WhatHappened {
    PutNewFieldOnBoard,
    RanOutOfStack,
}

#[derive(Copy, Clone, Debug)]
struct WorkOnField(Position, u8);

impl WorkOnField {
    spec fn frame(self) -> Frame {
        Frame { index: self.0.index(), candidate: self.1 as int }
    }
}

impl View for BacktrackingIter {
    type V = SearchState;

    closed spec fn view(&self) -> SearchState {
        SearchState {
            grid: self.board@,
            cursor: self.current_position.index(),
            stack: self.stack@.map_values(|work: WorkOnField| work.frame()),
        }
    }
}

impl BacktrackingIter {
    /// The invariant of the search holds of the iterator.
    pub open spec fn wf(self) -> bool {
        state_wf(self@)
    }

    /// Create a backtracking iterator for a Board
    pub fn new(board: Board) -> (iter: BacktrackingIter)
        ensures
            iter.wf(),
            iter@ == initial_state(board@),
    {
        proof {
            use_type_invariant(&board);
        }
        let iter = BacktrackingIter {
            current_position: Position::from_index(0),
            board,
            stack: Vec::new(),
        };
        assert(iter@.stack =~= Seq::<Frame>::empty());
        iter
    }

    // Prepare instructions in the stack for execution
    fn prepare_stack(&mut self, next_empty_field: Position)
        ensures
            final(self)@.grid == old(self)@.grid,
            final(self)@.cursor == old(self)@.cursor,
            final(self)@.stack == old(self)@.stack.push(
                Frame { index: next_empty_field.index(), candidate: 1 },
            ),
    {
        // Try the value 1 first. This will be incremented up until 9 during execution.
        // We could have pushed 9 separate instructions instead, but this performs better.
        self.stack.push(WorkOnField(next_empty_field, 1));
        assert(final(self)@.stack =~= old(self)@.stack.push(
            Frame { index: next_empty_field.index(), candidate: 1 },
        ));
    }

    // Manipulate the board from the stack instructions
    #[verifier::loop_isolation(false)]
    fn execute_stack(&mut self) -> (what: WhatHappened)
        requires
            stack_fits(old(self)@.grid, old(self)@.stack),
        ensures
            final(self)@ == run_stack(old(self)@.grid, old(self)@.cursor, old(self)@.stack).state,
            match what {
                WhatHappened::PutNewFieldOnBoard => run_stack(
                    old(self)@.grid,
                    old(self)@.cursor,
                    old(self)@.stack,
                ).placed,
                WhatHappened::RanOutOfStack => !run_stack(
                    old(self)@.grid,
                    old(self)@.cursor,
                    old(self)@.stack,
                ).placed,
            },
    {
        let ghost start = self@;
        proof {
            use_type_invariant(&self.board);
        }
        loop
            invariant
                well_formed(self@.grid),
                obeys_rules(self@.grid),
                stack_fits(self@.grid, self@.stack),
                run_stack(self@.grid, self@.cursor, self@.stack) == run_stack(
                    start.grid,
                    start.cursor,
                    start.stack,
                ),
            decreases self.stack.len(),
        {
            let ghost before = self@;
            match self.stack.pop() {
                Some(instruction) => match instruction {
                    WorkOnField(pos, v) => {
                        self.current_position = pos;
                        proof {
                            use_type_invariant(&pos);
                            assert(before.stack.len() > 0);
                            assert(before.stack.last() == instruction.frame());
                            assert(self@.stack =~= before.stack.drop_last());
                            assert(self@.grid == before.grid);
                        }
                        let ghost index = pos.index();
                        assert(index / 9 == pos.spec_row() && index % 9 == pos.spec_column());

                        let mut value = v;
                        while value <= 9
                            invariant
                                1 <= v <= value <= 10,
                                index == pos.index(),
                                index / 9 == pos.spec_row(),
                                index % 9 == pos.spec_column(),
                                pos.on_board(),
                                self@.grid == before.grid,
                                self@.cursor == index,
                                self@.stack == before.stack.drop_last(),
                                well_formed(self@.grid),
                                obeys_rules(self@.grid),
                                forall|earlier: int|
                                    v <= earlier < value ==> !candidate_fits(
                                        before.grid,
                                        index,
                                        earlier,
                                    ),
                            decreases 10 - value,
                        {
                            let field = Field::from_u8(value);

                            if self.board.valid_number_at_position(pos, &field) {
                                // Insert WorkOnField(current_position, v + 1) on the top
                                // of the stack, to be able to resume work on this field if
                                // we backtrack to this position again.
                                self.stack.push(WorkOnField(pos, value + 1));
                                proof {
                                    lemma_placement_obeys_rules(
                                        before.grid,
                                        pos.spec_row(),
                                        pos.spec_column(),
                                        value,
                                    );
                                    lemma_least_candidate_is(
                                        before.grid,
                                        index,
                                        v as int,
                                        value as int,
                                    );
                                }
                                self.board.put_field(pos, field);
                                proof {
                                    assert(self@.stack =~= before.stack.drop_last().push(
                                        Frame { index, candidate: value + 1 },
                                    ));
                                }
                                return WhatHappened::PutNewFieldOnBoard;
                            }
                            // If nothing is returned, we will simply run the loop again.

                            value += 1;
                        }
                        // We have tried all number 1..9 for this field. Clear it and loop
                        // in the outer loop, effectively backtracking to the previous
                        // position.
                        proof {
                            lemma_clearing_obeys_rules(before.grid, index);
                            lemma_least_candidate_is(before.grid, index, v as int, 10);
                        }
                        self.board.put_field(pos, Field::empty());
                        proof {
                            use_type_invariant(&self.board);
                            lemma_rest_fits(before.grid, before.stack);
                        }
                    },
                },
                None => {
                    proof {
                        assert(self@.stack =~= before.stack);
                    }
                    return WhatHappened::RanOutOfStack;
                },
            }
        }
    }

    /// One step of the search. `Some` of the board after the step, with a
    /// flag that tells whether the board is solved, or `None` if the stack
    /// has run out: every possibility has been tried.
    pub fn next(&mut self) -> (item: Option<(Board, bool)>)
        requires
            old(self).wf(),
        ensures
            final(self).wf(),
            final(self)@ == advance(old(self)@).state,
            match item {
                Some((board, is_solved)) => {
                    &&& advance(old(self)@).placed
                    &&& board@ == final(self)@.grid
                    &&& board.valid()
                    &&& is_solved == is_complete(final(self)@)
                    &&& is_solved == full(board@)
                },
                None => !advance(old(self)@).placed,
            },
            item is Some ==> grid_number(old(self)@.grid) < grid_number(final(self)@.grid),
            grid_number(final(self)@.grid) < pow10(81),
    {
        proof {
            lemma_advance(self@);
            lemma_prepared_stack(self@);
            lemma_first_empty_from(self@.grid, self@.cursor);
            lemma_complete_is_full(advance(self@).state);
            lemma_advance(advance(self@).state);
        }
        // If there's a next empty field, prepare the stack for that field, otherwise
        // just keep executing the stack.
        if let Some(next_empty_field) = self.board.next_empty_field(self.current_position) {
            self.prepare_stack(next_empty_field);
        }
        assert(self@.stack == prepared_stack(old(self)@));

        match self.execute_stack() {
            WhatHappened::PutNewFieldOnBoard => {
                // After the new field is put on the board, check to see if more fields
                // are available. If not, then we consider the board solved.
                let board_is_solved = self.board.next_empty_field(self.current_position).is_none();
                proof {
                    use_type_invariant(&self.board);
                }
                Some((self.board, board_is_solved))
            },
            WhatHappened::RanOutOfStack => None,
        }
    }
}

} // verus!
