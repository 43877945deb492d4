//! Walking over the fields of a plain sudoku board.

use vstd::prelude::*;

use crate::sudoku::position::Position;
use crate::sudoku::sudoku_board::SudokuBoard;
use crate::sudoku::sudoku_field::SudokuField;

verus! {

/// Iterator that emits a tuple of (Position, SudokuField).
/// The current position of the iterator will be the next value emitted.
pub struct BoardIter<'a> {
    board: &'a SudokuBoard,
    position: Position,
}

impl<'a> BoardIter<'a> {
    /// The board that the iterator walks over.
    pub closed spec fn board(self) -> SudokuBoard {
        *self.board
    }

    /// The position of the field that `next` hands out next.
    pub closed spec fn position(self) -> Position {
        self.position
    }

    pub fn new(board: &'a SudokuBoard) -> (iter: BoardIter<'a>)
        ensures
            iter.board() == *board,
            iter.position() == (Position { row: 0, column: 0 }),
    {
        BoardIter { board, position: Position { row: 0, column: 0 } }
    }

    /// Move the iterator to a position, and hand the iterator back.
    pub fn set_position(&mut self, position: &Position) -> (iter: &mut BoardIter<'a>)
        ensures
            iter.board() == old(self).board(),
            iter.position() == *position,
            *final(self) == *final(iter),
    {
        self.position = *position;
        self
    }

    /// The position of the iterator with its field, then the iterator moves
    /// on by one field. `None` once the position is off the board.
    pub fn next(&mut self) -> (item: Option<(Position, SudokuField)>)
        ensures
            final(self).board() == old(self).board(),
            match item {
                Some((position, field)) => {
                    &&& position == old(self).position()
                    &&& position.on_board()
                    &&& field@ == old(self).board()@[position.index()]
                    &&& final(self).position().index() == position.index() + 1
                    &&& final(self).position().on_board() == (position.index() < 80)
                },
                None => !old(self).position().on_board() && final(self).position() == old(
                    self,
                ).position(),
            },
    {
        if self.position.is_valid() {
            let value = *self.board.get_field(&self.position);
            let position = self.position;
            self.position = self.position.increment();

            return Some((position, value));
        }
        None
    }
}

} // verus!
