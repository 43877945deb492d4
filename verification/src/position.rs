//! Coordinates on the 9x9 board.

use vstd::prelude::*;

verus! {

/// A position on the sudoku board
#[derive(Clone, Copy, Debug, PartialEq, Eq, Hash, Structural)]
pub struct Position {
    /// The row in the board, 0-8
    row: usize,
    /// The column in the board, 0-8
    column: usize,
}

impl Position {
    /// The row as a mathematical integer.
    pub closed spec fn spec_row(self) -> int {
        self.row as int
    }

    /// The column as a mathematical integer.
    pub closed spec fn spec_column(self) -> int {
        self.column as int
    }

    /// Both coordinates lie on the board.
    #[verifier::type_invariant]
    pub open spec fn on_board(self) -> bool {
        0 <= self.spec_row() < 9 && 0 <= self.spec_column() < 9
    }

    /// The row-major index of the position, 0-80.
    pub open spec fn index(self) -> int {
        self.spec_row() * 9 + self.spec_column()
    }

    /// Create a position from a 0-based field index of the whole board
    pub fn from_index(index: usize) -> (position: Position)
        requires
            index < 81,
        ensures
            position.index() == index,
            position.spec_row() == index / 9,
            position.spec_column() == index % 9,
            position.on_board(),
    {
        Position { row: index / 9, column: index % 9 }
    }

    /// Create a new position based on the current one, but incremented one field
    pub fn incremented_copy(&self) -> (next: Option<Position>)
        ensures
            match next {
                Some(position) => position.index() == self.index() + 1 && position.on_board(),
                None => self.index() == 80,
            },
    {
        proof {
            use_type_invariant(self);
        }
        let coords = self.row * 9 + self.column + 1;

        // Last coord on board is 80
        if coords < 81 {
            Some(Position { row: coords / 9, column: coords % 9 })
        } else {
            None
        }
    }

    /// Get the row
    pub fn row(&self) -> (row: usize)
        ensures
            row == self.spec_row(),
            row < 9,
    {
        proof {
            use_type_invariant(self);
        }
        self.row
    }

    /// Get the column
    pub fn column(&self) -> (column: usize)
        ensures
            column == self.spec_column(),
            column < 9,
    {
        proof {
            use_type_invariant(self);
        }
        self.column
    }
}

} // verus!
