//! Coordinates that may lie off the board.

use vstd::prelude::*;
use vstd::std_specs::convert::FromSpecImpl;

verus! {

/// A row and a column. Both are 0-8 for a position on the board; the first
/// position past the board is row 9, column 0.
#[derive(Clone, Copy, Debug, PartialEq, Eq, Structural)]
pub struct Position {
    pub row: usize,
    pub column: usize,
}

impl From<usize> for Position {
    /// Convert a 1d usize into a position
    fn from(coords: usize) -> (position: Self)
        ensures
            position.row == coords / 9,
            position.column == coords % 9,
    {
        Position { row: coords / 9, column: coords % 9 }
    }
}

impl FromSpecImpl<usize> for Position {
    open spec fn obeys_from_spec() -> bool {
        true
    }

    open spec fn from_spec(coords: usize) -> Self {
        Position { row: (coords / 9) as usize, column: (coords % 9) as usize }
    }
}

impl From<(usize, usize)> for Position {
    /// Convert a 2d usize of (row, col) into a position
    fn from(coords: (usize, usize)) -> (position: Self)
        ensures
            position.row == coords.0,
            position.column == coords.1,
    {
        let (row, column) = coords;
        Position { row, column }
    }
}

impl FromSpecImpl<(usize, usize)> for Position {
    open spec fn obeys_from_spec() -> bool {
        true
    }

    open spec fn from_spec(coords: (usize, usize)) -> Self {
        Position { row: coords.0, column: coords.1 }
    }
}

impl Position {
    /// The row-major index of the position.
    pub open spec fn index(self) -> int {
        self.row * 9 + self.column
    }

    /// Both coordinates lie on the board.
    pub open spec fn on_board(self) -> bool {
        self.row <= 8 && self.column <= 8
    }

    /// The position one field further in row-major order. After the last
    /// field of the board comes row 9, column 0.
    pub fn increment(&self) -> (next: Position)
        requires
            self.index() + 1 <= usize::MAX,
        ensures
            next.row == (self.index() + 1) / 9,
            next.column == (self.index() + 1) % 9,
            next.index() == self.index() + 1,
    {
        let new_position = self.row * 9 + self.column + 1;

        Position::from(new_position)
    }

    /// Do both coordinates lie on the board?
    pub fn is_valid(&self) -> (valid: bool)
        ensures
            valid == self.on_board(),
    {
        self.row <= 8 && self.column <= 8
    }
}

} // verus!
