//! What can go wrong with a plain sudoku board.

use vstd::prelude::*;
use vstd::string::StringExecFns;

verus! {

#[derive(Clone, Copy, Debug, PartialEq, Eq, Structural)]
pub enum SudokuError {
    /// Input does not have length 81
    InvalidLength,
    /// The input holds a character that is neither `-` nor a digit 1-9
    InvalidCharacterInInput,
    /// The sudoku does not have a solution
    Unsolvable,
}

impl SudokuError {
    /// The message of the error.
    pub open spec fn message(self) -> Seq<char> {
        match self {
            SudokuError::InvalidCharacterInInput => "Invalid character in input"@,
            SudokuError::InvalidLength => "Input does not have length 81"@,
            SudokuError::Unsolvable => "The sudoku is unsolvable"@,
        }
    }

    /// Human readable description of the error
    pub fn to_string(&self) -> (text: String)
        ensures
            text@ == self.message(),
    {
        match self {
            SudokuError::InvalidCharacterInInput => String::from_str("Invalid character in input"),
            SudokuError::InvalidLength => String::from_str("Input does not have length 81"),
            SudokuError::Unsolvable => String::from_str("The sudoku is unsolvable"),
        }
    }
}

} // verus!
