//! Errors emitted by the library

use vstd::prelude::*;
use vstd::string::*;

use crate::position::Position;

verus! {

/// Sudoku field parse-errors
#[derive(Clone, Copy, Debug, PartialEq, Eq, Hash, Structural)]
pub enum FieldParseError {
    /// An invalid character was found in the input
    InvalidCharacter,
    /// The board has rule violations
    SudokuRuleViolation,
}

/// Sudoku board parse-errors
#[derive(Debug, PartialEq, Eq)]
pub enum SudokuParseError {
    /// Input does not have length 81
    InvalidLength,
    /// The Sudoku has parse errors: every offending position with its kind of
    /// error, in row-major order, each position at most once.
    ParseErrors(Vec<(Position, FieldParseError)>),
}

/// Errors from solving a sudoku
#[derive(Clone, Copy, Debug, PartialEq, Eq, Structural)]
pub enum SudokuSolveError {
    /// The sudoku does not have a solution
    Unsolvable,
}

impl FieldParseError {
    /// The message of a field error.
    pub open spec fn message(self) -> Seq<char> {
        match self {
            FieldParseError::InvalidCharacter => "Invalid character"@,
            FieldParseError::SudokuRuleViolation => "Field violates sudoku rules"@,
        }
    }

    /// Human readable description of the error
    pub fn to_string(&self) -> (text: String)
        ensures
            text@ == self.message(),
    {
        match self {
            FieldParseError::InvalidCharacter => String::from_str("Invalid character"),
            FieldParseError::SudokuRuleViolation => String::from_str("Field violates sudoku rules"),
        }
    }
}

impl SudokuParseError {
    /// The message of a parse error.
    pub open spec fn message(self) -> Seq<char> {
        match self {
            SudokuParseError::ParseErrors(_) =>
                "Sudoku has invalid fields or fields that violate the sudoku rules"@,
            SudokuParseError::InvalidLength => "Input does not have length 81"@,
        }
    }

    /// Human readable description of the error
    pub fn to_string(&self) -> (text: String)
        ensures
            text@ == self.message(),
    {
        match self {
            SudokuParseError::ParseErrors(_) => String::from_str(
                "Sudoku has invalid fields or fields that violate the sudoku rules",
            ),
            SudokuParseError::InvalidLength => String::from_str("Input does not have length 81"),
        }
    }
}

impl SudokuSolveError {
    /// The message of a solve error.
    pub open spec fn message(self) -> Seq<char> {
        match self {
            SudokuSolveError::Unsolvable => "The sudoku is unsolvable"@,
        }
    }

    /// Human readable description of the error
    pub fn to_string(&self) -> (text: String)
        ensures
            text@ == self.message(),
    {
        match self {
            SudokuSolveError::Unsolvable => String::from_str("The sudoku is unsolvable"),
        }
    }
}

} // verus!
