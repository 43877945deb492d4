//! An iterator based sudoku solving library using backtracking.
//!
//! The solver is an iterator-like engine that emits every single board of the
//! solution process. This allows users of the library to easily build things
//! on top, for example visualizations of the solution process or counting how
//! many guesses a solution took.
//!
//! The data structures are always valid. It is not possible to:
//!
//! - Create an invalid sudoku board
//! - Modify a valid sudoku board into an invalid sudoku board
//! - Represent out of bounds positions on the sudoku board
//! - Represent single board fields with invalid values
//! - Break the sudoku rule of only one allowed unique number per row, column, square
//!
//! The modules:
//!
//! - [`position`], [`field`], [`board`], [`error`]: the board and what it is made of,
//!   reading a board from text and writing it out.
//! - [`position_iter`], [`backtracking_iter`], [`solve`]: walking over the board, the
//!   backtracking search step by step, and the search with a renderer looking on.
//! - [`rules`], [`search`], [`text`]: the mathematical models that the contracts of
//!   the functions speak of: the sudoku rules, the search, the text formats.
//! - [`solutions`], [`theorems`]: what is proved of the library as a whole. The search
//!   finds every solution of a board, the least one first.
//! - [`renderers`]: what the solver asks of a renderer.
//! - [`sudoku`]: a plain board that keeps its fields without enforcing the rules.

pub mod backtracking_iter;
pub mod board;
pub mod error;
pub mod field;
pub mod position;
pub mod position_iter;
pub mod renderers;
pub mod rules;
pub mod search;
pub mod solutions;
pub mod solve;
pub mod sudoku;
pub mod text;
pub mod theorems;

// Public API
pub use backtracking_iter::BacktrackingIter;
pub use board::Board;
pub use error::{FieldParseError, SudokuParseError, SudokuSolveError};
pub use field::Field;
pub use position::Position;
pub use position_iter::PositionIter;
pub use solve::solve_board;
