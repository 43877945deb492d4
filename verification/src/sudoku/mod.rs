//! A plain sudoku board that keeps its fields without enforcing the rules.

pub mod iter;
pub mod position;
pub mod sudoku_board;
pub mod sudoku_error;
pub mod sudoku_field;

pub use iter::BoardIter;
pub use position::Position;
pub use sudoku_board::SudokuBoard;
pub use sudoku_error::SudokuError;
pub use sudoku_field::SudokuField;
