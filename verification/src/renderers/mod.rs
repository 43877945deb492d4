//! Showing the search for a solution while it runs.

pub mod noop_renderer;
pub mod sudoku_renderer;

pub use noop_renderer::NoopRenderer;
pub use sudoku_renderer::SudokuRenderer;
