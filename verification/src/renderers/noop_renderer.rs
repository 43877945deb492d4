//! The renderer that shows nothing.

use vstd::prelude::*;

use crate::board::Board;
use crate::renderers::sudoku_renderer::SudokuRenderer;

verus! {

pub struct NoopRenderer {}

impl SudokuRenderer for NoopRenderer {
    fn setup(&self, _filename: &str) {
    }

    fn display_step(&self, _board: &Board) {
    }

    fn display_final_result(&self, _board: Option<&Board>) {
    }

    fn teardown(&self) {
    }
}

} // verus!
