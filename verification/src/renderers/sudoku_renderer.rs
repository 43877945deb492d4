//! What the solver asks of a renderer.

use vstd::prelude::*;

use crate::board::Board;

verus! {

/// A renderer shows the boards of a search. The solver hands it every board
/// and never depends on what the renderer does with it.
pub trait SudokuRenderer {
    /// Called once before the search, with a name for where the board comes from.
    fn setup(&self, filename: &str);

    /// Called with the board after each step of the search.
    fn display_step(&self, board: &Board);

    /// Called once when the search is over, with the solution if there is one.
    fn display_final_result(&self, board: Option<&Board>);

    /// Called once after everything else.
    fn teardown(&self);
}

} // verus!
