//! Walking over the positions of the board in row-major order.

use vstd::prelude::*;

use crate::position::Position;

verus! {

/// Iterator for fields on a board. Useful for iterating all board fields one-by-one.
#[derive(Debug)]
pub struct PositionIter {
    position: Option<Position>,
}

impl PositionIter {
    /// The index of the position that `next` hands out next, 81 when the
    /// iterator is exhausted.
    pub closed spec fn cursor(self) -> int {
        match self.position {
            Some(position) => position.index(),
            None => 81,
        }
    }

    /// The cursor is a position of the board, or 81.
    #[verifier::type_invariant]
    pub closed spec fn in_range(self) -> bool {
        self.position matches Some(position) ==> position.on_board()
    }

    /// Create a new PositionIter starting at a position
    pub fn new(position: Position) -> (iter: PositionIter)
        ensures
            iter.cursor() == position.index(),
    {
        proof {
            use_type_invariant(position);
        }
        PositionIter { position: Some(position) }
    }

    /// Create a new PositionIter starting at the first board field
    pub fn from_first_field() -> (iter: PositionIter)
        ensures
            iter.cursor() == 0,
    {
        PositionIter::new(Position::from_index(0))
    }

    /// The position under the cursor, then the cursor moves on by one field.
    /// `None` once the last field of the board has been handed out.
    pub fn next(&mut self) -> (item: Option<Position>)
        ensures
            0 <= old(self).cursor() <= 81,
            match item {
                Some(position) => {
                    &&& position.index() == old(self).cursor()
                    &&& position.on_board()
                    &&& final(self).cursor() == old(self).cursor() + 1
                },
                None => old(self).cursor() == 81 && final(self).cursor() == 81,
            },
    {
        proof {
            use_type_invariant(&*self);
        }
        if let Some(position) = self.position {
            self.position = position.incremented_copy();
            Some(position)
        } else {
            None
        }
    }
}

} // verus!
