//! The plain sudoku board.

use vstd::prelude::*;
use vstd::std_specs::convert::TryFromSpecImpl;
use vstd::string::StringExecFns;

use crate::rules::{
    cell, first_empty_from, lemma_first_empty_is, on_board, same_square, used_in_column,
    used_in_row, used_in_square, valid_number, well_formed,
};
use crate::sudoku::iter::BoardIter;
use crate::sudoku::position::Position;
use crate::sudoku::sudoku_error::SudokuError;
use crate::sudoku::sudoku_field::{field_of_byte, SudokuField};
use crate::text::{bytes_of_text, rendered, rendered_cells, rendered_rows, text_bytes};

verus! {

/// 81 fields in row-major order. Every filled field holds a digit 1-9; the
/// sudoku rules are not enforced.
#[derive(Clone, Copy)]
pub struct SudokuBoard([SudokuField; 81]);

/// The cells of an array of fields, in row-major order.
pub open spec fn cells_of(fields: [SudokuField; 81]) -> Seq<Option<u8>> {
    Seq::new(81, |i: int| fields[i]@)
}

impl View for SudokuBoard {
    type V = Seq<Option<u8>>;

    closed spec fn view(&self) -> Seq<Option<u8>> {
        cells_of(self.0)
    }
}

/// What reading a plain board from the bytes of a text gives. It succeeds
/// exactly if there are 81 bytes and each stands for a field; the board then
/// holds these fields.
pub open spec fn read_from(bytes: Seq<u8>, result: Result<SudokuBoard, SudokuError>) -> bool {
    match result {
        Ok(board) => {
            &&& bytes.len() == 81
            &&& forall|i: int|
                0 <= i < 81 ==> ((#[trigger] field_of_byte(bytes[i])) matches Some(field) && field@
                    == board@[i])
        },
        Err(SudokuError::InvalidLength) => bytes.len() != 81,
        Err(SudokuError::InvalidCharacterInInput) => {
            &&& bytes.len() == 81
            &&& exists|i: int| 0 <= i < 81 && (#[trigger] field_of_byte(bytes[i])) is None
        },
        Err(SudokuError::Unsolvable) => false,
    }
}

impl SudokuBoard {
    /// The board has 81 fields, and every filled field holds a digit 1-9.
    #[verifier::type_invariant]
    pub open spec fn in_range(self) -> bool {
        well_formed(self@)
    }

    /// The iterator over the fields of the board, from the first field on.
    pub fn into_iter(&self) -> (iter: BoardIter<'_>)
        ensures
            iter.board() == *self,
            iter.position() == (Position { row: 0, column: 0 }),
    {
        BoardIter::new(self)
    }

    /// Get the value of a field at row and column
    pub fn get_field(&self, position: &Position) -> (field: &SudokuField)
        requires
            position.on_board(),
        ensures
            field@ == self@[position.index()],
            field.in_range(),
    {
        proof {
            use_type_invariant(self);
            assert(self@[position.index()] == self.0[position.index()]@);
        }
        &self.0[position.row * 9 + position.column]
    }

    /// Update a field on the board
    pub fn put_field(&mut self, position: &Position, sudoku_field: SudokuField)
        requires
            position.on_board(),
            sudoku_field.in_range(),
        ensures
            final(self)@ == old(self)@.update(position.index(), sudoku_field@),
    {
        proof {
            use_type_invariant(&*self);
        }
        let mut fields = self.0;
        fields[position.row * 9 + position.column] = sudoku_field;
        assert(cells_of(fields) =~= old(self)@.update(position.index(), sudoku_field@));
        *self = SudokuBoard(fields);
    }

    /// Get the next free field of the board: the first empty one in row-major
    /// order, the position itself included. `None` for a position off the board.
    pub fn next_empty_field(&self, position: &Position) -> (next: Option<Position>)
        ensures
            match next {
                Some(found) => {
                    &&& position.on_board()
                    &&& found.on_board()
                    &&& found.index() == first_empty_from(self@, position.index())
                },
                None => position.on_board() ==> first_empty_from(self@, position.index()) == 81,
            },
    {
        let mut start = self.into_iter();
        let iter = start.set_position(position);
        loop
            invariant
                iter.board() == *self,
                iter.position().on_board() ==> position.on_board(),
                position.on_board() ==> {
                    &&& position.index() <= iter.position().index() <= 81
                    &&& iter.position().on_board() == (iter.position().index() < 81)
                    &&& forall|i: int|
                        position.index() <= i < iter.position().index() ==> (
                        #[trigger] self@[i]) is Some
                },
            decreases
                    if iter.position().on_board() {
                        81 - iter.position().index()
                    } else {
                        0
                    },
        {
            match iter.next() {
                Some((found, field)) => {
                    if field.is_empty() {
                        proof {
                            lemma_first_empty_is(self@, position.index(), found.index());
                        }
                        return Some(found);
                    }
                },
                None => {
                    proof {
                        if position.on_board() {
                            lemma_first_empty_is(self@, position.index(), 81);
                        }
                    }
                    return None;
                },
            }
        }
    }

    /// Is a number valid at a given position?
    pub fn valid_number(&self, position: &Position, number: &SudokuField) -> (valid: bool)
        requires
            position.on_board(),
        ensures
            valid == valid_number(self@, position.row as int, position.column as int, number@),
    {
        !self.number_used_in_row(position, number) && !self.number_used_in_column(position, number)
            && !self.number_used_in_square(position, number)
    }

    /// Is a number currently used in a row?
    pub fn number_used_in_row(&self, position: &Position, number: &SudokuField) -> (used: bool)
        requires
            position.on_board(),
        ensures
            used == used_in_row(self@, position.row as int, number@),
    {
        let row = position.row;
        let mut column: usize = 0;
        while column < 9
            invariant
                column <= 9,
                row < 9,
                row == position.row,
                forall|c: int| 0 <= c < column ==> #[trigger] cell(self@, row as int, c) != number@,
            decreases 9 - column,
        {
            let field = self.0[row * 9 + column];
            assert(cell(self@, row as int, column as int) == field@);
            if field == *number {
                return true;
            }
            column += 1;
        }
        false
    }

    /// Is a number currently used in a column?
    pub fn number_used_in_column(&self, position: &Position, number: &SudokuField) -> (used: bool)
        requires
            position.on_board(),
        ensures
            used == used_in_column(self@, position.column as int, number@),
    {
        let column = position.column;
        let mut row: usize = 0;
        while row < 9
            invariant
                row <= 9,
                column < 9,
                column == position.column,
                forall|r: int| 0 <= r < row ==> #[trigger] cell(self@, r, column as int) != number@,
            decreases 9 - row,
        {
            let field = self.0[row * 9 + column];
            assert(cell(self@, row as int, column as int) == field@);
            if field == *number {
                return true;
            }
            row += 1;
        }
        false
    }

    /// Is a number used in a 3x3 square?
    pub fn number_used_in_square(&self, position: &Position, number: &SudokuField) -> (used: bool)
        requires
            position.on_board(),
        ensures
            used == used_in_square(self@, position.row as int, position.column as int, number@),
    {
        let square_row = position.row / 3;
        let square_column = position.column / 3;
        let mut row_increase: usize = 0;
        while row_increase < 3
            invariant
                row_increase <= 3,
                square_row == position.row / 3,
                square_column == position.column / 3,
                square_row < 3,
                square_column < 3,
                forall|r: int, c: int|
                    on_board(r, c) && r / 3 == square_row && c / 3 == square_column && r
                        < square_row * 3 + row_increase ==> #[trigger] cell(self@, r, c) != number@,
            decreases 3 - row_increase,
        {
            let row = square_row * 3 + row_increase;
            let mut column_increase: usize = 0;
            while column_increase < 3
                invariant
                    column_increase <= 3,
                    row_increase < 3,
                    row == square_row * 3 + row_increase,
                    square_row == position.row / 3,
                    square_column == position.column / 3,
                    square_row < 3,
                    square_column < 3,
                    forall|r: int, c: int|
                        on_board(r, c) && r / 3 == square_row && c / 3 == square_column && r < row
                            ==> #[trigger] cell(self@, r, c) != number@,
                    forall|c: int|
                        0 <= c < 9 && c / 3 == square_column && c < square_column * 3
                            + column_increase ==> #[trigger] cell(self@, row as int, c) != number@,
                decreases 3 - column_increase,
            {
                let column = square_column * 3 + column_increase;
                let field = self.0[row * 9 + column];
                assert(cell(self@, row as int, column as int) == field@);
                if field == *number {
                    assert(on_board(row as int, column as int));
                    assert(same_square(
                        position.row as int,
                        position.column as int,
                        row as int,
                        column as int,
                    ));
                    return true;
                }
                column_increase += 1;
            }
            row_increase += 1;
        }
        false
    }

    /// Get a String representation of a board
    pub fn to_string(&self) -> (text: String)
        ensures
            text@ == rendered(self@),
    {
        proof {
            use_type_invariant(self);
        }
        let mut text = String::from_str("+-----------+\n");

        let mut row: usize = 0;
        while row < 9
            invariant
                row <= 9,
                well_formed(self@),
                text@ == rendered_rows(self@, row as int),
            decreases 9 - row,
        {
            let ghost above = text@;
            text.push('|');

            let mut column: usize = 0;
            while column < 9
                invariant
                    row < 9,
                    column <= 9,
                    well_formed(self@),
                    text@ == above + rendered_cells(self@, row as int, column as int),
                decreases 9 - column,
            {
                let ghost before = rendered_cells(self@, row as int, column as int);
                let field = self.0[row * 9 + column];
                assert(self@[row * 9 + column] == field@);
                let shown = field.to_char();
                text.push(shown);
                assert(text@ =~= above + before.push(shown));

                if (column + 1) % 3 == 0 {
                    text.push('|');
                    assert(text@ =~= above + before.push(shown).push('|'));
                }
                column += 1;
            }

            text.push('\n');
            assert(text@ =~= above + rendered_cells(self@, row as int, 9).push('\n'));

            if (row + 1) % 3 == 0 && row != 8 {
                text.append("+---+---+---+\n");
            }
            row += 1;
        }

        text.append("+-----------+\n");

        text
    }
}

/// Read a String into a board
impl TryFrom<String> for SudokuBoard {
    type Error = SudokuError;

    fn try_from(input: String) -> (result: Result<Self, Self::Error>)
        ensures
            read_from(text_bytes(input@), result),
    {
        let trimmed_input = bytes_of_text(input.as_str());

        if trimmed_input.len() != 81 {
            return Err(SudokuError::InvalidLength);
        }
        let mut board_as_array = [SudokuField::Empty;81];

        let mut i: usize = 0;
        while i < 81
            invariant
                i <= 81,
                trimmed_input@.len() == 81,
                trimmed_input@ == text_bytes(input@),
                forall|k: int|
                    0 <= k < i ==> ((#[trigger] field_of_byte(trimmed_input@[k])) matches Some(
                        field,
                    ) && field == board_as_array[k] && field.in_range()),
            decreases 81 - i,
        {
            match SudokuField::try_from(&trimmed_input[i]) {
                Ok(field) => {
                    board_as_array[i] = field;
                },
                Err(error) => {
                    assert(field_of_byte(trimmed_input@[i as int]) is None);
                    return Err(error);
                },
            }
            i += 1;
        }
        assert(well_formed(cells_of(board_as_array))) by {
            assert forall|k: int| 0 <= k < 81 implies (#[trigger] cells_of(
                board_as_array,
            )[k] matches Some(digit) ==> 1 <= digit <= 9) by {
                assert(field_of_byte(trimmed_input@[k]) is Some);
            }
        }

        Ok(SudokuBoard(board_as_array))
    }
}

/// `try_from` is held to `read_from` by its own contract.
impl TryFromSpecImpl<String> for SudokuBoard {
    open spec fn obeys_try_from_spec() -> bool {
        false
    }

    open spec fn try_from_spec(input: String) -> Result<Self, Self::Error> {
        choose|result: Result<Self, Self::Error>| read_from(text_bytes(input@), result)
    }
}

} // verus!
