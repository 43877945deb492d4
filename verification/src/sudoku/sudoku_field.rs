//! A field of a plain sudoku board.

use vstd::prelude::*;
use vstd::std_specs::convert::TryFromSpecImpl;

use crate::field::cell_char;
use crate::sudoku::sudoku_error::SudokuError;

verus! {

/// A SudokuField is either a number 1-9 or a empty field
#[derive(PartialEq, Eq, Debug, Copy, Clone, Structural)]
pub enum SudokuField {
    Value(u8),
    Empty,
}

impl View for SudokuField {
    type V = Option<u8>;

    open spec fn view(&self) -> Option<u8> {
        match self {
            SudokuField::Value(value) => Some(*value),
            SudokuField::Empty => None,
        }
    }
}

/// The field that an ASCII-encoded byte stands for: `-` for the empty
/// field, the digits `1` to `9` for their values, and nothing else.
pub open spec fn field_of_byte(byte: u8) -> Option<SudokuField> {
    if byte == 45 {
        Some(SudokuField::Empty)
    } else if 49 <= byte <= 57 {
        Some(SudokuField::Value((byte - 48) as u8))
    } else {
        None
    }
}

/// Try to parse a an ASCII-encoded byte to a SudokuField
impl<'a> TryFrom<&'a u8> for SudokuField {
    type Error = SudokuError;

    fn try_from(value: &'a u8) -> (result: Result<Self, Self::Error>)
        ensures
            match result {
                Ok(field) => field_of_byte(*value) == Some(field) && field.in_range(),
                Err(error) => field_of_byte(*value) is None && error
                    == SudokuError::InvalidCharacterInInput,
            },
    {
        let byte = *value;
        if byte == 45 {
            Ok(SudokuField::Empty)
        } else if 49 <= byte && byte <= 57 {
            Ok(SudokuField::Value(byte - 48))
        } else {
            Err(SudokuError::InvalidCharacterInInput)
        }
    }
}

impl<'a> TryFromSpecImpl<&'a u8> for SudokuField {
    open spec fn obeys_try_from_spec() -> bool {
        true
    }

    open spec fn try_from_spec(value: &'a u8) -> Result<Self, Self::Error> {
        match field_of_byte(*value) {
            Some(field) => Ok(field),
            None => Err(SudokuError::InvalidCharacterInInput),
        }
    }
}

impl SudokuField {
    /// A filled field holds one of the digits 1-9.
    pub open spec fn in_range(self) -> bool {
        self matches SudokuField::Value(value) ==> 1 <= value <= 9
    }

    pub fn is_filled(&self) -> (filled: bool)
        ensures
            filled == (self@ is Some),
    {
        match self {
            SudokuField::Value(_) => true,
            SudokuField::Empty => false,
        }
    }

    pub fn is_empty(&self) -> (empty: bool)
        ensures
            empty == (self@ is None),
    {
        match self {
            SudokuField::Value(_) => false,
            SudokuField::Empty => true,
        }
    }

    /// The character the field is displayed as: a blank if it is empty, else its digit
    pub fn to_char(&self) -> (c: char)
        requires
            self.in_range(),
        ensures
            c == cell_char(self@),
    {
        match self {
            SudokuField::Empty => ' ',
            SudokuField::Value(val) => (*val + 48) as char,
        }
    }
}

} // verus!
