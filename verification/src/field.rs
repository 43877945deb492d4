//! A single slot of the board.

use vstd::prelude::*;
use vstd::string::*;

use crate::error::FieldParseError;

verus! {

/// Represents a field value on a sudoku board.
///
/// The `Field` can either have a value of 1-9, or be empty.
#[derive(PartialEq, Eq, Debug, Copy, Clone, Hash, Structural)]
pub struct Field(FieldInner);

#[derive(PartialEq, Eq, Debug, Copy, Clone, Hash, Structural)]
enum FieldInner {
    /// A filled in sudoku field with a value 1-9
    Value(u8),
    /// An empty field
    Empty,
}

/// The character a cell is displayed as: a blank when empty, else its digit.
pub open spec fn cell_char(cell: Option<u8>) -> char {
    match cell {
        None => ' ',
        Some(digit) => (digit + 48) as char,
    }
}

impl View for Field {
    type V = Option<u8>;

    closed spec fn view(&self) -> Option<u8> {
        match self.0 {
            FieldInner::Value(value) => Some(value),
            FieldInner::Empty => None,
        }
    }
}

impl Field {
    /// A filled field holds one of the digits 1-9.
    #[verifier::type_invariant]
    pub open spec fn in_range(self) -> bool {
        self@ matches Some(digit) ==> 1 <= digit <= 9
    }

    /// A field is what it shows: fields with the same view are the same.
    pub proof fn lemma_view_determines(self, other: Field)
        ensures
            (self@ == other@) <==> (self == other),
    {
    }

    /// Create an empty `Field`
    pub fn empty() -> (field: Field)
        ensures
            field@ is None,
    {
        Field(FieldInner::Empty)
    }

    /// Create a `Field` with value. The caller guarantees a digit 1-9
    pub fn from_u8(value: u8) -> (field: Field)
        requires
            1 <= value <= 9,
        ensures
            field@ == Some(value),
    {
        Field(FieldInner::Value(value))
    }

    /// Create a `Field` from a digit 1-9
    pub fn new(digit: u8) -> (result: Result<Field, FieldParseError>)
        ensures
            match result {
                Ok(field) => 1 <= digit <= 9 && field@ == Some(digit),
                Err(error) => !(1 <= digit <= 9) && error == FieldParseError::InvalidCharacter,
            },
    {
        if 1 <= digit && digit <= 9 {
            Ok(Field(FieldInner::Value(digit)))
        } else {
            Err(FieldParseError::InvalidCharacter)
        }
    }

    /// Get the value of a `Field` if set, otherwise `None` if empty
    pub fn value(&self) -> (value: Option<u8>)
        ensures
            value == self@,
            value matches Some(digit) ==> 1 <= digit <= 9,
    {
        proof {
            use_type_invariant(self);
        }
        match self.0 {
            FieldInner::Value(value) => Some(value),
            FieldInner::Empty => None,
        }
    }

    /// Is the `Field` filled?
    pub fn is_filled(&self) -> (filled: bool)
        ensures
            filled == (self@ is Some),
    {
        match self.0 {
            FieldInner::Value(_) => true,
            FieldInner::Empty => false,
        }
    }

    /// Is the `Field` empty?
    pub fn is_empty(&self) -> (empty: bool)
        ensures
            empty == (self@ is None),
    {
        match self.0 {
            FieldInner::Value(_) => false,
            FieldInner::Empty => true,
        }
    }

    /// The character the field is displayed as
    pub fn to_char(&self) -> (c: char)
        ensures
            c == cell_char(self@),
    {
        proof {
            use_type_invariant(self);
        }
        match self.0 {
            FieldInner::Empty => ' ',
            FieldInner::Value(value) => (value + 48) as char,
        }
    }
}

} // verus!
