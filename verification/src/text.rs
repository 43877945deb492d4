//! The mathematical model of reading a board from text and of writing it out.

use vstd::prelude::*;
use vstd::string::StrSliceExecFns;
use vstd::utf8::encode_utf8;

use crate::error::FieldParseError;
use crate::field::cell_char;
use crate::position::Position;
use crate::rules::{cell, violates_rules};

verus! {

/// What `char::is_whitespace` answers for a character: whether Unicode
/// classes it as `White_Space`.
pub uninterp spec fn whitespace(c: char) -> bool;

/// `char::is_whitespace` of the standard library depends on the character
/// alone. Its answer is given the name `whitespace`; nothing else is
/// claimed of it.
pub assume_specification[ char::is_whitespace ](c: char) -> (answer: bool)
    ensures
        answer == whitespace(c),
;

/// `String::push` of the standard library appends the character to the end
/// of the string.
pub assume_specification[ String::push ](text: &mut String, c: char)
    ensures
        final(text)@ == old(text)@.push(c),
;

/// The text without its whitespace characters.
pub open spec fn without_whitespace(text: Seq<char>) -> Seq<char> {
    text.filter(|c: char| !whitespace(c))
}

/// The bytes that a text is read from: the UTF-8 encoding of the text
/// without its whitespace.
pub open spec fn text_bytes(text: Seq<char>) -> Seq<u8> {
    encode_utf8(without_whitespace(text))
}

/// The bytes of a text without its whitespace.
pub fn bytes_of_text(input: &str) -> (bytes: Vec<u8>)
    ensures
        bytes@ == text_bytes(input@),
{
    let mut stripped = String::new();
    for c in chars: input.chars()
        invariant
            chars.seq() == input@,
            stripped@ == without_whitespace(input@.take(chars.index() as int)),
    {
        if !c.is_whitespace() {
            stripped.push(c);
        }
        proof {
            let seen = input@.take(chars.index() as int);
            assert(input@.take(chars.index() + 1) =~= seen.push(c));
            seen.lemma_filter_push(c, |c: char| !whitespace(c));
        }
    }
    assert(input@.take(input@.len() as int) =~= input@);
    stripped.as_str().as_bytes_vec()
}

/// What a byte of text stands for: `-` and the blank for an empty cell, the
/// digits `1` to `9` for their values, and any other byte for 255, which no
/// cell can hold.
pub open spec fn cell_of_byte(byte: u8) -> Option<u8> {
    if byte == 45 || byte == 32 {
        None
    } else if 49 <= byte <= 57 {
        Some((byte - 48) as u8)
    } else {
        Some(255u8)
    }
}

/// What the bytes of a text stand for, byte by byte.
pub open spec fn cells_of_bytes(bytes: Seq<u8>) -> Seq<Option<u8>> {
    Seq::new(bytes.len(), |i: int| cell_of_byte(bytes[i]))
}

/// The byte that a cell is written as in a text: `-` for an empty cell, the
/// digit for a filled one.
pub open spec fn byte_of_cell(cell: Option<u8>) -> u8 {
    match cell {
        None => 45u8,
        Some(digit) => (digit + 48) as u8,
    }
}

/// The text bytes of a grid, cell by cell.
pub open spec fn bytes_of_cells(grid: Seq<Option<u8>>) -> Seq<u8> {
    Seq::new(grid.len(), |i: int| byte_of_cell(grid[i]))
}

/// The input holds something at the index that is no digit 1-9.
pub open spec fn invalid_at(input: Seq<Option<u8>>, index: int) -> bool {
    input[index] matches Some(value) && !(1 <= value <= 9)
}

/// The input read leniently: what is no digit 1-9 counts as an empty cell.
pub open spec fn lenient(input: Seq<Option<u8>>) -> Seq<Option<u8>> {
    Seq::new(
        input.len(),
        |i: int|
            if invalid_at(input, i) {
                None
            } else {
                input[i]
            },
    )
}

/// The indices before `end` at which the input holds no digit 1-9 and is
/// not empty, in rising order, each marked as an invalid character.
pub open spec fn invalid_cells(input: Seq<Option<u8>>, end: int) -> Seq<(int, FieldParseError)>
    decreases end,
{
    if end <= 0 {
        Seq::empty()
    } else {
        let before = invalid_cells(input, end - 1);
        if invalid_at(input, end - 1) {
            before.push((end - 1, FieldParseError::InvalidCharacter))
        } else {
            before
        }
    }
}

/// The cell at the index violates the rules.
pub open spec fn violates_at(grid: Seq<Option<u8>>, index: int) -> bool {
    violates_rules(grid, index / 9, index % 9)
}

/// The indices before `end` of the cells that violate the rules, in rising order.
pub open spec fn violating_cells(grid: Seq<Option<u8>>, end: int) -> Seq<int>
    decreases end,
{
    if end <= 0 {
        Seq::empty()
    } else {
        let before = violating_cells(grid, end - 1);
        if violates_at(grid, end - 1) {
            before.push(end - 1)
        } else {
            before
        }
    }
}

/// Each index marked as a violation of the rules.
pub open spec fn marked_as_violations(indices: Seq<int>) -> Seq<(int, FieldParseError)> {
    Seq::new(indices.len(), |k: int| (indices[k], FieldParseError::SudokuRuleViolation))
}

/// Everything that is wrong with an input of 81 cells: first the invalid
/// characters, then the cells that violate the rules once the input is read
/// leniently; each kind in row-major order.
pub open spec fn parse_errors(input: Seq<Option<u8>>) -> Seq<(int, FieldParseError)> {
    invalid_cells(input, 81) + marked_as_violations(violating_cells(lenient(input), 81))
}

/// The indices of the positions.
pub open spec fn indices(positions: Seq<Position>) -> Seq<int> {
    Seq::new(positions.len(), |k: int| positions[k].index())
}

/// The errors with the index of each position.
pub open spec fn located(errors: Seq<(Position, FieldParseError)>) -> Seq<(int, FieldParseError)> {
    Seq::new(errors.len(), |k: int| (errors[k].0.index(), errors[k].1))
}

/// The first `columns` cells of a row as they are displayed: a bar, then the
/// cells, with a bar after every third.
pub open spec fn rendered_cells(grid: Seq<Option<u8>>, row: int, columns: int) -> Seq<char>
    decreases columns,
{
    if columns <= 0 {
        seq!['|']
    } else {
        let before = rendered_cells(grid, row, columns - 1).push(
            cell_char(cell(grid, row, columns - 1)),
        );
        if columns % 3 == 0 {
            before.push('|')
        } else {
            before
        }
    }
}

/// The top border and the first `rows` rows as they are displayed: one line
/// for each row, with a separating line after the third and the sixth.
pub open spec fn rendered_rows(grid: Seq<Option<u8>>, rows: int) -> Seq<char>
    decreases rows,
{
    if rows <= 0 {
        "+-----------+\n"@
    } else {
        let before = rendered_rows(grid, rows - 1) + rendered_cells(grid, rows - 1, 9).push('\n');
        if rows % 3 == 0 && rows != 9 {
            before + "+---+---+---+\n"@
        } else {
            before
        }
    }
}

/// The board as it is displayed.
pub open spec fn rendered(grid: Seq<Option<u8>>) -> Seq<char> {
    rendered_rows(grid, 9) + "+-----------+\n"@
}

/// `invalid_cells` lists exactly the invalid indices before `end`.
pub proof fn lemma_invalid_cells(input: Seq<Option<u8>>, end: int)
    ensures
        forall|index: int, kind: FieldParseError|
            #![trigger invalid_cells(input, end).contains((index, kind))]
            invalid_cells(input, end).contains((index, kind)) <==> (0 <= index < end && invalid_at(
                input,
                index,
            ) && kind == FieldParseError::InvalidCharacter),
        invalid_cells(input, end).len() == 0 <==> forall|index: int|
            0 <= index < end ==> !invalid_at(input, index),
    decreases end,
{
    if end > 0 {
        lemma_invalid_cells(input, end - 1);
        let before = invalid_cells(input, end - 1);
        let all = invalid_cells(input, end);
        if invalid_at(input, end - 1) {
            assert(all[all.len() - 1] == (end - 1, FieldParseError::InvalidCharacter));
            assert forall|index: int, kind: FieldParseError|
                all.contains((index, kind)) <==> (0 <= index < end && invalid_at(input, index)
                    && kind == FieldParseError::InvalidCharacter) by {
                if all.contains((index, kind)) {
                    let k = choose|k: int| 0 <= k < all.len() && all[k] == (index, kind);
                    if k < before.len() {
                        assert(before[k] == (index, kind));
                        assert(before.contains((index, kind)));
                    }
                }
                if 0 <= index < end && invalid_at(input, index) && kind
                    == FieldParseError::InvalidCharacter {
                    if index < end - 1 {
                        assert(before.contains((index, kind)));
                        let k = choose|k: int| 0 <= k < before.len() && before[k] == (index, kind);
                        assert(all[k] == (index, kind));
                    }
                }
            }
        }
    }
}

/// `violating_cells` lists exactly the indices before `end` of the cells
/// that violate the rules.
pub proof fn lemma_violating_cells(grid: Seq<Option<u8>>, end: int)
    ensures
        forall|index: int|
            #![trigger violating_cells(grid, end).contains(index)]
            #![trigger violates_at(grid, index)]
            violating_cells(grid, end).contains(index) <==> (0 <= index < end && violates_at(
                grid,
                index,
            )),
        violating_cells(grid, end).len() == 0 <==> forall|index: int|
            0 <= index < end ==> !violates_at(grid, index),
    decreases end,
{
    if end > 0 {
        lemma_violating_cells(grid, end - 1);
        let before = violating_cells(grid, end - 1);
        let all = violating_cells(grid, end);
        assert forall|index: int| all.contains(index) implies 0 <= index < end && violates_at(
            grid,
            index,
        ) by {
            let k = choose|k: int| 0 <= k < all.len() && all[k] == index;
            if k < before.len() {
                assert(before[k] == index);
                assert(before.contains(index));
            }
        }
        assert forall|index: int| 0 <= index < end && violates_at(grid, index) implies all.contains(
            index,
        ) by {
            if index < end - 1 {
                assert(before.contains(index));
                let k = choose|k: int| 0 <= k < before.len() && before[k] == index;
                assert(all[k] == index);
            } else {
                assert(all[all.len() - 1] == index);
            }
        }
    }
}

/// Where the display shows the cell at a row and a column: after the top
/// border, the lines of the rows above, a separating line for every three of
/// them, and in its line after the bars and the cells before it.
pub open spec fn shown_at(row: int, column: int) -> int {
    14 + 14 * row + 14 * (row / 3) + 1 + column + column / 3
}

/// The display of the first cells of a row holds each cell at its place.
pub proof fn lemma_rendered_cells(grid: Seq<Option<u8>>, row: int, columns: int)
    requires
        0 <= columns <= 9,
    ensures
        rendered_cells(grid, row, columns).len() == 1 + columns + columns / 3,
        forall|column: int|
            0 <= column < columns ==> rendered_cells(grid, row, columns)[1 + column + column / 3]
                == cell_char(#[trigger] cell(grid, row, column)),
    decreases columns,
{
    if columns > 0 {
        lemma_rendered_cells(grid, row, columns - 1);
        let before = rendered_cells(grid, row, columns - 1);
        let all = rendered_cells(grid, row, columns);
        assert forall|column: int| 0 <= column < columns implies all[1 + column + column / 3]
            == cell_char(#[trigger] cell(grid, row, column)) by {
            if column < columns - 1 {
                assert(all[1 + column + column / 3] == before[1 + column + column / 3]);
            }
        }
    }
}

/// The display of the first rows holds each of their cells at its place.
pub proof fn lemma_rendered_rows(grid: Seq<Option<u8>>, rows: int)
    requires
        0 <= rows <= 9,
    ensures
        rendered_rows(grid, rows).len() == 14 + 14 * rows + 14 * (if rows == 9 {
            2
        } else {
            rows / 3
        }),
        forall|row: int, column: int|
            0 <= row < rows && 0 <= column < 9 ==> rendered_rows(grid, rows)[shown_at(row, column)]
                == cell_char(#[trigger] cell(grid, row, column)),
    decreases rows,
{
    reveal_strlit("+-----------+\n");
    reveal_strlit("+---+---+---+\n");
    if rows > 0 {
        lemma_rendered_rows(grid, rows - 1);
        lemma_rendered_cells(grid, rows - 1, 9);
        let above = rendered_rows(grid, rows - 1);
        let line = rendered_cells(grid, rows - 1, 9).push('\n');
        let all = rendered_rows(grid, rows);
        assert(above.len() == 14 * rows + 14 * ((rows - 1) / 3));
        assert(line.len() == 14);
        let with_line = above + line;
        assert forall|row: int, column: int|
            0 <= row < rows && 0 <= column < 9 implies all[shown_at(row, column)] == cell_char(
            #[trigger] cell(grid, row, column),
        ) by {
            let place = shown_at(row, column);
            if row < rows - 1 {
                assert(place < above.len());
                assert(with_line[place] == above[place]);
            } else {
                let within = 1 + column + column / 3;
                assert(place == above.len() + within);
                assert(with_line[place] == line[within]);
                assert(line[within] == rendered_cells(grid, rows - 1, 9)[within]);
            }
            assert(all[place] == with_line[place]);
        }
    }
}

/// The display of a grid has 13 lines of 14 characters, and holds each cell
/// at its place.
pub proof fn lemma_rendered(grid: Seq<Option<u8>>)
    ensures
        rendered(grid).len() == 182,
        forall|row: int, column: int|
            0 <= row < 9 && 0 <= column < 9 ==> rendered(grid)[shown_at(row, column)] == cell_char(
                #[trigger] cell(grid, row, column),
            ),
{
    reveal_strlit("+-----------+\n");
    lemma_rendered_rows(grid, 9);
    let rows = rendered_rows(grid, 9);
    assert forall|row: int, column: int| 0 <= row < 9 && 0 <= column < 9 implies rendered(
        grid,
    )[shown_at(row, column)] == cell_char(#[trigger] cell(grid, row, column)) by {
        assert(shown_at(row, column) < rows.len());
        assert(rendered(grid)[shown_at(row, column)] == rows[shown_at(row, column)]);
    }
}

} // verus!
