use fabrik::{
    Board, Field, FieldParseError, Position, PositionIter, SudokuParseError, SudokuSolveError,
};

const ONEEIGHTY: &str = "-349---28
                         2-------6
                         ---271---
                         -----2-6-
                         45-----39
                         -6-4-----
                         ---614---
                         3-------1
                         98---364-";

const ONEEIGHTY_LINE: &str =
    "-349---282-------6---271--------2-6-45-----39-6-4--------614---3-------198---364-";

fn position(row: usize, column: usize) -> Position {
    Position::from_index(row * 9 + column)
}

fn digits(board: &Board) -> Vec<Option<u8>> {
    (0..81)
        .map(|index| board.get_field(Position::from_index(index)).value())
        .collect()
}

fn errors_of(result: Result<Board, SudokuParseError>) -> Vec<(Position, FieldParseError)> {
    match result {
        Err(SudokuParseError::ParseErrors(errors)) => errors,
        other => panic!("expected parse errors, got {other:?}"),
    }
}

#[test]
fn all_ways_of_reading_a_board_agree() {
    let from_str = Board::try_from(ONEEIGHTY).unwrap();
    let from_string = Board::try_from(ONEEIGHTY.to_string()).unwrap();
    let from_bytes = Board::try_from(ONEEIGHTY_LINE.as_bytes().to_vec()).unwrap();
    let from_digits = Board::try_from(digits(&from_str)).unwrap();

    assert_eq!(from_str, from_string);
    assert_eq!(from_str, from_bytes);
    assert_eq!(from_str, from_digits);
    assert_eq!(from_str.get_field(position(0, 1)).value(), Some(3));
    assert_eq!(from_str.get_field(position(8, 7)).value(), Some(4));
    assert_eq!(from_str.get_field(position(8, 8)).value(), None);
}

#[test]
fn whitespace_of_any_kind_is_dropped() {
    let spread = ONEEIGHTY_LINE
        .chars()
        .map(|c| format!("\t{c} \r\n\u{a0}\u{2003}"))
        .collect::<String>();

    assert_eq!(Board::try_from(spread), Board::try_from(ONEEIGHTY_LINE));
}

#[test]
fn a_blank_byte_stands_for_an_empty_field() {
    let bytes = ONEEIGHTY_LINE.replace('-', " ").into_bytes();

    assert_eq!(Board::try_from(bytes), Board::try_from(ONEEIGHTY_LINE));
}

#[test]
fn cells_read_back_as_the_same_board() {
    let board = Board::try_from(ONEEIGHTY).unwrap();

    let text: Vec<u8> = digits(&board)
        .iter()
        .map(|cell| match cell {
            Some(digit) => b'0' + digit,
            None => b'-',
        })
        .collect();

    assert_eq!(text, ONEEIGHTY_LINE.as_bytes());
    assert_eq!(Board::try_from(text), Ok(board));
    assert_eq!(Board::try_from(digits(&board)), Ok(board));
}

#[test]
fn boards_with_the_same_cells_are_displayed_alike() {
    let first = Board::try_from(ONEEIGHTY).unwrap();
    let second = Board::try_from(digits(&first)).unwrap();

    assert_eq!(first.to_string(), second.to_string());
    assert_eq!(first.to_string().len(), 13 * 14);
}

#[test]
fn the_empty_board_is_displayed_as_blanks() {
    let board = Board::try_from(vec![None; 81]).unwrap();

    let expected = "+-----------+
|   |   |   |
|   |   |   |
|   |   |   |
+---+---+---+
|   |   |   |
|   |   |   |
|   |   |   |
+---+---+---+
|   |   |   |
|   |   |   |
|   |   |   |
+-----------+
";

    assert_eq!(board.to_string(), expected);
}

#[test]
fn too_short_an_input_has_an_invalid_length() {
    assert_eq!(
        Board::try_from(&ONEEIGHTY_LINE[1..]),
        Err(SudokuParseError::InvalidLength)
    );
    assert_eq!(Board::try_from(""), Err(SudokuParseError::InvalidLength));
    assert_eq!(
        Board::try_from(vec![Some(1u8); 80]),
        Err(SudokuParseError::InvalidLength)
    );
    assert_eq!(
        Board::try_from(vec![b'-'; 82]),
        Err(SudokuParseError::InvalidLength)
    );
}

#[test]
fn the_length_is_checked_before_the_characters() {
    let invalid = format!("{}ff", ONEEIGHTY_LINE);

    assert_eq!(Board::try_from(invalid), Err(SudokuParseError::InvalidLength));
}

#[test]
fn the_length_counts_the_bytes_of_the_text() {
    let text = format!("\u{e9}{}", &ONEEIGHTY_LINE[1..]);

    assert_eq!(text.chars().count(), 81);
    assert_eq!(Board::try_from(text), Err(SudokuParseError::InvalidLength));
}

#[test]
fn a_duplicate_in_a_row_is_reported_at_both_positions() {
    let text = format!("1-1{}", &ONEEIGHTY_LINE[3..].replace('1', "-"));

    let errors = errors_of(Board::try_from(text));

    assert_eq!(
        errors,
        vec![
            (position(0, 0), FieldParseError::SudokuRuleViolation),
            (position(0, 2), FieldParseError::SudokuRuleViolation),
        ]
    );
}

#[test]
fn an_invalid_character_is_reported_at_its_position_only() {
    let mut text = ONEEIGHTY_LINE.to_string();
    text.replace_range(40..41, "f");

    let errors = errors_of(Board::try_from(text));

    assert_eq!(errors, vec![(position(4, 4), FieldParseError::InvalidCharacter)]);
}

#[test]
fn an_invalid_character_counts_as_empty_for_the_rules() {
    // Kept on the board, the two invalid fields of the first row would clash
    let mut cells: Vec<Option<u8>> = vec![None; 81];
    cells[0] = Some(4);
    cells[5] = Some(200);
    cells[7] = Some(200);
    cells[9] = Some(0);

    let errors = errors_of(Board::try_from(cells));

    assert_eq!(
        errors,
        vec![
            (position(0, 5), FieldParseError::InvalidCharacter),
            (position(0, 7), FieldParseError::InvalidCharacter),
            (position(1, 0), FieldParseError::InvalidCharacter),
        ]
    );

    // With f in place of a 4 that would clash, nothing but the f is wrong
    let text = "4---f----".to_string() + &"-".repeat(72);
    assert_eq!(
        errors_of(Board::try_from(text)),
        vec![(position(0, 4), FieldParseError::InvalidCharacter)]
    );
}

#[test]
fn invalid_characters_are_listed_before_rule_violations() {
    let mut cells: Vec<Option<u8>> = vec![None; 81];
    cells[0] = Some(7);
    cells[8] = Some(7);
    cells[80] = Some(10);

    let errors = errors_of(Board::try_from(cells));

    assert_eq!(
        errors,
        vec![
            (position(8, 8), FieldParseError::InvalidCharacter),
            (position(0, 0), FieldParseError::SudokuRuleViolation),
            (position(0, 8), FieldParseError::SudokuRuleViolation),
        ]
    );
}

#[test]
fn every_party_of_a_threefold_clash_is_reported() {
    // The same digit three times in the first row, once more in the column and
    // in the square of the first cell, and once where it clashes with nothing
    let mut cells: Vec<Option<u8>> = vec![None; 81];
    cells[0] = Some(5);
    cells[4] = Some(5);
    cells[8] = Some(5);
    cells[27] = Some(5);
    cells[10] = Some(5);
    cells[50] = Some(5);

    let errors = errors_of(Board::try_from(cells));

    assert_eq!(
        errors,
        vec![
            (position(0, 0), FieldParseError::SudokuRuleViolation),
            (position(0, 4), FieldParseError::SudokuRuleViolation),
            (position(0, 8), FieldParseError::SudokuRuleViolation),
            (position(1, 1), FieldParseError::SudokuRuleViolation),
            (position(3, 0), FieldParseError::SudokuRuleViolation),
        ]
    );
}

#[test]
fn bytes_other_than_dash_blank_and_digits_are_invalid() {
    let mut bytes = vec![b'-'; 81];
    bytes[3] = b'0';
    bytes[4] = b':';
    bytes[5] = 0xff;
    bytes[6] = b'9';
    bytes[7] = b'1';

    let errors = errors_of(Board::try_from(bytes));

    assert_eq!(
        errors,
        vec![
            (position(0, 3), FieldParseError::InvalidCharacter),
            (position(0, 4), FieldParseError::InvalidCharacter),
            (position(0, 5), FieldParseError::InvalidCharacter),
        ]
    );
}

#[test]
fn next_empty_field_is_none_exactly_if_the_rest_is_filled() {
    const STARRY_SOLVED: &str =
        "613529784742836519985174326269385147531947268874612935426751893397268451158493672";
    let mut cells: Vec<Option<u8>> =
        STARRY_SOLVED.bytes().map(|digit| Some(digit - b'0')).collect();
    cells[10] = None;
    cells[50] = None;
    let board = Board::try_from(cells.clone()).unwrap();

    for start in 0..81 {
        let expected = (start..81).find(|index| cells[*index].is_none());
        let found = board.next_empty_field(Position::from_index(start));
        assert_eq!(found.map(|p| p.row() * 9 + p.column()), expected);
        assert_eq!(found.is_none(), start > 50);
    }
}

#[test]
fn fields_hold_digits_from_one_to_nine() {
    assert_eq!(Field::new(0), Err(FieldParseError::InvalidCharacter));
    assert_eq!(Field::new(10), Err(FieldParseError::InvalidCharacter));
    assert_eq!(Field::new(255), Err(FieldParseError::InvalidCharacter));
    for digit in 1..=9 {
        let field = Field::new(digit).unwrap();
        assert_eq!(field, Field::from_u8(digit));
        assert_eq!(field.value(), Some(digit));
        assert!(field.is_filled());
        assert!(!field.is_empty());
        assert_eq!(field.to_char(), (b'0' + digit) as char);
    }
    assert_eq!(Field::empty().value(), None);
    assert!(Field::empty().is_empty());
    assert!(!Field::empty().is_filled());
    assert_eq!(Field::empty().to_char(), ' ');
}

#[test]
fn positions_count_the_fields_row_by_row() {
    let position = Position::from_index(43);
    assert_eq!((position.row(), position.column()), (4, 7));

    let next = position.incremented_copy().unwrap();
    assert_eq!((next.row(), next.column()), (4, 8));
    let next = next.incremented_copy().unwrap();
    assert_eq!((next.row(), next.column()), (5, 0));

    assert_eq!(Position::from_index(79).incremented_copy(), Some(Position::from_index(80)));
    assert_eq!(Position::from_index(80).incremented_copy(), None);
}

#[test]
fn position_iter_starts_where_it_is_told() {
    let mut iterator = PositionIter::new(Position::from_index(79));

    assert_eq!(iterator.next(), Some(Position::from_index(79)));
    assert_eq!(iterator.next(), Some(Position::from_index(80)));
    assert_eq!(iterator.next(), None);
    assert_eq!(iterator.next(), None);
}

#[test]
fn errors_have_messages() {
    assert_eq!(
        SudokuParseError::InvalidLength.to_string(),
        "Input does not have length 81"
    );
    assert_eq!(
        SudokuParseError::ParseErrors(vec![]).to_string(),
        "Sudoku has invalid fields or fields that violate the sudoku rules"
    );
    assert_eq!(FieldParseError::InvalidCharacter.to_string(), "Invalid character");
    assert_eq!(
        FieldParseError::SudokuRuleViolation.to_string(),
        "Field violates sudoku rules"
    );
    assert_eq!(SudokuSolveError::Unsolvable.to_string(), "The sudoku is unsolvable");
}
