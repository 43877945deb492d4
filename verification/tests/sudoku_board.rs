use fabrik::sudoku::{BoardIter, Position, SudokuBoard, SudokuError, SudokuField};

const TEST_SUDOKU: &str = "-47---96-
8--716--2
6-------8
--21-85--
----9----
--16-23--
5-------1
7--945--3
-69---75-
";

#[test]
fn reads_a_board_from_string() {
    let board = SudokuBoard::try_from(TEST_SUDOKU.to_owned()).unwrap();

    let expected_board = "+-----------+
| 47|   |96 |
|8  |716|  2|
|6  |   |  8|
+---+---+---+
|  2|1 8|5  |
|   | 9 |   |
|  1|6 2|3  |
+---+---+---+
|5  |   |  1|
|7  |945|  3|
| 69|   |75 |
+-----------+
";

    assert_eq!(board.to_string(), expected_board);
}

#[test]
fn sudoku_board_fails_to_read_a_board_from_string_with_wrong_length() {
    let file_plus_one = format!("{}1", TEST_SUDOKU);
    let board = SudokuBoard::try_from(file_plus_one);

    assert!(board.is_err());

    assert_eq!(board.err().unwrap(), SudokuError::InvalidLength);
}

#[test]
fn fails_to_read_a_board_from_string_with_invalid_char() {
    let invalid_board = format!("Q{}", &TEST_SUDOKU[1..]);
    let board = SudokuBoard::try_from(invalid_board);

    assert!(board.is_err());

    assert_eq!(board.err().unwrap(), SudokuError::InvalidCharacterInInput);
}

#[test]
fn next_empty_field() {
    let mut board = SudokuBoard::try_from(TEST_SUDOKU.to_owned()).unwrap();
    assert_eq!(board.next_empty_field(&(0, 0).into()), Some((0, 0).into()));

    board.put_field(&(0, 0).into(), (&b'8').try_into().unwrap());
    assert_eq!(board.next_empty_field(&(0, 0).into()), Some((0, 3).into()));

    // Fill entire column with garbage
    for column in 0..9 {
        board.put_field(&(0, column).into(), (&b'9').try_into().unwrap());
    }

    assert_eq!(board.next_empty_field(&(0, 0).into()), Some((1, 1).into()));

    // Fill entire board with garbage numbers
    for row in 0..9 {
        for column in 0..9 {
            board.put_field(&(row, column).into(), (&b'9').try_into().unwrap());
        }
    }

    assert_eq!(board.next_empty_field(&(0, 0).into()), None);
}

#[test]
fn sudoku_board_number_used_in_row() {
    let board = SudokuBoard::try_from(TEST_SUDOKU.to_owned()).unwrap();

    assert!(board.number_used_in_row(&(0, 0).into(), &SudokuField::Value(4)));
    assert!(!board.number_used_in_row(&(0, 0).into(), &SudokuField::Value(5)));
    assert!(board.number_used_in_row(&(6, 0).into(), &SudokuField::Value(5)));
    assert!(!board.number_used_in_row(&(6, 0).into(), &SudokuField::Value(3)));
}

#[test]
fn sudoku_board_number_used_in_column() {
    let board = SudokuBoard::try_from(TEST_SUDOKU.to_owned()).unwrap();

    assert!(board.number_used_in_column(&(0, 2).into(), &SudokuField::Value(7)));
    assert!(!board.number_used_in_column(&(0, 2).into(), &SudokuField::Value(3)));
    assert!(board.number_used_in_column(&(0, 8).into(), &SudokuField::Value(1)));
    assert!(!board.number_used_in_column(&(0, 8).into(), &SudokuField::Value(9)));
}

#[test]
fn sudoku_board_number_used_in_square() {
    let board = SudokuBoard::try_from(TEST_SUDOKU.to_owned()).unwrap();

    assert!(board.number_used_in_square(&(0, 0).into(), &SudokuField::Value(7)));
    assert!(!board.number_used_in_square(&(0, 0).into(), &SudokuField::Value(1)));
    assert!(board.number_used_in_square(&(1, 2).into(), &SudokuField::Value(8)));
    assert!(!board.number_used_in_square(&(1, 2).into(), &SudokuField::Value(5)));
}

#[test]
fn valid_number() {
    let board = SudokuBoard::try_from(TEST_SUDOKU.to_owned()).unwrap();
    assert!(!board.valid_number(&(2, 2).into(), &SudokuField::Value(9)));
    assert!(!board.valid_number(&(8, 8).into(), &SudokuField::Value(1)));
    assert!(!board.valid_number(&(3, 3).into(), &SudokuField::Value(1)));
    assert!(board.valid_number(&(3, 3).into(), &SudokuField::Value(3)));
    assert!(board.valid_number(&(0, 0).into(), &SudokuField::Value(2)));
    assert!(board.valid_number(&(7, 7).into(), &SudokuField::Value(2)));
}

#[test]
fn iterator_with_position_emits_fields_in_expected_order() {
    const SPACED_SUDOKU: &str = "
            -47---96-\n
            8--716--2\n
            6-------8\n
            --21-85--\n
            ----9----\n
            --16-23--\n
            5-------1\n
            7--945--3\n
            -69---75-";

    let board = SudokuBoard::try_from(SPACED_SUDOKU.to_string()).unwrap();
    let mut iterator = BoardIter::new(&board);

    for &value in &[
        (Position { row: 0, column: 0 }, SudokuField::Empty),
        (Position { row: 0, column: 1 }, SudokuField::Value(4)),
        (Position { row: 0, column: 2 }, SudokuField::Value(7)),
        (Position { row: 0, column: 3 }, SudokuField::Empty),
    ] {
        assert_eq!(iterator.next(), Some(value));
    }

    // Advance 75 fields
    for _val in 0..75 {
        iterator.next();
    }

    for &value in &[
        (Position { row: 8, column: 7 }, SudokuField::Value(5)),
        (Position { row: 8, column: 8 }, SudokuField::Empty),
    ] {
        assert_eq!(iterator.next(), Some(value));
    }

    assert!(iterator.next().is_none());
}

#[test]
fn a_plain_field_is_read_from_a_dash_or_a_digit() {
    assert_eq!(SudokuField::try_from(&b'-'), Ok(SudokuField::Empty));
    assert_eq!(SudokuField::try_from(&b'1'), Ok(SudokuField::Value(1)));
    assert_eq!(SudokuField::try_from(&b'9'), Ok(SudokuField::Value(9)));
    assert_eq!(SudokuField::try_from(&b'0'), Err(SudokuError::InvalidCharacterInInput));
    assert_eq!(SudokuField::try_from(&b' '), Err(SudokuError::InvalidCharacterInInput));
    assert_eq!(SudokuField::try_from(&b':'), Err(SudokuError::InvalidCharacterInInput));
    assert!(SudokuField::Value(3).is_filled());
    assert!(SudokuField::Empty.is_empty());
    assert_eq!(SudokuField::Value(3).to_char(), '3');
    assert_eq!(SudokuField::Empty.to_char(), ' ');
}

#[test]
fn a_plain_position_walks_off_the_board() {
    let last: Position = (8, 8).into();
    assert!(last.is_valid());
    assert_eq!(Position::from(80), last);

    let beyond = last.increment();
    assert_eq!(beyond, Position { row: 9, column: 0 });
    assert!(!beyond.is_valid());
    assert!(!Position { row: 0, column: 9 }.is_valid());
    assert_eq!(Position { row: 2, column: 8 }.increment(), Position { row: 3, column: 0 });
}

#[test]
fn a_plain_board_keeps_clashing_digits() {
    let mut board = SudokuBoard::try_from(TEST_SUDOKU.to_owned()).unwrap();

    board.put_field(&(0, 0).into(), SudokuField::Value(4));

    assert_eq!(board.get_field(&(0, 0).into()), &SudokuField::Value(4));
    assert_eq!(board.get_field(&(0, 1).into()), &SudokuField::Value(4));
    assert!(board.to_string().starts_with("+-----------+\n|447|"));
}

#[test]
fn next_empty_field_off_the_board_is_none() {
    let board = SudokuBoard::try_from(TEST_SUDOKU.to_owned()).unwrap();

    assert_eq!(board.next_empty_field(&Position { row: 9, column: 0 }), None);
    assert_eq!(board.next_empty_field(&Position { row: 0, column: 9 }), None);
    assert_eq!(board.next_empty_field(&(8, 8).into()), Some((8, 8).into()));
}

#[test]
fn set_position_moves_the_iterator() {
    let board = SudokuBoard::try_from(TEST_SUDOKU.to_owned()).unwrap();
    let mut iterator = board.into_iter();

    let item = iterator.set_position(&(8, 7).into()).next();

    assert_eq!(item, Some(((8, 7).into(), SudokuField::Value(5))));
    assert_eq!(iterator.next(), Some(((8, 8).into(), SudokuField::Empty)));
    assert_eq!(iterator.next(), None);
}

#[test]
fn plain_errors_have_messages() {
    assert_eq!(SudokuError::InvalidLength.to_string(), "Input does not have length 81");
    assert_eq!(
        SudokuError::InvalidCharacterInInput.to_string(),
        "Invalid character in input"
    );
    assert_eq!(SudokuError::Unsolvable.to_string(), "The sudoku is unsolvable");
}
