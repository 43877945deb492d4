use std::collections::HashSet;

use fabrik::{Board, Field, FieldParseError, Position, SudokuParseError, SudokuSolveError};

fn position(row: usize, column: usize) -> Position {
    Position::from_index(row * 9 + column)
}

// The "sudokus/starry.txt" board
const STARRY: &str = "6-------4
                      -42-3-51-
                      -85---32-
                      ---3-5---
                      53--4--68
                      ---6-2---
                      -26-5-89-
                      -97---45-
                      1-------2";

// The board is "sudokus/starry.txt", but the center 4 is removed
const STARRY_MULTIPLE_SOLUTIONS: &str = "6-------4
                                         -42-3-51-
                                         -85---32-
                                         ---3-5---
                                         53-----68
                                         ---6-2---
                                         -26-5-89-
                                         -97---45-
                                         1-------2";

// The "sudokus/oneeighty.txt" board
const ONEEIGHTY: &str = "-349---28
                         2-------6
                         ---271---
                         -----2-6-
                         45-----39
                         -6-4-----
                         ---614---
                         3-------1
                         98---364-";

#[test]
fn gets_a_field() {
    let board = Board::try_from(
        "1--------
         -2-------
         --3------
         ---4-----
         ----5----
         -----6---
         ------7--
         -------8-
         --------9
    ",
    )
    .unwrap();

    assert_eq!(board.get_field(position(0, 0)), &Field::from_u8(1));

    assert_eq!(board.get_field(position(8, 8)), &Field::from_u8(9));

    assert_eq!(board.get_field(position(8, 7)), &Field::empty());
}

#[test]
fn puts_a_field() {
    let mut board = Board::try_from(vec![None; 81]).unwrap();

    assert_eq!(board.get_field(position(1, 3)), &Field::empty());

    board.put_field(position(1, 3), Field::from_u8(2));

    assert_eq!(board.get_field(position(1, 3)), &Field::from_u8(2));
}

#[test]
fn returns_next_empty_field() {
    // The board is "sudokus/starry.txt" solved except for one field
    let mut board = Board::try_from(
        "613529784
         742836519
         985174326
         269385147
         53194-268
         874612935
         426751893
         397268451
         158493672",
    )
    .unwrap();

    assert_eq!(board.next_empty_field(position(0, 4)), Some(position(4, 5)));

    board.put_field(position(4, 5), Field::from_u8(7));

    assert!(board.next_empty_field(position(0, 4)).is_none());
}

#[test]
fn finds_first_solution_on_board() {
    let board = Board::try_from(STARRY).unwrap();

    let solution_count = board.count_solutions(None, None);
    assert_eq!(solution_count, 1);

    let solved_board = board.first_solution().expect("Could not solve test board");

    let solution = Board::try_from(
        "613529784
         742836519
         985174326
         269385147
         531947268
         874612935
         426751893
         397268451
         158493672",
    )
    .unwrap();

    assert_eq!(solved_board, solution);
}

#[test]
fn getting_first_solution_fails_on_unsolveable_board() {
    // The board is "sudokus/starry.txt", but with an added 7 in the center
    let board = Board::try_from(
        "6-------4
         -42-3-51-
         -85---32-
         ---3-5---
         53--4--68
         ---672---
         -26-5-89-
         -97---45-
         1-------2",
    )
    .unwrap();

    let solution_count = board.count_solutions(None, None);
    assert_eq!(solution_count, 0);

    let result = board.first_solution();

    assert!(result.is_err());
    assert_eq!(result.err().unwrap(), SudokuSolveError::Unsolvable);
}

#[test]
fn count_solutions_returns_a_single_solution() {
    // The board is "sudokus/turbine.txt"
    let board = Board::try_from(
        "-1-79----
         -3-5---91
         --91--5--
         ------182
         1---2---4
         248------
         --6--92--
         32---4-7-
         ----31-6-",
    )
    .unwrap();

    assert_eq!(board.count_solutions(None, None), 1);
}

#[test]
fn count_solutions_returns_multiple_solutions() {
    let board = Board::try_from(STARRY_MULTIPLE_SOLUTIONS).unwrap();
    assert_eq!(board.count_solutions(None, None), 21);
}

#[test]
fn count_solutions_respects_max_solutions() {
    let board = Board::try_from(STARRY_MULTIPLE_SOLUTIONS).unwrap();
    assert_eq!(board.count_solutions(Some(10), None), 10);
}

#[test]
fn count_solutions_respects_max_iterations() {
    let board = Board::try_from(STARRY_MULTIPLE_SOLUTIONS).unwrap();
    assert_eq!(board.count_solutions(None, Some(10_000)), 13);
}

#[test]
fn count_solutions_respects_both_max_iterations_and_max_solutions() {
    let board = Board::try_from(STARRY_MULTIPLE_SOLUTIONS).unwrap();

    // 10_000 iterations will yield 13 solutions, however we set max 10
    assert_eq!(board.count_solutions(Some(10), Some(10_000)), 10);

    // 10_000 iterations will yield 13 solutions, however we set max 20
    assert_eq!(board.count_solutions(Some(15), Some(10_000)), 13);
}

#[test]
fn board_number_used_in_row() {
    let board = Board::try_from(STARRY).unwrap();

    assert!(board.number_used_in_row(position(0, 0), &Field::from_u8(4)));
    assert!(!board.number_used_in_row(position(0, 0), &Field::from_u8(5)));
    assert!(board.number_used_in_row(position(6, 0), &Field::from_u8(5)));
    assert!(!board.number_used_in_row(position(6, 0), &Field::from_u8(3)));
}

#[test]
fn board_number_used_in_column() {
    let board = Board::try_from(STARRY).unwrap();

    assert!(board.number_used_in_column(position(0, 2), &Field::from_u8(7)));
    assert!(!board.number_used_in_column(position(0, 2), &Field::from_u8(3)));
    assert!(board.number_used_in_column(position(0, 8), &Field::from_u8(4)));
    assert!(!board.number_used_in_column(position(0, 8), &Field::from_u8(9)));
}

#[test]
fn board_number_used_in_square() {
    let board = Board::try_from(STARRY).unwrap();

    assert!(board.number_used_in_square(position(0, 0), &Field::from_u8(6)));
    assert!(!board.number_used_in_square(position(0, 0), &Field::from_u8(1)));
    assert!(board.number_used_in_square(position(1, 8), &Field::from_u8(1)));
    assert!(!board.number_used_in_square(position(1, 8), &Field::from_u8(6)));
}

#[test]
fn valid_number_at_position() {
    let board = Board::try_from(STARRY).unwrap();

    assert!(!board.valid_number_at_position(position(0, 2), &Field::from_u8(8)));
    assert!(!board.valid_number_at_position(position(0, 2), &Field::from_u8(7)));
    assert!(!board.valid_number_at_position(position(0, 2), &Field::from_u8(4)));
    assert!(board.valid_number_at_position(position(0, 2), &Field::from_u8(1)));
    assert!(board.valid_number_at_position(position(0, 2), &Field::from_u8(3)));
    assert!(board.valid_number_at_position(position(0, 2), &Field::from_u8(9)));
}

#[test]
fn board_fails_to_read_a_board_from_string_with_wrong_length() {
    let file_plus_one = format!("{ONEEIGHTY}1");
    let board = Board::try_from(file_plus_one);

    assert!(board.is_err());
    assert_eq!(board.err().unwrap(), SudokuParseError::InvalidLength);
}

#[test]
fn returns_rule_violations_and_invalid_chars() {
    // The "sudokus/oneeighty.txt" board modified
    const TEST_SUDOKU: &str = "-349--328
                               2-------6
                               3--271---
                               -----2-6-
                               45-----39
                               -6-4-----
                               ---614--f
                               -3------1
                               98---364-";

    let board = Board::try_from(TEST_SUDOKU);

    assert!(board.is_err());

    let expected_violations = {
        let mut violations = HashSet::new();
        violations.insert((position(0, 6), FieldParseError::SudokuRuleViolation));
        violations.insert((position(0, 1), FieldParseError::SudokuRuleViolation));
        violations.insert((position(2, 0), FieldParseError::SudokuRuleViolation));
        violations.insert((position(7, 1), FieldParseError::SudokuRuleViolation));
        violations.insert((position(6, 8), FieldParseError::InvalidCharacter));

        violations
    };

    match board.err().unwrap() {
        SudokuParseError::ParseErrors(errors) => {
            assert_eq!(errors.len(), expected_violations.len());
            assert_eq!(
                errors.into_iter().collect::<HashSet<(Position, FieldParseError)>>(),
                expected_violations
            );
        }
        SudokuParseError::InvalidLength => panic!("the length is valid"),
    }
}

#[test]
fn from_vec_full_cycle() {
    let board = Board::try_from(vec![
        None,
        Some(3),
        Some(4),
        Some(9),
        None,
        None,
        None,
        Some(2),
        Some(8),
        Some(2),
        None,
        None,
        None,
        None,
        None,
        None,
        None,
        Some(6),
        None,
        None,
        None,
        Some(2),
        Some(7),
        Some(1),
        None,
        None,
        None,
        None,
        None,
        None,
        None,
        None,
        Some(2),
        None,
        Some(6),
        None,
        Some(4),
        Some(5),
        None,
        None,
        None,
        None,
        None,
        Some(3),
        Some(9),
        None,
        Some(6),
        None,
        Some(4),
        None,
        None,
        None,
        None,
        None,
        None,
        None,
        None,
        Some(6),
        Some(1),
        Some(4),
        None,
        None,
        None,
        Some(3),
        None,
        None,
        None,
        None,
        None,
        None,
        None,
        Some(1),
        Some(9),
        Some(8),
        None,
        None,
        None,
        Some(3),
        Some(6),
        Some(4),
        None,
    ])
    .unwrap();

    let expected_board = "+-----------+
| 34|9  | 28|
|2  |   |  6|
|   |271|   |
+---+---+---+
|   |  2| 6 |
|45 |   | 39|
| 6 |4  |   |
+---+---+---+
|   |614|   |
|3  |   |  1|
|98 |  3|64 |
+-----------+
";

    assert_eq!(board.to_string(), expected_board);
}

#[test]
fn to_string_full_cycle() {
    let board = Board::try_from(ONEEIGHTY).unwrap();

    let expected_board = "+-----------+
| 34|9  | 28|
|2  |   |  6|
|   |271|   |
+---+---+---+
|   |  2| 6 |
|45 |   | 39|
| 6 |4  |   |
+---+---+---+
|   |614|   |
|3  |   |  1|
|98 |  3|64 |
+-----------+
";

    assert_eq!(board.to_string(), expected_board);
}
