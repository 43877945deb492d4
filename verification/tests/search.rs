use std::cell::Cell;

use fabrik::renderers::{NoopRenderer, SudokuRenderer};
use fabrik::{solve_board, Board, Field, Position, SudokuSolveError};

const ONEEIGHTY: &str = "-349---28
                         2-------6
                         ---271---
                         -----2-6-
                         45-----39
                         -6-4-----
                         ---614---
                         3-------1
                         98---364-";

const ONEEIGHTY_SOLVED: &str = "+-----------+
|134|956|728|
|275|348|196|
|698|271|354|
+---+---+---+
|819|532|467|
|452|167|839|
|763|489|512|
+---+---+---+
|527|614|983|
|346|895|271|
|981|723|645|
+-----------+
";

const TWO_SOLUTIONS: &str = "-349---28
                             2-------6
                             ---271---
                             -----2-6-
                             45-----39
                             -6-4-----
                             ---614---
                             3-------1
                             98---36--";

const STARRY_SOLVED: &str = "613529784
                             742836519
                             985174326
                             269385147
                             531947268
                             874612935
                             426751893
                             397268451
                             158493672";

fn digits(board: &Board) -> Vec<Option<u8>> {
    (0..81)
        .map(|index| board.get_field(Position::from_index(index)).value())
        .collect()
}

fn obeys_rules(board: &Board) -> bool {
    let cells = digits(board);
    for first in 0..81 {
        for second in 0..81 {
            let same_row = first / 9 == second / 9;
            let same_column = first % 9 == second % 9;
            let same_square =
                first / 27 == second / 27 && (first % 9) / 3 == (second % 9) / 3;
            if first != second
                && (same_row || same_column || same_square)
                && cells[first].is_some()
                && cells[first] == cells[second]
            {
                return false;
            }
        }
    }
    true
}

fn all_steps(board: Board) -> Vec<(Board, bool)> {
    let mut iter = board.solve_iter();
    let mut steps = Vec::new();
    while let Some(step) = iter.next() {
        steps.push(step);
    }
    steps
}

#[test]
fn parses_and_solves_the_oneeighty_board() {
    let board = Board::try_from(ONEEIGHTY).expect("Could not parse board");
    let solution = board.first_solution().expect("Board could not be solved");

    assert_eq!(solution.to_string(), ONEEIGHTY_SOLVED);
}

#[test]
fn first_solution_keeps_the_digits_of_the_board() {
    let board = Board::try_from(ONEEIGHTY).unwrap();
    let solution = board.first_solution().unwrap();

    let before = digits(&board);
    let after = digits(&solution);
    for index in 0..81 {
        assert!(after[index].is_some());
        if before[index].is_some() {
            assert_eq!(before[index], after[index]);
        }
    }
    assert!(obeys_rules(&solution));
}

#[test]
fn first_solution_comes_after_228_other_boards() {
    let board = Board::try_from(ONEEIGHTY).unwrap();

    let step_count = all_steps(board)
        .iter()
        .position(|(_, is_solved)| *is_solved);

    assert_eq!(step_count, Some(228));
}

#[test]
fn the_search_does_not_stop_at_the_first_solution() {
    let board = Board::try_from(TWO_SOLUTIONS).unwrap();

    let solutions: Vec<String> = all_steps(board)
        .iter()
        .filter(|(_, is_solved)| *is_solved)
        .map(|(board, _)| board.to_string())
        .collect();

    assert_eq!(
        solutions,
        vec![
            "+-----------+
|134|956|728|
|275|348|196|
|698|271|345|
+---+---+---+
|819|532|467|
|452|167|839|
|763|489|512|
+---+---+---+
|527|614|983|
|346|895|271|
|981|723|654|
+-----------+
",
            ONEEIGHTY_SOLVED,
        ]
    );
}

#[test]
fn solutions_come_in_rising_order() {
    let board = Board::try_from(TWO_SOLUTIONS).unwrap();

    let solutions: Vec<Vec<Option<u8>>> = all_steps(board)
        .iter()
        .filter(|(_, is_solved)| *is_solved)
        .map(|(board, _)| digits(board))
        .collect();

    assert_eq!(solutions.len(), 2);
    assert!(solutions[0] < solutions[1]);
    assert_eq!(digits(&board.first_solution().unwrap()), solutions[0]);
}

#[test]
fn every_board_of_the_search_obeys_the_rules() {
    let board = Board::try_from(ONEEIGHTY).unwrap();
    let steps = all_steps(board);

    assert_eq!(steps.len(), 3614);
    for (snapshot, is_solved) in &steps {
        assert!(obeys_rules(snapshot));
        let is_full = digits(snapshot).iter().all(|cell| cell.is_some());
        assert_eq!(*is_solved, is_full);
    }
}

#[test]
fn the_search_is_the_same_every_time() {
    let board = Board::try_from(ONEEIGHTY).unwrap();

    assert_eq!(board.first_solution(), board.first_solution());
    assert_eq!(all_steps(board), all_steps(board));
    assert_eq!(
        all_steps(board),
        all_steps(Board::try_from(digits(&board)).unwrap())
    );
}

#[test]
fn snapshots_do_not_change_with_the_search() {
    let board = Board::try_from(ONEEIGHTY).unwrap();
    let mut iter = board.solve_iter();

    let (first, _) = iter.next().unwrap();
    let first_cells = digits(&first);
    assert_eq!(first_cells[0], Some(1));
    for _ in 0..100 {
        iter.next();
    }

    assert_eq!(digits(&first), first_cells);
    assert_eq!(digits(&board)[0], None);
}

#[test]
fn the_first_step_puts_the_least_valid_digit_in_the_first_empty_cell() {
    let board = Board::try_from(ONEEIGHTY).unwrap();
    let mut iter = board.solve_iter();

    let (first, is_solved) = iter.next().unwrap();
    assert!(!is_solved);
    let mut expected = digits(&board);
    expected[0] = Some(1);
    assert_eq!(digits(&first), expected);

    // 1 is taken by the first cell, 5 is the next digit that row, column and square allow
    let (second, _) = iter.next().unwrap();
    expected[4] = Some(5);
    assert_eq!(digits(&second), expected);
}

#[test]
fn a_full_board_yields_no_board() {
    let board = Board::try_from(STARRY_SOLVED).unwrap();

    assert!(board.solve_iter().next().is_none());
    assert_eq!(board.first_solution(), Err(SudokuSolveError::Unsolvable));
    assert_eq!(board.count_solutions(None, None), 0);
}

#[test]
fn a_board_with_one_empty_cell_is_solved_in_one_step() {
    let mut cells = digits(&Board::try_from(STARRY_SOLVED).unwrap());
    cells[80] = None;
    let board = Board::try_from(cells).unwrap();

    let steps = all_steps(board);
    assert_eq!(steps.len(), 1);
    assert!(steps[0].1);
    assert_eq!(steps[0].0, Board::try_from(STARRY_SOLVED).unwrap());
}

#[test]
fn an_exhausted_search_starts_over() {
    let mut cells = digits(&Board::try_from(STARRY_SOLVED).unwrap());
    cells[40] = None;
    let board = Board::try_from(cells).unwrap();
    let mut iter = board.solve_iter();

    let first = iter.next();
    assert!(first.is_some());
    assert!(iter.next().is_none());
    assert_eq!(iter.next(), first);
}

#[test]
fn count_solutions_without_iterations_counts_nothing() {
    let empty = Board::try_from(vec![None; 81]).unwrap();
    assert_eq!(empty.count_solutions(None, Some(0)), 0);
    assert_eq!(empty.count_solutions(Some(5), Some(0)), 0);

    let board = Board::try_from(ONEEIGHTY).unwrap();
    assert_eq!(board.count_solutions(None, Some(0)), 0);
}

#[test]
fn count_solutions_of_the_empty_board_stops_at_the_cap() {
    let empty = Board::try_from(vec![None; 81]).unwrap();

    assert_eq!(empty.count_solutions(Some(0), None), 0);
    assert_eq!(empty.count_solutions(Some(1), None), 1);
    assert_eq!(empty.count_solutions(Some(3), None), 3);
    assert_eq!(empty.count_solutions(Some(25), None), 25);
}

#[test]
fn count_solutions_counts_the_solved_boards_of_the_steps_allowed() {
    let board = Board::try_from(ONEEIGHTY).unwrap();

    // The first solution is the board of step 229
    assert_eq!(board.count_solutions(None, Some(228)), 0);
    assert_eq!(board.count_solutions(None, Some(229)), 1);
    assert_eq!(board.count_solutions(Some(1), Some(229)), 1);
    assert_eq!(board.count_solutions(Some(0), Some(229)), 0);
}

#[test]
fn count_solutions_of_a_board_with_one_solution_is_one_with_any_generous_cap() {
    let board = Board::try_from(ONEEIGHTY).unwrap();

    assert_eq!(board.count_solutions(None, None), 1);
    assert_eq!(board.count_solutions(Some(1), None), 1);
    assert_eq!(board.count_solutions(Some(1_000), None), 1);
    assert_eq!(board.count_solutions(None, Some(3614)), 1);
    assert_eq!(board.count_solutions(None, Some(1_000_000)), 1);
    assert_eq!(board.count_solutions(Some(usize::MAX), Some(usize::MAX)), 1);
}

#[test]
fn put_field_keeps_the_rest_of_the_board() {
    let mut board = Board::try_from(ONEEIGHTY).unwrap();
    let before = digits(&board);

    board.put_field(Position::from_index(0), Field::from_u8(1));

    let after = digits(&board);
    assert_eq!(after[0], Some(1));
    assert_eq!(before[1..], after[1..]);

    board.put_field(Position::from_index(0), Field::empty());
    assert_eq!(digits(&board), before);
}

struct CountingRenderer {
    steps: Cell<usize>,
    results: Cell<usize>,
    solved: Cell<bool>,
}

impl SudokuRenderer for CountingRenderer {
    fn setup(&self, _filename: &str) {}

    fn display_step(&self, _board: &Board) {
        self.steps.set(self.steps.get() + 1);
    }

    fn display_final_result(&self, board: Option<&Board>) {
        self.results.set(self.results.get() + 1);
        self.solved.set(board.is_some());
    }

    fn teardown(&self) {}
}

#[test]
fn solve_board_shows_every_step_and_the_result_once() {
    let renderer = CountingRenderer {
        steps: Cell::new(0),
        results: Cell::new(0),
        solved: Cell::new(false),
    };
    let board = Board::try_from(ONEEIGHTY).unwrap();

    let solution = solve_board(board, &renderer);

    assert_eq!(solution, board.first_solution());
    assert_eq!(renderer.steps.get(), 229);
    assert_eq!(renderer.results.get(), 1);
    assert!(renderer.solved.get());
}

#[test]
fn solve_board_tells_the_renderer_of_a_failure() {
    let renderer = CountingRenderer {
        steps: Cell::new(0),
        results: Cell::new(0),
        solved: Cell::new(true),
    };
    // The "sudokus/starry.txt" board with an added 7 in the center
    let board = Board::try_from(
        "6-------4
         -42-3-51-
         -85---32-
         ---3-5---
         53--4--68
         ---672---
         -26-5-89-
         -97---45-
         1-------2",
    )
    .unwrap();

    let solution = solve_board(board, &renderer);

    assert_eq!(solution, Err(SudokuSolveError::Unsolvable));
    assert_eq!(renderer.results.get(), 1);
    assert!(!renderer.solved.get());
    assert_eq!(renderer.steps.get(), all_steps(board).len());
}

#[test]
fn solve_board_with_the_noop_renderer() {
    let renderer = NoopRenderer {};
    renderer.setup("oneeighty");
    let board = Board::try_from(ONEEIGHTY).unwrap();

    let solution = solve_board(board, &renderer).unwrap();
    renderer.teardown();

    assert_eq!(solution.to_string(), ONEEIGHTY_SOLVED);
}
