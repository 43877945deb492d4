//! The sudoku board.

use vstd::prelude::*;
use vstd::std_specs::convert::TryFromSpecImpl;
use vstd::string::StringExecFns;

use crate::backtracking_iter::BacktrackingIter;
use crate::error::{FieldParseError, SudokuParseError, SudokuSolveError};
use crate::field::Field;
use crate::position::Position;
use crate::position_iter::PositionIter;
use crate::rules::{
    cell, first_empty_from, full, lemma_coordinates_index, lemma_first_empty_is,
    lemma_rules_by_cell, obeys_rules, on_board, same_square, used_in_column, used_in_row,
    used_in_square, valid_number, violates_rules, well_formed,
};
use crate::search::{
    at_most, exhausted_after, first_solution_of, first_solved_at, grid_number, initial_state,
    lemma_exhausted_stays, lemma_first_solution_is, lemma_no_first_solution, lemma_search_ends,
    lemma_solved_count_grows, lemma_solved_count_settles, lemma_total_steps, pow10,
    solutions_counted, solved_at, solved_count, state_after, total_steps,
};
use crate::solutions::{
    all_solutions_are_counted, first_solution_decides, has_solution, least_solution, solutions_of,
};
use crate::text::{
    bytes_of_text, cells_of_bytes, indices, invalid_cells, lemma_invalid_cells,
    lemma_violating_cells, lenient, located, marked_as_violations, parse_errors, rendered,
    rendered_cells, rendered_rows, text_bytes, violates_at, violating_cells,
};

verus! {

/// The Sudoku Board
///
/// The board always contains valid fields and cannot violate the sudoku rules,
/// for example it is never possible to have the same digit twice in a square.
#[derive(Clone, Copy, Debug, PartialEq, Eq, Hash)]
pub struct Board([Field; 81]);

/// The cells of an array of fields, in row-major order.
pub open spec fn cells_of(fields: [Field; 81]) -> Seq<Option<u8>> {
    Seq::new(81, |i: int| fields[i]@)
}

impl View for Board {
    type V = Seq<Option<u8>>;

    closed spec fn view(&self) -> Seq<Option<u8>> {
        cells_of(self.0)
    }
}

/// Is a number currently used in a row of the fields?
fn fields_used_in_row(fields: &[Field; 81], position: Position, number: &Field) -> (used: bool)
    ensures
        used == used_in_row(cells_of(*fields), position.spec_row(), number@),
{
    let row = position.row();
    let mut column: usize = 0;
    while column < 9
        invariant
            column <= 9,
            row < 9,
            row == position.spec_row(),
            forall|c: int|
                0 <= c < column ==> #[trigger] cell(cells_of(*fields), row as int, c) != number@,
        decreases 9 - column,
    {
        let field = fields[row * 9 + column];
        proof {
            field.lemma_view_determines(*number);
        }
        if field == *number {
            assert(cell(cells_of(*fields), row as int, column as int) == number@);
            return true;
        }
        column += 1;
    }
    false
}

/// Is a number currently used in a column of the fields?
fn fields_used_in_column(fields: &[Field; 81], position: Position, number: &Field) -> (used: bool)
    ensures
        used == used_in_column(cells_of(*fields), position.spec_column(), number@),
{
    let column = position.column();
    let mut row: usize = 0;
    while row < 9
        invariant
            row <= 9,
            column < 9,
            column == position.spec_column(),
            forall|r: int|
                0 <= r < row ==> #[trigger] cell(cells_of(*fields), r, column as int) != number@,
        decreases 9 - row,
    {
        let field = fields[row * 9 + column];
        proof {
            field.lemma_view_determines(*number);
        }
        if field == *number {
            assert(cell(cells_of(*fields), row as int, column as int) == number@);
            return true;
        }
        row += 1;
    }
    false
}

/// Is a number used in a 3x3 square of the fields?
fn fields_used_in_square(fields: &[Field; 81], position: Position, number: &Field) -> (used: bool)
    ensures
        used == used_in_square(
            cells_of(*fields),
            position.spec_row(),
            position.spec_column(),
            number@,
        ),
{
    let square_row = position.row() / 3;
    let square_column = position.column() / 3;
    let ghost grid = cells_of(*fields);
    let mut row_increase: usize = 0;
    while row_increase < 3
        invariant
            row_increase <= 3,
            square_row == position.spec_row() / 3,
            square_column == position.spec_column() / 3,
            square_row < 3,
            square_column < 3,
            grid == cells_of(*fields),
            forall|r: int, c: int|
                on_board(r, c) && r / 3 == square_row && c / 3 == square_column && r < square_row
                    * 3 + row_increase ==> #[trigger] cell(grid, r, c) != number@,
        decreases 3 - row_increase,
    {
        let row = square_row * 3 + row_increase;
        let mut column_increase: usize = 0;
        while column_increase < 3
            invariant
                column_increase <= 3,
                row_increase < 3,
                row == square_row * 3 + row_increase,
                square_row == position.spec_row() / 3,
                square_column == position.spec_column() / 3,
                square_row < 3,
                square_column < 3,
                grid == cells_of(*fields),
                forall|r: int, c: int|
                    on_board(r, c) && r / 3 == square_row && c / 3 == square_column && r < row
                        ==> #[trigger] cell(grid, r, c) != number@,
                forall|c: int|
                    0 <= c < 9 && c / 3 == square_column && c < square_column * 3 + column_increase
                        ==> #[trigger] cell(grid, row as int, c) != number@,
            decreases 3 - column_increase,
        {
            let column = square_column * 3 + column_increase;
            let field = fields[row * 9 + column];
            proof {
                field.lemma_view_determines(*number);
            }
            if field == *number {
                assert(cell(grid, row as int, column as int) == number@);
                assert(on_board(row as int, column as int));
                assert(same_square(
                    position.spec_row(),
                    position.spec_column(),
                    row as int,
                    column as int,
                ));
                return true;
            }
            column_increase += 1;
        }
        row_increase += 1;
    }
    false
}

/// Is a number valid at a given position of the fields?
fn fields_valid_number(fields: &[Field; 81], position: Position, number: &Field) -> (valid: bool)
    ensures
        valid == valid_number(
            cells_of(*fields),
            position.spec_row(),
            position.spec_column(),
            number@,
        ),
{
    !fields_used_in_row(fields, position, number) && !fields_used_in_column(
        fields,
        position,
        number,
    ) && !fields_used_in_square(fields, position, number)
}

/// What reading a board from 81 optional digits gives. It succeeds exactly if
/// there are 81 of them and nothing is wrong with them; the board then holds
/// them as they are. Otherwise the error tells of a wrong length, or lists
/// everything that is wrong.
pub open spec fn parsed(input: Seq<Option<u8>>, result: Result<Board, SudokuParseError>) -> bool {
    match result {
        Ok(board) => {
            &&& input.len() == 81
            &&& parse_errors(input).len() == 0
            &&& board@ == input
            &&& board.valid()
        },
        Err(SudokuParseError::InvalidLength) => input.len() != 81,
        Err(SudokuParseError::ParseErrors(errors)) => {
            &&& input.len() == 81
            &&& parse_errors(input).len() > 0
            &&& located(errors@) == parse_errors(input)
        },
    }
}

impl Board {
    /// The board has 81 cells with digits 1-9, and obeys the sudoku rules.
    #[verifier::type_invariant]
    pub open spec fn valid(self) -> bool {
        well_formed(self@) && obeys_rules(self@)
    }

    /// A board is what it shows: boards with the same cells are the same board.
    pub proof fn lemma_view_determines(self, other: Board)
        ensures
            (self@ == other@) <==> (self == other),
    {
        if self@ == other@ {
            assert forall|i: int| 0 <= i < 81 implies self.0[i] == other.0[i] by {
                assert(self@[i] == other@[i]);
                self.0[i].lemma_view_determines(other.0[i]);
            }
            assert(self.0 =~= other.0);
        }
    }

    ////////////////
    // Accessors //
    //////////////
    /// Get the `Field` at a given `Position`
    pub fn get_field(&self, position: Position) -> (field: &Field)
        ensures
            field@ == self@[position.index()],
            field@ == cell(self@, position.spec_row(), position.spec_column()),
    {
        &self.0[position.row() * 9 + position.column()]
    }

    /// Put a `Field` on the `Board`. The caller answers for the rules: the
    /// board with the field on it must obey them.
    pub fn put_field(&mut self, position: Position, sudoku_field: Field)
        requires
            obeys_rules(old(self)@.update(position.index(), sudoku_field@)),
        ensures
            final(self)@ == old(self)@.update(position.index(), sudoku_field@),
    {
        proof {
            use_type_invariant(&*self);
            use_type_invariant(&sudoku_field);
        }
        let index = position.row() * 9 + position.column();
        let mut fields = self.0;
        fields[index] = sudoku_field;
        assert(cells_of(fields) =~= old(self)@.update(position.index(), sudoku_field@));
        *self = Board(fields);
    }

    /// Given a `Position`, get the next free `Field`: the first empty one in
    /// row-major order, the position itself included.
    pub fn next_empty_field(&self, position: Position) -> (next: Option<Position>)
        ensures
            match next {
                Some(found) => found.on_board() && found.index() == first_empty_from(
                    self@,
                    position.index(),
                ),
                None => first_empty_from(self@, position.index()) == 81,
            },
            next is None <==> forall|i: int|
                position.index() <= i < 81 ==> (#[trigger] self@[i]) is Some,
    {
        let mut iter = PositionIter::new(position);
        proof {
            use_type_invariant(&position);
        }
        loop
            invariant
                position.on_board(),
                position.index() <= iter.cursor() <= 81,
                forall|i: int|
                    position.index() <= i < iter.cursor() ==> (#[trigger] self@[i]) is Some,
            decreases 81 - iter.cursor(),
        {
            match iter.next() {
                Some(candidate) => {
                    if self.get_field(candidate).is_empty() {
                        proof {
                            lemma_first_empty_is(self@, position.index(), candidate.index());
                        }
                        return Some(candidate);
                    }
                },
                None => {
                    proof {
                        lemma_first_empty_is(self@, position.index(), 81);
                    }
                    return None;
                },
            }
        }
    }

    ////////////////
    // Solutions //
    //////////////
    /// Get the first solution for a `Board`: the first board that the
    /// backtracking search reports as solved. It is the least solution of
    /// the board: it is full, obeys the rules and keeps every digit of the
    /// board, and in row-major order its digits come before those of any
    /// other solution. `Unsolvable` if the board has no solution, and also if
    /// the board is full already: the search then has nothing to do and
    /// produces no board.
    pub fn first_solution(self) -> (result: Result<Board, SudokuSolveError>)
        ensures
            match result {
                Ok(solution) => {
                    &&& first_solution_of(self@) == Some(solution@)
                    &&& !full(self@)
                    &&& least_solution(solution@, self@)
                },
                Err(error) => {
                    &&& first_solution_of(self@) is None
                    &&& full(self@) || !has_solution(self@)
                },
            },
    {
        let mut iter = self.solve_iter();
        let ghost start = initial_state(self@);
        let ghost mut steps: nat = 0;
        proof {
            use_type_invariant(&self);
            first_solution_decides(self@);
        }
        loop
            invariant
                self.valid(),
                start == initial_state(self@),
                iter.wf(),
                state_after(start, steps) == Some(iter@),
                forall|earlier: nat| earlier <= steps ==> !solved_at(start, earlier),
                match first_solution_of(self@) {
                    Some(first) => !full(self@) && least_solution(first, self@),
                    None => full(self@) || !has_solution(self@),
                },
            decreases pow10(81) - grid_number(iter@.grid),
        {
            match iter.next() {
                Some((board, is_solved)) => {
                    proof {
                        steps = steps + 1;
                        assert(state_after(start, steps) == Some(iter@));
                    }
                    if is_solved {
                        proof {
                            assert(first_solved_at(start, steps));
                            lemma_first_solution_is(self@, steps);
                        }
                        return Ok(board);
                    }
                },
                None => {
                    proof {
                        lemma_no_first_solution(self@, steps);
                    }
                    return Err(SudokuSolveError::Unsolvable);
                },
            }
        }
    }

    /// Count solutions for a `Board`
    ///
    /// An almost empty sudoku will have many solutions, and calculating them all will
    /// be an expensive operation. For that reason it is possible to specify a maximum
    /// for both total iterations and total solutions counted.
    ///
    /// For instance, the consumer might not be interested in counting more than 100
    /// solutions.
    pub fn count_solutions(
        self,
        max_solutions: Option<usize>,
        max_iterations: Option<usize>,
    ) -> (count: usize)
        ensures
            count == solutions_counted(self@, max_solutions, max_iterations),
            max_solutions is None && max_iterations is None && !full(self@) ==> count == at_most(
                solutions_of(self@).len(),
                usize::MAX as nat,
            ),
    {
        let mut iter = self.solve_iter();
        let mut iterations: usize = 0;
        let mut solutions: usize = 0;
        let ghost start = initial_state(self@);
        let ghost mut steps: nat = 0;
        proof {
            use_type_invariant(&self);
            lemma_search_ends(start);
            if !full(self@) {
                all_solutions_are_counted(self@);
            }
        }
        loop
            invariant_except_break
                start == initial_state(self@),
                exhausted_after(start, total_steps(start)),
                iter.wf(),
                state_after(start, steps) == Some(iter@),
                max_iterations matches Some(max) ==> iterations == steps && iterations <= max,
                solutions == solved_count(start, steps),
                max_solutions matches Some(max) ==> solutions <= max,
            ensures
                solutions == solutions_counted(self@, max_solutions, max_iterations),
            decreases pow10(81) - grid_number(iter@.grid),
        {
            proof {
                if steps > total_steps(start) {
                    lemma_exhausted_stays(start, total_steps(start) + 1, steps);
                }
                let limit = match max_iterations {
                    Some(max) => max as nat,
                    None => total_steps(start),
                };
                lemma_solved_count_grows(start, steps, limit);
            }
            // Maximum iterations allowed
            if let Some(max) = max_iterations {
                if iterations >= max {
                    break ;
                }
            }
            // Maximum solutions allowed

            match max_solutions {
                Some(max) => {
                    if solutions >= max {
                        break ;
                    }
                },
                None => {
                    if solutions == usize::MAX {
                        break ;
                    }
                },
            }
            match iter.next() {
                Some((_, is_solved)) => {
                    proof {
                        steps = steps + 1;
                        assert(state_after(start, steps) == Some(iter@));
                    }
                    if max_iterations.is_some() {
                        iterations += 1;
                    }
                    if is_solved {
                        solutions += 1;
                    }
                },
                None => {
                    proof {
                        assert(exhausted_after(start, steps));
                        lemma_total_steps(start, steps);
                        if let Some(max) = max_iterations {
                            lemma_solved_count_settles(start, steps, max as nat);
                        }
                    }
                    break ;
                },
            }
        }
        solutions
    }

    /// Iterator emitting `(board: Board, is_solved: Bool)` on the way towards
    /// a solution using the backtracking technique
    pub fn solve_iter(self) -> (iter: BacktrackingIter)
        ensures
            iter.wf(),
            iter@ == initial_state(self@),
    {
        BacktrackingIter::new(self)
    }

    /////////////////
    // Validation //
    ///////////////
    /// Do any digits of the fields violate the sudoku rules? For instance it is not
    /// valid to have the digit 5 twice in a row on the board.
    fn rule_violations(fields: &[Field; 81]) -> (violations: Vec<Position>)
        ensures
            indices(violations@) == violating_cells(cells_of(*fields), 81),
    {
        let mut violations: Vec<Position> = Vec::new();
        let mut iter = PositionIter::from_first_field();
        let ghost grid = cells_of(*fields);
        assert(indices(violations@) =~= violating_cells(grid, 0));
        loop
            invariant
                grid == cells_of(*fields),
                0 <= iter.cursor() <= 81,
                indices(violations@) == violating_cells(grid, iter.cursor()),
            ensures
                indices(violations@) == violating_cells(grid, 81),
            decreases 81 - iter.cursor(),
        {
            let ghost listed = violations@;
            match iter.next() {
                Some(position) => {
                    let index = position.row() * 9 + position.column();
                    let field = fields[index];
                    let mut violates = false;
                    if field.is_filled() {
                        let mut temp_fields = *fields;
                        temp_fields[index] = Field::empty();
                        assert(cells_of(temp_fields) =~= grid.update(index as int, None));
                        violates = !fields_valid_number(&temp_fields, position, &field);
                    }
                    assert(index / 9 == position.spec_row() && index % 9 == position.spec_column());
                    assert(violates == violates_at(grid, index as int));
                    if violates {
                        violations.push(position);
                        assert(indices(violations@) =~= indices(listed).push(index as int));
                    }
                },
                None => {
                    break ;
                },
            }
        }
        violations
    }

    /// Is a number valid at a given position?
    /// Note: This assumes the field is not in the board yet
    pub fn valid_number_at_position(&self, position: Position, number: &Field) -> (valid: bool)
        ensures
            valid == valid_number(self@, position.spec_row(), position.spec_column(), number@),
    {
        fields_valid_number(&self.0, position, number)
    }

    /// Is a number currently used in a row?
    pub fn number_used_in_row(&self, position: Position, number: &Field) -> (used: bool)
        ensures
            used == used_in_row(self@, position.spec_row(), number@),
    {
        fields_used_in_row(&self.0, position, number)
    }

    /// Is a number currently used in a column?
    pub fn number_used_in_column(&self, position: Position, number: &Field) -> (used: bool)
        ensures
            used == used_in_column(self@, position.spec_column(), number@),
    {
        fields_used_in_column(&self.0, position, number)
    }

    /// Is a number used in a 3x3 square?
    pub fn number_used_in_square(&self, position: Position, number: &Field) -> (used: bool)
        ensures
            used == used_in_square(self@, position.spec_row(), position.spec_column(), number@),
    {
        fields_used_in_square(&self.0, position, number)
    }

    /// Get a `String` representation of a `Board`
    pub fn to_string(&self) -> (text: String)
        ensures
            text@ == rendered(self@),
    {
        let mut text = String::from_str("+-----------+\n");

        let mut row: usize = 0;
        while row < 9
            invariant
                row <= 9,
                text@ == rendered_rows(self@, row as int),
            decreases 9 - row,
        {
            let ghost above = text@;
            text.push('|');

            let mut column: usize = 0;
            while column < 9
                invariant
                    row < 9,
                    column <= 9,
                    text@ == above + rendered_cells(self@, row as int, column as int),
                decreases 9 - column,
            {
                let ghost before = rendered_cells(self@, row as int, column as int);
                let shown = self.0[row * 9 + column].to_char();
                text.push(shown);
                assert(text@ =~= above + before.push(shown));

                if (column + 1) % 3 == 0 {
                    text.push('|');
                    assert(text@ =~= above + before.push(shown).push('|'));
                }
                column += 1;
            }

            text.push('\n');
            assert(text@ =~= above + rendered_cells(self@, row as int, 9).push('\n'));

            if (row + 1) % 3 == 0 && row != 8 {
                text.append("+---+---+---+\n");
            }
            row += 1;
        }

        text.append("+-----------+\n");

        text
    }
}

/// Create a `Board` from a `String`
impl TryFrom<String> for Board {
    type Error = SudokuParseError;

    fn try_from(input: String) -> (result: Result<Self, Self::Error>)
        ensures
            parsed(cells_of_bytes(text_bytes(input@)), result),
    {
        Board::try_from(input.as_str())
    }
}

/// `try_from` is held to `parsed` by its own contract. The list inside an
/// error is not fixed by its items alone, so no single value is named here
/// that the result would have to equal.
impl TryFromSpecImpl<String> for Board {
    open spec fn obeys_try_from_spec() -> bool {
        false
    }

    open spec fn try_from_spec(input: String) -> Result<Self, Self::Error> {
        choose|result: Result<Self, Self::Error>| parsed(cells_of_bytes(text_bytes(input@)), result)
    }
}

/// Create a `Board` from a `str`
impl<'a> TryFrom<&'a str> for Board {
    type Error = SudokuParseError;

    fn try_from(input: &'a str) -> (result: Result<Self, Self::Error>)
        ensures
            parsed(cells_of_bytes(text_bytes(input@)), result),
    {
        let input_vector = bytes_of_text(input);

        Board::try_from(input_vector)
    }
}

/// `try_from` is held to `parsed` by its own contract. The list inside an
/// error is not fixed by its items alone, so no single value is named here
/// that the result would have to equal.
impl<'a> TryFromSpecImpl<&'a str> for Board {
    open spec fn obeys_try_from_spec() -> bool {
        false
    }

    open spec fn try_from_spec(input: &'a str) -> Result<Self, Self::Error> {
        choose|result: Result<Self, Self::Error>| parsed(cells_of_bytes(text_bytes(input@)), result)
    }
}

/// Create a `Board` from a vector of bytes
impl TryFrom<Vec<u8>> for Board {
    type Error = SudokuParseError;

    fn try_from(input: Vec<u8>) -> (result: Result<Self, Self::Error>)
        ensures
            parsed(cells_of_bytes(input@), result),
    {
        let mut prepared_vec: Vec<Option<u8>> = Vec::new();
        let mut i: usize = 0;
        while i < input.len()
            invariant
                i <= input.len(),
                prepared_vec@ == cells_of_bytes(input@.take(i as int)),
            decreases input.len() - i,
        {
            let c = input[i];
            let cell = if c == 45 || c == 32 {
                None
            } else if 49 <= c && c <= 57 {
                Some(c - 48)
            } else {
                Some(255)  // Use an invalid field value which will fail in the next step
            };
            prepared_vec.push(cell);
            assert(input@.take(i + 1) =~= input@.take(i as int).push(c));
            assert(prepared_vec@ =~= cells_of_bytes(input@.take(i + 1)));
            i += 1;
        }
        assert(input@.take(input@.len() as int) =~= input@);

        Board::try_from(prepared_vec)
    }
}

/// `try_from` is held to `parsed` by its own contract. The list inside an
/// error is not fixed by its items alone, so no single value is named here
/// that the result would have to equal.
impl TryFromSpecImpl<Vec<u8>> for Board {
    open spec fn obeys_try_from_spec() -> bool {
        false
    }

    open spec fn try_from_spec(input: Vec<u8>) -> Result<Self, Self::Error> {
        choose|result: Result<Self, Self::Error>| parsed(cells_of_bytes(input@), result)
    }
}

/// Create a `Board` from a vector of `Option<u8>` where the u8 is a Some with digit 1-9
/// and empty fields are represented as None
impl TryFrom<Vec<Option<u8>>> for Board {
    type Error = SudokuParseError;

    fn try_from(input: Vec<Option<u8>>) -> (result: Result<Self, Self::Error>)
        ensures
            parsed(input@, result),
    {
        if input.len() != 81 {
            return Err(SudokuParseError::InvalidLength);
        }
        // 1. Build up the fields, treating invalid fields as empty fields,
        //    while listing them as errors.

        let mut lenient_fields = [Field::empty();81];
        let mut all_errors: Vec<(Position, FieldParseError)> = Vec::new();
        assert(located(all_errors@) =~= invalid_cells(input@, 0));

        let mut i: usize = 0;
        while i < 81
            invariant
                i <= 81,
                input@.len() == 81,
                forall|k: int| 0 <= k < i ==> cells_of(lenient_fields)[k] == lenient(input@)[k],
                located(all_errors@) == invalid_cells(input@, i as int),
            decreases 81 - i,
        {
            let position = Position::from_index(i);
            let ghost listed = all_errors@;

            let parsed_field = match input[i] {
                Some(val) => match Field::new(val) {
                    Ok(field) => field,
                    Err(_) => {
                        all_errors.push((position, FieldParseError::InvalidCharacter));
                        assert(located(all_errors@) =~= located(listed).push(
                            (i as int, FieldParseError::InvalidCharacter),
                        ));
                        Field::empty()
                    },
                },
                None => Field::empty(),
            };
            let ghost filled = cells_of(lenient_fields);
            lenient_fields[i] = parsed_field;
            assert(cells_of(lenient_fields) =~= filled.update(i as int, parsed_field@));
            i += 1;
        }
        let ghost grid = cells_of(lenient_fields);
        assert(grid =~= lenient(input@));
        assert(well_formed(grid));

        // 2. Check the leniently read fields for rule violations
        let rule_violations = Board::rule_violations(&lenient_fields);
        let ghost invalid = all_errors@;

        let mut k: usize = 0;
        while k < rule_violations.len()
            invariant
                k <= rule_violations.len(),
                located(all_errors@) == located(invalid) + marked_as_violations(
                    indices(rule_violations@).take(k as int),
                ),
            decreases rule_violations.len() - k,
        {
            let ghost listed = all_errors@;
            let ghost marked = indices(rule_violations@).take(k as int);
            let position = rule_violations[k];
            all_errors.push((position, FieldParseError::SudokuRuleViolation));
            proof {
                let error = (position.index(), FieldParseError::SudokuRuleViolation);
                assert(located(all_errors@) =~= located(listed).push(error));
                assert(indices(rule_violations@).take(k + 1) =~= marked.push(position.index()));
                assert(marked_as_violations(marked.push(position.index()))
                    =~= marked_as_violations(marked).push(error));
                assert(located(listed).push(error) =~= located(invalid) + marked_as_violations(
                    marked,
                ).push(error));
            }
            k += 1;
        }
        assert(indices(rule_violations@).take(rule_violations@.len() as int) =~= indices(
            rule_violations@,
        ));
        assert(located(all_errors@) == parse_errors(input@));

        // If no errors, the board is valid
        if all_errors.len() == 0 {
            proof {
                lemma_invalid_cells(input@, 81);
                lemma_violating_cells(grid, 81);
                assert(grid =~= input@);
                lemma_rules_by_cell(grid);
                assert forall|row: int, column: int|
                    on_board(row, column) implies !#[trigger] violates_rules(grid, row, column) by {
                    lemma_coordinates_index(row, column);
                    assert(!violates_at(grid, row * 9 + column));
                }
            }
            Ok(Board(lenient_fields))
        } else {
            Err(SudokuParseError::ParseErrors(all_errors))
        }
    }
}

/// `try_from` is held to `parsed` by its own contract. The list inside an
/// error is not fixed by its items alone, so no single value is named here
/// that the result would have to equal.
impl TryFromSpecImpl<Vec<Option<u8>>> for Board {
    open spec fn obeys_try_from_spec() -> bool {
        false
    }

    open spec fn try_from_spec(input: Vec<Option<u8>>) -> Result<Self, Self::Error> {
        choose|result: Result<Self, Self::Error>| parsed(input@, result)
    }
}

} // verus!
