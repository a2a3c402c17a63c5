use vstd::prelude::*;

use crate::units::{box_index, box_of, in_grid, is_peer, unit_coord, unit_col, unit_row};

verus! {

/// Why an operation on a board failed.
#[derive(Debug, Clone, Copy, PartialEq, Eq, Structural)]
pub enum SudokuError {
    /// The input did not hold exactly 81 characters; carries the length found.
    InputLength(usize),
    /// A value or character that is not a digit `0..=9`; carries its code.
    InvalidDigit(u32),
    /// A row, column or box index outside `0..9`; carries the offending index.
    OutOfRange(usize),
    /// The cell at `(row, column)` breaks the rule that a unit holds each digit once,
    /// or has no legal digit left.
    Contradiction(usize, usize),
    /// The puzzle is consistent but no completion of it exists.
    Unsolvable,
}

/// One square of the board: empty, or holding a digit.
#[derive(Debug, Clone, Copy, PartialEq, Eq, Structural)]
pub enum Cell {
    Empty,
    Value(u8),
}

impl Cell {
    /// A cell is well formed when a digit it holds lies in `1..=9`.
    pub open spec fn wf(self) -> bool {
        match self {
            Cell::Empty => true,
            Cell::Value(d) => 1 <= d <= 9,
        }
    }

    /// The number a cell stands for in the textual form: 0 for empty, else the digit.
    pub open spec fn digit(self) -> int {
        match self {
            Cell::Empty => 0,
            Cell::Value(d) => d as int,
        }
    }

    /// The cell that the number `v` of `0..=9` stands for.
    pub open spec fn of_digit(v: int) -> Cell {
        if v == 0 {
            Cell::Empty
        } else {
            Cell::Value(v as u8)
        }
    }

    /// Converts `0..=9` into a cell, 0 meaning empty.
    pub fn from_digit(v: u8) -> (r: Result<Cell, SudokuError>)
        ensures
            v <= 9 ==> r == Ok::<Cell, SudokuError>(Cell::of_digit(v as int)),
            v > 9 ==> r == Err::<Cell, SudokuError>(SudokuError::InvalidDigit(v as u32)),
            r matches Ok(c) ==> c.wf(),
    {
        if v == 0 {
            Ok(Cell::Empty)
        } else if v <= 9 {
            Ok(Cell::Value(v))
        } else {
            Err(SudokuError::InvalidDigit(v as u32))
        }
    }
}

impl TryFrom<u8> for Cell {
    type Error = SudokuError;

    fn try_from(value: u8) -> (r: Result<Cell, SudokuError>) {
        Cell::from_digit(value)
    }
}

impl vstd::std_specs::convert::TryFromSpecImpl<u8> for Cell {
    open spec fn obeys_try_from_spec() -> bool {
        true
    }

    open spec fn try_from_spec(v: u8) -> Result<Cell, SudokuError> {
        if v <= 9 {
            Ok(Cell::of_digit(v as int))
        } else {
            Err(SudokuError::InvalidDigit(v as u32))
        }
    }
}

/// A row of the board, from top (`A`) to bottom (`I`).
#[derive(Debug, Clone, Copy, PartialEq, Eq, Structural)]
pub enum Row {
    A,
    B,
    C,
    D,
    E,
    F,
    G,
    H,
    I,
}

/// A column of the board, from left (`One`) to right (`Nine`).
#[derive(Debug, Clone, Copy, PartialEq, Eq, Structural)]
pub enum Column {
    One,
    Two,
    Three,
    Four,
    Five,
    Six,
    Seven,
    Eight,
    Nine,
}

impl Row {
    /// The index of the row, counted from 0 at the top.
    pub open spec fn index(self) -> int {
        match self {
            Row::A => 0,
            Row::B => 1,
            Row::C => 2,
            Row::D => 3,
            Row::E => 4,
            Row::F => 5,
            Row::G => 6,
            Row::H => 7,
            Row::I => 8,
        }
    }

    /// The row whose index is `i`, for `i` in `0..9`.
    pub open spec fn of_index(i: int) -> Row {
        if i == 0 {
            Row::A
        } else if i == 1 {
            Row::B
        } else if i == 2 {
            Row::C
        } else if i == 3 {
            Row::D
        } else if i == 4 {
            Row::E
        } else if i == 5 {
            Row::F
        } else if i == 6 {
            Row::G
        } else if i == 7 {
            Row::H
        } else {
            Row::I
        }
    }
}

impl Column {
    /// The index of the column, counted from 0 at the left.
    pub open spec fn index(self) -> int {
        match self {
            Column::One => 0,
            Column::Two => 1,
            Column::Three => 2,
            Column::Four => 3,
            Column::Five => 4,
            Column::Six => 5,
            Column::Seven => 6,
            Column::Eight => 7,
            Column::Nine => 8,
        }
    }

    /// The column whose index is `i`, for `i` in `0..9`.
    pub open spec fn of_index(i: int) -> Column {
        if i == 0 {
            Column::One
        } else if i == 1 {
            Column::Two
        } else if i == 2 {
            Column::Three
        } else if i == 3 {
            Column::Four
        } else if i == 4 {
            Column::Five
        } else if i == 5 {
            Column::Six
        } else if i == 6 {
            Column::Seven
        } else if i == 7 {
            Column::Eight
        } else {
            Column::Nine
        }
    }
}

impl TryFrom<usize> for Row {
    type Error = SudokuError;

    fn try_from(value: usize) -> (r: Result<Row, SudokuError>) {
        match value {
            0 => Ok(Row::A),
            1 => Ok(Row::B),
            2 => Ok(Row::C),
            3 => Ok(Row::D),
            4 => Ok(Row::E),
            5 => Ok(Row::F),
            6 => Ok(Row::G),
            7 => Ok(Row::H),
            8 => Ok(Row::I),
            _ => Err(SudokuError::OutOfRange(value)),
        }
    }
}

impl vstd::std_specs::convert::TryFromSpecImpl<usize> for Row {
    open spec fn obeys_try_from_spec() -> bool {
        true
    }

    open spec fn try_from_spec(v: usize) -> Result<Row, SudokuError> {
        if v < 9 {
            Ok(Row::of_index(v as int))
        } else {
            Err(SudokuError::OutOfRange(v))
        }
    }
}

impl From<Row> for usize {
    fn from(value: Row) -> (r: usize) {
        match value {
            Row::A => 0,
            Row::B => 1,
            Row::C => 2,
            Row::D => 3,
            Row::E => 4,
            Row::F => 5,
            Row::G => 6,
            Row::H => 7,
            Row::I => 8,
        }
    }
}

impl vstd::std_specs::convert::FromSpecImpl<Row> for usize {
    open spec fn obeys_from_spec() -> bool {
        true
    }

    open spec fn from_spec(v: Row) -> usize {
        v.index() as usize
    }
}

impl TryFrom<usize> for Column {
    type Error = SudokuError;

    fn try_from(value: usize) -> (r: Result<Column, SudokuError>) {
        match value {
            0 => Ok(Column::One),
            1 => Ok(Column::Two),
            2 => Ok(Column::Three),
            3 => Ok(Column::Four),
            4 => Ok(Column::Five),
            5 => Ok(Column::Six),
            6 => Ok(Column::Seven),
            7 => Ok(Column::Eight),
            8 => Ok(Column::Nine),
            _ => Err(SudokuError::OutOfRange(value)),
        }
    }
}

impl vstd::std_specs::convert::TryFromSpecImpl<usize> for Column {
    open spec fn obeys_try_from_spec() -> bool {
        true
    }

    open spec fn try_from_spec(v: usize) -> Result<Column, SudokuError> {
        if v < 9 {
            Ok(Column::of_index(v as int))
        } else {
            Err(SudokuError::OutOfRange(v))
        }
    }
}

impl From<Column> for usize {
    fn from(value: Column) -> (r: usize) {
        match value {
            Column::One => 0,
            Column::Two => 1,
            Column::Three => 2,
            Column::Four => 3,
            Column::Five => 4,
            Column::Six => 5,
            Column::Seven => 6,
            Column::Eight => 7,
            Column::Nine => 8,
        }
    }
}

impl vstd::std_specs::convert::FromSpecImpl<Column> for usize {
    open spec fn obeys_from_spec() -> bool {
        true
    }

    open spec fn from_spec(v: Column) -> usize {
        v.index() as usize
    }
}

/// True when the 9 cells are all filled and pairwise distinct.
pub open spec fn unit_complete(s: Seq<Cell>) -> bool {
    &&& s.len() == 9
    &&& forall|k: int| 0 <= k < 9 ==> s[k] is Value
    &&& forall|i: int, j: int| 0 <= i < 9 && 0 <= j < 9 && i != j ==> s[i] != s[j]
}

/// Whether the 9 cells are all filled and pairwise distinct.
pub fn is_unit_complete(cells: &[Cell; 9]) -> (r: bool)
    ensures
        r == unit_complete(cells@),
{
    let mut seen: [bool; 256] = [false; 256];
    let mut k: usize = 0;
    while k < 9
        invariant
            k <= 9,
            forall|j: int| 0 <= j < k ==> cells@[j] is Value,
            forall|i: int, j: int| 0 <= i < k && 0 <= j < k && i != j ==> cells@[i] != cells@[j],
            forall|d: int|
                0 <= d < 256 ==> (seen@[d] <==> exists|j: int|
                    0 <= j < k && cells@[j] == Cell::Value(d as u8)),
        decreases 9 - k,
    {
        match cells[k] {
            Cell::Empty => {
                return false;
            },
            Cell::Value(d) => {
                if seen[d as usize] {
                    proof {
                        let j = choose|j: int| 0 <= j < k && cells@[j] == Cell::Value(d as u8);
                        assert(cells@[j] == cells@[k as int]);
                    }
                    return false;
                }
                seen[d as usize] = true;
                proof {
                    assert forall|e: int|
                        0 <= e < 256 implies (seen@[e] <==> exists|j: int|
                            0 <= j < k + 1 && cells@[j] == Cell::Value(e as u8)) by {
                        if e == d as int {
                            assert(cells@[k as int] == Cell::Value(e as u8));
                        }
                        if exists|j: int| 0 <= j < k + 1 && cells@[j] == Cell::Value(e as u8) {
                            let j = choose|j: int| 0 <= j < k + 1 && cells@[j] == Cell::Value(e as u8);
                            if j < k {
                                assert(exists|j: int| 0 <= j < k && cells@[j] == Cell::Value(e as u8));
                            }
                        }
                    }
                }
            },
        }
        k = k + 1;
    }
    true
}

/// The 9×9 grid of cells, addressed by row and column.
#[derive(Debug, Clone, Copy, PartialEq, Eq)]
pub struct Board(pub(crate) [[Cell; 9]; 9]);

impl Board {
    /// The cell at row `r`, column `c`.
    pub open(crate) spec fn cell(&self, r: int, c: int) -> Cell {
        self.0[r][c]
    }

    /// Every cell holds a digit of `1..=9` or nothing.
    pub open(crate) spec fn wf(&self) -> bool {
        forall|r: int, c: int| in_grid(r, c) ==> #[trigger] self.cell(r, c).wf()
    }

    /// The cells of unit `u`, in their fixed order.
    pub open(crate) spec fn unit(&self, u: int) -> Seq<Cell> {
        Seq::new(9, |k: int| self.cell(unit_row(u, k), unit_col(u, k)))
    }

    /// All 27 units are complete.
    pub open(crate) spec fn solved(&self) -> bool {
        forall|u: int| 0 <= u < 27 ==> #[trigger] unit_complete(self.unit(u))
    }

    /// No cell is empty.
    pub open(crate) spec fn filled(&self) -> bool {
        forall|r: int, c: int| in_grid(r, c) ==> #[trigger] self.cell(r, c) is Value
    }

    /// No two peers hold the same digit.
    pub open(crate) spec fn consistent(&self) -> bool {
        forall|r1: int, c1: int, r2: int, c2: int|
            in_grid(r1, c1) && in_grid(r2, c2) && is_peer(r1, c1, r2, c2)
                && #[trigger] self.cell(r1, c1) is Value ==> self.cell(r1, c1) != #[trigger] self.cell(
                r2,
                c2,
            )
    }

    /// `self` keeps every digit that `other` holds.
    pub open(crate) spec fn agrees_with(&self, other: &Board) -> bool {
        forall|r: int, c: int|
            in_grid(r, c) && #[trigger] other.cell(r, c) is Value ==> self.cell(r, c) == other.cell(
                r,
                c,
            )
    }

    /// `self` is a finished, valid board that keeps the digits of `puzzle`.
    pub open(crate) spec fn completes(&self, puzzle: &Board) -> bool {
        &&& self.wf()
        &&& self.filled()
        &&& self.consistent()
        &&& self.agrees_with(puzzle)
    }

    /// `self` equals `old` but at `(r, c)`, which holds `x`.
    pub open(crate) spec fn is_update(&self, old: &Board, r: int, c: int, x: Cell) -> bool {
        forall|r2: int, c2: int|
            in_grid(r2, c2) ==> #[trigger] self.cell(r2, c2) == if r2 == r && c2 == c {
                x
            } else {
                old.cell(r2, c2)
            }
    }

    /// An empty board.
    pub fn new() -> (b: Board)
        ensures
            b.wf(),
            forall|r: int, c: int| in_grid(r, c) ==> #[trigger] b.cell(r, c) == Cell::Empty,
    {
        Board([[Cell::Empty; 9]; 9])
    }

    /// The cell at `(row, col)`.
    pub fn get(&self, row: usize, col: usize) -> (r: Result<Cell, SudokuError>)
        ensures
            row < 9 && col < 9 ==> r == Ok::<Cell, SudokuError>(self.cell(row as int, col as int)),
            row >= 9 ==> r == Err::<Cell, SudokuError>(SudokuError::OutOfRange(row)),
            row < 9 && col >= 9 ==> r == Err::<Cell, SudokuError>(SudokuError::OutOfRange(col)),
    {
        if row >= 9 {
            Err(SudokuError::OutOfRange(row))
        } else if col >= 9 {
            Err(SudokuError::OutOfRange(col))
        } else {
            Ok(self.0[row][col])
        }
    }

    /// Writes `x` at `(row, col)`.
    pub(crate) fn put(&mut self, row: usize, col: usize, x: Cell)
        requires
            in_grid(row as int, col as int),
        ensures
            final(self).is_update(old(self), row as int, col as int, x),
    {
        let mut line = self.0[row];
        line[col] = x;
        self.0[row] = line;
    }

    /// Sets `(row, col)` to `digit`, 0 meaning empty.
    pub fn set(&mut self, row: usize, col: usize, digit: u8) -> (r: Result<(), SudokuError>)
        ensures
            row >= 9 ==> r == Err::<(), SudokuError>(SudokuError::OutOfRange(row)),
            row < 9 && col >= 9 ==> r == Err::<(), SudokuError>(SudokuError::OutOfRange(col)),
            row < 9 && col < 9 && digit > 9 ==> r == Err::<(), SudokuError>(
                SudokuError::InvalidDigit(digit as u32),
            ),
            r is Ok <==> row < 9 && col < 9 && digit <= 9,
            r is Ok ==> final(self).is_update(
                old(self),
                row as int,
                col as int,
                Cell::of_digit(digit as int),
            ),
            r is Err ==> *final(self) == *old(self),
            old(self).wf() ==> final(self).wf(),
    {
        if row >= 9 {
            return Err(SudokuError::OutOfRange(row));
        }
        if col >= 9 {
            return Err(SudokuError::OutOfRange(col));
        }
        let x = Cell::from_digit(digit)?;
        self.put(row, col, x);
        Ok(())
    }

    /// Sets the cell at `coordinates` to `number`, 0 meaning empty.
    pub fn set_cell(&mut self, coordinates: (Row, Column), number: u8) -> (r: Result<(), SudokuError>)
        ensures
            number > 9 ==> r == Err::<(), SudokuError>(SudokuError::InvalidDigit(number as u32)),
            r is Ok <==> number <= 9,
            r is Ok ==> final(self).is_update(
                old(self),
                coordinates.0.index(),
                coordinates.1.index(),
                Cell::of_digit(number as int),
            ),
            r is Err ==> *final(self) == *old(self),
            old(self).wf() ==> final(self).wf(),
    {
        let row = usize::from(coordinates.0);
        let col = usize::from(coordinates.1);
        self.set(row, col, number)
    }

    /// The cells of unit `u`.
    fn unit_cells(&self, u: usize) -> (r: [Cell; 9])
        requires
            u < 27,
        ensures
            r@ == self.unit(u as int),
    {
        let mut out: [Cell; 9] = [Cell::Empty; 9];
        let mut k: usize = 0;
        while k < 9
            invariant
                k <= 9,
                u < 27,
                forall|j: int| 0 <= j < k ==> out@[j] == self.unit(u as int)[j],
            decreases 9 - k,
        {
            let (r, c) = unit_coord(u, k);
            out[k] = self.0[r][c];
            k = k + 1;
        }
        assert(out@ =~= self.unit(u as int));
        out
    }

    /// The cells of row `i`, left to right.
    pub fn row(&self, i: usize) -> (r: Result<[Cell; 9], SudokuError>)
        ensures
            i < 9 ==> (r matches Ok(cells) && cells@ == self.unit(i as int)),
            i >= 9 ==> r == Err::<[Cell; 9], SudokuError>(SudokuError::OutOfRange(i)),
    {
        if i >= 9 {
            return Err(SudokuError::OutOfRange(i));
        }
        Ok(self.unit_cells(i))
    }

    /// The cells of column `j`, top to bottom.
    pub fn column(&self, j: usize) -> (r: Result<[Cell; 9], SudokuError>)
        ensures
            j < 9 ==> (r matches Ok(cells) && cells@ == self.unit(9 + j)),
            j >= 9 ==> r == Err::<[Cell; 9], SudokuError>(SudokuError::OutOfRange(j)),
    {
        if j >= 9 {
            return Err(SudokuError::OutOfRange(j));
        }
        Ok(self.unit_cells(9 + j))
    }

    /// The cells of box `k` (row-major from the top left box), read row-major.
    pub fn square(&self, k: usize) -> (r: Result<[Cell; 9], SudokuError>)
        ensures
            k < 9 ==> (r matches Ok(cells) && cells@ == self.unit(18 + k)),
            k >= 9 ==> r == Err::<[Cell; 9], SudokuError>(SudokuError::OutOfRange(k)),
    {
        if k >= 9 {
            return Err(SudokuError::OutOfRange(k));
        }
        Ok(self.unit_cells(18 + k))
    }

    /// The cells of `row`, left to right.
    pub fn get_row(&self, row: Row) -> (r: [Cell; 9])
        ensures
            r@ == self.unit(row.index()),
    {
        self.unit_cells(usize::from(row))
    }

    /// The cells of `column`, top to bottom.
    pub fn get_column(&self, column: Column) -> (r: [Cell; 9])
        ensures
            r@ == self.unit(9 + column.index()),
    {
        self.unit_cells(9 + usize::from(column))
    }

    /// The cells of the box that holds `coordinate`, read row-major.
    pub fn get_square_of(&self, coordinate: (Row, Column)) -> (r: [Cell; 9])
        ensures
            r@ == self.unit(18 + box_index(coordinate.0.index(), coordinate.1.index())),
    {
        let b = box_of(usize::from(coordinate.0), usize::from(coordinate.1));
        self.unit_cells(18 + b)
    }

    /// Whether `row` holds each digit once.
    pub fn is_row_completed(&self, row: Row) -> (r: bool)
        ensures
            r == unit_complete(self.unit(row.index())),
    {
        is_unit_complete(&self.get_row(row))
    }

    /// Whether `col` holds each digit once.
    pub fn is_column_completed(&self, col: Column) -> (r: bool)
        ensures
            r == unit_complete(self.unit(9 + col.index())),
    {
        is_unit_complete(&self.get_column(col))
    }

    /// Whether every unit numbered in `from..to` is complete.
    fn units_completed(&self, from: usize, to: usize) -> (r: bool)
        requires
            from <= to <= 27,
        ensures
            r == forall|u: int| from <= u < to ==> #[trigger] unit_complete(self.unit(u)),
    {
        let mut u: usize = from;
        while u < to
            invariant
                from <= u <= to <= 27,
                forall|v: int| from <= v < u ==> #[trigger] unit_complete(self.unit(v)),
            decreases to - u,
        {
            if !is_unit_complete(&self.unit_cells(u)) {
                return false;
            }
            u = u + 1;
        }
        true
    }

    /// Whether every row holds each digit once.
    pub fn all_rows_completed(&self) -> (r: bool)
        ensures
            r == forall|u: int| 0 <= u < 9 ==> #[trigger] unit_complete(self.unit(u)),
    {
        self.units_completed(0, 9)
    }

    /// Whether every column holds each digit once.
    pub fn all_columns_completed(&self) -> (r: bool)
        ensures
            r == forall|u: int| 9 <= u < 18 ==> #[trigger] unit_complete(self.unit(u)),
    {
        self.units_completed(9, 18)
    }

    /// Whether every box holds each digit once.
    pub fn all_squares_completed(&self) -> (r: bool)
        ensures
            r == forall|u: int| 18 <= u < 27 ==> #[trigger] unit_complete(self.unit(u)),
    {
        self.units_completed(18, 27)
    }

    /// Whether all 27 units are complete.
    pub fn is_solved(&self) -> (r: bool)
        ensures
            r == self.solved(),
    {
        self.units_completed(0, 27)
    }
}

impl Default for Board {
    fn default() -> (b: Board)
        ensures
            b.wf(),
            forall|r: int, c: int| in_grid(r, c) ==> #[trigger] b.cell(r, c) == Cell::Empty,
    {
        Board::new()
    }
}

/// The character that stands for `x` in the 81-character form: `'0'` for empty.
pub open spec fn digit_char(x: Cell) -> char {
    match x {
        Cell::Empty => '0',
        Cell::Value(d) => if d == 1 {
            '1'
        } else if d == 2 {
            '2'
        } else if d == 3 {
            '3'
        } else if d == 4 {
            '4'
        } else if d == 5 {
            '5'
        } else if d == 6 {
            '6'
        } else if d == 7 {
            '7'
        } else if d == 8 {
            '8'
        } else {
            '9'
        },
    }
}

/// The character that shows `x` in the 9-line form: `'_'` for empty.
pub open spec fn glyph(x: Cell) -> char {
    match x {
        Cell::Empty => '_',
        Cell::Value(_) => digit_char(x),
    }
}

/// `'0'` to `'9'`.
pub open spec fn is_digit_char(ch: char) -> bool {
    '0' <= ch <= '9'
}

/// The cell that a digit character stands for, `'0'` meaning empty.
pub open spec fn char_cell(ch: char) -> Cell {
    if ch == '0' {
        Cell::Empty
    } else if ch == '1' {
        Cell::Value(1)
    } else if ch == '2' {
        Cell::Value(2)
    } else if ch == '3' {
        Cell::Value(3)
    } else if ch == '4' {
        Cell::Value(4)
    } else if ch == '5' {
        Cell::Value(5)
    } else if ch == '6' {
        Cell::Value(6)
    } else if ch == '7' {
        Cell::Value(7)
    } else if ch == '8' {
        Cell::Value(8)
    } else {
        Cell::Value(9)
    }
}

/// The cell that the character `ch` stands for, if it is a digit.
fn cell_of_char(ch: char) -> (r: Option<Cell>)
    ensures
        is_digit_char(ch) ==> r == Some(char_cell(ch)),
        !is_digit_char(ch) ==> r is None,
{
    match ch {
        '0' => Some(Cell::Empty),
        '1' => Some(Cell::Value(1)),
        '2' => Some(Cell::Value(2)),
        '3' => Some(Cell::Value(3)),
        '4' => Some(Cell::Value(4)),
        '5' => Some(Cell::Value(5)),
        '6' => Some(Cell::Value(6)),
        '7' => Some(Cell::Value(7)),
        '8' => Some(Cell::Value(8)),
        '9' => Some(Cell::Value(9)),
        _ => None,
    }
}

/// The one-character text of the digit `d`.
fn digit_str(d: u8) -> (s: &'static str)
    requires
        1 <= d <= 9,
    ensures
        s@ == seq![digit_char(Cell::Value(d))],
{
    proof {
        reveal_strlit("1");
        reveal_strlit("2");
        reveal_strlit("3");
        reveal_strlit("4");
        reveal_strlit("5");
        reveal_strlit("6");
        reveal_strlit("7");
        reveal_strlit("8");
        reveal_strlit("9");
    }
    if d == 1 {
        "1"
    } else if d == 2 {
        "2"
    } else if d == 3 {
        "3"
    } else if d == 4 {
        "4"
    } else if d == 5 {
        "5"
    } else if d == 6 {
        "6"
    } else if d == 7 {
        "7"
    } else if d == 8 {
        "8"
    } else {
        "9"
    }
}

/// Two boards with the same cells are the same board.
pub proof fn lemma_board_ext(b1: Board, b2: Board)
    requires
        forall|r: int, c: int| in_grid(r, c) ==> #[trigger] b1.cell(r, c) == b2.cell(r, c),
    ensures
        b1 == b2,
{
    assert forall|r: int| 0 <= r < 9 implies b1.0[r] == b2.0[r] by {
        assert forall|c: int| 0 <= c < 9 implies b1.0[r][c] == b2.0[r][c] by {
            assert(b1.cell(r, c) == b2.cell(r, c));
        }
        assert(b1.0[r] =~= b2.0[r]);
    }
    assert(b1.0 =~= b2.0);
}

/// What reading `s` as a board gives: the length error, then the error of the
/// first character that is not a digit, else the one board that `s` reads as.
pub open(crate) spec fn parse_result(s: Seq<char>) -> Result<Board, SudokuError> {
    if s.len() != 81 {
        Err(SudokuError::InputLength(s.len() as usize))
    } else if exists|i: int| 0 <= i < 81 && !is_digit_char(#[trigger] s[i]) {
        let i = choose|i: int|
            0 <= i < 81 && !is_digit_char(#[trigger] s[i]) && (forall|j: int|
                0 <= j < i ==> is_digit_char(s[j]));
        Err(SudokuError::InvalidDigit(s[i] as u32))
    } else {
        Ok(board_of_text(s))
    }
}

/// Row `r` of the board that the 81-character text `s` stands for.
pub open spec fn text_row(s: Seq<char>, r: int) -> [Cell; 9] {
    [
        char_cell(s[9 * r]),
        char_cell(s[9 * r + 1]),
        char_cell(s[9 * r + 2]),
        char_cell(s[9 * r + 3]),
        char_cell(s[9 * r + 4]),
        char_cell(s[9 * r + 5]),
        char_cell(s[9 * r + 6]),
        char_cell(s[9 * r + 7]),
        char_cell(s[9 * r + 8]),
    ]
}

/// The board that the 81-character text `s` stands for.
pub open(crate) spec fn board_of_text(s: Seq<char>) -> Board {
    Board(
        [
            text_row(s, 0),
            text_row(s, 1),
            text_row(s, 2),
            text_row(s, 3),
            text_row(s, 4),
            text_row(s, 5),
            text_row(s, 6),
            text_row(s, 7),
            text_row(s, 8),
        ],
    )
}

/// Each cell of `board_of_text(s)` is what its character stands for.
pub proof fn lemma_board_of_text(s: Seq<char>)
    ensures
        forall|r: int, c: int|
            in_grid(r, c) ==> #[trigger] board_of_text(s).cell(r, c) == char_cell(s[9 * r + c]),
{
    assert forall|r: int, c: int| in_grid(r, c) implies #[trigger] board_of_text(s).cell(r, c)
        == char_cell(s[9 * r + c]) by {
        let b = board_of_text(s);
        assert(b.0[r] == text_row(s, r));
    }
}

impl Board {
    /// The 81-character form: row-major, one digit per cell, `'0'` for empty.
    pub open(crate) spec fn text(&self) -> Seq<char> {
        Seq::new(81, |i: int| digit_char(self.cell(i / 9, i % 9)))
    }

    /// The 9-line form: each row as 9 glyphs followed by a newline.
    pub open(crate) spec fn lines(&self) -> Seq<char> {
        Seq::new(
            90,
            |i: int|
                if i % 10 == 9 {
                    '\n'
                } else {
                    glyph(self.cell(i / 10, i % 10))
                },
        )
    }

    /// `s` is an 81-character form of exactly this board.
    pub open(crate) spec fn reads_as(&self, s: Seq<char>) -> bool {
        &&& s.len() == 81
        &&& forall|i: int| 0 <= i < 81 ==> is_digit_char(#[trigger] s[i])
        &&& forall|i: int| 0 <= i < 81 ==> self.cell(i / 9, i % 9) == char_cell(#[trigger] s[i])
    }

    /// Reads a board from 81 digit characters, row-major, `'0'` meaning empty.
    pub fn parse(input: &str) -> (r: Result<Board, SudokuError>)
        ensures
            input@.len() != 81 ==> r == Err::<Board, SudokuError>(
                SudokuError::InputLength(input@.len() as usize),
            ),
            input@.len() == 81 && (forall|i: int| 0 <= i < 81 ==> is_digit_char(#[trigger] input@[i]))
                ==> (r matches Ok(b) && b.wf() && b.reads_as(input@)),
            input@.len() == 81 && (exists|i: int| 0 <= i < 81 && !is_digit_char(#[trigger] input@[i]))
                ==> exists|i: int|
                0 <= i < 81 && !is_digit_char(#[trigger] input@[i]) && (forall|j: int|
                    0 <= j < i ==> is_digit_char(input@[j])) && r == Err::<Board, SudokuError>(
                    SudokuError::InvalidDigit(input@[i] as u32),
                ),
            r == parse_result(input@),
    {
        let n = input.unicode_len();
        if n != 81 {
            return Err(SudokuError::InputLength(n));
        }
        let mut b = Board::new();
        let mut i: usize = 0;
        while i < 81
            invariant
                i <= 81,
                input@.len() == 81,
                b.wf(),
                forall|j: int| 0 <= j < i ==> is_digit_char(#[trigger] input@[j]),
                forall|j: int| 0 <= j < i ==> b.cell(j / 9, j % 9) == char_cell(#[trigger] input@[j]),
            decreases 81 - i,
        {
            let ch = input.get_char(i);
            match cell_of_char(ch) {
                Some(x) => {
                    let ghost prev = b;
                    b.put(i / 9, i % 9, x);
                    assert forall|j: int| 0 <= j < i + 1 implies b.cell(j / 9, j % 9) == char_cell(
                        #[trigger] input@[j],
                    ) by {
                        if j < i {
                            assert(prev.cell(j / 9, j % 9) == char_cell(input@[j]));
                        }
                    }
                },
                None => {
                    proof {
                        let k = choose|k: int|
                            0 <= k < 81 && !is_digit_char(#[trigger] input@[k]) && (forall|j: int|
                                0 <= j < k ==> is_digit_char(input@[j]));
                        if k < i {
                            assert(is_digit_char(input@[k]));
                        } else if k > i {
                            assert(is_digit_char(input@[i as int]));
                        }
                    }
                    return Err(SudokuError::InvalidDigit(ch as u32));
                },
            }
            i = i + 1;
        }
        proof {
            let c = board_of_text(input@);
            lemma_board_of_text(input@);
            assert forall|r: int, k: int| in_grid(r, k) implies #[trigger] c.cell(r, k) == b.cell(
                r,
                k,
            ) by {
                let j = 9 * r + k;
                assert(b.cell(j / 9, j % 9) == char_cell(input@[j]));
            }
            lemma_board_ext(c, b);
        }
        Ok(b)
    }

    /// The 81-character form of the board.
    pub fn to_digits(&self) -> (r: String)
        requires
            self.wf(),
        ensures
            r@ == self.text(),
    {
        let mut out = String::new();
        let mut i: usize = 0;
        while i < 81
            invariant
                i <= 81,
                self.wf(),
                out@ == self.text().subrange(0, i as int),
            decreases 81 - i,
        {
            let x = self.0[i / 9][i % 9];
            assert(x == self.cell((i / 9) as int, (i % 9) as int));
            assert(self.text()[i as int] == digit_char(x));
            assert(in_grid((i / 9) as int, (i % 9) as int));
            assert(x.wf());
            let ghost before = out@;
            match x {
                Cell::Empty => {
                    proof {
                        reveal_strlit("0");
                    }
                    assert("0"@ =~= seq!['0']);
                    out.append("0");
                },
                Cell::Value(d) => out.append(digit_str(d)),
            }
            assert(out@ == before + seq![self.text()[i as int]]);
            assert(out@ =~= self.text().subrange(0, i + 1));
            i = i + 1;
        }
        assert(out@ =~= self.text());
        out
    }

    /// The 9-line form of the board: `'_'` for empty, each row ended by a newline.
    pub fn render(&self) -> (r: String)
        requires
            self.wf(),
        ensures
            r@ == self.lines(),
    {
        let mut out = String::new();
        let mut i: usize = 0;
        while i < 90
            invariant
                i <= 90,
                self.wf(),
                out@ == self.lines().subrange(0, i as int),
            decreases 90 - i,
        {
            if i % 10 == 9 {
                assert(self.lines()[i as int] == '\n');
                proof {
                    reveal_strlit("\n");
                }
                assert("\n"@ =~= seq!['\n']);
                out.append("\n");
            } else {
                let x = self.0[i / 10][i % 10];
                assert(x == self.cell((i / 10) as int, (i % 10) as int));
                assert(self.lines()[i as int] == glyph(x));
                assert(in_grid((i / 10) as int, (i % 10) as int));
                assert(x.wf());
                match x {
                    Cell::Empty => {
                        proof {
                            reveal_strlit("_");
                        }
                        assert("_"@ =~= seq!['_']);
                        out.append("_");
                    },
                    Cell::Value(d) => out.append(digit_str(d)),
                }
            }
            assert(out@ =~= self.lines().subrange(0, i + 1));
            i = i + 1;
        }
        assert(out@ =~= self.lines());
        out
    }
}

/// Writing a well-formed board as 81 digits and reading that text back gives
/// the same board.
pub proof fn lemma_digits_round_trip(b: Board)
    requires
        b.wf(),
    ensures
        b.reads_as(b.text()),
        parse_result(b.text()) == Ok::<Board, SudokuError>(b),
{
    let s = b.text();
    assert forall|i: int| 0 <= i < 81 implies is_digit_char(#[trigger] s[i]) && b.cell(i / 9, i % 9)
        == char_cell(s[i]) by {
        assert(in_grid(i / 9, i % 9));
        assert(b.cell(i / 9, i % 9).wf());
    }
    lemma_board_of_text(s);
    assert forall|r: int, c: int| in_grid(r, c) implies #[trigger] board_of_text(s).cell(r, c)
        == b.cell(r, c) by {
        let i = 9 * r + c;
        assert(b.cell(i / 9, i % 9) == char_cell(s[i]));
    }
    lemma_board_ext(board_of_text(s), b);
}

/// Reading a valid 81-digit text gives a board whose 81-digit form is that
/// text, so reading it again gives the same board.
pub proof fn lemma_parse_round_trip(s: Seq<char>)
    requires
        s.len() == 81,
        forall|i: int| 0 <= i < 81 ==> is_digit_char(#[trigger] s[i]),
    ensures
        parse_result(s) is Ok,
        parse_result(s)->Ok_0.text() == s,
        parse_result(parse_result(s)->Ok_0.text()) == parse_result(s),
{
    let b = board_of_text(s);
    lemma_board_of_text(s);
    assert forall|r: int, c: int| in_grid(r, c) implies #[trigger] b.cell(r, c).wf() by {
        assert(b.cell(r, c) == char_cell(s[9 * r + c]));
    }
    assert forall|i: int| 0 <= i < 81 implies #[trigger] b.text()[i] == s[i] by {
        assert(b.cell(i / 9, i % 9) == char_cell(s[9 * (i / 9) + i % 9]));
    }
    assert(b.text() =~= s);
    lemma_digits_round_trip(b);
}

/// The cells of a unit lie on the board, and two different places of a unit
/// are peers.
pub proof fn lemma_unit_peers(u: int, i: int, j: int)
    requires
        0 <= u < 27,
        0 <= i < 9,
        0 <= j < 9,
    ensures
        in_grid(unit_row(u, i), unit_col(u, i)),
        i != j ==> is_peer(unit_row(u, i), unit_col(u, i), unit_row(u, j), unit_col(u, j)),
{
}

/// A filled board in which no two peers hold the same digit is solved.
pub proof fn lemma_filled_consistent_solved(b: Board)
    requires
        b.wf(),
        b.filled(),
        b.consistent(),
    ensures
        b.solved(),
{
    assert forall|u: int| 0 <= u < 27 implies #[trigger] unit_complete(b.unit(u)) by {
        assert forall|k: int| 0 <= k < 9 implies b.unit(u)[k] is Value by {
            lemma_unit_peers(u, k, k);
            assert(b.cell(unit_row(u, k), unit_col(u, k)) is Value);
        }
        assert forall|i: int, j: int| 0 <= i < 9 && 0 <= j < 9 && i != j implies b.unit(u)[i] != b.unit(
            u,
        )[j] by {
            lemma_unit_peers(u, i, j);
            lemma_unit_peers(u, j, i);
            assert(b.cell(unit_row(u, i), unit_col(u, i)) is Value);
        }
    }
}

impl<'a> TryFrom<&'a str> for Board {
    type Error = SudokuError;

    fn try_from(value: &'a str) -> (r: Result<Board, SudokuError>) {
        Board::parse(value)
    }
}

impl<'a> vstd::std_specs::convert::TryFromSpecImpl<&'a str> for Board {
    open spec fn obeys_try_from_spec() -> bool {
        true
    }

    open spec fn try_from_spec(v: &'a str) -> Result<Board, SudokuError> {
        parse_result(v@)
    }
}

} // verus!
