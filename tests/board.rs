use sudoku::board::{is_unit_complete, Board, Cell, Column, Row, SudokuError};

const SOLVED: &str =
    "123456789578139624496872153952381467641297835387564291719623548864915372235748916";

#[test]
fn row_completed() {
    let mut sudoku = Board::new();
    sudoku.set_cell((Row::A, Column::One), 1).unwrap();
    sudoku.set_cell((Row::A, Column::Two), 2).unwrap();
    sudoku.set_cell((Row::A, Column::Three), 3).unwrap();
    sudoku.set_cell((Row::A, Column::Four), 4).unwrap();
    sudoku.set_cell((Row::A, Column::Five), 5).unwrap();
    sudoku.set_cell((Row::A, Column::Six), 6).unwrap();
    sudoku.set_cell((Row::A, Column::Seven), 7).unwrap();
    sudoku.set_cell((Row::A, Column::Eight), 8).unwrap();
    sudoku.set_cell((Row::A, Column::Nine), 9).unwrap();
    assert!(sudoku.is_row_completed(Row::A))
}

#[test]
fn row_contains_empty_cell() {
    let mut sudoku = Board::new();
    sudoku.set_cell((Row::A, Column::One), 1).unwrap();

    assert!(!sudoku.is_row_completed(Row::A))
}

#[test]
fn row_contains_duplicates() {
    let mut sudoku = Board::new();
    sudoku.set_cell((Row::A, Column::One), 1).unwrap();
    sudoku.set_cell((Row::A, Column::Two), 1).unwrap();

    assert!(!sudoku.is_row_completed(Row::A))
}

#[test]
fn column_completed() {
    let mut sudoku = Board::new();
    sudoku.set_cell((Row::A, Column::One), 1).unwrap();
    sudoku.set_cell((Row::B, Column::One), 2).unwrap();
    sudoku.set_cell((Row::C, Column::One), 3).unwrap();
    sudoku.set_cell((Row::D, Column::One), 4).unwrap();
    sudoku.set_cell((Row::E, Column::One), 5).unwrap();
    sudoku.set_cell((Row::F, Column::One), 6).unwrap();
    sudoku.set_cell((Row::G, Column::One), 7).unwrap();
    sudoku.set_cell((Row::H, Column::One), 8).unwrap();
    sudoku.set_cell((Row::I, Column::One), 9).unwrap();
    assert!(sudoku.is_column_completed(Column::One))
}

#[test]
fn column_contains_empty_cell() {
    let mut sudoku = Board::new();
    sudoku.set_cell((Row::B, Column::Two), 1).unwrap();

    assert!(!sudoku.is_column_completed(Column::Two))
}

#[test]
fn column_contains_duplicates() {
    let mut sudoku = Board::new();
    sudoku.set_cell((Row::A, Column::Two), 1).unwrap();
    sudoku.set_cell((Row::B, Column::Two), 1).unwrap();

    assert!(!sudoku.is_column_completed(Column::Two))
}

#[test]
fn all_rows_and_columns_completed() {
    let input =
        "123456789578139624496872153952381467641297835387564291719623548864915372235748916";
    let board = Board::try_from(input).unwrap();

    assert!(board.all_rows_completed());
    assert!(board.all_columns_completed());
}

#[test]
fn row_not_completed() {
    let input =
        "123456789578139624496872153952381467641297835387564291719623548864915372235748916";
    let mut board = Board::try_from(input).unwrap();

    board.set_cell((Row::A, Column::One), 1).unwrap();
    board.set_cell((Row::A, Column::Two), 1).unwrap();

    assert!(!board.all_rows_completed());
}

#[test]
fn solved_board_has_all_units_complete() {
    let board = Board::parse(SOLVED).unwrap();
    assert!(board.all_squares_completed());
    assert!(board.is_solved());
}

#[test]
fn parse_then_digits_round_trip() {
    let input = "003020600900305001001806400008102900700000008006708200002609500800203009005010300";
    let board = Board::parse(input).unwrap();
    let text = board.to_digits();
    assert_eq!(text, input);
    let again = Board::parse(&text).unwrap();
    assert_eq!(again.to_digits(), input);
}

#[test]
fn parse_reads_row_major() {
    let input = "003020600900305001001806400008102900700000008006708200002609500800203009005010300";
    let board = Board::parse(input).unwrap();
    assert_eq!(board.get(0, 0), Ok(Cell::Empty));
    assert_eq!(board.get(0, 2), Ok(Cell::Value(3)));
    assert_eq!(board.get(1, 0), Ok(Cell::Value(9)));
    assert_eq!(board.get(8, 6), Ok(Cell::Value(3)));
}

#[test]
fn parse_length_80() {
    let input = "00302060090030500100180640000810290070000000800670820000260950080020300900501030";
    assert_eq!(input.len(), 80);
    assert_eq!(Board::parse(input).unwrap_err(), SudokuError::InputLength(80));
}

#[test]
fn parse_empty_input() {
    assert_eq!(Board::parse("").unwrap_err(), SudokuError::InputLength(0));
}

#[test]
fn parse_rejects_non_digit() {
    let mut input = String::from("x");
    input.push_str(&"0".repeat(80));
    assert_eq!(Board::parse(&input).unwrap_err(), SudokuError::InvalidDigit('x' as u32));
    let mut dotted = "0".repeat(40);
    dotted.push('.');
    dotted.push('a');
    dotted.push_str(&"0".repeat(39));
    assert_eq!(Board::parse(&dotted).unwrap_err(), SudokuError::InvalidDigit('.' as u32));
}

#[test]
fn render_shows_nine_lines() {
    let mut board = Board::new();
    board.set(0, 0, 5).unwrap();
    board.set(8, 8, 9).unwrap();
    let text = board.render();
    let lines: Vec<&str> = text.lines().collect();
    assert_eq!(lines.len(), 9);
    assert_eq!(lines[0], "5________");
    assert_eq!(lines[4], "_________");
    assert_eq!(lines[8], "________9");
    assert!(text.ends_with('\n'));
    assert_eq!(text.len(), 90);
}

#[test]
fn set_and_get_errors() {
    let mut board = Board::new();
    assert_eq!(board.set(9, 0, 1), Err(SudokuError::OutOfRange(9)));
    assert_eq!(board.set(0, 12, 1), Err(SudokuError::OutOfRange(12)));
    assert_eq!(board.set(0, 0, 10), Err(SudokuError::InvalidDigit(10)));
    assert_eq!(board.get(3, 9), Err(SudokuError::OutOfRange(9)));
    assert_eq!(board.set_cell((Row::C, Column::Two), 11), Err(SudokuError::InvalidDigit(11)));
    assert_eq!(board.to_digits(), "0".repeat(81));
    board.set(4, 5, 7).unwrap();
    assert_eq!(board.get(4, 5), Ok(Cell::Value(7)));
    board.set(4, 5, 0).unwrap();
    assert_eq!(board.get(4, 5), Ok(Cell::Empty));
}

#[test]
fn unit_accessors() {
    let board = Board::parse(SOLVED).unwrap();
    let digits = |cells: [Cell; 9]| -> Vec<u8> {
        cells
            .iter()
            .map(|c| match c {
                Cell::Empty => 0,
                Cell::Value(d) => *d,
            })
            .collect()
    };
    assert_eq!(digits(board.get_row(Row::B)), vec![5, 7, 8, 1, 3, 9, 6, 2, 4]);
    assert_eq!(digits(board.get_column(Column::One)), vec![1, 5, 4, 9, 6, 3, 7, 8, 2]);
    assert_eq!(
        digits(board.get_square_of((Row::E, Column::Six))),
        vec![3, 8, 1, 2, 9, 7, 5, 6, 4]
    );
    assert_eq!(digits(board.square(8).unwrap()), vec![5, 4, 8, 3, 7, 2, 9, 1, 6]);
    assert_eq!(digits(board.row(8).unwrap()), vec![2, 3, 5, 7, 4, 8, 9, 1, 6]);
    assert_eq!(digits(board.column(8).unwrap()), vec![9, 4, 3, 7, 5, 1, 8, 2, 6]);
    assert_eq!(board.row(9).unwrap_err(), SudokuError::OutOfRange(9));
    assert_eq!(board.column(10).unwrap_err(), SudokuError::OutOfRange(10));
    assert_eq!(board.square(9).unwrap_err(), SudokuError::OutOfRange(9));
}

#[test]
fn unit_complete_iff_distinct_and_filled() {
    let full = [1, 2, 3, 4, 5, 6, 7, 8, 9].map(Cell::Value);
    assert!(is_unit_complete(&full));
    let mut gap = full;
    gap[4] = Cell::Empty;
    assert!(!is_unit_complete(&gap));
    let mut twice = full;
    twice[8] = Cell::Value(1);
    assert!(!is_unit_complete(&twice));
    assert!(!is_unit_complete(&[Cell::Empty; 9]));
}

#[test]
fn conversions() {
    assert_eq!(Row::try_from(4usize).unwrap(), Row::E);
    assert_eq!(Row::try_from(9usize).unwrap_err(), SudokuError::OutOfRange(9));
    assert_eq!(Column::try_from(8usize).unwrap(), Column::Nine);
    assert_eq!(Column::try_from(20usize).unwrap_err(), SudokuError::OutOfRange(20));
    assert_eq!(usize::from(Row::I), 8);
    assert_eq!(usize::from(Column::Three), 2);
    assert_eq!(Cell::try_from(0u8).unwrap(), Cell::Empty);
    assert_eq!(Cell::try_from(7u8).unwrap(), Cell::Value(7));
    assert_eq!(Cell::try_from(10u8).unwrap_err(), SudokuError::InvalidDigit(10));
    assert!(matches!(Board::default().get(2, 2), Ok(Cell::Empty)));
}
