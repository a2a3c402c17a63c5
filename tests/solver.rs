use sudoku::board::{Board, Cell, SudokuError};
use sudoku::solver::{solve, Sudoku};

const PUZZLE: &str =
    "003020600900305001001806400008102900700000008006708200002609500800203009005010300";

fn keeps_givens(puzzle: &Board, solution: &Board) -> bool {
    (0..9).all(|r| {
        (0..9).all(|c| match puzzle.get(r, c).unwrap() {
            Cell::Empty => true,
            given => solution.get(r, c).unwrap() == given,
        })
    })
}

#[test]
fn solves_known_puzzle() {
    let mut board = Board::parse(PUZZLE).unwrap();
    let puzzle = board;
    let session = Sudoku::new(&mut board);
    let solution = session.solve().unwrap();
    assert!(solution.is_solved());
    assert!(keeps_givens(&puzzle, &solution));
    let digits = solution.to_digits();
    assert_eq!(&digits[..9], "483921657");
    assert_eq!(
        digits,
        "483921657967345821251876493548132976729564138136798245372689514814253769695417382"
    );
}

#[test]
fn duplicate_in_row_is_contradiction() {
    let mut board = Board::new();
    board.set(2, 1, 6).unwrap();
    board.set(2, 7, 6).unwrap();
    assert_eq!(solve(&board), Err(SudokuError::Contradiction(2, 7)));
}

#[test]
fn duplicate_in_box_is_contradiction() {
    let mut board = Board::new();
    board.set(3, 3, 4).unwrap();
    board.set(5, 5, 4).unwrap();
    assert_eq!(solve(&board), Err(SudokuError::Contradiction(5, 5)));
}

#[test]
fn empty_board_is_solved() {
    let board = Board::new();
    let solution = solve(&board).unwrap();
    assert!(solution.is_solved());
    assert!(solution.all_rows_completed());
    assert!(solution.all_columns_completed());
    assert!(solution.all_squares_completed());
}

#[test]
fn consistent_but_unsolvable() {
    // Row 0 holds 1..=8, so its last cell must be 9, which column 8 already holds.
    let mut board = Board::parse(
        "123456780000000009000000000000000000000000000000000000000000000000000000000000000",
    )
    .unwrap();
    assert_eq!(solve(&board), Err(SudokuError::Unsolvable));
    let session = Sudoku::new(&mut board);
    assert_eq!(session.solve(), Err(SudokuError::Unsolvable));
}

#[test]
fn already_solved_board_is_returned() {
    let input = "123456789578139624496872153952381467641297835387564291719623548864915372235748916";
    let board = Board::parse(input).unwrap();
    assert_eq!(solve(&board).unwrap().to_digits(), input);
}

#[test]
fn solution_of_sparse_puzzle_keeps_givens() {
    let input = "000000010400000000020000000000050407008000300001090000300400200050100000000806000";
    let board = Board::parse(input).unwrap();
    let solution = solve(&board).unwrap();
    assert!(solution.is_solved());
    assert!(keeps_givens(&board, &solution));
}
