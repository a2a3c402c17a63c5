use sudoku::board::{Board, Cell, SudokuError};
use sudoku::candidates::CandidateEngine;

const PUZZLE: &str =
    "003020600900305001001806400008102900700000008006708200002609500800203009005010300";

fn is_peer(r1: usize, c1: usize, r2: usize, c2: usize) -> bool {
    (r1, c1) != (r2, c2) && (r1 == r2 || c1 == c2 || (r1 / 3 == r2 / 3 && c1 / 3 == c2 / 3))
}

/// Recomputes every candidate set from the board alone and compares.
fn matches_recomputation(e: &CandidateEngine) -> bool {
    let b = e.board();
    for r in 0..9 {
        for c in 0..9 {
            let empty = b.get(r, c).unwrap() == Cell::Empty;
            for d in 1..=9u8 {
                let taken = (0..9).any(|r2| {
                    (0..9).any(|c2| is_peer(r, c, r2, c2) && b.get(r2, c2).unwrap() == Cell::Value(d))
                });
                if e.is_candidate(r, c, d as usize) != (empty && !taken) {
                    return false;
                }
            }
            if e.is_candidate(r, c, 0) {
                return false;
            }
        }
    }
    true
}

fn same_state(a: &CandidateEngine, b: &CandidateEngine) -> bool {
    a.board().to_digits() == b.board().to_digits()
        && (0..9).all(|r| {
            (0..9).all(|c| (0..10).all(|d| a.is_candidate(r, c, d) == b.is_candidate(r, c, d)))
        })
}

#[test]
fn initialize_matches_recomputation() {
    let board = Board::parse(PUZZLE).unwrap();
    let e = CandidateEngine::initialize(&board).unwrap();
    assert!(matches_recomputation(&e));
    assert_eq!(e.board().to_digits(), PUZZLE);
    // (0, 0) sees 3, 2, 6 in its row, 9, 7, 8 in its column and 1 in its box.
    assert_eq!(e.count(0, 0), 2);
    assert!(e.is_candidate(0, 0, 4));
    assert!(e.is_candidate(0, 0, 5));
    assert!(!e.is_candidate(0, 0, 3));
    // A filled cell has no candidates.
    assert_eq!(e.count(0, 2), 0);
}

#[test]
fn candidates_stay_exact_after_assign_and_retract() {
    let board = Board::parse(PUZZLE).unwrap();
    let mut e = CandidateEngine::initialize(&board).unwrap();
    let first = e.snapshot();
    e.assign(0, 0, 4).unwrap();
    assert!(matches_recomputation(&e));
    assert!(!e.is_candidate(0, 1, 4));
    let second = e.snapshot();
    let _ = e.assign(0, 1, 8);
    assert!(matches_recomputation(&e));
    e.retract(0, 1, &second);
    assert!(matches_recomputation(&e));
    e.retract(0, 0, &first);
    assert!(matches_recomputation(&e));
    assert_eq!(e.board().to_digits(), PUZZLE);
}

#[test]
fn retract_undoes_assign_exactly() {
    let board = Board::parse(PUZZLE).unwrap();
    let start = CandidateEngine::initialize(&board).unwrap();
    let mut e = start;
    let saved = e.snapshot();
    let _ = e.assign(4, 4, 5);
    assert!(!same_state(&e, &start));
    e.retract(4, 4, &saved);
    assert!(same_state(&e, &start));
}

#[test]
fn assign_reports_peer_without_candidates() {
    // Row 0 holds 1..=7; (0, 7) and (0, 8) can hold only 8 and 9. Column 8 holds 8,
    // so placing 9 at (0, 7) leaves (0, 8) with nothing.
    let board = Board::parse(
        "123456700000000008000000000000000000000000000000000000000000000000000000000000000",
    )
    .unwrap();
    let mut e = CandidateEngine::initialize(&board).unwrap();
    assert_eq!(e.assign(0, 7, 9), Err(SudokuError::Contradiction(0, 8)));
    assert_eq!(e.board().get(0, 7), Ok(Cell::Value(9)));
    assert!(matches_recomputation(&e));
}

#[test]
fn initialize_rejects_duplicate_in_row() {
    let mut board = Board::new();
    board.set(0, 0, 5).unwrap();
    board.set(0, 8, 5).unwrap();
    assert_eq!(
        CandidateEngine::initialize(&board).err(),
        Some(SudokuError::Contradiction(0, 8))
    );
}

#[test]
fn naked_singles_are_listed() {
    let board = Board::parse(
        "123456780000000000000000000000000000000000000000000000000000000000000000000000000",
    )
    .unwrap();
    let e = CandidateEngine::initialize(&board).unwrap();
    assert_eq!(e.sole_candidate(0, 8), Some(9));
    assert_eq!(e.sole_candidate(1, 0), None);
    let singles = e.naked_singles();
    assert_eq!(singles, vec![(0, 8, 9)]);
}

#[test]
fn empty_board_has_all_candidates() {
    let e = CandidateEngine::initialize(&Board::new()).unwrap();
    assert!(matches_recomputation(&e));
    assert_eq!(e.count(4, 4), 9);
    assert!(e.naked_singles().is_empty());
}
