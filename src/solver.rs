//! Depth-first search over the candidate engine: the most constrained empty
//! cell first, its candidates in ascending order, every trial undone exactly.
use vstd::prelude::*;

use crate::board::{lemma_filled_consistent_solved, Board, Cell, SudokuError};
use crate::candidates::{
    lemma_place_legal, lemma_solution_legal, no_candidates, table_fits, CandidateEngine,
};
use crate::units::{in_grid, is_peer};

verus! {

/// The number of empty cells of `b` among the first `n` in row-major order.
pub open(crate) spec fn empties(b: Board, n: int) -> nat
    decreases n,
{
    if n <= 0 {
        0
    } else {
        empties(b, n - 1) + if b.cell((n - 1) / 9, (n - 1) % 9) is Empty {
            1nat
        } else {
            0nat
        }
    }
}

/// Filling an empty cell lowers the count of empty cells by one.
proof fn lemma_fill_empties(old: Board, new: Board, r: int, c: int, x: Cell, n: int)
    requires
        new.is_update(&old, r, c, x),
        old.cell(r, c) is Empty,
        x is Value,
        in_grid(r, c),
        0 <= n <= 81,
    ensures
        empties(new, n) + (if 9 * r + c < n {
            1int
        } else {
            0int
        }) == empties(old, n),
    decreases n,
{
    if n > 0 {
        lemma_fill_empties(old, new, r, c, x, n - 1);
        assert(in_grid((n - 1) / 9, (n - 1) % 9));
    }
}

/// The empty cell with the fewest candidates, the first in row-major order
/// among equals; `None` when the board is full.
fn most_constrained(e: &CandidateEngine) -> (r: Option<(usize, usize)>)
    requires
        e.wf(),
    ensures
        r is None <==> e.grid().filled(),
        r matches Some(p) ==> in_grid(p.0 as int, p.1 as int) && e.grid().cell(p.0 as int, p.1 as int) is Empty
            && forall|a: int, b: int|
            in_grid(a, b) && #[trigger] e.grid().cell(a, b) is Empty ==> e.cand_count(a, b)
                >= e.cand_count(p.0 as int, p.1 as int) && (e.cand_count(a, b) == e.cand_count(
                p.0 as int,
                p.1 as int,
            ) ==> 9 * p.0 + p.1 <= 9 * a + b),
{
    let mut best: Option<(usize, usize, usize)> = None;
    let mut i: usize = 0;
    while i < 81
        invariant
            i <= 81,
            e.wf(),
            best is None ==> forall|a: int, b: int|
                in_grid(a, b) && 9 * a + b < i ==> !(#[trigger] e.grid().cell(a, b) is Empty),
            best matches Some(p) ==> in_grid(p.0 as int, p.1 as int) && 9 * p.0 + p.1 < i && e.grid().cell(
                p.0 as int,
                p.1 as int,
            ) is Empty && p.2 == e.cand_count(p.0 as int, p.1 as int) && forall|a: int, b: int|
                in_grid(a, b) && 9 * a + b < i && #[trigger] e.grid().cell(a, b) is Empty
                    ==> e.cand_count(a, b) >= p.2 && (e.cand_count(a, b) == p.2 ==> 9 * p.0 + p.1 <= 9
                    * a + b),
        decreases 81 - i,
    {
        let r = i / 9;
        let c = i % 9;
        if e.board().0[r][c] == Cell::Empty {
            let n = e.count(r, c);
            match best {
                None => {
                    best = Some((r, c, n));
                },
                Some(p) => {
                    if n < p.2 {
                        best = Some((r, c, n));
                    }
                },
            }
        }
        i = i + 1;
    }
    match best {
        None => {
            assert forall|a: int, b: int| in_grid(a, b) implies #[trigger] e.grid().cell(a, b) is Value by {
                assert(!(e.grid().cell(a, b) is Empty));
            }
            None
        },
        Some(p) => Some((p.0, p.1)),
    }
}

/// Completes the engine's board, trying the most constrained empty cell
/// first and its candidates in ascending order. On failure the engine is left
/// as it was and no completion of its board exists.
fn search(e: &mut CandidateEngine) -> (found: bool)
    requires
        old(e).wf(),
        old(e).grid().consistent(),
    ensures
        final(e).wf(),
        found ==> final(e).grid().completes(&old(e).grid()),
        !found ==> *final(e) == *old(e) && forall|s: Board| !#[trigger] s.completes(&old(e).grid()),
    decreases empties(old(e).grid(), 81),
{
    let ghost start = *e;
    let ghost g = e.grid();
    match most_constrained(e) {
        None => true,
        Some((r, c)) => {
            proof {
                assert forall|s: Board| #[trigger] s.completes(&g) implies s.cell(r as int, c as int).digit()
                    >= 1 by {
                    assert(s.cell(r as int, c as int).wf());
                    assert(s.cell(r as int, c as int) is Value);
                }
            }
            let mut d: u8 = 1;
            while d <= 9
                invariant
                    1 <= d <= 10,
                    *e == start,
                    start == *old(e),
                    g == start.grid(),
                    start.wf(),
                    g.consistent(),
                    in_grid(r as int, c as int),
                    g.cell(r as int, c as int) is Empty,
                    forall|s: Board| #[trigger]
                        s.completes(&g) ==> s.cell(r as int, c as int).digit() >= d,
                decreases 10 - d,
            {
                if e.is_candidate(r, c, d as usize) {
                    let before = e.snapshot();
                    let res = e.assign(r, c, d);
                    let ghost mid = e.grid();
                    proof {
                        assert(start.table()[r as int][c as int][d as int]);
                        lemma_place_legal(g, mid, r as int, c as int, d);
                        lemma_fill_empties(g, mid, r as int, c as int, Cell::Value(d), 81);
                    }
                    let mut done = false;
                    if res.is_ok() {
                        done = search(e);
                    }
                    if done {
                        proof {
                            let s = e.grid();
                            assert forall|a: int, b: int| in_grid(a, b) && #[trigger] g.cell(a, b) is Value implies s.cell(
                                a,
                                b,
                            ) == g.cell(a, b) by {
                                assert(mid.cell(a, b) == g.cell(a, b));
                            }
                        }
                        return true;
                    }
                    proof {
                        assert forall|s: Board| #[trigger] s.completes(&g) implies s.cell(r as int, c as int)
                            != Cell::Value(d) by {
                            if s.cell(r as int, c as int) == Cell::Value(d) {
                                assert forall|a: int, b: int| in_grid(a, b) && #[trigger] mid.cell(a, b) is Value implies s.cell(
                                    a,
                                    b,
                                ) == mid.cell(a, b) by {
                                    if !(a == r && b == c) {
                                        assert(g.cell(a, b) == mid.cell(a, b));
                                    }
                                }
                                assert(s.completes(&mid));
                                if res.is_err() {
                                    let (a, b) = choose|a: int, b: int|
                                        in_grid(a, b) && is_peer(r as int, c as int, a, b)
                                            && #[trigger] no_candidates(mid, a, b);
                                    lemma_solution_legal(s, mid, a, b);
                                }
                            }
                        }
                        assert(table_fits(g, before.entries()));
                        assert(e.grid().is_update(&g, r as int, c as int, e.grid().cell(r as int, c as int)));
                    }
                    e.retract(r, c, &before);
                    proof {
                        assert forall|a: int, b: int| in_grid(a, b) implies #[trigger] e.grid().cell(a, b)
                            == g.cell(a, b) by {}
                        crate::board::lemma_board_ext(e.grid(), g);
                        assert(e.cands == start.cands);
                    }
                } else {
                    proof {
                        assert forall|s: Board| #[trigger] s.completes(&g) implies s.cell(r as int, c as int)
                            != Cell::Value(d) by {
                            if s.cell(r as int, c as int) == Cell::Value(d) {
                                lemma_solution_legal(s, g, r as int, c as int);
                            }
                        }
                    }
                }
                proof {
                    assert forall|s: Board| #[trigger] s.completes(&g) implies s.cell(r as int, c as int).digit()
                        >= d + 1 by {
                        assert(s.cell(r as int, c as int) is Value);
                    }
                }
                d = d + 1;
            }
            proof {
                assert forall|s: Board| !#[trigger] s.completes(&g) by {
                    if s.completes(&g) {
                        assert(s.cell(r as int, c as int).wf());
                    }
                }
            }
            false
        },
    }
}

/// A solving session over a puzzle board.
#[derive(Debug)]
pub struct Sudoku<'a> {
    sudoku: &'a Board,
}

impl<'a> Sudoku<'a> {
    /// The puzzle being solved.
    pub closed spec fn puzzle(&self) -> Board {
        *self.sudoku
    }

    /// Starts a session on `sudoku`.
    pub fn new(sudoku: &'a mut Board) -> (r: Sudoku<'a>)
        ensures
            r.puzzle() == *old(sudoku),
            *final(sudoku) == *old(sudoku),
    {
        Sudoku { sudoku }
    }

    /// Solves the puzzle. Fails with `Contradiction` when two peers of the
    /// puzzle hold the same digit, and with `Unsolvable` when no completion
    /// exists; otherwise returns a completion, found by a deterministic
    /// depth-first search.
    pub fn solve(&self) -> (r: Result<Board, SudokuError>)
        requires
            self.puzzle().wf(),
        ensures
            r matches Ok(s) ==> s.completes(&self.puzzle()) && s.solved(),
            r is Ok <==> self.puzzle().consistent() && exists|s: Board| #[trigger] s.completes(
                &self.puzzle(),
            ),
            (r == Err::<Board, SudokuError>(SudokuError::Unsolvable)) <==> self.puzzle().consistent()
                && forall|s: Board| !#[trigger] s.completes(&self.puzzle()),
            r matches Err(e) ==> (e is Unsolvable || (e matches SudokuError::Contradiction(a, b)
                && in_grid(a as int, b as int) && self.puzzle().cell(a as int, b as int) is Value
                && exists|r2: int, c2: int|
                in_grid(r2, c2) && is_peer(a as int, b as int, r2, c2) && #[trigger] self.puzzle().cell(
                    r2,
                    c2,
                ) == self.puzzle().cell(a as int, b as int))),
    {
        solve(self.sudoku)
    }
}

/// Solves `puzzle`: see `Sudoku::solve`.
pub fn solve(puzzle: &Board) -> (r: Result<Board, SudokuError>)
    requires
        puzzle.wf(),
    ensures
        r matches Ok(s) ==> s.completes(puzzle) && s.solved(),
        r is Ok <==> puzzle.consistent() && exists|s: Board| #[trigger] s.completes(puzzle),
        (r == Err::<Board, SudokuError>(SudokuError::Unsolvable)) <==> puzzle.consistent()
            && forall|s: Board| !#[trigger] s.completes(puzzle),
        r matches Err(e) ==> (e is Unsolvable || (e matches SudokuError::Contradiction(a, b) && in_grid(
            a as int,
            b as int,
        ) && puzzle.cell(a as int, b as int) is Value && exists|r2: int, c2: int|
            in_grid(r2, c2) && is_peer(a as int, b as int, r2, c2) && #[trigger] puzzle.cell(r2, c2)
                == puzzle.cell(a as int, b as int))),
{
    let mut e = match CandidateEngine::initialize(puzzle) {
        Ok(e) => e,
        Err(err) => {
            return Err(err);
        },
    };
    if search(&mut e) {
        let s = e.board();
        proof {
            lemma_filled_consistent_solved(s);
        }
        Ok(s)
    } else {
        Err(SudokuError::Unsolvable)
    }
}

} // verus!
