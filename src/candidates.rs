//! The candidate table: for every empty cell, the digits that none of its
//! peers holds, kept up to date as digits are placed and taken back.
use vstd::prelude::*;

use crate::board::{Board, Cell, SudokuError};
use crate::units::{in_grid, is_peer, peers};

verus! {

/// `d` is a digit of `1..=9` that no peer of `(r, c)` holds on `b`.
pub open(crate) spec fn legal(b: Board, r: int, c: int, d: int) -> bool {
    &&& 1 <= d <= 9
    &&& forall|r2: int, c2: int|
        in_grid(r2, c2) && is_peer(r, c, r2, c2) ==> #[trigger] b.cell(r2, c2) != Cell::Value(
            d as u8,
        )
}

/// `t` holds, for each empty cell of `b`, exactly its legal digits, and
/// nothing for a filled cell.
pub open(crate) spec fn table_fits(b: Board, t: [[[bool; 10]; 9]; 9]) -> bool {
    forall|r: int, c: int, d: int|
        in_grid(r, c) && 0 <= d < 10 ==> #[trigger] t[r][c][d] == (b.cell(r, c) is Empty && legal(
            b,
            r,
            c,
            d,
        ))
}

/// `(r, c)` is empty on `b` and no digit is legal there.
pub open(crate) spec fn no_candidates(b: Board, r: int, c: int) -> bool {
    &&& b.cell(r, c) is Empty
    &&& forall|d: int| 1 <= d <= 9 ==> !#[trigger] legal(b, r, c, d)
}

/// How many of `s[1..n]` are true.
pub open spec fn count_true(s: Seq<bool>, n: int) -> nat
    decreases n,
{
    if n <= 1 {
        0
    } else {
        count_true(s, n - 1) + if s[n - 1] {
            1nat
        } else {
            0nat
        }
    }
}

/// None of `s[1..n]` is true exactly when the count is zero.
pub proof fn lemma_count_zero(s: Seq<bool>, n: int)
    ensures
        (count_true(s, n) == 0) <==> (forall|d: int| 1 <= d < n ==> !#[trigger] s[d]),
    decreases n,
{
    if n > 1 {
        lemma_count_zero(s, n - 1);
    }
}

/// A saved copy of the candidate sets of every cell.
#[derive(Clone, Copy)]
pub struct Candidates {
    pub(crate) table: [[[bool; 10]; 9]; 9],
}

/// A board together with the candidate set of each of its empty cells.
#[derive(Clone, Copy)]
pub struct CandidateEngine {
    pub(crate) board: Board,
    pub(crate) cands: Candidates,
}

/// Placing `x` at `(r, c)` leaves the legal digits of every cell that is not
/// a peer of `(r, c)` as they were.
proof fn lemma_legal_away(old: Board, new: Board, r: int, c: int, x: Cell, a: int, b: int, d: int)
    requires
        new.is_update(&old, r, c, x),
        in_grid(r, c),
        in_grid(a, b),
        !is_peer(a, b, r, c),
    ensures
        legal(new, a, b, d) == legal(old, a, b, d),
{
    if legal(new, a, b, d) {
        assert forall|r2: int, c2: int| in_grid(r2, c2) && is_peer(a, b, r2, c2) implies #[trigger] old.cell(
            r2,
            c2,
        ) != Cell::Value(d as u8) by {
            assert(new.cell(r2, c2) == old.cell(r2, c2));
        }
    }
    if legal(old, a, b, d) {
        assert forall|r2: int, c2: int| in_grid(r2, c2) && is_peer(a, b, r2, c2) implies #[trigger] new.cell(
            r2,
            c2,
        ) != Cell::Value(d as u8) by {
            assert(old.cell(r2, c2) != Cell::Value(d as u8));
        }
    }
}

/// Placing the digit `v` at `(r, c)` takes `v` from the legal digits of each
/// peer of `(r, c)` and leaves the others.
proof fn lemma_legal_near(old: Board, new: Board, r: int, c: int, v: u8, a: int, b: int, d: int)
    requires
        new.is_update(&old, r, c, Cell::Value(v)),
        old.cell(r, c) is Empty,
        in_grid(r, c),
        in_grid(a, b),
        is_peer(a, b, r, c),
    ensures
        legal(new, a, b, d) == (legal(old, a, b, d) && d != v),
{
    if legal(new, a, b, d) {
        assert(new.cell(r, c) == Cell::Value(v));
        assert forall|r2: int, c2: int| in_grid(r2, c2) && is_peer(a, b, r2, c2) implies #[trigger] old.cell(
            r2,
            c2,
        ) != Cell::Value(d as u8) by {
            if r2 == r && c2 == c {
            } else {
                assert(new.cell(r2, c2) == old.cell(r2, c2));
            }
        }
    }
    if legal(old, a, b, d) && d != v {
        assert forall|r2: int, c2: int| in_grid(r2, c2) && is_peer(a, b, r2, c2) implies #[trigger] new.cell(
            r2,
            c2,
        ) != Cell::Value(d as u8) by {
            if r2 == r && c2 == c {
                assert(new.cell(r2, c2) == Cell::Value(v));
                assert(1 <= d <= 9);
            } else {
                assert(old.cell(r2, c2) != Cell::Value(d as u8));
            }
        }
    }
}

/// Placing a legal digit on an empty cell of a consistent board keeps it
/// consistent.
pub proof fn lemma_place_legal(old: Board, new: Board, r: int, c: int, v: u8)
    requires
        old.consistent(),
        in_grid(r, c),
        old.cell(r, c) is Empty,
        legal(old, r, c, v as int),
        new.is_update(&old, r, c, Cell::Value(v)),
    ensures
        new.consistent(),
{
    assert forall|r1: int, c1: int, r2: int, c2: int|
        in_grid(r1, c1) && in_grid(r2, c2) && is_peer(r1, c1, r2, c2)
            && #[trigger] new.cell(r1, c1) is Value implies new.cell(r1, c1) != #[trigger] new.cell(
        r2,
        c2,
    ) by {
        if r1 == r && c1 == c {
            assert(old.cell(r2, c2) != Cell::Value(v));
        } else if r2 == r && c2 == c {
            assert(is_peer(r, c, r1, c1));
            assert(old.cell(r1, c1) != Cell::Value(v));
        } else {
            assert(old.cell(r1, c1) is Value);
            assert(old.cell(r1, c1) != old.cell(r2, c2));
        }
    }
}

/// On a board that `s` completes, the digit of `s` at an empty cell is legal.
pub proof fn lemma_solution_legal(s: Board, b: Board, r: int, c: int)
    requires
        s.completes(&b),
        in_grid(r, c),
        b.cell(r, c) is Empty,
    ensures
        s.cell(r, c) is Value,
        legal(b, r, c, s.cell(r, c)->Value_0 as int),
{
    assert(s.cell(r, c) is Value);
    assert(s.cell(r, c).wf());
    let v = s.cell(r, c)->Value_0;
    assert forall|r2: int, c2: int| in_grid(r2, c2) && is_peer(r, c, r2, c2) implies #[trigger] b.cell(
        r2,
        c2,
    ) != Cell::Value(v) by {
        if b.cell(r2, c2) == Cell::Value(v) {
            assert(s.cell(r2, c2) == Cell::Value(v));
            assert(s.cell(r, c) != s.cell(r2, c2));
        }
    }
}

/// The digits that the peers of `(r, c)` hold on `b`.
pub open(crate) spec fn peer_digits(b: Board, r: int, c: int) -> Set<int> {
    Set::new(
        |d: int|
            exists|r2: int, c2: int|
                in_grid(r2, c2) && is_peer(r, c, r2, c2) && #[trigger] b.cell(r2, c2) is Value
                    && b.cell(r2, c2).digit() == d,
    )
}

/// In a well-formed engine the candidate set of every empty cell is exactly
/// the digits 1 to 9 less those that its peers hold.
pub proof fn lemma_candidates_exact(e: CandidateEngine)
    requires
        e.wf(),
    ensures
        forall|r: int, c: int|
            in_grid(r, c) && e.grid().cell(r, c) is Empty ==> #[trigger] e.candidates(r, c) == Set::new(
                |d: int| 1 <= d <= 9,
            ).difference(peer_digits(e.grid(), r, c)),
{
    assert forall|r: int, c: int| in_grid(r, c) && e.grid().cell(r, c) is Empty implies #[trigger] e.candidates(
        r,
        c,
    ) == Set::new(|d: int| 1 <= d <= 9).difference(peer_digits(e.grid(), r, c)) by {
        let b = e.grid();
        let lhs = e.candidates(r, c);
        let rhs = Set::new(|d: int| 1 <= d <= 9).difference(peer_digits(b, r, c));
        assert forall|d: int| lhs.contains(d) <==> rhs.contains(d) by {
            if 0 <= d < 10 {
                assert(e.table()[r][c][d] == legal(b, r, c, d));
            }
            if lhs.contains(d) {
                if peer_digits(b, r, c).contains(d) {
                    let (r2, c2) = choose|r2: int, c2: int|
                        in_grid(r2, c2) && is_peer(r, c, r2, c2) && #[trigger] b.cell(r2, c2) is Value
                            && b.cell(r2, c2).digit() == d;
                    assert(b.cell(r2, c2) == Cell::Value(d as u8));
                }
            }
            if rhs.contains(d) {
                assert forall|r2: int, c2: int| in_grid(r2, c2) && is_peer(r, c, r2, c2) implies #[trigger] b.cell(
                    r2,
                    c2,
                ) != Cell::Value(d as u8) by {
                    if b.cell(r2, c2) == Cell::Value(d as u8) {
                        assert(b.cell(r2, c2).wf());
                        assert(peer_digits(b, r, c).contains(d));
                    }
                }
            }
        }
        assert(lhs =~= rhs);
    }
}

/// Placing a digit on an empty cell and then taking it back with the copy of
/// the candidate sets saved before restores the exact prior engine; that copy
/// meets what `retract` asks of it.
pub proof fn lemma_assign_retract(
    e: CandidateEngine,
    mid: CandidateEngine,
    end: CandidateEngine,
    r: int,
    c: int,
    d: u8,
)
    requires
        e.wf(),
        in_grid(r, c),
        e.grid().cell(r, c) is Empty,
        1 <= d <= 9,
        mid.wf(),
        mid.grid().is_update(&e.grid(), r, c, Cell::Value(d)),
        end.grid().is_update(&mid.grid(), r, c, Cell::Empty),
        end.table() == e.table(),
    ensures
        exists|b: Board|
            b.wf() && table_fits(b, e.table()) && b.cell(r, c) is Empty && #[trigger] mid.grid().is_update(
                &b,
                r,
                c,
                mid.grid().cell(r, c),
            ),
        end == e,
{
    assert(mid.grid().is_update(&e.grid(), r, c, mid.grid().cell(r, c)));
    assert forall|a: int, b: int| in_grid(a, b) implies #[trigger] end.grid().cell(a, b) == e.grid().cell(
        a,
        b,
    ) by {
        assert(mid.grid().cell(a, b) == if a == r && b == c {
            Cell::Value(d)
        } else {
            e.grid().cell(a, b)
        });
    }
    crate::board::lemma_board_ext(end.grid(), e.grid());
    assert(end.cands == e.cands);
}

impl Candidates {
    /// The saved candidate table: `entries()[r][c][d]` tells whether `d` is a
    /// candidate of `(r, c)`.
    pub open(crate) spec fn entries(&self) -> [[[bool; 10]; 9]; 9] {
        self.table
    }
}

impl CandidateEngine {
    /// The board the engine tracks.
    pub open(crate) spec fn grid(&self) -> Board {
        self.board
    }

    /// The candidate table: `table()[r][c][d]` tells whether `d` is a
    /// candidate of `(r, c)`.
    pub open(crate) spec fn table(&self) -> [[[bool; 10]; 9]; 9] {
        self.cands.table
    }

    /// The board is well formed and the table holds its candidate sets.
    pub open(crate) spec fn wf(&self) -> bool {
        &&& self.board.wf()
        &&& table_fits(self.board, self.cands.table)
    }

    /// The candidate set of `(r, c)`.
    pub open(crate) spec fn candidates(&self, r: int, c: int) -> Set<int> {
        Set::new(|d: int| 0 <= d < 10 && self.cands.table[r][c][d])
    }

    /// An engine for the empty board: every digit is a candidate everywhere.
    fn blank() -> (e: CandidateEngine)
        ensures
            e.wf(),
            forall|r: int, c: int| in_grid(r, c) ==> #[trigger] e.board.cell(r, c) == Cell::Empty,
    {
        let all: [bool; 10] = [false, true, true, true, true, true, true, true, true, true];
        let e = CandidateEngine { board: Board::new(), cands: Candidates { table: [[all; 9]; 9] } };
        assert forall|r: int, c: int, d: int| in_grid(r, c) && 0 <= d < 10 implies #[trigger] e.cands.table[r][c][d]
            == (e.board.cell(r, c) is Empty && legal(e.board, r, c, d)) by {
            assert(e.cands.table[r][c] == all);
            if 1 <= d <= 9 {
                assert forall|r2: int, c2: int| in_grid(r2, c2) && is_peer(r, c, r2, c2) implies #[trigger] e.board.cell(
                    r2,
                    c2,
                ) != Cell::Value(d as u8) by {}
            }
        }
        e
    }

    /// Builds the candidate sets of `board`. Fails when two peers of `board`
    /// hold the same digit, citing the later of the two in row-major order.
    pub fn initialize(board: &Board) -> (r: Result<CandidateEngine, SudokuError>)
        requires
            board.wf(),
        ensures
            r is Ok <==> board.consistent(),
            r matches Ok(e) ==> e.wf() && e.grid() == *board,
            r matches Err(e) ==> (e matches SudokuError::Contradiction(a, b) && in_grid(a as int, b as int)
                && board.cell(a as int, b as int) is Value && exists|r2: int, c2: int|
                in_grid(r2, c2) && is_peer(a as int, b as int, r2, c2) && #[trigger] board.cell(r2, c2)
                == board.cell(a as int, b as int)),
    {
        let mut e = CandidateEngine::blank();
        let mut i: usize = 0;
        while i < 81
            invariant
                i <= 81,
                board.wf(),
                e.wf(),
                e.board.consistent(),
                forall|r: int, c: int|
                    in_grid(r, c) ==> #[trigger] e.board.cell(r, c) == if 9 * r + c < i {
                        board.cell(r, c)
                    } else {
                        Cell::Empty
                    },
            decreases 81 - i,
        {
            let r = i / 9;
            let c = i % 9;
            assert(e.board.cell(r as int, c as int) == Cell::Empty);
            match board.0[r][c] {
                Cell::Empty => {},
                Cell::Value(d) => {
                    assert(board.cell(r as int, c as int).wf());
                    if !e.cands.table[r][c][d as usize] {
                        proof {
                            assert(!legal(e.board, r as int, c as int, d as int));
                            let (r2, c2) = choose|r2: int, c2: int|
                                in_grid(r2, c2) && is_peer(r as int, c as int, r2, c2) && #[trigger] e.board.cell(
                                    r2,
                                    c2,
                                ) == Cell::Value(d);
                            assert(board.cell(r2, c2) == board.cell(r as int, c as int));
                        }
                        return Err(SudokuError::Contradiction(r, c));
                    }
                    let ghost prev = e.board;
                    let _ = e.assign(r, c, d);
                    proof {
                        lemma_place_legal(prev, e.board, r as int, c as int, d);
                    }
                },
            }
            i = i + 1;
        }
        proof {
            assert forall|r: int, c: int| in_grid(r, c) implies #[trigger] e.board.cell(r, c) == board.cell(
                r,
                c,
            ) by {
                assert(e.board.cell(r, c) == board.cell(r, c));
            }
            crate::board::lemma_board_ext(e.board, *board);
        }
        Ok(e)
    }

    /// Takes back the digit at `(row, col)`: the cell becomes empty and the
    /// candidate sets become `previous`, the copy taken before the digit was
    /// placed.
    pub fn retract(&mut self, row: usize, col: usize, previous: &Candidates)
        requires
            in_grid(row as int, col as int),
            old(self).grid().cell(row as int, col as int) is Value,
            exists|b: Board|
                b.wf() && table_fits(b, previous.entries()) && b.cell(row as int, col as int) is Empty
                    && #[trigger] old(self).grid().is_update(
                    &b,
                    row as int,
                    col as int,
                    old(self).grid().cell(row as int, col as int),
                ),
        ensures
            final(self).wf(),
            final(self).grid().is_update(&old(self).grid(), row as int, col as int, Cell::Empty),
            final(self).table() == previous.entries(),
    {
        let ghost prior = self.board;
        self.board.put(row, col, Cell::Empty);
        self.cands = *previous;
        proof {
            let b = choose|b: Board|
                b.wf() && table_fits(b, previous.entries()) && b.cell(row as int, col as int) is Empty
                    && #[trigger] prior.is_update(&b, row as int, col as int, prior.cell(row as int, col as int));
            assert forall|r: int, c: int| in_grid(r, c) implies #[trigger] self.board.cell(r, c) == b.cell(
                r,
                c,
            ) by {
                assert(prior.cell(r, c) == if r == row && c == col {
                    prior.cell(row as int, col as int)
                } else {
                    b.cell(r, c)
                });
            }
            crate::board::lemma_board_ext(self.board, b);
        }
    }

    /// The number of candidates of `(r, c)`.
    pub open(crate) spec fn cand_count(&self, r: int, c: int) -> nat {
        count_true(self.cands.table[r][c]@, 10)
    }

    /// The number of candidates of `(r, c)`.
    pub fn count(&self, r: usize, c: usize) -> (n: usize)
        requires
            in_grid(r as int, c as int),
        ensures
            n == self.cand_count(r as int, c as int),
    {
        let set = self.cands.table[r][c];
        let mut n: usize = 0;
        let mut d: usize = 1;
        while d < 10
            invariant
                1 <= d <= 10,
                set == self.cands.table[r as int][c as int],
                n == count_true(set@, d as int),
                n <= d,
            decreases 10 - d,
        {
            if set[d] {
                n = n + 1;
            }
            d = d + 1;
        }
        n
    }

    /// `d` is the one candidate of `(r, c)`.
    pub open(crate) spec fn is_naked_single(&self, r: int, c: int, d: int) -> bool {
        &&& 1 <= d <= 9
        &&& self.table()[r][c][d]
        &&& forall|x: int| 1 <= x <= 9 && x != d ==> !#[trigger] self.table()[r][c][x]
    }

    /// The one candidate of `(r, c)`, if it has exactly one.
    pub fn sole_candidate(&self, r: usize, c: usize) -> (o: Option<u8>)
        requires
            in_grid(r as int, c as int),
        ensures
            o matches Some(d) ==> self.is_naked_single(r as int, c as int, d as int),
            o is None ==> forall|d: int| !#[trigger] self.is_naked_single(r as int, c as int, d),
    {
        let set = self.cands.table[r][c];
        let mut found: Option<u8> = None;
        let mut many = false;
        let ghost mut w: (int, int) = (0, 0);
        let mut d: usize = 1;
        while d < 10
            invariant
                1 <= d <= 10,
                set == self.table()[r as int][c as int],
                !many && found is None ==> forall|x: int| 1 <= x < d ==> !#[trigger] set[x],
                !many && found is Some ==> 1 <= found->Some_0 < d && set[found->Some_0 as int] && forall|
                    x: int,
                | 1 <= x < d && x != found->Some_0 ==> !#[trigger] set[x],
                many ==> 1 <= w.0 < w.1 < d && set[w.0] && set[w.1],
            decreases 10 - d,
        {
            if set[d] && !many {
                match found {
                    None => {
                        found = Some(d as u8);
                    },
                    Some(y) => {
                        many = true;
                        proof {
                            w = (y as int, d as int);
                        }
                    },
                }
            }
            d = d + 1;
        }
        if many {
            proof {
                assert forall|x: int| !#[trigger] self.is_naked_single(r as int, c as int, x) by {
                    if x == w.0 {
                        assert(set[w.1]);
                    } else {
                        assert(set[w.0]);
                    }
                }
            }
            None
        } else {
            found
        }
    }

    /// Every cell with exactly one candidate, with that candidate, in row-major
    /// order.
    pub fn naked_singles(&self) -> (v: Vec<(usize, usize, u8)>)
        ensures
            forall|x: (usize, usize, u8)|
                v@.contains(x) <==> in_grid(x.0 as int, x.1 as int) && self.is_naked_single(
                    x.0 as int,
                    x.1 as int,
                    x.2 as int,
                ),
            forall|i: int, j: int|
                0 <= i < j < v@.len() ==> 9 * v@[i].0 + v@[i].1 < 9 * v@[j].0 + v@[j].1,
    {
        let mut v: Vec<(usize, usize, u8)> = Vec::new();
        let mut i: usize = 0;
        while i < 81
            invariant
                i <= 81,
                forall|x: (usize, usize, u8)|
                    v@.contains(x) <==> in_grid(x.0 as int, x.1 as int) && 9 * x.0 + x.1 < i
                        && self.is_naked_single(x.0 as int, x.1 as int, x.2 as int),
                forall|a: int, b: int|
                    0 <= a < b < v@.len() ==> 9 * v@[a].0 + v@[a].1 < 9 * v@[b].0 + v@[b].1,
                forall|a: int| 0 <= a < v@.len() ==> 9 * v@[a].0 + v@[a].1 < i,
            decreases 81 - i,
        {
            let r = i / 9;
            let c = i % 9;
            if let Some(d) = self.sole_candidate(r, c) {
                let ghost old_v = v@;
                assert(forall|x: (usize, usize, u8)|
                    old_v.contains(x) <==> in_grid(x.0 as int, x.1 as int) && 9 * x.0 + x.1 < i
                        && self.is_naked_single(x.0 as int, x.1 as int, x.2 as int));
                v.push((r, c, d));
                assert forall|x: (usize, usize, u8)|
                    v@.contains(x) <==> in_grid(x.0 as int, x.1 as int) && 9 * x.0 + x.1 < i + 1
                        && self.is_naked_single(x.0 as int, x.1 as int, x.2 as int) by {
                    if v@.contains(x) {
                        let k = choose|k: int| 0 <= k < v@.len() && v@[k] == x;
                        if k < old_v.len() {
                            assert(old_v[k] == x);
                            assert(old_v.contains(x));
                        }
                    }
                    if in_grid(x.0 as int, x.1 as int) && 9 * x.0 + x.1 < i + 1 && self.is_naked_single(
                        x.0 as int,
                        x.1 as int,
                        x.2 as int,
                    ) {
                        if 9 * x.0 + x.1 == i {
                            if x.2 != d {
                                assert(self.table()[x.0 as int][x.1 as int][x.2 as int]);
                            }
                            assert(v@[old_v.len() as int] == x);
                        } else {
                            assert(old_v.contains(x));
                            let k = choose|k: int| 0 <= k < old_v.len() && old_v[k] == x;
                            assert(v@[k] == x);
                        }
                    }
                }
            } else {
                assert forall|x: (usize, usize, u8)|
                    v@.contains(x) <==> in_grid(x.0 as int, x.1 as int) && 9 * x.0 + x.1 < i + 1
                        && self.is_naked_single(x.0 as int, x.1 as int, x.2 as int) by {
                    if 9 * x.0 + x.1 == i && in_grid(x.0 as int, x.1 as int) {
                        assert(!self.is_naked_single(r as int, c as int, x.2 as int));
                    }
                    if v@.contains(x) {
                        let k = choose|k: int| 0 <= k < v@.len() && v@[k] == x;
                        assert(v@[k] == x);
                    }
                }
            }
            i = i + 1;
        }
        v
    }

    /// The board the engine tracks.
    pub fn board(&self) -> (b: Board)
        ensures
            b == self.grid(),
    {
        self.board
    }

    /// A copy of the current candidate sets, to be handed back to `retract`.
    pub fn snapshot(&self) -> (s: Candidates)
        ensures
            s.entries() == self.table(),
    {
        self.cands
    }

    /// Whether `d` is a candidate of `(r, c)`.
    pub fn is_candidate(&self, r: usize, c: usize, d: usize) -> (b: bool)
        requires
            in_grid(r as int, c as int),
            d < 10,
        ensures
            b == self.table()[r as int][c as int][d as int],
    {
        self.cands.table[r][c][d]
    }

    /// Removes `d` from the candidate set of `(r, c)`.
    fn strike(&mut self, r: usize, c: usize, d: usize)
        requires
            in_grid(r as int, c as int),
            d < 10,
        ensures
            final(self).board == old(self).board,
            forall|a: int, b: int, e: int|
                in_grid(a, b) && 0 <= e < 10 ==> #[trigger] final(self).cands.table[a][b][e] == if a
                    == r && b == c && e == d {
                    false
                } else {
                    old(self).cands.table[a][b][e]
                },
    {
        let mut plane = self.cands.table[r];
        let mut set = plane[c];
        set[d] = false;
        plane[c] = set;
        self.cands.table[r] = plane;
    }

    /// Places `digit` at the empty cell `(row, col)` and removes it from the
    /// candidate sets of the cell's peers. Fails, with the state still
    /// updated, when a peer is left empty with no candidate.
    pub fn assign(&mut self, row: usize, col: usize, digit: u8) -> (r: Result<(), SudokuError>)
        requires
            old(self).wf(),
            in_grid(row as int, col as int),
            old(self).grid().cell(row as int, col as int) is Empty,
            1 <= digit <= 9,
        ensures
            final(self).wf(),
            final(self).grid().is_update(&old(self).grid(), row as int, col as int, Cell::Value(digit)),
            r is Ok <==> forall|a: int, b: int|
                in_grid(a, b) && is_peer(row as int, col as int, a, b) ==> !#[trigger] no_candidates(
                    final(self).grid(),
                    a,
                    b,
                ),
            r matches Err(e) ==> (e matches SudokuError::Contradiction(a, b) && in_grid(a as int, b as int)
                && is_peer(row as int, col as int, a as int, b as int) && no_candidates(
                final(self).grid(),
                a as int,
                b as int,
            )),
    {
        let ghost old_board = self.board;
        let ghost old_table = self.cands.table;
        self.board.put(row, col, Cell::Value(digit));
        let mut plane = self.cands.table[row];
        plane[col] = [false; 10];
        self.cands.table[row] = plane;
        let ps = peers(row, col);
        let mut k: usize = 0;
        while k < ps.len()
            invariant
                k <= ps@.len(),
                in_grid(row as int, col as int),
                1 <= digit <= 9,
                self.board.is_update(&old_board, row as int, col as int, Cell::Value(digit)),
                forall|p: (usize, usize)|
                    ps@.contains(p) <==> in_grid(p.0 as int, p.1 as int) && is_peer(
                        row as int,
                        col as int,
                        p.0 as int,
                        p.1 as int,
                    ),
                forall|a: int, b: int, e: int|
                    in_grid(a, b) && 0 <= e < 10 ==> #[trigger] self.cands.table[a][b][e] == if a
                        == row && b == col {
                        false
                    } else if ps@.subrange(0, k as int).contains((a as usize, b as usize)) {
                        old_table[a][b][e] && e != digit
                    } else {
                        old_table[a][b][e]
                    },
            decreases ps@.len() - k,
        {
            let (a, b) = ps[k];
            assert(ps@.contains((a, b)));
            let ghost before = self.cands.table;
            self.strike(a, b, digit as usize);
            assert forall|x: int, y: int, e: int| in_grid(x, y) && 0 <= e < 10 implies #[trigger] self.cands.table[x][y][e]
                == if x == row && y == col {
                false
            } else if ps@.subrange(0, k + 1).contains((x as usize, y as usize)) {
                old_table[x][y][e] && e != digit
            } else {
                old_table[x][y][e]
            } by {
                let p = (x as usize, y as usize);
                let pre = ps@.subrange(0, k as int);
                let post = ps@.subrange(0, k + 1);
                if post.contains(p) {
                    let j = choose|j: int| 0 <= j < post.len() && #[trigger] post[j] == p;
                    if j < k {
                        assert(pre[j] == p);
                    }
                }
                if pre.contains(p) {
                    let j = choose|j: int| 0 <= j < pre.len() && #[trigger] pre[j] == p;
                    assert(post[j] == p);
                }
                if x == a && y == b {
                    assert(post[k as int] == p);
                }
            }
            k = k + 1;
        }
        assert(ps@.subrange(0, ps@.len() as int) == ps@);
        proof {
            let nb = self.board;
            assert forall|a: int, b: int, e: int| in_grid(a, b) && 0 <= e < 10 implies #[trigger] self.cands.table[a][b][e]
                == (nb.cell(a, b) is Empty && legal(nb, a, b, e)) by {
                assert(old_table[a][b][e] == (old_board.cell(a, b) is Empty && legal(old_board, a, b, e)));
                if a == row && b == col {
                } else if is_peer(row as int, col as int, a, b) {
                    assert(ps@.contains((a as usize, b as usize)));
                    lemma_legal_near(old_board, nb, row as int, col as int, digit, a, b, e);
                } else {
                    if ps@.contains((a as usize, b as usize)) {
                    }
                    lemma_legal_away(old_board, nb, row as int, col as int, Cell::Value(digit), a, b, e);
                }
            }
            assert forall|a: int, b: int| in_grid(a, b) implies #[trigger] nb.cell(a, b).wf() by {
                assert(old_board.cell(a, b).wf());
            }
        }
        let mut k: usize = 0;
        while k < ps.len()
            invariant
                k <= ps@.len(),
                self.wf(),
                in_grid(row as int, col as int),
                old_board == old(self).grid(),
                self.board.is_update(&old_board, row as int, col as int, Cell::Value(digit)),
                forall|p: (usize, usize)|
                    ps@.contains(p) <==> in_grid(p.0 as int, p.1 as int) && is_peer(
                        row as int,
                        col as int,
                        p.0 as int,
                        p.1 as int,
                    ),
                forall|j: int|
                    0 <= j < k ==> !no_candidates(self.board, ps@[j].0 as int, ps@[j].1 as int),
            decreases ps@.len() - k,
        {
            let (a, b) = ps[k];
            assert(ps@.contains((a, b)));
            let n = self.count(a, b);
            proof {
                lemma_count_zero(self.cands.table[a as int][b as int]@, 10);
            }
            if n == 0 && self.board.0[a][b] == Cell::Empty {
                proof {
                    assert forall|d: int| 1 <= d <= 9 implies !#[trigger] legal(
                        self.board,
                        a as int,
                        b as int,
                        d,
                    ) by {
                        assert(!self.cands.table[a as int][b as int]@[d]);
                    }
                    assert(self.board.is_update(&old_board, row as int, col as int, Cell::Value(digit)));
                    assert(no_candidates(self.board, a as int, b as int));
                }
                return Err(SudokuError::Contradiction(a, b));
            }
            proof {
                if n > 0 {
                    let d = choose|d: int| 1 <= d < 10 && self.cands.table[a as int][b as int]@[d];
                    assert(self.cands.table[a as int][b as int][d]);
                }
            }
            k = k + 1;
        }
        proof {
            assert forall|a: int, b: int|
                in_grid(a, b) && is_peer(row as int, col as int, a, b) implies !#[trigger] no_candidates(
                self.board,
                a,
                b,
            ) by {
                assert(ps@.contains((a as usize, b as usize)));
                let j = choose|j: int| 0 <= j < ps@.len() && ps@[j] == (a as usize, b as usize);
            }
        }
        Ok(())
    }
}

} // verus!
