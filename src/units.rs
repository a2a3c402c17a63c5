//! The fixed constraint structure of the board: its 27 units and the peers of
//! each cell.
use vstd::prelude::*;

verus! {

/// `(r, c)` names a cell of the board.
pub open spec fn in_grid(r: int, c: int) -> bool {
    0 <= r < 9 && 0 <= c < 9
}

/// The index of the 3×3 box holding `(r, c)`, counted row-major from 0.
pub open spec fn box_index(r: int, c: int) -> int {
    (r / 3) * 3 + c / 3
}

/// The row of the `k`-th cell of unit `u`: units `0..9` are the rows,
/// `9..18` the columns and `18..27` the boxes, each read row-major.
pub open spec fn unit_row(u: int, k: int) -> int {
    if u < 9 {
        u
    } else if u < 18 {
        k
    } else {
        ((u - 18) / 3) * 3 + k / 3
    }
}

/// The column of the `k`-th cell of unit `u` (see `unit_row`).
pub open spec fn unit_col(u: int, k: int) -> int {
    if u < 9 {
        k
    } else if u < 18 {
        u - 9
    } else {
        ((u - 18) % 3) * 3 + k % 3
    }
}

/// Two distinct cells that share a row, a column or a box.
pub open spec fn is_peer(r1: int, c1: int, r2: int, c2: int) -> bool {
    &&& !(r1 == r2 && c1 == c2)
    &&& (r1 == r2 || c1 == c2 || (r1 / 3 == r2 / 3 && c1 / 3 == c2 / 3))
}

/// The cell `k` of unit `u`.
pub fn unit_coord(u: usize, k: usize) -> (r: (usize, usize))
    requires
        u < 27,
        k < 9,
    ensures
        r.0 == unit_row(u as int, k as int),
        r.1 == unit_col(u as int, k as int),
        in_grid(r.0 as int, r.1 as int),
{
    if u < 9 {
        (u, k)
    } else if u < 18 {
        (k, u - 9)
    } else {
        (((u - 18) / 3) * 3 + k / 3, ((u - 18) % 3) * 3 + k % 3)
    }
}

/// The box holding `(r, c)`.
pub fn box_of(r: usize, c: usize) -> (b: usize)
    requires
        in_grid(r as int, c as int),
    ensures
        b == box_index(r as int, c as int),
        b < 9,
{
    (r / 3) * 3 + c / 3
}

/// Whether `(r1, c1)` and `(r2, c2)` are peers.
pub fn peer_of(r1: usize, c1: usize, r2: usize, c2: usize) -> (b: bool)
    ensures
        b == is_peer(r1 as int, c1 as int, r2 as int, c2 as int),
{
    !(r1 == r2 && c1 == c2) && (r1 == r2 || c1 == c2 || (r1 / 3 == r2 / 3 && c1 / 3 == c2 / 3))
}

/// The peers of `(r, c)`, in row-major order, each once.
pub fn peers(r: usize, c: usize) -> (v: Vec<(usize, usize)>)
    requires
        in_grid(r as int, c as int),
    ensures
        forall|p: (usize, usize)|
            v@.contains(p) <==> in_grid(p.0 as int, p.1 as int) && is_peer(
                r as int,
                c as int,
                p.0 as int,
                p.1 as int,
            ),
        forall|i: int, j: int|
            0 <= i < j < v@.len() ==> 9 * v@[i].0 + v@[i].1 < 9 * v@[j].0 + v@[j].1,
{
    let mut v: Vec<(usize, usize)> = Vec::new();
    let mut r2: usize = 0;
    while r2 < 9
        invariant
            r2 <= 9,
            in_grid(r as int, c as int),
            forall|p: (usize, usize)|
                v@.contains(p) <==> in_grid(p.0 as int, p.1 as int) && is_peer(
                    r as int,
                    c as int,
                    p.0 as int,
                    p.1 as int,
                ) && p.0 < r2,
            forall|i: int, j: int|
                0 <= i < j < v@.len() ==> 9 * v@[i].0 + v@[i].1 < 9 * v@[j].0 + v@[j].1,
            forall|i: int| 0 <= i < v@.len() ==> v@[i].0 < r2 && v@[i].1 < 9,
        decreases 9 - r2,
    {
        let mut c2: usize = 0;
        while c2 < 9
            invariant
                r2 < 9,
                c2 <= 9,
                in_grid(r as int, c as int),
                forall|p: (usize, usize)|
                    v@.contains(p) <==> in_grid(p.0 as int, p.1 as int) && is_peer(
                        r as int,
                        c as int,
                        p.0 as int,
                        p.1 as int,
                    ) && (p.0 < r2 || (p.0 == r2 && p.1 < c2)),
                forall|i: int, j: int|
                    0 <= i < j < v@.len() ==> 9 * v@[i].0 + v@[i].1 < 9 * v@[j].0 + v@[j].1,
                forall|i: int|
                    0 <= i < v@.len() ==> (v@[i].0 < r2 || (v@[i].0 == r2 && v@[i].1 < c2))
                        && v@[i].1 < 9,
            decreases 9 - c2,
        {
            if peer_of(r, c, r2, c2) {
                let ghost old_v = v@;
                assert(forall|p: (usize, usize)|
                    old_v.contains(p) <==> in_grid(p.0 as int, p.1 as int) && is_peer(
                        r as int,
                        c as int,
                        p.0 as int,
                        p.1 as int,
                    ) && (p.0 < r2 || (p.0 == r2 && p.1 < c2)));
                v.push((r2, c2));
                proof {
                    assert forall|p: (usize, usize)|
                        v@.contains(p) <==> in_grid(p.0 as int, p.1 as int) && is_peer(
                            r as int,
                            c as int,
                            p.0 as int,
                            p.1 as int,
                        ) && (p.0 < r2 || (p.0 == r2 && p.1 < c2 + 1)) by {
                        if v@.contains(p) {
                            let i = choose|i: int| 0 <= i < v@.len() && v@[i] == p;
                            if i < old_v.len() {
                                assert(old_v.contains(p));
                            }
                        }
                        if p == (r2, c2) {
                            assert(v@[old_v.len() as int] == p);
                        } else if in_grid(p.0 as int, p.1 as int) && is_peer(
                            r as int,
                            c as int,
                            p.0 as int,
                            p.1 as int,
                        ) && (p.0 < r2 || (p.0 == r2 && p.1 < c2)) {
                            assert(old_v.contains(p));
                            let i = choose|i: int| 0 <= i < old_v.len() && old_v[i] == p;
                            assert(v@[i] == p);
                        }
                    }
                }
            } else {
                proof {
                    assert forall|p: (usize, usize)|
                        v@.contains(p) <==> in_grid(p.0 as int, p.1 as int) && is_peer(
                            r as int,
                            c as int,
                            p.0 as int,
                            p.1 as int,
                        ) && (p.0 < r2 || (p.0 == r2 && p.1 < c2 + 1)) by {
                        if v@.contains(p) {
                            let i = choose|i: int| 0 <= i < v@.len() && v@[i] == p;
                            assert(v@[i] == p);
                        }
                    }
                }
            }
            c2 = c2 + 1;
        }
        r2 = r2 + 1;
    }
    v
}

} // verus!
