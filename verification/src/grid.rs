//! The starting grid of digits, and the board that it leads to.

use crate::board::Board;
use crate::cell::Cell;
use crate::point::{row_major, Point};
use vstd::prelude::*;

verus! {

/// A starting grid: rows of digits, 0 for a blank.
pub type Grid = [[u8; 9]; 9];

/// The digit given at `p`, 0 for a blank.
pub open spec fn given(grid: Grid, p: Point) -> u8 {
    grid[p.y as int][p.x as int]
}

/// Every entry is a digit or blank.
pub open spec fn in_range(grid: Grid) -> bool {
    forall|p: Point| p.in_grid() ==> #[trigger] given(grid, p) <= 9
}

/// The givens leave `d` possible at `p`: `d` is a digit, nothing else is
/// given at `p`, and `d` is given to no relative of `p`.
pub open spec fn allowed(grid: Grid, p: Point, d: u8) -> bool {
    &&& 1 <= d <= 9
    &&& given(grid, p) == 0 || given(grid, p) == d
    &&& forall|q: Point| q.in_grid() && #[trigger] p.related(q) ==> given(grid, q) != d
}

/// The givens leave some digit possible at `p`.
pub open spec fn has_allowed(grid: Grid, p: Point) -> bool {
    exists|d: u8| #[trigger] allowed(grid, p, d)
}

/// The givens do not contradict each other: no digit is given to two
/// relatives, and some digit is left for every blank.
pub open spec fn consistent(grid: Grid) -> bool {
    forall|p: Point| p.in_grid() ==> #[trigger] has_allowed(grid, p)
}

/// `board` is where the search on `grid` starts: the givens are fixed,
/// and every blank holds the digits that the givens leave possible there.
pub open spec fn is_start_of(board: Board, grid: Grid) -> bool {
    forall|p: Point|
        p.in_grid() ==> {
            let c = #[trigger] board.at(p);
            &&& c is Collapsed <==> given(grid, p) != 0
            &&& forall|d: u8| c.candidates().contains(d) <==> allowed(grid, p, d)
        }
}

/// A grid in which one digit is given to two relatives is not consistent.
pub proof fn lemma_duplicate_is_inconsistent(grid: Grid, p: Point, q: Point)
    requires
        p.in_grid(),
        q.in_grid(),
        p.related(q),
        given(grid, p) != 0,
        given(grid, p) == given(grid, q),
    ensures
        !consistent(grid),
{
    assert(!has_allowed(grid, p)) by {
        assert forall|d: u8| !#[trigger] allowed(grid, p, d) by {
            if d == given(grid, p) {
                assert(p.related(q));
            }
        }
    }
}

/// The givens among the first `n` positions in row-major order leave `d`
/// possible for a blank at `p`.
pub open spec fn allowed_so_far(grid: Grid, p: Point, d: u8, n: int) -> bool {
    &&& 1 <= d <= 9
    &&& forall|q: Point|
        q.in_grid() && #[trigger] p.related(q) && row_major(q) < n ==> given(grid, q) != d
}

/// The cell `c` at `p` is as it should be once the givens among the first
/// `n` positions have been placed and propagated.
pub open spec fn placed_cell(c: Cell, grid: Grid, p: Point, n: int) -> bool {
    if row_major(p) < n && given(grid, p) != 0 {
        c == Cell::Collapsed(given(grid, p)) && allowed_so_far(grid, p, given(grid, p), n)
    } else {
        c is Uncollapsed && forall|d: u8|
            c.candidates().contains(d) <==> #[trigger] allowed_so_far(grid, p, d, n)
    }
}

/// The givens among the first `n` positions have been placed on `board`
/// and propagated.
pub open spec fn placed(board: Board, grid: Grid, n: int) -> bool {
    board.wf() && forall|p: Point|
        p.in_grid() ==> placed_cell(#[trigger] board.at(p), grid, p, n)
}

/// `after` is `before` with the cell at `p` replaced by `c`.
pub open spec fn is_update_of(after: Board, before: Board, p: Point, c: Cell) -> bool {
    after.at(p) == c && forall|q: Point|
        q.in_grid() && q != p ==> #[trigger] after.at(q) == before.at(q)
}

/// A blank changes nothing.
pub proof fn lemma_place_blank(board: Board, grid: Grid, p: Point)
    requires
        p.in_grid(),
        placed(board, grid, row_major(p)),
        given(grid, p) == 0,
    ensures
        placed(board, grid, row_major(p) + 1),
{
    let n = row_major(p);
    assert forall|q: Point| q.in_grid() implies placed_cell(
        #[trigger] board.at(q),
        grid,
        q,
        n + 1,
    ) by {
        assert(placed_cell(board.at(q), grid, q, n));
        lemma_allowed_next(grid, p, q);
        if row_major(q) == n {
            assert(q == p);
        }
        if row_major(q) < n && given(grid, q) != 0 {
            assert(allowed_so_far(grid, q, given(grid, q), n + 1));
        } else {
            assert forall|d: u8|
                board.at(q).candidates().contains(d) <==> #[trigger] allowed_so_far(
                    grid,
                    q,
                    d,
                    n + 1,
                ) by {
                assert(allowed_so_far(grid, q, d, n) <==> board.at(q).candidates().contains(d));
            }
        }
    }
}

/// What placing the given at `p` changes in what is possible at `q`.
proof fn lemma_allowed_next(grid: Grid, p: Point, q: Point)
    requires
        p.in_grid(),
        q.in_grid(),
    ensures
        forall|d: u8| #[trigger]
            allowed_so_far(grid, q, d, row_major(p) + 1) <==> allowed_so_far(
                grid,
                q,
                d,
                row_major(p),
            ) && !(q.related(p) && given(grid, p) == d),
{
    let n = row_major(p);
    assert forall|d: u8| #[trigger]
        allowed_so_far(grid, q, d, n + 1) <==> allowed_so_far(grid, q, d, n) && !(q.related(p)
            && given(grid, p) == d) by {
        if allowed_so_far(grid, q, d, n + 1) {
            assert forall|r: Point|
                r.in_grid() && #[trigger] q.related(r) && row_major(r) < n implies given(grid, r)
                != d by {}
            if q.related(p) {
                assert(given(grid, p) != d);
            }
        }
        if allowed_so_far(grid, q, d, n) && !(q.related(p) && given(grid, p) == d) {
            assert forall|r: Point|
                r.in_grid() && #[trigger] q.related(r) && row_major(r) < n + 1 implies given(
                grid,
                r,
            ) != d by {
                if row_major(r) == n {
                    assert(r == p);
                }
            }
        }
    }
}

/// Placing a given whose propagation fails: the grid is not consistent.
pub proof fn lemma_place_fails(board: Board, fixed: Board, grid: Grid, p: Point)
    requires
        p.in_grid(),
        in_range(grid),
        placed(board, grid, row_major(p)),
        given(grid, p) != 0,
        is_update_of(fixed, board, p, Cell::Collapsed(given(grid, p))),
        fixed.propagation_fails(p, given(grid, p)),
    ensures
        !consistent(grid),
{
    let n = row_major(p);
    let v: u8 = given(grid, p);
    let q = choose|q: Point|
        q.in_grid() && #[trigger] p.related(q) && fixed.at(q).candidates().remove(v).len() == 0;
    assert(fixed.at(q) == board.at(q));
    assert(placed_cell(board.at(q), grid, q, n));
    assert(board.at(q).wf());
    board.at(q).lemma_candidates();
    if row_major(q) < n && given(grid, q) != 0 {
        assert(given(grid, q) == v) by {
            if given(grid, q) != v {
                assert(board.at(q).candidates().remove(v).contains(given(grid, q)));
            }
        }
        lemma_duplicate_is_inconsistent(grid, p, q);
    } else {
        assert(!has_allowed(grid, q)) by {
            assert forall|d: u8| !#[trigger] allowed(grid, q, d) by {
                if 1 <= d <= 9 {
                    if d == v {
                        assert(q.related(p));
                    } else {
                        assert(!board.at(q).candidates().contains(d)) by {
                            if board.at(q).candidates().contains(d) {
                                assert(board.at(q).candidates().remove(v).contains(d));
                            }
                        }
                        assert(!allowed_so_far(grid, q, d, n));
                    }
                }
            }
        }
    }
}

/// Placing a given whose propagation succeeds.
pub proof fn lemma_place_given(board: Board, fixed: Board, after: Board, grid: Grid, p: Point)
    requires
        p.in_grid(),
        in_range(grid),
        placed(board, grid, row_major(p)),
        given(grid, p) != 0,
        is_update_of(fixed, board, p, Cell::Collapsed(given(grid, p))),
        !fixed.propagation_fails(p, given(grid, p)),
        after.is_propagation_of(fixed, p, given(grid, p)),
        after.wf(),
    ensures
        placed(after, grid, row_major(p) + 1),
{
    let n = row_major(p);
    let v: u8 = given(grid, p);
    assert(given(grid, p) <= 9);
    assert forall|q: Point| q.in_grid() implies placed_cell(
        #[trigger] after.at(q),
        grid,
        q,
        n + 1,
    ) by {
        assert(placed_cell(board.at(q), grid, q, n));
        lemma_allowed_next(grid, p, q);
        assert(board.at(q).wf());
        board.at(q).lemma_candidates();
        if q == p {
            assert(after.at(p) == fixed.at(p));
            assert forall|r: Point|
                r.in_grid() && #[trigger] p.related(r) && row_major(r) < n + 1 implies given(
                grid,
                r,
            ) != v by {
                if given(grid, r) == v {
                    assert(fixed.at(r) == board.at(r));
                    assert(placed_cell(board.at(r), grid, r, n));
                    assert(board.at(r).candidates().remove(v) =~= Set::<u8>::empty());
                }
            }
        } else if p.related(q) {
            assert(fixed.at(q) == board.at(q));
            assert(after.at(q).is_without(board.at(q), v));
            assert(q.related(p));
            if row_major(q) < n && given(grid, q) != 0 {
                let g: u8 = given(grid, q);
                assert(g != v) by {
                    if g == v {
                        assert(board.at(q).candidates().remove(v) =~= Set::<u8>::empty());
                    }
                }
                assert(after.at(q).candidates().contains(g));
                assert(after.at(q) == Cell::Collapsed(g)) by {
                    assert(after.at(q) is Collapsed);
                    assert(after.at(q).candidates().contains(after.at(q).digit()));
                }
            } else {
                assert forall|d: u8|
                    after.at(q).candidates().contains(d) <==> #[trigger] allowed_so_far(
                        grid,
                        q,
                        d,
                        n + 1,
                    ) by {
                    assert(allowed_so_far(grid, q, d, n) <==> board.at(q).candidates().contains(
                        d,
                    ));
                }
            }
        } else {
            assert(after.at(q) == fixed.at(q));
            assert(fixed.at(q) == board.at(q));
            assert(!q.related(p));
            if !(row_major(q) < n && given(grid, q) != 0) {
                assert forall|d: u8|
                    after.at(q).candidates().contains(d) <==> #[trigger] allowed_so_far(
                        grid,
                        q,
                        d,
                        n + 1,
                    ) by {
                    assert(allowed_so_far(grid, q, d, n) <==> board.at(q).candidates().contains(
                        d,
                    ));
                }
            }
        }
    }
}

/// Once every given is placed, the grid is consistent and the board is
/// the start of the search: well-formed and propagated.
pub proof fn lemma_all_placed(board: Board, grid: Grid)
    requires
        in_range(grid),
        placed(board, grid, 81),
    ensures
        consistent(grid),
        is_start_of(board, grid),
        board.propagated(),
{
    assert forall|p: Point, d: u8| p.in_grid() implies (allowed_so_far(grid, p, d, 81) && (given(
        grid,
        p,
    ) == 0 || given(grid, p) == d) <==> #[trigger] allowed(grid, p, d)) by {
        if allowed(grid, p, d) {
            assert forall|q: Point|
                q.in_grid() && #[trigger] p.related(q) && row_major(q) < 81 implies given(grid, q)
                != d by {}
        }
    }
    assert forall|p: Point| p.in_grid() implies {
        let c = #[trigger] board.at(p);
        &&& c is Collapsed <==> given(grid, p) != 0
        &&& forall|d: u8| c.candidates().contains(d) <==> allowed(grid, p, d)
    } by {
        assert(placed_cell(board.at(p), grid, p, 81));
        let c = board.at(p);
        assert forall|d: u8| c.candidates().contains(d) <==> allowed(grid, p, d) by {
            if given(grid, p) != 0 {
                assert(given(grid, p) <= 9);
                assert(allowed_so_far(grid, p, given(grid, p), 81));
            } else {
                assert(c.candidates().contains(d) <==> allowed_so_far(grid, p, d, 81));
            }
        }
    }
    assert forall|p: Point| p.in_grid() implies #[trigger] has_allowed(grid, p) by {
        let c = board.at(p);
        assert(c.wf());
        c.lemma_candidates();
        let d: u8 = c.candidates().choose();
        assert(c.candidates().contains(d));
        assert(allowed(grid, p, d));
    }
    assert forall|p: Point, q: Point|
        p.in_grid() && q.in_grid() && #[trigger] p.related(q) && board.at(
            p,
        ) is Collapsed implies !board.at(q).candidates().contains(board.at(p).digit()) by {
        let v: u8 = board.at(p).digit();
        assert(placed_cell(board.at(p), grid, p, 81));
        assert(v == given(grid, p));
        if board.at(q).candidates().contains(v) {
            assert(allowed(grid, q, v));
            assert(q.related(p));
        }
    }
}

} // verus!
