//! What holds of the solver as a whole: theorems that tie its operations
//! together.

use crate::board::Board;
use crate::grid::{allowed, given, is_start_of, Grid};
use crate::point::{row_major, Point};
use crate::sudoku::SudokuSolver;
use vstd::prelude::*;

verus! {

/// `s` is a solution of `grid`: a correct board that shows every given
/// digit where it was given.
pub open spec fn solves(s: Board, grid: Grid) -> bool {
    s.correct() && forall|p: Point|
        p.in_grid() && given(grid, p) != 0 ==> (#[trigger] s.at(p)).digit() == given(grid, p)
}

/// The correct boards within the starting board of a grid are the
/// solutions of that grid: propagating the givens loses none of them.
pub proof fn lemma_start_holds_solutions(start: Board, grid: Grid, s: Board)
    requires
        is_start_of(start, grid),
        s.correct(),
    ensures
        s.refines(start) <==> solves(s, grid),
{
    s.lemma_correct_is_propagated();
    if s.refines(start) {
        assert forall|p: Point| p.in_grid() && given(grid, p) != 0 implies (#[trigger] s.at(
            p,
        )).digit() == given(grid, p) by {
            let c = start.at(p);
            assert(s.at(p) is Collapsed);
            assert(s.at(p).candidates().contains(s.at(p).digit()));
            assert(s.at(p).candidates().subset_of(c.candidates()));
            assert(allowed(grid, p, s.at(p).digit()));
        }
    }
    if solves(s, grid) {
        assert forall|p: Point| p.in_grid() implies (#[trigger] s.at(p)).candidates().subset_of(
            start.at(p).candidates(),
        ) by {
            let d: u8 = s.at(p).digit();
            assert(s.at(p) is Collapsed && s.at(p).wf());
            assert(allowed(grid, p, d)) by {
                assert forall|q: Point| q.in_grid() && #[trigger] p.related(q) implies given(
                    grid,
                    q,
                ) != d by {
                    assert(s.at(q) is Collapsed);
                    assert(!s.at(q).candidates().contains(d));
                    if given(grid, q) != 0 {
                        assert(s.at(q).digit() == given(grid, q));
                    }
                }
            }
            assert(start.at(p).candidates().contains(d));
        }
    }
}

/// A solver fresh from a grid can be solved exactly when the grid has a
/// solution, and what it reaches are the solutions of the grid.
pub proof fn lemma_fresh_solver_reaches_solutions(solver: SudokuSolver, grid: Grid)
    requires
        is_start_of(solver.board(), grid),
        solver.checkpoints().len() == 0,
    ensures
        forall|s: Board| s.correct() ==> (#[trigger] solver.admits(s) <==> solves(s, grid)),
        solver.solvable() <==> exists|s: Board| #[trigger] solves(s, grid),
{
    assert forall|s: Board| s.correct() implies (#[trigger] solver.admits(s) <==> solves(
        s,
        grid,
    )) by {
        lemma_start_holds_solutions(solver.board(), grid, s);
    }
    if solver.solvable() {
        let s = choose|s: Board| s.correct() && #[trigger] solver.admits(s);
        assert(solves(s, grid));
    }
    if exists|s: Board| #[trigger] solves(s, grid) {
        let s = choose|s: Board| #[trigger] solves(s, grid);
        assert(solver.admits(s));
    }
}

/// Where a grid has one solution only, every correct board that a fresh
/// solver reaches shows that solution.
pub proof fn lemma_unique_solution_is_found(
    solver: SudokuSolver,
    grid: Grid,
    solution: Board,
    found: Board,
)
    requires
        is_start_of(solver.board(), grid),
        solver.checkpoints().len() == 0,
        solves(solution, grid),
        forall|s: Board, p: Point|
            #[trigger] solves(s, grid) && p.in_grid() ==> #[trigger] s.at(p) == solution.at(p),
        found.correct(),
        solver.admits(found),
    ensures
        solver.solvable(),
        forall|p: Point| p.in_grid() ==> #[trigger] found.at(p) == solution.at(p),
{
    lemma_fresh_solver_reaches_solutions(solver, grid);
    assert(solves(found, grid));
}

/// The verdict of `check_if_correct` rests on the live board alone: two
/// solvers with the same live board get the same verdict, whatever else
/// they hold, and however often they ask.
pub proof fn lemma_verdict_depends_on_board(a: SudokuSolver, b: SudokuSolver)
    requires
        a.board() == b.board(),
    ensures
        a.board().correct() == b.board().correct(),
{
}

/// A checkpoint never leads back to the choice that was made when it was
/// saved: the shadow of a step does not allow the digit that the step
/// fixed, so the retry from the shadow fixes a larger one.
pub proof fn lemma_checkpoint_excludes_choice(before: Board, after: Board, shadow: Board, p: Point)
    requires
        before.wf(),
        p.in_grid(),
        before.at(p) is Uncollapsed,
        after.is_step_of(before, p),
        shadow.is_shadow_of(before, p),
    ensures
        !shadow.at(p).candidates().contains(after.at(p).digit()),
        shadow.at(p).lowest() > after.at(p).digit(),
        forall|retry: Board|
            #[trigger] retry.is_step_of(shadow, p) ==> retry.at(p).digit() != after.at(p).digit(),
{
    before.lemma_lowest(p);
    shadow.at(p).lemma_has_lowest();
    assert(before.at(p).candidates().contains(shadow.at(p).lowest()));
}

/// A step is determined by the board and the cell: two boards that a step
/// at `p` can lead to allow the same digits everywhere, in cells of the
/// same kind.
pub proof fn lemma_step_is_determined(before: Board, a: Board, b: Board, p: Point)
    requires
        p.in_grid(),
        a.is_step_of(before, p),
        b.is_step_of(before, p),
    ensures
        forall|q: Point|
            q.in_grid() ==> (#[trigger] a.at(q)).candidates() == b.at(q).candidates() && (a.at(
                q,
            ) is Collapsed <==> b.at(q) is Collapsed),
{
    let v: u8 = before.at(p).lowest();
    assert forall|q: Point| q.in_grid() implies (#[trigger] a.at(q)).candidates() == b.at(
        q,
    ).candidates() && (a.at(q) is Collapsed <==> b.at(q) is Collapsed) by {
        if q != p {
            if p.related(q) {
                assert(a.at(q).is_without(before.at(q), v));
                assert(b.at(q).is_without(before.at(q), v));
            } else {
                assert(a.at(q) == before.at(q));
                assert(b.at(q) == before.at(q));
            }
        }
    }
}

/// The cell that the search takes next is determined by the board: no
/// two cells are selected.
pub proof fn lemma_selection_is_unique(board: Board, p: Point, q: Point)
    requires
        board.selects(p),
        board.selects(q),
    ensures
        p == q,
{
    assert(row_major(p) == row_major(q));
}

/// Among open cells with the same number of candidates the selected one
/// comes first in row-major order, and no open cell has fewer.
pub proof fn lemma_selection_breaks_ties(board: Board, p: Point, q: Point)
    requires
        board.selects(p),
        q.in_grid(),
        board.at(q) is Uncollapsed,
    ensures
        board.at(p).entropy() <= board.at(q).entropy(),
        board.at(q).entropy() == board.at(p).entropy() ==> row_major(p) <= row_major(q),
{
}

} // verus!
