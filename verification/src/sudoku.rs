//! The solver: propagation of fixed digits, lowest-entropy selection and
//! checkpointed backtracking.

use crate::board::Board;
use crate::cell::Cell;
use crate::counting::{digits_up_to, lemma_each_digit_once};
use crate::grid::{
    consistent, given, in_range, is_start_of, lemma_all_placed, lemma_place_blank,
    lemma_place_fails, lemma_place_given, placed, placed_cell,
};
use crate::point::{
    column_points, lemma_relatives_listed, region_index, region_points, region_relatives,
    row_major, row_points, Point,
};
use crate::render::{board_text, render};
use crate::search::pending;
use std::collections::HashSet;
use vstd::arithmetic::power2::pow2;
use vstd::prelude::*;
use vstd::string::StringExecFns;

verus! {

/// The starting digits contradict each other.
#[derive(Debug, Clone)]
pub struct ErrorSudokuContainsAContradiction;

/// Every branch of the search ended in a contradiction.
#[derive(Debug, Clone)]
pub struct SudokuIsUnsolvable;

impl ErrorSudokuContainsAContradiction {
    /// The message that goes with the error.
    pub fn to_string(&self) -> (message: String)
        ensures
            message@
                == "The sudoku cannot be solved because it contains a contradiction in the initial state"@,
    {
        String::from_str(
            "The sudoku cannot be solved because it contains a contradiction in the initial state",
        )
    }
}

impl SudokuIsUnsolvable {
    /// The message that goes with the error.
    pub fn to_string(&self) -> (message: String)
        ensures
            message@
                == "The sudoku contains a contradiction that could not be detected when initializing the SudokuSolver"@,
    {
        String::from_str(
            "The sudoku contains a contradiction that could not be detected when initializing the SudokuSolver",
        )
    }
}

/// A board under search, with the boards to which the search can go back.
#[derive(Debug, Clone)]
pub struct SudokuSolver {
    board: Board,
    previous_states: Vec<Board>,
}

impl SudokuSolver {
    /// The live board.
    pub closed spec fn board(&self) -> Board {
        self.board
    }

    /// The saved boards, the most recent last.
    pub closed spec fn checkpoints(&self) -> Seq<Board> {
        self.previous_states@
    }

    /// Every saved board is well-formed and propagated, and each has more
    /// open cells than the boards saved after it.
    pub open spec fn checkpoints_wf(&self) -> bool {
        &&& forall|i: int|
            0 <= i < self.checkpoints().len() ==> (#[trigger] self.checkpoints()[i]).wf()
                && self.checkpoints()[i].propagated()
        &&& forall|i: int, j: int|
            #![trigger self.checkpoints()[i], self.checkpoints()[j]]
            0 <= i < j < self.checkpoints().len() ==> self.checkpoints()[i].open_cells()
                >= self.checkpoints()[j].open_cells() + (j - i)
    }

    /// The live board and every saved board are well-formed and
    /// propagated, and every saved board has more open cells than the
    /// boards saved after it and than the live board.
    pub open spec fn wf(&self) -> bool {
        &&& self.board().wf()
        &&& self.board().propagated()
        &&& self.checkpoints_wf()
        &&& forall|i: int|
            0 <= i < self.checkpoints().len() ==> (#[trigger] self.checkpoints()[i]).open_cells()
                >= self.board().open_cells() + (self.checkpoints().len() - i)
    }

    /// The checkpoints of `after` are those of `self`, with the shadow of
    /// the collapse at `p` on top where the cell at `p` had more than one
    /// candidate.
    pub open spec fn saves_shadow(&self, after: SudokuSolver, p: Point) -> bool {
        if self.board().at(p).entropy() > 1 {
            &&& after.checkpoints().len() == self.checkpoints().len() + 1
            &&& after.checkpoints().drop_last() == self.checkpoints()
            &&& after.checkpoints().last().is_shadow_of(self.board(), p)
        } else {
            after.checkpoints() == self.checkpoints()
        }
    }

    /// `after` is what one step of the search at the open cell `p` makes of
    /// `self`. The step succeeds unless propagation leaves a relative of
    /// `p` without a candidate; it then leaves the board with `p` fixed
    /// and its digit ruled out for all relatives of `p`. After a failed
    /// step only the checkpoints are of use.
    pub open spec fn collapse_step(&self, after: SudokuSolver, p: Point, ok: bool) -> bool {
        &&& self.saves_shadow(after, p)
        &&& ok <==> !self.board().propagation_fails(p, self.board().at(p).lowest())
        &&& ok ==> after.board().is_step_of(self.board(), p)
    }

    /// `other` holds the same boards.
    pub open spec fn same_state(&self, other: SudokuSolver) -> bool {
        self.board() == other.board() && self.checkpoints() == other.checkpoints()
    }

    /// `after` is `self` gone back to its most recent checkpoint.
    pub open spec fn goes_back_to(&self, after: SudokuSolver) -> bool {
        &&& self.checkpoints().len() > 0
        &&& after.board() == self.checkpoints().last()
        &&& after.checkpoints() == self.checkpoints().drop_last()
    }

    /// `after` is what one round of the search makes of `self`, where the
    /// search goes on: a step at the selected cell, followed, where the
    /// step fails, by going back to the most recent checkpoint.
    pub open spec fn search_round(&self, after: SudokuSolver) -> bool {
        exists|p: Point|
            #![trigger self.board().selects(p)]
            self.board().selects(p) && (self.collapse_step(after, p, true) || exists|
                failed: SudokuSolver,
            |
                #![trigger self.collapse_step(failed, p, false)]
                self.collapse_step(failed, p, false) && failed.goes_back_to(after))
    }

    /// The round that ends the search without success: the step at the
    /// selected cell fails, and `after` it no checkpoint is left.
    pub open spec fn search_fails(&self, after: SudokuSolver) -> bool {
        exists|p: Point|
            #![trigger self.board().selects(p)]
            self.board().selects(p) && self.collapse_step(after, p, false)
                && after.checkpoints().len() == 0
    }

    /// `trace` lists the states of a search from `self`, round by round,
    /// up to the state `end` in which it stops: with a complete board
    /// where `ok`, else with a failed step and no checkpoint.
    pub open spec fn runs(&self, trace: Seq<SudokuSolver>, end: SudokuSolver, ok: bool) -> bool {
        &&& trace.len() > 0
        &&& self.same_state(trace[0])
        &&& forall|i: int|
            0 <= i < trace.len() - 1 ==> (#[trigger] trace[i]).search_round(trace[i + 1])
        &&& if ok {
            trace.last().same_state(end) && end.board().complete()
        } else {
            trace.last().search_fails(end)
        }
    }

    /// `s` lies within one of the saved boards.
    pub open spec fn parked(&self, s: Board) -> bool {
        exists|i: int|
            0 <= i < self.checkpoints().len() && s.refines(#[trigger] self.checkpoints()[i])
    }

    /// `s` lies within what the search can still reach: the live board or
    /// one of the saved boards.
    pub open spec fn admits(&self, s: Board) -> bool {
        s.refines(self.board()) || self.parked(s)
    }

    /// Some correct board lies within what the search can still reach.
    pub open spec fn solvable(&self) -> bool {
        exists|s: Board| s.correct() && #[trigger] self.admits(s)
    }

    /// An upper bound on the steps that the search can still take.
    pub open spec fn effort(&self) -> nat {
        pow2(self.board().open_choices()) + pending(self.checkpoints())
    }

    /// What a row-major scan for the open cell of lowest entropy knows
    /// after the first `n` positions: the best cell among them, with its
    /// entropy, or that all of them are fixed.
    spec fn scanned(&self, best: Option<Point>, lowest: u8, n: int) -> bool {
        match best {
            None => lowest == u8::MAX && forall|q: Point|
                q.in_grid() && row_major(q) < n ==> (#[trigger] self.board.at(q)) is Collapsed,
            Some(p) => {
                &&& p.in_grid()
                &&& row_major(p) < n
                &&& self.board.at(p) is Uncollapsed
                &&& lowest == self.board.at(p).entropy()
                &&& forall|q: Point|
                    q.in_grid() && row_major(q) < n && (#[trigger] self.board.at(q)) is Uncollapsed
                        ==> self.board.at(p).entropy() < self.board.at(q).entropy() || (
                    self.board.at(p).entropy() == self.board.at(q).entropy() && row_major(p)
                        <= row_major(q))
            },
        }
    }

    /// Sets up the search on a starting grid: every given digit is fixed
    /// and propagated. Fails exactly when the givens contradict each
    /// other.
    pub fn new(starting_state: [[u8; 9]; 9]) -> (r: Result<
        Self,
        ErrorSudokuContainsAContradiction,
    >)
        requires
            in_range(starting_state),
        ensures
            r is Ok <==> consistent(starting_state),
            r matches Ok(solver) ==> solver.wf() && solver.checkpoints().len() == 0
                && is_start_of(solver.board(), starting_state),
    {
        let mut sudoku = SudokuSolver {
            board: Board::new(),
            previous_states: Vec::with_capacity(81),
        };
        proof {
            assert forall|p: Point| p.in_grid() implies placed_cell(
                #[trigger] sudoku.board().at(p),
                starting_state,
                p,
                0,
            ) by {}
        }

        for y in 0..9usize
            invariant
                in_range(starting_state),
                sudoku.checkpoints().len() == 0,
                placed(sudoku.board(), starting_state, 9 * y),
        {
            for x in 0..9usize
                invariant
                    y < 9,
                    in_range(starting_state),
                    sudoku.checkpoints().len() == 0,
                    placed(sudoku.board(), starting_state, 9 * y + x),
            {
                let cell: u8 = starting_state[y][x];
                let here = Point::new(x, y);
                let ghost before = sudoku.board();
                proof {
                    assert(given(starting_state, here) == cell);
                    assert(cell <= 9);
                }
                if cell == 0 {
                    proof {
                        lemma_place_blank(before, starting_state, here);
                    }
                } else {
                    *sudoku.get_cell_mut(&here) = Cell::new_filled(cell);
                    let ghost fixed = sudoku.board();
                    proof {
                        assert forall|q: Point| q.in_grid() implies (#[trigger] fixed.at(
                            q,
                        )).wf() by {
                            if q != here {
                                assert(before.at(q).wf());
                            }
                        }
                    }
                    match sudoku.propagate_collapse(here, cell) {
                        Ok(()) => {
                            proof {
                                lemma_place_given(
                                    before,
                                    fixed,
                                    sudoku.board(),
                                    starting_state,
                                    here,
                                );
                            }
                        },
                        Err(_) => {
                            proof {
                                lemma_place_fails(before, fixed, starting_state, here);
                            }
                            return Err(ErrorSudokuContainsAContradiction);
                        },
                    }
                }
            }
        }
        proof {
            lemma_all_placed(sudoku.board(), starting_state);
        }
        Ok(sudoku)
    }

    /// How many boards are saved for going back to.
    pub fn checkpoint_count(&self) -> (n: usize)
        ensures
            n == self.checkpoints().len(),
    {
        self.previous_states.len()
    }

    /// The cell of the live board at `cell_coords`.
    pub fn get_cell(&self, cell_coords: &Point) -> (cell: &Cell)
        requires
            cell_coords.in_grid(),
        ensures
            *cell == self.board().at(*cell_coords),
    {
        self.board.get(cell_coords)
    }

    /// Mutable access to one cell of the live board; nothing else changes.
    pub fn get_cell_mut(&mut self, cell_coords: &Point) -> (cell: &mut Cell)
        requires
            cell_coords.in_grid(),
        ensures
            *cell == old(self).board().at(*cell_coords),
            final(self).board().at(*cell_coords) == *final(cell),
            forall|q: Point|
                q.in_grid() && q != *cell_coords ==> final(self).board().at(q) == old(
                    self,
                ).board().at(q),
            final(self).checkpoints() == old(self).checkpoints(),
    {
        self.board.get_mut(cell_coords)
    }

    /// The top left corner of the region that the cell belongs to.
    pub fn get_region_coords(&self, cell_coords: Point) -> (origin: Point)
        requires
            cell_coords.in_grid(),
        ensures
            origin == cell_coords.region_origin(),
    {
        Point::new(cell_coords.x / 3, cell_coords.y / 3) * 3
    }

    /// The nine positions of the region that holds `point`, row by row.
    pub fn get_region(&self, point: Point) -> (points: Vec<Point>)
        requires
            point.in_grid(),
        ensures
            points@ == region_points(point),
    {
        let mut points: Vec<Point> = Vec::with_capacity(9);
        let region_coords = self.get_region_coords(point);
        for y in region_coords.y..region_coords.y + 3
            invariant
                region_coords == point.region_origin(),
                point.in_grid(),
                points@ == region_points(point).subrange(0, 3 * (y - region_coords.y)),
        {
            for x in region_coords.x..region_coords.x + 3
                invariant
                    region_coords == point.region_origin(),
                    point.in_grid(),
                    region_coords.y <= y < region_coords.y + 3,
                    points@ == region_points(point).subrange(
                        0,
                        3 * (y - region_coords.y) + (x - region_coords.x),
                    ),
            {
                points.push(Point::new(x, y));
            }
        }
        points
    }

    /// The open cell with the fewest candidates, the first such cell in
    /// row-major order; `None` when every cell is fixed.
    pub fn get_coords_of_uncollapsed_cell_with_lowest_entropy(&self) -> (found: Option<Point>)
        ensures
            found is None <==> self.board().complete(),
            found matches Some(p) ==> self.board().selects(p),
    {
        let mut cell: Option<Point> = None;
        let mut lowest_entropy: u8 = u8::MAX;
        for y in 0..9usize
            invariant
                self.scanned(cell, lowest_entropy, 9 * y),
        {
            for x in 0..9usize
                invariant
                    y < 9,
                    self.scanned(cell, lowest_entropy, 9 * y + x),
            {
                let here = Point::new(x, y);
                let current_cell = self.get_cell(&here);
                match current_cell {
                    Cell::Collapsed(_) => {},
                    Cell::Uncollapsed(_) => {
                        let current_entropy: u8 = current_cell.get_entropy();
                        if current_entropy < lowest_entropy {
                            lowest_entropy = current_entropy;
                            cell = Some(here);
                        }
                    },
                }
            }
        }
        cell
    }

    /// Searches until the board is complete or nothing is left to try:
    /// steps while they succeed, and goes back to the most recent
    /// checkpoint when one meets a contradiction. Succeeds exactly when a
    /// correct board lies within reach; the live board is then such a
    /// board. After a failure the live board holds nothing of use.
    pub fn solve(&mut self) -> (r: Result<(), SudokuIsUnsolvable>)
        requires
            old(self).wf(),
        ensures
            r is Ok <==> old(self).solvable(),
            r is Ok ==> final(self).wf(),
            r is Ok ==> final(self).board().complete() && final(self).board().correct(),
            r is Ok ==> old(self).admits(final(self).board()),
            r is Err ==> final(self).checkpoints().len() == 0,
            final(self).board().wf(),
            exists|trace: Seq<SudokuSolver>| #[trigger] old(self).runs(trace, *final(self), r is Ok),
    {
        let mut solved = false;
        let ghost mut trace: Seq<SudokuSolver> = seq![*self];

        while !solved
            invariant_except_break
                self.wf(),
                solved ==> self.board().complete() && old(self).admits(self.board()),
                forall|s: Board| s.correct() && #[trigger] old(self).admits(s) ==> self.admits(s),
                forall|s: Board| #[trigger] self.admits(s) ==> old(self).admits(s),
                trace.len() > 0,
                old(self).same_state(trace[0]),
                forall|i: int|
                    0 <= i < trace.len() - 1 ==> (#[trigger] trace[i]).search_round(trace[i + 1]),
                trace.last().same_state(*self),
            ensures
                old(self).runs(trace, *self, solved),
                self.board().wf(),
                solved ==> self.wf() && self.board().complete() && old(self).admits(self.board()),
                !solved ==> self.checkpoints().len() == 0 && !old(self).solvable(),
            decreases
                    if solved {
                        0
                    } else {
                        1 + self.effort()
                    },
        {
            let ghost before = *self;
            match self.solve_iteration() {
                Ok(true) => {
                    solved = true;
                    proof {
                        before.lemma_same_reach(*self);
                        self.board().lemma_refines_self();
                        assert(before.admits(self.board()));
                        assert forall|s: Board| #[trigger] self.admits(s) implies old(self).admits(
                            s,
                        ) by {
                            assert(before.admits(s));
                        }
                    }
                },
                Ok(false) => {
                    proof {
                        let p = choose|p: Point|
                            before.board().selects(p) && #[trigger] before.collapse_step(
                                *self,
                                p,
                                true,
                            );
                        before.lemma_collapse_step(*self, p, true);
                        assert(trace.last().search_round(*self)) by {
                            assert(trace.last().board().selects(p));
                            assert(trace.last().collapse_step(*self, p, true));
                        }
                        trace = trace.push(*self);
                        assert forall|s: Board| #[trigger] self.admits(s) implies old(self).admits(
                            s,
                        ) by {
                            assert(before.admits(s));
                        }
                        assert forall|s: Board|
                            s.correct() && #[trigger] old(self).admits(s) implies self.admits(
                            s,
                        ) by {
                            assert(before.admits(s));
                        }
                    }
                },
                Err(_) => {
                    let ghost failed = *self;
                    let ghost p = choose|p: Point|
                        before.board().selects(p) && #[trigger] before.collapse_step(
                            failed,
                            p,
                            false,
                        );
                    proof {
                        before.lemma_collapse_step(failed, p, false);
                        assert(trace.last().board().selects(p));
                        assert(trace.last().collapse_step(failed, p, false));
                    }
                    match self.previous_states.pop() {
                        Some(previous_state) => {
                            self.board = previous_state;
                            proof {
                                assert(self.checkpoints() =~= failed.checkpoints().drop_last());
                                assert(failed.goes_back_to(*self));
                                assert(trace.last().search_round(*self));
                                trace = trace.push(*self);
                                failed.lemma_go_back(*self);
                                assert forall|s: Board| #[trigger] self.admits(s) implies old(
                                    self,
                                ).admits(s) by {
                                    assert(failed.parked(s));
                                    assert(before.admits(s));
                                }
                                assert forall|s: Board|
                                    s.correct() && #[trigger] old(self).admits(
                                        s,
                                    ) implies self.admits(s) by {
                                    assert(before.admits(s));
                                    assert(failed.parked(s));
                                }
                            }
                        },
                        None => {
                            proof {
                                assert(trace.last().search_fails(*self));
                                assert forall|s: Board| s.correct() implies !#[trigger] old(
                                    self,
                                ).admits(s) by {
                                    if old(self).admits(s) {
                                        assert(before.admits(s));
                                        assert(failed.parked(s));
                                    }
                                }
                            }
                            break ;
                        },
                    }
                },
            }
        }

        let r = if solved {
            Ok(())
        } else {
            Err(SudokuIsUnsolvable)
        };
        proof {
            if solved {
                self.board().lemma_propagated_is_correct();
            }
            assert(old(self).runs(trace, *self, r is Ok));
        }
        r
    }

    /// One step of the search: the open cell of lowest entropy is fixed
    /// and its digit propagated. `Ok(true)` says that no cell is open and
    /// nothing was done, `Ok(false)` that the step succeeded, `Err` that it
    /// met a contradiction.
    pub fn solve_iteration(&mut self) -> (r: Result<bool, ()>)
        requires
            old(self).wf(),
        ensures
            final(self).board().wf(),
            final(self).checkpoints_wf(),
            r is Ok ==> final(self).wf(),
            r == Ok::<bool, ()>(true) <==> old(self).board().complete(),
            old(self).board().complete() ==> final(self).board() == old(self).board(),
            old(self).board().complete() ==> final(self).checkpoints() == old(self).checkpoints(),
            !old(self).board().complete() ==> exists|p: Point|
                old(self).board().selects(p) && #[trigger] old(self).collapse_step(
                    *final(self),
                    p,
                    r is Ok,
                ),
    {
        match self.get_coords_of_uncollapsed_cell_with_lowest_entropy() {
            Some(cell_coords) => {
                let r = match self.collapse_cell_and_save_state(cell_coords) {
                    Ok(()) => Ok(false),
                    Err(e) => Err(e),
                };
                proof {
                    assert(old(self).collapse_step(*self, cell_coords, r is Ok));
                }
                r
            },
            None => Ok(true),
        }
    }

    /// Fixes the open cell at `cell_coords` to its smallest candidate and
    /// propagates that digit. Where the cell had other candidates, a
    /// checkpoint is saved first: the board as it was, with the chosen digit
    /// ruled out for that cell.
    pub fn collapse_cell_and_save_state(&mut self, cell_coords: Point) -> (r: Result<(), ()>)
        requires
            cell_coords.in_grid(),
            old(self).wf(),
            old(self).board().at(cell_coords) is Uncollapsed,
        ensures
            old(self).collapse_step(*final(self), cell_coords, r is Ok),
            final(self).board().wf(),
            final(self).checkpoints_wf(),
            r is Ok ==> final(self).wf(),
    {
        let ghost before = self.board();
        let cell = self.get_cell_mut(&cell_coords);
        let should_save = cell.get_entropy() > 1;
        let value_with_collapsed_num_removed = cell.collapse();
        let collapsed_to_num: u8 = match *cell {
            Cell::Collapsed(v) => v,
            Cell::Uncollapsed(_) => vstd::pervasive::unreached(),
        };
        let ghost fixed = self.board();
        proof {
            before.lemma_collapse_keeps_wf(fixed, cell_coords);
        }

        if should_save {
            let mut board = self.board.clone();
            *board.get_mut(&cell_coords) = value_with_collapsed_num_removed;
            self.previous_states.push(board);
            proof {
                assert(board.is_shadow_of(before, cell_coords));
                assert(self.checkpoints().drop_last() =~= old(self).checkpoints());
            }
        }
        let propagated = self.propagate_collapse(cell_coords, collapsed_to_num);
        proof {
            fixed.lemma_step_in_two(before, self.board(), cell_coords, propagated is Ok);
            old(self).lemma_step_keeps_wf(*self, cell_coords, propagated is Ok);
        }
        propagated?;
        Ok(())
    }

    /// Rules `value`, now fixed at `cell_coords`, out for every relative of
    /// that cell. Fails when a relative would be left without a candidate;
    /// the relatives reached before it have then lost `value` already.
    pub fn propagate_collapse(&mut self, cell_coords: Point, value: u8) -> (r: Result<(), ()>)
        requires
            cell_coords.in_grid(),
            old(self).board().wf(),
        ensures
            final(self).checkpoints() == old(self).checkpoints(),
            final(self).board().wf(),
            r is Err <==> old(self).board().propagation_fails(cell_coords, value),
            r is Ok ==> final(self).board().is_propagation_of(
                old(self).board(),
                cell_coords,
                value,
            ),
            forall|q: Point|
                q.in_grid() && !cell_coords.related(q) ==> #[trigger] final(self).board().at(q)
                    == old(self).board().at(q),
            r is Err ==> forall|q: Point|
                q.in_grid() && cell_coords.related(q) ==> {
                    let c = #[trigger] final(self).board().at(q);
                    c == old(self).board().at(q) || c.is_without(old(self).board().at(q), value)
                },
    {
        let relatives_coords = self.get_relatives(cell_coords);
        for i in 0..relatives_coords.len()
            invariant
                relatives_coords@.no_duplicates(),
                forall|k: int|
                    0 <= k < relatives_coords@.len() ==> (#[trigger] relatives_coords@[k]).in_grid()
                        && cell_coords.related(relatives_coords@[k]),
                forall|q: Point|
                    q.in_grid() && #[trigger] cell_coords.related(q) ==> relatives_coords@.contains(
                        q,
                    ),
                self.checkpoints() == old(self).checkpoints(),
                self.board().wf(),
                forall|q: Point|
                    q.in_grid() && !relatives_coords@.contains(q) ==> #[trigger] self.board().at(q)
                        == old(self).board().at(q),
                forall|k: int|
                    i <= k < relatives_coords@.len() ==> self.board().at(
                        #[trigger] relatives_coords@[k],
                    ) == old(self).board().at(relatives_coords@[k]),
                forall|k: int|
                    0 <= k < i ==> self.board().at(#[trigger] relatives_coords@[k]).is_without(
                        old(self).board().at(relatives_coords@[k]),
                        value,
                    ) && old(self).board().at(relatives_coords@[k]).candidates().remove(
                        value,
                    ).len() != 0,
        {
            let relative_cords = relatives_coords[i];
            let ghost before = self.board();
            let removed = self.get_cell_mut(&relative_cords).remove(value);
            proof {
                assert forall|q: Point| q.in_grid() implies (#[trigger] self.board().at(q)).wf() by {
                    if q != relative_cords {
                        assert(before.at(q).wf());
                    }
                }
                assert forall|k: int| i < k < relatives_coords@.len() implies self.board().at(
                    #[trigger] relatives_coords@[k],
                ) == old(self).board().at(relatives_coords@[k]) by {
                    assert(relatives_coords@[k] != relatives_coords@[i as int]);
                    assert(before.at(relatives_coords@[k]) == old(self).board().at(
                        relatives_coords@[k],
                    ));
                }
                assert forall|k: int| 0 <= k < i implies self.board().at(
                    #[trigger] relatives_coords@[k],
                ) == before.at(relatives_coords@[k]) by {
                    assert(relatives_coords@[k] != relatives_coords@[i as int]);
                }
            }
            if removed.is_err() {
                proof {
                    assert forall|q: Point|
                        q.in_grid() && cell_coords.related(q) implies {
                        let c = #[trigger] self.board().at(q);
                        c == old(self).board().at(q) || c.is_without(
                            old(self).board().at(q),
                            value,
                        )
                    } by {
                        let k = choose|k: int|
                            0 <= k < relatives_coords@.len() && relatives_coords@[k] == q;
                        assert(relatives_coords@[k] == q);
                    }
                }
                return Err(());
            }
        }
        proof {
            assert forall|q: Point| q.in_grid() && cell_coords.related(q) implies (
            #[trigger] self.board().at(q)).is_without(old(self).board().at(q), value) && old(
                self,
            ).board().at(q).candidates().remove(value).len() != 0 by {
                let k = choose|k: int|
                    0 <= k < relatives_coords@.len() && relatives_coords@[k] == q;
                assert(relatives_coords@[k] == q);
            }
        }
        Ok(())
    }

    /// The relatives of a cell: the other positions of its row, of its
    /// column and of its region, each of them once.
    pub fn get_relatives(&self, cell_coords: Point) -> (relatives: Vec<Point>)
        requires
            cell_coords.in_grid(),
        ensures
            relatives@.no_duplicates(),
            forall|q: Point| relatives@.contains(q) <==> q.in_grid() && cell_coords.related(q),
            relatives@.len() == 20,
    {
        let mut relatives: Vec<Point> = Vec::with_capacity(20);
        let row = self.get_row(cell_coords.y);
        for i in 0..9usize
            invariant
                cell_coords.in_grid(),
                row@ == row_points(cell_coords.y),
                relatives@.len() == if i > cell_coords.x { i - 1 } else { i as int },
                forall|k: int|
                    0 <= k < relatives@.len() ==> (#[trigger] relatives@[k]).y == cell_coords.y
                        && relatives@[k].x == if k < cell_coords.x { k } else { k + 1 },
        {
            if row[i].x != cell_coords.x {
                relatives.push(row[i]);
            }
        }
        let column = self.get_column(cell_coords.x);
        for i in 0..9usize
            invariant
                cell_coords.in_grid(),
                column@ == column_points(cell_coords.x),
                relatives@.len() == 8 + if i > cell_coords.y { i - 1 } else { i as int },
                forall|k: int|
                    0 <= k < 8 ==> (#[trigger] relatives@[k]).y == cell_coords.y
                        && relatives@[k].x == if k < cell_coords.x { k } else { k + 1 },
                forall|k: int|
                    8 <= k < relatives@.len() ==> (#[trigger] relatives@[k]).x == cell_coords.x
                        && relatives@[k].y == if k - 8 < cell_coords.y { k - 8 } else { k - 7 },
        {
            if column[i].y != cell_coords.y {
                relatives.push(column[i]);
            }
        }
        let region = self.get_region(cell_coords);
        for i in 0..9usize
            invariant
                cell_coords.in_grid(),
                region@ == region_points(cell_coords),
                relatives@.len() == 16 + region_relatives(cell_coords, i as int),
                forall|k: int|
                    0 <= k < 8 ==> (#[trigger] relatives@[k]).y == cell_coords.y
                        && relatives@[k].x == if k < cell_coords.x { k } else { k + 1 },
                forall|k: int|
                    8 <= k < 16 ==> (#[trigger] relatives@[k]).x == cell_coords.x
                        && relatives@[k].y == if k - 8 < cell_coords.y { k - 8 } else { k - 7 },
                forall|k: int|
                    16 <= k < relatives@.len() ==> {
                        let r = #[trigger] relatives@[k];
                        r.in_grid() && r.same_region(cell_coords) && r.x != cell_coords.x && r.y
                            != cell_coords.y && region_index(r) < i
                    },
                forall|a: int, b: int|
                    16 <= a < b < relatives@.len() ==> region_index(#[trigger] relatives@[a])
                        < region_index(#[trigger] relatives@[b]),
                forall|j: int|
                    0 <= j < i && (#[trigger] region@[j]).x != cell_coords.x && region@[j].y
                        != cell_coords.y ==> relatives@.contains(region@[j]),
        {
            let ghost before = relatives@;
            if region[i].x != cell_coords.x && region[i].y != cell_coords.y {
                relatives.push(region[i]);
                proof {
                    assert(relatives@[before.len() as int] == region@[i as int]);
                    assert forall|j: int|
                        0 <= j < i + 1 && (#[trigger] region@[j]).x != cell_coords.x && region@[j].y
                            != cell_coords.y implies relatives@.contains(region@[j]) by {
                        if j < i {
                            let k = choose|k: int| 0 <= k < before.len() && before[k] == region@[j];
                            assert(relatives@[k] == region@[j]);
                        }
                    }
                }
            }
        }
        proof {
            lemma_relatives_listed(cell_coords, relatives@);
        }
        relatives
    }

    /// The live board as text: each fixed cell as its digit, each open
    /// cell as a blank, with bars and rules between the regions.
    pub fn to_string(&self) -> (text: String)
        requires
            self.board().wf(),
        ensures
            text@ == board_text(self.board()),
    {
        render(&self.board)
    }

    /// Every row, every column and every 3×3 region shows each digit from
    /// 1 to 9 exactly once.
    pub fn check_if_correct(&self) -> (r: bool)
        ensures
            r == self.board().correct(),
    {
        self.check_rows() && self.check_columns() && self.check_regions()
    }

    /// Every row shows each digit from 1 to 9 exactly once.
    pub fn check_rows(&self) -> (r: bool)
        ensures
            r == self.board().rows_correct(),
    {
        for y in 0..9usize
            invariant
                forall|k: usize| k < y ==> #[trigger] self.board().has_all_digits(row_points(k)),
        {
            let row = self.get_row(y);
            proof {
                assert forall|i: int| 0 <= i < row@.len() implies (#[trigger] row@[i]).in_grid() by {}
            }
            if !self.check_if_points_have_all_digits(&row) {
                return false;
            }
        }
        true
    }

    /// Every column shows each digit from 1 to 9 exactly once.
    pub fn check_columns(&self) -> (r: bool)
        ensures
            r == self.board().columns_correct(),
    {
        for x in 0..9usize
            invariant
                forall|k: usize|
                    k < x ==> #[trigger] self.board().has_all_digits(column_points(k)),
        {
            let column = self.get_column(x);
            proof {
                assert forall|i: int| 0 <= i < column@.len() implies (
                #[trigger] column@[i]).in_grid() by {}
            }
            if !self.check_if_points_have_all_digits(&column) {
                return false;
            }
        }
        true
    }

    /// Checks the nine 3×3 regions, each through its top left corner.
    pub fn check_regions(&self) -> (r: bool)
        ensures
            r == self.board().regions_correct(),
    {
        for j in 0..3usize
            invariant
                forall|p: Point|
                    p.in_grid() && p.y < 3 * j ==> #[trigger] self.board().has_all_digits(
                        region_points(p),
                    ),
        {
            for i in 0..3usize
                invariant
                    j < 3,
                    forall|p: Point|
                        p.in_grid() && (p.y < 3 * j || (p.y < 3 * j + 3 && p.x < 3 * i))
                            ==> #[trigger] self.board().has_all_digits(region_points(p)),
            {
                let corner = Point::new(3 * i, 3 * j);
                let region = self.get_region(corner);
                proof {
                    assert forall|k: int| 0 <= k < region@.len() implies (
                    #[trigger] region@[k]).in_grid() by {}
                    assert forall|p: Point|
                        p.in_grid() && p.region_origin() == corner implies region_points(p)
                        == region_points(corner) by {
                        assert(region_points(p) =~= region_points(corner));
                    }
                }
                if !self.check_if_points_have_all_digits(&region) {
                    return false;
                }
            }
        }
        true
    }

    /// Each digit from 1 to 9 is shown at exactly one of `points`.
    pub fn check_if_points_have_all_digits(&self, points: &Vec<Point>) -> (r: bool)
        requires
            points@.len() == 9,
            forall|i: int| 0 <= i < points@.len() ==> (#[trigger] points@[i]).in_grid(),
        ensures
            r == self.board().has_all_digits(points@),
    {
        proof {
            lemma_each_digit_once(self.board().digits_of(points@));
        }
        self.check_if_hash_has_all_digits(self.points_to_digits(points))
    }

    /// The digits shown at `points`, 0 standing for an open cell.
    pub fn points_to_digits(&self, points: &Vec<Point>) -> (digits: HashSet<u8>)
        requires
            forall|i: int| 0 <= i < points@.len() ==> (#[trigger] points@[i]).in_grid(),
        ensures
            digits@ == self.board().digits_of(points@).to_set(),
    {
        broadcast use vstd::std_specs::hash::group_hash_axioms;

        let mut digits: HashSet<u8> = HashSet::with_capacity(points.len());
        let ghost shown = self.board().digits_of(points@);
        for i in 0..points.len()
            invariant
                shown == self.board().digits_of(points@),
                forall|k: int| 0 <= k < points@.len() ==> (#[trigger] points@[k]).in_grid(),
                forall|d: u8|
                    digits@.contains(d) <==> exists|k: int| 0 <= k < i && #[trigger] shown[k] == d,
        {
            let point = points[i];
            let ghost before = digits@;
            match self.get_cell(&point) {
                Cell::Collapsed(value) => {
                    digits.insert(*value);
                },
                Cell::Uncollapsed(_) => {
                    digits.insert(0);
                },
            }
            proof {
                assert(digits@ == before.insert(shown[i as int]));
                assert forall|d: u8| digits@.contains(d) implies exists|k: int|
                    0 <= k < i + 1 && #[trigger] shown[k] == d by {
                    if d == shown[i as int] {
                    } else {
                        let k = choose|k: int| 0 <= k < i && #[trigger] shown[k] == d;
                        assert(shown[k] == d);
                    }
                }
            }
        }
        proof {
            assert(digits@ =~= shown.to_set());
        }
        digits
    }

    /// The set holds the digits from 1 to 9 and nothing else.
    pub fn check_if_hash_has_all_digits(&self, hash: HashSet<u8>) -> (r: bool)
        ensures
            r == (hash@ == digits_up_to(9)),
    {
        broadcast use vstd::std_specs::hash::group_hash_axioms;

        let mut digits: HashSet<u8> = HashSet::new();
        for d in 1..10u8
            invariant
                digits@ == digits_up_to((d - 1) as u8),
        {
            digits.insert(d);
        }
        let ghost mut seen: Set<u8> = Set::empty();
        for digit in it: hash.iter()
            invariant
                it.seq().unref().to_set() == hash@,
                it.seq().no_duplicates(),
                it.seq().len() == hash@.len(),
                hash@.finite(),
                seen.finite(),
                seen.len() == it.index(),
                forall|d: u8|
                    seen.contains(d) <==> exists|k: int|
                        0 <= k < it.index() && *#[trigger] it.seq()[k] == d,
                seen.subset_of(digits_up_to(9)),
                seen.subset_of(hash@),
                forall|d: u8|
                    digits@.contains(d) <==> digits_up_to(9).contains(d) && !seen.contains(d),
        {
            proof {
                assert(!seen.contains(*digit)) by {
                    if seen.contains(*digit) {
                        let k = choose|k: int|
                            0 <= k < it.index() && *#[trigger] it.seq()[k] == *digit;
                        assert(it.seq()[k] == it.seq()[it.index()]);
                    }
                }
            }
            proof {
                assert(it.seq().unref()[it.index()] == *digit);
                assert(it.seq().unref().to_set().contains(*digit));
            }
            if !digits.remove(digit) {
                proof {
                    assert(hash@.contains(*digit) && !digits_up_to(9).contains(*digit));
                }
                return false;
            }
            proof {
                let ghost before = seen;
                seen = seen.insert(*digit);
                assert forall|d: u8| seen.contains(d) implies exists|k: int|
                    0 <= k < it.index() + 1 && *#[trigger] it.seq()[k] == d by {
                    if d == *digit {
                        assert(*it.seq()[it.index()] == d);
                    } else {
                        let k = choose|k: int| 0 <= k < it.index() && *#[trigger] it.seq()[k] == d;
                        assert(*it.seq()[k] == d);
                    }
                }
            }
        }
        let none_missing = digits.is_empty();
        proof {
            vstd::set_lib::lemma_subset_equality(seen, hash@);
            if none_missing {
                assert forall|d: u8| digits_up_to(9).contains(d) implies hash@.contains(d) by {
                    assert(!digits@.contains(d));
                }
                assert(hash@ =~= digits_up_to(9));
            } else {
                let d: u8 = digits@.choose();
                assert(digits@.contains(d));
                assert(digits_up_to(9).contains(d) && !hash@.contains(d));
            }
        }
        none_missing
    }

    /// The nine positions of row `y`, from left to right.
    pub fn get_row(&self, y: usize) -> (points: Vec<Point>)
        ensures
            points@ == row_points(y),
    {
        let mut points: Vec<Point> = Vec::with_capacity(9);
        for x in 0..9usize
            invariant
                points@ == row_points(y).subrange(0, x as int),
        {
            points.push(Point::new(x, y));
        }
        points
    }

    /// The nine positions of column `x`, from top to bottom.
    pub fn get_column(&self, x: usize) -> (points: Vec<Point>)
        ensures
            points@ == column_points(x),
    {
        let mut points: Vec<Point> = Vec::with_capacity(9);
        for y in 0..9usize
            invariant
                points@ == column_points(x).subrange(0, y as int),
        {
            points.push(Point::new(x, y));
        }
        points
    }
}

} // verus!
