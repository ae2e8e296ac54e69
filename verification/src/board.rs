//! The 9×9 board of cells and what it means for a board to be correct.

use crate::cell::Cell;
use crate::counting::{each_digit_once, lemma_each_digit_once};
use crate::point::{
    column_points, lemma_column_related, lemma_region_related, lemma_related_share_unit,
    lemma_row_related, nth_point, region_index, region_points, row_major, row_points, Point,
};
use vstd::prelude::*;

verus! {

/// A 9×9 grid of cells, owned by value: a copy shares nothing with the
/// board it was taken from.
#[derive(Clone, Copy, Debug)]
pub struct Board {
    cells: [[Cell; 9]; 9],
}

impl Board {
    /// The cell at `p`.
    pub closed spec fn at(self, p: Point) -> Cell {
        self.cells[p.y as int][p.x as int]
    }

    /// Every cell is well-formed.
    pub open spec fn wf(self) -> bool {
        forall|p: Point| p.in_grid() ==> (#[trigger] self.at(p)).wf()
    }

    /// Every cell is fixed.
    pub open spec fn complete(self) -> bool {
        forall|p: Point| p.in_grid() ==> (#[trigger] self.at(p)) is Collapsed
    }

    /// The digit of every fixed cell has been ruled out for all its
    /// relatives.
    pub open spec fn propagated(self) -> bool {
        forall|p: Point, q: Point|
            p.in_grid() && q.in_grid() && #[trigger] p.related(q) && self.at(p) is Collapsed
                ==> !self.at(q).candidates().contains(self.at(p).digit())
    }

    /// `self` allows at each position only digits that `coarse` allows
    /// there.
    pub open spec fn refines(self, coarse: Board) -> bool {
        forall|p: Point|
            #![trigger self.at(p)]
            #![trigger coarse.at(p)]
            p.in_grid() ==> self.at(p).candidates().subset_of(coarse.at(p).candidates())
    }

    /// The digits shown at the positions `ps`, 0 standing for an open cell.
    pub open spec fn digits_of(self, ps: Seq<Point>) -> Seq<u8> {
        Seq::new(ps.len(), |i: int| self.at(ps[i]).digit())
    }

    /// Each digit from 1 to 9 is shown at exactly one of the positions `ps`.
    pub open spec fn has_all_digits(self, ps: Seq<Point>) -> bool {
        each_digit_once(self.digits_of(ps))
    }

    /// Every row shows each digit exactly once.
    pub open spec fn rows_correct(self) -> bool {
        forall|y: usize| y < 9 ==> #[trigger] self.has_all_digits(row_points(y))
    }

    /// Every column shows each digit exactly once.
    pub open spec fn columns_correct(self) -> bool {
        forall|x: usize| x < 9 ==> #[trigger] self.has_all_digits(column_points(x))
    }

    /// The region of every position shows each digit exactly once.
    pub open spec fn regions_correct(self) -> bool {
        forall|p: Point| p.in_grid() ==> #[trigger] self.has_all_digits(region_points(p))
    }

    /// Every row, every column and every 3×3 region shows each digit from 1
    /// to 9 exactly once.
    pub open spec fn correct(self) -> bool {
        self.rows_correct() && self.columns_correct() && self.regions_correct()
    }

    /// `p` is the open cell that the search takes next: none has fewer
    /// candidates, and of those with as few none comes earlier when the
    /// board is read row by row.
    pub open spec fn selects(self, p: Point) -> bool {
        &&& p.in_grid()
        &&& self.at(p) is Uncollapsed
        &&& forall|q: Point|
            q.in_grid() && (#[trigger] self.at(q)) is Uncollapsed ==> self.at(p).entropy()
                < self.at(q).entropy() || (self.at(p).entropy() == self.at(q).entropy()
                && row_major(p) <= row_major(q))
    }

    /// `self` is `before` with the open cell at `p` fixed to its smallest
    /// candidate.
    pub open spec fn is_collapse_of(self, before: Board, p: Point) -> bool {
        &&& self.at(p) == Cell::Collapsed(before.at(p).lowest())
        &&& forall|q: Point| q.in_grid() && q != p ==> #[trigger] self.at(q) == before.at(q)
    }

    /// `self` is `before` with the smallest candidate of the open cell at
    /// `p` ruled out there: the board from which a retry resumes.
    pub open spec fn is_shadow_of(self, before: Board, p: Point) -> bool {
        &&& self.at(p) is Uncollapsed
        &&& self.at(p).wf()
        &&& self.at(p).candidates() == before.at(p).candidates().remove(before.at(p).lowest())
        &&& forall|q: Point| q.in_grid() && q != p ==> #[trigger] self.at(q) == before.at(q)
    }

    /// `self` is `before` with `v` ruled out for every relative of `p`.
    pub open spec fn is_propagation_of(self, before: Board, p: Point, v: u8) -> bool {
        forall|q: Point|
            q.in_grid() ==> if p.related(q) {
                (#[trigger] self.at(q)).is_without(before.at(q), v)
            } else {
                self.at(q) == before.at(q)
            }
    }

    /// Ruling `v` out for the relatives of `p` leaves one of them without a
    /// candidate.
    pub open spec fn propagation_fails(self, p: Point, v: u8) -> bool {
        exists|q: Point|
            q.in_grid() && #[trigger] p.related(q) && self.at(q).candidates().remove(v).len()
                == 0
    }

    /// `self` is `before` after one step at the open cell `p`: `p` is fixed
    /// to its smallest candidate, and that digit is ruled out for every
    /// relative of `p`.
    pub open spec fn is_step_of(self, before: Board, p: Point) -> bool {
        &&& self.at(p) == Cell::Collapsed(before.at(p).lowest())
        &&& forall|q: Point|
            q.in_grid() && q != p ==> if p.related(q) {
                (#[trigger] self.at(q)).is_without(before.at(q), before.at(p).lowest())
            } else {
                self.at(q) == before.at(q)
            }
    }

    /// Fixing the cell at `p` and then propagating its digit make up one
    /// step; propagation fails on the board with the cell fixed exactly
    /// when it would on the board before.
    pub proof fn lemma_step_in_two(self, before: Board, after: Board, p: Point, ok: bool)
        requires
            p.in_grid(),
            self.is_collapse_of(before, p),
            ok ==> after.is_propagation_of(self, p, before.at(p).lowest()),
        ensures
            self.propagation_fails(p, before.at(p).lowest()) <==> before.propagation_fails(
                p,
                before.at(p).lowest(),
            ),
            ok ==> after.is_step_of(before, p),
    {
        let v: u8 = before.at(p).lowest();
        if self.propagation_fails(p, v) {
            let q = choose|q: Point|
                q.in_grid() && #[trigger] p.related(q) && self.at(q).candidates().remove(
                    v,
                ).len() == 0;
            assert(self.at(q) == before.at(q));
        }
        if before.propagation_fails(p, v) {
            let q = choose|q: Point|
                q.in_grid() && #[trigger] p.related(q) && before.at(q).candidates().remove(
                    v,
                ).len() == 0;
            assert(self.at(q) == before.at(q));
        }
        if ok {
            assert forall|q: Point| q.in_grid() && q != p implies if p.related(q) {
                (#[trigger] after.at(q)).is_without(before.at(q), v)
            } else {
                after.at(q) == before.at(q)
            } by {
                assert(self.at(q) == before.at(q));
            }
        }
    }

    /// Fixing an open cell to its smallest candidate keeps the cells
    /// well-formed.
    pub proof fn lemma_collapse_keeps_wf(self, fixed: Board, p: Point)
        requires
            self.wf(),
            p.in_grid(),
            self.at(p) is Uncollapsed,
            fixed.is_collapse_of(self, p),
        ensures
            fixed.wf(),
            self.at(p).candidates().contains(self.at(p).lowest()),
            forall|d: u8| self.at(p).candidates().contains(d) ==> self.at(p).lowest() <= d,
    {
        self.lemma_lowest(p);
        assert forall|q: Point| q.in_grid() implies (#[trigger] fixed.at(q)).wf() by {
            if q != p {
                assert(self.at(q).wf());
            }
        }
    }

    /// The smallest candidate of a well-formed cell is one of its
    /// candidates, a digit, and no candidate is smaller.
    pub proof fn lemma_lowest(self, p: Point)
        requires
            self.wf(),
            p.in_grid(),
        ensures
            self.at(p).candidates().contains(self.at(p).lowest()),
            1 <= self.at(p).lowest() <= 9,
            forall|d: u8| self.at(p).candidates().contains(d) ==> self.at(p).lowest() <= d,
    {
        let c = self.at(p);
        assert(c.wf());
        c.lemma_candidates();
        c.lemma_has_lowest();
    }

    /// The shadow of a collapse is well-formed and propagated where the
    /// cell had more than one candidate.
    pub proof fn lemma_shadow_keeps_wf(self, shadow: Board, p: Point)
        requires
            self.wf(),
            self.propagated(),
            p.in_grid(),
            self.at(p).entropy() > 1,
            shadow.is_shadow_of(self, p),
        ensures
            shadow.wf(),
            shadow.propagated(),
    {
        self.lemma_lowest(p);
        assert(self.at(p).wf());
        self.at(p).lemma_candidates();
        assert forall|q: Point| q.in_grid() implies (#[trigger] shadow.at(q)).wf() by {
            if q != p {
                assert(self.at(q).wf());
            }
        }
        assert forall|a: Point, b: Point|
            a.in_grid() && b.in_grid() && #[trigger] a.related(b) && shadow.at(
                a,
            ) is Collapsed implies !shadow.at(b).candidates().contains(shadow.at(a).digit()) by {
            assert(shadow.at(a) == self.at(a));
            if b != p {
                assert(shadow.at(b) == self.at(b));
            }
        }
    }

    /// One step of the search keeps a well-formed, propagated board
    /// propagated.
    pub proof fn lemma_step_keeps_propagated(self, after: Board, p: Point)
        requires
            self.wf(),
            self.propagated(),
            p.in_grid(),
            self.at(p) is Uncollapsed,
            after.is_step_of(self, p),
        ensures
            after.propagated(),
    {
        self.lemma_lowest(p);
        let v: u8 = self.at(p).lowest();
        assert forall|a: Point, b: Point|
            a.in_grid() && b.in_grid() && #[trigger] a.related(b) && after.at(
                a,
            ) is Collapsed implies !after.at(b).candidates().contains(after.at(a).digit()) by {
            let d: u8 = after.at(a).digit();
            if a == p {
                assert(after.at(b).is_without(self.at(b), v));
            } else {
                assert(self.at(a) is Collapsed && self.at(a).digit() == d) by {
                    if p.related(a) {
                        assert(after.at(a).is_without(self.at(a), v));
                        assert(after.at(a).candidates().contains(d));
                    } else {
                        assert(after.at(a) == self.at(a));
                    }
                }
                if b == p {
                    assert(!self.at(p).candidates().contains(d));
                } else {
                    assert(!self.at(b).candidates().contains(d));
                    if p.related(b) {
                        assert(after.at(b).is_without(self.at(b), v));
                    } else {
                        assert(after.at(b) == self.at(b));
                    }
                }
            }
        }
    }

    /// How many of the first `n` cells in row-major order are open.
    pub open spec fn open_cells_before(self, n: nat) -> nat
        decreases n,
    {
        if n == 0 {
            0
        } else {
            self.open_cells_before((n - 1) as nat) + if self.at(
                nth_point((n - 1) as nat),
            ) is Uncollapsed {
                1nat
            } else {
                0nat
            }
        }
    }

    /// How many cells are open.
    pub open spec fn open_cells(self) -> nat {
        self.open_cells_before(81)
    }

    /// Where only cells that are open in `other` are open in `self`, and
    /// `gap` tells whether the cell at `p` is open in `other` alone, the
    /// first `n` cells hold no more open cells in `self`, and fewer once
    /// `p` is among them and `gap` holds.
    pub proof fn lemma_open_cells_before(self, other: Board, n: nat, p: Point, gap: bool)
        requires
            n <= 81,
            forall|q: Point|
                q.in_grid() && (#[trigger] self.at(q)) is Uncollapsed ==> other.at(
                    q,
                ) is Uncollapsed,
            p.in_grid(),
            gap ==> self.at(p) is Collapsed && other.at(p) is Uncollapsed,
        ensures
            self.open_cells_before(n) <= other.open_cells_before(n) <= n,
            gap && row_major(p) < n ==> self.open_cells_before(n) + 1
                <= other.open_cells_before(n),
        decreases n,
    {
        if n > 0 {
            let m = (n - 1) as nat;
            self.lemma_open_cells_before(other, m, p, gap);
            let q = nth_point(m);
            assert(q.in_grid());
            assert(self.at(q) is Uncollapsed ==> other.at(q) is Uncollapsed);
            if row_major(p) == m {
                assert(q == p);
            }
        }
    }

    /// A board has at most 81 open cells.
    pub proof fn lemma_open_cells_bound(self)
        ensures
            self.open_cells() <= 81,
    {
        self.lemma_open_cells_before(self, 81, Point { x: 0, y: 0 }, false);
    }

    /// A step leaves fewer open cells.
    pub proof fn lemma_step_open_cells(self, after: Board, p: Point)
        requires
            p.in_grid(),
            self.at(p) is Uncollapsed,
            after.is_step_of(self, p),
        ensures
            after.open_cells() + 1 <= self.open_cells(),
    {
        assert forall|q: Point|
            q.in_grid() && (#[trigger] after.at(q)) is Uncollapsed implies self.at(
            q,
        ) is Uncollapsed by {
            if q != p {
                if p.related(q) {
                    assert(after.at(q).is_without(self.at(q), self.at(p).lowest()));
                } else {
                    assert(after.at(q) == self.at(q));
                }
            }
        }
        after.lemma_open_cells_before(self, 81, p, true);
    }

    /// The shadow of a collapse has as many open cells as the board
    /// before it.
    pub proof fn lemma_shadow_open_cells(self, shadow: Board, p: Point)
        requires
            p.in_grid(),
            self.at(p) is Uncollapsed,
            shadow.is_shadow_of(self, p),
        ensures
            shadow.open_cells() == self.open_cells(),
    {
        assert forall|q: Point| q.in_grid() implies ((#[trigger] shadow.at(q)) is Uncollapsed
            <==> self.at(q) is Uncollapsed) by {
            if q != p {
                assert(shadow.at(q) == self.at(q));
            }
        }
        assert forall|q: Point|
            q.in_grid() && (#[trigger] self.at(q)) is Uncollapsed implies shadow.at(
            q,
        ) is Uncollapsed by {
            assert(shadow.at(q) is Uncollapsed <==> self.at(q) is Uncollapsed);
        }
        shadow.lemma_open_cells_before(self, 81, p, false);
        self.lemma_open_cells_before(shadow, 81, p, false);
    }

    /// The open choices of the first `n` cells in row-major order, added
    /// up.
    pub open spec fn open_choices_before(self, n: nat) -> nat
        decreases n,
    {
        if n == 0 {
            0
        } else {
            self.open_choices_before((n - 1) as nat) + self.at(nth_point((n - 1) as nat)).open_choices()
        }
    }

    /// The open choices of all cells, added up: what is left to decide.
    pub open spec fn open_choices(self) -> nat {
        self.open_choices_before(81)
    }

    /// Where no cell of `self` has more open choices than in `other`, the
    /// first `n` cells have no more in all.
    pub proof fn lemma_open_choices_before(self, other: Board, n: nat, p: Point, gap: nat)
        requires
            n <= 81,
            forall|q: Point|
                q.in_grid() ==> (#[trigger] self.at(q)).open_choices() <= other.at(
                    q,
                ).open_choices(),
            p.in_grid(),
            self.at(p).open_choices() + gap <= other.at(p).open_choices(),
        ensures
            self.open_choices_before(n) <= other.open_choices_before(n),
            row_major(p) < n ==> self.open_choices_before(n) + gap <= other.open_choices_before(
                n,
            ),
        decreases n,
    {
        if n > 0 {
            let m = (n - 1) as nat;
            self.lemma_open_choices_before(other, m, p, gap);
            let q = nth_point(m);
            assert(q.in_grid());
            assert(self.at(q).open_choices() <= other.at(q).open_choices());
            if row_major(p) == m {
                assert(q == p);
            }
        }
    }

    /// Where no cell of `self` has more open choices than in `other`, and
    /// the cell at `p` has fewer by `gap`, `self` has fewer by `gap` in
    /// all.
    pub proof fn lemma_open_choices(self, other: Board, p: Point, gap: nat)
        requires
            forall|q: Point|
                q.in_grid() ==> (#[trigger] self.at(q)).open_choices() <= other.at(
                    q,
                ).open_choices(),
            p.in_grid(),
            self.at(p).open_choices() + gap <= other.at(p).open_choices(),
        ensures
            self.open_choices() + gap <= other.open_choices(),
    {
        self.lemma_open_choices_before(other, 81, p, gap);
    }

    /// The board after a step allows nothing that the board before it did
    /// not allow.
    pub proof fn lemma_step_refines(self, after: Board, p: Point)
        requires
            self.wf(),
            p.in_grid(),
            after.is_step_of(self, p),
        ensures
            after.refines(self),
    {
        self.lemma_lowest(p);
        assert forall|q: Point| p.in_grid() && q.in_grid() implies (#[trigger] after.at(
            q,
        )).candidates().subset_of(self.at(q).candidates()) by {
            if q != p {
                if p.related(q) {
                    assert(after.at(q).is_without(self.at(q), self.at(p).lowest()));
                }
            }
        }
    }

    /// The shadow of a collapse allows nothing that the board before it
    /// did not allow.
    pub proof fn lemma_shadow_refines(self, shadow: Board, p: Point)
        requires
            p.in_grid(),
            shadow.is_shadow_of(self, p),
        ensures
            shadow.refines(self),
    {
        assert forall|q: Point| q.in_grid() implies (#[trigger] shadow.at(
            q,
        )).candidates().subset_of(self.at(q).candidates()) by {
            if q != p {
                assert(shadow.at(q) == self.at(q));
            }
        }
    }

    /// A correct board within `self` that holds at `p` the smallest
    /// candidate of `self` there survives the step at `p`: propagation of
    /// that digit succeeds.
    pub proof fn lemma_solution_survives(self, p: Point, solution: Board)
        requires
            self.wf(),
            p.in_grid(),
            solution.correct(),
            solution.refines(self),
            solution.at(p).digit() == self.at(p).lowest(),
        ensures
            !self.propagation_fails(p, self.at(p).lowest()),
    {
        let v: u8 = self.at(p).lowest();
        solution.lemma_correct_is_propagated();
        assert forall|q: Point| q.in_grid() && #[trigger] p.related(q) implies self.at(
            q,
        ).candidates().remove(v).len() != 0 by {
            let e: u8 = solution.at(q).digit();
            assert(solution.at(p) is Collapsed && solution.at(q) is Collapsed);
            assert(!solution.at(q).candidates().contains(v));
            assert(solution.at(q).candidates().contains(e));
            assert(solution.at(q).candidates().subset_of(self.at(q).candidates()));
            assert(self.at(q).wf());
            self.at(q).lemma_candidates();
            assert(self.at(q).candidates().remove(v).contains(e));
        }
    }

    /// A correct board within `self` that holds at `p` the smallest
    /// candidate of `self` there lies within the board after the step at
    /// `p`.
    pub proof fn lemma_solution_follows_step(self, after: Board, p: Point, solution: Board)
        requires
            self.wf(),
            p.in_grid(),
            solution.correct(),
            solution.refines(self),
            solution.at(p).digit() == self.at(p).lowest(),
            after.is_step_of(self, p),
        ensures
            solution.refines(after),
    {
        let v: u8 = self.at(p).lowest();
        solution.lemma_correct_is_propagated();
        assert forall|q: Point| q.in_grid() implies (#[trigger] solution.at(
            q,
        )).candidates().subset_of(after.at(q).candidates()) by {
            assert(solution.at(q) is Collapsed);
            assert(solution.at(q).candidates().subset_of(self.at(q).candidates()));
            if q == p {
                assert(solution.at(p) is Collapsed);
            } else if p.related(q) {
                assert(solution.at(p) is Collapsed);
                assert(!solution.at(q).candidates().contains(v));
                assert(after.at(q).is_without(self.at(q), v));
            } else {
                assert(after.at(q) == self.at(q));
            }
        }
    }

    /// A correct board within `self` that holds at `p` another digit than
    /// the smallest candidate of `self` there: the cell at `p` has more
    /// than one candidate, and the board lies within the shadow of the
    /// step.
    pub proof fn lemma_solution_in_shadow(self, shadow: Board, p: Point, solution: Board)
        requires
            self.wf(),
            p.in_grid(),
            self.at(p) is Uncollapsed,
            solution.correct(),
            solution.refines(self),
            solution.at(p).digit() != self.at(p).lowest(),
        ensures
            self.at(p).entropy() > 1,
            shadow.is_shadow_of(self, p) ==> solution.refines(shadow),
    {
        let v: u8 = self.at(p).lowest();
        let d: u8 = solution.at(p).digit();
        solution.lemma_correct_is_propagated();
        self.lemma_lowest(p);
        assert(self.at(p).wf());
        self.at(p).lemma_candidates();
        assert(solution.at(p) is Collapsed);
        assert(solution.at(p).candidates().contains(d));
        assert(solution.at(p).candidates().subset_of(self.at(p).candidates()));
        assert(self.at(p).candidates().contains(d));
        assert(self.at(p).candidates().remove(v).contains(d));
        if shadow.is_shadow_of(self, p) {
            assert forall|q: Point| q.in_grid() implies (#[trigger] solution.at(
                q,
            )).candidates().subset_of(shadow.at(q).candidates()) by {
                assert(solution.at(q).candidates().subset_of(self.at(q).candidates()));
                if q != p {
                    assert(shadow.at(q) == self.at(q));
                }
            }
        }
    }

    /// A step leaves fewer open choices: fewer by at least the number of
    /// candidates of the cell that it fixed.
    pub proof fn lemma_step_open_choices(self, after: Board, p: Point)
        requires
            self.wf(),
            p.in_grid(),
            self.at(p) is Uncollapsed,
            after.is_step_of(self, p),
        ensures
            after.open_choices() + self.at(p).entropy() <= self.open_choices(),
            self.at(p).entropy() >= 1,
    {
        let v: u8 = self.at(p).lowest();
        assert(self.at(p).wf());
        self.at(p).lemma_candidates();
        assert forall|q: Point| q.in_grid() implies (#[trigger] after.at(q)).open_choices()
            <= self.at(q).open_choices() by {
            assert(self.at(q).wf());
            self.at(q).lemma_candidates();
            if q != p {
                if p.related(q) {
                    assert(after.at(q).is_without(self.at(q), v));
                } else {
                    assert(after.at(q) == self.at(q));
                }
            }
        }
        after.lemma_open_choices(self, p, self.at(p).entropy());
    }

    /// The shadow of a collapse has one open choice fewer.
    pub proof fn lemma_shadow_open_choices(self, shadow: Board, p: Point)
        requires
            self.wf(),
            p.in_grid(),
            self.at(p) is Uncollapsed,
            shadow.is_shadow_of(self, p),
        ensures
            shadow.open_choices() + 1 <= self.open_choices(),
    {
        self.lemma_lowest(p);
        assert(self.at(p).wf());
        self.at(p).lemma_candidates();
        assert forall|q: Point| q.in_grid() implies (#[trigger] shadow.at(q)).open_choices()
            <= self.at(q).open_choices() by {
            if q != p {
                assert(shadow.at(q) == self.at(q));
            }
        }
        shadow.lemma_open_choices(self, p, 1);
    }

    /// Refinement is reflexive.
    pub proof fn lemma_refines_self(self)
        ensures
            self.refines(self),
    {
    }

    /// Refinement is transitive.
    pub proof fn lemma_refines_transitive(self, mid: Board, coarse: Board)
        requires
            self.refines(mid),
            mid.refines(coarse),
        ensures
            self.refines(coarse),
    {
        assert forall|p: Point| p.in_grid() implies (#[trigger] self.at(p)).candidates().subset_of(
            coarse.at(p).candidates(),
        ) by {
            assert(self.at(p).candidates().subset_of(mid.at(p).candidates()));
            assert(mid.at(p).candidates().subset_of(coarse.at(p).candidates()));
        }
    }

    /// On a correct board every cell is fixed to a digit, and relatives
    /// hold different digits.
    pub proof fn lemma_correct_is_propagated(self)
        requires
            self.correct(),
        ensures
            self.complete(),
            self.wf(),
            self.propagated(),
    {
        assert forall|p: Point| p.in_grid() implies (#[trigger] self.at(p)) is Collapsed
            && self.at(p).wf() by {
            let s = self.digits_of(row_points(p.y));
            assert(self.has_all_digits(row_points(p.y)));
            lemma_each_digit_once(s);
            assert(1 <= s[p.x as int] <= 9);
        }
        assert forall|p: Point, q: Point|
            p.in_grid() && q.in_grid() && #[trigger] p.related(q) && self.at(
                p,
            ) is Collapsed implies !self.at(q).candidates().contains(self.at(p).digit()) by {
            lemma_related_share_unit(p, q);
            assert(self.at(q) is Collapsed);
            if p.same_row(q) {
                let s = self.digits_of(row_points(p.y));
                assert(self.has_all_digits(row_points(p.y)));
                lemma_each_digit_once(s);
                assert(s[p.x as int] != s[q.x as int]);
            } else if p.same_column(q) {
                let s = self.digits_of(column_points(p.x));
                assert(self.has_all_digits(column_points(p.x)));
                lemma_each_digit_once(s);
                assert(s[p.y as int] != s[q.y as int]);
            } else {
                let s = self.digits_of(region_points(p));
                assert(self.has_all_digits(region_points(p)));
                lemma_each_digit_once(s);
                assert(s[region_index(p)] != s[region_index(q)]);
            }
        }
    }

    /// A complete board whose fixed digits exclude each other among
    /// relatives is correct.
    pub proof fn lemma_propagated_is_correct(self)
        requires
            self.complete(),
            self.wf(),
            self.propagated(),
        ensures
            self.correct(),
    {
        assert forall|y: usize| y < 9 implies #[trigger] self.has_all_digits(row_points(y)) by {
            let ps = row_points(y);
            let s = self.digits_of(ps);
            assert forall|i: int, j: int| 0 <= i < 9 && 0 <= j < 9 && i != j implies s[i]
                != s[j] by {
                lemma_row_related(y, i, j);
                lemma_row_related(y, j, i);
                assert(ps[i].related(ps[j]));
                assert(self.at(ps[i]) is Collapsed && self.at(ps[j]) is Collapsed);
            }
            assert forall|i: int| 0 <= i < s.len() implies 1 <= #[trigger] s[i] <= 9 by {
                lemma_row_related(y, i, if i == 0 { 1 } else { 0 });
                assert(self.at(ps[i]).wf() && self.at(ps[i]) is Collapsed);
            }
            lemma_each_digit_once(s);
        }
        assert forall|x: usize| x < 9 implies #[trigger] self.has_all_digits(
            column_points(x),
        ) by {
            let ps = column_points(x);
            let s = self.digits_of(ps);
            assert forall|i: int, j: int| 0 <= i < 9 && 0 <= j < 9 && i != j implies s[i]
                != s[j] by {
                lemma_column_related(x, i, j);
                lemma_column_related(x, j, i);
                assert(ps[i].related(ps[j]));
                assert(self.at(ps[i]) is Collapsed && self.at(ps[j]) is Collapsed);
            }
            assert forall|i: int| 0 <= i < s.len() implies 1 <= #[trigger] s[i] <= 9 by {
                lemma_column_related(x, i, if i == 0 { 1 } else { 0 });
                assert(self.at(ps[i]).wf() && self.at(ps[i]) is Collapsed);
            }
            lemma_each_digit_once(s);
        }
        assert forall|p: Point| p.in_grid() implies #[trigger] self.has_all_digits(
            region_points(p),
        ) by {
            let ps = region_points(p);
            let s = self.digits_of(ps);
            assert forall|i: int, j: int| 0 <= i < 9 && 0 <= j < 9 && i != j implies s[i]
                != s[j] by {
                lemma_region_related(p, i, j);
                lemma_region_related(p, j, i);
                assert(ps[i].related(ps[j]));
                assert(self.at(ps[i]) is Collapsed && self.at(ps[j]) is Collapsed);
            }
            assert forall|i: int| 0 <= i < s.len() implies 1 <= #[trigger] s[i] <= 9 by {
                lemma_region_related(p, i, if i == 0 { 1 } else { 0 });
                assert(self.at(ps[i]).wf() && self.at(ps[i]) is Collapsed);
            }
            lemma_each_digit_once(s);
        }
    }

    /// A board on which every digit is still possible everywhere.
    pub fn new() -> (b: Board)
        ensures
            b.wf(),
            forall|p: Point|
                p.in_grid() ==> (#[trigger] b.at(p)) is Uncollapsed && forall|d: u8|
                    b.at(p).candidates().contains(d) <==> 1 <= d <= 9,
    {
        let c = Cell::new_empty();
        Board { cells: [[c; 9]; 9] }
    }

    /// The cell at `p`.
    pub fn get(&self, p: &Point) -> (c: &Cell)
        requires
            p.in_grid(),
        ensures
            *c == self.at(*p),
    {
        &self.cells[p.y][p.x]
    }

    /// Mutable access to the cell at `p`; the other cells stay as they are.
    pub fn get_mut(&mut self, p: &Point) -> (c: &mut Cell)
        requires
            p.in_grid(),
        ensures
            *c == old(self).at(*p),
            final(self).at(*p) == *final(c),
            forall|q: Point| q.in_grid() && q != *p ==> final(self).at(q) == old(self).at(q),
    {
        &mut self.cells[p.y][p.x]
    }
}

} // verus!
