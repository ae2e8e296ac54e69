//! Why the search ends and finds what there is to find: what one step
//! does to the boards within reach and to the effort that is left.

use crate::board::Board;
use crate::point::Point;
use crate::sudoku::SudokuSolver;
use vstd::arithmetic::power2::{
    lemma_pow2_pos, lemma_pow2_strictly_increases, lemma_pow2_unfold, pow2,
};
use vstd::prelude::*;

verus! {

/// An upper bound on the steps that searching all of `saved` can take.
pub open spec fn pending(saved: Seq<Board>) -> nat
    decreases saved.len(),
{
    if saved.len() == 0 {
        0
    } else {
        pending(saved.drop_last()) + pow2(saved.last().open_choices())
    }
}

/// Two boards with fewer open choices than `n`, one of them by two at
/// least, take less effort together than one board with `n`.
pub proof fn lemma_effort_splits(a: nat, b: nat, n: nat)
    requires
        a + 2 <= n,
        b + 1 <= n,
    ensures
        pow2(a) + pow2(b) < pow2(n),
        pow2(b) < pow2(n),
        pow2(a) > 0,
{
    lemma_pow2_pos(a);
    lemma_pow2_pos(b);
    lemma_pow2_unfold(n);
    lemma_pow2_unfold((n - 1) as nat);
    if a < n - 2 {
        lemma_pow2_strictly_increases(a, (n - 2) as nat);
    }
    if b < n - 1 {
        lemma_pow2_strictly_increases(b, (n - 1) as nat);
    }
}

impl SudokuSolver {
    /// No more than 81 boards are ever saved.
    pub proof fn lemma_depth_bound(&self)
        requires
            self.wf(),
        ensures
            self.checkpoints().len() <= 81,
    {
        if self.checkpoints().len() > 0 {
            self.checkpoints()[0].lemma_open_cells_bound();
        }
    }

    /// A step keeps the solver well-formed; after a failed step the
    /// checkpoints still are.
    pub proof fn lemma_step_keeps_wf(&self, after: SudokuSolver, p: Point, ok: bool)
        requires
            self.wf(),
            p.in_grid(),
            self.board().at(p) is Uncollapsed,
            self.collapse_step(after, p, ok),
            after.board().wf(),
        ensures
            after.checkpoints_wf(),
            ok ==> after.wf(),
    {
        let before = self.board();
        let n = self.checkpoints().len() as int;
        let saved: bool = before.at(p).entropy() > 1;
        if saved {
            let top = after.checkpoints().last();
            before.lemma_shadow_keeps_wf(top, p);
            before.lemma_shadow_open_cells(top, p);
            assert forall|i: int| 0 <= i < n implies after.checkpoints()[i]
                == self.checkpoints()[i] by {
                assert(after.checkpoints().drop_last()[i] == after.checkpoints()[i]);
            }
            assert forall|i: int| 0 <= i < after.checkpoints().len() implies (
            #[trigger] after.checkpoints()[i]).wf() && after.checkpoints()[i].propagated() by {
                if i < n {
                    assert(self.checkpoints()[i].wf());
                }
            }
            assert forall|i: int, j: int|
                #![trigger after.checkpoints()[i], after.checkpoints()[j]]
                0 <= i < j < after.checkpoints().len() implies after.checkpoints()[i].open_cells()
                >= after.checkpoints()[j].open_cells() + (j - i) by {
                assert(after.checkpoints()[i] == self.checkpoints()[i]);
                if j < n {
                    assert(after.checkpoints()[j] == self.checkpoints()[j]);
                    assert(self.checkpoints()[i].open_cells() >= self.checkpoints()[j].open_cells()
                        + (j - i));
                } else {
                    assert(self.checkpoints()[i].open_cells() >= before.open_cells() + (n - i));
                }
            }
        }
        if ok {
            before.lemma_step_keeps_propagated(after.board(), p);
            before.lemma_step_open_cells(after.board(), p);
            assert forall|i: int| 0 <= i < after.checkpoints().len() implies (
            #[trigger] after.checkpoints()[i]).open_cells() >= after.board().open_cells() + (
            after.checkpoints().len() - i) by {
                if i < n {
                    assert(after.checkpoints()[i] == self.checkpoints()[i]);
                    assert(self.checkpoints()[i].open_cells() >= before.open_cells() + (n - i));
                }
            }
        }
    }

    /// One step of the search with a step at `p` reaches every correct
    /// board that was within reach before, reaches nothing new, and lowers
    /// the effort that is left.
    pub proof fn lemma_collapse_step(&self, after: SudokuSolver, p: Point, ok: bool)
        requires
            self.wf(),
            p.in_grid(),
            self.board().at(p) is Uncollapsed,
            self.collapse_step(after, p, ok),
        ensures
            forall|s: Board|
                s.correct() && #[trigger] self.admits(s) ==> if ok {
                    after.admits(s)
                } else {
                    after.parked(s)
                },
            forall|s: Board| #[trigger] after.parked(s) ==> self.admits(s),
            ok ==> forall|s: Board| #[trigger] after.admits(s) ==> self.admits(s),
            pending(after.checkpoints()) < self.effort(),
            ok ==> after.effort() < self.effort(),
    {
        let before = self.board();
        let v: u8 = before.at(p).lowest();
        let saved: bool = before.at(p).entropy() > 1;
        before.lemma_lowest(p);
        assert(before.at(p).wf());
        before.at(p).lemma_candidates();
        assert forall|s: Board| s.correct() && #[trigger] self.admits(s) implies if ok {
            after.admits(s)
        } else {
            after.parked(s)
        } by {
            if s.refines(before) {
                if s.at(p).digit() == v {
                    before.lemma_solution_survives(p, s);
                    before.lemma_solution_follows_step(after.board(), p, s);
                } else {
                    let top = after.checkpoints().last();
                    before.lemma_solution_in_shadow(top, p, s);
                    assert(s.refines(after.checkpoints()[after.checkpoints().len() - 1]));
                }
            } else {
                let i = choose|i: int|
                    0 <= i < self.checkpoints().len() && s.refines(
                        #[trigger] self.checkpoints()[i],
                    );
                if saved {
                    assert(after.checkpoints().drop_last()[i] == after.checkpoints()[i]);
                }
                assert(s.refines(after.checkpoints()[i]));
            }
        }
        assert forall|s: Board| #[trigger] after.parked(s) implies self.admits(s) by {
            let i = choose|i: int|
                0 <= i < after.checkpoints().len() && s.refines(#[trigger] after.checkpoints()[i]);
            if saved && i == after.checkpoints().len() - 1 {
                before.lemma_shadow_refines(after.checkpoints().last(), p);
                s.lemma_refines_transitive(after.checkpoints().last(), before);
            } else {
                if saved {
                    assert(after.checkpoints().drop_last()[i] == after.checkpoints()[i]);
                }
                assert(s.refines(self.checkpoints()[i]));
            }
        }
        if ok {
            before.lemma_step_refines(after.board(), p);
            assert forall|s: Board| #[trigger] after.admits(s) implies self.admits(s) by {
                if s.refines(after.board()) {
                    s.lemma_refines_transitive(after.board(), before);
                }
            }
            before.lemma_step_open_choices(after.board(), p);
        }
        let n = before.open_choices();
        if saved {
            let top = after.checkpoints().last();
            before.lemma_shadow_open_choices(top, p);
            assert(pending(after.checkpoints()) == pending(self.checkpoints()) + pow2(
                top.open_choices(),
            ));
            lemma_pow2_strictly_increases(top.open_choices(), n);
            if ok {
                lemma_effort_splits(after.board().open_choices(), top.open_choices(), n);
            }
        } else {
            lemma_pow2_pos(n);
            if ok {
                if after.board().open_choices() < n {
                    lemma_pow2_strictly_increases(after.board().open_choices(), n);
                }
            }
        }
    }

    /// Two solvers with the same boards reach the same.
    pub proof fn lemma_same_reach(&self, other: SudokuSolver)
        requires
            self.board() == other.board(),
            self.checkpoints() == other.checkpoints(),
        ensures
            forall|s: Board|
                #![trigger self.admits(s)]
                #![trigger other.admits(s)]
                self.admits(s) <==> other.admits(s),
            self.effort() == other.effort(),
    {
    }

    /// Going back to the most recent checkpoint: the search then reaches
    /// what the checkpoints held, and the effort left is what they stood
    /// for.
    pub proof fn lemma_go_back(&self, after: SudokuSolver)
        requires
            self.checkpoints().len() > 0,
            after.board() == self.checkpoints().last(),
            after.checkpoints() == self.checkpoints().drop_last(),
        ensures
            forall|s: Board| self.parked(s) <==> #[trigger] after.admits(s),
            after.effort() == pending(self.checkpoints()),
            self.checkpoints_wf() ==> after.wf(),
    {
        let n = self.checkpoints().len() as int;
        assert forall|s: Board| self.parked(s) <==> #[trigger] after.admits(s) by {
            if self.parked(s) {
                let i = choose|i: int|
                    0 <= i < self.checkpoints().len() && s.refines(
                        #[trigger] self.checkpoints()[i],
                    );
                if i < n - 1 {
                    assert(s.refines(after.checkpoints()[i]));
                }
            }
            if after.admits(s) {
                if s.refines(after.board()) {
                    assert(s.refines(self.checkpoints()[n - 1]));
                } else {
                    let i = choose|i: int|
                        0 <= i < after.checkpoints().len() && s.refines(
                            #[trigger] after.checkpoints()[i],
                        );
                    assert(s.refines(self.checkpoints()[i]));
                }
            }
        }
        if self.checkpoints_wf() {
            assert(self.checkpoints()[n - 1].wf());
            assert forall|i: int| 0 <= i < after.checkpoints().len() implies (
            #[trigger] after.checkpoints()[i]).wf() && after.checkpoints()[i].propagated()
                && after.checkpoints()[i].open_cells() >= after.board().open_cells() + (
            after.checkpoints().len() - i) by {
                assert(self.checkpoints()[i].wf());
                assert(self.checkpoints()[i].open_cells() >= self.checkpoints()[n
                    - 1].open_cells() + (n - 1 - i));
            }
            assert forall|i: int, j: int|
                #![trigger after.checkpoints()[i], after.checkpoints()[j]]
                0 <= i < j < after.checkpoints().len() implies after.checkpoints()[i].open_cells()
                >= after.checkpoints()[j].open_cells() + (j - i) by {
                assert(self.checkpoints()[i].open_cells() >= self.checkpoints()[j].open_cells()
                    + (j - i));
            }
        }
    }
}

} // verus!
