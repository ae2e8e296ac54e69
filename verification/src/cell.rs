//! One position of the board: a fixed digit, or the digits still possible.

use crate::digit_set::DigitSet;
use vstd::prelude::*;

verus! {

/// The state of one grid position.
#[derive(Clone, Copy, Debug, PartialEq, Eq, Structural)]
pub enum Cell {
    /// The position holds this digit for good.
    Collapsed(u8),
    /// The position may still take any of these digits.
    Uncollapsed(DigitSet),
}

impl Cell {
    /// A fixed cell holds a digit; an open cell has at least one candidate.
    pub open spec fn wf(self) -> bool {
        match self {
            Cell::Collapsed(v) => 1 <= v <= 9,
            Cell::Uncollapsed(s) => s.wf() && s@.len() > 0,
        }
    }

    /// The digits the position can hold: the fixed digit alone, or the
    /// remaining candidates.
    pub open spec fn candidates(self) -> Set<u8> {
        match self {
            Cell::Collapsed(v) => set![v],
            Cell::Uncollapsed(s) => s@,
        }
    }

    /// The number of choices left: 1 for a fixed cell, else the number of
    /// candidates.
    pub open spec fn entropy(self) -> nat {
        match self {
            Cell::Collapsed(_) => 1,
            Cell::Uncollapsed(s) => s@.len(),
        }
    }

    /// The number of candidates still to be decided between: none for a
    /// fixed cell.
    pub open spec fn open_choices(self) -> nat {
        match self {
            Cell::Collapsed(_) => 0,
            Cell::Uncollapsed(s) => s@.len(),
        }
    }

    /// The digit shown for the cell: its fixed digit, or 0 while it is open.
    pub open spec fn digit(self) -> u8 {
        match self {
            Cell::Collapsed(v) => v,
            Cell::Uncollapsed(_) => 0,
        }
    }

    /// The smallest candidate.
    pub open spec fn lowest(self) -> u8 {
        choose|d: u8|
            self.candidates().contains(d) && forall|e: u8|
                self.candidates().contains(e) ==> d <= e
    }

    /// `self` is what `before` becomes once `v` is ruled out: a cell of the
    /// same kind whose candidates are those of `before` without `v`.
    pub open spec fn is_without(self, before: Cell, v: u8) -> bool {
        self.candidates() == before.candidates().remove(v) && (self is Collapsed
            <==> before is Collapsed)
    }

    /// The candidate sets of a well-formed cell are finite, non-empty and
    /// made of digits.
    pub proof fn lemma_candidates(self)
        requires
            self.wf(),
        ensures
            self.candidates().finite(),
            1 <= self.candidates().len() <= 9,
            self.candidates().len() == self.entropy(),
            forall|d: u8| self.candidates().contains(d) ==> 1 <= d <= 9,
    {
        match self {
            Cell::Collapsed(v) => {},
            Cell::Uncollapsed(s) => {
                s.lemma_bounded();
            },
        }
    }

    /// A well-formed cell has a smallest candidate.
    pub proof fn lemma_has_lowest(self)
        requires
            self.wf(),
        ensures
            self.candidates().contains(self.lowest()),
            forall|d: u8| self.candidates().contains(d) ==> self.lowest() <= d,
    {
        self.lemma_candidates();
        self.lemma_least_from(1);
    }

    /// Among the candidates there is a smallest one, if no candidate is
    /// smaller than `d`.
    proof fn lemma_least_from(self, d: u8)
        requires
            self.wf(),
            1 <= d <= 9,
            forall|e: u8| self.candidates().contains(e) ==> d <= e,
        ensures
            exists|m: u8|
                self.candidates().contains(m) && forall|e: u8|
                    self.candidates().contains(e) ==> m <= e,
        decreases 9 - d,
    {
        self.lemma_candidates();
        if self.candidates().contains(d) {
        } else if d < 9 {
            self.lemma_least_from((d + 1) as u8);
        } else {
            let w: u8 = self.candidates().choose();
            assert(self.candidates().contains(w));
        }
    }

    /// An open cell on which every digit is still possible.
    pub fn new_empty() -> (c: Cell)
        ensures
            c is Uncollapsed,
            c.wf(),
            forall|d: u8| c.candidates().contains(d) <==> 1 <= d <= 9,
    {
        let s = DigitSet::full();
        proof {
            s.lemma_bounded();
            assert(s@.contains(1u8));
        }
        Cell::Uncollapsed(s)
    }

    /// A cell fixed to `v`.
    pub fn new_filled(v: u8) -> (c: Cell)
        requires
            1 <= v <= 9,
        ensures
            c == Cell::Collapsed(v),
    {
        Cell::Collapsed(v)
    }

    /// The number of choices left: 1 for a fixed cell, else the number of
    /// candidates.
    pub fn get_entropy(&self) -> (n: u8)
        ensures
            n == self.entropy(),
            n <= 9,
    {
        match self {
            Cell::Collapsed(_) => 1,
            Cell::Uncollapsed(s) => s.len(),
        }
    }

    /// Rules `v` out for this position. Fails, leaving the cell as it was,
    /// when no candidate would remain.
    pub fn remove(&mut self, v: u8) -> (r: Result<(), ()>)
        requires
            old(self).wf(),
        ensures
            final(self).wf(),
            r is Err <==> old(self).candidates().remove(v).len() == 0,
            r is Err ==> *final(self) == *old(self),
            r is Ok ==> final(self).is_without(*old(self), v),
    {
        match *self {
            Cell::Collapsed(w) => {
                if w == v {
                    proof {
                        assert(set![w].remove(v) =~= Set::<u8>::empty());
                    }
                    Err(())
                } else {
                    proof {
                        assert(set![w].remove(v) =~= set![w]);
                    }
                    Ok(())
                }
            },
            Cell::Uncollapsed(s) => {
                let t = s.remove(v);
                if t.is_empty() {
                    Err(())
                } else {
                    *self = Cell::Uncollapsed(t);
                    Ok(())
                }
            },
        }
    }

    /// Fixes an open cell to its smallest candidate and returns the shadow:
    /// an open cell with the remaining candidates, from which a later retry
    /// resumes.
    pub fn collapse(&mut self) -> (shadow: Cell)
        requires
            *old(self) is Uncollapsed,
            old(self).wf(),
        ensures
            *final(self) == Cell::Collapsed(old(self).lowest()),
            final(self).wf(),
            old(self).candidates().contains(old(self).lowest()),
            forall|d: u8| old(self).candidates().contains(d) ==> old(self).lowest() <= d,
            shadow is Uncollapsed,
            shadow.candidates() == old(self).candidates().remove(old(self).lowest()),
            !shadow.candidates().contains(old(self).lowest()),
            shadow.wf() <==> old(self).entropy() > 1,
    {
        match *self {
            Cell::Collapsed(_) => vstd::pervasive::unreached(),
            Cell::Uncollapsed(s) => {
                let v: u8 = s.lowest();
                let rest = s.remove(v);
                proof {
                    s.lemma_bounded();
                    rest.lemma_bounded();
                    let w: u8 = old(self).lowest();
                    assert(s@.contains(w) && forall|e: u8| s@.contains(e) ==> w <= e);
                    assert(w == v);
                }
                *self = Cell::Collapsed(v);
                Cell::Uncollapsed(rest)
            },
        }
    }
}

} // verus!
