//! A set of Sudoku digits packed into the bits of one machine word.

use vstd::prelude::*;

verus! {

/// Bits 1 to 9, one for each digit.
pub const ALL_DIGITS: u16 = 0x3FE;

/// Bit `d` of `bits` is set.
pub open spec fn bit(bits: u16, d: u16) -> bool {
    bits & (1u16 << d) != 0
}

proof fn lemma_bit_of_all(d: u16)
    by (bit_vector)
    requires
        d < 16,
    ensures
        bit(ALL_DIGITS, d) == (1 <= d && d <= 9),
{
}

proof fn lemma_bit_of_cleared(bits: u16, d: u16, e: u16)
    by (bit_vector)
    requires
        d < 16,
        e < 16,
    ensures
        bit(bits & !(1u16 << d), e) == (e != d && bit(bits, e)),
{
}

proof fn lemma_cleared_stays_within(bits: u16, d: u16)
    by (bit_vector)
    requires
        d < 16,
        bits & !ALL_DIGITS == 0,
    ensures
        (bits & !(1u16 << d)) & !ALL_DIGITS == 0,
{
}

proof fn lemma_zero_has_no_bit(bits: u16)
    by (bit_vector)
    requires
        bits & !ALL_DIGITS == 0,
    ensures
        bits == 0 <==> !bit(bits, 1) && !bit(bits, 2) && !bit(bits, 3) && !bit(bits, 4) && !bit(
            bits,
            5,
        ) && !bit(bits, 6) && !bit(bits, 7) && !bit(bits, 8) && !bit(bits, 9),
{
}

/// A subset of the digits 1 to 9.
#[derive(Clone, Copy, Debug, PartialEq, Eq, Structural)]
pub struct DigitSet {
    bits: u16,
}

impl View for DigitSet {
    type V = Set<u8>;

    closed spec fn view(&self) -> Set<u8> {
        Set::new(|d: u8| 1 <= d <= 9 && bit(self.bits, d as u16))
    }
}

impl DigitSet {
    /// No bit outside the nine digit positions is set.
    pub closed spec fn wf(self) -> bool {
        self.bits & !ALL_DIGITS == 0
    }

    /// All nine digits.
    pub fn full() -> (s: DigitSet)
        ensures
            s.wf(),
            forall|d: u8| s@.contains(d) <==> 1 <= d <= 9,
    {
        let s = DigitSet { bits: ALL_DIGITS };
        proof {
            assert(ALL_DIGITS & !ALL_DIGITS == 0) by (bit_vector);
            assert forall|d: u8| s@.contains(d) <==> 1 <= d <= 9 by {
                if d < 16 {
                    lemma_bit_of_all(d as u16);
                }
            }
        }
        s
    }

    /// Whether `d` is a member.
    pub fn contains(&self, d: u8) -> (r: bool)
        ensures
            r == self@.contains(d),
    {
        1 <= d && d <= 9 && (self.bits & (1u16 << (d as u16))) != 0
    }

    /// The members of the set that are smaller than `d`.
    spec fn below(self, d: u8) -> Set<u8> {
        Set::new(|e: u8| e < d && self@.contains(e))
    }

    proof fn lemma_below(self, d: u8)
        requires
            1 <= d <= 10,
        ensures
            self.below(d).finite(),
            self.below(d).len() < d,
            d <= 9 ==> self.below((d + 1) as u8) == if self@.contains(d) {
                self.below(d).insert(d)
            } else {
                self.below(d)
            },
        decreases d,
    {
        if d == 1 {
            assert(self.below(d) =~= Set::<u8>::empty());
        } else {
            let c: u8 = (d - 1) as u8;
            self.lemma_below(c);
            assert(self.below(d) =~= if self@.contains(c) {
                self.below(c).insert(c)
            } else {
                self.below(c)
            });
        }
        if d <= 9 {
            assert(self.below((d + 1) as u8) =~= if self@.contains(d) {
                self.below(d).insert(d)
            } else {
                self.below(d)
            });
        }
    }

    /// A digit set is finite, holds at most nine members, and each is a digit.
    pub proof fn lemma_bounded(self)
        ensures
            self@.finite(),
            self@.len() <= 9,
            forall|d: u8| self@.contains(d) ==> 1 <= d <= 9,
    {
        self.lemma_below(10);
        assert(self.below(10) =~= self@);
    }

    /// The number of members.
    pub fn len(&self) -> (n: u8)
        ensures
            n == self@.len(),
            n <= 9,
    {
        let mut n: u8 = 0;
        let mut d: u8 = 1;
        proof {
            self.lemma_below(1);
        }
        while d <= 9
            invariant
                1 <= d <= 10,
                n == self.below(d).len(),
                n < d,
            decreases 10 - d,
        {
            proof {
                self.lemma_below(d);
                self.lemma_below((d + 1) as u8);
            }
            if self.contains(d) {
                n = n + 1;
            }
            d = d + 1;
        }
        proof {
            assert(self.below(10) =~= self@);
        }
        n
    }

    /// Whether the set has no member.
    pub fn is_empty(&self) -> (r: bool)
        requires
            self.wf(),
        ensures
            r == (self@.len() == 0),
    {
        proof {
            lemma_zero_has_no_bit(self.bits);
            self.lemma_bounded();
            if self.bits == 0 {
                assert(self@ =~= Set::<u8>::empty());
            } else {
                let d: u8 = if bit(self.bits, 1) {
                    1
                } else if bit(self.bits, 2) {
                    2
                } else if bit(self.bits, 3) {
                    3
                } else if bit(self.bits, 4) {
                    4
                } else if bit(self.bits, 5) {
                    5
                } else if bit(self.bits, 6) {
                    6
                } else if bit(self.bits, 7) {
                    7
                } else if bit(self.bits, 8) {
                    8
                } else {
                    9
                };
                assert(self@.contains(d));
            }
        }
        self.bits == 0
    }

    /// The set without `d`; removing what is not a member changes nothing.
    pub fn remove(&self, d: u8) -> (s: DigitSet)
        ensures
            s@ == self@.remove(d),
            self.wf() ==> s.wf(),
    {
        if 1 <= d && d <= 9 {
            let s = DigitSet { bits: self.bits & !(1u16 << (d as u16)) };
            proof {
                assert forall|e: u8| s@.contains(e) <==> self@.remove(d).contains(e) by {
                    if 1 <= e <= 9 {
                        lemma_bit_of_cleared(self.bits, d as u16, e as u16);
                    }
                }
                assert(s@ =~= self@.remove(d));
                if self.wf() {
                    lemma_cleared_stays_within(self.bits, d as u16);
                }
            }
            s
        } else {
            proof {
                assert(self@.remove(d) =~= self@);
            }
            *self
        }
    }

    /// The smallest member.
    pub fn lowest(&self) -> (d: u8)
        requires
            self@.len() > 0,
        ensures
            self@.contains(d),
            forall|e: u8| self@.contains(e) ==> d <= e,
    {
        let mut d: u8 = 1;
        while d < 9 && !self.contains(d)
            invariant
                1 <= d <= 9,
                forall|e: u8| e < d ==> !self@.contains(e),
            decreases 9 - d,
        {
            d = d + 1;
        }
        proof {
            self.lemma_bounded();
            let w: u8 = self@.choose();
            assert(self@.contains(w));
        }
        d
    }
}

} // verus!
