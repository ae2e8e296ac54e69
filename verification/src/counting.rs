//! Nine values that hold every digit: the counting facts behind
//! "each digit exactly once".

use vstd::prelude::*;

verus! {

/// The digits from 1 to `n`.
pub open spec fn digits_up_to(n: u8) -> Set<u8> {
    Set::new(|d: u8| 1 <= d <= n)
}

/// There are `n` digits from 1 to `n`.
pub proof fn lemma_digits_up_to(n: u8)
    ensures
        digits_up_to(n).finite(),
        digits_up_to(n).len() == n,
    decreases n,
{
    if n == 0 {
        assert(digits_up_to(n) =~= Set::<u8>::empty());
    } else {
        let m: u8 = (n - 1) as u8;
        lemma_digits_up_to(m);
        assert(digits_up_to(n) =~= digits_up_to(m).insert(n));
    }
}

/// `d` stands at exactly one index of `s`.
pub open spec fn occurs_once(s: Seq<u8>, d: u8) -> bool {
    exists|i: int|
        0 <= i < s.len() && #[trigger] s[i] == d && forall|j: int|
            0 <= j < s.len() && #[trigger] s[j] == d ==> j == i
}

/// Every digit from 1 to 9 stands at exactly one index of `s`.
pub open spec fn each_digit_once(s: Seq<u8>) -> bool {
    forall|d: u8| 1 <= d <= 9 ==> #[trigger] occurs_once(s, d)
}

/// Every entry of `s` is a digit from 1 to 9.
pub open spec fn all_digits(s: Seq<u8>) -> bool {
    forall|i: int| 0 <= i < s.len() ==> 1 <= #[trigger] s[i] <= 9
}

/// Nine different digits are all the digits.
pub proof fn lemma_distinct_digits_cover(s: Seq<u8>)
    requires
        s.len() == 9,
        s.no_duplicates(),
        all_digits(s),
    ensures
        s.to_set() == digits_up_to(9),
        each_digit_once(s),
{
    broadcast use vstd::seq_lib::seq_to_set_is_finite;

    s.unique_seq_to_set();
    lemma_digits_up_to(9);
    assert(s.to_set().subset_of(digits_up_to(9))) by {
        assert forall|d: u8| s.to_set().contains(d) implies digits_up_to(9).contains(d) by {
            let i = choose|i: int| 0 <= i < s.len() && s[i] == d;
            assert(1 <= s[i] <= 9);
        }
    }
    vstd::set_lib::lemma_subset_equality(s.to_set(), digits_up_to(9));
    assert forall|d: u8| 1 <= d <= 9 implies #[trigger] occurs_once(s, d) by {
        assert(digits_up_to(9).contains(d));
        assert(s.to_set().contains(d));
        let i = choose|i: int| 0 <= i < s.len() && s[i] == d;
        assert(0 <= i < s.len() && s[i] == d);
    }
}

/// Nine values among which every digit occurs are nine different digits.
pub proof fn lemma_cover_is_distinct(s: Seq<u8>)
    requires
        s.len() == 9,
        forall|d: u8| 1 <= d <= 9 ==> s.contains(d),
    ensures
        s.to_set() == digits_up_to(9),
        s.no_duplicates(),
        all_digits(s),
{
    broadcast use vstd::seq_lib::seq_to_set_is_finite;

    lemma_digits_up_to(9);
    s.lemma_cardinality_of_set();
    assert(digits_up_to(9).subset_of(s.to_set())) by {
        assert forall|d: u8| digits_up_to(9).contains(d) implies s.to_set().contains(d) by {
            assert(s.contains(d));
        }
    }
    vstd::set_lib::lemma_len_subset(digits_up_to(9), s.to_set());
    vstd::set_lib::lemma_subset_equality(digits_up_to(9), s.to_set());
    s.lemma_no_dup_set_cardinality();
    assert forall|i: int| 0 <= i < s.len() implies 1 <= #[trigger] s[i] <= 9 by {
        assert(s.to_set().contains(s[i]));
        assert(digits_up_to(9).contains(s[i]));
    }
}

/// Every digit at exactly one index: the same as nine different digits.
pub proof fn lemma_each_digit_once(s: Seq<u8>)
    requires
        s.len() == 9,
    ensures
        each_digit_once(s) <==> s.no_duplicates() && all_digits(s),
        each_digit_once(s) <==> s.to_set() == digits_up_to(9),
{
    if each_digit_once(s) {
        assert forall|d: u8| 1 <= d <= 9 implies s.contains(d) by {
            assert(occurs_once(s, d));
        }
        lemma_cover_is_distinct(s);
    }
    if s.no_duplicates() && all_digits(s) {
        lemma_distinct_digits_cover(s);
    }
    if s.to_set() == digits_up_to(9) {
        assert forall|d: u8| 1 <= d <= 9 implies s.contains(d) by {
            assert(digits_up_to(9).contains(d));
            assert(s.to_set().contains(d));
        }
        lemma_cover_is_distinct(s);
        lemma_distinct_digits_cover(s);
    }
}

} // verus!
