use wfc_sudoku::cell::Cell;
use wfc_sudoku::digit_set::DigitSet;

#[test]
fn full_digit_set_holds_the_nine_digits() {
    let all = DigitSet::full();
    assert_eq!(all.len(), 9);
    assert!(!all.is_empty());
    assert!(!all.contains(0));
    for d in 1..=9 {
        assert!(all.contains(d));
    }
    assert!(!all.contains(10));
    assert!(!all.contains(16));
    assert!(!all.contains(255));
    assert_eq!(all.lowest(), 1);
}

#[test]
fn digit_set_remove_drops_one_member() {
    let all = DigitSet::full();
    let rest = all.remove(1).remove(4);
    assert_eq!(rest.len(), 7);
    assert!(!rest.contains(1));
    assert!(!rest.contains(4));
    assert!(rest.contains(2));
    assert_eq!(rest.lowest(), 2);
    assert_eq!(rest.remove(4), rest);
    assert_eq!(rest.remove(0), rest);
    assert_eq!(rest.remove(200), rest);
    assert_ne!(rest, all);
}

#[test]
fn digit_set_can_be_emptied() {
    let mut set = DigitSet::full();
    for d in 1..=9 {
        assert!(!set.is_empty());
        assert_eq!(set.lowest(), d);
        set = set.remove(d);
        assert_eq!(set.len(), 9 - d);
    }
    assert!(set.is_empty());
}

#[test]
fn empty_cell_allows_every_digit() {
    let cell = Cell::new_empty();
    assert_eq!(cell.get_entropy(), 9);
    match cell {
        Cell::Uncollapsed(candidates) => assert_eq!(candidates, DigitSet::full()),
        Cell::Collapsed(_) => panic!("an empty cell is open"),
    }
}

#[test]
fn filled_cell_has_entropy_one() {
    let cell = Cell::new_filled(7);
    assert_eq!(cell, Cell::Collapsed(7));
    assert_eq!(cell.get_entropy(), 1);
}

#[test]
fn remove_narrows_an_open_cell() {
    let mut cell = Cell::new_empty();
    assert_eq!(cell.remove(3), Ok(()));
    assert_eq!(cell.get_entropy(), 8);
    assert_eq!(cell.remove(3), Ok(()));
    assert_eq!(cell.get_entropy(), 8);
    assert_eq!(cell, Cell::Uncollapsed(DigitSet::full().remove(3)));
}

#[test]
fn remove_on_a_fixed_cell() {
    let mut cell = Cell::new_filled(4);
    assert_eq!(cell.remove(5), Ok(()));
    assert_eq!(cell, Cell::Collapsed(4));
    assert_eq!(cell.remove(4), Err(()));
    assert_eq!(cell, Cell::Collapsed(4));
}

#[test]
fn remove_of_the_last_candidate_fails_and_keeps_the_cell() {
    let mut cell = Cell::new_empty();
    for d in 1..=8 {
        assert_eq!(cell.remove(d), Ok(()));
    }
    // A single candidate is left, and the cell is still open.
    assert_eq!(cell.get_entropy(), 1);
    assert!(matches!(cell, Cell::Uncollapsed(_)));
    let before = cell;
    assert_eq!(cell.remove(9), Err(()));
    assert_eq!(cell, before);
    assert_eq!(cell.remove(2), Ok(()));
    assert_eq!(cell, before);
}

#[test]
fn collapse_takes_the_lowest_candidate_and_returns_the_rest() {
    let mut cell = Cell::new_empty();
    cell.remove(1).unwrap();
    cell.remove(2).unwrap();
    cell.remove(5).unwrap();
    let shadow = cell.collapse();
    assert_eq!(cell, Cell::Collapsed(3));
    assert_eq!(shadow.get_entropy(), 5);
    match shadow {
        Cell::Uncollapsed(rest) => {
            assert!(!rest.contains(3));
            assert_eq!(rest, DigitSet::full().remove(1).remove(2).remove(5).remove(3));
            assert_eq!(rest.lowest(), 4);
        }
        Cell::Collapsed(_) => panic!("the shadow is open"),
    }
}

#[test]
fn shadow_never_leads_back_to_the_same_choice() {
    let mut cell = Cell::new_empty();
    let mut tried = Vec::new();
    for _ in 0..9 {
        let mut attempt = cell;
        let shadow = attempt.collapse();
        match attempt {
            Cell::Collapsed(v) => {
                assert!(!tried.contains(&v));
                tried.push(v);
            }
            Cell::Uncollapsed(_) => panic!("collapse fixes the cell"),
        }
        cell = shadow;
    }
    assert_eq!(tried, vec![1, 2, 3, 4, 5, 6, 7, 8, 9]);
    assert_eq!(cell.get_entropy(), 0);
}
