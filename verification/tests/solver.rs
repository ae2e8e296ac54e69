use wfc_sudoku::cell::Cell;
use wfc_sudoku::point::Point;
use wfc_sudoku::sudoku::SudokuSolver;

const CLASSIC: [[u8; 9]; 9] = [
    [0, 0, 0, 0, 0, 0, 0, 8, 0],
    [6, 8, 0, 4, 7, 0, 0, 2, 0],
    [0, 1, 9, 5, 0, 8, 6, 4, 7],
    [0, 6, 0, 9, 0, 0, 0, 0, 4],
    [3, 4, 2, 6, 8, 0, 0, 0, 0],
    [1, 9, 0, 0, 5, 0, 8, 3, 0],
    [0, 0, 0, 7, 2, 0, 4, 0, 3],
    [0, 0, 6, 0, 0, 5, 0, 1, 0],
    [0, 0, 3, 8, 9, 1, 5, 0, 0],
];

const CLASSIC_SOLVED: [[u8; 9]; 9] = [
    [7, 3, 4, 1, 6, 2, 9, 8, 5],
    [6, 8, 5, 4, 7, 9, 3, 2, 1],
    [2, 1, 9, 5, 3, 8, 6, 4, 7],
    [5, 6, 8, 9, 1, 3, 2, 7, 4],
    [3, 4, 2, 6, 8, 7, 1, 5, 9],
    [1, 9, 7, 2, 5, 4, 8, 3, 6],
    [8, 5, 1, 7, 2, 6, 4, 9, 3],
    [9, 2, 6, 3, 4, 5, 7, 1, 8],
    [4, 7, 3, 8, 9, 1, 5, 6, 2],
];

/// A puzzle that cannot be finished without going back.
const HARD: [[u8; 9]; 9] = [
    [8, 0, 0, 0, 0, 0, 0, 0, 0],
    [0, 0, 3, 6, 0, 0, 0, 0, 0],
    [0, 7, 0, 0, 9, 0, 2, 0, 0],
    [0, 5, 0, 0, 0, 7, 0, 0, 0],
    [0, 0, 0, 0, 4, 5, 7, 0, 0],
    [0, 0, 0, 1, 0, 0, 0, 3, 0],
    [0, 0, 1, 0, 0, 0, 0, 6, 8],
    [0, 0, 8, 5, 0, 0, 0, 1, 0],
    [0, 9, 0, 0, 0, 0, 4, 0, 0],
];

const HARD_SOLVED: [[u8; 9]; 9] = [
    [8, 1, 2, 7, 5, 3, 6, 4, 9],
    [9, 4, 3, 6, 8, 2, 1, 7, 5],
    [6, 7, 5, 4, 9, 1, 2, 8, 3],
    [1, 5, 4, 2, 3, 7, 8, 9, 6],
    [3, 6, 9, 8, 4, 5, 7, 2, 1],
    [2, 8, 7, 1, 6, 9, 5, 3, 4],
    [5, 2, 1, 9, 7, 4, 3, 6, 8],
    [4, 3, 8, 5, 2, 6, 9, 1, 7],
    [7, 9, 6, 3, 1, 8, 4, 5, 2],
];

const EMPTY_SOLVED: [[u8; 9]; 9] = [
    [1, 2, 3, 4, 5, 6, 7, 8, 9],
    [4, 5, 6, 7, 8, 9, 1, 2, 3],
    [7, 8, 9, 1, 2, 3, 4, 5, 6],
    [2, 3, 1, 6, 7, 4, 8, 9, 5],
    [8, 7, 5, 9, 1, 2, 3, 6, 4],
    [6, 9, 4, 5, 3, 8, 2, 1, 7],
    [3, 1, 7, 2, 6, 5, 9, 4, 8],
    [5, 4, 2, 8, 9, 7, 6, 3, 1],
    [9, 6, 8, 3, 4, 1, 5, 7, 2],
];

fn digits(solver: &SudokuSolver) -> [[u8; 9]; 9] {
    let mut shown = [[0u8; 9]; 9];
    for y in 0..9 {
        for x in 0..9 {
            if let Cell::Collapsed(v) = solver.get_cell(&Point::new(x, y)) {
                shown[y][x] = *v;
            }
        }
    }
    shown
}

fn entropies(solver: &SudokuSolver) -> [[u8; 9]; 9] {
    let mut shown = [[0u8; 9]; 9];
    for y in 0..9 {
        for x in 0..9 {
            shown[y][x] = solver.get_cell(&Point::new(x, y)).get_entropy();
        }
    }
    shown
}

#[test]
fn classic_puzzle_is_solved() {
    let mut solver = SudokuSolver::new(CLASSIC).expect("the classic puzzle is consistent");
    assert!(solver.solve().is_ok());
    assert!(solver.check_if_correct());
    assert_eq!(digits(&solver), CLASSIC_SOLVED);
}

#[test]
fn solved_board_has_every_cell_collapsed() {
    let mut solver = SudokuSolver::new(CLASSIC).unwrap();
    solver.solve().unwrap();
    for y in 0..9 {
        for x in 0..9 {
            assert!(matches!(solver.get_cell(&Point::new(x, y)), Cell::Collapsed(_)));
        }
    }
    assert_eq!(solver.get_coords_of_uncollapsed_cell_with_lowest_entropy(), None);
}

#[test]
fn solution_keeps_the_givens() {
    let mut solver = SudokuSolver::new(HARD).unwrap();
    solver.solve().unwrap();
    let shown = digits(&solver);
    for y in 0..9 {
        for x in 0..9 {
            if HARD[y][x] != 0 {
                assert_eq!(shown[y][x], HARD[y][x]);
            }
        }
    }
}

#[test]
fn hard_puzzle_is_solved_by_going_back() {
    let mut solver = SudokuSolver::new(HARD).unwrap();
    assert!(solver.solve().is_ok());
    assert!(solver.check_if_correct());
    assert_eq!(digits(&solver), HARD_SOLVED);
    assert_eq!(solver.checkpoint_count(), 6);
}

#[test]
fn empty_grid_is_filled_in_search_order() {
    let mut solver = SudokuSolver::new([[0; 9]; 9]).unwrap();
    assert_eq!(solver.checkpoint_count(), 0);
    assert!(solver.solve().is_ok());
    assert!(solver.check_if_correct());
    assert_eq!(digits(&solver), EMPTY_SOLVED);
    assert_eq!(solver.checkpoint_count(), 47);
}

#[test]
fn duplicate_in_a_row_is_refused() {
    let mut grid = [[0u8; 9]; 9];
    grid[0][0] = 5;
    grid[0][1] = 5;
    assert!(SudokuSolver::new(grid).is_err());
}

#[test]
fn duplicate_in_a_column_is_refused() {
    let mut grid = [[0u8; 9]; 9];
    grid[1][4] = 7;
    grid[8][4] = 7;
    assert!(SudokuSolver::new(grid).is_err());
}

#[test]
fn duplicate_in_a_region_is_refused() {
    let mut grid = [[0u8; 9]; 9];
    grid[3][3] = 2;
    grid[5][4] = 2;
    assert!(SudokuSolver::new(grid).is_err());
}

#[test]
fn equal_digits_that_are_no_relatives_are_accepted() {
    let mut grid = [[0u8; 9]; 9];
    grid[0][0] = 5;
    grid[3][1] = 5;
    grid[7][8] = 5;
    assert!(SudokuSolver::new(grid).is_ok());
}

#[test]
fn blank_without_a_candidate_is_refused() {
    let mut grid = [[0u8; 9]; 9];
    grid[0] = [1, 2, 3, 4, 5, 6, 7, 8, 0];
    grid[5][8] = 9;
    assert!(SudokuSolver::new(grid).is_err());
}

#[test]
fn new_fixes_the_givens_and_narrows_their_relatives() {
    let mut grid = [[0u8; 9]; 9];
    grid[4][4] = 5;
    grid[0][0] = 5;
    grid[0][4] = 1;
    let solver = SudokuSolver::new(grid).unwrap();
    assert_eq!(solver.checkpoint_count(), 0);
    assert_eq!(*solver.get_cell(&Point::new(4, 4)), Cell::Collapsed(5));
    assert_eq!(*solver.get_cell(&Point::new(0, 0)), Cell::Collapsed(5));
    assert_eq!(*solver.get_cell(&Point::new(4, 0)), Cell::Collapsed(1));
    assert_eq!(
        entropies(&solver),
        [
            [1, 7, 7, 7, 1, 7, 7, 7, 7],
            [8, 8, 8, 8, 7, 8, 9, 9, 9],
            [8, 8, 8, 8, 7, 8, 9, 9, 9],
            [8, 9, 9, 8, 7, 8, 9, 9, 9],
            [8, 8, 8, 8, 1, 8, 8, 8, 8],
            [8, 9, 9, 8, 7, 8, 9, 9, 9],
            [8, 9, 9, 9, 7, 9, 9, 9, 9],
            [8, 9, 9, 9, 7, 9, 9, 9, 9],
            [8, 9, 9, 9, 7, 9, 9, 9, 9],
        ]
    );
    match solver.get_cell(&Point::new(1, 0)) {
        Cell::Uncollapsed(candidates) => {
            assert!(!candidates.contains(5));
            assert!(!candidates.contains(1));
            assert!(candidates.contains(2));
            assert!(candidates.contains(9));
        }
        Cell::Collapsed(_) => panic!("a blank stays open"),
    }
}

/// The last two cells of the first row can both hold 9 only.
fn without_solution() -> [[u8; 9]; 9] {
    let mut grid = [[0u8; 9]; 9];
    grid[0] = [1, 2, 3, 4, 5, 6, 7, 0, 0];
    grid[3][7] = 8;
    grid[6][8] = 8;
    grid
}

#[test]
fn consistent_grid_without_solution_is_unsolvable() {
    let mut solver = SudokuSolver::new(without_solution()).expect("no given contradicts another");
    assert!(solver.solve().is_err());
    assert_eq!(solver.checkpoint_count(), 0);
}

#[test]
fn search_that_runs_out_leaves_no_checkpoint() {
    let mut grid = HARD;
    grid[8][8] = 5;
    let mut solver = SudokuSolver::new(grid).expect("no given contradicts another");
    assert!(solver.solve().is_err());
    assert_eq!(solver.checkpoint_count(), 0);
}

#[test]
fn check_if_correct_is_repeatable_and_changes_nothing() {
    let mut solver = SudokuSolver::new(CLASSIC).unwrap();
    solver.solve().unwrap();
    let before = digits(&solver);
    let saved = solver.checkpoint_count();
    assert!(solver.check_if_correct());
    assert!(solver.check_if_correct());
    assert!(solver.check_if_correct());
    assert_eq!(digits(&solver), before);
    assert_eq!(solver.checkpoint_count(), saved);
}

#[test]
fn unfinished_board_is_not_correct() {
    let solver = SudokuSolver::new(CLASSIC).unwrap();
    assert!(!solver.check_if_correct());
    assert!(!solver.check_if_correct());
    assert!(!solver.check_rows());
    assert!(!solver.check_columns());
    assert!(!solver.check_regions());
    let empty = SudokuSolver::new([[0; 9]; 9]).unwrap();
    assert!(!empty.check_if_correct());
}

#[test]
fn solving_a_solved_board_again_changes_nothing() {
    let mut solver = SudokuSolver::new(HARD).unwrap();
    solver.solve().unwrap();
    let before = digits(&solver);
    let saved = solver.checkpoint_count();
    assert!(solver.solve().is_ok());
    assert_eq!(solver.solve_iteration(), Ok(true));
    assert_eq!(digits(&solver), before);
    assert_eq!(solver.checkpoint_count(), saved);
}

#[test]
fn selection_takes_the_first_cell_on_an_empty_board() {
    let solver = SudokuSolver::new([[0; 9]; 9]).unwrap();
    assert_eq!(
        solver.get_coords_of_uncollapsed_cell_with_lowest_entropy(),
        Some(Point::new(0, 0))
    );
}

#[test]
fn selection_breaks_ties_in_row_major_order() {
    // The 20 relatives of the given all have eight candidates; the first of
    // them in row-major order stands in the first row.
    let mut grid = [[0u8; 9]; 9];
    grid[4][4] = 5;
    let mut solver = SudokuSolver::new(grid).unwrap();
    assert_eq!(
        solver.get_coords_of_uncollapsed_cell_with_lowest_entropy(),
        Some(Point::new(4, 0))
    );
    assert_eq!(solver.solve_iteration(), Ok(false));
    assert_eq!(*solver.get_cell(&Point::new(4, 0)), Cell::Collapsed(1));
    assert_eq!(solver.get_cell(&Point::new(0, 0)).get_entropy(), 8);
}

#[test]
fn selection_prefers_fewer_candidates_to_an_earlier_place() {
    let mut grid = [[0u8; 9]; 9];
    grid[8] = [1, 2, 3, 4, 5, 6, 0, 0, 0];
    grid[0][8] = 7;
    let solver = SudokuSolver::new(grid).unwrap();
    // (8, 8) is left with 8 and 9; (6, 8) and (7, 8) with 7, 8 and 9.
    assert_eq!(
        solver.get_coords_of_uncollapsed_cell_with_lowest_entropy(),
        Some(Point::new(8, 8))
    );
}

#[test]
fn collapse_saves_a_checkpoint_only_where_there_was_a_choice() {
    let mut grid = [[0u8; 9]; 9];
    grid[0] = [1, 2, 3, 4, 5, 6, 7, 8, 0];
    let mut solver = SudokuSolver::new(grid).unwrap();
    // The last cell of the first row can hold 9 only.
    assert_eq!(solver.get_cell(&Point::new(8, 0)).get_entropy(), 1);
    assert_eq!(solver.collapse_cell_and_save_state(Point::new(8, 0)), Ok(()));
    assert_eq!(*solver.get_cell(&Point::new(8, 0)), Cell::Collapsed(9));
    assert_eq!(solver.checkpoint_count(), 0);
    // The first cell of the second row can hold several digits; 4 is the
    // smallest of them.
    assert_eq!(solver.get_cell(&Point::new(0, 1)).get_entropy(), 6);
    assert_eq!(solver.collapse_cell_and_save_state(Point::new(0, 1)), Ok(()));
    assert_eq!(*solver.get_cell(&Point::new(0, 1)), Cell::Collapsed(4));
    assert_eq!(solver.checkpoint_count(), 1);
    assert_eq!(solver.get_cell(&Point::new(1, 1)).get_entropy(), 5);
}

#[test]
fn collapse_that_meets_a_contradiction_fails() {
    let mut solver = SudokuSolver::new(without_solution()).unwrap();
    assert_eq!(
        solver.get_coords_of_uncollapsed_cell_with_lowest_entropy(),
        Some(Point::new(7, 0))
    );
    assert_eq!(solver.solve_iteration(), Err(()));
    assert_eq!(solver.checkpoint_count(), 0);
}

#[test]
fn propagate_removes_the_value_from_relatives_only() {
    let mut solver = SudokuSolver::new([[0; 9]; 9]).unwrap();
    assert_eq!(solver.propagate_collapse(Point::new(4, 4), 5), Ok(()));
    let mut expected = [[9u8; 9]; 9];
    for i in 0..9 {
        expected[4][i] = 8;
        expected[i][4] = 8;
    }
    for y in 3..6 {
        for x in 3..6 {
            expected[y][x] = 8;
        }
    }
    expected[4][4] = 9;
    assert_eq!(entropies(&solver), expected);
    assert_eq!(solver.checkpoint_count(), 0);
}

#[test]
fn propagate_fails_on_a_relative_fixed_to_the_value() {
    let mut grid = [[0u8; 9]; 9];
    grid[2][2] = 6;
    let mut solver = SudokuSolver::new(grid).unwrap();
    assert_eq!(solver.propagate_collapse(Point::new(0, 0), 6), Err(()));
    assert_eq!(*solver.get_cell(&Point::new(2, 2)), Cell::Collapsed(6));
    assert_eq!(solver.propagate_collapse(Point::new(0, 0), 7), Ok(()));
    assert_eq!(*solver.get_cell(&Point::new(2, 2)), Cell::Collapsed(6));
}

#[test]
fn get_cell_mut_reaches_one_cell() {
    let mut solver = SudokuSolver::new([[0; 9]; 9]).unwrap();
    assert_eq!(solver.get_cell_mut(&Point::new(3, 7)).remove(4), Ok(()));
    assert_eq!(solver.get_cell(&Point::new(3, 7)).get_entropy(), 8);
    assert_eq!(solver.get_cell(&Point::new(7, 3)).get_entropy(), 9);
}

#[test]
fn retry_from_a_checkpoint_takes_another_candidate() {
    let mut solver = SudokuSolver::new(HARD).unwrap();
    let first = solver.get_coords_of_uncollapsed_cell_with_lowest_entropy().unwrap();
    assert_eq!(first, Point::new(6, 7));
    match solver.get_cell(&first) {
        Cell::Uncollapsed(candidates) => {
            assert_eq!(candidates.len(), 2);
            assert!(candidates.contains(3));
            assert!(candidates.contains(9));
        }
        Cell::Collapsed(_) => panic!("the selected cell is open"),
    }
    // The first step tries the smaller candidate and saves the other.
    assert_eq!(solver.solve_iteration(), Ok(false));
    assert_eq!(*solver.get_cell(&first), Cell::Collapsed(3));
    assert_eq!(solver.checkpoint_count(), 1);
    // That choice leads nowhere: the search comes back and takes the other.
    solver.solve().unwrap();
    assert_eq!(*solver.get_cell(&first), Cell::Collapsed(9));
}
