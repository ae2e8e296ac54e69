use wfc_sudoku::sudoku::{ErrorSudokuContainsAContradiction, SudokuIsUnsolvable, SudokuSolver};

#[test]
fn unsolved_board_shows_blanks() {
    let mut grid = [[0u8; 9]; 9];
    grid[0] = [0, 0, 0, 0, 0, 0, 0, 8, 0];
    grid[4][4] = 5;
    grid[8][0] = 9;
    let solver = SudokuSolver::new(grid).unwrap();
    let expected = [
        "      |       |   8   \n",
        "      |       |       \n",
        "      |       |       \n",
        "------+-------+------\n",
        "      |       |       \n",
        "      |   5   |       \n",
        "      |       |       \n",
        "------+-------+------\n",
        "      |       |       \n",
        "      |       |       \n",
        "9     |       |       \n",
    ]
    .concat();
    assert_eq!(solver.to_string(), expected);
}

#[test]
fn solved_board_shows_every_digit() {
    let mut solver = SudokuSolver::new([
        [0, 0, 0, 0, 0, 0, 0, 8, 0],
        [6, 8, 0, 4, 7, 0, 0, 2, 0],
        [0, 1, 9, 5, 0, 8, 6, 4, 7],
        [0, 6, 0, 9, 0, 0, 0, 0, 4],
        [3, 4, 2, 6, 8, 0, 0, 0, 0],
        [1, 9, 0, 0, 5, 0, 8, 3, 0],
        [0, 0, 0, 7, 2, 0, 4, 0, 3],
        [0, 0, 6, 0, 0, 5, 0, 1, 0],
        [0, 0, 3, 8, 9, 1, 5, 0, 0],
    ])
    .unwrap();
    solver.solve().unwrap();
    let expected = "\
7 3 4 | 1 6 2 | 9 8 5 \n\
6 8 5 | 4 7 9 | 3 2 1 \n\
2 1 9 | 5 3 8 | 6 4 7 \n\
------+-------+------\n\
5 6 8 | 9 1 3 | 2 7 4 \n\
3 4 2 | 6 8 7 | 1 5 9 \n\
1 9 7 | 2 5 4 | 8 3 6 \n\
------+-------+------\n\
8 5 1 | 7 2 6 | 4 9 3 \n\
9 2 6 | 3 4 5 | 7 1 8 \n\
4 7 3 | 8 9 1 | 5 6 2 \n";
    assert_eq!(solver.to_string(), expected);
}

#[test]
fn errors_have_their_messages() {
    assert_eq!(
        ErrorSudokuContainsAContradiction.to_string(),
        "The sudoku cannot be solved because it contains a contradiction in the initial state"
    );
    assert_eq!(
        SudokuIsUnsolvable.to_string(),
        "The sudoku contains a contradiction that could not be detected when initializing the SudokuSolver"
    );
}
