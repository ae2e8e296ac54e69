use wfc_sudoku::point::Point;
use wfc_sudoku::sudoku::SudokuSolver;

fn solver() -> SudokuSolver {
    SudokuSolver::new([[0; 9]; 9]).unwrap()
}

#[test]
fn point_holds_its_coordinates() {
    let p = Point::new(3, 7);
    assert_eq!(p.x, 3);
    assert_eq!(p.y, 7);
    assert_eq!(p, Point { x: 3, y: 7 });
    assert_ne!(p, Point::new(7, 3));
}

#[test]
fn point_scales_both_coordinates() {
    assert_eq!(Point::new(2, 1) * 3, Point::new(6, 3));
    assert_eq!(Point::new(0, 2) * 3, Point::new(0, 6));
    assert_eq!(Point::new(5, 4) * 1, Point::new(5, 4));
}

#[test]
fn region_origin_is_the_top_left_corner() {
    let s = solver();
    assert_eq!(s.get_region_coords(Point::new(0, 0)), Point::new(0, 0));
    assert_eq!(s.get_region_coords(Point::new(2, 2)), Point::new(0, 0));
    assert_eq!(s.get_region_coords(Point::new(4, 8)), Point::new(3, 6));
    assert_eq!(s.get_region_coords(Point::new(8, 5)), Point::new(6, 3));
}

#[test]
fn row_runs_from_left_to_right() {
    let row = solver().get_row(4);
    let expected: Vec<Point> = (0..9).map(|x| Point::new(x, 4)).collect();
    assert_eq!(row, expected);
}

#[test]
fn column_runs_from_top_to_bottom() {
    let column = solver().get_column(7);
    let expected: Vec<Point> = (0..9).map(|y| Point::new(7, y)).collect();
    assert_eq!(column, expected);
}

#[test]
fn region_is_the_block_around_the_point() {
    let region = solver().get_region(Point::new(4, 8));
    assert_eq!(
        region,
        vec![
            Point::new(3, 6),
            Point::new(4, 6),
            Point::new(5, 6),
            Point::new(3, 7),
            Point::new(4, 7),
            Point::new(5, 7),
            Point::new(3, 8),
            Point::new(4, 8),
            Point::new(5, 8),
        ]
    );
}

#[test]
fn relatives_are_twenty_and_exclude_the_cell() {
    let s = solver();
    for y in 0..9 {
        for x in 0..9 {
            let p = Point::new(x, y);
            let relatives = s.get_relatives(p);
            assert_eq!(relatives.len(), 20);
            assert!(!relatives.contains(&p));
            for (i, q) in relatives.iter().enumerate() {
                assert!(q.x < 9 && q.y < 9);
                assert!(q.x == x || q.y == y || (q.x / 3 == x / 3 && q.y / 3 == y / 3));
                assert!(!relatives[..i].contains(q));
            }
        }
    }
}

#[test]
fn relatives_of_a_corner() {
    let mut relatives = solver().get_relatives(Point::new(0, 0));
    relatives.sort_by_key(|p| (p.y, p.x));
    let mut expected = vec![
        Point::new(1, 0),
        Point::new(2, 0),
        Point::new(3, 0),
        Point::new(4, 0),
        Point::new(5, 0),
        Point::new(6, 0),
        Point::new(7, 0),
        Point::new(8, 0),
        Point::new(0, 1),
        Point::new(1, 1),
        Point::new(2, 1),
        Point::new(0, 2),
        Point::new(1, 2),
        Point::new(2, 2),
        Point::new(0, 3),
        Point::new(0, 4),
        Point::new(0, 5),
        Point::new(0, 6),
        Point::new(0, 7),
        Point::new(0, 8),
    ];
    expected.sort_by_key(|p| (p.y, p.x));
    assert_eq!(relatives, expected);
}
