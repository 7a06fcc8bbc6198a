use puzzle_solver::calendar::{
    basic_tiles, build_calendar, can_stand, covering_rows, covers_cell, date_holes, place_piece,
    DayOfWeek, Placement,
};
use puzzle_solver::tile::{generate_tiles, Point, Tile};

fn point(x: i32, y: i32) -> Point {
    Point { x, y }
}

fn solutions(month: u32, day: u32, weekday: DayOfWeek, gravity: bool) -> Vec<Vec<usize>> {
    let holes = date_holes(month, day, weekday);
    let mut puzzle = build_calendar(&holes, gravity);
    let mut found = vec![];
    while let Some(solution) = puzzle.solver.solve_next() {
        found.push(solution);
    }
    found
}

#[test]
fn holes_of_new_year_2024() {
    assert_eq!(date_holes(1, 1, DayOfWeek::Mon), vec![point(0, 0), point(0, 2), point(3, 7)]);
}

#[test]
fn holes_of_leap_day_2024() {
    assert_eq!(date_holes(2, 29, DayOfWeek::Thu), vec![point(1, 0), point(4, 6), point(2, 8)]);
}

#[test]
fn holes_follow_the_tables() {
    assert_eq!(date_holes(12, 31, DayOfWeek::Sun), vec![point(5, 1), point(0, 7), point(5, 8)]);
    assert_eq!(date_holes(7, 6, DayOfWeek::Tue), vec![point(0, 1), point(5, 2), point(4, 7)]);
    assert_eq!(date_holes(6, 7, DayOfWeek::Wed)[2], point(5, 7));
    assert_eq!(date_holes(6, 7, DayOfWeek::Fri)[2], point(3, 8));
    assert_eq!(date_holes(6, 7, DayOfWeek::Sat)[2], point(4, 8));
}

#[test]
fn new_year_2024_with_gravity_has_solutions() {
    let found = solutions(1, 1, DayOfWeek::Mon, true);
    assert_eq!(found.len(), 46);
}

#[test]
fn leap_day_2024_has_a_positive_count() {
    let first = solutions(2, 29, DayOfWeek::Thu, true);
    let second = solutions(2, 29, DayOfWeek::Thu, true);
    assert!(!first.is_empty());
    assert_eq!(first, second);
}

#[test]
fn every_solution_fills_the_board_but_for_the_holes() {
    let holes = date_holes(1, 1, DayOfWeek::Mon);
    let mut puzzle = build_calendar(&holes, true);
    let mut seen = 0;
    while let Some(solution) = puzzle.solver.solve_next() {
        assert_eq!(solution.len(), 9);
        let mut board = vec![vec![0usize; 6]; 9];
        let mut pieces = vec![];
        for &row in solution.iter() {
            let placement = &puzzle.placements[row];
            pieces.push(placement.piece);
            for p in placement.tile.points.iter() {
                let (x, y) = ((placement.x + p.x) as usize, (placement.y + p.y) as usize);
                assert_eq!(board[y][x], 0);
                board[y][x] = placement.piece + 1;
            }
        }
        pieces.sort();
        assert_eq!(pieces, (0..9).collect::<Vec<usize>>());
        for y in 0..9 {
            for x in 0..6 {
                let open = holes.contains(&point(x as i32, y as i32));
                assert_eq!(board[y][x] == 0, open);
            }
        }
        seen += 1;
        if seen == 5 {
            break;
        }
    }
    assert_eq!(seen, 5);
}

#[test]
fn there_are_nine_pieces_of_five_or_six_cells() {
    let tiles = basic_tiles();
    let sizes: Vec<usize> = tiles.iter().map(|t| t.points.len()).collect();
    assert_eq!(sizes, vec![5, 5, 5, 6, 6, 6, 6, 6, 6]);
    assert_eq!(
        tiles[2].points,
        vec![point(0, 1), point(1, 0), point(1, 1), point(2, 0), point(3, 0)]
    );
}

#[test]
fn pieces_have_their_orientations() {
    let tiles = basic_tiles();
    let counts: Vec<usize> = tiles.iter().map(|t| generate_tiles(t).len()).collect();
    assert_eq!(counts, vec![8, 8, 8, 8, 8, 8, 8, 8, 8]);
}

#[test]
fn symmetric_shapes_have_fewer_orientations() {
    let bar = Tile::new(vec![point(0, 0), point(1, 0), point(2, 0)]);
    let shapes: Vec<Vec<Point>> = generate_tiles(&bar).into_iter().map(|t| t.points).collect();
    assert_eq!(
        shapes,
        vec![
            vec![point(0, 0), point(1, 0), point(2, 0)],
            vec![point(0, 0), point(0, 1), point(0, 2)],
        ]
    );
    let square = Tile::new(vec![point(3, 3), point(4, 3), point(3, 4), point(4, 4)]);
    assert_eq!(generate_tiles(&square).len(), 1);
    let skew = Tile::new(vec![point(1, 0), point(2, 0), point(0, 1), point(1, 1)]);
    assert_eq!(generate_tiles(&skew).len(), 4);
}

#[test]
fn a_piece_stands_where_it_fits_and_does_not_fall() {
    let bar = Tile::new(vec![point(0, 0), point(1, 0), point(2, 0)]);
    let holes = vec![point(0, 1), point(1, 1), point(2, 1), point(5, 5)];
    // all it rests on is open
    assert!(!can_stand(&bar, 0, 0, &holes, true));
    assert!(can_stand(&bar, 0, 0, &holes, false));
    // one cell below is not open
    assert!(can_stand(&bar, 1, 0, &holes, true));
    // beyond the right edge
    assert!(!can_stand(&bar, 4, 0, &holes, false));
    assert!(can_stand(&bar, 3, 0, &holes, false));
    // on an open cell
    assert!(!can_stand(&bar, 3, 5, &holes, false));
    // in the last row the frame carries it
    assert!(can_stand(&bar, 0, 8, &holes, true));
}

#[test]
fn placements_come_column_by_column() {
    let bar = Tile::new(vec![point(0, 0), point(0, 1), point(0, 2), point(0, 3), point(0, 4)]);
    let wide = bar.rotate();
    let mut placements: Vec<Placement> = vec![];
    place_piece(&vec![bar, wide], 3, &vec![], true, &mut placements);
    // upright: 6 columns, 5 rows; lying: 2 columns, 9 rows
    assert_eq!(placements.len(), 6 * 5 + 2 * 9);
    assert_eq!((placements[0].x, placements[0].y), (0, 0));
    assert_eq!((placements[1].x, placements[1].y), (0, 1));
    assert_eq!((placements[5].x, placements[5].y), (1, 0));
    assert_eq!((placements[30].x, placements[30].y), (0, 0));
    assert!(placements.iter().all(|p| p.piece == 3));
    assert!(covers_cell(&placements[0], 0, 4));
    assert!(!covers_cell(&placements[0], 0, 5));
    assert!(!covers_cell(&placements[0], 1, 0));
}

#[test]
fn cell_columns_list_the_placements_that_cover_the_cell() {
    let holes = date_holes(1, 1, DayOfWeek::Mon);
    let puzzle = build_calendar(&holes, true);
    let rows = covering_rows(&puzzle.placements, 5, 8);
    assert!(!rows.is_empty());
    for (i, placement) in puzzle.placements.iter().enumerate() {
        assert_eq!(rows.contains(&i), covers_cell(placement, 5, 8));
    }
    let open = covering_rows(&puzzle.placements, 0, 0);
    assert!(open.is_empty());
}
