use puzzle_solver::tile::{has_point, has_tile, same_points, sort_points, Point, Tile};

fn point(x: i32, y: i32) -> Point {
    Point { x, y }
}

#[test]
fn new_sorts_and_moves_to_the_corner() {
    let tile = Tile::new(vec![point(5, 7), point(4, 9), point(4, 8), point(6, 7)]);
    assert_eq!(tile.points, vec![point(0, 1), point(0, 2), point(1, 0), point(2, 0)]);
}

#[test]
fn new_keeps_repeated_points() {
    let tile = Tile::new(vec![point(1, 1), point(-2, 3), point(1, 1)]);
    assert_eq!(tile.points, vec![point(0, 2), point(3, 0), point(3, 0)]);
}

#[test]
fn adjust_moves_without_sorting() {
    let mut tile = Tile { points: vec![point(3, -1), point(2, 5)] };
    tile.adjust();
    assert_eq!(tile.points, vec![point(1, 0), point(0, 6)]);
}

#[test]
fn rotate_turns_by_a_quarter() {
    let tile = Tile::new(vec![point(0, 0), point(1, 0), point(2, 0), point(0, 1)]);
    let once = tile.rotate();
    assert_eq!(once.points, vec![point(0, 0), point(1, 0), point(1, 1), point(1, 2)]);
    let back = once.rotate().rotate().rotate();
    assert_eq!(back.points, tile.points);
}

#[test]
fn flip_mirrors() {
    let tile = Tile::new(vec![point(0, 0), point(1, 0), point(2, 0), point(0, 1)]);
    let mirror = tile.flip();
    assert_eq!(mirror.points, vec![point(0, 0), point(1, 0), point(2, 0), point(2, 1)]);
    assert_eq!(mirror.flip().points, tile.points);
}

#[test]
fn gravity_support_lists_the_cells_below() {
    let tile = Tile::new(vec![point(0, 0), point(1, 0), point(2, 0), point(0, 1)]);
    assert_eq!(tile.gravity_support(), vec![point(0, 2), point(1, 1), point(2, 1)]);
}

#[test]
fn duplicate_copies_the_points() {
    let tile = Tile::new(vec![point(0, 0), point(1, 0)]);
    assert_eq!(tile.duplicate().points, tile.points);
}

#[test]
fn points_are_sorted_by_column_then_row() {
    let mut points = vec![point(2, 1), point(0, 5), point(2, 0), point(-1, 9), point(0, 5)];
    sort_points(&mut points);
    assert_eq!(points, vec![point(-1, 9), point(0, 5), point(0, 5), point(2, 0), point(2, 1)]);
}

#[test]
fn points_and_tiles_are_found() {
    let a = vec![point(0, 0), point(1, 0)];
    let b = vec![point(0, 0), point(0, 1)];
    assert!(same_points(&a, &a.clone()));
    assert!(!same_points(&a, &b));
    assert!(!same_points(&a, &vec![point(0, 0)]));
    assert!(has_point(&a, point(1, 0)));
    assert!(!has_point(&a, point(0, 1)));
    let tiles = vec![Tile { points: a.clone() }];
    assert!(has_tile(&tiles, &Tile { points: a }));
    assert!(!has_tile(&tiles, &Tile { points: b }));
}
