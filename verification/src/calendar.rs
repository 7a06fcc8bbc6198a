//! The calendar puzzle as an exact cover: nine pieces fill a board of nine
//! rows and six columns but for the three cells that name a date.

use crate::dancing_links::{ColumnSpec, ColumnType, Matrix, PuzzleSolver};
use crate::tile::{
    canonical, first_seen, generate_tiles, has_point, shapes, support, tidy, within, Point, Tile,
};
use crate::render::{draw_pieces, grid_of, is_grid, lines_of, pieces_drawing};
use vstd::prelude::*;

verus! {

/// The day of the week.
#[derive(Clone, Copy, Debug, PartialEq, Eq, Structural)]
pub enum DayOfWeek {
    Sun,
    Mon,
    Tue,
    Wed,
    Thu,
    Fri,
    Sat,
}

/// Number of columns of the board.
pub const BOARD_WIDTH: i32 = 6;

/// Number of rows of the board.
pub const BOARD_HEIGHT: i32 = 9;

/// The cell of the board that names the month, counted from 1: the months
/// fill the first two rows.
pub open spec fn month_cell(month: int) -> Point {
    Point { x: ((month - 1) % 6) as i32, y: ((month - 1) / 6) as i32 }
}

/// The cell of the board that names the day of the month, counted from 1:
/// the days follow the months, from the third row on.
pub open spec fn day_cell(day: int) -> Point {
    Point { x: ((day - 1) % 6) as i32, y: ((day - 1) / 6 + 2) as i32 }
}

/// The cell of the board that names the day of the week, in the last two
/// rows.
pub open spec fn weekday_cell(weekday: DayOfWeek) -> Point {
    match weekday {
        DayOfWeek::Sun => Point { x: 5, y: 8 },
        DayOfWeek::Mon => Point { x: 3, y: 7 },
        DayOfWeek::Tue => Point { x: 4, y: 7 },
        DayOfWeek::Wed => Point { x: 5, y: 7 },
        DayOfWeek::Thu => Point { x: 2, y: 8 },
        DayOfWeek::Fri => Point { x: 3, y: 8 },
        DayOfWeek::Sat => Point { x: 4, y: 8 },
    }
}

/// The three cells that stay open for a date: that of its month, that of
/// its day and that of its day of the week.
pub open spec fn date_cells(month: int, day: int, weekday: DayOfWeek) -> Seq<Point> {
    seq![month_cell(month), day_cell(day), weekday_cell(weekday)]
}

/// The three cells that stay open for a date.
pub fn date_holes(month: u32, day: u32, weekday: DayOfWeek) -> (holes: Vec<Point>)
    requires
        1 <= month <= 12,
        1 <= day <= 31,
    ensures
        holes@ == date_cells(month as int, day as int, weekday),
{
    let month_index: i32 = (month - 1) as i32;
    let day_index: i32 = (day - 1) as i32;
    let holes = vec![
        Point { x: month_index % 6, y: month_index / 6 },
        Point { x: day_index % 6, y: day_index / 6 + 2 },
        match weekday {
            DayOfWeek::Sun => Point { x: 5, y: 8 },
            DayOfWeek::Mon => Point { x: 3, y: 7 },
            DayOfWeek::Tue => Point { x: 4, y: 7 },
            DayOfWeek::Wed => Point { x: 5, y: 7 },
            DayOfWeek::Thu => Point { x: 2, y: 8 },
            DayOfWeek::Fri => Point { x: 3, y: 8 },
            DayOfWeek::Sat => Point { x: 4, y: 8 },
        },
    ];
    proof {
        assert(holes@ =~= date_cells(month as int, day as int, weekday));
    }
    holes
}

/// The cells of the nine pieces, as they are drawn.
pub open spec fn basic_shape(piece: int) -> Seq<Point> {
    if piece == 0 {
        seq![
            Point { x: 0, y: 0 },
            Point { x: 1, y: 0 },
            Point { x: 2, y: 0 },
            Point { x: 0, y: 1 },
            Point { x: 1, y: 1 },
        ]
    } else if piece == 1 {
        seq![
            Point { x: 0, y: 0 },
            Point { x: 1, y: 0 },
            Point { x: 2, y: 0 },
            Point { x: 3, y: 0 },
            Point { x: 0, y: 1 },
        ]
    } else if piece == 2 {
        seq![
            Point { x: 1, y: 0 },
            Point { x: 2, y: 0 },
            Point { x: 3, y: 0 },
            Point { x: 0, y: 1 },
            Point { x: 1, y: 1 },
        ]
    } else if piece == 3 {
        seq![
            Point { x: 0, y: 0 },
            Point { x: 1, y: 0 },
            Point { x: 2, y: 0 },
            Point { x: 3, y: 0 },
            Point { x: 0, y: 1 },
            Point { x: 0, y: 2 },
        ]
    } else if piece == 4 {
        seq![
            Point { x: 0, y: 0 },
            Point { x: 1, y: 0 },
            Point { x: 2, y: 0 },
            Point { x: 3, y: 0 },
            Point { x: 1, y: 1 },
            Point { x: 1, y: 2 },
        ]
    } else if piece == 5 {
        seq![
            Point { x: 0, y: 0 },
            Point { x: 1, y: 0 },
            Point { x: 2, y: 0 },
            Point { x: 3, y: 0 },
            Point { x: 4, y: 0 },
            Point { x: 0, y: 1 },
        ]
    } else if piece == 6 {
        seq![
            Point { x: 0, y: 0 },
            Point { x: 1, y: 0 },
            Point { x: 2, y: 0 },
            Point { x: 3, y: 0 },
            Point { x: 4, y: 0 },
            Point { x: 1, y: 1 },
        ]
    } else if piece == 7 {
        seq![
            Point { x: 0, y: 0 },
            Point { x: 1, y: 0 },
            Point { x: 2, y: 0 },
            Point { x: 1, y: 1 },
            Point { x: 1, y: 2 },
            Point { x: 2, y: 2 },
        ]
    } else {
        seq![
            Point { x: 0, y: 0 },
            Point { x: 1, y: 0 },
            Point { x: 1, y: 1 },
            Point { x: 2, y: 1 },
            Point { x: 3, y: 1 },
            Point { x: 1, y: 2 },
        ]
    }
}

/// Number of pieces.
pub const PIECES: usize = 9;

/// The piece with the given cells, each of them within a square of five
/// by five.
fn small_tile(points: Vec<Point>) -> (tile: Tile)
    requires
        points@.len() > 0,
        forall|i: int|
            0 <= i < points@.len() ==> 0 <= (#[trigger] points@[i]).x <= 4 && 0 <= points@[i].y <= 4,
    ensures
        tile@ == crate::tile::canonical(points@),
        tidy(tile@),
        within(tile@, 4),
{
    proof {
        assert(crate::tile::spread_within(points@, 4));
    }
    Tile::new(points)
}

/// The nine pieces, in normal form.
pub fn basic_tiles() -> (tiles: Vec<Tile>)
    ensures
        tiles@.len() == PIECES,
        forall|b: int|
            0 <= b < PIECES ==> (#[trigger] tiles@[b])@ == crate::tile::canonical(basic_shape(b))
                && tidy(tiles@[b]@) && within(tiles@[b]@, 4),
{
    let p = |x: i32, y: i32| -> (q: Point)
        ensures
            q == (Point { x, y }),
        { Point { x, y } };
    let mut tiles: Vec<Tile> = Vec::new();
    let cells = vec![p(0, 0), p(1, 0), p(2, 0), p(0, 1), p(1, 1)];
    proof {
        assert(cells@ =~= basic_shape(0));
    }
    tiles.push(small_tile(cells));
    let cells = vec![p(0, 0), p(1, 0), p(2, 0), p(3, 0), p(0, 1)];
    proof {
        assert(cells@ =~= basic_shape(1));
    }
    tiles.push(small_tile(cells));
    let cells = vec![p(1, 0), p(2, 0), p(3, 0), p(0, 1), p(1, 1)];
    proof {
        assert(cells@ =~= basic_shape(2));
    }
    tiles.push(small_tile(cells));
    let cells = vec![p(0, 0), p(1, 0), p(2, 0), p(3, 0), p(0, 1), p(0, 2)];
    proof {
        assert(cells@ =~= basic_shape(3));
    }
    tiles.push(small_tile(cells));
    let cells = vec![p(0, 0), p(1, 0), p(2, 0), p(3, 0), p(1, 1), p(1, 2)];
    proof {
        assert(cells@ =~= basic_shape(4));
    }
    tiles.push(small_tile(cells));
    let cells = vec![p(0, 0), p(1, 0), p(2, 0), p(3, 0), p(4, 0), p(0, 1)];
    proof {
        assert(cells@ =~= basic_shape(5));
    }
    tiles.push(small_tile(cells));
    let cells = vec![p(0, 0), p(1, 0), p(2, 0), p(3, 0), p(4, 0), p(1, 1)];
    proof {
        assert(cells@ =~= basic_shape(6));
    }
    tiles.push(small_tile(cells));
    let cells = vec![p(0, 0), p(1, 0), p(2, 0), p(1, 1), p(1, 2), p(2, 2)];
    proof {
        assert(cells@ =~= basic_shape(7));
    }
    tiles.push(small_tile(cells));
    let cells = vec![p(0, 0), p(1, 0), p(1, 1), p(2, 1), p(3, 1), p(1, 2)];
    proof {
        assert(cells@ =~= basic_shape(8));
    }
    tiles.push(small_tile(cells));
    tiles
}

/// A piece in one of its orientations at a place on the board.
pub struct Placement {
    pub tile: Tile,
    /// The number of the piece.
    pub piece: usize,
    /// Column and row of the corner of the bounding box of the piece.
    pub x: i32,
    pub y: i32,
}

/// What a placement is: a shape, the piece it is a shape of, and where its
/// corner lies.
pub struct Stand {
    pub shape: Seq<Point>,
    pub piece: int,
    pub x: int,
    pub y: int,
}

impl View for Placement {
    type V = Stand;

    open spec fn view(&self) -> Stand {
        Stand { shape: self.tile@, piece: self.piece as int, x: self.x as int, y: self.y as int }
    }
}

pub open spec fn stands(placements: Seq<Placement>) -> Seq<Stand> {
    placements.map_values(|p: Placement| p@)
}

/// The cell of the board that the cell `p` of a piece covers when the
/// corner of the piece lies at column `x` and row `y`.
pub open spec fn placed(p: Point, x: int, y: int) -> Point {
    Point { x: (x + p.x) as i32, y: (y + p.y) as i32 }
}

/// The piece lies on the board and covers none of the open cells.
pub open spec fn fits(shape: Seq<Point>, x: int, y: int, holes: Seq<Point>) -> bool {
    forall|i: int|
        0 <= i < shape.len() ==> x + (#[trigger] shape[i]).x < BOARD_WIDTH && y + shape[i].y
            < BOARD_HEIGHT && !holes.contains(placed(shape[i], x, y))
}

/// The piece has nothing to rest on: every cell right below it is one of
/// the open cells. A cell below the last row is no open cell: a piece in
/// the last row rests on the frame of the board. (If the frame carried no
/// piece, no piece could lie in the last row, and no date could be
/// solved.)
pub open spec fn falls(shape: Seq<Point>, x: int, y: int, holes: Seq<Point>) -> bool {
    forall|i: int|
        0 <= i < support(shape).len() ==> holes.contains(
            placed(#[trigger] support(shape)[i], x, y),
        )
}

/// The piece may be put at the place: it fits and, where gravity counts,
/// does not fall.
pub open spec fn may_stand(
    shape: Seq<Point>,
    x: int,
    y: int,
    holes: Seq<Point>,
    gravity: bool,
) -> bool {
    fits(shape, x, y, holes) && (!gravity || !falls(shape, x, y, holes))
}

/// The placements of a shape in column `x`, in the rows before `ylim`.
pub open spec fn stands_in_column(
    shape: Seq<Point>,
    piece: int,
    x: int,
    holes: Seq<Point>,
    gravity: bool,
    ylim: int,
) -> Seq<Stand>
    decreases ylim,
{
    if ylim <= 0 {
        Seq::empty()
    } else if may_stand(shape, x, ylim - 1, holes, gravity) {
        stands_in_column(shape, piece, x, holes, gravity, ylim - 1).push(
            Stand { shape, piece, x, y: ylim - 1 },
        )
    } else {
        stands_in_column(shape, piece, x, holes, gravity, ylim - 1)
    }
}

/// The placements of a shape in the columns before `xlim`: column by
/// column, and in each column from the top row down.
pub open spec fn stands_of_shape(
    shape: Seq<Point>,
    piece: int,
    holes: Seq<Point>,
    gravity: bool,
    xlim: int,
) -> Seq<Stand>
    decreases xlim,
{
    if xlim <= 0 {
        Seq::empty()
    } else {
        stands_of_shape(shape, piece, holes, gravity, xlim - 1) + stands_in_column(
            shape,
            piece,
            xlim - 1,
            holes,
            gravity,
            BOARD_HEIGHT as int,
        )
    }
}

/// The placements of the first `olim` orientations of a piece.
pub open spec fn stands_of_piece(
    orientations: Seq<Seq<Point>>,
    piece: int,
    holes: Seq<Point>,
    gravity: bool,
    olim: int,
) -> Seq<Stand>
    decreases olim,
{
    if olim <= 0 {
        Seq::empty()
    } else {
        stands_of_piece(orientations, piece, holes, gravity, olim - 1) + stands_of_shape(
            orientations[olim - 1],
            piece,
            holes,
            gravity,
            BOARD_WIDTH as int,
        )
    }
}

/// The orientations of a piece: the shapes among its eight images.
pub open spec fn orientations_of(piece: int) -> Seq<Seq<Point>> {
    first_seen(canonical(basic_shape(piece)), 8)
}

/// The placements of the first `blim` pieces: all places on the board at
/// which an orientation of a piece may stand, piece by piece.
pub open spec fn all_stands(holes: Seq<Point>, gravity: bool, blim: int) -> Seq<Stand>
    decreases blim,
{
    if blim <= 0 {
        Seq::empty()
    } else {
        all_stands(holes, gravity, blim - 1) + stands_of_piece(
            orientations_of(blim - 1),
            blim - 1,
            holes,
            gravity,
            orientations_of(blim - 1).len() as int,
        )
    }
}

/// The placement is one of a piece that fits: its corner lies on the
/// board, and so do its cells, none of them on an open cell.
pub open spec fn sound(stand: Stand, holes: Seq<Point>) -> bool {
    anchored(stand) && fits(stand.shape, stand.x, stand.y, holes)
}

/// The corner of the placement lies on the board, and its cells are not
/// far from the corner.
pub open spec fn anchored(stand: Stand) -> bool {
    &&& 0 <= stand.x < BOARD_WIDTH
    &&& 0 <= stand.y < BOARD_HEIGHT
    &&& within(stand.shape, i32::MAX - 16)
}

/// The cell is one of the open cells.
fn is_hole(holes: &Vec<Point>, x: i32, y: i32) -> (found: bool)
    ensures
        found == holes@.contains(Point { x, y }),
{
    has_point(holes, Point { x, y })
}

/// Tells whether the piece may be put with its corner at column `x` and
/// row `y`.
pub fn can_stand(tile: &Tile, x: i32, y: i32, holes: &Vec<Point>, has_gravity: bool) -> (ok: bool)
    requires
        0 <= x < BOARD_WIDTH,
        0 <= y < BOARD_HEIGHT,
        within(tile@, i32::MAX - 16),
    ensures
        ok == may_stand(tile@, x as int, y as int, holes@, has_gravity),
{
    let mut can_put = true;
    let mut index: usize = 0;
    while index < tile.points.len()
        invariant
            index <= tile@.len(),
            0 <= x < BOARD_WIDTH,
            0 <= y < BOARD_HEIGHT,
            within(tile@, i32::MAX - 16),
            can_put == forall|i: int|
                0 <= i < index ==> x + (#[trigger] tile@[i]).x < BOARD_WIDTH && y + tile@[i].y
                    < BOARD_HEIGHT && !holes@.contains(placed(tile@[i], x as int, y as int)),
        decreases tile@.len() - index,
    {
        let point = tile.points[index];
        if !(x + point.x < BOARD_WIDTH && y + point.y < BOARD_HEIGHT && !is_hole(
            holes,
            x + point.x,
            y + point.y,
        )) {
            can_put = false;
        }
        index += 1;
    }
    let under = tile.gravity_support();
    proof {
        lemma_support_below(tile@, tile@.len() as int);
    }
    let mut will_fall = true;
    let mut index: usize = 0;
    while index < under.len()
        invariant
            index <= under@.len(),
            under@ == support(tile@),
            0 <= x < BOARD_WIDTH,
            0 <= y < BOARD_HEIGHT,
            forall|i: int|
                0 <= i < under@.len() ==> 0 <= (#[trigger] under@[i]).x <= i32::MAX - 16 && 0
                    <= under@[i].y <= i32::MAX - 15,
            will_fall == forall|i: int|
                0 <= i < index ==> holes@.contains(
                    placed(#[trigger] support(tile@)[i], x as int, y as int),
                ),
        decreases under@.len() - index,
    {
        let point = under[index];
        if !is_hole(holes, x + point.x, y + point.y) {
            will_fall = false;
        }
        index += 1;
    }
    can_put && (!has_gravity || !will_fall)
}

/// What a piece rests on lies right below cells of the piece.
pub proof fn lemma_support_below(shape: Seq<Point>, k: int)
    requires
        0 <= k <= shape.len(),
        within(shape, i32::MAX - 16),
    ensures
        forall|i: int|
            0 <= i < crate::tile::support_upto(shape, k).len() ==> 0 <= (
            #[trigger] crate::tile::support_upto(shape, k)[i]).x <= i32::MAX - 16 && 0
                <= crate::tile::support_upto(shape, k)[i].y <= i32::MAX - 15,
    decreases k,
{
    if k > 0 {
        lemma_support_below(shape, k - 1);
        assert(0 <= shape[k - 1].x <= i32::MAX - 16 && 0 <= shape[k - 1].y <= i32::MAX - 16);
        let now = crate::tile::support_upto(shape, k);
        let before = crate::tile::support_upto(shape, k - 1);
        assert forall|i: int| 0 <= i < now.len() implies 0 <= (#[trigger] now[i]).x <= i32::MAX
            - 16 && 0 <= now[i].y <= i32::MAX - 15 by {
            if i < before.len() {
                assert(now[i] == before[i]);
            } else {
                assert(now[i] == crate::tile::below(shape[k - 1]));
            }
        }
    }
}

/// Appends the placements of a piece: of each of its orientations, column
/// by column, and in each column from the top row down.
pub fn place_piece(
    tiles: &Vec<Tile>,
    piece: usize,
    holes: &Vec<Point>,
    has_gravity: bool,
    placements: &mut Vec<Placement>,
)
    requires
        forall|i: int| 0 <= i < tiles@.len() ==> within(#[trigger] tiles@[i]@, i32::MAX - 16),
    ensures
        stands(final(placements)@) == stands(old(placements)@) + stands_of_piece(
            shapes(tiles@),
            piece as int,
            holes@,
            has_gravity,
            tiles@.len() as int,
        ),
        final(placements)@.len() >= old(placements)@.len(),
        forall|i: int|
            0 <= i < old(placements)@.len() ==> (#[trigger] final(placements)@[i])@ == old(
                placements,
            )@[i]@,
        forall|i: int|
            old(placements)@.len() <= i < final(placements)@.len() ==> sound(
                #[trigger] final(placements)@[i]@,
                holes@,
            ),
        forall|i: int|
            old(placements)@.len() <= i < final(placements)@.len() ==> (
            #[trigger] final(placements)@[i]).piece == piece,
{
    let ghost base = stands(placements@);
    let ghost old_len = placements@.len();
    let ghost origin = placements@;
    let ghost all = shapes(tiles@);
    let mut index: usize = 0;
    proof {
        assert(stands(placements@) =~= base + stands_of_piece(
            all,
            piece as int,
            holes@,
            has_gravity,
            0,
        ));
    }
    while index < tiles.len()
        invariant
            index <= tiles@.len(),
            all == shapes(tiles@),
            forall|i: int| 0 <= i < tiles@.len() ==> within(#[trigger] tiles@[i]@, i32::MAX - 16),
            placements@.len() >= old_len,
            forall|i: int| 0 <= i < old_len ==> (#[trigger] placements@[i])@ == origin[i]@,
            forall|i: int|
                old_len <= i < placements@.len() ==> sound(#[trigger] placements@[i]@, holes@),
            forall|i: int| old_len <= i < placements@.len() ==> (#[trigger] placements@[i]).piece == piece,
            stands(placements@) == base + stands_of_piece(
                all,
                piece as int,
                holes@,
                has_gravity,
                index as int,
            ),
        decreases tiles@.len() - index,
    {
        let tile = &tiles[index];
        let ghost shape = tile@;
        let ghost before_tile = stands(placements@);
        proof {
            assert(all[index as int] == shape);
            assert(stands(placements@) =~= before_tile + stands_of_shape(
                shape,
                piece as int,
                holes@,
                has_gravity,
                0,
            ));
        }
        let mut x: i32 = 0;
        while x < BOARD_WIDTH
            invariant
                0 <= x <= BOARD_WIDTH,
                shape == tile@,
                within(shape, i32::MAX - 16),
                placements@.len() >= old_len,
                    forall|i: int| 0 <= i < old_len ==> (#[trigger] placements@[i])@ == origin[i]@,
                    forall|i: int|
                old_len <= i < placements@.len() ==> sound(#[trigger] placements@[i]@, holes@),
            forall|i: int| old_len <= i < placements@.len() ==> (#[trigger] placements@[i]).piece == piece,
                stands(placements@) == before_tile + stands_of_shape(
                    shape,
                    piece as int,
                    holes@,
                    has_gravity,
                    x as int,
                ),
            decreases BOARD_WIDTH - x,
        {
            let ghost before_column = stands(placements@);
            proof {
                assert(stands(placements@) =~= before_column + stands_in_column(
                    shape,
                    piece as int,
                    x as int,
                    holes@,
                    has_gravity,
                    0,
                ));
            }
            let mut y: i32 = 0;
            while y < BOARD_HEIGHT
                invariant
                    0 <= x < BOARD_WIDTH,
                    0 <= y <= BOARD_HEIGHT,
                    shape == tile@,
                    within(shape, i32::MAX - 16),
                    placements@.len() >= old_len,
                            forall|i: int| 0 <= i < old_len ==> (#[trigger] placements@[i])@ == origin[i]@,
                            forall|i: int|
                old_len <= i < placements@.len() ==> sound(#[trigger] placements@[i]@, holes@),
            forall|i: int| old_len <= i < placements@.len() ==> (#[trigger] placements@[i]).piece == piece,
                    stands(placements@) == before_column + stands_in_column(
                        shape,
                        piece as int,
                        x as int,
                        holes@,
                        has_gravity,
                        y as int,
                    ),
                decreases BOARD_HEIGHT - y,
            {
                if can_stand(tile, x, y, holes, has_gravity) {
                    let ghost before = placements@;
                    placements.push(Placement { tile: tile.duplicate(), piece, x, y });
                    proof {
                        assert(stands(placements@) =~= stands(before).push(
                            Stand { shape, piece: piece as int, x: x as int, y: y as int },
                        ));
                        assert(stands(placements@) =~= before_column + stands_in_column(
                            shape,
                            piece as int,
                            x as int,
                            holes@,
                            has_gravity,
                            y + 1,
                        ));
                    }
                }
                y += 1;
            }
            proof {
                assert(stands(placements@) =~= before_tile + stands_of_shape(
                    shape,
                    piece as int,
                    holes@,
                    has_gravity,
                    x + 1,
                ));
            }
            x += 1;
        }
        proof {
            assert(stands(placements@) =~= base + stands_of_piece(
                all,
                piece as int,
                holes@,
                has_gravity,
                index + 1,
            ));
        }
        index += 1;
    }
}

/// The placement covers the cell.
pub open spec fn covers(stand: Stand, cell: Point) -> bool {
    exists|i: int|
        0 <= i < stand.shape.len() && placed(#[trigger] stand.shape[i], stand.x, stand.y) == cell
}

/// The placements among the first `k` that cover the cell, in ascending
/// order.
pub open spec fn covering(all: Seq<Stand>, cell: Point, k: int) -> Seq<usize>
    decreases k,
{
    if k <= 0 {
        Seq::empty()
    } else if covers(all[k - 1], cell) {
        covering(all, cell, k - 1).push((k - 1) as usize)
    } else {
        covering(all, cell, k - 1)
    }
}

/// The column of piece `b`: its placements stand one after the other.
pub open spec fn piece_column(holes: Seq<Point>, gravity: bool, b: int) -> ColumnSpec {
    ColumnSpec {
        kind: ColumnType::Unique,
        rows: Seq::new(
            (all_stands(holes, gravity, b + 1).len() - all_stands(holes, gravity, b).len()) as nat,
            |j: int| (all_stands(holes, gravity, b).len() + j) as usize,
        ),
    }
}

/// The columns of the cells of column `x` of the board in the rows before
/// `ylim`: one for every cell that some placement covers.
pub open spec fn cell_columns_in(all: Seq<Stand>, x: int, ylim: int) -> Seq<ColumnSpec>
    decreases ylim,
{
    if ylim <= 0 {
        Seq::empty()
    } else {
        let rows = covering(all, Point { x: x as i32, y: (ylim - 1) as i32 }, all.len() as int);
        if rows.len() > 0 {
            cell_columns_in(all, x, ylim - 1).push(ColumnSpec { kind: ColumnType::Unique, rows })
        } else {
            cell_columns_in(all, x, ylim - 1)
        }
    }
}

/// The columns of the cells in the columns of the board before `xlim`.
pub open spec fn cell_columns(all: Seq<Stand>, xlim: int) -> Seq<ColumnSpec>
    decreases xlim,
{
    if xlim <= 0 {
        Seq::empty()
    } else {
        cell_columns(all, xlim - 1) + cell_columns_in(all, xlim - 1, BOARD_HEIGHT as int)
    }
}

/// The matrix of the puzzle for the given open cells: a row for every
/// placement, a unique column for every piece, which holds its placements,
/// and a unique column for every cell that can be covered, which holds the
/// placements that cover it.
pub open spec fn calendar_matrix(holes: Seq<Point>, gravity: bool) -> Matrix {
    let all = all_stands(holes, gravity, PIECES as int);
    Matrix {
        rows: all.len(),
        columns: Seq::new(PIECES as nat, |b: int| piece_column(holes, gravity, b)) + cell_columns(
            all,
            BOARD_WIDTH as int,
        ),
        budgets: Seq::empty(),
    }
}

/// Tells whether the placement covers the cell in column `x` and row `y`.
pub fn covers_cell(placement: &Placement, x: i32, y: i32) -> (found: bool)
    requires
        0 <= placement.x < BOARD_WIDTH,
        0 <= placement.y < BOARD_HEIGHT,
        within(placement.tile@, i32::MAX - 16),
    ensures
        found == covers(placement@, Point { x, y }),
{
    let mut index: usize = 0;
    while index < placement.tile.points.len()
        invariant
            index <= placement.tile@.len(),
            0 <= placement.x < BOARD_WIDTH,
            0 <= placement.y < BOARD_HEIGHT,
            within(placement.tile@, i32::MAX - 16),
            forall|i: int|
                0 <= i < index ==> placed(
                    #[trigger] placement.tile@[i],
                    placement.x as int,
                    placement.y as int,
                ) != (Point { x, y }),
        decreases placement.tile@.len() - index,
    {
        let point = placement.tile.points[index];
        if placement.x + point.x == x && placement.y + point.y == y {
            proof {
                assert(placed(placement@.shape[index as int], placement@.x, placement@.y)
                    == (Point { x, y }));
                assert(covers(placement@, Point { x, y }));
            }
            return true;
        }
        index += 1;
    }
    false
}

/// The placements that cover the cell in column `x` and row `y`.
pub fn covering_rows(placements: &Vec<Placement>, x: i32, y: i32) -> (rows: Vec<usize>)
    requires
        forall|i: int| 0 <= i < placements@.len() ==> anchored(#[trigger] placements@[i]@),
    ensures
        rows@ == covering(stands(placements@), Point { x, y }, placements@.len() as int),
        rows@.no_duplicates(),
        forall|i: int| 0 <= i < rows@.len() ==> (#[trigger] rows@[i]) < placements@.len(),
{
    let ghost all = stands(placements@);
    let mut rows: Vec<usize> = Vec::new();
    let mut index: usize = 0;
    while index < placements.len()
        invariant
            index <= placements@.len(),
            all == stands(placements@),
            forall|i: int| 0 <= i < placements@.len() ==> anchored(#[trigger] placements@[i]@),
            rows@ == covering(all, Point { x, y }, index as int),
            forall|i: int| 0 <= i < rows@.len() ==> (#[trigger] rows@[i]) < index,
            forall|i: int, j: int| 0 <= i < j < rows@.len() ==> rows@[i] < rows@[j],
        decreases placements@.len() - index,
    {
        proof {
            assert(anchored(placements@[index as int]@));
            assert(all[index as int] == placements@[index as int]@);
        }
        if covers_cell(&placements[index], x, y) {
            rows.push(index);
        }
        index += 1;
    }
    rows
}

/// The calendar puzzle for a date: the solver and the placements that its
/// rows stand for.
pub struct CalendarPuzzle {
    pub solver: PuzzleSolver,
    pub placements: Vec<Placement>,
}

/// The first `rows` rows of the solver are free and not chosen.
pub open spec fn untouched_rows(solver: &PuzzleSolver, rows: int) -> bool {
    forall|r: int| 0 <= r < rows ==> #[trigger] solver.is_fresh(r)
}

/// Builds the puzzle for the given open cells.
pub fn build_calendar(holes: &Vec<Point>, has_gravity: bool) -> (puzzle: CalendarPuzzle)
    ensures
        puzzle.solver.wf(),
        !puzzle.solver.started(),
        puzzle.solver@ == calendar_matrix(holes@, has_gravity),
        stands(puzzle.placements@) == all_stands(holes@, has_gravity, PIECES as int),
        forall|i: int|
            0 <= i < puzzle.placements@.len() ==> sound(#[trigger] puzzle.placements@[i]@, holes@),
        forall|i: int|
            0 <= i < puzzle.placements@.len() ==> (#[trigger] puzzle.placements@[i]).piece < PIECES,
        forall|r: int| 0 <= r < puzzle.placements@.len() ==> #[trigger] puzzle.solver.is_fresh(r),
        puzzle.wf(),
{
    let basic_tile_list = basic_tiles();
    let mut solver = PuzzleSolver::new();
    let mut placements: Vec<Placement> = Vec::new();
    let mut piece: usize = 0;
    proof {
        assert(stands(placements@) =~= all_stands(holes@, has_gravity, 0));
        assert(solver@.columns =~= Seq::new(0, |b: int| piece_column(holes@, has_gravity, b)));
    }
    while piece < PIECES
        invariant
            piece <= PIECES,
            basic_tile_list@.len() == PIECES,
            forall|b: int|
                0 <= b < PIECES ==> (#[trigger] basic_tile_list@[b])@ == canonical(basic_shape(b))
                    && tidy(basic_tile_list@[b]@) && within(basic_tile_list@[b]@, 4),
            solver.wf(),
            !solver.started(),
            solver@.rows == placements@.len(),
            solver@.budgets.len() == 0,
            solver@.columns == Seq::new(
                piece as nat,
                |b: int| piece_column(holes@, has_gravity, b),
            ),
            stands(placements@) == all_stands(holes@, has_gravity, piece as int),
            forall|i: int| 0 <= i < placements@.len() ==> sound(#[trigger] placements@[i]@, holes@),
            forall|i: int| 0 <= i < placements@.len() ==> (#[trigger] placements@[i]).piece < PIECES,
            untouched_rows(&solver, placements@.len() as int),
        decreases PIECES - piece,
    {
        let ghost before_solver = solver;
        let ghost before = placements@;
        let tiles = generate_tiles(&basic_tile_list[piece]);
        let start = placements.len();
        proof {
            assert forall|i: int| 0 <= i < tiles@.len() implies within(
                #[trigger] tiles@[i]@,
                i32::MAX - 16,
            ) by {
                assert(within(tiles@[i]@, 4));
            }
        }
        place_piece(&tiles, piece, holes, has_gravity, &mut placements);
        let row_count = placements.len() - start;
        solver.add_rows(row_count);
        proof {
            assert(shapes(tiles@) == orientations_of(piece as int));
            assert(stands(placements@) == all_stands(holes@, has_gravity, piece + 1));
            assert(stands(placements@).len() == placements@.len());
            assert(stands(before).len() == before.len());
            assert(solver@.columns[piece as int].rows =~= piece_column(
                holes@,
                has_gravity,
                piece as int,
            ).rows);
            assert(solver@.columns =~= Seq::new(
                (piece + 1) as nat,
                |b: int| piece_column(holes@, has_gravity, b),
            ));
            assert forall|i: int| 0 <= i < placements@.len() implies sound(
                #[trigger] placements@[i]@,
                holes@,
            ) by {
                if i < before.len() {
                    assert(sound(before[i]@, holes@));
                }
            }
            assert forall|i: int| 0 <= i < placements@.len() implies (
            #[trigger] placements@[i]).piece < PIECES by {
                if i < before.len() {
                    assert(before[i].piece < PIECES);
                    assert(placements@[i]@ == before[i]@);
                }
            }
            assert forall|r: int| 0 <= r < placements@.len() implies #[trigger] solver.is_fresh(
                r,
            ) by {
                if r < start {
                    assert(before_solver.is_fresh(r));
                    assert(solver.same_row_state(&before_solver, r));
                } else {
                    assert(solver.is_fresh(r));
                }
            }
        }
        piece += 1;
    }
    let ghost all = stands(placements@);
    let ghost pieces = solver@.columns;
    let mut x: i32 = 0;
    proof {
        assert(solver@.columns =~= pieces + cell_columns(all, 0));
    }
    while x < BOARD_WIDTH
        invariant
            0 <= x <= BOARD_WIDTH,
            all == stands(placements@),
            solver.wf(),
            !solver.started(),
            solver@.rows == placements@.len(),
            solver@.budgets.len() == 0,
            solver@.columns == pieces + cell_columns(all, x as int),
            forall|i: int| 0 <= i < placements@.len() ==> sound(#[trigger] placements@[i]@, holes@),
            forall|i: int| 0 <= i < placements@.len() ==> (#[trigger] placements@[i]).piece < PIECES,
            untouched_rows(&solver, placements@.len() as int),
        decreases BOARD_WIDTH - x,
    {
        let ghost before_column = solver@.columns;
        let mut y: i32 = 0;
        proof {
            assert(solver@.columns =~= before_column + cell_columns_in(all, x as int, 0));
        }
        while y < BOARD_HEIGHT
            invariant
                0 <= x < BOARD_WIDTH,
                0 <= y <= BOARD_HEIGHT,
                all == stands(placements@),
                solver.wf(),
                !solver.started(),
                solver@.rows == placements@.len(),
                solver@.budgets.len() == 0,
                before_column == pieces + cell_columns(all, x as int),
                solver@.columns == before_column + cell_columns_in(all, x as int, y as int),
                forall|i: int| 0 <= i < placements@.len() ==> sound(#[trigger] placements@[i]@, holes@),
            forall|i: int| 0 <= i < placements@.len() ==> (#[trigger] placements@[i]).piece < PIECES,
                untouched_rows(&solver, placements@.len() as int),
            decreases BOARD_HEIGHT - y,
        {
            let ghost before_solver = solver;
            proof {
                assert forall|i: int| 0 <= i < placements@.len() implies anchored(
                    #[trigger] placements@[i]@,
                ) by {
                    assert(sound(placements@[i]@, holes@));
                }
            }
            let list = covering_rows(&placements, x, y);
            if list.len() > 0 {
                proof {
                    assert forall|i: int| 0 <= i < list@.len() implies solver.is_free(
                        #[trigger] list@[i] as int,
                    ) by {
                        assert(solver.is_fresh(list@[i] as int));
                    }
                }
                solver.add_column(list);
                proof {
                    assert forall|r: int| 0 <= r < placements@.len() implies #[trigger] solver.is_fresh(
                        r,
                    ) by {
                        assert(before_solver.is_fresh(r));
                        assert(solver.same_row_state(&before_solver, r));
                    }
                }
            }
            proof {
                assert(solver@.columns =~= before_column + cell_columns_in(all, x as int, y + 1));
            }
            y += 1;
        }
        proof {
            assert(solver@.columns =~= pieces + cell_columns(all, x + 1));
        }
        x += 1;
    }
    proof {
        assert(solver@.budgets =~= Seq::empty());
        assert forall|i: int| 0 <= i < placements@.len() implies paintable(
            #[trigger] placements@[i],
        ) by {
            assert(sound(placements@[i]@, holes@));
        }
    }
    CalendarPuzzle { solver, placements }
}

/// The number in a cell after the first `k` placements of the list were
/// painted: the piece of the last of them that covers the cell, counted
/// from 1, and 0 for a cell that none of them covers.
pub open spec fn color_at(all: Seq<Stand>, solution: Seq<usize>, cell: Point, k: int) -> int
    decreases k,
{
    if k <= 0 {
        0
    } else if covers(all[solution[k - 1] as int], cell) {
        all[solution[k - 1] as int].piece + 1
    } else {
        color_at(all, solution, cell, k - 1)
    }
}

/// The placement can be painted: its corner lies on the board, and the
/// number of its piece can be counted from 1.
pub open spec fn paintable(placement: Placement) -> bool {
    anchored(placement@) && placement.piece < usize::MAX
}

/// The number in the cell in column `x` and row `y` after the placements
/// of the list were painted.
fn paint_cell(placements: &Vec<Placement>, solution: &Vec<usize>, x: i32, y: i32) -> (color: usize)
    requires
        forall|i: int| 0 <= i < solution@.len() ==> (#[trigger] solution@[i]) < placements@.len(),
        forall|i: int|
            0 <= i < placements@.len() ==> paintable(#[trigger] placements@[i]),
    ensures
        color == color_at(stands(placements@), solution@, Point { x, y }, solution@.len() as int),
{
    let ghost all = stands(placements@);
    let mut color: usize = 0;
    let mut index: usize = 0;
    while index < solution.len()
        invariant
            index <= solution@.len(),
            all == stands(placements@),
            forall|i: int|
                0 <= i < solution@.len() ==> (#[trigger] solution@[i]) < placements@.len(),
            forall|i: int|
                0 <= i < placements@.len() ==> paintable(#[trigger] placements@[i]),
            color == color_at(all, solution@, Point { x, y }, index as int),
        decreases solution@.len() - index,
    {
        let row = solution[index];
        proof {
            assert(paintable(placements@[row as int]));
            assert(all[row as int] == placements@[row as int]@);
        }
        if covers_cell(&placements[row], x, y) {
            color = placements[row].piece + 1;
        }
        index += 1;
    }
    color
}

/// Paints the placements of the list on the board, one after the other:
/// row by row of the board the number in each cell.
pub fn paint_board(placements: &Vec<Placement>, solution: &Vec<usize>) -> (board: Vec<Vec<usize>>)
    requires
        forall|i: int| 0 <= i < solution@.len() ==> (#[trigger] solution@[i]) < placements@.len(),
        forall|i: int|
            0 <= i < placements@.len() ==> paintable(#[trigger] placements@[i]),
    ensures
        is_grid(board@, BOARD_HEIGHT as int, BOARD_WIDTH as int),
        forall|x: int, y: int|
            0 <= x < BOARD_WIDTH && 0 <= y < BOARD_HEIGHT ==> (#[trigger] board@[y]@[x]) == color_at(
                stands(placements@),
                solution@,
                Point { x: x as i32, y: y as i32 },
                solution@.len() as int,
            ),
{
    let ghost all = stands(placements@);
    let mut board: Vec<Vec<usize>> = Vec::new();
    let mut y: i32 = 0;
    while y < BOARD_HEIGHT
        invariant
            0 <= y <= BOARD_HEIGHT,
            all == stands(placements@),
            forall|i: int|
                0 <= i < solution@.len() ==> (#[trigger] solution@[i]) < placements@.len(),
            forall|i: int|
                0 <= i < placements@.len() ==> paintable(#[trigger] placements@[i]),
            is_grid(board@, y as int, BOARD_WIDTH as int),
            forall|i: int, j: int|
                0 <= i < BOARD_WIDTH && 0 <= j < y ==> (#[trigger] board@[j]@[i]) == color_at(
                    all,
                    solution@,
                    Point { x: i as i32, y: j as i32 },
                    solution@.len() as int,
                ),
        decreases BOARD_HEIGHT - y,
    {
        let mut line: Vec<usize> = Vec::new();
        let mut x: i32 = 0;
        while x < BOARD_WIDTH
            invariant
                0 <= x <= BOARD_WIDTH,
                0 <= y < BOARD_HEIGHT,
                all == stands(placements@),
                forall|i: int|
                    0 <= i < solution@.len() ==> (#[trigger] solution@[i]) < placements@.len(),
                forall|i: int|
                    0 <= i < placements@.len() ==> paintable(#[trigger] placements@[i]),
                line@.len() == x,
                forall|i: int|
                    0 <= i < x ==> (#[trigger] line@[i]) == color_at(
                        all,
                        solution@,
                        Point { x: i as i32, y },
                        solution@.len() as int,
                    ),
            decreases BOARD_WIDTH - x,
        {
            line.push(paint_cell(placements, solution, x, y));
            x += 1;
        }
        board.push(line);
        y += 1;
    }
    board
}

/// The board after the placements of the list were painted: the number in
/// each cell, row by row.
pub open spec fn painted(all: Seq<Stand>, solution: Seq<usize>) -> Seq<Seq<usize>> {
    Seq::new(
        BOARD_HEIGHT as nat,
        |y: int|
            Seq::new(
                BOARD_WIDTH as nat,
                |x: int|
                    color_at(
                        all,
                        solution,
                        Point { x: x as i32, y: y as i32 },
                        solution.len() as int,
                    ) as usize,
            ),
    )
}

/// Draws the board with the placements of the list on it, line by line.
pub fn draw_calendar(placements: &Vec<Placement>, solution: &Vec<usize>) -> (lines: Vec<Vec<char>>)
    requires
        forall|i: int| 0 <= i < solution@.len() ==> (#[trigger] solution@[i]) < placements@.len(),
        forall|i: int| 0 <= i < placements@.len() ==> paintable(#[trigger] placements@[i]),
    ensures
        lines_of(lines@) == pieces_drawing(painted(stands(placements@), solution@)),
{
    let board = paint_board(placements, solution);
    proof {
        let grid = grid_of(board@);
        let goal = painted(stands(placements@), solution@);
        assert(grid.len() == goal.len());
        assert forall|y: int| 0 <= y < grid.len() implies grid[y] == goal[y] by {
            assert(board@[y]@.len() == BOARD_WIDTH);
            assert forall|x: int| 0 <= x < BOARD_WIDTH implies grid[y][x] == goal[y][x] by {
                assert(board@[y]@[x] == color_at(
                    stands(placements@),
                    solution@,
                    Point { x: x as i32, y: y as i32 },
                    solution@.len() as int,
                ));
            }
            assert(grid[y] =~= goal[y]);
        }
        assert(grid =~= goal);
    }
    draw_pieces(&board)
}

impl CalendarPuzzle {
    /// The rows of the solver are the placements, and every placement can
    /// be painted.
    pub open spec fn wf(&self) -> bool {
        &&& self.solver.wf()
        &&& self.solver@.rows == self.placements@.len()
        &&& forall|i: int|
            0 <= i < self.placements@.len() ==> paintable(#[trigger] self.placements@[i])
    }

    /// The lines draw the board with the placements on it that the solver
    /// has chosen.
    pub open spec fn shows(&self, lines: Seq<Seq<char>>) -> bool {
        exists|solution: Seq<usize>| #[trigger]
            self.solver.lists_chosen(solution) && lines == pieces_drawing(
                painted(stands(self.placements@), solution),
            )
    }

    /// Looks for the next solution and draws it; none when the search is
    /// over.
    pub fn next_drawing(&mut self) -> (lines: Option<Vec<Vec<char>>>)
        requires
            old(self).wf(),
        ensures
            final(self).wf(),
            final(self).solver@ == old(self).solver@,
            stands(final(self).placements@) == stands(old(self).placements@),
            match lines {
                Some(l) => final(self).solver@.is_solution(final(self).solver.chosen_set())
                    && final(self).shows(lines_of(l@)),
                None => final(self).solver.exhausted(),
            },
            exists|found: Option<Seq<usize>>|
                (found is Some) == (lines is Some) && #[trigger] final(self).solver.is_next_of(
                    &old(self).solver,
                    found,
                ),
    {
        let ghost before = self.solver;
        match self.solver.solve_next() {
            Some(solution) => {
                proof {
                    assert forall|i: int| 0 <= i < solution@.len() implies (
                    #[trigger] solution@[i]) < self.placements@.len() by {
                        assert(self.solver.is_chosen(solution@[i] as int));
                    }
                }
                let lines = draw_calendar(&self.placements, &solution);
                proof {
                    assert(self.solver.lists_chosen(solution@));
                    assert(self.solver.is_next_of(&before, Some(solution@)));
                }
                Some(lines)
            },
            None => {
                proof {
                    assert(self.solver.is_next_of(&before, None));
                }
                None
            },
        }
    }
}

} // verus!
