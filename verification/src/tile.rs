//! The pieces of the calendar puzzle: sets of board cells, kept in a normal
//! form so that two pieces of the same shape are equal.

use vstd::prelude::*;
use vstd::relations::{sorted_by, total_ordering};
use vstd::seq_lib::{lemma_sorted_unique, to_multiset_contains, to_multiset_update};

verus! {

/// A cell of the board, or of a piece relative to the corner of its
/// bounding box: `x` counts columns, `y` rows, downwards.
#[derive(Clone, Copy, Debug, PartialEq, Eq, Structural, Hash, PartialOrd, Ord)]
pub struct Point {
    pub x: i32,
    pub y: i32,
}

/// A piece in one of its orientations.
#[derive(Debug)]
pub struct Tile {
    pub points: Vec<Point>,
}

impl View for Tile {
    type V = Seq<Point>;

    open spec fn view(&self) -> Seq<Point> {
        self.points@
    }
}

/// `a` comes before `b`, or is `b`: by column first, then by row.
pub open spec fn point_leq(a: Point, b: Point) -> bool {
    a.x < b.x || (a.x == b.x && a.y <= b.y)
}

/// The order in which the points of a piece are kept.
pub open spec fn by_position() -> spec_fn(Point, Point) -> bool {
    |a: Point, b: Point| point_leq(a, b)
}

/// The smallest column of the points; 0 if there are none.
pub open spec fn least_x(s: Seq<Point>) -> int
    decreases s.len(),
{
    if s.len() == 0 {
        0
    } else if s.len() == 1 {
        s[0].x as int
    } else if s.last().x < least_x(s.drop_last()) {
        s.last().x as int
    } else {
        least_x(s.drop_last())
    }
}

/// The smallest row of the points; 0 if there are none.
pub open spec fn least_y(s: Seq<Point>) -> int
    decreases s.len(),
{
    if s.len() == 0 {
        0
    } else if s.len() == 1 {
        s[0].y as int
    } else if s.last().y < least_y(s.drop_last()) {
        s.last().y as int
    } else {
        least_y(s.drop_last())
    }
}

/// The point moved by `dx` columns to the left and `dy` rows up.
pub open spec fn moved(p: Point, dx: int, dy: int) -> Point {
    Point { x: (p.x - dx) as i32, y: (p.y - dy) as i32 }
}

/// The points, each moved by `dx` columns to the left and `dy` rows up.
pub open spec fn shifted(s: Seq<Point>, dx: int, dy: int) -> Seq<Point> {
    s.map_values(|p: Point| moved(p, dx, dy))
}

/// The normal form of a set of points: sorted by position, and moved so
/// that the smallest column and the smallest row are 0.
pub open spec fn canonical(s: Seq<Point>) -> Seq<Point> {
    let sorted = s.sort_by(by_position());
    shifted(sorted, least_x(sorted), least_y(sorted))
}

/// The point after a quarter turn about the origin.
pub open spec fn turned(p: Point) -> Point {
    Point { x: (-p.y) as i32, y: p.x }
}

/// The point mirrored at the row axis.
pub open spec fn mirrored(p: Point) -> Point {
    Point { x: (-p.x) as i32, y: p.y }
}

/// The point one row further down.
pub open spec fn below(p: Point) -> Point {
    Point { x: p.x, y: (p.y + 1) as i32 }
}

/// The piece after a quarter turn, in normal form.
pub open spec fn rotated(s: Seq<Point>) -> Seq<Point> {
    canonical(s.map_values(|p: Point| turned(p)))
}

/// The mirror image of the piece, in normal form.
pub open spec fn flipped(s: Seq<Point>) -> Seq<Point> {
    canonical(s.map_values(|p: Point| mirrored(p)))
}

/// The differences between the columns and between the rows of the points
/// are numbers of the machine.
pub open spec fn spread_fits(s: Seq<Point>) -> bool {
    forall|i: int, j: int|
        0 <= i < s.len() && 0 <= j < s.len() ==> (#[trigger] s[i]).x - (#[trigger] s[j]).x
            <= i32::MAX && s[i].y - s[j].y <= i32::MAX
}

/// There is a point, and no point has a negative column or row.
pub open spec fn tidy(s: Seq<Point>) -> bool {
    &&& s.len() > 0
    &&& forall|i: int| 0 <= i < s.len() ==> (#[trigger] s[i]).x >= 0 && s[i].y >= 0
}

/// No point has a negative column or row, or one beyond `bound`.
pub open spec fn within(s: Seq<Point>, bound: int) -> bool {
    forall|i: int|
        0 <= i < s.len() ==> 0 <= (#[trigger] s[i]).x <= bound && 0 <= s[i].y <= bound
}

/// No two points are more than `bound` columns or rows apart.
pub open spec fn spread_within(s: Seq<Point>, bound: int) -> bool {
    forall|i: int, j: int|
        0 <= i < s.len() && 0 <= j < s.len() ==> (#[trigger] s[i]).x - (#[trigger] s[j]).x
            <= bound && s[i].y - s[j].y <= bound
}

/// The cells right below the first `k` points of the piece that are not
/// cells of the piece: what it rests on.
pub open spec fn support_upto(s: Seq<Point>, k: int) -> Seq<Point>
    decreases k,
{
    if k <= 0 {
        Seq::empty()
    } else if s.contains(below(s[k - 1])) {
        support_upto(s, k - 1)
    } else {
        support_upto(s, k - 1).push(below(s[k - 1]))
    }
}

/// The cells right below the piece: what it rests on.
pub open spec fn support(s: Seq<Point>) -> Seq<Point> {
    support_upto(s, s.len() as int)
}

pub proof fn lemma_position_is_total()
    ensures
        total_ordering(by_position()),
{
    let leq = by_position();
    assert forall|x: Point| #[trigger] leq(x, x) by {}
    assert forall|x: Point, y: Point| #[trigger] leq(x, y) && #[trigger] leq(y, x) implies x
        == y by {}
    assert forall|x: Point, y: Point, z: Point| #[trigger]
        leq(x, y) && #[trigger] leq(y, z) implies leq(x, z) by {}
    assert forall|x: Point, y: Point| #[trigger] leq(x, y) || #[trigger] leq(y, x) by {}
}

pub proof fn lemma_least_is_least(s: Seq<Point>, i: int)
    requires
        0 <= i < s.len(),
    ensures
        least_x(s) <= s[i].x,
        least_y(s) <= s[i].y,
        i32::MIN <= least_x(s) <= i32::MAX,
        i32::MIN <= least_y(s) <= i32::MAX,
    decreases s.len(),
{
    if s.len() > 1 {
        if i < s.len() - 1 {
            lemma_least_is_least(s.drop_last(), i);
        } else {
            lemma_least_is_least(s.drop_last(), 0);
        }
    }
}

/// The smallest column and the smallest row are those of some points.
pub proof fn lemma_least_is_met(s: Seq<Point>)
    requires
        s.len() > 0,
    ensures
        exists|i: int| 0 <= i < s.len() && (#[trigger] s[i]).x == least_x(s),
        exists|i: int| 0 <= i < s.len() && (#[trigger] s[i]).y == least_y(s),
    decreases s.len(),
{
    if s.len() == 1 {
        assert(s[0].x == least_x(s));
        assert(s[0].y == least_y(s));
    } else {
        let t = s.drop_last();
        lemma_least_is_met(t);
        let i = choose|i: int| 0 <= i < t.len() && (#[trigger] t[i]).x == least_x(t);
        let j = choose|j: int| 0 <= j < t.len() && (#[trigger] t[j]).y == least_y(t);
        assert(s[i] == t[i]);
        assert(s[j] == t[j]);
        let last = s.len() - 1;
        if s.last().x < least_x(t) {
            assert(s[last].x == least_x(s));
        } else {
            assert(s[i].x == least_x(s));
        }
        if s.last().y < least_y(t) {
            assert(s[last].y == least_y(s));
        } else {
            assert(s[j].y == least_y(s));
        }
    }
}

/// Two sequences with the same points, each as often in the one as in the
/// other, are as far apart.
pub proof fn lemma_same_points_fit(s: Seq<Point>, t: Seq<Point>)
    requires
        spread_fits(s),
        s.to_multiset() == t.to_multiset(),
    ensures
        spread_fits(t),
        s.len() == t.len(),
{
    s.to_multiset_ensures();
    t.to_multiset_ensures();
    assert forall|i: int, j: int| 0 <= i < t.len() && 0 <= j < t.len() implies (#[trigger] t[i]).x
        - (#[trigger] t[j]).x <= i32::MAX && t[i].y - t[j].y <= i32::MAX by {
        to_multiset_contains(t, t[i]);
        to_multiset_contains(t, t[j]);
        to_multiset_contains(s, t[i]);
        to_multiset_contains(s, t[j]);
        assert(t.contains(t[i]));
        assert(t.contains(t[j]));
        let a = choose|a: int| 0 <= a < s.len() && s[a] == t[i];
        let b = choose|b: int| 0 <= b < s.len() && s[b] == t[j];
        assert(s[a].x - s[b].x <= i32::MAX);
    }
}

/// The normal form is tidy.
pub proof fn lemma_canonical_tidy(s: Seq<Point>)
    requires
        s.len() > 0,
        spread_fits(s),
    ensures
        tidy(canonical(s)),
        canonical(s).len() == s.len(),
{
    lemma_position_is_total();
    let sorted = s.sort_by(by_position());
    s.lemma_sort_by_ensures(by_position());
    lemma_same_points_fit(s, sorted);
    lemma_least_is_met(sorted);
    let a = choose|a: int| 0 <= a < sorted.len() && (#[trigger] sorted[a]).x == least_x(sorted);
    let b = choose|b: int| 0 <= b < sorted.len() && (#[trigger] sorted[b]).y == least_y(sorted);
    let c = canonical(s);
    assert forall|i: int| 0 <= i < c.len() implies (#[trigger] c[i]).x >= 0 && c[i].y >= 0 by {
        lemma_least_is_least(sorted, i);
        assert(sorted[i].x - sorted[a].x <= i32::MAX);
        assert(sorted[i].y - sorted[b].y <= i32::MAX);
    }
}

/// Swapping two points keeps the points, each as often as before.
pub proof fn lemma_swap_keeps_points(s: Seq<Point>, i: int, j: int)
    requires
        0 <= i < s.len(),
        0 <= j < s.len(),
        i != j,
    ensures
        s.update(i, s[j]).update(j, s[i]).to_multiset() == s.to_multiset(),
{
    broadcast use vstd::multiset::group_multiset_axioms;

    let mid = s.update(i, s[j]);
    to_multiset_update(s, i, s[j]);
    to_multiset_update(mid, j, s[i]);
    s.to_multiset_ensures();
    to_multiset_contains(s, s[i]);
    to_multiset_contains(s, s[j]);
    assert(s.contains(s[i]));
    assert(s.contains(s[j]));
    assert(mid.update(j, s[i]).to_multiset() =~= s.to_multiset());
}

/// The normal form of points that are not far apart reaches as far as they
/// are apart.
pub proof fn lemma_canonical_within(s: Seq<Point>, bound: int)
    requires
        s.len() > 0,
        spread_within(s, bound),
        0 <= bound <= i32::MAX,
    ensures
        within(canonical(s), bound),
{
    lemma_position_is_total();
    let sorted = s.sort_by(by_position());
    s.lemma_sort_by_ensures(by_position());
    s.to_multiset_ensures();
    sorted.to_multiset_ensures();
    lemma_least_is_met(sorted);
    let a = choose|a: int| 0 <= a < sorted.len() && (#[trigger] sorted[a]).x == least_x(sorted);
    let b = choose|b: int| 0 <= b < sorted.len() && (#[trigger] sorted[b]).y == least_y(sorted);
    let c = canonical(s);
    assert forall|i: int| 0 <= i < c.len() implies 0 <= (#[trigger] c[i]).x <= bound && 0
        <= c[i].y <= bound by {
        lemma_least_is_least(sorted, i);
        to_multiset_contains(sorted, sorted[i]);
        to_multiset_contains(sorted, sorted[a]);
        to_multiset_contains(sorted, sorted[b]);
        to_multiset_contains(s, sorted[i]);
        to_multiset_contains(s, sorted[a]);
        to_multiset_contains(s, sorted[b]);
        assert(sorted.contains(sorted[i]));
        assert(sorted.contains(sorted[a]));
        assert(sorted.contains(sorted[b]));
        let i0 = choose|k: int| 0 <= k < s.len() && s[k] == sorted[i];
        let a0 = choose|k: int| 0 <= k < s.len() && s[k] == sorted[a];
        let b0 = choose|k: int| 0 <= k < s.len() && s[k] == sorted[b];
        assert(s[i0].x - s[a0].x <= bound);
        assert(s[i0].y - s[b0].y <= bound);
    }
}

/// The points of one vector are those of the other, in the same order.
pub fn same_points(a: &Vec<Point>, b: &Vec<Point>) -> (same: bool)
    ensures
        same == (a@ == b@),
{
    if a.len() != b.len() {
        return false;
    }
    let mut index: usize = 0;
    while index < a.len()
        invariant
            index <= a@.len(),
            a@.len() == b@.len(),
            forall|i: int| 0 <= i < index ==> a@[i] == b@[i],
        decreases a@.len() - index,
    {
        if a[index].x != b[index].x || a[index].y != b[index].y {
            return false;
        }
        index += 1;
    }
    proof {
        assert(a@ =~= b@);
    }
    true
}

/// The point is among the points of the vector.
pub fn has_point(points: &Vec<Point>, p: Point) -> (found: bool)
    ensures
        found == points@.contains(p),
{
    let mut index: usize = 0;
    while index < points.len()
        invariant
            index <= points@.len(),
            forall|i: int| 0 <= i < index ==> points@[i] != p,
        decreases points@.len() - index,
    {
        if points[index].x == p.x && points[index].y == p.y {
            return true;
        }
        index += 1;
    }
    false
}

/// Sorts the points by position.
pub fn sort_points(points: &mut Vec<Point>)
    ensures
        final(points)@ == old(points)@.sort_by(by_position()),
{
    let ghost orig = points@;
    let ghost leq = by_position();
    let mut i: usize = 1;
    while i < points.len()
        invariant
            leq == by_position(),
            points@.len() == orig.len(),
            points@.to_multiset() == orig.to_multiset(),
            1 <= i,
            forall|a: int, b: int| 0 <= a < b < i && b < points@.len() ==> point_leq(
                #[trigger] points@[a],
                #[trigger] points@[b],
            ),
        decreases points@.len() - i,
    {
        let mut j: usize = i;
        while j > 0 && (points[j].x < points[j - 1].x || (points[j].x == points[j - 1].x
            && points[j].y < points[j - 1].y))
            invariant
                j <= i < points@.len(),
                points@.len() == orig.len(),
                points@.to_multiset() == orig.to_multiset(),
                forall|a: int, b: int|
                    0 <= a < b <= i && a != j && b != j ==> point_leq(
                        #[trigger] points@[a],
                        #[trigger] points@[b],
                    ),
                forall|b: int| j < b <= i ==> point_leq(points@[j as int], #[trigger] points@[b]),
            decreases j,
        {
            let ghost before = points@;
            let upper = points[j - 1];
            let lower = points[j];
            points[j - 1] = lower;
            points[j] = upper;
            proof {
                lemma_swap_keeps_points(before, j - 1, j as int);
                assert(points@ =~= before.update(j - 1, before[j as int]).update(
                    j as int,
                    before[j - 1],
                ));
            }
            j -= 1;
        }
        i += 1;
    }
    proof {
        lemma_position_is_total();
        orig.lemma_sort_by_ensures(leq);
        assert(sorted_by(points@, leq)) by {
            assert forall|a: int, b: int| 0 <= a < b < points@.len() implies #[trigger] leq(
                points@[a],
                points@[b],
            ) by {
                assert(point_leq(points@[a], points@[b]));
            }
        }
        lemma_sorted_unique(points@, orig.sort_by(leq), leq);
    }
}

impl Tile {
    /// The piece with the given cells, in normal form.
    pub fn new(points: Vec<Point>) -> (tile: Tile)
        requires
            points@.len() > 0,
            spread_fits(points@),
        ensures
            tile@ == canonical(points@),
            tidy(tile@),
            forall|bound: int|
                0 <= bound <= i32::MAX && spread_within(points@, bound) ==> #[trigger] within(
                    tile@,
                    bound,
                ),
    {
        let ghost orig = points@;
        let mut tile = Tile { points };
        sort_points(&mut tile.points);
        proof {
            lemma_position_is_total();
            orig.lemma_sort_by_ensures(by_position());
            lemma_same_points_fit(orig, tile.points@);
            lemma_canonical_tidy(orig);
            assert forall|bound: int|
                0 <= bound <= i32::MAX && spread_within(orig, bound) implies #[trigger] within(
                canonical(orig),
                bound,
            ) by {
                lemma_canonical_within(orig, bound);
            }
        }
        tile.adjust();
        tile
    }

    /// Moves the piece so that its smallest column and its smallest row
    /// are 0.
    pub fn adjust(&mut self)
        requires
            old(self)@.len() > 0,
            spread_fits(old(self)@),
        ensures
            final(self)@ == shifted(old(self)@, least_x(old(self)@), least_y(old(self)@)),
    {
        let ghost orig = self.points@;
        let mut min_x = self.points[0].x;
        let mut min_y = self.points[0].y;
        let mut index: usize = 1;
        while index < self.points.len()
            invariant
                self.points@ == orig,
                1 <= index <= orig.len(),
                min_x == least_x(orig.subrange(0, index as int)),
                min_y == least_y(orig.subrange(0, index as int)),
            decreases orig.len() - index,
        {
            let point = self.points[index];
            proof {
                let now = orig.subrange(0, index as int + 1);
                assert(now.drop_last() =~= orig.subrange(0, index as int));
                assert(now.last() == point);
            }
            if point.x < min_x {
                min_x = point.x;
            }
            if point.y < min_y {
                min_y = point.y;
            }
            index += 1;
        }
        proof {
            assert(orig.subrange(0, orig.len() as int) =~= orig);
            lemma_least_is_met(orig);
        }
        let ghost ax = choose|a: int| 0 <= a < orig.len() && (#[trigger] orig[a]).x == least_x(orig);
        let ghost ay = choose|a: int| 0 <= a < orig.len() && (#[trigger] orig[a]).y == least_y(orig);
        let mut index: usize = 0;
        while index < self.points.len()
            invariant
                index <= orig.len(),
                self.points@.len() == orig.len(),
                spread_fits(orig),
                min_x == least_x(orig),
                min_y == least_y(orig),
                0 <= ax < orig.len(),
                0 <= ay < orig.len(),
                orig[ax].x == min_x,
                orig[ay].y == min_y,
                forall|i: int| 0 <= i < index ==> self.points@[i] == moved(orig[i], min_x as int, min_y as int),
                forall|i: int| index <= i < orig.len() ==> self.points@[i] == orig[i],
            decreases orig.len() - index,
        {
            let point = self.points[index];
            proof {
                lemma_least_is_least(orig, index as int);
                assert(orig[index as int].x - orig[ax].x <= i32::MAX);
                assert(orig[index as int].y - orig[ay].y <= i32::MAX);
            }
            self.points[index] = Point { x: point.x - min_x, y: point.y - min_y };
            index += 1;
        }
        proof {
            assert(self.points@ =~= shifted(orig, least_x(orig), least_y(orig)));
        }
    }

    /// The piece after a quarter turn.
    pub fn rotate(&self) -> (tile: Tile)
        requires
            tidy(self@),
        ensures
            tile@ == rotated(self@),
            tidy(tile@),
            forall|bound: int|
                0 <= bound <= i32::MAX && within(self@, bound) ==> #[trigger] within(tile@, bound),
    {
        let mut points: Vec<Point> = Vec::new();
        let mut index: usize = 0;
        while index < self.points.len()
            invariant
                index <= self@.len(),
                tidy(self@),
                points@.len() == index,
                forall|i: int| 0 <= i < index ==> points@[i] == turned(self@[i]),
            decreases self@.len() - index,
        {
            let point = self.points[index];
            points.push(Point { x: -point.y, y: point.x });
            index += 1;
        }
        proof {
            assert(points@ =~= self@.map_values(|p: Point| turned(p)));
            assert forall|i: int, j: int|
                0 <= i < points@.len() && 0 <= j < points@.len() implies (#[trigger] points@[i]).x
                - (#[trigger] points@[j]).x <= i32::MAX && points@[i].y - points@[j].y
                <= i32::MAX by {
                assert(self@[i].y >= 0 && self@[j].y >= 0);
                assert(self@[i].x >= 0 && self@[j].x >= 0);
            }
            assert forall|bound: int|
                0 <= bound <= i32::MAX && within(self@, bound) implies #[trigger] spread_within(
                points@,
                bound,
            ) by {
                assert forall|i: int, j: int|
                    0 <= i < points@.len() && 0 <= j < points@.len() implies (
                #[trigger] points@[i]).x - (#[trigger] points@[j]).x <= bound && points@[i].y
                    - points@[j].y <= bound by {
                    assert(0 <= self@[i].y <= bound && 0 <= self@[j].y <= bound);
                    assert(0 <= self@[i].x <= bound && 0 <= self@[j].x <= bound);
                }
            }
        }
        Tile::new(points)
    }

    /// The mirror image of the piece.
    pub fn flip(&self) -> (tile: Tile)
        requires
            tidy(self@),
        ensures
            tile@ == flipped(self@),
            tidy(tile@),
            forall|bound: int|
                0 <= bound <= i32::MAX && within(self@, bound) ==> #[trigger] within(tile@, bound),
    {
        let mut points: Vec<Point> = Vec::new();
        let mut index: usize = 0;
        while index < self.points.len()
            invariant
                index <= self@.len(),
                tidy(self@),
                points@.len() == index,
                forall|i: int| 0 <= i < index ==> points@[i] == mirrored(self@[i]),
            decreases self@.len() - index,
        {
            let point = self.points[index];
            points.push(Point { x: -point.x, y: point.y });
            index += 1;
        }
        proof {
            assert(points@ =~= self@.map_values(|p: Point| mirrored(p)));
            assert forall|i: int, j: int|
                0 <= i < points@.len() && 0 <= j < points@.len() implies (#[trigger] points@[i]).x
                - (#[trigger] points@[j]).x <= i32::MAX && points@[i].y - points@[j].y
                <= i32::MAX by {
                assert(self@[i].y >= 0 && self@[j].y >= 0);
                assert(self@[i].x >= 0 && self@[j].x >= 0);
            }
            assert forall|bound: int|
                0 <= bound <= i32::MAX && within(self@, bound) implies #[trigger] spread_within(
                points@,
                bound,
            ) by {
                assert forall|i: int, j: int|
                    0 <= i < points@.len() && 0 <= j < points@.len() implies (
                #[trigger] points@[i]).x - (#[trigger] points@[j]).x <= bound && points@[i].y
                    - points@[j].y <= bound by {
                    assert(0 <= self@[i].y <= bound && 0 <= self@[j].y <= bound);
                    assert(0 <= self@[i].x <= bound && 0 <= self@[j].x <= bound);
                }
            }
        }
        Tile::new(points)
    }

    /// The cells right below the piece that are not cells of the piece.
    pub fn gravity_support(&self) -> (cells: Vec<Point>)
        requires
            forall|i: int| 0 <= i < self@.len() ==> (#[trigger] self@[i]).y < i32::MAX,
        ensures
            cells@ == support(self@),
    {
        let mut cells: Vec<Point> = Vec::new();
        let mut index: usize = 0;
        while index < self.points.len()
            invariant
                index <= self@.len(),
                forall|i: int| 0 <= i < self@.len() ==> (#[trigger] self@[i]).y < i32::MAX,
                cells@ == support_upto(self@, index as int),
            decreases self@.len() - index,
        {
            let point = self.points[index];
            let under = Point { x: point.x, y: point.y + 1 };
            if !has_point(&self.points, under) {
                cells.push(under);
            }
            index += 1;
        }
        cells
    }

    /// A copy of the piece.
    pub fn duplicate(&self) -> (tile: Tile)
        ensures
            tile@ == self@,
    {
        let mut points: Vec<Point> = Vec::new();
        let mut index: usize = 0;
        while index < self.points.len()
            invariant
                index <= self@.len(),
                points@ == self@.subrange(0, index as int),
            decreases self@.len() - index,
        {
            points.push(self.points[index]);
            proof {
                assert(points@ =~= self@.subrange(0, index as int + 1));
            }
            index += 1;
        }
        proof {
            assert(points@ =~= self@);
        }
        Tile { points }
    }
}

/// The piece after `k` quarter turns.
pub open spec fn spun(s: Seq<Point>, k: nat) -> Seq<Point>
    decreases k,
{
    if k == 0 {
        s
    } else {
        rotated(spun(s, (k - 1) as nat))
    }
}

/// The `k`-th of the eight images of the piece: four turns of the piece,
/// then four turns of its mirror image.
pub open spec fn image(s: Seq<Point>, k: nat) -> Seq<Point> {
    if k < 4 {
        spun(s, k)
    } else {
        spun(flipped(s), (k - 4) as nat)
    }
}

/// The first `k` images of the piece, each shape once, in the order in
/// which they come.
pub open spec fn first_seen(s: Seq<Point>, k: nat) -> Seq<Seq<Point>>
    decreases k,
{
    if k == 0 {
        Seq::empty()
    } else {
        let before = first_seen(s, (k - 1) as nat);
        let next = image(s, (k - 1) as nat);
        if before.contains(next) {
            before
        } else {
            before.push(next)
        }
    }
}

/// The shapes of the pieces of the list.
pub open spec fn shapes(tiles: Seq<Tile>) -> Seq<Seq<Point>> {
    tiles.map_values(|t: Tile| t@)
}

/// A piece of this shape is in the list.
pub fn has_tile(tiles: &Vec<Tile>, tile: &Tile) -> (found: bool)
    ensures
        found == shapes(tiles@).contains(tile@),
{
    let mut index: usize = 0;
    while index < tiles.len()
        invariant
            index <= tiles@.len(),
            forall|i: int| 0 <= i < index ==> shapes(tiles@)[i] != tile@,
        decreases tiles@.len() - index,
    {
        if same_points(&tiles[index].points, &tile.points) {
            proof {
                assert(shapes(tiles@)[index as int] == tile@);
            }
            return true;
        }
        index += 1;
    }
    false
}

/// The orientations of a piece: its images under quarter turns and
/// mirroring, each shape once.
pub fn generate_tiles(basic_tile: &Tile) -> (tiles: Vec<Tile>)
    requires
        tidy(basic_tile@),
    ensures
        shapes(tiles@) == first_seen(basic_tile@, 8),
        shapes(tiles@).no_duplicates(),
        forall|i: int| 0 <= i < tiles@.len() ==> tidy(#[trigger] tiles@[i]@),
        forall|k: nat| k < 8 ==> shapes(tiles@).contains(#[trigger] image(basic_tile@, k)),
        forall|bound: int, i: int|
            0 <= bound <= i32::MAX && within(basic_tile@, bound) && 0 <= i < tiles@.len()
                ==> #[trigger] within(tiles@[i]@, bound),
{
    let mut tiles: Vec<Tile> = Vec::new();
    let mut current = basic_tile.duplicate();
    let mut round: usize = 0;
    proof {
        assert(shapes(tiles@) =~= first_seen(basic_tile@, 0));
    }
    while round < 8
        invariant
            round <= 8,
            tidy(basic_tile@),
            tidy(current@),
            forall|bound: int|
                0 <= bound <= i32::MAX && within(basic_tile@, bound) ==> #[trigger] within(
                    current@,
                    bound,
                ),
            forall|bound: int, i: int|
                0 <= bound <= i32::MAX && within(basic_tile@, bound) && 0 <= i < tiles@.len()
                    ==> #[trigger] within(tiles@[i]@, bound),
            round < 8 ==> current@ == image(basic_tile@, round as nat),
            shapes(tiles@) == first_seen(basic_tile@, round as nat),
            shapes(tiles@).no_duplicates(),
            forall|i: int| 0 <= i < tiles@.len() ==> tidy(#[trigger] tiles@[i]@),
            forall|k: nat| k < round ==> shapes(tiles@).contains(#[trigger] image(basic_tile@, k)),
        decreases 8 - round,
    {
        let ghost before = tiles@;
        let next = if round == 3 {
            basic_tile.flip()
        } else {
            current.rotate()
        };
        if !has_tile(&tiles, &current) {
            tiles.push(current);
            proof {
                assert(shapes(tiles@) =~= shapes(before).push(image(basic_tile@, round as nat)));
            }
        }
        proof {
            assert forall|k: nat| k < round + 1 implies shapes(tiles@).contains(
                #[trigger] image(basic_tile@, k),
            ) by {
                if k < round {
                    let i = choose|i: int|
                        0 <= i < shapes(before).len() && shapes(before)[i] == image(
                            basic_tile@,
                            k,
                        );
                    assert(shapes(tiles@)[i] == image(basic_tile@, k));
                } else {
                    if shapes(before).contains(image(basic_tile@, k)) {
                        let i = choose|i: int|
                            0 <= i < shapes(before).len() && shapes(before)[i] == image(
                                basic_tile@,
                                k,
                            );
                        assert(shapes(tiles@)[i] == image(basic_tile@, k));
                    } else {
                        assert(shapes(tiles@)[before.len() as int] == image(basic_tile@, k));
                    }
                }
            }
            if round + 1 < 8 {
                if round == 3 {
                    assert(next@ == image(basic_tile@, 4));
                } else {
                    assert(spun(basic_tile@, (round + 1) as nat) == rotated(
                        spun(basic_tile@, round as nat),
                    ));
                    if round >= 4 {
                        assert(spun(flipped(basic_tile@), (round + 1 - 4) as nat) == rotated(
                            spun(flipped(basic_tile@), (round - 4) as nat),
                        ));
                    }
                }
            }
        }
        current = next;
        round += 1;
    }
    tiles
}

} // verus!
