//! Grid coordinates and the relations between them.

use vstd::prelude::*;
use vstd::std_specs::ops::MulSpecImpl;

verus! {

/// A position on the 9×9 grid: column `x`, row `y`.
#[derive(Clone, Copy, Debug, PartialEq, Eq, Structural, Hash)]
pub struct Point {
    pub x: usize,
    pub y: usize,
}

impl Point {
    /// Both coordinates lie on the board.
    pub open spec fn in_grid(self) -> bool {
        self.x < 9 && self.y < 9
    }

    /// Both positions lie in the same row.
    pub open spec fn same_row(self, other: Point) -> bool {
        self.y == other.y
    }

    /// Both positions lie in the same column.
    pub open spec fn same_column(self, other: Point) -> bool {
        self.x == other.x
    }

    /// Both positions lie in the same 3×3 block.
    pub open spec fn same_region(self, other: Point) -> bool {
        self.x / 3 == other.x / 3 && self.y / 3 == other.y / 3
    }

    /// `other` is a relative of `self`: another position in the same row,
    /// column or region.
    pub open spec fn related(self, other: Point) -> bool {
        self != other && (self.same_row(other) || self.same_column(other) || self.same_region(
            other,
        ))
    }

    /// The top left corner of the region that holds `self`.
    pub open spec fn region_origin(self) -> Point {
        Point { x: (self.x / 3 * 3) as usize, y: (self.y / 3 * 3) as usize }
    }

    /// The position in column `x` of row `y`.
    pub fn new(x: usize, y: usize) -> (p: Point)
        ensures
            p == (Point { x, y }),
    {
        Point { x, y }
    }
}

impl core::ops::Mul<usize> for Point {
    type Output = Point;

    /// Scales both coordinates by `k`.
    fn mul(self, k: usize) -> (p: Point) {
        Point { x: self.x * k, y: self.y * k }
    }
}

impl MulSpecImpl<usize> for Point {
    open spec fn obeys_mul_spec() -> bool {
        true
    }

    open spec fn mul_req(self, k: usize) -> bool {
        self.x * k <= usize::MAX && self.y * k <= usize::MAX
    }

    open spec fn mul_spec(self, k: usize) -> Point {
        Point { x: (self.x * k) as usize, y: (self.y * k) as usize }
    }
}

/// The nine positions of row `y`, from left to right.
pub open spec fn row_points(y: usize) -> Seq<Point> {
    Seq::new(9, |i: int| Point { x: i as usize, y })
}

/// The nine positions of column `x`, from top to bottom.
pub open spec fn column_points(x: usize) -> Seq<Point> {
    Seq::new(9, |i: int| Point { x, y: i as usize })
}

/// The nine positions of the region that holds `p`, row by row.
pub open spec fn region_points(p: Point) -> Seq<Point> {
    Seq::new(
        9,
        |i: int|
            Point {
                x: (p.region_origin().x + i % 3) as usize,
                y: (p.region_origin().y + i / 3) as usize,
            },
    )
}

/// The place of `p` when the board is read row by row.
pub open spec fn row_major(p: Point) -> int {
    9 * p.y + p.x
}

/// The position at place `n` when the board is read row by row.
pub open spec fn nth_point(n: nat) -> Point {
    Point { x: (n % 9) as usize, y: (n / 9) as usize }
}

/// Two different positions of one row are relatives.
pub proof fn lemma_row_related(y: usize, i: int, j: int)
    requires
        y < 9,
        0 <= i < 9,
        0 <= j < 9,
        i != j,
    ensures
        row_points(y)[i].in_grid(),
        row_points(y)[i].related(row_points(y)[j]),
{
}

/// Two different positions of one column are relatives.
pub proof fn lemma_column_related(x: usize, i: int, j: int)
    requires
        x < 9,
        0 <= i < 9,
        0 <= j < 9,
        i != j,
    ensures
        column_points(x)[i].in_grid(),
        column_points(x)[i].related(column_points(x)[j]),
{
}

/// Two different positions of one region are relatives.
pub proof fn lemma_region_related(p: Point, i: int, j: int)
    requires
        p.in_grid(),
        0 <= i < 9,
        0 <= j < 9,
        i != j,
    ensures
        region_points(p)[i].in_grid(),
        region_points(p)[i].related(region_points(p)[j]),
{
}

/// The index at which `q` stands in the region of any `p` of that region.
pub open spec fn region_index(q: Point) -> int {
    (q.y % 3) * 3 + q.x % 3
}

/// Relatives share a row, a column or a region, and stand there at
/// different places.
pub proof fn lemma_related_share_unit(p: Point, q: Point)
    requires
        p.in_grid(),
        q.in_grid(),
        p.related(q),
    ensures
        p.same_row(q) ==> row_points(p.y)[p.x as int] == p && row_points(p.y)[q.x as int] == q
            && p.x != q.x,
        p.same_column(q) ==> column_points(p.x)[p.y as int] == p && column_points(
            p.x,
        )[q.y as int] == q && p.y != q.y,
        p.same_region(q) ==> region_points(p)[region_index(p)] == p && region_points(
            p,
        )[region_index(q)] == q && region_index(p) != region_index(q),
        0 <= region_index(p) < 9,
        0 <= region_index(q) < 9,
{
}

/// How many of the first `i` positions of the region of `p` lie neither in
/// the row nor in the column of `p`.
pub open spec fn region_relatives(p: Point, i: int) -> nat
    decreases i,
{
    if i <= 0 {
        0
    } else {
        region_relatives(p, i - 1) + if (i - 1) / 3 == p.y % 3 || (i - 1) % 3 == p.x % 3 {
            0nat
        } else {
            1nat
        }
    }
}

/// Four positions of a region lie neither in the row nor in the column of
/// one of its positions.
pub proof fn lemma_region_relatives_total(p: Point)
    requires
        p.in_grid(),
    ensures
        region_relatives(p, 9) == 4,
{
    reveal_with_fuel(region_relatives, 10);
}

/// A list made of the row of `p`, then its column, then the rest of its
/// region, each without what came before and without `p`, holds the
/// relatives of `p`, each once.
pub proof fn lemma_relatives_listed(p: Point, listed: Seq<Point>)
    requires
        p.in_grid(),
        listed.len() == 16 + region_relatives(p, 9),
        forall|k: int|
            0 <= k < 8 ==> (#[trigger] listed[k]).y == p.y && listed[k].x == if k < p.x {
                k
            } else {
                k + 1
            },
        forall|k: int|
            8 <= k < 16 ==> (#[trigger] listed[k]).x == p.x && listed[k].y == if k - 8 < p.y {
                k - 8
            } else {
                k - 7
            },
        forall|k: int|
            16 <= k < listed.len() ==> {
                let r = #[trigger] listed[k];
                r.in_grid() && r.same_region(p) && r.x != p.x && r.y != p.y
            },
        forall|a: int, b: int|
            16 <= a < b < listed.len() ==> region_index(#[trigger] listed[a]) < region_index(
                #[trigger] listed[b],
            ),
        forall|j: int|
            0 <= j < 9 && (#[trigger] region_points(p)[j]).x != p.x && region_points(p)[j].y
                != p.y ==> listed.contains(region_points(p)[j]),
    ensures
        listed.len() == 20,
        listed.no_duplicates(),
        forall|q: Point| listed.contains(q) <==> q.in_grid() && p.related(q),
{
    lemma_region_relatives_total(p);
    assert forall|a: int, b: int| 0 <= a < b < listed.len() implies listed[a] != listed[b] by {
        if a >= 16 {
            assert(region_index(listed[a]) < region_index(listed[b]));
        } else if b >= 16 {
            assert(listed[b].x != p.x && listed[b].y != p.y);
        }
    }
    assert forall|q: Point| listed.contains(q) implies q.in_grid() && p.related(q) by {
        let a = choose|a: int| 0 <= a < listed.len() && listed[a] == q;
        assert(listed[a] == q);
    }
    assert forall|q: Point| q.in_grid() && p.related(q) implies listed.contains(q) by {
        if q.y == p.y {
            let k: int = if q.x < p.x {
                q.x as int
            } else {
                q.x - 1
            };
            assert(listed[k] == q);
        } else if q.x == p.x {
            let k: int = if q.y < p.y {
                8 + q.y
            } else {
                7 + q.y
            };
            assert(listed[k] == q);
        } else {
            assert(region_points(p)[region_index(q)] == q);
        }
    }
}

} // verus!
