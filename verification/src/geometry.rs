//! Integer points and axis-aligned rectangles.
//!
//! A rectangle's own border cells are its walls: the usable interior of
//! `(x1, y1, x2, y2)` is `x1 + 1 .. x2` by `y1 + 1 .. y2`.

use vstd::prelude::*;

verus! {

/// A cell position.
#[derive(Clone, Copy, PartialEq, Eq, Structural, Debug)]
pub struct Point {
    pub x: i32,
    pub y: i32,
}

/// An axis-aligned rectangle given by two opposite corners.
#[derive(Clone, Copy, PartialEq, Eq, Structural, Debug)]
pub struct Rect {
    pub x1: i32,
    pub x2: i32,
    pub y1: i32,
    pub y2: i32,
}

pub open spec fn lesser(a: int, b: int) -> int {
    if a <= b {
        a
    } else {
        b
    }
}

pub open spec fn greater(a: int, b: int) -> int {
    if a >= b {
        a
    } else {
        b
    }
}

pub open spec fn magnitude(a: int) -> int {
    if a >= 0 {
        a
    } else {
        -a
    }
}

/// The smaller of two integers.
pub fn min_of(a: i32, b: i32) -> (r: i32)
    ensures
        r == lesser(a as int, b as int),
{
    if a <= b {
        a
    } else {
        b
    }
}

/// The larger of two integers.
pub fn max_of(a: i32, b: i32) -> (r: i32)
    ensures
        r == greater(a as int, b as int),
{
    if a >= b {
        a
    } else {
        b
    }
}

/// The mean of two integers, rounded toward zero.
pub open spec fn mean(a: int, b: int) -> int {
    if a + b >= 0 {
        (a + b) / 2
    } else {
        -((-(a + b)) / 2)
    }
}

/// The mean of two numbers, rounded toward zero.
pub fn mean_of(a: i32, b: i32) -> (mid: i32)
    ensures
        mid == mean(a as int, b as int),
        a <= b ==> a <= mid <= b,
        b <= a ==> b <= mid <= a,
{
    let sum: i64 = (a as i64) + (b as i64);
    if sum >= 0 {
        (sum / 2) as i32
    } else {
        (-((-sum) / 2)) as i32
    }
}

impl Point {
    pub fn new(x: i32, y: i32) -> (p: Point)
        ensures
            p.x == x,
            p.y == y,
    {
        Point { x, y }
    }
}

impl Rect {
    /// Both extents are positive: the rectangle has a left wall distinct
    /// from its right wall and a top wall distinct from its bottom wall.
    pub open spec fn proper(&self) -> bool {
        self.x1 < self.x2 && self.y1 < self.y2
    }

    /// The two closed rectangles share at least one cell.
    pub open spec fn intersects(&self, other: &Rect) -> bool {
        self.x1 <= other.x2 && self.x2 >= other.x1 && self.y1 <= other.y2 && self.y2 >= other.y1
    }

    /// `inner` lies within this rectangle, borders included.
    pub open spec fn encloses(&self, inner: &Rect) -> bool {
        self.x1 <= inner.x1 && inner.x2 <= self.x2 && self.y1 <= inner.y1 && inner.y2 <= self.y2
    }

    /// The cell `(x, y)` lies within this rectangle, borders included.
    pub open spec fn covers(&self, x: int, y: int) -> bool {
        self.x1 <= x <= self.x2 && self.y1 <= y <= self.y2
    }

    /// The cell `(x, y)` lies on one of the four walls.
    pub open spec fn on_border(&self, x: int, y: int) -> bool {
        self.covers(x, y) && (x == self.x1 || x == self.x2 || y == self.y1 || y == self.y2)
    }

    /// The cell `(x, y)` lies strictly inside the walls.
    pub open spec fn strictly_covers(&self, x: int, y: int) -> bool {
        self.x1 < x < self.x2 && self.y1 < y < self.y2
    }

    pub open spec fn spec_width(&self) -> int {
        magnitude(self.x2 - self.x1)
    }

    pub open spec fn spec_height(&self) -> int {
        magnitude(self.y2 - self.y1)
    }

    /// The rectangle with top-left corner `(x, y)` and the given extents.
    pub fn with_size(x: i32, y: i32, w: i32, h: i32) -> (r: Rect)
        requires
            i32::MIN <= x + w <= i32::MAX,
            i32::MIN <= y + h <= i32::MAX,
        ensures
            r.x1 == x,
            r.y1 == y,
            r.x2 == x + w,
            r.y2 == y + h,
    {
        Rect { x1: x, y1: y, x2: x + w, y2: y + h }
    }

    /// The rectangle with the given corners.
    pub fn with_exact(x1: i32, y1: i32, x2: i32, y2: i32) -> (r: Rect)
        ensures
            r.x1 == x1,
            r.y1 == y1,
            r.x2 == x2,
            r.y2 == y2,
    {
        Rect { x1, x2, y1, y2 }
    }

    /// Whether the two closed rectangles share at least one cell.
    pub fn intersect(&self, other: &Rect) -> (b: bool)
        ensures
            b == self.intersects(other),
    {
        self.x1 <= other.x2 && self.x2 >= other.x1 && self.y1 <= other.y2 && self.y2 >= other.y1
    }

    /// The cell in the middle, each coordinate rounded toward zero.
    pub fn center(&self) -> (mid: Point)
        ensures
            mid.x == mean(self.x1 as int, self.x2 as int),
            mid.y == mean(self.y1 as int, self.y2 as int),
    {
        Point { x: mean_of(self.x1, self.x2), y: mean_of(self.y1, self.y2) }
    }

    /// The horizontal extent, as a non-negative number.
    pub fn width(&self) -> (w: i32)
        requires
            self.spec_width() <= i32::MAX,
        ensures
            w == self.spec_width(),
    {
        if self.x2 >= self.x1 {
            self.x2 - self.x1
        } else {
            self.x1 - self.x2
        }
    }

    /// The vertical extent, as a non-negative number.
    pub fn height(&self) -> (h: i32)
        requires
            self.spec_height() <= i32::MAX,
        ensures
            h == self.spec_height(),
    {
        if self.y2 >= self.y1 {
            self.y2 - self.y1
        } else {
            self.y1 - self.y2
        }
    }
}

/// Every rectangle of the list has its corners in order.
pub open spec fn orderly(rooms: Seq<Rect>) -> bool {
    forall|i: int|
        0 <= i < rooms.len() ==> (#[trigger] rooms[i]).x1 <= rooms[i].x2 && rooms[i].y1
            <= rooms[i].y2
}

/// The footprint holds every room of the list.
pub open spec fn housed(rooms: Seq<Rect>, building: Rect) -> bool {
    forall|i: int| 0 <= i < rooms.len() ==> building.encloses(#[trigger] &rooms[i])
}

/// Intersection is symmetric.
pub proof fn lemma_intersects_symmetric(a: Rect, b: Rect)
    ensures
        a.intersects(&b) == b.intersects(&a),
{
}

} // verus!
