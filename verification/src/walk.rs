//! Walking over a grid: from cell to cell, four ways, over floor and
//! through doors.

use vstd::prelude::*;
use crate::geometry::{magnitude, Point, Rect};
use crate::grid::{TileGrid, TileType};

verus! {

/// The cell can be stood on: it lies on the grid and is floor or a door.
pub open spec fn passable(grid: &TileGrid, p: Point) -> bool {
    grid.in_bounds(p) && (grid.shows(p, TileType::Floor) || grid.shows(p, TileType::Door))
}

/// The two cells are next to each other in a row or in a column.
pub open spec fn adjacent(a: Point, b: Point) -> bool {
    magnitude(a.x - b.x) + magnitude(a.y - b.y) == 1
}

/// `to` can be walked to from `from` in at most `steps` steps, each to an
/// adjacent cell, every cell on the way passable.
pub open spec fn walk(grid: &TileGrid, from: Point, to: Point, steps: nat) -> bool
    decreases steps,
{
    passable(grid, from) && (from == to || (steps > 0 && exists|next: Point| #[trigger]
        adjacent(from, next) && walk(grid, next, to, (steps - 1) as nat)))
}

/// Every cell strictly inside the rectangle is floor.
pub open spec fn floored(grid: &TileGrid, r: Rect) -> bool {
    forall|x: int, y: int| #[trigger]
        r.strictly_covers(x, y) ==> grid.shows(Point { x: x as i32, y: y as i32 }, TileType::Floor)
}

/// The cell `(x, y)` lies next to a wall of the footprint, on its outside
/// and clear of its corners.
pub open spec fn ring(building: Rect, x: int, y: int) -> bool {
    ||| (x == building.x1 - 1 || x == building.x2 + 1) && building.y1 < y < building.y2
    ||| (y == building.y1 - 1 || y == building.y2 + 1) && building.x1 < x < building.x2
}

/// From every cell strictly inside the room, some cell outside the
/// footprint can be walked to.
pub open spec fn escapes(grid: &TileGrid, room: Rect, building: Rect) -> bool {
    forall|x: int, y: int| #[trigger]
        room.strictly_covers(x, y) ==> way_out(grid, Point { x: x as i32, y: y as i32 }, building)
}

/// From `from`, some cell outside the footprint can be walked to: one of
/// the ring around it.
pub open spec fn way_out(grid: &TileGrid, from: Point, building: Rect) -> bool {
    exists|out: Point, steps: nat|
        ring(building, out.x as int, out.y as int) && #[trigger] walk(grid, from, out, steps)
}

/// The cell lies on the edge of the grid.
pub open spec fn on_edge(grid: &TileGrid, p: Point) -> bool {
    grid.in_bounds(p) && (p.x == 0 || p.y == 0 || p.x == grid.width - 1 || p.y == grid.height
        - 1)
}

/// From `from`, some cell on the edge of the grid can be walked to.
pub open spec fn way_to_edge(grid: &TileGrid, from: Point) -> bool {
    exists|out: Point, steps: nat| on_edge(grid, out) && #[trigger] walk(grid, from, out, steps)
}

/// From every cell strictly inside the room, the edge of the grid can be
/// walked to.
pub open spec fn reaches_edge(grid: &TileGrid, room: Rect) -> bool {
    forall|x: int, y: int| #[trigger]
        room.strictly_covers(x, y) ==> way_to_edge(grid, Point { x: x as i32, y: y as i32 })
}

/// A cell of the ring around a footprint lies outside the footprint.
pub proof fn lemma_ring_outside(building: Rect, x: int, y: int)
    requires
        ring(building, x, y),
    ensures
        !building.covers(x, y),
{
}

/// A walk can take more steps than it needs.
pub proof fn lemma_walk_longer(grid: &TileGrid, from: Point, to: Point, steps: nat, more: nat)
    requires
        walk(grid, from, to, steps),
        steps <= more,
    ensures
        walk(grid, from, to, more),
    decreases steps,
{
    if from != to {
        let next = choose|next: Point| #[trigger]
            adjacent(from, next) && walk(grid, next, to, (steps - 1) as nat);
        lemma_walk_longer(grid, next, to, (steps - 1) as nat, (more - 1) as nat);
        assert(adjacent(from, next));
    }
}

/// A step onto a passable cell followed by a walk is a walk.
pub proof fn lemma_walk_step(grid: &TileGrid, from: Point, next: Point, to: Point, steps: nat)
    requires
        passable(grid, from),
        adjacent(from, next),
        walk(grid, next, to, steps),
    ensures
        walk(grid, from, to, steps + 1),
{
}

/// Two walks, one after the other, are a walk.
pub proof fn lemma_walk_join(
    grid: &TileGrid,
    from: Point,
    via: Point,
    to: Point,
    first: nat,
    second: nat,
)
    requires
        walk(grid, from, via, first),
        walk(grid, via, to, second),
    ensures
        walk(grid, from, to, first + second),
    decreases first,
{
    if from == via {
        lemma_walk_longer(grid, from, to, second, first + second);
    } else {
        let next = choose|next: Point| #[trigger]
            adjacent(from, next) && walk(grid, next, via, (first - 1) as nat);
        lemma_walk_join(grid, next, via, to, (first - 1) as nat, second);
        lemma_walk_step(grid, from, next, to, (first - 1 + second) as nat);
    }
}

/// Inside a rectangle whose inside lies on the grid and is floor, any
/// cell can be walked to from any other.
pub proof fn lemma_room_walk(grid: &TileGrid, r: Rect, ax: int, ay: int, bx: int, by: int)
    requires
        -1 <= r.x1 && r.x2 <= grid.width,
        -1 <= r.y1 && r.y2 <= grid.height,
        floored(grid, r),
        r.strictly_covers(ax, ay),
        r.strictly_covers(bx, by),
    ensures
        walk(
            grid,
            Point { x: ax as i32, y: ay as i32 },
            Point { x: bx as i32, y: by as i32 },
            (magnitude(ax - bx) + magnitude(ay - by)) as nat,
        ),
    decreases magnitude(ax - bx) + magnitude(ay - by),
{
    let a = Point { x: ax as i32, y: ay as i32 };
    let b = Point { x: bx as i32, y: by as i32 };
    assert(passable(grid, a));
    if ax != bx {
        let nx = if ax < bx {
            ax + 1
        } else {
            ax - 1
        };
        let n = Point { x: nx as i32, y: ay as i32 };
        assert(r.strictly_covers(nx, ay));
        lemma_room_walk(grid, r, nx, ay, bx, by);
        assert(adjacent(a, n));
        lemma_walk_step(grid, a, n, b, (magnitude(nx - bx) + magnitude(ay - by)) as nat);
    } else if ay != by {
        let ny = if ay < by {
            ay + 1
        } else {
            ay - 1
        };
        let n = Point { x: ax as i32, y: ny as i32 };
        assert(r.strictly_covers(ax, ny));
        lemma_room_walk(grid, r, ax, ny, bx, by);
        assert(adjacent(a, n));
        lemma_walk_step(grid, a, n, b, (magnitude(ax - bx) + magnitude(ny - by)) as nat);
    }
}

} // verus!
