//! The ground between the footprints: from any cell of it the edge of the
//! grid can be walked to, round the footprints that stand in the way.

use vstd::prelude::*;
use crate::geometry::{magnitude, Point, Rect};
use crate::grid::{lemma_flat_injective, TileGrid, TileType};
use crate::packer::{all_apart, expanded, kept_apart};
use crate::walk::{
    adjacent, floored, lemma_room_walk, lemma_walk_join, lemma_walk_step, on_edge, passable, ring,
    walk, way_to_edge,
};

verus! {

/// The cell `(x, y)` lies on no footprint.
pub open spec fn outdoors(buildings: Seq<Rect>, x: int, y: int) -> bool {
    forall|k: int| 0 <= k < buildings.len() ==> !(#[trigger] buildings[k]).covers(x, y)
}

/// Every cell of the grid that lies on no footprint is floor.
pub open spec fn open_ground(grid: &TileGrid, buildings: Seq<Rect>) -> bool {
    forall|x: int, y: int|
        0 <= x < grid.width && 0 <= y < grid.height && #[trigger] outdoors(buildings, x, y)
            ==> grid.shows(Point { x: x as i32, y: y as i32 }, TileType::Floor)
}

/// Every footprint has its corners in order and lies on the grid, a cell
/// or more from its edge, and no two come within the margin of one
/// another.
pub open spec fn spaced(grid: &TileGrid, buildings: Seq<Rect>, margin: int) -> bool {
    &&& grid.wf()
    &&& 1 <= margin
    &&& grid.width + margin <= i32::MAX
    &&& grid.height + margin <= i32::MAX
    &&& forall|k: int|
        0 <= k < buildings.len() ==> grid.inset(#[trigger] buildings[k]) && buildings[k].proper()
    &&& all_apart(buildings, margin)
}

/// A cell next to a footprint, corners included, lies on no footprint.
pub proof fn lemma_beside(
    grid: &TileGrid,
    buildings: Seq<Rect>,
    margin: int,
    k: int,
    x: int,
    y: int,
)
    requires
        spaced(grid, buildings, margin),
        0 <= k < buildings.len(),
        buildings[k].x1 - 1 <= x <= buildings[k].x2 + 1,
        buildings[k].y1 - 1 <= y <= buildings[k].y2 + 1,
        !buildings[k].covers(x, y),
    ensures
        outdoors(buildings, x, y),
        0 <= x < grid.width,
        0 <= y < grid.height,
{
    let b = buildings[k];
    assert(grid.inset(b));
    let grown = expanded(b, margin);
    assert(grown.x1 == b.x1 - margin && grown.x2 == b.x2 + margin);
    assert(grown.y1 == b.y1 - margin && grown.y2 == b.y2 + margin);
    assert forall|j: int| 0 <= j < buildings.len() implies !(#[trigger] buildings[j]).covers(
        x,
        y,
    ) by {
        if j != k && buildings[j].covers(x, y) {
            assert(kept_apart(buildings[j], buildings[k], margin));
            assert(buildings[j].intersects(&grown));
        }
    }
}

/// A grid that was all floor and has changed only within footprints is
/// floor on every cell that lies on no footprint.
pub proof fn lemma_open_ground(before: &TileGrid, after: &TileGrid, buildings: Seq<Rect>)
    requires
        before.wf(),
        before.blank(),
        after.same_shape(before),
        forall|k: int| 0 <= k < buildings.len() ==> before.inset(#[trigger] buildings[k]),
        forall|i: int|
            0 <= i < after.tiles@.len() && #[trigger] after.tiles@[i] != before.tiles@[i]
                ==> exists|j: int|
                0 <= j < buildings.len() && before.within(#[trigger] buildings[j], i),
    ensures
        open_ground(after, buildings),
{
    let w = before.width as int;
    let h = before.height as int;
    assert forall|x: int, y: int|
        0 <= x < after.width && 0 <= y < after.height && #[trigger] outdoors(
            buildings,
            x,
            y,
        ) implies after.shows(Point { x: x as i32, y: y as i32 }, TileType::Floor) by {
        let idx = y * w + x;
        assert(0 <= idx < w * h) by (nonlinear_arith)
            requires
                0 <= x < w,
                0 <= y < h,
                idx == y * w + x,
        ;
        if after.tiles@[idx] != before.tiles@[idx] {
            let j = choose|j: int|
                0 <= j < buildings.len() && before.within(#[trigger] buildings[j], idx);
            let other = buildings[j];
            assert(before.inset(other));
            let (ox, oy) = choose|ox: int, oy: int| #[trigger]
                other.covers(ox, oy) && oy * before.width + ox == idx;
            lemma_flat_injective(w, x, y, ox, oy);
            assert(other.covers(x, y));
        }
    }
}

/// Between two cells of a row or a column next to a footprint the way is
/// free: the cells strictly inside `lane` all lie next to the footprint
/// and off it.
pub proof fn lemma_lane(
    grid: &TileGrid,
    buildings: Seq<Rect>,
    margin: int,
    k: int,
    lane: Rect,
    ax: int,
    ay: int,
    bx: int,
    by: int,
)
    requires
        spaced(grid, buildings, margin),
        open_ground(grid, buildings),
        0 <= k < buildings.len(),
        buildings[k].x1 - 2 <= lane.x1 && lane.x2 <= buildings[k].x2 + 2,
        buildings[k].y1 - 2 <= lane.y1 && lane.y2 <= buildings[k].y2 + 2,
        forall|x: int, y: int| #[trigger]
            lane.strictly_covers(x, y) ==> !buildings[k].covers(x, y),
        lane.strictly_covers(ax, ay),
        lane.strictly_covers(bx, by),
    ensures
        walk(
            grid,
            Point { x: ax as i32, y: ay as i32 },
            Point { x: bx as i32, y: by as i32 },
            (magnitude(ax - bx) + magnitude(ay - by)) as nat,
        ),
{
    let b = buildings[k];
    assert(grid.inset(b));
    assert forall|x: int, y: int| #[trigger] lane.strictly_covers(x, y) implies grid.shows(
        Point { x: x as i32, y: y as i32 },
        TileType::Floor,
    ) by {
        lemma_beside(grid, buildings, margin, k, x, y);
        assert(outdoors(buildings, x, y));
    }
    assert(floored(grid, lane));
    lemma_room_walk(grid, lane, ax, ay, bx, by);
}

/// From a cell of the grid that lies on no footprint, the left edge of
/// the grid can be walked to: straight on, and round each footprint that
/// stands in the way, over its upper left corner.
pub proof fn lemma_outdoors_to_edge(
    grid: &TileGrid,
    buildings: Seq<Rect>,
    margin: int,
    x: int,
    y: int,
)
    requires
        spaced(grid, buildings, margin),
        open_ground(grid, buildings),
        0 <= x < grid.width,
        0 <= y < grid.height,
        outdoors(buildings, x, y),
    ensures
        way_to_edge(grid, Point { x: x as i32, y: y as i32 }),
    decreases x,
{
    let p = Point { x: x as i32, y: y as i32 };
    assert(grid.shows(p, TileType::Floor));
    assert(passable(grid, p));
    if x == 0 {
        assert(on_edge(grid, p));
        assert(walk(grid, p, p, 0));
    } else if outdoors(buildings, x - 1, y) {
        let q = Point { x: (x - 1) as i32, y: y as i32 };
        lemma_outdoors_to_edge(grid, buildings, margin, x - 1, y);
        let (out, steps) = choose|out: Point, steps: nat|
            on_edge(grid, out) && #[trigger] walk(grid, q, out, steps);
        assert(adjacent(p, q));
        lemma_walk_step(grid, p, q, out, steps);
        assert(walk(grid, p, out, steps + 1));
    } else {
        let k = choose|k: int|
            0 <= k < buildings.len() && (#[trigger] buildings[k]).covers(x - 1, y);
        let b = buildings[k];
        assert(grid.inset(b));
        assert(!b.covers(x, y));
        assert(x == b.x2 + 1);
        let top = b.y1 - 1;
        let left = b.x1 - 1;
        let up = Rect {
            x1: b.x2 as i32,
            x2: (b.x2 + 2) as i32,
            y1: (b.y1 - 2) as i32,
            y2: (y + 1) as i32,
        };
        let along = Rect {
            x1: (b.x1 - 2) as i32,
            x2: (b.x2 + 2) as i32,
            y1: (b.y1 - 2) as i32,
            y2: b.y1 as i32,
        };
        let corner = Point { x: x as i32, y: top as i32 };
        let far = Point { x: left as i32, y: top as i32 };
        lemma_lane(grid, buildings, margin, k, up, x, y, x, top);
        lemma_lane(grid, buildings, margin, k, along, x, top, left, top);
        let first = (magnitude(x - x) + magnitude(y - top)) as nat;
        let second = (magnitude(x - left) + magnitude(top - top)) as nat;
        lemma_walk_join(grid, p, corner, far, first, second);
        lemma_beside(grid, buildings, margin, k, left, top);
        lemma_outdoors_to_edge(grid, buildings, margin, left, top);
        let (out, steps) = choose|out: Point, steps: nat|
            on_edge(grid, out) && #[trigger] walk(grid, far, out, steps);
        lemma_walk_join(grid, p, far, out, first + second, steps);
        assert(walk(grid, p, out, first + second + steps));
    }
}

/// A way out of a footprint leads on to the edge of the grid.
pub proof fn lemma_out_to_edge(
    grid: &TileGrid,
    buildings: Seq<Rect>,
    margin: int,
    k: int,
    from: Point,
    out: Point,
    steps: nat,
)
    requires
        spaced(grid, buildings, margin),
        open_ground(grid, buildings),
        0 <= k < buildings.len(),
        ring(buildings[k], out.x as int, out.y as int),
        walk(grid, from, out, steps),
    ensures
        way_to_edge(grid, from),
{
    lemma_beside(grid, buildings, margin, k, out.x as int, out.y as int);
    lemma_outdoors_to_edge(grid, buildings, margin, out.x as int, out.y as int);
    assert(out == Point { x: out.x as int as i32, y: out.y as int as i32 });
    let (edge, more) = choose|edge: Point, more: nat|
        on_edge(grid, edge) && #[trigger] walk(grid, out, edge, more);
    lemma_walk_join(grid, from, out, edge, steps, more);
    assert(walk(grid, from, edge, steps + more));
}

} // verus!
