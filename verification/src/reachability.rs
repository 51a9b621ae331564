//! From chains of doors to walks over the grid: a room whose doors lead
//! out can be walked out of.

use vstd::prelude::*;
use crate::adjacency::{
    contact, graph_of, interior_edges, lemma_interior_edges, pair_wall,
    perimeter_wall, room_edges, RoomId,
};
use crate::geometry::{Point, Rect};
use crate::grid::{lemma_fits_stampable, lemma_flat_injective, TileGrid, TileType};
use crate::partition::{apart, changed_on_outlines, on_some_outline, partitions};
use crate::walk::{
    adjacent, escapes, floored, lemma_room_walk, lemma_walk_join, lemma_walk_step, passable, ring,
    walk, way_out,
};

verus! {

/// The cell next to the wall cell `p` on the inside of `room`.
pub open spec fn inner_side(room: Rect, p: Point) -> Point {
    if p.x == room.x1 {
        Point { x: (p.x + 1) as i32, y: p.y }
    } else if p.x == room.x2 {
        Point { x: (p.x - 1) as i32, y: p.y }
    } else if p.y == room.y1 {
        Point { x: p.x, y: (p.y + 1) as i32 }
    } else {
        Point { x: p.x, y: (p.y - 1) as i32 }
    }
}

/// The cell next to the wall cell `p` on the outside of `building`.
pub open spec fn outer_side(building: Rect, p: Point) -> Point {
    if p.x == building.x1 {
        Point { x: (p.x - 1) as i32, y: p.y }
    } else if p.x == building.x2 {
        Point { x: (p.x + 1) as i32, y: p.y }
    } else if p.y == building.y1 {
        Point { x: p.x, y: (p.y - 1) as i32 }
    } else {
        Point { x: p.x, y: (p.y + 1) as i32 }
    }
}

/// The ring of cells around the footprint is floor.
pub open spec fn moat(grid: &TileGrid, building: Rect) -> bool {
    forall|x: int, y: int| #[trigger]
        ring(building, x, y) ==> grid.shows(Point { x: x as i32, y: y as i32 }, TileType::Floor)
}

/// Every room of the list is floor inside.
pub open spec fn all_floored(grid: &TileGrid, rooms: Seq<Rect>) -> bool {
    forall|i: int| 0 <= i < rooms.len() ==> floored(grid, #[trigger] rooms[i])
}

/// A cell of the wall between two rooms has, on either side, a cell
/// strictly inside one of the two.
pub proof fn lemma_contact_sides(a: Rect, b: Rect, m: int)
    requires
        a.x2 - a.x1 >= 2 && a.y2 - a.y1 >= 2,
        b.x2 - b.x1 >= 2 && b.y2 - b.y1 >= 2,
        contact(a, b).is_some(),
        0 <= m < contact(a, b).unwrap().len(),
    ensures
        a.strictly_covers(
            inner_side(a, contact(a, b).unwrap()[m]).x as int,
            inner_side(a, contact(a, b).unwrap()[m]).y as int,
        ),
        b.strictly_covers(
            inner_side(b, contact(a, b).unwrap()[m]).x as int,
            inner_side(b, contact(a, b).unwrap()[m]).y as int,
        ),
        adjacent(contact(a, b).unwrap()[m], inner_side(a, contact(a, b).unwrap()[m])),
        adjacent(contact(a, b).unwrap()[m], inner_side(b, contact(a, b).unwrap()[m])),
{
}

/// A cell of a room's part of the footprint has a cell strictly inside
/// the room on one side and a cell of the ring around the footprint on
/// the other.
pub proof fn lemma_perimeter_sides(room: Rect, building: Rect, m: int)
    requires
        room.x2 - room.x1 >= 2 && room.y2 - room.y1 >= 2,
        building.encloses(&room),
        i32::MIN < building.x1 && building.x2 < i32::MAX,
        i32::MIN < building.y1 && building.y2 < i32::MAX,
        0 <= m < perimeter_wall(room, building).len(),
    ensures
        room.strictly_covers(
            inner_side(room, perimeter_wall(room, building)[m]).x as int,
            inner_side(room, perimeter_wall(room, building)[m]).y as int,
        ),
        ring(
            building,
            outer_side(building, perimeter_wall(room, building)[m]).x as int,
            outer_side(building, perimeter_wall(room, building)[m]).y as int,
        ),
        adjacent(
            perimeter_wall(room, building)[m],
            inner_side(room, perimeter_wall(room, building)[m]),
        ),
        adjacent(
            perimeter_wall(room, building)[m],
            outer_side(building, perimeter_wall(room, building)[m]),
        ),
{
}

/// From a cell strictly inside a room that is floor inside, any way out
/// of another such cell is a way out.
pub proof fn lemma_way_out_shared(grid: &TileGrid, room: Rect, building: Rect, from: Point)
    requires
        grid.fits(room),
        floored(grid, room),
        room.strictly_covers(from.x as int, from.y as int),
        way_out(grid, from, building),
    ensures
        escapes(grid, room, building),
{
    let (out, steps) = choose|out: Point, steps: nat|
        ring(building, out.x as int, out.y as int) && #[trigger] walk(grid, from, out, steps);
    assert forall|x: int, y: int| #[trigger] room.strictly_covers(x, y) implies way_out(
        grid,
        Point { x: x as i32, y: y as i32 },
        building,
    ) by {
        let start = Point { x: x as i32, y: y as i32 };
        lemma_room_walk(grid, room, x, y, from.x as int, from.y as int);
        let near = (crate::geometry::magnitude(x - from.x) + crate::geometry::magnitude(
            y - from.y,
        )) as nat;
        assert(from == Point { x: from.x as int as i32, y: from.y as int as i32 });
        lemma_walk_join(grid, start, from, out, near, steps);
        assert(walk(grid, start, out, near + steps));
    }
}

/// A room from which a chain of doors leads to the outside can be walked
/// out of, if every room is floor inside and the ring around the
/// footprint is floor.
pub proof fn lemma_doors_lead_out(
    grid: &TileGrid,
    rooms: Seq<Rect>,
    building: Rect,
    i: int,
    hops: nat,
)
    requires
        rooms.len() <= usize::MAX,
        partitions(rooms, building),
        grid.inset(building),
        all_floored(grid, rooms),
        moat(grid, building),
        0 <= i < rooms.len(),
        graph_of(rooms, building).door_reach(grid, RoomId::Interior(i as usize), hops),
    ensures
        escapes(grid, rooms[i], building),
    decreases hops,
{
    let g = graph_of(rooms, building);
    let n = rooms.len() as int;
    let me = RoomId::Interior(i as usize);
    let room = rooms[i];
    let via = choose|via: RoomId|
        g.has_node(via) && #[trigger] g.doored(grid, me, via) && g.door_reach(
            grid,
            via,
            (hops - 1) as nat,
        );
    let (k, m) = choose|k: int, m: int|
        0 <= k < g.edges(me).len() && 0 <= m < g.edges(me)[k].wall.len() && g.edges(me)[k].target
            == via && grid.shows(#[trigger] g.edges(me)[k].wall[m], TileType::Door);
    let edge = g.edges(me)[k];
    let p = edge.wall[m];
    let inside = interior_edges(rooms, i, n);
    lemma_interior_edges(rooms, i, n);
    assert(g.edges(me) == room_edges(rooms, building, i));
    assert(floored(grid, room));
    assert(building.encloses(&room));
    assert(grid.fits(room));
    let mine = inner_side(room, p);
    if k < inside.len() {
        assert(edge == inside[k]);
        let j = via->Interior_0 as int;
        let other = rooms[j];
        assert(pair_wall(rooms, i, j) == Some(edge.wall));
        if i < j {
            lemma_contact_sides(room, other, m);
        } else {
            lemma_contact_sides(other, room, m);
        }
        let theirs = inner_side(other, p);
        assert(via == RoomId::Interior(j as usize));
        lemma_doors_lead_out(grid, rooms, building, j, (hops - 1) as nat);
        assert(other.strictly_covers(theirs.x as int, theirs.y as int));
        assert(theirs == Point { x: theirs.x as int as i32, y: theirs.y as int as i32 });
        assert(way_out(grid, theirs, building));
        assert(room.strictly_covers(mine.x as int, mine.y as int));
        assert(adjacent(p, mine));
        assert(grid.in_bounds(p));
        assert(passable(grid, p));
        let (out, steps) = choose|out: Point, steps: nat|
            ring(building, out.x as int, out.y as int) && #[trigger] walk(
                grid,
                theirs,
                out,
                steps,
            );
        lemma_walk_step(grid, p, theirs, out, steps);
        assert(room.strictly_covers(mine.x as int, mine.y as int));
        assert(mine == Point { x: mine.x as int as i32, y: mine.y as int as i32 });
        assert(passable(grid, mine));
        lemma_walk_step(grid, mine, p, out, steps + 1);
        assert(walk(grid, mine, out, steps + 2));
        lemma_way_out_shared(grid, room, building, mine);
    } else {
        assert(edge.wall == perimeter_wall(room, building));
        lemma_perimeter_sides(room, building, m);
        let out = outer_side(building, p);
        assert(ring(building, out.x as int, out.y as int));
        assert(out == Point { x: out.x as int as i32, y: out.y as int as i32 });
        assert(grid.in_bounds(out));
        assert(passable(grid, out));
        assert(room.strictly_covers(mine.x as int, mine.y as int));
        assert(adjacent(p, mine));
        assert(grid.in_bounds(p));
        assert(passable(grid, p));
        assert(walk(grid, out, out, 0));
        lemma_walk_step(grid, p, out, out, 0);
        assert(room.strictly_covers(mine.x as int, mine.y as int));
        assert(mine == Point { x: mine.x as int as i32, y: mine.y as int as i32 });
        assert(passable(grid, mine));
        lemma_walk_step(grid, mine, p, out, 1);
        assert(walk(grid, mine, out, 2));
        lemma_way_out_shared(grid, room, building, mine);
    }
}

/// Changes on the walls of a list of rooms carry over two steps.
pub proof fn lemma_outlines_chain(
    first: &TileGrid,
    mid: &TileGrid,
    last: &TileGrid,
    rooms: Seq<Rect>,
)
    requires
        changed_on_outlines(first, mid, rooms),
        changed_on_outlines(mid, last, rooms),
    ensures
        changed_on_outlines(first, last, rooms),
{
    assert forall|idx: int|
        0 <= idx < last.tiles@.len() && #[trigger] last.tiles@[idx]
            != first.tiles@[idx] implies on_some_outline(first, rooms, idx) by {
        if mid.tiles@[idx] == first.tiles@[idx] {
            assert(last.tiles@[idx] != mid.tiles@[idx]);
            let i = choose|i: int| 0 <= i < rooms.len() && mid.on_outline(#[trigger] rooms[i], idx);
            let (x, y) = choose|x: int, y: int| #[trigger]
                rooms[i].on_border(x, y) && y * mid.width + x == idx;
            assert(rooms[i].on_border(x, y) && y * first.width + x == idx);
            assert(first.on_outline(rooms[i], idx));
        }
    }
}

/// Where a footprint that is floor inside changes only on the walls of the
/// rooms that tile it, every room is floor inside.
pub proof fn lemma_rooms_stay_floored(
    before: &TileGrid,
    after: &TileGrid,
    rooms: Seq<Rect>,
    building: Rect,
)
    requires
        before.fits(building),
        partitions(rooms, building),
        floored(before, building),
        changed_on_outlines(before, after, rooms),
    ensures
        all_floored(after, rooms),
{
    assert forall|i: int| 0 <= i < rooms.len() implies floored(after, #[trigger] rooms[i]) by {
        let room = rooms[i];
        assert forall|x: int, y: int| #[trigger] room.strictly_covers(x, y) implies after.shows(
            Point { x: x as i32, y: y as i32 },
            TileType::Floor,
        ) by {
            let p = Point { x: x as i32, y: y as i32 };
            assert(building.encloses(&room));
            assert(building.strictly_covers(x, y));
            assert(building.covers(x, y));
            lemma_fits_stampable(before, building, x, y);
            let idx = y * before.width + x;
            if after.tiles@[idx] != before.tiles@[idx] {
                let j = choose|j: int|
                    0 <= j < rooms.len() && before.on_outline(#[trigger] rooms[j], idx);
                let (bx, by) = choose|bx: int, by: int| #[trigger]
                    rooms[j].on_border(bx, by) && by * before.width + bx == idx;
                assert(building.encloses(&rooms[j]));
                lemma_flat_injective(before.width as int, x, y, bx, by);
                if i < j {
                    assert(apart(rooms[i], rooms[j]));
                } else if j < i {
                    assert(apart(rooms[j], rooms[i]));
                }
            }
        }
    }
}

/// A rectangle that is floor inside stays so when the grid changes only
/// within a rectangle apart from the one that holds it.
pub proof fn lemma_floored_kept(
    before: &TileGrid,
    after: &TileGrid,
    changed: Rect,
    holder: Rect,
    r: Rect,
)
    requires
        after.changed_within(before, changed),
        before.fits(changed),
        before.fits(holder),
        holder.encloses(&r),
        !changed.intersects(&holder),
        floored(before, r),
    ensures
        floored(after, r),
{
    assert forall|x: int, y: int| #[trigger] r.strictly_covers(x, y) implies after.shows(
        Point { x: x as i32, y: y as i32 },
        TileType::Floor,
    ) by {
        let idx = y * before.width + x;
        assert(holder.covers(x, y));
        lemma_fits_stampable(before, holder, x, y);
        assert(before.within(holder, idx));
        crate::grid::lemma_disjoint_within(before, changed, holder, idx);
    }
}

/// A rectangle whose walls are wall, door or window stays so when the
/// grid changes only within a rectangle apart from the one that holds it.
pub proof fn lemma_bordered_kept(
    before: &TileGrid,
    after: &TileGrid,
    changed: Rect,
    holder: Rect,
    r: Rect,
)
    requires
        after.changed_within(before, changed),
        before.fits(changed),
        before.fits(holder),
        holder.encloses(&r),
        !changed.intersects(&holder),
        before.bordered(r),
    ensures
        after.bordered(r),
{
    assert forall|x: int, y: int| #[trigger] r.on_border(x, y) implies after.shows(
        Point { x: x as i32, y: y as i32 },
        TileType::Wall,
    ) || after.shows(Point { x: x as i32, y: y as i32 }, TileType::Door) || after.shows(
        Point { x: x as i32, y: y as i32 },
        TileType::Window,
    ) by {
        let idx = y * before.width + x;
        assert(holder.covers(x, y));
        lemma_fits_stampable(before, holder, x, y);
        assert(before.within(holder, idx));
        crate::grid::lemma_disjoint_within(before, changed, holder, idx);
    }
}

} // verus!
