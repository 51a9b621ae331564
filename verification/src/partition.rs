//! The interior partitioner: splits a footprint into rooms by repeated
//! cuts, each cut stamped into the grid as a wall.
//!
//! The rooms are kept in one list that is taken from and added to; a room
//! that comes out of the list is either put back as it is or replaced by
//! its two halves.

use vstd::prelude::*;
use bracket_lib::prelude::RandomNumberGenerator;
use crate::adjacency::{contact, door_wall, near_outside, pair_wall, sides_on, touches};
use crate::config::{GenerationError, MAX_SIDE, PARTITION_ROUNDS};
use crate::geometry::{mean, mean_of, Point, Rect};
use crate::grid::{
    column_cells, lemma_fits_stampable, lemma_keeps_openings_chain, lemma_unopened_kept, opening,
    row_cells, TileGrid, TileType,
};
use crate::random::range;
use crate::random_table::RandomTable;

verus! {

/// The number of cells that a rectangle spans, its right and bottom walls
/// not counted.
pub open spec fn area(r: Rect) -> int {
    r.spec_width() * r.spec_height()
}

/// The summed area of the first `upto` rectangles.
pub open spec fn total_area(rooms: Seq<Rect>, upto: int) -> int
    decreases upto,
{
    if upto <= 0 {
        0
    } else {
        total_area(rooms, upto - 1) + area(rooms[upto - 1])
    }
}

/// The two rectangles overlap at most along a wall.
pub open spec fn apart(a: Rect, b: Rect) -> bool {
    a.x2 <= b.x1 || b.x2 <= a.x1 || a.y2 <= b.y1 || b.y2 <= a.y1
}

/// A side of the rectangle is below `min_dimension`.
pub open spec fn too_small(room: Rect, min_dimension: int) -> bool {
    room.x2 - room.x1 < min_dimension || room.y2 - room.y1 < min_dimension
}

/// The inside of the footprint is narrower or lower than two rooms of the
/// smallest kind, so that it is kept as one room.
pub open spec fn cramped(building: Rect, min_dimension: int) -> bool {
    building.x2 - building.x1 - 1 < 2 * min_dimension || building.y2 - building.y1 - 1 < 2
        * min_dimension
}

/// Where a room may be cut: at least two cells from either wall.
pub open spec fn cut_allowed(room: Rect, vertical: bool, cut: int) -> bool {
    if vertical {
        room.x1 + 2 <= cut <= room.x2 - 2
    } else {
        room.y1 + 2 <= cut <= room.y2 - 2
    }
}

/// The two rooms on either side of a cut. The cut line is a wall of both.
pub open spec fn halves(room: Rect, vertical: bool, cut: int) -> (Rect, Rect) {
    if vertical {
        (
            Rect { x1: room.x1, y1: room.y1, x2: cut as i32, y2: room.y2 },
            Rect { x1: cut as i32, y1: room.y1, x2: room.x2, y2: room.y2 },
        )
    } else {
        (
            Rect { x1: room.x1, y1: room.y1, x2: room.x2, y2: cut as i32 },
            Rect { x1: room.x1, y1: cut as i32, x2: room.x2, y2: room.y2 },
        )
    }
}

/// The cells of a cut line, from wall to wall.
pub open spec fn cut_cells(room: Rect, vertical: bool, cut: int) -> Seq<Point> {
    if vertical {
        column_cells(room.y1 as int, room.y2 as int, cut)
    } else {
        row_cells(room.x1 as int, room.x2 as int, cut)
    }
}

/// The rooms lie within the footprint, each at least two cells wide and
/// high, no two overlap in more than a wall, and together they have the
/// footprint's area: they tile it.
pub open spec fn partitions(rooms: Seq<Rect>, building: Rect) -> bool {
    &&& forall|i: int|
        0 <= i < rooms.len() ==> building.encloses(#[trigger] &rooms[i]) && rooms[i].x2
            - rooms[i].x1 >= 2 && rooms[i].y2 - rooms[i].y1 >= 2
    &&& forall|i: int, j: int| 0 <= i < j < rooms.len() ==> apart(rooms[i], rooms[j])
    &&& total_area(rooms, rooms.len() as int) == area(building)
}

/// Whether a side of the room is below `min_dimension`.
pub fn is_too_small(room: Rect, min_dimension: i32) -> (small: bool)
    ensures
        small == too_small(room, min_dimension as int),
{
    (room.x2 as i64) - (room.x1 as i64) < (min_dimension as i64) || (room.y2 as i64) - (
    room.y1 as i64) < (min_dimension as i64)
}

/// Whether the footprint is kept as one room.
pub fn is_cramped(building: Rect, min_dimension: i32) -> (kept: bool)
    ensures
        kept == cramped(building, min_dimension as int),
{
    let least: i64 = 2 * (min_dimension as i64);
    (building.x2 as i64) - (building.x1 as i64) - 1 < least || (building.y2 as i64) - (
    building.y1 as i64) - 1 < least
}

/// The mean of two draws from `min .. max`, rounded toward zero: a draw
/// that favours the middle of the range.
pub fn centered_range(rng: &mut RandomNumberGenerator, min: i32, max: i32) -> (mid: i32)
    requires
        min < max,
    ensures
        min <= mid < max,
        exists|a: int, b: int| min <= a < max && min <= b < max && mid == #[trigger] mean(a, b),
{
    let a = range(rng, min, max);
    let b = range(rng, min, max);
    let mid = mean_of(a, b);
    assert(mid == mean(a as int, b as int));
    mid
}

/// Cuts `room` at `cut` and raises a wall along the cut line, wherever
/// the line holds no door and no window: an opening on it stays.
pub fn apply_split(grid: &mut TileGrid, room: Rect, vertical: bool, cut: i32) -> (parts: (
    Rect,
    Rect,
))
    ensures
        parts == halves(room, vertical, cut as int),
        final(grid).same_shape(old(grid)),
        final(grid).tiles@ == old(grid).walled_over(cut_cells(room, vertical, cut as int)),
        final(grid).keeps_openings(old(grid)),
        final(grid).walled_from(old(grid)),
{
    if vertical {
        grid.wall_vertical_line(room.y1, room.y2, cut);
        (
            Rect { x1: room.x1, y1: room.y1, x2: cut, y2: room.y2 },
            Rect { x1: cut, y1: room.y1, x2: room.x2, y2: room.y2 },
        )
    } else {
        grid.wall_horizontal_line(room.x1, room.x2, cut);
        (
            Rect { x1: room.x1, y1: room.y1, x2: room.x2, y2: cut },
            Rect { x1: room.x1, y1: cut, x2: room.x2, y2: room.y2 },
        )
    }
}

/// The table from which the axis of a cut is drawn: a cut from top to
/// bottom weighs the square of the room's width, a cut from side to side
/// the square of its height, so that a long room is mostly cut across.
pub fn axis_table(room: Rect) -> (table: RandomTable<bool>)
    requires
        1 <= room.x2 - room.x1 <= MAX_SIDE,
        1 <= room.y2 - room.y1 <= MAX_SIDE,
    ensures
        table.wf(),
        table.items() == seq![true, false],
        table.weights() == seq![
            (room.x2 - room.x1) * (room.x2 - room.x1),
            (room.y2 - room.y1) * (room.y2 - room.y1),
        ],
{
    let width = room.width();
    let height = room.height();
    assert(width * width + height * height <= i32::MAX) by (nonlinear_arith)
        requires
            0 <= width <= 32767,
            0 <= height <= 32767,
    ;
    assert(0 < width * width && 0 < height * height) by (nonlinear_arith)
        requires
            1 <= width,
            1 <= height,
    ;
    let table = RandomTable::<bool>::new().add(true, width * width).add(false, height * height);
    assert(table.items() =~= seq![true, false]);
    assert(table.weights() =~= seq![
        (room.x2 - room.x1) * (room.x2 - room.x1),
        (room.y2 - room.y1) * (room.y2 - room.y1),
    ]);
    table
}

/// Splits a room in two. The axis is drawn from the room's `axis_table`;
/// the cut is drawn toward the middle and stays two cells clear of the
/// walls. The wall is raised along the cut wherever no door and no window
/// is, so that no opening is closed.
pub fn split_room(grid: &mut TileGrid, rng: &mut RandomNumberGenerator, room: Rect) -> (parts: (
    Rect,
    Rect,
))
    requires
        4 <= room.x2 - room.x1 <= MAX_SIDE,
        4 <= room.y2 - room.y1 <= MAX_SIDE,
    ensures
        final(grid).same_shape(old(grid)),
        final(grid).keeps_openings(old(grid)),
        final(grid).walled_from(old(grid)),
        exists|vertical: bool, cut: int| #[trigger]
            cut_allowed(room, vertical, cut) && parts == halves(room, vertical, cut)
                && final(grid).tiles@ == old(grid).walled_over(cut_cells(room, vertical, cut)),
{
    let table = axis_table(room);
    proof {
        table.lemma_shape();
    }
    let vertical = *table.pick(range(rng, 0, table.total_weight()));
    let cut = if vertical {
        centered_range(rng, room.x1 + 2, room.x2 - 1)
    } else {
        centered_range(rng, room.y1 + 2, room.y2 - 1)
    };
    assert(cut_allowed(room, vertical, cut as int));
    apply_split(grid, room, vertical, cut)
}

/// Areas are not negative, and the sum over a longer prefix is larger.
pub proof fn lemma_total_area_grows(rooms: Seq<Rect>, lo: int, hi: int)
    requires
        0 <= lo <= hi <= rooms.len(),
    ensures
        0 <= total_area(rooms, lo) <= total_area(rooms, hi),
        lo < hi ==> total_area(rooms, lo) + area(rooms[lo]) <= total_area(rooms, hi),
    decreases hi - lo,
{
    lemma_area_sign(rooms, lo);
    if lo < hi {
        lemma_total_area_grows(rooms, lo, hi - 1);
        let r = rooms[hi - 1];
        assert(0 <= r.spec_width() * r.spec_height()) by (nonlinear_arith)
            requires
                0 <= r.spec_width(),
                0 <= r.spec_height(),
        ;
    }
}

pub proof fn lemma_area_sign(rooms: Seq<Rect>, upto: int)
    requires
        0 <= upto <= rooms.len(),
    ensures
        0 <= total_area(rooms, upto),
    decreases upto,
{
    if upto > 0 {
        lemma_area_sign(rooms, upto - 1);
        let r = rooms[upto - 1];
        assert(0 <= r.spec_width() * r.spec_height()) by (nonlinear_arith)
            requires
                0 <= r.spec_width(),
                0 <= r.spec_height(),
        ;
    }
}

/// Two lists that agree on their first `upto` rooms have the same area
/// over them.
pub proof fn lemma_total_area_same(a: Seq<Rect>, b: Seq<Rect>, upto: int)
    requires
        0 <= upto <= a.len(),
        upto <= b.len(),
        forall|k: int| 0 <= k < upto ==> a[k] == b[k],
    ensures
        total_area(a, upto) == total_area(b, upto),
    decreases upto,
{
    if upto > 0 {
        lemma_total_area_same(a, b, upto - 1);
    }
}

/// Taking a room out of the list takes its area out of the sum.
pub proof fn lemma_total_area_remove(rooms: Seq<Rect>, at: int, upto: int)
    requires
        0 <= at < rooms.len(),
        at < upto <= rooms.len(),
    ensures
        total_area(rooms.remove(at), upto - 1) + area(rooms[at]) == total_area(rooms, upto),
    decreases upto,
{
    let rest = rooms.remove(at);
    if upto == at + 1 {
        lemma_total_area_same(rooms, rest, at);
    } else {
        lemma_total_area_remove(rooms, at, upto - 1);
        assert(rest[upto - 2] == rooms[upto - 1]);
    }
}

/// Adding a room to the list adds its area to the sum.
pub proof fn lemma_total_area_push(rooms: Seq<Rect>, room: Rect)
    ensures
        total_area(rooms.push(room), rooms.len() as int + 1) == total_area(rooms, rooms.len() as int)
            + area(room),
{
    lemma_total_area_same(rooms, rooms.push(room), rooms.len() as int);
}

/// The two halves of a room have the room's area between them.
pub proof fn lemma_halves_area(room: Rect, vertical: bool, cut: int)
    requires
        room.proper(),
        cut_allowed(room, vertical, cut),
    ensures
        area(halves(room, vertical, cut).0) + area(halves(room, vertical, cut).1) == area(room),
{
    let w = room.x2 - room.x1;
    let h = room.y2 - room.y1;
    if vertical {
        let a = cut - room.x1;
        let b = room.x2 - cut;
        assert(a * h + b * h == (a + b) * h) by (nonlinear_arith);
    } else {
        let a = cut - room.y1;
        let b = room.y2 - cut;
        assert(w * a + w * b == w * (a + b)) by (nonlinear_arith);
    }
}

/// The indices below `upto` of the rooms that have any area, in order.
pub open spec fn area_items(rooms: Seq<Rect>, upto: int) -> Seq<usize>
    decreases upto,
{
    if upto <= 0 {
        Seq::empty()
    } else if area(rooms[upto - 1]) > 0 {
        area_items(rooms, upto - 1).push((upto - 1) as usize)
    } else {
        area_items(rooms, upto - 1)
    }
}

/// The areas of the rooms below `upto` that have any, in order.
pub open spec fn area_weights(rooms: Seq<Rect>, upto: int) -> Seq<int>
    decreases upto,
{
    if upto <= 0 {
        Seq::empty()
    } else if area(rooms[upto - 1]) > 0 {
        area_weights(rooms, upto - 1).push(area(rooms[upto - 1]))
    } else {
        area_weights(rooms, upto - 1)
    }
}

/// The items are the rooms with an area, and there are none exactly when
/// no room has one.
pub proof fn lemma_area_items(rooms: Seq<Rect>, upto: int)
    requires
        0 <= upto <= rooms.len() <= usize::MAX,
    ensures
        forall|t: int|
            0 <= t < area_items(rooms, upto).len() ==> (#[trigger] area_items(rooms, upto)[t])
                < upto && area(rooms[area_items(rooms, upto)[t] as int]) > 0,
        area_items(rooms, upto).len() == 0 <==> forall|k: int|
            0 <= k < upto ==> area(#[trigger] rooms[k]) == 0,
    decreases upto,
{
    if upto > 0 {
        lemma_area_items(rooms, upto - 1);
        lemma_total_area_grows(rooms, upto - 1, upto);
        let r = rooms[upto - 1];
        assert(0 <= r.spec_width() * r.spec_height()) by (nonlinear_arith)
            requires
                0 <= r.spec_width(),
                0 <= r.spec_height(),
        ;
        if area(r) > 0 {
            let items = area_items(rooms, upto);
            assert(items[items.len() - 1] == (upto - 1) as usize);
        }
    }
}

/// The table from which the next room is drawn: every room that has any
/// area, by its index, with its area as its weight.
pub fn area_table(rooms: &Vec<Rect>) -> (table: RandomTable<usize>)
    requires
        forall|i: int|
            0 <= i < rooms@.len() ==> (#[trigger] rooms@[i]).spec_width() <= i32::MAX
                && rooms@[i].spec_height() <= i32::MAX,
        total_area(rooms@, rooms@.len() as int) <= i32::MAX,
    ensures
        table.wf(),
        table.items() == area_items(rooms@, rooms@.len() as int),
        table.weights() == area_weights(rooms@, rooms@.len() as int),
{
    let mut table = RandomTable::<usize>::new();
    let count = rooms.len();
    let mut i: usize = 0;
    while i < count
        invariant
            count == rooms@.len(),
            0 <= i <= count,
            table.wf(),
            table.total() == total_area(rooms@, i as int),
            total_area(rooms@, count as int) <= i32::MAX,
            forall|k: int|
                0 <= k < rooms@.len() ==> (#[trigger] rooms@[k]).spec_width() <= i32::MAX
                    && rooms@[k].spec_height() <= i32::MAX,
            table.items() == area_items(rooms@, i as int),
            table.weights() == area_weights(rooms@, i as int),
        decreases count - i,
    {
        let room = rooms[i];
        let w = room.width();
        let h = room.height();
        proof {
            lemma_total_area_grows(rooms@, i as int, count as int);
            assert(0 <= w * h) by (nonlinear_arith)
                requires
                    0 <= w,
                    0 <= h,
            ;
        }
        table = table.add(i, w * h);
        i = i + 1;
    }
    table
}

/// Takes a room out of the list, drawn from the list's `area_table`.
/// Fails, and leaves the list as it is, when no room has any area.
pub fn take_random_room(rng: &mut RandomNumberGenerator, rooms: &mut Vec<Rect>) -> (taken: Result<
    Rect,
    GenerationError,
>)
    requires
        forall|i: int|
            0 <= i < old(rooms)@.len() ==> (#[trigger] old(rooms)@[i]).spec_width() <= i32::MAX
                && old(rooms)@[i].spec_height() <= i32::MAX,
        total_area(old(rooms)@, old(rooms)@.len() as int) <= i32::MAX,
    ensures
        match taken {
            Ok(room) => exists|i: int|
                0 <= i < old(rooms)@.len() && area(old(rooms)@[i]) > 0 && room == #[trigger] old(
                    rooms,
                )@[i] && final(rooms)@ == old(rooms)@.remove(i),
            Err(e) => e == GenerationError::DegenerateRoomSet && final(rooms)@ == old(rooms)@,
        },
        taken.is_err() <==> forall|i: int|
            0 <= i < old(rooms)@.len() ==> area(#[trigger] old(rooms)@[i]) == 0,
{
    let table = area_table(rooms);
    let count = rooms.len();
    proof {
        lemma_area_items(rooms@, count as int);
    }
    let found = match table.roll(rng) {
        Some(index) => Some(*index),
        None => None,
    };
    match found {
        Some(index) => {
            let room = rooms.remove(index);
            Ok(room)
        },
        None => Err(GenerationError::DegenerateRoomSet),
    }
}

/// Walls stay walls where tiles only ever turn into walls.
pub proof fn lemma_walls_stay(before: &TileGrid, after: &TileGrid, r: Rect)
    requires
        after.walled_from(before),
        before.walled(r),
    ensures
        after.walled(r),
{
    assert forall|x: int, y: int| #[trigger] r.on_border(x, y) implies after.shows(
        Point { x: x as i32, y: y as i32 },
        TileType::Wall,
    ) by {
        let p = Point { x: x as i32, y: y as i32 };
        assert(before.shows(p, TileType::Wall));
        assert(after.tiles@[before.flat(p)] == before.tiles@[before.flat(p)] || after.tiles@[before.flat(
            p,
        )] == TileType::Wall);
    }
}

/// What a cut does to the grid: tiles only turn into walls, no opening is
/// closed, nothing changes outside the footprint; a room that was walled
/// gives two walled halves where the footprint held no opening; and a room
/// with wall, door or window all along its walls gives two such halves.
pub proof fn lemma_split_effects(
    before: &TileGrid,
    after: &TileGrid,
    building: Rect,
    room: Rect,
    vertical: bool,
    cut: int,
)
    requires
        after.same_shape(before),
        after.tiles@ == before.walled_over(cut_cells(room, vertical, cut)),
        room.proper(),
        building.encloses(&room),
        cut_allowed(room, vertical, cut),
    ensures
        after.walled_from(before),
        after.keeps_openings(before),
        after.changed_within(before, building),
        before.fits(building) && before.walled(room) && before.unopened(building) ==> after.walled(
            halves(room, vertical, cut).0,
        ) && after.walled(halves(room, vertical, cut).1),
        before.fits(building) && before.bordered(room) ==> after.bordered(
            halves(room, vertical, cut).0,
        ) && after.bordered(halves(room, vertical, cut).1),
{
    let cells = cut_cells(room, vertical, cut);
    let a = halves(room, vertical, cut).0;
    let b = halves(room, vertical, cut).1;
    assert forall|i: int|
        0 <= i < after.tiles@.len() && #[trigger] after.tiles@[i] != before.tiles@[i] implies before.within(
        building,
        i,
    ) by {
        assert(before.hits(cells, i));
        let k = choose|k: int| 0 <= k < cells.len() && #[trigger] before.flat(cells[k]) == i;
        let p = cells[k];
        assert(room.covers(p.x as int, p.y as int));
        assert(building.covers(p.x as int, p.y as int));
    }
    if before.fits(building) {
        assert forall|x: int, y: int| a.on_border(x, y) || b.on_border(x, y) implies {
            let p = Point { x: x as i32, y: y as i32 };
            &&& before.stampable(p)
            &&& building.covers(x, y)
            &&& room.on_border(x, y) || before.hits(cells, before.flat(p))
        } by {
            let p = Point { x: x as i32, y: y as i32 };
            assert(room.covers(x, y));
            assert(building.covers(x, y));
            lemma_fits_stampable(before, building, x, y);
            if !room.on_border(x, y) {
                if vertical {
                    assert(x == cut);
                    assert(cells[y - room.y1] == p);
                } else {
                    assert(y == cut);
                    assert(cells[x - room.x1] == p);
                }
                assert(before.hits(cells, before.flat(p)));
            }
        }
        if before.walled(room) && before.unopened(building) {
            assert forall|x: int, y: int|
                a.on_border(x, y) || b.on_border(x, y) implies after.shows(
                Point { x: x as i32, y: y as i32 },
                TileType::Wall,
            ) by {
                let p = Point { x: x as i32, y: y as i32 };
                let at = before.flat(p);
                assert(before.stampable(p) && building.covers(x, y));
                assert(at == y * before.width + x);
                assert(before.within(building, at));
                assert(!opening(before.tiles@[at]));
                if room.on_border(x, y) {
                    assert(before.shows(p, TileType::Wall));
                }
            }
            assert(after.walled(a));
            assert(after.walled(b));
        }
        if before.bordered(room) {
            assert forall|x: int, y: int|
                a.on_border(x, y) || b.on_border(x, y) implies after.shows(
                Point { x: x as i32, y: y as i32 },
                TileType::Wall,
            ) || after.shows(Point { x: x as i32, y: y as i32 }, TileType::Door) || after.shows(
                Point { x: x as i32, y: y as i32 },
                TileType::Window,
            ) by {
                let p = Point { x: x as i32, y: y as i32 };
                assert(before.stampable(p));
                if room.on_border(x, y) {
                    assert(before.shows(p, TileType::Wall) || before.shows(p, TileType::Door)
                        || before.shows(p, TileType::Window));
                }
            }
            assert(after.bordered(a));
            assert(after.bordered(b));
        }
    }
}

/// The list with `room` added would tile the footprint.
pub open spec fn partitions_without(rest: Seq<Rect>, room: Rect, building: Rect) -> bool {
    &&& building.encloses(&room) && room.x2 - room.x1 >= 2 && room.y2 - room.y1 >= 2
    &&& forall|i: int|
        0 <= i < rest.len() ==> building.encloses(#[trigger] &rest[i]) && rest[i].x2 - rest[i].x1
            >= 2 && rest[i].y2 - rest[i].y1 >= 2 && apart(rest[i], room)
    &&& forall|i: int, j: int| 0 <= i < j < rest.len() ==> apart(rest[i], rest[j])
    &&& total_area(rest, rest.len() as int) + area(room) == area(building)
}

/// Every room of the list has wall tiles on all four walls.
pub open spec fn all_walled(grid: &TileGrid, rooms: Seq<Rect>) -> bool {
    forall|i: int| 0 <= i < rooms.len() ==> grid.walled(#[trigger] rooms[i])
}

/// A room of a tiling lies within the footprint with its corners in order,
/// so that every cell strictly inside the room is strictly inside the
/// footprint.
pub proof fn lemma_rooms_inside(rooms: Seq<Rect>, building: Rect, i: int, x: int, y: int)
    requires
        partitions(rooms, building),
        0 <= i < rooms.len(),
        rooms[i].strictly_covers(x, y),
    ensures
        building.encloses(&rooms[i]),
        rooms[i].proper(),
        building.strictly_covers(x, y),
{
}

/// Every cell on a wall of every room of the list is a wall, a door or a
/// window.
pub open spec fn all_bordered(grid: &TileGrid, rooms: Seq<Rect>) -> bool {
    forall|i: int| 0 <= i < rooms.len() ==> grid.bordered(#[trigger] rooms[i])
}

/// Rooms with wall, door or window all along their walls keep that once
/// walls have only been turned into doors and windows.
pub proof fn lemma_pierced_borders_stay(before: &TileGrid, after: &TileGrid, rooms: Seq<Rect>)
    requires
        all_bordered(before, rooms),
        after.pierced_from(before),
    ensures
        all_bordered(after, rooms),
{
    assert forall|i: int| 0 <= i < rooms.len() implies after.bordered(#[trigger] rooms[i]) by {
        let r = rooms[i];
        assert(before.bordered(r));
        assert forall|x: int, y: int| #[trigger] r.on_border(x, y) implies after.shows(
            Point { x: x as i32, y: y as i32 },
            TileType::Wall,
        ) || after.shows(Point { x: x as i32, y: y as i32 }, TileType::Door) || after.shows(
            Point { x: x as i32, y: y as i32 },
            TileType::Window,
        ) by {
            let q = Point { x: x as i32, y: y as i32 };
            assert(before.shows(q, TileType::Wall) || before.shows(q, TileType::Door)
                || before.shows(q, TileType::Window));
            let at = before.flat(q);
            assert(after.tiles@[at] == before.tiles@[at] || (before.tiles@[at] == TileType::Wall
                && (after.tiles@[at] == TileType::Door || after.tiles@[at] == TileType::Window)));
        }
    }
}

/// A tiling less one of its rooms.
pub proof fn lemma_take_out(listed: Seq<Rect>, at: int, building: Rect)
    requires
        partitions(listed, building),
        0 <= at < listed.len(),
    ensures
        partitions_without(listed.remove(at), listed[at], building),
{
    let rest = listed.remove(at);
    let room = listed[at];
    lemma_total_area_remove(listed, at, listed.len() as int);
    assert forall|i: int, j: int| 0 <= i < j < rest.len() implies apart(rest[i], rest[j]) by {
        let i0 = if i < at { i } else { i + 1 };
        let j0 = if j < at { j } else { j + 1 };
        assert(rest[i] == listed[i0] && rest[j] == listed[j0]);
    }
    assert forall|i: int| 0 <= i < rest.len() implies building.encloses(#[trigger] &rest[i])
        && rest[i].x2 - rest[i].x1 >= 2 && rest[i].y2 - rest[i].y1 >= 2 && apart(
        rest[i],
        room,
    ) by {
        let i0 = if i < at { i } else { i + 1 };
        assert(rest[i] == listed[i0]);
        if i0 < at {
            assert(apart(listed[i0], listed[at]));
        } else {
            assert(apart(listed[at], listed[i0]));
        }
    }
}

/// Putting the room back restores the tiling.
pub proof fn lemma_put_back(rest: Seq<Rect>, room: Rect, building: Rect)
    requires
        partitions_without(rest, room, building),
    ensures
        partitions(rest.push(room), building),
{
    let all = rest.push(room);
    lemma_total_area_push(rest, room);
    assert forall|i: int, j: int| 0 <= i < j < all.len() implies apart(all[i], all[j]) by {
        if j == rest.len() {
            assert(apart(rest[i], room));
        } else {
            assert(apart(rest[i], rest[j]));
        }
    }
    assert forall|i: int| 0 <= i < all.len() implies building.encloses(#[trigger] &all[i])
        && all[i].x2 - all[i].x1 >= 2 && all[i].y2 - all[i].y1 >= 2 by {
        if i < rest.len() {
            assert(all[i] == rest[i]);
        }
    }
}

/// Putting the room's two halves in its place restores the tiling.
pub proof fn lemma_put_halves(
    rest: Seq<Rect>,
    room: Rect,
    building: Rect,
    vertical: bool,
    cut: int,
)
    requires
        partitions_without(rest, room, building),
        cut_allowed(room, vertical, cut),
    ensures
        partitions(
            rest.push(halves(room, vertical, cut).0).push(halves(room, vertical, cut).1),
            building,
        ),
{
    let a = halves(room, vertical, cut).0;
    let b = halves(room, vertical, cut).1;
    let all = rest.push(a).push(b);
    lemma_halves_area(room, vertical, cut);
    lemma_total_area_push(rest, a);
    lemma_total_area_push(rest.push(a), b);
    assert forall|i: int, j: int| 0 <= i < j < all.len() implies apart(all[i], all[j]) by {
        if j < rest.len() {
            assert(apart(rest[i], rest[j]));
        } else if i < rest.len() {
            assert(apart(rest[i], room));
        }
    }
    assert forall|i: int| 0 <= i < all.len() implies building.encloses(#[trigger] &all[i])
        && all[i].x2 - all[i].x1 >= 2 && all[i].y2 - all[i].y1 >= 2 by {
        if i < rest.len() {
            assert(all[i] == rest[i]);
        }
    }
}

/// After a cut through a walled room in a footprint without openings, the
/// rooms that were walled and the two halves are all walled.
pub proof fn lemma_cut_keeps_walls(
    before: &TileGrid,
    after: &TileGrid,
    rest: Seq<Rect>,
    room: Rect,
    building: Rect,
    vertical: bool,
    cut: int,
)
    requires
        after.same_shape(before),
        after.tiles@ == before.walled_over(cut_cells(room, vertical, cut)),
        room.proper(),
        building.encloses(&room),
        cut_allowed(room, vertical, cut),
        before.fits(building),
        before.unopened(building),
        before.walled(room),
        all_walled(before, rest),
    ensures
        all_walled(
            after,
            rest.push(halves(room, vertical, cut).0).push(halves(room, vertical, cut).1),
        ),
{
    let all = rest.push(halves(room, vertical, cut).0).push(halves(room, vertical, cut).1);
    lemma_split_effects(before, after, building, room, vertical, cut);
    assert forall|i: int| 0 <= i < all.len() implies after.walled(#[trigger] all[i]) by {
        if i < rest.len() {
            assert(all[i] == rest[i]);
            lemma_walls_stay(before, after, rest[i]);
        }
    }
}

/// A rectangle with wall, door or window all along its walls stays so
/// where tiles only turn into walls and no opening is closed.
pub proof fn lemma_borders_stay(before: &TileGrid, after: &TileGrid, r: Rect)
    requires
        after.walled_from(before),
        after.keeps_openings(before),
        before.bordered(r),
    ensures
        after.bordered(r),
{
    assert forall|x: int, y: int| #[trigger] r.on_border(x, y) implies after.shows(
        Point { x: x as i32, y: y as i32 },
        TileType::Wall,
    ) || after.shows(Point { x: x as i32, y: y as i32 }, TileType::Door) || after.shows(
        Point { x: x as i32, y: y as i32 },
        TileType::Window,
    ) by {
        let p = Point { x: x as i32, y: y as i32 };
        assert(before.shows(p, TileType::Wall) || before.shows(p, TileType::Door) || before.shows(
            p,
            TileType::Window,
        ));
        let at = before.flat(p);
        assert(after.tiles@[at] == before.tiles@[at] || after.tiles@[at] == TileType::Wall);
    }
}

/// After a cut, the rooms that had wall, door or window all along their
/// walls and the two halves all have.
pub proof fn lemma_cut_keeps_borders(
    before: &TileGrid,
    after: &TileGrid,
    rest: Seq<Rect>,
    room: Rect,
    building: Rect,
    vertical: bool,
    cut: int,
)
    requires
        after.same_shape(before),
        after.tiles@ == before.walled_over(cut_cells(room, vertical, cut)),
        room.proper(),
        building.encloses(&room),
        cut_allowed(room, vertical, cut),
        before.fits(building),
        before.bordered(room),
        all_bordered(before, rest),
    ensures
        all_bordered(
            after,
            rest.push(halves(room, vertical, cut).0).push(halves(room, vertical, cut).1),
        ),
{
    let all = rest.push(halves(room, vertical, cut).0).push(halves(room, vertical, cut).1);
    lemma_split_effects(before, after, building, room, vertical, cut);
    assert forall|i: int| 0 <= i < all.len() implies after.bordered(#[trigger] all[i]) by {
        if i < rest.len() {
            assert(all[i] == rest[i]);
            lemma_borders_stay(before, after, rest[i]);
        }
    }
}

/// Some room of the list has a side below `min_dimension`.
pub open spec fn has_small(rooms: Seq<Rect>, min_dimension: int) -> bool {
    exists|i: int| 0 <= i < rooms.len() && too_small(#[trigger] rooms[i], min_dimension)
}

/// A small room outlives the cut of another room.
pub proof fn lemma_small_survives(
    listed: Seq<Rect>,
    at: int,
    a: Rect,
    b: Rect,
    min_dimension: int,
)
    requires
        0 <= at < listed.len(),
        has_small(listed, min_dimension),
        !too_small(listed[at], min_dimension),
    ensures
        has_small(listed.remove(at).push(a).push(b), min_dimension),
{
    let i = choose|i: int| 0 <= i < listed.len() && too_small(#[trigger] listed[i], min_dimension);
    let all = listed.remove(at).push(a).push(b);
    let to = if i < at {
        i
    } else {
        i - 1
    };
    assert(all[to] == listed[i]);
}

/// A small room that is put back at the end is in the list.
pub proof fn lemma_small_put_back(rest: Seq<Rect>, room: Rect, min_dimension: int)
    requires
        too_small(room, min_dimension),
    ensures
        has_small(rest.push(room), min_dimension),
{
    assert(rest.push(room)[rest.len() as int] == room);
}

/// Every room of the list has a side of `min_dimension` or more: a room
/// is cut only while neither of its sides is below it, and the cut leaves
/// the other side as it was.
pub open spec fn all_roomy(rooms: Seq<Rect>, min_dimension: int) -> bool {
    forall|i: int|
        0 <= i < rooms.len() ==> (#[trigger] rooms[i]).x2 - rooms[i].x1 >= min_dimension
            || rooms[i].y2 - rooms[i].y1 >= min_dimension
}

/// Array position `idx` belongs to a cell on a wall of one of the rooms.
pub open spec fn on_some_outline(grid: &TileGrid, rooms: Seq<Rect>, idx: int) -> bool {
    exists|i: int| 0 <= i < rooms.len() && grid.on_outline(#[trigger] rooms[i], idx)
}

/// `after` differs from `before` only on walls of the listed rooms.
pub open spec fn changed_on_outlines(
    before: &TileGrid,
    after: &TileGrid,
    rooms: Seq<Rect>,
) -> bool {
    &&& after.same_shape(before)
    &&& forall|idx: int|
        0 <= idx < after.tiles@.len() && #[trigger] after.tiles@[idx] != before.tiles@[idx]
            ==> on_some_outline(before, rooms, idx)
}

/// A cell on a wall of a room is on a wall of one of its halves, and so
/// is every cell of the cut.
pub proof fn lemma_outline_of_halves(
    grid: &TileGrid,
    room: Rect,
    vertical: bool,
    cut: int,
    idx: int,
)
    requires
        room.proper(),
        cut_allowed(room, vertical, cut),
        grid.on_outline(room, idx) || grid.hits(cut_cells(room, vertical, cut), idx),
    ensures
        grid.on_outline(halves(room, vertical, cut).0, idx) || grid.on_outline(
            halves(room, vertical, cut).1,
            idx,
        ),
{
    let a = halves(room, vertical, cut).0;
    let b = halves(room, vertical, cut).1;
    if grid.on_outline(room, idx) {
        let (x, y) = choose|x: int, y: int| #[trigger]
            room.on_border(x, y) && y * grid.width + x == idx;
        if a.covers(x, y) {
            assert(a.on_border(x, y));
        } else {
            assert(b.on_border(x, y));
        }
    } else {
        let cells = cut_cells(room, vertical, cut);
        let k = choose|k: int| 0 <= k < cells.len() && #[trigger] grid.flat(cells[k]) == idx;
        assert(a.on_border(cells[k].x as int, cells[k].y as int));
    }
}

/// Changes on the walls of a list of rooms are changes on the walls of the
/// list with one room moved to the end.
pub proof fn lemma_outlines_put_back(
    before: &TileGrid,
    after: &TileGrid,
    listed: Seq<Rect>,
    at: int,
)
    requires
        changed_on_outlines(before, after, listed),
        0 <= at < listed.len(),
    ensures
        changed_on_outlines(before, after, listed.remove(at).push(listed[at])),
{
    let moved = listed.remove(at).push(listed[at]);
    assert forall|idx: int|
        0 <= idx < after.tiles@.len() && #[trigger] after.tiles@[idx]
            != before.tiles@[idx] implies on_some_outline(before, moved, idx) by {
        let i = choose|i: int| 0 <= i < listed.len() && before.on_outline(#[trigger] listed[i], idx);
        let to = if i < at {
            i
        } else if i == at {
            listed.len() - 1
        } else {
            i - 1
        };
        assert(moved[to] == listed[i]);
    }
}

/// Changes on the walls of a list of rooms, followed by a cut through one
/// of them, are changes on the walls of the list with the room's two
/// halves in its place.
pub proof fn lemma_outlines_after_cut(
    before: &TileGrid,
    prior: &TileGrid,
    after: &TileGrid,
    listed: Seq<Rect>,
    at: int,
    vertical: bool,
    cut: int,
)
    requires
        changed_on_outlines(before, prior, listed),
        0 <= at < listed.len(),
        listed[at].proper(),
        cut_allowed(listed[at], vertical, cut),
        after.same_shape(prior),
        after.tiles@ == prior.walled_over(cut_cells(listed[at], vertical, cut)),
    ensures
        changed_on_outlines(
            before,
            after,
            listed.remove(at).push(halves(listed[at], vertical, cut).0).push(
                halves(listed[at], vertical, cut).1,
            ),
        ),
{
    let room = listed[at];
    let rest = listed.remove(at);
    let a = halves(room, vertical, cut).0;
    let b = halves(room, vertical, cut).1;
    let all = rest.push(a).push(b);
    let m = rest.len() as int;
    assert(all[m] == a && all[m + 1] == b);
    assert forall|idx: int|
        0 <= idx < after.tiles@.len() && #[trigger] after.tiles@[idx]
            != before.tiles@[idx] implies on_some_outline(before, all, idx) by {
        if prior.tiles@[idx] != before.tiles@[idx] {
            let i = choose|i: int|
                0 <= i < listed.len() && before.on_outline(#[trigger] listed[i], idx);
            if i == at {
                lemma_outline_of_halves(before, room, vertical, cut, idx);
                if before.on_outline(a, idx) {
                    assert(before.on_outline(all[m], idx));
                } else {
                    assert(before.on_outline(all[m + 1], idx));
                }
            } else {
                let to = if i < at {
                    i
                } else {
                    i - 1
                };
                assert(all[to] == listed[i]);
            }
        } else {
            assert(prior.hits(cut_cells(room, vertical, cut), idx));
            let cells = cut_cells(room, vertical, cut);
            let k = choose|k: int| 0 <= k < cells.len() && #[trigger] prior.flat(cells[k]) == idx;
            assert(before.flat(cells[k]) == idx);
            assert(before.hits(cells, idx));
            lemma_outline_of_halves(before, room, vertical, cut, idx);
            if before.on_outline(a, idx) {
                assert(before.on_outline(all[m], idx));
            } else {
                assert(before.on_outline(all[m + 1], idx));
            }
        }
    }
}

/// Every room of the list has at least `least` of its walls on the footprint.
pub open spec fn all_sided(rooms: Seq<Rect>, building: Rect, least: int) -> bool {
    forall|i: int| 0 <= i < rooms.len() ==> sides_on(#[trigger] rooms[i], building) >= least
}

/// Each half of a room keeps all but at most one of the room's walls on
/// the footprint; if the room touches the footprint, so does a half; and
/// the two halves share a wall with room for a door.
pub proof fn lemma_halves_sides(room: Rect, building: Rect, vertical: bool, cut: int)
    requires
        building.encloses(&room),
        room.x2 - room.x1 >= 2,
        room.y2 - room.y1 >= 2,
        cut_allowed(room, vertical, cut),
    ensures
        sides_on(halves(room, vertical, cut).0, building) >= sides_on(room, building) - 1,
        sides_on(halves(room, vertical, cut).1, building) >= sides_on(room, building) - 1,
        touches(room, building) ==> touches(halves(room, vertical, cut).0, building) || touches(
            halves(room, vertical, cut).1,
            building,
        ),
        contact(halves(room, vertical, cut).0, halves(room, vertical, cut).1) matches Some(wall)
            && wall.len() > 0,
{
}

/// With one wall of every room on the footprint, putting a room's two
/// halves in its place leaves every room near the outside.
pub proof fn lemma_last_cut_near(
    rest: Seq<Rect>,
    room: Rect,
    building: Rect,
    vertical: bool,
    cut: int,
)
    requires
        all_sided(rest, building, 1),
        sides_on(room, building) >= 1,
        building.encloses(&room),
        room.x2 - room.x1 >= 2,
        room.y2 - room.y1 >= 2,
        cut_allowed(room, vertical, cut),
    ensures
        near_outside(
            rest.push(halves(room, vertical, cut).0).push(halves(room, vertical, cut).1),
            building,
        ),
{
    let a = halves(room, vertical, cut).0;
    let b = halves(room, vertical, cut).1;
    let all = rest.push(a).push(b);
    let m = rest.len() as int;
    lemma_halves_sides(room, building, vertical, cut);
    assert(all[m] == a && all[m + 1] == b);
    assert forall|i: int| 0 <= i < all.len() implies touches(#[trigger] all[i], building)
        || exists|j: int|
        0 <= j < all.len() && touches(all[j], building) && #[trigger] door_wall(all, j, i) by {
        if i < m {
            assert(all[i] == rest[i]);
            assert(sides_on(rest[i], building) >= 1);
        } else if i == m {
            if !touches(a, building) {
                assert(pair_wall(all, m + 1, m) == contact(a, b));
                assert(door_wall(all, m + 1, m));
            }
        } else {
            if !touches(b, building) {
                assert(pair_wall(all, m, m + 1) == contact(a, b));
                assert(door_wall(all, m, m + 1));
            }
        }
    }
}

/// Changes within the footprint, one after the other, are changes within
/// the footprint; walls added twice over are walls added.
pub proof fn lemma_walled_from_chain(first: &TileGrid, mid: &TileGrid, last: &TileGrid, r: Rect)
    requires
        mid.walled_from(first),
        mid.changed_within(first, r),
        last.walled_from(mid),
        last.changed_within(mid, r),
    ensures
        last.walled_from(first),
        last.changed_within(first, r),
{
    assert forall|i: int|
        0 <= i < last.tiles@.len() && #[trigger] last.tiles@[i] != first.tiles@[i] implies first.within(
        r,
        i,
    ) by {
        if mid.tiles@[i] != first.tiles@[i] {
        } else {
            assert(last.tiles@[i] != mid.tiles@[i]);
            assert(mid.within(r, i));
            let (x, y) = choose|x: int, y: int| #[trigger] r.covers(x, y) && y * mid.width + x == i;
            assert(r.covers(x, y) && y * first.width + x == i);
        }
    }
    assert forall|i: int| 0 <= i < last.tiles@.len() implies #[trigger] last.tiles@[i]
        == first.tiles@[i] || last.tiles@[i] == TileType::Wall by {
        assert(mid.tiles@[i] == first.tiles@[i] || mid.tiles@[i] == TileType::Wall);
        assert(last.tiles@[i] == mid.tiles@[i] || last.tiles@[i] == TileType::Wall);
    }
}

/// What holds of every room of a list holds of the list without one of
/// them, and of that one.
pub proof fn lemma_bordered_without(grid: &TileGrid, listed: Seq<Rect>, at: int)
    requires
        all_bordered(grid, listed),
        0 <= at < listed.len(),
    ensures
        all_bordered(grid, listed.remove(at)),
        grid.bordered(listed[at]),
{
    let rest = listed.remove(at);
    assert forall|i: int| 0 <= i < rest.len() implies grid.bordered(#[trigger] rest[i]) by {
        let from = if i < at {
            i
        } else {
            i + 1
        };
        assert(rest[i] == listed[from]);
    }
}

/// A bordered room added to bordered rooms gives bordered rooms.
pub proof fn lemma_bordered_with(grid: &TileGrid, rest: Seq<Rect>, room: Rect)
    requires
        all_bordered(grid, rest),
        grid.bordered(room),
    ensures
        all_bordered(grid, rest.push(room)),
{
    let all = rest.push(room);
    assert forall|i: int| 0 <= i < all.len() implies grid.bordered(#[trigger] all[i]) by {
        if i < rest.len() {
            assert(all[i] == rest[i]);
        }
    }
}

/// What holds of the grid and the rooms between two rounds of cutting a
/// footprint, with `least` rounds to go: the rooms tile the footprint;
/// tiles have only turned into walls, on the rooms' walls, and no opening
/// was closed; the rooms are walled where the footprint was walled and
/// without openings, and bordered where it was bordered; no room is below
/// `min_dimension` on both sides; and every room has `least` walls on the
/// footprint, or, after the last round, is near the outside.
pub open spec fn cut_up(
    before: &TileGrid,
    grid: &TileGrid,
    rooms: Seq<Rect>,
    building: Rect,
    min_dimension: int,
    least: int,
) -> bool {
    &&& partitions(rooms, building)
    &&& grid.walled_from(before)
    &&& grid.keeps_openings(before)
    &&& grid.changed_within(before, building)
    &&& before.fits(building) && before.walled(building) && before.unopened(building)
        ==> all_walled(grid, rooms)
    &&& before.fits(building) && before.bordered(building) ==> all_bordered(grid, rooms)
    &&& changed_on_outlines(before, grid, rooms)
    &&& all_roomy(rooms, min_dimension)
    &&& least > 0 ==> all_sided(rooms, building, least)
    &&& least == 0 ==> near_outside(rooms, building)
}

/// A round that draws a room that is too small, and puts it back at the
/// end of the list, keeps what holds between rounds.
pub proof fn lemma_round_put_back(
    before: &TileGrid,
    grid: &TileGrid,
    listed: Seq<Rect>,
    at: int,
    building: Rect,
    min_dimension: int,
    least: int,
)
    requires
        cut_up(before, grid, listed, building, min_dimension, least + 1),
        0 <= least,
        0 <= at < listed.len(),
        too_small(listed[at], min_dimension),
    ensures
        cut_up(before, grid, listed.remove(at).push(listed[at]), building, min_dimension, least),
        has_small(listed.remove(at).push(listed[at]), min_dimension),
{
    let rest = listed.remove(at);
    let room = listed[at];
    let all = rest.push(room);
    assert forall|i: int| 0 <= i < all.len() implies 0 <= (if i < at {
        i
    } else if i == all.len() - 1 {
        at
    } else {
        i + 1
    }) < listed.len() && (#[trigger] all[i]) == listed[if i < at {
        i
    } else if i == all.len() - 1 {
        at
    } else {
        i + 1
    }] by {}
    lemma_take_out(listed, at, building);
    lemma_put_back(rest, room, building);
    lemma_outlines_put_back(before, grid, listed, at);
    lemma_small_put_back(rest, room, min_dimension);
    assert(all_sided(all, building, least + 1));
    assert(all_roomy(all, min_dimension));
    if before.fits(building) && before.walled(building) && before.unopened(building) {
        assert(all_walled(grid, all));
    }
    if before.fits(building) && before.bordered(building) {
        lemma_bordered_without(grid, listed, at);
        lemma_bordered_with(grid, rest, room);
    }
    if least == 0 {
        lemma_sided_near(all, building);
    }
}

/// A round that draws a room that is not too small, and cuts it, keeps
/// what holds between rounds; a room that was too small is still there.
pub proof fn lemma_round_cut(
    before: &TileGrid,
    prior: &TileGrid,
    after: &TileGrid,
    listed: Seq<Rect>,
    at: int,
    building: Rect,
    min_dimension: int,
    least: int,
    vertical: bool,
    cut: int,
)
    requires
        cut_up(before, prior, listed, building, min_dimension, least + 1),
        0 <= least,
        4 <= min_dimension,
        0 <= at < listed.len(),
        !too_small(listed[at], min_dimension),
        cut_allowed(listed[at], vertical, cut),
        after.same_shape(prior),
        after.tiles@ == prior.walled_over(cut_cells(listed[at], vertical, cut)),
    ensures
        cut_up(
            before,
            after,
            listed.remove(at).push(halves(listed[at], vertical, cut).0).push(
                halves(listed[at], vertical, cut).1,
            ),
            building,
            min_dimension,
            least,
        ),
        has_small(listed, min_dimension) ==> has_small(
            listed.remove(at).push(halves(listed[at], vertical, cut).0).push(
                halves(listed[at], vertical, cut).1,
            ),
            min_dimension,
        ),
{
    let rest = listed.remove(at);
    let room = listed[at];
    let a = halves(room, vertical, cut).0;
    let b = halves(room, vertical, cut).1;
    let all = rest.push(a).push(b);
    let m = rest.len() as int;
    assert(all[m] == a && all[m + 1] == b);
    assert forall|i: int| 0 <= i < rest.len() implies 0 <= (if i < at {
        i
    } else {
        i + 1
    }) < listed.len() && (#[trigger] rest[i]) == listed[if i < at {
        i
    } else {
        i + 1
    }] && all[i] == rest[i] by {}
    lemma_take_out(listed, at, building);
    if has_small(listed, min_dimension) {
        lemma_small_survives(listed, at, a, b, min_dimension);
    }
    lemma_outlines_after_cut(before, prior, after, listed, at, vertical, cut);
    lemma_put_halves(rest, room, building, vertical, cut);
    lemma_halves_sides(room, building, vertical, cut);
    assert(all_sided(rest, building, least + 1));
    assert(sides_on(room, building) >= least + 1);
    if least == 0 {
        lemma_last_cut_near(rest, room, building, vertical, cut);
    } else {
        assert forall|i: int| 0 <= i < all.len() implies sides_on(
            #[trigger] all[i],
            building,
        ) >= least by {
            if i < rest.len() {
                assert(all[i] == rest[i]);
            }
        }
    }
    assert forall|i: int| 0 <= i < all.len() implies (#[trigger] all[i]).x2 - all[i].x1
        >= min_dimension || all[i].y2 - all[i].y1 >= min_dimension by {
        if i < rest.len() {
            assert(all[i] == rest[i]);
        }
    }
    lemma_split_effects(prior, after, building, room, vertical, cut);
    lemma_walled_from_chain(before, prior, after, building);
    lemma_keeps_openings_chain(before, prior, after);
    if before.fits(building) && before.walled(building) && before.unopened(building) {
        lemma_fits_kept(before, prior, building);
        lemma_unopened_kept(before, prior, building);
        assert(all_walled(prior, rest));
        lemma_cut_keeps_walls(prior, after, rest, room, building, vertical, cut);
    }
    if before.fits(building) && before.bordered(building) {
        lemma_fits_kept(before, prior, building);
        lemma_bordered_without(prior, listed, at);
        lemma_cut_keeps_borders(prior, after, rest, room, building, vertical, cut);
    }
}

/// Partitions a footprint into rooms and raises the walls between them.
///
/// A cramped footprint is kept as one room. Any other is cut in two, and
/// then, `PARTITION_ROUNDS` times over, a room is drawn by area and, unless
/// it is too small, cut in two again: so fewer rooms than
/// `2 + PARTITION_ROUNDS` come out only where one of them is too small.
/// A wall is raised only where no door and no window is.
pub fn partition(
    grid: &mut TileGrid,
    rng: &mut RandomNumberGenerator,
    building: Rect,
    min_dimension: i32,
) -> (rooms: Vec<Rect>)
    requires
        4 <= min_dimension,
        2 <= building.x2 - building.x1 <= MAX_SIDE,
        2 <= building.y2 - building.y1 <= MAX_SIDE,
    ensures
        partitions(rooms@, building),
        1 <= rooms@.len() <= 2 + PARTITION_ROUNDS,
        cramped(building, min_dimension as int) ==> rooms@ == seq![building] && final(grid).tiles@
            == old(grid).tiles@,
        !cramped(building, min_dimension as int) ==> rooms@.len() >= 2,
        !cramped(building, min_dimension as int) && rooms@.len() < 2 + PARTITION_ROUNDS
            ==> exists|i: int|
            0 <= i < rooms@.len() && too_small(#[trigger] rooms@[i], min_dimension as int),
        final(grid).walled_from(old(grid)),
        final(grid).keeps_openings(old(grid)),
        final(grid).changed_within(old(grid), building),
        old(grid).fits(building) && old(grid).walled(building) && old(grid).unopened(building)
            ==> all_walled(final(grid), rooms@),
        old(grid).fits(building) && old(grid).bordered(building) ==> all_bordered(
            final(grid),
            rooms@,
        ),
        near_outside(rooms@, building),
        changed_on_outlines(old(grid), final(grid), rooms@),
        !cramped(building, min_dimension as int) ==> all_roomy(rooms@, min_dimension as int),
{
    let mut rooms: Vec<Rect> = Vec::new();
    proof {
        assert(area(building) <= i32::MAX) by (nonlinear_arith)
            requires
                0 <= building.spec_width() <= 32767,
                0 <= building.spec_height() <= 32767,
                area(building) == building.spec_width() * building.spec_height(),
        ;
    }
    if is_cramped(building, min_dimension) {
        rooms.push(building);
        proof {
            assert(rooms@ =~= seq![building]);
            reveal_with_fuel(total_area, 2);
        }
        return rooms;
    }
    let (first, second) = split_room(grid, rng, building);
    rooms.push(first);
    rooms.push(second);
    proof {
        let (vertical, cut) = choose|vertical: bool, cut: int| #[trigger]
            cut_allowed(building, vertical, cut) && (first, second) == halves(
                building,
                vertical,
                cut,
            ) && grid.tiles@ == old(grid).walled_over(cut_cells(building, vertical, cut));
        let whole = seq![building];
        assert(rooms@ =~= whole.remove(0).push(first).push(second));
        lemma_whole(old(grid), building, min_dimension as int);
        lemma_round_cut(
            old(grid),
            old(grid),
            grid,
            whole,
            0,
            building,
            min_dimension as int,
            PARTITION_ROUNDS as int,
            vertical,
            cut,
        );
    }
    let mut round: usize = 0;
    while round < PARTITION_ROUNDS
        invariant
            4 <= min_dimension,
            2 <= building.x2 - building.x1 <= MAX_SIDE,
            2 <= building.y2 - building.y1 <= MAX_SIDE,
            area(building) <= i32::MAX,
            0 <= round <= PARTITION_ROUNDS,
            2 <= rooms@.len() <= 2 + round,
            rooms@.len() < 2 + round ==> has_small(rooms@, min_dimension as int),
            cut_up(
                old(grid),
                grid,
                rooms@,
                building,
                min_dimension as int,
                PARTITION_ROUNDS - round,
            ),
        decreases PARTITION_ROUNDS - round,
    {
        let ghost listed = rooms@;
        let ghost least = PARTITION_ROUNDS - round - 1;
        let ghost prior = *grid;
        match take_random_room(rng, &mut rooms) {
            Ok(room) => {
                let ghost at = choose|i: int|
                    0 <= i < listed.len() && area(listed[i]) > 0 && room == #[trigger] listed[i]
                        && rooms@ == listed.remove(i);
                if is_too_small(room, min_dimension) {
                    rooms.push(room);
                    proof {
                        lemma_round_put_back(
                            old(grid),
                            grid,
                            listed,
                            at,
                            building,
                            min_dimension as int,
                            least,
                        );
                    }
                } else {
                    let (a, b) = split_room(grid, rng, room);
                    rooms.push(a);
                    rooms.push(b);
                    proof {
                        let (vertical, cut) = choose|vertical: bool, cut: int| #[trigger]
                            cut_allowed(room, vertical, cut) && (a, b) == halves(
                                room,
                                vertical,
                                cut,
                            ) && grid.tiles@ == prior.walled_over(cut_cells(room, vertical, cut));
                        lemma_round_cut(
                            old(grid),
                            &prior,
                            grid,
                            listed,
                            at,
                            building,
                            min_dimension as int,
                            least,
                            vertical,
                            cut,
                        );
                    }
                }
            },
            Err(_) => {
                proof {
                    lemma_room_has_area(listed, building);
                }
            },
        }
        round = round + 1;
    }
    rooms
}

/// A footprint that is not cramped, as the one room of an untouched grid,
/// is in the state from which the cutting starts.
pub proof fn lemma_whole(before: &TileGrid, building: Rect, min_dimension: int)
    requires
        !cramped(building, min_dimension),
        2 <= building.x2 - building.x1,
        2 <= building.y2 - building.y1,
    ensures
        cut_up(before, before, seq![building], building, min_dimension, PARTITION_ROUNDS + 1),
{
    reveal_with_fuel(total_area, 2);
    let whole = seq![building];
    assert(whole[0] == building);
    assert(sides_on(building, building) == 4);
}

/// The first room of a tiling covers cells: a draw by area cannot fail.
pub proof fn lemma_room_has_area(rooms: Seq<Rect>, building: Rect)
    requires
        partitions(rooms, building),
        1 <= rooms.len(),
    ensures
        area(rooms[0]) > 0,
{
    let r = rooms[0];
    assert(r.spec_width() * r.spec_height() > 0) by (nonlinear_arith)
        requires
            r.spec_width() > 0,
            r.spec_height() > 0,
    ;
}

/// Rooms that each have a wall on the footprint are near the outside.
pub proof fn lemma_sided_near(rooms: Seq<Rect>, building: Rect)
    requires
        all_sided(rooms, building, 1) || near_outside(rooms, building),
    ensures
        near_outside(rooms, building),
{
    if !near_outside(rooms, building) {
        assert forall|i: int| 0 <= i < rooms.len() implies touches(#[trigger] rooms[i], building) by {
            assert(sides_on(rooms[i], building) >= 1);
        }
    }
}

/// A grid of the same shape fits the same rectangles.
pub proof fn lemma_fits_kept(before: &TileGrid, after: &TileGrid, r: Rect)
    requires
        after.same_shape(before),
        before.fits(r),
    ensures
        after.fits(r),
{
}

} // verus!
