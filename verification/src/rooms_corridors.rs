//! The rooms-and-corridors generator: digs rooms that do not overlap out of
//! solid wall and joins each to the one dug before it by an L-shaped tunnel.

use vstd::prelude::*;
use bracket_lib::prelude::RandomNumberGenerator;
use crate::game_map::GameMap;
use crate::generator::{copy_tiles, MapGenerator};
use crate::geometry::{greater, lesser, Point, Rect};
use crate::grid::{
    column_cells, lemma_fits_stampable, lemma_stamped_twice, row_cells, TileGrid, TileType,
};
use crate::map::GridMap;
use crate::random::{from_entropy, range, roll_dice, seeded};

verus! {

/// How many rooms are attempted.
pub const MAX_ROOMS: i32 = 40;

/// The smallest side of a room.
pub const ROOM_MIN_SIZE: i32 = 6;

/// The bound, itself excluded, on the side of a room.
pub const ROOM_MAX_SIZE: i32 = 10;

/// The generator of levels made of rooms and corridors: the grid it digs
/// into and its random source.
pub struct RoomsCorridorsGenerator {
    pub grid: TileGrid,
    pub rng: RandomNumberGenerator,
}

/// The cells of the rows of a room's inside from the first down to row
/// `upto`, row by row. A room's inside leaves out its left column and its
/// top row only.
pub open spec fn inside_cells(room: Rect, upto: int) -> Seq<Point>
    decreases upto - room.y1,
{
    if upto <= room.y1 {
        Seq::empty()
    } else {
        inside_cells(room, upto - 1) + row_cells(room.x1 + 1, room.x2 as int, upto)
    }
}

/// A room as the generator rolls them: sides drawn from the room sizes,
/// starting at cell zero or later and leaving a free cell at the far edge.
pub open spec fn dug(r: Rect, width: int, height: int) -> bool {
    &&& ROOM_MIN_SIZE <= r.x2 - r.x1 < ROOM_MAX_SIZE
    &&& ROOM_MIN_SIZE <= r.y2 - r.y1 < ROOM_MAX_SIZE
    &&& 0 <= r.x1 && r.x2 <= width - 2
    &&& 0 <= r.y1 && r.y2 <= height - 2
}

/// No two rooms of the list share a cell.
pub open spec fn all_disjoint(rooms: Seq<Rect>) -> bool {
    forall|i: int, j: int|
        0 <= i < rooms.len() && 0 <= j < rooms.len() && i != j ==> !(#[trigger] rooms[i]).intersects(
            #[trigger] &rooms[j],
        )
}

impl TileGrid {
    /// This grid is `before` with some tiles turned into floor.
    pub open spec fn dug_from(&self, before: &TileGrid) -> bool {
        &&& self.same_shape(before)
        &&& forall|i: int|
            0 <= i < self.tiles@.len() ==> #[trigger] self.tiles@[i] == before.tiles@[i]
                || self.tiles@[i] == TileType::Floor
    }

    /// Every cell of `cells` can be stamped and is floor.
    pub open spec fn all_floor(&self, cells: Seq<Point>) -> bool {
        forall|k: int| 0 <= k < cells.len() ==> self.shows(#[trigger] cells[k], TileType::Floor)
    }

    /// The inside of `room` is floor.
    pub open spec fn hollow(&self, room: Rect) -> bool {
        self.all_floor(inside_cells(room, room.y2 as int))
    }

    /// An L of floor leads from `a` to `b`: along `a`'s row and then `b`'s
    /// column, or along `a`'s column and then `b`'s row.
    pub open spec fn tunnelled(&self, a: Point, b: Point) -> bool {
        ||| self.all_floor(row_cells(a.x as int, b.x as int, a.y as int)) && self.all_floor(
            column_cells(a.y as int, b.y as int, b.x as int),
        )
        ||| self.all_floor(column_cells(a.y as int, b.y as int, a.x as int)) && self.all_floor(
            row_cells(a.x as int, b.x as int, b.y as int),
        )
    }
}

/// Floor stays floor where tiles only ever turn into floor.
pub proof fn lemma_floor_stays(before: &TileGrid, after: &TileGrid, cells: Seq<Point>)
    requires
        after.dug_from(before),
        before.all_floor(cells),
    ensures
        after.all_floor(cells),
{
    assert forall|k: int| 0 <= k < cells.len() implies after.shows(
        #[trigger] cells[k],
        TileType::Floor,
    ) by {
        assert(before.shows(cells[k], TileType::Floor));
        let i = before.flat(cells[k]);
        assert(after.tiles@[i] == before.tiles@[i] || after.tiles@[i] == TileType::Floor);
    }
}

/// Stamping floor over cells that can all be stamped leaves them floor,
/// and turns tiles into floor only.
pub proof fn lemma_stamped_floor(before: &TileGrid, after: &TileGrid, cells: Seq<Point>)
    requires
        after.same_shape(before),
        after.tiles@ == before.stamped(cells, TileType::Floor),
    ensures
        after.dug_from(before),
        (forall|k: int| 0 <= k < cells.len() ==> before.stampable(#[trigger] cells[k]))
            ==> after.all_floor(cells),
{
    if forall|k: int| 0 <= k < cells.len() ==> before.stampable(#[trigger] cells[k]) {
        assert forall|k: int| 0 <= k < cells.len() implies after.shows(
            #[trigger] cells[k],
            TileType::Floor,
        ) by {
            assert(before.stampable(cells[k]));
            assert(before.hits(cells, before.flat(cells[k])));
        }
    }
}

/// Digging carries over two steps.
pub proof fn lemma_dug_chain(first: &TileGrid, mid: &TileGrid, last: &TileGrid)
    requires
        mid.dug_from(first),
        last.dug_from(mid),
    ensures
        last.dug_from(first),
{
    assert forall|i: int| 0 <= i < last.tiles@.len() implies #[trigger] last.tiles@[i]
        == first.tiles@[i] || last.tiles@[i] == TileType::Floor by {
        assert(mid.tiles@[i] == first.tiles@[i] || mid.tiles@[i] == TileType::Floor);
        assert(last.tiles@[i] == mid.tiles@[i] || last.tiles@[i] == TileType::Floor);
    }
}

/// Every cell of a room's inside lies right of its first column and below
/// its first row, within the room.
pub proof fn lemma_inside_cells(room: Rect, upto: int, k: int)
    requires
        room.x1 < room.x2,
        room.y1 <= upto <= room.y2,
        0 <= k < inside_cells(room, upto).len(),
    ensures
        room.x1 < inside_cells(room, upto)[k].x <= room.x2,
        room.y1 < inside_cells(room, upto)[k].y <= upto,
    decreases upto - room.y1,
{
    if upto > room.y1 {
        let before = inside_cells(room, upto - 1);
        if k < before.len() {
            lemma_inside_cells(room, upto - 1, k);
        }
    }
}

/// Digs out the inside of a room: every cell right of its first column and
/// below its first row, up to and with its last column and row.
pub fn apply_room_to_map(grid: &mut TileGrid, room: &Rect)
    requires
        room.x1 < room.x2,
        room.y1 <= room.y2,
    ensures
        final(grid).same_shape(old(grid)),
        final(grid).tiles@ == old(grid).stamped(
            inside_cells(*room, room.y2 as int),
            TileType::Floor,
        ),
{
    let mut y: i32 = room.y1;
    assert(grid.tiles@ =~= old(grid).stamped(inside_cells(*room, y as int), TileType::Floor));
    while y < room.y2
        invariant
            room.x1 < room.x2,
            room.y1 <= y <= room.y2,
            grid.same_shape(old(grid)),
            grid.tiles@ == old(grid).stamped(inside_cells(*room, y as int), TileType::Floor),
        decreases room.y2 - y,
    {
        y = y + 1;
        let ghost prior = *grid;
        grid.place_horizontal_line(room.x1 + 1, room.x2, y, TileType::Floor);
        proof {
            lemma_stamped_twice(
                old(grid),
                &prior,
                inside_cells(*room, y - 1),
                row_cells(room.x1 + 1, room.x2 as int, y as int),
                TileType::Floor,
            );
        }
    }
}

/// Digs a tunnel along row `y` from column `x1` to column `x2`.
pub fn apply_horizontal_tunnel(grid: &mut TileGrid, x1: i32, x2: i32, y: i32)
    ensures
        final(grid).same_shape(old(grid)),
        final(grid).tiles@ == old(grid).stamped(
            row_cells(x1 as int, x2 as int, y as int),
            TileType::Floor,
        ),
{
    grid.place_horizontal_line(x1, x2, y, TileType::Floor);
}

/// Digs a tunnel along column `x` from row `y1` to row `y2`.
pub fn apply_vertical_tunnel(grid: &mut TileGrid, y1: i32, y2: i32, x: i32)
    ensures
        final(grid).same_shape(old(grid)),
        final(grid).tiles@ == old(grid).stamped(
            column_cells(y1 as int, y2 as int, x as int),
            TileType::Floor,
        ),
{
    grid.place_vertical_line(y1, y2, x, TileType::Floor);
}

/// Whether the room shares no cell with any room of the list.
pub fn is_free(room: &Rect, rooms: &Vec<Rect>) -> (free: bool)
    ensures
        free == forall|k: int| 0 <= k < rooms@.len() ==> !room.intersects(#[trigger] &rooms@[k]),
{
    let mut ok = true;
    let mut k: usize = 0;
    while k < rooms.len()
        invariant
            0 <= k <= rooms@.len(),
            ok == forall|c: int| 0 <= c < k ==> !room.intersects(#[trigger] &rooms@[c]),
        decreases rooms@.len() - k,
    {
        if room.intersect(&rooms[k]) {
            ok = false;
        }
        k = k + 1;
    }
    ok
}

/// Digs the L between two cells: along the first's row and the second's
/// column when `row_first`, else along the first's column and the second's
/// row.
pub fn dig_tunnel(grid: &mut TileGrid, from: Point, to: Point, row_first: bool)
    ensures
        final(grid).dug_from(old(grid)),
        old(grid).wf() && 1 <= from.x < old(grid).width && 1 <= to.x < old(grid).width && 1
            <= from.y < old(grid).height && 1 <= to.y < old(grid).height
            ==> final(grid).tunnelled(from, to),
{
    let ghost start = *grid;
    let ghost first = if row_first {
        row_cells(from.x as int, to.x as int, from.y as int)
    } else {
        column_cells(from.y as int, to.y as int, from.x as int)
    };
    let ghost second = if row_first {
        column_cells(from.y as int, to.y as int, to.x as int)
    } else {
        row_cells(from.x as int, to.x as int, to.y as int)
    };
    if row_first {
        apply_horizontal_tunnel(grid, from.x, to.x, from.y);
    } else {
        apply_vertical_tunnel(grid, from.y, to.y, from.x);
    }
    let ghost mid = *grid;
    if row_first {
        apply_vertical_tunnel(grid, from.y, to.y, to.x);
    } else {
        apply_horizontal_tunnel(grid, from.x, to.x, to.y);
    }
    proof {
        lemma_stamped_floor(&start, &mid, first);
        lemma_stamped_floor(&mid, grid, second);
        lemma_dug_chain(&start, &mid, grid);
        if start.wf() && 1 <= from.x < start.width && 1 <= to.x < start.width && 1 <= from.y
            < start.height && 1 <= to.y < start.height {
            let span = Rect {
                x1: lesser(from.x as int, to.x as int) as i32,
                x2: greater(from.x as int, to.x as int) as i32,
                y1: lesser(from.y as int, to.y as int) as i32,
                y2: greater(from.y as int, to.y as int) as i32,
            };
            assert forall|k: int| 0 <= k < first.len() implies start.stampable(
                #[trigger] first[k],
            ) by {
                lemma_fits_stampable(&start, span, first[k].x as int, first[k].y as int);
            }
            assert forall|k: int| 0 <= k < second.len() implies mid.stampable(
                #[trigger] second[k],
            ) by {
                lemma_fits_stampable(&mid, span, second[k].x as int, second[k].y as int);
            }
            lemma_floor_stays(&mid, grid, first);
        }
    }
}

impl RoomsCorridorsGenerator {
    /// The grid is well formed and its cells fit an `i32`.
    pub open spec fn wf(&self) -> bool {
        self.grid.wf() && self.grid.width * self.grid.height <= i32::MAX
    }

    /// A generator over an all-wall grid of the given extents, with a
    /// random source seeded by the system.
    pub fn new(width: i32, height: i32) -> (generator: RoomsCorridorsGenerator)
        requires
            0 <= width,
            0 <= height,
            width * height <= i32::MAX,
        ensures
            generator.wf(),
            generator.grid.width == width,
            generator.grid.height == height,
            forall|i: int|
                0 <= i < generator.grid.tiles@.len() ==> generator.grid.tiles@[i]
                    == TileType::Wall,
    {
        RoomsCorridorsGenerator {
            grid: TileGrid::new(width, height, TileType::Wall),
            rng: from_entropy(),
        }
    }

    /// A generator over an all-wall grid of the given extents, with a
    /// random source started from `seed`.
    pub fn seeded(width: i32, height: i32, seed: u64) -> (generator: RoomsCorridorsGenerator)
        requires
            0 <= width,
            0 <= height,
            width * height <= i32::MAX,
        ensures
            generator.wf(),
            generator.grid.width == width,
            generator.grid.height == height,
            forall|i: int|
                0 <= i < generator.grid.tiles@.len() ==> generator.grid.tiles@[i]
                    == TileType::Wall,
    {
        RoomsCorridorsGenerator {
            grid: TileGrid::new(width, height, TileType::Wall),
            rng: seeded(seed),
        }
    }

    /// Rolls a candidate room: its sides, then its place. `None` when a
    /// room of the rolled sides does not fit the grid.
    pub fn roll_room(&mut self) -> (candidate: Option<Rect>)
        ensures
            final(self).grid == old(self).grid,
            candidate matches Some(r) ==> dug(
                r,
                old(self).grid.width as int,
                old(self).grid.height as int,
            ),
            old(self).grid.width > ROOM_MAX_SIZE && old(self).grid.height > ROOM_MAX_SIZE
                ==> candidate.is_some(),
    {
        let w = range(&mut self.rng, ROOM_MIN_SIZE, ROOM_MAX_SIZE);
        let h = range(&mut self.rng, ROOM_MIN_SIZE, ROOM_MAX_SIZE);
        let x_faces = (self.grid.width as i64) - (w as i64) - 1;
        let y_faces = (self.grid.height as i64) - (h as i64) - 1;
        if x_faces >= 1 && y_faces >= 1 {
            let x = roll_dice(&mut self.rng, 1, x_faces as i32) - 1;
            let y = roll_dice(&mut self.rng, 1, y_faces as i32) - 1;
            Some(Rect::with_size(x, y, w, h))
        } else {
            None
        }
    }

    /// Runs one pass: rolls a room per attempt, digs out each room that
    /// shares no cell with a room dug before, and joins it to the room dug
    /// last by an L-shaped tunnel, the first leg drawn at random.
    ///
    /// Tiles only turn into floor. The rooms share no cell, each lies
    /// within the grid and is dug out, and each is joined by a tunnel to
    /// the one before it in the list.
    pub fn generate_rooms(&mut self) -> (rooms: Vec<Rect>)
        requires
            old(self).wf(),
        ensures
            final(self).wf(),
            final(self).grid.dug_from(&old(self).grid),
            rooms@.len() <= MAX_ROOMS,
            old(self).grid.width > ROOM_MAX_SIZE && old(self).grid.height > ROOM_MAX_SIZE
                ==> rooms@.len() >= 1,
            all_disjoint(rooms@),
            forall|k: int|
                0 <= k < rooms@.len() ==> dug(
                    #[trigger] rooms@[k],
                    old(self).grid.width as int,
                    old(self).grid.height as int,
                ) && final(self).grid.hollow(rooms@[k]),
            forall|k: int|
                1 <= k < rooms@.len() ==> final(self).grid.tunnelled(
                    mid_of(rooms@[k - 1]),
                    mid_of(#[trigger] rooms@[k]),
                ),
    {
        let mut rooms: Vec<Rect> = Vec::new();
        let mut attempt: i32 = 0;
        let ghost width = self.grid.width as int;
        let ghost height = self.grid.height as int;
        while attempt < MAX_ROOMS
            invariant
                old(self).wf(),
                self.wf(),
                width == old(self).grid.width,
                height == old(self).grid.height,
                self.grid.dug_from(&old(self).grid),
                0 <= attempt <= MAX_ROOMS,
                rooms@.len() <= attempt,
                attempt >= 1 && width > ROOM_MAX_SIZE && height > ROOM_MAX_SIZE ==> rooms@.len()
                    >= 1,
                all_disjoint(rooms@),
                forall|k: int|
                    0 <= k < rooms@.len() ==> dug(#[trigger] rooms@[k], width, height)
                        && self.grid.hollow(rooms@[k]),
                forall|k: int|
                    1 <= k < rooms@.len() ==> self.grid.tunnelled(
                        mid_of(rooms@[k - 1]),
                        mid_of(#[trigger] rooms@[k]),
                    ),
            decreases MAX_ROOMS - attempt,
        {
            match self.roll_room() {
                Some(room) => {
                    if is_free(&room, &rooms) {
                        let ghost listed = rooms@;
                        let ghost prior = self.grid;
                        apply_room_to_map(&mut self.grid, &room);
                        let ghost hollowed = self.grid;
                        proof {
                            let cells = inside_cells(room, room.y2 as int);
                            lemma_stamped_floor(&prior, &hollowed, cells);
                            let span = Rect {
                                x1: (room.x1 + 1) as i32,
                                x2: room.x2,
                                y1: (room.y1 + 1) as i32,
                                y2: room.y2,
                            };
                            assert forall|k: int| 0 <= k < cells.len() implies prior.stampable(
                                #[trigger] cells[k],
                            ) by {
                                lemma_inside_cells(room, room.y2 as int, k);
                                lemma_fits_stampable(
                                    &prior,
                                    span,
                                    cells[k].x as int,
                                    cells[k].y as int,
                                );
                            }
                        }
                        if rooms.len() > 0 {
                            let new_mid = room.center();
                            let prev_mid = rooms[rooms.len() - 1].center();
                            let row_first = range(&mut self.rng, 0, 2) == 1;
                            dig_tunnel(&mut self.grid, prev_mid, new_mid, row_first);
                            proof {
                                assert(dug(listed[listed.len() - 1], width, height));
                                lemma_mid_inside(room, width, height);
                                lemma_mid_inside(listed[listed.len() - 1], width, height);
                                lemma_floor_stays(
                                    &hollowed,
                                    &self.grid,
                                    inside_cells(room, room.y2 as int),
                                );
                                lemma_dug_chain(&prior, &hollowed, &self.grid);
                            }
                        }
                        rooms.push(room);
                        proof {
                            lemma_dug_chain(&old(self).grid, &prior, &self.grid);
                            assert forall|k: int| 0 <= k < rooms@.len() implies dug(
                                #[trigger] rooms@[k],
                                width,
                                height,
                            ) && self.grid.hollow(rooms@[k]) by {
                                if k < listed.len() {
                                    lemma_floor_stays(
                                        &prior,
                                        &self.grid,
                                        inside_cells(listed[k], listed[k].y2 as int),
                                    );
                                }
                            }
                            assert forall|k: int| 1 <= k < rooms@.len() implies self.grid.tunnelled(
                                mid_of(rooms@[k - 1]),
                                mid_of(#[trigger] rooms@[k]),
                            ) by {
                                if k < listed.len() {
                                    lemma_tunnel_stays(
                                        &prior,
                                        &self.grid,
                                        mid_of(listed[k - 1]),
                                        mid_of(listed[k]),
                                    );
                                }
                            }
                            assert forall|i: int, j: int|
                                0 <= i < rooms@.len() && 0 <= j < rooms@.len() && i
                                    != j implies !(#[trigger] rooms@[i]).intersects(
                                #[trigger] &rooms@[j],
                            ) by {
                                if i == listed.len() {
                                    assert(!room.intersects(&listed[j]));
                                } else if j == listed.len() {
                                    assert(!room.intersects(&listed[i]));
                                    crate::geometry::lemma_intersects_symmetric(room, listed[i]);
                                } else {
                                    assert(!listed[i].intersects(&listed[j]));
                                }
                            }
                        }
                    }
                },
                None => {},
            }
            attempt = attempt + 1;
        }
        rooms
    }
}

/// The middle cell of a room.
pub open spec fn mid_of(room: Rect) -> Point {
    Point {
        x: crate::geometry::mean(room.x1 as int, room.x2 as int) as i32,
        y: crate::geometry::mean(room.y1 as int, room.y2 as int) as i32,
    }
}

/// The middle of a dug room lies within the grid, clear of its first row
/// and column.
pub proof fn lemma_mid_inside(room: Rect, width: int, height: int)
    requires
        dug(room, width, height),
    ensures
        1 <= mid_of(room).x < width,
        1 <= mid_of(room).y < height,
{
}

/// A tunnel stays where tiles only ever turn into floor.
pub proof fn lemma_tunnel_stays(before: &TileGrid, after: &TileGrid, a: Point, b: Point)
    requires
        after.dug_from(before),
        before.tunnelled(a, b),
    ensures
        after.tunnelled(a, b),
{
    if before.all_floor(row_cells(a.x as int, b.x as int, a.y as int)) && before.all_floor(
        column_cells(a.y as int, b.y as int, b.x as int),
    ) {
        lemma_floor_stays(before, after, row_cells(a.x as int, b.x as int, a.y as int));
        lemma_floor_stays(before, after, column_cells(a.y as int, b.y as int, b.x as int));
    } else {
        lemma_floor_stays(before, after, column_cells(a.y as int, b.y as int, a.x as int));
        lemma_floor_stays(before, after, row_cells(a.x as int, b.x as int, b.y as int));
    }
}

impl MapGenerator for RoomsCorridorsGenerator {
    open spec fn ready(&self) -> bool {
        self.wf()
    }

    /// Runs one pass and hands out the level: the grid as the pass left
    /// it, and the rooms in the order in which they were dug.
    fn generate(&mut self) -> (map: GameMap)
        ensures
            final(self).wf(),
            final(self).grid.dug_from(&old(self).grid),
            map.tiles@ == final(self).grid.tiles@,
            map.width == final(self).grid.width,
            map.height == final(self).grid.height,
            map.rooms@.len() <= MAX_ROOMS,
            old(self).grid.width > ROOM_MAX_SIZE && old(self).grid.height > ROOM_MAX_SIZE
                ==> map.rooms@.len() >= 1,
            all_disjoint(map.rooms@),
            forall|k: int|
                0 <= k < map.rooms@.len() ==> dug(
                    #[trigger] map.rooms@[k],
                    old(self).grid.width as int,
                    old(self).grid.height as int,
                ) && final(self).grid.hollow(map.rooms@[k]),
            forall|k: int|
                1 <= k < map.rooms@.len() ==> final(self).grid.tunnelled(
                    mid_of(map.rooms@[k - 1]),
                    mid_of(#[trigger] map.rooms@[k]),
                ),
    {
        let rooms = self.generate_rooms();
        let tiles = copy_tiles(&self.grid.tiles);
        GameMap::assemble(tiles, rooms, self.grid.width, self.grid.height)
    }
}

impl GridMap for RoomsCorridorsGenerator {
    open spec fn extents(&self) -> Point {
        Point { x: self.grid.width, y: self.grid.height }
    }

    fn dimensions(&self) -> (dims: Point) {
        Point::new(self.grid.width, self.grid.height)
    }
}

} // verus!
