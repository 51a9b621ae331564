//! The map that a generator hands to the game: the tiles, what the player
//! has seen of them, which cells are blocked or occupied, and the rooms.

use vstd::prelude::*;
use specs::Entity;
use crate::geometry::{Point, Rect};
use crate::grid::TileType;
use crate::map::GridMap;

verus! {

/// An entity of the `specs` world, carried as an opaque value.
#[verifier::external_type_specification]
#[verifier::external_body]
pub struct ExEntity(Entity);

/// A generated level.
pub struct GameMap {
    pub tiles: Vec<TileType>,
    pub revealed_tiles: Vec<bool>,
    pub visible_tiles: Vec<bool>,
    pub blocked_tiles: Vec<bool>,
    /// For every cell, the entities that stand on it.
    pub entities_tiles: Vec<Vec<Entity>>,
    pub rooms: Vec<Rect>,
    pub width: i32,
    pub height: i32,
}

/// Whether `pos` lies strictly inside the first row and column of a map
/// of the given extents: the cells that an entity may step on.
pub open spec fn steppable(width: int, height: int, pos: Point) -> bool {
    1 <= pos.x <= width - 1 && 1 <= pos.y <= height - 1
}

/// The glyph of a wall by the seen walls around it: one for the wall to
/// the north, two for the south, four for the west, eight for the east.
pub open spec fn glyph_of(mask: int) -> u16 {
    if mask == 0 {
        9
    } else if mask == 1 || mask == 2 || mask == 3 {
        186
    } else if mask == 4 || mask == 8 || mask == 12 {
        205
    } else if mask == 5 {
        188
    } else if mask == 6 {
        187
    } else if mask == 7 {
        185
    } else if mask == 9 {
        200
    } else if mask == 10 {
        201
    } else if mask == 11 {
        204
    } else if mask == 13 {
        202
    } else if mask == 14 {
        203
    } else if mask == 15 {
        206
    } else {
        35
    }
}

/// The eight steps in the order in which exits are listed: west, east,
/// north, south, then the diagonals north-west, north-east, south-west,
/// south-east.
pub open spec fn step_of(k: int) -> (int, int) {
    if k == 0 {
        (-1, 0)
    } else if k == 1 {
        (1, 0)
    } else if k == 2 {
        (0, -1)
    } else if k == 3 {
        (0, 1)
    } else if k == 4 {
        (-1, -1)
    } else if k == 5 {
        (1, -1)
    } else if k == 6 {
        (-1, 1)
    } else {
        (1, 1)
    }
}

impl GameMap {
    /// The cell at `(x, y)` is a wall that the player has seen.
    pub open spec fn seen_wall(&self, x: int, y: int) -> bool {
        self.tiles@[y * self.width + x] == TileType::Wall && self.revealed_tiles@[y * self.width
            + x]
    }

    /// The seen walls around `(x, y)` as a number.
    pub open spec fn wall_mask(&self, x: int, y: int) -> int {
        (if self.seen_wall(x, y - 1) {
            1int
        } else {
            0int
        }) + (if self.seen_wall(x, y + 1) {
            2int
        } else {
            0int
        }) + (if self.seen_wall(x - 1, y) {
            4int
        } else {
            0int
        }) + (if self.seen_wall(x + 1, y) {
            8int
        } else {
            0int
        })
    }

    /// The cell at `(x, y)` may be stepped on.
    pub open spec fn open_at(&self, x: int, y: int) -> bool {
        1 <= x <= self.width - 1 && 1 <= y <= self.height - 1 && !self.blocked_tiles@[y
            * self.width + x]
    }

    /// The exits from `(x, y)` among the first `upto` steps, each with its
    /// array position and whether the step is diagonal.
    pub open spec fn exits_upto(&self, x: int, y: int, upto: int) -> Seq<(usize, bool)>
        decreases upto,
    {
        if upto <= 0 {
            Seq::empty()
        } else {
            let (dx, dy) = step_of(upto - 1);
            let rest = self.exits_upto(x, y, upto - 1);
            if self.open_at(x + dx, y + dy) {
                rest.push((((y + dy) * self.width + (x + dx)) as usize, upto - 1 >= 4))
            } else {
                rest
            }
        }
    }

    /// Every per-cell list has one entry per cell.
    pub open spec fn wf(&self) -> bool {
        &&& 0 <= self.width
        &&& 0 <= self.height
        &&& self.width * self.height <= i32::MAX
        &&& self.tiles@.len() == self.width * self.height
        &&& self.revealed_tiles@.len() == self.tiles@.len()
        &&& self.visible_tiles@.len() == self.tiles@.len()
        &&& self.blocked_tiles@.len() == self.tiles@.len()
        &&& self.entities_tiles@.len() == self.tiles@.len()
    }

    /// Nothing has been seen, no cell is occupied, and exactly the walls
    /// are blocked.
    pub open spec fn untouched(&self) -> bool {
        &&& forall|i: int| 0 <= i < self.revealed_tiles@.len() ==> !self.revealed_tiles@[i]
        &&& forall|i: int| 0 <= i < self.visible_tiles@.len() ==> !self.visible_tiles@[i]
        &&& forall|i: int|
            0 <= i < self.blocked_tiles@.len() ==> self.blocked_tiles@[i] == (self.tiles@[i]
                == TileType::Wall)
        &&& forall|i: int|
            0 <= i < self.entities_tiles@.len() ==> (#[trigger] self.entities_tiles@[i])@.len()
                == 0
    }

    /// The position of a cell in the per-cell lists.
    pub open spec fn flat(&self, pos: Point) -> int {
        pos.y * self.width + pos.x
    }

    /// A fresh map over the given tiles and rooms: nothing seen, no cell
    /// occupied, the walls blocked.
    pub fn assemble(tiles: Vec<TileType>, rooms: Vec<Rect>, width: i32, height: i32) -> (map:
        GameMap)
        requires
            0 <= width,
            0 <= height,
            width * height <= i32::MAX,
            tiles@.len() == width * height,
        ensures
            map.wf(),
            map.untouched(),
            map.tiles@ == tiles@,
            map.rooms@ == rooms@,
            map.width == width,
            map.height == height,
    {
        let cells = tiles.len();
        let mut revealed_tiles: Vec<bool> = Vec::new();
        let mut visible_tiles: Vec<bool> = Vec::new();
        let mut blocked_tiles: Vec<bool> = Vec::new();
        let mut entities_tiles: Vec<Vec<Entity>> = Vec::new();
        let mut i: usize = 0;
        while i < cells
            invariant
                0 <= i <= cells,
                revealed_tiles@.len() == i,
                visible_tiles@.len() == i,
                blocked_tiles@.len() == i,
                entities_tiles@.len() == i,
                forall|k: int| 0 <= k < i ==> !revealed_tiles@[k],
                forall|k: int| 0 <= k < i ==> !visible_tiles@[k],
                cells == tiles@.len(),
                forall|k: int| 0 <= k < i ==> blocked_tiles@[k] == (tiles@[k] == TileType::Wall),
                forall|k: int| 0 <= k < i ==> (#[trigger] entities_tiles@[k])@.len() == 0,
            decreases cells - i,
        {
            revealed_tiles.push(false);
            visible_tiles.push(false);
            blocked_tiles.push(tiles[i] == TileType::Wall);
            entities_tiles.push(Vec::new());
            i = i + 1;
        }
        GameMap {
            tiles,
            revealed_tiles,
            visible_tiles,
            blocked_tiles,
            entities_tiles,
            rooms,
            width,
            height,
        }
    }

    /// Whether the tile at an array position blocks the view.
    pub fn is_opaque(&self, idx: usize) -> (opaque: bool)
        requires
            idx < self.tiles@.len(),
        ensures
            opaque == (self.tiles@[idx as int] == TileType::Wall),
    {
        self.tiles[idx] == TileType::Wall
    }

    /// Whether an entity may step onto `pos`: the cell is steppable and
    /// not blocked.
    pub fn is_exit_valid(&self, pos: Point) -> (valid: bool)
        requires
            self.wf(),
        ensures
            valid == (steppable(self.width as int, self.height as int, pos)
                && !self.blocked_tiles@[self.flat(pos)]),
    {
        if pos.x < 1 || pos.x > self.width - 1 || pos.y < 1 || pos.y > self.height - 1 {
            return false;
        }
        proof {
            let w = self.width as int;
            let h = self.height as int;
            let x = pos.x as int;
            let y = pos.y as int;
            assert(0 <= y * w + x < w * h) by (nonlinear_arith)
                requires
                    0 <= x < w,
                    0 <= y < h,
            ;
        }
        let idx = self.xy_idx(pos);
        !self.blocked_tiles[idx]
    }

    /// Empties the list of entities of every cell.
    pub fn clear_content_index(&mut self)
        ensures
            final(self).entities_tiles@.len() == old(self).entities_tiles@.len(),
            forall|i: int|
                0 <= i < final(self).entities_tiles@.len() ==> (
                #[trigger] final(self).entities_tiles@[i])@.len() == 0,
            final(self).tiles == old(self).tiles,
            final(self).revealed_tiles == old(self).revealed_tiles,
            final(self).visible_tiles == old(self).visible_tiles,
            final(self).blocked_tiles == old(self).blocked_tiles,
            final(self).rooms == old(self).rooms,
            final(self).width == old(self).width,
            final(self).height == old(self).height,
    {
        let cells = self.entities_tiles.len();
        let mut i: usize = 0;
        while i < cells
            invariant
                0 <= i <= cells,
                self.entities_tiles@.len() == cells,
                forall|k: int| 0 <= k < i ==> (#[trigger] self.entities_tiles@[k])@.len() == 0,
                self.tiles == old(self).tiles,
                self.revealed_tiles == old(self).revealed_tiles,
                self.visible_tiles == old(self).visible_tiles,
                self.blocked_tiles == old(self).blocked_tiles,
                self.rooms == old(self).rooms,
                self.width == old(self).width,
                self.height == old(self).height,
            decreases cells - i,
        {
            self.entities_tiles.set(i, Vec::new());
            i = i + 1;
        }
    }

    /// Marks as blocked exactly the cells that hold a wall.
    pub fn populate_blocked(&mut self)
        requires
            old(self).blocked_tiles@.len() == old(self).tiles@.len(),
        ensures
            final(self).blocked_tiles@.len() == old(self).blocked_tiles@.len(),
            forall|i: int|
                0 <= i < final(self).blocked_tiles@.len() ==> final(self).blocked_tiles@[i] == (
                old(self).tiles@[i] == TileType::Wall),
            final(self).tiles == old(self).tiles,
            final(self).revealed_tiles == old(self).revealed_tiles,
            final(self).visible_tiles == old(self).visible_tiles,
            final(self).entities_tiles == old(self).entities_tiles,
            final(self).rooms == old(self).rooms,
            final(self).width == old(self).width,
            final(self).height == old(self).height,
    {
        let cells = self.tiles.len();
        let mut i: usize = 0;
        while i < cells
            invariant
                0 <= i <= cells,
                cells == self.tiles@.len(),
                self.blocked_tiles@.len() == cells,
                forall|k: int|
                    0 <= k < i ==> self.blocked_tiles@[k] == (self.tiles@[k] == TileType::Wall),
                self.tiles == old(self).tiles,
                self.revealed_tiles == old(self).revealed_tiles,
                self.visible_tiles == old(self).visible_tiles,
                self.entities_tiles == old(self).entities_tiles,
                self.rooms == old(self).rooms,
                self.width == old(self).width,
                self.height == old(self).height,
            decreases cells - i,
        {
            let wall = self.tiles[i] == TileType::Wall;
            self.blocked_tiles.set(i, wall);
            i = i + 1;
        }
    }

    /// Moves what blocks the cell at `from` to the cell at `to`, unless that
    /// cell is blocked: `from` is freed and `to` is blocked. Says whether
    /// the move was made.
    pub fn move_blocker(&mut self, from: Point, to: Point) -> (moved: bool)
        requires
            old(self).wf(),
            0 <= from.x < old(self).width && 0 <= from.y < old(self).height,
            0 <= to.x < old(self).width && 0 <= to.y < old(self).height,
        ensures
            moved == !old(self).blocked_tiles@[old(self).flat(to)],
            final(self).blocked_tiles@ == if moved {
                old(self).blocked_tiles@.update(old(self).flat(from), false).update(
                    old(self).flat(to),
                    true,
                )
            } else {
                old(self).blocked_tiles@
            },
            final(self).tiles == old(self).tiles,
            final(self).revealed_tiles == old(self).revealed_tiles,
            final(self).visible_tiles == old(self).visible_tiles,
            final(self).entities_tiles == old(self).entities_tiles,
            final(self).rooms == old(self).rooms,
            final(self).width == old(self).width,
            final(self).height == old(self).height,
    {
        proof {
            let w = self.width as int;
            let h = self.height as int;
            assert(0 <= from.y * w + from.x < w * h) by (nonlinear_arith)
                requires
                    0 <= from.x < w,
                    0 <= from.y < h,
            ;
            assert(0 <= to.y * w + to.x < w * h) by (nonlinear_arith)
                requires
                    0 <= to.x < w,
                    0 <= to.y < h,
            ;
        }
        let target_idx = self.xy_idx(to);
        if !self.blocked_tiles[target_idx] {
            let pos_idx = self.xy_idx(from);
            self.blocked_tiles.set(pos_idx, false);
            self.blocked_tiles.set(target_idx, true);
            true
        } else {
            false
        }
    }

    /// Whether the cell at `pos` is a wall that the player has seen.
    pub fn is_revealed_and_wall(&self, pos: Point) -> (seen: bool)
        requires
            self.wf(),
            0 <= pos.x < self.width,
            0 <= pos.y < self.height,
        ensures
            seen == (self.tiles@[self.flat(pos)] == TileType::Wall
                && self.revealed_tiles@[self.flat(pos)]),
    {
        proof {
            let w = self.width as int;
            let h = self.height as int;
            let x = pos.x as int;
            let y = pos.y as int;
            assert(0 <= y * w + x < w * h) by (nonlinear_arith)
                requires
                    0 <= x < w,
                    0 <= y < h,
            ;
        }
        let idx = self.xy_idx(pos);
        self.tiles[idx] == TileType::Wall && self.revealed_tiles[idx]
    }
}

/// The glyph for the wall at `pos`: a plain wall on the map's outer two
/// rings, else a box-drawing glyph chosen by the seen walls to the north,
/// south, west and east.
pub fn wall_glyph(map: &GameMap, pos: Point) -> (glyph: u16)
    requires
        map.wf(),
    ensures
        glyph == if pos.x < 1 || pos.x > map.width - 2 || pos.y < 1 || pos.y > map.height - 2 {
            35u16
        } else {
            glyph_of(map.wall_mask(pos.x as int, pos.y as int))
        },
{
    if pos.x < 1 || pos.x > map.width - 2 || pos.y < 1 || pos.y > map.height - 2 {
        return 35;
    }
    let mut mask: u8 = 0;
    if map.is_revealed_and_wall(Point { x: pos.x, y: pos.y - 1 }) {
        mask += 1;
    }
    if map.is_revealed_and_wall(Point { x: pos.x, y: pos.y + 1 }) {
        mask += 2;
    }
    if map.is_revealed_and_wall(Point { x: pos.x - 1, y: pos.y }) {
        mask += 4;
    }
    if map.is_revealed_and_wall(Point { x: pos.x + 1, y: pos.y }) {
        mask += 8;
    }
    match mask {
        0 => 9,
        1 => 186,
        2 => 186,
        3 => 186,
        4 => 205,
        5 => 188,
        6 => 187,
        7 => 185,
        8 => 205,
        9 => 200,
        10 => 201,
        11 => 204,
        12 => 205,
        13 => 202,
        14 => 203,
        15 => 206,
        _ => 35,
    }
}

/// The cells that can be stepped to from the cell at array position `idx`,
/// in the order of `step_of`, each with whether the step is diagonal.
pub fn available_exits(map: &GameMap, idx: usize) -> (exits: Vec<(usize, bool)>)
    requires
        map.wf(),
        idx < map.tiles@.len(),
    ensures
        exits@ == map.exits_upto(
            idx as int % map.width as int,
            idx as int / map.width as int,
            8,
        ),
{
    proof {
        let w = map.width as int;
        let h = map.height as int;
        assert(0 < w) by (nonlinear_arith)
            requires
                0 <= idx < w * h,
                0 <= w,
                0 <= h,
        ;
    }
    let x = (idx as i32) % map.width;
    let y = (idx as i32) / map.width;
    let ghost gx = idx as int % map.width as int;
    let ghost gy = idx as int / map.width as int;
    proof {
        crate::map::lemma_cell_round_trip(map.width as int, idx as int);
        let w = map.width as int;
        let h = map.height as int;
        assert(gy < h) by (nonlinear_arith)
            requires
                gy * w + gx < w * h,
                0 <= gx < w,
                0 < w,
        ;
        assert(0 <= gy) by (nonlinear_arith)
            requires
                0 <= idx,
                0 < w,
                gy == idx as int / w,
        ;
    }
    let mut exits: Vec<(usize, bool)> = Vec::new();
    let steps: [(i32, i32); 8] = [
        (-1, 0),
        (1, 0),
        (0, -1),
        (0, 1),
        (-1, -1),
        (1, -1),
        (-1, 1),
        (1, 1),
    ];
    let mut k: usize = 0;
    while k < 8
        invariant
            map.wf(),
            0 <= k <= 8,
            x == gx,
            y == gy,
            0 <= gx < map.width,
            0 <= gy < map.height,
            forall|c: int|
                0 <= c < 8 ==> (#[trigger] steps@[c]).0 == step_of(c).0 && steps@[c].1 == step_of(
                    c,
                ).1,
            exits@ == map.exits_upto(gx, gy, k as int),
        decreases 8 - k,
    {
        let (dx, dy) = steps[k];
        let target = Point { x: x + dx, y: y + dy };
        if map.is_exit_valid(target) {
            proof {
                let w = map.width as int;
                let h = map.height as int;
                let tx = target.x as int;
                let ty = target.y as int;
                assert(0 <= ty * w + tx < w * h) by (nonlinear_arith)
                    requires
                        0 <= tx < w,
                        0 <= ty < h,
                ;
            }
            let at = map.xy_idx(target);
            exits.push((at, k >= 4));
        }
        k = k + 1;
    }
    exits
}

impl GridMap for GameMap {
    open spec fn extents(&self) -> Point {
        Point { x: self.width, y: self.height }
    }

    fn dimensions(&self) -> (dims: Point) {
        Point::new(self.width, self.height)
    }
}

impl Default for GameMap {
    /// The map without cells.
    fn default() -> (map: GameMap)
        ensures
            map.wf(),
            map.width == 0,
            map.height == 0,
            map.rooms@.len() == 0,
    {
        GameMap {
            tiles: Vec::new(),
            revealed_tiles: Vec::new(),
            visible_tiles: Vec::new(),
            blocked_tiles: Vec::new(),
            entities_tiles: Vec::new(),
            rooms: Vec::new(),
            width: 0,
            height: 0,
        }
    }
}

} // verus!
