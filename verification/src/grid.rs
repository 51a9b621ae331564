//! The tile grid: a row-major array of tile states addressed by
//! `y * width + x`, with wall stamping and the guarded opening of walls.

use vstd::prelude::*;
use crate::geometry::{greater, lesser, max_of, min_of, Point, Rect};

verus! {

/// The state of one cell.
#[derive(Clone, Copy, PartialEq, Eq, Structural, Debug)]
pub enum TileType {
    Wall,
    Floor,
    Door,
    Window,
}

/// The tile is a door or a window.
pub open spec fn opening(tile: TileType) -> bool {
    tile == TileType::Door || tile == TileType::Window
}

/// A `width` by `height` grid of tiles stored row by row.
pub struct TileGrid {
    pub tiles: Vec<TileType>,
    pub width: i32,
    pub height: i32,
}

/// The cells `(x, y)` with `x` running over the closed span between `x1`
/// and `x2`, in ascending order, whichever of the two is larger.
pub open spec fn row_cells(x1: int, x2: int, y: int) -> Seq<Point> {
    Seq::new(
        (greater(x1, x2) - lesser(x1, x2) + 1) as nat,
        |k: int| Point { x: (lesser(x1, x2) + k) as i32, y: y as i32 },
    )
}

/// The cells `(x, y)` with `y` running over the closed span between `y1`
/// and `y2`, in ascending order, whichever of the two is larger.
pub open spec fn column_cells(y1: int, y2: int, x: int) -> Seq<Point> {
    Seq::new(
        (greater(y1, y2) - lesser(y1, y2) + 1) as nat,
        |k: int| Point { x: x as i32, y: (lesser(y1, y2) + k) as i32 },
    )
}

/// The cells of row `y` from `x1` to `x2`, ends included.
pub fn horizontal_line(x1: i32, x2: i32, y: i32) -> (line: Vec<Point>)
    ensures
        line@ == row_cells(x1 as int, x2 as int, y as int),
{
    let lo: i32 = min_of(x1, x2);
    let hi: i32 = max_of(x1, x2);
    let mut line: Vec<Point> = Vec::new();
    let mut x: i32 = lo;
    line.push(Point { x, y });
    while x < hi
        invariant
            lo <= x <= hi,
            lo == lesser(x1 as int, x2 as int),
            hi == greater(x1 as int, x2 as int),
            line@.len() == x - lo + 1,
            forall|k: int| 0 <= k < line@.len() ==> line@[k] == (Point { x: (lo + k) as i32, y }),
        decreases hi - x,
    {
        x = x + 1;
        line.push(Point { x, y });
    }
    assert(line@ =~= row_cells(x1 as int, x2 as int, y as int));
    line
}

/// The cells of column `x` from `y1` to `y2`, ends included.
pub fn vertical_line(y1: i32, y2: i32, x: i32) -> (line: Vec<Point>)
    ensures
        line@ == column_cells(y1 as int, y2 as int, x as int),
{
    let lo: i32 = min_of(y1, y2);
    let hi: i32 = max_of(y1, y2);
    let mut line: Vec<Point> = Vec::new();
    let mut y: i32 = lo;
    line.push(Point { x, y });
    while y < hi
        invariant
            lo <= y <= hi,
            lo == lesser(y1 as int, y2 as int),
            hi == greater(y1 as int, y2 as int),
            line@.len() == y - lo + 1,
            forall|k: int| 0 <= k < line@.len() ==> line@[k] == (Point { x, y: (lo + k) as i32 }),
        decreases hi - y,
    {
        y = y + 1;
        line.push(Point { x, y });
    }
    assert(line@ =~= column_cells(y1 as int, y2 as int, x as int));
    line
}

impl TileGrid {
    /// The tile array has exactly one entry per cell.
    pub open spec fn wf(&self) -> bool {
        &&& 0 <= self.width
        &&& 0 <= self.height
        &&& self.tiles@.len() == self.width * self.height
    }

    /// The position of a cell in the tile array.
    pub open spec fn flat(&self, p: Point) -> int {
        p.y * self.width + p.x
    }

    pub open spec fn in_bounds(&self, p: Point) -> bool {
        0 <= p.x < self.width && 0 <= p.y < self.height
    }

    /// A stamp at `p` lands in the array.
    pub open spec fn stampable(&self, p: Point) -> bool {
        0 <= self.flat(p) < self.tiles@.len()
    }

    /// The tile at a cell.
    pub open spec fn at(&self, p: Point) -> TileType {
        self.tiles@[self.flat(p)]
    }

    /// The cell at `p` can be stamped and holds `tile`.
    pub open spec fn shows(&self, p: Point, tile: TileType) -> bool {
        self.stampable(p) && self.at(p) == tile
    }

    /// This grid is `before` with some walls turned into `opening`, and
    /// nothing else changed.
    pub open spec fn opened_from(&self, before: &TileGrid, opening: TileType) -> bool {
        &&& self.same_shape(before)
        &&& forall|i: int|
            0 <= i < self.tiles@.len() ==> #[trigger] self.tiles@[i] == before.tiles@[i] || (
            before.tiles@[i] == TileType::Wall && self.tiles@[i] == opening)
    }

    /// This grid is `before` with some walls turned into doors or windows,
    /// and nothing else changed.
    pub open spec fn pierced_from(&self, before: &TileGrid) -> bool {
        &&& self.same_shape(before)
        &&& forall|i: int|
            0 <= i < self.tiles@.len() ==> #[trigger] self.tiles@[i] == before.tiles@[i] || (
            before.tiles@[i] == TileType::Wall && (self.tiles@[i] == TileType::Door
                || self.tiles@[i] == TileType::Window))
    }

    /// Every cell of `wall` can be stamped and is a wall tile.
    pub open spec fn wall_intact(&self, wall: Seq<Point>) -> bool {
        forall|m: int| 0 <= m < wall.len() ==> self.shows(#[trigger] wall[m], TileType::Wall)
    }

    /// No door and no window of `before` has become anything else.
    pub open spec fn keeps_openings(&self, before: &TileGrid) -> bool {
        &&& self.same_shape(before)
        &&& forall|i: int|
            0 <= i < self.tiles@.len() && (before.tiles@[i] == TileType::Door || before.tiles@[i]
                == TileType::Window) ==> #[trigger] self.tiles@[i] == before.tiles@[i]
    }

    /// Every cell is floor.
    pub open spec fn blank(&self) -> bool {
        forall|i: int| 0 <= i < self.tiles@.len() ==> self.tiles@[i] == TileType::Floor
    }

    /// Every cell that `r` covers, walls included, can be stamped.
    pub open spec fn fits(&self, r: Rect) -> bool {
        &&& self.wf()
        &&& 1 <= r.x1 && r.x2 < self.width
        &&& 1 <= r.y1 && r.y2 < self.height
    }

    /// `r` lies on the grid with a cell or more between it and the
    /// grid's edge on every side.
    pub open spec fn inset(&self, r: Rect) -> bool {
        &&& self.wf()
        &&& 1 <= r.x1 && r.x2 <= self.width - 2
        &&& 1 <= r.y1 && r.y2 <= self.height - 2
    }

    /// All four walls of `r` are wall tiles.
    pub open spec fn walled(&self, r: Rect) -> bool {
        forall|x: int, y: int| #[trigger]
            r.on_border(x, y) ==> self.shows(Point { x: x as i32, y: y as i32 }, TileType::Wall)
    }

    /// Every cell on a wall of `r` is a wall, a door or a window.
    pub open spec fn bordered(&self, r: Rect) -> bool {
        forall|x: int, y: int| #[trigger]
            r.on_border(x, y) ==> self.shows(Point { x: x as i32, y: y as i32 }, TileType::Wall)
                || self.shows(Point { x: x as i32, y: y as i32 }, TileType::Door) || self.shows(
                Point { x: x as i32, y: y as i32 },
                TileType::Window,
            )
    }

    /// Array position `i` belongs to a cell that `r` covers.
    pub open spec fn within(&self, r: Rect, i: int) -> bool {
        exists|x: int, y: int| #[trigger] r.covers(x, y) && y * self.width + x == i
    }

    /// Array position `i` belongs to a cell on a wall of `r`.
    pub open spec fn on_outline(&self, r: Rect, i: int) -> bool {
        exists|x: int, y: int| #[trigger] r.on_border(x, y) && y * self.width + x == i
    }

    /// This grid differs from `before` only at cells that `r` covers.
    pub open spec fn changed_within(&self, before: &TileGrid, r: Rect) -> bool {
        &&& self.same_shape(before)
        &&& forall|i: int|
            0 <= i < self.tiles@.len() && #[trigger] self.tiles@[i] != before.tiles@[i]
                ==> before.within(r, i)
    }

    /// This grid is `before` with some tiles turned into walls.
    pub open spec fn walled_from(&self, before: &TileGrid) -> bool {
        &&& self.same_shape(before)
        &&& forall|i: int|
            0 <= i < self.tiles@.len() ==> #[trigger] self.tiles@[i] == before.tiles@[i]
                || self.tiles@[i] == TileType::Wall
    }

    /// No cell that `r` covers holds a door or a window.
    pub open spec fn unopened(&self, r: Rect) -> bool {
        forall|i: int|
            0 <= i < self.tiles@.len() && self.within(r, i) ==> (#[trigger] self.tiles@[i])
                != TileType::Door && self.tiles@[i] != TileType::Window
    }

    pub open spec fn same_shape(&self, other: &TileGrid) -> bool {
        &&& self.width == other.width
        &&& self.height == other.height
        &&& self.tiles@.len() == other.tiles@.len()
    }

    /// Some cell of `cells` sits at array position `i`.
    pub open spec fn hits(&self, cells: Seq<Point>, i: int) -> bool {
        exists|k: int| 0 <= k < cells.len() && #[trigger] self.flat(cells[k]) == i
    }

    /// The tile array after every stampable cell of `cells` is set to `tile`.
    pub open spec fn stamped(&self, cells: Seq<Point>, tile: TileType) -> Seq<TileType> {
        Seq::new(
            self.tiles@.len(),
            |i: int|
                if self.hits(cells, i) {
                    tile
                } else {
                    self.tiles@[i]
                },
        )
    }

    /// The tile array after every stampable cell of `cells` that holds no
    /// opening is set to wall. Doors and windows stay.
    pub open spec fn walled_over(&self, cells: Seq<Point>) -> Seq<TileType> {
        Seq::new(
            self.tiles@.len(),
            |i: int|
                if self.hits(cells, i) && !opening(self.tiles@[i]) {
                    TileType::Wall
                } else {
                    self.tiles@[i]
                },
        )
    }

    /// No cell holds a door or a window.
    pub open spec fn pristine(&self) -> bool {
        forall|i: int| 0 <= i < self.tiles@.len() ==> !opening(#[trigger] self.tiles@[i])
    }

    /// The tile array after the guarded stamp at `p`: a wall there becomes
    /// `opening`; anything else, and anything out of range, stays.
    pub open spec fn opened(&self, p: Point, opening: TileType) -> Seq<TileType> {
        if self.stampable(p) && self.at(p) == TileType::Wall {
            self.tiles@.update(self.flat(p), opening)
        } else {
            self.tiles@
        }
    }

    /// A grid of the given extents with every cell set to `fill`.
    pub fn new(width: i32, height: i32, fill: TileType) -> (grid: TileGrid)
        requires
            0 <= width,
            0 <= height,
            width * height <= i32::MAX,
        ensures
            grid.wf(),
            grid.width == width,
            grid.height == height,
            forall|i: int| 0 <= i < grid.tiles@.len() ==> grid.tiles@[i] == fill,
    {
        assert(0 <= width * height) by (nonlinear_arith)
            requires
                0 <= width,
                0 <= height,
        ;
        let cells: i32 = width * height;
        let mut tiles: Vec<TileType> = Vec::new();
        let mut i: i32 = 0;
        while i < cells
            invariant
                0 <= i <= cells,
                tiles@.len() == i,
                forall|k: int| 0 <= k < tiles@.len() ==> tiles@[k] == fill,
            decreases cells - i,
        {
            tiles.push(fill);
            i = i + 1;
        }
        TileGrid { tiles, width, height }
    }

    /// The array position of `p`, when a stamp there would land.
    pub fn stamp_index(&self, p: Point) -> (idx: Option<usize>)
        ensures
            idx.is_some() == self.stampable(p),
            idx matches Some(i) ==> i == self.flat(p),
    {
        assert(-0x4000_0000_0000_0000 <= p.y * self.width <= 0x4000_0000_0000_0000)
            by (nonlinear_arith)
            requires
                -0x8000_0000 <= p.y <= 0x7fff_ffff,
                -0x8000_0000 <= self.width <= 0x7fff_ffff,
        ;
        let row: i64 = (p.y as i64) * (self.width as i64);
        let flat: i64 = row + (p.x as i64);
        if flat >= 0 && (flat as u64) < (self.tiles.len() as u64) {
            Some(flat as usize)
        } else {
            None
        }
    }

    /// Sets the tile at `p` when `p` is stampable, and does nothing otherwise.
    pub fn place_point(&mut self, p: Point, tile: TileType)
        ensures
            final(self).same_shape(old(self)),
            final(self).tiles@ == if old(self).stampable(p) {
                old(self).tiles@.update(old(self).flat(p), tile)
            } else {
                old(self).tiles@
            },
    {
        match self.stamp_index(p) {
            Some(idx) => {
                self.tiles.set(idx, tile);
            },
            None => {},
        }
    }

    /// Sets every stampable cell of `cells` to `tile`.
    pub fn place_points(&mut self, cells: &Vec<Point>, tile: TileType)
        ensures
            final(self).same_shape(old(self)),
            final(self).tiles@ == old(self).stamped(cells@, tile),
    {
        let mut k: usize = 0;
        while k < cells.len()
            invariant
                0 <= k <= cells@.len(),
                self.same_shape(old(self)),
                self.tiles@ == old(self).stamped(cells@.take(k as int), tile),
            decreases cells@.len() - k,
        {
            let p = cells[k];
            let ghost before = self.tiles@;
            self.place_point(p, tile);
            proof {
                let done = cells@.take(k as int);
                let next = cells@.take(k as int + 1);
                assert(next =~= done.push(p));
                assert forall|i: int| 0 <= i < self.tiles@.len() implies self.tiles@[i] == old(
                    self,
                ).stamped(next, tile)[i] by {
                    if old(self).hits(done, i) {
                        let w = choose|w: int|
                            0 <= w < done.len() && #[trigger] old(self).flat(done[w]) == i;
                        assert(old(self).flat(next[w]) == i);
                    }
                    if old(self).flat(p) == i {
                        assert(old(self).flat(next[k as int]) == i);
                    }
                    if old(self).hits(next, i) {
                        let w = choose|w: int|
                            0 <= w < next.len() && #[trigger] old(self).flat(next[w]) == i;
                        if w < k {
                            assert(old(self).flat(done[w]) == i);
                        }
                    }
                }
                assert(self.tiles@ =~= old(self).stamped(next, tile));
            }
            k = k + 1;
        }
        proof {
            assert(cells@.take(k as int) =~= cells@);
        }
    }

    /// Raises a wall at `p` unless the cell holds a door or a window, or
    /// lies outside the array.
    pub fn wall_point(&mut self, p: Point)
        ensures
            final(self).same_shape(old(self)),
            final(self).tiles@ == if old(self).stampable(p) && !opening(old(self).at(p)) {
                old(self).tiles@.update(old(self).flat(p), TileType::Wall)
            } else {
                old(self).tiles@
            },
    {
        match self.stamp_index(p) {
            Some(idx) => {
                let tile = self.tiles[idx];
                if tile != TileType::Door && tile != TileType::Window {
                    self.tiles.set(idx, TileType::Wall);
                }
            },
            None => {},
        }
    }

    /// Raises a wall at every cell of `cells` that holds no opening.
    pub fn wall_points(&mut self, cells: &Vec<Point>)
        ensures
            final(self).same_shape(old(self)),
            final(self).tiles@ == old(self).walled_over(cells@),
            final(self).keeps_openings(old(self)),
            final(self).walled_from(old(self)),
    {
        let mut k: usize = 0;
        while k < cells.len()
            invariant
                0 <= k <= cells@.len(),
                self.same_shape(old(self)),
                self.tiles@ == old(self).walled_over(cells@.take(k as int)),
            decreases cells@.len() - k,
        {
            let p = cells[k];
            self.wall_point(p);
            proof {
                let done = cells@.take(k as int);
                let next = cells@.take(k as int + 1);
                assert(next =~= done.push(p));
                assert forall|i: int| 0 <= i < self.tiles@.len() implies self.tiles@[i] == old(
                    self,
                ).walled_over(next)[i] by {
                    if old(self).hits(done, i) {
                        let w = choose|w: int|
                            0 <= w < done.len() && #[trigger] old(self).flat(done[w]) == i;
                        assert(old(self).flat(next[w]) == i);
                    }
                    if old(self).flat(p) == i {
                        assert(old(self).flat(next[k as int]) == i);
                    }
                    if old(self).hits(next, i) {
                        let w = choose|w: int|
                            0 <= w < next.len() && #[trigger] old(self).flat(next[w]) == i;
                        if w < k {
                            assert(old(self).flat(done[w]) == i);
                        }
                    }
                }
                assert(self.tiles@ =~= old(self).walled_over(next));
            }
            k = k + 1;
        }
        proof {
            assert(cells@.take(k as int) =~= cells@);
        }
    }

    /// Raises a wall along the row segment from `(x1, y)` to `(x2, y)`,
    /// where no opening is.
    pub fn wall_horizontal_line(&mut self, x1: i32, x2: i32, y: i32)
        ensures
            final(self).same_shape(old(self)),
            final(self).tiles@ == old(self).walled_over(row_cells(x1 as int, x2 as int, y as int)),
            final(self).keeps_openings(old(self)),
            final(self).walled_from(old(self)),
    {
        let line = horizontal_line(x1, x2, y);
        self.wall_points(&line);
    }

    /// Raises a wall along the column segment from `(x, y1)` to `(x, y2)`,
    /// where no opening is.
    pub fn wall_vertical_line(&mut self, y1: i32, y2: i32, x: i32)
        ensures
            final(self).same_shape(old(self)),
            final(self).tiles@ == old(self).walled_over(
                column_cells(y1 as int, y2 as int, x as int),
            ),
            final(self).keeps_openings(old(self)),
            final(self).walled_from(old(self)),
    {
        let line = vertical_line(y1, y2, x);
        self.wall_points(&line);
    }

    /// Stamps the row segment from `(x1, y)` to `(x2, y)`.
    pub fn place_horizontal_line(&mut self, x1: i32, x2: i32, y: i32, tile: TileType)
        ensures
            final(self).same_shape(old(self)),
            final(self).tiles@ == old(self).stamped(
                row_cells(x1 as int, x2 as int, y as int),
                tile,
            ),
    {
        let line = horizontal_line(x1, x2, y);
        self.place_points(&line, tile);
    }

    /// Stamps the column segment from `(x, y1)` to `(x, y2)`.
    pub fn place_vertical_line(&mut self, y1: i32, y2: i32, x: i32, tile: TileType)
        ensures
            final(self).same_shape(old(self)),
            final(self).tiles@ == old(self).stamped(
                column_cells(y1 as int, y2 as int, x as int),
                tile,
            ),
    {
        let line = vertical_line(y1, y2, x);
        self.place_points(&line, tile);
    }

    /// The guarded stamp: turns the wall at `p` into `opening` and leaves
    /// every other tile, and every other kind of tile at `p`, as it is.
    /// Returns whether a wall was opened.
    pub fn open_wall(&mut self, p: Point, opening: TileType) -> (did: bool)
        ensures
            final(self).same_shape(old(self)),
            final(self).tiles@ == old(self).opened(p, opening),
            did == old(self).shows(p, TileType::Wall),
            final(self).keeps_openings(old(self)),
    {
        match self.stamp_index(p) {
            Some(idx) => {
                if self.tiles[idx] == TileType::Wall {
                    self.tiles.set(idx, opening);
                    true
                } else {
                    false
                }
            },
            None => false,
        }
    }

    /// Whether every cell of `wall` is still a wall tile.
    pub fn is_wall_intact(&self, wall: &Vec<Point>) -> (intact: bool)
        ensures
            intact == self.wall_intact(wall@),
    {
        let mut m: usize = 0;
        while m < wall.len()
            invariant
                0 <= m <= wall@.len(),
                forall|c: int| 0 <= c < m ==> self.shows(#[trigger] wall@[c], TileType::Wall),
            decreases wall@.len() - m,
        {
            if !self.holds(wall[m], TileType::Wall) {
                return false;
            }
            m = m + 1;
        }
        true
    }

    /// Whether the cell at `p` is stampable and holds `tile`.
    pub fn holds(&self, p: Point, tile: TileType) -> (b: bool)
        ensures
            b == self.shows(p, tile),
    {
        match self.stamp_index(p) {
            Some(idx) => self.tiles[idx] == tile,
            None => false,
        }
    }
}

/// The number of positions below `upto` at which the two arrays differ.
pub open spec fn differing(a: Seq<TileType>, b: Seq<TileType>, upto: int) -> nat
    decreases upto,
{
    if upto <= 0 {
        0
    } else {
        differing(a, b, upto - 1) + if a[upto - 1] != b[upto - 1] {
            1nat
        } else {
            0nat
        }
    }
}

/// Changing one position changes the count of differences by at most one.
pub proof fn lemma_differing_update(
    a: Seq<TileType>,
    b: Seq<TileType>,
    at: int,
    tile: TileType,
    upto: int,
)
    requires
        0 <= at < b.len(),
        0 <= upto <= b.len(),
    ensures
        differing(a, b.update(at, tile), upto) <= differing(a, b, upto) + 1,
        upto <= at ==> differing(a, b.update(at, tile), upto) == differing(a, b, upto),
    decreases upto,
{
    if upto > 0 {
        lemma_differing_update(a, b, at, tile, upto - 1);
    }
}

/// Changing a position at which the two arrays agreed raises the count of
/// differences by one.
pub proof fn lemma_differing_gain(
    a: Seq<TileType>,
    b: Seq<TileType>,
    at: int,
    tile: TileType,
    upto: int,
)
    requires
        0 <= at < upto <= b.len(),
        a[at] == b[at],
        tile != a[at],
    ensures
        differing(a, b.update(at, tile), upto) == differing(a, b, upto) + 1,
    decreases upto,
{
    if upto - 1 == at {
        lemma_differing_update(a, b, at, tile, upto - 1);
    } else {
        lemma_differing_gain(a, b, at, tile, upto - 1);
    }
}

/// Between a first and a last array there are no more differences than
/// between the first and a middle one and between that and the last.
pub proof fn lemma_differing_chain(
    a: Seq<TileType>,
    b: Seq<TileType>,
    c: Seq<TileType>,
    upto: int,
)
    ensures
        differing(a, c, upto) <= differing(a, b, upto) + differing(b, c, upto),
    decreases upto,
{
    if upto > 0 {
        lemma_differing_chain(a, b, c, upto - 1);
    }
}

/// The number of positions below `upto` that hold `tile` in `after` and
/// did not in `before`.
pub open spec fn turned(
    before: Seq<TileType>,
    after: Seq<TileType>,
    tile: TileType,
    upto: int,
) -> nat
    decreases upto,
{
    if upto <= 0 {
        0
    } else {
        turned(before, after, tile, upto - 1) + if after[upto - 1] == tile && before[upto - 1]
            != tile {
            1nat
        } else {
            0nat
        }
    }
}

/// If every position that newly holds `tile` at the end is one at which
/// the end differs from the middle, no more positions newly hold `tile`
/// than the end differs from the middle at.
pub proof fn lemma_turned_bound(
    first: Seq<TileType>,
    mid: Seq<TileType>,
    last: Seq<TileType>,
    tile: TileType,
    upto: int,
)
    requires
        forall|i: int|
            0 <= i < upto && #[trigger] last[i] == tile && first[i] != tile ==> last[i] != mid[i],
    ensures
        turned(first, last, tile, upto) <= differing(mid, last, upto),
    decreases upto,
{
    if upto > 0 {
        lemma_turned_bound(first, mid, last, tile, upto - 1);
    }
}

/// An array does not differ from itself.
pub proof fn lemma_differing_none(a: Seq<TileType>, upto: int)
    ensures
        differing(a, a, upto) == 0,
    decreases upto,
{
    if upto > 0 {
        lemma_differing_none(a, upto - 1);
    }
}

/// The guarded stamp never closes an opening: a door stays a door and a
/// window stays a window, whatever is stamped and wherever.
pub proof fn lemma_open_wall_keeps_openings(
    before: &TileGrid,
    after: &TileGrid,
    p: Point,
    opening: TileType,
)
    requires
        after.same_shape(before),
        after.tiles@ == before.opened(p, opening),
    ensures
        after.keeps_openings(before),
{
}

/// The guarded stamp on a cell that is not a wall is a no-op: on a door,
/// on a window and on floor alike.
pub proof fn lemma_open_wall_guarded(grid: &TileGrid, p: Point, opening: TileType)
    requires
        !grid.shows(p, TileType::Wall),
    ensures
        grid.opened(p, opening) == grid.tiles@,
{
}

/// The guarded stamp is idempotent: once a cell has been opened, the same
/// stamp again, or any other in its place, changes nothing.
pub proof fn lemma_open_wall_idempotent(
    before: &TileGrid,
    after: &TileGrid,
    p: Point,
    first: TileType,
    second: TileType,
)
    requires
        first != TileType::Wall,
        after.same_shape(before),
        after.tiles@ == before.opened(p, first),
        before.shows(p, TileType::Wall),
    ensures
        after.shows(p, first),
        after.opened(p, second) == after.tiles@,
{
}

/// Where walls were only ever turned into doors and windows, no opening
/// was closed.
pub proof fn lemma_pierced_keeps_openings(before: &TileGrid, after: &TileGrid)
    requires
        after.pierced_from(before),
    ensures
        after.keeps_openings(before),
{
}

/// Raising walls over one list of cells and then another is raising
/// them over the two lists joined.
pub proof fn lemma_walled_over_twice(
    first: &TileGrid,
    mid: &TileGrid,
    one: Seq<Point>,
    two: Seq<Point>,
)
    requires
        mid.same_shape(first),
        mid.tiles@ == first.walled_over(one),
    ensures
        mid.walled_over(two) == first.walled_over(one + two),
{
    let both = one + two;
    assert forall|i: int| 0 <= i < first.tiles@.len() implies mid.walled_over(two)[i]
        == first.walled_over(both)[i] by {
        if first.hits(one, i) {
            let k = choose|k: int| 0 <= k < one.len() && #[trigger] first.flat(one[k]) == i;
            assert(first.flat(both[k]) == i);
        }
        if mid.hits(two, i) {
            let k = choose|k: int| 0 <= k < two.len() && #[trigger] mid.flat(two[k]) == i;
            assert(first.flat(both[one.len() + k]) == i);
        }
        if first.hits(both, i) {
            let k = choose|k: int| 0 <= k < both.len() && #[trigger] first.flat(both[k]) == i;
            if k < one.len() {
                assert(first.flat(one[k]) == i);
            } else {
                assert(mid.flat(two[k - one.len()]) == i);
            }
        }
    }
    assert(mid.walled_over(two) =~= first.walled_over(both));
}

/// Keeping openings carries over two steps.
pub proof fn lemma_keeps_openings_chain(first: &TileGrid, mid: &TileGrid, last: &TileGrid)
    requires
        mid.keeps_openings(first),
        last.keeps_openings(mid),
    ensures
        last.keeps_openings(first),
{
    assert forall|i: int|
        0 <= i < last.tiles@.len() && (first.tiles@[i] == TileType::Door || first.tiles@[i]
            == TileType::Window) implies #[trigger] last.tiles@[i] == first.tiles@[i] by {
        assert(mid.tiles@[i] == first.tiles@[i]);
    }
}

/// A rectangle without openings stays without where tiles only turn
/// into walls.
pub proof fn lemma_unopened_kept(before: &TileGrid, after: &TileGrid, r: Rect)
    requires
        after.walled_from(before),
        before.unopened(r),
    ensures
        after.unopened(r),
{
    assert forall|i: int| 0 <= i < after.tiles@.len() && after.within(r, i) implies (
    #[trigger] after.tiles@[i]) != TileType::Door && after.tiles@[i] != TileType::Window by {
        let (x, y) = choose|x: int, y: int| #[trigger] r.covers(x, y) && y * after.width + x == i;
        assert(r.covers(x, y) && y * before.width + x == i);
        assert(before.within(r, i));
        assert(after.tiles@[i] == before.tiles@[i] || after.tiles@[i] == TileType::Wall);
    }
}

/// Raising walls where no opening is closes no opening and changes tiles
/// into walls only.
pub proof fn lemma_walled_over_keeps(before: &TileGrid, after: &TileGrid, cells: Seq<Point>)
    requires
        after.same_shape(before),
        after.tiles@ == before.walled_over(cells),
    ensures
        after.keeps_openings(before),
        after.walled_from(before),
{
}

/// Stamping one list of cells and then another is stamping the two lists
/// joined.
pub proof fn lemma_stamped_twice(
    first: &TileGrid,
    mid: &TileGrid,
    one: Seq<Point>,
    two: Seq<Point>,
    tile: TileType,
)
    requires
        mid.same_shape(first),
        mid.tiles@ == first.stamped(one, tile),
    ensures
        mid.stamped(two, tile) == first.stamped(one + two, tile),
{
    let both = one + two;
    assert forall|i: int| 0 <= i < first.tiles@.len() implies mid.stamped(two, tile)[i]
        == first.stamped(both, tile)[i] by {
        if first.hits(one, i) {
            let k = choose|k: int| 0 <= k < one.len() && #[trigger] first.flat(one[k]) == i;
            assert(first.flat(both[k]) == i);
        }
        if mid.hits(two, i) {
            let k = choose|k: int| 0 <= k < two.len() && #[trigger] mid.flat(two[k]) == i;
            assert(first.flat(both[one.len() + k]) == i);
        }
        if first.hits(both, i) {
            let k = choose|k: int| 0 <= k < both.len() && #[trigger] first.flat(both[k]) == i;
            if k < one.len() {
                assert(first.flat(one[k]) == i);
            } else {
                assert(mid.flat(two[k - one.len()]) == i);
            }
        }
    }
    assert(mid.stamped(two, tile) =~= first.stamped(both, tile));
}

/// A cell covered by a rectangle that fits the grid can be stamped.
pub proof fn lemma_fits_stampable(grid: &TileGrid, r: Rect, x: int, y: int)
    requires
        grid.fits(r),
        r.covers(x, y),
    ensures
        grid.stampable(Point { x: x as i32, y: y as i32 }),
        grid.in_bounds(Point { x: x as i32, y: y as i32 }),
        grid.flat(Point { x: x as i32, y: y as i32 }) == y * grid.width + x,
{
    let w = grid.width as int;
    let h = grid.height as int;
    assert(0 < y * w + x < w * h) by (nonlinear_arith)
        requires
            1 <= x < w,
            1 <= y < h,
    ;
}

/// Two cells within the grid's columns that share an array position are
/// the same cell.
pub proof fn lemma_flat_injective(w: int, x1: int, y1: int, x2: int, y2: int)
    requires
        0 <= x1 < w,
        0 <= x2 < w,
        y1 * w + x1 == y2 * w + x2,
    ensures
        x1 == x2,
        y1 == y2,
{
    assert(y1 == y2) by (nonlinear_arith)
        requires
            0 <= x1 < w,
            0 <= x2 < w,
            y1 * w + x1 == y2 * w + x2,
    ;
}

/// Rectangles that do not intersect share no array position.
pub proof fn lemma_disjoint_within(grid: &TileGrid, a: Rect, b: Rect, i: int)
    requires
        grid.fits(a),
        grid.fits(b),
        !a.intersects(&b),
    ensures
        !(grid.within(a, i) && grid.within(b, i)),
{
    if grid.within(a, i) && grid.within(b, i) {
        let (xa, ya) = choose|x: int, y: int| #[trigger] a.covers(x, y) && y * grid.width + x == i;
        let (xb, yb) = choose|x: int, y: int| #[trigger] b.covers(x, y) && y * grid.width + x == i;
        lemma_flat_injective(grid.width as int, xa, ya, xb, yb);
    }
}

} // verus!
