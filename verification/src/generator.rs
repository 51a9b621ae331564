//! The buildings generator: packs footprints into an empty grid, then
//! partitions and connects each building in turn.

use vstd::prelude::*;
use bracket_lib::prelude::RandomNumberGenerator;
use crate::adjacency::{graph_of, lemma_near_outside_reachable, near_outside, RoomId};
use crate::config::{GenerationError, GeneratorConfig, MAX_SIDE, PARTITION_ROUNDS};
use crate::connectivity::{all_doored, connect_rooms, lemma_walled_rooms_close_graph};
use crate::geometry::{Point, Rect};
use crate::grid::{
    lemma_disjoint_within, lemma_flat_injective, lemma_keeps_openings_chain, TileGrid, TileType,
};
use crate::packer::{
    all_apart, generate_buildings, lemma_kept_apart_disjoint, lemma_outlines_effects, outlines,
    placement_shortfall, rolled, roomy, tight,
};
use crate::partition::{
    all_bordered, changed_on_outlines, cramped, lemma_pierced_borders_stay, partition, partitions,
    too_small,
};
use crate::reachability::{
    all_floored, lemma_bordered_kept, lemma_doors_lead_out, lemma_floored_kept,
    lemma_outlines_chain,
    lemma_rooms_stay_floored, moat,
};
use crate::outdoors::{lemma_open_ground, lemma_out_to_edge, open_ground, spaced};
use crate::walk::{escapes, floored, reaches_edge, ring, walk, way_out, way_to_edge};
use crate::game_map::GameMap;
use crate::map::GridMap;
use crate::random::{from_entropy, seeded};

verus! {

/// The rooms of one building and, for each, whether the spanning walk
/// reached it.
pub struct Interior {
    pub rooms: Vec<Rect>,
    pub connected: Vec<bool>,
}

/// What a generation pass laid out: the footprints, and the interior of each.
pub struct Layout {
    pub buildings: Vec<Rect>,
    pub interiors: Vec<Interior>,
    /// Set when fewer buildings were placed than were asked for.
    pub shortfall: Option<GenerationError>,
}

/// The rooms tile the footprint, each near the outside, and the spanning
/// walk reached every one of them.
pub open spec fn tiled(building: Rect, rooms: Seq<Rect>, connected: Seq<bool>) -> bool {
    &&& partitions(rooms, building)
    &&& 1 <= rooms.len() <= 2 + PARTITION_ROUNDS
    &&& near_outside(rooms, building)
    &&& connected.len() == rooms.len()
    &&& forall|i: int| 0 <= i < rooms.len() ==> #[trigger] connected[i]
}

/// The building is complete in `grid`: its rooms tile the footprint, the
/// spanning walk reached every one of them, and from every room a chain of
/// doors leads to the outside.
pub open spec fn finished(
    grid: &TileGrid,
    building: Rect,
    rooms: Seq<Rect>,
    connected: Seq<bool>,
) -> bool {
    &&& partitions(rooms, building)
    &&& 1 <= rooms.len() <= 2 + PARTITION_ROUNDS
    &&& near_outside(rooms, building)
    &&& connected.len() == rooms.len()
    &&& forall|i: int|
        0 <= i < rooms.len() ==> (#[trigger] connected[i]) && graph_of(
            rooms,
            building,
        ).door_connected(grid, RoomId::Interior(i as usize))
}

/// The pass that took `before` to `after` laid out `layout`.
///
/// At most the configured number of footprints were placed, each rolled
/// within the grid, no two within the margin of one another; the shortfall
/// is set exactly when fewer were placed than asked for; the rooms of
/// every building tile it, with wall, door or window on every cell of
/// every room's walls; no opening was closed, and every tile that changed
/// lies within a footprint; if the grid held no opening, every building is
/// finished; and if it was all floor, every room is floor inside.
pub open spec fn laid_out(
    before: &TileGrid,
    after: &TileGrid,
    config: GeneratorConfig,
    layout: Layout,
) -> bool {
    &&& after.same_shape(before)
    &&& layout.buildings@.len() <= config.max_buildings
    &&& layout.interiors@.len() == layout.buildings@.len()
    &&& layout.shortfall == if layout.buildings@.len() < config.max_buildings {
        Some(GenerationError::PlacementExhausted)
    } else {
        None
    }
    &&& forall|k: int|
        0 <= k < layout.buildings@.len() ==> rolled(
            #[trigger] layout.buildings@[k],
            before.width as int,
            before.height as int,
            config,
        )
    &&& all_apart(layout.buildings@, config.building_margin as int)
    &&& roomy(before.width as int, before.height as int, config) ==> layout.buildings@.len() >= 1
    &&& tight(before.width as int, before.height as int, config) ==> layout.buildings@.len() == 0
    &&& after.keeps_openings(before)
    &&& forall|k: int|
        0 <= k < layout.buildings@.len() ==> tiled(
            layout.buildings@[k],
            (#[trigger] layout.interiors@[k]).rooms@,
            layout.interiors@[k].connected@,
        )
    &&& before.pristine() ==> forall|k: int|
        0 <= k < layout.buildings@.len() ==> finished(
            after,
            layout.buildings@[k],
            (#[trigger] layout.interiors@[k]).rooms@,
            layout.interiors@[k].connected@,
        )
    &&& forall|k: int|
        0 <= k < layout.buildings@.len() ==> all_bordered(
            after,
            (#[trigger] layout.interiors@[k]).rooms@,
        )
    &&& before.blank() ==> forall|k: int|
        0 <= k < layout.buildings@.len() ==> all_floored(
            after,
            (#[trigger] layout.interiors@[k]).rooms@,
        )
    &&& forall|i: int|
        0 <= i < after.tiles@.len() && #[trigger] after.tiles@[i] != before.tiles@[i]
            ==> exists|k: int|
            0 <= k < layout.buildings@.len() && before.within(#[trigger] layout.buildings@[k], i)
}

/// The rooms of the first `upto` interiors, one building after the other.
pub open spec fn rooms_of(interiors: Seq<Interior>, upto: int) -> Seq<Rect>
    decreases upto,
{
    if upto <= 0 {
        Seq::empty()
    } else {
        rooms_of(interiors, upto - 1) + interiors[upto - 1].rooms@
    }
}

/// A change within one rectangle leaves a rectangle apart from it as it was.
pub proof fn lemma_apart_untouched(before: &TileGrid, after: &TileGrid, changed: Rect, other: Rect)
    requires
        after.changed_within(before, changed),
        before.fits(changed),
        before.fits(other),
        other.x1 <= other.x2 && other.y1 <= other.y2,
        !changed.intersects(&other),
    ensures
        before.walled(other) ==> after.walled(other),
        before.unopened(other) ==> after.unopened(other),
{
    if before.walled(other) {
        assert forall|x: int, y: int| #[trigger] other.on_border(x, y) implies after.shows(
            Point { x: x as i32, y: y as i32 },
            TileType::Wall,
        ) by {
            let p = Point { x: x as i32, y: y as i32 };
            let i = y * before.width + x;
            crate::grid::lemma_fits_stampable(before, other, x, y);
            assert(other.covers(x, y));
            assert(before.within(other, i));
            lemma_disjoint_within(before, changed, other, i);
            assert(before.shows(p, TileType::Wall));
        }
    }
    if before.unopened(other) {
        assert forall|i: int| 0 <= i < after.tiles@.len() && after.within(other, i) implies (
        #[trigger] after.tiles@[i]) != TileType::Door && after.tiles@[i] != TileType::Window by {
            let (x, y) = choose|x: int, y: int|
                #[trigger] other.covers(x, y) && y * after.width + x == i;
            assert(other.covers(x, y) && y * before.width + x == i);
            assert(before.within(other, i));
            lemma_disjoint_within(before, changed, other, i);
        }
    }
}

/// Every room of every building of the layout can be walked out of.
pub open spec fn walkable(grid: &TileGrid, layout: Layout) -> bool {
    forall|k: int|
        0 <= k < layout.buildings@.len() ==> all_escape(
            grid,
            (#[trigger] layout.interiors@[k]).rooms@,
            layout.buildings@[k],
        )
}

/// Every room of the list can be walked out of.
pub open spec fn all_escape(grid: &TileGrid, rooms: Seq<Rect>, building: Rect) -> bool {
    forall|i: int| 0 <= i < rooms.len() ==> escapes(grid, #[trigger] rooms[i], building)
}

/// From every room of every building of the layout the edge of the grid
/// can be walked to.
pub open spec fn open_to_edge(grid: &TileGrid, layout: Layout) -> bool {
    forall|k: int|
        0 <= k < layout.buildings@.len() ==> all_reach_edge(
            grid,
            (#[trigger] layout.interiors@[k]).rooms@,
        )
}

/// From every room of the list the edge of the grid can be walked to.
pub open spec fn all_reach_edge(grid: &TileGrid, rooms: Seq<Rect>) -> bool {
    forall|i: int| 0 <= i < rooms.len() ==> reaches_edge(grid, #[trigger] rooms[i])
}

/// Rooms that can be walked out of their building lead on to the edge of
/// the grid, where the ground between the footprints is floor.
pub proof fn lemma_escape_to_edge(
    grid: &TileGrid,
    buildings: Seq<Rect>,
    margin: int,
    k: int,
    rooms: Seq<Rect>,
)
    requires
        spaced(grid, buildings, margin),
        open_ground(grid, buildings),
        0 <= k < buildings.len(),
        all_escape(grid, rooms, buildings[k]),
    ensures
        all_reach_edge(grid, rooms),
{
    assert forall|i: int| 0 <= i < rooms.len() implies reaches_edge(grid, #[trigger] rooms[i]) by {
        let room = rooms[i];
        assert(escapes(grid, room, buildings[k]));
        assert forall|x: int, y: int| #[trigger] room.strictly_covers(x, y) implies way_to_edge(
            grid,
            Point { x: x as i32, y: y as i32 },
        ) by {
            let from = Point { x: x as i32, y: y as i32 };
            assert(way_out(grid, from, buildings[k]));
            let (out, steps) = choose|out: Point, steps: nat|
                ring(buildings[k], out.x as int, out.y as int) && #[trigger] walk(
                    grid,
                    from,
                    out,
                    steps,
                );
            lemma_out_to_edge(grid, buildings, margin, k, from, out, steps);
        }
    }
}

/// Footprints as the packer rolls and accepts them, with a margin of a
/// cell or more, are spaced.
pub proof fn lemma_rolled_spaced(grid: &TileGrid, buildings: Seq<Rect>, config: GeneratorConfig)
    requires
        grid.wf(),
        config.valid(),
        1 <= config.building_margin,
        grid.width + config.building_margin <= i32::MAX,
        grid.height + config.building_margin <= i32::MAX,
        forall|j: int|
            0 <= j < buildings.len() ==> rolled(
                #[trigger] buildings[j],
                grid.width as int,
                grid.height as int,
                config,
            ),
        all_apart(buildings, config.building_margin as int),
    ensures
        spaced(grid, buildings, config.building_margin as int),
{
    assert forall|k: int| 0 <= k < buildings.len() implies grid.inset(#[trigger] buildings[k])
        && buildings[k].proper() by {
        assert(rolled(buildings[k], grid.width as int, grid.height as int, config));
    }
}

/// On a grid that was all floor and has changed only within footprints
/// that keep a margin of a cell or more, the ring around every footprint
/// is floor.
pub proof fn lemma_moat(
    before: &TileGrid,
    after: &TileGrid,
    buildings: Seq<Rect>,
    config: GeneratorConfig,
    k: int,
)
    requires
        before.wf(),
        before.blank(),
        after.same_shape(before),
        config.valid(),
        1 <= config.building_margin,
        before.width + config.building_margin <= i32::MAX,
        before.height + config.building_margin <= i32::MAX,
        forall|j: int|
            0 <= j < buildings.len() ==> rolled(
                #[trigger] buildings[j],
                before.width as int,
                before.height as int,
                config,
            ),
        all_apart(buildings, config.building_margin as int),
        forall|i: int|
            0 <= i < after.tiles@.len() && #[trigger] after.tiles@[i] != before.tiles@[i]
                ==> exists|j: int|
                0 <= j < buildings.len() && before.within(#[trigger] buildings[j], i),
        0 <= k < buildings.len(),
    ensures
        moat(after, buildings[k]),
{
    let b = buildings[k];
    let w = before.width as int;
    let h = before.height as int;
    let margin = config.building_margin as int;
    assert(rolled(b, w, h, config));
    assert forall|x: int, y: int| #[trigger] ring(b, x, y) implies after.shows(
        Point { x: x as i32, y: y as i32 },
        TileType::Floor,
    ) by {
        let idx = y * w + x;
        assert(0 < idx < w * h) by (nonlinear_arith)
            requires
                0 <= x < w,
                0 <= y < h,
                x >= 1 || y >= 1,
                idx == y * w + x,
        ;
        if after.tiles@[idx] != before.tiles@[idx] {
            let j = choose|j: int|
                0 <= j < buildings.len() && before.within(#[trigger] buildings[j], idx);
            let other = buildings[j];
            assert(rolled(other, w, h, config));
            let (ox, oy) = choose|ox: int, oy: int| #[trigger]
                other.covers(ox, oy) && oy * before.width + ox == idx;
            lemma_flat_injective(w, x, y, ox, oy);
            assert(other.covers(x, y));
            assert(j != k);
            assert(crate::packer::kept_apart(buildings[j], buildings[k], margin));
            let grown = crate::packer::expanded(b, margin);
            assert(grown.x1 == b.x1 - margin && grown.x2 == b.x2 + margin);
            assert(grown.y1 == b.y1 - margin && grown.y2 == b.y2 + margin);
            assert(other.intersects(&grown));
        }
    }
}

/// On a grid that was all floor, stamping the outlines of footprints that
/// do not intersect leaves every footprint floor inside.
pub proof fn lemma_footprints_floored(
    before: &TileGrid,
    after: &TileGrid,
    buildings: Seq<Rect>,
    k: int,
)
    requires
        before.blank(),
        after.same_shape(before),
        forall|j: int| 0 <= j < buildings.len() ==> before.fits(#[trigger] buildings[j]),
        forall|i: int, j: int|
            0 <= i < buildings.len() && 0 <= j < buildings.len() && i != j ==> !(
            #[trigger] buildings[i]).intersects(#[trigger] &buildings[j]),
        forall|i: int|
            0 <= i < after.tiles@.len() && #[trigger] after.tiles@[i] != before.tiles@[i]
                ==> exists|j: int|
                0 <= j < buildings.len() && before.on_outline(#[trigger] buildings[j], i),
        0 <= k < buildings.len(),
    ensures
        floored(after, buildings[k]),
{
    let b = buildings[k];
    assert forall|x: int, y: int| #[trigger] b.strictly_covers(x, y) implies after.shows(
        Point { x: x as i32, y: y as i32 },
        TileType::Floor,
    ) by {
        let idx = y * before.width + x;
        assert(b.covers(x, y));
        crate::grid::lemma_fits_stampable(before, b, x, y);
        if after.tiles@[idx] != before.tiles@[idx] {
            let j = choose|j: int|
                0 <= j < buildings.len() && before.on_outline(#[trigger] buildings[j], idx);
            let other = buildings[j];
            let (ox, oy) = choose|ox: int, oy: int| #[trigger]
                other.on_border(ox, oy) && oy * before.width + ox == idx;
            assert(before.fits(other));
            lemma_flat_injective(before.width as int, x, y, ox, oy);
            if j != k {
                assert(!buildings[k].intersects(&buildings[j]));
            }
        }
    }
}

/// A finished building stays finished where no opening is lost.
pub proof fn lemma_finished_kept(
    before: &TileGrid,
    after: &TileGrid,
    building: Rect,
    rooms: Seq<Rect>,
    connected: Seq<bool>,
)
    requires
        after.keeps_openings(before),
        finished(before, building, rooms, connected),
    ensures
        finished(after, building, rooms, connected),
{
    let g = graph_of(rooms, building);
    assert forall|i: int| 0 <= i < rooms.len() implies (#[trigger] connected[i])
        && g.door_connected(after, RoomId::Interior(i as usize)) by {
        let room = RoomId::Interior(i as usize);
        assert(connected[i]);
        assert(graph_of(rooms, building).door_connected(before, RoomId::Interior(i as usize)));
        assert(g.door_connected(before, room));
        let hops = choose|hops: nat| g.door_reach(before, room, hops);
        crate::connectivity::lemma_door_reach_kept(g, before, after, room, hops);
    }
}

/// Changes within a rectangle, one after the other, are changes within it.
pub proof fn lemma_changed_within_chain(
    first: &TileGrid,
    mid: &TileGrid,
    last: &TileGrid,
    r: Rect,
)
    requires
        mid.changed_within(first, r),
        last.changed_within(mid, r),
    ensures
        last.changed_within(first, r),
{
    assert forall|i: int|
        0 <= i < last.tiles@.len() && #[trigger] last.tiles@[i] != first.tiles@[i] implies first.within(
        r,
        i,
    ) by {
        if mid.tiles@[i] == first.tiles@[i] {
            assert(last.tiles@[i] != mid.tiles@[i]);
            assert(mid.within(r, i));
            let (x, y) = choose|x: int, y: int| #[trigger] r.covers(x, y) && y * mid.width + x == i;
            assert(r.covers(x, y) && y * first.width + x == i);
        }
    }
}

/// Builds the interior of one building: partitions the footprint into
/// rooms, then gives them doors and windows.
///
/// On any grid the rooms tile the footprint, the walk reaches every one
/// of them, no opening anywhere is lost and nothing outside the footprint
/// changes. Where the footprint was stamped and still without openings,
/// the building comes out finished; where its walls held wall, door or
/// window throughout, so do the walls of every room.
pub fn generate_interior(
    grid: &mut TileGrid,
    rng: &mut RandomNumberGenerator,
    building: Rect,
    config: &GeneratorConfig,
) -> (interior: Interior)
    requires
        config.valid(),
        2 <= building.x2 - building.x1 <= MAX_SIDE,
        2 <= building.y2 - building.y1 <= MAX_SIDE,
    ensures
        partitions(interior.rooms@, building),
        near_outside(interior.rooms@, building),
        interior.connected@.len() == interior.rooms@.len(),
        forall|i: int| 0 <= i < interior.connected@.len() ==> #[trigger] interior.connected@[i],
        old(grid).fits(building) && old(grid).walled(building) && old(grid).unopened(building)
            ==> finished(final(grid), building, interior.rooms@, interior.connected@),
        1 <= interior.rooms@.len() <= 2 + PARTITION_ROUNDS,
        cramped(building, config.room_min_dimension as int) ==> interior.rooms@ == seq![building],
        !cramped(building, config.room_min_dimension as int) ==> interior.rooms@.len() >= 2,
        !cramped(building, config.room_min_dimension as int) && interior.rooms@.len() < 2
            + PARTITION_ROUNDS ==> exists|i: int|
            0 <= i < interior.rooms@.len() && too_small(
                #[trigger] interior.rooms@[i],
                config.room_min_dimension as int,
            ),
        final(grid).keeps_openings(old(grid)),
        final(grid).changed_within(old(grid), building),
        changed_on_outlines(old(grid), final(grid), interior.rooms@),
        old(grid).fits(building) && floored(old(grid), building) ==> all_floored(
            final(grid),
            interior.rooms@,
        ),
        old(grid).fits(building) && old(grid).bordered(building) ==> all_bordered(
            final(grid),
            interior.rooms@,
        ),
{
    let rooms = partition(grid, rng, building, config.room_min_dimension);
    let ghost cut = *grid;
    let ghost intact = old(grid).fits(building) && old(grid).walled(building) && old(
        grid,
    ).unopened(building);
    proof {
        if intact {
            lemma_walled_rooms_close_graph(&cut, rooms@, building);
        }
    }
    let connected = connect_rooms(
        grid,
        rng,
        &rooms,
        building,
        config.extra_door_attempts,
        config.window_attempts,
    );
    proof {
        lemma_keeps_openings_chain(old(grid), &cut, grid);
        lemma_changed_within_chain(old(grid), &cut, grid, building);
        lemma_outlines_chain(old(grid), &cut, grid, rooms@);
        if old(grid).fits(building) && old(grid).bordered(building) {
            lemma_pierced_borders_stay(&cut, grid, rooms@);
        }
        if old(grid).fits(building) && floored(old(grid), building) {
            lemma_rooms_stay_floored(old(grid), grid, rooms@, building);
        }
        let g = graph_of(rooms@, building);
        assert forall|i: int| 0 <= i < rooms@.len() implies (#[trigger] connected@[i]) && (intact
            ==> g.door_connected(grid, RoomId::Interior(i as usize))) by {
            lemma_near_outside_reachable(rooms@, building, i);
            assert(g.reachable(RoomId::Interior(i as usize)));
            assert(connected@[i]);
            if intact {
                assert(g.walls_closed(&cut));
                assert(all_doored(g, grid, connected@));
            }
        }
    }
    Interior { rooms, connected }
}

/// A generator of levels.
pub trait MapGenerator {
    /// The generator is in a state from which a pass may start.
    spec fn ready(&self) -> bool;

    /// Runs one pass and hands out the level.
    fn generate(&mut self) -> (map: GameMap)
        requires
            old(self).ready(),
        ensures
            map.wf(),
            map.untouched(),
    ;
}

/// The generator of levels made of buildings: the grid it draws on, its
/// parameters and its random source.
pub struct BuildingsGenerator {
    pub grid: TileGrid,
    pub config: GeneratorConfig,
    pub rng: RandomNumberGenerator,
}

impl BuildingsGenerator {
    /// The grid is well formed, the parameters are valid, and the grid's
    /// extents leave room for the margin within an `i32`.
    pub open spec fn wf(&self) -> bool {
        &&& self.grid.wf()
        &&& self.grid.width * self.grid.height <= i32::MAX
        &&& self.config.valid()
        &&& self.grid.width + self.config.building_margin <= i32::MAX
        &&& self.grid.height + self.config.building_margin <= i32::MAX
    }

    /// Every cell is floor.
    pub open spec fn blank(&self) -> bool {
        self.grid.blank()
    }

    /// A generator over an all-floor grid of the given extents, with the
    /// default parameters and a random source seeded by the system.
    pub fn new(width: i32, height: i32) -> (generator: BuildingsGenerator)
        requires
            0 <= width,
            0 <= height,
            width * height <= i32::MAX,
            width + 3 <= i32::MAX,
            height + 3 <= i32::MAX,
        ensures
            generator.wf(),
            generator.blank(),
            generator.grid.width == width,
            generator.grid.height == height,
            generator.config == GeneratorConfig::standard(),
    {
        BuildingsGenerator {
            grid: TileGrid::new(width, height, TileType::Floor),
            config: GeneratorConfig::default(),
            rng: from_entropy(),
        }
    }

    /// A generator over an all-floor grid of the given extents, with the
    /// default parameters and a random source started from `seed`.
    pub fn seeded(width: i32, height: i32, seed: u64) -> (generator: BuildingsGenerator)
        requires
            0 <= width,
            0 <= height,
            width * height <= i32::MAX,
            width + 3 <= i32::MAX,
            height + 3 <= i32::MAX,
        ensures
            generator.wf(),
            generator.blank(),
            generator.grid.width == width,
            generator.grid.height == height,
            generator.config == GeneratorConfig::standard(),
    {
        BuildingsGenerator {
            grid: TileGrid::new(width, height, TileType::Floor),
            config: GeneratorConfig::default(),
            rng: seeded(seed),
        }
    }

    /// A generator over an all-floor grid of the given extents, with the
    /// given parameters and a random source started from `seed`. `None`
    /// when the extents or the parameters are out of bounds.
    pub fn with_config(width: i32, height: i32, config: GeneratorConfig, seed: u64) -> (made: Option<
        BuildingsGenerator,
    >)
        ensures
            made.is_some() == (config.valid() && 0 <= width && 0 <= height && width * height
                <= i32::MAX && width + config.building_margin <= i32::MAX && height
                + config.building_margin <= i32::MAX),
            made matches Some(generator) ==> generator.wf() && generator.blank()
                && generator.grid.width == width && generator.grid.height == height
                && generator.config == config,
    {
        if !config.is_valid() || width < 0 || height < 0 {
            return None;
        }
        assert(0 <= width * height <= 0x4000_0000_0000_0000) by (nonlinear_arith)
            requires
                0 <= width <= 0x7fff_ffff,
                0 <= height <= 0x7fff_ffff,
        ;
        if (width as i64) * (height as i64) > i32::MAX as i64 {
            return None;
        }
        if (width as i64) + (config.building_margin as i64) > i32::MAX as i64 || (height as i64) + (
        config.building_margin as i64) > i32::MAX as i64 {
            return None;
        }
        Some(
            BuildingsGenerator {
                grid: TileGrid::new(width, height, TileType::Floor),
                config,
                rng: seeded(seed),
            },
        )
    }

    /// Runs one pass: places the footprints, then builds the interior of
    /// each building in turn.
    ///
    /// On any grid no opening is closed. On a grid without openings every
    /// building comes out finished. On a grid that was all floor, with a
    /// margin of a cell or more, every room can be walked out of, and on
    /// to the edge of the grid.
    pub fn generate_layout(&mut self) -> (layout: Layout)
        requires
            old(self).wf(),
        ensures
            final(self).wf(),
            final(self).config == old(self).config,
            laid_out(&old(self).grid, &final(self).grid, old(self).config, layout),
            old(self).blank() && old(self).config.building_margin >= 1 ==> walkable(
                &final(self).grid,
                layout,
            ) && open_to_edge(&final(self).grid, layout),
    {
        let config = self.config;
        let ghost clean = old(self).grid.blank();
        let ghost clear = old(self).grid.pristine();
        let buildings = generate_buildings(&mut self.grid, &mut self.rng, &config);
        let ghost stamped = self.grid;
        let ghost margin = config.building_margin as int;
        let count = buildings.len();
        proof {
            lemma_outlines_effects(&old(self).grid, &stamped, buildings@, count as int);
            assert forall|k: int| 0 <= k < count implies stamped.bordered(#[trigger] buildings@[k])
                && stamped.fits(buildings@[k]) && (clear ==> stamped.walled(buildings@[k])
                && stamped.unopened(buildings@[k])) by {
                assert(rolled(
                    buildings@[k],
                    stamped.width as int,
                    stamped.height as int,
                    config,
                ));
                assert(old(self).grid.fits(buildings@[k]));
            }
            assert forall|i: int|
                0 <= i < stamped.tiles@.len() && #[trigger] stamped.tiles@[i] != old(
                    self,
                ).grid.tiles@[i] implies exists|k: int|
                0 <= k < count && old(self).grid.within(#[trigger] buildings@[k], i) by {
                let k = choose|k: int|
                    0 <= k < count && old(self).grid.on_outline(#[trigger] buildings@[k], i);
                let (x, y) = choose|x: int, y: int| #[trigger]
                    buildings@[k].on_border(x, y) && y * old(self).grid.width + x == i;
                assert(buildings@[k].covers(x, y));
            }
        }
        proof {
            assert forall|i: int, j: int|
                0 <= i < count && 0 <= j < count && i != j implies !(#[trigger] buildings@[i]).intersects(
                #[trigger] &buildings@[j],
            ) by {
                assert(rolled(buildings@[i], stamped.width as int, stamped.height as int, config));
                assert(rolled(buildings@[j], stamped.width as int, stamped.height as int, config));
                assert(crate::packer::kept_apart(buildings@[i], buildings@[j], margin));
                lemma_kept_apart_disjoint(buildings@[i], buildings@[j], margin);
            }
            if clean {
                assert forall|j: int| 0 <= j < count implies floored(
                    &stamped,
                    #[trigger] buildings@[j],
                ) by {
                    lemma_footprints_floored(&old(self).grid, &stamped, buildings@, j);
                }
            }
        }
        let mut interiors: Vec<Interior> = Vec::new();
        let mut k: usize = 0;
        while k < count
            invariant
                clean == old(self).grid.blank(),
                clear == old(self).grid.pristine(),
                self.grid.keeps_openings(&old(self).grid),
                forall|j: int| k <= j < count ==> self.grid.bordered(#[trigger] buildings@[j]),
                forall|j: int|
                    0 <= j < k ==> tiled(
                        buildings@[j],
                        (#[trigger] interiors@[j]).rooms@,
                        interiors@[j].connected@,
                    ),
                clean ==> forall|j: int|
                    k <= j < count ==> floored(&self.grid, #[trigger] buildings@[j]),
                clean ==> forall|j: int|
                    0 <= j < k ==> all_floored(&self.grid, (#[trigger] interiors@[j]).rooms@),
                forall|j: int|
                    0 <= j < k ==> all_bordered(&self.grid, (#[trigger] interiors@[j]).rooms@),
                forall|i: int, j: int|
                    0 <= i < count && 0 <= j < count && i != j ==> !(
                    #[trigger] buildings@[i]).intersects(#[trigger] &buildings@[j]),
                config == old(self).config,
                self.config == config,
                old(self).wf(),
                self.wf(),
                self.grid.same_shape(&old(self).grid),
                count == buildings@.len(),
                0 <= k <= count,
                interiors@.len() == k,
                margin == config.building_margin,
                all_apart(buildings@, margin),
                forall|j: int|
                    0 <= j < count ==> rolled(
                        #[trigger] buildings@[j],
                        self.grid.width as int,
                        self.grid.height as int,
                        config,
                    ),
                clear ==> forall|j: int|
                    0 <= j < k ==> finished(
                        &self.grid,
                        buildings@[j],
                        (#[trigger] interiors@[j]).rooms@,
                        interiors@[j].connected@,
                    ),
                clear ==> forall|j: int|
                    k <= j < count ==> self.grid.walled(#[trigger] buildings@[j])
                        && self.grid.unopened(buildings@[j]),
                forall|i: int|
                    0 <= i < self.grid.tiles@.len() && #[trigger] self.grid.tiles@[i] != old(
                        self,
                    ).grid.tiles@[i] ==> exists|j: int|
                        0 <= j < count && old(self).grid.within(#[trigger] buildings@[j], i),
            decreases count - k,
        {
            let building = buildings[k];
            let ghost prior = self.grid;
            let ghost done = interiors@;
            assert(rolled(building, self.grid.width as int, self.grid.height as int, config));
            let interior = generate_interior(&mut self.grid, &mut self.rng, building, &config);
            proof {
                lemma_keeps_openings_chain(&old(self).grid, &prior, &self.grid);
                assert(prior.fits(building) && prior.bordered(building));
                if clear {
                    assert forall|j: int| 0 <= j < k implies finished(
                        &self.grid,
                        buildings@[j],
                        (#[trigger] done[j]).rooms@,
                        done[j].connected@,
                    ) by {
                        lemma_finished_kept(
                            &prior,
                            &self.grid,
                            buildings@[j],
                            done[j].rooms@,
                            done[j].connected@,
                        );
                    }
                    assert forall|j: int| k < j < count implies self.grid.walled(
                        #[trigger] buildings@[j],
                    ) && self.grid.unopened(buildings@[j]) by {
                        let other = buildings@[j];
                        assert(rolled(other, prior.width as int, prior.height as int, config));
                        assert(!buildings@[k as int].intersects(&buildings@[j]));
                        lemma_apart_untouched(&prior, &self.grid, building, other);
                    }
                }
                assert forall|j: int| k < j < count implies self.grid.bordered(
                    #[trigger] buildings@[j],
                ) by {
                    let other = buildings@[j];
                    assert(rolled(other, prior.width as int, prior.height as int, config));
                    assert(!buildings@[k as int].intersects(&buildings@[j]));
                    lemma_bordered_kept(&prior, &self.grid, building, other, other);
                }
                assert forall|j: int| 0 <= j < k implies all_bordered(
                    &self.grid,
                    (#[trigger] done[j]).rooms@,
                ) by {
                    let holder = buildings@[j];
                    let rooms = done[j].rooms@;
                    assert(rolled(holder, prior.width as int, prior.height as int, config));
                    assert(!buildings@[k as int].intersects(&buildings@[j]));
                    assert(tiled(holder, rooms, done[j].connected@));
                    assert(all_bordered(&prior, rooms));
                    assert forall|i: int| 0 <= i < rooms.len() implies self.grid.bordered(
                        #[trigger] rooms[i],
                    ) by {
                        assert(holder.encloses(&rooms[i]));
                        assert(prior.bordered(rooms[i]));
                        lemma_bordered_kept(&prior, &self.grid, building, holder, rooms[i]);
                    }
                }
                if clean {
                    assert forall|j: int| k < j < count implies floored(
                        &self.grid,
                        #[trigger] buildings@[j],
                    ) by {
                        let other = buildings@[j];
                        assert(rolled(other, prior.width as int, prior.height as int, config));
                        assert(!buildings@[k as int].intersects(&buildings@[j]));
                        lemma_floored_kept(&prior, &self.grid, building, other, other);
                    }
                    assert forall|j: int| 0 <= j < k implies all_floored(
                        &self.grid,
                        (#[trigger] done[j]).rooms@,
                    ) by {
                        let holder = buildings@[j];
                        let rooms = done[j].rooms@;
                        assert(rolled(holder, prior.width as int, prior.height as int, config));
                        assert(!buildings@[k as int].intersects(&buildings@[j]));
                        assert(tiled(holder, rooms, done[j].connected@));
                        assert forall|i: int| 0 <= i < rooms.len() implies floored(
                            &self.grid,
                            #[trigger] rooms[i],
                        ) by {
                            assert(holder.encloses(&rooms[i]));
                            assert(floored(&prior, rooms[i]));
                            lemma_floored_kept(&prior, &self.grid, building, holder, rooms[i]);
                        }
                    }
                }
                assert forall|i: int|
                    0 <= i < self.grid.tiles@.len() && #[trigger] self.grid.tiles@[i] != old(
                        self,
                    ).grid.tiles@[i] implies exists|j: int|
                    0 <= j < count && old(self).grid.within(#[trigger] buildings@[j], i) by {
                    if prior.tiles@[i] == old(self).grid.tiles@[i] {
                        assert(prior.within(building, i));
                        let (x, y) = choose|x: int, y: int| #[trigger]
                            building.covers(x, y) && y * prior.width + x == i;
                        assert(building.covers(x, y) && y * old(self).grid.width + x == i);
                        assert(old(self).grid.within(buildings@[k as int], i));
                    }
                }
            }
            interiors.push(interior);
            k = k + 1;
        }
        proof {
            if clean && config.building_margin >= 1 {
                assert forall|j: int| 0 <= j < count implies all_escape(
                    &self.grid,
                    (#[trigger] interiors@[j]).rooms@,
                    buildings@[j],
                ) by {
                    let building = buildings@[j];
                    let rooms = interiors@[j].rooms@;
                    lemma_moat(&old(self).grid, &self.grid, buildings@, config, j);
                    assert(rolled(
                        building,
                        self.grid.width as int,
                        self.grid.height as int,
                        config,
                    ));
                    assert(finished(&self.grid, building, rooms, interiors@[j].connected@));
                    assert(all_floored(&self.grid, rooms));
                    assert forall|i: int| 0 <= i < rooms.len() implies escapes(
                        &self.grid,
                        #[trigger] rooms[i],
                        building,
                    ) by {
                        let g = graph_of(rooms, building);
                        let me = RoomId::Interior(i as usize);
                        assert(interiors@[j].connected@[i]);
                        assert(g.door_connected(&self.grid, me));
                        let hops = choose|hops: nat| g.door_reach(&self.grid, me, hops);
                        lemma_doors_lead_out(&self.grid, rooms, building, i, hops);
                    }
                }
                lemma_rolled_spaced(&self.grid, buildings@, config);
                lemma_rolled_spaced(&old(self).grid, buildings@, config);
                lemma_open_ground(&old(self).grid, &self.grid, buildings@);
                assert forall|j: int| 0 <= j < count implies all_reach_edge(
                    &self.grid,
                    (#[trigger] interiors@[j]).rooms@,
                ) by {
                    lemma_escape_to_edge(
                        &self.grid,
                        buildings@,
                        config.building_margin as int,
                        j,
                        interiors@[j].rooms@,
                    );
                }
            }
        }
        let shortfall = placement_shortfall(config.max_buildings, count);
        let layout = Layout { buildings, interiors, shortfall };
        assert(clean && config.building_margin >= 1 ==> walkable(&self.grid, layout)
            && open_to_edge(&self.grid, layout));
        layout
    }
}

/// A copy of a list of tiles.
pub fn copy_tiles(tiles: &Vec<TileType>) -> (copy: Vec<TileType>)
    ensures
        copy@ == tiles@,
{
    let mut copy: Vec<TileType> = Vec::new();
    let mut k: usize = 0;
    while k < tiles.len()
        invariant
            0 <= k <= tiles@.len(),
            copy@ == tiles@.take(k as int),
        decreases tiles@.len() - k,
    {
        copy.push(tiles[k]);
        assert(tiles@.take(k as int + 1) =~= tiles@.take(k as int).push(tiles@[k as int]));
        k = k + 1;
    }
    assert(tiles@.take(k as int) =~= tiles@);
    copy
}

/// The rooms of all buildings in one list, building by building.
pub fn flatten_rooms(interiors: &Vec<Interior>) -> (rooms: Vec<Rect>)
    ensures
        rooms@ == rooms_of(interiors@, interiors@.len() as int),
{
    let mut rooms: Vec<Rect> = Vec::new();
    let mut k: usize = 0;
    while k < interiors.len()
        invariant
            0 <= k <= interiors@.len(),
            rooms@ == rooms_of(interiors@, k as int),
        decreases interiors@.len() - k,
    {
        let list = &interiors[k].rooms;
        let ghost before = rooms@;
        let mut i: usize = 0;
        while i < list.len()
            invariant
                0 <= i <= list@.len(),
                rooms@ == before + list@.take(i as int),
            decreases list@.len() - i,
        {
            rooms.push(list[i]);
            assert(list@.take(i as int + 1) =~= list@.take(i as int).push(list@[i as int]));
            assert(rooms@ =~= before + list@.take(i as int + 1));
            i = i + 1;
        }
        assert(list@.take(i as int) =~= list@);
        k = k + 1;
    }
    rooms
}

impl MapGenerator for BuildingsGenerator {
    open spec fn ready(&self) -> bool {
        self.wf()
    }

    /// Runs one pass and hands out the level: the grid as the pass left
    /// it, and the rooms of all buildings in one list, building by
    /// building.
    fn generate(&mut self) -> (map: GameMap)
        ensures
            final(self).wf(),
            final(self).config == old(self).config,
            map.tiles@ == final(self).grid.tiles@,
            map.width == final(self).grid.width,
            map.height == final(self).grid.height,
            exists|layout: Layout|
                #![trigger laid_out(&old(self).grid, &final(self).grid, old(self).config, layout)]
                laid_out(&old(self).grid, &final(self).grid, old(self).config, layout) && map.rooms@
                    == rooms_of(layout.interiors@, layout.interiors@.len() as int) && (old(
                    self,
                ).blank() && old(self).config.building_margin >= 1 ==> walkable(
                    &final(self).grid,
                    layout,
                ) && open_to_edge(&final(self).grid, layout)),
    {
        let layout = self.generate_layout();
        let rooms = flatten_rooms(&layout.interiors);
        let tiles = copy_tiles(&self.grid.tiles);
        let map = GameMap::assemble(tiles, rooms, self.grid.width, self.grid.height);
        assert(laid_out(&old(self).grid, &self.grid, old(self).config, layout));
        map
    }
}

impl GridMap for BuildingsGenerator {
    open spec fn extents(&self) -> Point {
        Point { x: self.grid.width, y: self.grid.height }
    }

    fn dimensions(&self) -> (dims: Point) {
        Point::new(self.grid.width, self.grid.height)
    }
}

} // verus!
