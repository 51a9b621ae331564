//! The rectangle packer: places building footprints that keep a margin
//! from one another and stamps their outlines into the grid.
//!
//! One candidate is rolled per requested building. A candidate that comes
//! too close to a footprint already placed is dropped, so fewer buildings
//! than requested may come out.

use vstd::prelude::*;
use bracket_lib::prelude::RandomNumberGenerator;
use crate::config::{GenerationError, GeneratorConfig};
use crate::geometry::{orderly, Point, Rect};
use crate::grid::{
    column_cells, lemma_fits_stampable, lemma_walled_over_keeps, lemma_walled_over_twice, opening,
    row_cells, TileGrid, TileType,
};
use crate::random::range;

verus! {

/// The rectangle grown by `size` cells on every side.
pub open spec fn expanded(rect: Rect, size: int) -> Rect {
    Rect {
        x1: (rect.x1 - size) as i32,
        x2: (rect.x2 + size) as i32,
        y1: (rect.y1 - size) as i32,
        y2: (rect.y2 + size) as i32,
    }
}

/// `a` stays clear of `b` grown by the margin.
pub open spec fn kept_apart(a: Rect, b: Rect, margin: int) -> bool {
    !a.intersects(&expanded(b, margin))
}

/// No two footprints of the list come within the margin of one another.
pub open spec fn all_apart(buildings: Seq<Rect>, margin: int) -> bool {
    forall|i: int, j: int|
        0 <= i < buildings.len() && 0 <= j < buildings.len() && i != j ==> kept_apart(
            #[trigger] buildings[i],
            #[trigger] buildings[j],
            margin,
        )
}

/// The four walls of a rectangle, cell by cell: top, bottom, left, right.
pub open spec fn outline_cells(r: Rect) -> Seq<Point> {
    row_cells(r.x1 as int, r.x2 as int, r.y1 as int) + row_cells(
        r.x1 as int,
        r.x2 as int,
        r.y2 as int,
    ) + column_cells(r.y1 as int, r.y2 as int, r.x1 as int) + column_cells(
        r.y1 as int,
        r.y2 as int,
        r.x2 as int,
    )
}

/// The outlines of the first `upto` footprints, one after the other.
pub open spec fn outlines(buildings: Seq<Rect>, upto: int) -> Seq<Point>
    decreases upto,
{
    if upto <= 0 {
        Seq::empty()
    } else {
        outlines(buildings, upto - 1) + outline_cells(buildings[upto - 1])
    }
}

/// A footprint as the packer rolls them: sides drawn from the configured
/// range, and at least one free cell between it and the grid's edge.
pub open spec fn rolled(r: Rect, width: int, height: int, config: GeneratorConfig) -> bool {
    &&& config.building_min_size <= r.x2 - r.x1 < config.building_max_size
    &&& config.building_min_size <= r.y2 - r.y1 < config.building_max_size
    &&& 1 <= r.x1 && r.x2 <= width - 2
    &&& 1 <= r.y1 && r.y2 <= height - 2
}

/// A placement is attempted and a footprint of any side fits the grid, so
/// that the first candidate is placed.
pub open spec fn roomy(width: int, height: int, config: GeneratorConfig) -> bool {
    config.max_buildings >= 1 && width - config.building_max_size > 1 && height
        - config.building_max_size > 1
}

/// No placement is attempted, or not even the smallest footprint fits the
/// grid.
pub open spec fn tight(width: int, height: int, config: GeneratorConfig) -> bool {
    config.max_buildings <= 0 || width - config.building_min_size <= 2 || height
        - config.building_min_size <= 2
}

/// Keeping clear by a margin that is not negative goes both ways.
pub proof fn lemma_kept_apart_symmetric(a: Rect, b: Rect, margin: int)
    requires
        0 <= margin,
        i32::MIN <= a.x1 - margin && a.x2 + margin <= i32::MAX,
        i32::MIN <= a.y1 - margin && a.y2 + margin <= i32::MAX,
        i32::MIN <= b.x1 - margin && b.x2 + margin <= i32::MAX,
        i32::MIN <= b.y1 - margin && b.y2 + margin <= i32::MAX,
    ensures
        kept_apart(a, b, margin) == kept_apart(b, a, margin),
{
    let ga = expanded(a, margin);
    let gb = expanded(b, margin);
    assert(ga.x1 == a.x1 - margin && ga.x2 == a.x2 + margin);
    assert(ga.y1 == a.y1 - margin && ga.y2 == a.y2 + margin);
    assert(gb.x1 == b.x1 - margin && gb.x2 == b.x2 + margin);
    assert(gb.y1 == b.y1 - margin && gb.y2 == b.y2 + margin);
}

/// Footprints that keep a margin do not intersect.
pub proof fn lemma_kept_apart_disjoint(a: Rect, b: Rect, margin: int)
    requires
        0 <= margin,
        i32::MIN <= b.x1 - margin && b.x2 + margin <= i32::MAX,
        i32::MIN <= b.y1 - margin && b.y2 + margin <= i32::MAX,
        kept_apart(a, b, margin),
    ensures
        !a.intersects(&b),
{
    let gb = expanded(b, margin);
    assert(gb.x1 == b.x1 - margin && gb.x2 == b.x2 + margin);
    assert(gb.y1 == b.y1 - margin && gb.y2 == b.y2 + margin);
}

/// The rectangle grown by `size` cells on every side.
pub fn expand_rect(rect: Rect, size: i32) -> (grown: Rect)
    requires
        i32::MIN <= rect.x1 - size <= i32::MAX,
        i32::MIN <= rect.x2 + size <= i32::MAX,
        i32::MIN <= rect.y1 - size <= i32::MAX,
        i32::MIN <= rect.y2 + size <= i32::MAX,
    ensures
        grown == expanded(rect, size as int),
{
    Rect { x1: rect.x1 - size, x2: rect.x2 + size, y1: rect.y1 - size, y2: rect.y2 + size }
}

/// The bound, itself excluded, on where a footprint of the given side may
/// start along a grid extent, if it fits at all: the footprint starts at
/// cell one or later and leaves a free cell at the far edge.
pub fn placement_bound(extent: i32, side: i32) -> (bound: Option<i32>)
    requires
        0 <= side,
    ensures
        bound.is_some() == (extent - side - 1 > 1),
        bound matches Some(b) ==> b == extent - side - 1,
{
    let bound: i64 = (extent as i64) - (side as i64) - 1;
    if bound > 1 {
        Some(bound as i32)
    } else {
        None
    }
}

/// Rolls a candidate footprint: its sides, then its place in a grid of the
/// given extents. `None` when a footprint of the rolled sides does not fit.
pub fn roll_room(
    rng: &mut RandomNumberGenerator,
    width: i32,
    height: i32,
    config: &GeneratorConfig,
) -> (candidate: Option<Rect>)
    requires
        config.valid(),
    ensures
        candidate matches Some(r) ==> rolled(r, width as int, height as int, *config),
        width - config.building_max_size > 1 && height - config.building_max_size > 1
            ==> candidate.is_some(),
        width - config.building_min_size <= 2 || height - config.building_min_size <= 2
            ==> candidate.is_none(),
{
    let w = range(rng, config.building_min_size, config.building_max_size);
    let h = range(rng, config.building_min_size, config.building_max_size);
    match placement_bound(width, w) {
        Some(x_bound) => match placement_bound(height, h) {
            Some(y_bound) => {
                let x = range(rng, 1, x_bound);
                let y = range(rng, 1, y_bound);
                Some(Rect::with_size(x, y, w, h))
            },
            None => None,
        },
        None => None,
    }
}

/// Whether the candidate stays clear of every footprint placed so far.
pub fn is_clear(candidate: &Rect, buildings: &Vec<Rect>, margin: i32) -> (clear: bool)
    requires
        forall|k: int|
            0 <= k < buildings@.len() ==> {
                &&& i32::MIN <= (#[trigger] buildings@[k]).x1 - margin <= i32::MAX
                &&& i32::MIN <= buildings@[k].x2 + margin <= i32::MAX
                &&& i32::MIN <= buildings@[k].y1 - margin <= i32::MAX
                &&& i32::MIN <= buildings@[k].y2 + margin <= i32::MAX
            },
    ensures
        clear == forall|k: int|
            0 <= k < buildings@.len() ==> kept_apart(
                *candidate,
                #[trigger] buildings@[k],
                margin as int,
            ),
{
    let mut ok = true;
    let mut k: usize = 0;
    while k < buildings.len()
        invariant
            0 <= k <= buildings@.len(),
            forall|c: int|
                0 <= c < buildings@.len() ==> {
                    &&& i32::MIN <= (#[trigger] buildings@[c]).x1 - margin <= i32::MAX
                    &&& i32::MIN <= buildings@[c].x2 + margin <= i32::MAX
                    &&& i32::MIN <= buildings@[c].y1 - margin <= i32::MAX
                    &&& i32::MIN <= buildings@[c].y2 + margin <= i32::MAX
                },
            ok == forall|c: int|
                0 <= c < k ==> kept_apart(*candidate, #[trigger] buildings@[c], margin as int),
        decreases buildings@.len() - k,
    {
        let grown = expand_rect(buildings[k], margin);
        if candidate.intersect(&grown) {
            ok = false;
        }
        k = k + 1;
    }
    ok
}

/// Raises the four walls of a footprint, wherever they hold no door and no
/// window: an opening on them stays.
pub fn place_building(grid: &mut TileGrid, building: &Rect)
    ensures
        final(grid).same_shape(old(grid)),
        final(grid).tiles@ == old(grid).walled_over(outline_cells(*building)),
        final(grid).keeps_openings(old(grid)),
        final(grid).walled_from(old(grid)),
{
    let ghost top = row_cells(building.x1 as int, building.x2 as int, building.y1 as int);
    let ghost bottom = row_cells(building.x1 as int, building.x2 as int, building.y2 as int);
    let ghost left = column_cells(building.y1 as int, building.y2 as int, building.x1 as int);
    let ghost right = column_cells(building.y1 as int, building.y2 as int, building.x2 as int);
    grid.wall_horizontal_line(building.x1, building.x2, building.y1);
    let ghost one = *grid;
    grid.wall_horizontal_line(building.x1, building.x2, building.y2);
    let ghost two = *grid;
    grid.wall_vertical_line(building.y1, building.y2, building.x1);
    let ghost three = *grid;
    grid.wall_vertical_line(building.y1, building.y2, building.x2);
    proof {
        lemma_walled_over_twice(old(grid), &one, top, bottom);
        lemma_walled_over_twice(old(grid), &two, top + bottom, left);
        lemma_walled_over_twice(old(grid), &three, top + bottom + left, right);
        lemma_walled_over_keeps(old(grid), grid, outline_cells(*building));
    }
}

/// What raising outlines does to the grid: tiles only turn into walls,
/// only on the outlines, and no opening is closed; every outline that fits
/// the grid holds wall, door or window throughout, and is walled where the
/// grid held no opening.
pub proof fn lemma_outlines_effects(
    before: &TileGrid,
    after: &TileGrid,
    buildings: Seq<Rect>,
    upto: int,
)
    requires
        0 <= upto <= buildings.len(),
        orderly(buildings),
        after.same_shape(before),
        after.tiles@ == before.walled_over(outlines(buildings, upto)),
    ensures
        after.walled_from(before),
        after.keeps_openings(before),
        forall|i: int|
            0 <= i < after.tiles@.len() && #[trigger] after.tiles@[i] != before.tiles@[i]
                ==> exists|k: int| 0 <= k < upto && before.on_outline(#[trigger] buildings[k], i),
        forall|k: int|
            0 <= k < upto && before.fits(#[trigger] buildings[k]) ==> after.bordered(buildings[k]),
        before.pristine() ==> forall|k: int|
            0 <= k < upto && before.fits(#[trigger] buildings[k]) ==> after.walled(buildings[k]),
{
    let cells = outlines(buildings, upto);
    assert forall|i: int|
        0 <= i < after.tiles@.len() && #[trigger] after.tiles@[i] != before.tiles@[i] implies exists|
        k: int,
    | 0 <= k < upto && before.on_outline(#[trigger] buildings[k], i) by {
        assert(before.hits(cells, i));
        let c = choose|c: int| 0 <= c < cells.len() && #[trigger] before.flat(cells[c]) == i;
        lemma_outlines_member(buildings, upto, c);
        let k = choose|k: int|
            0 <= k < upto && (#[trigger] buildings[k]).on_border(
                cells[c].x as int,
                cells[c].y as int,
            );
        assert(buildings[k].on_border(cells[c].x as int, cells[c].y as int));
    }
    assert forall|k: int|
        0 <= k < upto && before.fits(#[trigger] buildings[k]) implies after.bordered(
        buildings[k],
    ) && (before.pristine() ==> after.walled(buildings[k])) by {
        let r = buildings[k];
        assert forall|x: int, y: int| #[trigger] r.on_border(x, y) implies {
            let p = Point { x: x as i32, y: y as i32 };
            &&& after.stampable(p)
            &&& after.at(p) == TileType::Wall || (opening(after.at(p)) && !before.pristine())
        } by {
            let p = Point { x: x as i32, y: y as i32 };
            lemma_fits_stampable(before, r, x, y);
            lemma_outline_has(r, x, y);
            let c = choose|c: int| 0 <= c < outline_cells(r).len() && outline_cells(r)[c] == p;
            lemma_outlines_holds(buildings, upto, k, c);
            let at = choose|at: int| 0 <= at < cells.len() && cells[at] == outline_cells(r)[c];
            assert(before.flat(cells[at]) == before.flat(p));
            assert(before.hits(cells, before.flat(p)));
            assert(!opening(before.tiles@[before.flat(p)]) ==> after.tiles@[before.flat(p)]
                == TileType::Wall);
        }
        assert(after.bordered(r));
        if before.pristine() {
            assert(after.walled(r));
        }
    }
}

/// Every cell on a wall of a rectangle is one of its outline cells.
pub proof fn lemma_outline_has(r: Rect, x: int, y: int)
    requires
        r.x1 <= r.x2,
        r.y1 <= r.y2,
        r.on_border(x, y),
    ensures
        exists|c: int|
            0 <= c < outline_cells(r).len() && outline_cells(r)[c] == (Point {
                x: x as i32,
                y: y as i32,
            }),
{
    let top = row_cells(r.x1 as int, r.x2 as int, r.y1 as int);
    let bottom = row_cells(r.x1 as int, r.x2 as int, r.y2 as int);
    let left = column_cells(r.y1 as int, r.y2 as int, r.x1 as int);
    let right = column_cells(r.y1 as int, r.y2 as int, r.x2 as int);
    let p = Point { x: x as i32, y: y as i32 };
    let cells = outline_cells(r);
    if y == r.y1 {
        assert(cells[x - r.x1] == p);
    } else if y == r.y2 {
        assert(cells[top.len() + (x - r.x1)] == p);
    } else if x == r.x1 {
        assert(cells[top.len() + bottom.len() + (y - r.y1)] == p);
    } else {
        assert(cells[top.len() + bottom.len() + left.len() + (y - r.y1)] == p);
    }
}

/// Every outline cell of a rectangle lies on one of its walls.
pub proof fn lemma_outline_cell(r: Rect, c: int)
    requires
        0 <= c < outline_cells(r).len(),
        r.x1 <= r.x2,
        r.y1 <= r.y2,
    ensures
        r.on_border(outline_cells(r)[c].x as int, outline_cells(r)[c].y as int),
{
}

/// Every cell of the joined outlines lies on a wall of one of the
/// footprints.
pub proof fn lemma_outlines_member(buildings: Seq<Rect>, upto: int, c: int)
    requires
        0 <= upto <= buildings.len(),
        orderly(buildings),
        0 <= c < outlines(buildings, upto).len(),
    ensures
        exists|k: int|
            0 <= k < upto && (#[trigger] buildings[k]).on_border(
                outlines(buildings, upto)[c].x as int,
                outlines(buildings, upto)[c].y as int,
            ),
    decreases upto,
{
    let before = outlines(buildings, upto - 1);
    if c < before.len() {
        lemma_outlines_member(buildings, upto - 1, c);
        let k = choose|k: int|
            0 <= k < upto - 1 && (#[trigger] buildings[k]).on_border(
                before[c].x as int,
                before[c].y as int,
            );
        assert(buildings[k].on_border(before[c].x as int, before[c].y as int));
    } else {
        lemma_outline_cell(buildings[upto - 1], c - before.len());
        assert(buildings[upto - 1].on_border(
            outlines(buildings, upto)[c].x as int,
            outlines(buildings, upto)[c].y as int,
        ));
    }
}

/// The joined outlines hold every outline cell of every footprint.
pub proof fn lemma_outlines_holds(buildings: Seq<Rect>, upto: int, k: int, c: int)
    requires
        0 <= k < upto <= buildings.len(),
        0 <= c < outline_cells(buildings[k]).len(),
    ensures
        exists|at: int|
            0 <= at < outlines(buildings, upto).len() && outlines(buildings, upto)[at]
                == outline_cells(buildings[k])[c],
    decreases upto,
{
    let before = outlines(buildings, upto - 1);
    if k < upto - 1 {
        lemma_outlines_holds(buildings, upto - 1, k, c);
        let at = choose|at: int|
            0 <= at < before.len() && before[at] == outline_cells(buildings[k])[c];
        assert(outlines(buildings, upto)[at] == before[at]);
    } else {
        assert(outlines(buildings, upto)[before.len() + c] == outline_cells(buildings[k])[c]);
    }
}

/// Two lists that agree on their first `upto` footprints have the same
/// outlines over them.
pub proof fn lemma_outlines_same(a: Seq<Rect>, b: Seq<Rect>, upto: int)
    requires
        0 <= upto <= a.len(),
        upto <= b.len(),
        forall|k: int| 0 <= k < upto ==> a[k] == b[k],
    ensures
        outlines(a, upto) == outlines(b, upto),
    decreases upto,
{
    if upto > 0 {
        lemma_outlines_same(a, b, upto - 1);
    }
}

/// Whether fewer buildings were placed than were asked for.
pub fn placement_shortfall(requested: i32, placed: usize) -> (shortfall: Option<GenerationError>)
    ensures
        shortfall == if placed < requested {
            Some(GenerationError::PlacementExhausted)
        } else {
            None
        },
{
    if requested > 0 && placed < requested as usize {
        Some(GenerationError::PlacementExhausted)
    } else {
        None
    }
}

/// Places the candidate if and only if it stays clear, by the margin, of
/// every footprint placed so far: its walls are raised, but for the cells
/// that hold a door or a window, and it joins the list. A candidate that
/// comes too close changes nothing.
pub fn try_place(
    grid: &mut TileGrid,
    buildings: &mut Vec<Rect>,
    candidate: Rect,
    margin: i32,
) -> (placed: bool)
    requires
        forall|k: int|
            0 <= k < old(buildings)@.len() ==> {
                &&& i32::MIN <= (#[trigger] old(buildings)@[k]).x1 - margin <= i32::MAX
                &&& i32::MIN <= old(buildings)@[k].x2 + margin <= i32::MAX
                &&& i32::MIN <= old(buildings)@[k].y1 - margin <= i32::MAX
                &&& i32::MIN <= old(buildings)@[k].y2 + margin <= i32::MAX
            },
    ensures
        placed == forall|k: int|
            0 <= k < old(buildings)@.len() ==> kept_apart(
                candidate,
                #[trigger] old(buildings)@[k],
                margin as int,
            ),
        final(grid).same_shape(old(grid)),
        final(grid).keeps_openings(old(grid)),
        placed ==> final(buildings)@ == old(buildings)@.push(candidate) && final(grid).tiles@
            == old(grid).walled_over(outline_cells(candidate)),
        !placed ==> final(buildings)@ == old(buildings)@ && final(grid).tiles@ == old(
            grid,
        ).tiles@,
{
    if is_clear(&candidate, buildings, margin) {
        place_building(grid, &candidate);
        buildings.push(candidate);
        true
    } else {
        false
    }
}

/// Places footprints. One candidate is rolled per requested building; it
/// is accepted if and only if it stays clear, by the margin, of every
/// footprint accepted before it, and the walls of an accepted footprint
/// are raised at once.
///
/// No two footprints of the result come within the margin of one another,
/// and the grid is the old grid with walls raised on their outlines,
/// wherever no door and no window was.
pub fn generate_buildings(
    grid: &mut TileGrid,
    rng: &mut RandomNumberGenerator,
    config: &GeneratorConfig,
) -> (buildings: Vec<Rect>)
    requires
        config.valid(),
        old(grid).width + config.building_margin <= i32::MAX,
        old(grid).height + config.building_margin <= i32::MAX,
    ensures
        buildings@.len() <= config.max_buildings,
        forall|k: int|
            0 <= k < buildings@.len() ==> rolled(
                #[trigger] buildings@[k],
                old(grid).width as int,
                old(grid).height as int,
                *config,
            ),
        all_apart(buildings@, config.building_margin as int),
        final(grid).same_shape(old(grid)),
        final(grid).tiles@ == old(grid).walled_over(outlines(buildings@, buildings@.len() as int)),
        final(grid).keeps_openings(old(grid)),
        roomy(old(grid).width as int, old(grid).height as int, *config) ==> buildings@.len() >= 1,
        tight(old(grid).width as int, old(grid).height as int, *config) ==> buildings@.len() == 0,
{
    let mut buildings: Vec<Rect> = Vec::new();
    let width = grid.width;
    let height = grid.height;
    let margin = config.building_margin;
    let mut attempt: i32 = 0;
    assert(grid.tiles@ =~= old(grid).walled_over(outlines(buildings@, 0)));
    while attempt < config.max_buildings
        invariant
            config.valid(),
            width == old(grid).width,
            height == old(grid).height,
            margin == config.building_margin,
            width + margin <= i32::MAX,
            height + margin <= i32::MAX,
            0 <= attempt <= config.max_buildings,
            buildings@.len() <= attempt,
            forall|k: int|
                0 <= k < buildings@.len() ==> rolled(
                    #[trigger] buildings@[k],
                    width as int,
                    height as int,
                    *config,
                ),
            all_apart(buildings@, margin as int),
            grid.same_shape(old(grid)),
            grid.tiles@ == old(grid).walled_over(outlines(buildings@, buildings@.len() as int)),
            attempt >= 1 && roomy(width as int, height as int, *config) ==> buildings@.len() >= 1,
            tight(width as int, height as int, *config) ==> buildings@.len() == 0,
        decreases config.max_buildings - attempt,
    {
        match roll_room(rng, width, height, config) {
            Some(candidate) => {
                let ghost placed = buildings@;
                let ghost prior = *grid;
                if try_place(grid, &mut buildings, candidate, margin) {
                    proof {
                        let count = placed.len() as int;
                        lemma_outlines_same(placed, buildings@, count);
                        lemma_walled_over_twice(
                            old(grid),
                            &prior,
                            outlines(placed, count),
                            outline_cells(candidate),
                        );
                        assert forall|i: int, j: int|
                            0 <= i < buildings@.len() && 0 <= j < buildings@.len() && i
                                != j implies kept_apart(
                            #[trigger] buildings@[i],
                            #[trigger] buildings@[j],
                            margin as int,
                        ) by {
                            if i == count {
                                assert(kept_apart(candidate, placed[j], margin as int));
                            } else if j == count {
                                assert(kept_apart(candidate, placed[i], margin as int));
                                lemma_kept_apart_symmetric(candidate, placed[i], margin as int);
                            } else {
                                assert(kept_apart(placed[i], placed[j], margin as int));
                            }
                        }
                    }
                }
            },
            None => {},
        }
        attempt = attempt + 1;
    }
    proof {
        lemma_walled_over_keeps(old(grid), grid, outlines(buildings@, buildings@.len() as int));
    }
    buildings
}

} // verus!
