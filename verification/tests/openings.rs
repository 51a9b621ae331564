use bracket_lib::prelude::RandomNumberGenerator;
use rustrl::adjacency::{scan_for_neighbors, RoomId};
use rustrl::config::{GeneratorConfig, PARTITION_ROUNDS};
use rustrl::connectivity::{try_extra_door, try_window};
use rustrl::generator::{generate_interior, BuildingsGenerator, Interior};
use rustrl::geometry::{Point, Rect};
use rustrl::grid::{TileGrid, TileType};
use rustrl::packer::{generate_buildings, place_building, try_place};
use rustrl::partition::{apply_split, is_cramped, is_too_small, partition, split_room};

fn p(x: i32, y: i32) -> Point {
    Point { x, y }
}

fn r(x1: i32, y1: i32, x2: i32, y2: i32) -> Rect {
    Rect { x1, x2, y1, y2 }
}

fn at(grid: &TileGrid, x: i32, y: i32) -> TileType {
    grid.tiles[(y * grid.width + x) as usize]
}

fn put(grid: &mut TileGrid, x: i32, y: i32, tile: TileType) {
    let width = grid.width;
    grid.tiles[(y * width + x) as usize] = tile;
}

fn is_opening(tile: TileType) -> bool {
    tile == TileType::Door || tile == TileType::Window
}

/// A grid with a door on every cell where `x + 2 * y` is a multiple of
/// seven and a window where it leaves the rest three.
fn speckled(width: i32, height: i32) -> TileGrid {
    let mut grid = TileGrid::new(width, height, TileType::Floor);
    for y in 0..height {
        for x in 0..width {
            match (x + 2 * y) % 7 {
                0 => put(&mut grid, x, y, TileType::Door),
                3 => put(&mut grid, x, y, TileType::Window),
                _ => {},
            }
        }
    }
    grid
}

fn openings_kept(before: &TileGrid, after: &TileGrid) {
    assert_eq!(before.tiles.len(), after.tiles.len());
    for i in 0..before.tiles.len() {
        if is_opening(before.tiles[i]) {
            assert_eq!(after.tiles[i], before.tiles[i]);
        } else {
            assert!(after.tiles[i] == before.tiles[i] || after.tiles[i] == TileType::Wall);
        }
    }
}

/// Every opening of `before` is still there, and whatever else changed
/// became a wall, or was a wall and became an opening.
fn openings_kept_or_opened(before: &TileGrid, after: &TileGrid) {
    assert_eq!(before.tiles.len(), after.tiles.len());
    for i in 0..before.tiles.len() {
        if is_opening(before.tiles[i]) {
            assert_eq!(after.tiles[i], before.tiles[i]);
        } else if after.tiles[i] != before.tiles[i] {
            assert!(after.tiles[i] != TileType::Floor);
        }
    }
}

fn three_rooms() -> (TileGrid, Vec<Rect>, Rect) {
    let building = r(1, 1, 21, 11);
    let rooms = vec![r(1, 1, 11, 11), r(11, 1, 21, 6), r(11, 6, 21, 11)];
    let mut grid = TileGrid::new(24, 14, TileType::Floor);
    for room in rooms.iter() {
        place_building(&mut grid, room);
    }
    (grid, rooms, building)
}

#[test]
fn a_wall_is_raised_only_where_no_opening_is() {
    let mut grid = TileGrid::new(8, 6, TileType::Floor);
    put(&mut grid, 2, 1, TileType::Door);
    put(&mut grid, 3, 1, TileType::Window);
    put(&mut grid, 4, 1, TileType::Wall);
    assert_eq!(at(&grid, 2, 1), TileType::Door);
    grid.wall_point(p(2, 1));
    grid.wall_point(p(3, 1));
    grid.wall_point(p(4, 1));
    grid.wall_point(p(5, 1));
    grid.wall_point(p(0, 0));
    grid.wall_point(p(-1, 2));
    grid.wall_point(p(8, 2));
    grid.wall_point(p(2, 6));
    assert_eq!(at(&grid, 2, 1), TileType::Door);
    assert_eq!(at(&grid, 3, 1), TileType::Window);
    assert_eq!(at(&grid, 4, 1), TileType::Wall);
    assert_eq!(at(&grid, 5, 1), TileType::Wall);
    assert_eq!(at(&grid, 0, 0), TileType::Wall);
    assert_eq!(at(&grid, 7, 1), TileType::Wall);
    assert_eq!(at(&grid, 0, 3), TileType::Wall);
    assert_eq!(grid.tiles.iter().filter(|t| **t == TileType::Wall).count(), 5);
    assert_eq!(grid.tiles.iter().filter(|t| **t == TileType::Floor).count(), 41);
}

#[test]
fn walls_along_a_line_step_over_openings() {
    let mut grid = TileGrid::new(8, 6, TileType::Floor);
    put(&mut grid, 3, 2, TileType::Door);
    put(&mut grid, 5, 4, TileType::Window);
    grid.wall_horizontal_line(6, 1, 2);
    grid.wall_vertical_line(1, 5, 5);
    grid.wall_points(&vec![p(0, 0), p(3, 2), p(7, 5), p(9, 9)]);
    for x in 1..=6 {
        let want = if x == 3 { TileType::Door } else { TileType::Wall };
        assert_eq!(at(&grid, x, 2), want);
    }
    for y in 1..=5 {
        let want = if y == 4 { TileType::Window } else { TileType::Wall };
        assert_eq!(at(&grid, 5, y), want);
    }
    assert_eq!(at(&grid, 0, 0), TileType::Wall);
    assert_eq!(at(&grid, 7, 5), TileType::Wall);
    assert_eq!(at(&grid, 0, 2), TileType::Floor);
    assert_eq!(at(&grid, 7, 2), TileType::Floor);
    assert_eq!(grid.tiles.iter().filter(|t| **t == TileType::Wall).count(), 10);
}

#[test]
fn a_cut_leaves_a_door_on_its_line() {
    let room = r(1, 1, 11, 9);
    let mut grid = TileGrid::new(14, 12, TileType::Floor);
    place_building(&mut grid, &room);
    put(&mut grid, 6, 1, TileType::Door);
    put(&mut grid, 6, 4, TileType::Door);
    put(&mut grid, 6, 9, TileType::Window);
    let before = TileGrid { tiles: grid.tiles.clone(), width: grid.width, height: grid.height };
    let (left, right) = apply_split(&mut grid, room, true, 6);
    assert_eq!(left, r(1, 1, 6, 9));
    assert_eq!(right, r(6, 1, 11, 9));
    assert_eq!(at(&grid, 6, 1), TileType::Door);
    assert_eq!(at(&grid, 6, 4), TileType::Door);
    assert_eq!(at(&grid, 6, 9), TileType::Window);
    for y in [2, 3, 5, 6, 7, 8] {
        assert_eq!(at(&grid, 6, y), TileType::Wall);
    }
    for i in 0..grid.tiles.len() {
        let x = (i as i32) % 14;
        if x != 6 {
            assert_eq!(grid.tiles[i], before.tiles[i]);
        }
    }
    let mut grid = TileGrid::new(14, 12, TileType::Floor);
    put(&mut grid, 4, 5, TileType::Window);
    let (top, bottom) = apply_split(&mut grid, room, false, 5);
    assert_eq!(top, r(1, 1, 11, 5));
    assert_eq!(bottom, r(1, 5, 11, 9));
    for x in 1..=11 {
        let want = if x == 4 { TileType::Window } else { TileType::Wall };
        assert_eq!(at(&grid, x, 5), want);
    }
    assert_eq!(grid.tiles.iter().filter(|t| **t == TileType::Wall).count(), 10);
}

#[test]
fn a_drawn_cut_closes_no_opening() {
    for seed in 0..60u64 {
        let mut rng = RandomNumberGenerator::seeded(seed);
        let mut grid = speckled(30, 24);
        let before = speckled(30, 24);
        let room = r(2, 3, 26, 20);
        let (a, b) = split_room(&mut grid, &mut rng, room);
        openings_kept(&before, &grid);
        let vertical = a.x2 == b.x1 && a.y1 == b.y1;
        let mut walls = 0;
        for i in 0..grid.tiles.len() {
            if grid.tiles[i] != before.tiles[i] {
                let x = (i as i32) % 30;
                let y = (i as i32) / 30;
                if vertical {
                    assert_eq!(x, a.x2);
                    assert!(room.y1 <= y && y <= room.y2);
                } else {
                    assert_eq!(y, a.y2);
                    assert!(room.x1 <= x && x <= room.x2);
                }
                walls += 1;
            }
        }
        assert!(walls > 0);
        let cells: Vec<(i32, i32)> = if vertical {
            (room.y1..=room.y2).map(|y| (a.x2, y)).collect()
        } else {
            (room.x1..=room.x2).map(|x| (x, a.y2)).collect()
        };
        for (x, y) in cells {
            assert_ne!(at(&grid, x, y), TileType::Floor);
        }
    }
}

#[test]
fn partitioning_closes_no_opening() {
    for seed in 0..80u64 {
        let mut rng = RandomNumberGenerator::seeded(seed);
        let mut grid = speckled(50, 40);
        let before = speckled(50, 40);
        let building = r(3, 4, 43, 34);
        let rooms = partition(&mut grid, &mut rng, building, 4);
        assert!(rooms.len() >= 2);
        openings_kept(&before, &grid);
        for i in 0..grid.tiles.len() {
            if grid.tiles[i] != before.tiles[i] {
                let x = (i as i32) % 50;
                let y = (i as i32) / 50;
                assert!(rooms.iter().any(|room| {
                    room.x1 <= x && x <= room.x2 && room.y1 <= y && y <= room.y2 && (x == room.x1
                        || x == room.x2 || y == room.y1 || y == room.y2)
                }));
            }
        }
    }
}

#[test]
fn walls_of_rooms_hold_wall_or_opening_where_the_footprint_did() {
    for seed in 0..40u64 {
        let mut rng = RandomNumberGenerator::seeded(seed);
        let mut grid = speckled(50, 40);
        let building = r(3, 4, 43, 34);
        place_building(&mut grid, &building);
        let rooms = partition(&mut grid, &mut rng, building, 4);
        for room in rooms.iter() {
            for y in room.y1..=room.y2 {
                for x in room.x1..=room.x2 {
                    if x == room.x1 || x == room.x2 || y == room.y1 || y == room.y2 {
                        assert_ne!(at(&grid, x, y), TileType::Floor);
                    }
                }
            }
        }
    }
}

#[test]
fn fewer_rooms_only_with_a_small_one() {
    let mut short = 0;
    let mut full = 0;
    for seed in 0..120u64 {
        for (building, min) in [(r(3, 4, 43, 34), 4), (r(0, 0, 17, 13), 6), (r(2, 2, 24, 20), 8)] {
            let mut rng = RandomNumberGenerator::seeded(seed);
            let mut grid = TileGrid::new(50, 40, TileType::Floor);
            assert!(!is_cramped(building, min));
            let rooms = partition(&mut grid, &mut rng, building, min);
            assert!(rooms.len() >= 2 && rooms.len() <= 2 + PARTITION_ROUNDS);
            if rooms.len() < 2 + PARTITION_ROUNDS {
                assert!(rooms.iter().any(|room| is_too_small(*room, min)));
                short += 1;
            } else {
                full += 1;
            }
        }
    }
    assert!(short > 0);
    assert!(full > 0);
}

#[test]
fn an_extra_door_needs_the_whole_wall() {
    let (mut grid, rooms, building) = three_rooms();
    let graph = scan_for_neighbors(&rooms, building);
    let wall = graph.rooms[1][1].shared_wall.clone();
    assert_eq!(wall.len(), 9);
    assert_eq!(wall[4], p(16, 6));
    let mut before = grid.tiles.clone();
    assert!(try_extra_door(&mut grid, &graph, RoomId::Interior(1), 1, 4));
    before[(6 * 24 + 16) as usize] = TileType::Door;
    assert_eq!(grid.tiles, before);
    assert!(!try_extra_door(&mut grid, &graph, RoomId::Interior(1), 1, 2));
    assert!(!try_extra_door(&mut grid, &graph, RoomId::Interior(2), 1, 7));
    assert!(!try_extra_door(&mut grid, &graph, RoomId::Interior(1), 1, 4));
    assert_eq!(grid.tiles, before);
    let outer = graph.exterior[0].shared_wall.clone();
    assert_eq!(outer[0], p(1, 2));
    assert!(try_extra_door(&mut grid, &graph, RoomId::Exterior, 0, 0));
    before[(2 * 24 + 1) as usize] = TileType::Door;
    assert_eq!(grid.tiles, before);
    assert!(!try_extra_door(&mut grid, &graph, RoomId::Interior(0), 2, 5));
    assert_eq!(grid.tiles, before);
}

#[test]
fn an_extra_door_is_kept_off_a_wall_with_a_window() {
    let (mut grid, rooms, building) = three_rooms();
    let graph = scan_for_neighbors(&rooms, building);
    put(&mut grid, 11, 3, TileType::Window);
    let before = grid.tiles.clone();
    assert!(!try_extra_door(&mut grid, &graph, RoomId::Interior(0), 0, 0));
    assert!(!try_extra_door(&mut grid, &graph, RoomId::Interior(1), 0, 3));
    assert_eq!(grid.tiles, before);
    put(&mut grid, 11, 3, TileType::Floor);
    let before = grid.tiles.clone();
    assert!(!try_extra_door(&mut grid, &graph, RoomId::Interior(0), 0, 0));
    assert_eq!(grid.tiles, before);
}

#[test]
fn a_window_needs_a_wall_at_its_cell() {
    let (mut grid, rooms, building) = three_rooms();
    let graph = scan_for_neighbors(&rooms, building);
    let outer = graph.exterior[1].shared_wall.clone();
    let cell = outer[3];
    let mut before = grid.tiles.clone();
    assert!(try_window(&mut grid, &graph, 1, 3));
    before[(cell.y * 24 + cell.x) as usize] = TileType::Window;
    assert_eq!(grid.tiles, before);
    assert!(!try_window(&mut grid, &graph, 1, 3));
    assert_eq!(grid.tiles, before);
    let other = outer[5];
    put(&mut grid, other.x, other.y, TileType::Door);
    let before = grid.tiles.clone();
    assert!(!try_window(&mut grid, &graph, 1, 5));
    assert_eq!(grid.tiles, before);
    assert!(try_window(&mut grid, &graph, 1, 4));
    assert_eq!(at(&grid, outer[4].x, outer[4].y), TileType::Window);
    assert_eq!(at(&grid, other.x, other.y), TileType::Door);
}

#[test]
fn footprints_close_no_opening() {
    let mut grid = speckled(20, 16);
    let before = speckled(20, 16);
    let building = r(2, 2, 12, 10);
    place_building(&mut grid, &building);
    openings_kept(&before, &grid);
    for y in 0..16 {
        for x in 0..20 {
            let on_wall = (x == 2 || x == 12) && (2..=10).contains(&y)
                || (y == 2 || y == 10) && (2..=12).contains(&x);
            if on_wall && !is_opening(at(&before, x, y)) {
                assert_eq!(at(&grid, x, y), TileType::Wall);
            } else {
                assert_eq!(at(&grid, x, y), at(&before, x, y));
            }
        }
    }
    let mut listed = vec![];
    let mut grid = speckled(20, 16);
    assert!(try_place(&mut grid, &mut listed, building, 2));
    openings_kept(&before, &grid);
    assert_eq!(at(&grid, 2, 3), TileType::Wall);
    let stamped = grid.tiles.clone();
    assert!(!try_place(&mut grid, &mut listed, r(13, 2, 18, 10), 2));
    assert_eq!(grid.tiles, stamped);
    let config = GeneratorConfig::default();
    for seed in 0..30u64 {
        let mut rng = RandomNumberGenerator::seeded(seed);
        let mut grid = speckled(60, 40);
        let before = speckled(60, 40);
        let buildings = generate_buildings(&mut grid, &mut rng, &config);
        assert!(!buildings.is_empty());
        openings_kept(&before, &grid);
    }
}

#[test]
fn an_interior_on_any_grid_closes_no_opening() {
    let config = GeneratorConfig::default();
    for seed in 0..40u64 {
        let mut rng = RandomNumberGenerator::seeded(seed);
        let mut grid = speckled(50, 40);
        let before = speckled(50, 40);
        let building = r(3, 4, 43, 34);
        let Interior { rooms, connected } = generate_interior(&mut grid, &mut rng, building, &config);
        assert!(rooms.len() >= 2 && rooms.len() <= 2 + PARTITION_ROUNDS);
        assert_eq!(connected, vec![true; rooms.len()]);
        if rooms.len() < 2 + PARTITION_ROUNDS {
            assert!(rooms.iter().any(|room| is_too_small(*room, config.room_min_dimension)));
        }
        for i in 0..grid.tiles.len() {
            let x = (i as i32) % 50;
            let y = (i as i32) / 50;
            if is_opening(before.tiles[i]) {
                assert_eq!(grid.tiles[i], before.tiles[i]);
            }
            if x < 3 || x > 43 || y < 4 || y > 34 {
                assert_eq!(grid.tiles[i], before.tiles[i]);
            }
        }
    }
}

#[test]
fn a_pass_over_a_grid_with_openings_closes_none() {
    let before = speckled(60, 40);
    for seed in 0..30u64 {
        let mut generator = BuildingsGenerator::seeded(60, 40, seed);
        generator.grid = speckled(60, 40);
        let layout = generator.generate_layout();
        assert!(!layout.buildings.is_empty());
        assert_eq!(layout.interiors.len(), layout.buildings.len());
        openings_kept_or_opened(&before, &generator.grid);
        for (building, interior) in layout.buildings.iter().zip(layout.interiors.iter()) {
            assert_eq!(interior.connected, vec![true; interior.rooms.len()]);
            let area: i32 = interior
                .rooms
                .iter()
                .map(|room| (room.x2 - room.x1) * (room.y2 - room.y1))
                .sum();
            assert_eq!(area, (building.x2 - building.x1) * (building.y2 - building.y1));
            for room in interior.rooms.iter() {
                for y in room.y1..=room.y2 {
                    for x in room.x1..=room.x2 {
                        if x == room.x1 || x == room.x2 || y == room.y1 || y == room.y2 {
                            assert_ne!(at(&generator.grid, x, y), TileType::Floor);
                        }
                    }
                }
            }
        }
    }
}
