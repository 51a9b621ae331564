use bracket_lib::prelude::RandomNumberGenerator;
use rustrl::config::{GenerationError, GeneratorConfig, MAX_SIDE, PARTITION_ROUNDS};
use rustrl::generator::{copy_tiles, flatten_rooms, generate_interior, Interior};
use rustrl::geometry::{mean_of, Point, Rect};
use rustrl::grid::{TileGrid, TileType};
use rustrl::packer::{
    expand_rect, generate_buildings, is_clear, place_building, placement_bound,
    placement_shortfall, roll_room, try_place,
};
use rustrl::partition::{
    apply_split, area_table, axis_table, centered_range, is_cramped, is_too_small, partition,
    split_room, take_random_room,
};
use rustrl::random::pick_index;
use rustrl::random_table::RandomTable;

fn r(x1: i32, y1: i32, x2: i32, y2: i32) -> Rect {
    Rect { x1, x2, y1, y2 }
}

fn at(grid: &TileGrid, x: i32, y: i32) -> TileType {
    grid.tiles[(y * grid.width + x) as usize]
}

fn count(grid: &TileGrid, kind: TileType) -> usize {
    grid.tiles.iter().filter(|t| **t == kind).count()
}

#[test]
fn limits() {
    assert_eq!(MAX_SIDE, 32767);
    assert_eq!(PARTITION_ROUNDS, 3);
}

#[test]
fn draws_stay_within_their_range() {
    let mut rng = RandomNumberGenerator::seeded(3);
    let mut seen = [false; 7];
    for _ in 0..500 {
        let i = pick_index(&mut rng, 7);
        assert!(i < 7);
        seen[i] = true;
    }
    assert!(seen.iter().all(|s| *s));
    for _ in 0..50 {
        assert_eq!(pick_index(&mut rng, 1), 0);
    }
    let mut low = false;
    let mut high = false;
    for _ in 0..500 {
        let c = centered_range(&mut rng, -5, 6);
        assert!((-5..6).contains(&c));
        low |= c < 0;
        high |= c > 0;
    }
    assert!(low && high);
    for _ in 0..20 {
        assert_eq!(centered_range(&mut rng, 9, 10), 9);
    }
}

#[test]
fn mean_rounds_toward_zero() {
    assert_eq!(mean_of(2, 6), 4);
    assert_eq!(mean_of(2, 5), 3);
    assert_eq!(mean_of(5, 2), 3);
    assert_eq!(mean_of(-2, -5), -3);
    assert_eq!(mean_of(-1, 0), 0);
    assert_eq!(mean_of(-3, 6), 1);
    assert_eq!(mean_of(i32::MAX, i32::MAX), i32::MAX);
    assert_eq!(mean_of(i32::MIN, i32::MIN), i32::MIN);
    assert_eq!(mean_of(i32::MIN, i32::MAX), 0);
}

#[test]
fn weighted_table_picks_by_slice() {
    let table = RandomTable::new().add('a', 3).add('b', 2).add('c', 5);
    let picks: Vec<char> = (0..10).map(|roll| *table.pick(roll)).collect();
    assert_eq!(picks, vec!['a', 'a', 'a', 'b', 'b', 'c', 'c', 'c', 'c', 'c']);
    let skipping = RandomTable::new().add('z', 0).add('a', 1).add('n', -4).add('b', 1);
    assert_eq!(*skipping.pick(0), 'a');
    assert_eq!(*skipping.pick(1), 'b');
}

#[test]
fn weighted_table_rolls_in_proportion() {
    let table = RandomTable::new().add(0usize, 1).add(1usize, 9);
    let mut rng = RandomNumberGenerator::seeded(17);
    let mut hits = [0usize; 2];
    for _ in 0..2000 {
        hits[*table.roll(&mut rng).unwrap()] += 1;
    }
    assert!(hits[0] > 100 && hits[0] < 320);
    assert_eq!(hits[0] + hits[1], 2000);
    let only = RandomTable::new().add("x", 4);
    for _ in 0..20 {
        assert_eq!(only.roll(&mut rng), Some(&"x"));
    }
}

#[test]
fn empty_table_rolls_nothing() {
    let mut rng = RandomNumberGenerator::seeded(1);
    let table: RandomTable<u8> = RandomTable::new();
    assert_eq!(table.roll(&mut rng), None);
    let weightless = RandomTable::new().add(1u8, 0).add(2u8, -1);
    assert_eq!(weightless.roll(&mut rng), None);
}

#[test]
fn axis_is_weighed_by_the_squares_of_the_sides() {
    let table = axis_table(r(2, 1, 5, 3));
    let picks: Vec<bool> = (0..13).map(|roll| *table.pick(roll)).collect();
    let mut want = vec![true; 9];
    want.extend(vec![false; 4]);
    assert_eq!(picks, want);
    let square = axis_table(r(0, 0, 1, 1));
    assert_eq!((*square.pick(0), *square.pick(1)), (true, false));
}

#[test]
fn rooms_are_weighed_by_their_areas() {
    let rooms = vec![r(0, 0, 2, 3), r(4, 4, 4, 9), r(1, 1, 3, 2), r(9, 9, 8, 8)];
    let table = area_table(&rooms);
    let picks: Vec<usize> = (0..9).map(|roll| *table.pick(roll)).collect();
    assert_eq!(picks, vec![0, 0, 0, 0, 0, 0, 2, 2, 3]);
    let mut rng = RandomNumberGenerator::seeded(4);
    assert_eq!(area_table(&vec![]).roll(&mut rng), None);
    assert_eq!(area_table(&vec![r(1, 1, 1, 5)]).roll(&mut rng), None);
}

#[test]
fn too_small_and_cramped() {
    assert!(is_too_small(r(0, 0, 7, 20), 8));
    assert!(is_too_small(r(0, 0, 20, 7), 8));
    assert!(!is_too_small(r(0, 0, 8, 8), 8));
    assert!(is_too_small(r(0, 0, 8, 8), 9));
    assert!(is_cramped(r(0, 0, 16, 40), 8));
    assert!(is_cramped(r(0, 0, 40, 16), 8));
    assert!(!is_cramped(r(0, 0, 17, 17), 8));
    assert!(is_cramped(r(5, 5, 15, 15), 8));
    assert!(!is_cramped(r(0, 0, 24, 24), 8));
}

#[test]
fn a_cut_makes_two_rooms_and_a_wall() {
    let mut grid = TileGrid::new(20, 12, TileType::Floor);
    let room = r(2, 1, 14, 9);
    let (a, b) = apply_split(&mut grid, room, true, 6);
    assert_eq!(a, r(2, 1, 6, 9));
    assert_eq!(b, r(6, 1, 14, 9));
    for y in 0..12 {
        for x in 0..20 {
            let want = if x == 6 && (1..=9).contains(&y) { TileType::Wall } else { TileType::Floor };
            assert_eq!(at(&grid, x, y), want);
        }
    }
    let mut grid = TileGrid::new(20, 12, TileType::Floor);
    let (a, b) = apply_split(&mut grid, room, false, 4);
    assert_eq!(a, r(2, 1, 14, 4));
    assert_eq!(b, r(2, 4, 14, 9));
    for y in 0..12 {
        for x in 0..20 {
            let want = if y == 4 && (2..=14).contains(&x) { TileType::Wall } else { TileType::Floor };
            assert_eq!(at(&grid, x, y), want);
        }
    }
}

#[test]
fn split_room_cuts_two_cells_clear_of_the_walls() {
    let mut vertical = 0;
    let mut horizontal = 0;
    for seed in 0..200u64 {
        let mut rng = RandomNumberGenerator::seeded(seed);
        let mut grid = TileGrid::new(40, 30, TileType::Floor);
        let room = r(3, 2, 33, 12);
        let (a, b) = split_room(&mut grid, &mut rng, room);
        if a.x2 != room.x2 {
            vertical += 1;
            assert!(a.x2 >= 5 && a.x2 <= 31);
            assert_eq!(a, r(3, 2, a.x2, 12));
            assert_eq!(b, r(a.x2, 2, 33, 12));
            assert_eq!(count(&grid, TileType::Wall), 11);
            assert_eq!(at(&grid, a.x2, 2), TileType::Wall);
            assert_eq!(at(&grid, a.x2, 12), TileType::Wall);
        } else {
            horizontal += 1;
            assert!(a.y2 >= 4 && a.y2 <= 10);
            assert_eq!(a, r(3, 2, 33, a.y2));
            assert_eq!(b, r(3, a.y2, 33, 12));
            assert_eq!(count(&grid, TileType::Wall), 31);
        }
    }
    assert!(vertical > 150);
    assert!(horizontal > 5);
    let mut rng = RandomNumberGenerator::seeded(1);
    let mut grid = TileGrid::new(10, 10, TileType::Floor);
    let (a, b) = split_room(&mut grid, &mut rng, r(1, 1, 5, 5));
    assert!((a == r(1, 1, 3, 5) && b == r(3, 1, 5, 5)) || (a == r(1, 1, 5, 3) && b == r(1, 3, 5, 5)));
}

#[test]
fn rooms_are_taken_by_area() {
    let mut rng = RandomNumberGenerator::seeded(8);
    let mut big = 0;
    for _ in 0..400 {
        let mut rooms = vec![r(0, 0, 2, 2), r(0, 0, 20, 20), r(5, 5, 5, 9)];
        let taken = take_random_room(&mut rng, &mut rooms).unwrap();
        assert_ne!(taken, r(5, 5, 5, 9));
        if taken == r(0, 0, 20, 20) {
            big += 1;
            assert_eq!(rooms, vec![r(0, 0, 2, 2), r(5, 5, 5, 9)]);
        } else {
            assert_eq!(taken, r(0, 0, 2, 2));
            assert_eq!(rooms, vec![r(0, 0, 20, 20), r(5, 5, 5, 9)]);
        }
    }
    assert!(big > 380 && big < 400);
}

#[test]
fn nothing_to_take_is_a_degenerate_room_set() {
    let mut rng = RandomNumberGenerator::seeded(8);
    let mut none: Vec<Rect> = vec![];
    assert_eq!(take_random_room(&mut rng, &mut none), Err(GenerationError::DegenerateRoomSet));
    assert!(none.is_empty());
    let mut flat = vec![r(0, 0, 0, 9), r(3, 3, 8, 3)];
    assert_eq!(take_random_room(&mut rng, &mut flat), Err(GenerationError::DegenerateRoomSet));
    assert_eq!(flat, vec![r(0, 0, 0, 9), r(3, 3, 8, 3)]);
}

fn check_tiling(rooms: &Vec<Rect>, building: &Rect) {
    let mut area = 0;
    for (i, a) in rooms.iter().enumerate() {
        assert!(building.x1 <= a.x1 && a.x2 <= building.x2);
        assert!(building.y1 <= a.y1 && a.y2 <= building.y2);
        assert!(a.x2 - a.x1 >= 2 && a.y2 - a.y1 >= 2);
        area += (a.x2 - a.x1) * (a.y2 - a.y1);
        for b in rooms.iter().skip(i + 1) {
            assert!(a.x2 <= b.x1 || b.x2 <= a.x1 || a.y2 <= b.y1 || b.y2 <= a.y1);
        }
    }
    assert_eq!(area, (building.x2 - building.x1) * (building.y2 - building.y1));
}

#[test]
fn partition_tiles_the_footprint() {
    let mut counts = [0usize; 6];
    for seed in 0..200u64 {
        let mut rng = RandomNumberGenerator::seeded(seed);
        let mut grid = TileGrid::new(50, 50, TileType::Floor);
        let building = r(3, 4, 43, 34);
        place_building(&mut grid, &building);
        let rooms = partition(&mut grid, &mut rng, building, 8);
        assert!(rooms.len() >= 2 && rooms.len() <= 5);
        counts[rooms.len()] += 1;
        check_tiling(&rooms, &building);
        for y in 0..50 {
            for x in 0..50 {
                let on_wall = rooms.iter().any(|a| {
                    a.x1 <= x && x <= a.x2 && a.y1 <= y && y <= a.y2
                        && (x == a.x1 || x == a.x2 || y == a.y1 || y == a.y2)
                });
                let want = if on_wall { TileType::Wall } else { TileType::Floor };
                assert_eq!(at(&grid, x, y), want);
            }
        }
        for a in rooms.iter() {
            let touches = a.x1 == 3 || a.x2 == 43 || a.y1 == 4 || a.y2 == 34;
            assert!(touches || rooms.iter().any(|b| {
                (b.x1 == 3 || b.x2 == 43 || b.y1 == 4 || b.y2 == 34)
                    && rustrl::adjacency::contact_wall(a, b).map_or(false, |w| !w.is_empty())
            }));
        }
    }
    assert!(counts[5] > 0);
}

#[test]
fn a_cramped_footprint_stays_one_room() {
    let mut rng = RandomNumberGenerator::seeded(2);
    let mut grid = TileGrid::new(50, 50, TileType::Floor);
    let before = grid.tiles.clone();
    assert_eq!(partition(&mut grid, &mut rng, r(3, 4, 19, 40), 8), vec![r(3, 4, 19, 40)]);
    assert_eq!(partition(&mut grid, &mut rng, r(3, 4, 40, 20), 8), vec![r(3, 4, 40, 20)]);
    assert_eq!(partition(&mut grid, &mut rng, r(3, 4, 5, 6), 4), vec![r(3, 4, 5, 6)]);
    assert!(grid.tiles == before);
    let rooms = partition(&mut grid, &mut rng, r(3, 4, 20, 21), 8);
    assert!(rooms.len() >= 2);
}

#[test]
fn small_rooms_are_put_back() {
    for seed in 0..50u64 {
        let mut rng = RandomNumberGenerator::seeded(seed);
        let mut grid = TileGrid::new(50, 50, TileType::Floor);
        let building = r(1, 1, 10, 10);
        let rooms = partition(&mut grid, &mut rng, building, 4);
        check_tiling(&rooms, &building);
        assert!(rooms.len() >= 2 && rooms.len() <= 5);
        for a in rooms.iter() {
            assert!(a.x2 - a.x1 >= 2 && a.y2 - a.y1 >= 2);
        }
    }
    for seed in 0..50u64 {
        let mut rng = RandomNumberGenerator::seeded(seed);
        let mut grid = TileGrid::new(50, 50, TileType::Floor);
        let rooms = partition(&mut grid, &mut rng, r(1, 1, 10, 40), 4);
        assert!(rooms.len() >= 2 && rooms.len() <= 5);
        for a in rooms.iter() {
            let narrow = a.x2 - a.x1 < 4 || a.y2 - a.y1 < 4;
            let cut_across = a.x2 - a.x1 == 9;
            assert!(narrow || cut_across || a.x2 - a.x1 >= 2);
        }
        check_tiling(&rooms, &r(1, 1, 10, 40));
    }
}

#[test]
fn interior_of_a_stamped_footprint() {
    let config = GeneratorConfig::default();
    for seed in 0..50u64 {
        let mut rng = RandomNumberGenerator::seeded(seed);
        let mut grid = TileGrid::new(50, 50, TileType::Floor);
        let building = r(3, 4, 43, 34);
        place_building(&mut grid, &building);
        let Interior { rooms, connected } = generate_interior(&mut grid, &mut rng, building, &config);
        check_tiling(&rooms, &building);
        assert_eq!(connected, vec![true; rooms.len()]);
        for room in rooms.iter() {
            for y in room.y1..=room.y2 {
                for x in room.x1..=room.x2 {
                    let edge = x == room.x1 || x == room.x2 || y == room.y1 || y == room.y2;
                    if edge {
                        assert_ne!(at(&grid, x, y), TileType::Floor);
                    } else {
                        assert_eq!(at(&grid, x, y), TileType::Floor);
                    }
                }
            }
        }
        let doors = count(&grid, TileType::Door);
        assert!(doors >= rooms.len());
        assert!(count(&grid, TileType::Window) <= 5);
        for y in 0..50 {
            for x in 0..50 {
                if x < 3 || x > 43 || y < 4 || y > 34 {
                    assert_eq!(at(&grid, x, y), TileType::Floor);
                }
            }
        }
    }
}

#[test]
fn grown_rect() {
    assert_eq!(expand_rect(r(5, 6, 10, 12), 3), r(2, 3, 13, 15));
    assert_eq!(expand_rect(r(5, 6, 10, 12), 0), r(5, 6, 10, 12));
    assert_eq!(expand_rect(r(5, 6, 10, 12), -1), r(6, 7, 9, 11));
}

#[test]
fn where_a_footprint_may_start() {
    assert_eq!(placement_bound(60, 24), Some(35));
    assert_eq!(placement_bound(40, 37), Some(2));
    assert_eq!(placement_bound(40, 38), None);
    assert_eq!(placement_bound(40, 39), None);
    assert_eq!(placement_bound(0, 24), None);
    assert_eq!(placement_bound(-5, 0), None);
    assert_eq!(placement_bound(i32::MIN, i32::MAX), None);
    assert_eq!(placement_bound(i32::MAX, 0), Some(i32::MAX - 1));
}

#[test]
fn rolled_footprints_fit_the_grid() {
    let config = GeneratorConfig::default();
    let mut rng = RandomNumberGenerator::seeded(6);
    let mut sides = std::collections::BTreeSet::new();
    for _ in 0..500 {
        let c = roll_room(&mut rng, 80, 70, &config).unwrap();
        assert!((24..40).contains(&(c.x2 - c.x1)) && (24..40).contains(&(c.y2 - c.y1)));
        assert!(c.x1 >= 1 && c.y1 >= 1 && c.x2 <= 78 && c.y2 <= 68);
        sides.insert(c.x2 - c.x1);
    }
    assert_eq!(sides.len(), 16);
    let mut some = 0;
    for _ in 0..500 {
        match roll_room(&mut rng, 60, 40, &config) {
            Some(c) => {
                some += 1;
                assert!(c.y2 - c.y1 <= 37 && c.y2 <= 38 && c.x2 <= 58);
            },
            None => {},
        }
    }
    assert!(some > 300 && some < 500);
    for _ in 0..50 {
        assert_eq!(roll_room(&mut rng, 26, 80, &config), None);
        assert_eq!(roll_room(&mut rng, 80, 26, &config), None);
    }
}

#[test]
fn a_candidate_is_clear_of_grown_footprints() {
    let placed = vec![r(10, 10, 20, 20), r(40, 10, 50, 20)];
    assert!(is_clear(&r(24, 10, 36, 20), &placed, 3));
    assert!(!is_clear(&r(23, 10, 36, 20), &placed, 3));
    assert!(!is_clear(&r(24, 10, 37, 20), &placed, 3));
    assert!(is_clear(&r(10, 24, 20, 30), &placed, 3));
    assert!(!is_clear(&r(10, 23, 20, 30), &placed, 3));
    assert!(is_clear(&r(21, 21, 39, 30), &placed, 0));
    assert!(!is_clear(&r(20, 20, 39, 30), &placed, 0));
    assert!(is_clear(&r(12, 12, 18, 18), &vec![], 3));
}

#[test]
fn a_candidate_is_placed_only_when_clear() {
    let mut grid = TileGrid::new(40, 30, TileType::Floor);
    let mut placed = vec![];
    assert!(try_place(&mut grid, &mut placed, r(2, 2, 10, 10), 3));
    assert_eq!(placed, vec![r(2, 2, 10, 10)]);
    assert_eq!(count(&grid, TileType::Wall), 32);
    let before = grid.tiles.clone();
    assert!(!try_place(&mut grid, &mut placed, r(13, 2, 20, 10), 3));
    assert!(!try_place(&mut grid, &mut placed, r(4, 4, 6, 6), 3));
    assert!(!try_place(&mut grid, &mut placed, r(2, 13, 10, 20), 3));
    assert_eq!(placed, vec![r(2, 2, 10, 10)]);
    assert!(grid.tiles == before);
    assert!(try_place(&mut grid, &mut placed, r(14, 2, 20, 10), 3));
    assert!(try_place(&mut grid, &mut placed, r(2, 14, 10, 20), 3));
    assert_eq!(placed, vec![r(2, 2, 10, 10), r(14, 2, 20, 10), r(2, 14, 10, 20)]);
    assert_eq!(count(&grid, TileType::Wall), 32 + 28 + 28);
    assert_eq!(at(&grid, 14, 2), TileType::Wall);
    assert_eq!(at(&grid, 15, 3), TileType::Floor);
}

#[test]
fn a_footprint_is_stamped_as_four_walls() {
    let mut grid = TileGrid::new(12, 10, TileType::Floor);
    place_building(&mut grid, &r(2, 3, 8, 7));
    for y in 0..10 {
        for x in 0..12 {
            let inside = (2..=8).contains(&x) && (3..=7).contains(&y);
            let edge = inside && (x == 2 || x == 8 || y == 3 || y == 7);
            assert_eq!(at(&grid, x, y), if edge { TileType::Wall } else { TileType::Floor });
        }
    }
}

#[test]
fn shortfall_is_reported() {
    assert_eq!(placement_shortfall(3, 2), Some(GenerationError::PlacementExhausted));
    assert_eq!(placement_shortfall(3, 0), Some(GenerationError::PlacementExhausted));
    assert_eq!(placement_shortfall(3, 3), None);
    assert_eq!(placement_shortfall(0, 0), None);
    assert_eq!(placement_shortfall(-1, 0), None);
    assert_eq!(placement_shortfall(2, 5), None);
}

#[test]
fn packed_footprints_are_stamped_and_nothing_else() {
    let config = GeneratorConfig::default();
    for seed in 0..30u64 {
        let mut rng = RandomNumberGenerator::seeded(seed);
        let mut grid = TileGrid::new(150, 100, TileType::Floor);
        let buildings = generate_buildings(&mut grid, &mut rng, &config);
        assert!(!buildings.is_empty() && buildings.len() <= 20);
        for (i, a) in buildings.iter().enumerate() {
            assert!((24..40).contains(&(a.x2 - a.x1)) && (24..40).contains(&(a.y2 - a.y1)));
            assert!(a.x1 >= 1 && a.y1 >= 1 && a.x2 <= 148 && a.y2 <= 98);
            let others: Vec<Rect> =
                buildings.iter().enumerate().filter(|(j, _)| *j != i).map(|(_, b)| *b).collect();
            assert!(is_clear(a, &others, 3));
        }
        for y in 0..100 {
            for x in 0..150 {
                let edge = buildings.iter().any(|b| {
                    b.x1 <= x && x <= b.x2 && b.y1 <= y && y <= b.y2
                        && (x == b.x1 || x == b.x2 || y == b.y1 || y == b.y2)
                });
                assert_eq!(at(&grid, x, y), if edge { TileType::Wall } else { TileType::Floor });
            }
        }
    }
}

#[test]
fn copies_and_flattening() {
    let tiles = vec![TileType::Wall, TileType::Door, TileType::Floor, TileType::Window];
    assert!(copy_tiles(&tiles) == tiles);
    assert!(copy_tiles(&vec![]).is_empty());
    let interiors = vec![
        Interior { rooms: vec![r(0, 0, 1, 1), r(1, 0, 2, 1)], connected: vec![true, true] },
        Interior { rooms: vec![], connected: vec![] },
        Interior { rooms: vec![r(5, 5, 9, 9)], connected: vec![false] },
    ];
    assert_eq!(flatten_rooms(&interiors), vec![r(0, 0, 1, 1), r(1, 0, 2, 1), r(5, 5, 9, 9)]);
    assert_eq!(flatten_rooms(&vec![]), vec![]);
    let _ = Point { x: 0, y: 0 };
}
