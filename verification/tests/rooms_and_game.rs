use rustrl::components::{melee_damage, strike, CombatStats, Confused, Viewshed};
use rustrl::game_map::{available_exits, wall_glyph, GameMap};
use rustrl::generator::MapGenerator;
use rustrl::geometry::{Point, Rect};
use rustrl::grid::{TileGrid, TileType};
use rustrl::gui::{format_option, option_to_letter};
use rustrl::map::GridMap;
use rustrl::spawner::{
    add_spawn, is_taken, plan_spawns, room_table, spawn_kind, spawn_points, SpawnKind,
    MAX_SPAWNED, SPAWN_TRIES,
};
use rustrl::rooms_corridors::{
    apply_horizontal_tunnel, apply_room_to_map, apply_vertical_tunnel, dig_tunnel, is_free,
    RoomsCorridorsGenerator, MAX_ROOMS, ROOM_MAX_SIZE, ROOM_MIN_SIZE,
};

fn p(x: i32, y: i32) -> Point {
    Point { x, y }
}

fn r(x1: i32, y1: i32, x2: i32, y2: i32) -> Rect {
    Rect { x1, x2, y1, y2 }
}

fn at(grid: &TileGrid, x: i32, y: i32) -> TileType {
    grid.tiles[(y * grid.width + x) as usize]
}

fn floor_between(grid: &TileGrid, a: Point, b: Point) -> bool {
    let row = |y: i32| (a.x.min(b.x)..=a.x.max(b.x)).all(|x| at(grid, x, y) == TileType::Floor);
    let column = |x: i32| (a.y.min(b.y)..=a.y.max(b.y)).all(|y| at(grid, x, y) == TileType::Floor);
    (row(a.y) && column(b.x)) || (column(a.x) && row(b.y))
}

#[test]
fn room_sizes() {
    assert_eq!((MAX_ROOMS, ROOM_MIN_SIZE, ROOM_MAX_SIZE), (40, 6, 10));
}

#[test]
fn middle_of_a_rect() {
    assert_eq!(r(2, 4, 8, 10).center(), p(5, 7));
    assert_eq!(r(2, 4, 9, 11).center(), p(5, 7));
    assert_eq!(r(0, 0, 1, 1).center(), p(0, 0));
    assert_eq!(r(-3, -3, 0, 0).center(), p(-1, -1));
    assert_eq!(r(-4, -8, -2, -2).center(), p(-3, -5));
}

#[test]
fn a_room_is_dug_without_its_first_row_and_column() {
    let mut grid = TileGrid::new(12, 10, TileType::Wall);
    apply_room_to_map(&mut grid, &r(2, 3, 6, 7));
    for y in 0..10 {
        for x in 0..12 {
            let inside = (3..=6).contains(&x) && (4..=7).contains(&y);
            assert_eq!(at(&grid, x, y), if inside { TileType::Floor } else { TileType::Wall });
        }
    }
    let mut flat = TileGrid::new(12, 10, TileType::Wall);
    apply_room_to_map(&mut flat, &r(2, 3, 6, 3));
    assert!(flat.tiles.iter().all(|t| *t == TileType::Wall));
}

#[test]
fn tunnels_are_dug_between_their_ends() {
    let mut grid = TileGrid::new(12, 10, TileType::Wall);
    apply_horizontal_tunnel(&mut grid, 8, 3, 2);
    apply_vertical_tunnel(&mut grid, 4, 9, 5);
    for y in 0..10 {
        for x in 0..12 {
            let dug = (y == 2 && (3..=8).contains(&x)) || (x == 5 && (4..=9).contains(&y));
            assert_eq!(at(&grid, x, y), if dug { TileType::Floor } else { TileType::Wall });
        }
    }
    let mut grid = TileGrid::new(12, 10, TileType::Wall);
    dig_tunnel(&mut grid, p(2, 2), p(7, 6), true);
    for y in 0..10 {
        for x in 0..12 {
            let dug = (y == 2 && (2..=7).contains(&x)) || (x == 7 && (2..=6).contains(&y));
            assert_eq!(at(&grid, x, y), if dug { TileType::Floor } else { TileType::Wall });
        }
    }
    let mut grid = TileGrid::new(12, 10, TileType::Wall);
    dig_tunnel(&mut grid, p(2, 2), p(7, 6), false);
    for y in 0..10 {
        for x in 0..12 {
            let dug = (x == 2 && (2..=6).contains(&y)) || (y == 6 && (2..=7).contains(&x));
            assert_eq!(at(&grid, x, y), if dug { TileType::Floor } else { TileType::Wall });
        }
    }
}

#[test]
fn free_of_other_rooms() {
    let rooms = vec![r(0, 0, 6, 6), r(10, 10, 18, 18)];
    assert!(is_free(&r(7, 0, 9, 9), &rooms));
    assert!(!is_free(&r(6, 0, 9, 9), &rooms));
    assert!(!is_free(&r(7, 7, 10, 10), &rooms));
    assert!(is_free(&r(7, 7, 9, 9), &rooms));
    assert!(is_free(&r(0, 0, 5, 5), &vec![]));
}

#[test]
fn rooms_and_corridors_level() {
    for seed in 0..40u64 {
        let mut generator = RoomsCorridorsGenerator::seeded(80, 50, seed);
        assert_eq!(generator.dimensions(), p(80, 50));
        let map = generator.generate();
        assert!(map.tiles == generator.grid.tiles);
        assert_eq!((map.width, map.height), (80, 50));
        assert!(map.rooms.len() >= 2 && map.rooms.len() <= 40);
        for (i, a) in map.rooms.iter().enumerate() {
            assert!((6..10).contains(&(a.x2 - a.x1)) && (6..10).contains(&(a.y2 - a.y1)));
            assert!(a.x1 >= 0 && a.y1 >= 0 && a.x2 <= 78 && a.y2 <= 48);
            for (j, b) in map.rooms.iter().enumerate() {
                if i != j {
                    assert!(!a.intersect(b));
                }
            }
            for y in a.y1 + 1..=a.y2 {
                for x in a.x1 + 1..=a.x2 {
                    assert_eq!(at(&generator.grid, x, y), TileType::Floor);
                }
            }
            if i > 0 {
                assert!(floor_between(&generator.grid, map.rooms[i - 1].center(), a.center()));
            }
        }
        assert!(map.tiles.iter().all(|t| *t == TileType::Floor || *t == TileType::Wall));
        assert_eq!(at(&generator.grid, 0, 0), TileType::Wall);
        let mut again = RoomsCorridorsGenerator::seeded(80, 50, seed);
        let twin = again.generate();
        assert!(twin.tiles == map.tiles);
        assert_eq!(twin.rooms, map.rooms);
    }
}

#[test]
fn too_small_a_grid_has_no_rooms() {
    let mut generator = RoomsCorridorsGenerator::seeded(7, 30, 1);
    let map = generator.generate();
    assert!(map.rooms.is_empty());
    assert!(map.tiles.iter().all(|t| *t == TileType::Wall));
    let mut generator = RoomsCorridorsGenerator::new(11, 11);
    let map = generator.generate();
    assert!(!map.rooms.is_empty());
    assert_eq!(map.tiles.len(), 121);
}

#[test]
fn fighters() {
    let mut stats = CombatStats::new(16, 1, 4);
    assert_eq!(
        stats,
        CombatStats { max_hp: 16, hp: 16, defense: 1, power: 4, was_hurt: false }
    );
    stats.deal_damage(5);
    assert_eq!(stats.hp, 11);
    assert!(stats.was_hurt);
    stats.heal(3);
    assert_eq!(stats.hp, 14);
    stats.heal(30);
    assert_eq!(stats.hp, 16);
    stats.deal_damage(20);
    assert_eq!(stats.hp, -4);
    stats.heal(-2);
    assert_eq!(stats.hp, -6);
    assert_eq!((stats.max_hp, stats.defense, stats.power), (16, 1, 4));
    let view = Viewshed::new(8);
    assert!(view.visible_tiles.is_empty());
    assert_eq!(view.range, 8);
    assert!(view.dirty);
}

#[test]
fn menu_labels() {
    assert_eq!(option_to_letter(0), 'a');
    assert_eq!(option_to_letter(1), 'b');
    assert_eq!(option_to_letter(12), 'm');
    assert_eq!(option_to_letter(25), 'z');
    let all: String = (0..26).map(option_to_letter).collect();
    assert_eq!(all, "abcdefghijklmnopqrstuvwxyz");
    assert_eq!(format_option(0, "Health Potion"), "(a) Health Potion");
    assert_eq!(format_option(3, ""), "(d) ");
    assert_eq!(format_option(25, "x y"), "(z) x y");
}

fn walled_map() -> GameMap {
    let mut tiles = vec![TileType::Floor; 49];
    for i in [16usize, 17, 18, 23, 25, 30, 31, 32] {
        tiles[i] = TileType::Wall;
    }
    tiles[24] = TileType::Wall;
    let mut map = GameMap::assemble(tiles, vec![], 7, 7);
    map.revealed_tiles = vec![true; 49];
    map
}

#[test]
fn wall_glyphs() {
    let mut map = walled_map();
    assert_eq!(wall_glyph(&map, p(3, 3)), 206);
    assert_eq!(wall_glyph(&map, p(2, 2)), 201);
    assert_eq!(wall_glyph(&map, p(4, 2)), 187);
    assert_eq!(wall_glyph(&map, p(2, 4)), 200);
    assert_eq!(wall_glyph(&map, p(4, 4)), 188);
    assert_eq!(wall_glyph(&map, p(3, 2)), 203);
    assert_eq!(wall_glyph(&map, p(3, 4)), 202);
    assert_eq!(wall_glyph(&map, p(2, 3)), 204);
    assert_eq!(wall_glyph(&map, p(4, 3)), 185);
    assert_eq!(wall_glyph(&map, p(1, 1)), 9);
    assert_eq!(wall_glyph(&map, p(0, 3)), 35);
    assert_eq!(wall_glyph(&map, p(6, 3)), 35);
    assert_eq!(wall_glyph(&map, p(3, 0)), 35);
    assert_eq!(wall_glyph(&map, p(3, 6)), 35);
    assert_eq!(wall_glyph(&map, p(5, 5)), 9);
    assert_eq!(wall_glyph(&map, p(1, 2)), 205);
    assert_eq!(wall_glyph(&map, p(2, 1)), 186);
    map.revealed_tiles[17] = false;
    assert_eq!(wall_glyph(&map, p(3, 3)), 203);
    map.revealed_tiles = vec![false; 49];
    assert_eq!(wall_glyph(&map, p(3, 3)), 9);
}

#[test]
fn exits_in_order() {
    let mut map = walled_map();
    map.populate_blocked();
    assert_eq!(
        available_exits(&map, 8),
        vec![(9, false), (15, false)]
    );
    assert_eq!(
        available_exits(&map, 10),
        vec![(9, false), (11, false)]
    );
    let mut open = GameMap::assemble(vec![TileType::Floor; 49], vec![], 7, 7);
    open.populate_blocked();
    assert_eq!(
        available_exits(&open, 24),
        vec![
            (23, false),
            (25, false),
            (17, false),
            (31, false),
            (16, true),
            (18, true),
            (30, true),
            (32, true)
        ]
    );
    assert_eq!(available_exits(&open, 0), vec![(8, true)]);
    assert_eq!(available_exits(&open, 48), vec![(47, false), (41, false), (40, true)]);
    assert_eq!(available_exits(&open, 7), vec![(8, false), (15, true)]);
}

#[test]
fn spawn_table_weights() {
    assert_eq!((MAX_SPAWNED, SPAWN_TRIES), (5, 20));
    let table = room_table();
    assert_eq!(table.total_weight(), 50);
    let kinds = [
        (SpawnKind::Goblin, 20),
        (SpawnKind::Orc, 5),
        (SpawnKind::HealthPotion, 7),
        (SpawnKind::FireballScroll, 2),
        (SpawnKind::ConfusionScroll, 2),
        (SpawnKind::MagicMissileScroll, 4),
        (SpawnKind::Dagger, 3),
        (SpawnKind::Shield, 3),
        (SpawnKind::Longsword, 2),
        (SpawnKind::TowerShield, 2),
    ];
    let mut roll = 0;
    for (kind, weight) in kinds {
        for _ in 0..weight {
            assert_eq!(*table.pick(roll), kind);
            roll += 1;
        }
    }
    assert_eq!(roll, 50);
}

#[test]
fn spawns_are_distinct_cells_inside_the_room() {
    let mut rng = bracket_lib::prelude::RandomNumberGenerator::seeded(12);
    let room = r(4, 7, 12, 13);
    let mut most = 0;
    let mut none = 0;
    for _ in 0..400 {
        let plan = plan_spawns(&mut rng, &room);
        assert!(plan.len() <= 5);
        most = most.max(plan.len());
        none += plan.is_empty() as usize;
        for (i, (a, _)) in plan.iter().enumerate() {
            assert!(a.x > 4 && a.x <= 12 && a.y > 7 && a.y <= 13);
            for (b, _) in plan.iter().skip(i + 1) {
                assert_ne!(a, b);
            }
        }
    }
    assert_eq!(most, 5);
    assert!(none > 100);
    let tiny = r(0, 0, 1, 1);
    for _ in 0..200 {
        let points = spawn_points(&mut rng, &tiny);
        assert!(points.is_empty() || points == vec![p(1, 1)]);
    }
    assert!(is_taken(&vec![p(1, 1), p(2, 2)], p(2, 2)));
    assert!(!is_taken(&vec![p(1, 1), p(2, 2)], p(2, 1)));
    assert!(!is_taken(&vec![], p(0, 0)));
}

#[test]
fn blows() {
    let orc = CombatStats::new(16, 1, 4);
    let mut hero = CombatStats::new(30, 2, 5);
    assert_eq!(melee_damage(&orc, 0, &hero, 0), 2);
    assert_eq!(melee_damage(&orc, 3, &hero, 1), 4);
    assert_eq!(melee_damage(&orc, 0, &hero, 2), 0);
    assert_eq!(melee_damage(&orc, 0, &hero, 9), 0);
    assert_eq!(melee_damage(&hero, 2, &orc, 0), 6);
    assert_eq!(strike(&orc, 0, &mut hero, 0), Some(2));
    assert_eq!(hero.hp, 28);
    assert!(hero.was_hurt);
    let mut fresh = CombatStats::new(30, 2, 5);
    assert_eq!(strike(&orc, 0, &mut fresh, 5), Some(0));
    assert_eq!(fresh, CombatStats::new(30, 2, 5));
    let mut corpse = CombatStats { hp: 0, ..CombatStats::new(30, 2, 5) };
    assert!(corpse.is_dead());
    assert!(!orc.is_dead());
    assert_eq!(strike(&orc, 0, &mut corpse, 0), None);
    assert_eq!(corpse.hp, 0);
    assert!(!corpse.was_hurt);
    assert_eq!(strike(&corpse, 0, &mut fresh, 0), None);
    assert_eq!(fresh.hp, 30);
    let mut weak = CombatStats { hp: 1, ..CombatStats::new(8, 0, 1) };
    assert_eq!(strike(&orc, 0, &mut weak, 0), Some(4));
    assert_eq!(weak.hp, -3);
    assert!(weak.is_dead());
}

#[test]
fn confusion_wears_off() {
    let mut confused = Confused { turns: 3 };
    assert!(!confused.tick());
    assert!(!confused.tick());
    assert_eq!(confused.turns, 1);
    assert!(confused.tick());
    assert_eq!(confused.turns, 0);
    assert!(confused.tick());
    assert_eq!(confused.turns, -1);
}

#[test]
fn moving_takes_the_block_along() {
    let mut map = GameMap::assemble(vec![TileType::Floor; 20], vec![], 5, 4);
    map.blocked_tiles[6] = true;
    map.blocked_tiles[8] = true;
    assert!(map.move_blocker(p(1, 1), p(2, 1)));
    let mut want = vec![false; 20];
    want[7] = true;
    want[8] = true;
    assert_eq!(map.blocked_tiles, want);
    assert!(!map.move_blocker(p(2, 1), p(3, 1)));
    assert_eq!(map.blocked_tiles, want);
    assert!(map.move_blocker(p(2, 1), p(0, 0)));
    want[7] = false;
    want[0] = true;
    assert_eq!(map.blocked_tiles, want);
    assert!(!map.move_blocker(p(0, 0), p(0, 0)));
    assert_eq!(map.blocked_tiles, want);
}

#[test]
fn a_roll_picks_its_kind() {
    let table = room_table();
    for roll in 0..50 {
        assert_eq!(spawn_kind(roll), *table.pick(roll));
    }
    assert_eq!(spawn_kind(0), SpawnKind::Goblin);
    assert_eq!(spawn_kind(19), SpawnKind::Goblin);
    assert_eq!(spawn_kind(20), SpawnKind::Orc);
    assert_eq!(spawn_kind(24), SpawnKind::Orc);
    assert_eq!(spawn_kind(25), SpawnKind::HealthPotion);
    assert_eq!(spawn_kind(32), SpawnKind::FireballScroll);
    assert_eq!(spawn_kind(34), SpawnKind::ConfusionScroll);
    assert_eq!(spawn_kind(36), SpawnKind::MagicMissileScroll);
    assert_eq!(spawn_kind(40), SpawnKind::Dagger);
    assert_eq!(spawn_kind(43), SpawnKind::Shield);
    assert_eq!(spawn_kind(46), SpawnKind::Longsword);
    assert_eq!(spawn_kind(48), SpawnKind::TowerShield);
    assert_eq!(spawn_kind(49), SpawnKind::TowerShield);
}

#[test]
fn a_spawn_is_put_on_a_free_cell_only() {
    let room = r(4, 7, 12, 13);
    let mut points = vec![];
    assert!(add_spawn(&mut points, &room, 1, 1));
    assert!(add_spawn(&mut points, &room, 8, 6));
    assert_eq!(points, vec![p(5, 8), p(12, 13)]);
    assert!(!add_spawn(&mut points, &room, 1, 1));
    assert!(!add_spawn(&mut points, &room, 8, 6));
    assert_eq!(points, vec![p(5, 8), p(12, 13)]);
    assert!(add_spawn(&mut points, &room, 1, 6));
    assert_eq!(points, vec![p(5, 8), p(12, 13), p(5, 13)]);
}

#[test]
fn some_rooms_get_spawns() {
    let mut rng = bracket_lib::prelude::RandomNumberGenerator::seeded(31);
    let room = r(2, 2, 20, 20);
    let mut cells = 0;
    let mut kinds = std::collections::BTreeSet::new();
    for _ in 0..300 {
        let points = spawn_points(&mut rng, &room);
        cells += points.len();
        for (_, kind) in plan_spawns(&mut rng, &room) {
            kinds.insert(format!("{:?}", kind));
        }
    }
    assert!(cells > 300);
    assert_eq!(kinds.len(), 10);
}
