use rustrl::actions::WaitAction;
use rustrl::game_map::GameMap;
use rustrl::gamelog::GameLog;
use rustrl::geometry::{Point, Rect};
use rustrl::grid::TileType;
use rustrl::gui::EquippedItemHandler;
use rustrl::input::{
    get_direction_offset, map_all, map_direction, map_look_commands, map_other_commands, Command,
    Direction, Key,
};
use rustrl::map::GridMap;
use rustrl::resources::{PointsOfInterest, RunState};

fn p(x: i32, y: i32) -> Point {
    Point { x, y }
}

fn small_map() -> GameMap {
    let mut tiles = vec![TileType::Floor; 20];
    tiles[7] = TileType::Wall;
    tiles[8] = TileType::Door;
    tiles[13] = TileType::Wall;
    GameMap::assemble(tiles, vec![Rect { x1: 1, x2: 3, y1: 1, y2: 3 }], 5, 4)
}

#[test]
fn log_appends() {
    let mut log = GameLog { entries: vec!["one".to_string()] };
    log.log("two".to_string());
    log.log(String::new());
    assert_eq!(log.entries, vec!["one".to_string(), "two".to_string(), String::new()]);
}

#[test]
fn bare_types() {
    let _ = WaitAction {};
    let handler = EquippedItemHandler {};
    assert!(handler == handler.clone());
    assert!(RunState::PreRun != RunState::PlayerTurn);
    assert!(RunState::AwaitingInput == RunState::AwaitingInput);
    assert!(RunState::MonsterTurn != RunState::AwaitingInput);
}

#[test]
fn keys_to_directions() {
    let all = [
        (Key::Left, Direction::Left),
        (Key::Numpad4, Direction::Left),
        (Key::H, Direction::Left),
        (Key::Right, Direction::Right),
        (Key::Numpad6, Direction::Right),
        (Key::L, Direction::Right),
        (Key::Up, Direction::Up),
        (Key::Numpad8, Direction::Up),
        (Key::K, Direction::Up),
        (Key::Down, Direction::Down),
        (Key::Numpad2, Direction::Down),
        (Key::J, Direction::Down),
        (Key::Y, Direction::UpLeft),
        (Key::U, Direction::UpRight),
        (Key::B, Direction::DownLeft),
        (Key::N, Direction::DownRight),
    ];
    for (key, direction) in all {
        assert_eq!(map_direction(key), Some(Command::Direction { direction }));
    }
    for key in [Key::G, Key::I, Key::D, Key::R, Key::X, Key::Tab, Key::Return, Key::Escape, Key::Other] {
        assert_eq!(map_direction(key), None);
    }
}

#[test]
fn keys_to_other_commands() {
    assert_eq!(map_look_commands(Key::Tab), Some(Command::NextTarget));
    assert_eq!(map_look_commands(Key::Return), Some(Command::Validate));
    assert_eq!(map_look_commands(Key::Escape), Some(Command::Cancel));
    assert_eq!(map_look_commands(Key::G), None);
    assert_eq!(map_look_commands(Key::Left), None);
    assert_eq!(map_other_commands(Key::G), Some(Command::Grab));
    assert_eq!(map_other_commands(Key::I), Some(Command::ShowInventory));
    assert_eq!(map_other_commands(Key::D), Some(Command::ShowDropItem));
    assert_eq!(map_other_commands(Key::R), Some(Command::ShowRemoveItem));
    assert_eq!(map_other_commands(Key::X), Some(Command::ExamineMode));
    assert_eq!(map_other_commands(Key::Escape), Some(Command::SaveQuit));
    assert_eq!(map_other_commands(Key::Tab), None);
    assert_eq!(map_other_commands(Key::Other), None);
}

#[test]
fn first_mapping_with_an_answer_wins() {
    type Mapping = fn(Key) -> Option<Command>;
    let play: [Mapping; 2] = [map_direction, map_other_commands];
    let look: [Mapping; 2] = [map_direction, map_look_commands];
    let both: [Mapping; 2] = [map_other_commands, map_look_commands];
    let flipped: [Mapping; 2] = [map_look_commands, map_other_commands];
    assert_eq!(map_all(Some(Key::H), &play), Some(Command::Direction { direction: Direction::Left }));
    assert_eq!(map_all(Some(Key::G), &play), Some(Command::Grab));
    assert_eq!(map_all(Some(Key::Tab), &play), None);
    assert_eq!(map_all(Some(Key::Tab), &look), Some(Command::NextTarget));
    assert_eq!(map_all(Some(Key::Escape), &both), Some(Command::SaveQuit));
    assert_eq!(map_all(Some(Key::Escape), &flipped), Some(Command::Cancel));
    assert_eq!(map_all(None, &play), None);
    let none: [Mapping; 0] = [];
    assert_eq!(map_all(Some(Key::H), &none), None);
}

#[test]
fn direction_offsets() {
    assert_eq!(get_direction_offset(Direction::Left), p(-1, 0));
    assert_eq!(get_direction_offset(Direction::Right), p(1, 0));
    assert_eq!(get_direction_offset(Direction::Up), p(0, -1));
    assert_eq!(get_direction_offset(Direction::Down), p(0, 1));
    assert_eq!(get_direction_offset(Direction::UpLeft), p(-1, -1));
    assert_eq!(get_direction_offset(Direction::UpRight), p(1, -1));
    assert_eq!(get_direction_offset(Direction::DownLeft), p(-1, 1));
    assert_eq!(get_direction_offset(Direction::DownRight), p(1, 1));
}

#[test]
fn points_of_interest_cycle() {
    let mut points = PointsOfInterest::new();
    assert_eq!(points.get_next(p(0, 0)), None);
    assert!(!points.contains(p(0, 0)));
    points.add(p(1, 1));
    assert_eq!(points.get_next(p(1, 1)), Some(p(1, 1)));
    assert_eq!(points.get_next(p(9, 9)), Some(p(1, 1)));
    points.add(p(2, 2));
    points.add(p(3, 3));
    points.add(p(2, 2));
    assert_eq!(points.get_next(p(1, 1)), Some(p(2, 2)));
    assert_eq!(points.get_next(p(2, 2)), Some(p(3, 3)));
    assert_eq!(points.get_next(p(3, 3)), Some(p(2, 2)));
    assert_eq!(points.get_next(p(7, 7)), Some(p(1, 1)));
    assert!(points.contains(p(3, 3)));
    assert!(!points.contains(p(3, 4)));
    points.clear();
    assert_eq!(points.get_next(p(1, 1)), None);
    assert!(!points.contains(p(1, 1)));
    points.add(p(5, 5));
    points.add(p(6, 6));
    assert_eq!(points.get_next(p(6, 6)), Some(p(5, 5)));
}

#[test]
fn map_addresses_cells_row_by_row() {
    let map = small_map();
    assert_eq!(map.dimensions(), p(5, 4));
    assert_eq!(map.xy_idx(p(0, 0)), 0);
    assert_eq!(map.xy_idx(p(3, 2)), 13);
    assert_eq!(map.xy_idx(p(4, 3)), 19);
    assert_eq!(map.idx_xy(13), p(3, 2));
    assert_eq!(map.idx_xy(0), p(0, 0));
    assert_eq!(map.idx_xy(19), p(4, 3));
    for idx in 0..20 {
        assert_eq!(map.xy_idx(map.idx_xy(idx)), idx);
    }
}

#[test]
fn assembled_map_is_untouched() {
    let map = small_map();
    assert_eq!((map.width, map.height), (5, 4));
    assert_eq!(map.tiles.len(), 20);
    assert_eq!(map.revealed_tiles, vec![false; 20]);
    assert_eq!(map.visible_tiles, vec![false; 20]);
    let mut blocked = vec![false; 20];
    blocked[7] = true;
    blocked[13] = true;
    assert_eq!(map.blocked_tiles, blocked);
    assert_eq!(map.entities_tiles.len(), 20);
    assert_eq!(map.rooms, vec![Rect { x1: 1, x2: 3, y1: 1, y2: 3 }]);
    let empty = GameMap::default();
    assert_eq!((empty.width, empty.height), (0, 0));
    assert!(empty.tiles.is_empty() && empty.rooms.is_empty() && empty.entities_tiles.is_empty());
}

#[test]
fn walls_block() {
    let mut map = small_map();
    assert!(map.is_opaque(7));
    assert!(!map.is_opaque(8));
    assert!(!map.is_opaque(0));
    map.tiles[14] = TileType::Window;
    map.tiles[13] = TileType::Door;
    map.populate_blocked();
    let mut want = vec![false; 20];
    want[7] = true;
    assert_eq!(map.blocked_tiles, want);
    map.tiles[14] = TileType::Floor;
    map.tiles[13] = TileType::Wall;
    map.populate_blocked();
    want[13] = true;
    assert_eq!(map.blocked_tiles, want);
    assert!(map.is_exit_valid(p(1, 1)));
    assert!(!map.is_exit_valid(p(2, 1)));
    assert!(map.is_exit_valid(p(3, 1)));
    assert!(!map.is_exit_valid(p(3, 2)));
    assert!(map.is_exit_valid(p(4, 3)));
    assert!(!map.is_exit_valid(p(0, 1)));
    assert!(!map.is_exit_valid(p(1, 0)));
    assert!(!map.is_exit_valid(p(5, 1)));
    assert!(!map.is_exit_valid(p(1, 4)));
    assert!(!map.is_exit_valid(p(-3, -3)));
}

#[test]
fn seen_walls() {
    let mut map = small_map();
    assert!(!map.is_revealed_and_wall(p(2, 1)));
    map.revealed_tiles[7] = true;
    map.revealed_tiles[8] = true;
    assert!(map.is_revealed_and_wall(p(2, 1)));
    assert!(!map.is_revealed_and_wall(p(3, 1)));
    assert!(!map.is_revealed_and_wall(p(3, 2)));
}

#[test]
fn content_index_is_cleared() {
    let mut map = small_map();
    let mut world: specs::World = specs::WorldExt::new();
    let a = specs::Builder::build(specs::WorldExt::create_entity(&mut world));
    map.entities_tiles[3].push(a);
    map.entities_tiles[3].push(a);
    map.entities_tiles[9].push(a);
    map.clear_content_index();
    assert_eq!(map.entities_tiles.len(), 20);
    assert!(map.entities_tiles.iter().all(|e| e.is_empty()));
    assert_eq!(map.tiles.len(), 20);
    assert_eq!(map.rooms.len(), 1);
}
