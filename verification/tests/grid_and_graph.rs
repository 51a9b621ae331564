use bracket_lib::prelude::RandomNumberGenerator;
use rustrl::adjacency::{
    column_between, contact_wall, copy_cells, footprint_wall, row_between, scan_for_neighbors,
    AdjacencyGraph, NeighborEdge, RoomId,
};
use rustrl::connectivity::{
    add_random_doors, connect, connect_room, connect_rooms, ensure_random_connectivity, joined_edges,
    node_keys, place_windows, queue_neighbors, seed_frontier,
};
use rustrl::geometry::{max_of, min_of, Point, Rect};
use rustrl::grid::{horizontal_line, vertical_line, TileGrid, TileType};

fn p(x: i32, y: i32) -> Point {
    Point { x, y }
}

fn r(x1: i32, y1: i32, x2: i32, y2: i32) -> Rect {
    Rect { x1, x2, y1, y2 }
}

fn at(grid: &TileGrid, x: i32, y: i32) -> TileType {
    grid.tiles[(y * grid.width + x) as usize]
}

fn walls(grid: &mut TileGrid, rect: &Rect) {
    grid.place_horizontal_line(rect.x1, rect.x2, rect.y1, TileType::Wall);
    grid.place_horizontal_line(rect.x1, rect.x2, rect.y2, TileType::Wall);
    grid.place_vertical_line(rect.y1, rect.y2, rect.x1, TileType::Wall);
    grid.place_vertical_line(rect.y1, rect.y2, rect.x2, TileType::Wall);
}

fn count(grid: &TileGrid, kind: TileType) -> usize {
    grid.tiles.iter().filter(|t| **t == kind).count()
}

fn targets(edges: &Vec<NeighborEdge>) -> Vec<RoomId> {
    edges.iter().map(|e| e.target).collect()
}

#[test]
fn smaller_and_larger() {
    assert_eq!(min_of(3, 5), 3);
    assert_eq!(min_of(5, 3), 3);
    assert_eq!(max_of(3, 5), 5);
    assert_eq!(max_of(-2, -7), -2);
    assert_eq!(min_of(4, 4), 4);
}

#[test]
fn rect_constructors_and_extents() {
    let a = Rect::with_size(2, 3, 10, 5);
    assert_eq!(a, r(2, 3, 12, 8));
    assert_eq!(a.width(), 10);
    assert_eq!(a.height(), 5);
    let b = Rect::with_exact(9, 8, 2, 3);
    assert_eq!((b.x1, b.y1, b.x2, b.y2), (9, 8, 2, 3));
    assert_eq!(b.width(), 7);
    assert_eq!(b.height(), 5);
    assert_eq!(Point::new(4, -1), p(4, -1));
}

#[test]
fn rects_that_share_a_cell_intersect() {
    let a = r(0, 0, 10, 10);
    assert!(a.intersect(&r(10, 10, 20, 20)));
    assert!(a.intersect(&r(5, 5, 6, 6)));
    assert!(!a.intersect(&r(11, 0, 20, 10)));
    assert!(!a.intersect(&r(0, 11, 10, 20)));
    assert!(r(11, 0, 20, 10).intersect(&r(0, 0, 11, 10)));
}

#[test]
fn lines_run_over_the_closed_span_in_ascending_order() {
    assert_eq!(horizontal_line(2, 5, 7), vec![p(2, 7), p(3, 7), p(4, 7), p(5, 7)]);
    assert_eq!(horizontal_line(5, 2, 7), vec![p(2, 7), p(3, 7), p(4, 7), p(5, 7)]);
    assert_eq!(horizontal_line(3, 3, 1), vec![p(3, 1)]);
    assert_eq!(vertical_line(1, 3, 9), vec![p(9, 1), p(9, 2), p(9, 3)]);
    assert_eq!(vertical_line(3, 1, 9), vec![p(9, 1), p(9, 2), p(9, 3)]);
    assert_eq!(vertical_line(-1, 0, 0), vec![p(0, -1), p(0, 0)]);
}

#[test]
fn new_grid_is_filled() {
    let grid = TileGrid::new(4, 3, TileType::Floor);
    assert_eq!(grid.tiles.len(), 12);
    assert_eq!((grid.width, grid.height), (4, 3));
    assert!(grid.tiles.iter().all(|t| *t == TileType::Floor));
    let empty = TileGrid::new(0, 5, TileType::Wall);
    assert!(empty.tiles.is_empty());
}

#[test]
fn stamp_index_is_row_major() {
    let grid = TileGrid::new(10, 5, TileType::Floor);
    assert_eq!(grid.stamp_index(p(3, 2)), Some(23));
    assert_eq!(grid.stamp_index(p(9, 4)), Some(49));
    assert_eq!(grid.stamp_index(p(1, 0)), Some(1));
    assert_eq!(grid.stamp_index(p(0, 0)), Some(0));
    assert_eq!(grid.stamp_index(p(0, 5)), None);
    assert_eq!(grid.stamp_index(p(-1, 0)), None);
    assert_eq!(grid.stamp_index(p(0, -1)), None);
    assert_eq!(grid.stamp_index(p(12, 0)), Some(12));
}

#[test]
fn place_point_sets_one_tile() {
    let mut grid = TileGrid::new(10, 5, TileType::Floor);
    grid.place_point(p(3, 2), TileType::Wall);
    assert_eq!(at(&grid, 3, 2), TileType::Wall);
    assert_eq!(count(&grid, TileType::Wall), 1);
    grid.place_point(p(0, 5), TileType::Wall);
    grid.place_point(p(-4, -4), TileType::Wall);
    assert_eq!(count(&grid, TileType::Wall), 1);
    grid.place_point(p(0, 0), TileType::Wall);
    assert_eq!(at(&grid, 0, 0), TileType::Wall);
    assert_eq!(count(&grid, TileType::Wall), 2);
    grid.place_point(p(9, 4), TileType::Window);
    assert_eq!(at(&grid, 9, 4), TileType::Window);
    grid.place_point(p(3, 2), TileType::Door);
    assert_eq!(at(&grid, 3, 2), TileType::Door);
    assert_eq!(count(&grid, TileType::Floor), 47);
}

#[test]
fn lines_are_stamped_cell_by_cell() {
    let mut grid = TileGrid::new(10, 6, TileType::Floor);
    grid.place_horizontal_line(6, 2, 3, TileType::Wall);
    for x in 0..10 {
        let want = if (2..=6).contains(&x) { TileType::Wall } else { TileType::Floor };
        assert_eq!(at(&grid, x, 3), want);
    }
    grid.place_vertical_line(1, 4, 8, TileType::Window);
    for y in 0..6 {
        let want = if (1..=4).contains(&y) { TileType::Window } else { TileType::Floor };
        assert_eq!(at(&grid, 8, y), want);
    }
    assert_eq!(count(&grid, TileType::Floor), 60 - 5 - 4);
    grid.place_points(&vec![p(1, 1), p(0, 0), p(1, 1), p(50, 50)], TileType::Door);
    assert_eq!(count(&grid, TileType::Door), 2);
    assert_eq!(at(&grid, 1, 1), TileType::Door);
    assert_eq!(at(&grid, 0, 0), TileType::Door);
}

#[test]
fn guarded_stamp_opens_walls_only() {
    let mut grid = TileGrid::new(10, 6, TileType::Floor);
    grid.place_point(p(4, 4), TileType::Wall);
    assert!(!grid.open_wall(p(3, 3), TileType::Door));
    assert_eq!(at(&grid, 3, 3), TileType::Floor);
    assert!(grid.open_wall(p(4, 4), TileType::Door));
    assert_eq!(at(&grid, 4, 4), TileType::Door);
    let before = grid.tiles.clone();
    assert!(!grid.open_wall(p(4, 4), TileType::Door));
    assert!(!grid.open_wall(p(4, 4), TileType::Window));
    assert!(!grid.open_wall(p(40, 40), TileType::Door));
    assert!(grid.tiles == before);
    grid.place_point(p(5, 5), TileType::Wall);
    assert!(grid.open_wall(p(5, 5), TileType::Window));
    assert!(!grid.open_wall(p(5, 5), TileType::Door));
    assert_eq!(at(&grid, 5, 5), TileType::Window);
}

#[test]
fn holds_and_wall_intact() {
    let mut grid = TileGrid::new(10, 6, TileType::Floor);
    grid.place_horizontal_line(1, 4, 2, TileType::Wall);
    assert!(grid.holds(p(1, 2), TileType::Wall));
    assert!(!grid.holds(p(1, 2), TileType::Floor));
    assert!(grid.holds(p(5, 2), TileType::Floor));
    assert!(grid.holds(p(0, 0), TileType::Floor));
    assert!(!grid.holds(p(0, 0), TileType::Wall));
    assert!(!grid.holds(p(0, 9), TileType::Floor));
    let wall = vec![p(1, 2), p(2, 2), p(3, 2), p(4, 2)];
    assert!(grid.is_wall_intact(&wall));
    assert!(grid.is_wall_intact(&vec![]));
    grid.open_wall(p(3, 2), TileType::Door);
    assert!(!grid.is_wall_intact(&wall));
    assert!(grid.is_wall_intact(&vec![p(1, 2), p(2, 2)]));
    assert!(!grid.is_wall_intact(&vec![p(1, 2), p(5, 2)]));
}

#[test]
fn spans_between_leave_out_both_ends() {
    assert_eq!(column_between(4, 1, 5), vec![p(4, 2), p(4, 3), p(4, 4)]);
    assert_eq!(column_between(4, 1, 2), vec![]);
    assert_eq!(column_between(4, 1, 3), vec![p(4, 2)]);
    assert_eq!(column_between(4, 5, 1), vec![]);
    assert_eq!(row_between(7, -1, 2), vec![p(0, 7), p(1, 7)]);
    assert_eq!(row_between(7, 3, 3), vec![]);
    assert_eq!(copy_cells(&vec![p(1, 2), p(3, 4)]), vec![p(1, 2), p(3, 4)]);
}

#[test]
fn contact_needs_a_common_wall_and_an_overlap() {
    let left = r(0, 0, 10, 10);
    let right = r(10, 2, 20, 6);
    assert_eq!(contact_wall(&left, &right), Some(vec![p(10, 3), p(10, 4), p(10, 5)]));
    assert_eq!(contact_wall(&right, &left), Some(vec![p(10, 3), p(10, 4), p(10, 5)]));
    let below = r(4, 10, 8, 20);
    assert_eq!(contact_wall(&left, &below), Some(vec![p(5, 10), p(6, 10), p(7, 10)]));
    assert_eq!(contact_wall(&below, &left), Some(vec![p(5, 10), p(6, 10), p(7, 10)]));
    assert_eq!(contact_wall(&left, &r(11, 0, 20, 10)), None);
    assert_eq!(contact_wall(&left, &r(10, 10, 20, 20)), None);
    assert_eq!(contact_wall(&left, &r(10, 9, 20, 20)), Some(vec![]));
    assert_eq!(contact_wall(&left, &r(10, 8, 20, 20)), Some(vec![p(10, 9)]));
    assert_eq!(contact_wall(&right, &below), None);
}

#[test]
fn footprint_wall_takes_the_sides_on_the_footprint() {
    let building = r(1, 1, 9, 7);
    assert_eq!(footprint_wall(&r(3, 3, 5, 5), &building), None);
    assert_eq!(
        footprint_wall(&r(1, 3, 5, 6), &building),
        Some(vec![p(1, 4), p(1, 5)])
    );
    assert_eq!(
        footprint_wall(&r(5, 1, 9, 4), &building),
        Some(vec![p(9, 2), p(9, 3), p(6, 1), p(7, 1), p(8, 1)])
    );
    let whole = footprint_wall(&building, &building).unwrap();
    assert_eq!(whole.len(), 2 * 5 + 2 * 7);
    assert_eq!(whole[0], p(1, 2));
    assert_eq!(whole[5], p(9, 2));
    assert_eq!(whole[10], p(2, 1));
    assert_eq!(whole[17], p(2, 7));
    assert!(!whole.contains(&p(1, 1)));
    assert!(!whole.contains(&p(9, 7)));
}

#[test]
fn neighbours_of_three_rooms() {
    let building = r(1, 1, 21, 11);
    let rooms = vec![r(1, 1, 11, 11), r(11, 1, 21, 6), r(11, 6, 21, 11)];
    let graph = scan_for_neighbors(&rooms, building);
    assert_eq!(graph.rooms.len(), 3);
    assert_eq!(
        targets(&graph.rooms[0]),
        vec![RoomId::Interior(1), RoomId::Interior(2), RoomId::Exterior]
    );
    assert_eq!(
        targets(&graph.rooms[1]),
        vec![RoomId::Interior(0), RoomId::Interior(2), RoomId::Exterior]
    );
    assert_eq!(
        targets(&graph.rooms[2]),
        vec![RoomId::Interior(0), RoomId::Interior(1), RoomId::Exterior]
    );
    assert_eq!(
        targets(&graph.exterior),
        vec![RoomId::Interior(0), RoomId::Interior(1), RoomId::Interior(2)]
    );
    let wall_01: Vec<Point> = (2..6).map(|y| p(11, y)).collect();
    let wall_02: Vec<Point> = (7..11).map(|y| p(11, y)).collect();
    let wall_12: Vec<Point> = (12..21).map(|x| p(x, 6)).collect();
    assert_eq!(graph.rooms[0][0].shared_wall, wall_01);
    assert_eq!(graph.rooms[1][0].shared_wall, wall_01);
    assert_eq!(graph.rooms[0][1].shared_wall, wall_02);
    assert_eq!(graph.rooms[2][0].shared_wall, wall_02);
    assert_eq!(graph.rooms[1][1].shared_wall, wall_12);
    assert_eq!(graph.rooms[2][1].shared_wall, wall_12);
    for i in 0..3 {
        assert_eq!(graph.rooms[i][2].shared_wall, graph.exterior[i].shared_wall);
    }
    let mut outer_0: Vec<Point> = (2..11).map(|y| p(1, y)).collect();
    outer_0.extend((2..11).map(|x| p(x, 1)));
    outer_0.extend((2..11).map(|x| p(x, 11)));
    assert_eq!(graph.exterior[0].shared_wall, outer_0);
    assert_eq!(
        node_keys(&graph),
        vec![RoomId::Interior(0), RoomId::Interior(1), RoomId::Interior(2), RoomId::Exterior]
    );
}

#[test]
fn a_room_away_from_the_footprint_has_no_edge_to_the_outside() {
    let building = r(0, 0, 20, 20);
    let rooms = vec![r(5, 5, 10, 10), r(10, 5, 15, 10), r(0, 12, 20, 20)];
    let graph = scan_for_neighbors(&rooms, building);
    assert_eq!(targets(&graph.rooms[0]), vec![RoomId::Interior(1)]);
    assert_eq!(targets(&graph.rooms[1]), vec![RoomId::Interior(0)]);
    assert_eq!(targets(&graph.rooms[2]), vec![RoomId::Exterior]);
    assert_eq!(targets(&graph.exterior), vec![RoomId::Interior(2)]);
    let none = scan_for_neighbors(&vec![], building);
    assert!(none.rooms.is_empty() && none.exterior.is_empty());
    assert_eq!(node_keys(&none), vec![]);
    let lone = scan_for_neighbors(&vec![r(5, 5, 10, 10)], building);
    assert_eq!(lone.rooms.len(), 1);
    assert!(lone.rooms[0].is_empty());
    assert_eq!(node_keys(&lone), vec![]);
}

fn three_rooms() -> (TileGrid, Vec<Rect>, Rect) {
    let building = r(1, 1, 21, 11);
    let rooms = vec![r(1, 1, 11, 11), r(11, 1, 21, 6), r(11, 6, 21, 11)];
    let mut grid = TileGrid::new(24, 14, TileType::Floor);
    for room in rooms.iter() {
        walls(&mut grid, room);
    }
    (grid, rooms, building)
}

#[test]
fn spanning_walk_opens_one_door_per_room() {
    for seed in 0..50u64 {
        let (mut grid, rooms, building) = three_rooms();
        let before = grid.tiles.clone();
        let graph = scan_for_neighbors(&rooms, building);
        let mut rng = RandomNumberGenerator::seeded(seed);
        let connected = ensure_random_connectivity(&mut grid, &mut rng, &graph);
        assert_eq!(connected, vec![true, true, true]);
        assert_eq!(count(&grid, TileType::Door), 3);
        assert_eq!(count(&grid, TileType::Window), 0);
        for (i, t) in grid.tiles.iter().enumerate() {
            if *t != before[i] {
                assert_eq!(before[i], TileType::Wall);
                assert_eq!(*t, TileType::Door);
                let cell = p(i as i32 % 24, i as i32 / 24);
                assert!(graph.exterior.iter().any(|e| e.shared_wall.contains(&cell))
                    || graph.rooms.iter().flatten().any(|e| e.shared_wall.contains(&cell)));
            }
        }
    }
}

#[test]
fn spanning_walk_leaves_unreachable_rooms_alone() {
    let building = r(1, 1, 21, 21);
    let rooms = vec![r(5, 5, 10, 10), r(10, 5, 15, 10), r(1, 12, 21, 21)];
    let mut grid = TileGrid::new(24, 24, TileType::Floor);
    for room in rooms.iter() {
        walls(&mut grid, room);
    }
    let graph = scan_for_neighbors(&rooms, building);
    let mut rng = RandomNumberGenerator::seeded(5);
    let connected = ensure_random_connectivity(&mut grid, &mut rng, &graph);
    assert_eq!(connected, vec![false, false, true]);
    assert_eq!(count(&grid, TileType::Door), 1);
    let empty = AdjacencyGraph { exterior: vec![], rooms: vec![vec![], vec![]] };
    let before = grid.tiles.clone();
    assert_eq!(ensure_random_connectivity(&mut grid, &mut rng, &empty), vec![false, false]);
    assert!(grid.tiles == before);
}

#[test]
fn spanning_walk_does_not_open_floor() {
    let (_, rooms, building) = three_rooms();
    let mut grid = TileGrid::new(24, 14, TileType::Floor);
    let graph = scan_for_neighbors(&rooms, building);
    let mut rng = RandomNumberGenerator::seeded(9);
    let connected = ensure_random_connectivity(&mut grid, &mut rng, &graph);
    assert_eq!(connected, vec![true, true, true]);
    assert!(grid.tiles.iter().all(|t| *t == TileType::Floor));
}

#[test]
fn extra_doors_go_on_untouched_walls_only() {
    for seed in 0..30u64 {
        let (mut grid, rooms, building) = three_rooms();
        let graph = scan_for_neighbors(&rooms, building);
        let mut rng = RandomNumberGenerator::seeded(seed);
        add_random_doors(&mut grid, &mut rng, &graph, 8);
        let doors = count(&grid, TileType::Door);
        assert!(doors >= 1 && doors <= 6);
        for edges in graph.rooms.iter().chain(std::iter::once(&graph.exterior)) {
            for edge in edges.iter() {
                let on_wall = edge
                    .shared_wall
                    .iter()
                    .filter(|c| at(&grid, c.x, c.y) == TileType::Door)
                    .count();
                assert!(on_wall <= 1);
            }
        }
        let before = grid.tiles.clone();
        add_random_doors(&mut grid, &mut rng, &graph, 0);
        assert!(grid.tiles == before);
    }
}

#[test]
fn windows_go_on_the_footprint_only() {
    let mut seen = 0;
    for seed in 0..30u64 {
        let (mut grid, rooms, building) = three_rooms();
        let graph = scan_for_neighbors(&rooms, building);
        let mut rng = RandomNumberGenerator::seeded(seed);
        place_windows(&mut grid, &mut rng, &graph, 5);
        assert_eq!(count(&grid, TileType::Door), 0);
        let windows = count(&grid, TileType::Window);
        assert!(windows >= 1 && windows <= 5);
        seen += windows;
        for (i, t) in grid.tiles.iter().enumerate() {
            if *t == TileType::Window {
                let (x, y) = (i as i32 % 24, i as i32 / 24);
                assert!(x == 1 || x == 21 || y == 1 || y == 11);
                assert!((x, y) != (1, 1) && (x, y) != (21, 1) && (x, y) != (1, 11) && (x, y) != (21, 11));
            }
        }
        let inner = scan_for_neighbors(&vec![r(5, 5, 9, 9)], building);
        let before = grid.tiles.clone();
        place_windows(&mut grid, &mut rng, &inner, 5);
        assert!(grid.tiles == before);
    }
    assert!(seen > 30);
}

#[test]
fn windows_never_replace_doors() {
    for seed in 0..30u64 {
        let (mut grid, rooms, building) = three_rooms();
        let mut rng = RandomNumberGenerator::seeded(seed);
        let connected = connect_rooms(&mut grid, &mut rng, &rooms, building, 0, 0);
        assert_eq!(connected, vec![true, true, true]);
        let doors: Vec<usize> = grid
            .tiles
            .iter()
            .enumerate()
            .filter(|(_, t)| **t == TileType::Door)
            .map(|(i, _)| i)
            .collect();
        assert_eq!(doors.len(), 3);
        let graph = scan_for_neighbors(&rooms, building);
        place_windows(&mut grid, &mut rng, &graph, 200);
        add_random_doors(&mut grid, &mut rng, &graph, 200);
        ensure_random_connectivity(&mut grid, &mut rng, &graph);
        for i in doors {
            assert_eq!(grid.tiles[i], TileType::Door);
        }
    }
}

#[test]
fn frontier_starts_with_the_rooms_on_the_footprint() {
    let (_, rooms, building) = three_rooms();
    let graph = scan_for_neighbors(&rooms, building);
    assert_eq!(seed_frontier(&graph), (vec![0, 1, 2], vec![true, true, true]));
    let chain = vec![r(0, 0, 10, 10), r(10, 2, 20, 8), r(20, 0, 30, 10)];
    let graph = scan_for_neighbors(&chain, r(0, 0, 30, 10));
    assert_eq!(seed_frontier(&graph), (vec![0, 2], vec![true, false, true]));
    let inner = scan_for_neighbors(&vec![r(5, 5, 9, 9)], r(0, 0, 30, 30));
    assert_eq!(seed_frontier(&inner), (vec![], vec![false]));
}

#[test]
fn edges_toward_connected_nodes() {
    let (_, rooms, building) = three_rooms();
    let graph = scan_for_neighbors(&rooms, building);
    assert_eq!(joined_edges(&graph, 1, &vec![false, false, false]), vec![2]);
    assert_eq!(joined_edges(&graph, 1, &vec![true, false, false]), vec![0, 2]);
    assert_eq!(joined_edges(&graph, 1, &vec![true, true, true]), vec![0, 1, 2]);
    let chain = vec![r(0, 0, 10, 10), r(10, 2, 20, 8), r(20, 0, 30, 10)];
    let graph = scan_for_neighbors(&chain, r(0, 0, 30, 10));
    assert_eq!(joined_edges(&graph, 1, &vec![false, false, false]), vec![]);
    assert_eq!(joined_edges(&graph, 1, &vec![false, false, true]), vec![1]);
}

#[test]
fn neighbours_are_queued_once_in_edge_order() {
    let (_, rooms, building) = three_rooms();
    let graph = scan_for_neighbors(&rooms, building);
    let mut queued = vec![false, false, false];
    let mut frontier = vec![];
    queue_neighbors(&graph, RoomId::Interior(2), &vec![false; 3], &mut queued, &mut frontier);
    assert_eq!((frontier.clone(), queued.clone()), (vec![0, 1], vec![true, true, false]));
    queue_neighbors(&graph, RoomId::Interior(0), &vec![false; 3], &mut queued, &mut frontier);
    assert_eq!((frontier.clone(), queued.clone()), (vec![0, 1, 2], vec![true, true, true]));
    let mut queued = vec![false, false, false];
    let mut frontier = vec![];
    queue_neighbors(&graph, RoomId::Exterior, &vec![false, true, false], &mut queued, &mut frontier);
    assert_eq!((frontier, queued), (vec![0, 2], vec![true, false, true]));
}

#[test]
fn one_step_of_the_walk() {
    let (mut grid, rooms, building) = three_rooms();
    let graph = scan_for_neighbors(&rooms, building);
    let before = grid.tiles.clone();
    let mut connected = vec![false; 3];
    let (mut frontier, mut queued) = seed_frontier(&graph);
    connect_room(&mut grid, &graph, &mut connected, &mut queued, &mut frontier, 1, 2, 0);
    assert_eq!(connected, vec![false, true, false]);
    assert_eq!(queued, vec![true, false, true]);
    assert_eq!(frontier, vec![0, 2]);
    assert_eq!(at(&grid, 21, 2), TileType::Door);
    assert_eq!(count(&grid, TileType::Door), 1);
    let changed = grid.tiles.iter().zip(before.iter()).filter(|(a, b)| a != b).count();
    assert_eq!(changed, 1);
    assert_eq!(joined_edges(&graph, 2, &connected), vec![1, 2]);
    connect_room(&mut grid, &graph, &mut connected, &mut queued, &mut frontier, 1, 1, 3);
    assert_eq!(connected, vec![false, true, true]);
    assert_eq!(queued, vec![true, false, false]);
    assert_eq!(frontier, vec![0]);
    assert_eq!(at(&grid, 15, 6), TileType::Door);
    connect_room(&mut grid, &graph, &mut connected, &mut queued, &mut frontier, 0, 1, 0);
    assert_eq!(connected, vec![true, true, true]);
    assert_eq!(queued, vec![false, false, false]);
    assert!(frontier.is_empty());
    assert_eq!(at(&grid, 11, 7), TileType::Door);
    assert_eq!(count(&grid, TileType::Door), 3);

    let chain = vec![r(0, 0, 10, 10), r(10, 2, 20, 8), r(20, 0, 30, 10)];
    let graph = scan_for_neighbors(&chain, r(0, 0, 30, 10));
    let mut grid = TileGrid::new(40, 20, TileType::Wall);
    let mut connected = vec![false; 3];
    let (mut frontier, mut queued) = seed_frontier(&graph);
    connect_room(&mut grid, &graph, &mut connected, &mut queued, &mut frontier, 0, 1, 0);
    assert_eq!(connected, vec![true, false, false]);
    assert_eq!(frontier, vec![2, 1]);
    assert_eq!(queued, vec![false, true, true]);
}

#[test]
fn a_step_does_not_open_what_is_no_wall() {
    let (_, rooms, building) = three_rooms();
    let graph = scan_for_neighbors(&rooms, building);
    let mut grid = TileGrid::new(24, 14, TileType::Floor);
    let mut connected = vec![false; 3];
    let (mut frontier, mut queued) = seed_frontier(&graph);
    connect_room(&mut grid, &graph, &mut connected, &mut queued, &mut frontier, 0, 2, 5);
    assert!(grid.tiles.iter().all(|t| *t == TileType::Floor));
    assert_eq!(connected, vec![true, false, false]);
    assert_eq!(frontier, vec![1, 2]);
}

#[test]
fn connecting_a_graph_opens_walls_only() {
    for seed in 0..40u64 {
        let (mut grid, rooms, building) = three_rooms();
        let before = grid.tiles.clone();
        let graph = scan_for_neighbors(&rooms, building);
        let mut rng = RandomNumberGenerator::seeded(seed);
        let connected = connect(&mut grid, &mut rng, &graph, 8, 5);
        assert_eq!(connected, vec![true, true, true]);
        for (i, t) in grid.tiles.iter().enumerate() {
            if *t != before[i] {
                assert_eq!(before[i], TileType::Wall);
                assert!(*t == TileType::Door || *t == TileType::Window);
                let cell = p(i as i32 % 24, i as i32 / 24);
                assert!(graph.exterior.iter().any(|e| e.shared_wall.contains(&cell))
                    || graph.rooms.iter().flatten().any(|e| e.shared_wall.contains(&cell)));
            }
        }
        assert!(count(&grid, TileType::Door) >= 3);
        let snapshot: Vec<usize> = grid
            .tiles
            .iter()
            .enumerate()
            .filter(|(_, t)| **t == TileType::Door || **t == TileType::Window)
            .map(|(i, _)| i)
            .collect();
        let kinds: Vec<TileType> = snapshot.iter().map(|i| grid.tiles[*i]).collect();
        connect(&mut grid, &mut rng, &graph, 8, 5);
        for (i, kind) in snapshot.iter().zip(kinds.iter()) {
            assert_eq!(grid.tiles[*i], *kind);
        }
        let (mut plain, _, _) = three_rooms();
        let mut rng = RandomNumberGenerator::seeded(seed);
        connect(&mut plain, &mut rng, &graph, 0, 0);
        assert_eq!(count(&plain, TileType::Door), 3);
        assert_eq!(count(&plain, TileType::Window), 0);
    }
}

#[test]
fn the_first_attempt_on_whole_walls_opens() {
    for seed in 0..40u64 {
        let (grid, rooms, building) = three_rooms();
        let graph = scan_for_neighbors(&rooms, building);
        let mut rng = RandomNumberGenerator::seeded(seed);
        let mut doors = grid.tiles.clone();
        let mut one = TileGrid { tiles: doors.clone(), width: 24, height: 14 };
        add_random_doors(&mut one, &mut rng, &graph, 1);
        assert_eq!(count(&one, TileType::Door), 1);
        doors.clear();
        for attempts in 0..6 {
            let (mut many, _, _) = three_rooms();
            add_random_doors(&mut many, &mut rng, &graph, attempts);
            let opened = count(&many, TileType::Door);
            assert!(opened <= attempts as usize);
            assert_eq!(opened >= 1, attempts >= 1);
            let (mut lit, _, _) = three_rooms();
            place_windows(&mut lit, &mut rng, &graph, attempts);
            let windows = count(&lit, TileType::Window);
            assert!(windows <= attempts as usize);
            assert_eq!(windows >= 1, attempts >= 1);
        }
        let (mut none, _, _) = three_rooms();
        add_random_doors(&mut none, &mut rng, &graph, -3);
        place_windows(&mut none, &mut rng, &graph, -3);
        assert!(none.tiles == grid.tiles);
    }
}

#[test]
fn a_single_room_gets_one_door_and_few_windows() {
    for seed in 0..60u64 {
        let b = r(2, 2, 8, 8);
        let mut grid = TileGrid::new(12, 12, TileType::Floor);
        walls(&mut grid, &b);
        let before = grid.tiles.clone();
        let mut rng = RandomNumberGenerator::seeded(seed);
        let connected = connect_rooms(&mut grid, &mut rng, &vec![b], b, 8, 5);
        assert_eq!(connected, vec![true]);
        assert_eq!(count(&grid, TileType::Door), 1);
        let windows = count(&grid, TileType::Window);
        assert!(windows >= 1 && windows <= 5);
        for (i, t) in grid.tiles.iter().enumerate() {
            if *t != before[i] {
                let (x, y) = (i as i32 % 12, i as i32 / 12);
                assert_eq!(before[i], TileType::Wall);
                assert!(x == 2 || x == 8 || y == 2 || y == 8);
                assert!((2..=8).contains(&x) && (2..=8).contains(&y));
                assert!(!((x == 2 || x == 8) && (y == 2 || y == 8)));
            }
        }
    }
}

#[test]
fn the_walk_leaves_walls_of_unreached_rooms_alone() {
    let building = r(1, 1, 21, 21);
    let rooms = vec![r(5, 5, 10, 10), r(10, 5, 15, 10), r(1, 12, 21, 21)];
    for seed in 0..30u64 {
        let mut grid = TileGrid::new(24, 24, TileType::Floor);
        for room in rooms.iter() {
            walls(&mut grid, room);
        }
        let graph = scan_for_neighbors(&rooms, building);
        let mut rng = RandomNumberGenerator::seeded(seed);
        let connected = ensure_random_connectivity(&mut grid, &mut rng, &graph);
        assert_eq!(connected, vec![false, false, true]);
        for y in 5..=10 {
            for x in 5..=15 {
                assert_ne!(at(&grid, x, y), TileType::Door);
            }
        }
        assert_eq!(count(&grid, TileType::Door), 1);
    }
}

#[test]
fn no_wall_gets_a_second_extra_door() {
    for seed in 0..40u64 {
        let (mut grid, rooms, building) = three_rooms();
        let graph = scan_for_neighbors(&rooms, building);
        let mut rng = RandomNumberGenerator::seeded(seed);
        add_random_doors(&mut grid, &mut rng, &graph, 50);
        for edges in graph.rooms.iter().chain(std::iter::once(&graph.exterior)) {
            for edge in edges.iter() {
                let doors = edge
                    .shared_wall
                    .iter()
                    .filter(|c| at(&grid, c.x, c.y) == TileType::Door)
                    .count();
                assert!(doors <= 1);
            }
        }
        assert!(count(&grid, TileType::Door) <= 6);
    }
}
