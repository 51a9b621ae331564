//! What is put into a room, and where: a weighted table of kinds and a
//! handful of distinct cells drawn inside the room.

use vstd::prelude::*;
use bracket_lib::prelude::RandomNumberGenerator;
use crate::geometry::{Point, Rect};
use crate::random::{range, roll_dice};
use crate::random_table::{weight_before, RandomTable};

verus! {

/// The most that is put into one room.
pub const MAX_SPAWNED: i32 = 5;

/// How often a cell is drawn again when it is already taken.
pub const SPAWN_TRIES: i32 = 20;

/// The kinds of things that a room can hold.
#[derive(Clone, Copy, PartialEq, Eq, Structural, Debug)]
pub enum SpawnKind {
    Goblin,
    Orc,
    HealthPotion,
    FireballScroll,
    ConfusionScroll,
    MagicMissileScroll,
    Dagger,
    Shield,
    Longsword,
    TowerShield,
}

/// The cell is one that a spawn may be put on: right of the room's first
/// column and below its first row, up to and with its last column and row.
pub open spec fn spawnable(room: Rect, p: Point) -> bool {
    room.x1 < p.x <= room.x2 && room.y1 < p.y <= room.y2
}

/// No cell occurs twice in the list.
pub open spec fn distinct(points: Seq<Point>) -> bool {
    forall|i: int, j: int| 0 <= i < j < points.len() ==> points[i] != points[j]
}

/// The table from which the kind of a spawn is drawn: goblins are common,
/// orcs and gear are rare.
pub fn room_table() -> (table: RandomTable<SpawnKind>)
    ensures
        table.wf(),
        table.items() == seq![
            SpawnKind::Goblin,
            SpawnKind::Orc,
            SpawnKind::HealthPotion,
            SpawnKind::FireballScroll,
            SpawnKind::ConfusionScroll,
            SpawnKind::MagicMissileScroll,
            SpawnKind::Dagger,
            SpawnKind::Shield,
            SpawnKind::Longsword,
            SpawnKind::TowerShield,
        ],
        table.weights() == seq![20int, 5, 7, 2, 2, 4, 3, 3, 2, 2],
        table.total() == 50,
{
    let table = RandomTable::new().add(SpawnKind::Goblin, 20).add(SpawnKind::Orc, 5).add(
        SpawnKind::HealthPotion,
        7,
    ).add(SpawnKind::FireballScroll, 2).add(SpawnKind::ConfusionScroll, 2).add(
        SpawnKind::MagicMissileScroll,
        4,
    ).add(SpawnKind::Dagger, 3).add(SpawnKind::Shield, 3).add(SpawnKind::Longsword, 2).add(
        SpawnKind::TowerShield,
        2,
    );
    assert(table.items() =~= seq![
        SpawnKind::Goblin,
        SpawnKind::Orc,
        SpawnKind::HealthPotion,
        SpawnKind::FireballScroll,
        SpawnKind::ConfusionScroll,
        SpawnKind::MagicMissileScroll,
        SpawnKind::Dagger,
        SpawnKind::Shield,
        SpawnKind::Longsword,
        SpawnKind::TowerShield,
    ]);
    assert(table.weights() =~= seq![20int, 5, 7, 2, 2, 4, 3, 3, 2, 2]);
    table
}

/// The kind that a roll from `0 .. 50` stands for: each kind has as many
/// rolls as its weight in `room_table`, in the table's order.
pub open spec fn kind_of(roll: int) -> SpawnKind {
    if roll < 20 {
        SpawnKind::Goblin
    } else if roll < 25 {
        SpawnKind::Orc
    } else if roll < 32 {
        SpawnKind::HealthPotion
    } else if roll < 34 {
        SpawnKind::FireballScroll
    } else if roll < 36 {
        SpawnKind::ConfusionScroll
    } else if roll < 40 {
        SpawnKind::MagicMissileScroll
    } else if roll < 43 {
        SpawnKind::Dagger
    } else if roll < 46 {
        SpawnKind::Shield
    } else if roll < 48 {
        SpawnKind::Longsword
    } else {
        SpawnKind::TowerShield
    }
}

/// The kind that a roll picks from `room_table`.
pub fn spawn_kind(roll: i32) -> (kind: SpawnKind)
    requires
        0 <= roll < 50,
    ensures
        kind == kind_of(roll as int),
{
    let table = room_table();
    proof {
        reveal_with_fuel(weight_before, 12);
    }
    *table.pick(roll)
}

/// Puts a spawn on the cell `dx` columns and `dy` rows from the room's
/// first corner, unless the cell is taken. Says whether it was put.
pub fn add_spawn(points: &mut Vec<Point>, room: &Rect, dx: i32, dy: i32) -> (added: bool)
    requires
        i32::MIN <= room.x1 + dx <= i32::MAX,
        i32::MIN <= room.y1 + dy <= i32::MAX,
    ensures
        added == !old(points)@.contains(
            Point { x: (room.x1 + dx) as i32, y: (room.y1 + dy) as i32 },
        ),
        final(points)@ == if added {
            old(points)@.push(Point { x: (room.x1 + dx) as i32, y: (room.y1 + dy) as i32 })
        } else {
            old(points)@
        },
{
    let pos = Point { x: room.x1 + dx, y: room.y1 + dy };
    if !is_taken(points, pos) {
        points.push(pos);
        true
    } else {
        false
    }
}

/// Whether the cell is in the list.
pub fn is_taken(points: &Vec<Point>, p: Point) -> (taken: bool)
    ensures
        taken == points@.contains(p),
{
    let mut k: usize = 0;
    while k < points.len()
        invariant
            0 <= k <= points@.len(),
            forall|c: int| 0 <= c < k ==> points@[c] != p,
        decreases points@.len() - k,
    {
        if points[k] == p {
            return true;
        }
        k = k + 1;
    }
    false
}

/// Draws the cells for the spawns of a room: a number of spawns from none
/// to `MAX_SPAWNED`, and for each a cell inside the room that is not yet
/// taken, given up after `SPAWN_TRIES` draws of a taken one.
pub fn spawn_points(rng: &mut RandomNumberGenerator, room: &Rect) -> (points: Vec<Point>)
    requires
        room.x1 < room.x2,
        room.y1 < room.y2,
        room.x2 - room.x1 < i32::MAX,
        room.y2 - room.y1 < i32::MAX,
    ensures
        points@.len() <= MAX_SPAWNED,
        distinct(points@),
        forall|k: int| 0 <= k < points@.len() ==> spawnable(*room, #[trigger] points@[k]),
{
    let mut points: Vec<Point> = Vec::new();
    let num_spawns = roll_dice(rng, 1, MAX_SPAWNED + 3) - 3;
    let mut spawn: i32 = 0;
    while spawn < num_spawns
        invariant
            room.x1 < room.x2,
            room.y1 < room.y2,
            room.x2 - room.x1 < i32::MAX,
            room.y2 - room.y1 < i32::MAX,
            num_spawns <= MAX_SPAWNED,
            0 <= spawn,
            points@.len() <= spawn,
            spawn <= num_spawns || spawn == 0,
            distinct(points@),
            forall|k: int| 0 <= k < points@.len() ==> spawnable(*room, #[trigger] points@[k]),
        decreases num_spawns - spawn,
    {
        let mut added = false;
        let mut tries: i32 = 0;
        while !added && tries < SPAWN_TRIES
            invariant
                room.x1 < room.x2,
                room.y1 < room.y2,
                room.x2 - room.x1 < i32::MAX,
                room.y2 - room.y1 < i32::MAX,
                0 <= tries <= SPAWN_TRIES,
                points@.len() <= spawn + if added {
                    1int
                } else {
                    0int
                },
                distinct(points@),
                forall|k: int| 0 <= k < points@.len() ==> spawnable(*room, #[trigger] points@[k]),
            decreases
                    if added {
                        0int
                    } else {
                        1int
                    },
                    SPAWN_TRIES - tries,
        {
            let dx = roll_dice(rng, 1, room.x2 - room.x1);
            let dy = roll_dice(rng, 1, room.y2 - room.y1);
            let ghost before = points@;
            if add_spawn(&mut points, room, dx, dy) {
                added = true;
                proof {
                    let pos = Point { x: (room.x1 + dx) as i32, y: (room.y1 + dy) as i32 };
                    assert forall|i: int, j: int| 0 <= i < j < points@.len() implies points@[i]
                        != points@[j] by {
                        if j == before.len() {
                            assert(before[i] != pos);
                        } else {
                            assert(before[i] != before[j]);
                        }
                    }
                }
            } else {
                tries = tries + 1;
            }
        }
        spawn = spawn + 1;
    }
    points
}

/// Plans the spawns of a room: the cells from `spawn_points`, each with
/// the kind that a roll over `room_table`'s total picks.
pub fn plan_spawns(rng: &mut RandomNumberGenerator, room: &Rect) -> (plan: Vec<(Point, SpawnKind)>)
    requires
        room.x1 < room.x2,
        room.y1 < room.y2,
        room.x2 - room.x1 < i32::MAX,
        room.y2 - room.y1 < i32::MAX,
    ensures
        plan@.len() <= MAX_SPAWNED,
        forall|i: int, j: int| 0 <= i < j < plan@.len() ==> plan@[i].0 != plan@[j].0,
        forall|k: int| 0 <= k < plan@.len() ==> spawnable(*room, (#[trigger] plan@[k]).0),
{
    let points = spawn_points(rng, room);
    let mut plan: Vec<(Point, SpawnKind)> = Vec::new();
    let mut k: usize = 0;
    while k < points.len()
        invariant
            0 <= k <= points@.len(),
            plan@.len() == k,
            forall|c: int| 0 <= c < k ==> (#[trigger] plan@[c]).0 == points@[c],
        decreases points@.len() - k,
    {
        let kind = spawn_kind(range(rng, 0, 50));
        plan.push((points[k], kind));
        k = k + 1;
    }
    plan
}

} // verus!
