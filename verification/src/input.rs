//! From keys to commands.

use vstd::prelude::*;
use crate::geometry::Point;

verus! {

/// What the player can ask for.
#[derive(Clone, Copy, PartialEq, Eq, Structural, Debug)]
pub enum Command {
    Direction { direction: Direction },
    Grab,
    ShowInventory,
    ShowDropItem,
    ShowRemoveItem,
    ExamineMode,
    SaveQuit,
    Validate,
    Cancel,
    NextTarget,
}

/// The eight directions of a step.
#[derive(Clone, Copy, PartialEq, Eq, Structural, Debug)]
pub enum Direction {
    Left,
    Right,
    Up,
    Down,
    UpLeft,
    UpRight,
    DownLeft,
    DownRight,
}

/// The keys that the game reads. Every other key is `Other`.
#[derive(Clone, Copy, PartialEq, Eq, Structural, Debug)]
pub enum Key {
    Left,
    Right,
    Up,
    Down,
    Numpad2,
    Numpad4,
    Numpad6,
    Numpad8,
    B,
    D,
    G,
    H,
    I,
    J,
    K,
    L,
    N,
    R,
    U,
    X,
    Y,
    Tab,
    Return,
    Escape,
    Other,
}

/// The direction that a key stands for: arrows, the number pad and the
/// `hjkl` row for the four sides, `yubn` for the diagonals.
pub open spec fn direction_of(key: Key) -> Option<Direction> {
    match key {
        Key::Left | Key::Numpad4 | Key::H => Some(Direction::Left),
        Key::Right | Key::Numpad6 | Key::L => Some(Direction::Right),
        Key::Up | Key::Numpad8 | Key::K => Some(Direction::Up),
        Key::Down | Key::Numpad2 | Key::J => Some(Direction::Down),
        Key::Y => Some(Direction::UpLeft),
        Key::U => Some(Direction::UpRight),
        Key::B => Some(Direction::DownLeft),
        Key::N => Some(Direction::DownRight),
        _ => None,
    }
}

/// One cell toward the first column or the first row.
pub const BACK: i32 = -1;

/// The step that a direction stands for. Rows grow downward.
pub open spec fn offset_of(direction: Direction) -> Point {
    match direction {
        Direction::Left => Point { x: BACK, y: 0 },
        Direction::Right => Point { x: 1, y: 0 },
        Direction::Up => Point { x: 0, y: BACK },
        Direction::Down => Point { x: 0, y: 1 },
        Direction::UpLeft => Point { x: BACK, y: BACK },
        Direction::UpRight => Point { x: 1, y: BACK },
        Direction::DownLeft => Point { x: BACK, y: 1 },
        Direction::DownRight => Point { x: 1, y: 1 },
    }
}

/// The movement command of a key, if it has one.
pub fn map_direction(key: Key) -> (command: Option<Command>)
    ensures
        command == match direction_of(key) {
            Some(direction) => Some(Command::Direction { direction }),
            None => None,
        },
{
    match key {
        Key::Left | Key::Numpad4 | Key::H => Some(Command::Direction { direction: Direction::Left }),
        Key::Right | Key::Numpad6 | Key::L => Some(
            Command::Direction { direction: Direction::Right },
        ),
        Key::Up | Key::Numpad8 | Key::K => Some(Command::Direction { direction: Direction::Up }),
        Key::Down | Key::Numpad2 | Key::J => Some(Command::Direction { direction: Direction::Down }),
        Key::Y => Some(Command::Direction { direction: Direction::UpLeft }),
        Key::U => Some(Command::Direction { direction: Direction::UpRight }),
        Key::B => Some(Command::Direction { direction: Direction::DownLeft }),
        Key::N => Some(Command::Direction { direction: Direction::DownRight }),
        _ => None,
    }
}

/// The command of a key while looking around: next target, validate, cancel.
pub fn map_look_commands(key: Key) -> (command: Option<Command>)
    ensures
        command == match key {
            Key::Tab => Some(Command::NextTarget),
            Key::Return => Some(Command::Validate),
            Key::Escape => Some(Command::Cancel),
            _ => None,
        },
{
    match key {
        Key::Tab => Some(Command::NextTarget),
        Key::Return => Some(Command::Validate),
        Key::Escape => Some(Command::Cancel),
        _ => None,
    }
}

/// The command of a key while playing, movement aside.
pub fn map_other_commands(key: Key) -> (command: Option<Command>)
    ensures
        command == match key {
            Key::G => Some(Command::Grab),
            Key::I => Some(Command::ShowInventory),
            Key::D => Some(Command::ShowDropItem),
            Key::R => Some(Command::ShowRemoveItem),
            Key::X => Some(Command::ExamineMode),
            Key::Escape => Some(Command::SaveQuit),
            _ => None,
        },
{
    match key {
        Key::G => Some(Command::Grab),
        Key::I => Some(Command::ShowInventory),
        Key::D => Some(Command::ShowDropItem),
        Key::R => Some(Command::ShowRemoveItem),
        Key::X => Some(Command::ExamineMode),
        Key::Escape => Some(Command::SaveQuit),
        _ => None,
    }
}

/// The command that the first mapping with an answer gives for the key.
/// No key, or no mapping with an answer, gives no command.
pub fn map_all<F: Fn(Key) -> Option<Command>>(key: Option<Key>, mappings: &[F]) -> (command:
    Option<Command>)
    requires
        key matches Some(k) ==> forall|i: int|
            0 <= i < mappings@.len() ==> call_requires(#[trigger] mappings@[i], (k,)),
    ensures
        key.is_none() ==> command.is_none(),
        key matches Some(k) ==> match command {
            Some(found) => exists|i: int|
                0 <= i < mappings@.len() && call_ensures(#[trigger] mappings@[i], (k,), Some(found))
                    && forall|j: int|
                    0 <= j < i ==> call_ensures(#[trigger] mappings@[j], (k,), None),
            None => forall|i: int|
                0 <= i < mappings@.len() ==> call_ensures(#[trigger] mappings@[i], (k,), None),
        },
{
    match key {
        None => None,
        Some(k) => {
            let mut i: usize = 0;
            while i < mappings.len()
                invariant
                    key == Some(k),
                    0 <= i <= mappings@.len(),
                    forall|c: int|
                        0 <= c < mappings@.len() ==> call_requires(#[trigger] mappings@[c], (k,)),
                    forall|j: int| 0 <= j < i ==> call_ensures(#[trigger] mappings@[j], (k,), None),
                decreases mappings@.len() - i,
            {
                let answer = (mappings[i])(k);
                match answer {
                    Some(found) => {
                        return Some(found);
                    },
                    None => {},
                }
                i = i + 1;
            }
            None
        },
    }
}

/// The step that a direction stands for.
pub fn get_direction_offset(direction: Direction) -> (offset: Point)
    ensures
        offset == offset_of(direction),
{
    match direction {
        Direction::Left => Point { x: -1, y: 0 },
        Direction::Right => Point { x: 1, y: 0 },
        Direction::Up => Point { x: 0, y: -1 },
        Direction::Down => Point { x: 0, y: 1 },
        Direction::UpLeft => Point { x: -1, y: -1 },
        Direction::UpRight => Point { x: 1, y: -1 },
        Direction::DownLeft => Point { x: -1, y: 1 },
        Direction::DownRight => Point { x: 1, y: 1 },
    }
}

} // verus!
