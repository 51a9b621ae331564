//! The parameters of a generation pass and the ways in which a pass can
//! fall short.

use vstd::prelude::*;

verus! {

/// The longest side of a building. The split-axis weights are the squares
/// of a room's sides, and up to this length their sum fits in an `i32`.
pub const MAX_SIDE: i32 = 32767;

/// The number of rooms that are drawn for a further split after the first.
pub const PARTITION_ROUNDS: usize = 3;

/// How a generation pass can fall short.
#[derive(Clone, Copy, PartialEq, Eq, Structural, Debug)]
pub enum GenerationError {
    /// Fewer buildings were placed than were asked for.
    PlacementExhausted,
    /// A weighted draw had nothing to draw from.
    DegenerateRoomSet,
}

/// The parameters of a generation pass.
#[derive(Clone, Copy, PartialEq, Eq, Structural, Debug)]
pub struct GeneratorConfig {
    /// How many placements are attempted.
    pub max_buildings: i32,
    /// The smallest side of a footprint.
    pub building_min_size: i32,
    /// The bound, itself excluded, on the side of a footprint.
    pub building_max_size: i32,
    /// The free cells kept around every footprint.
    pub building_margin: i32,
    /// A room with a side below this is not split again.
    pub room_min_dimension: i32,
    /// How many extra doors are attempted per building.
    pub extra_door_attempts: i32,
    /// How many windows are attempted per building.
    pub window_attempts: i32,
}

impl GeneratorConfig {
    /// The counts are not negative, footprint sides can be drawn and fit
    /// `MAX_SIDE`, and a room that may be split has room for the cut.
    pub open spec fn valid(&self) -> bool {
        &&& 0 <= self.max_buildings
        &&& 2 <= self.building_min_size < self.building_max_size <= MAX_SIDE + 1
        &&& 0 <= self.building_margin
        &&& 4 <= self.room_min_dimension
        &&& 0 <= self.extra_door_attempts
        &&& 0 <= self.window_attempts
    }

    /// The default parameters: twenty attempts at footprints with sides
    /// from 24 up to 39, three cells apart; rooms split down to eight cells;
    /// eight extra doors and five windows per building.
    pub open spec fn standard() -> GeneratorConfig {
        GeneratorConfig {
            max_buildings: 20,
            building_min_size: 24,
            building_max_size: 40,
            building_margin: 3,
            room_min_dimension: 8,
            extra_door_attempts: 8,
            window_attempts: 5,
        }
    }

    /// Whether the parameters are valid.
    pub fn is_valid(&self) -> (ok: bool)
        ensures
            ok == self.valid(),
    {
        0 <= self.max_buildings && 2 <= self.building_min_size && self.building_min_size
            < self.building_max_size && self.building_max_size <= MAX_SIDE + 1 && 0
            <= self.building_margin && 4 <= self.room_min_dimension && 0
            <= self.extra_door_attempts && 0 <= self.window_attempts
    }
}

impl Default for GeneratorConfig {
    /// The standard parameters.
    fn default() -> (config: GeneratorConfig)
        ensures
            config.valid(),
            config == GeneratorConfig::standard(),
    {
        GeneratorConfig {
            max_buildings: 20,
            building_min_size: 24,
            building_max_size: 40,
            building_margin: 3,
            room_min_dimension: 8,
            extra_door_attempts: 8,
            window_attempts: 5,
        }
    }
}

} // verus!
