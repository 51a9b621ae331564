//! The levels of a tile-based roguelike, generated and verified.
//!
//! The buildings generator packs footprints into an all-floor grid
//! ([`packer`]), partitions each into rooms ([`partition`]), builds the graph
//! of their shared walls ([`adjacency`]) and opens doors and windows
//! ([`connectivity`]). What it guarantees is stated over the flat tile grid
//! ([`grid`]): footprints keep their margin, rooms tile their footprint, no
//! opening is ever closed again, and every room can be walked out of, on
//! to the edge of the grid ([`walk`], [`reachability`], [`outdoors`],
//! [`generator`]).
//!
//! Beside it stand a second generator ([`rooms_corridors`]), the level as the
//! game holds it ([`game_map`]), and a few plain pieces of the game itself.

pub mod actions;
pub mod adjacency;
pub mod components;
pub mod config;
pub mod connectivity;
pub mod game_map;
pub mod gamelog;
pub mod generator;
pub mod geometry;
pub mod grid;
pub mod gui;
pub mod input;
pub mod map;
pub mod outdoors;
pub mod packer;
pub mod partition;
pub mod random;
pub mod random_table;
pub mod reachability;
pub mod resources;
pub mod rooms_corridors;
pub mod spawner;
pub mod walk;
