//! A chunk-streaming engine for an unbounded two-dimensional tile world.
//!
//! The world is cut into square chunks. A chunk's content is generated once,
//! kept as a durable record, and materialised as live cells only while it is
//! near the observer. The engine decides; its caller reads and writes the
//! records, samples the noise field, and makes and removes the entities.
//!
//! Every function here carries a contract that Verus proves. Numbers are
//! whole throughout: world positions are fixed-point with
//! `UNITS_PER_CELL` units to the cell, noise values are fixed-point with
//! `NOISE_ONE` units to the value one, and a tile's rarity is a fraction.
//! The calls into the random number generator are believed, not proved, and
//! are marked as such where they stand, in `state`.

pub mod chunk_manager;
pub mod game_manager;
pub mod state;
pub mod util;
