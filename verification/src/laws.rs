//! What holds of the simulation as a whole, beyond what one function does.

pub mod boulders;
pub mod caves;
pub mod chains;
pub mod clearances;
pub mod clearings;
pub mod controls;
pub mod curves;
pub mod decks;
pub mod distances;
pub mod errors;
pub mod flights;
pub mod gauges;
pub mod impacts;
pub mod journeys;
pub mod keyframes;
pub mod landings;
pub mod levels;
pub mod limits;
pub mod records;
pub mod replays;
pub mod rewards;
pub mod rises;
pub mod rocks;
pub mod rooms;
pub mod roundings;
pub mod runs;
pub mod scenes;
pub mod settings;
pub mod shapes;
pub mod solids;
pub mod surroundings;
pub mod walls;
pub mod windings;
pub mod windows;
pub mod worlds;
