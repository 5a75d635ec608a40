//! The decisions, rules and little languages behind a fly loose in a house.
pub mod arrangement;
pub mod blueprint;
pub mod camera;
pub mod capture;
pub mod door;
pub mod folk;
pub mod grid;
pub mod noise;
pub mod plan;
pub mod rig;
pub mod stage;
pub mod studio;
pub mod tally;
pub mod text;
pub mod world;
