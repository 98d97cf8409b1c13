//! Radially spreading growth on a square lattice.
//!
//! Origins are designated at world positions, grow an expanding circular
//! frontier, and seed growth patches on the lattice cells inside that frontier.
//! Every patch matures on its own until it reaches the age cap. All quantities
//! are integers in caller-chosen fixed-point units, so that every step is exact
//! and repeatable.

pub mod config;
pub mod grid;
pub mod laws;
pub mod origins;
pub mod patches;
pub mod simulation;
pub mod spread;

pub use config::{GameConfig, Profile};
pub use grid::{snap_to_grid, Position};
pub use origins::{GrowthOrigin, OriginId, OriginRegistry};
pub use patches::{GrowthPatch, GrowthPatchStore, PatchId};
pub use simulation::{GrowthSimulation, GrowthState};
pub use spread::spread;
