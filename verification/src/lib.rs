//! Deterministic colony-simulation core: fixed-point numbers, grids, ids,
//! pathfinding, and the task/job model of the game world.
pub mod fixed_point;
pub mod text;
pub mod grid;
pub mod ids;
pub mod tile_index;
pub mod occupancy;
pub mod hashing;
pub mod astar;
pub mod components;
pub mod paths;
pub mod reservations;
pub mod tasks;
pub mod world;
pub mod execution;
pub mod planning;
pub mod scheduling;
pub mod simulation;
pub mod invariants;
pub mod scenario;
pub mod loader;
pub mod loaded;
pub mod playback;
pub mod snapshot;
pub mod cli;
pub mod pod;
pub mod sim_kit;
pub mod budget;
