//! Procedural dungeon maps: a random spanning tree of rooms on a square grid,
//! special content placed on it, breadth-first routes between rooms and the
//! step-by-step movement of the player along such a route.

pub mod geometry;
pub mod config;
pub mod random;
pub mod graph;
pub mod path;
pub mod generate;
pub mod populate;
mod ids;
pub mod movement;
pub mod laws;
