//! Spatial core of a tile-grid world: movement, path finding, field of view
//! and level generation over a rectangular grid of tiles.
//!
//! - `grid`: coordinates, flat indices and walks over a grid of tiles.
//! - `entity`: tiles and mobile actors.
//! - `engine`: directions, single-step movement and colour dimming; it also
//!   re-exports the path finder and the field of view.
//! - `astar`: the A* path finder.
//! - `vision`: the ray-cast field of view.
//! - `world`: level generation and spawning.

pub mod astar;
mod chance;
pub mod engine;
pub mod entity;
pub mod grid;
pub mod vision;
pub mod world;
