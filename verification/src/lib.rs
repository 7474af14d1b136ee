//! Trapping Rain Water: the terrain, the exact equilibrium of water held by it,
//! and the integer parts of the terminal renderer that draws it.

pub mod algorithm;
pub mod controls;
mod flood;
pub mod frontier;
pub mod grid;
pub mod raster;
pub mod screen;
pub mod symmetry;
pub mod terrain;
