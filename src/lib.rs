//! Verified core of a tile-scheduled path tracer: axis bookkeeping for
//! rectangles and rotations, the tile grid and frame scheduler, the Perlin
//! lattice permutation tables, image texel addressing, the integrator's
//! bounce-budget decisions and the render configuration.

pub mod axis;
pub mod config;
pub mod integrator;
pub mod perlin;
pub mod schedule;
pub mod texels;
pub mod tiles;
