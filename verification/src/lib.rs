//! Deterministic, seed-driven color-map layouts: every point of a discretized
//! RGB color cube is assigned to exactly one cell of a square toroidal grid,
//! so that similar colors end up spatially adjacent.
//!
//! The entry point is [`layout::generate_layout`]; [`render::render_grid`]
//! turns a finished board into 8-bit pixels.

pub mod board;
pub mod color;
pub mod grid;
pub mod layout;
pub mod offsets;
pub mod render;
pub mod rng;
pub mod sort;
