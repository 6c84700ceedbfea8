//! A randomly generated maze on a rectangular grid, with a single player
//! that walks it until the exit is reached.
//!
//! The grid is a flat, row-major array of tiles with bounds-checked,
//! sentinel-returning reads. Generation carves a spanning tree of passages
//! with a randomized Prim-style frontier walk; movement is a four-direction
//! state machine that rejects walls and edges and latches a win flag on
//! entering the exit.

pub mod board;
pub mod counting;
pub mod generate;
pub mod moves;
pub mod paths;
pub mod render;
pub mod tile;
