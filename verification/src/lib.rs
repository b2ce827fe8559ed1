//! Collision-aware motion planning for a rectangular, rotation-constrained
//! agent moving over a discretized 2D occupancy grid.
//!
//! The crate is organised leaf-first: a bit-packed boolean array
//! ([`bitarray::BitArray`]), an occupancy grid over it ([`grid::Grid`]),
//! fixed-point angle helpers ([`trig`]), per-heading footprint masks
//! ([`agent::Agent`]), per-heading motion templates and the cost model
//! ([`cell`]), and a best-first search engine ([`pathfind`]).

pub mod agent;
pub mod bitarray;
pub mod cell;
pub mod grid;
pub mod pathfind;
pub mod trig;
