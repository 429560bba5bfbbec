//! A verified engine for Conway's Game of Life.
//!
//! Two colony representations are provided: a dense grid that keeps a
//! per-cell live-neighbour count up to date on every liveness flip, and a
//! sparse live-cell set whose neighbour counts are recomputed each
//! generation.  Both advance by the same transition rule, stated once in
//! [`rules`], and the laws relating the two stand in [`laws`].

pub mod decay;
pub mod engine;
pub mod laws;
pub mod rules;
pub mod sparse;
pub mod structs;

pub use engine::initialise;
pub use engine::initialise_with_cells;
pub use engine::process_frame;
