//! Constrained-propagation ("wave function collapse" style) generation of a
//! 2D tile grid.
//!
//! A small set of tiles, each with a row of adjacency rules against every
//! other tile, fills an initially empty grid so that every cell that gets
//! resolved was admissible against its already-resolved orthogonal
//! neighbours at the moment it was assigned.

pub mod errors;
pub mod generate;
pub mod grid;
pub mod possibility;
pub mod propagate;
pub mod rng;
pub mod tiles;

pub use errors::GenError;
pub use grid::Cell;
pub use grid::Grid;
pub use grid::Pos;
pub use tiles::TileSet;
