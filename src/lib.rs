//! Perfect-maze generation on a rectangular grid with Wilson's loop-erased
//! random walk, a wall-model query interface and a text renderer.
//!
//! Coordinates are `(row, column)`, both 0-based. `Up` decreases the row,
//! `Down` increases it, `Left` decreases the column and `Right` increases it.

mod count;
pub mod maze;
mod rng;
pub mod render;
pub mod wilson;

pub use maze::{Direction, Maze, MazeError};
pub use render::render;
