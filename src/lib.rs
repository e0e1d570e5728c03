//! Perfect-maze carving on a rectangular grid by randomized depth-first search,
//! with breadth-first route finding over the carved passages and a text
//! rendering of the grid.
pub mod generate;
pub mod grid;
pub mod path;
pub mod render;

pub use generate::{carve_path, generate};
pub use grid::{directions, in_boundaries, new, Cell, CellStatus, Coord, Direction, Grid};
pub use path::find_path;
pub use render::draw;
