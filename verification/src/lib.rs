//! Conway's Game of Life on an unbounded two-dimensional integer lattice:
//! a sparse set of live cells, the survival rule and generation advance,
//! a scrollable and centerable viewport, and the text format the grid is
//! read from and drawn to.

pub mod point;
pub mod errors;
pub mod grid;
pub mod text;
pub mod game;

pub use errors::Error;
pub use game::split_int;
pub use game::{Game, GameIter, Settings, View, Viewport};
pub use grid::Grid;
pub use point::Point;
