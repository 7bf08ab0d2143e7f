//! Step-by-step breadth-first search through a grid maze, with the grid
//! itself, the decisions of the frame loop that animates the search, and a
//! few small helpers of the build tooling.

pub mod maze;

pub mod search;
pub mod grid;
mod random;
pub mod text;
pub mod frame;
pub mod layers;
pub mod runs;
