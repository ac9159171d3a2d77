//! A rectangular maze, a step-by-step randomized depth-first carver for it,
//! and a step-by-step A* search for a shortest route through it.

pub mod grid;
pub mod generation;
pub mod maze;
pub mod paths;
pub mod search;
pub mod solving;
