//! Maze navigation for a micromouse robot: a wall map of a rectangular grid, a
//! distance field toward a goal cell, and the Adachi method that steers the
//! robot to the open neighbour closest to the goal.

pub mod adachi;
pub mod distance;
pub mod maze;
pub mod path_finder;
pub mod text;
