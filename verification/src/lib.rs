//! A solver for a three-dimensional placement puzzle: ten pieces of five
//! coloured cubes each fill a five by five by two grid, every cube on a cell
//! of its own colour.

pub mod board;
pub mod poly;
pub mod search;
pub mod solution;
pub mod text;
