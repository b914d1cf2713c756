//! Solvers for two pencil puzzles: Sudoku and Tents-and-Trees ("camping").
pub mod camping;
pub mod location;
pub mod sudoku;
pub mod text;
