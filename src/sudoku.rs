pub mod board;
pub mod group;
pub mod location_set;
pub mod solver;
pub mod value_set;

pub use board::Board;
pub use solver::solve;
