pub mod grid;
pub mod map;
pub mod solver;

pub use map::{CampingMap, InvalidMapError, MapParseError, PlacementError, Tile, TransposedMap};
pub use solver::{fill_tents, presolve, solve, solve_step};
