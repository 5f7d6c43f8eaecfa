//! The bounded cost grid, the route search on it and the movement commands
//! for a route.

pub mod frontier;
pub mod grid;
pub mod moves;
pub mod point;
pub mod route;
pub mod search;

pub use grid::Grid;
pub use moves::path_to_moves;
pub use point::Point3D;
pub use search::astar_find_path;
