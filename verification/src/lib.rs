//! Path planning for mining turtles in a voxel world.
//!
//! The crate keeps the known blocks of the world, builds a bounded cost grid
//! for each query, searches it for a cheapest route and turns the route into
//! movement commands that dig where an obstacle has to be removed.

pub mod job;
pub mod pathfinder;
pub mod turtle;
