//! The known blocks of the world and the turtles that move through it.

pub mod block;
pub mod registry;
pub mod snapshot;
pub mod world;

pub use block::Block;
pub use registry::{Turtle, Turtles};
pub use snapshot::PersistenceError;
pub use world::{HeightBand, World};
