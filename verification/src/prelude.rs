//! Convenient re-exports of the library's key components.

pub use crate::grid::Grid;
pub use crate::grid::VectorU;
pub use crate::AStar;
pub use crate::Cost;
pub use crate::IMPASSABLE;
