//! Plane geometry on an integer grid: a quadtree over located objects and the
//! stitching of loose strokes into contiguous paths.
//!
//! Every coordinate, radius and tolerance is a whole number of grid steps.
//! By convention one drawing unit is [`utils::GRID_PER_UNIT`] steps.

pub mod geometry;
pub mod quadtree;
pub mod utils;
