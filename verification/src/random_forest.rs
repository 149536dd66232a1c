//! Random forests: bin edges, seeded resampling, the level-by-level build plan,
//! the fitted model's layout, and out-of-bag scoring.

pub mod edges;
pub mod model;
pub mod oob;
pub mod plan;
pub mod sampling;
pub mod schedule;
