//! Monte-Carlo estimation of how likely each cell of a small masked grid is to
//! be covered when a batch of rectangles is placed on it at random without
//! overlap.

pub mod api;
pub mod coverage;
pub mod estimator;
pub mod grid;
pub mod placer;
pub mod types;
