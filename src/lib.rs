//! Exact k-means clustering accelerated by a multi-resolution kd-tree.
//!
//! Coordinates are fixed-point integers, so every distance comparison the
//! pruning test makes is exact and its soundness is proved.

pub mod centers;
pub mod hyper_rectangle;
pub mod mrkd;
pub mod point;
pub mod quickselect;
pub mod random;
pub mod sums;

pub use centers::{random_points, Algorithm, Centers};
pub use hyper_rectangle::HyperRectangle;
pub use mrkd::{Node, NonLeaf, Tree};
pub use point::{get_range, Point};
pub use quickselect::median;
