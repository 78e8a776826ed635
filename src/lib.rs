//! A k-d tree over points with integer coordinates, with nearest-neighbour search.
//!
//! The tree is built balanced by recursive median partitioning, and accepts further
//! points by unbalanced insertion. Searches return a stored point whose squared
//! Euclidean distance to the target is minimal.

pub mod distance;
pub mod select;
pub mod kd_tree_traits;
pub mod kd_tree;

pub use distance::{is_nearest_index, sq_dist};
pub use kd_tree_traits::KdTreePoint;
pub use kd_tree::KdTree;
