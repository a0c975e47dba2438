//! A spatial index over three-dimensional points with integer coordinates:
//! a KD-tree supporting online insertion, balanced bulk construction,
//! deletion, nearest-neighbor search, axis-aligned range search and
//! per-dimension extremum queries, backed by an axis-aligned bounding-box
//! type used for containment tests and pruning.
//!
//! Coordinates are `i64` values. Operations that only compare coordinates
//! accept the full `i64` range; operations that do arithmetic (distances,
//! variances, volumes) ask that coordinates stay within [`point::COORD_LIMIT`]
//! so every intermediate value is exact — distances are reported as exact
//! squared distances together with their floor square root.

pub mod bounded;
pub mod bounding_box;
pub mod iters;
pub mod kdtree;
pub mod point;
pub mod util;
