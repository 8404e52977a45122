//! Blue-noise dither masks by the void-and-cluster method.
//!
//! The grid is a `width` x `width` torus whose cells are numbered
//! `x + y * width`. The energy of a cell is a sum of kernel weights, one for
//! each minority cell, where the weight depends on the squared toroidal
//! distance between the two cells. Weights are fixed-point integers taken from
//! a table indexed by that squared distance, which the caller fills (for
//! instance with a Gaussian of the distance, scaled to `u32`).
//!
//! `dither_mask` draws an initial pattern from a seeded generator, balances it
//! with `build_prototype`, and ranks every cell with `assign_ranks`; the
//! result is a permutation of `0..width * width`, and each rank is the
//! tightest cluster or largest void of the cells ranked around it.

pub mod torus;
pub mod energy;
pub mod search;
pub mod pattern;
pub mod potential;
pub mod prototype;
pub mod ranking;
pub mod sampling;
pub mod mask;

pub use torus::toroidal_sq_distance;
pub use energy::update_weights;
pub use search::{find_tightest_cluster, find_largest_void};
pub use pattern::popcount;
pub use prototype::{Prototype, build_prototype};
pub use ranking::{assign_ranks, complement_field};
pub use sampling::{initial_point_count, initial_points};
pub use mask::{kernel_len, dither_mask, ranks_from_points, rank_pixels};
