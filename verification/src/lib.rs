//! Synthetic Gaussian point clouds and a verified K-means clustering engine.
//!
//! Coordinates are fixed-point integers: one unit of data space is 1000
//! coordinate steps, so `2500` stands for 2.5. All geometry, the Lloyd
//! iteration, and the dataset generator's allocation logic are verified;
//! only the raw draws from the random number generator are trusted.

use vstd::prelude::*;

pub mod assign;
pub mod generator;
pub mod geometry;
pub mod inertia;
pub mod laws;
pub mod ml;
pub mod rng;
pub mod update;

verus! {

/// A point is an ordered, fixed-length sequence of fixed-point coordinates.
pub type Point = Vec<i64>;

/// The one caller-visible failure of the library: a configuration the
/// engine or the generator cannot work with (`k == 0`, `k` larger than the
/// point count, mismatched dimensionality, a non-positive spread).
#[derive(Clone, Copy, Debug, PartialEq, Eq, Structural)]
pub enum ConfigError {
    InvalidConfiguration,
}

} // verus!
