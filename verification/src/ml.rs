//! Machine-learning components.

pub mod clustering;
