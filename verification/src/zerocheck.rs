//! Sum-check rounds on pairs of multilinear tables.
pub mod eq;
pub mod kernels;
pub mod multilinear;
pub mod projective;
pub mod round;
