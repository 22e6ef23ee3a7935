//! The projective form of the multilinear sum-check over a binary field.
//!
//! - [`poly`] and [`bits`]: the mathematical model, polynomials over the
//!   two-element field and the bits of machine words.
//! - [`field`]: field elements, unreduced products, and the laws of arithmetic.
//! - [`sum`]: finite sums of field elements.
//! - [`zerocheck`]: tables, folds and rounds.
pub mod bits;
pub mod field;
pub mod poly;
pub mod sum;
pub mod zerocheck;
