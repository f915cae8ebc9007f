//! Greatest common divisor with Bézout coefficients, by the extended Euclidean algorithm.
pub mod euclid;
pub mod truncated;

pub use euclid::{checked_extended_euclidian_algorithm, extended_euclidian_algorithm, EuclidError, Result};
