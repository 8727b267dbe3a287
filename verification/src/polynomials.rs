//! The polynomial ring over a finite field: canonical coefficient sequences,
//! ring arithmetic, Euclidean division, and modular inversion.

pub mod convolution;
pub mod polynomial;
pub mod polynomial_operations;
