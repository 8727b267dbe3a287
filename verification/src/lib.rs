//! Arithmetic over a finite field and over the polynomial ring built on it:
//! canonical coefficient sequences, ring operations, Euclidean division, and
//! modular inversion through the extended Euclidean algorithm.

pub mod galois_fields;
pub mod polynomials;
pub mod random;
