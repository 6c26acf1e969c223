//! A small fixed-dimension linear-algebra toolkit over exact rational
//! scalars: vectors and matrices with arithmetic operators, determinants,
//! and a Gauss-Jordan solver for augmented linear systems, together with a
//! companion toolkit of integer routines (factorials, combinations, prime
//! factorization, modular exponentiation).
//!
//! All scalar arithmetic is exact: a scalar is a reduced fraction of two
//! 64-bit integers, and every operation states precisely which rational
//! value it returns.

pub mod rational;
pub mod integer;
pub mod vector;
pub mod matrix;
pub mod solver;
