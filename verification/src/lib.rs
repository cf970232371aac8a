//! Algebraic immunity of a Boolean function restricted to a subset of its
//! input space, computed exactly over GF(2).
//!
//! The crate holds a binary-matrix engine (row operations, row-echelon
//! reduction, rank, kernel extraction), a canonical monomial enumeration, and
//! the incremental annihilator search that ties them together.

pub mod gf2;
pub mod matrix;
pub mod monomials;
pub mod search;
