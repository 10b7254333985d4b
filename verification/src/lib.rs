//! Finite-field arithmetic and the elliptic-curve group law.
//!
//! The crate has two layers: `finite_field` implements exact arithmetic on
//! residues modulo a prime, and `point` implements point addition on a
//! Weierstrass curve `y^2 = x^3 + A*x + B` with big-integer coordinates.

pub mod bigint;
pub mod errors;
pub mod finite_field;
pub mod point;
