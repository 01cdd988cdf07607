//! A symbolic complex-number algebra library.
//!
//! The heart of the crate is [`num::Im`], a recursively normalized symbolic
//! complex value: a sum of terms, each term optionally raised to a
//! sub-expression exponent and optionally scaled by a sub-expression
//! multiplier.  The four arithmetic operators and exponentiation keep every
//! result in a unique canonical shape.  Magnitudes are exact rationals, so
//! every simplification the engine performs is proved exact.
//!
//! On top of the number type sits [`matrix::ImMatrix`], a row-major matrix of
//! symbolic numbers with determinant, multiplication, inversion and
//! Cramer's-rule system solving, and a small collection of integer series
//! helpers in [`math`].

pub mod cast;
pub mod fmt;
pub mod laws;
pub mod math;
pub mod matrix;
pub mod num;
pub mod muldiv;
pub mod ops;
pub mod power;
pub mod rat;
