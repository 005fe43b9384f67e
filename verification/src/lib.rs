//! Algebraic and cryptographic primitives for a STARK-style proof system:
//! arithmetic in a fixed 128-bit prime field, univariate and multivariate
//! polynomial algebra, a Merkle commitment scheme, and a Fiat-Shamir
//! transcript.

pub mod bincode_serializer;
pub mod field;
pub mod math;
pub mod merkle;
pub mod multivariate_polynomial;
pub mod polynomial;
pub mod proof_stream;
