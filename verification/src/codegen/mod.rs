//! Generated source for the nodes that the rewrites make.
//!
//! The text is meant as Rust tokens: only the token sequence counts, not the
//! spacing.

pub mod dequant_affine;
pub mod dynamic_quantize_linear;
pub mod laws;
pub mod matmul_integer;
pub mod text;
