//! Rewrites that fold operator chains into single nodes.

pub mod dequant_affine;
pub mod gelu;
pub mod graph;
pub mod layer_norm;
pub mod laws;
pub mod scalars;
