//! Nodes of the graph with their configuration and type rules.

pub mod dequant_affine;
pub mod dynamic_quantize_linear;
pub mod laws;
pub mod processor;
