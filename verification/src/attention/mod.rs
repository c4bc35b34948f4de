//! Planning of scaled-dot-product attention over `[batch, heads, seq, dim]`
//! tensors: which path runs, where each head lies, which scores are hidden,
//! and the integer `Q @ K^T` of the quantized path.

pub mod int8;
pub mod laws;
pub mod mask;
pub mod plan;
