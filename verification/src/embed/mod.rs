//! From texts to the batches that an encoder runs on.

pub mod batch;
pub mod laws;
pub mod model;
pub mod model_laws;
pub mod plan;
pub mod text;
pub mod tokenizer;
pub mod wire;
