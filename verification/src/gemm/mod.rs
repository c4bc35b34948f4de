//! Integer matrix products with ONNX zero-points.

pub mod acc;
pub mod amx;
pub mod bytes;
pub mod cache;
pub mod dispatch;
pub mod laws;
pub mod model;
pub mod tiled;
pub mod vnni;
pub mod zp;
