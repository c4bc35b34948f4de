//! Integer kernels, graph rewrites and batching rules of an int8 E5 text
//! embedding pipeline, with machine-checked contracts.

pub mod arith;
pub mod attention;
pub mod bench;
pub mod codegen;
pub mod cpu_gemm;
pub mod elementwise;
pub mod embed;
pub mod gemm;
pub mod ir;
pub mod jit;
pub mod node;
pub mod procfs;
pub mod simplify;
