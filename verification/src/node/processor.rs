//! What the type rules of nodes share.

use vstd::prelude::*;
use crate::ir::{ArgType, DType};
use crate::node::dequant_affine::DequantAffineNode;
use crate::node::dynamic_quantize_linear::DynamicQuantizeLinearNode;

verus! {

/// How many inputs a node takes.
#[derive(Clone, Copy, Debug, PartialEq, Eq, Structural)]
pub enum InputSpec {
    Exact(usize),
}

/// How many outputs a node has.
#[derive(Clone, Copy, Debug, PartialEq, Eq, Structural)]
pub enum OutputSpec {
    Exact(usize),
}

/// Operator sets and arity that a node goes with.
#[derive(Clone, Copy, Debug)]
pub struct NodeSpec {
    pub min_opset: usize,
    pub max_opset: Option<usize>,
    pub inputs: InputSpec,
    pub outputs: OutputSpec,
}

/// Types that later nodes would rather have of an output; the nodes here have
/// no choice to make.
#[derive(Clone, Copy, Debug)]
pub struct OutputPreferences;

impl OutputPreferences {
    pub fn new() -> Self {
        OutputPreferences
    }
}

/// What was found in place of an expected type.
#[derive(Debug)]
pub enum Found {
    Type(ArgType),
    Elem(DType),
}

/// Why a node was refused.
#[derive(Debug)]
pub enum ProcessError {
    InvalidAttribute { name: String, reason: String },
    TypeMismatch { expected: String, actual: Found },
}

/// A typed node.
#[derive(Debug)]
pub enum Node {
    DequantAffine(DequantAffineNode),
    DynamicQuantizeLinear(DynamicQuantizeLinearNode),
}

} // verus!
