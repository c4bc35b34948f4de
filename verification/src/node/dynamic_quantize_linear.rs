//! Quantization of a float tensor to `u8` with a scale and a zero-point taken
//! from its range.

use vstd::prelude::*;
use vstd::string::StringExecFns;
use crate::ir::{
    ArgModel, ArgType, Argument, DType, NodeModel, RawNode, TensorModel, TensorType, TypeModel,
};
use crate::node::dequant_affine::set_output_type;
use crate::node::processor::{
    Found, InputSpec, Node, NodeSpec, OutputPreferences, OutputSpec, ProcessError,
};

verus! {

/// The operator has no attributes.
#[derive(Clone, Copy, Debug, Default)]
pub struct DynamicQuantizeLinearConfig;

/// A dynamic quantization: one input; the quantized tensor, its scale and its
/// zero-point as outputs.
#[derive(Clone, Debug)]
pub struct DynamicQuantizeLinearNode {
    pub name: String,
    pub inputs: Vec<Argument>,
    pub outputs: Vec<Argument>,
    pub config: DynamicQuantizeLinearConfig,
}

pub struct DynamicQuantizeLinearProcessor;

/// The type of the quantized tensor: `u8`, with the rank and shape of `x`.
pub open spec fn quantized_type(x: TypeModel) -> TypeModel {
    match x {
        TypeModel::Tensor(t) => TypeModel::Tensor(
            TensorModel { dtype: DType::U8, rank: t.rank, static_shape: t.static_shape },
        ),
        _ => TypeModel::ScalarTensor(DType::U8),
    }
}

impl DynamicQuantizeLinearProcessor {
    pub fn spec(&self) -> (r: NodeSpec)
        ensures
            r.min_opset == 11,
            r.max_opset is None,
            r.inputs == InputSpec::Exact(1),
            r.outputs == OutputSpec::Exact(3),
    {
        NodeSpec {
            min_opset: 11,
            max_opset: None,
            inputs: InputSpec::Exact(1),
            outputs: OutputSpec::Exact(3),
        }
    }

    /// Types the outputs of a float input on the device: the quantized tensor,
    /// an `f32` scale and a `u8` zero-point.
    pub fn infer_types(
        &self,
        node: &mut RawNode,
        _opset: usize,
        _output_preferences: &OutputPreferences,
    ) -> (r: Result<(), ProcessError>)
        requires
            old(node).inputs@.len() > 0,
            old(node).outputs@.len() >= 3,
        ensures
            r is Ok == (old(node)@.inputs[0].ty.on_device()
                && old(node)@.inputs[0].ty.elem().float()),
            r is Ok ==> final(node)@ == (NodeModel {
                outputs: old(node)@.outputs.update(
                    0,
                    ArgModel {
                        ty: quantized_type(old(node)@.inputs[0].ty),
                        ..old(node)@.outputs[0]
                    },
                ).update(
                    1,
                    ArgModel {
                        ty: TypeModel::ScalarTensor(DType::F32),
                        ..old(node)@.outputs[1]
                    },
                ).update(
                    2,
                    ArgModel { ty: TypeModel::ScalarTensor(DType::U8), ..old(node)@.outputs[2] },
                ),
                ..old(node)@
            }),
            r is Err ==> *final(node) == *old(node),
            !old(node)@.inputs[0].ty.on_device() ==> (r matches Err(
                ProcessError::TypeMismatch { expected, actual: Found::Type(t) },
            ) && expected@ == "on-device tensor for x"@ && t@ == old(node)@.inputs[0].ty),
            old(node)@.inputs[0].ty.on_device() && !old(node)@.inputs[0].ty.elem().float() ==> (
            r matches Err(
                ProcessError::TypeMismatch { expected, actual: Found::Elem(d) },
            ) && expected@ == "float tensor for x"@ && d == old(node)@.inputs[0].ty.elem()),
    {
        assert(node@.inputs[0] == node.inputs@[0]@);
        if !node.inputs[0].ty.is_on_device() {
            return Err(
                ProcessError::TypeMismatch {
                    expected: String::from_str("on-device tensor for x"),
                    actual: Found::Type(node.inputs[0].ty.clone()),
                },
            );
        }
        let elem: DType = node.inputs[0].ty.elem_type();
        if !elem.is_float() {
            return Err(
                ProcessError::TypeMismatch {
                    expected: String::from_str("float tensor for x"),
                    actual: Found::Elem(elem),
                },
            );
        }
        let ty: ArgType = match &node.inputs[0].ty {
            ArgType::Tensor(t) => {
                let t2: TensorType = t.clone();
                ArgType::Tensor(
                    TensorType { dtype: DType::U8, rank: t2.rank, static_shape: t2.static_shape },
                )
            },
            _ => ArgType::ScalarTensor(DType::U8),
        };
        set_output_type(node, 0, ty);
        set_output_type(node, 1, ArgType::ScalarTensor(DType::F32));
        set_output_type(node, 2, ArgType::ScalarTensor(DType::U8));
        Ok(())
    }

    pub fn extract_config(&self, _node: &RawNode, _opset: usize) -> (r: Result<
        DynamicQuantizeLinearConfig,
        ProcessError,
    >)
        ensures
            r is Ok,
    {
        Ok(DynamicQuantizeLinearConfig)
    }

    pub fn build_node(&self, builder: RawNode, _opset: usize) -> (r: Node)
        ensures
            r matches Node::DynamicQuantizeLinear(n) && n.name == builder.name && n.inputs
                == builder.inputs && n.outputs == builder.outputs,
    {
        Node::DynamicQuantizeLinear(
            DynamicQuantizeLinearNode {
                name: builder.name,
                inputs: builder.inputs,
                outputs: builder.outputs,
                config: DynamicQuantizeLinearConfig,
            },
        )
    }
}

} // verus!
