//! Affine dequantization of an integer product: `y = x * scale + bias` in
//! floating point, with or without GELU. Made by the rewrite that folds
//! `Cast -> Mul -> Add [-> Gelu]`.

use vstd::prelude::*;
use vstd::string::StringExecFns;
use crate::ir::{
    arg_models, ArgModel, ArgType, Argument, AttrModel, AttributeValue, DType, NodeModel, RawNode, TensorModel,
    TensorType, TypeModel,
};
use crate::simplify::dequant_affine::fused_model;
use crate::node::processor::{
    Found, InputSpec, Node, NodeSpec, OutputPreferences, OutputSpec, ProcessError,
};

verus! {

/// Whether the affine dequantization also applies GELU.
#[derive(Clone, Copy, Debug)]
pub struct DequantAffineConfig {
    pub apply_gelu: bool,
}

impl DequantAffineConfig {
    pub fn new(apply_gelu: bool) -> (r: Self)
        ensures
            r.apply_gelu == apply_gelu,
    {
        DequantAffineConfig { apply_gelu }
    }
}

/// A fused affine dequantization.
#[derive(Clone, Debug)]
pub struct DequantAffineNode {
    pub name: String,
    pub inputs: Vec<Argument>,
    pub outputs: Vec<Argument>,
    pub config: DequantAffineConfig,
}

pub struct DequantAffineProcessor;

/// GELU is asked for by the integer attribute `apply_gelu` being 1.
pub open spec fn asks_gelu(node: NodeModel) -> bool {
    node.attrs.contains_key("apply_gelu"@) && node.attrs["apply_gelu"@] == AttrModel::Int64(1)
}

/// Some attribute other than `apply_gelu` is set.
pub open spec fn has_other_attribute(node: NodeModel) -> bool {
    exists|k: Seq<char>| #[trigger] node.attrs.contains_key(k) && k != "apply_gelu"@
}

/// The type of the result: `f32`, with the rank and shape of `x`.
pub open spec fn result_type(x: TensorModel) -> TypeModel {
    TypeModel::Tensor(
        TensorModel { dtype: DType::F32, rank: x.rank, static_shape: x.static_shape },
    )
}

impl DequantAffineProcessor {
    pub fn spec(&self) -> (r: NodeSpec)
        ensures
            r.min_opset == 1,
            r.max_opset is None,
            r.inputs == InputSpec::Exact(3),
            r.outputs == OutputSpec::Exact(1),
    {
        NodeSpec {
            min_opset: 1,
            max_opset: None,
            inputs: InputSpec::Exact(3),
            outputs: OutputSpec::Exact(1),
        }
    }

    /// Types the output as the `f32` image of the first input.
    pub fn infer_types(
        &self,
        node: &mut RawNode,
        _opset: usize,
        _output_preferences: &OutputPreferences,
    ) -> (r: Result<(), ProcessError>)
        requires
            old(node).inputs@.len() > 0,
            old(node).outputs@.len() > 0,
        ensures
            r is Ok == (!has_other_attribute(old(node)@) && old(node)@.inputs[0].ty is Tensor),
            r is Ok ==> final(node)@ == (NodeModel {
                outputs: old(node)@.outputs.update(
                    0,
                    ArgModel {
                        ty: result_type(old(node)@.inputs[0].ty->Tensor_0),
                        ..old(node)@.outputs[0]
                    },
                ),
                ..old(node)@
            }),
            r is Err ==> *final(node) == *old(node),
            has_other_attribute(old(node)@) ==> (r matches Err(
                ProcessError::InvalidAttribute { name, reason },
            ) && old(node)@.attrs.contains_key(name@) && name@ != "apply_gelu"@ && reason@
                == "DequantAffine only accepts 'apply_gelu', found: "@ + name@),
            !has_other_attribute(old(node)@) && !(old(node)@.inputs[0].ty is Tensor) ==> (
            r matches Err(
                ProcessError::TypeMismatch { expected, actual: Found::Type(t) },
            ) && expected@ == "Tensor"@ && t@ == old(node)@.inputs[0].ty),
    {
        if let Some(key) = node.attrs.unexpected("apply_gelu") {
            let reason: String = String::from_str(
                "DequantAffine only accepts 'apply_gelu', found: ",
            ).concat(key.as_str());
            assert(node@.attrs.contains_key(key@));
            return Err(ProcessError::InvalidAttribute { name: key, reason });
        }
        assert(node@.inputs[0] == node.inputs@[0]@);
        let ty: ArgType = match &node.inputs[0].ty {
            ArgType::Tensor(t) => {
                let t2: TensorType = t.clone();
                ArgType::Tensor(
                    TensorType {
                        dtype: DType::F32,
                        rank: t2.rank,
                        static_shape: t2.static_shape,
                    },
                )
            },
            other => {
                return Err(
                    ProcessError::TypeMismatch {
                        expected: String::from_str("Tensor"),
                        actual: Found::Type(other.clone()),
                    },
                );
            },
        };
        set_output_type(node, 0, ty);
        Ok(())
    }

    pub fn extract_config(&self, node: &RawNode, _opset: usize) -> (r: Result<
        DequantAffineConfig,
        ProcessError,
    >)
        ensures
            r matches Ok(c) && c.apply_gelu == asks_gelu(node@),
    {
        let apply_gelu: bool = match node.attrs.get("apply_gelu") {
            Some(AttributeValue::Int64(v)) => *v == 1,
            _ => false,
        };
        Ok(DequantAffineConfig { apply_gelu })
    }

    pub fn build_node(&self, builder: RawNode, _opset: usize) -> (r: Node)
        ensures
            r matches Node::DequantAffine(n) && n.name == builder.name && n.inputs
                == builder.inputs && n.outputs == builder.outputs && n.config.apply_gelu
                == asks_gelu(builder@),
    {
        let apply_gelu: bool = match builder.attrs.get("apply_gelu") {
            Some(AttributeValue::Int64(v)) => *v == 1,
            _ => false,
        };
        Node::DequantAffine(
            DequantAffineNode {
                name: builder.name,
                inputs: builder.inputs,
                outputs: builder.outputs,
                config: DequantAffineConfig { apply_gelu },
            },
        )
    }
}

/// Gives output `i` of the node another type.
pub fn set_output_type(node: &mut RawNode, i: usize, ty: ArgType)
    requires
        i < old(node).outputs@.len(),
    ensures
        final(node)@ == (NodeModel {
            outputs: old(node)@.outputs.update(
                i as int,
                ArgModel { ty: ty@, ..old(node)@.outputs[i as int] },
            ),
            ..old(node)@
        }),
        final(node).inputs == old(node).inputs,
        final(node).outputs@.len() == old(node).outputs@.len(),
{
    let ghost before = *node;
    let old_arg: Argument = node.outputs[i].clone();
    node.outputs[i] = Argument { name: old_arg.name, ty, value: old_arg.value };
    assert(arg_models(node.outputs@) =~= arg_models(before.outputs@).update(
        i as int,
        ArgModel { ty: ty@, ..before@.outputs[i as int] },
    ));
}

/// What the folding rewrite makes is what the processor takes: the node has no
/// attribute that is refused, as many inputs as the processor asks for, and
/// says whether GELU is applied.
pub proof fn law_processor_takes_what_the_rewrite_makes(
    last: NodeModel,
    x: ArgModel,
    scale: ArgModel,
    bias: ArgModel,
    apply_gelu: bool,
)
    ensures
        !has_other_attribute(fused_model(last, x, scale, bias, apply_gelu)),
        asks_gelu(fused_model(last, x, scale, bias, apply_gelu)) == apply_gelu,
        fused_model(last, x, scale, bias, apply_gelu).inputs.len() == 3,
        fused_model(last, x, scale, bias, apply_gelu).outputs == last.outputs,
{
}

} // verus!
