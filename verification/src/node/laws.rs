//! What the types, attributes and processors of nodes come to.

use vstd::prelude::*;
use crate::ir::{
    ArgType, Attributes, AttrModel, AttributeValue, DType, NodeModel, RawNode,
    TensorModel, TensorType, TypeModel,
};
use crate::node::dequant_affine::{
    has_other_attribute, result_type, DequantAffineConfig, DequantAffineProcessor,
};
use crate::node::dynamic_quantize_linear::{quantized_type, DynamicQuantizeLinearProcessor};
use crate::node::processor::{
    InputSpec, Node, NodeSpec, OutputPreferences, OutputSpec, ProcessError,
};

verus! {

/// Every element type is a float, a signed integer, an unsigned integer or
/// `Bool`, and one of these only.
pub proof fn law_element_types(d: &DType, f: bool, i: bool, u: bool)
    requires
        call_ensures(DType::is_float, (d,), f),
        call_ensures(DType::is_int, (d,), i),
        call_ensures(DType::is_uint, (d,), u),
    ensures
        !f || !i,
        !f || !u,
        !i || !u,
        f || i || u || *d == DType::Bool,
        *d == DType::Bool ==> !f && !i && !u,
        *d == DType::F64 || *d == DType::F32 || *d == DType::Flex32 || *d == DType::F16 || *d
            == DType::BF16 ==> f,
        *d == DType::I64 || *d == DType::I32 || *d == DType::I16 || *d == DType::I8 ==> i,
        *d == DType::U64 || *d == DType::U32 || *d == DType::U16 || *d == DType::U8 ==> u,
{
}

/// What is asked of a type is what it holds: a tensor and a scalar tensor are
/// on the device, only a tensor has a rank of its own, and a shape is a list
/// of 64-bit integers.
pub proof fn law_types(t: &ArgType, device: bool, elem: DType, rank: usize)
    requires
        call_ensures(ArgType::is_on_device, (t,), device),
        call_ensures(ArgType::elem_type, (t,), elem),
        call_ensures(ArgType::rank, (t,), rank),
    ensures
        match *t {
            ArgType::Tensor(x) => device && elem == x.dtype && rank == x.rank,
            ArgType::ScalarTensor(d) => device && elem == d && rank == 0,
            ArgType::ScalarNative(d) => !device && elem == d && rank == 0,
            ArgType::Shape(_) => !device && elem == DType::I64 && rank == 1,
        },
{
}

/// The shape of a type is known exactly where it is a tensor whose dimensions
/// are all known.
pub proof fn law_known_shapes(t: &ArgType, known: bool)
    requires
        call_ensures(ArgType::static_shape_known, (t,), known),
    ensures
        known ==> (t matches ArgType::Tensor(x) && x.static_shape is Some),
        match *t {
            ArgType::Tensor(x) => match x.static_shape {
                Some(s) => known == !(exists|i: int|
                    0 <= i < s@.len() && (#[trigger] s@[i]) is None),
                None => !known,
            },
            _ => !known,
        },
{
    if let ArgType::Tensor(x) = *t {
        if let Some(s) = x.static_shape {
            assert(x@.static_shape == Some(s@));
            assert(t@ == TypeModel::Tensor(x@));
            if !known {
                let i = choose|i: int| 0 <= i < s@.len() && !((#[trigger] s@[i]) is Some);
                assert(s@[i] is None);
            }
        }
    }
}

/// A tensor of known dimensions has one rank for each of them.
pub proof fn law_known_tensor(d: DType, dims: &Vec<usize>, t: TensorType)
    requires
        call_ensures(TensorType::new_known, (d, dims), t),
    ensures
        t.dtype == d,
        t.rank == dims@.len(),
        t.static_shape matches Some(s) && s@.len() == dims@.len() && forall|i: int|
            0 <= i < dims@.len() ==> #[trigger] s@[i] == Some(dims@[i]),
{
    assert(dims@.len() == dims.len());
    let m = t@.static_shape->0;
    assert(m == dims@.map_values(|x: usize| Some(x)));
}

/// The result of an affine dequantization is an `f32` tensor of the rank and
/// the shape of `x`.
pub proof fn law_dequantized_type(x: TensorModel)
    ensures
        result_type(x) matches TypeModel::Tensor(t) && t.dtype == DType::F32 && t.rank == x.rank
            && t.static_shape == x.static_shape,
{
}

/// The result of a quantization is a `u8` tensor of the rank and the shape of
/// `x`, and a scalar where `x` is one.
pub proof fn law_quantized_type(x: TypeModel)
    ensures
        x matches TypeModel::Tensor(t) ==> (quantized_type(x) matches TypeModel::Tensor(q)
            && q.dtype == DType::U8 && q.rank == t.rank && q.static_shape == t.static_shape),
        x is ScalarTensor ==> quantized_type(x) == TypeModel::ScalarTensor(DType::U8),
{
}

/// GELU is asked for by the integer 1 under `apply_gelu`, and by nothing else;
/// the node that is built says what the configuration says, and keeps its
/// name, inputs and outputs.
pub proof fn law_gelu_is_asked_for(
    p: &DequantAffineProcessor,
    node: RawNode,
    opset: usize,
    config: Result<DequantAffineConfig, ProcessError>,
    built: Node,
)
    requires
        call_ensures(DequantAffineProcessor::extract_config, (p, &node, opset), config),
        call_ensures(DequantAffineProcessor::build_node, (p, node, opset), built),
    ensures
        config is Ok,
        node@.attrs.contains_key("apply_gelu"@) ==> config->Ok_0.apply_gelu == (
        node@.attrs["apply_gelu"@] == AttrModel::Int64(1)),
        !node@.attrs.contains_key("apply_gelu"@) ==> !config->Ok_0.apply_gelu,
        built matches Node::DequantAffine(n) && n.config.apply_gelu == config->Ok_0.apply_gelu
            && n.name == node.name && n.inputs == node.inputs && n.outputs == node.outputs,
{
}

/// An attribute other than `apply_gelu` is a foreign one.
pub proof fn law_foreign_attributes(node: NodeModel, k: Seq<char>)
    ensures
        node.attrs.contains_key(k) && k != "apply_gelu"@ ==> has_other_attribute(node),
        node.attrs.dom().subset_of(set!["apply_gelu"@]) ==> !has_other_attribute(node),
{
    if has_other_attribute(node) {
        let j = choose|j: Seq<char>| #[trigger] node.attrs.contains_key(j) && j != "apply_gelu"@;
        assert(node.attrs.dom().contains(j));
        assert(!set!["apply_gelu"@].contains(j));
    }
}

/// A fused node takes three inputs and makes one output from the first
/// operator set on; a dynamic quantization takes one and makes three from the
/// eleventh on.
pub proof fn law_arities(
    p: &DequantAffineProcessor,
    a: NodeSpec,
    q: &DynamicQuantizeLinearProcessor,
    b: NodeSpec,
)
    requires
        call_ensures(DequantAffineProcessor::spec, (p,), a),
        call_ensures(DynamicQuantizeLinearProcessor::spec, (q,), b),
    ensures
        a.inputs == InputSpec::Exact(3) && a.outputs == OutputSpec::Exact(1),
        a.min_opset == 1 && a.max_opset is None,
        b.inputs == InputSpec::Exact(1) && b.outputs == OutputSpec::Exact(3),
        b.min_opset == 11 && b.max_opset is None,
{
}

/// An attribute is found exactly where it is set, with the value it was set
/// to.
pub proof fn law_attribute_lookup(attrs: &Attributes, name: &str, r: Option<&AttributeValue>)
    requires
        call_ensures(Attributes::get, (attrs, name), r),
    ensures
        r is Some <==> attrs@.dom().contains(name@),
        r matches Some(v) ==> v@ == attrs@[name@],
{
}

/// What a dynamic quantization is typed to: a `u8` tensor of the rank and
/// shape of its input, an `f32` scalar and a `u8` scalar. Its input has to be
/// a float on the device; names and values of the outputs stay.
pub proof fn law_quantization_types(
    q: &DynamicQuantizeLinearProcessor,
    node: &mut RawNode,
    opset: usize,
    prefs: &OutputPreferences,
    r: Result<(), ProcessError>,
    j: int,
)
    requires
        call_ensures(DynamicQuantizeLinearProcessor::infer_types, (q, node, opset, prefs), r),
        old(node).inputs@.len() > 0,
        old(node).outputs@.len() >= 3,
        0 <= j < old(node).outputs@.len(),
    ensures
        ({
            let x = old(node)@.inputs[0].ty;
            let before = old(node)@;
            let after = final(node)@;
            &&& x is Shape || x is ScalarNative ==> r is Err
            &&& (x matches TypeModel::Tensor(t) ==> (r is Ok <==> t.dtype is F64 || t.dtype is F32
                || t.dtype is Flex32 || t.dtype is F16 || t.dtype is BF16))
            &&& r is Err ==> after == before
            &&& r is Ok ==> {
                &&& (x matches TypeModel::Tensor(t) ==> (
                after.outputs[0].ty matches TypeModel::Tensor(y) && y.dtype == DType::U8 && y.rank
                    == t.rank && y.static_shape == t.static_shape))
                &&& after.outputs[1].ty == TypeModel::ScalarTensor(DType::F32)
                &&& after.outputs[2].ty == TypeModel::ScalarTensor(DType::U8)
                &&& after.outputs.len() == before.outputs.len()
                &&& after.outputs[j].name == before.outputs[j].name
                &&& after.outputs[j].value == before.outputs[j].value
                &&& after.inputs == before.inputs && after.attrs == before.attrs
            }
        }),
{
}

/// What an affine dequantization is typed to: an `f32` tensor of the rank and
/// shape of its first input. That has to be a tensor, and the node may have no
/// attribute but `apply_gelu`.
pub proof fn law_dequantization_types(
    p: &DequantAffineProcessor,
    node: &mut RawNode,
    opset: usize,
    prefs: &OutputPreferences,
    r: Result<(), ProcessError>,
    k: Seq<char>,
)
    requires
        call_ensures(DequantAffineProcessor::infer_types, (p, node, opset, prefs), r),
        old(node).inputs@.len() > 0,
        old(node).outputs@.len() > 0,
    ensures
        ({
            let x = old(node)@.inputs[0].ty;
            let before = old(node)@;
            let after = final(node)@;
            &&& !(x is Tensor) ==> r is Err
            &&& before.attrs.contains_key(k) && k != "apply_gelu"@ ==> r is Err
            &&& x is Tensor && before.attrs.dom().subset_of(set!["apply_gelu"@]) ==> r is Ok
            &&& r is Err ==> after == before
            &&& r is Ok ==> {
                &&& (x matches TypeModel::Tensor(t) && (
                after.outputs[0].ty matches TypeModel::Tensor(y) && y.dtype == DType::F32 && y.rank
                    == t.rank && y.static_shape == t.static_shape))
                &&& after.outputs.len() == before.outputs.len()
                &&& after.outputs[0].name == before.outputs[0].name
                &&& after.inputs == before.inputs && after.attrs == before.attrs
            }
        }),
{
    law_foreign_attributes(old(node)@, k);
}

/// Setting an attribute sets it and no other.
pub proof fn law_attribute_set(
    attrs: &mut Attributes,
    name: String,
    value: AttributeValue,
    k: Seq<char>,
)
    requires
        call_ensures(Attributes::insert, (attrs, name, value), ()),
    ensures
        final(attrs)@.contains_key(name@) && final(attrs)@[name@] == value@,
        k != name@ ==> final(attrs)@.contains_key(k) == old(attrs)@.contains_key(k),
        k != name@ && old(attrs)@.contains_key(k) ==> final(attrs)@[k] == old(attrs)@[k],
{
}

} // verus!
