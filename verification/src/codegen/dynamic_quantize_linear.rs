//! Source of a dynamic quantization:
//! `scale = (max(0, max x) - min(0, min x)) / 255`,
//! `zero_point = clamp(round(-min(0, min x) / scale), 0, 255)` and
//! `y = clamp(round(x / scale) + zero_point, 0, 255)`.

use vstd::prelude::*;
use vstd::string::StringExecFns;
use crate::codegen::text::{leading_dims, leading_dims_text};
use crate::node::dynamic_quantize_linear::DynamicQuantizeLinearNode;

verus! {

/// The range of `x`, stretched to hold zero.
pub open spec fn range_source(x: Seq<char>) -> Seq<char> {
    "let x_min = ("@ + x + ").clone().min(); let x_max = ("@ + x
        + ").clone().max(); let zero = burn::tensor::Tensor::zeros_like(&x_min); let x_min_adj = x_min.clone().min_pair(zero.clone()); let x_max_adj = x_max.clone().max_pair(zero.clone()); "@
}

fn range_text(x: &String) -> (s: String)
    ensures
        s@ == range_source(x@),
{
    String::from_str("let x_min = (").concat(x.as_str()).concat(
        ").clone().min(); let x_max = (",
    ).concat(x.as_str()).concat(
        ").clone().max(); let zero = burn::tensor::Tensor::zeros_like(&x_min); let x_min_adj = x_min.clone().min_pair(zero.clone()); let x_max_adj = x_max.clone().max_pair(zero.clone()); ",
    )
}

/// Scale and zero-point from the range.
pub open spec fn params_source(scale: Seq<char>, zero_point: Seq<char>) -> Seq<char> {
    "let "@ + scale
        + " = (x_max_adj - x_min_adj.clone()).div_scalar(255f32); let zero_point_float = (zero - x_min_adj).div("@
        + scale + ".clone()); let "@ + zero_point
        + " = zero_point_float.round().clamp(0f32, 255f32).int().cast(burn::tensor::DType::U8); "@
}

fn params_text(scale: &String, zero_point: &String) -> (s: String)
    ensures
        s@ == params_source(scale@, zero_point@),
{
    String::from_str("let ").concat(scale.as_str()).concat(
        " = (x_max_adj - x_min_adj.clone()).div_scalar(255f32); let zero_point_float = (zero - x_min_adj).div(",
    ).concat(scale.as_str()).concat(".clone()); let ").concat(zero_point.as_str()).concat(
        " = zero_point_float.round().clamp(0f32, 255f32).int().cast(burn::tensor::DType::U8); ",
    )
}

/// Scale and zero-point lifted from scalars to the rank of `x`.
pub open spec fn broadcast_source(
    scale: Seq<char>,
    zero_point: Seq<char>,
    rank: nat,
) -> Seq<char> {
    "let y_scale_broadcast = ("@ + scale + ").clone().unsqueeze_dims(&["@ + leading_dims(rank)
        + "]); let y_zero_point_broadcast = ("@ + zero_point + ").clone().unsqueeze_dims(&["@
        + leading_dims(rank) + "]); "@
}

fn broadcast_text(scale: &String, zero_point: &String, rank: usize) -> (s: String)
    ensures
        s@ == broadcast_source(scale@, zero_point@, rank as nat),
{
    let dims: String = leading_dims_text(rank);
    String::from_str("let y_scale_broadcast = (").concat(scale.as_str()).concat(
        ").clone().unsqueeze_dims(&[",
    ).concat(dims.as_str()).concat("]); let y_zero_point_broadcast = (").concat(
        zero_point.as_str(),
    ).concat(").clone().unsqueeze_dims(&[").concat(dims.as_str()).concat("]); ")
}

/// The quantized tensor.
pub open spec fn quantize_source(x: Seq<char>, y: Seq<char>) -> Seq<char> {
    "let "@ + y + " = (("@ + x
        + ").div(y_scale_broadcast)).round().add(y_zero_point_broadcast.float().cast(burn::tensor::DType::F32)).clamp(0f32, 255f32).int().cast(burn::tensor::DType::U8);"@
}

fn quantize_text(x: &String, y: &String) -> (s: String)
    ensures
        s@ == quantize_source(x@, y@),
{
    String::from_str("let ").concat(y.as_str()).concat(" = ((").concat(x.as_str()).concat(
        ").div(y_scale_broadcast)).round().add(y_zero_point_broadcast.float().cast(burn::tensor::DType::F32)).clamp(0f32, 255f32).int().cast(burn::tensor::DType::U8);",
    )
}

impl DynamicQuantizeLinearNode {
    /// Source of the node, given the expression for `x`.
    pub fn forward(&self, x: &String) -> (s: String)
        requires
            self.inputs@.len() >= 1,
            self.outputs@.len() >= 3,
        ensures
            s@ == range_source(x@) + params_source(
                self.outputs@[1].name@,
                self.outputs@[2].name@,
            ) + broadcast_source(
                self.outputs@[1].name@,
                self.outputs@[2].name@,
                self.inputs@[0].ty@.ranked() as nat,
            ) + quantize_source(x@, self.outputs@[0].name@),
    {
        let scale: &String = &self.outputs[1].name;
        let zero_point: &String = &self.outputs[2].name;
        let rank: usize = self.inputs[0].ty.rank();
        range_text(x).concat(params_text(scale, zero_point).as_str()).concat(
            broadcast_text(scale, zero_point, rank).as_str(),
        ).concat(quantize_text(x, &self.outputs[0].name).as_str())
    }
}

} // verus!
