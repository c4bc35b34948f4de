//! Source of a fused affine dequantization.

use vstd::prelude::*;
use vstd::string::StringExecFns;
use crate::codegen::text::{binding, binding_text, leading_dims, leading_dims_text};
use crate::node::dequant_affine::DequantAffineNode;

verus! {

/// An operand of rank `rank` lifted to rank `target` by leading dimensions.
pub open spec fn broadcast_to(e: Seq<char>, rank: int, target: int) -> Seq<char> {
    if rank < target {
        "("@ + e + ").unsqueeze_dims(&["@ + leading_dims((target - rank) as nat) + "])"@
    } else {
        e
    }
}

/// An operand lifted by leading dimensions.
pub fn leading_broadcast(e: &String, rank: usize, target: usize) -> (s: String)
    ensures
        s@ == broadcast_to(e@, rank as int, target as int),
{
    if rank < target {
        String::from_str("(").concat(e.as_str()).concat(").unsqueeze_dims(&[").concat(
            leading_dims_text(target - rank).as_str(),
        ).concat("])")
    } else {
        e.clone()
    }
}

/// The call that a fused node becomes.
pub open spec fn dequant_call(
    x: Seq<char>,
    scale: Seq<char>,
    bias: Seq<char>,
    gelu: bool,
) -> Seq<char> {
    if gelu {
        "("@ + x + ").dequant_affine_gelu("@ + scale + ", "@ + bias + ")"@
    } else {
        "("@ + x + ").dequant_affine("@ + scale + ", "@ + bias + ")"@
    }
}

impl DequantAffineNode {
    /// Source of the node, given the expressions for `x`, scale and bias.
    pub fn forward(&self, args: &Vec<String>) -> (s: String)
        requires
            self.inputs@.len() >= 3,
            self.outputs@.len() >= 1,
            args@.len() == self.inputs@.len(),
        ensures
            s@ == binding(
                self.outputs@[0].name@,
                dequant_call(
                    args@[0]@,
                    broadcast_to(
                        args@[1]@,
                        self.inputs@[1].ty@.ranked(),
                        self.inputs@[0].ty@.ranked(),
                    ),
                    broadcast_to(
                        args@[2]@,
                        self.inputs@[2].ty@.ranked(),
                        self.inputs@[0].ty@.ranked(),
                    ),
                    self.config.apply_gelu,
                ),
            ),
    {
        let x_rank: usize = self.inputs[0].ty.rank();
        let scale: String = leading_broadcast(&args[1], self.inputs[1].ty.rank(), x_rank);
        let bias: String = leading_broadcast(&args[2], self.inputs[2].ty.rank(), x_rank);
        let head: String = String::from_str("(").concat(args[0].as_str());
        let call: String = if self.config.apply_gelu {
            head.concat(").dequant_affine_gelu(").concat(scale.as_str()).concat(", ").concat(
                bias.as_str(),
            ).concat(")")
        } else {
            head.concat(").dequant_affine(").concat(scale.as_str()).concat(", ").concat(
                bias.as_str(),
            ).concat(")")
        };
        binding_text(&self.outputs[0].name, &call)
    }
}

} // verus!
