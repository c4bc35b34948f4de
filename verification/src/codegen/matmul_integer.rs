//! Source of a MatMulInteger node.
//!
//! The product keeps the element types of its operands, so that an 8-bit
//! kernel can run; zero-points are corrected on the product:
//! `(A - za) @ (B - zb) = A@B - za * sum_k(B) - sum_k(A) * zb + za * zb * K`.

use vstd::prelude::*;
use vstd::string::StringExecFns;
use crate::codegen::text::{
    binding, binding_text, clone_text, cloned_expr, decimal, decimal_text, dtype_path, dtype_tokens,
    unsqueeze_text, unsqueezed,
};
use crate::ir::{ArgModel, Argument};

verus! {

/// Integer matrix product of two tensors, with up to two zero-points.
#[derive(Debug)]
pub struct MatMulIntegerNode {
    pub name: String,
    pub inputs: Vec<Argument>,
    pub outputs: Vec<Argument>,
}

/// A zero-point cast to the type of the product and lifted to its rank. Every
/// use is of a clone, so that the value can be used again.
pub open spec fn zero_point(zp: Seq<char>, rank: nat, dtype: Seq<char>) -> Seq<char> {
    let cast = cloned_expr(zp) + ".cast("@ + dtype + ")"@;
    if rank > 1 {
        cast + ".unsqueeze::<"@ + decimal(rank) + "usize>()"@
    } else {
        cast
    }
}

fn zero_point_text(zp: &String, rank: usize, dtype: &String) -> (s: String)
    ensures
        s@ == zero_point(zp@, rank as nat, dtype@),
{
    let cast: String = clone_text(zp).concat(".cast(").concat(dtype.as_str()).concat(")");
    if rank > 1 {
        cast.concat(".unsqueeze::<").concat(decimal_text(rank).as_str()).concat("usize>()")
    } else {
        cast
    }
}

/// `(e).clone().cast(dtype).sum_dim(dim)`
pub open spec fn summed(e: Seq<char>, dtype: Seq<char>, dim: nat) -> Seq<char> {
    cloned_expr(e) + ".cast("@ + dtype + ").sum_dim("@ + decimal(dim) + "usize)"@
}

fn sum_text(e: &String, dtype: &String, dim: usize) -> (s: String)
    ensures
        s@ == summed(e@, dtype@, dim as nat),
{
    clone_text(e).concat(".cast(").concat(dtype.as_str()).concat(").sum_dim(").concat(
        decimal_text(dim).as_str(),
    ).concat("usize)")
}

/// The dimension of `A` that is summed over.
pub open spec fn k_dim_lhs(rank: nat) -> nat {
    if rank >= 1 {
        (rank - 1) as nat
    } else {
        0
    }
}

/// The dimension of `B` that is summed over.
pub open spec fn k_dim_rhs(rank: nat) -> nat {
    if rank >= 2 {
        (rank - 2) as nat
    } else {
        0
    }
}

/// `lhs @ rhs` in the types of the operands, with the zero-point correction
/// in `dtype`.
pub open spec fn product(
    lhs: Seq<char>,
    rhs: Seq<char>,
    rank: nat,
    zp_a: Option<Seq<char>>,
    zp_b: Option<Seq<char>>,
    dtype: Seq<char>,
) -> Seq<char> {
    if zp_a is None && zp_b is None {
        "("@ + lhs + ").matmul("@ + rhs + ")"@
    } else {
        let plain = cloned_expr(lhs) + ".matmul("@ + cloned_expr(rhs) + ")"@;
        let less_a = match zp_a {
            Some(za) => plain + ".sub(("@ + zero_point(za, rank, dtype) + ").mul("@ + summed(
                rhs,
                dtype,
                k_dim_rhs(rank),
            ) + "))"@,
            None => plain,
        };
        let less_b = match zp_b {
            Some(zb) => less_a + ".sub("@ + summed(lhs, dtype, k_dim_lhs(rank)) + ".mul("@
                + zero_point(zb, rank, dtype) + "))"@,
            None => less_a,
        };
        match (zp_a, zp_b) {
            (Some(za), Some(zb)) => less_b + ".add(("@ + zero_point(za, rank, dtype) + ").mul("@
                + zero_point(zb, rank, dtype) + ").mul_scalar(("@ + lhs + ").dims()["@ + decimal(
                k_dim_lhs(rank),
            ) + "usize] as i32))"@,
            _ => less_b,
        }
    }
}

/// The model of an optional expression.
pub open spec fn expr_of(e: Option<&String>) -> Option<Seq<char>> {
    match e {
        Some(s) => Some(s@),
        None => None,
    }
}

/// `lhs @ rhs` with the zero-point correction.
pub fn integer_matmul_with_zp(
    lhs: &String,
    rhs: &String,
    aligned_rank: usize,
    zp_a: Option<&String>,
    zp_b: Option<&String>,
    output_dtype: &String,
) -> (s: String)
    ensures
        s@ == product(
            lhs@,
            rhs@,
            aligned_rank as nat,
            expr_of(zp_a),
            expr_of(zp_b),
            output_dtype@,
        ),
{
    if zp_a.is_none() && zp_b.is_none() {
        return String::from_str("(").concat(lhs.as_str()).concat(").matmul(").concat(
            rhs.as_str(),
        ).concat(")");
    }
    let k_lhs: usize = if aligned_rank >= 1 {
        aligned_rank - 1
    } else {
        0
    };
    let k_rhs: usize = if aligned_rank >= 2 {
        aligned_rank - 2
    } else {
        0
    };
    let mut prod: String = clone_text(lhs).concat(".matmul(").concat(
        clone_text(rhs).as_str(),
    ).concat(")");
    if let Some(zp) = zp_a {
        prod = prod.concat(".sub((").concat(
            zero_point_text(zp, aligned_rank, output_dtype).as_str(),
        ).concat(").mul(").concat(sum_text(rhs, output_dtype, k_rhs).as_str()).concat("))");
    }
    if let Some(zp) = zp_b {
        prod = prod.concat(".sub(").concat(sum_text(lhs, output_dtype, k_lhs).as_str()).concat(
            ".mul(",
        ).concat(zero_point_text(zp, aligned_rank, output_dtype).as_str()).concat("))");
    }
    if let (Some(za), Some(zb)) = (zp_a, zp_b) {
        prod = prod.concat(".add((").concat(
            zero_point_text(za, aligned_rank, output_dtype).as_str(),
        ).concat(").mul(").concat(
            zero_point_text(zb, aligned_rank, output_dtype).as_str(),
        ).concat(").mul_scalar((").concat(lhs.as_str()).concat(").dims()[").concat(
            decimal_text(k_lhs).as_str(),
        ).concat("usize] as i32))");
    }
    prod
}

/// `-1isize` and then `extra` times `0isize`: a vector as a column, under
/// `extra` leading dimensions.
pub open spec fn column_dims(extra: nat) -> Seq<char>
    decreases extra,
{
    if extra == 0 {
        "-1isize"@
    } else {
        column_dims((extra - 1) as nat) + ", 0isize"@
    }
}

fn column_dims_text(extra: usize) -> (s: String)
    ensures
        s@ == column_dims(extra as nat),
    decreases extra,
{
    if extra == 0 {
        String::from_str("-1isize")
    } else {
        column_dims_text(extra - 1).concat(", 0isize")
    }
}

/// `(p).squeeze_dim::<rank>(dim)`
pub open spec fn squeezed(p: Seq<char>, rank: nat, dim: nat) -> Seq<char> {
    "("@ + p + ").squeeze_dim::<"@ + decimal(rank) + "usize>("@ + decimal(dim) + "usize)"@
}

fn squeeze_text(p: &String, rank: usize, dim: usize) -> (s: String)
    ensures
        s@ == squeezed(p@, rank as nat, dim as nat),
{
    String::from_str("(").concat(p.as_str()).concat(").squeeze_dim::<").concat(
        decimal_text(rank).as_str(),
    ).concat("usize>(").concat(decimal_text(dim).as_str()).concat("usize)")
}

/// The product of operands of ranks `l` and `r`: the lower one is lifted to
/// the rank of the other, and the dimension that a vector brought in is
/// taken out of the result again.
pub open spec fn aligned_product(
    lhs: Seq<char>,
    rhs: Seq<char>,
    l: nat,
    r: nat,
    zp_a: Option<Seq<char>>,
    zp_b: Option<Seq<char>>,
    dtype: Seq<char>,
) -> Seq<char> {
    if l > r {
        if r == 1 {
            let column = cloned_expr(rhs) + ".unsqueeze_dims(&["@ + column_dims((l - r - 1) as nat)
                + "])"@;
            squeezed(
                product(lhs, column, l, zp_a, zp_b, dtype),
                (l - 1) as nat,
                (l - 1) as nat,
            )
        } else {
            product(lhs, unsqueezed(rhs, l), l, zp_a, zp_b, dtype)
        }
    } else if l < r {
        let lifted = product(unsqueezed(lhs, r), rhs, r, zp_a, zp_b, dtype);
        if l == 1 {
            squeezed(lifted, (r - 1) as nat, (r - 2) as nat)
        } else {
            lifted
        }
    } else {
        product(lhs, rhs, l, zp_a, zp_b, dtype)
    }
}

/// Rank of a tensor argument.
pub open spec fn tensor_rank(arg: ArgModel) -> nat {
    arg.ty.ranked() as nat
}

impl MatMulIntegerNode {
    /// Both operands are tensors, and there is an output.
    pub open spec fn wf(self) -> bool {
        &&& self.inputs@.len() >= 2
        &&& self.outputs@.len() >= 1
        &&& self.inputs@[0].ty@ is Tensor
        &&& self.inputs@[1].ty@ is Tensor
    }

    /// Source of the node, given the expression for each input.
    pub fn forward(&self, args: &Vec<String>) -> (s: String)
        requires
            self.wf(),
            args@.len() == self.inputs@.len(),
        ensures
            s@ == binding(
                self.outputs@[0].name@,
                aligned_product(
                    args@[0]@,
                    args@[1]@,
                    tensor_rank(self.inputs@[0]@),
                    tensor_rank(self.inputs@[1]@),
                    if args@.len() > 2 {
                        Some(args@[2]@)
                    } else {
                        None
                    },
                    if args@.len() > 3 {
                        Some(args@[3]@)
                    } else {
                        None
                    },
                    dtype_path(self.outputs@[0].ty@.elem()),
                ),
            ),
    {
        let lhs: &String = &args[0];
        let rhs: &String = &args[1];
        let dtype: String = dtype_tokens(self.outputs[0].ty.elem_type());
        let l: usize = self.inputs[0].ty.rank();
        let r: usize = self.inputs[1].ty.rank();
        let zp_a: Option<&String> = if args.len() > 2 {
            Some(&args[2])
        } else {
            None
        };
        let zp_b: Option<&String> = if args.len() > 3 {
            Some(&args[3])
        } else {
            None
        };
        let value: String = if l > r {
            if r == 1 {
                let column: String = clone_text(rhs).concat(".unsqueeze_dims(&[").concat(
                    column_dims_text(l - r - 1).as_str(),
                ).concat("])");
                squeeze_text(
                    &integer_matmul_with_zp(lhs, &column, l, zp_a, zp_b, &dtype),
                    l - 1,
                    l - 1,
                )
            } else {
                integer_matmul_with_zp(lhs, &unsqueeze_text(rhs, l), l, zp_a, zp_b, &dtype)
            }
        } else if l < r {
            let lifted: String = integer_matmul_with_zp(
                &unsqueeze_text(lhs, r),
                rhs,
                r,
                zp_a,
                zp_b,
                &dtype,
            );
            if l == 1 {
                squeeze_text(&lifted, r - 1, r - 2)
            } else {
                lifted
            }
        } else {
            integer_matmul_with_zp(lhs, rhs, l, zp_a, zp_b, &dtype)
        };
        binding_text(&self.outputs[0].name, &value)
    }
}

} // verus!
