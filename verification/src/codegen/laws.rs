//! What the generated source says, piece by piece.

use vstd::prelude::*;
use crate::codegen::dequant_affine::leading_broadcast;
use crate::codegen::matmul_integer::{column_dims, integer_matmul_with_zp, MatMulIntegerNode};
use crate::codegen::text::{decimal, decimal_text, digit, dtype_tokens, leading_dims_text};
use crate::ir::{DType, TypeModel};
use crate::node::dequant_affine::DequantAffineNode;
use crate::node::dynamic_quantize_linear::DynamicQuantizeLinearNode;

verus! {

/// The number that decimal digits stand for.
pub open spec fn read_decimal(s: Seq<char>) -> int
    decreases s.len(),
{
    if s.len() == 0 {
        0
    } else {
        10 * read_decimal(s.drop_last()) + (s.last() as u32 - '0' as u32)
    }
}

/// A number in decimal reads as the number, is made of digits, and begins with
/// a zero only where it is zero.
pub proof fn law_decimal(n: usize, s: String)
    requires
        call_ensures(decimal_text, (n,), s),
    ensures
        read_decimal(s@) == n,
        s@.len() > 0,
        forall|i: int| 0 <= i < s@.len() ==> '0' as u32 <= (#[trigger] s@[i]) as u32 <= '9' as u32,
        s@[0] == '0' ==> n == 0,
{
    lemma_decimal(n as nat);
}

proof fn lemma_decimal(n: nat)
    ensures
        read_decimal(decimal(n)) == n,
        decimal(n).len() > 0,
        forall|i: int| 0 <= i < decimal(n).len() ==> '0' as u32 <= (#[trigger] decimal(n)[i]) as u32 <= '9' as u32,
        decimal(n)[0] == '0' ==> n == 0,
    decreases n,
{
    lemma_digit(n % 10);
    if n < 10 {
        lemma_digit(n);
        assert(digit(n).drop_last() =~= Seq::<char>::empty());
        assert(read_decimal(Seq::<char>::empty()) == 0);
    } else {
        lemma_decimal(n / 10);
        assert(decimal(n).drop_last() =~= decimal(n / 10));
        assert forall|i: int| 0 <= i < decimal(n).len() implies '0' as u32 <= (
        #[trigger] decimal(n)[i]) as u32 <= '9' as u32 by {
            if i < decimal(n / 10).len() {
                assert(decimal(n)[i] == decimal(n / 10)[i]);
            }
        }
    }
}

proof fn lemma_digit(d: nat)
    requires
        d < 10,
    ensures
        digit(d).len() == 1,
        digit(d)[0] as u32 == '0' as u32 + d,
{
    reveal_strlit("0");
    reveal_strlit("1");
    reveal_strlit("2");
    reveal_strlit("3");
    reveal_strlit("4");
    reveal_strlit("5");
    reveal_strlit("6");
    reveal_strlit("7");
    reveal_strlit("8");
    reveal_strlit("9");
}

/// The leading dimensions are counted from 0, one after the other.
pub proof fn law_leading_dims(n: usize, s: String, before: String, d: String)
    requires
        call_ensures(leading_dims_text, (n,), s),
        n > 1 ==> call_ensures(leading_dims_text, ((n - 1) as usize,), before),
        n > 1 ==> call_ensures(decimal_text, ((n - 1) as usize,), d),
    ensures
        n == 0 ==> s@ == ""@,
        n == 1 ==> s@ == "0isize"@,
        n > 1 ==> s@ == before@ + ", "@ + d@ + "isize"@,
{
}

/// An element type is named by its path.
pub proof fn law_dtype_paths(d: DType, s: String)
    requires
        call_ensures(dtype_tokens, (d,), s),
    ensures
        d is F64 ==> s@ == "burn::tensor::DType::F64"@,
        d is F32 ==> s@ == "burn::tensor::DType::F32"@,
        d is Flex32 ==> s@ == "burn::tensor::DType::Flex32"@,
        d is F16 ==> s@ == "burn::tensor::DType::F16"@,
        d is BF16 ==> s@ == "burn::tensor::DType::BF16"@,
        d is I64 ==> s@ == "burn::tensor::DType::I64"@,
        d is I32 ==> s@ == "burn::tensor::DType::I32"@,
        d is I16 ==> s@ == "burn::tensor::DType::I16"@,
        d is I8 ==> s@ == "burn::tensor::DType::I8"@,
        d is U64 ==> s@ == "burn::tensor::DType::U64"@,
        d is U32 ==> s@ == "burn::tensor::DType::U32"@,
        d is U16 ==> s@ == "burn::tensor::DType::U16"@,
        d is U8 ==> s@ == "burn::tensor::DType::U8"@,
        d is Bool ==> s@ == "burn::tensor::DType::Bool"@,
{
}

/// An operand of lower rank gets as many leading dimensions as it lacks, and
/// any other stays as it is.
pub proof fn law_leading_broadcast(
    e: &String,
    rank: usize,
    target: usize,
    dims: String,
    s: String,
)
    requires
        call_ensures(leading_broadcast, (e, rank, target), s),
        rank < target ==> call_ensures(leading_dims_text, ((target - rank) as usize,), dims),
    ensures
        rank < target ==> s@ == "("@ + e@ + ").unsqueeze_dims(&["@ + dims@ + "])"@,
        rank >= target ==> s@ == e@,
{
}

/// The rank that a tensor argument has.
pub open spec fn has_rank(ty: TypeModel, rank: usize) -> bool {
    match ty {
        TypeModel::Tensor(t) => rank == t.rank,
        TypeModel::Shape(_) => rank == 1,
        _ => rank == 0,
    }
}

/// The source of an affine dequantization: the output is bound to a call on
/// `x` with the scale first and the bias second, each lifted to the rank of
/// `x`, and the call is the one with GELU where GELU is asked for.
pub proof fn law_dequant_affine_source(
    node: &DequantAffineNode,
    args: &Vec<String>,
    x_rank: usize,
    scale_rank: usize,
    bias_rank: usize,
    scale: String,
    bias: String,
    s: String,
)
    requires
        call_ensures(DequantAffineNode::forward, (node, args), s),
        node.inputs@.len() >= 3,
        has_rank(node.inputs@[0].ty@, x_rank),
        has_rank(node.inputs@[1].ty@, scale_rank),
        has_rank(node.inputs@[2].ty@, bias_rank),
        call_ensures(leading_broadcast, (&args@[1], scale_rank, x_rank), scale),
        call_ensures(leading_broadcast, (&args@[2], bias_rank, x_rank), bias),
    ensures
        node.config.apply_gelu ==> s@ == "let "@ + node.outputs@[0].name@ + " = "@ + ("("@
            + args@[0]@ + ").dequant_affine_gelu("@ + scale@ + ", "@ + bias@ + ")"@) + ";"@,
        !node.config.apply_gelu ==> s@ == "let "@ + node.outputs@[0].name@ + " = "@ + ("("@
            + args@[0]@ + ").dequant_affine("@ + scale@ + ", "@ + bias@ + ")"@) + ";"@,
{
}

/// The source of a dynamic quantization: the range of `x` stretched to zero,
/// the scale as its width over 255, the zero-point as the rounded place of
/// zero in it, and the output as `x` over the scale, rounded, plus the
/// zero-point, clamped to a byte.
pub proof fn law_dynamic_quantize_source(
    node: &DynamicQuantizeLinearNode,
    x: &String,
    rank: usize,
    dims: String,
    s: String,
)
    requires
        call_ensures(DynamicQuantizeLinearNode::forward, (node, x), s),
        node.inputs@.len() >= 1,
        has_rank(node.inputs@[0].ty@, rank),
        call_ensures(leading_dims_text, (rank,), dims),
    ensures
        ({
            let y = node.outputs@[0].name@;
            let scale = node.outputs@[1].name@;
            let point = node.outputs@[2].name@;
            s@ == ("let x_min = ("@ + x@ + ").clone().min(); let x_max = ("@ + x@
                + ").clone().max(); let zero = burn::tensor::Tensor::zeros_like(&x_min); let x_min_adj = x_min.clone().min_pair(zero.clone()); let x_max_adj = x_max.clone().max_pair(zero.clone()); "@)
                + ("let "@ + scale
                + " = (x_max_adj - x_min_adj.clone()).div_scalar(255f32); let zero_point_float = (zero - x_min_adj).div("@
                + scale + ".clone()); let "@ + point
                + " = zero_point_float.round().clamp(0f32, 255f32).int().cast(burn::tensor::DType::U8); "@)
                + ("let y_scale_broadcast = ("@ + scale + ").clone().unsqueeze_dims(&["@ + dims@
                + "]); let y_zero_point_broadcast = ("@ + point + ").clone().unsqueeze_dims(&["@
                + dims@ + "]); "@) + ("let "@ + y + " = (("@ + x@
                + ").div(y_scale_broadcast)).round().add(y_zero_point_broadcast.float().cast(burn::tensor::DType::F32)).clamp(0f32, 255f32).int().cast(burn::tensor::DType::U8);"@)
        }),
{
}

/// The source of a product without zero-points.
pub proof fn law_plain_product_source(
    lhs: &String,
    rhs: &String,
    rank: usize,
    dtype: &String,
    s: String,
)
    requires
        call_ensures(integer_matmul_with_zp, (lhs, rhs, rank, None, None, dtype), s),
    ensures
        s@ == "("@ + lhs@ + ").matmul("@ + rhs@ + ")"@,
{
}

/// The source of a zero-point: cast to the type of the product, and lifted to
/// the rank where that is more than 1.
pub open spec fn point_source(
    zp: Seq<char>,
    rank: int,
    rank_text: Seq<char>,
    dtype: Seq<char>,
) -> Seq<char> {
    if rank > 1 {
        ("("@ + zp + ").clone()"@ + ".cast("@ + dtype + ")"@) + ".unsqueeze::<"@ + rank_text
            + "usize>()"@
    } else {
        "("@ + zp + ").clone()"@ + ".cast("@ + dtype + ")"@
    }
}

/// The source of a product with zero-points, where the rank is at least 2: the
/// product of clones, less the first zero-point times the sums of the second
/// operand over its last dimension but one, less the sums of the first operand
/// over its last dimension times the second zero-point, and, with both, plus
/// the product of the two times the length of that dimension.
pub proof fn law_product_source(
    lhs: &String,
    rhs: &String,
    rank: usize,
    zp_a: Option<&String>,
    zp_b: Option<&String>,
    dtype: &String,
    rank_text: String,
    last: String,
    before_last: String,
    s: String,
)
    requires
        call_ensures(integer_matmul_with_zp, (lhs, rhs, rank, zp_a, zp_b, dtype), s),
        zp_a is Some || zp_b is Some,
        rank >= 2,
        call_ensures(decimal_text, (rank,), rank_text),
        call_ensures(decimal_text, ((rank - 1) as usize,), last),
        call_ensures(decimal_text, ((rank - 2) as usize,), before_last),
    ensures
        ({
            let d = dtype@;
            let plain = ("("@ + lhs@ + ").clone()"@) + ".matmul("@ + ("("@ + rhs@ + ").clone()"@)
                + ")"@;
            let sum_a = ("("@ + lhs@ + ").clone()"@) + ".cast("@ + d + ").sum_dim("@ + last@
                + "usize)"@;
            let sum_b = ("("@ + rhs@ + ").clone()"@) + ".cast("@ + d + ").sum_dim("@ + before_last@
                + "usize)"@;
            match (zp_a, zp_b) {
                (Some(a), None) => s@ == plain + ".sub(("@ + point_source(
                    a@,
                    rank as int,
                    rank_text@,
                    d,
                ) + ").mul("@ + sum_b + "))"@,
                (None, Some(b)) => s@ == plain + ".sub("@ + sum_a + ".mul("@ + point_source(
                    b@,
                    rank as int,
                    rank_text@,
                    d,
                ) + "))"@,
                (Some(a), Some(b)) => {
                    let za = point_source(a@, rank as int, rank_text@, d);
                    let zb = point_source(b@, rank as int, rank_text@, d);
                    s@ == (plain + ".sub(("@ + za + ").mul("@ + sum_b + "))"@) + ".sub("@ + sum_a
                        + ".mul("@ + zb + "))"@ + ".add(("@ + za + ").mul("@ + zb
                        + ").mul_scalar(("@ + lhs@ + ").dims()["@ + last@ + "usize] as i32))"@
                },
                _ => true,
            }
        }),
{
}

/// The source of an integer product node: the output is bound to the product,
/// in the element type of the output and with the third and fourth input as
/// zero-points, of the operands at one rank. The operand of lower rank is
/// lifted, a vector on the right as a column, and what a vector brought in is
/// squeezed out again.
pub proof fn law_matmul_integer_source(
    node: &MatMulIntegerNode,
    args: &Vec<String>,
    l: usize,
    r: usize,
    dtype: String,
    lhs: String,
    rhs: String,
    l_text: String,
    r_text: String,
    l_less: String,
    r_less: String,
    r_least: String,
    value: String,
    s: String,
)
    requires
        call_ensures(MatMulIntegerNode::forward, (node, args), s),
        node.inputs@.len() >= 2,
        args@.len() == node.inputs@.len(),
        node.inputs@[0].ty@ matches TypeModel::Tensor(t) && t.rank == l,
        node.inputs@[1].ty@ matches TypeModel::Tensor(t) && t.rank == r,
        l >= 1 && r >= 1,
        call_ensures(decimal_text, (l,), l_text),
        call_ensures(decimal_text, (r,), r_text),
        node.outputs@[0].ty@ matches TypeModel::Tensor(t) && call_ensures(
            dtype_tokens,
            (t.dtype,),
            dtype,
        ),
        l >= r ==> lhs@ == args@[0]@,
        l < r ==> lhs@ == ("("@ + args@[0]@ + ").clone()"@) + ".unsqueeze::<"@ + r_text@
            + "usize>()"@,
        l <= r ==> rhs@ == args@[1]@,
        l > r && r > 1 ==> rhs@ == ("("@ + args@[1]@ + ").clone()"@) + ".unsqueeze::<"@ + l_text@
            + "usize>()"@,
        l > r && r == 1 ==> rhs@ == ("("@ + args@[1]@ + ").clone()"@) + ".unsqueeze_dims(&["@ + (
        "-1isize"@ + Seq::new((l - 2) as nat, |i: int| ", 0isize"@).flatten_alt()) + "])"@,
        l > 1 ==> call_ensures(decimal_text, ((l - 1) as usize,), l_less),
        r > 1 ==> call_ensures(decimal_text, ((r - 1) as usize,), r_less),
        r > 1 ==> call_ensures(decimal_text, ((r - 2) as usize,), r_least),
        call_ensures(
            integer_matmul_with_zp,
            (
                &lhs,
                &rhs,
                (if l < r {
                    r
                } else {
                    l
                }),
                (if args@.len() > 2 {
                    Some(&args@[2])
                } else {
                    None
                }),
                (if args@.len() > 3 {
                    Some(&args@[3])
                } else {
                    None
                }),
                &dtype,
            ),
            value,
        ),
    ensures
        l == r || (l > 1 && r > 1) ==> s@ == "let "@ + node.outputs@[0].name@ + " = "@ + value@
            + ";"@,
        l > 1 && r == 1 ==> s@ == "let "@ + node.outputs@[0].name@ + " = "@ + ("("@ + value@
            + ").squeeze_dim::<"@ + l_less@ + "usize>("@ + l_less@ + "usize)"@) + ";"@,
        l == 1 && r > 1 ==> s@ == "let "@ + node.outputs@[0].name@ + " = "@ + ("("@ + value@
            + ").squeeze_dim::<"@ + r_less@ + "usize>("@ + r_least@ + "usize)"@) + ";"@,
{
    if l > r && r == 1 {
        lemma_column_dims((l - 2) as nat);
    }
}

proof fn lemma_column_dims(extra: nat)
    ensures
        column_dims(extra) == "-1isize"@ + Seq::new(
            extra,
            |i: int| ", 0isize"@,
        ).flatten_alt(),
    decreases extra,
{
    let all = Seq::new(extra, |i: int| ", 0isize"@);
    if extra == 0 {
        assert("-1isize"@ + all.flatten_alt() =~= "-1isize"@);
    } else {
        lemma_column_dims((extra - 1) as nat);
        assert(all.drop_last() =~= Seq::new((extra - 1) as nat, |i: int| ", 0isize"@));
        assert(all.last() == ", 0isize"@);
        assert(column_dims(extra) =~= "-1isize"@ + all.flatten_alt());
    }
}

} // verus!
