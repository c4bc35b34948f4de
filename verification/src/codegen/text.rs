//! Pieces of generated expressions.

use vstd::prelude::*;
use vstd::string::StringExecFns;
use crate::ir::DType;

verus! {

/// A decimal digit.
pub open spec fn digit(d: nat) -> Seq<char> {
    if d == 0 {
        "0"@
    } else if d == 1 {
        "1"@
    } else if d == 2 {
        "2"@
    } else if d == 3 {
        "3"@
    } else if d == 4 {
        "4"@
    } else if d == 5 {
        "5"@
    } else if d == 6 {
        "6"@
    } else if d == 7 {
        "7"@
    } else if d == 8 {
        "8"@
    } else {
        "9"@
    }
}

/// `n` in decimal, without leading zeros.
pub open spec fn decimal(n: nat) -> Seq<char>
    decreases n,
{
    if n < 10 {
        digit(n)
    } else {
        decimal(n / 10) + digit(n % 10)
    }
}

fn digit_text(d: usize) -> (s: &'static str)
    requires
        d < 10,
    ensures
        s@ == digit(d as nat),
{
    match d {
        0 => "0",
        1 => "1",
        2 => "2",
        3 => "3",
        4 => "4",
        5 => "5",
        6 => "6",
        7 => "7",
        8 => "8",
        _ => "9",
    }
}

/// `n` in decimal.
pub fn decimal_text(n: usize) -> (s: String)
    ensures
        s@ == decimal(n as nat),
    decreases n,
{
    if n < 10 {
        String::from_str(digit_text(n))
    } else {
        decimal_text(n / 10).concat(digit_text(n % 10))
    }
}

/// Path of an element type.
pub open spec fn dtype_path(d: DType) -> Seq<char> {
    match d {
        DType::F64 => "burn::tensor::DType::F64"@,
        DType::F32 => "burn::tensor::DType::F32"@,
        DType::Flex32 => "burn::tensor::DType::Flex32"@,
        DType::F16 => "burn::tensor::DType::F16"@,
        DType::BF16 => "burn::tensor::DType::BF16"@,
        DType::I64 => "burn::tensor::DType::I64"@,
        DType::I32 => "burn::tensor::DType::I32"@,
        DType::I16 => "burn::tensor::DType::I16"@,
        DType::I8 => "burn::tensor::DType::I8"@,
        DType::U64 => "burn::tensor::DType::U64"@,
        DType::U32 => "burn::tensor::DType::U32"@,
        DType::U16 => "burn::tensor::DType::U16"@,
        DType::U8 => "burn::tensor::DType::U8"@,
        DType::Bool => "burn::tensor::DType::Bool"@,
    }
}

/// Path of an element type.
pub fn dtype_tokens(d: DType) -> (s: String)
    ensures
        s@ == dtype_path(d),
{
    String::from_str(
        match d {
            DType::F64 => "burn::tensor::DType::F64",
            DType::F32 => "burn::tensor::DType::F32",
            DType::Flex32 => "burn::tensor::DType::Flex32",
            DType::F16 => "burn::tensor::DType::F16",
            DType::BF16 => "burn::tensor::DType::BF16",
            DType::I64 => "burn::tensor::DType::I64",
            DType::I32 => "burn::tensor::DType::I32",
            DType::I16 => "burn::tensor::DType::I16",
            DType::I8 => "burn::tensor::DType::I8",
            DType::U64 => "burn::tensor::DType::U64",
            DType::U32 => "burn::tensor::DType::U32",
            DType::U16 => "burn::tensor::DType::U16",
            DType::U8 => "burn::tensor::DType::U8",
            DType::Bool => "burn::tensor::DType::Bool",
        },
    )
}

/// `(e).clone()`
pub open spec fn cloned_expr(e: Seq<char>) -> Seq<char> {
    "("@ + e + ").clone()"@
}

pub fn clone_text(e: &String) -> (s: String)
    ensures
        s@ == cloned_expr(e@),
{
    String::from_str("(").concat(e.as_str()).concat(").clone()")
}

/// `(e).clone().unsqueeze::<rank>()`
pub open spec fn unsqueezed(e: Seq<char>, rank: nat) -> Seq<char> {
    cloned_expr(e) + ".unsqueeze::<"@ + decimal(rank) + "usize>()"@
}

pub fn unsqueeze_text(e: &String, rank: usize) -> (s: String)
    ensures
        s@ == unsqueezed(e@, rank as nat),
{
    clone_text(e).concat(".unsqueeze::<").concat(decimal_text(rank).as_str()).concat("usize>()")
}

/// `0isize, 1isize, ..` up to `n` dimensions.
pub open spec fn leading_dims(n: nat) -> Seq<char>
    decreases n,
{
    if n == 0 {
        ""@
    } else if n == 1 {
        "0isize"@
    } else {
        leading_dims((n - 1) as nat) + ", "@ + decimal((n - 1) as nat) + "isize"@
    }
}

pub fn leading_dims_text(n: usize) -> (s: String)
    ensures
        s@ == leading_dims(n as nat),
    decreases n,
{
    if n == 0 {
        String::from_str("")
    } else if n == 1 {
        String::from_str("0isize")
    } else {
        leading_dims_text(n - 1).concat(", ").concat(decimal_text(n - 1).as_str()).concat("isize")
    }
}

/// `let name = value;`
pub open spec fn binding(name: Seq<char>, value: Seq<char>) -> Seq<char> {
    "let "@ + name + " = "@ + value + ";"@
}

pub fn binding_text(name: &String, value: &String) -> (s: String)
    ensures
        s@ == binding(name@, value@),
{
    String::from_str("let ").concat(name.as_str()).concat(" = ").concat(value.as_str()).concat(";")
}

} // verus!
