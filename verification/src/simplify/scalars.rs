//! Tests on constant scalars, made on the bits of an `f64`.
//!
//! The bits of positive floats are ordered as the floats are, so "within
//! `1e-4 + 1e-4 * c` of `c`" is a range of bits.

use vstd::prelude::*;

verus! {

/// Least and greatest `f64` within `1e-4 + 1e-4 * c` of `c = sqrt(2)`.
pub const SQRT2_MIN: u64 = 0x3ff69fa14071f5c8;

pub const SQRT2_MAX: u64 = 0x3ff6a19b8c8c81d2;

/// Least and greatest `f64` within `1e-4 + 1e-4 * c` of `c = 1 / sqrt(2)`.
pub const INV_SQRT2_MIN: u64 = 0x3fe69f3864e64957;

pub const INV_SQRT2_MAX: u64 = 0x3fe6a20468182e43;

/// Least and greatest `f64` within `2e-4` of 1.
pub const ONE_MIN: u64 = 0x3feffe5c91d14e3c;

pub const ONE_MAX: u64 = 0x3ff000d1b71758e2;

/// Least and greatest `f64` within `1.5e-4` of 0.5.
pub const HALF_MIN: u64 = 0x3fdffd8adab9f55a;

pub const HALF_MAX: u64 = 0x3fe0013a92a30553;

/// Least and greatest `f64` within `3e-4` of 2.
pub const TWO_MIN: u64 = 0x3ffffec56d5cfaad;

pub const TWO_MAX: u64 = 0x4000009d495182a9;

/// Bits of `1e-13` and `1e-3`: the epsilons of a normalization. An epsilon of
/// `1e-12` that was held as an `f32` lies just below `1e-12`.
pub const EPS_MIN: u64 = 0x3d3c25c268497682;

pub const EPS_MAX: u64 = 0x3f50624dd2f1a9fc;

pub open spec fn near_sqrt2(bits: u64) -> bool {
    SQRT2_MIN <= bits <= SQRT2_MAX
}

pub open spec fn near_inv_sqrt2(bits: u64) -> bool {
    INV_SQRT2_MIN <= bits <= INV_SQRT2_MAX
}

pub open spec fn near_one(bits: u64) -> bool {
    ONE_MIN <= bits <= ONE_MAX
}

pub open spec fn near_half(bits: u64) -> bool {
    HALF_MIN <= bits <= HALF_MAX
}

pub open spec fn near_two(bits: u64) -> bool {
    TWO_MIN <= bits <= TWO_MAX
}

pub open spec fn is_epsilon(bits: u64) -> bool {
    EPS_MIN <= bits <= EPS_MAX
}

/// Whether the scalar is `sqrt(2)`, to about four digits.
pub fn is_near_sqrt2(bits: u64) -> (r: bool)
    ensures
        r == near_sqrt2(bits),
{
    SQRT2_MIN <= bits && bits <= SQRT2_MAX
}

/// Whether the scalar is `1 / sqrt(2)`, to about four digits.
pub fn is_near_inv_sqrt2(bits: u64) -> (r: bool)
    ensures
        r == near_inv_sqrt2(bits),
{
    INV_SQRT2_MIN <= bits && bits <= INV_SQRT2_MAX
}

/// Whether the scalar is 1, to about four digits.
pub fn is_near_one(bits: u64) -> (r: bool)
    ensures
        r == near_one(bits),
{
    ONE_MIN <= bits && bits <= ONE_MAX
}

/// Whether the scalar is 0.5, to about four digits.
pub fn is_near_half(bits: u64) -> (r: bool)
    ensures
        r == near_half(bits),
{
    HALF_MIN <= bits && bits <= HALF_MAX
}

/// Whether the scalar is 2, to about four digits.
pub fn is_near_two(bits: u64) -> (r: bool)
    ensures
        r == near_two(bits),
{
    TWO_MIN <= bits && bits <= TWO_MAX
}

/// Whether the scalar lies in `1e-13 ..= 1e-3`.
pub fn in_epsilon_range(bits: u64) -> (r: bool)
    ensures
        r == is_epsilon(bits),
{
    EPS_MIN <= bits && bits <= EPS_MAX
}

/// Bits of the `f32` nearest to an epsilon, ties to even: the exponent loses
/// its bias difference of 896 and the mantissa its last 29 bits.
pub open spec fn narrowed(bits: u64) -> int {
    let t = bits - 896 * 0x10_0000_0000_0000;
    let q = t / 0x2000_0000;
    let r = t % 0x2000_0000;
    if r > 0x1000_0000 || (r == 0x1000_0000 && q % 2 == 1) {
        q + 1
    } else {
        q
    }
}

/// The epsilon as an `f32`, by its bits.
pub fn narrow(bits: u64) -> (r: u32)
    requires
        is_epsilon(bits),
    ensures
        r == narrowed(bits),
{
    let t: u64 = bits - 896 * 0x10_0000_0000_0000;
    let q: u64 = t / 0x2000_0000;
    let rest: u64 = t % 0x2000_0000;
    if rest > 0x1000_0000 || (rest == 0x1000_0000 && q % 2 == 1) {
        (q + 1) as u32
    } else {
        q as u32
    }
}

/// A finite positive `f64` between `2^-2` and `2^2`, in units of `2^-60`.
pub open spec fn in_units(bits: u64) -> int {
    let exponent = bits / 0x10_0000_0000_0000;
    let significand = 0x10_0000_0000_0000 + bits % 0x10_0000_0000_0000;
    if exponent == 0x3fd {
        significand * 64
    } else if exponent == 0x3fe {
        significand * 128
    } else if exponent == 0x3ff {
        significand * 256
    } else {
        significand * 512
    }
}

/// `x` lies within `(1 + c) / 10000` of `c`, in units of `2^-60` and up to
/// `slack` units.
pub open spec fn within(x: int, c: int, slack: int) -> bool {
    -slack <= (c + 0x1000_0000_0000_0000) / 10000 - (if x < c {
        c - x
    } else {
        x - c
    })
}

/// A scalar passes for a constant exactly where it lies within
/// `1e-4 + 1e-4 * c` of it, up to the last places of an `f64`.
pub proof fn law_constants_to_four_digits(bits: u64, c: u64, r: bool)
    requires
        0x3fd0_0000_0000_0000 <= bits < 0x4010_0000_0000_0000,
        ({
            ||| c == 0x3fe0_0000_0000_0000 && call_ensures(is_near_half, (bits,), r)
            ||| c == 0x3ff0_0000_0000_0000 && call_ensures(is_near_one, (bits,), r)
            ||| c == 0x4000_0000_0000_0000 && call_ensures(is_near_two, (bits,), r)
            ||| c == 0x3ff6_a09e_667f_3bcd && call_ensures(is_near_sqrt2, (bits,), r)
            ||| c == 0x3fe6_a09e_667f_3bcd && call_ensures(is_near_inv_sqrt2, (bits,), r)
        }),
    ensures
        r ==> within(in_units(bits), in_units(c), 1024),
        within(in_units(bits), in_units(c), -1024) ==> r,
{
}

/// No scalar outside `2^-2 .. 2^2` passes for one of the constants.
pub proof fn law_constants_are_not_far(bits: u64)
    requires
        !(0x3fd0_0000_0000_0000 <= bits < 0x4010_0000_0000_0000),
    ensures
        !near_half(bits) && !near_one(bits) && !near_two(bits),
        !near_sqrt2(bits) && !near_inv_sqrt2(bits),
{
}

/// An epsilon lies between `1e-13` and `1e-3`, by their bits.
pub proof fn law_epsilons(bits: u64, r: bool)
    requires
        call_ensures(in_epsilon_range, (bits,), r),
    ensures
        r == !(bits < 0x3d3c_25c2_6849_7682 || bits > 0x3f50_624d_d2f1_a9fc),
{
}

/// An epsilon is narrowed to the nearest `f32`, and to the even one of two
/// that are as near: the bits differ by half a step of the `f32` at most.
pub proof fn law_narrowing(bits: u64, r: u32)
    requires
        call_ensures(narrow, (bits,), r),
        is_epsilon(bits),
    ensures
        ({
            let off = r * 0x2000_0000 + 0x3800_0000_0000_0000 - bits;
            &&& -0x1000_0000 <= off <= 0x1000_0000
            &&& off == 0x1000_0000 || off == -0x1000_0000 ==> r % 2 == 0
        }),
{
}

} // verus!
