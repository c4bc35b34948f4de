//! Wrapping 32-bit arithmetic, stated over mathematical integers.

use vstd::prelude::*;
use vstd::arithmetic::div_mod::{
    lemma_add_mod_noop, lemma_fundamental_div_mod, lemma_fundamental_div_mod_converse,
    lemma_mul_mod_noop, lemma_sub_mod_noop,
};

verus! {

/// The number of values of a 32-bit integer.
pub open spec fn word() -> int {
    0x1_0000_0000
}

/// The `i32` that is congruent to `x` modulo 2^32.
pub open spec fn wrap32(x: int) -> i32 {
    (if x % word() >= 0x8000_0000 {
        x % word() - word()
    } else {
        x % word()
    }) as i32
}

/// `x` and `y` differ by a multiple of 2^32.
pub open spec fn congruent(x: int, y: int) -> bool {
    x % word() == y % word()
}

/// Congruent integers wrap to the same `i32`.
pub proof fn lemma_wrap_congruent(x: int, y: int)
    requires
        congruent(x, y),
    ensures
        wrap32(x) == wrap32(y),
{
}

/// An integer and the `i32` it wraps to are congruent.
pub proof fn lemma_wrap_is_congruent(x: int)
    ensures
        congruent(wrap32(x) as int, x),
{
    let r = x % word();
    lemma_fundamental_div_mod(x, word());
    if r >= 0x8000_0000 {
        lemma_fundamental_div_mod_converse(r - word(), word(), -1, r);
    } else {
        lemma_fundamental_div_mod_converse(r, word(), 0, r);
    }
}

/// Wrapping leaves an `i32` as it is.
pub proof fn lemma_wrap_id(x: i32)
    ensures
        wrap32(x as int) == x,
{
    if x < 0 {
        lemma_fundamental_div_mod_converse(x as int, word(), -1, x + word());
    } else {
        lemma_fundamental_div_mod_converse(x as int, word(), 0, x as int);
    }
}

pub proof fn lemma_congruent_add(x: int, x2: int, y: int, y2: int)
    requires
        congruent(x, x2),
        congruent(y, y2),
    ensures
        congruent(x + y, x2 + y2),
{
    lemma_add_mod_noop(x, y, word());
    lemma_add_mod_noop(x2, y2, word());
}

pub proof fn lemma_congruent_sub(x: int, x2: int, y: int, y2: int)
    requires
        congruent(x, x2),
        congruent(y, y2),
    ensures
        congruent(x - y, x2 - y2),
{
    lemma_sub_mod_noop(x, y, word());
    lemma_sub_mod_noop(x2, y2, word());
}

pub proof fn lemma_congruent_mul(x: int, x2: int, y: int, y2: int)
    requires
        congruent(x, x2),
        congruent(y, y2),
    ensures
        congruent(x * y, x2 * y2),
{
    lemma_mul_mod_noop(x, y, word());
    lemma_mul_mod_noop(x2, y2, word());
}

/// Adding or taking away 2^32 does not change the residue.
proof fn lemma_shift_word(x: int)
    ensures
        congruent(x + word(), x),
        congruent(x - word(), x),
{
    lemma_add_mod_noop(x, word(), word());
    lemma_sub_mod_noop(x, word(), word());
    lemma_fundamental_div_mod_converse(word(), word(), 1, 0);
    lemma_add_mod_noop(x, 0, word());
    lemma_sub_mod_noop(x, 0, word());
}

/// `wrapping_add` of two `i32`s is the wrapped sum.
pub proof fn lemma_wrapping_add(x: i32, y: i32)
    ensures
        x.wrapping_add(y) == wrap32(x + y),
        congruent(x.wrapping_add(y) as int, x + y),
{
    lemma_shift_word(x + y);
    lemma_wrap_id(x.wrapping_add(y));
    lemma_wrap_congruent(x.wrapping_add(y) as int, x + y);
}

/// `wrapping_sub` of two `i32`s is the wrapped difference.
pub proof fn lemma_wrapping_sub(x: i32, y: i32)
    ensures
        x.wrapping_sub(y) == wrap32(x - y),
        congruent(x.wrapping_sub(y) as int, x - y),
{
    lemma_shift_word(x - y);
    lemma_wrap_id(x.wrapping_sub(y));
    lemma_wrap_congruent(x.wrapping_sub(y) as int, x - y);
}

/// `wrapping_mul` of two `i32`s is the wrapped product.
pub proof fn lemma_wrapping_mul(x: i32, y: i32)
    ensures
        x.wrapping_mul(y) == wrap32(x * y),
        congruent(x.wrapping_mul(y) as int, x * y),
{
    lemma_wrap_is_congruent(x * y);
}

/// One multiply-accumulate step on a wrapped accumulator.
pub proof fn lemma_wrap_mac(s: int, x: i32, y: i32)
    ensures
        wrap32(s).wrapping_add(x.wrapping_mul(y)) == wrap32(s + x * y),
{
    lemma_wrapping_mul(x, y);
    lemma_wrapping_add(wrap32(s), x.wrapping_mul(y));
    lemma_wrap_is_congruent(s);
    lemma_congruent_add(wrap32(s) as int, s, x.wrapping_mul(y) as int, x * y);
    lemma_wrap_congruent(wrap32(s) + x.wrapping_mul(y), s + x * y);
}

/// One addition to a wrapped accumulator.
pub proof fn lemma_wrap_acc(s: int, x: i32)
    ensures
        wrap32(s).wrapping_add(x) == wrap32(s + x),
{
    lemma_wrapping_add(wrap32(s), x);
    lemma_wrap_is_congruent(s);
    lemma_congruent_add(wrap32(s) as int, s, x as int, x as int);
    lemma_wrap_congruent(wrap32(s) + x, s + x);
}

/// `i` and `j` are the row and the column of position `i * n + j`.
pub proof fn lemma_row_col(i: int, j: int, n: int)
    requires
        0 <= j < n,
    ensures
        (i * n + j) / n == i,
        (i * n + j) % n == j,
{
    lemma_fundamental_div_mod_converse(i * n + j, n, i, j);
}

/// A position inside an `m` by `n` matrix.
pub proof fn lemma_in_matrix(i: int, j: int, m: int, n: int)
    requires
        0 <= i < m,
        0 <= j < n,
    ensures
        0 <= i * n,
        i * n + n <= m * n,
        0 <= i * n + j < m * n,
{
    assert(i * n + n <= m * n) by (nonlinear_arith)
        requires
            0 <= i < m,
            0 <= n,
    ;
    assert(0 <= i * n) by (nonlinear_arith)
        requires
            0 <= i,
            0 <= n,
    ;
}

/// Row and column of a position of an `m` by `n` matrix.
pub proof fn lemma_position(p: int, m: int, n: int)
    requires
        0 <= p < m * n,
        0 <= m,
        0 <= n,
    ensures
        0 < n,
        0 <= p / n < m,
        0 <= p % n < n,
        p == (p / n) * n + p % n,
{
    assert(0 < n) by (nonlinear_arith)
        requires
            0 <= p < m * n,
            0 <= m,
            0 <= n,
    ;
    lemma_fundamental_div_mod(p, n);
    assert(0 <= p / n < m && p == (p / n) * n + p % n) by (nonlinear_arith)
        requires
            0 <= p < m * n,
            0 < n,
            p == n * (p / n) + p % n,
            0 <= p % n < n,
    ;
}

} // verus!
