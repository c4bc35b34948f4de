//! 8-bit operands of either sign, held as raw bytes.

use vstd::prelude::*;
use crate::arith::{lemma_in_matrix, lemma_wrap_acc, wrap32};
use crate::gemm::model::{col_sum, row_sum};

verus! {

/// The integer that a byte stands for, read as `i8` or as `u8`.
pub open spec fn byte_value(b: u8, signed: bool) -> int {
    if signed && b >= 128 {
        b - 256
    } else {
        b as int
    }
}

pub open spec fn byte_values(b: Seq<u8>, signed: bool) -> Seq<int> {
    b.map_values(|x: u8| byte_value(x, signed))
}

/// Widens a byte to the accumulator.
pub fn byte_as_acc(b: u8, signed: bool) -> (r: i32)
    ensures
        r == byte_value(b, signed),
{
    if signed {
        let s: i8 = #[verifier::truncate] (b as i8);
        assert(b >= 128 ==> s == b - 256) by (bit_vector)
            requires
                s == b as i8,
        ;
        assert(b < 128 ==> s == b) by (bit_vector)
            requires
                s == b as i8,
        ;
        s as i32
    } else {
        b as i32
    }
}

/// Wrapped sum of each row of `A[m, k]`.
pub fn sum_rows_u8(a: &[u8], m: usize, k: usize, signed: bool) -> (s: Vec<i32>)
    requires
        a.len() == m * k,
    ensures
        s@.len() == m,
        forall|i: int|
            0 <= i < m ==> #[trigger] s@[i] == wrap32(
                row_sum(byte_values(a@, signed), k as int, i, k as nat),
            ),
{
    let mut s: Vec<i32> = Vec::new();
    let mut i: usize = 0;
    while i < m
        invariant
            i <= m,
            s@.len() == i,
            a.len() == m * k,
            forall|r: int|
                0 <= r < i ==> #[trigger] s@[r] == wrap32(
                    row_sum(byte_values(a@, signed), k as int, r, k as nat),
                ),
        decreases m - i,
    {
        let mut acc: i32 = 0;
        let mut kk: usize = 0;
        while kk < k
            invariant
                i < m,
                kk <= k,
                a.len() == m * k,
                acc == wrap32(row_sum(byte_values(a@, signed), k as int, i as int, kk as nat)),
            decreases k - kk,
        {
            proof {
                lemma_in_matrix(i as int, kk as int, m as int, k as int);
            }
            let v: i32 = byte_as_acc(a[i * k + kk], signed);
            proof {
                lemma_wrap_acc(
                    row_sum(byte_values(a@, signed), k as int, i as int, kk as nat),
                    v,
                );
            }
            acc = acc.wrapping_add(v);
            kk += 1;
        }
        s.push(acc);
        i += 1;
    }
    s
}

/// Wrapped sum of each column of `B[k, n]`.
pub fn sum_cols_u8(b: &[u8], k: usize, n: usize, signed: bool) -> (s: Vec<i32>)
    requires
        b.len() == k * n,
    ensures
        s@.len() == n,
        forall|j: int|
            0 <= j < n ==> #[trigger] s@[j] == wrap32(
                col_sum(byte_values(b@, signed), n as int, j, k as nat),
            ),
{
    let mut s: Vec<i32> = vec![0i32; n];
    let mut kk: usize = 0;
    while kk < k
        invariant
            kk <= k,
            s@.len() == n,
            b.len() == k * n,
            forall|j: int|
                0 <= j < n ==> #[trigger] s@[j] == wrap32(
                    col_sum(byte_values(b@, signed), n as int, j, kk as nat),
                ),
        decreases k - kk,
    {
        let mut j: usize = 0;
        while j < n
            invariant
                kk < k,
                j <= n,
                s@.len() == n,
                b.len() == k * n,
                forall|c: int|
                    0 <= c < n ==> #[trigger] s@[c] == wrap32(
                        col_sum(
                            byte_values(b@, signed),
                            n as int,
                            c,
                            if c < j {
                                (kk + 1) as nat
                            } else {
                                kk as nat
                            },
                        ),
                    ),
            decreases n - j,
        {
            proof {
                lemma_in_matrix(kk as int, j as int, k as int, n as int);
            }
            let v: i32 = byte_as_acc(b[kk * n + j], signed);
            proof {
                lemma_wrap_acc(
                    col_sum(byte_values(b@, signed), n as int, j as int, kk as nat),
                    v,
                );
            }
            s[j] = s[j].wrapping_add(v);
            j += 1;
        }
        kk += 1;
    }
    s
}

/// A byte of `A` moved into the unsigned range: as it is, or 128 up.
pub fn unsigned_byte(raw: u8, is_u8: bool) -> (r: u8)
    ensures
        r == byte_value(raw, !is_u8) + shift_a(is_u8),
{
    if is_u8 {
        raw
    } else {
        raw.wrapping_add(128)
    }
}

/// A byte of `B` moved into the signed range: as it is, or 128 down.
pub fn signed_byte(raw: u8, is_i8: bool) -> (r: u8)
    ensures
        byte_value(r, true) == byte_value(raw, is_i8) + shift_b(is_i8),
{
    if is_i8 {
        raw
    } else {
        raw.wrapping_sub(128)
    }
}

/// How far `A` is moved up so that its bytes are unsigned.
pub open spec fn shift_a(is_u8: bool) -> int {
    if is_u8 {
        0
    } else {
        128
    }
}

/// How far `B` is moved so that its bytes are signed.
pub open spec fn shift_b(is_i8: bool) -> int {
    if is_i8 {
        0
    } else {
        -128
    }
}

} // verus!
