//! What an integer matrix product is, over mathematical integers.

use vstd::prelude::*;

verus! {

/// Sum over the first `upto` steps `t` of
/// `(A[i, t] - za) * (B[t, j] - zb)`, for row-major `A[_, k]` and `B[_, n]`.
pub open spec fn dot(
    a: Seq<int>,
    b: Seq<int>,
    n: int,
    k: int,
    i: int,
    j: int,
    za: int,
    zb: int,
    upto: nat,
) -> int
    decreases upto,
{
    if upto == 0 {
        0
    } else {
        let t = upto - 1;
        dot(a, b, n, k, i, j, za, zb, t as nat) + (a[i * k + t] - za) * (b[t * n + j] - zb)
    }
}

/// Sum of the first `upto` values of row `i` of `A[_, k]`.
pub open spec fn row_sum(a: Seq<int>, k: int, i: int, upto: nat) -> int
    decreases upto,
{
    if upto == 0 {
        0
    } else {
        row_sum(a, k, i, (upto - 1) as nat) + a[i * k + (upto - 1)]
    }
}

/// Sum of the first `upto` values of column `j` of `B[_, n]`.
pub open spec fn col_sum(b: Seq<int>, n: int, j: int, upto: nat) -> int
    decreases upto,
{
    if upto == 0 {
        0
    } else {
        col_sum(b, n, j, (upto - 1) as nat) + b[(upto - 1) * n + j]
    }
}

/// The zero-point identity: centring both operands before the product is the
/// plain product corrected by the row and column sums,
/// `(A - za)(B - zb) = AB - za * sum(B) - sum(A) * zb + K * za * zb`.
pub proof fn law_zero_point_identity(
    a: Seq<int>,
    b: Seq<int>,
    n: int,
    k: int,
    i: int,
    j: int,
    za: int,
    zb: int,
    upto: nat,
)
    ensures
        dot(a, b, n, k, i, j, za, zb, upto) == dot(a, b, n, k, i, j, 0, 0, upto) - za * col_sum(
            b,
            n,
            j,
            upto,
        ) - row_sum(a, k, i, upto) * zb + upto * za * zb,
    decreases upto,
{
    if upto == 0 {
        assert(za * 0 == 0 && 0 * zb == 0 && 0 * za * zb == 0) by (nonlinear_arith);
    } else {
        let t = (upto - 1) as nat;
        law_zero_point_identity(a, b, n, k, i, j, za, zb, t);
        let x = a[i * k + t];
        let y = b[t * n + j];
        let sb = col_sum(b, n, j, t);
        let sa = row_sum(a, k, i, t);
        assert((x - za) * (y - zb) == x * y - za * y - x * zb + za * zb) by (nonlinear_arith);
        assert(za * (sb + y) == za * sb + za * y) by (nonlinear_arith);
        assert((sa + x) * zb == sa * zb + x * zb) by (nonlinear_arith);
        assert((t + 1) * za * zb == t * za * zb + za * zb) by (nonlinear_arith);
        assert((x - 0) * (y - 0) == x * y);
    }
}

} // verus!
