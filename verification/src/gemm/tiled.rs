//! Blocked product in `i-k-j` panels: the portable path.

use vstd::prelude::*;
use crate::arith::{
    lemma_congruent_mul, lemma_congruent_add, lemma_congruent_sub, lemma_in_matrix, lemma_position,
    lemma_row_col, lemma_wrap_congruent, lemma_wrap_id, lemma_wrap_is_congruent, lemma_wrap_mac, wrap32,
};
use crate::gemm::acc::{values, AsAcc};
use crate::gemm::model::{col_sum, dot, law_zero_point_identity, row_sum};
use crate::gemm::zp::{
    apply_zp, corrected, entry, is_product, needs_sum_a, needs_sum_b, sum_cols, sum_rows,
    zp_rows_slice, Zp,
};

verus! {

/// K-panel: deep enough for `K = 32 / 384 / 1536` without leaving L1.
pub const KC: usize = 64;

/// M-panel, and the grain of a split over rows.
pub const MC: usize = 64;

/// N-panel: the inner contiguous stream.
pub const NC: usize = 128;

/// Multiply-accumulates from which one product is worth splitting over rows.
pub const PARALLEL_OPS: usize = 8_000_000;

/// Entry `p` of `C[_, n]` with the steps `from .. upto` of the plain product
/// added to what it held.
pub open spec fn partial(
    c: Seq<i32>,
    a: Seq<int>,
    b: Seq<int>,
    n: int,
    k: int,
    p: int,
    from: nat,
    upto: nat,
) -> i32 {
    wrap32(
        c[p] + dot(a, b, n, k, p / n, p % n, 0, 0, upto) - dot(
            a,
            b,
            n,
            k,
            p / n,
            p % n,
            0,
            0,
            from,
        ),
    )
}

/// Position `p` lies in rows `i0 .. i1` and columns `j0 .. j1`.
pub open spec fn in_panel(p: int, n: int, i0: int, i1: int, j0: int, j1: int) -> bool {
    i0 <= p / n < i1 && j0 <= p % n < j1
}

/// One step further along `K` at row `i` and column `j`.
proof fn lemma_partial_step(
    c: Seq<i32>,
    a: Seq<int>,
    b: Seq<int>,
    n: int,
    k: int,
    i: int,
    j: int,
    from: nat,
    t: nat,
    av: i32,
    bv: i32,
)
    requires
        0 <= j < n,
        av == a[i * k + t],
        bv == b[t * n + j],
    ensures
        partial(c, a, b, n, k, i * n + j, from, t).wrapping_add(av.wrapping_mul(bv)) == partial(
            c,
            a,
            b,
            n,
            k,
            i * n + j,
            from,
            (t + 1) as nat,
        ),
{
    lemma_row_col(i, j, n);
    lemma_wrap_mac(
        c[i * n + j] + dot(a, b, n, k, i, j, 0, 0, t) - dot(a, b, n, k, i, j, 0, 0, from),
        av,
        bv,
    );
}

/// Steps `from .. mid` and then `mid .. upto` are the steps `from .. upto`.
proof fn lemma_partial_join(
    c: Seq<i32>,
    d: Seq<i32>,
    a: Seq<int>,
    b: Seq<int>,
    n: int,
    k: int,
    p: int,
    from: nat,
    mid: nat,
    upto: nat,
)
    requires
        d[p] == partial(c, a, b, n, k, p, from, mid),
    ensures
        partial(d, a, b, n, k, p, mid, upto) == partial(c, a, b, n, k, p, from, upto),
{
    let x = dot(a, b, n, k, p / n, p % n, 0, 0, from);
    let y = dot(a, b, n, k, p / n, p % n, 0, 0, mid);
    let z = dot(a, b, n, k, p / n, p % n, 0, 0, upto);
    lemma_wrap_is_congruent(c[p] + y - x);
    lemma_congruent_add(d[p] as int, c[p] + y - x, z - y, z - y);
    lemma_wrap_congruent(d[p] + (z - y), c[p] + y - x + (z - y));
}

/// What lies behind a matrix is in no panel of it.
proof fn lemma_past_panels(p: int, m: int, n: int)
    requires
        0 <= m,
        0 <= n,
        m * n <= p,
    ensures
        forall|i0: int, i1: int, j0: int, j1: int|
            i1 <= m && 0 <= j0 && j1 <= n ==> !#[trigger] in_panel(p, n, i0, i1, j0, j1),
{
    if n > 0 {
        vstd::arithmetic::div_mod::lemma_div_is_ordered(m * n, p, n);
        vstd::arithmetic::div_mod::lemma_div_multiples_vanish(m, n);
        assert(m * n == n * m) by (nonlinear_arith);
    }
}

/// Adds the steps `k0 .. k1` of the product to the panel of rows `i0 .. i1`
/// and columns `j0 .. j1`.
pub fn accum_panel<A: AsAcc, B: AsAcc>(
    a: &[A],
    b: &[B],
    c: &mut [i32],
    m: usize,
    n: usize,
    k: usize,
    i0: usize,
    i1: usize,
    j0: usize,
    j1: usize,
    k0: usize,
    k1: usize,
)
    requires
        a.len() >= m * k,
        b.len() >= k * n,
        old(c).len() >= m * n,
        i0 <= i1 <= m,
        j0 <= j1 <= n,
        k0 <= k1 <= k,
    ensures
        final(c)@.len() == old(c)@.len(),
        forall|p: int|
            0 <= p < final(c)@.len() ==> #[trigger] final(c)@[p] == if in_panel(
                p,
                n as int,
                i0 as int,
                i1 as int,
                j0 as int,
                j1 as int,
            ) {
                partial(
                    old(c)@,
                    values(a@),
                    values(b@),
                    n as int,
                    k as int,
                    p,
                    k0 as nat,
                    k1 as nat,
                )
            } else {
                old(c)@[p]
            },
{
    let ghost c0 = c@;
    let ghost av = values(a@);
    let ghost bv = values(b@);
    let ghost ni = n as int;
    let ghost ki = k as int;
    let mut i: usize = i0;
    while i < i1
        invariant
            i0 <= i <= i1 <= m,
            j0 <= j1 <= n,
            k0 <= k1 <= k,
            a.len() >= m * k,
            b.len() >= k * n,
            c.len() >= m * n,
            c0.len() == c.len(),
            av == values(a@),
            bv == values(b@),
            ni == n,
            ki == k,
            forall|p: int|
                0 <= p < c@.len() ==> #[trigger] c@[p] == if in_panel(
                    p,
                    ni,
                    i0 as int,
                    i as int,
                    j0 as int,
                    j1 as int,
                ) {
                    partial(c0, av, bv, ni, ki, p, k0 as nat, k1 as nat)
                } else {
                    c0[p]
                },
        decreases i1 - i,
    {
        proof {
            assert forall|p: int| 0 <= p < c0.len() implies #[trigger] c0[p] == partial(
                c0,
                av,
                bv,
                ni,
                ki,
                p,
                k0 as nat,
                k0 as nat,
            ) by {
                lemma_wrap_id(c0[p]);
            }
        }
        let mut kk: usize = k0;
        while kk < k1
            invariant
                i0 <= i < i1 <= m,
                j0 <= j1 <= n,
                k0 <= kk <= k1 <= k,
                a.len() >= m * k,
                b.len() >= k * n,
                c.len() >= m * n,
                c0.len() == c.len(),
                av == values(a@),
                bv == values(b@),
                ni == n,
                ki == k,
                forall|p: int|
                    0 <= p < c@.len() ==> #[trigger] c@[p] == if in_panel(
                        p,
                        ni,
                        i0 as int,
                        i as int,
                        j0 as int,
                        j1 as int,
                    ) {
                        partial(c0, av, bv, ni, ki, p, k0 as nat, k1 as nat)
                    } else if in_panel(p, ni, i as int, i + 1, j0 as int, j1 as int) {
                        partial(c0, av, bv, ni, ki, p, k0 as nat, kk as nat)
                    } else {
                        c0[p]
                    },
            decreases k1 - kk,
        {
            proof {
                lemma_in_matrix(i as int, kk as int, m as int, ki);
            }
            let x: i32 = a[i * k + kk].as_acc();
            let mut j: usize = j0;
            while j < j1
                invariant
                    i0 <= i < i1 <= m,
                    j0 <= j <= j1 <= n,
                    k0 <= kk < k1 <= k,
                    a.len() >= m * k,
                    b.len() >= k * n,
                    c.len() >= m * n,
                    c0.len() == c.len(),
                    av == values(a@),
                    bv == values(b@),
                    ni == n,
                    ki == k,
                    x == av[i * k + kk],
                    forall|p: int|
                        0 <= p < c@.len() ==> #[trigger] c@[p] == if in_panel(
                            p,
                            ni,
                            i0 as int,
                            i as int,
                            j0 as int,
                            j1 as int,
                        ) {
                            partial(c0, av, bv, ni, ki, p, k0 as nat, k1 as nat)
                        } else if in_panel(p, ni, i as int, i + 1, j0 as int, j as int) {
                            partial(c0, av, bv, ni, ki, p, k0 as nat, (kk + 1) as nat)
                        } else if in_panel(p, ni, i as int, i + 1, j as int, j1 as int) {
                            partial(c0, av, bv, ni, ki, p, k0 as nat, kk as nat)
                        } else {
                            c0[p]
                        },
                decreases j1 - j,
            {
                proof {
                    lemma_in_matrix(kk as int, j as int, ki, ni);
                    lemma_in_matrix(i as int, j as int, m as int, ni);
                    lemma_row_col(i as int, j as int, ni);
                }
                let y: i32 = b[kk * n + j].as_acc();
                let at: usize = i * n + j;
                let ghost before = c@;
                proof {
                    lemma_partial_step(c0, av, bv, ni, ki, i as int, j as int, k0 as nat, kk as nat, x, y);
                }
                c[at] = c[at].wrapping_add(x.wrapping_mul(y));
                proof {
                    assert forall|p: int| 0 <= p < c@.len() implies #[trigger] c@[p] == (
                    if in_panel(p, ni, i0 as int, i as int, j0 as int, j1 as int) {
                        partial(c0, av, bv, ni, ki, p, k0 as nat, k1 as nat)
                    } else if in_panel(p, ni, i as int, i + 1, j0 as int, j + 1) {
                        partial(c0, av, bv, ni, ki, p, k0 as nat, (kk + 1) as nat)
                    } else if in_panel(p, ni, i as int, i + 1, j + 1, j1 as int) {
                        partial(c0, av, bv, ni, ki, p, k0 as nat, kk as nat)
                    } else {
                        c0[p]
                    }) by {
                        if p < m * n {
                            lemma_position(p, m as int, ni);
                        } else {
                            lemma_past_panels(p, m as int, ni);
                        }
                        if p != at {
                            assert(c@[p] == before[p]);
                        }
                    }
                }
                j += 1;
            }
            kk += 1;
        }
        i += 1;
    }
}

/// `C[m, n] += A[m, k] @ B[k, n]`, wrapping, panel by panel. What the slices
/// hold behind the matrices is not read and not changed.
pub fn gemm_serial<A: AsAcc, B: AsAcc>(
    a: &[A],
    b: &[B],
    c: &mut [i32],
    m: usize,
    n: usize,
    k: usize,
)
    requires
        a.len() >= m * k,
        b.len() >= k * n,
        old(c).len() >= m * n,
    ensures
        final(c)@.len() == old(c)@.len(),
        forall|p: int|
            0 <= p < m * n ==> #[trigger] final(c)@[p] == partial(
                old(c)@,
                values(a@),
                values(b@),
                n as int,
                k as int,
                p,
                0,
                k as nat,
            ),
        forall|p: int| m * n <= p < old(c)@.len() ==> #[trigger] final(c)@[p] == old(c)@[p],
{
    let ghost c0 = c@;
    let ghost av = values(a@);
    let ghost bv = values(b@);
    let ghost ni = n as int;
    let ghost ki = k as int;
    let mut k0: usize = 0;
    proof {
        assert forall|p: int| 0 <= p < m * n implies #[trigger] c@[p] == partial(
            c0,
            av,
            bv,
            ni,
            ki,
            p,
            0,
            0,
        ) by {
            lemma_wrap_id(c0[p]);
        }
    }
    while k0 < k
        invariant
            k0 <= k,
            a.len() >= m * k,
            b.len() >= k * n,
            c.len() >= m * n,
            c0.len() == c.len(),
            av == values(a@),
            bv == values(b@),
            ni == n,
            ki == k,
            forall|p: int| m * n <= p < c@.len() ==> #[trigger] c@[p] == c0[p],
            forall|p: int|
                0 <= p < m * n ==> #[trigger] c@[p] == partial(
                    c0,
                    av,
                    bv,
                    ni,
                    ki,
                    p,
                    0,
                    k0 as nat,
                ),
        decreases k - k0,
    {
        let k1: usize = if k - k0 < KC {
            k
        } else {
            k0 + KC
        };
        let mut i0: usize = 0;
        while i0 < m
            invariant
                k0 < k1 <= k,
                i0 <= m,
                a.len() >= m * k,
                b.len() >= k * n,
                c.len() >= m * n,
                c0.len() == c.len(),
                av == values(a@),
                bv == values(b@),
                ni == n,
                ki == k,
                forall|p: int| m * n <= p < c@.len() ==> #[trigger] c@[p] == c0[p],
                forall|p: int|
                    0 <= p < m * n ==> #[trigger] c@[p] == partial(
                        c0,
                        av,
                        bv,
                        ni,
                        ki,
                        p,
                        0,
                        if p / ni < i0 {
                            k1 as nat
                        } else {
                            k0 as nat
                        },
                    ),
            decreases m - i0,
        {
            let i1: usize = if m - i0 < MC {
                m
            } else {
                i0 + MC
            };
            let mut j0: usize = 0;
            while j0 < n
                invariant
                    k0 < k1 <= k,
                    i0 < i1 <= m,
                    j0 <= n,
                    a.len() >= m * k,
                    b.len() >= k * n,
                    c.len() >= m * n,
                    c0.len() == c.len(),
                    av == values(a@),
                    bv == values(b@),
                    ni == n,
                    ki == k,
                    forall|p: int| m * n <= p < c@.len() ==> #[trigger] c@[p] == c0[p],
                    forall|p: int|
                        0 <= p < m * n ==> #[trigger] c@[p] == partial(
                            c0,
                            av,
                            bv,
                            ni,
                            ki,
                            p,
                            0,
                            if p / ni < i0 || (p / ni < i1 && p % ni < j0) {
                                k1 as nat
                            } else {
                                k0 as nat
                            },
                        ),
                decreases n - j0,
            {
                let j1: usize = if n - j0 < NC {
                    n
                } else {
                    j0 + NC
                };
                let ghost before = c@;
                accum_panel(a, b, c, m, n, k, i0, i1, j0, j1, k0, k1);
                proof {
                    assert forall|p: int| m * n <= p < c@.len() implies #[trigger] c@[p]
                        == c0[p] by {
                        lemma_past_panels(p, m as int, ni);
                        assert(c@[p] == before[p]);
                    }
                    assert forall|p: int| 0 <= p < m * n implies #[trigger] c@[p] == partial(
                        c0,
                        av,
                        bv,
                        ni,
                        ki,
                        p,
                        0,
                        if p / ni < i0 || (p / ni < i1 && p % ni < j1) {
                            k1 as nat
                        } else {
                            k0 as nat
                        },
                    ) by {
                        lemma_position(p, m as int, ni);
                        if in_panel(p, ni, i0 as int, i1 as int, j0 as int, j1 as int) {
                            lemma_partial_join(
                                c0,
                                before,
                                av,
                                bv,
                                ni,
                                ki,
                                p,
                                0,
                                k0 as nat,
                                k1 as nat,
                            );
                        } else {
                            assert(c@[p] == before[p]);
                        }
                    }
                }
                j0 = j1;
            }
            proof {
                assert forall|p: int| 0 <= p < m * n implies #[trigger] c@[p] == partial(
                    c0,
                    av,
                    bv,
                    ni,
                    ki,
                    p,
                    0,
                    if p / ni < i1 {
                        k1 as nat
                    } else {
                        k0 as nat
                    },
                ) by {
                    lemma_position(p, m as int, ni);
                }
            }
            i0 = i1;
        }
        proof {
            assert forall|p: int| 0 <= p < m * n implies #[trigger] c@[p] == partial(
                c0,
                av,
                bv,
                ni,
                ki,
                p,
                0,
                k1 as nat,
            ) by {
                lemma_position(p, m as int, ni);
            }
        }
        k0 = k1;
    }
}

/// The sums that a correction reads: all of them, or none where the
/// zero-points they are multiplied with are zero.
pub open spec fn sums_for(
    sum_a: Seq<i32>,
    sum_b: Seq<i32>,
    a: Seq<int>,
    b: Seq<int>,
    m: int,
    n: int,
    k: int,
    zp: Zp,
) -> bool {
    &&& sum_a.len() == m || (sum_a.len() == 0 && zp.zb.all_zero())
    &&& sum_b.len() == n || (sum_b.len() == 0 && zp.za.all_zero())
    &&& forall|i: int|
        0 <= i < sum_a.len() ==> #[trigger] sum_a[i] == wrap32(row_sum(a, k, i, k as nat))
    &&& forall|j: int|
        0 <= j < sum_b.len() ==> #[trigger] sum_b[j] == wrap32(col_sum(b, n, j, k as nat))
}

/// Correcting the plain product by the sums centres both operands.
pub proof fn lemma_corrected_is_dot(
    c: Seq<i32>,
    a: Seq<int>,
    b: Seq<int>,
    sum_a: Seq<i32>,
    sum_b: Seq<i32>,
    zp: Zp,
    m: int,
    n: int,
    k: int,
    p: int,
)
    requires
        0 <= p < m * n,
        0 <= m,
        0 <= n,
        0 <= k,
        zp.covers(m, n),
        c[p] == wrap32(dot(a, b, n, k, p / n, p % n, 0, 0, k as nat)),
        sums_for(sum_a, sum_b, a, b, m, n, k, zp),
    ensures
        corrected(c, sum_a, sum_b, zp, n, k, p) == wrap32(
            dot(a, b, n, k, p / n, p % n, zp.za.value(p / n), zp.zb.value(p % n), k as nat),
        ),
{
    let i = p / n;
    let j = p % n;
    lemma_position(p, m, n);
    let za = zp.za.value(i);
    let zb = zp.zb.value(j);
    let d = dot(a, b, n, k, i, j, 0, 0, k as nat);
    let ra = row_sum(a, k, i, k as nat);
    let cb = col_sum(b, n, j, k as nat);
    let sa: int = if sum_a.len() == 0 {
        0
    } else {
        sum_a[i] as int
    };
    let sb: int = if sum_b.len() == 0 {
        0
    } else {
        sum_b[j] as int
    };
    law_zero_point_identity(a, b, n, k, i, j, za, zb, k as nat);
    if sum_a.len() == 0 {
        assert(zb == 0);
        assert(sa * zb == 0 && ra * zb == 0) by (nonlinear_arith)
            requires
                zb == 0,
        ;
    } else {
        lemma_wrap_is_congruent(ra);
        lemma_congruent_mul(sa, ra, zb, zb);
    }
    if sum_b.len() == 0 {
        assert(za == 0);
        assert(za * sb == 0 && za * cb == 0) by (nonlinear_arith)
            requires
                za == 0,
        ;
    } else {
        lemma_wrap_is_congruent(cb);
        lemma_congruent_mul(za, za, sb, cb);
    }
    lemma_congruent_add(za * sb, za * cb, sa * zb, ra * zb);
    lemma_congruent_sub(za * sb + sa * zb, za * cb + ra * zb, k * za * zb, k * za * zb);
    lemma_wrap_is_congruent(d);
    lemma_congruent_sub(
        c[p] as int,
        d,
        za * sb + sa * zb - k * za * zb,
        za * cb + ra * zb - k * za * zb,
    );
    lemma_wrap_congruent(
        c[p] - (za * sb + sa * zb - k * za * zb),
        d - (za * cb + ra * zb - k * za * zb),
    );
}

/// Rows of a block of rows are rows of the whole matrix.
proof fn lemma_dot_rows(
    a: Seq<int>,
    b: Seq<int>,
    n: int,
    k: int,
    i0: int,
    mb: int,
    r: int,
    j: int,
    za: int,
    zb: int,
    upto: nat,
)
    requires
        0 <= i0,
        0 <= r < mb,
        upto <= k,
        (i0 + mb) * k <= a.len(),
    ensures
        dot(a.subrange(i0 * k, (i0 + mb) * k), b, n, k, r, j, za, zb, upto) == dot(
            a,
            b,
            n,
            k,
            i0 + r,
            j,
            za,
            zb,
            upto,
        ),
    decreases upto,
{
    if upto > 0 {
        let t = upto - 1;
        lemma_dot_rows(a, b, n, k, i0, mb, r, j, za, zb, t as nat);
        lemma_in_matrix(r, t, mb, k);
        assert((i0 + mb) * k == i0 * k + mb * k) by (nonlinear_arith);
        assert((i0 + r) * k == i0 * k + r * k) by (nonlinear_arith);
        assert(0 <= i0 * k) by (nonlinear_arith)
            requires
                0 <= i0,
                0 <= k,
        ;
    }
}

/// Sums of a block of rows are sums of rows of the whole matrix.
proof fn lemma_row_sum_rows(a: Seq<int>, k: int, i0: int, mb: int, r: int, upto: nat)
    requires
        0 <= i0,
        0 <= r < mb,
        upto <= k,
        (i0 + mb) * k <= a.len(),
    ensures
        row_sum(a.subrange(i0 * k, (i0 + mb) * k), k, r, upto) == row_sum(a, k, i0 + r, upto),
    decreases upto,
{
    if upto > 0 {
        let t = upto - 1;
        lemma_row_sum_rows(a, k, i0, mb, r, t as nat);
        lemma_in_matrix(r, t, mb, k);
        assert((i0 + mb) * k == i0 * k + mb * k) by (nonlinear_arith);
        assert((i0 + r) * k == i0 * k + r * k) by (nonlinear_arith);
        assert(0 <= i0 * k) by (nonlinear_arith)
            requires
                0 <= i0,
                0 <= k,
        ;
    }
}

/// `(A - za) @ (B - zb)` in one piece.
fn gemm_whole<A: AsAcc, B: AsAcc>(
    a: &[A],
    b: &[B],
    m: usize,
    n: usize,
    k: usize,
    zp: &Zp,
) -> (c: Vec<i32>)
    requires
        a.len() == m * k,
        b.len() == k * n,
        m * n <= usize::MAX,
        zp.covers(m as int, n as int),
    ensures
        is_product(c@, values(a@), values(b@), m as int, n as int, k as int, *zp),
{
    let mut c: Vec<i32> = vec![0i32; m * n];
    gemm_serial(a, b, &mut c, m, n, k);
    let ghost plain = c@;
    let sum_a: Vec<i32> = if needs_sum_a(zp) {
        sum_rows(a, m, k)
    } else {
        Vec::new()
    };
    let sum_b: Vec<i32> = if needs_sum_b(zp) {
        sum_cols(b, k, n)
    } else {
        Vec::new()
    };
    apply_zp(&mut c, m, n, k, &sum_a, &sum_b, zp);
    proof {
        let ni = n as int;
        let ki = k as int;
        assert forall|p: int| 0 <= p < c@.len() implies #[trigger] c@[p] == wrap32(
            dot(
                values(a@),
                values(b@),
                ni,
                ki,
                p / ni,
                p % ni,
                zp.za.value(p / ni),
                zp.zb.value(p % ni),
                k as nat,
            ),
        ) by {
            assert(plain[p] == partial(
                Seq::new((m * n) as nat, |q: int| 0i32),
                values(a@),
                values(b@),
                ni,
                ki,
                p,
                0,
                k as nat,
            ));
            lemma_corrected_is_dot(
                plain,
                values(a@),
                values(b@),
                sum_a@,
                sum_b@,
                *zp,
                m as int,
                ni,
                ki,
                p,
            );
        }
    }
    c
}

/// Whether a product has enough work, and rows, to be split over its rows.
pub fn worth_splitting(m: usize, n: usize, k: usize) -> (r: bool)
    ensures
        r == (m * n * k >= PARALLEL_OPS && m > MC),
{
    let many: bool = match m.checked_mul(n) {
        Some(mn) => match mn.checked_mul(k) {
            Some(ops) => ops >= PARALLEL_OPS,
            None => true,
        },
        None => k > 0,
    };
    assert(m * n > usize::MAX && k > 0 ==> m * n * k >= PARALLEL_OPS) by (nonlinear_arith)
        requires
            usize::MAX >= PARALLEL_OPS,
    ;
    assert(k == 0 ==> m * n * k == 0) by (nonlinear_arith);
    many && m > MC
}

/// Rows `i0 .. i0 + mb` of `(A - za) @ (B - zb)`, given the sums of the whole.
pub fn gemm_row_tile<A: AsAcc, B: AsAcc>(
    a: &[A],
    b: &[B],
    m: usize,
    n: usize,
    k: usize,
    i0: usize,
    mb: usize,
    zp: &Zp,
    sum_a: &[i32],
    sum_b: &[i32],
) -> (c: Vec<i32>)
    requires
        a.len() == m * k,
        b.len() == k * n,
        m * n <= usize::MAX,
        i0 + mb <= m,
        zp.covers(m as int, n as int),
        sums_for(
            sum_a@,
            sum_b@,
            values(a@),
            values(b@),
            m as int,
            n as int,
            k as int,
            *zp,
        ),
    ensures
        c@.len() == mb * n,
        forall|p: int|
            0 <= p < c@.len() ==> #[trigger] c@[p] == entry(
                values(a@),
                values(b@),
                n as int,
                k as int,
                *zp,
                i0 + p / (n as int),
                p % (n as int),
            ),
{
    let ghost ni = n as int;
    let ghost ki = k as int;
    let ghost av = values(a@);
    let ghost bv = values(b@);
    proof {
        assert(0 <= i0 * k <= (i0 + mb) * k <= m * k) by (nonlinear_arith)
            requires
                i0 + mb <= m,
        ;
        assert((i0 + mb) * k == i0 * k + mb * k) by (nonlinear_arith);
        assert(mb * n <= m * n) by (nonlinear_arith)
            requires
                i0 + mb <= m,
        ;
    }
    let rows: &[A] = vstd::slice::slice_subrange(a, i0 * k, (i0 + mb) * k);
    let ghost rv = values(rows@);
    assert(rv =~= av.subrange(i0 * k, (i0 + mb) * k));
    let mut c: Vec<i32> = vec![0i32; mb * n];
    gemm_serial(rows, b, &mut c, mb, n, k);
    let ghost plain = c@;
    let tile: Zp = Zp { za: zp_rows_slice(&zp.za, i0, mb), zb: zp_rows_slice(&zp.zb, 0, n) };
    let sa: &[i32] = if sum_a.is_empty() {
        sum_a
    } else {
        vstd::slice::slice_subrange(sum_a, i0, i0 + mb)
    };
    assert(sums_for(sa@, sum_b@, rv, bv, mb as int, ni, ki, tile)) by {
        assert forall|i: int| 0 <= i < sa@.len() implies #[trigger] sa@[i] == wrap32(
            row_sum(rv, ki, i, k as nat),
        ) by {
            lemma_row_sum_rows(av, ki, i0 as int, mb as int, i, k as nat);
        }
    }
    apply_zp(&mut c, mb, n, k, sa, sum_b, &tile);
    proof {
        assert forall|p: int| 0 <= p < c@.len() implies #[trigger] c@[p] == entry(
            av,
            bv,
            ni,
            ki,
            *zp,
            i0 + p / ni,
            p % ni,
        ) by {
            lemma_position(p, mb as int, ni);
            assert(plain[p] == partial(
                Seq::new((mb * n) as nat, |q: int| 0i32),
                rv,
                bv,
                ni,
                ki,
                p,
                0,
                k as nat,
            ));
            lemma_corrected_is_dot(plain, rv, bv, sa@, sum_b@, tile, mb as int, ni, ki, p);
            assert(tile.za.value(p / ni) == zp.za.value(i0 + p / ni));
            assert(tile.zb.value(p % ni) == zp.zb.value(0 + p % ni));
            lemma_dot_rows(
                av,
                bv,
                ni,
                ki,
                i0 as int,
                mb as int,
                p / ni,
                p % ni,
                zp.za.value(i0 + p / ni),
                zp.zb.value(p % ni),
                k as nat,
            );
        }
    }
    c
}

/// `(A - za) @ (B - zb)`: in one piece, or row tile by row tile where there
/// is enough work to split.
pub fn gemm_tiled<A: AsAcc, B: AsAcc>(
    a: &[A],
    b: &[B],
    m: usize,
    n: usize,
    k: usize,
    zp: &Zp,
) -> (c: Vec<i32>)
    requires
        a.len() == m * k,
        b.len() == k * n,
        m * n <= usize::MAX,
        zp.covers(m as int, n as int),
    ensures
        is_product(c@, values(a@), values(b@), m as int, n as int, k as int, *zp),
{
    if !worth_splitting(m, n, k) {
        return gemm_whole(a, b, m, n, k, zp);
    }
    let sum_a: Vec<i32> = if needs_sum_a(zp) {
        sum_rows(a, m, k)
    } else {
        Vec::new()
    };
    let sum_b: Vec<i32> = if needs_sum_b(zp) {
        sum_cols(b, k, n)
    } else {
        Vec::new()
    };
    let ghost ni = n as int;
    let ghost ki = k as int;
    let ghost av = values(a@);
    let ghost bv = values(b@);
    let mut c: Vec<i32> = Vec::new();
    let mut i0: usize = 0;
    while i0 < m
        invariant
            i0 <= m,
            a.len() == m * k,
            b.len() == k * n,
            m * n <= usize::MAX,
            zp.covers(m as int, n as int),
            ni == n,
            ki == k,
            av == values(a@),
            bv == values(b@),
            sums_for(sum_a@, sum_b@, av, bv, m as int, ni, ki, *zp),
            c@.len() == i0 * n,
            forall|p: int|
                0 <= p < c@.len() ==> #[trigger] c@[p] == entry(
                    av,
                    bv,
                    ni,
                    ki,
                    *zp,
                    p / ni,
                    p % ni,
                ),
        decreases m - i0,
    {
        let mb: usize = if m - i0 < MC {
            m - i0
        } else {
            MC
        };
        let mut tile: Vec<i32> = gemm_row_tile(a, b, m, n, k, i0, mb, zp, &sum_a, &sum_b);
        let ghost done = c@;
        let ghost part = tile@;
        c.append(&mut tile);
        proof {
            assert((i0 + mb) * n == i0 * n + mb * n) by (nonlinear_arith);
            assert forall|p: int| 0 <= p < c@.len() implies #[trigger] c@[p] == entry(
                av,
                bv,
                ni,
                ki,
                *zp,
                p / ni,
                p % ni,
            ) by {
                if p >= done.len() {
                    let q = p - done.len();
                    assert(c@[p] == part[q]);
                    lemma_position(q, mb as int, ni);
                    let r = q / ni;
                    assert((i0 + r) * ni == i0 * ni + r * ni) by (nonlinear_arith);
                    lemma_row_col(i0 + r, q % ni, ni);
                } else {
                    assert(c@[p] == done[p]);
                }
            }
        }
        i0 += mb;
    }
    c
}

} // verus!
