//! Zero-points of a matrix product and the correction they call for.

use vstd::prelude::*;
use crate::arith::{
    lemma_congruent_add, lemma_congruent_mul, lemma_congruent_sub, lemma_in_matrix, lemma_position,
    lemma_row_col, lemma_wrap_acc, lemma_wrap_congruent, lemma_wrap_id, lemma_wrap_is_congruent,
    lemma_wrapping_add, lemma_wrapping_mul, lemma_wrapping_sub, wrap32,
};
use crate::gemm::acc::{values, AsAcc};
use crate::gemm::model::{col_sum, dot, row_sum};

verus! {

/// Per-row (`za`) or per-column (`zb`) zero-point, or a scalar broadcast.
#[derive(Clone, Debug)]
pub enum ZpLane {
    Zero,
    Scalar(i32),
    Per(Vec<i32>),
}

impl ZpLane {
    /// The zero-point of row or column `i`.
    pub open spec fn value(self, i: int) -> int {
        match self {
            ZpLane::Zero => 0,
            ZpLane::Scalar(v) => v as int,
            ZpLane::Per(v) => v@[i] as int,
        }
    }

    /// The lane has a zero-point for each of `len` rows or columns.
    pub open spec fn covers(self, len: int) -> bool {
        self matches ZpLane::Per(v) ==> v@.len() >= len
    }

    /// Every zero-point that the lane holds is zero.
    pub open spec fn all_zero(self) -> bool {
        match self {
            ZpLane::Zero => true,
            ZpLane::Scalar(v) => v == 0,
            ZpLane::Per(v) => forall|i: int| 0 <= i < v@.len() ==> v@[i] == 0,
        }
    }

    /// The zero-point of row or column `i`.
    pub fn at(&self, i: usize) -> (r: i32)
        requires
            self.covers(i + 1),
        ensures
            r == self.value(i as int),
    {
        match self {
            ZpLane::Zero => 0,
            ZpLane::Scalar(v) => *v,
            ZpLane::Per(v) => v[i],
        }
    }

    /// Whether the lane leaves every product as it is.
    pub fn is_zero(&self) -> (r: bool)
        ensures
            r == self.all_zero(),
    {
        match self {
            ZpLane::Zero => true,
            ZpLane::Scalar(v) => *v == 0,
            ZpLane::Per(v) => {
                let mut i: usize = 0;
                while i < v.len()
                    invariant
                        i <= v.len(),
                        *self == ZpLane::Per(*v),
                        forall|j: int| 0 <= j < i ==> v@[j] == 0,
                    decreases v.len() - i,
                {
                    if v[i] != 0 {
                        assert(self->Per_0@[i as int] != 0);
                        return false;
                    }
                    i += 1;
                }
                true
            },
        }
    }
}

/// ONNX MatMulInteger zero-points for one `[M, K] x [K, N]` pair.
#[derive(Clone, Debug)]
pub struct Zp {
    pub za: ZpLane,
    pub zb: ZpLane,
}

impl Zp {
    /// There is a zero-point for each of `m` rows and `n` columns.
    pub open spec fn covers(self, m: int, n: int) -> bool {
        self.za.covers(m) && self.zb.covers(n)
    }

    pub open spec fn all_zero(self) -> bool {
        self.za.all_zero() && self.zb.all_zero()
    }

    /// No zero-points.
    pub fn none() -> (r: Self)
        ensures
            r.za is Zero,
            r.zb is Zero,
    {
        Zp { za: ZpLane::Zero, zb: ZpLane::Zero }
    }

    pub fn is_none(&self) -> (r: bool)
        ensures
            r == self.all_zero(),
    {
        self.za.is_zero() && self.zb.is_zero()
    }
}

/// Entry `[i, j]` of `(A - za) @ (B - zb)`, wrapped to an `i32`, for row-major
/// `A[_, k]` and `B[k, n]`.
pub open spec fn entry(a: Seq<int>, b: Seq<int>, n: int, k: int, zp: Zp, i: int, j: int) -> i32 {
    wrap32(dot(a, b, n, k, i, j, zp.za.value(i), zp.zb.value(j), k as nat))
}

/// `c` is `(A - za) @ (B - zb)` for row-major `A[m, k]`, `B[k, n]` and
/// `C[m, n]`, each entry wrapped to an `i32`.
pub open spec fn is_product(
    c: Seq<i32>,
    a: Seq<int>,
    b: Seq<int>,
    m: int,
    n: int,
    k: int,
    zp: Zp,
) -> bool {
    &&& c.len() == m * n
    &&& forall|p: int|
        0 <= p < c.len() ==> #[trigger] c[p] == entry(a, b, n, k, zp, p / n, p % n)
}

/// A product is determined by its operands: whichever path computed it, the
/// entries are the same.
pub proof fn law_product_is_unique(
    c: Seq<i32>,
    d: Seq<i32>,
    a: Seq<int>,
    b: Seq<int>,
    m: int,
    n: int,
    k: int,
    zp: Zp,
)
    requires
        is_product(c, a, b, m, n, k, zp),
        is_product(d, a, b, m, n, k, zp),
    ensures
        c == d,
{
    assert(c =~= d);
}

/// Over an empty inner axis every entry is zero, whatever the zero-points.
pub proof fn law_empty_product_is_zero(
    c: Seq<i32>,
    a: Seq<int>,
    b: Seq<int>,
    m: int,
    n: int,
    zp: Zp,
    p: int,
)
    requires
        is_product(c, a, b, m, n, 0, zp),
        0 <= p < c.len(),
    ensures
        c[p] == 0,
{
    lemma_wrap_id(0);
}

/// The zero-points of rows `i0 .. i0 + mb`.
pub fn zp_rows_slice(za: &ZpLane, i0: usize, mb: usize) -> (r: ZpLane)
    requires
        za.covers(i0 + mb),
        i0 + mb <= usize::MAX,
    ensures
        r.covers(mb as int),
        forall|i: int| 0 <= i < mb ==> #[trigger] r.value(i) == za.value(i0 + i),
        za.all_zero() ==> r.all_zero(),
{
    match za {
        ZpLane::Zero => ZpLane::Zero,
        ZpLane::Scalar(v) => ZpLane::Scalar(*v),
        ZpLane::Per(v) => {
            let part: Vec<i32> = vstd::slice::slice_to_vec(
                vstd::slice::slice_subrange(v.as_slice(), i0, i0 + mb),
            );
            assert forall|i: int| 0 <= i < mb implies part@[i] == v@[i0 + i] by {}
            ZpLane::Per(part)
        },
    }
}

/// Whether the row sums of `A` enter the correction.
pub fn needs_sum_a(zp: &Zp) -> (r: bool)
    ensures
        r == !zp.zb.all_zero(),
{
    !zp.zb.is_zero()
}

/// Whether the column sums of `B` enter the correction.
pub fn needs_sum_b(zp: &Zp) -> (r: bool)
    ensures
        r == !zp.za.all_zero(),
{
    !zp.za.is_zero()
}

/// Wrapped sum of each row of `A[m, k]`.
pub fn sum_rows<A: AsAcc>(a: &[A], m: usize, k: usize) -> (s: Vec<i32>)
    requires
        a.len() == m * k,
    ensures
        s@.len() == m,
        forall|i: int|
            0 <= i < m ==> #[trigger] s@[i] == wrap32(row_sum(values(a@), k as int, i, k as nat)),
{
    let mut s: Vec<i32> = Vec::new();
    let mut i: usize = 0;
    while i < m
        invariant
            i <= m,
            s@.len() == i,
            a.len() == m * k,
            forall|r: int|
                0 <= r < i ==> #[trigger] s@[r] == wrap32(
                    row_sum(values(a@), k as int, r, k as nat),
                ),
        decreases m - i,
    {
        let mut acc: i32 = 0;
        let mut kk: usize = 0;
        while kk < k
            invariant
                i < m,
                kk <= k,
                a.len() == m * k,
                acc == wrap32(row_sum(values(a@), k as int, i as int, kk as nat)),
            decreases k - kk,
        {
            proof {
                lemma_in_matrix(i as int, kk as int, m as int, k as int);
            }
            let v: i32 = a[i * k + kk].as_acc();
            proof {
                lemma_wrap_acc(row_sum(values(a@), k as int, i as int, kk as nat), v);
            }
            acc = acc.wrapping_add(v);
            kk += 1;
        }
        s.push(acc);
        i += 1;
    }
    s
}

/// Wrapped sum of each column of `B[k, n]`.
pub fn sum_cols<B: AsAcc>(b: &[B], k: usize, n: usize) -> (s: Vec<i32>)
    requires
        b.len() == k * n,
    ensures
        s@.len() == n,
        forall|j: int|
            0 <= j < n ==> #[trigger] s@[j] == wrap32(col_sum(values(b@), n as int, j, k as nat)),
{
    let mut s: Vec<i32> = vec![0i32; n];
    let mut kk: usize = 0;
    while kk < k
        invariant
            kk <= k,
            s@.len() == n,
            b.len() == k * n,
            forall|j: int|
                0 <= j < n ==> #[trigger] s@[j] == wrap32(
                    col_sum(values(b@), n as int, j, kk as nat),
                ),
        decreases k - kk,
    {
        let mut j: usize = 0;
        while j < n
            invariant
                kk < k,
                j <= n,
                s@.len() == n,
                b.len() == k * n,
                forall|c: int|
                    0 <= c < n ==> #[trigger] s@[c] == wrap32(
                        col_sum(
                            values(b@),
                            n as int,
                            c,
                            if c < j {
                                (kk + 1) as nat
                            } else {
                                kk as nat
                            },
                        ),
                    ),
            decreases n - j,
        {
            proof {
                lemma_in_matrix(kk as int, j as int, k as int, n as int);
            }
            let v: i32 = b[kk * n + j].as_acc();
            proof {
                lemma_wrap_acc(col_sum(values(b@), n as int, j as int, kk as nat), v);
            }
            s[j] = s[j].wrapping_add(v);
            j += 1;
        }
        kk += 1;
    }
    s
}

/// `k` as a wrapped 32-bit factor.
pub fn wrap_len(k: usize) -> (r: i32)
    ensures
        r == wrap32(k as int),
{
    let lo: u32 = #[verifier::truncate] (k as u32);
    let r: i32 = #[verifier::truncate] (lo as i32);
    assert(lo as u64 == (k as u64) % 0x1_0000_0000) by (bit_vector)
        requires
            lo == k as u32,
    ;
    assert(lo >= 0x8000_0000 ==> r == lo - 0x1_0000_0000) by (bit_vector)
        requires
            r == lo as i32,
    ;
    assert(lo < 0x8000_0000 ==> r == lo) by (bit_vector)
        requires
            r == lo as i32,
    ;
    r
}

/// The correction at row `i` and column `j`: `za * sum_b + sum_a * zb - k * za * zb`,
/// where an empty list of sums counts as zeros.
pub open spec fn correction(
    sum_a: Seq<i32>,
    sum_b: Seq<i32>,
    zp: Zp,
    k: int,
    i: int,
    j: int,
) -> int {
    let sa = if sum_a.len() == 0 {
        0
    } else {
        sum_a[i] as int
    };
    let sb = if sum_b.len() == 0 {
        0
    } else {
        sum_b[j] as int
    };
    zp.za.value(i) * sb + sa * zp.zb.value(j) - k * zp.za.value(i) * zp.zb.value(j)
}

/// The wrapped steps of one correction give the wrapped correction.
proof fn lemma_correct(c: i32, za: i32, zb: i32, sa: i32, sb: i32, k_i: i32, k: int)
    requires
        k_i == wrap32(k),
    ensures
        c.wrapping_sub(
            za.wrapping_mul(sb).wrapping_add(sa.wrapping_mul(zb)).wrapping_sub(
                k_i.wrapping_mul(za).wrapping_mul(zb),
            ),
        ) == wrap32(c - (za * sb + sa * zb - k * za * zb)),
{
    let t1 = za.wrapping_mul(sb);
    let t2 = sa.wrapping_mul(zb);
    let t3 = k_i.wrapping_mul(za);
    let t4 = t3.wrapping_mul(zb);
    let t5 = t1.wrapping_add(t2);
    let t6 = t5.wrapping_sub(t4);
    lemma_wrapping_mul(za, sb);
    lemma_wrapping_mul(sa, zb);
    lemma_wrapping_mul(k_i, za);
    lemma_wrapping_mul(t3, zb);
    lemma_wrapping_add(t1, t2);
    lemma_wrapping_sub(t5, t4);
    lemma_wrapping_sub(c, t6);
    lemma_wrap_is_congruent(k);
    lemma_congruent_mul(k_i as int, k, za as int, za as int);
    lemma_congruent_mul(t3 as int, k * za, zb as int, zb as int);
    lemma_congruent_add(t1 as int, za * sb, t2 as int, sa * zb);
    lemma_congruent_sub(t5 as int, za * sb + sa * zb, t4 as int, k * za * zb);
    lemma_congruent_sub(c as int, c as int, t6 as int, za * sb + sa * zb - k * za * zb);
    lemma_wrap_congruent(c - t6, c - (za * sb + sa * zb - k * za * zb));
}

/// Entry `p` of `C[_, n]` less the correction of its row and column.
pub open spec fn corrected(
    c: Seq<i32>,
    sum_a: Seq<i32>,
    sum_b: Seq<i32>,
    zp: Zp,
    n: int,
    k: int,
    p: int,
) -> i32 {
    wrap32(c[p] - correction(sum_a, sum_b, zp, k, p / n, p % n))
}

/// Takes the zero-point correction off every entry of `C[m, n]`.
pub fn apply_zp(
    c: &mut [i32],
    m: usize,
    n: usize,
    k: usize,
    sum_a: &[i32],
    sum_b: &[i32],
    zp: &Zp,
)
    requires
        old(c).len() == m * n,
        zp.covers(m as int, n as int),
        sum_a.len() == 0 || sum_a.len() >= m,
        sum_b.len() == 0 || sum_b.len() >= n,
    ensures
        final(c)@.len() == old(c)@.len(),
        forall|p: int|
            0 <= p < final(c)@.len() ==> #[trigger] final(c)@[p] == corrected(
                old(c)@,
                sum_a@,
                sum_b@,
                *zp,
                n as int,
                k as int,
                p,
            ),
{
    if zp.is_none() {
        proof {
            let ghost ni = n as int;
            assert forall|p: int| 0 <= p < c@.len() implies #[trigger] c@[p] == corrected(
                c@,
                sum_a@,
                sum_b@,
                *zp,
                ni,
                k as int,
                p,
            ) by {
                lemma_position(p, m as int, ni);
                assert(zp.za.value(p / ni) == 0 && zp.zb.value(p % ni) == 0);
                lemma_wrap_id(c@[p]);
                assert(k * 0 * 0 == 0) by (nonlinear_arith);
            }
        }
        return ;
    }
    apply_zp_scalar(c, m, n, k, sum_a, sum_b, zp);
}

/// Takes the zero-point correction off every entry of `C[m, n]`, one at a time.
pub fn apply_zp_scalar(
    c: &mut [i32],
    m: usize,
    n: usize,
    k: usize,
    sum_a: &[i32],
    sum_b: &[i32],
    zp: &Zp,
)
    requires
        old(c).len() == m * n,
        zp.covers(m as int, n as int),
        sum_a.len() == 0 || sum_a.len() >= m,
        sum_b.len() == 0 || sum_b.len() >= n,
    ensures
        final(c)@.len() == old(c)@.len(),
        forall|p: int|
            0 <= p < final(c)@.len() ==> #[trigger] final(c)@[p] == corrected(
                old(c)@,
                sum_a@,
                sum_b@,
                *zp,
                n as int,
                k as int,
                p,
            ),
{
    let k_i: i32 = wrap_len(k);
    let ghost c0 = c@;
    let ghost ni = n as int;
    let mut i: usize = 0;
    while i < m
        invariant
            i <= m,
            ni == n,
            c.len() == m * n,
            c0.len() == c@.len(),
            zp.covers(m as int, n as int),
            sum_a.len() == 0 || sum_a.len() >= m,
            sum_b.len() == 0 || sum_b.len() >= n,
            k_i == wrap32(k as int),
            forall|p: int|
                0 <= p < c@.len() ==> #[trigger] c@[p] == if p / ni < i {
                    corrected(c0, sum_a@, sum_b@, *zp, ni, k as int, p)
                } else {
                    c0[p]
                },
        decreases m - i,
    {
        let za: i32 = zp.za.at(i);
        let sa: i32 = if sum_a.is_empty() {
            0
        } else {
            sum_a[i]
        };
        let mut j: usize = 0;
        while j < n
            invariant
                i < m,
                j <= n,
                ni == n,
                c.len() == m * n,
                c0.len() == c@.len(),
                zp.covers(m as int, n as int),
                sum_b.len() == 0 || sum_b.len() >= n,
                k_i == wrap32(k as int),
                za == zp.za.value(i as int),
                sa == (if sum_a@.len() == 0 {
                    0
                } else {
                    sum_a@[i as int] as int
                }),
                forall|p: int|
                    0 <= p < c@.len() ==> #[trigger] c@[p] == if p / ni < i || (p / ni == i && p
                        % ni < j) {
                        corrected(c0, sum_a@, sum_b@, *zp, ni, k as int, p)
                    } else {
                        c0[p]
                    },
            decreases n - j,
        {
            let zb: i32 = zp.zb.at(j);
            let sb: i32 = if sum_b.is_empty() {
                0
            } else {
                sum_b[j]
            };
            proof {
                lemma_in_matrix(i as int, j as int, m as int, ni);
                lemma_row_col(i as int, j as int, ni);
            }
            let ghost before = c@;
            let at: usize = i * n + j;
            let corr: i32 = za.wrapping_mul(sb).wrapping_add(sa.wrapping_mul(zb)).wrapping_sub(
                k_i.wrapping_mul(za).wrapping_mul(zb),
            );
            proof {
                lemma_correct(c@[at as int], za, zb, sa, sb, k_i, k as int);
            }
            c[at] = c[at].wrapping_sub(corr);
            proof {
                assert forall|p: int| 0 <= p < c@.len() implies #[trigger] c@[p] == if p / ni < i
                    || (p / ni == i && p % ni <= j) {
                    corrected(c0, sum_a@, sum_b@, *zp, ni, k as int, p)
                } else {
                    c0[p]
                } by {
                    lemma_position(p, m as int, ni);
                    if p != at {
                        assert(c@[p] == before[p]);
                    }
                }
            }
            j += 1;
        }
        proof {
            assert forall|p: int| 0 <= p < c@.len() implies #[trigger] c@[p] == if p / ni <= i {
                corrected(c0, sum_a@, sum_b@, *zp, ni, k as int, p)
            } else {
                c0[p]
            } by {
                lemma_position(p, m as int, ni);
            }
        }
        i += 1;
    }
    proof {
        assert forall|p: int| 0 <= p < c@.len() implies #[trigger] c@[p] == corrected(
            c0,
            sum_a@,
            sum_b@,
            *zp,
            ni,
            k as int,
            p,
        ) by {
            lemma_position(p, m as int, ni);
        }
    }
}

} // verus!
