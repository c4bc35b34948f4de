//! Integer `Q @ K^T` of the quantized attention path.

use vstd::prelude::*;
use crate::arith::{lemma_in_matrix, lemma_position, lemma_row_col, lemma_wrap_id, wrap32};
use crate::gemm::acc::values;
use crate::gemm::dispatch::{gemm_u8u8_into, pack_fits, CpuFeatures};
use crate::gemm::model::dot;
use crate::gemm::zp::{Zp, ZpLane};

verus! {

/// `dst[cols, rows]` is `src[rows, cols]` with rows and columns exchanged.
pub open spec fn is_transpose(dst: Seq<u8>, src: Seq<u8>, rows: int, cols: int) -> bool {
    &&& dst.len() == rows * cols
    &&& src.len() == rows * cols
    &&& forall|r: int, c: int|
        0 <= r < rows && 0 <= c < cols ==> #[trigger] dst[c * rows + r] == #[trigger] src[r * cols
            + c]
}

/// Writes the transpose of `src[rows, cols]` to `dst`.
pub fn transpose_u8(src: &[u8], rows: usize, cols: usize, dst: &mut [u8])
    requires
        src.len() == rows * cols,
        old(dst).len() == rows * cols,
    ensures
        is_transpose(final(dst)@, src@, rows as int, cols as int),
{
    let ghost nr = rows as int;
    let ghost nc = cols as int;
    let mut r: usize = 0;
    while r < rows
        invariant
            r <= rows,
            nr == rows,
            nc == cols,
            src.len() == rows * cols,
            dst.len() == rows * cols,
            forall|i: int, j: int|
                0 <= i < r && 0 <= j < nc ==> #[trigger] dst@[j * nr + i] == #[trigger] src@[i * nc
                    + j],
        decreases rows - r,
    {
        let mut c: usize = 0;
        while c < cols
            invariant
                r < rows,
                c <= cols,
                nr == rows,
                nc == cols,
                src.len() == rows * cols,
                dst.len() == rows * cols,
                forall|i: int, j: int|
                    0 <= j < nc && (0 <= i < r || i == r && j < c) ==> #[trigger] dst@[j * nr + i]
                        == #[trigger] src@[i * nc + j],
            decreases cols - c,
        {
            proof {
                lemma_in_matrix(r as int, c as int, nr, nc);
                lemma_in_matrix(c as int, r as int, nc, nr);
                assert(nc * nr == nr * nc) by (nonlinear_arith);
            }
            let ghost before = dst@;
            dst[c * rows + r] = src[r * cols + c];
            proof {
                assert forall|i: int, j: int|
                    0 <= j < nc && (0 <= i < r || i == r && j < c
                        + 1) implies #[trigger] dst@[j * nr + i] == #[trigger] src@[i * nc + j] by {
                    lemma_row_col(j, i, nr);
                    lemma_row_col(c as int, r as int, nr);
                    lemma_in_matrix(j, i, nc, nr);
                    if !(i == r && j == c) {
                        assert(j * nr + i != c * nr + r);
                        assert(before[j * nr + i] == src@[i * nc + j]);
                    }
                }
            }
            c += 1;
        }
        r += 1;
    }
}

/// Transposing twice gives back what was there.
pub proof fn law_transpose_twice(a: Seq<u8>, b: Seq<u8>, c: Seq<u8>, rows: int, cols: int)
    requires
        0 <= rows,
        0 <= cols,
        is_transpose(b, a, rows, cols),
        is_transpose(c, b, cols, rows),
    ensures
        c == a,
{
    assert(cols * rows == rows * cols) by (nonlinear_arith);
    assert forall|p: int| 0 <= p < a.len() implies c[p] == a[p] by {
        lemma_position(p, rows, cols);
        let i = p / cols;
        let j = p % cols;
        assert(b[j * rows + i] == a[i * cols + j]);
        assert(c[i * cols + j] == b[j * rows + i]);
    }
    assert(c =~= a);
}

/// Sum over the first `upto` lanes `t` of
/// `(Q[qi, t] - q_zp) * (K[ki, t] - k_zp)`, for row-major `Q` and `K` of width
/// `dim`.
pub open spec fn score(
    q: Seq<u8>,
    k: Seq<u8>,
    dim: int,
    qi: int,
    ki: int,
    q_zp: int,
    k_zp: int,
    upto: nat,
) -> int
    decreases upto,
{
    if upto == 0 {
        0
    } else {
        let t = upto - 1;
        score(q, k, dim, qi, ki, q_zp, k_zp, t as nat) + (q[qi * dim + t] - q_zp) * (k[ki * dim + t]
            - k_zp)
    }
}

/// A column of the transposed keys gives the score.
proof fn lemma_score(
    q: Seq<u8>,
    k: Seq<u8>,
    kt: Seq<u8>,
    seq_q: int,
    seq_kv: int,
    dim: int,
    qi: int,
    ki: int,
    q_zp: int,
    k_zp: int,
    upto: nat,
)
    requires
        q.len() == seq_q * dim,
        is_transpose(kt, k, seq_kv, dim),
        0 <= qi < seq_q,
        0 <= ki < seq_kv,
        upto <= dim,
    ensures
        dot(values(q), values(kt), seq_kv, dim, qi, ki, q_zp, k_zp, upto) == score(
            q,
            k,
            dim,
            qi,
            ki,
            q_zp,
            k_zp,
            upto,
        ),
    decreases upto,
{
    if upto > 0 {
        let t = (upto - 1) as nat;
        lemma_score(q, k, kt, seq_q, seq_kv, dim, qi, ki, q_zp, k_zp, t);
        lemma_in_matrix(qi, t as int, seq_q, dim);
        lemma_in_matrix(t as int, ki, dim, seq_kv);
        assert(dim * seq_kv == seq_kv * dim) by (nonlinear_arith);
        assert(kt[t * seq_kv + ki] == k[ki * dim + t]);
    }
}

/// Scores of one head: every query row of `q[seq_q, dim]` against every key
/// row of `k[seq_kv, dim]`, both centred on their zero-points, in wrapping
/// 32-bit arithmetic.
pub fn head_scores(
    cpu: &CpuFeatures,
    q: &[u8],
    k: &[u8],
    q_zp: u8,
    k_zp: u8,
    seq_q: usize,
    seq_kv: usize,
    dim: usize,
) -> (r: Vec<i32>)
    requires
        q.len() == seq_q * dim,
        k.len() == seq_kv * dim,
        seq_q * seq_kv <= usize::MAX,
        cpu.has_vnni() ==> pack_fits(seq_kv as int, dim as int),
    ensures
        r@.len() == seq_q * seq_kv,
        forall|qi: int, ki: int|
            0 <= qi < seq_q && 0 <= ki < seq_kv ==> #[trigger] r@[qi * seq_kv + ki] == wrap32(
                score(q@, k@, dim as int, qi, ki, q_zp as int, k_zp as int, dim as nat),
            ),
{
    let mut kt: Vec<u8> = vec![0u8; k.len()];
    transpose_u8(k, seq_kv, dim, kt.as_mut_slice());
    let zp = Zp { za: ZpLane::Scalar(q_zp as i32), zb: ZpLane::Scalar(k_zp as i32) };
    let mut r: Vec<i32> = vec![0i32; seq_q * seq_kv];
    proof {
        assert(dim * seq_kv == seq_kv * dim) by (nonlinear_arith);
    }
    gemm_u8u8_into(cpu, q, kt.as_slice(), seq_q, seq_kv, dim, &zp, r.as_mut_slice());
    proof {
        assert forall|qi: int, ki: int| 0 <= qi < seq_q && 0 <= ki < seq_kv implies #[trigger] r@[qi
            * seq_kv + ki] == wrap32(
            score(q@, k@, dim as int, qi, ki, q_zp as int, k_zp as int, dim as nat),
        ) by {
            lemma_in_matrix(qi, ki, seq_q as int, seq_kv as int);
            lemma_row_col(qi, ki, seq_kv as int);
            lemma_score(
                q@,
                k@,
                kt@,
                seq_q as int,
                seq_kv as int,
                dim as int,
                qi,
                ki,
                q_zp as int,
                k_zp as int,
                dim as nat,
            );
        }
    }
    r
}

/// A score is at most `255 * 255` per lane.
proof fn lemma_score_bound(
    q: Seq<u8>,
    k: Seq<u8>,
    dim: int,
    qi: int,
    ki: int,
    q_zp: u8,
    k_zp: u8,
    upto: nat,
)
    ensures
        -65025 * upto <= score(q, k, dim, qi, ki, q_zp as int, k_zp as int, upto) <= 65025 * upto,
    decreases upto,
{
    if upto > 0 {
        let t = upto - 1;
        lemma_score_bound(q, k, dim, qi, ki, q_zp, k_zp, t as nat);
        let x = q[qi * dim + t] - q_zp;
        let y = k[ki * dim + t] - k_zp;
        assert(-65025 <= x * y <= 65025) by (nonlinear_arith)
            requires
                -255 <= x <= 255,
                -255 <= y <= 255,
        ;
    }
}

/// Heads of up to 33025 lanes never wrap: the 32-bit score is the sum itself.
pub proof fn law_scores_are_exact(
    q: Seq<u8>,
    k: Seq<u8>,
    dim: nat,
    qi: int,
    ki: int,
    q_zp: u8,
    k_zp: u8,
)
    requires
        dim <= 33025,
    ensures
        wrap32(score(q, k, dim as int, qi, ki, q_zp as int, k_zp as int, dim)) == score(
            q,
            k,
            dim as int,
            qi,
            ki,
            q_zp as int,
            k_zp as int,
            dim,
        ),
{
    lemma_score_bound(q, k, dim as int, qi, ki, q_zp, k_zp, dim);
    lemma_wrap_id(score(q, k, dim as int, qi, ki, q_zp as int, k_zp as int, dim) as i32);
}

} // verus!
