//! What the attention plan comes to, on the bytes, indices and extents of one
//! call.

use vstd::prelude::*;
use crate::attention::int8::{head_scores, is_transpose, score, transpose_u8};
use crate::attention::mask::{row_rules, tile_rules, ScoreRule};
use crate::attention::plan::{
    heads_per_task, should_use_d32, should_use_int8, task_heads, tiles, AttentionOptions, Dims,
    HeadOffsets, HeadParams, Operand, Steps,
};
use crate::gemm::dispatch::CpuFeatures;
use crate::gemm::laws::{law_wrapping, total};

verus! {

/// The rule of a score on the tiled paths, for every key of every tile. A
/// score is hidden exactly where the byte of its query and key in the mask is
/// set or its key lies past the last one that the query may see. A score that
/// is not hidden gets the bias element of its query and key, where there is a
/// bias.
pub proof fn law_tile_rules(
    mask: Option<&[u8]>,
    mask_q_step: usize,
    bias_len: Option<usize>,
    bias_q_step: usize,
    causal_offset: Option<isize>,
    seq_q: usize,
    seq_kv: usize,
    qi: usize,
    kv_start: usize,
    tile_kv: usize,
    r: Vec<ScoreRule>,
    ki: int,
)
    requires
        call_ensures(
            tile_rules,
            (
                mask,
                mask_q_step,
                bias_len,
                bias_q_step,
                causal_offset,
                seq_q,
                seq_kv,
                qi,
                kv_start,
                tile_kv,
            ),
            r,
        ),
        kv_start <= ki < kv_start + tile_kv,
        bias_len is Some ==> qi * bias_q_step + ki <= usize::MAX,
    ensures
        r@.len() == tile_kv,
        ({
            let set = mask matches Some(m) && m@[qi * mask_q_step + ki] != 0;
            let past = causal_offset matches Some(o) && ki - qi > o;
            let rule = r@[ki - kv_start];
            &&& rule is Hide <==> set || past
            &&& !set && !past && bias_len is None ==> rule is Keep
            &&& !set && !past && bias_len is Some ==> (rule matches ScoreRule::AddBias(at) && at
                == qi * bias_q_step + ki)
        }),
{
    let i = ki - kv_start;
    assert(r@[i] == r@[i]);
    assert(kv_start + i == ki);
    assert(0 <= qi * bias_q_step) by (nonlinear_arith);
}

/// The rule of a score on the integer path, for every key: it is hidden
/// exactly where the byte of its query and key in the mask is set or its key
/// lies past the last one that the query may see, and it gets the bias element
/// of its query and key wherever there is a bias.
pub proof fn law_row_rules(
    mask: Option<&[u8]>,
    mask_q_step: usize,
    bias_len: Option<usize>,
    bias_q_step: usize,
    causal_offset: Option<isize>,
    seq_q: usize,
    seq_kv: usize,
    qi: usize,
    r: Vec<ScoreRule>,
    ki: int,
)
    requires
        call_ensures(
            row_rules,
            (mask, mask_q_step, bias_len, bias_q_step, causal_offset, seq_q, seq_kv, qi),
            r,
        ),
        0 <= ki < seq_kv,
        bias_len is Some ==> qi * bias_q_step + ki <= usize::MAX,
    ensures
        r@.len() == seq_kv,
        ({
            let set = mask matches Some(m) && m@[qi * mask_q_step + ki] != 0;
            let past = causal_offset matches Some(o) && ki - qi > o;
            let hidden = set || past;
            let rule = r@[ki];
            &&& bias_len is None ==> (rule is Hide <==> hidden) && (rule is Keep <==> !hidden)
            &&& bias_len is Some && hidden ==> (rule matches ScoreRule::HideThenAddBias(at) && at
                == qi * bias_q_step + ki)
            &&& bias_len is Some && !hidden ==> (rule matches ScoreRule::AddBias(at) && at == qi
                * bias_q_step + ki)
        }),
{
    assert(r@[ki] == r@[ki]);
    assert(0 <= qi * bias_q_step) by (nonlinear_arith);
}

/// Where one head lies. Its queries are block `b * heads + h` of `seq_q`
/// rows, and its keys and values the block of the key/value head `g`, where
/// the query heads go to the key/value heads in equal groups, in order. The
/// mask and the bias are walked by their own steps, and an absent one from 0.
pub proof fn law_head_offsets(
    d: &Dims,
    mask: Option<Steps>,
    bias: Option<Steps>,
    options: &AttentionOptions,
    p: HeadParams,
    b: usize,
    h: usize,
    r: HeadOffsets,
    per: int,
    g: int,
)
    requires
        call_ensures(HeadParams::new, (d, mask, bias, options), p),
        call_ensures(HeadParams::head_offsets, (&p, d, b, h), r),
        d.valid(),
        h < d.heads,
        per * d.kv_heads == d.heads,
        g * per <= h < (g + 1) * per,
    ensures
        r.q == (b * d.heads + h) * (d.seq_q * d.head_dim),
        r.k == (b * d.kv_heads + g) * (d.seq_kv * d.head_dim),
        r.v == (b * d.kv_heads + g) * (d.seq_kv * d.val_dim),
        r.mask == (match mask {
            Some(s) => b * s.batch_step + h * s.head_step,
            None => 0,
        }),
        r.bias == (match bias {
            Some(s) => b * s.batch_step + h * s.head_step,
            None => 0,
        }),
        p.mask.q_step == (match mask {
            Some(s) => s.q_step,
            None => d.seq_kv,
        }),
        p.bias.q_step == (match bias {
            Some(s) => s.q_step,
            None => d.seq_kv,
        }),
        options.is_causal ==> (p.causal_offset matches Some(o) && o == d.seq_kv - d.seq_q),
        !options.is_causal ==> p.causal_offset is None,
        p.seq_q == d.seq_q && p.seq_kv == d.seq_kv,
        p.head_dim == d.head_dim && p.val_dim == d.val_dim,
        p.o_head_stride == d.seq_q * d.val_dim,
{
    let kv = d.kv_heads as int;
    assert(kv > 0);
    vstd::arithmetic::div_mod::lemma_fundamental_div_mod_converse(d.heads as int, kv, per, 0);
    assert(per > 0) by (nonlinear_arith)
        requires
            g * per <= h,
            h < (g + 1) * per,
            0 <= h,
    ;
    assert((g + 1) * per == g * per + per) by (nonlinear_arith);
    vstd::arithmetic::div_mod::lemma_fundamental_div_mod_converse(h as int, per, g, h - g * per);
    assert(d.kv_head(h as int) == g);
    assert(b * 0 == 0 && h * 0 == 0) by (nonlinear_arith);
}

/// The register-blocked path runs exactly on what it is made for: plain
/// scores, heads of 32 lanes throughout, both sequences of 64 or more.
pub proof fn law_register_blocked_gate(
    query: &Operand,
    key: &Operand,
    value: &Operand,
    options: &AttentionOptions,
    avx512f: bool,
    r: bool,
)
    requires
        call_ensures(should_use_d32, (query, key, value, options, avx512f), r),
        query.shape@.len() == 4 && key.shape@.len() == 4 && value.shape@.len() == 4,
    ensures
        r ==> avx512f && !options.has_softcap,
        r ==> query.dtype is F32 && key.dtype is F32 && value.dtype is F32,
        r ==> query.shape@[3] == 32 && key.shape@[3] == 32 && value.shape@[3] == 32,
        r ==> query.shape@[2] >= 64 && key.shape@[2] >= 64,
        !r ==> !avx512f || options.has_softcap || query.dtype !is F32 || key.dtype !is F32
            || value.dtype !is F32 || query.shape@[3] != 32 || key.shape@[3] != 32
            || value.shape@[3] != 32 || query.shape@[2] < 64 || key.shape@[2] < 64,
{
}

/// The integer path runs exactly on what it is made for: plain scores, both
/// sequences of 256 or more, heads of 16 or more lanes in groups of four.
pub proof fn law_integer_gate(
    query: &Operand,
    key: &Operand,
    value: &Operand,
    options: &AttentionOptions,
    cpu: &CpuFeatures,
    r: bool,
)
    requires
        call_ensures(should_use_int8, (query, key, value, options, cpu), r),
        query.shape@.len() == 4 && key.shape@.len() == 4 && value.shape@.len() == 4,
    ensures
        r ==> cpu.avx512f && cpu.avx512bw && cpu.avx512vnni && !options.has_softcap,
        r ==> query.dtype is F32 && key.dtype is F32 && value.dtype is F32,
        r ==> query.shape@[2] >= 256 && key.shape@[2] >= 256,
        r ==> query.shape@[3] >= 16 && query.shape@[3] % 4 == 0,
        !r ==> !cpu.avx512f || !cpu.avx512bw || !cpu.avx512vnni || options.has_softcap
            || query.dtype !is F32 || key.dtype !is F32 || value.dtype !is F32 || query.shape@[2]
            < 256 || key.shape@[2] < 256 || query.shape@[3] < 16 || query.shape@[3] % 4 != 0,
{
}

/// A tensor that is not of rank 4 takes neither path.
pub proof fn law_gates_need_rank_4(
    query: &Operand,
    key: &Operand,
    value: &Operand,
    options: &AttentionOptions,
    avx512f: bool,
    cpu: &CpuFeatures,
    blocked: bool,
    integer: bool,
)
    requires
        call_ensures(should_use_d32, (query, key, value, options, avx512f), blocked),
        call_ensures(should_use_int8, (query, key, value, options, cpu), integer),
        query.shape@.len() != 4 || key.shape@.len() != 4 || value.shape@.len() != 4,
    ensures
        !blocked && !integer,
{
}

/// A task has the fewest heads with which as many tasks as there are threads
/// get through all of them.
pub proof fn law_heads_per_task(n: usize, threads: usize, per: usize)
    requires
        call_ensures(heads_per_task, (n, threads), per),
    ensures
        per >= 1,
        threads >= 1 ==> per * threads >= n,
        threads >= 1 ==> per == 1 || (per - 1) * threads < n,
        threads == 0 ==> per == (if n == 0 { 1int } else { n as int }),
{
    let t = if threads < 1 { 1int } else { threads as int };
    let c = (n + t - 1) / t;
    vstd::arithmetic::div_mod::lemma_fundamental_div_mod(n + t - 1, t);
    assert(t * c == c * t) by (nonlinear_arith);
    assert((c - 1) * t == c * t - t) by (nonlinear_arith);
    assert(c * t >= n);
    assert(c >= 1 ==> (c - 1) * t < n);
    if c < 1 {
        assert(n == 0) by (nonlinear_arith)
            requires
                c < 1,
                c * t >= n,
                t >= 1,
                n >= 0,
        ;
        assert(1 * threads >= n);
    }
    if threads == 0 {
        assert(c * 1 == c) by (nonlinear_arith);
    }
}

/// Place `i` of a task is the head that comes `i` after the task's first, with
/// the heads counted batch entry by batch entry.
pub proof fn law_task_heads(
    batch: usize,
    heads: usize,
    per: usize,
    task: usize,
    r: Vec<(usize, usize)>,
    i: int,
)
    requires
        call_ensures(task_heads, (batch, heads, per, task), r),
        0 <= i,
        i < per,
        task * per + i < batch * heads,
    ensures
        i < r@.len() <= per,
        ({
            let (b, h) = r@[i];
            b < batch && h < heads && b * heads + h == task * per + i
        }),
{
    let at = task * per + i;
    assert(0 <= task * per) by (nonlinear_arith);
    assert(heads > 0) by (nonlinear_arith)
        requires
            0 <= at < batch * heads,
            heads >= 0,
    ;
    vstd::arithmetic::div_mod::lemma_fundamental_div_mod(at, heads as int);
    let q = at / heads as int;
    assert(heads * q == q * heads) by (nonlinear_arith);
    crate::arith::lemma_position(at, batch as int, heads as int);
    assert(r@[i] == r@[i]);
}

/// The tiles follow one another from the first key to the last, each of 64
/// keys but for the last, which has the rest.
pub proof fn law_tiles_follow_one_another(seq_kv: usize, r: Vec<(usize, usize)>, t: int)
    requires
        call_ensures(tiles, (seq_kv,), r),
        0 <= t < r@.len(),
    ensures
        ({
            let (start, len) = r@[t];
            &&& start == 64 * t
            &&& 0 < len <= 64
            &&& t + 1 < r@.len() ==> len == 64
            &&& t + 1 == r@.len() ==> start + len == seq_kv
        }),
{
    assert(r@[t] == r@[t]);
    if t + 1 < r@.len() {
        assert(r@[t + 1] == r@[t + 1]);
    }
}

/// There are tiles exactly where there are keys.
pub proof fn law_tiles_where_there_are_keys(seq_kv: usize, r: Vec<(usize, usize)>)
    requires
        call_ensures(tiles, (seq_kv,), r),
    ensures
        r@.len() == 0 <==> seq_kv == 0,
{
}

/// Column `c` of what was transposed is row `c` of the transpose.
pub proof fn law_transpose_columns(
    dst: Seq<u8>,
    src: Seq<u8>,
    rows: int,
    cols: int,
    r: int,
    c: int,
)
    requires
        is_transpose(dst, src, rows, cols),
        0 <= r < rows,
        0 <= c < cols,
    ensures
        dst.len() == src.len(),
        dst[c * rows + r] == src[r * cols + c],
{
}

/// A score is a sum over the lanes.
proof fn lemma_score_is_a_sum(
    q: Seq<u8>,
    k: Seq<u8>,
    dim: int,
    qi: int,
    ki: int,
    q_zp: int,
    k_zp: int,
    upto: nat,
)
    ensures
        score(q, k, dim, qi, ki, q_zp, k_zp, upto) == total(
            Seq::new(upto, |t: int| (q[qi * dim + t] - q_zp) * (k[ki * dim + t] - k_zp)),
        ),
    decreases upto,
{
    let f = |t: int| (q[qi * dim + t] - q_zp) * (k[ki * dim + t] - k_zp);
    let s = Seq::new(upto, f);
    reveal_with_fuel(Seq::fold_left, 2);
    if upto > 0 {
        lemma_score_is_a_sum(q, k, dim, qi, ki, q_zp, k_zp, (upto - 1) as nat);
        assert(s.drop_last() =~= Seq::new((upto - 1) as nat, f));
    }
}

/// The score of query `qi` and key `ki` is the sum over the lanes of
/// `(Q[qi, t] - q_zp) * (K[ki, t] - k_zp)`, up to a multiple of 2^32.
pub proof fn law_head_scores(
    cpu: &CpuFeatures,
    q: &[u8],
    k: &[u8],
    q_zp: u8,
    k_zp: u8,
    seq_q: usize,
    seq_kv: usize,
    dim: usize,
    r: Vec<i32>,
    qi: int,
    ki: int,
)
    requires
        call_ensures(head_scores, (cpu, q, k, q_zp, k_zp, seq_q, seq_kv, dim), r),
        0 <= qi < seq_q,
        0 <= ki < seq_kv,
    ensures
        r@.len() == seq_q * seq_kv,
        (r@[qi * seq_kv + ki] - total(
            Seq::new(
                dim as nat,
                |t: int| (q@[qi * dim + t] - q_zp) * (k@[ki * dim + t] - k_zp),
            ),
        )) % 0x1_0000_0000 == 0,
{
    lemma_score_is_a_sum(
        q@,
        k@,
        dim as int,
        qi,
        ki,
        q_zp as int,
        k_zp as int,
        dim as nat,
    );
    law_wrapping(score(q@, k@, dim as int, qi, ki, q_zp as int, k_zp as int, dim as nat));
    assert(r@[qi * seq_kv + ki] == r@[qi * seq_kv + ki]);
    assert(Seq::new(
        dim as nat,
        |t: int| (q@[qi * dim + t] - q_zp) * (k@[ki * dim + t] - k_zp),
    ) =~= Seq::new(
        dim as nat,
        |t: int| (q@[qi * dim as int + t] - q_zp as int) * (k@[ki * dim as int + t] - k_zp as int),
    ));
}

/// Transposing writes element `[r, c]` to `[c, r]`.
pub proof fn law_transpose(src: &[u8], rows: usize, cols: usize, dst: &mut [u8], r: int, c: int)
    requires
        call_ensures(transpose_u8, (src, rows, cols, dst), ()),
        0 <= r < rows,
        0 <= c < cols,
    ensures
        final(dst)@.len() == rows * cols,
        final(dst)@[c * rows + r] == src@[r * cols + c],
{
}

/// The extents of a call: batch, heads, queries and head width come from the
/// query, key/value heads and keys from the key, and the value width from the
/// value.
pub proof fn law_extents(query: &[usize], key: &[usize], value: &[usize], d: Dims)
    requires
        call_ensures(Dims::of, (query, key, value), d),
        query@.len() == 4 && key@.len() == 4 && value@.len() == 4,
    ensures
        query@ == seq![d.batch, d.heads, d.seq_q, d.head_dim],
        key@[1] == d.kv_heads && key@[2] == d.seq_kv,
        value@[3] == d.val_dim,
{
    assert(query@ =~= seq![d.batch, d.heads, d.seq_q, d.head_dim]);
}

} // verus!
