//! Which attention path runs, where each head lies in its buffer, and how
//! the work is cut up.

use vstd::prelude::*;
use crate::arith::lemma_in_matrix;
use crate::gemm::dispatch::CpuFeatures;
use crate::ir::DType;

verus! {

/// Head width of the register-blocked path.
pub const D: usize = 32;

/// Keys per tile of the online softmax.
pub const TILE: usize = 64;

/// Shortest sequence on which the register-blocked path runs.
pub const D32_MIN_SEQ: usize = 64;

/// Shortest sequence on which the integer path runs.
pub const INT8_MIN_SEQ: usize = 256;

/// Element type and shape of a query, key or value tensor.
#[derive(Clone, Debug)]
pub struct Operand {
    pub dtype: DType,
    pub shape: Vec<usize>,
}

/// What the gates read of the attention options.
#[derive(Clone, Copy, Debug)]
pub struct AttentionOptions {
    /// Whether the scores are soft-capped.
    pub has_softcap: bool,
    /// Whether a query sees only the keys up to its own position, counted
    /// from the end.
    pub is_causal: bool,
}

impl Operand {
    /// A 32-bit float tensor of rank 4.
    pub open spec fn is_f32_rank4(self) -> bool {
        self.dtype is F32 && self.shape@.len() == 4
    }

    fn f32_rank4(&self) -> (r: bool)
        ensures
            r == self.is_f32_rank4(),
    {
        self.dtype == DType::F32 && self.shape.len() == 4
    }
}

/// The register-blocked path: no softcap, three float tensors of rank 4 whose
/// last axis is 32, both sequences at least 64 long, on a CPU with AVX-512.
pub open spec fn d32_applies(
    query: Operand,
    key: Operand,
    value: Operand,
    has_softcap: bool,
    avx512f: bool,
) -> bool {
    &&& !has_softcap
    &&& query.is_f32_rank4()
    &&& key.is_f32_rank4()
    &&& value.is_f32_rank4()
    &&& query.shape@[3] == 32
    &&& key.shape@[3] == 32
    &&& value.shape@[3] == 32
    &&& query.shape@[2] >= 64
    &&& key.shape@[2] >= 64
    &&& avx512f
}

/// The integer path: no softcap, three float tensors of rank 4, both
/// sequences at least 256 long, a head width of at least 16 that is a multiple
/// of 4, on a CPU with VNNI.
pub open spec fn int8_applies(
    query: Operand,
    key: Operand,
    value: Operand,
    has_softcap: bool,
    vnni: bool,
) -> bool {
    &&& !has_softcap
    &&& query.is_f32_rank4()
    &&& key.is_f32_rank4()
    &&& value.is_f32_rank4()
    &&& query.shape@[2] >= 256
    &&& key.shape@[2] >= 256
    &&& query.shape@[3] >= 16
    &&& query.shape@[3] % 4 == 0
    &&& vnni
}

/// Whether the register-blocked path runs.
pub fn should_use_d32(
    query: &Operand,
    key: &Operand,
    value: &Operand,
    options: &AttentionOptions,
    avx512f: bool,
) -> (r: bool)
    ensures
        r == d32_applies(*query, *key, *value, options.has_softcap, avx512f),
{
    if options.has_softcap {
        return false;
    }
    if !query.f32_rank4() || !key.f32_rank4() || !value.f32_rank4() {
        return false;
    }
    if query.shape[3] != D || key.shape[3] != D || value.shape[3] != D {
        return false;
    }
    if query.shape[2] < D32_MIN_SEQ || key.shape[2] < D32_MIN_SEQ {
        return false;
    }
    avx512f
}

/// Whether the integer path may run.
pub fn should_use_int8(
    query: &Operand,
    key: &Operand,
    value: &Operand,
    options: &AttentionOptions,
    cpu: &CpuFeatures,
) -> (r: bool)
    ensures
        r == int8_applies(*query, *key, *value, options.has_softcap, cpu.has_vnni()),
{
    if options.has_softcap {
        return false;
    }
    if !query.f32_rank4() || !key.f32_rank4() || !value.f32_rank4() {
        return false;
    }
    if query.shape[2] < INT8_MIN_SEQ || key.shape[2] < INT8_MIN_SEQ {
        return false;
    }
    let head_dim: usize = query.shape[3];
    if head_dim < 16 || head_dim % 4 != 0 {
        return false;
    }
    cpu.vnni_available()
}

/// Extents of one attention call.
#[derive(Clone, Copy, Debug)]
pub struct Dims {
    pub batch: usize,
    pub heads: usize,
    pub kv_heads: usize,
    pub seq_q: usize,
    pub seq_kv: usize,
    pub head_dim: usize,
    pub val_dim: usize,
}

impl Dims {
    /// Every query head has a key/value head, and the four buffers can be
    /// addressed.
    pub open spec fn valid(self) -> bool {
        &&& self.kv_heads > 0
        &&& self.heads % self.kv_heads == 0
        &&& self.seq_q <= isize::MAX
        &&& self.seq_kv <= isize::MAX
        &&& self.q_len() <= usize::MAX
        &&& self.k_len() <= usize::MAX
        &&& self.v_len() <= usize::MAX
        &&& self.out_len() <= usize::MAX
        &&& self.heads * (self.seq_q * self.head_dim) <= usize::MAX
        &&& self.seq_q * self.head_dim <= usize::MAX
        &&& self.kv_heads * (self.seq_kv * self.head_dim) <= usize::MAX
        &&& self.seq_kv * self.head_dim <= usize::MAX
        &&& self.kv_heads * (self.seq_kv * self.val_dim) <= usize::MAX
        &&& self.seq_kv * self.val_dim <= usize::MAX
        &&& self.seq_q * self.val_dim <= usize::MAX
        &&& self.batch * self.heads <= usize::MAX
    }

    /// Elements of the query tensor.
    pub open spec fn q_len(self) -> int {
        self.batch * self.heads * (self.seq_q * self.head_dim)
    }

    /// Elements of the key tensor.
    pub open spec fn k_len(self) -> int {
        self.batch * self.kv_heads * (self.seq_kv * self.head_dim)
    }

    /// Elements of the value tensor.
    pub open spec fn v_len(self) -> int {
        self.batch * self.kv_heads * (self.seq_kv * self.val_dim)
    }

    /// Elements of the output.
    pub open spec fn out_len(self) -> int {
        self.batch * self.heads * (self.seq_q * self.val_dim)
    }

    /// The key/value head that query head `h` reads.
    pub open spec fn kv_head(self, h: int) -> int {
        h / (self.heads as int / self.kv_heads as int)
    }

    /// The extents of three rank-4 shapes.
    pub fn of(query: &[usize], key: &[usize], value: &[usize]) -> (r: Self)
        requires
            query.len() == 4,
            key.len() == 4,
            value.len() == 4,
        ensures
            r.batch == query@[0],
            r.heads == query@[1],
            r.seq_q == query@[2],
            r.head_dim == query@[3],
            r.kv_heads == key@[1],
            r.seq_kv == key@[2],
            r.val_dim == value@[3],
    {
        Dims {
            batch: query[0],
            heads: query[1],
            kv_heads: key[1],
            seq_q: query[2],
            seq_kv: key[2],
            head_dim: query[3],
            val_dim: value[3],
        }
    }
}

/// How a mask or a bias that was broadcast to `[batch, heads, seq_q, seq_kv]`
/// is walked.
#[derive(Clone, Copy, Debug)]
pub struct Steps {
    pub batch_step: usize,
    pub head_step: usize,
    pub q_step: usize,
    pub tile_len: usize,
}

impl Steps {
    /// The elements of every head lie within `len` elements.
    pub open spec fn fits(self, batch: int, heads: int, len: int) -> bool {
        forall|b: int, h: int|
            0 <= b < batch && 0 <= h < heads ==> #[trigger] self.offset(b, h) + self.tile_len <= len
    }

    /// Where the elements of head `h` of batch entry `b` begin.
    pub open spec fn offset(self, b: int, h: int) -> int {
        b * self.batch_step + h * self.head_step
    }

    /// The steps that stand for an absent mask or bias.
    pub open spec fn absent(seq_kv: usize) -> Self {
        Steps { batch_step: 0, head_step: 0, q_step: seq_kv, tile_len: 0 }
    }
}

/// What every head of one attention call has in common.
#[derive(Clone, Copy, Debug)]
pub struct HeadParams {
    pub causal_offset: Option<isize>,
    pub seq_q: usize,
    pub seq_kv: usize,
    pub head_dim: usize,
    pub val_dim: usize,
    pub q_per_kv: usize,
    pub q_batch_stride: usize,
    pub q_head_stride: usize,
    pub k_batch_stride: usize,
    pub k_head_stride: usize,
    pub v_batch_stride: usize,
    pub v_head_stride: usize,
    pub o_head_stride: usize,
    pub mask: Steps,
    pub bias: Steps,
}

/// Where one head lies in each buffer: the first element of its part.
#[derive(Clone, Copy, Debug)]
pub struct HeadOffsets {
    pub q: usize,
    pub k: usize,
    pub v: usize,
    pub mask: usize,
    pub bias: usize,
}

impl HeadParams {
    /// These are the strides of an attention call with extents `d`.
    pub open spec fn of(self, d: Dims) -> bool {
        &&& self.seq_q == d.seq_q
        &&& self.seq_kv == d.seq_kv
        &&& self.head_dim == d.head_dim
        &&& self.val_dim == d.val_dim
        &&& self.q_per_kv == d.heads as int / d.kv_heads as int
        &&& self.q_head_stride == d.seq_q * d.head_dim
        &&& self.q_batch_stride == d.heads * (d.seq_q * d.head_dim)
        &&& self.k_head_stride == d.seq_kv * d.head_dim
        &&& self.k_batch_stride == d.kv_heads * (d.seq_kv * d.head_dim)
        &&& self.v_head_stride == d.seq_kv * d.val_dim
        &&& self.v_batch_stride == d.kv_heads * (d.seq_kv * d.val_dim)
        &&& self.o_head_stride == d.seq_q * d.val_dim
    }

    /// The parameters of an attention call.
    pub fn new(
        d: &Dims,
        mask: Option<Steps>,
        bias: Option<Steps>,
        options: &AttentionOptions,
    ) -> (r: Self)
        requires
            d.valid(),
        ensures
            r.of(*d),
            r.causal_offset == (if options.is_causal {
                Some((d.seq_kv - d.seq_q) as isize)
            } else {
                None
            }),
            r.mask == (match mask {
                Some(s) => s,
                None => Steps::absent(d.seq_kv),
            }),
            r.bias == (match bias {
                Some(s) => s,
                None => Steps::absent(d.seq_kv),
            }),
    {
        let q_head_stride: usize = d.seq_q * d.head_dim;
        let k_head_stride: usize = d.seq_kv * d.head_dim;
        let v_head_stride: usize = d.seq_kv * d.val_dim;
        HeadParams {
            causal_offset: if options.is_causal {
                Some(d.seq_kv as isize - d.seq_q as isize)
            } else {
                None
            },
            seq_q: d.seq_q,
            seq_kv: d.seq_kv,
            head_dim: d.head_dim,
            val_dim: d.val_dim,
            q_per_kv: d.heads / d.kv_heads,
            q_batch_stride: d.heads * q_head_stride,
            q_head_stride,
            k_batch_stride: d.kv_heads * k_head_stride,
            k_head_stride,
            v_batch_stride: d.kv_heads * v_head_stride,
            v_head_stride,
            o_head_stride: d.seq_q * d.val_dim,
            mask: match mask {
                Some(s) => s,
                None => Steps { batch_step: 0, head_step: 0, q_step: d.seq_kv, tile_len: 0 },
            },
            bias: match bias {
                Some(s) => s,
                None => Steps { batch_step: 0, head_step: 0, q_step: d.seq_kv, tile_len: 0 },
            },
        }
    }

    /// Where head `h` of batch entry `b` lies. Each part is a whole block of
    /// its buffer: block `b * heads + h` of the queries, and the block of the
    /// key/value head that `h` reads.
    pub fn head_offsets(&self, d: &Dims, b: usize, h: usize) -> (r: HeadOffsets)
        requires
            d.valid(),
            self.of(*d),
            b < d.batch,
            h < d.heads,
            self.mask.fits(d.batch as int, d.heads as int, usize::MAX as int),
            self.bias.fits(d.batch as int, d.heads as int, usize::MAX as int),
        ensures
            r.q == (b * d.heads + h) * self.q_head_stride,
            r.q + self.q_head_stride <= d.q_len(),
            0 <= d.kv_head(h as int) < d.kv_heads,
            r.k == (b * d.kv_heads + d.kv_head(h as int)) * self.k_head_stride,
            r.k + self.k_head_stride <= d.k_len(),
            r.v == (b * d.kv_heads + d.kv_head(h as int)) * self.v_head_stride,
            r.v + self.v_head_stride <= d.v_len(),
            r.mask == self.mask.offset(b as int, h as int),
            r.bias == self.bias.offset(b as int, h as int),
    {
        proof {
            lemma_kv_head(*d, h as int);
            lemma_block(
                b as int,
                h as int,
                d.batch as int,
                d.heads as int,
                self.q_head_stride as int,
            );
            lemma_block(
                b as int,
                d.kv_head(h as int),
                d.batch as int,
                d.kv_heads as int,
                self.k_head_stride as int,
            );
            lemma_block(
                b as int,
                d.kv_head(h as int),
                d.batch as int,
                d.kv_heads as int,
                self.v_head_stride as int,
            );
            lemma_steps(self.mask, b as int, h as int, d.batch as int, d.heads as int);
            lemma_steps(self.bias, b as int, h as int, d.batch as int, d.heads as int);
        }
        let kv_h: usize = h / self.q_per_kv;
        HeadOffsets {
            q: b * self.q_batch_stride + h * self.q_head_stride,
            k: b * self.k_batch_stride + kv_h * self.k_head_stride,
            v: b * self.v_batch_stride + kv_h * self.v_head_stride,
            mask: b * self.mask.batch_step + h * self.mask.head_step,
            bias: b * self.bias.batch_step + h * self.bias.head_step,
        }
    }
}

/// The terms of an offset that fits are themselves in range.
proof fn lemma_steps(s: Steps, b: int, h: int, batch: int, heads: int)
    requires
        0 <= b < batch,
        0 <= h < heads,
        s.fits(batch, heads, usize::MAX as int),
    ensures
        0 <= b * s.batch_step <= usize::MAX,
        0 <= h * s.head_step <= usize::MAX,
        0 <= s.offset(b, h) <= usize::MAX,
{
    assert(s.offset(b, h) + s.tile_len <= usize::MAX);
    let x = s.batch_step as int;
    let y = s.head_step as int;
    assert(0 <= b * x && 0 <= h * y) by (nonlinear_arith)
        requires
            0 <= b,
            0 <= h,
            0 <= x,
            0 <= y,
    ;
}

/// Query heads divide evenly among the key/value heads.
proof fn lemma_kv_head(d: Dims, h: int)
    requires
        d.kv_heads > 0,
        d.heads % d.kv_heads == 0,
        0 <= h < d.heads,
    ensures
        d.heads as int / d.kv_heads as int > 0,
        0 <= d.kv_head(h) < d.kv_heads,
{
    let n = d.heads as int;
    let kv = d.kv_heads as int;
    let g = n / kv;
    assert(n == kv * g) by {
        vstd::arithmetic::div_mod::lemma_fundamental_div_mod(n, kv);
    }
    assert(g > 0) by (nonlinear_arith)
        requires
            n == kv * g,
            n > 0,
            kv > 0,
    ;
    assert(0 <= h / g < kv) by (nonlinear_arith)
        requires
            0 <= h < kv * g,
            g > 0,
    ;
}

/// Block `b * n + i` of a buffer of `m * n` blocks of `s` elements.
proof fn lemma_block(b: int, i: int, m: int, n: int, s: int)
    requires
        0 <= b < m,
        0 <= i < n,
        0 <= s,
    ensures
        b * (n * s) + i * s == (b * n + i) * s,
        0 <= b * (n * s) <= b * (n * s) + i * s,
        0 <= i * s,
        (b * n + i) * s + s <= m * n * s,
{
    lemma_in_matrix(b, i, m, n);
    assert(b * (n * s) + i * s == (b * n + i) * s) by (nonlinear_arith);
    assert(0 <= b * (n * s) && 0 <= i * s) by (nonlinear_arith)
        requires
            0 <= b,
            0 <= n,
            0 <= s,
            0 <= i,
    ;
    assert((b * n + i) * s + s <= m * n * s) by (nonlinear_arith)
        requires
            b * n + i + 1 <= m * n,
            0 <= s,
    ;
}

/// The heads partition the output: every element of it lies in the block of
/// exactly one head.
pub proof fn law_each_output_in_one_head(d: Dims, p: int)
    requires
        d.valid(),
        0 <= p < d.out_len(),
    ensures
        ({
            let s = d.seq_q * d.val_dim;
            let idx = p / s;
            &&& 0 <= idx / (d.heads as int) < d.batch
            &&& 0 <= idx % (d.heads as int) < d.heads
            &&& idx * s <= p < idx * s + s
            &&& forall|other: int| #[trigger] (other * s) <= p < other * s + s ==> other == idx
        }),
{
    let s = d.seq_q * d.val_dim;
    let n = d.batch * d.heads;
    crate::arith::lemma_position(p, n, s);
    let idx = p / s;
    crate::arith::lemma_position(idx, d.batch as int, d.heads as int);
    assert forall|other: int| #[trigger] (other * s) <= p < other * s + s implies other == idx by {
        crate::arith::lemma_row_col(other, p - other * s, s);
    }
}

/// Heads that share a key/value head are the `heads / kv_heads` consecutive
/// ones of its group.
pub proof fn law_kv_heads_are_shared_in_groups(d: Dims, h: int)
    requires
        d.valid(),
        0 <= h < d.heads,
    ensures
        ({
            let g = d.heads as int / d.kv_heads as int;
            &&& 0 <= d.kv_head(h) < d.kv_heads
            &&& d.kv_head(h) * g <= h < d.kv_head(h) * g + g
        }),
{
    lemma_kv_head(d, h);
    let g = d.heads as int / d.kv_heads as int;
    vstd::arithmetic::div_mod::lemma_fundamental_div_mod(h, g);
    assert(g * (h / g) == (h / g) * g) by (nonlinear_arith);
}

/// The least integer that is at least `n / d`.
pub open spec fn ceil_div(n: int, d: int) -> int {
    (n + d - 1) / d
}

fn div_ceil(n: usize, d: usize) -> (r: usize)
    requires
        d > 0,
    ensures
        r == ceil_div(n as int, d as int),
{
    proof {
        lemma_ceil_div(n as int, d as int);
    }
    if n % d == 0 {
        n / d
    } else {
        n / d + 1
    }
}

/// Rounding up, by quotient and remainder.
proof fn lemma_ceil_div(n: int, d: int)
    requires
        0 <= n,
        0 < d,
    ensures
        ceil_div(n, d) == n / d + (if n % d == 0 { 0int } else { 1 }),
        ceil_div(n, d) <= n,
        n <= ceil_div(n, d) * d,
        n > 0 ==> (ceil_div(n, d) - 1) * d < n,
{
    vstd::arithmetic::div_mod::lemma_fundamental_div_mod(n, d);
    let q = n / d;
    let m = n % d;
    assert(d * q == q * d) by (nonlinear_arith);
    assert((q + 1) * d == q * d + d) by (nonlinear_arith);
    assert(q * d >= q) by (nonlinear_arith)
        requires
            0 < d,
            0 <= q,
    ;
    if m == 0 {
        vstd::arithmetic::div_mod::lemma_fundamental_div_mod_converse(n + d - 1, d, q, d - 1);
        assert((q - 1) * d == q * d - d) by (nonlinear_arith);
    } else {
        vstd::arithmetic::div_mod::lemma_fundamental_div_mod_converse(n + d - 1, d, q + 1, m - 1);
    }
}

/// Heads per task, for `n` heads on `threads` threads: about one task per
/// thread, and never an empty task.
pub open spec fn per_task(n: int, threads: int) -> int {
    let t = if threads < 1 { 1 } else { threads };
    if ceil_div(n, t) < 1 {
        1
    } else {
        ceil_div(n, t)
    }
}

/// How many heads one task works on.
pub fn heads_per_task(n: usize, threads: usize) -> (r: usize)
    ensures
        r == per_task(n as int, threads as int),
        r >= 1,
{
    let t: usize = if threads < 1 { 1 } else { threads };
    let r: usize = div_ceil(n, t);
    if r < 1 {
        1
    } else {
        r
    }
}

/// How many heads task `task` works on, out of `n` heads with `per` to a task.
pub open spec fn task_len(n: int, per: int, task: int) -> int {
    if n - task * per < 0 {
        0
    } else if n - task * per < per {
        n - task * per
    } else {
        per
    }
}

/// The `(batch, head)` pairs of task `task`, in order.
pub fn task_heads(batch: usize, heads: usize, per: usize, task: usize) -> (r: Vec<(usize, usize)>)
    requires
        batch * heads <= usize::MAX,
        per >= 1,
    ensures
        r@.len() == task_len(batch * heads, per as int, task as int),
        forall|i: int|
            0 <= i < r@.len() ==> {
                &&& #[trigger] r@[i] == (
                    ((task * per + i) / heads as int) as usize,
                    ((task * per + i) % heads as int) as usize,
                )
                &&& r@[i].0 < batch
                &&& r@[i].1 < heads
            },
{
    let n: usize = batch * heads;
    let mut r: Vec<(usize, usize)> = Vec::new();
    let start: usize = match task.checked_mul(per) {
        Some(s) => s,
        None => {
            return r;
        },
    };
    if start >= n {
        return r;
    }
    let end: usize = if n - start < per { n } else { start + per };
    let mut idx: usize = start;
    while idx < end
        invariant
            start == task * per,
            start <= idx <= end <= n,
            n == batch * heads,
            end - start == task_len(n as int, per as int, task as int),
            r@.len() == idx - start,
            forall|i: int|
                0 <= i < r@.len() ==> {
                    &&& #[trigger] r@[i] == (
                        ((task * per + i) / heads as int) as usize,
                        ((task * per + i) % heads as int) as usize,
                    )
                    &&& r@[i].0 < batch
                    &&& r@[i].1 < heads
                },
        decreases end - idx,
    {
        proof {
            crate::arith::lemma_position(idx as int, batch as int, heads as int);
        }
        r.push((idx / heads, idx % heads));
        idx += 1;
    }
    r
}

/// With at most one task per thread, the tasks work on every head once: head
/// `idx` belongs to task `idx / per` and to no other.
pub proof fn law_each_head_in_one_task(n: int, threads: int, idx: int)
    requires
        0 <= idx < n,
        1 <= threads,
    ensures
        ({
            let per = per_task(n, threads);
            let task = idx / per;
            &&& 0 <= task < threads
            &&& 0 <= idx - task * per < task_len(n, per, task)
            &&& forall|other: int|
                #![trigger task_len(n, per, other)]
                0 <= idx - other * per < task_len(n, per, other) ==> other == task
        }),
{
    let per = per_task(n, threads);
    lemma_ceil_div(n, threads);
    let c = ceil_div(n, threads);
    assert(c >= 1) by (nonlinear_arith)
        requires
            n <= c * threads,
            0 < n,
            1 <= threads,
    ;
    vstd::arithmetic::div_mod::lemma_fundamental_div_mod(idx, per);
    let task = idx / per;
    assert(per * task == task * per) by (nonlinear_arith);
    assert(task < threads) by (nonlinear_arith)
        requires
            task * per <= idx,
            idx < n,
            n <= per * threads,
            per > 0,
    ;
    assert(task >= 0) by (nonlinear_arith)
        requires
            idx >= 0,
            task * per + per > idx,
            per > 0,
    ;
    assert forall|other: int|
        #![trigger task_len(n, per, other)]
        0 <= idx - other * per < task_len(n, per, other) implies other == task by {
        crate::arith::lemma_row_col(other, idx - other * per, per);
    }
}

/// First key and number of keys of tile `t` of `seq_kv` keys.
pub open spec fn tile(seq_kv: int, t: int) -> (int, int) {
    (
        t * TILE,
        if seq_kv - t * TILE < TILE {
            seq_kv - t * TILE
        } else {
            TILE as int
        },
    )
}

/// The tiles of `seq_kv` keys, as first key and number of keys.
pub fn tiles(seq_kv: usize) -> (r: Vec<(usize, usize)>)
    ensures
        r@.len() == ceil_div(seq_kv as int, TILE as int),
        forall|t: int|
            0 <= t < r@.len() ==> {
                &&& (#[trigger] r@[t]).0 == tile(seq_kv as int, t).0
                &&& r@[t].1 == tile(seq_kv as int, t).1
                &&& 0 < r@[t].1 <= TILE
                &&& r@[t].0 + r@[t].1 <= seq_kv
            },
{
    let num: usize = div_ceil(seq_kv, TILE);
    let mut r: Vec<(usize, usize)> = Vec::new();
    let mut t: usize = 0;
    while t < num
        invariant
            t <= num,
            num == ceil_div(seq_kv as int, TILE as int),
            r@.len() == t,
            forall|i: int|
                0 <= i < r@.len() ==> {
                    &&& (#[trigger] r@[i]).0 == tile(seq_kv as int, i).0
                    &&& r@[i].1 == tile(seq_kv as int, i).1
                    &&& 0 < r@[i].1 <= TILE
                    &&& r@[i].0 + r@[i].1 <= seq_kv
                },
        decreases num - t,
    {
        proof {
            lemma_ceil_div(seq_kv as int, TILE as int);
        }
        let start: usize = t * TILE;
        let left: usize = seq_kv - start;
        r.push((start, if left < TILE { left } else { TILE }));
        t += 1;
    }
    r
}

/// The tiles partition the keys: key `ki` lies in tile `ki / 64` and in no
/// other.
pub proof fn law_each_key_in_one_tile(seq_kv: int, ki: int)
    requires
        0 <= ki < seq_kv,
    ensures
        ({
            let t = ki / TILE as int;
            &&& 0 <= t < ceil_div(seq_kv, TILE as int)
            &&& 0 <= ki - tile(seq_kv, t).0 < tile(seq_kv, t).1
            &&& forall|other: int|
                0 <= ki - (#[trigger] tile(seq_kv, other)).0 < tile(seq_kv, other).1 ==> other == t
        }),
{
    lemma_ceil_div(seq_kv, TILE as int);
}

} // verus!
