//! Tile sizes of a blocked matrix product on the processor: a leaf that stays
//! in registers, a `K` depth that stays in the first-level cache, and a split
//! over worker threads.

use vstd::prelude::*;
use vstd::string::StringExecFns;
use vstd::arithmetic::div_mod::lemma_fundamental_div_mod;
use crate::codegen::text::{decimal, decimal_text};

verus! {

/// First-level data cache that the blocking aims at, in bytes.
pub const L1_BYTES: usize = 32768;

/// Bytes of the accumulator block of a leaf, which must stay in vector
/// registers across the `K` loop.
pub const ACC_REG_BYTES: usize = 384;

/// Cores assumed where the device does not say.
pub const DEFAULT_CORES: usize = 4;

/// `x` moved into `lo ..= hi`.
pub open spec fn clamped(x: int, lo: int, hi: int) -> int {
    if x < lo {
        lo
    } else if x > hi {
        hi
    } else {
        x
    }
}

pub open spec fn at_least_one(x: int) -> int {
    if x < 1 {
        1
    } else {
        x
    }
}

/// `x` held at the greatest `usize`.
pub open spec fn saturated(x: int) -> int {
    if x > usize::MAX {
        usize::MAX as int
    } else {
        x
    }
}

fn max1(x: usize) -> (r: usize)
    ensures
        r == at_least_one(x as int),
{
    if x < 1 {
        1
    } else {
        x
    }
}

fn clamp(x: usize, lo: usize, hi: usize) -> (r: usize)
    requires
        lo <= hi,
    ensures
        r == clamped(x as int, lo as int, hi as int),
{
    if x < lo {
        lo
    } else if x > hi {
        hi
    } else {
        x
    }
}

fn saturating_mul(x: usize, y: usize) -> (r: usize)
    ensures
        r == saturated(x * y),
{
    match x.checked_mul(y) {
        Some(v) => v,
        None => usize::MAX,
    }
}

/// `r` is the largest divisor of `k` in `1 ..= cap`, where `cap` is first moved
/// into `1 ..= max(k, 1)`.
pub open spec fn is_divisor_at_most(r: int, k: int, cap: int) -> bool {
    let top = clamped(cap, 1, at_least_one(k));
    &&& 1 <= r <= top
    &&& k % r == 0
    &&& forall|d: int| r < d <= top ==> #[trigger] (k % d) != 0
}

/// The largest divisor of `k` not exceeding `cap`, at least 1.
pub fn divisor_at_most(k: usize, cap: usize) -> (r: usize)
    ensures
        is_divisor_at_most(r as int, k as int, cap as int),
{
    let top: usize = clamp(cap, 1, max1(k));
    let mut best: usize = 1;
    let mut d: usize = 1;
    while d < top
        invariant
            1 <= best <= d <= top,
            k % best == 0,
            forall|e: int| best < e <= d ==> #[trigger] (k as int % e) != 0,
        decreases top - d,
    {
        d += 1;
        if k % d == 0 {
            best = d;
        }
    }
    best
}

/// `r` is the largest divisor of `k` in `1 ..= cap` that is a multiple of
/// `multiple`.
pub open spec fn is_multiple_divisor(r: int, k: int, cap: int, multiple: int) -> bool {
    let top = clamped(cap, 1, at_least_one(k));
    &&& 1 <= r <= top
    &&& k % r == 0
    &&& r % multiple == 0
    &&& forall|d: int| r < d <= top ==> #[trigger] (k % d) != 0 || d % multiple != 0
}

/// Some divisor of `k` in `1 ..= cap` is a multiple of `multiple`.
pub open spec fn has_multiple_divisor(k: int, cap: int, multiple: int) -> bool {
    exists|d: int|
        1 <= d <= clamped(cap, 1, at_least_one(k)) && #[trigger] (k % d) == 0 && d % multiple == 0
}

/// Like [`divisor_at_most`], but a divisor that is a multiple of `multiple`
/// where there is one.
pub fn divisor_at_most_prefer_multiple(k: usize, cap: usize, multiple: usize) -> (r: usize)
    ensures
        multiple > 1 && has_multiple_divisor(k as int, cap as int, multiple as int)
            ==> is_multiple_divisor(r as int, k as int, cap as int, multiple as int),
        multiple <= 1 || !has_multiple_divisor(k as int, cap as int, multiple as int)
            ==> is_divisor_at_most(r as int, k as int, cap as int),
        1 <= r <= at_least_one(k as int),
        k % r == 0,
{
    let any: usize = divisor_at_most(k, cap);
    if multiple <= 1 {
        return any;
    }
    let top: usize = clamp(cap, 1, max1(k));
    let mut best: usize = 0;
    let mut d: usize = 0;
    while d < top
        invariant
            0 <= best <= d <= top,
            top == clamped(cap as int, 1, at_least_one(k as int)),
            multiple > 1,
            best > 0 ==> k % best == 0 && best % multiple == 0,
            forall|e: int|
                best < e <= d && 1 <= e ==> #[trigger] (k as int % e) != 0 || e % (multiple as int)
                    != 0,
        decreases top - d,
    {
        d += 1;
        if k % d == 0 && d % multiple == 0 {
            best = d;
        }
    }
    if best > 0 {
        assert(k as int % best as int == 0);
        assert(has_multiple_divisor(k as int, cap as int, multiple as int));
        best
    } else {
        any
    }
}

/// How far apart two numbers are.
pub open spec fn distance(a: int, b: int) -> int {
    if a < b {
        b - a
    } else {
        a - b
    }
}

/// `d` is a better match for `t` than `r`: nearer, or as near and larger.
pub open spec fn beats(d: int, r: int, t: int) -> bool {
    distance(d, t) < distance(r, t) || (distance(d, t) == distance(r, t) && d > r)
}

/// `r` is the divisor of `g` nearest to `target`, moved into `1 ..= max(g, 1)`;
/// of two that are as near, the larger.
pub open spec fn is_nearest_divisor(r: int, g: int, target: int) -> bool {
    let t = clamped(target, 1, at_least_one(g));
    &&& 1 <= r <= at_least_one(g)
    &&& g % r == 0
    &&& forall|d: int| 1 <= d <= g && #[trigger] (g % d) == 0 ==> !beats(d, r, t)
}

fn abs_diff(a: usize, b: usize) -> (r: usize)
    ensures
        r == distance(a as int, b as int),
{
    if a < b {
        b - a
    } else {
        a - b
    }
}

/// The divisor of `g` nearest `target`, ties going to the larger.
pub fn nearest_divisor(g: usize, target: usize) -> (r: usize)
    ensures
        is_nearest_divisor(r as int, g as int, target as int),
{
    let t: usize = clamp(target, 1, max1(g));
    let mut best: usize = 1;
    let mut d: usize = 0;
    while d < g
        invariant
            d <= g,
            1 <= best <= at_least_one(d as int),
            g % best == 0,
            forall|e: int|
                1 <= e <= d && #[trigger] (g as int % e) == 0 ==> !beats(e, best as int, t as int),
        decreases g - d,
    {
        d += 1;
        if g % d == 0 {
            let near: usize = abs_diff(d, t);
            let held: usize = abs_diff(best, t);
            if near < held || (near == held && d > best) {
                best = d;
            }
        }
    }
    best
}

/// The largest integer whose square is at most `x`.
pub open spec fn is_isqrt(r: int, x: int) -> bool {
    0 <= r && r * r <= x < (r + 1) * (r + 1)
}

/// 2 to the 53rd: one more than the largest significand of an `f64`.
pub const SIGNIFICANDS: u64 = 0x20_0000_0000_0000;

/// The distance of the `f64`s around an integer, where it is at least 1.
pub open spec fn float_step(x: int) -> int
    decreases x,
{
    if x < SIGNIFICANDS {
        1
    } else {
        2 * float_step(x / 2)
    }
}

/// The `f64` nearest to an integer, an even significand in the middle.
pub open spec fn nearest_float(x: int) -> int {
    let step = float_step(x);
    let q = x / step;
    let rest = x % step;
    if 2 * rest > step || (2 * rest == step && q % 2 == 1) {
        (q + 1) * step
    } else {
        q * step
    }
}

/// The largest power of two up to `x`.
pub open spec fn top_bit(x: int) -> int
    decreases x,
{
    if x <= 1 {
        1
    } else {
        2 * top_bit(x / 2)
    }
}

/// The `f64` nearest to the root of `y`, rounded down, where `r` is the exact
/// root rounded down. It is one more than `r` where the root is less than half
/// the distance of two `f64`s from `r + 1`.
pub open spec fn rounded_root(r: int, y: int) -> int {
    let n = r + 1;
    if r >= 1 && (n * n - y) * (SIGNIFICANDS as int / top_bit(r)) < 2 * n {
        n
    } else {
        r
    }
}

/// `root` is the square root of `x` as `f64` arithmetic gives it, rounded down.
pub open spec fn is_float_root(root: int, x: int) -> bool {
    exists|r: int| #[trigger] is_isqrt(r, nearest_float(x)) && root == rounded_root(
        r,
        nearest_float(x),
    )
}

fn isqrt(x: u128) -> (r: u128)
    requires
        x <= 0x1_0000_0000_0000_0000,
    ensures
        is_isqrt(r as int, x as int),
        r <= 0x1_0000_0000,
{
    let mut lo: u128 = 0;
    let mut hi: u128 = 0x1_0000_0000;
    while lo < hi
        invariant
            lo <= hi <= 0x1_0000_0000,
            lo * lo <= x,
            x < (hi + 1) * (hi + 1),
        decreases hi - lo,
    {
        let mid: u128 = lo + (hi - lo) / 2 + (hi - lo) % 2;
        assert(lo < mid <= hi);
        assert(mid * mid <= 0x1_0000_0000 * 0x1_0000_0000) by (nonlinear_arith)
            requires
                mid <= 0x1_0000_0000,
        ;
        if mid * mid <= x {
            lo = mid;
        } else {
            hi = mid - 1;
        }
    }
    lo
}

proof fn lemma_float_step(x: int)
    ensures
        1 <= float_step(x),
    decreases x,
{
    if x >= SIGNIFICANDS {
        lemma_float_step(x / 2);
    }
}

proof fn lemma_float_step_is_small(x: int)
    requires
        x < 0x1_0000_0000_0000_0000,
    ensures
        float_step(x) <= 2048,
{
    reveal_with_fuel(float_step, 13);
}

/// The `f64` nearest to an integer.
fn to_float(x: usize) -> (y: u128)
    ensures
        y == nearest_float(x as int),
        y <= 0x1_0000_0000_0000_0000,
        x < SIGNIFICANDS ==> y == x,
{
    let ghost all = float_step(x as int);
    let mut step: u64 = 1;
    let mut q: u64 = x as u64;
    proof {
        lemma_float_step_is_small(x as int);
    }
    while q >= SIGNIFICANDS
        invariant
            1 <= step,
            q == x as int / step as int,
            all == step * float_step(q as int),
            all <= 2048,
            step > 1 ==> x >= SIGNIFICANDS,
            step == 1 ==> q == x,
        decreases q,
    {
        let ghost f = float_step(q as int / 2);
        proof {
            lemma_float_step(q as int / 2);
            vstd::arithmetic::div_mod::lemma_div_denominator(x as int, step as int, 2);
            assert(step * (2 * f) == (step * 2) * f && step * 2 <= all) by (nonlinear_arith)
                requires
                    1 <= f,
                    1 <= step,
                    all == step * (2 * f),
            ;
        }
        step = step * 2;
        q = q / 2;
    }
    assert(all == step);
    let rest: u64 = x as u64 % step;
    assert((q + 1) * step <= 0x1_0000_0000_0000_0000 && 0 <= q * step <= (q + 1) * step)
        by (nonlinear_arith)
        requires
            q < SIGNIFICANDS,
            1 <= step <= 2048,
    ;
    if 2 * rest > step || (2 * rest == step && q % 2 == 1) {
        (q as u128 + 1) * step as u128
    } else {
        q as u128 * step as u128
    }
}

proof fn lemma_top_bit(x: int)
    requires
        1 <= x,
    ensures
        1 <= top_bit(x) <= x,
    decreases x,
{
    if x > 1 {
        lemma_top_bit(x / 2);
    }
}

/// The square root of `x` as `f64` arithmetic gives it, rounded down.
pub fn float_root(x: usize) -> (root: usize)
    ensures
        is_float_root(root as int, x as int),
{
    let y: u128 = to_float(x);
    let r: u128 = isqrt(y);
    if r == 0 {
        assert(rounded_root(0, y as int) == 0);
        return 0;
    }
    let ghost all = top_bit(r as int);
    proof {
        lemma_top_bit(r as int);
    }
    let mut top: u128 = 1;
    let mut rest: u128 = r;
    while rest > 1
        invariant
            1 <= rest,
            1 <= top,
            all == top * top_bit(rest as int),
            all <= r <= 0x1_0000_0000,
        decreases rest,
    {
        let ghost f = top_bit(rest as int / 2);
        proof {
            lemma_top_bit(rest as int / 2);
            assert(top * (2 * f) == (top * 2) * f && top * 2 <= all) by (nonlinear_arith)
                requires
                    1 <= f,
                    1 <= top,
                    all == top * (2 * f),
            ;
        }
        top = top * 2;
        rest = rest / 2;
    }
    let n: u128 = r + 1;
    let scale: u128 = SIGNIFICANDS as u128 / top;
    let ghost d = n * n - y;
    proof {
        assert(n * n <= 0x1_0000_0001 * 0x1_0000_0001 && n * n == r * r + 2 * r + 1)
            by (nonlinear_arith)
            requires
                n == r + 1,
                n <= 0x1_0000_0001,
        ;
        assert(0 <= d * scale <= 0x2_0000_0002 * SIGNIFICANDS) by (nonlinear_arith)
            requires
                0 <= d <= 0x2_0000_0002,
                0 <= scale <= SIGNIFICANDS,
        ;
        assert(n <= usize::MAX) by {
            if usize::MAX < SIGNIFICANDS {
                assert(r < 0x1_0000) by (nonlinear_arith)
                    requires
                        r * r <= y,
                        y <= 0xffff_ffff,
                ;
            }
        }
    }
    if (n * n - y) * scale < 2 * n {
        n as usize
    } else {
        r as usize
    }
}

/// The `m x n x k` extent of the innermost instruction.
#[derive(Clone, Copy, Debug, PartialEq, Eq, Structural)]
pub struct InstructionShape {
    pub m: usize,
    pub n: usize,
    pub k: usize,
}

/// How many planes a stage tile is divided into, along `m` and `n`.
#[derive(Clone, Copy, Debug, PartialEq, Eq, Structural)]
pub struct PlaneGrid {
    pub m: usize,
    pub n: usize,
}

/// A resolved plan: the leaf that each plane computes, and how finely a stage
/// tile is split across planes.
#[derive(Clone, Copy, Debug, PartialEq, Eq, Structural)]
pub struct CpuGemmBlueprint {
    pub instruction: InstructionShape,
    pub planes: PlaneGrid,
}

/// Extents of a product and the bytes of one element of each operand.
#[derive(Clone, Copy, Debug, PartialEq, Eq, Structural)]
pub struct MatmulProblem {
    pub m: usize,
    pub n: usize,
    pub k: usize,
    pub lhs_bytes: usize,
    pub rhs_bytes: usize,
    pub out_bytes: usize,
}

/// What the plan reads of the device: the vector width of the output in
/// elements, and the number of cores.
#[derive(Clone, Copy, Debug, PartialEq, Eq, Structural)]
pub struct DeviceSettings {
    pub vector_size_out: usize,
    pub num_cpu_cores: Option<u32>,
}

/// Why a plan was refused.
#[derive(Debug)]
pub enum MatmulSetupError {
    InvalidConfig(String),
}

/// The text of a refused instruction.
pub open spec fn instruction_text(i: InstructionShape) -> Seq<char> {
    "CpuGemm instruction must be non-zero, got "@ + decimal(i.m as nat) + "x"@ + decimal(
        i.n as nat,
    ) + "x"@ + decimal(i.k as nat)
}

/// The text of a refused plane grid.
pub open spec fn planes_text(p: PlaneGrid) -> Seq<char> {
    "CpuGemm plane grid must be non-zero, got "@ + decimal(p.m as nat) + "x"@ + decimal(p.n as nat)
}

impl CpuGemmBlueprint {
    pub open spec fn instruction_ok(self) -> bool {
        self.instruction.m != 0 && self.instruction.n != 0 && self.instruction.k != 0
    }

    pub open spec fn planes_ok(self) -> bool {
        self.planes.m != 0 && self.planes.n != 0
    }

    /// Rejects a degenerate plan: the instruction is looked at first.
    pub fn validate(&self, _problem: &MatmulProblem) -> (r: Result<(), MatmulSetupError>)
        ensures
            r is Ok == (self.instruction_ok() && self.planes_ok()),
            !self.instruction_ok() ==> (r matches Err(MatmulSetupError::InvalidConfig(s)) && s@
                == instruction_text(self.instruction)),
            self.instruction_ok() && !self.planes_ok() ==> (r matches Err(
                MatmulSetupError::InvalidConfig(s),
            ) && s@ == planes_text(self.planes)),
    {
        let (i, p) = (self.instruction, self.planes);
        if i.m == 0 || i.n == 0 || i.k == 0 {
            return Err(
                MatmulSetupError::InvalidConfig(
                    String::from_str("CpuGemm instruction must be non-zero, got ").concat(
                        decimal_text(i.m).as_str(),
                    ).concat("x").concat(decimal_text(i.n).as_str()).concat("x").concat(
                        decimal_text(i.k).as_str(),
                    ),
                ),
            );
        }
        if p.m == 0 || p.n == 0 {
            return Err(
                MatmulSetupError::InvalidConfig(
                    String::from_str("CpuGemm plane grid must be non-zero, got ").concat(
                        decimal_text(p.m).as_str(),
                    ).concat("x").concat(decimal_text(p.n).as_str()),
                ),
            );
        }
        Ok(())
    }
}

/// The leaf and the grid of leaves, before the depth and the split are chosen.
#[derive(Clone, Copy, Debug, PartialEq, Eq, Structural)]
pub struct LeafPlan {
    pub tile_m: usize,
    pub tile_n: usize,
    /// Vector width along `n`.
    pub vector: usize,
    /// Deepest `K` panel that keeps both operands in the cache.
    pub depth_limit: usize,
    pub grid_m: usize,
    pub grid_n: usize,
    pub cores: usize,
}

/// Output elements that fit the accumulator registers.
pub open spec fn budget(problem: MatmulProblem) -> int {
    at_least_one(ACC_REG_BYTES as int / at_least_one(problem.out_bytes as int))
}

/// Deepest `K` panel: what the cache holds beside the output tile, over the
/// bytes of one step of both operands.
pub open spec fn depth_limit(problem: MatmulProblem, tile_m: int, tile_n: int) -> int {
    let c = saturated(saturated(tile_m * tile_n) * at_least_one(problem.out_bytes as int));
    let step = saturated(
        saturated(tile_m * at_least_one(problem.lhs_bytes as int)) + saturated(
            tile_n * at_least_one(problem.rhs_bytes as int),
        ),
    );
    (if c >= L1_BYTES {
        0
    } else {
        L1_BYTES - c
    }) / at_least_one(step)
}

/// Least number of tiles of `tile` that cover `axis`, at least 1.
pub open spec fn tiles_over(axis: int, tile: int) -> int {
    at_least_one((axis + tile - 1) / tile)
}

/// The plan follows from the problem and the device: `tile_n` near
/// `sqrt(budget * vector)`, `tile_m` filling the budget, both dividing their
/// axis.
pub open spec fn is_leaf_plan(
    plan: LeafPlan,
    problem: MatmulProblem,
    device: DeviceSettings,
) -> bool {
    let vector = at_least_one(device.vector_size_out as int);
    &&& plan.vector == vector
    &&& exists|root: int|
        is_float_root(root, budget(problem) * vector) && #[trigger] is_divisor_at_most(
            plan.tile_n as int,
            problem.n as int,
            at_least_one(root),
        )
    &&& is_divisor_at_most(
        plan.tile_m as int,
        problem.m as int,
        at_least_one(budget(problem) / plan.tile_n as int),
    )
    &&& plan.depth_limit == depth_limit(problem, plan.tile_m as int, plan.tile_n as int)
    &&& plan.grid_m == tiles_over(problem.m as int, plan.tile_m as int)
    &&& plan.grid_n == tiles_over(problem.n as int, plan.tile_n as int)
    &&& plan.cores == at_least_one(
        match device.num_cpu_cores {
            Some(c) => c as int,
            None => DEFAULT_CORES as int,
        },
    )
}

/// Quantities that are worked out in floating point from a [`LeafPlan`].
#[derive(Clone, Copy, Debug, PartialEq, Eq, Structural)]
pub struct FloatTargets {
    /// `alpha` times the depth left above the vector width, rounded down, for
    /// an `alpha` in `0 ..= 1`.
    pub extra_depth: usize,
    /// `sqrt(cores * grid_m / grid_n)`, rounded.
    pub plane_m: usize,
}

/// A plan given as it is, or one to be worked out.
#[derive(Clone, Copy, Debug, PartialEq, Eq, Structural)]
pub enum BlueprintStrategy {
    Forced(CpuGemmBlueprint),
    Inferred(FloatTargets),
}

/// The depth above the vector width stays under the limit.
pub open spec fn depth_in_range(plan: LeafPlan, targets: FloatTargets) -> bool {
    targets.extra_depth <= if plan.depth_limit < plan.vector {
        0
    } else {
        plan.depth_limit - plan.vector
    }
}

/// The blueprint follows from the leaf and the targets.
pub open spec fn is_selected(
    b: CpuGemmBlueprint,
    plan: LeafPlan,
    targets: FloatTargets,
    problem: MatmulProblem,
) -> bool {
    let k = problem.k as int;
    let cap = clamped(plan.vector + targets.extra_depth, 1, at_least_one(k));
    let bytes = at_least_one(problem.lhs_bytes as int) == 1 && at_least_one(
        problem.rhs_bytes as int,
    ) == 1;
    &&& b.instruction.m == plan.tile_m
    &&& b.instruction.n == plan.tile_n
    &&& bytes && has_multiple_divisor(k, cap, 4) ==> is_multiple_divisor(
        b.instruction.k as int,
        k,
        cap,
        4,
    )
    &&& !bytes || !has_multiple_divisor(k, cap, 4) ==> is_divisor_at_most(
        b.instruction.k as int,
        k,
        cap,
    )
    &&& is_nearest_divisor(b.planes.m as int, plan.grid_m as int, targets.plane_m as int)
    &&& is_nearest_divisor(
        b.planes.n as int,
        plan.grid_n as int,
        at_least_one(plan.cores as int / b.planes.m as int),
    )
}

/// Nothing is ragged: the leaf divides the problem, or is 1 along an empty
/// axis, and the planes divide the grid of leaves.
pub open spec fn divides_evenly(b: CpuGemmBlueprint, plan: LeafPlan, problem: MatmulProblem) -> bool {
    &&& problem.m as int % b.instruction.m as int == 0
    &&& problem.n as int % b.instruction.n as int == 0
    &&& problem.k as int % b.instruction.k as int == 0
    &&& plan.grid_m as int % b.planes.m as int == 0
    &&& plan.grid_n as int % b.planes.n as int == 0
}

fn div_ceil(axis: usize, tile: usize) -> (r: usize)
    requires
        tile > 0,
    ensures
        r == (axis + tile - 1) / (tile as int),
{
    let q: usize = axis / tile;
    let rest: usize = axis % tile;
    let ghost t = tile as int;
    proof {
        lemma_fundamental_div_mod(axis as int, t);
        assert(t * q == q * t) by (nonlinear_arith);
        assert((q + 1) * t == q * t + t) by (nonlinear_arith);
        if rest == 0 {
            vstd::arithmetic::div_mod::lemma_fundamental_div_mod_converse(
                axis + t - 1,
                t,
                q as int,
                t - 1,
            );
        } else {
            vstd::arithmetic::div_mod::lemma_fundamental_div_mod_converse(
                axis + t - 1,
                t,
                q + 1,
                rest - 1,
            );
        }
        if rest > 0 {
            assert(q + 1 <= axis) by (nonlinear_arith)
                requires
                    axis == t * q + rest,
                    rest > 0,
                    t > 0,
                    q >= 0,
            ;
        }
    }
    if rest == 0 {
        q
    } else {
        q + 1
    }
}

/// Pairs a strategy with the plan that it resolves to.
pub struct CpuGemmRoutine;

impl CpuGemmRoutine {
    /// The leaf for the problem on the device, and the grid of leaves.
    pub fn leaf_plan(problem: &MatmulProblem, device: &DeviceSettings) -> (plan: LeafPlan)
        requires
            budget(*problem) * at_least_one(device.vector_size_out as int) <= usize::MAX,
        ensures
            is_leaf_plan(plan, *problem, *device),
    {
        let (m, n) = (problem.m, problem.n);
        let out_elem: usize = max1(problem.out_bytes);
        let lhs_elem: usize = max1(problem.lhs_bytes);
        let rhs_elem: usize = max1(problem.rhs_bytes);
        let vector: usize = max1(device.vector_size_out);
        let cores: usize = max1(
            match device.num_cpu_cores {
                Some(c) => c as usize,
                None => DEFAULT_CORES,
            },
        );
        let budget_elems: usize = max1(ACC_REG_BYTES / out_elem);
        proof {
            assert(ACC_REG_BYTES as int / out_elem as int <= ACC_REG_BYTES) by (nonlinear_arith)
                requires
                    out_elem >= 1,
            ;
            assert(0 <= budget_elems * vector) by (nonlinear_arith)
                requires
                    budget_elems >= 0,
                    vector >= 0,
            ;
        }
        let root: usize = float_root(budget_elems * vector);
        let tile_n: usize = divisor_at_most(n, max1(root));
        let tile_m: usize = divisor_at_most(m, max1(budget_elems / tile_n));
        let c_bytes: usize = saturating_mul(saturating_mul(tile_m, tile_n), out_elem);
        let a_row: usize = saturating_mul(tile_m, lhs_elem);
        let b_col: usize = saturating_mul(tile_n, rhs_elem);
        let step: usize = a_row.saturating_add(b_col);
        let depth_limit: usize = L1_BYTES.saturating_sub(c_bytes) / max1(step);
        let plan: LeafPlan = LeafPlan {
            tile_m,
            tile_n,
            vector,
            depth_limit,
            grid_m: max1(div_ceil(m, tile_m)),
            grid_n: max1(div_ceil(n, tile_n)),
            cores,
        };
        assert(is_divisor_at_most(plan.tile_n as int, n as int, at_least_one(root as int)));
        plan
    }

    /// The blueprint for a leaf: the depth snaps to a divisor of `k` (a multiple
    /// of 4 for 8-bit operands where there is one), the planes to divisors of
    /// the grid.
    pub fn select(
        plan: &LeafPlan,
        targets: &FloatTargets,
        problem: &MatmulProblem,
        device: &DeviceSettings,
    ) -> (b: CpuGemmBlueprint)
        requires
            is_leaf_plan(*plan, *problem, *device),
            depth_in_range(*plan, *targets),
        ensures
            is_selected(b, *plan, *targets, *problem),
            divides_evenly(b, *plan, *problem),
            b.instruction_ok(),
            b.planes_ok(),
    {
        let k: usize = problem.k;
        let lhs_elem: usize = max1(problem.lhs_bytes);
        let rhs_elem: usize = max1(problem.rhs_bytes);
        let cap: usize = clamp(plan.vector + targets.extra_depth, 1, max1(k));
        let tile_k: usize = if lhs_elem == 1 && rhs_elem == 1 {
            divisor_at_most_prefer_multiple(k, cap, 4)
        } else {
            divisor_at_most(k, cap)
        };
        let plane_m: usize = nearest_divisor(plan.grid_m, targets.plane_m);
        let plane_n: usize = nearest_divisor(plan.grid_n, max1(plan.cores / plane_m));
        CpuGemmBlueprint {
            instruction: InstructionShape { m: plan.tile_m, n: plan.tile_n, k: tile_k },
            planes: PlaneGrid { m: plane_m, n: plane_n },
        }
    }

    /// Resolves a strategy into a validated plan.
    pub fn blueprint(
        strategy: &BlueprintStrategy,
        problem: &MatmulProblem,
        device: &DeviceSettings,
    ) -> (r: Result<CpuGemmBlueprint, MatmulSetupError>)
        requires
            strategy is Inferred ==> budget(*problem) * at_least_one(device.vector_size_out as int)
                <= usize::MAX,
            strategy matches BlueprintStrategy::Inferred(t) ==> forall|plan: LeafPlan|
                #[trigger] is_leaf_plan(plan, *problem, *device) ==> depth_in_range(plan, *t),
        ensures
            strategy matches BlueprintStrategy::Forced(b) ==> {
                &&& r is Ok == (b.instruction_ok() && b.planes_ok())
                &&& r matches Ok(x) ==> x == *b
                &&& !b.instruction_ok() ==> (r matches Err(MatmulSetupError::InvalidConfig(s))
                    && s@ == instruction_text(b.instruction))
                &&& b.instruction_ok() && !b.planes_ok() ==> (r matches Err(
                    MatmulSetupError::InvalidConfig(s),
                ) && s@ == planes_text(b.planes))
            },
            strategy matches BlueprintStrategy::Inferred(t) ==> (r matches Ok(b) && exists|
                plan: LeafPlan,
            |
                #[trigger] is_leaf_plan(plan, *problem, *device) && is_selected(
                    b,
                    plan,
                    *t,
                    *problem,
                )),
    {
        let b: CpuGemmBlueprint = match strategy {
            BlueprintStrategy::Forced(b) => *b,
            BlueprintStrategy::Inferred(t) => {
                let plan: LeafPlan = Self::leaf_plan(problem, device);
                Self::select(&plan, t, problem, device)
            },
        };
        match b.validate(problem) {
            Ok(()) => Ok(b),
            Err(e) => Err(e),
        }
    }
}

/// A problem and a device determine the leaf plan.
pub proof fn law_leaf_plan_is_unique(
    a: LeafPlan,
    b: LeafPlan,
    problem: MatmulProblem,
    device: DeviceSettings,
)
    requires
        is_leaf_plan(a, problem, device),
        is_leaf_plan(b, problem, device),
    ensures
        a == b,
{
    let x = budget(problem) * at_least_one(device.vector_size_out as int);
    let ra = choose|root: int|
        is_float_root(root, x) && #[trigger] is_divisor_at_most(
            a.tile_n as int,
            problem.n as int,
            at_least_one(root),
        );
    let rb = choose|root: int|
        is_float_root(root, x) && #[trigger] is_divisor_at_most(
            b.tile_n as int,
            problem.n as int,
            at_least_one(root),
        );
    lemma_float_root_unique(ra, rb, x);
    lemma_divisor_unique(a.tile_n as int, b.tile_n as int, problem.n as int, at_least_one(ra));
    lemma_divisor_unique(
        a.tile_m as int,
        b.tile_m as int,
        problem.m as int,
        at_least_one(budget(problem) / a.tile_n as int),
    );
}

proof fn lemma_float_root_unique(a: int, b: int, x: int)
    requires
        is_float_root(a, x),
        is_float_root(b, x),
    ensures
        a == b,
{
    let y = nearest_float(x);
    let r = choose|r: int| #[trigger] is_isqrt(r, y) && a == rounded_root(r, y);
    let s = choose|r: int| #[trigger] is_isqrt(r, y) && b == rounded_root(r, y);
    lemma_isqrt_unique(r, s, y);
}

proof fn lemma_isqrt_unique(a: int, b: int, x: int)
    requires
        is_isqrt(a, x),
        is_isqrt(b, x),
    ensures
        a == b,
{
    assert(a == b) by (nonlinear_arith)
        requires
            0 <= a,
            0 <= b,
            a * a <= x < (a + 1) * (a + 1),
            b * b <= x < (b + 1) * (b + 1),
    ;
}

proof fn lemma_divisor_unique(a: int, b: int, k: int, cap: int)
    requires
        is_divisor_at_most(a, k, cap),
        is_divisor_at_most(b, k, cap),
    ensures
        a == b,
{
    if a < b {
        assert(k % b != 0);
    } else if b < a {
        assert(k % a != 0);
    }
}

/// The largest divisor: it divides, keeps to the cap, and no divisor that
/// keeps to it is larger.
pub proof fn law_largest_divisor(k: usize, cap: usize, r: usize, d: int)
    requires
        call_ensures(divisor_at_most, (k, cap), r),
    ensures
        r >= 1,
        k as int % r as int == 0,
        k > 0 ==> r <= k,
        r <= cap || r == 1,
        k > 0 && 1 <= d <= cap && k as int % d == 0 ==> d <= r,
{
    if k > 0 && 1 <= d <= cap && k as int % d == 0 {
        lemma_divisor_is_small(k as int, d);
    }
}

/// A divisor of a positive number is at most the number.
proof fn lemma_divisor_is_small(k: int, d: int)
    requires
        k > 0,
        d >= 1,
        k % d == 0,
    ensures
        d <= k,
{
    if d > k {
        vstd::arithmetic::div_mod::lemma_small_mod(k as nat, d as nat);
    }
}

/// Among the divisors that keep to the cap, the largest multiple of `multiple`
/// where there is one, and otherwise the largest.
pub proof fn law_preferred_divisor(k: usize, cap: usize, multiple: usize, r: usize, d: int)
    requires
        call_ensures(divisor_at_most_prefer_multiple, (k, cap, multiple), r),
        k > 0,
        cap > 0,
        multiple > 1,
        1 <= d <= cap,
        k as int % d == 0,
    ensures
        1 <= r <= cap,
        k as int % r as int == 0,
        d % multiple as int == 0 ==> r as int % multiple as int == 0 && d <= r,
        r as int % multiple as int != 0 ==> d <= r,
{
    lemma_divisor_is_small(k as int, d);
    if d % multiple as int == 0 {
        assert(has_multiple_divisor(k as int, cap as int, multiple as int));
    }
}

/// The divisor nearest to the target: it divides, no divisor is nearer to the
/// target (which counts as 1 where it is less, and as `g` where it is more),
/// and of two that are as near it is the larger.
pub proof fn law_nearest_divisor(g: usize, target: usize, r: usize, d: int, t: int)
    requires
        call_ensures(nearest_divisor, (g, target), r),
        g > 0,
        d >= 1,
        g as int % d == 0,
        1 <= t <= g,
        target < 1 ==> t == 1,
        target > g ==> t == g,
        1 <= target <= g ==> t == target,
    ensures
        1 <= r <= g,
        g as int % r as int == 0,
        (r - t) * (r - t) <= (d - t) * (d - t),
        r - t == t - d ==> r >= d,
{
    lemma_divisor_is_small(g as int, d);
    assert(!beats(d, r as int, t));
    let a = distance(r as int, t);
    let b = distance(d, t);
    assert((r - t) * (r - t) == a * a && (d - t) * (d - t) == b * b) by (nonlinear_arith)
        requires
            a == r - t || a == t - r,
            b == d - t || b == t - d,
    ;
    assert(a * a <= b * b) by (nonlinear_arith)
        requires
            0 <= a <= b,
    ;
}

/// Up to 2 to the 50th the root is the exact one, rounded down.
pub proof fn law_small_roots_are_exact(x: usize, root: usize)
    requires
        call_ensures(float_root, (x,), root),
        x < 0x4_0000_0000_0000,
    ensures
        root * root <= x < (root + 1) * (root + 1),
{
    lemma_small_root(root as int, x as int);
}

proof fn lemma_small_root(root: int, x: int)
    requires
        is_float_root(root, x),
        0 <= x < 0x4_0000_0000_0000,
    ensures
        root >= 0,
        root * root <= x < (root + 1) * (root + 1),
{
    assert(float_step(x) == 1);
    assert(x / 1 == x && x % 1 == 0);
    assert(nearest_float(x) == x);
    let r = choose|r: int| #[trigger] is_isqrt(r, nearest_float(x)) && root == rounded_root(
        r,
        nearest_float(x),
    );
    if r >= 1 {
        let n = r + 1;
        lemma_top_bit(r);
        let t = top_bit(r);
        assert(r < 0x200_0000) by (nonlinear_arith)
            requires
                0 <= r,
                r * r <= x,
                x < 0x4_0000_0000_0000,
        ;
        let q = SIGNIFICANDS as int / t;
        lemma_fundamental_div_mod(SIGNIFICANDS as int, t);
        assert(q >= 0x1000_0000) by (nonlinear_arith)
            requires
                0x20_0000_0000_0000 == t * q + SIGNIFICANDS as int % t,
                0 <= SIGNIFICANDS as int % t < t,
                1 <= t < 0x200_0000,
        ;
        assert((n * n - x) * q >= 2 * n) by (nonlinear_arith)
            requires
                n * n - x >= 1,
                q >= 0x1000_0000,
                n <= 0x200_0000,
        ;
    }
}

/// The leaf of a problem. Its sides divide their axes, its `n` side is the
/// longest that the root of the accumulator elements times the vector width
/// allows, and its `m` side the longest that keeps the leaf within the 384
/// bytes of the accumulator. The leaves cover the axes exactly.
pub proof fn law_leaf(
    problem: &MatmulProblem,
    device: &DeviceSettings,
    plan: LeafPlan,
    out: int,
    vector: int,
    d: int,
)
    requires
        call_ensures(CpuGemmRoutine::leaf_plan, (problem, device), plan),
        problem.m > 0,
        problem.n > 0,
        out == (if problem.out_bytes == 0 {
            1
        } else {
            problem.out_bytes as int
        }),
        vector == (if device.vector_size_out == 0 {
            1
        } else {
            device.vector_size_out as int
        }),
        vector < 0x1_0000_0000,
        out <= 384,
        d >= 1,
    ensures
        plan.vector == vector,
        plan.tile_m >= 1 && plan.tile_n >= 1,
        plan.grid_m * plan.tile_m == problem.m,
        plan.grid_n * plan.tile_n == problem.n,
        plan.tile_n == 1 || plan.tile_n * plan.tile_n <= (384int / out) * vector,
        problem.n as int % d == 0 && d * d <= (384int / out) * vector ==> d <= plan.tile_n,
        plan.tile_m == 1 || plan.tile_m * plan.tile_n * out <= 384,
        problem.m as int % d == 0 && d * plan.tile_n * out <= 384 ==> d <= plan.tile_m,
        plan.cores == (match device.num_cpu_cores {
            Some(c) => if c == 0 {
                1
            } else {
                c as int
            },
            None => 4,
        }),
{
    let p = *problem;
    let b = budget(p);
    lemma_fundamental_div_mod(384, out);
    let q = 384int / out;
    assert(out * q == q * out) by (nonlinear_arith);
    assert(q >= 1) by (nonlinear_arith)
        requires
            384 == q * out + 384int % out,
            0 <= 384int % out < out,
            1 <= out <= 384,
    ;
    assert(q <= 384) by (nonlinear_arith)
        requires
            q * out <= 384,
            out >= 1,
            q >= 1,
    ;
    assert(b == q);
    let x = b * vector;
    assert(0 <= x < 0x4_0000_0000_0000) by (nonlinear_arith)
        requires
            x == b * vector,
            1 <= b <= 384,
            1 <= vector < 0x1_0000_0000,
    ;
    let root = choose|root: int|
        is_float_root(root, x) && #[trigger] is_divisor_at_most(
            plan.tile_n as int,
            p.n as int,
            at_least_one(root),
        );
    lemma_small_root(root, x);
    let n = plan.tile_n as int;
    let m = plan.tile_m as int;
    lemma_fundamental_div_mod(p.n as int, n);
    lemma_fundamental_div_mod(p.m as int, m);
    lemma_grid(p.n as int, n);
    lemma_grid(p.m as int, m);
    if n > 1 {
        assert(n * n <= x) by (nonlinear_arith)
            requires
                1 <= n <= root,
                root * root <= x,
        ;
    }
    if p.n as int % d == 0 && d * d <= x {
        lemma_divisor_is_small(p.n as int, d);
        assert(d <= root) by (nonlinear_arith)
            requires
                d * d <= x,
                x < (root + 1) * (root + 1),
                root >= 0,
                d >= 1,
        ;
    }
    lemma_fundamental_div_mod(b, n);
    let c = b / n;
    assert(n * c == c * n) by (nonlinear_arith);
    if m > 1 {
        assert(m <= c);
        assert(m * n <= b) by (nonlinear_arith)
            requires
                m <= c,
                c * n <= b,
                n >= 1,
        ;
        assert(m * n * out <= 384) by (nonlinear_arith)
            requires
                m * n <= q,
                q * out <= 384,
                out >= 1,
        ;
    }
    if p.m as int % d == 0 && d * n * out <= 384 {
        lemma_divisor_is_small(p.m as int, d);
        assert(d * n <= q) by (nonlinear_arith)
            requires
                d * n * out <= 384,
                384 < q * out + out,
                out >= 1,
        ;
        assert(d <= c) by (nonlinear_arith)
            requires
                d * n <= b,
                b < c * n + n,
                n >= 1,
        ;
    }
}

/// Tiles that divide an axis cover it exactly.
proof fn lemma_grid(axis: int, tile: int)
    requires
        axis > 0,
        tile >= 1,
        axis % tile == 0,
    ensures
        tiles_over(axis, tile) * tile == axis,
{
    lemma_fundamental_div_mod(axis, tile);
    let q = axis / tile;
    assert(tile * q == q * tile) by (nonlinear_arith);
    vstd::arithmetic::div_mod::lemma_fundamental_div_mod_converse(
        axis + tile - 1,
        tile,
        q,
        tile - 1,
    );
    assert(q >= 1) by (nonlinear_arith)
        requires
            axis == q * tile,
            axis > 0,
            tile >= 1,
    ;
}

/// The depth limit is the most steps of both operands that the 32768 bytes of
/// the cache hold beside the output tile.
pub proof fn law_depth_limit(
    problem: &MatmulProblem,
    device: &DeviceSettings,
    plan: LeafPlan,
    lhs: int,
    rhs: int,
    out: int,
)
    requires
        call_ensures(CpuGemmRoutine::leaf_plan, (problem, device), plan),
        out == (if problem.out_bytes == 0 {
            1
        } else {
            problem.out_bytes as int
        }),
        lhs == (if problem.lhs_bytes == 0 {
            1
        } else {
            problem.lhs_bytes as int
        }),
        rhs == (if problem.rhs_bytes == 0 {
            1
        } else {
            problem.rhs_bytes as int
        }),
        plan.tile_m * plan.tile_n * out <= 32768,
        plan.tile_m * lhs + plan.tile_n * rhs <= usize::MAX,
    ensures
        ({
            let tile = plan.tile_m * plan.tile_n * out;
            let step = plan.tile_m * lhs + plan.tile_n * rhs;
            &&& tile + plan.depth_limit * step <= 32768
            &&& tile + (plan.depth_limit + 1) * step > 32768
        }),
{
    let m = plan.tile_m as int;
    let n = plan.tile_n as int;
    assert(m * n <= m * n * out) by (nonlinear_arith)
        requires
            m >= 0,
            n >= 0,
            out >= 1,
    ;
    assert(0 <= m * n && 0 <= m * lhs && 0 <= n * rhs) by (nonlinear_arith)
        requires
            m >= 0,
            n >= 0,
            lhs >= 1,
            rhs >= 1,
    ;
    assert(m * lhs >= 1) by (nonlinear_arith)
        requires
            m >= 1,
            lhs >= 1,
    ;
    let tile = m * n * out;
    let step = m * lhs + n * rhs;
    let room = 32768 - tile;
    assert(saturated(m * n) == m * n);
    assert(saturated(saturated(m * n) * out) == tile);
    assert(saturated(saturated(m * lhs) + saturated(n * rhs)) == step);
    lemma_fundamental_div_mod(room, step);
    let q = room / step;
    assert(q * step == step * q) by (nonlinear_arith);
    assert((q + 1) * step == q * step + step) by (nonlinear_arith);
    assert(plan.depth_limit == q);
}

/// What is selected: the sides of the leaf, the deepest divisor of `k` within
/// the vector width and the depth above it, and planes that divide the grid
/// next to their targets.
pub proof fn law_selection(
    plan: &LeafPlan,
    targets: &FloatTargets,
    problem: &MatmulProblem,
    device: &DeviceSettings,
    b: CpuGemmBlueprint,
    d: int,
)
    requires
        call_ensures(CpuGemmRoutine::select, (plan, targets, problem, device), b),
        problem.k > 0,
        plan.grid_m > 0 && plan.grid_n > 0,
        plan.vector > 0,
        1 <= d <= plan.vector + targets.extra_depth,
        problem.k as int % d == 0,
    ensures
        b.instruction.m == plan.tile_m && b.instruction.n == plan.tile_n,
        1 <= b.instruction.k <= plan.vector + targets.extra_depth,
        problem.k as int % b.instruction.k as int == 0,
        problem.lhs_bytes > 1 || problem.rhs_bytes > 1 ==> d <= b.instruction.k,
        problem.lhs_bytes <= 1 && problem.rhs_bytes <= 1 && d % 4 == 0 ==> b.instruction.k as int % 4
            == 0 && d <= b.instruction.k,
        b.instruction.k as int % 4 != 0 ==> d <= b.instruction.k,
        is_nearest_divisor(b.planes.m as int, plan.grid_m as int, targets.plane_m as int),
        is_nearest_divisor(
            b.planes.n as int,
            plan.grid_n as int,
            if plan.cores < b.planes.m {
                1
            } else {
                plan.cores as int / b.planes.m as int
            },
        ),
{
    let k = problem.k as int;
    lemma_divisor_is_small(k, d);
    let cap = clamped(plan.vector + targets.extra_depth, 1, at_least_one(k));
    if problem.lhs_bytes <= 1 && problem.rhs_bytes <= 1 && d % 4 == 0 {
        assert(has_multiple_divisor(k, cap, 4));
    }
    let c = plan.cores as int;
    let p = b.planes.m as int;
    lemma_fundamental_div_mod(c, p);
    if c < p {
        vstd::arithmetic::div_mod::lemma_small_mod(c as nat, p as nat);
        assert(c / p < 1) by (nonlinear_arith)
            requires
                c == p * (c / p) + c % p,
                0 <= c % p,
                c < p,
                p >= 1,
        ;
    } else {
        assert(c / p >= 1) by (nonlinear_arith)
            requires
                c == p * (c / p) + c % p,
                c % p < p,
                c >= p,
                p >= 1,
        ;
    }
}

/// A plan that is given is taken as it is where no extent of it is zero, and
/// otherwise refused with the extents at fault, the instruction first.
pub proof fn law_forced_plans(
    b: CpuGemmBlueprint,
    problem: &MatmulProblem,
    device: &DeviceSettings,
    r: Result<CpuGemmBlueprint, MatmulSetupError>,
    im: String,
    inn: String,
    ik: String,
    pm: String,
    pn: String,
)
    requires
        call_ensures(
            CpuGemmRoutine::blueprint,
            (&BlueprintStrategy::Forced(b), problem, device),
            r,
        ),
        call_ensures(decimal_text, (b.instruction.m,), im),
        call_ensures(decimal_text, (b.instruction.n,), inn),
        call_ensures(decimal_text, (b.instruction.k,), ik),
        call_ensures(decimal_text, (b.planes.m,), pm),
        call_ensures(decimal_text, (b.planes.n,), pn),
    ensures
        ({
            let flat = b.instruction.m == 0 || b.instruction.n == 0 || b.instruction.k == 0;
            let no_planes = b.planes.m == 0 || b.planes.n == 0;
            &&& !flat && !no_planes ==> r == Ok::<CpuGemmBlueprint, MatmulSetupError>(b)
            &&& flat ==> (r matches Err(MatmulSetupError::InvalidConfig(s)) && s@
                == "CpuGemm instruction must be non-zero, got "@ + im@ + "x"@ + inn@ + "x"@ + ik@)
            &&& !flat && no_planes ==> (r matches Err(MatmulSetupError::InvalidConfig(s)) && s@
                == "CpuGemm plane grid must be non-zero, got "@ + pm@ + "x"@ + pn@)
        }),
{
}

} // verus!
