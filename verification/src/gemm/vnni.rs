//! 8-bit product on groups of four bytes, as a `u8 x i8` dot-product unit
//! computes it.
//!
//! Operands of another sign are moved first: `i8` A is stored as `A + 128`
//! and `u8` B as `B - 128`. The row and column sums that zero-points need take
//! the shift back out:
//! `C = C_dot - (za+da) * sum_b - sum_a * (zb+db) - K*da*db + K*za*zb`.

use vstd::prelude::*;
use crate::arith::{
    lemma_congruent_add, lemma_congruent_mul, lemma_congruent_sub, lemma_in_matrix, lemma_position,
    lemma_row_col, lemma_wrap_congruent, lemma_wrap_is_congruent, lemma_wrapping_add,
    lemma_wrapping_mul, lemma_wrapping_sub, wrap32,
};
use crate::gemm::bytes::{
    byte_as_acc, byte_value, byte_values, shift_a, shift_b, signed_byte, sum_cols_u8, sum_rows_u8,
    unsigned_byte,
};
use crate::gemm::model::{col_sum, dot, law_zero_point_identity, row_sum};
use crate::gemm::zp::{entry, is_product, wrap_len, Zp};
use crate::gemm::tiled::{worth_splitting, MC};

verus! {

/// 32-bit lanes of one vector.
pub const VN: usize = 16;

/// Byte `t` of a dword, lowest first.
pub open spec fn byte_of(d: u32, t: int) -> u8 {
    (if t == 0 {
        d % 256
    } else if t == 1 {
        (d / 256) % 256
    } else if t == 2 {
        (d / 65536) % 256
    } else {
        d / 16777216
    }) as u8
}

/// Four bytes in one dword, lowest first.
pub fn pack4(b0: u8, b1: u8, b2: u8, b3: u8) -> (d: u32)
    ensures
        byte_of(d, 0) == b0,
        byte_of(d, 1) == b1,
        byte_of(d, 2) == b2,
        byte_of(d, 3) == b3,
{
    let d: u32 = (b0 as u32) | ((b1 as u32) << 8) | ((b2 as u32) << 16) | ((b3 as u32) << 24);
    assert(d % 256 == b0 && (d / 256) % 256 == b1 && (d / 65536) % 256 == b2 && d / 16777216 == b3)
        by (bit_vector)
        requires
            d == (b0 as u32) | ((b1 as u32) << 8) | ((b2 as u32) << 16) | ((b3 as u32) << 24),
    ;
    d
}

/// Byte `t` of a dword.
pub fn unpack(d: u32, t: usize) -> (b: u8)
    requires
        t < 4,
    ensures
        b == byte_of(d, t as int),
{
    let s: u32 = if t == 0 {
        d % 256
    } else if t == 1 {
        (d / 256) % 256
    } else if t == 2 {
        (d / 65536) % 256
    } else {
        d / 16777216
    };
    s as u8
}

/// `u8 x i8` dot product of the four bytes of two dwords.
pub open spec fn dot4(a: u32, b: u32) -> int {
    byte_of(a, 0) * byte_value(byte_of(b, 0), true) + byte_of(a, 1) * byte_value(
        byte_of(b, 1),
        true,
    ) + byte_of(a, 2) * byte_value(byte_of(b, 2), true) + byte_of(a, 3) * byte_value(
        byte_of(b, 3),
        true,
    )
}

/// One lane of the dot-product instruction: `acc + dot4(a, b)`, wrapping.
pub fn dpbusd(acc: i32, a: u32, b: u32) -> (r: i32)
    ensures
        r == wrap32(acc + dot4(a, b)),
{
    let x0: i32 = unpack(a, 0) as i32;
    let x1: i32 = unpack(a, 1) as i32;
    let x2: i32 = unpack(a, 2) as i32;
    let x3: i32 = unpack(a, 3) as i32;
    let y0: i32 = byte_as_acc(unpack(b, 0), true);
    let y1: i32 = byte_as_acc(unpack(b, 1), true);
    let y2: i32 = byte_as_acc(unpack(b, 2), true);
    let y3: i32 = byte_as_acc(unpack(b, 3), true);
    proof {
        lemma_byte_product(x0 as int, y0 as int);
        lemma_byte_product(x1 as int, y1 as int);
        lemma_byte_product(x2 as int, y2 as int);
        lemma_byte_product(x3 as int, y3 as int);
    }
    let sum: i32 = x0 * y0 + x1 * y1 + x2 * y2 + x3 * y3;
    proof {
        lemma_wrapping_add(acc, sum);
    }
    acc.wrapping_add(sum)
}

proof fn lemma_byte_product(x: int, y: int)
    requires
        0 <= x <= 255,
        -128 <= y <= 127,
    ensures
        -32640 <= x * y <= 32385,
{
    assert(-32640 <= x * y <= 32385) by (nonlinear_arith)
        requires
            0 <= x <= 255,
            -128 <= y <= 127,
    ;
}

/// Groups of four steps along `K`, the last one padded.
pub open spec fn groups(k: int) -> int {
    (k + 3) / 4
}

/// Tiles of `VN` columns, the last one padded.
pub open spec fn col_tiles(n: int) -> int {
    (n + 15) / 16
}

/// Signed byte of `B` at step `t` and column `col`; zero in the padding.
pub open spec fn b_byte(b: Seq<u8>, n: int, k: int, is_i8: bool, t: int, col: int) -> int {
    if t < k && col < n {
        byte_value(b[t * n + col], is_i8) + shift_b(is_i8)
    } else {
        0
    }
}

/// The dword holds steps `4 * kg .. 4 * kg + 4` of column `col` of `B`.
pub open spec fn holds_group(
    d: u32,
    b: Seq<u8>,
    n: int,
    k: int,
    is_i8: bool,
    kg: int,
    col: int,
) -> bool {
    forall|t: int|
        0 <= t < 4 ==> #[trigger] byte_value(byte_of(d, t), true) == b_byte(
            b,
            n,
            k,
            is_i8,
            4 * kg + t,
            col,
        )
}

/// Where the packed `B` keeps group `kg` of lane `j` of column tile `nt`.
pub open spec fn slot(kgs: int, nt: int, kg: int, j: int) -> int {
    (nt * kgs + kg) * 16 + j
}

/// `packed` holds `B[k, n]` by column tiles, then groups of four steps, then
/// lanes, zero-padded to whole groups and whole tiles.
pub open spec fn is_packed(packed: Seq<u32>, b: Seq<u8>, n: int, k: int, is_i8: bool) -> bool {
    &&& packed.len() == col_tiles(n) * groups(k) * 16
    &&& forall|nt: int, kg: int, j: int|
        0 <= nt < col_tiles(n) && 0 <= kg < groups(k) && 0 <= j < 16 ==> holds_group(
            packed[#[trigger] slot(groups(k), nt, kg, j)],
            b,
            n,
            k,
            is_i8,
            kg,
            nt * 16 + j,
        )
}

proof fn lemma_slot(kgs: int, nt: int, kg: int, j: int)
    requires
        0 <= kg < kgs,
        0 <= j < 16,
    ensures
        slot(kgs, nt, kg, j) % 16 == j,
        (slot(kgs, nt, kg, j) / 16) % kgs == kg,
        (slot(kgs, nt, kg, j) / 16) / kgs == nt,
{
    lemma_row_col(nt * kgs + kg, j, 16);
    lemma_row_col(nt, kg, kgs);
}

proof fn lemma_slot_bound(kgs: int, tiles: int, nt: int, kg: int, j: int)
    requires
        0 <= nt < tiles,
        0 <= kg < kgs,
        0 <= j < 16,
    ensures
        0 <= slot(kgs, nt, kg, j) < tiles * kgs * 16,
{
    lemma_in_matrix(nt, kg, tiles, kgs);
}

/// Four signed bytes of one group of `B`.
fn pack_group(
    b: &[u8],
    n: usize,
    k: usize,
    is_i8: bool,
    kg: usize,
    col: usize,
) -> (d: u32)
    requires
        b.len() == k * n,
        4 * kg < k,
        col < n,
    ensures
        holds_group(d, b@, n as int, k as int, is_i8, kg as int, col as int),
{
    let mut bytes: [u8; 4] = [0, 0, 0, 0];
    let mut t: usize = 0;
    while t < 4
        invariant
            t <= 4,
            b.len() == k * n,
            4 * kg < k,
            col < n,
            forall|u: int|
                0 <= u < t ==> byte_value(#[trigger] bytes@[u], true) == b_byte(
                    b@,
                    n as int,
                    k as int,
                    is_i8,
                    4 * kg + u,
                    col as int,
                ),
            forall|u: int| t <= u < 4 ==> #[trigger] bytes@[u] == 0,
        decreases 4 - t,
    {
        if t < k - 4 * kg {
            let kk: usize = 4 * kg + t;
            proof {
                lemma_in_matrix(kk as int, col as int, k as int, n as int);
            }
            bytes[t] = signed_byte(b[kk * n + col], is_i8);
        }
        t += 1;
    }
    let d: u32 = pack4(bytes[0], bytes[1], bytes[2], bytes[3]);
    assert forall|t: int| 0 <= t < 4 implies #[trigger] byte_value(byte_of(d, t), true) == b_byte(
        b@,
        n as int,
        k as int,
        is_i8,
        4 * kg + t,
        col as int,
    ) by {
        assert(byte_of(d, t) == bytes@[t]);
    }
    d
}

/// `B[k, n]` packed for the dot-product unit.
pub fn pack_b(b: &[u8], n: usize, k: usize, is_i8: bool) -> (packed: Vec<u32>)
    requires
        b.len() == k * n,
        col_tiles(n as int) * groups(k as int) * 16 <= usize::MAX,
    ensures
        is_packed(packed@, b@, n as int, k as int, is_i8),
{
    let n_tiles: usize = if n == 0 {
        0
    } else {
        (n - 1) / 16 + 1
    };
    let k_groups: usize = if k == 0 {
        0
    } else {
        (k - 1) / 4 + 1
    };
    let ghost ni = n as int;
    let ghost ki = k as int;
    let ghost kgs = k_groups as int;
    assert(n_tiles == col_tiles(ni));
    assert(kgs == groups(ki));
    let mut out: Vec<u32> = Vec::new();
    let mut nt: usize = 0;
    while nt < n_tiles
        invariant
            nt <= n_tiles,
            n_tiles == col_tiles(ni),
            kgs == groups(ki),
            kgs == k_groups,
            ni == n,
            ki == k,
            b.len() == k * n,
            out@.len() == nt * kgs * 16,
            forall|q: int|
                0 <= q < out@.len() ==> holds_group(
                    #[trigger] out@[q],
                    b@,
                    ni,
                    ki,
                    is_i8,
                    (q / 16) % kgs,
                    ((q / 16) / kgs) * 16 + q % 16,
                ),
        decreases n_tiles - nt,
    {
        let n0: usize = nt * 16;
        let mut kg: usize = 0;
        while kg < k_groups
            invariant
                kg <= k_groups,
                nt < n_tiles,
                n0 == nt * 16,
                n_tiles == col_tiles(ni),
                kgs == groups(ki),
                kgs == k_groups,
                ni == n,
                ki == k,
                b.len() == k * n,
                out@.len() == (nt * kgs + kg) * 16,
                forall|q: int|
                    0 <= q < out@.len() ==> holds_group(
                        #[trigger] out@[q],
                        b@,
                        ni,
                        ki,
                        is_i8,
                        (q / 16) % kgs,
                        ((q / 16) / kgs) * 16 + q % 16,
                    ),
            decreases k_groups - kg,
        {
            let mut j: usize = 0;
            while j < VN
                invariant
                    j <= 16,
                    kg < k_groups,
                    nt < n_tiles,
                    n0 == nt * 16,
                    n_tiles == col_tiles(ni),
                    kgs == groups(ki),
                    kgs == k_groups,
                    ni == n,
                    ki == k,
                    b.len() == k * n,
                    out@.len() == (nt * kgs + kg) * 16 + j,
                    forall|q: int|
                        0 <= q < out@.len() ==> holds_group(
                            #[trigger] out@[q],
                            b@,
                            ni,
                            ki,
                            is_i8,
                            (q / 16) % kgs,
                            ((q / 16) / kgs) * 16 + q % 16,
                        ),
                decreases 16 - j,
            {
                let d: u32 = if j < n - n0 {
                    pack_group(b, n, k, is_i8, kg, n0 + j)
                } else {
                    0
                };
                let ghost q0 = out@.len() as int;
                proof {
                    lemma_slot(kgs, nt as int, kg as int, j as int);
                    assert(q0 == slot(kgs, nt as int, kg as int, j as int));
                    assert(holds_group(d, b@, ni, ki, is_i8, kg as int, n0 + j));
                }
                out.push(d);
                j += 1;
            }
            proof {
                assert((nt * kgs + (kg + 1)) * 16 == (nt * kgs + kg) * 16 + 16)
                    by (nonlinear_arith);
            }
            kg += 1;
        }
        proof {
            assert((nt + 1) * kgs * 16 == (nt * kgs + kgs) * 16) by (nonlinear_arith);
        }
        nt += 1;
    }
    proof {
        assert forall|nt: int, kg: int, j: int|
            0 <= nt < col_tiles(ni) && 0 <= kg < groups(ki) && 0 <= j < 16 implies holds_group(
            out@[#[trigger] slot(groups(ki), nt, kg, j)],
            b@,
            ni,
            ki,
            is_i8,
            kg,
            nt * 16 + j,
        ) by {
            lemma_slot(kgs, nt, kg, j);
            lemma_slot_bound(kgs, n_tiles as int, nt, kg, j);
        }
    }
    out
}

/// The dword holds steps `4 * kg .. 4 * kg + 4` of row `i` of `A`, moved into
/// the unsigned range and zero-padded.
pub open spec fn holds_steps(d: u32, a: Seq<u8>, k: int, is_u8: bool, i: int, kg: int) -> bool {
    forall|t: int|
        0 <= t < 4 ==> #[trigger] byte_of(d, t) == if 4 * kg + t < k {
            byte_value(a[i * k + 4 * kg + t], !is_u8) + shift_a(is_u8)
        } else {
            0
        }
}

/// Four unsigned bytes of row `i` of `A`.
fn pack_steps(a: &[u8], m: usize, k: usize, is_u8: bool, i: usize, kg: usize) -> (d: u32)
    requires
        a.len() == m * k,
        i < m,
        4 * kg < k,
    ensures
        holds_steps(d, a@, k as int, is_u8, i as int, kg as int),
{
    let mut bytes: [u8; 4] = [0, 0, 0, 0];
    let mut t: usize = 0;
    while t < 4
        invariant
            t <= 4,
            a.len() == m * k,
            i < m,
            4 * kg < k,
            forall|u: int|
                0 <= u < t ==> #[trigger] bytes@[u] == if 4 * kg + u < k {
                    byte_value(a@[i * k + 4 * kg + u], !is_u8) + shift_a(is_u8)
                } else {
                    0
                },
            forall|u: int| t <= u < 4 ==> #[trigger] bytes@[u] == 0,
        decreases 4 - t,
    {
        if t < k - 4 * kg {
            let kk: usize = 4 * kg + t;
            proof {
                lemma_in_matrix(i as int, kk as int, m as int, k as int);
            }
            bytes[t] = unsigned_byte(a[i * k + kk], is_u8);
        }
        t += 1;
    }
    let d: u32 = pack4(bytes[0], bytes[1], bytes[2], bytes[3]);
    assert forall|t: int| 0 <= t < 4 implies #[trigger] byte_of(d, t) == if 4 * kg + t < k {
        byte_value(a@[i * k + 4 * kg + t], !is_u8) + shift_a(is_u8)
    } else {
        0
    } by {
        assert(byte_of(d, t) == bytes@[t]);
    }
    d
}

/// Steps along `K` that the first `kg` groups cover.
pub open spec fn covered(kg: int, k: int) -> nat {
    (if 4 * kg < k {
        4 * kg
    } else {
        k
    }) as nat
}

/// One group adds the next four steps of the shifted product.
proof fn lemma_group(
    a: Seq<u8>,
    b: Seq<u8>,
    n: int,
    k: int,
    is_u8: bool,
    is_i8: bool,
    i: int,
    col: int,
    kg: int,
    ad: u32,
    bd: u32,
)
    requires
        0 <= kg,
        4 * kg < k,
        0 <= i,
        0 <= col < n,
        a.len() >= (i + 1) * k,
        b.len() == k * n,
        holds_steps(ad, a, k, is_u8, i, kg),
        holds_group(bd, b, n, k, is_i8, kg, col),
    ensures
        dot(
            byte_values(a, !is_u8),
            byte_values(b, is_i8),
            n,
            k,
            i,
            col,
            -shift_a(is_u8),
            -shift_b(is_i8),
            covered(kg, k),
        ) + dot4(ad, bd) == dot(
            byte_values(a, !is_u8),
            byte_values(b, is_i8),
            n,
            k,
            i,
            col,
            -shift_a(is_u8),
            -shift_b(is_i8),
            covered(kg + 1, k),
        ),
{
    let av = byte_values(a, !is_u8);
    let bv = byte_values(b, is_i8);
    let da = shift_a(is_u8);
    let db = shift_b(is_i8);
    let s = 4 * kg;
    assert forall|t: int| 0 <= t < 4 implies #[trigger] byte_of(ad, t) * byte_value(
        byte_of(bd, t),
        true,
    ) == if s + t < k {
        (av[i * k + (s + t)] - (-da)) * (bv[(s + t) * n + col] - (-db))
    } else {
        0
    } by {
        if s + t < k {
            lemma_in_matrix(i, s + t, i + 1, k);
            lemma_in_matrix(s + t, col, k, n);
        } else {
            assert(byte_of(ad, t) * 0 == 0);
        }
    }
    reveal_with_fuel(dot, 5);
    assert(byte_of(ad, 0) * byte_value(byte_of(bd, 0), true) == (av[i * k + s] - (-da)) * (bv[s * n
        + col] - (-db)));
    if s + 1 < k {
        assert(byte_of(ad, 1) * byte_value(byte_of(bd, 1), true) == (av[i * k + (s + 1)] - (-da))
            * (bv[(s + 1) * n + col] - (-db)));
    }
    if s + 2 < k {
        assert(byte_of(ad, 2) * byte_value(byte_of(bd, 2), true) == (av[i * k + (s + 2)] - (-da))
            * (bv[(s + 2) * n + col] - (-db)));
    }
    if s + 3 < k {
        assert(byte_of(ad, 3) * byte_value(byte_of(bd, 3), true) == (av[i * k + (s + 3)] - (-da))
            * (bv[(s + 3) * n + col] - (-db)));
    }
}

/// Takes the shifts and the zero-points out of one accumulated lane:
/// `acc - (za+da) * sb - sa * (zb+db) + (K*za*zb - K*da*db)`, wrapping.
fn fixup(acc: i32, za: i32, zb: i32, sa: i32, sb: i32, k_i: i32, da: i32, db: i32) -> (r: i32)
    ensures
        r == wrap32(
            acc - (za + da) * sb - sa * (zb + db) + (k_i * za * zb - k_i * da * db),
        ),
{
    let za_da: i32 = za.wrapping_add(da);
    let zb_db: i32 = zb.wrapping_add(db);
    let t1: i32 = za_da.wrapping_mul(sb);
    let t2: i32 = sa.wrapping_mul(zb_db);
    let u1: i32 = k_i.wrapping_mul(za);
    let u2: i32 = u1.wrapping_mul(zb);
    let v1: i32 = k_i.wrapping_mul(da);
    let v2: i32 = v1.wrapping_mul(db);
    let k_term: i32 = u2.wrapping_sub(v2);
    let w1: i32 = acc.wrapping_sub(t1);
    let w2: i32 = w1.wrapping_sub(t2);
    proof {
        lemma_wrapping_add(za, da);
        lemma_wrapping_add(zb, db);
        lemma_wrapping_mul(za_da, sb);
        lemma_wrapping_mul(sa, zb_db);
        lemma_wrapping_mul(k_i, za);
        lemma_wrapping_mul(u1, zb);
        lemma_wrapping_mul(k_i, da);
        lemma_wrapping_mul(v1, db);
        lemma_wrapping_sub(u2, v2);
        lemma_wrapping_sub(acc, t1);
        lemma_wrapping_sub(w1, t2);
        lemma_wrapping_add(w2, k_term);
        lemma_congruent_mul(za_da as int, za + da, sb as int, sb as int);
        lemma_congruent_mul(sa as int, sa as int, zb_db as int, zb + db);
        lemma_congruent_mul(u1 as int, k_i * za, zb as int, zb as int);
        lemma_congruent_mul(v1 as int, k_i * da, db as int, db as int);
        lemma_congruent_sub(u2 as int, k_i * za * zb, v2 as int, k_i * da * db);
        lemma_congruent_sub(acc as int, acc as int, t1 as int, (za + da) * sb);
        lemma_congruent_sub(w1 as int, acc - (za + da) * sb, t2 as int, sa * (zb + db));
        lemma_congruent_add(
            w2 as int,
            acc - (za + da) * sb - sa * (zb + db),
            k_term as int,
            k_i * za * zb - k_i * da * db,
        );
        lemma_wrap_congruent(
            w2 + k_term,
            acc - (za + da) * sb - sa * (zb + db) + (k_i * za * zb - k_i * da * db),
        );
    }
    w2.wrapping_add(k_term)
}

/// A fixed-up lane is an entry of the centred product.
proof fn lemma_fixup(
    a: Seq<int>,
    b: Seq<int>,
    n: int,
    k: int,
    i: int,
    j: int,
    za: int,
    zb: int,
    da: int,
    db: int,
    acc: i32,
    sa: i32,
    sb: i32,
    k_i: i32,
)
    requires
        0 <= k,
        acc == wrap32(dot(a, b, n, k, i, j, -da, -db, k as nat)),
        sa == wrap32(row_sum(a, k, i, k as nat)),
        sb == wrap32(col_sum(b, n, j, k as nat)),
        k_i == wrap32(k),
    ensures
        wrap32(acc - (za + da) * sb - sa * (zb + db) + (k_i * za * zb - k_i * da * db)) == wrap32(
            dot(a, b, n, k, i, j, za, zb, k as nat),
        ),
{
    let d0 = dot(a, b, n, k, i, j, 0, 0, k as nat);
    let ds = dot(a, b, n, k, i, j, -da, -db, k as nat);
    let ra = row_sum(a, k, i, k as nat);
    let cb = col_sum(b, n, j, k as nat);
    law_zero_point_identity(a, b, n, k, i, j, -da, -db, k as nat);
    law_zero_point_identity(a, b, n, k, i, j, za, zb, k as nat);
    lemma_wrap_is_congruent(ds);
    lemma_wrap_is_congruent(ra);
    lemma_wrap_is_congruent(cb);
    lemma_wrap_is_congruent(k);
    lemma_congruent_mul(za + da, za + da, sb as int, cb);
    lemma_congruent_mul(sa as int, ra, zb + db, zb + db);
    lemma_congruent_mul(k_i as int, k, za, za);
    lemma_congruent_mul(k_i * za, k * za, zb, zb);
    lemma_congruent_mul(k_i as int, k, da, da);
    lemma_congruent_mul(k_i * da, k * da, db, db);
    lemma_congruent_sub(k_i * za * zb, k * za * zb, k_i * da * db, k * da * db);
    lemma_congruent_sub(acc as int, ds, (za + da) * sb, (za + da) * cb);
    lemma_congruent_sub(
        acc - (za + da) * sb,
        ds - (za + da) * cb,
        sa * (zb + db),
        ra * (zb + db),
    );
    lemma_congruent_add(
        acc - (za + da) * sb - sa * (zb + db),
        ds - (za + da) * cb - ra * (zb + db),
        k_i * za * zb - k_i * da * db,
        k * za * zb - k * da * db,
    );
    lemma_wrap_congruent(
        acc - (za + da) * sb - sa * (zb + db) + (k_i * za * zb - k_i * da * db),
        ds - (za + da) * cb - ra * (zb + db) + (k * za * zb - k * da * db),
    );
    assert((za + da) * cb == za * cb + da * cb) by (nonlinear_arith);
    assert(ra * (zb + db) == ra * zb + ra * db) by (nonlinear_arith);
    assert((-da) * cb == -(da * cb)) by (nonlinear_arith);
    assert(ra * (-db) == -(ra * db)) by (nonlinear_arith);
    assert(k * (-da) * (-db) == k * da * db) by (nonlinear_arith);
    assert(ds - (za + da) * cb - ra * (zb + db) + (k * za * zb - k * da * db) == dot(
        a,
        b,
        n,
        k,
        i,
        j,
        za,
        zb,
        k as nat,
    ));
}

/// Accumulated lanes of row `i` and column tile `nt`:
/// lane `j` is the shifted product at column `nt * 16 + j`.
fn accumulate(
    a: &[u8],
    packed: &[u32],
    m: usize,
    n: usize,
    k: usize,
    is_u8: bool,
    is_i8: bool,
    i: usize,
    nt: usize,
    Ghost(b): Ghost<Seq<u8>>,
) -> (acc: [i32; 16])
    requires
        a.len() == m * k,
        b.len() == k * n,
        i < m,
        nt < col_tiles(n as int),
        is_packed(packed@, b, n as int, k as int, is_i8),
        packed.len() <= usize::MAX,
    ensures
        forall|j: int|
            0 <= j < 16 && nt * 16 + j < n ==> #[trigger] acc@[j] == wrap32(
                dot(
                    byte_values(a@, !is_u8),
                    byte_values(b, is_i8),
                    n as int,
                    k as int,
                    i as int,
                    nt * 16 + j,
                    -shift_a(is_u8),
                    -shift_b(is_i8),
                    k as nat,
                ),
            ),
{
    let ghost ni = n as int;
    let ghost ki = k as int;
    let ghost av = byte_values(a@, !is_u8);
    let ghost bv = byte_values(b, is_i8);
    let ghost da = shift_a(is_u8);
    let ghost db = shift_b(is_i8);
    let k_groups: usize = if k == 0 {
        0
    } else {
        (k - 1) / 4 + 1
    };
    assert(k_groups == groups(ki));
    let mut acc: [i32; 16] = [0;16];
    let mut kg: usize = 0;
    while kg < k_groups
        invariant
            kg <= k_groups,
            k_groups == groups(ki),
            ni == n,
            ki == k,
            av == byte_values(a@, !is_u8),
            bv == byte_values(b, is_i8),
            da == shift_a(is_u8),
            db == shift_b(is_i8),
            a.len() == m * k,
            b.len() == k * n,
            i < m,
            nt < col_tiles(ni),
            is_packed(packed@, b, ni, ki, is_i8),
            packed.len() <= usize::MAX,
            forall|j: int|
                0 <= j < 16 && nt * 16 + j < n ==> #[trigger] acc@[j] == wrap32(
                    dot(av, bv, ni, ki, i as int, nt * 16 + j, -da, -db, covered(kg as int, ki)),
                ),
        decreases k_groups - kg,
    {
        let ad: u32 = pack_steps(a, m, k, is_u8, i, kg);
        let mut j: usize = 0;
        while j < 16
            invariant
                j <= 16,
                kg < k_groups,
                k_groups == groups(ki),
                ni == n,
                ki == k,
                av == byte_values(a@, !is_u8),
                bv == byte_values(b, is_i8),
                da == shift_a(is_u8),
                db == shift_b(is_i8),
                a.len() == m * k,
                b.len() == k * n,
                i < m,
                nt < col_tiles(ni),
                is_packed(packed@, b, ni, ki, is_i8),
                packed.len() <= usize::MAX,
                holds_steps(ad, a@, ki, is_u8, i as int, kg as int),
                forall|c: int|
                    0 <= c < 16 && nt * 16 + c < n ==> #[trigger] acc@[c] == wrap32(
                        dot(
                            av,
                            bv,
                            ni,
                            ki,
                            i as int,
                            nt * 16 + c,
                            -da,
                            -db,
                            covered(
                                if c < j {
                                    kg + 1
                                } else {
                                    kg as int
                                },
                                ki,
                            ),
                        ),
                    ),
            decreases 16 - j,
        {
            proof {
                lemma_slot_bound(
                    groups(ki),
                    col_tiles(ni),
                    nt as int,
                    kg as int,
                    j as int,
                );
                lemma_in_matrix(nt as int, kg as int, col_tiles(ni), groups(ki));
                assert((nt * k_groups + kg) * 16 + j == slot(
                    groups(ki),
                    nt as int,
                    kg as int,
                    j as int,
                ));
            }
            let bd: u32 = packed[(nt * k_groups + kg) * 16 + j];
            let ghost before = acc@;
            acc[j] = dpbusd(acc[j], ad, bd);
            proof {
                if nt * 16 + j < n {
                    let s = dot(
                        av,
                        bv,
                        ni,
                        ki,
                        i as int,
                        nt * 16 + j,
                        -da,
                        -db,
                        covered(kg as int, ki),
                    );
                    assert((i + 1) * k <= m * k) by (nonlinear_arith)
                        requires
                            i < m,
                    ;
                    lemma_group(
                        a@,
                        b,
                        ni,
                        ki,
                        is_u8,
                        is_i8,
                        i as int,
                        nt * 16 + j,
                        kg as int,
                        ad,
                        bd,
                    );
                    lemma_wrap_is_congruent(s);
                    lemma_congruent_add(before[j as int] as int, s, dot4(ad, bd), dot4(ad, bd));
                    lemma_wrap_congruent(before[j as int] + dot4(ad, bd), s + dot4(ad, bd));
                }
            }
            j += 1;
        }
        kg += 1;
    }
    assert(covered(groups(ki), ki) == k as nat);
    acc
}

/// Rows `i0 .. i0 + mb` of the centred product, into `c[mb, n]`.
fn gemm_rows(
    a: &[u8],
    packed: &[u32],
    c: &mut [i32],
    m: usize,
    n: usize,
    k: usize,
    i0: usize,
    mb: usize,
    is_u8: bool,
    is_i8: bool,
    zp: &Zp,
    sum_a: &[i32],
    sum_b: &[i32],
    Ghost(b): Ghost<Seq<u8>>,
)
    requires
        a.len() == m * k,
        b.len() == k * n,
        i0 + mb <= m,
        old(c).len() == mb * n,
        zp.covers(m as int, n as int),
        is_packed(packed@, b, n as int, k as int, is_i8),
        packed.len() <= usize::MAX,
        needs_fixup(*zp, is_u8, is_i8) ==> {
            &&& sum_a@.len() == m
            &&& sum_b@.len() == n
            &&& forall|i: int|
                0 <= i < m ==> #[trigger] sum_a@[i] == wrap32(
                    row_sum(byte_values(a@, !is_u8), k as int, i, k as nat),
                )
            &&& forall|j: int|
                0 <= j < n ==> #[trigger] sum_b@[j] == wrap32(
                    col_sum(byte_values(b, is_i8), n as int, j, k as nat),
                )
        },
    ensures
        final(c)@.len() == mb * n,
        forall|p: int|
            0 <= p < final(c)@.len() ==> #[trigger] final(c)@[p] == entry(
                byte_values(a@, !is_u8),
                byte_values(b, is_i8),
                n as int,
                k as int,
                *zp,
                i0 + p / (n as int),
                p % (n as int),
            ),
{
    let ghost ni = n as int;
    let ghost ki = k as int;
    let ghost av = byte_values(a@, !is_u8);
    let ghost bv = byte_values(b, is_i8);
    let da: i32 = if is_u8 {
        0
    } else {
        128
    };
    let db: i32 = if is_i8 {
        0
    } else {
        -128
    };
    let k_i: i32 = wrap_len(k);
    let fix: bool = da != 0 || db != 0 || !zp.is_none();
    let n_tiles: usize = if n == 0 {
        0
    } else {
        (n - 1) / 16 + 1
    };
    let mut nt: usize = 0;
    while nt < n_tiles
        invariant
            nt <= n_tiles,
            n_tiles == col_tiles(ni),
            ni == n,
            ki == k,
            av == byte_values(a@, !is_u8),
            bv == byte_values(b, is_i8),
            da == shift_a(is_u8),
            db == shift_b(is_i8),
            k_i == wrap32(ki),
            fix == needs_fixup(*zp, is_u8, is_i8),
            a.len() == m * k,
            b.len() == k * n,
            i0 + mb <= m,
            c.len() == mb * n,
            zp.covers(m as int, ni),
            is_packed(packed@, b, ni, ki, is_i8),
            packed.len() <= usize::MAX,
            fix ==> sum_a@.len() == m && sum_b@.len() == n,
            fix ==> forall|i: int|
                0 <= i < m ==> #[trigger] sum_a@[i] == wrap32(row_sum(av, ki, i, k as nat)),
            fix ==> forall|j: int|
                0 <= j < n ==> #[trigger] sum_b@[j] == wrap32(col_sum(bv, ni, j, k as nat)),
            forall|p: int|
                0 <= p < c@.len() && p % ni < nt * 16 ==> #[trigger] c@[p] == entry(
                    av,
                    bv,
                    ni,
                    ki,
                    *zp,
                    i0 + p / ni,
                    p % ni,
                ),
        decreases n_tiles - nt,
    {
        let n0: usize = nt * 16;
        let mut r: usize = 0;
        while r < mb
            invariant
                r <= mb,
                nt < n_tiles,
                n0 == nt * 16,
                n_tiles == col_tiles(ni),
                ni == n,
                ki == k,
                av == byte_values(a@, !is_u8),
                bv == byte_values(b, is_i8),
                da == shift_a(is_u8),
                db == shift_b(is_i8),
                k_i == wrap32(ki),
                fix == needs_fixup(*zp, is_u8, is_i8),
                a.len() == m * k,
                b.len() == k * n,
                i0 + mb <= m,
                c.len() == mb * n,
                zp.covers(m as int, ni),
                is_packed(packed@, b, ni, ki, is_i8),
                packed.len() <= usize::MAX,
                fix ==> sum_a@.len() == m && sum_b@.len() == n,
                fix ==> forall|i: int|
                    0 <= i < m ==> #[trigger] sum_a@[i] == wrap32(row_sum(av, ki, i, k as nat)),
                fix ==> forall|j: int|
                    0 <= j < n ==> #[trigger] sum_b@[j] == wrap32(col_sum(bv, ni, j, k as nat)),
                forall|p: int|
                    0 <= p < c@.len() && (p % ni < n0 || (p / ni < r && p % ni < n0 + 16))
                        ==> #[trigger] c@[p] == entry(av, bv, ni, ki, *zp, i0 + p / ni, p % ni),
            decreases mb - r,
        {
            let i: usize = i0 + r;
            let acc: [i32; 16] = accumulate(a, packed, m, n, k, is_u8, is_i8, i, nt, Ghost(b));
            let za: i32 = zp.za.at(i);
            let mut j: usize = 0;
            while j < 16 && j < n - n0
                invariant
                    j <= 16,
                    n0 + j <= n,
                    r < mb,
                    i == i0 + r,
                    nt < n_tiles,
                    n0 == nt * 16,
                    n_tiles == col_tiles(ni),
                    ni == n,
                    ki == k,
                    av == byte_values(a@, !is_u8),
                    bv == byte_values(b, is_i8),
                    da == shift_a(is_u8),
                    db == shift_b(is_i8),
                    k_i == wrap32(ki),
                    fix == needs_fixup(*zp, is_u8, is_i8),
                    a.len() == m * k,
                    b.len() == k * n,
                    i0 + mb <= m,
                    c.len() == mb * n,
                    zp.covers(m as int, ni),
                    za == zp.za.value(i as int),
                    fix ==> sum_a@.len() == m && sum_b@.len() == n,
                    fix ==> forall|i: int|
                        0 <= i < m ==> #[trigger] sum_a@[i] == wrap32(row_sum(av, ki, i, k as nat)),
                    fix ==> forall|j: int|
                        0 <= j < n ==> #[trigger] sum_b@[j] == wrap32(col_sum(bv, ni, j, k as nat)),
                    forall|l: int|
                        0 <= l < 16 && nt * 16 + l < n ==> #[trigger] acc@[l] == wrap32(
                            dot(av, bv, ni, ki, i as int, nt * 16 + l, -da, -db, k as nat),
                        ),
                    forall|p: int|
                        0 <= p < c@.len() && (p % ni < n0 || (p / ni < r && p % ni < n0 + 16) || (p
                            / ni == r && p % ni < n0 + j)) ==> #[trigger] c@[p] == entry(
                            av,
                            bv,
                            ni,
                            ki,
                            *zp,
                            i0 + p / ni,
                            p % ni,
                        ),
                decreases 16 - j,
            {
                let col: usize = n0 + j;
                let zb: i32 = zp.zb.at(col);
                let v: i32 = if fix {
                    proof {
                        lemma_fixup(
                            av,
                            bv,
                            ni,
                            ki,
                            i as int,
                            col as int,
                            za as int,
                            zb as int,
                            da as int,
                            db as int,
                            acc@[j as int],
                            sum_a@[i as int],
                            sum_b@[col as int],
                            k_i,
                        );
                    }
                    fixup(acc[j], za, zb, sum_a[i], sum_b[col], k_i, da, db)
                } else {
                    acc[j]
                };
                assert(v == entry(av, bv, ni, ki, *zp, i as int, col as int));
                proof {
                    lemma_in_matrix(r as int, col as int, mb as int, ni);
                    lemma_row_col(r as int, col as int, ni);
                }
                let ghost before = c@;
                let at: usize = r * n + col;
                c[at] = v;
                proof {
                    assert forall|p: int|
                        0 <= p < c@.len() && (p % ni < n0 || (p / ni < r && p % ni < n0 + 16) || (p
                            / ni == r && p % ni < n0 + j + 1)) implies #[trigger] c@[p] == entry(
                        av,
                        bv,
                        ni,
                        ki,
                        *zp,
                        i0 + p / ni,
                        p % ni,
                    ) by {
                        lemma_position(p, mb as int, ni);
                        if p != at {
                            assert(c@[p] == before[p]);
                        }
                    }
                }
                j += 1;
            }
            proof {
                assert forall|p: int|
                    0 <= p < c@.len() && (p % ni < n0 || (p / ni < r + 1 && p % ni < n0 + 16))
                        implies #[trigger] c@[p] == entry(
                    av,
                    bv,
                    ni,
                    ki,
                    *zp,
                    i0 + p / ni,
                    p % ni,
                ) by {
                    lemma_position(p, mb as int, ni);
                }
            }
            r += 1;
        }
        proof {
            assert forall|p: int|
                0 <= p < c@.len() && p % ni < (nt + 1) * 16 implies #[trigger] c@[p] == entry(
                av,
                bv,
                ni,
                ki,
                *zp,
                i0 + p / ni,
                p % ni,
            ) by {
                lemma_position(p, mb as int, ni);
            }
        }
        nt += 1;
    }
    proof {
        assert forall|p: int| 0 <= p < c@.len() implies #[trigger] c@[p] == entry(
            av,
            bv,
            ni,
            ki,
            *zp,
            i0 + p / ni,
            p % ni,
        ) by {
            lemma_position(p, mb as int, ni);
        }
    }
}

/// The lanes need a correction: an operand was moved, or there are zero-points.
pub open spec fn needs_fixup(zp: Zp, is_u8: bool, is_i8: bool) -> bool {
    !is_u8 || !is_i8 || !zp.all_zero()
}

/// `(A - za) @ (B - zb)` of 8-bit operands into `c[m, n]`.
/// `is_u8`: the bytes of A are unsigned. `is_i8`: the bytes of B are signed.
pub fn gemm_into(
    a: &[u8],
    b: &[u8],
    m: usize,
    n: usize,
    k: usize,
    is_u8: bool,
    is_i8: bool,
    zp: &Zp,
    c: &mut [i32],
)
    requires
        a.len() == m * k,
        b.len() == k * n,
        old(c).len() == m * n,
        col_tiles(n as int) * groups(k as int) * 16 <= usize::MAX,
        zp.covers(m as int, n as int),
    ensures
        is_product(
            final(c)@,
            byte_values(a@, !is_u8),
            byte_values(b@, is_i8),
            m as int,
            n as int,
            k as int,
            *zp,
        ),
{
    let need_sums: bool = !is_u8 || !is_i8 || !zp.is_none();
    let sum_a: Vec<i32> = if need_sums {
        sum_rows_u8(a, m, k, !is_u8)
    } else {
        Vec::new()
    };
    let sum_b: Vec<i32> = if need_sums {
        sum_cols_u8(b, k, n, is_i8)
    } else {
        Vec::new()
    };
    let packed: Vec<u32> = pack_b(b, n, k, is_i8);
    gemm_rows(a, &packed, c, m, n, k, 0, m, is_u8, is_i8, zp, &sum_a, &sum_b, Ghost(b@));
}

/// `(A - za) @ (B - zb)` of 8-bit operands: in one piece, or row tile by row
/// tile where there is enough work to split.
pub fn gemm(
    a: &[u8],
    b: &[u8],
    m: usize,
    n: usize,
    k: usize,
    is_u8: bool,
    is_i8: bool,
    zp: &Zp,
) -> (c: Vec<i32>)
    requires
        a.len() == m * k,
        b.len() == k * n,
        m * n <= usize::MAX,
        col_tiles(n as int) * groups(k as int) * 16 <= usize::MAX,
        zp.covers(m as int, n as int),
    ensures
        is_product(
            c@,
            byte_values(a@, !is_u8),
            byte_values(b@, is_i8),
            m as int,
            n as int,
            k as int,
            *zp,
        ),
{
    if !worth_splitting(m, n, k) {
        let mut c: Vec<i32> = vec![0i32; m * n];
        gemm_into(a, b, m, n, k, is_u8, is_i8, zp, &mut c);
        return c;
    }
    let need_sums: bool = !is_u8 || !is_i8 || !zp.is_none();
    let sum_a: Vec<i32> = if need_sums {
        sum_rows_u8(a, m, k, !is_u8)
    } else {
        Vec::new()
    };
    let sum_b: Vec<i32> = if need_sums {
        sum_cols_u8(b, k, n, is_i8)
    } else {
        Vec::new()
    };
    let packed: Vec<u32> = pack_b(b, n, k, is_i8);
    let ghost ni = n as int;
    let ghost ki = k as int;
    let ghost av = byte_values(a@, !is_u8);
    let ghost bv = byte_values(b@, is_i8);
    let mut c: Vec<i32> = Vec::new();
    let mut i0: usize = 0;
    while i0 < m
        invariant
            i0 <= m,
            ni == n,
            ki == k,
            av == byte_values(a@, !is_u8),
            bv == byte_values(b@, is_i8),
            need_sums == needs_fixup(*zp, is_u8, is_i8),
            a.len() == m * k,
            b.len() == k * n,
            m * n <= usize::MAX,
            zp.covers(m as int, ni),
            is_packed(packed@, b@, ni, ki, is_i8),
            packed.len() <= usize::MAX,
            need_sums ==> sum_a@.len() == m && sum_b@.len() == n,
            need_sums ==> forall|i: int|
                0 <= i < m ==> #[trigger] sum_a@[i] == wrap32(row_sum(av, ki, i, k as nat)),
            need_sums ==> forall|j: int|
                0 <= j < n ==> #[trigger] sum_b@[j] == wrap32(col_sum(bv, ni, j, k as nat)),
            c@.len() == i0 * n,
            forall|p: int|
                0 <= p < c@.len() ==> #[trigger] c@[p] == entry(
                    av,
                    bv,
                    ni,
                    ki,
                    *zp,
                    p / ni,
                    p % ni,
                ),
        decreases m - i0,
    {
        let mb: usize = if m - i0 < MC {
            m - i0
        } else {
            MC
        };
        proof {
            assert(mb * n <= m * n) by (nonlinear_arith)
                requires
                    mb <= m,
            ;
        }
        let mut tile: Vec<i32> = vec![0i32; mb * n];
        gemm_rows(
            a,
            &packed,
            &mut tile,
            m,
            n,
            k,
            i0,
            mb,
            is_u8,
            is_i8,
            zp,
            &sum_a,
            &sum_b,
            Ghost(b@),
        );
        let ghost done = c@;
        let ghost part = tile@;
        c.append(&mut tile);
        proof {
            assert((i0 + mb) * n == i0 * n + mb * n) by (nonlinear_arith);
            assert forall|p: int| 0 <= p < c@.len() implies #[trigger] c@[p] == entry(
                av,
                bv,
                ni,
                ki,
                *zp,
                p / ni,
                p % ni,
            ) by {
                if p >= done.len() {
                    let q = p - done.len();
                    assert(c@[p] == part[q]);
                    lemma_position(q, mb as int, ni);
                    let r = q / ni;
                    assert((i0 + r) * ni == i0 * ni + r * ni) by (nonlinear_arith);
                    lemma_row_col(i0 + r, q % ni, ni);
                } else {
                    assert(c@[p] == done[p]);
                }
            }
        }
        i0 += mb;
    }
    c
}

/// The packed form holds every byte of B: digit `t` to base 256 of the dword of
/// group `kg` and column `16 * nt + j` is the byte at step `4 * kg + t`, moved
/// by 128 where B is unsigned, and zero beyond the last step and column.
pub proof fn law_groups_hold_every_byte(
    b: &[u8],
    n: usize,
    k: usize,
    is_i8: bool,
    packed: Vec<u32>,
    nt: int,
    kg: int,
    j: int,
    t: int,
)
    requires
        call_ensures(pack_b, (b, n, k, is_i8), packed),
        0 <= nt < (n + 15) / 16,
        0 <= kg < (k + 3) / 4,
        0 <= j < 16,
        0 <= t < 4,
    ensures
        packed@.len() == (n + 15) / 16 * ((k + 3) / 4) * 16,
        ({
            let d = packed@[(nt * ((k + 3) / 4) + kg) * 16 + j] as int;
            let x = if t == 0 {
                d % 256
            } else if t == 1 {
                d / 256 % 256
            } else if t == 2 {
                d / 65536 % 256
            } else {
                d / 16777216
            };
            if 4 * kg + t < k && nt * 16 + j < n {
                (x - b@[(4 * kg + t) * n + (nt * 16 + j)]) % 256 == if is_i8 {
                    0int
                } else {
                    128
                }
            } else {
                x == 0
            }
        }),
{
    let kgs = groups(k as int);
    let d = packed@[slot(kgs, nt, kg, j)];
    assert(holds_group(d, b@, n as int, k as int, is_i8, kg, nt * 16 + j));
    assert(byte_value(byte_of(d, t), true) == b_byte(
        b@,
        n as int,
        k as int,
        is_i8,
        4 * kg + t,
        nt * 16 + j,
    ));
}

} // verus!
