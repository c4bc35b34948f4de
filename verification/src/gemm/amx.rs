//! 8-bit product on 16 x 64 by 64 x 16 tiles, as a tile matrix unit computes
//! it, with the packed operand kept between calls.
//!
//! Shapes that are not whole tiles are left to the other paths.

use std::sync::Arc;

use vstd::prelude::*;
use crate::arith::{
    lemma_congruent_mul, lemma_congruent_sub, lemma_in_matrix, lemma_position, lemma_row_col,
    lemma_wrap_congruent, lemma_wrap_is_congruent, lemma_wrap_mac, lemma_wrapping_mul,
    lemma_wrapping_sub, wrap32,
};
use crate::gemm::cache::PackCache;
use crate::gemm::bytes::{
    byte_as_acc, byte_value, byte_values, shift_a, shift_b, signed_byte, sum_cols_u8, sum_rows_u8,
    unsigned_byte,
};
use crate::gemm::model::{col_sum, dot, law_zero_point_identity, row_sum};
use crate::gemm::tiled::lemma_corrected_is_dot;
use crate::gemm::zp::{apply_zp, entry, is_product, wrap_len, Zp};

verus! {

/// Rows of a tile.
pub const TM: usize = 16;

/// Bytes of a tile row: steps along `K`.
pub const TK: usize = 64;

/// Columns of a result tile.
pub const TN: usize = 16;

/// Entries at which a cache is emptied before the next one goes in.
pub const CACHE_LIMIT: usize = 96;

/// Whether the feature word of leaf 7 reports both tile support (bit 24) and
/// 8-bit tile products (bit 25).
pub fn cpu_has_amx_int8(edx: u32) -> (r: bool)
    ensures
        r == ((edx / 0x100_0000) % 2 == 1 && (edx / 0x200_0000) % 2 == 1),
{
    assert((edx & (1u32 << 24) != 0) == ((edx / 0x100_0000) % 2 == 1)) by (bit_vector);
    assert((edx & (1u32 << 25) != 0) == ((edx / 0x200_0000) % 2 == 1)) by (bit_vector);
    (edx & (1u32 << 24)) != 0 && (edx & (1u32 << 25)) != 0
}

/// Byte `i` of the configuration of three 16-row, 64-byte tiles: palette 1 at
/// byte 0, row lengths from byte 16 in steps of two, row counts from byte 48.
pub open spec fn tile_config_byte(i: int) -> u8 {
    if i == 0 {
        1
    } else if i == 16 || i == 18 || i == 20 {
        64
    } else if 48 <= i < 51 {
        16
    } else {
        0
    }
}

/// The tile configuration that the tile loads and the product expect.
pub fn tile_config() -> (cfg: [u8; 64])
    ensures
        forall|i: int| 0 <= i < 64 ==> #[trigger] cfg@[i] == tile_config_byte(i),
{
    let mut cfg: [u8; 64] = [0;64];
    cfg[0] = 1;
    let mut t: usize = 0;
    while t < 3
        invariant
            t <= 3,
            forall|i: int|
                0 <= i < 64 ==> #[trigger] cfg@[i] == if (16 <= i < 22 && i >= 16 + 2 * t) || (48
                    <= i < 51 && i >= 48 + t) {
                    0
                } else {
                    tile_config_byte(i)
                },
        decreases 3 - t,
    {
        cfg[16 + t * 2] = 64;
        cfg[48 + t] = 16;
        t += 1;
    }
    cfg
}

/// The shape is made of whole tiles.
pub open spec fn tile_aligned(m: int, n: int, k: int) -> bool {
    m % 16 == 0 && n % 16 == 0 && k % 64 == 0
}

/// The byte of `B[_, n]` that position `q` of the packed form holds: column
/// tile, then step tile, then group of four steps, column and step in it.
pub open spec fn packed_byte(b: Seq<u8>, n: int, k: int, q: int) -> u8 {
    let tile = q / 1024;
    let r = q % 1024;
    let nt = tile / (k / 64);
    let kt = tile % (k / 64);
    b[(kt * 64 + (r / 64) * 4 + r % 4) * n + nt * 16 + (r % 64) / 4]
}

/// `packed` is the tile form of `B[k, n]`.
pub open spec fn is_tile_packed(packed: Seq<u8>, b: Seq<u8>, n: int, k: int) -> bool {
    &&& packed.len() == (n / 16) * (k / 64) * 1024
    &&& forall|q: int| 0 <= q < packed.len() ==> #[trigger] packed[q] == packed_byte(b, n, k, q)
}

/// Where the tile form keeps step `s` of step tile `kt` for column `nj` of
/// column tile `nt`.
pub open spec fn tile_slot(k_tiles: int, nt: int, kt: int, s: int, nj: int) -> int {
    (nt * k_tiles + kt) * 1024 + (s / 4) * 64 + nj * 4 + s % 4
}

proof fn lemma_tile_slot(n: int, k: int, nt: int, kt: int, s: int, nj: int)
    requires
        n % 16 == 0,
        k % 64 == 0,
        0 <= nt < n / 16,
        0 <= kt < k / 64,
        0 <= s < 64,
        0 <= nj < 16,
    ensures
        0 <= nt * (k / 64) + kt < (n / 16) * (k / 64),
        0 <= tile_slot(k / 64, nt, kt, s, nj) < (n / 16) * (k / 64) * 1024,
        forall|b: Seq<u8>|
            #![trigger packed_byte(b, n, k, tile_slot(k / 64, nt, kt, s, nj))]
            packed_byte(b, n, k, tile_slot(k / 64, nt, kt, s, nj)) == b[(kt * 64 + s) * n + nt * 16
                + nj],
{
    let k_tiles = k / 64;
    let q = tile_slot(k_tiles, nt, kt, s, nj);
    let r = (s / 4) * 64 + nj * 4 + s % 4;
    lemma_in_matrix(nt, kt, n / 16, k_tiles);
    lemma_row_col(nt * k_tiles + kt, r, 1024);
    lemma_row_col(nt, kt, k_tiles);
    assert(q == (nt * k_tiles + kt) * 1024 + r);
    assert(r / 64 == s / 4 && r % 4 == s % 4 && (r % 64) / 4 == nj);
    assert((s / 4) * 4 + s % 4 == s);
}

/// The packed form holds every byte of B: step `s` of step tile `kt` for column
/// `nj` of column tile `nt` lies in its tile's row `s / 4`, at `4 * nj + s % 4`.
pub proof fn law_tiles_hold_every_byte(
    b: &[u8],
    n: usize,
    k: usize,
    packed: Vec<u8>,
    nt: int,
    kt: int,
    s: int,
    nj: int,
)
    requires
        call_ensures(pack_b_amx, (b, n, k), packed),
        n % 16 == 0,
        k % 64 == 0,
        0 <= nt < n as int / 16,
        0 <= kt < k as int / 64,
        0 <= s < 64,
        0 <= nj < 16,
    ensures
        packed@.len() == (n as int / 16) * (k as int / 64) * 1024,
        packed@[(nt * (k as int / 64) + kt) * 1024 + (s / 4) * 64 + (4 * nj + s % 4)] == b@[(kt * 64
            + s) * n + (nt * 16 + nj)],
{
    lemma_tile_slot(n as int, k as int, nt, kt, s, nj);
    let q = tile_slot(k as int / 64, nt, kt, s, nj);
    assert(packed@[q] == packed_byte(b@, n as int, k as int, q));
}

/// The tile unit counts as present where bits 24 and 25 are both set.
pub proof fn law_tile_unit_bits(edx: u32, r: bool)
    requires
        call_ensures(cpu_has_amx_int8, (edx,), r),
    ensures
        r == (edx & 0x0300_0000 == 0x0300_0000),
{
    assert((edx & 0x0300_0000 == 0x0300_0000) == ((edx / 0x100_0000) % 2 == 1 && (edx / 0x200_0000)
        % 2 == 1)) by (bit_vector);
}

/// The configuration names palette 1 and, for each of the three tiles, rows
/// of 64 bytes and 16 of them; every other byte is zero.
pub proof fn law_tile_config(cfg: [u8; 64], t: int, i: int)
    requires
        call_ensures(tile_config, (), cfg),
        0 <= t < 3,
        0 < i < 64,
    ensures
        cfg@[0] == 1,
        cfg@[16 + 2 * t] == 64 && cfg@[17 + 2 * t] == 0,
        cfg@[48 + t] == 16,
        cfg@[i] != 0 ==> (16 <= i < 22 && i % 2 == 0) || 48 <= i < 51,
{
}

/// Reorders `B[k, n]` into tiles for the tile product.
pub fn pack_b_amx(b: &[u8], n: usize, k: usize) -> (packed: Vec<u8>)
    requires
        b.len() == k * n,
        n % 16 == 0,
        k % 64 == 0,
    ensures
        is_tile_packed(packed@, b@, n as int, k as int),
{
    let n_tiles: usize = n / TN;
    let k_tiles: usize = k / TK;
    let ghost ni = n as int;
    let ghost ki = k as int;
    let mut out: Vec<u8> = Vec::new();
    let mut nt: usize = 0;
    while nt < n_tiles
        invariant
            nt <= n_tiles,
            n_tiles == n / 16,
            k_tiles == k / 64,
            n % 16 == 0,
            k % 64 == 0,
            ni == n,
            ki == k,
            b.len() == k * n,
            out@.len() == nt * k_tiles * 1024,
            forall|q: int|
                0 <= q < out@.len() ==> #[trigger] out@[q] == packed_byte(b@, ni, ki, q),
        decreases n_tiles - nt,
    {
        let mut kt: usize = 0;
        while kt < k_tiles
            invariant
                kt <= k_tiles,
                nt < n_tiles,
                n_tiles == n / 16,
                k_tiles == k / 64,
                n % 16 == 0,
                k % 64 == 0,
                ni == n,
                ki == k,
                b.len() == k * n,
                out@.len() == (nt * k_tiles + kt) * 1024,
                forall|q: int|
                    0 <= q < out@.len() ==> #[trigger] out@[q] == packed_byte(b@, ni, ki, q),
            decreases k_tiles - kt,
        {
            let mut r: usize = 0;
            while r < TM * TK
                invariant
                    r <= 1024,
                    kt < k_tiles,
                    nt < n_tiles,
                    n_tiles == n / 16,
                    k_tiles == k / 64,
                    n % 16 == 0,
                    k % 64 == 0,
                    ni == n,
                    ki == k,
                    b.len() == k * n,
                    out@.len() == (nt * k_tiles + kt) * 1024 + r,
                    forall|q: int|
                        0 <= q < out@.len() ==> #[trigger] out@[q] == packed_byte(b@, ni, ki, q),
                decreases 1024 - r,
            {
                let s: usize = (r / 64) * 4 + r % 4;
                let nj: usize = (r % 64) / 4;
                let kk: usize = kt * 64 + s;
                let col: usize = nt * 16 + nj;
                proof {
                    lemma_in_matrix(kk as int, col as int, ki, ni);
                    lemma_row_col(nt * k_tiles + kt, r as int, 1024);
                    lemma_row_col(nt as int, kt as int, k_tiles as int);
                }
                out.push(b[kk * n + col]);
                r += 1;
            }
            proof {
                assert((nt * k_tiles + (kt + 1)) * 1024 == (nt * k_tiles + kt) * 1024 + 1024)
                    by (nonlinear_arith);
            }
            kt += 1;
        }
        proof {
            assert((nt + 1) * k_tiles * 1024 == (nt * k_tiles + k_tiles) * 1024)
                by (nonlinear_arith);
        }
        nt += 1;
    }
    out
}

/// Adds step tile `kt` to the 16 x 16 accumulators of rows `row .. row + 16`
/// and column tile `nt`: unsigned bytes of A times signed bytes of B.
fn tile_product(
    a: &[u8],
    packed: &[u8],
    acc: &mut [i32; 256],
    m: usize,
    n: usize,
    k: usize,
    row: usize,
    nt: usize,
    kt: usize,
    Ghost(b): Ghost<Seq<u8>>,
)
    requires
        a.len() == m * k,
        b.len() == k * n,
        tile_aligned(m as int, n as int, k as int),
        row + 16 <= m,
        nt < n / 16,
        kt < k / 64,
        is_tile_packed(packed@, b, n as int, k as int),
        packed.len() <= usize::MAX,
        forall|x: int|
            0 <= x < 256 ==> #[trigger] old(acc)@[x] == wrap32(
                dot(
                    byte_values(a@, false),
                    byte_values(b, true),
                    n as int,
                    k as int,
                    row + x / 16,
                    nt * 16 + x % 16,
                    0,
                    0,
                    (kt * 64) as nat,
                ),
            ),
    ensures
        forall|x: int|
            0 <= x < 256 ==> #[trigger] final(acc)@[x] == wrap32(
                dot(
                    byte_values(a@, false),
                    byte_values(b, true),
                    n as int,
                    k as int,
                    row + x / 16,
                    nt * 16 + x % 16,
                    0,
                    0,
                    (kt * 64 + 64) as nat,
                ),
            ),
{
    let ghost ni = n as int;
    let ghost ki = k as int;
    let ghost av = byte_values(a@, false);
    let ghost bv = byte_values(b, true);
    let k_tiles: usize = k / 64;
    proof {
        lemma_tile_slot(ni, ki, nt as int, kt as int, 0, 0);
    }
    let base: usize = (nt * k_tiles + kt) * 1024;
    let mut x: usize = 0;
    while x < 256
        invariant
            x <= 256,
            k_tiles == k / 64,
            base == (nt * k_tiles + kt) * 1024,
            ni == n,
            ki == k,
            av == byte_values(a@, false),
            bv == byte_values(b, true),
            a.len() == m * k,
            b.len() == k * n,
            tile_aligned(m as int, ni, ki),
            row + 16 <= m,
            nt < n / 16,
            kt < k / 64,
            is_tile_packed(packed@, b, ni, ki),
            packed.len() <= usize::MAX,
            forall|y: int|
                0 <= y < 256 ==> #[trigger] acc@[y] == wrap32(
                    dot(
                        av,
                        bv,
                        ni,
                        ki,
                        row + y / 16,
                        nt * 16 + y % 16,
                        0,
                        0,
                        if y < x {
                            (kt * 64 + 64) as nat
                        } else {
                            (kt * 64) as nat
                        },
                    ),
                ),
        decreases 256 - x,
    {
        let i: usize = row + x / 16;
        let nj: usize = x % 16;
        let mut sum: i32 = acc[x];
        let mut s: usize = 0;
        while s < 64
            invariant
                s <= 64,
                x < 256,
                i == row + x / 16,
                nj == x % 16,
                k_tiles == k / 64,
                base == (nt * k_tiles + kt) * 1024,
                ni == n,
                ki == k,
                av == byte_values(a@, false),
                bv == byte_values(b, true),
                a.len() == m * k,
                b.len() == k * n,
                tile_aligned(m as int, ni, ki),
                row + 16 <= m,
                nt < n / 16,
                kt < k / 64,
                is_tile_packed(packed@, b, ni, ki),
                packed.len() <= usize::MAX,
                sum == wrap32(
                    dot(av, bv, ni, ki, i as int, nt * 16 + nj, 0, 0, (kt * 64 + s) as nat),
                ),
            decreases 64 - s,
        {
            let kk: usize = kt * 64 + s;
            let ghost col = nt * 16 + nj;
            proof {
                lemma_in_matrix(i as int, kk as int, m as int, ki);
                lemma_tile_slot(ni, ki, nt as int, kt as int, s as int, nj as int);
                lemma_in_matrix(kk as int, col, ki, ni);
            }
            let u: i32 = a[i * k + kk] as i32;
            let at: usize = base + (s / 4) * 64 + nj * 4 + s % 4;
            assert(packed@[at as int] == packed_byte(
                b,
                ni,
                ki,
                tile_slot(k_tiles as int, nt as int, kt as int, s as int, nj as int),
            ));
            let v: i32 = byte_as_acc(packed[at], true);
            proof {
                lemma_wrap_mac(
                    dot(av, bv, ni, ki, i as int, col, 0, 0, (kt * 64 + s) as nat),
                    u,
                    v,
                );
            }
            sum = sum.wrapping_add(u.wrapping_mul(v));
            s += 1;
        }
        acc[x] = sum;
        x += 1;
    }
}

/// Rows `0 .. m` of the plain product of unsigned `A[m, k]` with the signed
/// `B[k, n]` that `packed` holds, tile by tile into `c[m, n]`.
fn gemm_tiles(
    a: &[u8],
    m: usize,
    n: usize,
    k: usize,
    packed: &[u8],
    c: &mut [i32],
    Ghost(b): Ghost<Seq<u8>>,
)
    requires
        a.len() == m * k,
        b.len() == k * n,
        tile_aligned(m as int, n as int, k as int),
        old(c).len() == m * n,
        is_tile_packed(packed@, b, n as int, k as int),
        packed.len() <= usize::MAX,
    ensures
        final(c)@.len() == m * n,
        forall|p: int|
            0 <= p < final(c)@.len() ==> #[trigger] final(c)@[p] == wrap32(
                dot(
                    byte_values(a@, false),
                    byte_values(b, true),
                    n as int,
                    k as int,
                    p / (n as int),
                    p % (n as int),
                    0,
                    0,
                    k as nat,
                ),
            ),
{
    let ghost ni = n as int;
    let ghost ki = k as int;
    let ghost av = byte_values(a@, false);
    let ghost bv = byte_values(b, true);
    let n_tiles: usize = n / 16;
    let k_tiles: usize = k / 64;
    let mut row: usize = 0;
    while row < m
        invariant
            row <= m,
            row % 16 == 0,
            n_tiles == n / 16,
            k_tiles == k / 64,
            ni == n,
            ki == k,
            av == byte_values(a@, false),
            bv == byte_values(b, true),
            a.len() == m * k,
            b.len() == k * n,
            tile_aligned(m as int, ni, ki),
            c.len() == m * n,
            is_tile_packed(packed@, b, ni, ki),
            packed.len() <= usize::MAX,
            forall|p: int|
                0 <= p < c@.len() && p / ni < row ==> #[trigger] c@[p] == wrap32(
                    dot(av, bv, ni, ki, p / ni, p % ni, 0, 0, k as nat),
                ),
        decreases m - row,
    {
        let mut nt: usize = 0;
        while nt < n_tiles
            invariant
                nt <= n_tiles,
                row + 16 <= m,
                row % 16 == 0,
                n_tiles == n / 16,
                k_tiles == k / 64,
                ni == n,
                ki == k,
                av == byte_values(a@, false),
                bv == byte_values(b, true),
                a.len() == m * k,
                b.len() == k * n,
                tile_aligned(m as int, ni, ki),
                c.len() == m * n,
                is_tile_packed(packed@, b, ni, ki),
                packed.len() <= usize::MAX,
                forall|p: int|
                    0 <= p < c@.len() && (p / ni < row || (p / ni < row + 16 && p % ni < nt * 16))
                        ==> #[trigger] c@[p] == wrap32(
                        dot(av, bv, ni, ki, p / ni, p % ni, 0, 0, k as nat),
                    ),
            decreases n_tiles - nt,
        {
            let mut acc: [i32; 256] = [0;256];
            let mut kt: usize = 0;
            while kt < k_tiles
                invariant
                    kt <= k_tiles,
                    nt < n_tiles,
                    row + 16 <= m,
                    n_tiles == n / 16,
                    k_tiles == k / 64,
                    ni == n,
                    ki == k,
                    av == byte_values(a@, false),
                    bv == byte_values(b, true),
                    a.len() == m * k,
                    b.len() == k * n,
                    tile_aligned(m as int, ni, ki),
                    is_tile_packed(packed@, b, ni, ki),
                    packed.len() <= usize::MAX,
                    forall|x: int|
                        0 <= x < 256 ==> #[trigger] acc@[x] == wrap32(
                            dot(
                                av,
                                bv,
                                ni,
                                ki,
                                row + x / 16,
                                nt * 16 + x % 16,
                                0,
                                0,
                                (kt * 64) as nat,
                            ),
                        ),
                decreases k_tiles - kt,
            {
                tile_product(a, packed, &mut acc, m, n, k, row, nt, kt, Ghost(b));
                kt += 1;
            }
            assert(k_tiles * 64 == k);
            let mut x: usize = 0;
            while x < 256
                invariant
                    x <= 256,
                    nt < n_tiles,
                    row + 16 <= m,
                    n_tiles == n / 16,
                    ni == n,
                    ki == k,
                    n % 16 == 0,
                    c.len() == m * n,
                    forall|y: int|
                        0 <= y < 256 ==> #[trigger] acc@[y] == wrap32(
                            dot(
                                av,
                                bv,
                                ni,
                                ki,
                                row + y / 16,
                                nt * 16 + y % 16,
                                0,
                                0,
                                k as nat,
                            ),
                        ),
                    forall|p: int|
                        0 <= p < c@.len() && (p / ni < row || (p / ni < row + 16 && p % ni < nt
                            * 16) || (row <= p / ni < row + 16 && nt * 16 <= p % ni < nt * 16 + 16
                            && (p / ni - row) * 16 + (p % ni - nt * 16) < x)) ==> #[trigger] c@[p]
                            == wrap32(dot(av, bv, ni, ki, p / ni, p % ni, 0, 0, k as nat)),
                decreases 256 - x,
            {
                let i: usize = row + x / 16;
                let col: usize = nt * 16 + x % 16;
                proof {
                    lemma_in_matrix(i as int, col as int, m as int, ni);
                    lemma_row_col(i as int, col as int, ni);
                }
                let ghost before = c@;
                let at: usize = i * n + col;
                c[at] = acc[x];
                proof {
                    assert forall|p: int|
                        0 <= p < c@.len() && (p / ni < row || (p / ni < row + 16 && p % ni < nt
                            * 16) || (row <= p / ni < row + 16 && nt * 16 <= p % ni < nt * 16 + 16
                            && (p / ni - row) * 16 + (p % ni - nt * 16) < x + 1)) implies
                        #[trigger] c@[p] == wrap32(
                        dot(av, bv, ni, ki, p / ni, p % ni, 0, 0, k as nat),
                    ) by {
                        lemma_position(p, m as int, ni);
                        if p != at {
                            assert(c@[p] == before[p]);
                            if row <= p / ni < row + 16 && nt * 16 <= p % ni < nt * 16 + 16 && (p
                                / ni - row) * 16 + (p % ni - nt * 16) == x {
                                assert(p / ni == i && p % ni == col);
                            }
                        }
                    }
                }
                x += 1;
            }
            proof {
                assert forall|p: int|
                    0 <= p < c@.len() && (p / ni < row || (p / ni < row + 16 && p % ni < (nt + 1)
                        * 16)) implies #[trigger] c@[p] == wrap32(
                    dot(av, bv, ni, ki, p / ni, p % ni, 0, 0, k as nat),
                ) by {
                    lemma_position(p, m as int, ni);
                }
            }
            nt += 1;
        }
        proof {
            assert forall|p: int| 0 <= p < c@.len() && p / ni < row + 16 implies #[trigger] c@[p]
                == wrap32(dot(av, bv, ni, ki, p / ni, p % ni, 0, 0, k as nat)) by {
                lemma_position(p, m as int, ni);
            }
        }
        row += 16;
    }
    proof {
        assert forall|p: int| 0 <= p < c@.len() implies #[trigger] c@[p] == wrap32(
            dot(av, bv, ni, ki, p / ni, p % ni, 0, 0, k as nat),
        ) by {
            lemma_position(p, m as int, ni);
        }
    }
}

/// The product of moved operands is the product centred at minus the moves.
proof fn lemma_moved_dot(
    a: Seq<int>,
    b: Seq<int>,
    a2: Seq<int>,
    b2: Seq<int>,
    m: int,
    n: int,
    k: int,
    i: int,
    j: int,
    da: int,
    db: int,
    upto: nat,
)
    requires
        0 <= i < m,
        0 <= j < n,
        upto <= k,
        a.len() == m * k,
        b.len() == k * n,
        forall|x: int| 0 <= x < a.len() ==> #[trigger] a2[x] == a[x] + da,
        forall|x: int| 0 <= x < b.len() ==> #[trigger] b2[x] == b[x] + db,
    ensures
        dot(a2, b2, n, k, i, j, 0, 0, upto) == dot(a, b, n, k, i, j, -da, -db, upto),
    decreases upto,
{
    if upto > 0 {
        let t = upto - 1;
        lemma_moved_dot(a, b, a2, b2, m, n, k, i, j, da, db, t as nat);
        lemma_in_matrix(i, t, m, k);
        lemma_in_matrix(t, j, k, n);
        assert(a2[i * k + t] - 0 == a[i * k + t] - (-da));
        assert(b2[t * n + j] - 0 == b[t * n + j] - (-db));
    }
}

/// Takes the moves out of one entry: `c - da * sb - sa * db - K*da*db`.
proof fn lemma_unmove(
    a: Seq<int>,
    b: Seq<int>,
    n: int,
    k: int,
    i: int,
    j: int,
    da: i32,
    db: i32,
    c: i32,
    sa: i32,
    sb: i32,
    k_i: i32,
)
    requires
        0 <= k,
        c == wrap32(dot(a, b, n, k, i, j, -da, -db, k as nat)),
        sa == wrap32(row_sum(a, k, i, k as nat)),
        sb == wrap32(col_sum(b, n, j, k as nat)),
        k_i == wrap32(k),
    ensures
        c.wrapping_sub(da.wrapping_mul(sb)).wrapping_sub(sa.wrapping_mul(db)).wrapping_sub(
            k_i.wrapping_mul(da).wrapping_mul(db),
        ) == wrap32(dot(a, b, n, k, i, j, 0, 0, k as nat)),
{
    let ds = dot(a, b, n, k, i, j, -da, -db, k as nat);
    let ra = row_sum(a, k, i, k as nat);
    let cb = col_sum(b, n, j, k as nat);
    law_zero_point_identity(a, b, n, k, i, j, -da, -db, k as nat);
    let t1 = da.wrapping_mul(sb);
    let t2 = sa.wrapping_mul(db);
    let t3 = k_i.wrapping_mul(da);
    let t4 = t3.wrapping_mul(db);
    let w1 = c.wrapping_sub(t1);
    let w2 = w1.wrapping_sub(t2);
    lemma_wrap_is_congruent(ds);
    lemma_wrap_is_congruent(ra);
    lemma_wrap_is_congruent(cb);
    lemma_wrap_is_congruent(k);
    lemma_wrapping_mul(da, sb);
    lemma_congruent_mul(da as int, da as int, sb as int, cb);
    lemma_wrapping_mul(sa, db);
    lemma_congruent_mul(sa as int, ra, db as int, db as int);
    lemma_wrapping_mul(k_i, da);
    lemma_congruent_mul(k_i as int, k, da as int, da as int);
    lemma_wrapping_mul(t3, db);
    lemma_congruent_mul(t3 as int, k * da, db as int, db as int);
    lemma_wrapping_sub(c, t1);
    lemma_congruent_sub(c as int, ds, t1 as int, da * cb);
    lemma_wrapping_sub(w1, t2);
    lemma_congruent_sub(w1 as int, ds - da * cb, t2 as int, ra * db);
    lemma_wrapping_sub(w2, t4);
    lemma_congruent_sub(w2 as int, ds - da * cb - ra * db, t4 as int, k * da * db);
    lemma_wrap_congruent(w2 - t4, ds - da * cb - ra * db - k * da * db);
    assert((-da) * cb == -(da * cb)) by (nonlinear_arith);
    assert(ra * (-db) == -(ra * db)) by (nonlinear_arith);
    assert(k * (-da) * (-db) == k * da * db) by (nonlinear_arith);
}

/// Turns the product of the moved operands into the centred product.
fn apply_amx_fixup(
    c: &mut [i32],
    a: &[u8],
    m: usize,
    n: usize,
    k: usize,
    is_u8: bool,
    is_i8: bool,
    zp: &Zp,
    sum_b: &[i32],
    Ghost(b): Ghost<Seq<u8>>,
)
    requires
        a.len() == m * k,
        old(c).len() == m * n,
        zp.covers(m as int, n as int),
        sum_b@.len() == n,
        forall|j: int|
            0 <= j < n ==> #[trigger] sum_b@[j] == wrap32(
                col_sum(byte_values(b, is_i8), n as int, j, k as nat),
            ),
        forall|p: int|
            0 <= p < old(c)@.len() ==> #[trigger] old(c)@[p] == wrap32(
                dot(
                    byte_values(a@, !is_u8),
                    byte_values(b, is_i8),
                    n as int,
                    k as int,
                    p / (n as int),
                    p % (n as int),
                    -shift_a(is_u8),
                    -shift_b(is_i8),
                    k as nat,
                ),
            ),
    ensures
        is_product(
            final(c)@,
            byte_values(a@, !is_u8),
            byte_values(b, is_i8),
            m as int,
            n as int,
            k as int,
            *zp,
        ),
{
    let ghost ni = n as int;
    let ghost ki = k as int;
    let ghost av = byte_values(a@, !is_u8);
    let ghost bv = byte_values(b, is_i8);
    let ghost c0 = c@;
    let da: i32 = if is_u8 {
        0
    } else {
        128
    };
    let db: i32 = if is_i8 {
        0
    } else {
        -128
    };
    let moved: bool = da != 0 || db != 0;
    let centred: bool = !zp.is_none();
    if !moved && !centred {
        proof {
            assert forall|p: int| 0 <= p < c@.len() implies #[trigger] c@[p] == entry(
                av,
                bv,
                ni,
                ki,
                *zp,
                p / ni,
                p % ni,
            ) by {
                lemma_position(p, m as int, ni);
            }
        }
        return ;
    }
    let sum_a: Vec<i32> = sum_rows_u8(a, m, k, !is_u8);
    if moved {
        let k_i: i32 = wrap_len(k);
        let k_da_db: i32 = k_i.wrapping_mul(da).wrapping_mul(db);
        let mut i: usize = 0;
        while i < m
            invariant
                i <= m,
                ni == n,
                ki == k,
                av == byte_values(a@, !is_u8),
                bv == byte_values(b, is_i8),
                da == shift_a(is_u8),
                db == shift_b(is_i8),
                k_i == wrap32(ki),
                k_da_db == k_i.wrapping_mul(da).wrapping_mul(db),
                c.len() == m * n,
                c0.len() == m * n,
                sum_a@.len() == m,
                sum_b@.len() == n,
                forall|r: int|
                    0 <= r < m ==> #[trigger] sum_a@[r] == wrap32(row_sum(av, ki, r, k as nat)),
                forall|j: int|
                    0 <= j < n ==> #[trigger] sum_b@[j] == wrap32(col_sum(bv, ni, j, k as nat)),
                forall|p: int|
                    0 <= p < c@.len() ==> #[trigger] c@[p] == if p / ni < i {
                        wrap32(dot(av, bv, ni, ki, p / ni, p % ni, 0, 0, k as nat))
                    } else {
                        wrap32(dot(av, bv, ni, ki, p / ni, p % ni, -da, -db, k as nat))
                    },
            decreases m - i,
        {
            let sa: i32 = sum_a[i];
            let mut j: usize = 0;
            while j < n
                invariant
                    i < m,
                    j <= n,
                    ni == n,
                    ki == k,
                    av == byte_values(a@, !is_u8),
                    bv == byte_values(b, is_i8),
                    da == shift_a(is_u8),
                    db == shift_b(is_i8),
                    k_i == wrap32(ki),
                    k_da_db == k_i.wrapping_mul(da).wrapping_mul(db),
                    c.len() == m * n,
                    sa == wrap32(row_sum(av, ki, i as int, k as nat)),
                    sum_b@.len() == n,
                    forall|j: int|
                        0 <= j < n ==> #[trigger] sum_b@[j] == wrap32(col_sum(bv, ni, j, k as nat)),
                    forall|p: int|
                        0 <= p < c@.len() ==> #[trigger] c@[p] == if p / ni < i || (p / ni == i && p
                            % ni < j) {
                            wrap32(dot(av, bv, ni, ki, p / ni, p % ni, 0, 0, k as nat))
                        } else {
                            wrap32(dot(av, bv, ni, ki, p / ni, p % ni, -da, -db, k as nat))
                        },
                decreases n - j,
            {
                let sb: i32 = sum_b[j];
                proof {
                    lemma_in_matrix(i as int, j as int, m as int, ni);
                    lemma_row_col(i as int, j as int, ni);
                }
                let at: usize = i * n + j;
                let ghost before = c@;
                proof {
                    lemma_unmove(
                        av,
                        bv,
                        ni,
                        ki,
                        i as int,
                        j as int,
                        da,
                        db,
                        c@[at as int],
                        sa,
                        sb,
                        k_i,
                    );
                }
                c[at] = c[at].wrapping_sub(da.wrapping_mul(sb)).wrapping_sub(
                    sa.wrapping_mul(db),
                ).wrapping_sub(k_da_db);
                proof {
                    assert forall|p: int| 0 <= p < c@.len() implies #[trigger] c@[p] == (if p / ni
                        < i || (p / ni == i && p % ni < j + 1) {
                        wrap32(dot(av, bv, ni, ki, p / ni, p % ni, 0, 0, k as nat))
                    } else {
                        wrap32(dot(av, bv, ni, ki, p / ni, p % ni, -da, -db, k as nat))
                    }) by {
                        lemma_position(p, m as int, ni);
                        if p != at {
                            assert(c@[p] == before[p]);
                        }
                    }
                }
                j += 1;
            }
            proof {
                assert forall|p: int| 0 <= p < c@.len() implies #[trigger] c@[p] == (if p / ni < i
                    + 1 {
                    wrap32(dot(av, bv, ni, ki, p / ni, p % ni, 0, 0, k as nat))
                } else {
                    wrap32(dot(av, bv, ni, ki, p / ni, p % ni, -da, -db, k as nat))
                }) by {
                    lemma_position(p, m as int, ni);
                }
            }
            i += 1;
        }
    }
    let ghost plain = c@;
    proof {
        assert forall|p: int| 0 <= p < plain.len() implies #[trigger] plain[p] == wrap32(
            dot(av, bv, ni, ki, p / ni, p % ni, 0, 0, k as nat),
        ) by {
            lemma_position(p, m as int, ni);
        }
    }
    apply_zp(c, m, n, k, &sum_a, sum_b, zp);
    proof {
        assert forall|p: int| 0 <= p < c@.len() implies #[trigger] c@[p] == entry(
            av,
            bv,
            ni,
            ki,
            *zp,
            p / ni,
            p % ni,
        ) by {
            lemma_position(p, m as int, ni);
            assert(plain[p] == wrap32(dot(av, bv, ni, ki, p / ni, p % ni, 0, 0, k as nat)));
            lemma_corrected_is_dot(plain, av, bv, sum_a@, sum_b@, *zp, m as int, ni, ki, p);
        }
    }
}

/// `(A - za) @ (B - zb)` of 8-bit operands on the tile unit, or `None` where
/// the shape is not whole tiles or there is no unit. Signed B (weights) is
/// packed once per buffer; `addr` is where the buffer of B lies.
pub fn gemm(
    a: &[u8],
    b: &[u8],
    addr: usize,
    m: usize,
    n: usize,
    k: usize,
    is_u8: bool,
    is_i8: bool,
    zp: &Zp,
    available: bool,
    cache: &mut PackCache,
) -> (r: Option<Vec<i32>>)
    requires
        a.len() == m * k,
        b.len() == k * n,
        m * n <= usize::MAX,
        zp.covers(m as int, n as int),
        old(cache).wf(),
    ensures
        r is Some == (m == 0 || n == 0 || (available && tile_aligned(
            m as int,
            n as int,
            k as int,
        ))),
        r matches Some(c) ==> is_product(
            c@,
            byte_values(a@, !is_u8),
            byte_values(b@, is_i8),
            m as int,
            n as int,
            k as int,
            *zp,
        ),
        final(cache).wf(),
        !is_i8 || r is None ==> *final(cache) == *old(cache),
{
    if m == 0 || n == 0 {
        assert(m * n == 0) by (nonlinear_arith)
            requires
                m == 0 || n == 0,
        ;
        return Some(Vec::new());
    }
    if m % TM != 0 || n % TN != 0 || k % TK != 0 {
        return None;
    }
    if !available {
        return None;
    }
    let mut a_work: Vec<u8> = Vec::new();
    let mut x: usize = 0;
    while x < a.len()
        invariant
            x <= a.len(),
            a_work@.len() == x,
            forall|y: int|
                0 <= y < x ==> #[trigger] a_work@[y] == byte_value(a@[y], !is_u8) + shift_a(is_u8),
        decreases a.len() - x,
    {
        a_work.push(unsigned_byte(a[x], is_u8));
        x += 1;
    }
    let packed: Arc<Vec<u8>>;
    let sum_b: Arc<Vec<i32>>;
    let ghost moved_b: Seq<u8>;
    if is_i8 {
        packed = cache.cached_pack_b(addr, b, n, k);
        sum_b = cache.cached_sum_cols(addr, b, k, n, true);
        proof {
            moved_b = b@;
        }
    } else {
        let mut b_work: Vec<u8> = Vec::new();
        let mut y: usize = 0;
        while y < b.len()
            invariant
                y <= b.len(),
                b_work@.len() == y,
                !is_i8,
                forall|z: int|
                    0 <= z < y ==> byte_value(#[trigger] b_work@[z], true) == byte_value(
                        b@[z],
                        is_i8,
                    ) + shift_b(is_i8),
            decreases b.len() - y,
        {
            b_work.push(signed_byte(b[y], is_i8));
            y += 1;
        }
        packed = Arc::new(pack_b_amx(&b_work, n, k));
        sum_b = Arc::new(sum_cols_u8(b, k, n, false));
        proof {
            moved_b = b_work@;
        }
    }
    let ghost ni = n as int;
    let ghost ki = k as int;
    let ghost av = byte_values(a@, !is_u8);
    let ghost bv = byte_values(b@, is_i8);
    let mut c: Vec<i32> = vec![0i32; m * n];
    gemm_tiles(&a_work, m, n, k, &packed, &mut c, Ghost(moved_b));
    proof {
        let a2 = byte_values(a_work@, false);
        let b2 = byte_values(moved_b, true);
        assert forall|p: int| 0 <= p < c@.len() implies #[trigger] c@[p] == wrap32(
            dot(
                av,
                bv,
                ni,
                ki,
                p / ni,
                p % ni,
                -shift_a(is_u8),
                -shift_b(is_i8),
                k as nat,
            ),
        ) by {
            lemma_position(p, m as int, ni);
            lemma_moved_dot(
                av,
                bv,
                a2,
                b2,
                m as int,
                ni,
                ki,
                p / ni,
                p % ni,
                shift_a(is_u8),
                shift_b(is_i8),
                k as nat,
            );
        }
    }
    apply_amx_fixup(&mut c, a, m, n, k, is_u8, is_i8, zp, &sum_b, Ghost(b@));
    Some(c)
}

} // verus!
