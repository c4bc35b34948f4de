//! What the integer products are, in plain sums over the elements.

use std::sync::Arc;

use vstd::prelude::*;
use crate::arith::{lemma_in_matrix, lemma_row_col, lemma_wrap_is_congruent, wrap32};
use crate::gemm::acc::{values, AsAcc};
use crate::gemm::bytes::{
    byte_as_acc, byte_value, byte_values, signed_byte, sum_cols_u8, sum_rows_u8, unsigned_byte,
};
use crate::gemm::cache::PackCache;
use crate::gemm::dispatch::{
    gemm, gemm_on, gemm_u8u8_into, gemm_with_zp, try_vnni, CpuFeatures,
};
use crate::gemm::model::{col_sum, dot, row_sum};
use crate::gemm::amx::{pack_b_amx, tile_aligned};
use crate::gemm::tiled::{gemm_tiled, worth_splitting};
use crate::gemm::vnni;
use crate::gemm::zp::{
    apply_zp, corrected, is_product, sum_cols, sum_rows, zp_rows_slice, Zp, ZpLane,
};

verus! {

/// The sum of a list of integers.
pub open spec fn total(s: Seq<int>) -> int {
    s.fold_left(0, |x: int, y: int| x + y)
}

/// A list with one more term sums to that much more.
proof fn lemma_total_step(f: spec_fn(int) -> int, n: nat)
    requires
        n > 0,
    ensures
        total(Seq::new(n, f)) == total(Seq::new((n - 1) as nat, f)) + f(n - 1),
{
    let s = Seq::new(n, f);
    reveal_with_fuel(Seq::fold_left, 2);
    assert(s.drop_last() =~= Seq::new((n - 1) as nat, f));
}

/// Sums over equal terms are equal.
proof fn lemma_total_same(f: spec_fn(int) -> int, g: spec_fn(int) -> int, n: nat)
    requires
        forall|t: int| 0 <= t < n ==> #[trigger] f(t) == g(t),
    ensures
        total(Seq::new(n, f)) == total(Seq::new(n, g)),
{
    assert(Seq::new(n, f) =~= Seq::new(n, g));
}

proof fn lemma_total_none(f: spec_fn(int) -> int)
    ensures
        total(Seq::new(0, f)) == 0,
{
    reveal_with_fuel(Seq::fold_left, 2);
}

/// An inner product is the sum of `(A[i, t] - za) * (B[t, j] - zb)` over the
/// steps `t`.
pub proof fn law_dot_is_a_sum(
    a: Seq<int>,
    b: Seq<int>,
    n: int,
    k: int,
    i: int,
    j: int,
    za: int,
    zb: int,
    upto: nat,
)
    ensures
        dot(a, b, n, k, i, j, za, zb, upto) == total(
            Seq::new(upto, |t: int| (a[i * k + t] - za) * (b[t * n + j] - zb)),
        ),
    decreases upto,
{
    let f = |t: int| (a[i * k + t] - za) * (b[t * n + j] - zb);
    if upto == 0 {
        lemma_total_none(f);
    } else {
        law_dot_is_a_sum(a, b, n, k, i, j, za, zb, (upto - 1) as nat);
        lemma_total_step(f, upto);
    }
}

/// A row sum adds the elements `A[i, 0 ..]`, and a column sum the elements
/// `B[0 .., j]`.
pub proof fn law_sums_are_sums(a: Seq<int>, k: int, i: int, b: Seq<int>, n: int, j: int, upto: nat)
    ensures
        row_sum(a, k, i, upto) == total(Seq::new(upto, |t: int| a[i * k + t])),
        col_sum(b, n, j, upto) == total(Seq::new(upto, |t: int| b[t * n + j])),
    decreases upto,
{
    let f = |t: int| a[i * k + t];
    let g = |t: int| b[t * n + j];
    if upto == 0 {
        lemma_total_none(f);
        lemma_total_none(g);
    } else {
        law_sums_are_sums(a, k, i, b, n, j, (upto - 1) as nat);
        lemma_total_step(f, upto);
        lemma_total_step(g, upto);
    }
}

/// Wrapping to an `i32` changes an integer by a multiple of 2^32, and leaves
/// one that fits as it is.
pub proof fn law_wrapping(x: int)
    ensures
        (wrap32(x) - x) % 0x1_0000_0000 == 0,
        -0x8000_0000 <= x < 0x8000_0000 ==> wrap32(x) == x,
{
    lemma_wrap_is_congruent(x);
    assert((wrap32(x) - x) % 0x1_0000_0000 == 0) by (nonlinear_arith)
        requires
            wrap32(x) as int % 0x1_0000_0000 == x % 0x1_0000_0000,
    ;
}

/// The zero-point of a lane at `i`: none, the one of all rows or columns, or
/// element `i` of the list, whatever its sign.
pub proof fn law_lane_value(lane: &ZpLane, i: usize, r: i32)
    requires
        call_ensures(ZpLane::at, (lane, i), r),
    ensures
        lane is Zero ==> r == 0,
        lane matches ZpLane::Scalar(s) ==> r == s,
        lane matches ZpLane::Per(v) ==> r == v@[i as int],
{
}

/// A lane passes for zero exactly where no row or column that it names has a
/// zero-point other than zero.
pub proof fn law_zero_lane(lane: &ZpLane, r: bool)
    requires
        call_ensures(ZpLane::is_zero, (lane,), r),
    ensures
        lane is Zero ==> r,
        lane matches ZpLane::Scalar(s) ==> r == (s == 0),
        lane matches ZpLane::Per(v) ==> r == !(exists|i: int| 0 <= i < v@.len() && v@[i] != 0),
{
}

/// The zero-points of rows `i0 .. i0 + mb` are those of the whole, from `i0`
/// on.
pub proof fn law_rows_slice(za: &ZpLane, i0: usize, mb: usize, r: ZpLane, i: int, v: i32, w: i32)
    requires
        call_ensures(zp_rows_slice, (za, i0, mb), r),
        0 <= i < mb,
        match *za {
            ZpLane::Zero => v == 0,
            ZpLane::Scalar(s) => v == s,
            ZpLane::Per(l) => v == l@[i0 + i],
        },
        match r {
            ZpLane::Zero => w == 0,
            ZpLane::Scalar(s) => w == s,
            ZpLane::Per(l) => w == l@[i],
        },
    ensures
        w == v,
{
    assert(r.value(i) == za.value(i0 + i));
}

/// Entry `[i, j]` of a product is the sum of `(A[i, t] - za) * (B[t, j] - zb)`
/// up to a multiple of 2^32, where `za` is the zero-point of row `i` and `zb`
/// that of column `j`.
pub proof fn law_product_entry(
    c: Seq<i32>,
    a: Seq<int>,
    b: Seq<int>,
    m: int,
    n: int,
    k: int,
    zp: Zp,
    i: int,
    j: int,
    za: int,
    zb: int,
)
    requires
        is_product(c, a, b, m, n, k, zp),
        0 <= i < m,
        0 <= j < n,
        0 <= k,
        match zp.za {
            ZpLane::Zero => za == 0,
            ZpLane::Scalar(s) => za == s,
            ZpLane::Per(v) => za == v@[i],
        },
        match zp.zb {
            ZpLane::Zero => zb == 0,
            ZpLane::Scalar(s) => zb == s,
            ZpLane::Per(v) => zb == v@[j],
        },
    ensures
        c.len() == m * n,
        0 <= i * n + j < c.len(),
        (c[i * n + j] - total(
            Seq::new(k as nat, |t: int| (a[i * k + t] - za) * (b[t * n + j] - zb)),
        )) % 0x1_0000_0000 == 0,
{
    lemma_in_matrix(i, j, m, n);
    lemma_row_col(i, j, n);
    law_dot_is_a_sum(a, b, n, k, i, j, za, zb, k as nat);
    law_wrapping(dot(a, b, n, k, i, j, za, zb, k as nat));
}

/// What `gemm_with_zp` returns: entry `[i, j]` is the sum of
/// `(A[i, t] - za) * (B[t, j] - zb)` over the steps `t`, up to a multiple of
/// 2^32, with the zero-points of row `i` and column `j` as they are given.
pub proof fn law_gemm_takes_off_the_zero_points<A: AsAcc, B: AsAcc>(
    a: &[A],
    b: &[B],
    m: usize,
    n: usize,
    k: usize,
    zp: &Zp,
    c: Vec<i32>,
    i: int,
    j: int,
    za: int,
    zb: int,
)
    requires
        call_ensures(gemm_with_zp::<A, B>, (a, b, m, n, k, zp), c),
        a@.len() == m * k,
        b@.len() == k * n,
        0 <= i < m,
        0 <= j < n,
        match zp.za {
            ZpLane::Zero => za == 0,
            ZpLane::Scalar(s) => za == s,
            ZpLane::Per(v) => za == v@[i],
        },
        match zp.zb {
            ZpLane::Zero => zb == 0,
            ZpLane::Scalar(s) => zb == s,
            ZpLane::Per(v) => zb == v@[j],
        },
    ensures
        c@.len() == m * n,
        (c@[i * n + j] - total(
            Seq::new(
                k as nat,
                |t: int| (a@[i * k + t].acc() - za) * (b@[t * n + j].acc() - zb),
            ),
        )) % 0x1_0000_0000 == 0,
{
    law_product_entry(
        c@,
        values(a@),
        values(b@),
        m as int,
        n as int,
        k as int,
        *zp,
        i,
        j,
        za,
        zb,
    );
    lemma_terms(a@, b@, m as int, n as int, k as int, i, j, za, zb);
}

/// The terms of an entry read the elements themselves.
proof fn lemma_terms<A: AsAcc, B: AsAcc>(
    a: Seq<A>,
    b: Seq<B>,
    m: int,
    n: int,
    k: int,
    i: int,
    j: int,
    za: int,
    zb: int,
)
    requires
        a.len() == m * k,
        b.len() == k * n,
        0 <= i < m,
        0 <= j < n,
        0 <= k,
    ensures
        total(
            Seq::new(
                k as nat,
                |t: int| (values(a)[i * k + t] - za) * (values(b)[t * n + j] - zb),
            ),
        ) == total(
            Seq::new(k as nat, |t: int| (a[i * k + t].acc() - za) * (b[t * n + j].acc() - zb)),
        ),
{
    let f = |t: int| (values(a)[i * k + t] - za) * (values(b)[t * n + j] - zb);
    let g = |t: int| (a[i * k + t].acc() - za) * (b[t * n + j].acc() - zb);
    assert forall|t: int| 0 <= t < k implies #[trigger] f(t) == g(t) by {
        lemma_in_matrix(i, t, m, k);
        lemma_in_matrix(t, j, k, n);
    }
    lemma_total_same(f, g, k as nat);
}

/// What `gemm` returns: entry `[i, j]` is the sum of `A[i, t] * B[t, j]`, up to
/// a multiple of 2^32.
pub proof fn law_gemm_is_the_plain_product<A: AsAcc, B: AsAcc>(
    a: &[A],
    b: &[B],
    m: usize,
    n: usize,
    k: usize,
    c: Vec<i32>,
    i: int,
    j: int,
)
    requires
        call_ensures(gemm::<A, B>, (a, b, m, n, k), c),
        a@.len() == m * k,
        b@.len() == k * n,
        0 <= i < m,
        0 <= j < n,
    ensures
        c@.len() == m * n,
        (c@[i * n + j] - total(
            Seq::new(k as nat, |t: int| a@[i * k + t].acc() * b@[t * n + j].acc()),
        )) % 0x1_0000_0000 == 0,
{
    let ni = n as int;
    let ki = k as int;
    lemma_in_matrix(i, j, m as int, ni);
    lemma_row_col(i, j, ni);
    law_dot_is_a_sum(values(a@), values(b@), ni, ki, i, j, 0, 0, k as nat);
    law_wrapping(dot(values(a@), values(b@), ni, ki, i, j, 0, 0, k as nat));
    lemma_terms(a@, b@, m as int, ni, ki, i, j, 0, 0);
    lemma_total_same(
        |t: int| (a@[i * k + t].acc() - 0) * (b@[t * n + j].acc() - 0),
        |t: int| a@[i * k + t].acc() * b@[t * n + j].acc(),
        k as nat,
    );
}

/// The portable panels and the dot-product path give the entries that
/// `gemm_with_zp` gives.
pub proof fn law_paths_agree<A: AsAcc, B: AsAcc>(
    a: &[A],
    b: &[B],
    m: usize,
    n: usize,
    k: usize,
    zp: &Zp,
    c: Vec<i32>,
    tiled: Vec<i32>,
    lanes: Option<Vec<i32>>,
)
    requires
        call_ensures(gemm_with_zp::<A, B>, (a, b, m, n, k, zp), c),
        call_ensures(gemm_tiled::<A, B>, (a, b, m, n, k, zp), tiled),
        call_ensures(try_vnni::<A, B>, (a, b, m, n, k, zp), lanes),
    ensures
        tiled@ == c@,
        lanes matches Some(v) ==> v@ == c@,
{
    assert(tiled@ =~= c@);
    if lanes is Some {
        assert(lanes->0@ =~= c@);
    }
}

/// An element counts as the integer that it is, signed or not.
pub proof fn law_elements_are_their_values(
    x: u8,
    rx: i32,
    y: i8,
    ry: i32,
    z: i32,
    rz: i32,
)
    requires
        call_ensures(<u8 as AsAcc>::as_acc, (x,), rx),
        call_ensures(<i8 as AsAcc>::as_acc, (y,), ry),
        call_ensures(<i32 as AsAcc>::as_acc, (z,), rz),
    ensures
        rx == x && x.acc() == x,
        ry == y && y.acc() == y,
        rz == z && z.acc() == z,
{
}

/// A raw byte stands for the integer between -128 and 127, or between 0 and
/// 255, that it is congruent to modulo 256.
pub proof fn law_raw_bytes(b: u8, signed: bool, r: i32)
    requires
        call_ensures(byte_as_acc, (b, signed), r),
    ensures
        (r - b) % 256 == 0,
        signed ==> -128 <= r <= 127,
        !signed ==> 0 <= r <= 255,
        byte_value(b, signed) == r,
{
}

/// Moving a byte of A into the unsigned range, or one of B into the signed
/// range, keeps what it stands for up to the shift by 128.
pub proof fn law_moved_bytes(raw: u8, flag: bool, u: u8, s: u8)
    requires
        call_ensures(unsigned_byte, (raw, flag), u),
        call_ensures(signed_byte, (raw, flag), s),
    ensures
        flag ==> u == raw && s == raw,
        !flag ==> (u - raw) % 256 == 128 && (s - raw) % 256 == 128,
{
    if !flag {
        let v = byte_value(raw, true);
        assert(u == v + 128);
        assert(byte_value(s, true) == raw - 128);
    }
}

/// What the row and column sums are, up to a multiple of 2^32.
pub proof fn law_element_sums<A: AsAcc>(
    a: &[A],
    m: usize,
    k: usize,
    rows: Vec<i32>,
    i: int,
    cols: Vec<i32>,
    j: int,
)
    requires
        call_ensures(sum_rows::<A>, (a, m, k), rows),
        call_ensures(sum_cols::<A>, (a, m, k), cols),
        a@.len() == m * k,
        0 <= i < m,
        0 <= j < k,
    ensures
        rows@.len() == m,
        cols@.len() == k,
        (rows@[i] - total(Seq::new(k as nat, |t: int| a@[i * k + t].acc()))) % 0x1_0000_0000 == 0,
        (cols@[j] - total(Seq::new(m as nat, |t: int| a@[t * k + j].acc()))) % 0x1_0000_0000 == 0,
{
    let v = values(a@);
    let ki = k as int;
    law_sums_are_sums(v, ki, i, v, ki, j, k as nat);
    law_sums_are_sums(v, ki, i, v, ki, j, m as nat);
    law_wrapping(row_sum(v, ki, i, k as nat));
    law_wrapping(col_sum(v, ki, j, m as nat));
    assert forall|t: int| 0 <= t < k implies v[i * ki + t] == (#[trigger] a@[i * k + t]).acc() by {
        lemma_in_matrix(i, t, m as int, ki);
    }
    assert forall|t: int| 0 <= t < m implies v[t * ki + j] == (#[trigger] a@[t * k + j]).acc() by {
        lemma_in_matrix(t, j, m as int, ki);
    }
    assert(Seq::new(k as nat, |t: int| v[i * ki + t]) =~= Seq::new(
        k as nat,
        |t: int| a@[i * k + t].acc(),
    ));
    assert(Seq::new(m as nat, |t: int| v[t * ki + j]) =~= Seq::new(
        m as nat,
        |t: int| a@[t * k + j].acc(),
    ));
}

/// What the row and column sums of raw unsigned bytes are, up to a multiple of
/// 2^32.
pub proof fn law_byte_sums(
    a: &[u8],
    m: usize,
    k: usize,
    rows: Vec<i32>,
    i: int,
    cols: Vec<i32>,
    j: int,
)
    requires
        call_ensures(sum_rows_u8, (a, m, k, false), rows),
        call_ensures(sum_cols_u8, (a, m, k, false), cols),
        a@.len() == m * k,
        0 <= i < m,
        0 <= j < k,
    ensures
        rows@.len() == m,
        cols@.len() == k,
        (rows@[i] - total(Seq::new(k as nat, |t: int| a@[i * k + t] as int))) % 0x1_0000_0000 == 0,
        (cols@[j] - total(Seq::new(m as nat, |t: int| a@[t * k + j] as int))) % 0x1_0000_0000 == 0,
{
    let v = byte_values(a@, false);
    let ki = k as int;
    law_sums_are_sums(v, ki, i, v, ki, j, k as nat);
    law_sums_are_sums(v, ki, i, v, ki, j, m as nat);
    law_wrapping(row_sum(v, ki, i, k as nat));
    law_wrapping(col_sum(v, ki, j, m as nat));
    assert forall|t: int| 0 <= t < k implies v[i * ki + t] == #[trigger] a@[i * k + t] by {
        lemma_in_matrix(i, t, m as int, ki);
    }
    assert forall|t: int| 0 <= t < m implies v[t * ki + j] == #[trigger] a@[t * k + j] by {
        lemma_in_matrix(t, j, m as int, ki);
    }
    assert(Seq::new(k as nat, |t: int| v[i * ki + t]) =~= Seq::new(
        k as nat,
        |t: int| a@[i * k + t] as int,
    ));
    assert(Seq::new(m as nat, |t: int| v[t * ki + j]) =~= Seq::new(
        m as nat,
        |t: int| a@[t * k + j] as int,
    ));
}

/// The correction takes `za * sum_b + sum_a * zb - k * za * zb` off an entry,
/// up to a multiple of 2^32.
pub proof fn law_correction(
    c: Seq<i32>,
    sum_a: Seq<i32>,
    sum_b: Seq<i32>,
    zp: Zp,
    n: int,
    k: int,
    i: int,
    j: int,
    za: int,
    zb: int,
)
    requires
        0 <= i,
        0 <= j < n,
        sum_a.len() > i,
        sum_b.len() > j,
        match zp.za {
            ZpLane::Zero => za == 0,
            ZpLane::Scalar(s) => za == s,
            ZpLane::Per(v) => za == v@[i],
        },
        match zp.zb {
            ZpLane::Zero => zb == 0,
            ZpLane::Scalar(s) => zb == s,
            ZpLane::Per(v) => zb == v@[j],
        },
    ensures
        (corrected(c, sum_a, sum_b, zp, n, k, i * n + j) - (c[i * n + j] - za * sum_b[j] - sum_a[i]
            * zb + k * za * zb)) % 0x1_0000_0000 == 0,
{
    lemma_row_col(i, j, n);
    law_wrapping(c[i * n + j] - (za * sum_b[j] + sum_a[i] * zb - k * za * zb));
}

/// The dot-product path is open where the processor has all three features.
pub proof fn law_vnni_needs_three_features(cpu: &CpuFeatures, r: bool)
    requires
        call_ensures(CpuFeatures::vnni_available, (cpu,), r),
    ensures
        r == !(!cpu.avx512f || !cpu.avx512bw || !cpu.avx512vnni),
{
}

/// Four bytes in a dword are its digits to base 256, lowest first, and each
/// comes out again.
pub proof fn law_dwords_hold_bytes(b0: u8, b1: u8, b2: u8, b3: u8, d: u32)
    requires
        call_ensures(vnni::pack4, (b0, b1, b2, b3), d),
    ensures
        d == b0 + 0x100 * b1 + 0x1_0000 * b2 + 0x100_0000 * b3,
{
}

/// One lane of the dot-product instruction adds the four products of an
/// unsigned and a signed byte, up to a multiple of 2^32.
pub proof fn law_dot_product_lane(
    acc: i32,
    a0: u8,
    a1: u8,
    a2: u8,
    a3: u8,
    b0: int,
    b1: int,
    b2: int,
    b3: int,
    a: u32,
    b: u32,
    r: i32,
)
    requires
        a == a0 + 0x100 * a1 + 0x1_0000 * a2 + 0x100_0000 * a3,
        -128 <= b0 < 128 && -128 <= b1 < 128 && -128 <= b2 < 128 && -128 <= b3 < 128,
        b == b0 % 256 + 0x100 * (b1 % 256) + 0x1_0000 * (b2 % 256) + 0x100_0000 * (b3 % 256),
        call_ensures(vnni::dpbusd, (acc, a, b), r),
    ensures
        (r - (acc + a0 * b0 + a1 * b1 + a2 * b2 + a3 * b3)) % 0x1_0000_0000 == 0,
{
    lemma_digits(a, a0 as int, a1 as int, a2 as int, a3 as int);
    lemma_digits(b, b0 % 256, b1 % 256, b2 % 256, b3 % 256);
    assert(byte_value(vnni::byte_of(b, 0), true) == b0);
    assert(byte_value(vnni::byte_of(b, 1), true) == b1);
    assert(byte_value(vnni::byte_of(b, 2), true) == b2);
    assert(byte_value(vnni::byte_of(b, 3), true) == b3);
    law_wrapping(acc + vnni::dot4(a, b));
}

/// The bytes of a dword are its digits to base 256.
proof fn lemma_digits(d: u32, x0: int, x1: int, x2: int, x3: int)
    requires
        0 <= x0 < 256 && 0 <= x1 < 256 && 0 <= x2 < 256 && 0 <= x3 < 256,
        d == x0 + 0x100 * x1 + 0x1_0000 * x2 + 0x100_0000 * x3,
    ensures
        vnni::byte_of(d, 0) == x0,
        vnni::byte_of(d, 1) == x1,
        vnni::byte_of(d, 2) == x2,
        vnni::byte_of(d, 3) == x3,
{
    assert(d / 0x100_0000 == x3);
    assert(d / 0x1_0000 == x2 + 0x100 * x3);
    assert(d / 0x100 == x1 + 0x100 * x2 + 0x1_0000 * x3);
}

/// Work is split over rows from eight million products on, where there are
/// more than 64 rows.
pub proof fn law_splitting(m: usize, n: usize, k: usize, r: bool)
    requires
        call_ensures(worth_splitting, (m, n, k), r),
    ensures
        r <==> m * n * k >= 8_000_000 && m > 64,
{
}

/// A shape is whole tiles where 16 divides both of its outer extents and 64
/// the inner one.
pub proof fn law_whole_tiles(m: int, n: int, k: int)
    ensures
        tile_aligned(16 * m, 16 * n, 64 * k),
        tile_aligned(m, n, k) ==> 16 * (m / 16) == m && 16 * (n / 16) == n && 64 * (k / 64) == k,
{
}

/// What `gemm_u8u8_into` writes: entry `[i, j]` is the sum of
/// `(A[i, t] - za) * (B[t, j] - zb)`, up to a multiple of 2^32.
pub proof fn law_gemm_into(
    cpu: &CpuFeatures,
    a: &[u8],
    b: &[u8],
    m: usize,
    n: usize,
    k: usize,
    zp: &Zp,
    out: &mut [i32],
    i: int,
    j: int,
    za: int,
    zb: int,
)
    requires
        call_ensures(gemm_u8u8_into, (cpu, a, b, m, n, k, zp, out), ()),
        a@.len() == m * k,
        b@.len() == k * n,
        0 <= i < m,
        0 <= j < n,
        match zp.za {
            ZpLane::Zero => za == 0,
            ZpLane::Scalar(s) => za == s,
            ZpLane::Per(v) => za == v@[i],
        },
        match zp.zb {
            ZpLane::Zero => zb == 0,
            ZpLane::Scalar(s) => zb == s,
            ZpLane::Per(v) => zb == v@[j],
        },
    ensures
        final(out)@.len() == m * n,
        (final(out)@[i * n + j] - total(
            Seq::new(k as nat, |t: int| (a@[i * k + t] - za) * (b@[t * n + j] - zb)),
        )) % 0x1_0000_0000 == 0,
{
    law_product_entry(
        final(out)@,
        values(a@),
        values(b@),
        m as int,
        n as int,
        k as int,
        *zp,
        i,
        j,
        za,
        zb,
    );
    lemma_terms(a@, b@, m as int, n as int, k as int, i, j, za, zb);
    lemma_total_same(
        |t: int| (a@[i * k + t].acc() - za) * (b@[t * n + j].acc() - zb),
        |t: int| (a@[i * k + t] - za) * (b@[t * n + j] - zb),
        k as nat,
    );
}

/// Whatever the processor has, the entries are those that `gemm_with_zp`
/// gives.
pub proof fn law_processors_agree<A: AsAcc, B: AsAcc>(
    cpu: &CpuFeatures,
    cache: &mut PackCache,
    a: &[A],
    b: &[B],
    addr: usize,
    m: usize,
    n: usize,
    k: usize,
    zp: &Zp,
    c: Vec<i32>,
    plain: Vec<i32>,
)
    requires
        call_ensures(gemm_on::<A, B>, (cpu, cache, a, b, addr, m, n, k, zp), c),
        call_ensures(gemm_with_zp::<A, B>, (a, b, m, n, k, zp), plain),
    ensures
        c@ == plain@,
{
    assert(c@ =~= plain@);
}

/// The correction that is applied: every entry loses
/// `za * sum_b + sum_a * zb - k * za * zb`, up to a multiple of 2^32.
pub proof fn law_correction_is_applied(
    c: &mut [i32],
    m: usize,
    n: usize,
    k: usize,
    sum_a: &[i32],
    sum_b: &[i32],
    zp: &Zp,
    i: int,
    j: int,
    za: int,
    zb: int,
)
    requires
        call_ensures(apply_zp, (c, m, n, k, sum_a, sum_b, zp), ()),
        old(c)@.len() == m * n,
        0 <= i < m,
        0 <= j < n,
        sum_a@.len() > i,
        sum_b@.len() > j,
        match zp.za {
            ZpLane::Zero => za == 0,
            ZpLane::Scalar(s) => za == s,
            ZpLane::Per(v) => za == v@[i],
        },
        match zp.zb {
            ZpLane::Zero => zb == 0,
            ZpLane::Scalar(s) => zb == s,
            ZpLane::Per(v) => zb == v@[j],
        },
    ensures
        (final(c)@[i * n + j] - (old(c)@[i * n + j] - za * sum_b@[j] - sum_a@[i] * zb + k * za * zb))
            % 0x1_0000_0000 == 0,
{
    lemma_in_matrix(i, j, m as int, n as int);
    let p = i * n + j;
    assert(final(c)@[p] == corrected(
        old(c)@,
        sum_a@,
        sum_b@,
        *zp,
        n as int,
        k as int,
        p,
    ));
    law_correction(old(c)@, sum_a@, sum_b@, *zp, n as int, k as int, i, j, za, zb);
}

/// What is kept between calls is what would be worked out anew.
pub proof fn law_kept_is_fresh(
    cache: &mut PackCache,
    other: &mut PackCache,
    addr: usize,
    b: &[u8],
    n: usize,
    k: usize,
    signed: bool,
    kept: Arc<Vec<u8>>,
    packed: Vec<u8>,
    kept_sums: Arc<Vec<i32>>,
    sums: Vec<i32>,
)
    requires
        call_ensures(PackCache::cached_pack_b, (cache, addr, b, n, k), kept),
        call_ensures(pack_b_amx, (b, n, k), packed),
        call_ensures(PackCache::cached_sum_cols, (other, addr, b, k, n, signed), kept_sums),
        call_ensures(sum_cols_u8, (b, k, n, signed), sums),
    ensures
        kept@ == packed@,
        kept_sums@ == sums@,
{
    assert(kept@ =~= packed@);
    assert(kept_sums@ =~= sums@);
}

} // verus!
