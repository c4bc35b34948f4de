//! Which path a product takes, and the products themselves.

use vstd::prelude::*;
use crate::gemm::acc::{values, AsAcc};
use crate::gemm::bytes::byte_values;
use crate::gemm::cache::PackCache;
use crate::gemm::model::dot;
use crate::gemm::tiled::gemm_tiled;
use crate::gemm::vnni::{col_tiles, groups};
use crate::gemm::zp::{is_product, Zp};
use crate::gemm::{amx, vnni};

verus! {

/// Features of the processor that choose a path.
#[derive(Clone, Copy, Debug, PartialEq, Eq, Structural)]
pub struct CpuFeatures {
    pub avx512f: bool,
    pub avx512bw: bool,
    pub avx512vnni: bool,
    /// The tile unit multiplies 8-bit tiles, and may be used.
    pub amx_int8: bool,
}

impl CpuFeatures {
    /// A processor without any of the features.
    pub fn baseline() -> (r: Self)
        ensures
            !r.avx512f && !r.avx512bw && !r.avx512vnni && !r.amx_int8,
    {
        CpuFeatures { avx512f: false, avx512bw: false, avx512vnni: false, amx_int8: false }
    }

    pub open spec fn has_vnni(self) -> bool {
        self.avx512f && self.avx512bw && self.avx512vnni
    }

    /// Whether the dot-product path can run.
    pub fn vnni_available(&self) -> (r: bool)
        ensures
            r == self.has_vnni(),
    {
        self.avx512f && self.avx512bw && self.avx512vnni
    }
}

/// The packed form of `B[k, n]` can be addressed.
pub open spec fn pack_fits(n: int, k: int) -> bool {
    col_tiles(n) * groups(k) * 16 <= usize::MAX
}

/// The product on the dot-product path, where both operands are 8-bit.
pub fn try_vnni<A: AsAcc, B: AsAcc>(
    a: &[A],
    b: &[B],
    m: usize,
    n: usize,
    k: usize,
    zp: &Zp,
) -> (r: Option<Vec<i32>>)
    requires
        a.len() == m * k,
        b.len() == k * n,
        m * n <= usize::MAX,
        pack_fits(n as int, k as int),
        zp.covers(m as int, n as int),
    ensures
        r is Some == (A::byte_form() is Some && B::byte_form() is Some),
        r matches Some(c) ==> is_product(
            c@,
            values(a@),
            values(b@),
            m as int,
            n as int,
            k as int,
            *zp,
        ),
{
    match (A::signedness(), B::signedness(), A::as_bytes(a), B::as_bytes(b)) {
        (Some(sa), Some(sb), Some(ab), Some(bb)) => {
            assert(byte_values(ab@, sa) =~= values(a@));
            assert(byte_values(bb@, sb) =~= values(b@));
            Some(vnni::gemm(ab, bb, m, n, k, !sa, sb, zp))
        },
        _ => None,
    }
}

/// The product on the tile unit, where both operands are 8-bit and the shape
/// is whole tiles. `addr` is where the buffer of B lies.
pub fn try_amx<A: AsAcc, B: AsAcc>(
    a: &[A],
    b: &[B],
    addr: usize,
    m: usize,
    n: usize,
    k: usize,
    zp: &Zp,
    available: bool,
    cache: &mut PackCache,
) -> (r: Option<Vec<i32>>)
    requires
        a.len() == m * k,
        b.len() == k * n,
        m * n <= usize::MAX,
        zp.covers(m as int, n as int),
        old(cache).wf(),
    ensures
        r is Some == (A::byte_form() is Some && B::byte_form() is Some && (m == 0 || n == 0 || (
        available && amx::tile_aligned(m as int, n as int, k as int)))),
        r matches Some(c) ==> is_product(
            c@,
            values(a@),
            values(b@),
            m as int,
            n as int,
            k as int,
            *zp,
        ),
        final(cache).wf(),
        B::byte_form() != Some(true) || r is None ==> *final(cache) == *old(cache),
{
    match (A::signedness(), B::signedness(), A::as_bytes(a), B::as_bytes(b)) {
        (Some(sa), Some(sb), Some(ab), Some(bb)) => {
            assert(byte_values(ab@, sa) =~= values(a@));
            assert(byte_values(bb@, sb) =~= values(b@));
            amx::gemm(ab, bb, addr, m, n, k, !sa, sb, zp, available, cache)
        },
        _ => None,
    }
}

/// `(A - za) @ (B - zb)` on the best path that the processor has: the tile
/// unit, then the dot-product path, then portable panels.
pub fn gemm_on<A: AsAcc, B: AsAcc>(
    cpu: &CpuFeatures,
    cache: &mut PackCache,
    a: &[A],
    b: &[B],
    addr: usize,
    m: usize,
    n: usize,
    k: usize,
    zp: &Zp,
) -> (c: Vec<i32>)
    requires
        a.len() == m * k,
        b.len() == k * n,
        m * n <= usize::MAX,
        cpu.has_vnni() ==> pack_fits(n as int, k as int),
        zp.covers(m as int, n as int),
        old(cache).wf(),
    ensures
        is_product(c@, values(a@), values(b@), m as int, n as int, k as int, *zp),
        final(cache).wf(),
        !cpu.amx_int8 || B::byte_form() != Some(true) ==> *final(cache) == *old(cache),
{
    if m == 0 || n == 0 {
        assert(m * n == 0) by (nonlinear_arith)
            requires
                m == 0 || n == 0,
        ;
        return Vec::new();
    }
    if k == 0 {
        return vec![0i32; m * n];
    }
    if cpu.amx_int8 {
        if let Some(out) = try_amx(a, b, addr, m, n, k, zp, true, cache) {
            return out;
        }
    }
    if cpu.vnni_available() {
        if let Some(out) = try_vnni(a, b, m, n, k, zp) {
            return out;
        }
    }
    gemm_tiled(a, b, m, n, k, zp)
}

/// `(A - za) @ (B - zb)` for row-major `A[m, k]` and `B[k, n]`.
pub fn gemm_with_zp<A: AsAcc, B: AsAcc>(
    a: &[A],
    b: &[B],
    m: usize,
    n: usize,
    k: usize,
    zp: &Zp,
) -> (c: Vec<i32>)
    requires
        a.len() == m * k,
        b.len() == k * n,
        m * n <= usize::MAX,
        zp.covers(m as int, n as int),
    ensures
        is_product(c@, values(a@), values(b@), m as int, n as int, k as int, *zp),
{
    let mut cache: PackCache = PackCache::new();
    gemm_on(&CpuFeatures::baseline(), &mut cache, a, b, 0, m, n, k, zp)
}

/// `A @ B` for row-major `A[m, k]` and `B[k, n]`.
pub fn gemm<A: AsAcc, B: AsAcc>(a: &[A], b: &[B], m: usize, n: usize, k: usize) -> (c: Vec<i32>)
    requires
        a.len() == m * k,
        b.len() == k * n,
        m * n <= usize::MAX,
    ensures
        c@.len() == m * n,
        forall|p: int|
            0 <= p < c@.len() ==> #[trigger] c@[p] == crate::arith::wrap32(
                dot(
                    values(a@),
                    values(b@),
                    n as int,
                    k as int,
                    p / (n as int),
                    p % (n as int),
                    0,
                    0,
                    k as nat,
                ),
            ),
{
    gemm_with_zp(a, b, m, n, k, &Zp::none())
}

/// `(A - za) @ (B - zb)` of unsigned bytes into `out[m, n]`.
pub fn gemm_u8u8_into(
    cpu: &CpuFeatures,
    a: &[u8],
    b: &[u8],
    m: usize,
    n: usize,
    k: usize,
    zp: &Zp,
    out: &mut [i32],
)
    requires
        a.len() == m * k,
        b.len() == k * n,
        old(out).len() == m * n,
        cpu.has_vnni() ==> pack_fits(n as int, k as int),
        zp.covers(m as int, n as int),
    ensures
        is_product(final(out)@, values(a@), values(b@), m as int, n as int, k as int, *zp),
{
    proof {
        assert(byte_values(a@, false) =~= values(a@));
        assert(byte_values(b@, false) =~= values(b@));
    }
    if m == 0 || n == 0 {
        assert(m * n == 0) by (nonlinear_arith)
            requires
                m == 0 || n == 0,
        ;
        return ;
    }
    if cpu.vnni_available() {
        vnni::gemm_into(a, b, m, n, k, true, false, zp, out);
        return ;
    }
    let mut unused: PackCache = PackCache::new();
    let tmp: Vec<i32> = gemm_on(cpu, &mut unused, a, b, 0, m, n, k, zp);
    let mut p: usize = 0;
    while p < tmp.len()
        invariant
            p <= tmp.len(),
            out@.len() == tmp@.len(),
            forall|q: int| 0 <= q < p ==> #[trigger] out@[q] == tmp@[q],
        decreases tmp.len() - p,
    {
        out[p] = tmp[p];
        p += 1;
    }
    assert(out@ =~= tmp@);
}

} // verus!
