use burn_e5q::gemm::acc::AsAcc;
use burn_e5q::gemm::amx::{cpu_has_amx_int8, pack_b_amx, tile_config};
use burn_e5q::gemm::bytes::sum_cols_u8;
use burn_e5q::gemm::cache::{buf_tag, PackCache};
use burn_e5q::gemm::dispatch::{
    gemm, gemm_on, gemm_u8u8_into, gemm_with_zp, try_amx, try_vnni, CpuFeatures,
};
use burn_e5q::gemm::tiled::{gemm_row_tile, gemm_serial, gemm_tiled, worth_splitting};
use burn_e5q::gemm::vnni::{dpbusd, pack4, unpack};
use burn_e5q::gemm::zp::{sum_cols, sum_rows, Zp, ZpLane};

fn naive<A: AsAcc, B: AsAcc>(a: &[A], b: &[B], m: usize, n: usize, k: usize) -> Vec<i32> {
    let mut c = vec![0i32; m * n];
    for i in 0..m {
        for kk in 0..k {
            let av = a[i * k + kk].as_acc();
            for j in 0..n {
                c[i * n + j] = c[i * n + j].wrapping_add(av.wrapping_mul(b[kk * n + j].as_acc()));
            }
        }
    }
    c
}

fn naive_zp<A: AsAcc, B: AsAcc>(
    a: &[A],
    b: &[B],
    m: usize,
    n: usize,
    k: usize,
    zp: &Zp,
) -> Vec<i32> {
    let mut c = vec![0i32; m * n];
    for i in 0..m {
        let za = zp.za.at(i);
        for j in 0..n {
            let zb = zp.zb.at(j);
            let mut acc = 0i32;
            for kk in 0..k {
                let av = a[i * k + kk].as_acc().wrapping_sub(za);
                let bv = b[kk * n + j].as_acc().wrapping_sub(zb);
                acc = acc.wrapping_add(av.wrapping_mul(bv));
            }
            c[i * n + j] = acc;
        }
    }
    c
}

#[test]
fn gemm_u8_i8_matches_naive_ragged() {
    let m = 17;
    let n = 31;
    let k = 19;
    let a: Vec<u8> = (0..m * k).map(|i| (i * 7 + 3) as u8).collect();
    let b: Vec<i8> = (0..k * n).map(|i| ((i * 5) as i16 - 80) as i8).collect();
    assert_eq!(gemm(&a, &b, m, n, k), naive(&a, &b, m, n, k));
}

#[test]
fn gemm_i8_i8_matches_naive() {
    let m = 9;
    let n = 21;
    let k = 13;
    let a: Vec<i8> = (0..m * k).map(|i| ((i as i16 * 3) - 40) as i8).collect();
    let b: Vec<i8> = (0..k * n).map(|i| ((i as i16 * 5) - 90) as i8).collect();
    assert_eq!(gemm(&a, &b, m, n, k), naive(&a, &b, m, n, k));
}

#[test]
fn gemm_u8_u8_matches_naive() {
    let m = 8;
    let n = 18;
    let k = 11;
    let a: Vec<u8> = (0..m * k).map(|i| (i * 9) as u8).collect();
    let b: Vec<u8> = (0..k * n).map(|i| (i * 3 + 1) as u8).collect();
    assert_eq!(gemm(&a, &b, m, n, k), naive(&a, &b, m, n, k));
}

#[test]
fn gemm_i32_matches_naive_e5_like() {
    let m = 8;
    let n = 64;
    let k = 32;
    let a: Vec<i32> = (0..m * k).map(|i| (i as i32 % 17) - 8).collect();
    let b: Vec<i32> = (0..k * n).map(|i| (i as i32 % 13) - 6).collect();
    assert_eq!(gemm(&a, &b, m, n, k), naive(&a, &b, m, n, k));
}

#[test]
fn gemm_k_zero_is_empty_product() {
    let a: [u8; 0] = [];
    let b: [i8; 0] = [];
    assert_eq!(gemm(&a, &b, 3, 4, 0), vec![0i32; 12]);
}

#[test]
fn gemm_parallel_path_matches_naive() {
    // ops = 80*96*1280, about 9.8e6, and m > MC, so the split by rows applies.
    let m = 80;
    let n = 96;
    let k = 1280;
    assert!(worth_splitting(m, n, k));
    let a: Vec<u8> = (0..m * k).map(|i| i as u8).collect();
    let b: Vec<i8> = (0..k * n).map(|i| (i as i16 - 64) as i8).collect();
    assert_eq!(gemm(&a, &b, m, n, k), naive(&a, &b, m, n, k));
}

#[test]
fn gemm_scalar_zp_matches_centered_naive() {
    let m = 17;
    let n = 31;
    let k = 19;
    let a: Vec<u8> = (0..m * k).map(|i| (i * 7 + 3) as u8).collect();
    let b: Vec<i8> = (0..k * n).map(|i| ((i * 5) as i16 - 80) as i8).collect();
    let zp = Zp {
        za: ZpLane::Scalar(17),
        zb: ZpLane::Scalar(-3),
    };
    assert_eq!(
        gemm_with_zp(&a, &b, m, n, k, &zp),
        naive_zp(&a, &b, m, n, k, &zp)
    );
}

#[test]
fn gemm_per_col_zb_matches_centered_naive() {
    let m = 8;
    let n = 20;
    let k = 12;
    let a: Vec<u8> = (0..m * k).map(|i| (i * 11) as u8).collect();
    let b: Vec<i8> = (0..k * n).map(|i| ((i as i16) - 40) as i8).collect();
    let zb: Vec<i32> = (0..n).map(|j| (j as i32 % 7) - 3).collect();
    let zp = Zp {
        za: ZpLane::Scalar(5),
        zb: ZpLane::Per(zb),
    };
    assert_eq!(
        gemm_with_zp(&a, &b, m, n, k, &zp),
        naive_zp(&a, &b, m, n, k, &zp)
    );
}

#[test]
fn gemm_amx_aligned_u8_i8_matches_naive() {
    // 16x16x64 is one tile; 64x64x384 is a projection panel; 32x1536x384 is a
    // short feed-forward product.
    for (m, n, k) in [(16, 16, 64), (64, 64, 384), (32, 1536, 384)] {
        let a: Vec<u8> = (0..m * k).map(|i| (i * 13 + 9) as u8).collect();
        let b: Vec<i8> = (0..k * n).map(|i| ((i * 7) as i16 - 100) as i8).collect();
        let zp = Zp {
            za: ZpLane::Scalar(17),
            zb: ZpLane::Scalar(-3),
        };
        assert_eq!(
            gemm(&a, &b, m, n, k),
            naive(&a, &b, m, n, k),
            "no-zp {m}x{n}x{k}"
        );
        assert_eq!(
            gemm_with_zp(&a, &b, m, n, k, &zp),
            naive_zp(&a, &b, m, n, k, &zp),
            "zp {m}x{n}x{k}"
        );
        let mut cache = PackCache::new();
        let tile = try_amx(&a, &b, b.as_ptr() as usize, m, n, k, &zp, true, &mut cache);
        assert_eq!(tile, Some(naive_zp(&a, &b, m, n, k, &zp)), "tiles {m}x{n}x{k}");
    }
}

#[test]
fn gemm_e5_like_u8_i8_head() {
    let m = 16;
    let n = 64;
    let k = 32;
    let a: Vec<u8> = (0..m * k).map(|i| (i * 13 + 9) as u8).collect();
    let b: Vec<i8> = (0..k * n).map(|i| ((i * 7) as i16 - 100) as i8).collect();
    let zp = Zp {
        za: ZpLane::Scalar(128),
        zb: ZpLane::Scalar(0),
    };
    assert_eq!(
        gemm_with_zp(&a, &b, m, n, k, &zp),
        naive_zp(&a, &b, m, n, k, &zp)
    );
}

fn processors() -> Vec<CpuFeatures> {
    let mut v = Vec::new();
    for bits in 0..16u32 {
        v.push(CpuFeatures {
            avx512f: bits & 1 != 0,
            avx512bw: bits & 2 != 0,
            avx512vnni: bits & 4 != 0,
            amx_int8: bits & 8 != 0,
        });
    }
    v
}

fn lanes(len: usize) -> Vec<ZpLane> {
    vec![
        ZpLane::Zero,
        ZpLane::Scalar(-7),
        ZpLane::Per((0..len).map(|i| (i as i32 * 3) % 11 - 5).collect()),
    ]
}

fn every_path_agrees<A: AsAcc, B: AsAcc>(a: &[A], b: &[B], m: usize, n: usize, k: usize) {
    for za in lanes(m) {
        for zb in lanes(n) {
            let zp = Zp {
                za: za.clone(),
                zb,
            };
            let want = naive_zp(a, b, m, n, k, &zp);
            for cpu in processors() {
                let mut cache = PackCache::new();
                let addr = b.as_ptr() as usize;
                let got = gemm_on(&cpu, &mut cache, a, b, addr, m, n, k, &zp);
                assert_eq!(got, want, "{cpu:?} {m}x{n}x{k}");
                // Again, with what the first call left in the cache.
                let again = gemm_on(&cpu, &mut cache, a, b, addr, m, n, k, &zp);
                assert_eq!(again, want, "cached {cpu:?} {m}x{n}x{k}");
            }
        }
    }
}

#[test]
fn every_path_agrees_on_every_processor() {
    for (m, n, k) in [(16, 16, 64), (32, 32, 128), (3, 17, 5), (1, 1, 1), (5, 33, 7)] {
        let au: Vec<u8> = (0..m * k).map(|i| (i * 37 + 200) as u8).collect();
        let bu: Vec<u8> = (0..k * n).map(|i| (i * 91 + 130) as u8).collect();
        let ai: Vec<i8> = au.iter().map(|x| *x as i8).collect();
        let bi: Vec<i8> = bu.iter().map(|x| *x as i8).collect();
        every_path_agrees(&au, &bu, m, n, k);
        every_path_agrees(&au, &bi, m, n, k);
        every_path_agrees(&ai, &bu, m, n, k);
        every_path_agrees(&ai, &bi, m, n, k);
        let aw: Vec<i32> = au.iter().map(|x| *x as i32 * 1_000_003).collect();
        every_path_agrees(&aw, &bi, m, n, k);
    }
}

#[test]
fn products_wrap_around() {
    let a = [i32::MAX, i32::MAX];
    let b = [i32::MAX, 2];
    // MAX * MAX is 1 modulo 2^32 and MAX * 2 is -2.
    assert_eq!(gemm(&a, &b, 1, 1, 2), vec![-1]);
    assert_eq!(gemm_with_zp(&[0u8], &[1u8], 1, 1, 1, &Zp { za: ZpLane::Scalar(i32::MIN), zb: ZpLane::Zero }), vec![i32::MIN]);
}

#[test]
fn known_products() {
    assert_eq!(gemm(&[1u8, 2, 3, 4, 5, 6], &[7u8, 8, 9, 10, 11, 12], 2, 2, 3), vec![58, 64, 139, 154]);
    let zp = Zp {
        za: ZpLane::Per(vec![1, 2]),
        zb: ZpLane::Per(vec![0, 3]),
    };
    // Rows 0 1 2 and 2 3 4 against columns 7 9 11 and 5 7 9.
    assert_eq!(
        gemm_with_zp(&[1u8, 2, 3, 4, 5, 6], &[7u8, 8, 9, 10, 11, 12], 2, 2, 3, &zp),
        vec![31, 25, 85, 67]
    );
}

#[test]
fn empty_shapes_have_empty_products() {
    let none: [u8; 0] = [];
    assert!(gemm(&none, &[1u8, 2], 0, 2, 1).is_empty());
    assert!(gemm(&[1u8, 2], &none, 2, 0, 1).is_empty());
    let zp = Zp {
        za: ZpLane::Scalar(9),
        zb: ZpLane::Scalar(9),
    };
    assert_eq!(gemm_with_zp(&none, &none, 2, 2, 0, &zp), vec![0; 4]);
}

#[test]
fn paths_decline_what_they_cannot_do() {
    let zp = Zp::none();
    let mut cache = PackCache::new();
    assert!(try_vnni(&[1i32], &[1u8], 1, 1, 1, &zp).is_none());
    assert!(try_vnni(&[1u8], &[1i32], 1, 1, 1, &zp).is_none());
    assert_eq!(try_vnni(&[2u8], &[-3i8], 1, 1, 1, &zp), Some(vec![-6]));
    // No whole tile, or no tile unit.
    assert!(try_amx(&[1u8], &[1i8], 0, 1, 1, 1, &zp, true, &mut cache).is_none());
    let a = [1u8; 16 * 64];
    let b = [1i8; 64 * 16];
    assert!(try_amx(&a, &b, 0, 16, 16, 64, &zp, false, &mut cache).is_none());
    assert_eq!(try_amx(&a, &b, 0, 16, 16, 64, &zp, true, &mut cache), Some(vec![64; 256]));
    assert!(Zp::none().is_none());
    assert!(ZpLane::Per(vec![0, 0]).is_zero());
    assert!(!ZpLane::Per(vec![0, 1]).is_zero());
}

#[test]
fn bytes_into_a_buffer() {
    let (m, n, k) = (6, 20, 9);
    let a: Vec<u8> = (0..m * k).map(|i| (i * 29) as u8).collect();
    let b: Vec<u8> = (0..k * n).map(|i| (i * 41 + 7) as u8).collect();
    let zp = Zp {
        za: ZpLane::Scalar(128),
        zb: ZpLane::Scalar(77),
    };
    let want = naive_zp(&a, &b, m, n, k, &zp);
    for cpu in processors() {
        let mut out = vec![123i32; m * n];
        gemm_u8u8_into(&cpu, &a, &b, m, n, k, &zp, &mut out);
        assert_eq!(out, want, "{cpu:?}");
    }
}

#[test]
fn row_tiles_make_the_whole() {
    let (m, n, k) = (130, 9, 12);
    let a: Vec<i8> = (0..m * k).map(|i| (i * 31) as i8).collect();
    let b: Vec<i8> = (0..k * n).map(|i| (i * 17) as i8).collect();
    let zp = Zp {
        za: ZpLane::Per((0..m).map(|i| i as i32 - 60).collect()),
        zb: ZpLane::Scalar(4),
    };
    let whole = gemm_tiled(&a, &b, m, n, k, &zp);
    assert_eq!(whole, naive_zp(&a, &b, m, n, k, &zp));
    let sum_a = sum_rows(&a, m, k);
    let sum_b = sum_cols(&b, k, n);
    let mut parts: Vec<i32> = Vec::new();
    let mut i0 = 0;
    while i0 < m {
        let mb = if m - i0 < 64 { m - i0 } else { 64 };
        parts.extend(gemm_row_tile(&a, &b, m, n, k, i0, mb, &zp, &sum_a, &sum_b));
        i0 += mb;
    }
    assert_eq!(parts, whole);
}

#[test]
fn sums_of_rows_and_columns() {
    let x = [1i8, -2, 3, -4, 5, -6];
    assert_eq!(sum_rows(&x, 2, 3), vec![2, -5]);
    assert_eq!(sum_cols(&x, 2, 3), vec![-3, 3, -3]);
}

#[test]
fn four_byte_groups() {
    let d = pack4(0x11, 0x22, 0x33, 0x44);
    assert_eq!(d, 0x4433_2211);
    assert_eq!((0..4).map(|t| unpack(d, t)).collect::<Vec<_>>(), vec![0x11, 0x22, 0x33, 0x44]);
    // 200*1 + 1*(-1) + 2*127 + 3*(-128), on top of 5.
    let a = pack4(200, 1, 2, 3);
    let b = pack4(1, 0xff, 127, 0x80);
    assert_eq!(dpbusd(5, a, b), 5 + 200 - 1 + 254 - 384);
}

#[test]
fn tiles_are_described_and_packed() {
    let cfg = tile_config();
    let set: Vec<(usize, u8)> = (0..64).map(|i| (i, cfg[i])).filter(|p| p.1 != 0).collect();
    assert_eq!(
        set,
        vec![(0, 1), (16, 64), (18, 64), (20, 64), (48, 16), (49, 16), (50, 16)]
    );
    assert!(cpu_has_amx_int8((1 << 24) | (1 << 25)));
    assert!(!cpu_has_amx_int8(1 << 24));
    assert!(!cpu_has_amx_int8(0));
    // Four consecutive rows of a column lie together.
    let b: Vec<u8> = (0..64 * 16).map(|i| (i % 251) as u8).collect();
    let packed = pack_b_amx(&b, 16, 64);
    assert_eq!(packed.len(), 1024);
    assert_eq!(&packed[0..4], &[b[0], b[16], b[32], b[48]]);
    assert_eq!(&packed[4..8], &[b[1], b[17], b[33], b[49]]);
}

#[test]
fn packs_are_kept_and_bounded() {
    let mut cache = PackCache::new();
    let b: Vec<u8> = (0..64 * 16).map(|i| (i * 3) as u8).collect();
    let first = cache.cached_pack_b(1, &b, 16, 64);
    assert_eq!(*first, pack_b_amx(&b, 16, 64));
    assert_eq!(*cache.cached_pack_b(1, &b, 16, 64), *first);
    let sums = cache.cached_sum_cols(1, &b, 64, 16, true);
    assert_eq!(sums.len(), 16);
    assert_eq!(*cache.cached_sum_cols(1, &b, 64, 16, true), *sums);
    assert_ne!(*cache.cached_sum_cols(1, &b, 64, 16, false), *sums);
    for addr in 2..300 {
        assert_eq!(*cache.cached_pack_b(addr, &b, 16, 64), *first);
    }
    // Other bytes at the same place, with the same fingerprint.
    let mut other = b.clone();
    other[100] ^= 0x55;
    assert_eq!(buf_tag(&other), buf_tag(&b));
    let mut cache = PackCache::new();
    for x in [&b, &other, &b] {
        assert_eq!(*cache.cached_pack_b(1, x, 16, 64), pack_b_amx(x, 16, 64));
        let sums = cache.cached_sum_cols(1, x, 64, 16, true);
        assert_eq!(*sums, sum_cols_u8(x, 64, 16, true));
    }
    assert_ne!(buf_tag(&b), buf_tag(&b[1..]));
    assert_eq!(buf_tag(&[]), 0);
    assert_eq!(buf_tag(&[1, 2, 3]), 3);
    assert_eq!(buf_tag(&[1, 0, 0, 0, 0, 0, 0, 0]), 8);
}

#[test]
fn serial_product_leaves_what_lies_behind() {
    let (m, n, k) = (2, 3, 2);
    let a = [1u8, 2, 3, 4];
    let b = [1i8, 2, 3, 4, 5, 6];
    let mut c = vec![10i32, 10, 10, 10, 10, 10, 7, -7];
    gemm_serial(&a, &b, &mut c, m, n, k);
    assert_eq!(c, [19, 22, 25, 29, 36, 43, 7, -7]);
}
