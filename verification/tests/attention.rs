use burn_e5q::attention::int8::{head_scores, transpose_u8};
use burn_e5q::attention::mask::{row_rules, tile_rules, ScoreRule};
use burn_e5q::attention::plan::{
    heads_per_task, should_use_d32, should_use_int8, task_heads, tiles, AttentionOptions, Dims,
    HeadParams, Operand, Steps, D,
};
use burn_e5q::gemm::dispatch::CpuFeatures;
use burn_e5q::ir::DType;

fn operand(shape: &[usize]) -> Operand {
    Operand {
        dtype: DType::F32,
        shape: shape.to_vec(),
    }
}

fn plain() -> AttentionOptions {
    AttentionOptions {
        has_softcap: false,
        is_causal: false,
    }
}

fn vnni() -> CpuFeatures {
    CpuFeatures {
        avx512f: true,
        avx512bw: true,
        avx512vnni: true,
        amx_int8: false,
    }
}

fn cosine(a: &[f32], b: &[f32]) -> f32 {
    let mut dot = 0.0f32;
    let mut na = 0.0f32;
    let mut nb = 0.0f32;
    for (&x, &y) in a.iter().zip(b) {
        dot += x * y;
        na += x * x;
        nb += y * y;
    }
    dot / (na.sqrt() * nb.sqrt()).max(1e-12)
}

#[test]
fn d32_stays_off_for_short_seq() {
    let q = operand(&[1, 1, 8, D]);
    assert!(!should_use_d32(&q, &q, &q, &plain(), true));
}

#[test]
fn int8_flash_stays_off_for_short_seq() {
    let q = operand(&[1, 1, 8, 32]);
    assert!(!should_use_int8(&q, &q, &q, &plain(), &vnni()));
}

#[test]
fn gates_read_every_condition() {
    let q = operand(&[1, 2, 64, 32]);
    assert!(should_use_d32(&q, &q, &q, &plain(), true));
    assert!(!should_use_d32(&q, &q, &q, &plain(), false));
    let capped = AttentionOptions {
        has_softcap: true,
        is_causal: false,
    };
    assert!(!should_use_d32(&q, &q, &q, &capped, true));
    assert!(!should_use_d32(&q, &q, &operand(&[1, 2, 64, 16]), &plain(), true));
    assert!(!should_use_d32(&q, &operand(&[1, 2, 63, 32]), &q, &plain(), true));
    assert!(!should_use_d32(&operand(&[2, 64, 32]), &q, &q, &plain(), true));
    let half = Operand {
        dtype: DType::F16,
        shape: vec![1, 2, 64, 32],
    };
    assert!(!should_use_d32(&q, &half, &q, &plain(), true));

    let long = operand(&[1, 2, 256, 20]);
    assert!(should_use_int8(&long, &long, &long, &plain(), &vnni()));
    assert!(!should_use_int8(&long, &long, &long, &plain(), &CpuFeatures::baseline()));
    assert!(!should_use_int8(&long, &long, &long, &capped, &vnni()));
    for dim in [12, 18] {
        let odd = operand(&[1, 2, 256, dim]);
        assert!(!should_use_int8(&odd, &odd, &odd, &plain(), &vnni()));
    }
}

/// Largest and smallest value, widened to hold zero, in 255 steps.
fn quantized(x: &[f32]) -> (Vec<u8>, f32, u8) {
    let lo = x.iter().copied().fold(0.0f32, f32::min);
    let hi = x.iter().copied().fold(0.0f32, f32::max);
    let scale = (hi - lo) / 255.0;
    let zp = (0.0 - lo / scale).round_ties_even().clamp(0.0, 255.0);
    let y = x
        .iter()
        .map(|v| ((v / scale).round_ties_even() + zp).clamp(0.0, 255.0) as u8)
        .collect();
    (y, scale, zp as u8)
}

fn softmax(row: &mut [f32]) {
    let max = row.iter().copied().fold(f32::NEG_INFINITY, f32::max);
    if max == f32::NEG_INFINITY {
        row.fill(0.0);
        return;
    }
    let mut sum = 0.0f32;
    for s in row.iter_mut() {
        *s = (*s - max).exp();
        sum += *s;
    }
    for s in row.iter_mut() {
        *s /= sum;
    }
}

fn weigh(p: &[f32], v: &[f32], dim: usize, out: &mut [f32]) {
    for (pk, row) in p.iter().zip(v.chunks(dim)) {
        for (o, x) in out.iter_mut().zip(row) {
            *o += pk * x;
        }
    }
}

fn e5_like(n: usize) -> (Vec<f32>, Vec<f32>, Vec<f32>) {
    (
        (0..n).map(|i| ((i % 97) as f32) * 0.02 - 0.7).collect(),
        (0..n).map(|i| ((i % 89) as f32) * 0.017 - 0.4).collect(),
        (0..n).map(|i| ((i % 83) as f32) * 0.013 - 0.2).collect(),
    )
}

fn naive_head(
    q: &[f32],
    k: &[f32],
    v: &[f32],
    bias: Option<&[f32]>,
    seq: usize,
    dim: usize,
) -> Vec<f32> {
    let scale = 1.0 / (dim as f32).sqrt();
    let mut out = vec![0.0f32; seq * dim];
    for i in 0..seq {
        let mut row: Vec<f32> = (0..seq)
            .map(|j| {
                let dot: f32 = (0..dim).map(|d| q[i * dim + d] * k[j * dim + d]).sum();
                dot * scale + bias.map_or(0.0, |b| b[j])
            })
            .collect();
        softmax(&mut row);
        weigh(&row, v, dim, &mut out[i * dim..(i + 1) * dim]);
    }
    out
}

#[test]
fn int8_flash_close_to_f32_naive_e5_like() {
    let (batch, heads, seq, dim) = (1, 2, 256, 32);
    let n = batch * heads * seq * dim;
    let (q, k, v) = e5_like(n);
    let shape = operand(&[batch, heads, seq, dim]);
    assert!(should_use_int8(&shape, &shape, &shape, &plain(), &vnni()));

    let d = Dims::of(&shape.shape, &shape.shape, &shape.shape);
    let p = HeadParams::new(&d, None, None, &plain());
    let mut got = vec![0.0f32; n];
    let mut want = vec![0.0f32; n];
    for h in 0..heads {
        let at = p.head_offsets(&d, 0, h);
        let (qh, kh, vh) = (
            &q[at.q..at.q + p.q_head_stride],
            &k[at.k..at.k + p.k_head_stride],
            &v[at.v..at.v + p.v_head_stride],
        );
        let (q8, q_scale, q_zp) = quantized(qh);
        let (k8, k_scale, k_zp) = quantized(kh);
        let scores = head_scores(&vnni(), &q8, &k8, q_zp, k_zp, seq, seq, dim);
        let score_scale = q_scale * k_scale / (dim as f32).sqrt();
        let o = h * p.o_head_stride;
        for qi in 0..seq {
            let mut row: Vec<f32> = (0..seq)
                .map(|ki| scores[qi * seq + ki] as f32 * score_scale)
                .collect();
            softmax(&mut row);
            weigh(&row, vh, dim, &mut got[o + qi * dim..o + (qi + 1) * dim]);
        }
        want[o..o + p.o_head_stride].copy_from_slice(&naive_head(qh, kh, vh, None, seq, dim));
    }
    let cos = cosine(&got, &want);
    assert!(cos > 0.98, "int8 flash vs f32 naive cosine {cos} (expected > 0.98)");
}

#[test]
fn d32_flash_partial_tile_and_bias() {
    let seq = 100;
    let (q, k, v) = e5_like(seq * D);
    let bias: Vec<f32> = (0..seq).map(|i| if i < 10 { -1.0e4 } else { 0.0 }).collect();
    let scale = 1.0 / (D as f32).sqrt();
    let mut out = vec![0.0f32; seq * D];
    let mut row_max = vec![f32::NEG_INFINITY; seq];
    let mut row_sum = vec![0.0f32; seq];
    for (start, len) in tiles(seq) {
        for qi in 0..seq {
            let mut row: Vec<f32> = (start..start + len)
                .map(|j| scale * (0..D).map(|d| q[qi * D + d] * k[j * D + d]).sum::<f32>())
                .collect();
            let rules = tile_rules(None, seq, Some(seq), 0, None, seq, seq, qi, start, len);
            for (s, rule) in row.iter_mut().zip(&rules) {
                match rule {
                    ScoreRule::Keep => {}
                    ScoreRule::AddBias(at) => *s += bias[*at],
                    ScoreRule::Hide | ScoreRule::HideThenAddBias(_) => *s = f32::NEG_INFINITY,
                }
            }
            let tile_max = row.iter().copied().fold(f32::NEG_INFINITY, f32::max);
            let new_max = row_max[qi].max(tile_max);
            let correction = (row_max[qi] - new_max).exp();
            let o = &mut out[qi * D..(qi + 1) * D];
            for x in o.iter_mut() {
                *x *= correction;
            }
            for s in row.iter_mut() {
                *s = (*s - new_max).exp();
            }
            row_sum[qi] = row_sum[qi] * correction + row.iter().sum::<f32>();
            row_max[qi] = new_max;
            weigh(&row, &v[start * D..], D, o);
        }
    }
    for qi in 0..seq {
        for x in &mut out[qi * D..(qi + 1) * D] {
            *x /= row_sum[qi];
        }
    }
    let cos = cosine(&out, &naive_head(&q, &k, &v, Some(&bias), seq, D));
    assert!(cos > 0.999, "partial-tile+bias cosine {cos}");
}

#[test]
fn heads_lie_one_after_another() {
    let d = Dims {
        batch: 2,
        heads: 6,
        kv_heads: 2,
        seq_q: 5,
        seq_kv: 7,
        head_dim: 4,
        val_dim: 3,
    };
    let causal = AttentionOptions {
        has_softcap: false,
        is_causal: true,
    };
    let mask = Steps {
        batch_step: 35,
        head_step: 0,
        q_step: 7,
        tile_len: 35,
    };
    let p = HeadParams::new(&d, Some(mask), None, &causal);
    assert_eq!(p.causal_offset, Some(2));
    assert_eq!(p.q_per_kv, 3);
    assert_eq!((p.q_head_stride, p.q_batch_stride), (20, 120));
    assert_eq!((p.k_head_stride, p.k_batch_stride), (28, 56));
    assert_eq!((p.v_head_stride, p.v_batch_stride), (21, 42));
    assert_eq!(p.o_head_stride, 15);
    assert_eq!(p.bias.q_step, 7);
    assert_eq!(p.bias.tile_len, 0);
    let at = p.head_offsets(&d, 1, 4);
    // Query block 10, and key/value block 3: heads 3 to 5 read the second.
    assert_eq!((at.q, at.k, at.v), (200, 84, 63));
    assert_eq!((at.mask, at.bias), (35, 0));
    let fewer = HeadParams::new(&Dims { seq_q: 9, ..d }, None, None, &causal);
    assert_eq!(fewer.causal_offset, Some(-2));
    assert_eq!(HeadParams::new(&d, None, None, &plain()).causal_offset, None);
}

#[test]
fn tasks_share_out_the_heads() {
    for (batch, heads, threads) in [(8, 12, 4), (1, 12, 5), (3, 1, 8), (2, 2, 1), (1, 1, 0)] {
        let n = batch * heads;
        let per = heads_per_task(n, threads);
        let mut all = Vec::new();
        let mut task = 0;
        loop {
            let mine = task_heads(batch, heads, per, task);
            if mine.is_empty() {
                break;
            }
            all.extend(mine);
            task += 1;
        }
        let want: Vec<(usize, usize)> =
            (0..batch).flat_map(|b| (0..heads).map(move |h| (b, h))).collect();
        assert_eq!(all, want);
        assert!(task <= threads.max(1));
    }
    assert_eq!(heads_per_task(96, 4), 24);
    assert_eq!(heads_per_task(97, 4), 25);
    assert_eq!(heads_per_task(0, 4), 1);
    assert!(task_heads(2, 3, usize::MAX, usize::MAX).is_empty());
}

#[test]
fn keys_are_cut_into_tiles() {
    assert_eq!(tiles(0), vec![]);
    assert_eq!(tiles(64), vec![(0, 64)]);
    assert_eq!(tiles(100), vec![(0, 64), (64, 36)]);
    assert_eq!(tiles(129), vec![(0, 64), (64, 64), (128, 1)]);
}

#[test]
fn masks_and_causality_hide_scores() {
    // Two queries, three keys; query 0 may not see key 1.
    let mask = [0u8, 1, 0, 0, 0, 0];
    let rows: Vec<Vec<ScoreRule>> = (0..2)
        .map(|qi| row_rules(Some(&mask), 3, Some(3), 0, Some(1), 2, 3, qi))
        .collect();
    assert_eq!(
        rows[0],
        vec![
            ScoreRule::AddBias(0),
            ScoreRule::HideThenAddBias(1),
            ScoreRule::HideThenAddBias(2)
        ]
    );
    assert_eq!(
        rows[1],
        vec![ScoreRule::AddBias(0), ScoreRule::AddBias(1), ScoreRule::AddBias(2)]
    );
    let tiled = tile_rules(Some(&mask), 3, Some(6), 3, Some(1), 2, 3, 0, 1, 2);
    assert_eq!(tiled, vec![ScoreRule::Hide, ScoreRule::Hide]);
    let tiled = tile_rules(Some(&mask), 3, Some(6), 3, Some(1), 2, 3, 1, 1, 2);
    assert_eq!(tiled, vec![ScoreRule::AddBias(4), ScoreRule::AddBias(5)]);
    assert_eq!(
        row_rules(None, 0, None, 0, Some(0), 3, 3, 1),
        vec![ScoreRule::Keep, ScoreRule::Keep, ScoreRule::Hide]
    );
    // More queries than keys: the first queries see nothing.
    assert_eq!(row_rules(None, 0, None, 0, Some(-2), 3, 1, 0), vec![ScoreRule::Hide]);
    assert_eq!(row_rules(None, 0, None, 0, Some(-2), 3, 1, 2), vec![ScoreRule::Keep]);
}

#[test]
fn transposes_are_undone_by_transposing() {
    let src = [1u8, 2, 3, 4, 5, 6];
    let mut t = [0u8; 6];
    transpose_u8(&src, 2, 3, &mut t);
    assert_eq!(t, [1, 4, 2, 5, 3, 6]);
    let mut back = [0u8; 6];
    transpose_u8(&t, 3, 2, &mut back);
    assert_eq!(back, src);
}

#[test]
fn scores_are_centred_products() {
    let q = [10u8, 20, 30, 40];
    let k = [1u8, 2, 3, 4, 255, 0];
    let want = vec![
        (10 - 15) * (1 - 2) + (20 - 15) * (2 - 2),
        (10 - 15) * (3 - 2) + (20 - 15) * (4 - 2),
        (10 - 15) * (255 - 2) + (20 - 15) * (0 - 2),
        (30 - 15) * (1 - 2) + (40 - 15) * (2 - 2),
        (30 - 15) * (3 - 2) + (40 - 15) * (4 - 2),
        (30 - 15) * (255 - 2) + (40 - 15) * (0 - 2),
    ];
    for cpu in [CpuFeatures::baseline(), vnni()] {
        assert_eq!(head_scores(&cpu, &q, &k, 15, 2, 2, 3, 2), want);
    }
}
