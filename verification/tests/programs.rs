use burn_e5q::bench::{
    dummy_batch, macs, mismatches, number_or, parse_args, parse_usize, probe_ids, stress_rows,
    ArgError, RunArgs,
};
use burn_e5q::elementwise::{
    abs_bits, affine_path, broadcast_index, chopped, erf_region, num_elements, tail_mask, AffinePath, ErfRegion,
    TensorLayout,
};
use burn_e5q::ir::DType;
use burn_e5q::jit::{
    Answer, HostCall, HostProbe, KernelRequirements, PassCall, PassOutcome, PassRun,
};
use burn_e5q::procfs::{cpu_summary, field_words, CpuSummary};

fn strings(args: &[&str]) -> Vec<String> {
    args.iter().map(|a| a.to_string()).collect()
}

#[test]
fn numbers_are_those_of_the_standard_library() {
    for s in [
        "", "0", "7", "007", "+5", "-5", "-0", "+", "-", "12a", "1 2", " 1", "18446744073709551615",
        "18446744073709551616", "99999999999999999999999", "\u{0663}", "++1", "1_000",
    ] {
        assert_eq!(parse_usize(s), s.parse::<usize>().ok(), "{s:?}");
    }
    let args = strings(&["3", "x"]);
    assert_eq!(number_or(&args, 0, 10), 3);
    assert_eq!(number_or(&args, 1, 10), 10);
    assert_eq!(number_or(&args, 2, 4096), 4096);
}

#[test]
fn arguments() {
    let run = |a: &[&str]| parse_args(&strings(a));
    let ok = |rounds, budget, arena| RunArgs {
        rounds,
        budget,
        arena,
    };
    assert_eq!(run(&[]).unwrap(), ok(5, 2048, false));
    assert_eq!(run(&["--", "7", "1024"]).unwrap(), ok(7, 1024, false));
    assert_eq!(run(&["--arena", "--", "7"]).unwrap(), ok(7, 2048, true));
    assert_eq!(run(&["7", "--arena", "8", "extra"]).unwrap(), ok(7, 8, true));
    assert!(matches!(run(&["x"]), Err(ArgError::Rounds)));
    assert!(matches!(run(&["1", "x"]), Err(ArgError::Budget)));
    match run(&["x", "-v", "--what"]) {
        Err(ArgError::UnknownFlag(f)) => assert_eq!(f, "-v"),
        other => panic!("{other:?}"),
    }
    match run(&["-"]) {
        Err(ArgError::UnknownFlag(f)) => assert_eq!(f, "-"),
        other => panic!("{other:?}"),
    }
}

#[test]
fn probe_inputs() {
    assert_eq!(stress_rows(4096), 8);
    assert_eq!(stress_rows(2047), 3);
    assert_eq!(stress_rows(0), 1);
    let e = dummy_batch(2, 4);
    assert_eq!(e.input_ids, vec![0, 1, 1, 2, 0, 1, 1, 2]);
    assert_eq!(e.attention_mask, vec![1; 8]);
    assert_eq!(dummy_batch(1, 1).input_ids, vec![2]);
    assert_eq!(dummy_batch(0, 3).input_ids, Vec::<i64>::new());
    assert_eq!(dummy_batch(0, 0).encoding_length, 0);
    let ids = probe_ids(300_000);
    for (i, id) in ids.iter().enumerate() {
        assert_eq!(*id, (i as i32).wrapping_mul(7919).rem_euclid(250_037));
    }
    let m = macs(512);
    assert_eq!(m.projection, 512 * 384 * 384);
    assert_eq!(m.ffn1, 512 * 384 * 1536);
    assert_eq!(m.ffn2, 512 * 1536 * 384);
    assert_eq!(m.attention, 2 * 12 * 512 * 512 * 32);
    let got = vec![vec![1, 2], vec![3], vec![]];
    let want = vec![vec![1, 2], vec![3, 4], vec![]];
    assert_eq!(mismatches(&got, &want), vec![1]);
    assert_eq!(mismatches(&got, &got), Vec::<usize>::new());
}

#[test]
fn process_status() {
    let text = "Name:\tx\nVmHWM:\t  2048 kB\nVmRSS:\t1024 kB\nxVmRSS: 9\nVmRSS:\n";
    assert_eq!(field_words(text, "VmRSS:"), vec![Some("1024".to_string()), None]);
    assert_eq!(field_words(text, "VmHWM:"), vec![Some("2048".to_string())]);
    assert!(field_words(text, "VmSwap:").is_empty());
    assert!(field_words("", "VmRSS:").is_empty());
    assert_eq!(field_words("VmRSS: 5", "VmRSS:"), vec![Some("5".to_string())]);
    // A key that runs over the end of its line is no match.
    assert!(field_words("Vm\nRSS: 5", "Vm\nRSS:").is_empty());
}

#[test]
fn processor_facts() {
    let text = "processor\t: 0\nflags\t: fpu avx512_vnni\n\nprocessor\t: 1\nflags\t: amx_int8\n";
    assert_eq!(
        cpu_summary(text),
        CpuSummary {
            cores: 2,
            vnni: true,
            amx: false
        }
    );
    assert_eq!(
        cpu_summary(""),
        CpuSummary {
            cores: 0,
            vnni: false,
            amx: false
        }
    );
    assert_eq!(
        cpu_summary("processorprocessor avx512_vnni amx_int8"),
        CpuSummary {
            cores: 2,
            vnni: false,
            amx: false
        }
    );
}

#[test]
fn erf_regions() {
    let region = |x: f32| erf_region(x.to_bits());
    for s in [1.0f32, -1.0] {
        assert_eq!(region(s * 0.0), ErfRegion::Small);
        assert_eq!(region(s * 0.84), ErfRegion::Small);
        assert_eq!(region(s * 0.84375), ErfRegion::Mid);
        assert_eq!(region(s * 1.2499), ErfRegion::Mid);
        assert_eq!(region(s * 1.25), ErfRegion::TailA);
        assert_eq!(region(s * 2.857), ErfRegion::TailA);
        assert_eq!(region(s * 2.858), ErfRegion::TailB);
        assert_eq!(region(s * 5.999), ErfRegion::TailB);
        assert_eq!(region(s * 6.0), ErfRegion::Saturated);
        assert_eq!(region(s * f32::MAX), ErfRegion::Saturated);
        assert_eq!(region(s * f32::INFINITY), ErfRegion::Special);
        assert_eq!(region(s * f32::NAN), ErfRegion::Special);
    }
    assert_eq!(f32::from_bits(abs_bits((-2.5f32).to_bits())), 2.5);
    assert_eq!(chopped(0x4049_0fdb), 0x4049_0000);
    assert_eq!(chopped(0xffff_ffff), 0xffff_e000);
    for rem in 0..16 {
        assert_eq!(tail_mask(rem), ((1u32 << rem) - 1) as u16);
    }
}

fn layout(dtype: DType, shape: &[usize]) -> TensorLayout {
    TensorLayout {
        dtype,
        shape: shape.to_vec(),
        contiguous: true,
        start_offset: 0,
        byte_len: shape.iter().product::<usize>() * 4,
    }
}

/// `x * scale + bias` by the path that the library chooses.
fn dequant_affine(
    value: (&[i32], &[usize]),
    scale: (&[f32], &[usize]),
    bias: (&[f32], &[usize]),
) -> Vec<f32> {
    let path = affine_path(
        &layout(DType::I32, value.1),
        &layout(DType::F32, scale.1),
        &layout(DType::F32, bias.1),
    );
    let s = scale.0[0];
    match path {
        AffinePath::LastAxis { last } => value
            .0
            .chunks(last)
            .flat_map(|row| row.iter().zip(bias.0).map(|(x, b)| *x as f32 * s + b))
            .collect(),
        AffinePath::ScalarBias => value.0.iter().map(|x| *x as f32 * s + bias.0[0]).collect(),
        AffinePath::Fallback => panic!("no fused sweep"),
    }
}

fn ref_affine(src: &[i32], scale: f32, bias: &[f32], last: usize) -> Vec<f32> {
    src.iter().enumerate().map(|(i, &x)| x as f32 * scale + bias[i % last]).collect()
}

fn assert_close(got: &[f32], exp: &[f32], tol: f32) {
    assert_eq!(got.len(), exp.len());
    for (i, (a, b)) in got.iter().zip(exp).enumerate() {
        let err = (a - b).abs();
        assert!(err < tol, "[{i}]: {a} vs {b} (err {err:e})");
    }
}

#[test]
fn last_axis_matches_ref_small() {
    let src: Vec<i32> = vec![-4, -1, 0, 2, 7, -9, 3, 11];
    let bias = vec![0.1f32, -0.2, 0.3, 0.0];
    let scale = 0.017f32;
    let got = dequant_affine((&src, &[2, 4]), (&[scale], &[]), (&bias, &[4]));
    assert_close(&got, &ref_affine(&src, scale, &bias, 4), 1e-6);
}

#[test]
fn scalar_bias_and_tail() {
    let src: Vec<i32> = (0..19).map(|i| i - 8).collect();
    let scale = 0.5f32;
    let bias = -1.25f32;
    let got = dequant_affine((&src, &[19]), (&[scale], &[1]), (&[bias], &[1]));
    assert_close(&got, &ref_affine(&src, scale, &[bias], 1), 1e-6);
}

#[test]
fn unsqueezed_bias_is_last_axis() {
    let src = vec![1i32, 2, 3, 4, 5, 6];
    let bias = vec![10.0f32, 20.0, 30.0];
    let got = dequant_affine((&src, &[2, 3]), (&[2.0], &[1, 1]), (&bias, &[1, 3]));
    assert_close(&got, &ref_affine(&src, 2.0, &bias, 3), 1e-6);
}

#[test]
fn dequantization_paths() {
    let f = |shape: &[usize]| layout(DType::F32, shape);
    let x = layout(DType::I32, &[19]);
    assert_eq!(affine_path(&x, &f(&[1]), &f(&[1])), AffinePath::ScalarBias);
    assert_eq!(affine_path(&x, &f(&[1]), &f(&[2])), AffinePath::Fallback);
    assert_eq!(affine_path(&x, &f(&[19]), &f(&[19])), AffinePath::Fallback);
    assert_eq!(affine_path(&f(&[19]), &f(&[1]), &f(&[1])), AffinePath::Fallback);
    assert_eq!(affine_path(&layout(DType::I32, &[]), &f(&[1]), &f(&[1])), AffinePath::Fallback);
    assert_eq!(
        affine_path(&layout(DType::I32, &[3, 0]), &f(&[1]), &f(&[1])),
        AffinePath::Fallback
    );
    assert_eq!(
        affine_path(&layout(DType::I32, &[3, 1]), &f(&[1]), &f(&[1])),
        AffinePath::LastAxis { last: 1 }
    );
    // One bias per row is not one per column.
    let square = layout(DType::I32, &[2, 2]);
    assert_eq!(affine_path(&square, &f(&[1, 1]), &f(&[2, 1])), AffinePath::Fallback);
    let last = AffinePath::LastAxis { last: 2 };
    assert_eq!(affine_path(&square, &f(&[1, 1]), &f(&[1, 2])), last);
    assert_eq!(affine_path(&square, &f(&[]), &f(&[])), AffinePath::ScalarBias);
    assert_eq!(num_elements(&[2, 3, 4]), 24);
    assert_eq!(num_elements(&[]), 1);
    assert!(!x.needs_copy(4));
    assert!(TensorLayout { contiguous: false, ..x.clone() }.needs_copy(4));
    assert!(TensorLayout { start_offset: 1, ..x.clone() }.needs_copy(4));
    assert!(TensorLayout { byte_len: 80, ..x }.needs_copy(4));
}

#[test]
fn broadcast_repeats_axes_of_one() {
    // One bias per row of a [2, 2] value.
    let value = [1, 2, 3, 4];
    let bias = [10, 20];
    let got: Vec<i32> = (0..4)
        .map(|i| value[i] + bias[broadcast_index(i, &[2, 2], &[2, 1])])
        .collect();
    assert_eq!(got, [11, 12, 23, 24]);
    let all: Vec<usize> = (0..24).map(|i| broadcast_index(i, &[2, 3, 4], &[3, 1])).collect();
    assert_eq!(all, (0..24).map(|i| i / 4 % 3).collect::<Vec<_>>());
    assert_eq!(broadcast_index(5, &[2, 3], &[]), 0);
    assert_eq!(broadcast_index(5, &[2, 3], &[2, 3]), 5);
}

#[test]
fn host_description_gives_everything_back() {
    for bits in 0..64u32 {
        let bit = |i: u32| bits >> i & 1 == 1;
        let (mut got, mut freed) = (0, 0);
        let mut p = HostProbe::start();
        let mut order = Vec::new();
        let machine = loop {
            let call = p.call();
            order.push(call);
            let a = match call {
                HostCall::GetTriple => Answer { ok: bit(0), message: false },
                HostCall::GetCpuName => Answer { ok: bit(1), message: false },
                HostCall::GetCpuFeatures => Answer { ok: bit(2), message: false },
                HostCall::FindTarget => Answer { ok: bit(3), message: bit(4) },
                HostCall::CreateMachine { name_known, features_known } => {
                    assert_eq!((name_known, features_known), (bit(1), bit(2)));
                    Answer { ok: bit(5), message: false }
                }
                HostCall::Return { machine } => break machine,
                _ => {
                    freed += 1;
                    Answer { ok: true, message: false }
                }
            };
            got += match call {
                HostCall::GetTriple | HostCall::GetCpuName | HostCall::GetCpuFeatures => {
                    a.ok as u32
                }
                HostCall::FindTarget => (!a.ok && a.message) as u32,
                _ => 0,
            };
            p = p.after(a);
        };
        assert_eq!(got, freed);
        assert_eq!(machine, bit(0) && bit(3) && bit(5));
        if !bit(0) {
            assert_eq!(order.len(), 2);
        }
    }
}

#[test]
fn optimization_gives_everything_back() {
    for bits in 0..8u32 {
        let bit = |i: u32| bits >> i & 1 == 1;
        let mut p = PassRun::start();
        let mut order = Vec::new();
        loop {
            let call = p.call();
            order.push(call);
            let ok = match call {
                PassCall::Parse => bit(0),
                PassCall::CreateMachine => bit(1),
                PassCall::RunPasses { for_machine } => {
                    assert_eq!(for_machine, bit(1));
                    bit(2)
                }
                PassCall::Return => break,
                _ => true,
            };
            p = p.after(Answer { ok, message: !ok });
        }
        let count = |c: PassCall| order.iter().filter(|x| **x == c).count();
        let parsed = bit(0) as usize;
        let machine = parsed * bit(1) as usize;
        assert_eq!(count(PassCall::CreateContext), count(PassCall::DisposeContext));
        assert_eq!(count(PassCall::DisposeModule), parsed);
        assert_eq!(count(PassCall::DisposeOptions), parsed);
        assert_eq!(count(PassCall::DisposeMachine), machine);
        assert_eq!(count(PassCall::CreateLayout), machine);
        assert_eq!(count(PassCall::DisposeLayout), machine);
        assert_eq!(
            p.outcome,
            if !bit(0) {
                PassOutcome::ParseFailed
            } else if bit(2) {
                PassOutcome::Optimized
            } else {
                PassOutcome::PassesFailed
            }
        );
        assert_eq!(count(PassCall::Print), (bit(0) && bit(2)) as usize);
        assert_eq!(count(PassCall::ReadError), (bit(0) && !bit(2)) as usize);
        let dispose: Vec<usize> = order
            .iter()
            .enumerate()
            .filter(|x| matches!(x.1, PassCall::DisposeModule | PassCall::DisposeContext))
            .map(|x| x.0)
            .collect();
        assert!(dispose.windows(2).all(|w| w[0] < w[1]));
    }
    let r = KernelRequirements::default();
    assert!(!r.needs_parallelism);
    assert!(r.shared_memories.blocks.is_empty());
}
