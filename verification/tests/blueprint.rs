use burn_e5q::cpu_gemm::{
    divisor_at_most, divisor_at_most_prefer_multiple, float_root, nearest_divisor, BlueprintStrategy,
    CpuGemmBlueprint, CpuGemmRoutine, DeviceSettings, FloatTargets, InstructionShape, LeafPlan,
    MatmulProblem, MatmulSetupError, PlaneGrid,
};
use burn_e5q::gemm::acc::AsAcc;
use burn_e5q::gemm::dispatch::gemm;

fn problem(m: usize, n: usize, k: usize) -> MatmulProblem {
    MatmulProblem {
        m,
        n,
        k,
        lhs_bytes: 1,
        rhs_bytes: 1,
        out_bytes: 4,
    }
}

fn device() -> DeviceSettings {
    DeviceSettings {
        vector_size_out: 8,
        num_cpu_cores: Some(4),
    }
}

fn targets(plan: &LeafPlan, alpha: f32) -> FloatTargets {
    let room = plan.depth_limit.saturating_sub(plan.vector);
    FloatTargets {
        extra_depth: (alpha.clamp(0.0, 1.0) * room as f32) as usize,
        plane_m: (plan.cores as f64 * plan.grid_m as f64 / plan.grid_n as f64)
            .sqrt()
            .round() as usize,
    }
}

fn forced(tile: usize) -> BlueprintStrategy {
    BlueprintStrategy::Forced(CpuGemmBlueprint {
        instruction: InstructionShape {
            m: tile,
            n: tile,
            k: tile,
        },
        planes: PlaneGrid { m: 1, n: 1 },
    })
}

/// The product by the leaves of a blueprint, cut off at the edges.
fn blocked<A: AsAcc, B: AsAcc>(
    a: &[A],
    b: &[B],
    (m, n, k): (usize, usize, usize),
    leaf: InstructionShape,
) -> Vec<i32> {
    let mut c = vec![0i32; m * n];
    for i in (0..m).step_by(leaf.m) {
        for j in (0..n).step_by(leaf.n) {
            for t in (0..k).step_by(leaf.k) {
                for r in i..m.min(i + leaf.m) {
                    for s in j..n.min(j + leaf.n) {
                        for d in t..k.min(t + leaf.k) {
                            let x = a[r * k + d].as_acc().wrapping_mul(b[d * n + s].as_acc());
                            c[r * n + s] = c[r * n + s].wrapping_add(x);
                        }
                    }
                }
            }
        }
    }
    c
}

fn naive<A: AsAcc, B: AsAcc>(a: &[A], b: &[B], m: usize, n: usize, k: usize) -> Vec<i32> {
    let mut out = vec![0i32; m * n];
    for i in 0..m {
        for j in 0..n {
            for kk in 0..k {
                let x = a[i * k + kk].as_acc().wrapping_mul(b[kk * n + j].as_acc());
                out[i * n + j] = out[i * n + j].wrapping_add(x);
            }
        }
    }
    out
}

fn run_int8<A: AsAcc, B: AsAcc>(
    m: usize,
    n: usize,
    k: usize,
    lhs: Vec<A>,
    rhs: Vec<B>,
    strategy: BlueprintStrategy,
) {
    assert_eq!(lhs.len(), m * k);
    assert_eq!(rhs.len(), n * k);
    let expected = naive(&lhs, &rhs, m, n, k);
    let plan = CpuGemmRoutine::blueprint(&strategy, &problem(m, n, k), &device()).unwrap();
    assert_eq!(blocked(&lhs, &rhs, (m, n, k), plan.instruction), expected);
    assert_eq!(gemm(&lhs, &rhs, m, n, k), expected);
}

fn u8s(x: Vec<f32>) -> Vec<u8> {
    x.into_iter().map(|v| v as u8).collect()
}

fn i8s(x: Vec<f32>) -> Vec<i8> {
    x.into_iter().map(|v| v as i8).collect()
}

#[test]
fn u8_times_u8_to_i32() {
    let lhs = vec![1.0, 2.0, 3.0, 4.0, 5.0, 6.0];
    let rhs = vec![7.0, 8.0, 9.0, 10.0, 11.0, 12.0];
    run_int8(2, 2, 3, u8s(lhs), u8s(rhs), forced(2));
}

#[test]
fn i8_times_i8_to_i32() {
    let lhs = vec![1.0, -2.0, 3.0, -4.0, 5.0, -6.0];
    let rhs = vec![-1.0, 2.0, -3.0, 4.0, -5.0, 6.0];
    run_int8(2, 2, 3, i8s(lhs), i8s(rhs), forced(2));
}

#[test]
fn u8_times_i8_to_i32() {
    let lhs = vec![1.0, 2.0, 3.0, 4.0, 5.0, 6.0];
    let rhs = vec![1.0, -1.0, 2.0, -2.0, 3.0, -3.0];
    run_int8(2, 2, 3, u8s(lhs), i8s(rhs), forced(2));
}

#[test]
fn u8_i8_ragged_k_not_multiple_of_4() {
    let (m, n, k) = (3, 5, 7);
    let lhs: Vec<f32> = (0..m * k).map(|i| ((i * 3) % 17) as f32).collect();
    let rhs: Vec<f32> = (0..k * n).map(|i| ((i as i32 % 11) - 5) as f32).collect();
    run_int8(m, n, k, u8s(lhs), i8s(rhs), forced(4));
}

#[test]
fn u8_i8_e5_like_ffn_panel() {
    let (m, n, k) = (8, 32, 64);
    let lhs: Vec<f32> = (0..m * k).map(|i| (i % 251) as f32).collect();
    let rhs: Vec<f32> = (0..k * n).map(|i| ((i as i32 % 13) - 6) as f32).collect();
    run_int8(m, n, k, u8s(lhs), i8s(rhs), forced(8));
}

#[test]
fn u8_i8_inferred_heuristic() {
    let (m, n, k) = (16, 32, 48);
    let lhs: Vec<f32> = (0..m * k).map(|i| ((i * 5) % 200) as f32).collect();
    let rhs: Vec<f32> = (0..k * n).map(|i| ((i as i32 % 9) - 4) as f32).collect();
    let plan = CpuGemmRoutine::leaf_plan(&problem(m, n, k), &device());
    let strategy = BlueprintStrategy::Inferred(targets(&plan, 0.5));
    let b = CpuGemmRoutine::blueprint(&strategy, &problem(m, n, k), &device()).unwrap();
    assert_eq!(m % b.instruction.m, 0);
    assert_eq!(n % b.instruction.n, 0);
    assert_eq!(k % b.instruction.k, 0);
    run_int8(m, n, k, u8s(lhs), i8s(rhs), strategy);
}

#[test]
fn inferred_plan_values() {
    // Budget 384 / 4 = 96 elements; sqrt(96 * 8) = 27.7, so n = 32 takes 16 and
    // m = 16 takes the largest divisor up to 96 / 16 = 6, which is 4.
    let p = problem(16, 32, 48);
    let plan = CpuGemmRoutine::leaf_plan(&p, &device());
    assert_eq!(plan.tile_n, 16);
    assert_eq!(plan.tile_m, 4);
    assert_eq!(plan.vector, 8);
    // (32768 - 4 * 16 * 4) / (4 + 16)
    assert_eq!(plan.depth_limit, 1625);
    assert_eq!((plan.grid_m, plan.grid_n, plan.cores), (4, 2, 4));
    let t = targets(&plan, 0.5);
    assert_eq!(t.extra_depth, 808);
    assert_eq!(t.plane_m, 3);
    let b = CpuGemmRoutine::select(&plan, &t, &p, &device());
    assert_eq!(b.instruction, InstructionShape { m: 4, n: 16, k: 48 });
    // 3 is as near to 2 as to 4, and the larger wins.
    assert_eq!(b.planes, PlaneGrid { m: 4, n: 1 });
}

#[test]
fn shallow_depth_prefers_a_multiple_of_four() {
    let p = problem(16, 32, 60);
    let plan = CpuGemmRoutine::leaf_plan(&p, &device());
    let shallow = targets(&plan, 0.0);
    assert_eq!(shallow.extra_depth, 0);
    // Up to 8, the divisors of 60 are 1 to 6, and 4 is the multiple of four.
    let b = CpuGemmRoutine::select(&plan, &shallow, &p, &device());
    assert_eq!(b.instruction.k, 4);
    let wide = MatmulProblem { lhs_bytes: 4, ..p };
    let wide_plan = CpuGemmRoutine::leaf_plan(&wide, &device());
    let b = CpuGemmRoutine::select(&wide_plan, &targets(&wide_plan, 0.0), &wide, &device());
    assert_eq!(b.instruction.k, 6);
}

#[test]
fn forced_plans_are_validated() {
    let p = problem(3, 5, 7);
    for tile in [2, 4, 8] {
        let b = CpuGemmRoutine::blueprint(&forced(tile), &p, &device()).unwrap();
        assert_eq!(b.instruction, InstructionShape { m: tile, n: tile, k: tile });
    }
    match CpuGemmRoutine::blueprint(&forced(0), &p, &device()) {
        Err(MatmulSetupError::InvalidConfig(text)) => {
            assert_eq!(text, "CpuGemm instruction must be non-zero, got 0x0x0");
        }
        other => panic!("{other:?}"),
    }
    let flat = CpuGemmBlueprint {
        instruction: InstructionShape { m: 1, n: 2, k: 3 },
        planes: PlaneGrid { m: 12, n: 0 },
    };
    match flat.validate(&p) {
        Err(MatmulSetupError::InvalidConfig(text)) => {
            assert_eq!(text, "CpuGemm plane grid must be non-zero, got 12x0");
        }
        other => panic!("{other:?}"),
    }
}

#[test]
fn divisors() {
    assert_eq!(divisor_at_most(12, 5), 4);
    assert_eq!(divisor_at_most(12, 100), 12);
    assert_eq!(divisor_at_most(7, 6), 1);
    assert_eq!(divisor_at_most(0, 9), 1);
    assert_eq!(divisor_at_most(9, 0), 1);
    assert_eq!(divisor_at_most_prefer_multiple(12, 11, 4), 4);
    assert_eq!(divisor_at_most_prefer_multiple(18, 11, 4), 9);
    assert_eq!(divisor_at_most_prefer_multiple(18, 11, 1), 9);
    assert_eq!(nearest_divisor(12, 5), 6);
    assert_eq!(nearest_divisor(12, 100), 12);
    assert_eq!(nearest_divisor(12, 0), 1);
    assert_eq!(nearest_divisor(0, 3), 1);
}

#[test]
fn roots_are_those_of_floats() {
    let same = |x: usize| assert_eq!(float_root(x), (x as f64).sqrt() as usize, "{x}");
    (0..2000).for_each(same);
    let mut parted = 0;
    for bits in 10..32u32 {
        for i in 0..400usize {
            let n = (1usize << bits) + (i * 7919) % (1usize << bits);
            for x in n * n - 3..n * n + 3 {
                same(x);
                parted += (float_root(x) != x.isqrt()) as usize;
            }
        }
    }
    // Where floats are far apart, the root is not the exact one.
    assert!(parted > 0);
    for d in 0..6000 {
        same(usize::MAX - d);
        same((1 << 53) - 3000 + d);
        same((1 << 54) - 3000 + d);
    }
}
