use burn_e5q::codegen::matmul_integer::MatMulIntegerNode;
use burn_e5q::codegen::text::{decimal_text, dtype_tokens, leading_dims_text};
use burn_e5q::ir::{ArgType, Argument, DType, TensorType};
use burn_e5q::node::dequant_affine::{DequantAffineConfig, DequantAffineNode};
use burn_e5q::node::dynamic_quantize_linear::{
    DynamicQuantizeLinearConfig, DynamicQuantizeLinearNode,
};

/// Source without the layout: white space and trailing commas.
fn tokens(source: &str) -> String {
    let dense: String = source.chars().filter(|c| !c.is_whitespace()).collect();
    dense.replace(",)", ")")
}

fn tensor(name: &str, rank: usize, dtype: DType) -> Argument {
    Argument {
        name: name.to_string(),
        ty: ArgType::Tensor(TensorType {
            dtype,
            rank,
            static_shape: None,
        }),
        value: None,
    }
}

fn scalar(name: &str, dtype: DType) -> Argument {
    Argument {
        name: name.to_string(),
        ty: ArgType::ScalarTensor(dtype),
        value: None,
    }
}

fn args(inputs: &[Argument]) -> Vec<String> {
    inputs.iter().map(|a| a.name.clone()).collect()
}

/// The function around the body of a node, as a whole model would hold it.
fn function(inputs: &[Argument], output: &Argument, body: String) -> String {
    let params: Vec<String> = inputs.iter().map(|a| format!("{}: {}", a.name, kind(a))).collect();
    format!(
        "pub fn forward(&self, {}) -> {} {{ {} {} }}",
        params.join(", "),
        kind(output),
        body,
        output.name
    )
}

fn kind(a: &Argument) -> String {
    let rank = a.ty.rank();
    if a.ty.elem_type().is_float() {
        format!("Tensor<{rank}>")
    } else {
        format!("Tensor<{rank}, Int>")
    }
}

fn matmul(name: &str, inputs: Vec<Argument>, output: Argument) -> String {
    let node = MatMulIntegerNode {
        name: name.to_string(),
        inputs: inputs.clone(),
        outputs: vec![output.clone()],
    };
    tokens(&function(&inputs, &output, node.forward(&args(&inputs))))
}

#[test]
fn test_matmul_integer_same_rank() {
    let code = matmul(
        "mmint1",
        vec![tensor("a", 2, DType::I32), tensor("b", 2, DType::I32)],
        tensor("output", 2, DType::I32),
    );
    assert_eq!(
        code,
        tokens(
            r"
        pub fn forward(&self, a: Tensor<2, Int>, b: Tensor<2, Int>) -> Tensor<2, Int> {
            let output = (a).matmul(b);
            output
        }
        "
        )
    );
}

#[test]
fn test_matmul_integer_u8_i8_keeps_input_dtypes() {
    let code = matmul(
        "mmint_u8i8",
        vec![tensor("a", 2, DType::U8), tensor("b", 2, DType::I8)],
        tensor("output", 2, DType::I32),
    );
    assert_eq!(
        code,
        tokens(
            r"
        pub fn forward(&self, a: Tensor<2, Int>, b: Tensor<2, Int>) -> Tensor<2, Int> {
            let output = (a).matmul(b);
            output
        }
        "
        )
    );
}

#[test]
fn test_matmul_integer_with_zero_points() {
    let code = matmul(
        "mmint2",
        vec![
            tensor("a", 2, DType::I32),
            tensor("b", 2, DType::I32),
            tensor("a_zero_point", 2, DType::I32),
            tensor("b_zero_point", 2, DType::I32),
        ],
        tensor("output", 2, DType::I32),
    );
    assert_eq!(
        code,
        tokens(
            r"
        pub fn forward(
            &self,
            a: Tensor<2, Int>,
            b: Tensor<2, Int>,
            a_zero_point: Tensor<2, Int>,
            b_zero_point: Tensor<2, Int>,
        ) -> Tensor<2, Int> {
            let output = (a)
                .clone()
                .matmul((b).clone())
                .sub(
                    ((a_zero_point).clone().cast(burn::tensor::DType::I32).unsqueeze::<2usize>())
                        .mul((b).clone().cast(burn::tensor::DType::I32).sum_dim(0usize)),
                )
                .sub(
                    (a)
                        .clone()
                        .cast(burn::tensor::DType::I32)
                        .sum_dim(1usize)
                        .mul(
                            (b_zero_point)
                                .clone()
                                .cast(burn::tensor::DType::I32)
                                .unsqueeze::<2usize>(),
                        ),
                )
                .add(
                    ((a_zero_point).clone().cast(burn::tensor::DType::I32).unsqueeze::<2usize>())
                        .mul(
                            (b_zero_point)
                                .clone()
                                .cast(burn::tensor::DType::I32)
                                .unsqueeze::<2usize>(),
                        )
                        .mul_scalar((a).dims()[1usize] as i32),
                );
            output
        }
        "
        )
    );
}

#[test]
fn test_matmul_integer_lhs_zero_point_only() {
    let code = matmul(
        "mmint3",
        vec![
            tensor("a", 2, DType::I32),
            tensor("b", 2, DType::I32),
            tensor("a_zero_point", 2, DType::I32),
        ],
        tensor("output", 2, DType::I32),
    );
    assert_eq!(
        code,
        tokens(
            r"
        pub fn forward(
            &self,
            a: Tensor<2, Int>,
            b: Tensor<2, Int>,
            a_zero_point: Tensor<2, Int>,
        ) -> Tensor<2, Int> {
            let output = (a)
                .clone()
                .matmul((b).clone())
                .sub(
                    ((a_zero_point).clone().cast(burn::tensor::DType::I32).unsqueeze::<2usize>())
                        .mul((b).clone().cast(burn::tensor::DType::I32).sum_dim(0usize)),
                );
            output
        }
        "
        )
    );
}

#[test]
fn test_matmul_integer_rank_mismatch_with_zero_points() {
    let code = matmul(
        "mmint_e5",
        vec![
            tensor("a", 3, DType::U8),
            tensor("b", 2, DType::I8),
            tensor("a_zero_point", 1, DType::U8),
            tensor("b_zero_point", 1, DType::I8),
        ],
        tensor("output", 3, DType::I32),
    );
    assert_eq!(
        code,
        tokens(
            r"
        pub fn forward(
            &self,
            a: Tensor<3, Int>,
            b: Tensor<2, Int>,
            a_zero_point: Tensor<1, Int>,
            b_zero_point: Tensor<1, Int>,
        ) -> Tensor<3, Int> {
            let output = (a)
                .clone()
                .matmul(((b).clone().unsqueeze::<3usize>()).clone())
                .sub(
                    ((a_zero_point).clone().cast(burn::tensor::DType::I32).unsqueeze::<3usize>())
                        .mul(
                            ((b).clone().unsqueeze::<3usize>())
                                .clone()
                                .cast(burn::tensor::DType::I32)
                                .sum_dim(1usize),
                        ),
                )
                .sub(
                    (a)
                        .clone()
                        .cast(burn::tensor::DType::I32)
                        .sum_dim(2usize)
                        .mul(
                            (b_zero_point)
                                .clone()
                                .cast(burn::tensor::DType::I32)
                                .unsqueeze::<3usize>(),
                        ),
                )
                .add(
                    ((a_zero_point).clone().cast(burn::tensor::DType::I32).unsqueeze::<3usize>())
                        .mul(
                            (b_zero_point)
                                .clone()
                                .cast(burn::tensor::DType::I32)
                                .unsqueeze::<3usize>(),
                        )
                        .mul_scalar((a).dims()[2usize] as i32),
                );
            output
        }
        "
        )
    );
}

#[test]
fn test_matmul_integer_lhs_greater_rank() {
    let code = matmul(
        "mmint4",
        vec![tensor("a", 3, DType::I32), tensor("b", 2, DType::I32)],
        tensor("output", 3, DType::I32),
    );
    assert_eq!(
        code,
        tokens(
            r"
        pub fn forward(&self, a: Tensor<3, Int>, b: Tensor<2, Int>) -> Tensor<3, Int> {
            let output = (a).matmul((b).clone().unsqueeze::<3usize>());
            output
        }
        "
        )
    );
}

#[test]
fn test_matmul_integer_rhs_greater_rank() {
    let code = matmul(
        "mmint5",
        vec![tensor("a", 2, DType::I32), tensor("b", 3, DType::I32)],
        tensor("output", 3, DType::I32),
    );
    assert_eq!(
        code,
        tokens(
            r"
        pub fn forward(&self, a: Tensor<2, Int>, b: Tensor<3, Int>) -> Tensor<3, Int> {
            let output = ((a).clone().unsqueeze::<3usize>()).matmul(b);
            output
        }
        "
        )
    );
}

#[test]
fn test_matmul_integer_matrix_vector() {
    let code = matmul(
        "mmint6",
        vec![tensor("a", 2, DType::I32), tensor("b", 1, DType::I32)],
        tensor("output", 1, DType::I32),
    );
    assert_eq!(
        code,
        tokens(
            r"
        pub fn forward(&self, a: Tensor<2, Int>, b: Tensor<1, Int>) -> Tensor<1, Int> {
            let output = ((a).matmul((b).clone().unsqueeze_dims(&[-1isize])))
                .squeeze_dim::<1usize>(1usize);
            output
        }
        "
        )
    );
}

#[test]
fn test_matmul_integer_vector_matrix() {
    let code = matmul(
        "mmint7",
        vec![tensor("a", 1, DType::I32), tensor("b", 2, DType::I32)],
        tensor("output", 1, DType::I32),
    );
    assert_eq!(
        code,
        tokens(
            r"
        pub fn forward(&self, a: Tensor<1, Int>, b: Tensor<2, Int>) -> Tensor<1, Int> {
            let output = (((a).clone().unsqueeze::<2usize>()).matmul(b))
                .squeeze_dim::<1usize>(0usize);
            output
        }
        "
        )
    );
}

#[test]
fn test_matmul_integer_3d_vector() {
    let code = matmul(
        "mmint8",
        vec![tensor("a", 3, DType::I32), tensor("b", 1, DType::I32)],
        tensor("output", 2, DType::I32),
    );
    assert_eq!(
        code,
        tokens(
            r"
        pub fn forward(&self, a: Tensor<3, Int>, b: Tensor<1, Int>) -> Tensor<2, Int> {
            let output = ((a).matmul((b).clone().unsqueeze_dims(&[-1isize, 0isize])))
                .squeeze_dim::<2usize>(2usize);
            output
        }
        "
        )
    );
}

#[test]
fn test_matmul_integer_zero_points_scalar_rank1() {
    let code = matmul(
        "mmint9",
        vec![
            tensor("a", 1, DType::I32),
            tensor("b", 1, DType::I32),
            tensor("a_zero_point", 1, DType::I32),
            tensor("b_zero_point", 1, DType::I32),
        ],
        tensor("output", 1, DType::I32),
    );
    assert_eq!(
        code,
        tokens(
            r"
        pub fn forward(
            &self,
            a: Tensor<1, Int>,
            b: Tensor<1, Int>,
            a_zero_point: Tensor<1, Int>,
            b_zero_point: Tensor<1, Int>,
        ) -> Tensor<1, Int> {
            let output = (a)
                .clone()
                .matmul((b).clone())
                .sub(
                    ((a_zero_point).clone().cast(burn::tensor::DType::I32))
                        .mul((b).clone().cast(burn::tensor::DType::I32).sum_dim(0usize)),
                )
                .sub(
                    (a)
                        .clone()
                        .cast(burn::tensor::DType::I32)
                        .sum_dim(0usize)
                        .mul((b_zero_point).clone().cast(burn::tensor::DType::I32)),
                )
                .add(
                    ((a_zero_point).clone().cast(burn::tensor::DType::I32))
                        .mul((b_zero_point).clone().cast(burn::tensor::DType::I32))
                        .mul_scalar((a).dims()[0usize] as i32),
                );
            output
        }
        "
        )
    );
}

fn dequant(name: &str, inputs: Vec<Argument>, output: Argument, apply_gelu: bool) -> String {
    let node = DequantAffineNode {
        name: name.to_string(),
        inputs: inputs.clone(),
        outputs: vec![output.clone()],
        config: DequantAffineConfig { apply_gelu },
    };
    tokens(&function(&inputs, &output, node.forward(&args(&inputs))))
}

#[test]
fn test_dequant_affine_same_rank() {
    let code = dequant(
        "dq1",
        vec![
            tensor("x", 3, DType::I32),
            tensor("scale", 3, DType::F32),
            tensor("bias", 3, DType::F32),
        ],
        tensor("y", 3, DType::F32),
        false,
    );
    assert_eq!(
        code,
        tokens(
            r"
        pub fn forward(
            &self,
            x: Tensor<3, Int>,
            scale: Tensor<3>,
            bias: Tensor<3>,
        ) -> Tensor<3> {
            let y = (x).dequant_affine(scale, bias);
            y
        }
        "
        )
    );
}

#[test]
fn test_dequant_affine_gelu_broadcast() {
    let code = dequant(
        "dqg",
        vec![
            tensor("x", 3, DType::I32),
            tensor("scale", 1, DType::F32),
            tensor("bias", 1, DType::F32),
        ],
        tensor("y", 3, DType::F32),
        true,
    );
    assert_eq!(
        code,
        tokens(
            r"
        pub fn forward(
            &self,
            x: Tensor<3, Int>,
            scale: Tensor<1>,
            bias: Tensor<1>,
        ) -> Tensor<3> {
            let y = (x)
                .dequant_affine_gelu(
                    (scale).unsqueeze_dims(&[0isize, 1isize]),
                    (bias).unsqueeze_dims(&[0isize, 1isize]),
                );
            y
        }
        "
        )
    );
}

fn dql(rank: usize) -> String {
    let node = DynamicQuantizeLinearNode {
        name: "dql".to_string(),
        inputs: vec![tensor("x", rank, DType::F32)],
        outputs: vec![
            tensor("dql_out1", rank, DType::U8),
            scalar("dql_out2", DType::F32),
            scalar("dql_out3", DType::U8),
        ],
        config: DynamicQuantizeLinearConfig,
    };
    tokens(&format!(
        "pub fn forward(&self, x: Tensor<{rank}>) -> (Tensor<{rank}, Int>, f32, u8) {{
            {}
            let dql_out2 = (dql_out2).into_scalar::<f32>();
            let dql_out3 = (dql_out3).into_scalar::<u8>();
            (dql_out1, dql_out2, dql_out3)
        }}",
        node.forward(&"x".to_string())
    ))
}

#[test]
fn test_dynamic_quantize_linear_forward_1d() {
    assert_eq!(
        dql(1),
        tokens(
            r"
        pub fn forward(&self, x: Tensor<1>) -> (Tensor<1, Int>, f32, u8) {
            let x_min = (x).clone().min();
            let x_max = (x).clone().max();
            let zero = burn::tensor::Tensor::zeros_like(&x_min);
            let x_min_adj = x_min.clone().min_pair(zero.clone());
            let x_max_adj = x_max.clone().max_pair(zero.clone());
            let dql_out2 = (x_max_adj - x_min_adj.clone()).div_scalar(255f32);
            let zero_point_float = (zero - x_min_adj).div(dql_out2.clone());
            let dql_out3 = zero_point_float
                .round()
                .clamp(0f32, 255f32)
                .int()
                .cast(burn::tensor::DType::U8);
            let y_scale_broadcast = (dql_out2).clone().unsqueeze_dims(&[0isize]);
            let y_zero_point_broadcast = (dql_out3).clone().unsqueeze_dims(&[0isize]);
            let dql_out1 = ((x).div(y_scale_broadcast))
                .round()
                .add(
                    y_zero_point_broadcast
                        .float()
                        .cast(burn::tensor::DType::F32),
                )
                .clamp(0f32, 255f32)
                .int()
                .cast(burn::tensor::DType::U8);
            let dql_out2 = (dql_out2).into_scalar::<f32>();
            let dql_out3 = (dql_out3).into_scalar::<u8>();
            (dql_out1, dql_out2, dql_out3)
        }
        "
        )
    );
}

#[test]
fn test_dynamic_quantize_linear_forward_3d() {
    assert_eq!(
        dql(3),
        tokens(
            r"
        pub fn forward(&self, x: Tensor<3>) -> (Tensor<3, Int>, f32, u8) {
            let x_min = (x).clone().min();
            let x_max = (x).clone().max();
            let zero = burn::tensor::Tensor::zeros_like(&x_min);
            let x_min_adj = x_min.clone().min_pair(zero.clone());
            let x_max_adj = x_max.clone().max_pair(zero.clone());
            let dql_out2 = (x_max_adj - x_min_adj.clone()).div_scalar(255f32);
            let zero_point_float = (zero - x_min_adj).div(dql_out2.clone());
            let dql_out3 = zero_point_float
                .round()
                .clamp(0f32, 255f32)
                .int()
                .cast(burn::tensor::DType::U8);
            let y_scale_broadcast = (dql_out2).clone().unsqueeze_dims(&[0isize, 1isize, 2isize]);
            let y_zero_point_broadcast = (dql_out3).clone().unsqueeze_dims(&[0isize, 1isize, 2isize]);
            let dql_out1 = ((x).div(y_scale_broadcast))
                .round()
                .add(
                    y_zero_point_broadcast
                        .float()
                        .cast(burn::tensor::DType::F32),
                )
                .clamp(0f32, 255f32)
                .int()
                .cast(burn::tensor::DType::U8);
            let dql_out2 = (dql_out2).into_scalar::<f32>();
            let dql_out3 = (dql_out3).into_scalar::<u8>();
            (dql_out1, dql_out2, dql_out3)
        }
        "
        )
    );
}

#[test]
fn source_fragments() {
    assert_eq!(decimal_text(0), "0");
    assert_eq!(decimal_text(907), "907");
    assert_eq!(decimal_text(usize::MAX), usize::MAX.to_string());
    assert_eq!(dtype_tokens(DType::I32), "burn::tensor::DType::I32");
    assert_eq!(dtype_tokens(DType::BF16), "burn::tensor::DType::BF16");
    assert_eq!(tokens(&leading_dims_text(2)), "0isize,1isize");
    assert_eq!(leading_dims_text(0), "");
}
