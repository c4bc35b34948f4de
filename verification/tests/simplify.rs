use burn_e5q::ir::{
    ArgType, Argument, AttributeValue, Attributes, ConstData, DType, NodeType, RawNode, TensorType,
};
use burn_e5q::simplify::dequant_affine::coalesce_dequant_affine;
use burn_e5q::simplify::gelu::coalesce_gelu;
use burn_e5q::simplify::layer_norm::coalesce_layer_norm;

fn text(s: &str) -> String {
    s.to_string()
}

fn tensor(name: &str, dtype: DType, rank: usize) -> Argument {
    Argument {
        name: text(name),
        ty: ArgType::Tensor(TensorType {
            dtype,
            rank,
            static_shape: Some(vec![Some(1), Some(8), Some(16)]),
        }),
        value: None,
    }
}

fn tensor3(name: &str) -> Argument {
    tensor(name, DType::F32, 3)
}

fn const_f32(name: &str, value: f32) -> Argument {
    Argument {
        name: text(name),
        ty: ArgType::Tensor(TensorType {
            dtype: DType::F32,
            rank: 0,
            static_shape: Some(vec![]),
        }),
        value: Some(ConstData {
            shape: vec![1],
            scalar: Some((value as f64).to_bits()),
            ints: None,
        }),
    }
}

fn const_vec(name: &str, values: &[f32]) -> Argument {
    Argument {
        name: text(name),
        ty: ArgType::Tensor(TensorType {
            dtype: DType::F32,
            rank: 1,
            static_shape: Some(vec![Some(values.len())]),
        }),
        value: Some(ConstData {
            shape: vec![values.len()],
            scalar: Some((values[0] as f64).to_bits()),
            ints: None,
        }),
    }
}

fn node(name: &str, ty: NodeType, inputs: Vec<Argument>, output: Argument) -> RawNode {
    RawNode {
        node_type: ty,
        name: text(name),
        inputs,
        outputs: vec![output],
        attrs: Attributes::new(),
    }
}

fn op(name: &str, ty: NodeType, inputs: Vec<Argument>, output: &str) -> RawNode {
    node(name, ty, inputs, tensor3(output))
}

fn has(nodes: &[RawNode], ty: NodeType) -> bool {
    nodes.iter().any(|n| n.node_type == ty)
}

fn names(nodes: &[RawNode]) -> Vec<&str> {
    nodes.iter().map(|n| n.name.as_str()).collect()
}

fn e5_gelu() -> Vec<RawNode> {
    vec![
        op(
            "div",
            NodeType::Div,
            vec![tensor3("x"), const_f32("sqrt2", std::f32::consts::SQRT_2)],
            "x_scaled",
        ),
        op("erf", NodeType::Erf, vec![tensor3("x_scaled")], "erf"),
        op(
            "add1",
            NodeType::Add,
            vec![tensor3("erf"), const_f32("one", 1.0)],
            "one_erf",
        ),
        op(
            "mul_x",
            NodeType::Mul,
            vec![tensor3("x"), tensor3("one_erf")],
            "x_erf",
        ),
        op(
            "mul_half",
            NodeType::Mul,
            vec![tensor3("x_erf"), const_f32("half", 0.5)],
            "y",
        ),
    ]
}

#[test]
fn e5_div_erf_path_matches() {
    let result = coalesce_gelu(e5_gelu());
    let gelu = result
        .iter()
        .find(|n| n.node_type == NodeType::Gelu)
        .expect("gelu");
    assert_eq!(gelu.inputs[0].name, "x");
    assert_eq!(gelu.outputs[0].name, "y");
}

#[test]
fn mul_inv_sqrt2_matches() {
    let mut nodes = e5_gelu();
    nodes[0] = op(
        "mul",
        NodeType::Mul,
        vec![
            tensor3("x"),
            const_f32("isq2", std::f32::consts::FRAC_1_SQRT_2),
        ],
        "x_scaled",
    );
    let result = coalesce_gelu(nodes);
    assert!(result.iter().any(|n| n.node_type == NodeType::Gelu));
}

#[test]
fn half_on_x_matches() {
    let nodes = vec![
        op(
            "div",
            NodeType::Div,
            vec![tensor3("x"), const_f32("sqrt2", std::f32::consts::SQRT_2)],
            "x_scaled",
        ),
        op("erf", NodeType::Erf, vec![tensor3("x_scaled")], "erf"),
        op(
            "add1",
            NodeType::Add,
            vec![tensor3("erf"), const_f32("one", 1.0)],
            "one_erf",
        ),
        op(
            "half_x",
            NodeType::Mul,
            vec![tensor3("x"), const_f32("half", 0.5)],
            "xh",
        ),
        op(
            "mul_x",
            NodeType::Mul,
            vec![tensor3("xh"), tensor3("one_erf")],
            "y",
        ),
    ];
    let result = coalesce_gelu(nodes);
    let gelu = result
        .iter()
        .find(|n| n.node_type == NodeType::Gelu)
        .expect("gelu");
    assert_eq!(gelu.inputs[0].name, "x");
    assert_eq!(gelu.outputs[0].name, "y");
}

#[test]
fn wrong_scale_does_not_match() {
    let mut nodes = e5_gelu();
    nodes[0] = op(
        "div",
        NodeType::Div,
        vec![tensor3("x"), const_f32("three", 3.0)],
        "x_scaled",
    );
    let result = coalesce_gelu(nodes);
    assert!(!result.iter().any(|n| n.node_type == NodeType::Gelu));
}

#[test]
fn root_over_x_is_no_scaling() {
    let mut nodes = e5_gelu();
    nodes[0].inputs.reverse();
    let result = coalesce_gelu(nodes);
    assert!(!has(&result, NodeType::Gelu));
    assert_eq!(names(&result), names(&e5_gelu()));
}

#[test]
fn second_folding_changes_nothing() {
    let once = coalesce_gelu(e5_gelu());
    let types = |nodes: &[RawNode]| nodes.iter().map(|n| n.node_type).collect::<Vec<_>>();
    let (before, kinds) = (names(&once).join(" "), types(&once));
    let twice = coalesce_gelu(once);
    assert_eq!(names(&twice).join(" "), before);
    assert_eq!(types(&twice), kinds);
}

#[test]
fn erf_with_extra_consumer_does_not_match() {
    let mut nodes = e5_gelu();
    nodes.push(op(
        "other",
        NodeType::Relu,
        vec![tensor3("erf")],
        "relu_erf",
    ));
    let result = coalesce_gelu(nodes);
    assert!(!result.iter().any(|n| n.node_type == NodeType::Gelu));
}

#[test]
fn unsqueeze_const_still_matches() {
    let mut attrs = Attributes::new();
    attrs.insert(text("axes"), AttributeValue::Int64s(vec![0, 1]));
    let unsqueeze = RawNode {
        node_type: NodeType::Unsqueeze,
        name: text("unsq"),
        inputs: vec![const_f32("sqrt2", std::f32::consts::SQRT_2)],
        outputs: vec![tensor3("sqrt2_u")],
        attrs,
    };
    let mut nodes = e5_gelu();
    nodes[0] = op(
        "div",
        NodeType::Div,
        vec![tensor3("x"), tensor3("sqrt2_u")],
        "x_scaled",
    );
    nodes.insert(0, unsqueeze);
    let result = coalesce_gelu(nodes);
    assert!(result.iter().any(|n| n.node_type == NodeType::Gelu));
}

#[test]
fn gelu_takes_the_last_node_only() {
    let result = coalesce_gelu(e5_gelu());
    assert_eq!(result.len(), 5);
    assert_eq!(names(&result)[..4], ["div", "erf", "add1", "mul_x"]);
    assert!(matches!(result[4].node_type, NodeType::Gelu));
    assert_eq!(result[4].inputs.len(), 1);
    assert!(coalesce_gelu(Vec::new()).is_empty());
}

fn e5_ffn1() -> Vec<RawNode> {
    vec![
        node(
            "cast",
            NodeType::Cast,
            vec![tensor("mmi", DType::I32, 3)],
            tensor("xf", DType::F32, 3),
        ),
        node(
            "mul",
            NodeType::Mul,
            vec![tensor("xf", DType::F32, 3), tensor("scale", DType::F32, 3)],
            tensor("xs", DType::F32, 3),
        ),
        node(
            "add",
            NodeType::Add,
            vec![tensor("xs", DType::F32, 3), tensor("bias", DType::F32, 3)],
            tensor("xb", DType::F32, 3),
        ),
        node(
            "gelu",
            NodeType::Gelu,
            vec![tensor("xb", DType::F32, 3)],
            tensor("y", DType::F32, 3),
        ),
    ]
}

fn e5_ffn2() -> Vec<RawNode> {
    vec![
        node(
            "cast",
            NodeType::Cast,
            vec![tensor("mmi", DType::I32, 3)],
            tensor("xf", DType::F32, 3),
        ),
        node(
            "mul",
            NodeType::Mul,
            vec![tensor("scale", DType::F32, 3), tensor("xf", DType::F32, 3)],
            tensor("xs", DType::F32, 3),
        ),
        node(
            "add",
            NodeType::Add,
            vec![tensor("bias", DType::F32, 3), tensor("xs", DType::F32, 3)],
            tensor("y", DType::F32, 3),
        ),
    ]
}

#[test]
fn ffn1_cast_mul_add_gelu_matches() {
    let result = coalesce_dequant_affine(e5_ffn1());
    let fused = result
        .iter()
        .find(|n| n.node_type == NodeType::DequantAffine)
        .expect("fused");
    assert_eq!(fused.inputs[0].name, "mmi");
    assert_eq!(fused.inputs[1].name, "scale");
    assert_eq!(fused.inputs[2].name, "bias");
    assert_eq!(fused.outputs[0].name, "y");
    assert!(matches!(
        fused.attrs.get("apply_gelu"),
        Some(AttributeValue::Int64(1))
    ));
}

#[test]
fn ffn2_cast_mul_add_matches() {
    let result = coalesce_dequant_affine(e5_ffn2());
    let fused = result
        .iter()
        .find(|n| n.node_type == NodeType::DequantAffine)
        .expect("fused");
    assert_eq!(fused.inputs[0].name, "mmi");
    assert_eq!(fused.outputs[0].name, "y");
    assert!(matches!(
        fused.attrs.get("apply_gelu"),
        Some(AttributeValue::Int64(0))
    ));
}

#[test]
fn float_cast_does_not_match() {
    let mut nodes = e5_ffn2();
    nodes[0] = node(
        "cast",
        NodeType::Cast,
        vec![tensor("mmi", DType::F32, 3)],
        tensor("xf", DType::F32, 3),
    );
    let result = coalesce_dequant_affine(nodes);
    assert!(!result
        .iter()
        .any(|n| n.node_type == NodeType::DequantAffine));
}

#[test]
fn ffn1_gelu_matches_despite_leftover_erf_consumer() {
    let mut nodes = e5_ffn1();
    nodes.push(node(
        "erf_leftover",
        NodeType::Erf,
        vec![tensor("xb", DType::F32, 3)],
        tensor("dead_erf", DType::F32, 3),
    ));
    let result = coalesce_dequant_affine(nodes);
    let fused = result
        .iter()
        .find(|n| n.node_type == NodeType::DequantAffine)
        .expect("fused");
    assert_eq!(fused.outputs[0].name, "y");
    assert!(matches!(
        fused.attrs.get("apply_gelu"),
        Some(AttributeValue::Int64(1))
    ));
    assert!(result.iter().any(|n| n.name == "erf_leftover"));
}

#[test]
fn extra_cast_consumer_does_not_match() {
    let mut nodes = e5_ffn2();
    nodes.push(node(
        "other",
        NodeType::Relu,
        vec![tensor("xf", DType::F32, 3)],
        tensor("relu", DType::F32, 3),
    ));
    let result = coalesce_dequant_affine(nodes);
    assert!(!result
        .iter()
        .any(|n| n.node_type == NodeType::DequantAffine));
}

#[test]
fn fused_node_takes_the_place_of_the_last() {
    let result = coalesce_dequant_affine(e5_ffn1());
    assert_eq!(names(&result), ["cast", "mul", "add", "gelu_dequant_affine"]);
    let plain = coalesce_dequant_affine(e5_ffn2());
    assert_eq!(names(&plain), ["cast", "mul", "add_dequant_affine"]);
}

fn tensor4(name: &str) -> Argument {
    Argument {
        name: text(name),
        ty: ArgType::Tensor(TensorType {
            dtype: DType::F32,
            rank: 3,
            static_shape: Some(vec![Some(1), Some(8), Some(4)]),
        }),
        value: None,
    }
}

fn reduce_mean(name: &str, input: &str, output: &str) -> RawNode {
    let mut attrs = Attributes::new();
    attrs.insert(text("axes"), AttributeValue::Int64s(vec![-1]));
    attrs.insert(text("keepdims"), AttributeValue::Int64(1));
    RawNode {
        node_type: NodeType::ReduceMean,
        name: text(name),
        inputs: vec![tensor4(input)],
        outputs: vec![tensor4(output)],
        attrs,
    }
}

fn ln_op(name: &str, ty: NodeType, inputs: Vec<Argument>, output: &str) -> RawNode {
    node(name, ty, inputs, tensor4(output))
}

fn e5_ln() -> Vec<RawNode> {
    vec![
        reduce_mean("mean", "x", "mean"),
        ln_op(
            "sub",
            NodeType::Sub,
            vec![tensor4("x"), tensor4("mean")],
            "centered",
        ),
        ln_op(
            "pow",
            NodeType::Pow,
            vec![tensor4("centered"), const_f32("two", 2.0)],
            "sq",
        ),
        reduce_mean("var", "sq", "var"),
        ln_op(
            "add_eps",
            NodeType::Add,
            vec![tensor4("var"), const_f32("eps", 1e-5)],
            "var_eps",
        ),
        ln_op("sqrt", NodeType::Sqrt, vec![tensor4("var_eps")], "std"),
        ln_op(
            "div",
            NodeType::Div,
            vec![tensor4("centered"), tensor4("std")],
            "norm",
        ),
        ln_op(
            "mul_g",
            NodeType::Mul,
            vec![tensor4("norm"), const_vec("gamma", &[1.0, 1.0, 1.0, 1.0])],
            "scaled",
        ),
        ln_op(
            "add_b",
            NodeType::Add,
            vec![tensor4("scaled"), const_vec("beta", &[0.0, 0.0, 0.0, 0.0])],
            "y",
        ),
    ]
}

#[test]
fn e5_pattern_matches() {
    let result = coalesce_layer_norm(e5_ln());
    let ln = result
        .iter()
        .find(|n| n.node_type == NodeType::LayerNormalization)
        .expect("ln");
    assert_eq!(ln.inputs[0].name, "x");
    assert_eq!(ln.inputs[1].name, "gamma");
    assert_eq!(ln.inputs[2].name, "beta");
    assert_eq!(ln.outputs[0].name, "y");
    match ln.attrs.get("epsilon") {
        Some(AttributeValue::Float32(e)) => {
            assert!(((f32::from_bits(*e) as f64) - 1e-5).abs() < 1e-8)
        }
        other => panic!("bad epsilon {other:?}"),
    }
}

#[test]
fn f32_1e12_eps_still_matches() {
    let mut nodes = e5_ln();
    nodes[4] = ln_op(
        "add_eps",
        NodeType::Add,
        vec![tensor4("var"), const_f32("eps", 1e-12)],
        "var_eps",
    );
    let result = coalesce_layer_norm(nodes);
    assert_eq!(result[8].node_type, NodeType::LayerNormalization);
    let names: Vec<&str> = result[8].inputs.iter().map(|a| a.name.as_str()).collect();
    assert_eq!(names, ["x", "gamma", "beta"]);
    assert_eq!(result[8].outputs[0].name, "y");
    match result[8].attrs.get("epsilon") {
        Some(AttributeValue::Float32(e)) => assert_eq!(*e, 1e-12f32.to_bits()),
        other => panic!("bad epsilon {other:?}"),
    }
}

#[test]
fn square_via_mul_matches() {
    let mut nodes = e5_ln();
    nodes[2] = ln_op(
        "sq",
        NodeType::Mul,
        vec![tensor4("centered"), tensor4("centered")],
        "sq",
    );
    assert!(coalesce_layer_norm(nodes)
        .iter()
        .any(|n| n.node_type == NodeType::LayerNormalization));
}

#[test]
fn wrong_axis_does_not_match() {
    let mut nodes = e5_ln();
    nodes[0]
        .attrs
        .insert(text("axes"), AttributeValue::Int64s(vec![0]));
    let result = coalesce_layer_norm(nodes);
    assert!(!result
        .iter()
        .any(|n| n.node_type == NodeType::LayerNormalization));
}

#[test]
fn extra_sqrt_consumer_does_not_match() {
    let mut nodes = e5_ln();
    nodes.push(ln_op(
        "other",
        NodeType::Relu,
        vec![tensor4("std")],
        "relu_std",
    ));
    let result = coalesce_layer_norm(nodes);
    assert!(!result
        .iter()
        .any(|n| n.node_type == NodeType::LayerNormalization));
}

#[test]
fn epsilon_out_of_range_does_not_match() {
    for eps in [0.0f32, -1e-5, 1.0] {
        let mut nodes = e5_ln();
        nodes[4] = ln_op(
            "add_eps",
            NodeType::Add,
            vec![tensor4("var"), const_f32("eps", eps)],
            "var_eps",
        );
        assert!(!has(&coalesce_layer_norm(nodes), NodeType::LayerNormalization), "{eps}");
    }
}

#[test]
fn matrix_scale_is_no_layer_norm_parameter() {
    let mut nodes = e5_ln();
    nodes[7] = ln_op(
        "mul_g",
        NodeType::Mul,
        vec![tensor4("norm"), tensor4("gamma")],
        "scaled",
    );
    assert!(!has(&coalesce_layer_norm(nodes), NodeType::LayerNormalization));
}
