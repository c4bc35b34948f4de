use burn_e5q::ir::{ArgType, Argument, AttributeValue, Attributes, DType, NodeType, RawNode, TensorType};
use burn_e5q::node::dequant_affine::{DequantAffineConfig, DequantAffineProcessor};
use burn_e5q::node::dynamic_quantize_linear::DynamicQuantizeLinearProcessor;
use burn_e5q::node::processor::{Found, InputSpec, Node, OutputPreferences, OutputSpec, ProcessError};
use burn_e5q::simplify::scalars::{
    in_epsilon_range, is_near_half, is_near_inv_sqrt2, is_near_one, is_near_sqrt2, is_near_two,
    narrow,
};

fn tensor(name: &str, rank: usize, dtype: DType) -> Argument {
    Argument {
        name: name.to_string(),
        ty: ArgType::Tensor(TensorType {
            dtype,
            rank,
            static_shape: None,
        }),
        value: None,
    }
}

fn dequant_node() -> RawNode {
    let mut attrs = Attributes::new();
    attrs.insert("apply_gelu".to_string(), AttributeValue::Int64(1));
    RawNode {
        node_type: NodeType::DequantAffine,
        name: "dq".to_string(),
        inputs: vec![
            tensor("x", 3, DType::I32),
            tensor("scale", 3, DType::F32),
            tensor("bias", 3, DType::F32),
        ],
        outputs: vec![tensor("y", 3, DType::F32)],
        attrs,
    }
}

#[test]
fn infer_types_is_f32_same_shape() {
    let mut node = dequant_node();
    let processor = DequantAffineProcessor;
    processor
        .infer_types(&mut node, 11, &OutputPreferences::new())
        .unwrap();
    match &node.outputs[0].ty {
        ArgType::Tensor(t) => {
            assert_eq!(t.dtype, DType::F32);
            assert_eq!(t.rank, 3);
        }
        other => panic!("expected tensor, got {other:?}"),
    }
}

#[test]
fn dequant_affine_takes_rank_and_shape_of_x() {
    let mut node = dequant_node();
    node.inputs[0].ty = ArgType::Tensor(TensorType {
        dtype: DType::I32,
        rank: 2,
        static_shape: Some(vec![Some(4), None]),
    });
    let processor = DequantAffineProcessor;
    assert!(processor
        .infer_types(&mut node, 11, &OutputPreferences::new())
        .is_ok());
    match &node.outputs[0].ty {
        ArgType::Tensor(t) => {
            assert_eq!(t.dtype, DType::F32);
            assert_eq!(t.rank, 2);
            assert_eq!(t.static_shape, Some(vec![Some(4), None]));
        }
        other => panic!("expected tensor, got {other:?}"),
    }
    assert_eq!(node.outputs[0].name, "y");
}

#[test]
fn dequant_affine_refuses_other_attributes_and_types() {
    let processor = DequantAffineProcessor;
    let mut node = dequant_node();
    node.attrs.insert("axis".to_string(), AttributeValue::Int64(0));
    match processor.infer_types(&mut node, 11, &OutputPreferences::new()) {
        Err(ProcessError::InvalidAttribute { name, reason }) => {
            assert_eq!(name, "axis");
            assert_eq!(reason, "DequantAffine only accepts 'apply_gelu', found: axis");
        }
        other => panic!("{other:?}"),
    }
    let mut node = dequant_node();
    node.inputs[0].ty = ArgType::ScalarTensor(DType::I32);
    match processor.infer_types(&mut node, 11, &OutputPreferences::new()) {
        Err(ProcessError::TypeMismatch { expected, actual }) => {
            assert_eq!(expected, "Tensor");
            assert!(matches!(actual, Found::Type(ArgType::ScalarTensor(DType::I32))));
        }
        other => panic!("{other:?}"),
    }
}

#[test]
fn dequant_affine_reads_its_attribute() {
    let processor = DequantAffineProcessor;
    let spec = processor.spec();
    assert_eq!(spec.min_opset, 1);
    assert_eq!(spec.max_opset, None);
    assert_eq!(spec.inputs, InputSpec::Exact(3));
    assert_eq!(spec.outputs, OutputSpec::Exact(1));
    for (value, want) in [
        (Some(AttributeValue::Int64(1)), true),
        (Some(AttributeValue::Int64(0)), false),
        (Some(AttributeValue::Int64(2)), false),
        (Some(AttributeValue::Int64s(vec![1])), false),
        (None, false),
    ] {
        let mut node = dequant_node();
        node.attrs = Attributes::new();
        if let Some(v) = value {
            node.attrs.insert("apply_gelu".to_string(), v);
        }
        let config = processor.extract_config(&node, 11).unwrap();
        assert_eq!(config.apply_gelu, want);
        match processor.build_node(node, 11) {
            Node::DequantAffine(n) => {
                assert_eq!(n.name, "dq");
                assert_eq!(n.inputs.len(), 3);
                assert_eq!(n.config.apply_gelu, want);
            }
            other => panic!("{other:?}"),
        }
    }
    assert!(DequantAffineConfig::new(true).apply_gelu);
}

fn dql_node(input: Argument) -> RawNode {
    RawNode {
        node_type: NodeType::DynamicQuantizeLinear,
        name: "dql".to_string(),
        inputs: vec![input],
        outputs: vec![
            tensor("y", 2, DType::F32),
            tensor("y_scale", 0, DType::F32),
            tensor("y_zero_point", 0, DType::F32),
        ],
        attrs: Attributes::new(),
    }
}

#[test]
fn test_dynamic_quantize_linear_infer_types() {
    let mut node = dql_node(tensor("x", 2, DType::F32));
    let processor = DynamicQuantizeLinearProcessor;
    processor
        .infer_types(&mut node, 13, &OutputPreferences::new())
        .unwrap();
    assert_eq!(node.outputs[0].ty.elem_type(), DType::U8);
    assert_eq!(node.outputs[1].ty.elem_type(), DType::F32);
    assert_eq!(node.outputs[2].ty.elem_type(), DType::U8);
}

#[test]
fn dynamic_quantize_linear_keeps_the_rank() {
    let processor = DynamicQuantizeLinearProcessor;
    let mut node = dql_node(tensor("x", 5, DType::F16));
    assert!(processor.infer_types(&mut node, 13, &OutputPreferences::new()).is_ok());
    assert_eq!(node.outputs[0].ty.rank(), 5);
    assert!(matches!(node.outputs[1].ty, ArgType::ScalarTensor(DType::F32)));
    assert!(matches!(node.outputs[2].ty, ArgType::ScalarTensor(DType::U8)));
    let spec = processor.spec();
    assert_eq!(spec.min_opset, 11);
    assert_eq!(spec.inputs, InputSpec::Exact(1));
    assert_eq!(spec.outputs, OutputSpec::Exact(3));
    assert!(processor.extract_config(&node, 13).is_ok());
    match processor.build_node(node, 13) {
        Node::DynamicQuantizeLinear(n) => assert_eq!(n.outputs.len(), 3),
        other => panic!("{other:?}"),
    }
}

#[test]
fn dynamic_quantize_linear_wants_a_float_tensor() {
    let processor = DynamicQuantizeLinearProcessor;
    let mut node = dql_node(tensor("x", 2, DType::I32));
    match processor.infer_types(&mut node, 13, &OutputPreferences::new()) {
        Err(ProcessError::TypeMismatch { expected, actual }) => {
            assert_eq!(expected, "float tensor for x");
            assert!(matches!(actual, Found::Elem(DType::I32)));
        }
        other => panic!("{other:?}"),
    }
    let mut input = tensor("x", 2, DType::F32);
    input.ty = ArgType::ScalarNative(DType::F32);
    let mut node = dql_node(input);
    match processor.infer_types(&mut node, 13, &OutputPreferences::new()) {
        Err(ProcessError::TypeMismatch { expected, .. }) => {
            assert_eq!(expected, "on-device tensor for x");
        }
        other => panic!("{other:?}"),
    }
}

fn near(v: f64, target: f64) -> bool {
    (v - target).abs() <= 1e-4 + 1e-4 * target.abs()
}

#[test]
fn scalar_ranges_are_the_float_comparisons() {
    let cases: [(fn(u64) -> bool, f64); 5] = [
        (is_near_sqrt2, std::f64::consts::SQRT_2),
        (is_near_inv_sqrt2, std::f64::consts::FRAC_1_SQRT_2),
        (is_near_one, 1.0),
        (is_near_half, 0.5),
        (is_near_two, 2.0),
    ];
    for (test, target) in cases {
        let mut steps: Vec<f64> = Vec::new();
        let tol = 1e-4 + 1e-4 * target;
        for edge in [target - tol, target + tol] {
            for d in -40i64..40 {
                steps.push(f64::from_bits((edge.to_bits() as i64 + d) as u64));
            }
        }
        for i in -3000..3000 {
            steps.push(target + i as f64 * 1e-7);
        }
        for v in [0.0, -0.0, -target, f64::INFINITY, f64::NAN, 1e300, 3.0] {
            steps.push(v);
        }
        for v in steps {
            assert_eq!(test(v.to_bits()), near(v, target), "{v} near {target}");
        }
    }
    let held = 1e-12f32 as f64;
    for v in [
        1e-12, held, 1e-13, 9.99e-14, 1e-3, 1e-5, 1.0001e-3, 0.0, -1e-5, f64::NAN, f64::INFINITY,
    ] {
        assert_eq!(in_epsilon_range(v.to_bits()), (1e-13..=1e-3).contains(&v), "{v}");
    }
}

#[test]
fn narrowing_is_the_float_cast() {
    let mut v = 1e-13f64;
    while v <= 1e-3 {
        assert_eq!(narrow(v.to_bits()), (v as f32).to_bits(), "{v}");
        // Halfway between two floats, and next to it.
        let low = f32::from_bits((v as f32).to_bits());
        let high = f32::from_bits(low.to_bits() + 1);
        let half = (low as f64 + high as f64) / 2.0;
        for d in -2i64..3 {
            let w = f64::from_bits((half.to_bits() as i64 + d) as u64);
            if w >= 1e-13 && w <= 1e-3 {
                assert_eq!(narrow(w.to_bits()), (w as f32).to_bits(), "{w}");
            }
        }
        v *= 1.0173;
    }
}
