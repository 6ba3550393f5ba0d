use dragonwing::batchnorm::fold_batchnorm;
use dragonwing::builder::{CompiledOp, OpParams};
use dragonwing::error::Error;
use dragonwing::graph::{compile_model, validate_model, Graph};
use dragonwing::layout::{transpose_2d_bytes, transpose_f32_4d, transpose_nchw_to_nhwc, transpose_nhwc_to_nchw};
use dragonwing::model::{AttributeValue, DataType, Model, OnnxAttribute, OnnxNode, OnnxTensor, ValueInfo};
use dragonwing::name_map::NameMap;
use dragonwing::relayout::{convert_nchw_to_nhwc, fold_gemm_transpose};
use dragonwing::tensor::{Dtype, TensorShape};

fn names(v: &[&str]) -> Vec<String> {
    v.iter().map(|s| s.to_string()).collect()
}

fn le(v: &[f32]) -> Vec<u8> {
    v.iter().flat_map(|x| x.to_le_bytes()).collect()
}

fn floats(b: &[u8]) -> Vec<f32> {
    b.chunks_exact(4).map(|c| f32::from_le_bytes([c[0], c[1], c[2], c[3]])).collect()
}

fn node(name: &str, op_type: &str, inputs: &[&str], outputs: &[&str], attributes: Vec<OnnxAttribute>) -> OnnxNode {
    OnnxNode {
        name: name.into(),
        op_type: op_type.into(),
        inputs: names(inputs),
        outputs: names(outputs),
        attributes,
    }
}

fn attr(name: &str, value: AttributeValue) -> OnnxAttribute {
    OnnxAttribute { name: name.into(), value }
}

fn weight(name: &str, dims: &[i64], data: &[f32]) -> OnnxTensor {
    OnnxTensor { name: name.into(), dims: dims.to_vec(), data_type: DataType::Float, data: le(data) }
}

fn info(name: &str, shape: &[i64]) -> ValueInfo {
    ValueInfo { name: name.into(), shape: shape.to_vec(), data_type: DataType::Float }
}

fn model(nodes: Vec<OnnxNode>, initializers: Vec<OnnxTensor>, input: ValueInfo, output: ValueInfo) -> Model {
    Model {
        ir_version: 7,
        opset_version: 12,
        producer_name: "".into(),
        nodes,
        initializers,
        inputs: vec![input],
        outputs: vec![output],
    }
}

fn gemm_graph(b_dims: &[usize], b: Option<Vec<u8>>, trans_b: bool, with_rest: bool) -> Graph {
    let mut shapes = NameMap::new();
    if with_rest {
        shapes.insert("a".to_string(), TensorShape::new(vec![2, 3], Dtype::F32));
        shapes.insert("c".to_string(), TensorShape::new(vec![2, 4], Dtype::F32));
    }
    shapes.insert("b".to_string(), TensorShape::new(b_dims.to_vec(), Dtype::F32));
    let mut initializers = NameMap::new();
    if let Some(data) = b {
        initializers.insert("b".to_string(), data);
    }
    Graph {
        ops: vec![CompiledOp {
            name: "gemm1".into(),
            op_type: "Gemm".into(),
            inputs: names(&["a", "b"]),
            outputs: names(&["c"]),
            params: OpParams::Gemm {
                alpha: 1.0f32.to_bits(),
                beta: 1.0f32.to_bits(),
                trans_a: false,
                trans_b,
            },
        }],
        shapes,
        inputs: names(&["a"]),
        outputs: names(&["c"]),
        initializers,
        dtype: Dtype::F32,
    }
}

#[test]
fn test_tensor_shape() {
    let shape = TensorShape::new(vec![1, 3, 224, 224], Dtype::F32);
    assert_eq!(shape.numel(), 1 * 3 * 224 * 224);
    assert_eq!(shape.size_bytes(), 1 * 3 * 224 * 224 * 4);
}

#[test]
fn test_transpose_2d_bytes_f32() {
    // 2 rows x 3 cols, F32 (4 bytes per element)
    let a: f32 = 1.0;
    let b: f32 = 2.0;
    let c: f32 = 3.0;
    let d: f32 = 4.0;
    let e: f32 = 5.0;
    let f: f32 = 6.0;
    let mut input = Vec::new();
    for v in &[a, b, c, d, e, f] {
        input.extend_from_slice(&v.to_le_bytes());
    }
    let out = transpose_2d_bytes(&input, 2, 3, 4);
    // Expected order: a, d, b, e, c, f
    let expected = [a, d, b, e, c, f];
    for i in 0..6 {
        let bytes = &out[i * 4..i * 4 + 4];
        let val = f32::from_le_bytes([bytes[0], bytes[1], bytes[2], bytes[3]]);
        assert!((val - expected[i]).abs() < 1e-6, "elem {i}: {val} vs {}", expected[i]);
    }
}

#[test]
fn transposing_twice_changes_nothing() {
    let input = le(&[1.0, 2.0, 3.0, 4.0, 5.0, 6.0]);
    let once = transpose_2d_bytes(&input, 2, 3, 4);
    assert_ne!(once, input);
    assert_eq!(transpose_2d_bytes(&once, 3, 2, 4), input);
}

#[test]
fn test_fold_gemm_transpose_flips_flag_and_data() {
    // A is [M=2, K=3], B is stored as [N=4, K=3] (trans_b semantics),
    // expected post-fold: B becomes [K=3, N=4] with trans_b=false.
    let b_f32: Vec<f32> = (1..=12).map(|x| x as f32).collect();
    let mut graph = gemm_graph(&[4, 3], Some(le(&b_f32)), true, true);

    fold_gemm_transpose(&mut graph).expect("fold");

    // trans_b should now be false.
    match &graph.ops[0].params {
        OpParams::Gemm { trans_b, .. } => assert!(!*trans_b, "trans_b should be false"),
        _ => panic!("not a Gemm op"),
    }
    // Shape of B should now be [K, N] = [3, 4].
    let b_shape = graph.shapes.get("b").unwrap();
    assert_eq!(b_shape.dims, vec![3, 4]);
    // Data should be transposed: row-major [3, 4].
    let new_f32 = floats(graph.initializers.get("b").unwrap());
    let expected = vec![1.0, 4.0, 7.0, 10.0, 2.0, 5.0, 8.0, 11.0, 3.0, 6.0, 9.0, 12.0];
    assert_eq!(new_f32.len(), expected.len());
    for (i, (got, exp)) in new_f32.iter().zip(expected.iter()).enumerate() {
        let exp: f32 = *exp;
        assert!((got - exp).abs() < 1e-6, "elem {i}: {got} vs {exp}");
    }
}

#[test]
fn test_fold_gemm_transpose_skips_when_trans_b_false() {
    let b_bytes: Vec<u8> = (1..=12).flat_map(|i: i32| (i as f32).to_le_bytes()).collect();
    let mut graph = gemm_graph(&[3, 4], Some(b_bytes.clone()), false, false);

    fold_gemm_transpose(&mut graph).expect("fold");

    // Data should be unchanged.
    assert_eq!(graph.initializers.get("b").unwrap(), &b_bytes);
}

#[test]
fn test_fold_gemm_transpose_errors_on_dynamic_weight() {
    // No initializer for "b": simulates a dynamic weight.
    let mut graph = gemm_graph(&[4, 3], None, true, false);
    graph.inputs = names(&["a", "b"]);
    let result = fold_gemm_transpose(&mut graph);
    assert!(result.is_err(), "expected error for dynamic gemm weight");
}

#[test]
fn test_transpose_nchw_nhwc() {
    // Test small tensor: 1x2x2x3 in NCHW
    let data: Vec<f32> = (0..12).map(|i| i as f32).collect();
    let shape = [1, 2, 2, 3]; // [N=1, C=2, H=2, W=3]

    let transposed = transpose_nchw_to_nhwc(&data, &shape);

    // At NHWC [0,0,0,:] we should have NCHW [0,:,0,0] = [0, 6]
    assert_eq!(transposed[0], 0.0); // NHWC [0,0,0,0]
    assert_eq!(transposed[1], 6.0); // NHWC [0,0,0,1]

    // At NHWC [0,0,1,:] we should have NCHW [0,:,0,1] = [1, 7]
    assert_eq!(transposed[2], 1.0); // NHWC [0,0,1,0]
    assert_eq!(transposed[3], 7.0); // NHWC [0,0,1,1]
}

#[test]
fn layouts_go_back_and_forth() {
    let data: Vec<u32> = (0..2 * 3 * 4 * 5).collect();
    let there = transpose_nchw_to_nhwc(&data, &[2, 3, 4, 5]);
    assert_ne!(there, data);
    assert_eq!(transpose_nhwc_to_nchw(&there, &[2, 4, 5, 3]), data);
}

#[test]
fn four_dimensional_bytes_are_reordered() {
    let data: Vec<f32> = (0..6).map(|i| i as f32).collect();
    let out = transpose_f32_4d(&le(&data), &[1, 1, 2, 3], &[0, 1, 3, 2]);
    assert_eq!(floats(&out), vec![0.0, 3.0, 1.0, 4.0, 2.0, 5.0]);
}

#[test]
fn a_model_is_compiled_op_by_op() {
    let nodes = vec![
        node(
            "conv",
            "Conv",
            &["x", "w"],
            &["c"],
            vec![
                attr("kernel_shape", AttributeValue::Ints(vec![3, 3])),
                attr("pads", AttributeValue::Ints(vec![1, 1, 1, 1])),
                attr("strides", AttributeValue::Ints(vec![2, 2])),
            ],
        ),
        node("relu", "Relu", &["c"], &["y"], vec![]),
    ];
    let m = model(
        nodes,
        vec![weight("w", &[8, 3, 3, 3], &[0.5; 216]), weight("unused", &[1], &[1.0])],
        info("x", &[1, 3, 8, 8]),
        info("y", &[1, 8, 4, 4]),
    );
    let report = validate_model(&m, Dtype::F32);
    assert!(report.is_fully_supported());
    assert_eq!(report.supported.len(), 2);
    let graph = compile_model(&m, Dtype::F32).unwrap();
    assert_eq!(graph.num_ops(), 2);
    assert_eq!(graph.ops[0].op_type, "Conv");
    assert_eq!(graph.shapes.get("c").unwrap().dims, vec![1, 8, 4, 4]);
    assert_eq!(graph.input_info()[0].1.dims, vec![1, 3, 8, 8]);
    assert_eq!(graph.output_info()[0].0, "y");
    assert_eq!(graph.initializers.get("w").unwrap().len(), 864);
}

#[test]
fn unknown_ops_are_reported_by_name() {
    let m = model(
        vec![node("odd", "Einsum", &["x"], &["y"], vec![])],
        vec![],
        info("x", &[1, 3]),
        info("y", &[1, 3]),
    );
    let report = validate_model(&m, Dtype::F32);
    assert!(!report.is_fully_supported());
    assert_eq!(report.unsupported.len(), 1);
    assert_eq!(report.unsupported[0].0, "odd");
    assert_eq!(report.unsupported[0].1.message(), "unknown op type");
    match compile_model(&m, Dtype::F32) {
        Err(e) => assert!(e.message().contains("odd"), "{}", e.message()),
        Ok(_) => panic!("compiled"),
    }
}

#[test]
fn converting_the_layout_moves_channels_last() {
    let nodes = vec![node(
        "conv",
        "Conv",
        &["x", "w"],
        &["y"],
        vec![
            attr("kernel_shape", AttributeValue::Ints(vec![1, 1])),
            attr("strides", AttributeValue::Ints(vec![1, 1])),
        ],
    )];
    // [C_out=2, C_in=3, 1, 1]
    let m = model(
        nodes,
        vec![weight("w", &[2, 3, 1, 1], &[1.0, 2.0, 3.0, 4.0, 5.0, 6.0])],
        info("x", &[1, 3, 4, 5]),
        info("y", &[1, 2, 4, 5]),
    );
    let mut graph = compile_model(&m, Dtype::F32).unwrap();
    convert_nchw_to_nhwc(&mut graph).unwrap();
    assert_eq!(graph.shapes.get("x").unwrap().dims, vec![1, 4, 5, 3]);
    assert_eq!(graph.shapes.get("y").unwrap().dims, vec![1, 4, 5, 2]);
    // [kH, kW, C_in, C_out]
    assert_eq!(graph.shapes.get("w").unwrap().dims, vec![1, 1, 3, 2]);
    assert_eq!(floats(graph.initializers.get("w").unwrap()), vec![1.0, 4.0, 2.0, 5.0, 3.0, 6.0]);
}

#[test]
fn a_batch_norm_goes_into_the_convolution_before_it() {
    let nodes = vec![
        node(
            "conv",
            "Conv",
            &["x", "w"],
            &["c"],
            vec![attr("kernel_shape", AttributeValue::Ints(vec![1, 1]))],
        ),
        node("bn", "BatchNormalization", &["c", "scale", "shift", "mean", "var"], &["n"], vec![]),
        node("relu", "Relu", &["n"], &["y"], vec![]),
    ];
    let mut m = model(
        nodes,
        vec![
            weight("w", &[1, 1, 1, 1], &[3.0]),
            weight("scale", &[1], &[2.0]),
            weight("shift", &[1], &[0.5]),
            weight("mean", &[1], &[1.0]),
            weight("var", &[1], &[4.0]),
        ],
        info("x", &[1, 1, 2, 2]),
        info("y", &[1, 1, 2, 2]),
    );
    fold_batchnorm(&mut m).unwrap();
    assert_eq!(m.nodes.len(), 2);
    assert_eq!(m.nodes[0].op_type, "Conv");
    assert_eq!(m.nodes[1].inputs[0], m.nodes[0].outputs[0]);
    // w * scale / sqrt(var + eps), and shift - mean * scale / sqrt(var + eps).
    let f = 2.0f64 / (4.0f64 + 1e-5f32 as f64).sqrt();
    let w = m.initializers.iter().find(|t| t.name == m.nodes[0].inputs[1]).unwrap();
    let b = m.initializers.iter().find(|t| t.name == m.nodes[0].inputs[2]).unwrap();
    assert!((floats(&w.data)[0] as f64 - 3.0 * f).abs() < 1e-6);
    assert!((floats(&b.data)[0] as f64 - (0.5 - f)).abs() < 1e-6);
}

#[test]
fn a_model_without_batch_norm_stays_as_it_is() {
    let mut m = model(
        vec![node("relu", "Relu", &["x"], &["y"], vec![])],
        vec![weight("w", &[1], &[3.0])],
        info("x", &[4]),
        info("y", &[4]),
    );
    fold_batchnorm(&mut m).unwrap();
    assert_eq!(m.nodes.len(), 1);
    assert_eq!(m.nodes[0].inputs, names(&["x"]));
    assert_eq!(m.initializers[0].data, le(&[3.0]));
}

#[test]
fn sizes_that_do_not_fit_are_no_graph() {
    let mut shapes = NameMap::new();
    shapes.insert("x".to_string(), TensorShape::new(vec![usize::MAX, 2], Dtype::F32));
    let graph = Graph {
        ops: vec![],
        shapes,
        inputs: vec![],
        outputs: vec![],
        initializers: NameMap::new(),
        dtype: Dtype::F32,
    };
    assert!(matches!(dragonwing::calibration::Calibrator::new(graph), Err(Error::Shape(_))));
}

fn gemm_op(name: &str, a: &str, out: &str) -> CompiledOp {
    CompiledOp {
        name: name.into(),
        op_type: "Gemm".into(),
        inputs: names(&[a, "b"]),
        outputs: names(&[out]),
        params: OpParams::Gemm {
            alpha: 1.0f32.to_bits(),
            beta: 1.0f32.to_bits(),
            trans_a: false,
            trans_b: true,
        },
    }
}

#[test]
fn a_weight_that_products_share_is_transposed_once() {
    let b = le(&[1.0, 2.0, 3.0, 4.0, 5.0, 6.0]);
    let mut graph = gemm_graph(&[2, 3], Some(b), true, true);
    graph.ops.push(gemm_op("gemm2", "a2", "c2"));
    fold_gemm_transpose(&mut graph).unwrap();
    assert_eq!(graph.shapes.get("b").unwrap().dims, vec![3, 2]);
    assert_eq!(floats(graph.initializers.get("b").unwrap()), vec![1.0, 4.0, 2.0, 5.0, 3.0, 6.0]);
    for op in &graph.ops {
        assert!(matches!(op.params, OpParams::Gemm { trans_b: false, .. }));
    }
}

#[test]
fn a_weight_that_is_also_read_as_stored_is_transposed() {
    let b = le(&[1.0, 2.0, 3.0, 4.0, 5.0, 6.0]);
    let plain = OpParams::Gemm { alpha: 0, beta: 0, trans_a: false, trans_b: false };
    let readers = [
        CompiledOp {
            name: "plain".into(),
            op_type: "Gemm".into(),
            inputs: names(&["a2", "b"]),
            outputs: names(&["c2"]),
            params: plain,
        },
        CompiledOp {
            name: "relu".into(),
            op_type: "Relu".into(),
            inputs: names(&["b"]),
            outputs: names(&["c2"]),
            params: OpParams::Empty,
        },
    ];
    for reader in readers {
        let mut graph = gemm_graph(&[2, 3], Some(b.clone()), true, true);
        graph.ops.push(reader);
        fold_gemm_transpose(&mut graph).unwrap();
        assert_eq!(graph.shapes.get("b").unwrap().dims, vec![3, 2]);
        assert_eq!(floats(graph.initializers.get("b").unwrap()), vec![1.0, 4.0, 2.0, 5.0, 3.0, 6.0]);
        assert!(matches!(graph.ops[0].params, OpParams::Gemm { trans_b: false, .. }));
        assert_eq!(graph.ops[1].inputs.last().unwrap(), "b");
    }
}

#[test]
fn a_weight_that_convolutions_share_is_laid_out_once() {
    let conv = |name: &str, x: &str, y: &str| {
        node(
            name,
            "Conv",
            &[x, "w"],
            &[y],
            vec![attr("kernel_shape", AttributeValue::Ints(vec![1, 1]))],
        )
    };
    let m = model(
        vec![conv("c1", "x", "t"), conv("c2", "x", "y")],
        vec![weight("w", &[2, 3, 1, 1], &[1.0, 2.0, 3.0, 4.0, 5.0, 6.0])],
        info("x", &[1, 3, 4, 5]),
        info("y", &[1, 2, 4, 5]),
    );
    let mut graph = compile_model(&m, Dtype::F32).unwrap();
    convert_nchw_to_nhwc(&mut graph).unwrap();
    assert_eq!(graph.shapes.get("w").unwrap().dims, vec![1, 1, 3, 2]);
    assert_eq!(floats(graph.initializers.get("w").unwrap()), vec![1.0, 4.0, 2.0, 5.0, 3.0, 6.0]);
}

#[test]
fn an_output_of_a_folded_batch_norm_is_written_by_the_convolution() {
    let nodes = vec![
        node(
            "conv",
            "Conv",
            &["x", "w"],
            &["c"],
            vec![attr("kernel_shape", AttributeValue::Ints(vec![1, 1]))],
        ),
        node("bn", "BatchNormalization", &["c", "scale", "shift", "mean", "var"], &["y"], vec![]),
    ];
    let mut m = model(
        nodes,
        vec![
            weight("w", &[1, 1, 1, 1], &[3.0]),
            weight("scale", &[1], &[2.0]),
            weight("shift", &[1], &[0.5]),
            weight("mean", &[1], &[1.0]),
            weight("var", &[1], &[4.0]),
        ],
        info("x", &[1, 1, 2, 2]),
        info("y", &[1, 1, 2, 2]),
    );
    fold_batchnorm(&mut m).unwrap();
    assert_eq!(m.nodes.len(), 1);
    assert_eq!(m.outputs[0].name, m.nodes[0].outputs[0]);
}

#[test]
fn a_batch_norm_without_a_convolution_is_refused_before_its_outputs_are_looked_at() {
    let nodes = vec![
        node("relu", "Relu", &["x"], &["c"], vec![]),
        node("bn", "BatchNormalization", &["c", "scale", "shift", "mean", "var"], &[], vec![]),
    ];
    let mut m = model(
        nodes,
        vec![
            weight("scale", &[1], &[2.0]),
            weight("shift", &[1], &[0.5]),
            weight("mean", &[1], &[1.0]),
            weight("var", &[1], &[4.0]),
        ],
        info("x", &[1, 1, 2, 2]),
        info("y", &[1, 1, 2, 2]),
    );
    assert!(matches!(fold_batchnorm(&mut m), Err(Error::Compile(_))));
}
