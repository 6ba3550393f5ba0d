use dragonwing::builder::{CompiledOp, OpParams};
use dragonwing::error::Error;
use dragonwing::fusion::apply_fusion_passes;
use dragonwing::graph::Graph;
use dragonwing::name_map::NameMap;
use dragonwing::qdq::{fold_qdq_patterns, graph_has_qdq};
use dragonwing::tensor::{Dtype, TensorShape};

fn names(v: &[&str]) -> Vec<String> {
    v.iter().map(|s| s.to_string()).collect()
}

fn shape_f32(dims: Vec<usize>) -> TensorShape {
    TensorShape::new(dims, Dtype::F32)
}

fn shape_i8(dims: Vec<usize>) -> TensorShape {
    TensorShape::new(dims, Dtype::I8)
}

fn dq_op(name: &str, input: &str, output: &str, scale: f32) -> CompiledOp {
    CompiledOp {
        name: name.into(),
        op_type: "DequantizeLinear".into(),
        inputs: names(&[input]),
        outputs: names(&[output]),
        params: OpParams::Dequantize { scale: scale.to_bits() },
    }
}

fn q_op(name: &str, input: &str, output: &str, scale: f32) -> CompiledOp {
    CompiledOp {
        name: name.into(),
        op_type: "QuantizeLinear".into(),
        inputs: names(&[input]),
        outputs: names(&[output]),
        params: OpParams::Quantize { scale: scale.to_bits() },
    }
}

fn conv_op(name: &str, act: &str, weight: &str, out: &str, kernel: [usize; 2]) -> CompiledOp {
    CompiledOp {
        name: name.into(),
        op_type: "Conv".into(),
        inputs: names(&[act, weight]),
        outputs: names(&[out]),
        params: OpParams::Conv2d {
            kernel_shape: kernel,
            strides: [1, 1],
            pads: [0, 0, 0, 0],
            dilations: [1, 1],
            group: 1,
        },
    }
}

fn relu_op(input: &str, output: &str) -> CompiledOp {
    CompiledOp {
        name: "relu".into(),
        op_type: "Relu".into(),
        inputs: names(&[input]),
        outputs: names(&[output]),
        params: OpParams::Empty,
    }
}

fn build_graph_with_qdq_conv() -> Graph {
    // x_i8 - DQ(s_x=0.1) - x_f32 - Conv - y_f32 - Q(s_y=0.05) - y_i8, with
    // w_i8 - DQ(s_w=0.2) - w_f32 as the weight.
    let mut shapes = NameMap::new();
    shapes.insert("x_i8".to_string(), shape_i8(vec![1, 4, 8, 8]));
    shapes.insert("x_f32".to_string(), shape_f32(vec![1, 4, 8, 8]));
    shapes.insert("w_i8".to_string(), shape_i8(vec![8, 4, 3, 3]));
    shapes.insert("w_f32".to_string(), shape_f32(vec![8, 4, 3, 3]));
    shapes.insert("y_f32".to_string(), shape_f32(vec![1, 8, 6, 6]));
    shapes.insert("y_i8".to_string(), shape_i8(vec![1, 8, 6, 6]));

    let mut initializers = NameMap::new();
    // Pre-quantized weight: 8*4*3*3 = 288 bytes.
    initializers.insert("w_i8".to_string(), vec![1u8; 288]);

    let ops = vec![
        dq_op("dq_x", "x_i8", "x_f32", 0.1),
        dq_op("dq_w", "w_i8", "w_f32", 0.2),
        conv_op("conv", "x_f32", "w_f32", "y_f32", [3, 3]),
        q_op("q_y", "y_f32", "y_i8", 0.05),
    ];

    Graph {
        ops,
        shapes,
        inputs: names(&["x_i8"]),
        outputs: names(&["y_i8"]),
        initializers,
        dtype: Dtype::F32,
    }
}

#[test]
fn fold_qdq_simple_conv() {
    let mut graph = build_graph_with_qdq_conv();
    assert!(graph_has_qdq(&graph));
    let stats = fold_qdq_patterns(&mut graph).expect("fold");

    assert_eq!(stats.conv_folded, 1);
    assert_eq!(stats.dequantize_removed, 2);
    assert_eq!(stats.quantize_removed, 1);
    // Weight was already I8 so no on-the-fly quantize.
    assert_eq!(stats.weights_quantized, 0);
    assert_eq!(stats.qdq_unfolded, 0);
    assert_eq!(stats.nodes_removed(), 3);

    // Resulting graph: Conv, Requantize.
    assert_eq!(graph.ops.len(), 2);
    assert_eq!(graph.ops[0].op_type, "Conv");
    assert_eq!(graph.ops[0].inputs, vec!["x_i8", "w_i8"]);
    assert_eq!(graph.ops[1].op_type, "Requantize");
    // Requant scale = (0.1 * 0.2) / 0.05 = 0.4.
    match graph.ops[1].params {
        OpParams::Requantize { scale } => {
            let scale = f32::from_bits(scale);
            assert!((scale - 0.4).abs() < 1e-6, "got requant scale {scale}");
        }
        _ => panic!("expected Requantize"),
    }
    // Final output name preserved.
    assert_eq!(graph.ops[1].outputs, vec!["y_i8"]);
}

#[test]
fn fold_qdq_skips_dq_with_multiple_consumers() {
    // x_f32 is read by both the Conv and a Relu. Fold should bail.
    let mut graph = build_graph_with_qdq_conv();
    graph.ops.push(relu_op("x_f32", "relu_out"));
    graph.shapes.insert("relu_out".to_string(), shape_f32(vec![1, 4, 8, 8]));

    let stats = fold_qdq_patterns(&mut graph).expect("fold");
    // x_f32 now has 2 consumers; the conv fold must bail.
    assert_eq!(stats.conv_folded, 0);
    assert!(stats.qdq_unfolded > 0);
}

#[test]
fn fold_qdq_quantizes_f32_weight() {
    // Same as simple_conv but the weight initializer is F32.
    let mut graph = build_graph_with_qdq_conv();
    graph.shapes.remove("w_i8");
    graph.initializers.remove("w_i8");
    let f32_w: Vec<f32> = (0..288).map(|i| (i as f32) * 0.01).collect();
    let f32_bytes: Vec<u8> = f32_w.iter().flat_map(|f| f.to_le_bytes()).collect();
    graph.initializers.insert("w_f32_init".to_string(), f32_bytes);
    graph.shapes.insert("w_f32_init".to_string(), shape_f32(vec![8, 4, 3, 3]));
    // Find the weight DQ and rewire its input.
    for op in &mut graph.ops {
        if op.name == "dq_w" {
            op.inputs[0] = "w_f32_init".into();
        }
    }

    let stats = fold_qdq_patterns(&mut graph).expect("fold");
    assert_eq!(stats.conv_folded, 1);
    assert_eq!(stats.weights_quantized, 1);

    // Weight initializer must now be 288 bytes (i8) under the same name.
    let w = graph.initializers.get("w_f32_init").expect("weight kept");
    assert_eq!(w.len(), 288);
    for i in 0..288 {
        let expected = (f32_w[i] * (1.0 / 0.2f32)).round().clamp(-128.0, 127.0) as i8;
        assert_eq!(w[i] as i8, expected);
    }
    // The conv references the same name.
    let conv = graph.ops.iter().find(|o| o.op_type == "Conv").unwrap();
    assert_eq!(conv.inputs[1], "w_f32_init");
    let w_shape = graph.shapes.get("w_f32_init").unwrap();
    assert_eq!(w_shape.dtype, Dtype::I8);
}

#[test]
fn fold_qdq_no_qdq_is_noop() {
    // No QDQ wrappers: fold is a no-op.
    let mut shapes = NameMap::new();
    shapes.insert("x".to_string(), shape_f32(vec![1, 4]));
    shapes.insert("y".to_string(), shape_f32(vec![1, 4]));
    let mut graph = Graph {
        ops: vec![relu_op("x", "y")],
        shapes,
        inputs: names(&["x"]),
        outputs: names(&["y"]),
        initializers: NameMap::new(),
        dtype: Dtype::F32,
    };
    assert!(!graph_has_qdq(&graph));
    let stats = fold_qdq_patterns(&mut graph).expect("fold");
    assert_eq!(stats.conv_folded, 0);
    assert_eq!(graph.ops.len(), 1);
    assert_eq!(graph.ops[0].op_type, "Relu");
}

#[test]
fn fold_qdq_chained_convs() {
    // Two convs in series, each wrapped in QDQ. After folding, both convs
    // should be I8 and the intermediate Q/DQ pair must disappear.
    let mut shapes = NameMap::new();
    for name in ["x_i8", "y1_i8", "y2_i8"] {
        shapes.insert(name.to_string(), shape_i8(vec![1, 4, 8, 8]));
    }
    for name in ["x_f32", "y1_f32", "y1_f32_again", "y2_f32"] {
        shapes.insert(name.to_string(), shape_f32(vec![1, 4, 8, 8]));
    }
    for name in ["w1_i8", "w2_i8"] {
        shapes.insert(name.to_string(), shape_i8(vec![4, 4, 3, 3]));
    }
    for name in ["w1_f32", "w2_f32"] {
        shapes.insert(name.to_string(), shape_f32(vec![4, 4, 3, 3]));
    }

    let mut initializers = NameMap::new();
    initializers.insert("w1_i8".to_string(), vec![1u8; 4 * 4 * 3 * 3]);
    initializers.insert("w2_i8".to_string(), vec![2u8; 4 * 4 * 3 * 3]);

    let ops = vec![
        dq_op("dq_x", "x_i8", "x_f32", 0.1),
        dq_op("dq_w1", "w1_i8", "w1_f32", 0.2),
        conv_op("conv1", "x_f32", "w1_f32", "y1_f32", [3, 3]),
        q_op("q_y1", "y1_f32", "y1_i8", 0.05),
        dq_op("dq_y1", "y1_i8", "y1_f32_again", 0.05),
        dq_op("dq_w2", "w2_i8", "w2_f32", 0.3),
        conv_op("conv2", "y1_f32_again", "w2_f32", "y2_f32", [3, 3]),
        q_op("q_y2", "y2_f32", "y2_i8", 0.04),
    ];

    let mut graph = Graph {
        ops,
        shapes,
        inputs: names(&["x_i8"]),
        outputs: names(&["y2_i8"]),
        initializers,
        dtype: Dtype::F32,
    };

    let stats = fold_qdq_patterns(&mut graph).expect("fold");
    assert_eq!(stats.conv_folded, 2);
    // 4 weight/activation DQs removed (2 per conv = activation + weight).
    assert_eq!(stats.dequantize_removed, 4);
    // Both Q ops removed (y1's Q and y2's Q).
    assert_eq!(stats.quantize_removed, 2);
    assert_eq!(stats.qdq_unfolded, 0);

    // Resulting graph: Conv, Requant, Conv, Requant (4 ops).
    assert_eq!(graph.ops.len(), 4);
    let types: Vec<&str> = graph.ops.iter().map(|o| o.op_type.as_str()).collect();
    assert_eq!(types, vec!["Conv", "Requantize", "Conv", "Requantize"]);

    // Conv2 now consumes the i8 output of the first requantize.
    let conv2 = &graph.ops[2];
    assert_eq!(conv2.inputs[0], "y1_i8");
    assert_eq!(conv2.inputs[1], "w2_i8");
}

#[test]
fn fold_qdq_then_fusion_yields_fused_int8_conv() {
    let mut graph = build_graph_with_qdq_conv();
    fold_qdq_patterns(&mut graph).expect("fold");
    // Pre-fusion: 2 ops (Conv, Requantize).
    assert_eq!(graph.ops.len(), 2);

    apply_fusion_passes(&mut graph);

    // Post-fusion: 1 op.
    assert_eq!(graph.ops.len(), 1, "expected fusion to collapse Conv+Requant");
    assert!(matches!(graph.ops[0].params, OpParams::Conv2dRequantReluI8Nhwc { .. }));
    // Final output name preserved through both passes.
    assert_eq!(graph.ops[0].outputs, vec!["y_i8"]);
}

#[test]
fn fold_qdq_prunes_unused_scale_initializers() {
    // Add a phantom F32 initializer that no surviving op references.
    let mut graph = build_graph_with_qdq_conv();
    graph.initializers.insert("orphan_scale".to_string(), vec![0u8; 4]);
    graph.shapes.insert("orphan_scale".to_string(), shape_f32(vec![]));

    let _ = fold_qdq_patterns(&mut graph).expect("fold");
    assert!(
        !graph.initializers.contains_key("orphan_scale"),
        "orphan initializer should be pruned"
    );
}

#[test]
fn a_scale_that_cannot_be_resolved_is_an_error() {
    for params in [
        OpParams::Empty,
        OpParams::DequantizePerChannel { scales: vec![], axis: 0 },
        OpParams::Requantize { scale: 1.0f32.to_bits() },
    ] {
        let mut graph = build_graph_with_qdq_conv();
        graph.ops[1].params = params;
        let before = graph.ops.len();
        match fold_qdq_patterns(&mut graph) {
            Err(Error::Compile(t)) => assert!(t.contains("dq_w"), "{t}"),
            _ => panic!("folded"),
        }
        assert_eq!(graph.ops.len(), before);
        assert!(graph.initializers.contains_key("w_i8"));
    }
}

#[test]
fn a_convolution_with_a_bias_is_not_folded() {
    let mut graph = build_graph_with_qdq_conv();
    let at = graph.ops.iter().position(|op| op.op_type == "Conv").unwrap();
    graph.ops[at].inputs.push("bias".to_string());
    let before = graph.ops.len();
    let stats = fold_qdq_patterns(&mut graph).unwrap();
    assert_eq!(stats.conv_folded, 0);
    assert_eq!(stats.nodes_removed(), 0);
    assert_eq!(graph.ops.len(), before);

    // An empty name stands for no bias.
    graph.ops[at].inputs[2] = String::new();
    assert_eq!(fold_qdq_patterns(&mut graph).unwrap().conv_folded, 1);
}
