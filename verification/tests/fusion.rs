use dragonwing::builder::{CompiledOp, OpParams};
use dragonwing::fusion::parts::take_apart;
use dragonwing::fusion::{apply_fusion_passes, count_fuseable_patterns};
use dragonwing::graph::Graph;
use dragonwing::name_map::NameMap;
use dragonwing::tensor::{Dtype, TensorShape};

fn names(v: &[&str]) -> Vec<String> {
    v.iter().map(|s| s.to_string()).collect()
}

fn op(name: &str, op_type: &str, inputs: &[&str], outputs: &[&str], params: OpParams) -> CompiledOp {
    CompiledOp {
        name: name.into(),
        op_type: op_type.into(),
        inputs: names(inputs),
        outputs: names(outputs),
        params,
    }
}

fn conv() -> OpParams {
    OpParams::Conv2d {
        kernel_shape: [3, 3],
        strides: [1, 1],
        pads: [1, 1, 1, 1],
        dilations: [1, 1],
        group: 1,
    }
}

fn graph(ops: Vec<CompiledOp>, inputs: &[&str], outputs: &[&str]) -> Graph {
    Graph {
        ops,
        shapes: NameMap::new(),
        inputs: names(inputs),
        outputs: names(outputs),
        initializers: NameMap::new(),
        dtype: Dtype::F32,
    }
}

#[test]
fn test_fusion_stats_empty() {
    let graph = graph(vec![], &[], &[]);
    let stats = count_fuseable_patterns(&graph);
    assert_eq!(stats.total(), 0);
}

#[test]
fn test_conv_relu_detection() {
    let graph = graph(
        vec![
            op("conv1", "Conv", &["input"], &["conv_out"], conv()),
            op("relu1", "Relu", &["conv_out"], &["relu_out"], OpParams::Empty),
        ],
        &["input"],
        &["relu_out"],
    );
    let stats = count_fuseable_patterns(&graph);
    assert_eq!(stats.conv_relu, 1);
}

#[test]
fn test_silu_detection() {
    let graph = graph(
        vec![
            op("sigmoid1", "Sigmoid", &["x"], &["sig_out"], OpParams::Sigmoid),
            op("mul1", "Mul", &["x", "sig_out"], &["silu_out"], OpParams::Mul),
        ],
        &["x"],
        &["silu_out"],
    );
    let stats = count_fuseable_patterns(&graph);
    assert_eq!(stats.silu, 1);
}

#[test]
fn test_fusion_removes_ops() {
    let mut graph = graph(
        vec![
            op("conv1", "Conv", &["input"], &["conv_out"], conv()),
            op("relu1", "Relu", &["conv_out"], &["relu_out"], OpParams::Empty),
        ],
        &["input"],
        &["relu_out"],
    );

    let before = graph.ops.len();
    apply_fusion_passes(&mut graph);
    let after = graph.ops.len();

    // Should have removed the Relu op
    assert_eq!(after, before - 1);
    // The remaining op should output to relu_out
    assert_eq!(graph.ops[0].outputs[0], "relu_out");
}

#[test]
fn a_convolution_read_twice_is_not_fused() {
    let mut graph = graph(
        vec![
            op("conv1", "Conv", &["input"], &["c"], conv()),
            op("relu1", "Relu", &["c"], &["a"], OpParams::Empty),
            op("relu2", "Relu", &["c"], &["b"], OpParams::Empty),
        ],
        &["input"],
        &["a", "b"],
    );
    apply_fusion_passes(&mut graph);
    assert_eq!(graph.ops.len(), 3);
}

#[test]
fn silu_becomes_one_op() {
    let mut graph = graph(
        vec![
            op("s", "Sigmoid", &["x"], &["t"], OpParams::Sigmoid),
            op("m", "Mul", &["x", "t"], &["y"], OpParams::Mul),
        ],
        &["x"],
        &["y"],
    );
    apply_fusion_passes(&mut graph);
    assert_eq!(graph.ops.len(), 1);
    assert_eq!(graph.ops[0].op_type, "SiLU");
    assert_eq!(graph.ops[0].inputs, vec!["x"]);
    assert_eq!(graph.ops[0].outputs, vec!["y"]);
}

#[test]
fn silu_of_a_computed_tensor_becomes_one_op() {
    for factors in [["c", "t"], ["t", "c"]] {
        let mut graph = graph(
            vec![
                op("conv", "Conv", &["input", "w"], &["c"], conv()),
                op("s", "Sigmoid", &["c"], &["t"], OpParams::Sigmoid),
                op("m", "Mul", &factors, &["y"], OpParams::Mul),
            ],
            &["input"],
            &["y"],
        );
        apply_fusion_passes(&mut graph);
        assert_eq!(graph.ops.len(), 2);
        assert_eq!(graph.ops[1].op_type, "SiLU");
        assert_eq!(graph.ops[1].inputs, vec!["c"]);
    }
}

#[test]
fn a_sigmoid_of_something_else_is_not_silu() {
    let mut graph = graph(
        vec![
            op("s", "Sigmoid", &["z"], &["t"], OpParams::Sigmoid),
            op("m", "Mul", &["x", "t"], &["y"], OpParams::Mul),
        ],
        &["x", "z"],
        &["y"],
    );
    apply_fusion_passes(&mut graph);
    assert_eq!(graph.ops.len(), 2);
}

#[test]
fn an_integer_convolution_takes_in_its_requantize_and_relu() {
    let scale = 0.25f32.to_bits();
    let mut graph = graph(
        vec![
            op("conv", "Conv", &["x", "w"], &["a"], conv()),
            op("rq", "Requantize", &["a_i32"], &["a"], OpParams::Requantize { scale }),
            op("relu", "Relu", &["a"], &["y"], OpParams::Empty),
        ],
        &["x"],
        &["y"],
    );
    assert_eq!(count_fuseable_patterns(&graph).conv_requant_relu_i8, 1);
    apply_fusion_passes(&mut graph);
    assert_eq!(graph.ops.len(), 1);
    assert_eq!(graph.ops[0].outputs, vec!["y"]);
    match &graph.ops[0].params {
        OpParams::Conv2dRequantReluI8Nhwc { requant_scale, has_relu, .. } => {
            assert_eq!(*requant_scale, scale);
            assert!(*has_relu);
        }
        _ => panic!("not fused"),
    }
}

fn biased(weight: &[usize], bias: &[usize], swap: bool) -> Graph {
    let addends = if swap { ["b", "c"] } else { ["c", "b"] };
    let mut g = graph(
        vec![
            op("conv", "Conv", &["x", "w"], &["c"], conv()),
            op("sum", "Add", &addends, &["s"], OpParams::Add),
            op("relu", "Relu", &["s"], &["y"], OpParams::Empty),
        ],
        &["x"],
        &["y"],
    );
    g.shapes.insert("w".to_string(), TensorShape::new(weight.to_vec(), Dtype::F32));
    g.shapes.insert("b".to_string(), TensorShape::new(bias.to_vec(), Dtype::F32));
    g.initializers.insert("w".to_string(), vec![]);
    g.initializers.insert("b".to_string(), vec![]);
    g
}

#[test]
fn a_convolution_takes_in_its_bias_and_relu() {
    for swap in [false, true] {
        for (w, b) in [
            (vec![8, 4, 3, 3], vec![1, 8, 1, 1]),
            (vec![8, 4, 3, 3], vec![8, 1, 1]),
            (vec![3, 3, 4, 8], vec![1, 1, 1, 8]),
            (vec![3, 3, 4, 8], vec![8]),
        ] {
            let mut g = biased(&w, &b, swap);
            assert_eq!(count_fuseable_patterns(&g).conv_bias_relu, 1);
            apply_fusion_passes(&mut g);
            assert_eq!(g.ops.len(), 1, "{w:?} {b:?}");
            assert_eq!(g.ops[0].inputs, vec!["x", "w", "b"]);
            assert_eq!(g.ops[0].outputs, vec!["y"]);
            assert!(matches!(g.ops[0].params, OpParams::Conv2dRelu { kernel_shape: [3, 3], .. }));
        }
    }
}

#[test]
fn a_sum_with_something_else_is_no_bias() {
    for (w, b) in [
        // Along the width, not the channels.
        (vec![8, 4, 3, 3], vec![8]),
        (vec![8, 4, 3, 3], vec![1, 1, 1, 8]),
        // Of another length, or a whole image.
        (vec![8, 4, 3, 3], vec![1, 7, 1, 1]),
        (vec![8, 4, 3, 3], vec![1, 8, 5, 5]),
        (vec![8, 4, 3, 3], vec![]),
        // Either layout fits the weight.
        (vec![3, 3, 3, 3], vec![3]),
    ] {
        let mut g = biased(&w, &b, false);
        assert_eq!(count_fuseable_patterns(&g).conv_bias_relu, 0);
        apply_fusion_passes(&mut g);
        assert_eq!(g.ops.len(), 3, "{w:?} {b:?}");
    }
    // Not a constant.
    let mut g = biased(&[8, 4, 3, 3], &[1, 8, 1, 1], false);
    g.initializers = NameMap::new();
    apply_fusion_passes(&mut g);
    assert_eq!(g.ops.len(), 3);
    // The sum is wanted.
    let mut g = biased(&[8, 4, 3, 3], &[1, 8, 1, 1], false);
    g.outputs = names(&["y", "s"]);
    apply_fusion_passes(&mut g);
    assert_eq!(g.ops.len(), 3);
}

#[test]
fn a_fused_convolution_keeps_its_relu() {
    let mut graph = graph(
        vec![
            op("conv1", "Conv", &["input", "w"], &["c"], conv()),
            op("relu1", "Relu", &["c"], &["y"], OpParams::Empty),
        ],
        &["input"],
        &["y"],
    );
    apply_fusion_passes(&mut graph);
    assert_eq!(graph.ops.len(), 1);
    assert!(matches!(graph.ops[0].params, OpParams::Conv2dRelu { group: 1, .. }));
    let apart = take_apart(graph, true);
    let types: Vec<&str> = apart.ops.iter().map(|o| o.op_type.as_str()).collect();
    assert_eq!(types, vec!["Conv", "Relu"]);
    assert!(matches!(apart.ops[0].params, OpParams::Conv2d { .. }));
    assert_eq!(apart.ops[1].inputs, vec!["y"]);
    assert_eq!(apart.ops[1].outputs, vec!["y"]);
}

#[test]
fn silu_is_taken_apart_where_that_is_asked_for() {
    let silu = || graph(vec![op("s", "SiLU", &["x"], &["y"], OpParams::Empty)], &["x"], &["y"]);
    assert_eq!(take_apart(silu(), false).ops.len(), 1);
    let apart = take_apart(silu(), true);
    assert_eq!(apart.ops[0].op_type, "Sigmoid");
    assert_eq!(apart.ops[1].op_type, "Mul");
    assert_eq!(apart.ops[1].inputs, vec!["x", "y"]);
    assert_eq!(apart.ops[1].outputs, vec!["y"]);
}

#[test]
fn an_output_of_the_graph_is_not_fused_away() {
    let mut g = graph(
        vec![
            op("conv1", "Conv", &["input", "w"], &["c"], conv()),
            op("relu1", "Relu", &["c"], &["y"], OpParams::Empty),
        ],
        &["input"],
        &["y", "c"],
    );
    apply_fusion_passes(&mut g);
    assert_eq!(g.ops.len(), 2);
    let mut g = graph(
        vec![
            op("s", "Sigmoid", &["x"], &["t"], OpParams::Sigmoid),
            op("m", "Mul", &["x", "t"], &["y"], OpParams::Mul),
        ],
        &["x"],
        &["t", "y"],
    );
    apply_fusion_passes(&mut g);
    assert_eq!(g.ops.len(), 2);
}

#[test]
fn a_product_with_the_sigmoid_of_something_else_is_not_counted() {
    let ops = |x: &str| {
        vec![
            op("s", "Sigmoid", &["x"], &["t"], OpParams::Sigmoid),
            op("m", "Mul", &[x, "t"], &["z"], OpParams::Mul),
        ]
    };
    assert_eq!(count_fuseable_patterns(&graph(ops("y"), &["x", "y"], &["z"])).silu, 0);
    assert_eq!(count_fuseable_patterns(&graph(ops("x"), &["x"], &["z"])).silu, 1);
}
