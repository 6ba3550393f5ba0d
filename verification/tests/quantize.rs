use dragonwing::builder::{CompiledOp, OpParams};
use dragonwing::calibration::percentile::{find_percentile_bounds, sort};
use dragonwing::calibration::{CalibrationStrategy, Calibrator, TensorStats};
use dragonwing::error::Error;
use dragonwing::graph::Graph;
use dragonwing::int8::{dequantize_i8_to_f32, quantize_f32_to_i8};
use dragonwing::name_map::NameMap;
use dragonwing::quantize::{bytes_to_f32, quantize_weights_per_channel, QuantizedGraphCompiler, QuantizedGraphInfo};
use dragonwing::scales::QuantizationParams;
use dragonwing::tensor::{Dtype, PerChannelScale, QuantScale, TensorShape};

fn names(v: &[&str]) -> Vec<String> {
    v.iter().map(|s| s.to_string()).collect()
}

fn bits(v: &[f32]) -> Vec<u32> {
    v.iter().map(|x| x.to_bits()).collect()
}

fn f(bits: u32) -> f32 {
    f32::from_bits(bits)
}

fn exp(x: u32) -> u32 {
    f32::from_bits(x).exp().to_bits()
}

#[test]
fn tensor_stats_basic() {
    let mut stats = TensorStats::new();
    assert_eq!(f(stats.min), f32::INFINITY);
    assert_eq!(f(stats.max), f32::NEG_INFINITY);

    stats.update(&bits(&[-1.0, 0.0, 1.0, 2.0]));
    assert_eq!(f(stats.min), -1.0);
    assert_eq!(f(stats.max), 2.0);
    assert_eq!(stats.count, 1);

    stats.update(&bits(&[-3.0, 5.0]));
    assert_eq!(f(stats.min), -3.0);
    assert_eq!(f(stats.max), 5.0);
    assert_eq!(stats.count, 2);
}

#[test]
fn tensor_stats_compute_scale() {
    let mut stats = TensorStats::new();
    stats.update(&bits(&[-1.27, 0.5, 1.0]));

    let scale = stats.compute_scale();
    // max(|min|, |max|) = 1.27, scale = 1.27 / 127 = 0.01
    assert!((f(scale.scale) - 0.01).abs() < 1e-6);
}

#[test]
fn test_quantize_weights_per_channel() {
    // 2 output channels, 2 elements per channel
    let weights = bits(&[0.5f32, 1.0, -0.5, -1.0]);
    let shape = vec![2, 2]; // [C_out, C_in]

    // Scale 0.01 means max representable is 1.27
    let scales = PerChannelScale { scales: bits(&[0.01, 0.01]) };

    let quantized = quantize_weights_per_channel(&weights, &shape, &scales);

    // 0.5 / 0.01 = 50, 1.0 / 0.01 = 100
    // -0.5 / 0.01 = -50, -1.0 / 0.01 = -100
    assert_eq!(quantized.len(), 4);
    assert_eq!(quantized[0] as i8, 50);
    assert_eq!(quantized[1] as i8, 100);
    assert_eq!(quantized[2] as i8, -50);
    assert_eq!(quantized[3] as i8, -100);
}

#[test]
fn weights_come_back_within_a_step_of_their_channel() {
    let weights: Vec<f32> = (0..60).map(|i| ((i * 37) % 61) as f32 * 0.03 - 0.9).collect();
    let scales = PerChannelScale::from_weights(&bits(&weights), 4);
    let quantized = quantize_weights_per_channel(&bits(&weights), &[4, 15], &scales);
    for (i, w) in weights.iter().enumerate() {
        let scale = f(scales.scales[i / 15]);
        let back = (quantized[i] as i8) as f32 * scale;
        assert!((back - w).abs() < scale, "{w} became {back}");
    }
}

#[test]
fn values_that_were_seen_come_back_within_a_step() {
    let mut stats = TensorStats::new();
    let values = [0.3f32, -1.7, 0.0, 1.1, -0.004];
    stats.update(&bits(&values));
    let scale = stats.compute_scale().scale;
    for v in values {
        let q = quantize_f32_to_i8(&bits(&[v]), scale);
        let back = f(dequantize_i8_to_f32(&q, scale)[0]);
        assert!((back - v).abs() < f(scale), "{v} became {back}");
    }
    // The value furthest from zero takes the last byte.
    assert_eq!(quantize_f32_to_i8(&bits(&[-1.7]), scale), vec![-127]);
}

#[test]
fn test_bytes_to_f32() {
    let f32_val = 1.5f32;
    let bytes = f32_val.to_le_bytes().to_vec();

    let result = bytes_to_f32(&bytes);
    assert_eq!(result.len(), 1);
    assert!((f(result[0]) - 1.5).abs() < 1e-6);
}

fn conv_graph() -> Graph {
    let mut shapes = NameMap::new();
    shapes.insert("x".to_string(), TensorShape::new(vec![1, 1, 2, 2], Dtype::F32));
    shapes.insert("w".to_string(), TensorShape::new(vec![2, 1, 1, 1], Dtype::F32));
    shapes.insert("c".to_string(), TensorShape::new(vec![1, 2, 2, 2], Dtype::F32));
    shapes.insert("y".to_string(), TensorShape::new(vec![1, 2, 2, 2], Dtype::F32));
    let mut initializers = NameMap::new();
    let w: Vec<u8> = [2.0f32, -4.0].iter().flat_map(|v| v.to_le_bytes()).collect();
    initializers.insert("w".to_string(), w);
    Graph {
        ops: vec![
            CompiledOp {
                name: "conv".into(),
                op_type: "Conv".into(),
                inputs: names(&["x", "w"]),
                outputs: names(&["c"]),
                params: OpParams::Conv2d {
                    kernel_shape: [1, 1],
                    strides: [1, 1],
                    pads: [0, 0, 0, 0],
                    dilations: [1, 1],
                    group: 1,
                },
            },
            CompiledOp {
                name: "sig".into(),
                op_type: "Sigmoid".into(),
                inputs: names(&["c"]),
                outputs: names(&["y"]),
                params: OpParams::Sigmoid,
            },
        ],
        shapes,
        inputs: names(&["x"]),
        outputs: names(&["y"]),
        initializers,
        dtype: Dtype::F32,
    }
}

#[test]
fn a_calibrator_watches_every_activation() {
    let mut c = Calibrator::new(conv_graph()).unwrap().with_strategy(CalibrationStrategy::MinMax);
    assert_eq!(c.sample_count(), 0);
    assert_eq!(c.inputs().len(), 1);
    c.feed("x", &bits(&[1.0, 2.0, 3.0, -1.0]), &exp).unwrap();
    c.feed("x", &bits(&[0.5, 0.0, 0.0, 0.0]), &exp).unwrap();
    assert_eq!(c.sample_count(), 2);
    let (min, max, count) = c.get_stats("c").unwrap();
    assert_eq!((f(min), f(max), count), (-12.0, 6.0, 2));
    // Inputs are not computed by an op.
    assert!(c.get_stats("x").is_none());
    let (min, max, _) = c.get_stats("y").unwrap();
    assert!((f(min) - 1.0 / (1.0 + 12.0f32.exp())).abs() < 1e-6);
    assert!((f(max) - 1.0 / (1.0 + (-6.0f32).exp())).abs() < 1e-6);
    assert!(c.get_stats("w").is_none());
    let params = c.compute_params().unwrap();
    assert!((f(params.get_activation_scale("c").unwrap().scale) - 12.0 / 127.0).abs() < 1e-6);
    let w = &params.get_weight_scales("w").unwrap().scales;
    assert!((f(w[0]) - 2.0 / 127.0).abs() < 1e-7 && (f(w[1]) - 4.0 / 127.0).abs() < 1e-7);
}

#[test]
fn a_calibrator_refuses_unknown_or_wrong_inputs() {
    let mut c = Calibrator::new(conv_graph()).unwrap();
    assert!(matches!(c.feed("nothing", &[], &exp), Err(Error::Runtime(_))));
    assert!(c.feed("x", &[0], &exp).is_err());
    assert_eq!(c.sample_count(), 0);
    assert!(matches!(c.compute_params(), Err(Error::Validation(_))));
}

#[test]
fn a_compiled_graph_requantizes_after_the_convolution() {
    let mut params = QuantizationParams::new();
    for (name, scale) in [("x", 0.5f32), ("c", 0.25), ("y", 0.01)] {
        params.add_activation_scale(name.to_string(), QuantScale { scale: scale.to_bits() });
    }
    params.add_weight_scales("w".to_string(), PerChannelScale { scales: bits(&[0.02, 0.04]) });
    let graph = QuantizedGraphCompiler::new(params).compile(conv_graph()).unwrap();
    let types: Vec<&str> = graph.ops.iter().map(|o| o.op_type.as_str()).collect();
    assert_eq!(types.iter().filter(|t| **t == "Requantize").count(), 1);
    let at = types.iter().position(|t| *t == "Conv").unwrap();
    assert_eq!(types[at + 1], "Requantize");
    match &graph.ops[at + 1].params {
        // (0.5 * mean(0.02, 0.04)) / 0.25
        OpParams::Requantize { scale } => assert!((f(*scale) - 0.06).abs() < 1e-6),
        _ => panic!("not a requantization"),
    }
    let w = graph.initializers.get("w").unwrap();
    assert_eq!((w[0] as i8, w[1] as i8), (100, -100));
    let info = QuantizedGraphInfo::from_graph(&graph);
    assert_eq!(info.num_requant_ops, 1);
}

#[test]
fn a_weight_that_ops_share_is_quantized_once() {
    for recorded in [true, false] {
        let mut shared = conv_graph();
        let mut second = shared.ops[0].clone();
        second.name = "conv2".to_string();
        second.outputs = names(&["d"]);
        shared.ops.push(second);
        shared.shapes.insert("d".to_string(), TensorShape::new(vec![1, 2, 2, 2], Dtype::F32));
        let mut params = QuantizationParams::new();
        if recorded {
            params.add_weight_scales("w".to_string(), PerChannelScale { scales: bits(&[0.02, 0.04]) });
        }
        let graph = QuantizedGraphCompiler::new(params).compile(shared).unwrap();
        let w: Vec<i8> = graph.initializers.get("w").unwrap().iter().map(|b| *b as i8).collect();
        assert_eq!(w, if recorded { vec![100, -100] } else { vec![127, -127] });
        assert_eq!(QuantizedGraphInfo::from_graph(&graph).num_requant_ops, 2);
    }
}

/// A graph with one Relu, whose output is as its input where nothing is negative.
fn relu_graph(n: usize) -> Graph {
    let mut shapes = NameMap::new();
    shapes.insert("x".to_string(), TensorShape::new(vec![n], Dtype::F32));
    shapes.insert("y".to_string(), TensorShape::new(vec![n], Dtype::F32));
    Graph {
        ops: vec![CompiledOp {
            name: "relu".into(),
            op_type: "Relu".into(),
            inputs: names(&["x"]),
            outputs: names(&["y"]),
            params: OpParams::Empty,
        }],
        shapes,
        inputs: names(&["x"]),
        outputs: names(&["y"]),
        initializers: NameMap::new(),
        dtype: Dtype::F32,
    }
}

#[test]
fn a_percentile_leaves_outliers_out() {
    let mut values: Vec<f32> = (1..=99).map(|v| v as f32).collect();
    values.push(10000.0);
    let scale = |strategy: CalibrationStrategy| -> f32 {
        let mut c = Calibrator::new(relu_graph(100)).unwrap().with_strategy(strategy);
        c.feed("x", &bits(&values), &exp).unwrap();
        assert_eq!(c.get_stats("y").map(|s| f(s.1)), Some(10000.0));
        f(c.compute_params().unwrap().get_activation_scale("y").unwrap().scale)
    };
    assert_eq!(scale(CalibrationStrategy::MinMax), 10000.0 / 127.0);
    assert_eq!(scale(CalibrationStrategy::Percentile { percentile: 9900 }), 99.0 / 127.0);
    assert_eq!(scale(CalibrationStrategy::Percentile { percentile: 9000 }), 90.0 / 127.0);
    assert_eq!(scale(CalibrationStrategy::Percentile { percentile: 9999 }), 10000.0 / 127.0);
    assert_eq!(scale(CalibrationStrategy::Percentile { percentile: 10000 }), 10000.0 / 127.0);
}

#[test]
fn percentiles_go_by_value_on_both_sides() {
    let values = bits(&[3.0, -0.0, 0.0, -8.0, 1e-40, -1e-40, 2.0, -1.0, 5.0, 4.0]);
    let sorted: Vec<f32> = sort(&values).iter().map(|v| f(*v)).collect();
    assert_eq!(sorted, vec![-8.0, -1.0, -1e-40, -0.0, 0.0, 1e-40, 2.0, 3.0, 4.0, 5.0]);
    let bounds = |p: u32| -> (f32, f32) {
        let (a, b) = find_percentile_bounds(&values, p);
        (f(a), f(b))
    };
    assert_eq!(bounds(10000), (-8.0, 5.0));
    assert_eq!(bounds(9000), (-1.0, 4.0));
    assert_eq!(bounds(12345), (-8.0, 5.0));
    assert_eq!(find_percentile_bounds(&bits(&[7.0]), 0), (7.0f32.to_bits(), 7.0f32.to_bits()));
}

#[test]
fn a_convolution_of_nothing_needs_no_weight() {
    // No image, and a weight that is too small for the kernel: nothing is read.
    let mut graph = conv_graph();
    graph.shapes.insert("x".to_string(), TensorShape::new(vec![0, 1, 2, 2], Dtype::F32));
    graph.shapes.insert("c".to_string(), TensorShape::new(vec![0, 2, 2, 2], Dtype::F32));
    graph.shapes.insert("y".to_string(), TensorShape::new(vec![0, 2, 2, 2], Dtype::F32));
    graph.shapes.insert("w".to_string(), TensorShape::new(vec![2], Dtype::F32));
    if let OpParams::Conv2d { kernel_shape, .. } = &mut graph.ops[0].params {
        *kernel_shape = [3, 3];
    }
    let mut c = Calibrator::new(graph).unwrap();
    c.feed("x", &[], &exp).unwrap();
    assert_eq!(c.sample_count(), 1);

    // With padding only the middle of the kernel meets the image.
    let mut graph = conv_graph();
    graph.shapes.insert("x".to_string(), TensorShape::new(vec![1, 1, 1, 1], Dtype::F32));
    graph.shapes.insert("c".to_string(), TensorShape::new(vec![1, 1, 1, 1], Dtype::F32));
    graph.shapes.insert("y".to_string(), TensorShape::new(vec![1, 1, 1, 1], Dtype::F32));
    graph.shapes.insert("w".to_string(), TensorShape::new(vec![1, 5], Dtype::F32));
    let w: Vec<u8> = [1.0f32, 2.0, 3.0, 4.0, 7.0].iter().flat_map(|v| v.to_le_bytes()).collect();
    graph.initializers.insert("w".to_string(), w);
    if let OpParams::Conv2d { kernel_shape, pads, .. } = &mut graph.ops[0].params {
        *kernel_shape = [3, 3];
        *pads = [1, 1, 1, 1];
    }
    let mut c = Calibrator::new(graph).unwrap();
    c.feed("x", &bits(&[2.0]), &exp).unwrap();
    assert_eq!(c.get_stats("c").map(|s| (f(s.0), f(s.1))), Some((14.0, 14.0)));
}

#[test]
fn a_calibrator_runs_fused_ops() {
    let mut graph = conv_graph();
    graph.ops[0].params = OpParams::Conv2dRelu {
        kernel_shape: [1, 1],
        strides: [1, 1],
        pads: [0, 0, 0, 0],
        dilations: [1, 1],
        group: 1,
    };
    graph.ops[1].op_type = "SiLU".into();
    graph.ops[1].params = OpParams::Empty;
    let mut c = Calibrator::new(graph).unwrap();
    c.feed("x", &bits(&[1.0, 2.0, 3.0, -1.0]), &exp).unwrap();
    let (min, max, count) = c.get_stats("c").unwrap();
    assert_eq!((f(min), f(max), count), (0.0, 6.0, 1));
    let silu = |x: f32| x / (1.0 + (-x).exp());
    let (min, max, _) = c.get_stats("y").unwrap();
    assert!(f(min).abs() < 1e-6);
    assert!((f(max) - silu(6.0)).abs() < 1e-5);
}
