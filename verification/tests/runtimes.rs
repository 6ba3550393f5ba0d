use std::cell::RefCell;

use dragonwing::builder::{CompiledOp, OpParams};
use dragonwing::calibration::Calibrator;
use dragonwing::error::Error;
use dragonwing::fusion::apply_fusion_passes;
use dragonwing::graph::Graph;
use dragonwing::kernels::Arithmetic;
use dragonwing::name_map::NameMap;
use dragonwing::relayout::fold_gemm_transpose;
use dragonwing::runtime::cpu::{CpuGraphRuntime, Kernel, KernelCall, Numbers, Threads};
use dragonwing::runtime::generic::GraphRuntime;
use dragonwing::tensor::{Dtype, TensorShape};

type Dims<'a> = (&'a str, &'a [usize]);

fn bits(v: &[f32]) -> Vec<u32> {
    v.iter().map(|x| x.to_bits()).collect()
}

fn floats(v: &[u32]) -> Vec<f32> {
    v.iter().map(|x| f32::from_bits(*x)).collect()
}

fn le(v: &[f32]) -> Vec<u8> {
    v.iter().flat_map(|x| x.to_le_bytes()).collect()
}

fn from_le(b: &[u8]) -> Vec<f32> {
    b.chunks_exact(4).map(|c| f32::from_le_bytes([c[0], c[1], c[2], c[3]])).collect()
}

fn exp(x: u32) -> u32 {
    f32::from_bits(x).exp().to_bits()
}

/// A graph of one op.
fn graph(dtype: Dtype, op_type: &str, params: OpParams, inputs: &[Dims<'_>], outputs: &[Dims<'_>]) -> Graph {
    let mut shapes = NameMap::new();
    for (name, dims) in inputs.iter().chain(outputs) {
        shapes.insert(name.to_string(), TensorShape::new(dims.to_vec(), dtype));
    }
    let names = |v: &[Dims<'_>]| -> Vec<String> { v.iter().map(|(n, _)| n.to_string()).collect() };
    Graph {
        ops: vec![CompiledOp {
            name: "op".into(),
            op_type: op_type.into(),
            inputs: names(inputs),
            outputs: names(outputs),
            params,
        }],
        shapes,
        inputs: names(inputs),
        outputs: names(outputs),
        initializers: NameMap::new(),
        dtype,
    }
}

fn gemm(trans_a: bool, trans_b: bool) -> OpParams {
    OpParams::Gemm { alpha: 1.0f32.to_bits(), beta: 1.0f32.to_bits(), trans_a, trans_b }
}

/// What the generic runtime makes of an op.
fn generic(g: Graph, data: &[(&str, &[f32])]) -> Result<Vec<f32>, String> {
    let out = g.outputs[0].clone();
    let mut rt = GraphRuntime::new(g).unwrap();
    let mut inputs = NameMap::new();
    for (name, v) in data {
        inputs.insert(name.to_string(), le(v));
    }
    match rt.run(&inputs, &exp) {
        Ok(r) => Ok(from_le(r.get(&out).unwrap())),
        Err(Error::Runtime(t)) => Err(t),
        Err(e) => Err(e.message()),
    }
}

/// What the CPU runtime makes of an op, given the kernels' answers; the calls are kept.
fn cpu(g: Graph, data: &[(&str, &[f32])], answers: Vec<Numbers>) -> (Result<CpuGraphRuntime, String>, Vec<KernelCall>) {
    let mut rt = CpuGraphRuntime::with_threads(g, 3).unwrap();
    for (name, v) in data {
        rt.set_input_f32(name, &bits(v)).unwrap();
    }
    let calls = RefCell::new(Vec::new());
    let left = RefCell::new(answers);
    let r = rt.run(&|call: KernelCall| {
        calls.borrow_mut().push(call);
        left.borrow_mut().drain(..).collect()
    });
    let r = match r {
        Ok(()) => Ok(rt),
        Err(Error::Runtime(t)) => Err(t),
        Err(e) => Err(e.message()),
    };
    (r, calls.into_inner())
}

fn output(r: &Result<CpuGraphRuntime, String>, name: &str) -> Vec<f32> {
    match r {
        Ok(rt) => floats(&rt.get_output_f32(name).unwrap()),
        Err(t) => panic!("{t}"),
    }
}

fn singles(v: &[f32]) -> Numbers {
    Numbers::Singles(bits(v))
}

fn given(call: &KernelCall, i: usize) -> Vec<f32> {
    match &call.inputs[i] {
        Numbers::Singles(v) => floats(v),
        Numbers::Halves(_) => panic!("halves"),
    }
}

// ---------------------------------------------------------------------------
// The generic runtime
// ---------------------------------------------------------------------------

#[test]
fn the_generic_runtime_adds_and_broadcasts() {
    let x: &[f32] = &[1.0, 2.0, 3.0, 4.0];
    for (b, expected) in [
        (vec![10.0f32, 20.0, 30.0, 40.0], vec![11.0f32, 22.0, 33.0, 44.0]),
        (vec![10.0], vec![11.0, 12.0, 13.0, 14.0]),
        (vec![10.0, 20.0], vec![11.0, 22.0, 13.0, 24.0]),
    ] {
        let g = graph(Dtype::F32, "Add", OpParams::Add, &[("x", &[2, 2]), ("b", &[b.len()])], &[("y", &[2, 2])]);
        assert_eq!(generic(g, &[("x", x), ("b", &b)]).unwrap(), expected);
    }
}

#[test]
fn the_generic_runtime_clips_and_rectifies() {
    let x: &[f32] = &[-2.0, 0.5, 9.0];
    let clip = OpParams::Clip { min: 0.0f32.to_bits(), max: 6.0f32.to_bits() };
    let g = graph(Dtype::F32, "Clip", clip, &[("x", &[3])], &[("y", &[3])]);
    assert_eq!(generic(g, &[("x", x)]).unwrap(), vec![0.0, 0.5, 6.0]);
    let g = graph(Dtype::F32, "Relu", OpParams::Empty, &[("x", &[3])], &[("y", &[3])]);
    assert_eq!(generic(g, &[("x", x)]).unwrap(), vec![0.0, 0.5, 9.0]);
    let mut g = graph(Dtype::F32, "Relu", OpParams::Empty, &[("x", &[3])], &[("y", &[3])]);
    g.ops[0].outputs[0] = "x".into();
    assert_eq!(generic(g, &[("x", x)]).unwrap_err(), "in-place relu not yet implemented");
}

#[test]
fn the_generic_runtime_averages_each_channel() {
    let g = graph(
        Dtype::F32,
        "GlobalAveragePool",
        OpParams::GlobalAvgPool,
        &[("x", &[1, 2, 2, 2])],
        &[("y", &[1, 2, 1, 1])],
    );
    let x: &[f32] = &[1.0, 2.0, 3.0, 4.0, 10.0, 20.0, 30.0, 40.0];
    assert_eq!(generic(g, &[("x", x)]).unwrap(), vec![2.5, 25.0]);
    let g = graph(Dtype::F32, "GlobalAveragePool", OpParams::GlobalAvgPool, &[("x", &[4])], &[("y", &[1])]);
    assert_eq!(
        generic(g, &[("x", &[0.0; 4])]).unwrap_err(),
        "GlobalAvgPool input must be 4D"
    );
}

#[test]
fn the_generic_runtime_multiplies_transposed_matrices() {
    // a = [1 2 3; 4 5 6], b = [1 2; 3 4; 5 6]: a * b = [22 28; 49 64].
    let a: &[f32] = &[1.0, 2.0, 3.0, 4.0, 5.0, 6.0];
    let at: &[f32] = &[1.0, 4.0, 2.0, 5.0, 3.0, 6.0];
    let b: &[f32] = &[1.0, 2.0, 3.0, 4.0, 5.0, 6.0];
    let bt: &[f32] = &[1.0, 3.0, 5.0, 2.0, 4.0, 6.0];
    for (ta, tb) in [(false, false), (true, false), (false, true), (true, true)] {
        let a_dims: &[usize] = if ta { &[3, 2] } else { &[2, 3] };
        let b_dims: &[usize] = if tb { &[2, 3] } else { &[3, 2] };
        let g = graph(Dtype::F32, "Gemm", gemm(ta, tb), &[("a", a_dims), ("b", b_dims)], &[("y", &[2, 2])]);
        let data: [(&str, &[f32]); 2] = [("a", if ta { at } else { a }), ("b", if tb { bt } else { b })];
        assert_eq!(generic(g, &data).unwrap(), vec![22.0, 28.0, 49.0, 64.0]);
    }
}

#[test]
fn folding_a_transposition_keeps_the_product() {
    let bt: Vec<f32> = vec![1.0, 3.0, 5.0, 2.0, 4.0, 6.0];
    let make = || {
        let mut g = graph(Dtype::F32, "Gemm", gemm(false, true), &[("a", &[1, 3]), ("b", &[2, 3])], &[("y", &[1, 2])]);
        g.initializers.insert("b".to_string(), le(&bt));
        g
    };
    let a: &[f32] = &[0.1, 0.2, 0.3];
    let before = generic(make(), &[("a", a)]).unwrap();
    let mut folded = make();
    fold_gemm_transpose(&mut folded).unwrap();
    assert!(matches!(folded.ops[0].params, OpParams::Gemm { trans_b: false, .. }));
    assert_eq!(generic(folded, &[("a", a)]).unwrap(), before);
}

#[test]
fn the_generic_runtime_copies_reshaped_data() {
    let params = OpParams::Reshape { shape: vec![3, 2] };
    let g = graph(Dtype::F32, "Reshape", params, &[("x", &[2, 3])], &[("y", &[3, 2])]);
    let x: &[f32] = &[1.0, 2.0, 3.0, 4.0, 5.0, 6.0];
    assert_eq!(generic(g, &[("x", x)]).unwrap(), x.to_vec());
}

#[test]
fn the_generic_runtime_names_what_it_does_not_do() {
    let pool = OpParams::MaxPool { kernel_shape: [2, 2], strides: [2, 2], pads: [0; 4] };
    let g = graph(Dtype::F32, "MaxPool", pool, &[("x", &[1, 2, 2, 1])], &[("y", &[1, 1, 1, 1])]);
    assert_eq!(
        generic(g, &[]).unwrap_err(),
        "MaxPool/AvgPool not implemented in generic runtime, use CpuGraphRuntime"
    );
    let g = graph(Dtype::F32, "Sigmoid", OpParams::Sigmoid, &[("x", &[1])], &[("y", &[1])]);
    assert_eq!(
        generic(g, &[]).unwrap_err(),
        "Sigmoid not implemented in generic runtime, use CpuGraphRuntime"
    );
    let conv = OpParams::Conv2d {
        kernel_shape: [1, 1],
        strides: [1, 1],
        pads: [0; 4],
        dilations: [1, 1],
        group: 1,
    };
    let g = graph(Dtype::F32, "Conv", conv, &[("x", &[1, 1, 1, 1]), ("w", &[1, 1, 1, 1])], &[("y", &[1, 1, 1, 1])]);
    assert_eq!(
        generic(g, &[]).unwrap_err(),
        "Conv2D dispatch not yet implemented for generic backend (op: op)"
    );
}

#[test]
fn the_generic_runtime_works_on_halves() {
    let g = graph(Dtype::F16, "Add", OpParams::Add, &[("x", &[2]), ("b", &[1])], &[("y", &[2])]);
    let mut rt = GraphRuntime::new(g).unwrap();
    let mut inputs = NameMap::new();
    // 1 and 2, and 0.5.
    inputs.insert("x".to_string(), vec![0x00, 0x3c, 0x00, 0x40]);
    inputs.insert("b".to_string(), vec![0x00, 0x38]);
    let out = rt.run(&inputs, &exp).unwrap();
    // 1.5 and 2.5.
    assert_eq!(out.get("y").unwrap(), &vec![0x00, 0x3e, 0x00, 0x41]);
}

// ---------------------------------------------------------------------------
// The CPU runtime
// ---------------------------------------------------------------------------

#[test]
fn inputs_of_the_cpu_runtime_read_back() {
    for dtype in [Dtype::F32, Dtype::F16] {
        let g = graph(dtype, "Relu", OpParams::Empty, &[("x", &[3])], &[("y", &[3])]);
        let mut rt = CpuGraphRuntime::new(g, 1).unwrap();
        rt.set_input_f32("x", &bits(&[0.5, -2.0, 65504.0])).unwrap();
        assert_eq!(floats(&rt.get_output_f32("x").unwrap()), vec![0.5, -2.0, 65504.0]);
    }
}

#[test]
fn equal_shapes_go_to_a_kernel_and_others_do_not() {
    for (params, kind, op_type, same, one, rows) in [
        (OpParams::Add, Arithmetic::Sum, "Add", 7.0f32, [9.0f32, 8.0], [9.0f32, 6.0]),
        (OpParams::Sub, Arithmetic::Difference, "Sub", 7.0, [7.0, 6.0], [7.0, 8.0]),
        (OpParams::Mul, Arithmetic::Product, "Mul", 7.0, [8.0, 7.0], [8.0, -7.0]),
        (OpParams::Div, Arithmetic::Quotient, "Div", 7.0, [8.0, 7.0], [8.0, -7.0]),
    ] {
        let make = |params: OpParams, b: &[usize]| {
            graph(Dtype::F32, op_type, params, &[("x", &[2]), ("b", b)], &[("y", &[2])])
        };
        let (r, calls) = cpu(make(params.clone(), &[2]), &[("x", &[8.0, 7.0]), ("b", &[1.0, 2.0])], vec![singles(&[same, same])]);
        assert_eq!(output(&r, "y"), vec![same, same]);
        assert_eq!(calls.len(), 1);
        assert!(matches!(&calls[0].kernel, Kernel::Combine(k) if *k == kind));
        assert_eq!((given(&calls[0], 0), given(&calls[0], 1)), (vec![8.0, 7.0], vec![1.0, 2.0]));
        let (r, calls) = cpu(make(params.clone(), &[1]), &[("x", &[8.0, 7.0]), ("b", &[1.0])], vec![]);
        assert_eq!(output(&r, "y"), one.to_vec());
        assert!(calls.is_empty());
        // x has four elements, the second operand two: it is repeated.
        let g = graph(Dtype::F32, op_type, params, &[("x", &[2, 2]), ("b", &[2])], &[("y", &[2, 2])]);
        let (r, _) = cpu(g, &[("x", &[8.0, 7.0, 8.0, 7.0]), ("b", &[1.0, -1.0])], vec![]);
        let y = output(&r, "y");
        assert_eq!(y[..2], rows[..]);
        assert_eq!(y[2..], rows[..]);
    }
}

#[test]
fn the_cpu_runtime_averages_channels_last() {
    let g = graph(
        Dtype::F32,
        "GlobalAveragePool",
        OpParams::GlobalAvgPool,
        &[("x", &[1, 2, 2, 2])],
        &[("y", &[1, 1, 1, 2])],
    );
    let (r, calls) = cpu(g, &[("x", &[1.0, 10.0, 2.0, 20.0, 3.0, 30.0, 4.0, 40.0])], vec![]);
    assert_eq!(output(&r, "y"), vec![2.5, 25.0]);
    assert!(calls.is_empty());
}

#[test]
fn convolutions_get_their_bias_after_the_kernel() {
    let conv = |group: usize| OpParams::Conv2d {
        kernel_shape: [1, 1],
        strides: [1, 1],
        pads: [0; 4],
        dilations: [1, 1],
        group,
    };
    let inputs: [Dims<'_>; 3] = [("x", &[1, 1, 2, 2]), ("w", &[1, 1, 2, 2]), ("b", &[2])];
    let data: [(&str, &[f32]); 3] = [("x", &[1.0; 4]), ("w", &[1.0; 4]), ("b", &[10.0, 20.0])];
    let g = graph(Dtype::F32, "Conv", conv(1), &inputs, &[("y", &[1, 1, 2, 2])]);
    let (r, calls) = cpu(g, &data, vec![singles(&[1.0, 2.0, 3.0, 4.0])]);
    assert_eq!(output(&r, "y"), vec![11.0, 22.0, 13.0, 24.0]);
    match &calls[0].kernel {
        Kernel::Conv { image, threads } => {
            assert_eq!((image.n, image.h_in, image.w_in, image.c_in, image.c_out), (1, 1, 2, 2, 2));
            assert_eq!(*threads, Threads::Threaded(3));
        }
        k => panic!("{k:?}"),
    }
    // One group for each channel.
    let g = graph(Dtype::F32, "Conv", conv(2), &inputs, &[("y", &[1, 1, 2, 2])]);
    let (_, calls) = cpu(g, &data, vec![singles(&[0.0; 4])]);
    assert!(matches!(&calls[0].kernel, Kernel::DepthwiseConv { image, .. } if image.c_out == 1));
    // Anything in between is not done.
    let g = graph(Dtype::F32, "Conv", conv(3), &inputs, &[("y", &[1, 1, 2, 2])]);
    let (r, calls) = cpu(g, &data, vec![]);
    assert!(calls.is_empty());
    match r {
        Err(t) => assert_eq!(t, "general grouped convolution not yet supported (group=3, c_in=2)"),
        Ok(_) => panic!("ran"),
    }
}

#[test]
fn splitting_hands_every_output_to_one_kernel() {
    let params = OpParams::Split { axis: 3, split_sizes: vec![1, 2] };
    let g = graph(
        Dtype::F32,
        "Split",
        params,
        &[("x", &[1, 1, 1, 3])],
        &[("a", &[1, 1, 1, 1]), ("b", &[1, 1, 1, 2])],
    );
    let (r, calls) = cpu(g, &[("x", &[1.0, 2.0, 3.0])], vec![singles(&[1.0]), singles(&[2.0, 3.0])]);
    assert_eq!((output(&r, "a"), output(&r, "b")), (vec![1.0], vec![2.0, 3.0]));
    match &calls[0].kernel {
        Kernel::Split { shape, axis, sizes } => {
            assert_eq!((shape.clone(), *axis, sizes.clone()), (vec![1, 1, 1, 3], 3, vec![1, 2]));
        }
        k => panic!("{k:?}"),
    }
}

#[test]
fn joining_hands_over_shapes_of_four_dimensions() {
    let g = graph(
        Dtype::F32,
        "Concat",
        OpParams::Concat { axis: 1 },
        &[("a", &[2, 1]), ("b", &[2, 2])],
        &[("y", &[2, 3])],
    );
    let (r, calls) = cpu(g, &[("a", &[1.0, 2.0]), ("b", &[3.0, 4.0, 5.0, 6.0])], vec![singles(&[0.5; 6])]);
    assert_eq!(output(&r, "y"), vec![0.5; 6]);
    match &calls[0].kernel {
        Kernel::Concat { shapes, axis } => {
            assert_eq!(shapes, &vec![vec![1, 1, 2, 1], vec![1, 1, 2, 2]]);
            assert_eq!(*axis, 1);
        }
        k => panic!("{k:?}"),
    }
    assert_eq!(given(&calls[0], 1), vec![3.0, 4.0, 5.0, 6.0]);
}

#[test]
fn resizing_slicing_and_transposing_go_to_kernels() {
    let x: Dims<'_> = ("x", &[1, 2, 2, 1]);
    let data: [(&str, &[f32]); 1] = [("x", &[1.0, 2.0, 3.0, 4.0])];
    let resize = |mode: &str| OpParams::Resize { out_h: 1, out_w: 2, mode: mode.into() };
    let g = graph(Dtype::F32, "Resize", resize("linear"), &[x], &[("y", &[1, 1, 2, 1])]);
    let (_, calls) = cpu(g, &data, vec![singles(&[0.0; 2])]);
    assert!(matches!(&calls[0].kernel, Kernel::Resize { out_h: 1, out_w: 2, linear: true, .. }));
    let g = graph(Dtype::F32, "Resize", resize("cubic"), &[x], &[("y", &[1, 1, 2, 1])]);
    match cpu(g, &data, vec![]).0 {
        Err(t) => assert_eq!(t, "unsupported resize mode: cubic"),
        Ok(_) => panic!("ran"),
    }
    let perm = OpParams::Transpose { perm: vec![0, 2, 1, 3] };
    let g = graph(Dtype::F32, "Transpose", perm, &[x], &[("y", &[1, 2, 2, 1])]);
    let (r, calls) = cpu(g, &data, vec![singles(&[1.0, 3.0, 2.0, 4.0])]);
    assert_eq!(output(&r, "y"), vec![1.0, 3.0, 2.0, 4.0]);
    assert!(matches!(&calls[0].kernel, Kernel::Transpose { shape, perm } if *shape == vec![1, 2, 2, 1] && *perm == vec![0, 2, 1, 3]));
    let slice = OpParams::Slice { starts: vec![-1], ends: vec![9], axes: vec![1], steps: vec![1] };
    let g = graph(Dtype::F32, "Slice", slice, &[x], &[("y", &[1, 1, 2, 1])]);
    let (r, calls) = cpu(g, &data, vec![singles(&[3.0, 4.0])]);
    assert_eq!(output(&r, "y"), vec![3.0, 4.0]);
    assert!(matches!(&calls[0].kernel, Kernel::Slice { starts, axes, .. } if *starts == vec![-1] && *axes == vec![1]));
}

#[test]
fn halves_go_to_kernels_for_halves_or_as_singles() {
    let g = graph(Dtype::F16, "Sigmoid", OpParams::Sigmoid, &[("x", &[2])], &[("y", &[2])]);
    let (r, calls) = cpu(g, &[("x", &[0.0, 1.0])], vec![Numbers::Halves(vec![0x3800, 0x3c00])]);
    assert_eq!(output(&r, "y"), vec![0.5, 1.0]);
    assert!(matches!(&calls[0].inputs[0], Numbers::Halves(v) if *v == vec![0x0000, 0x3c00]));
    // The softmax works on singles, and its results are rounded.
    let g = graph(Dtype::F16, "Softmax", OpParams::Softmax { axis: -1 }, &[("x", &[2])], &[("y", &[2])]);
    let (r, calls) = cpu(g, &[("x", &[0.0, 1.0])], vec![singles(&[0.5, 1.0 / 3.0])]);
    assert_eq!(given(&calls[0], 0), vec![0.0, 1.0]);
    assert_eq!(output(&r, "y"), vec![0.5, 0.333251953125]);
}

// ---------------------------------------------------------------------------
// The calibrator
// ---------------------------------------------------------------------------

#[test]
fn a_calibrator_runs_the_graph_itself() {
    for (params, op_type, expected) in [
        (OpParams::Empty, "Relu", (0.0f32, 3.0f32)),
        (OpParams::Clip { min: (-1.0f32).to_bits(), max: 2.0f32.to_bits() }, "Clip", (-1.0, 2.0)),
        (OpParams::Reshape { shape: vec![2, 2] }, "Reshape", (-2.0, 3.0)),
    ] {
        let g = graph(Dtype::F32, op_type, params, &[("x", &[4])], &[("y", &[4])]);
        let mut c = Calibrator::new(g).unwrap();
        c.feed("x", &bits(&[-2.0, 0.0, 1.0, 3.0]), &exp).unwrap();
        let (min, max, n) = c.get_stats("y").unwrap();
        assert_eq!((f32::from_bits(min), f32::from_bits(max), n), (expected.0, expected.1, 1), "{op_type}");
        // What is seen next widens the range, and is counted.
        c.feed("x", &bits(&[-9.0, 0.0, 1.0, 1.0]), &exp).unwrap();
        let (min2, max2, n2) = c.get_stats("y").unwrap();
        assert!(f32::from_bits(min2) <= f32::from_bits(min) && f32::from_bits(max2) >= f32::from_bits(max));
        assert_eq!((n2, c.sample_count()), (2, 2));
    }
}

#[test]
fn the_cpu_runtime_takes_fused_ops_apart() {
    let fused = OpParams::Conv2dRelu {
        kernel_shape: [1, 1],
        strides: [1, 1],
        pads: [0, 0, 0, 0],
        dilations: [1, 1],
        group: 1,
    };
    let inputs: [Dims<'_>; 3] = [("x", &[1, 1, 2, 2]), ("w", &[1, 1, 2, 2]), ("b", &[2])];
    let g = graph(Dtype::F32, "Conv", fused, &inputs, &[("y", &[1, 1, 2, 2])]);
    let mut rt = CpuGraphRuntime::with_threads(g, 3).unwrap();
    rt.set_input_f32("b", &bits(&[-10.0, 20.0])).unwrap();
    rt.run(&|call: KernelCall| match &call.kernel {
        Kernel::Conv { .. } => vec![singles(&[1.0, 2.0, 30.0, 4.0])],
        Kernel::Relu => vec![singles(&given(&call, 0).iter().map(|v| v.max(0.0)).collect::<Vec<f32>>())],
        k => panic!("{k:?}"),
    })
    .unwrap();
    assert_eq!(floats(&rt.get_output_f32("y").unwrap()), vec![0.0, 22.0, 20.0, 24.0]);

    let g = graph(Dtype::F32, "SiLU", OpParams::Empty, &[("x", &[2])], &[("y", &[2])]);
    let mut rt = CpuGraphRuntime::with_threads(g, 3).unwrap();
    rt.set_input_f32("x", &bits(&[2.0, -4.0])).unwrap();
    rt.run(&|call: KernelCall| {
        let x = given(&call, 0);
        let y: Vec<f32> = match &call.kernel {
            Kernel::Sigmoid => x.iter().map(|_| 0.5).collect(),
            Kernel::Combine(Arithmetic::Product) => {
                x.iter().zip(given(&call, 1)).map(|(a, b)| a * b).collect()
            }
            k => panic!("{k:?}"),
        };
        vec![singles(&y)]
    })
    .unwrap();
    assert_eq!(floats(&rt.get_output_f32("y").unwrap()), vec![1.0, -2.0]);
}

#[test]
fn the_generic_runtime_has_no_kernel_for_a_fused_convolution() {
    let fused = OpParams::Conv2dRelu {
        kernel_shape: [1, 1],
        strides: [1, 1],
        pads: [0, 0, 0, 0],
        dilations: [1, 1],
        group: 1,
    };
    let g = graph(Dtype::F32, "Conv", fused, &[("x", &[4])], &[("y", &[4])]);
    assert!(generic(g, &[("x", &[1.0; 4])]).unwrap_err().contains("Conv2D"));
}

#[test]
fn the_generic_runtime_passes_over_silu() {
    let g = graph(Dtype::F32, "SiLU", OpParams::Empty, &[("x", &[4])], &[("y", &[4])]);
    assert_eq!(generic(g, &[("x", &[1.0; 4])]).unwrap(), vec![0.0; 4]);
}

/// A Split, a convolution of its first piece, and a Relu of that.
fn split_conv_relu() -> Graph {
    let inputs: [Dims<'_>; 1] = [("x", &[1, 1, 2, 3])];
    let outputs: [Dims<'_>; 2] = [("a", &[1, 1, 2, 1]), ("b", &[1, 1, 2, 2])];
    let params = OpParams::Split { axis: 3, split_sizes: vec![1, 2] };
    let mut g = graph(Dtype::F32, "Split", params, &inputs, &outputs);
    for (name, dims) in [("w", [1, 1, 1, 1]), ("c", [1, 1, 2, 1]), ("d", [1, 1, 2, 1])] {
        g.shapes.insert(name.to_string(), TensorShape::new(dims.to_vec(), Dtype::F32));
    }
    g.initializers.insert("w".to_string(), le(&[1.0]));
    let op = |op_type: &str, inputs: &[&str], output: &str, params: OpParams| CompiledOp {
        name: op_type.into(),
        op_type: op_type.into(),
        inputs: inputs.iter().map(|s| s.to_string()).collect(),
        outputs: vec![output.to_string()],
        params,
    };
    let conv = OpParams::Conv2d {
        kernel_shape: [1, 1],
        strides: [1, 1],
        pads: [0, 0, 0, 0],
        dilations: [1, 1],
        group: 1,
    };
    g.ops.push(op("Conv", &["a", "w"], "c", conv));
    g.ops.push(op("Relu", &["c"], "d", OpParams::Empty));
    g.outputs = vec!["d".to_string(), "b".to_string()];
    g
}

#[test]
fn a_graph_with_a_split_computes_the_same_after_fusion() {
    let plain = split_conv_relu();
    let mut fused = split_conv_relu();
    apply_fusion_passes(&mut fused);
    assert_eq!(fused.ops.len(), 2);
    assert_eq!(fused.ops[0].outputs, vec!["a".to_string(), "b".to_string()]);
    let run = |g: Graph| {
        let mut rt = CpuGraphRuntime::with_threads(g, 3).unwrap();
        rt.run(&|call: KernelCall| match &call.kernel {
            Kernel::Split { .. } => vec![singles(&[1.0, -2.0]), singles(&[3.0, 4.0, 5.0, 6.0])],
            Kernel::Conv { .. } => vec![singles(&given(&call, 0))],
            Kernel::Relu => {
                vec![singles(&given(&call, 0).iter().map(|v| v.max(0.0)).collect::<Vec<f32>>())]
            }
            k => panic!("{k:?}"),
        })
        .unwrap();
        ["d", "b"].map(|n| floats(&rt.get_output_f32(n).unwrap()))
    };
    let before = run(plain);
    assert_eq!(before, [vec![1.0, 0.0], vec![3.0, 4.0, 5.0, 6.0]]);
    assert_eq!(run(fused), before);
}
