use dragonwing::builder::{CompiledOp, OpParams};
use dragonwing::error::Error;
use dragonwing::graph::Graph;
use dragonwing::kernels::Arithmetic;
use dragonwing::micro_graph::{compare_results, judge, run_cpu, run_cpu_mt, Difference, Fault, Rng};
use dragonwing::name_map::NameMap;
use dragonwing::runtime::cpu::{CpuGraphRuntime, Image, Kernel, KernelCall, Numbers, Threads};
use dragonwing::runtime::generic::GraphRuntime;
use dragonwing::runtime::{convert_f16_to_f32, convert_f32_to_f16};
use dragonwing::tensor::{Dtype, TensorShape};

fn names(v: &[&str]) -> Vec<String> {
    v.iter().map(|s| s.to_string()).collect()
}

fn bits(v: &[f32]) -> Vec<u32> {
    v.iter().map(|x| x.to_bits()).collect()
}

fn floats(v: &[u32]) -> Vec<f32> {
    v.iter().map(|x| f32::from_bits(*x)).collect()
}

fn exp(x: u32) -> u32 {
    f32::from_bits(x).exp().to_bits()
}

// ---------------------------------------------------------------------------
// Kernels in hardware arithmetic
// ---------------------------------------------------------------------------

fn singles(n: &Numbers) -> Vec<f32> {
    match n {
        Numbers::Singles(v) => floats(v),
        Numbers::Halves(_) => panic!("halves"),
    }
}

fn conv(x: &[f32], w: &[f32], i: &Image) -> Vec<f32> {
    let h_out = (i.h_in + 2 * i.pad_h - i.k_h) / i.stride_h + 1;
    let w_out = (i.w_in + 2 * i.pad_w - i.k_w) / i.stride_w + 1;
    let mut out = vec![0.0f32; i.n * h_out * w_out * i.c_out];
    for b in 0..i.n {
        for oh in 0..h_out {
            for ow in 0..w_out {
                for oc in 0..i.c_out {
                    let mut sum = 0.0f32;
                    for kh in 0..i.k_h {
                        for kw in 0..i.k_w {
                            let ih = (oh * i.stride_h + kh) as isize - i.pad_h as isize;
                            let iw = (ow * i.stride_w + kw) as isize - i.pad_w as isize;
                            if ih < 0 || iw < 0 || ih >= i.h_in as isize || iw >= i.w_in as isize {
                                continue;
                            }
                            for ic in 0..i.c_in {
                                sum += x[((b * i.h_in + ih as usize) * i.w_in + iw as usize) * i.c_in + ic]
                                    * w[((kh * i.k_w + kw) * i.c_in + ic) * i.c_out + oc];
                            }
                        }
                    }
                    out[((b * h_out + oh) * w_out + ow) * i.c_out + oc] = sum;
                }
            }
        }
    }
    out
}

fn max_pool(x: &[f32], i: &Image) -> Vec<f32> {
    let h_out = (i.h_in - i.k_h) / i.stride_h + 1;
    let w_out = (i.w_in - i.k_w) / i.stride_w + 1;
    let c = i.c_in;
    let mut out = vec![0.0f32; i.n * h_out * w_out * c];
    for b in 0..i.n {
        for oh in 0..h_out {
            for ow in 0..w_out {
                for ch in 0..c {
                    let mut m = f32::NEG_INFINITY;
                    for kh in 0..i.k_h {
                        for kw in 0..i.k_w {
                            let ih = oh * i.stride_h + kh;
                            let iw = ow * i.stride_w + kw;
                            m = m.max(x[((b * i.h_in + ih) * i.w_in + iw) * c + ch]);
                        }
                    }
                    out[((b * h_out + oh) * w_out + ow) * c + ch] = m;
                }
            }
        }
    }
    out
}

fn softmax(x: &[f32], n: usize) -> Vec<f32> {
    let mut out = Vec::new();
    for row in x.chunks_exact(n) {
        let m = row.iter().fold(f32::NEG_INFINITY, |a, b| a.max(*b));
        let e: Vec<f32> = row.iter().map(|v| (v - m).exp()).collect();
        let sum: f32 = e.iter().sum();
        out.extend(e.iter().map(|v| v / sum));
    }
    out
}

fn kernels(call: KernelCall) -> Vec<Numbers> {
    let x: Vec<Vec<f32>> = call.inputs.iter().map(singles).collect();
    let out = match &call.kernel {
        Kernel::Relu => x[0].iter().map(|v| v.max(0.0)).collect(),
        Kernel::Sigmoid => x[0].iter().map(|v| 1.0 / (1.0 + (-v).exp())).collect(),
        Kernel::Combine(Arithmetic::Sum) => x[0].iter().zip(&x[1]).map(|(a, b)| a + b).collect(),
        Kernel::Combine(Arithmetic::Product) => x[0].iter().zip(&x[1]).map(|(a, b)| a * b).collect(),
        Kernel::Gemm { m, n, k, .. } => {
            let mut c = vec![0.0f32; m * n];
            for i in 0..*m {
                for j in 0..*n {
                    for t in 0..*k {
                        c[i * n + j] += x[0][i * k + t] * x[1][t * n + j];
                    }
                }
            }
            c
        }
        Kernel::Softmax { last_dim } => softmax(&x[0], *last_dim),
        Kernel::Conv { image, .. } => conv(&x[0], &x[1], image),
        Kernel::MaxPool { image } => max_pool(&x[0], image),
        k => panic!("no such kernel here: {:?}", k),
    };
    vec![Numbers::Singles(bits(&out))]
}

// ---------------------------------------------------------------------------
// The micro-graph
// ---------------------------------------------------------------------------

#[test]
fn micro_graph_cpu_runs() {
    let result = run_cpu(0xDEAD_BEEF, &kernels);
    assert!(result.success, "Micro-graph failed: {:?}", result.error);

    // Check softmax properties
    let output = floats(&result.output);
    let sum: f32 = output.iter().sum();
    assert!((sum - 1.0).abs() < 1e-4, "Softmax sum should be 1.0, got {sum}");
    assert!(output.iter().all(|&x| x >= 0.0), "All softmax outputs should be non-negative");
}

#[test]
fn micro_graph_cpu_deterministic() {
    let result1 = run_cpu(0xCAFE_BABE, &kernels);
    let result2 = run_cpu(0xCAFE_BABE, &kernels);

    assert!(result1.success);
    assert!(result2.success);

    // Same seed should produce identical results
    for i in 0..10 {
        assert_eq!(result1.output[i], result2.output[i], "Output[{i}] differs between runs");
    }
}

#[test]
fn micro_graph_mt_matches_st() {
    let result_st = run_cpu(0x1234_5678, &kernels);
    let result_mt = run_cpu_mt(0x1234_5678, 4, &kernels);

    assert!(result_st.success, "ST failed: {:?}", result_st.error);
    assert!(result_mt.success, "MT failed: {:?}", result_mt.error);

    // Multi-threaded should match single-threaded
    let max_diff = compare_results(&result_st, &result_mt, 1e-4f32.to_bits()).expect("ST vs MT comparison failed");
    println!("ST vs MT max_diff: {:.2e}", f32::from_bits(max_diff));
}

#[test]
fn micro_graph_different_seeds_different_output() {
    let result1 = run_cpu(0xAAAA_AAAA, &kernels);
    let result2 = run_cpu(0xBBBB_BBBB, &kernels);

    assert!(result1.success);
    assert!(result2.success);

    // Different seeds should produce different results
    let mut any_diff = false;
    for i in 0..10 {
        if (f32::from_bits(result1.output[i]) - f32::from_bits(result2.output[i])).abs() > 1e-6 {
            any_diff = true;
            break;
        }
    }
    assert!(any_diff, "Different seeds produced identical outputs");
}

#[test]
fn micro_graph_threads_reach_the_heavy_kernels() {
    let heavy = std::cell::RefCell::new(Vec::new());
    let r = run_cpu_mt(3, 6, &|call: KernelCall| {
        match &call.kernel {
            Kernel::Conv { threads, .. } => heavy.borrow_mut().push(*threads),
            Kernel::Gemm { threads, .. } => heavy.borrow_mut().push(*threads),
            _ => {}
        }
        kernels(call)
    });
    assert!(r.success);
    assert_eq!(*heavy.borrow(), vec![Threads::Threaded(6); 3]);
    heavy.borrow_mut().clear();
    let r = run_cpu(3, &|call: KernelCall| {
        match &call.kernel {
            Kernel::Conv { threads, .. } => heavy.borrow_mut().push(*threads),
            Kernel::Gemm { threads, .. } => heavy.borrow_mut().push(*threads),
            _ => {}
        }
        kernels(call)
    });
    assert!(r.success);
    assert_eq!(*heavy.borrow(), vec![Threads::Naive; 3]);
}

#[test]
fn micro_graph_reports_a_kernel_that_fails() {
    let r = run_cpu(1, &|_: KernelCall| Vec::new());
    assert!(!r.success);
    assert_eq!(r.error, Some(Fault::Kernel));
    assert_eq!(r.output, [0; 10]);
}

#[test]
fn micro_graph_outputs_are_judged() {
    let tenth = vec![0.1f32.to_bits(); 10];
    assert_eq!(judge(&tenth).error, None);
    let r = judge(&vec![0.2f32.to_bits(); 10]);
    assert!(!r.success);
    assert!(matches!(r.error, Some(Fault::Sum(s)) if (f32::from_bits(s) - 2.0).abs() < 1e-5));
    let mut negative = bits(&[0.0; 10]);
    negative[0] = 1.5f32.to_bits();
    negative[9] = (-0.5f32).to_bits();
    assert_eq!(judge(&negative).error, Some(Fault::Value));
    let mut nan = tenth.clone();
    nan[4] = f32::NAN.to_bits();
    assert_eq!(judge(&nan).error, Some(Fault::Value));
}

#[test]
fn micro_graph_results_are_compared() {
    let a = judge(&vec![0.1f32.to_bits(); 10]);
    let mut v = vec![0.1f32.to_bits(); 10];
    v[2] = 0.11f32.to_bits();
    v[3] = 0.09f32.to_bits();
    let b = judge(&v);
    assert!(b.success);
    match compare_results(&a, &b, 0.001f32.to_bits()) {
        Err(Difference::Mismatch { index, .. }) => assert_eq!(index, 2),
        _ => panic!("no mismatch"),
    }
    let d = compare_results(&a, &b, 0.1f32.to_bits()).unwrap();
    assert!((f32::from_bits(d) - 0.01).abs() < 1e-6);
    let bad = judge(&vec![0; 10]);
    assert!(matches!(compare_results(&bad, &a, 0), Err(Difference::First(Some(Fault::Sum(_))))));
    assert!(matches!(compare_results(&a, &bad, 0), Err(Difference::Second(Some(Fault::Sum(_))))));
}

#[test]
fn xorshift_gives_the_same_numbers_as_hardware() {
    for seed in [0u64, 1, 42, u64::MAX] {
        let mut a = Rng::new(seed);
        let mut x = seed.max(1);
        for _ in 0..500 {
            x ^= x << 13;
            x ^= x >> 7;
            x ^= x << 17;
            assert_ne!(x, 0);
            let expected = (x as f32 / u64::MAX as f32) * 2.0 - 1.0;
            assert_eq!(a.next_f32(), expected.to_bits());
        }
        let mut v = vec![0; 3];
        a.fill_f32_scaled(&mut v, 0.1f32.to_bits());
        assert!(v.iter().all(|y| f32::from_bits(*y).abs() <= 0.1));
    }
}

// ---------------------------------------------------------------------------
// Runtimes
// ---------------------------------------------------------------------------

#[test]
fn test_f32_to_f16_conversion() {
    let f32_data: Vec<f32> = vec![1.0, 2.0, 3.0, 4.0];
    let bytes: Vec<u8> = f32_data.iter().flat_map(|f| f.to_le_bytes()).collect();

    let f16_bytes = convert_f32_to_f16(&bytes);
    assert_eq!(f16_bytes.len(), 8); // 4 f16 values = 8 bytes

    let back = convert_f16_to_f32(&f16_bytes);
    let result: Vec<f32> =
        back.chunks_exact(4).map(|c| f32::from_le_bytes([c[0], c[1], c[2], c[3]])).collect();

    for (orig, converted) in f32_data.iter().zip(result.iter()) {
        assert!((orig - converted).abs() < 0.01);
    }
}

/// x [1, 3], w [3, 2], b [2]: y = relu(x * w + b), then z = softmax(y).
fn dense_graph(dtype: Dtype) -> Graph {
    let mut shapes = NameMap::new();
    for (name, dims) in [("x", vec![1, 3]), ("w", vec![3, 2]), ("b", vec![2]), ("g", vec![1, 2]), ("y", vec![1, 2]), ("z", vec![1, 2])] {
        shapes.insert(name.to_string(), TensorShape::new(dims, dtype));
    }
    let mut initializers = NameMap::new();
    let le = |v: &[f32]| -> Vec<u8> { v.iter().flat_map(|x| x.to_le_bytes()).collect() };
    initializers.insert("w".to_string(), le(&[1.0, -1.0, 2.0, 0.5, 0.0, 3.0]));
    initializers.insert("b".to_string(), le(&[0.5, -20.0]));
    let op = |name: &str, t: &str, i: &[&str], o: &str, params: OpParams| CompiledOp {
        name: name.into(),
        op_type: t.into(),
        inputs: names(i),
        outputs: names(&[o]),
        params,
    };
    Graph {
        ops: vec![
            op(
                "gemm",
                "Gemm",
                &["x", "w", "b"],
                "g",
                OpParams::Gemm {
                    alpha: 1.0f32.to_bits(),
                    beta: 1.0f32.to_bits(),
                    trans_a: false,
                    trans_b: false,
                },
            ),
            op("relu", "Relu", &["g"], "y", OpParams::Empty),
            op("softmax", "Softmax", &["y"], "z", OpParams::Softmax { axis: -1 }),
        ],
        shapes,
        inputs: names(&["x"]),
        outputs: names(&["z"]),
        initializers,
        dtype,
    }
}

#[test]
fn the_generic_runtime_computes_a_dense_layer() {
    let mut rt = GraphRuntime::new(dense_graph(Dtype::F32)).unwrap();
    assert_eq!(rt.inputs()[0].0, "x");
    assert_eq!(rt.outputs()[0].0, "z");
    let mut inputs = NameMap::new();
    let x: Vec<u8> = [1.0f32, 2.0, 3.0].iter().flat_map(|v| v.to_le_bytes()).collect();
    inputs.insert("x".to_string(), x);
    let out = rt.run(&inputs, &exp).unwrap();
    let z: Vec<f32> = out.get("z").unwrap().chunks_exact(4).map(|c| f32::from_le_bytes([c[0], c[1], c[2], c[3]])).collect();
    // 1*1 + 2*2 + 0.5 = 5.5, and 9 - 20 is below zero.
    let e = (-5.5f32).exp();
    assert!((z[0] - 1.0 / (1.0 + e)).abs() < 1e-6, "{:?}", z);
    assert!((z[1] - e / (1.0 + e)).abs() < 1e-6, "{:?}", z);
}

#[test]
fn the_generic_runtime_refuses_inputs_of_the_wrong_size() {
    let mut rt = GraphRuntime::new(dense_graph(Dtype::F32)).unwrap();
    let mut inputs = NameMap::new();
    inputs.insert("x".to_string(), vec![0u8; 4]);
    assert!(matches!(rt.run(&inputs, &exp), Err(Error::Runtime(_))));
    let mut unknown = NameMap::new();
    unknown.insert("nothing".to_string(), vec![0u8; 4]);
    match rt.run(&unknown, &exp) {
        Err(Error::Runtime(t)) => assert_eq!(t, "input tensor not found: nothing"),
        _ => panic!("no error"),
    }
    // Without inputs, what is there is worked on.
    assert!(rt.run(&NameMap::new(), &exp).is_ok());
}

#[test]
fn the_cpu_runtime_computes_a_dense_layer() {
    let mut rt = CpuGraphRuntime::with_threads(dense_graph(Dtype::F32), 2).unwrap();
    assert_eq!(rt.inputs(), &names(&["x"]));
    rt.set_input_f32("x", &bits(&[1.0, 2.0, 3.0])).unwrap();
    rt.run(&kernels).unwrap();
    assert_eq!(floats(&rt.get_output_f32("g").unwrap()), vec![5.5, -11.0 + 0.0]);
    assert_eq!(floats(&rt.get_output_f32("y").unwrap()), vec![5.5, 0.0]);
    let z = floats(&rt.get_output_f32("z").unwrap());
    assert!((z[0] + z[1] - 1.0).abs() < 1e-6);
    assert!(rt.set_input_f32("x", &[0]).is_err());
    assert!(rt.set_input_f32("nothing", &[]).is_err());
    assert!(rt.get_output_f32("nothing").is_err());
}

#[test]
fn the_cpu_runtime_reports_kernels_that_return_something_else() {
    let mut rt = CpuGraphRuntime::new(dense_graph(Dtype::F32), 1).unwrap();
    match rt.run(&|_: KernelCall| Vec::new()) {
        Err(Error::Runtime(t)) => assert_eq!(t, "kernel returned other numbers"),
        _ => panic!("no error"),
    }
}

#[test]
fn an_initializer_of_another_size_is_refused() {
    let mut graph = dense_graph(Dtype::F32);
    graph.initializers.insert("w".to_string(), vec![0; 3]);
    match CpuGraphRuntime::new(graph, 1) {
        Err(Error::Runtime(t)) => assert_eq!(
            t,
            "initializer size mismatch for w: buffer=24 bytes, data=3 bytes, \
             shape=Some(TensorShape { dims: [3, 2], dtype: F32 })"
        ),
        _ => panic!("not refused"),
    }
}
