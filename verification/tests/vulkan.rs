use std::collections::HashMap;

use dragonwing::builder::{CompiledOp, OpParams};
use dragonwing::error::Error;
use dragonwing::graph::Graph;
use dragonwing::kernels::Arithmetic;
use dragonwing::name_map::NameMap;
use dragonwing::runtime::cpu::{Image, Kernel, KernelCall, Numbers};
use dragonwing::tensor::{Dtype, TensorShape};
use dragonwing::vulkan::host::HostStep;
use dragonwing::vulkan::{Command, Shader, VulkanGraphRuntime};

fn names(v: &[&str]) -> Vec<String> {
    v.iter().map(|s| s.to_string()).collect()
}

fn bits(v: &[f32]) -> Vec<u32> {
    v.iter().map(|x| x.to_bits()).collect()
}

fn floats(b: &[u8]) -> Vec<f32> {
    b.chunks_exact(4).map(|c| f32::from_le_bytes([c[0], c[1], c[2], c[3]])).collect()
}

fn le(v: &[f32]) -> Vec<u8> {
    v.iter().flat_map(|x| x.to_le_bytes()).collect()
}

fn op(name: &str, op_type: &str, inputs: &[&str], outputs: &[&str], params: OpParams) -> CompiledOp {
    CompiledOp {
        name: name.into(),
        op_type: op_type.into(),
        inputs: names(inputs),
        outputs: names(outputs),
        params,
    }
}

fn graph(ops: Vec<CompiledOp>, shapes: &[(&str, Vec<usize>, Dtype)], inputs: &[&str], outputs: &[&str]) -> Graph {
    let mut map = NameMap::new();
    for (name, dims, dtype) in shapes {
        map.insert(name.to_string(), TensorShape::new(dims.clone(), *dtype));
    }
    Graph {
        ops,
        shapes: map,
        inputs: names(inputs),
        outputs: names(outputs),
        initializers: NameMap::new(),
        dtype: Dtype::F32,
    }
}

// ---------------------------------------------------------------------------
// A device in memory
// ---------------------------------------------------------------------------

/// A runtime together with buffers in memory that carry out its commands.
struct Device {
    runtime: VulkanGraphRuntime,
    buffers: HashMap<String, Vec<u8>>,
}

fn byte(x: f32) -> u8 {
    x.round().clamp(-128.0, 127.0) as i8 as u8
}

fn conv(x: &[f32], w: &[f32], i: &Image) -> Vec<f32> {
    let h_out = (i.h_in + 2 * i.pad_h - i.k_h) / i.stride_h + 1;
    let w_out = (i.w_in + 2 * i.pad_w - i.k_w) / i.stride_w + 1;
    let mut out = vec![0.0f32; i.n * h_out * w_out * i.c_out];
    for b in 0..i.n {
        for oh in 0..h_out {
            for ow in 0..w_out {
                for oc in 0..i.c_out {
                    let mut sum = 0.0f32;
                    for kh in 0..i.k_h {
                        for kw in 0..i.k_w {
                            let ih = (oh * i.stride_h + kh) as isize - i.pad_h as isize;
                            let iw = (ow * i.stride_w + kw) as isize - i.pad_w as isize;
                            if ih < 0 || iw < 0 || ih >= i.h_in as isize || iw >= i.w_in as isize {
                                continue;
                            }
                            for ic in 0..i.c_in {
                                sum += x[((b * i.h_in + ih as usize) * i.w_in + iw as usize) * i.c_in + ic]
                                    * w[((kh * i.k_w + kw) * i.c_in + ic) * i.c_out + oc];
                            }
                        }
                    }
                    out[((b * h_out + oh) * w_out + ow) * i.c_out + oc] = sum;
                }
            }
        }
    }
    out
}

impl Device {
    fn new(graph: Graph) -> Device {
        let runtime = VulkanGraphRuntime::new(graph).expect("new");
        let mut buffers = HashMap::new();
        let g = runtime.graph();
        for i in 0..g.shapes.len() {
            let name = g.shapes.key_at(i);
            if let Some(n) = runtime.buffer_len(name) {
                let data = if runtime.is_uploaded(name) {
                    g.initializers.get(name).unwrap().clone()
                } else {
                    vec![0; n]
                };
                buffers.insert(name.clone(), data);
            }
        }
        Device { runtime, buffers }
    }

    fn set_input_f32(&mut self, name: &str, data: &[f32]) -> Result<(), Error> {
        let bytes = self.runtime.set_input_f32(name, &bits(data))?;
        self.buffers.insert(name.to_string(), bytes);
        Ok(())
    }

    fn set_input_bytes(&mut self, name: &str, data: &[u8]) -> Result<(), Error> {
        self.runtime.set_input_bytes(name, data.len())?;
        self.buffers.insert(name.to_string(), data.to_vec());
        Ok(())
    }

    fn get_output_f32(&self, name: &str) -> Result<Vec<f32>, Error> {
        let empty = Vec::new();
        let bytes = self.buffers.get(name).unwrap_or(&empty);
        let v = self.runtime.get_output_f32(name, bytes)?;
        Ok(v.iter().map(|x| f32::from_bits(*x)).collect())
    }

    fn get_output_bytes(&self, name: &str) -> Result<Vec<u8>, Error> {
        let n = self.runtime.get_output_bytes(name)?;
        assert_eq!(self.buffers[name].len(), n);
        Ok(self.buffers[name].clone())
    }

    fn run(&mut self) -> Result<(), Error> {
        let plan = self.runtime.run();
        for c in plan.commands {
            self.carry_out(c)?;
        }
        match plan.failure {
            Some(e) => Err(e),
            None => Ok(()),
        }
    }

    fn carry_out(&mut self, c: Command) -> Result<(), Error> {
        match c {
            Command::Run { shader, inputs, output } => {
                let mut x: Vec<Vec<u8>> = inputs.iter().map(|n| self.buffers[n].clone()).collect();
                if x.is_empty() {
                    x.push(self.buffers[&output].clone());
                }
                let out = self.shade(shader, &x, &self.buffers[&output]);
                assert_eq!(out.len(), self.buffers[&output].len());
                self.buffers.insert(output, out);
            }
            Command::Copy { from, to, bytes } => {
                let data = self.buffers[&from][..bytes].to_vec();
                self.buffers.get_mut(&to).unwrap()[..bytes].copy_from_slice(&data);
            }
            Command::Host { op } => {
                let g = self.runtime.graph();
                let op = &g.ops[op];
                let data: Vec<Vec<u32>> = op
                    .inputs
                    .iter()
                    .map(|n| bits(&floats(self.buffers.get(n).map(|b| b.as_slice()).unwrap_or(&[]))))
                    .collect();
                let out = match self.runtime.plan_host(op, &data)? {
                    HostStep::Upload(v) => vec![v],
                    HostStep::Call(call) => work(call),
                };
                let outputs = op.outputs.clone();
                for (name, v) in outputs.iter().zip(out) {
                    self.runtime.check_upload(name, v.len())?;
                    self.buffers.insert(name.clone(), v.iter().flat_map(|x| x.to_le_bytes()).collect());
                }
            }
            Command::Begin | Command::Barrier | Command::Submit | Command::Synchronize => {}
        }
        Ok(())
    }

    fn shade(&self, shader: Shader, x: &[Vec<u8>], there: &[u8]) -> Vec<u8> {
        let f = |i: usize| floats(&x[i]);
        match shader {
            Shader::ReluF32 => le(&f(0).iter().map(|v| v.max(0.0)).collect::<Vec<f32>>()),
            Shader::AddF32 => le(&f(0).iter().zip(f(1)).map(|(a, b)| a + b).collect::<Vec<f32>>()),
            Shader::MulF32 => le(&f(0).iter().zip(f(1)).map(|(a, b)| a * b).collect::<Vec<f32>>()),
            Shader::SigmoidF32 => le(&f(0).iter().map(|v| 1.0 / (1.0 + (-v).exp())).collect::<Vec<f32>>()),
            Shader::SiluF32 => le(&f(0).iter().map(|v| v / (1.0 + (-v).exp())).collect::<Vec<f32>>()),
            Shader::GemmF32 { m, n, k } => {
                let (a, b) = (f(0), f(1));
                let mut c = vec![0.0f32; m * n];
                for i in 0..m {
                    for j in 0..n {
                        for t in 0..k {
                            c[i * n + j] += a[i * k + t] * b[t * n + j];
                        }
                    }
                }
                le(&c)
            }
            Shader::BiasAddF32 { channels } => {
                // In place: the output with the bias of its channel.
                let y = floats(there);
                let bias = f(x.len() - 1);
                le(&y.iter().enumerate().map(|(i, v)| v + bias[i % channels]).collect::<Vec<f32>>())
            }
            Shader::Conv2dF32 { image } => le(&conv(&f(0), &f(1), &image)),
            Shader::RequantizeI32ToI8 { scale } => x[0]
                .chunks_exact(4)
                .map(|c| byte(i32::from_le_bytes([c[0], c[1], c[2], c[3]]) as f32 * f32::from_bits(scale)))
                .collect(),
            Shader::QuantizeF32ToI8 { scale } => f(0).iter().map(|v| byte(v / f32::from_bits(scale))).collect(),
            Shader::DequantizeI8ToF32 { scale } => {
                le(&x[0].iter().map(|v| *v as i8 as f32 * f32::from_bits(scale)).collect::<Vec<f32>>())
            }
            Shader::ReluI8 => x[0].iter().map(|v| (*v as i8).max(0) as u8).collect(),
            Shader::GemmI8 { m, n, k } => {
                let mut c = vec![0i32; m * n];
                for i in 0..m {
                    for j in 0..n {
                        for t in 0..k {
                            c[i * n + j] += x[0][i * k + t] as i8 as i32 * (x[1][t * n + j] as i8 as i32);
                        }
                    }
                }
                c.iter().flat_map(|v| v.to_le_bytes()).collect()
            }
            s => panic!("no such shader here: {:?}", s),
        }
    }
}

/// The kernels of the host ops that are tried below.
fn work(call: KernelCall) -> Vec<Vec<u32>> {
    let x: Vec<Vec<u32>> = call
        .inputs
        .iter()
        .map(|n| match n {
            Numbers::Singles(v) => v.clone(),
            Numbers::Halves(_) => panic!("halves"),
        })
        .collect();
    match &call.kernel {
        Kernel::Combine(kind) => vec![x[0]
            .iter()
            .zip(&x[1])
            .map(|(a, b)| {
                let (a, b) = (f32::from_bits(*a), f32::from_bits(*b));
                match kind {
                    Arithmetic::Difference => (a - b).to_bits(),
                    Arithmetic::Quotient => (a / b).to_bits(),
                    _ => panic!("another kind"),
                }
            })
            .collect()],
        Kernel::Concat { shapes, axis } => {
            assert_eq!(*axis, 3);
            let rows = shapes[0][0] * shapes[0][1] * shapes[0][2];
            let mut out = Vec::new();
            for r in 0..rows {
                for (i, s) in shapes.iter().enumerate() {
                    out.extend_from_slice(&x[i][r * s[3]..(r + 1) * s[3]]);
                }
            }
            vec![out]
        }
        Kernel::Transpose { shape, perm } => {
            let dims: Vec<usize> = perm.iter().map(|p| shape[*p]).collect();
            let mut out = Vec::new();
            for a in 0..dims[0] {
                for b in 0..dims[1] {
                    for c in 0..dims[2] {
                        for d in 0..dims[3] {
                            let at = [a, b, c, d];
                            let mut from = [0; 4];
                            for i in 0..4 {
                                from[perm[i]] = at[i];
                            }
                            out.push(x[0][((from[0] * shape[1] + from[1]) * shape[2] + from[2]) * shape[3] + from[3]]);
                        }
                    }
                }
            }
            vec![out]
        }
        k => panic!("no such kernel here: {:?}", k),
    }
}

// ---------------------------------------------------------------------------
// Runs
// ---------------------------------------------------------------------------

#[test]
fn empty_graph_constructs_and_runs() {
    let shapes = [("input", vec![1, 4], Dtype::F32), ("output", vec![1, 4], Dtype::F32)];
    let mut rt = Device::new(graph(vec![], &shapes, &["input"], &["output"]));

    let input = vec![1.0f32, 2.0, 3.0, 4.0];
    rt.set_input_f32("input", &input).expect("set_input");

    // Empty op list: run is a no-op + synchronize.
    rt.run().expect("run");

    let out = rt.get_output_f32("output").expect("get_output");
    assert_eq!(out.len(), 4);
}

#[test]
fn relu_inplace_matches_cpu() {
    let shapes = [("x", vec![1, 8], Dtype::F32)];
    let ops = vec![op("relu1", "Relu", &["x"], &["x"], OpParams::Empty)];
    let mut rt = Device::new(graph(ops, &shapes, &["x"], &["x"]));

    let input = vec![-3.0f32, -1.0, 0.0, 0.5, 1.0, 2.0, -0.001, 100.0];
    rt.set_input_f32("x", &input).expect("set_input");
    rt.run().expect("run");
    let out = rt.get_output_f32("x").expect("get_output");

    let expected: Vec<f32> = input.iter().map(|&v| v.max(0.0)).collect();
    for (i, (a, b)) in expected.iter().zip(out.iter()).enumerate() {
        assert!((a - b).abs() < 1e-6, "mismatch at {i}: {a} vs {b}");
    }
}

#[test]
fn add_matches_cpu() {
    let shapes = [("a", vec![8], Dtype::F32), ("b", vec![8], Dtype::F32), ("y", vec![8], Dtype::F32)];
    let ops = vec![op("add1", "Add", &["a", "b"], &["y"], OpParams::Add)];
    let mut rt = Device::new(graph(ops, &shapes, &["a", "b"], &["y"]));

    let a = vec![1.0f32, 2.0, 3.0, 4.0, -1.0, -2.0, 0.0, 10.0];
    let b = vec![0.5f32, 0.5, 0.5, 0.5, 1.5, 2.5, 3.5, -5.0];
    rt.set_input_f32("a", &a).expect("set a");
    rt.set_input_f32("b", &b).expect("set b");
    rt.run().expect("run");
    let out = rt.get_output_f32("y").expect("get y");

    for i in 0..a.len() {
        let exp = a[i] + b[i];
        assert!((exp - out[i]).abs() < 1e-6, "mismatch at {i}: {exp} vs {}", out[i]);
    }
}

fn silu_graph() -> Graph {
    let shapes = [("x", vec![8], Dtype::F32), ("s", vec![8], Dtype::F32), ("z", vec![8], Dtype::F32)];
    let ops = vec![
        op("sig1", "Sigmoid", &["x"], &["s"], OpParams::Sigmoid),
        op("mul1", "Mul", &["x", "s"], &["z"], OpParams::Mul),
    ];
    graph(ops, &shapes, &["x"], &["z"])
}

fn check_silu(mut rt: Device) {
    let x = vec![-3.0f32, -1.0, 0.0, 0.5, 1.0, 2.0, -0.5, 1.5];
    rt.set_input_f32("x", &x).expect("set");
    rt.run().expect("run");
    let z = rt.get_output_f32("z").expect("get");

    for (i, &xi) in x.iter().enumerate() {
        let sig = 1.0 / (1.0 + (-xi).exp());
        let expected = xi * sig;
        assert!((expected - z[i]).abs() < 1e-4, "silu mismatch at {i}: {expected} vs {}", z[i]);
    }
}

#[test]
fn fused_silu_matches_reference() {
    let shapes = [("x", vec![8], Dtype::F32), ("z", vec![8], Dtype::F32)];
    let ops = vec![op("silu1", "SiLU", &["x"], &["z"], OpParams::Empty)];
    check_silu(Device::new(graph(ops, &shapes, &["x"], &["z"])));
}

#[test]
fn silu_two_op_graph_matches_cpu() {
    check_silu(Device::new(silu_graph()));
}

#[test]
fn batched_run_matches_reference() {
    let rt = Device::new(silu_graph());
    // The product waits for the sigmoid in one command buffer.
    let kinds: Vec<&str> = rt
        .runtime
        .run()
        .commands
        .iter()
        .map(|c| match c {
            Command::Begin => "begin",
            Command::Barrier => "barrier",
            Command::Run { .. } => "run",
            Command::Submit => "submit",
            Command::Synchronize => "synchronize",
            _ => "other",
        })
        .collect();
    assert_eq!(kinds, vec!["begin", "run", "barrier", "run", "submit", "synchronize"]);
    check_silu(rt);
}

#[test]
fn quantize_roundtrip_via_dequantize() {
    let shapes = [("x_f32", vec![16], Dtype::F32), ("x_i8", vec![16], Dtype::I8), ("y_f32", vec![16], Dtype::F32)];
    let scale = 0.1f32;
    let ops = vec![
        op("q1", "Quantize", &["x_f32"], &["x_i8"], OpParams::Quantize { scale: scale.to_bits() }),
        op("dq1", "Dequantize", &["x_i8"], &["y_f32"], OpParams::Dequantize { scale: scale.to_bits() }),
    ];
    let mut rt = Device::new(graph(ops, &shapes, &["x_f32"], &["y_f32"]));
    let input = vec![
        0.0f32, 0.1, -0.2, 0.5, -0.5, 1.0, -1.0, 12.7, // 12.7/0.1=127, clamps OK
        -12.7, 6.3, -6.3, 0.05, -0.05, 0.3, -0.7, 2.5,
    ];
    rt.set_input_f32("x_f32", &input).expect("set");
    rt.run().expect("run");
    let out = rt.get_output_f32("y_f32").expect("get");

    // Each value should be within one quantization step of the original.
    for (i, (a, b)) in input.iter().zip(out.iter()).enumerate() {
        let err = (a - b).abs();
        assert!(err <= scale, "qdq mismatch at {i}: {a} -> {b}, err={err}");
    }
}

#[test]
fn requantize_clamps_and_scales() {
    let shapes = [("acc_i32", vec![16], Dtype::I32), ("out_i8", vec![16], Dtype::I8)];
    let ops = vec![op(
        "rq1",
        "Requantize",
        &["acc_i32"],
        &["out_i8"],
        OpParams::Requantize { scale: 0.01f32.to_bits() },
    )];
    let mut rt = Device::new(graph(ops, &shapes, &["acc_i32"], &["out_i8"]));

    // input INT32 values
    let acc: Vec<i32> = vec![
        0, 100, -100, 12700, // 12700 * 0.01 = 127
        -12700, 25400, // saturates to +127
        -25400, // saturates to -128
        500, -500, 1234, -1234, 5, -5, 9999, -9999, 12700,
    ];
    let acc_bytes: Vec<u8> = acc.iter().flat_map(|v| v.to_le_bytes().into_iter()).collect();
    rt.set_input_bytes("acc_i32", &acc_bytes).expect("set");
    rt.run().expect("run");
    let out_bytes = rt.get_output_bytes("out_i8").expect("get");
    let out: Vec<i8> = out_bytes.iter().map(|&b| b as i8).collect();

    for (i, &v) in acc.iter().enumerate() {
        let expected = ((v as f32) * 0.01).round().clamp(-128.0, 127.0) as i8;
        assert_eq!(out[i], expected, "requantize[{i}]: input={v}, expected={expected}, got={}", out[i]);
    }
}

#[test]
fn relu_i8_clamps_negatives() {
    let shapes = [("x", vec![8], Dtype::I8), ("y", vec![8], Dtype::I8)];
    let mut rt = Device::new(graph(vec![], &shapes, &["x"], &["y"]));

    let input: Vec<i8> = vec![-128, -1, 0, 1, 127, -50, 50, -10];
    let packed: Vec<u8> = input.iter().map(|&v| v as u8).collect();
    rt.set_input_bytes("x", &packed).expect("set");

    let commands = rt.runtime.dispatch_relu_i8(&"x".to_string(), &"y".to_string()).expect("relu_i8");
    for c in commands {
        rt.carry_out(c).expect("relu_i8");
    }

    let out_bytes = rt.get_output_bytes("y").expect("get");
    let out: Vec<i8> = out_bytes.iter().map(|&b| b as i8).collect();

    let expected: Vec<i8> = input.iter().map(|&v| v.max(0)).collect();
    assert_eq!(out, expected);
    assert!(rt.runtime.dispatch_relu_i8(&"x".to_string(), &"x".to_string()).is_err());
}

fn gemm(trans_b: bool) -> OpParams {
    OpParams::Gemm { alpha: 1.0f32.to_bits(), beta: 1.0f32.to_bits(), trans_a: false, trans_b }
}

#[test]
fn gemm_matches_reference() {
    let shapes = [("a", vec![2, 3], Dtype::F32), ("b", vec![3, 2], Dtype::F32), ("c", vec![2, 2], Dtype::F32)];
    let ops = vec![op("gemm1", "Gemm", &["a", "b"], &["c"], gemm(false))];
    let mut rt = Device::new(graph(ops, &shapes, &["a", "b"], &["c"]));

    // a is 2x3, b is 3x2
    let a = vec![1.0f32, 2.0, 3.0, 4.0, 5.0, 6.0];
    let b = vec![1.0f32, 0.0, 0.0, 1.0, 1.0, 1.0];
    rt.set_input_f32("a", &a).expect("set a");
    rt.set_input_f32("b", &b).expect("set b");
    rt.run().expect("run");
    let c = rt.get_output_f32("c").expect("get c");

    let expected = [4.0f32, 5.0, 10.0, 11.0];
    assert_eq!(c.len(), expected.len());
    for (i, (exp, got)) in expected.iter().zip(c.iter()).enumerate() {
        assert!((exp - got).abs() < 1e-4, "gemm[{i}]: {exp} vs {got}");
    }
}

#[test]
fn gemm_with_bias_matches_reference() {
    let shapes = [
        ("a", vec![2, 3], Dtype::F32),
        ("b", vec![3, 4], Dtype::F32),
        ("bias", vec![4], Dtype::F32),
        ("c", vec![2, 4], Dtype::F32),
    ];
    let ops = vec![op("gemm_bias", "Gemm", &["a", "b", "bias"], &["c"], gemm(false))];
    let mut rt = Device::new(graph(ops, &shapes, &["a", "b", "bias"], &["c"]));

    let a: Vec<f32> = vec![1.0, 2.0, 3.0, 4.0, 5.0, 6.0];
    // b[k,n] = (k+1) * (n+1)
    let b: Vec<f32> = {
        let mut v = vec![0.0; 12];
        for k in 0..3 {
            for n in 0..4 {
                v[k * 4 + n] = (k as f32 + 1.0) * (n as f32 + 1.0);
            }
        }
        v
    };
    let bias: Vec<f32> = vec![10.0, 20.0, 30.0, 40.0];

    rt.set_input_f32("a", &a).expect("set a");
    rt.set_input_f32("b", &b).expect("set b");
    rt.set_input_f32("bias", &bias).expect("set bias");
    rt.run().expect("run");
    let c = rt.get_output_f32("c").expect("get c");

    for m in 0..2 {
        for n in 0..4 {
            let mut acc = 0.0f32;
            for k in 0..3 {
                acc += a[m * 3 + k] * b[k * 4 + n];
            }
            let exp = acc + bias[n];
            let got = c[m * 4 + n];
            assert!((exp - got).abs() < 1e-4, "gemm_bias[{m},{n}]: exp={exp} got={got}");
        }
    }
}

#[test]
fn conv2d_with_bias_matches_reference() {
    let shapes = [
        ("x", vec![1, 3, 3, 4], Dtype::F32),
        ("w", vec![1, 1, 4, 2], Dtype::F32),
        ("bias", vec![2], Dtype::F32),
        ("y", vec![1, 3, 3, 2], Dtype::F32),
    ];
    let ops = vec![op(
        "conv_bias",
        "Conv",
        &["x", "w", "bias"],
        &["y"],
        OpParams::Conv2d {
            kernel_shape: [1, 1],
            strides: [1, 1],
            pads: [0, 0, 0, 0],
            dilations: [1, 1],
            group: 1,
        },
    )];
    let mut rt = Device::new(graph(ops, &shapes, &["x", "w", "bias"], &["y"]));

    let mut x = vec![0.0f32; 36];
    for i in 0..36 {
        x[i] = (i as f32) * 0.1 - 1.0;
    }
    let w: Vec<f32> = vec![0.5, -0.25, 0.1, 0.2, -0.3, 0.4, 0.7, 0.0];
    let bias: Vec<f32> = vec![100.0, -50.0];

    rt.set_input_f32("x", &x).expect("set x");
    rt.set_input_f32("w", &w).expect("set w");
    rt.set_input_f32("bias", &bias).expect("set bias");
    rt.run().expect("run");
    let y = rt.get_output_f32("y").expect("get y");

    for s in 0..9 {
        for oc in 0..2 {
            let mut acc = 0.0f32;
            for ic in 0..4 {
                acc += x[s * 4 + ic] * w[ic * 2 + oc];
            }
            let exp = acc + bias[oc];
            let got = y[s * 2 + oc];
            assert!((exp - got).abs() < 1e-4, "conv_bias[s={s},oc={oc}]: exp={exp} got={got}");
        }
    }
}

#[test]
fn slab_packing_yields_one_allocation_for_small_graph() {
    // 10 tensors of 32 bytes each: they must fit in one slab.
    let named: Vec<String> = (0..10).map(|i| format!("t{i}")).collect();
    let shapes: Vec<(&str, Vec<usize>, Dtype)> =
        named.iter().map(|n| (n.as_str(), vec![1, 8], Dtype::F32)).collect();
    let rt = VulkanGraphRuntime::new(graph(vec![], &shapes, &[], &[])).expect("new");
    let size = rt.slab_size().unwrap();
    assert_eq!(size, 16 * 1024 * 1024);
    assert!(size >= 10 * 256, "slab of {} bytes too small", size);
}

#[test]
fn a_large_graph_gets_a_larger_slab() {
    let shapes = [("a", vec![5_000_001], Dtype::F32), ("e", vec![0], Dtype::F32)];
    let rt = VulkanGraphRuntime::new(graph(vec![], &shapes, &[], &[])).expect("new");
    let aligned = (5_000_001 * 4 + 255) / 256 * 256;
    assert_eq!(rt.slab_size().unwrap(), aligned + 4 * 1024 * 1024);
    assert!(rt.buffer_len("e").is_none());
}

#[test]
fn needs_barrier_detects_immediate_dependency() {
    // op0 outputs "a", op1 reads "a".
    let ops = vec![
        op("op0", "Relu", &["x"], &["a"], OpParams::Empty),
        op("op1", "Relu", &["a"], &["y"], OpParams::Empty),
    ];
    assert!(VulkanGraphRuntime::needs_barrier(&ops, 1));
}

#[test]
fn needs_barrier_skips_independent_ops() {
    // op0 outputs "a", op1 reads "x" (input only). No barrier needed.
    let ops = vec![
        op("op0", "Relu", &["x"], &["a"], OpParams::Empty),
        op("op1", "Relu", &["x"], &["b"], OpParams::Empty),
    ];
    assert!(!VulkanGraphRuntime::needs_barrier(&ops, 1));
}

#[test]
fn host_ops_are_worked_on_by_the_host() {
    let shapes = [
        ("a", vec![1, 2, 1, 2], Dtype::F32),
        ("b", vec![1, 2, 1, 2], Dtype::F32),
        ("s", vec![2], Dtype::F32),
        ("d", vec![1, 2, 1, 2], Dtype::F32),
        ("q", vec![1, 2, 1, 2], Dtype::F32),
        ("c", vec![1, 2, 1, 4], Dtype::F32),
        ("t", vec![1, 4, 1, 2], Dtype::F32),
    ];
    let ops = vec![
        op("sub", "Sub", &["a", "b"], &["d"], OpParams::Sub),
        op("div", "Div", &["d", "s"], &["q"], OpParams::Div),
        op("cat", "Concat", &["a", "q"], &["c"], OpParams::Concat { axis: 3 }),
        op("tr", "Transpose", &["c"], &["t"], OpParams::Transpose { perm: vec![0, 3, 2, 1] }),
    ];
    let mut rt = Device::new(graph(ops, &shapes, &["a", "b", "s"], &["t"]));
    rt.set_input_f32("a", &[1.0, 2.0, 3.0, 4.0]).unwrap();
    rt.set_input_f32("b", &[0.5, 0.5, 1.0, 1.0]).unwrap();
    rt.set_input_f32("s", &[2.0, 4.0]).unwrap();
    rt.run().unwrap();
    assert_eq!(rt.get_output_f32("d").unwrap(), vec![0.5, 1.5, 2.0, 3.0]);
    // The divisor is repeated.
    assert_eq!(rt.get_output_f32("q").unwrap(), vec![0.25, 0.375, 1.0, 0.75]);
    assert_eq!(rt.get_output_f32("c").unwrap(), vec![1.0, 2.0, 0.25, 0.375, 3.0, 4.0, 1.0, 0.75]);
    assert_eq!(rt.get_output_f32("t").unwrap(), vec![1.0, 3.0, 2.0, 4.0, 0.25, 1.0, 0.375, 0.75]);
}

#[test]
fn failures_are_reported_with_what_went_before() {
    let shapes = [("x", vec![4], Dtype::F32), ("y", vec![4], Dtype::F32)];
    let ops = vec![
        op("relu", "Relu", &["x"], &["x"], OpParams::Empty),
        op("bad", "Add", &["x", "nothing"], &["y"], OpParams::Add),
    ];
    let rt = VulkanGraphRuntime::new(graph(ops, &shapes, &["x"], &["y"])).unwrap();
    let plan = rt.run();
    assert_eq!(plan.failure.unwrap().message(), "runtime error: buffer not found: nothing");
    let plan = rt.run_unbatched(false);
    let text = plan.failure.unwrap().message();
    assert!(text.starts_with("runtime error: op[1] bad (Add) failed:"), "{}", text);
}

#[test]
fn inputs_and_outputs_are_checked() {
    let mut rt = Device::new(silu_graph());
    let text = rt.set_input_f32("x", &[1.0]).unwrap_err().message();
    assert_eq!(text, "runtime error: input x size mismatch: buffer=32 bytes, data=4 bytes");
    assert_eq!(rt.set_input_f32("n", &[]).unwrap_err().message(), "runtime error: input not found: n");
    assert_eq!(rt.get_output_f32("n").unwrap_err().message(), "runtime error: output not found: n");
    assert!(rt.set_input_bytes("x", &[0]).is_err());
    assert!(rt.runtime.get_output_bytes("n").is_err());
    let text = rt.runtime.check_upload("x", 3).unwrap_err().message();
    assert_eq!(text, "runtime error: x upload size mismatch: buf=32 data=12");
}

#[test]
fn an_initializer_that_does_not_fill_its_buffer_is_refused() {
    let shapes = [("w", vec![2], Dtype::F32), ("e", vec![0], Dtype::F32)];
    let mut g = graph(vec![], &shapes, &[], &[]);
    // Tensors without a buffer, or without a shape, take nothing up.
    g.initializers.insert("e".to_string(), vec![1, 2]);
    g.initializers.insert("other".to_string(), vec![1, 2]);
    g.initializers.insert("w".to_string(), le(&[1.0, 2.0]));
    let rt = VulkanGraphRuntime::new(g).unwrap();
    assert!(rt.is_uploaded("w") && !rt.is_uploaded("e") && !rt.is_uploaded("other"));
    for data in [vec![], le(&[1.0]), le(&[1.0, 2.0, 3.0])] {
        let mut g = graph(vec![], &shapes, &[], &[]);
        g.initializers.insert("w".to_string(), data.clone());
        match VulkanGraphRuntime::new(g) {
            Err(Error::Runtime(t)) => assert_eq!(
                t,
                format!("initializer w: size mismatch buffer=8 bytes, data={} bytes", data.len())
            ),
            _ => panic!("taken"),
        }
    }
}

#[test]
fn a_convolution_fused_with_a_relu_is_rectified() {
    let shapes = [
        ("x", vec![1, 1, 2, 1], Dtype::F32),
        ("w", vec![1, 1, 1, 2], Dtype::F32),
        ("bias", vec![2], Dtype::F32),
        ("y", vec![1, 1, 2, 2], Dtype::F32),
    ];
    let ops = vec![op(
        "conv",
        "Conv",
        &["x", "w", "bias"],
        &["y"],
        OpParams::Conv2dRelu {
            kernel_shape: [1, 1],
            strides: [1, 1],
            pads: [0, 0, 0, 0],
            dilations: [1, 1],
            group: 1,
        },
    )];
    let mut rt = Device::new(graph(ops, &shapes, &["x", "w", "bias"], &["y"]));
    rt.set_input_f32("x", &[1.0, -2.0]).unwrap();
    rt.set_input_f32("w", &[3.0, -5.0]).unwrap();
    rt.set_input_f32("bias", &[1.0, 1.0]).unwrap();
    rt.run().unwrap();
    assert_eq!(rt.get_output_f32("y").unwrap(), vec![4.0, 0.0, 0.0, 11.0]);
}
