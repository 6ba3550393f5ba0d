use dragonwing::int8::{dequantize_i8_to_f32, quantize_f32_to_i8, requantize_i32_to_i8};
use dragonwing::runtime::cpu::Image;

fn bits(v: &[f32]) -> Vec<u32> {
    v.iter().map(|x| x.to_bits()).collect()
}

fn floats(v: &[u32]) -> Vec<f32> {
    v.iter().map(|x| f32::from_bits(*x)).collect()
}

fn quantize(v: &[f32], scale: f32) -> Vec<i8> {
    quantize_f32_to_i8(&bits(v), scale.to_bits())
}

fn dequantize(v: &Vec<i8>, scale: f32) -> Vec<f32> {
    floats(&dequantize_i8_to_f32(v, scale.to_bits()))
}

fn requantize_all(v: &Vec<i32>, scale: f32) -> Vec<i8> {
    requantize_i32_to_i8(v, scale.to_bits())
}

fn largest(v: &[f32], start: f32) -> f32 {
    v.iter().map(|x| x.abs()).fold(start, f32::max)
}

fn image(n: usize, h_in: usize, w_in: usize, c_in: usize, c_out: usize, k: usize) -> Image {
    Image { n, h_in, w_in, c_in, c_out, k_h: k, k_w: k, stride_h: 1, stride_w: 1, pad_h: 0, pad_w: 0 }
}

/// A kernel that puts zero in place of bytes below it.
fn relu_i8(x: &[i8]) -> Vec<i8> {
    x.iter().map(|v| (*v).max(0)).collect()
}

/// A kernel that adds bytes of different scales.
fn add_i8(a: &[i8], b: &[i8], scale_a: f32, scale_b: f32) -> Vec<i8> {
    a.iter()
        .zip(b)
        .map(|(x, y)| (*x as f32 * scale_a + *y as f32 * scale_b).round().clamp(-128.0, 127.0) as i8)
        .collect()
}

/// A kernel that multiplies matrices of bytes.
fn gemm_i8(a: &[i8], b: &[i8], m: usize, n: usize, k: usize) -> Vec<i32> {
    let mut c = vec![0i32; m * n];
    for i in 0..m {
        for j in 0..n {
            for t in 0..k {
                c[i * n + j] += a[i * k + t] as i32 * b[t * n + j] as i32;
            }
        }
    }
    c
}

/// A kernel that convolves images of bytes without padding.
fn conv2d_i8_nhwc(x: &[i8], w: &[i8], i: Image) -> Vec<i32> {
    let h_out = i.h_in - i.k_h + 1;
    let w_out = i.w_in - i.k_w + 1;
    let mut out = vec![0i32; i.n * h_out * w_out * i.c_out];
    for b in 0..i.n {
        for oh in 0..h_out {
            for ow in 0..w_out {
                for oc in 0..i.c_out {
                    let mut sum = 0i32;
                    for kh in 0..i.k_h {
                        for kw in 0..i.k_w {
                            for ic in 0..i.c_in {
                                sum += x[((b * i.h_in + oh + kh) * i.w_in + ow + kw) * i.c_in + ic]
                                    as i32
                                    * w[((kh * i.k_w + kw) * i.c_in + ic) * i.c_out + oc] as i32;
                            }
                        }
                    }
                    out[((b * h_out + oh) * w_out + ow) * i.c_out + oc] = sum;
                }
            }
        }
    }
    out
}

/// A product of matrices in hardware arithmetic.
fn gemm_f32(a: &[f32], b: &[f32], m: usize, n: usize, k: usize) -> Vec<f32> {
    let mut c = vec![0.0f32; m * n];
    for i in 0..m {
        for j in 0..n {
            for t in 0..k {
                c[i * n + j] += a[i * k + t] * b[t * n + j];
            }
        }
    }
    c
}

/// A convolution without padding in hardware arithmetic.
fn conv_f32(x: &[f32], w: &[f32], i: Image) -> Vec<f32> {
    let h_out = i.h_in - i.k_h + 1;
    let w_out = i.w_in - i.k_w + 1;
    let mut out = vec![0.0f32; i.n * h_out * w_out * i.c_out];
    for b in 0..i.n {
        for oh in 0..h_out {
            for ow in 0..w_out {
                for oc in 0..i.c_out {
                    let mut sum = 0.0f32;
                    for kh in 0..i.k_h {
                        for kw in 0..i.k_w {
                            for ic in 0..i.c_in {
                                sum += x[((b * i.h_in + oh + kh) * i.w_in + ow + kw) * i.c_in + ic]
                                    * w[((kh * i.k_w + kw) * i.c_in + ic) * i.c_out + oc];
                            }
                        }
                    }
                    out[((b * h_out + oh) * w_out + ow) * i.c_out + oc] = sum;
                }
            }
        }
    }
    out
}

/// Random number generator (Xorshift64).
struct Rng(u64);

impl Rng {
    fn new(seed: u64) -> Self {
        Self(seed.max(1))
    }

    fn next_u64(&mut self) -> u64 {
        let mut x = self.0;
        x ^= x << 13;
        x ^= x >> 7;
        x ^= x << 17;
        self.0 = x;
        x
    }

    fn next_f32(&mut self) -> f32 {
        let bits = self.next_u64();
        (bits as f32 / u64::MAX as f32) * 2.0 - 1.0
    }

    fn fill_f32_scaled(&mut self, data: &mut [f32], scale: f32) {
        for v in data {
            *v = self.next_f32() * scale;
        }
    }
}

/// The largest error and the root of the mean square error.
fn errors(reference: &[f32], other: &[f32]) -> (f32, f32) {
    assert_eq!(reference.len(), other.len());
    let mut max_error = 0.0f32;
    let mut sum_sq_error = 0.0f32;
    for (&a, &b) in reference.iter().zip(other.iter()) {
        let error = (a - b).abs();
        max_error = max_error.max(error);
        sum_sq_error += error * error;
    }
    (max_error, (sum_sq_error / reference.len() as f32).sqrt())
}

#[test]
fn test_quantize_dequantize_roundtrip() {
    let mut rng = Rng::new(12345);

    // Generate random F32 data in range [-2.0, 2.0]
    let n = 256;
    let mut original = vec![0.0f32; n];
    rng.fill_f32_scaled(&mut original, 2.0);

    // Determine scale: max(|x|) / 127
    let scale = largest(&original, 0.0) / 127.0;

    let quantized = quantize(&original, scale);
    let reconstructed = dequantize(&quantized, scale);

    // Should be less than one quantization step
    let max_error = scale;
    for (i, (&orig, &recon)) in original.iter().zip(reconstructed.iter()).enumerate() {
        let error = (orig - recon).abs();
        assert!(
            error <= max_error,
            "Roundtrip error too large at index {}: original={}, reconstructed={}, error={}",
            i,
            orig,
            recon,
            error
        );
    }
    assert_eq!(reconstructed.len(), n);
    println!("Quantize/dequantize roundtrip test passed");
    println!("  Scale: {}", scale);
    println!("  Max error: {}", errors(&original, &reconstructed).0);
}

#[test]
fn test_int8_gemm_vs_f32() {
    let mut rng = Rng::new(42);

    // Small matrices for easy verification
    let m = 8;
    let n = 8;
    let k = 16;

    let mut a_f32 = vec![0.0f32; m * k];
    let mut b_f32 = vec![0.0f32; k * n];
    rng.fill_f32_scaled(&mut a_f32, 1.0);
    rng.fill_f32_scaled(&mut b_f32, 1.0);

    let c_f32_ref = gemm_f32(&a_f32, &b_f32, m, n, k);

    // Quantize inputs
    let scale_a = largest(&a_f32, 0.0) / 127.0;
    let scale_b = largest(&b_f32, 0.0) / 127.0;
    let a_i8 = quantize(&a_f32, scale_a);
    let b_i8 = quantize(&b_f32, scale_b);

    // Compute INT8 GEMM (result in INT32)
    let c_i32 = gemm_i8(&a_i8, &b_i8, m, n, k);

    // The scale of the output is scale_a * scale_b
    let scale_c = scale_a * scale_b;
    let c_f32_quant: Vec<f32> = c_i32.iter().map(|&x| x as f32 * scale_c).collect();

    let (max_error, rmse) = errors(&c_f32_ref, &c_f32_quant);
    println!("INT8 GEMM test passed");
    println!("  Max error: {}", max_error);
    println!("  RMSE: {}", rmse);

    let tolerance = 0.1; // 10% relative error is reasonable for quantization
    let ref_max = largest(&c_f32_ref, 0.0);
    assert!(
        max_error / ref_max.max(1e-6) <= tolerance,
        "GEMM relative error too large: max_error={}, ref_max={}, ratio={}",
        max_error,
        ref_max,
        max_error / ref_max
    );
}

#[test]
fn test_int8_relu() {
    // Input: mix of positive and negative values
    let input: Vec<i8> = (-64..64).map(|x| x as i8).collect();
    let output = relu_i8(&input);
    assert_eq!(output.len(), input.len());

    // Verify: all negatives become 0, positives unchanged
    for (i, (&inp, &out)) in input.iter().zip(output.iter()).enumerate() {
        let expected = if inp > 0 { inp } else { 0 };
        assert_eq!(out, expected, "ReLU mismatch at {}: input={}, output={}", i, inp, out);
    }

    println!("INT8 ReLU test passed");
}

#[test]
fn test_int8_add_scaled() {
    let n = 64;

    // Two tensors with different scales
    let a_f32: Vec<f32> = (0..n).map(|i| i as f32 * 0.1).collect();
    let b_f32: Vec<f32> = (0..n).map(|i| (n - i) as f32 * 0.05).collect();

    // Expected F32 result
    let expected_f32: Vec<f32> = a_f32.iter().zip(b_f32.iter()).map(|(&a, &b)| a + b).collect();

    // Quantize with different scales
    let scale_a = largest(&a_f32, 1e-6) / 127.0;
    let scale_b = largest(&b_f32, 1e-6) / 127.0;
    let scale_out = largest(&expected_f32, 1e-6) / 127.0;

    let a_i8 = quantize(&a_f32, scale_a);
    let b_i8 = quantize(&b_f32, scale_b);

    // INT8 add with scale adjustment
    let scale_a_over_out = scale_a / scale_out;
    let scale_b_over_out = scale_b / scale_out;
    let out_i8 = add_i8(&a_i8, &b_i8, scale_a_over_out, scale_b_over_out);

    // Dequantize result
    let result_f32 = dequantize(&out_i8, scale_out);
    assert_eq!(result_f32.len(), expected_f32.len());

    let mut max_error = 0.0f32;
    for (i, (&exp, &res)) in expected_f32.iter().zip(result_f32.iter()).enumerate() {
        let error = (exp - res).abs();
        max_error = max_error.max(error);

        // Allow quantization error
        let tolerance = scale_out * 2.0;
        assert!(
            error <= tolerance,
            "Add error at {}: expected={}, result={}, error={}",
            i,
            exp,
            res,
            error
        );
    }

    println!("INT8 scaled Add test passed");
    println!("  Max error: {}", max_error);
}

#[test]
fn test_requantize() {
    // Simulate GEMM output in INT32
    let input_i32: Vec<i32> = (-1000..1000).map(|x| x * 10).collect();

    // Requantization scale
    let requant_scale = 0.01;
    let output_i8 = requantize_all(&input_i32, requant_scale);
    assert_eq!(output_i8.len(), input_i32.len());

    for (i, (&inp, &out)) in input_i32.iter().zip(output_i8.iter()).enumerate() {
        let expected_f32 = inp as f32 * requant_scale;
        let expected_i8 = expected_f32.round().clamp(-128.0, 127.0) as i8;

        // Allow rounding differences
        let diff = (out as i32 - expected_i8 as i32).abs();
        assert!(
            diff <= 1,
            "Requant mismatch at {}: input={}, output={}, expected={}",
            i,
            inp,
            out,
            expected_i8
        );
        assert_eq!(out, expected_i8);
    }

    println!("Requantize INT32->INT8 test passed");
}

#[test]
fn test_int8_conv2d() {
    // Small convolution test
    let i = image(1, 5, 5, 4, 4, 3);

    let mut rng = Rng::new(999);

    // Generate random F32 data
    let mut input_f32 = vec![0.0f32; 5 * 5 * 4];
    let mut kernel_f32 = vec![0.0f32; 3 * 3 * 4 * 4];
    rng.fill_f32_scaled(&mut input_f32, 1.0);
    rng.fill_f32_scaled(&mut kernel_f32, 0.5);

    let output_f32_ref = conv_f32(&input_f32, &kernel_f32, i);

    // Quantize
    let scale_input = largest(&input_f32, 1e-6) / 127.0;
    let scale_kernel = largest(&kernel_f32, 1e-6) / 127.0;
    let input_i8 = quantize(&input_f32, scale_input);
    let kernel_i8 = quantize(&kernel_f32, scale_kernel);

    // INT8 convolution (output in INT32)
    let output_i32 = conv2d_i8_nhwc(&input_i8, &kernel_i8, i);

    // Dequantize
    let scale_output = scale_input * scale_kernel;
    let output_f32_quant: Vec<f32> = output_i32.iter().map(|&x| x as f32 * scale_output).collect();

    let (max_error, rmse) = errors(&output_f32_ref, &output_f32_quant);
    println!("INT8 Conv2D test passed");
    println!("  Max error: {}", max_error);
    println!("  RMSE: {}", rmse);

    // Allow reasonable quantization error
    assert!(max_error < 0.5, "Conv2D max error too large: {}", max_error);
}

#[test]
fn quantize_dequantize() {
    test_quantize_dequantize_roundtrip();
}

#[test]
fn int8_gemm() {
    test_int8_gemm_vs_f32();
}

#[test]
fn int8_relu() {
    test_int8_relu();
}

#[test]
fn int8_add() {
    test_int8_add_scaled();
}

#[test]
fn requantize() {
    test_requantize();
}

#[test]
fn int8_conv() {
    test_int8_conv2d();
}

/// Sums brought to bytes by their own range; the scale of the bytes comes with them.
fn requantize_by_range(v: &Vec<i32>, scale: f32) -> (Vec<i8>, f32) {
    let max = v.iter().map(|&x| x.abs()).max().unwrap_or(1);
    let scale_i8 = (max as f32 * scale) / 127.0;
    (requantize_all(v, scale / scale_i8), scale_i8)
}

#[test]
fn test_int8_multi_layer_accuracy() {
    let mut rng = Rng::new(77777);

    // Layer 1: Conv 3x3, 4->8 channels
    let i1 = image(1, 8, 8, 4, 8, 3);
    let mut input = vec![0.0f32; 8 * 8 * 4];
    let mut conv1_weight = vec![0.0f32; 3 * 3 * 4 * 8];
    rng.fill_f32_scaled(&mut input, 1.0);
    rng.fill_f32_scaled(&mut conv1_weight, 0.3);

    let mut conv1_out_f32 = conv_f32(&input, &conv1_weight, i1);
    for v in &mut conv1_out_f32 {
        *v = v.max(0.0);
    }

    // Layer 2: Conv 3x3, 8->8 channels
    let i2 = image(1, 6, 6, 8, 8, 3);
    let mut conv2_weight = vec![0.0f32; 3 * 3 * 8 * 8];
    rng.fill_f32_scaled(&mut conv2_weight, 0.3);
    let mut f32_output = conv_f32(&conv1_out_f32, &conv2_weight, i2);
    for v in &mut f32_output {
        *v = v.max(0.0);
    }

    // INT8 path
    let scale_input = largest(&input, 1e-6) / 127.0;
    let scale_conv1_w = largest(&conv1_weight, 1e-6) / 127.0;
    let scale_conv2_w = largest(&conv2_weight, 1e-6) / 127.0;
    let input_i8 = quantize(&input, scale_input);
    let conv1_weight_i8 = quantize(&conv1_weight, scale_conv1_w);
    let conv2_weight_i8 = quantize(&conv2_weight, scale_conv2_w);

    let conv1_out_i32 = conv2d_i8_nhwc(&input_i8, &conv1_weight_i8, i1);
    let (conv1_out_i8, scale_conv1_i8) = requantize_by_range(&conv1_out_i32, scale_input * scale_conv1_w);
    let relu1_out_i8 = relu_i8(&conv1_out_i8);
    let conv2_out_i32 = conv2d_i8_nhwc(&relu1_out_i8, &conv2_weight_i8, i2);

    // Dequantize final output, and apply relu to it.
    let scale_conv2_out = scale_conv1_i8 * scale_conv2_w;
    let i8_output_f32: Vec<f32> = conv2_out_i32.iter().map(|&v| (v as f32 * scale_conv2_out).max(0.0)).collect();

    let (max_error, rmse) = errors(&f32_output, &i8_output_f32);
    let ref_max = largest(&f32_output, 1e-6);
    let relative_error = max_error / ref_max;

    println!("INT8 Multi-layer accuracy test:");
    println!("  Max absolute error: {:.6}", max_error);
    println!("  RMSE: {:.6}", rmse);
    println!("  Relative error: {:.2}%", relative_error * 100.0);
    println!("  Reference max: {:.6}", ref_max);

    // Target: <20% relative error for multi-layer quantized inference
    assert!(
        relative_error < 0.20,
        "Multi-layer INT8 relative error too high: {:.2}% (target <20%)",
        relative_error * 100.0
    );
}

#[test]
fn test_int8_performance_benchmark() {
    let mut rng = Rng::new(88888);

    let m = 64;
    let n = 64;
    let k = 128;

    let mut a_f32 = vec![0.0f32; m * k];
    let mut b_f32 = vec![0.0f32; k * n];
    rng.fill_f32_scaled(&mut a_f32, 1.0);
    rng.fill_f32_scaled(&mut b_f32, 1.0);

    let scale_a = largest(&a_f32, 1e-6) / 127.0;
    let scale_b = largest(&b_f32, 1e-6) / 127.0;
    let a_i8 = quantize(&a_f32, scale_a);
    let b_i8 = quantize(&b_f32, scale_b);

    let c_f32 = gemm_f32(&a_f32, &b_f32, m, n, k);
    let mut c_i32 = gemm_i8(&a_i8, &b_i8, m, n, k);
    let iterations = 100;
    for _ in 0..iterations {
        c_i32 = gemm_i8(&a_i8, &b_i8, m, n, k);
    }

    // Memory comparison
    let f32_memory = (a_f32.len() + b_f32.len() + c_f32.len()) * 4;
    let i8_memory = (a_i8.len() + b_i8.len()) + c_i32.len() * 4; // INT8 inputs, INT32 output
    let memory_reduction = f32_memory as f32 / i8_memory as f32;

    println!("INT8 Performance Benchmark ({}x{}x{} GEMM):", m, n, k);
    println!("  F32 memory: {} bytes", f32_memory);
    println!("  INT8 memory: {} bytes", i8_memory);
    println!("  Memory reduction: {:.2}x", memory_reduction);

    // Verify memory reduction is significant (at least 1.5x considering INT32 accumulators)
    assert!(
        memory_reduction >= 1.5,
        "Memory reduction should be at least 1.5x, got {:.2}x",
        memory_reduction
    );
}

#[test]
fn test_int8_yolo_simulation() {
    let mut rng = Rng::new(12345678);

    let h = 32;
    let w = 32;
    let c_in = 3;
    let c_mid = 16;
    let c_out = 21; // 4 bbox + 1 obj + 16 classes

    let mut input_f32 = vec![0.0f32; h * w * c_in];
    rng.fill_f32_scaled(&mut input_f32, 1.0);

    let mut conv1_w = vec![0.0f32; 3 * 3 * c_in * c_mid];
    let mut conv2_w = vec![0.0f32; 3 * 3 * c_mid * c_mid];
    let mut head_w = vec![0.0f32; c_mid * c_out];
    rng.fill_f32_scaled(&mut conv1_w, 0.2);
    rng.fill_f32_scaled(&mut conv2_w, 0.2);
    rng.fill_f32_scaled(&mut head_w, 0.2);

    let i1 = image(1, 32, 32, c_in, c_mid, 3);
    let i2 = image(1, 30, 30, c_mid, c_mid, 3);
    let i3 = image(1, 28, 28, c_mid, c_out, 1);

    // F32 reference path
    let mut conv1_f32 = conv_f32(&input_f32, &conv1_w, i1);
    for v in &mut conv1_f32 {
        *v = v.max(0.0);
    }
    let mut conv2_f32 = conv_f32(&conv1_f32, &conv2_w, i2);
    for v in &mut conv2_f32 {
        *v = v.max(0.0);
    }
    let f32_detections = conv_f32(&conv2_f32, &head_w, i3);

    // INT8 path
    let scale_in = largest(&input_f32, 1e-6) / 127.0;
    let scale_c1w = largest(&conv1_w, 1e-6) / 127.0;
    let scale_c2w = largest(&conv2_w, 1e-6) / 127.0;
    let scale_hw = largest(&head_w, 1e-6) / 127.0;

    let input_i8 = quantize(&input_f32, scale_in);
    let conv1_w_i8 = quantize(&conv1_w, scale_c1w);
    let conv2_w_i8 = quantize(&conv2_w, scale_c2w);
    let head_w_i8 = quantize(&head_w, scale_hw);

    let conv1_i32 = conv2d_i8_nhwc(&input_i8, &conv1_w_i8, i1);
    let (conv1_i8, scale_c1_i8) = requantize_by_range(&conv1_i32, scale_in * scale_c1w);
    let relu1_i8 = relu_i8(&conv1_i8);

    let conv2_i32 = conv2d_i8_nhwc(&relu1_i8, &conv2_w_i8, i2);
    let (conv2_i8, scale_c2_i8) = requantize_by_range(&conv2_i32, scale_c1_i8 * scale_c2w);
    let relu2_i8 = relu_i8(&conv2_i8);

    let head_i32 = conv2d_i8_nhwc(&relu2_i8, &head_w_i8, i3);
    let scale_head_out = scale_c2_i8 * scale_hw;
    let i8_detections: Vec<f32> = head_i32.iter().map(|&x| x as f32 * scale_head_out).collect();

    let (max_error, rmse) = errors(&f32_detections, &i8_detections);
    let ref_max = largest(&f32_detections, 1e-6);
    let relative_error = max_error / ref_max;

    println!("INT8 YOLO Simulation Test:");
    println!("  Input: {}x{}x{}", h, w, c_in);
    println!("  Output: {}x{}x{}", 28, 28, c_out);
    println!("  Max absolute error: {:.6}", max_error);
    println!("  RMSE: {:.6}", rmse);
    println!("  Relative error: {:.2}%", relative_error * 100.0);

    // Allow up to 25% relative error for 3-layer quantized network
    assert!(
        relative_error < 0.25,
        "YOLO INT8 simulation relative error too high: {:.2}% (target <25%)",
        relative_error * 100.0
    );
}

#[test]
fn what_a_byte_can_stand_for_comes_back_within_a_step() {
    for scale in [1.0f32, 0.1, 3.7e-3, 1e-38, 2.0e36, f32::MIN_POSITIVE] {
        for k in -1280..=1270 {
            let x = scale * (k as f32 / 10.0);
            let back = dequantize(&quantize(&[x], scale), scale)[0];
            let gap = (back as f64 - x as f64).abs();
            assert!(gap < scale as f64, "{x} with {scale} became {back}");
        }
    }
}
