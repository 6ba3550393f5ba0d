use std::cell::RefCell;
use std::collections::HashMap;

use dragonwing::generators::gemm_test_data;
use dragonwing::harness::{compare_f32, DeviceStep, Fault, ParityTest, TestConfig, TestResults, Work};

fn floats(v: &[u32]) -> Vec<f32> {
    v.iter().map(|x| f32::from_bits(*x)).collect()
}

fn bits(v: &[f32]) -> Vec<u32> {
    v.iter().map(|x| x.to_bits()).collect()
}

fn gemm(a: &[f32], b: &[f32], m: usize, n: usize, k: usize) -> Vec<f32> {
    let mut c = vec![0.0f32; m * n];
    for i in 0..m {
        for j in 0..n {
            for t in 0..k {
                c[i * n + j] += a[i * k + t] * b[t * n + j];
            }
        }
    }
    c
}

fn cpu(work: Work) -> Vec<u32> {
    match work {
        Work::Fill { n, value } => vec![value; n],
        Work::Axpy { alpha, x, y } => {
            let a = f32::from_bits(alpha);
            let (x, y) = (floats(&x), floats(&y));
            bits(&x.iter().zip(y.iter()).map(|(x, y)| a * x + y).collect::<Vec<f32>>())
        }
        Work::Relu { x } => bits(&floats(&x).iter().map(|v| v.max(0.0)).collect::<Vec<f32>>()),
        Work::Gemm { a, b, m, n, k } => bits(&gemm(&floats(&a), &floats(&b), m, n, k)),
    }
}

/// A device whose buffers are in memory; `offset` is added to every result.
struct Device {
    buffers: RefCell<HashMap<usize, Vec<f32>>>,
    offset: f32,
}

impl Device {
    fn new(offset: f32) -> Device {
        Device { buffers: RefCell::new(HashMap::new()), offset }
    }

    fn step(&self, step: DeviceStep) -> Result<Vec<u8>, String> {
        let mut buffers = self.buffers.borrow_mut();
        match step {
            DeviceStep::Alloc { slot, bytes } => {
                buffers.insert(slot, vec![0.0; bytes / 4]);
            }
            DeviceStep::Upload { slot, data } => {
                let v: Vec<f32> = data.chunks_exact(4).map(|c| f32::from_le_bytes([c[0], c[1], c[2], c[3]])).collect();
                assert_eq!(v.len(), buffers[&slot].len());
                buffers.insert(slot, v);
            }
            DeviceStep::Fill { slot, value } => {
                let n = buffers[&slot].len();
                buffers.insert(slot, vec![f32::from_bits(value) + self.offset; n]);
            }
            DeviceStep::Axpy { x, y, alpha } => {
                let r: Vec<f32> = buffers[&x]
                    .iter()
                    .zip(buffers[&y].iter())
                    .map(|(x, y)| f32::from_bits(alpha) * x + y + self.offset)
                    .collect();
                buffers.insert(y, r);
            }
            DeviceStep::Relu { slot } => {
                let r: Vec<f32> = buffers[&slot].iter().map(|v| v.max(0.0) + self.offset).collect();
                buffers.insert(slot, r);
            }
            DeviceStep::Gemm { a, b, c, m, n, k } => {
                let r = gemm(&buffers[&a], &buffers[&b], m, n, k);
                buffers.insert(c, r.iter().map(|v| v + self.offset).collect());
            }
            DeviceStep::Synchronize => {}
            DeviceStep::Download { slot, bytes } => {
                let v = &buffers[&slot];
                assert_eq!(v.len() * 4, bytes);
                return Ok(v.iter().flat_map(|x| x.to_le_bytes()).collect());
            }
        }
        Ok(Vec::new())
    }
}

#[test]
fn backends_that_agree_pass() {
    let device = Device::new(0.0);
    let config = TestConfig::default();
    let results = ParityTest::run_all(&cpu, &|s| device.step(s), &config);
    assert_eq!(results.results.len(), 20);
    assert!(results.all_passed());
    assert_eq!((results.passed(), results.failed()), (20, 0));
    let names: Vec<&str> = results.results.iter().map(|r| r.name.as_str()).collect();
    assert_eq!(names[..4], ["fill_f32[0]", "axpy_f32[0]", "relu_f32[0]", "gemm_f32[0]"]);
    assert_eq!(names[19], "gemm_f32[4]");
    assert!(results.results.iter().all(|r| r.max_diff == 0));
}

#[test]
fn backends_that_do_not_agree_fail() {
    let device = Device::new(0.0005);
    let config = TestConfig { num_trials: 1, ..TestConfig::default() };
    let results = ParityTest::run_all(&cpu, &|s| device.step(s), &config);
    // Products have the larger tolerance.
    assert_eq!((results.passed(), results.failed()), (1, 3));
    assert!(!results.all_passed());
    assert!(results.results[3].passed);
    match &results.results[2].error {
        Some(Fault::Mismatch { index, diff, .. }) => {
            assert_eq!(*index, 0);
            assert!((f32::from_bits(*diff) - 0.0005).abs() < 1e-4);
        }
        _ => panic!("no mismatch"),
    }
}

#[test]
fn a_failing_device_is_reported_by_its_step() {
    let config = TestConfig { num_trials: 1, ..TestConfig::default() };
    let asked = RefCell::new(0);
    let results = ParityTest::run_all(
        &cpu,
        &|s| {
            *asked.borrow_mut() += 1;
            match s {
                DeviceStep::Alloc { .. } => Ok(Vec::new()),
                _ => Err("no memory".to_string()),
            }
        },
        &config,
    );
    let texts: Vec<String> = results
        .results
        .iter()
        .map(|r| match &r.error {
            Some(Fault::Device(t)) => t.clone(),
            _ => panic!("no device error"),
        })
        .collect();
    assert_eq!(
        texts,
        vec![
            "Vulkan fill failed: no memory",
            "Vulkan upload x failed: no memory",
            "Vulkan upload failed: no memory",
            "Vulkan upload A failed: no memory",
        ]
    );
    assert!(results.results.iter().all(|r| f32::from_bits(r.max_diff).is_nan()));
    // 2 + 3 + 2 + 4 steps.
    assert_eq!(*asked.borrow(), 11);
}

#[test]
fn trials_have_seeds_of_their_own() {
    let config = TestConfig { num_trials: 2, seed: u64::MAX, ..TestConfig::default() };
    let seen = RefCell::new(Vec::new());
    ParityTest::run_all(
        &|w| {
            if let Work::Gemm { a, .. } = &w {
                seen.borrow_mut().push(a.clone());
            }
            cpu(w)
        },
        &|_| Err(String::new()),
        &config,
    );
    let seen = seen.borrow();
    assert_eq!(seen[0], gemm_test_data(u64::MAX).0);
    assert_eq!(seen[1], gemm_test_data(12344).0);
}

#[test]
fn buffers_are_compared() {
    let a = bits(&[1.0, 2.0, 3.0]);
    let tol = 0.5f32.to_bits();
    let same = compare_f32("same", &a, &bits(&[1.25, 2.0, 2.75]), tol);
    assert!(same.passed);
    assert_eq!(f32::from_bits(same.max_diff), 0.25);
    let other = compare_f32("other", &a, &bits(&[1.0, 4.0, 9.0]), tol);
    assert!(!other.passed);
    assert_eq!(f32::from_bits(other.max_diff), 6.0);
    match other.error {
        Some(Fault::Mismatch { index, expected, actual, diff }) => {
            assert_eq!(index, 1);
            assert_eq!((f32::from_bits(expected), f32::from_bits(actual), f32::from_bits(diff)), (2.0, 4.0, 2.0));
        }
        _ => panic!("no mismatch"),
    }
    let short = compare_f32("short", &a, &bits(&[1.0]), tol);
    assert!(matches!(short.error, Some(Fault::Length { expected: 3, actual: 1 })));
    assert!(f32::from_bits(short.max_diff).is_nan());
}

#[test]
fn default_tolerances() {
    let c = TestConfig::default();
    assert_eq!(c.elementwise_tol, 1e-5f32.to_bits());
    assert_eq!(c.gemm_tol, 1e-3f32.to_bits());
    assert_eq!((c.num_trials, c.seed, c.verbose), (5, 0xDEAD_BEEF_CAFE_BABE, false));
    assert!(TestResults::default().all_passed());
}
