use dragonwing::bench::{
    byte_pattern, conv_cases, conv_sizes, count_nonzero, image_pattern, largest_gap, matrix_pattern,
    rising_pattern, summarise, ConvCase,
};
use dragonwing::generators::{axpy_test_data, fill_test_data, gemm_test_data, relu_test_data, Rng};

/// The generator in hardware arithmetic.
struct Reference(u64);

impl Reference {
    fn next(&mut self) -> u64 {
        self.0 = self.0.wrapping_mul(6_364_136_223_846_793_005).wrapping_add(1_442_695_040_888_963_407);
        self.0
    }

    fn next_f32(&mut self) -> f32 {
        (self.next() >> 40) as f32 / (1u64 << 24) as f32
    }

    fn between(&mut self, min: f32, max: f32) -> f32 {
        min + self.next_f32() * (max - min)
    }
}

#[test]
fn the_generator_gives_the_same_numbers_as_hardware() {
    let mut a = Rng::new(42);
    let mut b = Reference(42);
    for _ in 0..1000 {
        assert_eq!(a.next_u64(), b.next());
        assert_eq!(a.next_f32(), b.next_f32().to_bits());
        assert_eq!(
            a.next_f32_range((-3.5f32).to_bits(), 7.25f32.to_bits()),
            b.between(-3.5, 7.25).to_bits()
        );
    }
}

#[test]
fn fractions_lie_below_one() {
    let mut a = Rng::new(7);
    for _ in 0..1000 {
        let x = f32::from_bits(a.next_f32());
        assert!((0.0..1.0).contains(&x));
        assert_eq!(x * 16_777_216.0, (x * 16_777_216.0).trunc());
    }
}

#[test]
fn the_same_seed_gives_the_same_data() {
    let (x, y, alpha) = axpy_test_data(99);
    let (x2, y2, alpha2) = axpy_test_data(99);
    assert_eq!((&x, &y, alpha), (&x2, &y2, alpha2));
    assert_ne!(relu_test_data(1), relu_test_data(2));
}

#[test]
fn data_have_the_sizes_that_go_with_them() {
    for seed in 0..20 {
        let (n, value) = fill_test_data(seed);
        assert!((1024..2048).contains(&n));
        assert!(f32::from_bits(value).abs() <= 100.0);
        let (x, y, alpha) = axpy_test_data(seed);
        assert_eq!(x.len(), y.len());
        assert_eq!(x.len(), n);
        assert!(f32::from_bits(alpha).abs() <= 10.0);
        let (a, b, m, n, k) = gemm_test_data(seed);
        assert_eq!((a.len(), b.len()), (m * k, k * n));
        assert!(a.iter().all(|v| f32::from_bits(*v).abs() <= 1.0));
    }
}

#[test]
fn data_follow_the_generator() {
    let mut r = Reference(5);
    let n = 1024 + (r.next() % 1024) as usize;
    let alpha = r.between(-10.0, 10.0);
    let (x, y, a) = axpy_test_data(5);
    assert_eq!((x.len(), a), (n, alpha.to_bits()));
    for v in x.iter().chain(y.iter()) {
        assert_eq!(*v, r.between(-100.0, 100.0).to_bits());
    }
}

#[test]
fn times_are_summarised() {
    let s = summarise(&vec![5, 1, 4, 2, 3]);
    assert_eq!((s.n, s.min, s.median, s.p95, s.mean, s.max), (5, 1, 3, 5, 3, 5));
    let many: Vec<u64> = (0..20).map(|i| 100 - i).collect();
    let s = summarise(&many);
    assert_eq!((s.min, s.median, s.p95, s.max), (81, 91, 100, 100));
    assert_eq!(s.mean, 90);
    let s = summarise(&vec![7]);
    assert_eq!((s.min, s.median, s.p95, s.mean, s.max), (7, 7, 7, 7, 7));
    let s = summarise(&vec![u64::MAX; 3]);
    assert_eq!(s.mean, u64::MAX);
}

#[test]
fn the_percentile_is_the_one_of_floating_point() {
    for n in 1..2000usize {
        let times: Vec<u64> = (0..n as u64).collect();
        let place = (((n as f64) * 0.95).floor() as usize).min(n - 1);
        assert_eq!(summarise(&times).p95, place as u64);
    }
}

#[test]
fn sizes_of_the_convolutions_to_measure() {
    let cases = conv_cases();
    assert_eq!(cases.len(), 3);
    for c in &cases {
        let s = conv_sizes(c).unwrap();
        assert_eq!((s.h_out, s.w_out), (c.h, c.w));
        assert_eq!(s.input, c.n * c.h * c.w * c.c_in);
        assert_eq!(s.kernel, 9 * c.c_in * c.c_out);
        assert_eq!(s.output_i32, 4 * s.output_packed);
    }
    let none = ConvCase { n: 1, h: 2, w: 2, c_in: 1, c_out: 1, k: 3, stride: 1, pad: 0 };
    assert!(conv_sizes(&none).is_none());
    let huge = ConvCase { n: usize::MAX, h: 4, w: 4, c_in: 4, c_out: 4, k: 3, stride: 1, pad: 0 };
    assert!(conv_sizes(&huge).is_none());
}

#[test]
fn patterns_of_the_benchmarks() {
    assert_eq!(byte_pattern(66, 64)[62..], [62, 63, 0, 1]);
    let m = matrix_pattern(40, 32);
    for (i, v) in m.iter().enumerate() {
        assert_eq!(f32::from_bits(*v), ((i & 31) as f32) * 0.01);
    }
    for (i, v) in rising_pattern(3000).iter().enumerate() {
        assert_eq!(f32::from_bits(*v), ((i as f32) * 0.001) - 1.0);
    }
    for (i, v) in image_pattern(600).iter().enumerate() {
        assert_eq!(f32::from_bits(*v), ((i % 251) as f32) / 251.0);
    }
}

#[test]
fn outputs_are_compared() {
    let a = vec![0.0f32.to_bits(), 1.0f32.to_bits(), (-2.0f32).to_bits()];
    let b = vec![1e-7f32.to_bits(), 1.5f32.to_bits(), (-2.0f32).to_bits()];
    assert_eq!(count_nonzero(&a), 2);
    assert_eq!(count_nonzero(&b), 2);
    assert_eq!(f32::from_bits(largest_gap(&a, &b)), 0.5);
    assert_eq!(largest_gap(&a, &vec![]), 0);
}
