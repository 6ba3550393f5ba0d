use dragonwing::ieee::{
    add32, add64, div32, div64, from_half, from_int, from_whole, is_nan32, lt32, mul32, mul64, narrow,
    narrow_to_half, sqrt32, sqrt64, sub32, sub64, to_byte, to_index, widen,
};

/// Patterns that reach every kind of number, and some in between.
fn patterns() -> Vec<u32> {
    let mut v: Vec<u32> = vec![
        0, 1, 2, 0x007f_ffff, 0x0080_0000, 0x0080_0001, 0x3f80_0000, 0x3f80_0001, 0x3f7f_ffff, 0x4000_0000,
        0x4b00_0000, 0x4b7f_ffff, 0x7f7f_ffff, 0x7f80_0000, 0x7fc0_0000, 0x42fe_0000, 0x3eaa_aaab, 0x0000_1234,
    ];
    let mut x: u32 = 0x1234_5678;
    for _ in 0..150 {
        x ^= x << 13;
        x ^= x >> 17;
        x ^= x << 5;
        v.push(x);
    }
    let negative: Vec<u32> = v.iter().map(|a| a ^ 0x8000_0000).collect();
    v.extend(negative);
    v
}

/// Equal bits; every not-a-number counts as the same.
fn same32(a: u32, b: f32) -> bool {
    a == b.to_bits() || (f32::from_bits(a).is_nan() && b.is_nan())
}

fn same64(a: u64, b: f64) -> bool {
    a == b.to_bits() || (f64::from_bits(a).is_nan() && b.is_nan())
}

#[test]
fn single_arithmetic_is_that_of_hardware() {
    let p = patterns();
    for a in &p {
        for b in &p {
            let (x, y) = (f32::from_bits(*a), f32::from_bits(*b));
            assert!(same32(add32(*a, *b), x + y), "{:08x} + {:08x}", a, b);
            assert!(same32(sub32(*a, *b), x - y), "{:08x} - {:08x}", a, b);
            assert!(same32(mul32(*a, *b), x * y), "{:08x} * {:08x}", a, b);
            assert!(same32(div32(*a, *b), x / y), "{:08x} / {:08x}", a, b);
            assert_eq!(lt32(*a, *b), x < y);
        }
        let x = f32::from_bits(*a);
        assert!(same32(sqrt32(*a), x.sqrt()), "sqrt {:08x}", a);
        assert_eq!(is_nan32(*a), x.is_nan());
        assert!(same64(widen(*a), x as f64));
    }
}

#[test]
fn double_arithmetic_is_that_of_hardware() {
    let mut p: Vec<u64> = patterns().iter().map(|a| (f32::from_bits(*a) as f64).to_bits()).collect();
    let mut x: u64 = 0x0123_4567_89ab_cdef;
    for _ in 0..60 {
        x ^= x << 13;
        x ^= x >> 7;
        x ^= x << 17;
        p.push(x);
    }
    p.truncate(220);
    for a in &p {
        for b in &p {
            let (x, y) = (f64::from_bits(*a), f64::from_bits(*b));
            assert!(same64(add64(*a, *b), x + y), "{:016x} + {:016x}", a, b);
            assert!(same64(sub64(*a, *b), x - y), "{:016x} - {:016x}", a, b);
            assert!(same64(mul64(*a, *b), x * y), "{:016x} * {:016x}", a, b);
            assert!(same64(div64(*a, *b), x / y), "{:016x} / {:016x}", a, b);
        }
        let x = f64::from_bits(*a);
        assert!(same64(sqrt64(*a), x.sqrt()), "sqrt {:016x}", a);
        assert!(same32(narrow(*a), x as f32), "narrow {:016x}", a);
    }
}

#[test]
fn whole_numbers_become_singles() {
    for n in [0u64, 1, 2, 3, 16_777_215, 16_777_216, 16_777_217, 16_777_219, u32::MAX as u64, u64::MAX] {
        assert_eq!(from_whole(n), (n as f32).to_bits());
    }
    for n in [0i64, -1, 1, i64::MIN, i64::MAX, -16_777_217] {
        assert_eq!(from_int(n), (n as f32).to_bits());
    }
}

#[test]
fn singles_become_bytes_and_indices() {
    let mut values: Vec<f32> = patterns().iter().map(|a| f32::from_bits(*a)).collect();
    for i in -300..300 {
        values.push(i as f32 * 0.5);
        values.push(i as f32 * 0.25 + 0.1);
    }
    for v in values {
        let expected = v.round().clamp(-128.0, 127.0) as i8;
        assert_eq!(to_byte(v.to_bits()), expected, "{}", v);
        assert_eq!(to_index(v.to_bits()), v.round() as usize, "{}", v);
    }
}

#[test]
fn halves_go_back_and_forth() {
    for h in 0..=0xffffu32 {
        let h = h as u16;
        let s = from_half(h);
        if f32::from_bits(s).is_nan() {
            assert!(h & 0x7fff > 0x7c00);
        } else {
            assert_eq!(narrow_to_half(s), h);
        }
    }
    assert_eq!(from_half(0x3c00), 1.0f32.to_bits());
    assert_eq!(from_half(0x0001), (2.0f32).powi(-24).to_bits());
    // Halfway cases go to even.
    assert_eq!(narrow_to_half((1.0f32 + (2.0f32).powi(-11)).to_bits()), 0x3c00);
    assert_eq!(narrow_to_half((1.0f32 + 3.0 * (2.0f32).powi(-11)).to_bits()), 0x3c02);
    assert_eq!(narrow_to_half(65520.0f32.to_bits()), 0x7c00);
    assert_eq!(narrow_to_half(65519.0f32.to_bits()), 0x7bff);
}
