//! Which byte stands for a number: the nearest step of the scale.

use vstd::prelude::*;
use vstd::arithmetic::div_mod::{lemma_fundamental_div_mod, lemma_mod_pos_bound};
use vstd::arithmetic::power2::{
    lemma2_to64, lemma_pow2_adds, lemma_pow2_pos, lemma_pow2_strictly_increases, pow2,
};
use crate::ieee::accuracy::{
    distance, is_rounded, law_product32_is_rounded, law_quotient32_is_rounded, lemma_product_finite,
    size,
};
use crate::ieee::nearness::{
    is_near, lemma_apart_scaled, lemma_rounded_is_near, lemma_rounded_off,
};
use crate::ieee::{
    byte_of, flipped, index_of, law_exact_units, nearest, product32, quotient32, single, single_of,
    single_of_int, units, whole, Format, Parts, ONE,
};
use crate::int8::{all_dequantized, all_requantized};
use crate::qdq::quantized;
use super::{is_finite, lemma_flipped, lemma_one, value_of};

verus! {

/// The byte of a number of moderate size is the nearest whole number.
pub proof fn law_byte_is_nearest(x: u32)
    requires
        is_finite(x),
        2 * value_of(x) < 255 * pow2(149),
        2 * value_of(x) > -257 * pow2(149),
    ensures
        2 * distance(byte_of(x) * pow2(149), value_of(x)) <= pow2(149),
{
    reveal(byte_of);
    let one = pow2(149) as int;
    lemma_pow2_pos(149);
    let u = units(Format::Single, single(x).magnitude) as int;
    let q = whole(single(x).magnitude) as int;
    lemma_fundamental_div_mod(2 * u + one, 2 * one);
    lemma_mod_pos_bound(2 * u + one, 2 * one);
    let r = (2 * u + one) % (2 * one);
    assert(2 * u + one == 2 * (one * q) + r) by (nonlinear_arith)
        requires
            2 * u + one == (2 * one) * q + r,
    ;
    let oq = one * q;
    if single(x).negative {
        assert(q <= 128) by (nonlinear_arith)
            requires
                2 * u + one == 2 * (one * q) + r,
                r >= 0,
                2 * u < 257 * one,
                one > 0,
        ;
        assert((-q) * one == -oq) by (nonlinear_arith)
            requires
                oq == one * q,
        ;
        assert(byte_of(x) == -q);
    } else {
        assert(q <= 127) by (nonlinear_arith)
            requires
                2 * u + one == 2 * (one * q) + r,
                r >= 0,
                2 * u < 255 * one,
                one > 0,
        ;
        assert(q >= 0);
        assert(q * one == oq) by (nonlinear_arith)
            requires
                oq == one * q,
        ;
        assert(byte_of(x) == q);
    }
}

/// The product `p` of a number `w` with the inverse `i` of a scale `s`.
proof fn lemma_in_steps(w: int, s: int, i: int, p: int, one: int)
    requires
        one >= 0x100_0000,
        s > 0,
        size(w) <= 128 * s,
        is_near(i * s, one * one, 1),
        distance(p * one, w * i) * 0x100_0000 <= size(w * i) + 0x80_0000 * one,
    ensures
        distance(p * s, w * one) * 0x100_0000 <= 385 * (s * one),
{
    let wi = w * i;
    let is = i * s;
    let oo = one * one;
    // p s one against w i s
    lemma_apart_scaled(p * one, wi, s);
    lemma_apart_scaled(wi, 0, s);
    let a = (p * one) * s;
    let b = wi * s;
    let c = w * oo;
    assert(b == w * is) by (nonlinear_arith)
        requires
            b == (w * i) * s,
            is == i * s,
    ;
    lemma_apart_scaled(is, oo, w);
    assert(is * w == b && oo * w == c) by (nonlinear_arith)
        requires
            b == w * is,
            c == w * oo,
    ;
    lemma_apart_scaled(is, 0, w);
    let (h, k) = (size(w), distance(is, oo));
    assert(oo > 0) by (nonlinear_arith)
        requires
            oo == one * one,
            one > 0,
    ;
    assert((k * h) * 0x100_0000 <= h * oo) by (nonlinear_arith)
        requires
            k * 0x100_0000 <= oo,
            h >= 0,
    ;
    assert(size(is) <= 2 * oo);
    assert(size(b) <= 2 * (h * oo)) by (nonlinear_arith)
        requires
            size(b) == size(is) * h,
            size(is) <= 2 * oo,
            h >= 0,
    ;
    let d = distance(p * one, wi);
    let so = s * one;
    assert((d * s) * 0x100_0000 <= size(b) + 0x80_0000 * so) by (nonlinear_arith)
        requires
            d * 0x100_0000 <= size(wi) + 0x80_0000 * one,
            size(b) == size(wi) * s,
            so == s * one,
            s > 0,
    ;
    assert(distance(a, b) == d * s);
    assert(distance(a, c) * 0x100_0000 <= 3 * (h * oo) + 0x80_0000 * so);
    let sov = so * one;
    assert(h * oo <= 128 * sov) by (nonlinear_arith)
        requires
            h <= 128 * s,
            oo == one * one,
            sov == (s * one) * one,
            one > 0,
    ;
    assert(0x80_0000 * so <= sov) by (nonlinear_arith)
        requires
            sov == so * one,
            one >= 0x100_0000,
            so >= 0,
    ;
    assert(distance(a, c) * 0x100_0000 <= 385 * sov);
    assert(a == (p * s) * one && c == (w * one) * one) by (nonlinear_arith)
        requires
            a == (p * one) * s,
            c == w * oo,
            oo == one * one,
    ;
    lemma_apart_scaled(p * s, w * one, one);
    let e = distance(p * s, w * one);
    assert(e * 0x100_0000 <= 385 * so) by (nonlinear_arith)
        requires
            (e * one) * 0x100_0000 <= 385 * (so * one),
            one > 0,
    ;
}

/// The byte that a number is quantized to is the nearest step of the scale: as
/// many steps as it counts are no further from the number than half a step and
/// a few roundings.
pub proof fn law_quantized_is_the_nearest_step(w: u32, scale: u32)
    requires
        is_finite(w),
        is_finite(scale),
        0 < value_of(scale) <= pow2(270),
        is_finite(quotient32(ONE, scale)),
        -128 * value_of(scale) <= value_of(w) <= 127 * value_of(scale),
    ensures
        distance(quantized(w, scale) * value_of(scale), value_of(w)) * 0x200_0000 <= 0x100_0400
            * value_of(scale),
{
    let u = lemma_one();
    let one = pow2(149) as int;
    lemma2_to64();
    lemma_pow2_pos(149);
    lemma_pow2_strictly_increases(24, 149);
    assert(single(ONE) == Parts { negative: false, magnitude: 0x3f80_0000 });
    let s = value_of(scale);
    let v = value_of(w);
    let inverse = quotient32(ONE, scale);
    let i = value_of(inverse);
    law_quotient32_is_rounded(ONE, scale);
    lemma_pow2_adds(149, 149);
    lemma_pow2_adds(270, 23);
    lemma_pow2_strictly_increases(293, 298);
    assert(size(s) * 0x80_0000 <= size(one * one)) by (nonlinear_arith)
        requires
            0 < s <= pow2(270),
            pow2(270) * 0x80_0000 <= one * one,
    ;
    lemma_rounded_is_near(i, one * one, s, 24);
    assert(size(v * i) <= one * pow2(157)) by {
        lemma_pow2_adds(149, 157);
        lemma_pow2_adds(8, 149);
        let oo = one * one;
        assert(oo > 0) by (nonlinear_arith)
            requires
                oo == one * one,
                one > 0,
        ;
        assert(size(i * s) <= 2 * oo);
        lemma_apart_scaled(i, 0, s);
        lemma_apart_scaled(v, 0, i);
        assert(size(v) * size(i) <= 128 * (size(i) * s)) by (nonlinear_arith)
            requires
                size(v) <= 128 * s,
                size(i) >= 0,
        ;
        assert(size(v * i) <= 256 * oo);
        assert(256 * oo == one * pow2(157)) by (nonlinear_arith)
            requires
                oo == one * one,
                pow2(157) == 256 * one,
        ;
    }
    lemma_product_finite(w, inverse, 157);
    law_product32_is_rounded(w, inverse);
    let x = product32(w, inverse);
    let p = value_of(x);
    lemma_rounded_off(p, v * i, one, 24);
    lemma_in_steps(v, s, i, p, one);
    let so = s * one;
    let ps = p * s;
    assert(so > 0) by (nonlinear_arith)
        requires
            so == s * one,
            s > 0,
            one > 0,
    ;
    let vo = v * one;
    assert(-128 * so <= vo <= 127 * so) by (nonlinear_arith)
        requires
            vo == v * one,
            so == s * one,
            -128 * s <= v <= 127 * s,
            one > 0,
    ;
    assert(2 * ps < 255 * so && 2 * ps > -257 * so);
    assert(2 * p < 255 * one) by (nonlinear_arith)
        requires
            2 * (p * s) < 255 * (s * one),
            s > 0,
    ;
    assert(2 * p > -257 * one) by (nonlinear_arith)
        requires
            2 * (p * s) > -257 * (s * one),
            s > 0,
    ;
    law_byte_is_nearest(x);
    let q = quantized(w, scale) as int;
    lemma_apart_scaled(q * one, p, s);
    let d = distance(q * one, p);
    assert(2 * (d * s) <= so) by (nonlinear_arith)
        requires
            2 * d <= one,
            so == s * one,
            s > 0,
    ;
    assert((q * one) * s == (q * s) * one) by (nonlinear_arith);
    lemma_apart_scaled(q * s, v, one);
    let e = distance(q * s, v);
    assert((e * one) * 0x200_0000 <= 0x100_0000 * so + 770 * so);
    assert(e * 0x200_0000 <= 0x100_0400 * s) by (nonlinear_arith)
        requires
            (e * one) * 0x200_0000 <= 0x100_0302 * (s * one),
            one > 0,
            s > 0,
    ;
}

/// A whole number of up to 24 bits is itself in single precision.
pub proof fn law_small_whole_is_exact(n: int)
    requires
        -0x100_0000 < n < 0x100_0000,
    ensures
        is_finite(single_of_int(n)),
        value_of(single_of_int(n)) == n * pow2(149),
{
    reveal(single_of);
    let f = Format::Single;
    let m = (if n < 0 {
        -n
    } else {
        n
    }) as nat;
    let one = pow2(149) as int;
    lemma2_to64();
    law_exact_units(f, m, 149);
    let mag = nearest(m * pow2(149), 1, 24);
    assert(mag < f.infinity()) by (nonlinear_arith)
        requires
            mag < (149 + 2) * 0x80_0000,
            f.infinity() == 0x7f80_0000,
    ;
    let a = single_of(m);
    assert(a == mag);
    if n < 0 {
        lemma_flipped(a);
        assert(value_of(flipped(a)) == -(m * one));
        assert(-(m * one) == n * one) by (nonlinear_arith)
            requires
                m == -n,
        ;
    }
}

/// A byte stands for as many steps of the scale as it counts, but for one rounding.
pub proof fn law_dequantized_is_its_steps(x: Seq<i8>, scale: u32, i: int)
    requires
        0 <= i < x.len(),
        is_finite(scale),
        is_finite(all_dequantized(x, scale)[i]),
    ensures
        all_dequantized(x, scale).len() == x.len(),
        is_rounded(value_of(all_dequantized(x, scale)[i]), x[i] * value_of(scale), 1, 24),
{
    let v = x[i] as int;
    let s = value_of(scale);
    let one = pow2(149) as int;
    let got = value_of(all_dequantized(x, scale)[i]);
    lemma_pow2_pos(149);
    lemma2_to64();
    law_small_whole_is_exact(v);
    law_product32_is_rounded(single_of_int(v), scale);
    assert((v * one) * s == (v * s) * one) by (nonlinear_arith);
    lemma_apart_scaled(v * s, got, one);
    let e = distance(got, v * s);
    assert(2 * e <= 1 || e * 0x100_0000 <= size(v * s)) by (nonlinear_arith)
        requires
            2 * (e * one) <= one || (e * one) * 0x100_0000 <= size(v * s) * one,
            one > 0,
    ;
    assert(got * 1 == got);
}

/// A sum of products of bytes is brought to the nearest whole number of what it
/// stands for, but for a rounding.
pub proof fn law_requantized_is_nearest(x: Seq<i32>, scale: u32, i: int)
    requires
        0 <= i < x.len(),
        -0x100_0000 < x[i] < 0x100_0000,
        is_finite(scale),
        -128 * pow2(149) <= x[i] * value_of(scale) <= 127 * pow2(149),
    ensures
        all_requantized(x, scale).len() == x.len(),
        distance(all_requantized(x, scale)[i] * pow2(149), x[i] * value_of(scale)) * 0x200_0000
            <= 0x100_0100 * pow2(149),
{
    let v = x[i] as int;
    let s = value_of(scale);
    let one = pow2(149) as int;
    let t = v * s;
    lemma_pow2_pos(149);
    lemma2_to64();
    lemma_pow2_strictly_increases(24, 149);
    lemma_pow2_adds(8, 149);
    law_small_whole_is_exact(v);
    let a = single_of_int(v);
    let p = product32(a, scale);
    assert((v * one) * s == t * one) by (nonlinear_arith)
        requires
            t == v * s,
    ;
    assert(size(t * one) <= one * pow2(157)) by (nonlinear_arith)
        requires
            -128 * one <= t <= 127 * one,
            pow2(157) == 256 * one,
            one > 0,
    ;
    lemma_product_finite(a, scale, 157);
    law_product32_is_rounded(a, scale);
    lemma_rounded_off(value_of(p), t * one, one, 24);
    lemma_apart_scaled(t, value_of(p), one);
    let e = distance(value_of(p), t);
    assert(e * 0x100_0000 <= 128 * one) by (nonlinear_arith)
        requires
            (e * one) * 0x100_0000 <= size(t) * one + 0x80_0000 * one,
            2 * (e * one) <= one || (e * one) * 0x100_0000 <= size(t) * one,
            size(t) <= 128 * one,
            one > 0,
            0x100_0000 < one,
    ;
    law_byte_is_nearest(p);
}

/// A number that is rounded to an index goes to the nearest whole number.
pub proof fn law_index_is_nearest(x: u32)
    requires
        is_finite(x),
        0 <= value_of(x) < 0x2_0000 * pow2(149),
    ensures
        2 * distance(index_of(x) * pow2(149), value_of(x)) <= pow2(149),
{
    reveal(index_of);
    let one = pow2(149) as int;
    lemma_pow2_pos(149);
    let u = units(Format::Single, single(x).magnitude) as int;
    let q = whole(single(x).magnitude) as int;
    lemma_fundamental_div_mod(2 * u + one, 2 * one);
    lemma_mod_pos_bound(2 * u + one, 2 * one);
    let r = (2 * u + one) % (2 * one);
    assert(2 * u + one == 2 * (q * one) + r) by (nonlinear_arith)
        requires
            2 * u + one == (2 * one) * q + r,
    ;
    assert(0 <= q <= 0x2_0000) by (nonlinear_arith)
        requires
            2 * u + one == 2 * (q * one) + r,
            0 <= r < 2 * one,
            0 <= u < 0x2_0000 * one,
            one > 0,
    ;
    if single(x).negative {
        assert(value_of(x) == -u);
        assert(0 * one == 0);
    }
}

/// A size times a scale is rounded to the nearest whole number, but for a rounding.
pub proof fn law_scaled_size_is_nearest(n: nat, scale: u32)
    requires
        n < 0x100_0000,
        is_finite(scale),
        0 <= n * value_of(scale) <= 0x1_0000 * pow2(149),
    ensures
        distance(
            index_of(product32(single_of(n), scale)) * pow2(149),
            n * value_of(scale),
        ) * 0x200_0000 <= 0x102_0000 * pow2(149),
{
    let s = value_of(scale);
    let one = pow2(149) as int;
    let t = n * s;
    lemma_pow2_pos(149);
    lemma2_to64();
    lemma_pow2_strictly_increases(24, 149);
    lemma_pow2_adds(16, 149);
    law_small_whole_is_exact(n as int);
    let a = single_of(n);
    let p = product32(a, scale);
    assert((n * one) * s == t * one) by (nonlinear_arith)
        requires
            t == n * s,
    ;
    assert(size(t * one) <= one * pow2(165)) by (nonlinear_arith)
        requires
            0 <= t <= 0x1_0000 * one,
            pow2(165) == 0x1_0000 * one,
            one > 0,
    ;
    lemma_product_finite(a, scale, 165);
    law_product32_is_rounded(a, scale);
    lemma_rounded_off(value_of(p), t * one, one, 24);
    lemma_apart_scaled(t, value_of(p), one);
    let e = distance(value_of(p), t);
    assert(e * 0x100_0000 <= 0x1_0000 * one) by (nonlinear_arith)
        requires
            2 * (e * one) <= one || (e * one) * 0x100_0000 <= t * one,
            0 <= t <= 0x1_0000 * one,
            one > 0,
            e >= 0,
            0x100_0000 < one,
    ;
    assert(value_of(p) >= 0) by (nonlinear_arith)
        requires
            2 * (e * one) <= one || (e * one) * 0x100_0000 <= t * one,
            e == distance(value_of(p), t),
            0 <= t,
            one > 0,
    ;
    law_index_is_nearest(p);
}

} // verus!
