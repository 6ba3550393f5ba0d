//! How far quantized numbers are from what they stand for.
//!
//! Numbers are counted in units, the smallest positive single. Each rounding is
//! off by half a unit or by a small part of the result, so that a number that
//! goes to a byte and back ends less than one step of the scale away.

use vstd::prelude::*;
use vstd::arithmetic::div_mod::{
    lemma_fundamental_div_mod, lemma_fundamental_div_mod_converse, lemma_mod_pos_bound,
};
use vstd::arithmetic::power2::{
    lemma2_to64, lemma2_to64_rest, lemma_pow2_adds, lemma_pow2_pos, pow2,
};
use crate::calibration::{finite32, law_stats_bound_values, stats_with, TensorStats};
use crate::ieee::{
    bits_of_single, byte_of, flipped, law_exact_units, law_rounding_error, lemma_units_ordered,
    less32, nan32, nearest, off_by, product, product32, quotient, quotient32, single, single_of,
    single_of_int, units, value, whole, Format, Parts, ONE,
};
use crate::int8::{all_dequantized, all_quantized};
use crate::qdq::{quantized, quantized_channels};
use crate::scales::{channel_scales, larger, magnitude, max_magnitude, range_scale, LARGEST};

pub mod ranges;
pub mod steps;

verus! {

/// The units of a magnitude of single precision.
spec fn in_units(mag: nat) -> nat {
    units(Format::Single, mag)
}

/// What one is in units, and how it compares with the largest finite number.
pub(crate) proof fn lemma_one() -> (u: nat)
    ensures
        u == pow2(149),
        u == units(Format::Single, 0x3f80_0000),
        u == 0x200000 * 0x1_0000_0000_0000_0000_0000_0000_0000_0000nat,
        units(Format::Single, 0x7f80_0000) == u * 0x1_0000_0000_0000_0000_0000_0000_0000_0000nat,
{
    lemma2_to64();
    lemma2_to64_rest();
    lemma_pow2_adds(64, 64);
    lemma_pow2_adds(128, 21);
    lemma_pow2_adds(23, 126);
    lemma_pow2_adds(23, 254);
    lemma_pow2_adds(149, 128);
    lemma_fundamental_div_mod_converse(0x3f80_0000, 0x80_0000, 127, 0);
    lemma_fundamental_div_mod_converse(0x7f80_0000, 0x80_0000, 255, 0);
    pow2(149)
}

/// The inverse of a scale, if it is finite, is close, and the scale is not tiny.
proof fn lemma_inverse(s: nat, u: nat)
    requires
        0 < s < 0x7f80_0000,
        u == pow2(149),
        quotient(Format::Single, 0x3f80_0000, s) < 0x7f80_0000,
    ensures
        ({
            let i = in_units(quotient(Format::Single, 0x3f80_0000, s));
            &&& off_by(i, u * u, in_units(s)) * 0x40_0000 <= u * u
            &&& in_units(s) >= 0x10_0000
        }),
{
    let one = lemma_one();
    let t = 0x1_0000_0000_0000_0000_0000_0000_0000_0000nat;
    let d = in_units(s);
    lemma_units_ordered(Format::Single, s, 0x7f80_0000);
    lemma_units_ordered(Format::Single, 0, s);
    law_rounding_error(Format::Single, u * u, d);
    lemma2_to64();
    let i = in_units(quotient(Format::Single, 0x3f80_0000, s));
    lemma_units_ordered(Format::Single, quotient(Format::Single, 0x3f80_0000, s), 0x7f80_0000);
    let e = off_by(i, u * u, d);
    assert(e * 0x40_0000 <= u * u) by (nonlinear_arith)
        requires
            2 * e <= d || e * 0x100_0000 <= u * u,
            d < u * t,
            u == 0x20_0000 * t,
    ;
    assert(d >= 0x10_0000) by (nonlinear_arith)
        requires
            i * d >= u * u - e,
            e * 0x40_0000 <= u * u,
            i < u * t,
            u == 0x20_0000 * t,
            t > 0,
    ;
}

/// A number that goes to a byte and back through an inverse `i`, a product `p`
/// and a product `d`, each of them rounded, ends less than a step away.
proof fn lemma_less_than_a_step(x: nat, s: nat, i: nat, p: nat, w: nat, d: nat, u: nat)
    requires
        x <= 129 * s,
        w <= 128,
        s >= 0x10_0000,
        u >= 0x20_0000,
        off_by(i, u * u, s) * 0x40_0000 <= u * u,
        2 * off_by(p, x * i, u) <= u || off_by(p, x * i, u) * 0x100_0000 <= x * i,
        -u <= 2 * (w * u - p) <= u,
        2 * off_by(d, (w * u) * s, u) <= u || off_by(d, (w * u) * s, u) * 0x100_0000 <= (w * u) * s,
    ensures
        -s < d - x < s,
{
    let y = (u * u) as int;
    let m = (s * y) as int;
    let e1 = off_by(i, u * u, s) as int;
    let e2 = off_by(p, x * i, u) as int;
    let e3 = off_by(d, (w * u) * s, u) as int;
    let c = (u * s) * (w * u - p);
    let a = s * (p * u - x * i);
    let b = x * (i * s - y);
    assert(y > 0 && m > 0) by (nonlinear_arith)
        requires
            y == u * u,
            m == s * y,
            u >= 0x20_0000,
            s >= 0x10_0000,
    ;
    assert(c == (w * s) * y - (u * s) * p) by (nonlinear_arith)
        requires
            y == u * u,
            c == (u * s) * (w * u - p),
    ;
    assert(a == (u * s) * p - (x * i) * s) by (nonlinear_arith)
        requires
            a == s * (p * u - x * i),
    ;
    assert(b == (x * i) * s - x * y) by (nonlinear_arith)
        requires
            b == x * (i * s - y),
    ;
    assert((w * s - x) * y == (w * s) * y - x * y) by (nonlinear_arith);
    assert(-m <= 2 * c <= m) by (nonlinear_arith)
        requires
            c == (u * s) * (w * u - p),
            -u <= 2 * (w * u - p) <= u,
            m == s * y,
            y == u * u,
            u >= 0,
            s >= 0,
    ;
    assert(x * y <= 129 * m) by (nonlinear_arith)
        requires
            x <= 129 * s,
            m == s * y,
            y > 0,
    ;
    assert(-m <= b * 0x4000 <= m) by (nonlinear_arith)
        requires
            b == x * (i * s - y),
            -e1 <= i * s - y <= e1,
            e1 * 0x40_0000 <= y,
            x * y <= 129 * m,
            x >= 0,
    ;
    assert(-m <= a * 0x4000 <= m) by {
        if 2 * e2 <= u {
            assert(-m <= a * 0x4000 <= m) by (nonlinear_arith)
                requires
                    a == s * (p * u - x * i),
                    -e2 <= p * u - x * i <= e2,
                    2 * e2 <= u,
                    u >= 0x20_0000,
                    m == s * y,
                    y == u * u,
                    s >= 0,
            ;
        } else {
            assert(x * (i * s) <= 2 * (x * y)) by (nonlinear_arith)
                requires
                    i * s - y <= e1,
                    e1 * 0x40_0000 <= y,
                    x >= 0,
                    y > 0,
            ;
            assert(s * (x * i) == x * (i * s)) by (nonlinear_arith);
            assert(-m <= a * 0x4000 <= m) by (nonlinear_arith)
                requires
                    a == s * (p * u - x * i),
                    -e2 <= p * u - x * i <= e2,
                    e2 * 0x100_0000 <= x * i,
                    s * (x * i) <= 2 * (129 * m),
                    s >= 0,
            ;
        }
    }
    let g = (d - w * s) * y;
    assert(-m <= g * 0x4000 <= m) by {
        assert((w * u) * s == (w * s) * u) by (nonlinear_arith);
        assert(g == (d * u - (w * s) * u) * u) by (nonlinear_arith)
            requires
                g == (d - w * s) * y,
                y == u * u,
        ;
        assert(-e3 <= d * u - (w * s) * u <= e3);
        if 2 * e3 <= u {
            assert(-m <= g * 0x4000 <= m) by (nonlinear_arith)
                requires
                    g == (d * u - (w * s) * u) * u,
                    -e3 <= d * u - (w * s) * u <= e3,
                    2 * e3 <= u,
                    m == s * y,
                    y == u * u,
                    s >= 0x10_0000,
                    u >= 0,
            ;
        } else {
            assert(((w * s) * u) * u == w * m) by (nonlinear_arith)
                requires
                    m == s * y,
                    y == u * u,
            ;
            assert(w * m <= 128 * m) by (nonlinear_arith)
                requires
                    w <= 128,
                    m > 0,
            ;
            assert(-m <= g * 0x4000 <= m) by (nonlinear_arith)
                requires
                    g == (d * u - (w * s) * u) * u,
                    -e3 <= d * u - (w * s) * u <= e3,
                    e3 * 0x100_0000 <= (w * s) * u,
                    ((w * s) * u) * u <= 128 * m,
                    u >= 0,
            ;
        }
    }
    assert((d - x) * y == g + (c + a + b)) by (nonlinear_arith)
        requires
            g == (d - w * s) * y,
            (w * s - x) * y == c + a + b,
    ;
    assert(-m < (d - x) * y < m);
    assert(-s < d - x < s) by (nonlinear_arith)
        requires
            -m < (d - x) * y < m,
            m == s * y,
            y > 0,
    ;
}

/// What becomes of a magnitude up to a 64th of a step beyond the range of bytes.
proof fn lemma_there_and_back(x: nat, s: nat, b: nat)
    requires
        x < 0x7f80_0000,
        0 < s < 0x7f80_0000,
        b <= 128,
        quotient(Format::Single, 0x3f80_0000, s) < 0x7f80_0000,
        64 * in_units(x) <= (64 * b + 1) * in_units(s),
    ensures
        ({
            let p = product(Format::Single, x, quotient(Format::Single, 0x3f80_0000, s));
            let w = whole(p);
            let d = product(Format::Single, single_of(w) as nat, s);
            &&& p < 0x7f80_0000
            &&& w <= b
            &&& single_of(w) < 0x7f80_0000
            &&& d < 0x7f80_0000 ==> -in_units(s) < in_units(d) - in_units(x) < in_units(s)
            &&& d < 0x7f80_0000 && w == 0 ==> in_units(d) == 0
        }),
{
    let u = lemma_one();
    let t = 0x1_0000_0000_0000_0000_0000_0000_0000_0000nat;
    let f = Format::Single;
    let y = u * u;
    let xu = in_units(x);
    let su = in_units(s);
    let inverse = quotient(f, 0x3f80_0000, s);
    let i = in_units(inverse);
    lemma_inverse(s, u);
    lemma2_to64();
    let e1 = off_by(i, y, su);
    let n = xu * i;
    let near = nearest(n, u, 24);
    law_rounding_error(f, n, u);
    let p = in_units(near);
    let e2 = off_by(p, n, u);
    let c = 64 * b + 1;
    assert(64 * n <= c * (y + e1)) by (nonlinear_arith)
        requires
            n == xu * i,
            64 * xu <= c * su,
            i * su <= y + e1,
            su > 0,
    {
        assert((64 * n) * su == (64 * xu) * (i * su));
        assert((64 * xu) * (i * su) <= (c * su) * (i * su));
        assert((c * su) * (i * su) <= (c * su) * (y + e1));
        assert((c * su) * (y + e1) == (c * (y + e1)) * su);
    }
    assert(u * 0x20_0000 <= y) by (nonlinear_arith)
        requires
            y == u * u,
            u >= 0x20_0000,
    ;
    assert(c * (y + e1) == 64 * (b * y) + y + c * e1 && c * e1 <= 8193 * e1 && b * y <= 128 * y)
        by (nonlinear_arith)
        requires
            c == 64 * b + 1,
            b <= 128,
    ;
    assert(4 * (p * u) <= 4 * (b * y) + y);
    assert(4 * p <= (4 * b + 1) * u) by (nonlinear_arith)
        requires
            4 * (p * u) <= 4 * (b * y) + y,
            y == u * u,
            u > 0,
    ;
    if near >= 0x7f80_0000 {
        lemma_units_ordered(f, 0x7f80_0000, near);
        assert(false) by (nonlinear_arith)
            requires
                p >= u * t,
                4 * p <= (4 * b + 1) * u,
                b <= 128,
                u > 0,
                t > 1000,
        ;
    }
    assert(product(f, x, inverse) == near);
    let w = whole(near);
    lemma_fundamental_div_mod((2 * p + u) as int, (2 * u) as int);
    lemma_mod_pos_bound((2 * p + u) as int, (2 * u) as int);
    let r = (2 * p + u) % (2 * u);
    assert(2 * p + u == 2 * (w * u) + r) by (nonlinear_arith)
        requires
            2 * p + u == (2 * u) * w + r,
    ;
    assert(w <= b) by (nonlinear_arith)
        requires
            2 * (w * u) <= 2 * p + u,
            4 * p <= (4 * b + 1) * u,
            u > 0,
    ;
    reveal(single_of);
    law_exact_units(f, w, 149);
    assert(151 * 0x80_0000 < 0x7f80_0000);
    assert(w * pow2(149) == w * u);
    let sw = single_of(w) as nat;
    assert(in_units(sw) == w * u);
    let m = (w * u) * su;
    let last = nearest(m, u, 24);
    law_rounding_error(f, m, u);
    if product(f, sw, s) < 0x7f80_0000 {
        assert(product(f, sw, s) == last);
        let d = in_units(last);
        assert(xu <= 129 * su) by (nonlinear_arith)
            requires
                64 * xu <= c * su,
                c == 64 * b + 1,
                b <= 128,
        ;
        lemma_less_than_a_step(xu, su, i, p, w, d, u);
        if w == 0 {
            assert(m == 0) by (nonlinear_arith)
                requires
                    m == (w * u) * su,
                    w == 0,
            ;
            assert(d == 0) by (nonlinear_arith)
                requires
                    2 * (d * u) <= u || (d * u) * 0x100_0000 <= 0,
                    u > 0,
            ;
        }
    }
}

/// The bits of a number of single precision stand for it.
pub(crate) proof fn lemma_bits_stand(x: Parts)
    requires
        x.magnitude < 0x8000_0000,
    ensures
        single(bits_of_single(x)) == x,
{
}

/// The value of a single in units.
pub open spec fn value_of(x: u32) -> int {
    value(Format::Single, single(x))
}

/// Whether a single is a finite number.
pub open spec fn is_finite(x: u32) -> bool {
    single(x).magnitude < Format::Single.infinity()
}

/// A scale with a finite inverse is not tiny.
proof fn lemma_scale_not_tiny(scale: u32)
    requires
        is_finite(scale),
        value_of(scale) > 0,
        is_finite(quotient32(ONE, scale)),
    ensures
        value_of(scale) >= 0x10_0000,
{
    reveal(quotient32);
    let s = single(scale);
    let u = lemma_one();
    assert(single(ONE) == Parts { negative: false, magnitude: 0x3f80_0000 });
    lemma2_to64();
    assert(units(Format::Single, 0) == 0);
    lemma_units_ordered(Format::Single, 0, s.magnitude);
    let inverse = quotient(Format::Single, 0x3f80_0000, s.magnitude);
    lemma_bits_stand(Parts { negative: false, magnitude: inverse });
    lemma_inverse(s.magnitude, u);
}

pub(crate) proof fn lemma_flipped(a: u32)
    requires
        a < 0x8000_0000,
    ensures
        single(flipped(a)) == (Parts { negative: true, magnitude: a as nat }),
{
    assert(a ^ 0x8000_0000u32 == a + 0x8000_0000u32) by (bit_vector)
        requires
            a < 0x8000_0000u32,
    ;
}

/// The number that a quantized number stands for.
pub open spec fn restored(x: u32, scale: u32) -> u32 {
    product32(single_of_int(quantized(x, scale) as int), scale)
}

/// A number up to a 64th of a step beyond the range of bytes comes back less
/// than a step away.
proof fn lemma_restored(x: u32, scale: u32)
    requires
        is_finite(x),
        is_finite(scale),
        value_of(scale) > 0,
        is_finite(quotient32(ONE, scale)),
        -8193 * value_of(scale) <= 64 * value_of(x) <= 8129 * value_of(scale),
        is_finite(restored(x, scale)),
    ensures
        -value_of(scale) < value_of(restored(x, scale)) - value_of(x) < value_of(scale),
{
    reveal(product32);
    reveal(quotient32);
    reveal(byte_of);
    let q = quantized(x, scale);
    let back = restored(x, scale);
    let f = Format::Single;
    let px = single(x);
    let ps = single(scale);
    let u = lemma_one();
    assert(single(ONE) == Parts { negative: false, magnitude: 0x3f80_0000 });
    if ps.negative {
        lemma_units_ordered(f, 0, ps.magnitude);
        assert(false);
    }
    if ps.magnitude == 0 {
        lemma2_to64();
        assert(units(f, 0) == 0);
        assert(false);
    }
    let s = ps.magnitude;
    let inverse = quotient(f, 0x3f80_0000, s);
    lemma_bits_stand(Parts { negative: false, magnitude: inverse });
    assert(single(quotient32(ONE, scale)) == (Parts { negative: false, magnitude: inverse }));
    assert(value_of(scale) == in_units(s));
    if px.negative {
        assert(value_of(x) == -in_units(px.magnitude));
        assert(64 * in_units(px.magnitude) <= 8193 * in_units(s));
        lemma_there_and_back(px.magnitude, s, 128);
    } else {
        lemma_there_and_back(px.magnitude, s, 127);
    }
    let p = product(f, px.magnitude, inverse);
    let w = whole(p);
    lemma_bits_stand(Parts { negative: px.negative, magnitude: p });
    let a = single_of(w);
    let d = product(f, a as nat, s);
    if px.negative && w > 0 {
        assert(q == -w);
        lemma_flipped(a);
        lemma_bits_stand(Parts { negative: true, magnitude: d });
        assert(single(back) == (Parts { negative: true, magnitude: d }));
    } else {
        assert(q == w);
        assert(single(a) == (Parts { negative: false, magnitude: a as nat }));
        lemma_bits_stand(Parts { negative: false, magnitude: d });
        assert(single(back) == (Parts { negative: false, magnitude: d }));
    }
}

/// Numbers that bytes can stand for come back less than a step away when they
/// are quantized and dequantized, unless the inverse of the scale or a result
/// is out of range.
pub proof fn law_quantizing_round_trip(x: Seq<u32>, scale: u32, i: int)
    requires
        0 <= i < x.len(),
        is_finite(x[i]),
        is_finite(scale),
        value_of(scale) > 0,
        is_finite(quotient32(ONE, scale)),
        -128 * value_of(scale) <= value_of(x[i]) <= 127 * value_of(scale),
        is_finite(all_dequantized(all_quantized(x, scale), scale)[i]),
    ensures
        ({
            let back = all_dequantized(all_quantized(x, scale), scale)[i];
            -value_of(scale) < value_of(back) - value_of(x[i]) < value_of(scale)
        }),
{
    assert(all_dequantized(all_quantized(x, scale), scale)[i] == restored(x[i], scale));
    lemma_restored(x[i], scale);
}

/// The largest magnitude of a range is no further than a 64th of a step beyond
/// 127 steps of its scale.
proof fn lemma_scale_covers(m: nat, s: nat, u: nat)
    requires
        m < 0x7f80_0000,
        u == pow2(149),
        s == nearest(units(Format::Single, m) * u, 127 * u, 24),
        units(Format::Single, s) >= 0x10_0000,
    ensures
        64 * units(Format::Single, m) <= 8129 * units(Format::Single, s),
{
    let mu = units(Format::Single, m);
    let su = units(Format::Single, s);
    lemma_pow2_pos(149);
    lemma2_to64();
    law_rounding_error(Format::Single, mu * u, 127 * u);
    let e = off_by(su, mu * u, 127 * u);
    assert(mu * u <= (127 * su) * u + e) by (nonlinear_arith)
        requires
            mu * u <= su * (127 * u) + e,
    ;
    assert(64 * mu <= 8129 * su) by (nonlinear_arith)
        requires
            mu * u <= (127 * su) * u + e,
            2 * e <= 127 * u || e * 0x100_0000 <= mu * u,
            su >= 0x10_0000,
            u > 0,
    ;
}

/// The scale of numbers no larger than `big`: it is finite, and its 127 steps cover them.
proof fn lemma_scale_of(big: u32, x: u32)
    requires
        is_finite(big),
        !single(big).negative,
        -value_of(big) <= value_of(x) <= value_of(big),
        value_of(quotient32(big, LARGEST)) > 0,
        is_finite(quotient32(ONE, quotient32(big, LARGEST))),
    ensures
        is_finite(quotient32(big, LARGEST)),
        -8129 * value_of(quotient32(big, LARGEST)) <= 64 * value_of(x) <= 8129 * value_of(
            quotient32(big, LARGEST),
        ),
{
    let scale = quotient32(big, LARGEST);
    let f = Format::Single;
    let m = single(big).magnitude;
    let mu = units(f, m);
    let u = lemma_one();
    let t = 0x1_0000_0000_0000_0000_0000_0000_0000_0000nat;
    lemma2_to64();
    lemma_pow2_adds(17, 132);
    lemma_fundamental_div_mod_converse(0x42fe_0000, 0x80_0000, 133, 0x7e_0000);
    assert(pow2(149) == 0x2_0000 * pow2(132));
    assert(units(f, 0x42fe_0000) == 0xfe_0000 * pow2(132));
    let s = nearest(mu * u, 127 * u, 24);
    let su = units(f, s);
    assert(scale == bits_of_single(Parts { negative: false, magnitude: quotient(f, m, 0x42fe_0000) })) by {
        reveal(quotient32);
    }
    if s >= 0x7f80_0000 {
        law_rounding_error(f, mu * u, 127 * u);
        let e = off_by(su, mu * u, 127 * u);
        lemma_units_ordered(f, 0x7f80_0000, s);
        lemma_units_ordered(f, m, 0x7f80_0000);
        assert(false) by (nonlinear_arith)
            requires
                su * (127 * u) <= mu * u + e,
                2 * e <= 127 * u || e * 0x100_0000 <= mu * u,
                mu < u * t,
                su >= u * t,
                u * t >= 1000,
                u > 0,
        {
            assert(su * (127 * u) == (127 * su) * u);
        }
    }
    lemma_bits_stand(Parts { negative: false, magnitude: s });
    assert(single(scale) == (Parts { negative: false, magnitude: s }));
    lemma_scale_not_tiny(scale);
    lemma_scale_covers(m, s, u);
}

/// A single without its sign.
pub(crate) proof fn lemma_magnitude(x: u32)
    ensures
        single(magnitude(x)) == (Parts { negative: false, ..single(x) }),
{
    assert(x & 0x7fff_ffff == x % 0x8000_0000) by (bit_vector);
}

/// The scale of a range covers what lies in it.
proof fn lemma_range_scale(min: u32, max: u32, x: u32)
    requires
        finite32(min),
        finite32(max),
        finite32(x),
        !less32(x, min),
        !less32(max, x),
        value_of(range_scale(min, max)) > 0,
        is_finite(quotient32(ONE, range_scale(min, max))),
    ensures
        is_finite(range_scale(min, max)),
        -8129 * value_of(range_scale(min, max)) <= 64 * value_of(x) <= 8129 * value_of(
            range_scale(min, max),
        ),
{
    reveal(less32);
    reveal(nan32);
    lemma_magnitude(min);
    lemma_magnitude(max);
    lemma_scale_of(larger(magnitude(min), magnitude(max)), x);
}

/// A value that was taken in comes back less than a step away when it is
/// quantized and dequantized with the scale of the statistics, unless the
/// inverse of the scale or the result is out of range.
pub proof fn law_calibrated_values_come_back(s: TensorStats, values: Seq<u32>, i: int)
    requires
        !nan32(s.min),
        !nan32(s.max),
        0 <= i < values.len(),
        finite32(values[i]),
        finite32(stats_with(s, values).min),
        finite32(stats_with(s, values).max),
        ({
            let scale = range_scale(stats_with(s, values).min, stats_with(s, values).max);
            &&& value_of(scale) > 0
            &&& is_finite(quotient32(ONE, scale))
            &&& is_finite(restored(values[i], scale))
        }),
    ensures
        ({
            let scale = range_scale(stats_with(s, values).min, stats_with(s, values).max);
            -value_of(scale) < value_of(restored(values[i], scale)) - value_of(values[i]) < value_of(
                scale,
            )
        }),
{
    let r = stats_with(s, values);
    law_stats_bound_values(s, values, i);
    lemma_range_scale(r.min, r.max, values[i]);
    lemma_restored(values[i], range_scale(r.min, r.max));
}

/// The largest magnitude bounds every element.
pub(crate) proof fn lemma_largest(w: Seq<u32>, start: int, end: int, k: int)
    requires
        0 <= start <= end <= w.len(),
        forall|j: int| start <= j < end ==> is_finite(#[trigger] w[j]),
    ensures
        is_finite(max_magnitude(w, start, end)),
        !single(max_magnitude(w, start, end)).negative,
        start <= k < end ==> -value_of(max_magnitude(w, start, end)) <= value_of(w[k]) <= value_of(
            max_magnitude(w, start, end),
        ),
    decreases end - start,
{
    reveal(less32);
    reveal(nan32);
    if start < end {
        lemma_largest(w, start, end - 1, k);
        lemma_magnitude(w[end - 1]);
        assert(is_finite(w[end - 1]));
    }
}

/// A weight comes back less than a step of its channel's scale away when it is
/// quantized channel by channel and dequantized, unless the inverse of the
/// scale or the result is out of range.
pub proof fn law_weights_come_back(w: Seq<u32>, channels: nat, per: nat, k: int)
    requires
        channels * per <= w.len(),
        0 <= k < channels * per,
        forall|j: int| 0 <= j < w.len() ==> is_finite(#[trigger] w[j]),
        ({
            let scale = channel_scales(w, channels, per)[k / per as int];
            &&& value_of(scale) > 0
            &&& is_finite(quotient32(ONE, scale))
            &&& is_finite(restored(w[k], scale))
        }),
    ensures
        ({
            let scales = channel_scales(w, channels, per);
            let scale = scales[k / per as int];
            &&& quantized_channels(w, scales, per)[k] == quantized(w[k], scale) as u8
            &&& -value_of(scale) < value_of(restored(w[k], scale)) - value_of(w[k]) < value_of(
                scale,
            )
        }),
{
    let c = k / per as int;
    assert(per > 0) by (nonlinear_arith)
        requires
            0 <= k < channels * per,
    ;
    lemma_fundamental_div_mod(k, per as int);
    lemma_mod_pos_bound(k, per as int);
    assert(0 <= c < channels) by (nonlinear_arith)
        requires
            k == per * c + k % (per as int),
            0 <= k % (per as int) < per,
            0 <= k < channels * per,
    ;
    assert(c * per <= k < c * per + per) by (nonlinear_arith)
        requires
            k == per * c + k % (per as int),
            0 <= k % (per as int) < per,
    ;
    assert(0 <= c * per && c * per + per <= channels * per) by (nonlinear_arith)
        requires
            0 <= c < channels,
    ;
    lemma_largest(w, c * per, c * per + per, k);
    let big = max_magnitude(w, c * per, c * per + per);
    lemma_scale_of(big, w[k]);
    lemma_restored(w[k], quotient32(big, LARGEST));
}

} // verus!
