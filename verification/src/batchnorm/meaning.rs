//! What a folded convolution computes: the normalized result of the convolution.

use vstd::prelude::*;
use vstd::arithmetic::div_mod::lemma_fundamental_div_mod_converse;
use vstd::arithmetic::power2::{
    lemma2_to64, lemma2_to64_rest, lemma_pow2_adds, lemma_pow2_pos, lemma_pow2_strictly_increases,
    pow2,
};
use crate::ieee::accuracy::{
    distance, is_finite64, is_rounded, law_difference64_is_rounded, law_narrowed_is_rounded,
    law_product64_is_rounded, law_quotient64_is_rounded, law_root_squares_back,
    law_sum64_is_rounded, law_widened_is_exact, lemma_addends64_finite, lemma_factors_finite,
    lemma_narrowed_from_finite, lemma_root_finite, lemma_single_bound, lemma_sum64_finite, size,
    value64,
};
use crate::ieee::nearness::{
    is_near, lemma_apart_scaled, lemma_near_back, lemma_near_product, lemma_near_scaled, lemma_near_trans,
    lemma_near_unscaled, lemma_rounded_is_near, lemma_rounded_off,
};
use crate::ieee::{
    difference64, double, narrowed, product64, quotient64, root64, sum64, units, widened, Format,
};
use crate::precision::{is_finite, value_of};
use crate::model::{DataType, GraphProtoView, NodeView, TensorView};
use crate::proto::{bytes_of_words32, law_words32_round_trip, words32};
use super::{
    bias_name, channel_factor, conv_using, conv_writing, fold_of, folded_bias, folded_bias_at,
    folded_weights, tensor_named, with_data, with_fold, FoldView, NormView, EPSILON, ONE_DOUBLE,
};

verus! {

/// One in units of single precision.
pub open spec fn one32() -> int {
    pow2(149) as int
}

/// One in units of double precision.
pub open spec fn one64() -> int {
    pow2(1074) as int
}

/// Whether `phi` (in units of double precision) is `scale / sqrt(v)`, with the
/// two in units of single precision: it has the sign of `scale`, and its square
/// times `v` is the square of `scale`, but for a few roundings.
pub open spec fn is_factor(phi: int, scale: int, v: int) -> bool {
    phi * scale >= 0 && is_near(phi * phi * (v * one32()), scale * scale * (one64() * one64()), 12)
}

/// Whether `new` is `old` times the factor, rounded to single precision.
pub open spec fn is_scaled(new: int, old_value: int, phi: int) -> bool {
    distance(new * one64(), old_value * phi) * 0x100_0000 <= 3 * size(old_value * phi) + 0x100_0000
        * one64()
}

/// Whether `new` is `offset` times the factor, plus `shift`, rounded to single precision.
pub open spec fn is_shifted(new: int, offset: int, phi: int, shift: int) -> bool {
    distance(new * one64(), offset * phi + shift * one64()) * 0x100_0000 <= 12 * size(offset * phi)
        + 3 * size(shift * one64()) + 0x100_0000 * one64()
}

proof fn lemma_ones()
    ensures
        one64() == one32() * pow2(925),
        one64() > 0,
        one32() == pow2(149),
        pow2(925) >= pow2(277),
        pow2(277) >= 0x1_0000_0000_0000_0000,
        is_finite64(ONE_DOUBLE),
        value64(ONE_DOUBLE) == one64(),
        one32() >= 0x1_0000_0000_0000_0000,
{
    lemma2_to64();
    lemma2_to64_rest();
    lemma_pow2_adds(149, 925);
    lemma_pow2_pos(1074);
    lemma_pow2_adds(52, 1022);
    lemma_pow2_strictly_increases(277, 925);
    lemma_pow2_strictly_increases(64, 277);
    lemma_pow2_strictly_increases(64, 149);
    lemma_fundamental_div_mod_converse(
        0x3ff0_0000_0000_0000,
        0x10_0000_0000_0000,
        1023,
        0,
    );
    assert(units(Format::Double, 0x3ff0_0000_0000_0000) == 0x10_0000_0000_0000 * pow2(1022));
}

/// The square of the root `r` of the rounded `v`, with `k` double units to a single one.
proof fn lemma_root_near(v: int, big: int, r: int, k: int, o: int)
    requires
        v > 0,
        k > 0,
        o > 0,
        is_near(big, v * k, 1),
        is_near(big * o, r * r, 1),
    ensures
        is_near(v * k * o, r * r, 4),
{
    lemma_near_back(big, v * k, 1);
    lemma_near_scaled(v * k, big, 2, o);
    lemma_near_trans(v * k * o, big * o, 2, r * r, 1);
}

/// The root is far below the square of one.
proof fn lemma_root_bound(v: int, r: int, k: int, o: int, u: int, t: int)
    requires
        0 < v < t * t,
        t >= 1,
        k > 0,
        u > 0,
        o > 0,
        o == u * k,
        r > 0,
        is_near(v * k * o, r * r, 4),
    ensures
        r < 2 * (t * o),
{
    let x = v * k * o;
    let rr = r * r;
    assert(rr <= 2 * x) by {
        assert(distance(x, rr) * 0x100_0000 <= 4 * rr);
        assert(rr >= 0) by (nonlinear_arith)
            requires
                rr == r * r,
        ;
    }
    if r >= 2 * (t * o) {
        let to = t * o;
        assert(to >= 0) by (nonlinear_arith)
            requires
                to == t * o,
                t >= 1,
                o > 0,
        ;
        assert(rr >= 4 * (to * to)) by (nonlinear_arith)
            requires
                rr == r * r,
                r >= 2 * to,
                to >= 0,
        ;
        assert(x <= (t * t) * (k * o)) by (nonlinear_arith)
            requires
                x == v * k * o,
                v < t * t,
                k > 0,
                o > 0,
        ;
        assert(k * o <= o * o) by (nonlinear_arith)
            requires
                o == u * k,
                u >= 1,
                k > 0,
        ;
        assert((t * t) * (k * o) <= (t * t) * (o * o)) by (nonlinear_arith)
            requires
                k * o <= o * o,
                t >= 1,
        ;
        assert(to * to == (t * t) * (o * o)) by (nonlinear_arith)
            requires
                to == t * o,
        ;
        assert((t * t) * (o * o) > 0) by (nonlinear_arith)
            requires
                t >= 1,
                o > 0,
        ;
        assert(false);
    }
}

/// The factor from its parts: `r` the root, `i` its inverse, `f` the product with the scale.
proof fn lemma_factor_near(s: int, v: int, r: int, i: int, f: int, k: int, o: int, u: int)
    requires
        k > 0,
        u > 0,
        o == u * k,
        r > 0,
        is_near(v * k * o, r * r, 4),
        is_near(i * r, o * o, 1),
        is_near(f * o, (s * k) * i, 1),
    ensures
        is_near(f * f * (v * u), s * s * (o * o), 12),
{
    assert(o > 0) by (nonlinear_arith)
        requires
            o == u * k,
            u > 0,
            k > 0,
    ;
    let sk = s * k;
    // f * r against s * k * o
    lemma_near_scaled(f * o, sk * i, 1, r);
    lemma_near_scaled(i * r, o * o, 1, sk);
    assert((sk * i) * r == (i * r) * sk) by (nonlinear_arith);
    lemma_near_trans((f * o) * r, (i * r) * sk, 1, (o * o) * sk, 1);
    assert((f * o) * r == (f * r) * o) by (nonlinear_arith);
    assert((o * o) * sk == (sk * o) * o) by (nonlinear_arith);
    let (a, b) = (f * r, sk * o);
    lemma_near_unscaled(a, b, 3, o);
    lemma_near_product(a, b, 3, a, b, 3);
    // r * r against v * k * o
    let ff = f * f;
    lemma_near_scaled(v * k * o, r * r, 4, ff);
    assert((r * r) * ff == a * a) by (nonlinear_arith)
        requires
            a == f * r,
            ff == f * f,
    ;
    lemma_near_trans((v * k * o) * ff, a * a, 4, b * b, 7);
    let kk = k * k;
    assert(kk > 0) by (nonlinear_arith)
        requires
            kk == k * k,
            k > 0,
    ;
    assert((v * k * o) * ff == (ff * (v * u)) * kk) by (nonlinear_arith)
        requires
            o == u * k,
            kk == k * k,
    ;
    assert(b * b == (s * s * (o * o)) * kk) by (nonlinear_arith)
        requires
            b == (s * k) * o,
            kk == k * k,
    ;
    lemma_near_unscaled(ff * (v * u), s * s * (o * o), 12, kk);
}

/// The factor of a channel is its scale over the root of its variance and epsilon.
proof fn lemma_channel_factor(scale: u32, variance: u32, epsilon: u32)
    requires
        is_finite(scale),
        is_finite(variance),
        is_finite(epsilon),
        value_of(variance) + value_of(epsilon) > 0,
        is_finite64(
            product64(
                widened(scale),
                quotient64(ONE_DOUBLE, root64(sum64(widened(variance), widened(epsilon)))),
            ),
        ),
    ensures
        is_factor(
            value64(
                product64(
                    widened(scale),
                    quotient64(ONE_DOUBLE, root64(sum64(widened(variance), widened(epsilon)))),
                ),
            ),
            value_of(scale),
            value_of(variance) + value_of(epsilon),
        ),
{
    let (k, o, u) = (pow2(925) as int, one64(), one32());
    lemma_ones();
    lemma2_to64();
    lemma_pow2_pos(925);
    let (x, e) = (value_of(variance), value_of(epsilon));
    let v = x + e;
    law_widened_is_exact(scale);
    law_widened_is_exact(variance);
    law_widened_is_exact(epsilon);
    lemma_single_bound(variance);
    lemma_single_bound(epsilon);
    lemma_pow2_adds(1, 277);
    lemma_pow2_adds(278, 925);
    let (wx, we) = (widened(variance), widened(epsilon));
    assert(size(x * k) + size(e * k) <= pow2(1203)) by (nonlinear_arith)
        requires
            size(x) <= pow2(277),
            size(e) <= pow2(277),
            pow2(1203) == (2 * pow2(277)) * k,
            k > 0,
    ;
    lemma_sum64_finite(wx, we, 1203);
    law_sum64_is_rounded(wx, we);
    let total = sum64(wx, we);
    let big = value64(total);
    assert(x * k + e * k == v * k) by (nonlinear_arith)
        requires
            v == x + e,
    ;
    assert(v * k >= k) by (nonlinear_arith)
        requires
            v >= 1,
            k > 0,
    ;
    lemma_rounded_is_near(big, v * k, 1, 53);
    assert(big * 1 == big);
    assert(big > 0);
    let root = root64(total);
    let r = value64(root);
    assert(is_finite64(root) && r > 0 && is_near(big * o, r * r, 1)) by {
        reveal(root64);
        lemma2_to64_rest();
        lemma_root_finite(Format::Double, double(total));
        law_root_squares_back(Format::Double, double(total));
        let d = distance(r * r, big * o);
        assert(2 * d * 0x10_0000_0000_0000 <= 3 * (r * r));
        assert(d == distance(big * o, r * r));
        assert(d >= 0);
    }
    lemma_root_near(v, big, r, k, o);
    let t = pow2(139) as int;
    lemma_pow2_adds(139, 139);
    lemma_pow2_pos(139);
    lemma_root_bound(v, r, k, o, u, t);
    let inverse = quotient64(ONE_DOUBLE, root);
    let factor = product64(widened(scale), inverse);
    lemma_factors_finite(widened(scale), inverse);
    law_quotient64_is_rounded(ONE_DOUBLE, root);
    let i = value64(inverse);
    lemma_pow2_adds(139, 1);
    lemma_pow2_adds(140, 23);
    lemma_pow2_strictly_increases(163, 1074);
    assert(size(r) * 0x80_0000 <= size(o * o)) by (nonlinear_arith)
        requires
            0 < r < 2 * (t * o),
            2 * t * 0x80_0000 <= o,
            o > 0,
    ;
    lemma_rounded_is_near(i, o * o, r, 53);
    let s = value_of(scale);
    let f = value64(factor);
    law_product64_is_rounded(widened(scale), inverse);
    let oo = o * o;
    assert(oo > 0) by (nonlinear_arith)
        requires
            oo == o * o,
            o > 0,
    ;
    assert(2 * (i * r) >= oo);
    assert(i > 0) by (nonlinear_arith)
        requires
            2 * (i * r) >= oo,
            oo > 0,
            r > 0,
    ;
    assert(4 * (i * t) >= o) by (nonlinear_arith)
        requires
            2 * (i * r) >= o * o,
            r < 2 * (t * o),
            i > 0,
            o > 0,
    ;
    if s == 0 {
        assert((s * k) * i == 0) by (nonlinear_arith)
            requires
                s == 0,
        ;
        let d = distance(f * o, 0);
        lemma_pow2_pos(53);
        assert(2 * d <= o || d * pow2(53) <= 0);
        if d * pow2(53) <= 0 {
            assert(d == 0) by (nonlinear_arith)
                requires
                    d * pow2(53) <= 0,
                    d >= 0,
                    pow2(53) > 0,
            ;
        }
        assert(f == 0) by (nonlinear_arith)
            requires
                2 * d <= o,
                d == size(f * o),
                o > 0,
        ;
        assert(f * s == 0 && f * f * (v * u) == 0 && s * s * (o * o) == 0) by (nonlinear_arith)
            requires
                f == 0,
                s == 0,
        ;
    } else {
        let x = (s * k) * i;
        // k is far above 4 * t * 2^23
        lemma_pow2_adds(2, 139);
        lemma_pow2_adds(141, 23);
        lemma_pow2_strictly_increases(164, 925);
        assert(k * i >= o * 0x80_0000) by (nonlinear_arith)
            requires
                4 * (i * t) >= o,
                k >= 4 * t * 0x80_0000,
                i > 0,
        ;
        assert(size(x) >= k * i) by (nonlinear_arith)
            requires
                x == (s * k) * i,
                s != 0,
                k > 0,
                i > 0,
        ;
        lemma_rounded_is_near(f, x, o, 53);
        lemma_factor_near(s, v, r, i, f, k, o, u);
        assert(f * s >= 0) by {
            let y = f * o;
            assert((x > 0) == (s > 0)) by (nonlinear_arith)
                requires
                    x == (s * k) * i,
                    s != 0,
                    k > 0,
                    i > 0,
            ;
            assert((y > 0) == (x > 0) && x != 0);
            assert((f > 0) == (y > 0)) by (nonlinear_arith)
                requires
                    y == f * o,
                    o > 0,
            ;
            assert(f * s >= 0) by (nonlinear_arith)
                requires
                    (f > 0) == (s > 0),
                    s != 0,
            ;
        }
    }
}

/// A weight times the factor, by way of a double `g`.
proof fn lemma_scaled(w: int, f: int, g: int, new: int, k: int, o: int)
    requires
        k >= 0x100_0000,
        o > 0,
        is_rounded(g, (w * k) * f, o, 53),
        is_rounded(new, g, k, 24),
    ensures
        distance(new * o, w * f) * 0x100_0000 <= 3 * size(w * f) + 0x100_0000 * o,
{
    lemma2_to64();
    lemma2_to64_rest();
    let x = (w * k) * f;
    let a = size(x);
    let e = distance(g * o, x);
    assert(e * 0x100_0000 <= a + 0x80_0000 * o) by {
        if e * pow2(53) <= a {
            assert(e * 0x100_0000 <= e * 0x20_0000_0000_0000) by (nonlinear_arith)
                requires
                    e >= 0,
            ;
        }
    }
    let d = distance(new * k, g);
    assert(d * 0x100_0000 <= size(g) + 0x80_0000 * k);
    let go = g * o;
    let y = (new * k) * o;
    assert(distance(y, go) == d * o) by (nonlinear_arith)
        requires
            d == distance(new * k, g),
            y == (new * k) * o,
            go == g * o,
            o > 0,
    ;
    assert(size(go) == size(g) * o) by (nonlinear_arith)
        requires
            go == g * o,
            o > 0,
    ;
    assert((d * o) * 0x100_0000 <= size(go) + 0x80_0000 * (k * o)) by (nonlinear_arith)
        requires
            d * 0x100_0000 <= size(g) + 0x80_0000 * k,
            size(go) == size(g) * o,
            o > 0,
    ;
    assert(size(go) <= a + e);
    assert(e <= a + o);
    let ko = k * o;
    assert(ko >= 0x100_0000 * o) by (nonlinear_arith)
        requires
            ko == k * o,
            k >= 0x100_0000,
            o > 0,
    ;
    assert(distance(y, x) * 0x100_0000 <= 3 * a + 0x100_0000 * ko);
    lemma_undo(new, w * f, k, o, y, x);
    let near = distance(new * o, w * f);
    assert(near * 0x100_0000 <= 3 * size(w * f) + 0x100_0000 * o) by (nonlinear_arith)
        requires
            (near * k) * 0x100_0000 <= 3 * (size(w * f) * k) + 0x100_0000 * (k * o),
            k > 0,
    ;
}

/// Taking out a common factor `k`.
proof fn lemma_undo(new: int, exact: int, k: int, o: int, y: int, x: int)
    requires
        k > 0,
        y == (new * k) * o,
    ensures
        x == exact * k ==> distance(y, x) == distance(new * o, exact) * k && size(x) == size(exact) * k,
        forall|w: int, f: int|
            exact == w * f ==> #[trigger] ((w * k) * f) == exact * k,
{
    assert forall|w: int, f: int| exact == w * f implies #[trigger] ((w * k) * f) == exact * k by {
        assert((w * k) * f == (w * f) * k) by (nonlinear_arith);
    }
    if x == exact * k {
        assert(y == (new * o) * k) by (nonlinear_arith)
            requires
                y == (new * k) * o,
        ;
        let n = new * o;
        assert(distance(n * k, exact * k) == distance(n, exact) * k) by (nonlinear_arith)
            requires
                k > 0,
        ;
        assert(size(exact * k) == size(exact) * k) by (nonlinear_arith)
            requires
                k > 0,
        ;
    }
}

/// The steps of a shifted product, one after the other.
proof fn lemma_shift_steps(
    x: int,
    y: int,
    df: int,
    po: int,
    so: int,
    last: int,
    o: int,
    ko: int,
)
    requires
        o > 0,
        ko >= 0x100_0000 * o,
        distance(df, x) * 0x100_0000 <= size(x),
        distance(po, df) * 0x100_0000 <= size(df) + 0x80_0000 * o,
        distance(so, po + y) * 0x100_0000 <= size(po + y),
        distance(last, so) * 0x100_0000 <= size(so) + 0x80_0000 * ko,
    ensures
        distance(last, x + y) * 0x100_0000 <= 12 * size(x) + 3 * size(y) + 0x100_0000 * ko,
{
    let (a, b) = (size(x), size(y));
    assert(size(df) <= 2 * a);
    assert(size(po) <= 3 * a + o);
    assert(size(po + y) <= 3 * a + b + o);
    assert(size(so) <= 6 * a + 2 * b + 2 * o);
}

/// An offset times the factor, plus a shift: `d` is the offset in double
/// precision, `p` the product, `s` the sum, and `new` the sum in single precision.
proof fn lemma_shifted(offset: int, f: int, shift: int, d: int, p: int, s: int, new: int, k: int, o: int)
    requires
        k >= 0x100_0000,
        o > 0,
        is_rounded(d, offset * k, 1, 53),
        is_rounded(p, d * f, o, 53),
        is_rounded(s, p + shift * k, 1, 53),
        is_rounded(new, s, k, 24),
    ensures
        distance(new * o, offset * f + shift * o) * 0x100_0000 <= 12 * size(offset * f) + 3 * size(
            shift * o,
        ) + 0x100_0000 * o,
{
    let ok = offset * k;
    let z = p + shift * k;
    let nk = new * k;
    lemma_rounded_off(d, ok, 1, 53);
    lemma_rounded_off(p, d * f, o, 53);
    lemma_rounded_off(s, z, 1, 53);
    lemma_rounded_off(new, s, k, 24);
    lemma_apart_scaled(d, ok, f);
    lemma_apart_scaled(ok, 0, f);
    lemma_apart_scaled(s, z, o);
    lemma_apart_scaled(z, 0, o);
    lemma_apart_scaled(nk, s, o);
    lemma_apart_scaled(s, 0, o);
    let x = (offset * f) * k;
    let y = (shift * o) * k;
    assert(x == ok * f) by (nonlinear_arith)
        requires
            x == (offset * f) * k,
            ok == offset * k,
    ;
    assert(z * o == p * o + y) by (nonlinear_arith)
        requires
            z == p + shift * k,
            y == (shift * o) * k,
    ;
    let ko = k * o;
    lemma_times_part(distance(d, ok), size(ok), 0, size(f));
    lemma_times_part(distance(s, z), size(z), 0, o);
    lemma_times_part(distance(nk, s), size(s), k, o);
    assert(ko >= 0x100_0000 * o) by (nonlinear_arith)
        requires
            ko == k * o,
            k >= 0x100_0000,
            o > 0,
    ;
    lemma_shift_steps(x, y, d * f, p * o, s * o, nk * o, o, ko);
    let exact = offset * f + shift * o;
    assert(x + y == exact * k) by (nonlinear_arith)
        requires
            x == (offset * f) * k,
            y == (shift * o) * k,
            exact == offset * f + shift * o,
    ;
    lemma_undo(new, exact, k, o, nk * o, x + y);
    lemma_apart_scaled(offset * f, 0, k);
    lemma_apart_scaled(shift * o, 0, k);
    let near = distance(new * o, exact);
    let (c1, c2) = (size(offset * f), size(shift * o));
    assert(near * 0x100_0000 <= 12 * c1 + 3 * c2 + 0x100_0000 * o) by (nonlinear_arith)
        requires
            (near * k) * 0x100_0000 <= 12 * (c1 * k) + 3 * (c2 * k) + 0x100_0000 * (k * o),
            k > 0,
    ;
}

proof fn lemma_times_part(e: int, a: int, k: int, c: int)
    requires
        e * 0x100_0000 <= a + 0x80_0000 * k,
        c >= 0,
    ensures
        (e * c) * 0x100_0000 <= a * c + 0x80_0000 * (k * c),
{
    assert((e * c) * 0x100_0000 <= a * c + 0x80_0000 * (k * c)) by (nonlinear_arith)
        requires
            e * 0x100_0000 <= a + 0x80_0000 * k,
            c >= 0,
    ;
}

/// A weight comes out as the weight times the factor.
proof fn lemma_weight(w: u32, factor: u64)
    requires
        is_finite(w),
        is_finite(narrowed(product64(widened(w), factor))),
    ensures
        is_finite64(factor),
        is_scaled(
            value_of(narrowed(product64(widened(w), factor))),
            value_of(w),
            value64(factor),
        ),
{
    let g = product64(widened(w), factor);
    lemma_ones();
    lemma_narrowed_from_finite(g);
    lemma_factors_finite(widened(w), factor);
    law_widened_is_exact(w);
    law_product64_is_rounded(widened(w), factor);
    law_narrowed_is_rounded(g);
    lemma_scaled(
        value_of(w),
        value64(factor),
        value64(g),
        value_of(narrowed(g)),
        pow2(925) as int,
        one64(),
    );
}

/// A bias comes out as its distance from the mean times the factor, plus the shift.
proof fn lemma_bias(n: NormView, old_bias: u32, c: int)
    requires
        is_finite(old_bias),
        is_finite(n.mean[c]),
        is_finite(n.shift[c]),
        is_finite(folded_bias_at(n, old_bias, c)),
    ensures
        is_finite64(channel_factor(n, c)),
        is_shifted(
            value_of(folded_bias_at(n, old_bias, c)),
            value_of(old_bias) - value_of(n.mean[c]),
            value64(channel_factor(n, c)),
            value_of(n.shift[c]),
        ),
{
    let (wb, wm, ws) = (widened(old_bias), widened(n.mean[c]), widened(n.shift[c]));
    let f = channel_factor(n, c);
    let d = difference64(wb, wm);
    let p = product64(d, f);
    let s = sum64(p, ws);
    let k = pow2(925) as int;
    lemma_ones();
    lemma_narrowed_from_finite(s);
    lemma_addends64_finite(p, ws);
    lemma_factors_finite(d, f);
    law_widened_is_exact(old_bias);
    law_widened_is_exact(n.mean[c]);
    law_widened_is_exact(n.shift[c]);
    law_difference64_is_rounded(wb, wm);
    law_product64_is_rounded(d, f);
    law_sum64_is_rounded(p, ws);
    law_narrowed_is_rounded(s);
    let (b, m) = (value_of(old_bias), value_of(n.mean[c]));
    assert(b * k - m * k == (b - m) * k) by (nonlinear_arith);
    lemma_shifted(
        b - m,
        value64(f),
        value_of(n.shift[c]),
        value64(d),
        value64(p),
        value64(s),
        value_of(narrowed(s)),
        k,
        one64(),
    );
}

/// The bias that a convolution adds in a channel.
pub open spec fn bias_in(old_bias: Option<Seq<u32>>, c: int) -> u32 {
    match old_bias {
        Some(b) => b[c],
        None => 0,
    }
}

/// Whether the parameters of a channel are numbers, with something to take the root of.
pub open spec fn is_regular(n: NormView, c: int) -> bool {
    &&& is_finite(n.scale[c]) && is_finite(n.shift[c]) && is_finite(n.mean[c])
    &&& is_finite(n.variance[c]) && is_finite(n.epsilon)
    &&& value_of(n.variance[c]) + value_of(n.epsilon) > 0
}

/// Whether the weights and the bias of a channel are those that compute the
/// normalized result: with `phi = scale / sqrt(variance + epsilon)` of the
/// channel, the weights times `phi`, and the bias less the mean, times `phi`,
/// plus the shift of the channel.
pub open spec fn is_normalized(
    weights: Seq<u32>,
    bias: Seq<u32>,
    n: NormView,
    w: Seq<u32>,
    old_bias: Option<Seq<u32>>,
    per: nat,
    c: int,
) -> bool {
    exists|phi: int|
        #![trigger is_factor(phi, value_of(n.scale[c]), value_of(n.variance[c]) + value_of(n.epsilon))]
        {
            &&& is_factor(
                phi,
                value_of(n.scale[c]),
                value_of(n.variance[c]) + value_of(n.epsilon),
            )
            &&& forall|k: int|
                c * per <= k < c * per + per ==> is_scaled(
                    value_of(#[trigger] weights[k]),
                    value_of(w[k]),
                    phi,
                )
            &&& is_shifted(
                value_of(bias[c]),
                value_of(bias_in(old_bias, c)) - value_of(n.mean[c]),
                phi,
                value_of(n.shift[c]),
            )
        }
}

/// In every channel the folded convolution computes the normalized result: with
/// `phi = scale / sqrt(variance + epsilon)` of the channel, its weights are the
/// weights times `phi`, and its bias is the bias less the mean, times `phi`, plus
/// the shift of the channel, but for rounding and unless a result is out of range.
pub proof fn law_folded_channel_is_normalized(
    n: NormView,
    w: Seq<u32>,
    old_bias: Option<Seq<u32>>,
    channels: nat,
    per: nat,
    c: int,
)
    requires
        0 <= c < channels,
        channels * per <= w.len(),
        is_regular(n, c),
        is_finite(bias_in(old_bias, c)),
        is_finite(folded_bias(n, old_bias, channels)[c]),
        forall|k: int|
            c * per <= k < c * per + per ==> is_finite(#[trigger] w[k]) && is_finite(
                folded_weights(n, w, channels, per)[k],
            ),
    ensures
        is_normalized(
            folded_weights(n, w, channels, per),
            folded_bias(n, old_bias, channels),
            n,
            w,
            old_bias,
            per,
            c,
        ),
{
    let factor = channel_factor(n, c);
    let phi = value64(factor);
    lemma_bias(n, bias_in(old_bias, c), c);
    lemma_channel_factor(n.scale[c], n.variance[c], n.epsilon);
    let new = folded_weights(n, w, channels, per);
    assert(0 <= c * per && c * per + per <= channels * per) by (nonlinear_arith)
        requires
            0 <= c < channels,
    ;
    assert forall|k: int| c * per <= k < c * per + per implies is_scaled(
        value_of(#[trigger] new[k]),
        value_of(w[k]),
        phi,
    ) by {
        lemma_fundamental_div_mod_converse(k, per as int, c, k - c * per);
        assert(is_finite(w[k]));
        lemma_weight(w[k], factor);
    }
    assert(is_factor(phi, value_of(n.scale[c]), value_of(n.variance[c]) + value_of(n.epsilon)));
}

/// The parameters that a normalization node names: scale, shift, mean and
/// variance, in this order behind its input, and its epsilon.
pub open spec fn named_norm(node: NodeView, tensors: Map<Seq<char>, TensorView>) -> NormView {
    NormView {
        scale: words32(tensors[node.inputs[1]].data),
        shift: words32(tensors[node.inputs[2]].data),
        mean: words32(tensors[node.inputs[3]].data),
        variance: words32(tensors[node.inputs[4]].data),
        epsilon: node.attr_float("epsilon"@, EPSILON),
    }
}

/// The bias that a convolution names, if it does.
pub open spec fn named_bias(conv: NodeView, tensors: Map<Seq<char>, TensorView>) -> Option<Seq<u32>> {
    if conv.inputs.len() > 2 && conv.inputs[2].len() > 0 && tensors.dom().contains(conv.inputs[2])
        && tensors[conv.inputs[2]].data_type == DataType::Float && tensors[conv.inputs[2]].data.len()
        % 4 == 0 {
        Some(words32(tensors[conv.inputs[2]].data))
    } else {
        None
    }
}

/// Whether all numbers of a fold are finite in a channel.
pub open spec fn is_finite_fold(
    f: FoldView,
    n: NormView,
    w: Seq<u32>,
    old_bias: Option<Seq<u32>>,
    per: nat,
    c: int,
) -> bool {
    &&& is_regular(n, c)
    &&& is_finite(bias_in(old_bias, c))
    &&& is_finite(f.bias[c])
    &&& forall|k: int|
        c * per <= k < c * per + per ==> is_finite(#[trigger] w[k]) && is_finite(f.weights[k])
}

proof fn lemma_conv_writing(nodes: Seq<NodeView>, name: Seq<char>, i: int)
    requires
        0 <= i,
        conv_writing(nodes, name, i) is Some,
    ensures
        ({
            let c = conv_writing(nodes, name, i)->0;
            &&& 0 <= c < nodes.len()
            &&& nodes[c].op_type == "Conv"@
            &&& nodes[c].outputs.contains(name)
        }),
    decreases nodes.len() - i,
{
    if i < nodes.len() && !(nodes[i].outputs.contains(name) && nodes[i].op_type == "Conv"@) {
        lemma_conv_writing(nodes, name, i + 1);
    }
}

/// A normalization node is folded into a convolution that writes what it reads,
/// with the parameters that it names, channel by channel.
pub proof fn law_node_is_folded_into_its_convolution(
    nodes: Seq<NodeView>,
    tensors: Map<Seq<char>, TensorView>,
    node: NodeView,
    c: int,
)
    requires
        fold_of(nodes, tensors, node) is Ok,
    ensures
        ({
            let f = fold_of(nodes, tensors, node)->Ok_0;
            exists|j: int|
                0 <= j < nodes.len() && (#[trigger] nodes[j]).op_type == "Conv"@
                    && nodes[j].outputs.contains(node.inputs[0]) && f.weight == nodes[j].inputs[1] && {
                    let w = words32(tensors[f.weight].data);
                    let channels = tensors[f.weight].dims[0] as usize as nat;
                    let per = w.len() / channels;
                    let n = named_norm(node, tensors);
                    let old_bias = named_bias(nodes[j], tensors);
                    0 <= c < channels && is_finite_fold(f, n, w, old_bias, per, c) ==> is_normalized(
                        f.weights,
                        f.bias,
                        n,
                        w,
                        old_bias,
                        per,
                        c,
                    )
                }
        }),
{
    let f = fold_of(nodes, tensors, node)->Ok_0;
    let j = conv_writing(nodes, node.inputs[0], 0)->0;
    lemma_conv_writing(nodes, node.inputs[0], 0);
    let w = words32(tensors[f.weight].data);
    let channels = tensors[f.weight].dims[0] as usize as nat;
    let per = w.len() / channels;
    let n = named_norm(node, tensors);
    let old_bias = named_bias(nodes[j], tensors);
    assert(channels * per <= w.len()) by (nonlinear_arith)
        requires
            channels > 0,
            per == w.len() / channels,
    ;
    if 0 <= c < channels && is_finite_fold(f, n, w, old_bias, per, c) {
        law_folded_channel_is_normalized(n, w, old_bias, channels, per, c);
    }
    assert(nodes[j].op_type == "Conv"@);
}

proof fn lemma_tensor_named(tensors: Seq<TensorView>, name: Seq<char>, i: int)
    requires
        0 <= i,
    ensures
        match tensor_named(tensors, name, i) {
            Some(t) => i <= t < tensors.len() && tensors[t].name == name && forall|k: int|
                i <= k < t ==> (#[trigger] tensors[k]).name != name,
            None => forall|k: int| i <= k < tensors.len() ==> (#[trigger] tensors[k]).name != name,
        },
    decreases tensors.len() - i,
{
    if i < tensors.len() && tensors[i].name != name {
        lemma_tensor_named(tensors, name, i + 1);
    }
}

proof fn lemma_first_named(tensors: Seq<TensorView>, name: Seq<char>, t: int)
    requires
        0 <= t < tensors.len(),
        tensors[t].name == name,
        forall|k: int| 0 <= k < t ==> (#[trigger] tensors[k]).name != name,
    ensures
        tensor_named(tensors, name, 0) == Some(t),
{
    lemma_tensor_named(tensors, name, 0);
}

proof fn lemma_conv_using(nodes: Seq<NodeView>, weight: Seq<char>, i: int)
    requires
        0 <= i,
        conv_using(nodes, weight, i) is Some,
    ensures
        ({
            let c = conv_using(nodes, weight, i)->0;
            &&& 0 <= c < nodes.len()
            &&& nodes[c].op_type == "Conv"@
            &&& nodes[c].inputs.len() > 1
            &&& nodes[c].inputs[1] == weight
        }),
    decreases nodes.len() - i,
{
    if i < nodes.len() && !(nodes[i].op_type == "Conv"@ && nodes[i].inputs.len() > 1
        && nodes[i].inputs[1] == weight) {
        lemma_conv_using(nodes, weight, i + 1);
    }
}

/// The words that a tensor of a graph holds.
pub open spec fn words_of(g: GraphProtoView, name: Seq<char>) -> Option<Seq<u32>> {
    match tensor_named(g.initializers, name, 0) {
        Some(t) => Some(words32(g.initializers[t].data)),
        None => None,
    }
}

/// After a fold the weight holds the new weights, and the convolution that uses
/// it has a third input, which holds the new bias.
pub proof fn law_fold_is_written(g: GraphProtoView, f: FoldView)
    requires
        words_of(g, f.weight) is Some,
        conv_using(g.nodes, f.weight, 0) is Some,
        bias_name(g.nodes[conv_using(g.nodes, f.weight, 0)->0], f.weight) != f.weight,
    ensures
        ({
            let r = with_fold(g, f);
            let c = conv_using(g.nodes, f.weight, 0)->0;
            &&& words_of(r, f.weight) == Some(f.weights)
            &&& r.nodes.len() == g.nodes.len()
            &&& r.nodes[c].op_type == "Conv"@
            &&& r.nodes[c].inputs.len() >= 3
            &&& r.nodes[c].inputs[0] == g.nodes[c].inputs[0]
            &&& r.nodes[c].inputs[1] == f.weight
            &&& words_of(r, r.nodes[c].inputs[2]) == Some(f.bias)
            &&& forall|k: int| 0 <= k < g.nodes.len() && k != c ==> #[trigger] r.nodes[k] == g.nodes[k]
        }),
{
    let c = conv_using(g.nodes, f.weight, 0)->0;
    lemma_conv_using(g.nodes, f.weight, 0);
    let conv = g.nodes[c];
    let bias = bias_name(conv, f.weight);
    let first = g.initializers;
    let t = tensor_named(first, f.weight, 0)->0;
    lemma_tensor_named(first, f.weight, 0);
    let second = with_data(first, f.weight, bytes_of_words32(f.weights));
    lemma_tensor_named(second, bias, 0);
    let r = with_fold(g, f);
    law_words32_round_trip(f.weights);
    law_words32_round_trip(f.bias);
    let third = r.initializers;
    assert forall|k: int| 0 <= k < t implies (#[trigger] third[k]).name != f.weight by {
        assert(first[k].name != f.weight);
        assert(second[k].name == first[k].name);
    }
    lemma_first_named(third, f.weight, t);
    match tensor_named(second, bias, 0) {
        Some(u) => {
            assert forall|k: int| 0 <= k < u implies (#[trigger] third[k]).name != bias by {
                assert(second[k].name != bias);
            }
            lemma_first_named(third, bias, u);
        },
        None => {
            assert forall|k: int| 0 <= k < second.len() implies (#[trigger] third[k]).name != bias by {
                assert(second[k].name != bias);
            }
            lemma_first_named(third, bias, second.len() as int);
        },
    }
}

} // verus!
