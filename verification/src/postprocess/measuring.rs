//! What intersection over union measures: the area that two boxes share over the
//! area that they cover.

use vstd::prelude::*;
use vstd::arithmetic::power2::{
    lemma2_to64, lemma_pow2_adds, lemma_pow2_pos, lemma_pow2_strictly_increases, pow2,
};
use crate::ieee::accuracy::{
    distance, law_difference32_is_rounded, law_product32_is_rounded, law_quotient32_is_rounded,
    law_sum32_is_rounded, lemma_product_finite, lemma_sum_finite, size,
};
use crate::ieee::nearness::{is_near, lemma_apart_scaled, lemma_near_product, lemma_rounded_off};
use crate::ieee::{difference32, less32, nan32, product32, single, sum32, Parts, ONE};
use crate::precision::{is_finite, lemma_one, value_of};
use crate::scales::{larger, smaller};
use super::overlapping::law_overlap_between_zero_and_one;
use super::scaling::is_moderate;
use super::{area_of, covered_area, extent, overlap, shared_area, DetectionView};

verus! {

/// The length of the interval from `a` to `b`, none where `b` comes first.
pub open spec fn length_between(a: int, b: int) -> int {
    if a < b {
        b - a
    } else {
        0
    }
}

/// The larger of two numbers.
pub open spec fn most(a: int, b: int) -> int {
    if a < b {
        b
    } else {
        a
    }
}

/// The smaller of two numbers.
pub open spec fn least(a: int, b: int) -> int {
    if a < b {
        a
    } else {
        b
    }
}

/// The exact area of a box, in units of units.
pub open spec fn exact_area(d: DetectionView) -> int {
    length_between(value_of(d.x1), value_of(d.x2)) * length_between(value_of(d.y1), value_of(d.y2))
}

/// The exact area that two boxes share, in units of units.
pub open spec fn exact_shared(a: DetectionView, b: DetectionView) -> int {
    length_between(
        most(value_of(a.x1), value_of(b.x1)),
        least(value_of(a.x2), value_of(b.x2)),
    ) * length_between(
        most(value_of(a.y1), value_of(b.y1)),
        least(value_of(a.y2), value_of(b.y2)),
    )
}

/// The exact area that two boxes cover, in units of units.
pub open spec fn exact_covered(a: DetectionView, b: DetectionView) -> int {
    exact_area(a) + exact_area(b) - exact_shared(a, b)
}

/// Whether the coordinates of a box are moderate.
pub open spec fn is_moderate_box(d: DetectionView) -> bool {
    is_moderate(d.x1) && is_moderate(d.y1) && is_moderate(d.x2) && is_moderate(d.y2)
}

proof fn lemma_length(a: u32, b: u32)
    requires
        is_moderate(a),
        is_moderate(b),
    ensures
        is_finite(extent(a, b)),
        value_of(extent(a, b)) >= 0,
        is_near(value_of(extent(a, b)), length_between(value_of(a), value_of(b)), 1),
        length_between(value_of(a), value_of(b)) <= pow2(170),
        value_of(extent(a, b)) <= pow2(171),
{
    reveal(less32);
    reveal(nan32);
    lemma2_to64();
    lemma_pow2_adds(1, 169);
    lemma_pow2_adds(1, 170);
    lemma_pow2_pos(169);
    lemma_sum_finite(b, a, 170);
    law_difference32_is_rounded(b, a);
    let d = difference32(b, a);
    lemma_rounded_off(value_of(d), value_of(b) - value_of(a), 1, 24);
    assert(value_of(0) == 0);
}

/// A product of two extents.
proof fn lemma_product_area(x: u32, y: u32, e: int, f: int)
    requires
        is_finite(x),
        is_finite(y),
        0 <= value_of(x) <= pow2(171),
        0 <= value_of(y) <= pow2(171),
        e >= 0,
        f >= 0,
        is_near(value_of(x), e, 1),
        is_near(value_of(y), f, 1),
    ensures
        is_finite(product32(x, y)),
        value_of(product32(x, y)) >= 0,
        value_of(product32(x, y)) <= pow2(194),
        distance(value_of(product32(x, y)) * pow2(149), e * f) * 0x100_0000 <= 5 * (e * f) + 0x80_0000
            * pow2(149),
{
    let one = pow2(149) as int;
    let (v, w) = (value_of(x), value_of(y));
    lemma2_to64();
    lemma_pow2_pos(149);
    lemma_pow2_adds(171, 171);
    lemma_pow2_adds(149, 193);
    lemma_pow2_adds(1, 193);
    lemma_pow2_strictly_increases(24, 193);
    let vw = v * w;
    assert(0 <= vw <= pow2(342)) by (nonlinear_arith)
        requires
            vw == v * w,
            0 <= v <= pow2(171),
            0 <= w <= pow2(171),
            pow2(342) == pow2(171) * pow2(171),
    ;
    lemma_product_finite(x, y, 193);
    law_product32_is_rounded(x, y);
    let p = value_of(product32(x, y));
    lemma_rounded_off(p, vw, one, 24);
    lemma_near_product(v, e, 1, w, f, 1);
    let ef = e * f;
    assert(ef >= 0) by (nonlinear_arith)
        requires
            ef == e * f,
            e >= 0,
            f >= 0,
    ;
    let po = p * one;
    assert(distance(vw, ef) * 0x100_0000 <= 3 * ef);
    assert(vw <= 2 * ef);
    assert(distance(po, vw) * 0x100_0000 <= vw + 0x80_0000 * one);
    assert(distance(po, ef) * 0x100_0000 <= 5 * ef + 0x80_0000 * one);
    assert(p >= 0) by {
        if p < 0 {
            assert(po <= -one) by (nonlinear_arith)
                requires
                    po == p * one,
                    p <= -1,
                    one > 0,
            ;
        }
    }
    assert(p <= pow2(194)) by {
        let top = pow2(193) as int;
        let t = top * one;
        assert(vw <= t) by (nonlinear_arith)
            requires
                vw <= pow2(342),
                pow2(342) == one * pow2(193),
                t == top * one,
                top == pow2(193),
        ;
        assert(po <= 2 * t + one);
        assert(p <= 2 * top + 1) by (nonlinear_arith)
            requires
                p * one <= 2 * (top * one) + one,
                one > 0,
        ;
        if p == 2 * top + 1 {
            assert(po == 2 * t + one) by (nonlinear_arith)
                requires
                    po == p * one,
                    p == 2 * top + 1,
                    t == top * one,
            ;
            assert(t >= one) by (nonlinear_arith)
                requires
                    t == top * one,
                    top >= 1,
                    one > 0,
            ;
            assert(false);
        }
    }
}

/// The areas in units, `a`, `b` and `s` (shared), the sum `t` and the covered
/// area `c`, against the exact ones.
proof fn lemma_covered_total(
    a: int,
    b: int,
    s: int,
    t: int,
    c: int,
    ea: int,
    eb: int,
    es: int,
    one: int,
)
    requires
        one > 0,
        0 <= es,
        es <= ea,
        es <= eb,
        ea >= 0x100_0000_0000 * one,
        eb >= 0x100_0000_0000 * one,
        distance(a * one, ea) * 0x100_0000 <= 5 * ea + 0x80_0000 * one,
        distance(b * one, eb) * 0x100_0000 <= 5 * eb + 0x80_0000 * one,
        distance(s * one, es) * 0x100_0000 <= 5 * es + 0x80_0000 * one,
        distance(t, a + b) * 0x100_0000 <= size(a + b),
        distance(c, t - s) * 0x100_0000 <= size(t - s),
    ensures
        distance(c * one, ea + eb - es) * 0x100_0000 <= 28 * (ea + eb - es),
{
    let (ao, bo, so, to, co) = (a * one, b * one, s * one, t * one, c * one);
    lemma_apart_scaled(t, a + b, one);
    lemma_apart_scaled(a + b, 0, one);
    lemma_apart_scaled(c, t - s, one);
    lemma_apart_scaled(t - s, 0, one);
    assert((a + b) * one == ao + bo) by (nonlinear_arith)
        requires
            ao == a * one,
            bo == b * one,
    ;
    assert((t - s) * one == to - so) by (nonlinear_arith)
        requires
            to == t * one,
            so == s * one,
    ;
    lemma_scale_part(distance(t, a + b), size(a + b), one);
    lemma_scale_part(distance(c, t - s), size(t - s), one);
    assert(distance(to, ao + bo) * 0x100_0000 <= size(ao + bo));
    assert(distance(co, to - so) * 0x100_0000 <= size(to - so));
}

proof fn lemma_scale_part(e: int, a: int, one: int)
    requires
        one > 0,
        e * 0x100_0000 <= a,
    ensures
        (e * one) * 0x100_0000 <= a * one,
{
    assert((e * one) * 0x100_0000 <= a * one) by (nonlinear_arith)
        requires
            one > 0,
            e * 0x100_0000 <= a,
    ;
}

/// The ratio `v` of the shared area `s` and the covered one `c`.
proof fn lemma_ratio_total(v: int, s: int, c: int, es: int, ec: int, one: int)
    requires
        one >= 0x1_0000_0000,
        0 <= v <= one,
        0 <= es <= ec,
        ec >= 0x100_0000_0000 * one,
        s >= 0,
        c >= 0,
        distance(s * one, es) * 0x100_0000 <= 5 * es + 0x80_0000 * one,
        distance(c * one, ec) * 0x100_0000 <= 28 * ec,
        distance(v * c, s * one) * 0x100_0000 <= size(s * one) + 0x80_0000 * size(c),
    ensures
        distance(v * ec, es * one) * 0x100_0000 <= 40 * (ec * one),
{
    let (so, co) = (s * one, c * one);
    let vc = v * c;
    let eco = ec * one;
    let eso = es * one;
    // v c one against v ec
    lemma_apart_scaled(co, ec, v);
    assert(co * v == vc * one && ec * v == v * ec) by (nonlinear_arith)
        requires
            co == c * one,
            vc == v * c,
    ;
    let d1 = distance(vc * one, v * ec);
    assert(d1 * 0x100_0000 <= 28 * eco) by (nonlinear_arith)
        requires
            d1 == distance(co, ec) * size(v),
            distance(co, ec) * 0x100_0000 <= 28 * ec,
            size(v) == v,
            0 <= v <= one,
            eco == ec * one,
            ec >= 0,
            distance(co, ec) >= 0,
    ;
    // v c against s one, times one
    lemma_apart_scaled(vc, so, one);
    let w = distance(vc, so);
    let d2 = distance(vc * one, so * one);
    assert(so <= 2 * ec);
    assert(co <= 2 * ec);
    assert(so * one <= 2 * eco) by (nonlinear_arith)
        requires
            so <= 2 * ec,
            eco == ec * one,
            one > 0,
    ;
    assert(so >= 0) by (nonlinear_arith)
        requires
            so == s * one,
            s >= 0,
            one > 0,
    ;
    assert(d2 * 0x100_0000 <= so * one + 0x80_0000 * co) by (nonlinear_arith)
        requires
            d2 == w * one,
            w * 0x100_0000 <= so + 0x80_0000 * c,
            co == c * one,
            one > 0,
    ;
    assert(0x80_0000 * co <= eco) by (nonlinear_arith)
        requires
            co <= 2 * ec,
            eco == ec * one,
            one >= 0x1_0000_0000,
            ec >= 0,
    ;
    // s one against es, times one
    lemma_apart_scaled(so, es, one);
    let d3 = distance(so * one, eso);
    assert(d3 * 0x100_0000 <= 5 * eso + 0x80_0000 * (one * one)) by (nonlinear_arith)
        requires
            d3 == distance(so, es) * one,
            distance(so, es) * 0x100_0000 <= 5 * es + 0x80_0000 * one,
            eso == es * one,
            one > 0,
    ;
    assert(eso <= eco) by (nonlinear_arith)
        requires
            eso == es * one,
            eco == ec * one,
            es <= ec,
            one > 0,
    ;
    assert(0x80_0000 * (one * one) <= eco) by (nonlinear_arith)
        requires
            eco == ec * one,
            ec >= 0x100_0000_0000 * one,
            one > 0,
    ;
}

/// The shared part of two intervals is no longer than either.
proof fn lemma_shared_part(a: DetectionView, b: DetectionView)
    ensures
        0 <= exact_shared(a, b) <= exact_area(a),
        exact_shared(a, b) <= exact_area(b),
{
    let x = length_between(
        most(value_of(a.x1), value_of(b.x1)),
        least(value_of(a.x2), value_of(b.x2)),
    );
    let y = length_between(
        most(value_of(a.y1), value_of(b.y1)),
        least(value_of(a.y2), value_of(b.y2)),
    );
    let (p, q) = (
        length_between(value_of(a.x1), value_of(a.x2)),
        length_between(value_of(a.y1), value_of(a.y2)),
    );
    let (r, s) = (
        length_between(value_of(b.x1), value_of(b.x2)),
        length_between(value_of(b.y1), value_of(b.y2)),
    );
    assert(0 <= x * y <= p * q) by (nonlinear_arith)
        requires
            0 <= x <= p,
            0 <= y <= q,
    ;
    assert(x * y <= r * s) by (nonlinear_arith)
        requires
            0 <= x <= r,
            0 <= y <= s,
    ;
}

/// Intersection over union times the area that two boxes cover is the area that
/// they share, but for rounding.
pub proof fn law_overlap_is_shared_over_covered(a: DetectionView, b: DetectionView)
    requires
        is_moderate_box(a),
        is_moderate_box(b),
        exact_area(a) >= 0x100_0000_0000 * pow2(149),
        exact_area(b) >= 0x100_0000_0000 * pow2(149),
    ensures
        distance(
            value_of(overlap(a, b)) * exact_covered(a, b),
            exact_shared(a, b) * pow2(149),
        ) * 0x100_0000 <= 40 * (exact_covered(a, b) * pow2(149)),
{
    let one = pow2(149) as int;
    let u = lemma_one();
    lemma2_to64();
    lemma_pow2_pos(149);
    lemma_pow2_strictly_increases(32, 149);
    reveal(less32);
    reveal(nan32);
    assert(value_of(0) == 0);
    assert(single(ONE) == Parts { negative: false, magnitude: 0x3f80_0000 });
    lemma_length(a.x1, a.x2);
    lemma_length(a.y1, a.y2);
    lemma_length(b.x1, b.x2);
    lemma_length(b.y1, b.y2);
    lemma_length(larger(a.x1, b.x1), smaller(a.x2, b.x2));
    lemma_length(larger(a.y1, b.y1), smaller(a.y2, b.y2));
    let (aw, ah) = (
        length_between(value_of(a.x1), value_of(a.x2)),
        length_between(value_of(a.y1), value_of(a.y2)),
    );
    let (bw, bh) = (
        length_between(value_of(b.x1), value_of(b.x2)),
        length_between(value_of(b.y1), value_of(b.y2)),
    );
    let (sw, sh) = (
        length_between(
            most(value_of(a.x1), value_of(b.x1)),
            least(value_of(a.x2), value_of(b.x2)),
        ),
        length_between(
            most(value_of(a.y1), value_of(b.y1)),
            least(value_of(a.y2), value_of(b.y2)),
        ),
    );
    lemma_product_area(extent(a.x1, a.x2), extent(a.y1, a.y2), aw, ah);
    lemma_product_area(extent(b.x1, b.x2), extent(b.y1, b.y2), bw, bh);
    lemma_product_area(
        extent(larger(a.x1, b.x1), smaller(a.x2, b.x2)),
        extent(larger(a.y1, b.y1), smaller(a.y2, b.y2)),
        sw,
        sh,
    );
    let (pa, pb, ps) = (area_of(a), area_of(b), shared_area(a, b));
    lemma_pow2_adds(1, 194);
    lemma_pow2_adds(1, 195);
    lemma_pow2_adds(1, 196);
    lemma_sum_finite(pa, pb, 195);
    law_sum32_is_rounded(pa, pb);
    let total = sum32(pa, pb);
    let (va, vb, vs) = (value_of(pa), value_of(pb), value_of(ps));
    lemma_rounded_off(value_of(total), va + vb, 1, 24);
    lemma_sum_finite(total, ps, 197);
    law_difference32_is_rounded(total, ps);
    let c = value_of(covered_area(a, b));
    lemma_rounded_off(c, value_of(total) - vs, 1, 24);
    lemma_shared_part(a, b);
    let (ea, eb, es) = (exact_area(a), exact_area(b), exact_shared(a, b));
    lemma_covered_total(va, vb, vs, value_of(total), c, ea, eb, es, one);
    let ec = exact_covered(a, b);
    let co = c * one;
    assert(co > 0);
    assert(c > 0) by (nonlinear_arith)
        requires
            co == c * one,
            co > 0,
            one > 0,
    ;
    law_overlap_between_zero_and_one(a, b);
    law_quotient32_is_rounded(ps, covered_area(a, b));
    let v = value_of(overlap(a, b));
    lemma_rounded_off(v, vs * one, c, 24);
    lemma_ratio_total(v, vs, c, es, ec, one);
}

} // verus!
