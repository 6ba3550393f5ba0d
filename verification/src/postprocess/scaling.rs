//! Where decoded boxes lie, and what they are boxes of.

use vstd::prelude::*;
use vstd::arithmetic::div_mod::lemma_fundamental_div_mod_converse;
use vstd::arithmetic::power2::{
    lemma2_to64, lemma2_to64_rest, lemma_pow2_adds, lemma_pow2_pos, pow2,
};
use crate::ieee::accuracy::{
    distance, is_rounded, law_difference32_is_rounded, law_product32_is_rounded,
    law_quotient32_is_rounded, law_sum32_is_rounded, law_whole_is_rounded,
    lemma_product_finite, lemma_quotient_finite, lemma_sum_finite, lemma_whole_finite, size,
};
use crate::ieee::{
    difference32, less32, nan32, product32, quotient32, single_of, sum32, units, Format,
};
use crate::precision::{is_finite, value_of};
use super::{
    decoded, decoded_anchor, detections_in, pixel, DetectionView, Output, MODEL_SIZE, TWO,
};

verus! {

/// Whether a single is a number no further than `2^20` from zero.
pub open spec fn is_moderate(x: u32) -> bool {
    is_finite(x) && size(value_of(x)) <= pow2(169)
}

/// The nearest number to `z` from 0 to `top`.
pub open spec fn kept_within(z: int, top: int) -> int {
    if z < 0 {
        0
    } else if z > top {
        top
    } else {
        z
    }
}

/// Whether `v` is the edge of a box on a side of the image: the center less (or
/// plus) half the extent, which are pixels of 640, on a side of `side` pixels,
/// kept within the image. With `center` and `extent` in units, the exact edge is
/// `(2 * center +- extent) * side / 1280`; it is off by a few roundings.
pub open spec fn is_edge(v: u32, center: int, extent: int, side: u32) -> bool {
    exists|z: int| #[trigger]
        is_edge_at(v, z, side) && distance(1280 * z, (2 * center + extent) * side) * 0x100_0000
            <= side * (15 * (2 * size(center) + size(extent)) + 0x400_0000) + 1280 * 0x80_0000
}

/// Whether `v` is the number of units `z`, kept within a side of the image.
pub open spec fn is_edge_at(v: u32, z: int, side: u32) -> bool {
    is_finite(v) && value_of(v) == kept_within(z, value_of(single_of(side as nat)))
}

/// Whether the class and the confidence of a detection are the best of an
/// anchor: no class scores higher, and the class is the first that scores as
/// high; where no class has a positive score, class 0 without any confidence.
pub open spec fn is_best(d: DetectionView, o: Output, anchor: int) -> bool {
    &&& forall|c: int|
        0 <= c < o.classes ==> !less32(d.confidence, #[trigger] o.at(4 + c, anchor))
    &&& if exists|c: int| 0 <= c < o.classes && less32(0, #[trigger] o.at(4 + c, anchor)) {
        &&& d.class_id < o.classes
        &&& d.confidence == o.at(4 + d.class_id, anchor)
        &&& forall|c: int|
            0 <= c < d.class_id && !nan32(o.at(4 + c, anchor)) ==> less32(
                #[trigger] o.at(4 + c, anchor),
                d.confidence,
            )
    } else {
        d.class_id == 0 && d.confidence == 0
    }
}

/// Whether a detection is what an anchor says, on an image of the given size:
/// channels 0 and 1 are the center, 2 and 3 the width and the height of the box.
pub open spec fn is_of_anchor(d: DetectionView, o: Output, anchor: int, width: u32, height: u32) -> bool {
    let (cx, cy) = (value_of(o.at(0, anchor)), value_of(o.at(1, anchor)));
    let (w, h) = (value_of(o.at(2, anchor)), value_of(o.at(3, anchor)));
    &&& is_edge(d.x1, cx, -w, width)
    &&& is_edge(d.x2, cx, w, width)
    &&& is_edge(d.y1, cy, -h, height)
    &&& is_edge(d.y2, cy, h, height)
    &&& is_best(d, o, anchor)
}

/// Whether the box of an anchor is of moderate numbers.
pub open spec fn has_moderate_box(o: Output, anchor: int) -> bool {
    forall|c: int| 0 <= c < 4 ==> is_moderate(#[trigger] o.at(c, anchor))
}

proof fn lemma_constants()
    ensures
        is_finite(MODEL_SIZE),
        value_of(MODEL_SIZE) == 640 * pow2(149),
        is_finite(TWO),
        value_of(TWO) == 2 * pow2(149),
        pow2(149) >= 0x1_0000_0000_0000_0000,
{
    lemma2_to64();
    lemma2_to64_rest();
    lemma_pow2_adds(14, 135);
    lemma_pow2_adds(23, 127);
    lemma_pow2_adds(1, 149);
    lemma_pow2_adds(64, 85);
    lemma_pow2_pos(85);
    lemma_fundamental_div_mod_converse(0x4420_0000, 0x80_0000, 136, 0x20_0000);
    lemma_fundamental_div_mod_converse(0x4000_0000, 0x80_0000, 128, 0);
    assert(units(Format::Single, 0x4420_0000) == 0xa0_0000 * pow2(135));
    assert(units(Format::Single, 0x4000_0000) == 0x80_0000 * pow2(127));
    assert(pow2(64) * pow2(85) >= pow2(64)) by (nonlinear_arith)
        requires
            pow2(85) >= 1,
            pow2(64) >= 0,
    ;
}

proof fn lemma_apart_times(a: int, b: int, c: int)
    ensures
        distance(a * c, b * c) == distance(a, b) * size(c),
        size(a * c) == size(a) * size(c),
{
    assert(distance(a * c, b * c) == distance(a, b) * size(c)) by (nonlinear_arith);
    assert(size(a * c) == size(a) * size(c)) by (nonlinear_arith);
}

/// Twice the half of an extent, `q`, is the extent `h`.
proof fn lemma_half(h: int, q: int, one: int)
    requires
        one > 0,
        is_rounded(q, h * one, 2 * one, 24),
    ensures
        distance(2 * q, h) * 0x100_0000 <= size(h) + 0x100_0000,
{
    lemma2_to64();
    assert(q * (2 * one) == (2 * q) * one) by (nonlinear_arith);
    lemma_apart_times(2 * q, h, one);
    lemma_apart_times(h, 0, one);
    let e = distance(2 * q, h);
    if 2 * (e * one) <= 2 * one {
        assert(e <= 1) by (nonlinear_arith)
            requires
                2 * (e * one) <= 2 * one,
                one > 0,
        ;
    } else {
        assert(e * 0x100_0000 <= size(h)) by (nonlinear_arith)
            requires
                (e * one) * 0x100_0000 <= size(h) * one,
                one > 0,
        ;
    }
}

/// The side of an image over 640, `s`, where `side` is the side in single precision.
proof fn lemma_side(n: int, side: int, s: int, one: int)
    requires
        one >= 0x1_0000_0000_0000_0000,
        n >= 0,
        is_rounded(side, n * one, 1, 24),
        is_rounded(s, side * one, 640 * one, 24),
    ensures
        distance(640 * s, n * one) * 0x100_0000 <= 3 * (n * one),
        distance(side, n * one) * 0x100_0000 <= n * one,
{
    lemma2_to64();
    let x = n * one;
    assert(x >= 0) by (nonlinear_arith)
        requires
            x == n * one,
            n >= 0,
            one > 0,
    ;
    assert(s * (640 * one) == (640 * s) * one) by (nonlinear_arith);
    lemma_apart_times(640 * s, side, one);
    lemma_apart_times(side, 0, one);
    let e = distance(640 * s, side);
    if n == 0 {
        assert(x == 0);
        assert(side == 0);
        if 2 * (e * one) <= 640 * one {
            assert(e <= 320) by (nonlinear_arith)
                requires
                    2 * (e * one) <= 640 * one,
                    one > 0,
            ;
        } else {
            assert(e * one == 0);
            assert(e == 0) by (nonlinear_arith)
                requires
                    e * one == 0,
                    one > 0,
            ;
        }
    } else {
        assert(x >= one) by (nonlinear_arith)
            requires
                x == n * one,
                n >= 1,
                one > 0,
        ;
        if 2 * (e * one) <= 640 * one {
            assert(e <= 320) by (nonlinear_arith)
                requires
                    2 * (e * one) <= 640 * one,
                    one > 0,
            ;
        } else {
            assert(e * 0x100_0000 <= size(side)) by (nonlinear_arith)
                requires
                    (e * one) * 0x100_0000 <= size(side) * one,
                    one > 0,
            ;
        }
    }
}

/// The scaled edge: `d` is half of `t`, `s` the side over 640, and `y` their product.
proof fn lemma_scaled_edge(t: int, m: int, d: int, n: int, s: int, y: int, one: int)
    requires
        one > 0,
        n >= 0,
        size(t) <= m,
        distance(2 * d, t) * 0x100_0000 <= 3 * m + 0x200_0000,
        distance(640 * s, n * one) * 0x100_0000 <= 3 * (n * one),
        is_rounded(y, d * s, one, 24),
    ensures
        distance(1280 * y, t * n) * 0x100_0000 <= n * (15 * m + 0x400_0000) + 1280 * 0x80_0000,
{
    lemma2_to64();
    let x = n * one;
    assert(x >= 0) by (nonlinear_arith)
        requires
            x == n * one,
            n >= 0,
            one > 0,
    ;
    let a = (2 * d) * (640 * s);
    let b = (2 * d) * x;
    let c = t * x;
    let w = size(2 * d);
    assert(w <= 2 * m + 3);
    lemma_apart_times(640 * s, x, 2 * d);
    assert((640 * s) * (2 * d) == a && x * (2 * d) == b) by (nonlinear_arith)
        requires
            a == (2 * d) * (640 * s),
            b == (2 * d) * x,
    ;
    let ab = distance(a, b);
    assert(ab * 0x100_0000 <= 3 * (w * x)) by (nonlinear_arith)
        requires
            ab == distance(640 * s, x) * w,
            distance(640 * s, x) * 0x100_0000 <= 3 * x,
            w >= 0,
    ;
    lemma_apart_times(2 * d, t, x);
    let bc = distance(b, c);
    assert(bc * 0x100_0000 <= (3 * m + 0x200_0000) * x) by (nonlinear_arith)
        requires
            bc == distance(2 * d, t) * x,
            distance(2 * d, t) * 0x100_0000 <= 3 * m + 0x200_0000,
            x >= 0,
    ;
    assert(size(b) == w * x) by {
        lemma_apart_times(2 * d, 0, x);
    }
    assert(w * x >= 0) by (nonlinear_arith)
        requires
            w >= 0,
            x >= 0,
    ;
    assert(a == 1280 * (d * s)) by (nonlinear_arith)
        requires
            a == (2 * d) * (640 * s),
    ;
    let ya = distance(1280 * (y * one), a);
    let near = distance(y * one, d * s);
    assert(ya == 1280 * near);
    assert(2 * near <= one || near * 0x100_0000 <= size(d * s));
    assert(size(a) == 1280 * size(d * s));
    assert(ya * 0x100_0000 <= size(a) + 1280 * 0x80_0000 * one) by (nonlinear_arith)
        requires
            ya == 1280 * near,
            2 * near <= one || near * 0x100_0000 <= size(d * s),
            size(a) == 1280 * size(d * s),
            size(d * s) >= 0,
            one > 0,
    ;
    assert(size(a) <= w * x + ab);
    let yc = distance(1280 * (y * one), c);
    assert(yc * 0x100_0000 <= 5 * (w * x) + (3 * m + 0x200_0000) * x + 1280 * 0x80_0000 * one);
    assert(5 * (w * x) + (3 * m + 0x200_0000) * x <= (15 * m + 0x400_0000) * x) by (nonlinear_arith)
        requires
            w <= 2 * m + 3,
            x >= 0,
            m >= 0,
    ;
    assert((15 * m + 0x400_0000) * x == (n * (15 * m + 0x400_0000)) * one) by (nonlinear_arith)
        requires
            x == n * one,
    ;
    assert(c == (t * n) * one) by (nonlinear_arith)
        requires
            c == t * x,
            x == n * one,
    ;
    assert(1280 * (y * one) == (1280 * y) * one) by (nonlinear_arith);
    lemma_apart_times(1280 * y, t * n, one);
    let g = distance(1280 * y, t * n);
    let top = n * (15 * m + 0x400_0000) + 1280 * 0x80_0000;
    assert(g * 0x100_0000 <= top) by (nonlinear_arith)
        requires
            (g * one) * 0x100_0000 <= (n * (15 * m + 0x400_0000)) * one + 1280 * 0x80_0000 * one,
            top == n * (15 * m + 0x400_0000) + 1280 * 0x80_0000,
            one > 0,
    ;
}

/// A coordinate is kept within the image.
proof fn lemma_kept_within(d: u32, side: u32)
    requires
        is_finite(product32(d, quotient32(single_of(side as nat), MODEL_SIZE))),
    ensures
        is_edge_at(
            pixel(d, side),
            value_of(product32(d, quotient32(single_of(side as nat), MODEL_SIZE))),
            side,
        ),
{
    reveal(less32);
    reveal(nan32);
    lemma2_to64();
    lemma_whole_finite(side as nat);
    law_whole_is_rounded(side as nat);
    assert(value_of(0) == 0);
}

/// An edge of a box on a side of the image.
proof fn lemma_edge(center: u32, extent: u32, plus: bool, side: u32)
    requires
        is_moderate(center),
        is_moderate(extent),
    ensures
        ({
            let half = quotient32(extent, TWO);
            let d = if plus {
                sum32(center, half)
            } else {
                difference32(center, half)
            };
            is_edge(
                pixel(d, side),
                value_of(center),
                if plus {
                    value_of(extent)
                } else {
                    -value_of(extent)
                },
                side,
            )
        }),
{
    let half = quotient32(extent, TWO);
    let one = pow2(149) as int;
    let (c, h) = (value_of(center), value_of(extent));
    lemma_constants();
    lemma2_to64();
    lemma_pow2_adds(1, 169);
    lemma_pow2_adds(2, 169);
    lemma_pow2_adds(20, 149);
    assert(size(h) * one <= (2 * one) * pow2(169)) by (nonlinear_arith)
        requires
            size(h) <= pow2(169),
            one > 0,
    ;
    lemma_quotient_finite(extent, TWO, 169);
    law_quotient32_is_rounded(extent, TWO);
    let q = value_of(half);
    lemma_half(h, q, one);
    assert(pow2(169) >= 0x100_0000);
    lemma_sum_finite(center, half, 171);
    let d = if plus {
        sum32(center, half)
    } else {
        difference32(center, half)
    };
    law_sum32_is_rounded(center, half);
    law_difference32_is_rounded(center, half);
    let e = if plus {
        h
    } else {
        -h
    };
    let t = 2 * c + e;
    let m = 2 * size(c) + size(h);
    let v = value_of(d);
    assert(distance(2 * v, t) * 0x100_0000 <= 3 * m + 0x200_0000);
    let n = side as int;
    let whole = single_of(side as nat);
    lemma_whole_finite(side as nat);
    law_whole_is_rounded(side as nat);
    let w = value_of(whole);
    lemma_pow2_adds(32, 149);
    lemma_pow2_adds(1, 181);
    assert(n * one <= pow2(181)) by (nonlinear_arith)
        requires
            n <= pow2(32),
            pow2(181) == pow2(32) * one,
            one > 0,
    ;
    assert(n * one >= 0) by (nonlinear_arith)
        requires
            n >= 0,
            one > 0,
    ;
    assert(size(w) <= pow2(182));
    assert(size(w) * one <= (640 * one) * pow2(182)) by (nonlinear_arith)
        requires
            size(w) <= pow2(182),
            one > 0,
    ;
    let factor = quotient32(whole, MODEL_SIZE);
    lemma_quotient_finite(whole, MODEL_SIZE, 182);
    law_quotient32_is_rounded(whole, MODEL_SIZE);
    let s = value_of(factor);
    lemma_side(n, w, s, one);
    assert(size(s) <= pow2(182));
    assert(size(v) <= pow2(171));
    lemma_pow2_adds(171, 182);
    lemma_pow2_adds(149, 204);
    assert(size(v * s) <= pow2(171) * pow2(182)) by (nonlinear_arith)
        requires
            size(v) <= pow2(171),
            size(s) <= pow2(182),
    ;
    lemma_product_finite(d, factor, 204);
    law_product32_is_rounded(d, factor);
    let z = value_of(product32(d, factor));
    lemma_scaled_edge(t, m, v, n, s, z, one);
    lemma_kept_within(d, side);
    assert(is_edge_at(pixel(d, side), z, side));
}

proof fn lemma_best(o: Output, anchor: int, n: nat)
    requires
        n <= o.classes,
    ensures
        ({
            let (k, best) = o.best(anchor, n);
            &&& !nan32(best)
            &&& !less32(best, 0)
            &&& forall|c: int| 0 <= c < n ==> !less32(best, #[trigger] o.at(4 + c, anchor))
            &&& if exists|c: int| 0 <= c < n && less32(0, #[trigger] o.at(4 + c, anchor)) {
                &&& k < n
                &&& best == o.at((4 + k) as int, anchor)
                &&& less32(0, best)
                &&& forall|c: int|
                    0 <= c < k && !nan32(o.at(4 + c, anchor)) ==> less32(
                        #[trigger] o.at(4 + c, anchor),
                        best,
                    )
            } else {
                k == 0 && best == 0
            }
        }),
    decreases n,
{
    reveal(less32);
    reveal(nan32);
    lemma2_to64();
    assert(value_of(0) == 0);
    if n > 0 {
        lemma_best(o, anchor, (n - 1) as nat);
        let score = o.at(4 + n - 1, anchor);
        assert(o.at(4 + (n - 1), anchor) == score);
        let (k, best) = o.best(anchor, n);
        if less32(o.best(anchor, (n - 1) as nat).1, score) {
            assert(less32(0, o.at(4 + (n - 1), anchor)));
        } else if exists|c: int| 0 <= c < n && less32(0, #[trigger] o.at(4 + c, anchor)) {
            let c = choose|c: int| 0 <= c < n && less32(0, #[trigger] o.at(4 + c, anchor));
            if c == n - 1 {
                assert(less32(0, score));
                assert(o.best(anchor, (n - 1) as nat).1 != 0);
            }
        }
    }
}

/// What an anchor decodes to is what it says.
proof fn lemma_is_of_anchor(o: Output, anchor: int, width: u32, height: u32)
    requires
        has_moderate_box(o, anchor),
        o.classes <= 0x1_0000_0000,
    ensures
        is_of_anchor(decoded_anchor(o, anchor, width, height), o, anchor, width, height),
{
    assert(is_moderate(o.at(0, anchor)) && is_moderate(o.at(1, anchor)));
    assert(is_moderate(o.at(2, anchor)) && is_moderate(o.at(3, anchor)));
    lemma_edge(o.at(0, anchor), o.at(2, anchor), false, width);
    lemma_edge(o.at(0, anchor), o.at(2, anchor), true, width);
    lemma_edge(o.at(1, anchor), o.at(3, anchor), false, height);
    lemma_edge(o.at(1, anchor), o.at(3, anchor), true, height);
    lemma_best(o, anchor, o.classes);
}

/// Every detection is that of an anchor.
proof fn lemma_source(o: Output, width: u32, height: u32, threshold: u32, n: nat, i: int) -> (a: int)
    requires
        0 <= i < decoded(o, width, height, threshold, n).len(),
    ensures
        0 <= a < n,
        decoded(o, width, height, threshold, n)[i] == decoded_anchor(o, a, width, height),
    decreases n,
{
    let before = decoded(o, width, height, threshold, (n - 1) as nat);
    if i < before.len() {
        lemma_source(o, width, height, threshold, (n - 1) as nat, i)
    } else {
        n - 1
    }
}

/// Every confident anchor has its detection.
proof fn lemma_target(o: Output, width: u32, height: u32, threshold: u32, n: nat, a: int) -> (i: int)
    requires
        0 <= a < n,
        !less32(decoded_anchor(o, a, width, height).confidence, threshold),
    ensures
        0 <= i < decoded(o, width, height, threshold, n).len(),
        decoded(o, width, height, threshold, n)[i] == decoded_anchor(o, a, width, height),
    decreases n,
{
    let before = decoded(o, width, height, threshold, (n - 1) as nat);
    if a < n - 1 {
        lemma_target(o, width, height, threshold, (n - 1) as nat, a)
    } else {
        before.len() as int
    }
}

/// Every detection is what one of the anchors says: its box on the image, with
/// both sides scaled from the model's input to the side of the image that they
/// lie along, and its best class.
pub proof fn law_detections_are_of_anchors(
    o: Output,
    width: u32,
    height: u32,
    threshold: u32,
    i: int,
)
    requires
        0 <= i < detections_in(o, width, height, threshold).len(),
        o.classes <= 0x1_0000_0000,
        forall|a: int| 0 <= a < o.anchors ==> #[trigger] has_moderate_box(o, a),
    ensures
        exists|a: int|
            0 <= a < o.anchors && #[trigger] is_of_anchor(
                detections_in(o, width, height, threshold)[i],
                o,
                a,
                width,
                height,
            ),
{
    let a = lemma_source(o, width, height, threshold, o.anchors, i);
    assert(has_moderate_box(o, a));
    lemma_is_of_anchor(o, a, width, height);
}

/// An anchor with a class that scores above zero and not below the threshold has
/// a detection.
pub proof fn law_confident_anchors_are_detected(
    o: Output,
    width: u32,
    height: u32,
    threshold: u32,
    a: int,
    c: int,
)
    requires
        o.complete(),
        o.classes <= 0x1_0000_0000,
        0 <= a < o.anchors,
        0 <= c < o.classes,
        has_moderate_box(o, a),
        less32(0, o.at(4 + c, a)),
        !less32(o.at(4 + c, a), threshold),
    ensures
        exists|i: int|
            0 <= i < detections_in(o, width, height, threshold).len() && is_of_anchor(
                #[trigger] detections_in(o, width, height, threshold)[i],
                o,
                a,
                width,
                height,
            ),
{
    lemma_best(o, a, o.classes);
    lemma_is_of_anchor(o, a, width, height);
    let best = o.best(a, o.classes).1;
    assert(!less32(best, o.at(4 + c, a)));
    reveal(less32);
    let i = lemma_target(o, width, height, threshold, o.anchors, a);
    assert(is_of_anchor(detections_in(o, width, height, threshold)[i], o, a, width, height));
}

/// Every box lies in the image, whatever the numbers are.
pub proof fn law_boxes_lie_in_the_image(
    o: Output,
    width: u32,
    height: u32,
    threshold: u32,
    i: int,
)
    requires
        0 <= i < detections_in(o, width, height, threshold).len(),
    ensures
        ({
            let d = detections_in(o, width, height, threshold)[i];
            let (right, bottom) = (
                value_of(single_of(width as nat)),
                value_of(single_of(height as nat)),
            );
            &&& 0 <= value_of(d.x1) <= right
            &&& 0 <= value_of(d.x2) <= right
            &&& 0 <= value_of(d.y1) <= bottom
            &&& 0 <= value_of(d.y2) <= bottom
        }),
{
    reveal(less32);
    reveal(nan32);
    lemma2_to64();
    assert(value_of(0) == 0);
    let a = lemma_source(o, width, height, threshold, o.anchors, i);
    lemma_whole_finite(width as nat);
    law_whole_is_rounded(width as nat);
    lemma_whole_finite(height as nat);
    law_whole_is_rounded(height as nat);
}

} // verus!
