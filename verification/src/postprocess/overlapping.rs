//! What intersection over union promises, for boxes with finite coordinates and
//! areas whose sum is finite.

use vstd::prelude::*;
use vstd::arithmetic::power2::pow2;
use crate::ieee::{
    capped, difference32, law_rounding_keeps_order, lemma_doubled, lemma_nearest_of_units,
    lemma_nearest_scaled, lemma_nearest_zero, lemma_units_ordered, less32, nan32, nearest, negated,
    over, product, product32, quotient, quotient32, single, sum, sum32, times, units, value, Format,
    Parts, ONE,
};
use crate::postprocess::{
    area_of, covered_area, extent, overlap, shared_area, DetectionView,
};
use crate::precision::{is_finite, lemma_bits_stand, lemma_one, value_of};
use crate::scales::{larger, smaller};

verus! {

/// Whether the coordinates of a box are finite.
pub open spec fn is_finite_box(d: DetectionView) -> bool {
    is_finite(d.x1) && is_finite(d.y1) && is_finite(d.x2) && is_finite(d.y2)
}

/// Whether two boxes have finite coordinates, and areas whose sum is finite.
pub open spec fn are_measurable(a: DetectionView, b: DetectionView) -> bool {
    is_finite_box(a) && is_finite_box(b) && is_finite(sum32(area_of(a), area_of(b)))
}

/// The encoding of the number nearest to a distance, none where there is none.
spec fn reach(n: int) -> nat {
    if n > 0 {
        capped(Format::Single, nearest(n as nat, 1, 24))
    } else {
        0
    }
}

/// The encoding of the size of a number.
spec fn size(x: u32) -> nat {
    single(x).magnitude
}

/// Not below zero, and a number.
spec fn is_positive(x: u32) -> bool {
    size(x) <= Format::Single.infinity() && (size(x) > 0 ==> !single(x).negative)
}

proof fn lemma_some_units(mag: nat)
    ensures
        units(Format::Single, 0) == 0,
        mag > 0 ==> units(Format::Single, mag) > 0,
{
    vstd::arithmetic::power2::lemma2_to64();
    lemma_units_ordered(Format::Single, 0, mag);
}

/// Something is not rounded to nothing.
proof fn lemma_reach(n: int)
    ensures
        n > 0 ==> reach(n) > 0,
        reach(n) <= Format::Single.infinity(),
{
    if n > 0 {
        lemma_nearest_of_units(Format::Single, 1);
        vstd::arithmetic::power2::lemma2_to64();
        assert(units(Format::Single, 1) == 1);
        law_rounding_keeps_order(Format::Single, 1, n as nat, 1);
    }
}

proof fn lemma_reach_ordered(n: int, m: int)
    requires
        n <= m,
    ensures
        reach(n) <= reach(m),
{
    if n > 0 {
        law_rounding_keeps_order(Format::Single, n as nat, m as nat, 1);
    }
}

/// The size of an extent is that of the distance.
proof fn lemma_extent(a: u32, b: u32)
    requires
        is_finite(a),
        is_finite(b),
    ensures
        size(extent(a, b)) == reach(value_of(b) - value_of(a)),
        is_positive(extent(a, b)),
{
    reveal(difference32);
    reveal(less32);
    reveal(nan32);
    let n = value_of(b) - value_of(a);
    let d = sum(Format::Single, single(b), negated(single(a)));
    assert(value(Format::Single, negated(single(a))) == -value_of(a));
    lemma_reach(n);
    lemma_reach(-n);
    assert(d.magnitude == if n >= 0 { reach(n) } else { reach(-n) });
    lemma_bits_stand(d);
    lemma_some_units(d.magnitude);
    assert(single(0) == Parts { negative: false, magnitude: 0 });
    assert(value_of(0) == 0);
}

/// The larger of two numbers has the larger value, the smaller one the smaller.
proof fn lemma_extremes(a: u32, b: u32)
    requires
        is_finite(a),
        is_finite(b),
    ensures
        is_finite(larger(a, b)),
        is_finite(smaller(a, b)),
        value_of(larger(a, b)) == if value_of(a) < value_of(b) { value_of(b) } else { value_of(a) },
        value_of(smaller(a, b)) == if value_of(b) < value_of(a) { value_of(b) } else { value_of(a) },
{
    reveal(less32);
    reveal(nan32);
}

/// The product of two extents, if it is finite.
proof fn lemma_area(x: u32, y: u32)
    requires
        is_positive(x),
        is_positive(y),
    ensures
        is_finite(product32(x, y)) ==> is_finite(x) && is_finite(y),
        is_finite(x) && is_finite(y) ==> size(product32(x, y)) == product(
            Format::Single,
            size(x),
            size(y),
        ) && is_positive(product32(x, y)),
{
    reveal(product32);
    let p = times(Format::Single, single(x), single(y));
    lemma_bits_stand(p);
    if is_finite(x) && is_finite(y) && (size(x) == 0 || size(y) == 0) {
        lemma_some_units(0);
        vstd::arithmetic::power2::lemma_pow2_pos(149);
        let u = units(Format::Single, size(x));
        let v = units(Format::Single, size(y));
        assert(u * v == 0) by (nonlinear_arith)
            requires
                u == 0 || v == 0,
        ;
        lemma_nearest_zero(0, pow2(149), 24);
    }
}

proof fn lemma_product_ordered(a: nat, b: nat, c: nat, d: nat)
    requires
        a <= c,
        b <= d,
    ensures
        product(Format::Single, a, b) <= product(Format::Single, c, d),
{
    lemma_units_ordered(Format::Single, a, c);
    lemma_units_ordered(Format::Single, b, d);
    let (p, q) = (units(Format::Single, a), units(Format::Single, b));
    let (r, s) = (units(Format::Single, c), units(Format::Single, d));
    assert(p * q <= r * s) by (nonlinear_arith)
        requires
            p <= r,
            q <= s,
    ;
    vstd::arithmetic::power2::lemma_pow2_pos(149);
    law_rounding_keeps_order(Format::Single, p * q, r * s, pow2(149));
}

/// The sizes that intersection over union is made of.
struct Sizes {
    /// Of the areas.
    first: nat,
    second: nat,
    /// Of what they share.
    shared: nat,
    /// Of their sum.
    total: nat,
    /// Of what they cover together.
    covered: nat,
}

spec fn sizes(a: DetectionView, b: DetectionView) -> Sizes {
    Sizes {
        first: size(area_of(a)),
        second: size(area_of(b)),
        shared: size(shared_area(a, b)),
        total: size(sum32(area_of(a), area_of(b))),
        covered: size(covered_area(a, b)),
    }
}

/// The distance that two intervals share.
spec fn common(a1: u32, a2: u32, b1: u32, b2: u32) -> int {
    let low = if value_of(a1) < value_of(b1) {
        value_of(b1)
    } else {
        value_of(a1)
    };
    let high = if value_of(b2) < value_of(a2) {
        value_of(b2)
    } else {
        value_of(a2)
    };
    high - low
}

spec fn shared_size(a: DetectionView, b: DetectionView) -> nat {
    product(
        Format::Single,
        reach(common(a.x1, a.x2, b.x1, b.x2)),
        reach(common(a.y1, a.y2, b.y1, b.y2)),
    )
}

proof fn lemma_box(d: DetectionView)
    requires
        is_finite_box(d),
        is_finite(area_of(d)),
    ensures
        size(area_of(d)) == product(
            Format::Single,
            reach(value_of(d.x2) - value_of(d.x1)),
            reach(value_of(d.y2) - value_of(d.y1)),
        ),
        is_positive(area_of(d)),
        reach(value_of(d.x2) - value_of(d.x1)) < Format::Single.infinity(),
        reach(value_of(d.y2) - value_of(d.y1)) < Format::Single.infinity(),
{
    lemma_extent(d.x1, d.x2);
    lemma_extent(d.y1, d.y2);
    lemma_area(extent(d.x1, d.x2), extent(d.y1, d.y2));
}

/// What two boxes share is no larger than either of them.
proof fn lemma_shared(a: DetectionView, b: DetectionView)
    requires
        is_finite_box(a),
        is_finite_box(b),
        is_finite(area_of(a)),
        is_finite(area_of(b)),
    ensures
        size(shared_area(a, b)) == shared_size(a, b),
        is_positive(shared_area(a, b)),
        size(shared_area(a, b)) <= size(area_of(a)),
        size(shared_area(a, b)) <= size(area_of(b)),
{
    lemma_extremes(a.x1, b.x1);
    lemma_extremes(a.y1, b.y1);
    lemma_extremes(a.x2, b.x2);
    lemma_extremes(a.y2, b.y2);
    lemma_box(a);
    lemma_box(b);
    let w = common(a.x1, a.x2, b.x1, b.x2);
    let h = common(a.y1, a.y2, b.y1, b.y2);
    let (x1, x2) = (larger(a.x1, b.x1), smaller(a.x2, b.x2));
    let (y1, y2) = (larger(a.y1, b.y1), smaller(a.y2, b.y2));
    assert(w == value_of(x2) - value_of(x1));
    assert(h == value_of(y2) - value_of(y1));
    lemma_extent(x1, x2);
    lemma_extent(y1, y2);
    lemma_reach_ordered(w, value_of(a.x2) - value_of(a.x1));
    lemma_reach_ordered(h, value_of(a.y2) - value_of(a.y1));
    lemma_reach_ordered(w, value_of(b.x2) - value_of(b.x1));
    lemma_reach_ordered(h, value_of(b.y2) - value_of(b.y1));
    lemma_area(extent(x1, x2), extent(y1, y2));
    lemma_product_ordered(
        reach(w),
        reach(h),
        reach(value_of(a.x2) - value_of(a.x1)),
        reach(value_of(a.y2) - value_of(a.y1)),
    );
    lemma_product_ordered(
        reach(w),
        reach(h),
        reach(value_of(b.x2) - value_of(b.x1)),
        reach(value_of(b.y2) - value_of(b.y1)),
    );
}

/// The sum of two areas.
proof fn lemma_total(x: u32, y: u32)
    requires
        is_positive(x),
        is_positive(y),
    ensures
        is_finite(sum32(x, y)) ==> is_finite(x) && is_finite(y),
        is_finite(x) && is_finite(y) ==> is_positive(sum32(x, y)) && size(sum32(x, y)) == reach(
            (units(Format::Single, size(x)) + units(Format::Single, size(y))) as int,
        ),
{
    reveal(sum32);
    let s = sum(Format::Single, single(x), single(y));
    lemma_some_units(size(x));
    lemma_some_units(size(y));
    let n = units(Format::Single, size(x)) + units(Format::Single, size(y));
    lemma_reach(n as int);
    if is_finite(x) && is_finite(y) {
        assert(value_of(x) == units(Format::Single, size(x)));
        assert(value_of(y) == units(Format::Single, size(y)));
        assert(s.magnitude == reach(n as int));
    }
    lemma_bits_stand(s);
}

/// What is left of a sum of areas.
proof fn lemma_covered(t: u32, s: u32)
    requires
        is_positive(t),
        is_positive(s),
        is_finite(t),
        is_finite(s),
        size(s) <= size(t),
    ensures
        is_positive(difference32(t, s)),
        size(difference32(t, s)) == reach(
            units(Format::Single, size(t)) - units(Format::Single, size(s)),
        ),
{
    reveal(difference32);
    let d = sum(Format::Single, single(t), negated(single(s)));
    lemma_some_units(size(t));
    lemma_some_units(size(s));
    lemma_units_ordered(Format::Single, size(s), size(t));
    let n = units(Format::Single, size(t)) - units(Format::Single, size(s));
    lemma_reach(n);
    assert(value_of(t) == units(Format::Single, size(t)));
    assert(value(Format::Single, negated(single(s))) == -(units(Format::Single, size(s)) as int));
    assert(d.magnitude == reach(n));
    lemma_bits_stand(d);
}

/// How the sizes compare: what is shared is no larger than what is covered, which
/// is finite.
proof fn lemma_sizes(a: DetectionView, b: DetectionView)
    requires
        are_measurable(a, b),
    ensures
        ({
            let z = sizes(a, b);
            let u = |m: nat| units(Format::Single, m);
            &&& is_finite(area_of(a)) && is_finite(area_of(b))
            &&& is_positive(shared_area(a, b)) && is_positive(covered_area(a, b))
            &&& z.shared == shared_size(a, b)
            &&& z.shared <= z.first && z.shared <= z.second
            &&& z.total == reach((u(z.first) + u(z.second)) as int)
            &&& z.covered == reach(u(z.total) - u(z.shared))
            &&& 2 * u(z.shared) <= u(z.total)
            &&& z.shared <= z.covered <= z.total < Format::Single.infinity()
        }),
{
    let f = Format::Single;
    lemma_extent(a.x1, a.x2);
    lemma_extent(a.y1, a.y2);
    lemma_extent(b.x1, b.x2);
    lemma_extent(b.y1, b.y2);
    lemma_finite_parts(area_of(a), area_of(b));
    lemma_box(a);
    lemma_box(b);
    lemma_shared(a, b);
    lemma_total(area_of(a), area_of(b));
    let z = sizes(a, b);
    let (ua, ub, us) = (units(f, z.first), units(f, z.second), units(f, z.shared));
    lemma_units_ordered(f, z.shared, z.first);
    lemma_units_ordered(f, z.shared, z.second);
    lemma_some_units(z.shared);
    lemma_some_units(z.total);
    lemma_reach((ua + ub) as int);
    if us > 0 {
        lemma_doubled(f, z.shared);
        law_rounding_keeps_order(f, 2 * us, ua + ub, 1);
        lemma_units_ordered(f, nearest(2 * us, 1, 24), z.total);
    }
    assert(2 * us <= units(f, z.total));
    if z.shared > z.total {
        lemma_units_ordered(f, z.total, z.shared);
    }
    lemma_covered(sum32(area_of(a), area_of(b)), shared_area(a, b));
    let left = units(f, z.total) - us;
    lemma_nearest_of_units(f, z.shared);
    lemma_nearest_of_units(f, z.total);
    lemma_reach_ordered(us as int, left);
    lemma_reach_ordered(left, units(f, z.total) as int);
    assert(reach(us as int) == z.shared);
    assert(reach(units(f, z.total) as int) == z.total);
}

/// Where a sum is finite, so is what is added.
proof fn lemma_finite_parts(x: u32, y: u32)
    requires
        is_finite(sum32(x, y)),
    ensures
        is_finite(x),
        is_finite(y),
{
    reveal(sum32);
    let s = sum(Format::Single, single(x), single(y));
    if !is_finite(x) || !is_finite(y) {
        lemma_bits_stand(s);
    }
}

/// The quotient of what is shared and what is covered.
proof fn lemma_ratio(s: u32, c: u32)
    requires
        is_positive(s),
        is_positive(c),
        size(s) <= size(c),
        0 < size(c) < Format::Single.infinity(),
    ensures
        is_finite(quotient32(s, c)),
        size(quotient32(s, c)) == quotient(Format::Single, size(s), size(c)),
        size(quotient32(s, c)) <= 0x3f80_0000,
        size(s) == 0 ==> size(quotient32(s, c)) == 0,
        size(s) == size(c) ==> quotient32(s, c) == ONE,
        0 <= value_of(quotient32(s, c)) <= value_of(ONE),
{
    reveal(quotient32);
    let f = Format::Single;
    let q = over(f, single(s), single(c));
    let u = lemma_one();
    let (us, uc) = (units(f, size(s)), units(f, size(c)));
    lemma_some_units(size(c));
    lemma_some_units(size(s));
    lemma_units_ordered(f, size(s), size(c));
    lemma_nearest_of_units(f, 0x3f80_0000);
    lemma_nearest_scaled(u, 1, 24, uc);
    assert(u * uc == uc * u) by (nonlinear_arith);
    assert(1 * uc == uc);
    assert(us * u <= uc * u) by (nonlinear_arith)
        requires
            us <= uc,
    ;
    law_rounding_keeps_order(f, us * u, uc * u, uc);
    assert(nearest(uc * u, uc, 24) == 0x3f80_0000);
    lemma_bits_stand(q);
    if size(s) == 0 {
        lemma_nearest_zero(u, uc, 24);
    }
    lemma_units_ordered(f, q.magnitude, 0x3f80_0000);
    lemma_some_units(q.magnitude);
    assert(single(ONE) == Parts { negative: false, magnitude: 0x3f80_0000 });
}

/// Whether something is covered.
proof fn lemma_decision(c: u32)
    requires
        is_positive(c),
        is_finite(c),
    ensures
        less32(0, c) == (size(c) > 0),
        value_of(0) == 0,
{
    reveal(less32);
    lemma_some_units(size(c));
    assert(single(0) == Parts { negative: false, magnitude: 0 });
}

/// Intersection over union lies between zero and one.
pub proof fn law_overlap_between_zero_and_one(a: DetectionView, b: DetectionView)
    requires
        are_measurable(a, b),
    ensures
        is_finite(overlap(a, b)),
        0 <= value_of(overlap(a, b)) <= value_of(ONE),
{
    lemma_sizes(a, b);
    lemma_decision(covered_area(a, b));
    if less32(0, covered_area(a, b)) {
        lemma_ratio(shared_area(a, b), covered_area(a, b));
    } else {
        let u = lemma_one();
        assert(single(ONE) == Parts { negative: false, magnitude: 0x3f80_0000 });
    }
}

/// Intersection over union does not depend on the order of the boxes.
pub proof fn law_overlap_is_symmetric(a: DetectionView, b: DetectionView)
    requires
        are_measurable(a, b),
    ensures
        value_of(overlap(a, b)) == value_of(overlap(b, a)),
{
    lemma_extent(a.x1, a.x2);
    lemma_extent(a.y1, a.y2);
    lemma_extent(b.x1, b.x2);
    lemma_extent(b.y1, b.y2);
    lemma_finite_parts(area_of(a), area_of(b));
    lemma_box(a);
    lemma_box(b);
    lemma_total(area_of(a), area_of(b));
    lemma_total(area_of(b), area_of(a));
    assert(are_measurable(b, a));
    lemma_sizes(a, b);
    lemma_sizes(b, a);
    lemma_decision(covered_area(a, b));
    lemma_decision(covered_area(b, a));
    assert(shared_size(a, b) == shared_size(b, a));
    if less32(0, covered_area(a, b)) {
        lemma_ratio(shared_area(a, b), covered_area(a, b));
        lemma_ratio(shared_area(b, a), covered_area(b, a));
        let (p, q) = (overlap(a, b), overlap(b, a));
        assert(size(p) == size(q));
        lemma_some_units(size(p));
    }
}

/// A box of some area overlaps itself wholly.
pub proof fn law_overlap_with_itself(a: DetectionView)
    requires
        are_measurable(a, a),
        value_of(area_of(a)) != 0,
    ensures
        overlap(a, a) == ONE,
{
    let f = Format::Single;
    reveal(less32);
    reveal(nan32);
    lemma_sizes(a, a);
    lemma_box(a);
    assert(shared_area(a, a) == area_of(a));
    let z = sizes(a, a);
    let ua = units(f, z.first);
    lemma_some_units(z.first);
    lemma_doubled(f, z.first);
    assert(z.total == capped(f, nearest(2 * ua, 1, 24)));
    assert(units(f, z.total) == 2 * ua);
    lemma_nearest_of_units(f, z.first);
    assert(z.covered == z.first);
    lemma_decision(covered_area(a, a));
    lemma_ratio(shared_area(a, a), covered_area(a, a));
}

/// Boxes that lie apart, or only touch, do not overlap; nor do boxes without area.
pub proof fn law_no_overlap(a: DetectionView, b: DetectionView)
    requires
        are_measurable(a, b),
        value_of(a.x2) <= value_of(b.x1) || value_of(b.x2) <= value_of(a.x1) || value_of(a.y2)
            <= value_of(b.y1) || value_of(b.y2) <= value_of(a.y1) || (value_of(area_of(a)) == 0
            && value_of(area_of(b)) == 0),
    ensures
        value_of(overlap(a, b)) == 0,
{
    lemma_sizes(a, b);
    lemma_box(a);
    lemma_box(b);
    let z = sizes(a, b);
    lemma_some_units(z.first);
    lemma_some_units(z.second);
    let w = reach(common(a.x1, a.x2, b.x1, b.x2));
    let h = reach(common(a.y1, a.y2, b.y1, b.y2));
    if w == 0 || h == 0 {
        lemma_some_units(0);
        vstd::arithmetic::power2::lemma_pow2_pos(149);
        let (p, q) = (units(Format::Single, w), units(Format::Single, h));
        assert(p * q == 0) by (nonlinear_arith)
            requires
                p == 0 || q == 0,
        ;
        lemma_nearest_zero(0, pow2(149), 24);
    }
    assert(z.shared == 0);
    lemma_decision(covered_area(a, b));
    lemma_some_units(0);
    if less32(0, covered_area(a, b)) {
        lemma_ratio(shared_area(a, b), covered_area(a, b));
    }
}

/// Class and confidence play no part.
pub proof fn law_overlap_is_of_boxes(
    a: DetectionView,
    b: DetectionView,
    classes: (u32, u32),
    confidences: (u32, u32),
)
    ensures
        overlap(
            DetectionView { class_id: classes.0, confidence: confidences.0, ..a },
            DetectionView { class_id: classes.1, confidence: confidences.1, ..b },
        ) == overlap(a, b),
{
}

} // verus!
