//! How far the result of an operation is from the exact one.
//!
//! Values are counted in units of the format, of which one makes `2^bias`.

use vstd::prelude::*;
use vstd::arithmetic::div_mod::{lemma_fundamental_div_mod, lemma_mod_pos_bound};
use vstd::arithmetic::power2::{
    lemma2_to64, lemma2_to64_rest, lemma_pow2_adds, lemma_pow2_pos, lemma_pow2_unfold, pow2,
};
use vstd::arithmetic::mul::{lemma_mul_is_associative, lemma_mul_is_commutative};
use crate::precision::{is_finite, lemma_one, value_of};
use super::{
    lemma_units_ordered, law_rounding_keeps_order, lemma_level_count, lemma_nearest_scaled,
    level_count, is_root, is_root_level, lemma_nearest_root_is, lemma_pow2_exceeds, lemma_pow2_mono,
    law_exact_units, lemma_precision_bound, lemma_units_of_level, lemma_units_parts,
    lemma_wider_and_back, root_steps, single_of, square_root, bits_of_double, difference32,
    difference64, double, law_rounding_error, lemma_units_zero, narrowed, nearest, negated, over,
    product32, product64, quotient32, quotient64, single, sum, sum32, sum64, times, units, value,
    widened, Format, Parts,
};

verus! {

/// The size of a number, whatever its sign.
pub open spec fn size(a: int) -> int {
    if a < 0 {
        -a
    } else {
        a
    }
}

/// How far two numbers are apart.
pub open spec fn distance(a: int, b: int) -> int {
    size(a - b)
}

/// Whether `got` units are `exact / d` units but for one rounding to precision
/// `p`: off by half a unit at most, or by no more than the `2^p`th part.
pub open spec fn is_rounded(got: int, exact: int, d: int, p: nat) -> bool {
    let e = distance(got * d, exact);
    2 * e <= size(d) || e * pow2(p) <= size(exact)
}

/// Whether a number is finite.
pub open spec fn is_number(f: Format, x: Parts) -> bool {
    x.magnitude < f.infinity()
}

/// The value of a double in units of double precision.
pub open spec fn value64(x: u64) -> int {
    value(Format::Double, double(x))
}

/// Whether a double is a finite number.
pub open spec fn is_finite64(x: u64) -> bool {
    is_number(Format::Double, double(x))
}

/// A product is the exact one, rounded once.
pub proof fn law_product_is_rounded(f: Format, a: Parts, b: Parts)
    requires
        is_number(f, a),
        is_number(f, b),
        is_number(f, times(f, a, b)),
    ensures
        is_rounded(
            value(f, times(f, a, b)),
            value(f, a) * value(f, b),
            pow2(f.bias()) as int,
            f.precision(),
        ),
{
    let ua = units(f, a.magnitude) as int;
    let ub = units(f, b.magnitude) as int;
    let d = pow2(f.bias());
    let n = (ua * ub) as nat;
    lemma_pow2_pos(f.bias());
    assert(ua * ub >= 0) by (nonlinear_arith)
        requires
            ua >= 0,
            ub >= 0,
    ;
    law_rounding_error(f, n, d);
    let r = units(f, times(f, a, b).magnitude) as int;
    assert((-ua) * ub == -(ua * ub) && ua * (-ub) == -(ua * ub) && (-ua) * (-ub) == ua * ub)
        by (nonlinear_arith);
    assert((-r) * d == -(r * d)) by (nonlinear_arith);
}

/// A quotient is the exact one, rounded once.
pub proof fn law_quotient_is_rounded(f: Format, a: Parts, b: Parts)
    requires
        is_number(f, a),
        is_number(f, b),
        is_number(f, over(f, a, b)),
        value(f, b) != 0,
    ensures
        is_rounded(
            value(f, over(f, a, b)),
            value(f, a) * pow2(f.bias()),
            value(f, b),
            f.precision(),
        ),
{
    let ua = units(f, a.magnitude) as int;
    let ub = units(f, b.magnitude) as int;
    let one = pow2(f.bias()) as int;
    lemma_units_zero(f, b.magnitude);
    assert(ua * one >= 0) by (nonlinear_arith)
        requires
            ua >= 0,
            one >= 0,
    ;
    law_rounding_error(f, (ua * one) as nat, ub as nat);
    let r = units(f, over(f, a, b).magnitude) as int;
    assert((-ua) * one == -(ua * one)) by (nonlinear_arith);
    assert((-r) * ub == -(r * ub) && r * (-ub) == -(r * ub) && (-r) * (-ub) == r * ub)
        by (nonlinear_arith);
}

/// A sum is the exact one, rounded once.
pub proof fn law_sum_is_rounded(f: Format, a: Parts, b: Parts)
    requires
        is_number(f, a),
        is_number(f, b),
        is_number(f, sum(f, a, b)),
    ensures
        is_rounded(value(f, sum(f, a, b)), value(f, a) + value(f, b), 1, f.precision()),
{
    let v = value(f, a) + value(f, b);
    lemma_units_zero(f, 0);
    if v != 0 {
        law_rounding_error(f, size(v) as nat, 1);
    } else {
        assert(value(f, sum(f, a, b)) == 0);
    }
}

proof fn lemma_root_exists(n: nat) -> (q: nat)
    ensures
        is_root(n, q),
    decreases n,
{
    if n == 0 {
        assert(0nat * 0nat <= 0 < (0nat + 1) * (0nat + 1)) by (nonlinear_arith);
        0
    } else {
        let q = lemma_root_exists((n - 1) as nat);
        if (q + 1) * (q + 1) <= n {
            assert((q + 1) * (q + 1) == n);
            assert(n < ((q + 1) + 1) * ((q + 1) + 1)) by (nonlinear_arith)
                requires
                    (q + 1) * (q + 1) == n,
            ;
            q + 1
        } else {
            q
        }
    }
}

proof fn lemma_root_level_below(n: nat, p: nat, top: nat) -> (k: nat)
    requires
        n < pow2(2 * (p + top)),
    ensures
        is_root_level(n, p, k),
    decreases top,
{
    if top == 0 || n >= pow2((2 * (p + top - 1)) as nat) {
        top
    } else {
        lemma_root_level_below(n, p, (top - 1) as nat)
    }
}

/// The square of a root is close to what it is the root of.
proof fn lemma_root_close(n: nat, p: nat, w: nat, k: nat, t: nat, q: nat, s: nat)
    requires
        t > 0,
        w >= 1,
        q * q <= n / (t * t) < (q + 1) * (q + 1),
        n >= (w * t) * (w * t),
        s == if 4 * n > (2 * q + 1) * (2 * q + 1) * (t * t) || (4 * n == (2 * q + 1) * (2 * q + 1)
            * (t * t) && q % 2 == 1) {
            q + 1
        } else {
            q
        },
    ensures
        w <= q,
        ({
            let r = (s * t) as int;
            2 * distance(r * r, n as int) * w <= 3 * (r * r)
        }),
{
    let u = (t * t) as nat;
    assert(u > 0) by (nonlinear_arith)
        requires
            u == t * t,
            t > 0,
    ;
    lemma_fundamental_div_mod(n as int, u as int);
    lemma_mod_pos_bound(n as int, u as int);
    let m = n / u;
    let e = n % u;
    assert(n == u * m + e);
    assert(w <= q) by {
        if q + 1 <= w {
            assert((q + 1) * (q + 1) <= w * w) by (nonlinear_arith)
                requires
                    q + 1 <= w,
            ;
            assert((w * t) * (w * t) == (w * w) * u) by (nonlinear_arith)
                requires
                    u == t * t,
            ;
            assert(m + 1 <= w * w);
            assert(u * m + u <= (w * w) * u) by (nonlinear_arith)
                requires
                    m + 1 <= w * w,
                    u > 0,
            ;
        }
    }
    let ss = (s * s) as int;
    let r = (s * t) as int;
    assert(r * r == ss * u) by (nonlinear_arith)
        requires
            r == s * t,
            ss == s * s,
            u == t * t,
    ;
    // n lies within (s +- 1/2)^2 u
    let lo = (2 * s - 1) * (2 * s - 1) * u;
    let hi = (2 * s + 1) * (2 * s + 1) * u;
    assert(n < (q + 1) * (q + 1) * u) by (nonlinear_arith)
        requires
            n == u * m + e,
            e < u,
            m + 1 <= (q + 1) * (q + 1),
            u > 0,
    ;
    assert(q * q * u <= n) by (nonlinear_arith)
        requires
            n == u * m + e,
            e >= 0,
            q * q <= m,
            u > 0,
    ;
    if s == q {
        assert(4 * n <= hi);
        assert(lo <= 4 * n) by (nonlinear_arith)
            requires
                lo == (2 * s - 1) * (2 * s - 1) * u,
                q * q * u <= n,
                s == q,
                q >= 1,
                u > 0,
        ;
    } else {
        assert(lo <= 4 * n) by (nonlinear_arith)
            requires
                lo == (2 * s - 1) * (2 * s - 1) * u,
                s == q + 1,
                4 * n >= (2 * q + 1) * (2 * q + 1) * u,
        ;
        assert(4 * n <= hi) by (nonlinear_arith)
            requires
                hi == (2 * s + 1) * (2 * s + 1) * u,
                s == q + 1,
                n < (q + 1) * (q + 1) * u,
                u > 0,
        ;
    }
    let su = (s * u) as int;
    assert(lo == 4 * (ss * u) - 4 * su + u && hi == 4 * (ss * u) + 4 * su + u) by (nonlinear_arith)
        requires
            lo == (2 * s - 1) * (2 * s - 1) * u,
            hi == (2 * s + 1) * (2 * s + 1) * u,
            ss == s * s,
            su == s * u,
    ;
    let d = distance(r * r, n as int);
    assert(4 * d <= 4 * su + u);
    assert(u <= su) by (nonlinear_arith)
        requires
            su == s * u,
            s >= 1,
            u > 0,
    ;
    assert(2 * d <= 3 * su);
    assert(su * w <= ss * u) by (nonlinear_arith)
        requires
            su == s * u,
            ss == s * s,
            w <= s,
            s >= 0,
            u > 0,
    ;
    assert(2 * d * w <= 3 * (ss * u)) by (nonlinear_arith)
        requires
            2 * d <= 3 * su,
            su * w <= ss * u,
            w >= 0,
    ;
}

/// The square of a square root is the number but for a small part of it.
pub proof fn law_root_squares_back(f: Format, a: Parts)
    requires
        is_number(f, a),
        value(f, a) > 0,
        is_number(f, square_root(f, a)),
    ensures
        value(f, square_root(f, a)) > 0,
        ({
            let r = value(f, square_root(f, a));
            2 * distance(r * r, value(f, a) * pow2(f.bias())) * pow2((f.precision() - 1) as nat) <= 3 * (r
                * r)
        }),
{
    let p = f.precision();
    let w = pow2((p - 1) as nat);
    lemma_precision_bound(f);
    lemma_units_zero(f, a.magnitude);
    let one = pow2(f.bias());
    let n = units(f, a.magnitude) * one;
    lemma_pow2_exceeds(n);
    lemma_pow2_mono(n, 2 * (p + n));
    let k = lemma_root_level_below(n, p, n);
    let t = pow2(k);
    lemma_pow2_pos(k);
    lemma_pow2_adds(k, k);
    let q = lemma_root_exists(n / pow2(2 * k));
    lemma_nearest_root_is(n, p, k, q);
    if k == 0 {
        lemma_pow2_mono(2 * p, f.bias());
        assert(n >= one) by (nonlinear_arith)
            requires
                n == units(f, a.magnitude) * one,
                units(f, a.magnitude) >= 1,
                one >= 0,
        ;
        assert(false);
    }
    let top = (p + k - 1) as nat;
    lemma_pow2_adds(top, top);
    lemma_pow2_adds((p - 1) as nat, k);
    let s = root_steps(n, k, q);
    lemma_root_close(n, p, w, k, t, q, s);
    lemma_pow2_unfold(p);
    assert(q < pow2(p)) by {
        let x = pow2(p);
        lemma_pow2_adds(p + k, p + k);
        lemma_pow2_adds(p, k);
        if x <= q {
            let u = (t * t) as nat;
            assert(u > 0) by (nonlinear_arith)
                requires
                    u == t * t,
                    t > 0,
            ;
            lemma_fundamental_div_mod(n as int, u as int);
            lemma_mod_pos_bound(n as int, u as int);
            assert(n >= u * (n / u));
            assert(n >= (x * t) * (x * t)) by (nonlinear_arith)
                requires
                    n >= u * (n / u),
                    n / u >= q * q,
                    q >= x,
                    u == t * t,
                    x >= 0,
                    t >= 0,
            ;
            assert(false);
        }
    }
    lemma_units_of_level(f, k, s);
    assert(value(f, square_root(f, a)) == s * t);
    assert(s * t > 0) by (nonlinear_arith)
        requires
            s >= 1,
            t > 0,
    ;
}

/// A sum in single precision is the exact one, rounded once.
pub proof fn law_sum32_is_rounded(a: u32, b: u32)
    requires
        is_finite(a),
        is_finite(b),
        is_finite(sum32(a, b)),
    ensures
        is_rounded(value_of(sum32(a, b)), value_of(a) + value_of(b), 1, 24),
{
    reveal(sum32);
    law_sum_is_rounded(Format::Single, single(a), single(b));
}

/// A difference in single precision is the exact one, rounded once.
pub proof fn law_difference32_is_rounded(a: u32, b: u32)
    requires
        is_finite(a),
        is_finite(b),
        is_finite(difference32(a, b)),
    ensures
        is_rounded(value_of(difference32(a, b)), value_of(a) - value_of(b), 1, 24),
{
    reveal(difference32);
    law_sum_is_rounded(Format::Single, single(a), negated(single(b)));
}

/// A product in single precision is the exact one, rounded once.
pub proof fn law_product32_is_rounded(a: u32, b: u32)
    requires
        is_finite(a),
        is_finite(b),
        is_finite(product32(a, b)),
    ensures
        is_rounded(value_of(product32(a, b)), value_of(a) * value_of(b), pow2(149) as int, 24),
{
    reveal(product32);
    law_product_is_rounded(Format::Single, single(a), single(b));
}

/// A quotient in single precision is the exact one, rounded once.
pub proof fn law_quotient32_is_rounded(a: u32, b: u32)
    requires
        is_finite(a),
        is_finite(b),
        is_finite(quotient32(a, b)),
        value_of(b) != 0,
    ensures
        is_rounded(value_of(quotient32(a, b)), value_of(a) * pow2(149), value_of(b), 24),
{
    reveal(quotient32);
    law_quotient_is_rounded(Format::Single, single(a), single(b));
}

/// A sum in double precision is the exact one, rounded once.
pub proof fn law_sum64_is_rounded(a: u64, b: u64)
    requires
        is_finite64(a),
        is_finite64(b),
        is_finite64(sum64(a, b)),
    ensures
        is_rounded(value64(sum64(a, b)), value64(a) + value64(b), 1, 53),
{
    reveal(sum64);
    law_sum_is_rounded(Format::Double, double(a), double(b));
}

/// A difference in double precision is the exact one, rounded once.
pub proof fn law_difference64_is_rounded(a: u64, b: u64)
    requires
        is_finite64(a),
        is_finite64(b),
        is_finite64(difference64(a, b)),
    ensures
        is_rounded(value64(difference64(a, b)), value64(a) - value64(b), 1, 53),
{
    reveal(difference64);
    law_sum_is_rounded(Format::Double, double(a), negated(double(b)));
}

/// A product in double precision is the exact one, rounded once.
pub proof fn law_product64_is_rounded(a: u64, b: u64)
    requires
        is_finite64(a),
        is_finite64(b),
        is_finite64(product64(a, b)),
    ensures
        is_rounded(value64(product64(a, b)), value64(a) * value64(b), pow2(1074) as int, 53),
{
    reveal(product64);
    law_product_is_rounded(Format::Double, double(a), double(b));
}

/// A quotient in double precision is the exact one, rounded once.
pub proof fn law_quotient64_is_rounded(a: u64, b: u64)
    requires
        is_finite64(a),
        is_finite64(b),
        is_finite64(quotient64(a, b)),
        value64(b) != 0,
    ensures
        is_rounded(value64(quotient64(a, b)), value64(a) * pow2(1074), value64(b), 53),
{
    reveal(quotient64);
    law_quotient_is_rounded(Format::Double, double(a), double(b));
}

/// A single is the same number in double precision.
pub proof fn law_widened_is_exact(a: u32)
    requires
        is_finite(a),
    ensures
        is_finite64(widened(a)),
        value64(widened(a)) == value_of(a) * pow2(925),
{
    reveal(widened);
    let x = single(a);
    let (m, k) = lemma_units_parts(Format::Single, x.magnitude);
    let u = units(Format::Single, x.magnitude) as int;
    lemma_wider_and_back(Format::Single, Format::Double, x.magnitude, 925);
    lemma2_to64();
    lemma2_to64_rest();
    lemma_pow2_mono(24, 53);
    lemma_pow2_adds(k, 925);
    lemma_mul_is_associative(m as int, pow2(k) as int, pow2(925) as int);
    law_exact_units(Format::Double, m, k + 925);
    assert((-u) * pow2(925) == -(u * pow2(925))) by (nonlinear_arith);
}

/// A double in single precision is rounded once.
pub proof fn law_narrowed_is_rounded(a: u64)
    requires
        is_finite64(a),
        is_finite(narrowed(a)),
    ensures
        is_rounded(value_of(narrowed(a)), value64(a), pow2(925) as int, 24),
{
    reveal(narrowed);
    let n = units(Format::Double, double(a).magnitude);
    lemma_pow2_pos(925);
    law_rounding_error(Format::Single, n, pow2(925));
    let g = units(Format::Single, nearest(n, pow2(925), 24)) as int;
    assert((-g) * pow2(925) == -(g * pow2(925))) by (nonlinear_arith);
}

/// A whole number in single precision is rounded once.
pub proof fn law_whole_is_rounded(n: nat)
    requires
        is_finite(single_of(n)),
    ensures
        value_of(single_of(n)) >= 0,
        is_rounded(value_of(single_of(n)), (n * pow2(149)) as int, 1, 24),
{
    reveal(single_of);
    law_rounding_error(Format::Single, n * pow2(149), 1);
    lemma2_to64();
}

/// What is no larger than a power of two in range does not round to infinity.
proof fn lemma_stays_finite(f: Format, n: nat, d: nat, k: nat)
    requires
        d > 0,
        n <= d * pow2(k),
        k + 2 <= level_count(f),
    ensures
        nearest(n, d, f.precision()) < f.infinity(),
{
    let p = f.precision();
    let w = pow2((p - 1) as nat);
    lemma_precision_bound(f);
    lemma_level_count(f);
    law_rounding_keeps_order(f, n, d * pow2(k), d);
    lemma_nearest_scaled(pow2(k), 1, p, d);
    lemma_mul_is_commutative(pow2(k) as int, d as int);
    assert(1 * d == d);
    lemma_pow2_mono(1, p);
    lemma2_to64();
    law_exact_units(f, 1, k);
    assert(1 * pow2(k) == pow2(k));
    let top = level_count(f);
    assert((k + 2) * w <= top * w) by (nonlinear_arith)
        requires
            k + 2 <= top,
    ;
}

pub(crate) proof fn lemma_product_finite(a: u32, b: u32, k: nat)
    requires
        is_finite(a),
        is_finite(b),
        size(value_of(a) * value_of(b)) <= pow2(149) * pow2(k),
        k + 2 <= 255,
    ensures
        is_finite(product32(a, b)),
{
    reveal(product32);
    let ua = units(Format::Single, single(a).magnitude) as int;
    let ub = units(Format::Single, single(b).magnitude) as int;
    assert(ua * ub >= 0) by (nonlinear_arith)
        requires
            ua >= 0,
            ub >= 0,
    ;
    assert((-ua) * ub == -(ua * ub) && ua * (-ub) == -(ua * ub) && (-ua) * (-ub) == ua * ub)
        by (nonlinear_arith);
    lemma_pow2_pos(149);
    lemma_stays_finite(Format::Single, (ua * ub) as nat, pow2(149), k);
}

pub(crate) proof fn lemma_quotient_finite(a: u32, b: u32, k: nat)
    requires
        is_finite(a),
        is_finite(b),
        value_of(b) > 0,
        size(value_of(a)) * pow2(149) <= value_of(b) * pow2(k),
        k + 2 <= 255,
    ensures
        is_finite(quotient32(a, b)),
{
    reveal(quotient32);
    let ua = units(Format::Single, single(a).magnitude);
    let ub = units(Format::Single, single(b).magnitude);
    lemma_units_zero(Format::Single, single(b).magnitude);
    assert(ua * pow2(149) >= 0) by (nonlinear_arith);
    lemma_stays_finite(Format::Single, ua * pow2(149), ub, k);
}

pub(crate) proof fn lemma_sum_finite(a: u32, b: u32, k: nat)
    requires
        is_finite(a),
        is_finite(b),
        size(value_of(a)) + size(value_of(b)) <= pow2(k),
        k + 2 <= 255,
    ensures
        is_finite(sum32(a, b)),
        is_finite(difference32(a, b)),
{
    reveal(sum32);
    reveal(difference32);
    assert(1 * pow2(k) == pow2(k));
    let v = value_of(a) + value_of(b);
    let d = value_of(a) - value_of(b);
    lemma_stays_finite(Format::Single, size(v) as nat, 1, k);
    lemma_stays_finite(Format::Single, size(d) as nat, 1, k);
}

pub(crate) proof fn lemma_whole_finite(n: nat)
    requires
        n < 0x1_0000_0000_0000_0000,
    ensures
        is_finite(single_of(n)),
{
    reveal(single_of);
    lemma2_to64();
    lemma_pow2_adds(64, 149);
    assert(n * pow2(149) <= 1 * pow2(213)) by (nonlinear_arith)
        requires
            n <= pow2(64),
            pow2(213) == pow2(64) * pow2(149),
    ;
    lemma_stays_finite(Format::Single, n * pow2(149), 1, 213);
}

/// A finite single is below `2^277` units.
pub(crate) proof fn lemma_single_bound(x: u32)
    requires
        is_finite(x),
    ensures
        size(value_of(x)) < pow2(277),
{
    let u = lemma_one();
    lemma_units_ordered(Format::Single, single(x).magnitude, 0x7f80_0000);
    lemma2_to64();
    lemma_pow2_adds(64, 64);
    lemma_pow2_adds(149, 128);
}

pub(crate) proof fn lemma_sum64_finite(a: u64, b: u64, k: nat)
    requires
        is_finite64(a),
        is_finite64(b),
        size(value64(a)) + size(value64(b)) <= pow2(k),
        k + 2 <= 2047,
    ensures
        is_finite64(sum64(a, b)),
        is_finite64(difference64(a, b)),
{
    reveal(sum64);
    reveal(difference64);
    assert(1 * pow2(k) == pow2(k));
    lemma_stays_finite(Format::Double, size(value64(a) + value64(b)) as nat, 1, k);
    lemma_stays_finite(Format::Double, size(value64(a) - value64(b)) as nat, 1, k);
}

/// A finite product has finite factors.
pub(crate) proof fn lemma_factors_finite(a: u64, b: u64)
    requires
        is_finite64(product64(a, b)),
    ensures
        is_finite64(a),
        is_finite64(b),
{
    reveal(product64);
    lemma_bits64();
}

/// A finite sum has finite addends.
pub(crate) proof fn lemma_addends64_finite(a: u64, b: u64)
    requires
        is_finite64(sum64(a, b)),
    ensures
        is_finite64(a),
        is_finite64(b),
{
    reveal(sum64);
}

/// A finite sum has finite addends.
pub(crate) proof fn lemma_addends_finite(a: u32, b: u32)
    requires
        is_finite(sum32(a, b)),
    ensures
        is_finite(a),
        is_finite(b),
{
    reveal(sum32);
}

/// What is finite in single precision was in double precision.
pub(crate) proof fn lemma_narrowed_from_finite(a: u64)
    requires
        is_finite(narrowed(a)),
    ensures
        is_finite64(a),
{
    reveal(narrowed);
}

proof fn lemma_bits64()
    ensures
        forall|x: Parts|
            x.magnitude < 0x8000_0000_0000_0000 ==> #[trigger] double(bits_of_double(x)) == x,
{
}

/// The square root of a finite number is finite.
pub(crate) proof fn lemma_root_finite(f: Format, a: Parts)
    requires
        is_number(f, a),
        value(f, a) > 0,
    ensures
        is_number(f, square_root(f, a)),
{
    let p = f.precision();
    let w = pow2((p - 1) as nat);
    lemma_precision_bound(f);
    lemma_level_count(f);
    lemma_units_zero(f, a.magnitude);
    let one = pow2(f.bias());
    let n = units(f, a.magnitude) * one;
    let (m, j) = lemma_units_parts(f, a.magnitude);
    let top = (p + j + f.bias()) as nat;
    lemma_pow2_adds(p, j);
    lemma_pow2_adds(p + j, f.bias());
    lemma_pow2_pos(j);
    lemma_pow2_pos(f.bias());
    assert(n < pow2(top)) by (nonlinear_arith)
        requires
            n == (m * pow2(j)) * one,
            m < pow2(p),
            pow2(top) == (pow2(p) * pow2(j)) * one,
            pow2(j) > 0,
            one > 0,
    ;
    lemma_pow2_exceeds(n);
    lemma_pow2_mono(n, 2 * (p + n));
    let k = lemma_root_level_below(n, p, n);
    let t = pow2(k);
    lemma_pow2_pos(k);
    lemma_pow2_adds(k, k);
    let q = lemma_root_exists(n / pow2(2 * k));
    lemma_nearest_root_is(n, p, k, q);
    if k > 0 && 2 * (p + k - 1) >= top {
        lemma_pow2_mono(top, (2 * (p + k - 1)) as nat);
    }
    lemma_pow2_unfold(p);
    assert(q < pow2(p)) by {
        let x = pow2(p);
        lemma_pow2_adds(p + k, p + k);
        lemma_pow2_adds(p, k);
        if x <= q {
            let u = (t * t) as nat;
            assert(u > 0) by (nonlinear_arith)
                requires
                    u == t * t,
                    t > 0,
            ;
            lemma_fundamental_div_mod(n as int, u as int);
            lemma_mod_pos_bound(n as int, u as int);
            assert(n >= u * (n / u));
            assert(n >= (x * t) * (x * t)) by (nonlinear_arith)
                requires
                    n >= u * (n / u),
                    n / u >= q * q,
                    q >= x,
                    u == t * t,
                    x >= 0,
                    t >= 0,
            ;
            assert(false);
        }
    }
    let s = root_steps(n, k, q);
    let levels = level_count(f);
    assert(k * w + s <= (k + 2) * w) by (nonlinear_arith)
        requires
            s <= 2 * w,
    ;
    assert((k + 2) * w < levels * w) by (nonlinear_arith)
        requires
            k + 2 < levels,
            w > 0,
    ;
}

} // verus!
