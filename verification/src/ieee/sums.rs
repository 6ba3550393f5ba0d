//! How far sums of many singles are from the exact ones.

use vstd::prelude::*;
use vstd::arithmetic::power2::{lemma2_to64, lemma_pow2_pos, pow2};
use crate::precision::{is_finite, value_of};
use super::accuracy::{
    distance, law_product32_is_rounded, law_quotient32_is_rounded, law_sum32_is_rounded,
    law_whole_is_rounded, lemma_addends_finite, lemma_whole_finite, size,
};
use super::nearness::{lemma_apart_scaled, lemma_rounded_off};
use super::{product32, quotient32, single_of, sum32};

verus! {

/// The exact sum of singles, in units.
pub open spec fn total(v: Seq<u32>) -> int
    decreases v.len(),
{
    if v.len() == 0 {
        0
    } else {
        total(v.drop_last()) + value_of(v.last())
    }
}

/// The exact sum of the sizes of singles, in units.
pub open spec fn total_size(v: Seq<u32>) -> int
    decreases v.len(),
{
    if v.len() == 0 {
        0
    } else {
        total_size(v.drop_last()) + size(value_of(v.last()))
    }
}

/// The exact sum of the products of singles, in units of units.
pub open spec fn inner(a: Seq<u32>, b: Seq<u32>) -> int
    decreases a.len(),
{
    if a.len() == 0 {
        0
    } else {
        inner(a.drop_last(), b.drop_last()) + value_of(a.last()) * value_of(b.last())
    }
}

/// The exact sum of the sizes of the products of singles, in units of units.
pub open spec fn inner_size(a: Seq<u32>, b: Seq<u32>) -> int
    decreases a.len(),
{
    if a.len() == 0 {
        0
    } else {
        inner_size(a.drop_last(), b.drop_last()) + size(value_of(a.last()) * value_of(b.last()))
    }
}

/// Sums that come one after the other: each adds a number, or passes over a zero.
pub open spec fn are_sums(s: Seq<u32>, v: Seq<u32>) -> bool {
    &&& s.len() == v.len() + 1
    &&& forall|k: int|
        0 <= k < v.len() ==> #[trigger] s[k + 1] == sum32(s[k], v[k]) || (s[k + 1] == s[k] && v[k]
            == 0)
}

pub(crate) proof fn lemma_zero()
    ensures
        is_finite(0),
        value_of(0) == 0,
{
    lemma2_to64();
}

/// A running sum is off by a small part of the sum of the sizes.
pub proof fn law_sums_are_close(s: Seq<u32>, v: Seq<u32>)
    requires
        are_sums(s, v),
        is_finite(s.last()),
        v.len() <= 0x10_0000,
    ensures
        is_finite(s[0]),
        forall|k: int| 0 <= k < v.len() ==> is_finite(#[trigger] v[k]),
        total_size(v) >= 0,
        distance(value_of(s.last()), value_of(s[0]) + total(v)) * 0x100_0000 <= 2 * v.len() * (size(
            value_of(s[0]),
        ) + total_size(v)),
    decreases v.len(),
{
    lemma_zero();
    if v.len() > 0 {
        let n = v.len() as int;
        let x = v.last();
        let before = s[n - 1];
        let now = s[n - 1 + 1];
        assert(now == s.last());
        if now == sum32(before, x) {
            lemma_addends_finite(before, x);
        }
        let (sp, vp) = (s.drop_last(), v.drop_last());
        assert(sp.last() == before);
        assert forall|k: int| 0 <= k < vp.len() implies #[trigger] sp[k + 1] == sum32(sp[k], vp[k])
            || (sp[k + 1] == sp[k] && vp[k] == 0) by {
            assert(s[k + 1] == sum32(s[k], v[k]) || (s[k + 1] == s[k] && v[k] == 0));
        }
        law_sums_are_close(sp, vp);
        assert(vp[n - 2] == v[n - 2] || n < 2);
        assert forall|k: int| 0 <= k < v.len() implies is_finite(#[trigger] v[k]) by {
            if k < n - 1 {
                assert(is_finite(vp[k]));
            }
        }
        let w = size(value_of(s[0])) + total_size(vp);
        let e = distance(value_of(before), value_of(s[0]) + total(vp));
        let t = value_of(x);
        assert(size(value_of(s[0]) + total(vp)) <= w) by {
            lemma_total_size(vp);
        }
        assert(e <= w) by (nonlinear_arith)
            requires
                e * 0x100_0000 <= 2 * (n - 1) * w,
                1 <= n <= 0x10_0000,
                w >= 0,
                e >= 0,
        ;
        let r = if now == sum32(before, x) {
            law_sum32_is_rounded(before, x);
            lemma_rounded_off(value_of(now), value_of(before) + t, 1, 24);
            distance(value_of(now), value_of(before) + t)
        } else {
            0
        };
        assert(r * 0x100_0000 <= 2 * (w + size(t)));
        assert(2 * (n - 1) * w + 2 * (w + size(t)) <= 2 * n * (w + size(t))) by (nonlinear_arith)
            requires
                n >= 1,
                size(t) >= 0,
        ;
    } else {
        assert(s.last() == s[0]);
        let w = size(value_of(s[0])) + total_size(v);
        assert(2 * v.len() * w == 0) by (nonlinear_arith)
            requires
                v.len() == 0,
        ;
    }
}

proof fn lemma_total_size(v: Seq<u32>)
    ensures
        size(total(v)) <= total_size(v),
    decreases v.len(),
{
    if v.len() > 0 {
        lemma_total_size(v.drop_last());
    }
}

/// What is finite over a finite number was finite.
proof fn lemma_dividend_finite(a: u32, b: u32)
    requires
        is_finite(b),
        is_finite(quotient32(a, b)),
    ensures
        is_finite(a),
{
    reveal(quotient32);
}

proof fn lemma_factors32_finite(a: u32, b: u32)
    requires
        is_finite(product32(a, b)),
    ensures
        is_finite(a),
        is_finite(b),
{
    reveal(product32);
}

/// Sums of products that come one after the other: each adds a product, or passes over a zero.
pub open spec fn are_sums_of_products(s: Seq<u32>, a: Seq<u32>, b: Seq<u32>) -> bool {
    &&& s.len() == a.len() + 1
    &&& a.len() == b.len()
    &&& forall|k: int|
        0 <= k < a.len() ==> #[trigger] s[k + 1] == sum32(s[k], product32(a[k], b[k])) || (s[k + 1]
            == s[k] && a[k] == 0)
}

proof fn lemma_products(t: Seq<u32>, a: Seq<u32>, b: Seq<u32>)
    requires
        t.len() == a.len(),
        a.len() == b.len(),
        forall|k: int| 0 <= k < t.len() ==> is_finite(#[trigger] t[k]),
        forall|k: int|
            0 <= k < t.len() ==> #[trigger] t[k] == product32(a[k], b[k]) || (t[k] == 0 && a[k] == 0),
    ensures
        inner_size(a, b) >= 0,
        size(inner(a, b)) <= inner_size(a, b),
        distance(total(t) * pow2(149), inner(a, b)) * 0x100_0000 <= inner_size(a, b) + 0x80_0000 * (
        t.len() * pow2(149)),
        total_size(t) * pow2(149) <= 2 * inner_size(a, b) + t.len() * pow2(149),
    decreases t.len(),
{
    let one = pow2(149) as int;
    lemma_pow2_pos(149);
    lemma_zero();
    if t.len() > 0 {
        let n = t.len() as int;
        let (tp, ap, bp) = (t.drop_last(), a.drop_last(), b.drop_last());
        assert forall|k: int| 0 <= k < tp.len() implies is_finite(#[trigger] tp[k]) by {
            assert(is_finite(t[k]));
        }
        assert forall|k: int| 0 <= k < tp.len() implies #[trigger] tp[k] == product32(ap[k], bp[k])
            || (tp[k] == 0 && ap[k] == 0) by {
            assert(t[k] == product32(a[k], b[k]) || (t[k] == 0 && a[k] == 0));
        }
        lemma_products(tp, ap, bp);
        let x = t[n - 1];
        assert(is_finite(x));
        let (p, q) = (value_of(a.last()), value_of(b.last()));
        let v = value_of(x);
        let pq = p * q;
        assert(distance(v * one, pq) * 0x100_0000 <= size(pq) + 0x80_0000 * one) by {
            if x == product32(a[n - 1], b[n - 1]) {
                lemma_factors32_finite(a.last(), b.last());
                law_product32_is_rounded(a.last(), b.last());
                lemma_rounded_off(v, pq, one, 24);
            } else {
                assert(pq == 0) by (nonlinear_arith)
                    requires
                        pq == p * q,
                        p == 0,
                ;
                assert(v * one == 0) by (nonlinear_arith)
                    requires
                        v == 0,
                ;
            }
        }
        let m = total(tp);
        assert((m + v) * one == m * one + v * one) by (nonlinear_arith);
        assert(n * one == (n - 1) * one + one) by (nonlinear_arith);
        let z = total_size(tp);
        assert((z + size(v)) * one == z * one + size(v) * one) by (nonlinear_arith);
        lemma_apart_scaled(v, 0, one);
    } else {
        assert(0 * one == 0);
    }
}

/// A running sum of products is close to the exact one.
pub proof fn law_inner_products_are_close(s: Seq<u32>, a: Seq<u32>, b: Seq<u32>)
    requires
        are_sums_of_products(s, a, b),
        value_of(s[0]) == 0,
        is_finite(s.last()),
        a.len() <= 0x10_0000,
    ensures
        inner_size(a, b) >= 0,
        size(inner(a, b)) <= inner_size(a, b),
        distance(value_of(s.last()) * pow2(149), inner(a, b)) * 0x100_0000 <= (4 * a.len() + 1)
            * inner_size(a, b) + 0x100_0000 * (a.len() * pow2(149)),
{
    let one = pow2(149) as int;
    let n = a.len() as int;
    lemma_pow2_pos(149);
    let u = Seq::new(
        a.len(),
        |k: int| if s[k + 1] == s[k] && a[k] == 0 { 0u32 } else { product32(a[k], b[k]) },
    );
    assert forall|k: int| 0 <= k < u.len() implies #[trigger] s[k + 1] == sum32(s[k], u[k]) || (s[k
        + 1] == s[k] && u[k] == 0) by {
        assert(s[k + 1] == sum32(s[k], product32(a[k], b[k])) || (s[k + 1] == s[k] && a[k] == 0));
    }
    law_sums_are_close(s, u);
    lemma_products(u, a, b);
    let e = distance(value_of(s.last()), total(u));
    let w = total_size(u);
    assert(e * 0x100_0000 <= 2 * n * w);
    lemma_apart_scaled(value_of(s.last()), total(u), one);
    let z = inner_size(a, b);
    let no = n * one;
    assert((e * one) * 0x100_0000 <= 2 * n * (2 * z + no)) by (nonlinear_arith)
        requires
            e * 0x100_0000 <= 2 * n * w,
            w * one <= 2 * z + no,
            n >= 0,
            one > 0,
    ;
    assert(2 * n * (2 * z + no) == 4 * n * z + 2 * n * no) by (nonlinear_arith);
    assert(2 * n * no <= 0x20_0000 * no) by (nonlinear_arith)
        requires
            n <= 0x10_0000,
            no == n * one,
            n >= 0,
            one > 0,
    ;
    assert(no >= 0) by (nonlinear_arith)
        requires
            no == n * one,
            n >= 0,
            one > 0,
    ;
    assert((4 * n + 1) * z == 4 * n * z + z) by (nonlinear_arith);
}

/// A mean `y` from a sum `x` and a count `c`, where the exact sum is `t` and `a`
/// the sum of the sizes.
proof fn lemma_mean(x: int, t: int, a: int, m: int, c: int, y: int, n: int, one: int)
    requires
        one > 0,
        n >= 1,
        0 <= m <= 0x10_0000,
        a >= 0,
        size(t) <= a,
        distance(x, t) * 0x100_0000 <= 2 * m * a,
        distance(c, n * one) * 0x100_0000 <= n * one,
        c > 0,
        distance(y * c, x * one) * 0x100_0000 <= size(x * one) + 0x80_0000 * c,
    ensures
        distance(y * n, t) * 0x100_0000 <= (2 * m + 10) * a + 0x100_0004 * n,
{
    let no = n * one;
    let e = distance(x, t);
    assert(e <= a) by (nonlinear_arith)
        requires
            e * 0x100_0000 <= 2 * m * a,
            0 <= m <= 0x10_0000,
            a >= 0,
            e >= 0,
    ;
    assert(no >= 1) by (nonlinear_arith)
        requires
            no == n * one,
            n >= 1,
            one > 0,
    ;
    let ao = a * one;
    let to = t * one;
    let xo = x * one;
    lemma_apart_scaled(x, t, one);
    lemma_apart_scaled(t, 0, one);
    lemma_apart_scaled(x, 0, one);
    assert(e * one <= ao && size(to) <= ao) by (nonlinear_arith)
        requires
            e <= a,
            size(t) <= a,
            size(to) == size(t) * one,
            ao == a * one,
            one > 0,
    ;
    assert(size(xo) <= 2 * ao);
    let f = distance(xo, to);
    assert(f * 0x100_0000 <= 2 * m * ao) by (nonlinear_arith)
        requires
            f == e * one,
            ao == a * one,
            e * 0x100_0000 <= 2 * m * a,
            one > 0,
    ;
    let yc = y * c;
    let yn = y * no;
    let w = distance(yc, xo);
    assert(size(yc) <= 2 * size(xo) + c);
    let h = size(y);
    let g = distance(yn, yc);
    assert(g == distance(no, c) * h) by {
        lemma_apart_scaled(no, c, y);
        assert(no * y == yn && c * y == yc) by (nonlinear_arith)
            requires
                yn == y * no,
                yc == y * c,
        ;
    }
    assert(size(yc) == h * c) by {
        lemma_apart_scaled(y, 0, c);
    }
    assert(g * 0x100_0000 <= no * h) by (nonlinear_arith)
        requires
            g == distance(no, c) * h,
            distance(no, c) * 0x100_0000 <= no,
            h >= 0,
    ;
    assert(no * h <= 2 * (h * c)) by (nonlinear_arith)
        requires
            no <= 2 * c,
            h >= 0,
    ;
    lemma_mean_total(yn, yc, xo, to, g, w, f, ao, c, no, 2 * m * ao);
    assert(yn == (y * n) * one) by (nonlinear_arith)
        requires
            yn == y * no,
            no == n * one,
    ;
    lemma_apart_scaled(y * n, t, one);
    let near = distance(y * n, t);
    assert(near * 0x100_0000 <= (2 * m + 10) * a + 0x100_0004 * n) by (nonlinear_arith)
        requires
            (near * one) * 0x100_0000 <= 2 * m * (a * one) + 10 * (a * one) + 0x100_0004 * (n * one),
            one > 0,
    ;
}

proof fn lemma_mean_total(
    yn: int,
    yc: int,
    xo: int,
    to: int,
    g: int,
    w: int,
    f: int,
    ao: int,
    c: int,
    no: int,
    off: int,
)
    requires
        g == distance(yn, yc),
        w == distance(yc, xo),
        f == distance(xo, to),
        g * 0x100_0000 <= 2 * size(yc),
        size(yc) <= 2 * size(xo) + c,
        size(xo) <= 2 * ao,
        w * 0x100_0000 <= size(xo) + 0x80_0000 * c,
        f * 0x100_0000 <= off,
        0 < c,
        distance(c, no) * 0x100_0000 <= no,
        no >= 1,
    ensures
        distance(yn, to) * 0x100_0000 <= off + 10 * ao + 0x100_0004 * no,
{
    assert(c * 0x100_0000 <= no * 0x100_0001);
}

/// A sum over the number of its addends is close to the exact mean: `n` times
/// the mean is the total.
pub proof fn law_means_are_close(s: Seq<u32>, v: Seq<u32>, n: nat)
    requires
        are_sums(s, v),
        value_of(s[0]) == 0,
        v.len() <= 0x10_0000,
        0 < n < 0x1_0000_0000_0000_0000,
        is_finite(quotient32(s.last(), single_of(n))),
    ensures
        distance(value_of(quotient32(s.last(), single_of(n))) * n, total(v)) * 0x100_0000 <= (2
            * v.len() + 10) * total_size(v) + 0x100_0004 * n,
{
    let one = pow2(149) as int;
    lemma_pow2_pos(149);
    lemma_whole_finite(n);
    lemma_dividend_finite(s.last(), single_of(n));
    law_sums_are_close(s, v);
    lemma_total_size(v);
    law_whole_is_rounded(n);
    let c = value_of(single_of(n));
    let no = n * one;
    assert(no >= one) by (nonlinear_arith)
        requires
            no == n * one,
            n >= 1,
            one > 0,
    ;
    lemma_rounded_off(c, no, 1, 24);
    law_quotient32_is_rounded(s.last(), single_of(n));
    let y = value_of(quotient32(s.last(), single_of(n)));
    let x = value_of(s.last());
    lemma_rounded_off(y, x * one, c, 24);
    lemma_mean(x, total(v), total_size(v), v.len() as int, c, y, n as int, one);
}

} // verus!
