//! Numbers that are the same but for a few roundings.

use vstd::prelude::*;
use vstd::arithmetic::power2::{lemma2_to64, pow2};
use super::accuracy::{distance, is_rounded, size};

verus! {

/// Whether `x` is `y` but for `e` parts in `2^24`.
pub open spec fn is_near(x: int, y: int, e: int) -> bool {
    distance(x, y) * 0x100_0000 <= e * size(y)
}

pub(crate) proof fn lemma_wider(x: int, y: int, e: int, k: int)
    requires
        is_near(x, y, e),
        e <= k,
    ensures
        is_near(x, y, k),
{
    assert(e * size(y) <= k * size(y)) by (nonlinear_arith)
        requires
            e <= k,
            size(y) >= 0,
    ;
}

pub(crate) proof fn lemma_rounded_is_near(got: int, exact: int, d: int, p: nat)
    requires
        is_rounded(got, exact, d, p),
        p == 24 || p == 53,
        size(d) * 0x80_0000 <= size(exact),
    ensures
        is_near(got * d, exact, 1),
{
    lemma2_to64();
    vstd::arithmetic::power2::lemma2_to64_rest();
    let e = distance(got * d, exact);
    if e * pow2(p) <= size(exact) {
        assert(e * 0x100_0000 <= e * pow2(p)) by (nonlinear_arith)
            requires
                0x100_0000 <= pow2(p),
                e >= 0,
        ;
    }
}

/// A rounded number is off by the `2^24`th part and half a unit at most; whole
/// units are off by the `2^24`th part.
pub(crate) proof fn lemma_rounded_off(got: int, exact: int, d: int, p: nat)
    requires
        is_rounded(got, exact, d, p),
        p == 24 || p == 53,
    ensures
        distance(got * d, exact) * 0x100_0000 <= size(exact) + 0x80_0000 * size(d),
        d == 1 ==> distance(got, exact) * 0x100_0000 <= size(exact),
{
    lemma2_to64();
    vstd::arithmetic::power2::lemma2_to64_rest();
    let e = distance(got * d, exact);
    if e * pow2(p) <= size(exact) {
        assert(e * 0x100_0000 <= e * pow2(p)) by (nonlinear_arith)
            requires
                0x100_0000 <= pow2(p),
                e >= 0,
        ;
    }
    assert(d == 1 ==> got * d == got);
}

/// Numbers that are apart by so much are, times `c`, apart by as many `c`.
pub(crate) proof fn lemma_apart_scaled(a: int, b: int, c: int)
    ensures
        distance(a * c, b * c) == distance(a, b) * size(c),
        size(a * c) == size(a) * size(c),
{
    assert(distance(a * c, b * c) == distance(a, b) * size(c)) by (nonlinear_arith);
    assert(size(a * c) == size(a) * size(c)) by (nonlinear_arith);
}

pub(crate) proof fn lemma_near_product(x: int, y: int, e: int, a: int, b: int, k: int)
    requires
        is_near(x, y, e),
        is_near(a, b, k),
        0 <= e <= 1000,
        0 <= k <= 1000,
    ensures
        is_near(x * a, y * b, e + k + 1),
{
    let (p, q) = (distance(x, y), distance(a, b));
    let (u, v) = (size(y), size(b));
    let n = 0x100_0000int;
    assert(size(y * b) == u * v) by (nonlinear_arith)
        requires
            u == size(y),
            v == size(b),
    ;
    assert(distance(x * a, y * b) <= p * q + p * v + u * q) by {
        assert(x * a - y * b == (x - y) * (a - b) + (x - y) * b + y * (a - b)) by (nonlinear_arith);
        assert(size((x - y) * (a - b)) == p * q) by (nonlinear_arith)
            requires
                p == size(x - y),
                q == size(a - b),
        ;
        assert(size((x - y) * b) == p * v) by (nonlinear_arith)
            requires
                p == size(x - y),
                v == size(b),
        ;
        assert(size(y * (a - b)) == u * q) by (nonlinear_arith)
            requires
                u == size(y),
                q == size(a - b),
        ;
    }
    assert((p * v) * n <= e * (u * v)) by (nonlinear_arith)
        requires
            p * n <= e * u,
            v >= 0,
    ;
    assert((u * q) * n <= k * (u * v)) by (nonlinear_arith)
        requires
            q * n <= k * v,
            u >= 0,
    ;
    assert((p * q) * n <= u * v) by {
        assert((p * n) * (q * n) <= (e * u) * (k * v)) by (nonlinear_arith)
            requires
                0 <= p * n <= e * u,
                0 <= q * n <= k * v,
        ;
        assert((p * n) * (q * n) == (p * q * n) * n) by (nonlinear_arith);
        assert((e * u) * (k * v) == (e * k) * (u * v)) by (nonlinear_arith);
        assert(e * k <= n) by (nonlinear_arith)
            requires
                0 <= e <= 1000,
                0 <= k <= 1000,
                n == 0x100_0000,
        ;
        assert(u * v >= 0) by (nonlinear_arith)
            requires
                u >= 0,
                v >= 0,
        ;
        assert((e * k) * (u * v) <= (u * v) * n) by (nonlinear_arith)
            requires
                e * k <= n,
                u * v >= 0,
        ;
    }
    assert((e + k + 1) * (u * v) == e * (u * v) + k * (u * v) + u * v) by (nonlinear_arith);
}

pub(crate) proof fn lemma_near_trans(x: int, y: int, e: int, z: int, k: int)
    requires
        is_near(x, y, e),
        is_near(y, z, k),
        0 <= e <= 1000,
        0 <= k <= 1000,
    ensures
        is_near(x, z, e + k + 1),
{
    let (p, q) = (distance(x, y), distance(y, z));
    let (u, v) = (size(y), size(z));
    assert(u <= v + q);
    assert(p * 0x100_0000 <= e * v + e * q) by (nonlinear_arith)
        requires
            p * 0x100_0000 <= e * u,
            u <= v + q,
            e >= 0,
    ;
    assert(e * q <= v) by (nonlinear_arith)
        requires
            q * 0x100_0000 <= k * v,
            0 <= e <= 1000,
            0 <= k <= 1000,
            v >= 0,
            q >= 0,
    ;
    assert((e + k + 1) * v == e * v + k * v + v) by (nonlinear_arith);
}

pub(crate) proof fn lemma_near_back(x: int, y: int, e: int)
    requires
        is_near(x, y, e),
        0 <= e <= 1000,
    ensures
        is_near(y, x, e + 1),
{
    let p = distance(x, y);
    let (u, v) = (size(x), size(y));
    assert(v <= u + p);
    assert(p * 0x100_0000 <= e * u + e * p) by (nonlinear_arith)
        requires
            p * 0x100_0000 <= e * v,
            v <= u + p,
            e >= 0,
    ;
    assert(e * p <= u) by (nonlinear_arith)
        requires
            p * 0x100_0000 <= e * u + e * p,
            0 <= e <= 1000,
            u >= 0,
            p >= 0,
    ;
    assert((e + 1) * u == e * u + u) by (nonlinear_arith);
}

pub(crate) proof fn lemma_near_scaled(x: int, y: int, e: int, c: int)
    requires
        is_near(x, y, e),
    ensures
        is_near(x * c, y * c, e),
{
    let p = distance(x, y);
    let u = size(y);
    assert(distance(x * c, y * c) == p * size(c)) by (nonlinear_arith)
        requires
            p == distance(x, y),
    ;
    assert(size(y * c) == u * size(c)) by (nonlinear_arith)
        requires
            u == size(y),
    ;
    assert((p * size(c)) * 0x100_0000 <= e * (u * size(c))) by (nonlinear_arith)
        requires
            p * 0x100_0000 <= e * u,
            size(c) >= 0,
    ;
}

pub(crate) proof fn lemma_near_unscaled(x: int, y: int, e: int, c: int)
    requires
        is_near(x * c, y * c, e),
        c > 0,
    ensures
        is_near(x, y, e),
{
    let p = distance(x, y);
    let u = size(y);
    assert(distance(x * c, y * c) == p * c) by (nonlinear_arith)
        requires
            p == distance(x, y),
            c > 0,
    ;
    assert(size(y * c) == u * c) by (nonlinear_arith)
        requires
            u == size(y),
            c > 0,
    ;
    assert(p * 0x100_0000 <= e * u) by (nonlinear_arith)
        requires
            (p * c) * 0x100_0000 <= e * (u * c),
            c > 0,
    ;
}

} // verus!
