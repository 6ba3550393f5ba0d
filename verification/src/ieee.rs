//! Binary floating-point arithmetic on bit patterns.
//!
//! A finite number of a binary format is a whole multiple of the format's
//! smallest positive number. Seen that way a magnitude is a natural number of
//! units, the exact result of an operation is a ratio of natural numbers, and
//! a correctly rounded result is the representable number [`nearest`] to that
//! ratio, with ties going to the even one.
//!
//! A magnitude is encoded as `level * 2^(p-1) + q`, where `p` is the precision:
//! it stands for `q * 2^level` units.

use vstd::prelude::*;
use vstd::arithmetic::div_mod::{
    lemma_div_non_zero, lemma_fundamental_div_mod, lemma_fundamental_div_mod_converse,
    lemma_mod_pos_bound,
};
use vstd::arithmetic::mul::{
    lemma_mul_inequality, lemma_mul_is_associative, lemma_mul_is_commutative,
};
use vstd::arithmetic::power2::{
    lemma2_to64, lemma2_to64_rest, lemma_pow2_adds, lemma_pow2_pos, lemma_pow2_strictly_increases,
    lemma_pow2_unfold, pow2,
};

pub mod accuracy;
pub mod nearness;
pub mod sums;

verus! {

/// Bits of the single 1.
pub const ONE: u32 = 0x3f80_0000;

// ---------------------------------------------------------------------------
// Rounding a ratio
// ---------------------------------------------------------------------------

/// `k` is the level at which `n / d` needs no more than `p` bits before the point.
pub open spec fn is_level(n: nat, d: nat, p: nat, k: nat) -> bool {
    &&& n < d * pow2(p + k)
    &&& k == 0 || n >= d * pow2((p + k - 1) as nat)
}

/// Rounds a quotient up or not, by the remainder `r` of a division by `unit`:
/// to the nearer side, and to even from the middle.
pub open spec fn round_half_even(q: nat, r: nat, unit: nat) -> nat {
    if 2 * r > unit || (2 * r == unit && q % 2 == 1) {
        q + 1
    } else {
        q
    }
}

/// `n / d` as a whole number of steps of size `2^k`, rounded.
pub open spec fn round_at(n: nat, d: nat, k: nat) -> nat {
    round_half_even(n / (d * pow2(k)), n % (d * pow2(k)), d * pow2(k))
}

/// The encoding of the number of precision `p` that is nearest to `n / d` units.
/// There is no upper limit: see [`capped`].
pub open spec fn nearest(n: nat, d: nat, p: nat) -> nat {
    let k = choose|k: nat| is_level(n, d, p, k);
    k * pow2((p - 1) as nat) + round_at(n, d, k)
}

proof fn lemma_pow2_mono(a: nat, b: nat)
    requires
        a <= b,
    ensures
        pow2(a) <= pow2(b),
{
    if a < b {
        lemma_pow2_strictly_increases(a, b);
    }
}

proof fn lemma_level_unique(n: nat, d: nat, p: nat, a: nat, b: nat)
    requires
        is_level(n, d, p, a),
        is_level(n, d, p, b),
    ensures
        a == b,
    decreases (if a < b { 0int } else { 1int }),
{
    if a < b {
        lemma_pow2_mono(p + a, (p + b - 1) as nat);
        lemma_mul_inequality(pow2(p + a) as int, pow2((p + b - 1) as nat) as int, d as int);
        lemma_mul_is_commutative(pow2(p + a) as int, d as int);
        lemma_mul_is_commutative(pow2((p + b - 1) as nat) as int, d as int);
    } else if b < a {
        lemma_level_unique(n, d, p, b, a);
    }
}

/// The nearest number, given the level.
proof fn lemma_nearest_is(n: nat, d: nat, p: nat, k: nat)
    requires
        is_level(n, d, p, k),
    ensures
        nearest(n, d, p) == k * pow2((p - 1) as nat) + round_at(n, d, k),
{
    let c = choose|k: nat| is_level(n, d, p, k);
    lemma_level_unique(n, d, p, k, c);
}

proof fn lemma_level_below(n: nat, d: nat, p: nat, top: nat) -> (k: nat)
    requires
        n < d * pow2(p + top),
    ensures
        is_level(n, d, p, k),
    decreases top,
{
    if top == 0 || n >= d * pow2((p + top - 1) as nat) {
        top
    } else {
        lemma_level_below(n, d, p, (top - 1) as nat)
    }
}

proof fn lemma_pow2_exceeds(n: nat)
    ensures
        n < pow2(n),
    decreases n,
{
    lemma2_to64();
    if n > 0 {
        lemma_pow2_exceeds((n - 1) as nat);
        lemma_pow2_unfold(n);
    }
}

/// Every ratio has a level.
proof fn lemma_level_exists(n: nat, d: nat, p: nat) -> (k: nat)
    requires
        d > 0,
    ensures
        is_level(n, d, p, k),
{
    lemma_pow2_exceeds(n);
    lemma_pow2_mono(n, p + n);
    assert(n < d * pow2(p + n)) by (nonlinear_arith)
        requires
            n < pow2(p + n),
            d >= 1,
    ;
    lemma_level_below(n, d, p, n)
}

/// Quotient, remainder and their rounding do not change when both sides of a
/// ratio are multiplied by the same number.
proof fn lemma_round_at_scaled(n: nat, d: nat, k: nat, c: nat)
    requires
        d > 0,
        c > 0,
    ensures
        round_at(n * c, d * c, k) == round_at(n, d, k),
{
    let u = d * pow2(k);
    lemma_pow2_pos(k);
    assert(u > 0) by (nonlinear_arith)
        requires
            u == d * pow2(k),
            d > 0,
            pow2(k) > 0,
    ;
    assert(d * c * pow2(k) == u * c) by (nonlinear_arith)
        requires
            u == d * pow2(k),
    ;
    let q = n / u;
    let r = n % u;
    lemma_fundamental_div_mod(n as int, u as int);
    lemma_mod_pos_bound(n as int, u as int);
    assert(n * c == q * (u * c) + r * c) by (nonlinear_arith)
        requires
            n == u * q + r,
    ;
    assert(0 <= r * c < u * c) by (nonlinear_arith)
        requires
            0 <= r < u,
            c > 0,
    ;
    lemma_fundamental_div_mod_converse((n * c) as int, (u * c) as int, q as int, (r * c) as int);
    assert((2 * (r * c) > u * c) == (2 * r > u)) by (nonlinear_arith)
        requires
            c > 0,
    ;
    assert((2 * (r * c) == u * c) == (2 * r == u)) by (nonlinear_arith)
        requires
            c > 0,
    ;
}

proof fn lemma_level_scaled(n: nat, d: nat, p: nat, k: nat, c: nat)
    requires
        c > 0,
    ensures
        is_level(n * c, d * c, p, k) == is_level(n, d, p, k),
{
    let a = pow2(p + k);
    assert((n * c < d * c * a) == (n < d * a)) by (nonlinear_arith)
        requires
            c > 0,
    ;
    if k > 0 {
        let b = pow2((p + k - 1) as nat);
        assert((n * c >= d * c * b) == (n >= d * b)) by (nonlinear_arith)
            requires
                c > 0,
        ;
    }
}

/// Rounding looks at the ratio only.
pub(crate) proof fn lemma_nearest_scaled(n: nat, d: nat, p: nat, c: nat)
    requires
        d > 0,
        c > 0,
    ensures
        nearest(n * c, d * c, p) == nearest(n, d, p),
{
    let k = lemma_level_exists(n, d, p);
    lemma_level_scaled(n, d, p, k, c);
    lemma_nearest_is(n, d, p, k);
    lemma_nearest_is(n * c, d * c, p, k);
    lemma_round_at_scaled(n, d, k, c);
}

/// An inexact quotient with bits to spare may be replaced by the point half a
/// step above its whole part.
proof fn lemma_jam(n: nat, d: nat, p: nat, m: nat, e: nat, h: nat)
    requires
        d > 0,
        p >= 1,
        m == n / d,
        n % d != 0,
        m >= pow2(p + 1),
    ensures
        nearest(n * pow2(e), d * pow2(h), p) == nearest((2 * m + 1) * pow2(e), 2 * pow2(h), p),
{
    let pe = pow2(e);
    let ph = pow2(h);
    lemma_pow2_pos(e);
    lemma_pow2_pos(h);
    let r = (n % d) as nat;
    lemma_fundamental_div_mod(n as int, d as int);
    lemma_mod_pos_bound(n as int, d as int);
    assert(n == m * d + r) by {
        lemma_mul_is_commutative(m as int, d as int);
    }
    let nn = n * pe;
    let dd = d * ph;
    let jn = (2 * m + 1) * pe;
    let jd = 2 * ph;
    assert(jd > 0);
    let k = lemma_level_exists(jn, jd, p);
    // The step is at least four times as coarse as one unit of `m`.
    let pk = pow2(k);
    lemma_pow2_pos(k);
    assert(pe * 4 <= ph * pk) by {
        lemma_pow2_adds(p, k);
        lemma_pow2_adds(p, 1);
        lemma2_to64();
        let pp = pow2(p);
        lemma_pow2_pos(p);
        assert((2 * m + 1) * pe < 2 * ph * (pp * pk));
        assert(m >= 2 * pp);
        assert(4 * pp * pe < 2 * ph * pp * pk) by (nonlinear_arith)
            requires
                (2 * m + 1) * pe < 2 * ph * (pp * pk),
                m >= 2 * pp,
                pe > 0,
                pp > 0,
        ;
        assert(2 * pe < ph * pk) by (nonlinear_arith)
            requires
                4 * pp * pe < 2 * ph * pp * pk,
                pp > 0,
        ;
        lemma_pow2_adds(h, k);
        lemma_pow2_adds(e, 1);
        // Powers of two above 2^(e+1) are at least 2^(e+2).
        if h + k <= e + 1 {
            lemma_pow2_mono(h + k, e + 1);
            assert(false);
        }
        lemma_pow2_mono(e + 2, h + k);
        lemma_pow2_adds(e, 2);
    }
    assert(h + k >= e + 2) by {
        lemma_pow2_adds(h, k);
        lemma_pow2_adds(e, 2);
        lemma2_to64();
        if h + k < e + 2 {
            lemma_pow2_strictly_increases(h + k, e + 2);
        }
    }
    let j = (h + k - e) as nat;
    let g = pow2((j - 1) as nat);
    let qq = 2 * g;
    lemma_pow2_pos((j - 1) as nat);
    lemma_pow2_unfold(j);
    assert(ph * pk == qq * pe) by {
        lemma_pow2_adds(h, k);
        lemma_pow2_adds(e, j);
        lemma_mul_is_commutative(pe as int, qq as int);
    }
    assert(g % 2 == 0 && g >= 2) by {
        lemma_pow2_unfold((j - 1) as nat);
        lemma_pow2_pos((j - 2) as nat);
    }
    // Both ratios have level k.
    assert(is_level(nn, dd, p, k)) by {
        lemma_jam_level(n, d, m, r, pe, ph, p, k, e, h);
    }
    // Both round to the same number of steps.
    let q = m / qq;
    let a = m % qq;
    lemma_fundamental_div_mod(m as int, qq as int);
    lemma_mod_pos_bound(m as int, qq as int);
    // The exact ratio.
    let u1 = dd * pk;
    let r1 = (a * d + r) * pe;
    assert(u1 == qq * d * pe) by (nonlinear_arith)
        requires
            u1 == d * ph * pk,
            ph * pk == qq * pe,
    ;
    assert(nn == q * u1 + r1) by (nonlinear_arith)
        requires
            nn == n * pe,
            n == m * d + r,
            m == qq * q + a,
            u1 == qq * d * pe,
            r1 == (a * d + r) * pe,
    ;
    assert(0 <= r1 < u1) by (nonlinear_arith)
        requires
            r1 == (a * d + r) * pe,
            u1 == qq * d * pe,
            0 <= a,
            a + 1 <= qq,
            0 <= r < d,
            pe > 0,
    ;
    lemma_fundamental_div_mod_converse(nn as int, u1 as int, q as int, r1 as int);
    // The jammed ratio.
    let u2 = jd * pk;
    let r2 = (2 * a + 1) * pe;
    assert(u2 == 2 * qq * pe) by (nonlinear_arith)
        requires
            u2 == 2 * ph * pk,
            ph * pk == qq * pe,
    ;
    assert(jn == q * u2 + r2) by (nonlinear_arith)
        requires
            jn == (2 * m + 1) * pe,
            m == qq * q + a,
            u2 == 2 * qq * pe,
            r2 == (2 * a + 1) * pe,
    ;
    assert(0 <= r2 < u2) by (nonlinear_arith)
        requires
            r2 == (2 * a + 1) * pe,
            u2 == 2 * qq * pe,
            0 <= a,
            a + 1 <= qq,
            pe > 0,
    ;
    lemma_fundamental_div_mod_converse(jn as int, u2 as int, q as int, r2 as int);
    // Neither is in the middle, and both are on the same side of it.
    if a >= g {
        assert(2 * r1 > u1) by (nonlinear_arith)
            requires
                r1 == (a * d + r) * pe,
                u1 == 2 * g * d * pe,
                a >= g,
                r > 0,
                d > 0,
                pe > 0,
        ;
        assert(2 * r2 > u2) by (nonlinear_arith)
            requires
                r2 == (2 * a + 1) * pe,
                u2 == 2 * (2 * g) * pe,
                a >= g,
                pe > 0,
        ;
    } else {
        assert(2 * r1 < u1) by (nonlinear_arith)
            requires
                r1 == (a * d + r) * pe,
                u1 == 2 * g * d * pe,
                a + 1 <= g,
                r < d,
                pe > 0,
        ;
        assert(2 * r2 < u2) by (nonlinear_arith)
            requires
                r2 == (2 * a + 1) * pe,
                u2 == 2 * (2 * g) * pe,
                a + 1 <= g,
                pe > 0,
        ;
    }
    lemma_nearest_is(nn, dd, p, k);
    lemma_nearest_is(jn, jd, p, k);
}

proof fn lemma_jam_level(n: nat, d: nat, m: nat, r: nat, pe: nat, ph: nat, p: nat, k: nat, e: nat, h: nat)
    requires
        d > 0,
        n == m * d + r,
        0 < r < d,
        pe == pow2(e),
        ph == pow2(h),
        is_level((2 * m + 1) * pe, 2 * ph, p, k),
        h + k >= e + 2,
        p >= 1,
    ensures
        is_level(n * pe, d * ph, p, k),
{
    // (2m+1) 2^e < 2 * 2^h * 2^(p+k), both bounds are multiples of 2 * 2^e.
    let w = (h + p + k - e) as nat;
    let x = pow2(w);
    lemma_pow2_adds(h, p + k);
    lemma_pow2_adds(e, w);
    lemma_pow2_pos(e);
    let b = pow2(p + k);
    assert(ph * b == pe * x);
    assert(2 * m + 1 < 2 * x) by (nonlinear_arith)
        requires
            (2 * m + 1) * pe < 2 * ph * b,
            ph * b == pe * x,
            pe > 0,
    ;
    assert(n < d * x) by (nonlinear_arith)
        requires
            n == m * d + r,
            r < d,
            m + 1 <= x,
    ;
    assert(n * pe < d * ph * b) by (nonlinear_arith)
        requires
            n < d * x,
            ph * b == pe * x,
            pe > 0,
    ;
    if k > 0 {
        let w2 = (w - 1) as nat;
        let y = pow2(w2);
        let b2 = pow2((p + k - 1) as nat);
        lemma_pow2_adds(h, (p + k - 1) as nat);
        lemma_pow2_adds(e, w2);
        assert(ph * b2 == pe * y);
        assert(2 * m + 1 >= 2 * y) by (nonlinear_arith)
            requires
                (2 * m + 1) * pe >= 2 * ph * b2,
                ph * b2 == pe * y,
                pe > 0,
        ;
        assert(n >= d * y) by (nonlinear_arith)
            requires
                n == m * d + r,
                m >= y,
        ;
        assert(n * pe >= d * ph * b2) by (nonlinear_arith)
            requires
                n >= d * y,
                ph * b2 == pe * y,
                pe > 0,
        ;
    }
}

// ---------------------------------------------------------------------------
// Formats
// ---------------------------------------------------------------------------

/// A binary interchange format.
#[derive(Debug, Clone, Copy, PartialEq, Eq, Structural)]
pub enum Format {
    /// 32 bits, 24 of them significant.
    Single,
    /// 64 bits, 53 of them significant.
    Double,
    /// 16 bits, 11 of them significant.
    Half,
}

impl Format {
    /// Number of significant bits.
    pub open spec fn precision(self) -> nat {
        match self {
            Format::Single => 24,
            Format::Double => 53,
            Format::Half => 11,
        }
    }

    /// One is `2^bias` units.
    pub open spec fn bias(self) -> nat {
        match self {
            Format::Single => 149,
            Format::Double => 1074,
            Format::Half => 24,
        }
    }

    /// The encoding of infinity; larger encodings are not numbers.
    pub open spec fn infinity(self) -> nat {
        match self {
            Format::Single => 0x7f80_0000,
            Format::Double => 0x7ff0_0000_0000_0000,
            Format::Half => 0x7c00,
        }
    }

    fn precision_exec(self) -> (r: u32)
        ensures
            r == self.precision(),
    {
        match self {
            Format::Single => 24,
            Format::Double => 53,
            Format::Half => 11,
        }
    }

    fn bias_exec(self) -> (r: u32)
        ensures
            r == self.bias(),
    {
        match self {
            Format::Single => 149,
            Format::Double => 1074,
            Format::Half => 24,
        }
    }

    fn infinity_exec(self) -> (r: u64)
        ensures
            r == self.infinity(),
    {
        match self {
            Format::Single => 0x7f80_0000,
            Format::Double => 0x7ff0_0000_0000_0000,
            Format::Half => 0x7c00,
        }
    }

    /// `2^(p-1)`, the weight of a level in an encoding.
    fn level_weight(self) -> (r: u64)
        ensures
            r == pow2((self.precision() - 1) as nat),
    {
        proof {
            lemma2_to64();
            lemma2_to64_rest();
        }
        match self {
            Format::Single => 0x80_0000,
            Format::Double => 0x10_0000_0000_0000,
            Format::Half => 0x400,
        }
    }
}

/// The number of units that the encoding of a finite magnitude stands for.
pub open spec fn units(f: Format, mag: nat) -> nat {
    let w = pow2((f.precision() - 1) as nat);
    if mag < w {
        mag
    } else {
        (w + mag % w) * pow2((mag / w - 1) as nat)
    }
}

/// An encoding beyond the largest finite one becomes infinity.
pub open spec fn capped(f: Format, mag: nat) -> nat {
    if mag < f.infinity() {
        mag
    } else {
        f.infinity()
    }
}

/// `2^k`.
fn power(k: u32) -> (r: u128)
    requires
        k <= 127,
    ensures
        r == pow2(k as nat),
        r > 0,
{
    proof {
        lemma2_to64();
        lemma_pow2_bound_127();
    }
    let mut r: u128 = 1;
    let mut i: u32 = 0;
    while i < k
        invariant
            i <= k,
            k <= 127,
            r == pow2(i as nat),
            pow2(127) <= u128::MAX,
        decreases k - i,
    {
        proof {
            lemma_pow2_unfold((i + 1) as nat);
            lemma_pow2_mono((i + 1) as nat, 127);
        }
        r = r * 2;
        i = i + 1;
    }
    proof {
        lemma_pow2_pos(k as nat);
    }
    r
}

proof fn lemma_pow2_bound_127()
    ensures
        pow2(127) * 2 == 0x1_0000_0000_0000_0000_0000_0000_0000_0000,
        pow2(127) <= u128::MAX,
{
    lemma2_to64_rest();
    lemma_pow2_adds(64, 63);
    lemma2_to64();
    assert(pow2(63) * 2 == pow2(64)) by {
        lemma_pow2_unfold(64);
    }
}

/// Number of bits of `m`.
fn bit_length(m: u128) -> (r: u32)
    ensures
        r <= 128,
        m < pow2(r as nat),
        r > 0 ==> m >= pow2((r - 1) as nat),
{
    let mut t: u128 = m;
    let mut r: u32 = 0;
    proof {
        lemma2_to64();
        lemma_pow2_bound_127();
        lemma_pow2_unfold(128);
    }
    while t > 0
        invariant
            t * pow2(r as nat) <= m < (t + 1) * pow2(r as nat),
            r > 0 ==> m >= pow2((r - 1) as nat),
            r <= 128,
            pow2(128) > u128::MAX,
        decreases t,
    {
        let ghost w = pow2(r as nat);
        let h: u128 = t / 2;
        proof {
            lemma_pow2_unfold((r + 1) as nat);
            lemma_pow2_pos(r as nat);
            assert(m >= w) by (nonlinear_arith)
                requires
                    t * w <= m,
                    t >= 1,
            ;
            assert(h * (2 * w) <= m < (h + 1) * (2 * w)) by (nonlinear_arith)
                requires
                    t * w <= m < (t + 1) * w,
                    2 * h <= t <= 2 * h + 1,
            ;
            if r == 128 {
                assert(false);
            }
        }
        t = h;
        r = r + 1;
    }
    assert(m < pow2(r as nat)) by (nonlinear_arith)
        requires
            m < (0 + 1) * pow2(r as nat),
    ;
    r
}

/// The encoding nearest to `m * 2^e / 2^h` units.
fn round_units(f: Format, m: u128, e: u32, h: u32) -> (r: u64)
    requires
        m < pow2(127),
        e <= 8000,
        h <= 8000,
    ensures
        r == capped(f, nearest(m as nat * pow2(e as nat), pow2(h as nat), f.precision())),
        r <= f.infinity(),
{
    if m == 0 {
        proof {
            lemma_pow2_pos(h as nat);
            lemma_nearest_zero(pow2(e as nat), pow2(h as nat), f.precision());
        }
        return 0;
    }
    let p: u32 = f.precision_exec();
    let len: u32 = bit_length(m);
    // The level: the bits of m * 2^e / 2^h beyond the first p.
    let over: i64 = len as i64 + e as i64 - h as i64 - p as i64;
    let k: u32 = if over > 0 {
        over as u32
    } else {
        0
    };
    let ghost n = m as nat * pow2(e as nat);
    let ghost d = pow2(h as nat);
    let ghost unit = pow2((h + k) as nat);
    proof {
        if len == 0 {
            lemma2_to64();
        }
        lemma_pow2_pos(h as nat);
        lemma_pow2_pos(e as nat);
        lemma_round_level(m as nat, len as nat, e as nat, h as nat, p as nat, k as nat);
        lemma_nearest_is(n, d, p as nat, k as nat);
        lemma_pow2_adds(h as nat, k as nat);
    }
    let inf: u64 = f.infinity_exec();
    let w: u64 = f.level_weight();
    if k >= 2047 || (f == Format::Single && k >= 255) {
        proof {
            let c: int = if f == Format::Single { 255 } else { 2047 };
            assert(k * w >= c * w) by (nonlinear_arith)
                requires
                    k >= c,
                    w >= 0,
            ;
            lemma2_to64();
            lemma2_to64_rest();
        }
        return inf;
    }
    let q: u128;
    if e >= h + k {
        let s: u32 = e - h - k;
        proof {
            // No bits are cut off.
            lemma_exact_shift(m as nat, len as nat, e as nat, h as nat, p as nat, k as nat);
            lemma_pow2_mono(p as nat, 53);
            lemma2_to64_rest();
            lemma_pow2_mono(s as nat, 127);
        }
        assert(s <= 127) by {
            if s > 127 {
                lemma_pow2_mono(128, s as nat);
                lemma_pow2_bound_127();
                lemma_pow2_unfold(128);
                assert(m as nat * pow2(s as nat) >= pow2(s as nat)) by (nonlinear_arith)
                    requires
                        m >= 1,
                ;
            }
        }
        let pw: u128 = power(s);
        q = m * pw;
        proof {
            let qn = (m as nat * pow2(s as nat)) as nat;
            assert(n == qn * unit + 0);
            lemma_pow2_pos((h + k) as nat);
            lemma_fundamental_div_mod_converse(n as int, unit as int, qn as int, 0);
        }
    } else {
        let s: u32 = h + k - e;
        if s > 127 {
            q = 0;
            proof {
                // Less than half a step.
                lemma_pow2_adds(e as nat, s as nat);
                lemma_pow2_mono(128, s as nat);
                lemma_pow2_unfold(128);
                assert(2 * n < unit) by (nonlinear_arith)
                    requires
                        n == m as nat * pow2(e as nat),
                        unit == pow2(e as nat) * pow2(s as nat),
                        2 * (m as nat) < pow2(s as nat),
                        pow2(e as nat) > 0,
                ;
                lemma_fundamental_div_mod_converse(n as int, unit as int, 0, n as int);
            }
        } else {
            let pw: u128 = power(s);
            let whole: u128 = m / pw;
            let rest: u128 = m % pw;
            let half: u128 = pw / 2;
            proof {
                lemma_pow2_adds(e as nat, s as nat);
                lemma_pow2_unfold(s as nat);
                lemma_fundamental_div_mod(m as int, pw as int);
                let pe = pow2(e as nat);
                let r1 = rest as nat * pe;
                assert(n == whole as nat * unit + r1) by (nonlinear_arith)
                    requires
                        n == m as nat * pe,
                        m == pw * whole + rest,
                        unit == pe * pw,
                        r1 == rest as nat * pe,
                ;
                assert(0 <= r1 < unit) by (nonlinear_arith)
                    requires
                        r1 == rest as nat * pe,
                        unit == pe * pw,
                        0 <= rest < pw,
                        pe > 0,
                ;
                lemma_fundamental_div_mod_converse(n as int, unit as int, whole as int, r1 as int);
                assert((2 * r1 > unit) == (2 * rest > pw)) by (nonlinear_arith)
                    requires
                        r1 == rest as nat * pe,
                        unit == pe * pw,
                        pe > 0,
                ;
                assert((2 * r1 == unit) == (2 * rest == pw)) by (nonlinear_arith)
                    requires
                        r1 == rest as nat * pe,
                        unit == pe * pw,
                        pe > 0,
                ;
                assert(pw == 2 * half);
            }
            if rest > half || (rest == half && whole % 2 == 1) {
                assert(whole < u128::MAX) by {
                    assert(whole <= m) by (nonlinear_arith)
                        requires
                            m == pw * whole + rest,
                            pw >= 1,
                    ;
                    lemma_pow2_bound_127();
                }
                q = whole + 1;
            } else {
                q = whole;
            }
        }
    }
    proof {
        assert(q as nat == round_at(n, d, k as nat));
        lemma_round_at_bound(n, d, p as nat, k as nat);
        lemma2_to64();
        lemma2_to64_rest();
        lemma_pow2_mono(p as nat, 53);
        assert(k * w <= 2046 * 0x10_0000_0000_0000) by (nonlinear_arith)
            requires
                k <= 2046,
                0 <= w <= 0x10_0000_0000_0000,
        ;
        lemma_mul_is_commutative(k as int, w as int);
    }
    let mag: u64 = (k as u64) * w + (q as u64);
    if mag < inf {
        mag
    } else {
        inf
    }
}

pub(crate) proof fn lemma_nearest_zero(c: nat, d: nat, p: nat)
    requires
        d > 0,
    ensures
        nearest(0 * c, d, p) == 0,
        nearest(0, d, p) == 0,
{
    assert(0 * c == 0) by (nonlinear_arith);
    lemma_pow2_pos(p);
    lemma_pow2_pos(0);
    assert(d * pow2(p) > 0) by (nonlinear_arith)
        requires
            d > 0,
            pow2(p) > 0,
    ;
    lemma_nearest_is(0, d, p, 0);
    assert(d * pow2(0) > 0) by (nonlinear_arith)
        requires
            d > 0,
            pow2(0) > 0,
    ;
    lemma_fundamental_div_mod_converse(0, (d * pow2(0)) as int, 0, 0);
    assert(0 * pow2((p - 1) as nat) == 0) by (nonlinear_arith);
}

proof fn lemma_round_at_bound(n: nat, d: nat, p: nat, k: nat)
    requires
        d > 0,
        is_level(n, d, p, k),
    ensures
        round_at(n, d, k) <= pow2(p),
{
    let unit = d * pow2(k);
    lemma_pow2_pos(k);
    lemma_pow2_adds(p, k);
    assert(unit > 0) by (nonlinear_arith)
        requires
            unit == d * pow2(k),
            d > 0,
            pow2(k) > 0,
    ;
    assert(n < pow2(p) * unit) by (nonlinear_arith)
        requires
            n < d * pow2(p + k),
            pow2(p + k) == pow2(p) * pow2(k),
            unit == d * pow2(k),
    ;
    lemma_fundamental_div_mod(n as int, unit as int);
    lemma_mod_pos_bound(n as int, unit as int);
    assert(n / unit < pow2(p)) by (nonlinear_arith)
        requires
            n == unit * (n / unit) + n % unit,
            n % unit >= 0,
            n < pow2(p) * unit,
            unit > 0,
    ;
}

proof fn lemma_round_level(m: nat, len: nat, e: nat, h: nat, p: nat, k: nat)
    requires
        len > 0,
        pow2((len - 1) as nat) <= m < pow2(len),
        k == (if len + e - h - p > 0 { len + e - h - p } else { 0 }),
        p >= 1,
    ensures
        is_level(m * pow2(e), pow2(h), p, k),
{
    let pe = pow2(e);
    let ph = pow2(h);
    lemma_pow2_pos(e);
    lemma_pow2_pos(h);
    lemma_pow2_adds(h, p + k);
    lemma_pow2_adds(len, e);
    lemma_pow2_mono(len + e, h + p + k);
    assert(m * pe < ph * pow2(p + k)) by (nonlinear_arith)
        requires
            m < pow2(len),
            pow2(len) * pe <= ph * pow2(p + k),
            pe > 0,
    ;
    if k > 0 {
        lemma_pow2_adds(h, (p + k - 1) as nat);
        lemma_pow2_adds((len - 1) as nat, e);
        assert(len - 1 + e == h + p + k - 1);
        assert(m * pe >= ph * pow2((p + k - 1) as nat)) by (nonlinear_arith)
            requires
                m >= pow2((len - 1) as nat),
                pow2((len - 1) as nat) * pe == ph * pow2((p + k - 1) as nat),
                pe > 0,
        ;
    }
}

proof fn lemma_exact_shift(m: nat, len: nat, e: nat, h: nat, p: nat, k: nat)
    requires
        m < pow2(len),
        k == (if len + e - h - p > 0 { len + e - h - p } else { 0 }),
        e >= h + k,
    ensures
        m * pow2((e - h - k) as nat) < pow2(p),
        m * pow2(e) == m * pow2((e - h - k) as nat) * pow2(h + k),
{
    let s = (e - h - k) as nat;
    lemma_pow2_adds(s, h + k);
    lemma_mul_is_associative(m as int, pow2(s) as int, pow2(h + k) as int);
    lemma_pow2_adds(len, s);
    lemma_pow2_mono(len + s, p);
    lemma_pow2_pos(s);
    assert(m * pow2(s) < pow2(p)) by (nonlinear_arith)
        requires
            m < pow2(len),
            pow2(len) * pow2(s) <= pow2(p),
            pow2(s) > 0,
    ;
}

/// A number of units with no more significant bits than the format has is not
/// changed by rounding, and its encoding is below that of `2^(k + p)` units.
pub proof fn law_exact_units(f: Format, m: nat, k: nat)
    requires
        m < pow2(f.precision()),
    ensures
        units(f, nearest(m * pow2(k), 1, f.precision())) == m * pow2(k),
        nearest(m * pow2(k), 1, f.precision()) < (k + 2) * pow2((f.precision() - 1) as nat),
{
    let p = f.precision();
    let n = m * pow2(k);
    let w = pow2((p - 1) as nat);
    lemma_precision_bound(f);
    lemma_pow2_adds(p, k);
    lemma_pow2_pos(k);
    assert(n < 1 * pow2(p + k)) by (nonlinear_arith)
        requires
            n == m * pow2(k),
            m < pow2(p),
            pow2(p + k) == pow2(p) * pow2(k),
            pow2(k) > 0,
    ;
    let lv = lemma_level_below(n, 1, p, k);
    lemma_nearest_is(n, 1, p, lv);
    if lv > k {
        lemma_pow2_mono(p + k, (p + lv - 1) as nat);
    }
    let q = m * pow2((k - lv) as nat);
    lemma_pow2_adds((k - lv) as nat, lv);
    lemma_pow2_pos(lv);
    assert(n == q * pow2(lv)) by (nonlinear_arith)
        requires
            n == m * pow2(k),
            q == m * pow2((k - lv) as nat),
            pow2(k) == pow2((k - lv) as nat) * pow2(lv),
    ;
    assert(1 * pow2(lv) == pow2(lv));
    lemma_fundamental_div_mod_converse(n as int, pow2(lv) as int, q as int, 0);
    assert(round_at(n, 1, lv) == q);
    lemma_pow2_adds(p, lv);
    assert(q < pow2(p)) by (nonlinear_arith)
        requires
            n == q * pow2(lv),
            n < 1 * pow2(p + lv),
            pow2(p + lv) == pow2(p) * pow2(lv),
            pow2(lv) > 0,
    ;
    let mag = lv * w + q;
    if lv == 0 {
        lemma2_to64();
        assert(lv * w == 0) by (nonlinear_arith)
            requires
                lv == 0,
        ;
        if q >= w {
            lemma_fundamental_div_mod_converse(mag as int, w as int, 1, q - w);
        }
        assert(mag < (k + 2) * w) by (nonlinear_arith)
            requires
                mag < 2 * w,
        ;
        assert(q * pow2(0) == q);
    } else {
        lemma_pow2_adds((p - 1) as nat, lv);
        assert(q >= w) by (nonlinear_arith)
            requires
                n == q * pow2(lv),
                n >= w * pow2(lv),
                pow2(lv) > 0,
        ;
        assert(mag == (lv + 1) * w + (q - w)) by (nonlinear_arith)
            requires
                mag == lv * w + q,
        ;
        lemma_fundamental_div_mod_converse(mag as int, w as int, (lv + 1) as int, q - w);
        assert(mag >= w) by (nonlinear_arith)
            requires
                mag == lv * w + q,
                q >= w,
                w >= 0,
                lv >= 0,
        ;
        assert(mag < (k + 2) * w) by (nonlinear_arith)
            requires
                mag == lv * w + q,
                q < 2 * w,
                lv <= k,
        ;
    }
}

// ---------------------------------------------------------------------------
// Magnitudes
// ---------------------------------------------------------------------------

/// A finite magnitude as `m * 2^k` units.
fn unpack(f: Format, mag: u64) -> (r: (u64, u32))
    requires
        mag < f.infinity(),
    ensures
        units(f, mag as nat) == r.0 as nat * pow2(r.1 as nat),
        r.0 < pow2(f.precision()),
        r.1 > 0 ==> r.0 >= pow2((f.precision() - 1) as nat),
        r.1 <= 2045,
        f == Format::Single ==> r.1 <= 253,
        f == Format::Half ==> r.1 <= 29,
        mag == 0 <==> r.0 == 0,
{
    let w: u64 = f.level_weight();
    proof {
        lemma2_to64();
        lemma2_to64_rest();
        lemma_pow2_unfold(f.precision());
        assert(mag * pow2(0) == mag);
    }
    if mag < w {
        (mag, 0)
    } else {
        proof {
            lemma_fundamental_div_mod(mag as int, w as int);
            let top: int = match f {
                Format::Single => 255,
                Format::Double => 2047,
                Format::Half => 31,
            };
            assert(mag / w < top) by (nonlinear_arith)
                requires
                    mag == w * (mag / w) + mag % w,
                    mag % w >= 0,
                    mag < top * w,
                    w > 0,
            ;
            assert(mag / w >= 1) by (nonlinear_arith)
                requires
                    mag == w * (mag / w) + mag % w,
                    mag % w < w,
                    mag >= w,
            ;
        }
        let k: u64 = mag / w - 1;
        (w + mag % w, k as u32)
    }
}

proof fn lemma_precision_bound(f: Format)
    ensures
        pow2(f.precision()) <= 0x20_0000_0000_0000,
        pow2(f.precision()) == 2 * pow2((f.precision() - 1) as nat),
        pow2((f.precision() - 1) as nat) >= 0x400,
{
    lemma2_to64();
    lemma2_to64_rest();
    lemma_pow2_unfold(f.precision());
}

/// The product of two finite magnitudes.
pub open spec fn product(f: Format, a: nat, b: nat) -> nat {
    capped(f, nearest(units(f, a) * units(f, b), pow2(f.bias()), f.precision()))
}

fn multiply(f: Format, a: u64, b: u64) -> (r: u64)
    requires
        a < f.infinity(),
        b < f.infinity(),
    ensures
        r == product(f, a as nat, b as nat),
        r <= f.infinity(),
{
    let (ma, ka) = unpack(f, a);
    let (mb, kb) = unpack(f, b);
    proof {
        lemma_precision_bound(f);
        assert(ma as nat * mb as nat <= 0x20_0000_0000_0000 * 0x20_0000_0000_0000) by (nonlinear_arith)
            requires
                ma <= 0x20_0000_0000_0000,
                mb <= 0x20_0000_0000_0000,
        ;
        lemma_pow2_bound_127();
        lemma_pow2_adds(ka as nat, kb as nat);
        assert((ma as nat * pow2(ka as nat)) * (mb as nat * pow2(kb as nat)) == (ma as nat * mb as nat) * (pow2(ka as nat)
            * pow2(kb as nat))) by (nonlinear_arith);
    }
    let m: u128 = (ma as u128) * (mb as u128);
    round_units(f, m, ka + kb, f.bias_exec())
}

/// The quotient of two finite magnitudes, the second of which is not zero.
pub open spec fn quotient(f: Format, a: nat, b: nat) -> nat {
    capped(f, nearest(units(f, a) * pow2(f.bias()), units(f, b), f.precision()))
}

fn divide(f: Format, a: u64, b: u64) -> (r: u64)
    requires
        a < f.infinity(),
        0 < b < f.infinity(),
    ensures
        r == quotient(f, a as nat, b as nat),
        r <= f.infinity(),
{
    let (ma, ka) = unpack(f, a);
    let (mb, kb) = unpack(f, b);
    let p: u32 = f.precision_exec();
    let bias: u32 = f.bias_exec();
    let ghost ub = units(f, b as nat);
    proof {
        lemma_pow2_pos(kb as nat);
        assert(ub > 0) by (nonlinear_arith)
            requires
                ub == mb as nat * pow2(kb as nat),
                mb > 0,
                pow2(kb as nat) > 0,
        ;
    }
    if ma == 0 {
        proof {
            assert(units(f, a as nat) == 0) by (nonlinear_arith)
                requires
                    units(f, a as nat) == 0 * pow2(ka as nat),
            ;
            lemma_nearest_zero(pow2(f.bias()), ub, f.precision());
        }
        return 0;
    }
    // Shift the dividend until it has its top bit, and 64 places more.
    let len: u32 = bit_length(ma as u128);
    proof {
        lemma_precision_bound(f);
        if len == 0 {
            lemma2_to64();
        }
        if len > p {
            lemma_pow2_mono(p as nat, (len - 1) as nat);
        }
    }
    let up: u32 = p - len;
    let s: u32 = up + 64;
    let ghost num = ma as nat * pow2(s as nat);
    proof {
        lemma_pow2_adds((len - 1) as nat, s as nat);
        lemma_pow2_adds(len as nat, s as nat);
        assert(num >= pow2((p + 63) as nat)) by (nonlinear_arith)
            requires
                num == ma as nat * pow2(s as nat),
                ma >= pow2((len - 1) as nat),
                pow2((len - 1) as nat) * pow2(s as nat) == pow2((p + 63) as nat),
        ;
        lemma_pow2_pos(s as nat);
        assert(num < pow2((p + 64) as nat)) by (nonlinear_arith)
            requires
                num == ma as nat * pow2(s as nat),
                ma < pow2(len as nat),
                pow2(len as nat) * pow2(s as nat) == pow2((p + 64) as nat),
                pow2(s as nat) > 0,
        ;
        lemma_pow2_mono((p + 64) as nat, 126);
        lemma_pow2_bound_127();
        lemma_pow2_unfold(127);
    }
    let dividend: u128 = (ma as u128) * power(s);
    let m: u128 = dividend / (mb as u128);
    let rest: u128 = dividend % (mb as u128);
    let e: u32 = ka + bias;
    let h: u32 = kb + s;
    proof {
        lemma_fundamental_div_mod(dividend as int, mb as int);
        let pp = f.precision();
        // The exact quotient, with both sides shifted by s.
        lemma_pow2_adds(ka as nat, bias as nat);
        lemma_pow2_adds(kb as nat, s as nat);
        let n0 = units(f, a as nat) * pow2(f.bias());
        assert(n0 * pow2(s as nat) == num * pow2(e as nat)) by (nonlinear_arith)
            requires
                n0 == ma as nat * pow2(ka as nat) * pow2(f.bias()),
                num == ma as nat * pow2(s as nat),
                pow2(e as nat) == pow2(ka as nat) * pow2(f.bias()),
        ;
        assert(ub * pow2(s as nat) == mb as nat * pow2(h as nat)) by (nonlinear_arith)
            requires
                ub == mb as nat * pow2(kb as nat),
                pow2(h as nat) == pow2(kb as nat) * pow2(s as nat),
        ;
        lemma_nearest_scaled(n0, ub, pp, pow2(s as nat));
        assert(m <= dividend) by (nonlinear_arith)
            requires
                dividend == mb * m + rest,
                mb >= 1,
                rest >= 0,
        ;
        if rest == 0 {
            let x = m as nat * pow2(e as nat);
            let y = pow2(h as nat);
            assert(num * pow2(e as nat) == x * mb as nat) by (nonlinear_arith)
                requires
                    num == mb as nat * m as nat,
                    x == m as nat * pow2(e as nat),
            ;
            lemma_mul_is_commutative(mb as int, y as int);
            lemma_pow2_pos(h as nat);
            lemma_nearest_scaled(x, y, pp, mb as nat);
        } else {
            // At least 63 bits, so the remainder can be jammed.
            lemma_pow2_adds(pp, 63);
            lemma_pow2_mono(pp + 1, 62);
            lemma_pow2_unfold(63);
            lemma_pow2_pos(pp);
            lemma_pow2_pos(62);
            assert(m >= pow2(62)) by (nonlinear_arith)
                requires
                    dividend == mb * m + rest,
                    rest < mb,
                    dividend >= pow2(pp) * (2 * pow2(62)),
                    mb < pow2(pp),
                    pow2(62) >= 1,
            ;
            lemma_jam(num, mb as nat, pp, m as nat, e as nat, h as nat);
            lemma_pow2_unfold((h + 1) as nat);
        }
    }
    if rest == 0 {
        round_units(f, m, e, h)
    } else {
        round_units(f, 2 * m + 1, e, h + 1)
    }
}

/// The sum of two finite magnitudes.
pub open spec fn magnitude_sum(f: Format, a: nat, b: nat) -> nat {
    capped(f, nearest(units(f, a) + units(f, b), 1, f.precision()))
}

/// The difference of two finite magnitudes, the first of which is not the smaller.
pub open spec fn magnitude_difference(f: Format, a: nat, b: nat) -> nat {
    capped(f, nearest((units(f, a) - units(f, b)) as nat, 1, f.precision()))
}

/// `m * 2^k` units plus (or minus) `x * 2^y` units, where `k` is far above `y`.
fn combine_far(f: Format, m: u64, k: u32, x: u64, y: u32, minus: bool) -> (r: u64)
    requires
        pow2((f.precision() - 1) as nat) <= m < pow2(f.precision()),
        0 < x < pow2(f.precision()),
        y + 70 < k <= 2045,
    ensures
        r == capped(
            f,
            nearest(
                if minus {
                    (m as nat * pow2(k as nat) - x as nat * pow2(y as nat)) as nat
                } else {
                    m as nat * pow2(k as nat) + x as nat * pow2(y as nat)
                },
                1,
                f.precision(),
            ),
        ),
        r <= f.infinity(),
{
    // In steps of 2^j, m * 2^k is the whole number m * 1024, and x * 2^y is less than one step.
    proof {
        lemma_precision_bound(f);
    }
    let diff: u32 = k - y;
    let j: u32 = diff - 10;
    let whole: u128 = (m as u128) * 1024;
    let base: u128 = if minus {
        whole - 1
    } else {
        whole
    };
    let e: u32 = y + j;
    proof {
        let p = f.precision();
        let d = pow2(j as nat);
        let py = pow2(y as nat);
        lemma_precision_bound(f);
        lemma2_to64();
        lemma2_to64_rest();
        lemma_pow2_adds(y as nat, diff as nat);
        lemma_pow2_adds(10, j as nat);
        lemma_pow2_adds(y as nat, j as nat);
        lemma_pow2_mono(p, 53);
        lemma_pow2_strictly_increases(53, j as nat);
        lemma_pow2_pos(j as nat);
        lemma_pow2_pos(y as nat);
        assert(x < d);
        let mm: nat = m as nat * 1024;
        let n: nat = if minus { (mm * d - x) as nat } else { mm * d + x as nat };
        assert(mm * d >= d) by (nonlinear_arith)
            requires
                mm >= 1,
        ;
        assert(m as nat * pow2(k as nat) == mm * d * py) by (nonlinear_arith)
            requires
                pow2(k as nat) == py * (1024 * d),
                mm == m as nat * 1024,
        ;
        let exact: int = if minus { mm * d * py - x * py } else { mm * d * py + x * py };
        assert(n * py == exact) by (nonlinear_arith)
            requires
                n == (if minus { mm * d - x } else { mm * d + x }),
                exact == (if minus { mm * d * py - x * py } else { mm * d * py + x * py }),
        ;
        let b = base as nat;
        let rest: nat = if minus { (d - x) as nat } else { x as nat };
        assert(n == b * d + rest) by (nonlinear_arith)
            requires
                n == (if minus { mm * d - x } else { mm * d + x }),
                b == (if minus { mm - 1 } else { mm as int }),
                rest == (if minus { d - x } else { x as int }),
        ;
        lemma_fundamental_div_mod_converse(n as int, d as int, b as int, rest as int);
        lemma_pow2_unfold(p + 1);
        assert(b >= pow2(p + 1));
        lemma_jam(n, d, p, b, e as nat, 0);
        // n * 2^e / d == n * 2^y
        assert(n * pow2(e as nat) == n * py * d) by (nonlinear_arith)
            requires
                pow2(e as nat) == py * d,
        ;
        assert(d * pow2(0) == 1 * d);
        lemma_nearest_scaled(n * py, 1, p, d);
        lemma_pow2_bound_127();
        assert(2 * pow2(0) == pow2(1));
    }
    round_units(f, 2 * base + 1, e, 1)
}

fn add_magnitudes(f: Format, a: u64, b: u64) -> (r: u64)
    requires
        a < f.infinity(),
        b < f.infinity(),
    ensures
        r == magnitude_sum(f, a as nat, b as nat),
        r <= f.infinity(),
{
    let (xa, ya) = unpack(f, a);
    let (xb, yb) = unpack(f, b);
    // The one with the higher exponent first.
    let (ma, ka, mb, kb) = if ya >= yb {
        (xa, ya, xb, yb)
    } else {
        (xb, yb, xa, ya)
    };
    let diff: u32 = ka - kb;
    proof {
        lemma_precision_bound(f);
        lemma2_to64();
    }
    if diff > 70 && mb > 0 {
        return combine_far(f, ma, ka, mb, kb, false);
    }
    if diff > 70 {
        proof {
            assert(0 * pow2(kb as nat) == 0) by (nonlinear_arith);
            lemma_pow2_bound_127();
            lemma_pow2_adds(53, 64);
        }
        return round_units(f, ma as u128, ka, 0);
    }
    proof {
        lemma_pow2_adds(kb as nat, diff as nat);
        lemma_pow2_mono(diff as nat, 70);
        lemma_pow2_adds(64, 6);
        lemma2_to64_rest();
        lemma_pow2_bound_127();
        let pd = pow2(diff as nat);
        let py = pow2(kb as nat);
        assert(ma as nat * pd <= 0x20_0000_0000_0000 * (0x1_0000_0000_0000_0000 * 64)) by (nonlinear_arith)
            requires
                ma <= 0x20_0000_0000_0000,
                pd <= 0x1_0000_0000_0000_0000 * 64,
        ;
        assert(ma as nat * pow2(ka as nat) + mb as nat * py == (ma as nat * pd + mb as nat) * py) by (nonlinear_arith)
            requires
                pow2(ka as nat) == py * pd,
        ;
    }
    let m: u128 = (ma as u128) * power(diff) + (mb as u128);
    round_units(f, m, kb, 0)
}

fn subtract_magnitudes(f: Format, a: u64, b: u64) -> (r: u64)
    requires
        a < f.infinity(),
        b <= a,
    ensures
        r == magnitude_difference(f, a as nat, b as nat),
        units(f, b as nat) <= units(f, a as nat),
        r <= f.infinity(),
{
    let (ma, ka) = unpack(f, a);
    let (mb, kb) = unpack(f, b);
    proof {
        lemma_units_ordered(f, b as nat, a as nat);
        lemma_precision_bound(f);
        lemma2_to64();
    }
    proof {
        if kb > ka {
            // The larger encoding has the higher exponent.
            lemma_exponent_ordered(f, ma as nat, ka as nat, mb as nat, kb as nat);
        }
    }
    let diff: u32 = ka - kb;
    if diff > 70 && mb > 0 {
        return combine_far(f, ma, ka, mb, kb, true);
    }
    if diff > 70 {
        proof {
            assert(0 * pow2(kb as nat) == 0) by (nonlinear_arith);
            lemma_pow2_bound_127();
            lemma_pow2_adds(53, 64);
        }
        return round_units(f, ma as u128, ka, 0);
    }
    proof {
        lemma_pow2_adds(kb as nat, diff as nat);
        lemma_pow2_mono(diff as nat, 70);
        lemma_pow2_adds(64, 6);
        lemma2_to64_rest();
        lemma_pow2_bound_127();
        lemma_pow2_pos(kb as nat);
        let pd = pow2(diff as nat);
        let py = pow2(kb as nat);
        assert(ma as nat * pd <= 0x20_0000_0000_0000 * (0x1_0000_0000_0000_0000 * 64)) by (nonlinear_arith)
            requires
                ma <= 0x20_0000_0000_0000,
                pd <= 0x1_0000_0000_0000_0000 * 64,
        ;
        assert(ma as nat * pow2(ka as nat) - mb as nat * py == (ma as nat * pd - mb as nat) * py) by (nonlinear_arith)
            requires
                pow2(ka as nat) == py * pd,
        ;
        assert(ma as nat * pd - mb as nat >= 0) by (nonlinear_arith)
            requires
                (ma as nat * pd - mb as nat) * py >= 0,
                py > 0,
        ;
    }
    let m: u128 = (ma as u128) * power(diff) - (mb as u128);
    round_units(f, m, kb, 0)
}

proof fn lemma_exponent_ordered(f: Format, ma: nat, ka: nat, mb: nat, kb: nat)
    requires
        ma < pow2(f.precision()),
        mb >= pow2((f.precision() - 1) as nat),
        ka < kb,
    ensures
        ma * pow2(ka) < mb * pow2(kb),
{
    let p = f.precision();
    lemma_pow2_adds(p, ka);
    lemma_pow2_adds((p - 1) as nat, kb);
    lemma_pow2_mono(p + ka, (p - 1 + kb) as nat);
    lemma_pow2_pos(ka);
    lemma_pow2_pos(kb);
    assert(ma * pow2(ka) < pow2(p + ka)) by (nonlinear_arith)
        requires
            ma < pow2(p),
            pow2(p + ka) == pow2(p) * pow2(ka),
            pow2(ka) > 0,
    ;
    assert(mb * pow2(kb) >= pow2((p - 1 + kb) as nat)) by (nonlinear_arith)
        requires
            mb >= pow2((p - 1) as nat),
            pow2((p - 1 + kb) as nat) == pow2((p - 1) as nat) * pow2(kb),
    ;
}

/// A larger encoding stands for a larger number.
pub proof fn lemma_units_ordered(f: Format, a: nat, b: nat)
    requires
        a <= b,
    ensures
        units(f, a) <= units(f, b),
        a < b ==> units(f, a) < units(f, b),
{
    if a < b {
        let w = pow2((f.precision() - 1) as nat);
        lemma_precision_bound(f);
        lemma2_to64();
        if a < w && b >= w {
            let k = (b / w - 1) as nat;
            lemma_fundamental_div_mod(b as int, w as int);
            lemma_div_non_zero(b as int, w as int);
            lemma_pow2_pos(k);
            assert((w + b % w) * pow2(k) >= w) by (nonlinear_arith)
                requires
                    pow2(k) >= 1,
                    b % w >= 0,
            ;
        } else if a >= w {
            lemma_fundamental_div_mod(a as int, w as int);
            lemma_fundamental_div_mod(b as int, w as int);
            let ea = a / w;
            let eb = b / w;
            assert(ea >= 1 && ea <= eb) by (nonlinear_arith)
                requires
                    a == w * ea + a % w,
                    b == w * eb + b % w,
                    a % w < w,
                    b % w < w,
                    0 <= a % w,
                    0 <= b % w,
                    w <= a < b,
            ;
            let ma = (w + a % w) as nat;
            let mb = (w + b % w) as nat;
            if ea < eb {
                lemma_exponent_ordered(f, ma, (ea - 1) as nat, mb, (eb - 1) as nat);
            } else {
                lemma_pow2_pos((ea - 1) as nat);
                assert(ma * pow2((ea - 1) as nat) < mb * pow2((ea - 1) as nat)) by (nonlinear_arith)
                    requires
                        ma < mb,
                        pow2((ea - 1) as nat) > 0,
                ;
            }
        }
    }
}

// ---------------------------------------------------------------------------
// Square roots
// ---------------------------------------------------------------------------

/// `q` is the whole part of the square root of `n`.
pub open spec fn is_root(n: nat, q: nat) -> bool {
    q * q <= n < (q + 1) * (q + 1)
}

/// The whole part of the square root of `n`.
pub open spec fn root_of(n: nat) -> nat {
    choose|q: nat| is_root(n, q)
}

/// `k` is the level of the square root of `n` units squared.
pub open spec fn is_root_level(n: nat, p: nat, k: nat) -> bool {
    &&& n < pow2(2 * (p + k))
    &&& k == 0 || n >= pow2((2 * (p + k - 1)) as nat)
}

/// `q` steps of size `2^k`, rounded up where the square root of `n` is closer
/// to the next step.
pub open spec fn root_steps(n: nat, k: nat, q: nat) -> nat {
    let middle = (2 * q + 1) * (2 * q + 1) * pow2(2 * k);
    if 4 * n > middle || (4 * n == middle && q % 2 == 1) {
        q + 1
    } else {
        q
    }
}

/// The encoding of the number of precision `p` that is nearest to the square
/// root of `n` units squared.
pub open spec fn nearest_root(n: nat, p: nat) -> nat {
    let k = choose|k: nat| is_root_level(n, p, k);
    k * pow2((p - 1) as nat) + root_steps(n, k, root_of(n / pow2(2 * k)))
}

proof fn lemma_root_unique(n: nat, a: nat, b: nat)
    requires
        is_root(n, a),
        is_root(n, b),
    ensures
        a == b,
{
    if a < b {
        assert((a + 1) * (a + 1) <= b * b) by (nonlinear_arith)
            requires
                a + 1 <= b,
        ;
    } else if b < a {
        assert((b + 1) * (b + 1) <= a * a) by (nonlinear_arith)
            requires
                b + 1 <= a,
        ;
    }
}

proof fn lemma_root_level_unique(n: nat, p: nat, a: nat, b: nat)
    requires
        is_root_level(n, p, a),
        is_root_level(n, p, b),
    ensures
        a == b,
{
    if a < b {
        lemma_pow2_mono(2 * (p + a), (2 * (p + b - 1)) as nat);
    } else if b < a {
        lemma_pow2_mono(2 * (p + b), (2 * (p + a - 1)) as nat);
    }
}

proof fn lemma_nearest_root_is(n: nat, p: nat, k: nat, q: nat)
    requires
        is_root_level(n, p, k),
        is_root(n / pow2(2 * k), q),
    ensures
        nearest_root(n, p) == k * pow2((p - 1) as nat) + root_steps(n, k, q),
{
    let c = choose|k: nat| is_root_level(n, p, k);
    lemma_root_level_unique(n, p, k, c);
    lemma_root_unique(n / pow2(2 * k), q, root_of(n / pow2(2 * k)));
}

/// With bits to spare, the square root of `m * 4^g` rounds like `s * 2^g`,
/// where `s` is the whole part of the square root of `m`, or like the point half
/// a step above it where the root is not whole.
proof fn lemma_root_jam(m: nat, s: nat, g: nat, p: nat)
    requires
        is_root(m, s),
        p >= 1,
        s >= pow2(p + 1),
    ensures
        nearest_root(m * pow2(2 * g), p) == if m == s * s {
            nearest(s * pow2(g), 1, p)
        } else {
            nearest((2 * s + 1) * pow2(g), 2, p)
        },
{
    let pg = pow2(g);
    lemma_pow2_pos(g);
    let n = m * pow2(2 * g);
    lemma_pow2_adds(g, g);
    // The level of (2s+1) 2^g / 2.
    let k = lemma_level_exists((2 * s + 1) * pg, 2, p);
    let pk = pow2(k);
    lemma_pow2_pos(k);
    lemma_pow2_pos(p);
    assert(k >= g + 2) by {
        if k <= g + 1 {
            lemma_pow2_adds(p, k);
            lemma_pow2_mono(k, g + 1);
            lemma_pow2_unfold(g + 1);
            lemma_pow2_unfold(p + 1);
            let pp = pow2(p);
            assert((2 * s + 1) * pg < 2 * (pp * pk));
            assert(false) by (nonlinear_arith)
                requires
                    (2 * s + 1) * pg < 2 * (pp * pk),
                    pk <= 2 * pg,
                    s >= 2 * pp,
                    pp > 0,
                    pg > 0,
            ;
        }
    }
    let j = (k - g) as nat;
    let half = pow2((j - 1) as nat);
    let step = 2 * half;
    lemma_pow2_unfold(j);
    lemma_pow2_pos((j - 1) as nat);
    lemma_pow2_unfold((j - 1) as nat);
    lemma_pow2_adds(g, j);
    assert(pk == pg * step);
    let q = s / step;
    let a = s % step;
    lemma_fundamental_div_mod(s as int, step as int);
    lemma_mod_pos_bound(s as int, step as int);
    // Level of the root.
    assert(is_root_level(n, p, k)) by {
        let x = pow2((p + j) as nat);
        lemma_pow2_adds(g, (p + j) as nat);
        assert(p + k == g + (p + j));
        assert(2 * s + 1 < 2 * x) by (nonlinear_arith)
            requires
                (2 * s + 1) * pg < 2 * (pg * x),
                pg > 0,
        ;
        lemma_pow2_adds(p + k, p + k);
        assert(m < x * x) by (nonlinear_arith)
            requires
                m < (s + 1) * (s + 1),
                s + 1 <= x,
        ;
        assert(m * (pg * pg) < (pg * x) * (pg * x)) by (nonlinear_arith)
            requires
                m < x * x,
                pg > 0,
        ;
        assert(2 * (p + k) == (p + k) + (p + k));
        let y = pow2((p + j - 1) as nat);
        lemma_pow2_adds(g, (p + j - 1) as nat);
        assert(p + k - 1 == g + (p + j - 1));
        assert(2 * s + 1 >= 2 * y) by (nonlinear_arith)
            requires
                (2 * s + 1) * pg >= 2 * (pg * y),
                pg > 0,
        ;
        let e1 = (p + k - 1) as nat;
        lemma_pow2_adds(e1, e1);
        assert(m >= y * y) by (nonlinear_arith)
            requires
                m >= s * s,
                s >= y,
        ;
        assert(m * (pg * pg) >= (pg * y) * (pg * y)) by (nonlinear_arith)
            requires
                m >= y * y,
        ;
        assert(2 * (p + k - 1) == e1 + e1);
    }
    // Whole steps of the root.
    let big = step * step;
    assert(pow2(2 * k) == (pg * pg) * big) by {
        lemma_pow2_adds(k, k);
        assert(2 * k == k + k);
        assert((pg * step) * (pg * step) == (pg * pg) * (step * step)) by (nonlinear_arith);
    }
    assert(is_root(n / pow2(2 * k), q)) by {
        let c = (pg * pg) as nat;
        assert(c > 0 && big > 0) by (nonlinear_arith)
            requires
                c == pg * pg,
                big == step * step,
                pg > 0,
                step > 0,
        ;
        let t = m / big;
        lemma_fundamental_div_mod(m as int, big as int);
        lemma_mod_pos_bound(m as int, big as int);
        let r = m % big;
        assert(n == t * (c * big) + r * c) by (nonlinear_arith)
            requires
                n == m * c,
                m == big * t + r,
        ;
        assert(0 <= r * c < c * big) by (nonlinear_arith)
            requires
                0 <= r < big,
                c > 0,
        ;
        lemma_fundamental_div_mod_converse(n as int, (c * big) as int, t as int, (r * c) as int);
        assert(q * q <= t) by (nonlinear_arith)
            requires
                s == step * q + a,
                a >= 0,
                m >= s * s,
                m == big * t + r,
                r < big,
                big == step * step,
                step > 0,
                q >= 0,
        ;
        assert(t < (q + 1) * (q + 1)) by (nonlinear_arith)
            requires
                s == step * q + a,
                a < step,
                m < (s + 1) * (s + 1),
                m == big * t + r,
                r >= 0,
                big == step * step,
                step > 0,
                s >= 0,
        ;
    }
    lemma_nearest_root_is(n, p, k, q);
    // Where the middle between two steps lies.
    let c = (q * step + half) as nat;
    let middle = (2 * q + 1) * (2 * q + 1) * pow2(2 * k);
    assert(middle == 4 * (c * c) * (pg * pg)) by (nonlinear_arith)
        requires
            middle == (2 * q + 1) * (2 * q + 1) * ((pg * pg) * (step * step)),
            c == q * step + half,
            step == 2 * half,
    ;
    assert((4 * n > middle) == (m > c * c)) by (nonlinear_arith)
        requires
            n == m * (pg * pg),
            middle == 4 * (c * c) * (pg * pg),
            pg > 0,
    ;
    assert((4 * n == middle) == (m == c * c)) by (nonlinear_arith)
        requires
            n == m * (pg * pg),
            middle == 4 * (c * c) * (pg * pg),
            pg > 0,
    ;
    lemma_mul_is_commutative(q as int, step as int);
    if m == s * s {
        // A whole root.
        assert(is_level(s * pg, 1, p, k)) by {
            lemma_whole_level(s, g, p, k);
        }
        lemma_nearest_is(s * pg, 1, p, k);
        let r1 = a * pg;
        assert(s * pg == q * pk + r1) by (nonlinear_arith)
            requires
                s == step * q + a,
                pk == pg * step,
                r1 == a * pg,
        ;
        assert(0 <= r1 < pk) by (nonlinear_arith)
            requires
                r1 == a * pg,
                pk == pg * step,
                0 <= a < step,
                pg > 0,
        ;
        lemma_fundamental_div_mod_converse((s * pg) as int, pk as int, q as int, r1 as int);
        assert((2 * r1 > pk) == (a > half)) by (nonlinear_arith)
            requires
                r1 == a * pg,
                pk == pg * (2 * half),
                pg > 0,
        ;
        assert((2 * r1 == pk) == (a == half)) by (nonlinear_arith)
            requires
                r1 == a * pg,
                pk == pg * (2 * half),
                pg > 0,
        ;
        assert((s * s > c * c) == (s > c)) by (nonlinear_arith)
            requires
                s >= 0,
                c >= 0,
        ;
        assert((s * s == c * c) == (s == c)) by (nonlinear_arith)
            requires
                s >= 0,
                c >= 0,
        ;
        assert(1 * pk == pk);
    } else {
        lemma_nearest_is((2 * s + 1) * pg, 2, p, k);
        let u2 = 2 * pk;
        let r2 = (2 * a + 1) * pg;
        assert((2 * s + 1) * pg == q * u2 + r2) by (nonlinear_arith)
            requires
                s == step * q + a,
                u2 == 2 * (pg * step),
                r2 == (2 * a + 1) * pg,
        ;
        assert(0 <= r2 < u2) by (nonlinear_arith)
            requires
                r2 == (2 * a + 1) * pg,
                u2 == 2 * (pg * step),
                0 <= a,
                a + 1 <= step,
                pg > 0,
        ;
        lemma_fundamental_div_mod_converse(((2 * s + 1) * pg) as int, u2 as int, q as int, r2 as int);
        if a >= half {
            assert(m > c * c) by (nonlinear_arith)
                requires
                    m > s * s,
                    s >= c,
                    c >= 0,
            ;
            assert(2 * r2 > u2) by (nonlinear_arith)
                requires
                    r2 == (2 * a + 1) * pg,
                    u2 == 2 * (pg * (2 * half)),
                    a >= half,
                    pg > 0,
            ;
        } else {
            assert(m < c * c) by (nonlinear_arith)
                requires
                    m < (s + 1) * (s + 1),
                    s + 1 <= c,
                    s >= 0,
            ;
            assert(2 * r2 < u2) by (nonlinear_arith)
                requires
                    r2 == (2 * a + 1) * pg,
                    u2 == 2 * (pg * (2 * half)),
                    a + 1 <= half,
                    pg > 0,
            ;
        }
    }
}

proof fn lemma_whole_level(s: nat, g: nat, p: nat, k: nat)
    requires
        is_level((2 * s + 1) * pow2(g), 2, p, k),
        k >= g + 2,
    ensures
        is_level(s * pow2(g), 1, p, k),
{
    let pg = pow2(g);
    lemma_pow2_pos(g);
    let x = pow2((p + k - g) as nat);
    lemma_pow2_adds(g, (p + k - g) as nat);
    assert(2 * s + 1 < 2 * x) by (nonlinear_arith)
        requires
            (2 * s + 1) * pg < 2 * (pg * x),
            pg > 0,
    ;
    assert(s * pg < 1 * (pg * x)) by (nonlinear_arith)
        requires
            s < x,
            pg > 0,
    ;
    let y = pow2((p + k - 1 - g) as nat);
    lemma_pow2_adds(g, (p + k - 1 - g) as nat);
    assert(2 * s + 1 >= 2 * y) by (nonlinear_arith)
        requires
            (2 * s + 1) * pg >= 2 * (pg * y),
            pg > 0,
    ;
    assert(s * pg >= 1 * (pg * y)) by (nonlinear_arith)
        requires
            s >= y,
    ;
}

/// The whole part of a square root.
fn whole_root(n: u128) -> (r: u64)
    requires
        n < pow2(124),
    ensures
        is_root(n as nat, r as nat),
{
    proof {
        lemma_pow2_adds(62, 62);
        lemma2_to64_rest();
        lemma2_to64();
    }
    // Bisection: lo * lo <= n < hi * hi.
    let mut lo: u64 = 0;
    let mut hi: u64 = 0x4000_0000_0000_0000;
    assert(n < (hi as nat) * (hi as nat));
    while hi - lo > 1
        invariant
            lo < hi <= 0x4000_0000_0000_0000,
            (lo as nat) * (lo as nat) <= n < (hi as nat) * (hi as nat),
        decreases hi - lo,
    {
        let mid: u64 = lo + (hi - lo) / 2;
        assert((mid as nat) * (mid as nat) <= 0x4000_0000_0000_0000 * 0x4000_0000_0000_0000) by (nonlinear_arith)
            requires
                mid <= 0x4000_0000_0000_0000,
        ;
        if (mid as u128) * (mid as u128) <= n {
            lo = mid;
        } else {
            hi = mid;
        }
    }
    assert(hi == lo + 1);
    lo
}

/// The square root of a finite magnitude.
pub open spec fn magnitude_root(f: Format, a: nat) -> nat {
    capped(f, nearest_root(units(f, a) * pow2(f.bias()), f.precision()))
}

fn root(f: Format, a: u64) -> (r: u64)
    requires
        f != Format::Half,
        0 < a < f.infinity(),
    ensures
        r == magnitude_root(f, a as nat),
        r <= f.infinity(),
{
    let (m, k) = unpack(f, a);
    let p: u32 = f.precision_exec();
    let bias: u32 = f.bias_exec();
    let len: u32 = bit_length(m as u128);
    proof {
        lemma_precision_bound(f);
        if len == 0 {
            lemma2_to64();
        }
        if len > p {
            lemma_pow2_mono(p as nat, (len - 1) as nat);
        }
    }
    // m * 2^(k + bias) is wide * 4^g, with wide of 2p+4 or 2p+5 bits.
    let e: u32 = k + bias;
    let t0: u32 = 2 * p + 4 - len;
    let t: u32 = if (e + t0) % 2 == 0 {
        t0
    } else {
        t0 + 1
    };
    let ghost wide = m as nat * pow2(t as nat);
    proof {
        lemma_pow2_adds((len - 1) as nat, t as nat);
        lemma_pow2_adds(len as nat, t as nat);
        lemma_pow2_pos(t as nat);
        assert(wide >= pow2((len - 1 + t) as nat)) by (nonlinear_arith)
            requires
                wide == m as nat * pow2(t as nat),
                m >= pow2((len - 1) as nat),
                pow2((len - 1) as nat) * pow2(t as nat) == pow2((len - 1 + t) as nat),
        ;
        assert(wide < pow2((len + t) as nat)) by (nonlinear_arith)
            requires
                wide == m as nat * pow2(t as nat),
                m < pow2(len as nat),
                pow2(len as nat) * pow2(t as nat) == pow2((len + t) as nat),
                pow2(t as nat) > 0,
        ;
        lemma_pow2_mono((2 * p + 3) as nat, (len - 1 + t) as nat);
        lemma_pow2_mono((len + t) as nat, 124);
        lemma_pow2_mono(124, 127);
        lemma_pow2_bound_127();
    }
    let w: u128 = (m as u128) * power(t);
    let s: u64 = whole_root(w);
    let rest: bool = (s as u128) * (s as u128) != w;
    // k + bias - t is even; it may be negative.
    let ghost g = (e - t) / 2;
    proof {
        let pp = f.precision();
        lemma_pow2_adds((pp + 1) as nat, (pp + 1) as nat);
        lemma_pow2_mono((2 * pp + 2) as nat, (2 * pp + 3) as nat);
        assert(s >= pow2(pp + 1)) by {
            let b = pow2(pp + 1);
            if s < b {
                assert((s + 1) * (s + 1) <= b * b) by (nonlinear_arith)
                    requires
                        s + 1 <= b,
                        s >= 0,
                ;
            }
        }
        lemma_pow2_pos(k as nat);
        assert(e >= t);
        lemma_root_jam(w as nat, s as nat, g as nat, pp);
        lemma_pow2_adds(k as nat, bias as nat);
        lemma_pow2_adds(t as nat, (2 * g) as nat);
        assert(units(f, a as nat) * pow2(f.bias()) == w as nat * pow2((2 * g) as nat)) by (nonlinear_arith)
            requires
                units(f, a as nat) == m as nat * pow2(k as nat),
                pow2(e as nat) == pow2(k as nat) * pow2(f.bias()),
                pow2(e as nat) == pow2(t as nat) * pow2((2 * g) as nat),
                w == m as nat * pow2(t as nat),
        ;
        lemma2_to64();
        assert(s < pow2(62)) by {
            lemma2_to64_rest();
            lemma_pow2_adds(62, 62);
            if s >= 0x4000_0000_0000_0000 {
                assert(s as nat * s as nat >= 0x4000_0000_0000_0000 * 0x4000_0000_0000_0000) by (nonlinear_arith)
                    requires
                        s >= 0x4000_0000_0000_0000,
                ;
            }
        }
        lemma_pow2_mono(64, 127);
        lemma_pow2_mono(62, 64);
        lemma2_to64_rest();
    }
    let half: u32 = (e - t) / 2;
    if rest {
        round_units(f, 2 * (s as u128) + 1, half, 1)
    } else {
        round_units(f, s as u128, half, 0)
    }
}

// ---------------------------------------------------------------------------
// Signed numbers
// ---------------------------------------------------------------------------

/// A number: whether its sign bit is set, and the encoding of its magnitude.
pub struct Parts {
    pub negative: bool,
    pub magnitude: nat,
}

/// What an operation without a result gives.
pub open spec fn not_a_number(f: Format) -> Parts {
    Parts {
        negative: false,
        magnitude: match f {
            Format::Single => 0x7fc0_0000,
            Format::Double => 0x7ff8_0000_0000_0000,
            Format::Half => 0x7e00,
        },
    }
}

pub open spec fn is_nan(f: Format, x: Parts) -> bool {
    x.magnitude > f.infinity()
}

pub open spec fn is_infinite(f: Format, x: Parts) -> bool {
    x.magnitude == f.infinity()
}

/// The value of a number in units. Infinity comes out larger than every finite number.
pub open spec fn value(f: Format, x: Parts) -> int {
    if x.negative {
        -(units(f, x.magnitude) as int)
    } else {
        units(f, x.magnitude) as int
    }
}

/// The number nearest to `v` units; zero gets the given sign.
pub open spec fn rounded(f: Format, v: int, zero_negative: bool) -> Parts {
    if v == 0 {
        Parts { negative: zero_negative, magnitude: 0 }
    } else if v > 0 {
        Parts { negative: false, magnitude: capped(f, nearest(v as nat, 1, f.precision())) }
    } else {
        Parts { negative: true, magnitude: capped(f, nearest((-v) as nat, 1, f.precision())) }
    }
}

/// `a + b`
pub open spec fn sum(f: Format, a: Parts, b: Parts) -> Parts {
    if is_nan(f, a) || is_nan(f, b) {
        not_a_number(f)
    } else if is_infinite(f, a) {
        if is_infinite(f, b) && a.negative != b.negative {
            not_a_number(f)
        } else {
            a
        }
    } else if is_infinite(f, b) {
        b
    } else {
        rounded(f, value(f, a) + value(f, b), a.negative && b.negative)
    }
}

/// `-a`
pub open spec fn negated(a: Parts) -> Parts {
    Parts { negative: !a.negative, magnitude: a.magnitude }
}

/// `a * b`
pub open spec fn times(f: Format, a: Parts, b: Parts) -> Parts {
    if is_nan(f, a) || is_nan(f, b) {
        not_a_number(f)
    } else if is_infinite(f, a) || is_infinite(f, b) {
        if a.magnitude == 0 || b.magnitude == 0 {
            not_a_number(f)
        } else {
            Parts { negative: a.negative != b.negative, magnitude: f.infinity() }
        }
    } else {
        Parts {
            negative: a.negative != b.negative,
            magnitude: product(f, a.magnitude, b.magnitude),
        }
    }
}

/// `a / b`
pub open spec fn over(f: Format, a: Parts, b: Parts) -> Parts {
    if is_nan(f, a) || is_nan(f, b) {
        not_a_number(f)
    } else if is_infinite(f, a) {
        if is_infinite(f, b) {
            not_a_number(f)
        } else {
            Parts { negative: a.negative != b.negative, magnitude: f.infinity() }
        }
    } else if is_infinite(f, b) {
        Parts { negative: a.negative != b.negative, magnitude: 0 }
    } else if b.magnitude == 0 {
        if a.magnitude == 0 {
            not_a_number(f)
        } else {
            Parts { negative: a.negative != b.negative, magnitude: f.infinity() }
        }
    } else {
        Parts {
            negative: a.negative != b.negative,
            magnitude: quotient(f, a.magnitude, b.magnitude),
        }
    }
}

/// The square root of `a`.
pub open spec fn square_root(f: Format, a: Parts) -> Parts {
    if is_nan(f, a) {
        not_a_number(f)
    } else if a.magnitude == 0 {
        a
    } else if a.negative {
        not_a_number(f)
    } else if is_infinite(f, a) {
        a
    } else {
        Parts { negative: false, magnitude: magnitude_root(f, a.magnitude) }
    }
}

/// `a < b`, which is false where either is not a number.
pub open spec fn less(f: Format, a: Parts, b: Parts) -> bool {
    !is_nan(f, a) && !is_nan(f, b) && value(f, a) < value(f, b)
}

#[derive(Clone, Copy)]
struct Number {
    negative: bool,
    magnitude: u64,
}

impl Number {
    spec fn parts(self) -> Parts {
        Parts { negative: self.negative, magnitude: self.magnitude as nat }
    }
}

fn make_nan(f: Format) -> (r: Number)
    ensures
        r.parts() == not_a_number(f),
{
    match f {
        Format::Single => Number { negative: false, magnitude: 0x7fc0_0000 },
        Format::Double => Number { negative: false, magnitude: 0x7ff8_0000_0000_0000 },
        Format::Half => Number { negative: false, magnitude: 0x7e00 },
    }
}

proof fn lemma_units_zero(f: Format, mag: nat)
    ensures
        units(f, mag) == 0 <==> mag == 0,
{
    lemma_precision_bound(f);
    lemma_units_ordered(f, 0, mag);
}

fn add_numbers(f: Format, a: Number, b: Number) -> (r: Number)
    ensures
        r.parts() == sum(f, a.parts(), b.parts()),
{
    let inf: u64 = f.infinity_exec();
    if a.magnitude > inf || b.magnitude > inf {
        return make_nan(f);
    }
    if a.magnitude == inf {
        if b.magnitude == inf && a.negative != b.negative {
            return make_nan(f);
        }
        return a;
    }
    if b.magnitude == inf {
        return b;
    }
    proof {
        lemma_units_zero(f, a.magnitude as nat);
        lemma_units_zero(f, b.magnitude as nat);
    }
    if a.negative == b.negative {
        if a.magnitude == 0 && b.magnitude == 0 {
            return a;
        }
        Number { negative: a.negative, magnitude: add_magnitudes(f, a.magnitude, b.magnitude) }
    } else if a.magnitude == b.magnitude {
        Number { negative: false, magnitude: 0 }
    } else if a.magnitude > b.magnitude {
        proof {
            lemma_units_ordered(f, b.magnitude as nat, a.magnitude as nat);
        }
        Number { negative: a.negative, magnitude: subtract_magnitudes(f, a.magnitude, b.magnitude) }
    } else {
        proof {
            lemma_units_ordered(f, a.magnitude as nat, b.magnitude as nat);
        }
        Number { negative: b.negative, magnitude: subtract_magnitudes(f, b.magnitude, a.magnitude) }
    }
}

fn multiply_numbers(f: Format, a: Number, b: Number) -> (r: Number)
    ensures
        r.parts() == times(f, a.parts(), b.parts()),
{
    let inf: u64 = f.infinity_exec();
    if a.magnitude > inf || b.magnitude > inf {
        return make_nan(f);
    }
    let negative: bool = a.negative != b.negative;
    if a.magnitude == inf || b.magnitude == inf {
        if a.magnitude == 0 || b.magnitude == 0 {
            return make_nan(f);
        }
        return Number { negative, magnitude: inf };
    }
    Number { negative, magnitude: multiply(f, a.magnitude, b.magnitude) }
}

fn divide_numbers(f: Format, a: Number, b: Number) -> (r: Number)
    ensures
        r.parts() == over(f, a.parts(), b.parts()),
{
    let inf: u64 = f.infinity_exec();
    if a.magnitude > inf || b.magnitude > inf {
        return make_nan(f);
    }
    let negative: bool = a.negative != b.negative;
    if a.magnitude == inf {
        if b.magnitude == inf {
            return make_nan(f);
        }
        return Number { negative, magnitude: inf };
    }
    if b.magnitude == inf {
        return Number { negative, magnitude: 0 };
    }
    if b.magnitude == 0 {
        if a.magnitude == 0 {
            return make_nan(f);
        }
        return Number { negative, magnitude: inf };
    }
    Number { negative, magnitude: divide(f, a.magnitude, b.magnitude) }
}

fn root_number(f: Format, a: Number) -> (r: Number)
    requires
        f != Format::Half,
    ensures
        r.parts() == square_root(f, a.parts()),
{
    let inf: u64 = f.infinity_exec();
    if a.magnitude > inf {
        return make_nan(f);
    }
    if a.magnitude == 0 {
        return a;
    }
    if a.negative {
        return make_nan(f);
    }
    if a.magnitude == inf {
        return a;
    }
    Number { negative: false, magnitude: root(f, a.magnitude) }
}

fn less_numbers(f: Format, a: Number, b: Number) -> (r: bool)
    ensures
        r == less(f, a.parts(), b.parts()),
{
    let inf: u64 = f.infinity_exec();
    if a.magnitude > inf || b.magnitude > inf {
        return false;
    }
    proof {
        lemma_units_zero(f, a.magnitude as nat);
        lemma_units_zero(f, b.magnitude as nat);
        if a.magnitude <= b.magnitude {
            lemma_units_ordered(f, a.magnitude as nat, b.magnitude as nat);
        } else {
            lemma_units_ordered(f, b.magnitude as nat, a.magnitude as nat);
        }
    }
    if a.negative {
        if b.negative {
            b.magnitude < a.magnitude
        } else {
            a.magnitude != 0 || b.magnitude != 0
        }
    } else if b.negative {
        false
    } else {
        a.magnitude < b.magnitude
    }
}

// ---------------------------------------------------------------------------
// Bit patterns
// ---------------------------------------------------------------------------

/// The number with a 32-bit pattern.
pub open spec fn single(bits: u32) -> Parts {
    Parts { negative: bits >= 0x8000_0000, magnitude: (bits % 0x8000_0000) as nat }
}

/// The number with a 64-bit pattern.
pub open spec fn double(bits: u64) -> Parts {
    Parts {
        negative: bits >= 0x8000_0000_0000_0000,
        magnitude: (bits % 0x8000_0000_0000_0000) as nat,
    }
}

/// The 32-bit pattern of a number.
pub open spec fn bits_of_single(x: Parts) -> u32 {
    (x.magnitude + (if x.negative { 0x8000_0000nat } else { 0nat })) as u32
}

/// The 64-bit pattern of a number.
pub open spec fn bits_of_double(x: Parts) -> u64 {
    (x.magnitude + (if x.negative { 0x8000_0000_0000_0000nat } else { 0nat })) as u64
}

fn from_single(bits: u32) -> (r: Number)
    ensures
        r.parts() == single(bits),
        r.magnitude < 0x8000_0000,
{
    Number { negative: bits >= 0x8000_0000, magnitude: (bits % 0x8000_0000) as u64 }
}

fn to_single(x: Number) -> (r: u32)
    requires
        x.magnitude < 0x8000_0000,
    ensures
        r == bits_of_single(x.parts()),
        single(r) == x.parts(),
{
    if x.negative {
        x.magnitude as u32 + 0x8000_0000
    } else {
        x.magnitude as u32
    }
}

fn from_double(bits: u64) -> (r: Number)
    ensures
        r.parts() == double(bits),
        r.magnitude < 0x8000_0000_0000_0000,
{
    Number {
        negative: bits >= 0x8000_0000_0000_0000,
        magnitude: bits % 0x8000_0000_0000_0000,
    }
}

fn to_double(x: Number) -> (r: u64)
    requires
        x.magnitude < 0x8000_0000_0000_0000,
    ensures
        r == bits_of_double(x.parts()),
        double(r) == x.parts(),
{
    if x.negative {
        x.magnitude + 0x8000_0000_0000_0000
    } else {
        x.magnitude
    }
}

/// `a + b` in single precision.
#[verifier::opaque]
pub open spec fn sum32(a: u32, b: u32) -> u32 {
    bits_of_single(sum(Format::Single, single(a), single(b)))
}

/// `a - b` in single precision.
#[verifier::opaque]
pub open spec fn difference32(a: u32, b: u32) -> u32 {
    bits_of_single(sum(Format::Single, single(a), negated(single(b))))
}

/// `a * b` in single precision.
#[verifier::opaque]
pub open spec fn product32(a: u32, b: u32) -> u32 {
    bits_of_single(times(Format::Single, single(a), single(b)))
}

/// `a / b` in single precision.
#[verifier::opaque]
pub open spec fn quotient32(a: u32, b: u32) -> u32 {
    bits_of_single(over(Format::Single, single(a), single(b)))
}

/// `a < b` in single precision.
#[verifier::opaque]
pub open spec fn less32(a: u32, b: u32) -> bool {
    less(Format::Single, single(a), single(b))
}

/// `a` is not a number.
#[verifier::opaque]
pub open spec fn nan32(a: u32) -> bool {
    is_nan(Format::Single, single(a))
}

/// Numbers are ordered: what is not below something below another is not below that one.
pub proof fn lemma_order32(a: u32, b: u32, c: u32)
    requires
        !nan32(a),
        !nan32(b),
        !nan32(c),
    ensures
        !less32(a, b) && !less32(b, c) ==> !less32(a, c),
        less32(a, b) && !less32(c, b) ==> less32(a, c),
        less32(a, b) ==> !less32(b, a),
{
    reveal(less32);
    reveal(nan32);
}

/// `a + b` in single precision.
pub fn add32(a: u32, b: u32) -> (r: u32)
    ensures
        r == sum32(a, b),
{
    proof {
        reveal(sum32);
    }
    let x: Number = add_numbers(Format::Single, from_single(a), from_single(b));
    assert(x.magnitude < 0x8000_0000);
    to_single(x)
}

/// `a - b` in single precision.
pub fn sub32(a: u32, b: u32) -> (r: u32)
    ensures
        r == difference32(a, b),
{
    proof {
        reveal(difference32);
    }
    let y: Number = from_single(b);
    let x: Number = add_numbers(
        Format::Single,
        from_single(a),
        Number { negative: !y.negative, magnitude: y.magnitude },
    );
    assert(x.magnitude < 0x8000_0000);
    to_single(x)
}

/// `a * b` in single precision.
pub fn mul32(a: u32, b: u32) -> (r: u32)
    ensures
        r == product32(a, b),
{
    proof {
        reveal(product32);
    }
    let x: Number = multiply_numbers(Format::Single, from_single(a), from_single(b));
    assert(x.magnitude < 0x8000_0000);
    to_single(x)
}

/// `a / b` in single precision.
pub fn div32(a: u32, b: u32) -> (r: u32)
    ensures
        r == quotient32(a, b),
{
    proof {
        reveal(quotient32);
    }
    let x: Number = divide_numbers(Format::Single, from_single(a), from_single(b));
    assert(x.magnitude < 0x8000_0000);
    to_single(x)
}

/// `a < b` in single precision.
pub fn lt32(a: u32, b: u32) -> (r: bool)
    ensures
        r == less32(a, b),
{
    proof {
        reveal(less32);
    }
    less_numbers(Format::Single, from_single(a), from_single(b))
}

/// The square root of `a` in single precision.
#[verifier::opaque]
pub open spec fn root32(a: u32) -> u32 {
    bits_of_single(square_root(Format::Single, single(a)))
}

/// The square root of `a` in single precision.
pub fn sqrt32(a: u32) -> (r: u32)
    ensures
        r == root32(a),
{
    proof {
        reveal(root32);
    }
    let x: Number = root_number(Format::Single, from_single(a));
    assert(x.magnitude < 0x8000_0000);
    to_single(x)
}

/// Whether a pattern is not a number.
pub fn is_nan32(a: u32) -> (r: bool)
    ensures
        r == nan32(a),
{
    proof {
        reveal(nan32);
    }
    a % 0x8000_0000 > 0x7f80_0000
}

/// `a + b` in double precision.
#[verifier::opaque]
pub open spec fn sum64(a: u64, b: u64) -> u64 {
    bits_of_double(sum(Format::Double, double(a), double(b)))
}

/// `a - b` in double precision.
#[verifier::opaque]
pub open spec fn difference64(a: u64, b: u64) -> u64 {
    bits_of_double(sum(Format::Double, double(a), negated(double(b))))
}

/// `a * b` in double precision.
#[verifier::opaque]
pub open spec fn product64(a: u64, b: u64) -> u64 {
    bits_of_double(times(Format::Double, double(a), double(b)))
}

/// `a / b` in double precision.
#[verifier::opaque]
pub open spec fn quotient64(a: u64, b: u64) -> u64 {
    bits_of_double(over(Format::Double, double(a), double(b)))
}

/// The square root of `a` in double precision.
#[verifier::opaque]
pub open spec fn root64(a: u64) -> u64 {
    bits_of_double(square_root(Format::Double, double(a)))
}

/// `a + b` in double precision.
pub fn add64(a: u64, b: u64) -> (r: u64)
    ensures
        r == sum64(a, b),
{
    proof {
        reveal(sum64);
    }
    let x: Number = add_numbers(Format::Double, from_double(a), from_double(b));
    assert(x.magnitude < 0x8000_0000_0000_0000);
    to_double(x)
}

/// `a - b` in double precision.
pub fn sub64(a: u64, b: u64) -> (r: u64)
    ensures
        r == difference64(a, b),
{
    proof {
        reveal(difference64);
    }
    let y: Number = from_double(b);
    let x: Number = add_numbers(
        Format::Double,
        from_double(a),
        Number { negative: !y.negative, magnitude: y.magnitude },
    );
    assert(x.magnitude < 0x8000_0000_0000_0000);
    to_double(x)
}

/// `a * b` in double precision.
pub fn mul64(a: u64, b: u64) -> (r: u64)
    ensures
        r == product64(a, b),
{
    proof {
        reveal(product64);
    }
    let x: Number = multiply_numbers(Format::Double, from_double(a), from_double(b));
    assert(x.magnitude < 0x8000_0000_0000_0000);
    to_double(x)
}

/// `a / b` in double precision.
pub fn div64(a: u64, b: u64) -> (r: u64)
    ensures
        r == quotient64(a, b),
{
    proof {
        reveal(quotient64);
    }
    let x: Number = divide_numbers(Format::Double, from_double(a), from_double(b));
    assert(x.magnitude < 0x8000_0000_0000_0000);
    to_double(x)
}

/// The square root of `a` in double precision.
pub fn sqrt64(a: u64) -> (r: u64)
    ensures
        r == root64(a),
{
    proof {
        reveal(root64);
    }
    let x: Number = root_number(Format::Double, from_double(a));
    assert(x.magnitude < 0x8000_0000_0000_0000);
    to_double(x)
}

// ---------------------------------------------------------------------------
// Conversions
// ---------------------------------------------------------------------------

/// A single-precision number in double precision. One single unit is `2^925` double units.
#[verifier::opaque]
pub open spec fn widened(a: u32) -> u64 {
    let x = single(a);
    if is_nan(Format::Single, x) {
        bits_of_double(not_a_number(Format::Double))
    } else if is_infinite(Format::Single, x) {
        bits_of_double(Parts { negative: x.negative, magnitude: Format::Double.infinity() })
    } else {
        bits_of_double(
            Parts {
                negative: x.negative,
                magnitude: capped(
                    Format::Double,
                    nearest(units(Format::Single, x.magnitude) * pow2(925), 1, 53),
                ),
            },
        )
    }
}

/// A double-precision number in single precision.
#[verifier::opaque]
pub open spec fn narrowed(a: u64) -> u32 {
    let x = double(a);
    if is_nan(Format::Double, x) {
        bits_of_single(not_a_number(Format::Single))
    } else if is_infinite(Format::Double, x) {
        bits_of_single(Parts { negative: x.negative, magnitude: Format::Single.infinity() })
    } else {
        bits_of_single(
            Parts {
                negative: x.negative,
                magnitude: capped(
                    Format::Single,
                    nearest(units(Format::Double, x.magnitude), pow2(925), 24),
                ),
            },
        )
    }
}

/// A single-precision number in double precision.
pub fn widen(a: u32) -> (r: u64)
    ensures
        r == widened(a),
{
    proof {
        reveal(widened);
    }
    let x: Number = from_single(a);
    if x.magnitude > 0x7f80_0000 {
        return to_double(make_nan(Format::Double));
    }
    if x.magnitude == 0x7f80_0000 {
        return to_double(Number { negative: x.negative, magnitude: 0x7ff0_0000_0000_0000 });
    }
    let (m, k) = unpack(Format::Single, x.magnitude);
    proof {
        lemma_precision_bound(Format::Single);
        lemma_pow2_bound_127();
        lemma2_to64();
        lemma_pow2_adds(k as nat, 925);
        lemma_mul_is_associative(m as int, pow2(k as nat) as int, pow2(925) as int);
    }
    let mag: u64 = round_units(Format::Double, m as u128, k + 925, 0);
    to_double(Number { negative: x.negative, magnitude: mag })
}

/// A double-precision number in single precision.
pub fn narrow(a: u64) -> (r: u32)
    ensures
        r == narrowed(a),
{
    proof {
        reveal(narrowed);
    }
    let x: Number = from_double(a);
    if x.magnitude > 0x7ff0_0000_0000_0000 {
        return to_single(make_nan(Format::Single));
    }
    if x.magnitude == 0x7ff0_0000_0000_0000 {
        return to_single(Number { negative: x.negative, magnitude: 0x7f80_0000 });
    }
    let (m, k) = unpack(Format::Double, x.magnitude);
    proof {
        lemma_precision_bound(Format::Double);
        lemma_pow2_bound_127();
    }
    let mag: u64 = round_units(Format::Single, m as u128, k, 925);
    to_single(Number { negative: x.negative, magnitude: mag })
}

/// The number with a 16-bit pattern.
pub open spec fn half(bits: u16) -> Parts {
    Parts { negative: bits >= 0x8000, magnitude: (bits % 0x8000) as nat }
}

/// The 16-bit pattern of a number.
pub open spec fn bits_of_half(x: Parts) -> u16 {
    (x.magnitude + (if x.negative { 0x8000nat } else { 0nat })) as u16
}

/// A half-precision number in single precision. One half unit is `2^125` single units.
#[verifier::opaque]
pub open spec fn single_of_half(a: u16) -> u32 {
    let x = half(a);
    if is_nan(Format::Half, x) {
        bits_of_single(not_a_number(Format::Single))
    } else if is_infinite(Format::Half, x) {
        bits_of_single(Parts { negative: x.negative, magnitude: Format::Single.infinity() })
    } else {
        bits_of_single(
            Parts {
                negative: x.negative,
                magnitude: capped(
                    Format::Single,
                    nearest(units(Format::Half, x.magnitude) * pow2(125), 1, 24),
                ),
            },
        )
    }
}

/// A single-precision number in half precision.
#[verifier::opaque]
pub open spec fn half_of_single(a: u32) -> u16 {
    let x = single(a);
    if is_nan(Format::Single, x) {
        bits_of_half(not_a_number(Format::Half))
    } else if is_infinite(Format::Single, x) {
        bits_of_half(Parts { negative: x.negative, magnitude: Format::Half.infinity() })
    } else {
        bits_of_half(
            Parts {
                negative: x.negative,
                magnitude: capped(
                    Format::Half,
                    nearest(units(Format::Single, x.magnitude), pow2(125), 11),
                ),
            },
        )
    }
}

fn to_half(x: Number) -> (r: u16)
    requires
        x.magnitude < 0x8000,
    ensures
        r == bits_of_half(x.parts()),
{
    if x.negative {
        x.magnitude as u16 + 0x8000
    } else {
        x.magnitude as u16
    }
}

/// A half-precision number in single precision.
pub fn from_half(a: u16) -> (r: u32)
    ensures
        r == single_of_half(a),
{
    proof {
        reveal(single_of_half);
    }
    let x: Number = Number { negative: a >= 0x8000, magnitude: (a % 0x8000) as u64 };
    if x.magnitude > 0x7c00 {
        return to_single(make_nan(Format::Single));
    }
    if x.magnitude == 0x7c00 {
        return to_single(Number { negative: x.negative, magnitude: 0x7f80_0000 });
    }
    let (m, k) = unpack(Format::Half, x.magnitude);
    proof {
        lemma_precision_bound(Format::Half);
        lemma_pow2_bound_127();
        lemma2_to64();
        lemma_pow2_adds(k as nat, 125);
        lemma_mul_is_associative(m as int, pow2(k as nat) as int, pow2(125) as int);
    }
    let mag: u64 = round_units(Format::Single, m as u128, k + 125, 0);
    to_single(Number { negative: x.negative, magnitude: mag })
}

/// A single-precision number in half precision.
pub fn narrow_to_half(a: u32) -> (r: u16)
    ensures
        r == half_of_single(a),
{
    proof {
        reveal(half_of_single);
    }
    let x: Number = from_single(a);
    if x.magnitude > 0x7f80_0000 {
        return to_half(make_nan(Format::Half));
    }
    if x.magnitude == 0x7f80_0000 {
        return to_half(Number { negative: x.negative, magnitude: 0x7c00 });
    }
    let (m, k) = unpack(Format::Single, x.magnitude);
    proof {
        lemma_precision_bound(Format::Single);
        lemma_pow2_bound_127();
    }
    let mag: u64 = round_units(Format::Half, m as u128, k, 125);
    to_half(Number { negative: x.negative, magnitude: mag })
}

/// A whole number in single precision.
#[verifier::opaque]
pub open spec fn single_of(n: nat) -> u32 {
    capped(Format::Single, nearest(n * pow2(149), 1, 24)) as u32
}

/// A whole number in single precision.
pub fn from_whole(n: u64) -> (r: u32)
    ensures
        r == single_of(n as nat),
{
    proof {
        reveal(single_of);
    }
    proof {
        lemma_pow2_bound_127();
        lemma2_to64();
    }
    round_units(Format::Single, n as u128, 149, 0) as u32
}

/// A whole number with its sign in single precision.
pub open spec fn single_of_int(n: int) -> u32 {
    if n < 0 {
        flipped(single_of((-n) as nat))
    } else {
        single_of(n as nat)
    }
}

/// A single with the other sign.
pub open spec fn flipped(a: u32) -> u32 {
    a ^ 0x8000_0000
}

/// A whole number with its sign in single precision.
pub fn from_int(n: i64) -> (r: u32)
    ensures
        r == single_of_int(n as int),
{
    if n < 0 {
        let m: u64 = (-(n + 1)) as u64 + 1;
        from_whole(m) ^ 0x8000_0000
    } else {
        from_whole(n as u64)
    }
}

/// The whole number nearest to a magnitude, halves going up.
pub open spec fn whole(mag: nat) -> nat {
    (2 * units(Format::Single, mag) + pow2(149)) / (2 * pow2(149))
}

/// The nearest whole number (halves away from zero), as an index: what lies
/// below zero or is not a number becomes zero, what is too large the largest index.
#[verifier::opaque]
pub open spec fn index_of(a: u32) -> usize {
    let x = single(a);
    if is_nan(Format::Single, x) || x.negative {
        0
    } else if is_infinite(Format::Single, x) || whole(x.magnitude) > usize::MAX {
        usize::MAX
    } else {
        whole(x.magnitude) as usize
    }
}

/// The largest whole number that is not above a magnitude.
pub open spec fn whole_below(mag: nat) -> nat {
    units(Format::Single, mag) / pow2(149)
}

/// The whole number up to which a single counts, as an index: what lies below
/// zero or is not a number becomes zero, what is too large the largest index.
#[verifier::opaque]
pub open spec fn index_below(a: u32) -> usize {
    let x = single(a);
    if is_nan(Format::Single, x) || x.negative {
        0
    } else if is_infinite(Format::Single, x) || whole_below(x.magnitude) > usize::MAX {
        usize::MAX
    } else {
        whole_below(x.magnitude) as usize
    }
}

/// The nearest whole number (halves away from zero) between -128 and 127; zero
/// where `a` is not a number.
#[verifier::opaque]
pub open spec fn byte_of(a: u32) -> i8 {
    let x = single(a);
    if is_nan(Format::Single, x) {
        0
    } else if x.negative {
        if is_infinite(Format::Single, x) || whole(x.magnitude) > 128 {
            -128i8
        } else {
            (-(whole(x.magnitude) as int)) as i8
        }
    } else if is_infinite(Format::Single, x) || whole(x.magnitude) > 127 {
        127
    } else {
        whole(x.magnitude) as i8
    }
}

/// The nearest whole number, or `2^100` where it is at least that.
fn whole_of(mag: u64) -> (r: u128)
    requires
        mag < 0x7f80_0000,
    ensures
        whole(mag as nat) < pow2(100) ==> r == whole(mag as nat),
        whole(mag as nat) >= pow2(100) ==> r == pow2(100),
{
    let (m, k) = unpack(Format::Single, mag);
    proof {
        lemma_precision_bound(Format::Single);
        lemma_pow2_pos(149);
        lemma2_to64();
    }
    let ghost one = pow2(149);
    if k >= 149 {
        let s: u32 = k - 149;
        proof {
            lemma_pow2_adds(149, s as nat);
            let ps = pow2(s as nat);
            let x = m as nat * ps;
            assert(2 * (m as nat * pow2(k as nat)) + one == x * (2 * one) + one) by (nonlinear_arith)
                requires
                    pow2(k as nat) == one * ps,
                    x == m as nat * ps,
            ;
            lemma_fundamental_div_mod_converse(
                (2 * (m as nat * pow2(k as nat)) + one) as int,
                (2 * one) as int,
                x as int,
                one as int,
            );
        }
        if s > 90 {
            proof {
                lemma_pow2_mono(91, s as nat);
                lemma_pow2_adds(23, 91);
                lemma_pow2_mono(100, 114);
                assert(m as nat * pow2(s as nat) >= pow2(23) * pow2(91)) by (nonlinear_arith)
                    requires
                        m >= pow2(23),
                        pow2(s as nat) >= pow2(91),
                ;
            }
            return power(100);
        }
        proof {
            lemma_pow2_mono(s as nat, 90);
            lemma_pow2_adds(24, 90);
            lemma_pow2_mono(114, 127);
            lemma_pow2_bound_127();
            lemma_pow2_pos(s as nat);
            assert(m as nat * pow2(s as nat) <= pow2(24) * pow2(90)) by (nonlinear_arith)
                requires
                    m <= pow2(24),
                    pow2(s as nat) <= pow2(90),
            ;
        }
        let r: u128 = (m as u128) * power(s);
        let top: u128 = power(100);
        if r < top {
            r
        } else {
            top
        }
    } else {
        let s: u32 = 149 - k;
        proof {
            lemma_pow2_adds(k as nat, s as nat);
            lemma_pow2_unfold(s as nat);
            lemma_pow2_pos(k as nat);
            lemma_pow2_pos((s - 1) as nat);
            lemma_pow2_strictly_increases(24, 100);
        }
        let ghost pk = pow2(k as nat);
        let ghost half = pow2((s - 1) as nat);
        if s > 100 {
            proof {
                lemma_pow2_mono(99, (s - 1) as nat);
                lemma_pow2_strictly_increases(24, 99);
                // Less than a half.
                assert(2 * (m as nat * pk) + one < 2 * one) by (nonlinear_arith)
                    requires
                        one == pk * (2 * half),
                        m < half,
                        pk > 0,
                ;
                lemma_fundamental_div_mod_converse(
                    (2 * (m as nat * pk) + one) as int,
                    (2 * one) as int,
                    0,
                    (2 * (m as nat * pk) + one) as int,
                );
            }
            return 0;
        }
        let h: u128 = power(s - 1);
        proof {
            lemma_pow2_mono((s - 1) as nat, 99);
            lemma_pow2_unfold(100);
            lemma_pow2_adds(64, 36);
            lemma2_to64_rest();
        }
        let x: u128 = (m as u128) + h;
        let unit: u128 = 2 * h;
        let r: u128 = x / unit;
        proof {
            lemma_fundamental_div_mod(x as int, unit as int);
            let rest = x % unit;
            let n = 2 * (m as nat * pk) + one;
            assert(n == r * (2 * one) + rest * (2 * pk)) by (nonlinear_arith)
                requires
                    n == 2 * (m as nat * pk) + one,
                    one == pk * (2 * half),
                    x == m + half,
                    x == unit * r + rest,
                    unit == 2 * half,
            ;
            assert(0 <= rest * (2 * pk) < 2 * one) by (nonlinear_arith)
                requires
                    0 <= rest < unit,
                    unit == 2 * half,
                    one == pk * (2 * half),
                    pk > 0,
            ;
            lemma_fundamental_div_mod_converse(n as int, (2 * one) as int, r as int, rest * (2 * pk));
            assert(r <= x) by (nonlinear_arith)
                requires
                    x == unit * r + rest,
                    unit >= 1,
                    rest >= 0,
            ;
            assert(r < pow2(100)) by {
                lemma_pow2_mono(24, 99);
                assert(x < pow2(100));
            }
        }
        r
    }
}

/// The largest whole number that is not above, or `2^100` where it is at least that.
fn floor_of(mag: u64) -> (r: u128)
    requires
        mag < 0x7f80_0000,
    ensures
        whole_below(mag as nat) < pow2(100) ==> r == whole_below(mag as nat),
        whole_below(mag as nat) >= pow2(100) ==> r == pow2(100),
{
    let (m, k) = unpack(Format::Single, mag);
    proof {
        lemma_precision_bound(Format::Single);
        lemma_pow2_pos(149);
        lemma2_to64();
    }
    let ghost one = pow2(149);
    if k >= 149 {
        proof {
            let ps = pow2((k - 149) as nat);
            let x = m as nat * ps;
            lemma_pow2_adds(149, (k - 149) as nat);
            assert(m as nat * pow2(k as nat) == x * one) by (nonlinear_arith)
                requires
                    pow2(k as nat) == one * ps,
                    x == m as nat * ps,
            ;
            lemma_fundamental_div_mod_converse((x * one) as int, one as int, x as int, 0);
            assert(2 * (x * one) + one == x * (2 * one) + one) by (nonlinear_arith);
            lemma_fundamental_div_mod_converse(
                (2 * (x * one) + one) as int,
                (2 * one) as int,
                x as int,
                one as int,
            );
        }
        return whole_of(mag);
    }
    let s: u32 = 149 - k;
    let ghost pk = pow2(k as nat);
    let ghost unit = pow2(s as nat);
    proof {
        lemma_pow2_adds(k as nat, s as nat);
        lemma_pow2_pos(k as nat);
        lemma_pow2_pos(s as nat);
        lemma_pow2_pos(100);
    }
    if s > 24 {
        proof {
            lemma_pow2_mono(24, s as nat);
            assert(m as nat * pk < one) by (nonlinear_arith)
                requires
                    m < unit,
                    one == pk * unit,
                    pk > 0,
            ;
            lemma_fundamental_div_mod_converse(
                (m as nat * pk) as int,
                one as int,
                0,
                (m as nat * pk) as int,
            );
        }
        return 0;
    }
    let x: u128 = m as u128;
    let u: u128 = power(s);
    let r: u128 = x / u;
    proof {
        lemma_fundamental_div_mod(x as int, u as int);
        let rest = x % u;
        assert(m as nat * pk == r * one + rest * pk) by (nonlinear_arith)
            requires
                one == pk * u,
                x == m,
                x == u * r + rest,
        ;
        assert(0 <= rest * pk < one) by (nonlinear_arith)
            requires
                0 <= rest < u,
                one == pk * u,
                pk > 0,
        ;
        lemma_fundamental_div_mod_converse((m as nat * pk) as int, one as int, r as int, rest * pk);
        assert(r <= x) by (nonlinear_arith)
            requires
                x == u * r + rest,
                u >= 1,
                rest >= 0,
        ;
        lemma_pow2_strictly_increases(24, 100);
    }
    r
}

/// Count up to an index.
pub fn to_index_below(a: u32) -> (r: usize)
    ensures
        r == index_below(a),
{
    proof {
        reveal(index_below);
    }
    let x: Number = from_single(a);
    if x.magnitude > 0x7f80_0000 || x.negative {
        return 0;
    }
    if x.magnitude == 0x7f80_0000 {
        return usize::MAX;
    }
    let w: u128 = floor_of(x.magnitude);
    proof {
        lemma2_to64_rest();
        lemma_pow2_strictly_increases(64, 100);
    }
    if w > usize::MAX as u128 {
        usize::MAX
    } else {
        w as usize
    }
}

/// Round to an index.
pub fn to_index(a: u32) -> (r: usize)
    ensures
        r == index_of(a),
{
    proof {
        reveal(index_of);
    }
    let x: Number = from_single(a);
    if x.magnitude > 0x7f80_0000 || x.negative {
        return 0;
    }
    if x.magnitude == 0x7f80_0000 {
        return usize::MAX;
    }
    let w: u128 = whole_of(x.magnitude);
    proof {
        lemma2_to64_rest();
        lemma_pow2_strictly_increases(64, 100);
    }
    if w > usize::MAX as u128 {
        usize::MAX
    } else {
        w as usize
    }
}

/// Round to a signed byte.
pub fn to_byte(a: u32) -> (r: i8)
    ensures
        r == byte_of(a),
{
    proof {
        reveal(byte_of);
    }
    let x: Number = from_single(a);
    if x.magnitude > 0x7f80_0000 {
        return 0;
    }
    if x.magnitude == 0x7f80_0000 {
        return if x.negative {
            -128
        } else {
            127
        };
    }
    let w: u128 = whole_of(x.magnitude);
    proof {
        lemma2_to64_rest();
        lemma_pow2_strictly_increases(64, 100);
    }
    if x.negative {
        if w > 128 {
            -128
        } else {
            (-(w as i64)) as i8
        }
    } else if w > 127 {
        127
    } else {
        w as i8
    }
}

// ---------------------------------------------------------------------------
// Going to a wider format and back
// ---------------------------------------------------------------------------

/// The number of levels of the finite numbers, and one.
spec fn level_count(f: Format) -> nat {
    match f {
        Format::Single => 255,
        Format::Double => 2047,
        Format::Half => 31,
    }
}

proof fn lemma_level_count(f: Format)
    ensures
        f.infinity() == level_count(f) * pow2((f.precision() - 1) as nat),
{
    lemma2_to64();
    lemma2_to64_rest();
    assert(255nat * 0x80_0000 == 0x7f80_0000);
    assert(2047nat * 0x10_0000_0000_0000 == 0x7ff0_0000_0000_0000);
    assert(31nat * 0x400 == 0x7c00);
}

/// A finite magnitude as `m * 2^k` units.
proof fn lemma_units_parts(f: Format, mag: nat) -> (r: (nat, nat))
    requires
        mag < f.infinity(),
    ensures
        units(f, mag) == r.0 * pow2(r.1),
        r.0 < pow2(f.precision()),
        r.1 + 2 <= level_count(f),
{
    let w = pow2((f.precision() - 1) as nat);
    lemma_precision_bound(f);
    lemma_level_count(f);
    lemma2_to64();
    let top = level_count(f);
    if mag < w {
        assert(mag * pow2(0) == mag);
        (mag, 0)
    } else {
        lemma_fundamental_div_mod(mag as int, w as int);
        lemma_mod_pos_bound(mag as int, w as int);
        assert(mag / w < top) by (nonlinear_arith)
            requires
                mag == w * (mag / w) + mag % w,
                mag % w >= 0,
                mag < top * w,
                w > 0,
        ;
        lemma_div_non_zero(mag as int, w as int);
        ((w + mag % w) as nat, (mag / w - 1) as nat)
    }
}

/// The number nearest to the units of a number is that number.
pub(crate) proof fn lemma_nearest_of_units(f: Format, mag: nat)
    requires
        mag < f.infinity(),
    ensures
        nearest(units(f, mag), 1, f.precision()) == mag,
{
    let (m, k) = lemma_units_parts(f, mag);
    law_exact_units(f, m, k);
    let n = nearest(units(f, mag), 1, f.precision());
    if n < mag {
        lemma_units_ordered(f, n, mag);
    } else if mag < n {
        lemma_units_ordered(f, mag, n);
    }
}

/// Twice a number needs no more bits than the number.
pub(crate) proof fn lemma_doubled(f: Format, mag: nat)
    requires
        mag < f.infinity(),
    ensures
        units(f, nearest(2 * units(f, mag), 1, f.precision())) == 2 * units(f, mag),
{
    let (m, k) = lemma_units_parts(f, mag);
    law_exact_units(f, m, k + 1);
    lemma_pow2_unfold(k + 1);
    assert(m * (2 * pow2(k)) == 2 * (m * pow2(k))) by (nonlinear_arith);
}

/// A number goes unchanged to a wider format and back.
proof fn lemma_wider_and_back(f: Format, g: Format, mag: nat, shift: nat)
    requires
        mag < f.infinity(),
        f.precision() < g.precision(),
        level_count(f) + shift <= level_count(g),
    ensures
        ({
            let wide = nearest(units(f, mag) * pow2(shift), 1, g.precision());
            &&& wide < g.infinity()
            &&& nearest(units(g, wide), pow2(shift), f.precision()) == mag
        }),
{
    let (m, k) = lemma_units_parts(f, mag);
    let w = pow2((g.precision() - 1) as nat);
    lemma_pow2_mono(f.precision(), g.precision());
    lemma_pow2_adds(k, shift);
    lemma_mul_is_associative(m as int, pow2(k) as int, pow2(shift) as int);
    law_exact_units(g, m, k + shift);
    let wide = nearest(units(f, mag) * pow2(shift), 1, g.precision());
    let top = level_count(g);
    lemma_level_count(g);
    lemma_pow2_pos((g.precision() - 1) as nat);
    assert(wide < top * w) by (nonlinear_arith)
        requires
            wide < (k + shift + 2) * w,
            k + shift + 2 <= top,
            w > 0,
    ;
    lemma_pow2_pos(shift);
    lemma_nearest_scaled(units(f, mag), 1, f.precision(), pow2(shift));
    assert(1 * pow2(shift) == pow2(shift));
    lemma_nearest_of_units(f, mag);
}

/// A half that is a number goes unchanged to single precision and back.
pub proof fn law_half_round_trip(a: u16)
    requires
        !is_nan(Format::Half, half(a)),
    ensures
        half_of_single(single_of_half(a)) == a,
{
    reveal(single_of_half);
    reveal(half_of_single);
    lemma2_to64();
    lemma2_to64_rest();
    let x = half(a);
    if !is_infinite(Format::Half, x) {
        lemma_wider_and_back(Format::Half, Format::Single, x.magnitude, 125);
    }
}

/// A single that is a number goes unchanged to double precision and back.
pub proof fn law_single_round_trip(a: u32)
    requires
        !is_nan(Format::Single, single(a)),
    ensures
        narrowed(widened(a)) == a,
{
    reveal(widened);
    reveal(narrowed);
    lemma2_to64();
    lemma2_to64_rest();
    let x = single(a);
    if !is_infinite(Format::Single, x) {
        lemma_wider_and_back(Format::Single, Format::Double, x.magnitude, 925);
    }
}

// ---------------------------------------------------------------------------
// How far rounding goes
// ---------------------------------------------------------------------------

/// The units of an encoding, given its level and its steps.
proof fn lemma_units_of_level(f: Format, k: nat, q: nat)
    requires
        q <= 2 * pow2((f.precision() - 1) as nat),
        k > 0 ==> q >= pow2((f.precision() - 1) as nat),
    ensures
        units(f, k * pow2((f.precision() - 1) as nat) + q) == q * pow2(k),
{
    let w = pow2((f.precision() - 1) as nat);
    let mag = k * w + q;
    lemma_precision_bound(f);
    lemma2_to64();
    assert(q * pow2(0) == q);
    if mag < w {
        assert(k == 0) by (nonlinear_arith)
            requires
                mag == k * w + q,
                mag < w,
        ;
        assert(k * w == 0) by (nonlinear_arith)
            requires
                k == 0,
        ;
    } else if q == 2 * w {
        assert(mag == (k + 2) * w + 0) by (nonlinear_arith)
            requires
                mag == k * w + q,
                q == 2 * w,
        ;
        lemma_fundamental_div_mod_converse(mag as int, w as int, (k + 2) as int, 0);
        lemma_pow2_unfold((k + 1) as nat);
        assert(w * (2 * pow2(k)) == (2 * w) * pow2(k)) by (nonlinear_arith);
    } else {
        if k == 0 {
            assert(k * w == 0) by (nonlinear_arith)
                requires
                    k == 0,
            ;
        }
        assert(mag == (k + 1) * w + (q - w)) by (nonlinear_arith)
            requires
                mag == k * w + q,
        ;
        lemma_fundamental_div_mod_converse(mag as int, w as int, (k + 1) as int, q - w);
    }
}

proof fn lemma_round_ordered(n: nat, m: nat, unit: nat)
    requires
        n <= m,
        unit > 0,
    ensures
        round_half_even(n / unit, n % unit, unit) <= round_half_even(m / unit, m % unit, unit),
{
    lemma_fundamental_div_mod(n as int, unit as int);
    lemma_fundamental_div_mod(m as int, unit as int);
    lemma_mod_pos_bound(n as int, unit as int);
    lemma_mod_pos_bound(m as int, unit as int);
    assert(n / unit <= m / unit) by (nonlinear_arith)
        requires
            n == unit * (n / unit) + n % unit,
            m == unit * (m / unit) + m % unit,
            0 <= n % unit < unit,
            0 <= m % unit < unit,
            n <= m,
    ;
}

/// Rounding keeps the order of ratios.
pub proof fn law_rounding_keeps_order(f: Format, n: nat, m: nat, d: nat)
    requires
        d > 0,
        n <= m,
    ensures
        nearest(n, d, f.precision()) <= nearest(m, d, f.precision()),
{
    let p = f.precision();
    let w = pow2((p - 1) as nat);
    lemma_precision_bound(f);
    lemma_pow2_unfold(p);
    let a = lemma_level_exists(n, d, p);
    let b = lemma_level_exists(m, d, p);
    lemma_nearest_is(n, d, p, a);
    lemma_nearest_is(m, d, p, b);
    lemma_pow2_pos(a);
    lemma_pow2_pos(b);
    if a == b {
        assert(d * pow2(a) > 0) by (nonlinear_arith)
            requires
                d > 0,
                pow2(a) > 0,
        ;
        lemma_round_ordered(n, m, d * pow2(a));
    } else if a < b {
        lemma_round_at_bound(n, d, p, a);
        let unit = d * pow2(b);
        assert(unit > 0) by (nonlinear_arith)
            requires
                unit == d * pow2(b),
                d > 0,
                pow2(b) > 0,
        ;
        lemma_pow2_adds((p - 1) as nat, b);
        assert(p + b - 1 == (p - 1) + b);
        assert(d * pow2((p + b - 1) as nat) == w * unit) by (nonlinear_arith)
            requires
                pow2((p + b - 1) as nat) == w * pow2(b),
                unit == d * pow2(b),
        ;
        lemma_fundamental_div_mod(m as int, unit as int);
        lemma_mod_pos_bound(m as int, unit as int);
        assert(m / unit >= w) by (nonlinear_arith)
            requires
                m == unit * (m / unit) + m % unit,
                m % unit < unit,
                m >= w * unit,
                unit > 0,
        ;
        assert(a * w + 2 * w <= b * w + w) by (nonlinear_arith)
            requires
                a + 1 <= b,
        ;
    } else {
        lemma_pow2_mono(p + b, (p + a - 1) as nat);
        assert(d * pow2(p + b) <= d * pow2((p + a - 1) as nat)) by (nonlinear_arith)
            requires
                pow2(p + b) <= pow2((p + a - 1) as nat),
        ;
    }
}

/// How far a whole number of units is from a ratio, times the denominator.
pub open spec fn off_by(units: nat, n: nat, d: nat) -> nat {
    if units * d >= n {
        (units * d - n) as nat
    } else {
        (n - units * d) as nat
    }
}

/// Rounding is off by half a unit at most, or by no more than the ratio's
/// `2^p`th part, where `p` is the precision.
pub proof fn law_rounding_error(f: Format, n: nat, d: nat)
    requires
        d > 0,
    ensures
        ({
            let e = off_by(units(f, nearest(n, d, f.precision())), n, d);
            2 * e <= d || e * pow2(f.precision()) <= n
        }),
{
    let p = f.precision();
    let w = pow2((p - 1) as nat);
    let k = lemma_level_exists(n, d, p);
    lemma_nearest_is(n, d, p, k);
    lemma_precision_bound(f);
    lemma_pow2_unfold(p);
    let q = round_at(n, d, k);
    lemma_round_at_bound(n, d, p, k);
    let t = pow2(k);
    lemma_pow2_pos(k);
    let unit = d * t;
    assert(unit > 0) by (nonlinear_arith)
        requires
            unit == d * t,
            d > 0,
            t > 0,
    ;
    let a = n / unit;
    let r = n % unit;
    lemma_fundamental_div_mod(n as int, unit as int);
    lemma_mod_pos_bound(n as int, unit as int);
    if k > 0 {
        lemma_pow2_adds((p - 1) as nat, k);
        assert(n >= w * unit) by (nonlinear_arith)
            requires
                n >= d * pow2((p + k - 1) as nat),
                pow2((p + k - 1) as nat) == w * t,
                unit == d * t,
        ;
        assert(a >= w) by (nonlinear_arith)
            requires
                n == unit * a + r,
                r < unit,
                n >= w * unit,
                unit > 0,
        ;
    }
    lemma_units_of_level(f, k, q);
    let e = off_by(q * t, n, d);
    assert((q * t) * d == q * unit) by (nonlinear_arith)
        requires
            unit == d * t,
    ;
    assert((a + 1) * unit == unit * a + unit && a * unit == unit * a) by (nonlinear_arith);
    assert(2 * e <= unit);
    if k == 0 {
        lemma2_to64();
        assert(d * 1 == d);
    } else {
        assert(e * pow2(p) <= n) by (nonlinear_arith)
            requires
                2 * e <= unit,
                pow2(p) == 2 * w,
                n >= w * unit,
        ;
    }
}

} // verus!
