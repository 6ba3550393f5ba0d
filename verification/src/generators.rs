//! Test data.
//!
//! Deterministic pseudo-random numbers: the same seed gives the same data.

use vstd::arithmetic::power2::{lemma2_to64, lemma2_to64_rest, lemma_pow2_adds, lemma_pow2_pos, pow2};
use vstd::prelude::*;
use crate::ieee::{
    add32, difference32, div32, from_whole, is_nan, law_exact_units, lemma_nearest_scaled, mul32,
    nearest, product32, quotient, quotient32, single, single_of, sub32, sum32, units, Format, ONE,
};

verus! {

const FACTOR: u64 = 6_364_136_223_846_793_005;

const SHIFT: u64 = 1_442_695_040_888_963_407;

/// Bits of the single `2^24`.
pub const STEPS: u32 = 0x4b80_0000;

/// Bits of the singles -1, 10, -10, 100 and -100.
pub const MINUS_ONE: u32 = 0xbf80_0000;

pub const TEN: u32 = 0x4120_0000;

pub const MINUS_TEN: u32 = 0xc120_0000;

pub const HUNDRED: u32 = 0x42c8_0000;

pub const MINUS_HUNDRED: u32 = 0xc2c8_0000;

/// The state after a state.
pub open spec fn next_state(s: u64) -> u64 {
    ((s * 6_364_136_223_846_793_005 + 1_442_695_040_888_963_407) % 0x1_0000_0000_0000_0000) as u64
}

/// The state after `n` steps.
pub open spec fn state_after(s: u64, n: nat) -> u64
    decreases n,
{
    if n == 0 {
        s
    } else {
        next_state(state_after(s, (n - 1) as nat))
    }
}

/// The upper 24 bits of a state as a fraction of `2^24`.
pub open spec fn fraction(s: u64) -> u32 {
    quotient32(single_of((s / 0x100_0000_0000) as nat), STEPS)
}

/// A state as a single between two others.
pub open spec fn between(s: u64, min: u32, max: u32) -> u32 {
    sum32(min, product32(fraction(s), difference32(max, min)))
}

/// The first `n` singles between two others that follow a state.
pub open spec fn run_between(s: u64, n: nat, min: u32, max: u32) -> Seq<u32> {
    Seq::new(n, |i: int| between(state_after(s, (i + 1) as nat), min, max))
}

/// The fractions are exact, at least zero and below one: the one that follows a
/// state stands for the upper 24 bits of that state over `2^24`. (One is `2^149` units.)
pub proof fn law_fraction_below_one(s: u64)
    ensures
        !single(fraction(s)).negative,
        !is_nan(Format::Single, single(fraction(s))),
        units(Format::Single, single(fraction(s)).magnitude) == (s / 0x100_0000_0000) as nat * pow2(125),
        units(Format::Single, single(fraction(s)).magnitude) < pow2(149),
{
    reveal(quotient32);
    reveal(single_of);
    let n = (s / 0x100_0000_0000) as nat;
    let f = Format::Single;
    lemma2_to64();
    lemma2_to64_rest();
    assert(n < pow2(24));
    assert(pow2(23) == 0x80_0000);
    // The upper bits are a single.
    law_exact_units(f, n, 149);
    let a = nearest(n * pow2(149), 1, 24);
    assert((f.precision() - 1) as nat == 23);
    assert(a < (149 + 2) * pow2(23));
    assert(a < 0x7f80_0000);
    assert(single_of(n) == a);
    let x = single(a as u32);
    assert(x.magnitude == a && !x.negative);
    // So is the divisor: it stands for 2^173 units.
    let b = single(STEPS);
    assert(b.magnitude == 0x4b80_0000 && !b.negative);
    assert(units(f, b.magnitude) == pow2(23) * pow2(150));
    lemma_pow2_adds(23, 150);
    // The quotient.
    lemma_pow2_adds(149, 149);
    lemma_pow2_adds(125, 173);
    lemma_pow2_pos(173);
    lemma_pow2_pos(125);
    let q = nearest(n * pow2(149) * pow2(149), pow2(173), 24);
    assert(n * pow2(149) * pow2(149) == (n * pow2(125)) * pow2(173)) by (nonlinear_arith)
        requires
            pow2(298) == pow2(149) * pow2(149),
            pow2(298) == pow2(125) * pow2(173),
    ;
    assert(1 * pow2(173) == pow2(173));
    lemma_nearest_scaled(n * pow2(125), 1, 24, pow2(173));
    law_exact_units(f, n, 125);
    assert(q == nearest(n * pow2(125), 1, 24));
    assert(q < (125 + 2) * pow2(23));
    assert(q < 0x7f80_0000);
    assert(quotient(f, x.magnitude, b.magnitude) == q);
    assert(fraction(s) == q) by {
        if n == 0 {
            assert(0 * pow2(149) == 0) by (nonlinear_arith);
            assert(0 * pow2(125) == 0) by (nonlinear_arith);
        }
    }
    lemma_pow2_adds(24, 125);
    assert(n * pow2(125) < pow2(149)) by (nonlinear_arith)
        requires
            n < pow2(24),
            pow2(149) == pow2(24) * pow2(125),
            pow2(125) > 0,
    ;
}

/// Simple linear congruential generator for deterministic pseudo-random numbers.
/// Not for secrets, but fast and reproducible.
#[derive(Debug)]
pub struct Rng {
    state: u64,
}

impl View for Rng {
    type V = u64;

    closed spec fn view(&self) -> u64 {
        self.state
    }
}

impl Rng {
    /// Create a new generator with the given seed.
    pub fn new(seed: u64) -> (r: Rng)
        ensures
            r@ == seed,
    {
        Rng { state: seed }
    }

    /// Generate the next number of 64 bits.
    pub fn next_u64(&mut self) -> (r: u64)
        ensures
            r == next_state(old(self)@),
            final(self)@ == r,
    {
        let s: u64 = self.state;
        let product: u64 = s.wrapping_mul(FACTOR);
        let next: u64 = product.wrapping_add(SHIFT);
        proof {
            let m: int = 0x1_0000_0000_0000_0000;
            let exact: int = s * 6_364_136_223_846_793_005;
            assert(product == exact % m);
            vstd::arithmetic::div_mod::lemma_add_mod_noop(exact, SHIFT as int, m);
            assert(next == (product + SHIFT) % m);
        }
        self.state = next;
        next
    }

    /// Generate the bits of a single in [0, 1).
    pub fn next_f32(&mut self) -> (r: u32)
        ensures
            final(self)@ == next_state(old(self)@),
            r == fraction(final(self)@),
    {
        let s: u64 = self.next_u64();
        div32(from_whole(s / 0x100_0000_0000), STEPS)
    }

    /// Generate the bits of a single between `min` and `max`.
    pub fn next_f32_range(&mut self, min: u32, max: u32) -> (r: u32)
        ensures
            final(self)@ == next_state(old(self)@),
            r == between(final(self)@, min, max),
    {
        let x: u32 = self.next_f32();
        add32(min, mul32(x, sub32(max, min)))
    }

    /// Fill a buffer with bits of singles between `min` and `max`.
    pub fn fill_f32(&mut self, dst: &mut Vec<u32>, min: u32, max: u32)
        ensures
            final(self)@ == state_after(old(self)@, old(dst)@.len()),
            final(dst)@ == run_between(old(self)@, old(dst)@.len(), min, max),
    {
        let ghost start = self@;
        let n: usize = dst.len();
        let ghost all = run_between(start, n as nat, min, max);
        let mut i: usize = 0;
        while i < n
            invariant
                i <= n == dst@.len(),
                self@ == state_after(start, i as nat),
                all == run_between(start, n as nat, min, max),
                forall|k: int| 0 <= k < i ==> #[trigger] dst@[k] == all[k],
            decreases n - i,
        {
            let x: u32 = self.next_f32_range(min, max);
            assert(self@ == state_after(start, (i + 1) as nat));
            dst.set(i, x);
            i = i + 1;
        }
        assert(dst@ =~= all);
    }
}

fn make_run(rng: &mut Rng, n: usize, min: u32, max: u32) -> (r: Vec<u32>)
    ensures
        final(rng)@ == state_after(old(rng)@, n as nat),
        r@ == run_between(old(rng)@, n as nat, min, max),
{
    let mut v: Vec<u32> = crate::calibration::zeros(n);
    rng.fill_f32(&mut v, min, max);
    v
}

/// A size of at least `base`, and less than twice that.
pub open spec fn size_from(s: u64, base: u64) -> usize {
    (base + s % base) as usize
}

fn make_size(rng: &mut Rng, base: u64) -> (r: usize)
    requires
        0 < base <= 1024,
    ensures
        final(rng)@ == next_state(old(rng)@),
        r == size_from(final(rng)@, base),
        base <= r < 2 * base,
{
    let s: u64 = rng.next_u64();
    (base + s % base) as usize
}

/// Generate test data for a fill: how many elements, and the bits of their value.
pub fn fill_test_data(seed: u64) -> (r: (usize, u32))
    ensures
        r.0 == size_from(state_after(seed, 1), 1024),
        1024 <= r.0 < 2048,
        r.1 == between(state_after(seed, 2), MINUS_HUNDRED, HUNDRED),
{
    proof {
        reveal_with_fuel(state_after, 3);
    }
    let mut rng: Rng = Rng::new(seed);
    let n: usize = make_size(&mut rng, 1024);
    let value: u32 = rng.next_f32_range(MINUS_HUNDRED, HUNDRED);
    (n, value)
}

/// Generate test data for `y = a * x + y`: `x`, `y` and `a`.
pub fn axpy_test_data(seed: u64) -> (r: (Vec<u32>, Vec<u32>, u32))
    ensures
        ({
            let n = size_from(state_after(seed, 1), 1024) as nat;
            let s = state_after(seed, 2);
            &&& 1024 <= n < 2048
            &&& r.0@ == run_between(s, n, MINUS_HUNDRED, HUNDRED)
            &&& r.1@ == run_between(state_after(s, n), n, MINUS_HUNDRED, HUNDRED)
            &&& r.2 == between(s, MINUS_TEN, TEN)
        }),
{
    proof {
        reveal_with_fuel(state_after, 3);
    }
    let mut rng: Rng = Rng::new(seed);
    let n: usize = make_size(&mut rng, 1024);
    let alpha: u32 = rng.next_f32_range(MINUS_TEN, TEN);
    let x: Vec<u32> = make_run(&mut rng, n, MINUS_HUNDRED, HUNDRED);
    let y: Vec<u32> = make_run(&mut rng, n, MINUS_HUNDRED, HUNDRED);
    (x, y, alpha)
}

/// Generate test data for a rectifier: a mix of positive and negative values.
pub fn relu_test_data(seed: u64) -> (r: Vec<u32>)
    ensures
        ({
            let n = size_from(state_after(seed, 1), 1024) as nat;
            &&& 1024 <= n < 2048
            &&& r@ == run_between(state_after(seed, 1), n, MINUS_HUNDRED, HUNDRED)
        }),
{
    proof {
        reveal_with_fuel(state_after, 2);
    }
    let mut rng: Rng = Rng::new(seed);
    let n: usize = make_size(&mut rng, 1024);
    make_run(&mut rng, n, MINUS_HUNDRED, HUNDRED)
}

/// Generate test data for a matrix product: both matrices and the sizes `m`, `n`
/// and `k`. The range is small, so that errors do not add up to much.
pub fn gemm_test_data(seed: u64) -> (r: (Vec<u32>, Vec<u32>, usize, usize, usize))
    ensures
        ({
            let s = state_after(seed, 3);
            &&& r.2 == size_from(state_after(seed, 1), 32)
            &&& r.3 == size_from(state_after(seed, 2), 32)
            &&& r.4 == size_from(s, 32)
            &&& 32 <= r.2 < 64
            &&& 32 <= r.3 < 64
            &&& 32 <= r.4 < 64
            &&& r.0@ == run_between(s, (r.2 * r.4) as nat, MINUS_ONE, ONE)
            &&& r.1@ == run_between(
                state_after(s, (r.2 * r.4) as nat),
                (r.4 * r.3) as nat,
                MINUS_ONE,
                ONE,
            )
        }),
{
    proof {
        reveal_with_fuel(state_after, 4);
    }
    let mut rng: Rng = Rng::new(seed);
    let m: usize = make_size(&mut rng, 32);
    let n: usize = make_size(&mut rng, 32);
    let k: usize = make_size(&mut rng, 32);
    assert(m * k <= 64 * 64) by (nonlinear_arith)
        requires
            m < 64,
            k < 64,
    ;
    assert(k * n <= 64 * 64) by (nonlinear_arith)
        requires
            n < 64,
            k < 64,
    ;
    let a: Vec<u32> = make_run(&mut rng, m * k, MINUS_ONE, ONE);
    let b: Vec<u32> = make_run(&mut rng, k * n, MINUS_ONE, ONE);
    (a, b, m, n, k)
}

} // verus!
