//! Benchmarks: what is measured, and how the times are summarised.

use vstd::prelude::*;
use vstd::seq_lib::*;
use crate::ieee::{
    div32, from_whole, less32, lt32, mul32, product32, quotient32, single_of, sub32, difference32, ONE,
};
use crate::scales::{larger, magnitude, max32};

verus! {

// ---------------------------------------------------------------------------
// Times
// ---------------------------------------------------------------------------

/// Summary of a series of timed runs, in nanoseconds.
#[derive(Debug, Clone, Copy, PartialEq, Eq, Structural)]
pub struct Stats {
    pub n: usize,
    pub min: u64,
    pub median: u64,
    pub p95: u64,
    pub mean: u64,
    pub max: u64,
}

/// Whether times are in ascending order.
pub open spec fn is_ascending(s: Seq<u64>) -> bool {
    forall|i: int, j: int| 0 <= i <= j < s.len() ==> s[i] <= s[j]
}

/// The sum of the first `n` times.
pub open spec fn total(s: Seq<u64>, n: nat) -> nat
    decreases n,
{
    if n == 0 {
        0
    } else {
        total(s, (n - 1) as nat) + s[n - 1] as nat
    }
}

/// The place of the 95th percentile among `n` times in order.
pub open spec fn percentile_place(n: nat) -> int {
    if n * 19 / 20 < n {
        (n * 19 / 20) as int
    } else {
        n - 1
    }
}

/// The summary of times, given the same times in order.
pub open spec fn summary(samples: Seq<u64>, ordered: Seq<u64>) -> Stats {
    let n = samples.len();
    Stats {
        n: n as usize,
        min: ordered[0],
        median: ordered[(n / 2) as int],
        p95: ordered[percentile_place(n)],
        mean: (total(samples, n) / n) as u64,
        max: ordered[n - 1],
    }
}

/// Whether a sequence is the times in ascending order.
pub open spec fn is_ordering(samples: Seq<u64>, ordered: Seq<u64>) -> bool {
    &&& is_ascending(ordered)
    &&& ordered.to_multiset() == samples.to_multiset()
    &&& ordered.len() == samples.len()
}

fn order(samples: &Vec<u64>) -> (r: Vec<u64>)
    ensures
        is_ordering(samples@, r@),
{
    let mut r: Vec<u64> = Vec::new();
    let mut i: usize = 0;
    assert(r@ =~= samples@.take(0));
    while i < samples.len()
        invariant
            i <= samples@.len(),
            is_ascending(r@),
            r@.len() == i,
            r@.to_multiset() == samples@.take(i as int).to_multiset(),
        decreases samples@.len() - i,
    {
        let x: u64 = samples[i];
        let mut at: usize = i;
        while at > 0 && r[at - 1] > x
            invariant
                at <= i == r@.len(),
                is_ascending(r@),
                forall|k: int| at <= k < r@.len() ==> x < #[trigger] r@[k],
            decreases at,
        {
            at = at - 1;
        }
        let ghost before = r@;
        r.insert(at, x);
        proof {
            to_multiset_insert(before, at as int, x);
            to_multiset_build(samples@.take(i as int), x);
            assert(samples@.take(i + 1) =~= samples@.take(i as int).push(x));
            assert forall|a: int, b: int| 0 <= a <= b < r@.len() implies r@[a] <= r@[b] by {
                if b < at {
                    assert(r@[a] == before[a] && r@[b] == before[b]);
                } else if b == at {
                    if a < at {
                        assert(before[a] <= before[at - 1]);
                    }
                } else if a < at {
                    assert(r@[a] == before[a] && r@[b] == before[b - 1]);
                } else if a > at {
                    assert(r@[a] == before[a - 1] && r@[b] == before[b - 1]);
                }
            }
        }
        i = i + 1;
    }
    assert(samples@.take(i as int) =~= samples@);
    r
}

/// Summarise a series of times: the least, the one in the middle, the 95th
/// percentile, the mean and the largest.
pub fn summarise(samples: &Vec<u64>) -> (r: Stats)
    requires
        samples@.len() > 0,
    ensures
        exists|ordered: Seq<u64>| #[trigger]
            is_ordering(samples@, ordered) && r == summary(samples@, ordered),
{
    let n: usize = samples.len();
    let ordered: Vec<u64> = order(samples);
    let mut sum: u128 = 0;
    let mut i: usize = 0;
    while i < n
        invariant
            i <= n == samples@.len(),
            sum == total(samples@, i as nat),
            sum <= i * u64::MAX,
        decreases n - i,
    {
        assert(i * u64::MAX + u64::MAX <= u128::MAX) by (nonlinear_arith)
            requires
                i < usize::MAX,
        ;
        assert((i + 1) * u64::MAX == i * u64::MAX + u64::MAX) by (nonlinear_arith);
        sum = sum + samples[i] as u128;
        i = i + 1;
    }
    proof {
        vstd::arithmetic::div_mod::lemma_div_by_multiple(u64::MAX as int, n as int);
        vstd::arithmetic::mul::lemma_mul_is_commutative(n as int, u64::MAX as int);
        vstd::arithmetic::div_mod::lemma_div_is_ordered(sum as int, n * u64::MAX, n as int);
    }
    let mean: u64 = (sum / n as u128) as u64;
    let place: usize = ((n as u128) * 19 / 20) as usize;
    let p95: u64 = if place < n {
        ordered[place]
    } else {
        ordered[n - 1]
    };
    let r: Stats = Stats {
        n,
        min: ordered[0],
        median: ordered[n / 2],
        p95,
        mean,
        max: ordered[n - 1],
    };
    assert(r == summary(samples@, ordered@));
    r
}

proof fn lemma_total_bounds(s: Seq<u64>, n: nat, low: u64, high: u64)
    requires
        n <= s.len(),
        forall|i: int| 0 <= i < n ==> low <= #[trigger] s[i] <= high,
    ensures
        n * low <= total(s, n) <= n * high,
    decreases n,
{
    if n > 0 {
        lemma_total_bounds(s, (n - 1) as nat, low, high);
        assert(low <= s[n - 1] <= high);
        assert(n * low == (n - 1) * low + low) by (nonlinear_arith);
        assert(n * high == (n - 1) * high + high) by (nonlinear_arith);
    } else {
        assert(0 * low == 0) by (nonlinear_arith);
        assert(0 * high == 0) by (nonlinear_arith);
    }
}

/// A summary is in order, and the mean lies between the least and the largest time.
pub proof fn law_summary_in_order(samples: Seq<u64>, ordered: Seq<u64>)
    requires
        samples.len() > 0,
        is_ordering(samples, ordered),
    ensures
        ({
            let s = summary(samples, ordered);
            &&& s.min <= s.median <= s.p95 <= s.max
            &&& s.min <= s.mean <= s.max
        }),
{
    let n = samples.len();
    let s = summary(samples, ordered);
    if n == 1 {
        assert(n * 19 / 20 == 0);
    }
    assert(n / 2 <= percentile_place(n)) by {
        assert(n / 2 <= n * 19 / 20);
    }
    assert forall|i: int| 0 <= i < n implies s.min <= #[trigger] samples[i] <= s.max by {
        assert(samples.contains(samples[i]));
        to_multiset_contains(samples, samples[i]);
        to_multiset_contains(ordered, samples[i]);
        assert(ordered.contains(samples[i]));
        let k = choose|k: int| 0 <= k < ordered.len() && ordered[k] == samples[i];
        assert(ordered[0] <= ordered[k] <= ordered[n - 1]);
    }
    lemma_total_bounds(samples, n, s.min, s.max);
    let sum = total(samples, n);
    assert(s.min <= sum / n <= s.max) by (nonlinear_arith)
        requires
            n > 0,
            n * s.min <= sum <= n * s.max,
    ;
}

/// A summary is of the samples: the median has half of them before it, the 95th
/// percentile nineteen of twenty, and the mean is the sum over their number.
pub proof fn law_summary_places(samples: Seq<u64>, ordered: Seq<u64>)
    requires
        0 < samples.len() <= usize::MAX,
        is_ordering(samples, ordered),
    ensures
        ({
            let s = summary(samples, ordered);
            let n = samples.len() as int;
            &&& s.n == n
            &&& exists|k: int| n - 1 <= 2 * k <= n && #[trigger] ordered[k] == s.median
            &&& exists|k: int| 20 * k <= 19 * n < 20 * (k + 1) && #[trigger] ordered[k] == s.p95
            &&& s.mean * n <= total(samples, samples.len()) < (s.mean + 1) * n
        }),
{
    let n = samples.len() as int;
    let s = summary(samples, ordered);
    law_summary_in_order(samples, ordered);
    assert(ordered[n / 2] == s.median);
    assert(ordered[n * 19 / 20] == s.p95);
    let sum = total(samples, samples.len()) as int;
    let q = sum / n;
    assert(q * n <= sum < (q + 1) * n) by (nonlinear_arith)
        requires
            n > 0,
            q == sum / n,
    ;
    assert forall|i: int| 0 <= i < n implies s.min <= #[trigger] samples[i] <= s.max by {
        assert(samples.contains(samples[i]));
        to_multiset_contains(samples, samples[i]);
        to_multiset_contains(ordered, samples[i]);
        assert(ordered.contains(samples[i]));
        let k = choose|k: int| 0 <= k < ordered.len() && ordered[k] == samples[i];
        assert(ordered[0] <= ordered[k] <= ordered[n - 1]);
    }
    lemma_total_bounds(samples, samples.len(), s.min, s.max);
    assert(0 <= q <= s.max) by (nonlinear_arith)
        requires
            n > 0,
            0 <= sum <= n * s.max,
            q == sum / n,
    ;
}

// ---------------------------------------------------------------------------
// Integer convolutions
// ---------------------------------------------------------------------------

/// A convolution to measure, channels last, with square windows.
#[derive(Debug, Clone, Copy, PartialEq, Eq, Structural)]
pub struct ConvCase {
    pub n: usize,
    pub h: usize,
    pub w: usize,
    pub c_in: usize,
    pub c_out: usize,
    pub k: usize,
    pub stride: usize,
    pub pad: usize,
}

/// The sizes of a convolution.
#[derive(Debug, Clone, Copy, PartialEq, Eq, Structural)]
pub struct ConvSizes {
    pub h_out: usize,
    pub w_out: usize,
    /// Bytes of the input.
    pub input: usize,
    /// Bytes of the kernel.
    pub kernel: usize,
    /// Bytes of the output as sums of 32 bits.
    pub output_i32: usize,
    /// Bytes of the output as packed bytes.
    pub output_packed: usize,
}

/// The side of what the windows leave.
pub open spec fn windows_on(side: usize, c: ConvCase) -> int {
    (side + 2 * c.pad - c.k) / (c.stride as int) + 1
}

/// Elements of an image.
pub open spec fn volume(a: int, b: int, c: int, d: int) -> int {
    a * b * c * d
}

/// Whether a convolution has windows, and all its sizes fit.
pub open spec fn case_fits(c: ConvCase) -> bool {
    &&& c.stride > 0
    &&& c.k <= c.h + 2 * c.pad
    &&& c.k <= c.w + 2 * c.pad
    &&& volume(c.n as int, c.h as int, c.w as int, c.c_in as int) <= usize::MAX
    &&& volume(c.k as int, c.k as int, c.c_in as int, c.c_out as int) <= usize::MAX
    &&& windows_on(c.h, c) <= usize::MAX
    &&& windows_on(c.w, c) <= usize::MAX
    &&& 4 * volume(c.n as int, windows_on(c.h, c), windows_on(c.w, c), c.c_out as int) <= usize::MAX
}

/// The sizes of a convolution.
pub open spec fn sizes_of(c: ConvCase) -> ConvSizes {
    let out = volume(c.n as int, windows_on(c.h, c), windows_on(c.w, c), c.c_out as int);
    ConvSizes {
        h_out: windows_on(c.h, c) as usize,
        w_out: windows_on(c.w, c) as usize,
        input: volume(c.n as int, c.h as int, c.w as int, c.c_in as int) as usize,
        kernel: volume(c.k as int, c.k as int, c.c_in as int, c.c_out as int) as usize,
        output_i32: (4 * out) as usize,
        output_packed: out as usize,
    }
}

fn multiply_four(a: usize, b: usize, c: usize, d: usize) -> (r: Option<usize>)
    ensures
        match r {
            Some(v) => v == volume(a as int, b as int, c as int, d as int),
            None => volume(a as int, b as int, c as int, d as int) > usize::MAX,
        },
{
    if a == 0 || b == 0 || c == 0 || d == 0 {
        assert(volume(a as int, b as int, c as int, d as int) == 0) by (nonlinear_arith)
            requires
                a == 0 || b == 0 || c == 0 || d == 0,
        ;
        return Some(0);
    }
    let x: usize = match a.checked_mul(b) {
        Some(x) => x,
        None => {
            assert(volume(a as int, b as int, c as int, d as int) >= a * b) by (nonlinear_arith)
                requires
                    a > 0,
                    b > 0,
                    c > 0,
                    d > 0,
            ;
            return None;
        },
    };
    let y: usize = match x.checked_mul(c) {
        Some(y) => y,
        None => {
            assert(volume(a as int, b as int, c as int, d as int) >= x * c) by (nonlinear_arith)
                requires
                    x == a * b,
                    a > 0,
                    b > 0,
                    c > 0,
                    d > 0,
            ;
            return None;
        },
    };
    y.checked_mul(d)
}

fn count_windows(side: usize, c: &ConvCase) -> (r: Option<usize>)
    requires
        c.stride > 0,
    ensures
        match r {
            Some(v) => c.k <= side + 2 * c.pad && v == windows_on(side, *c),
            None => c.k > side + 2 * c.pad || windows_on(side, *c) > usize::MAX,
        },
{
    let room: u128 = side as u128 + 2 * (c.pad as u128);
    if (c.k as u128) > room {
        return None;
    }
    let n: u128 = (room - c.k as u128) / (c.stride as u128) + 1;
    if n <= usize::MAX as u128 {
        Some(n as usize)
    } else {
        None
    }
}

/// The sizes of a convolution, if it has windows and they all fit.
pub fn conv_sizes(c: &ConvCase) -> (r: Option<ConvSizes>)
    ensures
        r == (if case_fits(*c) {
            Some(sizes_of(*c))
        } else {
            None
        }),
{
    if c.stride == 0 {
        return None;
    }
    let h_out: usize = match count_windows(c.h, c) {
        Some(v) => v,
        None => {
            return None;
        },
    };
    let w_out: usize = match count_windows(c.w, c) {
        Some(v) => v,
        None => {
            return None;
        },
    };
    let input: usize = match multiply_four(c.n, c.h, c.w, c.c_in) {
        Some(v) => v,
        None => {
            return None;
        },
    };
    let kernel: usize = match multiply_four(c.k, c.k, c.c_in, c.c_out) {
        Some(v) => v,
        None => {
            return None;
        },
    };
    let output_packed: usize = match multiply_four(c.n, h_out, w_out, c.c_out) {
        Some(v) => v,
        None => {
            return None;
        },
    };
    match output_packed.checked_mul(4) {
        Some(output_i32) => Some(
            ConvSizes { h_out, w_out, input, kernel, output_i32, output_packed },
        ),
        None => None,
    }
}

/// The convolutions to measure.
pub fn conv_cases() -> (r: Vec<ConvCase>)
    ensures
        r@ == seq![
            ConvCase { n: 1, h: 32, w: 32, c_in: 16, c_out: 16, k: 3, stride: 1, pad: 1 },
            ConvCase { n: 1, h: 32, w: 32, c_in: 32, c_out: 32, k: 3, stride: 1, pad: 1 },
            ConvCase { n: 1, h: 16, w: 16, c_in: 64, c_out: 64, k: 3, stride: 1, pad: 1 },
        ],
{
    let mut r: Vec<ConvCase> = Vec::new();
    r.push(ConvCase { n: 1, h: 32, w: 32, c_in: 16, c_out: 16, k: 3, stride: 1, pad: 1 });
    r.push(ConvCase { n: 1, h: 32, w: 32, c_in: 32, c_out: 32, k: 3, stride: 1, pad: 1 });
    r.push(ConvCase { n: 1, h: 16, w: 16, c_in: 64, c_out: 64, k: 3, stride: 1, pad: 1 });
    r
}

/// With a window of three, stride one and a border of one, every convolution to
/// measure leaves an image as large as it takes.
pub proof fn law_cases_keep_size(c: ConvCase)
    requires
        c.k == 3,
        c.stride == 1,
        c.pad == 1,
        c.h > 0,
        c.w > 0,
        case_fits(c),
    ensures
        sizes_of(c).h_out == c.h,
        sizes_of(c).w_out == c.w,
{
    assert((c.h + 2 - 3) / 1 == c.h - 1);
    assert((c.w + 2 - 3) / 1 == c.w - 1);
}

// ---------------------------------------------------------------------------
// Data
// ---------------------------------------------------------------------------

/// Bits of the singles 0.01, 0.001, 251 and 0.000001.
pub const HUNDREDTH: u32 = 0x3c23_d70a;

pub const THOUSANDTH: u32 = 0x3a83_126f;

pub const PERIOD: u32 = 0x437b_0000;

pub const MILLIONTH: u32 = 0x3586_37bd;

/// Bytes that count up from zero, again and again below `period`.
pub fn byte_pattern(n: usize, period: u8) -> (r: Vec<u8>)
    requires
        period > 0,
    ensures
        r@ == Seq::new(n as nat, |i: int| (i % period as int) as u8),
{
    let ghost all = Seq::new(n as nat, |i: int| (i % period as int) as u8);
    let mut r: Vec<u8> = Vec::new();
    let mut i: usize = 0;
    while i < n
        invariant
            i <= n,
            period > 0,
            all == Seq::new(n as nat, |i: int| (i % period as int) as u8),
            r@ == all.take(i as int),
        decreases n - i,
    {
        r.push((i % period as usize) as u8);
        i = i + 1;
        assert(r@ =~= all.take(i as int));
    }
    assert(r@ =~= all);
    r
}

/// Hundredths that count up from zero, again and again below `period`: what a
/// matrix product is measured on.
pub fn matrix_pattern(n: usize, period: usize) -> (r: Vec<u32>)
    requires
        period > 0,
    ensures
        r@ == Seq::new(
            n as nat,
            |i: int| product32(single_of((i % period as int) as nat), HUNDREDTH),
        ),
{
    let ghost all = Seq::new(
        n as nat,
        |i: int| product32(single_of((i % period as int) as nat), HUNDREDTH),
    );
    let mut r: Vec<u32> = Vec::new();
    let mut i: usize = 0;
    while i < n
        invariant
            i <= n,
            period > 0,
            all == Seq::new(
                n as nat,
                |i: int| product32(single_of((i % period as int) as nat), HUNDREDTH),
            ),
            r@ == all.take(i as int),
        decreases n - i,
    {
        r.push(mul32(from_whole((i % period) as u64), HUNDREDTH));
        i = i + 1;
        assert(r@ =~= all.take(i as int));
    }
    assert(r@ =~= all);
    r
}

/// Thousandths that count up from minus one: what SiLU is measured on.
pub fn rising_pattern(n: usize) -> (r: Vec<u32>)
    ensures
        r@ == Seq::new(
            n as nat,
            |i: int| difference32(product32(single_of(i as nat), THOUSANDTH), ONE),
        ),
{
    let ghost all = Seq::new(
        n as nat,
        |i: int| difference32(product32(single_of(i as nat), THOUSANDTH), ONE),
    );
    let mut r: Vec<u32> = Vec::new();
    let mut i: usize = 0;
    while i < n
        invariant
            i <= n,
            all == Seq::new(
                n as nat,
                |i: int| difference32(product32(single_of(i as nat), THOUSANDTH), ONE),
            ),
            r@ == all.take(i as int),
        decreases n - i,
    {
        r.push(sub32(mul32(from_whole(i as u64), THOUSANDTH), ONE));
        i = i + 1;
        assert(r@ =~= all.take(i as int));
    }
    assert(r@ =~= all);
    r
}

/// Fractions of 251 that count up from zero, again and again: a synthetic image.
pub fn image_pattern(n: usize) -> (r: Vec<u32>)
    ensures
        r@ == Seq::new(n as nat, |i: int| quotient32(single_of((i % 251) as nat), PERIOD)),
{
    let ghost all = Seq::new(n as nat, |i: int| quotient32(single_of((i % 251) as nat), PERIOD));
    let mut r: Vec<u32> = Vec::new();
    let mut i: usize = 0;
    while i < n
        invariant
            i <= n,
            all == Seq::new(n as nat, |i: int| quotient32(single_of((i % 251) as nat), PERIOD)),
            r@ == all.take(i as int),
        decreases n - i,
    {
        r.push(div32(from_whole((i % 251) as u64), PERIOD));
        i = i + 1;
        assert(r@ =~= all.take(i as int));
    }
    assert(r@ =~= all);
    r
}

/// How many of the first `n` numbers are further from zero than a millionth.
pub open spec fn nonzero_among(v: Seq<u32>, n: nat) -> nat
    decreases n,
{
    if n == 0 {
        0
    } else {
        nonzero_among(v, (n - 1) as nat) + (if less32(MILLIONTH, magnitude(v[n - 1])) {
            1nat
        } else {
            0nat
        })
    }
}

/// Count the numbers that are further from zero than a millionth.
pub fn count_nonzero(v: &Vec<u32>) -> (r: usize)
    ensures
        r == nonzero_among(v@, v@.len()),
{
    let mut n: usize = 0;
    let mut i: usize = 0;
    while i < v.len()
        invariant
            i <= v@.len(),
            n <= i,
            n == nonzero_among(v@, i as nat),
        decreases v@.len() - i,
    {
        if lt32(MILLIONTH, v[i] & 0x7fff_ffff) {
            n = n + 1;
        }
        i = i + 1;
    }
    n
}

/// The largest distance between the first `n` elements.
pub open spec fn max_distance(a: Seq<u32>, b: Seq<u32>, n: nat) -> u32
    decreases n,
{
    if n == 0 {
        0
    } else {
        larger(max_distance(a, b, (n - 1) as nat), magnitude(difference32(a[n - 1], b[n - 1])))
    }
}

/// The largest distance between two outputs, as far as both go.
pub fn largest_gap(a: &Vec<u32>, b: &Vec<u32>) -> (r: u32)
    ensures
        r == max_distance(a@, b@, if a@.len() < b@.len() { a@.len() } else { b@.len() }),
{
    let n: usize = if a.len() < b.len() {
        a.len()
    } else {
        b.len()
    };
    let mut m: u32 = 0;
    let mut i: usize = 0;
    while i < n
        invariant
            i <= n <= a@.len(),
            n <= b@.len(),
            m == max_distance(a@, b@, i as nat),
        decreases n - i,
    {
        m = max32(m, sub32(a[i], b[i]) & 0x7fff_ffff);
        i = i + 1;
    }
    m
}

} // verus!
