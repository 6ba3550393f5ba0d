//! Tensor arithmetic on the bits of singles.
//!
//! The kernels compute element by element, in the order in which a plain loop
//! adds things up. Tensors of four dimensions are row-major, either channels
//! first (NCHW) or channels last (NHWC).

use vstd::prelude::*;
use crate::ieee::{
    add32, difference32, div32, from_whole, index_below, is_nan32, less32, lt32, mul32, nan32,
    product32, quotient32, single_of, sub32, sum32, to_index_below, ONE,
};
use crate::scales::{larger, max32};

pub mod elements;
pub mod places;
pub mod windows;

verus! {

// ---------------------------------------------------------------------------
// Writing results
// ---------------------------------------------------------------------------

/// `new` written over the front of `old`, as far as there is room.
pub open spec fn overlaid<T>(old_values: Seq<T>, new: Seq<T>) -> Seq<T> {
    Seq::new(
        old_values.len(),
        |i: int|
            if i < new.len() {
                new[i]
            } else {
                old_values[i]
            },
    )
}

/// `new` written over the front of `old`, as far as there is room.
pub fn overlay<T: Copy>(old_values: &Vec<T>, new: &Vec<T>) -> (r: Vec<T>)
    ensures
        r@ == overlaid(old_values@, new@),
{
    let mut r: Vec<T> = Vec::new();
    let mut i: usize = 0;
    while i < old_values.len()
        invariant
            i <= old_values@.len(),
            r@ == overlaid(old_values@, new@).take(i as int),
        decreases old_values@.len() - i,
    {
        if i < new.len() {
            r.push(new[i]);
        } else {
            r.push(old_values[i]);
        }
        i = i + 1;
        assert(r@ =~= overlaid(old_values@, new@).take(i as int));
    }
    assert(overlaid(old_values@, new@).take(i as int) =~= overlaid(old_values@, new@));
    r
}

// ---------------------------------------------------------------------------
// Element by element
// ---------------------------------------------------------------------------

/// Negative elements become zero.
pub open spec fn rectified(v: Seq<u32>) -> Seq<u32> {
    v.map_values(|x: u32| larger(x, 0))
}

/// Negative elements become zero.
pub fn rectify(v: &Vec<u32>) -> (r: Vec<u32>)
    ensures
        r@ == rectified(v@),
{
    let mut r: Vec<u32> = Vec::new();
    let mut i: usize = 0;
    while i < v.len()
        invariant
            i <= v@.len(),
            r@ == rectified(v@).take(i as int),
        decreases v@.len() - i,
    {
        r.push(max32(v[i], 0));
        i = i + 1;
        assert(r@ =~= rectified(v@).take(i as int));
    }
    assert(rectified(v@).take(i as int) =~= rectified(v@));
    r
}

/// A number within bounds.
pub open spec fn clamped(x: u32, min: u32, max: u32) -> u32 {
    let y = if less32(x, min) {
        min
    } else {
        x
    };
    if less32(max, y) {
        max
    } else {
        y
    }
}

/// Bounds between which numbers lie.
pub open spec fn are_bounds(min: u32, max: u32) -> bool {
    !nan32(min) && !nan32(max) && !less32(max, min)
}

/// Whether two numbers are bounds between which numbers lie.
pub fn check_bounds(min: u32, max: u32) -> (r: bool)
    ensures
        r == are_bounds(min, max),
{
    !is_nan32(min) && !is_nan32(max) && !lt32(max, min)
}

/// Every element within bounds.
pub open spec fn clipped(v: Seq<u32>, min: u32, max: u32) -> Seq<u32> {
    v.map_values(|x: u32| clamped(x, min, max))
}

/// Every element within bounds.
pub fn clip(v: &Vec<u32>, min: u32, max: u32) -> (r: Vec<u32>)
    ensures
        r@ == clipped(v@, min, max),
{
    let mut r: Vec<u32> = Vec::new();
    let mut i: usize = 0;
    while i < v.len()
        invariant
            i <= v@.len(),
            r@ == clipped(v@, min, max).take(i as int),
        decreases v@.len() - i,
    {
        let x: u32 = v[i];
        let y: u32 = if lt32(x, min) {
            min
        } else {
            x
        };
        r.push(
            if lt32(max, y) {
                max
            } else {
                y
            },
        );
        i = i + 1;
        assert(r@ =~= clipped(v@, min, max).take(i as int));
    }
    assert(clipped(v@, min, max).take(i as int) =~= clipped(v@, min, max));
    r
}

/// An operation on two numbers.
#[derive(Debug, Clone, Copy, PartialEq, Eq, Structural)]
pub enum Arithmetic {
    Sum,
    Difference,
    Product,
    Quotient,
}

/// The result of an operation on two numbers.
pub open spec fn combined(op: Arithmetic, a: u32, b: u32) -> u32 {
    match op {
        Arithmetic::Sum => sum32(a, b),
        Arithmetic::Difference => difference32(a, b),
        Arithmetic::Product => product32(a, b),
        Arithmetic::Quotient => quotient32(a, b),
    }
}

/// The result of an operation on two numbers.
pub fn combine(op: Arithmetic, a: u32, b: u32) -> (r: u32)
    ensures
        r == combined(op, a, b),
{
    match op {
        Arithmetic::Sum => add32(a, b),
        Arithmetic::Difference => sub32(a, b),
        Arithmetic::Product => mul32(a, b),
        Arithmetic::Quotient => div32(a, b),
    }
}

/// An operation on each element of `a` and of `b`, which is repeated as often as it takes.
pub open spec fn broadcast_over(op: Arithmetic, a: Seq<u32>, b: Seq<u32>) -> Seq<u32> {
    Seq::new(a.len(), |i: int| combined(op, a[i], b[i % b.len() as int]))
}

/// An operation on each element of `a` and of `b`, which is repeated as often as it takes.
pub fn apply_over(op: Arithmetic, a: &Vec<u32>, b: &Vec<u32>) -> (r: Vec<u32>)
    requires
        a@.len() > 0 ==> b@.len() > 0,
    ensures
        r@ == broadcast_over(op, a@, b@),
{
    let mut r: Vec<u32> = Vec::new();
    let mut i: usize = 0;
    while i < a.len()
        invariant
            i <= a@.len(),
            a@.len() > 0 ==> b@.len() > 0,
            r@ == broadcast_over(op, a@, b@).take(i as int),
        decreases a@.len() - i,
    {
        r.push(combine(op, a[i], b[i % b.len()]));
        i = i + 1;
        assert(r@ =~= broadcast_over(op, a@, b@).take(i as int));
    }
    assert(broadcast_over(op, a@, b@).take(i as int) =~= broadcast_over(op, a@, b@));
    r
}

// ---------------------------------------------------------------------------
// Matrix product
// ---------------------------------------------------------------------------

/// A row of a matrix with `m` columns has its elements before the next row's.
pub proof fn lemma_cell(i: int, n: int, j: int, m: int)
    requires
        0 <= i < n,
        0 <= j < m,
    ensures
        0 <= i * m + j < n * m,
        0 <= i * m,
{
    assert(0 <= i * m + j < n * m && 0 <= i * m) by (nonlinear_arith)
        requires
            0 <= i < n,
            0 <= j < m,
    ;
}

/// A matrix product: its sizes, and whether a factor is stored transposed.
pub struct Product {
    pub m: int,
    pub n: int,
    pub k: int,
    pub trans_a: bool,
    pub trans_b: bool,
}

impl Product {
    /// Where the first factor holds element (`i`, `l`).
    pub open spec fn place_a(self, i: int, l: int) -> int {
        if self.trans_a {
            l * self.m + i
        } else {
            i * self.k + l
        }
    }

    /// Where the second factor holds element (`l`, `j`).
    pub open spec fn place_b(self, l: int, j: int) -> int {
        if self.trans_b {
            j * self.k + l
        } else {
            l * self.n + j
        }
    }
}

/// The first `l` terms of element (`i`, `j`) of a matrix product, added up.
pub open spec fn dot(p: Product, a: Seq<u32>, b: Seq<u32>, i: int, j: int, l: nat) -> u32
    decreases l,
{
    if l == 0 {
        0
    } else {
        sum32(
            dot(p, a, b, i, j, (l - 1) as nat),
            product32(a[p.place_a(i, l - 1)], b[p.place_b(l - 1, j)]),
        )
    }
}

/// A matrix product.
pub open spec fn matrix_product(p: Product, a: Seq<u32>, b: Seq<u32>) -> Seq<u32> {
    Seq::new((p.m * p.n) as nat, |o: int| dot(p, a, b, o / p.n, o % p.n, p.k as nat))
}

/// A matrix product.
pub fn multiply(
    a: &Vec<u32>,
    b: &Vec<u32>,
    m: usize,
    n: usize,
    k: usize,
    trans_a: bool,
    trans_b: bool,
) -> (r: Vec<u32>)
    requires
        m * n <= usize::MAX,
        m * k <= a@.len(),
        k * n <= b@.len(),
    ensures
        r@ == matrix_product(
            (Product { m: m as int, n: n as int, k: k as int, trans_a, trans_b }),
            a@,
            b@,
        ),
{
    let ghost p = Product { m: m as int, n: n as int, k: k as int, trans_a, trans_b };
    let ghost all = matrix_product(p, a@, b@);
    let mut r: Vec<u32> = Vec::new();
    let total: usize = m * n;
    let mut o: usize = 0;
    while o < total
        invariant
            o <= total == m * n,
            m * k <= a@.len(),
            k * n <= b@.len(),
            p == (Product { m: m as int, n: n as int, k: k as int, trans_a, trans_b }),
            all == matrix_product(p, a@, b@),
            r@ == all.take(o as int),
        decreases total - o,
    {
        proof {
            lemma_row(o as int, m as int, n as int);
        }
        let i: usize = o / n;
        let j: usize = o % n;
        let mut sum: u32 = 0;
        let mut l: usize = 0;
        while l < k
            invariant
                l <= k,
                i < m,
                j < n,
                m * k <= a@.len(),
                k * n <= b@.len(),
                p == (Product { m: m as int, n: n as int, k: k as int, trans_a, trans_b }),
                sum == dot(p, a@, b@, i as int, j as int, l as nat),
            decreases k - l,
        {
            assert(a@.len() == a.len() && b@.len() == b.len());
            proof {
                lemma_cell(l as int, k as int, i as int, m as int);
                lemma_cell(i as int, m as int, l as int, k as int);
                lemma_cell(j as int, n as int, l as int, k as int);
                lemma_cell(l as int, k as int, j as int, n as int);
                assert(k * m == m * k && n * k == k * n) by (nonlinear_arith);
            }
            let x: u32 = if trans_a {
                a[l * m + i]
            } else {
                a[i * k + l]
            };
            let y: u32 = if trans_b {
                b[j * k + l]
            } else {
                b[l * n + j]
            };
            sum = add32(sum, mul32(x, y));
            l = l + 1;
        }
        r.push(sum);
        o = o + 1;
        assert(r@ =~= all.take(o as int));
    }
    assert(all.take(o as int) =~= all);
    r
}

/// An element of a matrix with `m` rows of `n` stands in a row and a column.
pub proof fn lemma_row(o: int, m: int, n: int)
    requires
        0 <= o < m * n,
        0 <= m,
        0 <= n,
    ensures
        n > 0,
        0 <= o / n < m,
        0 <= o % n < n,
{
    assert(n > 0) by (nonlinear_arith)
        requires
            0 <= o < m * n,
            0 <= m,
            0 <= n,
    ;
    assert(0 <= o / n < m && 0 <= o % n < n) by (nonlinear_arith)
        requires
            0 <= o < m * n,
            n > 0,
    ;
}

/// A bias added to each row of `n`; it is repeated as often as it takes.
pub open spec fn row_biased(v: Seq<u32>, n: int, bias: Seq<u32>) -> Seq<u32> {
    Seq::new(v.len(), |o: int| sum32(v[o], bias[(o % n) % bias.len() as int]))
}

/// A bias added to each row of `n`; it is repeated as often as it takes.
pub fn add_row_bias(v: &Vec<u32>, n: usize, bias: &Vec<u32>) -> (r: Vec<u32>)
    requires
        v@.len() > 0 ==> n > 0,
        v@.len() > 0 ==> bias@.len() > 0,
    ensures
        r@ == row_biased(v@, n as int, bias@),
{
    let ghost all = row_biased(v@, n as int, bias@);
    let mut r: Vec<u32> = Vec::new();
    let mut o: usize = 0;
    while o < v.len()
        invariant
            o <= v@.len(),
            v@.len() > 0 ==> n > 0,
            v@.len() > 0 ==> bias@.len() > 0,
            all == row_biased(v@, n as int, bias@),
            r@ == all.take(o as int),
        decreases v@.len() - o,
    {
        r.push(add32(v[o], bias[(o % n) % bias.len()]));
        o = o + 1;
        assert(r@ =~= all.take(o as int));
    }
    assert(all.take(o as int) =~= all);
    r
}

// ---------------------------------------------------------------------------
// Four dimensions
// ---------------------------------------------------------------------------

/// The coordinates of element `o` of a tensor whose last three dimensions are given.
pub open spec fn cell_of(o: int, d1: int, d2: int, d3: int) -> (int, int, int, int) {
    (o / d3 / d2 / d1, o / d3 / d2 % d1, o / d3 % d2, o % d3)
}

/// The place of an element of a tensor whose last three dimensions are given.
pub open spec fn place_of(i0: int, i1: int, i2: int, i3: int, d1: int, d2: int, d3: int) -> int {
    ((i0 * d1 + i1) * d2 + i2) * d3 + i3
}

/// The coordinates of an element lie within the dimensions.
pub proof fn lemma_cell_of(o: int, d0: int, d1: int, d2: int, d3: int)
    requires
        0 <= o < ((d0 * d1) * d2) * d3,
        0 <= d0,
        0 <= d1,
        0 <= d2,
        0 <= d3,
    ensures
        d1 > 0,
        d2 > 0,
        d3 > 0,
        0 <= cell_of(o, d1, d2, d3).0 < d0,
        0 <= cell_of(o, d1, d2, d3).1 < d1,
        0 <= cell_of(o, d1, d2, d3).2 < d2,
        0 <= cell_of(o, d1, d2, d3).3 < d3,
{
    let a = d0 * d1;
    assert(a >= 0) by (nonlinear_arith)
        requires
            a == d0 * d1,
            0 <= d0,
            0 <= d1,
    ;
    let b = a * d2;
    assert(b >= 0) by (nonlinear_arith)
        requires
            b == a * d2,
            0 <= a,
            0 <= d2,
    ;
    lemma_row(o, b, d3);
    lemma_row(o / d3, a, d2);
    lemma_row(o / d3 / d2, d0, d1);
}

/// Places within the dimensions are before the number of elements.
pub proof fn lemma_place_of(
    i0: int,
    i1: int,
    i2: int,
    i3: int,
    d0: int,
    d1: int,
    d2: int,
    d3: int,
)
    requires
        0 <= i0 < d0,
        0 <= i1 < d1,
        0 <= i2 < d2,
        0 <= i3 < d3,
    ensures
        0 <= i0 * d1 <= ((d0 * d1) * d2) * d3,
        0 <= i0 * d1 + i1 <= ((d0 * d1) * d2) * d3,
        0 <= (i0 * d1 + i1) * d2 <= ((d0 * d1) * d2) * d3,
        0 <= (i0 * d1 + i1) * d2 + i2 <= ((d0 * d1) * d2) * d3,
        0 <= ((i0 * d1 + i1) * d2 + i2) * d3,
        0 <= place_of(i0, i1, i2, i3, d1, d2, d3) < ((d0 * d1) * d2) * d3,
{
    let a = i0 * d1 + i1;
    lemma_cell(i0, d0, i1, d1);
    let b = a * d2 + i2;
    lemma_cell(a, d0 * d1, i2, d2);
    lemma_cell(b, (d0 * d1) * d2, i3, d3);
    assert((d0 * d1) * d2 <= ((d0 * d1) * d2) * d3) by (nonlinear_arith)
        requires
            0 <= (d0 * d1) * d2,
            d3 >= 1,
    ;
    assert(d0 * d1 <= (d0 * d1) * d2) by (nonlinear_arith)
        requires
            0 <= d0 * d1,
            d2 >= 1,
    ;
}

/// The number of elements, if it fits.
pub fn checked_volume(d0: usize, d1: usize, d2: usize, d3: usize) -> (r: Option<usize>)
    ensures
        match r {
            Some(n) => n == ((d0 * d1) * d2) * d3 && (d0 * d1) <= usize::MAX && (d0 * d1) * d2
                <= usize::MAX,
            None => d0 * d1 > usize::MAX || (d0 * d1) * d2 > usize::MAX || ((d0 * d1) * d2) * d3
                > usize::MAX,
        },
{
    match d0.checked_mul(d1) {
        Some(a) => match a.checked_mul(d2) {
            Some(b) => b.checked_mul(d3),
            None => None,
        },
        None => None,
    }
}

// ---------------------------------------------------------------------------
// Pooling
// ---------------------------------------------------------------------------

/// The sum of the first `n` elements of channel `ch` of `per` elements each, channels first.
pub open spec fn channel_sum(v: Seq<u32>, ch: int, per: int, n: nat) -> u32
    decreases n,
{
    if n == 0 {
        0
    } else {
        sum32(channel_sum(v, ch, per, (n - 1) as nat), v[ch * per + n - 1])
    }
}

/// The mean of each of `channels` channels of `per` elements, channels first.
pub open spec fn channel_means(v: Seq<u32>, channels: nat, per: nat) -> Seq<u32> {
    Seq::new(
        channels,
        |o: int| quotient32(channel_sum(v, o, per as int, per), single_of(per)),
    )
}

/// The mean of each of `channels` channels of `per` elements, channels first.
pub fn average_channels(v: &Vec<u32>, channels: usize, per: usize) -> (r: Vec<u32>)
    requires
        channels * per <= v@.len(),
    ensures
        r@ == channel_means(v@, channels as nat, per as nat),
{
    let ghost all = channel_means(v@, channels as nat, per as nat);
    let mut r: Vec<u32> = Vec::new();
    let mut o: usize = 0;
    while o < channels
        invariant
            o <= channels,
            channels * per <= v@.len(),
            all == channel_means(v@, channels as nat, per as nat),
            r@ == all.take(o as int),
        decreases channels - o,
    {
        let mut sum: u32 = 0;
        let mut s: usize = 0;
        while s < per
            invariant
                s <= per,
                o < channels,
                channels * per <= v@.len(),
                sum == channel_sum(v@, o as int, per as int, s as nat),
            decreases per - s,
        {
            assert(v@.len() == v.len());
            proof {
                lemma_cell(o as int, channels as int, s as int, per as int);
            }
            sum = add32(sum, v[o * per + s]);
            s = s + 1;
        }
        r.push(div32(sum, from_whole(per as u64)));
        o = o + 1;
        assert(r@ =~= all.take(o as int));
    }
    assert(all.take(o as int) =~= all);
    r
}

/// The sum of the first `n` elements of channel `ch` of image `b`, channels last.
pub open spec fn last_channel_sum(v: Seq<u32>, b: int, ch: int, per: int, c: int, n: nat) -> u32
    decreases n,
{
    if n == 0 {
        0
    } else {
        sum32(
            last_channel_sum(v, b, ch, per, c, (n - 1) as nat),
            v[(b * per + n - 1) * c + ch],
        )
    }
}

/// The mean of each of `c` channels of `per` elements of `images` images, channels last.
pub open spec fn last_channel_means(v: Seq<u32>, images: nat, per: nat, c: nat) -> Seq<u32> {
    Seq::new(
        images * c,
        |o: int|
            quotient32(
                last_channel_sum(v, o / c as int, o % c as int, per as int, c as int, per),
                single_of(per),
            ),
    )
}

/// The mean of each of `c` channels of `per` elements of `images` images, channels last.
pub fn average_last_channels(v: &Vec<u32>, images: usize, per: usize, c: usize) -> (r: Vec<u32>)
    requires
        images * c <= usize::MAX,
        (images * per) * c <= v@.len(),
    ensures
        r@ == last_channel_means(v@, images as nat, per as nat, c as nat),
{
    let ghost all = last_channel_means(v@, images as nat, per as nat, c as nat);
    let mut r: Vec<u32> = Vec::new();
    let total: usize = images * c;
    let mut o: usize = 0;
    while o < total
        invariant
            o <= total == images * c,
            (images * per) * c <= v@.len(),
            all == last_channel_means(v@, images as nat, per as nat, c as nat),
            r@ == all.take(o as int),
        decreases total - o,
    {
        proof {
            lemma_row(o as int, images as int, c as int);
        }
        let b: usize = o / c;
        let ch: usize = o % c;
        let mut sum: u32 = 0;
        let mut s: usize = 0;
        while s < per
            invariant
                s <= per,
                b < images,
                ch < c,
                (images * per) * c <= v@.len(),
                sum == last_channel_sum(v@, b as int, ch as int, per as int, c as int, s as nat),
            decreases per - s,
        {
            assert(v@.len() == v.len());
            proof {
                lemma_cell(b as int, images as int, s as int, per as int);
                lemma_cell(b * per + s, images * per, ch as int, c as int);
                assert(b * per + s <= (b * per + s) * c) by (nonlinear_arith)
                    requires
                        b * per + s >= 0,
                        c >= 1,
                ;
            }
            sum = add32(sum, v[(b * per + s) * c + ch]);
            s = s + 1;
        }
        r.push(div32(sum, from_whole(per as u64)));
        o = o + 1;
        assert(r@ =~= all.take(o as int));
    }
    assert(all.take(o as int) =~= all);
    r
}

/// How a window moves over an image, channels first.
#[derive(Debug, Clone, Copy, PartialEq, Eq, Structural)]
pub struct Windows {
    pub images: usize,
    pub channels: usize,
    pub in_h: usize,
    pub in_w: usize,
    pub out_h: usize,
    pub out_w: usize,
    pub kernel_h: usize,
    pub kernel_w: usize,
    pub stride_h: usize,
    pub stride_w: usize,
}

/// How a pool sums up a window.
#[derive(Debug, Clone, Copy, PartialEq, Eq, Structural)]
pub enum Pooling {
    Max,
    Average,
}

/// Bits of negative infinity.
pub const LEAST: u32 = 0xff80_0000;

impl Windows {
    /// The number of elements of the input.
    pub open spec fn in_volume(self) -> int {
        ((self.images * self.channels) * self.in_h) * self.in_w
    }

    /// The number of elements of the output.
    pub open spec fn out_volume(self) -> int {
        ((self.images * self.channels) * self.out_h) * self.out_w
    }
}

/// The input row (or column) under entry `k` of a window.
pub open spec fn under(out: int, stride: int, k: int) -> int {
    out * stride + k
}

/// What the first `t` entries of the window of element `o` come to.
pub open spec fn pooled_window(kind: Pooling, w: Windows, v: Seq<u32>, o: int, t: nat) -> u32
    decreases t,
{
    if t == 0 {
        match kind {
            Pooling::Max => LEAST,
            Pooling::Average => 0,
        }
    } else {
        let before = pooled_window(kind, w, v, o, (t - 1) as nat);
        let (b, ch, oh, ow) = cell_of(o, w.channels as int, w.out_h as int, w.out_w as int);
        let ih = under(oh, w.stride_h as int, (t - 1) / w.kernel_w as int);
        let iw = under(ow, w.stride_w as int, (t - 1) % w.kernel_w as int);
        if ih < w.in_h && iw < w.in_w {
            let x = v[place_of(
                b,
                ch,
                ih,
                iw,
                w.channels as int,
                w.in_h as int,
                w.in_w as int,
            )];
            match kind {
                Pooling::Max => larger(before, x),
                Pooling::Average => sum32(before, x),
            }
        } else {
            before
        }
    }
}

/// Each window's maximum, or its sum over its size; entries beyond the image do not count.
pub open spec fn pooled(kind: Pooling, w: Windows, v: Seq<u32>) -> Seq<u32> {
    let size = (w.kernel_h * w.kernel_w) as nat;
    Seq::new(
        w.out_volume() as nat,
        |o: int|
            match kind {
                Pooling::Max => pooled_window(kind, w, v, o, size),
                Pooling::Average => quotient32(pooled_window(kind, w, v, o, size), single_of(size)),
            },
    )
}

pub(crate) fn reach(out: usize, stride: usize, k: usize) -> (r: u128)
    ensures
        r == under(out as int, stride as int, k as int),
{
    proof {
        assert(0 <= out * stride <= 0xffff_ffff_ffff_ffff * 0xffff_ffff_ffff_ffff)
            by (nonlinear_arith)
            requires
                0 <= out <= 0xffff_ffff_ffff_ffff,
                0 <= stride <= 0xffff_ffff_ffff_ffff,
        ;
    }
    (out as u128) * (stride as u128) + (k as u128)
}

fn pool_window(kind: Pooling, w: Windows, v: &Vec<u32>, o: usize, size: usize) -> (r: u32)
    requires
        w.in_volume() <= v@.len(),
        o < w.out_volume(),
        size == w.kernel_h * w.kernel_w,
    ensures
        r == pooled_window(kind, w, v@, o as int, size as nat),
{
    proof {
        lemma_cell_of(
            o as int,
            w.images as int,
            w.channels as int,
            w.out_h as int,
            w.out_w as int,
        );
    }
    let q: usize = o / w.out_w;
    let ow: usize = o % w.out_w;
    let oh: usize = q % w.out_h;
    let q2: usize = q / w.out_h;
    let ch: usize = q2 % w.channels;
    let b: usize = q2 / w.channels;
    let mut r: u32 = match kind {
        Pooling::Max => LEAST,
        Pooling::Average => 0,
    };
    let mut t: usize = 0;
    while t < size
        invariant
            t <= size,
            size == w.kernel_h * w.kernel_w,
            w.in_volume() <= v@.len(),
            b < w.images,
            ch < w.channels,
            (b as int, ch as int, oh as int, ow as int) == cell_of(
                o as int,
                w.channels as int,
                w.out_h as int,
                w.out_w as int,
            ),
            r == pooled_window(kind, w, v@, o as int, t as nat),
        decreases size - t,
    {
        proof {
            lemma_row(t as int, w.kernel_h as int, w.kernel_w as int);
        }
        let ih: u128 = reach(oh, w.stride_h, t / w.kernel_w);
        let iw: u128 = reach(ow, w.stride_w, t % w.kernel_w);
        if ih < w.in_h as u128 && iw < w.in_w as u128 {
            assert(v@.len() == v.len());
            proof {
                lemma_place_of(
                    b as int,
                    ch as int,
                    ih as int,
                    iw as int,
                    w.images as int,
                    w.channels as int,
                    w.in_h as int,
                    w.in_w as int,
                );
            }
            let x: u32 = v[((b * w.channels + ch) * w.in_h + ih as usize) * w.in_w + iw as usize];
            r =
            match kind {
                Pooling::Max => max32(r, x),
                Pooling::Average => add32(r, x),
            };
        }
        t = t + 1;
    }
    r
}

/// Each window's maximum, or its sum over its size; entries beyond the image do not count.
pub fn pool(kind: Pooling, w: Windows, v: &Vec<u32>) -> (r: Vec<u32>)
    requires
        w.in_volume() <= v@.len(),
        w.images * w.channels <= usize::MAX,
        (w.images * w.channels) * w.out_h <= usize::MAX,
        w.out_volume() <= usize::MAX,
        w.kernel_h * w.kernel_w <= usize::MAX,
    ensures
        r@ == pooled(kind, w, v@),
{
    let ghost all = pooled(kind, w, v@);
    let size: usize = w.kernel_h * w.kernel_w;
    let total: usize = ((w.images * w.channels) * w.out_h) * w.out_w;
    let mut r: Vec<u32> = Vec::new();
    let mut o: usize = 0;
    while o < total
        invariant
            o <= total == w.out_volume(),
            size == w.kernel_h * w.kernel_w,
            w.in_volume() <= v@.len(),
            all == pooled(kind, w, v@),
            all.len() == total,
            r@ == all.take(o as int),
        decreases total - o,
    {
        let x: u32 = pool_window(kind, w, v, o, size);
        r.push(
            match kind {
                Pooling::Max => x,
                Pooling::Average => div32(x, from_whole(size as u64)),
            },
        );
        o = o + 1;
        assert(r@ =~= all.take(o as int));
    }
    assert(all.take(o as int) =~= all);
    r
}

// ---------------------------------------------------------------------------
// Convolution
// ---------------------------------------------------------------------------

/// A grouped convolution, channels first: weights are `[c_out, c_in / group, k_h, k_w]`.
#[derive(Debug, Clone, Copy, PartialEq, Eq, Structural)]
pub struct Convolution {
    pub images: usize,
    pub c_in: usize,
    pub in_h: usize,
    pub in_w: usize,
    pub c_out: usize,
    pub out_h: usize,
    pub out_w: usize,
    pub kernel_h: usize,
    pub kernel_w: usize,
    pub stride_h: usize,
    pub stride_w: usize,
    pub pad_h: usize,
    pub pad_w: usize,
    pub group: usize,
}

impl Convolution {
    /// The number of elements of the input.
    pub open spec fn in_volume(self) -> int {
        ((self.images * self.c_in) * self.in_h) * self.in_w
    }

    /// The number of elements of the output.
    pub open spec fn out_volume(self) -> int {
        ((self.images * self.c_out) * self.out_h) * self.out_w
    }

    /// Input channels of a group.
    pub open spec fn group_in(self) -> int {
        self.c_in as int / self.group as int
    }

    /// Output channels of a group.
    pub open spec fn group_out(self) -> int {
        self.c_out as int / self.group as int
    }

    /// Entries of a kernel.
    pub open spec fn taps(self) -> int {
        (self.group_in() * self.kernel_h) * self.kernel_w
    }

    /// Output channels that the groups share out.
    pub open spec fn shared(self) -> int {
        self.group * self.group_out()
    }

    /// The output channel of element `o`.
    pub open spec fn channel(self, o: int) -> int {
        cell_of(o, self.c_out as int, self.out_h as int, self.out_w as int).1
    }

    /// The number of elements of the output up to the last that is written: a
    /// bias is added to all of them, the groups fill the channels they share out.
    pub open spec fn written(self, biased: bool) -> int {
        if biased {
            self.out_volume()
        } else if self.images == 0 || self.shared() == 0 {
            0
        } else {
            (((self.images - 1) * self.c_out + self.shared()) * self.out_h) * self.out_w
        }
    }

    /// What entry `t` of the kernel meets for element `o`.
    pub open spec fn tap(self, o: int, t: int) -> Tap {
        let (b, oc, oh, ow) = cell_of(o, self.c_out as int, self.out_h as int, self.out_w as int);
        let (_, ic, kh, kw) = cell_of(
            t,
            self.group_in(),
            self.kernel_h as int,
            self.kernel_w as int,
        );
        let ih = under(oh, self.stride_h as int, kh) - self.pad_h;
        let iw = under(ow, self.stride_w as int, kw) - self.pad_w;
        Tap {
            inside: 0 <= ih < self.in_h && 0 <= iw < self.in_w,
            x: place_of(
                b,
                (oc / self.group_out()) * self.group_in() + ic,
                ih,
                iw,
                self.c_in as int,
                self.in_h as int,
                self.in_w as int,
            ),
            w: oc * self.taps() + t,
        }
    }
}

/// What an entry of a kernel meets.
pub struct Tap {
    /// Whether it lies within the image.
    pub inside: bool,
    /// The place of the input's element.
    pub x: int,
    /// The place of the kernel's entry.
    pub w: int,
}

/// Whether what the first `n` entries of the kernel read for element `o` is there.
pub open spec fn window_there(cv: Convolution, x: Seq<u32>, w: Seq<u32>, o: int, n: int) -> bool {
    forall|t: int|
        0 <= t < n && (#[trigger] cv.tap(o, t)).inside ==> cv.tap(o, t).x < x.len() && cv.tap(
            o,
            t,
        ).w < w.len()
}

/// Whether what the windows of the first `n` elements read is there.
pub open spec fn windows_there(cv: Convolution, x: Seq<u32>, w: Seq<u32>, n: int) -> bool {
    forall|o: int|
        0 <= o < n && #[trigger] cv.channel(o) < cv.shared() ==> window_there(cv, x, w, o, cv.taps())
}

/// Whether all that a convolution reads and writes is there. The entries of a
/// kernel that is used are an index-sized number.
pub open spec fn convolution_fits(
    cv: Convolution,
    x: Seq<u32>,
    w: Seq<u32>,
    bias: Seq<u32>,
    o: Seq<u32>,
) -> bool {
    let n = cv.written(bias.len() > 0);
    &&& cv.group > 0
    &&& n <= o.len()
    &&& n > 0 ==> bias.len() == 0 || bias.len() >= cv.c_out
    &&& n > 0 && cv.shared() > 0 ==> cv.taps() <= usize::MAX
    &&& windows_there(cv, x, w, n)
}

/// The first `t` terms of element `o` of a convolution, added up. Entries of the
/// kernel that lie beyond the image add nothing.
pub open spec fn convolved_window(cv: Convolution, x: Seq<u32>, w: Seq<u32>, o: int, t: nat) -> u32
    decreases t,
{
    if t == 0 {
        0
    } else {
        let before = convolved_window(cv, x, w, o, (t - 1) as nat);
        let tap = cv.tap(o, t - 1);
        if tap.inside {
            sum32(before, product32(x[tap.x], w[tap.w]))
        } else {
            before
        }
    }
}

/// A convolution with a bias per output channel, if there is one, up to the last
/// element that is written. Output channels beyond those that the groups share
/// out keep what is there.
pub open spec fn convolved(
    cv: Convolution,
    x: Seq<u32>,
    w: Seq<u32>,
    bias: Seq<u32>,
    there: Seq<u32>,
) -> Seq<u32> {
    Seq::new(
        cv.written(bias.len() > 0) as nat,
        |o: int|
            {
                let sum = if cv.channel(o) < cv.shared() {
                    convolved_window(cv, x, w, o, cv.taps() as nat)
                } else {
                    there[o]
                };
                if bias.len() == 0 {
                    sum
                } else {
                    sum32(sum, bias[cv.channel(o)])
                }
            },
    )
}

/// A product of three sizes, if it is an index-sized number.
fn product_of(a: usize, b: usize, c: usize) -> (r: Option<usize>)
    ensures
        match r {
            Some(n) => n == (a * b) * c,
            None => (a * b) * c > usize::MAX,
        },
{
    if c == 0 {
        assert((a * b) * c == 0) by (nonlinear_arith)
            requires
                c == 0,
        ;
        return Some(0);
    }
    match a.checked_mul(b) {
        Some(p) => p.checked_mul(c),
        None => {
            assert((a * b) * c >= a * b) by (nonlinear_arith)
                requires
                    c >= 1,
                    a * b >= 0,
            ;
            None
        },
    }
}

/// The place of a row's element, if it is an index-sized number.
fn find_cell(i: usize, m: usize, j: usize) -> (r: Option<usize>)
    ensures
        match r {
            Some(n) => n == i * m + j,
            None => i * m + j > usize::MAX,
        },
{
    match i.checked_mul(m) {
        Some(p) => p.checked_add(j),
        None => None,
    }
}

/// The place of an element of a tensor, if it is an index-sized number.
fn find_place(i0: usize, i1: usize, i2: usize, i3: usize, d1: usize, d2: usize, d3: usize) -> (r:
    Option<usize>)
    requires
        i2 < d2,
        i3 < d3,
    ensures
        match r {
            Some(n) => n == place_of(
                i0 as int,
                i1 as int,
                i2 as int,
                i3 as int,
                d1 as int,
                d2 as int,
                d3 as int,
            ),
            None => place_of(
                i0 as int,
                i1 as int,
                i2 as int,
                i3 as int,
                d1 as int,
                d2 as int,
                d3 as int,
            ) > usize::MAX,
        },
{
    let ghost a = i0 * d1 + i1;
    let ghost b = a * d2 + i2;
    proof {
        assert(a >= 0) by (nonlinear_arith)
            requires
                a == i0 * d1 + i1,
                0 <= i0,
                0 <= d1,
                0 <= i1,
        ;
        assert(b >= a) by (nonlinear_arith)
            requires
                b == a * d2 + i2,
                a >= 0,
                d2 >= 1,
                i2 >= 0,
        ;
        assert(b * d3 + i3 >= b) by (nonlinear_arith)
            requires
                b >= 0,
                d3 >= 1,
                i3 >= 0,
        ;
    }
    match find_cell(i0, d1, i1) {
        Some(a) => match find_cell(a, d2, i2) {
            Some(b) => find_cell(b, d3, i3),
            None => None,
        },
        None => None,
    }
}

fn convolve_window(cv: Convolution, x: &Vec<u32>, w: &Vec<u32>, o: usize, taps: usize) -> (r: Option<
    u32,
>)
    requires
        cv.group > 0,
        o < cv.out_volume(),
        cv.channel(o as int) < cv.shared(),
        taps == cv.taps(),
    ensures
        match r {
            Some(v) => window_there(cv, x@, w@, o as int, cv.taps()) && v == convolved_window(
                cv,
                x@,
                w@,
                o as int,
                cv.taps() as nat,
            ),
            None => !window_there(cv, x@, w@, o as int, cv.taps()),
        },
{
    proof {
        lemma_cell_of(
            o as int,
            cv.images as int,
            cv.c_out as int,
            cv.out_h as int,
            cv.out_w as int,
        );
    }
    let q: usize = o / cv.out_w;
    let ow: usize = o % cv.out_w;
    let oh: usize = q % cv.out_h;
    let q2: usize = q / cv.out_h;
    let oc: usize = q2 % cv.c_out;
    let b: usize = q2 / cv.c_out;
    let group_in: usize = cv.c_in / cv.group;
    let group_out: usize = cv.c_out / cv.group;
    proof {
        assert(0 <= cv.group * group_out) by (nonlinear_arith)
            requires
                0 <= cv.group,
                0 <= group_out,
        ;
        lemma_row(oc as int, cv.group as int, group_out as int);
        assert(cv.group * group_in <= cv.c_in) by (nonlinear_arith)
            requires
                group_in == cv.c_in as int / cv.group as int,
                cv.group > 0,
        ;
        assert((1 * group_in) == group_in);
    }
    let g: usize = oc / group_out;
    let mut sum: u32 = 0;
    let mut t: usize = 0;
    while t < taps
        invariant
            t <= taps,
            taps == cv.taps(),
            taps == ((1 * group_in) * cv.kernel_h) * cv.kernel_w,
            cv.group > 0,
            group_in == cv.group_in(),
            g == oc as int / cv.group_out(),
            g < cv.group,
            cv.group * group_in <= cv.c_in,
            (b as int, oc as int, oh as int, ow as int) == cell_of(
                o as int,
                cv.c_out as int,
                cv.out_h as int,
                cv.out_w as int,
            ),
            window_there(cv, x@, w@, o as int, t as int),
            sum == convolved_window(cv, x@, w@, o as int, t as nat),
        decreases taps - t,
    {
        proof {
            lemma_cell_of(t as int, 1, group_in as int, cv.kernel_h as int, cv.kernel_w as int);
        }
        let ghost tap = cv.tap(o as int, t as int);
        let kw: usize = t % cv.kernel_w;
        let p: usize = t / cv.kernel_w;
        let kh: usize = p % cv.kernel_h;
        let ic: usize = p / cv.kernel_h % group_in;
        let ih: u128 = reach(oh, cv.stride_h, kh);
        let iw: u128 = reach(ow, cv.stride_w, kw);
        if ih >= cv.pad_h as u128 && ih - (cv.pad_h as u128) < cv.in_h as u128 && iw
            >= cv.pad_w as u128 && iw - (cv.pad_w as u128) < cv.in_w as u128 {
            let ih: usize = (ih - cv.pad_h as u128) as usize;
            let iw: usize = (iw - cv.pad_w as u128) as usize;
            proof {
                lemma_cell(g as int, cv.group as int, ic as int, group_in as int);
            }
            let channel: usize = g * group_in + ic;
            let at_x: Option<usize> = find_place(b, channel, ih, iw, cv.c_in, cv.in_h, cv.in_w);
            let at_w: Option<usize> = find_cell(oc, taps, t);
            assert(tap.inside);
            assert(x@.len() == x.len() && w@.len() == w.len());
            match (at_x, at_w) {
                (Some(i), Some(j)) => {
                    assert(tap.x == i && tap.w == j);
                    if i >= x.len() || j >= w.len() {
                        return None;
                    }
                    sum = add32(sum, mul32(x[i], w[j]));
                },
                _ => {
                    return None;
                },
            }
        }
        t = t + 1;
    }
    Some(sum)
}

/// Up to the last element that is written lie elements of the output.
proof fn lemma_written(cv: Convolution, biased: bool)
    requires
        cv.group > 0,
    ensures
        0 <= cv.written(biased) <= cv.out_volume(),
        0 <= cv.shared() <= cv.c_out,
        0 <= cv.taps(),
{
    let s = cv.shared();
    assert(0 <= s <= cv.c_out) by (nonlinear_arith)
        requires
            s == cv.group * (cv.c_out as int / cv.group as int),
            cv.group > 0,
            cv.c_out >= 0,
    ;
    assert(0 <= cv.taps()) by (nonlinear_arith)
        requires
            cv.taps() == (cv.group_in() * cv.kernel_h) * cv.kernel_w,
            cv.group_in() >= 0,
            cv.kernel_h >= 0,
            cv.kernel_w >= 0,
    ;
    assert(0 <= cv.out_volume()) by (nonlinear_arith)
        requires
            cv.out_volume() == ((cv.images * cv.c_out) * cv.out_h) * cv.out_w,
            cv.images >= 0,
            cv.c_out >= 0,
            cv.out_h >= 0,
            cv.out_w >= 0,
    ;
    if !biased && cv.images > 0 {
        let rows = (cv.images - 1) * cv.c_out + s;
        assert(0 <= rows <= cv.images * cv.c_out) by (nonlinear_arith)
            requires
                rows == (cv.images - 1) * cv.c_out + s,
                0 <= s <= cv.c_out,
                cv.images >= 1,
        ;
        let all = cv.images * cv.c_out;
        assert(0 <= rows * cv.out_h <= all * cv.out_h) by (nonlinear_arith)
            requires
                0 <= rows <= all,
                cv.out_h >= 0,
        ;
        let r = rows * cv.out_h;
        let a = all * cv.out_h;
        assert(0 <= r * cv.out_w <= a * cv.out_w) by (nonlinear_arith)
            requires
                0 <= r <= a,
                cv.out_w >= 0,
        ;
    }
}

/// The number of output elements up to the last that is written, if it is an index-sized number.
fn find_written(cv: Convolution, biased: bool) -> (r: Option<usize>)
    requires
        cv.group > 0,
    ensures
        match r {
            Some(n) => n == cv.written(biased),
            None => cv.written(biased) > usize::MAX,
        },
{
    let group_out: usize = cv.c_out / cv.group;
    proof {
        lemma_written(cv, biased);
    }
    let shared: usize = cv.group * group_out;
    if cv.images == 0 || (!biased && shared == 0) {
        assert(cv.images == 0 ==> ((cv.images * cv.c_out) * cv.out_h) * cv.out_w == 0)
            by (nonlinear_arith);
        return Some(0);
    }
    let ghost rows = if biased {
        cv.images * cv.c_out
    } else {
        (cv.images - 1) * cv.c_out + shared
    };
    let found: Option<usize> = if biased {
        cv.images.checked_mul(cv.c_out)
    } else {
        find_cell(cv.images - 1, cv.c_out, shared)
    };
    match found {
        Some(rows) => product_of(rows, cv.out_h, cv.out_w),
        None => {
            if cv.out_h == 0 || cv.out_w == 0 {
                assert((rows * cv.out_h) * cv.out_w == 0) by (nonlinear_arith)
                    requires
                        cv.out_h == 0 || cv.out_w == 0,
                ;
                return Some(0);
            }
            assert((rows * cv.out_h) * cv.out_w >= rows) by (nonlinear_arith)
                requires
                    rows >= 0,
                    cv.out_h >= 1,
                    cv.out_w >= 1,
            ;
            None
        },
    }
}

/// A convolution with a bias per output channel, if there is one, up to the last
/// element that is written, where all that it reads and writes is there.
pub fn convolve(
    cv: Convolution,
    x: &Vec<u32>,
    w: &Vec<u32>,
    bias: &Vec<u32>,
    there: &Vec<u32>,
) -> (r: Option<Vec<u32>>)
    ensures
        match r {
            Some(v) => convolution_fits(cv, x@, w@, bias@, there@) && v@ == convolved(
                cv,
                x@,
                w@,
                bias@,
                there@,
            ),
            None => !convolution_fits(cv, x@, w@, bias@, there@),
        },
{
    if cv.group == 0 {
        return None;
    }
    let ghost all = convolved(cv, x@, w@, bias@, there@);
    let biased: bool = bias.len() > 0;
    proof {
        lemma_written(cv, biased);
    }
    let total: usize = match find_written(cv, biased) {
        Some(n) => n,
        None => {
            assert(there@.len() == there.len());
            return None;
        },
    };
    if total > there.len() || (total > 0 && biased && bias.len() < cv.c_out) {
        return None;
    }
    let group_in: usize = cv.c_in / cv.group;
    let group_out: usize = cv.c_out / cv.group;
    let shared: usize = cv.group * group_out;
    let found: Option<usize> = product_of(group_in, cv.kernel_h, cv.kernel_w);
    let taps: usize = match found {
        Some(n) => n,
        None => {
            if total > 0 && shared > 0 {
                return None;
            }
            0
        },
    };
    let mut r: Vec<u32> = Vec::new();
    let mut o: usize = 0;
    while o < total
        invariant
            o <= total == cv.written(biased),
            total <= cv.out_volume(),
            cv.group > 0,
            biased == (bias@.len() > 0),
            shared == cv.shared(),
            total > 0 && shared > 0 ==> taps == cv.taps(),
            total <= there@.len(),
            total > 0 && biased ==> bias@.len() >= cv.c_out,
            all == convolved(cv, x@, w@, bias@, there@),
            all.len() == total,
            windows_there(cv, x@, w@, o as int),
            r@ == all.take(o as int),
        decreases total - o,
    {
        proof {
            lemma_cell_of(
                o as int,
                cv.images as int,
                cv.c_out as int,
                cv.out_h as int,
                cv.out_w as int,
            );
        }
        let oc: usize = o / cv.out_w / cv.out_h % cv.c_out;
        assert(oc == cv.channel(o as int));
        let sum: u32 = if oc < shared {
            match convolve_window(cv, x, w, o, taps) {
                Some(v) => v,
                None => {
                    return None;
                },
            }
        } else {
            there[o]
        };
        if biased {
            r.push(add32(sum, bias[oc]));
        } else {
            r.push(sum);
        }
        o = o + 1;
        assert(r@ =~= all.take(o as int));
    }
    assert(all.take(o as int) =~= all);
    Some(r)
}

// ---------------------------------------------------------------------------
// Softmax and sigmoid
// ---------------------------------------------------------------------------

/// The largest of `n` elements from `start`.
pub open spec fn row_max(v: Seq<u32>, start: int, n: nat) -> u32
    decreases n,
{
    if n == 0 {
        LEAST
    } else {
        larger(row_max(v, start, (n - 1) as nat), v[start + n - 1])
    }
}

/// The sum of `n` elements from `start`.
pub open spec fn row_sum(v: Seq<u32>, start: int, n: nat) -> u32
    decreases n,
{
    if n == 0 {
        0
    } else {
        sum32(row_sum(v, start, (n - 1) as nat), v[start + n - 1])
    }
}

/// Each element less the largest of its row of `n`: the numbers whose
/// exponentials make up the softmax.
pub open spec fn softmax_arguments(v: Seq<u32>, rows: nat, n: nat) -> Seq<u32> {
    Seq::new(
        rows * n,
        |i: int| difference32(v[i], row_max(v, (i / n as int) * n as int, n)),
    )
}

/// Exponentials over their sum in each row of `n`.
pub open spec fn normalized_rows(e: Seq<u32>, n: nat) -> Seq<u32> {
    Seq::new(
        e.len(),
        |i: int| quotient32(e[i], row_sum(e, (i / n as int) * n as int, n)),
    )
}

/// Each element less the largest of its row of `n`.
pub fn shift_rows(v: &Vec<u32>, rows: usize, n: usize) -> (r: Vec<u32>)
    requires
        rows * n <= v@.len(),
    ensures
        r@ == softmax_arguments(v@, rows as nat, n as nat),
{
    let ghost all = softmax_arguments(v@, rows as nat, n as nat);
    assert(v@.len() == v.len());
    let total: usize = rows * n;
    let mut r: Vec<u32> = Vec::new();
    let mut i: usize = 0;
    while i < total
        invariant
            i <= total == rows * n,
            rows * n <= v@.len(),
            all == softmax_arguments(v@, rows as nat, n as nat),
            all.len() == total,
            r@ == all.take(i as int),
        decreases total - i,
    {
        proof {
            lemma_row(i as int, rows as int, n as int);
            lemma_row_fits(i as int, rows as int, n as int);
        }
        let start: usize = (i / n) * n;
        let mut most: u32 = LEAST;
        let mut k: usize = 0;
        while k < n
            invariant
                k <= n,
                start + n <= v@.len(),
                most == row_max(v@, start as int, k as nat),
            decreases n - k,
        {
            assert(v@.len() == v.len());
            most = max32(most, v[start + k]);
            k = k + 1;
        }
        r.push(sub32(v[i], most));
        i = i + 1;
        assert(r@ =~= all.take(i as int));
    }
    assert(all.take(i as int) =~= all);
    r
}

proof fn lemma_row_fits(i: int, rows: int, n: int)
    requires
        n > 0,
        0 <= i / n < rows,
    ensures
        0 <= (i / n) * n,
        (i / n) * n + n <= rows * n,
{
    let q = i / n;
    assert(0 <= q * n && q * n + n <= rows * n) by (nonlinear_arith)
        requires
            n > 0,
            0 <= q < rows,
    ;
}

/// Exponentials over their sum in each row of `n`.
pub fn normalize_rows(e: &Vec<u32>, rows: usize, n: usize) -> (r: Vec<u32>)
    requires
        rows * n == e@.len(),
    ensures
        r@ == normalized_rows(e@, n as nat),
{
    let ghost all = normalized_rows(e@, n as nat);
    let mut r: Vec<u32> = Vec::new();
    let mut i: usize = 0;
    while i < e.len()
        invariant
            i <= e@.len(),
            rows * n == e@.len(),
            all == normalized_rows(e@, n as nat),
            r@ == all.take(i as int),
        decreases e@.len() - i,
    {
        assert(e@.len() == e.len());
        proof {
            lemma_row(i as int, rows as int, n as int);
            lemma_row_fits(i as int, rows as int, n as int);
        }
        let start: usize = (i / n) * n;
        let mut sum: u32 = 0;
        let mut k: usize = 0;
        while k < n
            invariant
                k <= n,
                start + n <= e@.len(),
                sum == row_sum(e@, start as int, k as nat),
            decreases n - k,
        {
            assert(e@.len() == e.len());
            sum = add32(sum, e[start + k]);
            k = k + 1;
        }
        r.push(div32(e[i], sum));
        i = i + 1;
        assert(r@ =~= all.take(i as int));
    }
    assert(all.take(i as int) =~= all);
    r
}

/// Each element with the other sign: the numbers whose exponentials make up the sigmoid.
pub open spec fn sigmoid_arguments(v: Seq<u32>) -> Seq<u32> {
    v.map_values(|x: u32| x ^ 0x8000_0000)
}

/// Each element with the other sign.
pub fn flip_signs(v: &Vec<u32>) -> (r: Vec<u32>)
    ensures
        r@ == sigmoid_arguments(v@),
{
    let mut r: Vec<u32> = Vec::new();
    let mut i: usize = 0;
    while i < v.len()
        invariant
            i <= v@.len(),
            r@ == sigmoid_arguments(v@).take(i as int),
        decreases v@.len() - i,
    {
        r.push(v[i] ^ 0x8000_0000);
        i = i + 1;
        assert(r@ =~= sigmoid_arguments(v@).take(i as int));
    }
    assert(sigmoid_arguments(v@).take(i as int) =~= sigmoid_arguments(v@));
    r
}

/// One over one more than each exponential.
pub open spec fn sigmoids(e: Seq<u32>) -> Seq<u32> {
    e.map_values(|x: u32| quotient32(ONE, sum32(ONE, x)))
}

/// One over one more than each exponential.
pub fn to_sigmoids(e: &Vec<u32>) -> (r: Vec<u32>)
    ensures
        r@ == sigmoids(e@),
{
    let mut r: Vec<u32> = Vec::new();
    let mut i: usize = 0;
    while i < e.len()
        invariant
            i <= e@.len(),
            r@ == sigmoids(e@).take(i as int),
        decreases e@.len() - i,
    {
        r.push(div32(ONE, add32(ONE, e[i])));
        i = i + 1;
        assert(r@ =~= sigmoids(e@).take(i as int));
    }
    assert(sigmoids(e@).take(i as int) =~= sigmoids(e@));
    r
}

// ---------------------------------------------------------------------------
// Moving elements
// ---------------------------------------------------------------------------

/// Bits of 0.5.
pub const HALF_BITS: u32 = 0x3f00_0000;

/// The input row (or column) that goes to an output row: the one under its
/// middle, or under its start.
pub open spec fn scaled_index(out: nat, in_size: nat, out_size: nat, middle: bool) -> nat {
    let scale = quotient32(single_of(in_size), single_of(out_size));
    let at = if middle {
        index_below(product32(sum32(single_of(out), HALF_BITS), scale))
    } else {
        index_below(product32(single_of(out), scale))
    };
    if at < in_size {
        at as nat
    } else {
        (in_size - 1) as nat
    }
}

/// The input row (or column) that goes to an output row.
pub fn scale_index(out: usize, in_size: usize, out_size: usize, middle: bool) -> (r: usize)
    requires
        in_size > 0,
    ensures
        r == scaled_index(out as nat, in_size as nat, out_size as nat, middle),
        r < in_size,
{
    let scale: u32 = div32(from_whole(in_size as u64), from_whole(out_size as u64));
    let o: u32 = from_whole(out as u64);
    let at: usize = if middle {
        to_index_below(mul32(add32(o, HALF_BITS), scale))
    } else {
        to_index_below(mul32(o, scale))
    };
    if at < in_size {
        at
    } else {
        in_size - 1
    }
}

/// Images of another size, channels first; kernel and stride play no part.
pub open spec fn resized(w: Windows, v: Seq<u32>, middle: bool) -> Seq<u32> {
    Seq::new(
        w.out_volume() as nat,
        |o: int|
            {
                let (b, ch, oh, ow) = cell_of(
                    o,
                    w.channels as int,
                    w.out_h as int,
                    w.out_w as int,
                );
                v[place_of(
                    b,
                    ch,
                    scaled_index(oh as nat, w.in_h as nat, w.out_h as nat, middle) as int,
                    scaled_index(ow as nat, w.in_w as nat, w.out_w as nat, middle) as int,
                    w.channels as int,
                    w.in_h as int,
                    w.in_w as int,
                )]
            },
    )
}

/// Images of another size, channels first.
pub fn resize_images(w: Windows, v: &Vec<u32>, middle: bool) -> (r: Vec<u32>)
    requires
        w.in_volume() <= v@.len(),
        w.images * w.channels <= usize::MAX,
        (w.images * w.channels) * w.out_h <= usize::MAX,
        w.out_volume() <= usize::MAX,
        w.out_volume() > 0 ==> w.in_h > 0 && w.in_w > 0,
    ensures
        r@ == resized(w, v@, middle),
{
    let ghost all = resized(w, v@, middle);
    let total: usize = ((w.images * w.channels) * w.out_h) * w.out_w;
    let mut r: Vec<u32> = Vec::new();
    let mut o: usize = 0;
    while o < total
        invariant
            o <= total == w.out_volume(),
            w.in_volume() <= v@.len(),
            w.out_volume() > 0 ==> w.in_h > 0 && w.in_w > 0,
            all == resized(w, v@, middle),
            all.len() == total,
            r@ == all.take(o as int),
        decreases total - o,
    {
        proof {
            lemma_cell_of(
                o as int,
                w.images as int,
                w.channels as int,
                w.out_h as int,
                w.out_w as int,
            );
        }
        let q: usize = o / w.out_w;
        let ow: usize = o % w.out_w;
        let oh: usize = q % w.out_h;
        let q2: usize = q / w.out_h;
        let ch: usize = q2 % w.channels;
        let b: usize = q2 / w.channels;
        let ih: usize = scale_index(oh, w.in_h, w.out_h, middle);
        let iw: usize = scale_index(ow, w.in_w, w.out_w, middle);
        assert(v@.len() == v.len());
        proof {
            lemma_place_of(
                b as int,
                ch as int,
                ih as int,
                iw as int,
                w.images as int,
                w.channels as int,
                w.in_h as int,
                w.in_w as int,
            );
        }
        r.push(v[((b * w.channels + ch) * w.in_h + ih) * w.in_w + iw]);
        o = o + 1;
        assert(r@ =~= all.take(o as int));
    }
    assert(all.take(o as int) =~= all);
    r
}

/// Every `step`th element from `start` to before `end`, at most `limit` of them.
pub open spec fn stepped(v: Seq<u32>, start: int, end: int, step: int, limit: nat) -> Seq<u32> {
    let all = if start < end {
        (end - start + step - 1) / step
    } else {
        0
    };
    Seq::new(
        if all < limit {
            all as nat
        } else {
            limit
        },
        |k: int| v[start + k * step],
    )
}

/// Every `step`th element from `start` to before `end`, at most `limit` of them.
pub fn take_steps(v: &Vec<u32>, start: usize, end: usize, step: usize, limit: usize) -> (r: Vec<u32>)
    requires
        end <= v@.len(),
        step > 0,
    ensures
        r@ == stepped(v@, start as int, end as int, step as int, limit as nat),
{
    let ghost all = stepped(v@, start as int, end as int, step as int, limit as nat);
    let ghost count = if start < end {
        (end - start + step - 1) / step as int
    } else {
        0
    };
    let mut r: Vec<u32> = Vec::new();
    let mut at: usize = start;
    let mut more: bool = start < end;
    proof {
        if start < end {
            assert(count >= 1) by (nonlinear_arith)
                requires
                    count == (end - start + step - 1) / step as int,
                    end - start >= 1,
                    step > 0,
            ;
        }
    }
    assert(r@ =~= all.take(0));
    while more && r.len() < limit
        invariant
            end <= v@.len(),
            step > 0,
            all == stepped(v@, start as int, end as int, step as int, limit as nat),
            count == if start < end {
                (end - start + step - 1) / step as int
            } else {
                0
            },
            r@.len() <= limit,
            r@.len() <= count,
            r@ == all.take(r@.len() as int),
            more ==> at == start + r@.len() * step && at < end,
            more == (r@.len() < count),
        decreases limit - r@.len(),
    {
        assert(v@.len() == v.len());
        let ghost k = r@.len() as int;
        r.push(v[at]);
        assert(r@ =~= all.take(k + 1));
        proof {
            assert((k + 1) * step == k * step + step) by (nonlinear_arith);
            assert(k + 1 < count <==> start + (k + 1) * step < end) by (nonlinear_arith)
                requires
                    count == (end - start + step - 1) / step as int,
                    step > 0,
            ;
        }
        if step < end - at {
            at = at + step;
        } else {
            more = false;
        }
    }
    assert(r@.len() == all.len());
    assert(all.take(r@.len() as int) =~= all);
    r
}

// ---------------------------------------------------------------------------
// Any number of dimensions
// ---------------------------------------------------------------------------

/// How far apart neighbours along dimension `d` are: the product of the later dimensions.
pub open spec fn stride_of(dims: Seq<usize>, d: nat) -> nat
    decreases dims.len() - d,
{
    if d + 1 >= dims.len() {
        1
    } else {
        stride_of(dims, d + 1) * (dims[d as int + 1] as nat)
    }
}

/// All strides are index-sized numbers.
pub open spec fn strides_fit(dims: Seq<usize>) -> bool {
    forall|d: nat| d < dims.len() ==> #[trigger] stride_of(dims, d) <= usize::MAX
}

/// All strides.
pub open spec fn strides_of(dims: Seq<usize>) -> Seq<nat> {
    Seq::new(dims.len(), |d: int| stride_of(dims, d as nat))
}

/// All strides, if they fit.
pub fn checked_strides(dims: &Vec<usize>) -> (r: Option<Vec<usize>>)
    ensures
        match r {
            Some(v) => strides_fit(dims@) && v@.len() == dims@.len() && forall|d: nat|
                d < dims@.len() ==> #[trigger] stride_of(dims@, d) == v@[d as int],
            None => !strides_fit(dims@),
        },
{
    let n: usize = dims.len();
    let mut v: Vec<usize> = Vec::new();
    let mut i: usize = 0;
    while i < n
        invariant
            i <= n,
            v@.len() == i,
        decreases n - i,
    {
        v.push(1);
        i = i + 1;
    }
    let mut d: usize = n;
    while d > 0
        invariant
            d <= n == dims@.len(),
            v@.len() == n,
            forall|e: nat| d <= e < n ==> #[trigger] stride_of(dims@, e) == v@[e as int],
        decreases d,
    {
        d = d - 1;
        if d + 1 < n {
            assert(stride_of(dims@, (d + 1) as nat) == v@[d + 1]);
            match v[d + 1].checked_mul(dims[d + 1]) {
                Some(p) => {
                    v.set(d, p);
                },
                None => {
                    assert(stride_of(dims@, d as nat) > usize::MAX);
                    return None;
                },
            }
        } else {
            v.set(d, 1);
        }
        assert(stride_of(dims@, d as nat) == v@[d as int]);
    }
    Some(v)
}

/// Where element `rem` of a transposed tensor comes from, dimensions before `d` aside.
pub open spec fn source_of(
    rem: nat,
    d: nat,
    out_strides: Seq<nat>,
    in_strides: Seq<nat>,
    perm: Seq<usize>,
) -> nat
    decreases in_strides.len() - d,
{
    if d >= in_strides.len() {
        0
    } else {
        (rem / out_strides[d as int]) * in_strides[perm[d as int] as int] + source_of(
            rem % out_strides[d as int],
            d + 1,
            out_strides,
            in_strides,
            perm,
        )
    }
}

/// The dimensions in another order.
pub open spec fn reordered(dims: Seq<usize>, perm: Seq<usize>) -> Seq<usize> {
    perm.map_values(|p: usize| dims[p as int])
}

/// Where element `i` of a transposed tensor comes from.
pub open spec fn origin(dims: Seq<usize>, perm: Seq<usize>, i: nat) -> nat {
    source_of(i, 0, strides_of(reordered(dims, perm)), strides_of(dims), perm)
}

/// `total` elements of a tensor with its dimensions in another order.
pub open spec fn reordered_elements(v: Seq<u32>, dims: Seq<usize>, perm: Seq<usize>, total: nat) -> Seq<
    u32,
> {
    Seq::new(total, |i: int| v[origin(dims, perm, i as nat) as int])
}

fn find_origin(
    i: usize,
    len: usize,
    out_strides: &Vec<usize>,
    in_strides: &Vec<usize>,
    perm: &Vec<usize>,
    Ghost(outs): Ghost<Seq<nat>>,
    Ghost(ins): Ghost<Seq<nat>>,
) -> (r: Option<usize>)
    requires
        out_strides@.len() >= in_strides@.len(),
        perm@.len() >= in_strides@.len(),
        forall|d: int| 0 <= d < in_strides@.len() ==> out_strides@[d] > 0,
        forall|d: int| 0 <= d < in_strides@.len() ==> perm@[d] < in_strides@.len(),
        ins.len() == in_strides@.len(),
        outs.len() >= in_strides@.len(),
        forall|d: int| 0 <= d < in_strides@.len() ==> ins[d] == in_strides@[d],
        forall|d: int| 0 <= d < in_strides@.len() ==> outs[d] == out_strides@[d],
    ensures
        match r {
            Some(k) => k == source_of(i as nat, 0, outs, ins, perm@) && k < len,
            None => source_of(i as nat, 0, outs, ins, perm@) >= len,
        },
{
    let n: usize = in_strides.len();
    let mut sum: usize = 0;
    let mut rem: usize = i;
    let mut d: usize = 0;
    while d < n
        invariant
            d <= n == in_strides@.len(),
            out_strides@.len() >= n,
            perm@.len() >= n,
            forall|e: int| 0 <= e < n ==> out_strides@[e] > 0,
            forall|e: int| 0 <= e < n ==> perm@[e] < n,
            ins.len() == n,
            outs.len() >= n,
            forall|e: int| 0 <= e < n ==> ins[e] == in_strides@[e],
            forall|e: int| 0 <= e < n ==> outs[e] == out_strides@[e],
            sum <= len,
            source_of(i as nat, 0, outs, ins, perm@) == sum + source_of(
                rem as nat,
                d as nat,
                outs,
                ins,
                perm@,
            ),
        decreases n - d,
    {
        let q: usize = rem / out_strides[d];
        let p: usize = perm[d];
        match q.checked_mul(in_strides[p]) {
            Some(step) => {
                if step > len - sum {
                    return None;
                }
                sum = sum + step;
            },
            None => {
                return None;
            },
        }
        rem = rem % out_strides[d];
        d = d + 1;
    }
    if sum < len {
        Some(sum)
    } else {
        None
    }
}

/// `total` elements of a tensor with its dimensions in another order; nothing
/// where one would come from beyond the tensor.
pub fn reorder_elements(v: &Vec<u32>, dims: &Vec<usize>, perm: &Vec<usize>, total: usize) -> (r: Option<
    Vec<u32>,
>)
    requires
        dims@.len() > 0,
        perm@.len() >= dims@.len(),
        forall|d: int| 0 <= d < perm@.len() ==> (#[trigger] perm@[d]) < dims@.len(),
        forall|d: int| 0 <= d < dims@.len() ==> (#[trigger] dims@[d]) > 0,
        strides_fit(dims@),
        strides_fit(reordered(dims@, perm@)),
    ensures
        match r {
            Some(w) => w@ == reordered_elements(v@, dims@, perm@, total as nat) && forall|i: nat|
                i < total ==> #[trigger] origin(dims@, perm@, i) < v@.len(),
            None => exists|i: nat| i < total && #[trigger] origin(dims@, perm@, i) >= v@.len(),
        },
{
    let mut out_dims: Vec<usize> = Vec::new();
    let mut d: usize = 0;
    while d < perm.len()
        invariant
            d <= perm@.len(),
            forall|d: int| 0 <= d < perm@.len() ==> (#[trigger] perm@[d]) < dims@.len(),
            out_dims@ == reordered(dims@, perm@).take(d as int),
        decreases perm@.len() - d,
    {
        out_dims.push(dims[perm[d]]);
        d = d + 1;
        assert(out_dims@ =~= reordered(dims@, perm@).take(d as int));
    }
    assert(out_dims@ =~= reordered(dims@, perm@));
    let out_strides: Vec<usize> = match checked_strides(&out_dims) {
        Some(s) => s,
        None => {
            assert(false);
            Vec::new()
        },
    };
    let in_strides: Vec<usize> = match checked_strides(dims) {
        Some(s) => s,
        None => {
            assert(false);
            Vec::new()
        },
    };
    let ghost outs = strides_of(out_dims@);
    let ghost ins = strides_of(dims@);
    proof {
        assert forall|d: int| 0 <= d < in_strides@.len() implies outs[d]
            == #[trigger] out_strides@[d] && out_strides@[d] > 0 by {
            assert(stride_of(out_dims@, d as nat) == out_strides@[d]);
            assert forall|e: int| 0 <= e < out_dims@.len() implies (#[trigger] out_dims@[e]) > 0 by {
                assert(perm@[e] < dims@.len());
                assert(dims@[perm@[e] as int] > 0);
            }
            lemma_stride_positive(out_dims@, d as nat);
        }
        assert forall|d: int| 0 <= d < in_strides@.len() implies ins[d] == in_strides@[d] by {
            assert(stride_of(dims@, d as nat) == in_strides@[d]);
        }
    }
    let ghost all = reordered_elements(v@, dims@, perm@, total as nat);
    let mut r: Vec<u32> = Vec::new();
    let mut i: usize = 0;
    while i < total
        invariant
            i <= total,
            out_strides@.len() >= in_strides@.len(),
            perm@.len() >= in_strides@.len(),
            forall|d: int| 0 <= d < in_strides@.len() ==> out_strides@[d] > 0,
            forall|d: int| 0 <= d < in_strides@.len() ==> perm@[d] < in_strides@.len(),
            ins.len() == in_strides@.len(),
            outs.len() >= in_strides@.len(),
            forall|d: int| 0 <= d < in_strides@.len() ==> ins[d] == in_strides@[d],
            forall|d: int| 0 <= d < in_strides@.len() ==> outs[d] == out_strides@[d],
            outs == strides_of(reordered(dims@, perm@)),
            ins == strides_of(dims@),
            all == reordered_elements(v@, dims@, perm@, total as nat),
            r@ == all.take(i as int),
            forall|k: nat| k < i ==> #[trigger] origin(dims@, perm@, k) < v@.len(),
        decreases total - i,
    {
        match find_origin(
            i,
            v.len(),
            &out_strides,
            &in_strides,
            perm,
            Ghost(outs),
            Ghost(ins),
        ) {
            Some(k) => {
                assert(origin(dims@, perm@, i as nat) == k);
                r.push(v[k]);
            },
            None => {
                assert(origin(dims@, perm@, i as nat) >= v@.len());
                return None;
            },
        }
        i = i + 1;
        assert(r@ =~= all.take(i as int));
    }
    assert(all.take(i as int) =~= all);
    Some(r)
}

proof fn lemma_stride_positive(dims: Seq<usize>, d: nat)
    requires
        forall|e: int| 0 <= e < dims.len() ==> (#[trigger] dims[e]) > 0,
    ensures
        stride_of(dims, d) > 0,
    decreases dims.len() - d,
{
    if d + 1 < dims.len() {
        lemma_stride_positive(dims, d + 1);
        let a = stride_of(dims, d + 1);
        let b = dims[d as int + 1] as nat;
        assert(a * b > 0) by (nonlinear_arith)
            requires
                a > 0,
                b > 0,
        ;
    }
}

} // verus!
