//! Where the numbers of resized images and transposed tensors come from.

use vstd::prelude::*;
use vstd::arithmetic::div_mod::{
    lemma_fundamental_div_mod, lemma_fundamental_div_mod_converse, lemma_mod_pos_bound,
};
use vstd::arithmetic::power2::{
    lemma2_to64, lemma_pow2_adds, lemma_pow2_pos, lemma_pow2_strictly_increases, pow2,
};
use crate::ieee::accuracy::{
    distance, law_product32_is_rounded, law_quotient32_is_rounded, law_sum32_is_rounded,
    lemma_product_finite, lemma_quotient_finite, lemma_sum_finite, size,
};
use crate::ieee::nearness::{
    is_near, lemma_near_product, lemma_near_scaled, lemma_near_trans, lemma_near_unscaled,
    lemma_rounded_is_near,
};
use crate::ieee::{
    index_below, product32, quotient32, single, single_of, sum32, units, Format, Parts,
};
use crate::precision::steps::law_small_whole_is_exact;
use crate::precision::{is_finite, lemma_one, value_of};
use crate::tensor::numel;
use super::{
    reordered, reordered_elements, scaled_index, source_of, stride_of, strides_of, HALF_BITS,
};

verus! {

proof fn lemma_half_value()
    ensures
        is_finite(HALF_BITS),
        2 * value_of(HALF_BITS) == pow2(149),
{
    lemma2_to64();
    lemma_pow2_adds(23, 125);
    lemma_pow2_adds(24, 125);
    lemma_fundamental_div_mod_converse(0x3f00_0000, 0x80_0000, 126, 0);
    assert(single(HALF_BITS) == (Parts { negative: false, magnitude: 0x3f00_0000 }));
    assert(units(Format::Single, 0x3f00_0000) == 0x80_0000 * pow2(125));
}

/// The index up to which a number counts.
proof fn lemma_index_below(x: u32)
    requires
        is_finite(x),
        0 <= value_of(x) < 0x1_0000 * pow2(149),
    ensures
        index_below(x) * pow2(149) <= value_of(x) < (index_below(x) + 1) * pow2(149),
{
    reveal(index_below);
    let one = pow2(149) as int;
    lemma_pow2_pos(149);
    let u = units(Format::Single, single(x).magnitude) as int;
    lemma_fundamental_div_mod(u, one);
    lemma_mod_pos_bound(u, one);
    let q = u / one;
    let r = u % one;
    assert(q * one == one * q && (q + 1) * one == one * q + one) by (nonlinear_arith);
    assert(0 <= q < 0x1_0000 || u >= 0x1_0000 * one) by (nonlinear_arith)
        requires
            u == one * q + r,
            0 <= r < one,
            u >= 0,
    ;
    if single(x).negative {
        assert(value_of(x) == -u);
        assert(q == 0) by (nonlinear_arith)
            requires
                u == 0,
                u == one * q + r,
                0 <= r < one,
        ;
    }
}

/// Whether row `r` of `rows` lies under `c / 2` of `out_rows` rows, but for the
/// 512th part of a row: the last one does where none else would.
pub open spec fn is_under(r: int, rows: int, c: int, out_rows: int) -> bool {
    &&& 0 <= r < rows
    &&& 512 * (r * (2 * out_rows)) <= 512 * (c * rows) + 2 * out_rows
    &&& r == rows - 1 || 512 * (c * rows) <= 512 * ((r + 1) * (2 * out_rows)) + 2 * out_rows
}

proof fn lemma_row(p: int, at: int, c: int, rows: int, outs: int, one: int)
    requires
        is_near((2 * p) * outs, (c * rows) * one, 6),
        at * one <= p < (at + 1) * one,
        0 < one,
        0 < outs,
        0 < rows <= 0x1000,
        0 <= c <= 2 * outs,
        0 <= at,
    ensures
        512 * (at * (2 * outs)) <= 512 * (c * rows) + 2 * outs,
        512 * (c * rows) <= 512 * ((at + 1) * (2 * outs)) + 2 * outs,
{
    let cr = c * rows;
    let t = 2 * outs;
    assert(0 <= cr <= t * 0x1000) by (nonlinear_arith)
        requires
            cr == c * rows,
            0 <= c <= t,
            0 < rows <= 0x1000,
    ;
    assert((2 * p) * outs == p * t) by (nonlinear_arith)
        requires
            t == 2 * outs,
    ;
    let e = distance(p * t, cr * one);
    assert(size(cr * one) == cr * one) by (nonlinear_arith)
        requires
            cr >= 0,
            one > 0,
    ;
    assert(e * 512 <= t * one) by (nonlinear_arith)
        requires
            e * 0x100_0000 <= 6 * (cr * one),
            0 <= cr <= t * 0x1000,
            one > 0,
    ;
    assert((at * t) * one <= p * t && p * t <= ((at + 1) * t) * one) by (nonlinear_arith)
        requires
            at * one <= p < (at + 1) * one,
            t > 0,
    ;
    let (a, b) = (at * t, (at + 1) * t);
    assert(512 * a <= 512 * cr + t) by (nonlinear_arith)
        requires
            512 * (a * one) <= 512 * (cr * one) + t * one,
            one > 0,
    ;
    assert(512 * cr <= 512 * b + t) by (nonlinear_arith)
        requires
            512 * (cr * one) <= 512 * (b * one) + t * one,
            one > 0,
    ;
}

/// The number that is scaled: the row, or its middle.
proof fn lemma_counted(out: nat, middle: bool) -> (b: u32)
    requires
        out < 0x1000,
    ensures
        b == if middle {
            sum32(single_of(out), HALF_BITS)
        } else {
            single_of(out)
        },
        is_finite(b),
        0 <= value_of(b) <= 0x2000 * pow2(149),
        is_near(2 * value_of(b), (2 * out + if middle { 1int } else { 0 }) * pow2(149), 1),
        middle ==> 4 * value_of(b) >= pow2(149),
        out > 0 ==> value_of(b) >= pow2(149),
        !middle && out == 0 ==> value_of(b) == 0,
{
    let one = pow2(149) as int;
    lemma_pow2_pos(149);
    lemma2_to64();
    lemma_pow2_strictly_increases(24, 149);
    law_small_whole_is_exact(out as int);
    assert(0 <= out * one <= 0x1000 * one) by (nonlinear_arith)
        requires
            0 <= out < 0x1000,
            one > 0,
    ;
    let a = single_of(out);
    if out > 0 {
        assert(out * one >= one) by (nonlinear_arith)
            requires
                out >= 1,
                one > 0,
        ;
    }
    if middle {
        lemma_half_value();
        lemma_pow2_adds(13, 149);
        lemma_sum_finite(a, HALF_BITS, 162);
        law_sum32_is_rounded(a, HALF_BITS);
        let exact = value_of(a) + value_of(HALF_BITS);
        lemma_rounded_is_near(value_of(sum32(a, HALF_BITS)), exact, 1, 24);
        let b = value_of(sum32(a, HALF_BITS));
        assert(b * 1 == b);
        assert(is_near(b, exact, 1));
        lemma_near_scaled(b, exact, 1, 2);
        assert(exact * 2 == (2 * out + 1) * one) by (nonlinear_arith)
            requires
                2 * exact == 2 * (out * one) + one,
        ;
        sum32(a, HALF_BITS)
    } else {
        assert(2 * (out * one) == (2 * out) * one) by (nonlinear_arith);
        a
    }
}

/// The row that goes to an output row lies under its middle, or under its start.
pub proof fn law_row_is_under(out: nat, rows: nat, out_rows: nat, middle: bool)
    requires
        0 < rows <= 0x1000,
        0 < out_rows <= 0x1000,
        out < out_rows,
    ensures
        is_under(
            scaled_index(out, rows, out_rows, middle) as int,
            rows as int,
            2 * out + if middle { 1int } else { 0 },
            out_rows as int,
        ),
{
    let one = pow2(149) as int;
    let c = 2 * out + if middle { 1int } else { 0 };
    let (h, o) = (rows as int, out_rows as int);
    lemma_pow2_pos(149);
    lemma2_to64();
    lemma_pow2_strictly_increases(24, 149);
    let u = lemma_one();
    let b = lemma_counted(out, middle);
    law_small_whole_is_exact(h);
    law_small_whole_is_exact(o);
    let (x, y) = (single_of(rows), single_of(out_rows));
    let (ho, oo) = (h * one, o * one);
    assert(one <= ho <= 0x1000 * one && one <= oo <= 0x1000 * one) by (nonlinear_arith)
        requires
            ho == h * one,
            oo == o * one,
            1 <= h <= 0x1000,
            1 <= o <= 0x1000,
            one > 0,
    ;
    lemma_pow2_adds(12, 149);
    assert(size(ho * one) <= size(oo) * pow2(161)) by (nonlinear_arith)
        requires
            0 < ho <= 0x1000 * one,
            one <= oo,
            pow2(161) == 0x1000 * one,
            one > 0,
    ;
    lemma_quotient_finite(x, y, 161);
    law_quotient32_is_rounded(x, y);
    let q = quotient32(x, y);
    let s = value_of(q);
    assert(size(oo) * 0x80_0000 <= size(ho * one)) by (nonlinear_arith)
        requires
            one <= ho,
            0 < oo <= 0x1000 * one,
            0x1000 * 0x80_0000 <= one,
    ;
    lemma_rounded_is_near(s, ho * one, oo, 24);
    assert(s * oo == (s * o) * one) by (nonlinear_arith)
        requires
            oo == o * one,
    ;
    lemma_near_unscaled(s * o, ho, 1, one);
    let bv = value_of(b);
    assert(s > 0 && 0x2000 * s >= one) by (nonlinear_arith)
        requires
            is_near(s * o, ho, 1),
            one <= ho,
            1 <= o <= 0x1000,
            one > 0,
    ;
    assert(s <= 0x2000 * one) by (nonlinear_arith)
        requires
            is_near(s * o, ho, 1),
            0 < ho <= 0x1000 * one,
            1 <= o,
            s > 0,
    ;
    let bs = bv * s;
    lemma_pow2_adds(26, 149);
    assert(0 <= bs && size(bs) <= one * pow2(175)) by (nonlinear_arith)
        requires
            bs == bv * s,
            0 <= bv <= 0x2000 * one,
            0 < s <= 0x2000 * one,
            pow2(175) == 0x400_0000 * one,
            one > 0,
    ;
    lemma_product_finite(b, q, 175);
    law_product32_is_rounded(b, q);
    let pb = product32(b, q);
    let p = value_of(pb);
    if bv == 0 {
        assert(bs == 0) by (nonlinear_arith)
            requires
                bs == bv * s,
                bv == 0,
        ;
        crate::ieee::nearness::lemma_rounded_off(p, 0, one, 24);
        assert(p == 0) by (nonlinear_arith)
            requires
                distance(p * one, 0) * 2 <= one || distance(p * one, 0) <= 0,
                one > 0,
        ;
        assert(c == 0);
        assert((2 * p) * o == 0 && (c * h) * one == 0) by (nonlinear_arith)
            requires
                p == 0,
                c == 0,
        ;
    } else {
        assert(size(one) * 0x80_0000 <= size(bs)) by (nonlinear_arith)
            requires
                bs == bv * s,
                4 * bv >= one,
                0x2000 * s >= one,
                0x1000_0000_0000 <= one,
        ;
        lemma_rounded_is_near(p, bs, one, 24);
        // (2 p o) one is near (2 b) (s o), which is near (c one) (h one).
        lemma_near_product(2 * bv, c * one, 1, s * o, ho, 1);
        lemma_near_scaled(p * one, bs, 1, 2 * o);
        assert(bs * (2 * o) == (2 * bv) * (s * o)) by (nonlinear_arith)
            requires
                bs == bv * s,
        ;
        lemma_near_trans((p * one) * (2 * o), bs * (2 * o), 1, (c * one) * ho, 3);
        assert((p * one) * (2 * o) == ((2 * p) * o) * one) by (nonlinear_arith);
        assert((c * one) * ho == ((c * h) * one) * one) by (nonlinear_arith)
            requires
                ho == h * one,
        ;
        lemma_near_unscaled((2 * p) * o, (c * h) * one, 5, one);
    }
    crate::ieee::nearness::lemma_wider((2 * p) * o, (c * h) * one, if bv == 0 { 0 } else { 5 }, 6);
    lemma_counted_bound(p, c, h, o, one);
    lemma_index_below(pb);
    let at = index_below(pb) as int;
    lemma_row(p, at, c, h, o, one);
    if at >= h {
        assert(512 * ((h - 1) * (2 * o)) <= 512 * (at * (2 * o))) by (nonlinear_arith)
            requires
                at >= h,
                o > 0,
        ;
    }
}

proof fn lemma_counted_bound(p: int, c: int, h: int, o: int, one: int)
    requires
        is_near((2 * p) * o, (c * h) * one, 6),
        0 <= c <= 2 * o,
        1 <= h <= 0x1000,
        1 <= o,
        one > 0,
    ensures
        0 <= p < 0x1_0000 * one,
{
    let po = (2 * p) * o;
    let m = (c * h) * one;
    assert(0 <= m <= (2 * o) * (0x1000 * one)) by (nonlinear_arith)
        requires
            m == (c * h) * one,
            0 <= c <= 2 * o,
            1 <= h <= 0x1000,
            one > 0,
            o >= 1,
    ;
    assert(0 <= po <= 2 * m);
    assert(0 <= p) by (nonlinear_arith)
        requires
            0 <= po,
            po == (2 * p) * o,
            o >= 1,
    ;
    assert(p < 0x1_0000 * one) by (nonlinear_arith)
        requires
            po == (2 * p) * o,
            po <= 2 * ((2 * o) * (0x1000 * one)),
            o >= 1,
            one > 0,
    ;
}

// ---------------------------------------------------------------------------
// Transposed tensors
// ---------------------------------------------------------------------------

/// Whether an index lies within dimensions.
pub open spec fn lies_in(i: Seq<int>, dims: Seq<usize>) -> bool {
    i.len() == dims.len() && forall|d: int| 0 <= d < dims.len() ==> 0 <= #[trigger] i[d] < dims[d]
}

/// The place of an index in row-major order, the first `n` dimensions of it.
pub open spec fn counted(i: Seq<int>, dims: Seq<usize>, n: nat) -> int
    decreases n,
{
    if n == 0 {
        0
    } else {
        counted(i, dims, (n - 1) as nat) * dims[n - 1] + i[n - 1]
    }
}

/// How far one reaches in a tensor by going `i[d]` steps along its dimension
/// `perm[d]`, for each `d` from `k` on: one step passes over all of the later
/// dimensions.
pub open spec fn reached(i: Seq<int>, dims: Seq<usize>, perm: Seq<usize>, k: nat) -> int
    decreases i.len() - k,
{
    if k >= i.len() {
        0
    } else {
        i[k as int] * numel(dims.skip(perm[k as int] + 1)) + reached(i, dims, perm, k + 1)
    }
}

proof fn lemma_numel_first(s: Seq<usize>)
    requires
        s.len() > 0,
    ensures
        numel(s) == s[0] * numel(s.drop_first()),
    decreases s.len(),
{
    let front = numel(s.drop_last()) as int;
    let rest = numel(s.drop_first()) as int;
    let (a, c) = (s[0] as int, s.last() as int);
    if s.len() > 1 {
        lemma_numel_first(s.drop_last());
        assert(s.drop_last().drop_first() =~= s.drop_first().drop_last());
        assert(s.drop_first().last() == s.last());
        let b = numel(s.drop_first().drop_last()) as int;
        assert(front * c == a * rest) by (nonlinear_arith)
            requires
                front == a * b,
                rest == b * c,
        ;
    } else {
        assert(s.drop_first() =~= Seq::empty());
        assert(s.drop_last() =~= Seq::empty());
        assert(front * c == a * rest) by (nonlinear_arith)
            requires
                front == 1,
                rest == 1,
                a == c,
        ;
    }
}

proof fn lemma_stride(dims: Seq<usize>, d: nat)
    requires
        d < dims.len(),
    ensures
        stride_of(dims, d) == numel(dims.skip(d as int + 1)),
    decreases dims.len() - d,
{
    if d + 1 >= dims.len() {
        assert(dims.skip(d as int + 1) =~= Seq::empty());
    } else {
        lemma_stride(dims, d + 1);
        let rest = dims.skip(d as int + 1);
        lemma_numel_first(rest);
        assert(rest.drop_first() =~= dims.skip(d as int + 2));
        let (a, b) = (stride_of(dims, d + 1) as int, dims[d as int + 1] as int);
        assert(a * b == b * a) by (nonlinear_arith);
    }
}

/// What an index counts in the dimensions from `k` on.
spec fn tail(i: Seq<int>, dims: Seq<usize>, k: nat) -> int
    decreases dims.len() - k,
{
    if k >= dims.len() {
        0
    } else {
        i[k as int] * stride_of(dims, k) + tail(i, dims, k + 1)
    }
}

/// How many elements the dimensions from `k` on have.
spec fn span(dims: Seq<usize>, k: nat) -> int {
    if k >= dims.len() {
        1
    } else {
        stride_of(dims, k) * dims[k as int]
    }
}

proof fn lemma_tail(i: Seq<int>, dims: Seq<usize>, k: nat)
    requires
        lies_in(i, dims),
        k <= dims.len(),
    ensures
        0 <= tail(i, dims, k) < span(dims, k),
        k < dims.len() ==> span(dims, k + 1) == stride_of(dims, k),
        counted(i, dims, dims.len()) == counted(i, dims, k) * span(dims, k) + tail(i, dims, k),
    decreases dims.len() - k,
{
    if k < dims.len() {
        lemma_tail(i, dims, k + 1);
        let (x, w, t) = (i[k as int], stride_of(dims, k) as int, tail(i, dims, k + 1));
        let n = dims[k as int] as int;
        let c = counted(i, dims, k);
        assert(0 <= x < n);
        assert(0 <= x * w + t < w * n) by (nonlinear_arith)
            requires
                0 <= x < n,
                0 <= t < w,
        ;
        assert((c * n + x) * w + t == c * (w * n) + (x * w + t)) by (nonlinear_arith);
    }
}

proof fn lemma_source(i: Seq<int>, dims: Seq<usize>, perm: Seq<usize>, k: nat)
    requires
        perm.len() == dims.len(),
        forall|d: int| 0 <= d < perm.len() ==> (#[trigger] perm[d]) < dims.len(),
        lies_in(i, reordered(dims, perm)),
        k <= dims.len(),
    ensures
        source_of(
            tail(i, reordered(dims, perm), k) as nat,
            k,
            strides_of(reordered(dims, perm)),
            strides_of(dims),
            perm,
        ) == reached(i, dims, perm, k),
    decreases dims.len() - k,
{
    let new = reordered(dims, perm);
    lemma_tail(i, new, k);
    if k < dims.len() {
        lemma_source(i, dims, perm, k + 1);
        lemma_tail(i, new, k + 1);
        let w = stride_of(new, k) as int;
        lemma_fundamental_div_mod_converse(
            tail(i, new, k),
            w,
            i[k as int],
            tail(i, new, k + 1),
        );
        lemma_stride(dims, perm[k as int] as nat);
    }
}

/// A transposed tensor has at each index what is in the tensor where the same
/// steps lead, each along the dimension that its own was made of.
pub proof fn law_transposed(v: Seq<u32>, dims: Seq<usize>, perm: Seq<usize>, total: nat, i: Seq<int>)
    requires
        perm.len() == dims.len(),
        forall|d: int| 0 <= d < perm.len() ==> (#[trigger] perm[d]) < dims.len(),
        lies_in(i, reordered(dims, perm)),
        counted(i, reordered(dims, perm), dims.len()) < total,
    ensures
        0 <= counted(i, reordered(dims, perm), dims.len()),
        reordered_elements(v, dims, perm, total)[counted(i, reordered(dims, perm), dims.len())]
            == v[reached(i, dims, perm, 0)],
{
    lemma_tail(i, reordered(dims, perm), 0);
    lemma_source(i, dims, perm, 0);
    assert(counted(i, reordered(dims, perm), 0) * span(reordered(dims, perm), 0) == 0);
}

} // verus!
