//! What pools, convolutions and products look at, and what they make of it.

use vstd::prelude::*;
use vstd::arithmetic::div_mod::{
    lemma_fundamental_div_mod, lemma_fundamental_div_mod_converse, lemma_mod_pos_bound,
};
use vstd::arithmetic::power2::pow2;
use crate::ieee::accuracy::{distance, is_rounded, law_sum32_is_rounded, lemma_addends_finite, size};
use crate::ieee::sums::{
    inner, inner_size, law_inner_products_are_close, law_means_are_close, lemma_zero, total,
    total_size,
};
use crate::ieee::{less32, nan32, product32, sum32};
use crate::precision::{is_finite, value_of};
use crate::scales::larger;
use super::{
    cell_of, channel_means, channel_sum, convolved, convolved_window, dot, last_channel_means,
    last_channel_sum, lemma_cell, lemma_place_of, matrix_product, place_of, pooled, pooled_window,
    Convolution, Pooling, Product, Windows, LEAST,
};

verus! {

/// Where a tensor of the given channels, height and width, channels first, holds
/// the number at row `h` and column `w` of channel `c` of image `b`.
pub open spec fn nchw(b: int, c: int, h: int, w: int, channels: int, height: int, width: int) -> int {
    ((b * channels + c) * height + h) * width + w
}

pub(crate) proof fn lemma_cell_of_place(b: int, c: int, h: int, w: int, channels: int, height: int, width: int)
    requires
        0 <= b,
        0 <= c < channels,
        0 <= h < height,
        0 <= w < width,
    ensures
        place_of(b, c, h, w, channels, height, width) == nchw(b, c, h, w, channels, height, width),
        cell_of(nchw(b, c, h, w, channels, height, width), channels, height, width) == (b, c, h, w),
{
    let i = b * channels + c;
    let j = i * height + h;
    let o = j * width + w;
    lemma_fundamental_div_mod_converse(o, width, j, w);
    lemma_fundamental_div_mod_converse(j, height, i, h);
    lemma_fundamental_div_mod_converse(i, channels, b, c);
}

// ---------------------------------------------------------------------------
// Pools
// ---------------------------------------------------------------------------

/// The input under entry (`kh`, `kw`) of the window at (`oh`, `ow`), if it lies in the image.
pub open spec fn entry(
    w: Windows,
    v: Seq<u32>,
    b: int,
    ch: int,
    oh: int,
    ow: int,
    kh: int,
    kw: int,
) -> Option<u32> {
    let ih = oh * w.stride_h + kh;
    let iw = ow * w.stride_w + kw;
    if ih < w.in_h && iw < w.in_w {
        Some(v[nchw(b, ch, ih, iw, w.channels as int, w.in_h as int, w.in_w as int)])
    } else {
        None
    }
}

/// Whether a window is one of a pool.
pub open spec fn is_window(w: Windows, b: int, ch: int, oh: int, ow: int) -> bool {
    &&& 0 <= b < w.images
    &&& 0 <= ch < w.channels
    &&& 0 <= oh < w.out_h
    &&& 0 <= ow < w.out_w
}

/// What a pool puts out for a window.
pub open spec fn pooled_at(kind: Pooling, w: Windows, v: Seq<u32>, b: int, ch: int, oh: int, ow: int) -> u32 {
    pooled(kind, w, v)[nchw(b, ch, oh, ow, w.channels as int, w.out_h as int, w.out_w as int)]
}

/// The numbers under a window, row by row; zero beyond the image.
pub open spec fn entries(w: Windows, v: Seq<u32>, b: int, ch: int, oh: int, ow: int) -> Seq<u32> {
    Seq::new(
        (w.kernel_h * w.kernel_w) as nat,
        |t: int|
            match entry(w, v, b, ch, oh, ow, t / w.kernel_w as int, t % w.kernel_w as int) {
                Some(x) => x,
                None => 0,
            },
    )
}

proof fn lemma_window_place(w: Windows, b: int, ch: int, oh: int, ow: int)
    requires
        is_window(w, b, ch, oh, ow),
    ensures
        ({
            let o = nchw(b, ch, oh, ow, w.channels as int, w.out_h as int, w.out_w as int);
            &&& 0 <= o < w.out_volume()
            &&& cell_of(o, w.channels as int, w.out_h as int, w.out_w as int) == (b, ch, oh, ow)
        }),
{
    lemma_cell_of_place(b, ch, oh, ow, w.channels as int, w.out_h as int, w.out_w as int);
    lemma_place_of(
        b,
        ch,
        oh,
        ow,
        w.images as int,
        w.channels as int,
        w.out_h as int,
        w.out_w as int,
    );
}

proof fn lemma_entry_place(w: Windows, b: int, ch: int, oh: int, ow: int, t: int)
    requires
        is_window(w, b, ch, oh, ow),
        0 <= t,
        w.kernel_w > 0,
    ensures
        0 <= t / w.kernel_w as int,
        0 <= t % (w.kernel_w as int) < w.kernel_w,
        0 <= oh * w.stride_h,
        0 <= ow * w.stride_w,
{
    lemma_fundamental_div_mod(t, w.kernel_w as int);
    lemma_mod_pos_bound(t, w.kernel_w as int);
    assert(0 <= t / w.kernel_w as int) by (nonlinear_arith)
        requires
            0 <= t,
            w.kernel_w > 0,
    ;
    assert(0 <= oh * w.stride_h) by (nonlinear_arith)
        requires
            0 <= oh,
            0 <= w.stride_h,
    ;
    assert(0 <= ow * w.stride_w) by (nonlinear_arith)
        requires
            0 <= ow,
            0 <= w.stride_w,
    ;
}

/// One more entry of a window.
proof fn lemma_one_more(
    kind: Pooling,
    w: Windows,
    v: Seq<u32>,
    b: int,
    ch: int,
    oh: int,
    ow: int,
    t: nat,
)
    requires
        is_window(w, b, ch, oh, ow),
        t > 0,
        w.kernel_w > 0,
    ensures
        ({
            let o = nchw(b, ch, oh, ow, w.channels as int, w.out_h as int, w.out_w as int);
            let before = pooled_window(kind, w, v, o, (t - 1) as nat);
            pooled_window(kind, w, v, o, t) == match entry(
                w,
                v,
                b,
                ch,
                oh,
                ow,
                (t - 1) / w.kernel_w as int,
                (t - 1) % w.kernel_w as int,
            ) {
                Some(x) => match kind {
                    Pooling::Max => larger(before, x),
                    Pooling::Average => sum32(before, x),
                },
                None => before,
            }
        }),
{
    lemma_window_place(w, b, ch, oh, ow);
    lemma_entry_place(w, b, ch, oh, ow, t - 1);
    let ih = oh * w.stride_h + (t - 1) / w.kernel_w as int;
    let iw = ow * w.stride_w + (t - 1) % w.kernel_w as int;
    if ih < w.in_h && iw < w.in_w {
        lemma_cell_of_place(b, ch, ih, iw, w.channels as int, w.in_h as int, w.in_w as int);
    }
}

proof fn lemma_max_window(w: Windows, v: Seq<u32>, b: int, ch: int, oh: int, ow: int, t: nat)
    requires
        is_window(w, b, ch, oh, ow),
        w.kernel_w > 0,
    ensures
        ({
            let o = nchw(b, ch, oh, ow, w.channels as int, w.out_h as int, w.out_w as int);
            let y = pooled_window(Pooling::Max, w, v, o, t);
            &&& !nan32(y)
            &&& forall|k: int|
                #![trigger entry(w, v, b, ch, oh, ow, k / w.kernel_w as int, k % w.kernel_w as int)]
                0 <= k < t ==> (entry(
                    w,
                    v,
                    b,
                    ch,
                    oh,
                    ow,
                    k / w.kernel_w as int,
                    k % w.kernel_w as int,
                ) matches Some(x) ==> !nan32(x) ==> !less32(y, x))
            &&& y == LEAST || exists|k: int|
                0 <= k < t && #[trigger] entry(
                    w,
                    v,
                    b,
                    ch,
                    oh,
                    ow,
                    k / w.kernel_w as int,
                    k % w.kernel_w as int,
                ) == Some(y)
        }),
    decreases t,
{
    reveal(less32);
    reveal(nan32);
    if t > 0 {
        lemma_max_window(w, v, b, ch, oh, ow, (t - 1) as nat);
        lemma_one_more(Pooling::Max, w, v, b, ch, oh, ow, t);
        let o = nchw(b, ch, oh, ow, w.channels as int, w.out_h as int, w.out_w as int);
        let before = pooled_window(Pooling::Max, w, v, o, (t - 1) as nat);
        let y = pooled_window(Pooling::Max, w, v, o, t);
        let last = entry(
            w,
            v,
            b,
            ch,
            oh,
            ow,
            (t - 1) / w.kernel_w as int,
            (t - 1) % w.kernel_w as int,
        );
        if y == before && before != LEAST {
            let k = choose|k: int|
                0 <= k < t - 1 && #[trigger] entry(
                    w,
                    v,
                    b,
                    ch,
                    oh,
                    ow,
                    k / w.kernel_w as int,
                    k % w.kernel_w as int,
                ) == Some(before);
            assert(entry(w, v, b, ch, oh, ow, k / w.kernel_w as int, k % w.kernel_w as int) == Some(
                y,
            ));
        }
    }
}

/// Whether `y` is no smaller than any number under a window, and one of them;
/// without any, negative infinity.
pub open spec fn is_largest_under(
    y: u32,
    w: Windows,
    v: Seq<u32>,
    b: int,
    ch: int,
    oh: int,
    ow: int,
) -> bool {
    &&& !nan32(y)
    &&& forall|kh: int, kw: int|
        0 <= kh < w.kernel_h && 0 <= kw < w.kernel_w ==> ((#[trigger] entry(
            w,
            v,
            b,
            ch,
            oh,
            ow,
            kh,
            kw,
        )) matches Some(x) ==> !nan32(x) ==> !less32(y, x))
    &&& y == LEAST || exists|kh: int, kw: int|
        0 <= kh < w.kernel_h && 0 <= kw < w.kernel_w && #[trigger] entry(
            w,
            v,
            b,
            ch,
            oh,
            ow,
            kh,
            kw,
        ) == Some(y)
}

/// Whether `y` times `n` is the sum of some numbers, but for rounding.
pub open spec fn is_mean_of(y: u32, n: int, v: Seq<u32>) -> bool {
    distance(value_of(y) * n, total(v)) * 0x100_0000 <= (2 * v.len() + 10) * total_size(v)
        + 0x100_0004 * n
}

/// Whether `y` is the sum of the products of two sequences of numbers, but for rounding.
pub open spec fn is_inner_product(y: u32, a: Seq<u32>, b: Seq<u32>) -> bool {
    distance(value_of(y) * pow2(149), inner(a, b)) * 0x100_0000 <= (4 * a.len() + 1) * inner_size(a, b)
        + 0x100_0000 * (a.len() * pow2(149))
}

/// What a max pool puts out for a window is no smaller than any number under the
/// window, and one of them; without any, it is negative infinity.
pub proof fn law_max_pool_is_the_largest(w: Windows, v: Seq<u32>, b: int, ch: int, oh: int, ow: int)
    requires
        is_window(w, b, ch, oh, ow),
    ensures
        is_largest_under(pooled_at(Pooling::Max, w, v, b, ch, oh, ow), w, v, b, ch, oh, ow),
{
    lemma_window_place(w, b, ch, oh, ow);
    let o = nchw(b, ch, oh, ow, w.channels as int, w.out_h as int, w.out_w as int);
    let size = (w.kernel_h * w.kernel_w) as nat;
    if w.kernel_w == 0 {
        assert(size == 0) by (nonlinear_arith)
            requires
                size == w.kernel_h * w.kernel_w,
                w.kernel_w == 0,
        ;
        reveal(nan32);
    } else {
        let width = w.kernel_w as int;
        lemma_max_window(w, v, b, ch, oh, ow, size);
        let y = pooled_at(Pooling::Max, w, v, b, ch, oh, ow);
        assert forall|kh: int, kw: int| 0 <= kh < w.kernel_h && 0 <= kw < width implies ((
        #[trigger] entry(w, v, b, ch, oh, ow, kh, kw)) matches Some(x) ==> !nan32(x) ==> !less32(
            y,
            x,
        )) by {
            let k = kh * width + kw;
            lemma_fundamental_div_mod_converse(k, width, kh, kw);
            lemma_cell(kh, w.kernel_h as int, kw, width);
            assert(entry(w, v, b, ch, oh, ow, k / width, k % width) == entry(
                w,
                v,
                b,
                ch,
                oh,
                ow,
                kh,
                kw,
            ));
        }
        if y != LEAST {
            let k = choose|k: int|
                0 <= k < size && #[trigger] entry(
                    w,
                    v,
                    b,
                    ch,
                    oh,
                    ow,
                    k / w.kernel_w as int,
                    k % w.kernel_w as int,
                ) == Some(y);
            super::lemma_row(k, w.kernel_h as int, width);
            assert(entry(w, v, b, ch, oh, ow, k / width, k % width) == Some(y));
        }
    }
}

/// Where the windows tile the image, every number of the image lies under a
/// window, and what a max pool puts out there is no smaller.
pub proof fn law_tiles_cover_the_image(w: Windows, v: Seq<u32>, b: int, ch: int, ih: int, iw: int)
    requires
        w.stride_h == w.kernel_h,
        w.stride_w == w.kernel_w,
        w.in_h == w.out_h * w.kernel_h,
        w.in_w == w.out_w * w.kernel_w,
        0 <= b < w.images,
        0 <= ch < w.channels,
        0 <= ih < w.in_h,
        0 <= iw < w.in_w,
    ensures
        ({
            let x = v[nchw(b, ch, ih, iw, w.channels as int, w.in_h as int, w.in_w as int)];
            let (oh, ow) = (ih / w.kernel_h as int, iw / w.kernel_w as int);
            &&& is_window(w, b, ch, oh, ow)
            &&& !nan32(x) ==> !less32(pooled_at(Pooling::Max, w, v, b, ch, oh, ow), x)
        }),
{
    super::lemma_row(ih, w.out_h as int, w.kernel_h as int);
    super::lemma_row(iw, w.out_w as int, w.kernel_w as int);
    let (oh, ow) = (ih / w.kernel_h as int, iw / w.kernel_w as int);
    let (kh, kw) = (ih % w.kernel_h as int, iw % w.kernel_w as int);
    lemma_fundamental_div_mod(ih, w.kernel_h as int);
    lemma_fundamental_div_mod(iw, w.kernel_w as int);
    assert(oh * w.stride_h + kh == ih) by (nonlinear_arith)
        requires
            ih == w.kernel_h * oh + kh,
            w.stride_h == w.kernel_h,
    ;
    assert(ow * w.stride_w + kw == iw) by (nonlinear_arith)
        requires
            iw == w.kernel_w * ow + kw,
            w.stride_w == w.kernel_w,
    ;
    law_max_pool_is_the_largest(w, v, b, ch, oh, ow);
    assert(entry(w, v, b, ch, oh, ow, kh, kw) is Some);
}

/// What an average pool puts out for a window, times the size of the window, is
/// the sum of the numbers under it, but for rounding.
pub proof fn law_average_pool_is_the_mean(
    w: Windows,
    v: Seq<u32>,
    b: int,
    ch: int,
    oh: int,
    ow: int,
)
    requires
        is_window(w, b, ch, oh, ow),
        0 < w.kernel_h * w.kernel_w <= 0x10_0000,
        is_finite(pooled_at(Pooling::Average, w, v, b, ch, oh, ow)),
    ensures
        is_mean_of(
            pooled_at(Pooling::Average, w, v, b, ch, oh, ow),
            (w.kernel_h * w.kernel_w) as int,
            entries(w, v, b, ch, oh, ow),
        ),
{
    lemma_zero();
    lemma_window_place(w, b, ch, oh, ow);
    let o = nchw(b, ch, oh, ow, w.channels as int, w.out_h as int, w.out_w as int);
    let n = (w.kernel_h * w.kernel_w) as nat;
    assert(w.kernel_w > 0) by (nonlinear_arith)
        requires
            0 < w.kernel_h * w.kernel_w,
            w.kernel_w >= 0,
            w.kernel_h >= 0,
    ;
    let under = entries(w, v, b, ch, oh, ow);
    let s = Seq::new(n + 1, |t: int| pooled_window(Pooling::Average, w, v, o, t as nat));
    assert forall|k: int| 0 <= k < under.len() implies #[trigger] s[k + 1] == sum32(s[k], under[k])
        || (s[k + 1] == s[k] && under[k] == 0) by {
        lemma_one_more(Pooling::Average, w, v, b, ch, oh, ow, (k + 1) as nat);
    }
    assert(s.last() == pooled_window(Pooling::Average, w, v, o, n));
    law_means_are_close(s, under, n);
}

// ---------------------------------------------------------------------------
// Convolutions
// ---------------------------------------------------------------------------

/// The input channel, row and column of entry `t` of a kernel, which goes through
/// the channels of the group, and through the rows and columns of each.
pub open spec fn kernel_cell(cv: Convolution, t: int) -> (int, int, int) {
    (
        t / cv.kernel_w as int / cv.kernel_h as int,
        t / cv.kernel_w as int % cv.kernel_h as int,
        t % cv.kernel_w as int,
    )
}

/// The numbers of the input under the kernel at (`oh`, `ow`) for an output
/// channel: those of the channels of its group, zero beyond the image.
pub open spec fn numbers_under(cv: Convolution, x: Seq<u32>, b: int, oc: int, oh: int, ow: int) -> Seq<
    u32,
> {
    let first = (oc / cv.group_out()) * cv.group_in();
    Seq::new(
        cv.taps() as nat,
        |t: int|
            {
                let (ic, kh, kw) = kernel_cell(cv, t);
                let ih = oh * cv.stride_h + kh - cv.pad_h;
                let iw = ow * cv.stride_w + kw - cv.pad_w;
                if 0 <= ih < cv.in_h && 0 <= iw < cv.in_w {
                    x[nchw(b, first + ic, ih, iw, cv.c_in as int, cv.in_h as int, cv.in_w as int)]
                } else {
                    0
                }
            },
    )
}

/// The kernel of an output channel.
pub open spec fn kernel_of(cv: Convolution, w: Seq<u32>, oc: int) -> Seq<u32> {
    Seq::new(
        cv.taps() as nat,
        |t: int|
            {
                let (ic, kh, kw) = kernel_cell(cv, t);
                w[nchw(
                    oc,
                    ic,
                    kh,
                    kw,
                    cv.group_in(),
                    cv.kernel_h as int,
                    cv.kernel_w as int,
                )]
            },
    )
}

/// Whether an output channel is one that the groups share out, and the rest of a
/// cell is in the output.
pub open spec fn is_cell(cv: Convolution, b: int, oc: int, oh: int, ow: int) -> bool {
    &&& cv.group > 0
    &&& 0 <= b < cv.images
    &&& 0 <= oc < cv.c_out
    &&& oc < cv.group * cv.group_out()
    &&& 0 <= oh < cv.out_h
    &&& 0 <= ow < cv.out_w
}

/// The place of a cell of the output.
pub open spec fn out_place(cv: Convolution, b: int, oc: int, oh: int, ow: int) -> int {
    nchw(b, oc, oh, ow, cv.c_out as int, cv.out_h as int, cv.out_w as int)
}

proof fn lemma_kernel_cell(cv: Convolution, oc: int, t: int)
    requires
        0 <= t < cv.taps(),
        cv.group > 0,
    ensures
        cv.kernel_w > 0,
        cv.kernel_h > 0,
        ({
            let (ic, kh, kw) = kernel_cell(cv, t);
            &&& 0 <= ic < cv.group_in()
            &&& 0 <= kh < cv.kernel_h
            &&& 0 <= kw < cv.kernel_w
            &&& cell_of(t, cv.group_in(), cv.kernel_h as int, cv.kernel_w as int) == (
                0int,
                ic,
                kh,
                kw,
            )
            &&& nchw(
                oc,
                ic,
                kh,
                kw,
                cv.group_in(),
                cv.kernel_h as int,
                cv.kernel_w as int,
            ) == oc * cv.taps() + t
        }),
{
    let (gi, h, w) = (cv.group_in(), cv.kernel_h as int, cv.kernel_w as int);
    assert(gi >= 0) by (nonlinear_arith)
        requires
            gi == cv.c_in as int / cv.group as int,
            cv.group > 0,
            cv.c_in >= 0,
    ;
    assert(gi * h >= 0) by (nonlinear_arith)
        requires
            gi >= 0,
            h >= 0,
    ;
    super::lemma_row(t, gi * h, w);
    let r = t / w;
    super::lemma_row(r, gi, h);
    let (ic, kh, kw) = kernel_cell(cv, t);
    lemma_fundamental_div_mod(t, w);
    lemma_fundamental_div_mod(r, h);
    assert(ic / gi == 0 && ic % gi == ic) by {
        lemma_fundamental_div_mod_converse(ic, gi, 0, ic);
    }
    assert(((oc * gi + ic) * h + kh) * w + kw == oc * ((gi * h) * w) + t) by (nonlinear_arith)
        requires
            t == w * r + kw,
            r == h * ic + kh,
    ;
}

/// Without a bias, an output of a convolution is the sum of the numbers under the
/// kernel times the entries of the kernel, but for rounding.
pub proof fn law_convolution_is_the_inner_product(
    cv: Convolution,
    x: Seq<u32>,
    w: Seq<u32>,
    there: Seq<u32>,
    b: int,
    oc: int,
    oh: int,
    ow: int,
)
    requires
        is_cell(cv, b, oc, oh, ow),
        0 <= out_place(cv, b, oc, oh, ow) < cv.written(false),
        cv.taps() <= 0x10_0000,
        is_finite(convolved(cv, x, w, Seq::empty(), there)[out_place(cv, b, oc, oh, ow)]),
    ensures
        is_inner_product(
            convolved(cv, x, w, Seq::empty(), there)[out_place(cv, b, oc, oh, ow)],
            numbers_under(cv, x, b, oc, oh, ow),
            kernel_of(cv, w, oc),
        ),
{
    lemma_zero();
    let o = out_place(cv, b, oc, oh, ow);
    lemma_cell_of_place(b, oc, oh, ow, cv.c_out as int, cv.out_h as int, cv.out_w as int);
    let (a, k) = (numbers_under(cv, x, b, oc, oh, ow), kernel_of(cv, w, oc));
    assert(cv.group_in() >= 0) by (nonlinear_arith)
        requires
            cv.group_in() == cv.c_in as int / cv.group as int,
            cv.group > 0,
            cv.c_in >= 0,
    ;
    assert(cv.taps() >= 0) by (nonlinear_arith)
        requires
            cv.taps() == (cv.group_in() * cv.kernel_h) * cv.kernel_w,
            cv.group_in() >= 0,
            cv.kernel_h >= 0,
            cv.kernel_w >= 0,
    ;
    let n = cv.taps() as nat;
    let s = Seq::new(n + 1, |t: int| convolved_window(cv, x, w, o, t as nat));
    assert forall|t: int| 0 <= t < a.len() implies #[trigger] s[t + 1] == sum32(
        s[t],
        product32(a[t], k[t]),
    ) || (s[t + 1] == s[t] && a[t] == 0) by {
        lemma_kernel_cell(cv, oc, t);
        let (ic, kh, kw) = kernel_cell(cv, t);
        let tap = cv.tap(o, t);
        let ih = oh * cv.stride_h + kh - cv.pad_h;
        let iw = ow * cv.stride_w + kw - cv.pad_w;
        assert(tap.inside == (0 <= ih < cv.in_h && 0 <= iw < cv.in_w));
        assert(tap.w == oc * cv.taps() + t);
        assert(s[t + 1] == convolved_window(cv, x, w, o, (t + 1) as nat));
        assert(tap.x == nchw(
            b,
            (oc / cv.group_out()) * cv.group_in() + ic,
            ih,
            iw,
            cv.c_in as int,
            cv.in_h as int,
            cv.in_w as int,
        ));
    }
    assert(s.last() == convolved_window(cv, x, w, o, n));
    law_inner_products_are_close(s, a, k);
}

/// A bias is added to every output of its channel.
pub proof fn law_bias_is_added(
    cv: Convolution,
    x: Seq<u32>,
    w: Seq<u32>,
    bias: Seq<u32>,
    there: Seq<u32>,
    b: int,
    oc: int,
    oh: int,
    ow: int,
)
    requires
        is_cell(cv, b, oc, oh, ow),
        bias.len() > 0,
        0 <= out_place(cv, b, oc, oh, ow) < cv.written(false),
        0 <= out_place(cv, b, oc, oh, ow) < cv.written(true),
        is_finite(convolved(cv, x, w, bias, there)[out_place(cv, b, oc, oh, ow)]),
    ensures
        ({
            let o = out_place(cv, b, oc, oh, ow);
            is_rounded(
                value_of(convolved(cv, x, w, bias, there)[o]),
                value_of(convolved(cv, x, w, Seq::empty(), there)[o]) + value_of(bias[oc]),
                1,
                24,
            )
        }),
{
    let o = out_place(cv, b, oc, oh, ow);
    lemma_cell_of_place(b, oc, oh, ow, cv.c_out as int, cv.out_h as int, cv.out_w as int);
    let plain = convolved(cv, x, w, Seq::empty(), there)[o];
    lemma_addends_finite(plain, bias[oc]);
    law_sum32_is_rounded(plain, bias[oc]);
}

/// What is finite with a bias was finite without.
pub(crate) proof fn lemma_unbiased_finite(
    cv: Convolution,
    x: Seq<u32>,
    w: Seq<u32>,
    bias: Seq<u32>,
    there: Seq<u32>,
    b: int,
    oc: int,
    oh: int,
    ow: int,
)
    requires
        is_cell(cv, b, oc, oh, ow),
        bias.len() > 0,
        0 <= out_place(cv, b, oc, oh, ow) < cv.written(false),
        0 <= out_place(cv, b, oc, oh, ow) < cv.written(true),
        is_finite(convolved(cv, x, w, bias, there)[out_place(cv, b, oc, oh, ow)]),
    ensures
        is_finite(convolved(cv, x, w, Seq::empty(), there)[out_place(cv, b, oc, oh, ow)]),
{
    let o = out_place(cv, b, oc, oh, ow);
    lemma_cell_of_place(b, oc, oh, ow, cv.c_out as int, cv.out_h as int, cv.out_w as int);
    lemma_addends_finite(convolved(cv, x, w, Seq::empty(), there)[o], bias[oc]);
}

// ---------------------------------------------------------------------------
// Matrix products and means
// ---------------------------------------------------------------------------

/// Row `i` of the first factor, of which column `l` is entry `l`.
pub open spec fn row_of(p: Product, a: Seq<u32>, i: int) -> Seq<u32> {
    Seq::new(
        p.k as nat,
        |l: int|
            if p.trans_a {
                a[l * p.m + i]
            } else {
                a[i * p.k + l]
            },
    )
}

/// Column `j` of the second factor, of which row `l` is entry `l`.
pub open spec fn column_of(p: Product, b: Seq<u32>, j: int) -> Seq<u32> {
    Seq::new(
        p.k as nat,
        |l: int|
            if p.trans_b {
                b[j * p.k + l]
            } else {
                b[l * p.n + j]
            },
    )
}

/// An element of a matrix product is the sum of the products of a row and a
/// column, but for rounding; a factor that is stored transposed is read so.
pub proof fn law_matrix_product_is_of_rows_and_columns(
    p: Product,
    a: Seq<u32>,
    b: Seq<u32>,
    i: int,
    j: int,
)
    requires
        0 <= i < p.m,
        0 <= j < p.n,
        0 <= p.k <= 0x10_0000,
        is_finite(matrix_product(p, a, b)[i * p.n + j]),
    ensures
        is_inner_product(matrix_product(p, a, b)[i * p.n + j], row_of(p, a, i), column_of(p, b, j)),
{
    lemma_zero();
    lemma_cell(i, p.m, j, p.n);
    lemma_fundamental_div_mod_converse(i * p.n + j, p.n, i, j);
    let (r, c) = (row_of(p, a, i), column_of(p, b, j));
    let s = Seq::new((p.k + 1) as nat, |l: int| dot(p, a, b, i, j, l as nat));
    assert(s.last() == dot(p, a, b, i, j, p.k as nat));
    law_inner_products_are_close(s, r, c);
}

/// The mean of a channel, channels first, times the number of its elements is
/// their sum, but for rounding.
pub proof fn law_channel_mean(v: Seq<u32>, channels: nat, per: nat, ch: int)
    requires
        0 <= ch < channels,
        0 < per <= 0x10_0000,
        channels * per <= v.len(),
        is_finite(channel_means(v, channels, per)[ch]),
    ensures
        is_mean_of(
            channel_means(v, channels, per)[ch],
            per as int,
            v.subrange(ch * per, ch * per + per),
        ),
{
    lemma_zero();
    assert(0 <= ch * per && ch * per + per <= channels * per) by (nonlinear_arith)
        requires
            0 <= ch < channels,
    ;
    let all = v.subrange(ch * per, ch * per + per);
    let s = Seq::new(per + 1, |n: int| channel_sum(v, ch, per as int, n as nat));
    law_means_are_close(s, all, per);
}

/// The numbers of a channel of an image, channels last.
pub open spec fn last_channel(v: Seq<u32>, b: int, ch: int, per: nat, c: nat) -> Seq<u32> {
    Seq::new(per, |i: int| v[(b * per + i) * c + ch])
}

/// The mean of a channel, channels last, times the number of its elements is
/// their sum, but for rounding.
pub proof fn law_last_channel_mean(v: Seq<u32>, images: nat, per: nat, c: nat, b: int, ch: int)
    requires
        0 <= b < images,
        0 <= ch < c,
        0 < per <= 0x10_0000,
        is_finite(last_channel_means(v, images, per, c)[b * c + ch]),
    ensures
        is_mean_of(
            last_channel_means(v, images, per, c)[b * c + ch],
            per as int,
            last_channel(v, b, ch, per, c),
        ),
{
    lemma_zero();
    lemma_cell(b, images as int, ch, c as int);
    lemma_fundamental_div_mod_converse(b * c + ch, c as int, b, ch);
    let all = last_channel(v, b, ch, per, c);
    let s = Seq::new(
        per + 1,
        |n: int| last_channel_sum(v, b, ch, per as int, c as int, n as nat),
    );
    law_means_are_close(s, all, per);
}

} // verus!
