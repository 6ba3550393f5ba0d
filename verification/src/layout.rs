//! Moving tensor data between layouts.

use vstd::prelude::*;
use vstd::arithmetic::div_mod::lemma_fundamental_div_mod_converse;
use crate::proto::{bytes_of_words32, from_words32, law_words32_round_trip, to_words32, words32};
use crate::tensor::{checked_numel, numel, products_fit};

verus! {

// ---------------------------------------------------------------------------
// Four dimensions
// ---------------------------------------------------------------------------

/// The place of an element in a row-major tensor of four dimensions.
pub open spec fn flat(i: Seq<int>, d: Seq<int>) -> int {
    ((i[0] * d[1] + i[1]) * d[2] + i[2]) * d[3] + i[3]
}

/// Coordinates within four dimensions.
pub open spec fn inside(i: Seq<int>, d: Seq<int>) -> bool {
    &&& i.len() == 4
    &&& 0 <= i[0] < d[0]
    &&& 0 <= i[1] < d[1]
    &&& 0 <= i[2] < d[2]
    &&& 0 <= i[3] < d[3]
}

/// The number of elements.
pub open spec fn volume(d: Seq<int>) -> int {
    ((d[0] * d[1]) * d[2]) * d[3]
}

/// Each of the numbers 0 to 3 occurs once.
pub open spec fn is_permutation(p: Seq<usize>) -> bool {
    &&& p.len() == 4
    &&& p[0] < 4 && p[1] < 4 && p[2] < 4 && p[3] < 4
    &&& p[0] != p[1] && p[0] != p[2] && p[0] != p[3]
    &&& p[1] != p[2] && p[1] != p[3] && p[2] != p[3]
}

/// Entry `j` of the result is entry `p[j]` of `i`.
pub open spec fn picked(i: Seq<int>, p: Seq<usize>) -> Seq<int> {
    seq![i[p[0] as int], i[p[1] as int], i[p[2] as int], i[p[3] as int]]
}

/// Sizes as integers.
pub open spec fn ints(d: Seq<usize>) -> Seq<int> {
    d.map_values(|x: usize| x as int)
}

/// `out` holds the elements of `data` with the dimensions in the order of `p`:
/// dimension `j` of `out` is dimension `p[j]` of `data`.
pub open spec fn is_transposed<T>(out: Seq<T>, data: Seq<T>, d: Seq<int>, p: Seq<usize>) -> bool {
    &&& out.len() == volume(d)
    &&& forall|i: Seq<int>| #[trigger]
        inside(i, d) ==> out[flat(picked(i, p), picked(d, p))] == data[flat(i, d)]
}

/// Where `s` stands in a permutation.
pub open spec fn place(p: Seq<usize>, s: int) -> int {
    if p[0] == s {
        0
    } else if p[1] == s {
        1
    } else if p[2] == s {
        2
    } else {
        3
    }
}

/// The coordinates from which `o` was picked.
pub open spec fn unpicked(o: Seq<int>, p: Seq<usize>) -> Seq<int> {
    seq![o[place(p, 0)], o[place(p, 1)], o[place(p, 2)], o[place(p, 3)]]
}

/// The coordinates of place `k`.
pub open spec fn coordinates(k: int, d: Seq<int>) -> Seq<int> {
    seq![k / d[3] / d[2] / d[1], k / d[3] / d[2] % d[1], k / d[3] % d[2], k % d[3]]
}

/// The elements of `data` with the dimensions in the order of `p`.
pub open spec fn permuted<T>(data: Seq<T>, d: Seq<int>, p: Seq<usize>) -> Seq<T> {
    Seq::new(
        volume(d) as nat,
        |k: int| data[flat(unpicked(coordinates(k, picked(d, p)), p), d)],
    )
}

/// Places within four dimensions are before the number of elements.
pub proof fn lemma_flat_bound(i: Seq<int>, d: Seq<int>)
    requires
        inside(i, d),
    ensures
        0 <= flat(i, d) < volume(d),
{
    let (a, b, c, e) = (i[0], i[1], i[2], i[3]);
    let (d0, d1, d2, d3) = (d[0], d[1], d[2], d[3]);
    let x = a * d1 + b;
    assert(0 <= x < d0 * d1) by (nonlinear_arith)
        requires
            0 <= a < d0,
            0 <= b < d1,
            x == a * d1 + b,
    ;
    let y = x * d2 + c;
    assert(0 <= y < (d0 * d1) * d2) by (nonlinear_arith)
        requires
            0 <= x < d0 * d1,
            0 <= c < d2,
            y == x * d2 + c,
    ;
    let z = y * d3 + e;
    assert(0 <= z < ((d0 * d1) * d2) * d3) by (nonlinear_arith)
        requires
            0 <= y < (d0 * d1) * d2,
            0 <= e < d3,
            z == y * d3 + e,
    ;
}

/// The coordinates at a place are what repeated division gives.
proof fn lemma_coordinates(i: Seq<int>, d: Seq<int>, k: int)
    requires
        inside(i, d),
        flat(i, d) == k,
    ensures
        i[3] == k % d[3],
        i[2] == k / d[3] % d[2],
        i[1] == k / d[3] / d[2] % d[1],
        i[0] == k / d[3] / d[2] / d[1],
{
    let x = i[0] * d[1] + i[1];
    let y = x * d[2] + i[2];
    lemma_fundamental_div_mod_converse(k, d[3], y, i[3]);
    lemma_fundamental_div_mod_converse(y, d[2], x, i[2]);
    lemma_fundamental_div_mod_converse(x, d[1], i[0], i[1]);
}

/// Repeated division gives coordinates within the dimensions.
proof fn lemma_decode(d: Seq<int>, k: int) -> (i: Seq<int>)
    requires
        d.len() == 4,
        0 <= k < volume(d),
        d[0] > 0,
        d[1] > 0,
        d[2] > 0,
        d[3] > 0,
    ensures
        i == coordinates(k, d),
        inside(i, d),
        flat(i, d) == k,
{
    let (d0, d1, d2, d3) = (d[0], d[1], d[2], d[3]);
    let y = k / d3;
    let x = y / d2;
    let a = x / d1;
    assert(y * d3 + k % d3 == k && 0 <= k % d3 < d3 && 0 <= y < (d0 * d1) * d2) by (nonlinear_arith)
        requires
            y == k / d3,
            d3 > 0,
            0 <= k < ((d0 * d1) * d2) * d3,
    ;
    assert(x * d2 + y % d2 == y && 0 <= y % d2 < d2 && 0 <= x < d0 * d1) by (nonlinear_arith)
        requires
            x == y / d2,
            d2 > 0,
            0 <= y < (d0 * d1) * d2,
    ;
    assert(a * d1 + x % d1 == x && 0 <= x % d1 < d1 && 0 <= a < d0) by (nonlinear_arith)
        requires
            a == x / d1,
            d1 > 0,
            0 <= x < d0 * d1,
    ;
    seq![a, x % d1, y % d2, k % d3]
}

/// Swapping neighbours keeps the number of elements.
proof fn lemma_volume_swap(d: Seq<int>, j: int)
    requires
        d.len() == 4,
        0 <= j < 3,
    ensures
        volume(d.update(j, d[j + 1]).update(j + 1, d[j])) == volume(d),
{
    let (w, x, y, z) = (d[0], d[1], d[2], d[3]);
    assert(((w * x) * y) * z == ((x * w) * y) * z) by (nonlinear_arith);
    assert(((w * x) * y) * z == ((w * y) * x) * z) by (nonlinear_arith);
    assert(((w * x) * y) * z == ((w * x) * z) * y) by (nonlinear_arith);
}

/// The picked dimensions with the entries `j` and `j + 1` put in order.
proof fn lemma_volume_order(d: Seq<int>, p: Seq<usize>, j: int) -> (r: Seq<usize>)
    requires
        d.len() == 4,
        is_permutation(p),
        0 <= j < 3,
    ensures
        is_permutation(r),
        volume(picked(d, r)) == volume(picked(d, p)),
        r == if p[j] > p[j + 1] {
            p.update(j, p[j + 1]).update(j + 1, p[j])
        } else {
            p
        },
{
    if p[j] > p[j + 1] {
        let r = p.update(j, p[j + 1]).update(j + 1, p[j]);
        let q = picked(d, p);
        lemma_volume_swap(q, j);
        assert(picked(d, r) =~= q.update(j, q[j + 1]).update(j + 1, q[j]));
        r
    } else {
        p
    }
}

/// A permutation of the dimensions keeps the number of elements.
pub proof fn lemma_volume_picked(d: Seq<int>, p: Seq<usize>)
    requires
        d.len() == 4,
        is_permutation(p),
    ensures
        volume(picked(d, p)) == volume(d),
{
    let a = lemma_volume_order(d, p, 0);
    let b = lemma_volume_order(d, a, 1);
    let c = lemma_volume_order(d, b, 2);
    let e = lemma_volume_order(d, c, 0);
    let f = lemma_volume_order(d, e, 1);
    let g = lemma_volume_order(d, f, 0);
    assert(picked(d, g) =~= d);
}

proof fn lemma_pick_unpick(i: Seq<int>, d: Seq<int>, p: Seq<usize>)
    requires
        is_permutation(p),
        d.len() == 4,
    ensures
        inside(i, d) ==> inside(picked(i, p), picked(d, p)) && unpicked(picked(i, p), p) == i,
        inside(i, picked(d, p)) ==> inside(unpicked(i, p), d) && picked(unpicked(i, p), p) == i,
{
    if inside(i, d) {
        assert(unpicked(picked(i, p), p) =~= i);
    }
    if inside(i, picked(d, p)) {
        assert(picked(unpicked(i, p), p) =~= i);
    }
}

/// Transpose a row-major tensor of four dimensions: dimension `j` of the
/// result is dimension `perm[j]` of the data.
pub fn permute_4d<T: Copy>(data: &[T], shape: &[usize; 4], perm: &[usize; 4]) -> (r: Vec<T>)
    requires
        volume(ints(shape@)) <= data@.len(),
        is_permutation(perm@),
    ensures
        is_transposed(r@, data@, ints(shape@), perm@),
        r@ == permuted(data@, ints(shape@), perm@),
{
    let ghost d = ints(shape@);
    let ghost p = perm@;
    let ghost e = picked(d, p);
    proof {
        lemma_volume_picked(d, p);
    }
    let d0: usize = shape[0];
    let d1: usize = shape[1];
    let d2: usize = shape[2];
    let d3: usize = shape[3];
    let mut out: Vec<T> = Vec::new();
    if d0 == 0 || d1 == 0 || d2 == 0 || d3 == 0 {
        assert(volume(d) == 0) by (nonlinear_arith)
            requires
                d[0] == 0 || d[1] == 0 || d[2] == 0 || d[3] == 0,
                volume(d) == ((d[0] * d[1]) * d[2]) * d[3],
        ;
        assert(out@ =~= permuted(data@, d, p));
        return out;
    }
    proof {
        lemma_partial_products(d0 as int, d1 as int, d2 as int, d3 as int);
        assert(volume(d) == ((d0 * d1) * d2) * d3);
    }
    assert(volume(d) <= data.len());
    let total: usize = ((d0 * d1) * d2) * d3;
    let e1: usize = shape[perm[1]];
    let e2: usize = shape[perm[2]];
    let e3: usize = shape[perm[3]];
    let mut k: usize = 0;
    while k < total
        invariant
            k <= total == volume(d) == volume(e),
            volume(d) <= data@.len(),
            d == ints(shape@),
            p == perm@,
            e == picked(d, p),
            is_permutation(p),
            d[0] == d0 > 0,
            d[1] == d1 > 0,
            d[2] == d2 > 0,
            d[3] == d3 > 0,
            e[1] == e1,
            e[2] == e2,
            e[3] == e3,
            out@.len() == k,
            forall|o: Seq<int>| #[trigger]
                inside(o, e) && flat(o, e) < k ==> out@[flat(o, e)] == data@[flat(
                    unpicked(o, p),
                    d,
                )],
        decreases total - k,
    {
        let ghost o = lemma_decode(e, k as int);
        let o3: usize = k % e3;
        let o2: usize = k / e3 % e2;
        let o1: usize = k / e3 / e2 % e1;
        let o0: usize = k / e3 / e2 / e1;
        let ghost i = unpicked(o, p);
        proof {
            lemma_pick_unpick(o, d, p);
            lemma_flat_bound(i, d);
        }
        let i0: usize = pick(o0, o1, o2, o3, perm, 0);
        let i1: usize = pick(o0, o1, o2, o3, perm, 1);
        let i2: usize = pick(o0, o1, o2, o3, perm, 2);
        let i3: usize = pick(o0, o1, o2, o3, perm, 3);
        proof {
            assert(seq![i0 as int, i1 as int, i2 as int, i3 as int] =~= i);
            lemma_flat_steps(i, d);
        }
        let at: usize = ((i0 * d1 + i1) * d2 + i2) * d3 + i3;
        let ghost before = out@;
        out.push(data[at]);
        k = k + 1;
        proof {
            assert forall|c: Seq<int>| #[trigger] inside(c, e) && flat(c, e) < k implies out@[flat(
                c,
                e,
            )] == data@[flat(unpicked(c, p), d)] by {
                lemma_flat_bound(c, e);
                if flat(c, e) == k - 1 {
                    lemma_coordinates(c, e, k - 1);
                    lemma_coordinates(o, e, k - 1);
                    assert(c =~= o);
                }
            }
        }
    }
    proof {
        assert forall|i: Seq<int>| #[trigger] inside(i, d) implies out@[flat(picked(i, p), e)]
            == data@[flat(i, d)] by {
            lemma_pick_unpick(i, d, p);
            lemma_flat_bound(picked(i, p), e);
        }
        assert forall|k: int| 0 <= k < total implies out@[k] == permuted(data@, d, p)[k] by {
            let o = lemma_decode(e, k);
            assert(inside(o, e));
        }
        assert(out@ =~= permuted(data@, d, p));
    }
    out
}

/// The coordinate that goes to dimension `s`.
fn pick(o0: usize, o1: usize, o2: usize, o3: usize, perm: &[usize; 4], s: usize) -> (r: usize)
    requires
        is_permutation(perm@),
        s < 4,
    ensures
        r == seq![o0, o1, o2, o3][place(perm@, s as int)],
{
    if perm[0] == s {
        o0
    } else if perm[1] == s {
        o1
    } else if perm[2] == s {
        o2
    } else {
        o3
    }
}

proof fn lemma_partial_products(a: int, b: int, c: int, e: int)
    requires
        a > 0,
        b > 0,
        c > 0,
        e > 0,
    ensures
        0 < a * b <= ((a * b) * c) * e,
        0 < (a * b) * c <= ((a * b) * c) * e,
{
    assert(0 < a * b) by (nonlinear_arith)
        requires
            a > 0,
            b > 0,
    ;
    let x = a * b;
    assert(x <= x * c) by (nonlinear_arith)
        requires
            x > 0,
            c > 0,
    ;
    let y = x * c;
    assert(y <= y * e) by (nonlinear_arith)
        requires
            y > 0,
            e > 0,
    ;
}

/// No step in computing a place exceeds the number of elements.
proof fn lemma_flat_steps(i: Seq<int>, d: Seq<int>)
    requires
        inside(i, d),
    ensures
        0 <= i[0] * d[1] <= volume(d),
        0 <= i[0] * d[1] + i[1] <= volume(d),
        0 <= (i[0] * d[1] + i[1]) * d[2] <= volume(d),
        0 <= (i[0] * d[1] + i[1]) * d[2] + i[2] <= volume(d),
        0 <= ((i[0] * d[1] + i[1]) * d[2] + i[2]) * d[3] <= volume(d),
{
    lemma_flat_bound(i, d);
    let x = i[0] * d[1] + i[1];
    let y = x * d[2] + i[2];
    let z = y * d[3] + i[3];
    assert(0 <= i[0] * d[1]) by (nonlinear_arith)
        requires
            0 <= i[0],
            0 < d[1],
    ;
    assert(0 <= x <= x * d[2]) by (nonlinear_arith)
        requires
            0 <= x,
            0 < d[2],
    ;
    assert(0 <= y <= y * d[3]) by (nonlinear_arith)
        requires
            0 <= y,
            0 < d[3],
    ;
}

// ---------------------------------------------------------------------------
// Named layouts
// ---------------------------------------------------------------------------

/// The permutation from NCHW to NHWC.
pub open spec fn to_nhwc() -> Seq<usize> {
    seq![0, 2, 3, 1]
}

/// The permutation from NHWC to NCHW.
pub open spec fn to_nchw() -> Seq<usize> {
    seq![0, 3, 1, 2]
}

/// Transpose input data from NCHW to NHWC format; `shape` is `[N, C, H, W]`.
pub fn transpose_nchw_to_nhwc<T: Copy>(data: &[T], shape: &[usize; 4]) -> (r: Vec<T>)
    requires
        volume(ints(shape@)) <= data@.len(),
    ensures
        is_transposed(r@, data@, ints(shape@), to_nhwc()),
{
    let perm: [usize; 4] = [0, 2, 3, 1];
    assert(perm@ =~= to_nhwc());
    permute_4d(data, shape, &perm)
}

/// Transpose output data from NHWC back to NCHW format; `shape` is `[N, H, W, C]`.
pub fn transpose_nhwc_to_nchw<T: Copy>(data: &[T], shape: &[usize; 4]) -> (r: Vec<T>)
    requires
        volume(ints(shape@)) <= data@.len(),
    ensures
        is_transposed(r@, data@, ints(shape@), to_nchw()),
{
    let perm: [usize; 4] = [0, 3, 1, 2];
    assert(perm@ =~= to_nchw());
    permute_4d(data, shape, &perm)
}

/// A transposition followed by the one that undoes it gives the data back.
pub proof fn law_transpose_undone<T>(
    data: Seq<T>,
    there: Seq<T>,
    back: Seq<T>,
    d: Seq<int>,
    p: Seq<usize>,
    q: Seq<usize>,
)
    requires
        d.len() == 4,
        d[0] >= 0 && d[1] >= 0 && d[2] >= 0 && d[3] >= 0,
        data.len() == volume(d),
        is_permutation(p),
        is_permutation(q),
        p[q[0] as int] == 0 && p[q[1] as int] == 1 && p[q[2] as int] == 2 && p[q[3] as int] == 3,
        is_transposed(there, data, d, p),
        is_transposed(back, there, picked(d, p), q),
    ensures
        back == data,
{
    let e = picked(d, p);
    lemma_volume_picked(d, p);
    assert(picked(e, q) =~= d);
    assert forall|k: int| 0 <= k < data.len() implies back[k] == data[k] by {
        if d[0] == 0 || d[1] == 0 || d[2] == 0 || d[3] == 0 {
            assert(volume(d) == 0) by (nonlinear_arith)
                requires
                    d[0] == 0 || d[1] == 0 || d[2] == 0 || d[3] == 0,
                    volume(d) == ((d[0] * d[1]) * d[2]) * d[3],
            ;
        }
        let i = lemma_decode(d, k);
        let o = picked(i, p);
        lemma_pick_unpick(i, d, p);
        assert(picked(o, q) =~= i);
        assert(inside(i, d));
        assert(inside(o, e));
        assert(there[flat(o, e)] == data[flat(i, d)]);
        assert(back[flat(picked(o, q), picked(e, q))] == there[flat(o, e)]);
    }
    assert(back =~= data);
}

/// Going to NHWC and back to NCHW changes nothing.
pub proof fn law_nhwc_round_trip<T>(data: Seq<T>, nhwc: Seq<T>, back: Seq<T>, d: Seq<int>)
    requires
        d.len() == 4,
        d[0] >= 0 && d[1] >= 0 && d[2] >= 0 && d[3] >= 0,
        data.len() == volume(d),
        is_transposed(nhwc, data, d, to_nhwc()),
        is_transposed(back, nhwc, seq![d[0], d[2], d[3], d[1]], to_nchw()),
    ensures
        back == data,
{
    assert(picked(d, to_nhwc()) =~= seq![d[0], d[2], d[3], d[1]]);
    law_transpose_undone(data, nhwc, back, d, to_nhwc(), to_nchw());
}

/// An element of a tensor whose dimensions were put into another order stands at
/// its coordinates in that order.
pub proof fn law_elements_move<T>(data: Seq<T>, d: Seq<int>, p: Seq<usize>, i: Seq<int>)
    requires
        d.len() == 4,
        is_permutation(p),
        inside(i, d),
    ensures
        permuted(data, d, p).len() == volume(d),
        0 <= flat(picked(i, p), picked(d, p)) < volume(d),
        permuted(data, d, p)[flat(picked(i, p), picked(d, p))] == data[flat(i, d)],
{
    let (o, e) = (picked(i, p), picked(d, p));
    lemma_pick_unpick(i, d, p);
    lemma_flat_bound(i, d);
    lemma_flat_bound(o, e);
    lemma_volume_picked(d, p);
    lemma_coordinates(o, e, flat(o, e));
    assert(coordinates(flat(o, e), e) =~= o);
    assert(unpicked(o, p) =~= i);
}

/// Where transposed images hold their numbers: what was at row `h` and column
/// `w` of channel `c` comes to lie beside the other channels of that place, and
/// back.
pub proof fn law_channels_go_last<T>(out: Seq<T>, data: Seq<T>, d: Seq<int>, n: int, c: int, h: int, w: int)
    requires
        d.len() == 4,
        0 <= n < d[0],
        0 <= c,
        0 <= h,
        0 <= w,
    ensures
        is_transposed(out, data, d, to_nhwc()) && c < d[1] && h < d[2] && w < d[3] ==> out[((n * d[2]
            + h) * d[3] + w) * d[1] + c] == data[((n * d[1] + c) * d[2] + h) * d[3] + w],
        is_transposed(out, data, d, to_nchw()) && h < d[1] && w < d[2] && c < d[3] ==> out[((n * d[3]
            + c) * d[1] + h) * d[2] + w] == data[((n * d[1] + h) * d[2] + w) * d[3] + c],
{
    if is_transposed(out, data, d, to_nhwc()) && c < d[1] && h < d[2] && w < d[3] {
        let i = seq![n, c, h, w];
        assert(inside(i, d));
        assert(out[flat(picked(i, to_nhwc()), picked(d, to_nhwc()))] == data[flat(i, d)]);
    }
    if is_transposed(out, data, d, to_nchw()) && h < d[1] && w < d[2] && c < d[3] {
        let i = seq![n, h, w, c];
        assert(inside(i, d));
        assert(out[flat(picked(i, to_nchw()), picked(d, to_nchw()))] == data[flat(i, d)]);
    }
}

/// The number of elements of four dimensions.
proof fn lemma_numel_of_four(s: Seq<usize>)
    requires
        s.len() == 4,
    ensures
        numel(s) == volume(ints(s)),
        products_fit(s) ==> volume(ints(s)) <= usize::MAX,
        !products_fit(s) && volume(ints(s)) <= usize::MAX ==> volume(ints(s)) == 0,
{
    let d = ints(s);
    let (a, b, c, e) = (d[0], d[1], d[2], d[3]);
    let s3 = s.take(3);
    let s2 = s.take(2);
    let s1 = s.take(1);
    let s0 = s.take(0);
    assert(s.drop_last() =~= s3);
    assert(s3.drop_last() =~= s2);
    assert(s2.drop_last() =~= s1);
    assert(s1.drop_last() =~= s0);
    assert(numel(s0) == 1);
    assert(numel(s1) == numel(s0) * (s[0] as nat));
    assert(numel(s0) * (s[0] as nat) == a) by (nonlinear_arith)
        requires
            numel(s0) == 1,
            s[0] == a,
    ;
    assert(numel(s2) == a * b);
    assert(numel(s3) == (a * b) * c);
    assert(numel(s) == ((a * b) * c) * e);
    assert(s.take(4) =~= s);
    if !products_fit(s) && volume(d) <= usize::MAX {
        if a > 0 && b > 0 && c > 0 && e > 0 {
            lemma_partial_products(a, b, c, e);
            assert forall|k: int| 0 <= k <= 4 implies #[trigger] numel(s.take(k)) <= usize::MAX by {
                if k == 0 {
                } else if k == 1 {
                } else if k == 2 {
                } else if k == 3 {
                } else {
                    assert(k == 4);
                }
            }
        } else {
            assert(((a * b) * c) * e == 0) by (nonlinear_arith)
                requires
                    a >= 0,
                    b >= 0,
                    c >= 0,
                    e >= 0,
                    !(a > 0 && b > 0 && c > 0 && e > 0),
            ;
        }
    }
}

/// The bytes of a tensor of 32-bit elements with the dimensions in the order
/// of `p`; data of another size than the dimensions say is left as it is.
pub open spec fn permuted_bytes(data: Seq<u8>, d: Seq<int>, p: Seq<usize>) -> Seq<u8> {
    if data.len() == volume(d) * 4 {
        bytes_of_words32(permuted(words32(data), d, p))
    } else {
        data
    }
}

/// Transpose a 4D tensor of 32-bit elements held as bytes; data of another
/// size than the shape says is given back as it is.
pub fn transpose_f32_4d(data: &[u8], shape: &[usize], perm: &[usize; 4]) -> (r: Vec<u8>)
    requires
        shape@.len() == 4,
        is_permutation(perm@),
    ensures
        r@ == permuted_bytes(data@, ints(shape@), perm@),
        data@.len() == volume(ints(shape@)) * 4 ==> is_transposed(
            words32(r@),
            words32(data@),
            ints(shape@),
            perm@,
        ),
{
    let ghost d = ints(shape@);
    proof {
        lemma_numel_of_four(shape@);
    }
    let n: usize = match checked_numel(shape) {
        Some(n) => n,
        None => {
            proof {
                if data@.len() == volume(d) * 4 {
                    assert(volume(d) <= data.len());
                    lemma_empty_inside(d);
                    assert(bytes_of_words32(permuted(words32(data@), d, perm@)) =~= data@);
                }
            }
            return vstd::slice::slice_to_vec(data);
        },
    };
    if data.len() % 4 != 0 || data.len() / 4 != n {
        return vstd::slice::slice_to_vec(data);
    }
    let src: Vec<u32> = to_words32(data);
    let dims: [usize; 4] = [shape[0], shape[1], shape[2], shape[3]];
    assert(dims@ =~= shape@);
    let dst: Vec<u32> = permute_4d(src.as_slice(), &dims, perm);
    proof {
        law_words32_round_trip(dst@);
    }
    from_words32(&dst)
}

proof fn lemma_empty_inside(d: Seq<int>)
    requires
        d.len() == 4,
        volume(d) == 0,
    ensures
        forall|i: Seq<int>| !(#[trigger] inside(i, d)),
{
    assert forall|i: Seq<int>| !(#[trigger] inside(i, d)) by {
        if inside(i, d) {
            lemma_flat_bound(i, d);
        }
    }
}

// ---------------------------------------------------------------------------
// Two dimensions
// ---------------------------------------------------------------------------

/// `out` holds the elements of the row-major matrix `data` column by column;
/// bytes after the matrix are 0.
pub open spec fn is_transposed_2d(
    out: Seq<u8>,
    data: Seq<u8>,
    rows: int,
    cols: int,
    size: int,
) -> bool {
    &&& out.len() == data.len()
    &&& forall|r: int, c: int, b: int|
        #![trigger matrix_place(c, r, b, rows, size)]
        0 <= r < rows && 0 <= c < cols && 0 <= b < size ==> out[matrix_place(c, r, b, rows, size)]
            == data[matrix_place(r, c, b, cols, size)]
    &&& forall|k: int| (rows * cols) * size <= k < out.len() ==> #[trigger] out[k] == 0
}

/// The place of byte `b` of the element at row `r` and column `c` of a
/// row-major matrix with `cols` columns.
pub open spec fn matrix_place(r: int, c: int, b: int, cols: int, size: int) -> int {
    (r * cols + c) * size + b
}

pub(crate) proof fn lemma_matrix_place(r: int, c: int, b: int, rows: int, cols: int, size: int)
    requires
        0 <= r < rows,
        0 <= c < cols,
        0 <= b < size,
    ensures
        0 <= r * cols + c < rows * cols,
        0 <= (r * cols + c) * size <= matrix_place(r, c, b, cols, size) < (rows * cols) * size,
        matrix_place(r, c, b, cols, size) % size == b,
        matrix_place(r, c, b, cols, size) / size % cols == c,
        matrix_place(r, c, b, cols, size) / size / cols == r,
{
    let x = r * cols + c;
    let k = x * size + b;
    assert(0 <= x < rows * cols) by (nonlinear_arith)
        requires
            0 <= r < rows,
            0 <= c < cols,
            x == r * cols + c,
    ;
    assert(0 <= x * size <= k < (rows * cols) * size) by (nonlinear_arith)
        requires
            0 <= x < rows * cols,
            0 <= b < size,
            k == x * size + b,
    ;
    lemma_fundamental_div_mod_converse(k, size, x, b);
    lemma_fundamental_div_mod_converse(x, cols, r, c);
}

proof fn lemma_matrix_decode(k: int, rows: int, cols: int, size: int)
    requires
        0 <= k < (rows * cols) * size,
        rows > 0,
        cols > 0,
        size > 0,
    ensures
        0 <= k % size < size,
        0 <= k / size % cols < cols,
        0 <= k / size / cols < rows,
        matrix_place(k / size / cols, k / size % cols, k % size, cols, size) == k,
{
    let x = k / size;
    let r = x / cols;
    assert(x * size + k % size == k && 0 <= k % size < size && 0 <= x < rows * cols)
        by (nonlinear_arith)
        requires
            x == k / size,
            size > 0,
            0 <= k < (rows * cols) * size,
    ;
    assert(r * cols + x % cols == x && 0 <= x % cols < cols && 0 <= r < rows) by (nonlinear_arith)
        requires
            r == x / cols,
            cols > 0,
            0 <= x < rows * cols,
    ;
}

/// The elements of the row-major matrix `data` column by column; bytes after
/// the matrix are 0.
pub open spec fn transposed_2d(data: Seq<u8>, rows: int, cols: int, size: int) -> Seq<u8> {
    Seq::new(
        data.len(),
        |k: int|
            if k < (rows * cols) * size {
                data[matrix_place(k / size % rows, k / size / rows, k % size, cols, size)]
            } else {
                0
            },
    )
}

pub(crate) proof fn lemma_transposed_2d(data: Seq<u8>, rows: int, cols: int, size: int)
    requires
        rows >= 0,
        cols >= 0,
        size >= 0,
        (rows * cols) * size <= data.len(),
    ensures
        is_transposed_2d(transposed_2d(data, rows, cols, size), data, rows, cols, size),
{
    let out = transposed_2d(data, rows, cols, size);
    assert forall|r: int, c: int, b: int|
        #![trigger matrix_place(c, r, b, rows, size)]
        0 <= r < rows && 0 <= c < cols && 0 <= b < size implies out[matrix_place(
        c,
        r,
        b,
        rows,
        size,
    )] == data[matrix_place(r, c, b, cols, size)] by {
        lemma_matrix_place(c, r, b, cols, rows, size);
        assert(cols * rows == rows * cols) by (nonlinear_arith);
    }
    assert((rows * cols) * size >= 0) by (nonlinear_arith)
        requires
            rows >= 0,
            cols >= 0,
            size >= 0,
    ;
}

/// Transpose a 2D byte buffer where each element is `element_size` bytes,
/// from row-major `[rows, cols]` to row-major `[cols, rows]`.
pub fn transpose_2d_bytes(data: &[u8], rows: usize, cols: usize, element_size: usize) -> (r: Vec<u8>)
    requires
        (rows * cols) * element_size <= data@.len(),
    ensures
        r@ == transposed_2d(data@, rows as int, cols as int, element_size as int),
        is_transposed_2d(r@, data@, rows as int, cols as int, element_size as int),
{
    let ghost n = rows as int;
    let ghost m = cols as int;
    let ghost s = element_size as int;
    let ghost all = transposed_2d(data@, n, m, s);
    proof {
        lemma_transposed_2d(data@, n, m, s);
    }
    let mut out: Vec<u8> = Vec::new();
    let mut k: usize = 0;
    let total: usize = if rows == 0 || cols == 0 || element_size == 0 {
        assert((n * m) * s == 0) by (nonlinear_arith)
            requires
                n == 0 || m == 0 || s == 0,
        ;
        0
    } else {
        proof {
            assert(rows * cols <= (rows * cols) * element_size) by (nonlinear_arith)
                requires
                    rows > 0,
                    cols > 0,
                    element_size > 0,
            ;
        }
        assert((rows * cols) * element_size <= data.len());
        (rows * cols) * element_size
    };
    while k < total
        invariant
            k <= total <= data@.len(),
            n == rows,
            m == cols,
            s == element_size,
            total == (n * m) * s,
            total > 0 ==> n > 0 && m > 0 && s > 0,
            all == transposed_2d(data@, n, m, s),
            out@ == all.take(k as int),
        decreases total - k,
    {
        proof {
            assert(m * n == n * m) by (nonlinear_arith);
            lemma_matrix_decode(k as int, m, n, s);
        }
        let b: usize = k % element_size;
        let r: usize = k / element_size % rows;
        let c: usize = k / element_size / rows;
        proof {
            lemma_matrix_place(r as int, c as int, b as int, n, m, s);
            assert(0 <= r * cols) by (nonlinear_arith);
            assert(n * m <= (n * m) * s) by (nonlinear_arith)
                requires
                    s > 0,
                    n > 0,
                    m > 0,
            ;
        }
        let at: usize = (r * cols + c) * element_size + b;
        out.push(data[at]);
        k = k + 1;
        assert(out@ =~= all.take(k as int));
    }
    while k < data.len()
        invariant
            total <= k <= data@.len(),
            total == (n * m) * s,
            all == transposed_2d(data@, n, m, s),
            out@ == all.take(k as int),
        decreases data@.len() - k,
    {
        out.push(0);
        k = k + 1;
        assert(out@ =~= all.take(k as int));
    }
    assert(all.take(k as int) =~= all);
    out
}

/// Transposing a matrix twice gives it back.
pub proof fn law_transpose_2d_twice(
    data: Seq<u8>,
    once: Seq<u8>,
    twice: Seq<u8>,
    rows: int,
    cols: int,
    size: int,
)
    requires
        rows > 0,
        cols > 0,
        size > 0,
        data.len() == (rows * cols) * size,
        is_transposed_2d(once, data, rows, cols, size),
        is_transposed_2d(twice, once, cols, rows, size),
    ensures
        twice == data,
{
    assert forall|k: int| 0 <= k < data.len() implies twice[k] == data[k] by {
        lemma_matrix_decode(k, rows, cols, size);
        let b = k % size;
        let c = k / size % cols;
        let r = k / size / cols;
        assert(once[matrix_place(c, r, b, rows, size)] == data[matrix_place(r, c, b, cols, size)]);
        assert(twice[matrix_place(r, c, b, cols, size)] == once[matrix_place(c, r, b, rows, size)]);
    }
    assert(twice =~= data);
}

} // verus!
