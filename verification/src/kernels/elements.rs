//! What the element-by-element kernels make of each number.

use vstd::prelude::*;
use vstd::arithmetic::power2::{lemma2_to64, pow2};
use crate::ieee::accuracy::{
    is_rounded, law_difference32_is_rounded, law_product32_is_rounded, law_quotient32_is_rounded,
    law_sum32_is_rounded, lemma_addends_finite,
};
use crate::ieee::sums::are_sums;
use crate::ieee::{difference32, less32, nan32, single, sum32, Parts, ONE};
use crate::precision::{is_finite, lemma_one, value_of};
use super::{
    are_bounds, broadcast_over, clipped, normalized_rows, rectified, row_biased, row_max, row_sum,
    sigmoid_arguments, sigmoids, softmax_arguments, Arithmetic, LEAST,
};

verus! {

/// Whether `y` is `x`, or zero where `x` is negative.
pub open spec fn is_rectified(y: u32, x: u32) -> bool {
    !nan32(x) ==> !nan32(y) && value_of(y) == if value_of(x) < 0 {
        0
    } else {
        value_of(x)
    }
}

/// Whether `y` is the number between two bounds that is nearest to `x`.
pub open spec fn is_clipped(y: u32, x: u32, min: u32, max: u32) -> bool {
    !nan32(x) ==> !nan32(y) && value_of(y) == if value_of(x) < value_of(min) {
        value_of(min)
    } else if value_of(x) > value_of(max) {
        value_of(max)
    } else {
        value_of(x)
    }
}

/// Whether `y` is `a` and `b` added, subtracted, multiplied or divided, rounded once.
pub open spec fn is_result(kind: Arithmetic, y: u32, a: u32, b: u32) -> bool {
    let (v, p, q) = (value_of(y), value_of(a), value_of(b));
    is_finite(y) && is_finite(a) && is_finite(b) ==> match kind {
        Arithmetic::Sum => is_rounded(v, p + q, 1, 24),
        Arithmetic::Difference => is_rounded(v, p - q, 1, 24),
        Arithmetic::Product => is_rounded(v, p * q, pow2(149) as int, 24),
        Arithmetic::Quotient => q != 0 ==> is_rounded(v, p * pow2(149), q, 24),
    }
}

/// A rectified number is the number, or zero where that is negative.
pub proof fn law_rectified(v: Seq<u32>, i: int)
    requires
        0 <= i < v.len(),
    ensures
        rectified(v).len() == v.len(),
        is_rectified(rectified(v)[i], v[i]),
{
    reveal(less32);
    reveal(nan32);
    lemma2_to64();
    assert(value_of(0) == 0);
}

/// A clipped number lies between the bounds, as near to the number as there.
pub proof fn law_clipped(v: Seq<u32>, min: u32, max: u32, i: int)
    requires
        0 <= i < v.len(),
        are_bounds(min, max),
    ensures
        clipped(v, min, max).len() == v.len(),
        is_clipped(clipped(v, min, max)[i], v[i], min, max),
{
    reveal(less32);
    reveal(nan32);
}

/// Numbers are combined place by place; the second operand is repeated.
pub proof fn law_combined(kind: Arithmetic, a: Seq<u32>, b: Seq<u32>, i: int)
    requires
        0 <= i < a.len(),
        b.len() > 0,
    ensures
        broadcast_over(kind, a, b).len() == a.len(),
        is_result(kind, broadcast_over(kind, a, b)[i], a[i], b[i % b.len() as int]),
        i < b.len() ==> is_result(kind, broadcast_over(kind, a, b)[i], a[i], b[i]),
{
    let x = b[i % b.len() as int];
    let y = broadcast_over(kind, a, b)[i];
    if i < b.len() {
        vstd::arithmetic::div_mod::lemma_small_mod(i as nat, b.len());
    }
    if is_finite(y) && is_finite(a[i]) && is_finite(x) {
        match kind {
            Arithmetic::Sum => law_sum32_is_rounded(a[i], x),
            Arithmetic::Difference => law_difference32_is_rounded(a[i], x),
            Arithmetic::Product => law_product32_is_rounded(a[i], x),
            Arithmetic::Quotient => {
                if value_of(x) != 0 {
                    law_quotient32_is_rounded(a[i], x);
                }
            },
        }
    }
}

/// A bias is added to each row: entry `j` of it to every number of column `j`.
pub proof fn law_row_bias(v: Seq<u32>, n: int, bias: Seq<u32>, row: int, j: int)
    requires
        0 <= row,
        0 <= j < n,
        row * n + j < v.len(),
        n <= bias.len(),
        is_finite(row_biased(v, n, bias)[row * n + j]),
    ensures
        is_rounded(
            value_of(row_biased(v, n, bias)[row * n + j]),
            value_of(v[row * n + j]) + value_of(bias[j]),
            1,
            24,
        ),
{
    let o = row * n + j;
    assert(o >= 0) by (nonlinear_arith)
        requires
            o == row * n + j,
            row >= 0,
            n > 0,
            j >= 0,
    ;
    vstd::arithmetic::div_mod::lemma_fundamental_div_mod_converse(o, n, row, j);
    vstd::arithmetic::div_mod::lemma_small_mod(j as nat, bias.len());
    lemma_addends_finite(v[o], bias[j]);
    law_sum32_is_rounded(v[o], bias[j]);
}

// ---------------------------------------------------------------------------
// Softmax and sigmoid
// ---------------------------------------------------------------------------

proof fn lemma_row_max(v: Seq<u32>, start: int, n: nat)
    ensures
        !nan32(row_max(v, start, n)),
        forall|j: int|
            start <= j < start + n && !nan32(#[trigger] v[j]) ==> !less32(row_max(v, start, n), v[j]),
        row_max(v, start, n) == LEAST || exists|j: int|
            start <= j < start + n && #[trigger] v[j] == row_max(v, start, n),
    decreases n,
{
    reveal(less32);
    reveal(nan32);
    if n > 0 {
        lemma_row_max(v, start, (n - 1) as nat);
        let last = v[start + n - 1];
        let y = row_max(v, start, n);
        let before = row_max(v, start, (n - 1) as nat);
        if y == before && before != LEAST {
            let j = choose|j: int|
                start <= j < start + n - 1 && #[trigger] v[j] == before;
            assert(v[j] == y);
        }
    }
}

/// Whether `m` is the largest of a row.
pub open spec fn is_row_largest(m: u32, v: Seq<u32>, row: int, n: int) -> bool {
    &&& !nan32(m)
    &&& forall|j: int|
        row * n <= j < row * n + n && !nan32(#[trigger] v[j]) ==> !less32(m, v[j])
    &&& m == LEAST || exists|j: int| row * n <= j < row * n + n && #[trigger] v[j] == m
}

/// What the exponentials of a softmax are taken of: each number less the largest
/// of its row.
pub proof fn law_softmax_arguments(v: Seq<u32>, rows: nat, n: nat, row: int, j: int)
    requires
        0 <= row < rows,
        0 <= j < n,
        rows * n <= v.len(),
    ensures
        softmax_arguments(v, rows, n).len() == rows * n,
        exists|m: u32|
            #![trigger is_row_largest(m, v, row, n as int)]
            is_row_largest(m, v, row, n as int) && (is_finite(m) && is_finite(v[row * n + j])
                && is_finite(softmax_arguments(v, rows, n)[row * n + j]) ==> is_rounded(
                value_of(softmax_arguments(v, rows, n)[row * n + j]),
                value_of(v[row * n + j]) - value_of(m),
                1,
                24,
            )),
{
    let i = row * n + j;
    super::lemma_cell(row, rows as int, j, n as int);
    vstd::arithmetic::div_mod::lemma_fundamental_div_mod_converse(i, n as int, row, j);
    let m = row_max(v, row * n, n);
    lemma_row_max(v, row * n, n);
    assert(is_row_largest(m, v, row, n as int));
    if is_finite(m) && is_finite(v[i]) && is_finite(difference32(v[i], m)) {
        law_difference32_is_rounded(v[i], m);
    }
}

/// A softmax divides each exponential by the sum of those of its row.
pub proof fn law_softmax_is_normalized(e: Seq<u32>, rows: nat, n: nat, row: int, j: int)
    requires
        0 <= row < rows,
        0 <= j < n,
        e.len() == rows * n,
    ensures
        normalized_rows(e, n).len() == e.len(),
        exists|s: Seq<u32>|
            #![trigger are_sums(s, e.subrange(row * n, row * n + n))]
            are_sums(s, e.subrange(row * n, row * n + n)) && s[0] == 0 && is_result(
                Arithmetic::Quotient,
                normalized_rows(e, n)[row * n + j],
                e[row * n + j],
                s.last(),
            ),
{
    let i = row * n + j;
    super::lemma_cell(row, rows as int, j, n as int);
    vstd::arithmetic::div_mod::lemma_fundamental_div_mod_converse(i, n as int, row, j);
    assert(0 <= row * n && row * n + n <= rows * n) by (nonlinear_arith)
        requires
            0 <= row < rows,
    ;
    let all = e.subrange(row * n, row * n + n);
    let s = Seq::new(n + 1, |k: int| row_sum(e, row * n, k as nat));
    assert(are_sums(s, all));
    let y = normalized_rows(e, n)[i];
    if is_finite(y) && is_finite(e[i]) && is_finite(s.last()) && value_of(s.last()) != 0 {
        law_quotient32_is_rounded(e[i], s.last());
    }
}

/// What the exponentials of a sigmoid are taken of: each number with the other sign.
pub proof fn law_sigmoid_arguments(v: Seq<u32>, i: int)
    requires
        0 <= i < v.len(),
    ensures
        sigmoid_arguments(v).len() == v.len(),
        is_finite(v[i]) ==> is_finite(sigmoid_arguments(v)[i]) && value_of(sigmoid_arguments(v)[i])
            == -value_of(v[i]),
{
    let x = v[i];
    assert(x < 0x8000_0000u32 ==> x ^ 0x8000_0000u32 == x + 0x8000_0000u32) by (bit_vector);
    assert(x >= 0x8000_0000u32 ==> x ^ 0x8000_0000u32 == x - 0x8000_0000u32) by (bit_vector);
}

/// A sigmoid is one over one and the exponential: with `d` the rounded sum of
/// one and the exponential, it is one over `d`, rounded.
pub proof fn law_sigmoid(e: Seq<u32>, i: int)
    requires
        0 <= i < e.len(),
        is_finite(e[i]),
        is_finite(sum32(ONE, e[i])),
        is_finite(sigmoids(e)[i]),
        value_of(e[i]) >= 0,
    ensures
        exists|d: int|
            #![trigger is_rounded(d, pow2(149) + value_of(e[i]), 1, 24)]
            is_rounded(d, pow2(149) + value_of(e[i]), 1, 24) && is_rounded(
                value_of(sigmoids(e)[i]),
                (pow2(149) * pow2(149)) as int,
                d,
                24,
            ),
{
    let u = lemma_one();
    assert(single(ONE) == Parts { negative: false, magnitude: 0x3f80_0000 });
    assert(value_of(ONE) == pow2(149));
    law_sum32_is_rounded(ONE, e[i]);
    let s = sum32(ONE, e[i]);
    let d = value_of(s);
    lemma2_to64();
    crate::ieee::nearness::lemma_rounded_off(d, pow2(149) + value_of(e[i]), 1, 24);
    assert(d > 0);
    law_quotient32_is_rounded(ONE, s);
    assert(is_rounded(d, pow2(149) + value_of(e[i]), 1, 24));
}

} // verus!
