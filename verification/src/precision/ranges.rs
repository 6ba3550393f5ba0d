//! How large the steps of a range are: no larger than it takes.

use vstd::prelude::*;
use vstd::arithmetic::div_mod::lemma_fundamental_div_mod_converse;
use vstd::arithmetic::power2::{lemma2_to64, lemma_pow2_adds, lemma_pow2_pos, pow2};
use crate::calibration::{activation_scale, calibrated, input_scale, is_weight, CalibratorView};
use crate::ieee::accuracy::{distance, is_rounded, law_quotient32_is_rounded, size};
use crate::ieee::sums::{are_sums, law_sums_are_close, total, total_size};
use crate::ieee::{less32, nan32, quotient32, single, single_of, sum32, units, Format, Parts};
use crate::proto::words32;
use crate::scales::{
    channel_scales, larger, magnitude, max_magnitude, mean_of, range_scale, sum_of, LARGEST,
};
use super::steps::law_small_whole_is_exact;
use super::{is_finite, lemma_largest, lemma_magnitude, value_of};

verus! {

/// Whether a scale has 127 steps up to a number of `top` units, but for a rounding.
pub open spec fn is_scale_of(scale: u32, top: int) -> bool {
    is_finite(scale) ==> is_rounded(value_of(scale), top * pow2(149), 127int * pow2(149), 24)
}

proof fn lemma_divisor()
    ensures
        is_finite(LARGEST),
        value_of(LARGEST) == 127 * pow2(149),
        value_of(LARGEST) > 0,
{
    let f = Format::Single;
    lemma2_to64();
    lemma_pow2_adds(17, 132);
    lemma_pow2_pos(149);
    lemma_fundamental_div_mod_converse(0x42fe_0000, 0x80_0000, 133, 0x7e_0000);
    assert(units(f, 0x42fe_0000) == 0xfe_0000 * pow2(132));
    assert(single(LARGEST) == (Parts { negative: false, magnitude: 0x42fe_0000 }));
}

proof fn lemma_scale_of_top(big: u32)
    requires
        is_finite(big),
    ensures
        is_scale_of(quotient32(big, LARGEST), value_of(big)),
{
    lemma_divisor();
    if is_finite(quotient32(big, LARGEST)) {
        law_quotient32_is_rounded(big, LARGEST);
    }
}

/// The scale of a range has 127 steps up to the end that is further from zero.
pub proof fn law_range_scale_fits(min: u32, max: u32)
    requires
        is_finite(min),
        is_finite(max),
    ensures
        size(value_of(min)) <= size(value_of(max)) ==> is_scale_of(
            range_scale(min, max),
            size(value_of(max)),
        ),
        size(value_of(max)) <= size(value_of(min)) ==> is_scale_of(
            range_scale(min, max),
            size(value_of(min)),
        ),
{
    reveal(less32);
    reveal(nan32);
    lemma_magnitude(min);
    lemma_magnitude(max);
    let big = larger(magnitude(min), magnitude(max));
    lemma_scale_of_top(big);
}

proof fn lemma_largest_there(w: Seq<u32>, start: int, end: int) -> (k: int)
    requires
        0 <= start < end <= w.len(),
        forall|j: int| start <= j < end ==> is_finite(#[trigger] w[j]),
    ensures
        start <= k < end,
        value_of(max_magnitude(w, start, end)) == size(value_of(w[k])),
    decreases end - start,
{
    reveal(less32);
    reveal(nan32);
    lemma2_to64();
    lemma_magnitude(w[end - 1]);
    lemma_largest(w, start, end - 1, start);
    assert(is_finite(w[end - 1]));
    let before = max_magnitude(w, start, end - 1);
    let last = magnitude(w[end - 1]);
    if max_magnitude(w, start, end) == last {
        end - 1
    } else if start == end - 1 {
        assert(before == 0);
        end - 1
    } else {
        lemma_largest_there(w, start, end - 1)
    }
}

/// The scale of a channel has 127 steps up to the number of the channel that is
/// furthest from zero.
pub proof fn law_channel_scale_fits(w: Seq<u32>, channels: nat, per: nat, c: int)
    requires
        0 <= c < channels,
        0 < per,
        channels * per <= w.len(),
        forall|j: int| 0 <= j < w.len() ==> is_finite(#[trigger] w[j]),
    ensures
        channel_scales(w, channels, per).len() == channels,
        exists|k: int|
            #![trigger w[k]]
            {
                &&& c * per <= k < c * per + per
                &&& forall|j: int|
                    c * per <= j < c * per + per ==> size(value_of(#[trigger] w[j])) <= size(
                        value_of(w[k]),
                    )
                &&& is_scale_of(channel_scales(w, channels, per)[c], size(value_of(w[k])))
            },
{
    let start = c * per;
    let end = c * per + per;
    assert(0 <= start && end <= channels * per) by (nonlinear_arith)
        requires
            0 <= c < channels,
            start == c * per,
            end == start + per,
    ;
    let k = lemma_largest_there(w, start, end);
    let big = max_magnitude(w, start, end);
    lemma_largest(w, start, end, k);
    lemma_scale_of_top(big);
    assert forall|j: int| start <= j < end implies size(value_of(#[trigger] w[j])) <= size(
        value_of(w[k]),
    ) by {
        lemma_largest(w, start, end, j);
    }
    assert(is_finite(w[k]));
}

proof fn lemma_total_first(v: Seq<u32>)
    requires
        v.len() > 0,
    ensures
        total(v) == value_of(v[0]) + total(v.drop_first()),
        total_size(v) == size(value_of(v[0])) + total_size(v.drop_first()),
    decreases v.len(),
{
    reveal_with_fuel(total, 2);
    reveal_with_fuel(total_size, 2);
    if v.len() > 1 {
        lemma_total_first(v.drop_last());
        assert(v.drop_last().drop_first() =~= v.drop_first().drop_last());
        assert(v.drop_first().last() == v.last());
    } else {
        assert(v.drop_first() =~= Seq::empty());
        assert(v.drop_last() =~= Seq::empty());
    }
}

/// Whether a number is the `n`th part of `s` units, but for a rounding.
pub open spec fn is_share(x: u32, s: int, n: nat) -> bool {
    is_rounded(value_of(x), s * pow2(149), n as int * pow2(149), 24)
}

/// The mean of numbers is their sum, which is off by a small part of the sizes,
/// over their number.
pub proof fn law_mean_is_close(v: Seq<u32>)
    requires
        0 < v.len() <= 0x10_0000,
        is_finite(sum_of(v, v.len())),
        is_finite(mean_of(v)),
    ensures
        exists|s: int|
            #![trigger is_share(mean_of(v), s, v.len())]
            {
                &&& distance(s, total(v)) * 0x100_0000 <= 2 * v.len() * total_size(v)
                &&& is_share(mean_of(v), s, v.len())
            },
{
    let n = v.len();
    let rest = v.drop_first();
    let sums = Seq::new(n, |k: int| sum_of(v, (k + 1) as nat));
    assert forall|k: int| 0 <= k < rest.len() implies #[trigger] sums[k + 1] == sum32(
        sums[k],
        rest[k],
    ) by {
        assert(rest[k] == v[k + 1]);
    }
    assert(are_sums(sums, rest));
    assert(sums.last() == sum_of(v, n));
    law_sums_are_close(sums, rest);
    lemma_total_first(v);
    let s = value_of(sum_of(v, n));
    let d = total_size(v);
    assert(2 * rest.len() * d <= 2 * n * d) by (nonlinear_arith)
        requires
            rest.len() <= n,
            d >= 0,
    ;
    law_small_whole_is_exact(n as int);
    lemma_pow2_pos(149);
    assert(n * pow2(149) > 0) by (nonlinear_arith)
        requires
            n > 0,
            pow2(149) > 0,
    ;
    law_quotient32_is_rounded(sum_of(v, n), single_of(n));
    assert(is_share(mean_of(v), s, n));
}

/// A calibration that keeps the whole range gives every tensor that it has seen
/// a scale with 127 steps up to the end of its range that is further from zero.
pub proof fn law_activation_scale_fits(c: CalibratorView, name: Seq<char>)
    requires
        calibrated(c) is Ok,
        c.stats.dom().contains(name),
        !(c.strategy is Percentile),
        is_finite(c.stats[name].min),
        is_finite(c.stats[name].max),
    ensures
        ({
            let p = calibrated(c)->Ok_0.activations;
            let (low, high) = (value_of(c.stats[name].min), value_of(c.stats[name].max));
            &&& p.dom().contains(name)
            &&& size(low) <= size(high) ==> is_scale_of(p[name], size(high))
            &&& size(high) <= size(low) ==> is_scale_of(p[name], size(low))
        }),
{
    law_range_scale_fits(c.stats[name].min, c.stats[name].max);
}

/// A calibration gives every weight a scale for each of its channels, which the
/// first dimension counts, with 127 steps up to the number of the channel that is
/// furthest from zero.
pub proof fn law_weight_scale_fits(c: CalibratorView, name: Seq<char>, ch: int, per: int)
    requires
        calibrated(c) is Ok,
        c.graph.initializers.dom().contains(name),
        c.graph.shapes.dom().contains(name),
        c.graph.shapes[name].dims.len() >= 2,
        0 <= ch < c.graph.shapes[name].dims[0],
        0 < per,
        per * c.graph.shapes[name].dims[0] == words32(c.graph.initializers[name]).len(),
        forall|j: int|
            0 <= j < words32(c.graph.initializers[name]).len() ==> is_finite(
                #[trigger] words32(c.graph.initializers[name])[j],
            ),
    ensures
        ({
            let p = calibrated(c)->Ok_0.weights;
            let w = words32(c.graph.initializers[name]);
            &&& p.dom().contains(name)
            &&& p[name].len() == c.graph.shapes[name].dims[0]
            &&& exists|k: int|
                #![trigger w[k]]
                {
                    &&& ch * per <= k < ch * per + per
                    &&& forall|j: int|
                        ch * per <= j < ch * per + per ==> size(value_of(#[trigger] w[j])) <= size(
                            value_of(w[k]),
                        )
                    &&& is_scale_of(p[name][ch], size(value_of(w[k])))
                }
        }),
{
    let w = words32(c.graph.initializers[name]);
    let n = c.graph.shapes[name].dims[0] as int;
    assert(is_weight(c.graph, name));
    assert(w.len() as int / n == per) by {
        lemma_fundamental_div_mod_converse(w.len() as int, n, per, 0);
    }
    assert(n * per == per * n) by (nonlinear_arith);
    law_channel_scale_fits(w, n as nat, per as nat, ch);
}

/// The scale of a graph's input is that of its first input with statistics.
pub proof fn law_input_scale_is_its_own(c: CalibratorView, i: int)
    requires
        calibrated(c) is Ok,
        0 <= i < c.graph.inputs.len(),
        c.stats.dom().contains(c.graph.inputs[i]),
        forall|j: int| 0 <= j < i ==> !c.stats.dom().contains(#[trigger] c.graph.inputs[j]),
    ensures
        calibrated(c)->Ok_0.input == Some(calibrated(c)->Ok_0.activations[c.graph.inputs[i]]),
{
    lemma_input_scale(c, c.graph.inputs.len(), i);
}

proof fn lemma_input_scale(c: CalibratorView, n: nat, i: int)
    requires
        n <= c.graph.inputs.len(),
        0 <= i < c.graph.inputs.len(),
        c.stats.dom().contains(c.graph.inputs[i]),
        forall|j: int| 0 <= j < i ==> !c.stats.dom().contains(#[trigger] c.graph.inputs[j]),
    ensures
        n <= i ==> input_scale(c, n) is None,
        i < n ==> input_scale(c, n) == Some(activation_scale(c, c.graph.inputs[i])),
    decreases n,
{
    if n > 0 {
        lemma_input_scale(c, (n - 1) as nat, i);
        if n - 1 < i {
            assert(!c.stats.dom().contains(c.graph.inputs[n - 1]));
        }
    }
}

} // verus!
