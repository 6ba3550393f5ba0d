//! Quantization scales: how they are computed and where they are kept.

use vstd::prelude::*;
use vstd::string::*;
use crate::ieee::{
    add32, div32, from_whole, is_nan32, less32, lt32, nan32, quotient32, single_of, sum32,
};
use crate::name_map::NameMap;
use crate::tensor::{PerChannelScale, QuantScale};

verus! {

/// Bits of the single 127.0, the largest signed byte.
pub const LARGEST: u32 = 0x42fe_0000;

/// Bits of the single 1/127, the scale of tensors that nothing is known of.
pub const DEFAULT_SCALE: u32 = 0x3c01_0204;

/// The sum of singles, added from left to right.
pub open spec fn sum_of(v: Seq<u32>, n: nat) -> u32
    decreases n,
{
    if n <= 1 {
        v[0]
    } else {
        sum32(sum_of(v, (n - 1) as nat), v[n - 1])
    }
}

/// The mean of singles.
pub open spec fn mean_of(v: Seq<u32>) -> u32 {
    quotient32(sum_of(v, v.len()), single_of(v.len()))
}

/// The mean of singles.
pub fn mean(v: &Vec<u32>) -> (r: u32)
    requires
        v@.len() > 0,
    ensures
        r == mean_of(v@),
{
    let mut sum: u32 = v[0];
    let mut i: usize = 1;
    while i < v.len()
        invariant
            1 <= i <= v@.len(),
            sum == sum_of(v@, i as nat),
        decreases v@.len() - i,
    {
        sum = add32(sum, v[i]);
        i = i + 1;
    }
    div32(sum, from_whole(v.len() as u64))
}

/// A single without its sign.
pub open spec fn magnitude(a: u32) -> u32 {
    a & 0x7fff_ffff
}

/// The larger of two singles; where one is not a number, the other. Of two zeros it is the first.
pub open spec fn larger(a: u32, b: u32) -> u32 {
    if nan32(a) || less32(a, b) {
        b
    } else {
        a
    }
}

/// The smaller of two singles; where one is not a number, the other. Of two zeros it is the first.
pub open spec fn smaller(a: u32, b: u32) -> u32 {
    if nan32(a) || less32(b, a) {
        b
    } else {
        a
    }
}

/// The larger of two singles.
pub fn max32(a: u32, b: u32) -> (r: u32)
    ensures
        r == larger(a, b),
{
    if is_nan32(a) || lt32(a, b) {
        b
    } else {
        a
    }
}

/// The smaller of two singles.
pub fn min32(a: u32, b: u32) -> (r: u32)
    ensures
        r == smaller(a, b),
{
    if is_nan32(a) || lt32(b, a) {
        b
    } else {
        a
    }
}

/// The largest magnitude among the elements from `start` to before `end`.
pub open spec fn max_magnitude(v: Seq<u32>, start: int, end: int) -> u32
    decreases end - start,
{
    if end <= start {
        0
    } else {
        larger(max_magnitude(v, start, end - 1), magnitude(v[end - 1]))
    }
}

/// The largest magnitude among some elements.
pub fn largest_magnitude(v: &[u32], start: usize, end: usize) -> (r: u32)
    requires
        start <= end <= v@.len(),
    ensures
        r == max_magnitude(v@, start as int, end as int),
{
    let mut r: u32 = 0;
    let mut i: usize = start;
    while i < end
        invariant
            start <= i <= end <= v@.len(),
            r == max_magnitude(v@, start as int, i as int),
        decreases end - i,
    {
        r = max32(r, v[i] & 0x7fff_ffff);
        i = i + 1;
    }
    r
}

/// The scale with which a range maps onto signed bytes: its largest magnitude over 127.
pub open spec fn range_scale(min: u32, max: u32) -> u32 {
    quotient32(larger(magnitude(min), magnitude(max)), LARGEST)
}

/// The scale of each of `n` channels of `per` elements.
pub open spec fn channel_scales(w: Seq<u32>, n: nat, per: nat) -> Seq<u32> {
    Seq::new(n, |c: int| quotient32(max_magnitude(w, c * per, c * per + per), LARGEST))
}

impl QuantScale {
    /// The symmetric scale of values between `min` and `max`.
    pub fn from_range(min: u32, max: u32) -> (r: QuantScale)
        ensures
            r@ == range_scale(min, max),
    {
        QuantScale::symmetric(div32(max32(min & 0x7fff_ffff, max & 0x7fff_ffff), LARGEST))
    }
}

impl PerChannelScale {
    /// The symmetric scale of each channel of a weight.
    pub fn from_weights(weights: &[u32], channels: usize) -> (r: PerChannelScale)
        requires
            channels > 0,
        ensures
            r@ == channel_scales(weights@, channels as nat, weights@.len() / channels as nat),
    {
        let per: usize = weights.len() / channels;
        let ghost all = channel_scales(weights@, channels as nat, per as nat);
        let mut scales: Vec<u32> = Vec::new();
        let mut c: usize = 0;
        proof {
            assert(channels * per <= weights@.len()) by (nonlinear_arith)
                requires
                    channels > 0,
                    per == weights@.len() / channels as nat,
            ;
        }
        while c < channels
            invariant
                c <= channels,
                channels * per <= weights@.len(),
                all == channel_scales(weights@, channels as nat, per as nat),
                scales@ == all.take(c as int),
            decreases channels - c,
        {
            proof {
                assert((c + 1) * per <= channels * per) by (nonlinear_arith)
                    requires
                        c + 1 <= channels,
                ;
                assert((c + 1) * per == c * per + per) by (nonlinear_arith);
                assert(0 <= c * per) by (nonlinear_arith);
            }
            assert(weights@.len() == weights.len());
            let start: usize = c * per;
            scales.push(div32(largest_magnitude(weights, start, start + per), LARGEST));
            c = c + 1;
            assert(scales@ =~= all.take(c as int));
        }
        assert(all.take(c as int) =~= all);
        PerChannelScale::new(scales)
    }
}

/// Quantization parameters of a model: a scale for each activation and perhaps
/// for the input, and scales per channel for each weight.
#[derive(Debug)]
pub struct QuantizationParams {
    activations: NameMap<QuantScale>,
    weights: NameMap<PerChannelScale>,
    input: Option<QuantScale>,
}

/// The contents of [`QuantizationParams`].
pub struct ParamsTable {
    pub activations: Map<Seq<char>, u32>,
    pub weights: Map<Seq<char>, Seq<u32>>,
    pub input: Option<u32>,
}

impl View for QuantizationParams {
    type V = ParamsTable;

    closed spec fn view(&self) -> ParamsTable {
        ParamsTable {
            activations: self.activations@,
            weights: self.weights@,
            input: match self.input {
                Some(s) => Some(s@),
                None => None,
            },
        }
    }
}

impl QuantizationParams {
    /// No parameters.
    pub fn new() -> (r: QuantizationParams)
        ensures
            r@.activations == Map::<Seq<char>, u32>::empty(),
            r@.weights == Map::<Seq<char>, Seq<u32>>::empty(),
            r@.input is None,
    {
        QuantizationParams { activations: NameMap::new(), weights: NameMap::new(), input: None }
    }

    /// Record the scale of an activation.
    pub fn add_activation_scale(&mut self, name: String, scale: QuantScale)
        ensures
            final(self)@ == (ParamsTable {
                activations: old(self)@.activations.insert(name@, scale@),
                ..old(self)@
            }),
    {
        self.activations.insert(name, scale);
    }

    /// Record the scales of a weight.
    pub fn add_weight_scales(&mut self, name: String, scales: PerChannelScale)
        ensures
            final(self)@ == (ParamsTable {
                weights: old(self)@.weights.insert(name@, scales@),
                ..old(self)@
            }),
    {
        self.weights.insert(name, scales);
    }

    /// Set the scale of the model's input.
    pub fn set_input_scale(&mut self, scale: QuantScale)
        ensures
            final(self)@ == (ParamsTable { input: Some(scale@), ..old(self)@ }),
    {
        self.input = Some(scale);
    }

    /// The scale of the model's input.
    pub fn get_input_scale(&self) -> (r: Option<QuantScale>)
        ensures
            match r {
                Some(s) => self@.input == Some(s@),
                None => self@.input is None,
            },
    {
        self.input
    }

    /// The scale of an activation.
    pub fn get_activation_scale(&self, name: &str) -> (r: Option<&QuantScale>)
        ensures
            match r {
                Some(s) => self@.activations.dom().contains(name@) && s@
                    == self@.activations[name@],
                None => !self@.activations.dom().contains(name@),
            },
    {
        self.activations.get(name)
    }

    /// The scales of a weight.
    pub fn get_weight_scales(&self, name: &str) -> (r: Option<&PerChannelScale>)
        ensures
            match r {
                Some(s) => self@.weights.dom().contains(name@) && s@ == self@.weights[name@],
                None => !self@.weights.dom().contains(name@),
            },
    {
        self.weights.get(name)
    }
}

} // verus!
