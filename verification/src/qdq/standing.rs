//! What a folded convolution stands for.

use vstd::prelude::*;
use vstd::string::*;
use vstd::arithmetic::power2::pow2;
use crate::builder::{OpView, ParamsView};
use crate::fusion::lemma_producer_bound;
use crate::graph::GraphView;
use crate::ieee::accuracy::distance;
use crate::ieee::product32;
use crate::precision::steps::law_quantized_is_the_nearest_step;
use crate::precision::{is_finite, value_of};
use crate::proto::words32;
use crate::quantize::standing::{is_step, lemma_product_over, signed};
use crate::scales::mean_of;
use crate::tensor::Dtype;
use super::{fold_at, lemma_fold_parts, quantized, quantized_weight, quantizer_of};

verus! {

/// The scale of a weight's wrapper: its own, or the mean of those per channel.
pub open spec fn is_weight_scale(p: ParamsView, s: u32) -> bool {
    match p {
        ParamsView::Dequantize { scale } => s == scale,
        ParamsView::DequantizePerChannel { scales, .. } => scales.len() > 0 && s == mean_of(scales),
        _ => false,
    }
}

/// A folded convolution reads what the wrappers of its activation and of its
/// weight read, with its own parameters. It writes what the wrapper of its
/// result wrote, by way of a requantization: what that multiplies by, times the
/// scale of the result, is the scale of the activation times that of the weight,
/// but for two roundings.
pub proof fn law_folded_convolution_stands_for_it(g: GraphView, i: int)
    requires
        0 <= i < g.ops.len(),
        fold_at(g, i) is Some,
    ensures
        ({
            let f = fold_at(g, i)->0;
            let conv = g.ops[i];
            let (x, w, y) = (g.ops[f.inputs.0], g.ops[f.inputs.1], g.ops[f.output]);
            &&& x.op_type == "DequantizeLinear"@ && x.outputs.contains(conv.inputs[0])
            &&& w.op_type == "DequantizeLinear"@ && w.outputs.contains(conv.inputs[1])
            &&& y.op_type == "QuantizeLinear"@ && y.inputs[0] == conv.outputs[0]
            &&& f.conv.op_type == "Conv"@ && f.conv.params == conv.params
            &&& f.conv.inputs.len() == conv.inputs.len()
            &&& f.conv.inputs[0] == x.inputs[0] && f.conv.inputs[1] == w.inputs[0]
            &&& f.requant.op_type == "Requantize"@
            &&& f.requant.outputs == seq![y.outputs[0]]
            &&& f.requant.params matches ParamsView::Requantize { scale }
            &&& exists|a: u32, b: u32, c: u32|
                #![trigger is_scale(x.params, a), is_weight_scale(w.params, b), is_scale(y.params, c)]
                is_scale(x.params, a) && is_weight_scale(w.params, b) && is_scale(y.params, c)
                    && is_product_over(scale, a, b, c)
        }),
{
    let f = fold_at(g, i)->0;
    let conv = g.ops[i];
    lemma_fold_parts(g, i);
    let (x, w, y) = (g.ops[f.inputs.0], g.ops[f.inputs.1], g.ops[f.output]);
    lemma_producer_bound(g.ops, conv.inputs[0], g.ops.len());
    lemma_producer_bound(g.ops, conv.inputs[1], g.ops.len());
    lemma_quantizer(g.ops, conv.outputs[0], 0);
    let a = super::scalar_scale(x.params)->0;
    let b = super::weight_scale(w.params)->0;
    let c = super::scalar_scale(y.params)->0;
    assert(is_scale(x.params, a) && is_weight_scale(w.params, b) && is_scale(y.params, c));
    let scale = f.requant.params->Requantize_scale;
    if is_positive(a) && is_positive(b) && is_positive(c) && is_finite(product32(a, b)) && is_finite(
        scale,
    ) {
        lemma_product_over(a, b, c);
    }
}

proof fn lemma_quantizer(ops: Seq<OpView>, name: Seq<char>, i: int)
    requires
        quantizer_of(ops, name, i) is Some,
        0 <= i,
    ensures
        ({
            let q = quantizer_of(ops, name, i)->0;
            &&& 0 <= q < ops.len()
            &&& ops[q].op_type == "QuantizeLinear"@
            &&& ops[q].inputs.len() > 0
            &&& ops[q].inputs[0] == name
        }),
    decreases ops.len() - i,
{
    if i < ops.len() && !(ops[i].op_type == "QuantizeLinear"@ && ops[i].inputs.len() > 0
        && ops[i].inputs[0] == name) {
        lemma_quantizer(ops, name, i + 1);
    }
}

/// The scale of a wrapper.
pub open spec fn is_scale(p: ParamsView, s: u32) -> bool {
    p == (ParamsView::Quantize { scale: s }) || p == (ParamsView::Dequantize { scale: s })
}

/// Whether a single is a positive number.
pub open spec fn is_positive(x: u32) -> bool {
    is_finite(x) && value_of(x) > 0
}

/// Whether `r` is `a * b / c`, but for two roundings and unless something is out of range.
pub open spec fn is_product_over(r: u32, a: u32, b: u32, c: u32) -> bool {
    is_positive(a) && is_positive(b) && is_positive(c) && is_finite(product32(a, b)) && is_finite(r)
        ==> distance(value_of(r) * value_of(c), value_of(a) * value_of(b)) * 0x100_0000 <= 3 * (
    value_of(a) * value_of(b)) + 0x80_0001 * pow2(149) + 0x80_0000 * value_of(c)
}

/// A weight of floats is quantized to the nearest steps of its wrapper's scale,
/// or of that of its channel, and its shape says so.
pub proof fn law_quantized_weight_stands_for_it(
    bytes: Seq<u8>,
    shape: crate::tensor::ShapeView,
    p: ParamsView,
    k: int,
)
    requires
        quantized_weight(bytes, shape, p) is Ok,
        0 <= k < words32(bytes).len(),
        is_finite(words32(bytes)[k]),
    ensures
        ({
            let w = words32(bytes);
            let (data, s) = quantized_weight(bytes, shape, p)->Ok_0;
            &&& s.dtype == Dtype::I8
            &&& s.dims == shape.dims
            &&& p matches ParamsView::Dequantize { scale } ==> s.scale == Some(scale) && (is_step(
                w[k],
                scale,
            ) ==> distance(signed(data[k]) * value_of(scale), value_of(w[k])) * 0x200_0000
                <= 0x100_0400 * value_of(scale))
            &&& p matches ParamsView::DequantizePerChannel { scales, .. } ==> {
                let per = w.len() as int / scales.len() as int;
                &&& s.per_channel_scales == Some(scales)
                &&& scales.len() > 0 && k < per * scales.len() && is_step(w[k], scales[k / per])
                    ==> distance(
                    signed(data[k]) * value_of(scales[k / per]),
                    value_of(w[k]),
                ) * 0x200_0000 <= 0x100_0400 * value_of(scales[k / per])
            }
        }),
{
    let w = words32(bytes);
    let (data, s) = quantized_weight(bytes, shape, p)->Ok_0;
    match p {
        ParamsView::Dequantize { scale } => {
            lemma_signed(quantized(w[k], scale));
            if is_step(w[k], scale) {
                law_quantized_is_the_nearest_step(w[k], scale);
            }
        },
        ParamsView::DequantizePerChannel { scales, axis } => {
            if scales.len() > 0 {
                let per = w.len() as int / scales.len() as int;
                assert(per * scales.len() == scales.len() * per) by (nonlinear_arith);
                if k < per * scales.len() {
                    crate::kernels::lemma_row(k, scales.len() as int, per);
                    lemma_signed(quantized(w[k], scales[k / per]));
                    if is_step(w[k], scales[k / per]) {
                        law_quantized_is_the_nearest_step(w[k], scales[k / per]);
                    }
                }
            }
        },
        _ => {},
    }
}

proof fn lemma_signed(byte: i8)
    ensures
        signed(byte as u8) == byte,
{
    assert(byte >= 0 ==> (byte as u8) < 128 && byte as u8 == byte) by (bit_vector);
    assert(byte < 0 ==> (byte as u8) >= 128 && (byte as u8) as i16 == 256 + byte as i16)
        by (bit_vector);
}

} // verus!
