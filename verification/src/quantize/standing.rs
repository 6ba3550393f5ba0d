//! What the bytes of a quantized graph stand for.
//!
//! A byte `q` of a tensor with scale `s` stands for `q * s`. The scales that an
//! INT8 op carries make its result stand for what the op means.

use vstd::prelude::*;
use vstd::arithmetic::div_mod::lemma_fundamental_div_mod_converse;
use vstd::arithmetic::power2::{lemma2_to64, lemma_pow2_adds, lemma_pow2_pos, pow2};
use crate::builder::{OpView, ParamsView};
use crate::graph::GraphView;
use crate::ieee::accuracy::{distance, law_product32_is_rounded, law_quotient32_is_rounded, size};
use crate::ieee::{product32, quotient32, single, units, Format, Parts, ONE};
use crate::precision::steps::law_quantized_is_the_nearest_step;
use crate::precision::{is_finite, value_of};
use crate::proto::words32;
use crate::scales::{mean_of, ParamsTable, DEFAULT_SCALE};
use crate::tensor::Dtype;
use super::{
    has_weight, int8_graph, int8_ops, int8_ops_of, lemma_weights_keep, product_count, scaled_shapes,
    weight_names, weights_quantized,
};

verus! {

/// Where an op stands in the INT8 graph: behind the requantizations of those before it.
pub open spec fn new_place(ops: Seq<OpView>, i: int) -> int {
    i + product_count(ops, i as nat)
}

/// Whether a tensor has a scale on record that is a positive number.
pub open spec fn is_scaled(p: ParamsTable, name: Seq<char>) -> bool {
    p.activations.dom().contains(name) && is_finite(p.activations[name]) && value_of(
        p.activations[name],
    ) > 0
}

/// What an op turned into stands at its place.
proof fn lemma_place(p: ParamsTable, g: GraphView, n: nat, i: int)
    requires
        0 <= i < n <= g.ops.len(),
        int8_ops(p, g, n) is Ok,
    ensures
        int8_ops_of(p, g, g.ops[i]) is Ok,
        ({
            let all = int8_ops(p, g, n)->Ok_0;
            let new = int8_ops_of(p, g, g.ops[i])->Ok_0;
            let at = new_place(g.ops, i);
            &&& int8_ops(p, g, i as nat) is Ok
            &&& int8_ops(p, g, i as nat)->Ok_0.len() == at
            &&& 0 <= at
            &&& at + new.len() <= all.len()
            &&& forall|k: int| 0 <= k < new.len() ==> #[trigger] all[at + k] == new[k]
        }),
    decreases n,
{
    super::lemma_int8_count(p, g, (n - 1) as nat);
    if i < n - 1 {
        lemma_place(p, g, (n - 1) as nat, i);
    }
}

/// The graph that the ops of the INT8 graph are made from.
spec fn scaled_graph(p: ParamsTable, g: GraphView) -> GraphView {
    let names = weight_names(g, g.ops.len());
    let w = weights_quantized(p, g, names, names.len())->Ok_0;
    GraphView { shapes: scaled_shapes(p, w.shapes), ..w }
}

/// A ratio of two scales, one of which is that of the result.
proof fn lemma_ratio(a: u32, y: u32)
    requires
        is_finite(a),
        value_of(a) > 0,
        is_finite(y),
        value_of(y) > 0,
        is_finite(quotient32(a, y)),
    ensures
        distance(value_of(quotient32(a, y)) * value_of(y), value_of(a) * pow2(149)) * 0x100_0000
            <= value_of(a) * pow2(149) + 0x80_0000 * value_of(y),
{
    law_quotient32_is_rounded(a, y);
    lemma2_to64();
    let e = distance(value_of(quotient32(a, y)) * value_of(y), value_of(a) * pow2(149));
    let x = value_of(a) * pow2(149);
    lemma_pow2_pos(149);
    assert(x > 0) by (nonlinear_arith)
        requires
            x == value_of(a) * pow2(149),
            value_of(a) > 0,
            pow2(149) > 0,
    ;
}

/// A byte times a number that is off by `e` is off by as many `e`.
proof fn lemma_times_byte(q: int, x: int, y: int, bound: int)
    requires
        distance(x, y) * 0x100_0000 <= bound,
    ensures
        distance(q * x, q * y) * 0x100_0000 <= size(q) * bound,
{
    let d = distance(x, y);
    assert(distance(q * x, q * y) == size(q) * d) by (nonlinear_arith)
        requires
            d == distance(x, y),
    ;
    assert(size(q) * d * 0x100_0000 <= size(q) * bound) by (nonlinear_arith)
        requires
            d * 0x100_0000 <= bound,
            size(q) >= 0,
    ;
}

/// The INT8 sum stands for the sum: bytes `qa` and `qb` times the ratios that
/// the op carries, times the scale of the result, are what the bytes stand for
/// together, but for the rounding of the two ratios.
pub proof fn law_int8_sum_stands_for_the_sum(
    p: ParamsTable,
    g: GraphView,
    i: int,
    qa: int,
    qb: int,
)
    requires
        int8_graph(p, g) is Ok,
        0 <= i < g.ops.len(),
        g.ops[i].op_type == "Add"@,
        is_scaled(p, g.ops[i].inputs[0]),
        is_scaled(p, g.ops[i].inputs[1]),
        is_scaled(p, g.ops[i].outputs[0]),
    ensures
        ({
            let op = g.ops[i];
            let new = int8_graph(p, g)->Ok_0.ops[new_place(g.ops, i)];
            let a = value_of(p.activations[op.inputs[0]]);
            let b = value_of(p.activations[op.inputs[1]]);
            let y = value_of(p.activations[op.outputs[0]]);
            let one = pow2(149) as int;
            &&& new.op_type == "AddQuantized"@
            &&& new.inputs == op.inputs
            &&& new.outputs == op.outputs
            &&& new.params matches ParamsView::AddQuantized { scale_a_over_out, scale_b_over_out }
            &&& is_finite(scale_a_over_out) && is_finite(scale_b_over_out) ==> distance(
                (qa * value_of(scale_a_over_out) + qb * value_of(scale_b_over_out)) * y,
                (qa * a + qb * b) * one,
            ) * 0x100_0000 <= (size(qa) * a + size(qb) * b) * one + 0x80_0000 * ((size(qa) + size(qb))
                * y)
        }),
{
    let op = g.ops[i];
    let names = weight_names(g, g.ops.len());
    lemma_weights_keep(p, g, names, names.len());
    let h = scaled_graph(p, g);
    lemma_place(p, h, h.ops.len(), i);
    lemma_kinds();
    let new = int8_ops_of(p, h, op)->Ok_0;
    assert(int8_graph(p, g)->Ok_0.ops[new_place(g.ops, i) + 0] == new[0]);
    let sa = p.activations[op.inputs[0]];
    let sb = p.activations[op.inputs[1]];
    let sy = p.activations[op.outputs[0]];
    let ra = quotient32(sa, sy);
    let rb = quotient32(sb, sy);
    if is_finite(ra) && is_finite(rb) {
        lemma_ratio(sa, sy);
        lemma_ratio(sb, sy);
        let one = pow2(149) as int;
        let (a, b, y) = (value_of(sa), value_of(sb), value_of(sy));
        let (va, vb) = (value_of(ra), value_of(rb));
        lemma_times_byte(qa, va * y, a * one, a * one + 0x80_0000 * y);
        lemma_times_byte(qb, vb * y, b * one, b * one + 0x80_0000 * y);
        let (na, nb) = (size(qa), size(qb));
        assert((qa * va + qb * vb) * y == qa * (va * y) + qb * (vb * y)) by (nonlinear_arith);
        assert((qa * a + qb * b) * one == qa * (a * one) + qb * (b * one)) by (nonlinear_arith);
        assert((na * a + nb * b) * one == na * (a * one) + nb * (b * one)) by (nonlinear_arith);
        let h = 0x80_0000 * y;
        assert(na * (a * one + h) == na * (a * one) + na * h) by (nonlinear_arith);
        assert(nb * (b * one + h) == nb * (b * one) + nb * h) by (nonlinear_arith);
        assert(na * h + nb * h == 0x80_0000 * ((na + nb) * y)) by (nonlinear_arith)
            requires
                h == 0x80_0000 * y,
        ;
    }
}

/// A product over a third number, with two roundings.
pub(crate) proof fn lemma_product_over(x: u32, w: u32, y: u32)
    requires
        is_finite(x),
        value_of(x) > 0,
        is_finite(w),
        value_of(w) > 0,
        is_finite(y),
        value_of(y) > 0,
        is_finite(product32(x, w)),
        is_finite(quotient32(product32(x, w), y)),
    ensures
        distance(
            value_of(quotient32(product32(x, w), y)) * value_of(y),
            value_of(x) * value_of(w),
        ) * 0x100_0000 <= 3 * (value_of(x) * value_of(w)) + 0x80_0001 * pow2(149) + 0x80_0000
            * value_of(y),
{
    let m = product32(x, w);
    law_product32_is_rounded(x, w);
    law_quotient32_is_rounded(m, y);
    lemma2_to64();
    lemma_pow2_pos(149);
    let one = pow2(149) as int;
    let xw = value_of(x) * value_of(w);
    assert(xw > 0) by (nonlinear_arith)
        requires
            xw == value_of(x) * value_of(w),
            value_of(x) > 0,
            value_of(w) > 0,
    ;
    let e = distance(value_of(m) * one, xw);
    assert(e * 0x100_0000 <= xw + 0x80_0000 * one);
    let d = distance(value_of(quotient32(m, y)) * value_of(y), value_of(m) * one);
    assert(d * 0x100_0000 <= size(value_of(m) * one) + 0x80_0000 * value_of(y));
    assert(size(value_of(m) * one) <= xw + e);
    assert(e <= xw + one);
}

/// The INT32 accumulator of a convolution or product counts steps of the input's
/// times the weight's scale. The requantization behind it turns it into steps of
/// the result's scale: what it multiplies by, times the scale of the result, is
/// the scale of the input times the mean scale of the weight, but for two
/// roundings.
pub proof fn law_requantization_stands_for_the_product(p: ParamsTable, g: GraphView, i: int)
    requires
        int8_graph(p, g) is Ok,
        0 <= i < g.ops.len(),
        has_weight(g.ops[i]),
        is_scaled(p, g.ops[i].inputs[0]),
        is_scaled(p, g.ops[i].outputs[0]),
        p.weights.dom().contains(g.ops[i].inputs[1]),
        p.weights[g.ops[i].inputs[1]].len() > 0,
    ensures
        ({
            let op = g.ops[i];
            let at = new_place(g.ops, i);
            let new = int8_graph(p, g)->Ok_0.ops;
            let x = p.activations[op.inputs[0]];
            let w = mean_of(p.weights[op.inputs[1]]);
            let y = p.activations[op.outputs[0]];
            &&& new[at] == op
            &&& new[at + 1].op_type == "Requantize"@
            &&& new[at + 1].outputs == seq![op.outputs[0]]
            &&& new[at + 1].params matches ParamsView::Requantize { scale }
            &&& is_finite(w) && value_of(w) > 0 && is_finite(product32(x, w)) && is_finite(scale)
                ==> distance(value_of(scale) * value_of(y), value_of(x) * value_of(w)) * 0x100_0000
                <= 3 * (value_of(x) * value_of(w)) + 0x80_0001 * pow2(149) + 0x80_0000 * value_of(y)
        }),
{
    let op = g.ops[i];
    let names = weight_names(g, g.ops.len());
    lemma_weights_keep(p, g, names, names.len());
    let h = scaled_graph(p, g);
    lemma_place(p, h, h.ops.len(), i);
    let new = int8_ops_of(p, h, op)->Ok_0;
    let at = new_place(g.ops, i);
    assert(int8_graph(p, g)->Ok_0.ops[at + 0] == new[0]);
    assert(int8_graph(p, g)->Ok_0.ops[at + 1] == new[1]);
    let x = p.activations[op.inputs[0]];
    let w = mean_of(p.weights[op.inputs[1]]);
    let y = p.activations[op.outputs[0]];
    if is_finite(w) && value_of(w) > 0 && is_finite(product32(x, w)) && is_finite(
        quotient32(product32(x, w), y),
    ) {
        lemma_product_over(x, w, y);
    }
}

/// The number that a byte of a signed tensor is.
pub open spec fn signed(b: u8) -> int {
    if b < 128 {
        b as int
    } else {
        b - 256
    }
}

/// Every weight is quantized to the nearest step of the scale of its output
/// channel, and the shape of the weight says with which scales: those on record,
/// or one for each channel that the first dimension counts.
pub proof fn law_int8_weights_stand_for_the_weights(
    p: ParamsTable,
    g: GraphView,
    i: int,
    c: int,
    k: int,
)
    requires
        int8_graph(p, g) is Ok,
        0 <= i < g.ops.len(),
        has_weight(g.ops[i]),
        g.ops[i].inputs.len() > 1,
        g.initializers.dom().contains(g.ops[i].inputs[1]),
        g.shapes.dom().contains(g.ops[i].inputs[1]),
        ({
            let name = g.ops[i].inputs[1];
            let w = words32(g.initializers[name]);
            let channels = g.shapes[name].dims[0] as int;
            let per = w.len() as int / channels;
            &&& 0 <= c < channels
            &&& c * per <= k < c * per + per
            &&& is_finite(w[k])
        }),
    ensures
        ({
            let name = g.ops[i].inputs[1];
            let w = words32(g.initializers[name]);
            let q = int8_graph(p, g)->Ok_0;
            &&& q.shapes[name].dtype == Dtype::I8
            &&& q.shapes[name].dims == g.shapes[name].dims
            &&& q.shapes[name].per_channel_scales matches Some(scales)
            &&& c < scales.len()
            &&& p.weights.dom().contains(name) ==> scales == p.weights[name]
            &&& k < q.initializers[name].len()
            &&& is_step(w[k], scales[c]) ==> distance(
                signed(q.initializers[name][k]) * value_of(scales[c]),
                value_of(w[k]),
            ) * 0x200_0000 <= 0x100_0400 * value_of(scales[c])
        }),
{
    let name = g.ops[i].inputs[1];
    let w = words32(g.initializers[name]);
    super::law_weights_quantized_once(p, g, i);
    lemma_quantized_channels(p, g, i);
    let channels = g.shapes[name].dims[0];
    let scales = super::scales_for(p, name, w, channels);
    let per = w.len() as int / channels as int;
    lemma_fundamental_div_mod_converse(k, per, c, k - c * per);
    assert(c * per + per <= channels * per) by (nonlinear_arith)
        requires
            0 <= c < channels,
            per >= 0,
    ;
    assert(0 <= c * per) by (nonlinear_arith)
        requires
            0 <= c,
            per >= 0,
    ;
    let used = scales.take(channels as int);
    assert(used[c] == scales[c]);
    let byte = crate::qdq::quantized(w[k], scales[c]);
    assert(int8_graph(p, g)->Ok_0.initializers[name][k] == byte as u8);
    assert(signed(byte as u8) == byte) by {
        assert(byte >= 0 ==> (byte as u8) < 128 && byte as u8 == byte) by (bit_vector);
        assert(byte < 0 ==> (byte as u8) >= 128 && (byte as u8) as i16 == 256 + byte as i16)
            by (bit_vector);
    }
    if is_step(w[k], scales[c]) {
        law_quantized_is_the_nearest_step(w[k], scales[c]);
    }
}

/// Whether bytes can count steps of a scale up to a number.
pub open spec fn is_step(w: u32, scale: u32) -> bool {
    &&& is_finite(scale)
    &&& 0 < value_of(scale) <= pow2(270)
    &&& is_finite(quotient32(ONE, scale))
    &&& -128 * value_of(scale) <= value_of(w) <= 127 * value_of(scale)
}

/// A weight that was quantized has channels, and scales for all of them.
proof fn lemma_quantized_channels(p: ParamsTable, g: GraphView, i: int)
    requires
        int8_graph(p, g) is Ok,
        0 <= i < g.ops.len(),
        has_weight(g.ops[i]),
        g.ops[i].inputs.len() > 1,
        g.initializers.dom().contains(g.ops[i].inputs[1]),
        g.shapes.dom().contains(g.ops[i].inputs[1]),
    ensures
        ({
            let name = g.ops[i].inputs[1];
            let w = words32(g.initializers[name]);
            let dims = g.shapes[name].dims;
            &&& dims.len() > 0
            &&& dims[0] > 0
            &&& super::scales_for(p, name, w, dims[0]).len() >= dims[0]
        }),
{
    let name = g.ops[i].inputs[1];
    let names = weight_names(g, g.ops.len());
    super::lemma_weight_names(g, g.ops.len());
    super::lemma_weights_once(p, g, names, names.len(), name);
    assert(names.take(names.len() as int) =~= names);
}

/// Ops that are neither sums nor products stay as they are, and scales on record
/// are those of the activations.
pub proof fn law_the_rest_stays(p: ParamsTable, g: GraphView, i: int, name: Seq<char>)
    requires
        int8_graph(p, g) is Ok,
    ensures
        0 <= i < g.ops.len() && !has_weight(g.ops[i]) && g.ops[i].op_type != "Add"@
            ==> int8_graph(p, g)->Ok_0.ops[new_place(g.ops, i)] == g.ops[i],
        ({
            let q = int8_graph(p, g)->Ok_0;
            p.activations.dom().contains(name) && q.shapes.dom().contains(name)
                && q.shapes[name].per_channel_scales is None && !(q.shapes[name].dtype is I32)
                ==> q.shapes[name].scale == Some(p.activations[name])
        }),
{
    let names = weight_names(g, g.ops.len());
    lemma_weights_keep(p, g, names, names.len());
    let h = scaled_graph(p, g);
    if 0 <= i < g.ops.len() && !has_weight(g.ops[i]) && g.ops[i].op_type != "Add"@ {
        lemma_place(p, h, h.ops.len(), i);
        let new = int8_ops_of(p, h, g.ops[i])->Ok_0;
        assert(int8_graph(p, g)->Ok_0.ops[new_place(g.ops, i) + 0] == new[0]);
    }
}

/// Add is not one of the ops that multiply by a weight.
proof fn lemma_kinds()
    ensures
        "Add"@ != "Conv"@,
        "Add"@ != "Gemm"@,
        "Add"@ != "MatMul"@,
{
    reveal_strlit("Add");
    reveal_strlit("Conv");
    reveal_strlit("Gemm");
    reveal_strlit("MatMul");
    assert("Add"@.len() == 3);
}

proof fn lemma_weights_leave(p: ParamsTable, g: GraphView, names: Seq<Seq<char>>, n: nat, name: Seq<char>)
    requires
        weights_quantized(p, g, names, n) is Ok,
        !g.initializers.dom().contains(name),
    ensures
        ({
            let h = weights_quantized(p, g, names, n)->Ok_0;
            &&& !h.initializers.dom().contains(name)
            &&& h.shapes.dom().contains(name) == g.shapes.dom().contains(name)
            &&& h.shapes[name] == g.shapes[name]
        }),
    decreases n,
{
    if n > 0 {
        lemma_weights_leave(p, g, names, (n - 1) as nat, name);
    }
}

/// An activation keeps its sizes and stands for its numbers with its own
/// calibrated scale; without one it gets a scale with 127 steps up to one.
pub proof fn law_activations_keep_their_scales(p: ParamsTable, g: GraphView, name: Seq<char>)
    requires
        int8_graph(p, g) is Ok,
        g.shapes.dom().contains(name),
        !g.initializers.dom().contains(name),
        g.shapes[name].per_channel_scales is None,
        !(g.shapes[name].dtype is I32),
    ensures
        ({
            let s = int8_graph(p, g)->Ok_0.shapes[name];
            &&& int8_graph(p, g)->Ok_0.shapes.dom().contains(name)
            &&& s.dims == g.shapes[name].dims
            &&& s.dtype == Dtype::I8
            &&& s.scale matches Some(scale)
            &&& p.activations.dom().contains(name) ==> scale == p.activations[name]
            &&& !p.activations.dom().contains(name) ==> is_finite(scale) && distance(
                127 * value_of(scale),
                pow2(149) as int,
            ) * 0x100_0000 <= pow2(149)
        }),
{
    let names = weight_names(g, g.ops.len());
    lemma_weights_leave(p, g, names, names.len(), name);
    lemma2_to64();
    lemma_pow2_pos(119);
    lemma_fundamental_div_mod_converse(0x3c01_0204, 0x80_0000, 120, 0x1_0204);
    assert(single(DEFAULT_SCALE) == (Parts { negative: false, magnitude: 0x3c01_0204 }));
    assert(units(Format::Single, 0x3c01_0204) == 0x81_0204 * pow2(119));
    lemma_pow2_adds(30, 119);
}

} // verus!
