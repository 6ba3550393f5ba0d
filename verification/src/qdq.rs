//! QDQ (Quantize-Dequantize) fold pass.
//!
//! Quantized models wrap each op in `QuantizeLinear` and `DequantizeLinear`
//! nodes that carry the scales:
//!
//! ```text
//!   x_i8 - DequantizeLinear(s_x) - x -+
//!                                     Conv - y - QuantizeLinear(s_y) - y_i8
//!   w_i8 - DequantizeLinear(s_w) - w -+
//! ```
//!
//! The pass turns this into a convolution of the INT8 tensors and a
//! requantization by `(s_x * s_w) / s_y`, both of which write `y_i8`:
//!
//! ```text
//!   Conv(x_i8, w_i8) - Requantize - y_i8
//! ```
//!
//! Only tensors that nothing else reads are folded. A weight of floats is
//! quantized with the scale of its wrapper. A convolution with a bias stays as
//! it is: its bias is of floats.

use vstd::prelude::*;
use vstd::string::*;
use crate::builder::{CompiledOp, OpParams, OpView, ParamsView};
use crate::error::{Error, ErrorView};
use crate::fusion::{count_up_to_two, find_producer, occurrences, producer, reads};
use crate::graph::{contains_name, Graph, GraphView};
use crate::ieee::{byte_of, div32, mul32, product32, quotient32, to_byte};
use crate::model::{copy_names, copy_vec, lemma_views_push, views};
use crate::name_map::{stands_at, NameMap};
use crate::ieee::ONE;
use crate::proto::{to_words32, words32};
use crate::scales::{mean, mean_of};
use crate::tensor::{
    checked_numel, numel, products_fit, Dtype, PerChannelScale, QuantScale, ShapeView, TensorShape,
};
use crate::text::{concat2, concat3, concat4, dec, dec_usize, str_eq};

pub mod standing;

verus! {

/// Statistics returned by [`fold_qdq_patterns`].
#[derive(Debug, Clone, Copy, PartialEq, Eq, Structural)]
pub struct QdqFoldStats {
    /// Number of convolutions rewritten to INT8 conv + requant.
    pub conv_folded: usize,
    /// Number of `DequantizeLinear` nodes removed from the graph.
    pub dequantize_removed: usize,
    /// Number of `QuantizeLinear` nodes removed from the graph.
    pub quantize_removed: usize,
    /// Number of F32 weight initializers quantized on the fly.
    pub weights_quantized: usize,
    /// Number of QDQ ops left in place (could not be folded).
    pub qdq_unfolded: usize,
}

impl QdqFoldStats {
    /// Total number of QDQ nodes removed.
    pub fn nodes_removed(&self) -> (r: usize)
        requires
            self.dequantize_removed + self.quantize_removed <= usize::MAX,
        ensures
            r == self.dequantize_removed + self.quantize_removed,
    {
        self.dequantize_removed + self.quantize_removed
    }
}

/// Whether an op is a QDQ wrapper.
pub open spec fn is_qdq(op: OpView) -> bool {
    op.op_type == "QuantizeLinear"@ || op.op_type == "DequantizeLinear"@
}

fn is_wrapper(op: &CompiledOp) -> (r: bool)
    ensures
        r == is_qdq(op@),
{
    str_eq(op.op_type.as_str(), "QuantizeLinear") || str_eq(
        op.op_type.as_str(),
        "DequantizeLinear",
    )
}

/// Detect whether the graph contains any QDQ wrappers.
pub fn graph_has_qdq(graph: &Graph) -> (r: bool)
    ensures
        r == exists|i: int| 0 <= i < graph@.ops.len() && is_qdq(#[trigger] graph@.ops[i]),
{
    let mut i: usize = 0;
    while i < graph.ops.len()
        invariant
            i <= graph.ops@.len(),
            forall|k: int| 0 <= k < i ==> !is_qdq(#[trigger] graph@.ops[k]),
        decreases graph.ops@.len() - i,
    {
        assert(graph@.ops[i as int] == graph.ops@[i as int]@);
        if is_wrapper(&graph.ops[i]) {
            assert(is_qdq(graph@.ops[i as int]));
            return true;
        }
        i = i + 1;
    }
    false
}

// ---------------------------------------------------------------------------
// Scales
// ---------------------------------------------------------------------------

/// The scale of a wrapper that has one for the whole tensor.
pub open spec fn scalar_scale(p: ParamsView) -> Option<u32> {
    match p {
        ParamsView::Quantize { scale } => Some(scale),
        ParamsView::Dequantize { scale } => Some(scale),
        _ => None,
    }
}

fn qdq_scalar_scale(p: &OpParams) -> (r: Option<u32>)
    ensures
        r == scalar_scale(p@),
{
    match p {
        OpParams::Quantize { scale } => Some(*scale),
        OpParams::Dequantize { scale } => Some(*scale),
        _ => None,
    }
}

/// The scale of a weight's wrapper; scales per channel are averaged.
pub open spec fn weight_scale(p: ParamsView) -> Option<u32> {
    match p {
        ParamsView::Dequantize { scale } => Some(scale),
        ParamsView::DequantizePerChannel { scales, .. } => if scales.len() == 0 {
            None
        } else {
            Some(mean_of(scales))
        },
        _ => None,
    }
}

fn qdq_weight_scale(p: &OpParams) -> (r: Option<u32>)
    ensures
        r == weight_scale(p@),
{
    match p {
        OpParams::Dequantize { scale } => Some(*scale),
        OpParams::DequantizePerChannel { scales, .. } => if scales.len() == 0 {
            None
        } else {
            Some(mean(scales))
        },
        _ => None,
    }
}

/// Whether an op is a wrapper that no scale can be had from.
pub open spec fn is_scaleless(op: OpView) -> bool {
    is_qdq(op) && scalar_scale(op.params) is None && weight_scale(op.params) is None
}

/// The answer for a wrapper that no scale can be had from.
pub open spec fn no_scale(op: OpView) -> ErrorView {
    ErrorView::Compile("QDQ-fold: scale of op `"@ + op.name + "` cannot be resolved"@)
}

/// The first wrapper among the first `n` ops that no scale can be had from.
pub open spec fn first_scaleless(ops: Seq<OpView>, n: nat) -> Option<int>
    decreases n,
{
    if n == 0 {
        None
    } else {
        match first_scaleless(ops, (n - 1) as nat) {
            Some(i) => Some(i),
            None => if is_scaleless(ops[n - 1]) {
                Some(n - 1)
            } else {
                None
            },
        }
    }
}

proof fn lemma_first_scaleless(ops: Seq<OpView>, n: nat, m: nat)
    requires
        n <= m,
    ensures
        first_scaleless(ops, n) is Some ==> first_scaleless(ops, m) == first_scaleless(ops, n),
    decreases m,
{
    if n < m {
        lemma_first_scaleless(ops, n, (m - 1) as nat);
    }
}

fn find_scaleless(ops: &Vec<CompiledOp>) -> (r: Option<Error>)
    ensures
        match first_scaleless(views(ops@), ops@.len()) {
            Some(i) => r matches Some(e) && e@ == no_scale(views(ops@)[i]),
            None => r is None,
        },
{
    let ghost all = views(ops@);
    let mut i: usize = 0;
    while i < ops.len()
        invariant
            i <= ops@.len(),
            all == views(ops@),
            first_scaleless(all, i as nat) is None,
        decreases ops@.len() - i,
    {
        let op: &CompiledOp = &ops[i];
        assert(all[i as int] == op@);
        if is_wrapper(op) && qdq_scalar_scale(&op.params).is_none() && qdq_weight_scale(
            &op.params,
        ).is_none() {
            proof {
                lemma_first_scaleless(all, (i + 1) as nat, all.len());
            }
            return Some(
                Error::Compile(
                    concat3("QDQ-fold: scale of op `", op.name.as_str(), "` cannot be resolved"),
                ),
            );
        }
        i = i + 1;
    }
    None
}

// ---------------------------------------------------------------------------
// Weights
// ---------------------------------------------------------------------------

/// A single divided by a scale (as a product with the scale's inverse), rounded
/// and kept within a signed byte.
pub open spec fn quantized(w: u32, scale: u32) -> i8 {
    byte_of(product32(w, quotient32(ONE, scale)))
}

/// Singles quantized with one scale, byte by byte.
pub open spec fn quantized_all(w: Seq<u32>, scale: u32) -> Seq<u8> {
    w.map_values(|x: u32| quantized(x, scale) as u8)
}

/// Singles quantized with one scale for each channel of `per` elements.
pub open spec fn quantized_channels(w: Seq<u32>, scales: Seq<u32>, per: nat) -> Seq<u8> {
    Seq::new(scales.len() * per, |k: int| quantized(w[k], scales[k / per as int]) as u8)
}

/// Elements per channel.
pub open spec fn per_channel(len: nat, channels: nat) -> nat {
    if channels == 0 {
        0
    } else {
        len / channels
    }
}

/// The first dimension, or 0.
pub open spec fn first_dim(dims: Seq<usize>) -> usize {
    if dims.len() == 0 {
        0
    } else {
        dims[0]
    }
}

/// A weight of floats as INT8, with the shape it then has.
pub open spec fn quantized_weight(bytes: Seq<u8>, shape: ShapeView, p: ParamsView) -> Result<
    (Seq<u8>, ShapeView),
    ErrorView,
> {
    if !products_fit(shape.dims) || numel(shape.dims) * 4 > usize::MAX {
        Err(ErrorView::Shape("size overflow"@))
    } else if bytes.len() != numel(shape.dims) * 4 {
        Err(
            ErrorView::Compile(
                "QDQ-fold: weight tensor byte length "@ + dec(bytes.len()) + " != numel * 4 ("@
                    + dec(numel(shape.dims) * 4) + ")"@,
            ),
        )
    } else {
        let w = words32(bytes);
        match p {
            ParamsView::Dequantize { scale } => Ok(
                (
                    quantized_all(w, scale),
                    ShapeView { dtype: Dtype::I8, scale: Some(scale), ..shape },
                ),
            ),
            ParamsView::DequantizePerChannel { scales, axis } => if axis != 0 {
                Err(
                    ErrorView::Compile(
                        "QDQ-fold: per-channel weight axis must be 0, got "@ + dec(axis as nat),
                    ),
                )
            } else if scales.len() != first_dim(shape.dims) {
                Err(
                    ErrorView::Compile(
                        "QDQ-fold: per-channel scale count "@ + dec(scales.len()) + " != channels "@
                            + dec(first_dim(shape.dims) as nat),
                    ),
                )
            } else {
                Ok(
                    (
                        quantized_channels(w, scales, per_channel(w.len(), scales.len())),
                        ShapeView {
                            dtype: Dtype::I8,
                            per_channel_scales: Some(scales),
                            ..shape
                        },
                    ),
                )
            },
            _ => Err(ErrorView::Compile("QDQ-fold: weight DQ has unexpected params"@)),
        }
    }
}

fn quantize_all(w: &Vec<u32>, scale: u32) -> (r: Vec<u8>)
    ensures
        r@ == quantized_all(w@, scale),
{
    let ghost all = quantized_all(w@, scale);
    let inverse: u32 = div32(ONE, scale);
    let mut r: Vec<u8> = Vec::new();
    let mut i: usize = 0;
    while i < w.len()
        invariant
            i <= w@.len(),
            inverse == quotient32(ONE, scale),
            all == quantized_all(w@, scale),
            r@ == all.take(i as int),
        decreases w@.len() - i,
    {
        r.push(to_byte(mul32(w[i], inverse)) as u8);
        i = i + 1;
        assert(r@ =~= all.take(i as int));
    }
    assert(all.take(i as int) =~= all);
    r
}

/// Quantize with one scale for each channel of `per` elements.
pub fn quantize_channels(w: &Vec<u32>, scales: &Vec<u32>, per: usize) -> (r: Vec<u8>)
    requires
        scales@.len() * per <= w@.len(),
    ensures
        r@ == quantized_channels(w@, scales@, per as nat),
{
    let ghost n = scales@.len();
    let ghost all = quantized_channels(w@, scales@, per as nat);
    let mut r: Vec<u8> = Vec::new();
    let mut c: usize = 0;
    assert(0 * per == 0) by (nonlinear_arith);
    assert(r@ =~= all.take(0));
    while c < scales.len()
        invariant
            c <= n == scales@.len(),
            n * per <= w@.len(),
            all == quantized_channels(w@, scales@, per as nat),
            r@ == all.take(c * per),
        decreases n - c,
    {
        let inverse: u32 = div32(ONE, scales[c]);
        let mut i: usize = 0;
        proof {
            assert((c + 1) * per <= n * per) by (nonlinear_arith)
                requires
                    c + 1 <= n,
            ;
            assert((c + 1) * per == c * per + per) by (nonlinear_arith);
            assert(0 <= c * per) by (nonlinear_arith);
            assert(r@ =~= all.take(c * per + 0));
        }
        assert(w@.len() == w.len());
        let start: usize = c * per;
        while i < per
            invariant
                i <= per,
                c < n == scales@.len(),
                start == c * per,
                start + per <= n * per <= w@.len(),
                inverse == quotient32(ONE, scales@[c as int]),
                all == quantized_channels(w@, scales@, per as nat),
                r@ == all.take(start + i),
            decreases per - i,
        {
            proof {
                vstd::arithmetic::div_mod::lemma_fundamental_div_mod_converse(
                    start + i,
                    per as int,
                    c as int,
                    i as int,
                );
            }
            assert(w@.len() == w.len());
            r.push(to_byte(mul32(w[start + i], inverse)) as u8);
            i = i + 1;
            assert(r@ =~= all.take(start + i));
        }
        c = c + 1;
    }
    assert(all.take(n * per) =~= all);
    r
}

/// Quantize an F32 weight initializer to INT8 using the scale advertised
/// by the weight's wrapper; scales per channel apply along the first axis.
fn quantize_weight_initializer(bytes: &[u8], shape: &TensorShape, dq_params: &OpParams) -> (r:
    Result<(Vec<u8>, TensorShape), Error>)
    ensures
        match r {
            Ok((d, s)) => quantized_weight(bytes@, shape@, dq_params@) == Ok::<
                (Seq<u8>, ShapeView),
                ErrorView,
            >((d@, s@)),
            Err(e) => quantized_weight(bytes@, shape@, dq_params@) == Err::<
                (Seq<u8>, ShapeView),
                ErrorView,
            >(e@),
        },
{
    let size: usize = match checked_numel(shape.dims.as_slice()) {
        Some(n) => match n.checked_mul(4) {
            Some(s) => s,
            None => {
                return Err(Error::Shape("size overflow".to_owned()));
            },
        },
        None => {
            return Err(Error::Shape("size overflow".to_owned()));
        },
    };
    if bytes.len() != size {
        let a: String = dec_usize(bytes.len());
        let b: String = dec_usize(size);
        let mut m: String = concat4(
            "QDQ-fold: weight tensor byte length ",
            a.as_str(),
            " != numel * 4 (",
            b.as_str(),
        );
        m.append(")");
        return Err(Error::Compile(m));
    }
    let w: Vec<u32> = to_words32(bytes);
    let mut s: TensorShape = shape.clone();
    s.dtype = Dtype::I8;
    match dq_params {
        OpParams::Dequantize { scale } => {
            s.scale = Some(QuantScale::symmetric(*scale));
            Ok((quantize_all(&w, *scale), s))
        },
        OpParams::DequantizePerChannel { scales, axis } => {
            if *axis != 0 {
                let a: String = dec_usize(*axis);
                return Err(
                    Error::Compile(
                        concat2("QDQ-fold: per-channel weight axis must be 0, got ", a.as_str()),
                    ),
                );
            }
            let channels: usize = if shape.dims.len() == 0 {
                0
            } else {
                shape.dims[0]
            };
            if scales.len() != channels {
                let a: String = dec_usize(scales.len());
                let b: String = dec_usize(channels);
                return Err(
                    Error::Compile(
                        concat4(
                            "QDQ-fold: per-channel scale count ",
                            a.as_str(),
                            " != channels ",
                            b.as_str(),
                        ),
                    ),
                );
            }
            let per: usize = if channels == 0 {
                0
            } else {
                w.len() / channels
            };
            proof {
                if channels > 0 {
                    assert(channels * per <= w@.len()) by (nonlinear_arith)
                        requires
                            channels > 0,
                            per == w@.len() / channels as nat,
                    ;
                } else {
                    assert(channels * per == 0) by (nonlinear_arith)
                        requires
                            channels == 0,
                    ;
                }
            }
            let data: Vec<u8> = quantize_channels(&w, scales, per);
            s.per_channel_scales = Some(PerChannelScale::new(copy_vec(scales)));
            Ok((data, s))
        },
        _ => Err(Error::Compile("QDQ-fold: weight DQ has unexpected params".to_owned())),
    }
}

// ---------------------------------------------------------------------------
// One convolution
// ---------------------------------------------------------------------------

/// Whether a tensor is read exactly once; being an output of the graph counts
/// as a read.
pub open spec fn used_once(g: GraphView, name: Seq<char>) -> bool {
    reads(g.ops, name, g.ops.len()) + occurrences(g.outputs, name, g.outputs.len()) == 1
}

fn is_used_once(graph: &Graph, name: &str) -> (r: bool)
    ensures
        r == used_once(graph@, name@),
{
    let ghost all = graph@.ops;
    let mut count: usize = 0;
    let mut i: usize = 0;
    while i < graph.ops.len()
        invariant
            i <= graph.ops@.len(),
            all == graph@.ops,
            count <= 2,
            count < 2 ==> count == reads(all, name@, i as nat),
            count == 2 ==> reads(all, name@, i as nat) >= 2,
        decreases graph.ops@.len() - i,
    {
        assert(all[i as int] == graph.ops@[i as int]@);
        let more: usize = count_up_to_two(&graph.ops[i].inputs, name);
        count = if count + more < 2 {
            count + more
        } else {
            2
        };
        i = i + 1;
    }
    count + count_up_to_two(&graph.outputs, name) == 1
}

/// The first op from `i` on that quantizes a tensor.
pub open spec fn quantizer_of(ops: Seq<OpView>, name: Seq<char>, i: int) -> Option<int>
    decreases ops.len() - i,
{
    if i < 0 || i >= ops.len() {
        None
    } else if ops[i].op_type == "QuantizeLinear"@ && ops[i].inputs.len() > 0 && ops[i].inputs[0]
        == name {
        Some(i)
    } else {
        quantizer_of(ops, name, i + 1)
    }
}

fn find_quantizer(ops: &Vec<CompiledOp>, name: &str) -> (r: Option<usize>)
    ensures
        quantizer_of(views(ops@), name@, 0) == match r {
            Some(i) => Some(i as int),
            None => None,
        },
        r matches Some(i) ==> i < ops@.len(),
{
    let mut i: usize = 0;
    while i < ops.len()
        invariant
            i <= ops@.len(),
            quantizer_of(views(ops@), name@, 0) == quantizer_of(views(ops@), name@, i as int),
        decreases ops@.len() - i,
    {
        assert(views(ops@)[i as int] == ops@[i as int]@);
        if str_eq(ops[i].op_type.as_str(), "QuantizeLinear") && ops[i].inputs.len() > 0 {
            assert(ops@[i as int]@.inputs[0] == ops@[i as int].inputs@[0]@);
            if str_eq(ops[i].inputs[0].as_str(), name) {
                return Some(i);
            }
        }
        i = i + 1;
    }
    None
}

/// The wrapper that alone feeds input `k` of an op.
pub open spec fn dequantizer_of(g: GraphView, op: OpView, k: int) -> Option<int> {
    if k >= op.inputs.len() {
        None
    } else {
        match producer(g.ops, op.inputs[k]) {
            None => None,
            Some(d) => if g.ops[d].op_type == "DequantizeLinear"@ && used_once(g, op.inputs[k])
                && g.ops[d].inputs.len() > 0 {
                Some(d)
            } else {
                None
            },
        }
    }
}

fn find_dequantizer(graph: &Graph, op: &CompiledOp, k: usize) -> (r: Option<usize>)
    ensures
        dequantizer_of(graph@, op@, k as int) == match r {
            Some(i) => Some(i as int),
            None => None,
        },
        r matches Some(i) ==> i < graph.ops@.len() && graph.ops@[i as int]@.inputs.len() > 0,
{
    if k >= op.inputs.len() {
        return None;
    }
    assert(op@.inputs[k as int] == op.inputs@[k as int]@);
    let name: &str = op.inputs[k].as_str();
    match find_producer(&graph.ops, name) {
        None => None,
        Some(d) => {
            assert(graph@.ops[d as int] == graph.ops@[d as int]@);
            if str_eq(graph.ops[d].op_type.as_str(), "DequantizeLinear") && is_used_once(
                graph,
                name,
            ) && graph.ops[d].inputs.len() > 0 {
                Some(d)
            } else {
                None
            }
        },
    }
}

/// Whether a single is zero.
pub open spec fn is_zero(a: u32) -> bool {
    a == 0 || a == 0x8000_0000
}

/// What folding a convolution gives.
pub struct ConvFoldView {
    /// The convolution of the INT8 tensors.
    pub conv: OpView,
    /// The requantization after it.
    pub requant: OpView,
    /// The wrappers of the activation and of the weight.
    pub inputs: (int, int),
    /// The wrapper of the result.
    pub output: int,
    /// The weight, if it was quantized.
    pub weight: Option<(Seq<char>, Seq<u8>, ShapeView)>,
    /// Shapes that change.
    pub shapes: Seq<(Seq<char>, ShapeView)>,
}

/// The weight of a folded convolution: its shape, and its data if it was quantized.
pub open spec fn folded_weight(g: GraphView, name: Seq<char>, p: ParamsView) -> Option<
    (ShapeView, Option<Seq<u8>>),
> {
    if !g.shapes.dom().contains(name) || !g.initializers.dom().contains(name) {
        None
    } else {
        let shape = g.shapes[name];
        match shape.dtype {
            Dtype::I8 => Some(
                (
                    match p {
                        ParamsView::DequantizePerChannel { scales, .. } => ShapeView {
                            per_channel_scales: Some(scales),
                            ..shape
                        },
                        ParamsView::Dequantize { scale } => ShapeView {
                            scale: Some(scale),
                            ..shape
                        },
                        _ => shape,
                    },
                    None,
                ),
            ),
            Dtype::I32 => None,
            _ => match quantized_weight(g.initializers[name], shape, p) {
                Ok((data, s)) => Some((s, Some(data))),
                Err(_) => None,
            },
        }
    }
}

/// A shape as INT8.
pub open spec fn as_i8(s: ShapeView) -> ShapeView {
    ShapeView { dtype: Dtype::I8, ..s }
}

/// Shapes that a fold changes besides the weight's: those of the result and of
/// the activation become INT8.
pub open spec fn i8_shapes(g: GraphView, result: Seq<char>, act: Seq<char>) -> Seq<
    (Seq<char>, ShapeView),
> {
    (if g.shapes.dom().contains(result) {
        seq![(result, as_i8(g.shapes[result]))]
    } else {
        Seq::empty()
    }) + (if g.shapes.dom().contains(act) && g.shapes[act].dtype != Dtype::I8 {
        seq![(act, as_i8(g.shapes[act]))]
    } else {
        Seq::empty()
    })
}

/// The ops that a convolution turns into.
pub open spec fn int8_conv(conv: OpView, act: Seq<char>, weight: Seq<char>, result: Seq<char>) -> OpView {
    OpView {
        name: conv.name,
        op_type: "Conv"@,
        inputs: seq![act, weight] + conv.inputs.skip(2),
        outputs: seq![result],
        params: conv.params,
    }
}

/// The requantization of a convolution's accumulator.
pub open spec fn requantizer(conv: OpView, result: Seq<char>, scale: u32) -> OpView {
    OpView {
        name: conv.name + "_requant"@,
        op_type: "Requantize"@,
        inputs: seq![result + "_i32"@],
        outputs: seq![result],
        params: ParamsView::Requantize { scale },
    }
}

/// Whether a convolution adds a bias.
pub open spec fn has_bias(conv: OpView) -> bool {
    conv.inputs.len() > 2 && conv.inputs[2].len() != 0
}

/// What folding op `i` gives, if it is a convolution without bias that is
/// wrapped on all sides.
pub open spec fn fold_at(g: GraphView, i: int) -> Option<ConvFoldView> {
    let conv = g.ops[i];
    if conv.op_type != "Conv"@ || has_bias(conv) || conv.outputs.len() == 0 || !used_once(
        g,
        conv.outputs[0],
    ) {
        None
    } else {
        match (
            dequantizer_of(g, conv, 0),
            dequantizer_of(g, conv, 1),
            quantizer_of(g.ops, conv.outputs[0], 0),
        ) {
            (Some(a), Some(w), Some(q)) => {
                let act = g.ops[a].inputs[0];
                let weight = g.ops[w].inputs[0];
                match (
                    scalar_scale(g.ops[a].params),
                    weight_scale(g.ops[w].params),
                    scalar_scale(g.ops[q].params),
                    folded_weight(g, weight, g.ops[w].params),
                ) {
                    (Some(s_a), Some(s_w), Some(s_q), Some((shape, data))) => if is_zero(s_q)
                        || g.ops[q].outputs.len() == 0 {
                        None
                    } else {
                        let result = g.ops[q].outputs[0];
                        Some(
                            ConvFoldView {
                                conv: int8_conv(conv, act, weight, result),
                                requant: requantizer(
                                    conv,
                                    result,
                                    quotient32(product32(s_a, s_w), s_q),
                                ),
                                inputs: (a, w),
                                output: q,
                                weight: match data {
                                    Some(d) => Some((weight, d, shape)),
                                    None => None,
                                },
                                shapes: seq![(weight, shape)] + i8_shapes(g, result, act),
                            },
                        )
                    },
                    _ => None,
                }
            },
            _ => None,
        }
    }
}

struct ConvFold {
    conv: CompiledOp,
    requant: CompiledOp,
    inputs: (usize, usize),
    output: usize,
    weight: Option<(String, Vec<u8>, TensorShape)>,
    shapes: Vec<(String, TensorShape)>,
}

spec fn shape_list(v: Seq<(String, TensorShape)>) -> Seq<(Seq<char>, ShapeView)> {
    v.map_values(|p: (String, TensorShape)| (p.0@, p.1@))
}

impl View for ConvFold {
    type V = ConvFoldView;

    closed spec fn view(&self) -> ConvFoldView {
        ConvFoldView {
            conv: self.conv@,
            requant: self.requant@,
            inputs: (self.inputs.0 as int, self.inputs.1 as int),
            output: self.output as int,
            weight: match self.weight {
                Some(w) => Some((w.0@, w.1@, w.2@)),
                None => None,
            },
            shapes: shape_list(self.shapes@),
        }
    }
}

spec fn optional(f: Option<ConvFold>) -> Option<ConvFoldView> {
    match f {
        Some(f) => Some(f@),
        None => None,
    }
}

spec fn optional_data(d: Option<Vec<u8>>) -> Option<Seq<u8>> {
    match d {
        Some(d) => Some(d@),
        None => None,
    }
}

fn fold_weight(graph: &Graph, name: &str, p: &OpParams) -> (r: Option<(TensorShape, Option<Vec<u8>>)>)
    ensures
        match r {
            Some((s, d)) => folded_weight(graph@, name@, p@) == Some((s@, optional_data(d))),
            None => folded_weight(graph@, name@, p@) is None,
        },
{
    let shape: &TensorShape = match graph.shapes.get(name) {
        Some(s) => s,
        None => {
            return None;
        },
    };
    let data: &Vec<u8> = match graph.initializers.get(name) {
        Some(d) => d,
        None => {
            return None;
        },
    };
    match shape.dtype {
        Dtype::I8 => {
            let mut s: TensorShape = shape.clone();
            match p {
                OpParams::DequantizePerChannel { scales, .. } => {
                    s.per_channel_scales = Some(PerChannelScale::new(copy_vec(scales)));
                },
                OpParams::Dequantize { scale } => {
                    s.scale = Some(QuantScale::symmetric(*scale));
                },
                _ => {},
            }
            Some((s, None))
        },
        Dtype::I32 => None,
        _ => match quantize_weight_initializer(data.as_slice(), shape, p) {
            Ok((d, s)) => Some((s, Some(d))),
            Err(_) => None,
        },
    }
}

fn push_shape(v: &mut Vec<(String, TensorShape)>, name: &str, shape: TensorShape)
    ensures
        shape_list(final(v)@) == shape_list(old(v)@).push((name@, shape@)),
{
    let ghost before = v@;
    v.push((name.to_owned(), shape));
    assert(shape_list(v@) =~= shape_list(before).push((name@, shape@)));
}

fn finalize_fold(
    graph: &Graph,
    conv: &CompiledOp,
    a: usize,
    w: usize,
    q: usize,
    scale: u32,
    shape: TensorShape,
    data: Option<Vec<u8>>,
) -> (r: ConvFold)
    requires
        a < graph.ops@.len(),
        w < graph.ops@.len(),
        q < graph.ops@.len(),
        graph.ops@[a as int]@.inputs.len() > 0,
        graph.ops@[w as int]@.inputs.len() > 0,
        graph.ops@[q as int]@.outputs.len() > 0,
        conv@.inputs.len() >= 2,
    ensures
        ({
            let act = graph@.ops[a as int].inputs[0];
            let weight = graph@.ops[w as int].inputs[0];
            let result = graph@.ops[q as int].outputs[0];
            r@ == ConvFoldView {
                conv: int8_conv(conv@, act, weight, result),
                requant: requantizer(conv@, result, scale),
                inputs: (a as int, w as int),
                output: q as int,
                weight: match optional_data(data) {
                    Some(d) => Some((weight, d, shape@)),
                    None => None,
                },
                shapes: seq![(weight, shape@)] + i8_shapes(graph@, result, act),
            }
        }),
{
    broadcast use lemma_views_push;

    assert(graph@.ops[a as int] == graph.ops@[a as int]@);
    assert(graph@.ops[w as int] == graph.ops@[w as int]@);
    assert(graph@.ops[q as int] == graph.ops@[q as int]@);
    let act: &String = &graph.ops[a].inputs[0];
    let weight: &String = &graph.ops[w].inputs[0];
    let result: &String = &graph.ops[q].outputs[0];
    assert(graph@.ops[a as int].inputs[0] == act@);
    assert(graph@.ops[w as int].inputs[0] == weight@);
    assert(graph@.ops[q as int].outputs[0] == result@);
    let mut inputs: Vec<String> = Vec::new();
    inputs.push(act.clone());
    inputs.push(weight.clone());
    let ghost want = seq![act@, weight@] + conv@.inputs.skip(2);
    assert(views(inputs@) =~= want.take(2));
    let mut k: usize = 2;
    while k < conv.inputs.len()
        invariant
            2 <= k <= conv.inputs@.len(),
            want == seq![act@, weight@] + conv@.inputs.skip(2),
            views(inputs@) == want.take(k as int),
        decreases conv.inputs@.len() - k,
    {
        broadcast use lemma_views_push;

        let ghost before = views(inputs@);
        inputs.push(conv.inputs[k].clone());
        k = k + 1;
        assert(before.push(conv.inputs@[k - 1]@) =~= want.take(k as int));
    }
    assert(want.take(k as int) =~= want);
    let mut outputs: Vec<String> = Vec::new();
    outputs.push(result.clone());
    assert(views(outputs@) =~= seq![result@]);
    let mut sums: Vec<String> = Vec::new();
    sums.push(concat2(result.as_str(), "_i32"));
    assert(views(sums@) =~= seq![result@ + "_i32"@]);
    let int8: CompiledOp = CompiledOp {
        name: conv.name.clone(),
        op_type: "Conv".to_owned(),
        inputs,
        outputs: copy_names(&outputs),
        params: conv.params.clone(),
    };
    let requant: CompiledOp = CompiledOp {
        name: concat2(conv.name.as_str(), "_requant"),
        op_type: "Requantize".to_owned(),
        inputs: sums,
        outputs,
        params: OpParams::Requantize { scale },
    };
    let mut shapes: Vec<(String, TensorShape)> = Vec::new();
    push_shape(&mut shapes, weight.as_str(), shape.clone());
    match graph.shapes.get(result.as_str()) {
        Some(s) => {
            let mut s: TensorShape = s.clone();
            s.dtype = Dtype::I8;
            push_shape(&mut shapes, result.as_str(), s);
        },
        None => {},
    }
    match graph.shapes.get(act.as_str()) {
        Some(s) => {
            if s.dtype != Dtype::I8 {
                let mut s: TensorShape = s.clone();
                s.dtype = Dtype::I8;
                push_shape(&mut shapes, act.as_str(), s);
            }
        },
        None => {},
    }
    assert(shape_list(shapes@) =~= seq![(weight@, shape@)] + i8_shapes(graph@, result@, act@));
    let quantized: Option<(String, Vec<u8>, TensorShape)> = match data {
        Some(d) => Some((weight.clone(), d, shape)),
        None => None,
    };
    ConvFold { conv: int8, requant, inputs: (a, w), output: q, weight: quantized, shapes }
}

fn is_biased(conv: &CompiledOp) -> (r: bool)
    ensures
        r == has_bias(conv@),
{
    if conv.inputs.len() > 2 {
        assert(conv@.inputs[2] == conv.inputs@[2]@);
        conv.inputs[2].as_str().unicode_len() != 0
    } else {
        false
    }
}

fn try_fold_conv(graph: &Graph, i: usize) -> (r: Option<ConvFold>)
    requires
        i < graph.ops@.len(),
    ensures
        optional(r) == fold_at(graph@, i as int),
{
    let conv: &CompiledOp = &graph.ops[i];
    assert(graph@.ops[i as int] == conv@);
    if !str_eq(conv.op_type.as_str(), "Conv") || is_biased(conv) || conv.outputs.len() == 0 {
        return None;
    }
    assert(conv@.outputs[0] == conv.outputs@[0]@);
    if !is_used_once(graph, conv.outputs[0].as_str()) {
        return None;
    }
    let a: usize = match find_dequantizer(graph, conv, 0) {
        Some(a) => a,
        None => {
            return None;
        },
    };
    let w: usize = match find_dequantizer(graph, conv, 1) {
        Some(w) => w,
        None => {
            return None;
        },
    };
    let q: usize = match find_quantizer(&graph.ops, conv.outputs[0].as_str()) {
        Some(q) => q,
        None => {
            return None;
        },
    };
    assert(graph@.ops[a as int] == graph.ops@[a as int]@);
    assert(graph@.ops[w as int] == graph.ops@[w as int]@);
    assert(graph@.ops[q as int] == graph.ops@[q as int]@);
    assert(graph@.ops[w as int].inputs[0] == graph.ops@[w as int].inputs@[0]@);
    let s_a: u32 = match qdq_scalar_scale(&graph.ops[a].params) {
        Some(s) => s,
        None => {
            return None;
        },
    };
    let s_w: u32 = match qdq_weight_scale(&graph.ops[w].params) {
        Some(s) => s,
        None => {
            return None;
        },
    };
    let s_q: u32 = match qdq_scalar_scale(&graph.ops[q].params) {
        Some(s) => s,
        None => {
            return None;
        },
    };
    let (shape, data): (TensorShape, Option<Vec<u8>>) = match fold_weight(
        graph,
        graph.ops[w].inputs[0].as_str(),
        &graph.ops[w].params,
    ) {
        Some(p) => p,
        None => {
            return None;
        },
    };
    if s_q == 0 || s_q == 0x8000_0000 || graph.ops[q].outputs.len() == 0 {
        return None;
    }
    let scale: u32 = div32(mul32(s_a, s_w), s_q);
    Some(finalize_fold(graph, conv, a, w, q, scale, shape, data))
}

// ---------------------------------------------------------------------------
// The whole graph
// ---------------------------------------------------------------------------

/// Whether a fold takes out op `i`.
pub open spec fn takes(f: ConvFoldView, i: int) -> bool {
    f.inputs.0 == i || f.inputs.1 == i || f.output == i
}

/// Whether folding op `j` takes out op `i`.
pub open spec fn taken_by(g: GraphView, j: int, i: int) -> bool {
    fold_at(g, j) matches Some(f) && takes(f, i)
}

/// Whether some fold takes out op `i`.
pub open spec fn is_taken(g: GraphView, i: int) -> bool {
    exists|j: int| 0 <= j < g.ops.len() && #[trigger] taken_by(g, j, i)
}

/// What the first `n` ops turn into: a folded convolution into two ops, a
/// wrapper that is taken out into none.
pub open spec fn folded_ops(g: GraphView, n: nat) -> Seq<OpView>
    decreases n,
{
    if n == 0 {
        Seq::empty()
    } else {
        let before = folded_ops(g, (n - 1) as nat);
        match fold_at(g, n - 1) {
            Some(f) => before.push(f.conv).push(f.requant),
            None => if is_taken(g, n - 1) {
                before
            } else {
                before.push(g.ops[n - 1])
            },
        }
    }
}

/// The initializers after the weights of the first `n` ops have been quantized.
pub open spec fn folded_data(g: GraphView, n: nat) -> Map<Seq<char>, Seq<u8>>
    decreases n,
{
    if n == 0 {
        g.initializers
    } else {
        let before = folded_data(g, (n - 1) as nat);
        match fold_at(g, n - 1) {
            Some(f) => match f.weight {
                Some((name, data, _)) => before.insert(name, data),
                None => before,
            },
            None => before,
        }
    }
}

/// Shapes after the weights of the first `n` ops have been quantized.
pub open spec fn weight_shapes(g: GraphView, n: nat) -> Map<Seq<char>, ShapeView>
    decreases n,
{
    if n == 0 {
        g.shapes
    } else {
        let before = weight_shapes(g, (n - 1) as nat);
        match fold_at(g, n - 1) {
            Some(f) => match f.weight {
                Some((name, _, shape)) => before.insert(name, shape),
                None => before,
            },
            None => before,
        }
    }
}

/// Shapes with the first `n` of a list of changes.
pub open spec fn with_shapes(
    shapes: Map<Seq<char>, ShapeView>,
    v: Seq<(Seq<char>, ShapeView)>,
    n: nat,
) -> Map<Seq<char>, ShapeView>
    decreases n,
{
    if n == 0 {
        shapes
    } else {
        with_shapes(shapes, v, (n - 1) as nat).insert(v[n - 1].0, v[n - 1].1)
    }
}

/// Shapes after the folds of the first `n` ops.
pub open spec fn folded_shapes(g: GraphView, n: nat) -> Map<Seq<char>, ShapeView>
    decreases n,
{
    if n == 0 {
        weight_shapes(g, g.ops.len())
    } else {
        let before = folded_shapes(g, (n - 1) as nat);
        match fold_at(g, n - 1) {
            Some(f) => with_shapes(before, f.shapes, f.shapes.len()),
            None => before,
        }
    }
}

/// Whether an op reads a tensor or the tensor is an output of the graph.
pub open spec fn is_referenced(ops: Seq<OpView>, outputs: Seq<Seq<char>>, name: Seq<char>) -> bool {
    outputs.contains(name) || exists|i: int|
        0 <= i < ops.len() && (#[trigger] ops[i]).inputs.contains(name)
}

/// The initializers that are referenced.
pub open spec fn referenced_data(
    data: Map<Seq<char>, Seq<u8>>,
    ops: Seq<OpView>,
    outputs: Seq<Seq<char>>,
) -> Map<Seq<char>, Seq<u8>> {
    Map::new(
        |k: Seq<char>| data.dom().contains(k) && is_referenced(ops, outputs, k),
        |k: Seq<char>| data[k],
    )
}

/// The graph after folding.
pub open spec fn qdq_folded(g: GraphView) -> GraphView {
    let n = g.ops.len();
    let ops = folded_ops(g, n);
    GraphView {
        ops,
        shapes: folded_shapes(g, n),
        initializers: referenced_data(folded_data(g, n), ops, g.outputs),
        ..g
    }
}

/// How many of the first `n` ops are folded.
pub open spec fn fold_count(g: GraphView, n: nat) -> nat
    decreases n,
{
    if n == 0 {
        0
    } else {
        fold_count(g, (n - 1) as nat) + if fold_at(g, n - 1) is Some {
            1nat
        } else {
            0
        }
    }
}

/// How many of the first `n` ops are folded with a weight that is quantized.
pub open spec fn weight_count(g: GraphView, n: nat) -> nat
    decreases n,
{
    if n == 0 {
        0
    } else {
        weight_count(g, (n - 1) as nat) + if fold_at(g, n - 1) matches Some(f) && f.weight is Some {
            1nat
        } else {
            0
        }
    }
}

/// How many of the first `n` ops are of a type and taken out.
pub open spec fn taken_count(g: GraphView, op_type: Seq<char>, n: nat) -> nat
    decreases n,
{
    if n == 0 {
        0
    } else {
        taken_count(g, op_type, (n - 1) as nat) + if is_taken(g, n - 1) && g.ops[n - 1].op_type
            == op_type {
            1nat
        } else {
            0
        }
    }
}

/// How many of the first `n` ops are wrappers.
pub open spec fn qdq_count(ops: Seq<OpView>, n: nat) -> nat
    decreases n,
{
    if n == 0 {
        0
    } else {
        qdq_count(ops, (n - 1) as nat) + if is_qdq(ops[n - 1]) {
            1nat
        } else {
            0
        }
    }
}

proof fn lemma_quantizer_bound(ops: Seq<OpView>, name: Seq<char>, i: int)
    requires
        0 <= i,
    ensures
        quantizer_of(ops, name, i) matches Some(q) ==> i <= q < ops.len() && ops[q].op_type
            == "QuantizeLinear"@,
    decreases ops.len() - i,
{
    if i < ops.len() {
        lemma_quantizer_bound(ops, name, i + 1);
    }
}

proof fn lemma_producer_in(ops: Seq<OpView>, name: Seq<char>, n: nat)
    requires
        n <= ops.len(),
    ensures
        crate::fusion::producer_among(ops, name, n) matches Some(c) ==> 0 <= c < n,
    decreases n,
{
    if n > 0 {
        lemma_producer_in(ops, name, (n - 1) as nat);
    }
}

/// What a fold takes out are wrappers of the graph.
proof fn lemma_fold_parts(g: GraphView, j: int)
    requires
        0 <= j < g.ops.len(),
        fold_at(g, j) is Some,
    ensures
        ({
            let f = fold_at(g, j)->0;
            &&& 0 <= f.inputs.0 < g.ops.len()
            &&& 0 <= f.inputs.1 < g.ops.len()
            &&& 0 <= f.output < g.ops.len()
            &&& g.ops[f.inputs.0].op_type == "DequantizeLinear"@
            &&& g.ops[f.inputs.1].op_type == "DequantizeLinear"@
            &&& g.ops[f.output].op_type == "QuantizeLinear"@
            &&& g.ops[j].op_type == "Conv"@
        }),
{
    let conv = g.ops[j];
    lemma_producer_in(g.ops, conv.inputs[0], g.ops.len());
    lemma_producer_in(g.ops, conv.inputs[1], g.ops.len());
    lemma_quantizer_bound(g.ops, conv.outputs[0], 0);
}

proof fn lemma_wrapper_types()
    ensures
        "DequantizeLinear"@ != "QuantizeLinear"@,
        "DequantizeLinear"@ != "Conv"@,
        "QuantizeLinear"@ != "Conv"@,
{
    reveal_strlit("DequantizeLinear");
    reveal_strlit("QuantizeLinear");
    reveal_strlit("Conv");
    assert("DequantizeLinear"@.len() == 16 && "QuantizeLinear"@.len() == 14 && "Conv"@.len() == 4);
}

/// Only wrappers are taken out.
proof fn lemma_taken_is_wrapper(g: GraphView, i: int)
    requires
        0 <= i < g.ops.len(),
        is_taken(g, i),
    ensures
        is_qdq(g.ops[i]),
        fold_at(g, i) is None,
{
    lemma_wrapper_types();
    let j = choose|j: int| 0 <= j < g.ops.len() && #[trigger] taken_by(g, j, i);
    lemma_fold_parts(g, j);
    if fold_at(g, i) is Some {
        lemma_fold_parts(g, i);
    }
}

fn find_folds(graph: &Graph) -> (r: Vec<Option<ConvFold>>)
    ensures
        r@.len() == graph@.ops.len(),
        forall|i: int| 0 <= i < r@.len() ==> optional(#[trigger] r@[i]) == fold_at(graph@, i),
{
    let mut r: Vec<Option<ConvFold>> = Vec::new();
    let mut i: usize = 0;
    while i < graph.ops.len()
        invariant
            i <= graph.ops@.len(),
            r@.len() == i,
            forall|k: int| 0 <= k < i ==> optional(#[trigger] r@[k]) == fold_at(graph@, k),
        decreases graph.ops@.len() - i,
    {
        r.push(try_fold_conv(graph, i));
        i = i + 1;
    }
    r
}

fn op_is_taken(folds: &Vec<Option<ConvFold>>, i: usize, Ghost(g): Ghost<GraphView>) -> (r: bool)
    requires
        folds@.len() == g.ops.len(),
        forall|k: int| 0 <= k < folds@.len() ==> optional(#[trigger] folds@[k]) == fold_at(g, k),
    ensures
        r == is_taken(g, i as int),
{
    let mut j: usize = 0;
    while j < folds.len()
        invariant
            j <= folds@.len() == g.ops.len(),
            forall|k: int|
                0 <= k < folds@.len() ==> optional(#[trigger] folds@[k]) == fold_at(g, k),
            forall|k: int| 0 <= k < j ==> !#[trigger] taken_by(g, k, i as int),
        decreases folds@.len() - j,
    {
        assert(optional(folds@[j as int]) == fold_at(g, j as int));
        match &folds[j] {
            Some(f) => {
                if f.inputs.0 == i || f.inputs.1 == i || f.output == i {
                    assert(taken_by(g, j as int, i as int));
                    return true;
                }
            },
            None => {},
        }
        j = j + 1;
    }
    false
}

fn name_is_referenced(ops: &Vec<CompiledOp>, outputs: &Vec<String>, name: &str) -> (r: bool)
    ensures
        r == is_referenced(views(ops@), views(outputs@), name@),
{
    if contains_name(outputs, name) {
        return true;
    }
    let mut i: usize = 0;
    while i < ops.len()
        invariant
            i <= ops@.len(),
            forall|k: int| 0 <= k < i ==> !(#[trigger] views(ops@)[k]).inputs.contains(name@),
        decreases ops@.len() - i,
    {
        assert(views(ops@)[i as int] == ops@[i as int]@);
        if contains_name(&ops[i].inputs, name) {
            assert(views(ops@)[i as int].inputs.contains(name@));
            return true;
        }
        i = i + 1;
    }
    false
}

/// Drop initializers that are no longer referenced by any op.
fn prune_unused_initializers(graph: &mut Graph)
    ensures
        final(graph)@ == (GraphView {
            initializers: referenced_data(
                old(graph)@.initializers,
                old(graph)@.ops,
                old(graph)@.outputs,
            ),
            ..old(graph)@
        }),
{
    let ghost data = graph.initializers@;
    let ghost pairs = graph.initializers.pairs();
    let ghost ops = graph@.ops;
    let ghost outputs = graph@.outputs;
    let n: usize = graph.initializers.len();
    let mut kept: NameMap<Vec<u8>> = NameMap::new();
    let mut i: usize = 0;
    while i < n
        invariant
            i <= n == pairs.len(),
            graph@ == old(graph)@,
            data == graph.initializers@,
            pairs == graph.initializers.pairs(),
            ops == graph@.ops,
            outputs == graph@.outputs,
            forall|k: Seq<char>|
                #![trigger kept@.dom().contains(k)]
                kept@.dom().contains(k) <==> is_referenced(ops, outputs, k) && exists|x: int|
                    0 <= x < i && (#[trigger] pairs[x]).0 == k,
            forall|k: Seq<char>| #[trigger] kept@.dom().contains(k) ==> kept@[k] == data[k],
        decreases n - i,
    {
        let name: &String = graph.initializers.key_at(i);
        let ghost before = kept@;
        if name_is_referenced(&graph.ops, &graph.outputs, name.as_str()) {
            kept.insert(name.clone(), copy_vec(graph.initializers.value_at(i)));
        }
        i = i + 1;
        proof {
            assert forall|k: Seq<char>|
                #![trigger kept@.dom().contains(k)]
                kept@.dom().contains(k) <==> is_referenced(ops, outputs, k) && exists|x: int|
                    0 <= x < i && (#[trigger] pairs[x]).0 == k by {
                if kept@.dom().contains(k) {
                    if k == name@ && is_referenced(ops, outputs, name@) {
                        assert(pairs[i - 1].0 == k);
                    } else {
                        assert(before.dom().contains(k));
                        let x = choose|x: int| 0 <= x < i - 1 && (#[trigger] pairs[x]).0 == k;
                        assert(pairs[x].0 == k);
                    }
                }
                if is_referenced(ops, outputs, k) && exists|x: int|
                    0 <= x < i && (#[trigger] pairs[x]).0 == k {
                    let x = choose|x: int| 0 <= x < i && (#[trigger] pairs[x]).0 == k;
                    if x < i - 1 {
                        assert(before.dom().contains(k));
                    }
                }
            }
            assert forall|k: Seq<char>| #[trigger] kept@.dom().contains(k) implies kept@[k]
                == data[k] by {
                if !(k == name@ && is_referenced(ops, outputs, name@)) {
                    assert(before.dom().contains(k));
                }
            }
        }
    }
    proof {
        let all = referenced_data(data, ops, outputs);
        assert forall|k: Seq<char>| kept@.dom().contains(k) == all.dom().contains(k) by {
            if data.dom().contains(k) {
                let x = choose|x: int| stands_at(pairs, k, x);
                assert(pairs[x].0 == k);
            }
            if kept@.dom().contains(k) {
                let x = choose|x: int| 0 <= x < n && (#[trigger] pairs[x]).0 == k;
                assert(stands_at(pairs, k, x));
            }
        }
        assert forall|k: Seq<char>| kept@.dom().contains(k) implies kept@[k] == all[k] by {
            assert(all.dom().contains(k));
        }
        assert(kept@.dom() =~= all.dom());
        assert(kept@ =~= all);
    }
    graph.initializers = kept;
}

fn count_wrappers(ops: &Vec<CompiledOp>) -> (r: usize)
    ensures
        r == qdq_count(views(ops@), ops@.len()),
        r <= ops@.len(),
{
    let mut r: usize = 0;
    let mut i: usize = 0;
    while i < ops.len()
        invariant
            i <= ops@.len(),
            r <= i,
            r == qdq_count(views(ops@), i as nat),
        decreases ops@.len() - i,
    {
        assert(views(ops@)[i as int] == ops@[i as int]@);
        if is_wrapper(&ops[i]) {
            r = r + 1;
        }
        i = i + 1;
    }
    r
}

fn apply_weights(graph: &mut Graph, folds: &Vec<Option<ConvFold>>)
    requires
        folds@.len() == old(graph)@.ops.len(),
        forall|k: int|
            0 <= k < folds@.len() ==> optional(#[trigger] folds@[k]) == fold_at(old(graph)@, k),
    ensures
        final(graph)@ == (GraphView {
            initializers: folded_data(old(graph)@, old(graph)@.ops.len()),
            shapes: weight_shapes(old(graph)@, old(graph)@.ops.len()),
            ..old(graph)@
        }),
{
    let ghost g = graph@;
    let mut i: usize = 0;
    while i < folds.len()
        invariant
            i <= folds@.len(),
            g == old(graph)@,
            forall|k: int|
                0 <= k < folds@.len() ==> optional(#[trigger] folds@[k]) == fold_at(g, k),
            graph@ == (GraphView {
                initializers: folded_data(g, i as nat),
                shapes: weight_shapes(g, i as nat),
                ..g
            }),
        decreases folds@.len() - i,
    {
        assert(optional(folds@[i as int]) == fold_at(g, i as int));
        match &folds[i] {
            Some(f) => match &f.weight {
                Some(w) => {
                    graph.initializers.insert(w.0.clone(), copy_vec(&w.1));
                    graph.shapes.insert(w.0.clone(), w.2.clone());
                },
                None => {},
            },
            None => {},
        }
        i = i + 1;
    }
}

fn apply_shapes(shapes: &mut NameMap<TensorShape>, v: &Vec<(String, TensorShape)>)
    ensures
        final(shapes)@ == with_shapes(old(shapes)@, shape_list(v@), v@.len()),
{
    let mut i: usize = 0;
    while i < v.len()
        invariant
            i <= v@.len(),
            shapes@ == with_shapes(old(shapes)@, shape_list(v@), i as nat),
        decreases v@.len() - i,
    {
        assert(shape_list(v@)[i as int] == (v@[i as int].0@, v@[i as int].1@));
        shapes.insert(v[i].0.clone(), v[i].1.clone());
        i = i + 1;
    }
}

/// Fold QDQ patterns into native INT8 ops.
///
/// Returns a summary of how many patterns matched and how many QDQ nodes
/// remain in the graph. Where the scale of a QDQ node cannot be resolved, the
/// graph is left as it is and the error names the first such node.
pub fn fold_qdq_patterns(graph: &mut Graph) -> (r: Result<QdqFoldStats, Error>)
    ensures
        match first_scaleless(old(graph)@.ops, old(graph)@.ops.len()) {
            Some(i) => final(graph)@ == old(graph)@ && (r matches Err(e) && e@ == no_scale(
                old(graph)@.ops[i],
            )),
            None => final(graph)@ == qdq_folded(old(graph)@) && (r matches Ok(s) && {
                let g = old(graph)@;
                let n = g.ops.len();
                &&& s.conv_folded == fold_count(g, n)
                &&& s.dequantize_removed == taken_count(g, "DequantizeLinear"@, n)
                &&& s.quantize_removed == taken_count(g, "QuantizeLinear"@, n)
                &&& s.weights_quantized == weight_count(g, n)
                &&& s.qdq_unfolded == qdq_count(final(graph)@.ops, final(graph)@.ops.len())
            }),
        },
{
    match find_scaleless(&graph.ops) {
        Some(e) => {
            return Err(e);
        },
        None => {},
    }
    let ghost g = graph@;
    let ghost n = g.ops.len();
    let folds: Vec<Option<ConvFold>> = find_folds(graph);
    let mut stats: QdqFoldStats = QdqFoldStats {
        conv_folded: 0,
        dequantize_removed: 0,
        quantize_removed: 0,
        weights_quantized: 0,
        qdq_unfolded: 0,
    };
    apply_weights(graph, &folds);
    let mut ops: Vec<CompiledOp> = Vec::new();
    let mut i: usize = 0;
    assert(views(ops@) =~= Seq::empty());
    proof {
        lemma_wrapper_types();
    }
    while i < folds.len()
        invariant
            i <= folds@.len() == n == g.ops.len(),
            forall|k: int|
                0 <= k < folds@.len() ==> optional(#[trigger] folds@[k]) == fold_at(g, k),
            "DequantizeLinear"@ != "QuantizeLinear"@,
            graph@ == (GraphView {
                initializers: folded_data(g, n),
                shapes: folded_shapes(g, i as nat),
                ..g
            }),
            views(ops@) == folded_ops(g, i as nat),
            stats.conv_folded == fold_count(g, i as nat),
            stats.dequantize_removed == taken_count(g, "DequantizeLinear"@, i as nat),
            stats.quantize_removed == taken_count(g, "QuantizeLinear"@, i as nat),
            stats.weights_quantized == weight_count(g, i as nat),
            stats.conv_folded <= i,
            stats.dequantize_removed <= i,
            stats.quantize_removed <= i,
            stats.weights_quantized <= i,
        decreases folds@.len() - i,
    {
        broadcast use lemma_views_push;

        assert(optional(folds@[i as int]) == fold_at(g, i as int));
        assert(g.ops[i as int] == graph.ops@[i as int]@) by {
            assert(graph@.ops[i as int] == graph.ops@[i as int]@);
        }
        let taken: bool = op_is_taken(&folds, i, Ghost(g));
        proof {
            if taken {
                lemma_taken_is_wrapper(g, i as int);
            }
        }
        if taken {
            if str_eq(graph.ops[i].op_type.as_str(), "DequantizeLinear") {
                stats.dequantize_removed = stats.dequantize_removed + 1;
            } else {
                stats.quantize_removed = stats.quantize_removed + 1;
            }
        }
        match &folds[i] {
            Some(f) => {
                stats.conv_folded = stats.conv_folded + 1;
                if f.weight.is_some() {
                    stats.weights_quantized = stats.weights_quantized + 1;
                }
                apply_shapes(&mut graph.shapes, &f.shapes);
                ops.push(f.conv.clone());
                ops.push(f.requant.clone());
            },
            None => {
                if !taken {
                    ops.push(graph.ops[i].clone());
                }
            },
        }
        i = i + 1;
    }
    graph.ops = ops;
    prune_unused_initializers(graph);
    stats.qdq_unfolded = count_wrappers(&graph.ops);
    Ok(stats)
}

// ---------------------------------------------------------------------------
// Laws
// ---------------------------------------------------------------------------

/// Without wrappers nothing is folded: ops and shapes stay as they are, and of
/// the initializers those that are referenced.
pub proof fn law_no_qdq_no_fold(g: GraphView)
    requires
        forall|i: int| 0 <= i < g.ops.len() ==> !is_qdq(#[trigger] g.ops[i]),
    ensures
        qdq_folded(g) == (GraphView {
            initializers: referenced_data(g.initializers, g.ops, g.outputs),
            ..g
        }),
        fold_count(g, g.ops.len()) == 0,
{
    let n = g.ops.len();
    assert forall|i: int| 0 <= i < n implies #[trigger] fold_at(g, i) is None by {
        if fold_at(g, i) is Some {
            lemma_fold_parts(g, i);
            assert(is_qdq(g.ops[fold_at(g, i)->0.output]));
        }
    }
    lemma_unfolded(g, n);
    assert(g.ops.take(n as int) =~= g.ops);
}

proof fn lemma_unfolded(g: GraphView, n: nat)
    requires
        n <= g.ops.len(),
        forall|i: int| 0 <= i < g.ops.len() ==> #[trigger] fold_at(g, i) is None,
    ensures
        folded_ops(g, n) == g.ops.take(n as int),
        folded_data(g, n) == g.initializers,
        weight_shapes(g, n) == g.shapes,
        n == g.ops.len() ==> folded_shapes(g, n) == g.shapes,
        fold_count(g, n) == 0,
    decreases n,
{
    if n > 0 {
        lemma_unfolded(g, (n - 1) as nat);
        assert(fold_at(g, n - 1) is None);
        assert(!is_taken(g, n - 1)) by {
            if is_taken(g, n - 1) {
                let j = choose|j: int| 0 <= j < g.ops.len() && #[trigger] taken_by(g, j, n - 1);
                assert(fold_at(g, j) is None);
            }
        }
        assert(g.ops.take(n - 1).push(g.ops[n - 1]) =~= g.ops.take(n as int));
    } else {
        assert(g.ops.take(0) =~= Seq::empty());
    }
    if n == g.ops.len() {
        lemma_shapes_unfolded(g, n);
    }
}

proof fn lemma_shapes_unfolded(g: GraphView, n: nat)
    requires
        n <= g.ops.len(),
        weight_shapes(g, g.ops.len()) == g.shapes,
        forall|i: int| 0 <= i < g.ops.len() ==> #[trigger] fold_at(g, i) is None,
    ensures
        folded_shapes(g, n) == g.shapes,
    decreases n,
{
    if n > 0 {
        lemma_shapes_unfolded(g, (n - 1) as nat);
        assert(fold_at(g, n - 1) is None);
    }
}

/// The books balance: every fold adds one op, and every wrapper that is counted
/// as removed is gone.
pub proof fn law_fold_accounts(g: GraphView)
    ensures
        folded_ops(g, g.ops.len()).len() + taken_count(g, "DequantizeLinear"@, g.ops.len())
            + taken_count(g, "QuantizeLinear"@, g.ops.len()) == g.ops.len() + fold_count(
            g,
            g.ops.len(),
        ),
{
    lemma_fold_accounts(g, g.ops.len());
}

proof fn lemma_fold_accounts(g: GraphView, n: nat)
    requires
        n <= g.ops.len(),
    ensures
        folded_ops(g, n).len() + taken_count(g, "DequantizeLinear"@, n) + taken_count(
            g,
            "QuantizeLinear"@,
            n,
        ) == n + fold_count(g, n),
    decreases n,
{
    if n > 0 {
        lemma_fold_accounts(g, (n - 1) as nat);
        lemma_wrapper_types();
        if is_taken(g, n - 1) {
            lemma_taken_is_wrapper(g, n - 1);
        }
    }
}

/// What the wrapper of a folded convolution wrote is written by the
/// requantization that takes its place.
pub proof fn law_fold_keeps_result(g: GraphView, i: int)
    requires
        0 <= i < g.ops.len(),
        fold_at(g, i) is Some,
    ensures
        ({
            let f = fold_at(g, i)->0;
            &&& f.requant.outputs == seq![g.ops[f.output].outputs[0]]
            &&& f.conv.outputs == f.requant.outputs
            &&& folded_ops(g, g.ops.len()).contains(f.conv)
            &&& folded_ops(g, g.ops.len()).contains(f.requant)
        }),
{
    lemma_fold_stays(g, i, g.ops.len());
}

proof fn lemma_fold_stays(g: GraphView, i: int, n: nat)
    requires
        0 <= i < n,
        fold_at(g, i) is Some,
    ensures
        folded_ops(g, n).contains(fold_at(g, i)->0.conv),
        folded_ops(g, n).contains(fold_at(g, i)->0.requant),
    decreases n,
{
    let f = fold_at(g, i)->0;
    let before = folded_ops(g, (n - 1) as nat);
    let all = folded_ops(g, n);
    if i < n - 1 {
        lemma_fold_stays(g, i, (n - 1) as nat);
        let x = choose|x: int| 0 <= x < before.len() && before[x] == f.conv;
        let y = choose|y: int| 0 <= y < before.len() && before[y] == f.requant;
        assert(all[x] == f.conv);
        assert(all[y] == f.requant);
    } else {
        assert(all[before.len() as int] == f.conv);
        assert(all[before.len() as int + 1] == f.requant);
    }
}

} // verus!
