//! Quantized graph compilation.
//!
//! A calibrated F32 graph becomes an INT8 graph: weights are quantized with one
//! scale per output channel, activations get one scale each, and every matrix
//! product or convolution is followed by a requantization of its INT32
//! accumulator.

use vstd::prelude::*;
use vstd::string::*;
use crate::builder::{CompiledOp, OpParams, OpView, ParamsView};
use crate::error::{outcome, Error, ErrorView};
use crate::graph::{contains_name, Graph, GraphView};
use crate::ieee::{div32, mul32, product32, quotient32};
use crate::model::{copy_names, lemma_views_push, views};
use crate::name_map::{distinct_names, lemma_pair_in_map, stands_at, NameMap};
use crate::ops::common::{err_too_few_inputs, no_output, too_few_inputs};
use crate::proto::{to_words32, words32};
use crate::qdq::{quantize_channels, quantized_channels};
use crate::scales::{
    channel_scales, mean, mean_of, ParamsTable, QuantizationParams, DEFAULT_SCALE,
};
use crate::tensor::{Dtype, PerChannelScale, QuantScale, ShapeView, TensorShape};
use crate::text::{concat2, str_eq};

pub mod standing;

verus! {

// ---------------------------------------------------------------------------
// Weights
// ---------------------------------------------------------------------------

/// The bits of the 32-bit floats in a byte string.
pub fn bytes_to_f32(data: &[u8]) -> (r: Vec<u32>)
    ensures
        r@ == words32(data@),
{
    to_words32(data)
}

/// Weights quantized with one scale for each of the channels that the first
/// dimension counts.
pub open spec fn quantized_rows(w: Seq<u32>, channels: usize, scales: Seq<u32>) -> Seq<u8> {
    quantized_channels(w, scales.take(channels as int), w.len() / channels as nat)
}

/// Quantize weights using per-channel scales.
pub fn quantize_weights_per_channel(weights: &[u32], shape: &[usize], scales: &PerChannelScale) -> (r:
    Vec<u8>)
    requires
        shape@.len() > 0,
        shape@[0] > 0,
        shape@[0] <= scales@.len(),
    ensures
        r@ == quantized_rows(weights@, shape@[0], scales@),
{
    let channels: usize = shape[0];
    let per: usize = weights.len() / channels;
    let used: Vec<u32> = vstd::slice::slice_to_vec(
        vstd::slice::slice_subrange(scales.scales.as_slice(), 0, channels),
    );
    assert(used@ =~= scales@.take(channels as int));
    proof {
        assert(channels * per <= weights@.len()) by (nonlinear_arith)
            requires
                channels > 0,
                per == weights@.len() / channels as nat,
        ;
    }
    let w: Vec<u32> = vstd::slice::slice_to_vec(weights);
    quantize_channels(&w, &used, per)
}

/// Whether an op multiplies by a weight.
pub open spec fn has_weight(op: OpView) -> bool {
    op.op_type == "Conv"@ || op.op_type == "Gemm"@ || op.op_type == "MatMul"@
}

/// The weights of the first `n` ops that are initializers, in order, each of
/// them once.
pub open spec fn weight_names(g: GraphView, n: nat) -> Seq<Seq<char>>
    decreases n,
{
    if n == 0 {
        Seq::empty()
    } else {
        let before = weight_names(g, (n - 1) as nat);
        let op = g.ops[n - 1];
        if has_weight(op) && op.inputs.len() > 1 && g.initializers.dom().contains(op.inputs[1])
            && !before.contains(op.inputs[1]) {
            before.push(op.inputs[1])
        } else {
            before
        }
    }
}

/// The scales of a weight: those on record, else those of the data.
pub open spec fn scales_for(p: ParamsTable, name: Seq<char>, w: Seq<u32>, channels: usize) -> Seq<u32> {
    if p.weights.dom().contains(name) {
        p.weights[name]
    } else {
        channel_scales(w, channels as nat, w.len() / channels as nat)
    }
}

/// The graph with one weight quantized.
pub open spec fn weight_quantized(p: ParamsTable, g: GraphView, name: Seq<char>) -> Result<
    GraphView,
    ErrorView,
> {
    if !g.initializers.dom().contains(name) || !g.shapes.dom().contains(name) {
        Ok(g)
    } else {
        let shape = g.shapes[name];
        let w = words32(g.initializers[name]);
        if shape.dims.len() == 0 || shape.dims[0] == 0 {
            Err(ErrorView::Shape("weight without channels"@))
        } else {
            let scales = scales_for(p, name, w, shape.dims[0]);
            if scales.len() < shape.dims[0] {
                Err(ErrorView::Shape("too few weight scales"@))
            } else {
                Ok(
                    GraphView {
                        initializers: g.initializers.insert(
                            name,
                            quantized_rows(w, shape.dims[0], scales),
                        ),
                        shapes: g.shapes.insert(
                            name,
                            ShapeView {
                                dtype: Dtype::I8,
                                per_channel_scales: Some(scales),
                                ..shape
                            },
                        ),
                        ..g
                    },
                )
            }
        }
    }
}

/// The graph with the first `n` of the named weights quantized.
pub open spec fn weights_quantized(p: ParamsTable, g: GraphView, names: Seq<Seq<char>>, n: nat) -> Result<
    GraphView,
    ErrorView,
>
    decreases n,
{
    if n == 0 {
        Ok(g)
    } else {
        match weights_quantized(p, g, names, (n - 1) as nat) {
            Err(e) => Err(e),
            Ok(h) => weight_quantized(p, h, names[n - 1]),
        }
    }
}

proof fn lemma_weights_prefix(p: ParamsTable, g: GraphView, names: Seq<Seq<char>>, n: nat, m: nat)
    requires
        n <= m,
    ensures
        weights_quantized(p, g, names, n) is Err ==> weights_quantized(p, g, names, m)
            == weights_quantized(p, g, names, n),
    decreases m,
{
    if n < m {
        lemma_weights_prefix(p, g, names, n, (m - 1) as nat);
    }
}

// ---------------------------------------------------------------------------
// Activations
// ---------------------------------------------------------------------------

/// The shape of a tensor in the quantized graph: weights (which have scales per
/// channel) and integer tensors stay as they are.
pub open spec fn scaled_shape(p: ParamsTable, name: Seq<char>, s: ShapeView) -> ShapeView {
    if s.per_channel_scales is Some || s.dtype is I32 {
        s
    } else {
        ShapeView {
            dtype: Dtype::I8,
            scale: Some(
                if p.activations.dom().contains(name) {
                    p.activations[name]
                } else {
                    DEFAULT_SCALE
                },
            ),
            ..s
        }
    }
}

/// All shapes of the quantized graph.
pub open spec fn scaled_shapes(p: ParamsTable, shapes: Map<Seq<char>, ShapeView>) -> Map<
    Seq<char>,
    ShapeView,
> {
    Map::new(
        |k: Seq<char>| shapes.dom().contains(k),
        |k: Seq<char>| scaled_shape(p, k, shapes[k]),
    )
}

// ---------------------------------------------------------------------------
// Ops
// ---------------------------------------------------------------------------

/// The scale of a tensor: the calibrated one, else the one in its shape, else the default.
pub open spec fn tensor_scale(p: ParamsTable, g: GraphView, name: Seq<char>) -> u32 {
    if p.activations.dom().contains(name) {
        p.activations[name]
    } else if g.shapes.dom().contains(name) && g.shapes[name].scale is Some {
        g.shapes[name].scale->0
    } else {
        DEFAULT_SCALE
    }
}

/// Bits of a single that is not a number.
pub const NAN: u32 = 0x7fc0_0000;

/// The mean of scales; that of none is not a number.
pub open spec fn mean_or_nan(v: Seq<u32>) -> u32 {
    if v.len() == 0 {
        NAN
    } else {
        mean_of(v)
    }
}

/// The mean scale of a weight.
pub open spec fn mean_weight_scale(p: ParamsTable, g: GraphView, name: Seq<char>) -> u32 {
    if p.weights.dom().contains(name) {
        mean_or_nan(p.weights[name])
    } else if g.shapes.dom().contains(name) && g.shapes[name].per_channel_scales is Some {
        mean_or_nan(g.shapes[name].per_channel_scales->0)
    } else {
        DEFAULT_SCALE
    }
}

/// The requantization after an op.
pub open spec fn requant_after(p: ParamsTable, g: GraphView, op: OpView) -> Result<
    OpView,
    ErrorView,
> {
    if op.outputs.len() == 0 {
        Err(ErrorView::Compile("Op has no outputs"@))
    } else if op.inputs.len() < 2 {
        Err(too_few_inputs())
    } else {
        let out = op.outputs[0];
        Ok(
            OpView {
                name: op.name + "_requant"@,
                op_type: "Requantize"@,
                inputs: seq![out + "_i32"@],
                outputs: seq![out],
                params: ParamsView::Requantize {
                    scale: quotient32(
                        product32(
                            tensor_scale(p, g, op.inputs[0]),
                            mean_weight_scale(p, g, op.inputs[1]),
                        ),
                        tensor_scale(p, g, out),
                    ),
                },
            },
        )
    }
}

/// An addition of INT8 tensors, each with its scale over that of the result.
pub open spec fn quantized_add(p: ParamsTable, g: GraphView, op: OpView) -> Result<OpView, ErrorView> {
    if op.inputs.len() < 2 {
        Err(too_few_inputs())
    } else if op.outputs.len() == 0 {
        Err(no_output())
    } else {
        let out = tensor_scale(p, g, op.outputs[0]);
        Ok(
            OpView {
                op_type: "AddQuantized"@,
                params: ParamsView::AddQuantized {
                    scale_a_over_out: quotient32(tensor_scale(p, g, op.inputs[0]), out),
                    scale_b_over_out: quotient32(tensor_scale(p, g, op.inputs[1]), out),
                },
                ..op
            },
        )
    }
}

/// What one op turns into.
pub open spec fn int8_ops_of(p: ParamsTable, g: GraphView, op: OpView) -> Result<
    Seq<OpView>,
    ErrorView,
> {
    if has_weight(op) {
        match requant_after(p, g, op) {
            Err(e) => Err(e),
            Ok(q) => Ok(seq![op, q]),
        }
    } else if op.op_type == "Add"@ {
        match quantized_add(p, g, op) {
            Err(e) => Err(e),
            Ok(a) => Ok(seq![a]),
        }
    } else {
        Ok(seq![op])
    }
}

/// What the first `n` ops turn into.
pub open spec fn int8_ops(p: ParamsTable, g: GraphView, n: nat) -> Result<Seq<OpView>, ErrorView>
    decreases n,
{
    if n == 0 {
        Ok(Seq::empty())
    } else {
        match int8_ops(p, g, (n - 1) as nat) {
            Err(e) => Err(e),
            Ok(before) => match int8_ops_of(p, g, g.ops[n - 1]) {
                Err(e) => Err(e),
                Ok(new) => Ok(before + new),
            },
        }
    }
}

proof fn lemma_int8_ops_prefix(p: ParamsTable, g: GraphView, n: nat, m: nat)
    requires
        n <= m,
    ensures
        int8_ops(p, g, n) is Err ==> int8_ops(p, g, m) == int8_ops(p, g, n),
    decreases m,
{
    if n < m {
        lemma_int8_ops_prefix(p, g, n, (m - 1) as nat);
    }
}

/// The INT8 graph of an F32 graph.
pub open spec fn int8_graph(p: ParamsTable, g: GraphView) -> Result<GraphView, ErrorView> {
    let names = weight_names(g, g.ops.len());
    if g.dtype != Dtype::F32 {
        Err(ErrorView::Validation("QuantizedGraphCompiler requires F32 input graph"@))
    } else {
        match weights_quantized(p, g, names, names.len()) {
            Err(e) => Err(e),
            Ok(w) => {
                let h = GraphView { shapes: scaled_shapes(p, w.shapes), ..w };
                match int8_ops(p, h, h.ops.len()) {
                    Err(e) => Err(e),
                    Ok(ops) => Ok(GraphView { ops, dtype: Dtype::I8, ..h }),
                }
            },
        }
    }
}

/// Quantized graph compiler.
///
/// Transforms an F32 graph into an INT8 graph using calibrated quantization
/// parameters.
pub struct QuantizedGraphCompiler {
    params: QuantizationParams,
}

impl View for QuantizedGraphCompiler {
    type V = ParamsTable;

    closed spec fn view(&self) -> ParamsTable {
        self.params@
    }
}

fn op_has_weight(op: &CompiledOp) -> (r: bool)
    ensures
        r == has_weight(op@),
{
    str_eq(op.op_type.as_str(), "Conv") || str_eq(op.op_type.as_str(), "Gemm") || str_eq(
        op.op_type.as_str(),
        "MatMul",
    )
}

fn find_weights(graph: &Graph) -> (r: Vec<String>)
    ensures
        views(r@) == weight_names(graph@, graph@.ops.len()),
{
    let mut r: Vec<String> = Vec::new();
    let mut i: usize = 0;
    assert(views(r@) =~= Seq::empty());
    while i < graph.ops.len()
        invariant
            i <= graph.ops@.len(),
            views(r@) == weight_names(graph@, i as nat),
        decreases graph.ops@.len() - i,
    {
        broadcast use lemma_views_push;

        let op: &CompiledOp = &graph.ops[i];
        assert(graph@.ops[i as int] == op@);
        if op_has_weight(op) && op.inputs.len() > 1 {
            assert(op@.inputs[1] == op.inputs@[1]@);
            if graph.initializers.contains_key(op.inputs[1].as_str()) && !contains_name(
                &r,
                op.inputs[1].as_str(),
            ) {
                r.push(op.inputs[1].clone());
            }
        }
        i = i + 1;
    }
    r
}

fn mean_scale(v: &Vec<u32>) -> (r: u32)
    ensures
        r == mean_or_nan(v@),
{
    if v.len() == 0 {
        NAN
    } else {
        mean(v)
    }
}

impl QuantizedGraphCompiler {
    /// Create a new quantized graph compiler.
    pub fn new(params: QuantizationParams) -> (r: QuantizedGraphCompiler)
        ensures
            r@ == params@,
    {
        QuantizedGraphCompiler { params }
    }

    fn quantize_weight(&self, graph: &mut Graph, name: &String) -> (r: Result<(), Error>)
        ensures
            match weight_quantized(self@, old(graph)@, name@) {
                Ok(g) => r is Ok && final(graph)@ == g,
                Err(e) => r matches Err(x) && x@ == e,
            },
    {
        let data: &Vec<u8> = match graph.initializers.get(name.as_str()) {
            Some(d) => d,
            None => {
                return Ok(());
            },
        };
        let mut shape: TensorShape = match graph.shapes.get(name.as_str()) {
            Some(s) => s.clone(),
            None => {
                return Ok(());
            },
        };
        if shape.dims.len() == 0 || shape.dims[0] == 0 {
            return Err(Error::Shape("weight without channels".to_owned()));
        }
        let w: Vec<u32> = bytes_to_f32(data.as_slice());
        let scales: PerChannelScale = match self.params.get_weight_scales(name.as_str()) {
            Some(s) => s.clone(),
            None => PerChannelScale::from_weights(w.as_slice(), shape.dims[0]),
        };
        if scales.scales.len() < shape.dims[0] {
            return Err(Error::Shape("too few weight scales".to_owned()));
        }
        let bytes: Vec<u8> = quantize_weights_per_channel(
            w.as_slice(),
            shape.dims.as_slice(),
            &scales,
        );
        graph.initializers.insert(name.clone(), bytes);
        shape.dtype = Dtype::I8;
        shape.per_channel_scales = Some(scales);
        graph.shapes.insert(name.clone(), shape);
        Ok(())
    }

    /// Quantize weight tensors in the graph.
    fn quantize_weights(&self, graph: &mut Graph) -> (r: Result<(), Error>)
        ensures
            ({
                let names = weight_names(old(graph)@, old(graph)@.ops.len());
                match weights_quantized(self@, old(graph)@, names, names.len()) {
                    Ok(g) => r is Ok && final(graph)@ == g,
                    Err(e) => r matches Err(x) && x@ == e,
                }
            }),
    {
        let names: Vec<String> = find_weights(graph);
        let ghost list = views(names@);
        let mut i: usize = 0;
        while i < names.len()
            invariant
                i <= names@.len(),
                list == views(names@),
                list == weight_names(old(graph)@, old(graph)@.ops.len()),
                weights_quantized(self@, old(graph)@, list, i as nat) == Ok::<GraphView, ErrorView>(
                    graph@,
                ),
            decreases names@.len() - i,
        {
            proof {
                lemma_weights_prefix(self@, old(graph)@, list, (i + 1) as nat, list.len());
                assert(list[i as int] == names@[i as int]@);
            }
            match self.quantize_weight(graph, &names[i]) {
                Ok(_) => {},
                Err(e) => {
                    return Err(e);
                },
            }
            i = i + 1;
        }
        Ok(())
    }

    /// Update tensor shapes with quantization scales.
    fn update_tensor_scales(&self, shapes: &mut NameMap<TensorShape>)
        ensures
            final(shapes)@ == scaled_shapes(self@, old(shapes)@),
    {
        let ghost pairs = shapes.pairs();
        let ghost all = scaled_shapes(self@, shapes@);
        let n: usize = shapes.len();
        let mut i: usize = 0;
        while i < n
            invariant
                i <= n == pairs.len(),
                distinct_names(pairs),
                pairs == old(shapes).pairs(),
                all == scaled_shapes(self@, old(shapes)@),
                shapes.pairs().len() == n,
                forall|k: int| 0 <= k < n ==> (#[trigger] shapes.pairs()[k]).0 == pairs[k].0,
                shapes@.dom() == old(shapes)@.dom(),
                forall|k: int| 0 <= k < i ==> shapes@[(#[trigger] pairs[k]).0] == all[pairs[k].0],
                forall|k: int|
                    i <= k < n ==> shapes@[(#[trigger] pairs[k]).0] == old(shapes)@[pairs[k].0],
            decreases n - i,
        {
            let name: String = shapes.key_at(i).clone();
            let mut shape: TensorShape = shapes.value_at(i).clone();
            let ghost before = shapes@;
            proof {
                assert(shapes.pairs()[i as int].0 == pairs[i as int].0);
                lemma_pair_in_map(pairs, i as int);
                assert(shape@ == old(shapes)@[name@]);
            }
            if shape.per_channel_scales.is_none() && shape.dtype != Dtype::I32 {
                let scale: u32 = match self.params.get_activation_scale(name.as_str()) {
                    Some(s) => s.scale,
                    None => DEFAULT_SCALE,
                };
                shape.dtype = Dtype::I8;
                shape.scale = Some(QuantScale::symmetric(scale));
                shapes.insert(name, shape);
                assert(shapes@.dom() =~= before.dom());
            }
            i = i + 1;
            proof {
                assert forall|k: int| 0 <= k < n && k != i - 1 implies shapes@[(
                #[trigger] pairs[k]).0] == before[pairs[k].0] by {
                    if k < i - 1 {
                        assert(pairs[k].0 != pairs[i - 1].0);
                    } else {
                        assert(pairs[i - 1].0 != pairs[k].0);
                    }
                }
            }
        }
        proof {
            assert forall|k: Seq<char>| shapes@.dom().contains(k) implies shapes@[k] == all[k] by {
                let j = choose|j: int| stands_at(pairs, k, j);
                assert(stands_at(pairs, k, j));
            }
            assert(shapes@ =~= all);
        }
    }

    /// The quantization scale of a tensor.
    fn get_tensor_scale(&self, name: &str, graph: &Graph) -> (r: u32)
        ensures
            r == tensor_scale(self@, graph@, name@),
    {
        match self.params.get_activation_scale(name) {
            Some(s) => {
                return s.scale;
            },
            None => {},
        }
        match graph.shapes.get(name) {
            Some(shape) => match &shape.scale {
                Some(s) => s.scale,
                None => DEFAULT_SCALE,
            },
            None => DEFAULT_SCALE,
        }
    }

    /// The mean scale of a weight.
    fn get_weight_scale(&self, name: &str, graph: &Graph) -> (r: u32)
        ensures
            r == mean_weight_scale(self@, graph@, name@),
    {
        match self.params.get_weight_scales(name) {
            Some(s) => {
                return mean_scale(&s.scales);
            },
            None => {},
        }
        match graph.shapes.get(name) {
            Some(shape) => match &shape.per_channel_scales {
                Some(s) => mean_scale(&s.scales),
                None => DEFAULT_SCALE,
            },
            None => DEFAULT_SCALE,
        }
    }

    /// Create a requantization op after Conv/GEMM.
    fn create_requant_op(&self, op: &CompiledOp, graph: &Graph) -> (r: Result<CompiledOp, Error>)
        ensures
            outcome(r) == requant_after(self@, graph@, op@),
    {
        if op.outputs.len() == 0 {
            return Err(Error::Compile("Op has no outputs".to_owned()));
        }
        if op.inputs.len() < 2 {
            return Err(err_too_few_inputs());
        }
        assert(op@.outputs[0] == op.outputs@[0]@);
        assert(op@.inputs[0] == op.inputs@[0]@);
        assert(op@.inputs[1] == op.inputs@[1]@);
        let out: &String = &op.outputs[0];
        let a: u32 = self.get_tensor_scale(op.inputs[0].as_str(), graph);
        let w: u32 = self.get_weight_scale(op.inputs[1].as_str(), graph);
        let o: u32 = self.get_tensor_scale(out.as_str(), graph);
        let mut inputs: Vec<String> = Vec::new();
        inputs.push(concat2(out.as_str(), "_i32"));
        assert(views(inputs@) =~= seq![out@ + "_i32"@]);
        let mut outputs: Vec<String> = Vec::new();
        outputs.push(out.clone());
        assert(views(outputs@) =~= seq![out@]);
        Ok(
            CompiledOp {
                name: concat2(op.name.as_str(), "_requant"),
                op_type: "Requantize".to_owned(),
                inputs,
                outputs,
                params: OpParams::Requantize { scale: div32(mul32(a, w), o) },
            },
        )
    }

    /// Transform Add op for INT8.
    fn transform_add_op(&self, op: &CompiledOp, graph: &Graph) -> (r: Result<CompiledOp, Error>)
        ensures
            outcome(r) == quantized_add(self@, graph@, op@),
    {
        if op.inputs.len() < 2 {
            return Err(err_too_few_inputs());
        }
        if op.outputs.len() == 0 {
            return Err(Error::Shape("no output".to_owned()));
        }
        assert(op@.outputs[0] == op.outputs@[0]@);
        assert(op@.inputs[0] == op.inputs@[0]@);
        assert(op@.inputs[1] == op.inputs@[1]@);
        let a: u32 = self.get_tensor_scale(op.inputs[0].as_str(), graph);
        let b: u32 = self.get_tensor_scale(op.inputs[1].as_str(), graph);
        let o: u32 = self.get_tensor_scale(op.outputs[0].as_str(), graph);
        Ok(
            CompiledOp {
                name: op.name.clone(),
                op_type: "AddQuantized".to_owned(),
                inputs: copy_names(&op.inputs),
                outputs: copy_names(&op.outputs),
                params: OpParams::AddQuantized {
                    scale_a_over_out: div32(a, o),
                    scale_b_over_out: div32(b, o),
                },
            },
        )
    }

    /// Transform ops for INT8 execution.
    fn transform_ops(&self, graph: &Graph) -> (r: Result<Vec<CompiledOp>, Error>)
        ensures
            match r {
                Ok(v) => int8_ops(self@, graph@, graph@.ops.len()) == Ok::<Seq<OpView>, ErrorView>(
                    views(v@),
                ),
                Err(e) => int8_ops(self@, graph@, graph@.ops.len()) == Err::<Seq<OpView>, ErrorView>(
                    e@,
                ),
            },
    {
        let mut new: Vec<CompiledOp> = Vec::new();
        let mut i: usize = 0;
        assert(views(new@) =~= Seq::empty());
        while i < graph.ops.len()
            invariant
                i <= graph.ops@.len(),
                int8_ops(self@, graph@, i as nat) == Ok::<Seq<OpView>, ErrorView>(views(new@)),
            decreases graph.ops@.len() - i,
        {
            broadcast use lemma_views_push;

            let op: &CompiledOp = &graph.ops[i];
            proof {
                assert(graph@.ops[i as int] == op@);
                lemma_int8_ops_prefix(self@, graph@, (i + 1) as nat, graph@.ops.len());
            }
            let ghost before = views(new@);
            if op_has_weight(op) {
                match self.create_requant_op(op, graph) {
                    Ok(q) => {
                        let ghost v = q@;
                        new.push(op.clone());
                        new.push(q);
                        assert(views(new@) =~= before + seq![op@, v]);
                    },
                    Err(e) => {
                        return Err(e);
                    },
                }
            } else if str_eq(op.op_type.as_str(), "Add") {
                match self.transform_add_op(op, graph) {
                    Ok(a) => {
                        let ghost v = a@;
                        new.push(a);
                        assert(views(new@) =~= before + seq![v]);
                    },
                    Err(e) => {
                        return Err(e);
                    },
                }
            } else {
                new.push(op.clone());
                assert(views(new@) =~= before + seq![op@]);
            }
            i = i + 1;
        }
        Ok(new)
    }

    /// Compile an F32 graph into an INT8 graph.
    pub fn compile(&self, graph: Graph) -> (r: Result<Graph, Error>)
        ensures
            outcome(r) == int8_graph(self@, graph@),
    {
        if graph.dtype != Dtype::F32 {
            return Err(
                Error::Validation("QuantizedGraphCompiler requires F32 input graph".to_owned()),
            );
        }
        let mut g: Graph = graph;
        match self.quantize_weights(&mut g) {
            Ok(_) => {},
            Err(e) => {
                return Err(e);
            },
        }
        self.update_tensor_scales(&mut g.shapes);
        let ops: Vec<CompiledOp> = match self.transform_ops(&g) {
            Ok(v) => v,
            Err(e) => {
                return Err(e);
            },
        };
        g.ops = ops;
        g.dtype = Dtype::I8;
        Ok(g)
    }
}

// ---------------------------------------------------------------------------
// Summary of a quantized graph
// ---------------------------------------------------------------------------

/// Information about a quantized graph.
#[derive(Debug)]
pub struct QuantizedGraphInfo {
    /// Number of quantized ops.
    pub num_quantized_ops: usize,
    /// Number of requantization ops inserted.
    pub num_requant_ops: usize,
    /// Bits of the total weight size reduction (F32 to I8).
    pub weight_size_reduction: u32,
    /// List of ops that remain in F32.
    pub f32_ops: Vec<String>,
}

/// Bits of 0.75: one byte instead of four.
pub const THREE_QUARTERS: u32 = 0x3f40_0000;

/// How many of the first `n` ops have a type.
pub open spec fn count_of_type(ops: Seq<OpView>, op_type: Seq<char>, n: nat) -> nat
    decreases n,
{
    if n == 0 {
        0
    } else {
        count_of_type(ops, op_type, (n - 1) as nat) + if ops[n - 1].op_type == op_type {
            1nat
        } else {
            0
        }
    }
}

/// The names of those of the first `n` ops that have a type.
pub open spec fn names_of_type(ops: Seq<OpView>, op_type: Seq<char>, n: nat) -> Seq<Seq<char>>
    decreases n,
{
    if n == 0 {
        Seq::empty()
    } else {
        let before = names_of_type(ops, op_type, (n - 1) as nat);
        if ops[n - 1].op_type == op_type {
            before.push(ops[n - 1].name)
        } else {
            before
        }
    }
}

impl QuantizedGraphInfo {
    /// Analyze a quantized graph; only Softmax stays in F32.
    pub fn from_graph(graph: &Graph) -> (r: QuantizedGraphInfo)
        ensures
            r.num_requant_ops == count_of_type(graph@.ops, "Requantize"@, graph@.ops.len()),
            views(r.f32_ops@) == names_of_type(graph@.ops, "Softmax"@, graph@.ops.len()),
            r.num_quantized_ops == graph@.ops.len() - r.f32_ops@.len(),
            r.weight_size_reduction == THREE_QUARTERS,
    {
        let ghost ops = graph@.ops;
        let mut num_requant_ops: usize = 0;
        let mut f32_ops: Vec<String> = Vec::new();
        let mut i: usize = 0;
        assert(views(f32_ops@) =~= Seq::empty());
        while i < graph.ops.len()
            invariant
                i <= graph.ops@.len(),
                ops == graph@.ops,
                num_requant_ops <= i,
                f32_ops@.len() <= i,
                num_requant_ops == count_of_type(ops, "Requantize"@, i as nat),
                views(f32_ops@) == names_of_type(ops, "Softmax"@, i as nat),
            decreases graph.ops@.len() - i,
        {
            broadcast use lemma_views_push;

            let op: &CompiledOp = &graph.ops[i];
            assert(ops[i as int] == op@);
            if str_eq(op.op_type.as_str(), "Requantize") {
                num_requant_ops = num_requant_ops + 1;
            }
            if str_eq(op.op_type.as_str(), "Softmax") {
                f32_ops.push(op.name.clone());
            }
            i = i + 1;
        }
        QuantizedGraphInfo {
            num_quantized_ops: graph.ops.len() - f32_ops.len(),
            num_requant_ops,
            weight_size_reduction: THREE_QUARTERS,
            f32_ops,
        }
    }
}

// ---------------------------------------------------------------------------
// Laws
// ---------------------------------------------------------------------------

/// Every convolution or matrix product of an F32 graph is followed by one
/// requantization, so the INT8 graph has that many ops more.
pub proof fn law_one_requant_per_product(p: ParamsTable, g: GraphView)
    requires
        int8_graph(p, g) is Ok,
    ensures
        int8_graph(p, g)->Ok_0.ops.len() == g.ops.len() + product_count(g.ops, g.ops.len()),
        int8_graph(p, g)->Ok_0.dtype == Dtype::I8,
        int8_graph(p, g)->Ok_0.inputs == g.inputs,
        int8_graph(p, g)->Ok_0.outputs == g.outputs,
{
    let names = weight_names(g, g.ops.len());
    lemma_weights_keep(p, g, names, names.len());
    let w = weights_quantized(p, g, names, names.len())->Ok_0;
    let h = GraphView { shapes: scaled_shapes(p, w.shapes), ..w };
    lemma_int8_count(p, h, h.ops.len());
}

/// How many of the first `n` ops multiply by a weight.
pub open spec fn product_count(ops: Seq<OpView>, n: nat) -> nat
    decreases n,
{
    if n == 0 {
        0
    } else {
        product_count(ops, (n - 1) as nat) + if has_weight(ops[n - 1]) {
            1nat
        } else {
            0
        }
    }
}

proof fn lemma_weights_keep(p: ParamsTable, g: GraphView, names: Seq<Seq<char>>, n: nat)
    requires
        weights_quantized(p, g, names, n) is Ok,
    ensures
        weights_quantized(p, g, names, n)->Ok_0.ops == g.ops,
        weights_quantized(p, g, names, n)->Ok_0.inputs == g.inputs,
        weights_quantized(p, g, names, n)->Ok_0.outputs == g.outputs,
    decreases n,
{
    if n > 0 {
        lemma_weights_keep(p, g, names, (n - 1) as nat);
    }
}

proof fn lemma_int8_count(p: ParamsTable, g: GraphView, n: nat)
    requires
        int8_ops(p, g, n) is Ok,
    ensures
        int8_ops(p, g, n)->Ok_0.len() == n + product_count(g.ops, n),
    decreases n,
{
    if n > 0 {
        lemma_int8_count(p, g, (n - 1) as nat);
    }
}

/// In the INT8 graph every tensor that is not an INT32 one and has no scales
/// per channel has a scale of its own.
pub proof fn law_every_activation_has_a_scale(p: ParamsTable, g: GraphView, name: Seq<char>)
    requires
        int8_graph(p, g) is Ok,
        int8_graph(p, g)->Ok_0.shapes.dom().contains(name),
    ensures
        ({
            let s = int8_graph(p, g)->Ok_0.shapes[name];
            s.per_channel_scales is None && !(s.dtype is I32) ==> s.dtype is I8 && s.scale is Some
        }),
{
}

proof fn lemma_weight_names(g: GraphView, n: nat)
    requires
        n <= g.ops.len(),
    ensures
        weight_names(g, n).no_duplicates(),
        forall|i: int|
            0 <= i < n && has_weight(#[trigger] g.ops[i]) && g.ops[i].inputs.len() > 1
                && g.initializers.dom().contains(g.ops[i].inputs[1]) ==> weight_names(
                g,
                n,
            ).contains(g.ops[i].inputs[1]),
    decreases n,
{
    if n > 0 {
        lemma_weight_names(g, (n - 1) as nat);
        let before = weight_names(g, (n - 1) as nat);
        let now = weight_names(g, n);
        assert forall|i: int|
            0 <= i < n && has_weight(#[trigger] g.ops[i]) && g.ops[i].inputs.len() > 1
                && g.initializers.dom().contains(g.ops[i].inputs[1]) implies now.contains(
            g.ops[i].inputs[1],
        ) by {
            let name = g.ops[i].inputs[1];
            if before.contains(name) {
                let j = choose|j: int| 0 <= j < before.len() && before[j] == name;
                assert(now[j] == name);
            } else {
                assert(now == before.push(name));
                assert(now[before.len() as int] == name);
            }
        }
    }
}

/// After the first `n` of distinct weights, each of them is quantized from what
/// it held at first, and all else is as it was.
proof fn lemma_weights_once(p: ParamsTable, g: GraphView, names: Seq<Seq<char>>, n: nat, k: Seq<char>)
    requires
        n <= names.len(),
        names.no_duplicates(),
        weights_quantized(p, g, names, n) is Ok,
    ensures
        ({
            let h = weights_quantized(p, g, names, n)->Ok_0;
            let one = if names.take(n as int).contains(k) {
                weight_quantized(p, g, k)
            } else {
                Ok(g)
            };
            &&& one is Ok
            &&& h.shapes.dom().contains(k) == one->Ok_0.shapes.dom().contains(k)
            &&& h.shapes.dom().contains(k) ==> h.shapes[k] == one->Ok_0.shapes[k]
            &&& h.initializers.dom().contains(k) == one->Ok_0.initializers.dom().contains(k)
            &&& h.initializers.dom().contains(k) ==> h.initializers[k] == one->Ok_0.initializers[k]
        }),
    decreases n,
{
    if n > 0 {
        lemma_weights_once(p, g, names, (n - 1) as nat, k);
        let before = names.take(n - 1);
        let now = names.take(n as int);
        assert(now =~= before.push(names[n - 1]));
        if k == names[n - 1] {
            assert(now[n - 1] == k);
            if before.contains(k) {
                let j = choose|j: int| 0 <= j < before.len() && before[j] == k;
                assert(names[j] == names[n - 1]);
            }
        } else if now.contains(k) {
            let j = choose|j: int| 0 <= j < now.len() && now[j] == k;
            assert(before[j] == k);
        } else if before.contains(k) {
            let j = choose|j: int| 0 <= j < before.len() && before[j] == k;
            assert(now[j] == k);
        }
    }
}

/// The weight of a convolution or matrix product is quantized from its F32 data
/// once, however many of them share it, and keeps the scales that it was
/// quantized with.
pub proof fn law_weights_quantized_once(p: ParamsTable, g: GraphView, i: int)
    requires
        int8_graph(p, g) is Ok,
        0 <= i < g.ops.len(),
        has_weight(g.ops[i]),
        g.ops[i].inputs.len() > 1,
        g.initializers.dom().contains(g.ops[i].inputs[1]),
        g.shapes.dom().contains(g.ops[i].inputs[1]),
    ensures
        ({
            let name = g.ops[i].inputs[1];
            let channels = g.shapes[name].dims[0];
            let w = words32(g.initializers[name]);
            let scales = scales_for(p, name, w, channels);
            let q = int8_graph(p, g)->Ok_0;
            &&& q.initializers.dom().contains(name)
            &&& q.initializers[name] == quantized_rows(w, channels, scales)
            &&& q.shapes.dom().contains(name)
            &&& q.shapes[name] == (ShapeView {
                dtype: Dtype::I8,
                per_channel_scales: Some(scales),
                ..g.shapes[name]
            })
        }),
{
    let name = g.ops[i].inputs[1];
    let names = weight_names(g, g.ops.len());
    lemma_weight_names(g, g.ops.len());
    lemma_weights_once(p, g, names, names.len(), name);
    assert(names.take(names.len() as int) =~= names);
}

} // verus!
