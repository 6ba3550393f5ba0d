//! Folding batch normalization into the convolution before it.
//!
//! With `f = scale / sqrt(variance + epsilon)` for each output channel, the
//! weights of the channel are multiplied by `f`, and its bias `b` becomes
//! `(b - mean) * f + shift`. The factor and the products are computed in double
//! precision and rounded to single once.

use vstd::prelude::*;
use vstd::string::*;
use crate::error::{outcome, Error, ErrorView};
use crate::graph::{contains_name, index_tensors, tensors_by_name};
use crate::ieee::{
    add64, difference64, div64, mul64, narrow, narrowed, product64, quotient64, root64, sqrt64,
    sub64, sum64, widen, widened,
};
use crate::model::{
    copy_vec, lemma_views_push, views, DataType, GraphProtoView, Model, ModelView, NodeView,
    OnnxNode, OnnxTensor, TensorView, ValueInfo, ValueInfoView,
};
use crate::name_map::NameMap;
use crate::ops::common::{err_too_few_inputs, no_output, too_few_inputs};
use crate::proto::{bytes_of_words32, from_words32, words32};
use crate::text::{concat2, concat3, str_eq};

pub mod meaning;

verus! {

// ---------------------------------------------------------------------------
// One normalization
// ---------------------------------------------------------------------------

/// Bits of the default epsilon, 1e-5.
pub const EPSILON: u32 = 0x3727_c5ac;

/// Bits of the double 1.0.
pub const ONE_DOUBLE: u64 = 0x3ff0_0000_0000_0000;

/// The bits of a named Float tensor.
pub open spec fn floats_of(tensors: Map<Seq<char>, TensorView>, name: Seq<char>) -> Option<
    Seq<u32>,
> {
    if tensors.dom().contains(name) && tensors[name].data_type == DataType::Float
        && tensors[name].data.len() % 4 == 0 {
        Some(words32(tensors[name].data))
    } else {
        None
    }
}

fn get_floats(tensors: &NameMap<OnnxTensor>, name: &str) -> (r: Option<Vec<u32>>)
    ensures
        match r {
            Some(v) => floats_of(tensors@, name@) == Some(v@),
            None => floats_of(tensors@, name@) is None,
        },
{
    match tensors.get(name) {
        Some(t) => t.as_f32_slice(),
        None => None,
    }
}

/// The parameters of a normalization, one entry for each channel.
pub struct NormView {
    pub scale: Seq<u32>,
    pub shift: Seq<u32>,
    pub mean: Seq<u32>,
    pub variance: Seq<u32>,
    pub epsilon: u32,
}

/// The factor of channel `c`, in double precision.
pub open spec fn channel_factor(n: NormView, c: int) -> u64 {
    product64(
        widened(n.scale[c]),
        quotient64(ONE_DOUBLE, root64(sum64(widened(n.variance[c]), widened(n.epsilon)))),
    )
}

/// The weights of `channels` channels, `per` of them each, with the factors applied.
pub open spec fn folded_weights(n: NormView, w: Seq<u32>, channels: nat, per: nat) -> Seq<u32> {
    Seq::new(
        channels * per,
        |k: int| narrowed(product64(widened(w[k]), channel_factor(n, k / per as int))),
    )
}

/// The bias of channel `c`, given the one the convolution has.
pub open spec fn folded_bias_at(n: NormView, old: u32, c: int) -> u32 {
    narrowed(
        sum64(
            product64(difference64(widened(old), widened(n.mean[c])), channel_factor(n, c)),
            widened(n.shift[c]),
        ),
    )
}

/// The bias of each channel; a convolution without bias counts as having zeros.
pub open spec fn folded_bias(n: NormView, old: Option<Seq<u32>>, channels: nat) -> Seq<u32> {
    Seq::new(
        channels,
        |c: int|
            folded_bias_at(
                n,
                match old {
                    Some(b) => b[c],
                    None => 0,
                },
                c,
            ),
    )
}

struct Norm {
    scale: Vec<u32>,
    shift: Vec<u32>,
    mean: Vec<u32>,
    variance: Vec<u32>,
    epsilon: u32,
}

impl View for Norm {
    type V = NormView;

    closed spec fn view(&self) -> NormView {
        NormView {
            scale: self.scale@,
            shift: self.shift@,
            mean: self.mean@,
            variance: self.variance@,
            epsilon: self.epsilon,
        }
    }
}

fn factor(n: &Norm, c: usize) -> (r: u64)
    requires
        c < n@.scale.len(),
        c < n@.variance.len(),
    ensures
        r == channel_factor(n@, c as int),
{
    let deviation: u64 = sqrt64(add64(widen(n.variance[c]), widen(n.epsilon)));
    mul64(widen(n.scale[c]), div64(ONE_DOUBLE, deviation))
}

fn fold_weights(n: &Norm, w: &Vec<u32>, channels: usize, per: usize) -> (r: Vec<u32>)
    requires
        channels * per <= w@.len(),
        channels <= n@.scale.len(),
        channels <= n@.variance.len(),
    ensures
        r@ == folded_weights(n@, w@, channels as nat, per as nat),
{
    let ghost all = folded_weights(n@, w@, channels as nat, per as nat);
    let mut r: Vec<u32> = Vec::new();
    let mut c: usize = 0;
    assert(0 * per == 0) by (nonlinear_arith);
    assert(r@ =~= all.take(0));
    while c < channels
        invariant
            c <= channels,
            channels * per <= w@.len(),
            channels <= n@.scale.len(),
            channels <= n@.variance.len(),
            all == folded_weights(n@, w@, channels as nat, per as nat),
            r@ == all.take(c * per),
        decreases channels - c,
    {
        let f: u64 = factor(n, c);
        let mut i: usize = 0;
        proof {
            assert((c + 1) * per <= channels * per) by (nonlinear_arith)
                requires
                    c + 1 <= channels,
            ;
            assert((c + 1) * per == c * per + per) by (nonlinear_arith);
            assert(0 <= c * per) by (nonlinear_arith);
            assert(r@ =~= all.take(c * per + 0));
        }
        assert(w@.len() == w.len());
        let start: usize = c * per;
        while i < per
            invariant
                i <= per,
                c < channels,
                start == c * per,
                start + per <= channels * per <= w@.len(),
                f == channel_factor(n@, c as int),
                all == folded_weights(n@, w@, channels as nat, per as nat),
                r@ == all.take(start + i),
            decreases per - i,
        {
            proof {
                vstd::arithmetic::div_mod::lemma_fundamental_div_mod_converse(
                    start + i,
                    per as int,
                    c as int,
                    i as int,
                );
            }
            assert(w@.len() == w.len());
            r.push(narrow(mul64(widen(w[start + i]), f)));
            i = i + 1;
            assert(r@ =~= all.take(start + i));
        }
        c = c + 1;
    }
    assert(all.take(channels * per) =~= all);
    r
}

spec fn optional(v: Option<Vec<u32>>) -> Option<Seq<u32>> {
    match v {
        Some(b) => Some(b@),
        None => None,
    }
}

fn fold_bias(n: &Norm, old: &Option<Vec<u32>>, channels: usize) -> (r: Vec<u32>)
    requires
        channels <= n@.scale.len(),
        channels <= n@.shift.len(),
        channels <= n@.mean.len(),
        channels <= n@.variance.len(),
        old matches Some(b) ==> channels <= b@.len(),
    ensures
        r@ == folded_bias(
            n@,
            optional(*old),
            channels as nat,
        ),
{
    let ghost was = optional(*old);
    let ghost all = folded_bias(n@, was, channels as nat);
    let mut r: Vec<u32> = Vec::new();
    let mut c: usize = 0;
    while c < channels
        invariant
            c <= channels,
            channels <= n@.scale.len(),
            channels <= n@.shift.len(),
            channels <= n@.mean.len(),
            channels <= n@.variance.len(),
            old matches Some(b) ==> channels <= b@.len(),
            was == optional(*old),
            all == folded_bias(n@, was, channels as nat),
            r@ == all.take(c as int),
        decreases channels - c,
    {
        let b: u32 = match old {
            Some(b) => b[c],
            None => 0,
        };
        let shifted: u64 = mul64(sub64(widen(b), widen(n.mean[c])), factor(n, c));
        r.push(narrow(add64(shifted, widen(n.shift[c]))));
        c = c + 1;
        assert(r@ =~= all.take(c as int));
    }
    assert(all.take(c as int) =~= all);
    r
}

/// What folding one normalization gives.
pub struct FoldView {
    /// The convolution's weight tensor.
    pub weight: Seq<char>,
    /// Bits of the new weights.
    pub weights: Seq<u32>,
    /// Bits of the new bias.
    pub bias: Seq<u32>,
}

/// The first of the nodes from `i` on that is a convolution and writes a tensor.
pub open spec fn conv_writing(nodes: Seq<NodeView>, name: Seq<char>, i: int) -> Option<int>
    decreases nodes.len() - i,
{
    if i < 0 || i >= nodes.len() {
        None
    } else if nodes[i].outputs.contains(name) && nodes[i].op_type == "Conv"@ {
        Some(i)
    } else {
        conv_writing(nodes, name, i + 1)
    }
}

fn find_conv(nodes: &Vec<OnnxNode>, name: &str) -> (r: Option<usize>)
    ensures
        conv_writing(views(nodes@), name@, 0) == match r {
            Some(i) => Some(i as int),
            None => None,
        },
        r matches Some(i) ==> i < nodes@.len(),
{
    let mut i: usize = 0;
    while i < nodes.len()
        invariant
            i <= nodes@.len(),
            conv_writing(views(nodes@), name@, 0) == conv_writing(views(nodes@), name@, i as int),
        decreases nodes@.len() - i,
    {
        assert(views(nodes@)[i as int] == nodes@[i as int]@);
        if contains_name(&nodes[i].outputs, name) && str_eq(nodes[i].op_type.as_str(), "Conv") {
            return Some(i);
        }
        i = i + 1;
    }
    None
}

/// The parameters of a normalization node.
pub open spec fn norm_of(node: NodeView, tensors: Map<Seq<char>, TensorView>) -> Result<
    NormView,
    ErrorView,
> {
    match floats_of(tensors, node.inputs[1]) {
        None => Err(ErrorView::Compile("BN scale not found: "@ + node.inputs[1])),
        Some(scale) => match floats_of(tensors, node.inputs[2]) {
            None => Err(ErrorView::Compile("BN bias not found: "@ + node.inputs[2])),
            Some(shift) => match floats_of(tensors, node.inputs[3]) {
                None => Err(ErrorView::Compile("BN mean not found: "@ + node.inputs[3])),
                Some(mean) => match floats_of(tensors, node.inputs[4]) {
                    None => Err(ErrorView::Compile("BN var not found: "@ + node.inputs[4])),
                    Some(variance) => Ok(
                        NormView {
                            scale,
                            shift,
                            mean,
                            variance,
                            epsilon: node.attr_float("epsilon"@, EPSILON),
                        },
                    ),
                },
            },
        },
    }
}

/// The bias of a convolution, if it has one of floats.
pub open spec fn bias_of(conv: NodeView, tensors: Map<Seq<char>, TensorView>) -> Option<Seq<u32>> {
    if conv.inputs.len() > 2 && conv.inputs[2].len() != 0 {
        floats_of(tensors, conv.inputs[2])
    } else {
        None
    }
}

/// Whether there are parameters for all channels.
pub open spec fn has_channels(n: NormView, bias: Option<Seq<u32>>, channels: nat) -> bool {
    &&& channels <= n.scale.len()
    &&& channels <= n.shift.len()
    &&& channels <= n.mean.len()
    &&& channels <= n.variance.len()
    &&& bias matches Some(b) ==> channels <= b.len()
}

/// What folding a normalization into a convolution gives.
pub open spec fn folded_into(n: NormView, conv: NodeView, tensors: Map<Seq<char>, TensorView>) -> Result<
    FoldView,
    ErrorView,
> {
    if conv.inputs.len() < 2 {
        Err(too_few_inputs())
    } else if !tensors.dom().contains(conv.inputs[1]) {
        Err(ErrorView::Compile("Conv weight not found: "@ + conv.inputs[1]))
    } else {
        match floats_of(tensors, conv.inputs[1]) {
            None => Err(ErrorView::Compile("Conv weight must be f32"@)),
            Some(w) => {
                let dims = tensors[conv.inputs[1]].dims;
                if dims.len() == 0 || dims[0] as usize == 0 {
                    Err(ErrorView::Shape("Conv weight without channels"@))
                } else {
                    let channels = dims[0] as usize as nat;
                    let bias = bias_of(conv, tensors);
                    if !has_channels(n, bias, channels) {
                        Err(ErrorView::Shape("too few BN channels"@))
                    } else {
                        Ok(
                            FoldView {
                                weight: conv.inputs[1],
                                weights: folded_weights(n, w, channels, w.len() / channels),
                                bias: folded_bias(n, bias, channels),
                            },
                        )
                    }
                }
            },
        }
    }
}

/// What folding a normalization node gives.
pub open spec fn fold_of(
    nodes: Seq<NodeView>,
    tensors: Map<Seq<char>, TensorView>,
    node: NodeView,
) -> Result<FoldView, ErrorView> {
    if node.inputs.len() == 0 {
        Err(too_few_inputs())
    } else {
        match conv_writing(nodes, node.inputs[0], 0) {
            None => Err(
                ErrorView::Compile(
                    "BatchNorm "@ + node.name + " not preceded by Conv - cannot fold"@,
                ),
            ),
            Some(c) => if node.inputs.len() < 5 {
                Err(
                    ErrorView::Compile("BatchNorm "@ + node.name + " has insufficient inputs"@),
                )
            } else {
                match norm_of(node, tensors) {
                    Err(e) => Err(e),
                    Ok(n) => match folded_into(n, nodes[c], tensors) {
                        Err(e) => Err(e),
                        Ok(f) => if node.outputs.len() == 0 {
                            Err(no_output())
                        } else {
                            Ok(f)
                        },
                    },
                }
            },
        }
    }
}

struct Fold {
    weight: String,
    weights: Vec<u32>,
    bias: Vec<u32>,
}

impl View for Fold {
    type V = FoldView;

    closed spec fn view(&self) -> FoldView {
        FoldView { weight: self.weight@, weights: self.weights@, bias: self.bias@ }
    }
}

fn read_norm(node: &OnnxNode, tensors: &NameMap<OnnxTensor>) -> (r: Result<Norm, Error>)
    requires
        node@.inputs.len() >= 5,
    ensures
        outcome(r) == norm_of(node@, tensors@),
{
    assert(node@.inputs[1] == node.inputs@[1]@);
    assert(node@.inputs[2] == node.inputs@[2]@);
    assert(node@.inputs[3] == node.inputs@[3]@);
    assert(node@.inputs[4] == node.inputs@[4]@);
    let scale: Vec<u32> = match get_floats(tensors, node.inputs[1].as_str()) {
        Some(v) => v,
        None => {
            return Err(Error::Compile(concat2("BN scale not found: ", node.inputs[1].as_str())));
        },
    };
    let shift: Vec<u32> = match get_floats(tensors, node.inputs[2].as_str()) {
        Some(v) => v,
        None => {
            return Err(Error::Compile(concat2("BN bias not found: ", node.inputs[2].as_str())));
        },
    };
    let mean: Vec<u32> = match get_floats(tensors, node.inputs[3].as_str()) {
        Some(v) => v,
        None => {
            return Err(Error::Compile(concat2("BN mean not found: ", node.inputs[3].as_str())));
        },
    };
    let variance: Vec<u32> = match get_floats(tensors, node.inputs[4].as_str()) {
        Some(v) => v,
        None => {
            return Err(Error::Compile(concat2("BN var not found: ", node.inputs[4].as_str())));
        },
    };
    let epsilon: u32 = node.get_attr_float("epsilon", EPSILON);
    Ok(Norm { scale, shift, mean, variance, epsilon })
}

fn fold_into(n: &Norm, conv: &OnnxNode, tensors: &NameMap<OnnxTensor>) -> (r: Result<Fold, Error>)
    ensures
        outcome(r) == folded_into(n@, conv@, tensors@),
{
    if conv.inputs.len() < 2 {
        return Err(err_too_few_inputs());
    }
    assert(conv@.inputs[1] == conv.inputs@[1]@);
    let name: &str = conv.inputs[1].as_str();
    let weight: &OnnxTensor = match tensors.get(name) {
        Some(t) => t,
        None => {
            return Err(Error::Compile(concat2("Conv weight not found: ", name)));
        },
    };
    let w: Vec<u32> = match weight.as_f32_slice() {
        Some(w) => w,
        None => {
            return Err(Error::Compile("Conv weight must be f32".to_owned()));
        },
    };
    if weight.dims.len() == 0 || weight.dims[0] as usize == 0 {
        return Err(Error::Shape("Conv weight without channels".to_owned()));
    }
    let channels: usize = weight.dims[0] as usize;
    let bias: Option<Vec<u32>> = if conv.inputs.len() > 2 {
        assert(conv@.inputs[2] == conv.inputs@[2]@);
        if conv.inputs[2].as_str().unicode_len() != 0 {
            get_floats(tensors, conv.inputs[2].as_str())
        } else {
            None
        }
    } else {
        None
    };
    assert(optional(bias) == bias_of(conv@, tensors@));
    let enough: bool = match &bias {
        Some(b) => channels <= b.len(),
        None => true,
    };
    if !enough || channels > n.scale.len() || channels > n.shift.len() || channels > n.mean.len()
        || channels > n.variance.len() {
        return Err(Error::Shape("too few BN channels".to_owned()));
    }
    let per: usize = w.len() / channels;
    assert(channels * per <= w@.len()) by (nonlinear_arith)
        requires
            channels > 0,
            per == w@.len() / channels as nat,
    ;
    Ok(
        Fold {
            weight: conv.inputs[1].clone(),
            weights: fold_weights(n, &w, channels, per),
            bias: fold_bias(n, &bias, channels),
        },
    )
}

fn fold_node(nodes: &Vec<OnnxNode>, tensors: &NameMap<OnnxTensor>, node: &OnnxNode) -> (r: Result<
    Fold,
    Error,
>)
    ensures
        outcome(r) == fold_of(views(nodes@), tensors@, node@),
{
    if node.inputs.len() == 0 {
        return Err(err_too_few_inputs());
    }
    assert(node@.inputs[0] == node.inputs@[0]@);
    let c: usize = match find_conv(nodes, node.inputs[0].as_str()) {
        Some(c) => c,
        None => {
            return Err(
                Error::Compile(
                    concat3(
                        "BatchNorm ",
                        node.name.as_str(),
                        " not preceded by Conv - cannot fold",
                    ),
                ),
            );
        },
    };
    if node.inputs.len() < 5 {
        return Err(
            Error::Compile(concat3("BatchNorm ", node.name.as_str(), " has insufficient inputs")),
        );
    }
    assert(views(nodes@)[c as int] == nodes@[c as int]@);
    match read_norm(node, tensors) {
        Ok(n) => match fold_into(&n, &nodes[c], tensors) {
            Ok(f) => if node.outputs.len() == 0 {
                Err(Error::Shape("no output".to_owned()))
            } else {
                Ok(f)
            },
            Err(e) => Err(e),
        },
        Err(e) => Err(e),
    }
}

// ---------------------------------------------------------------------------
// All normalizations of a model
// ---------------------------------------------------------------------------

/// Where a weight stands among the first `n` folds.
pub open spec fn fold_place(folds: Seq<FoldView>, weight: Seq<char>, n: nat) -> Option<int>
    decreases n,
{
    if n == 0 {
        None
    } else if folds[n - 1].weight == weight {
        Some(n - 1)
    } else {
        fold_place(folds, weight, (n - 1) as nat)
    }
}

/// The folds with one more; a later one for the same weight takes the place of
/// an earlier one.
pub open spec fn put_fold(folds: Seq<FoldView>, f: FoldView) -> Seq<FoldView> {
    match fold_place(folds, f.weight, folds.len()) {
        Some(k) => folds.update(k, f),
        None => folds.push(f),
    }
}

/// The folds of the first `n` nodes, and which nodes are normalizations.
pub open spec fn folds_of(nodes: Seq<NodeView>, tensors: Map<Seq<char>, TensorView>, n: nat) -> Result<
    (Seq<FoldView>, Seq<int>),
    ErrorView,
>
    decreases n,
{
    if n == 0 {
        Ok((Seq::empty(), Seq::empty()))
    } else {
        match folds_of(nodes, tensors, (n - 1) as nat) {
            Err(e) => Err(e),
            Ok((folds, at)) => if nodes[n - 1].op_type != "BatchNormalization"@ {
                Ok((folds, at))
            } else {
                match fold_of(nodes, tensors, nodes[n - 1]) {
                    Err(e) => Err(e),
                    Ok(f) => Ok((put_fold(folds, f), at.push(n - 1))),
                }
            },
        }
    }
}

/// The first tensor from `i` on that has a name.
pub open spec fn tensor_named(tensors: Seq<TensorView>, name: Seq<char>, i: int) -> Option<int>
    decreases tensors.len() - i,
{
    if i < 0 || i >= tensors.len() {
        None
    } else if tensors[i].name == name {
        Some(i)
    } else {
        tensor_named(tensors, name, i + 1)
    }
}

/// The tensors with the data of the first one of a name replaced.
pub open spec fn with_data(tensors: Seq<TensorView>, name: Seq<char>, data: Seq<u8>) -> Seq<
    TensorView,
> {
    match tensor_named(tensors, name, 0) {
        Some(i) => tensors.update(i, TensorView { data, ..tensors[i] }),
        None => tensors,
    }
}

/// The first convolution from `i` on that uses a weight.
pub open spec fn conv_using(nodes: Seq<NodeView>, weight: Seq<char>, i: int) -> Option<int>
    decreases nodes.len() - i,
{
    if i < 0 || i >= nodes.len() {
        None
    } else if nodes[i].op_type == "Conv"@ && nodes[i].inputs.len() > 1 && nodes[i].inputs[1]
        == weight {
        Some(i)
    } else {
        conv_using(nodes, weight, i + 1)
    }
}

/// The bias tensor of a convolution; one without gets a name after its weight.
pub open spec fn bias_name(conv: NodeView, weight: Seq<char>) -> Seq<char> {
    if conv.inputs.len() > 2 && conv.inputs[2].len() != 0 {
        conv.inputs[2]
    } else {
        weight + "_bias_folded"@
    }
}

/// The inputs of a convolution that has a bias.
pub open spec fn inputs_with_bias(inputs: Seq<Seq<char>>, bias: Seq<char>) -> Seq<Seq<char>> {
    if inputs.len() > 2 {
        inputs.update(2, bias)
    } else {
        inputs.push(bias)
    }
}

/// A graph after one fold: the weight's data, and the bias of the first
/// convolution that uses the weight, which is added if it has none.
pub open spec fn with_fold(g: GraphProtoView, f: FoldView) -> GraphProtoView {
    let tensors = with_data(g.initializers, f.weight, bytes_of_words32(f.weights));
    match conv_using(g.nodes, f.weight, 0) {
        None => GraphProtoView { initializers: tensors, ..g },
        Some(c) => {
            let conv = g.nodes[c];
            let bias = bias_name(conv, f.weight);
            let data = bytes_of_words32(f.bias);
            GraphProtoView {
                nodes: g.nodes.update(
                    c,
                    NodeView { inputs: inputs_with_bias(conv.inputs, bias), ..conv },
                ),
                initializers: if tensor_named(tensors, bias, 0) is Some {
                    with_data(tensors, bias, data)
                } else {
                    tensors.push(
                        TensorView {
                            name: bias,
                            dims: seq![f.bias.len() as i64],
                            data_type: DataType::Float,
                            data,
                        },
                    )
                },
                ..g
            }
        },
    }
}

/// A graph after the first `n` folds.
pub open spec fn with_folds(g: GraphProtoView, folds: Seq<FoldView>, n: nat) -> GraphProtoView
    decreases n,
{
    if n == 0 {
        g
    } else {
        with_fold(with_folds(g, folds, (n - 1) as nat), folds[n - 1])
    }
}

/// Names with every `from` replaced by `to`.
pub open spec fn renamed(names: Seq<Seq<char>>, from: Seq<char>, to: Seq<char>) -> Seq<Seq<char>> {
    names.map_values(|x: Seq<char>| if x == from { to } else { x })
}

/// Nodes with every input `from` replaced by `to`.
pub open spec fn redirected(nodes: Seq<NodeView>, from: Seq<char>, to: Seq<char>) -> Seq<NodeView> {
    nodes.map_values(|n: NodeView| NodeView { inputs: renamed(n.inputs, from, to), ..n })
}

/// Nodes without the one at `i`; what it wrote is read from its first input instead.
pub open spec fn bypassed(nodes: Seq<NodeView>, i: int) -> Seq<NodeView> {
    redirected(nodes, nodes[i].outputs[0], nodes[i].inputs[0]).remove(i)
}

/// Nodes without those listed from `j` on, taken out last first.
pub open spec fn all_bypassed(nodes: Seq<NodeView>, at: Seq<int>, j: int) -> Seq<NodeView>
    decreases at.len() - j,
{
    if j < 0 || j >= at.len() {
        nodes
    } else {
        bypassed(all_bypassed(nodes, at, j + 1), at[j])
    }
}

/// Graph outputs with the name `from` replaced by `to`.
pub open spec fn outputs_redirected(
    outputs: Seq<ValueInfoView>,
    from: Seq<char>,
    to: Seq<char>,
) -> Seq<ValueInfoView> {
    outputs.map_values(
        |v: ValueInfoView|
            if v.name == from {
                ValueInfoView { name: to, ..v }
            } else {
                v
            },
    )
}

/// Graph outputs after the nodes listed from `j` on are taken out.
pub open spec fn outputs_bypassed(
    outputs: Seq<ValueInfoView>,
    nodes: Seq<NodeView>,
    at: Seq<int>,
    j: int,
) -> Seq<ValueInfoView>
    decreases at.len() - j,
{
    if j < 0 || j >= at.len() {
        outputs
    } else {
        let gone = all_bypassed(nodes, at, j + 1)[at[j]];
        outputs_redirected(
            outputs_bypassed(outputs, nodes, at, j + 1),
            gone.outputs[0],
            gone.inputs[0],
        )
    }
}

/// A model with its normalizations folded.
pub open spec fn bn_folded(m: ModelView) -> Result<ModelView, ErrorView> {
    let g = m.graph;
    let tensors = tensors_by_name(g.initializers, g.initializers.len());
    match folds_of(g.nodes, tensors, g.nodes.len()) {
        Err(e) => Err(e),
        Ok((folds, at)) => {
            let h = with_folds(g, folds, folds.len());
            Ok(
                ModelView {
                    graph: GraphProtoView {
                        nodes: all_bypassed(h.nodes, at, 0),
                        outputs: outputs_bypassed(h.outputs, h.nodes, at, 0),
                        ..h
                    },
                    ..m
                },
            )
        },
    }
}

fn place_fold(folds: &mut Vec<Fold>, f: Fold)
    ensures
        views(final(folds)@) == put_fold(views(old(folds)@), f@),
{
    broadcast use lemma_views_push;

    let ghost all = views(folds@);
    let ghost v = f@;
    let mut n: usize = folds.len();
    while n > 0
        invariant
            n <= folds@.len(),
            v == f@,
            all == views(folds@),
            all == views(old(folds)@),
            fold_place(all, v.weight, all.len()) == fold_place(all, v.weight, n as nat),
        decreases n,
    {
        assert(all[n - 1] == folds@[n - 1]@);
        if str_eq(folds[n - 1].weight.as_str(), f.weight.as_str()) {
            folds.set(n - 1, f);
            assert(views(folds@) =~= all.update(n - 1, v));
            return;
        }
        n = n - 1;
    }
    folds.push(f);
}

fn find_tensor(tensors: &Vec<OnnxTensor>, name: &str) -> (r: Option<usize>)
    ensures
        tensor_named(views(tensors@), name@, 0) == match r {
            Some(i) => Some(i as int),
            None => None,
        },
        r matches Some(i) ==> i < tensors@.len(),
{
    let mut i: usize = 0;
    while i < tensors.len()
        invariant
            i <= tensors@.len(),
            tensor_named(views(tensors@), name@, 0) == tensor_named(
                views(tensors@),
                name@,
                i as int,
            ),
        decreases tensors@.len() - i,
    {
        assert(views(tensors@)[i as int] == tensors@[i as int]@);
        if str_eq(tensors[i].name.as_str(), name) {
            return Some(i);
        }
        i = i + 1;
    }
    None
}

fn set_data(tensors: &mut Vec<OnnxTensor>, name: &str, data: Vec<u8>) -> (r: bool)
    ensures
        r == tensor_named(views(old(tensors)@), name@, 0) is Some,
        views(final(tensors)@) == with_data(views(old(tensors)@), name@, data@),
{
    match find_tensor(tensors, name) {
        Some(i) => {
            let ghost before = views(tensors@);
            let mut t: OnnxTensor = tensors[i].clone();
            t.data = data;
            let ghost v = t@;
            tensors.set(i, t);
            assert(before[i as int] == old(tensors)@[i as int]@);
            assert(views(tensors@) =~= before.update(i as int, v));
            true
        },
        None => false,
    }
}

fn find_conv_using(nodes: &Vec<OnnxNode>, weight: &str) -> (r: Option<usize>)
    ensures
        conv_using(views(nodes@), weight@, 0) == match r {
            Some(i) => Some(i as int),
            None => None,
        },
        r matches Some(i) ==> i < nodes@.len(),
{
    let mut i: usize = 0;
    while i < nodes.len()
        invariant
            i <= nodes@.len(),
            conv_using(views(nodes@), weight@, 0) == conv_using(views(nodes@), weight@, i as int),
        decreases nodes@.len() - i,
    {
        assert(views(nodes@)[i as int] == nodes@[i as int]@);
        if str_eq(nodes[i].op_type.as_str(), "Conv") && nodes[i].inputs.len() > 1 {
            assert(nodes@[i as int]@.inputs[1] == nodes@[i as int].inputs@[1]@);
            if str_eq(nodes[i].inputs[1].as_str(), weight) {
                return Some(i);
            }
        }
        i = i + 1;
    }
    None
}

fn apply_fold(model: &mut Model, f: &Fold)
    ensures
        final(model)@ == (ModelView { graph: with_fold(old(model)@.graph, f@), ..old(model)@ }),
{
    let found: bool = set_data(
        &mut model.initializers,
        f.weight.as_str(),
        from_words32(&f.weights),
    );
    let c: usize = match find_conv_using(&model.nodes, f.weight.as_str()) {
        Some(c) => c,
        None => {
            return;
        },
    };
    let mut conv: OnnxNode = model.nodes[c].clone();
    let ghost before = views(model.nodes@);
    assert(before[c as int] == conv@);
    let named: bool = if conv.inputs.len() > 2 {
        assert(conv@.inputs[2] == conv.inputs@[2]@);
        conv.inputs[2].as_str().unicode_len() != 0
    } else {
        false
    };
    let bias: String = if named {
        conv.inputs[2].clone()
    } else {
        concat2(f.weight.as_str(), "_bias_folded")
    };
    let ghost was = conv@;
    assert(bias@ == bias_name(was, f@.weight));
    if conv.inputs.len() > 2 {
        conv.inputs.set(2, bias.clone());
        assert(views(conv.inputs@) =~= was.inputs.update(2, bias@));
    } else {
        conv.inputs.push(bias.clone());
        assert(views(conv.inputs@) =~= was.inputs.push(bias@));
    }
    let ghost new = conv@;
    model.nodes.set(c, conv);
    assert(views(model.nodes@) =~= before.update(c as int, new));
    let data: Vec<u8> = from_words32(&f.bias);
    if !set_data(&mut model.initializers, bias.as_str(), copy_vec(&data)) {
        broadcast use lemma_views_push;

        let dims: Vec<i64> = vec![f.bias.len() as i64];
        assert(dims@ =~= seq![f@.bias.len() as i64]);
        model.initializers.push(
            OnnxTensor { name: bias, dims, data_type: DataType::Float, data },
        );
    }
}

fn rename_inputs(node: &OnnxNode, from: &str, to: &str) -> (r: OnnxNode)
    ensures
        r@ == (NodeView { inputs: renamed(node@.inputs, from@, to@), ..node@ }),
{
    let mut r: OnnxNode = node.clone();
    let ghost all = renamed(node@.inputs, from@, to@);
    let mut inputs: Vec<String> = Vec::new();
    let mut i: usize = 0;
    assert(views(inputs@) =~= all.take(0));
    while i < node.inputs.len()
        invariant
            i <= node.inputs@.len(),
            all == renamed(node@.inputs, from@, to@),
            views(inputs@) == all.take(i as int),
        decreases node.inputs@.len() - i,
    {
        broadcast use lemma_views_push;

        assert(node@.inputs[i as int] == node.inputs@[i as int]@);
        let name: String = if str_eq(node.inputs[i].as_str(), from) {
            to.to_owned()
        } else {
            node.inputs[i].clone()
        };
        let ghost before = views(inputs@);
        let ghost v = name@;
        inputs.push(name);
        i = i + 1;
        assert(before.push(v) =~= all.take(i as int));
    }
    assert(all.take(i as int) =~= all);
    r.inputs = inputs;
    r
}

fn bypass(nodes: &mut Vec<OnnxNode>, at: usize)
    requires
        at < old(nodes)@.len(),
        old(nodes)@[at as int]@.outputs.len() > 0,
        old(nodes)@[at as int]@.inputs.len() > 0,
    ensures
        views(final(nodes)@) == bypassed(views(old(nodes)@), at as int),
{
    let ghost was = views(nodes@);
    let from: String = nodes[at].outputs[0].clone();
    let to: String = nodes[at].inputs[0].clone();
    let ghost all = redirected(was, from@, to@);
    assert(was[at as int] == nodes@[at as int]@);
    let mut out: Vec<OnnxNode> = Vec::new();
    let mut i: usize = 0;
    assert(views(out@) =~= all.take(0));
    while i < nodes.len()
        invariant
            i <= nodes@.len(),
            was == views(nodes@),
            all == redirected(was, from@, to@),
            views(out@) == all.take(i as int),
        decreases nodes@.len() - i,
    {
        broadcast use lemma_views_push;

        assert(was[i as int] == nodes@[i as int]@);
        let ghost before = views(out@);
        let node: OnnxNode = rename_inputs(&nodes[i], from.as_str(), to.as_str());
        let ghost v = node@;
        out.push(node);
        i = i + 1;
        assert(before.push(v) =~= all.take(i as int));
    }
    assert(all.take(i as int) =~= all);
    let gone: OnnxNode = out.remove(at);
    assert(views(out@) =~= all.remove(at as int));
    *nodes = out;
}

fn redirect_outputs(outputs: &mut Vec<ValueInfo>, from: &str, to: &str)
    ensures
        views(final(outputs)@) == outputs_redirected(views(old(outputs)@), from@, to@),
{
    let ghost was = views(outputs@);
    let ghost all = outputs_redirected(was, from@, to@);
    let mut out: Vec<ValueInfo> = Vec::new();
    let mut i: usize = 0;
    assert(views(out@) =~= all.take(0));
    while i < outputs.len()
        invariant
            i <= outputs@.len(),
            was == views(outputs@),
            all == outputs_redirected(was, from@, to@),
            views(out@) == all.take(i as int),
        decreases outputs@.len() - i,
    {
        broadcast use lemma_views_push;

        assert(was[i as int] == outputs@[i as int]@);
        let ghost before = views(out@);
        let mut v: ValueInfo = outputs[i].clone();
        if str_eq(v.name.as_str(), from) {
            v.name = to.to_owned();
        }
        let ghost w = v@;
        out.push(v);
        i = i + 1;
        assert(before.push(w) =~= all.take(i as int));
    }
    assert(all.take(i as int) =~= all);
    *outputs = out;
}

/// Strictly ascending numbers below a bound.
spec fn ascending(at: Seq<int>, bound: int) -> bool {
    &&& forall|k: int| 0 <= k < at.len() ==> 0 <= #[trigger] at[k] < bound
    &&& forall|i: int, k: int| 0 <= i < k < at.len() ==> #[trigger] at[i] < #[trigger] at[k]
}

/// The list of normalizations holds exactly them, in order.
proof fn lemma_folds_of(nodes: Seq<NodeView>, tensors: Map<Seq<char>, TensorView>, n: nat)
    requires
        n <= nodes.len(),
        folds_of(nodes, tensors, n) is Ok,
    ensures
        ascending(folds_of(nodes, tensors, n)->Ok_0.1, n as int),
        forall|k: int|
            0 <= k < folds_of(nodes, tensors, n)->Ok_0.1.len() ==> {
                let b = nodes[#[trigger] folds_of(nodes, tensors, n)->Ok_0.1[k]];
                b.op_type == "BatchNormalization"@ && b.inputs.len() > 0 && b.outputs.len() > 0
            },
        forall|i: int|
            0 <= i < n && (#[trigger] nodes[i]).op_type == "BatchNormalization"@ ==> folds_of(
                nodes,
                tensors,
                n,
            )->Ok_0.1.contains(i),
    decreases n,
{
    if n > 0 {
        lemma_folds_of(nodes, tensors, (n - 1) as nat);
        let before = folds_of(nodes, tensors, (n - 1) as nat)->Ok_0.1;
        let at = folds_of(nodes, tensors, n)->Ok_0.1;
        if nodes[n - 1].op_type == "BatchNormalization"@ {
            assert(at == before.push(n - 1));
            assert forall|i: int|
                0 <= i < n && (#[trigger] nodes[i]).op_type
                    == "BatchNormalization"@ implies at.contains(i) by {
                if i < n - 1 {
                    let k = choose|k: int| 0 <= k < before.len() && before[k] == i;
                    assert(at[k] == i);
                } else {
                    assert(at[before.len() as int] == i);
                }
            }
        }
    }
}

proof fn lemma_conv_using_bound(nodes: Seq<NodeView>, weight: Seq<char>, i: int)
    requires
        0 <= i,
    ensures
        conv_using(nodes, weight, i) matches Some(c) ==> 0 <= c < nodes.len() && nodes[c].op_type
            == "Conv"@,
    decreases nodes.len() - i,
{
    if i < nodes.len() {
        lemma_conv_using_bound(nodes, weight, i + 1);
    }
}

/// Folds leave every node in place with its type and outputs.
proof fn lemma_with_folds(g: GraphProtoView, folds: Seq<FoldView>, n: nat)
    ensures
        with_folds(g, folds, n).nodes.len() == g.nodes.len(),
        with_folds(g, folds, n).inputs == g.inputs,
        with_folds(g, folds, n).outputs == g.outputs,
        forall|i: int|
            0 <= i < g.nodes.len() ==> {
                let h = #[trigger] with_folds(g, folds, n).nodes[i];
                h.op_type == g.nodes[i].op_type && h.outputs == g.nodes[i].outputs && h.name
                    == g.nodes[i].name && h.inputs.len() >= g.nodes[i].inputs.len() && (
                g.nodes[i].op_type != "Conv"@ ==> h.inputs == g.nodes[i].inputs)
            },
    decreases n,
{
    if n > 0 {
        lemma_with_folds(g, folds, (n - 1) as nat);
        let before = with_folds(g, folds, (n - 1) as nat);
        lemma_conv_using_bound(before.nodes, folds[n - 1].weight, 0);
        assert forall|i: int| 0 <= i < g.nodes.len() implies {
            let h = #[trigger] with_folds(g, folds, n).nodes[i];
            h.op_type == g.nodes[i].op_type && h.outputs == g.nodes[i].outputs && h.name
                == g.nodes[i].name && h.inputs.len() >= g.nodes[i].inputs.len() && (
            g.nodes[i].op_type != "Conv"@ ==> h.inputs == g.nodes[i].inputs)
        } by {
            let b = before.nodes[i];
            assert(b.op_type == g.nodes[i].op_type);
        }
    }
}

/// A node that is left comes from one that is not listed from `j` on.
spec fn comes_from(nodes: Seq<NodeView>, at: Seq<int>, j: int, node: NodeView, q: int) -> bool {
    &&& 0 <= q < nodes.len()
    &&& forall|k: int| j <= k < at.len() ==> #[trigger] at[k] != q
    &&& node.op_type == nodes[q].op_type
    &&& node.outputs == nodes[q].outputs
}

/// What stands at `p` comes from a node at `p` or later.
spec fn is_left(nodes: Seq<NodeView>, at: Seq<int>, j: int, p: int) -> bool {
    exists|q: int| p <= q && comes_from(nodes, at, j, all_bypassed(nodes, at, j)[p], q)
}

proof fn lemma_all_bypassed(nodes: Seq<NodeView>, at: Seq<int>, j: int)
    requires
        ascending(at, nodes.len() as int),
        0 <= j <= at.len(),
    ensures
        all_bypassed(nodes, at, j).len() == nodes.len() - (at.len() - j),
        forall|p: int|
            0 <= p < (if j < at.len() { at[j] } else { nodes.len() as int }) ==> {
                let n = #[trigger] all_bypassed(nodes, at, j)[p];
                p < all_bypassed(nodes, at, j).len() && n.op_type == nodes[p].op_type && n.outputs
                    == nodes[p].outputs && n.inputs.len() == nodes[p].inputs.len()
            },
        j < at.len() ==> at[j] <= all_bypassed(nodes, at, j).len(),
        forall|p: int|
            0 <= p < all_bypassed(nodes, at, j).len() ==> #[trigger] is_left(nodes, at, j, p),
    decreases at.len() - j,
{
    if j < at.len() {
        lemma_all_bypassed(nodes, at, j + 1);
        let before = all_bypassed(nodes, at, j + 1);
        let x = at[j];
        assert(j + 1 < at.len() ==> x < at[j + 1]);
        assert(x < before.len());
        let moved = redirected(before, before[x].outputs[0], before[x].inputs[0]);
        let after = all_bypassed(nodes, at, j);
        assert(after == moved.remove(x));
        assert forall|p: int| 0 <= p < x implies {
            let n = #[trigger] after[p];
            p < after.len() && n.op_type == nodes[p].op_type && n.outputs == nodes[p].outputs
                && n.inputs.len() == nodes[p].inputs.len()
        } by {
            let n = before[p];
            assert(n.op_type == nodes[p].op_type);
            assert(moved[p].inputs.len() == n.inputs.len());
        }
        assert forall|p: int| 0 <= p < after.len() implies #[trigger] is_left(nodes, at, j, p) by {
            if p < x {
                assert(before[p].op_type == nodes[p].op_type);
                assert(comes_from(nodes, at, j, after[p], p));
            } else {
                let next = j + 1;
                let node = before[p + 1];
                assert(is_left(nodes, at, next, p + 1));
                let q = choose|q: int|
                    p + 1 <= q && #[trigger] comes_from(nodes, at, next, node, q);
                assert(comes_from(nodes, at, next, node, q));
                assert(comes_from(nodes, at, j, after[p], q));
            }
        }
    } else {
        assert(all_bypassed(nodes, at, j) == nodes);
        assert forall|p: int| 0 <= p < nodes.len() implies #[trigger] is_left(nodes, at, j, p) by {
            assert(comes_from(nodes, at, j, nodes[p], p));
        }
    }
}

proof fn lemma_folds_prefix(nodes: Seq<NodeView>, tensors: Map<Seq<char>, TensorView>, n: nat, m: nat)
    requires
        n <= m,
    ensures
        folds_of(nodes, tensors, n) is Err ==> folds_of(nodes, tensors, m) == folds_of(
            nodes,
            tensors,
            n,
        ),
    decreases m,
{
    if n < m {
        lemma_folds_prefix(nodes, tensors, n, (m - 1) as nat);
    }
}

spec fn indices(v: Seq<usize>) -> Seq<int> {
    v.map_values(|x: usize| x as int)
}

/// Fold BatchNormalization into preceding Conv.
///
/// This modifies the model in place, removing BN nodes and adjusting
/// Conv weights/biases. If a normalization cannot be folded, the model is left
/// as it is.
pub fn fold_batchnorm(model: &mut Model) -> (r: Result<(), Error>)
    ensures
        match bn_folded(old(model)@) {
            Ok(m) => r is Ok && final(model)@ == m,
            Err(e) => (r matches Err(x) && x@ == e) && final(model)@ == old(model)@,
        },
{
    let ghost g = model@.graph;
    let tensors: NameMap<OnnxTensor> = index_tensors(&model.initializers);
    let ghost t = tensors@;
    let mut folds: Vec<Fold> = Vec::new();
    let mut at: Vec<usize> = Vec::new();
    let mut i: usize = 0;
    proof {
        assert(views(folds@) =~= Seq::empty());
        assert(indices(at@) =~= Seq::empty());
    }
    while i < model.nodes.len()
        invariant
            i <= model.nodes@.len(),
            model@ == old(model)@,
            g == model@.graph,
            t == tensors@,
            t == tensors_by_name(g.initializers, g.initializers.len()),
            folds_of(g.nodes, t, i as nat) == Ok::<(Seq<FoldView>, Seq<int>), ErrorView>(
                (views(folds@), indices(at@)),
            ),
        decreases model.nodes@.len() - i,
    {
        let node: &OnnxNode = &model.nodes[i];
        assert(g.nodes[i as int] == node@);
        proof {
            lemma_folds_prefix(g.nodes, t, (i + 1) as nat, g.nodes.len());
        }
        if str_eq(node.op_type.as_str(), "BatchNormalization") {
            match fold_node(&model.nodes, &tensors, node) {
                Ok(f) => {
                    let ghost before = indices(at@);
                    place_fold(&mut folds, f);
                    at.push(i);
                    assert(indices(at@) =~= before.push(i as int));
                },
                Err(e) => {
                    return Err(e);
                },
            }
        }
        i = i + 1;
    }
    let ghost list = views(folds@);
    let ghost places = indices(at@);
    let mut k: usize = 0;
    while k < folds.len()
        invariant
            k <= folds@.len(),
            list == views(folds@),
            g == old(model)@.graph,
            model@ == (ModelView { graph: with_folds(g, list, k as nat), ..old(model)@ }),
        decreases folds@.len() - k,
    {
        assert(list[k as int] == folds@[k as int]@);
        apply_fold(model, &folds[k]);
        k = k + 1;
    }
    let ghost h = with_folds(g, list, list.len());
    proof {
        lemma_folds_of(g.nodes, t, g.nodes.len());
        lemma_with_folds(g, list, list.len());
    }
    let mut j: usize = at.len();
    while j > 0
        invariant
            j <= at@.len(),
            places == indices(at@),
            g == old(model)@.graph,
            h == with_folds(g, list, list.len()),
            h.nodes.len() == g.nodes.len(),
            ascending(places, g.nodes.len() as int),
            forall|x: int|
                0 <= x < places.len() ==> g.nodes[#[trigger] places[x]].inputs.len() > 0
                    && g.nodes[places[x]].outputs.len() > 0,
            forall|x: int|
                0 <= x < g.nodes.len() ==> {
                    let n = #[trigger] h.nodes[x];
                    n.outputs == g.nodes[x].outputs && n.inputs.len() >= g.nodes[x].inputs.len()
                },
            model@ == (ModelView {
                graph: GraphProtoView {
                    nodes: all_bypassed(h.nodes, places, j as int),
                    outputs: outputs_bypassed(h.outputs, h.nodes, places, j as int),
                    ..h
                },
                ..old(model)@
            }),
        decreases j,
    {
        j = j - 1;
        proof {
            lemma_all_bypassed(h.nodes, places, j + 1);
            let x = places[j as int];
            assert(x == at@[j as int]);
            assert(j + 1 < places.len() ==> x < places[j + 1]);
            let n = all_bypassed(h.nodes, places, j + 1)[x];
            assert(n.outputs == h.nodes[x].outputs);
            assert(views(model.nodes@)[x] == model.nodes@[x]@);
        }
        let gone: usize = at[j];
        let from: String = model.nodes[gone].outputs[0].clone();
        let to: String = model.nodes[gone].inputs[0].clone();
        redirect_outputs(&mut model.outputs, from.as_str(), to.as_str());
        bypass(&mut model.nodes, gone);
    }
    Ok(())
}

/// After folding there is no BatchNormalization left, and as many nodes fewer
/// as there were.
pub proof fn law_no_batchnorm_left(m: ModelView)
    requires
        bn_folded(m) is Ok,
    ensures
        forall|i: int|
            0 <= i < bn_folded(m)->Ok_0.graph.nodes.len() ==> (
            #[trigger] bn_folded(m)->Ok_0.graph.nodes[i]).op_type != "BatchNormalization"@,
        bn_folded(m)->Ok_0.graph.nodes.len() == m.graph.nodes.len() - norm_count(
            m.graph.nodes,
            m.graph.nodes.len(),
        ),
{
    let g = m.graph;
    let t = tensors_by_name(g.initializers, g.initializers.len());
    let (folds, at) = folds_of(g.nodes, t, g.nodes.len())->Ok_0;
    let h = with_folds(g, folds, folds.len());
    lemma_folds_of(g.nodes, t, g.nodes.len());
    lemma_with_folds(g, folds, folds.len());
    lemma_all_bypassed(h.nodes, at, 0);
    lemma_norm_count(g.nodes, t, g.nodes.len());
    let out = all_bypassed(h.nodes, at, 0);
    assert forall|i: int| 0 <= i < out.len() implies (#[trigger] out[i]).op_type
        != "BatchNormalization"@ by {
        assert(is_left(h.nodes, at, 0, i));
        let q = choose|q: int| i <= q && comes_from(h.nodes, at, 0, out[i], q);
        assert(comes_from(h.nodes, at, 0, out[i], q));
        assert(h.nodes[q].op_type == g.nodes[q].op_type);
        if g.nodes[q].op_type == "BatchNormalization"@ {
            let k = choose|k: int| 0 <= k < at.len() && at[k] == q;
            assert(at[k] == q);
        }
    }
}

proof fn lemma_no_folds(nodes: Seq<NodeView>, tensors: Map<Seq<char>, TensorView>, n: nat)
    requires
        n <= nodes.len(),
        forall|i: int|
            0 <= i < nodes.len() ==> (#[trigger] nodes[i]).op_type != "BatchNormalization"@,
    ensures
        folds_of(nodes, tensors, n) == Ok::<(Seq<FoldView>, Seq<int>), ErrorView>(
            (Seq::empty(), Seq::empty()),
        ),
    decreases n,
{
    if n > 0 {
        lemma_no_folds(nodes, tensors, (n - 1) as nat);
    }
}

/// A name that a node which is not listed writes.
spec fn lasts(nodes: Seq<NodeView>, at: Seq<int>, name: Seq<char>) -> bool {
    exists|q: int|
        0 <= q < nodes.len() && !at.contains(q) && (#[trigger] nodes[q]).outputs.contains(name)
}

/// A node that is not listed is left.
proof fn lemma_unlisted_is_left(nodes: Seq<NodeView>, at: Seq<int>, j: int, q: int) -> (p: int)
    requires
        ascending(at, nodes.len() as int),
        0 <= j <= at.len(),
        0 <= q < nodes.len(),
        forall|k: int| j <= k < at.len() ==> #[trigger] at[k] != q,
    ensures
        0 <= p < all_bypassed(nodes, at, j).len(),
        all_bypassed(nodes, at, j)[p].outputs == nodes[q].outputs,
        p <= q,
        j == at.len() ==> p == q,
        j < at.len() && q < at[j] ==> p == q,
        j < at.len() && q > at[j] ==> p >= at[j],
    decreases at.len() - j,
{
    if j < at.len() {
        let b = lemma_unlisted_is_left(nodes, at, j + 1, q);
        lemma_all_bypassed(nodes, at, j + 1);
        let before = all_bypassed(nodes, at, j + 1);
        let x = at[j];
        assert(j + 1 < at.len() ==> x < at[j + 1]);
        let moved = redirected(before, before[x].outputs[0], before[x].inputs[0]);
        assert(all_bypassed(nodes, at, j) == moved.remove(x));
        assert(moved[b].outputs == before[b].outputs);
        if q < x {
            assert(b == q);
            b
        } else {
            assert(b > x);
            b - 1
        }
    } else {
        q
    }
}

/// What a listed node reads first is a name that lasts, whatever was taken out after it.
proof fn lemma_input_lasts(nodes: Seq<NodeView>, at: Seq<int>, j: int, k: int)
    requires
        ascending(at, nodes.len() as int),
        0 <= k < j <= at.len(),
        forall|x: int|
            0 <= x < at.len() ==> nodes[#[trigger] at[x]].inputs.len() > 0 && lasts(
                nodes,
                at,
                nodes[at[x]].inputs[0],
            ),
    ensures
        lasts(nodes, at, all_bypassed(nodes, at, j)[at[k]].inputs[0]),
    decreases at.len() - j,
{
    if j < at.len() {
        lemma_input_lasts(nodes, at, j + 1, k);
        lemma_input_lasts(nodes, at, j + 1, j);
        lemma_all_bypassed(nodes, at, j + 1);
        let before = all_bypassed(nodes, at, j + 1);
        let x = at[j];
        assert(at[k] < x);
        assert(j + 1 < at.len() ==> x < at[j + 1]);
        let moved = redirected(before, before[x].outputs[0], before[x].inputs[0]);
        assert(all_bypassed(nodes, at, j) == moved.remove(x));
        assert(before[at[k]].inputs.len() == nodes[at[k]].inputs.len());
    } else {
        assert(nodes[at[k]].inputs.len() > 0);
    }
}

/// A graph output names something that lasts, or what a node to be taken out writes first.
proof fn lemma_output_lasts(
    outputs: Seq<ValueInfoView>,
    nodes: Seq<NodeView>,
    at: Seq<int>,
    j: int,
    i: int,
)
    requires
        ascending(at, nodes.len() as int),
        0 <= j <= at.len(),
        0 <= i < outputs.len(),
        forall|x: int|
            0 <= x < at.len() ==> nodes[#[trigger] at[x]].outputs.len() > 0
                && nodes[at[x]].inputs.len() > 0 && lasts(nodes, at, nodes[at[x]].inputs[0]),
        lasts(nodes, at, outputs[i].name) || exists|k: int|
            0 <= k < at.len() && nodes[#[trigger] at[k]].outputs[0] == outputs[i].name,
    ensures
        outputs_bypassed(outputs, nodes, at, j).len() == outputs.len(),
        ({
            let name = outputs_bypassed(outputs, nodes, at, j)[i].name;
            lasts(nodes, at, name) || exists|k: int|
                0 <= k < j && nodes[#[trigger] at[k]].outputs[0] == name
        }),
    decreases at.len() - j,
{
    if j < at.len() {
        lemma_output_lasts(outputs, nodes, at, j + 1, i);
        lemma_input_lasts(nodes, at, j + 1, j);
        lemma_all_bypassed(nodes, at, j + 1);
        let gone = all_bypassed(nodes, at, j + 1)[at[j]];
        assert(j + 1 < at.len() ==> at[j] < at[j + 1]);
        assert(gone.outputs == nodes[at[j]].outputs);
        let before = outputs_bypassed(outputs, nodes, at, j + 1)[i].name;
        if before != gone.outputs[0] && !lasts(nodes, at, before) {
            let k = choose|k: int| 0 <= k < j + 1 && nodes[#[trigger] at[k]].outputs[0] == before;
            assert(k < j);
            assert(nodes[at[k]].outputs[0] == before);
        }
    }
}

proof fn lemma_conv_writing(nodes: Seq<NodeView>, name: Seq<char>, i: int)
    requires
        0 <= i,
    ensures
        conv_writing(nodes, name, i) matches Some(c) ==> 0 <= c < nodes.len() && nodes[c].op_type
            == "Conv"@ && nodes[c].outputs.contains(name),
    decreases nodes.len() - i,
{
    if i < nodes.len() {
        lemma_conv_writing(nodes, name, i + 1);
    }
}

/// Every normalization that folds reads what a convolution writes.
proof fn lemma_folds_read_convs(
    nodes: Seq<NodeView>,
    tensors: Map<Seq<char>, TensorView>,
    n: nat,
    k: int,
)
    requires
        n <= nodes.len(),
        folds_of(nodes, tensors, n) is Ok,
        0 <= k < folds_of(nodes, tensors, n)->Ok_0.1.len(),
    ensures
        conv_writing(nodes, nodes[folds_of(nodes, tensors, n)->Ok_0.1[k]].inputs[0], 0) is Some,
    decreases n,
{
    let before = folds_of(nodes, tensors, (n - 1) as nat)->Ok_0.1;
    if nodes[n - 1].op_type != "BatchNormalization"@ || k < before.len() {
        lemma_folds_read_convs(nodes, tensors, (n - 1) as nat, k);
    }
}

/// Whether a node writes a name, a normalization as its first output.
pub open spec fn is_written(nodes: Seq<NodeView>, name: Seq<char>) -> bool {
    exists|q: int|
        0 <= q < nodes.len() && (#[trigger] nodes[q]).outputs.contains(name) && (nodes[q].op_type
            == "BatchNormalization"@ ==> nodes[q].outputs[0] == name)
}

/// Every graph output that a node wrote before folding is written by a node
/// after it. (Only the first output of a normalization lives on.)
pub proof fn law_outputs_are_written(m: ModelView, i: int)
    requires
        bn_folded(m) is Ok,
        0 <= i < m.graph.outputs.len(),
        is_written(m.graph.nodes, m.graph.outputs[i].name),
    ensures
        bn_folded(m)->Ok_0.graph.outputs.len() == m.graph.outputs.len(),
        is_written(bn_folded(m)->Ok_0.graph.nodes, bn_folded(m)->Ok_0.graph.outputs[i].name),
{
    let g = m.graph;
    let t = tensors_by_name(g.initializers, g.initializers.len());
    let (folds, at) = folds_of(g.nodes, t, g.nodes.len())->Ok_0;
    let h = with_folds(g, folds, folds.len());
    lemma_folds_of(g.nodes, t, g.nodes.len());
    lemma_with_folds(g, folds, folds.len());
    reveal_strlit("Conv");
    reveal_strlit("BatchNormalization");
    assert("Conv"@.len() != "BatchNormalization"@.len());
    assert forall|x: int| 0 <= x < at.len() implies h.nodes[#[trigger] at[x]].outputs.len() > 0
        && h.nodes[at[x]].inputs.len() > 0 && lasts(h.nodes, at, h.nodes[at[x]].inputs[0]) by {
        let b = g.nodes[at[x]];
        assert(b.op_type == "BatchNormalization"@);
        lemma_folds_read_convs(g.nodes, t, g.nodes.len(), x);
        lemma_conv_writing(g.nodes, b.inputs[0], 0);
        let c = conv_writing(g.nodes, b.inputs[0], 0)->0;
        assert(h.nodes[at[x]].inputs == b.inputs);
        assert(h.nodes[c].outputs == g.nodes[c].outputs);
        if at.contains(c) {
            let y = choose|y: int| 0 <= y < at.len() && at[y] == c;
            assert(g.nodes[at[y]].op_type == "BatchNormalization"@);
        }
    }
    let name = g.outputs[i].name;
    let q = choose|q: int|
        0 <= q < g.nodes.len() && (#[trigger] g.nodes[q]).outputs.contains(name) && (
        g.nodes[q].op_type == "BatchNormalization"@ ==> g.nodes[q].outputs[0] == name);
    assert(h.nodes[q].outputs == g.nodes[q].outputs);
    if at.contains(q) {
        let y = choose|y: int| 0 <= y < at.len() && at[y] == q;
        assert(g.nodes[at[y]].op_type == "BatchNormalization"@);
        assert(h.nodes[at[y]].outputs[0] == name);
    } else {
        assert(lasts(h.nodes, at, name));
    }
    lemma_output_lasts(h.outputs, h.nodes, at, 0, i);
    let new = outputs_bypassed(h.outputs, h.nodes, at, 0)[i].name;
    let w = choose|w: int|
        0 <= w < h.nodes.len() && !at.contains(w) && (#[trigger] h.nodes[w]).outputs.contains(new);
    assert forall|k: int| 0 <= k < at.len() implies #[trigger] at[k] != w by {
        assert(at.contains(at[k]));
    }
    let p = lemma_unlisted_is_left(h.nodes, at, 0, w);
    law_no_batchnorm_left(m);
    let out = all_bypassed(h.nodes, at, 0);
    assert(out[p].outputs.contains(new));
    assert(out[p].op_type != "BatchNormalization"@);
}

/// A model without BatchNormalization stays as it is.
pub proof fn law_nothing_to_normalize(m: ModelView)
    requires
        forall|i: int|
            0 <= i < m.graph.nodes.len() ==> (#[trigger] m.graph.nodes[i]).op_type
                != "BatchNormalization"@,
    ensures
        bn_folded(m) == Ok::<ModelView, ErrorView>(m),
{
    let g = m.graph;
    lemma_no_folds(g.nodes, tensors_by_name(g.initializers, g.initializers.len()), g.nodes.len());
}

/// How many of the first `n` nodes are normalizations.
pub open spec fn norm_count(nodes: Seq<NodeView>, n: nat) -> nat
    decreases n,
{
    if n == 0 {
        0
    } else {
        norm_count(nodes, (n - 1) as nat) + if nodes[n - 1].op_type == "BatchNormalization"@ {
            1nat
        } else {
            0
        }
    }
}

proof fn lemma_norm_count(nodes: Seq<NodeView>, tensors: Map<Seq<char>, TensorView>, n: nat)
    requires
        folds_of(nodes, tensors, n) is Ok,
    ensures
        folds_of(nodes, tensors, n)->Ok_0.1.len() == norm_count(nodes, n),
    decreases n,
{
    if n > 0 {
        lemma_norm_count(nodes, tensors, (n - 1) as nat);
    }
}

} // verus!
