//! Op fusion passes for graph optimization.
//!
//! Four patterns are fused:
//!
//! - a convolution whose result only feeds a Relu,
//! - a convolution whose result only feeds the addition of a bias per channel,
//!   whose result only feeds a Relu,
//! - `x * sigmoid(x)` (SiLU), where the sigmoid only feeds the product,
//! - an INT8 convolution and the requantization of its accumulator, which both
//!   write the same tensor, with a Relu after them if that is all the tensor
//!   feeds.
//!
//! An output of the graph feeds its caller, as one more reader. The patterns do
//! not overlap, so each op is looked at in the graph as it was before any fusion.
//!
//! Runtimes that have no kernel for a fused op take it apart again.

use vstd::prelude::*;
use vstd::string::*;
use crate::builder::{CompiledOp, OpParams, OpView, ParamsView};
use crate::graph::{contains_name, Graph, GraphView};
use crate::model::{copy_names, lemma_views_push, views};
use crate::tensor::TensorShape;
use crate::text::{concat2, str_eq};

pub mod meaning;
pub mod parts;
pub mod running;

verus! {

/// Fused operation parameters.
#[derive(Debug)]
pub enum FusedOp {
    /// Conv + bias + relu fused into one.
    ConvBiasRelu {
        /// Original Conv params.
        conv: Box<OpParams>,
        /// Whether to apply relu after.
        relu: bool,
    },
    /// x * sigmoid(x) - SiLU/Swish activation.
    SiLU,
}

// ---------------------------------------------------------------------------
// Who makes and who takes a tensor
// ---------------------------------------------------------------------------

/// The last of the first `n` ops that writes a tensor.
pub open spec fn producer_among(ops: Seq<OpView>, name: Seq<char>, n: nat) -> Option<int>
    decreases n,
{
    if n == 0 {
        None
    } else if ops[n - 1].outputs.contains(name) {
        Some(n - 1)
    } else {
        producer_among(ops, name, (n - 1) as nat)
    }
}

/// The op that writes a tensor; the last one if there are several.
pub open spec fn producer(ops: Seq<OpView>, name: Seq<char>) -> Option<int> {
    producer_among(ops, name, ops.len())
}

/// How often a name occurs among the first `n`.
pub open spec fn occurrences(names: Seq<Seq<char>>, name: Seq<char>, n: nat) -> nat
    decreases n,
{
    if n == 0 {
        0
    } else {
        occurrences(names, name, (n - 1) as nat) + if names[n - 1] == name { 1nat } else { 0 }
    }
}

/// How often the first `n` ops read a tensor.
pub open spec fn reads(ops: Seq<OpView>, name: Seq<char>, n: nat) -> nat
    decreases n,
{
    if n == 0 {
        0
    } else {
        reads(ops, name, (n - 1) as nat) + occurrences(
            ops[n - 1].inputs,
            name,
            ops[n - 1].inputs.len(),
        )
    }
}

/// Whether a tensor is read exactly once; an output of the graph is read by its caller.
pub open spec fn read_once(g: GraphView, name: Seq<char>) -> bool {
    reads(g.ops, name, g.ops.len()) + occurrences(g.outputs, name, g.outputs.len()) == 1
}

/// The op that writes a tensor.
pub fn find_producer(ops: &Vec<CompiledOp>, name: &str) -> (r: Option<usize>)
    ensures
        producer(views(ops@), name@) == match r {
            Some(i) => Some(i as int),
            None => None,
        },
        r matches Some(i) ==> i < ops@.len() && ops@[i as int]@.outputs.contains(name@),
{
    let ghost all = views(ops@);
    let mut n: usize = ops.len();
    while n > 0
        invariant
            n <= ops@.len(),
            all == views(ops@),
            producer(all, name@) == producer_among(all, name@, n as nat),
        decreases n,
    {
        assert(all[n - 1] == ops@[n - 1]@);
        if contains_name(&ops[n - 1].outputs, name) {
            return Some(n - 1);
        }
        n = n - 1;
    }
    None
}

/// How often a name occurs, counted up to two.
pub(crate) fn count_up_to_two(names: &Vec<String>, name: &str) -> (r: usize)
    ensures
        r == if occurrences(views(names@), name@, names@.len()) < 2 {
            occurrences(views(names@), name@, names@.len())
        } else {
            2
        },
{
    let ghost all = views(names@);
    let mut count: usize = 0;
    let mut i: usize = 0;
    while i < names.len()
        invariant
            i <= names@.len(),
            all == views(names@),
            count == if occurrences(all, name@, i as nat) < 2 {
                occurrences(all, name@, i as nat)
            } else {
                2
            },
        decreases names@.len() - i,
    {
        assert(all[i as int] == names@[i as int]@);
        if count < 2 && str_eq(names[i].as_str(), name) {
            count = count + 1;
        }
        i = i + 1;
    }
    count
}

/// Whether a tensor is read exactly once; an output of the graph is read by its caller.
pub fn is_read_once(graph: &Graph, name: &str) -> (r: bool)
    ensures
        r == read_once(graph@, name@),
{
    let ghost all = graph@.ops;
    let mut count: usize = count_up_to_two(&graph.outputs, name);
    let ghost first = occurrences(graph@.outputs, name@, graph@.outputs.len());
    let mut i: usize = 0;
    while i < graph.ops.len()
        invariant
            i <= graph.ops@.len(),
            all == graph@.ops,
            count <= 2,
            count < 2 ==> count == first + reads(all, name@, i as nat),
            count == 2 ==> first + reads(all, name@, i as nat) >= 2,
        decreases graph.ops@.len() - i,
    {
        assert(all[i as int] == graph.ops@[i as int]@);
        let more: usize = count_up_to_two(&graph.ops[i].inputs, name);
        count = if count + more < 2 {
            count + more
        } else {
            2
        };
        i = i + 1;
    }
    count == 1
}

// ---------------------------------------------------------------------------
// The patterns
// ---------------------------------------------------------------------------

/// What a pattern found at an op turns into.
pub struct FusionView {
    /// The op that is replaced.
    pub at: int,
    /// What it is replaced by.
    pub op: OpView,
    /// Ops that go away.
    pub gone: Seq<int>,
}

/// A convolution's parameters with a Relu of the result.
pub open spec fn with_relu(p: ParamsView) -> Option<ParamsView> {
    match p {
        ParamsView::Conv2d { kernel_shape, strides, pads, dilations, group } => Some(
            ParamsView::Conv2dRelu { kernel_shape, strides, pads, dilations, group },
        ),
        _ => None,
    }
}

/// A convolution's parameters without the Relu of the result.
pub open spec fn without_relu(p: ParamsView) -> Option<ParamsView> {
    match p {
        ParamsView::Conv2dRelu { kernel_shape, strides, pads, dilations, group } => Some(
            ParamsView::Conv2d { kernel_shape, strides, pads, dilations, group },
        ),
        _ => None,
    }
}

/// Whether an op is a Relu of one tensor into one tensor.
pub open spec fn is_relu(op: OpView) -> bool {
    op.op_type == "Relu"@ && op.params is Empty && op.inputs.len() == 1 && op.outputs.len() == 1
}

/// The convolution into one tensor that computes a tensor, if that is read exactly once.
pub open spec fn conv_behind(g: GraphView, name: Seq<char>) -> Option<int> {
    match producer(g.ops, name) {
        Some(c) => if g.ops[c].op_type == "Conv"@ && g.ops[c].params is Conv2d
            && g.ops[c].outputs.len() == 1 && read_once(g, name) {
            Some(c)
        } else {
            None
        },
        None => None,
    }
}

/// The fused convolution: it reads `inputs`, and writes what the Relu wrote.
pub open spec fn rectified_conv(conv: OpView, inputs: Seq<Seq<char>>, relu: OpView) -> OpView {
    OpView {
        name: conv.name + "_fused_relu"@,
        op_type: "Conv"@,
        inputs,
        outputs: relu.outputs,
        params: with_relu(conv.params)->0,
    }
}

/// Op `i` is a Relu that alone reads the result of a convolution.
pub open spec fn relu_fusion(g: GraphView, i: int) -> Option<FusionView> {
    let relu = g.ops[i];
    if !is_relu(relu) {
        None
    } else {
        match conv_behind(g, relu.inputs[0]) {
            None => None,
            Some(c) => Some(
                FusionView {
                    at: c,
                    op: rectified_conv(g.ops[c], g.ops[c].inputs, relu),
                    gone: seq![i],
                },
            ),
        }
    }
}

/// Whether dimension `at` is `n` and all others are 1.
pub open spec fn lies_along(dims: Seq<usize>, at: int, n: usize) -> bool {
    &&& 0 <= at < dims.len()
    &&& dims[at] == n
    &&& forall|j: int| 0 <= j < dims.len() && j != at ==> #[trigger] dims[j] == 1
}

/// Whether a shape holds one number for each output channel of a convolution
/// with a kernel and a weight of the given sizes. The weight tells the layout,
/// unless both fit: `[C_out, C_in, kH, kW]` with channels third to last, or
/// `[kH, kW, C_in, C_out]` with channels last.
pub open spec fn per_channel(dims: Seq<usize>, weight: Seq<usize>, kernel: Seq<usize>) -> bool {
    let first = weight.len() == 4 && weight[2] == kernel[0] && weight[3] == kernel[1];
    let last = weight.len() == 4 && weight[0] == kernel[0] && weight[1] == kernel[1];
    &&& dims.len() <= 4
    &&& first != last
    &&& first ==> lies_along(dims, dims.len() - 3, weight[0])
    &&& last ==> lies_along(dims, dims.len() - 1, weight[3])
}

/// Whether a tensor is a bias that a convolution without one can add: a constant
/// with one number for each output channel.
pub open spec fn is_bias(g: GraphView, conv: OpView, name: Seq<char>) -> bool {
    &&& conv.inputs.len() == 2
    &&& g.initializers.dom().contains(name)
    &&& producer(g.ops, name) is None
    &&& g.shapes.dom().contains(name)
    &&& g.shapes.dom().contains(conv.inputs[1])
    &&& conv.params matches ParamsView::Conv2d { kernel_shape, .. } && per_channel(
        g.shapes[name].dims,
        g.shapes[conv.inputs[1]].dims,
        kernel_shape,
    )
}

/// The convolution behind one addend, if the other one is a bias for it.
pub open spec fn conv_with_bias(g: GraphView, a: Seq<char>, b: Seq<char>) -> Option<int> {
    match conv_behind(g, a) {
        Some(c) => if is_bias(g, g.ops[c], b) {
            Some(c)
        } else {
            None
        },
        None => None,
    }
}

/// The convolution in a sum with a bias, and the bias.
pub open spec fn conv_in_sum(g: GraphView, a: Seq<char>, b: Seq<char>) -> Option<
    (int, Seq<char>),
> {
    match conv_with_bias(g, a, b) {
        Some(c) => Some((c, b)),
        None => match conv_with_bias(g, b, a) {
            Some(c) => Some((c, a)),
            None => None,
        },
    }
}

/// Op `i` is a Relu that alone reads the sum of a convolution and a bias, which
/// alone reads the result of the convolution.
pub open spec fn bias_fusion(g: GraphView, i: int) -> Option<FusionView> {
    let relu = g.ops[i];
    if !is_relu(relu) {
        None
    } else {
        match producer(g.ops, relu.inputs[0]) {
            None => None,
            Some(s) => {
                let sum = g.ops[s];
                if sum.op_type != "Add"@ || !(sum.params is Add) || sum.inputs.len() != 2
                    || sum.outputs.len() != 1 || !read_once(g, relu.inputs[0]) {
                    None
                } else {
                    match conv_in_sum(g, sum.inputs[0], sum.inputs[1]) {
                        None => None,
                        Some((c, bias)) => Some(
                            FusionView {
                                at: c,
                                op: rectified_conv(g.ops[c], g.ops[c].inputs.push(bias), relu),
                                gone: seq![s, i],
                            },
                        ),
                    }
                }
            },
        }
    }
}

/// Whether an op is the sigmoid of a tensor into one tensor.
pub open spec fn is_sigmoid_of(op: OpView, x: Seq<char>) -> bool {
    op.op_type == "Sigmoid"@ && op.params is Sigmoid && op.inputs.len() == 1 && op.inputs[0] == x
        && op.outputs.len() == 1
}

/// The sigmoid of `x` that computes a tensor.
pub open spec fn sigmoid_behind(ops: Seq<OpView>, name: Seq<char>, x: Seq<char>) -> Option<int> {
    match producer(ops, name) {
        Some(s) => if is_sigmoid_of(ops[s], x) {
            Some(s)
        } else {
            None
        },
        None => None,
    }
}

/// The sigmoid in a product `x * sigmoid(x)` or `sigmoid(x) * x`, and `x`.
pub open spec fn sigmoid_in(ops: Seq<OpView>, a: Seq<char>, b: Seq<char>) -> Option<
    (int, Seq<char>),
> {
    match sigmoid_behind(ops, a, b) {
        Some(s) => Some((s, b)),
        None => match sigmoid_behind(ops, b, a) {
            Some(s) => Some((s, a)),
            None => None,
        },
    }
}

/// Op `i` is a product `x * sigmoid(x)` that alone reads the sigmoid.
pub open spec fn silu_fusion(g: GraphView, i: int) -> Option<FusionView> {
    let m = g.ops[i];
    if m.op_type != "Mul"@ || !(m.params is Mul) || m.inputs.len() != 2 || m.outputs.len() != 1 {
        None
    } else {
        match sigmoid_in(g.ops, m.inputs[0], m.inputs[1]) {
            None => None,
            Some((s, x)) => if !read_once(g, g.ops[s].outputs[0]) {
                None
            } else {
                Some(
                    FusionView {
                        at: i,
                        op: OpView {
                            name: m.name + "_silu"@,
                            op_type: "SiLU"@,
                            inputs: seq![x],
                            outputs: m.outputs,
                            params: ParamsView::Empty,
                        },
                        gone: seq![s],
                    },
                )
            },
        }
    }
}

/// The parameters of an INT8 convolution fused with a requantization.
pub open spec fn requant_params(conv: ParamsView, requant: ParamsView, relu: bool) -> Option<
    ParamsView,
> {
    match (conv, requant) {
        (
            ParamsView::Conv2d { kernel_shape, strides, pads, dilations, group },
            ParamsView::Requantize { scale },
        ) => Some(
            ParamsView::Conv2dRequantReluI8Nhwc {
                kernel_shape,
                strides,
                pads,
                dilations,
                group,
                requant_scale: scale,
                has_relu: relu,
            },
        ),
        _ => None,
    }
}

/// The Relu that alone reads a tensor: the first of the `n` first ops that is
/// a Relu of it.
pub open spec fn relu_of(g: GraphView, name: Seq<char>, n: nat) -> Option<int>
    decreases n,
{
    if n == 0 {
        None
    } else {
        match relu_of(g, name, (n - 1) as nat) {
            Some(r) => Some(r),
            None => if is_relu(g.ops[n - 1]) && g.ops[n - 1].inputs[0] == name && read_once(g, name) {
                Some(n - 1)
            } else {
                None
            },
        }
    }
}

/// The last of the first `n` ops that is a convolution and writes a tensor first.
pub open spec fn conv_among(ops: Seq<OpView>, name: Seq<char>, n: nat) -> Option<int>
    decreases n,
{
    if n == 0 {
        None
    } else if ops[n - 1].op_type == "Conv"@ && ops[n - 1].outputs.len() > 0 && ops[n
        - 1].outputs[0] == name {
        Some(n - 1)
    } else {
        conv_among(ops, name, (n - 1) as nat)
    }
}

/// Op `i` is a requantization after a convolution that writes the same tensor.
pub open spec fn requant_fusion(g: GraphView, i: int) -> Option<FusionView> {
    let q = g.ops[i];
    if q.op_type != "Requantize"@ || q.outputs.len() == 0 {
        None
    } else {
        match conv_among(g.ops, q.outputs[0], i as nat) {
            None => None,
            Some(c) => {
                let relu = relu_of(g, q.outputs[0], g.ops.len());
                match requant_params(g.ops[c].params, q.params, relu is Some) {
                    None => None,
                    Some(params) => Some(
                        FusionView {
                            at: c,
                            op: OpView {
                                name: g.ops[c].name + "_fused_requant"@,
                                op_type: "Conv"@,
                                inputs: g.ops[c].inputs,
                                outputs: match relu {
                                    Some(r) => g.ops[r].outputs,
                                    None => q.outputs,
                                },
                                params,
                            },
                            gone: match relu {
                                Some(r) => seq![i, r],
                                None => seq![i],
                            },
                        },
                    ),
                }
            },
        }
    }
}

/// What a pass finds at op `i`.
pub open spec fn fusion_at(g: GraphView, pass: int, i: int) -> Option<FusionView> {
    if pass == 0 {
        relu_fusion(g, i)
    } else if pass == 1 {
        bias_fusion(g, i)
    } else if pass == 2 {
        silu_fusion(g, i)
    } else {
        requant_fusion(g, i)
    }
}

/// The fusions that a pass finds among the first `n` ops.
pub open spec fn fusions(g: GraphView, pass: int, n: nat) -> Seq<FusionView>
    decreases n,
{
    if n == 0 {
        Seq::empty()
    } else {
        let before = fusions(g, pass, (n - 1) as nat);
        match fusion_at(g, pass, n - 1) {
            Some(f) => before.push(f),
            None => before,
        }
    }
}

/// All fusions of all passes.
pub open spec fn all_fusions(g: GraphView) -> Seq<FusionView> {
    let n = g.ops.len();
    fusions(g, 0, n) + fusions(g, 1, n) + fusions(g, 2, n) + fusions(g, 3, n)
}

/// The fusions of the first `n` passes.
spec fn fusions_until(g: GraphView, n: nat) -> Seq<FusionView>
    decreases n,
{
    if n == 0 {
        Seq::empty()
    } else {
        fusions_until(g, (n - 1) as nat) + fusions(g, n - 1, g.ops.len())
    }
}

proof fn lemma_all_passes(g: GraphView)
    ensures
        all_fusions(g) == fusions_until(g, 4),
{
    reveal_with_fuel(fusions_until, 5);
    assert(all_fusions(g) =~= fusions_until(g, 4));
}

/// The ops with the first `n` fusions put in place.
pub open spec fn replaced(ops: Seq<OpView>, f: Seq<FusionView>, n: nat) -> Seq<OpView>
    decreases n,
{
    if n == 0 {
        ops
    } else {
        replaced(ops, f, (n - 1) as nat).update(f[n - 1].at, f[n - 1].op)
    }
}

/// Whether one of the fusions makes op `i` go away.
pub open spec fn is_gone(f: Seq<FusionView>, i: int) -> bool {
    exists|j: int| 0 <= j < f.len() && (#[trigger] f[j]).gone.contains(i)
}

/// Of the first `n` ops, those that do not go away.
pub open spec fn remaining(ops: Seq<OpView>, f: Seq<FusionView>, n: nat) -> Seq<OpView>
    decreases n,
{
    if n == 0 {
        Seq::empty()
    } else {
        let before = remaining(ops, f, (n - 1) as nat);
        if is_gone(f, n - 1) {
            before
        } else {
            before.push(ops[n - 1])
        }
    }
}

/// The ops of a graph after fusion.
pub open spec fn fused(g: GraphView) -> Seq<OpView> {
    let f = all_fusions(g);
    remaining(replaced(g.ops, f, f.len()), f, g.ops.len())
}

struct Fusion {
    at: usize,
    op: CompiledOp,
    gone: usize,
    also_gone: Option<usize>,
}

impl View for Fusion {
    type V = FusionView;

    closed spec fn view(&self) -> FusionView {
        FusionView {
            at: self.at as int,
            op: self.op@,
            gone: match self.also_gone {
                Some(r) => seq![self.gone as int, r as int],
                None => seq![self.gone as int],
            },
        }
    }
}

spec fn optional(f: Option<Fusion>) -> Option<FusionView> {
    match f {
        Some(f) => Some(f@),
        None => None,
    }
}

fn add_relu(p: &OpParams) -> (r: Option<OpParams>)
    ensures
        match r {
            Some(q) => with_relu(p@) == Some(q@),
            None => with_relu(p@) is None,
        },
{
    match p {
        OpParams::Conv2d { kernel_shape, strides, pads, dilations, group } => Some(
            OpParams::Conv2dRelu {
                kernel_shape: *kernel_shape,
                strides: *strides,
                pads: *pads,
                dilations: *dilations,
                group: *group,
            },
        ),
        _ => None,
    }
}

fn check_relu(op: &CompiledOp) -> (r: bool)
    ensures
        r == is_relu(op@),
{
    let plain: bool = match &op.params {
        OpParams::Empty => true,
        _ => false,
    };
    str_eq(op.op_type.as_str(), "Relu") && plain && op.inputs.len() == 1 && op.outputs.len() == 1
}

fn find_conv_behind(graph: &Graph, name: &str) -> (r: Option<usize>)
    ensures
        conv_behind(graph@, name@) == match r {
            Some(c) => Some(c as int),
            None => None,
        },
        r matches Some(c) ==> c < graph@.ops.len() && graph@.ops[c as int].params is Conv2d,
{
    match find_producer(&graph.ops, name) {
        Some(c) => {
            let op: &CompiledOp = &graph.ops[c];
            assert(graph@.ops[c as int] == op@);
            let plain: bool = match &op.params {
                OpParams::Conv2d { .. } => true,
                _ => false,
            };
            if str_eq(op.op_type.as_str(), "Conv") && plain && op.outputs.len() == 1
                && is_read_once(graph, name) {
                Some(c)
            } else {
                None
            }
        },
        None => None,
    }
}

fn rectify_conv(conv: &CompiledOp, inputs: Vec<String>, relu: &CompiledOp) -> (r: CompiledOp)
    requires
        conv@.params is Conv2d,
    ensures
        r@ == rectified_conv(conv@, views(inputs@), relu@),
{
    let params: OpParams = match add_relu(&conv.params) {
        Some(p) => p,
        None => {
            assert(false);
            OpParams::Empty
        },
    };
    CompiledOp {
        name: concat2(conv.name.as_str(), "_fused_relu"),
        op_type: "Conv".to_owned(),
        inputs,
        outputs: copy_names(&relu.outputs),
        params,
    }
}

fn find_relu_fusion(graph: &Graph, i: usize) -> (r: Option<Fusion>)
    requires
        i < graph@.ops.len(),
    ensures
        optional(r) == relu_fusion(graph@, i as int),
{
    let relu: &CompiledOp = &graph.ops[i];
    assert(graph@.ops[i as int] == relu@);
    if !check_relu(relu) {
        return None;
    }
    assert(relu@.inputs[0] == relu.inputs@[0]@);
    match find_conv_behind(graph, relu.inputs[0].as_str()) {
        None => None,
        Some(c) => {
            let conv: &CompiledOp = &graph.ops[c];
            assert(graph@.ops[c as int] == conv@);
            let op: CompiledOp = rectify_conv(conv, copy_names(&conv.inputs), relu);
            Some(Fusion { at: c, op, gone: i, also_gone: None })
        },
    }
}

fn check_along(dims: &Vec<usize>, at: usize, n: usize) -> (r: bool)
    ensures
        r == lies_along(dims@, at as int, n),
{
    if at >= dims.len() || dims[at] != n {
        return false;
    }
    let mut j: usize = 0;
    while j < dims.len()
        invariant
            j <= dims@.len(),
            forall|k: int| 0 <= k < j && k != at ==> #[trigger] dims@[k] == 1,
        decreases dims@.len() - j,
    {
        if j != at && dims[j] != 1 {
            return false;
        }
        j = j + 1;
    }
    true
}

fn check_per_channel(dims: &Vec<usize>, weight: &Vec<usize>, kernel: &[usize; 2]) -> (r: bool)
    ensures
        r == per_channel(dims@, weight@, kernel@),
{
    if dims.len() > 4 || weight.len() != 4 {
        return false;
    }
    let first: bool = weight[2] == kernel[0] && weight[3] == kernel[1];
    let last: bool = weight[0] == kernel[0] && weight[1] == kernel[1];
    if first == last {
        false
    } else if first {
        dims.len() >= 3 && check_along(dims, dims.len() - 3, weight[0])
    } else {
        dims.len() >= 1 && check_along(dims, dims.len() - 1, weight[3])
    }
}

fn check_bias(graph: &Graph, conv: &CompiledOp, name: &str) -> (r: bool)
    ensures
        r == is_bias(graph@, conv@, name@),
{
    if conv.inputs.len() != 2 || !graph.initializers.contains_key(name) || find_producer(
        &graph.ops,
        name,
    ).is_some() {
        return false;
    }
    assert(conv@.inputs[1] == conv.inputs@[1]@);
    let shape: &TensorShape = match graph.shapes.get(name) {
        Some(s) => s,
        None => {
            return false;
        },
    };
    let weight: &TensorShape = match graph.shapes.get(conv.inputs[1].as_str()) {
        Some(s) => s,
        None => {
            return false;
        },
    };
    match &conv.params {
        OpParams::Conv2d { kernel_shape, .. } => check_per_channel(
            &shape.dims,
            &weight.dims,
            kernel_shape,
        ),
        _ => false,
    }
}

fn find_conv_with_bias(graph: &Graph, a: &str, b: &str) -> (r: Option<usize>)
    ensures
        conv_with_bias(graph@, a@, b@) == match r {
            Some(c) => Some(c as int),
            None => None,
        },
        r matches Some(c) ==> c < graph@.ops.len() && graph@.ops[c as int].params is Conv2d,
{
    match find_conv_behind(graph, a) {
        Some(c) => {
            assert(graph@.ops[c as int] == graph.ops@[c as int]@);
            if check_bias(graph, &graph.ops[c], b) {
                Some(c)
            } else {
                None
            }
        },
        None => None,
    }
}

fn find_bias_fusion(graph: &Graph, i: usize) -> (r: Option<Fusion>)
    requires
        i < graph@.ops.len(),
    ensures
        optional(r) == bias_fusion(graph@, i as int),
{
    let relu: &CompiledOp = &graph.ops[i];
    assert(graph@.ops[i as int] == relu@);
    if !check_relu(relu) {
        return None;
    }
    assert(relu@.inputs[0] == relu.inputs@[0]@);
    let name: &str = relu.inputs[0].as_str();
    let s: usize = match find_producer(&graph.ops, name) {
        Some(s) => s,
        None => {
            return None;
        },
    };
    let sum: &CompiledOp = &graph.ops[s];
    assert(graph@.ops[s as int] == sum@);
    let adds: bool = match &sum.params {
        OpParams::Add => true,
        _ => false,
    };
    if !str_eq(sum.op_type.as_str(), "Add") || !adds || sum.inputs.len() != 2 || sum.outputs.len()
        != 1 || !is_read_once(graph, name) {
        return None;
    }
    assert(sum@.inputs[0] == sum.inputs@[0]@);
    assert(sum@.inputs[1] == sum.inputs@[1]@);
    let a: &str = sum.inputs[0].as_str();
    let b: &str = sum.inputs[1].as_str();
    let (c, second): (usize, bool) = match find_conv_with_bias(graph, a, b) {
        Some(c) => (c, true),
        None => match find_conv_with_bias(graph, b, a) {
            Some(c) => (c, false),
            None => {
                return None;
            },
        },
    };
    let conv: &CompiledOp = &graph.ops[c];
    assert(graph@.ops[c as int] == conv@);
    let mut inputs: Vec<String> = copy_names(&conv.inputs);
    let bias: String = if second {
        sum.inputs[1].clone()
    } else {
        sum.inputs[0].clone()
    };
    proof {
        lemma_views_push(inputs@, bias);
    }
    inputs.push(bias);
    let op: CompiledOp = rectify_conv(conv, inputs, relu);
    Some(Fusion { at: c, op, gone: s, also_gone: Some(i) })
}

fn is_sigmoid(op: &CompiledOp, x: &str) -> (r: bool)
    ensures
        r == is_sigmoid_of(op@, x@),
{
    let plain: bool = match &op.params {
        OpParams::Sigmoid => true,
        _ => false,
    };
    if str_eq(op.op_type.as_str(), "Sigmoid") && plain && op.inputs.len() == 1 && op.outputs.len()
        == 1 {
        assert(op@.inputs[0] == op.inputs@[0]@);
        str_eq(op.inputs[0].as_str(), x)
    } else {
        false
    }
}

/// The sigmoid of a product, and whether it is the first factor.
fn find_sigmoid_behind(ops: &Vec<CompiledOp>, name: &str, x: &str) -> (r: Option<usize>)
    ensures
        match r {
            Some(s) => sigmoid_behind(views(ops@), name@, x@) == Some(s as int) && s < ops@.len()
                && ops@[s as int]@.outputs.len() > 0,
            None => sigmoid_behind(views(ops@), name@, x@) is None,
        },
{
    let ghost all = views(ops@);
    match find_producer(ops, name) {
        Some(s) => {
            assert(all[s as int] == ops@[s as int]@);
            if is_sigmoid(&ops[s], x) {
                Some(s)
            } else {
                None
            }
        },
        None => None,
    }
}

fn find_sigmoid(ops: &Vec<CompiledOp>, a: &str, b: &str) -> (r: Option<(usize, bool)>)
    ensures
        match r {
            Some((s, first)) => sigmoid_in(views(ops@), a@, b@) == Some(
                (s as int, if first { b@ } else { a@ }),
            ) && s < ops@.len() && ops@[s as int]@.outputs.len() > 0,
            None => sigmoid_in(views(ops@), a@, b@) is None,
        },
{
    match find_sigmoid_behind(ops, a, b) {
        Some(s) => Some((s, true)),
        None => match find_sigmoid_behind(ops, b, a) {
            Some(s) => Some((s, false)),
            None => None,
        },
    }
}

fn find_silu_fusion(graph: &Graph, i: usize) -> (r: Option<Fusion>)
    requires
        i < graph@.ops.len(),
    ensures
        optional(r) == silu_fusion(graph@, i as int),
{
    let ops: &Vec<CompiledOp> = &graph.ops;
    let ghost all = graph@.ops;
    let m: &CompiledOp = &ops[i];
    assert(all[i as int] == m@);
    let plain: bool = match &m.params {
        OpParams::Mul => true,
        _ => false,
    };
    if !str_eq(m.op_type.as_str(), "Mul") || !plain || m.inputs.len() != 2 || m.outputs.len() != 1 {
        return None;
    }
    assert(m@.inputs[0] == m.inputs@[0]@);
    assert(m@.inputs[1] == m.inputs@[1]@);
    match find_sigmoid(ops, m.inputs[0].as_str(), m.inputs[1].as_str()) {
        None => None,
        Some((s, first)) => {
            let sigmoid: &CompiledOp = &ops[s];
            assert(all[s as int] == sigmoid@);
            assert(sigmoid@.outputs[0] == sigmoid.outputs@[0]@);
            if !is_read_once(graph, sigmoid.outputs[0].as_str()) {
                return None;
            }
            let x: String = if first {
                m.inputs[1].clone()
            } else {
                m.inputs[0].clone()
            };
            let ghost xv = x@;
            let mut inputs: Vec<String> = Vec::new();
            inputs.push(x);
            assert(views(inputs@) =~= seq![xv]);
            let op: CompiledOp = CompiledOp {
                name: concat2(m.name.as_str(), "_silu"),
                op_type: "SiLU".to_owned(),
                inputs,
                outputs: copy_names(&m.outputs),
                params: OpParams::Empty,
            };
            Some(Fusion { at: i, op, gone: s, also_gone: None })
        },
    }
}

fn find_relu_of(graph: &Graph, name: &str) -> (r: Option<usize>)
    ensures
        relu_of(graph@, name@, graph@.ops.len()) == match r {
            Some(i) => Some(i as int),
            None => None,
        },
        r matches Some(i) ==> i < graph@.ops.len(),
{
    let ghost g = graph@;
    let once: bool = is_read_once(graph, name);
    let mut found: Option<usize> = None;
    let mut i: usize = 0;
    while i < graph.ops.len()
        invariant
            i <= graph.ops@.len(),
            g == graph@,
            once == read_once(g, name@),
            found matches Some(k) ==> k < i,
            relu_of(g, name@, i as nat) == match found {
                Some(k) => Some(k as int),
                None => None,
            },
        decreases graph.ops@.len() - i,
    {
        let op: &CompiledOp = &graph.ops[i];
        assert(g.ops[i as int] == op@);
        if found.is_none() && once && check_relu(op) {
            assert(op@.inputs[0] == op.inputs@[0]@);
            if str_eq(op.inputs[0].as_str(), name) {
                found = Some(i);
            }
        }
        i = i + 1;
    }
    found
}

fn fuse_params(conv: &OpParams, requant: &OpParams, relu: bool) -> (r: Option<OpParams>)
    ensures
        match r {
            Some(p) => requant_params(conv@, requant@, relu) == Some(p@),
            None => requant_params(conv@, requant@, relu) is None,
        },
{
    match conv {
        OpParams::Conv2d { kernel_shape, strides, pads, dilations, group } => match requant {
            OpParams::Requantize { scale } => Some(
                OpParams::Conv2dRequantReluI8Nhwc {
                    kernel_shape: *kernel_shape,
                    strides: *strides,
                    pads: *pads,
                    dilations: *dilations,
                    group: *group,
                    requant_scale: *scale,
                    has_relu: relu,
                },
            ),
            _ => None,
        },
        _ => None,
    }
}

fn find_conv_among(ops: &Vec<CompiledOp>, name: &str, n: usize) -> (r: Option<usize>)
    requires
        n <= ops@.len(),
    ensures
        conv_among(views(ops@), name@, n as nat) == match r {
            Some(i) => Some(i as int),
            None => None,
        },
        r matches Some(i) ==> i < n,
{
    let ghost all = views(ops@);
    let mut k: usize = n;
    while k > 0
        invariant
            k <= n <= ops@.len(),
            all == views(ops@),
            conv_among(all, name@, n as nat) == conv_among(all, name@, k as nat),
        decreases k,
    {
        let op: &CompiledOp = &ops[k - 1];
        assert(all[k - 1] == op@);
        if str_eq(op.op_type.as_str(), "Conv") && op.outputs.len() > 0 {
            assert(op@.outputs[0] == op.outputs@[0]@);
            if str_eq(op.outputs[0].as_str(), name) {
                return Some(k - 1);
            }
        }
        k = k - 1;
    }
    None
}

fn find_requant_fusion(graph: &Graph, i: usize) -> (r: Option<Fusion>)
    requires
        i < graph@.ops.len(),
    ensures
        optional(r) == requant_fusion(graph@, i as int),
{
    let ops: &Vec<CompiledOp> = &graph.ops;
    let ghost all = graph@.ops;
    let q: &CompiledOp = &ops[i];
    assert(all[i as int] == q@);
    if !str_eq(q.op_type.as_str(), "Requantize") || q.outputs.len() == 0 {
        return None;
    }
    assert(q@.outputs[0] == q.outputs@[0]@);
    let name: &str = q.outputs[0].as_str();
    let c: usize = match find_conv_among(ops, name, i) {
        Some(c) => c,
        None => {
            return None;
        },
    };
    let conv: &CompiledOp = &ops[c];
    assert(all[c as int] == conv@);
    let relu: Option<usize> = find_relu_of(graph, name);
    let params: OpParams = match fuse_params(&conv.params, &q.params, relu.is_some()) {
        Some(p) => p,
        None => {
            return None;
        },
    };
    let outputs: Vec<String> = match relu {
        Some(r) => {
            assert(all[r as int] == ops@[r as int]@);
            copy_names(&ops[r].outputs)
        },
        None => copy_names(&q.outputs),
    };
    let op: CompiledOp = CompiledOp {
        name: concat2(conv.name.as_str(), "_fused_requant"),
        op_type: "Conv".to_owned(),
        inputs: copy_names(&conv.inputs),
        outputs,
        params,
    };
    Some(Fusion { at: c, op, gone: i, also_gone: relu })
}

pub(crate) proof fn lemma_producer_bound(ops: Seq<OpView>, name: Seq<char>, n: nat)
    requires
        n <= ops.len(),
    ensures
        producer_among(ops, name, n) matches Some(c) ==> 0 <= c < n && ops[c].outputs.contains(
            name,
        ) && (forall|k: int| c < k < n ==> !(#[trigger] ops[k]).outputs.contains(name)),
        producer_among(ops, name, n) is None ==> forall|k: int|
            0 <= k < n ==> !(#[trigger] ops[k]).outputs.contains(name),
    decreases n,
{
    if n > 0 {
        lemma_producer_bound(ops, name, (n - 1) as nat);
    }
}

proof fn lemma_relu_of_bound(g: GraphView, name: Seq<char>, n: nat)
    requires
        n <= g.ops.len(),
    ensures
        relu_of(g, name, n) matches Some(r) ==> 0 <= r < n && is_relu(g.ops[r])
            && g.ops[r].inputs[0] == name && read_once(g, name),
    decreases n,
{
    if n > 0 {
        lemma_relu_of_bound(g, name, (n - 1) as nat);
    }
}

proof fn lemma_conv_among_bound(ops: Seq<OpView>, name: Seq<char>, n: nat)
    requires
        n <= ops.len(),
    ensures
        conv_among(ops, name, n) matches Some(c) ==> 0 <= c < n && ops[c].op_type == "Conv"@
            && ops[c].outputs.len() > 0 && ops[c].outputs[0] == name,
    decreases n,
{
    if n > 0 {
        lemma_conv_among_bound(ops, name, (n - 1) as nat);
    }
}

/// The ops that a fusion speaks of are ops of the graph.
proof fn lemma_fusion_bound(g: GraphView, pass: int, i: int)
    requires
        0 <= i < g.ops.len(),
    ensures
        fusion_at(g, pass, i) matches Some(f) ==> 0 <= f.at < g.ops.len() && f.gone.len() > 0 && (
        forall|k: int| 0 <= k < f.gone.len() ==> 0 <= #[trigger] f.gone[k] < g.ops.len()),
{
    let ops = g.ops;
    let op = ops[i];
    if op.inputs.len() > 0 {
        lemma_producer_bound(ops, op.inputs[0], ops.len());
        if pass == 1 {
            match producer(ops, op.inputs[0]) {
                Some(s) => {
                    lemma_producer_bound(ops, ops[s].inputs[0], ops.len());
                    lemma_producer_bound(ops, ops[s].inputs[1], ops.len());
                },
                None => {},
            }
        }
    }
    if op.inputs.len() > 1 {
        lemma_producer_bound(ops, op.inputs[1], ops.len());
    }
    if op.outputs.len() > 0 {
        lemma_relu_of_bound(g, op.outputs[0], ops.len());
        lemma_conv_among_bound(ops, op.outputs[0], i as nat);
    }
}

proof fn lemma_fusions_bound(g: GraphView, pass: int, n: nat)
    requires
        n <= g.ops.len(),
    ensures
        forall|j: int|
            0 <= j < fusions(g, pass, n).len() ==> 0 <= (#[trigger] fusions(g, pass, n)[j]).at
                < g.ops.len(),
    decreases n,
{
    if n > 0 {
        lemma_fusions_bound(g, pass, (n - 1) as nat);
        lemma_fusion_bound(g, pass, n - 1);
    }
}

proof fn lemma_bound_until(g: GraphView, n: nat)
    ensures
        forall|j: int|
            0 <= j < fusions_until(g, n).len() ==> 0 <= (#[trigger] fusions_until(g, n)[j]).at
                < g.ops.len(),
    decreases n,
{
    if n > 0 {
        lemma_bound_until(g, (n - 1) as nat);
        lemma_fusions_bound(g, n - 1, g.ops.len());
        let before = fusions_until(g, (n - 1) as nat);
        let more = fusions(g, n - 1, g.ops.len());
        assert forall|j: int| 0 <= j < fusions_until(g, n).len() implies 0 <= (
        #[trigger] fusions_until(g, n)[j]).at < g.ops.len() by {
            if j >= before.len() {
                assert(fusions_until(g, n)[j] == more[j - before.len()]);
            }
        }
    }
}

proof fn lemma_all_fusions_bound(g: GraphView)
    ensures
        forall|j: int|
            0 <= j < all_fusions(g).len() ==> 0 <= (#[trigger] all_fusions(g)[j]).at < g.ops.len(),
{
    lemma_all_passes(g);
    lemma_bound_until(g, 4);
}

fn find_fusions(graph: &Graph, pass: u8) -> (r: Vec<Fusion>)
    requires
        pass < 4,
    ensures
        views(r@) == fusions(graph@, pass as int, graph@.ops.len()),
{
    let ghost g = graph@;
    let mut r: Vec<Fusion> = Vec::new();
    let mut i: usize = 0;
    assert(views(r@) =~= Seq::empty());
    while i < graph.ops.len()
        invariant
            i <= graph.ops@.len(),
            pass < 4,
            g == graph@,
            views(r@) == fusions(g, pass as int, i as nat),
        decreases graph.ops@.len() - i,
    {
        broadcast use lemma_views_push;

        let found: Option<Fusion> = if pass == 0 {
            find_relu_fusion(graph, i)
        } else if pass == 1 {
            find_bias_fusion(graph, i)
        } else if pass == 2 {
            find_silu_fusion(graph, i)
        } else {
            find_requant_fusion(graph, i)
        };
        match found {
            Some(f) => {
                r.push(f);
            },
            None => {},
        }
        i = i + 1;
    }
    r
}

fn find_all_fusions(graph: &Graph) -> (r: Vec<Fusion>)
    ensures
        views(r@) == all_fusions(graph@),
{
    let ghost g = graph@;
    let mut r: Vec<Fusion> = Vec::new();
    let mut pass: u8 = 0;
    assert(views(r@) =~= Seq::empty());
    while pass < 4
        invariant
            pass <= 4,
            g == graph@,
            views(r@) == fusions_until(g, pass as nat),
        decreases 4 - pass,
    {
        let mut more: Vec<Fusion> = find_fusions(graph, pass);
        let ghost before = r@;
        let ghost extra = more@;
        r.append(&mut more);
        assert(views(r@) =~= views(before) + views(extra));
        pass = pass + 1;
    }
    proof {
        lemma_all_passes(g);
    }
    r
}

fn goes_away(f: &Vec<Fusion>, i: usize) -> (r: bool)
    ensures
        r == is_gone(views(f@), i as int),
{
    let mut j: usize = 0;
    while j < f.len()
        invariant
            j <= f@.len(),
            forall|k: int| 0 <= k < j ==> !(#[trigger] views(f@)[k]).gone.contains(i as int),
        decreases f@.len() - j,
    {
        let x: &Fusion = &f[j];
        let also: bool = match x.also_gone {
            Some(r) => r == i,
            None => false,
        };
        proof {
            let g = views(f@)[j as int].gone;
            assert(g == x@.gone);
            if x.gone == i {
                assert(g[0] == i);
            }
            if also {
                assert(g[1] == i);
            }
        }
        if x.gone == i || also {
            assert(views(f@)[j as int].gone.contains(i as int));
            return true;
        }
        j = j + 1;
    }
    false
}

/// Apply all fusion passes to a graph; only its ops change.
pub fn apply_fusion_passes(graph: &mut Graph)
    ensures
        final(graph)@ == (GraphView { ops: fused(old(graph)@), ..old(graph)@ }),
{
    let ghost ops = graph@.ops;
    let ghost f = all_fusions(graph@);
    let found: Vec<Fusion> = find_all_fusions(graph);
    proof {
        lemma_all_fusions_bound(graph@);
    }
    let mut j: usize = 0;
    while j < found.len()
        invariant
            j <= found@.len(),
            f == views(found@),
            ops == old(graph)@.ops,
            graph@ == (GraphView { ops: replaced(ops, f, j as nat), ..old(graph)@ }),
            graph.ops@.len() == ops.len(),
            forall|k: int| 0 <= k < f.len() ==> 0 <= (#[trigger] f[k]).at < ops.len(),
        decreases found@.len() - j,
    {
        let ghost before = graph.ops@;
        assert(f[j as int] == found@[j as int]@);
        let op: CompiledOp = found[j].op.clone();
        let ghost v = op@;
        graph.ops.set(found[j].at, op);
        j = j + 1;
        assert(views(graph.ops@) =~= views(before).update(f[j - 1].at, v));
    }
    let ghost new = graph@.ops;
    let mut kept: Vec<CompiledOp> = Vec::new();
    let mut i: usize = 0;
    assert(views(kept@) =~= Seq::empty());
    while i < graph.ops.len()
        invariant
            i <= graph.ops@.len(),
            f == views(found@),
            graph.ops@.len() == ops.len(),
            new == graph@.ops,
            graph@ == (GraphView { ops: new, ..old(graph)@ }),
            views(kept@) == remaining(new, f, i as nat),
        decreases graph.ops@.len() - i,
    {
        broadcast use lemma_views_push;

        assert(new[i as int] == graph.ops@[i as int]@);
        if !goes_away(&found, i) {
            kept.push(graph.ops[i].clone());
        }
        i = i + 1;
    }
    graph.ops = kept;
}

// ---------------------------------------------------------------------------
// Counting patterns
// ---------------------------------------------------------------------------

/// Statistics about fuseable patterns in a graph.
#[derive(Debug, Clone, Copy, PartialEq, Eq, Structural)]
pub struct FusionStats {
    /// Number of Conv + Relu patterns.
    pub conv_relu: usize,
    /// Number of Conv + Add (bias) + Relu patterns.
    pub conv_bias_relu: usize,
    /// Number of x * sigmoid(x) patterns (SiLU).
    pub silu: usize,
    /// Number of Conv + Requantize patterns.
    pub conv_requant_relu_i8: usize,
}

impl Default for FusionStats {
    fn default() -> (r: FusionStats)
        ensures
            r.conv_relu == 0,
            r.conv_bias_relu == 0,
            r.silu == 0,
            r.conv_requant_relu_i8 == 0,
    {
        FusionStats { conv_relu: 0, conv_bias_relu: 0, silu: 0, conv_requant_relu_i8: 0 }
    }
}

impl FusionStats {
    /// Total fuseable patterns.
    pub fn total(&self) -> (r: usize)
        requires
            self.conv_relu + self.conv_bias_relu + self.silu + self.conv_requant_relu_i8
                <= usize::MAX,
        ensures
            r == self.conv_relu + self.conv_bias_relu + self.silu + self.conv_requant_relu_i8,
    {
        self.conv_relu + self.conv_bias_relu + self.silu + self.conv_requant_relu_i8
    }
}

/// Whether a tensor is written by a convolution.
pub open spec fn made_by_conv(g: GraphView, name: Seq<char>) -> bool {
    producer(g.ops, name) matches Some(c) && g.ops[c].op_type == "Conv"@
}

/// Whether a tensor is written by a convolution, for which another one is a bias.
pub open spec fn made_for_bias(g: GraphView, name: Seq<char>, bias: Seq<char>) -> bool {
    producer(g.ops, name) matches Some(c) && g.ops[c].op_type == "Conv"@ && is_bias(
        g,
        g.ops[c],
        bias,
    )
}

/// Whether a tensor is the sum of a convolution and a bias.
pub open spec fn made_by_biased_conv(g: GraphView, name: Seq<char>) -> bool {
    producer(g.ops, name) matches Some(s) && g.ops[s].op_type == "Add"@ && g.ops[s].inputs.len()
        == 2 && (made_for_bias(g, g.ops[s].inputs[0], g.ops[s].inputs[1]) || made_for_bias(
        g,
        g.ops[s].inputs[1],
        g.ops[s].inputs[0],
    ))
}

/// Whether op `i` looks like a pattern: a Relu of a convolution, a Relu of a
/// convolution and a bias, a product of a tensor and its sigmoid, or a
/// requantization after a convolution that writes the same tensor. Who else reads
/// the tensors is not looked at.
pub open spec fn looks_fuseable(g: GraphView, pass: int, i: int) -> bool {
    let op = g.ops[i];
    if pass == 0 {
        op.op_type == "Relu"@ && op.inputs.len() > 0 && made_by_conv(g, op.inputs[0])
    } else if pass == 1 {
        op.op_type == "Relu"@ && op.inputs.len() > 0 && made_by_biased_conv(g, op.inputs[0])
    } else if pass == 2 {
        op.op_type == "Mul"@ && op.inputs.len() == 2 && sigmoid_in(
            g.ops,
            op.inputs[0],
            op.inputs[1],
        ) is Some
    } else {
        op.op_type == "Requantize"@ && op.outputs.len() > 0 && conv_among(
            g.ops,
            op.outputs[0],
            i as nat,
        ) is Some
    }
}

/// How many of the first `n` ops look like a pattern.
pub open spec fn fuseable_count(g: GraphView, pass: int, n: nat) -> nat
    decreases n,
{
    if n == 0 {
        0
    } else {
        fuseable_count(g, pass, (n - 1) as nat) + if looks_fuseable(g, pass, n - 1) {
            1nat
        } else {
            0
        }
    }
}

fn is_made_by_conv(graph: &Graph, name: &str) -> (r: bool)
    ensures
        r == made_by_conv(graph@, name@),
{
    match find_producer(&graph.ops, name) {
        Some(c) => {
            assert(graph@.ops[c as int] == graph.ops@[c as int]@);
            str_eq(graph.ops[c].op_type.as_str(), "Conv")
        },
        None => false,
    }
}

fn is_made_for_bias(graph: &Graph, name: &str, bias: &str) -> (r: bool)
    ensures
        r == made_for_bias(graph@, name@, bias@),
{
    match find_producer(&graph.ops, name) {
        Some(c) => {
            assert(graph@.ops[c as int] == graph.ops@[c as int]@);
            str_eq(graph.ops[c].op_type.as_str(), "Conv") && check_bias(graph, &graph.ops[c], bias)
        },
        None => false,
    }
}

fn is_made_by_biased_conv(graph: &Graph, name: &str) -> (r: bool)
    ensures
        r == made_by_biased_conv(graph@, name@),
{
    match find_producer(&graph.ops, name) {
        Some(s) => {
            let sum: &CompiledOp = &graph.ops[s];
            assert(graph@.ops[s as int] == sum@);
            if !str_eq(sum.op_type.as_str(), "Add") || sum.inputs.len() != 2 {
                return false;
            }
            assert(sum@.inputs[0] == sum.inputs@[0]@);
            assert(sum@.inputs[1] == sum.inputs@[1]@);
            let a: &str = sum.inputs[0].as_str();
            let b: &str = sum.inputs[1].as_str();
            is_made_for_bias(graph, a, b) || is_made_for_bias(graph, b, a)
        },
        None => false,
    }
}

/// Count fuseable patterns in a graph (for reporting).
pub fn count_fuseable_patterns(graph: &Graph) -> (r: FusionStats)
    ensures
        r.conv_relu == fuseable_count(graph@, 0, graph@.ops.len()),
        r.conv_bias_relu == fuseable_count(graph@, 1, graph@.ops.len()),
        r.silu == fuseable_count(graph@, 2, graph@.ops.len()),
        r.conv_requant_relu_i8 == fuseable_count(graph@, 3, graph@.ops.len()),
        r.conv_relu + r.conv_bias_relu + r.silu + r.conv_requant_relu_i8 <= graph@.ops.len(),
{
    let ghost g = graph@;
    let mut stats: FusionStats = FusionStats::default();
    let mut i: usize = 0;
    while i < graph.ops.len()
        invariant
            i <= graph.ops@.len(),
            g == graph@,
            stats.conv_relu == fuseable_count(g, 0, i as nat),
            stats.conv_bias_relu == fuseable_count(g, 1, i as nat),
            stats.silu == fuseable_count(g, 2, i as nat),
            stats.conv_requant_relu_i8 == fuseable_count(g, 3, i as nat),
            stats.conv_relu + stats.conv_bias_relu + stats.silu + stats.conv_requant_relu_i8 <= i,
        decreases graph.ops@.len() - i,
    {
        let op: &CompiledOp = &graph.ops[i];
        assert(g.ops[i as int] == op@);
        proof {
            lemma_op_types();
        }
        if str_eq(op.op_type.as_str(), "Requantize") {
            if op.outputs.len() > 0 {
                assert(op@.outputs[0] == op.outputs@[0]@);
                if find_conv_among(&graph.ops, op.outputs[0].as_str(), i).is_some() {
                    stats.conv_requant_relu_i8 = stats.conv_requant_relu_i8 + 1;
                }
            }
        } else if op.inputs.len() > 0 {
            assert(op@.inputs[0] == op.inputs@[0]@);
            let name: &str = op.inputs[0].as_str();
            if str_eq(op.op_type.as_str(), "Relu") {
                if is_made_by_conv(graph, name) {
                    stats.conv_relu = stats.conv_relu + 1;
                } else if is_made_by_biased_conv(graph, name) {
                    stats.conv_bias_relu = stats.conv_bias_relu + 1;
                }
            } else if str_eq(op.op_type.as_str(), "Mul") && op.inputs.len() == 2 {
                assert(op@.inputs[1] == op.inputs@[1]@);
                if find_sigmoid(&graph.ops, name, op.inputs[1].as_str()).is_some() {
                    stats.silu = stats.silu + 1;
                }
            }
        }
        i = i + 1;
    }
    stats
}

// ---------------------------------------------------------------------------
// Laws
// ---------------------------------------------------------------------------

/// Which op types the patterns speak of are different.
proof fn lemma_op_types()
    ensures
        "Relu"@ != "Conv"@,
        "Relu"@ != "Sigmoid"@,
        "Relu"@ != "Mul"@,
        "Relu"@ != "Add"@,
        "Relu"@ != "SiLU"@,
        "Relu"@ != "Requantize"@,
        "Conv"@ != "Sigmoid"@,
        "Conv"@ != "Mul"@,
        "Conv"@ != "Add"@,
        "Conv"@ != "SiLU"@,
        "Conv"@ != "Requantize"@,
        "Sigmoid"@ != "Mul"@,
        "Sigmoid"@ != "Add"@,
        "Sigmoid"@ != "SiLU"@,
        "Sigmoid"@ != "Requantize"@,
        "Mul"@ != "Add"@,
        "Mul"@ != "SiLU"@,
        "Mul"@ != "Requantize"@,
        "Add"@ != "SiLU"@,
        "Add"@ != "Requantize"@,
        "SiLU"@ != "Requantize"@,
{
    reveal_strlit("Relu");
    reveal_strlit("Conv");
    reveal_strlit("Sigmoid");
    reveal_strlit("Mul");
    reveal_strlit("Add");
    reveal_strlit("SiLU");
    reveal_strlit("Requantize");
    assert("Relu"@[0] == 'R' && "Conv"@[0] == 'C' && "SiLU"@[0] == 'S');
    assert("Mul"@[0] == 'M' && "Add"@[0] == 'A');
    assert("Relu"@.len() == 4 && "Conv"@.len() == 4 && "SiLU"@.len() == 4);
    assert("Mul"@.len() == 3 && "Add"@.len() == 3);
    assert("Sigmoid"@.len() == 7 && "Requantize"@.len() == 10);
}

proof fn lemma_remaining_count(ops: Seq<OpView>, f: Seq<FusionView>, n: nat)
    ensures
        remaining(ops, f, n).len() <= n,
        (exists|i: int| 0 <= i < n && #[trigger] is_gone(f, i)) ==> remaining(ops, f, n).len() < n,
    decreases n,
{
    if n > 0 {
        lemma_remaining_count(ops, f, (n - 1) as nat);
        if exists|i: int| 0 <= i < n && #[trigger] is_gone(f, i) {
            let i = choose|i: int| 0 <= i < n && #[trigger] is_gone(f, i);
            if i < n - 1 {
                assert(is_gone(f, i));
            }
        }
    }
}

/// A fusion that is found comes from some op.
proof fn lemma_fusion_source(g: GraphView, pass: int, n: nat, j: int) -> (i: int)
    requires
        0 <= j < fusions(g, pass, n).len(),
    ensures
        0 <= i < n,
        fusion_at(g, pass, i) == Some(fusions(g, pass, n)[j]),
    decreases n,
{
    if j < fusions(g, pass, (n - 1) as nat).len() {
        lemma_fusion_source(g, pass, (n - 1) as nat, j)
    } else {
        n - 1
    }
}

/// A fusion of the first `n` passes comes from some op.
proof fn lemma_source_until(g: GraphView, n: nat, j: int) -> (r: (int, int))
    requires
        0 <= j < fusions_until(g, n).len(),
    ensures
        0 <= r.0 < n,
        0 <= r.1 < g.ops.len(),
        fusion_at(g, r.0, r.1) == Some(fusions_until(g, n)[j]),
    decreases n,
{
    let before = fusions_until(g, (n - 1) as nat);
    if j < before.len() {
        lemma_source_until(g, (n - 1) as nat, j)
    } else {
        (n - 1, lemma_fusion_source(g, n - 1, g.ops.len(), j - before.len()))
    }
}

/// A fusion of any pass comes from some op.
proof fn lemma_any_fusion_source(g: GraphView, j: int) -> (r: (int, int))
    requires
        0 <= j < all_fusions(g).len(),
    ensures
        0 <= r.0 < 4,
        0 <= r.1 < g.ops.len(),
        fusion_at(g, r.0, r.1) == Some(all_fusions(g)[j]),
{
    lemma_all_passes(g);
    lemma_source_until(g, 4, j)
}

/// Fusion never adds ops, and removes some as soon as a pattern is found.
pub proof fn law_fusion_shrinks(g: GraphView)
    ensures
        fused(g).len() <= g.ops.len(),
        all_fusions(g).len() > 0 ==> fused(g).len() < g.ops.len(),
{
    let f = all_fusions(g);
    let new = replaced(g.ops, f, f.len());
    lemma_remaining_count(new, f, g.ops.len());
    if f.len() > 0 {
        let (pass, i) = lemma_any_fusion_source(g, 0);
        lemma_fusion_bound(g, pass, i);
        let x = f[0].gone[0];
        assert(f[0].gone.contains(x));
        assert(is_gone(f, x));
    }
}

/// Without a pattern, fusion changes nothing.
pub proof fn law_nothing_to_fuse(g: GraphView)
    requires
        all_fusions(g).len() == 0,
    ensures
        fused(g) == g.ops,
{
    lemma_nothing_gone(g.ops, all_fusions(g), g.ops.len());
    assert(g.ops.take(g.ops.len() as int) =~= g.ops);
}

proof fn lemma_nothing_gone(ops: Seq<OpView>, f: Seq<FusionView>, n: nat)
    requires
        f.len() == 0,
        n <= ops.len(),
    ensures
        remaining(ops, f, n) == ops.take(n as int),
    decreases n,
{
    if n > 0 {
        lemma_nothing_gone(ops, f, (n - 1) as nat);
        assert(!is_gone(f, n - 1));
        assert(ops.take(n - 1).push(ops[n - 1]) =~= ops.take(n as int));
    } else {
        assert(ops.take(0) =~= Seq::empty());
    }
}

proof fn lemma_occurs(names: Seq<Seq<char>>, name: Seq<char>, n: nat, j: int)
    requires
        0 <= j < n <= names.len(),
        names[j] == name,
    ensures
        occurrences(names, name, n) >= 1,
    decreases n,
{
    if j < n - 1 {
        lemma_occurs(names, name, (n - 1) as nat, j);
    }
}

proof fn lemma_contained(names: Seq<Seq<char>>, name: Seq<char>)
    requires
        names.contains(name),
    ensures
        occurrences(names, name, names.len()) >= 1,
{
    let j = choose|j: int| 0 <= j < names.len() && names[j] == name;
    lemma_occurs(names, name, names.len(), j);
}

proof fn lemma_one_read(ops: Seq<OpView>, name: Seq<char>, n: nat, a: int)
    requires
        0 <= a < n <= ops.len(),
        ops[a].inputs.contains(name),
    ensures
        reads(ops, name, n) >= 1,
    decreases n,
{
    if a < n - 1 {
        lemma_one_read(ops, name, (n - 1) as nat, a);
    } else {
        lemma_contained(ops[a].inputs, name);
    }
}

proof fn lemma_two_reads(ops: Seq<OpView>, name: Seq<char>, n: nat, a: int, b: int)
    requires
        0 <= a < b < n <= ops.len(),
        ops[a].inputs.contains(name),
        ops[b].inputs.contains(name),
    ensures
        reads(ops, name, n) >= 2,
    decreases n,
{
    if b < n - 1 {
        lemma_two_reads(ops, name, (n - 1) as nat, a, b);
    } else {
        lemma_one_read(ops, name, (n - 1) as nat, a);
        lemma_contained(ops[b].inputs, name);
    }
}

/// A tensor that is read once, by an op, has no other reader.
proof fn lemma_sole_reader(g: GraphView, name: Seq<char>, a: int, b: int)
    requires
        read_once(g, name),
        0 <= a < g.ops.len(),
        0 <= b < g.ops.len(),
        g.ops[a].inputs.contains(name),
        g.ops[b].inputs.contains(name),
    ensures
        a == b,
        !g.outputs.contains(name),
{
    lemma_one_read(g.ops, name, g.ops.len(), a);
    if a < b {
        lemma_two_reads(g.ops, name, g.ops.len(), a, b);
    } else if b < a {
        lemma_two_reads(g.ops, name, g.ops.len(), b, a);
    }
    if g.outputs.contains(name) {
        lemma_contained(g.outputs, name);
    }
}

/// Whether a convolution and a requantization write one and the same tensor.
pub open spec fn is_requantized(conv: OpView, requant: OpView) -> bool {
    &&& conv.op_type == "Conv"@
    &&& requant.op_type == "Requantize"@
    &&& conv.outputs.len() == 1
    &&& requant.outputs == conv.outputs
}

/// No two ops write the same tensor, but for a convolution and a requantization
/// after it.
pub open spec fn assigned_once(ops: Seq<OpView>) -> bool {
    forall|i: int, j: int, name: Seq<char>|
        0 <= i < j < ops.len() && #[trigger] ops[i].outputs.contains(name)
            && #[trigger] ops[j].outputs.contains(name) ==> is_requantized(ops[i], ops[j])
}

/// Whether a fusion leaves a tensor unwritten that the ops it fuses wrote.
pub open spec fn hidden_by(ops: Seq<OpView>, f: FusionView, name: Seq<char>) -> bool {
    name != f.op.outputs[0] && (name == ops[f.at].outputs[0] || exists|x: int|
        0 <= x < f.gone.len() && name == ops[#[trigger] f.gone[x]].outputs[0])
}

/// Whether an op is of a type that goes away in a fusion.
spec fn may_go(op: OpView) -> bool {
    op.op_type == "Relu"@ || op.op_type == "Add"@ || op.op_type == "Sigmoid"@ || op.op_type
        == "Requantize"@
}

/// The sole reader of a tensor that a fusion hides.
spec fn hidden_reader(ops: Seq<OpView>, f: FusionView, name: Seq<char>) -> int {
    if ops[f.at].op_type == "Mul"@ {
        f.at
    } else if name == ops[f.at].outputs[0] && f.gone.len() == 2 && ops[f.gone[0]].op_type
        == "Add"@ {
        f.gone[0]
    } else {
        f.gone.last()
    }
}

proof fn lemma_produced(ops: Seq<OpView>, name: Seq<char>)
    requires
        producer(ops, name) is Some,
    ensures
        0 <= producer(ops, name)->0 < ops.len(),
        ops[producer(ops, name)->0].outputs.contains(name),
        ops[producer(ops, name)->0].outputs.len() == 1 ==> ops[producer(
            ops,
            name,
        )->0].outputs[0] == name,
        forall|k: int|
            producer(ops, name)->0 < k < ops.len() ==> !(#[trigger] ops[k]).outputs.contains(name),
{
    lemma_producer_bound(ops, name, ops.len());
}

/// What a fusion found at op `i` does, in a graph that assigns each tensor once.
proof fn lemma_fusion_facts(g: GraphView, pass: int, i: int)
    requires
        assigned_once(g.ops),
        0 <= pass < 4,
        0 <= i < g.ops.len(),
        fusion_at(g, pass, i) is Some,
    ensures
        ({
            let f = fusion_at(g, pass, i)->0;
            let ops = g.ops;
            &&& 0 <= f.at < ops.len()
            &&& pass == 2 ==> f.at == i && ops[i].op_type == "Mul"@ && f.op.outputs
                == ops[i].outputs
            &&& pass != 2 ==> ops[f.at].op_type == "Conv"@ && f.op.outputs
                == ops[f.gone.last()].outputs
            &&& f.op.outputs.len() == 1
            &&& ops[f.at].outputs.len() == 1
            &&& 0 < f.gone.len() <= 2
            &&& forall|x: int|
                0 <= x < f.gone.len() ==> 0 <= #[trigger] f.gone[x] < ops.len() && may_go(
                    ops[f.gone[x]],
                ) && ops[f.gone[x]].outputs.len() == 1
            &&& forall|k: Seq<char>| #[trigger]
                hidden_by(ops, f, k) ==> read_once(g, k) && 0 <= hidden_reader(ops, f, k)
                    < ops.len() && ops[hidden_reader(ops, f, k)].inputs.contains(k)
            &&& pass == 0 ==> f.gone == seq![i] && ops[i].op_type == "Relu"@
                && ops[i].inputs.contains(ops[f.at].outputs[0]) && read_once(
                g,
                ops[f.at].outputs[0],
            ) && producer(ops, ops[f.at].outputs[0]) == Some(f.at)
            &&& pass == 1 ==> f.gone.len() == 2 && f.gone[1] == i && ops[f.gone[0]].op_type
                == "Add"@ && ops[f.gone[0]].inputs.contains(ops[f.at].outputs[0]) && read_once(
                g,
                ops[f.at].outputs[0],
            ) && producer(ops, ops[f.at].outputs[0]) == Some(f.at) && ops[i].inputs.contains(
                ops[f.gone[0]].outputs[0],
            ) && read_once(g, ops[f.gone[0]].outputs[0])
            &&& pass == 2 ==> f.gone.len() == 1 && ops[f.gone[0]].op_type == "Sigmoid"@
            &&& pass == 3 ==> f.at < i && ops[i].op_type == "Requantize"@ && f.gone[0] == i
                && ops[f.at].outputs == ops[i].outputs
        }),
{
    let ops = g.ops;
    let op = ops[i];
    let f = fusion_at(g, pass, i)->0;
    lemma_op_types();
    lemma_fusion_bound(g, pass, i);
    if pass == 0 {
        lemma_produced(ops, op.inputs[0]);
        assert(op.inputs[0] == ops[f.at].outputs[0]);
        assert(op.inputs.contains(op.inputs[0]));
        assert(f.gone.last() == i);
    } else if pass == 1 {
        lemma_produced(ops, op.inputs[0]);
        let s = producer(ops, op.inputs[0])->0;
        let (c, bias) = conv_in_sum(g, ops[s].inputs[0], ops[s].inputs[1])->0;
        let name = if conv_with_bias(g, ops[s].inputs[0], ops[s].inputs[1]) is Some {
            ops[s].inputs[0]
        } else {
            ops[s].inputs[1]
        };
        lemma_produced(ops, name);
        assert(op.inputs.contains(op.inputs[0]));
        assert(ops[s].inputs.contains(name));
        assert(f.gone[0] == s && f.gone[1] == i && f.gone.last() == i);
    } else if pass == 2 {
        let a = op.inputs[0];
        let b = op.inputs[1];
        let (s, x) = sigmoid_in(ops, a, b)->0;
        let name = if sigmoid_behind(ops, a, b) is Some {
            a
        } else {
            b
        };
        lemma_produced(ops, name);
        assert(op.inputs.contains(name));
        assert(f.gone[0] == s);
    } else {
        lemma_relu_of_bound(g, op.outputs[0], ops.len());
        lemma_conv_among_bound(ops, op.outputs[0], i as nat);
        assert(op.outputs.contains(op.outputs[0]));
        assert(ops[f.at].outputs.contains(ops[f.at].outputs[0]));
        assert(is_requantized(ops[f.at], op));
        match relu_of(g, op.outputs[0], ops.len()) {
            Some(r) => {
                assert(f.gone[1] == r && f.gone.last() == r);
                assert(ops[r].inputs.contains(ops[r].inputs[0]));
            },
            None => {
                assert(f.gone.last() == i);
            },
        }
    }
    assert forall|k: Seq<char>| #[trigger] hidden_by(ops, f, k) implies read_once(g, k) && 0
        <= hidden_reader(ops, f, k) < ops.len() && ops[hidden_reader(ops, f, k)].inputs.contains(
        k,
    ) by {
        if k != ops[f.at].outputs[0] {
            let x = choose|x: int|
                0 <= x < f.gone.len() && k == ops[#[trigger] f.gone[x]].outputs[0];
            assert(x == 0 || x == 1);
        }
    }
}

/// Two different fusions replace different ops.
proof fn lemma_one_fusion_per_op(g: GraphView, p: int, i: int, q: int, j: int)
    requires
        assigned_once(g.ops),
        0 <= p < 4,
        0 <= q < 4,
        0 <= i < g.ops.len(),
        0 <= j < g.ops.len(),
        fusion_at(g, p, i) is Some,
        fusion_at(g, q, j) is Some,
        fusion_at(g, p, i)->0.at == fusion_at(g, q, j)->0.at,
    ensures
        p == q && i == j,
{
    lemma_op_types();
    lemma_fusion_facts(g, p, i);
    lemma_fusion_facts(g, q, j);
    let ops = g.ops;
    let a = fusion_at(g, p, i)->0;
    let b = fusion_at(g, q, j)->0;
    let t = ops[a.at].outputs[0];
    assert(ops[a.at].outputs.contains(t));
    if p < 2 && q < 2 {
        lemma_sole_reader(g, t, a.gone[0], b.gone[0]);
        if p == 1 {
            lemma_sole_reader(g, ops[a.gone[0]].outputs[0], i, j);
        }
    }
    if p < 2 && q == 3 {
        lemma_produced(ops, t);
        assert(ops[j].outputs.contains(t));
    }
    if p == 3 && q < 2 {
        lemma_produced(ops, t);
        assert(ops[i].outputs.contains(t));
    }
    if p == 3 && q == 3 && i != j {
        assert(ops[i].outputs.contains(t) && ops[j].outputs.contains(t));
    }
}

/// What stands at `c` after the first `n` replacements, if all fusions at `c` say the same.
proof fn lemma_replaced_at(ops: Seq<OpView>, f: Seq<FusionView>, n: nat, c: int, v: OpView)
    requires
        n <= f.len(),
        0 <= c < ops.len(),
        forall|j: int| 0 <= j < f.len() ==> 0 <= (#[trigger] f[j]).at < ops.len(),
        forall|j: int| 0 <= j < f.len() && (#[trigger] f[j]).at == c ==> f[j].op == v,
    ensures
        replaced(ops, f, n).len() == ops.len(),
        (exists|j: int| 0 <= j < n && (#[trigger] f[j]).at == c) ==> replaced(ops, f, n)[c] == v,
        !(exists|j: int| 0 <= j < n && (#[trigger] f[j]).at == c) ==> replaced(ops, f, n)[c] == ops[c],
    decreases n,
{
    if n > 0 {
        lemma_replaced_at(ops, f, (n - 1) as nat, c, v);
        assert(f[n - 1].at == c ==> f[n - 1].op == v);
        if exists|j: int| 0 <= j < n && (#[trigger] f[j]).at == c {
            let j = choose|j: int| 0 <= j < n && (#[trigger] f[j]).at == c;
            if f[n - 1].at != c {
                assert(j < n - 1);
            }
        }
    }
}

proof fn lemma_remains(ops: Seq<OpView>, f: Seq<FusionView>, n: nat, k: int)
    requires
        0 <= k < n,
        !is_gone(f, k),
    ensures
        remaining(ops, f, n).contains(ops[k]),
    decreases n,
{
    let before = remaining(ops, f, (n - 1) as nat);
    if k < n - 1 {
        lemma_remains(ops, f, (n - 1) as nat, k);
        let x = choose|x: int| 0 <= x < before.len() && before[x] == ops[k];
        assert(remaining(ops, f, n)[x] == ops[k]);
    } else {
        assert(remaining(ops, f, n)[before.len() as int] == ops[k]);
    }
}

/// The ops with all fusions put in place.
spec fn all_replaced(g: GraphView) -> Seq<OpView> {
    replaced(g.ops, all_fusions(g), all_fusions(g).len())
}

/// A fusion stands where it was found, and stays.
proof fn lemma_in_place(g: GraphView, j: int)
    requires
        assigned_once(g.ops),
        0 <= j < all_fusions(g).len(),
    ensures
        all_replaced(g).len() == g.ops.len(),
        all_replaced(g)[all_fusions(g)[j].at] == all_fusions(g)[j].op,
        !is_gone(all_fusions(g), all_fusions(g)[j].at),
{
    let f = all_fusions(g);
    let ops = g.ops;
    lemma_op_types();
    let (pass, i) = lemma_any_fusion_source(g, j);
    lemma_fusion_facts(g, pass, i);
    lemma_all_fusions_bound(g);
    let c = f[j].at;
    assert forall|k: int| 0 <= k < f.len() && (#[trigger] f[k]).at == c implies f[k].op == f[j].op by {
        let (p, x) = lemma_any_fusion_source(g, k);
        lemma_one_fusion_per_op(g, pass, i, p, x);
    }
    lemma_replaced_at(ops, f, f.len(), c, f[j].op);
    assert(f[j].at == c);
    if is_gone(f, c) {
        let k = choose|k: int| 0 <= k < f.len() && (#[trigger] f[k]).gone.contains(c);
        let (p, x) = lemma_any_fusion_source(g, k);
        lemma_fusion_facts(g, p, x);
        let y = choose|y: int| 0 <= y < f[k].gone.len() && f[k].gone[y] == c;
        assert(may_go(ops[f[k].gone[y]]));
    }
}

/// An op that no fusion replaces stands as it was.
proof fn lemma_left_alone(g: GraphView, p: int)
    requires
        0 <= p < g.ops.len(),
        forall|j: int| 0 <= j < all_fusions(g).len() ==> (#[trigger] all_fusions(g)[j]).at != p,
    ensures
        all_replaced(g).len() == g.ops.len(),
        all_replaced(g)[p] == g.ops[p],
{
    let f = all_fusions(g);
    lemma_all_fusions_bound(g);
    lemma_replaced_at(g.ops, f, f.len(), p, g.ops[p]);
}

/// Where a tensor that no fusion hides is written afterwards.
proof fn lemma_still_written(g: GraphView, p: int, name: Seq<char>) -> (q: int)
    requires
        assigned_once(g.ops),
        0 <= p < g.ops.len(),
        g.ops[p].outputs.contains(name),
        forall|j: int|
            0 <= j < all_fusions(g).len() ==> !hidden_by(g.ops, #[trigger] all_fusions(g)[j], name),
    ensures
        0 <= q < g.ops.len(),
        all_replaced(g).len() == g.ops.len(),
        !is_gone(all_fusions(g), q),
        all_replaced(g)[q].outputs == g.ops[p].outputs,
        q == p || exists|j: int|
            0 <= j < all_fusions(g).len() && (#[trigger] all_fusions(g)[j]).at == q
                && all_fusions(g)[j].gone.contains(p),
{
    let f = all_fusions(g);
    let ops = g.ops;
    if is_gone(f, p) {
        let j = choose|j: int| 0 <= j < f.len() && (#[trigger] f[j]).gone.contains(p);
        let (pass, i) = lemma_any_fusion_source(g, j);
        lemma_fusion_facts(g, pass, i);
        let x = choose|x: int| 0 <= x < f[j].gone.len() && f[j].gone[x] == p;
        assert(ops[f[j].gone[x]].outputs[0] == name);
        assert(!hidden_by(ops, f[j], name));
        assert(f[j].op.outputs =~= ops[p].outputs);
        lemma_in_place(g, j);
        f[j].at
    } else if exists|j: int| 0 <= j < f.len() && (#[trigger] f[j]).at == p {
        let j = choose|j: int| 0 <= j < f.len() && (#[trigger] f[j]).at == p;
        let (pass, i) = lemma_any_fusion_source(g, j);
        lemma_fusion_facts(g, pass, i);
        assert(!hidden_by(ops, f[j], name));
        assert(f[j].op.outputs =~= ops[p].outputs);
        lemma_in_place(g, j);
        p
    } else {
        lemma_left_alone(g, p);
        p
    }
}

/// Where no two ops write the same tensor (but for a convolution and its
/// requantization), every tensor that is not read exactly once is still written
/// after fusion; being an output of the graph counts as being read. In
/// particular an output that some op reads and a result that nothing reads are:
/// fusion loses no result.
pub proof fn law_fusion_keeps_results(g: GraphView, k: int, name: Seq<char>)
    requires
        assigned_once(g.ops),
        0 <= k < g.ops.len(),
        g.ops[k].outputs.contains(name),
        !read_once(g, name),
    ensures
        exists|x: int|
            0 <= x < fused(g).len() && (#[trigger] fused(g)[x]).outputs == g.ops[k].outputs,
{
    let f = all_fusions(g);
    let out = fused(g);
    assert forall|j: int| 0 <= j < f.len() implies !hidden_by(g.ops, #[trigger] f[j], name) by {
        let (pass, i) = lemma_any_fusion_source(g, j);
        lemma_fusion_facts(g, pass, i);
    }
    let q = lemma_still_written(g, k, name);
    lemma_remains(all_replaced(g), f, g.ops.len(), q);
    let y = choose|y: int| 0 <= y < out.len() && out[y] == all_replaced(g)[q];
    assert(out[y].outputs == g.ops[k].outputs);
}

/// Every output of the graph that an op wrote is still written after fusion.
pub proof fn law_fusion_keeps_outputs(g: GraphView, k: int, name: Seq<char>)
    requires
        assigned_once(g.ops),
        0 <= k < g.ops.len(),
        g.ops[k].outputs.contains(name),
        g.outputs.contains(name),
    ensures
        exists|x: int|
            0 <= x < fused(g).len() && (#[trigger] fused(g)[x]).outputs == g.ops[k].outputs,
{
    let f = all_fusions(g);
    let out = fused(g);
    lemma_outputs_not_hidden(g, name);
    let q = lemma_still_written(g, k, name);
    lemma_remains(all_replaced(g), f, g.ops.len(), q);
    let y = choose|y: int| 0 <= y < out.len() && out[y] == all_replaced(g)[q];
    assert(out[y].outputs == g.ops[k].outputs);
}

proof fn lemma_outputs_not_hidden(g: GraphView, name: Seq<char>)
    requires
        assigned_once(g.ops),
        g.outputs.contains(name),
    ensures
        forall|j: int|
            0 <= j < all_fusions(g).len() ==> !hidden_by(g.ops, #[trigger] all_fusions(g)[j], name),
{
    let f = all_fusions(g);
    assert forall|j: int| 0 <= j < f.len() implies !hidden_by(g.ops, #[trigger] f[j], name) by {
        let (pass, i) = lemma_any_fusion_source(g, j);
        lemma_fusion_facts(g, pass, i);
        if hidden_by(g.ops, f[j], name) {
            let r = hidden_reader(g.ops, f[j], name);
            lemma_sole_reader(g, name, r, r);
        }
    }
}

} // verus!
