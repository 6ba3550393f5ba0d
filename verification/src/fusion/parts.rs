//! Fused ops taken apart, for runtimes that have no kernel for them.

use vstd::prelude::*;
use vstd::string::*;
use crate::builder::{CompiledOp, OpParams, OpView, ParamsView};
use crate::fusion::without_relu;
use crate::graph::{Graph, GraphView};
use crate::model::{copy_names, lemma_views_push, views};
use crate::text::str_eq;

verus! {

/// Whether an op is `x * sigmoid(x)` of one tensor into another.
pub open spec fn is_silu(op: OpView) -> bool {
    op.op_type == "SiLU"@ && op.params is Empty && op.inputs.len() == 1 && op.outputs.len() == 1
        && op.inputs[0] != op.outputs[0]
}

/// An op on tensors that also has a name.
pub open spec fn step(
    name: Seq<char>,
    op_type: Seq<char>,
    inputs: Seq<Seq<char>>,
    outputs: Seq<Seq<char>>,
    params: ParamsView,
) -> OpView {
    OpView { name, op_type, inputs, outputs, params }
}

/// What an op consists of: a convolution with a Relu is the convolution and a
/// Relu in place; SiLU (if it is to be taken apart) is the sigmoid, and the
/// product with it in place; any other op stands for itself.
pub open spec fn parts(op: OpView, silu: bool) -> Seq<OpView> {
    match without_relu(op.params) {
        Some(params) => if op.outputs.len() == 1 {
            seq![
                OpView { params, ..op },
                step(op.name, "Relu"@, op.outputs, op.outputs, ParamsView::Empty),
            ]
        } else {
            seq![OpView { params, ..op }]
        },
        None => if silu && is_silu(op) {
            seq![
                step(op.name, "Sigmoid"@, op.inputs, op.outputs, ParamsView::Sigmoid),
                step(
                    op.name,
                    "Mul"@,
                    seq![op.inputs[0], op.outputs[0]],
                    op.outputs,
                    ParamsView::Mul,
                ),
            ]
        } else {
            seq![op]
        },
    }
}

/// The first `n` ops taken apart.
pub open spec fn apart(ops: Seq<OpView>, silu: bool, n: nat) -> Seq<OpView>
    decreases n,
{
    if n == 0 {
        Seq::empty()
    } else {
        apart(ops, silu, (n - 1) as nat) + parts(ops[n - 1], silu)
    }
}

/// Whether an op is fused, and is to be taken apart.
pub open spec fn is_fused(op: OpView, silu: bool) -> bool {
    without_relu(op.params) is Some || (silu && is_silu(op))
}

/// A graph with its fused ops taken apart; without any it stays as it is.
pub open spec fn taken_apart(g: GraphView, silu: bool) -> GraphView {
    if exists|i: int| 0 <= i < g.ops.len() && is_fused(#[trigger] g.ops[i], silu) {
        GraphView { ops: apart(g.ops, silu, g.ops.len()), ..g }
    } else {
        g
    }
}

fn drop_relu(p: &OpParams) -> (r: Option<OpParams>)
    ensures
        match r {
            Some(q) => without_relu(p@) == Some(q@),
            None => without_relu(p@) is None,
        },
{
    match p {
        OpParams::Conv2dRelu { kernel_shape, strides, pads, dilations, group } => Some(
            OpParams::Conv2d {
                kernel_shape: *kernel_shape,
                strides: *strides,
                pads: *pads,
                dilations: *dilations,
                group: *group,
            },
        ),
        _ => None,
    }
}

fn check_silu(op: &CompiledOp) -> (r: bool)
    ensures
        r == is_silu(op@),
{
    let plain: bool = match &op.params {
        OpParams::Empty => true,
        _ => false,
    };
    if str_eq(op.op_type.as_str(), "SiLU") && plain && op.inputs.len() == 1 && op.outputs.len() == 1 {
        assert(op@.inputs[0] == op.inputs@[0]@);
        assert(op@.outputs[0] == op.outputs@[0]@);
        !str_eq(op.inputs[0].as_str(), op.outputs[0].as_str())
    } else {
        false
    }
}

fn make_step(op: &CompiledOp, op_type: &str, inputs: Vec<String>, params: OpParams) -> (r:
    CompiledOp)
    ensures
        r@ == step(op@.name, op_type@, views(inputs@), op@.outputs, params@),
{
    CompiledOp {
        name: op.name.clone(),
        op_type: op_type.to_owned(),
        inputs,
        outputs: copy_names(&op.outputs),
        params,
    }
}

fn push_parts(to: &mut Vec<CompiledOp>, op: &CompiledOp, silu: bool)
    ensures
        views(final(to)@) == views(old(to)@) + parts(op@, silu),
{
    broadcast use lemma_views_push;

    let ghost before = views(to@);
    match drop_relu(&op.params) {
        Some(params) => {
            to.push(
                CompiledOp {
                    name: op.name.clone(),
                    op_type: op.op_type.clone(),
                    inputs: copy_names(&op.inputs),
                    outputs: copy_names(&op.outputs),
                    params,
                },
            );
            if op.outputs.len() == 1 {
                to.push(make_step(op, "Relu", copy_names(&op.outputs), OpParams::Empty));
            }
        },
        None => {
            if silu && check_silu(op) {
                to.push(make_step(op, "Sigmoid", copy_names(&op.inputs), OpParams::Sigmoid));
                let mut factors: Vec<String> = copy_names(&op.inputs);
                factors.push(op.outputs[0].clone());
                assert(op@.outputs[0] == op.outputs@[0]@);
                assert(views(factors@) =~= seq![op@.inputs[0], op@.outputs[0]]);
                to.push(make_step(op, "Mul", factors, OpParams::Mul));
            } else {
                to.push(op.clone());
            }
        },
    }
    assert(views(to@) =~= before + parts(op@, silu));
}

/// Take the fused ops of a graph apart.
pub fn take_apart(graph: Graph, silu: bool) -> (r: Graph)
    ensures
        r@ == taken_apart(graph@, silu),
{
    let ghost g = graph@;
    let ghost ops = graph@.ops;
    let mut graph: Graph = graph;
    let mut all: Vec<CompiledOp> = Vec::new();
    let mut i: usize = 0;
    assert(views(all@) =~= Seq::empty());
    while i < graph.ops.len()
        invariant
            i <= graph.ops@.len(),
            g == graph@,
            ops == g.ops,
            views(all@) == apart(ops, silu, i as nat),
        decreases graph.ops@.len() - i,
    {
        assert(ops[i as int] == graph.ops@[i as int]@);
        push_parts(&mut all, &graph.ops[i], silu);
        i = i + 1;
    }
    graph.ops = all;
    proof {
        lemma_taken_apart(g, silu);
    }
    graph
}

/// With or without fused ops, the graph consists of the parts of its ops.
pub(crate) proof fn lemma_taken_apart(g: GraphView, silu: bool)
    ensures
        taken_apart(g, silu) == (GraphView { ops: apart(g.ops, silu, g.ops.len()), ..g }),
{
    if !(exists|i: int| 0 <= i < g.ops.len() && is_fused(#[trigger] g.ops[i], silu)) {
        lemma_nothing_to_take_apart(g.ops, silu, g.ops.len());
        assert(g.ops.take(g.ops.len() as int) =~= g.ops);
    }
}

proof fn lemma_nothing_to_take_apart(ops: Seq<OpView>, silu: bool, n: nat)
    requires
        n <= ops.len(),
        forall|i: int| 0 <= i < ops.len() ==> !is_fused(#[trigger] ops[i], silu),
    ensures
        apart(ops, silu, n) == ops.take(n as int),
    decreases n,
{
    if n > 0 {
        lemma_nothing_to_take_apart(ops, silu, (n - 1) as nat);
        assert(parts(ops[n - 1], silu) == seq![ops[n - 1]]);
        assert(ops.take(n - 1) + seq![ops[n - 1]] =~= ops.take(n as int));
    } else {
        assert(ops.take(0) =~= Seq::empty());
    }
}

} // verus!
