//! Compiled graphs and their compilation.

use vstd::prelude::*;
use vstd::string::*;
use crate::builder::{
    BuildContext, CompiledOp, ContextView, OpView, ReasonView, ReportView, UnsupportedReason,
    ValidationReport,
};
use crate::builder::reason_text;
use crate::error::{error_text, outcome, Error, ErrorView};
use crate::model::{
    copy_vec, lemma_views_push, views, DataType, Model, ModelView, NodeView, OnnxNode, OnnxTensor,
    TensorView, ValueInfo, ValueInfoView,
};
use crate::name_map::NameMap;
use crate::ops::common::{sizes, to_sizes};
use crate::ops::{
    builder_of, built, get_builder, law_build_keeps_identity, law_builders_by_op_type, unsupported,
};
use crate::tensor::{plain_shape, Dtype, ShapeView, TensorShape};
use crate::text::{concat2, concat3, join, joined, str_eq};

verus! {

/// A compiled graph ready for execution.
#[derive(Debug)]
pub struct Graph {
    /// Compiled ops in topological order.
    pub ops: Vec<CompiledOp>,
    /// Tensor shapes (name to shape).
    pub shapes: NameMap<TensorShape>,
    /// Input tensor names.
    pub inputs: Vec<String>,
    /// Output tensor names.
    pub outputs: Vec<String>,
    /// Initializer data (name to raw bytes).
    pub initializers: NameMap<Vec<u8>>,
    /// The dtype the graph was compiled with.
    pub dtype: Dtype,
}

/// The contents of a [`Graph`].
pub struct GraphView {
    pub ops: Seq<OpView>,
    pub shapes: Map<Seq<char>, ShapeView>,
    pub inputs: Seq<Seq<char>>,
    pub outputs: Seq<Seq<char>>,
    pub initializers: Map<Seq<char>, Seq<u8>>,
    pub dtype: Dtype,
}

impl View for Graph {
    type V = GraphView;

    open spec fn view(&self) -> GraphView {
        GraphView {
            ops: views(self.ops@),
            shapes: self.shapes@,
            inputs: views(self.inputs@),
            outputs: views(self.outputs@),
            initializers: self.initializers@,
            dtype: self.dtype,
        }
    }
}

/// The first `n` names that have a shape, each with its shape.
pub open spec fn named_shapes(names: Seq<Seq<char>>, shapes: Map<Seq<char>, ShapeView>, n: nat) -> Seq<
    (Seq<char>, ShapeView),
>
    decreases n,
{
    if n == 0 {
        Seq::empty()
    } else {
        let before = named_shapes(names, shapes, (n - 1) as nat);
        if shapes.dom().contains(names[n - 1]) {
            before.push((names[n - 1], shapes[names[n - 1]]))
        } else {
            before
        }
    }
}

/// Pairs of names and shapes, seen through their views.
pub open spec fn pair_views(v: Seq<(&str, &TensorShape)>) -> Seq<(Seq<char>, ShapeView)> {
    v.map_values(|p: (&str, &TensorShape)| (p.0@, p.1@))
}

fn shapes_of<'a>(names: &'a Vec<String>, shapes: &'a NameMap<TensorShape>) -> (r: Vec<
    (&'a str, &'a TensorShape),
>)
    ensures
        pair_views(r@) == named_shapes(views(names@), shapes@, names@.len()),
{
    let mut r: Vec<(&'a str, &'a TensorShape)> = Vec::new();
    let mut i: usize = 0;
    assert(pair_views(r@) =~= Seq::empty());
    while i < names.len()
        invariant
            i <= names@.len(),
            pair_views(r@) == named_shapes(views(names@), shapes@, i as nat),
        decreases names@.len() - i,
    {
        let ghost before = r@;
        assert(views(names@)[i as int] == names@[i as int]@);
        match shapes.get(names[i].as_str()) {
            Some(s) => {
                r.push((names[i].as_str(), s));
                assert(pair_views(r@) =~= pair_views(before).push((names@[i as int]@, s@)));
            },
            None => {},
        }
        i = i + 1;
    }
    r
}

impl Graph {
    /// Get the input tensor names and shapes.
    pub fn input_info(&self) -> (r: Vec<(&str, &TensorShape)>)
        ensures
            pair_views(r@) == named_shapes(self@.inputs, self@.shapes, self@.inputs.len()),
    {
        shapes_of(&self.inputs, &self.shapes)
    }

    /// Get the output tensor names and shapes.
    pub fn output_info(&self) -> (r: Vec<(&str, &TensorShape)>)
        ensures
            pair_views(r@) == named_shapes(self@.outputs, self@.shapes, self@.outputs.len()),
    {
        shapes_of(&self.outputs, &self.shapes)
    }

    /// Get the total number of ops.
    pub fn num_ops(&self) -> (r: usize)
        ensures
            r == self@.ops.len(),
    {
        self.ops.len()
    }
}

// ---------------------------------------------------------------------------
// The context a model starts from
// ---------------------------------------------------------------------------

/// The element type of an initializer in a graph compiled in `default`.
pub open spec fn graph_dtype(t: DataType, default: Dtype) -> Dtype {
    match t {
        DataType::Float => Dtype::F32,
        DataType::Float16 => Dtype::F16,
        _ => default,
    }
}

/// Convert a model's data type to a graph's; weights stored as other types
/// take the graph's own.
pub fn onnx_dtype_to_dragonwing(onnx_dtype: DataType, default: Dtype) -> (r: Dtype)
    ensures
        r == graph_dtype(onnx_dtype, default),
{
    match onnx_dtype {
        DataType::Float => Dtype::F32,
        DataType::Float16 => Dtype::F16,
        _ => default,
    }
}

/// The first `n` initializers by name; a later one replaces an earlier one.
pub open spec fn tensors_by_name(tensors: Seq<TensorView>, n: nat) -> Map<Seq<char>, TensorView>
    decreases n,
{
    if n == 0 {
        Map::empty()
    } else {
        tensors_by_name(tensors, (n - 1) as nat).insert(tensors[n - 1].name, tensors[n - 1])
    }
}

/// The initializers of a model by name.
pub fn index_tensors(tensors: &Vec<OnnxTensor>) -> (r: NameMap<OnnxTensor>)
    ensures
        r@ == tensors_by_name(views(tensors@), tensors@.len()),
{
    let mut r: NameMap<OnnxTensor> = NameMap::new();
    let mut i: usize = 0;
    while i < tensors.len()
        invariant
            i <= tensors@.len(),
            r@ == tensors_by_name(views(tensors@), i as nat),
        decreases tensors@.len() - i,
    {
        assert(views(tensors@)[i as int] == tensors@[i as int]@);
        r.insert(tensors[i].name.clone(), tensors[i].clone());
        i = i + 1;
    }
    r
}

/// The dimensions of a graph input; a dynamic one counts as 1.
pub open spec fn input_dims(shape: Seq<i64>) -> Seq<usize> {
    shape.map_values(|d: i64| if d < 0 { 1 } else { d as usize })
}

fn static_dims(shape: &Vec<i64>) -> (r: Vec<usize>)
    ensures
        r@ == input_dims(shape@),
{
    let mut r: Vec<usize> = Vec::new();
    let mut i: usize = 0;
    while i < shape.len()
        invariant
            i <= shape@.len(),
            r@ == input_dims(shape@).take(i as int),
        decreases shape@.len() - i,
    {
        r.push(
            if shape[i] < 0 {
                1
            } else {
                shape[i] as usize
            },
        );
        i = i + 1;
        assert(r@ =~= input_dims(shape@).take(i as int));
    }
    assert(input_dims(shape@).take(i as int) =~= input_dims(shape@));
    r
}

/// The context with the shapes of the first `n` inputs that are no initializers.
pub open spec fn with_inputs(ctx: ContextView, inputs: Seq<ValueInfoView>, n: nat) -> ContextView
    decreases n,
{
    if n == 0 {
        ctx
    } else {
        let before = with_inputs(ctx, inputs, (n - 1) as nat);
        let input = inputs[n - 1];
        if ctx.initializers.dom().contains(input.name) {
            before
        } else {
            before.with_shape(input.name, plain_shape(input_dims(input.shape), ctx.dtype))
        }
    }
}

/// The names of the first `n` inputs that are no initializers.
pub open spec fn input_names(ctx: ContextView, inputs: Seq<ValueInfoView>, n: nat) -> Seq<Seq<char>>
    decreases n,
{
    if n == 0 {
        Seq::empty()
    } else {
        let before = input_names(ctx, inputs, (n - 1) as nat);
        if ctx.initializers.dom().contains(inputs[n - 1].name) {
            before
        } else {
            before.push(inputs[n - 1].name)
        }
    }
}

/// The context with the shapes of the first `n` initializers.
pub open spec fn with_tensors(ctx: ContextView, tensors: Seq<TensorView>, n: nat) -> ContextView
    decreases n,
{
    if n == 0 {
        ctx
    } else {
        let t = tensors[n - 1];
        with_tensors(ctx, tensors, (n - 1) as nat).with_shape(
            t.name,
            plain_shape(sizes(t.dims), graph_dtype(t.data_type, ctx.dtype)),
        )
    }
}

/// The context before anything is known of a model but its initializers.
pub open spec fn bare_context(model: ModelView, dtype: Dtype) -> ContextView {
    ContextView {
        dtype,
        shapes: Map::empty(),
        initializers: tensors_by_name(model.graph.initializers, model.graph.initializers.len()),
        constants: Map::empty(),
    }
}

/// The context before the first node of a model.
pub open spec fn start_context(model: ModelView, dtype: Dtype) -> ContextView {
    let g = model.graph;
    with_tensors(
        with_inputs(bare_context(model, dtype), g.inputs, g.inputs.len()),
        g.initializers,
        g.initializers.len(),
    )
}

proof fn lemma_with_inputs_keep(ctx: ContextView, inputs: Seq<ValueInfoView>, n: nat)
    ensures
        with_inputs(ctx, inputs, n).initializers == ctx.initializers,
        with_inputs(ctx, inputs, n).dtype == ctx.dtype,
        with_inputs(ctx, inputs, n).constants == ctx.constants,
    decreases n,
{
    if n > 0 {
        lemma_with_inputs_keep(ctx, inputs, (n - 1) as nat);
    }
}

fn register_inputs(ctx: &mut BuildContext<'_>, inputs: &Vec<ValueInfo>) -> (r: Vec<String>)
    ensures
        final(ctx)@ == with_inputs(old(ctx)@, views(inputs@), inputs@.len()),
        views(r@) == input_names(old(ctx)@, views(inputs@), inputs@.len()),
{
    let mut names: Vec<String> = Vec::new();
    let mut i: usize = 0;
    assert(views(names@) =~= Seq::empty());
    while i < inputs.len()
        invariant
            i <= inputs@.len(),
            ctx@ == with_inputs(old(ctx)@, views(inputs@), i as nat),
            views(names@) == input_names(old(ctx)@, views(inputs@), i as nat),
        decreases inputs@.len() - i,
    {
        broadcast use lemma_views_push;

        proof {
            lemma_with_inputs_keep(old(ctx)@, views(inputs@), i as nat);
            assert(views(inputs@)[i as int] == inputs@[i as int]@);
        }
        let input: &ValueInfo = &inputs[i];
        if !ctx.is_initializer(input.name.as_str()) {
            let shape: TensorShape = TensorShape::new(static_dims(&input.shape), ctx.dtype);
            ctx.set_shape(input.name.clone(), shape);
            names.push(input.name.clone());
        }
        i = i + 1;
    }
    names
}

fn register_tensors(ctx: &mut BuildContext<'_>, tensors: &Vec<OnnxTensor>)
    ensures
        final(ctx)@ == with_tensors(old(ctx)@, views(tensors@), tensors@.len()),
{
    let ghost start = ctx@;
    let mut i: usize = 0;
    while i < tensors.len()
        invariant
            i <= tensors@.len(),
            start == old(ctx)@,
            ctx@.dtype == start.dtype,
            ctx@ == with_tensors(start, views(tensors@), i as nat),
        decreases tensors@.len() - i,
    {
        assert(views(tensors@)[i as int] == tensors@[i as int]@);
        let t: &OnnxTensor = &tensors[i];
        let shape: TensorShape = TensorShape::new(
            to_sizes(&t.dims),
            onnx_dtype_to_dragonwing(t.data_type, ctx.dtype),
        );
        ctx.set_shape(t.name.clone(), shape);
        i = i + 1;
    }
}

// ---------------------------------------------------------------------------
// Walking the nodes
// ---------------------------------------------------------------------------

/// What is known after some of the nodes.
pub struct Progress {
    /// Which nodes are supported.
    pub report: ReportView,
    /// Shapes and constants so far.
    pub ctx: ContextView,
    /// The compiled ops of the supported nodes.
    pub ops: Seq<OpView>,
}

impl Progress {
    /// A node turned out not to be supported.
    pub open spec fn rejects(self, name: Seq<char>, reason: ReasonView) -> Progress {
        Progress {
            report: ReportView {
                unsupported: self.report.unsupported.push((name, reason)),
                ..self.report
            },
            ..self
        }
    }
}

/// One node: it is built if its op type is known and its form is supported.
pub open spec fn node_step(p: Progress, node: NodeView) -> Progress {
    match builder_of(node.op_type) {
        None => p.rejects(node.name, ReasonView::UnknownOpType),
        Some(b) => match unsupported(b, node, p.ctx) {
            Some(reason) => p.rejects(node.name, reason),
            None => match built(b, node, p.ctx) {
                Err(e) => p.rejects(node.name, ReasonView::Other(error_text(e))),
                Ok((op, ctx)) => Progress {
                    report: ReportView {
                        supported: p.report.supported.push(node.name),
                        ..p.report
                    },
                    ctx,
                    ops: p.ops.push(op),
                },
            },
        },
    }
}

/// The first `n` nodes in order.
pub open spec fn walked(start: Progress, nodes: Seq<NodeView>, n: nat) -> Progress
    decreases n,
{
    if n == 0 {
        start
    } else {
        node_step(walked(start, nodes, (n - 1) as nat), nodes[n - 1])
    }
}

/// All nodes of a model.
pub open spec fn walked_model(model: ModelView, dtype: Dtype) -> Progress {
    walked(
        Progress {
            report: ReportView { supported: Seq::empty(), unsupported: Seq::empty() },
            ctx: start_context(model, dtype),
            ops: Seq::empty(),
        },
        model.graph.nodes,
        model.graph.nodes.len(),
    )
}

spec fn rejected(v: Seq<(String, UnsupportedReason)>) -> Seq<(Seq<char>, ReasonView)> {
    v.map_values(|e: (String, UnsupportedReason)| (e.0@, e.1@))
}

fn reject(report: &mut ValidationReport, name: &String, reason: UnsupportedReason)
    ensures
        final(report)@ == (ReportView {
            unsupported: old(report)@.unsupported.push((name@, reason@)),
            ..old(report)@
        }),
{
    let ghost before = report.unsupported@;
    report.unsupported.push((name.clone(), reason));
    assert(rejected(report.unsupported@) =~= rejected(before).push((name@, reason@)));
}

/// Walk the nodes of a model, recording shapes, constants and the report, and
/// giving the compiled ops.
fn walk(nodes: &Vec<OnnxNode>, ctx: &mut BuildContext<'_>, report: &mut ValidationReport) -> (r: Vec<
    CompiledOp,
>)
    ensures
        (Progress { report: final(report)@, ctx: final(ctx)@, ops: views(r@) }) == walked(
            Progress { report: old(report)@, ctx: old(ctx)@, ops: Seq::empty() },
            views(nodes@),
            nodes@.len(),
        ),
{
    let ghost start = Progress { report: report@, ctx: ctx@, ops: Seq::empty() };
    let mut ops: Vec<CompiledOp> = Vec::new();
    let mut i: usize = 0;
    assert(views(ops@) =~= Seq::empty());
    while i < nodes.len()
        invariant
            i <= nodes@.len(),
            (Progress { report: report@, ctx: ctx@, ops: views(ops@) }) == walked(
                start,
                views(nodes@),
                i as nat,
            ),
        decreases nodes@.len() - i,
    {
        broadcast use lemma_views_push;

        let node: &OnnxNode = &nodes[i];
        assert(views(nodes@)[i as int] == node@);
        match get_builder(node.op_type.as_str()) {
            None => {
                reject(report, &node.name, UnsupportedReason::UnknownOpType);
            },
            Some(b) => match b.is_supported(node, ctx) {
                Err(reason) => {
                    reject(report, &node.name, reason);
                },
                Ok(_) => match b.build(node, ctx) {
                    Err(e) => {
                        reject(report, &node.name, UnsupportedReason::Other(e.message()));
                    },
                    Ok(op) => {
                        ops.push(op);
                        report.supported.push(node.name.clone());
                    },
                },
            },
        }
        i = i + 1;
    }
    ops
}

/// Validate a model without compiling it.
///
/// Returns a report of supported and unsupported ops.
pub fn validate_model(model: &Model, dtype: Dtype) -> (r: ValidationReport)
    ensures
        r@ == walked_model(model@, dtype).report,
{
    let initializers: NameMap<OnnxTensor> = index_tensors(&model.initializers);
    let mut ctx: BuildContext<'_> = BuildContext::new(dtype, &initializers);
    let mut report: ValidationReport = ValidationReport::default();
    let names: Vec<String> = register_inputs(&mut ctx, &model.inputs);
    register_tensors(&mut ctx, &model.initializers);
    proof {
        assert(report@.supported =~= Seq::empty());
        assert(report@.unsupported =~= Seq::empty());
    }
    let ops: Vec<CompiledOp> = walk(&model.nodes, &mut ctx, &mut report);
    report
}

// ---------------------------------------------------------------------------
// Compilation
// ---------------------------------------------------------------------------

/// Whether an op reads or writes a tensor.
pub open spec fn touches(op: OpView, name: Seq<char>) -> bool {
    op.inputs.contains(name) || op.outputs.contains(name)
}

/// Whether a tensor is read or written by an op or is an output of the graph.
pub open spec fn is_used(ops: Seq<OpView>, outputs: Seq<Seq<char>>, name: Seq<char>) -> bool {
    outputs.contains(name) || exists|i: int| 0 <= i < ops.len() && touches(#[trigger] ops[i], name)
}

/// Of the first `n` initializers, the bytes of those that are used and are no
/// shape tensors (which hold 64-bit integers).
pub open spec fn kept_data(
    tensors: Seq<TensorView>,
    ops: Seq<OpView>,
    outputs: Seq<Seq<char>>,
    n: nat,
) -> Map<Seq<char>, Seq<u8>>
    decreases n,
{
    if n == 0 {
        Map::empty()
    } else {
        let before = kept_data(tensors, ops, outputs, (n - 1) as nat);
        let t = tensors[n - 1];
        if is_used(ops, outputs, t.name) && t.data_type != DataType::Int64 {
            before.insert(t.name, t.data)
        } else {
            before
        }
    }
}

/// The names of values.
pub open spec fn value_names(v: Seq<ValueInfoView>) -> Seq<Seq<char>> {
    v.map_values(|x: ValueInfoView| x.name)
}

/// What is wrong with each unsupported node, one piece of text for each.
pub open spec fn complaints(unsupported: Seq<(Seq<char>, ReasonView)>) -> Seq<Seq<char>> {
    unsupported.map_values(|e: (Seq<char>, ReasonView)| e.0 + ": "@ + reason_text(e.1))
}

/// The graph that a model compiles to. It does exactly if every node is supported.
pub open spec fn compiled(model: ModelView, dtype: Dtype) -> Result<GraphView, ErrorView> {
    let p = walked_model(model, dtype);
    let outputs = value_names(model.graph.outputs);
    if p.report.unsupported.len() != 0 {
        Err(
            ErrorView::Validation(
                "Model has unsupported ops:\n  "@ + joined(
                    complaints(p.report.unsupported),
                    "\n  "@,
                ),
            ),
        )
    } else {
        Ok(
            GraphView {
                ops: p.ops,
                shapes: p.ctx.shapes,
                inputs: input_names(
                    bare_context(model, dtype),
                    model.graph.inputs,
                    model.graph.inputs.len(),
                ),
                outputs,
                initializers: kept_data(
                    model.graph.initializers,
                    p.ops,
                    outputs,
                    model.graph.initializers.len(),
                ),
                dtype,
            },
        )
    }
}

/// Whether a name is in a list.
pub fn contains_name(names: &Vec<String>, name: &str) -> (r: bool)
    ensures
        r == views(names@).contains(name@),
{
    let mut i: usize = 0;
    while i < names.len()
        invariant
            i <= names@.len(),
            forall|k: int| 0 <= k < i ==> #[trigger] views(names@)[k] != name@,
        decreases names@.len() - i,
    {
        assert(views(names@)[i as int] == names@[i as int]@);
        if str_eq(names[i].as_str(), name) {
            assert(views(names@)[i as int] == name@);
            return true;
        }
        i = i + 1;
    }
    false
}

fn tensor_is_used(ops: &Vec<CompiledOp>, outputs: &Vec<String>, name: &str) -> (r: bool)
    ensures
        r == is_used(views(ops@), views(outputs@), name@),
{
    if contains_name(outputs, name) {
        return true;
    }
    let mut i: usize = 0;
    while i < ops.len()
        invariant
            i <= ops@.len(),
            forall|k: int| 0 <= k < i ==> !touches(#[trigger] views(ops@)[k], name@),
        decreases ops@.len() - i,
    {
        assert(views(ops@)[i as int] == ops@[i as int]@);
        if contains_name(&ops[i].inputs, name) || contains_name(&ops[i].outputs, name) {
            assert(touches(views(ops@)[i as int], name@));
            return true;
        }
        i = i + 1;
    }
    false
}

fn keep_data(tensors: &Vec<OnnxTensor>, ops: &Vec<CompiledOp>, outputs: &Vec<String>) -> (r: NameMap<
    Vec<u8>,
>)
    ensures
        r@ == kept_data(views(tensors@), views(ops@), views(outputs@), tensors@.len()),
{
    let mut r: NameMap<Vec<u8>> = NameMap::new();
    let mut i: usize = 0;
    while i < tensors.len()
        invariant
            i <= tensors@.len(),
            r@ == kept_data(views(tensors@), views(ops@), views(outputs@), i as nat),
        decreases tensors@.len() - i,
    {
        let t: &OnnxTensor = &tensors[i];
        assert(views(tensors@)[i as int] == t@);
        if tensor_is_used(ops, outputs, t.name.as_str()) && t.data_type != DataType::Int64 {
            r.insert(t.name.clone(), copy_vec(&t.data));
        }
        i = i + 1;
    }
    r
}

fn output_names(outputs: &Vec<ValueInfo>) -> (r: Vec<String>)
    ensures
        views(r@) == value_names(views(outputs@)),
{
    let ghost all = value_names(views(outputs@));
    let mut r: Vec<String> = Vec::new();
    let mut i: usize = 0;
    assert(views(r@) =~= all.take(0));
    while i < outputs.len()
        invariant
            i <= outputs@.len(),
            all == value_names(views(outputs@)),
            views(r@) == all.take(i as int),
        decreases outputs@.len() - i,
    {
        broadcast use lemma_views_push;

        let ghost before = views(r@);
        r.push(outputs[i].name.clone());
        i = i + 1;
        assert(before.push(outputs@[i - 1].name@) =~= all.take(i as int));
    }
    assert(all.take(i as int) =~= all);
    r
}

fn complain(unsupported: &Vec<(String, UnsupportedReason)>) -> (r: Error)
    ensures
        r@ == ErrorView::Validation(
            "Model has unsupported ops:\n  "@ + joined(
                complaints(rejected(unsupported@)),
                "\n  "@,
            ),
        ),
{
    let ghost all = complaints(rejected(unsupported@));
    let mut lines: Vec<String> = Vec::new();
    let mut i: usize = 0;
    assert(views(lines@) =~= all.take(0));
    while i < unsupported.len()
        invariant
            i <= unsupported@.len(),
            all == complaints(rejected(unsupported@)),
            views(lines@) == all.take(i as int),
        decreases unsupported@.len() - i,
    {
        broadcast use lemma_views_push;

        let ghost before = views(lines@);
        let reason: String = unsupported[i].1.message();
        let line: String = concat3(unsupported[i].0.as_str(), ": ", reason.as_str());
        let ghost text = line@;
        lines.push(line);
        i = i + 1;
        assert(before.push(text) =~= all.take(i as int));
    }
    assert(all.take(i as int) =~= all);
    let body: String = join(&lines, "\n  ");
    Error::Validation(concat2("Model has unsupported ops:\n  ", body.as_str()))
}

/// Compile a model into an executable graph.
pub fn compile_model(model: &Model, dtype: Dtype) -> (r: Result<Graph, Error>)
    ensures
        outcome(r) == compiled(model@, dtype),
{
    let initializers: NameMap<OnnxTensor> = index_tensors(&model.initializers);
    let mut ctx: BuildContext<'_> = BuildContext::new(dtype, &initializers);
    let mut report: ValidationReport = ValidationReport::default();
    let inputs: Vec<String> = register_inputs(&mut ctx, &model.inputs);
    register_tensors(&mut ctx, &model.initializers);
    proof {
        assert(report@.supported =~= Seq::empty());
        assert(report@.unsupported =~= Seq::empty());
    }
    let ops: Vec<CompiledOp> = walk(&model.nodes, &mut ctx, &mut report);
    if !report.is_fully_supported() {
        return Err(complain(&report.unsupported));
    }
    let outputs: Vec<String> = output_names(&model.outputs);
    let data: NameMap<Vec<u8>> = keep_data(&model.initializers, &ops, &outputs);
    Ok(Graph { ops, shapes: ctx.shapes, inputs, outputs, initializers: data, dtype })
}

/// Every node is either supported or not, in order, and the supported ones are
/// those that are compiled: the counts add up.
pub proof fn law_every_node_is_reported(model: ModelView, dtype: Dtype)
    ensures
        ({
            let p = walked_model(model, dtype);
            &&& p.report.supported.len() + p.report.unsupported.len() == model.graph.nodes.len()
            &&& p.ops.len() == p.report.supported.len()
        }),
{
    let start = Progress {
        report: ReportView { supported: Seq::empty(), unsupported: Seq::empty() },
        ctx: start_context(model, dtype),
        ops: Seq::empty(),
    };
    lemma_walked_counts(start, model.graph.nodes, model.graph.nodes.len());
}

proof fn lemma_walked_counts(start: Progress, nodes: Seq<NodeView>, n: nat)
    requires
        start.ops.len() == start.report.supported.len(),
    ensures
        ({
            let p = walked(start, nodes, n);
            &&& p.report.supported.len() + p.report.unsupported.len() == start.report.supported.len()
                + start.report.unsupported.len() + n
            &&& p.ops.len() == p.report.supported.len()
        }),
    decreases n,
{
    if n > 0 {
        lemma_walked_counts(start, nodes, (n - 1) as nat);
    }
}

/// A model compiles exactly if its validation report is clean, and the graph
/// then has one op for each node, with the node's name and outputs.
pub proof fn law_compiles_iff_supported(model: ModelView, dtype: Dtype)
    ensures
        compiled(model, dtype) is Ok <==> walked_model(model, dtype).report.unsupported.len() == 0,
        compiled(model, dtype) is Ok ==> {
            let ops = compiled(model, dtype)->Ok_0.ops;
            &&& ops.len() == model.graph.nodes.len()
            &&& forall|i: int|
                0 <= i < ops.len() ==> (#[trigger] ops[i]).name == model.graph.nodes[i].name
                    && ops[i].outputs == model.graph.nodes[i].outputs && ops[i].op_type
                    == model.graph.nodes[i].op_type
        },
{
    law_every_node_is_reported(model, dtype);
    let start = Progress {
        report: ReportView { supported: Seq::empty(), unsupported: Seq::empty() },
        ctx: start_context(model, dtype),
        ops: Seq::empty(),
    };
    if compiled(model, dtype) is Ok {
        lemma_walked_ops(start, model.graph.nodes, model.graph.nodes.len());
    }
}

proof fn lemma_walked_ops(start: Progress, nodes: Seq<NodeView>, n: nat)
    requires
        n <= nodes.len(),
        start.ops.len() == 0,
        walked(start, nodes, n).report.unsupported.len() == 0,
    ensures
        ({
            let ops = walked(start, nodes, n).ops;
            &&& ops.len() == n
            &&& forall|i: int|
                0 <= i < n ==> (#[trigger] ops[i]).name == nodes[i].name && ops[i].outputs
                    == nodes[i].outputs && ops[i].op_type == nodes[i].op_type
        }),
    decreases n,
{
    if n > 0 {
        let before = walked(start, nodes, (n - 1) as nat);
        let node = nodes[n - 1];
        lemma_walked_ops(start, nodes, (n - 1) as nat);
        let b = builder_of(node.op_type)->0;
        law_build_keeps_identity(b, node, before.ctx);
        law_builders_by_op_type(b, node.op_type);
    }
}

proof fn lemma_kept(
    tensors: Seq<TensorView>,
    ops: Seq<OpView>,
    outputs: Seq<Seq<char>>,
    n: nat,
    k: int,
)
    requires
        n <= tensors.len(),
        0 <= k < tensors.len(),
        forall|a: int, b: int| 0 <= a < b < tensors.len() ==> tensors[a].name != tensors[b].name,
    ensures
        ({
            let kept = kept_data(tensors, ops, outputs, n);
            let t = tensors[k];
            &&& kept.dom().contains(t.name) <==> (k < n && is_used(ops, outputs, t.name)
                && t.data_type != DataType::Int64)
            &&& kept.dom().contains(t.name) ==> kept[t.name] == t.data
        }),
    decreases n,
{
    if n > 0 {
        lemma_kept(tensors, ops, outputs, (n - 1) as nat, k);
        assert(n - 1 != k ==> tensors[n - 1].name != tensors[k].name);
    }
}

/// A compiled graph holds the data of the initializers that an op names or that
/// it puts out, byte for byte, but for those of 64-bit integers.
pub proof fn law_weights_are_kept(model: ModelView, dtype: Dtype, k: int)
    requires
        compiled(model, dtype) is Ok,
        0 <= k < model.graph.initializers.len(),
        forall|a: int, b: int|
            0 <= a < b < model.graph.initializers.len() ==> model.graph.initializers[a].name
                != model.graph.initializers[b].name,
    ensures
        ({
            let g = compiled(model, dtype)->Ok_0;
            let t = model.graph.initializers[k];
            let named = exists|i: int|
                #![trigger g.ops[i]]
                0 <= i < g.ops.len() && (g.ops[i].inputs.contains(t.name)
                    || g.ops[i].outputs.contains(t.name));
            let kept = t.data_type != DataType::Int64 && (named || g.outputs.contains(t.name));
            &&& g.initializers.dom().contains(t.name) <==> kept
            &&& kept ==> g.initializers[t.name] == t.data
        }),
{
    let g = compiled(model, dtype)->Ok_0;
    let t = model.graph.initializers[k];
    lemma_kept(model.graph.initializers, g.ops, g.outputs, model.graph.initializers.len(), k);
    if is_used(g.ops, g.outputs, t.name) && !g.outputs.contains(t.name) {
        let i = choose|i: int| 0 <= i < g.ops.len() && touches(#[trigger] g.ops[i], t.name);
        assert(g.ops[i].inputs.contains(t.name) || g.ops[i].outputs.contains(t.name));
    }
    if exists|i: int|
        #![trigger g.ops[i]]
        0 <= i < g.ops.len() && (g.ops[i].inputs.contains(t.name) || g.ops[i].outputs.contains(
            t.name,
        )) {
        let i = choose|i: int|
            #![trigger g.ops[i]]
            0 <= i < g.ops.len() && (g.ops[i].inputs.contains(t.name)
                || g.ops[i].outputs.contains(t.name));
        assert(touches(g.ops[i], t.name));
    }
}

proof fn lemma_input_names(ctx: ContextView, inputs: Seq<ValueInfoView>, n: nat, name: Seq<char>)
    requires
        n <= inputs.len(),
    ensures
        input_names(ctx, inputs, n).contains(name) <==> !ctx.initializers.dom().contains(name)
            && exists|i: int| 0 <= i < n && (#[trigger] inputs[i]).name == name,
    decreases n,
{
    if n > 0 {
        lemma_input_names(ctx, inputs, (n - 1) as nat, name);
        let before = input_names(ctx, inputs, (n - 1) as nat);
        let after = input_names(ctx, inputs, n);
        let last = inputs[n - 1].name;
        assert(inputs[n - 1].name == last);
        if !ctx.initializers.dom().contains(last) {
            assert(after[before.len() as int] == last);
            assert forall|x: Seq<char>| before.contains(x) implies after.contains(x) by {
                let j = choose|j: int| 0 <= j < before.len() && before[j] == x;
                assert(after[j] == x);
            }
            if after.contains(name) && name != last {
                let j = choose|j: int| 0 <= j < after.len() && after[j] == name;
                assert(before[j] == name);
            }
        }
    }
}

proof fn lemma_tensor_names(tensors: Seq<TensorView>, n: nat, name: Seq<char>)
    requires
        n <= tensors.len(),
    ensures
        tensors_by_name(tensors, n).dom().contains(name) <==> exists|i: int|
            0 <= i < n && (#[trigger] tensors[i]).name == name,
    decreases n,
{
    if n > 0 {
        lemma_tensor_names(tensors, (n - 1) as nat, name);
        assert(tensors[n - 1].name == tensors[n - 1].name);
    }
}

/// A compiled graph takes in the inputs of its model that are no initializers,
/// and puts out the outputs of its model in their order.
pub proof fn law_inputs_and_outputs(model: ModelView, dtype: Dtype, name: Seq<char>, i: int)
    requires
        compiled(model, dtype) is Ok,
        0 <= i < model.graph.outputs.len(),
    ensures
        ({
            let g = compiled(model, dtype)->Ok_0;
            let m = model.graph;
            &&& g.dtype == dtype
            &&& g.outputs.len() == m.outputs.len()
            &&& g.outputs[i] == m.outputs[i].name
            &&& g.inputs.contains(name) <==> {
                &&& exists|j: int| 0 <= j < m.inputs.len() && (#[trigger] m.inputs[j]).name == name
                &&& !exists|j: int|
                    0 <= j < m.initializers.len() && (#[trigger] m.initializers[j]).name == name
            }
        }),
{
    let m = model.graph;
    lemma_input_names(bare_context(model, dtype), m.inputs, m.inputs.len(), name);
    lemma_tensor_names(m.initializers, m.initializers.len(), name);
}

proof fn lemma_tensor_shape(ctx: ContextView, tensors: Seq<TensorView>, n: nat, k: int)
    requires
        n <= tensors.len(),
        0 <= k < tensors.len(),
        forall|a: int, b: int| 0 <= a < b < tensors.len() ==> tensors[a].name != tensors[b].name,
    ensures
        k < n ==> with_tensors(ctx, tensors, n).shapes[tensors[k].name] == plain_shape(
            sizes(tensors[k].dims),
            graph_dtype(tensors[k].data_type, ctx.dtype),
        ),
        with_tensors(ctx, tensors, n).dtype == ctx.dtype,
    decreases n,
{
    if n > 0 {
        lemma_tensor_shape(ctx, tensors, (n - 1) as nat, k);
        assert(n - 1 != k ==> tensors[n - 1].name != tensors[k].name);
    }
}

/// Before the first node an initializer has the dimensions that the model says,
/// and singles and halves keep their type.
pub proof fn law_weights_have_their_shapes(model: ModelView, dtype: Dtype, k: int, d: int)
    requires
        0 <= k < model.graph.initializers.len(),
        0 <= d < model.graph.initializers[k].dims.len(),
        forall|a: int, b: int|
            0 <= a < b < model.graph.initializers.len() ==> model.graph.initializers[a].name
                != model.graph.initializers[b].name,
    ensures
        ({
            let t = model.graph.initializers[k];
            let s = start_context(model, dtype).shapes[t.name];
            &&& s.dims.len() == t.dims.len()
            &&& s.dims[d] == t.dims[d] as usize
            &&& t.data_type == DataType::Float ==> s.dtype == Dtype::F32
            &&& t.data_type == DataType::Float16 ==> s.dtype == Dtype::F16
            &&& t.data_type != DataType::Float && t.data_type != DataType::Float16 ==> s.dtype
                == dtype
        }),
{
    let g = model.graph;
    let ctx = with_inputs(bare_context(model, dtype), g.inputs, g.inputs.len());
    lemma_inputs_dtype(bare_context(model, dtype), g.inputs, g.inputs.len());
    lemma_tensor_shape(ctx, g.initializers, g.initializers.len(), k);
}

proof fn lemma_inputs_dtype(ctx: ContextView, inputs: Seq<ValueInfoView>, n: nat)
    ensures
        with_inputs(ctx, inputs, n).dtype == ctx.dtype,
    decreases n,
{
    if n > 0 {
        lemma_inputs_dtype(ctx, inputs, (n - 1) as nat);
    }
}

} // verus!
