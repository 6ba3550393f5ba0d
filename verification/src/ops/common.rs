//! What the rules of all ops have in common.

use vstd::prelude::*;
use vstd::string::*;
use crate::builder::{BuildContext, CompiledOp, ContextView, OpParams, OpView, ParamsView};
use crate::error::{outcome, Error, ErrorView};
use crate::model::{copy_names, views, NodeView, OnnxNode};
use crate::tensor::{plain_shape, ShapeView, TensorShape};
use crate::text::concat3;

verus! {

/// What a rule answers when a node names fewer inputs than the op reads.
pub open spec fn too_few_inputs() -> ErrorView {
    ErrorView::Shape("too few inputs"@)
}

/// What a rule answers when a node names no output.
pub open spec fn no_output() -> ErrorView {
    ErrorView::Shape("no output"@)
}

/// What a rule answers when a size is not an index-sized number.
pub open spec fn size_overflow() -> ErrorView {
    ErrorView::Shape("size overflow"@)
}

/// What a rule answers when an axis is not one of the tensor's.
pub open spec fn axis_out_of_range() -> ErrorView {
    ErrorView::Shape("axis out of range"@)
}

/// The answer for a node that names fewer inputs than the op reads.
pub fn err_too_few_inputs() -> (r: Error)
    ensures
        r@ == too_few_inputs(),
{
    Error::Shape("too few inputs".to_owned())
}

/// The answer for a size that is not an index-sized number.
pub fn err_size_overflow() -> (r: Error)
    ensures
        r@ == size_overflow(),
{
    Error::Shape("size overflow".to_owned())
}

/// The answer for an axis that is not one of the tensor's.
pub fn err_axis_out_of_range() -> (r: Error)
    ensures
        r@ == axis_out_of_range(),
{
    Error::Shape("axis out of range".to_owned())
}

/// A validation error.
pub fn invalid(message: &str) -> (r: Error)
    ensures
        r@ == ErrorView::Validation(message@),
{
    Error::Validation(message.to_owned())
}

/// The shape of input `i`; `what` begins the message when there is none.
pub open spec fn found_shape(node: NodeView, ctx: ContextView, i: int, what: Seq<char>) -> Result<
    ShapeView,
    ErrorView,
> {
    if i >= node.inputs.len() {
        Err(too_few_inputs())
    } else if ctx.shapes.dom().contains(node.inputs[i]) {
        Ok(ctx.shapes[node.inputs[i]])
    } else {
        Err(ErrorView::Validation(what + node.inputs[i] + " not found"@))
    }
}

/// The shape of input `i`; `what` begins the message when there is none.
pub fn find_shape<'b>(node: &OnnxNode, ctx: &'b BuildContext<'_>, i: usize, what: &str) -> (r: Result<
    &'b TensorShape,
    Error,
>)
    ensures
        outcome(r) == found_shape(node@, ctx@, i as int, what@),
{
    if i >= node.inputs.len() {
        return Err(err_too_few_inputs());
    }
    let name: &String = &node.inputs[i];
    assert(node@.inputs[i as int] == name@);
    match ctx.get_shape(name.as_str()) {
        Some(s) => Ok(s),
        None => Err(Error::Validation(concat3(what, name.as_str(), " not found"))),
    }
}

/// Dimensions of a model tensor as index-sized numbers.
pub open spec fn sizes(dims: Seq<i64>) -> Seq<usize> {
    dims.map_values(|d: i64| d as usize)
}

/// Dimensions of a model tensor as index-sized numbers.
pub fn to_sizes(dims: &Vec<i64>) -> (r: Vec<usize>)
    ensures
        r@ == sizes(dims@),
{
    let mut r: Vec<usize> = Vec::new();
    let mut i: usize = 0;
    while i < dims.len()
        invariant
            i <= dims@.len(),
            r@ == sizes(dims@).take(i as int),
        decreases dims@.len() - i,
    {
        r.push(dims[i] as usize);
        i = i + 1;
        assert(r@ =~= sizes(dims@).take(i as int));
    }
    assert(sizes(dims@).take(i as int) =~= sizes(dims@));
    r
}

/// The shape of input `i`, which may be an initializer instead of a computed tensor.
pub open spec fn operand_shape(node: NodeView, ctx: ContextView, i: int) -> Result<
    ShapeView,
    ErrorView,
> {
    if i >= node.inputs.len() {
        Err(too_few_inputs())
    } else if ctx.shapes.dom().contains(node.inputs[i]) {
        Ok(ctx.shapes[node.inputs[i]])
    } else if ctx.initializers.dom().contains(node.inputs[i]) {
        Ok(plain_shape(sizes(ctx.initializers[node.inputs[i]].dims), ctx.dtype))
    } else {
        Err(ErrorView::Validation("input "@ + node.inputs[i] + " not found"@))
    }
}

/// The shape of input `i`, which may be an initializer instead of a computed tensor.
pub fn find_operand(node: &OnnxNode, ctx: &BuildContext<'_>, i: usize) -> (r: Result<
    TensorShape,
    Error,
>)
    ensures
        outcome(r) == operand_shape(node@, ctx@, i as int),
{
    if i >= node.inputs.len() {
        return Err(err_too_few_inputs());
    }
    let name: &String = &node.inputs[i];
    assert(node@.inputs[i as int] == name@);
    match ctx.get_shape(name.as_str()) {
        Some(s) => Ok(s.clone()),
        None => match ctx.get_initializer(name.as_str()) {
            Some(t) => Ok(TensorShape::new(to_sizes(&t.dims), ctx.dtype)),
            None => Err(Error::Validation(concat3("input ", name.as_str(), " not found"))),
        },
    }
}

/// Entry `i` of a list of attribute numbers as a size, or a default.
pub open spec fn size_at(v: Seq<i64>, i: int, default: usize) -> usize {
    if 0 <= i < v.len() {
        v[i] as usize
    } else {
        default
    }
}

/// Entry `i` of a list of attribute numbers as a size, or a default.
pub fn size_or(v: &Vec<i64>, i: usize, default: usize) -> (r: usize)
    ensures
        r == size_at(v@, i as int, default),
{
    if i < v.len() {
        v[i] as usize
    } else {
        default
    }
}

/// An axis counted from the end where it is negative.
pub open spec fn axis_of(rank: nat, axis: i64) -> usize {
    if axis < 0 {
        (rank + axis) as usize
    } else {
        axis as usize
    }
}

/// An axis counted from the end where it is negative.
pub fn normal_axis(rank: usize, axis: i64) -> (r: usize)
    ensures
        r == axis_of(rank as nat, axis),
{
    if axis < 0 {
        (rank as i128 + axis as i128) as usize
    } else {
        axis as usize
    }
}

/// How a build ends once the output shape is known: the shape is recorded
/// under the first output, and the compiled op is given back.
pub open spec fn finished(
    node: NodeView,
    ctx: ContextView,
    shape: Result<ShapeView, ErrorView>,
    op_type: Seq<char>,
    inputs: Seq<Seq<char>>,
    params: ParamsView,
) -> Result<(OpView, ContextView), ErrorView> {
    match shape {
        Err(e) => Err(e),
        Ok(s) => if node.outputs.len() == 0 {
            Err(no_output())
        } else {
            Ok(
                (
                    OpView { name: node.name, op_type, inputs, outputs: node.outputs, params },
                    ctx.with_shape(node.outputs[0], s),
                ),
            )
        },
    }
}

/// The outcome of a build together with the context it leaves.
pub open spec fn build_outcome(r: Result<CompiledOp, Error>, ctx: ContextView) -> Result<
    (OpView, ContextView),
    ErrorView,
> {
    match r {
        Ok(op) => Ok((op@, ctx)),
        Err(e) => Err(e@),
    }
}

/// Record the output shape and give back the compiled op.
pub fn finish(
    node: &OnnxNode,
    ctx: &mut BuildContext<'_>,
    shape: TensorShape,
    op_type: &str,
    inputs: Vec<String>,
    params: OpParams,
) -> (r: Result<CompiledOp, Error>)
    ensures
        build_outcome(r, final(ctx)@) == finished(
            node@,
            old(ctx)@,
            Ok(shape@),
            op_type@,
            views(inputs@),
            params@,
        ),
        r is Err ==> final(ctx)@ == old(ctx)@,
{
    if node.outputs.len() == 0 {
        return Err(Error::Shape("no output".to_owned()));
    }
    assert(node@.outputs[0] == node.outputs@[0]@);
    ctx.set_shape(node.outputs[0].clone(), shape);
    Ok(
        CompiledOp {
            name: node.name.clone(),
            op_type: op_type.to_owned(),
            inputs,
            outputs: copy_names(&node.outputs),
            params,
        },
    )
}

/// The first input name alone.
pub fn first_input(node: &OnnxNode) -> (r: Vec<String>)
    requires
        node@.inputs.len() > 0,
    ensures
        views(r@) == seq![node@.inputs[0]],
{
    let mut r: Vec<String> = Vec::new();
    r.push(node.inputs[0].clone());
    assert(views(r@) =~= seq![node@.inputs[0]]);
    r
}

} // verus!
