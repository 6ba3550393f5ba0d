//! Ops that can be computed while compiling: Shape, Constant, Gather and Concat.

use vstd::prelude::*;
use vstd::string::*;
use crate::builder::{BuildContext, CompiledOp, ContextView, OpParams, OpView, ParamsView};
use crate::error::{outcome, Error, ErrorView};
use crate::model::{
    attr_value, copy_names, copy_vec, signed64, to_signed64, views, AttributeValueView, NodeView,
    OnnxNode,
};
use crate::ops::common::{
    axis_of, axis_out_of_range, build_outcome, err_axis_out_of_range, err_size_overflow, find_shape,
    finish, finished, found_shape, invalid, no_output, normal_axis, size_overflow, sizes, to_sizes,
};
use crate::proto::{
    bytes_of_words32, bytes_of_words64, from_words32, from_words64, to_words32, words32,
};
use crate::tensor::{plain_shape, Dtype, ShapeView, TensorShape};

verus! {

// ---------------------------------------------------------------------------
// Shape
// ---------------------------------------------------------------------------

/// The output shape of Shape: one number per dimension of the input.
pub open spec fn shape_shape(node: NodeView, ctx: ContextView) -> Result<ShapeView, ErrorView> {
    match found_shape(node, ctx, 0, "Shape: input "@) {
        Err(e) => Err(e),
        Ok(x) => Ok(plain_shape(seq![x.dims.len() as usize], Dtype::F32)),
    }
}

/// The output shape of Shape.
pub fn validate_shape(node: &OnnxNode, ctx: &BuildContext<'_>) -> (r: Result<TensorShape, Error>)
    ensures
        outcome(r) == shape_shape(node@, ctx@),
{
    match find_shape(node, ctx, 0, "Shape: input ") {
        Ok(x) => {
            let dims: Vec<usize> = vec![x.dims.len()];
            assert(dims@ =~= seq![x.dims@.len() as usize]);
            Ok(TensorShape::new(dims, Dtype::F32))
        },
        Err(e) => Err(e),
    }
}

/// Dimensions as 64-bit numbers, byte by byte.
pub open spec fn shape_bytes(dims: Seq<usize>) -> Seq<u8> {
    bytes_of_words64(dims.map_values(|d: usize| d as u64))
}

fn write_shape(dims: &Vec<usize>) -> (r: Vec<u8>)
    ensures
        r@ == shape_bytes(dims@),
{
    let ghost all = dims@.map_values(|d: usize| d as u64);
    let mut words: Vec<u64> = Vec::new();
    let mut i: usize = 0;
    while i < dims.len()
        invariant
            i <= dims@.len(),
            all == dims@.map_values(|d: usize| d as u64),
            words@ == all.take(i as int),
        decreases dims@.len() - i,
    {
        words.push(dims[i] as u64);
        i = i + 1;
        assert(words@ =~= all.take(i as int));
    }
    assert(all.take(i as int) =~= all);
    from_words64(&words)
}

/// The compiled form of Shape: the dimensions become a constant.
pub open spec fn shape_build(node: NodeView, ctx: ContextView) -> Result<
    (OpView, ContextView),
    ErrorView,
> {
    finished(
        node,
        ctx.with_constant(node.outputs[0], shape_bytes(ctx.shapes[node.inputs[0]].dims)),
        shape_shape(node, ctx),
        "Shape"@,
        Seq::empty(),
        ParamsView::Empty,
    )
}

/// Build a Shape.
pub fn build_shape(node: &OnnxNode, ctx: &mut BuildContext<'_>) -> (r: Result<CompiledOp, Error>)
    ensures
        build_outcome(r, final(ctx)@) == shape_build(node@, old(ctx)@),
        r is Err ==> final(ctx)@ == old(ctx)@,
{
    let shape: TensorShape = match validate_shape(node, ctx) {
        Ok(s) => s,
        Err(e) => {
            return Err(e);
        },
    };
    let data: Vec<u8> = match find_shape(node, ctx, 0, "Shape: input ") {
        Ok(x) => write_shape(&x.dims),
        Err(e) => {
            return Err(e);
        },
    };
    if node.outputs.len() == 0 {
        return Err(Error::Shape("no output".to_owned()));
    }
    assert(node@.outputs[0] == node.outputs@[0]@);
    ctx.set_constant(node.outputs[0].clone(), data);
    let inputs: Vec<String> = Vec::new();
    assert(views(inputs@) =~= Seq::empty());
    finish(node, ctx, shape, "Shape", inputs, OpParams::Empty)
}

// ---------------------------------------------------------------------------
// Constant
// ---------------------------------------------------------------------------

/// The output shape of Constant.
pub open spec fn constant_shape(node: NodeView) -> Result<ShapeView, ErrorView> {
    match attr_value(node.attributes, "value"@) {
        Some(AttributeValueView::Tensor(t)) => Ok(plain_shape(sizes(t.dims), Dtype::F32)),
        _ => if attr_value(node.attributes, "value_int"@) is Some || attr_value(
            node.attributes,
            "value_float"@,
        ) is Some {
            Ok(plain_shape(Seq::empty(), Dtype::F32))
        } else {
            Err(ErrorView::Validation("Constant: no value attribute found"@))
        },
    }
}

/// The bytes of a Constant; a tensor goes before an integer, and that before a float.
pub open spec fn constant_bytes(node: NodeView) -> Result<Seq<u8>, ErrorView> {
    match attr_value(node.attributes, "value"@) {
        Some(AttributeValueView::Tensor(t)) => Ok(t.data),
        Some(_) => Err(ErrorView::Validation("Constant: value is not a tensor"@)),
        None => match attr_value(node.attributes, "value_int"@) {
            Some(AttributeValueView::Int(v)) => Ok(bytes_of_words64(seq![v as u64])),
            Some(_) => Err(ErrorView::Validation("Constant: value_int is not an int"@)),
            None => match attr_value(node.attributes, "value_float"@) {
                Some(AttributeValueView::Float(v)) => Ok(bytes_of_words32(seq![v])),
                Some(_) => Err(ErrorView::Validation("Constant: value_float is not a float"@)),
                None => Err(ErrorView::Validation("Constant: no value found"@)),
            },
        },
    }
}

/// The output shape of Constant.
pub fn validate_constant(node: &OnnxNode) -> (r: Result<TensorShape, Error>)
    ensures
        outcome(r) == constant_shape(node@),
{
    match node.get_attr("value") {
        Some(attr) => match attr.value.as_tensor() {
            Some(t) => {
                return Ok(TensorShape::new(to_sizes(&t.dims), Dtype::F32));
            },
            None => {},
        },
        None => {},
    }
    if node.get_attr("value_int").is_some() || node.get_attr("value_float").is_some() {
        let dims: Vec<usize> = Vec::new();
        assert(dims@ =~= Seq::empty());
        return Ok(TensorShape::new(dims, Dtype::F32));
    }
    Err(invalid("Constant: no value attribute found"))
}

fn read_constant(node: &OnnxNode) -> (r: Result<Vec<u8>, Error>)
    ensures
        outcome(r) == constant_bytes(node@),
{
    match node.get_attr("value") {
        Some(attr) => match attr.value.as_tensor() {
            Some(t) => Ok(copy_vec(&t.data)),
            None => Err(invalid("Constant: value is not a tensor")),
        },
        None => match node.get_attr("value_int") {
            Some(attr) => match attr.value.as_int() {
                Some(v) => {
                    let words: Vec<u64> = vec![v as u64];
                    assert(words@ =~= seq![v as u64]);
                    Ok(from_words64(&words))
                },
                None => Err(invalid("Constant: value_int is not an int")),
            },
            None => match node.get_attr("value_float") {
                Some(attr) => match attr.value.as_float() {
                    Some(v) => {
                        let words: Vec<u32> = vec![v];
                        assert(words@ =~= seq![v]);
                        Ok(from_words32(&words))
                    },
                    None => Err(invalid("Constant: value_float is not a float")),
                },
                None => Err(invalid("Constant: no value found")),
            },
        },
    }
}

/// The compiled form of Constant.
pub open spec fn constant_build(node: NodeView, ctx: ContextView) -> Result<
    (OpView, ContextView),
    ErrorView,
> {
    match constant_shape(node) {
        Err(e) => Err(e),
        Ok(shape) => match constant_bytes(node) {
            Err(e) => Err(e),
            Ok(data) => finished(
                node,
                ctx.with_constant(node.outputs[0], data),
                Ok(shape),
                "Constant"@,
                Seq::empty(),
                ParamsView::Empty,
            ),
        },
    }
}

/// Build a Constant.
pub fn build_constant(node: &OnnxNode, ctx: &mut BuildContext<'_>) -> (r: Result<CompiledOp, Error>)
    ensures
        build_outcome(r, final(ctx)@) == constant_build(node@, old(ctx)@),
        r is Err ==> final(ctx)@ == old(ctx)@,
{
    let shape: TensorShape = match validate_constant(node) {
        Ok(s) => s,
        Err(e) => {
            return Err(e);
        },
    };
    let data: Vec<u8> = match read_constant(node) {
        Ok(d) => d,
        Err(e) => {
            return Err(e);
        },
    };
    if node.outputs.len() == 0 {
        return Err(Error::Shape("no output".to_owned()));
    }
    assert(node@.outputs[0] == node.outputs@[0]@);
    ctx.set_constant(node.outputs[0].clone(), data);
    let inputs: Vec<String> = Vec::new();
    assert(views(inputs@) =~= Seq::empty());
    finish(node, ctx, shape, "Constant", inputs, OpParams::Empty)
}

// ---------------------------------------------------------------------------
// Gather
// ---------------------------------------------------------------------------

/// The dimensions of gathered data: the axis gives way to the dimensions of the indices.
pub open spec fn gathered(data: Seq<usize>, indices: Seq<usize>, axis: usize) -> Result<
    Seq<usize>,
    ErrorView,
> {
    if axis > data.len() {
        Err(axis_out_of_range())
    } else if axis < data.len() {
        Ok(data.take(axis as int) + indices + data.skip(axis + 1))
    } else {
        Ok(data + indices)
    }
}

/// The output shape of Gather.
pub open spec fn gather_shape(node: NodeView, ctx: ContextView) -> Result<ShapeView, ErrorView> {
    match found_shape(node, ctx, 0, "Gather: data "@) {
        Err(e) => Err(e),
        Ok(data) => match found_shape(node, ctx, 1, "Gather: indices "@) {
            Err(e) => Err(e),
            Ok(indices) => match gathered(
                data.dims,
                indices.dims,
                node.attr_int("axis"@, 0) as usize,
            ) {
                Err(e) => Err(e),
                Ok(d) => Ok(plain_shape(d, data.dtype)),
            },
        },
    }
}

/// Append part of a list of sizes.
fn append_sizes(out: &mut Vec<usize>, from: &Vec<usize>, start: usize, end: usize)
    requires
        start <= end <= from@.len(),
    ensures
        final(out)@ == old(out)@ + from@.subrange(start as int, end as int),
{
    let mut i: usize = start;
    assert(out@ =~= old(out)@ + from@.subrange(start as int, start as int));
    while i < end
        invariant
            start <= i <= end <= from@.len(),
            out@ == old(out)@ + from@.subrange(start as int, i as int),
        decreases end - i,
    {
        out.push(from[i]);
        i = i + 1;
        assert(out@ =~= old(out)@ + from@.subrange(start as int, i as int));
    }
}

/// The output shape of Gather.
pub fn validate_gather(node: &OnnxNode, ctx: &BuildContext<'_>) -> (r: Result<TensorShape, Error>)
    ensures
        outcome(r) == gather_shape(node@, ctx@),
{
    let data: &TensorShape = match find_shape(node, ctx, 0, "Gather: data ") {
        Ok(s) => s,
        Err(e) => {
            return Err(e);
        },
    };
    let indices: &TensorShape = match find_shape(node, ctx, 1, "Gather: indices ") {
        Ok(s) => s,
        Err(e) => {
            return Err(e);
        },
    };
    let axis: usize = node.get_attr_int("axis", 0) as usize;
    if axis > data.dims.len() {
        return Err(err_axis_out_of_range());
    }
    let mut dims: Vec<usize> = Vec::new();
    append_sizes(&mut dims, &data.dims, 0, axis);
    append_sizes(&mut dims, &indices.dims, 0, indices.dims.len());
    if axis < data.dims.len() {
        append_sizes(&mut dims, &data.dims, axis + 1, data.dims.len());
        assert(dims@ =~= data.dims@.take(axis as int) + indices.dims@ + data.dims@.skip(axis + 1));
    } else {
        assert(dims@ =~= data.dims@ + indices.dims@);
    }
    Ok(TensorShape::new(dims, data.dtype))
}

/// The index held by a constant of 8 or 4 bytes.
pub open spec fn index_in(bytes: Seq<u8>) -> Option<usize> {
    if bytes.len() == 8 {
        Some(signed64(bytes)[0] as usize)
    } else if bytes.len() == 4 {
        Some((words32(bytes)[0] as i32) as usize)
    } else {
        None
    }
}

fn read_index(bytes: &[u8]) -> (r: Option<usize>)
    ensures
        r == index_in(bytes@),
{
    if bytes.len() == 8 {
        let v: Vec<i64> = to_signed64(bytes);
        Some(v[0] as usize)
    } else if bytes.len() == 4 {
        let v: Vec<u32> = to_words32(bytes);
        Some((v[0] as i32) as usize)
    } else {
        None
    }
}

/// Bytes per element of a list of `n` elements; without elements, those of a 64-bit number.
pub open spec fn element_size(len: nat, n: usize) -> nat {
    if n > 0 {
        len / n as nat
    } else {
        8
    }
}

/// What becomes of a Gather while compiling.
pub enum Folded {
    /// The element becomes a constant.
    Constant(Seq<u8>),
    /// The op is left for later.
    Later,
    /// The op is left for later with its inputs as they are.
    AsIs,
    /// The element's place is not an index-sized number.
    Overflow,
}

/// Whether and how a Gather is computed while compiling: one element of a
/// constant list, at a constant index.
pub open spec fn gather_folded(node: NodeView, ctx: ContextView) -> Folded {
    let dims = ctx.shapes[node.inputs[0]].dims;
    match (ctx.constant_data(node.inputs[0]), ctx.constant_data(node.inputs[1])) {
        (Some(data), Some(indices)) => if dims.len() != 1 {
            Folded::Later
        } else {
            match index_in(indices) {
                None => Folded::AsIs,
                Some(index) => {
                    let size = element_size(data.len(), dims[0]);
                    let start = index as nat * size;
                    if start + size > usize::MAX {
                        Folded::Overflow
                    } else if start + size <= data.len() {
                        Folded::Constant(data.subrange(start as int, (start + size) as int))
                    } else {
                        Folded::Later
                    }
                },
            }
        },
        _ => Folded::Later,
    }
}

enum Fold {
    Constant(Vec<u8>),
    Later,
    AsIs,
    Overflow,
}

impl View for Fold {
    type V = Folded;

    closed spec fn view(&self) -> Folded {
        match *self {
            Fold::Constant(d) => Folded::Constant(d@),
            Fold::Later => Folded::Later,
            Fold::AsIs => Folded::AsIs,
            Fold::Overflow => Folded::Overflow,
        }
    }
}

fn fold_gather(node: &OnnxNode, ctx: &BuildContext<'_>, dims: &Vec<usize>) -> (r: Fold)
    requires
        node@.inputs.len() >= 2,
        ctx@.shapes[node@.inputs[0]].dims == dims@,
    ensures
        r@ == gather_folded(node@, ctx@),
{
    assert(node@.inputs[0] == node.inputs@[0]@);
    assert(node@.inputs[1] == node.inputs@[1]@);
    let data: &[u8] = match ctx.get_constant_data(node.inputs[0].as_str()) {
        Some(d) => d,
        None => {
            return Fold::Later;
        },
    };
    let indices: &[u8] = match ctx.get_constant_data(node.inputs[1].as_str()) {
        Some(d) => d,
        None => {
            return Fold::Later;
        },
    };
    if dims.len() != 1 {
        return Fold::Later;
    }
    let index: usize = match read_index(indices) {
        Some(i) => i,
        None => {
            return Fold::AsIs;
        },
    };
    let n: usize = dims[0];
    let size: usize = if n > 0 {
        data.len() / n
    } else {
        8
    };
    match index.checked_mul(size) {
        Some(start) => match start.checked_add(size) {
            Some(end) => if end <= data.len() {
                Fold::Constant(
                    vstd::slice::slice_to_vec(vstd::slice::slice_subrange(data, start, end)),
                )
            } else {
                Fold::Later
            },
            None => Fold::Overflow,
        },
        None => Fold::Overflow,
    }
}

/// The compiled form of Gather: a constant output needs no input.
pub open spec fn gather_build(node: NodeView, ctx: ContextView) -> Result<
    (OpView, ContextView),
    ErrorView,
> {
    match gather_shape(node, ctx) {
        Err(e) => Err(e),
        Ok(shape) => if node.outputs.len() == 0 {
            Err(no_output())
        } else {
            match gather_folded(node, ctx) {
                Folded::Overflow => Err(ErrorView::Shape("index out of range"@)),
                Folded::AsIs => finished(
                    node,
                    ctx,
                    Ok(shape),
                    "Gather"@,
                    node.inputs,
                    ParamsView::Empty,
                ),
                Folded::Constant(data) => finished(
                    node,
                    ctx.with_constant(node.outputs[0], data),
                    Ok(shape),
                    "Gather"@,
                    Seq::empty(),
                    ParamsView::Empty,
                ),
                Folded::Later => finished(
                    node,
                    ctx,
                    Ok(shape),
                    "Gather"@,
                    if ctx.is_constant(node.outputs[0]) {
                        Seq::empty()
                    } else {
                        node.inputs
                    },
                    ParamsView::Empty,
                ),
            }
        },
    }
}

/// Build a Gather.
pub fn build_gather(node: &OnnxNode, ctx: &mut BuildContext<'_>) -> (r: Result<CompiledOp, Error>)
    ensures
        build_outcome(r, final(ctx)@) == gather_build(node@, old(ctx)@),
        r is Err ==> final(ctx)@ == old(ctx)@,
{
    let shape: TensorShape = match validate_gather(node, ctx) {
        Ok(s) => s,
        Err(e) => {
            return Err(e);
        },
    };
    if node.outputs.len() == 0 {
        return Err(Error::Shape("no output".to_owned()));
    }
    assert(node@.outputs[0] == node.outputs@[0]@);
    let fold: Fold = match find_shape(node, ctx, 0, "Gather: data ") {
        Ok(s) => fold_gather(node, ctx, &s.dims),
        Err(e) => {
            return Err(e);
        },
    };
    let none: Vec<String> = Vec::new();
    assert(views(none@) =~= Seq::empty());
    match fold {
        Fold::Overflow => Err(Error::Shape("index out of range".to_owned())),
        Fold::AsIs => finish(
            node,
            ctx,
            shape,
            "Gather",
            copy_names(&node.inputs),
            OpParams::Empty,
        ),
        Fold::Constant(data) => {
            ctx.set_constant(node.outputs[0].clone(), data);
            finish(node, ctx, shape, "Gather", none, OpParams::Empty)
        },
        Fold::Later => {
            let inputs: Vec<String> = if ctx.is_constant(node.outputs[0].as_str()) {
                none
            } else {
                copy_names(&node.inputs)
            };
            finish(node, ctx, shape, "Gather", inputs, OpParams::Empty)
        },
    }
}

// ---------------------------------------------------------------------------
// Concat
// ---------------------------------------------------------------------------

/// The dimensions of the first `n` inputs joined along an axis (`n` at least 1).
pub open spec fn concat_dims(node: NodeView, ctx: ContextView, axis: usize, n: nat) -> Result<
    Seq<usize>,
    ErrorView,
>
    decreases n,
{
    if n <= 1 {
        Ok(ctx.shapes[node.inputs[0]].dims)
    } else {
        match concat_dims(node, ctx, axis, (n - 1) as nat) {
            Err(e) => Err(e),
            Ok(dims) => match found_shape(node, ctx, n - 1, "Concat: input "@) {
                Err(e) => Err(e),
                Ok(x) => if axis >= dims.len() || axis >= x.dims.len() {
                    Err(axis_out_of_range())
                } else if dims[axis as int] + x.dims[axis as int] > usize::MAX {
                    Err(size_overflow())
                } else {
                    Ok(
                        dims.update(
                            axis as int,
                            (dims[axis as int] + x.dims[axis as int]) as usize,
                        ),
                    )
                },
            },
        }
    }
}

/// The axis of a Concat node.
pub open spec fn concat_axis(node: NodeView, ctx: ContextView) -> usize {
    axis_of(ctx.shapes[node.inputs[0]].dims.len(), node.attr_int("axis"@, 0))
}

/// The output shape of Concat.
pub open spec fn concat_shape(node: NodeView, ctx: ContextView) -> Result<ShapeView, ErrorView> {
    match found_shape(node, ctx, 0, "Concat: input "@) {
        Err(e) => Err(e),
        Ok(first) => match concat_dims(node, ctx, concat_axis(node, ctx), node.inputs.len()) {
            Err(e) => Err(e),
            Ok(d) => Ok(plain_shape(d, first.dtype)),
        },
    }
}

proof fn lemma_concat_prefix(node: NodeView, ctx: ContextView, axis: usize, n: nat, m: nat)
    requires
        n <= m,
    ensures
        concat_dims(node, ctx, axis, n) is Err ==> concat_dims(node, ctx, axis, m) == concat_dims(
            node,
            ctx,
            axis,
            n,
        ),
    decreases m,
{
    if n < m {
        lemma_concat_prefix(node, ctx, axis, n, (m - 1) as nat);
    }
}

fn join_dims(node: &OnnxNode, ctx: &BuildContext<'_>, first: &Vec<usize>, axis: usize) -> (r: Result<
    Vec<usize>,
    Error,
>)
    requires
        node@.inputs.len() >= 1,
        first@ == ctx@.shapes[node@.inputs[0]].dims,
    ensures
        outcome(r) == concat_dims(node@, ctx@, axis, node@.inputs.len()),
{
    let mut dims: Vec<usize> = copy_vec(first);
    let mut i: usize = 1;
    while i < node.inputs.len()
        invariant
            1 <= i <= node@.inputs.len(),
            node@.inputs.len() == node.inputs@.len(),
            concat_dims(node@, ctx@, axis, i as nat) == Ok::<Seq<usize>, ErrorView>(dims@),
        decreases node.inputs@.len() - i,
    {
        proof {
            lemma_concat_prefix(node@, ctx@, axis, (i + 1) as nat, node@.inputs.len());
        }
        let x: &TensorShape = match find_shape(node, ctx, i, "Concat: input ") {
            Ok(s) => s,
            Err(e) => {
                return Err(e);
            },
        };
        if axis >= dims.len() || axis >= x.dims.len() {
            return Err(err_axis_out_of_range());
        }
        match dims[axis].checked_add(x.dims[axis]) {
            Some(sum) => {
                dims.set(axis, sum);
            },
            None => {
                return Err(err_size_overflow());
            },
        }
        i = i + 1;
    }
    Ok(dims)
}

/// The output shape of Concat.
pub fn validate_concat(node: &OnnxNode, ctx: &BuildContext<'_>) -> (r: Result<TensorShape, Error>)
    ensures
        outcome(r) == concat_shape(node@, ctx@),
{
    let first: &TensorShape = match find_shape(node, ctx, 0, "Concat: input ") {
        Ok(s) => s,
        Err(e) => {
            return Err(e);
        },
    };
    let axis: usize = normal_axis(first.dims.len(), node.get_attr_int("axis", 0));
    match join_dims(node, ctx, &first.dims, axis) {
        Ok(d) => Ok(TensorShape::new(d, first.dtype)),
        Err(e) => Err(e),
    }
}

/// The bytes of the first `n` named constants one after another.
pub open spec fn joined_data(names: Seq<Seq<char>>, ctx: ContextView, n: nat) -> Seq<u8>
    decreases n,
{
    if n == 0 {
        Seq::empty()
    } else {
        joined_data(names, ctx, (n - 1) as nat) + ctx.constant_data(names[n - 1])->0
    }
}

/// Whether every named tensor is known while compiling.
pub open spec fn all_constant(names: Seq<Seq<char>>, ctx: ContextView) -> bool {
    forall|i: int| 0 <= i < names.len() ==> ctx.is_constant(#[trigger] names[i])
}

fn join_constants(node: &OnnxNode, ctx: &BuildContext<'_>) -> (r: Option<Vec<u8>>)
    ensures
        match r {
            Some(d) => all_constant(node@.inputs, ctx@) && d@ == joined_data(
                node@.inputs,
                ctx@,
                node@.inputs.len(),
            ),
            None => !all_constant(node@.inputs, ctx@),
        },
{
    let mut out: Vec<u8> = Vec::new();
    let mut i: usize = 0;
    while i < node.inputs.len()
        invariant
            i <= node.inputs@.len(),
            forall|k: int| 0 <= k < i ==> ctx@.is_constant(#[trigger] node@.inputs[k]),
            out@ == joined_data(node@.inputs, ctx@, i as nat),
        decreases node.inputs@.len() - i,
    {
        assert(node@.inputs[i as int] == node.inputs@[i as int]@);
        match ctx.get_constant_data(node.inputs[i].as_str()) {
            Some(d) => {
                let mut part: Vec<u8> = vstd::slice::slice_to_vec(d);
                out.append(&mut part);
            },
            None => {
                assert(!ctx@.is_constant(node@.inputs[i as int]));
                return None;
            },
        }
        i = i + 1;
    }
    Some(out)
}

/// The compiled form of Concat: constant lists are joined while compiling, and
/// a constant output needs no input.
pub open spec fn concat_build(node: NodeView, ctx: ContextView) -> Result<
    (OpView, ContextView),
    ErrorView,
> {
    let axis = concat_axis(node, ctx);
    let folded = if all_constant(node.inputs, ctx) && ctx.shapes[node.inputs[0]].dims.len() == 1
        && axis == 0 {
        ctx.with_constant(node.outputs[0], joined_data(node.inputs, ctx, node.inputs.len()))
    } else {
        ctx
    };
    finished(
        node,
        folded,
        concat_shape(node, ctx),
        "Concat"@,
        if folded.is_constant(node.outputs[0]) {
            Seq::empty()
        } else {
            node.inputs
        },
        ParamsView::Concat { axis },
    )
}

/// Build a Concat.
pub fn build_concat(node: &OnnxNode, ctx: &mut BuildContext<'_>) -> (r: Result<CompiledOp, Error>)
    ensures
        build_outcome(r, final(ctx)@) == concat_build(node@, old(ctx)@),
        r is Err ==> final(ctx)@ == old(ctx)@,
{
    let shape: TensorShape = match validate_concat(node, ctx) {
        Ok(s) => s,
        Err(e) => {
            return Err(e);
        },
    };
    if node.outputs.len() == 0 {
        return Err(Error::Shape("no output".to_owned()));
    }
    assert(node@.outputs[0] == node.outputs@[0]@);
    let rank: usize = match find_shape(node, ctx, 0, "Concat: input ") {
        Ok(s) => s.dims.len(),
        Err(e) => {
            return Err(e);
        },
    };
    let axis: usize = normal_axis(rank, node.get_attr_int("axis", 0));
    let data: Option<Vec<u8>> = join_constants(node, ctx);
    match data {
        Some(d) => {
            if rank == 1 && axis == 0 {
                ctx.set_constant(node.outputs[0].clone(), d);
            }
        },
        None => {},
    }
    let inputs: Vec<String> = if ctx.is_constant(node.outputs[0].as_str()) {
        Vec::new()
    } else {
        copy_names(&node.inputs)
    };
    assert(inputs@.len() == 0 ==> views(inputs@) =~= Seq::empty());
    finish(node, ctx, shape, "Concat", inputs, OpParams::Concat { axis })
}

} // verus!
