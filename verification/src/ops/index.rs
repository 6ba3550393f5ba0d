//! Ops that select or resample parts of a tensor: Split, Slice and Resize.

use vstd::prelude::*;
use vstd::string::*;
use crate::builder::{BuildContext, CompiledOp, ContextView, OpParams, OpView, ParamsView};
use crate::error::{outcome, Error, ErrorView};
use crate::ieee::{from_whole, index_of, mul32, product32, single_of, to_index};
use crate::model::{copy_names, copy_vec, signed64, to_signed64, NodeView, OnnxNode};
use crate::ops::common::{
    axis_of, axis_out_of_range, build_outcome, err_axis_out_of_range, err_size_overflow,
    err_too_few_inputs, find_shape, finish, finished, first_input, found_shape, invalid, no_output,
    normal_axis, size_overflow, sizes, to_sizes, too_few_inputs,
};
use crate::proto::{to_words32, words32};
use crate::tensor::{plain_shape, ShapeView, TensorShape};
use crate::text::concat3;

verus! {

/// Whether input `i` is named.
pub open spec fn names_input(node: NodeView, i: int) -> bool {
    node.inputs.len() > i && node.inputs[i].len() != 0
}

fn has_input(node: &OnnxNode, i: usize) -> (r: bool)
    ensures
        r == names_input(node@, i as int),
        r ==> i < node.inputs@.len() && node@.inputs[i as int] == node.inputs@[i as int]@,
{
    if node.inputs.len() > i {
        assert(node@.inputs[i as int] == node.inputs@[i as int]@);
        node.inputs[i].as_str().unicode_len() != 0
    } else {
        false
    }
}

// ---------------------------------------------------------------------------
// Split
// ---------------------------------------------------------------------------

/// The axis of a Split node.
pub open spec fn split_axis(node: NodeView, ctx: ContextView) -> usize {
    axis_of(ctx.shapes[node.inputs[0]].dims.len(), node.attr_int("axis"@, 0))
}

/// The sizes of the parts: the second input if it is named, else the
/// attribute, else equal parts, one for each output.
pub open spec fn part_sizes(node: NodeView, ctx: ContextView, dims: Seq<usize>, axis: usize) -> Result<
    Seq<usize>,
    ErrorView,
> {
    if names_input(node, 1) {
        match ctx.constant_data(node.inputs[1]) {
            Some(data) => Ok(sizes(signed64(data))),
            None => Err(ErrorView::Validation("Split sizes must be constant"@)),
        }
    } else if node.attr_ints("split"@).len() != 0 {
        Ok(sizes(node.attr_ints("split"@)))
    } else if axis >= dims.len() {
        Err(axis_out_of_range())
    } else if node.outputs.len() == 0 {
        Err(no_output())
    } else {
        Ok(
            Seq::new(
                node.outputs.len(),
                |i: int| (dims[axis as int] as nat / node.outputs.len()) as usize,
            ),
        )
    }
}

/// The shape of the first part.
pub open spec fn split_shape(node: NodeView, ctx: ContextView) -> Result<ShapeView, ErrorView> {
    match found_shape(node, ctx, 0, "input "@) {
        Err(e) => Err(e),
        Ok(x) => {
            let axis = split_axis(node, ctx);
            match part_sizes(node, ctx, x.dims, axis) {
                Err(e) => Err(e),
                Ok(parts) => if axis >= x.dims.len() {
                    Err(axis_out_of_range())
                } else if parts.len() == 0 {
                    Err(ErrorView::Shape("no split sizes"@))
                } else {
                    Ok(plain_shape(x.dims.update(axis as int, parts[0]), x.dtype))
                },
            }
        },
    }
}

fn read_part_sizes(node: &OnnxNode, ctx: &BuildContext<'_>, dims: &Vec<usize>, axis: usize) -> (r:
    Result<Vec<usize>, Error>)
    ensures
        outcome(r) == part_sizes(node@, ctx@, dims@, axis),
{
    if has_input(node, 1) {
        return match ctx.get_constant_data(node.inputs[1].as_str()) {
            Some(data) => Ok(to_sizes(&to_signed64(data))),
            None => Err(invalid("Split sizes must be constant")),
        };
    }
    let attr: Vec<i64> = node.get_attr_ints("split");
    if attr.len() != 0 {
        return Ok(to_sizes(&attr));
    }
    if axis >= dims.len() {
        return Err(err_axis_out_of_range());
    }
    let count: usize = node.outputs.len();
    if count == 0 {
        return Err(Error::Shape("no output".to_owned()));
    }
    let part: usize = dims[axis] / count;
    let mut parts: Vec<usize> = Vec::new();
    while parts.len() < count
        invariant
            parts@.len() <= count,
            forall|k: int| 0 <= k < parts@.len() ==> parts@[k] == part,
        decreases count - parts@.len(),
    {
        parts.push(part);
    }
    assert(parts@ =~= Seq::new(
        node@.outputs.len(),
        |i: int| (dims@[axis as int] as nat / node@.outputs.len()) as usize,
    ));
    Ok(parts)
}

/// The shape of the first part.
pub fn validate_split(node: &OnnxNode, ctx: &BuildContext<'_>) -> (r: Result<TensorShape, Error>)
    ensures
        outcome(r) == split_shape(node@, ctx@),
{
    let x: &TensorShape = match find_shape(node, ctx, 0, "input ") {
        Ok(s) => s,
        Err(e) => {
            return Err(e);
        },
    };
    let axis: usize = normal_axis(x.dims.len(), node.get_attr_int("axis", 0));
    let parts: Vec<usize> = match read_part_sizes(node, ctx, &x.dims, axis) {
        Ok(p) => p,
        Err(e) => {
            return Err(e);
        },
    };
    if axis >= x.dims.len() {
        return Err(err_axis_out_of_range());
    }
    if parts.len() == 0 {
        return Err(Error::Shape("no split sizes".to_owned()));
    }
    let mut dims: Vec<usize> = copy_vec(&x.dims);
    dims.set(axis, parts[0]);
    Ok(TensorShape::new(dims, x.dtype))
}

/// The context with the shapes of the first `n` parts set.
pub open spec fn with_parts(
    ctx: ContextView,
    outputs: Seq<Seq<char>>,
    x: ShapeView,
    axis: usize,
    parts: Seq<usize>,
    n: nat,
) -> ContextView
    decreases n,
{
    if n == 0 {
        ctx
    } else {
        with_parts(ctx, outputs, x, axis, parts, (n - 1) as nat).with_shape(
            outputs[n - 1],
            plain_shape(x.dims.update(axis as int, parts[n - 1]), x.dtype),
        )
    }
}

/// The number of parts that have both a size and an output.
pub open spec fn part_count(outputs: nat, parts: nat) -> nat {
    if outputs < parts {
        outputs
    } else {
        parts
    }
}

/// The compiled form of Split: every output gets the shape of its part.
pub open spec fn split_build(node: NodeView, ctx: ContextView) -> Result<
    (OpView, ContextView),
    ErrorView,
> {
    match found_shape(node, ctx, 0, "input "@) {
        Err(e) => Err(e),
        Ok(x) => {
            let axis = split_axis(node, ctx);
            match part_sizes(node, ctx, x.dims, axis) {
                Err(e) => Err(e),
                Ok(parts) => {
                    let n = part_count(node.outputs.len(), parts.len());
                    if n > 0 && axis >= x.dims.len() {
                        Err(axis_out_of_range())
                    } else {
                        Ok(
                            (
                                OpView {
                                    name: node.name,
                                    op_type: "Split"@,
                                    inputs: seq![node.inputs[0]],
                                    outputs: node.outputs,
                                    params: ParamsView::Split { axis, split_sizes: parts },
                                },
                                with_parts(ctx, node.outputs, x, axis, parts, n),
                            ),
                        )
                    }
                },
            }
        },
    }
}

/// Build a Split.
pub fn build_split(node: &OnnxNode, ctx: &mut BuildContext<'_>) -> (r: Result<CompiledOp, Error>)
    ensures
        build_outcome(r, final(ctx)@) == split_build(node@, old(ctx)@),
        r is Err ==> final(ctx)@ == old(ctx)@,
{
    let x: TensorShape = match find_shape(node, ctx, 0, "input ") {
        Ok(s) => s.clone(),
        Err(e) => {
            return Err(e);
        },
    };
    let axis: usize = normal_axis(x.dims.len(), node.get_attr_int("axis", 0));
    let parts: Vec<usize> = match read_part_sizes(node, ctx, &x.dims, axis) {
        Ok(p) => p,
        Err(e) => {
            return Err(e);
        },
    };
    let n: usize = if node.outputs.len() < parts.len() {
        node.outputs.len()
    } else {
        parts.len()
    };
    if n > 0 && axis >= x.dims.len() {
        return Err(err_axis_out_of_range());
    }
    let mut i: usize = 0;
    while i < n
        invariant
            i <= n <= node.outputs@.len(),
            n <= parts@.len(),
            n > 0 ==> axis < x.dims@.len(),
            ctx@ == with_parts(old(ctx)@, node@.outputs, x@, axis, parts@, i as nat),
        decreases n - i,
    {
        let mut dims: Vec<usize> = copy_vec(&x.dims);
        dims.set(axis, parts[i]);
        assert(node@.outputs[i as int] == node.outputs@[i as int]@);
        ctx.set_shape(node.outputs[i].clone(), TensorShape::new(dims, x.dtype));
        i = i + 1;
    }
    Ok(
        CompiledOp {
            name: node.name.clone(),
            op_type: "Split".to_owned(),
            inputs: first_input(node),
            outputs: copy_names(&node.outputs),
            params: OpParams::Split { axis, split_sizes: parts },
        },
    )
}

// ---------------------------------------------------------------------------
// Slice
// ---------------------------------------------------------------------------

/// An edge of a slice along a dimension of `dim` elements: counted from the
/// end where it is negative, and kept within the dimension.
pub open spec fn slice_edge(dim: i64, s: i64) -> Option<usize> {
    if s < 0 {
        if dim + s < i64::MIN {
            None
        } else if dim + s < 0 {
            Some(0)
        } else {
            Some((dim + s) as usize)
        }
    } else if s < dim {
        Some(s as usize)
    } else {
        Some(dim as usize)
    }
}

/// The number of elements of a slice along one dimension.
pub open spec fn slice_extent(size: usize, start: i64, end: i64, step: i64) -> Option<usize> {
    let width = (if step < 0 { -step } else { step as int }) as usize;
    match (slice_edge(size as i64, start), slice_edge(size as i64, end)) {
        (Some(s), Some(e)) => {
            let span = if e > s { e - s } else { 0 };
            if width == 0 || span + width > usize::MAX {
                None
            } else {
                Some(((span + width - 1) / (width as int)) as usize)
            }
        },
        _ => None,
    }
}

fn edge(dim: i64, s: i64) -> (r: Option<usize>)
    ensures
        r == slice_edge(dim, s),
{
    if s < 0 {
        match dim.checked_add(s) {
            Some(v) => if v < 0 {
                Some(0)
            } else {
                Some(v as usize)
            },
            None => None,
        }
    } else if s < dim {
        Some(s as usize)
    } else {
        Some(dim as usize)
    }
}

fn extent(size: usize, start: i64, end: i64, step: i64) -> (r: Option<usize>)
    ensures
        r == slice_extent(size, start, end, step),
{
    let width: usize = (if step < 0 {
        -(step as i128)
    } else {
        step as i128
    }) as usize;
    match (edge(size as i64, start), edge(size as i64, end)) {
        (Some(s), Some(e)) => {
            let span: usize = if e > s {
                e - s
            } else {
                0
            };
            if width == 0 {
                return None;
            }
            match span.checked_add(width) {
                Some(t) => Some((t - 1) / width),
                None => None,
            }
        },
        _ => None,
    }
}

/// A constant list of 64-bit numbers.
pub open spec fn constant_numbers(ctx: ContextView, name: Seq<char>) -> Result<Seq<i64>, ErrorView> {
    match ctx.constant_data(name) {
        Some(data) => Ok(signed64(data)),
        None => Err(ErrorView::Validation("Slice: "@ + name + " must be constant"@)),
    }
}

/// A constant list of 64-bit numbers.
pub fn get_i64_constant(ctx: &BuildContext<'_>, name: &str) -> (r: Result<Vec<i64>, Error>)
    ensures
        outcome(r) == constant_numbers(ctx@, name@),
{
    match ctx.get_constant_data(name) {
        Some(data) => Ok(to_signed64(data)),
        None => Err(Error::Validation(concat3("Slice: ", name, " must be constant"))),
    }
}

/// What a Slice node asks for.
pub struct SliceView {
    pub starts: Seq<i64>,
    pub ends: Seq<i64>,
    pub axes: Seq<usize>,
    pub steps: Seq<i64>,
}

/// What a Slice node of a tensor of `rank` dimensions asks for: without axes
/// the leading ones are meant, without steps every element is taken.
pub open spec fn slice_request(node: NodeView, ctx: ContextView, rank: nat) -> Result<
    SliceView,
    ErrorView,
> {
    if node.inputs.len() < 3 {
        Err(too_few_inputs())
    } else {
        match constant_numbers(ctx, node.inputs[1]) {
            Err(e) => Err(e),
            Ok(starts) => match constant_numbers(ctx, node.inputs[2]) {
                Err(e) => Err(e),
                Ok(ends) => match if names_input(node, 3) {
                    constant_numbers(ctx, node.inputs[3])
                } else {
                    Ok(Seq::empty())
                } {
                    Err(e) => Err(e),
                    Ok(named) => match if names_input(node, 4) {
                        constant_numbers(ctx, node.inputs[4])
                    } else {
                        Ok(Seq::new(starts.len(), |i: int| 1i64))
                    } {
                        Err(e) => Err(e),
                        Ok(steps) => Ok(
                            SliceView {
                                starts,
                                ends,
                                axes: if names_input(node, 3) {
                                    named.map_values(|a: i64| axis_of(rank, a))
                                } else {
                                    Seq::new(starts.len(), |i: int| i as usize)
                                },
                                steps,
                            },
                        ),
                    },
                },
            },
        }
    }
}

/// The dimensions after slicing along the first `n` axes asked for.
pub open spec fn sliced(dims: Seq<usize>, q: SliceView, n: nat) -> Result<Seq<usize>, ErrorView>
    decreases n,
{
    if n == 0 {
        Ok(dims)
    } else {
        let i = n - 1;
        match sliced(dims, q, i as nat) {
            Err(e) => Err(e),
            Ok(out) => if q.axes[i] >= dims.len() || i >= q.starts.len() || i >= q.ends.len() || i
                >= q.steps.len() {
                Err(axis_out_of_range())
            } else {
                match slice_extent(dims[q.axes[i] as int], q.starts[i], q.ends[i], q.steps[i]) {
                    None => Err(size_overflow()),
                    Some(size) => Ok(out.update(q.axes[i] as int, size)),
                }
            },
        }
    }
}

/// The output shape of Slice.
pub open spec fn slice_shape(node: NodeView, ctx: ContextView) -> Result<ShapeView, ErrorView> {
    match found_shape(node, ctx, 0, "input "@) {
        Err(e) => Err(e),
        Ok(x) => match slice_request(node, ctx, x.dims.len()) {
            Err(e) => Err(e),
            Ok(q) => match sliced(x.dims, q, q.axes.len()) {
                Err(e) => Err(e),
                Ok(d) => Ok(plain_shape(d, x.dtype)),
            },
        },
    }
}

struct SliceRequest {
    starts: Vec<i64>,
    ends: Vec<i64>,
    axes: Vec<usize>,
    steps: Vec<i64>,
}

impl View for SliceRequest {
    type V = SliceView;

    closed spec fn view(&self) -> SliceView {
        SliceView {
            starts: self.starts@,
            ends: self.ends@,
            axes: self.axes@,
            steps: self.steps@,
        }
    }
}

fn normal_axes(axes: &Vec<i64>, rank: usize) -> (r: Vec<usize>)
    ensures
        r@ == axes@.map_values(|a: i64| axis_of(rank as nat, a)),
{
    let ghost all = axes@.map_values(|a: i64| axis_of(rank as nat, a));
    let mut r: Vec<usize> = Vec::new();
    let mut i: usize = 0;
    while i < axes.len()
        invariant
            i <= axes@.len(),
            all == axes@.map_values(|a: i64| axis_of(rank as nat, a)),
            r@ == all.take(i as int),
        decreases axes@.len() - i,
    {
        r.push(normal_axis(rank, axes[i]));
        i = i + 1;
        assert(r@ =~= all.take(i as int));
    }
    assert(all.take(i as int) =~= all);
    r
}

fn counting(n: usize) -> (r: Vec<usize>)
    ensures
        r@ == Seq::new(n as nat, |i: int| i as usize),
{
    let mut r: Vec<usize> = Vec::new();
    while r.len() < n
        invariant
            r@.len() <= n,
            forall|k: int| 0 <= k < r@.len() ==> r@[k] == k,
        decreases n - r@.len(),
    {
        let i: usize = r.len();
        r.push(i);
    }
    assert(r@ =~= Seq::new(n as nat, |i: int| i as usize));
    r
}

fn ones(n: usize) -> (r: Vec<i64>)
    ensures
        r@ == Seq::new(n as nat, |i: int| 1i64),
{
    let mut r: Vec<i64> = Vec::new();
    while r.len() < n
        invariant
            r@.len() <= n,
            forall|k: int| 0 <= k < r@.len() ==> r@[k] == 1,
        decreases n - r@.len(),
    {
        r.push(1);
    }
    assert(r@ =~= Seq::new(n as nat, |i: int| 1i64));
    r
}

fn read_slice_request(node: &OnnxNode, ctx: &BuildContext<'_>, rank: usize) -> (r: Result<
    SliceRequest,
    Error,
>)
    ensures
        outcome(r) == slice_request(node@, ctx@, rank as nat),
{
    if node.inputs.len() < 3 {
        return Err(err_too_few_inputs());
    }
    assert(node@.inputs[1] == node.inputs@[1]@);
    assert(node@.inputs[2] == node.inputs@[2]@);
    let starts: Vec<i64> = match get_i64_constant(ctx, node.inputs[1].as_str()) {
        Ok(v) => v,
        Err(e) => {
            return Err(e);
        },
    };
    let ends: Vec<i64> = match get_i64_constant(ctx, node.inputs[2].as_str()) {
        Ok(v) => v,
        Err(e) => {
            return Err(e);
        },
    };
    let axes: Vec<usize> = if has_input(node, 3) {
        match get_i64_constant(ctx, node.inputs[3].as_str()) {
            Ok(v) => normal_axes(&v, rank),
            Err(e) => {
                return Err(e);
            },
        }
    } else {
        counting(starts.len())
    };
    let steps: Vec<i64> = if has_input(node, 4) {
        match get_i64_constant(ctx, node.inputs[4].as_str()) {
            Ok(v) => v,
            Err(e) => {
                return Err(e);
            },
        }
    } else {
        ones(starts.len())
    };
    Ok(SliceRequest { starts, ends, axes, steps })
}

proof fn lemma_sliced_prefix(dims: Seq<usize>, q: SliceView, n: nat, m: nat)
    requires
        n <= m,
    ensures
        sliced(dims, q, n) is Err ==> sliced(dims, q, m) == sliced(dims, q, n),
    decreases m,
{
    if n < m {
        lemma_sliced_prefix(dims, q, n, (m - 1) as nat);
    }
}

fn slice_dims(dims: &Vec<usize>, q: &SliceRequest) -> (r: Result<Vec<usize>, Error>)
    ensures
        outcome(r) == sliced(dims@, q@, q@.axes.len()),
{
    let mut out: Vec<usize> = copy_vec(dims);
    let mut i: usize = 0;
    while i < q.axes.len()
        invariant
            i <= q.axes@.len(),
            out@.len() == dims@.len(),
            sliced(dims@, q@, i as nat) == Ok::<Seq<usize>, ErrorView>(out@),
        decreases q.axes@.len() - i,
    {
        proof {
            lemma_sliced_prefix(dims@, q@, (i + 1) as nat, q@.axes.len());
        }
        let axis: usize = q.axes[i];
        if axis >= dims.len() || i >= q.starts.len() || i >= q.ends.len() || i >= q.steps.len() {
            return Err(err_axis_out_of_range());
        }
        match extent(dims[axis], q.starts[i], q.ends[i], q.steps[i]) {
            Some(size) => {
                out.set(axis, size);
            },
            None => {
                return Err(err_size_overflow());
            },
        }
        i = i + 1;
    }
    Ok(out)
}

fn check_slice(node: &OnnxNode, ctx: &BuildContext<'_>) -> (r: Result<
    (TensorShape, SliceRequest),
    Error,
>)
    ensures
        match r {
            Ok((s, q)) => {
                &&& slice_shape(node@, ctx@) == Ok::<ShapeView, ErrorView>(s@)
                &&& slice_request(node@, ctx@, ctx@.shapes[node@.inputs[0]].dims.len()) == Ok::<
                    SliceView,
                    ErrorView,
                >(q@)
            },
            Err(e) => slice_shape(node@, ctx@) == Err::<ShapeView, ErrorView>(e@),
        },
{
    let x: &TensorShape = match find_shape(node, ctx, 0, "input ") {
        Ok(s) => s,
        Err(e) => {
            return Err(e);
        },
    };
    let q: SliceRequest = match read_slice_request(node, ctx, x.dims.len()) {
        Ok(q) => q,
        Err(e) => {
            return Err(e);
        },
    };
    match slice_dims(&x.dims, &q) {
        Ok(d) => Ok((TensorShape::new(d, x.dtype), q)),
        Err(e) => Err(e),
    }
}

/// The output shape of Slice.
pub fn validate_slice(node: &OnnxNode, ctx: &BuildContext<'_>) -> (r: Result<TensorShape, Error>)
    ensures
        outcome(r) == slice_shape(node@, ctx@),
{
    match check_slice(node, ctx) {
        Ok((s, _)) => Ok(s),
        Err(e) => Err(e),
    }
}

/// Numbers as signed index-sized numbers.
pub open spec fn offsets(v: Seq<i64>) -> Seq<isize> {
    v.map_values(|x: i64| x as isize)
}

fn to_offsets(v: &Vec<i64>) -> (r: Vec<isize>)
    ensures
        r@ == offsets(v@),
{
    let mut r: Vec<isize> = Vec::new();
    let mut i: usize = 0;
    while i < v.len()
        invariant
            i <= v@.len(),
            r@ == offsets(v@).take(i as int),
        decreases v@.len() - i,
    {
        r.push(v[i] as isize);
        i = i + 1;
        assert(r@ =~= offsets(v@).take(i as int));
    }
    assert(offsets(v@).take(i as int) =~= offsets(v@));
    r
}

/// The compiled form of Slice: only the data input is kept.
pub open spec fn slice_build(node: NodeView, ctx: ContextView) -> Result<
    (OpView, ContextView),
    ErrorView,
> {
    let q = slice_request(node, ctx, ctx.shapes[node.inputs[0]].dims.len())->Ok_0;
    finished(
        node,
        ctx,
        slice_shape(node, ctx),
        "Slice"@,
        seq![node.inputs[0]],
        ParamsView::Slice {
            starts: offsets(q.starts),
            ends: offsets(q.ends),
            axes: q.axes,
            steps: offsets(q.steps),
        },
    )
}

/// Build a Slice.
pub fn build_slice(node: &OnnxNode, ctx: &mut BuildContext<'_>) -> (r: Result<CompiledOp, Error>)
    ensures
        build_outcome(r, final(ctx)@) == slice_build(node@, old(ctx)@),
        r is Err ==> final(ctx)@ == old(ctx)@,
{
    match check_slice(node, ctx) {
        Ok((shape, q)) => {
            let params: OpParams = OpParams::Slice {
                starts: to_offsets(&q.starts),
                ends: to_offsets(&q.ends),
                axes: q.axes,
                steps: to_offsets(&q.steps),
            };
            finish(node, ctx, shape, "Slice", first_input(node), params)
        },
        Err(e) => Err(e),
    }
}

/// A slice along a dimension takes the elements `start, start + step, ..`
/// before `end`: element `i` is one of them exactly if its place is before the end.
pub proof fn law_slice_counts_elements(size: usize, start: i64, end: i64, step: i64, i: int)
    requires
        slice_extent(size, start, end, step) is Some,
        step > 0,
        step <= usize::MAX,
        0 <= i,
    ensures
        i < slice_extent(size, start, end, step)->0 <==> slice_edge(size as i64, start)->0 + i * step
            < slice_edge(size as i64, end)->0,
{
    let s = slice_edge(size as i64, start)->0 as int;
    let e = slice_edge(size as i64, end)->0 as int;
    let w = step as int;
    let span = if e > s { e - s } else { 0 };
    let n = (span + w - 1) / w;
    assert(n * w <= span + w - 1 < (n + 1) * w) by (nonlinear_arith)
        requires
            w > 0,
            n == (span + w - 1) / w,
    ;
    if i < n {
        assert(i * w <= n * w - w) by (nonlinear_arith)
            requires
                i + 1 <= n,
                w > 0,
        ;
    } else {
        assert(n * w <= i * w) by (nonlinear_arith)
            requires
                n <= i,
                w > 0,
        ;
        assert((n + 1) * w == n * w + w) by (nonlinear_arith);
        assert(i * w >= 0) by (nonlinear_arith)
            requires
                i >= 0,
                w > 0,
        ;
    }
}

// ---------------------------------------------------------------------------
// Resize
// ---------------------------------------------------------------------------

/// The output height and width of Resize: the sizes if they are named, else
/// the input's height and width times the scales, rounded.
pub open spec fn resize_size(node: NodeView, ctx: ContextView, dims: Seq<usize>) -> Result<
    (usize, usize),
    ErrorView,
> {
    if names_input(node, 3) {
        match ctx.constant_data(node.inputs[3]) {
            None => Err(ErrorView::Validation("Resize sizes must be constant"@)),
            Some(data) => if signed64(data).len() < 4 {
                Err(ErrorView::Validation("Resize sizes must have 4 elements"@))
            } else {
                Ok((signed64(data)[2] as usize, signed64(data)[3] as usize))
            },
        }
    } else if names_input(node, 2) {
        match ctx.constant_data(node.inputs[2]) {
            None => Err(ErrorView::Validation("Resize scales must be constant"@)),
            Some(data) => if words32(data).len() < 4 {
                Err(ErrorView::Validation("Resize scales must have 4 elements"@))
            } else {
                Ok(
                    (
                        index_of(product32(single_of(dims[2] as nat), words32(data)[2])),
                        index_of(product32(single_of(dims[3] as nat), words32(data)[3])),
                    ),
                )
            },
        }
    } else {
        Err(ErrorView::Validation("Resize requires either scales or sizes"@))
    }
}

/// The output shape of Resize.
pub open spec fn resize_shape(node: NodeView, ctx: ContextView) -> Result<ShapeView, ErrorView> {
    match found_shape(node, ctx, 0, "input "@) {
        Err(e) => Err(e),
        Ok(x) => if x.dims.len() != 4 {
            Err(ErrorView::Validation("Resize input must be 4D (NCHW)"@))
        } else {
            match resize_size(node, ctx, x.dims) {
                Err(e) => Err(e),
                Ok((h, w)) => Ok(plain_shape(seq![x.dims[0], x.dims[1], h, w], x.dtype)),
            }
        },
    }
}

fn read_resize_size(node: &OnnxNode, ctx: &BuildContext<'_>, dims: &Vec<usize>) -> (r: Result<
    (usize, usize),
    Error,
>)
    requires
        dims@.len() == 4,
    ensures
        match r {
            Ok(p) => resize_size(node@, ctx@, dims@) == Ok::<(usize, usize), ErrorView>(p),
            Err(e) => resize_size(node@, ctx@, dims@) == Err::<(usize, usize), ErrorView>(e@),
        },
{
    if has_input(node, 3) {
        match ctx.get_constant_data(node.inputs[3].as_str()) {
            Some(data) => {
                let v: Vec<i64> = to_signed64(data);
                if v.len() < 4 {
                    return Err(invalid("Resize sizes must have 4 elements"));
                }
                Ok((v[2] as usize, v[3] as usize))
            },
            None => Err(invalid("Resize sizes must be constant")),
        }
    } else if has_input(node, 2) {
        match ctx.get_constant_data(node.inputs[2].as_str()) {
            Some(data) => {
                let v: Vec<u32> = to_words32(data);
                if v.len() < 4 {
                    return Err(invalid("Resize scales must have 4 elements"));
                }
                let h: usize = to_index(mul32(from_whole(dims[2] as u64), v[2]));
                let w: usize = to_index(mul32(from_whole(dims[3] as u64), v[3]));
                Ok((h, w))
            },
            None => Err(invalid("Resize scales must be constant")),
        }
    } else {
        Err(invalid("Resize requires either scales or sizes"))
    }
}

/// The output shape of Resize.
pub fn validate_resize(node: &OnnxNode, ctx: &BuildContext<'_>) -> (r: Result<TensorShape, Error>)
    ensures
        outcome(r) == resize_shape(node@, ctx@),
{
    let x: &TensorShape = match find_shape(node, ctx, 0, "input ") {
        Ok(s) => s,
        Err(e) => {
            return Err(e);
        },
    };
    if x.dims.len() != 4 {
        return Err(invalid("Resize input must be 4D (NCHW)"));
    }
    match read_resize_size(node, ctx, &x.dims) {
        Ok((h, w)) => {
            let dims: Vec<usize> = vec![x.dims[0], x.dims[1], h, w];
            assert(dims@ =~= seq![x.dims@[0], x.dims@[1], h, w]);
            Ok(TensorShape::new(dims, x.dtype))
        },
        Err(e) => Err(e),
    }
}

/// The compiled form of Resize: only the data input is kept.
pub open spec fn resize_build(node: NodeView, ctx: ContextView) -> Result<
    (OpView, ContextView),
    ErrorView,
> {
    let dims = resize_shape(node, ctx)->Ok_0.dims;
    finished(
        node,
        ctx,
        resize_shape(node, ctx),
        "Resize"@,
        seq![node.inputs[0]],
        ParamsView::Resize {
            out_h: dims[2],
            out_w: dims[3],
            mode: node.attr_string("mode"@, "nearest"@),
        },
    )
}

/// Build a Resize.
pub fn build_resize(node: &OnnxNode, ctx: &mut BuildContext<'_>) -> (r: Result<CompiledOp, Error>)
    ensures
        build_outcome(r, final(ctx)@) == resize_build(node@, old(ctx)@),
        r is Err ==> final(ctx)@ == old(ctx)@,
{
    match validate_resize(node, ctx) {
        Ok(shape) => {
            let params: OpParams = OpParams::Resize {
                out_h: shape.dims[2],
                out_w: shape.dims[3],
                mode: node.get_attr_string("mode", "nearest"),
            };
            finish(node, ctx, shape, "Resize", first_input(node), params)
        },
        Err(e) => Err(e),
    }
}

} // verus!
