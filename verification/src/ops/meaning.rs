//! What the compiled form of a node says: its parameters are the node's own, and
//! its output has the shape that they make.

use vstd::prelude::*;
use vstd::string::*;
use vstd::arithmetic::power2::pow2;
use crate::builder::{ContextView, OpView, ParamsView};
use crate::error::ErrorView;
use crate::ieee::accuracy::distance;
use crate::model::{signed64, NodeView};
use crate::ops::fold::{concat_axis, concat_dims, gather_folded, index_in, Folded};
use crate::ops::index::{
    law_slice_counts_elements, names_input, part_sizes, slice_extent, slice_request, sliced,
    split_axis, with_parts, SliceView,
};
use crate::ops::linear::{broadcast_dim, broadcast_dims, first_float};
use crate::ops::reshape::{
    axes_from_start, law_flatten_keeps_elements, perm_of, reshape_scan, unsqueeze_axes, with_ones,
};
use crate::ops::window::law_window_positions;
use crate::ops::{built, OpBuilder};
use crate::precision::steps::law_scaled_size_is_nearest;
use crate::precision::{is_finite, value_of};
use crate::proto::{bytes_of_words64, law_words64_round_trip, words32, words64};
use crate::tensor::{numel, ShapeView};

verus! {

/// Whether a node builds.
pub open spec fn builds(b: OpBuilder, node: NodeView, ctx: ContextView) -> bool {
    built(b, node, ctx) is Ok
}

/// The compiled op of a node that builds.
pub open spec fn op_of(b: OpBuilder, node: NodeView, ctx: ContextView) -> OpView {
    built(b, node, ctx)->Ok_0.0
}

/// The sizes of a node's first output once it is built.
pub open spec fn made(b: OpBuilder, node: NodeView, ctx: ContextView) -> Seq<usize> {
    built(b, node, ctx)->Ok_0.1.shapes[node.outputs[0]].dims
}

/// The sizes of a node's input.
pub open spec fn taken(node: NodeView, ctx: ContextView, i: int) -> Seq<usize> {
    ctx.shapes[node.inputs[i]].dims
}

/// Whether `n` windows of `kernel` elements, each `stride` further, fit on
/// `size` elements, and no more.
pub open spec fn is_window_count(n: int, size: int, kernel: int, stride: int) -> bool {
    forall|i: int| #![trigger i * stride] 0 <= i ==> (i < n <==> i * stride + kernel <= size)
}

/// Whether a list of two holds what an attribute of two says.
pub open spec fn is_attribute(v: Seq<usize>, node: NodeView, name: Seq<char>) -> bool {
    let a = node.attr_ints(name);
    a.len() == 2 ==> v.len() == 2 && v[0] == a[0] as usize && v[1] == a[1] as usize
}

/// A convolution has the kernel, strides, dilations, pads and groups of its
/// node. Its output has an image for each of the input, the weight's output
/// channels, and a place for each window that fits on the padded image.
pub proof fn law_conv_is_built(node: NodeView, ctx: ContextView)
    requires
        builds(OpBuilder::Conv, node, ctx),
    ensures
        ({
            let op = op_of(OpBuilder::Conv, node, ctx);
            let (x, y) = (taken(node, ctx, 0), made(OpBuilder::Conv, node, ctx));
            let weight = ctx.initializers[node.inputs[1]].dims;
            let pad = node.attr_ints("pads"@);
            &&& op.inputs == node.inputs && op.outputs == node.outputs
            &&& op.params matches ParamsView::Conv2d {
                kernel_shape,
                strides,
                pads,
                dilations,
                group,
            }
            &&& is_attribute(kernel_shape, node, "kernel_shape"@)
            &&& node.attr_ints("kernel_shape"@).len() != 2 ==> kernel_shape == seq![
                weight[2] as usize,
                weight[3] as usize,
            ]
            &&& is_attribute(strides, node, "strides"@)
            &&& is_attribute(dilations, node, "dilations"@)
            &&& group == node.attr_int("group"@, 1) as usize
            &&& pads.len() == 4
            &&& pad.len() == 4 ==> forall|i: int| 0 <= i < 4 ==> #[trigger] pads[i] == pad[i] as usize
            &&& pad.len() != 4 ==> forall|i: int| 0 <= i < 4 ==> #[trigger] pads[i] == 0
            &&& y.len() == 4 && y[0] == x[0] && y[1] == weight[0] as usize
            &&& is_window_count(
                y[2] as int,
                x[2] + pads[0] + pads[2],
                kernel_shape[0] as int,
                strides[0] as int,
            )
            &&& is_window_count(
                y[3] as int,
                x[3] + pads[1] + pads[3],
                kernel_shape[1] as int,
                strides[1] as int,
            )
        }),
{
    let op = op_of(OpBuilder::Conv, node, ctx);
    let x = taken(node, ctx, 0);
    let y = made(OpBuilder::Conv, node, ctx);
    let k = op.params->Conv2d_kernel_shape;
    let s = op.params->Conv2d_strides;
    let p = op.params->Conv2d_pads;
    assert forall|i: int| #![trigger i * s[0] as int] 0 <= i implies (i < y[2] <==> i * s[0] as int
        + k[0] <= x[2] + p[0] + p[2]) by {
        law_window_positions(x[2], p[0], p[2], k[0], s[0], i);
    }
    assert forall|i: int| #![trigger i * s[1] as int] 0 <= i implies (i < y[3] <==> i * s[1] as int
        + k[1] <= x[3] + p[1] + p[3]) by {
        law_window_positions(x[3], p[1], p[3], k[1], s[1], i);
    }
}

/// The kernel, strides and pads of a pool.
pub open spec fn pool_of(p: ParamsView) -> (Seq<usize>, Seq<usize>, Seq<usize>) {
    match p {
        ParamsView::MaxPool { kernel_shape, strides, pads } => (kernel_shape, strides, pads),
        ParamsView::AvgPool { kernel_shape, strides, pads } => (kernel_shape, strides, pads),
        _ => (Seq::empty(), Seq::empty(), Seq::empty()),
    }
}

/// A pool is of the kind that its node says, with the node's kernel and strides.
/// Its output has a place for each window that fits on the image, channels last,
/// with the leading pads on both sides.
pub proof fn law_pool_is_built(node: NodeView, ctx: ContextView, max: bool)
    requires
        builds(
            if max {
                OpBuilder::MaxPool
            } else {
                OpBuilder::AveragePool
            },
            node,
            ctx,
        ),
    ensures
        ({
            let b = if max {
                OpBuilder::MaxPool
            } else {
                OpBuilder::AveragePool
            };
            let op = op_of(b, node, ctx);
            let (x, y) = (taken(node, ctx, 0), made(b, node, ctx));
            &&& op.inputs == node.inputs && op.outputs == node.outputs
            &&& max == (op.params is MaxPool)
            &&& max != (op.params is AvgPool)
            &&& {
                let (kernel, strides, pads) = pool_of(op.params);
                &&& is_attribute(kernel, node, "kernel_shape"@)
                &&& is_attribute(strides, node, "strides"@)
                &&& node.attr_ints("pads"@).len() == 4 ==> forall|i: int|
                    0 <= i < 4 ==> #[trigger] pads[i] == node.attr_ints("pads"@)[i] as usize
                &&& y.len() == 4 && y[0] == x[0] && y[3] == x[3]
                &&& is_window_count(
                    y[1] as int,
                    x[1] + pads[0] + pads[0],
                    kernel[0] as int,
                    strides[0] as int,
                )
                &&& is_window_count(
                    y[2] as int,
                    x[2] + pads[1] + pads[1],
                    kernel[1] as int,
                    strides[1] as int,
                )
            }
        }),
{
    let b = if max {
        OpBuilder::MaxPool
    } else {
        OpBuilder::AveragePool
    };
    let op = op_of(b, node, ctx);
    let (x, y) = (taken(node, ctx, 0), made(b, node, ctx));
    let (k, s, p) = pool_of(op.params);
    assert forall|i: int| #![trigger i * s[0] as int] 0 <= i implies (i < y[1] <==> i * s[0] as int
        + k[0] <= x[1] + p[0] + p[0]) by {
        law_window_positions(x[1], p[0], p[0], k[0], s[0], i);
    }
    assert forall|i: int| #![trigger i * s[1] as int] 0 <= i implies (i < y[2] <==> i * s[1] as int
        + k[1] <= x[2] + p[1] + p[1]) by {
        law_window_positions(x[2], p[1], p[1], k[1], s[1], i);
    }
}

/// A product reads its factors transposed where its node says so, has as many
/// rows as the first and as many columns as the second, and only builds where
/// the first has as many columns as the second has rows.
pub proof fn law_product_is_built(node: NodeView, ctx: ContextView)
    requires
        builds(OpBuilder::Gemm, node, ctx),
        ctx.shapes.dom().contains(node.inputs[1]),
    ensures
        ({
            let op = op_of(OpBuilder::Gemm, node, ctx);
            let (a, b) = (taken(node, ctx, 0), taken(node, ctx, 1));
            &&& op.inputs == node.inputs && op.outputs == node.outputs
            &&& op.params matches ParamsView::Gemm { trans_a, trans_b, .. }
            &&& trans_a == (node.attr_int("transA"@, 0) != 0)
            &&& trans_b == (node.attr_int("transB"@, 0) != 0)
            &&& a.len() == 2 && b.len() == 2
            &&& a[if trans_a { 0int } else { 1 }] == b[if trans_b { 1int } else { 0 }]
            &&& made(OpBuilder::Gemm, node, ctx) == seq![
                a[if trans_a { 1int } else { 0 }],
                b[if trans_b { 0int } else { 1 }],
            ]
        }),
{
}

/// The sum of the sizes of the first `n` inputs along an axis.
pub open spec fn size_along(node: NodeView, ctx: ContextView, axis: int, n: nat) -> int
    decreases n,
{
    if n == 0 {
        0
    } else {
        size_along(node, ctx, axis, (n - 1) as nat) + taken(node, ctx, n - 1)[axis]
    }
}

proof fn lemma_concat_dims(node: NodeView, ctx: ContextView, axis: usize, n: nat)
    requires
        2 <= n,
        concat_dims(node, ctx, axis, n) is Ok,
    ensures
        ({
            let (x, y) = (taken(node, ctx, 0), concat_dims(node, ctx, axis, n)->Ok_0);
            &&& axis < x.len()
            &&& y.len() == x.len()
            &&& y[axis as int] == size_along(node, ctx, axis as int, n)
            &&& forall|d: int| 0 <= d < x.len() && d != axis ==> #[trigger] y[d] == x[d]
        }),
    decreases n,
{
    if n > 2 {
        lemma_concat_dims(node, ctx, axis, (n - 1) as nat);
    } else {
        reveal_with_fuel(size_along, 3);
        reveal_with_fuel(concat_dims, 3);
    }
}

/// A Concat adds up the sizes of its inputs along the axis of its node; along
/// the others it has those of the first.
pub proof fn law_concat_is_built(node: NodeView, ctx: ContextView)
    requires
        builds(OpBuilder::Concat, node, ctx),
        node.inputs.len() >= 2,
        taken(node, ctx, 0).len() <= usize::MAX,
    ensures
        ({
            let op = op_of(OpBuilder::Concat, node, ctx);
            let (x, y) = (taken(node, ctx, 0), made(OpBuilder::Concat, node, ctx));
            let a = node.attr_int("axis"@, 0) as int;
            &&& op.params matches ParamsView::Concat { axis }
            &&& -x.len() <= a < x.len() ==> axis == if a < 0 { x.len() + a } else { a }
            &&& axis < x.len()
            &&& y.len() == x.len()
            &&& y[axis as int] == size_along(node, ctx, axis as int, node.inputs.len())
            &&& forall|d: int| 0 <= d < x.len() && d != axis ==> #[trigger] y[d] == x[d]
        }),
{
    lemma_concat_dims(node, ctx, concat_axis(node, ctx), node.inputs.len());
}

/// A Transpose has the dimensions of its input in the order of its node, or the
/// other way round where the node gives none.
pub proof fn law_transpose_is_built(node: NodeView, ctx: ContextView, i: int)
    requires
        builds(OpBuilder::Transpose, node, ctx),
        taken(node, ctx, 0).len() <= usize::MAX,
        0 <= i < made(OpBuilder::Transpose, node, ctx).len(),
    ensures
        ({
            let op = op_of(OpBuilder::Transpose, node, ctx);
            let (x, y) = (taken(node, ctx, 0), made(OpBuilder::Transpose, node, ctx));
            let p = node.attr_ints("perm"@);
            &&& op.params matches ParamsView::Transpose { perm }
            &&& perm.len() == y.len()
            &&& perm[i] < x.len()
            &&& y[i] == x[perm[i] as int]
            &&& p.len() > 0 ==> y.len() == p.len() && perm[i] == p[i] as usize
            &&& p.len() == 0 ==> y.len() == x.len() && y[i] == x[x.len() - 1 - i]
        }),
{
    let x = taken(node, ctx, 0);
    let perm = perm_of(node, x.len());
    assert(perm[i] < x.len());
}

/// A Resize has the images and channels of its input, and the height and width
/// that its node names as sizes, where it names them.
pub proof fn law_resize_is_built(node: NodeView, ctx: ContextView)
    requires
        builds(OpBuilder::Resize, node, ctx),
    ensures
        ({
            let op = op_of(OpBuilder::Resize, node, ctx);
            let (x, y) = (taken(node, ctx, 0), made(OpBuilder::Resize, node, ctx));
            &&& op.params matches ParamsView::Resize { out_h, out_w, mode }
            &&& mode == node.attr_string("mode"@, "nearest"@)
            &&& y == seq![x[0], x[1], out_h, out_w]
            &&& names_input(node, 3) ==> {
                let v = signed64(ctx.constant_data(node.inputs[3])->0);
                out_h == v[2] as usize && out_w == v[3] as usize
            }
        }),
{
}

proof fn lemma_part(
    ctx: ContextView,
    outputs: Seq<Seq<char>>,
    x: ShapeView,
    axis: usize,
    parts: Seq<usize>,
    n: nat,
    i: int,
)
    requires
        0 <= i < n <= outputs.len(),
        forall|a: int, b: int| 0 <= a < b < outputs.len() ==> outputs[a] != outputs[b],
    ensures
        with_parts(ctx, outputs, x, axis, parts, n).shapes[outputs[i]].dims == x.dims.update(
            axis as int,
            parts[i],
        ),
    decreases n,
{
    if i < n - 1 {
        lemma_part(ctx, outputs, x, axis, parts, (n - 1) as nat, i);
    }
}

/// Every part of a Split has the sizes of the input, but along the axis the size
/// that the op carries for it.
pub proof fn law_split_is_built(node: NodeView, ctx: ContextView, i: int)
    requires
        builds(OpBuilder::Split, node, ctx),
        0 <= i < node.outputs.len(),
        i < op_of(OpBuilder::Split, node, ctx).params->Split_split_sizes.len(),
        forall|a: int, b: int|
            0 <= a < b < node.outputs.len() ==> node.outputs[a] != node.outputs[b],
    ensures
        ({
            let op = op_of(OpBuilder::Split, node, ctx);
            let x = taken(node, ctx, 0);
            let y = built(OpBuilder::Split, node, ctx)->Ok_0.1.shapes[node.outputs[i]].dims;
            &&& op.params matches ParamsView::Split { axis, split_sizes }
            &&& axis < x.len()
            &&& y.len() == x.len()
            &&& y[axis as int] == split_sizes[i]
            &&& forall|d: int| 0 <= d < x.len() && d != axis ==> #[trigger] y[d] == x[d]
        }),
{
    let x = ctx.shapes[node.inputs[0]];
    let axis = split_axis(node, ctx);
    let parts = part_sizes(node, ctx, x.dims, axis)->Ok_0;
    let n = crate::ops::index::part_count(node.outputs.len(), parts.len());
    lemma_part(ctx, node.outputs, x, axis, parts, n, i);
}

/// What is computed number by number keeps the sizes, and each of the builders
/// makes an op of its own kind.
pub proof fn law_kinds_are_kept(b: OpBuilder, node: NodeView, ctx: ContextView)
    requires
        builds(b, node, ctx),
    ensures
        ({
            let op = op_of(b, node, ctx);
            let same = made(b, node, ctx) == taken(node, ctx, 0);
            &&& b == OpBuilder::Relu ==> op.op_type == "Relu"@ && op.params is Empty && same
            &&& b == OpBuilder::Sigmoid ==> op.params is Sigmoid && same
            &&& b == OpBuilder::Mul ==> op.params is Mul && same
            &&& b == OpBuilder::Sub ==> op.params is Sub && same
            &&& b == OpBuilder::Div ==> op.params is Div && same
            &&& b == OpBuilder::Add ==> op.params is Add
            &&& b == OpBuilder::Clip ==> op.params is Clip && same
            &&& b == OpBuilder::Softmax ==> op.params is Softmax && same
            &&& b == OpBuilder::GlobalAveragePool ==> op.params is GlobalAvgPool && made(
                b,
                node,
                ctx,
            ) == seq![taken(node, ctx, 0)[0], taken(node, ctx, 0)[1], 1usize, 1usize]
        }),
{
}

/// A MatMul is a product of its two inputs as they are.
pub proof fn law_matmul_is_built(node: NodeView, ctx: ContextView)
    requires
        builds(OpBuilder::MatMul, node, ctx),
        ctx.shapes.dom().contains(node.inputs[1]),
    ensures
        ({
            let op = op_of(OpBuilder::MatMul, node, ctx);
            let (a, b) = (taken(node, ctx, 0), taken(node, ctx, 1));
            &&& op.inputs == node.inputs
            &&& op.params matches ParamsView::Gemm { trans_a, trans_b, .. }
            &&& !trans_a && !trans_b
            &&& a.len() == 2 && b.len() == 2 && a[1] == b[0]
            &&& made(OpBuilder::MatMul, node, ctx) == seq![a[0], b[1]]
        }),
{
}

/// Whether a size comes of two that are laid over each other: they agree, or one
/// of them is 1 and the other one counts.
pub open spec fn is_laid_over(y: usize, a: usize, b: usize) -> bool {
    (a == b && y == a) || (a == 1 && y == b) || (b == 1 && y == a)
}

/// The dimensions of an Add are those of its first input where the second one
/// has the same or is a row of it; else both have as many, and each comes of two
/// that are laid over each other.
pub proof fn law_add_is_built(node: NodeView, ctx: ContextView, i: int)
    requires
        builds(OpBuilder::Add, node, ctx),
        ctx.shapes.dom().contains(node.inputs[1]),
        0 <= i < taken(node, ctx, 0).len(),
    ensures
        ({
            let (a, b) = (taken(node, ctx, 0), taken(node, ctx, 1));
            let y = made(OpBuilder::Add, node, ctx);
            &&& y.len() == a.len()
            &&& a == b || (b.len() == 1 && a.last() == b[0]) ==> y == a
            &&& a != b && !(b.len() == 1 && a.last() == b[0]) ==> a.len() == b.len()
                && is_laid_over(y[i], a[i], b[i])
        }),
{
    let (a, b) = (taken(node, ctx, 0), taken(node, ctx, 1));
    if a.len() == b.len() {
        assert(broadcast_dim(a[i], b[i]) is Some || broadcast_dims(a, b) is None);
    }
}

/// What a Reshape asks for is what it gets: every named size, the input's own
/// where it says 0.
pub proof fn law_reshape_is_built(node: NodeView, ctx: ContextView, target: Seq<i64>, i: int)
    requires
        builds(OpBuilder::Reshape, node, ctx),
        ctx.constant_data(node.inputs[1]) is Some,
        target == signed64(ctx.constant_data(node.inputs[1])->0),
        0 <= i < target.len(),
    ensures
        ({
            let x = taken(node, ctx, 0);
            let y = made(OpBuilder::Reshape, node, ctx);
            &&& y.len() == target.len()
            &&& target[i] > 0 ==> y[i] == target[i] as usize
            &&& target[i] == 0 ==> i < x.len() && y[i] == x[i]
            &&& op_of(OpBuilder::Reshape, node, ctx).params == (ParamsView::Reshape { shape: y })
        }),
{
    let x = taken(node, ctx, 0);
    lemma_scanned(target, x, target.len(), i);
}

proof fn lemma_scanned(target: Seq<i64>, input: Seq<usize>, n: nat, i: int)
    requires
        reshape_scan(target, input, n) is Ok,
        n <= target.len(),
    ensures
        ({
            let (dims, infer) = reshape_scan(target, input, n)->Ok_0;
            &&& dims.len() == n
            &&& infer matches Some(at) ==> 0 <= at < n && target[at] == -1
            &&& 0 <= i < n && target[i] > 0 ==> dims[i] == target[i] as usize
            &&& 0 <= i < n && target[i] == 0 ==> i < input.len() && dims[i] == input[i]
        }),
    decreases n,
{
    if n > 0 {
        lemma_scanned(target, input, (n - 1) as nat, i);
    }
}

/// A Flatten gathers the dimensions before its axis in one, and the others in
/// another.
pub proof fn law_flatten_is_built(node: NodeView, ctx: ContextView)
    requires
        builds(OpBuilder::Flatten, node, ctx),
    ensures
        ({
            let x = taken(node, ctx, 0);
            let y = made(OpBuilder::Flatten, node, ctx);
            let axis = node.attr_int("axis"@, 1);
            &&& y.len() == 2
            &&& numel(y) == numel(x)
            &&& axis == 0 ==> y[0] == 1
            &&& axis == 1 ==> y[0] == x[0]
            &&& axis == x.len() <= usize::MAX ==> y[1] == 1
        }),
{
    let x = taken(node, ctx, 0);
    let axis = node.attr_int("axis"@, 1) as usize;
    law_flatten_keeps_elements(x, axis);
    let (before, after) = (x.take(axis as int), x.skip(axis as int));
    assert(before.take(before.len() as int) =~= before);
    assert(after.take(after.len() as int) =~= after);
    assert(x.take(0) =~= Seq::empty());
    assert(x.skip(x.len() as int) =~= Seq::empty());
    if axis == 1 {
        let front = x.take(1);
        assert(front.drop_last() =~= Seq::empty());
        let e = numel(front.drop_last()) as int;
        assert(e * front.last() == front.last()) by (nonlinear_arith)
            requires
                e == 1,
        ;
    }
}

/// The bounds of a Clip: what its inputs hold, or its attributes, or none.
pub proof fn law_clip_is_built(node: NodeView, ctx: ContextView)
    requires
        builds(OpBuilder::Clip, node, ctx),
    ensures
        ({
            let op = op_of(OpBuilder::Clip, node, ctx);
            &&& op.inputs == seq![node.inputs[0]]
            &&& op.params matches ParamsView::Clip { min, max }
            &&& node.inputs.len() == 1 ==> min == node.attr_float("min"@, 0xff80_0000) && max
                == node.attr_float("max"@, 0x7f80_0000)
            &&& forall|i: int|
                1 <= i < node.inputs.len() && i <= 2 && ctx.initializers.dom().contains(
                    #[trigger] node.inputs[i],
                ) && node.inputs[i].len() > 0 && first_float(ctx.initializers[node.inputs[i]])
                    is Some ==> first_float(ctx.initializers[node.inputs[i]])->0 == if i == 1 {
                    min
                } else {
                    max
                }
        }),
{
}

/// A Slice has along each axis that it is asked for as many elements as there are
/// places from its start to before its end, each a step further.
pub proof fn law_slice_is_built(node: NodeView, ctx: ContextView, a: int, i: int)
    requires
        builds(OpBuilder::Slice, node, ctx),
        0 <= i,
        ({
            let p = op_of(OpBuilder::Slice, node, ctx).params;
            let axes = p->Slice_axes;
            let size = taken(node, ctx, 0)[axes[a] as int];
            let v1 = signed64(ctx.constant_data(node.inputs[1])->0);
            let v2 = signed64(ctx.constant_data(node.inputs[2])->0);
            &&& 0 <= a < axes.len()
            &&& forall|j: int| 0 <= j < axes.len() && j != a ==> #[trigger] axes[j] != axes[a]
            &&& !names_input(node, 4)
            &&& 0 <= v1[a] <= size <= i64::MAX
            &&& 0 <= v2[a] <= size
        }),
    ensures
        ({
            let axes = op_of(OpBuilder::Slice, node, ctx).params->Slice_axes;
            let y = made(OpBuilder::Slice, node, ctx);
            let v1 = signed64(ctx.constant_data(node.inputs[1])->0);
            let v2 = signed64(ctx.constant_data(node.inputs[2])->0);
            &&& y.len() == taken(node, ctx, 0).len()
            &&& axes[a] < y.len()
            &&& i < y[axes[a] as int] <==> v1[a] + i < v2[a]
        }),
{
    let x = taken(node, ctx, 0);
    let q = slice_request(node, ctx, x.len())->Ok_0;
    lemma_sliced(x, q, q.axes.len(), a);
    law_slice_counts_elements(x[q.axes[a] as int], q.starts[a], q.ends[a], q.steps[a], i);
    assert(i * 1 == i);
}

proof fn lemma_sliced(dims: Seq<usize>, q: SliceView, n: nat, a: int)
    requires
        sliced(dims, q, n) is Ok,
        n <= q.axes.len(),
        0 <= a < q.axes.len(),
        forall|j: int| 0 <= j < q.axes.len() && j != a ==> #[trigger] q.axes[j] != q.axes[a],
    ensures
        ({
            let y = sliced(dims, q, n)->Ok_0;
            &&& y.len() == dims.len()
            &&& a < n ==> {
                &&& q.axes[a] < dims.len()
                &&& a < q.starts.len()
                &&& a < q.ends.len()
                &&& a < q.steps.len()
                &&& slice_extent(dims[q.axes[a] as int], q.starts[a], q.ends[a], q.steps[a])
                    == Some(y[q.axes[a] as int])
            }
        }),
    decreases n,
{
    if n > 0 {
        lemma_sliced(dims, q, (n - 1) as nat, a);
        assert(n - 1 != a ==> q.axes[n - 1] != q.axes[a]);
    }
}

/// A Shape becomes a constant that holds the dimensions of its input.
pub proof fn law_shape_is_known(node: NodeView, ctx: ContextView, i: int)
    requires
        builds(OpBuilder::Shape, node, ctx),
        !ctx.initializers.dom().contains(node.outputs[0]),
        0 <= i < taken(node, ctx, 0).len(),
    ensures
        ({
            let after = built(OpBuilder::Shape, node, ctx)->Ok_0.1;
            let held = words64(after.constant_data(node.outputs[0])->0);
            &&& after.constant_data(node.outputs[0]) is Some
            &&& held.len() == taken(node, ctx, 0).len()
            &&& held[i] == taken(node, ctx, 0)[i]
        }),
{
    let x = taken(node, ctx, 0);
    law_words64_round_trip(x.map_values(|d: usize| d as u64));
}

proof fn lemma_word_in(data: Seq<u64>, at: int)
    requires
        0 <= at < data.len(),
    ensures
        bytes_of_words64(data).len() == 8 * data.len(),
        bytes_of_words64(data).subrange(8 * at, 8 * at + 8) == bytes_of_words64(seq![data[at]]),
{
    let part = bytes_of_words64(data).subrange(8 * at, 8 * at + 8);
    assert(part =~= bytes_of_words64(seq![data[at]]));
}

/// A Gather of one element of a list of 64-bit numbers, both known, is the
/// number at the index.
pub proof fn law_gather_is_known(node: NodeView, ctx: ContextView, data: Seq<u64>, index: u64)
    requires
        builds(OpBuilder::Gather, node, ctx),
        !ctx.initializers.dom().contains(node.outputs[0]),
        taken(node, ctx, 0) == seq![data.len() as usize],
        0 < data.len() <= usize::MAX / 8,
        index < data.len(),
        data.len() <= i64::MAX,
        ctx.constant_data(node.inputs[0]) == Some(bytes_of_words64(data)),
        ctx.constant_data(node.inputs[1]) == Some(bytes_of_words64(seq![index])),
    ensures
        ({
            let after = built(OpBuilder::Gather, node, ctx)->Ok_0.1;
            &&& after.constant_data(node.outputs[0]) is Some
            &&& words64(after.constant_data(node.outputs[0])->0) == seq![data[index as int]]
        }),
{
    let bytes = bytes_of_words64(data);
    let n = data.len() as int;
    let at = index as int;
    let one = bytes_of_words64(seq![index]);
    law_words64_round_trip(seq![index]);
    assert(words64(one)[0] == index);
    lemma_word_in(data, at);
    assert((8 * n) / n == 8) by (nonlinear_arith)
        requires
            n > 0,
    ;
    law_words64_round_trip(seq![data[at]]);
    assert(index_in(one) == Some(index as usize));
    assert(gather_folded(node, ctx) == Folded::Constant(bytes.subrange(8 * at, 8 * at + 8)));
}

proof fn lemma_one_put_in(s: Seq<usize>, at: int)
    requires
        0 <= at <= s.len(),
    ensures
        numel(s.insert(at, 1)) == numel(s),
    decreases s.len(),
{
    let t = s.insert(at, 1);
    if at == s.len() {
        assert(t.drop_last() =~= s);
        let n = numel(s) as int;
        assert(n * 1 == n);
    } else {
        assert(t.drop_last() =~= s.drop_last().insert(at, 1));
        assert(t.last() == s.last());
        lemma_one_put_in(s.drop_last(), at);
    }
}

proof fn lemma_ones(dims: Seq<usize>, axes: Seq<int>, n: nat)
    ensures
        numel(with_ones(dims, axes, n)) == numel(dims),
        dims.len() <= with_ones(dims, axes, n).len() <= dims.len() + n,
    decreases n,
{
    if n > 0 {
        lemma_ones(dims, axes, (n - 1) as nat);
        let before = with_ones(dims, axes, (n - 1) as nat);
        let at = axes[n - 1] as usize;
        if at <= before.len() {
            lemma_one_put_in(before, at as int);
        }
    }
}

/// An Unsqueeze keeps the number of elements. With one axis it puts a 1 there
/// and leaves the others in their order; an axis from the end counts from it.
pub proof fn law_unsqueeze_is_built(node: NodeView, ctx: ContextView, axes: Seq<i64>, i: int)
    requires
        builds(OpBuilder::Unsqueeze, node, ctx),
        unsqueeze_axes(node, ctx) == Ok::<Seq<i64>, ErrorView>(axes),
        taken(node, ctx, 0).len() < usize::MAX,
        0 <= i < made(OpBuilder::Unsqueeze, node, ctx).len(),
    ensures
        ({
            let x = taken(node, ctx, 0);
            let y = made(OpBuilder::Unsqueeze, node, ctx);
            let at = if axes[0] < 0 {
                axes[0] + x.len() + 1
            } else {
                axes[0] as int
            };
            &&& numel(y) == numel(x)
            &&& axes.len() == 1 && 0 <= at <= x.len() ==> {
                &&& y.len() == x.len() + 1
                &&& y[i] == if i < at {
                    x[i]
                } else if i == at {
                    1
                } else {
                    x[i - 1]
                }
            }
        }),
{
    let x = taken(node, ctx, 0);
    let all = axes_from_start(axes, x.len() + axes.len());
    let sorted = all.sort();
    lemma_ones(x, sorted, sorted.len());
    if axes.len() == 1 {
        all.lemma_sort_ensures();
        sorted.to_multiset_ensures();
        all.to_multiset_ensures();
        assert(sorted.len() == 1);
        assert(all.to_multiset().count(all[0]) > 0) by {
            assert(all.contains(all[0]));
        }
        assert(sorted.contains(all[0]));
        assert(sorted[0] == all[0]);
        reveal_with_fuel(with_ones, 2);
    }
}

/// Whether a size is the nearest to another one times a scale, but for a rounding.
pub open spec fn is_scaled_size(y: usize, x: usize, scale: u32) -> bool {
    is_finite(scale) && x < 0x100_0000 && 0 <= x * value_of(scale) <= 0x1_0000 * pow2(149)
        ==> distance(y * pow2(149), x * value_of(scale)) * 0x200_0000 <= 0x102_0000 * pow2(149)
}

/// A Resize that names scales has its input's height times the third scale and
/// its width times the fourth, to the nearest whole number.
pub proof fn law_resize_by_scales(node: NodeView, ctx: ContextView)
    requires
        builds(OpBuilder::Resize, node, ctx),
        !names_input(node, 3),
        names_input(node, 2),
    ensures
        ({
            let (x, y) = (taken(node, ctx, 0), made(OpBuilder::Resize, node, ctx));
            let scales = words32(ctx.constant_data(node.inputs[2])->0);
            &&& scales.len() >= 4
            &&& is_scaled_size(y[2], x[2], scales[2])
            &&& is_scaled_size(y[3], x[3], scales[3])
        }),
{
    let x = taken(node, ctx, 0);
    let scales = words32(ctx.constant_data(node.inputs[2])->0);
    let (a, b) = (scales[2], scales[3]);
    if is_finite(a) && x[2] < 0x100_0000 && 0 <= x[2] * value_of(a) <= 0x1_0000 * pow2(149) {
        law_scaled_size_is_nearest(x[2] as nat, a);
    }
    if is_finite(b) && x[3] < 0x100_0000 && 0 <= x[3] * value_of(b) <= 0x1_0000 * pow2(149) {
        law_scaled_size_is_nearest(x[3] as nat, b);
    }
}

/// Without strides, dilations or pads a window moves by one, lies close and has
/// none around it.
pub proof fn law_window_defaults(b: OpBuilder, node: NodeView, ctx: ContextView)
    requires
        builds(b, node, ctx),
        b == OpBuilder::Conv || b == OpBuilder::MaxPool || b == OpBuilder::AveragePool,
    ensures
        ({
            let p = op_of(b, node, ctx).params;
            let (strides, pads) = if b == OpBuilder::Conv {
                (p->Conv2d_strides, p->Conv2d_pads)
            } else {
                (pool_of(p).1, pool_of(p).2)
            };
            &&& node.attr_ints("strides"@).len() == 0 ==> strides == seq![1usize, 1]
            &&& node.attr_ints("pads"@).len() == 0 ==> pads == seq![0usize, 0, 0, 0]
            &&& b == OpBuilder::Conv && node.attr_ints("dilations"@).len() == 0
                ==> p->Conv2d_dilations == seq![1usize, 1]
        }),
{
}

/// The parts of a Split have the sizes that its second input or its attribute
/// names; where neither does, all outputs get the same, as much as goes round.
pub proof fn law_split_sizes(node: NodeView, ctx: ContextView, i: int)
    requires
        builds(OpBuilder::Split, node, ctx),
        0 <= i < op_of(OpBuilder::Split, node, ctx).params->Split_split_sizes.len(),
    ensures
        ({
            let p = op_of(OpBuilder::Split, node, ctx).params;
            let sizes = p->Split_split_sizes;
            let named = node.attr_ints("split"@);
            let held = signed64(ctx.constant_data(node.inputs[1])->0);
            let n = node.outputs.len() as int;
            let whole = taken(node, ctx, 0)[p->Split_axis as int] as int;
            &&& names_input(node, 1) ==> sizes.len() == held.len() && sizes[i] == held[i] as usize
            &&& !names_input(node, 1) && named.len() > 0 ==> sizes.len() == named.len()
                && sizes[i] == named[i] as usize
            &&& !names_input(node, 1) && named.len() == 0 ==> {
                &&& sizes.len() == n
                &&& sizes[i] * n <= whole < (sizes[i] + 1) * n
            }
        }),
{
    let p = op_of(OpBuilder::Split, node, ctx).params;
    let n = node.outputs.len() as int;
    let whole = taken(node, ctx, 0)[p->Split_axis as int] as int;
    if !names_input(node, 1) && node.attr_ints("split"@).len() == 0 {
        let q = whole / n;
        assert(q * n <= whole < (q + 1) * n && 0 <= q <= whole) by (nonlinear_arith)
            requires
                n > 0,
                whole >= 0,
                q == whole / n,
        ;
    }
}

} // verus!
