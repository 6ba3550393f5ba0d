//! What the ops of a graph compute when samples are run through it.

use vstd::prelude::*;
use vstd::string::*;
use crate::builder::{OpView, ParamsView};
use crate::graph::GraphView;
use crate::ieee::accuracy::{is_rounded, lemma_addends_finite};
use crate::ieee::sum32;
use crate::kernels::elements::{
    is_clipped, is_rectified, is_result, law_clipped, law_combined, law_rectified, law_row_bias,
};
use crate::kernels::windows::{
    column_of, entries, is_cell, is_inner_product, is_largest_under, is_mean_of, is_window,
    kernel_of, law_average_pool_is_the_mean, law_bias_is_added, law_channel_mean,
    law_convolution_is_the_inner_product, law_matrix_product_is_of_rows_and_columns,
    law_max_pool_is_the_largest, nchw, numbers_under, out_place, pooled_at, row_of,
};
use crate::kernels::{
    convolved, lemma_cell, lemma_place_of, matrix_product, overlaid, pooled, Arithmetic,
    Convolution, Pooling, Product, Windows,
};
use crate::precision::{is_finite, value_of};
use super::dispatch::{bias_of, dispatched};

verus! {

/// What is in the first output of an op once it has run.
pub open spec fn output_of(
    g: GraphView,
    bufs: Map<Seq<char>, Seq<u32>>,
    op: OpView,
    exps: Seq<u32>,
) -> Seq<u32> {
    dispatched(g, bufs, op, exps).bufs[op.outputs[0]]
}

/// Whether an op runs and writes to its output.
pub open spec fn runs(
    g: GraphView,
    bufs: Map<Seq<char>, Seq<u32>>,
    op: OpView,
    exps: Seq<u32>,
) -> bool {
    dispatched(g, bufs, op, exps).failure is None
}

/// The sizes of a tensor.
pub open spec fn dims_of(g: GraphView, name: Seq<char>) -> Seq<usize> {
    g.shapes[name].dims
}

/// The windows of a pool: those of its kernel and strides, over the image that
/// its input is, as many as its output has room for.
pub open spec fn pool_windows(g: GraphView, op: OpView, kernel: Seq<usize>, strides: Seq<usize>) -> Windows {
    let x = dims_of(g, op.inputs[0]);
    let y = dims_of(g, op.outputs[0]);
    Windows {
        images: x[0],
        channels: x[1],
        in_h: x[2],
        in_w: x[3],
        out_h: y[2],
        out_w: y[3],
        kernel_h: kernel[0],
        kernel_w: kernel[1],
        stride_h: strides[0],
        stride_w: strides[1],
    }
}

proof fn lemma_window_written(
    kind: Pooling,
    w: Windows,
    x: Seq<u32>,
    o: Seq<u32>,
    b: int,
    ch: int,
    oh: int,
    ow: int,
)
    requires
        is_window(w, b, ch, oh, ow),
        w.out_volume() <= o.len(),
    ensures
        overlaid(o, pooled(kind, w, x))[nchw(
            b,
            ch,
            oh,
            ow,
            w.channels as int,
            w.out_h as int,
            w.out_w as int,
        )] == pooled_at(kind, w, x, b, ch, oh, ow),
{
    lemma_place_of(
        b,
        ch,
        oh,
        ow,
        w.images as int,
        w.channels as int,
        w.out_h as int,
        w.out_w as int,
    );
}

/// A MaxPool puts out the largest number under each window.
pub proof fn law_max_pool_op(
    g: GraphView,
    bufs: Map<Seq<char>, Seq<u32>>,
    op: OpView,
    exps: Seq<u32>,
    b: int,
    ch: int,
    oh: int,
    ow: int,
)
    requires
        runs(g, bufs, op, exps),
        op.params is MaxPool,
        is_window(
            pool_windows(g, op, op.params->MaxPool_kernel_shape, op.params->MaxPool_strides),
            b,
            ch,
            oh,
            ow,
        ),
    ensures
        ({
            let w = pool_windows(
                g,
                op,
                op.params->MaxPool_kernel_shape,
                op.params->MaxPool_strides,
            );
            let at = nchw(b, ch, oh, ow, w.channels as int, w.out_h as int, w.out_w as int);
            is_largest_under(
                output_of(g, bufs, op, exps)[at],
                w,
                bufs[op.inputs[0]],
                b,
                ch,
                oh,
                ow,
            )
        }),
{
    let w = pool_windows(g, op, op.params->MaxPool_kernel_shape, op.params->MaxPool_strides);
    let x = bufs[op.inputs[0]];
    let o = bufs[op.outputs[0]];
    lemma_window_written(Pooling::Max, w, x, o, b, ch, oh, ow);
    law_max_pool_is_the_largest(w, x, b, ch, oh, ow);
}

/// An AveragePool puts out the mean of the numbers under each window.
pub proof fn law_average_pool_op(
    g: GraphView,
    bufs: Map<Seq<char>, Seq<u32>>,
    op: OpView,
    exps: Seq<u32>,
    b: int,
    ch: int,
    oh: int,
    ow: int,
)
    requires
        runs(g, bufs, op, exps),
        op.params is AvgPool,
        ({
            let w = pool_windows(
                g,
                op,
                op.params->AvgPool_kernel_shape,
                op.params->AvgPool_strides,
            );
            let at = nchw(b, ch, oh, ow, w.channels as int, w.out_h as int, w.out_w as int);
            &&& is_window(w, b, ch, oh, ow)
            &&& 0 < w.kernel_h * w.kernel_w <= 0x10_0000
            &&& is_finite(output_of(g, bufs, op, exps)[at])
        }),
    ensures
        ({
            let w = pool_windows(
                g,
                op,
                op.params->AvgPool_kernel_shape,
                op.params->AvgPool_strides,
            );
            let at = nchw(b, ch, oh, ow, w.channels as int, w.out_h as int, w.out_w as int);
            is_mean_of(
                output_of(g, bufs, op, exps)[at],
                (w.kernel_h * w.kernel_w) as int,
                entries(w, bufs[op.inputs[0]], b, ch, oh, ow),
            )
        }),
{
    let w = pool_windows(g, op, op.params->AvgPool_kernel_shape, op.params->AvgPool_strides);
    let x = bufs[op.inputs[0]];
    let o = bufs[op.outputs[0]];
    lemma_window_written(Pooling::Average, w, x, o, b, ch, oh, ow);
    law_average_pool_is_the_mean(w, x, b, ch, oh, ow);
}

/// A GlobalAveragePool puts out the mean of each channel of each image.
pub proof fn law_global_pool_op(
    g: GraphView,
    bufs: Map<Seq<char>, Seq<u32>>,
    op: OpView,
    exps: Seq<u32>,
    b: int,
    ch: int,
)
    requires
        runs(g, bufs, op, exps),
        op.params is GlobalAvgPool,
        ({
            let d = dims_of(g, op.inputs[0]);
            &&& 0 <= b < d[0]
            &&& 0 <= ch < d[1]
            &&& 0 < d[2] * d[3] <= 0x10_0000
            &&& is_finite(output_of(g, bufs, op, exps)[b * d[1] + ch])
        }),
    ensures
        ({
            let d = dims_of(g, op.inputs[0]);
            let per = d[2] * d[3];
            let at = b * d[1] + ch;
            is_mean_of(
                output_of(g, bufs, op, exps)[at],
                per,
                bufs[op.inputs[0]].subrange(at * per, at * per + per),
            )
        }),
{
    let d = dims_of(g, op.inputs[0]);
    let at = b * d[1] + ch;
    lemma_cell(b, d[0] as int, ch, d[1] as int);
    law_channel_mean(
        bufs[op.inputs[0]],
        (d[0] * d[1]) as nat,
        (d[2] * d[3]) as nat,
        at,
    );
}

// ---------------------------------------------------------------------------
// Convolutions and products
// ---------------------------------------------------------------------------

/// The convolution that an op with the given kernel asks for.
pub open spec fn convolution_of(
    g: GraphView,
    op: OpView,
    kernel: Seq<usize>,
    strides: Seq<usize>,
    pads: Seq<usize>,
    group: usize,
) -> Convolution {
    let x = dims_of(g, op.inputs[0]);
    let w = dims_of(g, op.inputs[1]);
    let y = dims_of(g, op.outputs[0]);
    Convolution {
        images: x[0],
        c_in: x[1],
        in_h: x[2],
        in_w: x[3],
        c_out: w[0],
        out_h: y[2],
        out_w: y[3],
        kernel_h: kernel[0],
        kernel_w: kernel[1],
        stride_h: strides[0],
        stride_w: strides[1],
        pad_h: pads[0],
        pad_w: pads[1],
        group,
    }
}

/// Whether `y` is `s`, or with a bias the sum of `s` and its entry `j`.
pub open spec fn is_biased(y: u32, s: u32, bias: Seq<u32>, j: int) -> bool {
    if bias.len() == 0 {
        y == s
    } else {
        is_rounded(value_of(y), value_of(s) + value_of(bias[j]), 1, 24)
    }
}

/// Whether `y` is a number of a convolution: the numbers under the kernel times
/// the kernel of the output channel, added up, and the bias of the channel.
pub open spec fn is_convolved(
    y: u32,
    cv: Convolution,
    x: Seq<u32>,
    w: Seq<u32>,
    bias: Seq<u32>,
    b: int,
    oc: int,
    oh: int,
    ow: int,
) -> bool {
    exists|s: u32| #[trigger]
        is_inner_product(s, numbers_under(cv, x, b, oc, oh, ow), kernel_of(cv, w, oc)) && is_biased(
            y,
            s,
            bias,
            oc,
        )
}

/// Whether a cell of a convolution is written.
pub open spec fn is_written(
    g: GraphView,
    bufs: Map<Seq<char>, Seq<u32>>,
    op: OpView,
    cv: Convolution,
    b: int,
    oc: int,
    oh: int,
    ow: int,
) -> bool {
    &&& is_cell(cv, b, oc, oh, ow)
    &&& 0 <= out_place(cv, b, oc, oh, ow) < cv.written(false)
    &&& out_place(cv, b, oc, oh, ow) < cv.written(bias_of(bufs, op).len() > 0)
    &&& cv.taps() <= 0x10_0000
}

proof fn lemma_convolved(
    cv: Convolution,
    x: Seq<u32>,
    w: Seq<u32>,
    bias: Seq<u32>,
    there: Seq<u32>,
    b: int,
    oc: int,
    oh: int,
    ow: int,
)
    requires
        is_cell(cv, b, oc, oh, ow),
        0 <= out_place(cv, b, oc, oh, ow) < cv.written(false),
        out_place(cv, b, oc, oh, ow) < cv.written(bias.len() > 0),
        cv.taps() <= 0x10_0000,
        is_finite(convolved(cv, x, w, bias, there)[out_place(cv, b, oc, oh, ow)]),
    ensures
        is_convolved(
            convolved(cv, x, w, bias, there)[out_place(cv, b, oc, oh, ow)],
            cv,
            x,
            w,
            bias,
            b,
            oc,
            oh,
            ow,
        ),
{
    let o = out_place(cv, b, oc, oh, ow);
    let none = Seq::<u32>::empty();
    let s = convolved(cv, x, w, none, there)[o];
    if bias.len() > 0 {
        law_bias_is_added(cv, x, w, bias, there, b, oc, oh, ow);
        crate::kernels::windows::lemma_unbiased_finite(cv, x, w, bias, there, b, oc, oh, ow);
    } else {
        assert(bias =~= none);
    }
    law_convolution_is_the_inner_product(cv, x, w, there, b, oc, oh, ow);
    assert(is_inner_product(s, numbers_under(cv, x, b, oc, oh, ow), kernel_of(cv, w, oc)));
}

/// A convolution puts out, for each output channel and place, the numbers under
/// its kernel times the kernel, added up, with the bias of the channel.
pub proof fn law_convolution_op(
    g: GraphView,
    bufs: Map<Seq<char>, Seq<u32>>,
    op: OpView,
    exps: Seq<u32>,
    b: int,
    oc: int,
    oh: int,
    ow: int,
)
    requires
        runs(g, bufs, op, exps),
        op.params is Conv2d,
        ({
            let cv = convolution_of(
                g,
                op,
                op.params->Conv2d_kernel_shape,
                op.params->Conv2d_strides,
                op.params->Conv2d_pads,
                op.params->Conv2d_group,
            );
            &&& is_written(g, bufs, op, cv, b, oc, oh, ow)
            &&& is_finite(output_of(g, bufs, op, exps)[out_place(cv, b, oc, oh, ow)])
        }),
    ensures
        ({
            let cv = convolution_of(
                g,
                op,
                op.params->Conv2d_kernel_shape,
                op.params->Conv2d_strides,
                op.params->Conv2d_pads,
                op.params->Conv2d_group,
            );
            is_convolved(
                output_of(g, bufs, op, exps)[out_place(cv, b, oc, oh, ow)],
                cv,
                bufs[op.inputs[0]],
                bufs[op.inputs[1]],
                bias_of(bufs, op),
                b,
                oc,
                oh,
                ow,
            )
        }),
{
    let cv = convolution_of(
        g,
        op,
        op.params->Conv2d_kernel_shape,
        op.params->Conv2d_strides,
        op.params->Conv2d_pads,
        op.params->Conv2d_group,
    );
    lemma_convolved(
        cv,
        bufs[op.inputs[0]],
        bufs[op.inputs[1]],
        bias_of(bufs, op),
        bufs[op.outputs[0]],
        b,
        oc,
        oh,
        ow,
    );
}

/// A convolution fused with a Relu puts out what the convolution would, and zero
/// where that is negative.
pub proof fn law_fused_convolution_op(
    g: GraphView,
    bufs: Map<Seq<char>, Seq<u32>>,
    op: OpView,
    plain: OpView,
    exps: Seq<u32>,
    i: int,
)
    requires
        runs(g, bufs, op, exps),
        op.params is Conv2dRelu,
        plain == (OpView {
            params: ParamsView::Conv2d {
                kernel_shape: op.params->Conv2dRelu_kernel_shape,
                strides: op.params->Conv2dRelu_strides,
                pads: op.params->Conv2dRelu_pads,
                dilations: op.params->Conv2dRelu_dilations,
                group: op.params->Conv2dRelu_group,
            },
            ..op
        }),
        0 <= i < output_of(g, bufs, op, exps).len(),
    ensures
        runs(g, bufs, plain, exps),
        output_of(g, bufs, plain, exps).len() == output_of(g, bufs, op, exps).len(),
        is_rectified(output_of(g, bufs, op, exps)[i], output_of(g, bufs, plain, exps)[i]),
{
    law_rectified(output_of(g, bufs, plain, exps), i);
}

/// Whether an op multiplies two matrices, and which of them it reads transposed.
pub open spec fn product_of(g: GraphView, op: OpView) -> Option<Product> {
    let a = dims_of(g, op.inputs[0]);
    let b = dims_of(g, op.inputs[1]);
    match op.params {
        ParamsView::Gemm { trans_a, trans_b, .. } => Some(
            Product {
                m: a[if trans_a { 1int } else { 0 }] as int,
                n: b[if trans_b { 0int } else { 1 }] as int,
                k: a[if trans_a { 0int } else { 1 }] as int,
                trans_a,
                trans_b,
            },
        ),
        ParamsView::Empty => if op.op_type == "MatMul"@ {
            Some(
                Product {
                    m: a[0] as int,
                    n: b[1] as int,
                    k: a[1] as int,
                    trans_a: false,
                    trans_b: false,
                },
            )
        } else {
            None
        },
        _ => None,
    }
}

/// A Gemm or MatMul puts out rows times columns, with the bias of the column.
pub proof fn law_product_op(
    g: GraphView,
    bufs: Map<Seq<char>, Seq<u32>>,
    op: OpView,
    exps: Seq<u32>,
    i: int,
    j: int,
)
    requires
        runs(g, bufs, op, exps),
        product_of(g, op) is Some,
        0 <= i < product_of(g, op)->0.m,
        0 <= j < product_of(g, op)->0.n,
        product_of(g, op)->0.k <= 0x10_0000,
        bias_of(bufs, op).len() == 0 || bias_of(bufs, op).len() >= product_of(g, op)->0.n,
        is_finite(output_of(g, bufs, op, exps)[i * product_of(g, op)->0.n + j]),
    ensures
        ({
            let p = product_of(g, op)->0;
            let y = output_of(g, bufs, op, exps)[i * p.n + j];
            exists|s: u32| #[trigger]
                is_inner_product(
                    s,
                    row_of(p, bufs[op.inputs[0]], i),
                    column_of(p, bufs[op.inputs[1]], j),
                ) && is_biased(y, s, bias_of(bufs, op), j)
        }),
{
    reveal_strlit("Relu");
    reveal_strlit("Flatten");
    reveal_strlit("Reshape");
    reveal_strlit("MatMul");
    assert("MatMul"@.len() == 6 && "Relu"@.len() == 4 && "Flatten"@.len() == 7);
    assert("Reshape"@.len() == 7);
    let p = product_of(g, op)->0;
    let (a, b) = (bufs[op.inputs[0]], bufs[op.inputs[1]]);
    let bias = bias_of(bufs, op);
    let c = matrix_product(p, a, b);
    let at = i * p.n + j;
    lemma_cell(i, p.m, j, p.n);
    let s = c[at];
    let y = output_of(g, bufs, op, exps)[at];
    if bias.len() > 0 {
        vstd::arithmetic::div_mod::lemma_fundamental_div_mod_converse(at, p.n, i, j);
        vstd::arithmetic::div_mod::lemma_small_mod(j as nat, bias.len());
        assert(y == sum32(s, bias[j]));
        lemma_addends_finite(s, bias[j]);
        law_row_bias(c, p.n, bias, i, j);
    }
    law_matrix_product_is_of_rows_and_columns(p, a, b, i, j);
    assert(is_inner_product(s, row_of(p, a, i), column_of(p, b, j)));
}

// ---------------------------------------------------------------------------
// Element by element
// ---------------------------------------------------------------------------

/// A Relu puts out each number, or zero where it is negative.
pub proof fn law_relu_op(
    g: GraphView,
    bufs: Map<Seq<char>, Seq<u32>>,
    op: OpView,
    exps: Seq<u32>,
    i: int,
)
    requires
        runs(g, bufs, op, exps),
        op.op_type == "Relu"@,
        op.params is Empty,
        0 <= i < bufs[op.inputs[0]].len(),
        i < bufs[op.outputs[0]].len(),
    ensures
        is_rectified(output_of(g, bufs, op, exps)[i], bufs[op.inputs[0]][i]),
{
    law_rectified(bufs[op.inputs[0]], i);
}

/// A Clip puts out each number kept within the bounds.
pub proof fn law_clip_op(
    g: GraphView,
    bufs: Map<Seq<char>, Seq<u32>>,
    op: OpView,
    exps: Seq<u32>,
    i: int,
)
    requires
        runs(g, bufs, op, exps),
        op.params is Clip,
        0 <= i < bufs[op.inputs[0]].len(),
        i < bufs[op.outputs[0]].len(),
    ensures
        is_clipped(
            output_of(g, bufs, op, exps)[i],
            bufs[op.inputs[0]][i],
            op.params->Clip_min,
            op.params->Clip_max,
        ),
{
    law_clipped(bufs[op.inputs[0]], op.params->Clip_min, op.params->Clip_max, i);
}

/// Add, Sub, Mul and Div combine the numbers of the two inputs place by place;
/// a second input with fewer numbers is repeated.
pub proof fn law_arithmetic_op(
    g: GraphView,
    bufs: Map<Seq<char>, Seq<u32>>,
    op: OpView,
    exps: Seq<u32>,
    i: int,
)
    requires
        runs(g, bufs, op, exps),
        0 <= i < bufs[op.inputs[0]].len(),
        i < bufs[op.outputs[0]].len(),
    ensures
        ({
            let y = output_of(g, bufs, op, exps)[i];
            let (a, b) = (bufs[op.inputs[0]], bufs[op.inputs[1]]);
            let x = b[i % b.len() as int];
            &&& op.params is Add ==> is_result(Arithmetic::Sum, y, a[i], x)
            &&& op.params is Sub ==> is_result(Arithmetic::Difference, y, a[i], x)
            &&& op.params is Mul ==> is_result(Arithmetic::Product, y, a[i], x)
            &&& op.params is Div ==> is_result(Arithmetic::Quotient, y, a[i], x)
        }),
{
    let (a, b) = (bufs[op.inputs[0]], bufs[op.inputs[1]]);
    if op.params is Add || op.params is Sub || op.params is Mul || op.params is Div {
        law_combined(Arithmetic::Sum, a, b, i);
        law_combined(Arithmetic::Difference, a, b, i);
        law_combined(Arithmetic::Product, a, b, i);
        law_combined(Arithmetic::Quotient, a, b, i);
    }
}

/// A Reshape or Flatten keeps the numbers and their order.
pub proof fn law_reshape_op(
    g: GraphView,
    bufs: Map<Seq<char>, Seq<u32>>,
    op: OpView,
    exps: Seq<u32>,
    i: int,
)
    requires
        runs(g, bufs, op, exps),
        op.params is Reshape || (op.params is Empty && op.op_type == "Flatten"@),
        0 <= i < bufs[op.inputs[0]].len(),
        i < bufs[op.outputs[0]].len(),
    ensures
        output_of(g, bufs, op, exps)[i] == bufs[op.inputs[0]][i],
{
    reveal_strlit("Relu");
    reveal_strlit("Flatten");
    assert("Relu"@.len() == 4 && "Flatten"@.len() == 7);
}

/// No op writes to a tensor that is not one of its outputs.
pub proof fn law_other_tensors_stay(
    g: GraphView,
    bufs: Map<Seq<char>, Seq<u32>>,
    op: OpView,
    exps: Seq<u32>,
    name: Seq<char>,
)
    requires
        !op.outputs.contains(name),
        op.outputs.len() > 0,
    ensures
        dispatched(g, bufs, op, exps).bufs.dom().contains(name) == bufs.dom().contains(name),
        dispatched(g, bufs, op, exps).bufs[name] == bufs[name],
{
    assert(op.outputs.contains(op.outputs[0]));
    match op.params {
        ParamsView::Split { axis, split_sizes } => {
            if op.inputs.len() >= 1 && bufs.dom().contains(op.inputs[0]) && axis == 0 {
                lemma_split_keeps(
                    bufs,
                    op.outputs,
                    bufs[op.inputs[0]],
                    split_sizes,
                    split_sizes.len(),
                    name,
                );
            }
        },
        _ => {},
    }
}

proof fn lemma_split_keeps(
    bufs: Map<Seq<char>, Seq<u32>>,
    names: Seq<Seq<char>>,
    x: Seq<u32>,
    sizes: Seq<usize>,
    n: nat,
    name: Seq<char>,
)
    requires
        !names.contains(name),
    ensures
        ({
            let r = super::dispatch::split_into(bufs, names, x, sizes, n).0.bufs;
            r.dom().contains(name) == bufs.dom().contains(name) && r[name] == bufs[name]
        }),
    decreases n,
{
    if n > 0 {
        lemma_split_keeps(bufs, names, x, sizes, (n - 1) as nat, name);
        if n <= names.len() {
            assert(names.contains(names[n - 1]));
        }
    }
}

} // verus!
