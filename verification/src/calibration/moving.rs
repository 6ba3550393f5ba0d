//! Where the numbers of a tensor go when an op moves them, and what the ops with
//! exponentials compute.

use vstd::prelude::*;
use vstd::string::*;
use crate::builder::OpView;
use crate::graph::GraphView;
use crate::ieee::accuracy::is_rounded;
use crate::ieee::sums::are_sums;
use crate::kernels::elements::{
    is_result, is_row_largest, law_combined, law_sigmoid_arguments, law_softmax_arguments,
    law_softmax_is_normalized,
};
use crate::kernels::places::{
    counted, is_under, law_row_is_under, law_transposed, lies_in, reached,
};
use crate::kernels::windows::{lemma_cell_of_place, nchw};
use crate::kernels::{
    lemma_place_of, overlaid, place_of, reordered, resized, scaled_index, sigmoids, stepped,
    Arithmetic, Windows,
};
use crate::precision::{is_finite, value_of};
use crate::tensor::numel;
use super::dispatch::{dispatched, joined_buffers, op_arguments, softmax_parts, split_into};
use super::meaning::{dims_of, output_of, runs};

verus! {

// ---------------------------------------------------------------------------
// Concat, Split and Slice
// ---------------------------------------------------------------------------

/// The numbers in the first `n` of some buffers.
pub open spec fn length_before(bufs: Map<Seq<char>, Seq<u32>>, names: Seq<Seq<char>>, n: nat) -> nat
    decreases n,
{
    if n == 0 {
        0
    } else {
        length_before(bufs, names, (n - 1) as nat) + bufs[names[n - 1]].len()
    }
}

proof fn lemma_joined(
    bufs: Map<Seq<char>, Seq<u32>>,
    names: Seq<Seq<char>>,
    n: nat,
    j: int,
    k: int,
)
    requires
        joined_buffers(bufs, names, n) is Ok,
        0 <= j < n,
        0 <= k < bufs[names[j]].len(),
    ensures
        joined_buffers(bufs, names, n)->Ok_0.len() == length_before(bufs, names, n),
        length_before(bufs, names, j as nat) + k < length_before(bufs, names, n),
        joined_buffers(bufs, names, n)->Ok_0[length_before(bufs, names, j as nat) + k]
            == bufs[names[j]][k],
    decreases n,
{
    lemma_joined_length(bufs, names, (n - 1) as nat);
    if j < n - 1 {
        lemma_joined(bufs, names, (n - 1) as nat, j, k);
    }
}

proof fn lemma_joined_length(bufs: Map<Seq<char>, Seq<u32>>, names: Seq<Seq<char>>, n: nat)
    requires
        joined_buffers(bufs, names, n) is Ok,
    ensures
        joined_buffers(bufs, names, n)->Ok_0.len() == length_before(bufs, names, n),
    decreases n,
{
    if n > 0 {
        lemma_joined_length(bufs, names, (n - 1) as nat);
    }
}

/// A Concat puts its inputs one after the other, each number of them in its place.
pub proof fn law_concat_op(
    g: GraphView,
    bufs: Map<Seq<char>, Seq<u32>>,
    op: OpView,
    exps: Seq<u32>,
    j: int,
    k: int,
)
    requires
        runs(g, bufs, op, exps),
        op.params is Concat,
        0 <= j < op.inputs.len(),
        0 <= k < bufs[op.inputs[j]].len(),
        length_before(bufs, op.inputs, j as nat) + k < bufs[op.outputs[0]].len(),
    ensures
        output_of(g, bufs, op, exps)[length_before(bufs, op.inputs, j as nat) + k]
            == bufs[op.inputs[j]][k],
{
    lemma_joined(bufs, op.inputs, op.inputs.len(), j, k);
}

/// The sum of the first `n` sizes.
pub open spec fn sizes_before(sizes: Seq<usize>, n: nat) -> nat
    decreases n,
{
    if n == 0 {
        0
    } else {
        sizes_before(sizes, (n - 1) as nat) + sizes[n - 1] as nat
    }
}

proof fn lemma_split(
    bufs: Map<Seq<char>, Seq<u32>>,
    names: Seq<Seq<char>>,
    x: Seq<u32>,
    sizes: Seq<usize>,
    n: nat,
    j: int,
)
    requires
        n <= sizes.len(),
        n <= names.len(),
        split_into(bufs, names, x, sizes, n).0.failure is None,
        forall|a: int, b: int| 0 <= a < b < names.len() ==> names[a] != names[b],
        0 <= j < names.len(),
    ensures
        ({
            let new = split_into(bufs, names, x, sizes, n).0.bufs;
            let at = sizes_before(sizes, j as nat);
            &&& split_into(bufs, names, x, sizes, n).1 == sizes_before(sizes, n)
            &&& new[names[j]].len() == bufs[names[j]].len()
            &&& j >= n ==> new[names[j]] == bufs[names[j]]
            &&& forall|k: int|
                j < n && 0 <= k < sizes[j] && at + k < x.len() && k < bufs[names[j]].len()
                    ==> #[trigger] new[names[j]][k] == x[at + k]
        }),
    decreases n,
{
    if n > 0 {
        lemma_split(bufs, names, x, sizes, (n - 1) as nat, j);
    }
}

/// A Split along the first axis gives each output the numbers of its own part of
/// the input.
pub proof fn law_split_op(
    g: GraphView,
    bufs: Map<Seq<char>, Seq<u32>>,
    op: OpView,
    exps: Seq<u32>,
    j: int,
    k: int,
)
    requires
        runs(g, bufs, op, exps),
        op.params is Split,
        op.params->Split_axis == 0,
        op.params->Split_split_sizes.len() <= op.outputs.len(),
        forall|a: int, b: int| 0 <= a < b < op.outputs.len() ==> op.outputs[a] != op.outputs[b],
        0 <= j < op.params->Split_split_sizes.len(),
        0 <= k < op.params->Split_split_sizes[j],
        k < bufs[op.outputs[j]].len(),
        sizes_before(op.params->Split_split_sizes, j as nat) + k < bufs[op.inputs[0]].len(),
    ensures
        dispatched(g, bufs, op, exps).bufs[op.outputs[j]][k] == bufs[op.inputs[0]][sizes_before(
            op.params->Split_split_sizes,
            j as nat,
        ) + k],
{
    let sizes = op.params->Split_split_sizes;
    lemma_split(bufs, op.outputs, bufs[op.inputs[0]], sizes, sizes.len(), j);
}

proof fn lemma_stepped(v: Seq<u32>, start: int, end: int, step: int, limit: nat, k: int)
    requires
        0 <= k < limit,
        0 < step,
        0 <= start,
    ensures
        start + k * step < end <==> k < stepped(v, start, end, step, limit).len(),
        start + k * step < end ==> stepped(v, start, end, step, limit)[k] == v[start + k * step],
{
    let room = end - start;
    let all = (room + step - 1) / step;
    if start < end {
        assert(k < all <==> k * step < room) by (nonlinear_arith)
            requires
                all == (room + step - 1) / step,
                step > 0,
                room > 0,
                k >= 0,
        ;
    } else {
        assert(k * step >= 0) by (nonlinear_arith)
            requires
                k >= 0,
                step > 0,
        ;
    }
}

/// A Slice along the first axis puts out every `step`th number from the start to
/// before the end, and leaves the rest of the output.
pub proof fn law_slice_op(
    g: GraphView,
    bufs: Map<Seq<char>, Seq<u32>>,
    op: OpView,
    exps: Seq<u32>,
    start: int,
    step: int,
    k: int,
)
    requires
        runs(g, bufs, op, exps),
        op.params is Slice,
        op.params->Slice_axes == seq![0usize],
        start == op.params->Slice_starts[0] >= 0,
        step == op.params->Slice_steps[0] >= 1,
        op.params->Slice_ends[0] >= 0,
        0 <= k < bufs[op.outputs[0]].len(),
    ensures
        ({
            let (x, o) = (bufs[op.inputs[0]], bufs[op.outputs[0]]);
            let y = output_of(g, bufs, op, exps);
            let at = start + k * step;
            &&& y.len() == o.len()
            &&& at < op.params->Slice_ends[0] && at < x.len() ==> y[k] == x[at]
            &&& at >= op.params->Slice_ends[0] || at >= x.len() ==> y[k] == o[k]
        }),
{
    let (x, o) = (bufs[op.inputs[0]], bufs[op.outputs[0]]);
    let e = op.params->Slice_ends[0];
    let end = if e < x.len() {
        e as int
    } else {
        x.len() as int
    };
    assert(op.params->Slice_axes.len() == 1 && op.params->Slice_axes[0] == 0);
    lemma_stepped(x, start, end, step, o.len(), k);
}

// ---------------------------------------------------------------------------
// Resize and Transpose
// ---------------------------------------------------------------------------

/// A Resize puts out, for each place of the new image, the number of the same
/// image and channel that lies under it: under the middle of the place where the
/// mode is the nearest, under its start otherwise.
pub proof fn law_resize_op(
    g: GraphView,
    bufs: Map<Seq<char>, Seq<u32>>,
    op: OpView,
    exps: Seq<u32>,
    b: int,
    ch: int,
    oh: int,
    ow: int,
)
    requires
        runs(g, bufs, op, exps),
        op.params is Resize,
        0 < op.params->Resize_out_h <= 0x1000,
        0 < op.params->Resize_out_w <= 0x1000,
        0 < dims_of(g, op.inputs[0])[2] <= 0x1000,
        0 < dims_of(g, op.inputs[0])[3] <= 0x1000,
        0 <= b < dims_of(g, op.inputs[0])[0],
        0 <= ch < dims_of(g, op.inputs[0])[1],
        0 <= oh < op.params->Resize_out_h,
        0 <= ow < op.params->Resize_out_w,
    ensures
        ({
            let d = dims_of(g, op.inputs[0]);
            let (h, w) = (op.params->Resize_out_h as int, op.params->Resize_out_w as int);
            let half = if op.params->Resize_mode == "nearest"@ {
                1int
            } else {
                0
            };
            exists|ih: int, iw: int|
                #![trigger nchw(b, ch, ih, iw, d[1] as int, d[2] as int, d[3] as int)]
                {
                    &&& is_under(ih, d[2] as int, 2 * oh + half, h)
                    &&& is_under(iw, d[3] as int, 2 * ow + half, w)
                    &&& output_of(g, bufs, op, exps)[nchw(b, ch, oh, ow, d[1] as int, h, w)]
                        == bufs[op.inputs[0]][nchw(
                        b,
                        ch,
                        ih,
                        iw,
                        d[1] as int,
                        d[2] as int,
                        d[3] as int,
                    )]
                }
        }),
{
    let d = dims_of(g, op.inputs[0]);
    let (h, w) = (op.params->Resize_out_h as int, op.params->Resize_out_w as int);
    let middle = op.params->Resize_mode == "nearest"@;
    let ih = scaled_index(oh as nat, d[2] as nat, h as nat, middle) as int;
    let iw = scaled_index(ow as nat, d[3] as nat, w as nat, middle) as int;
    law_row_is_under(oh as nat, d[2] as nat, h as nat, middle);
    law_row_is_under(ow as nat, d[3] as nat, w as nat, middle);
    lemma_place_of(b, ch, oh, ow, d[0] as int, d[1] as int, h, w);
    lemma_cell_of_place(b, ch, oh, ow, d[1] as int, h, w);
    let half = if middle {
        1int
    } else {
        0
    };
    assert(is_under(ih, d[2] as int, 2 * oh + half, h));
    assert(is_under(iw, d[3] as int, 2 * ow + half, w));
    let o = nchw(b, ch, oh, ow, d[1] as int, h, w);
    assert(o == place_of(b, ch, oh, ow, d[1] as int, h, w));
    let windows = Windows {
        images: d[0],
        channels: d[1],
        in_h: d[2],
        in_w: d[3],
        out_h: op.params->Resize_out_h,
        out_w: op.params->Resize_out_w,
        kernel_h: 1,
        kernel_w: 1,
        stride_h: 1,
        stride_w: 1,
    };
    assert(output_of(g, bufs, op, exps) == overlaid(
        bufs[op.outputs[0]],
        resized(windows, bufs[op.inputs[0]], middle),
    ));
    assert(o < windows.out_volume());
    assert(nchw(b, ch, ih, iw, d[1] as int, d[2] as int, d[3] as int) == place_of(
        b,
        ch,
        ih,
        iw,
        d[1] as int,
        d[2] as int,
        d[3] as int,
    ));
}

/// A Transpose puts out at each index the number where the same steps lead in
/// the input, each along the dimension that the order names for it.
pub proof fn law_transpose_op(
    g: GraphView,
    bufs: Map<Seq<char>, Seq<u32>>,
    op: OpView,
    exps: Seq<u32>,
    i: Seq<int>,
)
    requires
        runs(g, bufs, op, exps),
        op.params is Transpose,
        op.params->Transpose_perm.len() == dims_of(g, op.inputs[0]).len(),
        lies_in(i, reordered(dims_of(g, op.inputs[0]), op.params->Transpose_perm)),
        counted(
            i,
            reordered(dims_of(g, op.inputs[0]), op.params->Transpose_perm),
            i.len(),
        ) < numel(dims_of(g, op.inputs[0])),
    ensures
        ({
            let d = dims_of(g, op.inputs[0]);
            let perm = op.params->Transpose_perm;
            &&& forall|k: int|
                0 <= k < perm.len() ==> #[trigger] reordered(d, perm)[k] == d[perm[k] as int]
            &&& output_of(g, bufs, op, exps)[counted(i, reordered(d, perm), i.len())]
                == bufs[op.inputs[0]][reached(i, d, perm, 0)]
        }),
{
    let d = dims_of(g, op.inputs[0]);
    law_transposed(bufs[op.inputs[0]], d, op.params->Transpose_perm, numel(d), i);
}

// ---------------------------------------------------------------------------
// Exponentials
// ---------------------------------------------------------------------------

/// The exponentials of a Softmax are of the numbers of its input, each less the
/// largest of its row; the rows are along the last dimension.
pub proof fn law_softmax_op_arguments(
    g: GraphView,
    bufs: Map<Seq<char>, Seq<u32>>,
    op: OpView,
    rows: nat,
    n: nat,
    row: int,
    j: int,
)
    requires
        op.params is Softmax,
        softmax_parts(g, bufs, op) is Ok,
        dims_of(g, op.inputs[0]).len() > 0,
        n == dims_of(g, op.inputs[0]).last(),
        op_arguments(g, bufs, op).len() == rows * n,
        0 <= row < rows,
        0 <= j < n,
    ensures
        exists|m: u32|
            #![trigger is_row_largest(m, bufs[op.inputs[0]], row, n as int)]
            is_row_largest(m, bufs[op.inputs[0]], row, n as int) && (is_finite(m) && is_finite(
                bufs[op.inputs[0]][row * n + j],
            ) && is_finite(op_arguments(g, bufs, op)[row * n + j]) ==> is_rounded(
                value_of(op_arguments(g, bufs, op)[row * n + j]),
                value_of(bufs[op.inputs[0]][row * n + j]) - value_of(m),
                1,
                24,
            )),
{
    let (x, o, r, m) = softmax_parts(g, bufs, op)->Ok_0;
    assert(m == n);
    assert(r == rows) by (nonlinear_arith)
        requires
            r * n == rows * n,
            n > 0,
    ;
    law_softmax_arguments(x, rows, n, row, j);
}

/// A Softmax puts out each exponential over the sum of those of its row.
pub proof fn law_softmax_op(
    g: GraphView,
    bufs: Map<Seq<char>, Seq<u32>>,
    op: OpView,
    exps: Seq<u32>,
    rows: nat,
    n: nat,
    row: int,
    j: int,
)
    requires
        runs(g, bufs, op, exps),
        op.params is Softmax,
        dims_of(g, op.inputs[0]).len() > 0,
        n == dims_of(g, op.inputs[0]).last(),
        exps.len() == rows * n,
        0 <= row < rows,
        0 <= j < n,
    ensures
        exists|s: Seq<u32>|
            #![trigger are_sums(s, exps.subrange(row * n, row * n + n))]
            are_sums(s, exps.subrange(row * n, row * n + n)) && s[0] == 0 && is_result(
                Arithmetic::Quotient,
                output_of(g, bufs, op, exps)[row * n + j],
                exps[row * n + j],
                s.last(),
            ),
{
    law_softmax_is_normalized(exps, rows, n, row, j);
    crate::kernels::lemma_cell(row, rows as int, j, n as int);
    let (x, o, r, m) = softmax_parts(g, bufs, op)->Ok_0;
    assert(m == n);
    assert(r * n == rows * n);
}

/// The exponentials of a Sigmoid or SiLU are of the numbers of its input with the
/// other sign.
pub proof fn law_sigmoid_op_arguments(
    g: GraphView,
    bufs: Map<Seq<char>, Seq<u32>>,
    op: OpView,
    exps: Seq<u32>,
    i: int,
)
    requires
        runs(g, bufs, op, exps),
        op.params is Sigmoid || (op.params is Empty && op.op_type == "SiLU"@),
        0 <= i < bufs[op.inputs[0]].len(),
        is_finite(bufs[op.inputs[0]][i]),
    ensures
        op_arguments(g, bufs, op).len() == bufs[op.inputs[0]].len(),
        is_finite(op_arguments(g, bufs, op)[i]),
        value_of(op_arguments(g, bufs, op)[i]) == -value_of(bufs[op.inputs[0]][i]),
{
    reveal_strlit("Relu");
    reveal_strlit("Flatten");
    reveal_strlit("Reshape");
    reveal_strlit("MatMul");
    reveal_strlit("SiLU");
    assert("Relu"@[0] == 'R' && "SiLU"@[0] == 'S' && "SiLU"@.len() == 4);
    assert("Flatten"@.len() == 7 && "Reshape"@.len() == 7 && "MatMul"@.len() == 6);
    law_sigmoid_arguments(bufs[op.inputs[0]], i);
}

/// A Sigmoid puts out one sigmoid for each number; a SiLU multiplies each number
/// by its own sigmoid.
pub proof fn law_sigmoid_op(
    g: GraphView,
    bufs: Map<Seq<char>, Seq<u32>>,
    op: OpView,
    exps: Seq<u32>,
    i: int,
)
    requires
        runs(g, bufs, op, exps),
        op.params is Sigmoid || (op.params is Empty && op.op_type == "SiLU"@),
        0 <= i < bufs[op.inputs[0]].len(),
        i < bufs[op.outputs[0]].len(),
    ensures
        exps.len() == bufs[op.inputs[0]].len(),
        op.params is Sigmoid ==> output_of(g, bufs, op, exps)[i] == sigmoids(exps)[i],
        op.params is Empty ==> is_result(
            Arithmetic::Product,
            output_of(g, bufs, op, exps)[i],
            bufs[op.inputs[0]][i],
            sigmoids(exps)[i],
        ),
{
    reveal_strlit("Relu");
    reveal_strlit("Flatten");
    reveal_strlit("Reshape");
    reveal_strlit("MatMul");
    reveal_strlit("SiLU");
    assert("Relu"@[0] == 'R' && "SiLU"@[0] == 'S' && "SiLU"@.len() == 4);
    assert("Flatten"@.len() == 7 && "Reshape"@.len() == 7 && "MatMul"@.len() == 6);
    law_combined(Arithmetic::Product, bufs[op.inputs[0]], sigmoids(exps), i);
}

} // verus!
