//! Which kernel an op asks, what for, and what becomes of the answer.

use vstd::prelude::*;
use vstd::string::*;
use crate::builder::{OpView, ParamsView};
use crate::graph::GraphView;
use crate::kernels::Arithmetic;
use crate::proto::words32;
use crate::tensor::Dtype;
use crate::runtime::{decoded, float_of, halves16, Float};
use super::{
    all_numbers, concat_inputs, step_of, CallView, Image, KernelView, NumbersView, StepView,
    Threads,
};

verus! {

/// Whether numbers are those in a byte string: singles or halves as they are
/// stored, or halves as singles.
pub open spec fn holds(v: NumbersView, f: Float, data: Seq<u8>) -> bool {
    match v {
        NumbersView::Singles(x) => match f {
            Float::Single => x == words32(data),
            Float::Half => x == decoded(Float::Half, data),
        },
        NumbersView::Halves(h) => f == Float::Half && h == halves16(data),
    }
}

/// Whether the inputs of a call are the tensors of the first `n` inputs of an op.
pub open spec fn is_given(c: CallView, f: Float, mem: Map<Seq<char>, Seq<u8>>, op: OpView, n: nat) -> bool {
    &&& c.inputs.len() == n
    &&& n <= op.inputs.len()
    &&& forall|i: int| 0 <= i < n ==> mem.dom().contains(#[trigger] op.inputs[i])
    &&& forall|i: int| 0 <= i < n ==> holds(#[trigger] c.inputs[i], f, mem[op.inputs[i]])
}

/// Whether an image is that of a tensor, channels last, under windows of the given size.
pub open spec fn is_image(m: Image, dims: Seq<usize>, kernel: Seq<usize>, strides: Seq<usize>) -> bool {
    &&& dims.len() == 4
    &&& (m.n, m.h_in, m.w_in, m.c_in) == (dims[0], dims[1], dims[2], dims[3])
    &&& (m.k_h, m.k_w) == (kernel[0], kernel[1])
    &&& (m.stride_h, m.stride_w) == (strides[0], strides[1])
}

/// Whether dimensions are those of a tensor of up to four, with ones in front.
pub open spec fn is_padded(s: Seq<usize>, dims: Seq<usize>) -> bool {
    let front = 4 - dims.len();
    &&& 0 <= front
    &&& s.len() == 4
    &&& forall|i: int| 0 <= i < front ==> #[trigger] s[i] == 1
    &&& forall|i: int| front <= i < 4 ==> #[trigger] s[i] == dims[i - front]
}

/// Whether a convolution is asked for: a plain one, or a depthwise one where
/// every channel is a group of its own.
pub open spec fn is_convolution(
    k: KernelView,
    g: GraphView,
    op: OpView,
    kernel: Seq<usize>,
    strides: Seq<usize>,
    pads: Seq<usize>,
    group: usize,
    threads: usize,
) -> bool {
    let x = g.shapes[op.inputs[0]].dims;
    let y = g.shapes[op.outputs[0]].dims;
    match k {
        KernelView::Conv { image, threads: t } => {
            &&& group == 1
            &&& is_image(image, x, kernel, strides)
            &&& (image.pad_h, image.pad_w) == (pads[0], pads[1])
            &&& image.c_out == y[3]
            &&& t == Threads::Threaded(threads)
        },
        KernelView::DepthwiseConv { image, threads: t } => {
            &&& group > 1
            &&& group == x[3]
            &&& is_image(image, x, kernel, strides)
            &&& (image.pad_h, image.pad_w) == (pads[0], pads[1])
            &&& image.c_out == y[3] / group
            &&& t == Threads::Threaded(threads)
        },
        _ => false,
    }
}

/// Whether a product of two matrices is asked for, neither of them transposed.
pub open spec fn is_product(k: KernelView, g: GraphView, op: OpView, t: usize) -> bool {
    let a = g.shapes[op.inputs[0]].dims;
    let b = g.shapes[op.inputs[1]].dims;
    &&& a.len() == 2 && b.len() == 2
    &&& k == KernelView::Gemm { m: a[0], n: b[1], k: a[1], threads: Threads::Threaded(t) }
}

/// Whether a call is what an op means: the kernel of that op, with the sizes of
/// the op's tensors and the op's own parameters.
pub open spec fn is_meant(c: CallView, g: GraphView, op: OpView, threads: usize) -> bool {
    let x = g.shapes[op.inputs[0]].dims;
    match op.params {
        ParamsView::Empty => if op.op_type == "Relu"@ {
            c.kernel == KernelView::Relu
        } else {
            op.op_type == "MatMul"@ && is_product(c.kernel, g, op, threads)
        },
        ParamsView::Sigmoid => c.kernel == KernelView::Sigmoid,
        ParamsView::Add => c.kernel == KernelView::Combine(Arithmetic::Sum),
        ParamsView::Sub => c.kernel == KernelView::Combine(Arithmetic::Difference),
        ParamsView::Mul => c.kernel == KernelView::Combine(Arithmetic::Product),
        ParamsView::Div => c.kernel == KernelView::Combine(Arithmetic::Quotient),
        ParamsView::Gemm { trans_a, trans_b, .. } => !trans_a && !trans_b && is_product(
            c.kernel,
            g,
            op,
            threads,
        ),
        ParamsView::Softmax { .. } => c.kernel matches KernelView::Softmax { last_dim } && last_dim
            == if x.len() == 0 { 1 } else { x[x.len() - 1] },
        ParamsView::Conv2d { kernel_shape, strides, pads, group, .. } => is_convolution(
            c.kernel,
            g,
            op,
            kernel_shape,
            strides,
            pads,
            group,
            threads,
        ),
        ParamsView::MaxPool { kernel_shape, strides, .. } => {
            &&& c.kernel matches KernelView::MaxPool { image }
            &&& is_image(image, x, kernel_shape, strides)
            &&& (image.pad_h, image.pad_w) == (0usize, 0usize)
            &&& image.c_out == x[3]
        },
        ParamsView::AvgPool { kernel_shape, strides, .. } => {
            &&& c.kernel matches KernelView::AvgPool { image }
            &&& is_image(image, x, kernel_shape, strides)
            &&& (image.pad_h, image.pad_w) == (0usize, 0usize)
            &&& image.c_out == x[3]
        },
        ParamsView::Resize { out_h, out_w, mode } => {
            &&& c.kernel matches KernelView::Resize { image, out_h: h, out_w: w, linear }
            &&& x.len() == 4
            &&& (image.n, image.h_in, image.w_in, image.c_in) == (x[0], x[1], x[2], x[3])
            &&& (h, w) == (out_h, out_w)
            &&& mode == if linear { "linear"@ } else { "nearest"@ }
        },
        ParamsView::Concat { axis } => {
            &&& c.kernel matches KernelView::Concat { shapes, axis: a }
            &&& a == axis
            &&& shapes.len() == op.inputs.len()
            &&& forall|i: int|
                0 <= i < shapes.len() ==> is_padded(
                    #[trigger] shapes[i],
                    g.shapes[op.inputs[i]].dims,
                )
        },
        ParamsView::Split { axis, split_sizes } => {
            &&& c.kernel matches KernelView::Split { shape, axis: a, sizes }
            &&& is_padded(shape, x)
            &&& a == axis
            &&& sizes == split_sizes
        },
        ParamsView::Transpose { perm } => {
            &&& c.kernel matches KernelView::Transpose { shape, perm: p }
            &&& shape == x
            &&& p.len() == 4
            &&& forall|i: int| 0 <= i < 4 ==> #[trigger] p[i] == perm[i]
        },
        ParamsView::Slice { starts, ends, axes, steps } => c.kernel == (KernelView::Slice {
            shape: x,
            starts,
            ends,
            axes,
            steps,
        }),
        _ => false,
    }
}

/// How many tensors an op hands to its kernel.
pub open spec fn given_count(op: OpView) -> nat {
    match op.params {
        ParamsView::Empty => if op.op_type == "MatMul"@ {
            2
        } else {
            1
        },
        ParamsView::Add | ParamsView::Sub | ParamsView::Mul | ParamsView::Div => 2,
        ParamsView::Gemm { .. } | ParamsView::Conv2d { .. } => 2,
        ParamsView::Concat { .. } => op.inputs.len(),
        _ => 1,
    }
}

proof fn lemma_concat_inputs(
    g: GraphView,
    mem: Map<Seq<char>, Seq<u8>>,
    names: Seq<Seq<char>>,
    n: nat,
)
    requires
        n <= names.len(),
        concat_inputs(g, mem, names, n) is Ok,
    ensures
        ({
            let (shapes, data) = concat_inputs(g, mem, names, n)->Ok_0;
            &&& shapes.len() == n
            &&& data.len() == n
            &&& forall|i: int|
                0 <= i < n ==> is_padded(#[trigger] shapes[i], g.shapes[names[i]].dims)
            &&& forall|i: int| 0 <= i < n ==> mem.dom().contains(#[trigger] names[i])
            &&& forall|i: int| 0 <= i < n ==> #[trigger] data[i] == mem[names[i]]
        }),
    decreases n,
{
    if n > 0 {
        lemma_concat_inputs(g, mem, names, (n - 1) as nat);
        let (before, bytes) = concat_inputs(g, mem, names, (n - 1) as nat)->Ok_0;
        let (shapes, data) = concat_inputs(g, mem, names, n)->Ok_0;
        assert forall|i: int| 0 <= i < n implies is_padded(
            #[trigger] shapes[i],
            g.shapes[names[i]].dims,
        ) by {
            if i < n - 1 {
                assert(before[i] == shapes[i]);
            }
        }
        assert forall|i: int| 0 <= i < n implies #[trigger] data[i] == mem[names[i]] by {
            if i < n - 1 {
                assert(bytes[i] == data[i]);
            }
        }
    }
}

/// An op that a kernel works for asks for the kernel of its kind, with the sizes
/// of its tensors and its own parameters, and hands over its own tensors: a
/// MaxPool asks for a max pool, an AveragePool for an average pool, and so on.
pub proof fn law_ops_ask_their_kernels(
    g: GraphView,
    mem: Map<Seq<char>, Seq<u8>>,
    op: OpView,
    threads: usize,
)
    requires
        step_of(g, mem, op, threads) matches Ok(StepView::Call(_)),
    ensures
        ({
            let c = step_of(g, mem, op, threads)->Ok_0->Call_0;
            &&& float_of(g.dtype) is Some
            &&& is_given(c, float_of(g.dtype)->0, mem, op, given_count(op))
            &&& is_meant(c, g, op, threads)
        }),
{
    reveal_strlit("Relu");
    reveal_strlit("Flatten");
    reveal_strlit("MatMul");
    reveal_strlit("linear");
    reveal_strlit("nearest");
    assert("MatMul"@.len() == 6 && "Relu"@.len() == 4 && "Flatten"@.len() == 7);
    assert("linear"@.len() == 6 && "nearest"@.len() == 7);
    let c = step_of(g, mem, op, threads)->Ok_0->Call_0;
    match op.params {
        ParamsView::Concat { axis } => {
            lemma_concat_inputs(g, mem, op.inputs, op.inputs.len());
            let (shapes, data) = concat_inputs(g, mem, op.inputs, op.inputs.len())->Ok_0;
            let f = float_of(g.dtype)->0;
            assert(c.inputs == all_numbers(f, data));
            assert forall|i: int| 0 <= i < op.inputs.len() implies holds(
                #[trigger] c.inputs[i],
                f,
                mem[op.inputs[i]],
            ) by {
                assert(data[i] == mem[op.inputs[i]]);
            }
        },
        ParamsView::Resize { out_h, out_w, mode } => {},
        _ => {},
    }
}

/// In a graph of singles a kernel gets what is in the op's output to write over,
/// so that it returns as many numbers as there is room for.
pub proof fn law_kernels_write_to_the_output(
    g: GraphView,
    mem: Map<Seq<char>, Seq<u8>>,
    op: OpView,
    threads: usize,
)
    requires
        step_of(g, mem, op, threads) matches Ok(StepView::Call(_)),
        g.dtype == Dtype::F32,
        !(op.params is Split),
    ensures
        ({
            let c = step_of(g, mem, op, threads)->Ok_0->Call_0;
            &&& c.outputs.len() == 1
            &&& mem.dom().contains(op.outputs[0])
            &&& c.outputs[0] == NumbersView::Singles(words32(mem[op.outputs[0]]))
        }),
{
    reveal_strlit("Relu");
    reveal_strlit("Flatten");
    reveal_strlit("MatMul");
    assert("MatMul"@.len() == 6 && "Relu"@.len() == 4 && "Flatten"@.len() == 7);
}

} // verus!
