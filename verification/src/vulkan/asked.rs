//! Which shader an op runs, what for, and which kernel the host asks in its place.

use vstd::prelude::*;
use vstd::string::*;
use crate::builder::{OpView, ParamsView};
use crate::calibration::bytes_in;
use crate::graph::GraphView;
use crate::kernels::elements::{is_result, law_combined};
use crate::kernels::Arithmetic;
use crate::runtime::cpu::asked::is_padded;
use crate::runtime::cpu::{Image, KernelView, NumbersView};
use crate::tensor::numel;
use super::host::{concat_shapes, host_work, HostView};
use super::{
    batched, depends_on_previous, device_commands, is_host_op, run_commands, CommandView, Path, Shader,
};

verus! {

/// Whether an image is that of a tensor, channels last, under windows of the
/// given size with the given pads in front.
pub open spec fn is_image(
    m: Image,
    dims: Seq<usize>,
    c_out: usize,
    kernel: Seq<usize>,
    strides: Seq<usize>,
    pads: (usize, usize),
) -> bool {
    &&& dims.len() == 4
    &&& (m.n, m.h_in, m.w_in, m.c_in) == (dims[0], dims[1], dims[2], dims[3])
    &&& m.c_out == c_out
    &&& (m.k_h, m.k_w) == (kernel[0], kernel[1])
    &&& (m.stride_h, m.stride_w) == (strides[0], strides[1])
    &&& (m.pad_h, m.pad_w) == pads
}

/// Whether a shader is what an op means: the one of its kind, with the sizes of
/// the op's tensors and the op's own parameters.
pub open spec fn is_meant(s: Shader, g: GraphView, op: OpView) -> bool {
    let x = g.shapes[op.inputs[0]].dims;
    let y = g.shapes[op.outputs[0]].dims;
    match op.params {
        ParamsView::Empty => op.op_type == "SiLU"@ && s == Shader::SiluF32,
        ParamsView::Add => s == Shader::AddF32,
        ParamsView::Mul => s == Shader::MulF32,
        ParamsView::Sigmoid => s == Shader::SigmoidF32,
        ParamsView::Gemm { trans_a, trans_b, .. } => {
            let w = g.shapes[op.inputs[1]].dims;
            &&& !trans_a && !trans_b
            &&& x.len() == 2 && w.len() == 2
            &&& s == Shader::GemmF32 { m: x[0], n: w[1], k: x[1] }
        },
        ParamsView::Conv2d { kernel_shape, strides, pads, group, .. } => {
            &&& group == 1
            &&& s matches Shader::Conv2dF32 { image }
            &&& is_image(image, x, y[3], kernel_shape, strides, (pads[0], pads[1]))
        },
        ParamsView::MaxPool { kernel_shape, strides, .. } => {
            &&& s matches Shader::MaxPool2dF32 { image }
            &&& is_image(image, x, x[3], kernel_shape, strides, (0, 0))
        },
        ParamsView::Softmax { .. } => {
            &&& s matches Shader::SoftmaxF32 { rows, last }
            &&& last == if x.len() == 0 { 1 } else { x[x.len() - 1] }
            &&& rows * last <= numel(x) < (rows + 1) * last
        },
        ParamsView::Requantize { scale } => s == Shader::RequantizeI32ToI8 { scale },
        ParamsView::AddQuantized { scale_a_over_out, scale_b_over_out } => s == Shader::AddI8 {
            scale_a_over_out,
            scale_b_over_out,
        },
        ParamsView::Quantize { scale } => s == Shader::QuantizeF32ToI8 { scale },
        ParamsView::Dequantize { scale } => s == Shader::DequantizeI8ToF32 { scale },
        ParamsView::Conv2dRequantReluI8Nhwc {
            kernel_shape,
            strides,
            pads,
            group,
            requant_scale,
            has_relu,
            ..
        } => {
            &&& group == 1
            &&& s matches Shader::Conv2dRequantReluI8 {
                image,
                requant_scale: scale,
                has_relu: rectifies,
            }
            &&& is_image(image, x, y[3], kernel_shape, strides, (pads[0], pads[1]))
            &&& scale == requant_scale
            &&& rectifies == has_relu
        },
        _ => false,
    }
}

/// How many tensors a shader reads for an op.
pub open spec fn read_count(op: OpView) -> int {
    match op.params {
        ParamsView::Add | ParamsView::Mul | ParamsView::Gemm { .. } | ParamsView::Conv2d { .. } => 2,
        ParamsView::AddQuantized { .. } | ParamsView::Conv2dRequantReluI8Nhwc { .. } => 2,
        _ => 1,
    }
}

/// Whether an op rectifies its input.
pub open spec fn rectifies(op: OpView) -> bool {
    (op.params is Empty && op.op_type == "Relu"@) || op.params is Clip
}

/// Whether an op moves numbers and leaves them as they are, or does nothing.
pub open spec fn leaves(op: OpView) -> bool {
    op.params is Reshape || (op.params is Empty && op.op_type != "Relu"@ && op.op_type != "SiLU"@)
}

/// The bias channels of an op: the columns of a product, the output channels of
/// a convolution.
pub open spec fn bias_channels(g: GraphView, op: OpView) -> usize {
    if op.params is Gemm {
        g.shapes[op.inputs[1]].dims[1]
    } else {
        g.shapes[op.outputs[0]].dims[3]
    }
}

/// Whether an op has a bias for its shader: a third input of as many singles as
/// there are channels.
pub open spec fn has_bias(g: GraphView, op: OpView, skip_bias: bool, path: Path) -> bool {
    let left_out = op.params is Conv2d && skip_bias && path == Path::Dispatch;
    &&& op.params is Gemm || op.params is Conv2d
    &&& !left_out
    &&& op.inputs.len() > 2
    &&& op.inputs[2].len() > 0
    &&& bytes_in(g.shapes[op.inputs[2]]) / 4 == bias_channels(g, op)
    &&& g.shapes.dom().contains(op.inputs[2])
    &&& bytes_in(g.shapes[op.inputs[2]]) > 0
}

/// An op first runs the shader of its kind on its own tensors; a product or
/// convolution with a bias adds it to the output after that.
pub proof fn law_ops_run_their_shaders(g: GraphView, op: OpView, skip_bias: bool, path: Path)
    requires
        device_commands(g, op, skip_bias, path) is Ok,
        !rectifies(op),
        !leaves(op),
    ensures
        ({
            let c = device_commands(g, op, skip_bias, path)->Ok_0;
            &&& c.len() > 0
            &&& c[0] matches CommandView::Run { shader, inputs, output }
            &&& is_meant(shader, g, op)
            &&& op.inputs.len() >= read_count(op)
            &&& inputs == op.inputs.take(read_count(op))
            &&& output == op.outputs[0]
            &&& forall|i: int| 0 <= i < inputs.len() ==> #[trigger] inputs[i] != output
            &&& has_bias(g, op, skip_bias, path) ==> {
                &&& c.len() == if path == Path::Record { 3int } else { 2 }
                &&& path == Path::Record ==> c[1] is Barrier
                &&& c.last() == (CommandView::Run {
                    shader: Shader::BiasAddF32 { channels: bias_channels(g, op) },
                    inputs: seq![op.inputs[2]],
                    output: op.outputs[0],
                })
            }
            &&& c.len() > 1 ==> op.params is Gemm || op.params is Conv2d
            &&& c.len() > 1 && bias_channels(g, op) > 0 ==> has_bias(g, op, skip_bias, path)
        }),
{
    reveal_strlit("Relu");
    reveal_strlit("SiLU");
    reveal_strlit("Flatten");
    reveal_strlit("Reshape");
    assert("Relu"@.len() == 4 && "SiLU"@.len() == 4 && "Relu"@[0] == 'R' && "SiLU"@[0] == 'S');
    assert("Flatten"@.len() == 7 && "Reshape"@.len() == 7);
    let c = device_commands(g, op, skip_bias, path)->Ok_0;
    assert(c.len() > 0);
    assert(c[0] is Run);
    assert(c[0]->inputs =~= op.inputs.take(read_count(op)));
    if op.params is Softmax {
        let x = g.shapes[op.inputs[0]].dims;
        let last = c[0]->Run_shader->SoftmaxF32_last as int;
        let total = numel(x) as int;
        let rows = total / last;
        assert(x.take(x.len() as int) =~= x);
        assert(rows * last <= total < (rows + 1) * last) by (nonlinear_arith)
            requires
                last > 0,
                total >= 0,
                rows == total / last,
        ;
        assert(0 <= rows <= total) by (nonlinear_arith)
            requires
                last > 0,
                total >= 0,
                rows == total / last,
        ;
    }
}

/// An op that rectifies does so in place on its output, after a copy of all of
/// its input where that is another tensor. A Clip does only between zero and
/// infinity.
pub proof fn law_relu_is_in_place(g: GraphView, op: OpView, skip_bias: bool, path: Path)
    requires
        device_commands(g, op, skip_bias, path) is Ok,
        rectifies(op),
    ensures
        ({
            let c = device_commands(g, op, skip_bias, path)->Ok_0;
            &&& c.len() > 0
            &&& c.last() == (CommandView::Run {
                shader: Shader::ReluF32,
                inputs: Seq::empty(),
                output: op.outputs[0],
            })
            &&& op.inputs[0] == op.outputs[0] ==> c.len() == 1
            &&& op.inputs[0] != op.outputs[0] ==> {
                &&& c.len() == 2
                &&& c[0] matches CommandView::Copy { from, to, bytes }
                &&& from == op.inputs[0] && to == op.outputs[0]
                &&& bytes == bytes_in(g.shapes[from]) as usize
                &&& bytes_in(g.shapes[from]) == bytes_in(g.shapes[to])
            }
            &&& op.params matches ParamsView::Clip { min, max } ==> {
                &&& min == 0 || min == 0x8000_0000
                &&& max == 0x7f80_0000 || max == 0xff80_0000
            }
        }),
{
    reveal_strlit("Relu");
    reveal_strlit("Flatten");
    reveal_strlit("Reshape");
    assert("Relu"@.len() == 4 && "Flatten"@.len() == 7 && "Reshape"@.len() == 7);
}

/// An op that leaves its numbers as they are runs no shader: it copies what fits
/// of its input to its output, or does nothing where they are one tensor.
pub proof fn law_reshape_copies(g: GraphView, op: OpView, skip_bias: bool, path: Path)
    requires
        device_commands(g, op, skip_bias, path) is Ok,
        leaves(op),
    ensures
        ({
            let c = device_commands(g, op, skip_bias, path)->Ok_0;
            let moves = op.params is Reshape || op.op_type == "Flatten"@ || op.op_type == "Reshape"@;
            &&& c.len() <= 1
            &&& c.len() == 1 ==> {
                &&& c[0] matches CommandView::Copy { from, to, bytes }
                &&& from == op.inputs[0] && to == op.outputs[0]
                &&& bytes_in(g.shapes[from]) <= bytes_in(g.shapes[to]) ==> bytes == bytes_in(
                    g.shapes[from],
                ) as usize
                &&& bytes_in(g.shapes[to]) <= bytes_in(g.shapes[from]) ==> bytes == bytes_in(
                    g.shapes[to],
                ) as usize
            }
            &&& moves && op.inputs.len() > 0 && op.outputs.len() > 0 && op.inputs[0]
                != op.outputs[0] ==> c.len() == 1
        }),
{
}

/// Whether a kernel is what an op means that the host works on.
pub open spec fn is_host_kernel(k: KernelView, g: GraphView, op: OpView) -> bool {
    let x = g.shapes[op.inputs[0]].dims;
    match op.params {
        ParamsView::Sub => k == KernelView::Combine(Arithmetic::Difference),
        ParamsView::Div => k == KernelView::Combine(Arithmetic::Quotient),
        ParamsView::Concat { axis } => {
            &&& k matches KernelView::Concat { shapes, axis: a }
            &&& a == axis
            &&& shapes.len() == op.inputs.len()
            &&& forall|i: int|
                0 <= i < shapes.len() ==> is_padded(
                    #[trigger] shapes[i],
                    g.shapes[op.inputs[i]].dims,
                )
        },
        ParamsView::Resize { out_h, out_w, mode } => {
            &&& k matches KernelView::Resize { image, out_h: h, out_w: w, linear }
            &&& x.len() == 4
            &&& (image.n, image.h_in, image.w_in, image.c_in) == (x[0], x[1], x[2], x[3])
            &&& (h, w) == (out_h, out_w)
            &&& mode == if linear { "linear"@ } else { "nearest"@ }
        },
        ParamsView::Split { axis, split_sizes } => {
            &&& k matches KernelView::Split { shape, axis: a, sizes }
            &&& is_padded(shape, x)
            &&& a == axis
            &&& sizes == split_sizes
        },
        ParamsView::Transpose { perm } => {
            let front = 4 - x.len();
            &&& k matches KernelView::Transpose { shape, perm: p }
            &&& is_padded(shape, x)
            &&& p.len() == 4
            &&& forall|j: int| 0 <= j < front ==> #[trigger] p[j] == j
            &&& forall|j: int|
                front <= j < front + perm.len() ==> #[trigger] p[j] == perm[j - front] + front
        },
        ParamsView::Slice { starts, ends, axes, steps } => {
            &&& k matches KernelView::Slice { shape, starts: s, ends: e, axes: a, steps: t }
            &&& is_padded(shape, x)
            &&& (s, e, a, t) == (starts, ends, axes, steps)
        },
        _ => false,
    }
}

/// How many tensors the host reads for an op.
pub open spec fn host_count(op: OpView) -> nat {
    match op.params {
        ParamsView::Sub | ParamsView::Div => 2,
        ParamsView::Concat { .. } => op.inputs.len(),
        _ => 1,
    }
}

proof fn lemma_concat_shapes(g: GraphView, op: OpView, data: Seq<Seq<u32>>, n: nat)
    requires
        n <= op.inputs.len(),
        concat_shapes(g, op, data, n) is Ok,
    ensures
        concat_shapes(g, op, data, n)->Ok_0.len() == n,
        n <= data.len(),
        forall|i: int|
            0 <= i < n ==> is_padded(
                #[trigger] concat_shapes(g, op, data, n)->Ok_0[i],
                g.shapes[op.inputs[i]].dims,
            ),
    decreases n,
{
    if n > 0 {
        lemma_concat_shapes(g, op, data, (n - 1) as nat);
        let before = concat_shapes(g, op, data, (n - 1) as nat)->Ok_0;
        let shapes = concat_shapes(g, op, data, n)->Ok_0;
        assert forall|i: int| 0 <= i < n implies is_padded(
            #[trigger] shapes[i],
            g.shapes[op.inputs[i]].dims,
        ) by {
            if i < n - 1 {
                assert(before[i] == shapes[i]);
            }
        }
    }
}

/// An op that the host works on asks for the CPU kernel of its kind, with the
/// sizes of its tensors, its own parameters and the numbers of its inputs.
pub proof fn law_host_ops_ask_their_kernels(g: GraphView, op: OpView, data: Seq<Seq<u32>>)
    requires
        host_work(g, op, data) matches Ok(HostView::Call(_)),
    ensures
        ({
            let c = host_work(g, op, data)->Ok_0->Call_0;
            &&& is_host_kernel(c.kernel, g, op)
            &&& c.inputs.len() == host_count(op)
            &&& host_count(op) <= data.len()
            &&& forall|i: int|
                0 <= i < host_count(op) ==> #[trigger] c.inputs[i] == NumbersView::Singles(data[i])
        }),
{
    reveal_strlit("linear");
    reveal_strlit("nearest");
    assert("linear"@.len() == 6 && "nearest"@.len() == 7);
    if op.params is Concat {
        lemma_concat_shapes(g, op, data, op.inputs.len());
    }
}

/// A difference or quotient of tensors that are not as long is taken place by
/// place, with the second operand repeated; the rest of the output is zero.
pub proof fn law_host_repeats_the_second(g: GraphView, op: OpView, data: Seq<Seq<u32>>, i: int)
    requires
        host_work(g, op, data) matches Ok(HostView::Upload(_)),
        0 <= i < host_work(g, op, data)->Ok_0->Upload_0.len(),
    ensures
        ({
            let y = host_work(g, op, data)->Ok_0->Upload_0;
            let (a, b) = (data[0], data[1]);
            let kind = if op.params is Sub {
                Arithmetic::Difference
            } else {
                Arithmetic::Quotient
            };
            &&& op.params is Sub || op.params is Div
            &&& b.len() > 0
            &&& i < a.len() ==> is_result(kind, y[i], a[i], b[i % b.len() as int])
            &&& i >= a.len() ==> y[i] == 0
        }),
{
    let kind = if op.params is Sub {
        Arithmetic::Difference
    } else {
        Arithmetic::Quotient
    };
    if i < data[0].len() {
        law_combined(kind, data[0], data[1], i);
    }
}

// ---------------------------------------------------------------------------
// A whole run
// ---------------------------------------------------------------------------

/// How many commands an op takes in a run.
pub open spec fn command_count(g: GraphView, op: OpView) -> int {
    if is_host_op(op.params) {
        1
    } else {
        device_commands(g, op, false, Path::Record)->Ok_0.len() as int
    }
}

/// Whether an op is run at a place of a run: its own commands stand there, behind
/// a barrier where it reads what the op before it writes, or the host is let to
/// work on it.
pub open spec fn is_run_at(g: GraphView, c: Seq<CommandView>, i: int, at: int) -> bool {
    let op = g.ops[i];
    &&& 0 <= at
    &&& at + command_count(g, op) <= c.len()
    &&& is_host_op(op.params) ==> c[at] == (CommandView::Host { op: i as usize })
    &&& !is_host_op(op.params) ==> {
        &&& device_commands(g, op, false, Path::Record) is Ok
        &&& forall|k: int|
            0 <= k < command_count(g, op) ==> c[at + k] == #[trigger] device_commands(
                g,
                op,
                false,
                Path::Record,
            )->Ok_0[k]
        &&& forall|k: int, l: int|
            i > 0 && 0 <= k < op.inputs.len() && 0 <= l < g.ops[i - 1].outputs.len()
                && #[trigger] op.inputs[k] == #[trigger] g.ops[i - 1].outputs[l] ==> at > 0
                && c[at - 1] is Barrier
    }
}

proof fn lemma_batched_extends(g: GraphView, m: nat, n: nat)
    requires
        m <= n <= g.ops.len(),
        batched(g, n).failure is None,
    ensures
        batched(g, m).failure is None,
        batched(g, m).commands.len() <= batched(g, n).commands.len(),
        forall|k: int|
            0 <= k < batched(g, m).commands.len() ==> #[trigger] batched(g, n).commands[k]
                == batched(g, m).commands[k],
    decreases n,
{
    if m < n {
        lemma_batched_extends(g, m, (n - 1) as nat);
        let (a, b) = (batched(g, (n - 1) as nat).commands, batched(g, n).commands);
        assert forall|k: int| 0 <= k < a.len() implies #[trigger] b[k] == a[k] by {}
    }
}

proof fn lemma_run_at(g: GraphView, i: int) -> (at: int)
    requires
        run_commands(g).1 is None,
        0 <= i < g.ops.len(),
    ensures
        is_run_at(g, run_commands(g).0, i, at),
        batched(g, i as nat).commands.len() <= at,
        at + command_count(g, g.ops[i]) == batched(g, (i + 1) as nat).commands.len(),
{
    let n = g.ops.len();
    lemma_batched_extends(g, (i + 1) as nat, n);
    lemma_batched_extends(g, i as nat, n);
    let before = batched(g, i as nat);
    let after = batched(g, (i + 1) as nat);
    let op = g.ops[i];
    let size = command_count(g, op);
    let at = after.commands.len() - size;
    let all = run_commands(g).0;
    assert forall|k: int| 0 <= k < after.commands.len() implies #[trigger] all[k]
        == after.commands[k] by {
        assert(all[k] == batched(g, n).commands[k]);
    }
    if !is_host_op(op.params) {
        let c = device_commands(g, op, false, Path::Record)->Ok_0;
        assert forall|k: int| 0 <= k < size implies all[at + k] == #[trigger] device_commands(
            g,
            op,
            false,
            Path::Record,
        )->Ok_0[k] by {
            assert(after.commands[at + k] == c[k]);
        }
        assert forall|k: int, l: int|
            i > 0 && 0 <= k < op.inputs.len() && 0 <= l < g.ops[i - 1].outputs.len()
                && #[trigger] op.inputs[k] == #[trigger] g.ops[i - 1].outputs[l] implies at > 0
            && all[at - 1] is Barrier by {
            assert(g.ops[i - 1].outputs.contains(g.ops[i].inputs[k]));
            assert(depends_on_previous(g.ops, i));
            assert(after.commands[at - 1] == CommandView::Barrier);
        }
    } else {
        assert(after.commands[at] == CommandView::Host { op: i as usize });
    }
    at
}

/// A run that is not stopped runs every op, the later ones behind the earlier
/// ones, and what reads a tensor that was just written waits for it.
pub proof fn law_every_op_is_run(g: GraphView, i: int, j: int) -> (at: (int, int))
    requires
        run_commands(g).1 is None,
        0 <= i < j < g.ops.len(),
    ensures
        is_run_at(g, run_commands(g).0, i, at.0),
        is_run_at(g, run_commands(g).0, j, at.1),
        at.0 + command_count(g, g.ops[i]) <= at.1,
{
    let p = lemma_run_at(g, i);
    let q = lemma_run_at(g, j);
    lemma_batched_extends(g, j as nat, g.ops.len());
    lemma_batched_extends(g, (i + 1) as nat, j as nat);
    (p, q)
}

} // verus!
