//! The runtime for the CPU: optimized kernels do the heavy work.
//!
//! The runtime finds the tensors of an op, checks them, and either computes the
//! result itself or hands the numbers to a kernel and puts back what it returns.
//! Tensors of four dimensions have their channels last (NHWC).

use vstd::prelude::*;
use vstd::string::*;
use crate::builder::{CompiledOp, OpParams, OpView, ParamsView};
use crate::calibration::dispatch::{
    bad_sizes, check_names, err_bad_sizes, failure_of, find_shape, last_dim, names_checked,
    product_fits, shape_at,
};
use crate::calibration::{lemma_named_all, lemma_named_step, named_before, zeros};
use crate::calibration::{bytes_in, checked_size, sizes_fit};
use crate::error::{outcome, Error, ErrorView};
use crate::fusion::parts::{take_apart, taken_apart};
use crate::graph::{Graph, GraphView};
use crate::kernels::{
    add_row_bias, apply_over, are_bounds, average_last_channels, broadcast_over, check_bounds,
    checked_volume, clip, clipped, last_channel_means, overlaid, overlay, rectified, rectify,
    row_biased, Arithmetic, Product,
};
use crate::model::{copy_vec, lemma_views_push, views};
use crate::name_map::{distinct_names, lemma_pair_in_map, NameMap};
use crate::ops::common::{err_size_overflow, err_too_few_inputs, no_output, size_overflow, too_few_inputs};
use crate::proto::{to_words32, words32};
use crate::tensor::{checked_numel, dtype_name, dtype_str, numel, products_fit, ShapeView, TensorShape};
use crate::text::{concat2, concat4, dec_int, dec_usize, list_usize, sizes_text, str_eq};
use super::generic::{compute_product, Running, product_numbers, product_sizes, product_there, unsupported_dtype};
use super::{
    law_written_numbers_read_back, stored,
    bytes_of, bytes_of_halves, convert, decode, decoded, encode, encoded, find_bytes, find_third,
    first_memory, float_of, from_halves16, make_memory, upload_of, halves16, third_input, to_float,
    to_halves16, width, Float,
};

pub mod asked;

verus! {

// ---------------------------------------------------------------------------
// Kernels
// ---------------------------------------------------------------------------

/// Numbers as a kernel takes them.
#[derive(Debug)]
pub enum Numbers {
    /// Bits of singles.
    Singles(Vec<u32>),
    /// Bits of halves.
    Halves(Vec<u16>),
}

/// The contents of [`Numbers`].
pub enum NumbersView {
    Singles(Seq<u32>),
    Halves(Seq<u16>),
}

impl View for Numbers {
    type V = NumbersView;

    open spec fn view(&self) -> NumbersView {
        match *self {
            Numbers::Singles(v) => NumbersView::Singles(v@),
            Numbers::Halves(v) => NumbersView::Halves(v@),
        }
    }
}

/// What a convolution or a pool moves over, channels last.
#[derive(Debug, Clone, Copy, PartialEq, Eq, Structural)]
pub struct Image {
    pub n: usize,
    pub h_in: usize,
    pub w_in: usize,
    pub c_in: usize,
    /// Output channels, or channel multiplier of a depthwise convolution.
    pub c_out: usize,
    pub k_h: usize,
    pub k_w: usize,
    pub stride_h: usize,
    pub stride_w: usize,
    pub pad_h: usize,
    pub pad_w: usize,
}

/// Which kernel does heavy work.
#[derive(Debug, Clone, Copy, PartialEq, Eq, Structural)]
pub enum Threads {
    /// The naive one, which has a single thread.
    Naive,
    /// The threaded one, with so many threads.
    Threaded(usize),
}

/// A kernel with its sizes.
#[derive(Debug)]
pub enum Kernel {
    Relu,
    Sigmoid,
    Combine(Arithmetic),
    Gemm { m: usize, n: usize, k: usize, threads: Threads },
    Softmax { last_dim: usize },
    Conv { image: Image, threads: Threads },
    DepthwiseConv { image: Image, threads: Threads },
    MaxPool { image: Image },
    AvgPool { image: Image },
    Concat { shapes: Vec<Vec<usize>>, axis: usize },
    Resize { image: Image, out_h: usize, out_w: usize, linear: bool },
    Split { shape: Vec<usize>, axis: usize, sizes: Vec<usize> },
    Transpose { shape: Vec<usize>, perm: Vec<usize> },
    Slice {
        shape: Vec<usize>,
        starts: Vec<isize>,
        ends: Vec<isize>,
        axes: Vec<usize>,
        steps: Vec<isize>,
    },
}

/// The contents of [`Kernel`].
pub enum KernelView {
    Relu,
    Sigmoid,
    Combine(Arithmetic),
    Gemm { m: usize, n: usize, k: usize, threads: Threads },
    Softmax { last_dim: usize },
    Conv { image: Image, threads: Threads },
    DepthwiseConv { image: Image, threads: Threads },
    MaxPool { image: Image },
    AvgPool { image: Image },
    Concat { shapes: Seq<Seq<usize>>, axis: usize },
    Resize { image: Image, out_h: usize, out_w: usize, linear: bool },
    Split { shape: Seq<usize>, axis: usize, sizes: Seq<usize> },
    Transpose { shape: Seq<usize>, perm: Seq<usize> },
    Slice {
        shape: Seq<usize>,
        starts: Seq<isize>,
        ends: Seq<isize>,
        axes: Seq<usize>,
        steps: Seq<isize>,
    },
}

impl View for Kernel {
    type V = KernelView;

    open spec fn view(&self) -> KernelView {
        match *self {
            Kernel::Relu => KernelView::Relu,
            Kernel::Sigmoid => KernelView::Sigmoid,
            Kernel::Combine(a) => KernelView::Combine(a),
            Kernel::Gemm { m, n, k, threads } => KernelView::Gemm { m, n, k, threads },
            Kernel::Softmax { last_dim } => KernelView::Softmax { last_dim },
            Kernel::Conv { image, threads } => KernelView::Conv { image, threads },
            Kernel::DepthwiseConv { image, threads } => KernelView::DepthwiseConv {
                image,
                threads,
            },
            Kernel::MaxPool { image } => KernelView::MaxPool { image },
            Kernel::AvgPool { image } => KernelView::AvgPool { image },
            Kernel::Concat { shapes, axis } => KernelView::Concat { shapes: views(shapes@), axis },
            Kernel::Resize { image, out_h, out_w, linear } => KernelView::Resize {
                image,
                out_h,
                out_w,
                linear,
            },
            Kernel::Split { shape, axis, sizes } => KernelView::Split {
                shape: shape@,
                axis,
                sizes: sizes@,
            },
            Kernel::Transpose { shape, perm } => KernelView::Transpose {
                shape: shape@,
                perm: perm@,
            },
            Kernel::Slice { shape, starts, ends, axes, steps } => KernelView::Slice {
                shape: shape@,
                starts: starts@,
                ends: ends@,
                axes: axes@,
                steps: steps@,
            },
        }
    }
}

/// Work for a kernel: what it reads, and what is in the outputs that it writes.
#[derive(Debug)]
pub struct KernelCall {
    pub kernel: Kernel,
    pub inputs: Vec<Numbers>,
    pub outputs: Vec<Numbers>,
}

/// The contents of [`KernelCall`].
pub struct CallView {
    pub kernel: KernelView,
    pub inputs: Seq<NumbersView>,
    pub outputs: Seq<NumbersView>,
}

impl View for KernelCall {
    type V = CallView;

    open spec fn view(&self) -> CallView {
        CallView {
            kernel: self.kernel@,
            inputs: views(self.inputs@),
            outputs: views(self.outputs@),
        }
    }
}

/// The numbers in a byte string, as a kernel takes them.
pub open spec fn numbers_in(f: Float, data: Seq<u8>) -> NumbersView {
    match f {
        Float::Single => NumbersView::Singles(words32(data)),
        Float::Half => NumbersView::Halves(halves16(data)),
    }
}

fn to_numbers(f: Float, data: &Vec<u8>) -> (r: Numbers)
    ensures
        r@ == numbers_in(f, data@),
{
    match f {
        Float::Single => Numbers::Singles(to_words32(data.as_slice())),
        Float::Half => Numbers::Halves(to_halves16(data.as_slice())),
    }
}

/// Zeros as singles.
pub open spec fn zero_singles(n: nat) -> NumbersView {
    NumbersView::Singles(Seq::new(n, |i: int| 0))
}

/// Work on one output.
pub open spec fn one_call(kernel: KernelView, inputs: Seq<NumbersView>, output: NumbersView) -> CallView {
    CallView { kernel, inputs, outputs: seq![output] }
}

pub(crate) fn make_call_1(kernel: Kernel, input: Numbers, output: Numbers) -> (r: KernelCall)
    ensures
        r@ == one_call(kernel@, seq![input@], output@),
{
    let mut inputs: Vec<Numbers> = Vec::new();
    inputs.push(input);
    let mut outputs: Vec<Numbers> = Vec::new();
    outputs.push(output);
    assert(views(inputs@) =~= seq![input@]);
    assert(views(outputs@) =~= seq![output@]);
    KernelCall { kernel, inputs, outputs }
}

pub(crate) fn make_call_2(kernel: Kernel, a: Numbers, b: Numbers, output: Numbers) -> (r: KernelCall)
    ensures
        r@ == one_call(kernel@, seq![a@, b@], output@),
{
    let mut inputs: Vec<Numbers> = Vec::new();
    inputs.push(a);
    inputs.push(b);
    let mut outputs: Vec<Numbers> = Vec::new();
    outputs.push(output);
    assert(views(inputs@) =~= seq![a@, b@]);
    assert(views(outputs@) =~= seq![output@]);
    KernelCall { kernel, inputs, outputs }
}

// ---------------------------------------------------------------------------
// What an op comes to
// ---------------------------------------------------------------------------

/// What is to be done for an op.
pub enum StepView {
    /// Nothing.
    Nothing,
    /// These bytes go into the first output.
    Write(Seq<u8>),
    /// A kernel works.
    Call(CallView),
}

/// What is to be done for an op.
#[derive(Debug)]
pub enum Step {
    /// Nothing.
    Nothing,
    /// These bytes go into the first output.
    Write(Vec<u8>),
    /// A kernel works.
    Call(KernelCall),
}

impl View for Step {
    type V = StepView;

    open spec fn view(&self) -> StepView {
        match *self {
            Step::Nothing => StepView::Nothing,
            Step::Write(v) => StepView::Write(v@),
            Step::Call(c) => StepView::Call(c@),
        }
    }
}

/// The bytes of an op's input and of its output.
pub open spec fn one_in(mem: Map<Seq<char>, Seq<u8>>, op: OpView) -> Result<
    (Seq<u8>, Seq<u8>),
    ErrorView,
> {
    match bytes_of(mem, op.inputs[0]) {
        Err(e) => Err(e),
        Ok(x) => match bytes_of(mem, op.outputs[0]) {
            Err(e) => Err(e),
            Ok(o) => Ok((x, o)),
        },
    }
}

/// The bytes of an op's two inputs and of its output.
pub open spec fn two_in(mem: Map<Seq<char>, Seq<u8>>, op: OpView) -> Result<
    (Seq<u8>, Seq<u8>, Seq<u8>),
    ErrorView,
> {
    match bytes_of(mem, op.inputs[0]) {
        Err(e) => Err(e),
        Ok(a) => match bytes_of(mem, op.inputs[1]) {
            Err(e) => Err(e),
            Ok(b) => match bytes_of(mem, op.outputs[0]) {
                Err(e) => Err(e),
                Ok(o) => Ok((a, b, o)),
            },
        },
    }
}

fn find_one(mem: &NameMap<Vec<u8>>, op: &CompiledOp) -> (r: Result<(Vec<u8>, Vec<u8>), Error>)
    requires
        op@.inputs.len() >= 1,
        op@.outputs.len() >= 1,
    ensures
        match r {
            Ok(p) => one_in(mem@, op@) == Ok::<(Seq<u8>, Seq<u8>), ErrorView>((p.0@, p.1@)),
            Err(e) => one_in(mem@, op@) == Err::<(Seq<u8>, Seq<u8>), ErrorView>(e@),
        },
{
    assert(op@.inputs[0] == op.inputs@[0]@);
    assert(op@.outputs[0] == op.outputs@[0]@);
    let x: Vec<u8> = match find_bytes(mem, &op.inputs[0]) {
        Ok(x) => x,
        Err(e) => {
            return Err(e);
        },
    };
    match find_bytes(mem, &op.outputs[0]) {
        Ok(o) => Ok((x, o)),
        Err(e) => Err(e),
    }
}

fn find_two(mem: &NameMap<Vec<u8>>, op: &CompiledOp) -> (r: Result<
    (Vec<u8>, Vec<u8>, Vec<u8>),
    Error,
>)
    requires
        op@.inputs.len() >= 2,
        op@.outputs.len() >= 1,
    ensures
        match r {
            Ok(p) => two_in(mem@, op@) == Ok::<(Seq<u8>, Seq<u8>, Seq<u8>), ErrorView>(
                (p.0@, p.1@, p.2@),
            ),
            Err(e) => two_in(mem@, op@) == Err::<(Seq<u8>, Seq<u8>, Seq<u8>), ErrorView>(e@),
        },
{
    assert(op@.inputs[0] == op.inputs@[0]@);
    assert(op@.inputs[1] == op.inputs@[1]@);
    assert(op@.outputs[0] == op.outputs@[0]@);
    let a: Vec<u8> = match find_bytes(mem, &op.inputs[0]) {
        Ok(x) => x,
        Err(e) => {
            return Err(e);
        },
    };
    let b: Vec<u8> = match find_bytes(mem, &op.inputs[1]) {
        Ok(x) => x,
        Err(e) => {
            return Err(e);
        },
    };
    match find_bytes(mem, &op.outputs[0]) {
        Ok(o) => Ok((a, b, o)),
        Err(e) => Err(e),
    }
}

/// A Relu: in place, or by a kernel.
pub open spec fn relu_step(g: GraphView, mem: Map<Seq<char>, Seq<u8>>, op: OpView) -> Result<
    StepView,
    ErrorView,
> {
    match names_checked(op, 1) {
        Err(e) => Err(e),
        Ok(_) => match one_in(mem, op) {
            Err(e) => Err(e),
            Ok((x, o)) => match float_of(g.dtype) {
                None => Err(unsupported_dtype("relu"@)),
                Some(f) => if op.inputs[0] == op.outputs[0] {
                    Ok(StepView::Write(overlaid(x, encoded(f, rectified(decoded(f, x))))))
                } else {
                    Ok(
                        StepView::Call(
                            one_call(KernelView::Relu, seq![numbers_in(f, x)], numbers_in(f, o)),
                        ),
                    )
                },
            },
        },
    }
}

fn plan_relu(graph: &Graph, mem: &NameMap<Vec<u8>>, op: &CompiledOp) -> (r: Result<Step, Error>)
    ensures
        outcome(r) == relu_step(graph@, mem@, op@),
{
    match check_names(op, 1) {
        Ok(_) => {},
        Err(e) => {
            return Err(e);
        },
    }
    assert(op@.inputs[0] == op.inputs@[0]@);
    assert(op@.outputs[0] == op.outputs@[0]@);
    match find_one(mem, op) {
        Ok((x, o)) => match to_float(graph.dtype) {
            None => Err(Error::Runtime(concat2("unsupported dtype for ", "relu"))),
            Some(f) => if str_eq(op.inputs[0].as_str(), op.outputs[0].as_str()) {
                let v: Vec<u32> = rectify(&decode(f, x.as_slice()));
                Ok(Step::Write(overlay(&x, &encode(f, &v))))
            } else {
                Ok(Step::Call(make_call_1(Kernel::Relu, to_numbers(f, &x), to_numbers(f, &o))))
            },
        },
        Err(e) => Err(e),
    }
}

/// A Sigmoid, by a kernel.
pub open spec fn sigmoid_step(g: GraphView, mem: Map<Seq<char>, Seq<u8>>, op: OpView) -> Result<
    StepView,
    ErrorView,
> {
    match names_checked(op, 1) {
        Err(e) => Err(e),
        Ok(_) => match one_in(mem, op) {
            Err(e) => Err(e),
            Ok((x, o)) => match float_of(g.dtype) {
                None => Err(unsupported_dtype("sigmoid"@)),
                Some(f) => Ok(
                    StepView::Call(
                        one_call(KernelView::Sigmoid, seq![numbers_in(f, x)], numbers_in(f, o)),
                    ),
                ),
            },
        },
    }
}

fn plan_sigmoid(graph: &Graph, mem: &NameMap<Vec<u8>>, op: &CompiledOp) -> (r: Result<Step, Error>)
    ensures
        outcome(r) == sigmoid_step(graph@, mem@, op@),
{
    match check_names(op, 1) {
        Ok(_) => {},
        Err(e) => {
            return Err(e);
        },
    }
    match find_one(mem, op) {
        Ok((x, o)) => match to_float(graph.dtype) {
            None => Err(Error::Runtime(concat2("unsupported dtype for ", "sigmoid"))),
            Some(f) => Ok(
                Step::Call(make_call_1(Kernel::Sigmoid, to_numbers(f, &x), to_numbers(f, &o))),
            ),
        },
        Err(e) => Err(e),
    }
}

/// A Clip: the input copied over the output, which then is clamped.
pub open spec fn clip_step(
    g: GraphView,
    mem: Map<Seq<char>, Seq<u8>>,
    op: OpView,
    min: u32,
    max: u32,
) -> Result<StepView, ErrorView> {
    match names_checked(op, 1) {
        Err(e) => Err(e),
        Ok(_) => match one_in(mem, op) {
            Err(e) => Err(e),
            Ok((x, o)) => if x.len() != o.len() {
                Err(bad_sizes())
            } else {
                match float_of(g.dtype) {
                    None => Err(unsupported_dtype("clip"@)),
                    Some(f) => if decoded(f, x).len() > 0 && !are_bounds(min, max) {
                        Err(ErrorView::Runtime("clip bounds are out of order"@))
                    } else {
                        Ok(StepView::Write(overlaid(x, encoded(f, clipped(decoded(f, x), min, max)))))
                    },
                }
            },
        },
    }
}

fn plan_clip(graph: &Graph, mem: &NameMap<Vec<u8>>, op: &CompiledOp, min: u32, max: u32) -> (r: Result<
    Step,
    Error,
>)
    ensures
        outcome(r) == clip_step(graph@, mem@, op@, min, max),
{
    match check_names(op, 1) {
        Ok(_) => {},
        Err(e) => {
            return Err(e);
        },
    }
    match find_one(mem, op) {
        Ok((x, o)) => {
            if x.len() != o.len() {
                return Err(err_bad_sizes());
            }
            match to_float(graph.dtype) {
                None => Err(Error::Runtime(concat2("unsupported dtype for ", "clip"))),
                Some(f) => {
                    let v: Vec<u32> = decode(f, x.as_slice());
                    if v.len() > 0 && !check_bounds(min, max) {
                        return Err(Error::Runtime("clip bounds are out of order".to_owned()));
                    }
                    Ok(Step::Write(overlay(&x, &encode(f, &clip(&v, min, max)))))
                },
            }
        },
        Err(e) => Err(e),
    }
}

/// The number of elements of a tensor with a shape.
pub open spec fn elements(s: ShapeView) -> Result<nat, ErrorView> {
    if products_fit(s.dims) {
        Ok(numel(s.dims))
    } else {
        Err(bad_sizes())
    }
}

fn count_elements(s: &TensorShape) -> (r: Result<usize, Error>)
    ensures
        match r {
            Ok(n) => elements(s@) == Ok::<nat, ErrorView>(n as nat),
            Err(e) => elements(s@) == Err::<nat, ErrorView>(e@),
        },
{
    match checked_numel(s.dims.as_slice()) {
        Some(n) => Ok(n),
        None => Err(err_bad_sizes()),
    }
}

/// The number of elements of the second operand: as many as the first has, where no shape says so.
pub open spec fn second_count(g: GraphView, name: Seq<char>, n: nat) -> Result<nat, ErrorView> {
    if g.shapes.dom().contains(name) {
        elements(g.shapes[name])
    } else {
        Ok(n)
    }
}

/// `a` combined with the first `c` numbers of `b`, which are repeated as often as it takes.
pub open spec fn repeated_step(
    f: Float,
    kind: Arithmetic,
    a: Seq<u8>,
    b: Seq<u8>,
    o: Seq<u8>,
    c: nat,
) -> Result<StepView, ErrorView> {
    let av = decoded(f, a);
    let bv = decoded(f, b);
    if av.len() == 0 || decoded(f, o).len() == 0 {
        Ok(StepView::Nothing)
    } else if c == 0 || c > bv.len() {
        Err(bad_sizes())
    } else {
        Ok(
            StepView::Write(
                overlaid(o, cut(f, o, encoded(f, broadcast_over(kind, av, bv.take(c as int))))),
            ),
        )
    }
}

/// No more bytes than a tensor's whole numbers take.
pub open spec fn cut(f: Float, o: Seq<u8>, data: Seq<u8>) -> Seq<u8> {
    let room = decoded(f, o).len() * width(f);
    if data.len() > room {
        data.take(room as int)
    } else {
        data
    }
}

/// No more bytes than a tensor's whole numbers take.
fn cut_to(f: Float, o: &Vec<u8>, data: Vec<u8>) -> (r: Vec<u8>)
    ensures
        r@ == cut(f, o@, data@),
{
    let w: usize = match f {
        Float::Single => 4,
        Float::Half => 2,
    };
    assert(o@.len() == o.len());
    proof {
        match f {
            Float::Single => {
                assert(decoded(f, o@).len() == o@.len() / 4);
            },
            Float::Half => {
                assert(decoded(f, o@).len() == o@.len() / 2);
            },
        }
    }
    let room: usize = (o.len() / w) * w;
    if data.len() > room {
        let r: Vec<u8> = vstd::slice::slice_to_vec(
            vstd::slice::slice_subrange(data.as_slice(), 0, room),
        );
        assert(r@ =~= data@.take(room as int));
        r
    } else {
        data
    }
}

fn plan_repeated(f: Float, kind: Arithmetic, a: &Vec<u8>, b: &Vec<u8>, o: &Vec<u8>, c: usize) -> (r:
    Result<Step, Error>)
    ensures
        outcome(r) == repeated_step(f, kind, a@, b@, o@, c as nat),
{
    let av: Vec<u32> = decode(f, a.as_slice());
    let bv: Vec<u32> = decode(f, b.as_slice());
    let ov: Vec<u32> = decode(f, o.as_slice());
    if av.len() == 0 || ov.len() == 0 {
        return Ok(Step::Nothing);
    }
    if c == 0 || c > bv.len() {
        return Err(err_bad_sizes());
    }
    let used: Vec<u32> = vstd::slice::slice_to_vec(
        vstd::slice::slice_subrange(bv.as_slice(), 0, c),
    );
    assert(used@ =~= bv@.take(c as int));
    let v: Vec<u32> = apply_over(kind, &av, &used);
    Ok(Step::Write(overlay(o, &cut_to(f, o, encode(f, &v)))))
}

/// An Add: by a kernel where both operands have as many elements.
pub open spec fn add_step(g: GraphView, mem: Map<Seq<char>, Seq<u8>>, op: OpView) -> Result<
    StepView,
    ErrorView,
> {
    match names_checked(op, 2) {
        Err(e) => Err(e),
        Ok(_) => match shape_at(g, op.inputs[0]) {
            Err(e) => Err(e),
            Ok(s) => match elements(s) {
                Err(e) => Err(e),
                Ok(n) => match second_count(g, op.inputs[1], n) {
                    Err(e) => Err(e),
                    Ok(c) => match two_in(mem, op) {
                        Err(e) => Err(e),
                        Ok((a, b, o)) => match float_of(g.dtype) {
                            None => Err(unsupported_dtype("add"@)),
                            Some(f) => if c == n {
                                Ok(
                                    StepView::Call(
                                        one_call(
                                            KernelView::Combine(Arithmetic::Sum),
                                            seq![numbers_in(f, a), numbers_in(f, b)],
                                            numbers_in(f, o),
                                        ),
                                    ),
                                )
                            } else {
                                repeated_step(f, Arithmetic::Sum, a, b, o, c)
                            },
                        },
                    },
                },
            },
        },
    }
}

fn plan_add(graph: &Graph, mem: &NameMap<Vec<u8>>, op: &CompiledOp) -> (r: Result<Step, Error>)
    ensures
        outcome(r) == add_step(graph@, mem@, op@),
{
    match check_names(op, 2) {
        Ok(_) => {},
        Err(e) => {
            return Err(e);
        },
    }
    assert(op@.inputs[0] == op.inputs@[0]@);
    assert(op@.inputs[1] == op.inputs@[1]@);
    let s: &TensorShape = match find_shape(graph, &op.inputs[0]) {
        Ok(s) => s,
        Err(e) => {
            return Err(e);
        },
    };
    let n: usize = match count_elements(s) {
        Ok(n) => n,
        Err(e) => {
            return Err(e);
        },
    };
    let c: usize = match graph.shapes.get(op.inputs[1].as_str()) {
        Some(sb) => match count_elements(sb) {
            Ok(n) => n,
            Err(e) => {
                return Err(e);
            },
        },
        None => n,
    };
    match find_two(mem, op) {
        Ok((a, b, o)) => match to_float(graph.dtype) {
            None => Err(Error::Runtime(concat2("unsupported dtype for ", "add"))),
            Some(f) => if c == n {
                Ok(
                    Step::Call(
                        make_call_2(
                            Kernel::Combine(Arithmetic::Sum),
                            to_numbers(f, &a),
                            to_numbers(f, &b),
                            to_numbers(f, &o),
                        ),
                    ),
                )
            } else {
                plan_repeated(f, Arithmetic::Sum, &a, &b, &o, c)
            },
        },
        Err(e) => Err(e),
    }
}

/// The name of an operation.
pub open spec fn arithmetic_name(kind: Arithmetic) -> Seq<char> {
    match kind {
        Arithmetic::Sum => "add"@,
        Arithmetic::Difference => "sub"@,
        Arithmetic::Product => "mul"@,
        Arithmetic::Quotient => "div"@,
    }
}

/// A Mul, Sub or Div: by a kernel where both tensors hold as many numbers.
pub open spec fn combine_step(
    g: GraphView,
    mem: Map<Seq<char>, Seq<u8>>,
    op: OpView,
    kind: Arithmetic,
) -> Result<StepView, ErrorView> {
    match names_checked(op, 2) {
        Err(e) => Err(e),
        Ok(_) => match shape_at(g, op.inputs[0]) {
            Err(e) => Err(e),
            Ok(s) => match two_in(mem, op) {
                Err(e) => Err(e),
                Ok((a, b, o)) => match float_of(g.dtype) {
                    None => Err(unsupported_dtype(arithmetic_name(kind))),
                    Some(f) => if decoded(f, a).len() == decoded(f, b).len() {
                        Ok(
                            StepView::Call(
                                one_call(
                                    KernelView::Combine(kind),
                                    seq![numbers_in(f, a), numbers_in(f, b)],
                                    numbers_in(f, o),
                                ),
                            ),
                        )
                    } else {
                        repeated_step(f, kind, a, b, o, decoded(f, b).len())
                    },
                },
            },
        },
    }
}

fn plan_combine(graph: &Graph, mem: &NameMap<Vec<u8>>, op: &CompiledOp, kind: Arithmetic) -> (r: Result<
    Step,
    Error,
>)
    ensures
        outcome(r) == combine_step(graph@, mem@, op@, kind),
{
    match check_names(op, 2) {
        Ok(_) => {},
        Err(e) => {
            return Err(e);
        },
    }
    assert(op@.inputs[0] == op.inputs@[0]@);
    match find_shape(graph, &op.inputs[0]) {
        Ok(_) => {},
        Err(e) => {
            return Err(e);
        },
    }
    match find_two(mem, op) {
        Ok((a, b, o)) => match to_float(graph.dtype) {
            None => {
                let name: &str = match kind {
                    Arithmetic::Sum => "add",
                    Arithmetic::Difference => "sub",
                    Arithmetic::Product => "mul",
                    Arithmetic::Quotient => "div",
                };
                Err(Error::Runtime(concat2("unsupported dtype for ", name)))
            },
            Some(f) => {
                let an: usize = decode(f, a.as_slice()).len();
                let bn: usize = decode(f, b.as_slice()).len();
                if an == bn {
                    Ok(
                        Step::Call(
                            make_call_2(
                                Kernel::Combine(kind),
                                to_numbers(f, &a),
                                to_numbers(f, &b),
                                to_numbers(f, &o),
                            ),
                        ),
                    )
                } else {
                    plan_repeated(f, kind, &a, &b, &o, bn)
                }
            },
        },
        Err(e) => Err(e),
    }
}

/// A GlobalAveragePool, channels last.
pub open spec fn global_pool_step(g: GraphView, mem: Map<Seq<char>, Seq<u8>>, op: OpView) -> Result<
    StepView,
    ErrorView,
> {
    match names_checked(op, 1) {
        Err(e) => Err(e),
        Ok(_) => match shape_at(g, op.inputs[0]) {
            Err(e) => Err(e),
            Ok(s) => if s.dims.len() != 4 {
                Err(ErrorView::Runtime("GlobalAvgPool input must be 4D"@))
            } else {
                match one_in(mem, op) {
                    Err(e) => Err(e),
                    Ok((x, o)) => match float_of(g.dtype) {
                        None => Err(unsupported_dtype("global_avg_pool"@)),
                        Some(f) => {
                            let n = s.dims[0];
                            let c = s.dims[3];
                            let per = s.dims[1] * s.dims[2];
                            let v = decoded(f, x);
                            if per > usize::MAX || n * per > usize::MAX || (n * per) * c > v.len()
                                || n * c > decoded(f, o).len() {
                                Err(bad_sizes())
                            } else {
                                Ok(
                                    StepView::Write(
                                        overlaid(
                                            o,
                                            encoded(
                                                f,
                                                last_channel_means(
                                                    v,
                                                    n as nat,
                                                    per as nat,
                                                    c as nat,
                                                ),
                                            ),
                                        ),
                                    ),
                                )
                            }
                        },
                    },
                }
            },
        },
    }
}

fn plan_global_pool(graph: &Graph, mem: &NameMap<Vec<u8>>, op: &CompiledOp) -> (r: Result<
    Step,
    Error,
>)
    ensures
        outcome(r) == global_pool_step(graph@, mem@, op@),
{
    match check_names(op, 1) {
        Ok(_) => {},
        Err(e) => {
            return Err(e);
        },
    }
    assert(op@.inputs[0] == op.inputs@[0]@);
    let s: &TensorShape = match find_shape(graph, &op.inputs[0]) {
        Ok(s) => s,
        Err(e) => {
            return Err(e);
        },
    };
    if s.dims.len() != 4 {
        return Err(Error::Runtime("GlobalAvgPool input must be 4D".to_owned()));
    }
    match find_one(mem, op) {
        Ok((x, o)) => {
            let f: Float = match to_float(graph.dtype) {
                None => {
                    return Err(
                        Error::Runtime(concat2("unsupported dtype for ", "global_avg_pool")),
                    );
                },
                Some(f) => f,
            };
            let n: usize = s.dims[0];
            let c: usize = s.dims[3];
            let v: Vec<u32> = decode(f, x.as_slice());
            let ov: Vec<u32> = decode(f, o.as_slice());
            let per: usize = match s.dims[1].checked_mul(s.dims[2]) {
                Some(p) => p,
                None => {
                    return Err(err_bad_sizes());
                },
            };
            let all: usize = match n.checked_mul(per) {
                Some(p) => p,
                None => {
                    return Err(err_bad_sizes());
                },
            };
            assert(ov@.len() == ov.len());
            if !product_fits(all, c, v.len()) || !product_fits(n, c, ov.len()) {
                return Err(err_bad_sizes());
            }
            let means: Vec<u32> = average_last_channels(&v, n, per, c);
            Ok(Step::Write(overlay(&o, &encode(f, &means))))
        },
        Err(e) => Err(e),
    }
}

// ---------------------------------------------------------------------------
// Products
// ---------------------------------------------------------------------------

/// A Gemm or MatMul: by a kernel where neither factor is transposed; the bias is
/// added once the kernel has returned.
pub open spec fn gemm_step(
    g: GraphView,
    mem: Map<Seq<char>, Seq<u8>>,
    op: OpView,
    trans_a: bool,
    trans_b: bool,
    threads: usize,
) -> Result<StepView, ErrorView> {
    match names_checked(op, 2) {
        Err(e) => Err(e),
        Ok(_) => match shape_at(g, op.inputs[0]) {
            Err(e) => Err(e),
            Ok(sa) => match shape_at(g, op.inputs[1]) {
                Err(e) => Err(e),
                Ok(sb) => if sa.dims.len() != 2 || sb.dims.len() != 2 {
                    Err(ErrorView::Runtime("Gemm inputs must be 2D"@))
                } else {
                    let (m, n, k) = product_sizes(sa, sb, trans_a, trans_b);
                    match two_in(mem, op) {
                        Err(e) => Err(e),
                        Ok((a, b, o)) => match float_of(g.dtype) {
                            None => Err(unsupported_dtype("gemm"@)),
                            Some(f) => if !trans_a && !trans_b {
                                Ok(
                                    StepView::Call(
                                        one_call(
                                            KernelView::Gemm {
                                                m: m as usize,
                                                n: n as usize,
                                                k: k as usize,
                                                threads: Threads::Threaded(threads),
                                            },
                                            seq![numbers_in(f, a), numbers_in(f, b)],
                                            numbers_in(f, o),
                                        ),
                                    ),
                                )
                            } else {
                                let av = decoded(f, a);
                                let bv = decoded(f, b);
                                let bias = third_input(mem, op);
                                if !product_there(f, (m, n, k), av, bv, bias, o.len()) {
                                    Err(bad_sizes())
                                } else {
                                    let p = Product { m, n, k, trans_a, trans_b };
                                    Ok(
                                        StepView::Write(
                                            overlaid(
                                                o,
                                                encoded(
                                                    f,
                                                    product_numbers(f, p, av, bv, bias),
                                                ),
                                            ),
                                        ),
                                    )
                                }
                            },
                        },
                    }
                },
            },
        },
    }
}

fn plan_gemm(
    graph: &Graph,
    mem: &NameMap<Vec<u8>>,
    op: &CompiledOp,
    trans_a: bool,
    trans_b: bool,
    threads: usize,
) -> (r: Result<Step, Error>)
    ensures
        outcome(r) == gemm_step(graph@, mem@, op@, trans_a, trans_b, threads),
{
    match check_names(op, 2) {
        Ok(_) => {},
        Err(e) => {
            return Err(e);
        },
    }
    assert(op@.inputs[0] == op.inputs@[0]@);
    assert(op@.inputs[1] == op.inputs@[1]@);
    let sa: &TensorShape = match find_shape(graph, &op.inputs[0]) {
        Ok(s) => s,
        Err(e) => {
            return Err(e);
        },
    };
    let sb: &TensorShape = match find_shape(graph, &op.inputs[1]) {
        Ok(s) => s,
        Err(e) => {
            return Err(e);
        },
    };
    if sa.dims.len() != 2 || sb.dims.len() != 2 {
        return Err(Error::Runtime("Gemm inputs must be 2D".to_owned()));
    }
    let m: usize = if trans_a {
        sa.dims[1]
    } else {
        sa.dims[0]
    };
    let k: usize = if trans_a {
        sa.dims[0]
    } else {
        sa.dims[1]
    };
    let n: usize = if trans_b {
        sb.dims[0]
    } else {
        sb.dims[1]
    };
    match find_two(mem, op) {
        Ok((a, b, o)) => {
            let f: Float = match to_float(graph.dtype) {
                None => {
                    return Err(Error::Runtime(concat2("unsupported dtype for ", "gemm")));
                },
                Some(f) => f,
            };
            if !trans_a && !trans_b {
                return Ok(
                    Step::Call(
                        make_call_2(
                            Kernel::Gemm { m, n, k, threads: Threads::Threaded(threads) },
                            to_numbers(f, &a),
                            to_numbers(f, &b),
                            to_numbers(f, &o),
                        ),
                    ),
                );
            }
            let bias: Option<Vec<u8>> = find_third(mem, op);
            let av: Vec<u32> = decode(f, a.as_slice());
            let bv: Vec<u32> = decode(f, b.as_slice());
            match compute_product(f, &av, &bv, &bias, m, n, k, trans_a, trans_b, o.len()) {
                Some(v) => Ok(Step::Write(overlay(&o, &encode(f, &v)))),
                None => Err(err_bad_sizes()),
            }
        },
        Err(e) => Err(e),
    }
}

/// Whether a convolution treats every channel by itself.
pub open spec fn is_depthwise(group: usize, c_in: usize) -> bool {
    group == c_in && group > 1
}

/// A convolution, by a kernel: a plain one or a depthwise one. The bias is added
/// once the kernel has returned.
pub open spec fn conv_step(
    g: GraphView,
    mem: Map<Seq<char>, Seq<u8>>,
    op: OpView,
    kernel: Seq<usize>,
    strides: Seq<usize>,
    pads: Seq<usize>,
    group: usize,
    threads: usize,
) -> Result<StepView, ErrorView> {
    match names_checked(op, 2) {
        Err(e) => Err(e),
        Ok(_) => match shape_at(g, op.inputs[0]) {
            Err(e) => Err(e),
            Ok(sx) => match shape_at(g, op.outputs[0]) {
                Err(e) => Err(e),
                Ok(so) => match shape_at(g, op.inputs[1]) {
                    Err(e) => Err(e),
                    Ok(sw) => if sx.dims.len() != 4 {
                        Err(ErrorView::Runtime("Conv2d input must be 4D"@))
                    } else if so.dims.len() < 4 {
                        Err(bad_sizes())
                    } else {
                        let c_in = sx.dims[3];
                        let c_out = so.dims[3];
                        match two_in(mem, op) {
                            Err(e) => Err(e),
                            Ok((x, w, o)) => if group != 1 && !is_depthwise(group, c_in) {
                                Err(
                                    ErrorView::Runtime(
                                        "general grouped convolution not yet supported (group="@
                                            + dec_int(group as int) + ", c_in="@ + dec_int(
                                            c_in as int,
                                        ) + ")"@,
                                    ),
                                )
                            } else {
                                match float_of(g.dtype) {
                                    None => Err(unsupported_dtype("conv2d"@)),
                                    Some(f) => {
                                        let depthwise = is_depthwise(group, c_in);
                                        let image = Image {
                                            n: sx.dims[0],
                                            h_in: sx.dims[1],
                                            w_in: sx.dims[2],
                                            c_in,
                                            c_out: if depthwise {
                                                c_out / c_in
                                            } else {
                                                c_out
                                            },
                                            k_h: kernel[0],
                                            k_w: kernel[1],
                                            stride_h: strides[0],
                                            stride_w: strides[1],
                                            pad_h: pads[0],
                                            pad_w: pads[1],
                                        };
                                        Ok(
                                            StepView::Call(
                                                one_call(
                                                    if depthwise {
                                                        KernelView::DepthwiseConv {
                                                            image,
                                                            threads: Threads::Threaded(threads),
                                                        }
                                                    } else {
                                                        KernelView::Conv { image, threads: Threads::Threaded(threads) }
                                                    },
                                                    seq![numbers_in(f, x), numbers_in(f, w)],
                                                    numbers_in(f, o),
                                                ),
                                            ),
                                        )
                                    },
                                }
                            },
                        }
                    },
                },
            },
        },
    }
}

fn plan_conv(
    graph: &Graph,
    mem: &NameMap<Vec<u8>>,
    op: &CompiledOp,
    kernel: &[usize; 2],
    strides: &[usize; 2],
    pads: &[usize; 4],
    group: usize,
    threads: usize,
) -> (r: Result<Step, Error>)
    ensures
        outcome(r) == conv_step(graph@, mem@, op@, kernel@, strides@, pads@, group, threads),
{
    match check_names(op, 2) {
        Ok(_) => {},
        Err(e) => {
            return Err(e);
        },
    }
    assert(op@.inputs[0] == op.inputs@[0]@);
    assert(op@.inputs[1] == op.inputs@[1]@);
    assert(op@.outputs[0] == op.outputs@[0]@);
    let sx: &TensorShape = match find_shape(graph, &op.inputs[0]) {
        Ok(s) => s,
        Err(e) => {
            return Err(e);
        },
    };
    let so: &TensorShape = match find_shape(graph, &op.outputs[0]) {
        Ok(s) => s,
        Err(e) => {
            return Err(e);
        },
    };
    match find_shape(graph, &op.inputs[1]) {
        Ok(_) => {},
        Err(e) => {
            return Err(e);
        },
    }
    if sx.dims.len() != 4 {
        return Err(Error::Runtime("Conv2d input must be 4D".to_owned()));
    }
    if so.dims.len() < 4 {
        return Err(err_bad_sizes());
    }
    let c_in: usize = sx.dims[3];
    let c_out: usize = so.dims[3];
    match find_two(mem, op) {
        Ok((x, w, o)) => {
            let depthwise: bool = group == c_in && group > 1;
            if group != 1 && !depthwise {
                let gt: String = dec_usize(group);
                let ct: String = dec_usize(c_in);
                let mut text: String = concat4(
                    "general grouped convolution not yet supported (group=",
                    gt.as_str(),
                    ", c_in=",
                    ct.as_str(),
                );
                text.append(")");
                return Err(Error::Runtime(text));
            }
            match to_float(graph.dtype) {
                None => Err(Error::Runtime(concat2("unsupported dtype for ", "conv2d"))),
                Some(f) => {
                    let image: Image = Image {
                        n: sx.dims[0],
                        h_in: sx.dims[1],
                        w_in: sx.dims[2],
                        c_in,
                        c_out: if depthwise {
                            c_out / c_in
                        } else {
                            c_out
                        },
                        k_h: kernel[0],
                        k_w: kernel[1],
                        stride_h: strides[0],
                        stride_w: strides[1],
                        pad_h: pads[0],
                        pad_w: pads[1],
                    };
                    let k: Kernel = if depthwise {
                        Kernel::DepthwiseConv { image, threads: Threads::Threaded(threads) }
                    } else {
                        Kernel::Conv { image, threads: Threads::Threaded(threads) }
                    };
                    Ok(
                        Step::Call(
                            make_call_2(k, to_numbers(f, &x), to_numbers(f, &w), to_numbers(f, &o)),
                        ),
                    )
                },
            }
        },
        Err(e) => Err(e),
    }
}

// ---------------------------------------------------------------------------
// Kernels that know singles only
// ---------------------------------------------------------------------------

/// Work for a kernel that knows singles only: halves are converted, and the
/// kernel writes to fresh zeros.
pub open spec fn single_call(
    f: Float,
    kernel: KernelView,
    x: Seq<u8>,
    o: Seq<u8>,
    fresh: nat,
) -> StepView {
    match f {
        Float::Single => StepView::Call(
            one_call(kernel, seq![numbers_in(f, x)], numbers_in(f, o)),
        ),
        Float::Half => StepView::Call(
            one_call(kernel, seq![NumbersView::Singles(decoded(f, x))], zero_singles(fresh)),
        ),
    }
}

fn plan_single(f: Float, kernel: Kernel, x: &Vec<u8>, o: &Vec<u8>, fresh: usize) -> (r: Step)
    ensures
        r@ == single_call(f, kernel@, x@, o@, fresh as nat),
{
    match f {
        Float::Single => Step::Call(make_call_1(kernel, to_numbers(f, x), to_numbers(f, o))),
        Float::Half => Step::Call(
            make_call_1(
                kernel,
                Numbers::Singles(decode(f, x.as_slice())),
                Numbers::Singles(zeros(fresh)),
            ),
        ),
    }
}

/// A Softmax along the last axis.
pub open spec fn softmax_step(g: GraphView, mem: Map<Seq<char>, Seq<u8>>, op: OpView) -> Result<
    StepView,
    ErrorView,
> {
    match names_checked(op, 1) {
        Err(e) => Err(e),
        Ok(_) => match shape_at(g, op.inputs[0]) {
            Err(e) => Err(e),
            Ok(s) => match one_in(mem, op) {
                Err(e) => Err(e),
                Ok((x, o)) => match float_of(g.dtype) {
                    None => Err(unsupported_dtype("softmax"@)),
                    Some(f) => Ok(
                        single_call(
                            f,
                            KernelView::Softmax { last_dim: last_dim(s.dims) },
                            x,
                            o,
                            decoded(f, x).len(),
                        ),
                    ),
                },
            },
        },
    }
}

fn plan_softmax(graph: &Graph, mem: &NameMap<Vec<u8>>, op: &CompiledOp) -> (r: Result<Step, Error>)
    ensures
        outcome(r) == softmax_step(graph@, mem@, op@),
{
    match check_names(op, 1) {
        Ok(_) => {},
        Err(e) => {
            return Err(e);
        },
    }
    assert(op@.inputs[0] == op.inputs@[0]@);
    let s: &TensorShape = match find_shape(graph, &op.inputs[0]) {
        Ok(s) => s,
        Err(e) => {
            return Err(e);
        },
    };
    match find_one(mem, op) {
        Ok((x, o)) => match to_float(graph.dtype) {
            None => Err(Error::Runtime(concat2("unsupported dtype for ", "softmax"))),
            Some(f) => {
                let n: usize = if s.dims.len() == 0 {
                    1
                } else {
                    s.dims[s.dims.len() - 1]
                };
                let fresh: usize = decode(f, x.as_slice()).len();
                Ok(plan_single(f, Kernel::Softmax { last_dim: n }, &x, &o, fresh))
            },
        },
        Err(e) => Err(e),
    }
}

/// A Reshape or Flatten: a copy, unless input and output are one tensor.
pub open spec fn reshape_step(mem: Map<Seq<char>, Seq<u8>>, op: OpView) -> Result<StepView, ErrorView> {
    match names_checked(op, 1) {
        Err(e) => Err(e),
        Ok(_) => if op.inputs[0] == op.outputs[0] {
            Ok(StepView::Nothing)
        } else {
            match one_in(mem, op) {
                Err(e) => Err(e),
                Ok((x, o)) => if x.len() != o.len() {
                    Err(bad_sizes())
                } else {
                    Ok(StepView::Write(x))
                },
            }
        },
    }
}

fn plan_reshape(mem: &NameMap<Vec<u8>>, op: &CompiledOp) -> (r: Result<Step, Error>)
    ensures
        outcome(r) == reshape_step(mem@, op@),
{
    match check_names(op, 1) {
        Ok(_) => {},
        Err(e) => {
            return Err(e);
        },
    }
    assert(op@.inputs[0] == op.inputs@[0]@);
    assert(op@.outputs[0] == op.outputs@[0]@);
    if str_eq(op.inputs[0].as_str(), op.outputs[0].as_str()) {
        return Ok(Step::Nothing);
    }
    match find_one(mem, op) {
        Ok((x, o)) => if x.len() != o.len() {
            Err(err_bad_sizes())
        } else {
            Ok(Step::Write(x))
        },
        Err(e) => Err(e),
    }
}

/// How many times a window fits: none where it does not fit once.
pub open spec fn window_count(size: usize, kernel: usize, stride: usize) -> Option<int> {
    if kernel > size || stride == 0 {
        None
    } else {
        Some((size - kernel) / stride as int + 1)
    }
}

fn count_windows(size: usize, kernel: usize, stride: usize) -> (r: Option<u128>)
    ensures
        match r {
            Some(n) => window_count(size, kernel, stride) == Some(n as int) && n <= usize::MAX + 1,
            None => window_count(size, kernel, stride) is None,
        },
{
    if kernel > size || stride == 0 {
        None
    } else {
        let q: usize = (size - kernel) / stride;
        Some(q as u128 + 1)
    }
}

/// A MaxPool or AveragePool, channels last.
pub open spec fn pool_step(
    g: GraphView,
    mem: Map<Seq<char>, Seq<u8>>,
    op: OpView,
    max: bool,
    kernel: Seq<usize>,
    strides: Seq<usize>,
) -> Result<StepView, ErrorView> {
    match names_checked(op, 1) {
        Err(e) => Err(e),
        Ok(_) => match shape_at(g, op.inputs[0]) {
            Err(e) => Err(e),
            Ok(s) => if s.dims.len() != 4 {
                Err(
                    ErrorView::Runtime(
                        if max {
                            "MaxPool input must be 4D"@
                        } else {
                            "AvgPool input must be 4D"@
                        },
                    ),
                )
            } else {
                match one_in(mem, op) {
                    Err(e) => Err(e),
                    Ok((x, o)) => match float_of(g.dtype) {
                        None => Err(
                            unsupported_dtype(
                                if max {
                                    "maxpool"@
                                } else {
                                    "avgpool"@
                                },
                            ),
                        ),
                        Some(f) => {
                            let image = Image {
                                n: s.dims[0],
                                h_in: s.dims[1],
                                w_in: s.dims[2],
                                c_in: s.dims[3],
                                c_out: s.dims[3],
                                k_h: kernel[0],
                                k_w: kernel[1],
                                stride_h: strides[0],
                                stride_w: strides[1],
                                pad_h: 0,
                                pad_w: 0,
                            };
                            let k = if max {
                                KernelView::MaxPool { image }
                            } else {
                                KernelView::AvgPool { image }
                            };
                            match f {
                                Float::Single => Ok(single_call(f, k, x, o, 0)),
                                Float::Half => match (
                                    window_count(s.dims[1], kernel[0], strides[0]),
                                    window_count(s.dims[2], kernel[1], strides[1]),
                                ) {
                                    (Some(h), Some(w)) => {
                                        let fresh = ((s.dims[0] * h) * w) * s.dims[3];
                                        if fresh_fits(s.dims[0], h, w, s.dims[3]) {
                                            Ok(single_call(f, k, x, o, fresh as nat))
                                        } else {
                                            Err(bad_sizes())
                                        }
                                    },
                                    _ => Err(bad_sizes()),
                                },
                            }
                        },
                    },
                }
            },
        },
    }
}

/// The product of four sizes, and every product on the way, is an index-sized number.
pub open spec fn fresh_fits(n: usize, h: int, w: int, c: usize) -> bool {
    &&& h <= usize::MAX
    &&& w <= usize::MAX
    &&& n * h <= usize::MAX
    &&& (n * h) * w <= usize::MAX
    &&& ((n * h) * w) * c <= usize::MAX
}

pub(crate) fn count_fresh(n: usize, h: u128, w: u128, c: usize) -> (r: Option<usize>)
    ensures
        match r {
            Some(t) => fresh_fits(n, h as int, w as int, c) && t == ((n * h) * w) * c,
            None => !fresh_fits(n, h as int, w as int, c),
        },
{
    if h > usize::MAX as u128 || w > usize::MAX as u128 {
        return None;
    }
    let hs: usize = h as usize;
    let ws: usize = w as usize;
    checked_volume(n, hs, ws, c)
}

fn plan_pool(
    graph: &Graph,
    mem: &NameMap<Vec<u8>>,
    op: &CompiledOp,
    max: bool,
    kernel: &[usize; 2],
    strides: &[usize; 2],
) -> (r: Result<Step, Error>)
    ensures
        outcome(r) == pool_step(graph@, mem@, op@, max, kernel@, strides@),
{
    match check_names(op, 1) {
        Ok(_) => {},
        Err(e) => {
            return Err(e);
        },
    }
    assert(op@.inputs[0] == op.inputs@[0]@);
    let s: &TensorShape = match find_shape(graph, &op.inputs[0]) {
        Ok(s) => s,
        Err(e) => {
            return Err(e);
        },
    };
    if s.dims.len() != 4 {
        return Err(
            Error::Runtime(
                if max {
                    "MaxPool input must be 4D".to_owned()
                } else {
                    "AvgPool input must be 4D".to_owned()
                },
            ),
        );
    }
    match find_one(mem, op) {
        Ok((x, o)) => match to_float(graph.dtype) {
            None => Err(
                Error::Runtime(
                    concat2(
                        "unsupported dtype for ",
                        if max {
                            "maxpool"
                        } else {
                            "avgpool"
                        },
                    ),
                ),
            ),
            Some(f) => {
                let image: Image = Image {
                    n: s.dims[0],
                    h_in: s.dims[1],
                    w_in: s.dims[2],
                    c_in: s.dims[3],
                    c_out: s.dims[3],
                    k_h: kernel[0],
                    k_w: kernel[1],
                    stride_h: strides[0],
                    stride_w: strides[1],
                    pad_h: 0,
                    pad_w: 0,
                };
                let k: Kernel = if max {
                    Kernel::MaxPool { image }
                } else {
                    Kernel::AvgPool { image }
                };
                match f {
                    Float::Single => Ok(plan_single(f, k, &x, &o, 0)),
                    Float::Half => match (
                        count_windows(s.dims[1], kernel[0], strides[0]),
                        count_windows(s.dims[2], kernel[1], strides[1]),
                    ) {
                        (Some(h), Some(w)) => match count_fresh(s.dims[0], h, w, s.dims[3]) {
                            Some(fresh) => Ok(plan_single(f, k, &x, &o, fresh)),
                            None => Err(err_bad_sizes()),
                        },
                        _ => Err(err_bad_sizes()),
                    },
                }
            },
        },
        Err(e) => Err(e),
    }
}

/// A Resize, channels last.
pub open spec fn resize_step(
    g: GraphView,
    mem: Map<Seq<char>, Seq<u8>>,
    op: OpView,
    out_h: usize,
    out_w: usize,
    mode: Seq<char>,
) -> Result<StepView, ErrorView> {
    match names_checked(op, 1) {
        Err(e) => Err(e),
        Ok(_) => match shape_at(g, op.inputs[0]) {
            Err(e) => Err(e),
            Ok(s) => if s.dims.len() != 4 {
                Err(ErrorView::Runtime("Resize input must be 4D"@))
            } else if mode != "nearest"@ && mode != "linear"@ {
                Err(ErrorView::Runtime("unsupported resize mode: "@ + mode))
            } else {
                match one_in(mem, op) {
                    Err(e) => Err(e),
                    Ok((x, o)) => match float_of(g.dtype) {
                        None => Err(unsupported_dtype("resize"@)),
                        Some(f) => {
                            let image = Image {
                                n: s.dims[0],
                                h_in: s.dims[1],
                                w_in: s.dims[2],
                                c_in: s.dims[3],
                                c_out: s.dims[3],
                                k_h: 1,
                                k_w: 1,
                                stride_h: 1,
                                stride_w: 1,
                                pad_h: 0,
                                pad_w: 0,
                            };
                            let k = KernelView::Resize {
                                image,
                                out_h,
                                out_w,
                                linear: mode != "nearest"@,
                            };
                            match f {
                                Float::Single => Ok(single_call(f, k, x, o, 0)),
                                Float::Half => if fresh_fits(
                                    s.dims[0],
                                    out_h as int,
                                    out_w as int,
                                    s.dims[3],
                                ) {
                                    Ok(
                                        single_call(
                                            f,
                                            k,
                                            x,
                                            o,
                                            (((s.dims[0] * out_h) * out_w) * s.dims[3]) as nat,
                                        ),
                                    )
                                } else {
                                    Err(bad_sizes())
                                },
                            }
                        },
                    },
                }
            },
        },
    }
}

fn plan_resize(
    graph: &Graph,
    mem: &NameMap<Vec<u8>>,
    op: &CompiledOp,
    out_h: usize,
    out_w: usize,
    mode: &String,
) -> (r: Result<Step, Error>)
    ensures
        outcome(r) == resize_step(graph@, mem@, op@, out_h, out_w, mode@),
{
    match check_names(op, 1) {
        Ok(_) => {},
        Err(e) => {
            return Err(e);
        },
    }
    assert(op@.inputs[0] == op.inputs@[0]@);
    let s: &TensorShape = match find_shape(graph, &op.inputs[0]) {
        Ok(s) => s,
        Err(e) => {
            return Err(e);
        },
    };
    if s.dims.len() != 4 {
        return Err(Error::Runtime("Resize input must be 4D".to_owned()));
    }
    let nearest: bool = str_eq(mode.as_str(), "nearest");
    if !nearest && !str_eq(mode.as_str(), "linear") {
        return Err(Error::Runtime(concat2("unsupported resize mode: ", mode.as_str())));
    }
    match find_one(mem, op) {
        Ok((x, o)) => match to_float(graph.dtype) {
            None => Err(Error::Runtime(concat2("unsupported dtype for ", "resize"))),
            Some(f) => {
                let image: Image = Image {
                    n: s.dims[0],
                    h_in: s.dims[1],
                    w_in: s.dims[2],
                    c_in: s.dims[3],
                    c_out: s.dims[3],
                    k_h: 1,
                    k_w: 1,
                    stride_h: 1,
                    stride_w: 1,
                    pad_h: 0,
                    pad_w: 0,
                };
                let k: Kernel = Kernel::Resize { image, out_h, out_w, linear: !nearest };
                match f {
                    Float::Single => Ok(plan_single(f, k, &x, &o, 0)),
                    Float::Half => match count_fresh(
                        s.dims[0],
                        out_h as u128,
                        out_w as u128,
                        s.dims[3],
                    ) {
                        Some(fresh) => Ok(plan_single(f, k, &x, &o, fresh)),
                        None => Err(err_bad_sizes()),
                    },
                }
            },
        },
        Err(e) => Err(e),
    }
}

/// A Transpose of four dimensions.
pub open spec fn transpose_step(
    g: GraphView,
    mem: Map<Seq<char>, Seq<u8>>,
    op: OpView,
    perm: Seq<usize>,
) -> Result<StepView, ErrorView> {
    match names_checked(op, 1) {
        Err(e) => Err(e),
        Ok(_) => match shape_at(g, op.inputs[0]) {
            Err(e) => Err(e),
            Ok(s) => if s.dims.len() != 4 {
                Err(ErrorView::Runtime("Transpose only supports 4D tensors"@))
            } else if perm.len() < 4 {
                Err(bad_sizes())
            } else {
                match one_in(mem, op) {
                    Err(e) => Err(e),
                    Ok((x, o)) => match float_of(g.dtype) {
                        None => Err(unsupported_dtype("transpose"@)),
                        Some(f) => Ok(
                            single_call(
                                f,
                                KernelView::Transpose { shape: s.dims, perm: perm.take(4) },
                                x,
                                o,
                                decoded(f, x).len(),
                            ),
                        ),
                    },
                }
            },
        },
    }
}

fn plan_transpose(graph: &Graph, mem: &NameMap<Vec<u8>>, op: &CompiledOp, perm: &Vec<usize>) -> (r:
    Result<Step, Error>)
    ensures
        outcome(r) == transpose_step(graph@, mem@, op@, perm@),
{
    match check_names(op, 1) {
        Ok(_) => {},
        Err(e) => {
            return Err(e);
        },
    }
    assert(op@.inputs[0] == op.inputs@[0]@);
    let s: &TensorShape = match find_shape(graph, &op.inputs[0]) {
        Ok(s) => s,
        Err(e) => {
            return Err(e);
        },
    };
    if s.dims.len() != 4 {
        return Err(Error::Runtime("Transpose only supports 4D tensors".to_owned()));
    }
    if perm.len() < 4 {
        return Err(err_bad_sizes());
    }
    match find_one(mem, op) {
        Ok((x, o)) => match to_float(graph.dtype) {
            None => Err(Error::Runtime(concat2("unsupported dtype for ", "transpose"))),
            Some(f) => {
                let order: Vec<usize> = vstd::slice::slice_to_vec(
                    vstd::slice::slice_subrange(perm.as_slice(), 0, 4),
                );
                assert(order@ =~= perm@.take(4));
                let fresh: usize = decode(f, x.as_slice()).len();
                let k: Kernel = Kernel::Transpose { shape: copy_vec(&s.dims), perm: order };
                Ok(plan_single(f, k, &x, &o, fresh))
            },
        },
        Err(e) => Err(e),
    }
}

/// A Slice of four dimensions.
pub open spec fn slice_step(
    g: GraphView,
    mem: Map<Seq<char>, Seq<u8>>,
    op: OpView,
    starts: Seq<isize>,
    ends: Seq<isize>,
    axes: Seq<usize>,
    steps: Seq<isize>,
) -> Result<StepView, ErrorView> {
    match names_checked(op, 1) {
        Err(e) => Err(e),
        Ok(_) => match shape_at(g, op.inputs[0]) {
            Err(e) => Err(e),
            Ok(s) => if s.dims.len() != 4 {
                Err(ErrorView::Runtime("Slice only supports 4D tensors"@))
            } else {
                match one_in(mem, op) {
                    Err(e) => Err(e),
                    Ok((x, o)) => match float_of(g.dtype) {
                        None => Err(unsupported_dtype("slice"@)),
                        Some(f) => Ok(
                            single_call(
                                f,
                                KernelView::Slice { shape: s.dims, starts, ends, axes, steps },
                                x,
                                o,
                                decoded(f, o).len(),
                            ),
                        ),
                    },
                }
            },
        },
    }
}

fn plan_slice(
    graph: &Graph,
    mem: &NameMap<Vec<u8>>,
    op: &CompiledOp,
    starts: &Vec<isize>,
    ends: &Vec<isize>,
    axes: &Vec<usize>,
    steps: &Vec<isize>,
) -> (r: Result<Step, Error>)
    ensures
        outcome(r) == slice_step(graph@, mem@, op@, starts@, ends@, axes@, steps@),
{
    match check_names(op, 1) {
        Ok(_) => {},
        Err(e) => {
            return Err(e);
        },
    }
    assert(op@.inputs[0] == op.inputs@[0]@);
    let s: &TensorShape = match find_shape(graph, &op.inputs[0]) {
        Ok(s) => s,
        Err(e) => {
            return Err(e);
        },
    };
    if s.dims.len() != 4 {
        return Err(Error::Runtime("Slice only supports 4D tensors".to_owned()));
    }
    match find_one(mem, op) {
        Ok((x, o)) => match to_float(graph.dtype) {
            None => Err(Error::Runtime(concat2("unsupported dtype for ", "slice"))),
            Some(f) => {
                let fresh: usize = decode(f, o.as_slice()).len();
                let k: Kernel = Kernel::Slice {
                    shape: copy_vec(&s.dims),
                    starts: copy_vec(starts),
                    ends: copy_vec(ends),
                    axes: copy_vec(axes),
                    steps: copy_vec(steps),
                };
                Ok(plan_single(f, k, &x, &o, fresh))
            },
        },
        Err(e) => Err(e),
    }
}

// ---------------------------------------------------------------------------
// Several tensors
// ---------------------------------------------------------------------------

/// Four dimensions: as many ones in front as it takes.
pub open spec fn padded_dims(dims: Seq<usize>) -> Seq<usize> {
    Seq::new((4 - dims.len()) as nat, |i: int| 1usize) + dims
}

pub(crate) fn pad_dims(dims: &Vec<usize>) -> (r: Vec<usize>)
    requires
        dims@.len() <= 4,
    ensures
        r@ == padded_dims(dims@),
{
    let mut r: Vec<usize> = Vec::new();
    let front: usize = 4 - dims.len();
    let mut i: usize = 0;
    while i < front
        invariant
            i <= front,
            r@ == Seq::new(i as nat, |i: int| 1usize),
        decreases front - i,
    {
        r.push(1);
        i = i + 1;
        assert(r@ =~= Seq::new(i as nat, |i: int| 1usize));
    }
    let mut k: usize = 0;
    while k < dims.len()
        invariant
            k <= dims@.len(),
            front == 4 - dims@.len(),
            r@ == Seq::new(front as nat, |i: int| 1usize) + dims@.take(k as int),
        decreases dims@.len() - k,
    {
        r.push(dims[k]);
        k = k + 1;
        assert(r@ =~= Seq::new(front as nat, |i: int| 1usize) + dims@.take(k as int));
    }
    assert(dims@.take(k as int) =~= dims@);
    assert(r@ =~= padded_dims(dims@));
    r
}

/// The padded shapes of the first `n` inputs and their bytes.
pub open spec fn concat_inputs(
    g: GraphView,
    mem: Map<Seq<char>, Seq<u8>>,
    names: Seq<Seq<char>>,
    n: nat,
) -> Result<(Seq<Seq<usize>>, Seq<Seq<u8>>), ErrorView>
    decreases n,
{
    if n == 0 {
        Ok((Seq::empty(), Seq::empty()))
    } else {
        match concat_inputs(g, mem, names, (n - 1) as nat) {
            Err(e) => Err(e),
            Ok((shapes, data)) => match shape_at(g, names[n - 1]) {
                Err(e) => Err(e),
                Ok(s) => if s.dims.len() > 4 {
                    Err(bad_sizes())
                } else {
                    match bytes_of(mem, names[n - 1]) {
                        Err(e) => Err(e),
                        Ok(d) => Ok((shapes.push(padded_dims(s.dims)), data.push(d))),
                    }
                },
            },
        }
    }
}

proof fn lemma_concat_stopped(
    g: GraphView,
    mem: Map<Seq<char>, Seq<u8>>,
    names: Seq<Seq<char>>,
    n: nat,
    m: nat,
)
    requires
        n <= m,
    ensures
        concat_inputs(g, mem, names, n) is Err ==> concat_inputs(g, mem, names, m)
            == concat_inputs(g, mem, names, n),
    decreases m,
{
    if n < m {
        lemma_concat_stopped(g, mem, names, n, (m - 1) as nat);
    }
}

/// The numbers in byte strings, as a kernel takes them.
pub open spec fn all_numbers(f: Float, data: Seq<Seq<u8>>) -> Seq<NumbersView> {
    data.map_values(|d: Seq<u8>| numbers_in(f, d))
}

/// A Concat.
pub open spec fn concat_step(
    g: GraphView,
    mem: Map<Seq<char>, Seq<u8>>,
    op: OpView,
    axis: usize,
) -> Result<StepView, ErrorView> {
    if op.outputs.len() == 0 {
        Err(no_output())
    } else {
        match concat_inputs(g, mem, op.inputs, op.inputs.len()) {
            Err(e) => Err(e),
            Ok((shapes, data)) => match bytes_of(mem, op.outputs[0]) {
                Err(e) => Err(e),
                Ok(o) => match float_of(g.dtype) {
                    None => Err(unsupported_dtype("concat"@)),
                    Some(f) => Ok(
                        StepView::Call(
                            one_call(
                                KernelView::Concat { shapes, axis },
                                all_numbers(f, data),
                                numbers_in(f, o),
                            ),
                        ),
                    ),
                },
            },
        }
    }
}

fn to_all_numbers(f: Float, data: &Vec<Vec<u8>>) -> (r: Vec<Numbers>)
    ensures
        views(r@) == all_numbers(f, views(data@)),
{
    let ghost all = all_numbers(f, views(data@));
    let mut r: Vec<Numbers> = Vec::new();
    assert(views(r@) =~= all.take(0));
    let mut i: usize = 0;
    while i < data.len()
        invariant
            i <= data@.len(),
            all == all_numbers(f, views(data@)),
            views(r@) == all.take(i as int),
        decreases data@.len() - i,
    {
        assert(views(data@)[i as int] == data@[i as int]@);
        let ghost before = views(r@);
        r.push(to_numbers(f, &data[i]));
        i = i + 1;
        assert(views(r@) =~= before.push(all[i - 1]));
        assert(views(r@) =~= all.take(i as int));
    }
    assert(all.take(i as int) =~= all);
    r
}

fn plan_concat(graph: &Graph, mem: &NameMap<Vec<u8>>, op: &CompiledOp, axis: usize) -> (r: Result<
    Step,
    Error,
>)
    ensures
        outcome(r) == concat_step(graph@, mem@, op@, axis),
{
    if op.outputs.len() == 0 {
        return Err(Error::Shape("no output".to_owned()));
    }
    assert(op@.outputs[0] == op.outputs@[0]@);
    let ghost names = op@.inputs;
    let mut shapes: Vec<Vec<usize>> = Vec::new();
    let mut data: Vec<Vec<u8>> = Vec::new();
    assert(views(shapes@) =~= Seq::empty());
    assert(views(data@) =~= Seq::empty());
    let mut i: usize = 0;
    while i < op.inputs.len()
        invariant
            i <= op.inputs@.len(),
            op.outputs@.len() > 0,
            names == op@.inputs,
            concat_inputs(graph@, mem@, names, i as nat) == Ok::<
                (Seq<Seq<usize>>, Seq<Seq<u8>>),
                ErrorView,
            >((views(shapes@), views(data@))),
        decreases op.inputs@.len() - i,
    {
        broadcast use lemma_views_push;

        proof {
            assert(names[i as int] == op.inputs@[i as int]@);
            lemma_concat_stopped(graph@, mem@, names, (i + 1) as nat, names.len());
        }
        let s: &TensorShape = match find_shape(graph, &op.inputs[i]) {
            Ok(s) => s,
            Err(e) => {
                return Err(e);
            },
        };
        if s.dims.len() > 4 {
            return Err(err_bad_sizes());
        }
        let d: Vec<u8> = match find_bytes(mem, &op.inputs[i]) {
            Ok(d) => d,
            Err(e) => {
                return Err(e);
            },
        };
        shapes.push(pad_dims(&s.dims));
        data.push(d);
        i = i + 1;
    }
    match find_bytes(mem, &op.outputs[0]) {
        Ok(o) => match to_float(graph.dtype) {
            None => Err(Error::Runtime(concat2("unsupported dtype for ", "concat"))),
            Some(f) => {
                let mut outputs: Vec<Numbers> = Vec::new();
                outputs.push(to_numbers(f, &o));
                assert(views(outputs@) =~= seq![numbers_in(f, o@)]);
                Ok(
                    Step::Call(
                        KernelCall {
                            kernel: Kernel::Concat { shapes, axis },
                            inputs: to_all_numbers(f, &data),
                            outputs,
                        },
                    ),
                )
            },
        },
        Err(e) => Err(e),
    }
}

/// The bytes of the first `n` tensors.
pub open spec fn all_bytes(mem: Map<Seq<char>, Seq<u8>>, names: Seq<Seq<char>>, n: nat) -> Result<
    Seq<Seq<u8>>,
    ErrorView,
>
    decreases n,
{
    if n == 0 {
        Ok(Seq::empty())
    } else {
        match all_bytes(mem, names, (n - 1) as nat) {
            Err(e) => Err(e),
            Ok(before) => match bytes_of(mem, names[n - 1]) {
                Err(e) => Err(e),
                Ok(d) => Ok(before.push(d)),
            },
        }
    }
}

proof fn lemma_all_bytes_stopped(
    mem: Map<Seq<char>, Seq<u8>>,
    names: Seq<Seq<char>>,
    n: nat,
    m: nat,
)
    requires
        n <= m,
    ensures
        all_bytes(mem, names, n) is Err ==> all_bytes(mem, names, m) == all_bytes(mem, names, n),
    decreases m,
{
    if n < m {
        lemma_all_bytes_stopped(mem, names, n, (m - 1) as nat);
    }
}

fn find_all_bytes(mem: &NameMap<Vec<u8>>, names: &Vec<String>) -> (r: Result<Vec<Vec<u8>>, Error>)
    ensures
        match r {
            Ok(v) => all_bytes(mem@, views(names@), names@.len()) == Ok::<
                Seq<Seq<u8>>,
                ErrorView,
            >(views(v@)),
            Err(e) => all_bytes(mem@, views(names@), names@.len()) == Err::<
                Seq<Seq<u8>>,
                ErrorView,
            >(e@),
        },
{
    let ghost list = views(names@);
    let mut data: Vec<Vec<u8>> = Vec::new();
    assert(views(data@) =~= Seq::empty());
    let mut i: usize = 0;
    while i < names.len()
        invariant
            i <= names@.len(),
            list == views(names@),
            all_bytes(mem@, list, i as nat) == Ok::<Seq<Seq<u8>>, ErrorView>(views(data@)),
        decreases names@.len() - i,
    {
        broadcast use lemma_views_push;

        proof {
            assert(list[i as int] == names@[i as int]@);
            lemma_all_bytes_stopped(mem@, list, (i + 1) as nat, list.len());
        }
        match find_bytes(mem, &names[i]) {
            Ok(d) => {
                data.push(d);
            },
            Err(e) => {
                return Err(e);
            },
        }
        i = i + 1;
    }
    Ok(data)
}

/// The pieces of a Split, as zeros.
pub open spec fn zero_pieces(shape: Seq<usize>, axis: usize, sizes: Seq<usize>) -> Seq<NumbersView> {
    sizes.map_values(|size: usize| zero_singles(numel(shape.update(axis as int, size))))
}

/// The sizes of the pieces of a Split fit.
pub open spec fn pieces_fit(shape: Seq<usize>, axis: usize, sizes: Seq<usize>) -> bool {
    forall|i: int|
        0 <= i < sizes.len() ==> products_fit(shape.update(axis as int, #[trigger] sizes[i]))
}

pub(crate) fn make_pieces(shape: &Vec<usize>, axis: usize, sizes: &Vec<usize>) -> (r: Option<Vec<Numbers>>)
    requires
        axis < shape@.len(),
    ensures
        match r {
            Some(v) => pieces_fit(shape@, axis, sizes@) && views(v@) == zero_pieces(
                shape@,
                axis,
                sizes@,
            ),
            None => !pieces_fit(shape@, axis, sizes@),
        },
{
    let ghost all = zero_pieces(shape@, axis, sizes@);
    let mut r: Vec<Numbers> = Vec::new();
    assert(views(r@) =~= all.take(0));
    let mut i: usize = 0;
    while i < sizes.len()
        invariant
            i <= sizes@.len(),
            axis < shape@.len(),
            all == zero_pieces(shape@, axis, sizes@),
            views(r@) == all.take(i as int),
            forall|k: int|
                0 <= k < i ==> products_fit(shape@.update(axis as int, #[trigger] sizes@[k])),
        decreases sizes@.len() - i,
    {
        let mut dims: Vec<usize> = copy_vec(shape);
        dims.set(axis, sizes[i]);
        assert(dims@ =~= shape@.update(axis as int, sizes@[i as int]));
        let n: usize = match checked_numel(dims.as_slice()) {
            Some(n) => n,
            None => {
                return None;
            },
        };
        let ghost before = views(r@);
        r.push(Numbers::Singles(zeros(n)));
        assert(views(r@) =~= before.push(zero_singles(n as nat)));
        i = i + 1;
        assert(views(r@) =~= all.take(i as int));
    }
    assert(all.take(i as int) =~= all);
    Some(r)
}

/// A Split.
pub open spec fn split_step(
    g: GraphView,
    mem: Map<Seq<char>, Seq<u8>>,
    op: OpView,
    axis: usize,
    sizes: Seq<usize>,
) -> Result<StepView, ErrorView> {
    if op.inputs.len() == 0 {
        Err(too_few_inputs())
    } else {
        match shape_at(g, op.inputs[0]) {
            Err(e) => Err(e),
            Ok(s) => if s.dims.len() > 4 {
                Err(bad_sizes())
            } else {
                let shape = padded_dims(s.dims);
                match bytes_of(mem, op.inputs[0]) {
                    Err(e) => Err(e),
                    Ok(x) => match all_bytes(mem, op.outputs, op.outputs.len()) {
                        Err(e) => Err(e),
                        Ok(outs) => match float_of(g.dtype) {
                            None => Err(unsupported_dtype("split"@)),
                            Some(Float::Single) => Ok(
                                StepView::Call(
                                    CallView {
                                        kernel: KernelView::Split { shape, axis, sizes },
                                        inputs: seq![numbers_in(Float::Single, x)],
                                        outputs: all_numbers(Float::Single, outs),
                                    },
                                ),
                            ),
                            Some(Float::Half) => if axis >= 4 || !pieces_fit(shape, axis, sizes) {
                                Err(bad_sizes())
                            } else {
                                Ok(
                                    StepView::Call(
                                        CallView {
                                            kernel: KernelView::Split { shape, axis, sizes },
                                            inputs: seq![
                                                NumbersView::Singles(decoded(Float::Half, x)),
                                            ],
                                            outputs: zero_pieces(shape, axis, sizes),
                                        },
                                    ),
                                )
                            },
                        },
                    },
                }
            },
        }
    }
}

fn plan_split(
    graph: &Graph,
    mem: &NameMap<Vec<u8>>,
    op: &CompiledOp,
    axis: usize,
    sizes: &Vec<usize>,
) -> (r: Result<Step, Error>)
    ensures
        outcome(r) == split_step(graph@, mem@, op@, axis, sizes@),
{
    if op.inputs.len() == 0 {
        return Err(err_too_few_inputs());
    }
    assert(op@.inputs[0] == op.inputs@[0]@);
    let s: &TensorShape = match find_shape(graph, &op.inputs[0]) {
        Ok(s) => s,
        Err(e) => {
            return Err(e);
        },
    };
    if s.dims.len() > 4 {
        return Err(err_bad_sizes());
    }
    let shape: Vec<usize> = pad_dims(&s.dims);
    let x: Vec<u8> = match find_bytes(mem, &op.inputs[0]) {
        Ok(x) => x,
        Err(e) => {
            return Err(e);
        },
    };
    let outs: Vec<Vec<u8>> = match find_all_bytes(mem, &op.outputs) {
        Ok(v) => v,
        Err(e) => {
            return Err(e);
        },
    };
    let mut inputs: Vec<Numbers> = Vec::new();
    match to_float(graph.dtype) {
        None => Err(Error::Runtime(concat2("unsupported dtype for ", "split"))),
        Some(Float::Single) => {
            inputs.push(to_numbers(Float::Single, &x));
            assert(views(inputs@) =~= seq![numbers_in(Float::Single, x@)]);
            Ok(
                Step::Call(
                    KernelCall {
                        kernel: Kernel::Split { shape, axis, sizes: copy_vec(sizes) },
                        inputs,
                        outputs: to_all_numbers(Float::Single, &outs),
                    },
                ),
            )
        },
        Some(Float::Half) => {
            if axis >= 4 {
                return Err(err_bad_sizes());
            }
            match make_pieces(&shape, axis, sizes) {
                Some(outputs) => {
                    inputs.push(Numbers::Singles(decode(Float::Half, x.as_slice())));
                    assert(views(inputs@) =~= seq![
                        NumbersView::Singles(decoded(Float::Half, x@)),
                    ]);
                    Ok(
                        Step::Call(
                            KernelCall {
                                kernel: Kernel::Split { shape, axis, sizes: copy_vec(sizes) },
                                inputs,
                                outputs,
                            },
                        ),
                    )
                },
                None => Err(err_bad_sizes()),
            }
        },
    }
}

/// What is to be done for an op. Ops without parameters that are not known here
/// only say something about shapes; ops on integers have no kernel.
pub open spec fn step_of(
    g: GraphView,
    mem: Map<Seq<char>, Seq<u8>>,
    op: OpView,
    threads: usize,
) -> Result<StepView, ErrorView> {
    match op.params {
        ParamsView::Empty => if op.op_type == "Relu"@ {
            relu_step(g, mem, op)
        } else if op.op_type == "Flatten"@ {
            reshape_step(mem, op)
        } else if op.op_type == "MatMul"@ {
            gemm_step(g, mem, op, false, false, threads)
        } else {
            Ok(StepView::Nothing)
        },
        ParamsView::Clip { min, max } => clip_step(g, mem, op, min, max),
        ParamsView::Add => add_step(g, mem, op),
        ParamsView::GlobalAvgPool => global_pool_step(g, mem, op),
        ParamsView::Gemm { alpha, beta, trans_a, trans_b } => gemm_step(
            g,
            mem,
            op,
            trans_a,
            trans_b,
            threads,
        ),
        ParamsView::Softmax { axis } => softmax_step(g, mem, op),
        ParamsView::Reshape { shape } => reshape_step(mem, op),
        ParamsView::Conv2d { kernel_shape, strides, pads, dilations, group } => conv_step(
            g,
            mem,
            op,
            kernel_shape,
            strides,
            pads,
            group,
            threads,
        ),
        ParamsView::MaxPool { kernel_shape, strides, pads } => pool_step(
            g,
            mem,
            op,
            true,
            kernel_shape,
            strides,
        ),
        ParamsView::AvgPool { kernel_shape, strides, pads } => pool_step(
            g,
            mem,
            op,
            false,
            kernel_shape,
            strides,
        ),
        ParamsView::Sigmoid => sigmoid_step(g, mem, op),
        ParamsView::Mul => combine_step(g, mem, op, Arithmetic::Product),
        ParamsView::Sub => combine_step(g, mem, op, Arithmetic::Difference),
        ParamsView::Div => combine_step(g, mem, op, Arithmetic::Quotient),
        ParamsView::Concat { axis } => concat_step(g, mem, op, axis),
        ParamsView::Resize { out_h, out_w, mode } => resize_step(g, mem, op, out_h, out_w, mode),
        ParamsView::Split { axis, split_sizes } => split_step(g, mem, op, axis, split_sizes),
        ParamsView::Transpose { perm } => transpose_step(g, mem, op, perm),
        ParamsView::Slice { starts, ends, axes, steps } => slice_step(
            g,
            mem,
            op,
            starts,
            ends,
            axes,
            steps,
        ),
        _ => Err(
            ErrorView::Runtime(op.op_type + " has no kernel for floating-point tensors"@),
        ),
    }
}

/// What is to be done for an op.
pub fn plan_op(graph: &Graph, mem: &NameMap<Vec<u8>>, op: &CompiledOp, threads: usize) -> (r: Result<
    Step,
    Error,
>)
    ensures
        outcome(r) == step_of(graph@, mem@, op@, threads),
{
    match &op.params {
        OpParams::Empty => if str_eq(op.op_type.as_str(), "Relu") {
            plan_relu(graph, mem, op)
        } else if str_eq(op.op_type.as_str(), "Flatten") {
            plan_reshape(mem, op)
        } else if str_eq(op.op_type.as_str(), "MatMul") {
            plan_gemm(graph, mem, op, false, false, threads)
        } else {
            Ok(Step::Nothing)
        },
        OpParams::Clip { min, max } => plan_clip(graph, mem, op, *min, *max),
        OpParams::Add => plan_add(graph, mem, op),
        OpParams::GlobalAvgPool => plan_global_pool(graph, mem, op),
        OpParams::Gemm { alpha, beta, trans_a, trans_b } => plan_gemm(
            graph,
            mem,
            op,
            *trans_a,
            *trans_b,
            threads,
        ),
        OpParams::Softmax { axis } => plan_softmax(graph, mem, op),
        OpParams::Reshape { shape } => plan_reshape(mem, op),
        OpParams::Conv2d { kernel_shape, strides, pads, dilations, group } => plan_conv(
            graph,
            mem,
            op,
            kernel_shape,
            strides,
            pads,
            *group,
            threads,
        ),
        OpParams::MaxPool { kernel_shape, strides, pads } => plan_pool(
            graph,
            mem,
            op,
            true,
            kernel_shape,
            strides,
        ),
        OpParams::AvgPool { kernel_shape, strides, pads } => plan_pool(
            graph,
            mem,
            op,
            false,
            kernel_shape,
            strides,
        ),
        OpParams::Sigmoid => plan_sigmoid(graph, mem, op),
        OpParams::Mul => plan_combine(graph, mem, op, Arithmetic::Product),
        OpParams::Sub => plan_combine(graph, mem, op, Arithmetic::Difference),
        OpParams::Div => plan_combine(graph, mem, op, Arithmetic::Quotient),
        OpParams::Concat { axis } => plan_concat(graph, mem, op, *axis),
        OpParams::Resize { out_h, out_w, mode } => plan_resize(
            graph,
            mem,
            op,
            *out_h,
            *out_w,
            mode,
        ),
        OpParams::Split { axis, split_sizes } => plan_split(graph, mem, op, *axis, split_sizes),
        OpParams::Transpose { perm } => plan_transpose(graph, mem, op, perm),
        OpParams::Slice { starts, ends, axes, steps } => plan_slice(
            graph,
            mem,
            op,
            starts,
            ends,
            axes,
            steps,
        ),
        _ => Err(
            Error::Runtime(
                concat2(op.op_type.as_str(), " has no kernel for floating-point tensors"),
            ),
        ),
    }
}

// ---------------------------------------------------------------------------
// Once a kernel has returned
// ---------------------------------------------------------------------------

/// As many numbers of the same kind.
pub open spec fn same_kind(a: NumbersView, b: NumbersView) -> bool {
    match (a, b) {
        (NumbersView::Singles(v), NumbersView::Singles(w)) => v.len() == w.len(),
        (NumbersView::Halves(v), NumbersView::Halves(w)) => v.len() == w.len(),
        _ => false,
    }
}

/// A kernel returned as many numbers as it was to write.
pub open spec fn answers_fit(outputs: Seq<NumbersView>, results: Seq<NumbersView>) -> bool {
    &&& outputs.len() == results.len()
    &&& forall|i: int| 0 <= i < outputs.len() ==> same_kind(#[trigger] outputs[i], results[i])
}

fn check_answers(outputs: &Vec<Numbers>, results: &Vec<Numbers>) -> (r: bool)
    ensures
        r == answers_fit(views(outputs@), views(results@)),
{
    if outputs.len() != results.len() {
        return false;
    }
    let ghost a = views(outputs@);
    let ghost b = views(results@);
    let mut i: usize = 0;
    while i < outputs.len()
        invariant
            i <= outputs@.len() == results@.len(),
            a == views(outputs@),
            b == views(results@),
            forall|k: int| 0 <= k < i ==> same_kind(#[trigger] a[k], b[k]),
        decreases outputs@.len() - i,
    {
        assert(a[i as int] == outputs@[i as int]@);
        assert(b[i as int] == results@[i as int]@);
        let same: bool = match (&outputs[i], &results[i]) {
            (Numbers::Singles(v), Numbers::Singles(w)) => v.len() == w.len(),
            (Numbers::Halves(v), Numbers::Halves(w)) => v.len() == w.len(),
            _ => false,
        };
        if !same {
            return false;
        }
        i = i + 1;
    }
    true
}

/// What a kernel returned, as bytes of a graph's numbers.
pub open spec fn number_bytes(f: Float, v: NumbersView) -> Seq<u8> {
    match v {
        NumbersView::Singles(x) => encoded(f, x),
        NumbersView::Halves(h) => bytes_of_halves(h),
    }
}

fn to_bytes(f: Float, v: &Numbers) -> (r: Vec<u8>)
    ensures
        r@ == number_bytes(f, v@),
{
    match v {
        Numbers::Singles(x) => encode(f, x),
        Numbers::Halves(h) => from_halves16(h),
    }
}

/// The first `n` results put into the outputs.
pub open spec fn results_put(
    f: Float,
    mem: Map<Seq<char>, Seq<u8>>,
    names: Seq<Seq<char>>,
    results: Seq<NumbersView>,
    n: nat,
) -> Running
    decreases n,
{
    if n == 0 {
        Running { memory: mem, failure: None }
    } else {
        let before = results_put(f, mem, names, results, (n - 1) as nat);
        if before.failure is Some {
            before
        } else {
            match bytes_of(before.memory, names[n - 1]) {
                Err(e) => Running { failure: Some(e), ..before },
                Ok(there) => Running {
                    memory: before.memory.insert(
                        names[n - 1],
                        overlaid(there, cut(f, there, number_bytes(f, results[n - 1]))),
                    ),
                    failure: None,
                },
            }
        }
    }
}

proof fn lemma_results_stopped(
    f: Float,
    mem: Map<Seq<char>, Seq<u8>>,
    names: Seq<Seq<char>>,
    results: Seq<NumbersView>,
    n: nat,
    m: nat,
)
    requires
        n <= m,
        results_put(f, mem, names, results, n).failure is Some,
    ensures
        results_put(f, mem, names, results, m) == results_put(f, mem, names, results, n),
    decreases m,
{
    if n < m {
        lemma_results_stopped(f, mem, names, results, n, (m - 1) as nat);
    }
}

/// The lesser of two.
pub open spec fn lesser(a: nat, b: nat) -> nat {
    if a < b {
        a
    } else {
        b
    }
}

fn put_results(f: Float, mem: &mut NameMap<Vec<u8>>, names: &Vec<String>, results: &Vec<Numbers>) -> (r:
    Result<(), Error>)
    ensures
        results_put(
            f,
            old(mem)@,
            views(names@),
            views(results@),
            lesser(names@.len(), results@.len()),
        ) == (Running { memory: final(mem)@, failure: failure_of(r) }),
{
    let ghost start = mem@;
    let ghost list = views(names@);
    let ghost all = views(results@);
    let n: usize = if names.len() < results.len() {
        names.len()
    } else {
        results.len()
    };
    let mut i: usize = 0;
    while i < n
        invariant
            i <= n == lesser(names@.len(), results@.len()),
            start == old(mem)@,
            list == views(names@),
            all == views(results@),
            results_put(f, start, list, all, i as nat) == (Running {
                memory: mem@,
                failure: None,
            }),
        decreases n - i,
    {
        assert(list[i as int] == names@[i as int]@);
        assert(all[i as int] == results@[i as int]@);
        let there: Vec<u8> = match find_bytes(mem, &names[i]) {
            Ok(d) => d,
            Err(e) => {
                proof {
                    lemma_results_stopped(f, start, list, all, (i + 1) as nat, n as nat);
                }
                return Err(e);
            },
        };
        let data: Vec<u8> = cut_to(f, &there, to_bytes(f, &results[i]));
        mem.insert(names[i].clone(), overlay(&there, &data));
        i = i + 1;
    }
    Ok(())
}

/// The rows that a bias is added to: their number of elements, the length of
/// each, and how many entries the bias has to have.
pub open spec fn bias_rows(g: GraphView, op: OpView) -> Option<(int, int, int)> {
    match op.params {
        ParamsView::Conv2d { .. } => {
            let n = g.shapes[op.inputs[0]].dims[0];
            let d = g.shapes[op.outputs[0]].dims;
            Some((((n * d[1]) * d[2]) * d[3], d[3] as int, d[3] as int))
        },
        ParamsView::Gemm { alpha, beta, trans_a, trans_b } => {
            let (m, n, k) = product_sizes(
                g.shapes[op.inputs[0]],
                g.shapes[op.inputs[1]],
                trans_a,
                trans_b,
            );
            Some((m * n, n, 1))
        },
        ParamsView::Empty => if op.op_type == "MatMul"@ {
            let (m, n, k) = product_sizes(
                g.shapes[op.inputs[0]],
                g.shapes[op.inputs[1]],
                false,
                false,
            );
            Some((m * n, n, 1))
        } else {
            None
        },
        _ => None,
    }
}

/// A bias added to the first `total` numbers of a tensor, in rows of `n`.
pub open spec fn biased_bytes(
    f: Float,
    there: Seq<u8>,
    bias: Seq<u8>,
    rows: (int, int, int),
) -> Result<Seq<u8>, ErrorView> {
    let v = decoded(f, there);
    let b = decoded(f, bias);
    if rows.0 > v.len() || (rows.0 > 0 && b.len() < rows.2) {
        Err(bad_sizes())
    } else {
        Ok(overlaid(there, encoded(f, row_biased(v.take(rows.0), rows.1, b))))
    }
}

/// The tensors once the bias is added.
pub open spec fn bias_added(
    f: Float,
    g: GraphView,
    mem: Map<Seq<char>, Seq<u8>>,
    op: OpView,
) -> Running {
    match bias_rows(g, op) {
        None => Running { memory: mem, failure: None },
        Some(rows) => match third_input(mem, op) {
            None => Running { memory: mem, failure: None },
            Some(bias) => match bytes_of(mem, op.outputs[0]) {
                Err(e) => Running { memory: mem, failure: Some(e) },
                Ok(there) => match biased_bytes(f, there, bias, rows) {
                    Err(e) => Running { memory: mem, failure: Some(e) },
                    Ok(data) => Running {
                        memory: mem.insert(op.outputs[0], data),
                        failure: None,
                    },
                },
            },
        },
    }
}

/// The tensors once a kernel has returned.
pub open spec fn finished(
    g: GraphView,
    mem: Map<Seq<char>, Seq<u8>>,
    op: OpView,
    call: CallView,
    results: Seq<NumbersView>,
) -> Running {
    match float_of(g.dtype) {
        None => Running { memory: mem, failure: Some(unsupported_dtype(op.op_type)) },
        Some(f) => if !answers_fit(call.outputs, results) {
            Running {
                memory: mem,
                failure: Some(ErrorView::Runtime("kernel returned other numbers"@)),
            }
        } else {
            let put = results_put(
                f,
                mem,
                op.outputs,
                results,
                lesser(op.outputs.len(), results.len()),
            );
            if put.failure is Some {
                put
            } else {
                bias_added(f, g, put.memory, op)
            }
        },
    }
}

/// The shapes that a product or a convolution reads are there.
pub open spec fn bias_shapes_there(g: GraphView, op: OpView) -> bool {
    match op.params {
        ParamsView::Conv2d { .. } => op.inputs.len() >= 2 && op.outputs.len() >= 1
            && g.shapes.dom().contains(op.inputs[0]) && g.shapes.dom().contains(op.outputs[0])
            && g.shapes[op.inputs[0]].dims.len() >= 1 && g.shapes[op.outputs[0]].dims.len() >= 4,
        ParamsView::Gemm { .. } => product_shapes_there(g, op),
        ParamsView::Empty => op.op_type == "MatMul"@ ==> product_shapes_there(g, op),
        _ => true,
    }
}

/// The shapes that a product reads are there.
pub open spec fn product_shapes_there(g: GraphView, op: OpView) -> bool {
    op.inputs.len() >= 2 && op.outputs.len() >= 1 && g.shapes.dom().contains(op.inputs[0])
        && g.shapes.dom().contains(op.inputs[1]) && g.shapes[op.inputs[0]].dims.len() == 2
        && g.shapes[op.inputs[1]].dims.len() == 2
}

proof fn lemma_planned_shapes(g: GraphView, mem: Map<Seq<char>, Seq<u8>>, op: OpView, threads: usize)
    requires
        step_of(g, mem, op, threads) matches Ok(StepView::Call(_)),
    ensures
        bias_shapes_there(g, op),
{
    reveal_strlit("Relu");
    reveal_strlit("Flatten");
    reveal_strlit("MatMul");
    assert("MatMul"@.len() == 6 && "Relu"@.len() == 4 && "Flatten"@.len() == 7);
}


fn find_bias_rows(graph: &Graph, op: &CompiledOp) -> (r: Option<(u128, usize, usize)>)
    requires
        bias_shapes_there(graph@, op@),
    ensures
        match r {
            Some(rows) => bias_rows(graph@, op@) matches Some(x) && (rows.0 == x.0 || (x.0
                > usize::MAX && rows.0 > usize::MAX)) && rows.1 == x.1 && rows.2 == x.2,
            None => bias_rows(graph@, op@) is None,
        },
{
    match &op.params {
        OpParams::Conv2d { .. } => {
            assert(op@.inputs[0] == op.inputs@[0]@);
            assert(op@.outputs[0] == op.outputs@[0]@);
            match (
                graph.shapes.get(op.inputs[0].as_str()),
                graph.shapes.get(op.outputs[0].as_str()),
            ) {
                (Some(sx), Some(so)) => {
                    let total: u128 = saturated_volume(
                        sx.dims[0],
                        so.dims[1],
                        so.dims[2],
                        so.dims[3],
                    );
                    Some((total, so.dims[3], so.dims[3]))
                },
                _ => {
                    assert(false);
                    None
                },
            }
        },
        OpParams::Gemm { alpha, beta, trans_a, trans_b } => {
            Some(find_product_rows(graph, op, *trans_a, *trans_b))
        },
        OpParams::Empty => if str_eq(op.op_type.as_str(), "MatMul") {
            Some(find_product_rows(graph, op, false, false))
        } else {
            None
        },
        _ => None,
    }
}

fn saturated_volume(d0: usize, d1: usize, d2: usize, d3: usize) -> (r: u128)
    ensures
        r == ((d0 * d1) * d2) * d3 || (((d0 * d1) * d2) * d3 > usize::MAX && r > usize::MAX),
{
    proof {
        assert(d0 * d1 <= 0xffff_ffff_ffff_ffff * 0xffff_ffff_ffff_ffff) by (nonlinear_arith)
            requires
                0 <= d0 <= 0xffff_ffff_ffff_ffff,
                0 <= d1 <= 0xffff_ffff_ffff_ffff,
        ;
    }
    if d2 == 0 || d3 == 0 {
        assert(((d0 * d1) * d2) * d3 == 0) by (nonlinear_arith)
            requires
                d2 == 0 || d3 == 0,
        ;
        return 0;
    }
    let over: u128 = usize::MAX as u128 + 1;
    let a: u128 = (d0 as u128) * (d1 as u128);
    proof {
        let x = d0 * d1;
        assert(x * d2 >= x && (x * d2) * d3 >= x * d2) by (nonlinear_arith)
            requires
                x >= 0,
                d2 >= 1,
                d3 >= 1,
        ;
    }
    if a >= over {
        return over;
    }
    let a1: usize = a as usize;
    proof {
        assert(a1 * d2 <= 0xffff_ffff_ffff_ffff * 0xffff_ffff_ffff_ffff) by (nonlinear_arith)
            requires
                0 <= a1 <= 0xffff_ffff_ffff_ffff,
                0 <= d2 <= 0xffff_ffff_ffff_ffff,
        ;
    }
    let b: u128 = (a1 as u128) * (d2 as u128);
    if b >= over {
        return over;
    }
    let b1: usize = b as usize;
    proof {
        assert(b1 * d3 <= 0xffff_ffff_ffff_ffff * 0xffff_ffff_ffff_ffff) by (nonlinear_arith)
            requires
                0 <= b1 <= 0xffff_ffff_ffff_ffff,
                0 <= d3 <= 0xffff_ffff_ffff_ffff,
        ;
    }
    (b1 as u128) * (d3 as u128)
}

fn find_product_rows(graph: &Graph, op: &CompiledOp, trans_a: bool, trans_b: bool) -> (r: (
    u128,
    usize,
    usize,
))
    requires
        product_shapes_there(graph@, op@),
    ensures
        ({
            let (m, n, k) = product_sizes(
                graph@.shapes[op@.inputs[0]],
                graph@.shapes[op@.inputs[1]],
                trans_a,
                trans_b,
            );
            r.0 == m * n && r.1 == n && r.2 == 1
        }),
{
    assert(op@.inputs[0] == op.inputs@[0]@);
    assert(op@.inputs[1] == op.inputs@[1]@);
    match (graph.shapes.get(op.inputs[0].as_str()), graph.shapes.get(op.inputs[1].as_str())) {
        (Some(sa), Some(sb)) => {
            let m: usize = if trans_a {
                sa.dims[1]
            } else {
                sa.dims[0]
            };
            let n: usize = if trans_b {
                sb.dims[0]
            } else {
                sb.dims[1]
            };
            proof {
                assert(0 <= m * n <= 0xffff_ffff_ffff_ffff * 0xffff_ffff_ffff_ffff)
                    by (nonlinear_arith)
                    requires
                        0 <= m <= 0xffff_ffff_ffff_ffff,
                        0 <= n <= 0xffff_ffff_ffff_ffff,
                ;
            }
            ((m as u128) * (n as u128), n, 1)
        },
        _ => {
            assert(false);
            (0, 0, 0)
        },
    }
}

fn add_bias(f: Float, graph: &Graph, mem: &mut NameMap<Vec<u8>>, op: &CompiledOp) -> (r: Result<
    (),
    Error,
>)
    requires
        bias_shapes_there(graph@, op@),
    ensures
        bias_added(f, graph@, old(mem)@, op@) == (Running {
            memory: final(mem)@,
            failure: failure_of(r),
        }),
{
    let (total, n, least): (u128, usize, usize) = match find_bias_rows(graph, op) {
        Some(rows) => rows,
        None => {
            return Ok(());
        },
    };
    let bias: Vec<u8> = match find_third(mem, op) {
        Some(b) => b,
        None => {
            return Ok(());
        },
    };
    assert(op@.outputs[0] == op.outputs@[0]@);
    let there: Vec<u8> = match find_bytes(mem, &op.outputs[0]) {
        Ok(d) => d,
        Err(e) => {
            return Err(e);
        },
    };
    let v: Vec<u32> = decode(f, there.as_slice());
    let b: Vec<u32> = decode(f, bias.as_slice());
    assert(v@.len() == v.len());
    if total > v.len() as u128 || (total > 0 && b.len() < least) {
        return Err(err_bad_sizes());
    }
    let total: usize = total as usize;
    let front: Vec<u32> = vstd::slice::slice_to_vec(
        vstd::slice::slice_subrange(v.as_slice(), 0, total),
    );
    assert(front@ =~= v@.take(total as int));
    proof {
        lemma_rows_long(graph@, op@);
    }
    let w: Vec<u32> = add_row_bias(&front, n, &b);
    mem.insert(op.outputs[0].clone(), overlay(&there, &encode(f, &w)));
    Ok(())
}

proof fn lemma_rows_long(g: GraphView, op: OpView)
    ensures
        bias_rows(g, op) matches Some(rows) ==> (rows.0 > 0 ==> rows.1 > 0 && rows.2 > 0),
{
    match op.params {
        ParamsView::Conv2d { .. } => {
            let n = g.shapes[op.inputs[0]].dims[0];
            let d = g.shapes[op.outputs[0]].dims;
            let a = (n * d[1]) * d[2];
            let c = d[3];
            assert(a * c > 0 ==> c > 0) by (nonlinear_arith)
                requires
                    c >= 0,
            ;
        },
        ParamsView::Gemm { alpha, beta, trans_a, trans_b } => {
            let (m, n, k) = product_sizes(
                g.shapes[op.inputs[0]],
                g.shapes[op.inputs[1]],
                trans_a,
                trans_b,
            );
            assert(m * n > 0 ==> n > 0) by (nonlinear_arith)
                requires
                    n >= 0,
            ;
        },
        ParamsView::Empty => {
            let (m, n, k) = product_sizes(
                g.shapes[op.inputs[0]],
                g.shapes[op.inputs[1]],
                false,
                false,
            );
            assert(m * n > 0 ==> n > 0) by (nonlinear_arith)
                requires
                    n >= 0,
            ;
        },
        _ => {},
    }
}

/// Put back what a kernel has returned.
fn finish(
    graph: &Graph,
    mem: &mut NameMap<Vec<u8>>,
    op: &CompiledOp,
    outputs: &Vec<Numbers>,
    results: &Vec<Numbers>,
    Ghost(call): Ghost<CallView>,
) -> (r: Result<(), Error>)
    requires
        bias_shapes_there(graph@, op@),
        call.outputs == views(outputs@),
    ensures
        finished(graph@, old(mem)@, op@, call, views(results@)) == (Running {
            memory: final(mem)@,
            failure: failure_of(r),
        }),
{
    match to_float(graph.dtype) {
        None => Err(Error::Runtime(concat2("unsupported dtype for ", op.op_type.as_str()))),
        Some(f) => {
            if !check_answers(outputs, results) {
                return Err(Error::Runtime("kernel returned other numbers".to_owned()));
            }
            match put_results(f, mem, &op.outputs, results) {
                Ok(_) => {},
                Err(e) => {
                    return Err(e);
                },
            }
            add_bias(f, graph, mem, op)
        },
    }
}

// ---------------------------------------------------------------------------
// The runtime
// ---------------------------------------------------------------------------

/// CPU-optimized graph runtime.
pub struct CpuGraphRuntime {
    graph: Graph,
    memory: NameMap<Vec<u8>>,
    num_threads: usize,
}

/// The state of a [`CpuGraphRuntime`].
pub struct CpuView {
    pub graph: GraphView,
    pub memory: Map<Seq<char>, Seq<u8>>,
    pub num_threads: usize,
}

impl View for CpuGraphRuntime {
    type V = CpuView;

    closed spec fn view(&self) -> CpuView {
        CpuView {
            graph: self.graph@,
            memory: self.memory@,
            num_threads: self.num_threads,
        }
    }
}

/// An initializer that does not have the size of its tensor.
pub open spec fn misfit(g: GraphView, k: Seq<char>) -> bool {
    g.initializers.dom().contains(k) && g.shapes.dom().contains(k) && upload_of(g, k).len()
        != bytes_in(g.shapes[k])
}

/// A shape as shown in an error.
pub open spec fn shape_text(s: ShapeView) -> Seq<char> {
    "TensorShape { dims: "@ + sizes_text(s.dims) + ", dtype: "@ + dtype_name(s.dtype) + " }"@
}

fn show_shape(shape: &TensorShape) -> (r: String)
    ensures
        r@ == shape_text(shape@),
{
    let dims: String = list_usize(&shape.dims);
    let mut r: String = concat4(
        "TensorShape { dims: ",
        dims.as_str(),
        ", dtype: ",
        dtype_str(shape.dtype),
    );
    r.append(" }");
    r
}

/// The answer for an initializer that does not have the size of its tensor.
pub open spec fn misfit_error(g: GraphView, k: Seq<char>) -> ErrorView {
    ErrorView::Runtime(
        "initializer size mismatch for "@ + k + ": buffer="@ + dec_int(
            bytes_in(g.shapes[k]) as int,
        ) + " bytes, data="@ + dec_int(upload_of(g, k).len() as int) + " bytes, shape=Some("@
            + shape_text(g.shapes[k]) + ")"@,
    )
}

/// The answer when a graph of integers is asked for numbers.
pub open spec fn no_numbers() -> ErrorView {
    ErrorView::Runtime("unsupported dtype"@)
}

/// The runtime's memory with numbers in an input tensor.
pub open spec fn with_input(r: CpuView, name: Seq<char>, data: Seq<u32>) -> Result<
    Map<Seq<char>, Seq<u8>>,
    ErrorView,
> {
    if !r.memory.dom().contains(name) {
        Err(ErrorView::Runtime("input not found: "@ + name))
    } else {
        match float_of(r.graph.dtype) {
            None => Err(no_numbers()),
            Some(f) => {
                let there = r.memory[name];
                if decoded(f, there).len() != data.len() {
                    Err(
                        ErrorView::Runtime(
                            "input size mismatch: expected "@ + dec_int(
                                decoded(f, there).len() as int,
                            ) + ", got "@ + dec_int(data.len() as int),
                        ),
                    )
                } else {
                    Ok(r.memory.insert(name, overlaid(there, encoded(f, data))))
                }
            },
        }
    }
}

/// The numbers of a tensor.
pub open spec fn output_numbers(r: CpuView, name: Seq<char>) -> Result<Seq<u32>, ErrorView> {
    if !r.memory.dom().contains(name) {
        Err(ErrorView::Runtime("output not found: "@ + name))
    } else {
        match float_of(r.graph.dtype) {
            None => Err(no_numbers()),
            Some(f) => Ok(decoded(f, r.memory[name])),
        }
    }
}

/// The tensors after an op, given what the kernel returned if one was called.
pub open spec fn op_ran(
    g: GraphView,
    mem: Map<Seq<char>, Seq<u8>>,
    op: OpView,
    threads: usize,
    results: Seq<NumbersView>,
) -> Running {
    match step_of(g, mem, op, threads) {
        Err(e) => Running { memory: mem, failure: Some(e) },
        Ok(StepView::Nothing) => Running { memory: mem, failure: None },
        Ok(StepView::Write(v)) => Running {
            memory: mem.insert(op.outputs[0], v),
            failure: None,
        },
        Ok(StepView::Call(call)) => finished(g, mem, op, call, results),
    }
}

/// The tensors after the first `n` ops; `results` holds what each op's kernel returned.
pub open spec fn ops_ran(r: CpuView, results: Seq<Seq<NumbersView>>, n: nat) -> Running
    decreases n,
{
    if n == 0 {
        Running { memory: r.memory, failure: None }
    } else {
        let before = ops_ran(r, results, (n - 1) as nat);
        if before.failure is Some {
            before
        } else {
            op_ran(
                r.graph,
                before.memory,
                r.graph.ops[n - 1],
                r.num_threads,
                results[n - 1],
            )
        }
    }
}

/// `answer` is something that the kernels return for a call.
pub open spec fn is_answer<K: Fn(KernelCall) -> Vec<Numbers>>(
    kernels: K,
    call: CallView,
    answer: Seq<NumbersView>,
) -> bool {
    exists|c: KernelCall, v: Vec<Numbers>|
        #![trigger call_ensures(kernels, (c,), v)]
        c@ == call && views(v@) == answer && call_ensures(kernels, (c,), v)
}

/// `results` holds what the kernels return for the calls that the ops make, one after the other.
pub open spec fn are_results<K: Fn(KernelCall) -> Vec<Numbers>>(
    kernels: K,
    r: CpuView,
    results: Seq<Seq<NumbersView>>,
) -> bool {
    forall|i: nat|
        i < r.graph.ops.len() && (#[trigger] ops_ran(r, results, i)).failure is None ==> (step_of(
            r.graph,
            ops_ran(r, results, i).memory,
            r.graph.ops[i as int],
            r.num_threads,
        ) matches Ok(StepView::Call(call)) ==> is_answer(kernels, call, results[i as int]))
}

proof fn lemma_ran_agrees(
    r: CpuView,
    a: Seq<Seq<NumbersView>>,
    b: Seq<Seq<NumbersView>>,
    n: nat,
)
    requires
        forall|k: int| 0 <= k < n ==> a[k] == b[k],
    ensures
        ops_ran(r, a, n) == ops_ran(r, b, n),
    decreases n,
{
    if n > 0 {
        lemma_ran_agrees(r, a, b, (n - 1) as nat);
    }
}

proof fn lemma_ran_stopped(r: CpuView, results: Seq<Seq<NumbersView>>, n: nat, m: nat)
    requires
        n <= m,
        ops_ran(r, results, n).failure is Some,
    ensures
        ops_ran(r, results, m) == ops_ran(r, results, n),
    decreases m,
{
    if n < m {
        lemma_ran_stopped(r, results, n, (m - 1) as nat);
    }
}

proof fn lemma_writer_has_output(
    g: GraphView,
    mem: Map<Seq<char>, Seq<u8>>,
    op: OpView,
    threads: usize,
)
    requires
        step_of(g, mem, op, threads) matches Ok(StepView::Write(_)),
    ensures
        op.outputs.len() > 0,
{
}

fn find_misfit(graph: &Graph) -> (r: Option<Error>)
    requires
        sizes_fit(graph@),
    ensures
        match r {
            Some(e) => exists|k: Seq<char>| #[trigger]
                misfit(graph@, k) && e@ == misfit_error(graph@, k),
            None => forall|k: Seq<char>| !#[trigger] misfit(graph@, k),
        },
{
    let ghost g = graph@;
    let ghost pairs = graph.initializers.pairs();
    let n: usize = graph.initializers.len();
    let mut i: usize = 0;
    while i < n
        invariant
            i <= n == pairs.len(),
            g == graph@,
            sizes_fit(g),
            pairs == graph.initializers.pairs(),
            distinct_names(pairs),
            forall|k: Seq<char>| named_before(pairs, k, i as int) ==> !#[trigger] misfit(g, k),
        decreases n - i,
    {
        let name: &String = graph.initializers.key_at(i);
        let data: &Vec<u8> = graph.initializers.value_at(i);
        proof {
            lemma_pair_in_map(pairs, i as int);
        }
        match graph.shapes.get(name.as_str()) {
            Some(shape) => {
                let upload: Vec<u8> = convert(shape.dtype, graph.dtype, data);
                let size: usize = match checked_size(shape) {
                    Some(s) => s,
                    None => {
                        assert(g.shapes.dom().contains(name@));
                        assert(false);
                        0
                    },
                };
                if upload.len() != size {
                    assert(misfit(g, name@));
                    let b: String = dec_usize(size);
                    let d: String = dec_usize(upload.len());
                    let s: String = show_shape(shape);
                    let mut text: String = concat4(
                        "initializer size mismatch for ",
                        name.as_str(),
                        ": buffer=",
                        b.as_str(),
                    );
                    text.append(" bytes, data=");
                    text.append(d.as_str());
                    text.append(" bytes, shape=Some(");
                    text.append(s.as_str());
                    text.append(")");
                    return Some(Error::Runtime(text));
                }
            },
            None => {},
        }
        proof {
            assert forall|k: Seq<char>| named_before(pairs, k, i + 1) implies !#[trigger] misfit(
                g,
                k,
            ) by {
                lemma_named_step(pairs, k, i as int);
            }
        }
        i = i + 1;
    }
    proof {
        assert forall|k: Seq<char>| !#[trigger] misfit(g, k) by {
            lemma_named_all(pairs, k);
        }
    }
    None
}

impl CpuGraphRuntime {
    /// Create a new CPU runtime for the given graph, whose fused ops are taken
    /// apart, on a machine with `num_cpus` CPUs.
    pub fn new(graph: Graph, num_cpus: usize) -> (r: Result<CpuGraphRuntime, Error>)
        ensures
            match r {
                Ok(rt) => sizes_fit(graph@) && (forall|k: Seq<char>| !#[trigger] misfit(graph@, k))
                    && rt@ == (CpuView {
                    graph: taken_apart(graph@, true),
                    memory: first_memory(graph@),
                    num_threads: num_cpus,
                }),
                Err(e) => if sizes_fit(graph@) {
                    exists|k: Seq<char>| #[trigger]
                        misfit(graph@, k) && e@ == misfit_error(graph@, k)
                } else {
                    e@ == size_overflow()
                },
            },
    {
        Self::with_threads(graph, num_cpus)
    }

    /// Create a new CPU runtime with a specific thread count.
    ///
    /// Where several initializers do not have the size of their tensor, the
    /// error speaks of one of them.
    pub fn with_threads(graph: Graph, num_threads: usize) -> (r: Result<CpuGraphRuntime, Error>)
        ensures
            match r {
                Ok(rt) => sizes_fit(graph@) && (forall|k: Seq<char>| !#[trigger] misfit(graph@, k))
                    && rt@ == (CpuView {
                    graph: taken_apart(graph@, true),
                    memory: first_memory(graph@),
                    num_threads,
                }),
                Err(e) => if sizes_fit(graph@) {
                    exists|k: Seq<char>| #[trigger]
                        misfit(graph@, k) && e@ == misfit_error(graph@, k)
                } else {
                    e@ == size_overflow()
                },
            },
    {
        let memory: NameMap<Vec<u8>> = match make_memory(&graph) {
            Some(m) => m,
            None => {
                return Err(err_size_overflow());
            },
        };
        match find_misfit(&graph) {
            Some(e) => Err(e),
            None => Ok(
                CpuGraphRuntime { graph: take_apart(graph, true), memory, num_threads },
            ),
        }
    }

    /// Set an input tensor (bits of F32 data).
    pub fn set_input_f32(&mut self, name: &str, data: &[u32]) -> (r: Result<(), Error>)
        ensures
            match with_input(old(self)@, name@, data@) {
                Ok(m) => r is Ok && final(self)@ == (CpuView { memory: m, ..old(self)@ }),
                Err(e) => r matches Err(x) && x@ == e && final(self)@ == old(self)@,
            },
    {
        let there: Vec<u8> = match self.memory.get(name) {
            Some(d) => copy_vec(d),
            None => {
                return Err(Error::Runtime(concat2("input not found: ", name)));
            },
        };
        match to_float(self.graph.dtype) {
            None => Err(Error::Runtime("unsupported dtype".to_owned())),
            Some(f) => {
                let n: usize = decode(f, there.as_slice()).len();
                if n != data.len() {
                    let e: String = dec_usize(n);
                    let g: String = dec_usize(data.len());
                    return Err(
                        Error::Runtime(
                            concat4(
                                "input size mismatch: expected ",
                                e.as_str(),
                                ", got ",
                                g.as_str(),
                            ),
                        ),
                    );
                }
                let v: Vec<u32> = vstd::slice::slice_to_vec(data);
                self.memory.insert(name.to_owned(), overlay(&there, &encode(f, &v)));
                Ok(())
            },
        }
    }

    /// Get an output tensor (as bits of F32 data).
    pub fn get_output_f32(&self, name: &str) -> (r: Result<Vec<u32>, Error>)
        ensures
            outcome(r) == output_numbers(self@, name@),
    {
        match self.memory.get(name) {
            Some(d) => match to_float(self.graph.dtype) {
                None => Err(Error::Runtime("unsupported dtype".to_owned())),
                Some(f) => Ok(decode(f, d.as_slice())),
            },
            None => Err(Error::Runtime(concat2("output not found: ", name))),
        }
    }

    /// Get the input tensor names.
    pub fn inputs(&self) -> (r: &Vec<String>)
        ensures
            views(r@) == self@.graph.inputs,
    {
        &self.graph.inputs
    }

    /// Get the output tensor names.
    pub fn outputs(&self) -> (r: &Vec<String>)
        ensures
            views(r@) == self@.graph.outputs,
    {
        &self.graph.outputs
    }

    /// Run inference; `kernels` does the work that the runtime does not do itself.
    pub fn run<K: Fn(KernelCall) -> Vec<Numbers>>(&mut self, kernels: &K) -> (r: Result<(), Error>)
        requires
            forall|c: KernelCall| call_requires(*kernels, (c,)),
        ensures
            final(self)@.graph == old(self)@.graph,
            final(self)@.num_threads == old(self)@.num_threads,
            exists|results: Seq<Seq<NumbersView>>|
                {
                    &&& #[trigger] ops_ran(old(self)@, results, old(self)@.graph.ops.len()) == (
                    Running { memory: final(self)@.memory, failure: failure_of(r) })
                    &&& are_results(*kernels, old(self)@, results)
                },
    {
        let ghost start = self@;
        let ghost mut all: Seq<Seq<NumbersView>> = Seq::empty();
        let n: usize = self.graph.ops.len();
        let mut i: usize = 0;
        while i < n
            invariant
                i <= n == start.graph.ops.len(),
                forall|c: KernelCall| call_requires(*kernels, (c,)),
                start == old(self)@,
                self@.graph == start.graph,
                self@.num_threads == start.num_threads,
                all.len() == i,
                ops_ran(start, all, i as nat) == (Running { memory: self@.memory, failure: None }),
                forall|k: nat|
                    k < i && (#[trigger] ops_ran(start, all, k)).failure is None ==> (step_of(
                        start.graph,
                        ops_ran(start, all, k).memory,
                        start.graph.ops[k as int],
                        start.num_threads,
                    ) matches Ok(StepView::Call(call)) ==> is_answer(
                        *kernels,
                        call,
                        all[k as int],
                    )),
            decreases n - i,
        {
            let ghost before = all;
            let ghost mem = self@.memory;
            let op: CompiledOp = self.graph.ops[i].clone();
            assert(start.graph.ops[i as int] == op@);
            let ghost mut got: Seq<NumbersView> = Seq::empty();
            let planned: Result<Step, Error> = plan_op(
                &self.graph,
                &self.memory,
                &op,
                self.num_threads,
            );
            let done: Result<(), Error> = match planned {
                Err(e) => Err(e),
                Ok(Step::Nothing) => Ok(()),
                Ok(Step::Write(v)) => {
                    proof {
                        lemma_writer_has_output(start.graph, mem, op@, start.num_threads);
                    }
                    assert(op@.outputs[0] == op.outputs@[0]@);
                    self.memory.insert(op.outputs[0].clone(), v);
                    Ok(())
                },
                Ok(Step::Call(call)) => {
                    let ghost asked = call@;
                    proof {
                        lemma_planned_shapes(start.graph, mem, op@, start.num_threads);
                    }
                    let outputs: Vec<Numbers> = copy_numbers(&call.outputs);
                    let results: Vec<Numbers> = kernels(call);
                    proof {
                        got = views(results@);
                        assert(is_answer(*kernels, asked, got));
                    }
                    finish(&self.graph, &mut self.memory, &op, &outputs, &results, Ghost(asked))
                },
            };
            proof {
                all = before.push(got);
                lemma_ran_agrees(start, before, all, i as nat);
                assert(ops_ran(start, all, (i + 1) as nat) == (Running {
                    memory: self@.memory,
                    failure: failure_of(done),
                }));
                assert forall|k: nat| k < i + 1 && (#[trigger] ops_ran(start, all, k)).failure is None implies (
                step_of(
                    start.graph,
                    ops_ran(start, all, k).memory,
                    start.graph.ops[k as int],
                    start.num_threads,
                ) matches Ok(StepView::Call(call)) ==> is_answer(*kernels, call, all[k as int])) by {
                    lemma_ran_agrees(start, before, all, k);
                    assert(ops_ran(start, before, k) == ops_ran(start, all, k));
                }
            }
            match done {
                Ok(_) => {},
                Err(e) => {
                    proof {
                        lemma_ran_stopped(start, all, (i + 1) as nat, n as nat);
                        assert forall|k: nat| k < n && (#[trigger] ops_ran(start, all, k)).failure is None implies (
                        step_of(
                            start.graph,
                            ops_ran(start, all, k).memory,
                            start.graph.ops[k as int],
                            start.num_threads,
                        ) matches Ok(StepView::Call(call)) ==> is_answer(
                            *kernels,
                            call,
                            all[k as int],
                        )) by {
                            if k > i {
                                lemma_ran_stopped(start, all, (i + 1) as nat, k);
                            }
                        }
                        assert(are_results(*kernels, start, all));
                    }
                    return Err(e);
                },
            }
            i = i + 1;
        }
        assert(are_results(*kernels, start, all));
        Ok(())
    }
}

fn copy_numbers(v: &Vec<Numbers>) -> (r: Vec<Numbers>)
    ensures
        views(r@) == views(v@),
{
    let mut r: Vec<Numbers> = Vec::new();
    let ghost all = views(v@);
    assert(views(r@) =~= all.take(0));
    let mut i: usize = 0;
    while i < v.len()
        invariant
            i <= v@.len(),
            all == views(v@),
            views(r@) == all.take(i as int),
        decreases v@.len() - i,
    {
        let ghost before = views(r@);
        let x: Numbers = match &v[i] {
            Numbers::Singles(s) => Numbers::Singles(copy_vec(s)),
            Numbers::Halves(h) => Numbers::Halves(copy_vec(h)),
        };
        assert(x@ == all[i as int]);
        r.push(x);
        i = i + 1;
        assert(views(r@) =~= before.push(all[i - 1]));
        assert(views(r@) =~= all.take(i as int));
    }
    assert(all.take(i as int) =~= all);
    r
}

// ---------------------------------------------------------------------------
// Laws
// ---------------------------------------------------------------------------

/// An input that was set reads back as it is stored: unchanged in a graph of
/// singles, rounded to halves in a graph of halves. Other tensors keep their numbers.
pub proof fn law_input_reads_back(r: CpuView, name: Seq<char>, data: Seq<u32>, other: Seq<char>)
    requires
        with_input(r, name, data) is Ok,
    ensures
        ({
            let after = CpuView { memory: with_input(r, name, data)->Ok_0, ..r };
            &&& float_of(r.graph.dtype) is Some
            &&& output_numbers(after, name) == Ok::<Seq<u32>, ErrorView>(
                stored(float_of(r.graph.dtype)->0, data),
            )
            &&& other != name ==> output_numbers(after, other) == output_numbers(r, other)
        }),
{
    let f = float_of(r.graph.dtype)->0;
    let there = r.memory[name];
    let bytes = encoded(f, data);
    let rest = there.skip(bytes.len() as int);
    assert(overlaid(there, bytes) =~= bytes + rest);
    law_written_numbers_read_back(f, data, rest);
}

} // verus!
