//! Running one op of an F32 graph on named buffers, channels first.

use vstd::prelude::*;
use vstd::string::*;
use crate::builder::{CompiledOp, OpParams, OpView, ParamsView};
use crate::error::{outcome, Error, ErrorView};
use crate::graph::{Graph, GraphView};
use crate::kernels::{
    add_row_bias, apply_over, are_bounds, average_channels, broadcast_over, channel_means,
    check_bounds, checked_volume, clip, clipped, convolution_fits, convolve, convolved, flip_signs,
    matrix_product,
    multiply, normalize_rows, normalized_rows, overlaid, overlay, pool, pooled, rectified, rectify,
    resize_images, resized, row_biased, shift_rows, sigmoid_arguments, sigmoids, softmax_arguments,
    stepped, take_steps, to_sigmoids, Arithmetic, Convolution, Pooling, Product, Windows,
};
use crate::kernels::{
    checked_strides, origin, reorder_elements, reordered, reordered_elements, strides_fit,
};
use crate::model::copy_vec;
use crate::name_map::NameMap;
use crate::ops::common::{err_too_few_inputs, no_output, too_few_inputs};
use crate::tensor::{checked_numel, numel, products_fit, ShapeView, TensorShape};
use crate::text::{concat2, str_eq};

verus! {

// ---------------------------------------------------------------------------
// Looking things up
// ---------------------------------------------------------------------------

/// What an op answers when a tensor is too small for what it is to hold, or has
/// too few dimensions.
pub open spec fn bad_sizes() -> ErrorView {
    ErrorView::Runtime("tensor sizes do not fit the op"@)
}

/// The answer when a tensor is too small for what it is to hold.
pub fn err_bad_sizes() -> (r: Error)
    ensures
        r@ == bad_sizes(),
{
    Error::Runtime("tensor sizes do not fit the op".to_owned())
}

/// A buffer by name.
pub open spec fn found(bufs: Map<Seq<char>, Seq<u32>>, name: Seq<char>) -> Result<
    Seq<u32>,
    ErrorView,
> {
    if bufs.dom().contains(name) {
        Ok(bufs[name])
    } else {
        Err(ErrorView::Runtime("buffer not found: "@ + name))
    }
}

/// A shape by name.
pub open spec fn shape_at(g: GraphView, name: Seq<char>) -> Result<ShapeView, ErrorView> {
    if g.shapes.dom().contains(name) {
        Ok(g.shapes[name])
    } else {
        Err(ErrorView::Runtime("shape not found: "@ + name))
    }
}

/// A copy of a buffer.
pub fn find_buffer(bufs: &NameMap<Vec<u32>>, name: &String) -> (r: Result<Vec<u32>, Error>)
    ensures
        outcome(r) == found(bufs@, name@),
{
    match bufs.get(name.as_str()) {
        Some(v) => Ok(copy_vec(v)),
        None => Err(Error::Runtime(concat2("buffer not found: ", name.as_str()))),
    }
}

/// A shape by name.
pub fn find_shape<'a>(graph: &'a Graph, name: &String) -> (r: Result<&'a TensorShape, Error>)
    ensures
        outcome(r) == shape_at(graph@, name@),
{
    match graph.shapes.get(name.as_str()) {
        Some(s) => Ok(s),
        None => Err(Error::Runtime(concat2("shape not found: ", name.as_str()))),
    }
}

/// Whether an op names `n` inputs and an output.
pub open spec fn names_checked(op: OpView, n: nat) -> Result<(), ErrorView> {
    if op.inputs.len() < n {
        Err(too_few_inputs())
    } else if op.outputs.len() == 0 {
        Err(no_output())
    } else {
        Ok(())
    }
}

/// Whether an op names `n` inputs and an output.
pub fn check_names(op: &CompiledOp, n: usize) -> (r: Result<(), Error>)
    ensures
        match r {
            Ok(_) => names_checked(op@, n as nat) is Ok,
            Err(e) => names_checked(op@, n as nat) == Err::<(), ErrorView>(e@),
        },
{
    if op.inputs.len() < n {
        Err(err_too_few_inputs())
    } else if op.outputs.len() == 0 {
        Err(Error::Shape("no output".to_owned()))
    } else {
        Ok(())
    }
}

/// The input of an op with one input, and what is in its output.
pub open spec fn unary_of(bufs: Map<Seq<char>, Seq<u32>>, op: OpView) -> Result<
    (Seq<u32>, Seq<u32>),
    ErrorView,
> {
    match names_checked(op, 1) {
        Err(e) => Err(e),
        Ok(_) => match found(bufs, op.inputs[0]) {
            Err(e) => Err(e),
            Ok(x) => match found(bufs, op.outputs[0]) {
                Err(e) => Err(e),
                Ok(o) => Ok((x, o)),
            },
        },
    }
}

/// The inputs of an op with two inputs, and what is in its output.
pub open spec fn binary_of(bufs: Map<Seq<char>, Seq<u32>>, op: OpView) -> Result<
    (Seq<u32>, Seq<u32>, Seq<u32>),
    ErrorView,
> {
    match names_checked(op, 2) {
        Err(e) => Err(e),
        Ok(_) => match found(bufs, op.inputs[0]) {
            Err(e) => Err(e),
            Ok(a) => match found(bufs, op.inputs[1]) {
                Err(e) => Err(e),
                Ok(b) => match found(bufs, op.outputs[0]) {
                    Err(e) => Err(e),
                    Ok(o) => Ok((a, b, o)),
                },
            },
        },
    }
}

fn find_unary(bufs: &NameMap<Vec<u32>>, op: &CompiledOp) -> (r: Result<
    (Vec<u32>, Vec<u32>),
    Error,
>)
    ensures
        match r {
            Ok(p) => unary_of(bufs@, op@) == Ok::<(Seq<u32>, Seq<u32>), ErrorView>((p.0@, p.1@)),
            Err(e) => unary_of(bufs@, op@) == Err::<(Seq<u32>, Seq<u32>), ErrorView>(e@),
        },
{
    match check_names(op, 1) {
        Ok(_) => {},
        Err(e) => {
            return Err(e);
        },
    }
    assert(op@.inputs[0] == op.inputs@[0]@);
    assert(op@.outputs[0] == op.outputs@[0]@);
    let x: Vec<u32> = match find_buffer(bufs, &op.inputs[0]) {
        Ok(x) => x,
        Err(e) => {
            return Err(e);
        },
    };
    match find_buffer(bufs, &op.outputs[0]) {
        Ok(o) => Ok((x, o)),
        Err(e) => Err(e),
    }
}

fn find_binary(bufs: &NameMap<Vec<u32>>, op: &CompiledOp) -> (r: Result<
    (Vec<u32>, Vec<u32>, Vec<u32>),
    Error,
>)
    ensures
        match r {
            Ok(p) => binary_of(bufs@, op@) == Ok::<(Seq<u32>, Seq<u32>, Seq<u32>), ErrorView>(
                (p.0@, p.1@, p.2@),
            ),
            Err(e) => binary_of(bufs@, op@) == Err::<
                (Seq<u32>, Seq<u32>, Seq<u32>),
                ErrorView,
            >(e@),
        },
{
    match check_names(op, 2) {
        Ok(_) => {},
        Err(e) => {
            return Err(e);
        },
    }
    assert(op@.inputs[0] == op.inputs@[0]@);
    assert(op@.inputs[1] == op.inputs@[1]@);
    assert(op@.outputs[0] == op.outputs@[0]@);
    let a: Vec<u32> = match find_buffer(bufs, &op.inputs[0]) {
        Ok(x) => x,
        Err(e) => {
            return Err(e);
        },
    };
    let b: Vec<u32> = match find_buffer(bufs, &op.inputs[1]) {
        Ok(x) => x,
        Err(e) => {
            return Err(e);
        },
    };
    match find_buffer(bufs, &op.outputs[0]) {
        Ok(o) => Ok((a, b, o)),
        Err(e) => Err(e),
    }
}

/// The bias of an op: its third input, if it names one that there is.
pub open spec fn bias_of(bufs: Map<Seq<char>, Seq<u32>>, op: OpView) -> Seq<u32> {
    if op.inputs.len() > 2 && op.inputs[2].len() > 0 && bufs.dom().contains(op.inputs[2]) {
        bufs[op.inputs[2]]
    } else {
        Seq::empty()
    }
}

fn find_bias(bufs: &NameMap<Vec<u32>>, op: &CompiledOp) -> (r: Vec<u32>)
    ensures
        r@ == bias_of(bufs@, op@),
{
    if op.inputs.len() > 2 {
        assert(op@.inputs[2] == op.inputs@[2]@);
        if !str_eq(op.inputs[2].as_str(), "") {
            proof {
                reveal_strlit("");
                assert(op@.inputs[2].len() > 0) by {
                    if op@.inputs[2].len() == 0 {
                        assert(op@.inputs[2] =~= ""@);
                    }
                }
            }
            match bufs.get(op.inputs[2].as_str()) {
                Some(v) => {
                    return copy_vec(v);
                },
                None => {},
            }
        } else {
            proof {
                reveal_strlit("");
            }
        }
    }
    Vec::new()
}

// ---------------------------------------------------------------------------
// Element by element
// ---------------------------------------------------------------------------

/// The output of a Relu.
pub open spec fn relu_result(bufs: Map<Seq<char>, Seq<u32>>, op: OpView) -> Result<
    Seq<u32>,
    ErrorView,
> {
    match unary_of(bufs, op) {
        Err(e) => Err(e),
        Ok((x, o)) => Ok(overlaid(o, rectified(x))),
    }
}

/// The output of a Clip.
pub open spec fn clip_result(bufs: Map<Seq<char>, Seq<u32>>, op: OpView, min: u32, max: u32) -> Result<
    Seq<u32>,
    ErrorView,
> {
    match unary_of(bufs, op) {
        Err(e) => Err(e),
        Ok((x, o)) => if x.len() > 0 && o.len() > 0 && !are_bounds(min, max) {
            Err(ErrorView::Runtime("clip bounds are out of order"@))
        } else {
            Ok(overlaid(o, clipped(x, min, max)))
        },
    }
}

/// The output of an Add, Sub, Mul or Div.
pub open spec fn arithmetic_result(
    bufs: Map<Seq<char>, Seq<u32>>,
    op: OpView,
    kind: Arithmetic,
) -> Result<Seq<u32>, ErrorView> {
    match binary_of(bufs, op) {
        Err(e) => Err(e),
        Ok((a, b, o)) => if a.len() == 0 || o.len() == 0 {
            Ok(o)
        } else if b.len() == 0 {
            Err(bad_sizes())
        } else {
            Ok(overlaid(o, broadcast_over(kind, a, b)))
        },
    }
}

/// The output of a Sigmoid, given the exponentials that it needs.
pub open spec fn sigmoid_result(bufs: Map<Seq<char>, Seq<u32>>, op: OpView, exps: Seq<u32>) -> Result<
    Seq<u32>,
    ErrorView,
> {
    match unary_of(bufs, op) {
        Err(e) => Err(e),
        Ok((x, o)) => if exps.len() != x.len() {
            Err(bad_sizes())
        } else {
            Ok(overlaid(o, sigmoids(exps)))
        },
    }
}

/// The output of a SiLU, given the exponentials that its sigmoid needs.
pub open spec fn silu_result(bufs: Map<Seq<char>, Seq<u32>>, op: OpView, exps: Seq<u32>) -> Result<
    Seq<u32>,
    ErrorView,
> {
    match unary_of(bufs, op) {
        Err(e) => Err(e),
        Ok((x, o)) => if exps.len() != x.len() {
            Err(bad_sizes())
        } else if x.len() == 0 {
            Ok(o)
        } else {
            Ok(overlaid(o, broadcast_over(Arithmetic::Product, x, sigmoids(exps))))
        },
    }
}

fn run_relu(bufs: &NameMap<Vec<u32>>, op: &CompiledOp) -> (r: Result<Vec<u32>, Error>)
    ensures
        outcome(r) == relu_result(bufs@, op@),
{
    match find_unary(bufs, op) {
        Ok((x, o)) => Ok(overlay(&o, &rectify(&x))),
        Err(e) => Err(e),
    }
}

fn run_clip(bufs: &NameMap<Vec<u32>>, op: &CompiledOp, min: u32, max: u32) -> (r: Result<
    Vec<u32>,
    Error,
>)
    ensures
        outcome(r) == clip_result(bufs@, op@, min, max),
{
    match find_unary(bufs, op) {
        Ok((x, o)) => if x.len() > 0 && o.len() > 0 && !check_bounds(min, max) {
            Err(Error::Runtime("clip bounds are out of order".to_owned()))
        } else {
            Ok(overlay(&o, &clip(&x, min, max)))
        },
        Err(e) => Err(e),
    }
}

fn run_arithmetic(bufs: &NameMap<Vec<u32>>, op: &CompiledOp, kind: Arithmetic) -> (r: Result<
    Vec<u32>,
    Error,
>)
    ensures
        outcome(r) == arithmetic_result(bufs@, op@, kind),
{
    match find_binary(bufs, op) {
        Ok((a, b, o)) => if a.len() == 0 || o.len() == 0 {
            Ok(o)
        } else if b.len() == 0 {
            Err(err_bad_sizes())
        } else {
            Ok(overlay(&o, &apply_over(kind, &a, &b)))
        },
        Err(e) => Err(e),
    }
}

fn run_sigmoid(bufs: &NameMap<Vec<u32>>, op: &CompiledOp, exps: &Vec<u32>) -> (r: Result<
    Vec<u32>,
    Error,
>)
    ensures
        outcome(r) == sigmoid_result(bufs@, op@, exps@),
{
    match find_unary(bufs, op) {
        Ok((x, o)) => if exps.len() != x.len() {
            Err(err_bad_sizes())
        } else {
            Ok(overlay(&o, &to_sigmoids(exps)))
        },
        Err(e) => Err(e),
    }
}

fn run_silu(bufs: &NameMap<Vec<u32>>, op: &CompiledOp, exps: &Vec<u32>) -> (r: Result<
    Vec<u32>,
    Error,
>)
    ensures
        outcome(r) == silu_result(bufs@, op@, exps@),
{
    match find_unary(bufs, op) {
        Ok((x, o)) => if exps.len() != x.len() {
            Err(err_bad_sizes())
        } else if x.len() == 0 {
            Ok(o)
        } else {
            Ok(overlay(&o, &apply_over(Arithmetic::Product, &x, &to_sigmoids(exps))))
        },
        Err(e) => Err(e),
    }
}

// ---------------------------------------------------------------------------
// Products
// ---------------------------------------------------------------------------

/// The output of a Gemm or MatMul.
pub open spec fn gemm_result(
    g: GraphView,
    bufs: Map<Seq<char>, Seq<u32>>,
    op: OpView,
    trans_a: bool,
    trans_b: bool,
) -> Result<Seq<u32>, ErrorView> {
    match names_checked(op, 2) {
        Err(e) => Err(e),
        Ok(_) => match shape_at(g, op.inputs[0]) {
            Err(e) => Err(e),
            Ok(sa) => match shape_at(g, op.inputs[1]) {
                Err(e) => Err(e),
                Ok(sb) => if sa.dims.len() < 2 || sb.dims.len() < 2 {
                    Err(bad_sizes())
                } else {
                    let m = sa.dims[if trans_a { 1int } else { 0 }] as int;
                    let k = sa.dims[if trans_a { 0int } else { 1 }] as int;
                    let n = sb.dims[if trans_b { 0int } else { 1 }] as int;
                    match binary_of(bufs, op) {
                        Err(e) => Err(e),
                        Ok((a, b, o)) => if m * n > o.len() || (m > 0 && n > 0 && (m * k > a.len() || k
                            * n > b.len())) {
                            Err(bad_sizes())
                        } else {
                            let c = matrix_product(Product { m, n, k, trans_a, trans_b }, a, b);
                            let bias = bias_of(bufs, op);
                            Ok(
                                overlaid(
                                    o,
                                    if bias.len() == 0 {
                                        c
                                    } else {
                                        row_biased(c, n, bias)
                                    },
                                ),
                            )
                        },
                    }
                },
            },
        },
    }
}

/// Whether a product is at most a length.
pub fn product_fits(a: usize, b: usize, len: usize) -> (r: bool)
    ensures
        r == (a * b <= len),
{
    match a.checked_mul(b) {
        Some(p) => p <= len,
        None => false,
    }
}

fn run_gemm(
    graph: &Graph,
    bufs: &NameMap<Vec<u32>>,
    op: &CompiledOp,
    trans_a: bool,
    trans_b: bool,
) -> (r: Result<Vec<u32>, Error>)
    ensures
        outcome(r) == gemm_result(graph@, bufs@, op@, trans_a, trans_b),
{
    match check_names(op, 2) {
        Ok(_) => {},
        Err(e) => {
            return Err(e);
        },
    }
    assert(op@.inputs[0] == op.inputs@[0]@);
    assert(op@.inputs[1] == op.inputs@[1]@);
    let sa: &TensorShape = match find_shape(graph, &op.inputs[0]) {
        Ok(s) => s,
        Err(e) => {
            return Err(e);
        },
    };
    let sb: &TensorShape = match find_shape(graph, &op.inputs[1]) {
        Ok(s) => s,
        Err(e) => {
            return Err(e);
        },
    };
    if sa.dims.len() < 2 || sb.dims.len() < 2 {
        return Err(err_bad_sizes());
    }
    let m: usize = if trans_a {
        sa.dims[1]
    } else {
        sa.dims[0]
    };
    let k: usize = if trans_a {
        sa.dims[0]
    } else {
        sa.dims[1]
    };
    let n: usize = if trans_b {
        sb.dims[0]
    } else {
        sb.dims[1]
    };
    match find_binary(bufs, op) {
        Ok((a, b, o)) => {
            if m == 0 || n == 0 {
                assert(m * n == 0) by (nonlinear_arith)
                    requires
                        m == 0 || n == 0,
                ;
                let c: Vec<u32> = Vec::new();
                proof {
                    let p = Product {
                        m: m as int,
                        n: n as int,
                        k: k as int,
                        trans_a,
                        trans_b,
                    };
                    assert(matrix_product(p, a@, b@) =~= c@);
                    let bias = bias_of(bufs@, op@);
                    assert(row_biased(c@, n as int, bias) =~= c@);
                }
                return Ok(overlay(&o, &c));
            }
            if !product_fits(m, k, a.len()) || !product_fits(k, n, b.len()) || !product_fits(
                m,
                n,
                o.len(),
            ) {
                return Err(err_bad_sizes());
            }
            assert(o@.len() == o.len());
            let c: Vec<u32> = multiply(&a, &b, m, n, k, trans_a, trans_b);
            let bias: Vec<u32> = find_bias(bufs, op);
            if bias.len() == 0 {
                Ok(overlay(&o, &c))
            } else {
                assert(m * n > 0 ==> n > 0) by (nonlinear_arith);
                Ok(overlay(&o, &add_row_bias(&c, n, &bias)))
            }
        },
        Err(e) => Err(e),
    }
}

/// The output of a convolution.
pub open spec fn conv_result(
    g: GraphView,
    bufs: Map<Seq<char>, Seq<u32>>,
    op: OpView,
    kernel: Seq<usize>,
    strides: Seq<usize>,
    pads: Seq<usize>,
    group: usize,
) -> Result<Seq<u32>, ErrorView> {
    match names_checked(op, 2) {
        Err(e) => Err(e),
        Ok(_) => match shape_at(g, op.inputs[0]) {
            Err(e) => Err(e),
            Ok(sx) => match shape_at(g, op.outputs[0]) {
                Err(e) => Err(e),
                Ok(so) => match shape_at(g, op.inputs[1]) {
                    Err(e) => Err(e),
                    Ok(sw) => if sx.dims.len() < 4 || sw.dims.len() < 1 || so.dims.len() < 4 {
                        Err(bad_sizes())
                    } else {
                        let cv = Convolution {
                            images: sx.dims[0],
                            c_in: sx.dims[1],
                            in_h: sx.dims[2],
                            in_w: sx.dims[3],
                            c_out: sw.dims[0],
                            out_h: so.dims[2],
                            out_w: so.dims[3],
                            kernel_h: kernel[0],
                            kernel_w: kernel[1],
                            stride_h: strides[0],
                            stride_w: strides[1],
                            pad_h: pads[0],
                            pad_w: pads[1],
                            group,
                        };
                        let bias = bias_of(bufs, op);
                        match binary_of(bufs, op) {
                            Err(e) => Err(e),
                            Ok((x, w, o)) => if convolution_fits(cv, x, w, bias, o) {
                                Ok(overlaid(o, convolved(cv, x, w, bias, o)))
                            } else {
                                Err(bad_sizes())
                            },
                        }
                    },
                },
            },
        },
    }
}

fn run_conv(
    graph: &Graph,
    bufs: &NameMap<Vec<u32>>,
    op: &CompiledOp,
    kernel: &[usize; 2],
    strides: &[usize; 2],
    pads: &[usize; 4],
    group: usize,
) -> (r: Result<Vec<u32>, Error>)
    ensures
        outcome(r) == conv_result(graph@, bufs@, op@, kernel@, strides@, pads@, group),
{
    match check_names(op, 2) {
        Ok(_) => {},
        Err(e) => {
            return Err(e);
        },
    }
    assert(op@.inputs[0] == op.inputs@[0]@);
    assert(op@.inputs[1] == op.inputs@[1]@);
    assert(op@.outputs[0] == op.outputs@[0]@);
    let sx: &TensorShape = match find_shape(graph, &op.inputs[0]) {
        Ok(s) => s,
        Err(e) => {
            return Err(e);
        },
    };
    let so: &TensorShape = match find_shape(graph, &op.outputs[0]) {
        Ok(s) => s,
        Err(e) => {
            return Err(e);
        },
    };
    let sw: &TensorShape = match find_shape(graph, &op.inputs[1]) {
        Ok(s) => s,
        Err(e) => {
            return Err(e);
        },
    };
    if sx.dims.len() < 4 || sw.dims.len() < 1 || so.dims.len() < 4 {
        return Err(err_bad_sizes());
    }
    let cv: Convolution = Convolution {
        images: sx.dims[0],
        c_in: sx.dims[1],
        in_h: sx.dims[2],
        in_w: sx.dims[3],
        c_out: sw.dims[0],
        out_h: so.dims[2],
        out_w: so.dims[3],
        kernel_h: kernel[0],
        kernel_w: kernel[1],
        stride_h: strides[0],
        stride_w: strides[1],
        pad_h: pads[0],
        pad_w: pads[1],
        group,
    };
    let bias: Vec<u32> = find_bias(bufs, op);
    match find_binary(bufs, op) {
        Ok((x, w, o)) => match convolve(cv, &x, &w, &bias, &o) {
            Some(v) => Ok(overlay(&o, &v)),
            None => Err(err_bad_sizes()),
        },
        Err(e) => Err(e),
    }
}

/// An output with zero in place of what is below.
pub open spec fn all_rectified(r: Result<Seq<u32>, ErrorView>) -> Result<Seq<u32>, ErrorView> {
    match r {
        Ok(v) => Ok(rectified(v)),
        Err(e) => Err(e),
    }
}

fn rectify_all(r: Result<Vec<u32>, Error>) -> (s: Result<Vec<u32>, Error>)
    ensures
        outcome(s) == all_rectified(outcome(r)),
{
    match r {
        Ok(v) => Ok(rectify(&v)),
        Err(e) => Err(e),
    }
}

// ---------------------------------------------------------------------------
// Pools and resizing
// ---------------------------------------------------------------------------

/// Whether all that a window op reads and writes is there.
pub open spec fn windows_fit(w: Windows, x: Seq<u32>, o: Seq<u32>) -> bool {
    &&& w.images * w.channels <= usize::MAX
    &&& (w.images * w.channels) * w.in_h <= usize::MAX
    &&& w.in_volume() <= x.len()
    &&& (w.images * w.channels) * w.out_h <= usize::MAX
    &&& w.out_volume() <= o.len()
    &&& w.kernel_h * w.kernel_w <= usize::MAX
}

fn check_windows(w: Windows, x: &Vec<u32>, o: &Vec<u32>) -> (r: bool)
    ensures
        r == windows_fit(w, x@, o@),
{
    assert(x@.len() == x.len() && o@.len() == o.len());
    match checked_volume(w.images, w.channels, w.in_h, w.in_w) {
        Some(n) => {
            if n > x.len() {
                return false;
            }
        },
        None => {
            return false;
        },
    }
    match checked_volume(w.images, w.channels, w.out_h, w.out_w) {
        Some(n) => {
            if n > o.len() {
                return false;
            }
        },
        None => {
            return false;
        },
    }
    w.kernel_h.checked_mul(w.kernel_w).is_some()
}

/// The output of a MaxPool or AveragePool.
pub open spec fn pool_result(
    g: GraphView,
    bufs: Map<Seq<char>, Seq<u32>>,
    op: OpView,
    kind: Pooling,
    kernel: Seq<usize>,
    strides: Seq<usize>,
) -> Result<Seq<u32>, ErrorView> {
    match names_checked(op, 1) {
        Err(e) => Err(e),
        Ok(_) => match shape_at(g, op.inputs[0]) {
            Err(e) => Err(e),
            Ok(sx) => match shape_at(g, op.outputs[0]) {
                Err(e) => Err(e),
                Ok(so) => if sx.dims.len() < 4 || so.dims.len() < 4 {
                    Err(bad_sizes())
                } else {
                    let w = Windows {
                        images: sx.dims[0],
                        channels: sx.dims[1],
                        in_h: sx.dims[2],
                        in_w: sx.dims[3],
                        out_h: so.dims[2],
                        out_w: so.dims[3],
                        kernel_h: kernel[0],
                        kernel_w: kernel[1],
                        stride_h: strides[0],
                        stride_w: strides[1],
                    };
                    match unary_of(bufs, op) {
                        Err(e) => Err(e),
                        Ok((x, o)) => if windows_fit(w, x, o) {
                            Ok(overlaid(o, pooled(kind, w, x)))
                        } else {
                            Err(bad_sizes())
                        },
                    }
                },
            },
        },
    }
}

fn run_pool(
    graph: &Graph,
    bufs: &NameMap<Vec<u32>>,
    op: &CompiledOp,
    kind: Pooling,
    kernel: &[usize; 2],
    strides: &[usize; 2],
) -> (r: Result<Vec<u32>, Error>)
    ensures
        outcome(r) == pool_result(graph@, bufs@, op@, kind, kernel@, strides@),
{
    match check_names(op, 1) {
        Ok(_) => {},
        Err(e) => {
            return Err(e);
        },
    }
    assert(op@.inputs[0] == op.inputs@[0]@);
    assert(op@.outputs[0] == op.outputs@[0]@);
    let sx: &TensorShape = match find_shape(graph, &op.inputs[0]) {
        Ok(s) => s,
        Err(e) => {
            return Err(e);
        },
    };
    let so: &TensorShape = match find_shape(graph, &op.outputs[0]) {
        Ok(s) => s,
        Err(e) => {
            return Err(e);
        },
    };
    if sx.dims.len() < 4 || so.dims.len() < 4 {
        return Err(err_bad_sizes());
    }
    let w: Windows = Windows {
        images: sx.dims[0],
        channels: sx.dims[1],
        in_h: sx.dims[2],
        in_w: sx.dims[3],
        out_h: so.dims[2],
        out_w: so.dims[3],
        kernel_h: kernel[0],
        kernel_w: kernel[1],
        stride_h: strides[0],
        stride_w: strides[1],
    };
    match find_unary(bufs, op) {
        Ok((x, o)) => if check_windows(w, &x, &o) {
            assert(o@.len() == o.len());
            Ok(overlay(&o, &pool(kind, w, &x)))
        } else {
            Err(err_bad_sizes())
        },
        Err(e) => Err(e),
    }
}

/// The output of a GlobalAveragePool.
pub open spec fn global_pool_result(
    g: GraphView,
    bufs: Map<Seq<char>, Seq<u32>>,
    op: OpView,
) -> Result<Seq<u32>, ErrorView> {
    match names_checked(op, 1) {
        Err(e) => Err(e),
        Ok(_) => match shape_at(g, op.inputs[0]) {
            Err(e) => Err(e),
            Ok(sx) => if sx.dims.len() < 4 {
                Err(bad_sizes())
            } else {
                let channels = sx.dims[0] * sx.dims[1];
                let per = sx.dims[2] * sx.dims[3];
                match unary_of(bufs, op) {
                    Err(e) => Err(e),
                    Ok((x, o)) => if per > usize::MAX || channels * per > x.len() || channels
                        > o.len() {
                        Err(bad_sizes())
                    } else {
                        Ok(overlaid(o, channel_means(x, channels as nat, per as nat)))
                    },
                }
            },
        },
    }
}

fn run_global_pool(graph: &Graph, bufs: &NameMap<Vec<u32>>, op: &CompiledOp) -> (r: Result<
    Vec<u32>,
    Error,
>)
    ensures
        outcome(r) == global_pool_result(graph@, bufs@, op@),
{
    match check_names(op, 1) {
        Ok(_) => {},
        Err(e) => {
            return Err(e);
        },
    }
    assert(op@.inputs[0] == op.inputs@[0]@);
    let sx: &TensorShape = match find_shape(graph, &op.inputs[0]) {
        Ok(s) => s,
        Err(e) => {
            return Err(e);
        },
    };
    if sx.dims.len() < 4 {
        return Err(err_bad_sizes());
    }
    match find_unary(bufs, op) {
        Ok((x, o)) => {
            assert(o@.len() == o.len());
            let per: usize = match sx.dims[2].checked_mul(sx.dims[3]) {
                Some(p) => p,
                None => {
                    return Err(err_bad_sizes());
                },
            };
            let channels: usize = match sx.dims[0].checked_mul(sx.dims[1]) {
                Some(p) => p,
                None => {
                    return Err(err_bad_sizes());
                },
            };
            if !product_fits(channels, per, x.len()) || channels > o.len() {
                return Err(err_bad_sizes());
            }
            Ok(overlay(&o, &average_channels(&x, channels, per)))
        },
        Err(e) => Err(e),
    }
}

/// The output of a Resize.
pub open spec fn resize_result(
    g: GraphView,
    bufs: Map<Seq<char>, Seq<u32>>,
    op: OpView,
    out_h: usize,
    out_w: usize,
    mode: Seq<char>,
) -> Result<Seq<u32>, ErrorView> {
    match names_checked(op, 1) {
        Err(e) => Err(e),
        Ok(_) => match shape_at(g, op.inputs[0]) {
            Err(e) => Err(e),
            Ok(sx) => if sx.dims.len() < 4 {
                Err(bad_sizes())
            } else {
                let w = Windows {
                    images: sx.dims[0],
                    channels: sx.dims[1],
                    in_h: sx.dims[2],
                    in_w: sx.dims[3],
                    out_h,
                    out_w,
                    kernel_h: 1,
                    kernel_w: 1,
                    stride_h: 1,
                    stride_w: 1,
                };
                match unary_of(bufs, op) {
                    Err(e) => Err(e),
                    Ok((x, o)) => if !windows_fit(w, x, o) || (w.out_volume() > 0 && (w.in_h == 0
                        || w.in_w == 0)) {
                        Err(bad_sizes())
                    } else {
                        Ok(overlaid(o, resized(w, x, mode == "nearest"@)))
                    },
                }
            },
        },
    }
}

fn run_resize(
    graph: &Graph,
    bufs: &NameMap<Vec<u32>>,
    op: &CompiledOp,
    out_h: usize,
    out_w: usize,
    mode: &String,
) -> (r: Result<Vec<u32>, Error>)
    ensures
        outcome(r) == resize_result(graph@, bufs@, op@, out_h, out_w, mode@),
{
    match check_names(op, 1) {
        Ok(_) => {},
        Err(e) => {
            return Err(e);
        },
    }
    assert(op@.inputs[0] == op.inputs@[0]@);
    let sx: &TensorShape = match find_shape(graph, &op.inputs[0]) {
        Ok(s) => s,
        Err(e) => {
            return Err(e);
        },
    };
    if sx.dims.len() < 4 {
        return Err(err_bad_sizes());
    }
    let w: Windows = Windows {
        images: sx.dims[0],
        channels: sx.dims[1],
        in_h: sx.dims[2],
        in_w: sx.dims[3],
        out_h,
        out_w,
        kernel_h: 1,
        kernel_w: 1,
        stride_h: 1,
        stride_w: 1,
    };
    match find_unary(bufs, op) {
        Ok((x, o)) => {
            if !check_windows(w, &x, &o) {
                return Err(err_bad_sizes());
            }
            assert(o@.len() == o.len());
            if ((w.images * w.channels) * w.out_h) * w.out_w > 0 && (w.in_h == 0 || w.in_w == 0) {
                return Err(err_bad_sizes());
            }
            Ok(overlay(&o, &resize_images(w, &x, str_eq(mode.as_str(), "nearest"))))
        },
        Err(e) => Err(e),
    }
}

// ---------------------------------------------------------------------------
// Softmax
// ---------------------------------------------------------------------------

/// The last dimension, 1 for a scalar.
pub open spec fn last_dim(dims: Seq<usize>) -> usize {
    if dims.len() == 0 {
        1
    } else {
        dims.last()
    }
}

/// The input of a Softmax, what is in its output, the number of rows and their length.
pub open spec fn softmax_parts(g: GraphView, bufs: Map<Seq<char>, Seq<u32>>, op: OpView) -> Result<
    (Seq<u32>, Seq<u32>, nat, nat),
    ErrorView,
> {
    match names_checked(op, 1) {
        Err(e) => Err(e),
        Ok(_) => match shape_at(g, op.inputs[0]) {
            Err(e) => Err(e),
            Ok(s) => if last_dim(s.dims) == 0 || !products_fit(s.dims) {
                Err(bad_sizes())
            } else {
                let n = last_dim(s.dims) as nat;
                let rows = numel(s.dims) / n;
                match unary_of(bufs, op) {
                    Err(e) => Err(e),
                    Ok((x, o)) => if rows * n > x.len() || rows * n > o.len() {
                        Err(bad_sizes())
                    } else {
                        Ok((x, o, rows, n))
                    },
                }
            },
        },
    }
}

/// The output of a Softmax, given the exponentials that it needs.
pub open spec fn softmax_result(
    g: GraphView,
    bufs: Map<Seq<char>, Seq<u32>>,
    op: OpView,
    exps: Seq<u32>,
) -> Result<Seq<u32>, ErrorView> {
    match softmax_parts(g, bufs, op) {
        Err(e) => Err(e),
        Ok((x, o, rows, n)) => if exps.len() != rows * n {
            Err(bad_sizes())
        } else {
            Ok(overlaid(o, normalized_rows(exps, n)))
        },
    }
}

fn find_softmax(graph: &Graph, bufs: &NameMap<Vec<u32>>, op: &CompiledOp) -> (r: Result<
    (Vec<u32>, Vec<u32>, usize, usize),
    Error,
>)
    ensures
        match r {
            Ok(p) => softmax_parts(graph@, bufs@, op@) == Ok::<
                (Seq<u32>, Seq<u32>, nat, nat),
                ErrorView,
            >((p.0@, p.1@, p.2 as nat, p.3 as nat)),
            Err(e) => softmax_parts(graph@, bufs@, op@) == Err::<
                (Seq<u32>, Seq<u32>, nat, nat),
                ErrorView,
            >(e@),
        },
{
    match check_names(op, 1) {
        Ok(_) => {},
        Err(e) => {
            return Err(e);
        },
    }
    assert(op@.inputs[0] == op.inputs@[0]@);
    let s: &TensorShape = match find_shape(graph, &op.inputs[0]) {
        Ok(s) => s,
        Err(e) => {
            return Err(e);
        },
    };
    let n: usize = if s.dims.len() == 0 {
        1
    } else {
        s.dims[s.dims.len() - 1]
    };
    if n == 0 {
        return Err(err_bad_sizes());
    }
    let total: usize = match checked_numel(s.dims.as_slice()) {
        Some(t) => t,
        None => {
            return Err(err_bad_sizes());
        },
    };
    let rows: usize = total / n;
    match find_unary(bufs, op) {
        Ok((x, o)) => if !product_fits(rows, n, x.len()) || !product_fits(rows, n, o.len()) {
            Err(err_bad_sizes())
        } else {
            Ok((x, o, rows, n))
        },
        Err(e) => Err(e),
    }
}

fn run_softmax(graph: &Graph, bufs: &NameMap<Vec<u32>>, op: &CompiledOp, exps: &Vec<u32>) -> (r: Result<
    Vec<u32>,
    Error,
>)
    ensures
        outcome(r) == softmax_result(graph@, bufs@, op@, exps@),
{
    match find_softmax(graph, bufs, op) {
        Ok((x, o, rows, n)) => {
            assert(o@.len() == o.len());
            assert(rows as nat * n as nat <= o@.len());
            if exps.len() != rows * n {
                return Err(err_bad_sizes());
            }
            Ok(overlay(&o, &normalize_rows(exps, rows, n)))
        },
        Err(e) => Err(e),
    }
}

// ---------------------------------------------------------------------------
// Moving elements
// ---------------------------------------------------------------------------

/// The buffers of the first `n` names, one after the other.
pub open spec fn joined_buffers(bufs: Map<Seq<char>, Seq<u32>>, names: Seq<Seq<char>>, n: nat) -> Result<
    Seq<u32>,
    ErrorView,
>
    decreases n,
{
    if n == 0 {
        Ok(Seq::empty())
    } else {
        match joined_buffers(bufs, names, (n - 1) as nat) {
            Err(e) => Err(e),
            Ok(before) => match found(bufs, names[n - 1]) {
                Err(e) => Err(e),
                Ok(v) => Ok(before + v),
            },
        }
    }
}

proof fn lemma_joined_prefix(bufs: Map<Seq<char>, Seq<u32>>, names: Seq<Seq<char>>, n: nat, m: nat)
    requires
        n <= m,
    ensures
        joined_buffers(bufs, names, n) is Err ==> joined_buffers(bufs, names, m) == joined_buffers(
            bufs,
            names,
            n,
        ),
    decreases m,
{
    if n < m {
        lemma_joined_prefix(bufs, names, n, (m - 1) as nat);
    }
}

/// The output of a Concat: one input after the other. Along the first axis all
/// of them have to fit.
pub open spec fn concat_result(
    g: GraphView,
    bufs: Map<Seq<char>, Seq<u32>>,
    op: OpView,
    axis: usize,
) -> Result<Seq<u32>, ErrorView> {
    if op.outputs.len() == 0 {
        Err(no_output())
    } else {
        match shape_at(g, op.outputs[0]) {
            Err(e) => Err(e),
            Ok(s) => match joined_buffers(bufs, op.inputs, op.inputs.len()) {
                Err(e) => Err(e),
                Ok(all) => match found(bufs, op.outputs[0]) {
                    Err(e) => Err(e),
                    Ok(o) => if axis == 0 && all.len() > o.len() {
                        Err(bad_sizes())
                    } else {
                        Ok(overlaid(o, all))
                    },
                },
            },
        }
    }
}

fn append_all(v: &mut Vec<u32>, w: &Vec<u32>)
    ensures
        final(v)@ == old(v)@ + w@,
{
    let ghost before = v@;
    let mut i: usize = 0;
    assert(v@ =~= before + w@.take(0));
    while i < w.len()
        invariant
            i <= w@.len(),
            v@ == before + w@.take(i as int),
        decreases w@.len() - i,
    {
        v.push(w[i]);
        i = i + 1;
        assert(v@ =~= before + w@.take(i as int));
    }
    assert(w@.take(i as int) =~= w@);
}

fn run_concat(graph: &Graph, bufs: &NameMap<Vec<u32>>, op: &CompiledOp, axis: usize) -> (r: Result<
    Vec<u32>,
    Error,
>)
    ensures
        outcome(r) == concat_result(graph@, bufs@, op@, axis),
{
    if op.outputs.len() == 0 {
        return Err(Error::Shape("no output".to_owned()));
    }
    assert(op@.outputs[0] == op.outputs@[0]@);
    match find_shape(graph, &op.outputs[0]) {
        Ok(_) => {},
        Err(e) => {
            return Err(e);
        },
    }
    let mut all: Vec<u32> = Vec::new();
    let mut i: usize = 0;
    while i < op.inputs.len()
        invariant
            i <= op.inputs@.len(),
            op.outputs@.len() > 0,
            op@.outputs[0] == op.outputs@[0]@,
            shape_at(graph@, op@.outputs[0]) is Ok,
            joined_buffers(bufs@, op@.inputs, i as nat) == Ok::<Seq<u32>, ErrorView>(all@),
        decreases op.inputs@.len() - i,
    {
        proof {
            assert(op@.inputs[i as int] == op.inputs@[i as int]@);
            lemma_joined_prefix(bufs@, op@.inputs, (i + 1) as nat, op@.inputs.len());
        }
        match find_buffer(bufs, &op.inputs[i]) {
            Ok(v) => {
                append_all(&mut all, &v);
            },
            Err(e) => {
                return Err(e);
            },
        }
        i = i + 1;
    }
    match find_buffer(bufs, &op.outputs[0]) {
        Ok(o) => if axis == 0 && all.len() > o.len() {
            Err(err_bad_sizes())
        } else {
            Ok(overlay(&o, &all))
        },
        Err(e) => Err(e),
    }
}

/// The output of a Slice: steps along the first axis, or a copy.
pub open spec fn slice_result(
    bufs: Map<Seq<char>, Seq<u32>>,
    op: OpView,
    starts: Seq<isize>,
    ends: Seq<isize>,
    axes: Seq<usize>,
    steps: Seq<isize>,
) -> Result<Seq<u32>, ErrorView> {
    match unary_of(bufs, op) {
        Err(e) => Err(e),
        Ok((x, o)) => if axes.len() == 1 && axes[0] == 0 {
            if starts.len() == 0 || ends.len() == 0 || steps.len() == 0 {
                Err(bad_sizes())
            } else {
                let start = if starts[0] > 0 {
                    starts[0] as int
                } else {
                    0
                };
                let end = if (ends[0] as usize) < x.len() {
                    (ends[0] as usize) as int
                } else {
                    x.len() as int
                };
                let step = if steps[0] > 1 {
                    steps[0] as int
                } else {
                    1
                };
                Ok(overlaid(o, stepped(x, start, end, step, o.len())))
            }
        } else {
            Ok(overlaid(o, x))
        },
    }
}

fn run_slice(
    bufs: &NameMap<Vec<u32>>,
    op: &CompiledOp,
    starts: &Vec<isize>,
    ends: &Vec<isize>,
    axes: &Vec<usize>,
    steps: &Vec<isize>,
) -> (r: Result<Vec<u32>, Error>)
    ensures
        outcome(r) == slice_result(bufs@, op@, starts@, ends@, axes@, steps@),
{
    match find_unary(bufs, op) {
        Ok((x, o)) => {
            if !(axes.len() == 1 && axes[0] == 0) {
                return Ok(overlay(&o, &x));
            }
            if starts.len() == 0 || ends.len() == 0 || steps.len() == 0 {
                return Err(err_bad_sizes());
            }
            let start: usize = if starts[0] > 0 {
                starts[0] as usize
            } else {
                0
            };
            let last: usize = ends[0] as usize;
            let end: usize = if last < x.len() {
                last
            } else {
                x.len()
            };
            let step: usize = if steps[0] > 1 {
                steps[0] as usize
            } else {
                1
            };
            Ok(overlay(&o, &take_steps(&x, start, end, step, o.len())))
        },
        Err(e) => Err(e),
    }
}

/// Whether every element of a transposed tensor comes from within the tensor.
pub open spec fn origins_within(dims: Seq<usize>, perm: Seq<usize>, total: nat, len: nat) -> bool {
    forall|i: nat| i < total ==> #[trigger] origin(dims, perm, i) < len
}

/// The order names dimensions that there are, and all of them have one.
pub open spec fn is_order(perm: Seq<usize>, rank: nat) -> bool {
    &&& perm.len() >= rank
    &&& forall|d: int| 0 <= d < perm.len() ==> (#[trigger] perm[d]) < rank
}

/// The output of a Transpose.
pub open spec fn transpose_result(
    g: GraphView,
    bufs: Map<Seq<char>, Seq<u32>>,
    op: OpView,
    perm: Seq<usize>,
) -> Result<Seq<u32>, ErrorView> {
    match names_checked(op, 1) {
        Err(e) => Err(e),
        Ok(_) => match shape_at(g, op.inputs[0]) {
            Err(e) => Err(e),
            Ok(s) => match unary_of(bufs, op) {
                Err(e) => Err(e),
                Ok((x, o)) => if s.dims.len() == 0 || !is_order(perm, s.dims.len()) || !products_fit(
                    s.dims,
                ) {
                    Err(bad_sizes())
                } else if numel(s.dims) == 0 {
                    Ok(o)
                } else if !strides_fit(s.dims) || !strides_fit(reordered(s.dims, perm)) || numel(
                    s.dims,
                ) > o.len() || !origins_within(s.dims, perm, numel(s.dims), x.len()) {
                    Err(bad_sizes())
                } else {
                    Ok(overlaid(o, reordered_elements(x, s.dims, perm, numel(s.dims))))
                },
            },
        },
    }
}

proof fn lemma_numel_positive(dims: Seq<usize>, d: int)
    requires
        numel(dims) > 0,
        0 <= d < dims.len(),
    ensures
        dims[d] > 0,
    decreases dims.len(),
{
    let a = numel(dims.drop_last());
    let b = dims.last() as nat;
    assert(a > 0 && b > 0) by (nonlinear_arith)
        requires
            a * b > 0,
            a >= 0,
            b >= 0,
    ;
    if d < dims.len() - 1 {
        lemma_numel_positive(dims.drop_last(), d);
    }
}

fn run_transpose(graph: &Graph, bufs: &NameMap<Vec<u32>>, op: &CompiledOp, perm: &Vec<usize>) -> (r:
    Result<Vec<u32>, Error>)
    ensures
        outcome(r) == transpose_result(graph@, bufs@, op@, perm@),
{
    match check_names(op, 1) {
        Ok(_) => {},
        Err(e) => {
            return Err(e);
        },
    }
    assert(op@.inputs[0] == op.inputs@[0]@);
    let s: &TensorShape = match find_shape(graph, &op.inputs[0]) {
        Ok(s) => s,
        Err(e) => {
            return Err(e);
        },
    };
    let (x, o) = match find_unary(bufs, op) {
        Ok(p) => p,
        Err(e) => {
            return Err(e);
        },
    };
    let rank: usize = s.dims.len();
    if rank == 0 || perm.len() < rank {
        return Err(err_bad_sizes());
    }
    let mut outs: Vec<usize> = Vec::new();
    let mut d: usize = 0;
    while d < perm.len()
        invariant
            d <= perm@.len(),
            rank == s.dims@.len(),
            rank > 0,
            perm@.len() >= rank,
            transpose_result(graph@, bufs@, op@, perm@) == (if !is_order(perm@, rank as nat) {
                Err(bad_sizes())
            } else {
                transpose_result(graph@, bufs@, op@, perm@)
            }),
            forall|e: int| 0 <= e < d ==> (#[trigger] perm@[e]) < rank,
            outs@ == reordered(s.dims@, perm@).take(d as int),
        decreases perm@.len() - d,
    {
        if perm[d] >= rank {
            return Err(err_bad_sizes());
        }
        outs.push(s.dims[perm[d]]);
        d = d + 1;
        assert(outs@ =~= reordered(s.dims@, perm@).take(d as int));
    }
    assert(outs@ =~= reordered(s.dims@, perm@));
    let total: usize = match checked_numel(s.dims.as_slice()) {
        Some(t) => t,
        None => {
            return Err(err_bad_sizes());
        },
    };
    if total == 0 {
        return Ok(o);
    }
    if checked_strides(&s.dims).is_none() || checked_strides(&outs).is_none() || total > o.len() {
        return Err(err_bad_sizes());
    }
    proof {
        assert forall|d: int| 0 <= d < s.dims@.len() implies (#[trigger] s.dims@[d]) > 0 by {
            lemma_numel_positive(s.dims@, d);
        }
    }
    match reorder_elements(&x, &s.dims, perm, total) {
        Some(v) => Ok(overlay(&o, &v)),
        None => Err(err_bad_sizes()),
    }
}

/// The output of a Reshape or Flatten: a copy, unless input and output are one tensor.
pub open spec fn reshape_result(bufs: Map<Seq<char>, Seq<u32>>, op: OpView) -> Result<
    Option<Seq<u32>>,
    ErrorView,
> {
    match names_checked(op, 1) {
        Err(e) => Err(e),
        Ok(_) => if op.inputs[0] == op.outputs[0] {
            Ok(None)
        } else {
            match unary_of(bufs, op) {
                Err(e) => Err(e),
                Ok((x, o)) => Ok(Some(overlaid(o, x))),
            }
        },
    }
}

fn run_reshape(bufs: &NameMap<Vec<u32>>, op: &CompiledOp) -> (r: Result<Option<Vec<u32>>, Error>)
    ensures
        writes(r) == reshape_result(bufs@, op@),
{
    match check_names(op, 1) {
        Ok(_) => {},
        Err(e) => {
            return Err(e);
        },
    }
    assert(op@.inputs[0] == op.inputs@[0]@);
    assert(op@.outputs[0] == op.outputs@[0]@);
    if str_eq(op.inputs[0].as_str(), op.outputs[0].as_str()) {
        return Ok(None);
    }
    match find_unary(bufs, op) {
        Ok((x, o)) => Ok(Some(overlay(&o, &x))),
        Err(e) => Err(e),
    }
}

// ---------------------------------------------------------------------------
// Split
// ---------------------------------------------------------------------------

/// How far a run has come: the buffers, and what stopped it, if anything did.
pub struct Progress {
    pub bufs: Map<Seq<char>, Seq<u32>>,
    pub failure: Option<ErrorView>,
}

/// The first `n` pieces of a Split along the first axis written, and where the next one starts.
pub open spec fn split_into(
    bufs: Map<Seq<char>, Seq<u32>>,
    names: Seq<Seq<char>>,
    x: Seq<u32>,
    sizes: Seq<usize>,
    n: nat,
) -> (Progress, int)
    decreases n,
{
    if n == 0 {
        (Progress { bufs, failure: None }, 0)
    } else {
        let (before, at) = split_into(bufs, names, x, sizes, (n - 1) as nat);
        if before.failure is Some || n > names.len() {
            (before, at)
        } else {
            match found(before.bufs, names[n - 1]) {
                Err(e) => (Progress { failure: Some(e), ..before }, at),
                Ok(o) => if at > x.len() {
                    (Progress { failure: Some(bad_sizes()), ..before }, at)
                } else {
                    let end = if sizes[n - 1] < x.len() - at {
                        at + sizes[n - 1]
                    } else {
                        x.len() as int
                    };
                    (
                        Progress {
                            bufs: before.bufs.insert(names[n - 1], overlaid(o, x.subrange(at, end))),
                            ..before
                        },
                        at + sizes[n - 1],
                    )
                },
            }
        }
    }
}

proof fn lemma_split_stopped(
    bufs: Map<Seq<char>, Seq<u32>>,
    names: Seq<Seq<char>>,
    x: Seq<u32>,
    sizes: Seq<usize>,
    n: nat,
    m: nat,
)
    requires
        n <= m,
        split_into(bufs, names, x, sizes, n).0.failure is Some || n >= names.len(),
    ensures
        split_into(bufs, names, x, sizes, m) == split_into(bufs, names, x, sizes, n),
    decreases m,
{
    if n < m {
        lemma_split_stopped(bufs, names, x, sizes, n, (m - 1) as nat);
    }
}

proof fn lemma_split_start(
    bufs: Map<Seq<char>, Seq<u32>>,
    names: Seq<Seq<char>>,
    x: Seq<u32>,
    sizes: Seq<usize>,
    n: nat,
)
    ensures
        split_into(bufs, names, x, sizes, n).1 >= 0,
    decreases n,
{
    if n > 0 {
        lemma_split_start(bufs, names, x, sizes, (n - 1) as nat);
    }
}

/// The buffers after a Split; only one along the first axis does anything.
pub open spec fn split_result(
    bufs: Map<Seq<char>, Seq<u32>>,
    op: OpView,
    axis: usize,
    sizes: Seq<usize>,
) -> Progress {
    if op.inputs.len() < 1 {
        Progress { bufs, failure: Some(too_few_inputs()) }
    } else {
        match found(bufs, op.inputs[0]) {
            Err(e) => Progress { bufs, failure: Some(e) },
            Ok(x) => if axis == 0 {
                split_into(bufs, op.outputs, x, sizes, sizes.len()).0
            } else {
                Progress { bufs, failure: None }
            },
        }
    }
}

/// What stopped an exec run, as a view.
pub open spec fn failure_of(r: Result<(), Error>) -> Option<ErrorView> {
    match r {
        Ok(_) => None,
        Err(e) => Some(e@),
    }
}

fn run_split(bufs: &mut NameMap<Vec<u32>>, op: &CompiledOp, axis: usize, sizes: &Vec<usize>) -> (r:
    Result<(), Error>)
    ensures
        split_result(old(bufs)@, op@, axis, sizes@) == (Progress {
            bufs: final(bufs)@,
            failure: failure_of(r),
        }),
{
    if op.inputs.len() < 1 {
        return Err(err_too_few_inputs());
    }
    assert(op@.inputs[0] == op.inputs@[0]@);
    let x: Vec<u32> = match find_buffer(bufs, &op.inputs[0]) {
        Ok(x) => x,
        Err(e) => {
            return Err(e);
        },
    };
    if axis != 0 {
        return Ok(());
    }
    let ghost start = bufs@;
    let ghost names = op@.outputs;
    let mut at: usize = 0;
    let mut beyond: bool = false;
    let mut i: usize = 0;
    while i < sizes.len() && i < op.outputs.len()
        invariant
            i <= sizes@.len(),
            i <= op.outputs@.len(),
            names == op@.outputs,
            start == old(bufs)@,
            split_result(start, op@, axis, sizes@) == split_into(
                start,
                names,
                x@,
                sizes@,
                sizes@.len(),
            ).0,
            split_into(start, names, x@, sizes@, i as nat).0 == (Progress {
                bufs: bufs@,
                failure: None,
            }),
            if beyond {
                split_into(start, names, x@, sizes@, i as nat).1 > x@.len()
            } else {
                split_into(start, names, x@, sizes@, i as nat).1 == at
            },
        decreases sizes@.len() - i,
    {
        let name: &String = &op.outputs[i];
        assert(names[i as int] == name@);
        proof {
            lemma_split_start(start, names, x@, sizes@, i as nat);
        }
        let o: Vec<u32> = match find_buffer(bufs, name) {
            Ok(o) => o,
            Err(e) => {
                proof {
                    lemma_split_stopped(
                        start,
                        names,
                        x@,
                        sizes@,
                        (i + 1) as nat,
                        sizes@.len(),
                    );
                }
                return Err(e);
            },
        };
        assert(x@.len() == x.len());
        if beyond || at > x.len() {
            proof {
                lemma_split_stopped(start, names, x@, sizes@, (i + 1) as nat, sizes@.len());
            }
            return Err(err_bad_sizes());
        }
        let size: usize = sizes[i];
        let end: usize = if size < x.len() - at {
            at + size
        } else {
            x.len()
        };
        let piece: Vec<u32> = vstd::slice::slice_to_vec(
            vstd::slice::slice_subrange(x.as_slice(), at, end),
        );
        assert(piece@ =~= x@.subrange(at as int, end as int));
        bufs.insert(name.clone(), overlay(&o, &piece));
        match at.checked_add(size) {
            Some(next) => {
                at = next;
            },
            None => {
                beyond = true;
            },
        }
        i = i + 1;
    }
    proof {
        if i < sizes@.len() {
            lemma_split_stopped(start, names, x@, sizes@, i as nat, sizes@.len());
        }
    }
    Ok(())
}

// ---------------------------------------------------------------------------
// Dispatch
// ---------------------------------------------------------------------------

/// What an exec function writes, if anything, as a view.
pub open spec fn writes(r: Result<Option<Vec<u32>>, Error>) -> Result<Option<Seq<u32>>, ErrorView> {
    match r {
        Ok(Some(v)) => Ok(Some(v@)),
        Ok(None) => Ok(None),
        Err(e) => Err(e@),
    }
}

/// A result that is written.
pub open spec fn written(r: Result<Seq<u32>, ErrorView>) -> Result<Option<Seq<u32>>, ErrorView> {
    match r {
        Ok(v) => Ok(Some(v)),
        Err(e) => Err(e),
    }
}

/// What an op (a Split aside) writes to its first output. Ops without
/// parameters that are not known here, and ops on integers, write nothing.
pub open spec fn op_result(
    g: GraphView,
    bufs: Map<Seq<char>, Seq<u32>>,
    op: OpView,
    exps: Seq<u32>,
) -> Result<Option<Seq<u32>>, ErrorView> {
    match op.params {
        ParamsView::Empty => if op.op_type == "Relu"@ {
            written(relu_result(bufs, op))
        } else if op.op_type == "Flatten"@ || op.op_type == "Reshape"@ {
            reshape_result(bufs, op)
        } else if op.op_type == "MatMul"@ {
            written(gemm_result(g, bufs, op, false, false))
        } else if op.op_type == "SiLU"@ {
            written(silu_result(bufs, op, exps))
        } else {
            Ok(None)
        },
        ParamsView::Clip { min, max } => written(clip_result(bufs, op, min, max)),
        ParamsView::Add => written(arithmetic_result(bufs, op, Arithmetic::Sum)),
        ParamsView::Sub => written(arithmetic_result(bufs, op, Arithmetic::Difference)),
        ParamsView::Mul => written(arithmetic_result(bufs, op, Arithmetic::Product)),
        ParamsView::Div => written(arithmetic_result(bufs, op, Arithmetic::Quotient)),
        ParamsView::GlobalAvgPool => written(global_pool_result(g, bufs, op)),
        ParamsView::Gemm { alpha, beta, trans_a, trans_b } => written(
            gemm_result(g, bufs, op, trans_a, trans_b),
        ),
        ParamsView::Softmax { axis } => written(softmax_result(g, bufs, op, exps)),
        ParamsView::Reshape { shape } => reshape_result(bufs, op),
        ParamsView::Conv2d { kernel_shape, strides, pads, dilations, group } => written(
            conv_result(g, bufs, op, kernel_shape, strides, pads, group),
        ),
        ParamsView::Conv2dRelu { kernel_shape, strides, pads, dilations, group } => written(
            all_rectified(conv_result(g, bufs, op, kernel_shape, strides, pads, group)),
        ),
        ParamsView::MaxPool { kernel_shape, strides, pads } => written(
            pool_result(g, bufs, op, Pooling::Max, kernel_shape, strides),
        ),
        ParamsView::AvgPool { kernel_shape, strides, pads } => written(
            pool_result(g, bufs, op, Pooling::Average, kernel_shape, strides),
        ),
        ParamsView::Sigmoid => written(sigmoid_result(bufs, op, exps)),
        ParamsView::Concat { axis } => written(concat_result(g, bufs, op, axis)),
        ParamsView::Resize { out_h, out_w, mode } => written(
            resize_result(g, bufs, op, out_h, out_w, mode),
        ),
        ParamsView::Transpose { perm } => written(transpose_result(g, bufs, op, perm)),
        ParamsView::Slice { starts, ends, axes, steps } => written(
            slice_result(bufs, op, starts, ends, axes, steps),
        ),
        _ => Ok(None),
    }
}

/// The buffers after an op.
pub open spec fn dispatched(
    g: GraphView,
    bufs: Map<Seq<char>, Seq<u32>>,
    op: OpView,
    exps: Seq<u32>,
) -> Progress {
    match op.params {
        ParamsView::Split { axis, split_sizes } => split_result(bufs, op, axis, split_sizes),
        _ => match op_result(g, bufs, op, exps) {
            Err(e) => Progress { bufs, failure: Some(e) },
            Ok(None) => Progress { bufs, failure: None },
            Ok(Some(v)) => Progress { bufs: bufs.insert(op.outputs[0], v), failure: None },
        },
    }
}

/// The numbers whose exponentials an op needs.
pub open spec fn op_arguments(g: GraphView, bufs: Map<Seq<char>, Seq<u32>>, op: OpView) -> Seq<u32> {
    match op.params {
        ParamsView::Softmax { axis } => match softmax_parts(g, bufs, op) {
            Ok((x, o, rows, n)) => softmax_arguments(x, rows, n),
            Err(_) => Seq::empty(),
        },
        ParamsView::Sigmoid => match unary_of(bufs, op) {
            Ok((x, o)) => sigmoid_arguments(x),
            Err(_) => Seq::empty(),
        },
        ParamsView::Empty => match unary_of(bufs, op) {
            Ok((x, o)) => if op.op_type == "SiLU"@ {
                sigmoid_arguments(x)
            } else {
                Seq::empty()
            },
            Err(_) => Seq::empty(),
        },
        _ => Seq::empty(),
    }
}

/// The numbers whose exponentials an op needs.
pub fn find_arguments(graph: &Graph, bufs: &NameMap<Vec<u32>>, op: &CompiledOp) -> (r: Vec<u32>)
    ensures
        r@ == op_arguments(graph@, bufs@, op@),
{
    match &op.params {
        OpParams::Softmax { axis } => match find_softmax(graph, bufs, op) {
            Ok((x, o, rows, n)) => {
                assert(rows as nat * n as nat <= x@.len());
                shift_rows(&x, rows, n)
            },
            Err(_) => Vec::new(),
        },
        OpParams::Sigmoid => match find_unary(bufs, op) {
            Ok((x, o)) => flip_signs(&x),
            Err(_) => Vec::new(),
        },
        OpParams::Empty => if str_eq(op.op_type.as_str(), "SiLU") {
            match find_unary(bufs, op) {
                Ok((x, o)) => flip_signs(&x),
                Err(_) => Vec::new(),
            }
        } else {
            Vec::new()
        },
        _ => Vec::new(),
    }
}

fn as_written(r: Result<Vec<u32>, Error>) -> (w: Result<Option<Vec<u32>>, Error>)
    ensures
        writes(w) == written(outcome(r)),
{
    match r {
        Ok(v) => Ok(Some(v)),
        Err(e) => Err(e),
    }
}

fn run_plain(bufs: &NameMap<Vec<u32>>, graph: &Graph, op: &CompiledOp, exps: &Vec<u32>) -> (r: Result<
    Option<Vec<u32>>,
    Error,
>)
    requires
        op.params is Empty,
    ensures
        writes(r) == op_result(graph@, bufs@, op@, exps@),
{
    if str_eq(op.op_type.as_str(), "Relu") {
        as_written(run_relu(bufs, op))
    } else if str_eq(op.op_type.as_str(), "Flatten") || str_eq(op.op_type.as_str(), "Reshape") {
        run_reshape(bufs, op)
    } else if str_eq(op.op_type.as_str(), "MatMul") {
        as_written(run_gemm(graph, bufs, op, false, false))
    } else if str_eq(op.op_type.as_str(), "SiLU") {
        as_written(run_silu(bufs, op, exps))
    } else {
        Ok(None)
    }
}

fn run_result(graph: &Graph, bufs: &NameMap<Vec<u32>>, op: &CompiledOp, exps: &Vec<u32>) -> (r: Result<
    Option<Vec<u32>>,
    Error,
>)
    requires
        !(op.params is Split),
    ensures
        writes(r) == op_result(graph@, bufs@, op@, exps@),
{
    match &op.params {
        OpParams::Empty => run_plain(bufs, graph, op, exps),
        OpParams::Clip { min, max } => as_written(run_clip(bufs, op, *min, *max)),
        OpParams::Add => as_written(run_arithmetic(bufs, op, Arithmetic::Sum)),
        OpParams::Sub => as_written(run_arithmetic(bufs, op, Arithmetic::Difference)),
        OpParams::Mul => as_written(run_arithmetic(bufs, op, Arithmetic::Product)),
        OpParams::Div => as_written(run_arithmetic(bufs, op, Arithmetic::Quotient)),
        OpParams::GlobalAvgPool => as_written(run_global_pool(graph, bufs, op)),
        OpParams::Gemm { alpha, beta, trans_a, trans_b } => as_written(
            run_gemm(graph, bufs, op, *trans_a, *trans_b),
        ),
        OpParams::Softmax { axis } => as_written(run_softmax(graph, bufs, op, exps)),
        OpParams::Reshape { shape } => run_reshape(bufs, op),
        OpParams::Conv2d { kernel_shape, strides, pads, dilations, group } => as_written(
            run_conv(graph, bufs, op, kernel_shape, strides, pads, *group),
        ),
        OpParams::Conv2dRelu { kernel_shape, strides, pads, dilations, group } => as_written(
            rectify_all(run_conv(graph, bufs, op, kernel_shape, strides, pads, *group)),
        ),
        OpParams::MaxPool { kernel_shape, strides, pads } => as_written(
            run_pool(graph, bufs, op, Pooling::Max, kernel_shape, strides),
        ),
        OpParams::AvgPool { kernel_shape, strides, pads } => as_written(
            run_pool(graph, bufs, op, Pooling::Average, kernel_shape, strides),
        ),
        OpParams::Sigmoid => as_written(run_sigmoid(bufs, op, exps)),
        OpParams::Concat { axis } => as_written(run_concat(graph, bufs, op, *axis)),
        OpParams::Resize { out_h, out_w, mode } => as_written(
            run_resize(graph, bufs, op, *out_h, *out_w, mode),
        ),
        OpParams::Transpose { perm } => as_written(run_transpose(graph, bufs, op, perm)),
        OpParams::Slice { starts, ends, axes, steps } => as_written(
            run_slice(bufs, op, starts, ends, axes, steps),
        ),
        _ => Ok(None),
    }
}

/// Run an op, given the exponentials that it needs.
pub fn dispatch_op(
    graph: &Graph,
    bufs: &mut NameMap<Vec<u32>>,
    op: &CompiledOp,
    exps: &Vec<u32>,
) -> (r: Result<(), Error>)
    ensures
        dispatched(graph@, old(bufs)@, op@, exps@) == (Progress {
            bufs: final(bufs)@,
            failure: failure_of(r),
        }),
{
    match &op.params {
        OpParams::Split { axis, split_sizes } => {
            return run_split(bufs, op, *axis, split_sizes);
        },
        _ => {},
    }
    match run_result(graph, bufs, op, exps) {
        Ok(Some(v)) => {
            proof {
                lemma_writer_has_output(graph@, bufs@, op@, exps@);
            }
            assert(op@.outputs[0] == op.outputs@[0]@);
            bufs.insert(op.outputs[0].clone(), v);
            Ok(())
        },
        Ok(None) => Ok(()),
        Err(e) => Err(e),
    }
}

proof fn lemma_writer_has_output(
    g: GraphView,
    bufs: Map<Seq<char>, Seq<u32>>,
    op: OpView,
    exps: Seq<u32>,
)
    requires
        op_result(g, bufs, op, exps) matches Ok(Some(_)),
    ensures
        op.outputs.len() > 0,
{
}

} // verus!
