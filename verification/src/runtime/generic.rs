//! The runtime for any backend: tensors are fetched, computed on and put back.

use vstd::prelude::*;
use vstd::string::*;
use crate::builder::{CompiledOp, OpParams, OpView, ParamsView};
use crate::calibration::dispatch::{
    bad_sizes, check_names, err_bad_sizes, failure_of, find_shape, last_dim, names_checked,
    product_fits, shape_at,
};
use crate::calibration::{answer_all, are_answers, bytes_in, checked_size, size_fits, sizes_fit};
use crate::error::{outcome, Error, ErrorView};
use crate::fusion::parts::{take_apart, taken_apart};
use crate::graph::{named_shapes, pair_views, Graph, GraphView};
use crate::kernels::{
    add_row_bias, apply_over, are_bounds, average_channels, broadcast_over, channel_means,
    check_bounds, clip, clipped, matrix_product, multiply, normalize_rows, normalized_rows,
    overlaid, overlay, rectified, rectify, row_biased, shift_rows, softmax_arguments, Arithmetic,
    Product,
};
use crate::model::copy_vec;
use crate::name_map::NameMap;
use crate::ops::common::{err_size_overflow, size_overflow};
use crate::tensor::{checked_numel, numel, products_fit, ShapeView, TensorShape};
use crate::text::{concat2, concat3, dec_int, dec_usize, str_eq};
use super::{
    bytes_of, decode, decoded, encode, encoded, find_bytes, find_third, first_memory, float_of,
    make_memory, store, stored, third_input, to_float, width, zero_bytes, Float,
};

verus! {

// ---------------------------------------------------------------------------
// One op
// ---------------------------------------------------------------------------

/// The first `n` numbers of a byte string.
pub open spec fn front(f: Float, data: Seq<u8>, n: nat) -> Seq<u32> {
    decoded(f, data.take((n * width(f)) as int))
}

/// The answer for a graph whose numbers are integers.
pub open spec fn unsupported_dtype(op: Seq<char>) -> ErrorView {
    ErrorView::Runtime("unsupported dtype for "@ + op)
}

/// Bytes put into a tensor, which has to have their size.
pub open spec fn uploaded(mem: Map<Seq<char>, Seq<u8>>, name: Seq<char>, data: Seq<u8>) -> Result<
    Seq<u8>,
    ErrorView,
> {
    match bytes_of(mem, name) {
        Err(e) => Err(e),
        Ok(there) => if there.len() != data.len() {
            Err(ErrorView::Runtime("upload failed: size mismatch"@))
        } else {
            Ok(data)
        },
    }
}

fn upload(mem: &NameMap<Vec<u8>>, name: &String, data: Vec<u8>) -> (r: Result<Vec<u8>, Error>)
    ensures
        outcome(r) == uploaded(mem@, name@, data@),
{
    match mem.get(name.as_str()) {
        Some(there) => if there.len() != data.len() {
            Err(Error::Runtime("upload failed: size mismatch".to_owned()))
        } else {
            Ok(data)
        },
        None => Err(Error::Runtime(concat2("buffer not found: ", name.as_str()))),
    }
}

fn take_front(f: Float, data: &Vec<u8>, n: usize) -> (r: Vec<u32>)
    requires
        n * width(f) <= data@.len(),
    ensures
        r@ == front(f, data@, n as nat),
{
    assert(data@.len() == data.len());
    let size: usize = match f {
        Float::Single => 4 * n,
        Float::Half => 2 * n,
    };
    assert(size == n * width(f)) by {
        assert(n * 4 == 4 * n && n * 2 == 2 * n);
    }
    decode(f, vstd::slice::slice_subrange(data.as_slice(), 0, size))
}

/// Whether `n` numbers fit in a number of bytes.
fn numbers_fit(f: Float, n: usize, len: usize) -> (r: bool)
    ensures
        r == (n * width(f) <= len),
{
    match f {
        Float::Single => product_fits(n, 4, len),
        Float::Half => product_fits(n, 2, len),
    }
}

/// The shape of the first input, its number of elements and its bytes.
pub open spec fn first_input(g: GraphView, mem: Map<Seq<char>, Seq<u8>>, op: OpView) -> Result<
    (ShapeView, nat, Seq<u8>),
    ErrorView,
> {
    match shape_at(g, op.inputs[0]) {
        Err(e) => Err(e),
        Ok(s) => if !products_fit(s.dims) {
            Err(bad_sizes())
        } else {
            match bytes_of(mem, op.inputs[0]) {
                Err(e) => Err(e),
                Ok(data) => Ok((s, numel(s.dims), data)),
            }
        },
    }
}

fn find_first<'a>(graph: &'a Graph, mem: &NameMap<Vec<u8>>, op: &CompiledOp) -> (r: Result<
    (&'a TensorShape, usize, Vec<u8>),
    Error,
>)
    requires
        op@.inputs.len() > 0,
    ensures
        match r {
            Ok(p) => first_input(graph@, mem@, op@) == Ok::<(ShapeView, nat, Seq<u8>), ErrorView>(
                (p.0@, p.1 as nat, p.2@),
            ),
            Err(e) => first_input(graph@, mem@, op@) == Err::<
                (ShapeView, nat, Seq<u8>),
                ErrorView,
            >(e@),
        },
{
    assert(op@.inputs[0] == op.inputs@[0]@);
    let s: &TensorShape = match find_shape(graph, &op.inputs[0]) {
        Ok(s) => s,
        Err(e) => {
            return Err(e);
        },
    };
    let n: usize = match checked_numel(s.dims.as_slice()) {
        Some(n) => n,
        None => {
            return Err(err_bad_sizes());
        },
    };
    match find_bytes(mem, &op.inputs[0]) {
        Ok(data) => Ok((s, n, data)),
        Err(e) => Err(e),
    }
}

/// The output of a Relu.
pub open spec fn relu_bytes(g: GraphView, mem: Map<Seq<char>, Seq<u8>>, op: OpView) -> Result<
    Seq<u8>,
    ErrorView,
> {
    match names_checked(op, 1) {
        Err(e) => Err(e),
        Ok(_) => if op.inputs[0] == op.outputs[0] {
            Err(ErrorView::Runtime("in-place relu not yet implemented"@))
        } else {
            match first_input(g, mem, op) {
                Err(e) => Err(e),
                Ok((s, n, data)) => match float_of(g.dtype) {
                    None => Err(unsupported_dtype("relu"@)),
                    Some(f) => if n * width(f) > data.len() {
                        Err(bad_sizes())
                    } else {
                        uploaded(
                            mem,
                            op.outputs[0],
                            overlaid(data, encoded(f, rectified(front(f, data, n)))),
                        )
                    },
                },
            }
        },
    }
}

fn run_relu(graph: &Graph, mem: &NameMap<Vec<u8>>, op: &CompiledOp) -> (r: Result<Vec<u8>, Error>)
    ensures
        outcome(r) == relu_bytes(graph@, mem@, op@),
{
    match check_names(op, 1) {
        Ok(_) => {},
        Err(e) => {
            return Err(e);
        },
    }
    assert(op@.inputs[0] == op.inputs@[0]@);
    assert(op@.outputs[0] == op.outputs@[0]@);
    if str_eq(op.inputs[0].as_str(), op.outputs[0].as_str()) {
        return Err(Error::Runtime("in-place relu not yet implemented".to_owned()));
    }
    match find_first(graph, mem, op) {
        Ok((s, n, data)) => match to_float(graph.dtype) {
            None => Err(Error::Runtime(concat2("unsupported dtype for ", "relu"))),
            Some(f) => if !numbers_fit(f, n, data.len()) {
                Err(err_bad_sizes())
            } else {
                let v: Vec<u32> = rectify(&take_front(f, &data, n));
                upload(mem, &op.outputs[0], overlay(&data, &encode(f, &v)))
            },
        },
        Err(e) => Err(e),
    }
}

/// The output of a Clip.
pub open spec fn clip_bytes(
    g: GraphView,
    mem: Map<Seq<char>, Seq<u8>>,
    op: OpView,
    min: u32,
    max: u32,
) -> Result<Seq<u8>, ErrorView> {
    match names_checked(op, 1) {
        Err(e) => Err(e),
        Ok(_) => match first_input(g, mem, op) {
            Err(e) => Err(e),
            Ok((s, n, data)) => match float_of(g.dtype) {
                None => Err(unsupported_dtype("clip"@)),
                Some(f) => if n * width(f) > data.len() {
                    Err(bad_sizes())
                } else if n > 0 && !are_bounds(min, max) {
                    Err(ErrorView::Runtime("clip bounds are out of order"@))
                } else {
                    uploaded(
                        mem,
                        op.outputs[0],
                        overlaid(data, encoded(f, clipped(front(f, data, n), min, max))),
                    )
                },
            },
        },
    }
}

fn run_clip(graph: &Graph, mem: &NameMap<Vec<u8>>, op: &CompiledOp, min: u32, max: u32) -> (r: Result<
    Vec<u8>,
    Error,
>)
    ensures
        outcome(r) == clip_bytes(graph@, mem@, op@, min, max),
{
    match check_names(op, 1) {
        Ok(_) => {},
        Err(e) => {
            return Err(e);
        },
    }
    assert(op@.outputs[0] == op.outputs@[0]@);
    match find_first(graph, mem, op) {
        Ok((s, n, data)) => match to_float(graph.dtype) {
            None => Err(Error::Runtime(concat2("unsupported dtype for ", "clip"))),
            Some(f) => if !numbers_fit(f, n, data.len()) {
                Err(err_bad_sizes())
            } else if n > 0 && !check_bounds(min, max) {
                Err(Error::Runtime("clip bounds are out of order".to_owned()))
            } else {
                let v: Vec<u32> = clip(&take_front(f, &data, n), min, max);
                upload(mem, &op.outputs[0], overlay(&data, &encode(f, &v)))
            },
        },
        Err(e) => Err(e),
    }
}

/// The output of an Add; the second input is repeated as often as it takes.
pub open spec fn add_bytes(g: GraphView, mem: Map<Seq<char>, Seq<u8>>, op: OpView) -> Result<
    Seq<u8>,
    ErrorView,
> {
    match names_checked(op, 2) {
        Err(e) => Err(e),
        Ok(_) => match first_input(g, mem, op) {
            Err(e) => Err(e),
            Ok((s, n, a)) => match bytes_of(mem, op.inputs[1]) {
                Err(e) => Err(e),
                Ok(b) => match float_of(g.dtype) {
                    None => Err(unsupported_dtype("add"@)),
                    Some(f) => if n * width(f) > a.len() || (n > 0 && decoded(f, b).len() == 0) {
                        Err(bad_sizes())
                    } else {
                        uploaded(
                            mem,
                            op.outputs[0],
                            overlaid(
                                a,
                                encoded(
                                    f,
                                    broadcast_over(
                                        Arithmetic::Sum,
                                        front(f, a, n),
                                        decoded(f, b),
                                    ),
                                ),
                            ),
                        )
                    },
                },
            },
        },
    }
}

proof fn lemma_front_len(f: Float, data: Seq<u8>, n: nat)
    requires
        n * width(f) <= data.len(),
    ensures
        front(f, data, n).len() == n,
{
    match f {
        Float::Single => {
            assert(n * 4 / 4 == n) by (nonlinear_arith);
        },
        Float::Half => {
            assert(n * 2 / 2 == n) by (nonlinear_arith);
        },
    }
}

fn run_add(graph: &Graph, mem: &NameMap<Vec<u8>>, op: &CompiledOp) -> (r: Result<Vec<u8>, Error>)
    ensures
        outcome(r) == add_bytes(graph@, mem@, op@),
{
    match check_names(op, 2) {
        Ok(_) => {},
        Err(e) => {
            return Err(e);
        },
    }
    assert(op@.inputs[1] == op.inputs@[1]@);
    assert(op@.outputs[0] == op.outputs@[0]@);
    match find_first(graph, mem, op) {
        Ok((s, n, a)) => {
            let b: Vec<u8> = match find_bytes(mem, &op.inputs[1]) {
                Ok(b) => b,
                Err(e) => {
                    return Err(e);
                },
            };
            match to_float(graph.dtype) {
                None => Err(Error::Runtime(concat2("unsupported dtype for ", "add"))),
                Some(f) => {
                    if !numbers_fit(f, n, a.len()) {
                        return Err(err_bad_sizes());
                    }
                    let bv: Vec<u32> = decode(f, b.as_slice());
                    if n > 0 && bv.len() == 0 {
                        return Err(err_bad_sizes());
                    }
                    proof {
                        lemma_front_len(f, a@, n as nat);
                    }
                    let v: Vec<u32> = apply_over(Arithmetic::Sum, &take_front(f, &a, n), &bv);
                    upload(mem, &op.outputs[0], overlay(&a, &encode(f, &v)))
                },
            }
        },
        Err(e) => Err(e),
    }
}

/// The output of a GlobalAveragePool, channels first.
pub open spec fn global_pool_bytes(g: GraphView, mem: Map<Seq<char>, Seq<u8>>, op: OpView) -> Result<
    Seq<u8>,
    ErrorView,
> {
    match names_checked(op, 1) {
        Err(e) => Err(e),
        Ok(_) => match shape_at(g, op.inputs[0]) {
            Err(e) => Err(e),
            Ok(s) => if s.dims.len() != 4 {
                Err(ErrorView::Runtime("GlobalAvgPool input must be 4D"@))
            } else {
                match bytes_of(mem, op.inputs[0]) {
                    Err(e) => Err(e),
                    Ok(data) => match shape_at(g, op.outputs[0]) {
                        Err(e) => Err(e),
                        Ok(so) => match float_of(g.dtype) {
                            None => Err(unsupported_dtype("global_avg_pool"@)),
                            Some(f) => {
                                let channels = s.dims[0] * s.dims[1];
                                let per = s.dims[2] * s.dims[3];
                                if !size_fits(so) || per > usize::MAX || channels * per > decoded(
                                    f,
                                    data,
                                ).len() || channels * width(f) > bytes_in(so) {
                                    Err(bad_sizes())
                                } else {
                                    uploaded(
                                        mem,
                                        op.outputs[0],
                                        overlaid(
                                            Seq::new(bytes_in(so), |i: int| 0u8),
                                            encoded(
                                                f,
                                                channel_means(
                                                    decoded(f, data),
                                                    channels as nat,
                                                    per as nat,
                                                ),
                                            ),
                                        ),
                                    )
                                }
                            },
                        },
                    },
                }
            },
        },
    }
}

fn run_global_pool(graph: &Graph, mem: &NameMap<Vec<u8>>, op: &CompiledOp) -> (r: Result<
    Vec<u8>,
    Error,
>)
    ensures
        outcome(r) == global_pool_bytes(graph@, mem@, op@),
{
    match check_names(op, 1) {
        Ok(_) => {},
        Err(e) => {
            return Err(e);
        },
    }
    assert(op@.inputs[0] == op.inputs@[0]@);
    assert(op@.outputs[0] == op.outputs@[0]@);
    let s: &TensorShape = match find_shape(graph, &op.inputs[0]) {
        Ok(s) => s,
        Err(e) => {
            return Err(e);
        },
    };
    if s.dims.len() != 4 {
        return Err(Error::Runtime("GlobalAvgPool input must be 4D".to_owned()));
    }
    let data: Vec<u8> = match find_bytes(mem, &op.inputs[0]) {
        Ok(d) => d,
        Err(e) => {
            return Err(e);
        },
    };
    let so: &TensorShape = match find_shape(graph, &op.outputs[0]) {
        Ok(s) => s,
        Err(e) => {
            return Err(e);
        },
    };
    let f: Float = match to_float(graph.dtype) {
        None => {
            return Err(Error::Runtime(concat2("unsupported dtype for ", "global_avg_pool")));
        },
        Some(f) => f,
    };
    let size: usize = match checked_size(so) {
        Some(n) => n,
        None => {
            return Err(err_bad_sizes());
        },
    };
    let per: usize = match s.dims[2].checked_mul(s.dims[3]) {
        Some(p) => p,
        None => {
            return Err(err_bad_sizes());
        },
    };
    let channels: usize = match s.dims[0].checked_mul(s.dims[1]) {
        Some(p) => p,
        None => {
            proof {
                let c = s@.dims[0] * s@.dims[1];
                assert(c * width(f) > c - 1) by (nonlinear_arith)
                    requires
                        c > 0,
                        width(f) >= 1,
                ;
            }
            return Err(err_bad_sizes());
        },
    };
    let x: Vec<u32> = decode(f, data.as_slice());
    if !product_fits(channels, per, x.len()) || !numbers_fit(f, channels, size) {
        return Err(err_bad_sizes());
    }
    let v: Vec<u32> = average_channels(&x, channels, per);
    upload(mem, &op.outputs[0], overlay(&zero_bytes(size), &encode(f, &v)))
}

/// The shape of the second factor of a product. A constant without a shape of
/// its own is taken to have the first factor's.
pub open spec fn second_shape(g: GraphView, name: Seq<char>, first: ShapeView) -> Result<
    ShapeView,
    ErrorView,
> {
    if !g.shapes.dom().contains(name) && g.initializers.dom().contains(name) {
        Ok(first)
    } else {
        shape_at(g, name)
    }
}

/// The sizes of a product: rows, columns and terms.
pub open spec fn product_sizes(sa: ShapeView, sb: ShapeView, trans_a: bool, trans_b: bool) -> (
    int,
    int,
    int,
) {
    (
        sa.dims[if trans_a { 1int } else { 0 }] as int,
        sb.dims[if trans_b { 0int } else { 1 }] as int,
        sa.dims[if trans_a { 0int } else { 1 }] as int,
    )
}

/// The numbers of a product, with the bias if there is one. Every step is
/// rounded as it is stored.
pub open spec fn product_numbers(
    f: Float,
    p: Product,
    a: Seq<u32>,
    b: Seq<u32>,
    bias: Option<Seq<u8>>,
) -> Seq<u32> {
    let c = stored(f, matrix_product(p, a, b));
    match bias {
        None => c,
        Some(data) => row_biased(c, p.n, decoded(f, data)),
    }
}

/// Whether all that a product reads and writes is there.
pub open spec fn product_there(
    f: Float,
    sizes: (int, int, int),
    a: Seq<u32>,
    b: Seq<u32>,
    bias: Option<Seq<u8>>,
    size: nat,
) -> bool {
    let (m, n, k) = sizes;
    &&& m * k <= a.len()
    &&& k * n <= b.len()
    &&& (m * n) * width(f) <= size
    &&& bias matches Some(data) ==> m * n > 0 ==> decoded(f, data).len() > 0
}

/// The output of a Gemm.
pub open spec fn gemm_bytes(
    g: GraphView,
    mem: Map<Seq<char>, Seq<u8>>,
    op: OpView,
    trans_a: bool,
    trans_b: bool,
) -> Result<Seq<u8>, ErrorView> {
    match names_checked(op, 2) {
        Err(e) => Err(e),
        Ok(_) => match shape_at(g, op.inputs[0]) {
            Err(e) => Err(e),
            Ok(sa) => match second_shape(g, op.inputs[1], sa) {
                Err(e) => Err(e),
                Ok(sb) => if sa.dims.len() != 2 || sb.dims.len() != 2 {
                    Err(ErrorView::Runtime("Gemm inputs must be 2D"@))
                } else {
                    let (m, n, k) = product_sizes(sa, sb, trans_a, trans_b);
                    match bytes_of(mem, op.inputs[0]) {
                        Err(e) => Err(e),
                        Ok(a) => match bytes_of(mem, op.inputs[1]) {
                            Err(e) => Err(e),
                            Ok(b) => match shape_at(g, op.outputs[0]) {
                                Err(e) => Err(e),
                                Ok(so) => match float_of(g.dtype) {
                                    None => Err(unsupported_dtype("gemm"@)),
                                    Some(f) => {
                                        let av = decoded(f, a);
                                        let bv = decoded(f, b);
                                        let bias = third_input(mem, op);
                                        if !size_fits(so) || !product_there(
                                            f,
                                            (m, n, k),
                                            av,
                                            bv,
                                            bias,
                                            bytes_in(so),
                                        ) {
                                            Err(bad_sizes())
                                        } else {
                                            let p = Product { m, n, k, trans_a, trans_b };
                                            uploaded(
                                                mem,
                                                op.outputs[0],
                                                overlaid(
                                                    Seq::new(bytes_in(so), |i: int| 0u8),
                                                    encoded(
                                                        f,
                                                        product_numbers(f, p, av, bv, bias),
                                                    ),
                                                ),
                                            )
                                        }
                                    },
                                },
                            },
                        },
                    }
                },
            },
        },
    }
}

/// Compute the numbers of a product, if all that it needs is there.
pub(crate) fn compute_product(
    f: Float,
    av: &Vec<u32>,
    bv: &Vec<u32>,
    bias: &Option<Vec<u8>>,
    m: usize,
    n: usize,
    k: usize,
    trans_a: bool,
    trans_b: bool,
    size: usize,
) -> (r: Option<Vec<u32>>)
    ensures
        ({
            let p = Product { m: m as int, n: n as int, k: k as int, trans_a, trans_b };
            let bias_view = match *bias {
                Some(b) => Some(b@),
                None => None,
            };
            let there = product_there(
                f,
                (m as int, n as int, k as int),
                av@,
                bv@,
                bias_view,
                size as nat,
            );
            match r {
                Some(v) => there && v@ == product_numbers(f, p, av@, bv@, bias_view),
                None => !there,
            }
        }),
{
    if !product_fits(m, k, av.len()) || !product_fits(k, n, bv.len()) {
        return None;
    }
    let total: usize = match m.checked_mul(n) {
        Some(t) => t,
        None => {
            proof {
                let c = m * n;
                assert(c * width(f) > c - 1) by (nonlinear_arith)
                    requires
                        c > 0,
                        width(f) >= 1,
                ;
            }
            return None;
        },
    };
    if !numbers_fit(f, total, size) {
        return None;
    }
    match bias {
        None => {
            let c: Vec<u32> = multiply(av, bv, m, n, k, trans_a, trans_b);
            Some(store(f, c))
        },
        Some(data) => {
            let d: Vec<u32> = decode(f, data.as_slice());
            if total > 0 && d.len() == 0 {
                return None;
            }
            let c: Vec<u32> = store(f, multiply(av, bv, m, n, k, trans_a, trans_b));
            assert(m * n > 0 ==> n > 0) by (nonlinear_arith);
            Some(add_row_bias(&c, n, &d))
        },
    }
}

fn run_gemm(
    graph: &Graph,
    mem: &NameMap<Vec<u8>>,
    op: &CompiledOp,
    trans_a: bool,
    trans_b: bool,
) -> (r: Result<Vec<u8>, Error>)
    ensures
        outcome(r) == gemm_bytes(graph@, mem@, op@, trans_a, trans_b),
{
    match check_names(op, 2) {
        Ok(_) => {},
        Err(e) => {
            return Err(e);
        },
    }
    assert(op@.inputs[0] == op.inputs@[0]@);
    assert(op@.inputs[1] == op.inputs@[1]@);
    assert(op@.outputs[0] == op.outputs@[0]@);
    let sa: &TensorShape = match find_shape(graph, &op.inputs[0]) {
        Ok(s) => s,
        Err(e) => {
            return Err(e);
        },
    };
    let sb: &TensorShape = if !graph.shapes.contains_key(op.inputs[1].as_str())
        && graph.initializers.contains_key(op.inputs[1].as_str()) {
        sa
    } else {
        match find_shape(graph, &op.inputs[1]) {
            Ok(s) => s,
            Err(e) => {
                return Err(e);
            },
        }
    };
    if sa.dims.len() != 2 || sb.dims.len() != 2 {
        return Err(Error::Runtime("Gemm inputs must be 2D".to_owned()));
    }
    let m: usize = if trans_a {
        sa.dims[1]
    } else {
        sa.dims[0]
    };
    let k: usize = if trans_a {
        sa.dims[0]
    } else {
        sa.dims[1]
    };
    let n: usize = if trans_b {
        sb.dims[0]
    } else {
        sb.dims[1]
    };
    let a: Vec<u8> = match find_bytes(mem, &op.inputs[0]) {
        Ok(d) => d,
        Err(e) => {
            return Err(e);
        },
    };
    let b: Vec<u8> = match find_bytes(mem, &op.inputs[1]) {
        Ok(d) => d,
        Err(e) => {
            return Err(e);
        },
    };
    let bias: Option<Vec<u8>> = find_third(mem, op);
    let so: &TensorShape = match find_shape(graph, &op.outputs[0]) {
        Ok(s) => s,
        Err(e) => {
            return Err(e);
        },
    };
    let f: Float = match to_float(graph.dtype) {
        None => {
            return Err(Error::Runtime(concat2("unsupported dtype for ", "gemm")));
        },
        Some(f) => f,
    };
    let size: usize = match checked_size(so) {
        Some(n) => n,
        None => {
            return Err(err_bad_sizes());
        },
    };
    let av: Vec<u32> = decode(f, a.as_slice());
    let bv: Vec<u32> = decode(f, b.as_slice());
    match compute_product(f, &av, &bv, &bias, m, n, k, trans_a, trans_b, size) {
        Some(v) => upload(mem, &op.outputs[0], overlay(&zero_bytes(size), &encode(f, &v))),
        None => Err(err_bad_sizes()),
    }
}

/// The bytes of a Softmax's input, its numbers, the number of rows and their length.
pub open spec fn softmax_input(g: GraphView, mem: Map<Seq<char>, Seq<u8>>, op: OpView) -> Result<
    (Float, Seq<u8>, Seq<u32>, nat, nat),
    ErrorView,
> {
    match names_checked(op, 1) {
        Err(e) => Err(e),
        Ok(_) => match first_input(g, mem, op) {
            Err(e) => Err(e),
            Ok((s, total, data)) => {
                let n = last_dim(s.dims) as nat;
                if n == 0 {
                    Err(bad_sizes())
                } else {
                    match float_of(g.dtype) {
                        None => Err(unsupported_dtype("softmax"@)),
                        Some(f) => if total * width(f) > data.len() {
                            Err(bad_sizes())
                        } else {
                            Ok((f, data, front(f, data, total), total / n, n))
                        },
                    }
                }
            },
        },
    }
}

/// The output of a Softmax along the last axis, given the exponentials that it needs.
pub open spec fn softmax_bytes(
    g: GraphView,
    mem: Map<Seq<char>, Seq<u8>>,
    op: OpView,
    exps: Seq<u32>,
) -> Result<Seq<u8>, ErrorView> {
    match softmax_input(g, mem, op) {
        Err(e) => Err(e),
        Ok((f, data, x, rows, n)) => if exps.len() != rows * n {
            Err(bad_sizes())
        } else {
            uploaded(
                mem,
                op.outputs[0],
                overlaid(data, encoded(f, normalized_rows(exps, n))),
            )
        },
    }
}

fn find_softmax(graph: &Graph, mem: &NameMap<Vec<u8>>, op: &CompiledOp) -> (r: Result<
    (Float, Vec<u8>, Vec<u32>, usize, usize),
    Error,
>)
    ensures
        match r {
            Ok(p) => softmax_input(graph@, mem@, op@) == Ok::<
                (Float, Seq<u8>, Seq<u32>, nat, nat),
                ErrorView,
            >((p.0, p.1@, p.2@, p.3 as nat, p.4 as nat)) && p.3 * p.4 <= p.2@.len(),
            Err(e) => softmax_input(graph@, mem@, op@) == Err::<
                (Float, Seq<u8>, Seq<u32>, nat, nat),
                ErrorView,
            >(e@),
        },
{
    match check_names(op, 1) {
        Ok(_) => {},
        Err(e) => {
            return Err(e);
        },
    }
    match find_first(graph, mem, op) {
        Ok((s, total, data)) => {
            let n: usize = if s.dims.len() == 0 {
                1
            } else {
                s.dims[s.dims.len() - 1]
            };
            if n == 0 {
                return Err(err_bad_sizes());
            }
            match to_float(graph.dtype) {
                None => Err(Error::Runtime(concat2("unsupported dtype for ", "softmax"))),
                Some(f) => {
                    if !numbers_fit(f, total, data.len()) {
                        return Err(err_bad_sizes());
                    }
                    let x: Vec<u32> = take_front(f, &data, total);
                    proof {
                        lemma_front_len(f, data@, total as nat);
                        let q = total as int / n as int;
                        assert(q * n <= total) by (nonlinear_arith)
                            requires
                                q == total as int / n as int,
                                n > 0,
                        ;
                    }
                    Ok((f, data, x, total / n, n))
                },
            }
        },
        Err(e) => Err(e),
    }
}

fn run_softmax(graph: &Graph, mem: &NameMap<Vec<u8>>, op: &CompiledOp, exps: &Vec<u32>) -> (r: Result<
    Vec<u8>,
    Error,
>)
    ensures
        outcome(r) == softmax_bytes(graph@, mem@, op@, exps@),
{
    match find_softmax(graph, mem, op) {
        Ok((f, data, x, rows, n)) => {
            assert(x@.len() == x.len());
            assert(rows as nat * n as nat == rows * n);
            if exps.len() != rows * n {
                return Err(err_bad_sizes());
            }
            assert(op@.outputs[0] == op.outputs@[0]@);
            let v: Vec<u32> = normalize_rows(exps, rows, n);
            upload(mem, &op.outputs[0], overlay(&data, &encode(f, &v)))
        },
        Err(e) => Err(e),
    }
}

/// The output of a Reshape: a copy, unless input and output are one tensor.
pub open spec fn reshape_bytes(mem: Map<Seq<char>, Seq<u8>>, op: OpView) -> Result<
    Option<Seq<u8>>,
    ErrorView,
> {
    match names_checked(op, 1) {
        Err(e) => Err(e),
        Ok(_) => if op.inputs[0] == op.outputs[0] {
            Ok(None)
        } else {
            match bytes_of(mem, op.inputs[0]) {
                Err(e) => Err(e),
                Ok(data) => put(uploaded(mem, op.outputs[0], data)),
            }
        },
    }
}

/// Bytes that are put back.
pub open spec fn put(r: Result<Seq<u8>, ErrorView>) -> Result<Option<Seq<u8>>, ErrorView> {
    match r {
        Ok(v) => Ok(Some(v)),
        Err(e) => Err(e),
    }
}

/// What an exec function puts back, as a view.
pub open spec fn puts(r: Result<Option<Vec<u8>>, Error>) -> Result<Option<Seq<u8>>, ErrorView> {
    match r {
        Ok(Some(v)) => Ok(Some(v@)),
        Ok(None) => Ok(None),
        Err(e) => Err(e@),
    }
}

fn as_put(r: Result<Vec<u8>, Error>) -> (w: Result<Option<Vec<u8>>, Error>)
    ensures
        puts(w) == put(outcome(r)),
{
    match r {
        Ok(v) => Ok(Some(v)),
        Err(e) => Err(e),
    }
}

fn run_reshape(mem: &NameMap<Vec<u8>>, op: &CompiledOp) -> (r: Result<Option<Vec<u8>>, Error>)
    ensures
        puts(r) == reshape_bytes(mem@, op@),
{
    match check_names(op, 1) {
        Ok(_) => {},
        Err(e) => {
            return Err(e);
        },
    }
    assert(op@.inputs[0] == op.inputs@[0]@);
    assert(op@.outputs[0] == op.outputs@[0]@);
    if str_eq(op.inputs[0].as_str(), op.outputs[0].as_str()) {
        return Ok(None);
    }
    match find_bytes(mem, &op.inputs[0]) {
        Ok(data) => as_put(upload(mem, &op.outputs[0], data)),
        Err(e) => Err(e),
    }
}

/// What an op puts into its first output.
pub open spec fn op_bytes(
    g: GraphView,
    mem: Map<Seq<char>, Seq<u8>>,
    op: OpView,
    exps: Seq<u32>,
) -> Result<Option<Seq<u8>>, ErrorView> {
    match op.params {
        ParamsView::Empty => if op.op_type == "Relu"@ {
            put(relu_bytes(g, mem, op))
        } else {
            Ok(None)
        },
        ParamsView::Clip { min, max } => put(clip_bytes(g, mem, op, min, max)),
        ParamsView::Conv2d { .. } => Err(
            ErrorView::Runtime(
                "Conv2D dispatch not yet implemented for generic backend (op: "@ + op.name + ")"@,
            ),
        ),
        ParamsView::Add => put(add_bytes(g, mem, op)),
        ParamsView::GlobalAvgPool => put(global_pool_bytes(g, mem, op)),
        ParamsView::Gemm { alpha, beta, trans_a, trans_b } => put(
            gemm_bytes(g, mem, op, trans_a, trans_b),
        ),
        ParamsView::Softmax { axis } => put(softmax_bytes(g, mem, op, exps)),
        ParamsView::Reshape { shape } => reshape_bytes(mem, op),
        ParamsView::MaxPool { .. } | ParamsView::AvgPool { .. } => Err(
            ErrorView::Runtime(
                "MaxPool/AvgPool not implemented in generic runtime, use CpuGraphRuntime"@,
            ),
        ),
        _ => Err(
            ErrorView::Runtime(
                op.op_type + " not implemented in generic runtime, use CpuGraphRuntime"@,
            ),
        ),
    }
}

/// The numbers whose exponentials an op needs.
pub open spec fn op_arguments(g: GraphView, mem: Map<Seq<char>, Seq<u8>>, op: OpView) -> Seq<u32> {
    match op.params {
        ParamsView::Softmax { axis } => match softmax_input(g, mem, op) {
            Ok((f, data, x, rows, n)) => softmax_arguments(x, rows, n),
            Err(_) => Seq::empty(),
        },
        _ => Seq::empty(),
    }
}

fn find_arguments(graph: &Graph, mem: &NameMap<Vec<u8>>, op: &CompiledOp) -> (r: Vec<u32>)
    ensures
        r@ == op_arguments(graph@, mem@, op@),
{
    match &op.params {
        OpParams::Softmax { axis } => match find_softmax(graph, mem, op) {
            Ok((f, data, x, rows, n)) => shift_rows(&x, rows, n),
            Err(_) => Vec::new(),
        },
        _ => Vec::new(),
    }
}

fn run_op(graph: &Graph, mem: &NameMap<Vec<u8>>, op: &CompiledOp, exps: &Vec<u32>) -> (r: Result<
    Option<Vec<u8>>,
    Error,
>)
    ensures
        puts(r) == op_bytes(graph@, mem@, op@, exps@),
{
    match &op.params {
        OpParams::Empty => if str_eq(op.op_type.as_str(), "Relu") {
            as_put(run_relu(graph, mem, op))
        } else {
            Ok(None)
        },
        OpParams::Clip { min, max } => as_put(run_clip(graph, mem, op, *min, *max)),
        OpParams::Conv2d { .. } => Err(
            Error::Runtime(
                concat3(
                    "Conv2D dispatch not yet implemented for generic backend (op: ",
                    op.name.as_str(),
                    ")",
                ),
            ),
        ),
        OpParams::Add => as_put(run_add(graph, mem, op)),
        OpParams::GlobalAvgPool => as_put(run_global_pool(graph, mem, op)),
        OpParams::Gemm { alpha, beta, trans_a, trans_b } => as_put(
            run_gemm(graph, mem, op, *trans_a, *trans_b),
        ),
        OpParams::Softmax { axis } => as_put(run_softmax(graph, mem, op, exps)),
        OpParams::Reshape { shape } => run_reshape(mem, op),
        OpParams::MaxPool { .. } | OpParams::AvgPool { .. } => Err(
            Error::Runtime(
                "MaxPool/AvgPool not implemented in generic runtime, use CpuGraphRuntime".to_owned(),
            ),
        ),
        _ => Err(
            Error::Runtime(
                concat2(
                    op.op_type.as_str(),
                    " not implemented in generic runtime, use CpuGraphRuntime",
                ),
            ),
        ),
    }
}

// ---------------------------------------------------------------------------
// The runtime
// ---------------------------------------------------------------------------

/// Runtime state for executing a graph, with the tensors that a backend holds.
pub struct GraphRuntime {
    graph: Graph,
    memory: NameMap<Vec<u8>>,
}

/// The state of a runtime.
pub struct RuntimeView {
    pub graph: GraphView,
    pub memory: Map<Seq<char>, Seq<u8>>,
}

impl View for GraphRuntime {
    type V = RuntimeView;

    closed spec fn view(&self) -> RuntimeView {
        RuntimeView { graph: self.graph@, memory: self.memory@ }
    }
}

/// How far a run has come: the tensors, and what stopped it, if anything did.
pub struct Running {
    pub memory: Map<Seq<char>, Seq<u8>>,
    pub failure: Option<ErrorView>,
}

/// A runtime that has not run yet; the Relu of a fused convolution is an op of its own.
pub open spec fn fresh_runtime(g: GraphView) -> Result<RuntimeView, ErrorView> {
    if !sizes_fit(g) {
        Err(size_overflow())
    } else {
        Ok(RuntimeView { graph: taken_apart(g, false), memory: first_memory(g) })
    }
}

/// The first `n` inputs put into their tensors.
pub open spec fn inputs_put(
    mem: Map<Seq<char>, Seq<u8>>,
    inputs: Seq<(Seq<char>, Seq<u8>)>,
    n: nat,
) -> Running
    decreases n,
{
    if n == 0 {
        Running { memory: mem, failure: None }
    } else {
        let before = inputs_put(mem, inputs, (n - 1) as nat);
        let (name, data) = inputs[n - 1];
        if before.failure is Some {
            before
        } else if !before.memory.dom().contains(name) {
            Running {
                failure: Some(ErrorView::Runtime("input tensor not found: "@ + name)),
                ..before
            }
        } else if before.memory[name].len() != data.len() {
            Running {
                failure: Some(
                    ErrorView::Runtime(
                        "input "@ + name + " size mismatch: expected "@ + dec_int(
                            before.memory[name].len() as int,
                        ) + ", got "@ + dec_int(data.len() as int),
                    ),
                ),
                ..before
            }
        } else {
            Running { memory: before.memory.insert(name, data), failure: None }
        }
    }
}

/// The tensors after an op.
pub open spec fn op_done(g: GraphView, mem: Map<Seq<char>, Seq<u8>>, op: OpView, exps: Seq<u32>) -> Running {
    match op_bytes(g, mem, op, exps) {
        Err(e) => Running { memory: mem, failure: Some(e) },
        Ok(None) => Running { memory: mem, failure: None },
        Ok(Some(v)) => Running { memory: mem.insert(op.outputs[0], v), failure: None },
    }
}

/// The tensors after the first `n` ops; `exps` holds the exponentials that each one needs.
pub open spec fn ops_done(
    g: GraphView,
    mem: Map<Seq<char>, Seq<u8>>,
    exps: Seq<Seq<u32>>,
    n: nat,
) -> Running
    decreases n,
{
    if n == 0 {
        Running { memory: mem, failure: None }
    } else {
        let before = ops_done(g, mem, exps, (n - 1) as nat);
        if before.failure is Some {
            before
        } else {
            op_done(g, before.memory, g.ops[n - 1], exps[n - 1])
        }
    }
}

/// The first `n` output tensors.
pub open spec fn outputs_of(mem: Map<Seq<char>, Seq<u8>>, names: Seq<Seq<char>>, n: nat) -> Result<
    Map<Seq<char>, Seq<u8>>,
    ErrorView,
>
    decreases n,
{
    if n == 0 {
        Ok(Map::empty())
    } else {
        match outputs_of(mem, names, (n - 1) as nat) {
            Err(e) => Err(e),
            Ok(before) => if mem.dom().contains(names[n - 1]) {
                Ok(before.insert(names[n - 1], mem[names[n - 1]]))
            } else {
                Err(ErrorView::Runtime("output tensor not found: "@ + names[n - 1]))
            },
        }
    }
}

/// A whole run: the tensors after it, and what it returns.
pub open spec fn run_of(
    r: RuntimeView,
    inputs: Seq<(Seq<char>, Seq<u8>)>,
    exps: Seq<Seq<u32>>,
) -> (Map<Seq<char>, Seq<u8>>, Result<Map<Seq<char>, Seq<u8>>, ErrorView>) {
    let first = inputs_put(r.memory, inputs, inputs.len());
    if first.failure is Some {
        (first.memory, Err(first.failure->0))
    } else {
        let last = ops_done(r.graph, first.memory, exps, r.graph.ops.len());
        if last.failure is Some {
            (last.memory, Err(last.failure->0))
        } else {
            (last.memory, outputs_of(last.memory, r.graph.outputs, r.graph.outputs.len()))
        }
    }
}

/// `exps` holds the exponentials that the ops need, one after the other, as `exp` answers them.
pub open spec fn are_exponentials<F: Fn(u32) -> u32>(
    exp: F,
    g: GraphView,
    mem: Map<Seq<char>, Seq<u8>>,
    exps: Seq<Seq<u32>>,
) -> bool {
    forall|i: nat|
        i < g.ops.len() && (#[trigger] ops_done(g, mem, exps, i)).failure is None ==> are_answers(
            exp,
            op_arguments(g, ops_done(g, mem, exps, i).memory, g.ops[i as int]),
            exps[i as int],
        )
}

proof fn lemma_done_agrees(
    g: GraphView,
    mem: Map<Seq<char>, Seq<u8>>,
    a: Seq<Seq<u32>>,
    b: Seq<Seq<u32>>,
    n: nat,
)
    requires
        forall|k: int| 0 <= k < n ==> a[k] == b[k],
    ensures
        ops_done(g, mem, a, n) == ops_done(g, mem, b, n),
    decreases n,
{
    if n > 0 {
        lemma_done_agrees(g, mem, a, b, (n - 1) as nat);
    }
}

proof fn lemma_done_stopped(
    g: GraphView,
    mem: Map<Seq<char>, Seq<u8>>,
    exps: Seq<Seq<u32>>,
    n: nat,
    m: nat,
)
    requires
        n <= m,
        ops_done(g, mem, exps, n).failure is Some,
    ensures
        ops_done(g, mem, exps, m) == ops_done(g, mem, exps, n),
    decreases m,
{
    if n < m {
        lemma_done_stopped(g, mem, exps, n, (m - 1) as nat);
    }
}

proof fn lemma_put_stopped(
    mem: Map<Seq<char>, Seq<u8>>,
    inputs: Seq<(Seq<char>, Seq<u8>)>,
    n: nat,
    m: nat,
)
    requires
        n <= m,
        inputs_put(mem, inputs, n).failure is Some,
    ensures
        inputs_put(mem, inputs, m) == inputs_put(mem, inputs, n),
    decreases m,
{
    if n < m {
        lemma_put_stopped(mem, inputs, n, (m - 1) as nat);
    }
}

proof fn lemma_outputs_stopped(
    mem: Map<Seq<char>, Seq<u8>>,
    names: Seq<Seq<char>>,
    n: nat,
    m: nat,
)
    requires
        n <= m,
        outputs_of(mem, names, n) is Err,
    ensures
        outputs_of(mem, names, m) == outputs_of(mem, names, n),
    decreases m,
{
    if n < m {
        lemma_outputs_stopped(mem, names, n, (m - 1) as nat);
    }
}

proof fn lemma_putter_has_output(
    g: GraphView,
    mem: Map<Seq<char>, Seq<u8>>,
    op: OpView,
    exps: Seq<u32>,
)
    requires
        op_bytes(g, mem, op, exps) matches Ok(Some(_)),
    ensures
        op.outputs.len() > 0,
{
}

impl GraphRuntime {
    /// Create a new runtime for the given graph.
    ///
    /// There is a buffer for every tensor (inputs, outputs, intermediates, and
    /// initializers/weights).
    pub fn new(graph: Graph) -> (r: Result<GraphRuntime, Error>)
        ensures
            outcome(r) == fresh_runtime(graph@),
    {
        match make_memory(&graph) {
            Some(memory) => Ok(GraphRuntime { graph: take_apart(graph, false), memory }),
            None => Err(err_size_overflow()),
        }
    }

    /// Get the input tensor names and shapes.
    pub fn inputs(&self) -> (r: Vec<(&str, &TensorShape)>)
        ensures
            pair_views(r@) == named_shapes(
                self@.graph.inputs,
                self@.graph.shapes,
                self@.graph.inputs.len(),
            ),
    {
        self.graph.input_info()
    }

    /// Get the output tensor names and shapes.
    pub fn outputs(&self) -> (r: Vec<(&str, &TensorShape)>)
        ensures
            pair_views(r@) == named_shapes(
                self@.graph.outputs,
                self@.graph.shapes,
                self@.graph.outputs.len(),
            ),
    {
        self.graph.output_info()
    }

    fn put_inputs(&mut self, inputs: &NameMap<Vec<u8>>) -> (r: Result<(), Error>)
        ensures
            final(self)@.graph == old(self)@.graph,
            inputs_put(old(self)@.memory, inputs.pairs(), inputs.pairs().len()) == (Running {
                memory: final(self)@.memory,
                failure: failure_of(r),
            }),
    {
        let ghost start = self@.memory;
        let ghost pairs = inputs.pairs();
        let n: usize = inputs.len();
        let mut i: usize = 0;
        while i < n
            invariant
                i <= n == pairs.len(),
                pairs == inputs.pairs(),
                start == old(self)@.memory,
                self@.graph == old(self)@.graph,
                inputs_put(start, pairs, i as nat) == (Running {
                    memory: self@.memory,
                    failure: None,
                }),
            decreases n - i,
        {
            let name: &String = inputs.key_at(i);
            let data: &Vec<u8> = inputs.value_at(i);
            match self.memory.get(name.as_str()) {
                Some(there) => {
                    if there.len() != data.len() {
                        let mut text: String = concat3(
                            "input ",
                            name.as_str(),
                            " size mismatch: expected ",
                        );
                        let e: String = dec_usize(there.len());
                        let f: String = dec_usize(data.len());
                        text.append(e.as_str());
                        text.append(", got ");
                        text.append(f.as_str());
                        proof {
                            lemma_put_stopped(start, pairs, (i + 1) as nat, n as nat);
                        }
                        return Err(Error::Runtime(text));
                    }
                },
                None => {
                    proof {
                        lemma_put_stopped(start, pairs, (i + 1) as nat, n as nat);
                    }
                    return Err(Error::Runtime(concat2("input tensor not found: ", name.as_str())));
                },
            }
            self.memory.insert(name.clone(), copy_vec(data));
            i = i + 1;
        }
        Ok(())
    }

    /// Dispatch a single op.
    fn dispatch_op(&mut self, i: usize, exps: &Vec<u32>) -> (r: Result<(), Error>)
        requires
            i < old(self)@.graph.ops.len(),
        ensures
            final(self)@.graph == old(self)@.graph,
            op_done(
                old(self)@.graph,
                old(self)@.memory,
                old(self)@.graph.ops[i as int],
                exps@,
            ) == (Running { memory: final(self)@.memory, failure: failure_of(r) }),
    {
        let op: CompiledOp = self.graph.ops[i].clone();
        assert(self@.graph.ops[i as int] == op@);
        match run_op(&self.graph, &self.memory, &op, exps) {
            Ok(Some(v)) => {
                proof {
                    lemma_putter_has_output(self@.graph, self@.memory, op@, exps@);
                }
                assert(op@.outputs[0] == op.outputs@[0]@);
                self.memory.insert(op.outputs[0].clone(), v);
                Ok(())
            },
            Ok(None) => Ok(()),
            Err(e) => Err(e),
        }
    }

    fn get_outputs(&self) -> (r: Result<NameMap<Vec<u8>>, Error>)
        ensures
            outcome(r) == outputs_of(
                self@.memory,
                self@.graph.outputs,
                self@.graph.outputs.len(),
            ),
    {
        let ghost names = self@.graph.outputs;
        let mut r: NameMap<Vec<u8>> = NameMap::new();
        let mut i: usize = 0;
        while i < self.graph.outputs.len()
            invariant
                i <= self.graph.outputs@.len(),
                names == self@.graph.outputs,
                outputs_of(self@.memory, names, i as nat) == Ok::<
                    Map<Seq<char>, Seq<u8>>,
                    ErrorView,
                >(r@),
            decreases self.graph.outputs@.len() - i,
        {
            let name: &String = &self.graph.outputs[i];
            assert(names[i as int] == name@);
            match self.memory.get(name.as_str()) {
                Some(v) => {
                    r.insert(name.clone(), copy_vec(v));
                },
                None => {
                    proof {
                        lemma_outputs_stopped(self@.memory, names, (i + 1) as nat, names.len());
                    }
                    return Err(
                        Error::Runtime(concat2("output tensor not found: ", name.as_str())),
                    );
                },
            }
            i = i + 1;
        }
        Ok(r)
    }

    /// Run the graph with the given inputs.
    ///
    /// `inputs` maps input tensor names to their data (as bytes); `exp` is the
    /// exponential function on the bits of singles. Returns output tensor data.
    pub fn run<F: Fn(u32) -> u32>(&mut self, inputs: &NameMap<Vec<u8>>, exp: &F) -> (r: Result<
        NameMap<Vec<u8>>,
        Error,
    >)
        requires
            forall|x: u32| call_requires(*exp, (x,)),
        ensures
            final(self)@.graph == old(self)@.graph,
            exists|exps: Seq<Seq<u32>>|
                {
                    &&& #[trigger] run_of(old(self)@, inputs.pairs(), exps) == (
                        final(self)@.memory,
                        outcome(r),
                    )
                    &&& are_exponentials(
                        *exp,
                        old(self)@.graph,
                        inputs_put(
                            old(self)@.memory,
                            inputs.pairs(),
                            inputs.pairs().len(),
                        ).memory,
                        exps,
                    ) || inputs_put(
                        old(self)@.memory,
                        inputs.pairs(),
                        inputs.pairs().len(),
                    ).failure is Some
                },
    {
        let ghost start = self@;
        let ghost g = self@.graph;
        let ghost pairs = inputs.pairs();
        let ghost mut all: Seq<Seq<u32>> = Seq::empty();
        match self.put_inputs(inputs) {
            Ok(_) => {},
            Err(e) => {
                assert(run_of(start, pairs, all).1 is Err);
                return Err(e);
            },
        }
        let ghost first = self@.memory;
        let n: usize = self.graph.ops.len();
        let mut i: usize = 0;
        while i < n
            invariant
                i <= n == g.ops.len(),
                forall|x: u32| call_requires(*exp, (x,)),
                start == old(self)@,
                g == start.graph,
                self@.graph == g,
                pairs == inputs.pairs(),
                inputs_put(start.memory, pairs, pairs.len()) == (Running {
                    memory: first,
                    failure: None,
                }),
                all.len() == i,
                ops_done(g, first, all, i as nat) == (Running {
                    memory: self@.memory,
                    failure: None,
                }),
                forall|k: nat|
                    k < i && (#[trigger] ops_done(g, first, all, k)).failure is None ==> are_answers(
                        *exp,
                        op_arguments(g, ops_done(g, first, all, k).memory, g.ops[k as int]),
                        all[k as int],
                    ),
            decreases n - i,
        {
            assert(g.ops[i as int] == self.graph.ops@[i as int]@);
            let args: Vec<u32> = find_arguments(&self.graph, &self.memory, &self.graph.ops[i]);
            let exps: Vec<u32> = answer_all(exp, &args);
            let ghost before = all;
            proof {
                all = before.push(exps@);
                lemma_done_agrees(g, first, before, all, i as nat);
                assert forall|k: nat| k < i + 1 && (#[trigger] ops_done(g, first, all, k)).failure is None implies are_answers(
                    *exp,
                    op_arguments(g, ops_done(g, first, all, k).memory, g.ops[k as int]),
                    all[k as int],
                ) by {
                    lemma_done_agrees(g, first, before, all, k);
                    assert(ops_done(g, first, before, k) == ops_done(g, first, all, k));
                }
            }
            match self.dispatch_op(i, &exps) {
                Ok(_) => {},
                Err(e) => {
                    proof {
                        lemma_done_stopped(g, first, all, (i + 1) as nat, n as nat);
                        assert forall|k: nat| k < n && (#[trigger] ops_done(g, first, all, k)).failure is None implies are_answers(
                            *exp,
                            op_arguments(g, ops_done(g, first, all, k).memory, g.ops[k as int]),
                            all[k as int],
                        ) by {
                            if k > i {
                                lemma_done_stopped(g, first, all, (i + 1) as nat, k);
                            }
                        }
                        assert(are_exponentials(*exp, g, first, all));
                        assert(run_of(start, pairs, all) == (
                            self@.memory,
                            Err::<Map<Seq<char>, Seq<u8>>, ErrorView>(e@),
                        ));
                    }
                    return Err(e);
                },
            }
            i = i + 1;
        }
        let r: Result<NameMap<Vec<u8>>, Error> = self.get_outputs();
        assert(are_exponentials(*exp, g, first, all));
        assert(run_of(start, pairs, all) == (self@.memory, outcome(r)));
        r
    }
}

} // verus!
