//! Ops that the host works on: their inputs are read back, a CPU kernel works on
//! them, and the results are uploaded.

use vstd::prelude::*;
use vstd::string::*;
use crate::builder::{CompiledOp, OpParams, OpView, ParamsView};
use crate::calibration::dispatch::{bad_sizes, err_bad_sizes, find_shape, shape_at};
use crate::calibration::{sizes_fit, zeros};
use crate::error::{outcome, Error, ErrorView};
use crate::graph::{Graph, GraphView};
use crate::kernels::{apply_over, broadcast_over, overlaid, overlay, Arithmetic};
use crate::model::{copy_vec, lemma_views_push, views};
use crate::runtime::cpu::{
    count_fresh, fresh_fits, make_call_1, make_call_2, make_pieces, one_call, pad_dims, padded_dims,
    pieces_fit, zero_pieces, zero_singles, CallView, Image, Kernel, KernelCall, KernelView, Numbers,
    NumbersView,
};
use crate::tensor::{checked_numel, numel, products_fit, ShapeView, TensorShape};
use crate::text::{concat2, concat3, concat4, dec_int, dec_usize, str_eq};
use super::{buffer_size, checked, find_size, no_buffer};

verus! {

/// What the host has to do for an op.
#[derive(Debug)]
pub enum HostStep {
    /// Upload these numbers (bits of singles) to the op's output.
    Upload(Vec<u32>),
    /// Let a CPU kernel work, and upload what it returns.
    Call(KernelCall),
}

/// The contents of [`HostStep`].
pub enum HostView {
    Upload(Seq<u32>),
    Call(CallView),
}

impl View for HostStep {
    type V = HostView;

    open spec fn view(&self) -> HostView {
        match *self {
            HostStep::Upload(v) => HostView::Upload(v@),
            HostStep::Call(c) => HostView::Call(c@),
        }
    }
}

/// Whether a tensor can be read back as singles, and whether `data` is as long as it is.
pub open spec fn downloaded(g: GraphView, name: Seq<char>, data: Seq<u32>) -> Result<(), ErrorView> {
    match buffer_size(g, name) {
        None => Err(no_buffer(name)),
        Some(n) => if n % 4 != 0 {
            Err(
                ErrorView::Runtime(
                    name + ": byte length "@ + dec_int(n as int) + " not multiple of 4"@,
                ),
            )
        } else if data.len() != n / 4 {
            Err(bad_sizes())
        } else {
            Ok(())
        },
    }
}

fn check_download(graph: &Graph, name: &String, data: &Vec<u32>) -> (r: Result<(), Error>)
    requires
        sizes_fit(graph@),
    ensures
        checked(r) == downloaded(graph@, name@, data@),
{
    match find_size(graph, name.as_str()) {
        None => Err(Error::Runtime(concat2("buffer not found: ", name.as_str()))),
        Some(n) => if n % 4 != 0 {
            let t: String = dec_usize(n);
            Err(
                Error::Runtime(
                    concat4(name.as_str(), ": byte length ", t.as_str(), " not multiple of 4"),
                ),
            )
        } else if data.len() != n / 4 {
            Err(err_bad_sizes())
        } else {
            Ok(())
        },
    }
}

/// Whether so many singles can be uploaded to a tensor: only where they have its size.
pub open spec fn upload_checked(g: GraphView, name: Seq<char>, count: nat) -> Result<(), ErrorView> {
    match buffer_size(g, name) {
        None => Err(no_buffer(name)),
        Some(n) => if n != 4 * count {
            Err(
                ErrorView::Runtime(
                    name + " upload size mismatch: buf="@ + dec_int(n as int) + " data="@ + dec_int(
                        4 * count as int,
                    ),
                ),
            )
        } else {
            Ok(())
        },
    }
}

/// What a call of a kernel with one input asks for.
pub open spec fn ask(kernel: KernelView, input: Seq<u32>, fresh: nat) -> HostView {
    HostView::Call(one_call(kernel, seq![NumbersView::Singles(input)], zero_singles(fresh)))
}

fn make_ask(kernel: Kernel, input: &Vec<u32>, fresh: usize) -> (r: HostStep)
    ensures
        r@ == ask(kernel@, input@, fresh as nat),
{
    HostStep::Call(
        make_call_1(kernel, Numbers::Singles(copy_vec(input)), Numbers::Singles(zeros(fresh))),
    )
}

/// The elements of an output; as many as `default` where it has no shape.
pub open spec fn output_count(g: GraphView, name: Seq<char>, default: nat) -> Result<nat, ErrorView> {
    if !g.shapes.dom().contains(name) {
        Ok(default)
    } else if products_fit(g.shapes[name].dims) {
        Ok(numel(g.shapes[name].dims))
    } else {
        Err(bad_sizes())
    }
}

/// A Sub or Div; the second operand is repeated where the two are not as long.
pub open spec fn arithmetic_host(
    g: GraphView,
    op: OpView,
    data: Seq<Seq<u32>>,
    kind: Arithmetic,
    missing: Seq<char>,
) -> Result<HostView, ErrorView> {
    if op.inputs.len() < 2 || op.outputs.len() == 0 {
        Err(ErrorView::Runtime(missing))
    } else if data.len() < 2 {
        Err(bad_sizes())
    } else {
        let a = data[0];
        let b = data[1];
        match downloaded(g, op.inputs[0], a) {
            Err(e) => Err(e),
            Ok(_) => match downloaded(g, op.inputs[1], b) {
                Err(e) => Err(e),
                Ok(_) => match output_count(g, op.outputs[0], a.len()) {
                    Err(e) => Err(e),
                    Ok(n) => if a.len() == b.len() {
                        Ok(
                            HostView::Call(
                                one_call(
                                    KernelView::Combine(kind),
                                    seq![NumbersView::Singles(a), NumbersView::Singles(b)],
                                    zero_singles(n),
                                ),
                            ),
                        )
                    } else if b.len() == 0 && n > 0 {
                        Err(bad_sizes())
                    } else {
                        Ok(
                            HostView::Upload(
                                if n == 0 {
                                    Seq::empty()
                                } else {
                                    overlaid(
                                        Seq::new(n, |i: int| 0u32),
                                        broadcast_over(kind, a, b),
                                    )
                                },
                            ),
                        )
                    },
                },
            },
        }
    }
}

fn plan_arithmetic(
    graph: &Graph,
    op: &CompiledOp,
    data: &Vec<Vec<u32>>,
    kind: Arithmetic,
    missing: &str,
) -> (r: Result<HostStep, Error>)
    requires
        sizes_fit(graph@),
    ensures
        outcome(r) == arithmetic_host(graph@, op@, views(data@), kind, missing@),
{
    if op.inputs.len() < 2 || op.outputs.len() == 0 {
        return Err(Error::Runtime(missing.to_owned()));
    }
    if data.len() < 2 {
        return Err(err_bad_sizes());
    }
    assert(op@.inputs[0] == op.inputs@[0]@);
    assert(op@.inputs[1] == op.inputs@[1]@);
    assert(op@.outputs[0] == op.outputs@[0]@);
    assert(views(data@)[0] == data@[0]@);
    assert(views(data@)[1] == data@[1]@);
    let a: &Vec<u32> = &data[0];
    let b: &Vec<u32> = &data[1];
    match check_download(graph, &op.inputs[0], a) {
        Err(e) => {
            return Err(e);
        },
        Ok(_) => {},
    }
    match check_download(graph, &op.inputs[1], b) {
        Err(e) => {
            return Err(e);
        },
        Ok(_) => {},
    }
    let n: usize = match graph.shapes.get(op.outputs[0].as_str()) {
        Some(s) => match checked_numel(s.dims.as_slice()) {
            Some(n) => n,
            None => {
                return Err(err_bad_sizes());
            },
        },
        None => a.len(),
    };
    if a.len() == b.len() {
        return Ok(
            HostStep::Call(
                make_call_2(
                    Kernel::Combine(kind),
                    Numbers::Singles(copy_vec(a)),
                    Numbers::Singles(copy_vec(b)),
                    Numbers::Singles(zeros(n)),
                ),
            ),
        );
    }
    if b.len() == 0 && n > 0 {
        return Err(err_bad_sizes());
    }
    if n == 0 {
        let none: Vec<u32> = Vec::new();
        assert(none@ =~= Seq::empty());
        return Ok(HostStep::Upload(none));
    }
    Ok(HostStep::Upload(overlay(&zeros(n), &apply_over(kind, a, b))))
}

/// The padded shapes of the first `n` inputs, all of which can be read back.
pub open spec fn concat_shapes(g: GraphView, op: OpView, data: Seq<Seq<u32>>, n: nat) -> Result<
    Seq<Seq<usize>>,
    ErrorView,
>
    decreases n,
{
    if n == 0 {
        Ok(Seq::empty())
    } else {
        match concat_shapes(g, op, data, (n - 1) as nat) {
            Err(e) => Err(e),
            Ok(before) => match shape_at(g, op.inputs[n - 1]) {
                Err(e) => Err(e),
                Ok(s) => if s.dims.len() > 4 || n > data.len() {
                    Err(bad_sizes())
                } else {
                    match downloaded(g, op.inputs[n - 1], data[n - 1]) {
                        Err(e) => Err(e),
                        Ok(_) => Ok(before.push(padded_dims(s.dims))),
                    }
                },
            },
        }
    }
}

proof fn lemma_concat_shapes_stopped(
    g: GraphView,
    op: OpView,
    data: Seq<Seq<u32>>,
    n: nat,
    m: nat,
)
    requires
        n <= m,
    ensures
        concat_shapes(g, op, data, n) is Err ==> concat_shapes(g, op, data, m) == concat_shapes(
            g,
            op,
            data,
            n,
        ),
    decreases m,
{
    if n < m {
        lemma_concat_shapes_stopped(g, op, data, n, (m - 1) as nat);
    }
}

/// A Concat.
pub open spec fn concat_host(g: GraphView, op: OpView, data: Seq<Seq<u32>>, axis: usize) -> Result<
    HostView,
    ErrorView,
> {
    if op.inputs.len() == 0 || op.outputs.len() == 0 {
        Err(ErrorView::Runtime("cpu_concat: missing input/output"@))
    } else {
        match concat_shapes(g, op, data, op.inputs.len()) {
            Err(e) => Err(e),
            Ok(shapes) => if !g.shapes.dom().contains(op.outputs[0]) {
                Err(ErrorView::Runtime("output shape not found"@))
            } else {
                match output_count(g, op.outputs[0], 0) {
                    Err(e) => Err(e),
                    Ok(n) => Ok(
                        HostView::Call(
                            one_call(
                                KernelView::Concat { shapes, axis },
                                data.take(op.inputs.len() as int).map_values(
                                    |v: Seq<u32>| NumbersView::Singles(v),
                                ),
                                zero_singles(n),
                            ),
                        ),
                    ),
                }
            },
        }
    }
}

fn plan_concat(graph: &Graph, op: &CompiledOp, data: &Vec<Vec<u32>>, axis: usize) -> (r: Result<
    HostStep,
    Error,
>)
    requires
        sizes_fit(graph@),
    ensures
        outcome(r) == concat_host(graph@, op@, views(data@), axis),
{
    if op.inputs.len() == 0 || op.outputs.len() == 0 {
        return Err(Error::Runtime("cpu_concat: missing input/output".to_owned()));
    }
    assert(op@.outputs[0] == op.outputs@[0]@);
    let ghost all = views(data@);
    let mut shapes: Vec<Vec<usize>> = Vec::new();
    let mut inputs: Vec<Numbers> = Vec::new();
    assert(views(shapes@) =~= Seq::empty());
    assert(views(inputs@) =~= Seq::<NumbersView>::empty());
    assert(all.take(0).map_values(|v: Seq<u32>| NumbersView::Singles(v)) =~= Seq::empty());
    let mut i: usize = 0;
    while i < op.inputs.len()
        invariant
            i <= op.inputs@.len(),
            i <= data@.len(),
            op.inputs@.len() > 0,
            op.outputs@.len() > 0,
            sizes_fit(graph@),
            all == views(data@),
            concat_shapes(graph@, op@, all, i as nat) == Ok::<Seq<Seq<usize>>, ErrorView>(
                views(shapes@),
            ),
            views(inputs@) == all.take(i as int).map_values(
                |v: Seq<u32>| NumbersView::Singles(v),
            ),
        decreases op.inputs@.len() - i,
    {
        broadcast use lemma_views_push;

        proof {
            assert(op@.inputs[i as int] == op.inputs@[i as int]@);
            lemma_concat_shapes_stopped(graph@, op@, all, (i + 1) as nat, op@.inputs.len());
        }
        let s: &TensorShape = match find_shape(graph, &op.inputs[i]) {
            Ok(s) => s,
            Err(e) => {
                return Err(e);
            },
        };
        if s.dims.len() > 4 || i >= data.len() {
            return Err(err_bad_sizes());
        }
        assert(all[i as int] == data@[i as int]@);
        match check_download(graph, &op.inputs[i], &data[i]) {
            Err(e) => {
                return Err(e);
            },
            Ok(_) => {},
        }
        shapes.push(pad_dims(&s.dims));
        let ghost before = views(inputs@);
        inputs.push(Numbers::Singles(copy_vec(&data[i])));
        i = i + 1;
        assert(views(inputs@) =~= before.push(NumbersView::Singles(all[i - 1])));
        assert(views(inputs@) =~= all.take(i as int).map_values(
            |v: Seq<u32>| NumbersView::Singles(v),
        ));
    }
    let n: usize = match graph.shapes.get(op.outputs[0].as_str()) {
        Some(s) => match checked_numel(s.dims.as_slice()) {
            Some(n) => n,
            None => {
                return Err(err_bad_sizes());
            },
        },
        None => {
            return Err(Error::Runtime("output shape not found".to_owned()));
        },
    };
    let mut outputs: Vec<Numbers> = Vec::new();
    outputs.push(Numbers::Singles(zeros(n)));
    assert(views(outputs@) =~= seq![zero_singles(n as nat)]);
    Ok(HostStep::Call(KernelCall { kernel: Kernel::Concat { shapes, axis }, inputs, outputs }))
}

/// The shape of the only input that is read, which can be read back.
pub open spec fn read_input(g: GraphView, op: OpView, data: Seq<Seq<u32>>) -> Result<(), ErrorView> {
    if data.len() < 1 {
        Err(bad_sizes())
    } else {
        downloaded(g, op.inputs[0], data[0])
    }
}

fn check_input(graph: &Graph, op: &CompiledOp, data: &Vec<Vec<u32>>) -> (r: Result<(), Error>)
    requires
        sizes_fit(graph@),
        op@.inputs.len() > 0,
    ensures
        checked(r) == read_input(graph@, op@, views(data@)),
{
    if data.len() < 1 {
        return Err(err_bad_sizes());
    }
    assert(op@.inputs[0] == op.inputs@[0]@);
    assert(views(data@)[0] == data@[0]@);
    check_download(graph, &op.inputs[0], &data[0])
}

/// A Resize, channels last.
pub open spec fn resize_host(
    g: GraphView,
    op: OpView,
    data: Seq<Seq<u32>>,
    out_h: usize,
    out_w: usize,
    mode: Seq<char>,
) -> Result<HostView, ErrorView> {
    if op.inputs.len() == 0 || op.outputs.len() == 0 {
        Err(ErrorView::Runtime("cpu_resize: missing input/output"@))
    } else {
        match shape_at(g, op.inputs[0]) {
            Err(e) => Err(e),
            Ok(s) => if s.dims.len() != 4 {
                Err(ErrorView::Runtime("cpu_resize: input must be 4D"@))
            } else if mode != "nearest"@ && mode != "linear"@ {
                Err(ErrorView::Runtime("cpu_resize: unsupported mode "@ + mode))
            } else {
                match read_input(g, op, data) {
                    Err(e) => Err(e),
                    Ok(_) => if !fresh_fits(s.dims[0], out_h as int, out_w as int, s.dims[3]) {
                        Err(bad_sizes())
                    } else {
                        let image = Image {
                            n: s.dims[0],
                            h_in: s.dims[1],
                            w_in: s.dims[2],
                            c_in: s.dims[3],
                            c_out: s.dims[3],
                            k_h: 1,
                            k_w: 1,
                            stride_h: 1,
                            stride_w: 1,
                            pad_h: 0,
                            pad_w: 0,
                        };
                        Ok(
                            ask(
                                KernelView::Resize {
                                    image,
                                    out_h,
                                    out_w,
                                    linear: mode != "nearest"@,
                                },
                                data[0],
                                (((s.dims[0] * out_h) * out_w) * s.dims[3]) as nat,
                            ),
                        )
                    },
                }
            },
        }
    }
}

fn plan_resize(
    graph: &Graph,
    op: &CompiledOp,
    data: &Vec<Vec<u32>>,
    out_h: usize,
    out_w: usize,
    mode: &String,
) -> (r: Result<HostStep, Error>)
    requires
        sizes_fit(graph@),
    ensures
        outcome(r) == resize_host(graph@, op@, views(data@), out_h, out_w, mode@),
{
    if op.inputs.len() == 0 || op.outputs.len() == 0 {
        return Err(Error::Runtime("cpu_resize: missing input/output".to_owned()));
    }
    assert(op@.inputs[0] == op.inputs@[0]@);
    let s: &TensorShape = match find_shape(graph, &op.inputs[0]) {
        Ok(s) => s,
        Err(e) => {
            return Err(e);
        },
    };
    if s.dims.len() != 4 {
        return Err(Error::Runtime("cpu_resize: input must be 4D".to_owned()));
    }
    let nearest: bool = str_eq(mode.as_str(), "nearest");
    if !nearest && !str_eq(mode.as_str(), "linear") {
        return Err(Error::Runtime(concat2("cpu_resize: unsupported mode ", mode.as_str())));
    }
    match check_input(graph, op, data) {
        Err(e) => {
            return Err(e);
        },
        Ok(_) => {},
    }
    let fresh: usize = match count_fresh(s.dims[0], out_h as u128, out_w as u128, s.dims[3]) {
        Some(n) => n,
        None => {
            return Err(err_bad_sizes());
        },
    };
    let image: Image = Image {
        n: s.dims[0],
        h_in: s.dims[1],
        w_in: s.dims[2],
        c_in: s.dims[3],
        c_out: s.dims[3],
        k_h: 1,
        k_w: 1,
        stride_h: 1,
        stride_w: 1,
        pad_h: 0,
        pad_w: 0,
    };
    assert(views(data@)[0] == data@[0]@);
    Ok(make_ask(Kernel::Resize { image, out_h, out_w, linear: !nearest }, &data[0], fresh))
}

/// A Split.
pub open spec fn split_host(
    g: GraphView,
    op: OpView,
    data: Seq<Seq<u32>>,
    axis: usize,
    sizes: Seq<usize>,
) -> Result<HostView, ErrorView> {
    if op.inputs.len() == 0 || op.outputs.len() == 0 {
        Err(ErrorView::Runtime("cpu_split: missing input/output"@))
    } else {
        match shape_at(g, op.inputs[0]) {
            Err(e) => Err(e),
            Ok(s) => if s.dims.len() > 4 {
                Err(bad_sizes())
            } else {
                let shape = padded_dims(s.dims);
                match read_input(g, op, data) {
                    Err(e) => Err(e),
                    Ok(_) => if axis >= 4 || !pieces_fit(shape, axis, sizes) || op.outputs.len()
                        > sizes.len() {
                        Err(bad_sizes())
                    } else {
                        Ok(
                            HostView::Call(
                                CallView {
                                    kernel: KernelView::Split { shape, axis, sizes },
                                    inputs: seq![NumbersView::Singles(data[0])],
                                    outputs: zero_pieces(shape, axis, sizes),
                                },
                            ),
                        )
                    },
                }
            },
        }
    }
}

fn plan_split(
    graph: &Graph,
    op: &CompiledOp,
    data: &Vec<Vec<u32>>,
    axis: usize,
    sizes: &Vec<usize>,
) -> (r: Result<HostStep, Error>)
    requires
        sizes_fit(graph@),
    ensures
        outcome(r) == split_host(graph@, op@, views(data@), axis, sizes@),
{
    if op.inputs.len() == 0 || op.outputs.len() == 0 {
        return Err(Error::Runtime("cpu_split: missing input/output".to_owned()));
    }
    assert(op@.inputs[0] == op.inputs@[0]@);
    let s: &TensorShape = match find_shape(graph, &op.inputs[0]) {
        Ok(s) => s,
        Err(e) => {
            return Err(e);
        },
    };
    if s.dims.len() > 4 {
        return Err(err_bad_sizes());
    }
    let shape: Vec<usize> = pad_dims(&s.dims);
    match check_input(graph, op, data) {
        Err(e) => {
            return Err(e);
        },
        Ok(_) => {},
    }
    if axis >= 4 {
        return Err(err_bad_sizes());
    }
    match make_pieces(&shape, axis, sizes) {
        Some(outputs) => {
            if op.outputs.len() > sizes.len() {
                return Err(err_bad_sizes());
            }
            assert(views(data@)[0] == data@[0]@);
            let mut inputs: Vec<Numbers> = Vec::new();
            inputs.push(Numbers::Singles(copy_vec(&data[0])));
            assert(views(inputs@) =~= seq![NumbersView::Singles(data@[0]@)]);
            Ok(
                HostStep::Call(
                    KernelCall {
                        kernel: Kernel::Split { shape, axis, sizes: copy_vec(sizes) },
                        inputs,
                        outputs,
                    },
                ),
            )
        },
        None => Err(err_bad_sizes()),
    }
}

/// An order of up to four dimensions as one of four: those in front stay.
pub open spec fn padded_order(perm: Seq<usize>, front: int) -> Seq<usize> {
    Seq::new(
        4,
        |j: int|
            if front <= j < front + perm.len() {
                (perm[j - front] + front) as usize
            } else {
                j as usize
            },
    )
}

/// A Transpose.
pub open spec fn transpose_host(
    g: GraphView,
    op: OpView,
    data: Seq<Seq<u32>>,
    perm: Seq<usize>,
) -> Result<HostView, ErrorView> {
    if op.inputs.len() == 0 || op.outputs.len() == 0 {
        Err(ErrorView::Runtime("cpu_transpose: missing input/output"@))
    } else {
        match shape_at(g, op.inputs[0]) {
            Err(e) => Err(e),
            Ok(s) => match read_input(g, op, data) {
                Err(e) => Err(e),
                Ok(_) => if s.dims.len() > 4 || perm.len() > s.dims.len() || exists|i: int|
                    0 <= i < perm.len() && #[trigger] perm[i] >= 4 {
                    Err(bad_sizes())
                } else {
                    Ok(
                        ask(
                            KernelView::Transpose {
                                shape: padded_dims(s.dims),
                                perm: padded_order(perm, 4 - s.dims.len()),
                            },
                            data[0],
                            data[0].len(),
                        ),
                    )
                },
            },
        }
    }
}

fn plan_transpose(graph: &Graph, op: &CompiledOp, data: &Vec<Vec<u32>>, perm: &Vec<usize>) -> (r:
    Result<HostStep, Error>)
    requires
        sizes_fit(graph@),
    ensures
        outcome(r) == transpose_host(graph@, op@, views(data@), perm@),
{
    if op.inputs.len() == 0 || op.outputs.len() == 0 {
        return Err(Error::Runtime("cpu_transpose: missing input/output".to_owned()));
    }
    assert(op@.inputs[0] == op.inputs@[0]@);
    let s: &TensorShape = match find_shape(graph, &op.inputs[0]) {
        Ok(s) => s,
        Err(e) => {
            return Err(e);
        },
    };
    match check_input(graph, op, data) {
        Err(e) => {
            return Err(e);
        },
        Ok(_) => {},
    }
    if s.dims.len() > 4 || perm.len() > s.dims.len() {
        return Err(err_bad_sizes());
    }
    let front: usize = 4 - s.dims.len();
    let mut i: usize = 0;
    while i < perm.len()
        invariant
            i <= perm@.len(),
            s.dims@.len() <= 4,
            perm@.len() <= s.dims@.len(),
            op@.inputs.len() > 0,
            op@.outputs.len() > 0,
            shape_at(graph@, op@.inputs[0]) == Ok::<ShapeView, ErrorView>(s@),
            read_input(graph@, op@, views(data@)) is Ok,
            forall|k: int| 0 <= k < i ==> #[trigger] perm@[k] < 4,
        decreases perm@.len() - i,
    {
        if perm[i] >= 4 {
            return Err(err_bad_sizes());
        }
        i = i + 1;
    }
    let mut order: Vec<usize> = Vec::new();
    let mut j: usize = 0;
    while j < 4
        invariant
            j <= 4,
            front <= 4,
            front + perm@.len() <= 4,
            forall|k: int| 0 <= k < perm@.len() ==> #[trigger] perm@[k] < 4,
            order@ == padded_order(perm@, front as int).take(j as int),
        decreases 4 - j,
    {
        if front <= j && j < front + perm.len() {
            order.push(perm[j - front] + front);
        } else {
            order.push(j);
        }
        j = j + 1;
        assert(order@ =~= padded_order(perm@, front as int).take(j as int));
    }
    assert(order@ =~= padded_order(perm@, front as int));
    assert(views(data@)[0] == data@[0]@);
    let k: Kernel = Kernel::Transpose { shape: pad_dims(&s.dims), perm: order };
    Ok(make_ask(k, &data[0], data[0].len()))
}

/// A Slice.
pub open spec fn slice_host(
    g: GraphView,
    op: OpView,
    data: Seq<Seq<u32>>,
    starts: Seq<isize>,
    ends: Seq<isize>,
    axes: Seq<usize>,
    steps: Seq<isize>,
) -> Result<HostView, ErrorView> {
    if op.inputs.len() == 0 || op.outputs.len() == 0 {
        Err(ErrorView::Runtime("cpu_slice: missing input/output"@))
    } else {
        match shape_at(g, op.inputs[0]) {
            Err(e) => Err(e),
            Ok(s) => if !g.shapes.dom().contains(op.outputs[0]) {
                Err(ErrorView::Runtime("cpu_slice: output shape not found"@))
            } else {
                match output_count(g, op.outputs[0], 0) {
                    Err(e) => Err(e),
                    Ok(n) => match read_input(g, op, data) {
                        Err(e) => Err(e),
                        Ok(_) => if s.dims.len() > 4 {
                            Err(bad_sizes())
                        } else {
                            Ok(
                                ask(
                                    KernelView::Slice {
                                        shape: padded_dims(s.dims),
                                        starts,
                                        ends,
                                        axes,
                                        steps,
                                    },
                                    data[0],
                                    n,
                                ),
                            )
                        },
                    },
                }
            },
        }
    }
}

fn plan_slice(
    graph: &Graph,
    op: &CompiledOp,
    data: &Vec<Vec<u32>>,
    starts: &Vec<isize>,
    ends: &Vec<isize>,
    axes: &Vec<usize>,
    steps: &Vec<isize>,
) -> (r: Result<HostStep, Error>)
    requires
        sizes_fit(graph@),
    ensures
        outcome(r) == slice_host(
            graph@,
            op@,
            views(data@),
            starts@,
            ends@,
            axes@,
            steps@,
        ),
{
    if op.inputs.len() == 0 || op.outputs.len() == 0 {
        return Err(Error::Runtime("cpu_slice: missing input/output".to_owned()));
    }
    assert(op@.inputs[0] == op.inputs@[0]@);
    assert(op@.outputs[0] == op.outputs@[0]@);
    let s: &TensorShape = match find_shape(graph, &op.inputs[0]) {
        Ok(s) => s,
        Err(e) => {
            return Err(e);
        },
    };
    let n: usize = match graph.shapes.get(op.outputs[0].as_str()) {
        Some(s) => match checked_numel(s.dims.as_slice()) {
            Some(n) => n,
            None => {
                return Err(err_bad_sizes());
            },
        },
        None => {
            return Err(Error::Runtime("cpu_slice: output shape not found".to_owned()));
        },
    };
    match check_input(graph, op, data) {
        Err(e) => {
            return Err(e);
        },
        Ok(_) => {},
    }
    if s.dims.len() > 4 {
        return Err(err_bad_sizes());
    }
    assert(views(data@)[0] == data@[0]@);
    let k: Kernel = Kernel::Slice {
        shape: pad_dims(&s.dims),
        starts: copy_vec(starts),
        ends: copy_vec(ends),
        axes: copy_vec(axes),
        steps: copy_vec(steps),
    };
    Ok(make_ask(k, &data[0], n))
}

/// What the host has to do for an op, given the numbers of its inputs.
pub open spec fn host_work(g: GraphView, op: OpView, data: Seq<Seq<u32>>) -> Result<
    HostView,
    ErrorView,
> {
    match op.params {
        ParamsView::Sub => arithmetic_host(
            g,
            op,
            data,
            Arithmetic::Difference,
            "cpu_sub: needs 2 inputs + 1 output"@,
        ),
        ParamsView::Div => arithmetic_host(
            g,
            op,
            data,
            Arithmetic::Quotient,
            "cpu_div: needs 2 inputs + 1 output"@,
        ),
        ParamsView::Concat { axis } => concat_host(g, op, data, axis),
        ParamsView::Resize { out_h, out_w, mode } => resize_host(g, op, data, out_h, out_w, mode),
        ParamsView::Split { axis, split_sizes } => split_host(g, op, data, axis, split_sizes),
        ParamsView::Transpose { perm } => transpose_host(g, op, data, perm),
        ParamsView::Slice { starts, ends, axes, steps } => slice_host(
            g,
            op,
            data,
            starts,
            ends,
            axes,
            steps,
        ),
        _ => Err(bad_sizes()),
    }
}

impl super::VulkanGraphRuntime {
    /// What the host has to do for an op, given the numbers (bits of singles) of
    /// its inputs, as they were read back.
    pub fn plan_host(&self, op: &CompiledOp, data: &Vec<Vec<u32>>) -> (r: Result<HostStep, Error>)
        ensures
            outcome(r) == host_work(self@, op@, views(data@)),
    {
        let graph: &Graph = self.checked_graph();
        match &op.params {
            OpParams::Sub => plan_arithmetic(
                graph,
                op,
                data,
                Arithmetic::Difference,
                "cpu_sub: needs 2 inputs + 1 output",
            ),
            OpParams::Div => plan_arithmetic(
                graph,
                op,
                data,
                Arithmetic::Quotient,
                "cpu_div: needs 2 inputs + 1 output",
            ),
            OpParams::Concat { axis } => plan_concat(graph, op, data, *axis),
            OpParams::Resize { out_h, out_w, mode } => plan_resize(
                graph,
                op,
                data,
                *out_h,
                *out_w,
                mode,
            ),
            OpParams::Split { axis, split_sizes } => plan_split(
                graph,
                op,
                data,
                *axis,
                split_sizes,
            ),
            OpParams::Transpose { perm } => plan_transpose(graph, op, data, perm),
            OpParams::Slice { starts, ends, axes, steps } => plan_slice(
                graph,
                op,
                data,
                starts,
                ends,
                axes,
                steps,
            ),
            _ => Err(err_bad_sizes()),
        }
    }

    /// Check whether so many singles can be uploaded to a tensor.
    pub fn check_upload(&self, name: &str, count: usize) -> (r: Result<(), Error>)
        requires
            4 * count <= usize::MAX,
        ensures
            checked(r) == upload_checked(self@, name@, count as nat),
    {
        let graph: &Graph = self.checked_graph();
        match find_size(graph, name) {
            None => Err(Error::Runtime(concat2("buffer not found: ", name))),
            Some(n) => if n != 4 * count {
                let b: String = dec_usize(n);
                let d: String = dec_usize(4 * count);
                let mut text: String = concat3(name, " upload size mismatch: buf=", b.as_str());
                text.append(" data=");
                text.append(d.as_str());
                Err(Error::Runtime(text))
            } else {
                Ok(())
            },
        }
    }
}

} // verus!
