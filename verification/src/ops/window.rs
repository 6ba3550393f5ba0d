//! Convolution and pooling: ops that slide a window over the input.

use vstd::prelude::*;
use vstd::string::*;
use crate::builder::{BuildContext, CompiledOp, ContextView, OpParams, OpView, ParamsView};
use crate::error::{outcome, Error, ErrorView};
use crate::model::{copy_names, NodeView, OnnxNode};
use crate::ops::common::{
    build_outcome, err_too_few_inputs, find_shape, finish, finished, found_shape, invalid, size_at,
    size_or, too_few_inputs,
};
use crate::tensor::{plain_shape, ShapeView, TensorShape};
use crate::text::{concat2, concat3, concat4, dec, dec_usize};

verus! {

/// The number of positions of a window of `kernel` elements that moves by
/// `stride` over `size` elements with padding on both sides. There is none if
/// the window is larger than what it moves over or does not move, or if a
/// number is not index-sized.
pub open spec fn window_extent(
    size: usize,
    before: usize,
    after: usize,
    kernel: usize,
    stride: usize,
) -> Option<usize> {
    let padded = size + before + after;
    if padded > usize::MAX || kernel > padded || stride == 0 || (padded - kernel) / (stride as int)
        + 1 > usize::MAX {
        None
    } else {
        Some(((padded - kernel) / (stride as int) + 1) as usize)
    }
}

/// The number of window positions.
pub fn extent(size: usize, before: usize, after: usize, kernel: usize, stride: usize) -> (r: Option<
    usize,
>)
    ensures
        r == window_extent(size, before, after, kernel, stride),
{
    let padded: usize = match size.checked_add(before) {
        Some(s) => match s.checked_add(after) {
            Some(p) => p,
            None => {
                return None;
            },
        },
        None => {
            return None;
        },
    };
    if kernel > padded || stride == 0 {
        return None;
    }
    ((padded - kernel) / stride).checked_add(1)
}

/// The window fits at every counted position and at none after: position `i`
/// covers the elements from `i * stride` on.
pub proof fn law_window_positions(
    size: usize,
    before: usize,
    after: usize,
    kernel: usize,
    stride: usize,
    i: int,
)
    requires
        window_extent(size, before, after, kernel, stride) is Some,
        0 <= i,
    ensures
        i < window_extent(size, before, after, kernel, stride)->0 <==> i * stride + kernel <= size
            + before + after,
{
    let room = size + before + after - kernel;
    let s = stride as int;
    let n = room / s;
    assert(n * s <= room < (n + 1) * s) by (nonlinear_arith)
        requires
            s > 0,
            n == room / s,
    ;
    if i <= n {
        assert(i * s <= n * s) by (nonlinear_arith)
            requires
                i <= n,
                s > 0,
        ;
    } else {
        assert((n + 1) * s <= i * s) by (nonlinear_arith)
            requires
                n + 1 <= i,
                s > 0,
        ;
    }
}

/// What a rule answers when there is no window position.
pub open spec fn no_window() -> ErrorView {
    ErrorView::Shape("window does not fit"@)
}

/// Parameters of a window, from a node's attributes.
pub struct WindowView {
    pub kernel: (usize, usize),
    pub strides: (usize, usize),
    /// Top, left, bottom, right.
    pub pads: (usize, usize, usize, usize),
    pub dilations: (usize, usize),
    pub group: usize,
}

/// The pair of sizes in a list of exactly two, else a default.
pub open spec fn pair_of(v: Seq<i64>, default: (usize, usize)) -> (usize, usize) {
    if v.len() == 2 {
        (v[0] as usize, v[1] as usize)
    } else {
        default
    }
}

fn pair(v: &Vec<i64>, default: (usize, usize)) -> (r: (usize, usize))
    ensures
        r == pair_of(v@, default),
{
    if v.len() == 2 {
        (v[0] as usize, v[1] as usize)
    } else {
        default
    }
}

/// The window of a convolution. Attributes that are absent, or of another
/// length than two dimensions need, take their defaults: the weight's own
/// size, stride 1, no padding, dilation 1 and a single group.
pub open spec fn conv_window(node: NodeView, weight: Seq<i64>) -> WindowView {
    let pads = node.attr_ints("pads"@);
    WindowView {
        kernel: pair_of(
            node.attr_ints("kernel_shape"@),
            (weight[2] as usize, weight[3] as usize),
        ),
        strides: pair_of(node.attr_ints("strides"@), (1, 1)),
        pads: if pads.len() == 4 {
            (pads[0] as usize, pads[1] as usize, pads[2] as usize, pads[3] as usize)
        } else {
            (0, 0, 0, 0)
        },
        dilations: pair_of(node.attr_ints("dilations"@), (1, 1)),
        group: node.attr_int("group"@, 1) as usize,
    }
}

#[derive(Clone, Copy)]
struct Window {
    kernel: (usize, usize),
    strides: (usize, usize),
    pads: (usize, usize, usize, usize),
    dilations: (usize, usize),
    group: usize,
}

impl View for Window {
    type V = WindowView;

    closed spec fn view(&self) -> WindowView {
        WindowView {
            kernel: self.kernel,
            strides: self.strides,
            pads: self.pads,
            dilations: self.dilations,
            group: self.group,
        }
    }
}

fn read_conv_window(node: &OnnxNode, weight: &Vec<i64>) -> (r: Window)
    requires
        weight@.len() == 4,
    ensures
        r@ == conv_window(node@, weight@),
{
    let pads: Vec<i64> = node.get_attr_ints("pads");
    Window {
        kernel: pair(
            &node.get_attr_ints("kernel_shape"),
            (weight[2] as usize, weight[3] as usize),
        ),
        strides: pair(&node.get_attr_ints("strides"), (1, 1)),
        pads: if pads.len() == 4 {
            (pads[0] as usize, pads[1] as usize, pads[2] as usize, pads[3] as usize)
        } else {
            (0, 0, 0, 0)
        },
        dilations: pair(&node.get_attr_ints("dilations"), (1, 1)),
        group: node.get_attr_int("group", 1) as usize,
    }
}

/// The output dimensions of a convolution.
pub open spec fn conv_dims(x: Seq<usize>, c_out: usize, w: WindowView) -> Result<
    Seq<usize>,
    ErrorView,
> {
    if w.group == 0 {
        Err(ErrorView::Shape("group is zero"@))
    } else if x[1] % w.group != 0 || c_out % w.group != 0 {
        Err(
            ErrorView::Validation(
                "group "@ + dec(w.group as nat) + " must divide both c_in "@ + dec(x[1] as nat)
                    + " and c_out "@ + dec(c_out as nat),
            ),
        )
    } else {
        match (
            window_extent(x[2], w.pads.0, w.pads.2, w.kernel.0, w.strides.0),
            window_extent(x[3], w.pads.1, w.pads.3, w.kernel.1, w.strides.1),
        ) {
            (Some(h), Some(v)) => Ok(seq![x[0], c_out, h, v]),
            _ => Err(no_window()),
        }
    }
}

/// The output shape of a convolution: `[N, C_out, H_out, W_out]`.
pub open spec fn conv_shape(node: NodeView, ctx: ContextView) -> Result<ShapeView, ErrorView> {
    match found_shape(node, ctx, 0, "input "@) {
        Err(e) => Err(e),
        Ok(x) => if node.inputs.len() < 2 {
            Err(too_few_inputs())
        } else if !ctx.initializers.dom().contains(node.inputs[1]) {
            Err(ErrorView::Validation("weight "@ + node.inputs[1] + " must be constant"@))
        } else {
            let weight = ctx.initializers[node.inputs[1]].dims;
            if x.dims.len() != 4 {
                Err(ErrorView::Validation("Conv input must be 4D (NCHW)"@))
            } else if weight.len() != 4 {
                Err(ErrorView::Validation("Conv weight must be 4D (OIHW)"@))
            } else {
                match conv_dims(x.dims, weight[0] as usize, conv_window(node, weight)) {
                    Err(e) => Err(e),
                    Ok(d) => Ok(plain_shape(d, ctx.dtype)),
                }
            }
        },
    }
}

/// The compiled form of a convolution.
pub open spec fn conv_build(node: NodeView, ctx: ContextView) -> Result<
    (OpView, ContextView),
    ErrorView,
> {
    let w = conv_window(node, ctx.initializers[node.inputs[1]].dims);
    finished(
        node,
        ctx,
        conv_shape(node, ctx),
        "Conv"@,
        node.inputs,
        ParamsView::Conv2d {
            kernel_shape: seq![w.kernel.0, w.kernel.1],
            strides: seq![w.strides.0, w.strides.1],
            pads: seq![w.pads.0, w.pads.1, w.pads.2, w.pads.3],
            dilations: seq![w.dilations.0, w.dilations.1],
            group: w.group,
        },
    )
}

fn check_conv(node: &OnnxNode, ctx: &BuildContext<'_>) -> (r: Result<(TensorShape, Window), Error>)
    ensures
        match r {
            Ok((s, w)) => {
                &&& conv_shape(node@, ctx@) == Ok::<ShapeView, ErrorView>(s@)
                &&& w@ == conv_window(node@, ctx@.initializers[node@.inputs[1]].dims)
            },
            Err(e) => conv_shape(node@, ctx@) == Err::<ShapeView, ErrorView>(e@),
        },
{
    let x: &TensorShape = match find_shape(node, ctx, 0, "input ") {
        Ok(s) => s,
        Err(e) => {
            return Err(e);
        },
    };
    if node.inputs.len() < 2 {
        return Err(err_too_few_inputs());
    }
    assert(node@.inputs[1] == node.inputs@[1]@);
    let weight: &Vec<i64> = match ctx.get_initializer(node.inputs[1].as_str()) {
        Some(t) => &t.dims,
        None => {
            return Err(
                Error::Validation(concat3("weight ", node.inputs[1].as_str(), " must be constant")),
            );
        },
    };
    if x.dims.len() != 4 {
        return Err(invalid("Conv input must be 4D (NCHW)"));
    }
    if weight.len() != 4 {
        return Err(invalid("Conv weight must be 4D (OIHW)"));
    }
    let c_out: usize = weight[0] as usize;
    let w: Window = read_conv_window(node, weight);
    if w.group == 0 {
        return Err(Error::Shape("group is zero".to_owned()));
    }
    if x.dims[1] % w.group != 0 || c_out % w.group != 0 {
        let g: String = dec_usize(w.group);
        let i: String = dec_usize(x.dims[1]);
        let o: String = dec_usize(c_out);
        let mut m: String = concat4("group ", g.as_str(), " must divide both c_in ", i.as_str());
        m.append(" and c_out ");
        m.append(o.as_str());
        return Err(Error::Validation(m));
    }
    match (
        extent(x.dims[2], w.pads.0, w.pads.2, w.kernel.0, w.strides.0),
        extent(x.dims[3], w.pads.1, w.pads.3, w.kernel.1, w.strides.1),
    ) {
        (Some(h), Some(v)) => {
            let dims: Vec<usize> = vec![x.dims[0], c_out, h, v];
            assert(dims@ =~= seq![x.dims@[0], c_out, h, v]);
            Ok((TensorShape::new(dims, ctx.dtype), w))
        },
        _ => Err(Error::Shape("window does not fit".to_owned())),
    }
}

/// The output shape of a convolution.
pub fn validate_conv(node: &OnnxNode, ctx: &BuildContext<'_>) -> (r: Result<TensorShape, Error>)
    ensures
        outcome(r) == conv_shape(node@, ctx@),
{
    match check_conv(node, ctx) {
        Ok((s, _)) => Ok(s),
        Err(e) => Err(e),
    }
}

/// The compiled form of a convolution.
pub fn build_conv(node: &OnnxNode, ctx: &mut BuildContext<'_>) -> (r: Result<CompiledOp, Error>)
    ensures
        build_outcome(r, final(ctx)@) == conv_build(node@, old(ctx)@),
        r is Err ==> final(ctx)@ == old(ctx)@,
{
    let (shape, w): (TensorShape, Window) = match check_conv(node, ctx) {
        Ok(p) => p,
        Err(e) => {
            return Err(e);
        },
    };
    let params: OpParams = OpParams::Conv2d {
        kernel_shape: [w.kernel.0, w.kernel.1],
        strides: [w.strides.0, w.strides.1],
        pads: [w.pads.0, w.pads.1, w.pads.2, w.pads.3],
        dilations: [w.dilations.0, w.dilations.1],
        group: w.group,
    };
    proof {
        let p = params@;
        assert(p->Conv2d_kernel_shape =~= seq![w.kernel.0, w.kernel.1]);
        assert(p->Conv2d_strides =~= seq![w.strides.0, w.strides.1]);
        assert(p->Conv2d_pads =~= seq![w.pads.0, w.pads.1, w.pads.2, w.pads.3]);
        assert(p->Conv2d_dilations =~= seq![w.dilations.0, w.dilations.1]);
    }
    finish(node, ctx, shape, "Conv", copy_names(&node.inputs), params)
}

/// The window of a pooling op. The horizontal stride defaults to the vertical one.
pub open spec fn pool_window(node: NodeView) -> WindowView {
    let kernel = node.attr_ints("kernel_shape"@);
    let strides = node.attr_ints("strides"@);
    let pads = node.attr_ints("pads"@);
    WindowView {
        kernel: (size_at(kernel, 0, 0), size_at(kernel, 1, 0)),
        strides: (size_at(strides, 0, 1), size_at(strides, 1, size_at(strides, 0, 1))),
        pads: (size_at(pads, 0, 0), size_at(pads, 1, 0), size_at(pads, 2, 0), size_at(pads, 3, 0)),
        dilations: (1, 1),
        group: 1,
    }
}

fn read_pool_window(node: &OnnxNode) -> (r: Window)
    ensures
        r@ == pool_window(node@),
{
    let kernel: Vec<i64> = node.get_attr_ints("kernel_shape");
    let strides: Vec<i64> = node.get_attr_ints("strides");
    let pads: Vec<i64> = node.get_attr_ints("pads");
    let stride_h: usize = size_or(&strides, 0, 1);
    Window {
        kernel: (size_or(&kernel, 0, 0), size_or(&kernel, 1, 0)),
        strides: (stride_h, size_or(&strides, 1, stride_h)),
        pads: (size_or(&pads, 0, 0), size_or(&pads, 1, 0), size_or(&pads, 2, 0), size_or(&pads, 3, 0)),
        dilations: (1, 1),
        group: 1,
    }
}

/// The output shape of a pooling op over `[N, H, W, C]`; the leading pads
/// count on both sides.
pub open spec fn pool_shape(node: NodeView, ctx: ContextView, op_type: Seq<char>) -> Result<
    ShapeView,
    ErrorView,
> {
    let w = pool_window(node);
    match found_shape(node, ctx, 0, "input "@) {
        Err(e) => Err(e),
        Ok(x) => if x.dims.len() != 4 {
            Err(ErrorView::Validation(op_type + " input must be 4D"@))
        } else if node.attr_ints("kernel_shape"@).len() == 0 {
            Err(ErrorView::Validation(op_type + " requires kernel_shape"@))
        } else if node.attr_ints("kernel_shape"@).len() != 2 {
            Err(ErrorView::Validation("only 2D pooling supported"@))
        } else {
            match (
                window_extent(x.dims[1], w.pads.0, w.pads.0, w.kernel.0, w.strides.0),
                window_extent(x.dims[2], w.pads.1, w.pads.1, w.kernel.1, w.strides.1),
            ) {
                (Some(h), Some(v)) => Ok(plain_shape(seq![x.dims[0], h, v, x.dims[3]], ctx.dtype)),
                _ => Err(no_window()),
            }
        },
    }
}

/// The output shape of a pooling op.
pub fn validate_pool(node: &OnnxNode, ctx: &BuildContext<'_>, op_type: &str) -> (r: Result<
    TensorShape,
    Error,
>)
    ensures
        outcome(r) == pool_shape(node@, ctx@, op_type@),
{
    let x: &TensorShape = match find_shape(node, ctx, 0, "input ") {
        Ok(s) => s,
        Err(e) => {
            return Err(e);
        },
    };
    if x.dims.len() != 4 {
        return Err(Error::Validation(concat2(op_type, " input must be 4D")));
    }
    let kernel: Vec<i64> = node.get_attr_ints("kernel_shape");
    if kernel.len() == 0 {
        return Err(Error::Validation(concat2(op_type, " requires kernel_shape")));
    }
    if kernel.len() != 2 {
        return Err(invalid("only 2D pooling supported"));
    }
    let w: Window = read_pool_window(node);
    match (
        extent(x.dims[1], w.pads.0, w.pads.0, w.kernel.0, w.strides.0),
        extent(x.dims[2], w.pads.1, w.pads.1, w.kernel.1, w.strides.1),
    ) {
        (Some(h), Some(v)) => {
            let dims: Vec<usize> = vec![x.dims[0], h, v, x.dims[3]];
            assert(dims@ =~= seq![x.dims@[0], h, v, x.dims@[3]]);
            Ok(TensorShape::new(dims, ctx.dtype))
        },
        _ => Err(Error::Shape("window does not fit".to_owned())),
    }
}

/// The compiled form of a pooling op.
pub open spec fn pool_build(node: NodeView, ctx: ContextView, is_max: bool) -> Result<
    (OpView, ContextView),
    ErrorView,
> {
    let w = pool_window(node);
    let op_type = if is_max {
        "MaxPool"@
    } else {
        "AveragePool"@
    };
    let kernel_shape = seq![w.kernel.0, w.kernel.1];
    let strides = seq![w.strides.0, w.strides.1];
    let pads = seq![w.pads.0, w.pads.1, w.pads.2, w.pads.3];
    finished(
        node,
        ctx,
        pool_shape(node, ctx, op_type),
        op_type,
        node.inputs,
        if is_max {
            ParamsView::MaxPool { kernel_shape, strides, pads }
        } else {
            ParamsView::AvgPool { kernel_shape, strides, pads }
        },
    )
}

/// The compiled form of a pooling op.
pub fn build_pool(node: &OnnxNode, ctx: &mut BuildContext<'_>, is_max: bool) -> (r: Result<
    CompiledOp,
    Error,
>)
    ensures
        build_outcome(r, final(ctx)@) == pool_build(node@, old(ctx)@, is_max),
        r is Err ==> final(ctx)@ == old(ctx)@,
{
    let op_type: &str = if is_max {
        "MaxPool"
    } else {
        "AveragePool"
    };
    let shape: TensorShape = match validate_pool(node, ctx, op_type) {
        Ok(s) => s,
        Err(e) => {
            return Err(e);
        },
    };
    let w: Window = read_pool_window(node);
    let kernel_shape: [usize; 2] = [w.kernel.0, w.kernel.1];
    let strides: [usize; 2] = [w.strides.0, w.strides.1];
    let pads: [usize; 4] = [w.pads.0, w.pads.1, w.pads.2, w.pads.3];
    assert(kernel_shape@ =~= seq![w.kernel.0, w.kernel.1]);
    assert(strides@ =~= seq![w.strides.0, w.strides.1]);
    assert(pads@ =~= seq![w.pads.0, w.pads.1, w.pads.2, w.pads.3]);
    let params: OpParams = if is_max {
        OpParams::MaxPool { kernel_shape, strides, pads }
    } else {
        OpParams::AvgPool { kernel_shape, strides, pads }
    };
    finish(node, ctx, shape, op_type, copy_names(&node.inputs), params)
}

} // verus!
