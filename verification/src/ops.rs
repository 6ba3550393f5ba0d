//! Op builders: which ops are supported, the shape of what they compute, and
//! the compiled form they take.
//!
//! A node goes through three steps: [`OpBuilder::is_supported`] is a quick
//! check of its form, [`OpBuilder::validate`] computes the output shape, and
//! [`OpBuilder::build`] records that shape and gives the compiled op.

pub mod common;
pub mod fold;
pub mod index;
pub mod linear;
pub mod meaning;
pub mod reshape;
pub mod window;

use vstd::prelude::*;
use vstd::string::*;
use crate::builder::{
    BuildContext, CompiledOp, ContextView, OpParams, OpView, ParamsView, ReasonView,
    UnsupportedReason,
};
use crate::error::{outcome, Error, ErrorView};
use crate::ieee::{difference32, less32, lt32, sub32, ONE};
use crate::model::{NodeView, OnnxNode};
use crate::ops::common::{build_outcome, finished};
use crate::ops::fold::{
    build_concat, build_constant, build_gather, build_shape, concat_build, concat_shape,
    constant_build, constant_shape, gather_build, gather_shape, shape_build, shape_shape,
    validate_concat, validate_constant, validate_gather, validate_shape,
};
use crate::ops::index::{
    build_resize, build_slice, build_split, resize_build, resize_shape, slice_build, slice_shape,
    part_count, part_sizes, split_axis, split_build, split_shape, validate_resize, validate_slice, validate_split, with_parts,
};
use crate::ops::linear::{
    add_shape, build_add, build_clip, build_gemm, build_global_pool, build_matmul,
    build_passthrough, build_same, clip_build, gemm_params, gemm_shape, global_pool_shape,
    matmul_params, matmul_shape, passthrough_shape, same_shape, validate_add, validate_gemm,
    validate_global_pool, validate_matmul, validate_passthrough, validate_same,
};
use crate::ops::reshape::{
    build_flatten, build_reshape, build_transpose, build_unsqueeze, flatten_shape, reshape_shape,
    reshaping_build, transpose_build, transpose_shape, unsqueeze_build, unsqueeze_shape,
    validate_flatten, validate_reshape, validate_transpose, validate_unsqueeze,
};
use crate::ops::window::{
    build_conv, build_pool, conv_build, conv_shape, pool_build, pool_shape, validate_conv,
    validate_pool,
};
use crate::tensor::{ShapeView, TensorShape};
use crate::text::{concat4, dec_i64, dec_int, hex, hex_u64, list_i64, signed_text, str_eq};

verus! {

/// The builder of one op type.
#[derive(Debug, Clone, Copy, PartialEq, Eq, Structural)]
pub enum OpBuilder {
    Relu,
    Clip,
    Conv,
    Add,
    GlobalAveragePool,
    Gemm,
    MatMul,
    Softmax,
    Reshape,
    Flatten,
    Squeeze,
    Unsqueeze,
    Transpose,
    BatchNormalization,
    Pad,
    MaxPool,
    AveragePool,
    Shape,
    Gather,
    Concat,
    Constant,
    Sigmoid,
    Mul,
    Resize,
    Split,
    Slice,
    Sub,
    Div,
}

/// The op type that a builder handles.
pub open spec fn op_type_of(b: OpBuilder) -> Seq<char> {
    match b {
        OpBuilder::Relu => "Relu"@,
        OpBuilder::Clip => "Clip"@,
        OpBuilder::Conv => "Conv"@,
        OpBuilder::Add => "Add"@,
        OpBuilder::GlobalAveragePool => "GlobalAveragePool"@,
        OpBuilder::Gemm => "Gemm"@,
        OpBuilder::MatMul => "MatMul"@,
        OpBuilder::Softmax => "Softmax"@,
        OpBuilder::Reshape => "Reshape"@,
        OpBuilder::Flatten => "Flatten"@,
        OpBuilder::Squeeze => "Squeeze"@,
        OpBuilder::Unsqueeze => "Unsqueeze"@,
        OpBuilder::Transpose => "Transpose"@,
        OpBuilder::BatchNormalization => "BatchNormalization"@,
        OpBuilder::Pad => "Pad"@,
        OpBuilder::MaxPool => "MaxPool"@,
        OpBuilder::AveragePool => "AveragePool"@,
        OpBuilder::Shape => "Shape"@,
        OpBuilder::Gather => "Gather"@,
        OpBuilder::Concat => "Concat"@,
        OpBuilder::Constant => "Constant"@,
        OpBuilder::Sigmoid => "Sigmoid"@,
        OpBuilder::Mul => "Mul"@,
        OpBuilder::Resize => "Resize"@,
        OpBuilder::Split => "Split"@,
        OpBuilder::Slice => "Slice"@,
        OpBuilder::Sub => "Sub"@,
        OpBuilder::Div => "Div"@,
    }
}

/// The builder of an op type.
pub open spec fn builder_of(op_type: Seq<char>) -> Option<OpBuilder> {
    if op_type == "Relu"@ {
        Some(OpBuilder::Relu)
    } else if op_type == "Clip"@ {
        Some(OpBuilder::Clip)
    } else if op_type == "Conv"@ {
        Some(OpBuilder::Conv)
    } else if op_type == "Add"@ {
        Some(OpBuilder::Add)
    } else if op_type == "GlobalAveragePool"@ {
        Some(OpBuilder::GlobalAveragePool)
    } else if op_type == "Gemm"@ {
        Some(OpBuilder::Gemm)
    } else if op_type == "MatMul"@ {
        Some(OpBuilder::MatMul)
    } else if op_type == "Softmax"@ {
        Some(OpBuilder::Softmax)
    } else if op_type == "Reshape"@ {
        Some(OpBuilder::Reshape)
    } else if op_type == "Flatten"@ {
        Some(OpBuilder::Flatten)
    } else if op_type == "Squeeze"@ {
        Some(OpBuilder::Squeeze)
    } else if op_type == "Unsqueeze"@ {
        Some(OpBuilder::Unsqueeze)
    } else if op_type == "Transpose"@ {
        Some(OpBuilder::Transpose)
    } else if op_type == "BatchNormalization"@ {
        Some(OpBuilder::BatchNormalization)
    } else if op_type == "Pad"@ {
        Some(OpBuilder::Pad)
    } else if op_type == "MaxPool"@ {
        Some(OpBuilder::MaxPool)
    } else if op_type == "AveragePool"@ {
        Some(OpBuilder::AveragePool)
    } else if op_type == "Shape"@ {
        Some(OpBuilder::Shape)
    } else if op_type == "Gather"@ {
        Some(OpBuilder::Gather)
    } else if op_type == "Concat"@ {
        Some(OpBuilder::Concat)
    } else if op_type == "Constant"@ {
        Some(OpBuilder::Constant)
    } else if op_type == "Sigmoid"@ {
        Some(OpBuilder::Sigmoid)
    } else if op_type == "Mul"@ {
        Some(OpBuilder::Mul)
    } else if op_type == "Resize"@ {
        Some(OpBuilder::Resize)
    } else if op_type == "Split"@ {
        Some(OpBuilder::Split)
    } else if op_type == "Slice"@ {
        Some(OpBuilder::Slice)
    } else if op_type == "Sub"@ {
        Some(OpBuilder::Sub)
    } else if op_type == "Div"@ {
        Some(OpBuilder::Div)
    } else {
        None
    }
}

/// Get an op builder by op type; there is none for an unknown one.
pub fn get_builder(op_type: &str) -> (r: Option<OpBuilder>)
    ensures
        r == builder_of(op_type@),
{
    if str_eq(op_type, "Relu") {
        Some(OpBuilder::Relu)
    } else if str_eq(op_type, "Clip") {
        Some(OpBuilder::Clip)
    } else if str_eq(op_type, "Conv") {
        Some(OpBuilder::Conv)
    } else if str_eq(op_type, "Add") {
        Some(OpBuilder::Add)
    } else if str_eq(op_type, "GlobalAveragePool") {
        Some(OpBuilder::GlobalAveragePool)
    } else if str_eq(op_type, "Gemm") {
        Some(OpBuilder::Gemm)
    } else if str_eq(op_type, "MatMul") {
        Some(OpBuilder::MatMul)
    } else if str_eq(op_type, "Softmax") {
        Some(OpBuilder::Softmax)
    } else if str_eq(op_type, "Reshape") {
        Some(OpBuilder::Reshape)
    } else if str_eq(op_type, "Flatten") {
        Some(OpBuilder::Flatten)
    } else if str_eq(op_type, "Squeeze") {
        Some(OpBuilder::Squeeze)
    } else if str_eq(op_type, "Unsqueeze") {
        Some(OpBuilder::Unsqueeze)
    } else if str_eq(op_type, "Transpose") {
        Some(OpBuilder::Transpose)
    } else if str_eq(op_type, "BatchNormalization") {
        Some(OpBuilder::BatchNormalization)
    } else if str_eq(op_type, "Pad") {
        Some(OpBuilder::Pad)
    } else if str_eq(op_type, "MaxPool") {
        Some(OpBuilder::MaxPool)
    } else if str_eq(op_type, "AveragePool") {
        Some(OpBuilder::AveragePool)
    } else if str_eq(op_type, "Shape") {
        Some(OpBuilder::Shape)
    } else if str_eq(op_type, "Gather") {
        Some(OpBuilder::Gather)
    } else if str_eq(op_type, "Concat") {
        Some(OpBuilder::Concat)
    } else if str_eq(op_type, "Constant") {
        Some(OpBuilder::Constant)
    } else if str_eq(op_type, "Sigmoid") {
        Some(OpBuilder::Sigmoid)
    } else if str_eq(op_type, "Mul") {
        Some(OpBuilder::Mul)
    } else if str_eq(op_type, "Resize") {
        Some(OpBuilder::Resize)
    } else if str_eq(op_type, "Split") {
        Some(OpBuilder::Split)
    } else if str_eq(op_type, "Slice") {
        Some(OpBuilder::Slice)
    } else if str_eq(op_type, "Sub") {
        Some(OpBuilder::Sub)
    } else if str_eq(op_type, "Div") {
        Some(OpBuilder::Div)
    } else {
        None
    }
}

// ---------------------------------------------------------------------------
// Support
// ---------------------------------------------------------------------------

/// What is wrong with a number of inputs, if anything.
pub open spec fn count_outside(n: nat, least: nat, most: nat, expected: Seq<char>) -> Option<
    ReasonView,
> {
    if n < least || n > most {
        Some(ReasonView::UnsupportedInputCount { found: n as usize, expected })
    } else {
        None
    }
}

fn check_count(node: &OnnxNode, least: usize, most: usize, expected: &'static str) -> (r: Result<
    (),
    UnsupportedReason,
>)
    ensures
        reason_of(r) == count_outside(node@.inputs.len(), least as nat, most as nat, expected@),
{
    let n: usize = node.inputs.len();
    if n < least || n > most {
        Err(UnsupportedReason::UnsupportedInputCount { found: n, expected })
    } else {
        Ok(())
    }
}

/// The reason that a check gave, if it failed.
pub open spec fn reason_of(r: Result<(), UnsupportedReason>) -> Option<ReasonView> {
    match r {
        Ok(_) => None,
        Err(e) => Some(e@),
    }
}

/// An attribute that has a value other than the supported one.
pub open spec fn bad_attribute(name: Seq<char>, value: Seq<char>, reason: Seq<char>) -> Option<
    ReasonView,
> {
    Some(ReasonView::UnsupportedAttribute { name, value, reason })
}

fn err_attribute(name: &str, value: String, reason: &str) -> (r: Result<(), UnsupportedReason>)
    ensures
        reason_of(r) == bad_attribute(name@, value@, reason@),
{
    Err(
        UnsupportedReason::UnsupportedAttribute {
            name: name.to_owned(),
            value,
            reason: reason.to_owned(),
        },
    )
}

/// Whether a bound of a Clip is named and not an initializer.
pub open spec fn bound_not_constant(node: NodeView, ctx: ContextView, i: int) -> bool {
    node.inputs.len() > i && node.inputs[i].len() != 0 && !ctx.initializers.dom().contains(
        node.inputs[i],
    )
}

fn is_bound_not_constant(node: &OnnxNode, ctx: &BuildContext<'_>, i: usize) -> (r: bool)
    ensures
        r == bound_not_constant(node@, ctx@, i as int),
{
    if node.inputs.len() > i {
        assert(node@.inputs[i as int] == node.inputs@[i as int]@);
        node.inputs[i].as_str().unicode_len() != 0 && !ctx.is_initializer(node.inputs[i].as_str())
    } else {
        false
    }
}

/// Bits of the largest distance from 1 that counts as 1.
pub const NEAR: u32 = 0x3586_37bd;

/// Whether a single is not within the tolerance of 1.
pub open spec fn differs_from_one(a: u32) -> bool {
    less32(NEAR, difference32(a, ONE) & 0x7fff_ffff)
}

fn is_not_one(a: u32) -> (r: bool)
    ensures
        r == differs_from_one(a),
{
    lt32(NEAR, sub32(a, ONE) & 0x7fff_ffff)
}

/// The factors of a Gemm as shown in a reason: the bits of both.
pub open spec fn factors_text(alpha: u32, beta: u32) -> Seq<char> {
    "alpha=0x"@ + hex(alpha as nat, 8) + ", beta=0x"@ + hex(beta as nat, 8)
}

/// Whether an axis is the last one of a tensor: -1 is, another only where the shape is known.
pub open spec fn is_last_axis(axis: i64, name: Seq<char>, ctx: ContextView) -> bool {
    axis == -1 || (ctx.shapes.dom().contains(name) && axis + 1 == ctx.shapes[name].dims.len())
}

fn check_last_axis(axis: i64, name: &str, ctx: &BuildContext<'_>) -> (r: bool)
    ensures
        r == is_last_axis(axis, name@, ctx@),
{
    if axis == -1 {
        return true;
    }
    match ctx.get_shape(name) {
        Some(shape) => axis >= 0 && axis as u64 as u128 + 1 == shape.dims.len() as u128,
        None => false,
    }
}

/// Why a node is not supported, if it is not.
pub open spec fn unsupported(b: OpBuilder, node: NodeView, ctx: ContextView) -> Option<ReasonView> {
    let n = node.inputs.len();
    match b {
        OpBuilder::Relu | OpBuilder::GlobalAveragePool | OpBuilder::Flatten | OpBuilder::Transpose
        | OpBuilder::Shape | OpBuilder::Sigmoid => count_outside(n, 1, 1, "1"@),
        OpBuilder::Softmax => match count_outside(n, 1, 1, "1"@) {
            Some(r) => Some(r),
            None => if !is_last_axis(node.attr_int("axis"@, -1i64), node.inputs[0], ctx) {
                bad_attribute(
                    "axis"@,
                    dec_int(node.attr_int("axis"@, -1i64) as int),
                    "only the last axis supported"@,
                )
            } else {
                None
            },
        },
        OpBuilder::Add | OpBuilder::MatMul | OpBuilder::Gather | OpBuilder::Mul | OpBuilder::Sub
        | OpBuilder::Div => count_outside(n, 2, 2, "2"@),
        OpBuilder::Squeeze | OpBuilder::BatchNormalization | OpBuilder::Pad
        | OpBuilder::Constant => None,
        OpBuilder::Unsqueeze => count_outside(n, 1, n, "1 or 2"@),
        OpBuilder::Concat => count_outside(n, 1, n, ">=1"@),
        OpBuilder::Split => count_outside(n, 1, 2, "1-2"@),
        OpBuilder::Slice => count_outside(n, 3, 5, "3-5"@),
        OpBuilder::Clip => match count_outside(n, 1, 3, "1-3"@) {
            Some(r) => Some(r),
            None => if bound_not_constant(node, ctx, 1) {
                Some(ReasonView::Other("Clip min input must be constant"@))
            } else if bound_not_constant(node, ctx, 2) {
                Some(ReasonView::Other("Clip max input must be constant"@))
            } else {
                None
            },
        },
        OpBuilder::Conv => match count_outside(n, 2, 3, "2-3"@) {
            Some(r) => Some(r),
            None => {
                let dilations = node.attr_ints("dilations"@);
                if exists|i: int| 0 <= i < dilations.len() && #[trigger] dilations[i] != 1 {
                    bad_attribute(
                        "dilations"@,
                        signed_text(dilations),
                        "only dilation=1 supported"@,
                    )
                } else {
                    None
                }
            },
        },
        OpBuilder::MaxPool | OpBuilder::AveragePool => match count_outside(n, 1, 1, "1"@) {
            Some(r) => Some(r),
            None => if node.attr_int("ceil_mode"@, 0) != 0 {
                bad_attribute(
                    "ceil_mode"@,
                    dec_int(node.attr_int("ceil_mode"@, 0) as int),
                    "only ceil_mode=0 supported"@,
                )
            } else {
                None
            },
        },
        OpBuilder::Gemm => match count_outside(n, 2, 3, "2-3"@) {
            Some(r) => Some(r),
            None => {
                let alpha = node.attr_float("alpha"@, ONE);
                let beta = node.attr_float("beta"@, ONE);
                if differs_from_one(alpha) || differs_from_one(beta) {
                    bad_attribute(
                        "alpha/beta"@,
                        factors_text(alpha, beta),
                        "only alpha=1, beta=1 supported"@,
                    )
                } else {
                    None
                }
            },
        },
        OpBuilder::Reshape => match count_outside(n, 2, 2, "2"@) {
            Some(r) => Some(r),
            None => if !ctx.is_constant(node.inputs[1]) {
                Some(ReasonView::Other("Reshape shape must be constant"@))
            } else {
                None
            },
        },
        OpBuilder::Resize => match count_outside(n, 1, 4, "1-4"@) {
            Some(r) => Some(r),
            None => {
                let mode = node.attr_string("mode"@, "nearest"@);
                if mode != "nearest"@ && mode != "linear"@ {
                    bad_attribute(
                        "mode"@,
                        mode,
                        "only 'nearest' and 'linear' modes supported"@,
                    )
                } else {
                    None
                }
            },
        },
    }
}

/// The first entry other than 1 decides.
fn any_not_one(v: &Vec<i64>) -> (r: bool)
    ensures
        r == exists|i: int| 0 <= i < v@.len() && #[trigger] v@[i] != 1,
{
    let mut i: usize = 0;
    while i < v.len()
        invariant
            i <= v@.len(),
            forall|k: int| 0 <= k < i ==> #[trigger] v@[k] == 1,
        decreases v@.len() - i,
    {
        if v[i] != 1 {
            assert(v@[i as int] != 1);
            return true;
        }
        i = i + 1;
    }
    false
}

// ---------------------------------------------------------------------------
// Shapes and compiled forms
// ---------------------------------------------------------------------------

/// The shape of a node's (first) output.
pub open spec fn output_shape(b: OpBuilder, node: NodeView, ctx: ContextView) -> Result<
    ShapeView,
    ErrorView,
> {
    match b {
        OpBuilder::Relu => same_shape(node, ctx),
        OpBuilder::Clip => same_shape(node, ctx),
        OpBuilder::Conv => conv_shape(node, ctx),
        OpBuilder::Add => add_shape(node, ctx),
        OpBuilder::GlobalAveragePool => global_pool_shape(node, ctx),
        OpBuilder::Gemm => gemm_shape(node, ctx),
        OpBuilder::MatMul => matmul_shape(node, ctx),
        OpBuilder::Softmax => same_shape(node, ctx),
        OpBuilder::Reshape => reshape_shape(node, ctx),
        OpBuilder::Flatten => flatten_shape(node, ctx),
        OpBuilder::Squeeze => passthrough_shape(node, ctx, "Squeeze"@),
        OpBuilder::Unsqueeze => unsqueeze_shape(node, ctx),
        OpBuilder::Transpose => transpose_shape(node, ctx),
        OpBuilder::BatchNormalization => passthrough_shape(node, ctx, "BatchNormalization"@),
        OpBuilder::Pad => passthrough_shape(node, ctx, "Pad"@),
        OpBuilder::MaxPool => pool_shape(node, ctx, "MaxPool"@),
        OpBuilder::AveragePool => pool_shape(node, ctx, "AveragePool"@),
        OpBuilder::Shape => shape_shape(node, ctx),
        OpBuilder::Gather => gather_shape(node, ctx),
        OpBuilder::Concat => concat_shape(node, ctx),
        OpBuilder::Constant => constant_shape(node),
        OpBuilder::Sigmoid => same_shape(node, ctx),
        OpBuilder::Mul => same_shape(node, ctx),
        OpBuilder::Resize => resize_shape(node, ctx),
        OpBuilder::Split => split_shape(node, ctx),
        OpBuilder::Slice => slice_shape(node, ctx),
        OpBuilder::Sub => same_shape(node, ctx),
        OpBuilder::Div => same_shape(node, ctx),
    }
}

/// The compiled form of a node and the context that building it leaves.
pub open spec fn built(b: OpBuilder, node: NodeView, ctx: ContextView) -> Result<
    (OpView, ContextView),
    ErrorView,
> {
    match b {
        OpBuilder::Relu => finished(
            node,
            ctx,
            same_shape(node, ctx),
            "Relu"@,
            node.inputs,
            ParamsView::Empty,
        ),
        OpBuilder::Clip => clip_build(node, ctx),
        OpBuilder::Conv => conv_build(node, ctx),
        OpBuilder::Add => finished(
            node,
            ctx,
            add_shape(node, ctx),
            "Add"@,
            node.inputs,
            ParamsView::Add,
        ),
        OpBuilder::GlobalAveragePool => finished(
            node,
            ctx,
            global_pool_shape(node, ctx),
            "GlobalAveragePool"@,
            node.inputs,
            ParamsView::GlobalAvgPool,
        ),
        OpBuilder::Gemm => finished(
            node,
            ctx,
            gemm_shape(node, ctx),
            "Gemm"@,
            node.inputs,
            gemm_params(node),
        ),
        OpBuilder::MatMul => finished(
            node,
            ctx,
            matmul_shape(node, ctx),
            "MatMul"@,
            node.inputs,
            matmul_params(),
        ),
        OpBuilder::Softmax => finished(
            node,
            ctx,
            same_shape(node, ctx),
            "Softmax"@,
            node.inputs,
            ParamsView::Softmax { axis: node.attr_int("axis"@, (-1) as i64) },
        ),
        OpBuilder::Reshape => reshaping_build(node, ctx, reshape_shape(node, ctx), "Reshape"@, seq![node.inputs[0]]),
        OpBuilder::Flatten => reshaping_build(node, ctx, flatten_shape(node, ctx), "Flatten"@, node.inputs),
        OpBuilder::Squeeze => finished(
            node,
            ctx,
            passthrough_shape(node, ctx, "Squeeze"@),
            "Squeeze"@,
            node.inputs,
            ParamsView::Empty,
        ),
        OpBuilder::Unsqueeze => unsqueeze_build(node, ctx),
        OpBuilder::Transpose => transpose_build(node, ctx),
        OpBuilder::BatchNormalization => finished(
            node,
            ctx,
            passthrough_shape(node, ctx, "BatchNormalization"@),
            "BatchNormalization"@,
            node.inputs,
            ParamsView::Empty,
        ),
        OpBuilder::Pad => finished(
            node,
            ctx,
            passthrough_shape(node, ctx, "Pad"@),
            "Pad"@,
            node.inputs,
            ParamsView::Empty,
        ),
        OpBuilder::MaxPool => pool_build(node, ctx, true),
        OpBuilder::AveragePool => pool_build(node, ctx, false),
        OpBuilder::Shape => shape_build(node, ctx),
        OpBuilder::Gather => gather_build(node, ctx),
        OpBuilder::Concat => concat_build(node, ctx),
        OpBuilder::Constant => constant_build(node, ctx),
        OpBuilder::Sigmoid => finished(
            node,
            ctx,
            same_shape(node, ctx),
            "Sigmoid"@,
            node.inputs,
            ParamsView::Sigmoid,
        ),
        OpBuilder::Mul => finished(
            node,
            ctx,
            same_shape(node, ctx),
            "Mul"@,
            node.inputs,
            ParamsView::Mul,
        ),
        OpBuilder::Resize => resize_build(node, ctx),
        OpBuilder::Split => split_build(node, ctx),
        OpBuilder::Slice => slice_build(node, ctx),
        OpBuilder::Sub => finished(
            node,
            ctx,
            same_shape(node, ctx),
            "Sub"@,
            node.inputs,
            ParamsView::Sub,
        ),
        OpBuilder::Div => finished(
            node,
            ctx,
            same_shape(node, ctx),
            "Div"@,
            node.inputs,
            ParamsView::Div,
        ),
    }
}

impl OpBuilder {
    /// The op type this builder handles (e.g., "Conv", "Relu").
    pub fn op_type(&self) -> (r: &'static str)
        ensures
            r@ == op_type_of(*self),
    {
        match self {
            OpBuilder::Relu => "Relu",
            OpBuilder::Clip => "Clip",
            OpBuilder::Conv => "Conv",
            OpBuilder::Add => "Add",
            OpBuilder::GlobalAveragePool => "GlobalAveragePool",
            OpBuilder::Gemm => "Gemm",
            OpBuilder::MatMul => "MatMul",
            OpBuilder::Softmax => "Softmax",
            OpBuilder::Reshape => "Reshape",
            OpBuilder::Flatten => "Flatten",
            OpBuilder::Squeeze => "Squeeze",
            OpBuilder::Unsqueeze => "Unsqueeze",
            OpBuilder::Transpose => "Transpose",
            OpBuilder::BatchNormalization => "BatchNormalization",
            OpBuilder::Pad => "Pad",
            OpBuilder::MaxPool => "MaxPool",
            OpBuilder::AveragePool => "AveragePool",
            OpBuilder::Shape => "Shape",
            OpBuilder::Gather => "Gather",
            OpBuilder::Concat => "Concat",
            OpBuilder::Constant => "Constant",
            OpBuilder::Sigmoid => "Sigmoid",
            OpBuilder::Mul => "Mul",
            OpBuilder::Resize => "Resize",
            OpBuilder::Split => "Split",
            OpBuilder::Slice => "Slice",
            OpBuilder::Sub => "Sub",
            OpBuilder::Div => "Div",
        }
    }

    /// Quick check if this op configuration is supported.
    pub fn is_supported(&self, node: &OnnxNode, ctx: &BuildContext<'_>) -> (r: Result<
        (),
        UnsupportedReason,
    >)
        ensures
            reason_of(r) == unsupported(*self, node@, ctx@),
    {
        let n: usize = node.inputs.len();
        match self {
            OpBuilder::Relu | OpBuilder::GlobalAveragePool | OpBuilder::Flatten
            | OpBuilder::Transpose | OpBuilder::Shape | OpBuilder::Sigmoid => check_count(
                node,
                1,
                1,
                "1",
            ),
            OpBuilder::Softmax => {
                match check_count(node, 1, 1, "1") {
                    Err(e) => {
                        return Err(e);
                    },
                    Ok(_) => {},
                }
                let axis: i64 = node.get_attr_int("axis", -1);
                assert(node@.inputs[0] == node.inputs@[0]@);
                if !check_last_axis(axis, node.inputs[0].as_str(), ctx) {
                    return err_attribute("axis", dec_i64(axis), "only the last axis supported");
                }
                Ok(())
            },
            OpBuilder::Add | OpBuilder::MatMul | OpBuilder::Gather | OpBuilder::Mul
            | OpBuilder::Sub | OpBuilder::Div => check_count(node, 2, 2, "2"),
            OpBuilder::Squeeze | OpBuilder::BatchNormalization | OpBuilder::Pad
            | OpBuilder::Constant => Ok(()),
            OpBuilder::Unsqueeze => check_count(node, 1, n, "1 or 2"),
            OpBuilder::Concat => check_count(node, 1, n, ">=1"),
            OpBuilder::Split => check_count(node, 1, 2, "1-2"),
            OpBuilder::Slice => check_count(node, 3, 5, "3-5"),
            OpBuilder::Clip => {
                match check_count(node, 1, 3, "1-3") {
                    Err(e) => {
                        return Err(e);
                    },
                    Ok(_) => {},
                }
                if is_bound_not_constant(node, ctx, 1) {
                    return Err(
                        UnsupportedReason::Other("Clip min input must be constant".to_owned()),
                    );
                }
                if is_bound_not_constant(node, ctx, 2) {
                    return Err(
                        UnsupportedReason::Other("Clip max input must be constant".to_owned()),
                    );
                }
                Ok(())
            },
            OpBuilder::Conv => {
                match check_count(node, 2, 3, "2-3") {
                    Err(e) => {
                        return Err(e);
                    },
                    Ok(_) => {},
                }
                let dilations: Vec<i64> = node.get_attr_ints("dilations");
                if any_not_one(&dilations) {
                    return err_attribute(
                        "dilations",
                        list_i64(&dilations),
                        "only dilation=1 supported",
                    );
                }
                Ok(())
            },
            OpBuilder::MaxPool | OpBuilder::AveragePool => {
                match check_count(node, 1, 1, "1") {
                    Err(e) => {
                        return Err(e);
                    },
                    Ok(_) => {},
                }
                let mode: i64 = node.get_attr_int("ceil_mode", 0);
                if mode != 0 {
                    return err_attribute("ceil_mode", dec_i64(mode), "only ceil_mode=0 supported");
                }
                Ok(())
            },
            OpBuilder::Gemm => {
                match check_count(node, 2, 3, "2-3") {
                    Err(e) => {
                        return Err(e);
                    },
                    Ok(_) => {},
                }
                let alpha: u32 = node.get_attr_float("alpha", ONE);
                let beta: u32 = node.get_attr_float("beta", ONE);
                if is_not_one(alpha) || is_not_one(beta) {
                    let a: String = hex_u64(alpha as u64, 8);
                    let b: String = hex_u64(beta as u64, 8);
                    return err_attribute(
                        "alpha/beta",
                        concat4("alpha=0x", a.as_str(), ", beta=0x", b.as_str()),
                        "only alpha=1, beta=1 supported",
                    );
                }
                Ok(())
            },
            OpBuilder::Reshape => {
                match check_count(node, 2, 2, "2") {
                    Err(e) => {
                        return Err(e);
                    },
                    Ok(_) => {},
                }
                assert(node@.inputs[1] == node.inputs@[1]@);
                if !ctx.is_constant(node.inputs[1].as_str()) {
                    return Err(
                        UnsupportedReason::Other("Reshape shape must be constant".to_owned()),
                    );
                }
                Ok(())
            },
            OpBuilder::Resize => {
                match check_count(node, 1, 4, "1-4") {
                    Err(e) => {
                        return Err(e);
                    },
                    Ok(_) => {},
                }
                let mode: String = node.get_attr_string("mode", "nearest");
                if !str_eq(mode.as_str(), "nearest") && !str_eq(mode.as_str(), "linear") {
                    return err_attribute(
                        "mode",
                        mode,
                        "only 'nearest' and 'linear' modes supported",
                    );
                }
                Ok(())
            },
        }
    }

    /// Full validation: check all inputs exist, compute output shape.
    pub fn validate(&self, node: &OnnxNode, ctx: &BuildContext<'_>) -> (r: Result<TensorShape, Error>)
        ensures
            outcome(r) == output_shape(*self, node@, ctx@),
    {
        match self {
            OpBuilder::Relu => validate_same(node, ctx),
            OpBuilder::Clip => validate_same(node, ctx),
            OpBuilder::Conv => validate_conv(node, ctx),
            OpBuilder::Add => validate_add(node, ctx),
            OpBuilder::GlobalAveragePool => validate_global_pool(node, ctx),
            OpBuilder::Gemm => validate_gemm(node, ctx),
            OpBuilder::MatMul => validate_matmul(node, ctx),
            OpBuilder::Softmax => validate_same(node, ctx),
            OpBuilder::Reshape => validate_reshape(node, ctx),
            OpBuilder::Flatten => validate_flatten(node, ctx),
            OpBuilder::Squeeze => validate_passthrough(node, ctx, "Squeeze"),
            OpBuilder::Unsqueeze => validate_unsqueeze(node, ctx),
            OpBuilder::Transpose => validate_transpose(node, ctx),
            OpBuilder::BatchNormalization => validate_passthrough(node, ctx, "BatchNormalization"),
            OpBuilder::Pad => validate_passthrough(node, ctx, "Pad"),
            OpBuilder::MaxPool => validate_pool(node, ctx, "MaxPool"),
            OpBuilder::AveragePool => validate_pool(node, ctx, "AveragePool"),
            OpBuilder::Shape => validate_shape(node, ctx),
            OpBuilder::Gather => validate_gather(node, ctx),
            OpBuilder::Concat => validate_concat(node, ctx),
            OpBuilder::Constant => validate_constant(node),
            OpBuilder::Sigmoid => validate_same(node, ctx),
            OpBuilder::Mul => validate_same(node, ctx),
            OpBuilder::Resize => validate_resize(node, ctx),
            OpBuilder::Split => validate_split(node, ctx),
            OpBuilder::Slice => validate_slice(node, ctx),
            OpBuilder::Sub => validate_same(node, ctx),
            OpBuilder::Div => validate_same(node, ctx),
        }
    }

    /// Build the compiled op and record what it computes.
    pub fn build(&self, node: &OnnxNode, ctx: &mut BuildContext<'_>) -> (r: Result<CompiledOp, Error>)
        ensures
            build_outcome(r, final(ctx)@) == built(*self, node@, old(ctx)@),
            r is Err ==> final(ctx)@ == old(ctx)@,
    {
        match self {
            OpBuilder::Relu => build_same(node, ctx, "Relu", OpParams::Empty),
            OpBuilder::Clip => build_clip(node, ctx),
            OpBuilder::Conv => build_conv(node, ctx),
            OpBuilder::Add => build_add(node, ctx),
            OpBuilder::GlobalAveragePool => build_global_pool(node, ctx),
            OpBuilder::Gemm => build_gemm(node, ctx),
            OpBuilder::MatMul => build_matmul(node, ctx),
            OpBuilder::Softmax => build_same(node, ctx, "Softmax", OpParams::Softmax { axis: node.get_attr_int("axis", -1) }),
            OpBuilder::Reshape => build_reshape(node, ctx),
            OpBuilder::Flatten => build_flatten(node, ctx),
            OpBuilder::Squeeze => build_passthrough(node, ctx, "Squeeze"),
            OpBuilder::Unsqueeze => build_unsqueeze(node, ctx),
            OpBuilder::Transpose => build_transpose(node, ctx),
            OpBuilder::BatchNormalization => build_passthrough(node, ctx, "BatchNormalization"),
            OpBuilder::Pad => build_passthrough(node, ctx, "Pad"),
            OpBuilder::MaxPool => build_pool(node, ctx, true),
            OpBuilder::AveragePool => build_pool(node, ctx, false),
            OpBuilder::Shape => build_shape(node, ctx),
            OpBuilder::Gather => build_gather(node, ctx),
            OpBuilder::Concat => build_concat(node, ctx),
            OpBuilder::Constant => build_constant(node, ctx),
            OpBuilder::Sigmoid => build_same(node, ctx, "Sigmoid", OpParams::Sigmoid),
            OpBuilder::Mul => build_same(node, ctx, "Mul", OpParams::Mul),
            OpBuilder::Resize => build_resize(node, ctx),
            OpBuilder::Split => build_split(node, ctx),
            OpBuilder::Slice => build_slice(node, ctx),
            OpBuilder::Sub => build_same(node, ctx, "Sub", OpParams::Sub),
            OpBuilder::Div => build_same(node, ctx, "Div", OpParams::Div),
        }
    }
}

/// Every builder is found under the op type that it handles, and under no other.
pub proof fn law_builders_by_op_type(b: OpBuilder, op_type: Seq<char>)
    ensures
        builder_of(op_type) == Some(b) <==> op_type == op_type_of(b),
{
    reveal_strlit("Relu");
    reveal_strlit("Clip");
    reveal_strlit("Conv");
    reveal_strlit("Add");
    reveal_strlit("GlobalAveragePool");
    reveal_strlit("Gemm");
    reveal_strlit("MatMul");
    reveal_strlit("Softmax");
    reveal_strlit("Reshape");
    reveal_strlit("Flatten");
    reveal_strlit("Squeeze");
    reveal_strlit("Unsqueeze");
    reveal_strlit("Transpose");
    reveal_strlit("BatchNormalization");
    reveal_strlit("Pad");
    reveal_strlit("MaxPool");
    reveal_strlit("AveragePool");
    reveal_strlit("Shape");
    reveal_strlit("Gather");
    reveal_strlit("Concat");
    reveal_strlit("Constant");
    reveal_strlit("Sigmoid");
    reveal_strlit("Mul");
    reveal_strlit("Resize");
    reveal_strlit("Split");
    reveal_strlit("Slice");
    reveal_strlit("Sub");
    reveal_strlit("Div");
    assert("Relu"@.len() == 4 && "Relu"@[0] == 'R' && "Relu"@[1] == 'e');
    assert("Clip"@.len() == 4 && "Clip"@[0] == 'C' && "Clip"@[1] == 'l');
    assert("Conv"@.len() == 4 && "Conv"@[0] == 'C' && "Conv"@[1] == 'o');
    assert("Add"@.len() == 3 && "Add"@[0] == 'A' && "Add"@[1] == 'd');
    assert("GlobalAveragePool"@.len() == 17 && "GlobalAveragePool"@[0] == 'G' && "GlobalAveragePool"@[1] == 'l');
    assert("Gemm"@.len() == 4 && "Gemm"@[0] == 'G' && "Gemm"@[1] == 'e');
    assert("MatMul"@.len() == 6 && "MatMul"@[0] == 'M' && "MatMul"@[1] == 'a');
    assert("Softmax"@.len() == 7 && "Softmax"@[0] == 'S' && "Softmax"@[1] == 'o');
    assert("Reshape"@.len() == 7 && "Reshape"@[0] == 'R' && "Reshape"@[1] == 'e');
    assert("Flatten"@.len() == 7 && "Flatten"@[0] == 'F' && "Flatten"@[1] == 'l');
    assert("Squeeze"@.len() == 7 && "Squeeze"@[0] == 'S' && "Squeeze"@[1] == 'q');
    assert("Unsqueeze"@.len() == 9 && "Unsqueeze"@[0] == 'U' && "Unsqueeze"@[1] == 'n');
    assert("Transpose"@.len() == 9 && "Transpose"@[0] == 'T' && "Transpose"@[1] == 'r');
    assert("BatchNormalization"@.len() == 18 && "BatchNormalization"@[0] == 'B' && "BatchNormalization"@[1] == 'a');
    assert("Pad"@.len() == 3 && "Pad"@[0] == 'P' && "Pad"@[1] == 'a');
    assert("MaxPool"@.len() == 7 && "MaxPool"@[0] == 'M' && "MaxPool"@[1] == 'a');
    assert("AveragePool"@.len() == 11 && "AveragePool"@[0] == 'A' && "AveragePool"@[1] == 'v');
    assert("Shape"@.len() == 5 && "Shape"@[0] == 'S' && "Shape"@[1] == 'h');
    assert("Gather"@.len() == 6 && "Gather"@[0] == 'G' && "Gather"@[1] == 'a');
    assert("Concat"@.len() == 6 && "Concat"@[0] == 'C' && "Concat"@[1] == 'o');
    assert("Constant"@.len() == 8 && "Constant"@[0] == 'C' && "Constant"@[1] == 'o');
    assert("Sigmoid"@.len() == 7 && "Sigmoid"@[0] == 'S' && "Sigmoid"@[1] == 'i');
    assert("Mul"@.len() == 3 && "Mul"@[0] == 'M' && "Mul"@[1] == 'u');
    assert("Resize"@.len() == 6 && "Resize"@[0] == 'R' && "Resize"@[1] == 'e');
    assert("Split"@.len() == 5 && "Split"@[0] == 'S' && "Split"@[1] == 'p');
    assert("Slice"@.len() == 5 && "Slice"@[0] == 'S' && "Slice"@[1] == 'l');
    assert("Sub"@.len() == 3 && "Sub"@[0] == 'S' && "Sub"@[1] == 'u');
    assert("Div"@.len() == 3 && "Div"@[0] == 'D' && "Div"@[1] == 'i');
}

/// A compiled op keeps the node's name and outputs and has the builder's op type.
/// Building never touches the initializers or the element type of the graph.
#[verifier::rlimit(60)]
pub proof fn law_build_keeps_identity(b: OpBuilder, node: NodeView, ctx: ContextView)
    requires
        built(b, node, ctx) is Ok,
    ensures
        built(b, node, ctx)->Ok_0.0.name == node.name,
        built(b, node, ctx)->Ok_0.0.op_type == op_type_of(b),
        built(b, node, ctx)->Ok_0.0.outputs == node.outputs,
        built(b, node, ctx)->Ok_0.1.initializers == ctx.initializers,
        built(b, node, ctx)->Ok_0.1.dtype == ctx.dtype,
{
    match b {
        OpBuilder::Split => {
            lemma_parts_keep(node, ctx);
        },
        OpBuilder::Gather => {},
        OpBuilder::Concat => {},
        OpBuilder::Unsqueeze => {},
        _ => {},
    }
}

proof fn lemma_parts_keep(node: NodeView, ctx: ContextView)
    requires
        split_build(node, ctx) is Ok,
    ensures
        split_build(node, ctx)->Ok_0.1.initializers == ctx.initializers,
        split_build(node, ctx)->Ok_0.1.dtype == ctx.dtype,
{
    let x = ctx.shapes[node.inputs[0]];
    let axis = split_axis(node, ctx);
    let parts = part_sizes(node, ctx, x.dims, axis)->Ok_0;
    lemma_with_parts(ctx, node.outputs, x, axis, parts, part_count(node.outputs.len(), parts.len()));
}

proof fn lemma_with_parts(
    ctx: ContextView,
    outputs: Seq<Seq<char>>,
    x: ShapeView,
    axis: usize,
    parts: Seq<usize>,
    n: nat,
)
    ensures
        with_parts(ctx, outputs, x, axis, parts, n).initializers == ctx.initializers,
        with_parts(ctx, outputs, x, axis, parts, n).dtype == ctx.dtype,
    decreases n,
{
    if n > 0 {
        lemma_with_parts(ctx, outputs, x, axis, parts, (n - 1) as nat);
    }
}

/// After a build the shape on record for the first output is the one that
/// validation gives. Split is left out: two of its outputs may bear one name,
/// and the later part then goes on record.
pub proof fn law_build_records_shape(b: OpBuilder, node: NodeView, ctx: ContextView)
    requires
        b != OpBuilder::Split,
        built(b, node, ctx) is Ok,
    ensures
        node.outputs.len() > 0,
        output_shape(b, node, ctx) == Ok::<ShapeView, ErrorView>(
            built(b, node, ctx)->Ok_0.1.shapes[node.outputs[0]],
        ),
{
}

} // verus!
