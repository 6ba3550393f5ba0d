//! Elementwise ops, matrix products and global pooling.

use vstd::prelude::*;
use vstd::string::*;
use crate::ieee::ONE;
use crate::builder::{BuildContext, CompiledOp, ContextView, OpParams, OpView, ParamsView};
use crate::error::{outcome, Error, ErrorView};
use crate::model::{copy_names, DataType, NodeView, OnnxNode, TensorView};
use crate::ops::common::{
    build_outcome, err_too_few_inputs, find_operand, find_shape, finish, finished, first_input,
    found_shape, invalid, operand_shape, too_few_inputs,
};
use crate::proto::words32;
use crate::tensor::{plain_shape, ShapeView, TensorShape};
use crate::text::{concat2, concat4, dec, dec_usize, list_usize, sizes_text};

verus! {

// ---------------------------------------------------------------------------
// Ops whose output has the shape of the first input
// ---------------------------------------------------------------------------

/// The output shape of an op that keeps the shape of its first input.
pub open spec fn same_shape(node: NodeView, ctx: ContextView) -> Result<ShapeView, ErrorView> {
    found_shape(node, ctx, 0, "input "@)
}

/// The output shape of an op that keeps the shape of its first input.
pub fn validate_same(node: &OnnxNode, ctx: &BuildContext<'_>) -> (r: Result<TensorShape, Error>)
    ensures
        outcome(r) == same_shape(node@, ctx@),
{
    match find_shape(node, ctx, 0, "input ") {
        Ok(s) => Ok(s.clone()),
        Err(e) => Err(e),
    }
}

/// Build an op that keeps the shape and all inputs.
pub fn build_same(node: &OnnxNode, ctx: &mut BuildContext<'_>, op_type: &str, params: OpParams) -> (r:
    Result<CompiledOp, Error>)
    ensures
        build_outcome(r, final(ctx)@) == finished(
            node@,
            old(ctx)@,
            same_shape(node@, old(ctx)@),
            op_type@,
            node@.inputs,
            params@,
        ),
        r is Err ==> final(ctx)@ == old(ctx)@,
{
    match validate_same(node, ctx) {
        Ok(shape) => finish(node, ctx, shape, op_type, copy_names(&node.inputs), params),
        Err(e) => Err(e),
    }
}

/// The output shape of an op that is passed through without a rule of its own.
pub open spec fn passthrough_shape(node: NodeView, ctx: ContextView, op_type: Seq<char>) -> Result<
    ShapeView,
    ErrorView,
> {
    if node.inputs.len() == 0 {
        Err(too_few_inputs())
    } else if ctx.shapes.dom().contains(node.inputs[0]) {
        Ok(ctx.shapes[node.inputs[0]])
    } else {
        Err(ErrorView::Validation(op_type + " validation not implemented"@))
    }
}

/// The output shape of an op that is passed through without a rule of its own.
pub fn validate_passthrough(node: &OnnxNode, ctx: &BuildContext<'_>, op_type: &str) -> (r: Result<
    TensorShape,
    Error,
>)
    ensures
        outcome(r) == passthrough_shape(node@, ctx@, op_type@),
{
    if node.inputs.len() == 0 {
        return Err(err_too_few_inputs());
    }
    assert(node@.inputs[0] == node.inputs@[0]@);
    match ctx.get_shape(node.inputs[0].as_str()) {
        Some(s) => Ok(s.clone()),
        None => Err(Error::Validation(concat2(op_type, " validation not implemented"))),
    }
}

/// Build an op that is passed through without a rule of its own.
pub fn build_passthrough(node: &OnnxNode, ctx: &mut BuildContext<'_>, op_type: &str) -> (r: Result<
    CompiledOp,
    Error,
>)
    ensures
        build_outcome(r, final(ctx)@) == finished(
            node@,
            old(ctx)@,
            passthrough_shape(node@, old(ctx)@, op_type@),
            op_type@,
            node@.inputs,
            ParamsView::Empty,
        ),
        r is Err ==> final(ctx)@ == old(ctx)@,
{
    match validate_passthrough(node, ctx, op_type) {
        Ok(shape) => finish(node, ctx, shape, op_type, copy_names(&node.inputs), OpParams::Empty),
        Err(e) => Err(e),
    }
}

// ---------------------------------------------------------------------------
// Clip
// ---------------------------------------------------------------------------

/// Bits of negative infinity.
pub const NEG_INFINITY: u32 = 0xff80_0000;

/// Bits of positive infinity.
pub const INFINITY: u32 = 0x7f80_0000;

/// The bits of the first element of a Float tensor.
pub open spec fn first_float(t: TensorView) -> Option<u32> {
    if t.data_type == DataType::Float && t.data.len() % 4 == 0 && words32(t.data).len() > 0 {
        Some(words32(t.data)[0])
    } else {
        None
    }
}

/// A bound of a Clip node: the first element of input `i` if it is named, else the attribute.
pub open spec fn clip_bound(
    node: NodeView,
    ctx: ContextView,
    i: int,
    attr: Seq<char>,
    default: u32,
) -> u32 {
    if node.inputs.len() > i && node.inputs[i].len() != 0 {
        if ctx.initializers.dom().contains(node.inputs[i]) {
            match first_float(ctx.initializers[node.inputs[i]]) {
                Some(v) => v,
                None => default,
            }
        } else {
            default
        }
    } else {
        node.attr_float(attr, default)
    }
}

fn read_clip_bound(
    node: &OnnxNode,
    ctx: &BuildContext<'_>,
    i: usize,
    attr: &str,
    default: u32,
) -> (r: u32)
    ensures
        r == clip_bound(node@, ctx@, i as int, attr@, default),
{
    if node.inputs.len() > i {
        assert(node@.inputs[i as int] == node.inputs@[i as int]@);
        if node.inputs[i].as_str().unicode_len() != 0 {
            return match ctx.get_initializer(node.inputs[i].as_str()) {
                Some(t) => match t.as_f32_slice() {
                    Some(v) => if v.len() > 0 {
                        v[0]
                    } else {
                        default
                    },
                    None => default,
                },
                None => default,
            };
        }
    }
    node.get_attr_float(attr, default)
}

/// The compiled form of a Clip node: only the data input is kept.
pub open spec fn clip_build(node: NodeView, ctx: ContextView) -> Result<
    (OpView, ContextView),
    ErrorView,
> {
    finished(
        node,
        ctx,
        same_shape(node, ctx),
        "Clip"@,
        seq![node.inputs[0]],
        ParamsView::Clip {
            min: clip_bound(node, ctx, 1, "min"@, NEG_INFINITY),
            max: clip_bound(node, ctx, 2, "max"@, INFINITY),
        },
    )
}

/// The compiled form of a Clip node.
pub fn build_clip(node: &OnnxNode, ctx: &mut BuildContext<'_>) -> (r: Result<CompiledOp, Error>)
    ensures
        build_outcome(r, final(ctx)@) == clip_build(node@, old(ctx)@),
        r is Err ==> final(ctx)@ == old(ctx)@,
{
    let shape: TensorShape = match validate_same(node, ctx) {
        Ok(s) => s,
        Err(e) => {
            return Err(e);
        },
    };
    let min: u32 = read_clip_bound(node, ctx, 1, "min", NEG_INFINITY);
    let max: u32 = read_clip_bound(node, ctx, 2, "max", INFINITY);
    finish(node, ctx, shape, "Clip", first_input(node), OpParams::Clip { min, max })
}

// ---------------------------------------------------------------------------
// Add
// ---------------------------------------------------------------------------

/// Two dimensions agree, or one of them is 1.
pub open spec fn broadcast_dim(a: usize, b: usize) -> Option<usize> {
    if a == b {
        Some(a)
    } else if a == 1 {
        Some(b)
    } else if b == 1 {
        Some(a)
    } else {
        None
    }
}

/// Dimensions of the same number broadcast against each other.
pub open spec fn broadcast_dims(a: Seq<usize>, b: Seq<usize>) -> Option<Seq<usize>> {
    if a.len() == b.len() && forall|i: int|
        0 <= i < a.len() ==> #[trigger] broadcast_dim(a[i], b[i]) is Some {
        Some(Seq::new(a.len(), |i: int| broadcast_dim(a[i], b[i])->0))
    } else {
        None
    }
}

/// The output shape of Add: equal shapes, a 1-D second operand that matches the
/// last dimension, or dimensions that broadcast.
pub open spec fn add_shape(node: NodeView, ctx: ContextView) -> Result<ShapeView, ErrorView> {
    match found_shape(node, ctx, 0, "input "@) {
        Err(e) => Err(e),
        Ok(a) => match operand_shape(node, ctx, 1) {
            Err(e) => Err(e),
            Ok(b) => if a.dims == b.dims {
                Ok(a)
            } else if b.dims.len() == 1 && a.dims.len() > 0 && a.dims.last() == b.dims[0] {
                Ok(a)
            } else {
                match broadcast_dims(a.dims, b.dims) {
                    Some(d) => Ok(plain_shape(d, ctx.dtype)),
                    None => Err(
                        ErrorView::Validation(
                            "Add shapes incompatible: "@ + sizes_text(a.dims) + " vs "@
                                + sizes_text(b.dims),
                        ),
                    ),
                }
            },
        },
    }
}

/// Whether two lists of sizes are equal.
pub fn same_sizes(a: &Vec<usize>, b: &Vec<usize>) -> (r: bool)
    ensures
        r == (a@ == b@),
{
    if a.len() != b.len() {
        return false;
    }
    let mut i: usize = 0;
    while i < a.len()
        invariant
            i <= a@.len(),
            a@.len() == b@.len(),
            forall|k: int| 0 <= k < i ==> a@[k] == b@[k],
        decreases a@.len() - i,
    {
        if a[i] != b[i] {
            return false;
        }
        i = i + 1;
    }
    assert(a@ =~= b@);
    true
}

/// Broadcast two lists of dimensions against each other.
pub fn broadcast(a: &Vec<usize>, b: &Vec<usize>) -> (r: Option<Vec<usize>>)
    ensures
        match r {
            Some(v) => broadcast_dims(a@, b@) == Some(v@),
            None => broadcast_dims(a@, b@) is None,
        },
{
    if a.len() != b.len() {
        return None;
    }
    let mut out: Vec<usize> = Vec::new();
    let mut i: usize = 0;
    while i < a.len()
        invariant
            i <= a@.len(),
            a@.len() == b@.len(),
            out@.len() == i,
            forall|k: int|
                0 <= k < i ==> #[trigger] broadcast_dim(a@[k], b@[k]) == Some(out@[k]),
        decreases a@.len() - i,
    {
        let x: usize = a[i];
        let y: usize = b[i];
        if x == y {
            out.push(x);
        } else if x == 1 {
            out.push(y);
        } else if y == 1 {
            out.push(x);
        } else {
            assert(broadcast_dim(a@[i as int], b@[i as int]) is None);
            return None;
        }
        i = i + 1;
    }
    assert(out@ =~= Seq::new(a@.len(), |k: int| broadcast_dim(a@[k], b@[k])->0)) by {
        assert forall|k: int| 0 <= k < a@.len() implies out@[k] == broadcast_dim(a@[k], b@[k])->0 by {
            assert(broadcast_dim(a@[k], b@[k]) == Some(out@[k]));
        }
    }
    Some(out)
}

/// The output shape of Add.
pub fn validate_add(node: &OnnxNode, ctx: &BuildContext<'_>) -> (r: Result<TensorShape, Error>)
    ensures
        outcome(r) == add_shape(node@, ctx@),
{
    let a: TensorShape = match find_shape(node, ctx, 0, "input ") {
        Ok(s) => s.clone(),
        Err(e) => {
            return Err(e);
        },
    };
    let b: TensorShape = match find_operand(node, ctx, 1) {
        Ok(s) => s,
        Err(e) => {
            return Err(e);
        },
    };
    if same_sizes(&a.dims, &b.dims) {
        return Ok(a);
    }
    if b.dims.len() == 1 && a.dims.len() > 0 && a.dims[a.dims.len() - 1] == b.dims[0] {
        return Ok(a);
    }
    match broadcast(&a.dims, &b.dims) {
        Some(d) => Ok(TensorShape::new(d, ctx.dtype)),
        None => {
            let x: String = list_usize(&a.dims);
            let y: String = list_usize(&b.dims);
            Err(
                Error::Validation(
                    concat4("Add shapes incompatible: ", x.as_str(), " vs ", y.as_str()),
                ),
            )
        },
    }
}

/// Build an Add.
pub fn build_add(node: &OnnxNode, ctx: &mut BuildContext<'_>) -> (r: Result<CompiledOp, Error>)
    ensures
        build_outcome(r, final(ctx)@) == finished(
            node@,
            old(ctx)@,
            add_shape(node@, old(ctx)@),
            "Add"@,
            node@.inputs,
            ParamsView::Add,
        ),
        r is Err ==> final(ctx)@ == old(ctx)@,
{
    match validate_add(node, ctx) {
        Ok(shape) => finish(node, ctx, shape, "Add", copy_names(&node.inputs), OpParams::Add),
        Err(e) => Err(e),
    }
}

/// Dimensions that broadcast do so in either order, with the same result.
pub proof fn law_broadcast_commutes(a: Seq<usize>, b: Seq<usize>)
    ensures
        broadcast_dims(a, b) == broadcast_dims(b, a),
{
    assert(forall|i: int|
        #![trigger broadcast_dim(a[i], b[i])]
        #![trigger broadcast_dim(b[i], a[i])]
        broadcast_dim(a[i], b[i]) == broadcast_dim(b[i], a[i]));
    if a.len() == b.len() {
        assert(Seq::new(a.len(), |i: int| broadcast_dim(a[i], b[i])->0) =~= Seq::new(
            b.len(),
            |i: int| broadcast_dim(b[i], a[i])->0,
        ));
    }
}

// ---------------------------------------------------------------------------
// GlobalAveragePool
// ---------------------------------------------------------------------------

/// The output shape of GlobalAveragePool: `[N, C, 1, 1]`.
pub open spec fn global_pool_shape(node: NodeView, ctx: ContextView) -> Result<
    ShapeView,
    ErrorView,
> {
    match found_shape(node, ctx, 0, "input "@) {
        Err(e) => Err(e),
        Ok(x) => if x.dims.len() != 4 {
            Err(ErrorView::Validation("GlobalAveragePool input must be 4D"@))
        } else {
            Ok(plain_shape(seq![x.dims[0], x.dims[1], 1, 1], ctx.dtype))
        },
    }
}

/// The output shape of GlobalAveragePool.
pub fn validate_global_pool(node: &OnnxNode, ctx: &BuildContext<'_>) -> (r: Result<
    TensorShape,
    Error,
>)
    ensures
        outcome(r) == global_pool_shape(node@, ctx@),
{
    match find_shape(node, ctx, 0, "input ") {
        Err(e) => Err(e),
        Ok(x) => {
            if x.dims.len() != 4 {
                return Err(invalid("GlobalAveragePool input must be 4D"));
            }
            let dims: Vec<usize> = vec![x.dims[0], x.dims[1], 1, 1];
            assert(dims@ =~= seq![x.dims@[0], x.dims@[1], 1, 1]);
            Ok(TensorShape::new(dims, ctx.dtype))
        },
    }
}

/// Build a GlobalAveragePool.
pub fn build_global_pool(node: &OnnxNode, ctx: &mut BuildContext<'_>) -> (r: Result<
    CompiledOp,
    Error,
>)
    ensures
        build_outcome(r, final(ctx)@) == finished(
            node@,
            old(ctx)@,
            global_pool_shape(node@, old(ctx)@),
            "GlobalAveragePool"@,
            node@.inputs,
            ParamsView::GlobalAvgPool,
        ),
        r is Err ==> final(ctx)@ == old(ctx)@,
{
    match validate_global_pool(node, ctx) {
        Ok(shape) => finish(
            node,
            ctx,
            shape,
            "GlobalAveragePool",
            copy_names(&node.inputs),
            OpParams::GlobalAvgPool,
        ),
        Err(e) => Err(e),
    }
}

// ---------------------------------------------------------------------------
// Gemm and MatMul
// ---------------------------------------------------------------------------

/// The output dimensions of a matrix product of two matrices, each of which
/// may be stored transposed.
pub open spec fn product_dims(
    a: Seq<usize>,
    b: Seq<usize>,
    trans_a: bool,
    trans_b: bool,
    op_type: Seq<char>,
) -> Result<Seq<usize>, ErrorView> {
    if a.len() != 2 || b.len() != 2 {
        Err(ErrorView::Validation(op_type + " inputs must be 2D"@))
    } else {
        let (m, k_a) = if trans_a {
            (a[1], a[0])
        } else {
            (a[0], a[1])
        };
        let (k_b, n) = if trans_b {
            (b[1], b[0])
        } else {
            (b[0], b[1])
        };
        if k_a != k_b {
            Err(
                ErrorView::Validation(
                    op_type + " dimension mismatch: A has K="@ + dec(k_a as nat) + ", B has K="@
                        + dec(k_b as nat),
                ),
            )
        } else {
            Ok(seq![m, n])
        }
    }
}

/// The output shape of a matrix product.
pub open spec fn product_shape(
    node: NodeView,
    ctx: ContextView,
    trans_a: bool,
    trans_b: bool,
    op_type: Seq<char>,
) -> Result<ShapeView, ErrorView> {
    match found_shape(node, ctx, 0, "input "@) {
        Err(e) => Err(e),
        Ok(a) => match operand_shape(node, ctx, 1) {
            Err(e) => Err(e),
            Ok(b) => match product_dims(a.dims, b.dims, trans_a, trans_b, op_type) {
                Err(e) => Err(e),
                Ok(d) => Ok(plain_shape(d, ctx.dtype)),
            },
        },
    }
}

fn validate_product(
    node: &OnnxNode,
    ctx: &BuildContext<'_>,
    trans_a: bool,
    trans_b: bool,
    op_type: &str,
) -> (r: Result<TensorShape, Error>)
    ensures
        outcome(r) == product_shape(node@, ctx@, trans_a, trans_b, op_type@),
{
    let a: TensorShape = match find_shape(node, ctx, 0, "input ") {
        Ok(s) => s.clone(),
        Err(e) => {
            return Err(e);
        },
    };
    let b: TensorShape = match find_operand(node, ctx, 1) {
        Ok(s) => s,
        Err(e) => {
            return Err(e);
        },
    };
    if a.dims.len() != 2 || b.dims.len() != 2 {
        return Err(Error::Validation(concat2(op_type, " inputs must be 2D")));
    }
    let (m, k_a): (usize, usize) = if trans_a {
        (a.dims[1], a.dims[0])
    } else {
        (a.dims[0], a.dims[1])
    };
    let (k_b, n): (usize, usize) = if trans_b {
        (b.dims[1], b.dims[0])
    } else {
        (b.dims[0], b.dims[1])
    };
    if k_a != k_b {
        let x: String = dec_usize(k_a);
        let y: String = dec_usize(k_b);
        let mut s: String = concat4(op_type, " dimension mismatch: A has K=", x.as_str(), ", B has K=");
        s.append(y.as_str());
        return Err(Error::Validation(s));
    }
    let dims: Vec<usize> = vec![m, n];
    assert(dims@ =~= seq![m, n]);
    Ok(TensorShape::new(dims, ctx.dtype))
}

/// The output shape of Gemm.
pub open spec fn gemm_shape(node: NodeView, ctx: ContextView) -> Result<ShapeView, ErrorView> {
    product_shape(
        node,
        ctx,
        node.attr_int("transA"@, 0) != 0,
        node.attr_int("transB"@, 0) != 0,
        "Gemm"@,
    )
}

/// The output shape of Gemm.
pub fn validate_gemm(node: &OnnxNode, ctx: &BuildContext<'_>) -> (r: Result<TensorShape, Error>)
    ensures
        outcome(r) == gemm_shape(node@, ctx@),
{
    let trans_a: bool = node.get_attr_int("transA", 0) != 0;
    let trans_b: bool = node.get_attr_int("transB", 0) != 0;
    validate_product(node, ctx, trans_a, trans_b, "Gemm")
}

/// The parameters of Gemm.
pub open spec fn gemm_params(node: NodeView) -> ParamsView {
    ParamsView::Gemm {
        alpha: node.attr_float("alpha"@, ONE),
        beta: node.attr_float("beta"@, ONE),
        trans_a: node.attr_int("transA"@, 0) != 0,
        trans_b: node.attr_int("transB"@, 0) != 0,
    }
}

/// Build a Gemm.
pub fn build_gemm(node: &OnnxNode, ctx: &mut BuildContext<'_>) -> (r: Result<CompiledOp, Error>)
    ensures
        build_outcome(r, final(ctx)@) == finished(
            node@,
            old(ctx)@,
            gemm_shape(node@, old(ctx)@),
            "Gemm"@,
            node@.inputs,
            gemm_params(node@),
        ),
        r is Err ==> final(ctx)@ == old(ctx)@,
{
    let shape: TensorShape = match validate_gemm(node, ctx) {
        Ok(s) => s,
        Err(e) => {
            return Err(e);
        },
    };
    let params: OpParams = OpParams::Gemm {
        alpha: node.get_attr_float("alpha", ONE),
        beta: node.get_attr_float("beta", ONE),
        trans_a: node.get_attr_int("transA", 0) != 0,
        trans_b: node.get_attr_int("transB", 0) != 0,
    };
    finish(node, ctx, shape, "Gemm", copy_names(&node.inputs), params)
}

/// The output shape of MatMul.
pub open spec fn matmul_shape(node: NodeView, ctx: ContextView) -> Result<ShapeView, ErrorView> {
    product_shape(node, ctx, false, false, "MatMul"@)
}

/// The output shape of MatMul.
pub fn validate_matmul(node: &OnnxNode, ctx: &BuildContext<'_>) -> (r: Result<TensorShape, Error>)
    ensures
        outcome(r) == matmul_shape(node@, ctx@),
{
    validate_product(node, ctx, false, false, "MatMul")
}

/// The parameters of MatMul: a Gemm without bias.
pub open spec fn matmul_params() -> ParamsView {
    ParamsView::Gemm { alpha: ONE, beta: 0, trans_a: false, trans_b: false }
}

/// Build a MatMul.
pub fn build_matmul(node: &OnnxNode, ctx: &mut BuildContext<'_>) -> (r: Result<CompiledOp, Error>)
    ensures
        build_outcome(r, final(ctx)@) == finished(
            node@,
            old(ctx)@,
            matmul_shape(node@, old(ctx)@),
            "MatMul"@,
            node@.inputs,
            matmul_params(),
        ),
        r is Err ==> final(ctx)@ == old(ctx)@,
{
    let shape: TensorShape = match validate_matmul(node, ctx) {
        Ok(s) => s,
        Err(e) => {
            return Err(e);
        },
    };
    let params: OpParams = OpParams::Gemm { alpha: ONE, beta: 0, trans_a: false, trans_b: false };
    finish(node, ctx, shape, "MatMul", copy_names(&node.inputs), params)
}

} // verus!
