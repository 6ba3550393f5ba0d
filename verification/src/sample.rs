//! Sample graphs, and a sample of what a detector puts out.
//!
//! The detector here has the ops of a YOLO network, but small tensors, so that
//! it can be tried without a model file.

use vstd::prelude::*;
use crate::builder::{CompiledOp, OpParams, OpView, ParamsView};
use crate::calibration::zeros;
use crate::fusion::{apply_fusion_passes, count_fuseable_patterns, fuseable_count, fused, FusionStats};
use crate::ieee::ONE;
use crate::graph::{Graph, GraphView};
use crate::model::{lemma_views_push, views};
use crate::name_map::NameMap;
use crate::postprocess::{detections_in, postprocess_yolo, survivors, Detection, Layout, Output};
use crate::tensor::{plain_shape, Dtype, ShapeView, TensorShape};

verus! {

// ---------------------------------------------------------------------------
// Parts of a graph
// ---------------------------------------------------------------------------

/// An op with one input.
pub open spec fn op_on_one(
    name: Seq<char>,
    op_type: Seq<char>,
    input: Seq<char>,
    output: Seq<char>,
    params: ParamsView,
) -> OpView {
    OpView { name, op_type, inputs: seq![input], outputs: seq![output], params }
}

/// An op with two inputs.
pub open spec fn op_on_two(
    name: Seq<char>,
    op_type: Seq<char>,
    a: Seq<char>,
    b: Seq<char>,
    output: Seq<char>,
    params: ParamsView,
) -> OpView {
    OpView { name, op_type, inputs: seq![a, b], outputs: seq![output], params }
}

fn one_name(a: &str) -> (r: Vec<String>)
    ensures
        views(r@) == seq![a@],
{
    let mut r: Vec<String> = Vec::new();
    r.push(a.to_owned());
    assert(views(r@) =~= seq![a@]);
    r
}

fn two_names(a: &str, b: &str) -> (r: Vec<String>)
    ensures
        views(r@) == seq![a@, b@],
{
    let mut r: Vec<String> = Vec::new();
    r.push(a.to_owned());
    r.push(b.to_owned());
    assert(views(r@) =~= seq![a@, b@]);
    r
}

fn make_op_on_one(name: &str, op_type: &str, input: &str, output: &str, params: OpParams) -> (r:
    CompiledOp)
    ensures
        r@ == op_on_one(name@, op_type@, input@, output@, params@),
{
    CompiledOp {
        name: name.to_owned(),
        op_type: op_type.to_owned(),
        inputs: one_name(input),
        outputs: one_name(output),
        params,
    }
}

fn make_op_on_two(
    name: &str,
    op_type: &str,
    a: &str,
    b: &str,
    output: &str,
    params: OpParams,
) -> (r: CompiledOp)
    ensures
        r@ == op_on_two(name@, op_type@, a@, b@, output@, params@),
{
    CompiledOp {
        name: name.to_owned(),
        op_type: op_type.to_owned(),
        inputs: two_names(a, b),
        outputs: one_name(output),
        params,
    }
}

/// A square convolution with stride 1.
pub open spec fn square_conv(side: usize, pad: usize) -> ParamsView {
    ParamsView::Conv2d {
        kernel_shape: seq![side, side],
        strides: seq![1, 1],
        pads: seq![pad, pad, pad, pad],
        dilations: seq![1, 1],
        group: 1,
    }
}

fn make_square_conv(side: usize, pad: usize) -> (r: OpParams)
    ensures
        r@ == square_conv(side, pad),
{
    let r: OpParams = OpParams::Conv2d {
        kernel_shape: [side, side],
        strides: [1, 1],
        pads: [pad, pad, pad, pad],
        dilations: [1, 1],
        group: 1,
    };
    assert([side, side]@ =~= seq![side, side]);
    assert([1usize, 1usize]@ =~= seq![1usize, 1usize]);
    assert([pad, pad, pad, pad]@ =~= seq![pad, pad, pad, pad]);
    r
}

/// A square image of singles with its channels last.
pub open spec fn square_shape(side: usize, channels: usize) -> ShapeView {
    plain_shape(seq![1, side, side, channels], Dtype::F32)
}

fn make_square_shape(side: usize, channels: usize) -> (r: TensorShape)
    ensures
        r@ == square_shape(side, channels),
{
    let mut dims: Vec<usize> = Vec::new();
    dims.push(1);
    dims.push(side);
    dims.push(side);
    dims.push(channels);
    assert(dims@ =~= seq![1, side, side, channels]);
    TensorShape::new(dims, Dtype::F32)
}

/// A graph of singles without weights.
pub open spec fn plain_graph(
    ops: Seq<OpView>,
    shapes: Map<Seq<char>, ShapeView>,
    inputs: Seq<Seq<char>>,
    output: Seq<char>,
) -> GraphView {
    GraphView {
        ops,
        shapes,
        inputs,
        outputs: seq![output],
        initializers: Map::empty(),
        dtype: Dtype::F32,
    }
}

fn make_plain_graph(
    ops: Vec<CompiledOp>,
    shapes: NameMap<TensorShape>,
    inputs: Vec<String>,
    output: &str,
) -> (r: Graph)
    ensures
        r@ == plain_graph(views(ops@), shapes@, views(inputs@), output@),
{
    Graph {
        ops,
        shapes,
        inputs,
        outputs: one_name(output),
        initializers: NameMap::new(),
        dtype: Dtype::F32,
    }
}

// ---------------------------------------------------------------------------
// A small detector
// ---------------------------------------------------------------------------

/// The ops of the small detector.
pub open spec fn mini_yolo_ops() -> Seq<OpView> {
    let nearest = ParamsView::Resize { out_h: 16, out_w: 16, mode: "nearest"@ };
    seq![
        op_on_two("conv1"@, "Conv"@, "input"@, "conv1_weight"@, "conv1_out"@, square_conv(3, 1)),
        op_on_one("sigmoid1"@, "Sigmoid"@, "conv1_out"@, "sigmoid1_out"@, ParamsView::Sigmoid),
        op_on_two("mul1"@, "Mul"@, "conv1_out"@, "sigmoid1_out"@, "silu1_out"@, ParamsView::Mul),
        op_on_one("resize1"@, "Resize"@, "silu1_out"@, "resize1_out"@, nearest),
        op_on_two("conv2"@, "Conv"@, "resize1_out"@, "conv2_weight"@, "conv2_out"@, square_conv(3, 1)),
        op_on_one("sigmoid2"@, "Sigmoid"@, "conv2_out"@, "sigmoid2_out"@, ParamsView::Sigmoid),
        op_on_two("mul2"@, "Mul"@, "conv2_out"@, "sigmoid2_out"@, "silu2_out"@, ParamsView::Mul),
        op_on_one("resize_skip"@, "Resize"@, "silu1_out"@, "skip_resized"@, nearest),
        op_on_two(
            "concat1"@,
            "Concat"@,
            "silu2_out"@,
            "skip_resized"@,
            "concat_out"@,
            ParamsView::Concat { axis: 3 },
        ),
        op_on_two(
            "conv_head"@,
            "Conv"@,
            "concat_out"@,
            "conv_head_weight"@,
            "output"@,
            square_conv(1, 0),
        ),
    ]
}

/// The shapes of the small detector.
pub open spec fn mini_yolo_shapes() -> Map<Seq<char>, ShapeView> {
    Map::<Seq<char>, ShapeView>::empty().insert("input"@, square_shape(8, 16)).insert(
        "conv1_out"@,
        square_shape(8, 32),
    ).insert("sigmoid1_out"@, square_shape(8, 32)).insert("silu1_out"@, square_shape(8, 32)).insert(
        "resize1_out"@,
        square_shape(16, 32),
    ).insert("conv2_out"@, square_shape(16, 64)).insert("sigmoid2_out"@, square_shape(16, 64)).insert(
        "silu2_out"@,
        square_shape(16, 64),
    ).insert("skip_resized"@, square_shape(16, 32)).insert("concat_out"@, square_shape(16, 96)).insert(
        "output"@,
        square_shape(16, 21),
    )
}

/// The small detector.
pub open spec fn mini_yolo() -> GraphView {
    plain_graph(mini_yolo_ops(), mini_yolo_shapes(), seq!["input"@], "output"@)
}

fn make_nearest() -> (r: OpParams)
    ensures
        r@ == (ParamsView::Resize { out_h: 16, out_w: 16, mode: "nearest"@ }),
{
    OpParams::Resize { out_h: 16, out_w: 16, mode: "nearest".to_owned() }
}

fn make_mini_yolo_ops() -> (r: Vec<CompiledOp>)
    ensures
        views(r@) == mini_yolo_ops(),
{
    broadcast use lemma_views_push;

    let mut ops: Vec<CompiledOp> = Vec::new();
    assert(views(ops@) =~= Seq::<OpView>::empty());
    ops.push(
        make_op_on_two("conv1", "Conv", "input", "conv1_weight", "conv1_out", make_square_conv(3, 1)),
    );
    ops.push(
        make_op_on_one("sigmoid1", "Sigmoid", "conv1_out", "sigmoid1_out", OpParams::Sigmoid),
    );
    ops.push(
        make_op_on_two("mul1", "Mul", "conv1_out", "sigmoid1_out", "silu1_out", OpParams::Mul),
    );
    ops.push(make_op_on_one("resize1", "Resize", "silu1_out", "resize1_out", make_nearest()));
    ops.push(
        make_op_on_two(
            "conv2",
            "Conv",
            "resize1_out",
            "conv2_weight",
            "conv2_out",
            make_square_conv(3, 1),
        ),
    );
    ops.push(
        make_op_on_one("sigmoid2", "Sigmoid", "conv2_out", "sigmoid2_out", OpParams::Sigmoid),
    );
    ops.push(
        make_op_on_two("mul2", "Mul", "conv2_out", "sigmoid2_out", "silu2_out", OpParams::Mul),
    );
    ops.push(make_op_on_one("resize_skip", "Resize", "silu1_out", "skip_resized", make_nearest()));
    ops.push(
        make_op_on_two(
            "concat1",
            "Concat",
            "silu2_out",
            "skip_resized",
            "concat_out",
            OpParams::Concat { axis: 3 },
        ),
    );
    ops.push(
        make_op_on_two(
            "conv_head",
            "Conv",
            "concat_out",
            "conv_head_weight",
            "output",
            make_square_conv(1, 0),
        ),
    );
    ops
}

fn make_mini_yolo_shapes() -> (r: NameMap<TensorShape>)
    ensures
        r@ == mini_yolo_shapes(),
{
    let mut shapes: NameMap<TensorShape> = NameMap::new();
    shapes.insert("input".to_owned(), make_square_shape(8, 16));
    shapes.insert("conv1_out".to_owned(), make_square_shape(8, 32));
    shapes.insert("sigmoid1_out".to_owned(), make_square_shape(8, 32));
    shapes.insert("silu1_out".to_owned(), make_square_shape(8, 32));
    shapes.insert("resize1_out".to_owned(), make_square_shape(16, 32));
    shapes.insert("conv2_out".to_owned(), make_square_shape(16, 64));
    shapes.insert("sigmoid2_out".to_owned(), make_square_shape(16, 64));
    shapes.insert("silu2_out".to_owned(), make_square_shape(16, 64));
    shapes.insert("skip_resized".to_owned(), make_square_shape(16, 32));
    shapes.insert("concat_out".to_owned(), make_square_shape(16, 96));
    shapes.insert("output".to_owned(), make_square_shape(16, 21));
    shapes
}

/// A minimal YOLO-like graph for testing.
///
/// ```text
/// Input [1, 8, 8, 16] (NHWC)
///   Conv (3x3, 16 to 32), Sigmoid, Mul (the SiLU pattern)
///   Resize (2x)               [1, 16, 16, 32]
///   Conv (3x3, 32 to 64), Sigmoid, Mul
///   Concat with the skip connection
///   Conv (1x1, 96 to 21)      Output [1, 16, 16, 21]
/// ```
///
/// 21 = 4 (box) + 1 (objectness) + 16 (classes).
pub fn create_mini_yolo_graph() -> (r: Graph)
    ensures
        r@ == mini_yolo(),
{
    make_plain_graph(make_mini_yolo_ops(), make_mini_yolo_shapes(), one_name("input"), "output")
}

/// Count the fusion patterns in the small detector.
pub fn test_fusion_detection() -> (r: FusionStats)
    ensures
        r.conv_relu == fuseable_count(mini_yolo(), 0, 10),
        r.conv_bias_relu == fuseable_count(mini_yolo(), 1, 10),
        r.silu == fuseable_count(mini_yolo(), 2, 10),
        r.conv_requant_relu_i8 == fuseable_count(mini_yolo(), 3, 10),
{
    let graph: Graph = create_mini_yolo_graph();
    count_fuseable_patterns(&graph)
}

/// Fuse the small detector: the number of ops before and after.
pub fn test_fusion_pass() -> (r: (usize, usize))
    ensures
        r.0 == 10,
        r.1 == fused(mini_yolo()).len(),
{
    let mut graph: Graph = create_mini_yolo_graph();
    let before: usize = graph.num_ops();
    apply_fusion_passes(&mut graph);
    let after: usize = graph.num_ops();
    (before, after)
}

// ---------------------------------------------------------------------------
// What a detector puts out
// ---------------------------------------------------------------------------

/// What the sample holds for a channel of an anchor: a person, another that
/// overlaps it, and a car. (Bits of singles; four channels are the box.)
pub open spec fn planted(channel: int, anchor: int) -> u32 {
    if anchor == 0 {
        // 320, 240, 100, 200; 0.9 for class 0.
        if channel == 0 {
            0x43a0_0000
        } else if channel == 1 {
            0x4370_0000
        } else if channel == 2 {
            0x42c8_0000
        } else if channel == 3 {
            0x4348_0000
        } else if channel == 4 {
            0x3f66_6666
        } else {
            0
        }
    } else if anchor == 1 {
        // 330, 245, 95, 195; 0.7 for class 0.
        if channel == 0 {
            0x43a5_0000
        } else if channel == 1 {
            0x4375_0000
        } else if channel == 2 {
            0x42be_0000
        } else if channel == 3 {
            0x4343_0000
        } else if channel == 4 {
            0x3f33_3333
        } else {
            0
        }
    } else if anchor == 100 {
        // 500, 300, 150, 80; 0.85 for class 2.
        if channel == 0 {
            0x43fa_0000
        } else if channel == 1 {
            0x4396_0000
        } else if channel == 2 {
            0x4316_0000
        } else if channel == 3 {
            0x42a0_0000
        } else if channel == 6 {
            0x3f59_999a
        } else {
            0
        }
    } else {
        0
    }
}

/// The sample: 84 channels of 8400 anchors.
pub open spec fn sample_output() -> Seq<u32> {
    Seq::new(705600, |i: int| planted(i / 8400, i % 8400))
}

/// Synthetic YOLO output for testing post-processing: the format of YOLOv8,
/// [1, 84, 8400], with some "detected" objects.
pub fn create_synthetic_yolo_output() -> (r: Vec<u32>)
    ensures
        r@ == sample_output(),
{
    let mut output: Vec<u32> = zeros(705600);
    output.set(0, 0x43a0_0000);
    output.set(8400, 0x4370_0000);
    output.set(16800, 0x42c8_0000);
    output.set(25200, 0x4348_0000);
    output.set(33600, 0x3f66_6666);
    output.set(100, 0x43fa_0000);
    output.set(8500, 0x4396_0000);
    output.set(16900, 0x4316_0000);
    output.set(25300, 0x42a0_0000);
    output.set(50500, 0x3f59_999a);
    output.set(1, 0x43a5_0000);
    output.set(8401, 0x4375_0000);
    output.set(16801, 0x42be_0000);
    output.set(25201, 0x4343_0000);
    output.set(33601, 0x3f33_3333);
    assert(output@ =~= sample_output());
    output
}

/// What the detections in the sample are, in an image of 640 by 480 pixels, with
/// confidence of at least 0.25 and overlaps of more than 0.45 removed.
pub fn test_yolo_postprocess() -> (r: Vec<Detection>)
    ensures
        views(r@) == survivors(
            detections_in(
                (Output {
                    raw: sample_output(),
                    layout: Layout::ChannelsFirst,
                    classes: 80,
                    anchors: 8400,
                }),
                640,
                480,
                0x3e80_0000,
            ),
            0x3ee6_6666,
            false,
        ),
{
    let raw: Vec<u32> = create_synthetic_yolo_output();
    postprocess_yolo(raw.as_slice(), 80, 8400, 640, 480, 0x3e80_0000, 0x3ee6_6666)
}

// ---------------------------------------------------------------------------
// Graphs to measure
// ---------------------------------------------------------------------------

/// A shape of singles with one dimension.
pub open spec fn row_shape(n: usize) -> ShapeView {
    plain_shape(seq![n], Dtype::F32)
}

/// A shape of singles with two dimensions.
pub open spec fn matrix_shape(rows: usize, columns: usize) -> ShapeView {
    plain_shape(seq![rows, columns], Dtype::F32)
}

fn make_row_shape(n: usize) -> (r: TensorShape)
    ensures
        r@ == row_shape(n),
{
    let mut dims: Vec<usize> = Vec::new();
    dims.push(n);
    assert(dims@ =~= seq![n]);
    TensorShape::new(dims, Dtype::F32)
}

fn make_matrix_shape(rows: usize, columns: usize) -> (r: TensorShape)
    ensures
        r@ == matrix_shape(rows, columns),
{
    let mut dims: Vec<usize> = Vec::new();
    dims.push(rows);
    dims.push(columns);
    assert(dims@ =~= seq![rows, columns]);
    TensorShape::new(dims, Dtype::F32)
}

/// SiLU as a sigmoid and a product: what fusion is measured against.
pub fn unfused_silu_graph(n_elements: usize) -> (r: Graph)
    ensures
        r@ == plain_graph(
            seq![
                op_on_one("sig1"@, "Sigmoid"@, "x"@, "s"@, ParamsView::Sigmoid),
                op_on_two("mul1"@, "Mul"@, "x"@, "s"@, "z"@, ParamsView::Mul),
            ],
            Map::<Seq<char>, ShapeView>::empty().insert("x"@, row_shape(n_elements)).insert(
                "s"@,
                row_shape(n_elements),
            ).insert("z"@, row_shape(n_elements)),
            seq!["x"@],
            "z"@,
        ),
{
    broadcast use lemma_views_push;

    let mut shapes: NameMap<TensorShape> = NameMap::new();
    shapes.insert("x".to_owned(), make_row_shape(n_elements));
    shapes.insert("s".to_owned(), make_row_shape(n_elements));
    shapes.insert("z".to_owned(), make_row_shape(n_elements));
    let mut ops: Vec<CompiledOp> = Vec::new();
    assert(views(ops@) =~= Seq::<OpView>::empty());
    ops.push(make_op_on_one("sig1", "Sigmoid", "x", "s", OpParams::Sigmoid));
    ops.push(make_op_on_two("mul1", "Mul", "x", "s", "z", OpParams::Mul));
    assert(views(ops@) =~= seq![
        op_on_one("sig1"@, "Sigmoid"@, "x"@, "s"@, ParamsView::Sigmoid),
        op_on_two("mul1"@, "Mul"@, "x"@, "s"@, "z"@, ParamsView::Mul),
    ]);
    make_plain_graph(ops, shapes, one_name("x"), "z")
}

/// SiLU as one op.
pub fn fused_silu_graph(n_elements: usize) -> (r: Graph)
    ensures
        r@ == plain_graph(
            seq![op_on_one("silu1"@, "SiLU"@, "x"@, "z"@, ParamsView::Empty)],
            Map::<Seq<char>, ShapeView>::empty().insert("x"@, row_shape(n_elements)).insert(
                "z"@,
                row_shape(n_elements),
            ),
            seq!["x"@],
            "z"@,
        ),
{
    broadcast use lemma_views_push;

    let mut shapes: NameMap<TensorShape> = NameMap::new();
    shapes.insert("x".to_owned(), make_row_shape(n_elements));
    shapes.insert("z".to_owned(), make_row_shape(n_elements));
    let mut ops: Vec<CompiledOp> = Vec::new();
    assert(views(ops@) =~= Seq::<OpView>::empty());
    ops.push(make_op_on_one("silu1", "SiLU", "x", "z", OpParams::Empty));
    make_plain_graph(ops, shapes, one_name("x"), "z")
}

/// A product of an m by k and a k by n matrix.
pub fn gemm_f32_graph(m: usize, n: usize, k: usize) -> (r: Graph)
    ensures
        r@ == plain_graph(
            seq![
                op_on_two(
                    "g"@,
                    "Gemm"@,
                    "a"@,
                    "b"@,
                    "c"@,
                    ParamsView::Gemm { alpha: ONE, beta: ONE, trans_a: false, trans_b: false },
                ),
            ],
            Map::<Seq<char>, ShapeView>::empty().insert("a"@, matrix_shape(m, k)).insert(
                "b"@,
                matrix_shape(k, n),
            ).insert("c"@, matrix_shape(m, n)),
            seq!["a"@, "b"@],
            "c"@,
        ),
{
    broadcast use lemma_views_push;

    let mut shapes: NameMap<TensorShape> = NameMap::new();
    shapes.insert("a".to_owned(), make_matrix_shape(m, k));
    shapes.insert("b".to_owned(), make_matrix_shape(k, n));
    shapes.insert("c".to_owned(), make_matrix_shape(m, n));
    let mut ops: Vec<CompiledOp> = Vec::new();
    assert(views(ops@) =~= Seq::<OpView>::empty());
    let params: OpParams = OpParams::Gemm {
        alpha: ONE,
        beta: ONE,
        trans_a: false,
        trans_b: false,
    };
    ops.push(make_op_on_two("g", "Gemm", "a", "b", "c", params));
    make_plain_graph(ops, shapes, two_names("a", "b"), "c")
}

} // verus!
