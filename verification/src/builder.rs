//! Build context, compiled ops and reports.
//!
//! The rules for the individual ops stand in [`crate::ops`].

use vstd::prelude::*;
use vstd::string::*;
use crate::model::{copy_names, copy_vec, views, DataType, OnnxTensor, TensorView};
use crate::name_map::NameMap;
use crate::tensor::{Dtype, ShapeView, TensorShape};
use crate::text::{concat4, dec, dec_usize};

verus! {

// ---------------------------------------------------------------------------
// Reasons
// ---------------------------------------------------------------------------

/// Reason why an op is not supported.
#[derive(Debug, Clone)]
pub enum UnsupportedReason {
    /// Unknown op type.
    UnknownOpType,
    /// Unsupported attribute value.
    UnsupportedAttribute { name: String, value: String, reason: String },
    /// Unsupported data type.
    UnsupportedDtype { found: DataType, expected: &'static str },
    /// Unsupported input count.
    UnsupportedInputCount { found: usize, expected: &'static str },
    /// Unsupported output count.
    UnsupportedOutputCount { found: usize, expected: &'static str },
    /// Generic reason.
    Other(String),
}

/// The contents of an [`UnsupportedReason`].
pub enum ReasonView {
    UnknownOpType,
    UnsupportedAttribute { name: Seq<char>, value: Seq<char>, reason: Seq<char> },
    UnsupportedDtype { found: DataType, expected: Seq<char> },
    UnsupportedInputCount { found: usize, expected: Seq<char> },
    UnsupportedOutputCount { found: usize, expected: Seq<char> },
    Other(Seq<char>),
}

impl View for UnsupportedReason {
    type V = ReasonView;

    open spec fn view(&self) -> ReasonView {
        match *self {
            UnsupportedReason::UnknownOpType => ReasonView::UnknownOpType,
            UnsupportedReason::UnsupportedAttribute { name, value, reason } => ReasonView::UnsupportedAttribute {
                name: name@,
                value: value@,
                reason: reason@,
            },
            UnsupportedReason::UnsupportedDtype { found, expected } => ReasonView::UnsupportedDtype {
                found,
                expected: expected@,
            },
            UnsupportedReason::UnsupportedInputCount { found, expected } => ReasonView::UnsupportedInputCount {
                found,
                expected: expected@,
            },
            UnsupportedReason::UnsupportedOutputCount { found, expected } => ReasonView::UnsupportedOutputCount {
                found,
                expected: expected@,
            },
            UnsupportedReason::Other(m) => ReasonView::Other(m@),
        }
    }
}

/// The name of a data type.
pub open spec fn data_type_name(t: DataType) -> Seq<char> {
    match t {
        DataType::Undefined => "Undefined"@,
        DataType::Float => "Float"@,
        DataType::Uint8 => "Uint8"@,
        DataType::Int8 => "Int8"@,
        DataType::Uint16 => "Uint16"@,
        DataType::Int16 => "Int16"@,
        DataType::Int32 => "Int32"@,
        DataType::Int64 => "Int64"@,
        DataType::String => "String"@,
        DataType::Bool => "Bool"@,
        DataType::Float16 => "Float16"@,
        DataType::Double => "Double"@,
        DataType::Uint32 => "Uint32"@,
        DataType::Uint64 => "Uint64"@,
        DataType::Complex64 => "Complex64"@,
        DataType::Complex128 => "Complex128"@,
        DataType::Bfloat16 => "Bfloat16"@,
    }
}

fn data_type_str(t: DataType) -> (r: &'static str)
    ensures
        r@ == data_type_name(t),
{
    match t {
        DataType::Undefined => "Undefined",
        DataType::Float => "Float",
        DataType::Uint8 => "Uint8",
        DataType::Int8 => "Int8",
        DataType::Uint16 => "Uint16",
        DataType::Int16 => "Int16",
        DataType::Int32 => "Int32",
        DataType::Int64 => "Int64",
        DataType::String => "String",
        DataType::Bool => "Bool",
        DataType::Float16 => "Float16",
        DataType::Double => "Double",
        DataType::Uint32 => "Uint32",
        DataType::Uint64 => "Uint64",
        DataType::Complex64 => "Complex64",
        DataType::Complex128 => "Complex128",
        DataType::Bfloat16 => "Bfloat16",
    }
}

/// The text shown for a reason.
pub open spec fn reason_text(r: ReasonView) -> Seq<char> {
    match r {
        ReasonView::UnknownOpType => "unknown op type"@,
        ReasonView::UnsupportedAttribute { name, value, reason } => "unsupported attribute "@ + name
            + "="@ + value + ": "@ + reason,
        ReasonView::UnsupportedDtype { found, expected } => "unsupported dtype "@ + data_type_name(
            found,
        ) + ", expected "@ + expected,
        ReasonView::UnsupportedInputCount { found, expected } => "unsupported input count "@ + dec(
            found as nat,
        ) + ", expected "@ + expected,
        ReasonView::UnsupportedOutputCount { found, expected } => "unsupported output count "@ + dec(
            found as nat,
        ) + ", expected "@ + expected,
        ReasonView::Other(m) => m,
    }
}

impl UnsupportedReason {
    /// The text shown for this reason.
    pub fn message(&self) -> (r: String)
        ensures
            r@ == reason_text(self@),
    {
        match self {
            UnsupportedReason::UnknownOpType => "unknown op type".to_owned(),
            UnsupportedReason::UnsupportedAttribute { name, value, reason } => {
                let mut s: String = concat4(
                    "unsupported attribute ",
                    name.as_str(),
                    "=",
                    value.as_str(),
                );
                s.append(": ");
                s.append(reason.as_str());
                s
            },
            UnsupportedReason::UnsupportedDtype { found, expected } => concat4(
                "unsupported dtype ",
                data_type_str(*found),
                ", expected ",
                expected,
            ),
            UnsupportedReason::UnsupportedInputCount { found, expected } => {
                let n: String = dec_usize(*found);
                concat4("unsupported input count ", n.as_str(), ", expected ", expected)
            },
            UnsupportedReason::UnsupportedOutputCount { found, expected } => {
                let n: String = dec_usize(*found);
                concat4("unsupported output count ", n.as_str(), ", expected ", expected)
            },
            UnsupportedReason::Other(m) => m.clone(),
        }
    }
}

/// Validation report from the validate pass.
#[derive(Debug)]
pub struct ValidationReport {
    /// Nodes that passed validation.
    pub supported: Vec<String>,
    /// Nodes that failed validation: (node_name, reason).
    pub unsupported: Vec<(String, UnsupportedReason)>,
}

/// The contents of a [`ValidationReport`].
pub struct ReportView {
    pub supported: Seq<Seq<char>>,
    pub unsupported: Seq<(Seq<char>, ReasonView)>,
}

impl View for ValidationReport {
    type V = ReportView;

    open spec fn view(&self) -> ReportView {
        ReportView {
            supported: views(self.supported@),
            unsupported: self.unsupported@.map_values(
                |e: (String, UnsupportedReason)| (e.0@, e.1@),
            ),
        }
    }
}

impl Default for ValidationReport {
    fn default() -> (r: ValidationReport)
        ensures
            r@.supported.len() == 0,
            r@.unsupported.len() == 0,
    {
        ValidationReport { supported: Vec::new(), unsupported: Vec::new() }
    }
}

impl ValidationReport {
    /// Check if all nodes are supported.
    pub fn is_fully_supported(&self) -> (r: bool)
        ensures
            r == (self@.unsupported.len() == 0),
    {
        self.unsupported.len() == 0
    }
}

// ---------------------------------------------------------------------------
// Compiled ops
// ---------------------------------------------------------------------------

/// Op-specific parameters. Floating-point values are kept as their bits.
#[derive(Debug)]
pub enum OpParams {
    /// No parameters (e.g., Relu).
    Empty,
    /// Reshape: target shape.
    Reshape {
        /// Output dimensions.
        shape: Vec<usize>,
    },
    /// Conv2D parameters.
    Conv2d {
        /// Kernel size [H, W].
        kernel_shape: [usize; 2],
        /// Stride [H, W].
        strides: [usize; 2],
        /// Padding [top, left, bottom, right].
        pads: [usize; 4],
        /// Dilation [H, W].
        dilations: [usize; 2],
        /// Number of groups.
        group: usize,
    },
    /// Conv2D parameters, with a Relu of the result.
    Conv2dRelu {
        /// Kernel size [H, W].
        kernel_shape: [usize; 2],
        /// Stride [H, W].
        strides: [usize; 2],
        /// Padding [top, left, bottom, right].
        pads: [usize; 4],
        /// Dilation [H, W].
        dilations: [usize; 2],
        /// Number of groups.
        group: usize,
    },
    /// Gemm parameters.
    Gemm {
        /// Bits of the factor of the product.
        alpha: u32,
        /// Bits of the factor of the bias.
        beta: u32,
        /// Whether A is stored transposed.
        trans_a: bool,
        /// Whether B is stored transposed.
        trans_b: bool,
    },
    /// Softmax parameters.
    Softmax {
        /// Axis to normalize along.
        axis: i64,
    },
    /// Clip parameters (for Relu6).
    Clip {
        /// Bits of the lower bound.
        min: u32,
        /// Bits of the upper bound.
        max: u32,
    },
    /// GlobalAveragePool (no params, but distinct from Empty for clarity).
    GlobalAvgPool,
    /// Add (elementwise, no params).
    Add,
    /// MaxPool parameters.
    MaxPool {
        /// Kernel size [H, W].
        kernel_shape: [usize; 2],
        /// Stride [H, W].
        strides: [usize; 2],
        /// Padding [top, left, bottom, right].
        pads: [usize; 4],
    },
    /// AveragePool parameters.
    AvgPool {
        /// Kernel size [H, W].
        kernel_shape: [usize; 2],
        /// Stride [H, W].
        strides: [usize; 2],
        /// Padding [top, left, bottom, right].
        pads: [usize; 4],
    },
    /// Sigmoid (no params).
    Sigmoid,
    /// Mul (elementwise, no params).
    Mul,
    /// Sub (elementwise, no params).
    Sub,
    /// Div (elementwise, no params).
    Div,
    /// Concat parameters.
    Concat {
        /// Axis to concatenate along.
        axis: usize,
    },
    /// Resize parameters.
    Resize {
        /// Output height.
        out_h: usize,
        /// Output width.
        out_w: usize,
        /// Interpolation mode: "nearest" or "linear".
        mode: String,
    },
    /// Split parameters.
    Split {
        /// Axis to split along.
        axis: usize,
        /// Sizes of each split.
        split_sizes: Vec<usize>,
    },
    /// Transpose parameters.
    Transpose {
        /// Permutation array.
        perm: Vec<usize>,
    },
    /// Slice parameters.
    Slice {
        /// Start indices.
        starts: Vec<isize>,
        /// End indices.
        ends: Vec<isize>,
        /// Axes to slice.
        axes: Vec<usize>,
        /// Steps.
        steps: Vec<isize>,
    },
    /// Quantize to INT8.
    Quantize {
        /// Bits of the scale.
        scale: u32,
    },
    /// Dequantize from INT8.
    Dequantize {
        /// Bits of the scale.
        scale: u32,
    },
    /// Dequantize from INT8, one scale per channel.
    DequantizePerChannel {
        /// Bits of the scales.
        scales: Vec<u32>,
        /// Channel axis.
        axis: usize,
    },
    /// Requantize an INT32 accumulator to INT8.
    Requantize {
        /// Bits of the scale.
        scale: u32,
    },
    /// Add two INT8 tensors with different scales.
    AddQuantized {
        /// Bits of the scale of A over the output scale.
        scale_a_over_out: u32,
        /// Bits of the scale of B over the output scale.
        scale_b_over_out: u32,
    },
    /// INT8 convolution, requantization and optional Relu in one pass.
    Conv2dRequantReluI8Nhwc {
        /// Kernel size [H, W].
        kernel_shape: [usize; 2],
        /// Stride [H, W].
        strides: [usize; 2],
        /// Padding [top, left, bottom, right].
        pads: [usize; 4],
        /// Dilation [H, W].
        dilations: [usize; 2],
        /// Number of groups.
        group: usize,
        /// Bits of the requantization scale.
        requant_scale: u32,
        /// Whether negative results become 0.
        has_relu: bool,
    },
}

/// The contents of [`OpParams`].
pub enum ParamsView {
    Empty,
    Reshape { shape: Seq<usize> },
    Conv2d { kernel_shape: Seq<usize>, strides: Seq<usize>, pads: Seq<usize>, dilations: Seq<usize>, group: usize },
    Conv2dRelu { kernel_shape: Seq<usize>, strides: Seq<usize>, pads: Seq<usize>, dilations: Seq<usize>, group: usize },
    Gemm { alpha: u32, beta: u32, trans_a: bool, trans_b: bool },
    Softmax { axis: i64 },
    Clip { min: u32, max: u32 },
    GlobalAvgPool,
    Add,
    MaxPool { kernel_shape: Seq<usize>, strides: Seq<usize>, pads: Seq<usize> },
    AvgPool { kernel_shape: Seq<usize>, strides: Seq<usize>, pads: Seq<usize> },
    Sigmoid,
    Mul,
    Sub,
    Div,
    Concat { axis: usize },
    Resize { out_h: usize, out_w: usize, mode: Seq<char> },
    Split { axis: usize, split_sizes: Seq<usize> },
    Transpose { perm: Seq<usize> },
    Slice { starts: Seq<isize>, ends: Seq<isize>, axes: Seq<usize>, steps: Seq<isize> },
    Quantize { scale: u32 },
    Dequantize { scale: u32 },
    DequantizePerChannel { scales: Seq<u32>, axis: usize },
    Requantize { scale: u32 },
    AddQuantized { scale_a_over_out: u32, scale_b_over_out: u32 },
    Conv2dRequantReluI8Nhwc { kernel_shape: Seq<usize>, strides: Seq<usize>, pads: Seq<usize>, dilations: Seq<usize>, group: usize, requant_scale: u32, has_relu: bool },
}

impl View for OpParams {
    type V = ParamsView;

    open spec fn view(&self) -> ParamsView {
        match *self {
            OpParams::Empty => ParamsView::Empty,
            OpParams::Reshape { shape } => ParamsView::Reshape {
                shape: shape@,
            },
            OpParams::Conv2d { kernel_shape, strides, pads, dilations, group } => ParamsView::Conv2d {
                kernel_shape: kernel_shape@,
                strides: strides@,
                pads: pads@,
                dilations: dilations@,
                group,
            },
            OpParams::Conv2dRelu { kernel_shape, strides, pads, dilations, group } => ParamsView::Conv2dRelu {
                kernel_shape: kernel_shape@,
                strides: strides@,
                pads: pads@,
                dilations: dilations@,
                group,
            },
            OpParams::Gemm { alpha, beta, trans_a, trans_b } => ParamsView::Gemm {
                alpha,
                beta,
                trans_a,
                trans_b,
            },
            OpParams::Softmax { axis } => ParamsView::Softmax {
                axis,
            },
            OpParams::Clip { min, max } => ParamsView::Clip {
                min,
                max,
            },
            OpParams::GlobalAvgPool => ParamsView::GlobalAvgPool,
            OpParams::Add => ParamsView::Add,
            OpParams::MaxPool { kernel_shape, strides, pads } => ParamsView::MaxPool {
                kernel_shape: kernel_shape@,
                strides: strides@,
                pads: pads@,
            },
            OpParams::AvgPool { kernel_shape, strides, pads } => ParamsView::AvgPool {
                kernel_shape: kernel_shape@,
                strides: strides@,
                pads: pads@,
            },
            OpParams::Sigmoid => ParamsView::Sigmoid,
            OpParams::Mul => ParamsView::Mul,
            OpParams::Sub => ParamsView::Sub,
            OpParams::Div => ParamsView::Div,
            OpParams::Concat { axis } => ParamsView::Concat {
                axis,
            },
            OpParams::Resize { out_h, out_w, mode } => ParamsView::Resize {
                out_h,
                out_w,
                mode: mode@,
            },
            OpParams::Split { axis, split_sizes } => ParamsView::Split {
                axis,
                split_sizes: split_sizes@,
            },
            OpParams::Transpose { perm } => ParamsView::Transpose {
                perm: perm@,
            },
            OpParams::Slice { starts, ends, axes, steps } => ParamsView::Slice {
                starts: starts@,
                ends: ends@,
                axes: axes@,
                steps: steps@,
            },
            OpParams::Quantize { scale } => ParamsView::Quantize {
                scale,
            },
            OpParams::Dequantize { scale } => ParamsView::Dequantize {
                scale,
            },
            OpParams::DequantizePerChannel { scales, axis } => ParamsView::DequantizePerChannel {
                scales: scales@,
                axis,
            },
            OpParams::Requantize { scale } => ParamsView::Requantize {
                scale,
            },
            OpParams::AddQuantized { scale_a_over_out, scale_b_over_out } => ParamsView::AddQuantized {
                scale_a_over_out,
                scale_b_over_out,
            },
            OpParams::Conv2dRequantReluI8Nhwc { kernel_shape, strides, pads, dilations, group, requant_scale, has_relu } => ParamsView::Conv2dRequantReluI8Nhwc {
                kernel_shape: kernel_shape@,
                strides: strides@,
                pads: pads@,
                dilations: dilations@,
                group,
                requant_scale,
                has_relu,
            },
        }
    }
}

impl Clone for OpParams {
    fn clone(&self) -> (r: Self)
        ensures
            r@ == self@,
    {
        match self {
            OpParams::Empty => OpParams::Empty,
            OpParams::Reshape { shape } => OpParams::Reshape {
                shape: copy_vec(shape),
            },
            OpParams::Conv2d { kernel_shape, strides, pads, dilations, group } => OpParams::Conv2d {
                kernel_shape: *kernel_shape,
                strides: *strides,
                pads: *pads,
                dilations: *dilations,
                group: *group,
            },
            OpParams::Conv2dRelu { kernel_shape, strides, pads, dilations, group } => OpParams::Conv2dRelu {
                kernel_shape: *kernel_shape,
                strides: *strides,
                pads: *pads,
                dilations: *dilations,
                group: *group,
            },
            OpParams::Gemm { alpha, beta, trans_a, trans_b } => OpParams::Gemm {
                alpha: *alpha,
                beta: *beta,
                trans_a: *trans_a,
                trans_b: *trans_b,
            },
            OpParams::Softmax { axis } => OpParams::Softmax {
                axis: *axis,
            },
            OpParams::Clip { min, max } => OpParams::Clip {
                min: *min,
                max: *max,
            },
            OpParams::GlobalAvgPool => OpParams::GlobalAvgPool,
            OpParams::Add => OpParams::Add,
            OpParams::MaxPool { kernel_shape, strides, pads } => OpParams::MaxPool {
                kernel_shape: *kernel_shape,
                strides: *strides,
                pads: *pads,
            },
            OpParams::AvgPool { kernel_shape, strides, pads } => OpParams::AvgPool {
                kernel_shape: *kernel_shape,
                strides: *strides,
                pads: *pads,
            },
            OpParams::Sigmoid => OpParams::Sigmoid,
            OpParams::Mul => OpParams::Mul,
            OpParams::Sub => OpParams::Sub,
            OpParams::Div => OpParams::Div,
            OpParams::Concat { axis } => OpParams::Concat {
                axis: *axis,
            },
            OpParams::Resize { out_h, out_w, mode } => OpParams::Resize {
                out_h: *out_h,
                out_w: *out_w,
                mode: mode.clone(),
            },
            OpParams::Split { axis, split_sizes } => OpParams::Split {
                axis: *axis,
                split_sizes: copy_vec(split_sizes),
            },
            OpParams::Transpose { perm } => OpParams::Transpose {
                perm: copy_vec(perm),
            },
            OpParams::Slice { starts, ends, axes, steps } => OpParams::Slice {
                starts: copy_vec(starts),
                ends: copy_vec(ends),
                axes: copy_vec(axes),
                steps: copy_vec(steps),
            },
            OpParams::Quantize { scale } => OpParams::Quantize {
                scale: *scale,
            },
            OpParams::Dequantize { scale } => OpParams::Dequantize {
                scale: *scale,
            },
            OpParams::DequantizePerChannel { scales, axis } => OpParams::DequantizePerChannel {
                scales: copy_vec(scales),
                axis: *axis,
            },
            OpParams::Requantize { scale } => OpParams::Requantize {
                scale: *scale,
            },
            OpParams::AddQuantized { scale_a_over_out, scale_b_over_out } => OpParams::AddQuantized {
                scale_a_over_out: *scale_a_over_out,
                scale_b_over_out: *scale_b_over_out,
            },
            OpParams::Conv2dRequantReluI8Nhwc { kernel_shape, strides, pads, dilations, group, requant_scale, has_relu } => OpParams::Conv2dRequantReluI8Nhwc {
                kernel_shape: *kernel_shape,
                strides: *strides,
                pads: *pads,
                dilations: *dilations,
                group: *group,
                requant_scale: *requant_scale,
                has_relu: *has_relu,
            },
        }
    }
}

/// A compiled op ready for execution.
#[derive(Debug)]
pub struct CompiledOp {
    /// Node name (for debugging).
    pub name: String,
    /// Op type.
    pub op_type: String,
    /// Input tensor names.
    pub inputs: Vec<String>,
    /// Output tensor names.
    pub outputs: Vec<String>,
    /// Op-specific parameters.
    pub params: OpParams,
}

/// The contents of a [`CompiledOp`].
pub struct OpView {
    pub name: Seq<char>,
    pub op_type: Seq<char>,
    pub inputs: Seq<Seq<char>>,
    pub outputs: Seq<Seq<char>>,
    pub params: ParamsView,
}

impl View for CompiledOp {
    type V = OpView;

    open spec fn view(&self) -> OpView {
        OpView {
            name: self.name@,
            op_type: self.op_type@,
            inputs: views(self.inputs@),
            outputs: views(self.outputs@),
            params: self.params@,
        }
    }
}

impl Clone for CompiledOp {
    fn clone(&self) -> (r: Self)
        ensures
            r@ == self@,
    {
        CompiledOp {
            name: self.name.clone(),
            op_type: self.op_type.clone(),
            inputs: copy_names(&self.inputs),
            outputs: copy_names(&self.outputs),
            params: self.params.clone(),
        }
    }
}

// ---------------------------------------------------------------------------
// Context
// ---------------------------------------------------------------------------

/// Context for building ops.
pub struct BuildContext<'a> {
    /// The dtype the graph is being compiled in.
    pub dtype: Dtype,
    /// Symbol table: tensor name to shape.
    pub shapes: NameMap<TensorShape>,
    /// Initializers (constant tensors from model).
    pub initializers: &'a NameMap<OnnxTensor>,
    /// Constants computed while compiling.
    pub constants: NameMap<Vec<u8>>,
}

/// The contents of a [`BuildContext`].
pub struct ContextView {
    pub dtype: Dtype,
    pub shapes: Map<Seq<char>, ShapeView>,
    pub initializers: Map<Seq<char>, TensorView>,
    pub constants: Map<Seq<char>, Seq<u8>>,
}

impl<'a> View for BuildContext<'a> {
    type V = ContextView;

    open spec fn view(&self) -> ContextView {
        ContextView {
            dtype: self.dtype,
            shapes: self.shapes@,
            initializers: self.initializers@,
            constants: self.constants@,
        }
    }
}

impl ContextView {
    /// The context with the shape of one tensor set.
    pub open spec fn with_shape(self, name: Seq<char>, shape: ShapeView) -> ContextView {
        ContextView { shapes: self.shapes.insert(name, shape), ..self }
    }

    /// The context with one computed constant set.
    pub open spec fn with_constant(self, name: Seq<char>, data: Seq<u8>) -> ContextView {
        ContextView { constants: self.constants.insert(name, data), ..self }
    }

    /// Whether a tensor is known while compiling.
    pub open spec fn is_constant(self, name: Seq<char>) -> bool {
        self.initializers.dom().contains(name) || self.constants.dom().contains(name)
    }

    /// The bytes of a tensor known while compiling; an initializer goes first.
    pub open spec fn constant_data(self, name: Seq<char>) -> Option<Seq<u8>> {
        if self.initializers.dom().contains(name) {
            Some(self.initializers[name].data)
        } else if self.constants.dom().contains(name) {
            Some(self.constants[name])
        } else {
            None
        }
    }
}

impl<'a> BuildContext<'a> {
    /// Create a new build context.
    pub fn new(dtype: Dtype, initializers: &'a NameMap<OnnxTensor>) -> (r: BuildContext<'a>)
        ensures
            r@ == (ContextView {
                dtype,
                shapes: Map::empty(),
                initializers: initializers@,
                constants: Map::empty(),
            }),
    {
        BuildContext { dtype, shapes: NameMap::new(), initializers, constants: NameMap::new() }
    }

    /// Get the shape of a tensor by name.
    pub fn get_shape(&self, name: &str) -> (r: Option<&TensorShape>)
        ensures
            match r {
                Some(s) => self@.shapes.dom().contains(name@) && s@ == self@.shapes[name@],
                None => !self@.shapes.dom().contains(name@),
            },
    {
        self.shapes.get(name)
    }

    /// Set the shape of a tensor.
    pub fn set_shape(&mut self, name: String, shape: TensorShape)
        ensures
            final(self)@ == old(self)@.with_shape(name@, shape@),
    {
        self.shapes.insert(name, shape);
    }

    /// Check if a tensor is an initializer (constant).
    pub fn is_initializer(&self, name: &str) -> (r: bool)
        ensures
            r == self@.initializers.dom().contains(name@),
    {
        self.initializers.contains_key(name)
    }

    /// Get an initializer by name.
    pub fn get_initializer(&self, name: &str) -> (r: Option<&OnnxTensor>)
        ensures
            match r {
                Some(t) => self@.initializers.dom().contains(name@) && t@
                    == self@.initializers[name@],
                None => !self@.initializers.dom().contains(name@),
            },
    {
        self.initializers.get(name)
    }

    /// Check if a tensor is a compile-time constant (initializer or folded).
    pub fn is_constant(&self, name: &str) -> (r: bool)
        ensures
            r == self@.is_constant(name@),
    {
        self.initializers.contains_key(name) || self.constants.contains_key(name)
    }

    /// Get constant data by name (checks both initializers and folded constants).
    pub fn get_constant_data(&self, name: &str) -> (r: Option<&[u8]>)
        ensures
            match r {
                Some(d) => self@.constant_data(name@) == Some(d@),
                None => self@.constant_data(name@) is None,
            },
    {
        match self.initializers.get(name) {
            Some(t) => Some(t.data.as_slice()),
            None => match self.constants.get(name) {
                Some(d) => Some(d.as_slice()),
                None => None,
            },
        }
    }

    /// Set a constant computed while compiling.
    pub fn set_constant(&mut self, name: String, data: Vec<u8>)
        ensures
            final(self)@ == old(self)@.with_constant(name@, data@),
    {
        self.constants.insert(name, data);
    }
}

} // verus!
