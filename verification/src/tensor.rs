//! Element types, quantization scales and static tensor shapes.

use vstd::prelude::*;
use crate::model::copy_vec;

verus! {

/// Element type of a tensor in a compiled graph.
#[derive(Debug, Clone, Copy, PartialEq, Eq, Structural)]
pub enum Dtype {
    /// 32-bit floating point.
    F32,
    /// 16-bit floating point.
    F16,
    /// 8-bit signed integer.
    I8,
    /// 32-bit signed integer.
    I32,
}

/// The name of an element type.
pub open spec fn dtype_name(d: Dtype) -> Seq<char> {
    match d {
        Dtype::F32 => "F32"@,
        Dtype::F16 => "F16"@,
        Dtype::I8 => "I8"@,
        Dtype::I32 => "I32"@,
    }
}

/// The name of an element type.
pub fn dtype_str(d: Dtype) -> (r: &'static str)
    ensures
        r@ == dtype_name(d),
{
    match d {
        Dtype::F32 => "F32",
        Dtype::F16 => "F16",
        Dtype::I8 => "I8",
        Dtype::I32 => "I32",
    }
}

/// Bytes per element.
pub open spec fn dtype_size(d: Dtype) -> usize {
    match d {
        Dtype::F32 => 4,
        Dtype::F16 => 2,
        Dtype::I8 => 1,
        Dtype::I32 => 4,
    }
}

impl Dtype {
    /// Bytes per element.
    pub fn size_bytes(self) -> (r: usize)
        ensures
            r == dtype_size(self),
    {
        match self {
            Dtype::F32 => 4,
            Dtype::F16 => 2,
            Dtype::I8 => 1,
            Dtype::I32 => 4,
        }
    }

    /// Whether elements are floating-point numbers.
    pub fn is_float(self) -> (r: bool)
        ensures
            r == (self is F32 || self is F16),
    {
        match self {
            Dtype::F32 => true,
            Dtype::F16 => true,
            _ => false,
        }
    }
}

/// A symmetric quantization scale for a whole tensor, as the bits of a single.
#[derive(Debug, Clone, Copy, PartialEq, Eq, Structural)]
pub struct QuantScale {
    /// Bits of the scale.
    pub scale: u32,
}

impl View for QuantScale {
    type V = u32;

    open spec fn view(&self) -> u32 {
        self.scale
    }
}

impl QuantScale {
    /// A scale with zero point 0.
    pub fn symmetric(scale: u32) -> (r: QuantScale)
        ensures
            r.scale == scale,
    {
        QuantScale { scale }
    }
}

/// One quantization scale per channel.
#[derive(Debug)]
pub struct PerChannelScale {
    /// Bits of the scales.
    pub scales: Vec<u32>,
}

impl View for PerChannelScale {
    type V = Seq<u32>;

    open spec fn view(&self) -> Seq<u32> {
        self.scales@
    }
}

impl Clone for PerChannelScale {
    fn clone(&self) -> (r: Self)
        ensures
            r@ == self@,
    {
        PerChannelScale { scales: copy_vec(&self.scales) }
    }
}

impl PerChannelScale {
    /// Scales in channel order.
    pub fn new(scales: Vec<u32>) -> (r: PerChannelScale)
        ensures
            r@ == scales@,
    {
        PerChannelScale { scales }
    }
}

/// Tensor shape (static, all dimensions known).
#[derive(Debug)]
pub struct TensorShape {
    /// Dimensions.
    pub dims: Vec<usize>,
    /// Data type.
    pub dtype: Dtype,
    /// Scale of a tensor quantized as a whole.
    pub scale: Option<QuantScale>,
    /// Scales of a tensor quantized channel by channel.
    pub per_channel_scales: Option<PerChannelScale>,
}

/// The contents of a [`TensorShape`].
pub struct ShapeView {
    pub dims: Seq<usize>,
    pub dtype: Dtype,
    pub scale: Option<u32>,
    pub per_channel_scales: Option<Seq<u32>>,
}

impl View for TensorShape {
    type V = ShapeView;

    open spec fn view(&self) -> ShapeView {
        ShapeView {
            dims: self.dims@,
            dtype: self.dtype,
            scale: match self.scale {
                Some(s) => Some(s.scale),
                None => None,
            },
            per_channel_scales: match self.per_channel_scales {
                Some(s) => Some(s@),
                None => None,
            },
        }
    }
}

impl Clone for TensorShape {
    fn clone(&self) -> (r: Self)
        ensures
            r@ == self@,
    {
        TensorShape {
            dims: copy_vec(&self.dims),
            dtype: self.dtype,
            scale: self.scale,
            per_channel_scales: match &self.per_channel_scales {
                Some(s) => Some(s.clone()),
                None => None,
            },
        }
    }
}

/// A shape without quantization scales.
pub open spec fn plain_shape(dims: Seq<usize>, dtype: Dtype) -> ShapeView {
    ShapeView { dims, dtype, scale: None, per_channel_scales: None }
}

/// The product of dimensions.
pub open spec fn numel(dims: Seq<usize>) -> nat
    decreases dims.len(),
{
    if dims.len() == 0 {
        1
    } else {
        numel(dims.drop_last()) * (dims.last() as nat)
    }
}

/// Every product of a run of leading dimensions is an index-sized number.
pub open spec fn products_fit(dims: Seq<usize>) -> bool {
    forall|k: int| 0 <= k <= dims.len() ==> #[trigger] numel(dims.take(k)) <= usize::MAX
}

/// The product of dimensions, if it and every partial product is an index-sized number.
pub fn checked_numel(dims: &[usize]) -> (r: Option<usize>)
    ensures
        match r {
            Some(n) => products_fit(dims@) && n == numel(dims@),
            None => !products_fit(dims@),
        },
{
    let mut n: usize = 1;
    let mut i: usize = 0;
    assert(dims@.take(0) =~= Seq::empty());
    while i < dims.len()
        invariant
            i <= dims@.len(),
            n == numel(dims@.take(i as int)),
            forall|k: int| 0 <= k <= i ==> #[trigger] numel(dims@.take(k)) <= usize::MAX,
        decreases dims@.len() - i,
    {
        assert(dims@.take(i + 1).drop_last() =~= dims@.take(i as int));
        match n.checked_mul(dims[i]) {
            Some(p) => {
                n = p;
            },
            None => {
                assert(numel(dims@.take(i + 1)) > usize::MAX);
                return None;
            },
        }
        i = i + 1;
    }
    assert(dims@.take(i as int) =~= dims@);
    Some(n)
}

impl TensorShape {
    /// Create a new shape.
    pub fn new(dims: Vec<usize>, dtype: Dtype) -> (r: TensorShape)
        ensures
            r@ == plain_shape(dims@, dtype),
    {
        TensorShape { dims, dtype, scale: None, per_channel_scales: None }
    }

    /// Total number of elements.
    pub fn numel(&self) -> (r: usize)
        requires
            products_fit(self@.dims),
        ensures
            r == numel(self@.dims),
    {
        match checked_numel(self.dims.as_slice()) {
            Some(n) => n,
            None => 0,
        }
    }

    /// Size in bytes.
    pub fn size_bytes(&self) -> (r: usize)
        requires
            products_fit(self@.dims),
            numel(self@.dims) * dtype_size(self@.dtype) <= usize::MAX,
        ensures
            r == numel(self@.dims) * dtype_size(self@.dtype),
    {
        self.numel() * self.dtype.size_bytes()
    }
}

} // verus!
