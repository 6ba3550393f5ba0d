//! Model representation and parser.
//!
//! A model is a protobuf message; the parts that are read are:
//!
//! ```text
//! ModelProto      1: ir_version   2: producer_name   7: graph   8: opset_import
//! OperatorSetId   2: version
//! GraphProto      1: node   5: initializer   11: input   12: output
//! NodeProto       1: input   2: output   3: name   4: op_type   5: attribute
//! TensorProto     1: dims   2: data_type   4: float_data   5: int32_data
//!                 7: int64_data   8: name   9: raw_data
//! AttributeProto  1: name   2: f   3: i   4: s   6: t   7: floats   8: ints
//! ValueInfoProto  1: name   2: type
//! TypeProto       1: tensor_type
//! TensorTypeProto 1: elem_type   2: shape
//! TensorShape     1: dim
//! Dimension       1: dim_value
//! ```
//!
//! Each `*_step` function below says what one field does to what has been
//! gathered so far, and [`message`] runs it over the fields of a message in
//! order; the first thing that goes wrong ends the parse. Floating-point
//! values are kept as their bits.

use vstd::prelude::*;
use vstd::string::*;
use vstd::utf8::{decode_utf8, valid_utf8};
use crate::error::{outcome, Error, ErrorView};
use crate::proto::{
    bytes_of, bytes_of_words32, bytes_of_words64, field_at, float_of, from_words32, from_words64,
    int32_of, int64_of, lemma_field_progress, packed_floats, packed_int64, parse_packed_floats,
    parse_packed_int64, string_of, to_words32, words32, Field, FieldView, ProtoReader, Step,
};
use crate::text::{concat2, concat3, dec_i64, dec_int, str_eq};

pub mod written;

verus! {

/// The items of a list, each seen through its view.
pub open spec fn views<T: View>(s: Seq<T>) -> Seq<T::V> {
    s.map_values(|x: T| x@)
}

/// Appending an item appends its view.
pub broadcast proof fn lemma_views_push<T: View>(s: Seq<T>, x: T)
    ensures
        #[trigger] views(s.push(x)) == views(s).push(x@),
{
    assert(views(s.push(x)) =~= views(s).push(x@));
}

/// A copy of a list of plain values.
pub fn copy_vec<T: Copy>(v: &Vec<T>) -> (r: Vec<T>)
    ensures
        r@ == v@,
{
    vstd::slice::slice_to_vec(v.as_slice())
}

/// A copy of a list of names.
pub fn copy_names(v: &Vec<String>) -> (r: Vec<String>)
    ensures
        r@ == v@,
{
    let mut r: Vec<String> = Vec::new();
    let mut i: usize = 0;
    while i < v.len()
        invariant
            i <= v@.len(),
            r@ == v@.subrange(0, i as int),
        decreases v@.len() - i,
    {
        r.push(v[i].clone());
        i = i + 1;
        assert(r@ =~= v@.subrange(0, i as int));
    }
    assert(v@.subrange(0, v@.len() as int) =~= v@);
    r
}

// ---------------------------------------------------------------------------
// Data types
// ---------------------------------------------------------------------------

/// Element types of tensors in a model.
#[derive(Debug, Clone, Copy, PartialEq, Eq, Structural)]
pub enum DataType {
    Undefined,
    Float,
    Uint8,
    Int8,
    Uint16,
    Int16,
    Int32,
    Int64,
    String,
    Bool,
    Float16,
    Double,
    Uint32,
    Uint64,
    Complex64,
    Complex128,
    Bfloat16,
}

impl View for DataType {
    type V = DataType;

    open spec fn view(&self) -> DataType {
        *self
    }
}

/// The number that stands for an element type in a model.
pub open spec fn data_type_number(t: DataType) -> i32 {
    match t {
        DataType::Undefined => 0,
        DataType::Float => 1,
        DataType::Uint8 => 2,
        DataType::Int8 => 3,
        DataType::Uint16 => 4,
        DataType::Int16 => 5,
        DataType::Int32 => 6,
        DataType::Int64 => 7,
        DataType::String => 8,
        DataType::Bool => 9,
        DataType::Float16 => 10,
        DataType::Double => 11,
        DataType::Uint32 => 12,
        DataType::Uint64 => 13,
        DataType::Complex64 => 14,
        DataType::Complex128 => 15,
        DataType::Bfloat16 => 16,
    }
}

/// The element type with a given number.
pub open spec fn data_type_of(n: i32) -> Result<DataType, ErrorView> {
    if 0 <= n <= 16 {
        Ok(choose|t: DataType| data_type_number(t) == n)
    } else {
        Err(ErrorView::Parse("unknown data type: "@ + dec_int(n as int)))
    }
}

/// Every element type is the one that its number stands for.
pub proof fn law_data_type_numbers(t: DataType)
    ensures
        data_type_of(data_type_number(t)) == Ok::<DataType, ErrorView>(t),
{
    let u = choose|u: DataType| data_type_number(u) == data_type_number(t);
    assert(data_type_number(u) == data_type_number(t));
}

impl DataType {
    /// The element type with the given number.
    pub fn try_from(value: i32) -> (r: Result<DataType, Error>)
        ensures
            outcome(r) == data_type_of(value),
    {
        let t: DataType = match value {
            0 => DataType::Undefined,
            1 => DataType::Float,
            2 => DataType::Uint8,
            3 => DataType::Int8,
            4 => DataType::Uint16,
            5 => DataType::Int16,
            6 => DataType::Int32,
            7 => DataType::Int64,
            8 => DataType::String,
            9 => DataType::Bool,
            10 => DataType::Float16,
            11 => DataType::Double,
            12 => DataType::Uint32,
            13 => DataType::Uint64,
            14 => DataType::Complex64,
            15 => DataType::Complex128,
            16 => DataType::Bfloat16,
            _ => {
                let d: String = dec_i64(value as i64);
                return Err(Error::Parse(concat2("unknown data type: ", d.as_str())));
            },
        };
        proof {
            law_data_type_numbers(t);
        }
        Ok(t)
    }
}

// ---------------------------------------------------------------------------
// Tensors, attributes, nodes
// ---------------------------------------------------------------------------

/// A tensor (used for initializers and attribute tensors).
#[derive(Debug)]
pub struct OnnxTensor {
    /// Tensor name.
    pub name: String,
    /// Dimensions.
    pub dims: Vec<i64>,
    /// Data type.
    pub data_type: DataType,
    /// Raw data bytes.
    pub data: Vec<u8>,
}

/// The contents of an [`OnnxTensor`].
pub struct TensorView {
    pub name: Seq<char>,
    pub dims: Seq<i64>,
    pub data_type: DataType,
    pub data: Seq<u8>,
}

impl View for OnnxTensor {
    type V = TensorView;

    open spec fn view(&self) -> TensorView {
        TensorView {
            name: self.name@,
            dims: self.dims@,
            data_type: self.data_type,
            data: self.data@,
        }
    }
}

impl Clone for OnnxTensor {
    fn clone(&self) -> (r: Self)
        ensures
            r@ == self@,
    {
        OnnxTensor {
            name: self.name.clone(),
            dims: copy_vec(&self.dims),
            data_type: self.data_type,
            data: copy_vec(&self.data),
        }
    }
}

/// The product of dimensions, each taken as an index-sized number.
pub open spec fn dims_product(dims: Seq<i64>) -> nat
    decreases dims.len(),
{
    if dims.len() == 0 {
        1
    } else {
        dims_product(dims.drop_last()) * (dims.last() as usize as nat)
    }
}

/// Every product of a run of leading dimensions is an index-sized number.
pub open spec fn dims_fit(dims: Seq<i64>) -> bool {
    forall|k: int| 0 <= k <= dims.len() ==> #[trigger] dims_product(dims.take(k)) <= usize::MAX
}

impl OnnxTensor {
    /// Get the total number of elements.
    pub fn numel(&self) -> (r: usize)
        requires
            dims_fit(self.dims@),
        ensures
            r == dims_product(self.dims@),
    {
        let mut n: usize = 1;
        let mut i: usize = 0;
        assert(self.dims@.take(0) =~= Seq::empty());
        while i < self.dims.len()
            invariant
                i <= self.dims@.len(),
                n == dims_product(self.dims@.take(i as int)),
                dims_fit(self.dims@),
            decreases self.dims@.len() - i,
        {
            proof {
                let next = self.dims@.take(i + 1);
                assert(next.drop_last() =~= self.dims@.take(i as int));
                assert(dims_product(next) <= usize::MAX);
            }
            n = n * (self.dims[i] as usize);
            i = i + 1;
        }
        assert(self.dims@.take(i as int) =~= self.dims@);
        n
    }

    /// The bits of the elements of a Float tensor.
    pub fn as_f32_slice(&self) -> (r: Option<Vec<u32>>)
        ensures
            match r {
                Some(v) => self.data_type == DataType::Float && self.data@.len() % 4 == 0 && v@
                    == words32(self.data@),
                None => self.data_type != DataType::Float || self.data@.len() % 4 != 0,
            },
    {
        if self.data_type != DataType::Float {
            return None;
        }
        if self.data.len() % 4 != 0 {
            return None;
        }
        Some(to_words32(self.data.as_slice()))
    }

    /// The elements of an Int64 tensor.
    pub fn as_i64_slice(&self) -> (r: Option<Vec<i64>>)
        ensures
            match r {
                Some(v) => self.data_type == DataType::Int64 && self.data@.len() % 8 == 0 && v@
                    == signed64(self.data@),
                None => self.data_type != DataType::Int64 || self.data@.len() % 8 != 0,
            },
    {
        if self.data_type != DataType::Int64 {
            return None;
        }
        if self.data.len() % 8 != 0 {
            return None;
        }
        Some(to_signed64(self.data.as_slice()))
    }
}

/// The little-endian 64-bit words of a byte string, as signed numbers.
pub open spec fn signed64(s: Seq<u8>) -> Seq<i64> {
    crate::proto::words64(s).map_values(|w: u64| w as i64)
}

/// The little-endian 64-bit words of a byte string, as signed numbers.
pub fn to_signed64(data: &[u8]) -> (r: Vec<i64>)
    ensures
        r@ == signed64(data@),
{
    let words: Vec<u64> = crate::proto::to_words64(data);
    let mut r: Vec<i64> = Vec::new();
    let mut i: usize = 0;
    while i < words.len()
        invariant
            i <= words@.len(),
            words@ == crate::proto::words64(data@),
            r@.len() == i,
            forall|k: int| 0 <= k < i ==> r@[k] == signed64(data@)[k],
        decreases words@.len() - i,
    {
        r.push(words[i] as i64);
        i = i + 1;
    }
    assert(r@ =~= signed64(data@));
    r
}

/// Possible attribute values. Floats are kept as their bits.
#[derive(Debug)]
pub enum AttributeValue {
    /// Integer value.
    Int(i64),
    /// Bits of a float value.
    Float(u32),
    /// String value.
    String(String),
    /// Tensor value.
    Tensor(OnnxTensor),
    /// Repeated integers.
    Ints(Vec<i64>),
    /// Bits of repeated floats.
    Floats(Vec<u32>),
    /// Repeated strings.
    Strings(Vec<String>),
}

/// The contents of an [`AttributeValue`].
pub enum AttributeValueView {
    Int(i64),
    Float(u32),
    String(Seq<char>),
    Tensor(TensorView),
    Ints(Seq<i64>),
    Floats(Seq<u32>),
    Strings(Seq<Seq<char>>),
}

impl View for AttributeValue {
    type V = AttributeValueView;

    open spec fn view(&self) -> AttributeValueView {
        match *self {
            AttributeValue::Int(v) => AttributeValueView::Int(v),
            AttributeValue::Float(v) => AttributeValueView::Float(v),
            AttributeValue::String(v) => AttributeValueView::String(v@),
            AttributeValue::Tensor(v) => AttributeValueView::Tensor(v@),
            AttributeValue::Ints(v) => AttributeValueView::Ints(v@),
            AttributeValue::Floats(v) => AttributeValueView::Floats(v@),
            AttributeValue::Strings(v) => AttributeValueView::Strings(views(v@)),
        }
    }
}

impl Clone for AttributeValue {
    fn clone(&self) -> (r: Self)
        ensures
            r@ == self@,
    {
        match self {
            AttributeValue::Int(v) => AttributeValue::Int(*v),
            AttributeValue::Float(v) => AttributeValue::Float(*v),
            AttributeValue::String(v) => AttributeValue::String(v.clone()),
            AttributeValue::Tensor(v) => AttributeValue::Tensor(v.clone()),
            AttributeValue::Ints(v) => AttributeValue::Ints(copy_vec(v)),
            AttributeValue::Floats(v) => AttributeValue::Floats(copy_vec(v)),
            AttributeValue::Strings(v) => AttributeValue::Strings(copy_names(v)),
        }
    }
}

impl AttributeValue {
    /// Get as int.
    pub fn as_int(&self) -> (r: Option<i64>)
        ensures
            r == match self@ {
                AttributeValueView::Int(v) => Some(v),
                _ => None,
            },
    {
        match self {
            AttributeValue::Int(v) => Some(*v),
            _ => None,
        }
    }

    /// Get the bits of a float.
    pub fn as_float(&self) -> (r: Option<u32>)
        ensures
            r == match self@ {
                AttributeValueView::Float(v) => Some(v),
                _ => None,
            },
    {
        match self {
            AttributeValue::Float(v) => Some(*v),
            _ => None,
        }
    }

    /// Get as string.
    pub fn as_string(&self) -> (r: Option<String>)
        ensures
            match r {
                Some(s) => self@ == AttributeValueView::String(s@),
                None => !(self@ is String),
            },
    {
        match self {
            AttributeValue::String(v) => Some(v.clone()),
            _ => None,
        }
    }

    /// Get as int array.
    pub fn as_ints(&self) -> (r: Option<Vec<i64>>)
        ensures
            match r {
                Some(v) => self@ == AttributeValueView::Ints(v@),
                None => !(self@ is Ints),
            },
    {
        match self {
            AttributeValue::Ints(v) => Some(copy_vec(v)),
            _ => None,
        }
    }

    /// Get the bits of a float array.
    pub fn as_floats(&self) -> (r: Option<Vec<u32>>)
        ensures
            match r {
                Some(v) => self@ == AttributeValueView::Floats(v@),
                None => !(self@ is Floats),
            },
    {
        match self {
            AttributeValue::Floats(v) => Some(copy_vec(v)),
            _ => None,
        }
    }

    /// Get as tensor.
    pub fn as_tensor(&self) -> (r: Option<&OnnxTensor>)
        ensures
            match r {
                Some(t) => self@ == AttributeValueView::Tensor(t@),
                None => !(self@ is Tensor),
            },
    {
        match self {
            AttributeValue::Tensor(t) => Some(t),
            _ => None,
        }
    }
}

/// An attribute on a node.
#[derive(Debug)]
pub struct OnnxAttribute {
    /// Attribute name.
    pub name: String,
    /// Attribute value.
    pub value: AttributeValue,
}

/// The contents of an [`OnnxAttribute`].
pub struct AttributeView {
    pub name: Seq<char>,
    pub value: AttributeValueView,
}

impl View for OnnxAttribute {
    type V = AttributeView;

    open spec fn view(&self) -> AttributeView {
        AttributeView { name: self.name@, value: self.value@ }
    }
}

impl Clone for OnnxAttribute {
    fn clone(&self) -> (r: Self)
        ensures
            r@ == self@,
    {
        OnnxAttribute { name: self.name.clone(), value: self.value.clone() }
    }
}

/// A node (op) in the model graph.
#[derive(Debug)]
pub struct OnnxNode {
    /// Node name (for debugging/error messages).
    pub name: String,
    /// Op type (e.g., "Conv", "Relu", "Add").
    pub op_type: String,
    /// Input tensor names.
    pub inputs: Vec<String>,
    /// Output tensor names.
    pub outputs: Vec<String>,
    /// Node attributes.
    pub attributes: Vec<OnnxAttribute>,
}

/// The contents of an [`OnnxNode`].
pub struct NodeView {
    pub name: Seq<char>,
    pub op_type: Seq<char>,
    pub inputs: Seq<Seq<char>>,
    pub outputs: Seq<Seq<char>>,
    pub attributes: Seq<AttributeView>,
}

impl View for OnnxNode {
    type V = NodeView;

    open spec fn view(&self) -> NodeView {
        NodeView {
            name: self.name@,
            op_type: self.op_type@,
            inputs: views(self.inputs@),
            outputs: views(self.outputs@),
            attributes: views(self.attributes@),
        }
    }
}

impl Clone for OnnxNode {
    fn clone(&self) -> (r: Self)
        ensures
            r@ == self@,
    {
        let mut attributes: Vec<OnnxAttribute> = Vec::new();
        let mut i: usize = 0;
        while i < self.attributes.len()
            invariant
                i <= self.attributes@.len(),
                views(attributes@) == views(self.attributes@).take(i as int),
            decreases self.attributes@.len() - i,
        {
            broadcast use lemma_views_push;

            let ghost before = attributes@;
            attributes.push(self.attributes[i].clone());
            i = i + 1;
            assert(views(before).push(self.attributes@[i - 1]@) =~= views(self.attributes@).take(
                i as int,
            ));
        }
        assert(views(self.attributes@).take(i as int) =~= views(self.attributes@));
        OnnxNode {
            name: self.name.clone(),
            op_type: self.op_type.clone(),
            inputs: copy_names(&self.inputs),
            outputs: copy_names(&self.outputs),
            attributes,
        }
    }
}

/// The value of the first attribute with a given name.
pub open spec fn attr_value(attrs: Seq<AttributeView>, name: Seq<char>) -> Option<AttributeValueView>
    decreases attrs.len(),
{
    if attrs.len() == 0 {
        None
    } else if attrs[0].name == name {
        Some(attrs[0].value)
    } else {
        attr_value(attrs.drop_first(), name)
    }
}

impl NodeView {
    /// The first attribute with this name, if it is an integer; otherwise the default.
    pub open spec fn attr_int(self, name: Seq<char>, default: i64) -> i64 {
        match attr_value(self.attributes, name) {
            Some(AttributeValueView::Int(v)) => v,
            _ => default,
        }
    }

    /// The first attribute with this name, if it is a list of integers; otherwise none.
    pub open spec fn attr_ints(self, name: Seq<char>) -> Seq<i64> {
        match attr_value(self.attributes, name) {
            Some(AttributeValueView::Ints(v)) => v,
            _ => Seq::empty(),
        }
    }

    /// The bits of the first attribute with this name, if it is a float; otherwise the default.
    pub open spec fn attr_float(self, name: Seq<char>, default: u32) -> u32 {
        match attr_value(self.attributes, name) {
            Some(AttributeValueView::Float(v)) => v,
            _ => default,
        }
    }

    /// The first attribute with this name, if it is text; otherwise the default.
    pub open spec fn attr_string(self, name: Seq<char>, default: Seq<char>) -> Seq<char> {
        match attr_value(self.attributes, name) {
            Some(AttributeValueView::String(v)) => v,
            _ => default,
        }
    }
}

impl OnnxNode {
    /// Get an attribute by name.
    pub fn get_attr(&self, name: &str) -> (r: Option<&OnnxAttribute>)
        ensures
            match r {
                Some(a) => attr_value(self@.attributes, name@) == Some(a@.value) && a@.name == name@,
                None => attr_value(self@.attributes, name@) is None,
            },
    {
        let mut i: usize = 0;
        assert(self@.attributes.skip(0) =~= self@.attributes);
        while i < self.attributes.len()
            invariant
                i <= self.attributes@.len(),
                attr_value(self@.attributes, name@) == attr_value(
                    self@.attributes.skip(i as int),
                    name@,
                ),
            decreases self.attributes@.len() - i,
        {
            assert(self@.attributes.skip(i as int)[0] == self.attributes@[i as int]@);
            assert(self@.attributes.skip(i as int).drop_first() =~= self@.attributes.skip(i + 1));
            if str_eq(self.attributes[i].name.as_str(), name) {
                return Some(&self.attributes[i]);
            }
            i = i + 1;
        }
        None
    }

    /// Get an int attribute, or default if not present.
    pub fn get_attr_int(&self, name: &str, default: i64) -> (r: i64)
        ensures
            r == self@.attr_int(name@, default),
    {
        match self.get_attr(name) {
            Some(a) => match a.value.as_int() {
                Some(v) => v,
                None => default,
            },
            None => default,
        }
    }

    /// Get an int array attribute, or empty if not present.
    pub fn get_attr_ints(&self, name: &str) -> (r: Vec<i64>)
        ensures
            r@ == self@.attr_ints(name@),
    {
        match self.get_attr(name) {
            Some(a) => match a.value.as_ints() {
                Some(v) => v,
                None => Vec::new(),
            },
            None => Vec::new(),
        }
    }

    /// Get the bits of a float attribute, or default if not present.
    pub fn get_attr_float(&self, name: &str, default: u32) -> (r: u32)
        ensures
            r == self@.attr_float(name@, default),
    {
        match self.get_attr(name) {
            Some(a) => match a.value.as_float() {
                Some(v) => v,
                None => default,
            },
            None => default,
        }
    }

    /// Get a string attribute, or default if not present.
    pub fn get_attr_string(&self, name: &str, default: &str) -> (r: String)
        ensures
            r@ == self@.attr_string(name@, default@),
    {
        match self.get_attr(name) {
            Some(a) => match a.value.as_string() {
                Some(v) => v,
                None => default.to_owned(),
            },
            None => default.to_owned(),
        }
    }
}

/// Value info (input/output metadata).
#[derive(Debug)]
pub struct ValueInfo {
    /// Tensor name.
    pub name: String,
    /// Shape dimensions (-1 for dynamic).
    pub shape: Vec<i64>,
    /// Data type.
    pub data_type: DataType,
}

/// The contents of a [`ValueInfo`].
pub struct ValueInfoView {
    pub name: Seq<char>,
    pub shape: Seq<i64>,
    pub data_type: DataType,
}

impl View for ValueInfo {
    type V = ValueInfoView;

    open spec fn view(&self) -> ValueInfoView {
        ValueInfoView { name: self.name@, shape: self.shape@, data_type: self.data_type }
    }
}

impl Clone for ValueInfo {
    fn clone(&self) -> (r: Self)
        ensures
            r@ == self@,
    {
        ValueInfo {
            name: self.name.clone(),
            shape: copy_vec(&self.shape),
            data_type: self.data_type,
        }
    }
}

/// A parsed model.
#[derive(Debug)]
pub struct Model {
    /// IR version.
    pub ir_version: i64,
    /// Opset version.
    pub opset_version: i64,
    /// Producer name (for debugging).
    pub producer_name: String,
    /// Model nodes (ops) in topological order.
    pub nodes: Vec<OnnxNode>,
    /// Initializers (constant tensors, typically weights).
    pub initializers: Vec<OnnxTensor>,
    /// Graph inputs (name + shape).
    pub inputs: Vec<ValueInfo>,
    /// Graph outputs (name + shape).
    pub outputs: Vec<ValueInfo>,
}

/// The graph inside a model.
pub struct GraphProtoView {
    pub nodes: Seq<NodeView>,
    pub initializers: Seq<TensorView>,
    pub inputs: Seq<ValueInfoView>,
    pub outputs: Seq<ValueInfoView>,
}

/// The contents of a [`Model`].
pub struct ModelView {
    pub ir_version: i64,
    pub opset_version: i64,
    pub producer_name: Seq<char>,
    pub graph: GraphProtoView,
}

impl View for Model {
    type V = ModelView;

    open spec fn view(&self) -> ModelView {
        ModelView {
            ir_version: self.ir_version,
            opset_version: self.opset_version,
            producer_name: self.producer_name@,
            graph: GraphProtoView {
                nodes: views(self.nodes@),
                initializers: views(self.initializers@),
                inputs: views(self.inputs@),
                outputs: views(self.outputs@),
            },
        }
    }
}

// ---------------------------------------------------------------------------
// What a message says
// ---------------------------------------------------------------------------

/// Takes the fields of a message from `pos` on, in order. Each changes what has
/// been gathered or ends the parse with an error; bytes that are no field end
/// it too.
pub open spec fn message<A>(
    s: Seq<u8>,
    pos: int,
    acc: A,
    step: spec_fn(A, FieldView) -> Result<A, ErrorView>,
) -> Result<A, ErrorView>
    decreases s.len() - pos,
{
    if pos < 0 || pos > s.len() {
        Ok(acc)
    } else {
        proof {
            lemma_field_progress(s, pos);
        }
        match field_at(s, pos) {
            Step::End => Ok(acc),
            Step::Bad(e, _) => Err(e),
            Step::Field(f, next) => match step(acc, f) {
                Ok(a) => message(s, next, a, step),
                Err(e) => Err(e),
            },
        }
    }
}

/// An operator set: the last field 2 is its version.
pub open spec fn opset_step() -> spec_fn(i64, FieldView) -> Result<i64, ErrorView> {
    |acc: i64, f: FieldView|
        if f.field_number == 2 {
            int64_of(f.data)
        } else {
            Ok(acc)
        }
}

pub open spec fn opset_message(s: Seq<u8>, pos: int) -> Result<i64, ErrorView> {
    message(s, pos, 0i64, opset_step())
}

/// A dimension: the last field 1 is its size; -1 stands for a dynamic one.
pub open spec fn dimension_step() -> spec_fn(i64, FieldView) -> Result<i64, ErrorView> {
    |acc: i64, f: FieldView|
        if f.field_number == 1 {
            int64_of(f.data)
        } else {
            Ok(acc)
        }
}

pub open spec fn dimension_message(s: Seq<u8>, pos: int) -> Result<i64, ErrorView> {
    message(s, pos, -1i64, dimension_step())
}

/// A shape: each field 1 is one more dimension.
pub open spec fn shape_step() -> spec_fn(Seq<i64>, FieldView) -> Result<Seq<i64>, ErrorView> {
    |acc: Seq<i64>, f: FieldView|
        if f.field_number == 1 {
            match bytes_of(f.data) {
                Ok(b) => match dimension_message(b, 0) {
                    Ok(d) => Ok(acc.push(d)),
                    Err(e) => Err(e),
                },
                Err(e) => Err(e),
            }
        } else {
            Ok(acc)
        }
}

pub open spec fn shape_message(s: Seq<u8>, pos: int) -> Result<Seq<i64>, ErrorView> {
    message(s, pos, Seq::<i64>::empty(), shape_step())
}

/// A tensor type: element type (field 1) and shape (field 2).
pub open spec fn tensor_type_step() -> spec_fn((DataType, Seq<i64>), FieldView) -> Result<
    (DataType, Seq<i64>),
    ErrorView,
> {
    |acc: (DataType, Seq<i64>), f: FieldView|
        if f.field_number == 1 {
            match int32_of(f.data) {
                Ok(n) => match data_type_of(n) {
                    Ok(t) => Ok((t, acc.1)),
                    Err(e) => Err(e),
                },
                Err(e) => Err(e),
            }
        } else if f.field_number == 2 {
            match bytes_of(f.data) {
                Ok(b) => match shape_message(b, 0) {
                    Ok(d) => Ok((acc.0, d)),
                    Err(e) => Err(e),
                },
                Err(e) => Err(e),
            }
        } else {
            Ok(acc)
        }
}

pub open spec fn tensor_type_message(s: Seq<u8>, pos: int) -> Result<
    (DataType, Seq<i64>),
    ErrorView,
> {
    message(s, pos, (DataType::Float, Seq::<i64>::empty()), tensor_type_step())
}

/// A type: the last field 1 is a tensor type.
pub open spec fn type_step() -> spec_fn((DataType, Seq<i64>), FieldView) -> Result<
    (DataType, Seq<i64>),
    ErrorView,
> {
    |acc: (DataType, Seq<i64>), f: FieldView|
        if f.field_number == 1 {
            match bytes_of(f.data) {
                Ok(b) => tensor_type_message(b, 0),
                Err(e) => Err(e),
            }
        } else {
            Ok(acc)
        }
}

pub open spec fn type_message(s: Seq<u8>, pos: int) -> Result<(DataType, Seq<i64>), ErrorView> {
    message(s, pos, (DataType::Float, Seq::<i64>::empty()), type_step())
}

/// Value info: name (field 1) and type (field 2).
pub open spec fn value_info_step() -> spec_fn(ValueInfoView, FieldView) -> Result<
    ValueInfoView,
    ErrorView,
> {
    |acc: ValueInfoView, f: FieldView|
        if f.field_number == 1 {
            match string_of(f.data) {
                Ok(n) => Ok(ValueInfoView { name: n, ..acc }),
                Err(e) => Err(e),
            }
        } else if f.field_number == 2 {
            match bytes_of(f.data) {
                Ok(b) => match type_message(b, 0) {
                    Ok(t) => Ok(ValueInfoView { data_type: t.0, shape: t.1, ..acc }),
                    Err(e) => Err(e),
                },
                Err(e) => Err(e),
            }
        } else {
            Ok(acc)
        }
}

pub open spec fn value_info_message(s: Seq<u8>, pos: int) -> Result<ValueInfoView, ErrorView> {
    message(
        s,
        pos,
        ValueInfoView { name: Seq::empty(), shape: Seq::empty(), data_type: DataType::Float },
        value_info_step(),
    )
}

/// What has been gathered of a tensor.
pub struct TensorParts {
    pub name: Seq<char>,
    pub dims: Seq<i64>,
    pub data_type: DataType,
    pub raw: Option<Seq<u8>>,
    pub floats: Seq<u32>,
    pub int64s: Seq<i64>,
    pub int32s: Seq<u32>,
}

/// The low 32 bits of numbers.
pub open spec fn low_words(v: Seq<i64>) -> Seq<u32> {
    v.map_values(|x: i64| x as u32)
}

fn to_low_words(v: &Vec<i64>) -> (r: Vec<u32>)
    ensures
        r@ == low_words(v@),
{
    let mut r: Vec<u32> = Vec::new();
    let mut i: usize = 0;
    while i < v.len()
        invariant
            i <= v@.len(),
            r@ == low_words(v@).take(i as int),
        decreases v@.len() - i,
    {
        r.push(
            #[verifier::truncate]
            (v[i] as u32),
        );
        i = i + 1;
        assert(r@ =~= low_words(v@).take(i as int));
    }
    assert(low_words(v@).take(i as int) =~= low_words(v@));
    r
}

/// A tensor: dims (1), element type (2), data as floats (4), 32-bit integers
/// (5, varints whose low 32 bits count, gathered over all such fields), 64-bit integers (7) or bytes (9), name (8).
pub open spec fn tensor_step() -> spec_fn(TensorParts, FieldView) -> Result<TensorParts, ErrorView> {
    |acc: TensorParts, f: FieldView|
        if f.field_number == 1 {
            match bytes_of(f.data) {
                Ok(b) => match packed_int64(b) {
                    Ok(d) => Ok(TensorParts { dims: d, ..acc }),
                    Err(e) => Err(e),
                },
                Err(e) => Err(e),
            }
        } else if f.field_number == 2 {
            match int32_of(f.data) {
                Ok(n) => match data_type_of(n) {
                    Ok(t) => Ok(TensorParts { data_type: t, ..acc }),
                    Err(e) => Err(e),
                },
                Err(e) => Err(e),
            }
        } else if f.field_number == 4 {
            match bytes_of(f.data) {
                Ok(b) => match packed_floats(b) {
                    Ok(v) => Ok(TensorParts { floats: v, ..acc }),
                    Err(e) => Err(e),
                },
                Err(e) => Err(e),
            }
        } else if f.field_number == 5 {
            match bytes_of(f.data) {
                Ok(b) => match packed_int64(b) {
                    Ok(v) => Ok(TensorParts { int32s: acc.int32s + low_words(v), ..acc }),
                    Err(e) => Err(e),
                },
                Err(e) => Err(e),
            }
        } else if f.field_number == 7 {
            match bytes_of(f.data) {
                Ok(b) => match packed_int64(b) {
                    Ok(v) => Ok(TensorParts { int64s: v, ..acc }),
                    Err(e) => Err(e),
                },
                Err(e) => Err(e),
            }
        } else if f.field_number == 8 {
            match string_of(f.data) {
                Ok(n) => Ok(TensorParts { name: n, ..acc }),
                Err(e) => Err(e),
            }
        } else if f.field_number == 9 {
            match bytes_of(f.data) {
                Ok(b) => Ok(TensorParts { raw: Some(b), ..acc }),
                Err(e) => Err(e),
            }
        } else {
            Ok(acc)
        }
}

/// The bytes of signed 64-bit numbers.
pub open spec fn bytes_of_signed64(v: Seq<i64>) -> Seq<u8> {
    bytes_of_words64(v.map_values(|x: i64| x as u64))
}

/// The data of a tensor: raw bytes if there are any, else floats, else 64-bit
/// integers, else 32-bit integers.
pub open spec fn tensor_data(t: TensorParts) -> Seq<u8> {
    if t.raw is Some {
        t.raw->0
    } else if t.floats.len() > 0 {
        bytes_of_words32(t.floats)
    } else if t.int64s.len() > 0 {
        bytes_of_signed64(t.int64s)
    } else if t.int32s.len() > 0 {
        bytes_of_words32(t.int32s)
    } else {
        Seq::empty()
    }
}

pub open spec fn empty_tensor_parts() -> TensorParts {
    TensorParts {
        name: Seq::empty(),
        dims: Seq::empty(),
        data_type: DataType::Float,
        raw: None,
        floats: Seq::empty(),
        int64s: Seq::empty(),
        int32s: Seq::empty(),
    }
}

pub open spec fn tensor_message(s: Seq<u8>, pos: int) -> Result<TensorView, ErrorView> {
    match message(s, pos, empty_tensor_parts(), tensor_step()) {
        Ok(t) => Ok(
            TensorView { name: t.name, dims: t.dims, data_type: t.data_type, data: tensor_data(t) },
        ),
        Err(e) => Err(e),
    }
}

/// The text that `String::from_utf8_lossy` makes of bytes.
pub uninterp spec fn lossy_text(bytes: Seq<u8>) -> Seq<char>;

/// Calls `String::from_utf8_lossy`. Valid UTF-8 gives the text it encodes; what
/// stands for other bytes is a function of the bytes, named [`lossy_text`].
#[verifier::external_body]
fn text_from_utf8_lossy(bytes: &[u8]) -> (r: String)
    ensures
        r@ == lossy_text(bytes@),
        valid_utf8(bytes@) ==> r@ == decode_utf8(bytes@),
{
    String::from_utf8_lossy(bytes).to_string()
}

/// What has been gathered of an attribute; no value yet counts as an empty list of integers.
pub open spec fn attribute_step() -> spec_fn(AttributeView, FieldView) -> Result<
    AttributeView,
    ErrorView,
> {
    |acc: AttributeView, f: FieldView|
        if f.field_number == 1 {
            match string_of(f.data) {
                Ok(n) => Ok(AttributeView { name: n, ..acc }),
                Err(e) => Err(e),
            }
        } else if f.field_number == 2 {
            match float_of(f.data) {
                Ok(v) => Ok(AttributeView { value: AttributeValueView::Float(v), ..acc }),
                Err(e) => Err(e),
            }
        } else if f.field_number == 3 {
            match int64_of(f.data) {
                Ok(v) => Ok(AttributeView { value: AttributeValueView::Int(v), ..acc }),
                Err(e) => Err(e),
            }
        } else if f.field_number == 4 {
            match bytes_of(f.data) {
                Ok(b) => Ok(
                    AttributeView { value: AttributeValueView::String(lossy_text(b)), ..acc },
                ),
                Err(e) => Err(e),
            }
        } else if f.field_number == 6 {
            match bytes_of(f.data) {
                Ok(b) => match tensor_message(b, 0) {
                    Ok(t) => Ok(AttributeView { value: AttributeValueView::Tensor(t), ..acc }),
                    Err(e) => Err(e),
                },
                Err(e) => Err(e),
            }
        } else if f.field_number == 7 {
            match bytes_of(f.data) {
                Ok(b) => match packed_floats(b) {
                    Ok(v) => Ok(AttributeView { value: AttributeValueView::Floats(v), ..acc }),
                    Err(e) => Err(e),
                },
                Err(e) => Err(e),
            }
        } else if f.field_number == 8 {
            match bytes_of(f.data) {
                Ok(b) => match packed_int64(b) {
                    Ok(v) => Ok(AttributeView { value: AttributeValueView::Ints(v), ..acc }),
                    Err(e) => Err(e),
                },
                Err(e) => Err(e),
            }
        } else {
            Ok(acc)
        }
}

pub open spec fn attribute_message(s: Seq<u8>, pos: int) -> Result<AttributeView, ErrorView> {
    message(
        s,
        pos,
        AttributeView { name: Seq::empty(), value: AttributeValueView::Ints(Seq::empty()) },
        attribute_step(),
    )
}

/// A node: inputs (1), outputs (2), name (3), op type (4), attributes (5).
pub open spec fn node_step() -> spec_fn(NodeView, FieldView) -> Result<NodeView, ErrorView> {
    |acc: NodeView, f: FieldView|
        if f.field_number == 1 {
            match string_of(f.data) {
                Ok(n) => Ok(NodeView { inputs: acc.inputs.push(n), ..acc }),
                Err(e) => Err(e),
            }
        } else if f.field_number == 2 {
            match string_of(f.data) {
                Ok(n) => Ok(NodeView { outputs: acc.outputs.push(n), ..acc }),
                Err(e) => Err(e),
            }
        } else if f.field_number == 3 {
            match string_of(f.data) {
                Ok(n) => Ok(NodeView { name: n, ..acc }),
                Err(e) => Err(e),
            }
        } else if f.field_number == 4 {
            match string_of(f.data) {
                Ok(n) => Ok(NodeView { op_type: n, ..acc }),
                Err(e) => Err(e),
            }
        } else if f.field_number == 5 {
            match bytes_of(f.data) {
                Ok(b) => match attribute_message(b, 0) {
                    Ok(a) => Ok(NodeView { attributes: acc.attributes.push(a), ..acc }),
                    Err(e) => Err(e),
                },
                Err(e) => Err(e),
            }
        } else {
            Ok(acc)
        }
}

/// The name of a node: its own, or one made of its op type and first output.
pub open spec fn named(n: NodeView) -> NodeView {
    if n.name.len() > 0 {
        n
    } else {
        NodeView {
            name: n.op_type + "_"@ + (if n.outputs.len() > 0 {
                n.outputs[0]
            } else {
                "unnamed"@
            }),
            ..n
        }
    }
}

pub open spec fn empty_node() -> NodeView {
    NodeView {
        name: Seq::empty(),
        op_type: Seq::empty(),
        inputs: Seq::empty(),
        outputs: Seq::empty(),
        attributes: Seq::empty(),
    }
}

pub open spec fn node_message(s: Seq<u8>, pos: int) -> Result<NodeView, ErrorView> {
    match message(s, pos, empty_node(), node_step()) {
        Ok(n) => Ok(named(n)),
        Err(e) => Err(e),
    }
}

/// A graph: nodes (1), initializers (5), inputs (11), outputs (12).
pub open spec fn graph_step() -> spec_fn(GraphProtoView, FieldView) -> Result<
    GraphProtoView,
    ErrorView,
> {
    |acc: GraphProtoView, f: FieldView|
        if f.field_number == 1 {
            match bytes_of(f.data) {
                Ok(b) => match node_message(b, 0) {
                    Ok(n) => Ok(GraphProtoView { nodes: acc.nodes.push(n), ..acc }),
                    Err(e) => Err(e),
                },
                Err(e) => Err(e),
            }
        } else if f.field_number == 5 {
            match bytes_of(f.data) {
                Ok(b) => match tensor_message(b, 0) {
                    Ok(t) => Ok(GraphProtoView { initializers: acc.initializers.push(t), ..acc }),
                    Err(e) => Err(e),
                },
                Err(e) => Err(e),
            }
        } else if f.field_number == 11 {
            match bytes_of(f.data) {
                Ok(b) => match value_info_message(b, 0) {
                    Ok(v) => Ok(GraphProtoView { inputs: acc.inputs.push(v), ..acc }),
                    Err(e) => Err(e),
                },
                Err(e) => Err(e),
            }
        } else if f.field_number == 12 {
            match bytes_of(f.data) {
                Ok(b) => match value_info_message(b, 0) {
                    Ok(v) => Ok(GraphProtoView { outputs: acc.outputs.push(v), ..acc }),
                    Err(e) => Err(e),
                },
                Err(e) => Err(e),
            }
        } else {
            Ok(acc)
        }
}

pub open spec fn empty_graph_proto() -> GraphProtoView {
    GraphProtoView {
        nodes: Seq::empty(),
        initializers: Seq::empty(),
        inputs: Seq::empty(),
        outputs: Seq::empty(),
    }
}

pub open spec fn graph_message(s: Seq<u8>, pos: int) -> Result<GraphProtoView, ErrorView> {
    message(s, pos, empty_graph_proto(), graph_step())
}

/// A model: IR version (1), producer (2), graph (the last 7), operator sets (8,
/// of which the highest version counts).
pub open spec fn model_step() -> spec_fn(ModelView, FieldView) -> Result<ModelView, ErrorView> {
    |acc: ModelView, f: FieldView|
        if f.field_number == 1 {
            match int64_of(f.data) {
                Ok(v) => Ok(ModelView { ir_version: v, ..acc }),
                Err(e) => Err(e),
            }
        } else if f.field_number == 2 {
            match string_of(f.data) {
                Ok(n) => Ok(ModelView { producer_name: n, ..acc }),
                Err(e) => Err(e),
            }
        } else if f.field_number == 7 {
            match bytes_of(f.data) {
                Ok(b) => match graph_message(b, 0) {
                    Ok(g) => Ok(ModelView { graph: g, ..acc }),
                    Err(e) => Err(e),
                },
                Err(e) => Err(e),
            }
        } else if f.field_number == 8 {
            match bytes_of(f.data) {
                Ok(b) => match opset_message(b, 0) {
                    Ok(v) => Ok(
                        ModelView {
                            opset_version: if v > acc.opset_version {
                                v
                            } else {
                                acc.opset_version
                            },
                            ..acc
                        },
                    ),
                    Err(e) => Err(e),
                },
                Err(e) => Err(e),
            }
        } else {
            Ok(acc)
        }
}

pub open spec fn empty_model() -> ModelView {
    ModelView {
        ir_version: 0,
        opset_version: 0,
        producer_name: Seq::empty(),
        graph: empty_graph_proto(),
    }
}

/// The one operator set version that is supported.
pub const OPSET_VERSION: i64 = 12;

/// What the bytes of a model file say.
pub open spec fn model_message(s: Seq<u8>) -> Result<ModelView, ErrorView> {
    match message(s, 0, empty_model(), model_step()) {
        Ok(m) => if m.opset_version == OPSET_VERSION {
            Ok(m)
        } else {
            Err(
                ErrorView::UnsupportedOpset { found: m.opset_version, expected: OPSET_VERSION },
            )
        },
        Err(e) => Err(e),
    }
}

// ---------------------------------------------------------------------------
// Parsing
// ---------------------------------------------------------------------------

/// Parse an operator set id.
pub fn parse_opset(reader: ProtoReader<'_>) -> (r: Result<i64, Error>)
    ensures
        outcome(r) == opset_message(reader.bytes(), reader.position()),
{
    let mut version: i64 = 0;
    let ghost s = reader.bytes();
    let ghost start = reader.position();
    let mut input: ProtoReader<'_> = reader;
    loop
        invariant
            s == reader.bytes(),
            start == reader.position(),
            input.bytes() == s,
            message(s, input.position(), version, opset_step()) == message(s, start, 0i64, opset_step()),
        ensures
            Ok::<i64, ErrorView>(version) == message(s, start, 0i64, opset_step()),
        decreases s.len() - input.position(),
    {
        let field: Field<'_> = match input.read_field() {
            Err(e) => return Err(e),
            Ok(None) => {
                break;
            },
            Ok(Some(f)) => f,
        };
        if field.field_number == 2 {
            version = match field.data.as_int64() {
                Ok(v) => v,
                Err(e) => return Err(e),
            };
        }
    }
    Ok(version)
}

/// Parse one dimension of a shape.
pub fn parse_dimension(reader: ProtoReader<'_>) -> (r: Result<i64, Error>)
    ensures
        outcome(r) == dimension_message(reader.bytes(), reader.position()),
{
    let mut value: i64 = -1;
    let ghost s = reader.bytes();
    let ghost start = reader.position();
    let mut input: ProtoReader<'_> = reader;
    loop
        invariant
            s == reader.bytes(),
            start == reader.position(),
            input.bytes() == s,
            message(s, input.position(), value, dimension_step()) == message(s, start, -1i64, dimension_step()),
        ensures
            Ok::<i64, ErrorView>(value) == message(s, start, -1i64, dimension_step()),
        decreases s.len() - input.position(),
    {
        let field: Field<'_> = match input.read_field() {
            Err(e) => return Err(e),
            Ok(None) => {
                break;
            },
            Ok(Some(f)) => f,
        };
        if field.field_number == 1 {
            value = match field.data.as_int64() {
                Ok(v) => v,
                Err(e) => return Err(e),
            };
        }
    }
    Ok(value)
}

/// Parse a tensor shape.
pub fn parse_tensor_shape(reader: ProtoReader<'_>) -> (r: Result<Vec<i64>, Error>)
    ensures
        outcome(r) == shape_message(reader.bytes(), reader.position()),
{
    let mut dims: Vec<i64> = Vec::new();
    let ghost s = reader.bytes();
    let ghost start = reader.position();
    let mut input: ProtoReader<'_> = reader;
    loop
        invariant
            s == reader.bytes(),
            start == reader.position(),
            input.bytes() == s,
            message(s, input.position(), dims@, shape_step()) == message(s, start, Seq::<i64>::empty(), shape_step()),
        ensures
            Ok::<Seq<i64>, ErrorView>(dims@) == message(s, start, Seq::<i64>::empty(), shape_step()),
        decreases s.len() - input.position(),
    {
        let field: Field<'_> = match input.read_field() {
            Err(e) => return Err(e),
            Ok(None) => {
                break;
            },
            Ok(Some(f)) => f,
        };
        if field.field_number == 1 {
            let message: ProtoReader<'_> = match field.data.as_message() {
                Ok(m) => m,
                Err(e) => return Err(e),
            };
            match parse_dimension(message) {
                Ok(d) => dims.push(d),
                Err(e) => return Err(e),
            }
        }
    }
    Ok(dims)
}

/// Parse a tensor type: element type and shape.
pub fn parse_tensor_type(reader: ProtoReader<'_>) -> (r: Result<(DataType, Vec<i64>), Error>)
    ensures
        outcome(r) == tensor_type_message(reader.bytes(), reader.position()),
{
    let mut data_type: DataType = DataType::Float;
    let mut shape: Vec<i64> = Vec::new();
    let ghost s = reader.bytes();
    let ghost start = reader.position();
    let mut input: ProtoReader<'_> = reader;
    loop
        invariant
            s == reader.bytes(),
            start == reader.position(),
            input.bytes() == s,
            message(s, input.position(), (data_type, shape@), tensor_type_step()) == message(s, start, (DataType::Float, Seq::<i64>::empty()), tensor_type_step()),
        ensures
            Ok::<(DataType, Seq<i64>), ErrorView>((data_type, shape@)) == message(s, start, (DataType::Float, Seq::<i64>::empty()), tensor_type_step()),
        decreases s.len() - input.position(),
    {
        let field: Field<'_> = match input.read_field() {
            Err(e) => return Err(e),
            Ok(None) => {
                break;
            },
            Ok(Some(f)) => f,
        };
        match field.field_number {
            1 => {
                let n: i32 = match field.data.as_int32() {
                    Ok(n) => n,
                    Err(e) => return Err(e),
                };
                data_type = match DataType::try_from(n) {
                    Ok(t) => t,
                    Err(e) => return Err(e),
                };
            },
            2 => {
                let message: ProtoReader<'_> = match field.data.as_message() {
                    Ok(m) => m,
                    Err(e) => return Err(e),
                };
                shape = match parse_tensor_shape(message) {
                    Ok(d) => d,
                    Err(e) => return Err(e),
                };
            },
            _ => {},
        }
    }
    Ok((data_type, shape))
}

/// Parse a type.
pub fn parse_type_proto(reader: ProtoReader<'_>) -> (r: Result<(DataType, Vec<i64>), Error>)
    ensures
        outcome(r) == type_message(reader.bytes(), reader.position()),
{
    let mut data_type: DataType = DataType::Float;
    let mut shape: Vec<i64> = Vec::new();
    let ghost s = reader.bytes();
    let ghost start = reader.position();
    let mut input: ProtoReader<'_> = reader;
    loop
        invariant
            s == reader.bytes(),
            start == reader.position(),
            input.bytes() == s,
            message(s, input.position(), (data_type, shape@), type_step()) == message(s, start, (DataType::Float, Seq::<i64>::empty()), type_step()),
        ensures
            Ok::<(DataType, Seq<i64>), ErrorView>((data_type, shape@)) == message(s, start, (DataType::Float, Seq::<i64>::empty()), type_step()),
        decreases s.len() - input.position(),
    {
        let field: Field<'_> = match input.read_field() {
            Err(e) => return Err(e),
            Ok(None) => {
                break;
            },
            Ok(Some(f)) => f,
        };
        if field.field_number == 1 {
            let message: ProtoReader<'_> = match field.data.as_message() {
                Ok(m) => m,
                Err(e) => return Err(e),
            };
            match parse_tensor_type(message) {
                Ok(t) => {
                    data_type = t.0;
                    shape = t.1;
                },
                Err(e) => return Err(e),
            }
        }
    }
    Ok((data_type, shape))
}

/// Parse value info.
pub fn parse_value_info(reader: ProtoReader<'_>) -> (r: Result<ValueInfo, Error>)
    ensures
        outcome(r) == value_info_message(reader.bytes(), reader.position()),
{
    let mut info: ValueInfo = ValueInfo {
        name: String::new(),
        shape: Vec::new(),
        data_type: DataType::Float,
    };
    let ghost s = reader.bytes();
    let ghost start = reader.position();
    let mut input: ProtoReader<'_> = reader;
    loop
        invariant
            s == reader.bytes(),
            start == reader.position(),
            input.bytes() == s,
            message(s, input.position(), info@, value_info_step()) == message(s, start, (ValueInfoView { name: Seq::empty(), shape: Seq::empty(), data_type: DataType::Float }), value_info_step()),
        ensures
            Ok::<ValueInfoView, ErrorView>(info@) == message(s, start, (ValueInfoView { name: Seq::empty(), shape: Seq::empty(), data_type: DataType::Float }), value_info_step()),
        decreases s.len() - input.position(),
    {
        let field: Field<'_> = match input.read_field() {
            Err(e) => return Err(e),
            Ok(None) => {
                break;
            },
            Ok(Some(f)) => f,
        };
        match field.field_number {
            1 => {
                info.name = match field.data.as_string() {
                    Ok(n) => n.to_owned(),
                    Err(e) => return Err(e),
                };
            },
            2 => {
                let message: ProtoReader<'_> = match field.data.as_message() {
                    Ok(m) => m,
                    Err(e) => return Err(e),
                };
                match parse_type_proto(message) {
                    Ok(t) => {
                        info.data_type = t.0;
                        info.shape = t.1;
                    },
                    Err(e) => return Err(e),
                }
            },
            _ => {},
        }
    }
    Ok(info)
}

/// The bytes of signed 64-bit numbers.
fn from_signed64(v: &Vec<i64>) -> (r: Vec<u8>)
    ensures
        r@ == bytes_of_signed64(v@),
{
    let mut words: Vec<u64> = Vec::new();
    let mut i: usize = 0;
    while i < v.len()
        invariant
            i <= v@.len(),
            words@.len() == i,
            forall|k: int| 0 <= k < i ==> words@[k] == v@[k] as u64,
        decreases v@.len() - i,
    {
        words.push(v[i] as u64);
        i = i + 1;
    }
    assert(words@ =~= v@.map_values(|x: i64| x as u64));
    from_words64(&words)
}

/// What has been read of a tensor.
struct PartialTensor {
    name: String,
    dims: Vec<i64>,
    data_type: DataType,
    raw: Option<Vec<u8>>,
    floats: Vec<u32>,
    int64s: Vec<i64>,
    int32s: Vec<u32>,
}

impl PartialTensor {
    spec fn parts(self) -> TensorParts {
        TensorParts {
            name: self.name@,
            dims: self.dims@,
            data_type: self.data_type,
            raw: match self.raw {
                Some(b) => Some(b@),
                None => None,
            },
            floats: self.floats@,
            int64s: self.int64s@,
            int32s: self.int32s@,
        }
    }

    fn finish(self) -> (t: OnnxTensor)
        ensures
            t@ == (TensorView {
                name: self.parts().name,
                dims: self.parts().dims,
                data_type: self.parts().data_type,
                data: tensor_data(self.parts()),
            }),
    {
        let data: Vec<u8> = match self.raw {
            Some(raw) => raw,
            None => if self.floats.len() > 0 {
                from_words32(&self.floats)
            } else if self.int64s.len() > 0 {
                from_signed64(&self.int64s)
            } else if self.int32s.len() > 0 {
                from_words32(&self.int32s)
            } else {
                Vec::new()
            },
        };
        OnnxTensor { name: self.name, dims: self.dims, data_type: self.data_type, data }
    }
}

/// Parse a tensor.
pub fn parse_tensor(reader: ProtoReader<'_>) -> (r: Result<OnnxTensor, Error>)
    ensures
        outcome(r) == tensor_message(reader.bytes(), reader.position()),
{
    let mut t: PartialTensor = PartialTensor {
        name: String::new(),
        dims: Vec::new(),
        data_type: DataType::Float,
        raw: None,
        floats: Vec::new(),
        int64s: Vec::new(),
        int32s: Vec::new(),
    };
    let ghost s = reader.bytes();
    let ghost start = reader.position();
    let mut input: ProtoReader<'_> = reader;
    loop
        invariant
            s == reader.bytes(),
            start == reader.position(),
            input.bytes() == s,
            message(s, input.position(), t.parts(), tensor_step()) == message(s, start, empty_tensor_parts(), tensor_step()),
        ensures
            Ok::<TensorParts, ErrorView>(t.parts()) == message(s, start, empty_tensor_parts(), tensor_step()),
        decreases s.len() - input.position(),
    {
        broadcast use lemma_views_push;

        let field: Field<'_> = match input.read_field() {
            Err(e) => return Err(e),
            Ok(None) => {
                break;
            },
            Ok(Some(f)) => f,
        };
        match field.field_number {
            1 => {
                let bytes: &[u8] = match field.data.as_bytes() {
                    Ok(b) => b,
                    Err(e) => return Err(e),
                };
                t.dims = match parse_packed_int64(bytes) {
                    Ok(v) => v,
                    Err(e) => return Err(e),
                };
            },
            2 => {
                let n: i32 = match field.data.as_int32() {
                    Ok(n) => n,
                    Err(e) => return Err(e),
                };
                t.data_type = match DataType::try_from(n) {
                    Ok(v) => v,
                    Err(e) => return Err(e),
                };
            },
            4 => {
                let bytes: &[u8] = match field.data.as_bytes() {
                    Ok(b) => b,
                    Err(e) => return Err(e),
                };
                t.floats = match parse_packed_floats(bytes) {
                    Ok(v) => v,
                    Err(e) => return Err(e),
                };
            },
            5 => {
                let bytes: &[u8] = match field.data.as_bytes() {
                    Ok(b) => b,
                    Err(e) => return Err(e),
                };
                let mut words: Vec<u32> = match parse_packed_int64(bytes) {
                    Ok(v) => to_low_words(&v),
                    Err(e) => return Err(e),
                };
                t.int32s.append(&mut words);
            },
            7 => {
                let bytes: &[u8] = match field.data.as_bytes() {
                    Ok(b) => b,
                    Err(e) => return Err(e),
                };
                t.int64s = match parse_packed_int64(bytes) {
                    Ok(v) => v,
                    Err(e) => return Err(e),
                };
            },
            8 => {
                t.name = match field.data.as_string() {
                    Ok(v) => v.to_owned(),
                    Err(e) => return Err(e),
                };
            },
            9 => {
                let bytes: &[u8] = match field.data.as_bytes() {
                    Ok(b) => b,
                    Err(e) => return Err(e),
                };
                t.raw = Some(vstd::slice::slice_to_vec(bytes));
            },
            _ => {},
        }
    }
    Ok(t.finish())
}

/// Parse an attribute.
pub fn parse_attribute(reader: ProtoReader<'_>) -> (r: Result<OnnxAttribute, Error>)
    ensures
        outcome(r) == attribute_message(reader.bytes(), reader.position()),
{
    let mut attr: OnnxAttribute = OnnxAttribute {
        name: String::new(),
        value: AttributeValue::Ints(Vec::new()),
    };
    let ghost s = reader.bytes();
    let ghost start = reader.position();
    let mut input: ProtoReader<'_> = reader;
    loop
        invariant
            s == reader.bytes(),
            start == reader.position(),
            input.bytes() == s,
            message(s, input.position(), attr@, attribute_step()) == message(s, start, (AttributeView { name: Seq::empty(), value: AttributeValueView::Ints(Seq::empty()) }), attribute_step()),
        ensures
            Ok::<AttributeView, ErrorView>(attr@) == message(s, start, (AttributeView { name: Seq::empty(), value: AttributeValueView::Ints(Seq::empty()) }), attribute_step()),
        decreases s.len() - input.position(),
    {
        broadcast use lemma_views_push;

        let field: Field<'_> = match input.read_field() {
            Err(e) => return Err(e),
            Ok(None) => {
                break;
            },
            Ok(Some(f)) => f,
        };
        match field.field_number {
            1 => {
                attr.name = match field.data.as_string() {
                    Ok(v) => v.to_owned(),
                    Err(e) => return Err(e),
                };
            },
            2 => {
                attr.value = match field.data.as_float() {
                    Ok(v) => AttributeValue::Float(v),
                    Err(e) => return Err(e),
                };
            },
            3 => {
                attr.value = match field.data.as_int64() {
                    Ok(v) => AttributeValue::Int(v),
                    Err(e) => return Err(e),
                };
            },
            4 => {
                let bytes: &[u8] = match field.data.as_bytes() {
                    Ok(b) => b,
                    Err(e) => return Err(e),
                };
                attr.value = AttributeValue::String(text_from_utf8_lossy(bytes));
            },
            6 => {
                let message: ProtoReader<'_> = match field.data.as_message() {
                    Ok(m) => m,
                    Err(e) => return Err(e),
                };
                attr.value = match parse_tensor(message) {
                    Ok(v) => AttributeValue::Tensor(v),
                    Err(e) => return Err(e),
                };
            },
            7 => {
                let bytes: &[u8] = match field.data.as_bytes() {
                    Ok(b) => b,
                    Err(e) => return Err(e),
                };
                attr.value = match parse_packed_floats(bytes) {
                    Ok(v) => AttributeValue::Floats(v),
                    Err(e) => return Err(e),
                };
            },
            8 => {
                let bytes: &[u8] = match field.data.as_bytes() {
                    Ok(b) => b,
                    Err(e) => return Err(e),
                };
                attr.value = match parse_packed_int64(bytes) {
                    Ok(v) => AttributeValue::Ints(v),
                    Err(e) => return Err(e),
                };
            },
            _ => {},
        }
    }
    Ok(attr)
}

/// Parse a node.
pub fn parse_node(reader: ProtoReader<'_>) -> (r: Result<OnnxNode, Error>)
    ensures
        outcome(r) == node_message(reader.bytes(), reader.position()),
{
    let mut node: OnnxNode = OnnxNode {
        name: String::new(),
        op_type: String::new(),
        inputs: Vec::new(),
        outputs: Vec::new(),
        attributes: Vec::new(),
    };
    assert(views(node.inputs@) =~= Seq::empty());
    assert(views(node.attributes@) =~= Seq::empty());
    let ghost s = reader.bytes();
    let ghost start = reader.position();
    let mut input: ProtoReader<'_> = reader;
    loop
        invariant
            s == reader.bytes(),
            start == reader.position(),
            input.bytes() == s,
            message(s, input.position(), node@, node_step()) == message(s, start, empty_node(), node_step()),
        ensures
            Ok::<NodeView, ErrorView>(node@) == message(s, start, empty_node(), node_step()),
        decreases s.len() - input.position(),
    {
        broadcast use lemma_views_push;

        let field: Field<'_> = match input.read_field() {
            Err(e) => return Err(e),
            Ok(None) => {
                break;
            },
            Ok(Some(f)) => f,
        };
        match field.field_number {
            1 => {
                match field.data.as_string() {
                    Ok(v) => node.inputs.push(v.to_owned()),
                    Err(e) => return Err(e),
                }
            },
            2 => {
                match field.data.as_string() {
                    Ok(v) => node.outputs.push(v.to_owned()),
                    Err(e) => return Err(e),
                }
            },
            3 => {
                node.name = match field.data.as_string() {
                    Ok(v) => v.to_owned(),
                    Err(e) => return Err(e),
                };
            },
            4 => {
                node.op_type = match field.data.as_string() {
                    Ok(v) => v.to_owned(),
                    Err(e) => return Err(e),
                };
            },
            5 => {
                let message: ProtoReader<'_> = match field.data.as_message() {
                    Ok(m) => m,
                    Err(e) => return Err(e),
                };
                match parse_attribute(message) {
                    Ok(v) => node.attributes.push(v),
                    Err(e) => return Err(e),
                }
            },
            _ => {},
        }
    }
    // Generate a name if not provided.
    if node.name.as_str().is_empty() {
        node.name = if node.outputs.len() > 0 {
            concat3(node.op_type.as_str(), "_", node.outputs[0].as_str())
        } else {
            concat3(node.op_type.as_str(), "_", "unnamed")
        };
    }
    Ok(node)
}

/// The graph of a model.
pub struct GraphProto {
    pub nodes: Vec<OnnxNode>,
    pub initializers: Vec<OnnxTensor>,
    pub inputs: Vec<ValueInfo>,
    pub outputs: Vec<ValueInfo>,
}

impl View for GraphProto {
    type V = GraphProtoView;

    open spec fn view(&self) -> GraphProtoView {
        GraphProtoView {
            nodes: views(self.nodes@),
            initializers: views(self.initializers@),
            inputs: views(self.inputs@),
            outputs: views(self.outputs@),
        }
    }
}

/// Parse a graph.
pub fn parse_graph(reader: ProtoReader<'_>) -> (r: Result<GraphProto, Error>)
    ensures
        outcome(r) == graph_message(reader.bytes(), reader.position()),
{
    let mut graph: GraphProto = GraphProto {
        nodes: Vec::new(),
        initializers: Vec::new(),
        inputs: Vec::new(),
        outputs: Vec::new(),
    };
    assert(views(graph.nodes@) =~= Seq::empty());
    assert(views(graph.initializers@) =~= Seq::empty());
    assert(views(graph.inputs@) =~= Seq::empty());
    let ghost s = reader.bytes();
    let ghost start = reader.position();
    let mut input: ProtoReader<'_> = reader;
    loop
        invariant
            s == reader.bytes(),
            start == reader.position(),
            input.bytes() == s,
            message(s, input.position(), graph@, graph_step()) == message(s, start, empty_graph_proto(), graph_step()),
        ensures
            Ok::<GraphProtoView, ErrorView>(graph@) == message(s, start, empty_graph_proto(), graph_step()),
        decreases s.len() - input.position(),
    {
        broadcast use lemma_views_push;

        let field: Field<'_> = match input.read_field() {
            Err(e) => return Err(e),
            Ok(None) => {
                break;
            },
            Ok(Some(f)) => f,
        };
        match field.field_number {
            1 => {
                let message: ProtoReader<'_> = match field.data.as_message() {
                    Ok(m) => m,
                    Err(e) => return Err(e),
                };
                match parse_node(message) {
                    Ok(v) => graph.nodes.push(v),
                    Err(e) => return Err(e),
                }
            },
            5 => {
                let message: ProtoReader<'_> = match field.data.as_message() {
                    Ok(m) => m,
                    Err(e) => return Err(e),
                };
                match parse_tensor(message) {
                    Ok(v) => graph.initializers.push(v),
                    Err(e) => return Err(e),
                }
            },
            11 => {
                let message: ProtoReader<'_> = match field.data.as_message() {
                    Ok(m) => m,
                    Err(e) => return Err(e),
                };
                match parse_value_info(message) {
                    Ok(v) => graph.inputs.push(v),
                    Err(e) => return Err(e),
                }
            },
            12 => {
                let message: ProtoReader<'_> = match field.data.as_message() {
                    Ok(m) => m,
                    Err(e) => return Err(e),
                };
                match parse_value_info(message) {
                    Ok(v) => graph.outputs.push(v),
                    Err(e) => return Err(e),
                }
            },
            _ => {},
        }
    }
    Ok(graph)
}

/// Parse a model from bytes.
pub fn parse_model(bytes: &[u8]) -> (r: Result<Model, Error>)
    ensures
        outcome(r) == model_message(bytes@),
{
    let reader: ProtoReader<'_> = ProtoReader::new(bytes);
    let mut model: Model = Model {
        ir_version: 0,
        opset_version: 0,
        producer_name: String::new(),
        nodes: Vec::new(),
        initializers: Vec::new(),
        inputs: Vec::new(),
        outputs: Vec::new(),
    };
    assert(views(model.nodes@) =~= Seq::empty());
    assert(views(model.initializers@) =~= Seq::empty());
    assert(views(model.inputs@) =~= Seq::empty());
    let ghost s = reader.bytes();
    let ghost start = reader.position();
    let mut input: ProtoReader<'_> = reader;
    loop
        invariant
            s == bytes@,
            start == 0,
            input.bytes() == s,
            message(s, input.position(), model@, model_step()) == message(s, start, empty_model(), model_step()),
        ensures
            Ok::<ModelView, ErrorView>(model@) == message(s, start, empty_model(), model_step()),
        decreases s.len() - input.position(),
    {
        broadcast use lemma_views_push;

        let field: Field<'_> = match input.read_field() {
            Err(e) => return Err(e),
            Ok(None) => {
                break;
            },
            Ok(Some(f)) => f,
        };
        match field.field_number {
            1 => {
                model.ir_version = match field.data.as_int64() {
                    Ok(v) => v,
                    Err(e) => return Err(e),
                };
            },
            2 => {
                model.producer_name = match field.data.as_string() {
                    Ok(v) => v.to_owned(),
                    Err(e) => return Err(e),
                };
            },
            7 => {
                let message: ProtoReader<'_> = match field.data.as_message() {
                    Ok(m) => m,
                    Err(e) => return Err(e),
                };
                match parse_graph(message) {
                    Ok(g) => {
                        model.nodes = g.nodes;
                        model.initializers = g.initializers;
                        model.inputs = g.inputs;
                        model.outputs = g.outputs;
                    },
                    Err(e) => return Err(e),
                }
            },
            8 => {
                let message: ProtoReader<'_> = match field.data.as_message() {
                    Ok(m) => m,
                    Err(e) => return Err(e),
                };
                let version: i64 = match parse_opset(message) {
                    Ok(v) => v,
                    Err(e) => return Err(e),
                };
                if version > model.opset_version {
                    model.opset_version = version;
                }
            },
            _ => {},
        }
    }
    if model.opset_version != OPSET_VERSION {
        return Err(
            Error::UnsupportedOpset { found: model.opset_version, expected: OPSET_VERSION },
        );
    }
    Ok(model)
}

/// Load a model from a byte slice.
pub fn load_model_from_bytes(bytes: &[u8]) -> (r: Result<Model, Error>)
    ensures
        outcome(r) == model_message(bytes@),
{
    parse_model(bytes)
}

} // verus!
