//! What was written of a model is read back.

use vstd::prelude::*;
use vstd::arithmetic::power2::{lemma2_to64, lemma2_to64_rest, lemma_pow2_adds};
use vstd::utf8::{decode_utf8, valid_utf8};
use crate::error::ErrorView;
use crate::proto::written::{
    law_field_reads_back, law_packed_reads_back, lemma_varint_length, stand_at, written_field,
    written_packed,
};
use crate::proto::{
    bytes_of_words32, field_at, law_words32_round_trip, packed_int64, FieldView, Step, ValueView,
};
use super::{
    attribute_message, attribute_step, data_type_of, dimension_step, empty_graph_proto,
    empty_model, empty_node, graph_message, graph_step, message, model_message, model_step,
    node_message, node_step, opset_step, shape_step, tensor_message, tensor_step,
    tensor_type_step, type_step, value_info_message, value_info_step, AttributeValueView,
    AttributeView, DataType, GraphProtoView, ModelView, NodeView, ValueInfoView,
};

verus! {

/// Fields, one behind the other.
pub open spec fn written_fields(fs: Seq<FieldView>) -> Seq<u8>
    decreases fs.len(),
{
    if fs.len() == 0 {
        Seq::empty()
    } else {
        written_field(fs[0]) + written_fields(fs.drop_first())
    }
}

/// Whether fields can be written.
pub open spec fn are_writable(fs: Seq<FieldView>) -> bool {
    forall|i: int|
        #![trigger fs[i]]
        0 <= i < fs.len() ==> fs[i].field_number < 0x2000_0000 && (fs[i].data matches
            ValueView::LengthDelimited(b) ==> b.len() <= usize::MAX)
}

/// What fields come to when they are taken in one after the other.
spec fn taken<A>(
    acc: A,
    step: spec_fn(A, FieldView) -> Result<A, ErrorView>,
    fs: Seq<FieldView>,
) -> Result<A, ErrorView>
    decreases fs.len(),
{
    if fs.len() == 0 {
        Ok(acc)
    } else {
        match step(acc, fs[0]) {
            Ok(a) => taken(a, step, fs.drop_first()),
            Err(e) => Err(e),
        }
    }
}

proof fn lemma_message<A>(
    s: Seq<u8>,
    pos: int,
    acc: A,
    step: spec_fn(A, FieldView) -> Result<A, ErrorView>,
    fs: Seq<FieldView>,
)
    requires
        stand_at(written_fields(fs), s, pos),
        pos + written_fields(fs).len() == s.len(),
        are_writable(fs),
    ensures
        message(s, pos, acc, step) == taken(acc, step, fs),
    decreases fs.len(),
{
    if fs.len() == 0 {
        reveal(field_at);
        assert(field_at(s, pos) == Step::End);
    } else {
        let b = written_field(fs[0]);
        let rest = written_fields(fs.drop_first());
        let all = written_fields(fs);
        assert forall|i: int| 0 <= i < b.len() implies #[trigger] b[i] == s[pos + i] by {
            assert(all[i] == s[pos + i]);
        }
        assert forall|i: int| 0 <= i < rest.len() implies #[trigger] rest[i] == s[pos + b.len() + i] by {
            assert(all[b.len() + i] == s[pos + (b.len() + i)]);
        }
        assert(fs[0].field_number < 0x2000_0000);
        law_field_reads_back(s, pos, fs[0]);
        assert forall|i: int|
            #![trigger fs.drop_first()[i]]
            0 <= i < fs.drop_first().len() implies fs.drop_first()[i].field_number < 0x2000_0000
            && (fs.drop_first()[i].data matches ValueView::LengthDelimited(b)
            ==> b.len() <= usize::MAX) by {
            assert(fs.drop_first()[i] == fs[i + 1]);
        }
        match step(acc, fs[0]) {
            Ok(a) => lemma_message(s, pos + b.len(), a, step, fs.drop_first()),
            Err(e) => {},
        }
    }
}

/// The bytes of a field that has bytes.
pub open spec fn bytes_in(f: FieldView) -> Seq<u8> {
    f.data->LengthDelimited_0
}

/// The bytes of the fields with a number, in order.
pub open spec fn parts(fs: Seq<FieldView>, number: u32) -> Seq<Seq<u8>>
    decreases fs.len(),
{
    if fs.len() == 0 {
        Seq::empty()
    } else if fs[0].field_number == number {
        seq![bytes_in(fs[0])] + parts(fs.drop_first(), number)
    } else {
        parts(fs.drop_first(), number)
    }
}

/// Text in fields.
pub open spec fn texts(v: Seq<Seq<u8>>) -> Seq<Seq<char>> {
    v.map_values(|b: Seq<u8>| decode_utf8(b))
}

/// Whether a field of a node is in order: text for its tensors, name and op
/// type, and bytes that are attributes.
pub open spec fn is_node_field(f: FieldView) -> bool {
    &&& f.data is LengthDelimited
    &&& 1 <= f.field_number <= 4 ==> valid_utf8(bytes_in(f))
    &&& f.field_number == 5 ==> attribute_message(bytes_in(f), 0) is Ok
}

proof fn lemma_node(acc: NodeView, fs: Seq<FieldView>)
    requires
        forall|i: int| 0 <= i < fs.len() ==> is_node_field(#[trigger] fs[i]),
    ensures
        taken(acc, node_step(), fs) is Ok,
        ({
            let n = taken(acc, node_step(), fs)->Ok_0;
            let (names, types) = (parts(fs, 3), parts(fs, 4));
            &&& n.inputs == acc.inputs + texts(parts(fs, 1))
            &&& n.outputs == acc.outputs + texts(parts(fs, 2))
            &&& n.name == if names.len() == 0 { acc.name } else { decode_utf8(names.last()) }
            &&& n.op_type == if types.len() == 0 { acc.op_type } else { decode_utf8(types.last()) }
            &&& n.attributes.len() == acc.attributes.len() + parts(fs, 5).len()
            &&& forall|i: int|
                0 <= i < acc.attributes.len() ==> #[trigger] n.attributes[i] == acc.attributes[i]
            &&& forall|i: int|
                acc.attributes.len() <= i < n.attributes.len() ==> attribute_message(
                    parts(fs, 5)[i - acc.attributes.len()],
                    0,
                ) == Ok::<_, ErrorView>(#[trigger] n.attributes[i])
        }),
    decreases fs.len(),
{
    if fs.len() > 0 {
        let f = fs[0];
        let rest = fs.drop_first();
        assert(is_node_field(f));
        assert forall|i: int| 0 <= i < rest.len() implies is_node_field(#[trigger] rest[i]) by {
            assert(rest[i] == fs[i + 1]);
        }
        let next = node_step()(acc, f)->Ok_0;
        lemma_node(next, rest);
        let n = taken(acc, node_step(), fs)->Ok_0;
        assert(n.inputs =~= acc.inputs + texts(parts(fs, 1)));
        assert(n.outputs =~= acc.outputs + texts(parts(fs, 2)));
        assert forall|i: int| acc.attributes.len() <= i < n.attributes.len() implies attribute_message(
            parts(fs, 5)[i - acc.attributes.len()],
            0,
        ) == Ok::<_, ErrorView>(#[trigger] n.attributes[i]) by {
            if f.field_number == 5 {
                if i == acc.attributes.len() {
                    assert(n.attributes[i] == next.attributes[i]);
                } else {
                    assert(parts(fs, 5)[i - acc.attributes.len()] == parts(rest, 5)[i
                        - next.attributes.len()]);
                }
            }
        }
        assert forall|i: int| 0 <= i < acc.attributes.len() implies #[trigger] n.attributes[i]
            == acc.attributes[i] by {
            assert(next.attributes[i] == acc.attributes[i]);
        }
    } else {
        assert(acc.inputs + texts(parts(fs, 1)) =~= acc.inputs);
        assert(acc.outputs + texts(parts(fs, 2)) =~= acc.outputs);
    }
}

/// A node that was written is read back: its inputs (1) and outputs (2) in order,
/// its name (3), its op type (4) and its attributes (5).
pub proof fn law_node_reads_back(fs: Seq<FieldView>)
    requires
        are_writable(fs),
        forall|i: int| 0 <= i < fs.len() ==> is_node_field(#[trigger] fs[i]),
        parts(fs, 3).len() > 0,
        decode_utf8(parts(fs, 3).last()).len() > 0,
        parts(fs, 4).len() > 0,
    ensures
        node_message(written_fields(fs), 0) is Ok,
        ({
            let n = node_message(written_fields(fs), 0)->Ok_0;
            &&& n.inputs == texts(parts(fs, 1))
            &&& n.outputs == texts(parts(fs, 2))
            &&& n.name == decode_utf8(parts(fs, 3).last())
            &&& n.op_type == decode_utf8(parts(fs, 4).last())
            &&& n.attributes.len() == parts(fs, 5).len()
            &&& forall|i: int|
                0 <= i < n.attributes.len() ==> attribute_message(parts(fs, 5)[i], 0) == Ok::<
                    _,
                    ErrorView,
                >(#[trigger] n.attributes[i])
        }),
{
    lemma_message(written_fields(fs), 0, empty_node(), node_step(), fs);
    lemma_node(empty_node(), fs);
    let n = node_message(written_fields(fs), 0)->Ok_0;
    assert(Seq::<Seq<char>>::empty() + texts(parts(fs, 1)) =~= texts(parts(fs, 1)));
    assert(Seq::<Seq<char>>::empty() + texts(parts(fs, 2)) =~= texts(parts(fs, 2)));
    assert forall|i: int| 0 <= i < n.attributes.len() implies attribute_message(parts(fs, 5)[i], 0)
        == Ok::<_, ErrorView>(#[trigger] n.attributes[i]) by {
        assert(parts(fs, 5)[i - 0] == parts(fs, 5)[i]);
    }
}

/// The fields of a tensor with raw data: dims (1), element type (2), name (8) and
/// bytes (9).
pub open spec fn tensor_fields(dims: Seq<i64>, kind: u64, name: Seq<u8>, data: Seq<u8>) -> Seq<FieldView> {
    seq![
        FieldView { field_number: 1, data: ValueView::LengthDelimited(written_packed(dims)) },
        FieldView { field_number: 2, data: ValueView::Varint(kind) },
        FieldView { field_number: 8, data: ValueView::LengthDelimited(name) },
        FieldView { field_number: 9, data: ValueView::LengthDelimited(data) },
    ]
}

/// A tensor that was written is read back: its dimensions, element type, name
/// and bytes.
pub proof fn law_tensor_reads_back(dims: Seq<i64>, t: DataType, kind: u64, name: Seq<u8>, data: Seq<u8>)
    requires
        kind <= 0x7fff_ffff,
        data_type_of(kind as i32) == Ok::<DataType, ErrorView>(t),
        valid_utf8(name),
        name.len() <= usize::MAX,
        data.len() <= usize::MAX,
        written_packed(dims).len() <= usize::MAX,
    ensures
        tensor_message(written_fields(tensor_fields(dims, kind, name, data)), 0) is Ok,
        ({
            let r = tensor_message(written_fields(tensor_fields(dims, kind, name, data)), 0)->Ok_0;
            &&& r.dims == dims
            &&& r.data_type == t
            &&& r.name == decode_utf8(name)
            &&& r.data == data
        }),
{
    let fs = tensor_fields(dims, kind, name, data);
    let acc = super::empty_tensor_parts();
    lemma_message(written_fields(fs), 0, acc, tensor_step(), fs);
    law_packed_reads_back(written_packed(dims), 0, dims);
    assert(packed_int64(written_packed(dims)) == Ok::<Seq<i64>, ErrorView>(dims));
    reveal_with_fuel(taken, 5);
    let a = fs.drop_first();
    let b = a.drop_first();
    let c = b.drop_first();
    assert(a[0] == fs[1] && b[0] == fs[2] && c[0] == fs[3] && c.drop_first().len() == 0);
}

/// Whether a field of a graph is in order: what is read of it is a node, an
/// initializer, an input or an output.
pub open spec fn is_graph_field(f: FieldView) -> bool {
    let b = bytes_in(f);
    &&& f.data is LengthDelimited
    &&& f.field_number == 1 ==> node_message(b, 0) is Ok
    &&& f.field_number == 5 ==> tensor_message(b, 0) is Ok
    &&& f.field_number == 11 || f.field_number == 12 ==> value_info_message(b, 0) is Ok
}

proof fn lemma_graph(acc: GraphProtoView, fs: Seq<FieldView>)
    requires
        forall|i: int| 0 <= i < fs.len() ==> is_graph_field(#[trigger] fs[i]),
    ensures
        taken(acc, graph_step(), fs) is Ok,
        ({
            let g = taken(acc, graph_step(), fs)->Ok_0;
            &&& g.nodes == acc.nodes + parts(fs, 1).map_values(
                |b: Seq<u8>| node_message(b, 0)->Ok_0,
            )
            &&& g.initializers == acc.initializers + parts(fs, 5).map_values(
                |b: Seq<u8>| tensor_message(b, 0)->Ok_0,
            )
            &&& g.inputs == acc.inputs + parts(fs, 11).map_values(
                |b: Seq<u8>| value_info_message(b, 0)->Ok_0,
            )
            &&& g.outputs == acc.outputs + parts(fs, 12).map_values(
                |b: Seq<u8>| value_info_message(b, 0)->Ok_0,
            )
        }),
    decreases fs.len(),
{
    let to_node = |b: Seq<u8>| node_message(b, 0)->Ok_0;
    let to_tensor = |b: Seq<u8>| tensor_message(b, 0)->Ok_0;
    let to_value = |b: Seq<u8>| value_info_message(b, 0)->Ok_0;
    if fs.len() > 0 {
        let rest = fs.drop_first();
        assert(is_graph_field(fs[0]));
        assert forall|i: int| 0 <= i < rest.len() implies is_graph_field(#[trigger] rest[i]) by {
            assert(rest[i] == fs[i + 1]);
        }
        let next = graph_step()(acc, fs[0])->Ok_0;
        lemma_graph(next, rest);
        let g = taken(acc, graph_step(), fs)->Ok_0;
        assert(g.nodes =~= acc.nodes + parts(fs, 1).map_values(to_node));
        assert(g.initializers =~= acc.initializers + parts(fs, 5).map_values(to_tensor));
        assert(g.inputs =~= acc.inputs + parts(fs, 11).map_values(to_value));
        assert(g.outputs =~= acc.outputs + parts(fs, 12).map_values(to_value));
    } else {
        assert(acc.nodes + parts(fs, 1).map_values(to_node) =~= acc.nodes);
        assert(acc.initializers + parts(fs, 5).map_values(to_tensor) =~= acc.initializers);
        assert(acc.inputs + parts(fs, 11).map_values(to_value) =~= acc.inputs);
        assert(acc.outputs + parts(fs, 12).map_values(to_value) =~= acc.outputs);
    }
}

/// A graph that was written is read back: its nodes (1), initializers (5), inputs
/// (11) and outputs (12), each in order.
pub proof fn law_graph_reads_back(fs: Seq<FieldView>)
    requires
        are_writable(fs),
        forall|i: int| 0 <= i < fs.len() ==> is_graph_field(#[trigger] fs[i]),
    ensures
        graph_message(written_fields(fs), 0) is Ok,
        ({
            let g = graph_message(written_fields(fs), 0)->Ok_0;
            &&& g.nodes == parts(fs, 1).map_values(|b: Seq<u8>| node_message(b, 0)->Ok_0)
            &&& g.initializers == parts(fs, 5).map_values(|b: Seq<u8>| tensor_message(b, 0)->Ok_0)
            &&& g.inputs == parts(fs, 11).map_values(|b: Seq<u8>| value_info_message(b, 0)->Ok_0)
            &&& g.outputs == parts(fs, 12).map_values(|b: Seq<u8>| value_info_message(b, 0)->Ok_0)
        }),
{
    lemma_message(written_fields(fs), 0, empty_graph_proto(), graph_step(), fs);
    lemma_graph(empty_graph_proto(), fs);
    let g = graph_message(written_fields(fs), 0)->Ok_0;
    assert(g.nodes =~= parts(fs, 1).map_values(|b: Seq<u8>| node_message(b, 0)->Ok_0));
    assert(g.initializers =~= parts(fs, 5).map_values(|b: Seq<u8>| tensor_message(b, 0)->Ok_0));
    assert(g.inputs =~= parts(fs, 11).map_values(|b: Seq<u8>| value_info_message(b, 0)->Ok_0));
    assert(g.outputs =~= parts(fs, 12).map_values(|b: Seq<u8>| value_info_message(b, 0)->Ok_0));
}

/// A field that has bytes.
pub open spec fn byte_field(number: u32, b: Seq<u8>) -> FieldView {
    FieldView { field_number: number, data: ValueView::LengthDelimited(b) }
}

proof fn lemma_two<A>(acc: A, step: spec_fn(A, FieldView) -> Result<A, ErrorView>, a: FieldView, b: FieldView)
    requires
        are_writable(seq![a, b]),
    ensures
        message(written_fields(seq![a, b]), 0, acc, step) == match step(acc, a) {
            Ok(x) => step(x, b),
            Err(e) => Err(e),
        },
{
    let fs = seq![a, b];
    lemma_message(written_fields(fs), 0, acc, step, fs);
    reveal_with_fuel(taken, 3);
    assert(fs.drop_first()[0] == b && fs.drop_first().drop_first().len() == 0);
}

proof fn lemma_one_field<A>(acc: A, step: spec_fn(A, FieldView) -> Result<A, ErrorView>, a: FieldView)
    requires
        are_writable(seq![a]),
    ensures
        message(written_fields(seq![a]), 0, acc, step) == step(acc, a),
{
    let fs = seq![a];
    lemma_message(written_fields(fs), 0, acc, step, fs);
    reveal_with_fuel(taken, 2);
    assert(fs.drop_first().len() == 0);
}

/// An attribute that was written is read back: its name (1) and its float (2),
/// integer (3), floats (7) or integers (8).
pub proof fn law_attribute_reads_back(name: Seq<u8>, x: u32, n: u64, floats: Seq<u32>, ints: Seq<i64>)
    requires
        valid_utf8(name),
        name.len() <= usize::MAX,
        4 * floats.len() <= usize::MAX,
        written_packed(ints).len() <= usize::MAX,
    ensures
        ({
            let named = byte_field(1, name);
            let float = FieldView { field_number: 2, data: ValueView::Fixed32(x) };
            let whole = FieldView { field_number: 3, data: ValueView::Varint(n) };
            let many = byte_field(7, bytes_of_words32(floats));
            let all = byte_field(8, written_packed(ints));
            &&& attribute_message(written_fields(seq![named, float]), 0) == Ok::<_, ErrorView>(
                AttributeView { name: decode_utf8(name), value: AttributeValueView::Float(x) },
            )
            &&& attribute_message(written_fields(seq![named, whole]), 0) == Ok::<_, ErrorView>(
                AttributeView { name: decode_utf8(name), value: AttributeValueView::Int(n as i64) },
            )
            &&& attribute_message(written_fields(seq![named, many]), 0) == Ok::<_, ErrorView>(
                AttributeView { name: decode_utf8(name), value: AttributeValueView::Floats(floats) },
            )
            &&& attribute_message(written_fields(seq![named, all]), 0) == Ok::<_, ErrorView>(
                AttributeView { name: decode_utf8(name), value: AttributeValueView::Ints(ints) },
            )
        }),
{
    let named = byte_field(1, name);
    let acc = AttributeView {
        name: Seq::empty(),
        value: AttributeValueView::Ints(Seq::empty()),
    };
    let float = FieldView { field_number: 2, data: ValueView::Fixed32(x) };
    let whole = FieldView { field_number: 3, data: ValueView::Varint(n) };
    let many = byte_field(7, bytes_of_words32(floats));
    let all = byte_field(8, written_packed(ints));
    law_words32_round_trip(floats);
    law_packed_reads_back(written_packed(ints), 0, ints);
    assert(packed_int64(written_packed(ints)) == Ok::<Seq<i64>, ErrorView>(ints));
    lemma_two(acc, attribute_step(), named, float);
    lemma_two(acc, attribute_step(), named, whole);
    lemma_two(acc, attribute_step(), named, many);
    lemma_two(acc, attribute_step(), named, all);
}

/// The fields of a shape: each dimension (1) is a message with its size (1).
pub open spec fn shape_fields(dims: Seq<u64>) -> Seq<FieldView> {
    dims.map_values(
        |d: u64|
            byte_field(
                1,
                written_fields(seq![FieldView { field_number: 1, data: ValueView::Varint(d) }]),
            ),
    )
}

proof fn lemma_shape(acc: Seq<i64>, dims: Seq<u64>)
    ensures
        taken(acc, shape_step(), shape_fields(dims)) == Ok::<Seq<i64>, ErrorView>(
            acc + dims.map_values(|d: u64| d as i64),
        ),
    decreases dims.len(),
{
    let fs = shape_fields(dims);
    if dims.len() > 0 {
        let d = dims[0];
        let f = FieldView { field_number: 1, data: ValueView::Varint(d) };
        lemma_one_field(-1i64, dimension_step(), f);
        assert(shape_step()(acc, fs[0]) == Ok::<Seq<i64>, ErrorView>(acc.push(d as i64)));
        lemma_shape(acc.push(d as i64), dims.drop_first());
        assert(fs.drop_first() =~= shape_fields(dims.drop_first()));
        assert(acc.push(d as i64) + dims.drop_first().map_values(|d: u64| d as i64) =~= acc
            + dims.map_values(|d: u64| d as i64));
    } else {
        assert(acc + dims.map_values(|d: u64| d as i64) =~= acc);
    }
}

/// An input or output that was written is read back: its name (1), and in its
/// type (2) the element type (1) and the size of every dimension (2).
pub proof fn law_value_reads_back(name: Seq<u8>, t: DataType, kind: u64, dims: Seq<u64>)
    requires
        kind <= 0x7fff_ffff,
        data_type_of(kind as i32) == Ok::<DataType, ErrorView>(t),
        valid_utf8(name),
        name.len() <= usize::MAX,
        are_writable(shape_fields(dims)),
        ({
            let shape = written_fields(shape_fields(dims));
            let elem = FieldView { field_number: 1, data: ValueView::Varint(kind) };
            let tensor = written_fields(seq![elem, byte_field(2, shape)]);
            &&& shape.len() <= usize::MAX
            &&& tensor.len() <= usize::MAX
            &&& written_fields(seq![byte_field(1, tensor)]).len() <= usize::MAX
        }),
    ensures
        ({
            let shape = written_fields(shape_fields(dims));
            let elem = FieldView { field_number: 1, data: ValueView::Varint(kind) };
            let tensor = written_fields(seq![elem, byte_field(2, shape)]);
            let kinds = written_fields(seq![byte_field(1, tensor)]);
            value_info_message(written_fields(seq![byte_field(1, name), byte_field(2, kinds)]), 0)
                == Ok::<_, ErrorView>(
                ValueInfoView {
                    name: decode_utf8(name),
                    shape: dims.map_values(|d: u64| d as i64),
                    data_type: t,
                },
            )
        }),
{
    let none = Seq::<i64>::empty();
    let sizes = dims.map_values(|d: u64| d as i64);
    let shape = written_fields(shape_fields(dims));
    let elem = FieldView { field_number: 1, data: ValueView::Varint(kind) };
    let tensor = written_fields(seq![elem, byte_field(2, shape)]);
    let kinds = written_fields(seq![byte_field(1, tensor)]);
    lemma_message(shape, 0, none, shape_step(), shape_fields(dims));
    lemma_shape(none, dims);
    assert(none + sizes =~= sizes);
    lemma_two((DataType::Float, none), tensor_type_step(), elem, byte_field(2, shape));
    lemma_one_field((DataType::Float, none), type_step(), byte_field(1, tensor));
    lemma_two(
        ValueInfoView { name: Seq::empty(), shape: Seq::empty(), data_type: DataType::Float },
        value_info_step(),
        byte_field(1, name),
        byte_field(2, kinds),
    );
}

/// A model that was written is read back: its graph (7), where its operator set
/// (8) has the version (2) that is supported; with another version it is refused.
pub proof fn law_model_reads_back(graph: Seq<u8>, version: u64)
    requires
        graph_message(graph, 0) is Ok,
        graph.len() <= usize::MAX,
        version <= 0x7fff_ffff,
    ensures
        ({
            let opset = written_fields(
                seq![FieldView { field_number: 2, data: ValueView::Varint(version) }],
            );
            let r = model_message(written_fields(seq![byte_field(8, opset), byte_field(7, graph)]));
            &&& version == 12 ==> r is Ok && r->Ok_0.graph == graph_message(graph, 0)->Ok_0
            &&& version != 12 ==> r == Err::<ModelView, ErrorView>(
                ErrorView::UnsupportedOpset { found: version as i64, expected: 12 },
            )
        }),
{
    let f = FieldView { field_number: 2, data: ValueView::Varint(version) };
    let opset = written_fields(seq![f]);
    lemma_one_field(0i64, opset_step(), f);
    assert(seq![f].drop_first() =~= Seq::empty());
    reveal_with_fuel(written_fields, 2);
    lemma_opset_length(version);
    lemma_two(empty_model(), model_step(), byte_field(8, opset), byte_field(7, graph));
}

proof fn lemma_opset_length(version: u64)
    ensures
        written_field(FieldView { field_number: 2, data: ValueView::Varint(version) }).len() <= 20,
{
    lemma2_to64();
    lemma2_to64_rest();
    lemma_pow2_adds(64, 6);
    lemma_varint_length(version as nat, 10);
    lemma_varint_length(16, 10);
}

} // verus!
