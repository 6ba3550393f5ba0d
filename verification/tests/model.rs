use dragonwing::error::Error;
use dragonwing::model::{
    load_model_from_bytes, parse_model, AttributeValue, DataType, OnnxAttribute, OnnxNode, OnnxTensor,
};

fn varint(mut n: u64) -> Vec<u8> {
    let mut out = Vec::new();
    while n >= 0x80 {
        out.push((n & 0x7f) as u8 | 0x80);
        n >>= 7;
    }
    out.push(n as u8);
    out
}

fn number(field: u64, n: i64) -> Vec<u8> {
    [varint(field << 3), varint(n as u64)].concat()
}

fn bytes(field: u64, data: &[u8]) -> Vec<u8> {
    [varint(field << 3 | 2), varint(data.len() as u64), data.to_vec()].concat()
}

fn float(field: u64, v: f32) -> Vec<u8> {
    [varint(field << 3 | 5), v.to_le_bytes().to_vec()].concat()
}

fn value_info(name: &str, dims: &[i64]) -> Vec<u8> {
    let shape: Vec<u8> = dims.iter().flat_map(|d| bytes(1, &number(1, *d))).collect();
    let tensor = [number(1, 1), bytes(2, &shape)].concat();
    [bytes(1, name.as_bytes()), bytes(2, &bytes(1, &tensor))].concat()
}

fn tensor(name: &str, dims: &[i64], data: &[f32]) -> Vec<u8> {
    let raw: Vec<u8> = data.iter().flat_map(|v| v.to_le_bytes()).collect();
    let dims: Vec<u8> = dims.iter().flat_map(|d| varint(*d as u64)).collect();
    [bytes(1, &dims), number(2, 1), bytes(8, name.as_bytes()), bytes(9, &raw)].concat()
}

fn model_bytes(opset: i64, graph: &[u8]) -> Vec<u8> {
    [
        number(1, 7),
        bytes(2, b"maker"),
        bytes(7, graph),
        bytes(8, &number(2, opset)),
    ]
    .concat()
}

fn small_graph() -> Vec<u8> {
    let node = [
        bytes(1, b"x"),
        bytes(1, b"w"),
        bytes(2, b"y"),
        bytes(3, b"gemm"),
        bytes(4, b"Gemm"),
        bytes(5, &[bytes(1, b"alpha"), float(2, 1.0), number(20, 1)].concat()),
        bytes(5, &[bytes(1, b"transB"), number(3, 1), number(20, 2)].concat()),
    ]
    .concat();
    [
        bytes(1, &node),
        bytes(2, b"graph"),
        bytes(5, &tensor("w", &[2, 3], &[1.0, 2.0, 3.0, 4.0, 5.0, 6.0])),
        bytes(11, &value_info("x", &[1, 3])),
        bytes(12, &value_info("y", &[1, 2])),
    ]
    .concat()
}

#[test]
fn test_data_type_conversion() {
    assert_eq!(DataType::try_from(1).unwrap(), DataType::Float);
    assert_eq!(DataType::try_from(7).unwrap(), DataType::Int64);
    assert_eq!(DataType::try_from(10).unwrap(), DataType::Float16);
}

#[test]
fn unknown_data_types_are_refused() {
    assert_eq!(DataType::try_from(16).unwrap(), DataType::Bfloat16);
    assert!(matches!(DataType::try_from(17), Err(Error::Parse(_))));
    assert!(matches!(DataType::try_from(-1), Err(Error::Parse(_))));
}

#[test]
fn test_onnx_node_attr_helpers() {
    let node = OnnxNode {
        name: "test".into(),
        op_type: "Conv".into(),
        inputs: vec!["x".into()],
        outputs: vec!["y".into()],
        attributes: vec![
            OnnxAttribute {
                name: "kernel_shape".into(),
                value: AttributeValue::Ints(vec![3, 3]),
            },
            OnnxAttribute {
                name: "strides".into(),
                value: AttributeValue::Ints(vec![1, 1]),
            },
            OnnxAttribute {
                name: "group".into(),
                value: AttributeValue::Int(1),
            },
        ],
    };

    assert_eq!(node.get_attr_ints("kernel_shape"), vec![3, 3]);
    assert_eq!(node.get_attr_ints("strides"), vec![1, 1]);
    assert_eq!(node.get_attr_int("group", 1), 1);
    assert_eq!(node.get_attr_int("dilations", 1), 1); // default
}

#[test]
fn attributes_of_another_kind_give_the_default() {
    let node = OnnxNode {
        name: "n".into(),
        op_type: "Resize".into(),
        inputs: vec![],
        outputs: vec![],
        attributes: vec![
            OnnxAttribute { name: "mode".into(), value: AttributeValue::String("linear".into()) },
            OnnxAttribute { name: "f".into(), value: AttributeValue::Float(2.5f32.to_bits()) },
        ],
    };
    assert_eq!(node.get_attr_string("mode", "nearest"), "linear");
    assert_eq!(node.get_attr_string("f", "nearest"), "nearest");
    assert_eq!(node.get_attr_float("f", 0), 2.5f32.to_bits());
    assert_eq!(node.get_attr_float("mode", 7), 7);
    assert!(node.get_attr_ints("mode").is_empty());
    assert!(node.get_attr("none").is_none());
}

#[test]
fn a_small_model_is_read() {
    let model = parse_model(&model_bytes(12, &small_graph())).unwrap();
    assert_eq!(model.ir_version, 7);
    assert_eq!(model.opset_version, 12);
    assert_eq!(model.producer_name, "maker");
    assert_eq!(model.nodes.len(), 1);
    let node = &model.nodes[0];
    assert_eq!(node.name, "gemm");
    assert_eq!(node.op_type, "Gemm");
    assert_eq!(node.inputs, vec!["x", "w"]);
    assert_eq!(node.outputs, vec!["y"]);
    assert_eq!(node.get_attr_float("alpha", 0), 1.0f32.to_bits());
    assert_eq!(node.get_attr_int("transB", 0), 1);
    assert_eq!(model.initializers.len(), 1);
    let w = &model.initializers[0];
    assert_eq!(w.name, "w");
    assert_eq!(w.dims, vec![2, 3]);
    assert_eq!(w.data_type, DataType::Float);
    assert_eq!(w.numel(), 6);
    assert_eq!(w.as_f32_slice().unwrap()[5], 6.0f32.to_bits());
    assert!(w.as_i64_slice().is_none());
    assert_eq!(model.inputs.len(), 1);
    assert_eq!(model.inputs[0].name, "x");
    assert_eq!(model.inputs[0].shape, vec![1, 3]);
    assert_eq!(model.outputs[0].name, "y");
    assert_eq!(model.outputs[0].data_type, DataType::Float);
}

#[test]
fn reading_from_bytes_is_reading() {
    let data = model_bytes(12, &small_graph());
    assert_eq!(load_model_from_bytes(&data).unwrap().nodes.len(), 1);
}

#[test]
fn other_opsets_are_refused() {
    for opset in [11, 13, 20] {
        match parse_model(&model_bytes(opset, &small_graph())) {
            Err(Error::UnsupportedOpset { found, expected }) => {
                assert_eq!(found, opset);
                assert_eq!(expected, 12);
            }
            _ => panic!("opset {} was not refused", opset),
        }
    }
}

#[test]
fn truncated_models_are_refused() {
    let data = model_bytes(12, &small_graph());
    assert!(matches!(parse_model(&data[..data.len() - 1]), Err(Error::Parse(_))));
    assert!(parse_model(&[0xff]).is_err());
}

#[test]
fn broken_text_in_an_attribute_is_replaced_as_std_does() {
    let raw = [b'l', 0xff, b'n'];
    let node = [
        bytes(4, b"Resize"),
        bytes(5, &[bytes(1, b"mode"), bytes(4, &raw), number(20, 3)].concat()),
    ]
    .concat();
    let model = parse_model(&model_bytes(12, &bytes(1, &node))).unwrap();
    let expected = String::from_utf8_lossy(&raw).into_owned();
    assert_eq!(model.nodes[0].get_attr_string("mode", ""), expected);
    assert_ne!(expected.as_bytes(), raw);
}

#[test]
fn typed_data_of_a_tensor_becomes_bytes() {
    let floats: Vec<u8> = [1.5f32, -2.0].iter().flat_map(|v| v.to_le_bytes()).collect();
    let t = [bytes(1, &[2]), number(2, 1), bytes(4, &floats), bytes(8, b"t")].concat();
    let model = parse_model(&model_bytes(12, &bytes(5, &t))).unwrap();
    assert_eq!(model.initializers[0].data, floats);
    let ints = [varint(3), varint(u64::MAX)].concat();
    let t = [bytes(1, &[2]), number(2, 7), bytes(7, &ints), bytes(8, b"t")].concat();
    let model = parse_model(&model_bytes(12, &bytes(5, &t))).unwrap();
    assert_eq!(model.initializers[0].as_i64_slice().unwrap(), vec![3, -1]);
}

#[test]
fn error_texts() {
    let e = Error::UnsupportedOpset { found: 9, expected: 12 };
    assert!(e.message().contains("9") && e.message().contains("12"));
    for (e, word) in [
        (Error::Io("a".into()), "a"),
        (Error::Parse("b".into()), "b"),
        (Error::Shape("c".into()), "c"),
        (Error::Validation("d".into()), "d"),
        (Error::Compile("e".into()), "e"),
        (Error::Runtime("f".into()), "f"),
        (Error::Backend("g".into()), "g"),
    ] {
        assert!(e.message().ends_with(word), "{}", e.message());
    }
}

#[test]
fn tensors_of_another_type_have_no_singles() {
    let t = OnnxTensor { name: "t".into(), dims: vec![1], data_type: DataType::Int8, data: vec![1] };
    assert!(t.as_f32_slice().is_none());
    assert_eq!(t.numel(), 1);
}

#[test]
fn integers_of_a_tensor_are_varints() {
    // Dims [1], element type 6 (INT32), and one varint.
    let t = [bytes(1, &[1]), number(2, 6), bytes(5, &[5]), bytes(8, b"t")].concat();
    let model = parse_model(&model_bytes(12, &bytes(5, &t))).unwrap();
    assert_eq!(model.initializers[0].data, vec![5, 0, 0, 0]);
    // Several fields are gathered, and the low 32 bits count.
    let more = [varint(300), varint(u64::MAX)].concat();
    let t = [bytes(1, &[3]), number(2, 6), bytes(5, &[7]), bytes(5, &more), bytes(8, b"t")].concat();
    let model = parse_model(&model_bytes(12, &bytes(5, &t))).unwrap();
    assert_eq!(model.initializers[0].data, vec![7, 0, 0, 0, 44, 1, 0, 0, 255, 255, 255, 255]);
    // A varint that is cut off is no number.
    let t = [bytes(1, &[1]), number(2, 6), bytes(5, &[0x80]), bytes(8, b"t")].concat();
    assert!(matches!(parse_model(&model_bytes(12, &bytes(5, &t))), Err(Error::Parse(_))));
}
