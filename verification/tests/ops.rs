use dragonwing::builder::{BuildContext, CompiledOp, OpParams, UnsupportedReason};
use dragonwing::error::Error;
use dragonwing::model::{AttributeValue, DataType, OnnxAttribute, OnnxNode, OnnxTensor};
use dragonwing::name_map::NameMap;
use dragonwing::ops::{get_builder, OpBuilder};
use dragonwing::tensor::{Dtype, TensorShape};

fn node(op_type: &str, inputs: &[&str], outputs: &[&str], attributes: Vec<OnnxAttribute>) -> OnnxNode {
    OnnxNode {
        name: "n".into(),
        op_type: op_type.into(),
        inputs: inputs.iter().map(|s| s.to_string()).collect(),
        outputs: outputs.iter().map(|s| s.to_string()).collect(),
        attributes,
    }
}

fn wholes(name: &str, v: &[i64]) -> OnnxAttribute {
    OnnxAttribute { name: name.into(), value: AttributeValue::Ints(v.to_vec()) }
}

fn whole(name: &str, v: i64) -> OnnxAttribute {
    OnnxAttribute { name: name.into(), value: AttributeValue::Int(v) }
}

fn single(name: &str, v: f32) -> OnnxAttribute {
    OnnxAttribute { name: name.into(), value: AttributeValue::Float(v.to_bits()) }
}

fn text(name: &str, v: &str) -> OnnxAttribute {
    OnnxAttribute { name: name.into(), value: AttributeValue::String(v.into()) }
}

fn tensor_i64(name: &str, v: &[i64]) -> OnnxTensor {
    OnnxTensor {
        name: name.into(),
        dims: vec![v.len() as i64],
        data_type: DataType::Int64,
        data: v.iter().flat_map(|x| x.to_le_bytes()).collect(),
    }
}

fn tensor_f32(name: &str, dims: &[i64], v: &[f32]) -> OnnxTensor {
    OnnxTensor {
        name: name.into(),
        dims: dims.to_vec(),
        data_type: DataType::Float,
        data: v.iter().flat_map(|x| x.to_le_bytes()).collect(),
    }
}

fn constants(tensors: Vec<OnnxTensor>) -> NameMap<OnnxTensor> {
    let mut map = NameMap::new();
    for t in tensors {
        map.insert(t.name.clone(), t);
    }
    map
}

fn context<'a>(map: &'a NameMap<OnnxTensor>, shapes: &[(&str, &[usize])]) -> BuildContext<'a> {
    let mut ctx = BuildContext::new(Dtype::F32, map);
    for (name, dims) in shapes {
        ctx.set_shape(name.to_string(), TensorShape::new(dims.to_vec(), Dtype::F32));
    }
    ctx
}

fn builder(n: &OnnxNode) -> OpBuilder {
    get_builder(&n.op_type).unwrap()
}

fn build(n: &OnnxNode, ctx: &mut BuildContext<'_>) -> CompiledOp {
    let b = builder(n);
    assert!(b.is_supported(n, ctx).is_ok());
    match b.build(n, ctx) {
        Ok(op) => op,
        Err(e) => panic!("{}", e.message()),
    }
}

fn dims(ctx: &BuildContext<'_>, name: &str) -> Vec<usize> {
    ctx.get_shape(name).unwrap().dims.clone()
}

fn refusal(n: &OnnxNode, ctx: &BuildContext<'_>) -> String {
    match builder(n).validate(n, ctx) {
        Err(Error::Validation(t)) => t,
        Err(e) => e.message(),
        Ok(_) => panic!("accepted"),
    }
}

fn reason(n: &OnnxNode, ctx: &BuildContext<'_>) -> String {
    match builder(n).is_supported(n, ctx) {
        Err(r) => r.message(),
        Ok(_) => panic!("supported"),
    }
}

#[test]
fn every_builder_goes_by_its_op_type() {
    let types = [
        "Relu", "Clip", "Conv", "Add", "GlobalAveragePool", "Gemm", "MatMul", "Softmax", "Reshape",
        "Flatten", "Squeeze", "Unsqueeze", "BatchNormalization", "MaxPool", "AveragePool", "Concat",
        "Transpose", "Pad", "Shape", "Constant", "Gather", "Sigmoid", "Mul", "Resize", "Split",
        "Slice", "Sub", "Div",
    ];
    for t in types {
        assert_eq!(get_builder(t).unwrap().op_type(), t);
    }
    for t in ["relu", "", "LSTM", "SiLU"] {
        assert!(get_builder(t).is_none());
    }
}

#[test]
fn ops_with_too_few_or_too_many_inputs_are_not_supported() {
    let map = constants(vec![]);
    let ctx = context(&map, &[]);
    for (op_type, given, expected) in [
        ("Relu", 2, "1"),
        ("Clip", 4, "1-3"),
        ("Conv", 1, "2-3"),
        ("Add", 1, "2"),
        ("Gemm", 4, "2-3"),
        ("MaxPool", 0, "1"),
        ("Reshape", 1, "2"),
        ("Unsqueeze", 0, "1 or 2"),
        ("Concat", 0, ">=1"),
        ("Resize", 5, "1-4"),
        ("Split", 3, "1-2"),
        ("Slice", 2, "3-5"),
        ("Div", 3, "2"),
    ] {
        let n = node(op_type, &vec!["x"; given], &["y"], vec![]);
        match builder(&n).is_supported(&n, &ctx) {
            Err(UnsupportedReason::UnsupportedInputCount { found, expected: e }) => {
                assert_eq!((found, e), (given, expected), "{op_type}");
            }
            _ => panic!("{op_type}"),
        }
    }
}

#[test]
fn unsupported_attributes_are_named() {
    let map = constants(vec![tensor_f32("w", &[1, 1, 1, 1], &[1.0])]);
    let ctx = context(&map, &[("x", &[1, 1, 4, 4])]);
    let n = node("Conv", &["x", "w"], &["y"], vec![wholes("dilations", &[2, 2])]);
    assert_eq!(reason(&n, &ctx), "unsupported attribute dilations=[2, 2]: only dilation=1 supported");
    let n = node("MaxPool", &["x"], &["y"], vec![whole("ceil_mode", 1)]);
    assert_eq!(reason(&n, &ctx), "unsupported attribute ceil_mode=1: only ceil_mode=0 supported");
    let n = node("Resize", &["x"], &["y"], vec![text("mode", "cubic")]);
    assert_eq!(
        reason(&n, &ctx),
        "unsupported attribute mode=cubic: only 'nearest' and 'linear' modes supported"
    );
    let n = node("Gemm", &["x", "w"], &["y"], vec![single("alpha", 2.0)]);
    assert!(reason(&n, &ctx).ends_with("only alpha=1, beta=1 supported"));
    let n = node("Gemm", &["x", "w"], &["y"], vec![single("alpha", 1.0000001)]);
    assert!(builder(&n).is_supported(&n, &ctx).is_ok());
    let n = node("Clip", &["x", "", "x"], &["y"], vec![]);
    assert_eq!(reason(&n, &ctx), "Clip max input must be constant");
    let n = node("Clip", &["x", "x"], &["y"], vec![]);
    assert_eq!(reason(&n, &ctx), "Clip min input must be constant");
    let n = node("Reshape", &["x", "s"], &["y"], vec![]);
    assert_eq!(reason(&n, &ctx), "Reshape shape must be constant");
}

#[test]
fn missing_inputs_are_refused() {
    let map = constants(vec![]);
    let ctx = context(&map, &[("x", &[1, 3, 4, 4])]);
    for t in ["Relu", "Clip", "Conv", "Softmax", "Flatten", "Sigmoid", "Mul", "Sub", "Div", "MaxPool"] {
        assert_eq!(refusal(&node(t, &["z", "z"], &["y"], vec![]), &ctx), "input z not found", "{t}");
    }
    assert_eq!(refusal(&node("Conv", &["x", "w"], &["y"], vec![]), &ctx), "weight w must be constant");
    assert_eq!(refusal(&node("Add", &["x", "b"], &["y"], vec![]), &ctx), "input b not found");
    assert_eq!(refusal(&node("Transpose", &["z"], &["y"], vec![]), &ctx), "Transpose: input z not found");
    assert_eq!(refusal(&node("Shape", &["z"], &["y"], vec![]), &ctx), "Shape: input z not found");
    assert_eq!(refusal(&node("Concat", &["x", "z"], &["y"], vec![]), &ctx), "Concat: input z not found");
    assert_eq!(refusal(&node("Gather", &["x", "z"], &["y"], vec![]), &ctx), "Gather: indices z not found");
    assert_eq!(refusal(&node("Slice", &["x", "s", "e"], &["y"], vec![]), &ctx), "Slice: s must be constant");
    assert_eq!(refusal(&node("Pad", &["z"], &["y"], vec![]), &ctx), "Pad validation not implemented");
    assert_eq!(refusal(&node("Constant", &[], &["y"], vec![]), &ctx), "Constant: no value attribute found");
}

#[test]
fn convolutions_take_their_sizes_from_attributes_and_weights() {
    let map = constants(vec![
        tensor_f32("w", &[8, 3, 3, 3], &[0.0; 216]),
        tensor_f32("flat", &[8, 27], &[0.0; 216]),
    ]);
    let mut ctx = context(&map, &[("x", &[2, 3, 10, 12]), ("v", &[3, 10])]);
    let n = node(
        "Conv",
        &["x", "w"],
        &["y"],
        vec![wholes("strides", &[2, 3]), wholes("pads", &[1, 0, 2, 1])],
    );
    let op = build(&n, &mut ctx);
    // (10 + 3 - 3) / 2 + 1 and (12 + 1 - 3) / 3 + 1
    assert_eq!(dims(&ctx, "y"), vec![2, 8, 6, 4]);
    match op.params {
        OpParams::Conv2d { kernel_shape, strides, pads, dilations, group } => {
            assert_eq!(kernel_shape, [3, 3]);
            assert_eq!(strides, [2, 3]);
            assert_eq!(pads, [1, 0, 2, 1]);
            assert_eq!(dilations, [1, 1]);
            assert_eq!(group, 1);
        }
        p => panic!("{p:?}"),
    }
    assert_eq!(
        refusal(&node("Conv", &["x", "w"], &["y"], vec![whole("group", 2)]), &ctx),
        "group 2 must divide both c_in 3 and c_out 8"
    );
    assert_eq!(refusal(&node("Conv", &["v", "w"], &["y"], vec![]), &ctx), "Conv input must be 4D (NCHW)");
    assert_eq!(refusal(&node("Conv", &["x", "flat"], &["y"], vec![]), &ctx), "Conv weight must be 4D (OIHW)");
    // A kernel that is larger than the image has no place on it.
    assert!(builder(&n).validate(&node("Conv", &["x", "w"], &["y"], vec![wholes("kernel_shape", &[11, 1])]), &ctx).is_err());
}

#[test]
fn pools_halve_the_image() {
    let map = constants(vec![]);
    let mut ctx = context(&map, &[("x", &[1, 8, 6, 16]), ("v", &[8])]);
    let n = node("MaxPool", &["x"], &["y"], vec![wholes("kernel_shape", &[2, 2]), wholes("strides", &[2])]);
    let op = build(&n, &mut ctx);
    assert_eq!(dims(&ctx, "y"), vec![1, 4, 3, 16]);
    assert!(matches!(
        op.params,
        OpParams::MaxPool { kernel_shape: [2, 2], strides: [2, 2], pads: [0, 0, 0, 0] }
    ));
    let n = node(
        "AveragePool",
        &["x"],
        &["z"],
        vec![wholes("kernel_shape", &[3, 3]), wholes("pads", &[1, 1, 1, 1])],
    );
    let op = build(&n, &mut ctx);
    assert_eq!(dims(&ctx, "z"), vec![1, 8, 6, 16]);
    assert!(matches!(op.params, OpParams::AvgPool { strides: [1, 1], pads: [1, 1, 1, 1], .. }));
    assert_eq!(refusal(&node("MaxPool", &["x"], &["y"], vec![]), &ctx), "MaxPool requires kernel_shape");
    assert_eq!(refusal(&node("AveragePool", &["v"], &["y"], vec![]), &ctx), "AveragePool input must be 4D");
    assert_eq!(
        refusal(&node("MaxPool", &["x"], &["y"], vec![wholes("kernel_shape", &[2])]), &ctx),
        "only 2D pooling supported"
    );
    let op = build(&node("GlobalAveragePool", &["x"], &["g"], vec![]), &mut ctx);
    assert_eq!(dims(&ctx, "g"), vec![1, 8, 1, 1]);
    assert!(matches!(op.params, OpParams::GlobalAvgPool));
}

#[test]
fn sums_broadcast() {
    let map = constants(vec![tensor_f32("bias", &[4], &[0.0; 4])]);
    let mut ctx = context(&map, &[("a", &[2, 1, 4]), ("b", &[1, 3, 4]), ("c", &[2, 2, 4]), ("v", &[3])]);
    build(&node("Add", &["a", "b"], &["y"], vec![]), &mut ctx);
    assert_eq!(dims(&ctx, "y"), vec![2, 3, 4]);
    // The other way round it is the same.
    build(&node("Add", &["b", "a"], &["z"], vec![]), &mut ctx);
    assert_eq!(dims(&ctx, "z"), vec![2, 3, 4]);
    build(&node("Add", &["c", "bias"], &["w"], vec![]), &mut ctx);
    assert_eq!(dims(&ctx, "w"), vec![2, 2, 4]);
    assert_eq!(
        refusal(&node("Add", &["b", "c"], &["y"], vec![]), &ctx),
        "Add shapes incompatible: [1, 3, 4] vs [2, 2, 4]"
    );
    assert_eq!(
        refusal(&node("Add", &["a", "v"], &["y"], vec![]), &ctx),
        "Add shapes incompatible: [2, 1, 4] vs [3]"
    );
}

#[test]
fn products_match_their_inner_sizes() {
    let map = constants(vec![tensor_f32("w", &[5, 3], &[0.0; 15])]);
    let mut ctx = context(&map, &[("a", &[2, 3]), ("t", &[3, 2]), ("x", &[1, 2, 3])]);
    let op = build(&node("Gemm", &["a", "w"], &["y"], vec![whole("transB", 1)]), &mut ctx);
    assert_eq!(dims(&ctx, "y"), vec![2, 5]);
    let one = 1.0f32.to_bits();
    match op.params {
        OpParams::Gemm { alpha, beta, trans_a, trans_b } => {
            assert_eq!((alpha, beta, trans_a, trans_b), (one, one, false, true));
        }
        p => panic!("{p:?}"),
    }
    build(&node("Gemm", &["t", "t"], &["z"], vec![whole("transA", 1)]), &mut ctx);
    assert_eq!(dims(&ctx, "z"), vec![2, 2]);
    let op = build(&node("MatMul", &["a", "t"], &["m"], vec![]), &mut ctx);
    assert_eq!(dims(&ctx, "m"), vec![2, 2]);
    assert!(matches!(op.params, OpParams::Gemm { beta: 0, .. }));
    assert_eq!(
        refusal(&node("Gemm", &["a", "w"], &["y"], vec![]), &ctx),
        "Gemm dimension mismatch: A has K=3, B has K=5"
    );
    assert_eq!(
        refusal(&node("MatMul", &["a", "w"], &["y"], vec![]), &ctx),
        "MatMul dimension mismatch: A has K=3, B has K=5"
    );
    assert_eq!(refusal(&node("Gemm", &["x", "w"], &["y"], vec![]), &ctx), "Gemm inputs must be 2D");
    assert_eq!(refusal(&node("MatMul", &["x", "w"], &["y"], vec![]), &ctx), "MatMul inputs must be 2D");
}

#[test]
fn clipping_takes_its_bounds_from_constants_or_attributes() {
    let map = constants(vec![tensor_f32("lo", &[], &[0.0]), tensor_f32("hi", &[], &[6.0])]);
    let mut ctx = context(&map, &[("x", &[4])]);
    let bounds = |op: CompiledOp| match op.params {
        OpParams::Clip { min, max } => (f32::from_bits(min), f32::from_bits(max)),
        p => panic!("{p:?}"),
    };
    let op = build(&node("Clip", &["x", "lo", "hi"], &["y"], vec![]), &mut ctx);
    assert_eq!(op.inputs, vec!["x".to_string()]);
    assert_eq!(bounds(op), (0.0, 6.0));
    let op = build(&node("Clip", &["x", "", "hi"], &["y"], vec![single("min", -1.0)]), &mut ctx);
    assert_eq!(bounds(op), (-1.0, 6.0));
    let op = build(&node("Clip", &["x"], &["y"], vec![]), &mut ctx);
    assert_eq!(bounds(op), (f32::NEG_INFINITY, f32::INFINITY));
}

#[test]
fn reshaping_keeps_the_elements() {
    let map = constants(vec![
        tensor_i64("s", &[0, -1]),
        tensor_i64("two", &[-1, -1]),
        tensor_i64("odd", &[-1, 7]),
        tensor_i64("far", &[1, 1, 1, 1, 0]),
        tensor_i64("all", &[4, 6]),
    ]);
    let mut ctx = context(&map, &[("x", &[2, 3, 4])]);
    let op = build(&node("Reshape", &["x", "s"], &["y"], vec![]), &mut ctx);
    assert_eq!(dims(&ctx, "y"), vec![2, 12]);
    assert_eq!(op.inputs, vec!["x".to_string()]);
    match op.params {
        OpParams::Reshape { shape } => assert_eq!(shape, vec![2, 12]),
        p => panic!("{p:?}"),
    }
    build(&node("Reshape", &["x", "all"], &["z"], vec![]), &mut ctx);
    assert_eq!(dims(&ctx, "z"), vec![4, 6]);
    assert_eq!(
        refusal(&node("Reshape", &["x", "two"], &["y"], vec![]), &ctx),
        "Reshape: only one dimension can be -1"
    );
    assert_eq!(
        refusal(&node("Reshape", &["x", "odd"], &["y"], vec![]), &ctx),
        "Reshape: cannot infer dimension"
    );
    assert_eq!(
        refusal(&node("Reshape", &["x", "far"], &["y"], vec![]), &ctx),
        "Reshape: 0 dimension out of bounds"
    );
    build(&node("Flatten", &["x"], &["f"], vec![]), &mut ctx);
    assert_eq!(dims(&ctx, "f"), vec![2, 12]);
    build(&node("Flatten", &["x"], &["g"], vec![whole("axis", 2)]), &mut ctx);
    assert_eq!(dims(&ctx, "g"), vec![6, 4]);
    // Beyond the last dimension there is nothing to flatten.
    assert!(OpBuilder::Flatten.validate(&node("Flatten", &["x"], &["g"], vec![whole("axis", 4)]), &ctx).is_err());
}

#[test]
fn shapes_are_computed_ahead() {
    // The sizes of x go through Shape, Gather, Unsqueeze and Concat into a Reshape.
    let map = constants(vec![tensor_i64("rest", &[-1])]);
    let mut ctx = context(&map, &[("x", &[5, 3, 4]), ("rest", &[1])]);
    let op = build(&node("Shape", &["x"], &["shape"], vec![]), &mut ctx);
    assert!(op.inputs.is_empty());
    assert_eq!(dims(&ctx, "shape"), vec![3]);
    assert_eq!(
        ctx.get_constant_data("shape").unwrap().to_vec(),
        tensor_i64("", &[5, 3, 4]).data
    );
    let zero = OnnxAttribute {
        name: "value".into(),
        value: AttributeValue::Tensor(OnnxTensor {
            name: "".into(),
            dims: vec![],
            data_type: DataType::Int64,
            data: 1i64.to_le_bytes().to_vec(),
        }),
    };
    build(&node("Constant", &[], &["index"], vec![zero]), &mut ctx);
    assert_eq!(dims(&ctx, "index"), Vec::<usize>::new());
    let op = build(&node("Gather", &["shape", "index"], &["size"], vec![]), &mut ctx);
    assert!(op.inputs.is_empty());
    assert_eq!(ctx.get_constant_data("size").unwrap().to_vec(), 3i64.to_le_bytes().to_vec());
    build(&node("Unsqueeze", &["size"], &["size1"], vec![wholes("axes", &[0])]), &mut ctx);
    assert_eq!(dims(&ctx, "size1"), vec![1]);
    let op = build(&node("Concat", &["size1", "rest"], &["target"], vec![whole("axis", 0)]), &mut ctx);
    assert!(op.inputs.is_empty());
    assert_eq!(dims(&ctx, "target"), vec![2]);
    build(&node("Reshape", &["x", "target"], &["y"], vec![]), &mut ctx);
    assert_eq!(dims(&ctx, "y"), vec![3, 20]);
}

#[test]
fn constants_come_from_any_of_their_attributes() {
    let map = constants(vec![]);
    let mut ctx = context(&map, &[]);
    build(&node("Constant", &[], &["i"], vec![whole("value_int", -2)]), &mut ctx);
    assert_eq!(ctx.get_constant_data("i").unwrap().to_vec(), (-2i64).to_le_bytes().to_vec());
    build(&node("Constant", &[], &["f"], vec![single("value_float", 0.5)]), &mut ctx);
    assert_eq!(ctx.get_constant_data("f").unwrap().to_vec(), 0.5f32.to_le_bytes().to_vec());
    let odd = node("Constant", &[], &["o"], vec![single("value_int", 0.5)]);
    match OpBuilder::Constant.build(&odd, &mut ctx) {
        Err(Error::Validation(t)) => assert_eq!(t, "Constant: value_int is not an int"),
        _ => panic!("built"),
    }
    assert!(ctx.get_shape("o").is_none());
}

#[test]
fn a_constant_index_out_of_range_is_left_to_run_time() {
    let map = constants(vec![tensor_i64("data", &[7, 8]), tensor_i64("at", &[2])]);
    let mut ctx = context(&map, &[("data", &[2]), ("at", &[1])]);
    let op = build(&node("Gather", &["data", "at"], &["y"], vec![]), &mut ctx);
    assert_eq!(op.inputs.len(), 2);
    assert!(ctx.get_constant_data("y").is_none());
    assert_eq!(dims(&ctx, "y"), vec![1]);
}

#[test]
fn gathering_replaces_an_axis_by_the_indices() {
    let map = constants(vec![]);
    let mut ctx = context(&map, &[("x", &[2, 3, 4]), ("at", &[5, 6])]);
    let op = build(&node("Gather", &["x", "at"], &["y"], vec![whole("axis", 1)]), &mut ctx);
    assert_eq!(dims(&ctx, "y"), vec![2, 5, 6, 4]);
    assert_eq!(op.inputs.len(), 2);
}

#[test]
fn new_axes_are_put_in_from_the_front() {
    let map = constants(vec![tensor_i64("axes", &[-1, 0])]);
    let mut ctx = context(&map, &[("x", &[3, 4])]);
    build(&node("Unsqueeze", &["x", "axes"], &["y"], vec![]), &mut ctx);
    assert_eq!(dims(&ctx, "y"), vec![1, 3, 4, 1]);
    build(&node("Unsqueeze", &["x"], &["z"], vec![wholes("axes", &[2, 1])]), &mut ctx);
    assert_eq!(dims(&ctx, "z"), vec![3, 1, 1, 4]);
    assert_eq!(
        refusal(&node("Unsqueeze", &["x", "x"], &["y"], vec![]), &ctx),
        "Unsqueeze: axes must be constant"
    );
}

#[test]
fn joining_adds_up_one_axis() {
    let map = constants(vec![]);
    let mut ctx = context(&map, &[("a", &[1, 2, 5]), ("b", &[1, 3, 5]), ("c", &[1, 4, 5])]);
    let op = build(&node("Concat", &["a", "b", "c"], &["y"], vec![whole("axis", -2)]), &mut ctx);
    assert_eq!(dims(&ctx, "y"), vec![1, 9, 5]);
    assert!(matches!(op.params, OpParams::Concat { axis: 1 }));
    assert_eq!(op.inputs.len(), 3);
}

#[test]
fn splitting_shares_out_one_axis() {
    let map = constants(vec![tensor_i64("sizes", &[1, 5])]);
    let mut ctx = context(&map, &[("x", &[2, 6])]);
    let op = build(&node("Split", &["x"], &["a", "b", "c"], vec![whole("axis", 1)]), &mut ctx);
    for name in ["a", "b", "c"] {
        assert_eq!(dims(&ctx, name), vec![2, 2]);
    }
    match op.params {
        OpParams::Split { axis, split_sizes } => {
            assert_eq!(axis, 1);
            assert_eq!(split_sizes, vec![2, 2, 2]);
        }
        p => panic!("{p:?}"),
    }
    build(&node("Split", &["x", "sizes"], &["d", "e"], vec![whole("axis", -1)]), &mut ctx);
    assert_eq!((dims(&ctx, "d"), dims(&ctx, "e")), (vec![2, 1], vec![2, 5]));
    build(&node("Split", &["x"], &["f", "g"], vec![whole("axis", 1), wholes("split", &[4, 2])]), &mut ctx);
    assert_eq!((dims(&ctx, "f"), dims(&ctx, "g")), (vec![2, 4], vec![2, 2]));
    assert_eq!(
        refusal(&node("Split", &["x", "x"], &["y"], vec![]), &ctx),
        "Split sizes must be constant"
    );
}

#[test]
fn resizing_goes_by_sizes_or_by_scales() {
    let map = constants(vec![
        tensor_i64("sizes", &[1, 3, 9, 11]),
        tensor_f32("scales", &[4], &[1.0, 1.0, 2.0, 1.5]),
        tensor_f32("few", &[2], &[1.0, 1.0]),
    ]);
    let mut ctx = context(&map, &[("x", &[1, 3, 4, 5]), ("v", &[3])]);
    let op = build(&node("Resize", &["x", "", "", "sizes"], &["y"], vec![text("mode", "linear")]), &mut ctx);
    assert_eq!(dims(&ctx, "y"), vec![1, 3, 9, 11]);
    assert_eq!(op.inputs.len(), 1);
    match op.params {
        OpParams::Resize { out_h, out_w, mode } => {
            assert_eq!((out_h, out_w, mode.as_str()), (9, 11, "linear"));
        }
        p => panic!("{p:?}"),
    }
    build(&node("Resize", &["x", "", "scales"], &["z"], vec![]), &mut ctx);
    // 4 * 2 and 5 * 1.5, halves away from zero.
    assert_eq!(dims(&ctx, "z"), vec![1, 3, 8, 8]);
    assert_eq!(
        refusal(&node("Resize", &["x", "", "few"], &["y"], vec![]), &ctx),
        "Resize scales must have 4 elements"
    );
    assert_eq!(
        refusal(&node("Resize", &["x", "", "", "few"], &["y"], vec![]), &ctx),
        "Resize sizes must have 4 elements"
    );
    assert_eq!(
        refusal(&node("Resize", &["x", "", "x"], &["y"], vec![]), &ctx),
        "Resize scales must be constant"
    );
    assert_eq!(
        refusal(&node("Resize", &["x"], &["y"], vec![]), &ctx),
        "Resize requires either scales or sizes"
    );
    assert_eq!(
        refusal(&node("Resize", &["v"], &["y"], vec![]), &ctx),
        "Resize input must be 4D (NCHW)"
    );
}

#[test]
fn slicing_counts_what_lies_between() {
    let map = constants(vec![
        tensor_i64("starts", &[1, -3]),
        tensor_i64("ends", &[100, -1]),
        tensor_i64("axes", &[-1, 0]),
        tensor_i64("steps", &[2, 1]),
        tensor_i64("zero", &[0, 0]),
    ]);
    let mut ctx = context(&map, &[("x", &[5, 8])]);
    let op = build(&node("Slice", &["x", "starts", "ends", "axes", "steps"], &["y"], vec![]), &mut ctx);
    // Of the columns 1, 3, 5 and 7; of the rows 2 and 3.
    assert_eq!(dims(&ctx, "y"), vec![2, 4]);
    match op.params {
        OpParams::Slice { starts, ends, axes, steps } => {
            assert_eq!(starts, vec![1, -3]);
            assert_eq!(ends, vec![100, -1]);
            assert_eq!(axes, vec![1, 0]);
            assert_eq!(steps, vec![2, 1]);
        }
        p => panic!("{p:?}"),
    }
    build(&node("Slice", &["x", "starts", "ends"], &["z"], vec![]), &mut ctx);
    assert_eq!(dims(&ctx, "z"), vec![4, 2]);
    // Nothing lies between the end and the start.
    build(&node("Slice", &["x", "ends", "starts"], &["e"], vec![]), &mut ctx);
    assert_eq!(dims(&ctx, "e"), vec![0, 0]);
    // A step of zero never gets there.
    let n = node("Slice", &["x", "starts", "ends", "axes", "zero"], &["y"], vec![]);
    assert!(OpBuilder::Slice.validate(&n, &ctx).is_err());
}

#[test]
fn transposing_permutes_or_reverses() {
    let map = constants(vec![]);
    let mut ctx = context(&map, &[("x", &[2, 3, 4])]);
    build(&node("Transpose", &["x"], &["y"], vec![]), &mut ctx);
    assert_eq!(dims(&ctx, "y"), vec![4, 3, 2]);
    let op = build(&node("Transpose", &["x"], &["z"], vec![wholes("perm", &[1, 2, 0])]), &mut ctx);
    assert_eq!(dims(&ctx, "z"), vec![3, 4, 2]);
    match op.params {
        OpParams::Transpose { perm } => assert_eq!(perm, vec![1, 2, 0]),
        p => panic!("{p:?}"),
    }
}

#[test]
fn other_ops_keep_the_shape() {
    let map = constants(vec![]);
    let mut ctx = context(&map, &[("x", &[2, 3])]);
    for t in ["Relu", "Softmax", "Sigmoid", "Mul", "Sub", "Div", "Squeeze", "Pad", "BatchNormalization"] {
        let inputs: &[&str] = if ["Mul", "Sub", "Div"].contains(&t) { &["x", "x"] } else { &["x"] };
        let op = build(&node(t, inputs, &["y"], vec![]), &mut ctx);
        assert_eq!(dims(&ctx, "y"), vec![2, 3], "{t}");
        assert_eq!((op.name.as_str(), op.op_type.as_str()), ("n", t));
        assert_eq!(op.outputs, vec!["y".to_string()]);
    }
    let op = build(&node("Softmax", &["x"], &["y"], vec![whole("axis", 1)]), &mut ctx);
    assert!(matches!(op.params, OpParams::Softmax { axis: 1 }));
}

#[test]
fn softmax_works_along_the_last_axis_only() {
    let map = constants(vec![]);
    let ctx = context(&map, &[("x", &[2, 3]), ("v", &[4])]);
    for axis in [0, -2, 2] {
        let n = node("Softmax", &["x"], &["y"], vec![whole("axis", axis)]);
        let text = reason(&n, &ctx);
        assert!(text.contains("axis") && text.contains("only the last axis supported"), "{text}");
    }
    for axis in [1, -1] {
        let n = node("Softmax", &["x"], &["y"], vec![whole("axis", axis)]);
        assert!(builder(&n).is_supported(&n, &ctx).is_ok());
    }
    let n = node("Softmax", &["v"], &["y"], vec![whole("axis", 0)]);
    assert!(builder(&n).is_supported(&n, &ctx).is_ok());
}
