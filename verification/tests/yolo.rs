use dragonwing::sample::{
    create_mini_yolo_graph, create_synthetic_yolo_output, fused_silu_graph, gemm_f32_graph,
    test_fusion_detection, test_fusion_pass, test_yolo_postprocess, unfused_silu_graph,
};

fn f(bits: u32) -> f32 {
    f32::from_bits(bits)
}

#[test]
fn test_mini_yolo_graph_structure() {
    let graph = create_mini_yolo_graph();

    // Check we have all expected ops
    let op_types: Vec<_> = graph.ops.iter().map(|o| o.op_type.as_str()).collect();

    assert!(op_types.contains(&"Conv"));
    assert!(op_types.contains(&"Sigmoid"));
    assert!(op_types.contains(&"Mul"));
    assert!(op_types.contains(&"Resize"));
    assert!(op_types.contains(&"Concat"));

    // Check input/output
    assert_eq!(graph.inputs, vec!["input"]);
    assert_eq!(graph.outputs, vec!["output"]);

    // Check output shape
    let output_shape = graph.shapes.get("output").unwrap();
    assert_eq!(output_shape.dims, vec![1, 16, 16, 21]);
}

#[test]
fn test_synthetic_output_format() {
    let output = create_synthetic_yolo_output();
    assert_eq!(output.len(), 84 * 8400); // [84, 8400]
    assert_eq!(f(output[8400]), 240.0);
    assert_eq!(f(output[6 * 8400 + 100]), 0.85);
    assert_eq!(output.iter().filter(|v| **v != 0).count(), 15);
}

#[test]
fn test_postprocess_finds_detections() {
    let detections = test_yolo_postprocess();

    // Should find our synthetic detections (minus NMS'd ones)
    assert!(!detections.is_empty(), "should find at least one detection");

    // Check that we have a person detection (class 0)
    let persons: Vec<_> = detections.iter().filter(|d| d.class_id == 0).collect();
    assert!(!persons.is_empty(), "should find person detection");

    // Check that we have a car detection (class 2)
    let cars: Vec<_> = detections.iter().filter(|d| d.class_id == 2).collect();
    assert!(!cars.is_empty(), "should find car detection");

    // NMS should have removed the overlapping person, so exactly 1 person is left.
    assert_eq!(persons.len(), 1, "NMS should remove overlapping detection");
}

#[test]
fn test_fusion_finds_patterns() {
    let stats = test_fusion_detection();

    // Mini-YOLO has 2 SiLU patterns (Sigmoid + Mul)
    assert_eq!(stats.silu, 2, "should find 2 SiLU patterns");
}

#[test]
fn test_fusion_reduces_ops() {
    let (before, after) = test_fusion_pass();
    assert!(after <= before, "fusion should not increase op count: {} -> {}", before, after);
    // Each SiLU loses its Sigmoid.
    assert_eq!((before, after), (10, 8));
}

#[test]
fn test_detection_bbox_format() {
    let detections = test_yolo_postprocess();

    for det in &detections {
        // Bbox should be [x1, y1, x2, y2] in pixel coordinates
        assert!(f(det.bbox[0]) <= f(det.bbox[2]), "x1 should be <= x2");
        assert!(f(det.bbox[1]) <= f(det.bbox[3]), "y1 should be <= y2");

        // Bbox should be within image bounds (with some margin for scaling)
        assert!(f(det.bbox[0]) >= 0.0, "x1 should be >= 0");
        assert!(f(det.bbox[1]) >= 0.0, "y1 should be >= 0");

        // Confidence should be valid
        assert!(f(det.confidence) >= 0.25, "confidence should be above threshold");
        assert!(f(det.confidence) <= 1.0, "confidence should be <= 1.0");
    }
}

#[test]
fn graphs_to_measure() {
    let a = unfused_silu_graph(1024);
    assert_eq!(a.num_ops(), 2);
    assert_eq!(a.shapes.get("s").unwrap().dims, vec![1024]);
    let b = fused_silu_graph(1024);
    assert_eq!(b.ops[0].op_type, "SiLU");
    let c = gemm_f32_graph(64, 32, 128);
    assert_eq!(c.shapes.get("b").unwrap().dims, vec![128, 32]);
    assert_eq!(c.inputs, vec!["a", "b"]);
}
