use dragonwing::postprocess::{
    decode_detections_v8, decode_detections_v8_alt, iou, nms, nms_agnostic, Detection,
};

fn det(bbox: [f32; 4], class_id: u32, confidence: f32) -> Detection {
    let bits = [bbox[0].to_bits(), bbox[1].to_bits(), bbox[2].to_bits(), bbox[3].to_bits()];
    Detection::new(bits, class_id, confidence.to_bits())
}

fn f(bits: u32) -> f32 {
    f32::from_bits(bits)
}

#[test]
fn test_iou_no_overlap() {
    let a = det([0.0, 0.0, 10.0, 10.0], 0, 0.9);
    let b = det([20.0, 20.0, 30.0, 30.0], 0, 0.8);
    assert_eq!(f(iou(&a, &b)), 0.0);
}

#[test]
fn test_iou_full_overlap() {
    let a = det([0.0, 0.0, 10.0, 10.0], 0, 0.9);
    let b = det([0.0, 0.0, 10.0, 10.0], 0, 0.8);
    assert!((f(iou(&a, &b)) - 1.0).abs() < 1e-5);
}

#[test]
fn test_iou_partial_overlap() {
    let a = det([0.0, 0.0, 10.0, 10.0], 0, 0.9);
    let b = det([5.0, 0.0, 15.0, 10.0], 0, 0.8);
    // Intersection: 5x10 = 50, Union: 100 + 100 - 50 = 150
    let expected_iou = 50.0 / 150.0;
    assert!((f(iou(&a, &b)) - expected_iou).abs() < 1e-5);
}

#[test]
fn test_nms_basic() {
    let mut detections = vec![
        det([0.0, 0.0, 10.0, 10.0], 0, 0.9),
        det([1.0, 1.0, 11.0, 11.0], 0, 0.8), // Overlaps with first, same class
        det([20.0, 20.0, 30.0, 30.0], 0, 0.7), // No overlap
    ];

    nms(&mut detections, 0.5f32.to_bits());

    // Should keep the high-conf one and the non-overlapping one
    assert_eq!(detections.len(), 2);
    assert!((f(detections[0].confidence) - 0.9).abs() < 1e-5);
}

#[test]
fn test_nms_different_classes() {
    let mut detections = vec![
        det([0.0, 0.0, 10.0, 10.0], 0, 0.9),
        det([0.0, 0.0, 10.0, 10.0], 1, 0.8), // Same box, different class
    ];

    nms(&mut detections, 0.5f32.to_bits());

    // Different classes should both be kept
    assert_eq!(detections.len(), 2);
}

#[test]
fn test_decode_empty() {
    let detections = decode_detections_v8(&[], 80, 8400, 640, 480, 0.25f32.to_bits());
    assert!(detections.is_empty());
}

#[test]
fn test_detection_area() {
    let det = det([0.0, 0.0, 10.0, 20.0], 0, 0.9);
    assert!((f(det.area()) - 200.0).abs() < 1e-5);
}

#[test]
fn across_classes_the_better_one_stays() {
    let mut detections = vec![
        det([0.0, 0.0, 10.0, 10.0], 0, 0.8),
        det([0.0, 0.0, 10.0, 10.0], 1, 0.9),
    ];
    nms_agnostic(&mut detections, 0.5f32.to_bits());
    assert_eq!(detections.len(), 1);
    assert_eq!(detections[0].class_id, 1);
}

#[test]
fn both_layouts_give_the_same_detections() {
    // Two classes, three anchors.
    let rows = [
        [0.5f32, 0.5, 0.2, 0.2, 0.1, 0.9],
        [0.3, 0.3, 0.1, 0.1, 0.2, 0.1],
        [0.7, 0.6, 0.3, 0.1, 0.6, 0.5],
    ];
    let mut first = vec![0u32; 18];
    let mut last = vec![0u32; 18];
    for a in 0..3 {
        for c in 0..6 {
            first[c * 3 + a] = rows[a][c].to_bits();
            last[a * 6 + c] = rows[a][c].to_bits();
        }
    }
    let threshold = 0.25f32.to_bits();
    let x = decode_detections_v8(&first, 2, 3, 640, 480, threshold);
    let y = decode_detections_v8_alt(&last, 2, 3, 640, 480, threshold);
    assert_eq!(x.len(), 2);
    assert_eq!(y.len(), 2);
    for i in 0..2 {
        assert_eq!(x[i].bbox, y[i].bbox);
        assert_eq!(x[i].class_id, y[i].class_id);
        assert_eq!(x[i].confidence, y[i].confidence);
    }
    assert_eq!(x[0].class_id, 1);
    assert_eq!(f(x[0].confidence), 0.9);
    assert_eq!(x[1].class_id, 0);
}

#[test]
fn what_remains_is_ordered_and_apart() {
    let mut all: Vec<Detection> = Vec::new();
    for i in 0..20 {
        let x = (i * 7 % 20) as f32;
        all.push(det([x, 0.0, x + 5.0, 5.0], (i % 2) as u32, 0.3 + 0.03 * (i * 3 % 20) as f32));
    }
    nms(&mut all, 0.4f32.to_bits());
    for i in 0..all.len() {
        for j in 0..i {
            if all[i].class_id == all[j].class_id {
                assert!(f(iou(&all[i], &all[j])) <= 0.4);
            }
        }
    }
    assert!(!all.is_empty());
}

#[test]
fn what_is_left_stays_by_rank() {
    let a = det([0.0, 0.0, 10.0, 10.0], 0, 0.9);
    let b = det([1.0, 1.0, 11.0, 11.0], 0, 0.8);
    let c = det([20.0, 20.0, 30.0, 30.0], 0, 0.7);
    let d = det([40.0, 40.0, 50.0, 50.0], 0, 0.6);
    let confidences = |v: &[Detection]| -> Vec<f32> { v.iter().map(|x| f(x.confidence)).collect() };
    let mut all = vec![a, b, c, d];
    nms(&mut all, 0.5f32.to_bits());
    assert_eq!(confidences(&all), vec![0.9, 0.7, 0.6]);
    let mut all = vec![d, b, c, a];
    nms_agnostic(&mut all, 0.5f32.to_bits());
    assert_eq!(confidences(&all), vec![0.9, 0.7, 0.6]);
}

#[test]
fn overlap_keeps_its_promises() {
    let boxes = [
        [0.0f32, 0.0, 10.0, 10.0],
        [5.0, 5.0, 15.5, 12.25],
        [0.1, 0.3, 0.7, 0.9],
        [-3.0, -4.0, 3.0, 4.0],
        [1e10, 1e10, 3e10, 2e10],
        [1e-20, 1e-20, 2e-20, 3e-20],
        [10.0, 0.0, 20.0, 10.0],
        [4.0, 4.0, 4.0, 9.0],
        [9.0, 9.0, 1.0, 1.0],
    ];
    for x in boxes {
        let a = det(x, 0, 0.9);
        if f(a.area()) > 0.0 {
            assert_eq!(f(iou(&a, &a)), 1.0, "{x:?}");
        } else {
            assert_eq!(f(iou(&a, &a)), 0.0, "{x:?}");
        }
        for y in boxes {
            let b = det(y, 1, 0.1);
            let r = f(iou(&a, &b));
            assert!((0.0..=1.0).contains(&r), "{x:?} {y:?}");
            assert_eq!(r, f(iou(&b, &a)), "{x:?} {y:?}");
        }
    }
    // Boxes that touch do not overlap.
    let a = det(boxes[0], 0, 0.9);
    let b = det(boxes[6], 0, 0.9);
    assert_eq!(f(iou(&a, &b)), 0.0);
}
