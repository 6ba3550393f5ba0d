use dragonwing::inspect::count_op_types;
use dragonwing::model::{Model, OnnxNode};

fn model(types: &[&str]) -> Model {
    Model {
        ir_version: 7,
        opset_version: 12,
        producer_name: "".into(),
        nodes: types
            .iter()
            .map(|t| OnnxNode {
                name: "".into(),
                op_type: t.to_string(),
                inputs: vec![],
                outputs: vec![],
                attributes: vec![],
            })
            .collect(),
        initializers: vec![],
        inputs: vec![],
        outputs: vec![],
    }
}

#[test]
fn nodes_are_counted_by_type() {
    let counts = count_op_types(&model(&["Conv", "Relu", "Conv", "Add", "Conv", "Relu"]));
    let counts: Vec<(&str, usize)> = counts.iter().map(|(t, n)| (t.as_str(), *n)).collect();
    assert_eq!(counts, vec![("Conv", 3), ("Relu", 2), ("Add", 1)]);
    assert!(count_op_types(&model(&[])).is_empty());
}

#[test]
fn types_that_are_as_frequent_stay_in_order() {
    let counts = count_op_types(&model(&["B", "A", "C", "C", "A"]));
    let types: Vec<&str> = counts.iter().map(|(t, _)| t.as_str()).collect();
    assert_eq!(types, vec!["A", "C", "B"]);
}
