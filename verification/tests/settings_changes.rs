use fusion_in_motion::compare::{collect_changes, SettingNode, SettingShape};
use serde_yaml_ng::Value;

/// Adds the node of `value` and its descendants; returns its position.
fn add(value: &Value, nodes: &mut Vec<SettingNode>, scalars: &mut Vec<Value>) -> usize {
    let index = nodes.len();
    let text = serde_yaml_ng::to_string(value).unwrap().trim().to_owned();
    nodes.push(SettingNode { text, shape: SettingShape::Sequence(Vec::new()) });
    let shape = match value {
        Value::Mapping(mapping) => SettingShape::Mapping(
            mapping
                .iter()
                .filter_map(|(key, child)| key.as_str().map(|key| (key.to_owned(), child)))
                .map(|(key, child)| (key, add(child, nodes, scalars)))
                .collect(),
        ),
        Value::Sequence(items) => SettingShape::Sequence(items.iter().map(|item| add(item, nodes, scalars)).collect()),
        other => {
            let number = scalars.iter().position(|known| known == other).unwrap_or_else(|| {
                scalars.push(other.clone());
                scalars.len() - 1
            });
            SettingShape::Scalar(number as u64)
        }
    };
    nodes[index].shape = shape;
    index
}

/// The nodes of a YAML document, the root first; equal scalars share a number.
fn document(value: &Value, scalars: &mut Vec<Value>) -> Vec<SettingNode> {
    let mut nodes = Vec::new();
    add(value, &mut nodes, scalars);
    nodes
}

fn changes(baseline: &str, variant: &str) -> Vec<String> {
    let mut scalars = Vec::new();
    let baseline = document(&serde_yaml_ng::from_str(baseline).unwrap(), &mut scalars);
    let variant = document(&serde_yaml_ng::from_str(variant).unwrap(), &mut scalars);
    collect_changes(&baseline, &variant)
}

#[test]
fn reports_changed_leaf_settings() {
    assert_eq!(
        changes(
            "gps:\n  latency_ns: 0\nego_estimator:\n  timing_compensation: false\n",
            "gps:\n  latency_ns: 120000000\nego_estimator:\n  timing_compensation: true\n",
        ),
        [
            "ego_estimator.timing_compensation: false -> true",
            "gps.latency_ns: 0 -> 120000000",
        ]
    );
}

#[test]
fn missing_keys_sequences_and_shape_changes_are_reported() {
    assert_eq!(
        changes("a: 1\nb: 2\n", "b: 2\nc: x\n"),
        ["a: 1 -> <missing>", "c: <missing> -> x"]
    );
    assert_eq!(
        changes("list:\n- 1\n- 2\n- 3\n", "list:\n- 1\n- 5\n"),
        ["list[1]: 2 -> 5", "list.length: 3 -> 2"]
    );
    assert_eq!(changes("a:\n  b: 1\n", "a: 7\n"), ["a: b: 1 -> 7"]);
    assert!(changes("same: [1, 2]\n", "same: [1, 2]\n").is_empty());
    // Values that render alike but differ as values are still reported.
    assert_eq!(changes("v: '1'\n", "v: 1\n"), ["v: '1' -> 1"]);
}
