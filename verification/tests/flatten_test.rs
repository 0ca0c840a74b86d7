use riffy::flatten::{flatten, flatten_value, join_path, DiffType, FieldDiffs};
use riffy::compare::diff;
use riffy::json::{json_equal, JsonValue};
use riffy::query::parse_body;

fn json(text: &str) -> JsonValue {
    parse_body(text)
}

fn holds(side: &Option<JsonValue>, text: &str) -> bool {
    match side {
        Some(v) => json_equal(v, &json(text)),
        None => false,
    }
}

fn key(path: &str) -> String {
    path.to_owned()
}

#[test]
fn flatten_equal_values() {
    let left = json(r#"{"a": 1}"#);
    let right = json(r#"{"a": 1}"#);
    let result = flatten_value(&left, &right);
    assert_eq!(result.len(), 0);
}

#[test]
fn flatten_primitive_diff() {
    let left = json(r#"{"a": 1}"#);
    let right = json(r#"{"a": 2}"#);
    let result = flatten_value(&left, &right);
    let entry = result.get(&key("a")).unwrap();
    assert_eq!(entry.diff_type, DiffType::Primitive);
    assert!(holds(&entry.left, "1"));
    assert!(holds(&entry.right, "2"));
}

#[test]
fn flatten_nested_object() {
    let left = json(r#"{"user": {"name": "alice", "age": 30}}"#);
    let right = json(r#"{"user": {"name": "bob", "age": 30}}"#);
    let result = flatten_value(&left, &right);
    assert_eq!(result.len(), 1);
    let name = result.get(&key("user.name")).unwrap();
    assert_eq!(name.diff_type, DiffType::Primitive);
    assert!(holds(&name.left, "\"alice\""));
    assert!(holds(&name.right, "\"bob\""));
    assert!(!result.contains_key(&key("user.age")));
}

#[test]
fn flatten_array_diff() {
    let left = json(r#"{"items": [1, 2, 3]}"#);
    let right = json(r#"{"items": [1, 99, 3]}"#);
    let result = flatten_value(&left, &right);
    let entry = result.get(&key("items.1")).unwrap();
    assert_eq!(entry.diff_type, DiffType::Primitive);
    assert!(holds(&entry.left, "2"));
    assert!(holds(&entry.right, "99"));
}

#[test]
fn flatten_array_ordering() {
    let left = json(r#"{"items": [1, 2, 3]}"#);
    let right = json(r#"{"items": [3, 2, 1]}"#);
    let result = flatten_value(&left, &right);
    let entry = result.get(&key("items")).unwrap();
    assert_eq!(entry.diff_type, DiffType::Reorder);
}

#[test]
fn flatten_array_size_diff() {
    let left = json(r#"{"items": [1, 2]}"#);
    let right = json(r#"{"items": [1, 2, 3]}"#);
    let result = flatten_value(&left, &right);
    let entry = result.get(&key("items")).unwrap();
    assert_eq!(entry.diff_type, DiffType::SeqSize);
    assert!(holds(&entry.left, "[]"));
    assert!(holds(&entry.right, "[3]"));
}

#[test]
fn flatten_type_mismatch() {
    let left = json(r#"{"a": 1}"#);
    let right = json(r#"{"a": "1"}"#);
    let result = flatten_value(&left, &right);
    let entry = result.get(&key("a")).unwrap();
    assert_eq!(entry.diff_type, DiffType::TypeMismatch);
}

#[test]
fn flatten_top_level_type_mismatch_uses_empty_path() {
    let left = json(r#"{"a": 1}"#);
    let right = json("[1]");
    let result = flatten_value(&left, &right);
    let entry = result.get(&key("")).unwrap();
    assert_eq!(entry.diff_type, DiffType::TypeMismatch);
}

#[test]
fn flatten_deeply_nested_array_of_objects() {
    let left = json(r#"{"data": {"users": [{"id": 1}, {"id": 2}]}}"#);
    let right = json(r#"{"data": {"users": [{"id": 1}, {"id": 99}]}}"#);
    let result = flatten_value(&left, &right);
    assert_eq!(result.len(), 1);
    let entry = result.get(&key("data.users.1.id")).unwrap();
    assert_eq!(entry.diff_type, DiffType::Primitive);
    assert!(holds(&entry.left, "2"));
    assert!(holds(&entry.right, "99"));
}

#[test]
fn flatten_missing_and_extra_fields() {
    let left = json(r#"{"a": 1, "b": 2}"#);
    let right = json(r#"{"a": 1, "c": 3}"#);
    let result = flatten_value(&left, &right);
    assert_eq!(result.get(&key("b")).unwrap().diff_type, DiffType::MissingField);
    assert_eq!(result.get(&key("c")).unwrap().diff_type, DiffType::ExtraField);
}

#[test]
fn missing_and_extra_fields_carry_one_side_only() {
    let result = flatten_value(&json(r#"{"b": 2}"#), &json(r#"{"c": 3}"#));
    let missing = result.get(&key("b")).unwrap();
    assert!(holds(&missing.left, "2"));
    assert!(missing.right.is_none());
    let extra = result.get(&key("c")).unwrap();
    assert!(extra.left.is_none());
    assert!(holds(&extra.right, "3"));
}

#[test]
fn flatten_under_a_prefix_and_join_paths() {
    let d = diff(&json(r#"{"x": 1}"#), &json(r#"{"x": 2}"#));
    let result = flatten(&d, &key("root"));
    assert!(result.contains_key(&key("root.x")));
    assert_eq!(join_path(&key(""), &key("a")), "a");
    assert_eq!(join_path(&key("a"), &key("b")), "a.b");
}

#[test]
fn field_diffs_insert_replaces_and_lists_in_order() {
    let mut diffs = FieldDiffs::new();
    let first = flatten_value(&json("1"), &json("2"));
    let d = first.get(&key("")).unwrap().clone();
    diffs.insert(key("p"), d.clone());
    diffs.insert(key("q"), d.clone());
    diffs.insert(key("p"), d);
    assert_eq!(diffs.len(), 2);
    assert_eq!(diffs.entry(0).0, "p");
    assert_eq!(diffs.entry(1).0, "q");
}

#[test]
fn flattened_keys_stay_under_their_path() {
    let d = diff(&json(r#"{"x": {"y": 1}, "z": [1, 2]}"#), &json(r#"{"x": {"y": 2}, "z": [1, 3]}"#));
    let result = flatten(&d, &key("root"));
    assert!(result.len() >= 2);
    for i in 0..result.len() {
        let k: &str = result.entry(i).0.as_str();
        assert!(k == "root" || k.starts_with("root."));
    }
    let same = diff(&json(r#"{"x": 1}"#), &json(r#"{"x": 1}"#));
    assert_eq!(flatten(&same, &key("root")).len(), 0);
}
