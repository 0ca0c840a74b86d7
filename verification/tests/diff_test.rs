use riffy::compare::{diff, set_difference, Difference};
use riffy::json::{json_equal, json_identical, JsonValue};
use riffy::query::parse_body;

fn json(text: &str) -> JsonValue {
    parse_body(text)
}

fn field<'a>(fields: &'a [(String, Difference)], key: &str) -> Option<&'a Difference> {
    fields.iter().find(|(k, _)| k == key).map(|(_, d)| d)
}

fn same_values(a: &[JsonValue], b: &[JsonValue]) -> bool {
    a.len() == b.len() && a.iter().zip(b.iter()).all(|(x, y)| json_equal(x, y))
}

#[test]
fn equal_null() {
    let result = diff(&json("null"), &json("null"));
    assert!(matches!(result, Difference::NoDifference(_)));
}

#[test]
fn equal_bool() {
    let result = diff(&json("true"), &json("true"));
    assert!(matches!(result, Difference::NoDifference(_)));
}

#[test]
fn equal_number() {
    let result = diff(&json("42"), &json("42"));
    assert!(matches!(result, Difference::NoDifference(_)));
}

#[test]
fn equal_string() {
    let result = diff(&json("\"hello\""), &json("\"hello\""));
    assert!(matches!(result, Difference::NoDifference(_)));
}

#[test]
fn equal_object() {
    let left = json(r#"{"a": 1, "b": "x"}"#);
    let right = json(r#"{"a": 1, "b": "x"}"#);
    let result = diff(&left, &right);
    assert!(matches!(result, Difference::NoDifference(_)));
}

#[test]
fn equal_array() {
    let left = json("[1, 2, 3]");
    let right = json("[1, 2, 3]");
    let result = diff(&left, &right);
    assert!(matches!(result, Difference::NoDifference(_)));
}

#[test]
fn primitive_bool_diff() {
    let result = diff(&json("true"), &json("false"));
    assert!(matches!(result, Difference::PrimitiveDifference { .. }));
}

#[test]
fn primitive_number_diff() {
    let result = diff(&json("1"), &json("2"));
    assert!(matches!(result, Difference::PrimitiveDifference { .. }));
}

#[test]
fn primitive_string_diff() {
    let result = diff(&json("\"a\""), &json("\"b\""));
    assert!(matches!(result, Difference::PrimitiveDifference { .. }));
}

#[test]
fn null_vs_non_null() {
    let result = diff(&json("null"), &json("42"));
    assert!(matches!(result, Difference::TypeDifference { .. }));
}

#[test]
fn type_mismatch_object_vs_array() {
    let left = json(r#"{"a": 1}"#);
    let right = json("[1]");
    let result = diff(&left, &right);
    assert!(matches!(result, Difference::TypeDifference { .. }));
}

#[test]
fn type_mismatch_string_vs_number() {
    let result = diff(&json("\"1\""), &json("1"));
    assert!(matches!(result, Difference::TypeDifference { .. }));
}

#[test]
fn object_shared_keys_diff_values() {
    let left = json(r#"{"a": 1}"#);
    let right = json(r#"{"a": 2}"#);
    match diff(&left, &right) {
        Difference::ObjectDifference { fields } => {
            assert!(matches!(field(&fields, "a"), Some(Difference::PrimitiveDifference { .. })));
        }
        _ => panic!("expected ObjectDifference"),
    }
}

#[test]
fn object_missing_key() {
    let left = json(r#"{"a": 1, "b": 2}"#);
    let right = json(r#"{"a": 1}"#);
    match diff(&left, &right) {
        Difference::ObjectDifference { fields } => {
            assert!(matches!(field(&fields, "b"), Some(Difference::MissingField { .. })));
        }
        _ => panic!("expected ObjectDifference"),
    }
}

#[test]
fn object_extra_key() {
    let left = json(r#"{"a": 1}"#);
    let right = json(r#"{"a": 1, "b": 2}"#);
    match diff(&left, &right) {
        Difference::ObjectDifference { fields } => {
            assert!(matches!(field(&fields, "b"), Some(Difference::ExtraField { .. })));
        }
        _ => panic!("expected ObjectDifference"),
    }
}

#[test]
fn nested_object_diff() {
    let left = json(r#"{"user": {"name": "alice", "age": 30}}"#);
    let right = json(r#"{"user": {"name": "bob", "age": 30}}"#);
    match diff(&left, &right) {
        Difference::ObjectDifference { fields } => match field(&fields, "user") {
            Some(Difference::ObjectDifference { fields: inner }) => {
                assert!(matches!(field(inner, "name"), Some(Difference::PrimitiveDifference { .. })));
                assert!(field(inner, "age").is_none());
            }
            _ => panic!("expected nested ObjectDifference"),
        },
        _ => panic!("expected ObjectDifference"),
    }
}

#[test]
fn array_same_size_diff_values() {
    let left = json("[1, 2, 3]");
    let right = json("[1, 99, 3]");
    match diff(&left, &right) {
        Difference::IndexedDifference { elements } => {
            assert_eq!(elements.len(), 1);
            assert_eq!(elements[0].0, 1);
            assert!(matches!(elements[0].1, Difference::PrimitiveDifference { .. }));
        }
        _ => panic!("expected IndexedDifference"),
    }
}

#[test]
fn array_different_size() {
    let left = json("[1, 2, 3]");
    let right = json("[1, 2, 3, 5]");
    match diff(&left, &right) {
        Difference::SeqSizeDifference { left_not_right, right_not_left } => {
            assert!(left_not_right.is_empty());
            assert!(same_values(&right_not_left, &[json("5")]));
        }
        _ => panic!("expected SeqSizeDifference"),
    }
}

#[test]
fn array_different_size_with_duplicates() {
    let left = json("[1, 1, 2]");
    let right = json("[1, 2]");
    match diff(&left, &right) {
        Difference::SeqSizeDifference { left_not_right, right_not_left } => {
            assert!(same_values(&left_not_right, &[json("1")]));
            assert!(right_not_left.is_empty());
        }
        _ => panic!("expected SeqSizeDifference"),
    }
}

#[test]
fn array_same_elements_different_order() {
    let left = json("[1, 2, 3]");
    let right = json("[3, 2, 1]");
    let result = diff(&left, &right);
    assert!(matches!(result, Difference::OrderingDifference));
}

#[test]
fn empty_objects() {
    let left = json("{}");
    let right = json("{}");
    let result = diff(&left, &right);
    assert!(matches!(result, Difference::NoDifference(_)));
}

#[test]
fn multiset_difference_keeps_surplus_copies() {
    let a = vec![json("1"), json("1"), json("1"), json("2")];
    let b = vec![json("1"), json("3")];
    let d = set_difference(&a, &b);
    assert!(same_values(&d, &[json("1"), json("1"), json("2")]));
    assert!(set_difference(&b, &b).is_empty());
}

#[test]
fn equal_values_are_carried_in_no_difference() {
    match diff(&json(r#"{"k": [1, {"x": null}]}"#), &json(r#"{"k": [1, {"x": null}]}"#)) {
        Difference::NoDifference(v) => assert!(json_equal(&v, &json(r#"{"k": [1, {"x": null}]}"#))),
        _ => panic!("expected NoDifference"),
    }
}

#[test]
fn malformed_text_is_kept_as_a_string() {
    assert!(json_equal(&parse_body("{\"a\": "), &JsonValue::Str("{\"a\": ".to_owned())));
    assert!(json_equal(&parse_body(""), &JsonValue::Str(String::new())));
    assert!(!json_equal(&json("1"), &json("\"1\"")));
}

#[test]
fn negative_zero_equals_zero() {
    assert!(json_equal(&json("-0.0"), &json("0.0")));
    assert!(!json_identical(&json("-0.0"), &json("0.0")));
    assert!(matches!(diff(&json("-0.0"), &json("0.0")), Difference::NoDifference(_)));
    assert!(matches!(diff(&json("[-0.0]"), &json("[0.0]")), Difference::NoDifference(_)));
    assert!(matches!(diff(&json(r#"{"a": -0.0}"#), &json(r#"{"a": 0.0}"#)), Difference::NoDifference(_)));
    assert!(matches!(diff(&json("0.0"), &json("0")), Difference::PrimitiveDifference { .. }));
}

#[test]
fn reordered_signed_zeros_differ_by_index() {
    match diff(&json("[-0.0, 1]"), &json("[1, 0.0]")) {
        Difference::IndexedDifference { elements } => {
            assert_eq!(elements.len(), 2);
            assert_eq!(elements[0].0, 0);
            assert_eq!(elements[1].0, 1);
        }
        _ => panic!("expected IndexedDifference"),
    }
    match diff(&json("[-0.0, 2]"), &json("[0.0, 3]")) {
        Difference::IndexedDifference { elements } => {
            assert_eq!(elements.len(), 1);
            assert_eq!(elements[0].0, 1);
        }
        _ => panic!("expected IndexedDifference"),
    }
}
