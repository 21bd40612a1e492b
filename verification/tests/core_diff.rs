use turbodiff::{DeepDiff, Number, Value};

fn from_json(v: &serde_json::Value) -> Value {
    match v {
        serde_json::Value::Null => Value::Null,
        serde_json::Value::Bool(b) => Value::Bool(*b),
        serde_json::Value::Number(n) => {
            if let Some(u) = n.as_u64() {
                Value::Number(Number::PosInt(u))
            } else if let Some(i) = n.as_i64() {
                Value::Number(Number::NegInt(i))
            } else {
                Value::Number(Number::Float(n.to_string()))
            }
        }
        serde_json::Value::String(s) => Value::String(s.clone()),
        serde_json::Value::Array(items) => Value::Array(items.iter().map(from_json).collect()),
        serde_json::Value::Object(map) => {
            Value::Object(map.iter().map(|(k, v)| (k.clone(), from_json(v))).collect())
        }
    }
}

fn json(text: &str) -> Value {
    from_json(&serde_json::from_str(text).unwrap())
}

fn diff(t1: Value, t2: Value) -> Value {
    DeepDiff::new(t1, t2).to_value()
}

#[test]
fn core_diff_same_objects_no_diff() {
    let t1 = json(r#"{"a": 1, "b": [1, 2, 3]}"#);
    let diff = diff(t1.clone(), t1);
    assert_eq!(diff, json(r#"{}"#));
}

#[test]
fn core_diff_values_changed_basic() {
    let t1 = json(r#"{"a": 1}"#);
    let t2 = json(r#"{"a": 2}"#);
    let diff = diff(t1, t2);
    let expected = json(r#"{ "values_changed": { "root['a']": {"old_value": 1, "new_value": 2} } }"#);
    assert_eq!(diff, expected);
}

#[test]
fn to_dict_matches_to_value() {
    let t1 = json(r#"{"a": 1}"#);
    let t2 = json(r#"{"a": 2}"#);
    let deepdiff = DeepDiff::new(t1, t2);
    assert_eq!(deepdiff.to_dict(), deepdiff.to_value());
}

#[test]
fn core_diff_dictionary_item_added_removed() {
    let t1 = json(r#"{"a": 1, "b": 2}"#);
    let t2 = json(r#"{"a": 1, "c": 3}"#);
    let diff = diff(t1, t2);
    let expected = json(r#"{ "dictionary_item_added": ["root['c']"], "dictionary_item_removed": ["root['b']"] }"#);
    assert_eq!(diff, expected);
}

#[test]
fn core_diff_iterable_item_added_removed() {
    let t1 = json(r#"[1, 2, 3]"#);
    let t2 = json(r#"[1, 4, 3, 5]"#);
    let diff = diff(t1, t2);
    let expected = json(r#"{ "values_changed": { "root[1]": {"old_value": 2, "new_value": 4} }, "iterable_item_added": { "root[3]": 5 } }"#);
    assert_eq!(diff, expected);
}

#[test]
fn core_diff_type_changes_basic() {
    let t1 = json(r#"{"a": 1}"#);
    let t2 = json(r#"{"a": "1"}"#);
    let diff = diff(t1, t2);
    let expected = json(r#"{ "type_changes": { "root['a']": { "old_type": "int", "new_type": "str", "old_value": 1, "new_value": "1" } } }"#);
    assert_eq!(diff, expected);
}

#[test]
fn core_diff_string_difference() {
    let t1 = json(r#"{"a": "hello", "b": "world"}"#);
    let t2 = json(r#"{"a": "hello", "b": "world!"}"#);
    let diff = diff(t1, t2);
    let expected = json(r#"{ "values_changed": { "root['b']": {"old_value": "world", "new_value": "world!"} } }"#);
    assert_eq!(diff, expected);
}

#[test]
fn core_diff_list_difference_add() {
    let t1 = json(r#"[1, 2]"#);
    let t2 = json(r#"[1, 2, 3, 5]"#);
    let diff = diff(t1, t2);
    let expected = json(r#"{ "iterable_item_added": { "root[2]": 3, "root[3]": 5 } }"#);
    assert_eq!(diff, expected);
}

#[test]
fn core_diff_list_difference_remove() {
    let t1 = json(r#"[1, 2, 3]"#);
    let t2 = json(r#"[1, 2]"#);
    let diff = diff(t1, t2);
    let expected = json(r#"{ "iterable_item_removed": { "root[2]": 3 } }"#);
    assert_eq!(diff, expected);
}

#[test]
fn core_diff_list_difference_with_changes_and_truncation() {
    let t1 = json(r#"[1, 2, 3, 10, 12]"#);
    let t2 = json(r#"[1, 3, 2]"#);
    let diff = diff(t1, t2);
    let expected = json(r#"{ "values_changed": { "root[1]": {"old_value": 2, "new_value": 3}, "root[2]": {"old_value": 3, "new_value": 2} }, "iterable_item_removed": { "root[3]": 10, "root[4]": 12 } }"#);
    assert_eq!(diff, expected);
}

#[test]
fn core_diff_list_of_booleans() {
    let t1 = json(r#"[false, false, true, true]"#);
    let t2 = json(r#"[false, false, false, true]"#);
    let diff = diff(t1, t2);
    let expected = json(r#"{ "values_changed": { "root[2]": {"old_value": true, "new_value": false} } }"#);
    assert_eq!(diff, expected);
}

#[test]
fn core_diff_dict_none_item_removed() {
    let t1 = json(r#"{"a": null, "b": 2}"#);
    let t2 = json(r#"{"b": 2}"#);
    let diff = diff(t1, t2);
    let expected = json(r#"{ "dictionary_item_removed": ["root['a']"] }"#);
    assert_eq!(diff, expected);
}

#[test]
fn core_diff_list_none_item_removed() {
    let t1 = json(r#"[1, 2, null]"#);
    let t2 = json(r#"[1, 2]"#);
    let diff = diff(t1, t2);
    let expected = json(r#"{ "iterable_item_removed": { "root[2]": null } }"#);
    assert_eq!(diff, expected);
}
