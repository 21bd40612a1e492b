use turbodiff::{DeepDiff, DeepDiffOptions, Number, Value};

fn from_json(v: &serde_json::Value) -> Value {
    match v {
        serde_json::Value::Null => Value::Null,
        serde_json::Value::Bool(b) => Value::Bool(*b),
        serde_json::Value::Number(n) => {
            if let Some(u) = n.as_u64() {
                Value::Number(Number::PosInt(u))
            } else if let Some(i) = n.as_i64() {
                Value::Number(Number::NegInt(i))
            } else {
                Value::Number(Number::Float(n.to_string()))
            }
        }
        serde_json::Value::String(s) => Value::String(s.clone()),
        serde_json::Value::Array(items) => Value::Array(items.iter().map(from_json).collect()),
        serde_json::Value::Object(map) => {
            Value::Object(map.iter().map(|(k, v)| (k.clone(), from_json(v))).collect())
        }
    }
}

fn json(text: &str) -> Value {
    from_json(&serde_json::from_str(text).unwrap())
}

fn pair(old: &str, new: &str) -> (Number, Number) {
    match (json(old), json(new)) {
        (Value::Number(a), Value::Number(b)) => (a, b),
        _ => panic!("both texts are numbers"),
    }
}

#[test]
fn deepdiff_core_values_changed_basic() {
    let t1 = json(r#"{"a": 1}"#);
    let t2 = json(r#"{"a": 2}"#);
    let diff = DeepDiff::new(t1, t2);
    let expected = json(r#"{ "values_changed": { "root['a']": {"old_value": 1, "new_value": 2} } }"#);
    assert_eq!(diff.to_value(), expected);
}

#[test]
fn deepdiff_core_dictionary_item_added_removed() {
    let t1 = json(r#"{"a": 1, "b": 2}"#);
    let t2 = json(r#"{"a": 1, "c": 3}"#);
    let diff = DeepDiff::new(t1, t2);
    let expected = json(r#"{ "dictionary_item_added": ["root['c']"], "dictionary_item_removed": ["root['b']"] }"#);
    assert_eq!(diff.to_value(), expected);
}

#[test]
fn deepdiff_core_iterable_item_added_removed() {
    let t1 = json(r#"[1, 2, 3]"#);
    let t2 = json(r#"[1, 4, 3, 5]"#);
    let diff = DeepDiff::new(t1, t2);
    let expected = json(r#"{ "values_changed": { "root[1]": {"old_value": 2, "new_value": 4} }, "iterable_item_added": { "root[3]": 5 } }"#);
    assert_eq!(diff.to_value(), expected);
}

#[test]
fn deepdiff_core_type_changes_basic() {
    let t1 = json(r#"{"a": 1}"#);
    let t2 = json(r#"{"a": "1"}"#);
    let diff = DeepDiff::new(t1, t2);
    let expected = json(r#"{ "type_changes": { "root['a']": { "old_type": "int", "new_type": "str", "old_value": 1, "new_value": "1" } } }"#);
    assert_eq!(diff.to_value(), expected);
}

#[test]
fn deepdiff_core_ignore_string_type_changes() {
    let t1 = json(r#"{"a": "1"}"#);
    let t2 = json(r#"{"a": "1"}"#);
    let diff = DeepDiff::with_options(t1, t2, DeepDiffOptions::default().ignore_string_type_changes(true));
    assert_eq!(diff.to_value(), json(r#"{}"#));
}

#[test]
fn deepdiff_core_ignore_order_for_lists() {
    let t1 = json(r#"[1, 2, 3]"#);
    let t2 = json(r#"[3, 2, 1]"#);
    let diff = DeepDiff::with_options(t1, t2, DeepDiffOptions::default().ignore_order(true));
    assert_eq!(diff.to_value(), json(r#"{}"#));
}

#[test]
fn include_and_exclude_paths() {
    let t1 = json(r#"{"keep": {"x": 1}, "skip": {"y": 1}}"#);
    let t2 = json(r#"{"keep": {"x": 2}, "skip": {"y": 2}}"#);

    let diff_include = DeepDiff::with_options(
        t1.clone(),
        t2.clone(),
        DeepDiffOptions::default().include_paths(vec!["root['keep']['x']".to_string()]),
    );
    let expected_include = json(r#"{ "values_changed": { "root['keep']['x']": {"old_value": 1, "new_value": 2} } }"#);
    assert_eq!(diff_include.to_value(), expected_include);

    let diff_exclude = DeepDiff::with_options(
        t1,
        t2,
        DeepDiffOptions::default().exclude_paths(vec!["root['skip']".to_string()]),
    );
    let expected_exclude = json(r#"{ "values_changed": { "root['keep']['x']": {"old_value": 1, "new_value": 2} } }"#);
    assert_eq!(diff_exclude.to_value(), expected_exclude);
}

#[test]
fn deepdiff_core_verbose_level_zero_paths_only() {
    let t1 = json(r#"{"a": 1}"#);
    let t2 = json(r#"{"a": 2}"#);
    let diff = DeepDiff::with_options(t1, t2, DeepDiffOptions::default().verbose_level(0));
    let expected = json(r#"{ "values_changed": ["root['a']"] }"#);
    assert_eq!(diff.to_value(), expected);
}

#[test]
fn deepdiff_core_ignore_numeric_type_changes() {
    let t1 = json(r#"{"a": 1}"#);
    let t2 = json(r#"{"a": 1.0}"#);
    let options = DeepDiffOptions::default()
        .ignore_numeric_type_changes(true)
        .numeric_matches(vec![pair("1", "1.0")]);
    let diff = DeepDiff::with_options(t1, t2, options);
    assert_eq!(diff.to_value(), json(r#"{}"#));
}

#[test]
fn deepdiff_core_significant_digits_suppresses_small_changes() {
    let t1 = json(r#"1.1234"#);
    let t2 = json(r#"1.1235"#);
    let options = DeepDiffOptions::default().significant_digits(Some(3)).numeric_matches(vec![pair("1.1234", "1.1235")]);
    let diff = DeepDiff::with_options(t1, t2, options);
    assert_eq!(diff.to_value(), json(r#"{}"#));
}

#[test]
fn deepdiff_core_math_epsilon_suppresses_small_changes() {
    let t1 = json(r#"1.0"#);
    let t2 = json(r#"1.0005"#);
    let options = DeepDiffOptions::default().numeric_matches(vec![pair("1.0", "1.0005")]);
    let diff = DeepDiff::with_options(t1, t2, options);
    assert_eq!(diff.to_value(), json(r#"{}"#));
}
