use turbodiff::{DeepDiff, DeepDiffOptions, Number, Value, ValueType};

fn from_json(v: &serde_json::Value) -> Value {
    match v {
        serde_json::Value::Null => Value::Null,
        serde_json::Value::Bool(b) => Value::Bool(*b),
        serde_json::Value::Number(n) => {
            if let Some(u) = n.as_u64() {
                Value::Number(Number::PosInt(u))
            } else if let Some(i) = n.as_i64() {
                Value::Number(Number::NegInt(i))
            } else {
                Value::Number(Number::Float(n.to_string()))
            }
        }
        serde_json::Value::String(s) => Value::String(s.clone()),
        serde_json::Value::Array(items) => Value::Array(items.iter().map(from_json).collect()),
        serde_json::Value::Object(map) => {
            Value::Object(map.iter().map(|(k, v)| (k.clone(), from_json(v))).collect())
        }
    }
}

fn json(text: &str) -> Value {
    from_json(&serde_json::from_str(text).unwrap())
}

fn pair(old: &str, new: &str) -> (Number, Number) {
    match (json(old), json(new)) {
        (Value::Number(a), Value::Number(b)) => (a, b),
        _ => panic!("both texts are numbers"),
    }
}

fn diff_with_options(t1: Value, t2: Value, options: DeepDiffOptions) -> Value {
    DeepDiff::with_options(t1, t2, options).to_value()
}

#[test]
fn options_ignore_string_type_changes() {
    let t1 = json(r#"{"a": "1"}"#);
    let t2 = json(r#"{"a": "1"}"#);
    let diff = diff_with_options(
        t1,
        t2,
        DeepDiffOptions::default().ignore_string_type_changes(true),
    );
    assert_eq!(diff, json(r#"{}"#));
}

#[test]
fn options_ignore_order_for_lists() {
    let t1 = json(r#"[1, 2, 3]"#);
    let t2 = json(r#"[3, 2, 1]"#);
    let diff = diff_with_options(t1, t2, DeepDiffOptions::default().ignore_order(true));
    assert_eq!(diff, json(r#"{}"#));
}

#[test]
fn ignore_order_still_detects_multiplicity_changes() {
    let t1 = json(r#"[1, 1, 2]"#);
    let t2 = json(r#"[1, 2, 2]"#);
    let diff = diff_with_options(t1, t2, DeepDiffOptions::default().ignore_order(true));
    let expected = json(r#"{ "iterable_item_added": { "root[2]": 2 }, "iterable_item_removed": { "root[1]": 1 } }"#);
    assert_eq!(diff, expected);
}

#[test]
fn options_include_paths_filters() {
    let t1 = json(r#"{"foo": {"bar": {"fruit": "apple", "veg": "potato"}}, "ingredients": ["bread"]}"#);
    let t2 = json(r#"{"foo": {"bar": {"fruit": "peach", "veg": "potato"}}, "ingredients": ["bread"]}"#);
    let diff = diff_with_options(
        t1,
        t2,
        DeepDiffOptions::default().include_paths(vec!["root['foo']".to_string()]),
    );
    let expected = json(r#"{ "values_changed": { "root['foo']['bar']['fruit']": {"old_value": "apple", "new_value": "peach"} } }"#);
    assert_eq!(diff, expected);
}

#[test]
fn options_include_paths_excludes_unrelated() {
    let t1 = json(r#"{"foo": {"bar": {"fruit": "apple"}}, "ingredients": ["bread"]}"#);
    let t2 = json(r#"{"foo": {"bar": {"fruit": "peach"}}, "ingredients": ["bread"]}"#);
    let diff = diff_with_options(
        t1,
        t2,
        DeepDiffOptions::default().include_paths(vec!["root['ingredients']".to_string()]),
    );
    assert_eq!(diff, json(r#"{}"#));
}

#[test]
fn options_exclude_paths_filters() {
    let t1 = json(r#"{"keep": {"x": 1}, "skip": {"y": 1}}"#);
    let t2 = json(r#"{"keep": {"x": 1}, "skip": {"y": 2}}"#);
    let diff = diff_with_options(
        t1,
        t2,
        DeepDiffOptions::default().exclude_paths(vec!["root['skip']".to_string()]),
    );
    assert_eq!(diff, json(r#"{}"#));
}

#[test]
fn options_verbose_level_zero_paths_only() {
    let t1 = json(r#"{"a": 1}"#);
    let t2 = json(r#"{"a": 2}"#);
    let diff = diff_with_options(t1, t2, DeepDiffOptions::default().verbose_level(0));
    let expected = json(r#"{ "values_changed": ["root['a']"] }"#);
    assert_eq!(diff, expected);
}

#[test]
fn ignore_type_in_groups_treats_bool_and_string_as_value_change() {
    let diff = diff_with_options(
        json(r#"true"#),
        json(r#""Yes""#),
        DeepDiffOptions::default()
            .ignore_type_in_groups(vec![vec![ValueType::Bool, ValueType::String]]),
    );
    let expected = json(r#"{ "values_changed": { "root": {"old_value": true, "new_value": "Yes"} } }"#);
    assert_eq!(diff, expected);
}

#[test]
fn options_ignore_numeric_type_changes() {
    let t1 = json(r#"{"a": 1}"#);
    let t2 = json(r#"{"a": 1.0}"#);
    let options = DeepDiffOptions::default()
        .ignore_numeric_type_changes(true)
        .numeric_matches(vec![pair("1", "1.0")]);
    let diff = diff_with_options(t1, t2, options);
    assert_eq!(diff, json(r#"{}"#));
}

#[test]
fn options_significant_digits_suppresses_small_changes() {
    let t1 = json(r#"1.1234"#);
    let t2 = json(r#"1.1235"#);
    let options = DeepDiffOptions::default().significant_digits(Some(3)).numeric_matches(vec![pair("1.1234", "1.1235")]);
    let diff = diff_with_options(t1, t2, options);
    assert_eq!(diff, json(r#"{}"#));
}

#[test]
fn significant_digits_handles_near_zero_values() {
    let t1 = json(r#"0"#);
    let t2 = json(r#"7e-7"#);
    let options = DeepDiffOptions::default().significant_digits(Some(1)).numeric_matches(vec![pair("0", "7e-7")]);
    let diff = diff_with_options(t1, t2, options);
    assert_eq!(diff, json(r#"{}"#));
}

#[test]
fn options_significant_digits_for_floats() {
    let t1 = json(r#"[1.2344, 5.67881]"#);
    let t2 = json(r#"[1.2343, 5.67882]"#);
    let options = DeepDiffOptions::default().significant_digits(Some(4)).numeric_matches(vec![pair("1.2344", "1.2343"), pair("5.67881", "5.67882")]);
    let diff = diff_with_options(t1, t2, options);
    assert_eq!(diff, json(r#"{}"#));
}

#[test]
fn options_math_epsilon_suppresses_small_changes() {
    let t1 = json(r#"1.0"#);
    let t2 = json(r#"1.0005"#);
    let options = DeepDiffOptions::default().numeric_matches(vec![pair("1.0", "1.0005")]);
    let diff = diff_with_options(t1, t2, options);
    assert_eq!(diff, json(r#"{}"#));
}

#[test]
fn atol_suppresses_small_changes() {
    let t1 = json(r#"1.0"#);
    let t2 = json(r#"1.0005"#);
    let options = DeepDiffOptions::default().numeric_matches(vec![pair("1.0", "1.0005")]);
    let diff = diff_with_options(t1, t2, options);
    assert_eq!(diff, json(r#"{}"#));
}

#[test]
fn rtol_suppresses_relative_changes() {
    let t1 = json(r#"1000.0"#);
    let t2 = json(r#"1000.1"#);
    let options = DeepDiffOptions::default().numeric_matches(vec![pair("1000.0", "1000.1")]);
    let diff = diff_with_options(t1, t2, options);
    assert_eq!(diff, json(r#"{}"#));
}
