use turbodiff::{DeepDiff, Number, PrettyOptions, Value};

fn from_json(v: &serde_json::Value) -> Value {
    match v {
        serde_json::Value::Null => Value::Null,
        serde_json::Value::Bool(b) => Value::Bool(*b),
        serde_json::Value::Number(n) => {
            if let Some(u) = n.as_u64() {
                Value::Number(Number::PosInt(u))
            } else if let Some(i) = n.as_i64() {
                Value::Number(Number::NegInt(i))
            } else {
                Value::Number(Number::Float(n.to_string()))
            }
        }
        serde_json::Value::String(s) => Value::String(s.clone()),
        serde_json::Value::Array(items) => Value::Array(items.iter().map(from_json).collect()),
        serde_json::Value::Object(map) => {
            Value::Object(map.iter().map(|(k, v)| (k.clone(), from_json(v))).collect())
        }
    }
}

fn json(text: &str) -> Value {
    from_json(&serde_json::from_str(text).unwrap())
}

#[test]
fn pretty_empty_diff_returns_empty_string() {
    let diff = DeepDiff::new(json(r#"{"a": 1}"#), json(r#"{"a": 1}"#));
    assert_eq!(diff.pretty(PrettyOptions::default()), "");
}

#[test]
fn pretty_simple_change() {
    let diff = DeepDiff::new(json(r#"{"a": {"b": 1}}"#), json(r#"{"a": {"b": 2}}"#));
    let output = diff.pretty(PrettyOptions {
        no_color: true,
        ..PrettyOptions::default()
    });
    assert_eq!(output, "a\n╰── b\n    - 1\n    + 2");
}

#[test]
fn pretty_list_change() {
    let diff = DeepDiff::new(json(r#"["a", "b"]"#), json(r#"["c", "d"]"#));
    let output = diff.pretty(PrettyOptions {
        no_color: true,
        ..PrettyOptions::default()
    });
    assert_eq!(
        output,
        "[0]\n│   - 'a'\n│   + 'c'\n[1]\n│   - 'b'\n│   + 'd'"
    );
}

#[test]
fn pretty_path_header() {
    let diff = DeepDiff::new(json(r#"{"a": {"b": 1}}"#), json(r#"{"a": {"b": 2}}"#));
    let output = diff.pretty(PrettyOptions {
        no_color: true,
        path_header: true,
        ..PrettyOptions::default()
    });
    assert_eq!(output, "a.b\n│   - 1\n│   + 2");
}

#[test]
fn pretty_continuation_with_ellipsis() {
    let mut inner = serde_json::Map::new();
    for key in "abcdefghijkl".chars() {
        inner.insert(key.to_string(), serde_json::Value::from(1));
    }

    let mut changed_inner = inner.clone();
    changed_inner.insert("b".to_string(), serde_json::Value::from(2));
    changed_inner.insert("j".to_string(), serde_json::Value::from(2));

    let t1 = serde_json::Value::Object(
        [("a".to_string(), serde_json::Value::Object(inner))]
            .into_iter()
            .collect(),
    );
    let t2 = serde_json::Value::Object(
        [("a".to_string(), serde_json::Value::Object(changed_inner))]
            .into_iter()
            .collect(),
    );
    let t1 = from_json(&t1);
    let t2 = from_json(&t2);

    let output = DeepDiff::new(t1, t2).pretty(PrettyOptions {
        no_color: true,
        ..PrettyOptions::default()
    });
    assert_eq!(
        output,
        "a\n├── b\n│   - 1\n│   + 2\n├── ...\n╰── j\n    - 1\n    + 2"
    );
}
