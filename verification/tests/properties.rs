use turbodiff::change::ChangeKind;
use turbodiff::engine::{json_obj, old_new_value, type_change_value};
use turbodiff::host::{
    contains_text, option_name, sort_canonically, type_groups, HostType, OptionName,
    UnsupportedType,
};
use turbodiff::render::compress_node;
use turbodiff::tree::PrettyNode;
use turbodiff::change::collect_changes;
use turbodiff::engine::number_pairs;
use turbodiff::format::{
    branch_indent, colorize, escape_string, format_node_line, format_value, tree_prefix,
};
use turbodiff::path::{
    append, format_compact_path, format_index_label, format_segment_label, is_simple_identifier,
    parse_path, render, PathSegment,
};
use turbodiff::policy::{canonical_string, path_allowed, types_compatible, values_equal};
use turbodiff::deepdiff::render_pretty;
use turbodiff::{DeepDiff, DeepDiffOptions, Number, PrettyOptions, Value, ValueType};

fn from_json(v: &serde_json::Value) -> Value {
    match v {
        serde_json::Value::Null => Value::Null,
        serde_json::Value::Bool(b) => Value::Bool(*b),
        serde_json::Value::Number(n) => {
            if let Some(u) = n.as_u64() {
                Value::Number(Number::PosInt(u))
            } else if let Some(i) = n.as_i64() {
                Value::Number(Number::NegInt(i))
            } else {
                Value::Number(Number::Float(n.to_string()))
            }
        }
        serde_json::Value::String(s) => Value::String(s.clone()),
        serde_json::Value::Array(items) => Value::Array(items.iter().map(from_json).collect()),
        serde_json::Value::Object(map) => {
            Value::Object(map.iter().map(|(k, v)| (k.clone(), from_json(v))).collect())
        }
    }
}

fn json(text: &str) -> Value {
    from_json(&serde_json::from_str(text).unwrap())
}

fn plain() -> PrettyOptions {
    PrettyOptions {
        no_color: true,
        ..PrettyOptions::default()
    }
}

fn key(text: &str) -> PathSegment {
    PathSegment::Key(text.to_string())
}

fn float(text: &str) -> Number {
    Number::Float(text.to_string())
}

// --- a value does not differ from itself ---------------------------------

#[test]
fn value_does_not_differ_from_itself() {
    let values = [
        r#"null"#,
        r#"true"#,
        r#"17"#,
        r#"-4"#,
        r#"2.75"#,
        r#""text""#,
        r#"[1, [2, [3, {"k": null}]]]"#,
        r#"{"a": 1, "b": [1.5, "x", null, {"c": true}], "": {}}"#,
    ];
    for text in values {
        let v = json(text);
        let diff = DeepDiff::new(v.clone(), v);
        assert_eq!(diff.to_value(), json("{}"));
        assert!(diff.is_empty());
        assert_eq!(diff.pretty(PrettyOptions::default()), "");
    }
}

#[test]
fn objects_are_equal_in_any_member_order() {
    let a = Value::Object(vec![
        ("x".to_string(), json("1")),
        ("y".to_string(), json("[true]")),
    ]);
    let b = Value::Object(vec![
        ("y".to_string(), json("[true]")),
        ("x".to_string(), json("1")),
    ]);
    assert_eq!(a, b);
    assert_eq!(DeepDiff::new(a, b).to_value(), json("{}"));
    assert_ne!(json("[1, 2]"), json("[2, 1]"));
    assert_ne!(json("1"), json("1.0"));
    assert_eq!(json("0.0"), json("-0.0"));
}

// --- swapping the two values ------------------------------------------------

#[test]
fn swapping_mirrors_every_change() {
    let a = json(r#"{"k": [1, 2, 3], "gone": 1, "t": 1}"#);
    let b = json(r#"{"k": [1, 5], "new": 2, "t": "1"}"#);
    let forward = DeepDiff::new(a.clone(), b.clone()).to_value();
    let backward = DeepDiff::new(b, a).to_value();
    assert_eq!(
        forward,
        json(
            r#"{
                "values_changed": {"root['k'][1]": {"old_value": 2, "new_value": 5}},
                "iterable_item_removed": {"root['k'][2]": 3},
                "dictionary_item_removed": ["root['gone']"],
                "dictionary_item_added": ["root['new']"],
                "type_changes": {"root['t']": {
                    "old_type": "int", "new_type": "str", "old_value": 1, "new_value": "1"}}
            }"#
        )
    );
    assert_eq!(
        backward,
        json(
            r#"{
                "values_changed": {"root['k'][1]": {"old_value": 5, "new_value": 2}},
                "iterable_item_added": {"root['k'][2]": 3},
                "dictionary_item_added": ["root['gone']"],
                "dictionary_item_removed": ["root['new']"],
                "type_changes": {"root['t']": {
                    "old_type": "str", "new_type": "int", "old_value": "1", "new_value": 1}}
            }"#
        )
    );
}

#[test]
fn swapping_mirrors_changes_when_order_is_ignored() {
    let a = json(r#"[1, 1, 2, "x"]"#);
    let b = json(r#"[2, 1, 3]"#);
    let options = || DeepDiffOptions::default().ignore_order(true);
    let forward = DeepDiff::with_options(a.clone(), b.clone(), options()).to_value();
    let backward = DeepDiff::with_options(b, a, options()).to_value();
    assert_eq!(
        forward,
        json(
            r#"{
                "iterable_item_removed": {"root[1]": 1, "root[3]": "x"},
                "iterable_item_added": {"root[2]": 3}
            }"#
        )
    );
    assert_eq!(
        backward,
        json(
            r#"{
                "iterable_item_added": {"root[1]": 1, "root[3]": "x"},
                "iterable_item_removed": {"root[2]": 3}
            }"#
        )
    );
}

// --- reports are in order -----------------------------------------------------

#[test]
fn report_is_the_same_on_every_call() {
    let a = json(r#"{"a": [1, {"b": 2}], "c": "x"}"#);
    let b = json(r#"{"a": [2, {"b": 3, "d": 4}], "e": null}"#);
    let first = DeepDiff::new(a.clone(), b.clone());
    let second = DeepDiff::new(a, b);
    assert_eq!(first.to_value(), second.to_value());
    assert_eq!(first.pretty(plain()), second.pretty(plain()));
    assert_eq!(format!("{:?}", first.to_value()), format!("{:?}", second.to_value()));
}

#[test]
fn paths_are_reported_in_dictionary_order() {
    let a = Value::Object(vec![
        ("z".to_string(), json("1")),
        ("m".to_string(), json("1")),
        ("b".to_string(), json("1")),
    ]);
    let b = Value::Object(vec![
        ("y".to_string(), json("1")),
        ("z".to_string(), json("2")),
        ("c".to_string(), json("1")),
        ("b".to_string(), json("2")),
    ]);
    let report = DeepDiff::new(a, b).to_value();
    let Value::Object(members) = report else {
        panic!("the report is an object");
    };
    let names: Vec<&str> = members.iter().map(|(k, _)| k.as_str()).collect();
    assert_eq!(
        names,
        vec!["values_changed", "dictionary_item_added", "dictionary_item_removed"]
    );
    let Value::Object(changed) = &members[0].1 else {
        panic!("changed values are an object");
    };
    let paths: Vec<&str> = changed.iter().map(|(k, _)| k.as_str()).collect();
    assert_eq!(paths, vec!["root['b']", "root['z']"]);
    assert_eq!(members[1].1, json(r#"["root['c']", "root['y']"]"#));
    assert_eq!(members[2].1, json(r#"["root['m']"]"#));
}

#[test]
fn report_holds_all_six_buckets_in_their_order() {
    let a = json(r#"{"v": 1, "t": 1, "gone": 0, "items": [1, 2], "more": [1]}"#);
    let b = json(r#"{"v": 2, "t": "1", "new": 0, "items": [1], "more": [1, 2]}"#);
    let report = DeepDiff::new(a, b).to_value();
    let Value::Object(members) = report else {
        panic!("the report is an object");
    };
    let names: Vec<&str> = members.iter().map(|(k, _)| k.as_str()).collect();
    assert_eq!(
        names,
        vec![
            "values_changed",
            "dictionary_item_added",
            "dictionary_item_removed",
            "iterable_item_added",
            "iterable_item_removed",
            "type_changes"
        ]
    );
}

// --- paths ----------------------------------------------------------------------

#[test]
fn path_text_reads_back_as_the_path() {
    let paths = vec![
        vec![],
        vec![key("a")],
        vec![PathSegment::Index(0)],
        vec![key("a"), PathSegment::Index(12), key("b c"), key("")],
        vec![key("it's"), key("x'"), PathSegment::Index(usize::MAX)],
        vec![key("[0]"), key("a['b"), key("]")],
    ];
    for path in paths {
        let text = render(&path);
        assert_eq!(parse_path(&text), Some(path));
    }
}

#[test]
fn path_text_follows_the_grammar() {
    assert_eq!(render(&vec![]), "root");
    assert_eq!(
        render(&vec![key("a"), PathSegment::Index(3), key("b c")]),
        "root['a'][3]['b c']"
    );
    assert_eq!(
        render(&append(&vec![key("a")], &PathSegment::Index(0))),
        "root['a'][0]"
    );
}

#[test]
fn key_with_the_end_mark_does_not_read_back() {
    let path = vec![key("a']b")];
    let text = render(&path);
    assert_eq!(text, "root['a']b']");
    assert_eq!(parse_path(&text), Some(vec![key("a")]));
}

#[test]
fn malformed_paths_are_refused() {
    assert_eq!(parse_path("nope"), None);
    assert_eq!(parse_path("roo"), None);
    assert_eq!(parse_path("root['a"), None);
    assert_eq!(parse_path("root[12"), None);
    assert_eq!(parse_path("root[x]"), None);
    assert_eq!(parse_path("root[]"), None);
    assert_eq!(parse_path("root[-1]"), None);
    assert_eq!(parse_path("root[+]"), None);
    assert_eq!(parse_path("root[99999999999999999999999]"), None);
    assert_eq!(parse_path("root['a'][1"), None);
}

#[test]
fn reading_stops_at_what_opens_no_bracket() {
    assert_eq!(parse_path("root"), Some(vec![]));
    assert_eq!(parse_path("rootabc"), Some(vec![]));
    assert_eq!(parse_path("root['a'].b"), Some(vec![key("a")]));
    assert_eq!(parse_path("root[+5]"), Some(vec![PathSegment::Index(5)]));
    assert_eq!(parse_path("root[007]"), Some(vec![PathSegment::Index(7)]));
    assert_eq!(
        parse_path("root['a]['b']"),
        Some(vec![key("a]['b")])
    );
}

#[test]
fn compact_paths_use_dots_for_identifiers() {
    assert_eq!(format_compact_path(&vec![]), "root");
    assert_eq!(format_compact_path(&vec![key("a"), key("b")]), "a.b");
    assert_eq!(
        format_compact_path(&vec![key("a b"), PathSegment::Index(3), key("c")]),
        "['a b'][3].c"
    );
    assert_eq!(
        format_compact_path(&vec![PathSegment::Index(0), key("x"), key("9")]),
        "[0].x['9']"
    );
    assert_eq!(format_segment_label(&key("a b")), "a b");
    assert_eq!(format_segment_label(&PathSegment::Index(4)), "[4]");
    assert_eq!(format_index_label(12), "[12]");
    assert_eq!(format_index_label(0), "[0]");
}

#[test]
fn identifiers_start_with_a_letter_or_underscore() {
    assert!(is_simple_identifier("abc_1"));
    assert!(is_simple_identifier("_x"));
    assert!(is_simple_identifier("Z"));
    assert!(!is_simple_identifier(""));
    assert!(!is_simple_identifier("1a"));
    assert!(!is_simple_identifier("a-b"));
    assert!(!is_simple_identifier("a b"));
    assert!(!is_simple_identifier("\u{e9}t\u{e9}"));
}

// --- the policy -------------------------------------------------------------------

#[test]
fn canonical_text_is_tagged_and_sorts_keys() {
    assert_eq!(canonical_string(&json("null")), "null:0:");
    assert_eq!(canonical_string(&json("true")), "bool:4:true");
    assert_eq!(canonical_string(&json("false")), "bool:5:false");
    assert_eq!(canonical_string(&json("42")), "int:2:42");
    assert_eq!(canonical_string(&json("-7")), "int:2:-7");
    assert_eq!(canonical_string(&json("1.5")), "float:3:1.5");
    assert_eq!(canonical_string(&json(r#""x""#)), "str:1:x");
    assert_eq!(canonical_string(&json(r#""""#)), "str:0:");
    assert_eq!(canonical_string(&json("[]")), "list:0:");
    assert_eq!(canonical_string(&json("{}")), "dict:0:");
    let unsorted = Value::Object(vec![
        ("b".to_string(), json(r#"[1, "x"]"#)),
        ("a".to_string(), json("null")),
    ]);
    assert_eq!(
        canonical_string(&unsorted),
        "dict:43:key:1:anull:0:key:1:blist:14:int:1:1str:1:x"
    );
}

#[test]
fn canonical_text_tells_values_apart() {
    let pairs = [
        (r#"["a,str:b"]"#, r#"["a", "b"]"#),
        (r#"["a", "b"]"#, r#"["ab"]"#),
        (r#"[[1], 2]"#, r#"[[1, 2]]"#),
        (r#"[[], []]"#, r#"[[[]]]"#),
        (r#"{"a": "b:c"}"#, r#"{"a:b": "c"}"#),
        (r#"{"a": 1, "b": 2}"#, r#"{"a": {"b": 2}}"#),
        (r#"{"a,b": 1}"#, r#"{"a": 1, "b": 1}"#),
        (r#"1"#, r#"1.0"#),
        (r#"1"#, r#""1""#),
        (r#"-1"#, r#"1"#),
        (r#"12"#, r#"[1, 2]"#),
        (r#"null"#, r#""null""#),
        (r#"true"#, r#""true""#),
        (r#""12:ab""#, r#"["ab"]"#),
        (r#""""#, r#"null"#),
    ];
    for (one, two) in pairs {
        let (a, b) = (json(one), json(two));
        assert_ne!(a, b);
        assert_ne!(canonical_string(&a), canonical_string(&b));
        assert_eq!(canonical_string(&a), canonical_string(&a.clone()));
    }
    let reordered = Value::Object(vec![
        ("z".to_string(), json(r#"{"q": [1.5], "p": null}"#)),
        ("a".to_string(), json("-0.0")),
    ]);
    let sorted = json(r#"{"a": 0.0, "z": {"p": null, "q": [1.5]}}"#);
    assert_eq!(reordered, sorted);
    assert_eq!(canonical_string(&reordered), canonical_string(&sorted));
    assert_eq!(canonical_string(&json("-0.0")), "float:3:0.0");
}

#[test]
fn unordered_arrays_that_differ_are_told_apart() {
    let options = || DeepDiffOptions::default().ignore_order(true);
    assert_eq!(
        DeepDiff::with_options(json(r#"["a,str:b"]"#), json(r#"["a", "b"]"#), options()).to_value(),
        json(
            r#"{"iterable_item_removed": {"root[0]": "a,str:b"},
                "iterable_item_added": {"root[0]": "a", "root[1]": "b"}}"#
        )
    );
    assert_eq!(
        DeepDiff::with_options(
            json(r#"[["a,str:b"], 1]"#),
            json(r#"[1, ["a", "b"]]"#),
            options()
        )
        .to_value(),
        json(
            r#"{"iterable_item_removed": {"root[0]": ["a,str:b"]},
                "iterable_item_added": {"root[1]": ["a", "b"]}}"#
        )
    );
    assert!(!values_equal(
        &json(r#"[["a,str:b"]]"#),
        &json(r#"[["a", "b"]]"#),
        &options()
    ));
    assert!(values_equal(
        &json(r#"[{"a": 1, "b": [2]}, "x"]"#),
        &Value::Array(vec![
            json(r#""x""#),
            Value::Object(vec![
                ("b".to_string(), json("[2]")),
                ("a".to_string(), json("1")),
            ]),
        ]),
        &options()
    ));
}

#[test]
fn changes_that_meet_on_one_path_do_not_mirror() {
    let a = Value::Object(vec![
        ("x".to_string(), json(r#"{"y": 1}"#)),
        ("x']['y".to_string(), json("1")),
    ]);
    let b = Value::Object(vec![
        ("x']['y".to_string(), json("3")),
        ("x".to_string(), json(r#"{"y": 2}"#)),
    ]);
    assert_eq!(
        DeepDiff::new(a.clone(), b.clone()).to_value(),
        json(r#"{"values_changed": {"root['x']['y']": {"old_value": 1, "new_value": 3}}}"#)
    );
    assert_eq!(
        DeepDiff::new(b, a).to_value(),
        json(r#"{"values_changed": {"root['x']['y']": {"old_value": 2, "new_value": 1}}}"#)
    );
}

#[test]
fn matches_count_in_both_orders() {
    let options = || DeepDiffOptions::default().numeric_matches(vec![(float("1.0"), float("1.5"))]);
    assert_eq!(
        DeepDiff::with_options(json("1.0"), json("1.5"), options()).to_value(),
        json("{}")
    );
    assert_eq!(
        DeepDiff::with_options(json("1.5"), json("1.0"), options()).to_value(),
        json("{}")
    );
    assert_eq!(
        DeepDiff::with_options(json("1.5"), json("2.0"), options()).to_value(),
        json(r#"{"values_changed": {"root": {"old_value": 1.5, "new_value": 2.0}}}"#)
    );
}

#[test]
fn integers_are_written_in_decimal() {
    assert_eq!(format_value(&Value::Number(Number::PosInt(0))), "0");
    assert_eq!(
        format_value(&Value::Number(Number::PosInt(u64::MAX))),
        "18446744073709551615"
    );
    assert_eq!(format_value(&Value::Number(Number::NegInt(-1))), "-1");
    assert_eq!(
        format_value(&Value::Number(Number::NegInt(i64::MIN))),
        "-9223372036854775808"
    );
    assert_eq!(format_value(&Value::Number(float("2.5e-7"))), "2.5e-7");
}

#[test]
fn paths_are_allowed_by_prefix() {
    let none = DeepDiffOptions::default();
    assert!(path_allowed("root['a']", &none));
    let only = DeepDiffOptions::default().include_paths(vec!["root['a']['b']".to_string()]);
    assert!(path_allowed("root", &only));
    assert!(path_allowed("root['a']", &only));
    assert!(path_allowed("root['a']['b']", &only));
    assert!(path_allowed("root['a']['b'][0]", &only));
    assert!(!path_allowed("root['x']", &only));
    assert!(!path_allowed("root['a']['c']", &only));
    let exclude = DeepDiffOptions::default().exclude_paths(vec!["root['a']".to_string()]);
    assert!(path_allowed("root", &exclude));
    assert!(!path_allowed("root['a']", &exclude));
    assert!(!path_allowed("root['a'][3]", &exclude));
    assert!(path_allowed("root['b']", &exclude));
    let both = DeepDiffOptions::default()
        .include_paths(vec!["root['a']".to_string()])
        .exclude_paths(vec!["root['a']".to_string()]);
    assert!(!path_allowed("root['a']", &both));
    assert!(path_allowed("root", &both));
}

#[test]
fn excluding_wins_over_including() {
    let a = json(r#"{"a": {"x": 1, "y": 1}, "b": 1}"#);
    let b = json(r#"{"a": {"x": 2, "y": 2}, "b": 2}"#);
    let options = DeepDiffOptions::default()
        .include_paths(vec!["root['a']".to_string()])
        .exclude_paths(vec!["root['a']['y']".to_string()]);
    assert_eq!(
        DeepDiff::with_options(a, b, options).to_value(),
        json(r#"{"values_changed": {"root['a']['x']": {"old_value": 1, "new_value": 2}}}"#)
    );
}

#[test]
fn types_are_compatible_within_a_group() {
    let none = DeepDiffOptions::default();
    assert!(types_compatible(&json("1"), &json("2.5"), &none));
    assert!(types_compatible(&json("null"), &json("null"), &none));
    assert!(!types_compatible(&json("1"), &json(r#""1""#), &none));
    assert!(!types_compatible(&json("[]"), &json("{}"), &none));
    let groups = DeepDiffOptions::default().ignore_type_in_groups(vec![
        vec![ValueType::Null],
        vec![ValueType::Number, ValueType::String],
    ]);
    assert!(types_compatible(&json("1"), &json(r#""1""#), &groups));
    assert!(types_compatible(&json(r#""1""#), &json("1"), &groups));
    assert!(!types_compatible(&json("1"), &json("true"), &groups));
    assert!(!types_compatible(&json("null"), &json("1"), &groups));
}

#[test]
fn different_shapes_are_a_change_of_type() {
    assert_eq!(
        DeepDiff::new(json("[1]"), json(r#"{"a": 1}"#)).to_value(),
        json(
            r#"{"type_changes": {"root": {
                "old_type": "list", "new_type": "dict",
                "old_value": [1], "new_value": {"a": 1}}}}"#
        )
    );
    assert_eq!(
        DeepDiff::new(json("null"), json("1.5")).to_value(),
        json(
            r#"{"type_changes": {"root": {
                "old_type": "null", "new_type": "float",
                "old_value": null, "new_value": 1.5}}}"#
        )
    );
    assert_eq!(
        DeepDiff::new(json("true"), json("7")).to_value(),
        json(
            r#"{"type_changes": {"root": {
                "old_type": "bool", "new_type": "int",
                "old_value": true, "new_value": 7}}}"#
        )
    );
}

#[test]
fn integer_and_float_of_one_magnitude_differ_in_value() {
    assert_eq!(
        DeepDiff::new(json("1"), json("1.0")).to_value(),
        json(r#"{"values_changed": {"root": {"old_value": 1, "new_value": 1.0}}}"#)
    );
    assert!(!values_equal(&json("1"), &json("1.0"), &DeepDiffOptions::default()));
    assert!(values_equal(&json("0.0"), &json("-0.0"), &DeepDiffOptions::default()));
}

#[test]
fn arrays_are_bags_when_order_is_ignored() {
    let options = DeepDiffOptions::default().ignore_order(true);
    assert!(values_equal(&json("[1, 2, 2]"), &json("[2, 1, 2]"), &options));
    assert!(!values_equal(&json("[1, 2, 2]"), &json("[2, 1, 1]"), &options));
    assert!(!values_equal(&json("[1, 2]"), &json("[1, 2, 2]"), &options));
    assert!(!values_equal(
        &json("[1, 2, 2]"),
        &json("[2, 1, 2]"),
        &DeepDiffOptions::default()
    ));
    assert!(values_equal(
        &json(r#"[{"a": 1, "b": 2}]"#),
        &Value::Array(vec![Value::Object(vec![
            ("b".to_string(), json("2")),
            ("a".to_string(), json("1")),
        ])]),
        &options
    ));
}

// --- numeric matches ----------------------------------------------------------------

#[test]
fn matched_numbers_count_as_equal() {
    let a = json(r#"{"x": 1.0, "y": 2.0}"#);
    let b = json(r#"{"x": 1.0005, "y": 2.5}"#);
    assert_eq!(
        DeepDiff::new(a.clone(), b.clone()).to_value(),
        json(
            r#"{"values_changed": {
                "root['x']": {"old_value": 1.0, "new_value": 1.0005},
                "root['y']": {"old_value": 2.0, "new_value": 2.5}}}"#
        )
    );
    let options = DeepDiffOptions::default().numeric_matches(vec![(float("1.0"), float("1.0005"))]);
    assert_eq!(
        DeepDiff::with_options(a, b, options).to_value(),
        json(r#"{"values_changed": {"root['y']": {"old_value": 2.0, "new_value": 2.5}}}"#)
    );
}

#[test]
fn more_matches_never_add_a_change() {
    let a = json(r#"[1.0, 2.0, 3]"#);
    let b = json(r#"[1.5, 2.5, 4]"#);
    let few = DeepDiffOptions::default().numeric_matches(vec![(float("1.0"), float("1.5"))]);
    let more = DeepDiffOptions::default().numeric_matches(vec![
        (float("2.0"), float("2.5")),
        (float("1.0"), float("1.5")),
    ]);
    assert_eq!(
        DeepDiff::with_options(a.clone(), b.clone(), few).to_value(),
        json(
            r#"{"values_changed": {
                "root[1]": {"old_value": 2.0, "new_value": 2.5},
                "root[2]": {"old_value": 3, "new_value": 4}}}"#
        )
    );
    assert_eq!(
        DeepDiff::with_options(a, b, more).to_value(),
        json(r#"{"values_changed": {"root[2]": {"old_value": 3, "new_value": 4}}}"#)
    );
}

#[test]
fn with_significant_digits_only_matches_count() {
    let options = || DeepDiffOptions::default().significant_digits(Some(3));
    assert_eq!(
        DeepDiff::with_options(json("2.5"), json("2.5"), options()).to_value(),
        json(r#"{"values_changed": {"root": {"old_value": 2.5, "new_value": 2.5}}}"#)
    );
    let matched = options().numeric_matches(vec![(float("2.5"), float("2.5"))]);
    assert_eq!(
        DeepDiff::with_options(json("2.5"), json("2.5"), matched).to_value(),
        json("{}")
    );
}

#[test]
fn numbers_meet_at_shared_places() {
    let a = json(r#"{"x": 1, "y": [2.5, "s", 7], "z": 3}"#);
    let b = json(r#"{"x": 2, "y": [3.5, 4], "w": 1}"#);
    let pairs = number_pairs(&a, &b);
    assert_eq!(pairs.len(), 2);
    assert!(matches!(&pairs[0], (Number::PosInt(1), Number::PosInt(2))));
    assert!(matches!(&pairs[1], (Number::Float(p), Number::Float(q)) if p == "2.5" && q == "3.5"));
    assert_eq!(number_pairs(&json("1"), &json(r#""1""#)).len(), 0);
    assert_eq!(number_pairs(&json("-1"), &json("1")).len(), 1);
}

#[test]
fn options_tell_what_they_were_given() {
    let options = DeepDiffOptions::default()
        .ignore_order(true)
        .ignore_numeric_type_changes(true)
        .ignore_string_type_changes(true)
        .significant_digits(Some(4))
        .verbose_level(2)
        .include_paths(vec!["root".to_string()])
        .exclude_paths(vec!["root['x']".to_string()])
        .ignore_type_in_groups(vec![vec![ValueType::Bool]]);
    assert!(options.orders_ignored());
    assert!(options.numeric_types_ignored());
    assert!(options.string_types_ignored());
    assert_eq!(options.digits(), Some(4));
    assert_eq!(options.verbosity(), 2);
    assert_eq!(options.included(), &vec!["root".to_string()]);
    assert_eq!(options.excluded(), &vec!["root['x']".to_string()]);
    assert_eq!(options.type_groups(), &vec![vec![ValueType::Bool]]);
    assert_eq!(options.matches().len(), 0);
    let fresh = DeepDiffOptions::default();
    assert!(!fresh.orders_ignored());
    assert_eq!(fresh.digits(), None);
    assert_eq!(fresh.verbosity(), 1);
    let pretty = PrettyOptions::default();
    assert!(!pretty.compact && !pretty.no_color && !pretty.path_header);
    assert_eq!((pretty.max_depth, pretty.context), (5, 0));
}

// --- texts ------------------------------------------------------------------------

#[test]
fn values_are_shown_as_literals() {
    assert_eq!(format_value(&json("null")), "None");
    assert_eq!(format_value(&json("true")), "True");
    assert_eq!(format_value(&json("false")), "False");
    assert_eq!(format_value(&json("12")), "12");
    assert_eq!(format_value(&json("-3")), "-3");
    assert_eq!(format_value(&json("1.5")), "1.5");
    assert_eq!(format_value(&json(r#""plain""#)), "'plain'");
    assert_eq!(format_value(&Value::String("it's\n".to_string())), "'it\\'s\\n'");
    assert_eq!(format_value(&json("[]")), "[]");
    assert_eq!(format_value(&json("{}")), "{}");
    assert_eq!(format_value(&json(r#"[1, "a", null]"#)), "[1, 'a', None]");
    assert_eq!(
        format_value(&json(r#"{"k": [true], "s": "x"}"#)),
        "{'k': [True], 's': 'x'}"
    );
    assert_eq!(
        format_value(&Value::Object(vec![("q'".to_string(), json("0"))])),
        "{'q\\'': 0}"
    );
}

#[test]
fn strings_are_escaped() {
    assert_eq!(escape_string("plain"), "plain");
    assert_eq!(escape_string(""), "");
    assert_eq!(escape_string("a\\b'c\n\r\t"), "a\\\\b\\'c\\n\\r\\t");
    assert_eq!(escape_string("\"double\""), "\"double\"");
}

#[test]
fn colour_wraps_the_text() {
    assert_eq!(colorize("x", "31", true), "\x1b[31mx\x1b[0m");
    assert_eq!(colorize("x", "32", true), "\x1b[32mx\x1b[0m");
    assert_eq!(colorize("x", "31", false), "x");
    assert_eq!(colorize("", "31", true), "\x1b[31m\x1b[0m");
}

#[test]
fn lines_are_indented_by_level() {
    assert_eq!(tree_prefix(&vec![]), "");
    assert_eq!(tree_prefix(&vec![true, false]), "│       ");
    assert_eq!(tree_prefix(&vec![false, true]), "    │   ");
    assert_eq!(branch_indent(0, &vec![], false), "│   ");
    assert_eq!(branch_indent(1, &vec![], false), "    ");
    assert_eq!(branch_indent(1, &vec![], true), "│   ");
    assert_eq!(branch_indent(2, &vec![true], true), "│   │   ");
    assert_eq!(format_node_line(0, &vec![], true, "a"), "a");
    assert_eq!(format_node_line(0, &vec![true], false, "a"), "a");
    assert_eq!(format_node_line(1, &vec![], true, "b"), "╰── b");
    assert_eq!(format_node_line(1, &vec![], false, "b"), "├── b");
    assert_eq!(format_node_line(2, &vec![true], false, "c"), "│   ├── c");
}

// --- rendering --------------------------------------------------------------------

#[test]
fn pretty_type_change_names_both_types() {
    let diff = DeepDiff::new(json(r#"{"a": 1}"#), json(r#"{"a": "1"}"#));
    assert_eq!(diff.pretty(plain()), "a\n│   - (int) 1\n│   + (str) '1'");
}

#[test]
fn pretty_is_coloured_unless_told_otherwise() {
    let diff = DeepDiff::new(json(r#"{"a": 1}"#), json(r#"{"a": 2}"#));
    assert_eq!(
        diff.pretty(PrettyOptions::default()),
        "a\n│   \x1b[31m- 1\x1b[0m\n│   \x1b[32m+ 2\x1b[0m"
    );
}

#[test]
fn pretty_added_and_removed_keys() {
    let diff = DeepDiff::new(json(r#"{"a": 1, "b": 2}"#), json(r#"{"a": 1, "c": 3}"#));
    assert_eq!(diff.pretty(plain()), "c\n│   + 3\nb\n│   - 2");
}

#[test]
fn pretty_nested_levels() {
    let diff = DeepDiff::new(
        json(r#"{"a": {"b": {"c": 1}}}"#),
        json(r#"{"a": {"b": {"c": 2}}}"#),
    );
    assert_eq!(
        diff.pretty(plain()),
        "a\n╰── b\n    ╰── c\n        - 1\n        + 2"
    );
}

#[test]
fn pretty_compact_joins_chains() {
    let diff = DeepDiff::new(
        json(r#"{"a": {"b": {"c": 1}}, "k": [0, {"x y": 1}]}"#),
        json(r#"{"a": {"b": {"c": 2}}, "k": [0, {"x y": 2}]}"#),
    );
    let options = PrettyOptions {
        compact: true,
        ..plain()
    };
    assert_eq!(
        diff.pretty(options),
        "a.b.c\n│   - 1\n│   + 2\nk[1]['x y']\n│   - 1\n│   + 2"
    );
}

#[test]
fn pretty_compact_stops_where_the_tree_branches() {
    let diff = DeepDiff::new(
        json(r#"{"a": {"b": {"c": 1, "d": 1}}}"#),
        json(r#"{"a": {"b": {"c": 2, "d": 2}}}"#),
    );
    let options = PrettyOptions {
        compact: true,
        ..plain()
    };
    assert_eq!(
        diff.pretty(options),
        "a.b\n├── c\n│   - 1\n│   + 2\n╰── d\n    - 1\n    + 2"
    );
}

#[test]
fn pretty_cuts_below_the_greatest_depth() {
    let a = json(r#"{"a": {"b": {"c": 1}}}"#);
    let b = json(r#"{"a": {"b": {"c": 2}}}"#);
    let diff = DeepDiff::new(a, b);
    let one = PrettyOptions {
        max_depth: 1,
        ..plain()
    };
    assert_eq!(diff.pretty(one), "a\n╰── b\n    ╰── ...");
    let zero = PrettyOptions {
        max_depth: 0,
        ..plain()
    };
    assert_eq!(diff.pretty(zero), "a\n╰── ...");
    let two = PrettyOptions {
        max_depth: 2,
        ..plain()
    };
    assert_eq!(
        diff.pretty(two),
        "a\n╰── b\n    ╰── c\n        - 1\n        + 2"
    );
}

#[test]
fn pretty_shows_context_around_a_changed_item() {
    let diff = DeepDiff::new(json("[1, 2, 3, 4, 5, 6, 7]"), json("[1, 2, 3, 9, 5, 6, 7]"));
    let options = PrettyOptions {
        context: 1,
        ..plain()
    };
    assert_eq!(
        diff.pretty(options),
        "[2]\n│   = 3\n[3]\n│   - 4\n│   + 9\n[4]\n│   = 5"
    );
    assert_eq!(diff.pretty(plain()), "[3]\n│   - 4\n│   + 9");
}

#[test]
fn pretty_context_stops_at_the_ends_of_the_array() {
    let diff = DeepDiff::new(json("[1, 2, 3]"), json("[0, 2, 4]"));
    let options = PrettyOptions {
        context: 5,
        ..plain()
    };
    assert_eq!(
        diff.pretty(options),
        "[0]\n│   - 1\n│   + 0\n[1]\n│   = 2\n[2]\n│   - 3\n│   + 4"
    );
}

#[test]
fn pretty_marks_what_it_leaves_out() {
    let diff = DeepDiff::new(json("[1, 2, 3, 4, 5, 6, 7]"), json("[0, 2, 3, 4, 5, 6, 8]"));
    assert_eq!(
        diff.pretty(plain()),
        "[0]\n│   - 1\n│   + 0\n...\n[6]\n│   - 7\n│   + 8"
    );
    let nested = DeepDiff::new(
        json(r#"{"k": [1, 2, 3, 4]}"#),
        json(r#"{"k": [0, 2, 3, 5]}"#),
    );
    assert_eq!(
        nested.pretty(plain()),
        "k\n├── [0]\n│   - 1\n│   + 0\n├── ...\n╰── [3]\n    - 4\n    + 5"
    );
}

#[test]
fn pretty_path_headers_are_sorted() {
    let diff = DeepDiff::new(
        json(r#"{"b": 1, "a": {"x": 1}, "c": [1]}"#),
        json(r#"{"b": 2, "a": {"x": 2}, "c": [1, 2]}"#),
    );
    let options = PrettyOptions {
        path_header: true,
        ..plain()
    };
    assert_eq!(
        diff.pretty(options),
        "a.x\n│   - 1\n│   + 2\nb\n│   - 1\n│   + 2\nc[1]\n│   + 2"
    );
}

#[test]
fn pretty_change_at_the_root() {
    let diff = DeepDiff::new(json("1"), json("2"));
    assert_eq!(diff.pretty(plain()), "root\n│   - 1\n│   + 2");
    let header = PrettyOptions {
        path_header: true,
        ..plain()
    };
    assert_eq!(diff.pretty(header), "root\n│   - 1\n│   + 2");
}

#[test]
fn pretty_reads_paths_only_reports() {
    let a = json(r#"{"a": 1, "b": {"c": true}}"#);
    let b = json(r#"{"a": 2, "b": {"c": false}}"#);
    let diff = DeepDiff::with_options(a, b, DeepDiffOptions::default().verbose_level(0));
    assert_eq!(
        diff.to_value(),
        json(r#"{"values_changed": ["root['a']", "root['b']['c']"]}"#)
    );
    assert_eq!(
        diff.pretty(plain()),
        "a\n│   - 1\n│   + 2\nb\n╰── c\n    - True\n    + False"
    );
}

#[test]
fn rendering_orders_children_by_label_where_no_value_is_found() {
    let report = json(r#"{"dictionary_item_added": ["root['zeta']", "root['alpha']"],
                         "dictionary_item_removed": ["root['mid']"]}"#);
    let text = render_pretty(&report, &json("1"), &json("2"), plain());
    assert_eq!(
        text,
        "alpha\n│   + <added>\nmid\n│   - <removed>\nzeta\n│   + <added>"
    );
}

#[test]
fn rendering_skips_paths_that_cannot_be_read() {
    let report = json(
        r#"{"values_changed": {
            "bad": {"old_value": 0, "new_value": 0},
            "root['a']": {"old_value": 1, "new_value": 2}},
           "type_changes": {"root['t']": {"old_value": null}}}"#,
    );
    let changes = collect_changes(&report, &json("{}"), &json("{}"));
    assert_eq!(changes.len(), 2);
    assert_eq!(changes[0].segments, vec![key("a")]);
    assert_eq!(changes[1].segments, vec![key("t")]);
    let text = render_pretty(&report, &json("{}"), &json("{}"), plain());
    assert_eq!(
        text,
        "a\n│   - 1\n│   + 2\nt\n│   - (unknown) None\n│   + (unknown) None"
    );
    assert_eq!(render_pretty(&json("[]"), &json("1"), &json("2"), plain()), "");
    assert_eq!(render_pretty(&json("{}"), &json("1"), &json("2"), plain()), "");
}

#[test]
fn rendering_takes_values_from_the_compared_values_first() {
    let report = json(r#"{"iterable_item_added": {"root[1]": "stale", "root[5]": "kept"}}"#);
    let text = render_pretty(&report, &json("[0]"), &json("[0, 1]"), plain());
    assert_eq!(text, "[1]\n│   + 1");
    let changes = collect_changes(&report, &json("[0]"), &json("[0, 1]"));
    assert_eq!(changes.len(), 2);
}

// --- what a host hands over ---------------------------------------------------------

#[test]
fn host_types_become_broad_types() {
    let numpy = |name: &str, is_ndarray: bool| HostType::Numpy {
        name: name.to_string(),
        is_ndarray,
    };
    let groups = vec![
        vec![HostType::Int, HostType::Str, HostType::NoneType],
        vec![HostType::List, HostType::Tuple, HostType::Dict, HostType::Bool],
        vec![
            numpy("ndarray", false),
            numpy("anything", true),
            numpy("bool_", false),
            numpy("float64", false),
            HostType::ArrayFunction,
        ],
        vec![HostType::Bytes, HostType::Float],
    ];
    let read = type_groups(&groups).unwrap();
    assert_eq!(
        read.groups,
        vec![
            vec![ValueType::Number, ValueType::String, ValueType::Null],
            vec![ValueType::Array, ValueType::Array, ValueType::Object, ValueType::Bool],
            vec![
                ValueType::Array,
                ValueType::Array,
                ValueType::Bool,
                ValueType::Number,
                ValueType::Array
            ],
            vec![ValueType::String, ValueType::Number],
        ]
    );
    assert!(!read.ignore_numeric);
    assert!(!read.ignore_string);
}

#[test]
fn mixed_groups_ask_for_types_to_be_ignored() {
    let numpy = |name: &str| HostType::Numpy {
        name: name.to_string(),
        is_ndarray: false,
    };
    let numeric = |module: &str, name: &str| HostType::Numeric {
        module: module.to_string(),
        name: name.to_string(),
    };
    let one = type_groups(&vec![vec![HostType::Int, HostType::Float]]).unwrap();
    assert!(one.ignore_numeric && !one.ignore_string);
    let two = type_groups(&vec![vec![HostType::Bool], vec![HostType::Bytes, HostType::Str]]).unwrap();
    assert!(!two.ignore_numeric && two.ignore_string);
    let apart = type_groups(&vec![vec![HostType::Int], vec![HostType::Float]]).unwrap();
    assert!(!apart.ignore_numeric);
    let named = type_groups(&vec![vec![numpy("int32"), numpy("float16")]]).unwrap();
    assert!(named.ignore_numeric);
    let unsigned = type_groups(&vec![vec![numpy("uint8"), numpy("number"), numpy("complex128")]]).unwrap();
    assert!(unsigned.ignore_numeric);
    let decimal = type_groups(&vec![vec![numeric("decimal", "decimal"), HostType::Int]]).unwrap();
    assert!(decimal.ignore_numeric);
    let other = type_groups(&vec![vec![numeric("numpy", "number"), HostType::Int]]).unwrap();
    assert!(other.ignore_numeric);
    let whole = type_groups(&vec![vec![numeric("numpy", "int64"), HostType::Int]]).unwrap();
    assert!(!whole.ignore_numeric);
    assert_eq!(type_groups(&vec![]).unwrap().groups.len(), 0);
}

#[test]
fn unsupported_host_type_is_refused() {
    let groups = vec![
        vec![HostType::Int],
        vec![HostType::Str, HostType::Other, HostType::Other],
        vec![HostType::Other],
    ];
    assert_eq!(
        type_groups(&groups).unwrap_err(),
        UnsupportedType { group: 1, item: 1 }
    );
}

#[test]
fn texts_are_searched_for_patterns() {
    assert!(contains_text("float64", "float"));
    assert!(contains_text("uint8", "int"));
    assert!(contains_text("abc", ""));
    assert!(contains_text("", ""));
    assert!(contains_text("xxabc", "abc"));
    assert!(!contains_text("ab", "abc"));
    assert!(!contains_text("abxc", "abc"));
    assert!(!contains_text("", "a"));
}

#[test]
fn option_names_are_known() {
    assert_eq!(option_name("ignore_order"), Some(OptionName::IgnoreOrder));
    assert_eq!(
        option_name("ignore_numeric_type_changes"),
        Some(OptionName::IgnoreNumericTypeChanges)
    );
    assert_eq!(
        option_name("ignore_string_type_changes"),
        Some(OptionName::IgnoreStringTypeChanges)
    );
    assert_eq!(option_name("significant_digits"), Some(OptionName::SignificantDigits));
    assert_eq!(option_name("math_epsilon"), Some(OptionName::MathEpsilon));
    assert_eq!(option_name("math_absilon"), Some(OptionName::MathEpsilon));
    assert_eq!(option_name("atol"), Some(OptionName::Atol));
    assert_eq!(option_name("rtol"), Some(OptionName::Rtol));
    assert_eq!(option_name("include_paths"), Some(OptionName::IncludePaths));
    assert_eq!(option_name("exclude_paths"), Some(OptionName::ExcludePaths));
    assert_eq!(option_name("verbose_level"), Some(OptionName::VerboseLevel));
    assert_eq!(option_name("ignore_type_in_groups"), Some(OptionName::IgnoreTypeInGroups));
    assert_eq!(option_name("Ignore_order"), None);
    assert_eq!(option_name(""), None);
    assert_eq!(option_name("view"), None);
}

#[test]
fn sets_are_put_in_canonical_order() {
    let items = vec![
        json(r#""b""#),
        json("3"),
        json("null"),
        json(r#""a""#),
        json("[1]"),
        json("10"),
        json("true"),
        json("3"),
    ];
    let sorted = sort_canonically(items);
    assert_eq!(
        Value::Array(sorted),
        json(r#"[true, 3, 3, 10, [1], null, "a", "b"]"#)
    );
    assert_eq!(sort_canonically(vec![]).len(), 0);
}

#[test]
fn entries_are_objects_of_named_values() {
    assert_eq!(
        json_obj(old_new_value(&json("1"), &json("[2]"))),
        json(r#"{"old_value": 1, "new_value": [2]}"#)
    );
    assert_eq!(
        json_obj(type_change_value(&json("1.5"), &json("{}"))),
        json(r#"{"old_type": "float", "new_type": "dict", "old_value": 1.5, "new_value": {}}"#)
    );
    assert_eq!(json_obj(vec![]), json("{}"));
}

#[test]
fn chains_are_followed_to_their_end() {
    let mut root = PrettyNode::root();
    root.add_change(
        vec![key("a"), PathSegment::Index(2), key("b c")],
        ChangeKind::Added { value: None },
    );
    let (label, end, path) = compress_node(&root.children[0], &[key("top")]);
    assert_eq!(label, "a[2]['b c']");
    assert_eq!(end.segment, Some(key("b c")));
    assert_eq!(
        path,
        vec![key("top"), key("a"), PathSegment::Index(2), key("b c")]
    );
    root.add_change(vec![key("a"), PathSegment::Index(3)], ChangeKind::Removed { value: None });
    let (label, end, path) = compress_node(&root.children[0], &[]);
    assert_eq!(label, "a");
    assert_eq!(end.children.len(), 2);
    assert_eq!(path, vec![key("a")]);
    assert!(root.child(&key("a")).is_some());
    assert!(root.child(&key("b")).is_none());
}

// --- more of the walk ---------------------------------------------------------------

#[test]
fn nested_arrays_are_compared_item_by_item() {
    assert_eq!(
        DeepDiff::new(json("[[1, 2], [3]]"), json("[[1, 5], [3, 4]]")).to_value(),
        json(
            r#"{"values_changed": {"root[0][1]": {"old_value": 2, "new_value": 5}},
                "iterable_item_added": {"root[1][1]": 4}}"#
        )
    );
}

#[test]
fn items_beyond_the_shorter_array_are_not_compared() {
    assert_eq!(
        DeepDiff::new(json(r#"[{"a": 1}]"#), json(r#"[{"a": 1}, {"a": 1}, [1]]"#)).to_value(),
        json(r#"{"iterable_item_added": {"root[1]": {"a": 1}, "root[2]": [1]}}"#)
    );
    assert_eq!(
        DeepDiff::new(json("[1, 2, 3]"), json("[]")).to_value(),
        json(r#"{"iterable_item_removed": {"root[0]": 1, "root[1]": 2, "root[2]": 3}}"#)
    );
}

#[test]
fn unordered_items_are_matched_by_canonical_text() {
    let a = json(r#"[{"a": 1, "b": [1]}, {"a": 2}]"#);
    let b = Value::Array(vec![
        json(r#"{"a": 3}"#),
        Value::Object(vec![
            ("b".to_string(), json("[1]")),
            ("a".to_string(), json("1")),
        ]),
    ]);
    let options = DeepDiffOptions::default().ignore_order(true);
    assert_eq!(
        DeepDiff::with_options(a, b, options).to_value(),
        json(
            r#"{"iterable_item_removed": {"root[1]": {"a": 2}},
                "iterable_item_added": {"root[0]": {"a": 3}}}"#
        )
    );
}

#[test]
fn keys_are_written_into_paths_as_they_are() {
    let a = json(r#"{"a b": {"c'd": 1, "": 1}}"#);
    let b = json(r#"{"a b": {"c'd": 2, "": 2}}"#);
    assert_eq!(
        DeepDiff::new(a, b).to_value(),
        json(
            r#"{"values_changed": {
                "root['a b']['']": {"old_value": 1, "new_value": 2},
                "root['a b']['c'd']": {"old_value": 1, "new_value": 2}}}"#
        )
    );
}

#[test]
fn including_a_path_visits_what_leads_to_it() {
    let a = json(r#"{"a": {"b": {"c": 1, "d": 1}}, "e": 1}"#);
    let b = json(r#"{"a": {"b": {"c": 2, "d": 2}}, "e": 2}"#);
    let options = DeepDiffOptions::default().include_paths(vec!["root['a']['b']['c']".to_string()]);
    assert_eq!(
        DeepDiff::with_options(a, b, options).to_value(),
        json(r#"{"values_changed": {"root['a']['b']['c']": {"old_value": 1, "new_value": 2}}}"#)
    );
}

#[test]
fn excluding_the_root_gives_the_empty_report() {
    let options = DeepDiffOptions::default().exclude_paths(vec!["root".to_string()]);
    assert_eq!(
        DeepDiff::with_options(json("1"), json("2"), options).to_value(),
        json("{}")
    );
}

#[test]
fn grouped_types_change_in_value_at_any_depth() {
    let options = DeepDiffOptions::default()
        .ignore_type_in_groups(vec![vec![ValueType::Number, ValueType::String]]);
    assert_eq!(
        DeepDiff::with_options(json(r#"{"a": [1]}"#), json(r#"{"a": ["1"]}"#), options).to_value(),
        json(r#"{"values_changed": {"root['a'][0]": {"old_value": 1, "new_value": "1"}}}"#)
    );
}

#[test]
fn options_can_be_copied() {
    let options = DeepDiffOptions::default()
        .ignore_order(true)
        .significant_digits(Some(2))
        .numeric_matches(vec![(float("1.0"), Number::PosInt(1))])
        .include_paths(vec!["root".to_string()])
        .ignore_type_in_groups(vec![vec![ValueType::Null, ValueType::Bool]]);
    let copy = options.clone();
    assert!(copy.orders_ignored());
    assert_eq!(copy.digits(), Some(2));
    assert_eq!(copy.matches().len(), 1);
    assert_eq!(copy.included(), options.included());
    assert_eq!(copy.type_groups(), options.type_groups());
    let diff = DeepDiff::with_options(json("1.0"), json("1"), copy);
    assert!(diff.clone().is_empty());
}
