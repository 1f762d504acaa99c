use toml_path_edit::adder::{handle_add, AddOp};
use toml_path_edit::json::JsonValue;
use toml_path_edit::model::{EditError, TomlDocument, TomlNode, TomlTable, Value};
use toml_path_edit::traversal::{traverse, TraverseOps};

fn header_add(header: &str, path: Option<&str>, value: JsonValue) -> AddOp {
    AddOp {
        path: path.map(|s| s.to_string()),
        table_header_path: Some(header.to_string()),
        dotted_path: None,
        value: Some(value),
    }
}

fn obj(pairs: Vec<(&str, JsonValue)>) -> JsonValue {
    JsonValue::Object(pairs.into_iter().map(|(k, v)| (k.to_string(), v)).collect())
}

fn s(v: &str) -> JsonValue {
    JsonValue::Str(v.to_string())
}

fn find<'a>(t: &'a TomlTable, key: &str) -> &'a TomlNode {
    for (k, n) in &t.entries {
        if k == key {
            return n;
        }
    }
    panic!("missing key {}", key);
}

#[test]
fn header_sentinel_creates_array_of_tables() {
    let mut doc = TomlDocument { root: TomlTable::new() };
    handle_add(
        &mut doc,
        header_add("tool/uv/index/[[]]", None, obj(vec![("key", s("value"))])),
    )
    .unwrap();
    let tool = match find(&doc.root, "tool") {
        TomlNode::Table(t) => t,
        other => panic!("expected a table, got {:?}", other),
    };
    let uv = match find(tool, "uv") {
        TomlNode::Table(t) => t,
        other => panic!("expected a table, got {:?}", other),
    };
    match find(uv, "index") {
        TomlNode::ArrayOfTables(ts) => {
            assert_eq!(ts.len(), 1);
            assert!(matches!(find(&ts[0], "key"), TomlNode::Value(Value::Str(x)) if x == "value"));
        }
        other => panic!("expected an array of tables, got {:?}", other),
    }
}

#[test]
fn header_sentinel_appends_second_entry() {
    let mut doc = TomlDocument { root: TomlTable::new() };
    handle_add(
        &mut doc,
        header_add("tool/uv/index/[[]]", None, obj(vec![("key", s("first"))])),
    )
    .unwrap();
    handle_add(
        &mut doc,
        header_add("tool/uv/index/[[]]", None, obj(vec![("key", s("second"))])),
    )
    .unwrap();
    let tool = match find(&doc.root, "tool") {
        TomlNode::Table(t) => t,
        other => panic!("expected a table, got {:?}", other),
    };
    let uv = match find(tool, "uv") {
        TomlNode::Table(t) => t,
        other => panic!("expected a table, got {:?}", other),
    };
    match find(uv, "index") {
        TomlNode::ArrayOfTables(ts) => {
            assert_eq!(ts.len(), 2);
            assert!(matches!(find(&ts[0], "key"), TomlNode::Value(Value::Str(x)) if x == "first"));
            assert!(matches!(find(&ts[1], "key"), TomlNode::Value(Value::Str(x)) if x == "second"));
        }
        other => panic!("expected an array of tables, got {:?}", other),
    }
}

#[test]
fn append_sentinel_on_fresh_key_builds_array() {
    let mut doc = TomlDocument { root: TomlTable::new() };
    handle_add(
        &mut doc,
        header_add(
            "tool/uv/sources",
            Some("torch/[]"),
            obj(vec![("index", s("pytorch-cpu"))]),
        ),
    )
    .unwrap();
    let tool = match find(&doc.root, "tool") {
        TomlNode::Table(t) => t,
        other => panic!("expected a table, got {:?}", other),
    };
    let uv = match find(tool, "uv") {
        TomlNode::Table(t) => t,
        other => panic!("expected a table, got {:?}", other),
    };
    let sources = match find(uv, "sources") {
        TomlNode::Table(t) => t,
        other => panic!("expected a table, got {:?}", other),
    };
    match find(sources, "torch") {
        TomlNode::Value(Value::Array(arr)) => assert_eq!(arr.len(), 1),
        other => panic!("expected an array, got {:?}", other),
    }
}

#[test]
fn append_sentinel_on_scalar_fails() {
    let mut doc = TomlDocument { root: TomlTable::new() };
    handle_add(
        &mut doc,
        header_add("tool/uv/sources", Some("torch"), JsonValue::Int(1)),
    )
    .unwrap();
    let r = handle_add(
        &mut doc,
        header_add("tool/uv/sources", Some("torch/[]"), obj(vec![("index", s("x"))])),
    );
    assert!(matches!(r, Err(EditError::TypeMismatch)));
}

#[test]
fn header_mode_without_value_is_malformed() {
    let mut doc = TomlDocument { root: TomlTable::new() };
    let r = handle_add(
        &mut doc,
        AddOp {
            path: None,
            table_header_path: Some("a/b".to_string()),
            dotted_path: None,
            value: None,
        },
    );
    assert!(matches!(r, Err(EditError::MalformedOp)));
}

#[test]
fn datetime_reads_back_as_text() {
    let mut doc = TomlDocument { root: TomlTable::new() };
    doc.root.insert(
        "when".to_string(),
        TomlNode::Value(Value::Datetime("1979-05-27T07:32:00Z".to_string())),
    );
    let got = traverse(TraverseOps::Get, &mut doc, "when").unwrap().unwrap();
    assert!(matches!(got, JsonValue::Str(x) if x == "1979-05-27T07:32:00Z"));
}

#[test]
fn get_of_non_finite_float_fails_conversion() {
    let mut doc = TomlDocument { root: TomlTable::new() };
    doc.root.insert(
        "bad".to_string(),
        TomlNode::Value(Value::Float(f64::NAN.to_bits())),
    );
    let r = traverse(TraverseOps::Get, &mut doc, "bad");
    assert!(matches!(r, Err(EditError::ValueConversion)));
}
