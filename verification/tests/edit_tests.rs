use toml_path_edit::adder::{handle_add, AddOp};
use toml_path_edit::batch::{do_edits, Operation};
use toml_path_edit::json::JsonValue;
use toml_path_edit::model::{EditError, TomlDocument, TomlNode, TomlTable, Value};
use toml_path_edit::remover::handle_remove;
use toml_path_edit::traversal::{traverse, TraverseOps};

fn toml_to_value(v: &toml_edit::Value) -> Value {
    match v {
        toml_edit::Value::String(s) => Value::Str(s.value().clone()),
        toml_edit::Value::Integer(i) => Value::Int(*i.value()),
        toml_edit::Value::Float(f) => Value::Float(f.value().to_bits()),
        toml_edit::Value::Boolean(b) => Value::Bool(*b.value()),
        toml_edit::Value::Datetime(d) => Value::Datetime(d.value().to_string()),
        toml_edit::Value::Array(a) => Value::Array(a.iter().map(toml_to_value).collect()),
        toml_edit::Value::InlineTable(t) => Value::InlineTable(
            t.iter().map(|(k, x)| (k.to_string(), toml_to_value(x))).collect(),
        ),
    }
}

fn toml_to_table(t: &toml_edit::Table) -> TomlTable {
    TomlTable {
        dotted: t.is_dotted(),
        entries: t.iter().map(|(k, i)| (k.to_string(), item_to_node(i))).collect(),
    }
}

fn item_to_node(i: &toml_edit::Item) -> TomlNode {
    match i {
        toml_edit::Item::None => TomlNode::Absent,
        toml_edit::Item::Value(v) => TomlNode::Value(toml_to_value(v)),
        toml_edit::Item::Table(t) => TomlNode::Table(toml_to_table(t)),
        toml_edit::Item::ArrayOfTables(a) => {
            TomlNode::ArrayOfTables(a.iter().map(toml_to_table).collect())
        }
    }
}

fn text_to_doc(s: &str) -> TomlDocument {
    let doc: toml_edit::DocumentMut = s.parse().unwrap();
    TomlDocument { root: toml_to_table(doc.as_table()) }
}

fn json_to_serde(j: &JsonValue) -> serde_json::Value {
    match j {
        JsonValue::Null => serde_json::Value::Null,
        JsonValue::Bool(b) => serde_json::Value::Bool(*b),
        JsonValue::Int(i) => serde_json::Value::Number(serde_json::Number::from(*i)),
        JsonValue::Float(b) => serde_json::Value::Number(
            serde_json::Number::from_f64(f64::from_bits(*b)).unwrap(),
        ),
        JsonValue::Str(s) => serde_json::Value::String(s.clone()),
        JsonValue::Array(a) => serde_json::Value::Array(a.iter().map(json_to_serde).collect()),
        JsonValue::Object(m) => serde_json::Value::Object(
            m.iter().map(|(k, x)| (k.clone(), json_to_serde(x))).collect(),
        ),
    }
}

fn add_at(path: &str, value: JsonValue) -> AddOp {
    AddOp {
        path: Some(path.to_string()),
        table_header_path: None,
        dotted_path: None,
        value: Some(value),
    }
}

fn array_of(doc: &TomlDocument, key: &str) -> Vec<i64> {
    for (k, n) in &doc.root.entries {
        if k == key {
            if let TomlNode::Value(Value::Array(a)) = n {
                return a
                    .iter()
                    .map(|v| match v {
                        Value::Int(i) => *i,
                        other => panic!("expected an integer, got {:?}", other),
                    })
                    .collect();
            }
            panic!("expected an array at {}", key);
        }
    }
    panic!("missing key {}", key);
}

#[test]
fn add_at_array_length_appends() {
    let mut doc = text_to_doc("arr = [1, 2]");
    handle_add(&mut doc, add_at("arr/2", JsonValue::Int(123))).unwrap();
    assert_eq!(array_of(&doc, "arr"), vec![1, 2, 123]);
}

#[test]
fn add_below_array_length_replaces() {
    let mut doc = text_to_doc("arr = [1, 2]");
    handle_add(&mut doc, add_at("arr/0", JsonValue::Int(9))).unwrap();
    assert_eq!(array_of(&doc, "arr"), vec![9, 2]);
}

#[test]
fn add_past_array_length_is_bad_index() {
    let mut doc = text_to_doc("arr = [1, 2]");
    let r = handle_add(&mut doc, add_at("arr/5", JsonValue::Int(123)));
    assert!(matches!(r, Err(EditError::BadIndex)));
    assert_eq!(array_of(&doc, "arr"), vec![1, 2]);
}

fn from_serde(v: &serde_json::Value) -> JsonValue {
    match v {
        serde_json::Value::Null => JsonValue::Null,
        serde_json::Value::Bool(b) => JsonValue::Bool(*b),
        serde_json::Value::Number(n) => match n.as_i64() {
            Some(i) => JsonValue::Int(i),
            None => JsonValue::Float(n.as_f64().unwrap().to_bits()),
        },
        serde_json::Value::String(s) => JsonValue::Str(s.clone()),
        serde_json::Value::Array(a) => JsonValue::Array(a.iter().map(from_serde).collect()),
        serde_json::Value::Object(m) => JsonValue::Object(
            m.iter().map(|(k, x)| (k.clone(), from_serde(x))).collect(),
        ),
    }
}

#[test]
fn add_then_get_returns_what_was_added() {
    let mut doc = text_to_doc("");
    let added: serde_json::Value = serde_json::from_str(r#"{"a": 1, "b": [true, "x"]}"#).unwrap();
    handle_add(&mut doc, add_at("cfg", from_serde(&added))).unwrap();
    let got = traverse(TraverseOps::Get, &mut doc, "cfg").unwrap().unwrap();
    assert_eq!(json_to_serde(&got), added);
}

#[test]
fn integers_round_trip_as_integers() {
    let mut doc = text_to_doc("");
    handle_add(&mut doc, add_at("n", JsonValue::Int(7))).unwrap();
    let got = traverse(TraverseOps::Get, &mut doc, "n").unwrap().unwrap();
    assert!(matches!(got, JsonValue::Int(7)));
}

#[test]
fn add_into_scalar_is_type_mismatch_and_keeps_doc() {
    let mut doc = text_to_doc("a = 1");
    let r = handle_add(&mut doc, add_at("a/b", JsonValue::Int(2)));
    assert!(matches!(r, Err(EditError::TypeMismatch)));
    assert_eq!(doc.root.entries.len(), 1);
    assert!(matches!(&doc.root.entries[0].1, TomlNode::Value(Value::Int(1))));
}

#[test]
fn add_missing_path_is_malformed() {
    let mut doc = text_to_doc("");
    let r = handle_add(
        &mut doc,
        AddOp { path: None, table_header_path: None, dotted_path: None, value: Some(JsonValue::Int(1)) },
    );
    assert!(matches!(r, Err(EditError::MalformedOp)));
}

#[test]
fn remove_missing_path_is_noop() {
    let text = "[foo]\nyup = 123";
    let mut doc = text_to_doc(text);
    handle_remove("foo/bar/baz/boop", &mut doc).unwrap();
    assert_eq!(doc.root.entries.len(), 1);
    match &doc.root.entries[0].1 {
        TomlNode::Table(t) => assert!(t.contains_key("yup")),
        other => panic!("expected a table, got {:?}", other),
    }
}

#[test]
fn remove_twice_second_is_noop() {
    let mut doc = text_to_doc("[foo]\nbar = 1\nbaz = 2");
    handle_remove("foo/bar", &mut doc).unwrap();
    match &doc.root.entries[0].1 {
        TomlNode::Table(t) => {
            assert!(!t.contains_key("bar"));
            assert!(t.contains_key("baz"));
        }
        other => panic!("expected a table, got {:?}", other),
    }
    handle_remove("foo/bar", &mut doc).unwrap();
    match &doc.root.entries[0].1 {
        TomlNode::Table(t) => {
            assert!(!t.contains_key("bar"));
            assert!(t.contains_key("baz"));
        }
        other => panic!("expected a table, got {:?}", other),
    }
}

#[test]
fn remove_array_element() {
    let mut doc = text_to_doc("arr = [1, 2, 3, 4]");
    handle_remove("arr/1", &mut doc).unwrap();
    assert_eq!(array_of(&doc, "arr"), vec![1, 3, 4]);
}

#[test]
fn remove_out_of_range_index_is_bad_index() {
    let mut doc = text_to_doc("arr = [1, 2]");
    let r = handle_remove("arr/7", &mut doc);
    assert!(matches!(r, Err(EditError::BadIndex)));
    assert_eq!(array_of(&doc, "arr"), vec![1, 2]);
}

#[test]
fn remove_inside_scalar_is_type_mismatch() {
    let mut doc = text_to_doc("a = 1");
    let r = handle_remove("a/b", &mut doc);
    assert!(matches!(r, Err(EditError::TypeMismatch)));
}

#[test]
fn get_missing_root_key_is_not_found() {
    let mut doc = text_to_doc("a = 1");
    let r = traverse(TraverseOps::Get, &mut doc, "nope");
    assert!(matches!(r, Err(EditError::NotFound)));
}

#[test]
fn get_array_index_past_end_is_null() {
    let mut doc = text_to_doc("arr = [1, 2]");
    let r = traverse(TraverseOps::Get, &mut doc, "arr/5").unwrap();
    assert!(r.is_none());
}

#[test]
fn get_non_numeric_array_index_is_bad_index() {
    let mut doc = text_to_doc("arr = [1, 2]");
    let r = traverse(TraverseOps::Get, &mut doc, "arr/x");
    assert!(matches!(r, Err(EditError::BadIndex)));
}

#[test]
fn plus_prefixed_index_is_accepted() {
    let mut doc = text_to_doc("arr = [1, 2]");
    let got = traverse(TraverseOps::Get, &mut doc, "arr/+1").unwrap().unwrap();
    assert!(matches!(got, JsonValue::Int(2)));
}

#[test]
fn batch_applies_in_order_and_reports() {
    let mut doc = text_to_doc("");
    let ops = vec![
        Operation::Add(add_at("a", JsonValue::Int(1))),
        Operation::Get { path: "a".to_string() },
        Operation::Remove { path: "a".to_string() },
        Operation::Get { path: "a".to_string() },
    ];
    let outs = do_edits(&mut doc, ops).unwrap();
    assert_eq!(outs.len(), 4);
    assert!(matches!(&outs[0], JsonValue::Str(s) if s == "ok"));
    assert!(matches!(&outs[1], JsonValue::Int(1)));
    assert!(matches!(&outs[2], JsonValue::Str(s) if s == "ok"));
    assert!(matches!(&outs[3], JsonValue::Null));
    assert_eq!(doc.root.entries.len(), 0);
}

#[test]
fn batch_aborts_on_failing_add() {
    let mut doc = text_to_doc("a = 1");
    let ops = vec![
        Operation::Add(add_at("a/b", JsonValue::Int(2))),
        Operation::Add(add_at("c", JsonValue::Int(3))),
    ];
    let r = do_edits(&mut doc, ops);
    assert!(matches!(r, Err(EditError::TypeMismatch)));
}

#[test]
fn batch_continues_after_failing_get() {
    let mut doc = text_to_doc("a = 1");
    let ops = vec![
        Operation::Get { path: "missing".to_string() },
        Operation::Add(add_at("b", JsonValue::Int(2))),
    ];
    let outs = do_edits(&mut doc, ops).unwrap();
    assert_eq!(outs.len(), 2);
    assert!(matches!(&outs[0], JsonValue::Null));
    assert!(matches!(&outs[1], JsonValue::Str(s) if s == "ok"));
    assert!(doc.root.contains_key("b"));
}

#[test]
fn add_materializes_array_of_tables_deep() {
    // Adding at foo/0/hi on a document without foo grows [[foo]].
    let mut doc = text_to_doc("top = \"hi\"");
    handle_add(&mut doc, add_at("foo/0/hi", JsonValue::Int(123))).unwrap();
    let got = traverse(TraverseOps::Get, &mut doc, "foo/0/hi").unwrap().unwrap();
    assert!(matches!(got, JsonValue::Int(123)));
    match &doc.root.entries[1].1 {
        TomlNode::ArrayOfTables(ts) => assert_eq!(ts.len(), 1),
        other => panic!("expected an array of tables, got {:?}", other),
    }
}

#[test]
fn dotted_path_stands_in_for_path() {
    let mut doc = text_to_doc("");
    let op = AddOp {
        path: Some("ignored".to_string()),
        table_header_path: None,
        dotted_path: Some("used".to_string()),
        value: Some(JsonValue::Int(5)),
    };
    handle_add(&mut doc, op).unwrap();
    assert!(doc.root.contains_key("used"));
    assert!(!doc.root.contains_key("ignored"));
}
