use toml_path_edit::model::{TomlDocument, TomlNode, TomlTable, Value};
use toml_path_edit::table_header_adder::add_value_with_table_header_and_dotted_path;

fn value_to_toml(v: &Value) -> toml_edit::Value {
    match v {
        Value::Str(s) => toml_edit::Value::from(s.clone()),
        Value::Int(i) => toml_edit::Value::from(*i),
        Value::Float(b) => toml_edit::Value::from(f64::from_bits(*b)),
        Value::Bool(b) => toml_edit::Value::from(*b),
        Value::Datetime(s) => {
            toml_edit::Value::Datetime(toml_edit::Formatted::new(s.parse().unwrap()))
        }
        Value::Array(a) => {
            let mut arr = toml_edit::Array::new();
            for x in a {
                arr.push(value_to_toml(x));
            }
            toml_edit::Value::Array(arr)
        }
        Value::InlineTable(m) => {
            let mut it = toml_edit::InlineTable::new();
            for (k, x) in m {
                it.insert(k, value_to_toml(x));
            }
            toml_edit::Value::InlineTable(it)
        }
    }
}

fn table_to_toml(t: &TomlTable) -> toml_edit::Table {
    let mut out = toml_edit::Table::new();
    out.set_dotted(t.dotted);
    for (k, n) in &t.entries {
        out.insert(k, node_to_item(n));
    }
    out
}

fn node_to_item(n: &TomlNode) -> toml_edit::Item {
    match n {
        TomlNode::Absent => toml_edit::Item::None,
        TomlNode::Value(v) => toml_edit::Item::Value(value_to_toml(v)),
        TomlNode::Table(t) => toml_edit::Item::Table(table_to_toml(t)),
        TomlNode::ArrayOfTables(ts) => {
            let mut aot = toml_edit::ArrayOfTables::new();
            for t in ts {
                aot.push(table_to_toml(t));
            }
            toml_edit::Item::ArrayOfTables(aot)
        }
    }
}

fn doc_to_text(d: &TomlDocument) -> String {
    let mut doc = toml_edit::DocumentMut::new();
    for (k, n) in &d.root.entries {
        doc.as_table_mut().insert(k, node_to_item(n));
    }
    doc.to_string()
}

fn strings(parts: Vec<&str>) -> Vec<String> {
    parts.iter().map(|s| s.to_string()).collect()
}

#[test]
fn test_one_element_table_header() {
    let mut doc = TomlDocument { root: TomlTable::new() };
    let table_header_path = strings(vec!["moduleConfig"]);
    let dotted_path = strings(vec!["interpreters", "ruby", "enable"]);
    let _ = add_value_with_table_header_and_dotted_path(
        &mut doc.root,
        &table_header_path,
        Some(dotted_path),
        TomlNode::Value(Value::Bool(true)),
        false,
        false,
    );
    assert_eq!(
        doc_to_text(&doc),
        "[moduleConfig]\ninterpreters.ruby.enable = true\n"
    );
}

#[test]
fn test_two_element_table_header() {
    let mut doc = TomlDocument { root: TomlTable::new() };
    let table_header_path = strings(vec!["moduleConfig", "interpreters"]);
    let dotted_path = strings(vec!["ruby", "enable"]);
    let _ = add_value_with_table_header_and_dotted_path(
        &mut doc.root,
        &table_header_path,
        Some(dotted_path),
        TomlNode::Value(Value::Bool(true)),
        false,
        false,
    );
    assert_eq!(
        doc_to_text(&doc),
        "[moduleConfig.interpreters]\nruby.enable = true\n"
    );
}

#[test]
fn header_aot_sentinel_appends_new_entry() {
    // An existing [[tool]] entry stays first; the added one follows it.
    let mut doc = TomlDocument { root: TomlTable::new() };
    let it_first = TomlNode::Value(Value::InlineTable(vec![(
        "key".to_string(),
        Value::Str("first".to_string()),
    )]));
    add_value_with_table_header_and_dotted_path(
        &mut doc.root,
        &strings(vec!["tool"]),
        None,
        it_first,
        true,
        false,
    )
    .unwrap();
    let it_second = TomlNode::Value(Value::InlineTable(vec![(
        "key".to_string(),
        Value::Str("second".to_string()),
    )]));
    add_value_with_table_header_and_dotted_path(
        &mut doc.root,
        &strings(vec!["tool"]),
        None,
        it_second,
        true,
        false,
    )
    .unwrap();
    match &doc.root.entries[0].1 {
        TomlNode::ArrayOfTables(ts) => {
            assert_eq!(ts.len(), 2);
            assert!(matches!(&ts[0].entries[0].1, TomlNode::Value(Value::Str(s)) if s == "first"));
            assert!(matches!(&ts[1].entries[0].1, TomlNode::Value(Value::Str(s)) if s == "second"));
        }
        other => panic!("expected an array of tables, got {:?}", other),
    }
}

#[test]
fn dotted_append_sentinel_pushes_onto_existing_array() {
    // torch = [ first ] grows to [ first, second ], first staying first.
    let mut doc = TomlDocument { root: TomlTable::new() };
    let first = TomlNode::Value(Value::InlineTable(vec![(
        "index".to_string(),
        Value::Str("foo".to_string()),
    )]));
    add_value_with_table_header_and_dotted_path(
        &mut doc.root,
        &strings(vec!["sources"]),
        Some(strings(vec!["torch"])),
        TomlNode::Value(Value::Array(vec![Value::InlineTable(vec![(
            "index".to_string(),
            Value::Str("foo".to_string()),
        )])])),
        false,
        false,
    )
    .unwrap();
    let _ = first;
    let second = TomlNode::Value(Value::InlineTable(vec![(
        "index".to_string(),
        Value::Str("pytorch-cpu".to_string()),
    )]));
    add_value_with_table_header_and_dotted_path(
        &mut doc.root,
        &strings(vec!["sources"]),
        Some(strings(vec!["torch"])),
        second,
        false,
        true,
    )
    .unwrap();
    match &doc.root.entries[0].1 {
        TomlNode::Table(sources) => match &sources.entries[0].1 {
            TomlNode::Value(Value::Array(arr)) => {
                assert_eq!(arr.len(), 2);
                assert!(
                    matches!(&arr[0], Value::InlineTable(m) if matches!(&m[0].1, Value::Str(s) if s == "foo"))
                );
                assert!(
                    matches!(&arr[1], Value::InlineTable(m) if matches!(&m[0].1, Value::Str(s) if s == "pytorch-cpu"))
                );
            }
            other => panic!("expected an array, got {:?}", other),
        },
        other => panic!("expected a table, got {:?}", other),
    }
}

#[test]
fn dotted_append_sentinel_needs_an_array() {
    // torch = 1 cannot take an append; the document is left unchanged.
    let mut doc = TomlDocument { root: TomlTable::new() };
    add_value_with_table_header_and_dotted_path(
        &mut doc.root,
        &strings(vec!["sources"]),
        Some(strings(vec!["torch"])),
        TomlNode::Value(Value::Int(1)),
        false,
        false,
    )
    .unwrap();
    let before = doc_to_text(&doc);
    let r = add_value_with_table_header_and_dotted_path(
        &mut doc.root,
        &strings(vec!["sources"]),
        Some(strings(vec!["torch"])),
        TomlNode::Value(Value::Int(2)),
        false,
        true,
    );
    assert!(matches!(r, Err(toml_path_edit::model::EditError::TypeMismatch)));
    assert_eq!(doc_to_text(&doc), before);
}

#[test]
fn header_cannot_pass_through_scalar() {
    let mut doc = TomlDocument { root: TomlTable::new() };
    doc.root.insert("a".to_string(), TomlNode::Value(Value::Int(1)));
    let r = add_value_with_table_header_and_dotted_path(
        &mut doc.root,
        &strings(vec!["a", "b"]),
        Some(strings(vec!["c"])),
        TomlNode::Value(Value::Bool(true)),
        false,
        false,
    );
    assert!(matches!(r, Err(toml_path_edit::model::EditError::TypeMismatch)));
}

#[test]
fn header_onto_existing_table_installs_value() {
    // [a] holding x = 1; a header add at "a" with no dotted path installs
    // the table-shaped value over the existing block table.
    let mut doc = TomlDocument { root: TomlTable::new() };
    let mut inner = TomlTable::new();
    inner.insert("x".to_string(), TomlNode::Value(Value::Int(1)));
    doc.root.insert("a".to_string(), TomlNode::Table(inner));
    add_value_with_table_header_and_dotted_path(
        &mut doc.root,
        &strings(vec!["a"]),
        None,
        TomlNode::Value(Value::InlineTable(vec![("y".to_string(), Value::Int(2))])),
        false,
        false,
    )
    .unwrap();
    match &doc.root.entries[0].1 {
        TomlNode::Table(t) => {
            assert_eq!(t.entries.len(), 1);
            assert_eq!(t.entries[0].0, "y");
            assert!(matches!(&t.entries[0].1, TomlNode::Value(Value::Int(2))));
            assert!(!t.dotted);
        }
        other => panic!("expected a table, got {:?}", other),
    }
}

#[test]
fn header_onto_existing_table_rejects_non_table_value() {
    let mut doc = TomlDocument { root: TomlTable::new() };
    doc.root.insert("a".to_string(), TomlNode::Table(TomlTable::new()));
    let before = doc_to_text(&doc);
    let r = add_value_with_table_header_and_dotted_path(
        &mut doc.root,
        &strings(vec!["a"]),
        None,
        TomlNode::Value(Value::Int(3)),
        false,
        false,
    );
    assert!(matches!(r, Err(toml_path_edit::model::EditError::TypeMismatch)));
    assert_eq!(doc_to_text(&doc), before);
}
