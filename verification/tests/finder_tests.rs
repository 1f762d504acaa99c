use toml_path_edit::field_finder::{get_field, DoInsert, TomlValue};
use toml_path_edit::model::{TomlDocument, TomlNode, TomlTable, Value};

fn toml_to_value(v: &toml_edit::Value) -> Value {
    match v {
        toml_edit::Value::String(s) => Value::Str(s.value().clone()),
        toml_edit::Value::Integer(i) => Value::Int(*i.value()),
        toml_edit::Value::Float(f) => Value::Float(f.value().to_bits()),
        toml_edit::Value::Boolean(b) => Value::Bool(*b.value()),
        toml_edit::Value::Datetime(d) => Value::Datetime(d.value().to_string()),
        toml_edit::Value::Array(a) => Value::Array(a.iter().map(toml_to_value).collect()),
        toml_edit::Value::InlineTable(t) => Value::InlineTable(
            t.iter().map(|(k, x)| (k.to_string(), toml_to_value(x))).collect(),
        ),
    }
}

fn toml_to_table(t: &toml_edit::Table) -> TomlTable {
    TomlTable {
        dotted: t.is_dotted(),
        entries: t.iter().map(|(k, i)| (k.to_string(), item_to_node(i))).collect(),
    }
}

fn item_to_node(i: &toml_edit::Item) -> TomlNode {
    match i {
        toml_edit::Item::None => TomlNode::Absent,
        toml_edit::Item::Value(v) => TomlNode::Value(toml_to_value(v)),
        toml_edit::Item::Table(t) => TomlNode::Table(toml_to_table(t)),
        toml_edit::Item::ArrayOfTables(a) => {
            TomlNode::ArrayOfTables(a.iter().map(toml_to_table).collect())
        }
    }
}

fn text_to_doc(s: &str) -> TomlDocument {
    let doc: toml_edit::DocumentMut = s.parse().unwrap();
    TomlDocument { root: toml_to_table(doc.as_table()) }
}

#[test]
fn get_basic_field() {
    let doc_string = r#"
test = "yo"
[foo]
bar = "baz"
[foo.bla]
bla = "bla"
"#;

    let mut doc = text_to_doc(doc_string);
    let val = get_field(
        &(vec!["foo".to_string()]),
        &"bar".to_string(),
        DoInsert::Yes,
        &mut doc,
    )
    .unwrap();

    if let TomlValue::Table(table) = val {
        assert!(table.contains_key("bar"));
    } else {
        panic!("Expected table");
    }
}

#[test]
fn insert_inline_array() {
    let doc_string = r#"test = [ 1 ]"#;
    let mut doc = text_to_doc(doc_string);
    let fields = vec!["test".to_string()];
    let val = get_field(&(fields), &"1".to_string(), DoInsert::Yes, &mut doc).unwrap();

    if let TomlValue::Array(array) = val {
        assert_eq!(array.len(), 1);
    } else {
        panic!("Expected array");
    }
}

#[test]
fn insert_table_array() {
    let doc_string = r#"
[[test]]
foo = "bar"
[[test]]
foo = "baz"
"#;
    let mut doc = text_to_doc(doc_string);
    let fields = vec!["test".to_string()];
    let val = get_field(&(fields), &"2".to_string(), DoInsert::Yes, &mut doc).unwrap();

    if let TomlValue::ArrayOfTables(array) = val {
        assert_eq!(array.len(), 2);
    } else {
        panic!("Expected array");
    }
}

#[test]
fn missing_key_without_insert_is_not_found() {
    let mut doc = text_to_doc("[foo]\nbar = 1");
    let r = get_field(
        &(vec!["foo".to_string(), "nope".to_string()]),
        &"x".to_string(),
        DoInsert::No,
        &mut doc,
    );
    assert!(matches!(r, Err(toml_path_edit::model::EditError::NotFound)));
}

#[test]
fn materializes_table_for_text_lookahead() {
    let mut doc = text_to_doc("");
    let r = get_field(
        &(vec!["a".to_string(), "b".to_string()]),
        &"c".to_string(),
        DoInsert::Yes,
        &mut doc,
    );
    assert!(matches!(r, Ok(TomlValue::Table(_))));
    // `a` was materialized as a block table since "b" is not an index.
    assert!(doc.root.contains_key("a"));
    match &doc.root.entries[0].1 {
        TomlNode::Table(t) => assert!(t.contains_key("b")),
        other => panic!("expected a table, got {:?}", other),
    }
}

#[test]
fn materializes_array_of_tables_for_index_lookahead() {
    let mut doc = text_to_doc("");
    let r = get_field(
        &(vec!["a".to_string(), "0".to_string()]),
        &"c".to_string(),
        DoInsert::Yes,
        &mut doc,
    );
    assert!(matches!(r, Ok(TomlValue::Table(_))));
    match &doc.root.entries[0].1 {
        TomlNode::ArrayOfTables(ts) => assert_eq!(ts.len(), 1),
        other => panic!("expected an array of tables, got {:?}", other),
    }
}
