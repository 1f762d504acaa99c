// Formatting preservation: edits computed on the verified model are applied
// to the live parsed document as a diff, touching only what changed, so the
// comments and whitespace of everything else survive in the rendered text.

use toml_path_edit::model::{TomlDocument, TomlNode, TomlTable, Value};
use toml_path_edit::remover::handle_remove;
use toml_path_edit::adder::{handle_add, AddOp};
use toml_path_edit::json::JsonValue;
use toml_path_edit::table_header_adder::add_value_with_table_header_and_dotted_path;

fn toml_to_value(v: &toml_edit::Value) -> Value {
    match v {
        toml_edit::Value::String(s) => Value::Str(s.value().clone()),
        toml_edit::Value::Integer(i) => Value::Int(*i.value()),
        toml_edit::Value::Float(f) => Value::Float(f.value().to_bits()),
        toml_edit::Value::Boolean(b) => Value::Bool(*b.value()),
        toml_edit::Value::Datetime(d) => Value::Datetime(d.value().to_string()),
        toml_edit::Value::Array(a) => Value::Array(a.iter().map(toml_to_value).collect()),
        toml_edit::Value::InlineTable(t) => Value::InlineTable(
            t.iter().map(|(k, x)| (k.to_string(), toml_to_value(x))).collect(),
        ),
    }
}

fn toml_to_table(t: &toml_edit::Table) -> TomlTable {
    TomlTable {
        dotted: t.is_dotted(),
        entries: t.iter().map(|(k, i)| (k.to_string(), item_to_node(i))).collect(),
    }
}

fn item_to_node(i: &toml_edit::Item) -> TomlNode {
    match i {
        toml_edit::Item::None => TomlNode::Absent,
        toml_edit::Item::Value(v) => TomlNode::Value(toml_to_value(v)),
        toml_edit::Item::Table(t) => TomlNode::Table(toml_to_table(t)),
        toml_edit::Item::ArrayOfTables(a) => {
            TomlNode::ArrayOfTables(a.iter().map(toml_to_table).collect())
        }
    }
}

fn value_to_toml(v: &Value) -> toml_edit::Value {
    match v {
        Value::Str(s) => toml_edit::Value::from(s.clone()),
        Value::Int(i) => toml_edit::Value::from(*i),
        Value::Float(b) => toml_edit::Value::from(f64::from_bits(*b)),
        Value::Bool(b) => toml_edit::Value::from(*b),
        Value::Datetime(s) => {
            toml_edit::Value::Datetime(toml_edit::Formatted::new(s.parse().unwrap()))
        }
        Value::Array(a) => {
            let mut arr = toml_edit::Array::new();
            for x in a {
                arr.push(value_to_toml(x));
            }
            toml_edit::Value::Array(arr)
        }
        Value::InlineTable(m) => {
            let mut it = toml_edit::InlineTable::new();
            for (k, x) in m {
                it.insert(k, value_to_toml(x));
            }
            toml_edit::Value::InlineTable(it)
        }
    }
}

fn table_to_toml(t: &TomlTable) -> toml_edit::Table {
    let mut out = toml_edit::Table::new();
    out.set_dotted(t.dotted);
    for (k, n) in &t.entries {
        out.insert(k, node_to_toml(n));
    }
    out
}

fn node_to_toml(n: &TomlNode) -> toml_edit::Item {
    match n {
        TomlNode::Absent => toml_edit::Item::None,
        TomlNode::Value(v) => toml_edit::Item::Value(value_to_toml(v)),
        TomlNode::Table(t) => toml_edit::Item::Table(table_to_toml(t)),
        TomlNode::ArrayOfTables(ts) => {
            let mut aot = toml_edit::ArrayOfTables::new();
            for t in ts {
                aot.push(table_to_toml(t));
            }
            toml_edit::Item::ArrayOfTables(aot)
        }
    }
}

fn sync_table(live: &mut toml_edit::Table, m: &TomlTable) {
    if live.is_dotted() != m.dotted {
        live.set_dotted(m.dotted);
    }
    let keep: Vec<String> = m.entries.iter().map(|(k, _)| k.clone()).collect();
    let stale: Vec<String> = live
        .iter()
        .map(|(k, _)| k.to_string())
        .filter(|k| !keep.contains(k))
        .collect();
    for k in stale {
        live.remove(&k);
    }
    for (k, mn) in &m.entries {
        match live.get_mut(k) {
            Some(item) => sync_item(item, mn),
            None => {
                live.insert(k, node_to_toml(mn));
            }
        }
    }
}

fn sync_item(live: &mut toml_edit::Item, m: &TomlNode) {
    match (&mut *live, m) {
        (toml_edit::Item::Table(t), TomlNode::Table(mt)) => sync_table(t, mt),
        (toml_edit::Item::ArrayOfTables(a), TomlNode::ArrayOfTables(ms)) => {
            while a.len() > ms.len() {
                a.remove(ms.len());
            }
            for (i, mt) in ms.iter().enumerate() {
                match a.get_mut(i) {
                    Some(t) => sync_table(t, mt),
                    None => a.push(table_to_toml(mt)),
                }
            }
        }
        (toml_edit::Item::Value(v), TomlNode::Value(mv)) => sync_value(v, mv),
        (toml_edit::Item::None, TomlNode::Absent) => {}
        _ => {
            *live = node_to_toml(m);
        }
    }
}

fn sync_value(live: &mut toml_edit::Value, m: &Value) {
    let replace = match (&mut *live, m) {
        (toml_edit::Value::Array(a), Value::Array(ma)) => {
            sync_array(a, ma);
            false
        }
        (toml_edit::Value::InlineTable(t), Value::InlineTable(mm)) => {
            sync_inline_table(t, mm);
            false
        }
        (toml_edit::Value::String(s), Value::Str(ms)) => s.value() != ms,
        (toml_edit::Value::Integer(x), Value::Int(mi)) => x.value() != mi,
        (toml_edit::Value::Float(f), Value::Float(bits)) => f.value().to_bits() != *bits,
        (toml_edit::Value::Boolean(b), Value::Bool(mb)) => b.value() != mb,
        (toml_edit::Value::Datetime(d), Value::Datetime(ms)) => d.value().to_string() != *ms,
        _ => true,
    };
    if replace {
        *live = value_to_toml(m);
    }
}

fn sync_array(live: &mut toml_edit::Array, m: &[Value]) {
    while live.len() > m.len() {
        live.remove(m.len());
    }
    for (i, mv) in m.iter().enumerate() {
        match live.get_mut(i) {
            Some(v) => sync_value(v, mv),
            None => live.push(value_to_toml(mv)),
        }
    }
}

fn sync_inline_table(live: &mut toml_edit::InlineTable, m: &[(String, Value)]) {
    let keep: Vec<String> = m.iter().map(|(k, _)| k.clone()).collect();
    let stale: Vec<String> = live
        .iter()
        .map(|(k, _)| k.to_string())
        .filter(|k| !keep.contains(k))
        .collect();
    for k in stale {
        live.remove(&k);
    }
    for (k, mv) in m {
        match live.get_mut(k) {
            Some(v) => sync_value(v, mv),
            None => {
                live.insert(k, value_to_toml(mv));
            }
        }
    }
}

#[test]
fn test_preserve_existing() {
    let mut doc = r#"
[moduleConfig]
bundles.go.enable = true
        "#
        .to_string()
        .parse::<toml_edit::DocumentMut>()
        .expect("invalid doc");
    let mut model = TomlDocument { root: toml_to_table(doc.as_table()) };
    let table_header_path = vec!["moduleConfig"]
        .iter().map(|s| s.to_string()).collect::<Vec<String>>();
    let dotted_path = vec!["interpreters", "ruby", "enable"]
        .iter().map(|s| s.to_string()).collect::<Vec<String>>();
    let _ = add_value_with_table_header_and_dotted_path(
        &mut model.root,
        &table_header_path,
        Some(dotted_path),
        TomlNode::Value(Value::Bool(true)),
        false,
        false,
    );
    sync_table(doc.as_table_mut(), &model.root);
    assert_eq!(doc.to_string(), "\n[moduleConfig]\nbundles.go.enable = true\ninterpreters.ruby.enable = true\n        ");
}

#[test]
fn test_preserve_existing_inner_tables() {
    let mut doc = r#"
[moduleConfig]
interpreter.ruby.enable = true
        "#
        .to_string()
        .parse::<toml_edit::DocumentMut>()
        .expect("invalid doc");
    let mut model = TomlDocument { root: toml_to_table(doc.as_table()) };
    let table_header_path = vec!["moduleConfig"]
        .iter().map(|s| s.to_string()).collect::<Vec<String>>();
    let dotted_path = vec!["interpreters", "ruby", "version"]
        .iter().map(|s| s.to_string()).collect::<Vec<String>>();
    let _ = add_value_with_table_header_and_dotted_path(
        &mut model.root,
        &table_header_path,
        Some(dotted_path),
        TomlNode::Value(Value::Str("3.2.3".to_string())),
        false,
        false,
    );
    sync_table(doc.as_table_mut(), &model.root);
    assert_eq!(doc.to_string(), "\n[moduleConfig]\ninterpreter.ruby.enable = true\ninterpreters.ruby.version = \"3.2.3\"\n        ");
}

#[test]
fn noop_batch_keeps_text_byte_for_byte() {
    let text = "test = \"yo\" # keep me\n[foo]\n  bar = \"baz\"  # comment\n";
    let mut doc = text.parse::<toml_edit::DocumentMut>().unwrap();
    let mut model = TomlDocument { root: toml_to_table(doc.as_table()) };
    handle_remove("foo/missing", &mut model).unwrap();
    sync_table(doc.as_table_mut(), &model.root);
    assert_eq!(doc.to_string(), text);
}

#[test]
fn removing_a_key_keeps_other_comments() {
    let text = "test = \"yo\" # keep me\n[foo]\nbar = \"baz\"  # comment\nbaz = 1\n";
    let mut doc = text.parse::<toml_edit::DocumentMut>().unwrap();
    let mut model = TomlDocument { root: toml_to_table(doc.as_table()) };
    handle_remove("foo/baz", &mut model).unwrap();
    sync_table(doc.as_table_mut(), &model.root);
    assert_eq!(
        doc.to_string(),
        "test = \"yo\" # keep me\n[foo]\nbar = \"baz\"  # comment\n"
    );
}

#[test]
fn removing_last_array_element_keeps_trailing_comment() {
    let text = "arr = [1, 2, 3] # comment\n";
    let mut doc = text.parse::<toml_edit::DocumentMut>().unwrap();
    let mut model = TomlDocument { root: toml_to_table(doc.as_table()) };
    handle_remove("arr/2", &mut model).unwrap();
    sync_table(doc.as_table_mut(), &model.root);
    assert_eq!(doc.to_string(), "arr = [1, 2] # comment\n");
}

#[test]
fn adding_a_key_keeps_existing_comments() {
    let text = "run = \"echo hi\" # go\n";
    let mut doc = text.parse::<toml_edit::DocumentMut>().unwrap();
    let mut model = TomlDocument { root: toml_to_table(doc.as_table()) };
    handle_add(
        &mut model,
        AddOp {
            path: Some("name".to_string()),
            table_header_path: None,
            dotted_path: None,
            value: Some(JsonValue::Str("x".to_string())),
        },
    )
    .unwrap();
    sync_table(doc.as_table_mut(), &model.root);
    assert_eq!(doc.to_string(), "run = \"echo hi\" # go\nname = \"x\"\n");
}
