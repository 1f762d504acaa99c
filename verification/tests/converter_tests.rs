use serde_json::from_str;
use toml_path_edit::json::JsonValue;
use toml_path_edit::converter::json_to_toml;
use toml_path_edit::model::{TomlNode, TomlTable, Value};

fn json_from_serde(v: &serde_json::Value) -> JsonValue {
    match v {
        serde_json::Value::Null => JsonValue::Null,
        serde_json::Value::Bool(b) => JsonValue::Bool(*b),
        serde_json::Value::Number(n) => match n.as_i64() {
            Some(i) => JsonValue::Int(i),
            None => JsonValue::Float(n.as_f64().unwrap().to_bits()),
        },
        serde_json::Value::String(s) => JsonValue::Str(s.clone()),
        serde_json::Value::Array(a) => JsonValue::Array(a.iter().map(json_from_serde).collect()),
        serde_json::Value::Object(m) => {
            JsonValue::Object(m.iter().map(|(k, x)| (k.clone(), json_from_serde(x))).collect())
        }
    }
}

fn value_to_toml(v: &Value) -> toml_edit::Value {
    match v {
        Value::Str(s) => toml_edit::Value::from(s.clone()),
        Value::Int(i) => toml_edit::Value::from(*i),
        Value::Float(b) => toml_edit::Value::from(f64::from_bits(*b)),
        Value::Bool(b) => toml_edit::Value::from(*b),
        Value::Datetime(s) => {
            toml_edit::Value::Datetime(toml_edit::Formatted::new(s.parse().unwrap()))
        }
        Value::Array(a) => {
            let mut arr = toml_edit::Array::new();
            for x in a {
                arr.push(value_to_toml(x));
            }
            toml_edit::Value::Array(arr)
        }
        Value::InlineTable(m) => {
            let mut it = toml_edit::InlineTable::new();
            for (k, x) in m {
                it.insert(k, value_to_toml(x));
            }
            toml_edit::Value::InlineTable(it)
        }
    }
}

fn table_to_toml(t: &TomlTable) -> toml_edit::Table {
    let mut out = toml_edit::Table::new();
    out.set_dotted(t.dotted);
    for (k, n) in &t.entries {
        out.insert(k, node_to_item(n));
    }
    out
}

fn node_to_item(n: &TomlNode) -> toml_edit::Item {
    match n {
        TomlNode::Absent => toml_edit::Item::None,
        TomlNode::Value(v) => toml_edit::Item::Value(value_to_toml(v)),
        TomlNode::Table(t) => toml_edit::Item::Table(table_to_toml(t)),
        TomlNode::ArrayOfTables(ts) => {
            let mut aot = toml_edit::ArrayOfTables::new();
            for t in ts {
                aot.push(table_to_toml(t));
            }
            toml_edit::Item::ArrayOfTables(aot)
        }
    }
}

#[test]
fn test_json_to_toml_array() {
    let json: serde_json::Value = from_str("[1, 2, 3]").unwrap();
    let toml = json_to_toml(&json_from_serde(&json), true).unwrap();
    let res = node_to_item(&toml).to_string();
    assert_eq!(res, "[1, 2, 3]");
}

#[test]
fn test_json_to_block_table() {
    let json: serde_json::Value = from_str("{\"a\": 1, \"b\": 2}").unwrap();
    let toml = json_to_toml(&json_from_serde(&json), false).unwrap();
    let res = node_to_item(&toml).to_string();
    assert_eq!(res.trim(), "a = 1\nb = 2".trim());
}

#[test]
fn test_json_to_inline_table() {
    let json: serde_json::Value = from_str("{\"a\": 1, \"b\": 2}").unwrap();
    let toml = json_to_toml(&json_from_serde(&json), true).unwrap();
    let res = node_to_item(&toml).to_string();
    assert_eq!(res.trim(), "{ a = 1, b = 2 }".trim());
}

#[test]
fn test_json_to_inline_table_with_array() {
    let json_string = r#"{
    "who": 123,
    "arr": [
        { "a": 1, "b": 2 },
        { "a": 3, "b": 4 }
    ]
}"#;
    let json: serde_json::Value = from_str(json_string).unwrap();
    let toml = json_to_toml(&json_from_serde(&json), true).unwrap();
    let res = node_to_item(&toml).to_string();
    assert_eq!(
        res.trim(),
        "{ arr = [{ a = 1, b = 2 }, { a = 3, b = 4 }], who = 123 }".trim()
    );
}

#[test]
fn test_json_to_toml_table_with_array_of_tables() {
    let json_string = r#"[
        { "a": 1, "b": 2 },
        { "a": 3, "b": 4 }
    ]"#;
    let json: serde_json::Value = from_str(json_string).unwrap();
    let toml_res = json_to_toml(&json_from_serde(&json), false);
    assert!(toml_res.is_ok());
    let mut doc = toml_edit::DocumentMut::new();
    doc.as_table_mut().insert("arr", node_to_item(&toml_res.unwrap()));

    let expected = r#"
[[arr]]
a = 1
b = 2

[[arr]]
a = 3
b = 4
"#;

    assert_eq!(doc.to_string().trim(), expected.trim());
}

#[test]
fn test_json_to_toml_table_with_deep_array() {
    let json_string = r#"[
        { "a": 1, "b": [1, 2, 3] },
        { "a": 3, "b": [2, 3, 4] }
    ]"#;
    let json: serde_json::Value = from_str(json_string).unwrap();
    let toml_res = json_to_toml(&json_from_serde(&json), false);
    assert!(toml_res.is_ok());
    let mut doc = toml_edit::DocumentMut::new();
    doc.as_table_mut().insert("arr", node_to_item(&toml_res.unwrap()));

    let expected = r#"
[[arr]]
a = 1
b = [1, 2, 3]

[[arr]]
a = 3
b = [2, 3, 4]
"#;

    assert_eq!(doc.to_string().trim(), expected.trim());
}

#[test]
fn test_json_to_toml_float() {
    let json: serde_json::Value = from_str("1.4").unwrap();
    let toml = json_to_toml(&json_from_serde(&json), true).unwrap();
    let res = node_to_item(&toml).to_string();
    assert_eq!(res, "1.4");
}

#[test]
fn non_finite_float_is_rejected() {
    let j = JsonValue::Float(f64::NAN.to_bits());
    assert!(matches!(
        json_to_toml(&j, true),
        Err(toml_path_edit::model::EditError::ValueConversion)
    ));
    let j = JsonValue::Float(f64::INFINITY.to_bits());
    assert!(matches!(
        json_to_toml(&j, false),
        Err(toml_path_edit::model::EditError::ValueConversion)
    ));
}

#[test]
fn null_inside_array_is_rejected() {
    let json: serde_json::Value = from_str("[1, null]").unwrap();
    assert!(matches!(
        json_to_toml(&json_from_serde(&json), true),
        Err(toml_path_edit::model::EditError::ValueConversion)
    ));
}

#[test]
fn mixed_array_without_inline_is_rejected() {
    let json: serde_json::Value = from_str("[1, {\"a\": 1}]").unwrap();
    assert!(matches!(
        json_to_toml(&json_from_serde(&json), false),
        Err(toml_path_edit::model::EditError::ValueConversion)
    ));
}

#[test]
fn top_level_null_becomes_absent() {
    let j = JsonValue::Null;
    assert!(matches!(json_to_toml(&j, false), Ok(TomlNode::Absent)));
}
