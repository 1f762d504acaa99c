//! The add engine: inserting a converted JSON value at the location a path
//! names, materializing missing structure on the way.
//!
//! In simple mode the parent path is resolved with creation switched on,
//! the value converts inline exactly when the resolved parent is an inline
//! table, an array or a scalar, and the insertion obeys the append/replace
//! policy of contiguous indices. The table-header mode hands over to
//! `table_header_adder`. A failure leaves the document exactly as it was.

use vstd::prelude::*;

use crate::converter::{json_to_toml, spec_json_to_toml};
use crate::json::{JsonValue, JsonView};
use crate::model::{
    entries_insert, key_index, lemma_key_index, node_view, table_view, tables_view,
    value_entries_view, value_view, values_view, EditError, NodeView, TableView,
    TomlDocument, TomlNode, TomlTable, Value, ValueView,
};
use crate::paths::{
    is_aot_sentinel, is_append_sentinel, parse_index, spec_parse_index, spec_split, split_on_slash,
};
use crate::field_finder::{spec_backup_node, spec_last_field_container};
use crate::table_header_adder::{add_value_with_table_header_and_dotted_path, spec_add_with_header};

verus! {

broadcast use vstd::std_specs::vec::group_vec_axioms, vstd::seq::group_seq_axioms;

/// One add operation: a primary path (the dotted path, where both are
/// given, stands in for it), an optional table-header path, and the value
/// to add.
pub struct AddOp {
    pub path: Option<String>,
    pub table_header_path: Option<String>,
    pub dotted_path: Option<String>,
    pub value: Option<JsonValue>,
}

/// Mathematical view of an add operation.
#[verifier::ext_equal]
pub struct AddOpView {
    pub path: Option<Seq<char>>,
    pub table_header_path: Option<Seq<char>>,
    pub dotted_path: Option<Seq<char>>,
    pub value: Option<JsonView>,
}

impl View for AddOp {
    type V = AddOpView;

    open spec fn view(&self) -> AddOpView {
        AddOpView {
            path: match self.path {
                Some(s) => Some(s@),
                Option::None => Option::None,
            },
            table_header_path: match self.table_header_path {
                Some(s) => Some(s@),
                Option::None => Option::None,
            },
            dotted_path: match self.dotted_path {
                Some(s) => Some(s@),
                Option::None => Option::None,
            },
            value: match self.value {
                Some(j) => Some(j@),
                Option::None => Option::None,
            },
        }
    }
}

/// Inserting a table-shaped node into an array of tables: the last segment
/// must read as an index; an index equal to the length appends, a smaller
/// one replaces, a larger one is out of range.
pub open spec fn spec_insert_aot(ts: Seq<TableView>, last: Seq<char>, n: NodeView) -> Result<
    Seq<TableView>,
    EditError,
> {
    match spec_parse_index(last) {
        Some(idx) => match n {
            NodeView::Table(t) => {
                if idx == ts.len() {
                    Ok(ts.push(t))
                } else if idx < ts.len() {
                    Ok(ts.update(idx, t))
                } else {
                    Err(EditError::BadIndex)
                }
            },
            _ => Err(EditError::TypeMismatch),
        },
        Option::None => Err(EditError::BadIndex),
    }
}

/// Inserting a scalar value into an array, under the same index policy.
pub open spec fn spec_insert_array(a: Seq<ValueView>, last: Seq<char>, n: NodeView) -> Result<
    Seq<ValueView>,
    EditError,
> {
    match spec_parse_index(last) {
        Some(idx) => match n {
            NodeView::Value(v) => {
                if idx == a.len() {
                    Ok(a.push(v))
                } else if idx < a.len() {
                    Ok(a.update(idx, v))
                } else {
                    Err(EditError::BadIndex)
                }
            },
            _ => Err(EditError::TypeMismatch),
        },
        Option::None => Err(EditError::BadIndex),
    }
}

/// Inserting a scalar value into an inline table.
pub open spec fn spec_insert_inline(
    m: Seq<(Seq<char>, ValueView)>,
    last: Seq<char>,
    n: NodeView,
) -> Result<Seq<(Seq<char>, ValueView)>, EditError> {
    match n {
        NodeView::Value(v) => Ok(entries_insert(m, last, v)),
        _ => Err(EditError::TypeMismatch),
    }
}

/// The add below a block table: at the end of the parent path the value
/// converts block-style and is inserted under the last segment.
pub open spec fn spec_add_in_table(
    t: TableView,
    path: Seq<Seq<char>>,
    i: int,
    last: Seq<char>,
    jv: JsonView,
) -> Result<TableView, EditError>
    decreases path.len() - i, 3int,
{
    if i < 0 || i >= path.len() {
        match spec_json_to_toml(jv, false) {
            Ok(n) => Ok(TableView { entries: entries_insert(t.entries, last, n), dotted: t.dotted }),
            Err(e) => Err(e),
        }
    } else {
        let ki = key_index(t.entries, path[i]);
        let backup = spec_backup_node(path, i, last);
        let child = if ki < 0 {
            backup
        } else if t.entries[ki].1 is Absent {
            backup
        } else {
            t.entries[ki].1
        };
        let entries1 = if ki < 0 {
            t.entries.push((path[i], child))
        } else {
            t.entries.update(ki, (path[i], child))
        };
        let ki2 = if ki < 0 {
            t.entries.len() as int
        } else {
            ki
        };
        match spec_add_in_node(child, path, i + 1, last, jv) {
            Ok(n2) => Ok(
                TableView { entries: entries1.update(ki2, (path[i], n2)), dotted: t.dotted },
            ),
            Err(e) => Err(e),
        }
    }
}

/// The add below a node: dispatch on its shape.
pub open spec fn spec_add_in_node(
    n: NodeView,
    path: Seq<Seq<char>>,
    i: int,
    last: Seq<char>,
    jv: JsonView,
) -> Result<NodeView, EditError>
    decreases path.len() - i, 4int,
{
    match n {
        NodeView::Table(t) => match spec_add_in_table(t, path, i, last, jv) {
            Ok(t2) => Ok(NodeView::Table(t2)),
            Err(e) => Err(e),
        },
        NodeView::Value(v) => match spec_add_in_value(v, path, i, last, jv) {
            Ok(v2) => Ok(NodeView::Value(v2)),
            Err(e) => Err(e),
        },
        NodeView::ArrayOfTables(ts) => match spec_add_in_aot(ts, path, i, last, jv) {
            Ok(ts2) => Ok(NodeView::ArrayOfTables(ts2)),
            Err(e) => Err(e),
        },
        NodeView::Absent => Err(EditError::TypeMismatch),
    }
}

/// The add below a scalar or inline payload: at the end of the parent path
/// the value converts inline-style; a plain scalar parent cannot take a
/// key, whatever the value converts to.
pub open spec fn spec_add_in_value(
    v: ValueView,
    path: Seq<Seq<char>>,
    i: int,
    last: Seq<char>,
    jv: JsonView,
) -> Result<ValueView, EditError>
    decreases path.len() - i, 2int,
{
    match v {
        ValueView::Array(a) => match spec_add_in_array(a, path, i, last, jv) {
            Ok(a2) => Ok(ValueView::Array(a2)),
            Err(e) => Err(e),
        },
        ValueView::InlineTable(m) => match spec_add_in_inline(m, path, i, last, jv) {
            Ok(m2) => Ok(ValueView::InlineTable(m2)),
            Err(e) => Err(e),
        },
        _ => {
            if i >= path.len() {
                match spec_json_to_toml(jv, true) {
                    Ok(_) => Err(EditError::TypeMismatch),
                    Err(e) => Err(e),
                }
            } else {
                Err(EditError::TypeMismatch)
            }
        },
    }
}

/// The add below an array of scalars.
pub open spec fn spec_add_in_array(
    a: Seq<ValueView>,
    path: Seq<Seq<char>>,
    i: int,
    last: Seq<char>,
    jv: JsonView,
) -> Result<Seq<ValueView>, EditError>
    decreases path.len() - i, 1int,
{
    if i < 0 || i >= path.len() {
        match spec_json_to_toml(jv, true) {
            Ok(n) => spec_insert_array(a, last, n),
            Err(e) => Err(e),
        }
    } else {
        match spec_parse_index(path[i]) {
            Some(idx) => {
                let a1 = if idx == a.len() {
                    a.push(spec_last_field_container(last))
                } else {
                    a
                };
                if idx >= a1.len() {
                    Err(EditError::BadIndex)
                } else {
                    match spec_add_in_value(a1[idx], path, i + 1, last, jv) {
                        Ok(v2) => Ok(a1.update(idx, v2)),
                        Err(e) => Err(e),
                    }
                }
            },
            Option::None => Err(EditError::BadIndex),
        }
    }
}

/// The add below an inline table.
pub open spec fn spec_add_in_inline(
    m: Seq<(Seq<char>, ValueView)>,
    path: Seq<Seq<char>>,
    i: int,
    last: Seq<char>,
    jv: JsonView,
) -> Result<Seq<(Seq<char>, ValueView)>, EditError>
    decreases path.len() - i, 1int,
{
    if i < 0 || i >= path.len() {
        match spec_json_to_toml(jv, true) {
            Ok(n) => spec_insert_inline(m, last, n),
            Err(e) => Err(e),
        }
    } else {
        let ki = key_index(m, path[i]);
        let m1 = if ki < 0 {
            m.push((path[i], spec_last_field_container(last)))
        } else {
            m
        };
        let ki2 = if ki < 0 {
            m.len() as int
        } else {
            ki
        };
        match spec_add_in_value(m1[ki2].1, path, i + 1, last, jv) {
            Ok(v2) => Ok(m1.update(ki2, (path[i], v2))),
            Err(e) => Err(e),
        }
    }
}

/// The add below an array of tables.
pub open spec fn spec_add_in_aot(
    ts: Seq<TableView>,
    path: Seq<Seq<char>>,
    i: int,
    last: Seq<char>,
    jv: JsonView,
) -> Result<Seq<TableView>, EditError>
    decreases path.len() - i, 1int,
{
    if i < 0 || i >= path.len() {
        match spec_json_to_toml(jv, false) {
            Ok(n) => spec_insert_aot(ts, last, n),
            Err(e) => Err(e),
        }
    } else {
        match spec_parse_index(path[i]) {
            Some(idx) => {
                let ts1 = if idx == ts.len() {
                    ts.push(TableView { entries: Seq::empty(), dotted: false })
                } else {
                    ts
                };
                if idx >= ts1.len() {
                    Err(EditError::BadIndex)
                } else {
                    match spec_add_in_table(ts1[idx], path, i + 1, last, jv) {
                        Ok(t2) => Ok(ts1.update(idx, t2)),
                        Err(e) => Err(e),
                    }
                }
            },
            Option::None => Err(EditError::BadIndex),
        }
    }
}

/// The whole add operation: the dotted path stands in for the primary path
/// where both are given; a table-header path selects the header mode with
/// its sentinels; otherwise the parent path is resolved with creation on
/// and the value inserted under the last segment.
pub open spec fn spec_handle_add(root: TableView, op: AddOpView) -> Result<TableView, EditError> {
    let path0 = match op.dotted_path {
        Some(p) => Some(p),
        Option::None => op.path,
    };
    match op.table_header_path {
        Some(thp) => {
            match op.value {
                Option::None => Err(EditError::MalformedOp),
                Some(jv) => match spec_json_to_toml(jv, true) {
                    Err(e) => Err(e),
                    Ok(val) => {
                        let hdr0 = spec_split(thp);
                        let aot = hdr0.last() == "[[]]"@;
                        let hdr = if aot {
                            hdr0.drop_last()
                        } else {
                            hdr0
                        };
                        let dp0 = match path0 {
                            Some(p) => Some(spec_split(p)),
                            Option::None => Option::None,
                        };
                        let append = match dp0 {
                            Some(dv) => dv.last() == "[]"@,
                            Option::None => false,
                        };
                        let dp = match dp0 {
                            Some(dv) => if append {
                                Some(dv.drop_last())
                            } else {
                                Some(dv)
                            },
                            Option::None => Option::None,
                        };
                        spec_add_with_header(root, hdr, 0, dp, val, aot, append)
                    },
                },
            }
        },
        Option::None => {
            match path0 {
                Option::None => Err(EditError::MalformedOp),
                Some(p) => match op.value {
                    Option::None => Err(EditError::MalformedOp),
                    Some(jv) => {
                        let segs = spec_split(p);
                        spec_add_in_table(root, segs.drop_last(), 0, segs.last(), jv)
                    },
                },
            }
        },
    }
}

/// Inserts a table-shaped converted value into an array of tables; mirrors
/// `spec_insert_aot`.
fn add_in_array_of_tables(ts: Vec<TomlTable>, last_field: &String, toml: TomlNode) -> (r: Result<
    Vec<TomlTable>,
    EditError,
>)
    ensures
        (match r {
            Ok(ts2) => Ok::<Seq<TableView>, EditError>(tables_view(ts2@)),
            Err(e) => Err(e),
        }) == spec_insert_aot(tables_view(ts@), last_field@, toml@),
{
    let ghost tv = tables_view(ts@);
    match parse_index(last_field) {
        None => Err(EditError::BadIndex),
        Some(idx) => match toml {
            TomlNode::Table(t) => {
                let ghost t2 = table_view(t);
                let mut tts = ts;
                if idx == tts.len() {
                    tts.push(t);
                    proof {
                        assert(tables_view(tts@) =~= tv.push(t2));
                    }
                    Ok(tts)
                } else if idx < tts.len() {
                    tts[idx] = t;
                    proof {
                        assert(tables_view(tts@) =~= tv.update(idx as int, t2));
                    }
                    Ok(tts)
                } else {
                    Err(EditError::BadIndex)
                }
            },
            other => {
                proof {
                    assert(!(other@ is Table));
                }
                Err(EditError::TypeMismatch)
            },
        },
    }
}

/// Inserts a scalar converted value into an array; mirrors
/// `spec_insert_array`.
fn add_in_array(a: Vec<Value>, last_field: &String, toml: TomlNode) -> (r: Result<
    Vec<Value>,
    EditError,
>)
    ensures
        (match r {
            Ok(a2) => Ok::<Seq<ValueView>, EditError>(values_view(a2@)),
            Err(e) => Err(e),
        }) == spec_insert_array(values_view(a@), last_field@, toml@),
{
    let ghost av = values_view(a@);
    match parse_index(last_field) {
        None => Err(EditError::BadIndex),
        Some(idx) => match toml {
            TomlNode::Value(v) => {
                let ghost v2 = value_view(v);
                let mut aa = a;
                if idx == aa.len() {
                    aa.push(v);
                    proof {
                        assert(values_view(aa@) =~= av.push(v2));
                    }
                    Ok(aa)
                } else if idx < aa.len() {
                    aa[idx] = v;
                    proof {
                        assert(values_view(aa@) =~= av.update(idx as int, v2));
                    }
                    Ok(aa)
                } else {
                    Err(EditError::BadIndex)
                }
            },
            other => {
                proof {
                    assert(!(other@ is Value));
                }
                Err(EditError::TypeMismatch)
            },
        },
    }
}

/// Inserts a scalar converted value into an inline table; mirrors
/// `spec_insert_inline`.
fn add_in_inline_table(m: Vec<(String, Value)>, last_field: &String, toml: TomlNode) -> (r: Result<
    Vec<(String, Value)>,
    EditError,
>)
    ensures
        (match r {
            Ok(m2) => Ok::<Seq<(Seq<char>, ValueView)>, EditError>(value_entries_view(m2@)),
            Err(e) => Err(e),
        }) == spec_insert_inline(value_entries_view(m@), last_field@, toml@),
{
    match toml {
        TomlNode::Value(v) => {
            let mut mm = m;
            crate::model::insert_value_entry(&mut mm, last_field.clone(), v);
            Ok(mm)
        },
        other => {
            proof {
                assert(!(other@ is Value));
            }
            Err(EditError::TypeMismatch)
        },
    }
}

fn add_in_table(
    t: TomlTable,
    path: &Vec<String>,
    i: usize,
    last: &String,
    jv: &JsonValue,
) -> (r: Result<TomlTable, EditError>)
    requires
        i <= path@.len(),
    ensures
        (match r {
            Ok(t2) => Ok::<TableView, EditError>(t2@),
            Err(e) => Err(e),
        }) == spec_add_in_table(t@, path.deep_view(), i as int, last@, jv@),
    decreases path@.len() - i, 3int,
{
    let ghost pv = path.deep_view();
    if i >= path.len() {
        match json_to_toml(jv, false) {
            Ok(n) => {
                let mut tt = t;
                tt.insert(last.clone(), n);
                return Ok(tt);
            },
            Err(e) => {
                return Err(e);
            },
        }
    }
    let key = &path[i];
    proof {
        assert(pv[i as int] == path@[i as int]@);
        lemma_key_index(t@.entries, key@);
    }
    let found = t.find_key(key);
    let mut tt = t;
    let ghost oldt = tt@;
    let (k0, child) = match found {
        Some(ki) => {
            let (k0, existing) = tt.entries.remove(ki);
            match existing {
                TomlNode::Absent => (k0, crate::field_finder::backup_node(path, i, last)),
                other => (k0, other),
            }
        },
        None => (key.clone(), crate::field_finder::backup_node(path, i, last)),
    };
    let ki2 = match found {
        Some(ki) => ki,
        None => tt.entries.len(),
    };
    proof {
        let kis = key_index(oldt.entries, pv[i as int]);
        let spec_child = if kis < 0 {
            spec_backup_node(pv, i as int, last@)
        } else if oldt.entries[kis].1 is Absent {
            spec_backup_node(pv, i as int, last@)
        } else {
            oldt.entries[kis].1
        };
        assert(child@ == spec_child);
    }
    match add_in_node(child, path, i + 1, last, jv) {
        Ok(n2) => {
            tt.entries.insert(ki2, (k0, n2));
            proof {
                let kis = key_index(oldt.entries, pv[i as int]);
                let backup = spec_backup_node(pv, i as int, last@);
                let child_v = if kis < 0 {
                    backup
                } else if oldt.entries[kis].1 is Absent {
                    backup
                } else {
                    oldt.entries[kis].1
                };
                let entries1 = if kis < 0 {
                    oldt.entries.push((pv[i as int], child_v))
                } else {
                    oldt.entries.update(kis, (pv[i as int], child_v))
                };
                let ki2s = if kis < 0 {
                    oldt.entries.len() as int
                } else {
                    kis
                };
                assert(tt@.entries =~= entries1.update(
                    ki2s,
                    (pv[i as int], node_view(tt.entries@[ki2 as int].1)),
                ));
            }
            Ok(tt)
        },
        Err(e) => Err(e),
    }
}

fn add_in_node(
    n: TomlNode,
    path: &Vec<String>,
    i: usize,
    last: &String,
    jv: &JsonValue,
) -> (r: Result<TomlNode, EditError>)
    requires
        i <= path@.len(),
    ensures
        (match r {
            Ok(n2) => Ok::<NodeView, EditError>(n2@),
            Err(e) => Err(e),
        }) == spec_add_in_node(n@, path.deep_view(), i as int, last@, jv@),
    decreases path@.len() - i, 4int,
{
    match n {
        TomlNode::Table(t) => match add_in_table(t, path, i, last, jv) {
            Ok(t2) => Ok(TomlNode::Table(t2)),
            Err(e) => Err(e),
        },
        TomlNode::Value(v) => match add_in_value(v, path, i, last, jv) {
            Ok(v2) => Ok(TomlNode::Value(v2)),
            Err(e) => Err(e),
        },
        TomlNode::ArrayOfTables(ts) => match add_in_aot(ts, path, i, last, jv) {
            Ok(ts2) => Ok(TomlNode::ArrayOfTables(ts2)),
            Err(e) => Err(e),
        },
        TomlNode::Absent => Err(EditError::TypeMismatch),
    }
}

fn add_in_value(
    v: Value,
    path: &Vec<String>,
    i: usize,
    last: &String,
    jv: &JsonValue,
) -> (r: Result<Value, EditError>)
    requires
        i <= path@.len(),
    ensures
        (match r {
            Ok(v2) => Ok::<ValueView, EditError>(v2@),
            Err(e) => Err(e),
        }) == spec_add_in_value(v@, path.deep_view(), i as int, last@, jv@),
    decreases path@.len() - i, 2int,
{
    match v {
        Value::Array(a) => match add_in_array_path(a, path, i, last, jv) {
            Ok(a2) => Ok(Value::Array(a2)),
            Err(e) => Err(e),
        },
        Value::InlineTable(m) => match add_in_inline_path(m, path, i, last, jv) {
            Ok(m2) => Ok(Value::InlineTable(m2)),
            Err(e) => Err(e),
        },
        other => {
            proof {
                assert(!(other@ is Array) && !(other@ is InlineTable));
            }
            if i >= path.len() {
                match json_to_toml(jv, true) {
                    Ok(_) => Err(EditError::TypeMismatch),
                    Err(e) => Err(e),
                }
            } else {
                Err(EditError::TypeMismatch)
            }
        },
    }
}

fn add_in_array_path(
    a: Vec<Value>,
    path: &Vec<String>,
    i: usize,
    last: &String,
    jv: &JsonValue,
) -> (r: Result<Vec<Value>, EditError>)
    requires
        i <= path@.len(),
    ensures
        (match r {
            Ok(a2) => Ok::<Seq<ValueView>, EditError>(values_view(a2@)),
            Err(e) => Err(e),
        }) == spec_add_in_array(values_view(a@), path.deep_view(), i as int, last@, jv@),
    decreases path@.len() - i, 1int,
{
    let ghost av = values_view(a@);
    if i >= path.len() {
        return match json_to_toml(jv, true) {
            Ok(n) => add_in_array(a, last, n),
            Err(e) => Err(e),
        };
    }
    let key = &path[i];
    proof {
        assert(path.deep_view()[i as int] == path@[i as int]@);
    }
    match parse_index(key) {
        None => Err(EditError::BadIndex),
        Some(idx) => {
            let mut aa = a;
            if idx == aa.len() {
                aa.push(crate::field_finder::last_field_container(last));
                proof {
                    assert(values_view(aa@) =~= av.push(spec_last_field_container(last@)));
                }
            }
            let ghost av1 = values_view(aa@);
            if idx >= aa.len() {
                Err(EditError::BadIndex)
            } else {
                let child = aa.remove(idx);
                proof {
                    assert(av1[idx as int] == value_view(child));
                }
                match add_in_value(child, path, i + 1, last, jv) {
                    Ok(v2) => {
                        aa.insert(idx, v2);
                        proof {
                            assert(values_view(aa@) =~= av1.update(idx as int, v2@));
                        }
                        Ok(aa)
                    },
                    Err(e) => Err(e),
                }
            }
        },
    }
}

fn add_in_inline_path(
    m: Vec<(String, Value)>,
    path: &Vec<String>,
    i: usize,
    last: &String,
    jv: &JsonValue,
) -> (r: Result<Vec<(String, Value)>, EditError>)
    requires
        i <= path@.len(),
    ensures
        (match r {
            Ok(m2) => Ok::<Seq<(Seq<char>, ValueView)>, EditError>(value_entries_view(m2@)),
            Err(e) => Err(e),
        }) == spec_add_in_inline(value_entries_view(m@), path.deep_view(), i as int, last@, jv@),
    decreases path@.len() - i, 1int,
{
    let ghost mv = value_entries_view(m@);
    if i >= path.len() {
        return match json_to_toml(jv, true) {
            Ok(n) => add_in_inline_table(m, last, n),
            Err(e) => Err(e),
        };
    }
    let key = &path[i];
    proof {
        assert(path.deep_view()[i as int] == path@[i as int]@);
        lemma_key_index(mv, key@);
    }
    let found = crate::model::find_value_key(&m, key);
    let mut mm = m;
    let ki2 = match found {
        Some(ki) => ki,
        None => {
            let len = mm.len();
            mm.push((key.clone(), crate::field_finder::last_field_container(last)));
            proof {
                assert(value_entries_view(mm@) =~= mv.push(
                    (key@, spec_last_field_container(last@)),
                ));
            }
            len
        },
    };
    let ghost mv1 = value_entries_view(mm@);
    let (k0, child) = mm.remove(ki2);
    proof {
        assert(mv1[ki2 as int] == (k0@, value_view(child)));
    }
    match add_in_value(child, path, i + 1, last, jv) {
        Ok(v2) => {
            mm.insert(ki2, (k0, v2));
            proof {
                assert(value_entries_view(mm@) =~= mv1.update(
                    ki2 as int,
                    (path.deep_view()[i as int], v2@),
                ));
            }
            Ok(mm)
        },
        Err(e) => Err(e),
    }
}

fn add_in_aot(
    ts: Vec<TomlTable>,
    path: &Vec<String>,
    i: usize,
    last: &String,
    jv: &JsonValue,
) -> (r: Result<Vec<TomlTable>, EditError>)
    requires
        i <= path@.len(),
    ensures
        (match r {
            Ok(ts2) => Ok::<Seq<TableView>, EditError>(tables_view(ts2@)),
            Err(e) => Err(e),
        }) == spec_add_in_aot(tables_view(ts@), path.deep_view(), i as int, last@, jv@),
    decreases path@.len() - i, 1int,
{
    let ghost tv = tables_view(ts@);
    if i >= path.len() {
        return match json_to_toml(jv, false) {
            Ok(n) => add_in_array_of_tables(ts, last, n),
            Err(e) => Err(e),
        };
    }
    let key = &path[i];
    proof {
        assert(path.deep_view()[i as int] == path@[i as int]@);
    }
    match parse_index(key) {
        None => Err(EditError::BadIndex),
        Some(idx) => {
            let mut tts = ts;
            if idx == tts.len() {
                tts.push(TomlTable::new());
                proof {
                    assert(tables_view(tts@) =~= tv.push(
                        TableView { entries: Seq::empty(), dotted: false },
                    ));
                }
            }
            let ghost tv1 = tables_view(tts@);
            if idx >= tts.len() {
                Err(EditError::BadIndex)
            } else {
                let child = tts.remove(idx);
                proof {
                    assert(tv1[idx as int] == table_view(child));
                }
                match add_in_table(child, path, i + 1, last, jv) {
                    Ok(t2) => {
                        tts.insert(idx, t2);
                        proof {
                            assert(tables_view(tts@) =~= tv1.update(idx as int, t2@));
                        }
                        Ok(tts)
                    },
                    Err(e) => Err(e),
                }
            }
        },
    }
}

/// Performs one add operation against the document; mirrors
/// `spec_handle_add`. A failure leaves the document exactly as it was.
pub fn handle_add(doc: &mut TomlDocument, op: AddOp) -> (r: Result<(), EditError>)
    ensures
        (match spec_handle_add(old(doc)@, op@) {
            Ok(t2) => r is Ok && final(doc)@ == t2,
            Err(e) => r == Err::<(), EditError>(e) && final(doc)@ == old(doc)@,
        }),
{
    let ghost opv = op@;
    let AddOp { path, table_header_path, dotted_path, value } = op;
    let path0 = match dotted_path {
        Some(p) => Some(p),
        None => path,
    };
    match table_header_path {
        Some(thp) => {
            let jv = match value {
                Some(v) => v,
                None => {
                    return Err(EditError::MalformedOp);
                },
            };
            let val = match json_to_toml(&jv, true) {
                Ok(n) => n,
                Err(e) => {
                    return Err(e);
                },
            };
            let mut hdr = split_on_slash(thp.as_str());
            proof {
                crate::paths::lemma_split_len(thp@);
                assert(hdr.deep_view().len() == hdr@.len());
            }
            let hlen = hdr.len();
            let ghost hdr0 = spec_split(thp@);
            let aot = is_aot_sentinel(&hdr[hlen - 1]);
            proof {
                assert(hdr.deep_view()[hlen - 1] == hdr@[hlen - 1]@);
                assert(hdr0.last() == hdr@[hlen - 1]@);
            }
            if aot {
                let _ = hdr.pop();
                proof {
                    assert(hdr.deep_view() =~= hdr0.drop_last());
                }
            }
            let mut append = false;
            let dp_vec: Option<Vec<String>> = match path0 {
                Some(p) => {
                    let mut dv = split_on_slash(p.as_str());
                    proof {
                        crate::paths::lemma_split_len(p@);
                        assert(dv.deep_view().len() == dv@.len());
                    }
                    let dlen = dv.len();
                    let ghost dv0 = spec_split(p@);
                    proof {
                        assert(dv.deep_view()[dlen - 1] == dv@[dlen - 1]@);
                        assert(dv0.last() == dv@[dlen - 1]@);
                    }
                    if is_append_sentinel(&dv[dlen - 1]) {
                        let _ = dv.pop();
                        append = true;
                        proof {
                            assert(dv.deep_view() =~= dv0.drop_last());
                        }
                    }
                    Some(dv)
                },
                None => None,
            };
            add_value_with_table_header_and_dotted_path(
                &mut doc.root,
                &hdr,
                dp_vec,
                val,
                aot,
                append,
            )
        },
        None => {
            let p = match path0 {
                Some(p) => p,
                None => {
                    return Err(EditError::MalformedOp);
                },
            };
            let jv = match value {
                Some(v) => v,
                None => {
                    return Err(EditError::MalformedOp);
                },
            };
            let mut segs = split_on_slash(p.as_str());
            proof {
                crate::paths::lemma_split_len(p@);
                assert(segs.deep_view().len() == segs@.len());
            }
            let last = match segs.pop() {
                Some(s) => s,
                None => {
                    return Err(EditError::MalformedOp);
                },
            };
            proof {
                assert(segs.deep_view() =~= spec_split(p@).drop_last());
                assert(last@ == spec_split(p@).last());
            }
            let cur = doc.root.clone();
            match add_in_table(cur, &segs, 0, &last, &jv) {
                Ok(t2) => {
                    doc.root = t2;
                    Ok(())
                },
                Err(e) => Err(e),
            }
        },
    }
}

} // verus!
