//! The path resolver: descending a parent path through whichever node
//! shapes stand on the way, optionally materializing missing structure.
//!
//! When creation is asked for, a missing key in a block table grows a child
//! whose shape is chosen by lookahead — an array of tables if the next
//! segment (or, at the last hop, the final segment) reads as an index, else
//! a table — and a missing array element or inline-table key grows a child
//! chosen by whether the final segment reads as an index. The resolved
//! location comes back as an owned copy tagged with its shape.

use vstd::prelude::*;

use crate::model::{
    clone_tables, clone_value_entries, clone_values, find_value_key, key_index, lemma_key_index,
    table_view, tables_view, value_entries_view, value_view, values_view, EditError, NodeView, TableView, TomlDocument, TomlNode, TomlTable, Value,
    ValueView,
};
use crate::paths::{parse_index, spec_parse_index};

verus! {

broadcast use vstd::std_specs::vec::group_vec_axioms, vstd::seq::group_seq_axioms;

/// Whether resolution materializes missing structure on the way.
#[derive(PartialEq, Eq, Structural)]
pub enum DoInsert {
    Yes,
    No,
}

/// A resolved location: an owned copy of the container or scalar that the
/// parent path names, tagged with its shape.
#[derive(Debug)]
pub enum TomlValue {
    Table(TomlTable),
    Array(Vec<Value>),
    Value(Value),
    InlineTable(Vec<(String, Value)>),
    ArrayOfTables(Vec<TomlTable>),
}

/// Mathematical view of a resolved location.
#[verifier::ext_equal]
pub enum TomlValueView {
    Table(TableView),
    Array(Seq<ValueView>),
    Value(ValueView),
    InlineTable(Seq<(Seq<char>, ValueView)>),
    ArrayOfTables(Seq<TableView>),
}

pub open spec fn toml_value_view(v: TomlValue) -> TomlValueView {
    match v {
        TomlValue::Table(t) => TomlValueView::Table(table_view(t)),
        TomlValue::Array(a) => TomlValueView::Array(values_view(a@)),
        TomlValue::Value(x) => TomlValueView::Value(value_view(x)),
        TomlValue::InlineTable(m) => TomlValueView::InlineTable(value_entries_view(m@)),
        TomlValue::ArrayOfTables(ts) => TomlValueView::ArrayOfTables(tables_view(ts@)),
    }
}

impl View for TomlValue {
    type V = TomlValueView;

    open spec fn view(&self) -> TomlValueView {
        toml_value_view(*self)
    }
}

/// The shape grown for a missing array element or inline-table key: an
/// array when the final segment reads as an index, else an inline table.
pub open spec fn spec_last_field_container(last: Seq<char>) -> ValueView {
    if spec_parse_index(last) is Some {
        ValueView::Array(Seq::empty())
    } else {
        ValueView::InlineTable(Seq::empty())
    }
}

/// The shape grown for a missing key in a block table: an array of tables
/// when the lookahead segment reads as an index, else an empty table.
pub open spec fn spec_backup_node(path: Seq<Seq<char>>, i: int, last: Seq<char>) -> NodeView {
    let look = if i + 1 < path.len() {
        path[i + 1]
    } else {
        last
    };
    if spec_parse_index(look) is Some {
        NodeView::ArrayOfTables(Seq::empty())
    } else {
        NodeView::Table(TableView { entries: Seq::empty(), dotted: false })
    }
}

/// Resolution below a block table.
pub open spec fn spec_find_in_table(
    t: TableView,
    path: Seq<Seq<char>>,
    i: int,
    last: Seq<char>,
    ins: bool,
) -> Result<(TableView, TomlValueView), EditError>
    decreases path.len() - i, 3int,
{
    if i < 0 || i >= path.len() {
        Ok((t, TomlValueView::Table(t)))
    } else {
        let ki = key_index(t.entries, path[i]);
        if ins {
            let backup = spec_backup_node(path, i, last);
            let child = if ki < 0 {
                backup
            } else if t.entries[ki].1 is Absent {
                backup
            } else {
                t.entries[ki].1
            };
            let entries1 = if ki < 0 {
                t.entries.push((path[i], child))
            } else {
                t.entries.update(ki, (path[i], child))
            };
            let ki2 = if ki < 0 {
                t.entries.len() as int
            } else {
                ki
            };
            match spec_find_in_node(child, path, i + 1, last, ins) {
                Ok((n2, res)) => Ok(
                    (
                        TableView {
                            entries: entries1.update(ki2, (path[i], n2)),
                            dotted: t.dotted,
                        },
                        res,
                    ),
                ),
                Err(e) => Err(e),
            }
        } else {
            if ki < 0 {
                Err(EditError::NotFound)
            } else {
                match spec_find_in_node(t.entries[ki].1, path, i + 1, last, ins) {
                    Ok((n2, res)) => Ok(
                        (
                            TableView {
                                entries: t.entries.update(ki, (path[i], n2)),
                                dotted: t.dotted,
                            },
                            res,
                        ),
                    ),
                    Err(e) => Err(e),
                }
            }
        }
    }
}

/// Resolution below a node: dispatch on its shape; an absent node cannot be
/// resolved into.
pub open spec fn spec_find_in_node(
    n: NodeView,
    path: Seq<Seq<char>>,
    i: int,
    last: Seq<char>,
    ins: bool,
) -> Result<(NodeView, TomlValueView), EditError>
    decreases path.len() - i, 4int,
{
    match n {
        NodeView::Table(t) => match spec_find_in_table(t, path, i, last, ins) {
            Ok((t2, res)) => Ok((NodeView::Table(t2), res)),
            Err(e) => Err(e),
        },
        NodeView::Value(v) => match spec_find_in_value(v, path, i, last, ins) {
            Ok((v2, res)) => Ok((NodeView::Value(v2), res)),
            Err(e) => Err(e),
        },
        NodeView::ArrayOfTables(ts) => match spec_find_in_aot(ts, path, i, last, ins) {
            Ok((ts2, res)) => Ok((NodeView::ArrayOfTables(ts2), res)),
            Err(e) => Err(e),
        },
        NodeView::Absent => Err(EditError::TypeMismatch),
    }
}

/// Resolution below a scalar or inline payload: an exhausted path resolves
/// to the scalar itself; anything further can descend only into an array or
/// an inline table.
pub open spec fn spec_find_in_value(
    v: ValueView,
    path: Seq<Seq<char>>,
    i: int,
    last: Seq<char>,
    ins: bool,
) -> Result<(ValueView, TomlValueView), EditError>
    decreases path.len() - i, 2int,
{
    match v {
        ValueView::Array(a) => match spec_find_in_array(a, path, i, last, ins) {
            Ok((a2, res)) => Ok((ValueView::Array(a2), res)),
            Err(e) => Err(e),
        },
        ValueView::InlineTable(m) => match spec_find_in_inline(m, path, i, last, ins) {
            Ok((m2, res)) => Ok((ValueView::InlineTable(m2), res)),
            Err(e) => Err(e),
        },
        _ => {
            if i >= path.len() {
                Ok((v, TomlValueView::Value(v)))
            } else {
                Err(EditError::TypeMismatch)
            }
        },
    }
}

/// Resolution below an array of scalars: the segment must read as an index;
/// an index equal to the length appends under creation and is not found
/// otherwise; one beyond that is out of range.
pub open spec fn spec_find_in_array(
    a: Seq<ValueView>,
    path: Seq<Seq<char>>,
    i: int,
    last: Seq<char>,
    ins: bool,
) -> Result<(Seq<ValueView>, TomlValueView), EditError>
    decreases path.len() - i, 1int,
{
    if i < 0 || i >= path.len() {
        Ok((a, TomlValueView::Array(a)))
    } else {
        match spec_parse_index(path[i]) {
            Some(idx) => {
                if idx == a.len() && !ins {
                    Err(EditError::NotFound)
                } else {
                    let a1 = if idx == a.len() && ins {
                        a.push(spec_last_field_container(last))
                    } else {
                        a
                    };
                    if idx >= a1.len() {
                        Err(EditError::BadIndex)
                    } else {
                        match spec_find_in_value(a1[idx], path, i + 1, last, ins) {
                            Ok((v2, res)) => Ok((a1.update(idx, v2), res)),
                            Err(e) => Err(e),
                        }
                    }
                }
            },
            Option::None => Err(EditError::BadIndex),
        }
    }
}

/// Resolution below an inline table.
pub open spec fn spec_find_in_inline(
    m: Seq<(Seq<char>, ValueView)>,
    path: Seq<Seq<char>>,
    i: int,
    last: Seq<char>,
    ins: bool,
) -> Result<(Seq<(Seq<char>, ValueView)>, TomlValueView), EditError>
    decreases path.len() - i, 1int,
{
    if i < 0 || i >= path.len() {
        Ok((m, TomlValueView::InlineTable(m)))
    } else {
        let ki = key_index(m, path[i]);
        if ki < 0 && !ins {
            Err(EditError::NotFound)
        } else {
            let m1 = if ki < 0 {
                m.push((path[i], spec_last_field_container(last)))
            } else {
                m
            };
            let ki2 = if ki < 0 {
                m.len() as int
            } else {
                ki
            };
            match spec_find_in_value(m1[ki2].1, path, i + 1, last, ins) {
                Ok((v2, res)) => Ok((m1.update(ki2, (path[i], v2)), res)),
                Err(e) => Err(e),
            }
        }
    }
}

/// Resolution below an array of tables.
pub open spec fn spec_find_in_aot(
    ts: Seq<TableView>,
    path: Seq<Seq<char>>,
    i: int,
    last: Seq<char>,
    ins: bool,
) -> Result<(Seq<TableView>, TomlValueView), EditError>
    decreases path.len() - i, 1int,
{
    if i < 0 || i >= path.len() {
        Ok((ts, TomlValueView::ArrayOfTables(ts)))
    } else {
        match spec_parse_index(path[i]) {
            Some(idx) => {
                if idx == ts.len() && !ins {
                    Err(EditError::NotFound)
                } else {
                    let ts1 = if idx == ts.len() && ins {
                        ts.push(TableView { entries: Seq::empty(), dotted: false })
                    } else {
                        ts
                    };
                    if idx >= ts1.len() {
                        Err(EditError::BadIndex)
                    } else {
                        match spec_find_in_table(ts1[idx], path, i + 1, last, ins) {
                            Ok((t2, res)) => Ok((ts1.update(idx, t2), res)),
                            Err(e) => Err(e),
                        }
                    }
                }
            },
            Option::None => Err(EditError::BadIndex),
        }
    }
}

/// The whole resolution from the document root.
pub open spec fn spec_get_field(
    root: TableView,
    path: Seq<Seq<char>>,
    last: Seq<char>,
    ins: bool,
) -> Result<(TableView, TomlValueView), EditError> {
    spec_find_in_table(root, path, 0, last, ins)
}

/// The container grown for a missing array element or inline-table key.
pub(crate) fn last_field_container(last: &String) -> (r: Value)
    ensures
        r@ == spec_last_field_container(last@),
{
    if parse_index(last).is_some() {
        let r = Value::Array(Vec::new());
        proof {
            assert(r@->Array_0 =~= Seq::<ValueView>::empty());
        }
        r
    } else {
        let r = Value::InlineTable(Vec::new());
        proof {
            assert(r@->InlineTable_0 =~= Seq::<(Seq<char>, ValueView)>::empty());
        }
        r
    }
}

/// The node grown for a missing key in a block table.
pub(crate) fn backup_node(path: &Vec<String>, i: usize, last: &String) -> (r: TomlNode)
    requires
        i < path@.len(),
    ensures
        r@ == spec_backup_node(path.deep_view(), i as int, last@),
{
    let n = path.len();
    let look: &String = if i < n - 1 {
        proof {
            assert(path.deep_view()[i as int + 1] == path@[i as int + 1]@);
        }
        &path[i + 1]
    } else {
        last
    };
    if parse_index(look).is_some() {
        let r = TomlNode::ArrayOfTables(Vec::new());
        proof {
            assert(r@->ArrayOfTables_0 =~= Seq::<TableView>::empty());
        }
        r
    } else {
        let r = TomlNode::Table(TomlTable::new());
        r
    }
}

fn find_in_table(
    t: TomlTable,
    path: &Vec<String>,
    i: usize,
    last: &String,
    ins: bool,
) -> (r: Result<(TomlTable, TomlValue), EditError>)
    requires
        i <= path@.len(),
    ensures
        (match r {
            Ok((t2, res)) => Ok::<(TableView, TomlValueView), EditError>((t2@, res@)),
            Err(e) => Err(e),
        }) == spec_find_in_table(t@, path.deep_view(), i as int, last@, ins),
    decreases path@.len() - i, 3int,
{
    let ghost pv = path.deep_view();
    if i >= path.len() {
        let snap = t.clone();
        return Ok((t, TomlValue::Table(snap)));
    }
    let key = &path[i];
    proof {
        assert(pv[i as int] == path@[i as int]@);
        lemma_key_index(t@.entries, key@);
    }
    let found = t.find_key(key);
    if ins {
        let mut tt = t;
        let ghost oldt = tt@;
        let (k0, child) = match found {
            Some(ki) => {
                let (k0, existing) = tt.entries.remove(ki);
                match existing {
                    TomlNode::Absent => (k0, backup_node(path, i, last)),
                    other => (k0, other),
                }
            },
            None => (key.clone(), backup_node(path, i, last)),
        };
        let ki2 = match found {
            Some(ki) => ki,
            None => tt.entries.len(),
        };
        proof {
            let spec_child = if key_index(oldt.entries, pv[i as int]) < 0 {
                spec_backup_node(pv, i as int, last@)
            } else if oldt.entries[key_index(oldt.entries, pv[i as int])].1 is Absent {
                spec_backup_node(pv, i as int, last@)
            } else {
                oldt.entries[key_index(oldt.entries, pv[i as int])].1
            };
            assert(child@ == spec_child);
        }
        match find_in_node(child, path, i + 1, last, ins) {
            Ok((n2, res)) => {
                tt.entries.insert(ki2, (k0, n2));
                proof {
                    let ki = key_index(oldt.entries, pv[i as int]);
                    let backup = spec_backup_node(pv, i as int, last@);
                    let child_v = if ki < 0 {
                        backup
                    } else if oldt.entries[ki].1 is Absent {
                        backup
                    } else {
                        oldt.entries[ki].1
                    };
                    let entries1 = if ki < 0 {
                        oldt.entries.push((pv[i as int], child_v))
                    } else {
                        oldt.entries.update(ki, (pv[i as int], child_v))
                    };
                    let ki2s = if ki < 0 {
                        oldt.entries.len() as int
                    } else {
                        ki
                    };
                    assert(tt@.entries =~= entries1.update(ki2s, (pv[i as int], n2@)));
                }
                Ok((tt, res))
            },
            Err(e) => Err(e),
        }
    } else {
        match found {
            None => Err(EditError::NotFound),
            Some(ki) => {
                let mut tt = t;
                let ghost oldt = tt@;
                let (k0, child) = tt.entries.remove(ki);
                match find_in_node(child, path, i + 1, last, ins) {
                    Ok((n2, res)) => {
                        tt.entries.insert(ki, (k0, n2));
                        proof {
                            assert(tt@.entries =~= oldt.entries.update(
                                ki as int,
                                (pv[i as int], n2@),
                            ));
                        }
                        Ok((tt, res))
                    },
                    Err(e) => Err(e),
                }
            },
        }
    }
}

fn find_in_node(
    n: TomlNode,
    path: &Vec<String>,
    i: usize,
    last: &String,
    ins: bool,
) -> (r: Result<(TomlNode, TomlValue), EditError>)
    requires
        i <= path@.len(),
    ensures
        (match r {
            Ok((n2, res)) => Ok::<(NodeView, TomlValueView), EditError>((n2@, res@)),
            Err(e) => Err(e),
        }) == spec_find_in_node(n@, path.deep_view(), i as int, last@, ins),
    decreases path@.len() - i, 4int,
{
    match n {
        TomlNode::Table(t) => match find_in_table(t, path, i, last, ins) {
            Ok((t2, res)) => Ok((TomlNode::Table(t2), res)),
            Err(e) => Err(e),
        },
        TomlNode::Value(v) => match find_in_value(v, path, i, last, ins) {
            Ok((v2, res)) => Ok((TomlNode::Value(v2), res)),
            Err(e) => Err(e),
        },
        TomlNode::ArrayOfTables(ts) => match find_in_aot(ts, path, i, last, ins) {
            Ok((ts2, res)) => Ok((TomlNode::ArrayOfTables(ts2), res)),
            Err(e) => Err(e),
        },
        TomlNode::Absent => Err(EditError::TypeMismatch),
    }
}

fn find_in_value(
    v: Value,
    path: &Vec<String>,
    i: usize,
    last: &String,
    ins: bool,
) -> (r: Result<(Value, TomlValue), EditError>)
    requires
        i <= path@.len(),
    ensures
        (match r {
            Ok((v2, res)) => Ok::<(ValueView, TomlValueView), EditError>((v2@, res@)),
            Err(e) => Err(e),
        }) == spec_find_in_value(v@, path.deep_view(), i as int, last@, ins),
    decreases path@.len() - i, 2int,
{
    match v {
        Value::Array(a) => match find_in_array(a, path, i, last, ins) {
            Ok((a2, res)) => Ok((Value::Array(a2), res)),
            Err(e) => Err(e),
        },
        Value::InlineTable(m) => match find_in_inline(m, path, i, last, ins) {
            Ok((m2, res)) => Ok((Value::InlineTable(m2), res)),
            Err(e) => Err(e),
        },
        other => {
            proof {
                assert(!(other@ is Array) && !(other@ is InlineTable));
            }
            if i >= path.len() {
                let snap = other.clone();
                Ok((other, TomlValue::Value(snap)))
            } else {
                Err(EditError::TypeMismatch)
            }
        },
    }
}

fn find_in_array(
    a: Vec<Value>,
    path: &Vec<String>,
    i: usize,
    last: &String,
    ins: bool,
) -> (r: Result<(Vec<Value>, TomlValue), EditError>)
    requires
        i <= path@.len(),
    ensures
        (match r {
            Ok((a2, res)) => Ok::<(Seq<ValueView>, TomlValueView), EditError>(
                (values_view(a2@), res@),
            ),
            Err(e) => Err(e),
        }) == spec_find_in_array(values_view(a@), path.deep_view(), i as int, last@, ins),
    decreases path@.len() - i, 1int,
{
    let ghost av = values_view(a@);
    if i >= path.len() {
        let snap = clone_values(&a);
        return Ok((a, TomlValue::Array(snap)));
    }
    let key = &path[i];
    proof {
        assert(path.deep_view()[i as int] == path@[i as int]@);
    }
    match parse_index(key) {
        None => Err(EditError::BadIndex),
        Some(idx) => {
            if idx == a.len() && !ins {
                Err(EditError::NotFound)
            } else {
                let mut aa = a;
                if idx == aa.len() {
                    aa.push(last_field_container(last));
                    proof {
                        assert(values_view(aa@) =~= av.push(spec_last_field_container(last@)));
                    }
                }
                let ghost av1 = values_view(aa@);
                if idx >= aa.len() {
                    Err(EditError::BadIndex)
                } else {
                    let child = aa.remove(idx);
                    proof {
                        assert(av1[idx as int] == value_view(child));
                    }
                    match find_in_value(child, path, i + 1, last, ins) {
                        Ok((v2, res)) => {
                            aa.insert(idx, v2);
                            proof {
                                assert(values_view(aa@) =~= av1.update(idx as int, v2@));
                            }
                            Ok((aa, res))
                        },
                        Err(e) => Err(e),
                    }
                }
            }
        },
    }
}

fn find_in_inline(
    m: Vec<(String, Value)>,
    path: &Vec<String>,
    i: usize,
    last: &String,
    ins: bool,
) -> (r: Result<(Vec<(String, Value)>, TomlValue), EditError>)
    requires
        i <= path@.len(),
    ensures
        (match r {
            Ok((m2, res)) => Ok::<(Seq<(Seq<char>, ValueView)>, TomlValueView), EditError>(
                (value_entries_view(m2@), res@),
            ),
            Err(e) => Err(e),
        }) == spec_find_in_inline(value_entries_view(m@), path.deep_view(), i as int, last@, ins),
    decreases path@.len() - i, 1int,
{
    let ghost mv = value_entries_view(m@);
    if i >= path.len() {
        let snap = clone_value_entries(&m);
        return Ok((m, TomlValue::InlineTable(snap)));
    }
    let key = &path[i];
    proof {
        assert(path.deep_view()[i as int] == path@[i as int]@);
        lemma_key_index(mv, key@);
    }
    let found = find_value_key(&m, key);
    if found.is_none() && !ins {
        return Err(EditError::NotFound);
    }
    let mut mm = m;
    let ki2 = match found {
        Some(ki) => ki,
        None => {
            let len = mm.len();
            mm.push((key.clone(), last_field_container(last)));
            proof {
                assert(value_entries_view(mm@) =~= mv.push(
                    (key@, spec_last_field_container(last@)),
                ));
            }
            len
        },
    };
    let ghost mv1 = value_entries_view(mm@);
    let (k0, child) = mm.remove(ki2);
    proof {
        assert(mv1[ki2 as int] == (k0@, value_view(child)));
    }
    match find_in_value(child, path, i + 1, last, ins) {
        Ok((v2, res)) => {
            mm.insert(ki2, (k0, v2));
            proof {
                assert(value_entries_view(mm@) =~= mv1.update(
                    ki2 as int,
                    (path.deep_view()[i as int], v2@),
                ));
            }
            Ok((mm, res))
        },
        Err(e) => Err(e),
    }
}

fn find_in_aot(
    ts: Vec<TomlTable>,
    path: &Vec<String>,
    i: usize,
    last: &String,
    ins: bool,
) -> (r: Result<(Vec<TomlTable>, TomlValue), EditError>)
    requires
        i <= path@.len(),
    ensures
        (match r {
            Ok((ts2, res)) => Ok::<(Seq<TableView>, TomlValueView), EditError>(
                (tables_view(ts2@), res@),
            ),
            Err(e) => Err(e),
        }) == spec_find_in_aot(tables_view(ts@), path.deep_view(), i as int, last@, ins),
    decreases path@.len() - i, 1int,
{
    let ghost tv = tables_view(ts@);
    if i >= path.len() {
        let snap = clone_tables(&ts);
        return Ok((ts, TomlValue::ArrayOfTables(snap)));
    }
    let key = &path[i];
    proof {
        assert(path.deep_view()[i as int] == path@[i as int]@);
    }
    match parse_index(key) {
        None => Err(EditError::BadIndex),
        Some(idx) => {
            if idx == ts.len() && !ins {
                Err(EditError::NotFound)
            } else {
                let mut tts = ts;
                if idx == tts.len() {
                    tts.push(TomlTable::new());
                    proof {
                        assert(tables_view(tts@) =~= tv.push(
                            TableView { entries: Seq::empty(), dotted: false },
                        ));
                    }
                }
                let ghost tv1 = tables_view(tts@);
                if idx >= tts.len() {
                    Err(EditError::BadIndex)
                } else {
                    let child = tts.remove(idx);
                    proof {
                        assert(tv1[idx as int] == table_view(child));
                    }
                    match find_in_table(child, path, i + 1, last, ins) {
                        Ok((t2, res)) => {
                            tts.insert(idx, t2);
                            proof {
                                assert(tables_view(tts@) =~= tv1.update(idx as int, t2@));
                            }
                            Ok((tts, res))
                        },
                        Err(e) => Err(e),
                    }
                }
            }
        },
    }
}

/// Resolves the parent path against the document, materializing missing
/// structure when `do_insert` asks for it, and hands back an owned copy of
/// the resolved location. A failed resolution leaves the document exactly
/// as it was.
pub fn get_field(
    path: &Vec<String>,
    last_field: &String,
    do_insert: DoInsert,
    doc: &mut TomlDocument,
) -> (r: Result<TomlValue, EditError>)
    ensures
        (match spec_get_field(
            old(doc)@,
            path.deep_view(),
            last_field@,
            do_insert is Yes,
        ) {
            Ok((t2, res)) => {
                &&& r matches Ok(tv) && tv@ == res
                &&& final(doc)@ == t2
            },
            Err(e) => r == Err::<TomlValue, EditError>(e) && final(doc)@ == old(doc)@,
        }),
{
    let ins = match do_insert {
        DoInsert::Yes => true,
        DoInsert::No => false,
    };
    let cur = doc.root.clone();
    match find_in_table(cur, path, 0, last_field, ins) {
        Ok((t2, res)) => {
            doc.root = t2;
            Ok(res)
        },
        Err(e) => Err(e),
    }
}

} // verus!
