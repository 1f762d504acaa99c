//! The remove engine: deleting the node a path names, idempotently.
//!
//! The parent path is resolved without creating anything; a resolution that
//! fails with `NotFound` makes the whole removal a no-op that reports
//! success, since what the path names is already gone. At the resolved
//! parent a key is removed from a table, an in-range index from an array;
//! an out-of-range index or a non-numeric one where an index is needed is
//! `BadIndex`, and a scalar parent cannot have anything removed from it.

use vstd::prelude::*;

use crate::model::{
    entries_remove, key_index, lemma_key_index, table_view, tables_view, value_entries_view,
    value_view, values_view, EditError, NodeView, TableView,
    TomlDocument, TomlNode, TomlTable, Value, ValueView,
};
use crate::paths::{parse_index, spec_parse_index, spec_split, split_on_slash};

verus! {

broadcast use vstd::std_specs::vec::group_vec_axioms, vstd::seq::group_seq_axioms;

/// Removal below a block table: descend the remaining parent path, then
/// take the last segment out of the resolved container.
pub open spec fn spec_remove_from_table(
    t: TableView,
    path: Seq<Seq<char>>,
    i: int,
    last: Seq<char>,
) -> Result<TableView, EditError>
    decreases path.len() - i, 3int,
{
    if i < 0 || i >= path.len() {
        Ok(TableView { entries: entries_remove(t.entries, last), dotted: t.dotted })
    } else {
        let ki = key_index(t.entries, path[i]);
        if ki < 0 {
            Err(EditError::NotFound)
        } else {
            match spec_remove_from_node(t.entries[ki].1, path, i + 1, last) {
                Ok(n2) => Ok(
                    TableView { entries: t.entries.update(ki, (path[i], n2)), dotted: t.dotted },
                ),
                Err(e) => Err(e),
            }
        }
    }
}

/// Removal below a node: dispatch on its shape; an absent node supports no
/// removal below it.
pub open spec fn spec_remove_from_node(
    n: NodeView,
    path: Seq<Seq<char>>,
    i: int,
    last: Seq<char>,
) -> Result<NodeView, EditError>
    decreases path.len() - i, 4int,
{
    match n {
        NodeView::Table(t) => match spec_remove_from_table(t, path, i, last) {
            Ok(t2) => Ok(NodeView::Table(t2)),
            Err(e) => Err(e),
        },
        NodeView::Value(v) => match spec_remove_from_value(v, path, i, last) {
            Ok(v2) => Ok(NodeView::Value(v2)),
            Err(e) => Err(e),
        },
        NodeView::ArrayOfTables(ts) => match spec_remove_from_aot(ts, path, i, last) {
            Ok(ts2) => Ok(NodeView::ArrayOfTables(ts2)),
            Err(e) => Err(e),
        },
        NodeView::Absent => Err(EditError::TypeMismatch),
    }
}

/// Removal below a scalar or inline payload: only arrays and inline tables
/// can be descended into or removed from.
pub open spec fn spec_remove_from_value(
    v: ValueView,
    path: Seq<Seq<char>>,
    i: int,
    last: Seq<char>,
) -> Result<ValueView, EditError>
    decreases path.len() - i, 2int,
{
    match v {
        ValueView::Array(a) => match spec_remove_from_array(a, path, i, last) {
            Ok(a2) => Ok(ValueView::Array(a2)),
            Err(e) => Err(e),
        },
        ValueView::InlineTable(m) => match spec_remove_from_inline(m, path, i, last) {
            Ok(m2) => Ok(ValueView::InlineTable(m2)),
            Err(e) => Err(e),
        },
        _ => Err(EditError::TypeMismatch),
    }
}

/// Removal below an array of scalars: the segment must read as an index; an
/// index equal to the length is not found, one beyond it is out of range.
pub open spec fn spec_remove_from_array(
    a: Seq<ValueView>,
    path: Seq<Seq<char>>,
    i: int,
    last: Seq<char>,
) -> Result<Seq<ValueView>, EditError>
    decreases path.len() - i, 1int,
{
    if i < 0 || i >= path.len() {
        match spec_parse_index(last) {
            Some(idx) => if idx < a.len() {
                Ok(a.remove(idx))
            } else {
                Err(EditError::BadIndex)
            },
            Option::None => Err(EditError::BadIndex),
        }
    } else {
        match spec_parse_index(path[i]) {
            Some(idx) => if idx == a.len() {
                Err(EditError::NotFound)
            } else if idx > a.len() {
                Err(EditError::BadIndex)
            } else {
                match spec_remove_from_value(a[idx], path, i + 1, last) {
                    Ok(v2) => Ok(a.update(idx, v2)),
                    Err(e) => Err(e),
                }
            },
            Option::None => Err(EditError::BadIndex),
        }
    }
}

/// Removal below an inline table.
pub open spec fn spec_remove_from_inline(
    m: Seq<(Seq<char>, ValueView)>,
    path: Seq<Seq<char>>,
    i: int,
    last: Seq<char>,
) -> Result<Seq<(Seq<char>, ValueView)>, EditError>
    decreases path.len() - i, 1int,
{
    if i < 0 || i >= path.len() {
        Ok(entries_remove(m, last))
    } else {
        let ki = key_index(m, path[i]);
        if ki < 0 {
            Err(EditError::NotFound)
        } else {
            match spec_remove_from_value(m[ki].1, path, i + 1, last) {
                Ok(v2) => Ok(m.update(ki, (path[i], v2))),
                Err(e) => Err(e),
            }
        }
    }
}

/// Removal below an array of tables.
pub open spec fn spec_remove_from_aot(
    ts: Seq<TableView>,
    path: Seq<Seq<char>>,
    i: int,
    last: Seq<char>,
) -> Result<Seq<TableView>, EditError>
    decreases path.len() - i, 1int,
{
    if i < 0 || i >= path.len() {
        match spec_parse_index(last) {
            Some(idx) => if idx < ts.len() {
                Ok(ts.remove(idx))
            } else {
                Err(EditError::BadIndex)
            },
            Option::None => Err(EditError::BadIndex),
        }
    } else {
        match spec_parse_index(path[i]) {
            Some(idx) => if idx == ts.len() {
                Err(EditError::NotFound)
            } else if idx > ts.len() {
                Err(EditError::BadIndex)
            } else {
                match spec_remove_from_table(ts[idx], path, i + 1, last) {
                    Ok(t2) => Ok(ts.update(idx, t2)),
                    Err(e) => Err(e),
                }
            },
            Option::None => Err(EditError::BadIndex),
        }
    }
}

/// The whole removal: split the path, take the last segment as what to
/// remove, resolve the rest, and treat a parent that is not found as
/// already-done.
pub open spec fn spec_handle_remove(root: TableView, field: Seq<char>) -> Result<
    TableView,
    EditError,
> {
    let segs = spec_split(field);
    let parent = segs.drop_last();
    let last = segs.last();
    match spec_remove_from_table(root, parent, 0, last) {
        Ok(t) => Ok(t),
        Err(EditError::NotFound) => Ok(root),
        Err(e) => Err(e),
    }
}

fn remove_from_table(t: TomlTable, path: &Vec<String>, i: usize, last: &String) -> (r: Result<
    TomlTable,
    EditError,
>)
    requires
        i <= path@.len(),
    ensures
        (match r {
            Ok(t2) => Ok::<TableView, EditError>(t2@),
            Err(e) => Err(e),
        }) == spec_remove_from_table(t@, path.deep_view(), i as int, last@),
    decreases path@.len() - i, 3int,
{
    let ghost pv = path.deep_view();
    if i >= path.len() {
        let mut tt = t;
        tt.remove_key(last);
        return Ok(tt);
    }
    let key = &path[i];
    proof {
        assert(pv[i as int] == path@[i as int]@);
    }
    match t.find_key(key) {
        None => Err(EditError::NotFound),
        Some(ki) => {
            proof {
                lemma_key_index(t@.entries, key@);
            }
            let mut tt = t;
            let ghost oldt = tt@;
            let (k, node) = tt.entries.remove(ki);
            match remove_from_node(node, path, i + 1, last) {
                Ok(n2) => {
                    tt.entries.insert(ki, (k, n2));
                    proof {
                        assert(tt@.entries =~= oldt.entries.update(ki as int, (pv[i as int], n2@)));
                    }
                    Ok(tt)
                },
                Err(e) => Err(e),
            }
        },
    }
}

fn remove_from_node(n: TomlNode, path: &Vec<String>, i: usize, last: &String) -> (r: Result<
    TomlNode,
    EditError,
>)
    requires
        i <= path@.len(),
    ensures
        (match r {
            Ok(n2) => Ok::<NodeView, EditError>(n2@),
            Err(e) => Err(e),
        }) == spec_remove_from_node(n@, path.deep_view(), i as int, last@),
    decreases path@.len() - i, 4int,
{
    match n {
        TomlNode::Table(t) => match remove_from_table(t, path, i, last) {
            Ok(t2) => Ok(TomlNode::Table(t2)),
            Err(e) => Err(e),
        },
        TomlNode::Value(v) => match remove_from_value(v, path, i, last) {
            Ok(v2) => Ok(TomlNode::Value(v2)),
            Err(e) => Err(e),
        },
        TomlNode::ArrayOfTables(ts) => match remove_from_aot(ts, path, i, last) {
            Ok(ts2) => Ok(TomlNode::ArrayOfTables(ts2)),
            Err(e) => Err(e),
        },
        TomlNode::Absent => Err(EditError::TypeMismatch),
    }
}

fn remove_from_value(v: Value, path: &Vec<String>, i: usize, last: &String) -> (r: Result<
    Value,
    EditError,
>)
    requires
        i <= path@.len(),
    ensures
        (match r {
            Ok(v2) => Ok::<ValueView, EditError>(v2@),
            Err(e) => Err(e),
        }) == spec_remove_from_value(v@, path.deep_view(), i as int, last@),
    decreases path@.len() - i, 2int,
{
    match v {
        Value::Array(a) => match remove_from_array(a, path, i, last) {
            Ok(a2) => Ok(Value::Array(a2)),
            Err(e) => Err(e),
        },
        Value::InlineTable(m) => match remove_from_inline(m, path, i, last) {
            Ok(m2) => Ok(Value::InlineTable(m2)),
            Err(e) => Err(e),
        },
        other => {
            proof {
                assert(!(other@ is Array) && !(other@ is InlineTable));
            }
            Err(EditError::TypeMismatch)
        },
    }
}

fn remove_from_array(a: Vec<Value>, path: &Vec<String>, i: usize, last: &String) -> (r: Result<
    Vec<Value>,
    EditError,
>)
    requires
        i <= path@.len(),
    ensures
        (match r {
            Ok(a2) => Ok::<Seq<ValueView>, EditError>(values_view(a2@)),
            Err(e) => Err(e),
        }) == spec_remove_from_array(values_view(a@), path.deep_view(), i as int, last@),
    decreases path@.len() - i, 1int,
{
    let ghost av = values_view(a@);
    if i >= path.len() {
        match parse_index(last) {
            None => Err(EditError::BadIndex),
            Some(idx) => {
                if idx < a.len() {
                    let mut aa = a;
                    let _ = aa.remove(idx);
                    proof {
                        assert(values_view(aa@) =~= av.remove(idx as int));
                    }
                    Ok(aa)
                } else {
                    Err(EditError::BadIndex)
                }
            },
        }
    } else {
        let key = &path[i];
        proof {
            assert(path.deep_view()[i as int] == path@[i as int]@);
        }
        match parse_index(key) {
            None => Err(EditError::BadIndex),
            Some(idx) => {
                if idx == a.len() {
                    Err(EditError::NotFound)
                } else if idx > a.len() {
                    Err(EditError::BadIndex)
                } else {
                    let mut aa = a;
                    let v = aa.remove(idx);
                    proof {
                        assert(av[idx as int] == value_view(v));
                    }
                    match remove_from_value(v, path, i + 1, last) {
                        Ok(v2) => {
                            aa.insert(idx, v2);
                            proof {
                                assert(values_view(aa@) =~= av.update(idx as int, v2@));
                            }
                            Ok(aa)
                        },
                        Err(e) => Err(e),
                    }
                }
            },
        }
    }
}

fn remove_from_inline(
    m: Vec<(String, Value)>,
    path: &Vec<String>,
    i: usize,
    last: &String,
) -> (r: Result<Vec<(String, Value)>, EditError>)
    requires
        i <= path@.len(),
    ensures
        (match r {
            Ok(m2) => Ok::<Seq<(Seq<char>, ValueView)>, EditError>(value_entries_view(m2@)),
            Err(e) => Err(e),
        }) == spec_remove_from_inline(value_entries_view(m@), path.deep_view(), i as int, last@),
    decreases path@.len() - i, 1int,
{
    let ghost mv = value_entries_view(m@);
    if i >= path.len() {
        let mut mm = m;
        crate::model::remove_value_key(&mut mm, last);
        return Ok(mm);
    }
    let key = &path[i];
    proof {
        assert(path.deep_view()[i as int] == path@[i as int]@);
    }
    match crate::model::find_value_key(&m, key) {
        None => Err(EditError::NotFound),
        Some(ki) => {
            proof {
                lemma_key_index(mv, key@);
            }
            let mut mm = m;
            let (k, v) = mm.remove(ki);
            proof {
                assert(mv[ki as int] == (k@, value_view(v)));
            }
            match remove_from_value(v, path, i + 1, last) {
                Ok(v2) => {
                    mm.insert(ki, (k, v2));
                    proof {
                        assert(value_entries_view(mm@) =~= mv.update(
                            ki as int,
                            (path.deep_view()[i as int], v2@),
                        ));
                    }
                    Ok(mm)
                },
                Err(e) => Err(e),
            }
        },
    }
}

fn remove_from_aot(ts: Vec<TomlTable>, path: &Vec<String>, i: usize, last: &String) -> (r: Result<
    Vec<TomlTable>,
    EditError,
>)
    requires
        i <= path@.len(),
    ensures
        (match r {
            Ok(ts2) => Ok::<Seq<TableView>, EditError>(tables_view(ts2@)),
            Err(e) => Err(e),
        }) == spec_remove_from_aot(tables_view(ts@), path.deep_view(), i as int, last@),
    decreases path@.len() - i, 1int,
{
    let ghost tv = tables_view(ts@);
    if i >= path.len() {
        match parse_index(last) {
            None => Err(EditError::BadIndex),
            Some(idx) => {
                if idx < ts.len() {
                    let mut tts = ts;
                    let _ = tts.remove(idx);
                    proof {
                        assert(tables_view(tts@) =~= tv.remove(idx as int));
                    }
                    Ok(tts)
                } else {
                    Err(EditError::BadIndex)
                }
            },
        }
    } else {
        let key = &path[i];
        proof {
            assert(path.deep_view()[i as int] == path@[i as int]@);
        }
        match parse_index(key) {
            None => Err(EditError::BadIndex),
            Some(idx) => {
                if idx == ts.len() {
                    Err(EditError::NotFound)
                } else if idx > ts.len() {
                    Err(EditError::BadIndex)
                } else {
                    let mut tts = ts;
                    let t = tts.remove(idx);
                    proof {
                        assert(tv[idx as int] == table_view(t));
                    }
                    match remove_from_table(t, path, i + 1, last) {
                        Ok(t2) => {
                            tts.insert(idx, t2);
                            proof {
                                assert(tables_view(tts@) =~= tv.update(idx as int, t2@));
                            }
                            Ok(tts)
                        },
                        Err(e) => Err(e),
                    }
                }
            },
        }
    }
}

/// Removes the node the path names. A path whose parent cannot be resolved
/// counts as already removed and succeeds without changing anything; any
/// failure leaves the document exactly as it was.
pub fn handle_remove(field: &str, doc: &mut TomlDocument) -> (r: Result<(), EditError>)
    ensures
        (match spec_handle_remove(old(doc)@, field@) {
            Ok(t) => r is Ok && final(doc)@ == t,
            Err(e) => r == Err::<(), EditError>(e) && final(doc)@ == old(doc)@,
        }),
{
    let mut path = split_on_slash(field);
    proof {
        crate::paths::lemma_split_len(field@);
        assert(path.deep_view().len() == path@.len());
    }
    let last = match path.pop() {
        Some(s) => s,
        None => {
            // A split always yields at least one segment.
            return Err(EditError::MalformedOp);
        },
    };
    proof {
        assert(path.deep_view() =~= spec_split(field@).drop_last());
        assert(last@ == spec_split(field@).last());
    }
    let cur = doc.root.clone();
    match remove_from_table(cur, &path, 0, &last) {
        Ok(t) => {
            doc.root = t;
            Ok(())
        },
        Err(EditError::NotFound) => Ok(()),
        Err(e) => Err(e),
    }
}

} // verus!
