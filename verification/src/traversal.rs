//! The traversal engine: resolving a whole path without mutating anything,
//! and serializing the node found there back to a JSON value.
//!
//! An array index beyond the end reports absence (a null result); a missing
//! table key, a non-numeric index or a descent into a scalar is an error.
//! Both outcomes degrade to a null result at the batch boundary, and never
//! abort the remaining operations.

use vstd::prelude::*;

use crate::json::{float_bits_non_finite, float_bits_is_finite, JsonValue, JsonView};
use crate::model::{
    key_index, lemma_key_index, node_entries_view, node_view, table_view, tables_view,
    value_entries_view, value_view, values_view, EditError, NodeView, TableView, TomlDocument,
    TomlNode, TomlTable, Value, ValueView,
};
use crate::paths::{parse_index, spec_parse_index, spec_split, split_on_slash};

verus! {

broadcast use vstd::std_specs::vec::group_vec_axioms, vstd::seq::group_seq_axioms;

/// The read-only operations the traversal engine performs.
pub enum TraverseOps {
    Get,
}

/// A location reached while walking the document, borrowing the live tree.
pub enum At<'a> {
    Array(&'a Vec<Value>),
    ArrayOfTables(&'a Vec<TomlTable>),
    Item(&'a TomlNode),
    Table(&'a TomlTable),
    Value(&'a Value),
}

/// Mathematical view of a traversal location.
#[verifier::ext_equal]
pub enum AtView {
    Array(Seq<ValueView>),
    ArrayOfTables(Seq<TableView>),
    Item(NodeView),
    Table(TableView),
    Value(ValueView),
}

pub open spec fn at_view(at: At<'_>) -> AtView {
    match at {
        At::Array(a) => AtView::Array(values_view(a@)),
        At::ArrayOfTables(a) => AtView::ArrayOfTables(tables_view(a@)),
        At::Item(n) => AtView::Item(node_view(*n)),
        At::Table(t) => AtView::Table(table_view(*t)),
        At::Value(v) => AtView::Value(value_view(*v)),
    }
}

pub open spec fn json_result_view(r: Result<JsonValue, EditError>) -> Result<JsonView, EditError> {
    match r {
        Ok(j) => Ok(j@),
        Err(e) => Err(e),
    }
}

pub open spec fn opt_json_result_view(r: Result<Option<JsonValue>, EditError>) -> Result<
    Option<JsonView>,
    EditError,
> {
    match r {
        Ok(Some(j)) => Ok(Some(j@)),
        Ok(Option::None) => Ok(Option::None),
        Err(e) => Err(e),
    }
}

/// The JSON forms of the first `i` array elements, or the first error.
pub open spec fn spec_json_of_values(a: Seq<ValueView>, i: int) -> Result<Seq<JsonView>, EditError>
    decreases a, i,
{
    if i <= 0 {
        Ok(Seq::empty())
    } else {
        match spec_json_of_values(a, i - 1) {
            Ok(pre) => {
                if 0 <= i - 1 < a.len() {
                    match spec_value_to_json(a[i - 1]) {
                        Ok(j) => Ok(pre.push(j)),
                        Err(e) => Err(e),
                    }
                } else {
                    Ok(pre)
                }
            },
            Err(e) => Err(e),
        }
    }
}

/// The JSON forms of the first `i` inline-table members, or the first error.
pub open spec fn spec_json_of_value_entries(m: Seq<(Seq<char>, ValueView)>, i: int) -> Result<
    Seq<(Seq<char>, JsonView)>,
    EditError,
>
    decreases m, i,
{
    if i <= 0 {
        Ok(Seq::empty())
    } else {
        match spec_json_of_value_entries(m, i - 1) {
            Ok(pre) => {
                if 0 <= i - 1 < m.len() {
                    match spec_value_to_json(m[i - 1].1) {
                        Ok(j) => Ok(pre.push((m[i - 1].0, j))),
                        Err(e) => Err(e),
                    }
                } else {
                    Ok(pre)
                }
            },
            Err(e) => Err(e),
        }
    }
}

/// The JSON form of a scalar or inline payload: scalars map back one for
/// one, datetimes render as their text, a non-finite float cannot be
/// represented.
pub open spec fn spec_value_to_json(v: ValueView) -> Result<JsonView, EditError>
    decreases v, 0int,
{
    match v {
        ValueView::Str(s) => Ok(JsonView::Str(s)),
        ValueView::Int(i) => Ok(JsonView::Int(i)),
        ValueView::Float(bits) => if float_bits_non_finite(bits) {
            Err(EditError::ValueConversion)
        } else {
            Ok(JsonView::Float(bits))
        },
        ValueView::Bool(b) => Ok(JsonView::Bool(b)),
        ValueView::Datetime(s) => Ok(JsonView::Str(s)),
        ValueView::Array(a) => match spec_json_of_values(a, a.len() as int) {
            Ok(xs) => Ok(JsonView::Array(xs)),
            Err(e) => Err(e),
        },
        ValueView::InlineTable(m) => match spec_json_of_value_entries(m, m.len() as int) {
            Ok(ms) => Ok(JsonView::Object(ms)),
            Err(e) => Err(e),
        },
    }
}

/// The JSON forms of the first `i` table entries, or the first error. An
/// absent entry reads as null.
pub open spec fn spec_json_of_node_entries(es: Seq<(Seq<char>, NodeView)>, i: int) -> Result<
    Seq<(Seq<char>, JsonView)>,
    EditError,
>
    decreases es, i,
{
    if i <= 0 {
        Ok(Seq::empty())
    } else {
        match spec_json_of_node_entries(es, i - 1) {
            Ok(pre) => {
                if 0 <= i - 1 < es.len() {
                    match spec_node_to_json(es[i - 1].1) {
                        Ok(j) => Ok(pre.push((es[i - 1].0, j))),
                        Err(e) => Err(e),
                    }
                } else {
                    Ok(pre)
                }
            },
            Err(e) => Err(e),
        }
    }
}

/// The JSON form of a block table: an object of its entries in order.
pub open spec fn spec_table_to_json(t: TableView) -> Result<JsonView, EditError>
    decreases t, 0int,
{
    match spec_json_of_node_entries(t.entries, t.entries.len() as int) {
        Ok(ms) => Ok(JsonView::Object(ms)),
        Err(e) => Err(e),
    }
}

/// The JSON forms of the first `i` tables of an array of tables.
pub open spec fn spec_json_of_tables(ts: Seq<TableView>, i: int) -> Result<Seq<JsonView>, EditError>
    decreases ts, i,
{
    if i <= 0 {
        Ok(Seq::empty())
    } else {
        match spec_json_of_tables(ts, i - 1) {
            Ok(pre) => {
                if 0 <= i - 1 < ts.len() {
                    match spec_table_to_json(ts[i - 1]) {
                        Ok(j) => Ok(pre.push(j)),
                        Err(e) => Err(e),
                    }
                } else {
                    Ok(pre)
                }
            },
            Err(e) => Err(e),
        }
    }
}

/// The JSON form of a node: the absent marker reads as null.
pub open spec fn spec_node_to_json(n: NodeView) -> Result<JsonView, EditError>
    decreases n, 1int,
{
    match n {
        NodeView::Absent => Ok(JsonView::Null),
        NodeView::Value(v) => spec_value_to_json(v),
        NodeView::Table(t) => spec_table_to_json(t),
        NodeView::ArrayOfTables(ts) => match spec_json_of_tables(ts, ts.len() as int) {
            Ok(xs) => Ok(JsonView::Array(xs)),
            Err(e) => Err(e),
        },
    }
}

/// The JSON form of a traversal location.
pub open spec fn spec_at_to_json(at: AtView) -> Result<JsonView, EditError> {
    match at {
        AtView::Array(a) => match spec_json_of_values(a, a.len() as int) {
            Ok(xs) => Ok(JsonView::Array(xs)),
            Err(e) => Err(e),
        },
        AtView::ArrayOfTables(ts) => match spec_json_of_tables(ts, ts.len() as int) {
            Ok(xs) => Ok(JsonView::Array(xs)),
            Err(e) => Err(e),
        },
        AtView::Item(n) => spec_node_to_json(n),
        AtView::Table(t) => spec_table_to_json(t),
        AtView::Value(v) => spec_value_to_json(v),
    }
}

/// Ranking of location states for the termination of the walk: a state may
/// hand the same segment to a lower-ranked state.
pub open spec fn at_rank(at: AtView) -> int {
    match at {
        AtView::Item(_) => 2,
        AtView::Table(_) => 1,
        AtView::ArrayOfTables(_) => 1,
        AtView::Value(_) => 1,
        AtView::Array(_) => 0,
    }
}

/// One walk of the remaining path from a location. When the path is
/// exhausted the location serializes; an array index beyond the end reports
/// absence; a missing key, a non-numeric index where one is needed, or a
/// descent into a scalar is an error.
pub open spec fn spec_down(at: AtView, path: Seq<Seq<char>>, i: int) -> Result<
    Option<JsonView>,
    EditError,
>
    decreases path.len() - i, at_rank(at),
{
    if i < 0 || i >= path.len() {
        match spec_at_to_json(at) {
            Ok(j) => Ok(Some(j)),
            Err(e) => Err(e),
        }
    } else {
        let key = path[i];
        match at {
            AtView::Array(arr) => match spec_parse_index(key) {
                Some(idx) => if idx < arr.len() {
                    spec_down(AtView::Value(arr[idx]), path, i + 1)
                } else {
                    Ok(Option::None)
                },
                Option::None => Err(EditError::BadIndex),
            },
            AtView::ArrayOfTables(ts) => match spec_parse_index(key) {
                Some(idx) => if idx < ts.len() {
                    spec_down(AtView::Table(ts[idx]), path, i + 1)
                } else {
                    Err(EditError::NotFound)
                },
                Option::None => Err(EditError::BadIndex),
            },
            AtView::Item(n) => match n {
                NodeView::ArrayOfTables(ts) => spec_down(AtView::ArrayOfTables(ts), path, i),
                NodeView::Table(t) => spec_down(AtView::Table(t), path, i),
                NodeView::Value(v) => spec_down(AtView::Value(v), path, i),
                NodeView::Absent => Err(EditError::TypeMismatch),
            },
            AtView::Table(t) => {
                let ki = key_index(t.entries, key);
                if ki < 0 {
                    Err(EditError::NotFound)
                } else {
                    spec_down(AtView::Item(t.entries[ki].1), path, i + 1)
                }
            },
            AtView::Value(v) => match v {
                ValueView::Array(arr) => spec_down(AtView::Array(arr), path, i),
                ValueView::InlineTable(m) => {
                    let ki = key_index(m, key);
                    if ki < 0 {
                        Err(EditError::NotFound)
                    } else {
                        spec_down(AtView::Value(m[ki].1), path, i + 1)
                    }
                },
                _ => Err(EditError::TypeMismatch),
            },
        }
    }
}

/// The whole get operation on a split path: the first segment must name an
/// entry of the root table, and the walk continues from that item.
pub open spec fn spec_traverse(root: TableView, path: Seq<Seq<char>>) -> Result<
    Option<JsonView>,
    EditError,
> {
    if path.len() == 0 {
        Err(EditError::MalformedOp)
    } else {
        let ki = key_index(root.entries, path[0]);
        if ki < 0 {
            Err(EditError::NotFound)
        } else {
            spec_down(AtView::Item(root.entries[ki].1), path, 1)
        }
    }
}

/// Serializes an array element by element; mirrors `spec_json_of_values`.
fn values_to_json(a: &Vec<Value>) -> (r: Result<Vec<JsonValue>, EditError>)
    ensures
        (match r {
            Ok(xs) => Ok::<Seq<JsonView>, EditError>(
                Seq::new(xs@.len(), |k: int| if 0 <= k < xs@.len() { xs@[k]@ } else { JsonView::Null }),
            ),
            Err(e) => Err(e),
        }) == spec_json_of_values(values_view(a@), a@.len() as int),
    decreases a,
{
    let ghost av = values_view(a@);
    let n = a.len();
    let mut out: Vec<JsonValue> = Vec::new();
    let mut i: usize = 0;
    proof {
        assert(Seq::new(out@.len(), |k: int| if 0 <= k < out@.len() { out@[k]@ } else { JsonView::Null })
            =~= Seq::<JsonView>::empty());
    }
    while i < n
        invariant
            n == a.len(),
            av == values_view(a@),
            i <= n,
            out@.len() == i,
            spec_json_of_values(av, i as int) == Ok::<Seq<JsonView>, EditError>(
                Seq::new(out@.len(), |k: int| if 0 <= k < out@.len() { out@[k]@ } else { JsonView::Null }),
            ),
        decreases n - i,
    {
        proof {
            assert(decreases_to!(*a => a@[i as int]));
            assert(av[i as int] == value_view(a@[i as int]));
        }
        match value_to_json(&a[i]) {
            Ok(j) => {
                let ghost oldxs = Seq::new(
                    out@.len(),
                    |k: int| if 0 <= k < out@.len() { out@[k]@ } else { JsonView::Null },
                );
                out.push(j);
                proof {
                    assert(Seq::new(
                        out@.len(),
                        |k: int| if 0 <= k < out@.len() { out@[k]@ } else { JsonView::Null },
                    ) =~= oldxs.push(j@));
                }
            },
            Err(e) => {
                proof {
                    lemma_json_of_values_err(av, i as int + 1, av.len() as int);
                }
                return Err(e);
            },
        }
        i += 1;
    }
    Ok(out)
}

/// A failed element prefix stays failed.
proof fn lemma_json_of_values_err(a: Seq<ValueView>, i: int, j: int)
    requires
        0 <= i <= j,
        spec_json_of_values(a, i) is Err,
    ensures
        spec_json_of_values(a, j) == spec_json_of_values(a, i),
    decreases j - i,
{
    if j > i {
        lemma_json_of_values_err(a, i, j - 1);
    }
}

proof fn lemma_json_of_value_entries_err(m: Seq<(Seq<char>, ValueView)>, i: int, j: int)
    requires
        0 <= i <= j,
        spec_json_of_value_entries(m, i) is Err,
    ensures
        spec_json_of_value_entries(m, j) == spec_json_of_value_entries(m, i),
    decreases j - i,
{
    if j > i {
        lemma_json_of_value_entries_err(m, i, j - 1);
    }
}

proof fn lemma_json_of_node_entries_err(es: Seq<(Seq<char>, NodeView)>, i: int, j: int)
    requires
        0 <= i <= j,
        spec_json_of_node_entries(es, i) is Err,
    ensures
        spec_json_of_node_entries(es, j) == spec_json_of_node_entries(es, i),
    decreases j - i,
{
    if j > i {
        lemma_json_of_node_entries_err(es, i, j - 1);
    }
}

proof fn lemma_json_of_tables_err(ts: Seq<TableView>, i: int, j: int)
    requires
        0 <= i <= j,
        spec_json_of_tables(ts, i) is Err,
    ensures
        spec_json_of_tables(ts, j) == spec_json_of_tables(ts, i),
    decreases j - i,
{
    if j > i {
        lemma_json_of_tables_err(ts, i, j - 1);
    }
}

/// Serializes inline-table members in order; mirrors
/// `spec_json_of_value_entries`.
fn value_entries_to_json(m: &Vec<(String, Value)>) -> (r: Result<
    Vec<(String, JsonValue)>,
    EditError,
>)
    ensures
        (match r {
            Ok(ms) => Ok::<Seq<(Seq<char>, JsonView)>, EditError>(
                Seq::new(
                    ms@.len(),
                    |k: int|
                        if 0 <= k < ms@.len() {
                            (ms@[k].0@, ms@[k].1@)
                        } else {
                            (Seq::empty(), JsonView::Null)
                        },
                ),
            ),
            Err(e) => Err(e),
        }) == spec_json_of_value_entries(value_entries_view(m@), m@.len() as int),
    decreases m,
{
    let ghost mv = value_entries_view(m@);
    let n = m.len();
    let mut out: Vec<(String, JsonValue)> = Vec::new();
    let mut i: usize = 0;
    proof {
        assert(Seq::new(
            out@.len(),
            |k: int|
                if 0 <= k < out@.len() {
                    (out@[k].0@, out@[k].1@)
                } else {
                    (Seq::empty(), JsonView::Null)
                },
        ) =~= Seq::<(Seq<char>, JsonView)>::empty());
    }
    while i < n
        invariant
            n == m.len(),
            mv == value_entries_view(m@),
            i <= n,
            out@.len() == i,
            spec_json_of_value_entries(mv, i as int) == Ok::<Seq<(Seq<char>, JsonView)>, EditError>(
                Seq::new(
                    out@.len(),
                    |k: int|
                        if 0 <= k < out@.len() {
                            (out@[k].0@, out@[k].1@)
                        } else {
                            (Seq::empty(), JsonView::Null)
                        },
                ),
            ),
        decreases n - i,
    {
        proof {
            assert(decreases_to!(*m => m@[i as int]));
            assert(decreases_to!(m@[i as int] => m@[i as int].1));
            assert(mv[i as int] == (m@[i as int].0@, value_view(m@[i as int].1)));
        }
        match value_to_json(&m[i].1) {
            Ok(j) => {
                let ghost oldms = Seq::new(
                    out@.len(),
                    |k: int|
                        if 0 <= k < out@.len() {
                            (out@[k].0@, out@[k].1@)
                        } else {
                            (Seq::empty(), JsonView::Null)
                        },
                );
                out.push((m[i].0.clone(), j));
                proof {
                    assert(Seq::new(
                        out@.len(),
                        |k: int|
                            if 0 <= k < out@.len() {
                                (out@[k].0@, out@[k].1@)
                            } else {
                                (Seq::empty(), JsonView::Null)
                            },
                    ) =~= oldms.push((m@[i as int].0@, j@)));
                }
            },
            Err(e) => {
                proof {
                    lemma_json_of_value_entries_err(mv, i as int + 1, mv.len() as int);
                }
                return Err(e);
            },
        }
        i += 1;
    }
    Ok(out)
}

/// Serializes one scalar or inline payload; mirrors `spec_value_to_json`.
pub fn value_to_json(v: &Value) -> (r: Result<JsonValue, EditError>)
    ensures
        json_result_view(r) == spec_value_to_json(value_view(*v)),
    decreases v,
{
    match v {
        Value::Str(s) => Ok(JsonValue::Str(s.clone())),
        Value::Int(i) => Ok(JsonValue::Int(*i)),
        Value::Float(bits) => {
            if float_bits_is_finite(*bits) {
                Ok(JsonValue::Float(*bits))
            } else {
                Err(EditError::ValueConversion)
            }
        },
        Value::Bool(b) => Ok(JsonValue::Bool(*b)),
        Value::Datetime(s) => Ok(JsonValue::Str(s.clone())),
        Value::Array(a) => {
            proof {
                assert(decreases_to!(*v => (*v)->Array_0));
            }
            match values_to_json(a) {
                Ok(xs) => {
                    let r = JsonValue::Array(xs);
                    proof {
                        assert(r@->Array_0 =~= spec_json_of_values(
                            values_view(a@),
                            a@.len() as int,
                        )->Ok_0);
                    }
                    Ok(r)
                },
                Err(e) => Err(e),
            }
        },
        Value::InlineTable(m) => {
            proof {
                assert(decreases_to!(*v => (*v)->InlineTable_0));
            }
            match value_entries_to_json(m) {
                Ok(ms) => {
                    let r = JsonValue::Object(ms);
                    proof {
                        assert(r@->Object_0 =~= spec_json_of_value_entries(
                            value_entries_view(m@),
                            m@.len() as int,
                        )->Ok_0);
                    }
                    Ok(r)
                },
                Err(e) => Err(e),
            }
        },
    }
}

/// Serializes a block table to a JSON object; mirrors `spec_table_to_json`.
pub fn table_to_json(t: &TomlTable) -> (r: Result<JsonValue, EditError>)
    ensures
        json_result_view(r) == spec_table_to_json(table_view(*t)),
    decreases t,
{
    let ghost ev = node_entries_view(t.entries@);
    let n = t.entries.len();
    let mut out: Vec<(String, JsonValue)> = Vec::new();
    let mut i: usize = 0;
    proof {
        assert(Seq::new(
            out@.len(),
            |k: int|
                if 0 <= k < out@.len() {
                    (out@[k].0@, out@[k].1@)
                } else {
                    (Seq::empty(), JsonView::Null)
                },
        ) =~= Seq::<(Seq<char>, JsonView)>::empty());
    }
    while i < n
        invariant
            n == t.entries.len(),
            ev == node_entries_view(t.entries@),
            i <= n,
            out@.len() == i,
            spec_json_of_node_entries(ev, i as int) == Ok::<Seq<(Seq<char>, JsonView)>, EditError>(
                Seq::new(
                    out@.len(),
                    |k: int|
                        if 0 <= k < out@.len() {
                            (out@[k].0@, out@[k].1@)
                        } else {
                            (Seq::empty(), JsonView::Null)
                        },
                ),
            ),
        decreases n - i,
    {
        proof {
            assert(decreases_to!(*t => t.entries));
            assert(decreases_to!(t.entries => t.entries@[i as int]));
            assert(decreases_to!(t.entries@[i as int] => t.entries@[i as int].1));
            assert(ev[i as int] == (t.entries@[i as int].0@, node_view(t.entries@[i as int].1)));
        }
        match node_to_json(&t.entries[i].1) {
            Ok(j) => {
                let ghost oldms = Seq::new(
                    out@.len(),
                    |k: int|
                        if 0 <= k < out@.len() {
                            (out@[k].0@, out@[k].1@)
                        } else {
                            (Seq::empty(), JsonView::Null)
                        },
                );
                out.push((t.entries[i].0.clone(), j));
                proof {
                    assert(Seq::new(
                        out@.len(),
                        |k: int|
                            if 0 <= k < out@.len() {
                                (out@[k].0@, out@[k].1@)
                            } else {
                                (Seq::empty(), JsonView::Null)
                            },
                    ) =~= oldms.push((t.entries@[i as int].0@, j@)));
                }
            },
            Err(e) => {
                proof {
                    lemma_json_of_node_entries_err(ev, i as int + 1, ev.len() as int);
                }
                return Err(e);
            },
        }
        i += 1;
    }
    let r = JsonValue::Object(out);
    proof {
        assert(r@->Object_0 =~= spec_json_of_node_entries(ev, ev.len() as int)->Ok_0);
    }
    Ok(r)
}

/// Serializes an array of tables to a JSON array of objects.
fn tables_to_json(ts: &Vec<TomlTable>) -> (r: Result<Vec<JsonValue>, EditError>)
    ensures
        (match r {
            Ok(xs) => Ok::<Seq<JsonView>, EditError>(
                Seq::new(xs@.len(), |k: int| if 0 <= k < xs@.len() { xs@[k]@ } else { JsonView::Null }),
            ),
            Err(e) => Err(e),
        }) == spec_json_of_tables(tables_view(ts@), ts@.len() as int),
    decreases ts,
{
    let ghost tv = tables_view(ts@);
    let n = ts.len();
    let mut out: Vec<JsonValue> = Vec::new();
    let mut i: usize = 0;
    proof {
        assert(Seq::new(out@.len(), |k: int| if 0 <= k < out@.len() { out@[k]@ } else { JsonView::Null })
            =~= Seq::<JsonView>::empty());
    }
    while i < n
        invariant
            n == ts.len(),
            tv == tables_view(ts@),
            i <= n,
            out@.len() == i,
            spec_json_of_tables(tv, i as int) == Ok::<Seq<JsonView>, EditError>(
                Seq::new(out@.len(), |k: int| if 0 <= k < out@.len() { out@[k]@ } else { JsonView::Null }),
            ),
        decreases n - i,
    {
        proof {
            assert(decreases_to!(*ts => ts@[i as int]));
            assert(tv[i as int] == table_view(ts@[i as int]));
        }
        match table_to_json(&ts[i]) {
            Ok(j) => {
                let ghost oldxs = Seq::new(
                    out@.len(),
                    |k: int| if 0 <= k < out@.len() { out@[k]@ } else { JsonView::Null },
                );
                out.push(j);
                proof {
                    assert(Seq::new(
                        out@.len(),
                        |k: int| if 0 <= k < out@.len() { out@[k]@ } else { JsonView::Null },
                    ) =~= oldxs.push(j@));
                }
            },
            Err(e) => {
                proof {
                    lemma_json_of_tables_err(tv, i as int + 1, tv.len() as int);
                }
                return Err(e);
            },
        }
        i += 1;
    }
    Ok(out)
}

/// Serializes a node; mirrors `spec_node_to_json`.
pub fn node_to_json(n: &TomlNode) -> (r: Result<JsonValue, EditError>)
    ensures
        json_result_view(r) == spec_node_to_json(node_view(*n)),
    decreases n,
{
    match n {
        TomlNode::Absent => Ok(JsonValue::Null),
        TomlNode::Value(v) => value_to_json(v),
        TomlNode::Table(t) => {
            proof {
                assert(decreases_to!(*n => (*n)->Table_0));
            }
            table_to_json(t)
        },
        TomlNode::ArrayOfTables(ts) => {
            proof {
                assert(decreases_to!(*n => (*n)->ArrayOfTables_0));
            }
            match tables_to_json(ts) {
                Ok(xs) => {
                    let r = JsonValue::Array(xs);
                    proof {
                        assert(r@->Array_0 =~= spec_json_of_tables(
                            tables_view(ts@),
                            ts@.len() as int,
                        )->Ok_0);
                    }
                    Ok(r)
                },
                Err(e) => Err(e),
            }
        },
    }
}

impl<'a> At<'a> {
    /// Serializes the location; mirrors `spec_at_to_json`.
    pub fn to_value(&self) -> (r: Result<JsonValue, EditError>)
        ensures
            json_result_view(r) == spec_at_to_json(at_view(*self)),
    {
        match self {
            At::Array(a) => {
                match values_to_json(a) {
                    Ok(xs) => {
                        let r = JsonValue::Array(xs);
                        proof {
                            assert(r@->Array_0 =~= spec_json_of_values(
                                values_view(a@),
                                a@.len() as int,
                            )->Ok_0);
                        }
                        Ok(r)
                    },
                    Err(e) => Err(e),
                }
            },
            At::ArrayOfTables(ts) => {
                match tables_to_json(ts) {
                    Ok(xs) => {
                        let r = JsonValue::Array(xs);
                        proof {
                            assert(r@->Array_0 =~= spec_json_of_tables(
                                tables_view(ts@),
                                ts@.len() as int,
                            )->Ok_0);
                        }
                        Ok(r)
                    },
                    Err(e) => Err(e),
                }
            },
            At::Item(n) => node_to_json(n),
            At::Table(t) => table_to_json(t),
            At::Value(v) => value_to_json(v),
        }
    }

    /// Walks the remaining path from this location; mirrors `spec_down`.
    fn down(self, path: &Vec<String>, i: usize) -> (r: Result<Option<JsonValue>, EditError>)
        requires
            i <= path@.len(),
        ensures
            opt_json_result_view(r) == spec_down(at_view(self), path.deep_view(), i as int),
        decreases path@.len() - i, at_rank(at_view(self)),
    {
        if i >= path.len() {
            return match self.to_value() {
                Ok(j) => Ok(Some(j)),
                Err(e) => Err(e),
            };
        }
        let key = &path[i];
        proof {
            assert(path.deep_view()[i as int] == path@[i as int]@);
        }
        match self {
            At::Array(arr) => match parse_index(key) {
                Some(idx) => {
                    if idx < arr.len() {
                        proof {
                            assert(values_view(arr@)[idx as int] == value_view(arr@[idx as int]));
                        }
                        At::Value(&arr[idx]).down(path, i + 1)
                    } else {
                        Ok(None)
                    }
                },
                None => Err(EditError::BadIndex),
            },
            At::ArrayOfTables(ts) => match parse_index(key) {
                Some(idx) => {
                    if idx < ts.len() {
                        proof {
                            assert(tables_view(ts@)[idx as int] == table_view(ts@[idx as int]));
                        }
                        At::Table(&ts[idx]).down(path, i + 1)
                    } else {
                        Err(EditError::NotFound)
                    }
                },
                None => Err(EditError::BadIndex),
            },
            At::Item(n) => match n {
                TomlNode::ArrayOfTables(ts) => At::ArrayOfTables(ts).down(path, i),
                TomlNode::Table(t) => At::Table(t).down(path, i),
                TomlNode::Value(v) => At::Value(v).down(path, i),
                TomlNode::Absent => Err(EditError::TypeMismatch),
            },
            At::Table(t) => match t.find_key(key) {
                Some(ki) => {
                    proof {
                        lemma_key_index(table_view(*t).entries, key@);
                        assert(table_view(*t).entries[ki as int].1 == node_view(
                            t.entries@[ki as int].1,
                        ));
                    }
                    At::Item(&t.entries[ki].1).down(path, i + 1)
                },
                None => Err(EditError::NotFound),
            },
            At::Value(v) => match v {
                Value::Array(arr) => At::Array(arr).down(path, i),
                Value::InlineTable(m) => {
                    proof {
                        crate::model::lemma_key_index(value_entries_view(m@), key@);
                    }
                    match crate::model::find_value_key(m, key) {
                        Some(ki) => {
                            proof {
                                lemma_key_index(value_entries_view(m@), key@);
                                assert(value_entries_view(m@)[ki as int].1 == value_view(
                                    m@[ki as int].1,
                                ));
                            }
                            At::Value(&m[ki].1).down(path, i + 1)
                        },
                        None => Err(EditError::NotFound),
                    }
                },
                _ => Err(EditError::TypeMismatch),
            },
        }
    }
}

/// Resolves the complete path without mutating, and serializes the node
/// found there; mirrors `spec_traverse` on the split path. The document is
/// left exactly as it was.
pub fn traverse(op: TraverseOps, doc: &mut TomlDocument, field: &str) -> (r: Result<
    Option<JsonValue>,
    EditError,
>)
    ensures
        *final(doc) == *old(doc),
        opt_json_result_view(r) == spec_traverse(old(doc)@, spec_split(field@)),
{
    let path = split_on_slash(field);
    proof {
        crate::paths::lemma_split_len(field@);
        assert(path.deep_view().len() == path@.len());
    }
    let root_key = &path[0];
    proof {
        assert(path.deep_view()[0] == path@[0]@);
    }
    match op {
        TraverseOps::Get => {
            match doc.root.find_key(root_key) {
                Some(ki) => {
                    proof {
                        lemma_key_index(doc@.entries, path.deep_view()[0]);
                        assert(doc@.entries[ki as int].1 == node_view(
                            doc.root.entries@[ki as int].1,
                        ));
                    }
                    At::Item(&doc.root.entries[ki].1).down(&path, 1)
                },
                None => Err(EditError::NotFound),
            }
        },
    }
}

} // verus!
