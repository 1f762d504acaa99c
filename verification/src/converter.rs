//! The value converter: the mapping from JSON values to document nodes.
//!
//! With `inline` set, objects become inline tables and arrays stay scalar
//! arrays; without it, objects become block tables and an array whose
//! elements all convert to tables becomes an array of tables. The flag is
//! threaded down unchanged, so a converted subtree is uniformly inline or
//! uniformly block.

use vstd::prelude::*;

use crate::json::{float_bits_non_finite, float_bits_is_finite, json_view, JsonValue, JsonView};
use crate::model::{
    entries_insert, insert_value_entry, node_entries_view, node_view, nodes_view, value_entries_view,
    EditError, NodeView, TableView, TomlNode, TomlTable, Value, ValueView,
};

verus! {

broadcast use vstd::std_specs::vec::group_vec_axioms, vstd::seq::group_seq_axioms;

/// A conversion result, seen through the view of its payload.
pub open spec fn node_result_view(r: Result<TomlNode, EditError>) -> Result<NodeView, EditError> {
    match r {
        Ok(n) => Ok(node_view(n)),
        Err(e) => Err(e),
    }
}

/// The converted forms of the first `i` elements, or the first error among
/// them.
pub open spec fn spec_convert_prefix(a: Seq<JsonView>, inline: bool, i: int) -> Result<
    Seq<NodeView>,
    EditError,
>
    decreases a, i,
{
    if i <= 0 {
        Ok(Seq::empty())
    } else {
        match spec_convert_prefix(a, inline, i - 1) {
            Ok(pre) => {
                if 0 <= i - 1 < a.len() {
                    match spec_json_to_toml(a[i - 1], inline) {
                        Ok(n) => Ok(pre.push(n)),
                        Err(e) => Err(e),
                    }
                } else {
                    Ok(pre)
                }
            },
            Err(e) => Err(e),
        }
    }
}

/// The converted forms of the first `i` members, or the first error among
/// them.
pub open spec fn spec_convert_members_prefix(
    m: Seq<(Seq<char>, JsonView)>,
    inline: bool,
    i: int,
) -> Result<Seq<(Seq<char>, NodeView)>, EditError>
    decreases m, i,
{
    if i <= 0 {
        Ok(Seq::empty())
    } else {
        match spec_convert_members_prefix(m, inline, i - 1) {
            Ok(pre) => {
                if 0 <= i - 1 < m.len() {
                    match spec_json_to_toml(m[i - 1].1, inline) {
                        Ok(n) => Ok(pre.push((m[i - 1].0, n))),
                        Err(e) => Err(e),
                    }
                } else {
                    Ok(pre)
                }
            },
            Err(e) => Err(e),
        }
    }
}

pub open spec fn all_tables(items: Seq<NodeView>) -> bool {
    forall|i: int| 0 <= i < items.len() ==> (#[trigger] items[i]) is Table
}

pub open spec fn all_values(items: Seq<NodeView>) -> bool {
    forall|i: int| 0 <= i < items.len() ==> (#[trigger] items[i]) is Value
}

pub open spec fn unwrap_tables(items: Seq<NodeView>) -> Seq<TableView> {
    Seq::new(
        items.len(),
        |i: int|
            if 0 <= i < items.len() {
                items[i]->Table_0
            } else {
                TableView { entries: Seq::empty(), dotted: false }
            },
    )
}

pub open spec fn unwrap_values(items: Seq<NodeView>) -> Seq<ValueView> {
    Seq::new(
        items.len(),
        |i: int|
            if 0 <= i < items.len() {
                items[i]->Value_0
            } else {
                ValueView::Bool(false)
            },
    )
}

/// What a converted array becomes: an array of tables when block
/// presentation was asked for and every element converted to a table, else
/// a scalar array of the converted values; an element of any other shape
/// cannot be represented there.
pub open spec fn spec_make_array(items: Seq<NodeView>, inline: bool) -> Result<
    NodeView,
    EditError,
> {
    if !inline && all_tables(items) {
        Ok(NodeView::ArrayOfTables(unwrap_tables(items)))
    } else if all_values(items) {
        Ok(NodeView::Value(ValueView::Array(unwrap_values(items))))
    } else {
        Err(EditError::ValueConversion)
    }
}

/// Inline-table entries built from converted members in order, inserting
/// with overwrite; a member that is not a scalar value cannot stand there.
pub open spec fn spec_inline_entries(
    ms: Seq<(Seq<char>, NodeView)>,
    i: int,
    acc: Seq<(Seq<char>, ValueView)>,
) -> Result<Seq<(Seq<char>, ValueView)>, EditError>
    decreases ms.len() - i,
{
    if i < 0 || i >= ms.len() {
        Ok(acc)
    } else {
        match ms[i].1 {
            NodeView::Value(v) => spec_inline_entries(ms, i + 1, entries_insert(acc, ms[i].0, v)),
            _ => Err(EditError::ValueConversion),
        }
    }
}

/// Block-table entries built from converted members in order, inserting
/// with overwrite.
pub open spec fn spec_block_entries(
    ms: Seq<(Seq<char>, NodeView)>,
    i: int,
    acc: Seq<(Seq<char>, NodeView)>,
) -> Seq<(Seq<char>, NodeView)>
    decreases ms.len() - i,
{
    if i < 0 || i >= ms.len() {
        acc
    } else {
        spec_block_entries(ms, i + 1, entries_insert(acc, ms[i].0, ms[i].1))
    }
}

/// What a converted object becomes: an inline table under inline
/// presentation, else a block table.
pub open spec fn spec_make_table(ms: Seq<(Seq<char>, NodeView)>, inline: bool) -> Result<
    NodeView,
    EditError,
> {
    if inline {
        match spec_inline_entries(ms, 0, Seq::empty()) {
            Ok(es) => Ok(NodeView::Value(ValueView::InlineTable(es))),
            Err(e) => Err(e),
        }
    } else {
        Ok(
            NodeView::Table(
                TableView { entries: spec_block_entries(ms, 0, Seq::empty()), dotted: false },
            ),
        )
    }
}

/// The node a JSON value converts to: null becomes the absent marker,
/// scalars become scalar values (a non-finite float cannot be represented),
/// arrays and objects follow `spec_make_array` and `spec_make_table`.
pub open spec fn spec_json_to_toml(j: JsonView, inline: bool) -> Result<NodeView, EditError>
    decreases j, 0int,
{
    match j {
        JsonView::Null => Ok(NodeView::Absent),
        JsonView::Bool(b) => Ok(NodeView::Value(ValueView::Bool(b))),
        JsonView::Int(i) => Ok(NodeView::Value(ValueView::Int(i))),
        JsonView::Float(bits) => if float_bits_non_finite(bits) {
            Err(EditError::ValueConversion)
        } else {
            Ok(NodeView::Value(ValueView::Float(bits)))
        },
        JsonView::Str(s) => Ok(NodeView::Value(ValueView::Str(s))),
        JsonView::Array(a) => match spec_convert_prefix(a, inline, a.len() as int) {
            Ok(items) => spec_make_array(items, inline),
            Err(e) => Err(e),
        },
        JsonView::Object(m) => match spec_convert_members_prefix(m, inline, m.len() as int) {
            Ok(ms) => spec_make_table(ms, inline),
            Err(e) => Err(e),
        },
    }
}

/// A failed prefix stays failed however much further the conversion goes.
proof fn lemma_convert_prefix_err(a: Seq<JsonView>, inline: bool, i: int, j: int)
    requires
        0 <= i <= j,
        spec_convert_prefix(a, inline, i) is Err,
    ensures
        spec_convert_prefix(a, inline, j) == spec_convert_prefix(a, inline, i),
    decreases j - i,
{
    if j > i {
        lemma_convert_prefix_err(a, inline, i, j - 1);
    }
}

/// A failed member prefix stays failed as well.
proof fn lemma_convert_members_prefix_err(
    m: Seq<(Seq<char>, JsonView)>,
    inline: bool,
    i: int,
    j: int,
)
    requires
        0 <= i <= j,
        spec_convert_members_prefix(m, inline, i) is Err,
    ensures
        spec_convert_members_prefix(m, inline, j) == spec_convert_members_prefix(m, inline, i),
    decreases j - i,
{
    if j > i {
        lemma_convert_members_prefix_err(m, inline, i, j - 1);
    }
}

/// Whether every converted element is a block table.
fn every_item_is_table(items: &Vec<TomlNode>) -> (r: bool)
    ensures
        r == all_tables(nodes_view(items@)),
{
    let n = items.len();
    let mut i: usize = 0;
    while i < n
        invariant
            n == items.len(),
            i <= n,
            forall|j: int| 0 <= j < i ==> (#[trigger] node_view(items@[j])) is Table,
        decreases n - i,
    {
        match &items[i] {
            TomlNode::Table(_) => {},
            _ => {
                proof {
                    assert(!(nodes_view(items@)[i as int] is Table));
                }
                return false;
            },
        }
        i += 1;
    }
    true
}

/// Builds a scalar array from converted elements, which must all be scalar
/// values.
fn create_toml_inline_array(items: Vec<TomlNode>) -> (r: Result<TomlNode, EditError>)
    ensures
        all_values(nodes_view(items@)) ==> node_result_view(r) == Ok::<NodeView, EditError>(
            NodeView::Value(ValueView::Array(unwrap_values(nodes_view(items@)))),
        ),
        !all_values(nodes_view(items@)) ==> r == Err::<TomlNode, EditError>(
            EditError::ValueConversion,
        ),
{
    let n = items.len();
    let mut out: Vec<Value> = Vec::new();
    let mut i: usize = 0;
    proof {
        assert(crate::model::values_view(out@) =~= Seq::<ValueView>::empty());
    }
    while i < n
        invariant
            n == items.len(),
            i <= n,
            out@.len() == i,
            forall|j: int| 0 <= j < i ==> (#[trigger] node_view(items@[j])) is Value,
            forall|j: int|
                0 <= j < i ==> crate::model::value_view(#[trigger] out@[j]) == node_view(
                    items@[j],
                )->Value_0,
        decreases n - i,
    {
        match &items[i] {
            TomlNode::Value(v) => {
                out.push(v.clone());
            },
            _ => {
                proof {
                    assert(!(nodes_view(items@)[i as int] is Value));
                }
                return Err(EditError::ValueConversion);
            },
        }
        i += 1;
    }
    let r = TomlNode::Value(Value::Array(out));
    proof {
        assert(r@->Value_0->Array_0 =~= unwrap_values(nodes_view(items@)));
    }
    Ok(r)
}

/// Builds an array of tables from converted elements, which must all be
/// block tables.
fn create_toml_array_of_tables(items: Vec<TomlNode>) -> (r: Result<TomlNode, EditError>)
    ensures
        all_tables(nodes_view(items@)) ==> node_result_view(r) == Ok::<NodeView, EditError>(
            NodeView::ArrayOfTables(unwrap_tables(nodes_view(items@))),
        ),
        !all_tables(nodes_view(items@)) ==> r == Err::<TomlNode, EditError>(
            EditError::ValueConversion,
        ),
{
    let n = items.len();
    let mut out: Vec<TomlTable> = Vec::new();
    let mut i: usize = 0;
    proof {
        assert(crate::model::tables_view(out@) =~= Seq::<TableView>::empty());
    }
    while i < n
        invariant
            n == items.len(),
            i <= n,
            out@.len() == i,
            forall|j: int| 0 <= j < i ==> (#[trigger] node_view(items@[j])) is Table,
            forall|j: int|
                0 <= j < i ==> crate::model::table_view(#[trigger] out@[j]) == node_view(
                    items@[j],
                )->Table_0,
        decreases n - i,
    {
        match &items[i] {
            TomlNode::Table(t) => {
                out.push(t.clone());
            },
            _ => {
                proof {
                    assert(!(nodes_view(items@)[i as int] is Table));
                }
                return Err(EditError::ValueConversion);
            },
        }
        i += 1;
    }
    let r = TomlNode::ArrayOfTables(out);
    proof {
        assert(r@->ArrayOfTables_0 =~= unwrap_tables(nodes_view(items@)));
    }
    Ok(r)
}

/// Builds the node for a converted array: an array of tables under block
/// presentation when every element is a table, else a scalar array.
fn create_toml_array(items: Vec<TomlNode>, inline: bool) -> (r: Result<TomlNode, EditError>)
    ensures
        node_result_view(r) == spec_make_array(nodes_view(items@), inline),
{
    if !inline && every_item_is_table(&items) {
        create_toml_array_of_tables(items)
    } else {
        create_toml_inline_array(items)
    }
}

/// Builds an inline table from converted members, which must all be scalar
/// values; inserts overwrite.
fn create_toml_inline_table(pairs: Vec<(String, TomlNode)>) -> (r: Result<TomlNode, EditError>)
    ensures
        node_result_view(r) == (match spec_inline_entries(
            node_entries_view(pairs@),
            0,
            Seq::empty(),
        ) {
            Ok(es) => Ok::<NodeView, EditError>(NodeView::Value(ValueView::InlineTable(es))),
            Err(e) => Err::<NodeView, EditError>(e),
        }),
{
    let ghost pv = node_entries_view(pairs@);
    let n = pairs.len();
    let mut out: Vec<(String, Value)> = Vec::new();
    let mut i: usize = 0;
    proof {
        assert(value_entries_view(out@) =~= Seq::<(Seq<char>, ValueView)>::empty());
    }
    while i < n
        invariant
            n == pairs.len(),
            i <= n,
            pv == node_entries_view(pairs@),
            spec_inline_entries(pv, i as int, value_entries_view(out@)) == spec_inline_entries(
                pv,
                0,
                Seq::empty(),
            ),
        decreases n - i,
    {
        match &pairs[i].1 {
            TomlNode::Value(v) => {
                proof {
                    assert(pv[i as int].1 == node_view(pairs@[i as int].1));
                }
                insert_value_entry(&mut out, pairs[i].0.clone(), v.clone());
            },
            _ => {
                proof {
                    assert(!(pv[i as int].1 is Value));
                }
                return Err(EditError::ValueConversion);
            },
        }
        i += 1;
    }
    let r = TomlNode::Value(Value::InlineTable(out));
    Ok(r)
}

/// Builds a block table from converted members; inserts overwrite, and the
/// absent marker is kept as an entry.
fn create_toml_block_table(pairs: Vec<(String, TomlNode)>) -> (r: Result<TomlNode, EditError>)
    ensures
        node_result_view(r) == Ok::<NodeView, EditError>(
            NodeView::Table(
                TableView {
                    entries: spec_block_entries(node_entries_view(pairs@), 0, Seq::empty()),
                    dotted: false,
                },
            ),
        ),
{
    let ghost pv = node_entries_view(pairs@);
    let n = pairs.len();
    let mut out = TomlTable::new();
    let mut i: usize = 0;
    proof {
        assert(out@.entries =~= Seq::<(Seq<char>, NodeView)>::empty());
    }
    while i < n
        invariant
            n == pairs.len(),
            i <= n,
            pv == node_entries_view(pairs@),
            out@.dotted == false,
            spec_block_entries(pv, i as int, out@.entries) == spec_block_entries(
                pv,
                0,
                Seq::empty(),
            ),
        decreases n - i,
    {
        proof {
            assert(pv[i as int].0 == pairs@[i as int].0@);
            assert(pv[i as int].1 == node_view(pairs@[i as int].1));
        }
        out.insert(pairs[i].0.clone(), pairs[i].1.clone());
        i += 1;
    }
    Ok(TomlNode::Table(out))
}

/// Builds the node for a converted object: an inline table or a block
/// table, by presentation.
fn create_toml_table(pairs: Vec<(String, TomlNode)>, inline: bool) -> (r: Result<
    TomlNode,
    EditError,
>)
    ensures
        node_result_view(r) == spec_make_table(node_entries_view(pairs@), inline),
{
    if inline {
        create_toml_inline_table(pairs)
    } else {
        create_toml_block_table(pairs)
    }
}

/// Converts a JSON value to a document node; mirrors `spec_json_to_toml`.
pub fn json_to_toml(j: &JsonValue, inline: bool) -> (r: Result<TomlNode, EditError>)
    ensures
        node_result_view(r) == spec_json_to_toml(j@, inline),
    decreases j,
{
    match j {
        JsonValue::Null => Ok(TomlNode::Absent),
        JsonValue::Bool(b) => Ok(TomlNode::Value(Value::Bool(*b))),
        JsonValue::Int(i) => Ok(TomlNode::Value(Value::Int(*i))),
        JsonValue::Float(bits) => {
            if float_bits_is_finite(*bits) {
                Ok(TomlNode::Value(Value::Float(*bits)))
            } else {
                Err(EditError::ValueConversion)
            }
        },
        JsonValue::Str(s) => Ok(TomlNode::Value(Value::Str(s.clone()))),
        JsonValue::Array(a) => {
            let ghost av = json_view(*j)->Array_0;
            let n = a.len();
            let mut items: Vec<TomlNode> = Vec::new();
            let mut i: usize = 0;
            proof {
                assert(av.len() == a@.len());
                assert(nodes_view(items@) =~= Seq::<NodeView>::empty());
            }
            while i < n
                invariant
                    n == a.len(),
                    i <= n,
                    av == json_view(*j)->Array_0,
                    av.len() == n,
                    spec_convert_prefix(av, inline, i as int) == Ok::<Seq<NodeView>, EditError>(
                        nodes_view(items@),
                    ),
                decreases n - i,
            {
                proof {
                    assert(decreases_to!(*j => (*j)->Array_0));
                    assert(decreases_to!(*a => a@[i as int]));
                    assert(av[i as int] == crate::json::json_view(a@[i as int]));
                }
                match json_to_toml(&a[i], inline) {
                    Ok(nd) => {
                        proof {
                            assert(nodes_view(items@.push(nd)) =~= nodes_view(items@).push(
                                node_view(nd),
                            ));
                        }
                        items.push(nd);
                    },
                    Err(e) => {
                        proof {
                            lemma_convert_prefix_err(av, inline, i as int + 1, av.len() as int);
                        }
                        return Err(e);
                    },
                }
                i += 1;
            }
            create_toml_array(items, inline)
        },
        JsonValue::Object(m) => {
            let ghost mv = json_view(*j)->Object_0;
            let n = m.len();
            let mut pairs: Vec<(String, TomlNode)> = Vec::new();
            let mut i: usize = 0;
            proof {
                assert(mv.len() == m@.len());
                assert(node_entries_view(pairs@) =~= Seq::<(Seq<char>, NodeView)>::empty());
            }
            while i < n
                invariant
                    n == m.len(),
                    i <= n,
                    mv == json_view(*j)->Object_0,
                    mv.len() == n,
                    spec_convert_members_prefix(mv, inline, i as int) == Ok::<
                        Seq<(Seq<char>, NodeView)>,
                        EditError,
                    >(node_entries_view(pairs@)),
                decreases n - i,
            {
                proof {
                    assert(decreases_to!(*j => (*j)->Object_0));
                    assert(decreases_to!(*m => m@[i as int]));
                    assert(decreases_to!(m@[i as int] => m@[i as int].1));
                    assert(mv[i as int] == (
                        m@[i as int].0@,
                        crate::json::json_view(m@[i as int].1),
                    ));
                }
                match json_to_toml(&m[i].1, inline) {
                    Ok(nd) => {
                        proof {
                            assert(node_entries_view(pairs@.push((m@[i as int].0, nd)))
                                =~= node_entries_view(pairs@).push((m@[i as int].0@, node_view(nd))));
                        }
                        pairs.push((m[i].0.clone(), nd));
                        proof {
                            assert(node_entries_view(pairs@) =~= spec_convert_members_prefix(
                                mv,
                                inline,
                                i as int + 1,
                            )->Ok_0);
                        }
                    },
                    Err(e) => {
                        proof {
                            lemma_convert_members_prefix_err(
                                mv,
                                inline,
                                i as int + 1,
                                mv.len() as int,
                            );
                        }
                        return Err(e);
                    },
                }
                i += 1;
            }
            create_toml_table(pairs, inline)
        },
    }
}

} // verus!
