//! Laws of the editing engines, stated over the same spec functions that
//! the engines' contracts use, and proved once and for all inputs.

use vstd::prelude::*;

use crate::adder::{spec_insert_aot, spec_insert_array, spec_add_in_value};
use crate::converter::{
    all_tables, all_values, spec_block_entries, spec_convert_members_prefix, spec_convert_prefix,
    spec_inline_entries, spec_json_to_toml, unwrap_tables, unwrap_values,
};
use crate::json::{wf_json, JsonView};
use crate::model::{
    entries_insert, entries_remove, key_index, lemma_key_index, lemma_key_index_first, unique_keys,
    EditError, NodeView, TableView, ValueView,
};
use crate::paths::spec_split;
use crate::remover::{spec_handle_remove, spec_remove_from_node, spec_remove_from_table};
use crate::traversal::{
    spec_json_of_node_entries, spec_json_of_tables, spec_json_of_value_entries,
    spec_json_of_values, spec_node_to_json, spec_table_to_json, spec_value_to_json,
};

verus! {

broadcast use vstd::std_specs::vec::group_vec_axioms, vstd::seq::group_seq_axioms;

/// Adding at an array index equal to the current length appends; at a
/// smaller index it replaces that element in place; at a larger index it
/// fails with `BadIndex`.
pub proof fn lemma_array_add_policy(a: Seq<ValueView>, last: Seq<char>, v: ValueView)
    requires
        crate::paths::spec_parse_index(last) matches Some(idx) && idx >= 0,
    ensures
        crate::paths::spec_parse_index(last)->0 == a.len() ==> spec_insert_array(
            a,
            last,
            NodeView::Value(v),
        ) == Ok::<Seq<ValueView>, EditError>(a.push(v)),
        crate::paths::spec_parse_index(last)->0 < a.len() ==> spec_insert_array(
            a,
            last,
            NodeView::Value(v),
        ) == Ok::<Seq<ValueView>, EditError>(a.update(crate::paths::spec_parse_index(last)->0, v)),
        crate::paths::spec_parse_index(last)->0 > a.len() ==> spec_insert_array(
            a,
            last,
            NodeView::Value(v),
        ) == Err::<Seq<ValueView>, EditError>(EditError::BadIndex),
{
}

/// The same append/replace/out-of-range policy holds for an array of
/// tables.
pub proof fn lemma_aot_add_policy(ts: Seq<TableView>, last: Seq<char>, t: TableView)
    requires
        crate::paths::spec_parse_index(last) matches Some(idx) && idx >= 0,
    ensures
        crate::paths::spec_parse_index(last)->0 == ts.len() ==> spec_insert_aot(
            ts,
            last,
            NodeView::Table(t),
        ) == Ok::<Seq<TableView>, EditError>(ts.push(t)),
        crate::paths::spec_parse_index(last)->0 < ts.len() ==> spec_insert_aot(
            ts,
            last,
            NodeView::Table(t),
        ) == Ok::<Seq<TableView>, EditError>(ts.update(crate::paths::spec_parse_index(last)->0, t)),
        crate::paths::spec_parse_index(last)->0 > ts.len() ==> spec_insert_aot(
            ts,
            last,
            NodeView::Table(t),
        ) == Err::<Seq<TableView>, EditError>(EditError::BadIndex),
{
}

/// An add whose parent path resolves to a plain scalar fails with
/// `TypeMismatch` whenever the value itself converts; the engine's
/// contract then leaves the document unmodified.
pub proof fn lemma_add_into_scalar(
    v: ValueView,
    path: Seq<Seq<char>>,
    i: int,
    last: Seq<char>,
    jv: JsonView,
)
    requires
        !(v is Array),
        !(v is InlineTable),
        spec_json_to_toml(jv, true) is Ok,
    ensures
        spec_add_in_value(v, path, i, last, jv) == Err::<ValueView, EditError>(
            EditError::TypeMismatch,
        ),
{
}

/// Removing a path whose parent cannot even be resolved is a no-op that
/// reports success.
pub proof fn lemma_remove_unresolved_is_noop(root: TableView, field: Seq<char>)
    requires
        spec_remove_from_table(
            root,
            spec_split(field).drop_last(),
            0,
            spec_split(field).last(),
        ) == Err::<TableView, EditError>(EditError::NotFound),
    ensures
        spec_handle_remove(root, field) == Ok::<TableView, EditError>(root),
{
}

/// A converted element prefix that succeeded converted every element.
proof fn lemma_convert_prefix_ok(a: Seq<JsonView>, inline: bool, i: int)
    requires
        0 <= i <= a.len(),
        spec_convert_prefix(a, inline, i) is Ok,
    ensures
        spec_convert_prefix(a, inline, i)->Ok_0.len() == i,
        forall|k: int|
            0 <= k < i ==> (#[trigger] spec_json_to_toml(a[k], inline)) is Ok
                && spec_convert_prefix(a, inline, i)->Ok_0[k] == spec_json_to_toml(
                a[k],
                inline,
            )->Ok_0,
    decreases i,
{
    if i > 0 {
        lemma_convert_prefix_ok(a, inline, i - 1);
    }
}

/// A converted member prefix that succeeded converted every member and
/// kept its key.
proof fn lemma_members_prefix_ok(m: Seq<(Seq<char>, JsonView)>, inline: bool, i: int)
    requires
        0 <= i <= m.len(),
        spec_convert_members_prefix(m, inline, i) is Ok,
    ensures
        spec_convert_members_prefix(m, inline, i)->Ok_0.len() == i,
        forall|k: int|
            0 <= k < i ==> (#[trigger] spec_json_to_toml(m[k].1, inline)) is Ok
                && spec_convert_members_prefix(m, inline, i)->Ok_0[k] == (
            m[k].0,
            spec_json_to_toml(m[k].1, inline)->Ok_0,
            ),
    decreases i,
{
    if i > 0 {
        lemma_members_prefix_ok(m, inline, i - 1);
    }
}

/// Building block-table entries from members with fresh, pairwise distinct
/// keys appends them in order.
proof fn lemma_block_entries_append(
    ms: Seq<(Seq<char>, NodeView)>,
    k: int,
    acc: Seq<(Seq<char>, NodeView)>,
)
    requires
        0 <= k <= ms.len(),
        forall|j: int| k <= j < ms.len() ==> key_index(acc, (#[trigger] ms[j]).0) < 0,
        forall|j1: int, j2: int| k <= j1 < j2 < ms.len() ==> ms[j1].0 != ms[j2].0,
    ensures
        spec_block_entries(ms, k, acc) == acc + ms.skip(k),
    decreases ms.len() - k,
{
    if k >= ms.len() {
        assert(spec_block_entries(ms, k, acc) =~= acc + ms.skip(k));
    } else {
        let acc1 = entries_insert(acc, ms[k].0, ms[k].1);
        lemma_key_index(acc, ms[k].0);
        assert(acc1 =~= acc.push(ms[k]));
        assert forall|j: int| k + 1 <= j < ms.len() implies key_index(
            acc.push(ms[k]),
            (#[trigger] ms[j]).0,
        ) < 0 by {
            lemma_key_index(acc.push(ms[k]), ms[j].0);
            if key_index(acc.push(ms[k]), ms[j].0) >= 0 {
                let p = key_index(acc.push(ms[k]), ms[j].0);
                if p < acc.len() {
                    lemma_key_index(acc, ms[j].0);
                    lemma_key_index_first(acc, ms[j].0, p);
                } else {
                    assert(ms[k].0 == ms[j].0);
                }
            }
        }
        lemma_block_entries_append(ms, k + 1, acc.push(ms[k]));
        assert(acc.push(ms[k]) + ms.skip(k + 1) =~= acc + ms.skip(k));
    }
}

/// Building inline-table entries the same way appends the unwrapped scalar
/// values in order.
proof fn lemma_inline_entries_append(
    ms: Seq<(Seq<char>, NodeView)>,
    k: int,
    acc: Seq<(Seq<char>, ValueView)>,
)
    requires
        0 <= k <= ms.len(),
        spec_inline_entries(ms, k, acc) is Ok,
        forall|j: int| k <= j < ms.len() ==> key_index(acc, (#[trigger] ms[j]).0) < 0,
        forall|j1: int, j2: int| k <= j1 < j2 < ms.len() ==> ms[j1].0 != ms[j2].0,
    ensures
        spec_inline_entries(ms, k, acc) == Ok::<Seq<(Seq<char>, ValueView)>, EditError>(
            acc + Seq::new(
                (ms.len() - k) as nat,
                |x: int|
                    if 0 <= x < ms.len() - k {
                        (ms[k + x].0, ms[k + x].1->Value_0)
                    } else {
                        (Seq::empty(), ValueView::Bool(false))
                    },
            ),
        ),
        forall|j: int| k <= j < ms.len() ==> (#[trigger] ms[j]).1 is Value,
    decreases ms.len() - k,
{
    if k >= ms.len() {
        assert(spec_inline_entries(ms, k, acc)->Ok_0 =~= acc + Seq::new(
            (ms.len() - k) as nat,
            |x: int|
                if 0 <= x < ms.len() - k {
                    (ms[k + x].0, ms[k + x].1->Value_0)
                } else {
                    (Seq::empty(), ValueView::Bool(false))
                },
        ));
    } else {
        assert(ms[k].1 is Value);
        let v = ms[k].1->Value_0;
        let acc1 = entries_insert(acc, ms[k].0, v);
        lemma_key_index(acc, ms[k].0);
        assert(acc1 =~= acc.push((ms[k].0, v)));
        assert forall|j: int| k + 1 <= j < ms.len() implies key_index(
            acc.push((ms[k].0, v)),
            (#[trigger] ms[j]).0,
        ) < 0 by {
            lemma_key_index(acc.push((ms[k].0, v)), ms[j].0);
            if key_index(acc.push((ms[k].0, v)), ms[j].0) >= 0 {
                let p = key_index(acc.push((ms[k].0, v)), ms[j].0);
                if p < acc.len() {
                    lemma_key_index(acc, ms[j].0);
                    lemma_key_index_first(acc, ms[j].0, p);
                } else {
                    assert(ms[k].0 == ms[j].0);
                }
            }
        }
        lemma_inline_entries_append(ms, k + 1, acc.push((ms[k].0, v)));
        assert(acc.push((ms[k].0, v)) + Seq::new(
            (ms.len() - k - 1) as nat,
            |x: int|
                if 0 <= x < ms.len() - k - 1 {
                    (ms[k + 1 + x].0, ms[k + 1 + x].1->Value_0)
                } else {
                    (Seq::empty(), ValueView::Bool(false))
                },
        ) =~= acc + Seq::new(
            (ms.len() - k) as nat,
            |x: int|
                if 0 <= x < ms.len() - k {
                    (ms[k + x].0, ms[k + x].1->Value_0)
                } else {
                    (Seq::empty(), ValueView::Bool(false))
                },
        ));
    }
}

/// Serializing an array whose elements all serialize yields them pointwise.
proof fn lemma_json_of_values_pointwise(a: Seq<ValueView>, i: int)
    requires
        0 <= i <= a.len(),
        forall|k: int| 0 <= k < a.len() ==> (#[trigger] spec_value_to_json(a[k])) is Ok,
    ensures
        spec_json_of_values(a, i) == Ok::<Seq<JsonView>, EditError>(
            Seq::new(
                i as nat,
                |k: int|
                    if 0 <= k < i {
                        spec_value_to_json(a[k])->Ok_0
                    } else {
                        JsonView::Null
                    },
            ),
        ),
    decreases i,
{
    if i <= 0 {
        assert(spec_json_of_values(a, i)->Ok_0 =~= Seq::new(
            i as nat,
            |k: int|
                if 0 <= k < i {
                    spec_value_to_json(a[k])->Ok_0
                } else {
                    JsonView::Null
                },
        ));
    } else {
        lemma_json_of_values_pointwise(a, i - 1);
        assert(spec_json_of_values(a, i - 1) is Ok);
        assert(spec_value_to_json(a[i - 1]) is Ok);
        assert(spec_json_of_values(a, i) == Ok::<Seq<JsonView>, EditError>(
            spec_json_of_values(a, i - 1)->Ok_0.push(spec_value_to_json(a[i - 1])->Ok_0),
        ));
        assert(spec_json_of_values(a, i)->Ok_0 =~= Seq::new(
            i as nat,
            |k: int|
                if 0 <= k < i {
                    spec_value_to_json(a[k])->Ok_0
                } else {
                    JsonView::Null
                },
        ));
    }
}

/// Serializing an array of tables whose tables all serialize yields them
/// pointwise.
proof fn lemma_json_of_tables_pointwise(ts: Seq<TableView>, i: int)
    requires
        0 <= i <= ts.len(),
        forall|k: int| 0 <= k < ts.len() ==> (#[trigger] spec_table_to_json(ts[k])) is Ok,
    ensures
        spec_json_of_tables(ts, i) == Ok::<Seq<JsonView>, EditError>(
            Seq::new(
                i as nat,
                |k: int|
                    if 0 <= k < i {
                        spec_table_to_json(ts[k])->Ok_0
                    } else {
                        JsonView::Null
                    },
            ),
        ),
    decreases i,
{
    if i <= 0 {
        assert(spec_json_of_tables(ts, i)->Ok_0 =~= Seq::new(
            i as nat,
            |k: int|
                if 0 <= k < i {
                    spec_table_to_json(ts[k])->Ok_0
                } else {
                    JsonView::Null
                },
        ));
    } else {
        lemma_json_of_tables_pointwise(ts, i - 1);
        assert(spec_json_of_tables(ts, i - 1) is Ok);
        assert(spec_table_to_json(ts[i - 1]) is Ok);
        assert(spec_json_of_tables(ts, i) == Ok::<Seq<JsonView>, EditError>(
            spec_json_of_tables(ts, i - 1)->Ok_0.push(spec_table_to_json(ts[i - 1])->Ok_0),
        ));
        assert(spec_json_of_tables(ts, i)->Ok_0 =~= Seq::new(
            i as nat,
            |k: int|
                if 0 <= k < i {
                    spec_table_to_json(ts[k])->Ok_0
                } else {
                    JsonView::Null
                },
        ));
    }
}

/// Serializing table entries whose nodes all serialize yields key/value
/// pairs pointwise.
proof fn lemma_json_of_node_entries_pointwise(es: Seq<(Seq<char>, NodeView)>, i: int)
    requires
        0 <= i <= es.len(),
        forall|k: int| 0 <= k < es.len() ==> (#[trigger] spec_node_to_json(es[k].1)) is Ok,
    ensures
        spec_json_of_node_entries(es, i) == Ok::<Seq<(Seq<char>, JsonView)>, EditError>(
            Seq::new(
                i as nat,
                |k: int|
                    if 0 <= k < i {
                        (es[k].0, spec_node_to_json(es[k].1)->Ok_0)
                    } else {
                        (Seq::empty(), JsonView::Null)
                    },
            ),
        ),
    decreases i,
{
    if i <= 0 {
        assert(spec_json_of_node_entries(es, i)->Ok_0 =~= Seq::new(
            i as nat,
            |k: int|
                if 0 <= k < i {
                    (es[k].0, spec_node_to_json(es[k].1)->Ok_0)
                } else {
                    (Seq::empty(), JsonView::Null)
                },
        ));
    } else {
        lemma_json_of_node_entries_pointwise(es, i - 1);
        assert(spec_json_of_node_entries(es, i - 1) is Ok);
        assert(spec_node_to_json(es[i - 1].1) is Ok);
        assert(spec_json_of_node_entries(es, i) == Ok::<Seq<(Seq<char>, JsonView)>, EditError>(
            spec_json_of_node_entries(es, i - 1)->Ok_0.push(
                (es[i - 1].0, spec_node_to_json(es[i - 1].1)->Ok_0),
            ),
        ));
        assert(spec_json_of_node_entries(es, i)->Ok_0 =~= Seq::new(
            i as nat,
            |k: int|
                if 0 <= k < i {
                    (es[k].0, spec_node_to_json(es[k].1)->Ok_0)
                } else {
                    (Seq::empty(), JsonView::Null)
                },
        ));
    }
}

/// Serializing inline-table entries whose values all serialize yields
/// key/value pairs pointwise.
proof fn lemma_json_of_value_entries_pointwise(es: Seq<(Seq<char>, ValueView)>, i: int)
    requires
        0 <= i <= es.len(),
        forall|k: int| 0 <= k < es.len() ==> (#[trigger] spec_value_to_json(es[k].1)) is Ok,
    ensures
        spec_json_of_value_entries(es, i) == Ok::<Seq<(Seq<char>, JsonView)>, EditError>(
            Seq::new(
                i as nat,
                |k: int|
                    if 0 <= k < i {
                        (es[k].0, spec_value_to_json(es[k].1)->Ok_0)
                    } else {
                        (Seq::empty(), JsonView::Null)
                    },
            ),
        ),
    decreases i,
{
    if i <= 0 {
        assert(spec_json_of_value_entries(es, i)->Ok_0 =~= Seq::new(
            i as nat,
            |k: int|
                if 0 <= k < i {
                    (es[k].0, spec_value_to_json(es[k].1)->Ok_0)
                } else {
                    (Seq::empty(), JsonView::Null)
                },
        ));
    } else {
        lemma_json_of_value_entries_pointwise(es, i - 1);
        assert(spec_json_of_value_entries(es, i - 1) is Ok);
        assert(spec_value_to_json(es[i - 1].1) is Ok);
        assert(spec_json_of_value_entries(es, i) == Ok::<Seq<(Seq<char>, JsonView)>, EditError>(
            spec_json_of_value_entries(es, i - 1)->Ok_0.push(
                (es[i - 1].0, spec_value_to_json(es[i - 1].1)->Ok_0),
            ),
        ));
        assert(spec_json_of_value_entries(es, i)->Ok_0 =~= Seq::new(
            i as nat,
            |k: int|
                if 0 <= k < i {
                    (es[k].0, spec_value_to_json(es[k].1)->Ok_0)
                } else {
                    (Seq::empty(), JsonView::Null)
                },
        ));
    }
}

/// Round trip: a JSON value with unique object keys that converts to a
/// document node reads back as exactly the same JSON value, under either
/// presentation mode.
pub proof fn lemma_json_round_trip(j: JsonView, inline: bool)
    requires
        wf_json(j),
        spec_json_to_toml(j, inline) is Ok,
    ensures
        spec_node_to_json(spec_json_to_toml(j, inline)->Ok_0) == Ok::<JsonView, EditError>(j),
    decreases j,
{
    match j {
        JsonView::Null => {},
        JsonView::Bool(_) => {},
        JsonView::Int(_) => {},
        JsonView::Float(_) => {},
        JsonView::Str(_) => {},
        JsonView::Array(a) => {
            let n = a.len() as int;
            lemma_convert_prefix_ok(a, inline, n);
            let items = spec_convert_prefix(a, inline, n)->Ok_0;
            assert forall|k: int| 0 <= k < n implies spec_node_to_json(#[trigger] items[k])
                == Ok::<JsonView, EditError>(a[k]) by {
                assert(decreases_to!(a => a[k]));
                lemma_json_round_trip(a[k], inline);
            }
            if !inline && all_tables(items) {
                let ts = unwrap_tables(items);
                assert forall|k: int| 0 <= k < ts.len() implies (#[trigger] spec_table_to_json(
                    ts[k],
                )) is Ok && spec_table_to_json(ts[k])->Ok_0 == a[k] by {
                    assert(items[k] is Table);
                    assert(spec_node_to_json(items[k]) == spec_table_to_json(items[k]->Table_0));
                }
                lemma_json_of_tables_pointwise(ts, ts.len() as int);
                assert(spec_json_of_tables(ts, ts.len() as int)->Ok_0 =~= a);
            } else {
                assert(all_values(items));
                let vs = unwrap_values(items);
                assert forall|k: int| 0 <= k < vs.len() implies (#[trigger] spec_value_to_json(
                    vs[k],
                )) is Ok && spec_value_to_json(vs[k])->Ok_0 == a[k] by {
                    assert(items[k] is Value);
                    assert(spec_node_to_json(items[k]) == spec_value_to_json(items[k]->Value_0));
                }
                lemma_json_of_values_pointwise(vs, vs.len() as int);
                assert(spec_json_of_values(vs, vs.len() as int)->Ok_0 =~= a);
            }
        },
        JsonView::Object(m) => {
            let n = m.len() as int;
            lemma_members_prefix_ok(m, inline, n);
            let ms = spec_convert_members_prefix(m, inline, n)->Ok_0;
            assert forall|k: int| 0 <= k < n implies (#[trigger] ms[k]) == (
                m[k].0,
                spec_json_to_toml(m[k].1, inline)->Ok_0,
            ) by {
                assert(spec_json_to_toml(m[k].1, inline) == spec_json_to_toml(m[k].1, inline));
            }
            assert forall|k: int| 0 <= k < n implies spec_node_to_json(#[trigger] ms[k].1)
                == Ok::<JsonView, EditError>(m[k].1) by {
                assert(decreases_to!(m => m[k]));
                assert(decreases_to!(m[k] => m[k].1));
                lemma_json_round_trip(m[k].1, inline);
            }
            assert(unique_keys(m));
            assert forall|j1: int, j2: int| 0 <= j1 < j2 < ms.len() implies ms[j1].0 != ms[j2].0 by {
                assert(ms[j1].0 == m[j1].0 && ms[j2].0 == m[j2].0);
            }
            if inline {
                assert(spec_inline_entries(ms, 0, Seq::empty()) is Ok);
                assert forall|jx: int| 0 <= jx < ms.len() implies key_index(
                    Seq::<(Seq<char>, ValueView)>::empty(),
                    (#[trigger] ms[jx]).0,
                ) < 0 by {}
                lemma_inline_entries_append(ms, 0, Seq::empty());
                let es = spec_inline_entries(ms, 0, Seq::empty())->Ok_0;
                assert forall|k: int| 0 <= k < es.len() implies (#[trigger] spec_value_to_json(
                    es[k].1,
                )) is Ok && spec_value_to_json(es[k].1)->Ok_0 == m[k].1 && es[k].0 == m[k].0 by {
                    assert(es[k] == (ms[k].0, ms[k].1->Value_0));
                    assert(ms[k].1 is Value);
                    assert(spec_node_to_json(ms[k].1) == spec_value_to_json(ms[k].1->Value_0));
                }
                lemma_json_of_value_entries_pointwise(es, es.len() as int);
                assert forall|k: int| 0 <= k < m.len() implies spec_json_of_value_entries(
                    es,
                    es.len() as int,
                )->Ok_0[k] == m[k] by {
                    assert(es[k] == (ms[k].0, ms[k].1->Value_0));
                    assert(ms[k] == (m[k].0, spec_json_to_toml(m[k].1, inline)->Ok_0));
                    assert(spec_value_to_json(es[k].1)->Ok_0 == m[k].1);
                }
                assert(spec_json_of_value_entries(es, es.len() as int)->Ok_0 =~= m);
            } else {
                assert forall|jx: int| 0 <= jx < ms.len() implies key_index(
                    Seq::<(Seq<char>, NodeView)>::empty(),
                    (#[trigger] ms[jx]).0,
                ) < 0 by {}
                lemma_block_entries_append(ms, 0, Seq::empty());
                let es = spec_block_entries(ms, 0, Seq::empty());
                assert(es =~= ms);
                lemma_json_of_node_entries_pointwise(ms, ms.len() as int);
                assert forall|k: int| 0 <= k < m.len() implies spec_json_of_node_entries(
                    ms,
                    ms.len() as int,
                )->Ok_0[k] == m[k] by {
                    assert(ms[k] == (m[k].0, spec_json_to_toml(m[k].1, inline)->Ok_0));
                    assert(spec_node_to_json(ms[k].1) == Ok::<JsonView, EditError>(m[k].1));
                }
                assert(spec_json_of_node_entries(ms, ms.len() as int)->Ok_0 =~= m);
            }
        },
    }
}

/// Two entry rows with the same keys position a key identically.
proof fn lemma_key_index_keys<T1, T2>(
    s1: Seq<(Seq<char>, T1)>,
    s2: Seq<(Seq<char>, T2)>,
    k: Seq<char>,
)
    requires
        s1.len() == s2.len(),
        forall|j: int| 0 <= j < s1.len() ==> (#[trigger] s1[j]).0 == s2[j].0,
    ensures
        key_index(s1, k) == key_index(s2, k),
    decreases s1.len(),
{
    if s1.len() > 0 {
        assert(s1[0].0 == s2[0].0);
        assert forall|j: int| 0 <= j < s1.len() - 1 implies (#[trigger] s1.drop_first()[j]).0
            == s2.drop_first()[j].0 by {
            assert(s1.drop_first()[j] == s1[j + 1]);
            assert(s2.drop_first()[j] == s2[j + 1]);
        }
        lemma_key_index_keys(s1.drop_first(), s2.drop_first(), k);
    }
}

/// Insert-with-overwrite leaves the key findable, bound to the new value.
proof fn lemma_key_index_insert<T>(s: Seq<(Seq<char>, T)>, k: Seq<char>, v: T)
    ensures
        key_index(entries_insert(s, k, v), k) >= 0,
        entries_insert(s, k, v)[key_index(entries_insert(s, k, v), k)] == (k, v),
{
    lemma_key_index(s, k);
    let i = key_index(s, k);
    if i < 0 {
        lemma_key_index_first(s.push((k, v)), k, s.len() as int);
    } else {
        lemma_key_index_first(s.update(i, (k, v)), k, i);
    }
}

/// The array of tables the header path names, reached by descending block
/// tables segment by segment and reading the final segment's entry.
pub open spec fn spec_header_aot(t: TableView, hdr: Seq<Seq<char>>, i: int) -> Option<
    Seq<TableView>,
>
    decreases hdr.len() - i,
{
    if i < 0 || i >= hdr.len() {
        Option::None
    } else {
        let ki = key_index(t.entries, hdr[i]);
        if ki < 0 {
            Option::None
        } else if i == hdr.len() - 1 {
            match t.entries[ki].1 {
                NodeView::ArrayOfTables(ts) => Some(ts),
                _ => Option::None,
            }
        } else {
            match t.entries[ki].1 {
                NodeView::Table(inner) => spec_header_aot(inner, hdr, i + 1),
                _ => Option::None,
            }
        }
    }
}

/// A table-header add under the array-of-tables sentinel always appends a
/// new entry at the end of the array of tables the header names, and never
/// overwrites an existing one: the entries that were there stay, in order,
/// ahead of the new one.
pub proof fn lemma_header_aot_appends(
    t: TableView,
    hdr: Seq<Seq<char>>,
    i: int,
    it: Seq<(Seq<char>, crate::model::ValueView)>,
    append: bool,
)
    requires
        spec_header_aot(t, hdr, i) is Some,
    ensures
        crate::table_header_adder::spec_add_with_header(
            t,
            hdr,
            i,
            Option::None,
            NodeView::Value(ValueView::InlineTable(it)),
            true,
            append,
        ) matches Ok(t2) && spec_header_aot(t2, hdr, i) == Some(
            spec_header_aot(t, hdr, i)->0.push(
                crate::table_header_adder::spec_inline_into_table(it),
            ),
        ),
    decreases hdr.len() - i,
{
    let val = NodeView::Value(ValueView::InlineTable(it));
    let new_table = crate::table_header_adder::spec_inline_into_table(it);
    let ki = key_index(t.entries, hdr[i]);
    lemma_key_index(t.entries, hdr[i]);
    if i == hdr.len() - 1 {
        let ts = t.entries[ki].1->ArrayOfTables_0;
        let t2 = crate::table_header_adder::spec_add_with_header(
            t,
            hdr,
            i,
            Option::None,
            val,
            true,
            append,
        )->Ok_0;
        assert(t2.entries == t.entries.update(ki, (hdr[i], NodeView::ArrayOfTables(ts.push(new_table)))));
        assert forall|j: int| 0 <= j < t.entries.len() implies (#[trigger] t2.entries[j]).0
            == t.entries[j].0 by {}
        lemma_key_index_keys(t2.entries, t.entries, hdr[i]);
    } else {
        let inner = t.entries[ki].1->Table_0;
        let inner1 = TableView { entries: inner.entries, dotted: true };
        assert(spec_header_aot(inner1, hdr, i + 1) == spec_header_aot(inner, hdr, i + 1));
        lemma_header_aot_appends(inner1, hdr, i + 1, it, append);
        let inner2 = crate::table_header_adder::spec_add_with_header(
            inner1,
            hdr,
            i + 1,
            Option::None,
            val,
            true,
            append,
        )->Ok_0;
        let t2 = crate::table_header_adder::spec_add_with_header(
            t,
            hdr,
            i,
            Option::None,
            val,
            true,
            append,
        )->Ok_0;
        assert(t2.entries == t.entries.update(ki, (hdr[i], NodeView::Table(inner2))));
        assert forall|j: int| 0 <= j < t.entries.len() implies (#[trigger] t2.entries[j]).0
            == t.entries[j].0 by {}
        lemma_key_index_keys(t2.entries, t.entries, hdr[i]);
    }
}

/// The scalar value the dotted path names inside the final header table.
pub open spec fn spec_dotted_value(t: TableView, dp: Seq<Seq<char>>, i: int) -> Option<ValueView>
    decreases dp.len() - i,
{
    if i < 0 || i >= dp.len() {
        Option::None
    } else {
        let ki = key_index(t.entries, dp[i]);
        if ki < 0 {
            Option::None
        } else if i == dp.len() - 1 {
            match t.entries[ki].1 {
                NodeView::Value(v) => Some(v),
                _ => Option::None,
            }
        } else {
            match t.entries[ki].1 {
                NodeView::Table(inner) => spec_dotted_value(inner, dp, i + 1),
                _ => Option::None,
            }
        }
    }
}

/// A dotted add under the append sentinel, where the final key holds an
/// array, pushes the value onto that array: the elements that were there
/// stay, in order, ahead of the new one.
pub proof fn lemma_dotted_append(t: TableView, dp: Seq<Seq<char>>, i: int, arr: Seq<ValueView>, v: ValueView)
    requires
        spec_dotted_value(t, dp, i) == Some(ValueView::Array(arr)),
    ensures
        crate::table_header_adder::spec_add_dotted(
            t,
            dp,
            i,
            NodeView::Value(v),
            true,
        ) matches Ok(t2) && spec_dotted_value(t2, dp, i) == Some(ValueView::Array(arr.push(v))),
    decreases dp.len() - i,
{
    let val = NodeView::Value(v);
    let ki = key_index(t.entries, dp[i]);
    lemma_key_index(t.entries, dp[i]);
    if i == dp.len() - 1 {
        let t2 = crate::table_header_adder::spec_add_dotted(t, dp, i, val, true)->Ok_0;
        assert(t2.entries == t.entries.update(
            ki,
            (dp[i], NodeView::Value(ValueView::Array(arr.push(v)))),
        ));
        assert forall|j: int| 0 <= j < t.entries.len() implies (#[trigger] t2.entries[j]).0
            == t.entries[j].0 by {}
        lemma_key_index_keys(t2.entries, t.entries, dp[i]);
    } else {
        let inner = t.entries[ki].1->Table_0;
        let inner1 = TableView { entries: inner.entries, dotted: true };
        assert(spec_dotted_value(inner1, dp, i + 1) == spec_dotted_value(inner, dp, i + 1));
        lemma_dotted_append(inner1, dp, i + 1, arr, v);
        let inner2 = crate::table_header_adder::spec_add_dotted(inner1, dp, i + 1, val, true)->Ok_0;
        let t2 = crate::table_header_adder::spec_add_dotted(t, dp, i, val, true)->Ok_0;
        assert(t2.entries == t.entries.update(ki, (dp[i], NodeView::Table(inner2))));
        assert forall|j: int| 0 <= j < t.entries.len() implies (#[trigger] t2.entries[j]).0
            == t.entries[j].0 by {}
        lemma_key_index_keys(t2.entries, t.entries, dp[i]);
    }
}

/// A dotted add under the append sentinel demands an array at the final
/// key: any other scalar there makes the whole add fail with
/// `TypeMismatch`.
pub proof fn lemma_dotted_append_requires_array(
    t: TableView,
    dp: Seq<Seq<char>>,
    i: int,
    val: NodeView,
)
    requires
        spec_dotted_value(t, dp, i) matches Some(w) && !(w is Array),
    ensures
        crate::table_header_adder::spec_add_dotted(t, dp, i, val, true) == Err::<
            TableView,
            EditError,
        >(EditError::TypeMismatch),
    decreases dp.len() - i,
{
    let ki = key_index(t.entries, dp[i]);
    lemma_key_index(t.entries, dp[i]);
    if i == dp.len() - 1 {
    } else {
        let inner = t.entries[ki].1->Table_0;
        let inner1 = TableView { entries: inner.entries, dotted: true };
        assert(spec_dotted_value(inner1, dp, i + 1) == spec_dotted_value(inner, dp, i + 1));
        lemma_dotted_append_requires_array(inner1, dp, i + 1, val);
    }
}

/// What the add engine leaves at the walked path, seen by the get engine:
/// the six descent shapes paired step for step.
proof fn lp5_table(t: TableView, path: Seq<Seq<char>>, i: int, last: Seq<char>, jv: JsonView)
    requires
        wf_json(jv),
        0 <= i <= path.len(),
        crate::adder::spec_add_in_table(t, path, i, last, jv) is Ok,
    ensures
        crate::traversal::spec_down(
            crate::traversal::AtView::Table(
                crate::adder::spec_add_in_table(t, path, i, last, jv)->Ok_0,
            ),
            path.push(last),
            i,
        ) == Ok::<Option<JsonView>, EditError>(Some(jv)),
    decreases path.len() - i, 3int,
{
    let full = path.push(last);
    let t2 = crate::adder::spec_add_in_table(t, path, i, last, jv)->Ok_0;
    if i >= path.len() {
        // Terminal: the value was inserted under `last`, block-style.
        let n = spec_json_to_toml(jv, false)->Ok_0;
        assert(t2.entries == entries_insert(t.entries, last, n));
        lemma_key_index_insert(t.entries, last, n);
        assert(full[i] == last);
        lemma_json_round_trip(jv, false);
        let ki = key_index(t2.entries, last);
        assert(t2.entries[ki].1 == n);
        assert(crate::traversal::spec_down(crate::traversal::AtView::Item(n), full, i + 1)
            == Ok::<Option<JsonView>, EditError>(Some(jv)));
    } else {
        assert(full[i] == path[i]);
        let ki = key_index(t.entries, path[i]);
        lemma_key_index(t.entries, path[i]);
        let backup = crate::field_finder::spec_backup_node(path, i, last);
        let child = if ki < 0 {
            backup
        } else if t.entries[ki].1 is Absent {
            backup
        } else {
            t.entries[ki].1
        };
        let entries1 = if ki < 0 {
            t.entries.push((path[i], child))
        } else {
            t.entries.update(ki, (path[i], child))
        };
        let ki2 = if ki < 0 {
            t.entries.len() as int
        } else {
            ki
        };
        lp5_node(child, path, i + 1, last, jv);
        let n2 = crate::adder::spec_add_in_node(child, path, i + 1, last, jv)->Ok_0;
        assert(t2.entries == entries1.update(ki2, (path[i], n2)));
        if ki < 0 {
            assert forall|j: int| 0 <= j < t.entries.len() implies (#[trigger] t2.entries[j]).0
                == t.entries[j].0 by {}
            lemma_key_index_first(t2.entries, path[i], ki2);
        } else {
            assert forall|j: int| 0 <= j < t.entries.len() implies (#[trigger] t2.entries[j]).0
                == t.entries[j].0 by {}
            lemma_key_index_keys(t2.entries, t.entries, path[i]);
        }
        assert(key_index(t2.entries, full[i]) == ki2);
        assert(t2.entries[ki2].1 == n2);
        assert(crate::traversal::spec_down(crate::traversal::AtView::Item(n2), full, i + 1)
            == Ok::<Option<JsonView>, EditError>(Some(jv)));
    }
}

proof fn lp5_node(n: NodeView, path: Seq<Seq<char>>, i: int, last: Seq<char>, jv: JsonView)
    requires
        wf_json(jv),
        0 <= i <= path.len(),
        crate::adder::spec_add_in_node(n, path, i, last, jv) is Ok,
    ensures
        crate::traversal::spec_down(
            crate::traversal::AtView::Item(
                crate::adder::spec_add_in_node(n, path, i, last, jv)->Ok_0,
            ),
            path.push(last),
            i,
        ) == Ok::<Option<JsonView>, EditError>(Some(jv)),
    decreases path.len() - i, 4int,
{
    match n {
        NodeView::Table(t) => {
            lp5_table(t, path, i, last, jv);
        },
        NodeView::Value(v) => {
            lp5_value(v, path, i, last, jv);
        },
        NodeView::ArrayOfTables(ts) => {
            lp5_aot(ts, path, i, last, jv);
        },
        NodeView::Absent => {},
    }
}

proof fn lp5_value(v: ValueView, path: Seq<Seq<char>>, i: int, last: Seq<char>, jv: JsonView)
    requires
        wf_json(jv),
        0 <= i <= path.len(),
        crate::adder::spec_add_in_value(v, path, i, last, jv) is Ok,
    ensures
        crate::traversal::spec_down(
            crate::traversal::AtView::Value(
                crate::adder::spec_add_in_value(v, path, i, last, jv)->Ok_0,
            ),
            path.push(last),
            i,
        ) == Ok::<Option<JsonView>, EditError>(Some(jv)),
    decreases path.len() - i, 2int,
{
    match v {
        ValueView::Array(a) => {
            lp5_array(a, path, i, last, jv);
        },
        ValueView::InlineTable(m) => {
            lp5_inline(m, path, i, last, jv);
        },
        _ => {},
    }
}

proof fn lp5_array(a: Seq<ValueView>, path: Seq<Seq<char>>, i: int, last: Seq<char>, jv: JsonView)
    requires
        wf_json(jv),
        0 <= i <= path.len(),
        crate::adder::spec_add_in_array(a, path, i, last, jv) is Ok,
    ensures
        crate::traversal::spec_down(
            crate::traversal::AtView::Array(
                crate::adder::spec_add_in_array(a, path, i, last, jv)->Ok_0,
            ),
            path.push(last),
            i,
        ) == Ok::<Option<JsonView>, EditError>(Some(jv)),
    decreases path.len() - i, 1int,
{
    let full = path.push(last);
    let a2 = crate::adder::spec_add_in_array(a, path, i, last, jv)->Ok_0;
    if i >= path.len() {
        let n = spec_json_to_toml(jv, true)->Ok_0;
        let idx = crate::paths::spec_parse_index(last)->0;
        assert(full[i] == last);
        assert(n is Value);
        assert(a2[idx] == n->Value_0);
        lemma_json_round_trip(jv, true);
        assert(idx < a2.len());
        assert(crate::traversal::spec_down(
            crate::traversal::AtView::Value(a2[idx]),
            full,
            i + 1,
        ) == Ok::<Option<JsonView>, EditError>(Some(jv))) by {
            assert(crate::traversal::spec_value_to_json(n->Value_0) == Ok::<JsonView, EditError>(
                jv,
            ));
        }
    } else {
        assert(full[i] == path[i]);
        let idx = crate::paths::spec_parse_index(path[i])->0;
        let a1 = if idx == a.len() {
            a.push(crate::field_finder::spec_last_field_container(last))
        } else {
            a
        };
        lp5_value(a1[idx], path, i + 1, last, jv);
        let v2 = crate::adder::spec_add_in_value(a1[idx], path, i + 1, last, jv)->Ok_0;
        assert(a2 == a1.update(idx, v2));
        assert(a2[idx] == v2);
        assert(idx < a2.len());
        assert(crate::traversal::spec_down(
            crate::traversal::AtView::Value(v2),
            full,
            i + 1,
        ) == Ok::<Option<JsonView>, EditError>(Some(jv)));
    }
}

proof fn lp5_inline(
    m: Seq<(Seq<char>, ValueView)>,
    path: Seq<Seq<char>>,
    i: int,
    last: Seq<char>,
    jv: JsonView,
)
    requires
        wf_json(jv),
        0 <= i <= path.len(),
        crate::adder::spec_add_in_inline(m, path, i, last, jv) is Ok,
    ensures
        crate::traversal::spec_down(
            crate::traversal::AtView::Value(
                ValueView::InlineTable(
                    crate::adder::spec_add_in_inline(m, path, i, last, jv)->Ok_0,
                ),
            ),
            path.push(last),
            i,
        ) == Ok::<Option<JsonView>, EditError>(Some(jv)),
    decreases path.len() - i, 1int,
{
    let full = path.push(last);
    let m2 = crate::adder::spec_add_in_inline(m, path, i, last, jv)->Ok_0;
    if i >= path.len() {
        let n = spec_json_to_toml(jv, true)->Ok_0;
        assert(n is Value);
        assert(m2 == entries_insert(m, last, n->Value_0));
        lemma_key_index_insert(m, last, n->Value_0);
        assert(full[i] == last);
        lemma_json_round_trip(jv, true);
        let ki = key_index(m2, last);
        assert(m2[ki].1 == n->Value_0);
        assert(crate::traversal::spec_down(
            crate::traversal::AtView::Value(m2[ki].1),
            full,
            i + 1,
        ) == Ok::<Option<JsonView>, EditError>(Some(jv))) by {
            assert(crate::traversal::spec_value_to_json(n->Value_0) == Ok::<JsonView, EditError>(
                jv,
            ));
        }
    } else {
        assert(full[i] == path[i]);
        let ki = key_index(m, path[i]);
        lemma_key_index(m, path[i]);
        let m1 = if ki < 0 {
            m.push((path[i], crate::field_finder::spec_last_field_container(last)))
        } else {
            m
        };
        let ki2 = if ki < 0 {
            m.len() as int
        } else {
            ki
        };
        lp5_value(m1[ki2].1, path, i + 1, last, jv);
        let v2 = crate::adder::spec_add_in_value(m1[ki2].1, path, i + 1, last, jv)->Ok_0;
        assert(m2 == m1.update(ki2, (path[i], v2)));
        if ki < 0 {
            assert forall|j: int| 0 <= j < m.len() implies (#[trigger] m2[j]).0 == m[j].0 by {}
            lemma_key_index_first(m2, path[i], ki2);
        } else {
            assert forall|j: int| 0 <= j < m.len() implies (#[trigger] m2[j]).0 == m[j].0 by {}
            lemma_key_index_keys(m2, m, path[i]);
        }
        assert(key_index(m2, full[i]) == ki2);
        assert(m2[ki2].1 == v2);
        assert(crate::traversal::spec_down(
            crate::traversal::AtView::Value(v2),
            full,
            i + 1,
        ) == Ok::<Option<JsonView>, EditError>(Some(jv)));
    }
}

proof fn lp5_aot(ts: Seq<TableView>, path: Seq<Seq<char>>, i: int, last: Seq<char>, jv: JsonView)
    requires
        wf_json(jv),
        0 <= i <= path.len(),
        crate::adder::spec_add_in_aot(ts, path, i, last, jv) is Ok,
    ensures
        crate::traversal::spec_down(
            crate::traversal::AtView::ArrayOfTables(
                crate::adder::spec_add_in_aot(ts, path, i, last, jv)->Ok_0,
            ),
            path.push(last),
            i,
        ) == Ok::<Option<JsonView>, EditError>(Some(jv)),
    decreases path.len() - i, 1int,
{
    let full = path.push(last);
    let ts2 = crate::adder::spec_add_in_aot(ts, path, i, last, jv)->Ok_0;
    if i >= path.len() {
        let n = spec_json_to_toml(jv, false)->Ok_0;
        let idx = crate::paths::spec_parse_index(last)->0;
        assert(full[i] == last);
        assert(n is Table);
        assert(ts2[idx] == n->Table_0);
        lemma_json_round_trip(jv, false);
        assert(idx < ts2.len());
        assert(crate::traversal::spec_down(
            crate::traversal::AtView::Table(ts2[idx]),
            full,
            i + 1,
        ) == Ok::<Option<JsonView>, EditError>(Some(jv))) by {
            assert(crate::traversal::spec_table_to_json(n->Table_0) == Ok::<JsonView, EditError>(
                jv,
            ));
        }
    } else {
        assert(full[i] == path[i]);
        let idx = crate::paths::spec_parse_index(path[i])->0;
        let ts1 = if idx == ts.len() {
            ts.push(TableView { entries: Seq::empty(), dotted: false })
        } else {
            ts
        };
        lp5_table(ts1[idx], path, i + 1, last, jv);
        let t2 = crate::adder::spec_add_in_table(ts1[idx], path, i + 1, last, jv)->Ok_0;
        assert(ts2 == ts1.update(idx, t2));
        assert(ts2[idx] == t2);
        assert(idx < ts2.len());
        assert(crate::traversal::spec_down(
            crate::traversal::AtView::Table(t2),
            full,
            i + 1,
        ) == Ok::<Option<JsonView>, EditError>(Some(jv)));
    }
}

/// Add-then-get on the same path: a simple-mode add that succeeds makes a
/// get on that path return a JSON value structurally equal to the one
/// added — integers staying integers — whatever structure the add had to
/// materialize on the way.
pub proof fn lemma_add_then_get(root: TableView, p: Seq<char>, jv: JsonView)
    requires
        wf_json(jv),
        crate::adder::spec_add_in_table(
            root,
            spec_split(p).drop_last(),
            0,
            spec_split(p).last(),
            jv,
        ) is Ok,
    ensures
        crate::traversal::spec_traverse(
            crate::adder::spec_add_in_table(
                root,
                spec_split(p).drop_last(),
                0,
                spec_split(p).last(),
                jv,
            )->Ok_0,
            spec_split(p),
        ) == Ok::<Option<JsonView>, EditError>(Some(jv)),
{
    let segs = spec_split(p);
    crate::paths::lemma_split_len(p);
    let parent = segs.drop_last();
    let last = segs.last();
    lp5_table(root, parent, 0, last, jv);
    assert(parent.push(last) =~= segs);
    let r1 = crate::adder::spec_add_in_table(root, parent, 0, last, jv)->Ok_0;
    assert(crate::traversal::spec_down(crate::traversal::AtView::Table(r1), segs, 0) == Ok::<
        Option<JsonView>,
        EditError,
    >(Some(jv)));
    lemma_key_index(r1.entries, segs[0]);
}

/// The container the remove engine's parent path names, reached by the
/// same descent the engine makes and read without changing anything.
pub open spec fn spec_remove_parent_table(
    t: TableView,
    path: Seq<Seq<char>>,
    i: int,
) -> Option<crate::field_finder::TomlValueView>
    decreases path.len() - i, 3int,
{
    if i < 0 || i >= path.len() {
        Some(crate::field_finder::TomlValueView::Table(t))
    } else {
        let ki = key_index(t.entries, path[i]);
        if ki < 0 {
            Option::None
        } else {
            spec_remove_parent_node(t.entries[ki].1, path, i + 1)
        }
    }
}

pub open spec fn spec_remove_parent_node(
    n: NodeView,
    path: Seq<Seq<char>>,
    i: int,
) -> Option<crate::field_finder::TomlValueView>
    decreases path.len() - i, 4int,
{
    match n {
        NodeView::Table(t) => spec_remove_parent_table(t, path, i),
        NodeView::Value(v) => spec_remove_parent_value(v, path, i),
        NodeView::ArrayOfTables(ts) => spec_remove_parent_aot(ts, path, i),
        NodeView::Absent => Option::None,
    }
}

pub open spec fn spec_remove_parent_value(
    v: ValueView,
    path: Seq<Seq<char>>,
    i: int,
) -> Option<crate::field_finder::TomlValueView>
    decreases path.len() - i, 2int,
{
    match v {
        ValueView::Array(a) => spec_remove_parent_array(a, path, i),
        ValueView::InlineTable(m) => spec_remove_parent_inline(m, path, i),
        _ => {
            if i >= path.len() {
                Some(crate::field_finder::TomlValueView::Value(v))
            } else {
                Option::None
            }
        },
    }
}

pub open spec fn spec_remove_parent_array(
    a: Seq<ValueView>,
    path: Seq<Seq<char>>,
    i: int,
) -> Option<crate::field_finder::TomlValueView>
    decreases path.len() - i, 1int,
{
    if i < 0 || i >= path.len() {
        Some(crate::field_finder::TomlValueView::Array(a))
    } else {
        match crate::paths::spec_parse_index(path[i]) {
            Some(idx) => if 0 <= idx < a.len() {
                spec_remove_parent_value(a[idx], path, i + 1)
            } else {
                Option::None
            },
            Option::None => Option::None,
        }
    }
}

pub open spec fn spec_remove_parent_inline(
    m: Seq<(Seq<char>, ValueView)>,
    path: Seq<Seq<char>>,
    i: int,
) -> Option<crate::field_finder::TomlValueView>
    decreases path.len() - i, 1int,
{
    if i < 0 || i >= path.len() {
        Some(crate::field_finder::TomlValueView::InlineTable(m))
    } else {
        let ki = key_index(m, path[i]);
        if ki < 0 {
            Option::None
        } else {
            spec_remove_parent_value(m[ki].1, path, i + 1)
        }
    }
}

pub open spec fn spec_remove_parent_aot(
    ts: Seq<TableView>,
    path: Seq<Seq<char>>,
    i: int,
) -> Option<crate::field_finder::TomlValueView>
    decreases path.len() - i, 1int,
{
    if i < 0 || i >= path.len() {
        Some(crate::field_finder::TomlValueView::ArrayOfTables(ts))
    } else {
        match crate::paths::spec_parse_index(path[i]) {
            Some(idx) => if 0 <= idx < ts.len() {
                spec_remove_parent_table(ts[idx], path, i + 1)
            } else {
                Option::None
            },
            Option::None => Option::None,
        }
    }
}

/// Whether the resolved parent is a keyed container.
pub open spec fn parent_is_keyed(pv: crate::field_finder::TomlValueView) -> bool {
    pv is Table || pv is InlineTable
}

/// The parent after the removal of `last` inside it.
pub open spec fn parent_after_remove(
    pv: crate::field_finder::TomlValueView,
    last: Seq<char>,
) -> crate::field_finder::TomlValueView {
    match pv {
        crate::field_finder::TomlValueView::Table(pt) => crate::field_finder::TomlValueView::Table(
            TableView { entries: entries_remove(pt.entries, last), dotted: pt.dotted },
        ),
        crate::field_finder::TomlValueView::InlineTable(pm) =>
            crate::field_finder::TomlValueView::InlineTable(entries_remove(pm, last)),
        other => other,
    }
}

/// Whether removing `last` at the resolved parent takes nothing out.
pub open spec fn remove_hits_nothing(
    pv: crate::field_finder::TomlValueView,
    last: Seq<char>,
) -> bool {
    match pv {
        crate::field_finder::TomlValueView::Table(pt) => key_index(pt.entries, last) < 0,
        crate::field_finder::TomlValueView::InlineTable(pm) => key_index(pm, last) < 0,
        _ => false,
    }
}

proof fn lr_table(t: TableView, path: Seq<Seq<char>>, i: int, last: Seq<char>)
    requires
        spec_remove_parent_table(t, path, i) matches Some(pv) && parent_is_keyed(pv),
    ensures
        spec_remove_from_table(t, path, i, last) matches Ok(t2) && {
            &&& spec_remove_parent_table(t2, path, i) == Some(
                parent_after_remove(spec_remove_parent_table(t, path, i)->0, last),
            )
            &&& (remove_hits_nothing(spec_remove_parent_table(t, path, i)->0, last) ==> t2 == t)
        },
    decreases path.len() - i, 3int,
{
    let pv = spec_remove_parent_table(t, path, i)->0;
    if i < 0 || i >= path.len() {
        let t2 = TableView { entries: entries_remove(t.entries, last), dotted: t.dotted };
        if remove_hits_nothing(pv, last) {
            assert(t2 =~= t);
        }
    } else {
        let ki = key_index(t.entries, path[i]);
        lemma_key_index(t.entries, path[i]);
        lr_node(t.entries[ki].1, path, i + 1, last);
        let n2 = spec_remove_from_node(t.entries[ki].1, path, i + 1, last)->Ok_0;
        let t2 = spec_remove_from_table(t, path, i, last)->Ok_0;
        assert(t2.entries == t.entries.update(ki, (path[i], n2)));
        assert forall|j: int| 0 <= j < t.entries.len() implies (#[trigger] t2.entries[j]).0
            == t.entries[j].0 by {}
        lemma_key_index_keys(t2.entries, t.entries, path[i]);
        if remove_hits_nothing(pv, last) {
            assert(n2 == t.entries[ki].1);
            assert(t2.entries =~= t.entries);
            assert(t2 =~= t);
        }
    }
}

proof fn lr_node(n: NodeView, path: Seq<Seq<char>>, i: int, last: Seq<char>)
    requires
        spec_remove_parent_node(n, path, i) matches Some(pv) && parent_is_keyed(pv),
    ensures
        spec_remove_from_node(n, path, i, last) matches Ok(n2) && {
            &&& spec_remove_parent_node(n2, path, i) == Some(
                parent_after_remove(spec_remove_parent_node(n, path, i)->0, last),
            )
            &&& (remove_hits_nothing(spec_remove_parent_node(n, path, i)->0, last) ==> n2 == n)
        },
    decreases path.len() - i, 4int,
{
    match n {
        NodeView::Table(t) => {
            lr_table(t, path, i, last);
        },
        NodeView::Value(v) => {
            lr_value(v, path, i, last);
        },
        NodeView::ArrayOfTables(ts) => {
            lr_aot(ts, path, i, last);
        },
        NodeView::Absent => {},
    }
}

proof fn lr_value(v: ValueView, path: Seq<Seq<char>>, i: int, last: Seq<char>)
    requires
        spec_remove_parent_value(v, path, i) matches Some(pv) && parent_is_keyed(pv),
    ensures
        crate::remover::spec_remove_from_value(v, path, i, last) matches Ok(v2) && {
            &&& spec_remove_parent_value(v2, path, i) == Some(
                parent_after_remove(spec_remove_parent_value(v, path, i)->0, last),
            )
            &&& (remove_hits_nothing(spec_remove_parent_value(v, path, i)->0, last) ==> v2 == v)
        },
    decreases path.len() - i, 2int,
{
    match v {
        ValueView::Array(a) => {
            lr_array(a, path, i, last);
        },
        ValueView::InlineTable(m) => {
            lr_inline(m, path, i, last);
        },
        _ => {},
    }
}

proof fn lr_array(a: Seq<ValueView>, path: Seq<Seq<char>>, i: int, last: Seq<char>)
    requires
        spec_remove_parent_array(a, path, i) matches Some(pv) && parent_is_keyed(pv),
    ensures
        crate::remover::spec_remove_from_array(a, path, i, last) matches Ok(a2) && {
            &&& spec_remove_parent_array(a2, path, i) == Some(
                parent_after_remove(spec_remove_parent_array(a, path, i)->0, last),
            )
            &&& (remove_hits_nothing(spec_remove_parent_array(a, path, i)->0, last) ==> a2 == a)
        },
    decreases path.len() - i, 1int,
{
    let pv = spec_remove_parent_array(a, path, i)->0;
    if 0 <= i < path.len() {
        let idx = crate::paths::spec_parse_index(path[i])->0;
        lr_value(a[idx], path, i + 1, last);
        let v2 = crate::remover::spec_remove_from_value(a[idx], path, i + 1, last)->Ok_0;
        let a2 = a.update(idx, v2);
        if remove_hits_nothing(pv, last) {
            assert(v2 == a[idx]);
            assert(a2 =~= a);
        }
    }
}

proof fn lr_inline(m: Seq<(Seq<char>, ValueView)>, path: Seq<Seq<char>>, i: int, last: Seq<char>)
    requires
        spec_remove_parent_inline(m, path, i) matches Some(pv) && parent_is_keyed(pv),
    ensures
        crate::remover::spec_remove_from_inline(m, path, i, last) matches Ok(m2) && {
            &&& spec_remove_parent_inline(m2, path, i) == Some(
                parent_after_remove(spec_remove_parent_inline(m, path, i)->0, last),
            )
            &&& (remove_hits_nothing(spec_remove_parent_inline(m, path, i)->0, last) ==> m2 == m)
        },
    decreases path.len() - i, 1int,
{
    let pv = spec_remove_parent_inline(m, path, i)->0;
    if 0 <= i < path.len() {
        let ki = key_index(m, path[i]);
        lemma_key_index(m, path[i]);
        lr_value(m[ki].1, path, i + 1, last);
        let v2 = crate::remover::spec_remove_from_value(m[ki].1, path, i + 1, last)->Ok_0;
        let m2 = m.update(ki, (path[i], v2));
        assert forall|j: int| 0 <= j < m.len() implies (#[trigger] m2[j]).0 == m[j].0 by {}
        lemma_key_index_keys(m2, m, path[i]);
        if remove_hits_nothing(pv, last) {
            assert(v2 == m[ki].1);
            assert(m2 =~= m);
        }
    }
}

proof fn lr_aot(ts: Seq<TableView>, path: Seq<Seq<char>>, i: int, last: Seq<char>)
    requires
        spec_remove_parent_aot(ts, path, i) matches Some(pv) && parent_is_keyed(pv),
    ensures
        crate::remover::spec_remove_from_aot(ts, path, i, last) matches Ok(ts2) && {
            &&& spec_remove_parent_aot(ts2, path, i) == Some(
                parent_after_remove(spec_remove_parent_aot(ts, path, i)->0, last),
            )
            &&& (remove_hits_nothing(spec_remove_parent_aot(ts, path, i)->0, last) ==> ts2 == ts)
        },
    decreases path.len() - i, 1int,
{
    let pv = spec_remove_parent_aot(ts, path, i)->0;
    if 0 <= i < path.len() {
        let idx = crate::paths::spec_parse_index(path[i])->0;
        lr_table(ts[idx], path, i + 1, last);
        let t2 = spec_remove_from_table(ts[idx], path, i + 1, last)->Ok_0;
        let ts2 = ts.update(idx, t2);
        if remove_hits_nothing(pv, last) {
            assert(t2 == ts[idx]);
            assert(ts2 =~= ts);
        }
    }
}

/// With unique keys, a removed key cannot be found again.
proof fn lemma_key_index_after_remove<T>(s: Seq<(Seq<char>, T)>, k: Seq<char>)
    requires
        unique_keys(s),
    ensures
        key_index(entries_remove(s, k), k) < 0,
{
    lemma_key_index(s, k);
    let ki = key_index(s, k);
    if ki >= 0 {
        let s2 = s.remove(ki);
        lemma_key_index(s2, k);
        let p = key_index(s2, k);
        if p >= 0 {
            if p < ki {
                assert(s2[p] == s[p]);
            } else {
                assert(s2[p] == s[p + 1]);
            }
        }
    }
}

/// Removing a path whose last segment names nothing in the keyed container
/// the parent path resolves to is a no-op that reports success.
pub proof fn lemma_remove_missing_is_noop(root: TableView, field: Seq<char>)
    requires
        spec_remove_parent_table(root, spec_split(field).drop_last(), 0) matches Some(pv) && {
            &&& parent_is_keyed(pv)
            &&& remove_hits_nothing(pv, spec_split(field).last())
        },
    ensures
        spec_handle_remove(root, field) == Ok::<TableView, EditError>(root),
{
    lr_table(root, spec_split(field).drop_last(), 0, spec_split(field).last());
}

/// Removing the same path twice, where the parent resolves to a keyed
/// container with unique keys: the first removal deletes, and the second is
/// then a no-op on the document it produced.
pub proof fn lemma_remove_twice(root: TableView, field: Seq<char>)
    requires
        spec_remove_parent_table(root, spec_split(field).drop_last(), 0) matches Some(pv) && {
            &&& parent_is_keyed(pv)
            &&& (pv is Table ==> unique_keys(pv->Table_0.entries))
            &&& (pv is InlineTable ==> unique_keys(pv->InlineTable_0))
        },
    ensures
        spec_handle_remove(root, field) matches Ok(r1) && spec_handle_remove(r1, field) == Ok::<
            TableView,
            EditError,
        >(r1),
{
    let parent = spec_split(field).drop_last();
    let last = spec_split(field).last();
    let pv = spec_remove_parent_table(root, parent, 0)->0;
    lr_table(root, parent, 0, last);
    let r1 = spec_remove_from_table(root, parent, 0, last)->Ok_0;
    assert(spec_remove_parent_table(r1, parent, 0) == Some(parent_after_remove(pv, last)));
    match pv {
        crate::field_finder::TomlValueView::Table(pt) => {
            lemma_key_index_after_remove(pt.entries, last);
        },
        crate::field_finder::TomlValueView::InlineTable(pm) => {
            lemma_key_index_after_remove(pm, last);
        },
        _ => {},
    }
    lr_table(r1, parent, 0, last);
}

/// Whether a creating resolution reached a plain scalar: either as the
/// resolved parent itself, or by hitting one with segments remaining.
pub open spec fn resolution_hits_scalar<C>(
    r: Result<(C, crate::field_finder::TomlValueView), EditError>,
) -> bool {
    match r {
        Ok((_, pv)) => pv is Value,
        Err(e) => e is TypeMismatch,
    }
}

proof fn l8_table(t: TableView, path: Seq<Seq<char>>, i: int, last: Seq<char>, jv: JsonView)
    requires
        resolution_hits_scalar(crate::field_finder::spec_find_in_table(t, path, i, last, true)),
        spec_json_to_toml(jv, true) is Ok,
    ensures
        crate::adder::spec_add_in_table(t, path, i, last, jv) == Err::<TableView, EditError>(
            EditError::TypeMismatch,
        ),
    decreases path.len() - i, 3int,
{
    if i < 0 || i >= path.len() {
        // The resolved parent is the table itself, never a scalar.
    } else {
        let ki = key_index(t.entries, path[i]);
        let backup = crate::field_finder::spec_backup_node(path, i, last);
        let child = if ki < 0 {
            backup
        } else if t.entries[ki].1 is Absent {
            backup
        } else {
            t.entries[ki].1
        };
        l8_node(child, path, i + 1, last, jv);
    }
}

proof fn l8_node(n: NodeView, path: Seq<Seq<char>>, i: int, last: Seq<char>, jv: JsonView)
    requires
        resolution_hits_scalar(crate::field_finder::spec_find_in_node(n, path, i, last, true)),
        spec_json_to_toml(jv, true) is Ok,
    ensures
        crate::adder::spec_add_in_node(n, path, i, last, jv) == Err::<NodeView, EditError>(
            EditError::TypeMismatch,
        ),
    decreases path.len() - i, 4int,
{
    match n {
        NodeView::Table(t) => {
            l8_table(t, path, i, last, jv);
        },
        NodeView::Value(v) => {
            l8_value(v, path, i, last, jv);
        },
        NodeView::ArrayOfTables(ts) => {
            l8_aot(ts, path, i, last, jv);
        },
        NodeView::Absent => {},
    }
}

proof fn l8_value(v: ValueView, path: Seq<Seq<char>>, i: int, last: Seq<char>, jv: JsonView)
    requires
        resolution_hits_scalar(crate::field_finder::spec_find_in_value(v, path, i, last, true)),
        spec_json_to_toml(jv, true) is Ok,
    ensures
        crate::adder::spec_add_in_value(v, path, i, last, jv) == Err::<ValueView, EditError>(
            EditError::TypeMismatch,
        ),
    decreases path.len() - i, 2int,
{
    match v {
        ValueView::Array(a) => {
            l8_array(a, path, i, last, jv);
        },
        ValueView::InlineTable(m) => {
            l8_inline(m, path, i, last, jv);
        },
        _ => {},
    }
}

proof fn l8_array(a: Seq<ValueView>, path: Seq<Seq<char>>, i: int, last: Seq<char>, jv: JsonView)
    requires
        resolution_hits_scalar(crate::field_finder::spec_find_in_array(a, path, i, last, true)),
        spec_json_to_toml(jv, true) is Ok,
    ensures
        crate::adder::spec_add_in_array(a, path, i, last, jv) == Err::<Seq<ValueView>, EditError>(
            EditError::TypeMismatch,
        ),
    decreases path.len() - i, 1int,
{
    if 0 <= i < path.len() {
        let idx = crate::paths::spec_parse_index(path[i])->0;
        let a1 = if idx == a.len() {
            a.push(crate::field_finder::spec_last_field_container(last))
        } else {
            a
        };
        l8_value(a1[idx], path, i + 1, last, jv);
    }
}

proof fn l8_inline(
    m: Seq<(Seq<char>, ValueView)>,
    path: Seq<Seq<char>>,
    i: int,
    last: Seq<char>,
    jv: JsonView,
)
    requires
        resolution_hits_scalar(crate::field_finder::spec_find_in_inline(m, path, i, last, true)),
        spec_json_to_toml(jv, true) is Ok,
    ensures
        crate::adder::spec_add_in_inline(m, path, i, last, jv) == Err::<
            Seq<(Seq<char>, ValueView)>,
            EditError,
        >(EditError::TypeMismatch),
    decreases path.len() - i, 1int,
{
    if 0 <= i < path.len() {
        let ki = key_index(m, path[i]);
        let m1 = if ki < 0 {
            m.push((path[i], crate::field_finder::spec_last_field_container(last)))
        } else {
            m
        };
        let ki2 = if ki < 0 {
            m.len() as int
        } else {
            ki
        };
        l8_value(m1[ki2].1, path, i + 1, last, jv);
    }
}

proof fn l8_aot(ts: Seq<TableView>, path: Seq<Seq<char>>, i: int, last: Seq<char>, jv: JsonView)
    requires
        resolution_hits_scalar(crate::field_finder::spec_find_in_aot(ts, path, i, last, true)),
        spec_json_to_toml(jv, true) is Ok,
    ensures
        crate::adder::spec_add_in_aot(ts, path, i, last, jv) == Err::<Seq<TableView>, EditError>(
            EditError::TypeMismatch,
        ),
    decreases path.len() - i, 1int,
{
    if 0 <= i < path.len() {
        let idx = crate::paths::spec_parse_index(path[i])->0;
        let ts1 = if idx == ts.len() {
            ts.push(TableView { entries: Seq::empty(), dotted: false })
        } else {
            ts
        };
        l8_table(ts1[idx], path, i + 1, last, jv);
    }
}

/// An add whose creating parent-path resolution reaches a plain scalar —
/// with segments remaining, or as the resolved parent itself — fails with
/// `TypeMismatch` whenever the value converts; the engine's contract then
/// leaves the document unmodified.
pub proof fn lemma_add_at_scalar_location(root: TableView, p: Seq<char>, jv: JsonView)
    requires
        resolution_hits_scalar(
            crate::field_finder::spec_get_field(
                root,
                spec_split(p).drop_last(),
                spec_split(p).last(),
                true,
            ),
        ),
        spec_json_to_toml(jv, true) is Ok,
    ensures
        crate::adder::spec_add_in_table(
            root,
            spec_split(p).drop_last(),
            0,
            spec_split(p).last(),
            jv,
        ) == Err::<TableView, EditError>(EditError::TypeMismatch),
{
    l8_table(root, spec_split(p).drop_last(), 0, spec_split(p).last(), jv);
}

} // verus!
