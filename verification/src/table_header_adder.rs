//! The table-header + dotted-path addressing mode of the add engine.
//!
//! The header path is realized as nested block tables: each intermediate
//! segment is marked dotted only when more header segments follow, missing
//! tables are created, a scalar on the way is a type error, and an array of
//! tables on the way accepts only an append under the array-of-tables
//! sentinel. At the end of the header with no dotted path the value must be
//! table-shaped: under the sentinel it is appended as a new array-of-tables
//! entry, otherwise it is installed as the final block table, over whatever
//! table stood there. A dotted path instead descends as nested dotted keys:
//! missing intermediates become dotted tables, a scalar at the final key is
//! overwritten, and under the append sentinel the value is pushed onto the
//! array already standing at that key.

use vstd::prelude::*;

use crate::model::{
    entries_insert, key_index, lemma_key_index, node_view, table_view, tables_view,
    value_entries_view, value_view, values_view, EditError, NodeView, TableView,
    TomlNode, TomlTable, Value, ValueView,
};

verus! {

broadcast use vstd::std_specs::vec::group_vec_axioms, vstd::seq::group_seq_axioms;

/// The block table an inline table turns into: each member becomes a
/// scalar-valued entry.
pub open spec fn spec_inline_into_table(m: Seq<(Seq<char>, ValueView)>) -> TableView {
    TableView {
        entries: Seq::new(
            m.len(),
            |i: int|
                if 0 <= i < m.len() {
                    (m[i].0, NodeView::Value(m[i].1))
                } else {
                    (Seq::empty(), NodeView::Absent)
                },
        ),
        dotted: false,
    }
}

/// Descent over the dotted path inside the final header table.
pub open spec fn spec_add_dotted(
    t: TableView,
    dp: Seq<Seq<char>>,
    i: int,
    val: NodeView,
    append: bool,
) -> Result<TableView, EditError>
    decreases dp.len() - i,
{
    if i < 0 || i >= dp.len() {
        Ok(t)
    } else {
        let ki = key_index(t.entries, dp[i]);
        let missing = ki < 0 || t.entries[ki].1 is Absent;
        if missing {
            if i < dp.len() - 1 {
                let inner0 = TableView { entries: Seq::empty(), dotted: true };
                match spec_add_dotted(inner0, dp, i + 1, val, append) {
                    Ok(inner2) => Ok(
                        TableView {
                            entries: entries_insert(t.entries, dp[i], NodeView::Table(inner2)),
                            dotted: t.dotted,
                        },
                    ),
                    Err(e) => Err(e),
                }
            } else if append {
                match val {
                    NodeView::Value(v) => Ok(
                        TableView {
                            entries: entries_insert(
                                t.entries,
                                dp[i],
                                NodeView::Value(ValueView::Array(seq![v])),
                            ),
                            dotted: t.dotted,
                        },
                    ),
                    _ => Err(EditError::TypeMismatch),
                }
            } else {
                Ok(
                    TableView {
                        entries: entries_insert(t.entries, dp[i], val),
                        dotted: t.dotted,
                    },
                )
            }
        } else {
            match t.entries[ki].1 {
                NodeView::Table(inner) => {
                    if i < dp.len() - 1 {
                        let inner1 = TableView { entries: inner.entries, dotted: true };
                        match spec_add_dotted(inner1, dp, i + 1, val, append) {
                            Ok(inner2) => Ok(
                                TableView {
                                    entries: t.entries.update(
                                        ki,
                                        (dp[i], NodeView::Table(inner2)),
                                    ),
                                    dotted: t.dotted,
                                },
                            ),
                            Err(e) => Err(e),
                        }
                    } else if append {
                        Err(EditError::TypeMismatch)
                    } else {
                        Ok(
                            TableView {
                                entries: entries_insert(t.entries, dp[i], val),
                                dotted: t.dotted,
                            },
                        )
                    }
                },
                NodeView::Value(existing) => {
                    if i < dp.len() - 1 {
                        Err(EditError::TypeMismatch)
                    } else if append {
                        match existing {
                            ValueView::Array(arr) => match val {
                                NodeView::Value(nv) => Ok(
                                    TableView {
                                        entries: t.entries.update(
                                            ki,
                                            (dp[i], NodeView::Value(ValueView::Array(arr.push(nv)))),
                                        ),
                                        dotted: t.dotted,
                                    },
                                ),
                                _ => Err(EditError::TypeMismatch),
                            },
                            _ => Err(EditError::TypeMismatch),
                        }
                    } else {
                        Ok(
                            TableView {
                                entries: entries_insert(t.entries, dp[i], val),
                                dotted: t.dotted,
                            },
                        )
                    }
                },
                NodeView::ArrayOfTables(_) => Err(EditError::TypeMismatch),
                NodeView::Absent => Err(EditError::TypeMismatch),
            }
        }
    }
}

/// Descent over the header path, then the dotted path.
pub open spec fn spec_add_with_header(
    t: TableView,
    hdr: Seq<Seq<char>>,
    i: int,
    dotted: Option<Seq<Seq<char>>>,
    val: NodeView,
    aot: bool,
    append: bool,
) -> Result<TableView, EditError>
    decreases hdr.len() - i,
{
    if i < 0 || i >= hdr.len() {
        match dotted {
            Some(dp) => spec_add_dotted(t, dp, 0, val, append),
            Option::None => Err(EditError::MalformedOp),
        }
    } else {
        let ki = key_index(t.entries, hdr[i]);
        let missing = ki < 0 || t.entries[ki].1 is Absent;
        if missing {
            if i < hdr.len() - 1 || dotted is Some {
                let inner0 = TableView { entries: Seq::empty(), dotted: i < hdr.len() - 1 };
                match spec_add_with_header(inner0, hdr, i + 1, dotted, val, aot, append) {
                    Ok(inner2) => Ok(
                        TableView {
                            entries: entries_insert(t.entries, hdr[i], NodeView::Table(inner2)),
                            dotted: t.dotted,
                        },
                    ),
                    Err(e) => Err(e),
                }
            } else {
                match val {
                    NodeView::Value(ValueView::InlineTable(it)) => {
                        let new_table = spec_inline_into_table(it);
                        if aot {
                            Ok(
                                TableView {
                                    entries: entries_insert(
                                        t.entries,
                                        hdr[i],
                                        NodeView::ArrayOfTables(seq![new_table]),
                                    ),
                                    dotted: t.dotted,
                                },
                            )
                        } else {
                            Ok(
                                TableView {
                                    entries: entries_insert(
                                        t.entries,
                                        hdr[i],
                                        NodeView::Table(new_table),
                                    ),
                                    dotted: t.dotted,
                                },
                            )
                        }
                    },
                    _ => Err(EditError::TypeMismatch),
                }
            }
        } else {
            match t.entries[ki].1 {
                NodeView::Table(inner) => {
                    if i == hdr.len() - 1 && dotted is None && !aot {
                        // The header ends at an existing block table and no
                        // dotted path follows: the table-shaped value is
                        // installed over it.
                        match val {
                            NodeView::Value(ValueView::InlineTable(it)) => Ok(
                                TableView {
                                    entries: t.entries.update(
                                        ki,
                                        (hdr[i], NodeView::Table(spec_inline_into_table(it))),
                                    ),
                                    dotted: t.dotted,
                                },
                            ),
                            _ => Err(EditError::TypeMismatch),
                        }
                    } else {
                        let inner1 = TableView {
                            entries: inner.entries,
                            dotted: i < hdr.len() - 1,
                        };
                        match spec_add_with_header(inner1, hdr, i + 1, dotted, val, aot, append) {
                            Ok(inner2) => Ok(
                                TableView {
                                    entries: t.entries.update(
                                        ki,
                                        (hdr[i], NodeView::Table(inner2)),
                                    ),
                                    dotted: t.dotted,
                                },
                            ),
                            Err(e) => Err(e),
                        }
                    }
                },
                NodeView::Value(_) => Err(EditError::TypeMismatch),
                NodeView::ArrayOfTables(ts) => {
                    match val {
                        NodeView::Value(ValueView::InlineTable(it)) => {
                            if aot {
                                Ok(
                                    TableView {
                                        entries: t.entries.update(
                                            ki,
                                            (
                                                hdr[i],
                                                NodeView::ArrayOfTables(
                                                    ts.push(spec_inline_into_table(it)),
                                                ),
                                            ),
                                        ),
                                        dotted: t.dotted,
                                    },
                                )
                            } else {
                                Err(EditError::TypeMismatch)
                            }
                        },
                        _ => Err(EditError::TypeMismatch),
                    }
                },
                NodeView::Absent => Err(EditError::TypeMismatch),
            }
        }
    }
}

/// Turns an inline table into a block table, member by member.
fn inline_into_table(m: Vec<(String, Value)>) -> (r: TomlTable)
    ensures
        r@ == spec_inline_into_table(value_entries_view(m@)),
{
    let n = m.len();
    let mut entries: Vec<(String, TomlNode)> = Vec::new();
    let mut i: usize = 0;
    while i < n
        invariant
            n == m.len(),
            i <= n,
            entries@.len() == i,
            forall|j: int|
                0 <= j < i ==> (#[trigger] entries@[j]).0@ == m@[j].0@ && node_view(entries@[j].1)
                    == NodeView::Value(value_view(m@[j].1)),
        decreases n - i,
    {
        entries.push((m[i].0.clone(), TomlNode::Value(m[i].1.clone())));
        i += 1;
    }
    let r = TomlTable { entries, dotted: false };
    proof {
        assert(r@.entries =~= spec_inline_into_table(value_entries_view(m@)).entries);
    }
    r
}

fn add_dotted(
    t: TomlTable,
    dp: &Vec<String>,
    i: usize,
    val: TomlNode,
    append: bool,
) -> (r: Result<TomlTable, EditError>)
    requires
        i <= dp@.len(),
    ensures
        (match r {
            Ok(t2) => Ok::<TableView, EditError>(t2@),
            Err(e) => Err(e),
        }) == spec_add_dotted(t@, dp.deep_view(), i as int, val@, append),
    decreases dp@.len() - i,
{
    let ghost pv = dp.deep_view();
    let ghost valv = node_view(val);
    let n = dp.len();
    if i >= n {
        return Ok(t);
    }
    let key = &dp[i];
    proof {
        assert(pv[i as int] == dp@[i as int]@);
        lemma_key_index(t@.entries, key@);
    }
    let found = t.find_key(key);
    let mut tt = t;
    let ghost oldt = tt@;
    let missing = match found {
        Some(ki) => matches!(&tt.entries[ki].1, TomlNode::Absent),
        None => true,
    };
    if missing {
        if i < n - 1 {
            let inner0 = TomlTable { entries: Vec::new(), dotted: true };
            proof {
                assert(inner0@.entries =~= Seq::<(Seq<char>, NodeView)>::empty());
            }
            match add_dotted(inner0, dp, i + 1, val, append) {
                Ok(inner2) => {
                    tt.insert(key.clone(), TomlNode::Table(inner2));
                    proof {
                        assert(Ok::<TableView, EditError>(tt@) == spec_add_dotted(
                            oldt,
                            pv,
                            i as int,
                            valv,
                            append,
                        ));
                    }
                    Ok(tt)
                },
                Err(e) => Err(e),
            }
        } else if append {
            match val {
                TomlNode::Value(v) => {
                    let ghost vv = value_view(v);
                    let mut arr: Vec<Value> = Vec::new();
                    arr.push(v);
                    let node = TomlNode::Value(Value::Array(arr));
                    proof {
                        assert(node@ == NodeView::Value(ValueView::Array(seq![vv]))) by {
                            assert(values_view(arr@) =~= seq![vv]);
                        }
                    }
                    tt.insert(key.clone(), node);
                    proof {
                        assert(Ok::<TableView, EditError>(tt@) == spec_add_dotted(
                            oldt,
                            pv,
                            i as int,
                            valv,
                            append,
                        ));
                    }
                    Ok(tt)
                },
                other => {
                    proof {
                        assert(!(other@ is Value));
                    }
                    Err(EditError::TypeMismatch)
                },
            }
        } else {
            tt.insert(key.clone(), val);
            proof {
                assert(Ok::<TableView, EditError>(tt@) == spec_add_dotted(
                    oldt,
                    pv,
                    i as int,
                    valv,
                    append,
                ));
            }
            Ok(tt)
        }
    } else {
        let ki = match found {
            Some(ki) => ki,
            None => 0,
        };
        let (k0, existing) = tt.entries.remove(ki);
        match existing {
            TomlNode::Table(inner) => {
                proof {
                    assert(oldt.entries[ki as int].1 == NodeView::Table(table_view(inner)));
                }
                let ghost innerv = table_view(inner);
                if i < n - 1 {
                    let inner1 = TomlTable { entries: inner.entries, dotted: true };
                    let ghost inner1v = inner1@;
                    proof {
                        assert(inner1v.entries == innerv.entries);
                    }
                    match add_dotted(inner1, dp, i + 1, val, append) {
                        Ok(inner2) => {
                            let ghost inner2v = inner2@;
                            tt.entries.insert(ki, (k0, TomlNode::Table(inner2)));
                            proof {
                                assert(tt@.entries =~= oldt.entries.update(
                                    ki as int,
                                    (pv[i as int], NodeView::Table(inner2v)),
                                ));
                                let ki_s = key_index(oldt.entries, pv[i as int]);
                                assert(ki_s == ki as int);
                                assert(oldt.entries[ki_s].1 is Table);
                                let inner_s = oldt.entries[ki_s].1->Table_0;
                                assert(inner1v == (TableView { entries: inner_s.entries, dotted: true }));
                                assert(spec_add_dotted(inner1v, pv, i as int + 1, valv, append)
                                    == Ok::<TableView, EditError>(inner2v));
                                assert(Ok::<TableView, EditError>(tt@) == spec_add_dotted(
                                    oldt,
                                    pv,
                                    i as int,
                                    valv,
                                    append,
                                ));
                            }
                            Ok(tt)
                        },
                        Err(e) => Err(e),
                    }
                } else if append {
                    Err(EditError::TypeMismatch)
                } else {
                    tt.entries.insert(ki, (k0, TomlNode::Table(inner)));
                    proof {
                        assert(tt@.entries =~= oldt.entries);
                    }
                    tt.insert(key.clone(), val);
                    proof {
                        assert(Ok::<TableView, EditError>(tt@) == spec_add_dotted(
                            oldt,
                            pv,
                            i as int,
                            valv,
                            append,
                        ));
                    }
                    Ok(tt)
                }
            },
            TomlNode::Value(existing_v) => {
                if i < n - 1 {
                    Err(EditError::TypeMismatch)
                } else if append {
                    match existing_v {
                        Value::Array(arr) => match val {
                            TomlNode::Value(nv) => {
                                let ghost av = values_view(arr@);
                                let ghost nvv = value_view(nv);
                                let mut arr2 = arr;
                                arr2.push(nv);
                                proof {
                                    assert(values_view(arr2@) =~= av.push(nvv));
                                }
                                tt.entries.insert(
                                    ki,
                                    (k0, TomlNode::Value(Value::Array(arr2))),
                                );
                                proof {
                                    assert(tt@.entries =~= oldt.entries.update(
                                        ki as int,
                                        (
                                            pv[i as int],
                                            NodeView::Value(ValueView::Array(av.push(nvv))),
                                        ),
                                    ));
                                    assert(Ok::<TableView, EditError>(tt@) == spec_add_dotted(
                                        oldt,
                                        pv,
                                        i as int,
                                        valv,
                                        append,
                                    ));
                                }
                                Ok(tt)
                            },
                            other => {
                                proof {
                                    assert(!(other@ is Value));
                                }
                                Err(EditError::TypeMismatch)
                            },
                        },
                        other_v => {
                            proof {
                                assert(!(other_v@ is Array));
                            }
                            Err(EditError::TypeMismatch)
                        },
                    }
                } else {
                    tt.entries.insert(ki, (k0, TomlNode::Value(existing_v)));
                    proof {
                        assert(tt@.entries =~= oldt.entries);
                    }
                    tt.insert(key.clone(), val);
                    proof {
                        assert(Ok::<TableView, EditError>(tt@) == spec_add_dotted(
                            oldt,
                            pv,
                            i as int,
                            valv,
                            append,
                        ));
                    }
                    Ok(tt)
                }
            },
            TomlNode::ArrayOfTables(_) => Err(EditError::TypeMismatch),
            TomlNode::Absent => Err(EditError::TypeMismatch),
        }
    }
}

fn add_with_header(
    t: TomlTable,
    hdr: &Vec<String>,
    i: usize,
    dotted: &Option<Vec<String>>,
    val: TomlNode,
    aot: bool,
    append: bool,
) -> (r: Result<TomlTable, EditError>)
    requires
        i <= hdr@.len(),
    ensures
        (match r {
            Ok(t2) => Ok::<TableView, EditError>(t2@),
            Err(e) => Err(e),
        }) == spec_add_with_header(
            t@,
            hdr.deep_view(),
            i as int,
            dotted.deep_view(),
            val@,
            aot,
            append,
        ),
    decreases hdr@.len() - i,
{
    let ghost pv = hdr.deep_view();
    let ghost dv = dotted.deep_view();
    let ghost valv = node_view(val);
    let n = hdr.len();
    if i >= n {
        return match dotted {
            Some(dp) => {
                proof {
                    assert(dv == Some(dp.deep_view()));
                }
                add_dotted(t, dp, 0, val, append)
            },
            None => Err(EditError::MalformedOp),
        };
    }
    let key = &hdr[i];
    proof {
        assert(pv[i as int] == hdr@[i as int]@);
        lemma_key_index(t@.entries, key@);
    }
    let found = t.find_key(key);
    let mut tt = t;
    let ghost oldt = tt@;
    let missing = match found {
        Some(ki) => matches!(&tt.entries[ki].1, TomlNode::Absent),
        None => true,
    };
    if missing {
        if i < n - 1 || dotted.is_some() {
            let inner0 = TomlTable { entries: Vec::new(), dotted: i < n - 1 };
            proof {
                assert(inner0@.entries =~= Seq::<(Seq<char>, NodeView)>::empty());
            }
            match add_with_header(inner0, hdr, i + 1, dotted, val, aot, append) {
                Ok(inner2) => {
                    tt.insert(key.clone(), TomlNode::Table(inner2));
                    Ok(tt)
                },
                Err(e) => Err(e),
            }
        } else {
            match val {
                TomlNode::Value(Value::InlineTable(it)) => {
                    let ghost itv = value_entries_view(it@);
                    let new_table = inline_into_table(it);
                    if aot {
                        let mut ts: Vec<TomlTable> = Vec::new();
                        ts.push(new_table);
                        let node = TomlNode::ArrayOfTables(ts);
                        proof {
                            assert(node@ == NodeView::ArrayOfTables(
                                seq![spec_inline_into_table(itv)],
                            )) by {
                                assert(tables_view(ts@) =~= seq![spec_inline_into_table(itv)]);
                            }
                        }
                        tt.insert(key.clone(), node);
                        Ok(tt)
                    } else {
                        tt.insert(key.clone(), TomlNode::Table(new_table));
                        Ok(tt)
                    }
                },
                other => {
                    proof {
                        assert(!(other@ matches NodeView::Value(ValueView::InlineTable(_))));
                    }
                    Err(EditError::TypeMismatch)
                },
            }
        }
    } else {
        let ki = match found {
            Some(ki) => ki,
            None => 0,
        };
        let (k0, existing) = tt.entries.remove(ki);
        match existing {
            TomlNode::Table(inner) => {
                proof {
                    assert(oldt.entries[ki as int].1 == NodeView::Table(table_view(inner)));
                }
                let ghost innerv = table_view(inner);
                if i == n - 1 && dotted.is_none() && !aot {
                    // Install the table-shaped value over the existing
                    // block table at the final header key.
                    match val {
                        TomlNode::Value(Value::InlineTable(it)) => {
                            let ghost itv = value_entries_view(it@);
                            let new_table = inline_into_table(it);
                            tt.entries.insert(ki, (k0, TomlNode::Table(new_table)));
                            proof {
                                assert(tt@.entries =~= oldt.entries.update(
                                    ki as int,
                                    (pv[i as int], NodeView::Table(spec_inline_into_table(itv))),
                                ));
                            }
                            Ok(tt)
                        },
                        other => {
                            proof {
                                assert(!(other@ matches NodeView::Value(
                                    ValueView::InlineTable(_),
                                )));
                            }
                            Err(EditError::TypeMismatch)
                        },
                    }
                } else {
                    let inner1 = TomlTable { entries: inner.entries, dotted: i < n - 1 };
                    let ghost inner1v = inner1@;
                    proof {
                        assert(inner1v.entries == innerv.entries);
                    }
                    match add_with_header(inner1, hdr, i + 1, dotted, val, aot, append) {
                        Ok(inner2) => {
                            let ghost inner2v = inner2@;
                            tt.entries.insert(ki, (k0, TomlNode::Table(inner2)));
                            proof {
                                assert(tt@.entries =~= oldt.entries.update(
                                    ki as int,
                                    (pv[i as int], NodeView::Table(inner2v)),
                                ));
                            }
                            Ok(tt)
                        },
                        Err(e) => Err(e),
                    }
                }
            },
            TomlNode::Value(_) => Err(EditError::TypeMismatch),
            TomlNode::ArrayOfTables(ts) => {
                proof {
                    assert(oldt.entries[ki as int].1 == NodeView::ArrayOfTables(tables_view(ts@)));
                }
                match val {
                    TomlNode::Value(Value::InlineTable(it)) => {
                        if aot {
                            let ghost tsv = tables_view(ts@);
                            let ghost itv = value_entries_view(it@);
                            let new_table = inline_into_table(it);
                            let mut ts2 = ts;
                            ts2.push(new_table);
                            proof {
                                assert(tables_view(ts2@) =~= tsv.push(
                                    spec_inline_into_table(itv),
                                ));
                            }
                            tt.entries.insert(ki, (k0, TomlNode::ArrayOfTables(ts2)));
                            proof {
                                assert(tt@.entries =~= oldt.entries.update(
                                    ki as int,
                                    (
                                        pv[i as int],
                                        NodeView::ArrayOfTables(
                                            tsv.push(spec_inline_into_table(itv)),
                                        ),
                                    ),
                                ));
                            }
                            Ok(tt)
                        } else {
                            Err(EditError::TypeMismatch)
                        }
                    },
                    other => {
                        proof {
                            assert(!(other@ matches NodeView::Value(ValueView::InlineTable(_))));
                        }
                        Err(EditError::TypeMismatch)
                    },
                }
            },
            TomlNode::Absent => Err(EditError::TypeMismatch),
        }
    }
}

/// Performs an add addressed by a table-header path and an optional dotted
/// path, with the array-of-tables and append-to-array flags already read
/// off their sentinels. A failure leaves the table exactly as it was.
pub fn add_value_with_table_header_and_dotted_path(
    table: &mut TomlTable,
    table_header_path: &Vec<String>,
    dotted_path: Option<Vec<String>>,
    value: TomlNode,
    array_of_tables: bool,
    append_array_at_path: bool,
) -> (r: Result<(), EditError>)
    ensures
        (match spec_add_with_header(
            old(table)@,
            table_header_path.deep_view(),
            0,
            dotted_path.deep_view(),
            value@,
            array_of_tables,
            append_array_at_path,
        ) {
            Ok(t2) => r is Ok && final(table)@ == t2,
            Err(e) => r == Err::<(), EditError>(e) && final(table)@ == old(table)@,
        }),
{
    let cur = table.clone();
    match add_with_header(
        cur,
        table_header_path,
        0,
        &dotted_path,
        value,
        array_of_tables,
        append_array_at_path,
    ) {
        Ok(t2) => {
            *table = t2;
            Ok(())
        },
        Err(e) => Err(e),
    }
}

} // verus!
