//! The document model: a tree of the five TOML node shapes plus an explicit
//! absent marker, together with its mathematical view (sequences of key/node
//! pairs) and the well-formedness predicate (keys of a table are unique).

use vstd::prelude::*;

verus! {

broadcast use vstd::std_specs::vec::group_vec_axioms, vstd::seq::group_seq_axioms;

/// The error taxonomy of the editing engines.
#[derive(Clone, Copy, Debug, PartialEq, Eq, Structural)]
pub enum EditError {
    /// A path segment is missing under non-creating resolution.
    NotFound,
    /// A node of the wrong shape stands where the operation needs another.
    TypeMismatch,
    /// A non-numeric segment where an index is required, or an index outside
    /// the contiguous append/replace range.
    BadIndex,
    /// A JSON value that cannot be represented in the target shape.
    ValueConversion,
    /// An operation description that lacks a required part.
    MalformedOp,
}

/// A scalar or inline payload: what TOML allows on the right of `=`.
#[derive(Debug)]
pub enum Value {
    Str(String),
    Int(i64),
    /// A floating-point scalar, carried as its raw bit pattern so that the
    /// verified logic never computes with it.
    Float(u64),
    Bool(bool),
    /// A datetime, carried in its textual form.
    Datetime(String),
    Array(Vec<Value>),
    InlineTable(Vec<(String, Value)>),
}

/// A block table: an ordered mapping of unique keys to nodes, with a flag
/// that selects dotted-key presentation. The flag is pure metadata: no
/// traversal decision ever branches on it.
#[derive(Debug)]
pub struct TomlTable {
    pub entries: Vec<(String, TomlNode)>,
    pub dotted: bool,
}

/// One node of the document tree.
#[derive(Debug)]
pub enum TomlNode {
    /// The explicit "no node here" marker.
    Absent,
    Value(Value),
    Table(TomlTable),
    ArrayOfTables(Vec<TomlTable>),
}

/// A whole document: one root block table.
#[derive(Debug)]
pub struct TomlDocument {
    pub root: TomlTable,
}

/// Mathematical view of a scalar or inline payload.
#[verifier::ext_equal]
pub enum ValueView {
    Str(Seq<char>),
    Int(i64),
    Float(u64),
    Bool(bool),
    Datetime(Seq<char>),
    Array(Seq<ValueView>),
    InlineTable(Seq<(Seq<char>, ValueView)>),
}

/// Mathematical view of a block table.
#[verifier::ext_equal]
pub struct TableView {
    pub entries: Seq<(Seq<char>, NodeView)>,
    pub dotted: bool,
}

/// Mathematical view of a node.
#[verifier::ext_equal]
pub enum NodeView {
    Absent,
    Value(ValueView),
    Table(TableView),
    ArrayOfTables(Seq<TableView>),
}

pub open spec fn value_view(v: Value) -> ValueView
    decreases v,
{
    match v {
        Value::Str(s) => ValueView::Str(s@),
        Value::Int(i) => ValueView::Int(i),
        Value::Float(b) => ValueView::Float(b),
        Value::Bool(b) => ValueView::Bool(b),
        Value::Datetime(s) => ValueView::Datetime(s@),
        Value::Array(a) => ValueView::Array(values_view(a@)),
        Value::InlineTable(m) => ValueView::InlineTable(value_entries_view(m@)),
    }
}

/// Views of the elements of a scalar array, in order.
pub open spec fn values_view(s: Seq<Value>) -> Seq<ValueView>
    decreases s,
{
    Seq::new(
        s.len(),
        |i: int|
            if 0 <= i < s.len() {
                value_view(s[i])
            } else {
                ValueView::Bool(false)
            },
    )
}

/// Views of the key/value pairs of an inline table, in order.
pub open spec fn value_entries_view(s: Seq<(String, Value)>) -> Seq<(Seq<char>, ValueView)>
    decreases s,
{
    Seq::new(
        s.len(),
        |i: int|
            if 0 <= i < s.len() {
                (s[i].0@, value_view(s[i].1))
            } else {
                (Seq::empty(), ValueView::Bool(false))
            },
    )
}

/// Views of the key/node pairs of a block table, in order.
pub open spec fn node_entries_view(s: Seq<(String, TomlNode)>) -> Seq<(Seq<char>, NodeView)>
    decreases s,
{
    Seq::new(
        s.len(),
        |i: int|
            if 0 <= i < s.len() {
                (s[i].0@, node_view(s[i].1))
            } else {
                (Seq::empty(), NodeView::Absent)
            },
    )
}

/// Views of a sequence of nodes, in order.
pub open spec fn nodes_view(s: Seq<TomlNode>) -> Seq<NodeView>
    decreases s,
{
    Seq::new(
        s.len(),
        |i: int|
            if 0 <= i < s.len() {
                node_view(s[i])
            } else {
                NodeView::Absent
            },
    )
}

/// Views of the elements of an array of tables, in order.
pub open spec fn tables_view(s: Seq<TomlTable>) -> Seq<TableView>
    decreases s,
{
    Seq::new(
        s.len(),
        |i: int|
            if 0 <= i < s.len() {
                table_view(s[i])
            } else {
                TableView { entries: Seq::empty(), dotted: false }
            },
    )
}

pub open spec fn table_view(t: TomlTable) -> TableView
    decreases t,
{
    TableView { entries: node_entries_view(t.entries@), dotted: t.dotted }
}

pub open spec fn node_view(n: TomlNode) -> NodeView
    decreases n,
{
    match n {
        TomlNode::Absent => NodeView::Absent,
        TomlNode::Value(v) => NodeView::Value(value_view(v)),
        TomlNode::Table(t) => NodeView::Table(table_view(t)),
        TomlNode::ArrayOfTables(a) => NodeView::ArrayOfTables(tables_view(a@)),
    }
}

impl View for Value {
    type V = ValueView;

    open spec fn view(&self) -> ValueView {
        value_view(*self)
    }
}

impl View for TomlTable {
    type V = TableView;

    open spec fn view(&self) -> TableView {
        table_view(*self)
    }
}

impl View for TomlNode {
    type V = NodeView;

    open spec fn view(&self) -> NodeView {
        node_view(*self)
    }
}

impl View for TomlDocument {
    type V = TableView;

    open spec fn view(&self) -> TableView {
        table_view(self.root)
    }
}

/// The index of the first entry whose key is `k`, or -1 if no entry has it.
pub open spec fn key_index<T>(s: Seq<(Seq<char>, T)>, k: Seq<char>) -> int
    decreases s.len(),
{
    if s.len() == 0 {
        -1
    } else if s[0].0 == k {
        0
    } else {
        let r = key_index(s.drop_first(), k);
        if r < 0 {
            -1
        } else {
            r + 1
        }
    }
}

/// What `key_index` returns: the first matching position, if any.
pub proof fn lemma_key_index<T>(s: Seq<(Seq<char>, T)>, k: Seq<char>)
    ensures
        key_index(s, k) >= 0 ==> {
            &&& key_index(s, k) < s.len()
            &&& s[key_index(s, k)].0 == k
            &&& forall|j: int| 0 <= j < key_index(s, k) ==> s[j].0 != k
        },
        key_index(s, k) < 0 ==> forall|j: int| 0 <= j < s.len() ==> s[j].0 != k,
    decreases s.len(),
{
    if s.len() > 0 && s[0].0 != k {
        lemma_key_index(s.drop_first(), k);
        assert forall|j: int| 1 <= j < s.len() implies s[j] == s.drop_first()[j - 1] by {}
    }
}

/// Insert with overwrite: replace the first entry holding `k`, else append.
pub open spec fn entries_insert<T>(s: Seq<(Seq<char>, T)>, k: Seq<char>, v: T) -> Seq<
    (Seq<char>, T),
> {
    let i = key_index(s, k);
    if i < 0 {
        s.push((k, v))
    } else {
        s.update(i, (k, v))
    }
}

/// Remove the first entry holding `k`, if any.
pub open spec fn entries_remove<T>(s: Seq<(Seq<char>, T)>, k: Seq<char>) -> Seq<(Seq<char>, T)> {
    let i = key_index(s, k);
    if i < 0 {
        s
    } else {
        s.remove(i)
    }
}

/// No two entries share a key.
pub open spec fn unique_keys<T>(s: Seq<(Seq<char>, T)>) -> bool {
    forall|i: int, j: int| 0 <= i < j < s.len() ==> s[i].0 != s[j].0
}

/// Well-formedness of a scalar/inline payload: inline-table keys are unique,
/// recursively.
pub open spec fn wf_value(v: ValueView) -> bool
    decreases v,
{
    match v {
        ValueView::Array(a) => forall|i: int| 0 <= i < a.len() ==> wf_value(#[trigger] a[i]),
        ValueView::InlineTable(m) => unique_keys(m) && forall|i: int|
            0 <= i < m.len() ==> wf_value(#[trigger] m[i].1),
        _ => true,
    }
}

/// Well-formedness of a table: keys unique, members well-formed.
pub open spec fn wf_table(t: TableView) -> bool
    decreases t,
{
    unique_keys(t.entries) && forall|i: int|
        0 <= i < t.entries.len() ==> wf_node(#[trigger] t.entries[i].1)
}

/// Well-formedness of a node.
pub open spec fn wf_node(n: NodeView) -> bool
    decreases n,
{
    match n {
        NodeView::Absent => true,
        NodeView::Value(v) => wf_value(v),
        NodeView::Table(t) => wf_table(t),
        NodeView::ArrayOfTables(a) => forall|i: int|
            0 <= i < a.len() ==> wf_table(#[trigger] a[i]),
    }
}

impl TomlTable {
    /// A fresh empty block table.
    pub fn new() -> (r: TomlTable)
        ensures
            r@ == (TableView { entries: Seq::<(Seq<char>, NodeView)>::empty(), dotted: false }),
    {
        let t = TomlTable { entries: Vec::new(), dotted: false };
        proof {
            assert(t@.entries =~= Seq::<(Seq<char>, NodeView)>::empty());
        }
        t
    }

    /// The position of the first entry whose key is `key`, if any.
    pub fn find_key(&self, key: &String) -> (r: Option<usize>)
        ensures
            r matches Some(i) ==> i == key_index(self@.entries, key@),
            r is None ==> key_index(self@.entries, key@) < 0,
    {
        proof {
            lemma_key_index(self@.entries, key@);
        }
        let n = self.entries.len();
        let mut i: usize = 0;
        while i < n
            invariant
                n == self.entries.len(),
                i <= n,
                forall|j: int| 0 <= j < i ==> self@.entries[j].0 != key@,
            decreases n - i,
        {
            if self.entries[i].0.eq(key) {
                proof {
                    lemma_key_index_first(self@.entries, key@, i as int);
                }
                return Some(i);
            }
            i += 1;
        }
        None
    }

    /// Whether the table holds an entry under `key`. Used by callers that
    /// inspect a resolved table.
    pub fn contains_key(&self, key: &str) -> (r: bool)
        ensures
            r == (key_index(self@.entries, key@) >= 0),
    {
        let owned = key.to_owned();
        self.find_key(&owned).is_some()
    }

    /// The number of entries.
    pub fn len(&self) -> (r: usize)
        ensures
            r == self@.entries.len(),
    {
        self.entries.len()
    }
}

impl TomlTable {
    /// Insert with overwrite: the first entry holding the key is replaced in
    /// place; a missing key is appended at the end. The dotted flag is kept.
    pub fn insert(&mut self, key: String, node: TomlNode)
        ensures
            final(self)@.entries == entries_insert(old(self)@.entries, key@, node@),
            final(self)@.dotted == old(self)@.dotted,
    {
        proof {
            lemma_key_index(self@.entries, key@);
        }
        match self.find_key(&key) {
            Some(i) => {
                let ghost oldv = self@.entries;
                self.entries[i] = (key, node);
                proof {
                    assert(self@.entries =~= oldv.update(i as int, (key@, node@)));
                }
            },
            None => {
                let ghost oldv = self@.entries;
                self.entries.push((key, node));
                proof {
                    assert(self@.entries =~= oldv.push((key@, node@)));
                }
            },
        }
    }

    /// Remove the first entry holding the key, if any.
    pub fn remove_key(&mut self, key: &String)
        ensures
            final(self)@.entries == entries_remove(old(self)@.entries, key@),
            final(self)@.dotted == old(self)@.dotted,
    {
        proof {
            lemma_key_index(self@.entries, key@);
        }
        match self.find_key(key) {
            Some(i) => {
                let ghost oldv = self@.entries;
                let _ = self.entries.remove(i);
                proof {
                    assert(self@.entries =~= oldv.remove(i as int));
                }
            },
            None => {},
        }
    }
}

/// The position of the first pair whose key is `key`, over inline-table
/// entries.
pub fn find_value_key(entries: &Vec<(String, Value)>, key: &String) -> (r: Option<usize>)
    ensures
        r matches Some(i) ==> i == key_index(value_entries_view(entries@), key@),
        r is None ==> key_index(value_entries_view(entries@), key@) < 0,
{
    proof {
        lemma_key_index(value_entries_view(entries@), key@);
    }
    let n = entries.len();
    let mut i: usize = 0;
    while i < n
        invariant
            n == entries.len(),
            i <= n,
            forall|j: int| 0 <= j < i ==> value_entries_view(entries@)[j].0 != key@,
        decreases n - i,
    {
        if entries[i].0.eq(key) {
            proof {
                lemma_key_index_first(value_entries_view(entries@), key@, i as int);
            }
            return Some(i);
        }
        i += 1;
    }
    None
}

/// Insert with overwrite over inline-table entries.
pub fn insert_value_entry(entries: &mut Vec<(String, Value)>, key: String, v: Value)
    ensures
        value_entries_view(final(entries)@) == entries_insert(
            value_entries_view(old(entries)@),
            key@,
            v@,
        ),
{
    proof {
        lemma_key_index(value_entries_view(entries@), key@);
    }
    match find_value_key(entries, &key) {
        Some(i) => {
            let ghost oldv = value_entries_view(entries@);
            entries[i] = (key, v);
            proof {
                assert(value_entries_view(entries@) =~= oldv.update(i as int, (key@, v@)));
            }
        },
        None => {
            let ghost oldv = value_entries_view(entries@);
            entries.push((key, v));
            proof {
                assert(value_entries_view(entries@) =~= oldv.push((key@, v@)));
            }
        },
    }
}

/// Remove the first pair holding `key`, over inline-table entries.
pub fn remove_value_key(entries: &mut Vec<(String, Value)>, key: &String)
    ensures
        value_entries_view(final(entries)@) == entries_remove(
            value_entries_view(old(entries)@),
            key@,
        ),
{
    proof {
        lemma_key_index(value_entries_view(entries@), key@);
    }
    match find_value_key(entries, key) {
        Some(i) => {
            let ghost oldv = value_entries_view(entries@);
            let _ = entries.remove(i);
            proof {
                assert(value_entries_view(entries@) =~= oldv.remove(i as int));
            }
        },
        None => {},
    }
}

/// If position `i` holds `k` and no earlier position does, `key_index` is `i`.
pub proof fn lemma_key_index_first<T>(s: Seq<(Seq<char>, T)>, k: Seq<char>, i: int)
    requires
        0 <= i < s.len(),
        s[i].0 == k,
        forall|j: int| 0 <= j < i ==> s[j].0 != k,
    ensures
        key_index(s, k) == i,
    decreases s.len(),
{
    if i > 0 {
        assert forall|j: int| 1 <= j < s.len() implies s[j] == s.drop_first()[j - 1] by {}
        lemma_key_index_first(s.drop_first(), k, i - 1);
    }
}

impl Clone for Value {
    /// A deep copy whose view is the view of the original.
    fn clone(&self) -> (r: Self)
        ensures
            r@ == self@,
        decreases self,
    {
        match self {
            Value::Str(s) => Value::Str(s.clone()),
            Value::Int(i) => Value::Int(*i),
            Value::Float(b) => Value::Float(*b),
            Value::Bool(b) => Value::Bool(*b),
            Value::Datetime(s) => Value::Datetime(s.clone()),
            Value::Array(a) => {
                proof {
                    assert(decreases_to!(*self => (*self)->Array_0));
                }
                let r = Value::Array(clone_values(a));
                proof {
                    assert(r@->Array_0 == self@->Array_0);
                }
                r
            },
            Value::InlineTable(m) => {
                proof {
                    assert(decreases_to!(*self => (*self)->InlineTable_0));
                }
                let r = Value::InlineTable(clone_value_entries(m));
                proof {
                    assert(r@->InlineTable_0 == self@->InlineTable_0);
                }
                r
            },
        }
    }
}

/// A deep copy of scalar-array elements, views kept.
pub fn clone_values(a: &Vec<Value>) -> (r: Vec<Value>)
    ensures
        values_view(r@) == values_view(a@),
    decreases a,
{
    let n = a.len();
    let mut out: Vec<Value> = Vec::new();
    let mut i: usize = 0;
    while i < n
        invariant
            n == a.len(),
            i <= n,
            out.len() == i,
            forall|j: int| 0 <= j < i ==> out@[j]@ == a@[j]@,
        decreases n - i,
    {
        proof {
            assert(decreases_to!(*a => a@[i as int]));
        }
        out.push(a[i].clone());
        i += 1;
    }
    proof {
        assert(values_view(out@) =~= values_view(a@));
    }
    out
}

/// A deep copy of inline-table entries, views kept.
pub fn clone_value_entries(m: &Vec<(String, Value)>) -> (r: Vec<(String, Value)>)
    ensures
        value_entries_view(r@) == value_entries_view(m@),
    decreases m,
{
    let n = m.len();
    let mut out: Vec<(String, Value)> = Vec::new();
    let mut i: usize = 0;
    while i < n
        invariant
            n == m.len(),
            i <= n,
            out.len() == i,
            forall|j: int| 0 <= j < i ==> out@[j].0@ == m@[j].0@ && out@[j].1@ == m@[j].1@,
        decreases n - i,
    {
        proof {
            assert(decreases_to!(*m => m@[i as int]));
            assert(decreases_to!(m@[i as int] => m@[i as int].1));
        }
        out.push((m[i].0.clone(), m[i].1.clone()));
        i += 1;
    }
    proof {
        assert(value_entries_view(out@) =~= value_entries_view(m@));
    }
    out
}

/// A deep copy of the tables of an array of tables, views kept.
pub fn clone_tables(a: &Vec<TomlTable>) -> (r: Vec<TomlTable>)
    ensures
        tables_view(r@) == tables_view(a@),
    decreases a,
{
    let n = a.len();
    let mut out: Vec<TomlTable> = Vec::new();
    let mut i: usize = 0;
    while i < n
        invariant
            n == a.len(),
            i <= n,
            out.len() == i,
            forall|j: int| 0 <= j < i ==> out@[j]@ == a@[j]@,
        decreases n - i,
    {
        proof {
            assert(decreases_to!(*a => a@[i as int]));
        }
        out.push(a[i].clone());
        i += 1;
    }
    proof {
        assert(tables_view(out@) =~= tables_view(a@));
    }
    out
}

impl Clone for TomlNode {
    /// A deep copy whose view is the view of the original.
    fn clone(&self) -> (r: Self)
        ensures
            r@ == self@,
        decreases self,
    {
        match self {
            TomlNode::Absent => TomlNode::Absent,
            TomlNode::Value(v) => TomlNode::Value(v.clone()),
            TomlNode::Table(t) => TomlNode::Table(t.clone()),
            TomlNode::ArrayOfTables(a) => {
                proof {
                    assert(decreases_to!(*self => (*self)->ArrayOfTables_0));
                }
                let r = TomlNode::ArrayOfTables(clone_tables(a));
                proof {
                    assert(r@->ArrayOfTables_0 == self@->ArrayOfTables_0);
                }
                r
            },
        }
    }
}

impl Clone for TomlTable {
    /// A deep copy whose view is the view of the original.
    fn clone(&self) -> (r: Self)
        ensures
            r@ == self@,
        decreases self,
    {
        let n = self.entries.len();
        let mut out: Vec<(String, TomlNode)> = Vec::new();
        let mut i: usize = 0;
        while i < n
            invariant
                n == self.entries.len(),
                i <= n,
                out.len() == i,
                forall|j: int|
                    0 <= j < i ==> out@[j].0@ == self.entries@[j].0@ && out@[j].1@
                        == self.entries@[j].1@,
            decreases n - i,
        {
            proof {
                assert(decreases_to!(self.entries => self.entries@[i as int]));
                assert(decreases_to!(self.entries@[i as int] => self.entries@[i as int].1));
            }
            out.push((self.entries[i].0.clone(), self.entries[i].1.clone()));
            i += 1;
        }
        let r = TomlTable { entries: out, dotted: self.dotted };
        proof {
            assert(r@.entries =~= self@.entries);
        }
        r
    }
}

} // verus!

