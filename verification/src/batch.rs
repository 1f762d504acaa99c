//! The batch driver: one request is an array of operations applied in
//! order against a single document.
//!
//! Each operation observes the cumulative effect of the ones before it. A
//! failing add or remove aborts the batch at once; a failing get degrades
//! to a null result for that one operation and the batch goes on.

use vstd::prelude::*;

use crate::adder::{handle_add, spec_handle_add, AddOp, AddOpView};
use crate::json::{JsonValue, JsonView};
use crate::model::{EditError, TableView, TomlDocument};
use crate::remover::{handle_remove, spec_handle_remove};
use crate::paths::spec_split;
use crate::traversal::{spec_traverse, traverse, TraverseOps};

verus! {

broadcast use vstd::std_specs::vec::group_vec_axioms, vstd::seq::group_seq_axioms;

/// One operation of a batch.
pub enum Operation {
    Add(AddOp),
    Get { path: String },
    Remove { path: String },
}

/// Mathematical view of an operation.
#[verifier::ext_equal]
pub enum OperationView {
    Add(AddOpView),
    Get(Seq<char>),
    Remove(Seq<char>),
}

pub open spec fn operation_view(op: Operation) -> OperationView {
    match op {
        Operation::Add(a) => OperationView::Add(a@),
        Operation::Get { path } => OperationView::Get(path@),
        Operation::Remove { path } => OperationView::Remove(path@),
    }
}

impl View for Operation {
    type V = OperationView;

    open spec fn view(&self) -> OperationView {
        operation_view(*self)
    }
}

pub open spec fn ops_view(s: Seq<Operation>) -> Seq<OperationView> {
    Seq::new(
        s.len(),
        |i: int|
            if 0 <= i < s.len() {
                operation_view(s[i])
            } else {
                OperationView::Get(Seq::empty())
            },
    )
}

pub open spec fn jsons_view(s: Seq<JsonValue>) -> Seq<JsonView> {
    Seq::new(
        s.len(),
        |i: int|
            if 0 <= i < s.len() {
                crate::json::json_view(s[i])
            } else {
                JsonView::Null
            },
    )
}

/// The document and outputs after the first `i` operations, or the error
/// that aborted the batch. A mutating operation acknowledges with the
/// string "ok"; a get emits the resolved value, with null standing both for
/// a resolved absence and for a failed get.
pub open spec fn spec_apply_prefix(root: TableView, ops: Seq<OperationView>, i: int) -> Result<
    (TableView, Seq<JsonView>),
    EditError,
>
    decreases i,
{
    if i <= 0 {
        Ok((root, Seq::empty()))
    } else {
        match spec_apply_prefix(root, ops, i - 1) {
            Ok((r1, outs)) => {
                if 0 <= i - 1 < ops.len() {
                    match ops[i - 1] {
                        OperationView::Add(op) => match spec_handle_add(r1, op) {
                            Ok(r2) => Ok((r2, outs.push(JsonView::Str("ok"@)))),
                            Err(e) => Err(e),
                        },
                        OperationView::Get(p) => match spec_traverse(r1, spec_split(p)) {
                            Ok(Some(v)) => Ok((r1, outs.push(v))),
                            Ok(Option::None) => Ok((r1, outs.push(JsonView::Null))),
                            Err(_) => Ok((r1, outs.push(JsonView::Null))),
                        },
                        OperationView::Remove(p) => match spec_handle_remove(r1, p) {
                            Ok(r2) => Ok((r2, outs.push(JsonView::Str("ok"@)))),
                            Err(e) => Err(e),
                        },
                    }
                } else {
                    Ok((r1, outs))
                }
            },
            Err(e) => Err(e),
        }
    }
}

/// Applies a batch of operations in order; mirrors `spec_apply_prefix`
/// over the whole batch. On success the outputs line up with the
/// operations one for one. On failure the document holds the effects of
/// the operations before the failing one and must not be persisted.
pub fn do_edits(doc: &mut TomlDocument, ops: Vec<Operation>) -> (r: Result<Vec<JsonValue>, EditError>)
    ensures
        (match spec_apply_prefix(old(doc)@, ops_view(ops@), ops@.len() as int) {
            Ok((t2, outs)) => {
                &&& r matches Ok(v) && jsons_view(v@) == outs
                &&& final(doc)@ == t2
            },
            Err(e) => r == Err::<Vec<JsonValue>, EditError>(e),
        }),
        r is Err ==> exists|k: int|
            0 <= k <= ops@.len() && ((#[trigger] spec_apply_prefix(
                old(doc)@,
                ops_view(ops@),
                k,
            )) matches Ok(pre) && final(doc)@ == pre.0),
{
    let ghost root0 = doc@;
    let ghost opsv = ops_view(ops@);
    let n = ops.len();
    let mut rest = ops;
    let mut outs: Vec<JsonValue> = Vec::new();
    let mut k: usize = 0;
    proof {
        assert(jsons_view(outs@) =~= Seq::<JsonView>::empty());
    }
    while k < n
        invariant
            k <= n,
            n == opsv.len(),
            rest@.len() == n - k,
            forall|j: int| 0 <= j < n - k ==> operation_view(#[trigger] rest@[j]) == opsv[k + j],
            spec_apply_prefix(root0, opsv, k as int) == Ok::<(TableView, Seq<JsonView>), EditError>(
                (doc@, jsons_view(outs@)),
            ),
        decreases n - k,
    {
        let op = rest.remove(0);
        let ghost outs_pre = jsons_view(outs@);
        proof {
            assert(operation_view(op) == opsv[k as int]);
        }
        match op {
            Operation::Add(a) => {
                match handle_add(doc, a) {
                    Ok(()) => {
                        let ack = JsonValue::Str("ok".to_owned());
                        proof {
                            assert(ack@ == JsonView::Str("ok"@));
                        }
                        outs.push(ack);
                        proof {
                            assert(jsons_view(outs@) =~= outs_pre.push(JsonView::Str("ok"@)));
                        }
                    },
                    Err(e) => {
                        proof {
                            lemma_apply_prefix_err(root0, opsv, k as int + 1, n as int);
                            assert((spec_apply_prefix(root0, opsv, k as int) matches Ok(pre)
                                && doc@ == pre.0));
                        }
                        return Err(e);
                    },
                }
            },
            Operation::Get { path } => {
                let out = match traverse(TraverseOps::Get, doc, path.as_str()) {
                    Ok(Some(v)) => v,
                    Ok(None) => JsonValue::Null,
                    Err(_) => JsonValue::Null,
                };
                outs.push(out);
                proof {
                    assert(jsons_view(outs@) =~= outs_pre.push(jsons_view(outs@).last()));
                }
            },
            Operation::Remove { path } => {
                match handle_remove(path.as_str(), doc) {
                    Ok(()) => {
                        let ack = JsonValue::Str("ok".to_owned());
                        proof {
                            assert(ack@ == JsonView::Str("ok"@));
                        }
                        outs.push(ack);
                        proof {
                            assert(jsons_view(outs@) =~= outs_pre.push(JsonView::Str("ok"@)));
                        }
                    },
                    Err(e) => {
                        proof {
                            lemma_apply_prefix_err(root0, opsv, k as int + 1, n as int);
                            assert((spec_apply_prefix(root0, opsv, k as int) matches Ok(pre)
                                && doc@ == pre.0));
                        }
                        return Err(e);
                    },
                }
            },
        }
        k += 1;
    }
    Ok(outs)
}

/// An aborted batch stays aborted however many operations follow.
proof fn lemma_apply_prefix_err(root: TableView, ops: Seq<OperationView>, i: int, j: int)
    requires
        0 <= i <= j,
        spec_apply_prefix(root, ops, i) is Err,
    ensures
        spec_apply_prefix(root, ops, j) == spec_apply_prefix(root, ops, i),
    decreases j - i,
{
    if j > i {
        lemma_apply_prefix_err(root, ops, i, j - 1);
    }
}

} // verus!
