//! The external JSON value model: what operation descriptions carry in and
//! what the get engine hands back. Numbers are either 64-bit integers or
//! floating-point values carried as their raw bit pattern, so the verified
//! logic never computes with floats.

use vstd::prelude::*;

verus! {

broadcast use vstd::std_specs::vec::group_vec_axioms, vstd::seq::group_seq_axioms;

/// A JSON value. Object members keep their order.
#[derive(Debug)]
pub enum JsonValue {
    Null,
    Bool(bool),
    /// A number that is exactly representable as a 64-bit integer.
    Int(i64),
    /// Any other number, as the bit pattern of its 64-bit floating-point
    /// representation.
    Float(u64),
    Str(String),
    Array(Vec<JsonValue>),
    Object(Vec<(String, JsonValue)>),
}

/// Mathematical view of a JSON value.
#[verifier::ext_equal]
pub enum JsonView {
    Null,
    Bool(bool),
    Int(i64),
    Float(u64),
    Str(Seq<char>),
    Array(Seq<JsonView>),
    Object(Seq<(Seq<char>, JsonView)>),
}

pub open spec fn json_view(j: JsonValue) -> JsonView
    decreases j,
{
    match j {
        JsonValue::Null => JsonView::Null,
        JsonValue::Bool(b) => JsonView::Bool(b),
        JsonValue::Int(i) => JsonView::Int(i),
        JsonValue::Float(b) => JsonView::Float(b),
        JsonValue::Str(s) => JsonView::Str(s@),
        JsonValue::Array(a) => JsonView::Array(
            Seq::new(
                a@.len(),
                |i: int|
                    if 0 <= i < a@.len() {
                        json_view(a@[i])
                    } else {
                        JsonView::Null
                    },
            ),
        ),
        JsonValue::Object(m) => JsonView::Object(
            Seq::new(
                m@.len(),
                |i: int|
                    if 0 <= i < m@.len() {
                        (m@[i].0@, json_view(m@[i].1))
                    } else {
                        (Seq::empty(), JsonView::Null)
                    },
            ),
        ),
    }
}

impl View for JsonValue {
    type V = JsonView;

    open spec fn view(&self) -> JsonView {
        json_view(*self)
    }
}

/// Keys of every object are unique, recursively.
pub open spec fn wf_json(j: JsonView) -> bool
    decreases j,
{
    match j {
        JsonView::Array(a) => forall|i: int| 0 <= i < a.len() ==> wf_json(#[trigger] a[i]),
        JsonView::Object(m) => crate::model::unique_keys(m) && forall|i: int|
            0 <= i < m.len() ==> wf_json(#[trigger] m[i].1),
        _ => true,
    }
}

/// The bit patterns of 64-bit floating-point NaN and infinities: all
/// exponent bits set.
pub open spec fn float_bits_non_finite(b: u64) -> bool {
    (b >> 52) & 0x7ff == 0x7ff
}

/// Whether a float bit pattern stands for a finite number.
pub fn float_bits_is_finite(b: u64) -> (r: bool)
    ensures
        r == !float_bits_non_finite(b),
{
    (b >> 52) & 0x7ff != 0x7ff
}

} // verus!
