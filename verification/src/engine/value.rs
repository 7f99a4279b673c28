//! The values of columns.
use crate::engine::float;
use crate::engine::float::{not_a_number, rank_of};
use crate::index::key;
use crate::index::key::{order_keys, KeyOrder};
use vstd::prelude::*;
use vstd::string::*;
use vstd::utf8::encode_utf8;

verus! {

/// A value of a column. A float is kept as the bits of its double-precision representation.
#[derive(Clone, Debug, PartialEq, Eq)]
pub enum Value {
    Null,
    Boolean(bool),
    Integer(i64),
    Float(u64),
    Text(String),
}

#[verifier::ext_equal]
pub enum ValueView {
    Null,
    Boolean(bool),
    Integer(i64),
    Float(u64),
    Text(Seq<char>),
}

impl View for Value {
    type V = ValueView;

    open spec fn view(&self) -> ValueView {
        match *self {
            Value::Null => ValueView::Null,
            Value::Boolean(value) => ValueView::Boolean(value),
            Value::Integer(value) => ValueView::Integer(value),
            Value::Float(bits) => ValueView::Float(bits),
            Value::Text(value) => ValueView::Text(value@),
        }
    }
}

pub open spec fn value_views(values: Seq<Value>) -> Seq<ValueView> {
    Seq::new(values.len(), |i: int| values[i]@)
}

/// Whether text comes before other text: by the bytes of its encoding.
pub open spec fn text_before(left: Seq<char>, right: Seq<char>) -> bool {
    key::key_lt(encode_utf8(left), encode_utf8(right))
}

/// Whether two values are equal: of one kind, and the same, floats as numbers.
pub open spec fn equal(left: ValueView, right: ValueView) -> bool {
    match (left, right) {
        (ValueView::Float(a), ValueView::Float(b)) => float::equal(a, b),
        _ => left == right,
    }
}

/// A copy of text.
pub(crate) fn copy_text(text: &String) -> (copy: String)
    ensures
        copy@ == text@,
{
    text.clone()
}

/// How two pieces of text are ordered.
pub(crate) fn order_text(left: &str, right: &str) -> (order: KeyOrder)
    ensures
        match order {
            KeyOrder::Before => text_before(left@, right@) && left@ != right@,
            KeyOrder::Same => left@ == right@,
            KeyOrder::After => text_before(right@, left@) && left@ != right@,
        },
        order is Before <==> text_before(left@, right@),
        order is After <==> text_before(right@, left@),
{
    broadcast use vstd::utf8::encode_utf8_decode_utf8;

    let order = order_keys(left.as_bytes(), right.as_bytes());
    proof {
        key::lemma_key_irreflexive(encode_utf8(left@));
        assert(vstd::utf8::decode_utf8(encode_utf8(left@)) == left@);
        assert(vstd::utf8::decode_utf8(encode_utf8(right@)) == right@);
    }
    order
}

impl Value {
    /// Whether this is NULL.
    pub fn is_null(&self) -> (yes: bool)
        ensures
            yes == (self@ is Null),
    {
        match self {
            Value::Null => true,
            _ => false,
        }
    }

    /// A copy of the value.
    pub fn copy(&self) -> (copy: Value)
        ensures
            copy@ == self@,
    {
        match self {
            Value::Null => Value::Null,
            Value::Boolean(value) => Value::Boolean(*value),
            Value::Integer(value) => Value::Integer(*value),
            Value::Float(bits) => Value::Float(*bits),
            Value::Text(value) => Value::Text(copy_text(value)),
        }
    }

    /// Whether two values are equal.
    pub fn same(&self, other: &Value) -> (yes: bool)
        ensures
            yes == equal(self@, other@),
    {
        match (self, other) {
            (Value::Null, Value::Null) => true,
            (Value::Boolean(left), Value::Boolean(right)) => *left == *right,
            (Value::Integer(left), Value::Integer(right)) => *left == *right,
            (Value::Float(left), Value::Float(right)) => !not_a_number(*left) && !not_a_number(
                *right,
            ) && rank_of(*left) == rank_of(*right),
            (Value::Text(left), Value::Text(right)) => matches!(
                order_text(left.as_str(), right.as_str()),
                KeyOrder::Same
            ),
            _ => false,
        }
    }
}

/// A copy of a row.
pub fn copy_values(values: &[Value]) -> (copy: Vec<Value>)
    ensures
        value_views(copy@) == value_views(values@),
{
    let mut copy: Vec<Value> = Vec::new();
    let mut index: usize = 0;
    while index < values.len()
        invariant
            index <= values@.len(),
            copy@.len() == index,
            forall|i: int| 0 <= i < index ==> (#[trigger] copy@[i])@ == values@[i]@,
        decreases values@.len() - index,
    {
        copy.push(values[index].copy());
        index = index + 1;
    }
    assert(value_views(copy@) =~= value_views(values@));
    copy
}

/// A row of NULLs.
pub fn null_values(count: usize) -> (values: Vec<Value>)
    ensures
        value_views(values@) == Seq::new(count as nat, |i: int| ValueView::Null),
{
    let mut values: Vec<Value> = Vec::new();
    let mut index: usize = 0;
    while index < count
        invariant
            index <= count,
            values@.len() == index,
            forall|i: int| 0 <= i < index ==> (#[trigger] values@[i])@ == ValueView::Null,
        decreases count - index,
    {
        values.push(Value::Null);
        index = index + 1;
    }
    assert(value_views(values@) =~= Seq::new(count as nat, |i: int| ValueView::Null));
    values
}

} // verus!
