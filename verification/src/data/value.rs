//! Values and what they stand for.

use vstd::prelude::*;
use crate::data::id::EntityId;
use crate::error::QueryError;

verus! {

/// A value stored in a column of a row or in a fact. Values are totally
/// ordered: by kind in the order written here, and within a kind by what they
/// hold.
#[derive(Debug, PartialEq, Eq, PartialOrd, Ord, Hash)]
pub enum DataValue {
    Null,
    Bool(bool),
    Int(i64),
    /// A floating-point number, held as the bits of its binary64 encoding.
    /// Two such values are equal when their bits are.
    Float(u64),
    Str(String),
    /// A reference to an entity.
    EnId(EntityId),
    List(Vec<DataValue>),
}

/// The mathematical value that a `DataValue` stands for.
pub enum Value {
    Null,
    Bool(bool),
    Int(int),
    Float(u64),
    Str(Seq<char>),
    EnId(u64),
    List(Seq<Value>),
}

/// What a `DataValue` stands for, by recursion over its lists.
pub open spec fn value_of(v: DataValue) -> Value
    decreases v,
{
    match v {
        DataValue::Null => Value::Null,
        DataValue::Bool(b) => Value::Bool(b),
        DataValue::Int(i) => Value::Int(i as int),
        DataValue::Float(bits) => Value::Float(bits),
        DataValue::Str(s) => Value::Str(s@),
        DataValue::EnId(e) => Value::EnId(e.0),
        DataValue::List(items) => Value::List(
            Seq::new(
                items@.len(),
                |i: int|
                    if 0 <= i < items@.len() {
                        value_of(items@[i])
                    } else {
                        Value::Null
                    },
            ),
        ),
    }
}

impl View for DataValue {
    type V = Value;

    open spec fn view(&self) -> Value {
        value_of(*self)
    }
}

/// What a sequence of `DataValue`s stands for, element by element.
pub open spec fn values_of(items: Seq<DataValue>) -> Seq<Value> {
    Seq::new(items.len(), |i: int| items[i]@)
}

/// A list stands for the list of what its items stand for.
pub proof fn lemma_list_view(items: Vec<DataValue>)
    ensures
        DataValue::List(items)@ == Value::List(values_of(items@)),
{
    assert(DataValue::List(items)@->List_0 =~= values_of(items@));
}

/// Copies a sequence of values, item by item.
pub fn clone_values(items: &Vec<DataValue>) -> (out: Vec<DataValue>)
    ensures
        values_of(out@) == values_of(items@),
    decreases items,
{
    let mut out: Vec<DataValue> = Vec::new();
    let mut i: usize = 0;
    while i < items.len()
        invariant
            i <= items.len(),
            out.len() == i,
            forall|j: int| 0 <= j < i ==> (#[trigger] out@[j])@ == items@[j]@,
        decreases items.len() - i,
    {
        assert(decreases_to!(*items => items[i as int]));
        let item = items[i].clone();
        out.push(item);
        i += 1;
    }
    assert(values_of(out@) =~= values_of(items@));
    out
}

/// Whether two sequences of values stand for the same sequence.
pub fn same_values(a: &Vec<DataValue>, b: &Vec<DataValue>) -> (same: bool)
    ensures
        same == (values_of(a@) == values_of(b@)),
    decreases a,
{
    if a.len() != b.len() {
        assert(values_of(a@).len() != values_of(b@).len());
        return false;
    }
    let mut i: usize = 0;
    while i < a.len()
        invariant
            i <= a.len(),
            a.len() == b.len(),
            forall|j: int| 0 <= j < i ==> (#[trigger] a@[j])@ == b@[j]@,
        decreases a.len() - i,
    {
        assert(decreases_to!(*a => a[i as int]));
        if !a[i].same_value(&b[i]) {
            assert(values_of(a@)[i as int] != values_of(b@)[i as int]);
            return false;
        }
        i += 1;
    }
    assert(values_of(a@) =~= values_of(b@));
    true
}

impl Clone for DataValue {
    fn clone(&self) -> (out: Self)
        ensures
            out@ == self@,
        decreases *self,
    {
        match self {
            DataValue::Null => DataValue::Null,
            DataValue::Bool(b) => DataValue::Bool(*b),
            DataValue::Int(i) => DataValue::Int(*i),
            DataValue::Float(bits) => DataValue::Float(*bits),
            DataValue::Str(s) => DataValue::Str(s.clone()),
            DataValue::EnId(e) => DataValue::EnId(*e),
            DataValue::List(items) => {
                let copy = clone_values(items);
                proof {
                    lemma_list_view(*items);
                    lemma_list_view(copy);
                }
                DataValue::List(copy)
            },
        }
    }
}

impl DataValue {
    /// Whether two values stand for the same value.
    pub fn same_value(&self, other: &DataValue) -> (same: bool)
        ensures
            same == (self@ == other@),
        decreases *self,
    {
        match (self, other) {
            (DataValue::Null, DataValue::Null) => true,
            (DataValue::Bool(a), DataValue::Bool(b)) => *a == *b,
            (DataValue::Int(a), DataValue::Int(b)) => *a == *b,
            (DataValue::Float(a), DataValue::Float(b)) => *a == *b,
            (DataValue::Str(a), DataValue::Str(b)) => *a == *b,
            (DataValue::EnId(a), DataValue::EnId(b)) => a.0 == b.0,
            (DataValue::List(a), DataValue::List(b)) => {
                proof {
                    lemma_list_view(*a);
                    lemma_list_view(*b);
                }
                same_values(a, b)
            },
            _ => false,
        }
    }

    /// The entity that this value refers to.
    ///
    /// Fails with `NotAnEntity` on every value but an entity reference.
    pub fn get_entity_id(&self) -> (out: Result<EntityId, QueryError>)
        ensures
            out == entity_of(self@),
    {
        match self {
            DataValue::EnId(e) => Ok(*e),
            _ => Err(QueryError::NotAnEntity),
        }
    }
}

/// The entity that a value refers to, or `NotAnEntity` where it refers to none.
pub open spec fn entity_of(v: Value) -> Result<EntityId, QueryError> {
    match v {
        Value::EnId(e) => Ok(EntityId(e)),
        _ => Err(QueryError::NotAnEntity),
    }
}

} // verus!
