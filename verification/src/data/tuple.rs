//! Rows.

use vstd::prelude::*;
use crate::data::value::{clone_values, values_of, DataValue, Value};
use crate::error::QueryError;

verus! {

/// One row: values in a fixed order. The names of the columns are kept apart,
/// in the bindings of the relation that the row came from.
#[derive(Debug, PartialEq, Eq, PartialOrd, Ord, Hash)]
pub struct Tuple(pub Vec<DataValue>);

impl View for Tuple {
    type V = Seq<Value>;

    open spec fn view(&self) -> Seq<Value> {
        values_of(self.0@)
    }
}

impl Clone for Tuple {
    fn clone(&self) -> (out: Self)
        ensures
            out@ == self@,
    {
        Tuple(clone_values(&self.0))
    }
}

impl Tuple {
    /// This row with the values of `extra` behind it.
    pub fn extended(&self, extra: &Vec<DataValue>) -> (out: Tuple)
        ensures
            out@ == self@ + values_of(extra@),
    {
        let mut row = clone_values(&self.0);
        let mut i: usize = 0;
        while i < extra.len()
            invariant
                i <= extra.len(),
                values_of(row@) == self@ + values_of(extra@).take(i as int),
            decreases extra.len() - i,
        {
            let ghost before = row@;
            let item = extra[i].clone();
            row.push(item);
            assert(values_of(row@) =~= values_of(before).push(item@));
            assert(values_of(extra@).take(i + 1) =~= values_of(extra@).take(i as int).push(extra@[i as int]@));
            i += 1;
        }
        assert(values_of(extra@).take(extra.len() as int) =~= values_of(extra@));
        Tuple(row)
    }
}

/// Rows and errors held in memory, in the order in which they came.
pub type TupleVec = Vec<Result<Tuple, QueryError>>;

/// What one element of a fallible sequence stands for.
pub type RowResult = Result<Seq<Value>, QueryError>;

/// What a row or an error held in memory stands for.
pub open spec fn row_of(item: Result<Tuple, QueryError>) -> RowResult {
    match item {
        Ok(t) => Ok(t@),
        Err(e) => Err(e),
    }
}

/// What rows and errors held in memory stand for, element by element.
pub open spec fn stream_of(items: Seq<Result<Tuple, QueryError>>) -> Seq<RowResult> {
    Seq::new(items.len(), |i: int| row_of(items[i]))
}

} // verus!
