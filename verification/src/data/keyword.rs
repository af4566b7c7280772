//! Names of columns.

use vstd::prelude::*;

verus! {

/// The name of a logical column of a relation.
#[derive(Debug, PartialEq, Eq, PartialOrd, Ord, Hash)]
pub struct Keyword(pub String);

impl View for Keyword {
    type V = Seq<char>;

    open spec fn view(&self) -> Seq<char> {
        self.0@
    }
}

impl Clone for Keyword {
    fn clone(&self) -> (out: Self)
        ensures
            out == *self,
    {
        Keyword(self.0.clone())
    }
}

impl Keyword {
    /// Makes a name from its text.
    pub fn new(name: &str) -> (out: Keyword)
        ensures
            out@ == name@,
    {
        Keyword(name.to_owned())
    }

    /// Whether two names are the same text.
    pub fn same_name(&self, other: &Keyword) -> (same: bool)
        ensures
            same == (self@ == other@),
    {
        self.0 == other.0
    }
}

/// The texts of a list of names, in order.
pub open spec fn names(keys: Seq<Keyword>) -> Seq<Seq<char>> {
    Seq::new(keys.len(), |i: int| keys[i]@)
}

} // verus!
