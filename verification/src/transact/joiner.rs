//! From the names of the key columns to their places.

use vstd::prelude::*;
use crate::data::keyword::{names, Keyword};

verus! {

/// Whether `pos` is the last place of `bindings` that holds `key`.
pub open spec fn is_last_position(bindings: Seq<Seq<char>>, key: Seq<char>, pos: int) -> bool {
    &&& 0 <= pos < bindings.len()
    &&& bindings[pos] == key
    &&& forall|later: int| pos < later < bindings.len() ==> bindings[later] != key
}

/// Whether `positions` holds, for each of `keys` in order, the last place where
/// `bindings` names it.
pub open spec fn resolves(positions: Seq<usize>, keys: Seq<Keyword>, bindings: Seq<Keyword>) -> bool {
    &&& positions.len() == keys.len()
    &&& forall|i: int|
        0 <= i < keys.len() ==> is_last_position(names(bindings), (#[trigger] keys[i])@, positions[i] as int)
}

/// The last place of `bindings` that holds `key`, or -1 where none does.
pub open spec fn last_index_of(bindings: Seq<Seq<char>>, key: Seq<char>) -> int
    decreases bindings.len(),
{
    if bindings.len() == 0 {
        -1
    } else if bindings.last() == key {
        bindings.len() - 1
    } else {
        last_index_of(bindings.drop_last(), key)
    }
}

/// For each of `keys` in order, the last place where `bindings` names it.
pub open spec fn key_positions(keys: Seq<Keyword>, bindings: Seq<Keyword>) -> Seq<usize> {
    Seq::new(keys.len(), |i: int| last_index_of(names(bindings), keys[i]@) as usize)
}

/// `last_index_of` gives the one place that `is_last_position` describes.
pub proof fn lemma_last_index_of(bindings: Seq<Seq<char>>, key: Seq<char>, pos: int)
    ensures
        is_last_position(bindings, key, pos) <==> (pos >= 0 && pos == last_index_of(bindings, key)),
        -1 <= last_index_of(bindings, key) < bindings.len(),
    decreases bindings.len(),
{
    if bindings.len() > 0 {
        let shorter = bindings.drop_last();
        lemma_last_index_of(shorter, key, pos);
        if bindings.last() == key {
            if is_last_position(bindings, key, pos) && pos < bindings.len() - 1 {
                assert(bindings[bindings.len() - 1] != key);
            }
        } else {
            if is_last_position(bindings, key, pos) {
                assert(shorter[pos] == bindings[pos]);
                assert forall|later: int| pos < later < shorter.len() implies shorter[later] != key by {
                    assert(shorter[later] == bindings[later]);
                }
            }
            if is_last_position(shorter, key, pos) {
                assert(shorter[pos] == bindings[pos]);
                assert forall|later: int| pos < later < bindings.len() implies bindings[later] != key by {
                    if later < shorter.len() {
                        assert(shorter[later] == bindings[later]);
                    }
                }
            }
        }
    }
}

/// A key that `bindings` holds has a last place there.
pub proof fn lemma_last_index_found(bindings: Seq<Seq<char>>, key: Seq<char>)
    requires
        bindings.contains(key),
    ensures
        is_last_position(bindings, key, last_index_of(bindings, key)),
    decreases bindings.len(),
{
    let at = choose|at: int| 0 <= at < bindings.len() && bindings[at] == key;
    if bindings.last() != key {
        let shorter = bindings.drop_last();
        assert(shorter[at] == key);
        lemma_last_index_found(shorter, key);
        lemma_last_index_of(bindings, key, last_index_of(shorter, key));
        lemma_last_index_of(shorter, key, last_index_of(shorter, key));
    }
}

/// Positions that resolve the keys are the positions of the keys.
pub proof fn lemma_resolves(positions: Seq<usize>, keys: Seq<Keyword>, bindings: Seq<Keyword>)
    requires
        resolves(positions, keys, bindings),
    ensures
        positions == key_positions(keys, bindings),
        forall|i: int| 0 <= i < positions.len() ==> (#[trigger] positions[i]) < bindings.len(),
{
    assert forall|i: int| 0 <= i < positions.len() implies positions[i] == key_positions(keys, bindings)[i]
        && (#[trigger] positions[i]) < bindings.len() by {
        assert(is_last_position(names(bindings), keys[i]@, positions[i] as int));
        lemma_last_index_of(names(bindings), keys[i]@, positions[i] as int);
    }
    assert(positions =~= key_positions(keys, bindings));
}

/// The columns that a join compares: `left_keys[i]` on the left side is to be
/// equal to `right_keys[i]` on the right side.
#[derive(Debug, PartialEq, Eq)]
pub struct Joiner {
    pub left_keys: Vec<Keyword>,
    pub right_keys: Vec<Keyword>,
}

impl Joiner {
    /// The two lists of keys pair up.
    pub open spec fn wf(&self) -> bool {
        self.left_keys.len() == self.right_keys.len()
    }

    /// Whether each key is a column of its side.
    pub open spec fn keys_bound(&self, left_bindings: Seq<Keyword>, right_bindings: Seq<Keyword>) -> bool {
        &&& forall|i: int|
            0 <= i < self.left_keys.len() ==> names(left_bindings).contains((#[trigger] self.left_keys[i])@)
        &&& forall|i: int|
            0 <= i < self.right_keys.len() ==> names(right_bindings).contains(
                (#[trigger] self.right_keys[i])@,
            )
    }

    /// The number of key pairs.
    pub fn len(&self) -> (n: usize)
        ensures
            n == self.left_keys.len(),
    {
        self.left_keys.len()
    }

    /// The same pairs with the two sides exchanged.
    pub fn swap(self) -> (out: Joiner)
        ensures
            out.left_keys == self.right_keys,
            out.right_keys == self.left_keys,
            self.wf() ==> out.wf(),
    {
        Joiner { left_keys: self.right_keys, right_keys: self.left_keys }
    }

    /// For each key pair, the column of the left rows and the column of the
    /// right rows that the pair names. A name that stands twice in a binding
    /// list is taken at its last place.
    pub fn join_indices(&self, left_bindings: &[Keyword], right_bindings: &[Keyword]) -> (ret: (
        Vec<usize>,
        Vec<usize>,
    ))
        requires
            self.wf(),
            self.keys_bound(left_bindings@, right_bindings@),
        ensures
            resolves(ret.0@, self.left_keys@, left_bindings@),
            resolves(ret.1@, self.right_keys@, right_bindings@),
            ret.0@ == key_positions(self.left_keys@, left_bindings@),
            ret.1@ == key_positions(self.right_keys@, right_bindings@),
    {
        let mut ret_l: Vec<usize> = Vec::new();
        let mut ret_r: Vec<usize> = Vec::new();
        let mut i: usize = 0;
        while i < self.left_keys.len()
            invariant
                i <= self.left_keys.len(),
                self.wf(),
                self.keys_bound(left_bindings@, right_bindings@),
                ret_l.len() == i,
                ret_r.len() == i,
                forall|j: int|
                    0 <= j < i ==> is_last_position(
                        names(left_bindings@),
                        (#[trigger] self.left_keys[j])@,
                        ret_l[j] as int,
                    ),
                forall|j: int|
                    0 <= j < i ==> is_last_position(
                        names(right_bindings@),
                        (#[trigger] self.right_keys[j])@,
                        ret_r[j] as int,
                    ),
            decreases self.left_keys.len() - i,
        {
            let l_pos = last_position(left_bindings, &self.left_keys[i]);
            let r_pos = last_position(right_bindings, &self.right_keys[i]);
            ret_l.push(l_pos);
            ret_r.push(r_pos);
            i += 1;
        }
        proof {
            lemma_resolves(ret_l@, self.left_keys@, left_bindings@);
            lemma_resolves(ret_r@, self.right_keys@, right_bindings@);
        }
        (ret_l, ret_r)
    }
}

/// The last place of `bindings` that holds `key`.
pub fn last_position(bindings: &[Keyword], key: &Keyword) -> (pos: usize)
    requires
        names(bindings@).contains(key@),
    ensures
        is_last_position(names(bindings@), key@, pos as int),
{
    let ghost at = choose|at: int| 0 <= at < names(bindings@).len() && names(bindings@)[at] == key@;
    let mut pos: usize = bindings.len();
    while pos > 0
        invariant
            0 <= at < pos <= bindings.len(),
            names(bindings@)[at] == key@,
            forall|later: int| pos <= later < bindings.len() ==> names(bindings@)[later] != key@,
        decreases pos,
    {
        pos -= 1;
        if bindings[pos].same_name(key) {
            return pos;
        }
    }
    pos
}

} // verus!
