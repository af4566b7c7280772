//! Fallible sequences of rows that are pulled element by element.

use vstd::prelude::*;
use crate::data::tuple::{row_of, stream_of, RowResult, Tuple, TupleVec};
use crate::data::value::{values_of, DataValue, Value};
use crate::error::QueryError;
use crate::runtime::transact::SessionTx;
use crate::transact::fixed::{groups_index, InlineFixedRelation, KeyGroup};
use crate::transact::nested_loop::{covers, match_rows, project};
use crate::transact::stream::{flat_map_ok, lemma_flat_map_ok_concat, until_error};
use crate::transact::triple::{triple_rows, TripleRelation};

verus! {

/// What a join does with one left row: which relation it is joined with, on
/// which columns, and how the matching rows are found.
#[derive(Debug)]
pub enum JoinStep<'a> {
    /// A literal table of one row, whose key is held ready.
    Broadcast { table: &'a InlineFixedRelation, li: Vec<usize>, ri: Vec<usize>, key: Vec<DataValue> },
    /// A literal table of several rows, grouped by key.
    Grouped { table: &'a InlineFixedRelation, li: Vec<usize>, ri: Vec<usize>, groups: Vec<KeyGroup> },
    /// The facts of an attribute, no column joined: all of them are scanned.
    Cartesian { facts: &'a TripleRelation, tx: &'a SessionTx },
    /// The facts of an attribute, both columns joined: one fact is looked for.
    Existence { facts: &'a TripleRelation, tx: &'a SessionTx, e: usize, v: usize },
    /// The facts of an attribute, the entity joined: the facts of the entity
    /// are scanned.
    Entity { facts: &'a TripleRelation, tx: &'a SessionTx, e: usize },
    /// The facts of an attribute, the value joined and a reference: the
    /// facts that refer to the entity are scanned.
    Reference { facts: &'a TripleRelation, tx: &'a SessionTx, v: usize },
    /// The facts of an attribute, the value joined and indexed: the facts
    /// with the value are scanned.
    IndexedValue { facts: &'a TripleRelation, tx: &'a SessionTx, v: usize },
    /// The facts of an attribute, the value joined and not indexed: all
    /// facts are scanned and those with the value are kept.
    ScannedValue { facts: &'a TripleRelation, tx: &'a SessionTx, v: usize },
}

impl<'a> JoinStep<'a> {
    /// What is held ready is what the relation gives.
    pub open spec fn wf(&self) -> bool {
        match self {
            JoinStep::Broadcast { table, li, ri, key } => table.data.len() == 1 && values_of(key@) == project(
                table.table()[0],
                ri@,
            ),
            JoinStep::Grouped { table, li, ri, groups } => groups_index(groups@, table.table(), ri@),
            JoinStep::Existence { facts, tx, e, v } => tx.wf(),
            _ => true,
        }
    }

    /// Whether a left row has the columns that the step reads.
    pub open spec fn accepts(&self, row: Seq<Value>) -> bool {
        match self {
            JoinStep::Broadcast { table, li, ri, key } => covers(row, li@),
            JoinStep::Grouped { table, li, ri, groups } => covers(row, li@),
            JoinStep::Cartesian { facts, tx } => true,
            JoinStep::Existence { facts, tx, e, v } => covers(row, seq![*e, *v]),
            JoinStep::Entity { facts, tx, e } => covers(row, seq![*e]),
            JoinStep::Reference { facts, tx, v } => covers(row, seq![*v]),
            JoinStep::IndexedValue { facts, tx, v } => covers(row, seq![*v]),
            JoinStep::ScannedValue { facts, tx, v } => covers(row, seq![*v]),
        }
    }

    /// The rows and errors that the step gives for a left row.
    pub open spec fn row_fn(&self) -> spec_fn(Seq<Value>) -> Seq<RowResult> {
        match self {
            JoinStep::Broadcast { table, li, ri, key } => match_rows(table.table(), li@, ri@),
            JoinStep::Grouped { table, li, ri, groups } => match_rows(table.table(), li@, ri@),
            JoinStep::Cartesian { facts, tx } => triple_rows(
                facts.table(tx),
                Seq::<usize>::empty(),
                Seq::<usize>::empty(),
                facts.by_reference(),
            ),
            JoinStep::Existence { facts, tx, e, v } => triple_rows(
                facts.table(tx),
                seq![*e, *v],
                seq![0usize, 1usize],
                facts.by_reference(),
            ),
            JoinStep::Entity { facts, tx, e } => triple_rows(
                facts.table(tx),
                seq![*e],
                seq![0usize],
                facts.by_reference(),
            ),
            JoinStep::Reference { facts, tx, v } => triple_rows(facts.table(tx), seq![*v], seq![1usize], true),
            JoinStep::IndexedValue { facts, tx, v } => triple_rows(
                facts.table(tx),
                seq![*v],
                seq![1usize],
                false,
            ),
            JoinStep::ScannedValue { facts, tx, v } => triple_rows(
                facts.table(tx),
                seq![*v],
                seq![1usize],
                false,
            ),
        }
    }

    /// The rows and errors that the step gives for a left row.
    pub fn rows_for(&self, tuple: &Tuple) -> (rows: TupleVec)
        requires
            self.wf(),
            self.accepts(tuple@),
        ensures
            stream_of(rows@) == (self.row_fn())(tuple@),
    {
        match self {
            JoinStep::Broadcast { table, li, ri, key } => table.broadcast_row(tuple, li, ri, key),
            JoinStep::Grouped { table, li, ri, groups } => table.grouped_row(tuple, li, ri, groups),
            JoinStep::Cartesian { facts, tx } => facts.cartesian_row(tuple, tx),
            JoinStep::Existence { facts, tx, e, v } => {
                assert(seq![*e, *v][0] < tuple@.len());
                assert(seq![*e, *v][1] < tuple@.len());
                facts.ev_rows(tuple, *e, *v, tx)
            },
            JoinStep::Entity { facts, tx, e } => {
                assert(seq![*e][0] < tuple@.len());
                facts.e_row(tuple, *e, tx)
            },
            JoinStep::Reference { facts, tx, v } => {
                assert(seq![*v][0] < tuple@.len());
                facts.v_ref_row(tuple, *v, tx)
            },
            JoinStep::IndexedValue { facts, tx, v } => {
                assert(seq![*v][0] < tuple@.len());
                facts.v_index_row(tuple, *v, tx)
            },
            JoinStep::ScannedValue { facts, tx, v } => {
                assert(seq![*v][0] < tuple@.len());
                facts.v_no_index_row(tuple, *v, tx)
            },
        }
    }
}

/// A fallible sequence of rows that is pulled element by element. An error
/// ends the sequence: nothing comes after it. A join pulls a row of its left
/// side only when the rows of the row before are used up.
#[derive(Debug)]
pub enum TupleIter<'a> {
    /// Rows and errors held in memory, from the place `at` on.
    Rows { rows: TupleVec, at: usize },
    /// A join: the left side, what is done with each of its rows, and of the
    /// rows of the last left row those from the place `at` on.
    Join { left: Box<TupleIter<'a>>, step: JoinStep<'a>, pending: TupleVec, at: usize, done: bool },
}

/// What is left of a join: nothing where it is done; else what is pending of
/// the rows of the last left row and then what the rest of the left side
/// gives, cut behind the first error.
pub open spec fn join_remaining(
    left: Seq<RowResult>,
    f: spec_fn(Seq<Value>) -> Seq<RowResult>,
    pending: Seq<RowResult>,
    at: int,
    done: bool,
) -> Seq<RowResult> {
    if done {
        Seq::empty()
    } else {
        until_error(pending.skip(at) + flat_map_ok(left, f))
    }
}

/// Whether `rest` is what is left of `rows` after `n` of them were pulled on
/// demand: none while one of the `held` elements, those from `at` on, was
/// pending, and each but the last because the rows before it gave no element.
pub open spec fn pulled(
    rows: Seq<RowResult>,
    rest: Seq<RowResult>,
    f: spec_fn(Seq<Value>) -> Seq<RowResult>,
    at: int,
    held: int,
    n: int,
) -> bool {
    &&& 0 <= n <= rows.len()
    &&& rest == rows.skip(n)
    &&& n > 0 ==> at >= held
    &&& forall|i: int| 0 <= i < n - 1 ==> (#[trigger] rows[i]) is Ok && f(rows[i]->Ok_0).len() == 0
}

/// Whether a join that went from `before` to `after` pulled its left side
/// only on demand.
pub open spec fn pulled_on_demand(before: TupleIter, after: TupleIter) -> bool {
    before is Join ==> after is Join && exists|n: int| #[trigger]
        pulled(
            before->left.remaining(),
            after->left.remaining(),
            before->step.row_fn(),
            before->Join_at as int,
            before->pending.len() as int,
            n,
        )
}

/// Whether a step accepts every row of a fallible sequence.
pub open spec fn all_accepted(left: Seq<RowResult>, step: JoinStep) -> bool {
    forall|i: int| 0 <= i < left.len() ==> ((#[trigger] left[i]) matches Ok(row) ==> step.accepts(row))
}

/// `flat_map_ok` of a sequence, first element apart.
proof fn lemma_flat_map_ok_front(left: Seq<RowResult>, f: spec_fn(Seq<Value>) -> Seq<RowResult>)
    requires
        left.len() > 0,
    ensures
        flat_map_ok(left, f) == match left[0] {
            Ok(t) => f(t),
            Err(e) => seq![Err(e)],
        } + flat_map_ok(left.skip(1), f),
{
    let first = seq![left[0]];
    assert(first + left.skip(1) =~= left);
    lemma_flat_map_ok_concat(first, left.skip(1), f);
    assert(first.drop_last() =~= Seq::<RowResult>::empty());
    assert(flat_map_ok(first.drop_last(), f) =~= Seq::<RowResult>::empty());
    assert(first.last() == left[0]);
    assert(flat_map_ok(first, f) =~= match left[0] {
        Ok(t) => f(t),
        Err(e) => seq![Err(e)],
    });
}

/// The next element of a join, pulled from what is pending or, where nothing
/// is, from the rows that the next rows of the left side give.
#[verifier::loop_isolation(false)]
#[verifier::rlimit(60)]
fn pull_join<'a>(
    left: &mut Box<TupleIter<'a>>,
    step: &JoinStep<'a>,
    pending: &mut TupleVec,
    at: &mut usize,
    done: &mut bool,
) -> (item: Option<Result<Tuple, QueryError>>)
    requires
        old(left).wf(),
        step.wf(),
        *old(at) <= old(pending).len(),
        !*old(done) ==> all_accepted(old(left).remaining(), *step),
    ensures
        final(left).wf(),
        final(left).depth() == old(left).depth(),
        *final(at) <= final(pending).len(),
        !*final(done) ==> all_accepted(final(left).remaining(), *step),
        exists|n: int| #[trigger]
            pulled(
                old(left).remaining(),
                final(left).remaining(),
                step.row_fn(),
                *old(at) as int,
                old(pending).len() as int,
                n,
            ),
        ({
            let before = join_remaining(
                old(left).remaining(),
                step.row_fn(),
                stream_of(old(pending)@),
                *old(at) as int,
                *old(done),
            );
            let after = join_remaining(
                final(left).remaining(),
                step.row_fn(),
                stream_of(final(pending)@),
                *final(at) as int,
                *final(done),
            );
            match item {
                None => before.len() == 0 && after.len() == 0,
                Some(x) => before.len() > 0 && row_of(x) == before[0] && after == before.skip(1),
            }
        }),
    decreases 2 * old(left).depth() + 1,
{
    let ghost f = step.row_fn();
    let ghost rows = left.remaining();
    let ghost at0 = *at as int;
    let ghost held0 = pending.len() as int;
    let ghost goal = join_remaining(rows, f, stream_of(pending@), at0, *done);
    let ghost depth = left.depth();
    let ghost mut n: int = 0;
    assert(rows.skip(0) =~= rows);
    loop
        invariant
            0 <= n <= rows.len(),
            left.remaining() == rows.skip(n),
            n == 0 ==> *at == at0 && pending.len() == held0,
            n > 0 ==> at0 >= held0,
            n > 0 ==> *at == 0 && rows[n - 1] is Ok && stream_of(pending@) == f(rows[n - 1]->Ok_0),
            forall|i: int| 0 <= i < n - 1 ==> (#[trigger] rows[i]) is Ok && f(rows[i]->Ok_0).len() == 0,
            left.depth() == depth,
            left.wf(),
            step.wf(),
            f == step.row_fn(),
            *at <= pending.len(),
            !*done ==> all_accepted(left.remaining(), *step),
            join_remaining(left.remaining(), f, stream_of(pending@), *at as int, *done) == goal,
        decreases left.remaining().len(),
    {
        if *done {
            assert(pulled(rows, left.remaining(), f, at0, held0, n));
            return None;
        }
        let ghost p = stream_of(pending@);
        let ghost rest = flat_map_ok(left.remaining(), f);
        if *at < pending.len() {
            let ghost here = *at as int;
            let item = match &pending[*at] {
                Ok(t) => Ok(t.clone()),
                Err(e) => Err(e.clone()),
            };
            proof {
                assert((p.skip(here) + rest)[0] == p[here]);
                assert((p.skip(here) + rest).skip(1) =~= p.skip(here + 1) + rest);
            }
            if item.is_err() {
                *done = true;
                assert(goal.skip(1) =~= Seq::<RowResult>::empty());
            } else {
                *at = *at + 1;
                assert(goal.skip(1) =~= until_error(p.skip(here + 1) + rest));
            }
            assert(pulled(rows, left.remaining(), f, at0, held0, n));
            return Some(item);
        }
        let ghost before = left.remaining();
        proof {
            assert(p.skip(*at as int) =~= Seq::<RowResult>::empty());
            assert(p.skip(*at as int) + rest =~= rest);
            if before.len() > 0 {
                assert(rows.skip(n).skip(1) =~= rows.skip(n + 1));
                assert(before[0] == rows[n]);
                lemma_flat_map_ok_front(before, f);
            }
            if n > 0 {
                assert(f(rows[n - 1]->Ok_0).len() == p.len());
            }
        }
        match left.next() {
            None => {
                *done = true;
                proof {
                    assert(rest =~= Seq::<RowResult>::empty());
                    assert(left.remaining() =~= rows.skip(rows.len() as int));
                    n = rows.len() as int;
                    assert(pulled(rows, left.remaining(), f, at0, held0, n));
                }
                return None;
            },
            Some(Err(e)) => {
                *done = true;
                proof {
                    n = n + 1;
                    assert(goal =~= seq![Err::<Seq<Value>, QueryError>(e)]);
                    assert(goal.skip(1) =~= Seq::<RowResult>::empty());
                    assert(pulled(rows, left.remaining(), f, at0, held0, n));
                }
                return Some(Err(e));
            },
            Some(Ok(t)) => {
                assert(step.accepts(t@));
                *pending = step.rows_for(&t);
                *at = 0;
                proof {
                    n = n + 1;
                    let q = stream_of(pending@);
                    assert(q.skip(0) =~= q);
                    assert forall|i: int| 0 <= i < left.remaining().len() implies ((
                    #[trigger] left.remaining()[i]) matches Ok(row) ==> step.accepts(row)) by {
                        assert(left.remaining()[i] == before[i + 1]);
                    }
                }
            },
        }
    }
}

impl<'a> TupleIter<'a> {
    /// The elements that are still to come, in order.
    pub open spec fn remaining(&self) -> Seq<RowResult>
        decreases self,
    {
        match self {
            TupleIter::Rows { rows, at } => until_error(stream_of(rows@).skip(*at as int)),
            TupleIter::Join { left, step, pending, at, done } => join_remaining(
                left.remaining(),
                step.row_fn(),
                stream_of(pending@),
                *at as int,
                *done,
            ),
        }
    }

    /// The places are places of what is held, and each join can take the rows
    /// that its left side still gives.
    pub open spec fn wf(&self) -> bool
        decreases self,
    {
        match self {
            TupleIter::Rows { rows, at } => *at <= rows.len(),
            TupleIter::Join { left, step, pending, at, done } => {
                &&& left.wf()
                &&& step.wf()
                &&& *at <= pending.len()
                &&& !*done ==> all_accepted(left.remaining(), *step)
            },
        }
    }

    /// How many joins stand one inside the other.
    pub open spec fn depth(&self) -> nat
        decreases self,
    {
        match self {
            TupleIter::Rows { rows, at } => 0,
            TupleIter::Join { left, step, pending, at, done } => left.depth() + 1,
        }
    }

    /// Whether this is a join of which nothing has been pulled yet.
    pub open spec fn fresh(&self) -> bool {
        &&& *self is Join
        &&& self->pending@.len() == 0
        &&& self->Join_at == 0
        &&& !self->done
    }

    /// Whether this is a join with `left` as its left side of which nothing
    /// has been pulled yet.
    pub open spec fn starts_with(&self, left: TupleIter<'a>) -> bool {
        self.fresh() && *self->left == left
    }

    /// Whether this is the join of `left` by `step` of which nothing has been
    /// pulled yet.
    pub open spec fn starts_join(&self, left: TupleIter<'a>, step: JoinStep<'a>) -> bool {
        self.starts_with(left) && self->step == step
    }

    /// The sequence of the rows and errors given, up to the first error.
    pub fn from_vec(rows: TupleVec) -> (out: TupleIter<'a>)
        ensures
            out.wf(),
            out == (TupleIter::Rows { rows, at: 0 }),
            out.remaining() == until_error(stream_of(rows@)),
    {
        assert(stream_of(rows@).skip(0) =~= stream_of(rows@));
        TupleIter::Rows { rows, at: 0 }
    }

    /// The join of a sequence with what `step` gives for each of its rows.
    pub fn joined(left: TupleIter<'a>, step: JoinStep<'a>) -> (out: TupleIter<'a>)
        requires
            left.wf(),
            step.wf(),
            all_accepted(left.remaining(), step),
        ensures
            out.wf(),
            out.starts_join(left, step),
            out.remaining() == until_error(flat_map_ok(left.remaining(), step.row_fn())),
    {
        let pending: TupleVec = Vec::new();
        proof {
            let rest = flat_map_ok(left.remaining(), step.row_fn());
            assert(stream_of(pending@).skip(0) + rest =~= rest);
        }
        TupleIter::Join { left: Box::new(left), step, pending, at: 0, done: false }
    }

    /// The next element, or `None` at the end. After an error the end is
    /// reached.
    pub fn next(&mut self) -> (item: Option<Result<Tuple, QueryError>>)
        requires
            old(self).wf(),
        ensures
            final(self).wf(),
            final(self).depth() == old(self).depth(),
            pulled_on_demand(*old(self), *final(self)),
            match item {
                None => old(self).remaining().len() == 0 && final(self).remaining().len() == 0,
                Some(x) => old(self).remaining().len() > 0 && row_of(x) == old(self).remaining()[0]
                    && final(self).remaining() == old(self).remaining().skip(1),
            },
        decreases 2 * old(self).depth(),
    {
        match self {
            TupleIter::Rows { rows, at } => {
                let ghost s = stream_of(rows@);
                if *at < rows.len() {
                    let ghost here = *at as int;
                    let item = match &rows[*at] {
                        Ok(t) => Ok(t.clone()),
                        Err(e) => Err(e.clone()),
                    };
                    proof {
                        assert(s.skip(here)[0] == s[here]);
                        assert(s.skip(here).skip(1) =~= s.skip(here + 1));
                        assert(s.skip(rows.len() as int) =~= Seq::<RowResult>::empty());
                    }
                    if item.is_err() {
                        *at = rows.len();
                        assert(until_error(s.skip(here)).skip(1) =~= Seq::<RowResult>::empty());
                    } else {
                        *at = *at + 1;
                        assert(until_error(s.skip(here)).skip(1) =~= until_error(s.skip(here + 1)));
                    }
                    Some(item)
                } else {
                    assert(s.skip(*at as int) =~= Seq::<RowResult>::empty());
                    None
                }
            },
            TupleIter::Join { left, step, pending, at, done } => pull_join(left, step, pending, at, done),
        }
    }

    /// All elements that are still to come, pulled to the end.
    pub fn collect(self) -> (out: TupleVec)
        requires
            self.wf(),
        ensures
            stream_of(out@) == self.remaining(),
    {
        let ghost goal = self.remaining();
        let mut iter = self;
        let mut out: TupleVec = Vec::new();
        assert(stream_of(out@) + iter.remaining() =~= goal);
        loop
            invariant
                iter.wf(),
                stream_of(out@) + iter.remaining() == goal,
            ensures
                stream_of(out@) == goal,
            decreases iter.remaining().len(),
        {
            let ghost before = out@;
            let ghost rest = iter.remaining();
            match iter.next() {
                None => {
                    assert(stream_of(out@) + rest =~= stream_of(out@));
                    break ;
                },
                Some(item) => {
                    out.push(item);
                    assert(stream_of(out@) + iter.remaining() =~= stream_of(before) + rest);
                },
            }
        }
        out
    }
}

} // verus!
