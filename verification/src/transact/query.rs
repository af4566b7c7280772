//! Relation trees: their columns and their rows.

use vstd::prelude::*;
use crate::data::keyword::{names, Keyword};
use crate::data::tuple::{stream_of, RowResult, Tuple, TupleVec};
use crate::data::attr::Attribute;
use crate::data::id::Validity;
use crate::data::value::{clone_values, DataValue, Value};
use crate::error::QueryError;
use crate::runtime::transact::{attribute_probe, found, select, SessionTx};
use crate::transact::cursor::{JoinStep, TupleIter};
use crate::transact::fixed::InlineFixedRelation;
use crate::transact::joiner::{key_positions, lemma_last_index_of, lemma_resolves, Joiner};
use crate::transact::nested_loop::{
    covers, lemma_nested_loop_row, nested_loop_join, rows_cover, table_covers,
};
use crate::transact::stream::{lemma_until_error_none, until_error};
use crate::transact::triple::{
    appended, fact_row, lemma_triple_join_row, rows_of_facts, triple_join, with_pairs,
    TripleRelation,
};

verus! {

/// A relation kept under a name, computed elsewhere.
#[derive(Debug, PartialEq, Eq)]
pub struct StoredDerivedRelation {
    pub name: Keyword,
    pub arity: usize,
    pub bindings: Vec<Keyword>,
}

/// A relation without some of its columns.
#[derive(Debug, PartialEq, Eq)]
pub struct ProjectedRelation {
    pub relation: Relation,
    pub eliminate: Vec<Keyword>,
}

/// The inner join of two relations on the columns that the joiner names.
#[derive(Debug, PartialEq, Eq)]
pub struct InnerJoin {
    pub left: Relation,
    pub right: Relation,
    pub joiner: Joiner,
}

/// A relation: a literal table, the facts of an attribute, or what is made of
/// relations by joining and projecting.
#[derive(Debug, PartialEq, Eq)]
pub enum Relation {
    Fixed(InlineFixedRelation),
    Triple(TripleRelation),
    Derived(StoredDerivedRelation),
    Join(Box<InnerJoin>),
    Project(Box<ProjectedRelation>),
}

/// Merges the two levels of a nested result: the outer error, else the inner
/// error, else the value.
pub fn flatten_err<T>(v: Result<Result<T, QueryError>, QueryError>) -> (out: Result<T, QueryError>)
    ensures
        out == match v {
            Err(e) => Err::<T, QueryError>(e),
            Ok(Err(e)) => Err::<T, QueryError>(e),
            Ok(Ok(x)) => Ok::<T, QueryError>(x),
        },
{
    match v {
        Err(e) => Err(e),
        Ok(Err(e)) => Err(e),
        Ok(Ok(x)) => Ok(x),
    }
}

/// Turns a result that may hold nothing into an element of a fallible
/// sequence, or into no element: an error stays an element, "nothing" is none.
pub fn invert_option_err<T>(v: Result<Option<T>, QueryError>) -> (out: Option<Result<T, QueryError>>)
    ensures
        out == match v {
            Err(e) => Some(Err::<T, QueryError>(e)),
            Ok(None) => None::<Result<T, QueryError>>,
            Ok(Some(x)) => Some(Ok::<T, QueryError>(x)),
        },
{
    match v {
        Err(e) => Some(Err(e)),
        Ok(None) => None,
        Ok(Some(x)) => Some(Ok(x)),
    }
}

/// The rows of a table as a sequence that met no error.
pub open spec fn all_rows(table: Seq<Seq<Value>>) -> Seq<RowResult> {
    Seq::new(table.len(), |i: int| Ok(table[i]))
}

/// The names of `bindings` that are not among `eliminate`, in order.
pub open spec fn without(bindings: Seq<Keyword>, eliminate: Seq<Keyword>) -> Seq<Keyword>
    decreases bindings.len(),
{
    if bindings.len() == 0 {
        Seq::empty()
    } else {
        let before = without(bindings.drop_last(), eliminate);
        if names(eliminate).contains(bindings.last()@) {
            before
        } else {
            before.push(bindings.last())
        }
    }
}

/// The rows of a join, given the rows and the columns of its left side.
pub open spec fn join_rows(
    left_rows: Seq<RowResult>,
    left_bindings: Seq<Keyword>,
    right: Relation,
    joiner: Joiner,
    tx: &SessionTx,
) -> Seq<RowResult> {
    let li = key_positions(joiner.left_keys@, left_bindings);
    let ri = key_positions(joiner.right_keys@, right.spec_bindings());
    match right {
        Relation::Fixed(f) => if f.data.len() == 0 {
            Seq::empty()
        } else {
            nested_loop_join(left_rows, f.table(), li, ri)
        },
        Relation::Triple(t) => triple_join(left_rows, t.table(tx), li, ri, t.by_reference()),
        _ => seq![Err(QueryError::Unsupported)],
    }
}

/// Whether a join can be run: its keys pair up, each is a column of its side,
/// and against the facts of an attribute there are at most two pairs, which
/// name different columns.
pub open spec fn join_wf(left_bindings: Seq<Keyword>, right: Relation, joiner: Joiner) -> bool {
    (right is Fixed || right is Triple) ==> {
        &&& joiner.wf()
        &&& joiner.keys_bound(left_bindings, right.spec_bindings())
        &&& right is Triple ==> {
            &&& joiner.right_keys.len() <= 2
            &&& joiner.right_keys.len() == 2 ==> joiner.right_keys[0]@ != joiner.right_keys[1]@
        }
    }
}

/// Whether a sequence is the join that the plan asks for, of which nothing
/// has been pulled yet: its left side gives the rows of the left relation;
/// a literal table is joined as its size demands, on the columns that the
/// joiner finds; and the facts of an attribute are read as the joined columns
/// demand.
pub open spec fn joins_as_planned(out: TupleIter, join: InnerJoin, tx: &SessionTx) -> bool {
    let li = key_positions(join.joiner.left_keys@, join.left.spec_bindings());
    let ri = key_positions(join.joiner.right_keys@, join.right.spec_bindings());
    match join.right {
        Relation::Fixed(f) => if f.data.len() == 0 {
            out is Rows && out->rows@.len() == 0
        } else {
            &&& out.fresh()
            &&& out->left.remaining() == join.left.rows(tx)
            &&& if f.data.len() == 1 {
                out->step matches JoinStep::Broadcast { table, li: l, ri: r, key } && *table == f && l@ == li
                    && r@ == ri
            } else {
                out->step matches JoinStep::Grouped { table, li: l, ri: r, groups } && *table == f && l@ == li
                    && r@ == ri
            }
        },
        Relation::Triple(t) => {
            &&& out.fresh()
            &&& out->left.remaining() == join.left.rows(tx)
            &&& out->step == t.access_path(li, ri, tx)
        },
        _ => out is Rows,
    }
}

/// A copy of a list of names.
pub fn clone_keywords(keys: &[Keyword]) -> (out: Vec<Keyword>)
    ensures
        out@ == keys@,
{
    let mut out: Vec<Keyword> = Vec::new();
    let mut i: usize = 0;
    while i < keys.len()
        invariant
            i <= keys.len(),
            out@ == keys@.take(i as int),
        decreases keys.len() - i,
    {
        out.push(keys[i].clone());
        assert(out@ =~= keys@.take(i + 1));
        i += 1;
    }
    assert(keys@.take(i as int) =~= keys@);
    out
}

/// Whether `key` is among `keys`.
pub fn has_keyword(keys: &Vec<Keyword>, key: &Keyword) -> (yes: bool)
    ensures
        yes == names(keys@).contains(key@),
{
    let mut i: usize = 0;
    while i < keys.len()
        invariant
            i <= keys.len(),
            forall|j: int| 0 <= j < i ==> (#[trigger] names(keys@)[j]) != key@,
        decreases keys.len() - i,
    {
        if keys[i].same_name(key) {
            assert(names(keys@)[i as int] == key@);
            return true;
        }
        i += 1;
    }
    false
}

/// Whether each of `keys` is among `bindings`.
pub fn all_bound(keys: &Vec<Keyword>, bindings: &Vec<Keyword>) -> (ok: bool)
    ensures
        ok == forall|i: int| 0 <= i < keys.len() ==> names(bindings@).contains((#[trigger] keys[i])@),
{
    let mut i: usize = 0;
    while i < keys.len()
        invariant
            i <= keys.len(),
            forall|j: int| 0 <= j < i ==> names(bindings@).contains((#[trigger] keys[j])@),
        decreases keys.len() - i,
    {
        if !has_keyword(bindings, &keys[i]) {
            return false;
        }
        i += 1;
    }
    true
}

/// Whether a join can be run.
pub fn join_is_wf(left_bindings: &Vec<Keyword>, right: &Relation, joiner: &Joiner) -> (ok: bool)
    ensures
        ok == join_wf(left_bindings@, *right, *joiner),
{
    let against_facts = match right {
        Relation::Fixed(_) => false,
        Relation::Triple(_) => true,
        _ => {
            return true;
        },
    };
    if joiner.left_keys.len() != joiner.right_keys.len() {
        return false;
    }
    let right_bindings = right.bindings();
    if !all_bound(&joiner.left_keys, left_bindings) || !all_bound(&joiner.right_keys, &right_bindings) {
        return false;
    }
    if against_facts {
        if joiner.right_keys.len() > 2 {
            return false;
        }
        if joiner.right_keys.len() == 2 && joiner.right_keys[0].same_name(&joiner.right_keys[1]) {
            return false;
        }
    }
    true
}

impl Relation {
    /// A literal table with the given columns and rows.
    pub fn fixed(bindings: Vec<Keyword>, data: Vec<Vec<DataValue>>) -> (out: Relation)
        ensures
            out == Relation::Fixed(InlineFixedRelation { bindings, data }),
    {
        Relation::Fixed(InlineFixedRelation { bindings, data })
    }

    /// The facts of an attribute as of a point in time, with a name for the
    /// column of the entities and one for the column of the values.
    pub fn triple(attr: Attribute, vld: Validity, entity: Keyword, value: Keyword) -> (out: Relation)
        ensures
            out matches Relation::Triple(t) && t.attr == attr && t.vld == vld && t.bindings@ == seq![
                entity,
                value,
            ],
    {
        let t = TripleRelation { attr, vld, bindings: [entity, value] };
        assert(t.bindings@ =~= seq![entity, value]);
        Relation::Triple(t)
    }

    /// The inner join of two relations on the columns that the joiner names.
    pub fn join(left: Relation, right: Relation, joiner: Joiner) -> (out: Relation)
        ensures
            out == Relation::Join(Box::new(InnerJoin { left, right, joiner })),
    {
        Relation::Join(Box::new(InnerJoin { left, right, joiner }))
    }

    /// A relation without the columns named in `eliminate`.
    pub fn project(relation: Relation, eliminate: Vec<Keyword>) -> (out: Relation)
        ensures
            out == Relation::Project(Box::new(ProjectedRelation { relation, eliminate })),
    {
        Relation::Project(Box::new(ProjectedRelation { relation, eliminate }))
    }

    /// Whether the relation can be run. A plan that fails this test is
    /// inconsistent in itself and must not be handed to `iter`.
    pub fn validate(&self) -> (ok: bool)
        ensures
            ok == self.wf(),
        decreases self,
    {
        match self {
            Relation::Fixed(f) => f.is_wf(),
            Relation::Join(j) => {
                if !j.left.validate() || !j.right.validate() {
                    return false;
                }
                let left_bindings = j.left.bindings();
                join_is_wf(&left_bindings, &j.right, &j.joiner)
            },
            _ => true,
        }
    }

    /// The names of the columns, in the order of the columns.
    pub open spec fn spec_bindings(&self) -> Seq<Keyword>
        decreases self,
    {
        match self {
            Relation::Fixed(f) => f.bindings@,
            Relation::Triple(t) => t.bindings@,
            Relation::Derived(d) => d.bindings@,
            Relation::Join(j) => j.left.spec_bindings() + j.right.spec_bindings(),
            Relation::Project(p) => without(p.relation.spec_bindings(), p.eliminate@),
        }
    }

    /// Whether the relation can be run: its literal tables have one value for
    /// each column in every row, and each of its joins can be run.
    pub open spec fn wf(&self) -> bool
        decreases self,
    {
        match self {
            Relation::Fixed(f) => f.wf(),
            Relation::Join(j) => j.left.wf() && j.right.wf() && join_wf(
                j.left.spec_bindings(),
                j.right,
                j.joiner,
            ),
            _ => true,
        }
    }

    /// The rows of the relation over a snapshot: those of a literal table;
    /// the facts of an attribute, each as the entity and the value; those of
    /// a join. A relation kept under a name and a projection are not run:
    /// they give the error `Unsupported`, and so does a join with one of them,
    /// or with a join, on its right side.
    pub open spec fn rows(&self, tx: &SessionTx) -> Seq<RowResult>
        decreases self,
    {
        match self {
            Relation::Fixed(f) => all_rows(f.table()),
            Relation::Triple(t) => all_rows(t.table(tx)),
            Relation::Join(j) => join_rows(j.left.rows(tx), j.left.spec_bindings(), j.right, j.joiner, tx),
            _ => seq![Err(QueryError::Unsupported)],
        }
    }

    /// The names of the columns, in the order of the columns: for a join
    /// those of the left side and then those of the right side, for a
    /// projection those of the relation that are not eliminated.
    pub fn bindings(&self) -> (out: Vec<Keyword>)
        ensures
            out@ == self.spec_bindings(),
        decreases self,
    {
        match self {
            Relation::Fixed(f) => clone_keywords(f.bindings.as_slice()),
            Relation::Triple(t) => {
                let mut out: Vec<Keyword> = Vec::new();
                out.push(t.bindings[0].clone());
                out.push(t.bindings[1].clone());
                assert(out@ =~= t.bindings@);
                out
            },
            Relation::Derived(d) => clone_keywords(d.bindings.as_slice()),
            Relation::Join(j) => {
                let mut out = j.left.bindings();
                let mut right = j.right.bindings();
                out.append(&mut right);
                out
            },
            Relation::Project(p) => {
                let all = p.relation.bindings();
                let mut out: Vec<Keyword> = Vec::new();
                let mut i: usize = 0;
                assert(all@.take(0) =~= Seq::<Keyword>::empty());
                while i < all.len()
                    invariant
                        i <= all.len(),
                        out@ == without(all@.take(i as int), p.eliminate@),
                    decreases all.len() - i,
                {
                    proof {
                        assert(all@.take(i + 1).drop_last() =~= all@.take(i as int));
                        assert(all@.take(i + 1).last() == all@[i as int]);
                    }
                    if !has_keyword(&p.eliminate, &all[i]) {
                        out.push(all[i].clone());
                    }
                    i += 1;
                }
                assert(all@.take(i as int) =~= all@);
                out
            },
        }
    }

    /// The rows of the relation over a snapshot, as a sequence that is pulled
    /// element by element.
    pub fn iter<'a>(&'a self, tx: &'a SessionTx) -> (out: TupleIter<'a>)
        requires
            self.wf(),
            tx.wf(),
        ensures
            out.wf(),
            out.remaining() == self.rows(tx),
            match self {
                Relation::Join(j) => joins_as_planned(out, **j, tx),
                _ => out is Rows && out->Rows_at == 0,
            },
        decreases self,
    {
        match self {
            Relation::Fixed(f) => {
                let mut rows: TupleVec = Vec::new();
                let mut i: usize = 0;
                while i < f.data.len()
                    invariant
                        i <= f.data.len(),
                        rows.len() == i,
                        forall|q: int| 0 <= q < i ==> stream_of(rows@)[q] == all_rows(f.table())[q],
                    decreases f.data.len() - i,
                {
                    let ghost before = rows@;
                    rows.push(Ok(Tuple(clone_values(&f.data[i]))));
                    assert forall|q: int| 0 <= q < i + 1 implies stream_of(rows@)[q] == all_rows(
                        f.table(),
                    )[q] by {
                        if q < i {
                            assert(stream_of(rows@)[q] == stream_of(before)[q]);
                        }
                    }
                    i += 1;
                }
                proof {
                    assert(stream_of(rows@) =~= all_rows(f.table()));
                    lemma_until_error_none(all_rows(f.table()));
                }
                TupleIter::from_vec(rows)
            },
            Relation::Triple(r) => {
                let scan = tx.triple_a_before_scan(r.attr.id, r.vld);
                let start = Tuple(Vec::new());
                let rows = with_pairs(&start, &scan);
                proof {
                    let chosen = select(tx@, attribute_probe(r.attr.id, r.vld));
                    assert(start@ =~= Seq::<Value>::empty());
                    assert(appended(start@, found(chosen)) =~= all_rows(rows_of_facts(chosen))) by {
                        assert forall|q: int| 0 <= q < chosen.len() implies appended(
                            start@,
                            found(chosen),
                        )[q] == all_rows(rows_of_facts(chosen))[q] by {
                            assert(start@ + fact_row(chosen[q]) =~= fact_row(chosen[q]));
                        }
                    }
                    lemma_until_error_none(all_rows(r.table(tx)));
                }
                TupleIter::from_vec(rows)
            },
            Relation::Join(j) => j.iter(tx),
            _ => {
                let mut rows: TupleVec = Vec::new();
                rows.push(Err(QueryError::Unsupported));
                proof {
                    let only = seq![Err::<Seq<Value>, QueryError>(QueryError::Unsupported)];
                    assert(stream_of(rows@) =~= only);
                    assert(until_error(only) =~= only);
                }
                TupleIter::from_vec(rows)
            },
        }
    }

    /// In every row of a relation that can be run, there is one value for
    /// each column.
    pub proof fn lemma_rows_arity(&self, tx: &SessionTx, i: int)
        requires
            self.wf(),
            0 <= i < self.rows(tx).len(),
            self.rows(tx)[i] is Ok,
        ensures
            self.rows(tx)[i]->Ok_0.len() == self.spec_bindings().len(),
        decreases self,
    {
        match self {
            Relation::Fixed(f) => {
                assert(f.data[i].len() == f.bindings.len());
                assert(f.table()[i].len() == f.data[i].len());
            },
            Relation::Triple(t) => {
                let chosen = select(tx@, attribute_probe(t.attr.id, t.vld));
                assert(t.table(tx)[i] == fact_row(chosen[i]));
                assert(t.bindings@.len() == 2);
            },
            Relation::Join(j) => {
                let left_rows = j.left.rows(tx);
                let li = key_positions(j.joiner.left_keys@, j.left.spec_bindings());
                let ri = key_positions(j.joiner.right_keys@, j.right.spec_bindings());
                match j.right {
                    Relation::Fixed(f) => {
                        let at = lemma_nested_loop_row(left_rows, f.table(), li, ri, i);
                        j.left.lemma_rows_arity(tx, at.0);
                        assert(f.wf()) by {
                            reveal_with_fuel(Relation::wf, 2);
                        }
                        assert(f.data[at.1].len() == f.bindings.len());
                        assert(f.table()[at.1].len() == f.data[at.1].len());
                    },
                    Relation::Triple(t) => {
                        let at = lemma_triple_join_row(left_rows, t.table(tx), li, ri, t.by_reference(), i);
                        j.left.lemma_rows_arity(tx, at.0);
                        let chosen = select(tx@, attribute_probe(t.attr.id, t.vld));
                        assert(t.table(tx)[at.1] == fact_row(chosen[at.1]));
                        assert(t.bindings@.len() == 2);
                    },
                    _ => {},
                }
            },
            _ => {},
        }
    }
}

impl InnerJoin {
    /// The rows of the join over a snapshot, as a sequence that is pulled
    /// element by element.
    pub fn iter<'a>(&'a self, tx: &'a SessionTx) -> (out: TupleIter<'a>)
        requires
            self.left.wf(),
            self.right.wf(),
            join_wf(self.left.spec_bindings(), self.right, self.joiner),
            tx.wf(),
        ensures
            out.wf(),
            out.remaining() == join_rows(
                self.left.rows(tx),
                self.left.spec_bindings(),
                self.right,
                self.joiner,
                tx,
            ),
            joins_as_planned(out, *self, tx),
        decreases self,
    {
        match &self.right {
            Relation::Fixed(f) => {
                let left_iter = self.left.iter(tx);
                let left_bindings = self.left.bindings();
                let right_bindings = self.right.bindings();
                let join_indices = self.joiner.join_indices(left_bindings.as_slice(), right_bindings.as_slice());
                proof {
                    lemma_resolves(join_indices.0@, self.joiner.left_keys@, left_bindings@);
                    lemma_resolves(join_indices.1@, self.joiner.right_keys@, right_bindings@);
                    self.lemma_left_rows_cover(tx, join_indices.0@);
                    assert(table_covers(f.table(), join_indices.1@));
                }
                f.join(left_iter, join_indices)
            },
            Relation::Triple(r) => {
                let left_iter = self.left.iter(tx);
                let left_bindings = self.left.bindings();
                let right_bindings = self.right.bindings();
                let join_indices = self.joiner.join_indices(left_bindings.as_slice(), right_bindings.as_slice());
                proof {
                    lemma_resolves(join_indices.0@, self.joiner.left_keys@, left_bindings@);
                    lemma_resolves(join_indices.1@, self.joiner.right_keys@, right_bindings@);
                    self.lemma_left_rows_cover(tx, join_indices.0@);
                    let ri = join_indices.1@;
                    if ri.len() == 2 {
                        lemma_last_index_of(names(right_bindings@), self.joiner.right_keys[0]@, ri[0] as int);
                        lemma_last_index_of(names(right_bindings@), self.joiner.right_keys[1]@, ri[1] as int);
                    }
                    assert(TripleRelation::joinable(join_indices.0@, ri));
                }
                r.join(left_iter, join_indices, tx)
            },
            _ => {
                let mut rows: TupleVec = Vec::new();
                rows.push(Err(QueryError::Unsupported));
                proof {
                    let only = seq![Err::<Seq<Value>, QueryError>(QueryError::Unsupported)];
                    assert(stream_of(rows@) =~= only);
                    assert(until_error(only) =~= only);
                }
                TupleIter::from_vec(rows)
            },
        }
    }

    /// Every row of the left side has the columns that the positions of the
    /// left keys name.
    proof fn lemma_left_rows_cover(&self, tx: &SessionTx, li: Seq<usize>)
        requires
            self.left.wf(),
            forall|k: int| 0 <= k < li.len() ==> (#[trigger] li[k]) < self.left.spec_bindings().len(),
        ensures
            rows_cover(self.left.rows(tx), li),
    {
        let rows = self.left.rows(tx);
        assert forall|i: int| 0 <= i < rows.len() implies ((#[trigger] rows[i]) matches Ok(row) ==> covers(
            row,
            li,
        )) by {
            if rows[i] is Ok {
                self.left.lemma_rows_arity(tx, i);
            }
        }
    }
}

} // verus!
