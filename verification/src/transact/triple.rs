//! The facts of an attribute as a relation, and the join with them.

use vstd::prelude::*;
use crate::data::attr::Attribute;
use crate::data::id::{AttrId, Validity};
use crate::data::keyword::Keyword;
use crate::data::tuple::{row_of, stream_of, RowResult, Tuple, TupleVec};
use crate::data::value::{entity_of, values_of, DataValue, Value};
use crate::error::QueryError;
use crate::runtime::transact::{
    attribute_probe, distinct_facts, fits, found, pairs_of, select, Fact, PairResult, Probe,
    Scan, SessionTx,
};
use crate::transact::cursor::{JoinStep, TupleIter};
use crate::transact::nested_loop::{
    covers, keys_agree, lemma_matches_row, matches_of, project, rows_cover,
};
use crate::transact::query::{flatten_err, invert_option_err};
use crate::transact::stream::{
    flat_map_ok, lemma_flat_map_ok_source, lemma_until_error_shape, until_error,
};

verus! {

/// A fact as a row of two columns: the entity, then the value.
pub open spec fn fact_row(f: Fact) -> Seq<Value> {
    seq![Value::EnId(f.entity), f.value]
}

/// Facts as rows of two columns, in order.
pub open spec fn rows_of_facts(facts: Seq<Fact>) -> Seq<Seq<Value>> {
    Seq::new(facts.len(), |i: int| fact_row(facts[i]))
}

/// The facts of an attribute as of a point in time, as a table of two
/// columns in the order of the store.
pub open spec fn fact_table(facts: Seq<Fact>, attr: AttrId, as_of: Validity) -> Seq<Seq<Value>> {
    rows_of_facts(select(facts, attribute_probe(attr, as_of)))
}

/// Whether the left row holds an entity reference in each column that has to
/// hold one: each column joined to the entity column, and the column joined
/// to the value column where it alone is joined and is looked up by reference.
pub open spec fn entities_bound(row: Seq<Value>, li: Seq<usize>, ri: Seq<usize>, by_reference: bool) -> bool {
    forall|k: int|
        0 <= k < ri.len() && (#[trigger] ri[k] == 0 || (ri.len() == 1 && by_reference))
            ==> row[li[k] as int] is EnId
}

/// The rows that one left row gives against the facts of an attribute: those
/// of the nested-loop join with the table of the facts, or the error
/// `NotAnEntity` where a column that has to hold an entity reference holds
/// none.
pub open spec fn triple_matches(
    row: Seq<Value>,
    table: Seq<Seq<Value>>,
    li: Seq<usize>,
    ri: Seq<usize>,
    by_reference: bool,
) -> Seq<RowResult> {
    if entities_bound(row, li, ri, by_reference) {
        matches_of(row, table, li, ri)
    } else {
        seq![Err(QueryError::NotAnEntity)]
    }
}

/// `triple_matches` as a function of the left row.
pub open spec fn triple_rows(table: Seq<Seq<Value>>, li: Seq<usize>, ri: Seq<usize>, by_reference: bool) -> spec_fn(
    Seq<Value>,
) -> Seq<RowResult> {
    |row: Seq<Value>| triple_matches(row, table, li, ri, by_reference)
}

/// The join of a fallible sequence of left rows with the facts of an
/// attribute, cut behind the first error.
pub open spec fn triple_join(
    left: Seq<RowResult>,
    table: Seq<Seq<Value>>,
    li: Seq<usize>,
    ri: Seq<usize>,
    by_reference: bool,
) -> Seq<RowResult> {
    until_error(flat_map_ok(left, triple_rows(table, li, ri, by_reference)))
}

/// A left row with each scanned entity and value behind it; an error of the
/// scan stays in its place.
pub open spec fn appended(row: Seq<Value>, pairs: Seq<PairResult>) -> Seq<RowResult> {
    Seq::new(
        pairs.len(),
        |i: int|
            match pairs[i] {
                Ok(pair) => Ok(row + seq![Value::EnId(pair.0), pair.1]),
                Err(e) => Err(e),
            },
    )
}

/// A left row with each scanned entity and then `value` behind it; an error
/// of the scan stays in its place.
pub open spec fn appended_with(row: Seq<Value>, pairs: Seq<PairResult>, value: Value) -> Seq<RowResult> {
    Seq::new(
        pairs.len(),
        |i: int|
            match pairs[i] {
                Ok(pair) => Ok(row + seq![Value::EnId(pair.0), value]),
                Err(e) => Err(e),
            },
    )
}

/// A left row with each scanned entity and value behind it, for the scanned
/// values that are `value`; an error of the scan stays in its place.
pub open spec fn appended_where(row: Seq<Value>, pairs: Seq<PairResult>, value: Value) -> Seq<RowResult>
    decreases pairs.len(),
{
    if pairs.len() == 0 {
        Seq::empty()
    } else {
        let before = appended_where(row, pairs.drop_last(), value);
        match pairs.last() {
            Ok(pair) => if pair.1 == value {
                before.push(Ok(row + seq![Value::EnId(pair.0), pair.1]))
            } else {
                before
            },
            Err(e) => before.push(Err(e)),
        }
    }
}

/// Agreement on no column holds of any two rows.
pub proof fn lemma_keys_agree_none(l: Seq<Value>, r: Seq<Value>)
    ensures
        keys_agree(l, r, Seq::<usize>::empty(), Seq::<usize>::empty()),
{
    assert(project(l, Seq::<usize>::empty()) =~= project(r, Seq::<usize>::empty()));
}

/// Agreement on one pair of columns is equality of the two values.
pub proof fn lemma_keys_agree_one(l: Seq<Value>, r: Seq<Value>, c: usize, d: usize)
    ensures
        keys_agree(l, r, seq![c], seq![d]) == (l[c as int] == r[d as int]),
{
    if l[c as int] == r[d as int] {
        assert(project(l, seq![c]) =~= project(r, seq![d]));
    } else {
        assert(project(l, seq![c])[0] == l[c as int]);
        assert(project(r, seq![d])[0] == r[d as int]);
    }
}

/// Agreement on two pairs of columns is equality in each pair.
pub proof fn lemma_keys_agree_two(l: Seq<Value>, r: Seq<Value>, c0: usize, c1: usize, d0: usize, d1: usize)
    ensures
        keys_agree(l, r, seq![c0, c1], seq![d0, d1]) == (l[c0 as int] == r[d0 as int] && l[c1 as int]
            == r[d1 as int]),
{
    if l[c0 as int] == r[d0 as int] && l[c1 as int] == r[d1 as int] {
        assert(project(l, seq![c0, c1]) =~= project(r, seq![d0, d1]));
    } else {
        assert(project(l, seq![c0, c1])[0] == l[c0 as int]);
        assert(project(r, seq![d0, d1])[0] == r[d0 as int]);
        assert(project(l, seq![c0, c1])[1] == l[c1 as int]);
        assert(project(r, seq![d0, d1])[1] == r[d1 as int]);
    }
}

/// Every fact of a selection is one that the probe looks for, and is a fact
/// of the store.
pub proof fn lemma_select_fits(facts: Seq<Fact>, p: Probe)
    ensures
        select(facts, p).len() <= facts.len(),
        forall|i: int| 0 <= i < select(facts, p).len() ==> fits(#[trigger] select(facts, p)[i], p),
        forall|i: int| 0 <= i < select(facts, p).len() ==> facts.contains(#[trigger] select(facts, p)[i]),
    decreases facts.len(),
{
    if facts.len() > 0 {
        let shorter = facts.drop_last();
        lemma_select_fits(shorter, p);
        assert forall|i: int| 0 <= i < select(facts, p).len() implies facts.contains(
            #[trigger] select(facts, p)[i],
        ) by {
            if i < select(shorter, p).len() {
                let f = select(shorter, p)[i];
                assert(shorter.contains(f));
                let at = choose|at: int| 0 <= at < shorter.len() && shorter[at] == f;
                assert(facts[at] == f);
            } else {
                assert(facts[facts.len() - 1] == facts.last());
            }
        }
    }
}

/// Whether `p` looks for exactly the facts of `base` that agree with the left
/// row on the key columns.
pub open spec fn narrows(p: Probe, base: Probe, row: Seq<Value>, li: Seq<usize>, ri: Seq<usize>) -> bool {
    forall|f: Fact| #[trigger] fits(f, p) <==> (fits(f, base) && keys_agree(row, fact_row(f), li, ri))
}

/// Where a probe looks for the facts of `base` that agree with a left row on
/// the key columns, the rows that the left row gives against the table of
/// `base` are the left row with each fact of the probe behind it.
pub proof fn lemma_matches_by_probe(
    row: Seq<Value>,
    facts: Seq<Fact>,
    base: Probe,
    p: Probe,
    li: Seq<usize>,
    ri: Seq<usize>,
)
    requires
        narrows(p, base, row, li, ri),
    ensures
        matches_of(row, rows_of_facts(select(facts, base)), li, ri) == appended(row, found(select(facts, p))),
    decreases facts.len(),
{
    if facts.len() == 0 {
        assert(rows_of_facts(select(facts, base)) =~= Seq::<Seq<Value>>::empty());
        assert(appended(row, found(select(facts, p))) =~= Seq::<RowResult>::empty());
    } else {
        let shorter = facts.drop_last();
        let f = facts.last();
        lemma_matches_by_probe(row, shorter, base, p, li, ri);
        let table_before = rows_of_facts(select(shorter, base));
        let table = rows_of_facts(select(facts, base));
        assert(fits(f, p) <==> (fits(f, base) && keys_agree(row, fact_row(f), li, ri)));
        if fits(f, base) {
            assert(table =~= table_before.push(fact_row(f)));
            assert(table.drop_last() =~= table_before);
            assert(table.last() == fact_row(f));
            if fits(f, p) {
                assert(appended(row, found(select(facts, p))) =~= appended(
                    row,
                    found(select(shorter, p)),
                ).push(Ok(row + fact_row(f))));
            }
        } else {
            assert(table =~= table_before);
        }
    }
}

/// A store without repeated facts holds at most one fact of a given entity,
/// attribute and value.
pub proof fn lemma_select_unique(facts: Seq<Fact>, p: Probe)
    requires
        distinct_facts(facts),
        p.entity is Some,
        p.value is Some,
    ensures
        select(facts, p).len() <= 1,
    decreases facts.len(),
{
    if facts.len() > 0 {
        let shorter = facts.drop_last();
        assert forall|i: int, j: int| 0 <= i < j < shorter.len() implies !({
            &&& (#[trigger] shorter[i]).entity == (#[trigger] shorter[j]).entity
            &&& shorter[i].attr == shorter[j].attr
            &&& shorter[i].value == shorter[j].value
        }) by {
            assert(shorter[i] == facts[i]);
            assert(shorter[j] == facts[j]);
        }
        lemma_select_unique(shorter, p);
        if fits(facts.last(), p) && select(shorter, p).len() > 0 {
            lemma_select_fits(shorter, p);
            let f = select(shorter, p)[0];
            assert(shorter.contains(f));
            let at = choose|at: int| 0 <= at < shorter.len() && shorter[at] == f;
            assert(facts[at] == f);
            assert(facts[facts.len() - 1] == facts.last());
        }
    }
}

/// Of the scan of all facts of an attribute, the elements with a given value
/// are the rows that a left row gives when joined on the value column.
pub proof fn lemma_matches_by_value(row: Seq<Value>, chosen: Seq<Fact>, c: usize)
    ensures
        appended_where(row, found(chosen), row[c as int]) == matches_of(
            row,
            rows_of_facts(chosen),
            seq![c],
            seq![1usize],
        ),
    decreases chosen.len(),
{
    if chosen.len() == 0 {
        assert(rows_of_facts(chosen) =~= Seq::<Seq<Value>>::empty());
    } else {
        let shorter = chosen.drop_last();
        lemma_matches_by_value(row, shorter, c);
        assert(found(chosen).drop_last() =~= found(shorter));
        assert(rows_of_facts(chosen).drop_last() =~= rows_of_facts(shorter));
        assert(rows_of_facts(chosen).last() == fact_row(chosen.last()));
        lemma_keys_agree_one(row, fact_row(chosen.last()), c, 1);
    }
}

/// A row with the entity and the value of each element of a scan behind it;
/// an error of the scan stays in its place.
pub fn with_pairs(tuple: &Tuple, scan: &Scan) -> (rows: TupleVec)
    ensures
        stream_of(rows@) == appended(tuple@, pairs_of(scan@)),
{
    let mut rows: TupleVec = Vec::new();
    let mut i: usize = 0;
    while i < scan.len()
        invariant
            i <= scan.len(),
            rows.len() == i,
            forall|q: int| 0 <= q < i ==> stream_of(rows@)[q] == appended(tuple@, pairs_of(scan@))[q],
        decreases scan.len() - i,
    {
        let ghost before = rows@;
        match &scan[i] {
            Ok(pair) => {
                let mut extra: Vec<DataValue> = Vec::new();
                extra.push(DataValue::EnId(pair.0));
                extra.push(pair.1.clone());
                assert(values_of(extra@) =~= seq![Value::EnId(pair.0.0), pair.1@]);
                rows.push(Ok(tuple.extended(&extra)));
            },
            Err(e) => {
                rows.push(Err(e.clone()));
            },
        }
        assert forall|q: int| 0 <= q < i + 1 implies stream_of(rows@)[q] == appended(
            tuple@,
            pairs_of(scan@),
        )[q] by {
            if q < i {
                assert(stream_of(rows@)[q] == stream_of(before)[q]);
            }
        }
        i += 1;
    }
    assert(stream_of(rows@) =~= appended(tuple@, pairs_of(scan@)));
    rows
}

/// A row with the entity of each element of a scan, and then `value`, behind
/// it; an error of the scan stays in its place.
pub fn with_entities(tuple: &Tuple, scan: &Scan, value: &DataValue) -> (rows: TupleVec)
    ensures
        stream_of(rows@) == appended_with(tuple@, pairs_of(scan@), value@),
{
    let mut rows: TupleVec = Vec::new();
    let mut i: usize = 0;
    while i < scan.len()
        invariant
            i <= scan.len(),
            rows.len() == i,
            forall|q: int|
                0 <= q < i ==> stream_of(rows@)[q] == appended_with(tuple@, pairs_of(scan@), value@)[q],
        decreases scan.len() - i,
    {
        let ghost before = rows@;
        match &scan[i] {
            Ok(pair) => {
                let mut extra: Vec<DataValue> = Vec::new();
                extra.push(DataValue::EnId(pair.0));
                extra.push(value.clone());
                assert(values_of(extra@) =~= seq![Value::EnId(pair.0.0), value@]);
                rows.push(Ok(tuple.extended(&extra)));
            },
            Err(e) => {
                rows.push(Err(e.clone()));
            },
        }
        assert forall|q: int| 0 <= q < i + 1 implies stream_of(rows@)[q] == appended_with(
            tuple@,
            pairs_of(scan@),
            value@,
        )[q] by {
            if q < i {
                assert(stream_of(rows@)[q] == stream_of(before)[q]);
            }
        }
        i += 1;
    }
    assert(stream_of(rows@) =~= appended_with(tuple@, pairs_of(scan@), value@));
    rows
}

/// A row with the entity and the value of each element of a scan behind it,
/// for the elements whose value is `value`; an error of the scan stays in its
/// place.
pub fn with_pairs_where(tuple: &Tuple, scan: &Scan, value: &DataValue) -> (rows: TupleVec)
    ensures
        stream_of(rows@) == appended_where(tuple@, pairs_of(scan@), value@),
{
    let mut rows: TupleVec = Vec::new();
    let mut i: usize = 0;
    assert(pairs_of(scan@).take(0) =~= Seq::<PairResult>::empty());
    assert(stream_of(rows@) =~= appended_where(tuple@, pairs_of(scan@).take(0), value@));
    while i < scan.len()
        invariant
            i <= scan.len(),
            stream_of(rows@) == appended_where(tuple@, pairs_of(scan@).take(i as int), value@),
        decreases scan.len() - i,
    {
        let ghost before = rows@;
        proof {
            assert(pairs_of(scan@).take(i + 1).drop_last() =~= pairs_of(scan@).take(i as int));
            assert(pairs_of(scan@).take(i + 1).last() == pairs_of(scan@)[i as int]);
        }
        match &scan[i] {
            Ok(pair) => {
                if pair.1.same_value(value) {
                    let mut extra: Vec<DataValue> = Vec::new();
                    extra.push(DataValue::EnId(pair.0));
                    extra.push(pair.1.clone());
                    assert(values_of(extra@) =~= seq![Value::EnId(pair.0.0), pair.1@]);
                    let row = tuple.extended(&extra);
                    rows.push(Ok(row));
                    assert(stream_of(rows@) =~= stream_of(before).push(Ok(row@)));
                }
            },
            Err(e) => {
                rows.push(Err(e.clone()));
                assert(stream_of(rows@) =~= stream_of(before).push(Err(*e)));
            },
        }
        i += 1;
    }
    assert(pairs_of(scan@).take(i as int) =~= pairs_of(scan@));
    rows
}

/// The rows that a left row gives do not depend on how the key columns are
/// written down, as long as the same rows of the table agree with it.
pub proof fn lemma_matches_congruent(
    row: Seq<Value>,
    table: Seq<Seq<Value>>,
    li: Seq<usize>,
    ri: Seq<usize>,
    li2: Seq<usize>,
    ri2: Seq<usize>,
)
    requires
        forall|i: int|
            0 <= i < table.len() ==> keys_agree(row, #[trigger] table[i], li, ri) == keys_agree(
                row,
                table[i],
                li2,
                ri2,
            ),
    ensures
        matches_of(row, table, li, ri) == matches_of(row, table, li2, ri2),
    decreases table.len(),
{
    if table.len() > 0 {
        let shorter = table.drop_last();
        assert forall|i: int| 0 <= i < shorter.len() implies keys_agree(
            row,
            #[trigger] shorter[i],
            li,
            ri,
        ) == keys_agree(row, shorter[i], li2, ri2) by {
            assert(shorter[i] == table[i]);
        }
        lemma_matches_congruent(row, shorter, li, ri, li2, ri2);
        assert(table.last() == table[table.len() - 1]);
    }
}

/// A join on the value column and the entity column, in this order, is the
/// join on the entity column and the value column.
pub proof fn lemma_triple_rows_swapped(table: Seq<Seq<Value>>, a: usize, b: usize, by_reference: bool)
    ensures
        triple_rows(table, seq![a, b], seq![1usize, 0usize], by_reference) == triple_rows(
            table,
            seq![b, a],
            seq![0usize, 1usize],
            by_reference,
        ),
{
    let f1 = triple_rows(table, seq![a, b], seq![1usize, 0usize], by_reference);
    let f2 = triple_rows(table, seq![b, a], seq![0usize, 1usize], by_reference);
    assert forall|row: Seq<Value>| #[trigger] f1(row) == f2(row) by {
        let li = seq![a, b];
        let ri = seq![1usize, 0usize];
        let li2 = seq![b, a];
        let ri2 = seq![0usize, 1usize];
        assert forall|i: int| 0 <= i < table.len() implies keys_agree(row, #[trigger] table[i], li, ri)
            == keys_agree(row, table[i], li2, ri2) by {
            lemma_keys_agree_two(row, table[i], a, b, 1, 0);
            lemma_keys_agree_two(row, table[i], b, a, 0, 1);
        }
        lemma_matches_congruent(row, table, li, ri, li2, ri2);
        if entities_bound(row, li, ri, by_reference) {
            assert(ri[1] == 0);
            assert(row[li[1] as int] is EnId);
            assert(entities_bound(row, li2, ri2, by_reference));
        }
        if entities_bound(row, li2, ri2, by_reference) {
            assert(ri2[0] == 0);
            assert(row[li2[0] as int] is EnId);
            assert(entities_bound(row, li, ri, by_reference));
        }
    }
    assert(f1 =~= f2);
}

/// Every row of a join with the facts of an attribute is a row of the left
/// side with a row of the table behind it; the two agree on the key columns,
/// and the left row holds an entity reference wherever one is needed. The
/// lemma returns the places of the two rows.
pub proof fn lemma_triple_join_row(
    left: Seq<RowResult>,
    table: Seq<Seq<Value>>,
    li: Seq<usize>,
    ri: Seq<usize>,
    by_reference: bool,
    i: int,
) -> (at: (int, int))
    requires
        0 <= i < triple_join(left, table, li, ri, by_reference).len(),
        triple_join(left, table, li, ri, by_reference)[i] is Ok,
    ensures
        0 <= at.0 < left.len(),
        0 <= at.1 < table.len(),
        left[at.0] is Ok,
        triple_join(left, table, li, ri, by_reference)[i] == Ok::<Seq<Value>, QueryError>(
            left[at.0]->Ok_0 + table[at.1],
        ),
        keys_agree(left[at.0]->Ok_0, table[at.1], li, ri),
        entities_bound(left[at.0]->Ok_0, li, ri, by_reference),
{
    let f = triple_rows(table, li, ri, by_reference);
    let flat = flat_map_ok(left, f);
    lemma_until_error_shape(flat);
    let j = lemma_flat_map_ok_source(left, f, i);
    let l = left[j]->Ok_0;
    let rows = triple_matches(l, table, li, ri, by_reference);
    assert(rows.contains(flat[i]));
    let m = choose|m: int| 0 <= m < rows.len() && #[trigger] rows[m] == flat[i];
    let r = lemma_matches_row(l, table, li, ri, m);
    (j, r)
}

/// The facts of one attribute as of a point in time, as a relation of two
/// columns: the entity, then the value.
#[derive(Debug, PartialEq, Eq)]
pub struct TripleRelation {
    pub attr: Attribute,
    pub vld: Validity,
    pub bindings: [Keyword; 2],
}

impl TripleRelation {
    /// The facts of the attribute that a snapshot shows, as a table.
    pub open spec fn table(&self, tx: &SessionTx) -> Seq<Seq<Value>> {
        fact_table(tx@, self.attr.id, self.vld)
    }

    /// Whether a value of the attribute is looked up as a reference.
    pub open spec fn by_reference(&self) -> bool {
        self.attr.val_type is Ref
    }

    /// What one left row gives where no column is joined: the row with each
    /// fact of the attribute behind it.
    pub(crate) fn cartesian_row(&self, tuple: &Tuple, tx: &SessionTx) -> (rows: TupleVec)
        ensures
            stream_of(rows@) == triple_matches(
                tuple@,
                self.table(tx),
                Seq::<usize>::empty(),
                Seq::<usize>::empty(),
                self.by_reference(),
            ),
    {
        let scan = tx.triple_a_before_scan(self.attr.id, self.vld);
        proof {
            let base = attribute_probe(self.attr.id, self.vld);
            assert forall|f: Fact| #[trigger]
                fits(f, base) <==> (fits(f, base) && keys_agree(
                    tuple@,
                    fact_row(f),
                    Seq::<usize>::empty(),
                    Seq::<usize>::empty(),
                )) by {
                lemma_keys_agree_none(tuple@, fact_row(f));
            }
            let none = Seq::<usize>::empty();
            lemma_matches_by_probe(tuple@, tx@, base, base, none, none);
        }
        with_pairs(tuple, &scan)
    }

    /// The left row with its entity and its value behind it where the
    /// attribute relates the two, and `None` where it does not.
    fn ev_row(&self, tuple: &Tuple, left_e_idx: usize, left_v_idx: usize, tx: &SessionTx) -> (out: Result<
        Option<Tuple>,
        QueryError,
    >)
        requires
            left_e_idx < tuple@.len(),
            left_v_idx < tuple@.len(),
        ensures
            match entity_of(tuple@[left_e_idx as int]) {
                Err(e) => out == Err::<Option<Tuple>, QueryError>(e),
                Ok(eid) => if select(
                    tx@,
                    Probe {
                        entity: Some(eid.0),
                        value: Some(tuple@[left_v_idx as int]),
                        ..attribute_probe(self.attr.id, self.vld)
                    },
                ).len() > 0 {
                    out matches Ok(Some(row)) && row@ == tuple@ + seq![
                        Value::EnId(eid.0),
                        tuple@[left_v_idx as int],
                    ]
                } else {
                    out == Ok::<Option<Tuple>, QueryError>(None)
                },
            },
    {
        let v = &tuple.0[left_v_idx];
        let resolved = tuple.0[left_e_idx].get_entity_id();
        let answer = flatten_err(
            match &resolved {
                Ok(eid) => Ok(tx.eav_exists(*eid, self.attr.id, v, self.vld)),
                Err(e) => Err(e.clone()),
            },
        );
        match (resolved, answer) {
            (Ok(eid), Ok(true)) => {
                let mut extra: Vec<DataValue> = Vec::new();
                extra.push(DataValue::EnId(eid));
                extra.push(v.clone());
                assert(values_of(extra@) =~= seq![Value::EnId(eid.0), v@]);
                Ok(Some(tuple.extended(&extra)))
            },
            (_, Ok(_)) => Ok(None),
            (_, Err(e)) => Err(e),
        }
    }

    /// What one left row gives where both columns are joined: the row with
    /// its entity and its value behind it, or nothing.
    pub(crate) fn ev_rows(
        &self,
        tuple: &Tuple,
        left_e_idx: usize,
        left_v_idx: usize,
        tx: &SessionTx,
    ) -> (rows: TupleVec)
        requires
            tx.wf(),
            left_e_idx < tuple@.len(),
            left_v_idx < tuple@.len(),
        ensures
            stream_of(rows@) == triple_matches(
                tuple@,
                self.table(tx),
                seq![left_e_idx, left_v_idx],
                seq![0usize, 1usize],
                self.by_reference(),
            ),
    {
        let ghost li = seq![left_e_idx, left_v_idx];
        let ghost ri = seq![0usize, 1usize];
        let mut rows: TupleVec = Vec::new();
        proof {
            if entities_bound(tuple@, li, ri, self.by_reference()) {
                assert(ri[0] == 0);
                assert(tuple@[li[0] as int] is EnId);
                let eid = entity_of(tuple@[left_e_idx as int])->Ok_0;
                let base = attribute_probe(self.attr.id, self.vld);
                let p = Probe { entity: Some(eid.0), value: Some(tuple@[left_v_idx as int]), ..base };
                assert forall|f: Fact| #[trigger]
                    fits(f, p) <==> (fits(f, base) && keys_agree(tuple@, fact_row(f), li, ri)) by {
                    lemma_keys_agree_two(tuple@, fact_row(f), left_e_idx, left_v_idx, 0, 1);
                }
                lemma_matches_by_probe(tuple@, tx@, base, p, li, ri);
                lemma_select_unique(tx@, p);
                lemma_select_fits(tx@, p);
                if select(tx@, p).len() > 0 {
                    assert(fits(select(tx@, p)[0], p));
                    assert(appended(tuple@, found(select(tx@, p))) =~= seq![
                        Ok(tuple@ + seq![Value::EnId(eid.0), tuple@[left_v_idx as int]]),
                    ]);
                } else {
                    assert(appended(tuple@, found(select(tx@, p))) =~= Seq::<RowResult>::empty());
                }
            } else {
                assert(!(tuple@[left_e_idx as int] is EnId)) by {
                    if tuple@[left_e_idx as int] is EnId {
                        assert forall|k: int|
                            0 <= k < ri.len() && (#[trigger] ri[k] == 0 || (ri.len() == 1
                                && self.by_reference())) implies tuple@[li[k] as int] is EnId by {
                            assert(k == 0);
                        }
                    }
                }
            }
        }
        match invert_option_err(self.ev_row(tuple, left_e_idx, left_v_idx, tx)) {
            None => {
                assert(stream_of(rows@) =~= Seq::<RowResult>::empty());
            },
            Some(item) => {
                rows.push(item);
                assert(stream_of(rows@) =~= seq![row_of(item)]);
            },
        }
        rows
    }

    /// What one left row gives where the entity is joined: the row with each
    /// fact of its entity behind it.
    pub(crate) fn e_row(&self, tuple: &Tuple, left_e_idx: usize, tx: &SessionTx) -> (rows: TupleVec)
        requires
            left_e_idx < tuple@.len(),
        ensures
            stream_of(rows@) == triple_matches(
                tuple@,
                self.table(tx),
                seq![left_e_idx],
                seq![0usize],
                self.by_reference(),
            ),
    {
        let ghost li = seq![left_e_idx];
        let ghost ri = seq![0usize];
        match tuple.0[left_e_idx].get_entity_id() {
            Err(e) => {
                let mut rows: TupleVec = Vec::new();
                rows.push(Err(e));
                proof {
                    assert(ri[0] == 0);
                    assert(!entities_bound(tuple@, li, ri, self.by_reference())) by {
                        if entities_bound(tuple@, li, ri, self.by_reference()) {
                            assert(tuple@[li[0] as int] is EnId);
                        }
                    }
                    assert(stream_of(rows@) =~= seq![Err(QueryError::NotAnEntity)]);
                }
                rows
            },
            Ok(eid) => {
                let scan = tx.triple_ea_before_scan(eid, self.attr.id, self.vld);
                proof {
                    let base = attribute_probe(self.attr.id, self.vld);
                    let p = Probe { entity: Some(eid.0), ..base };
                    assert forall|f: Fact| #[trigger]
                        fits(f, p) <==> (fits(f, base) && keys_agree(tuple@, fact_row(f), li, ri)) by {
                        lemma_keys_agree_one(tuple@, fact_row(f), left_e_idx, 0);
                    }
                    lemma_matches_by_probe(tuple@, tx@, base, p, li, ri);
                    assert(entities_bound(tuple@, li, ri, self.by_reference()));
                }
                with_pairs(tuple, &scan)
            },
        }
    }

    /// What one left row gives where the value is joined and is a reference:
    /// the row with each fact that refers to its entity behind it.
    pub(crate) fn v_ref_row(&self, tuple: &Tuple, left_v_idx: usize, tx: &SessionTx) -> (rows: TupleVec)
        requires
            left_v_idx < tuple@.len(),
        ensures
            stream_of(rows@) == triple_matches(tuple@, self.table(tx), seq![left_v_idx], seq![1usize], true),
    {
        let ghost li = seq![left_v_idx];
        let ghost ri = seq![1usize];
        match tuple.0[left_v_idx].get_entity_id() {
            Err(e) => {
                let mut rows: TupleVec = Vec::new();
                rows.push(Err(e));
                proof {
                    assert(!entities_bound(tuple@, li, ri, true)) by {
                        if entities_bound(tuple@, li, ri, true) {
                            assert(ri[0] == 1);
                            assert(tuple@[li[0] as int] is EnId);
                        }
                    }
                    assert(stream_of(rows@) =~= seq![Err(QueryError::NotAnEntity)]);
                }
                rows
            },
            Ok(v_eid) => {
                let scan = tx.triple_vref_a_before_scan(v_eid, self.attr.id, self.vld);
                let target = DataValue::EnId(v_eid);
                proof {
                    let base = attribute_probe(self.attr.id, self.vld);
                    let p = Probe { value: Some(Value::EnId(v_eid.0)), ..base };
                    assert forall|f: Fact| #[trigger]
                        fits(f, p) <==> (fits(f, base) && keys_agree(tuple@, fact_row(f), li, ri)) by {
                        lemma_keys_agree_one(tuple@, fact_row(f), left_v_idx, 1);
                    }
                    lemma_matches_by_probe(tuple@, tx@, base, p, li, ri);
                    lemma_select_fits(tx@, p);
                    assert(appended_with(tuple@, found(select(tx@, p)), target@) =~= appended(
                        tuple@,
                        found(select(tx@, p)),
                    )) by {
                        assert forall|i: int| 0 <= i < select(tx@, p).len() implies (#[trigger] select(
                            tx@,
                            p,
                        )[i]).value == target@ by {
                            assert(fits(select(tx@, p)[i], p));
                        }
                    }
                    assert(entities_bound(tuple@, li, ri, true));
                }
                with_entities(tuple, &scan, &target)
            },
        }
    }

    /// What one left row gives where the value is joined and indexed: the
    /// row with each fact of its value behind it.
    pub(crate) fn v_index_row(&self, tuple: &Tuple, left_v_idx: usize, tx: &SessionTx) -> (rows: TupleVec)
        requires
            left_v_idx < tuple@.len(),
        ensures
            stream_of(rows@) == triple_matches(tuple@, self.table(tx), seq![left_v_idx], seq![1usize], false),
    {
        let ghost li = seq![left_v_idx];
        let ghost ri = seq![1usize];
        let val = &tuple.0[left_v_idx];
        let scan = tx.triple_av_before_scan(self.attr.id, val, self.vld);
        proof {
            let base = attribute_probe(self.attr.id, self.vld);
            let p = Probe { value: Some(val@), ..base };
            assert forall|f: Fact| #[trigger]
                fits(f, p) <==> (fits(f, base) && keys_agree(tuple@, fact_row(f), li, ri)) by {
                lemma_keys_agree_one(tuple@, fact_row(f), left_v_idx, 1);
            }
            lemma_matches_by_probe(tuple@, tx@, base, p, li, ri);
            assert(entities_bound(tuple@, li, ri, false));
        }
        with_pairs(tuple, &scan)
    }

    /// What one left row gives where the value is joined and not indexed:
    /// the row with each fact of its value behind it, found among all facts.
    pub(crate) fn v_no_index_row(&self, tuple: &Tuple, left_v_idx: usize, tx: &SessionTx) -> (rows: TupleVec)
        requires
            left_v_idx < tuple@.len(),
        ensures
            stream_of(rows@) == triple_matches(tuple@, self.table(tx), seq![left_v_idx], seq![1usize], false),
    {
        let ghost li = seq![left_v_idx];
        let ghost ri = seq![1usize];
        let val = &tuple.0[left_v_idx];
        let scan = tx.triple_a_before_scan(self.attr.id, self.vld);
        proof {
            lemma_matches_by_value(tuple@, select(tx@, attribute_probe(self.attr.id, self.vld)), left_v_idx);
            assert(entities_bound(tuple@, li, ri, false));
        }
        with_pairs_where(tuple, &scan, val)
    }

    /// Joins each left row with every fact of the attribute: no column is
    /// compared.
    pub fn cartesian_join<'a>(
        &'a self,
        left_iter: TupleIter<'a>,
        tx: &'a SessionTx,
    ) -> (out: TupleIter<'a>)
        requires
            left_iter.wf(),
        ensures
            out.wf(),
            out.starts_join(left_iter, JoinStep::Cartesian { facts: self, tx }),
            out.remaining() == triple_join(
                left_iter.remaining(),
                self.table(tx),
                Seq::<usize>::empty(),
                Seq::<usize>::empty(),
                self.by_reference(),
            ),
    {
        TupleIter::joined(left_iter, JoinStep::Cartesian { facts: self, tx })
    }

    /// Keeps the left rows whose columns `left_e_idx` and `left_v_idx` hold an
    /// entity and a value that the attribute relates, and puts the two behind
    /// each row kept. A row whose column `left_e_idx` holds no entity
    /// reference ends the result with `NotAnEntity`.
    pub fn ev_join<'a>(
        &'a self,
        left_iter: TupleIter<'a>,
        left_e_idx: usize,
        left_v_idx: usize,
        tx: &'a SessionTx,
    ) -> (out: TupleIter<'a>)
        requires
            left_iter.wf(),
            tx.wf(),
            rows_cover(left_iter.remaining(), seq![left_e_idx, left_v_idx]),
        ensures
            out.wf(),
            out.starts_join(
                left_iter,
                JoinStep::Existence { facts: self, tx, e: left_e_idx, v: left_v_idx },
            ),
            out.remaining() == triple_join(
                left_iter.remaining(),
                self.table(tx),
                seq![left_e_idx, left_v_idx],
                seq![0usize, 1usize],
                self.by_reference(),
            ),
    {
        TupleIter::joined(
            left_iter,
            JoinStep::Existence { facts: self, tx, e: left_e_idx, v: left_v_idx },
        )
    }

    /// Joins each left row with the facts of the entity that its column
    /// `left_e_idx` refers to. A row whose column holds no entity reference
    /// ends the result with `NotAnEntity`.
    pub fn e_join<'a>(
        &'a self,
        left_iter: TupleIter<'a>,
        left_e_idx: usize,
        tx: &'a SessionTx,
    ) -> (out: TupleIter<'a>)
        requires
            left_iter.wf(),
            rows_cover(left_iter.remaining(), seq![left_e_idx]),
        ensures
            out.wf(),
            out.starts_join(left_iter, JoinStep::Entity { facts: self, tx, e: left_e_idx }),
            out.remaining() == triple_join(
                left_iter.remaining(),
                self.table(tx),
                seq![left_e_idx],
                seq![0usize],
                self.by_reference(),
            ),
    {
        TupleIter::joined(left_iter, JoinStep::Entity { facts: self, tx, e: left_e_idx })
    }

    /// Joins each left row with the facts whose value is a reference to the
    /// entity that its column `left_v_idx` refers to. A row whose column
    /// holds no entity reference ends the result with `NotAnEntity`.
    pub fn v_ref_join<'a>(
        &'a self,
        left_iter: TupleIter<'a>,
        left_v_idx: usize,
        tx: &'a SessionTx,
    ) -> (out: TupleIter<'a>)
        requires
            left_iter.wf(),
            rows_cover(left_iter.remaining(), seq![left_v_idx]),
        ensures
            out.wf(),
            out.starts_join(left_iter, JoinStep::Reference { facts: self, tx, v: left_v_idx }),
            out.remaining() == triple_join(
                left_iter.remaining(),
                self.table(tx),
                seq![left_v_idx],
                seq![1usize],
                true,
            ),
    {
        TupleIter::joined(left_iter, JoinStep::Reference { facts: self, tx, v: left_v_idx })
    }

    /// Joins each left row with the facts whose value is the one in its
    /// column `left_v_idx`, found through the index by value.
    pub fn v_index_join<'a>(
        &'a self,
        left_iter: TupleIter<'a>,
        left_v_idx: usize,
        tx: &'a SessionTx,
    ) -> (out: TupleIter<'a>)
        requires
            left_iter.wf(),
            rows_cover(left_iter.remaining(), seq![left_v_idx]),
        ensures
            out.wf(),
            out.starts_join(left_iter, JoinStep::IndexedValue { facts: self, tx, v: left_v_idx }),
            out.remaining() == triple_join(
                left_iter.remaining(),
                self.table(tx),
                seq![left_v_idx],
                seq![1usize],
                false,
            ),
    {
        TupleIter::joined(left_iter, JoinStep::IndexedValue { facts: self, tx, v: left_v_idx })
    }

    /// Joins each left row with the facts whose value is the one in its
    /// column `left_v_idx`, found by going through all facts of the attribute.
    pub fn v_no_index_join<'a>(
        &'a self,
        left_iter: TupleIter<'a>,
        left_v_idx: usize,
        tx: &'a SessionTx,
    ) -> (out: TupleIter<'a>)
        requires
            left_iter.wf(),
            rows_cover(left_iter.remaining(), seq![left_v_idx]),
        ensures
            out.wf(),
            out.starts_join(left_iter, JoinStep::ScannedValue { facts: self, tx, v: left_v_idx }),
            out.remaining() == triple_join(
                left_iter.remaining(),
                self.table(tx),
                seq![left_v_idx],
                seq![1usize],
                false,
            ),
    {
        TupleIter::joined(left_iter, JoinStep::ScannedValue { facts: self, tx, v: left_v_idx })
    }

    /// Whether the key columns are ones that a join with this relation can
    /// have: at most two pairs, each naming one of the two columns of the
    /// relation, and two pairs naming both.
    pub open spec fn joinable(li: Seq<usize>, ri: Seq<usize>) -> bool {
        &&& li.len() == ri.len()
        &&& ri.len() <= 2
        &&& forall|k: int| 0 <= k < ri.len() ==> (#[trigger] ri[k]) < 2
        &&& ri.len() == 2 ==> ri[0] != ri[1]
    }

    /// How the store is read for a join on the given columns: all facts where
    /// no column is joined; one fact looked for where both are; the facts of
    /// the entity where the entity is joined; and where the value is joined,
    /// the facts that refer to it for an attribute of references, else the
    /// facts with the value, through the index where the attribute has one
    /// and by going through all facts where it has none.
    pub open spec fn access_path<'a>(
        &'a self,
        li: Seq<usize>,
        ri: Seq<usize>,
        tx: &'a SessionTx,
    ) -> JoinStep<'a> {
        if ri.len() == 0 {
            JoinStep::Cartesian { facts: self, tx }
        } else if ri.len() == 2 {
            if ri[0] == 0 {
                JoinStep::Existence { facts: self, tx, e: li[0], v: li[1] }
            } else {
                JoinStep::Existence { facts: self, tx, e: li[1], v: li[0] }
            }
        } else if ri[0] == 0 {
            JoinStep::Entity { facts: self, tx, e: li[0] }
        } else if self.attr.val_type is Ref {
            JoinStep::Reference { facts: self, tx, v: li[0] }
        } else if !(self.attr.indexing is Unindexed) {
            JoinStep::IndexedValue { facts: self, tx, v: li[0] }
        } else {
            JoinStep::ScannedValue { facts: self, tx, v: li[0] }
        }
    }

    /// Joins a fallible sequence of left rows with the facts of the attribute
    /// that the snapshot shows.
    ///
    /// `join_indices` holds the key columns of the left rows and, pair by
    /// pair, the columns of this relation that they are joined to: 0 for the
    /// entity, 1 for the value. Which of them are joined decides how the
    /// store is read; the result is in every case the nested-loop join of the
    /// left rows with the table of the facts, but for a left row that holds
    /// no entity reference where one is needed, which ends the result with
    /// `NotAnEntity`.
    pub fn join<'a>(
        &'a self,
        left_iter: TupleIter<'a>,
        join_indices: (Vec<usize>, Vec<usize>),
        tx: &'a SessionTx,
    ) -> (out: TupleIter<'a>)
        requires
            left_iter.wf(),
            tx.wf(),
            Self::joinable(join_indices.0@, join_indices.1@),
            rows_cover(left_iter.remaining(), join_indices.0@),
        ensures
            out.wf(),
            out.starts_join(left_iter, self.access_path(join_indices.0@, join_indices.1@, tx)),
            out.remaining() == triple_join(
                left_iter.remaining(),
                self.table(tx),
                join_indices.0@,
                join_indices.1@,
                self.by_reference(),
            ),
    {
        let (left_join_indices, right_join_indices) = join_indices;
        let ghost li = left_join_indices@;
        let ghost ri = right_join_indices@;
        if right_join_indices.len() == 0 {
            assert(li =~= Seq::<usize>::empty());
            assert(ri =~= Seq::<usize>::empty());
            self.cartesian_join(left_iter, tx)
        } else if right_join_indices.len() == 2 {
            let right_first = right_join_indices[0];
            let right_second = right_join_indices[1];
            let left_first = left_join_indices[0];
            let left_second = left_join_indices[1];
            assert(li =~= seq![left_first, left_second]);
            assert(ri =~= seq![right_first, right_second]);
            if right_first == 0 {
                assert(right_second == 1);
                self.ev_join(left_iter, left_first, left_second, tx)
            } else {
                assert(right_first == 1 && right_second == 0);
                proof {
                    lemma_triple_rows_swapped(self.table(tx), left_first, left_second, self.by_reference());
                    assert forall|i: int| 0 <= i < left_iter.remaining().len() implies (
                    #[trigger] left_iter.remaining()[i] matches Ok(row) ==> covers(
                        row,
                        seq![left_second, left_first],
                    )) by {
                        if left_iter.remaining()[i] is Ok {
                            let row = left_iter.remaining()[i]->Ok_0;
                            assert(covers(row, li));
                            assert(li[0] < row.len());
                            assert(li[1] < row.len());
                        }
                    }
                }
                self.ev_join(left_iter, left_second, left_first, tx)
            }
        } else {
            let left_only = left_join_indices[0];
            assert(li =~= seq![left_only]);
            if right_join_indices[0] == 0 {
                assert(ri =~= seq![0usize]);
                self.e_join(left_iter, left_only, tx)
            } else {
                assert(ri =~= seq![1usize]);
                if self.attr.val_type.is_ref_type() {
                    self.v_ref_join(left_iter, left_only, tx)
                } else if self.attr.indexing.should_index() {
                    self.v_index_join(left_iter, left_only, tx)
                } else {
                    self.v_no_index_join(left_iter, left_only, tx)
                }
            }
        }
    }
}

} // verus!
