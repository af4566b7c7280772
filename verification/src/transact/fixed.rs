//! Literal tables and the join with them.

use vstd::prelude::*;
use crate::data::keyword::Keyword;
use crate::data::tuple::{stream_of, Tuple, TupleVec};
use crate::data::value::{values_of, DataValue, Value};
use crate::error::QueryError;
use crate::transact::cursor::{JoinStep, TupleIter};
use crate::transact::nested_loop::{
    covers, key_matches, lemma_matches_by_positions, lemma_positions_empty,
    lemma_positions_in_table, matches_of, nested_loop_join, positions_of, project, project_row,
    rows_cover, table_covers,
};
use crate::transact::stream::until_error;

verus! {

/// A literal table: named columns and the rows themselves.
#[derive(Debug, PartialEq, Eq)]
pub struct InlineFixedRelation {
    pub bindings: Vec<Keyword>,
    pub data: Vec<Vec<DataValue>>,
}

/// The rows of a literal table that hold one key, by their places in the table.
#[derive(Debug)]
pub struct KeyGroup {
    pub key: Vec<DataValue>,
    pub rows: Vec<usize>,
}

/// What the rows of a literal table stand for.
pub open spec fn table_of(data: Seq<Vec<DataValue>>) -> Seq<Seq<Value>> {
    Seq::new(data.len(), |i: int| values_of(data[i]@))
}

/// Whether `rows` lists exactly `places`, in order.
pub open spec fn lists(rows: Seq<usize>, places: Seq<int>) -> bool {
    &&& rows.len() == places.len()
    &&& forall|m: int| 0 <= m < rows.len() ==> (#[trigger] rows[m]) as int == places[m]
}

/// Whether `groups` is the grouping of `table` by the columns `ri`: each key
/// that occurs has one group, and a group lists the places of its key in
/// rising order.
pub open spec fn groups_index(groups: Seq<KeyGroup>, table: Seq<Seq<Value>>, ri: Seq<usize>) -> bool {
    &&& forall|g: int|
        0 <= g < groups.len() ==> lists(
            (#[trigger] groups[g]).rows@,
            positions_of(table, ri, values_of(groups[g].key@)),
        )
    &&& forall|j: int|
        0 <= j < table.len() ==> exists|g: int|
            0 <= g < groups.len() && values_of((#[trigger] groups[g]).key@) == project(
                #[trigger] table[j],
                ri,
            )
    &&& forall|g1: int, g2: int|
        0 <= g1 < g2 < groups.len() ==> values_of((#[trigger] groups[g1]).key@) != values_of(
            (#[trigger] groups[g2]).key@,
        )
}

/// The first group whose key is what `row` holds in the columns `idx`.
fn find_group(groups: &Vec<KeyGroup>, row: &Vec<DataValue>, idx: &Vec<usize>) -> (found: Option<usize>)
    requires
        covers(values_of(row@), idx@),
    ensures
        match found {
            Some(g) => g < groups.len() && values_of(groups[g as int].key@) == project(
                values_of(row@),
                idx@,
            ),
            None => forall|g: int|
                0 <= g < groups.len() ==> values_of((#[trigger] groups[g]).key@) != project(
                    values_of(row@),
                    idx@,
                ),
        },
{
    let mut g: usize = 0;
    while g < groups.len()
        invariant
            g <= groups.len(),
            covers(values_of(row@), idx@),
            forall|h: int|
                0 <= h < g ==> values_of((#[trigger] groups[h]).key@) != project(values_of(row@), idx@),
        decreases groups.len() - g,
    {
        if key_matches(row, idx, &groups[g].key) {
            return Some(g);
        }
        g += 1;
    }
    None
}

/// Groups the rows of a table by what they hold in the columns `ri`.
pub(crate) fn group_by_key(data: &Vec<Vec<DataValue>>, ri: &Vec<usize>) -> (groups: Vec<KeyGroup>)
    requires
        table_covers(table_of(data@), ri@),
    ensures
        groups_index(groups@, table_of(data@), ri@),
{
    let ghost table = table_of(data@);
    let mut groups: Vec<KeyGroup> = Vec::new();
    let mut n: usize = 0;
    while n < data.len()
        invariant
            n <= data.len(),
            table == table_of(data@),
            table_covers(table, ri@),
            groups_index(groups@, table.take(n as int), ri@),
        decreases data.len() - n,
    {
        let ghost before = groups@;
        let ghost seen = table.take(n as int);
        let ghost now = table.take(n + 1);
        let ghost key = project(table[n as int], ri@);
        proof {
            assert(now.drop_last() =~= seen);
            assert(now.last() == table[n as int]);
            assert(covers(table[n as int], ri@));
        }
        match find_group(&groups, &data[n], ri) {
            Some(g) => {
                let mut group = groups.remove(g);
                group.rows.push(n);
                groups.insert(g, group);
                proof {
                    assert(groups@.len() == before.len());
                    assert forall|h: int| 0 <= h < groups@.len() implies lists(
                        (#[trigger] groups@[h]).rows@,
                        positions_of(now, ri@, values_of(groups@[h].key@)),
                    ) by {
                        if h == g {
                            assert(groups@[h].key == before[h].key);
                        } else {
                            assert(groups@[h] == before[h]);
                            if h < g {
                                assert(values_of(before[h].key@) != values_of(before[g as int].key@));
                            } else {
                                assert(values_of(before[g as int].key@) != values_of(before[h].key@));
                            }
                        }
                    }
                    assert forall|j: int| 0 <= j < now.len() implies exists|h: int|
                        0 <= h < groups@.len() && values_of((#[trigger] groups@[h]).key@) == project(
                            #[trigger] now[j],
                            ri@,
                        ) by {
                        if j < n {
                            assert(seen[j] == now[j]);
                            let h = choose|h: int|
                                0 <= h < before.len() && values_of((#[trigger] before[h]).key@)
                                    == project(seen[j], ri@);
                            assert(groups@[h].key == before[h].key);
                        } else {
                            assert(groups@[g as int].key == before[g as int].key);
                        }
                    }
                    assert forall|g1: int, g2: int| 0 <= g1 < g2 < groups@.len() implies values_of(
                        (#[trigger] groups@[g1]).key@,
                    ) != values_of((#[trigger] groups@[g2]).key@) by {
                        assert(groups@[g1].key == before[g1].key);
                        assert(groups@[g2].key == before[g2].key);
                    }
                }
            },
            None => {
                let key_values = project_row(&data[n], ri);
                let mut rows: Vec<usize> = Vec::new();
                rows.push(n);
                groups.push(KeyGroup { key: key_values, rows });
                proof {
                    assert forall|j: int| 0 <= j < seen.len() implies project(
                        #[trigger] seen[j],
                        ri@,
                    ) != key by {
                        let h = choose|h: int|
                            0 <= h < before.len() && values_of((#[trigger] before[h]).key@)
                                == project(seen[j], ri@);
                    }
                    lemma_positions_empty(seen, ri@, key);
                    assert forall|h: int| 0 <= h < groups@.len() implies lists(
                        (#[trigger] groups@[h]).rows@,
                        positions_of(now, ri@, values_of(groups@[h].key@)),
                    ) by {
                        if h < before.len() {
                            assert(groups@[h] == before[h]);
                        }
                    }
                    assert forall|j: int| 0 <= j < now.len() implies exists|h: int|
                        0 <= h < groups@.len() && values_of((#[trigger] groups@[h]).key@) == project(
                            #[trigger] now[j],
                            ri@,
                        ) by {
                        if j < n {
                            assert(seen[j] == now[j]);
                            let h = choose|h: int|
                                0 <= h < before.len() && values_of((#[trigger] before[h]).key@)
                                    == project(seen[j], ri@);
                            assert(groups@[h] == before[h]);
                        } else {
                            assert(values_of(groups@[before.len() as int].key@) == key);
                        }
                    }
                    assert forall|g1: int, g2: int| 0 <= g1 < g2 < groups@.len() implies values_of(
                        (#[trigger] groups@[g1]).key@,
                    ) != values_of((#[trigger] groups@[g2]).key@) by {
                        assert(groups@[g1] == before[g1]);
                        if g2 < before.len() {
                            assert(groups@[g2] == before[g2]);
                        }
                    }
                }
            },
        }
        n += 1;
    }
    assert(table.take(n as int) =~= table);
    groups
}

impl InlineFixedRelation {
    /// What the rows of the table stand for.
    pub open spec fn table(&self) -> Seq<Seq<Value>> {
        table_of(self.data@)
    }

    /// Every row has one value for each binding.
    pub open spec fn wf(&self) -> bool {
        forall|i: int| 0 <= i < self.data.len() ==> (#[trigger] self.data[i]).len() == self.bindings.len()
    }

    /// Whether every row has one value for each binding.
    pub fn is_wf(&self) -> (ok: bool)
        ensures
            ok == self.wf(),
    {
        let mut i: usize = 0;
        while i < self.data.len()
            invariant
                i <= self.data.len(),
                forall|j: int| 0 <= j < i ==> (#[trigger] self.data[j]).len() == self.bindings.len(),
            decreases self.data.len() - i,
        {
            if self.data[i].len() != self.bindings.len() {
                return false;
            }
            i += 1;
        }
        true
    }

    /// The rows that one left row gives against a table of one row, whose key
    /// is `right_key`.
    pub(crate) fn broadcast_row(
        &self,
        tuple: &Tuple,
        li: &Vec<usize>,
        ri: &Vec<usize>,
        right_key: &Vec<DataValue>,
    ) -> (rows: TupleVec)
        requires
            self.data.len() == 1,
            covers(tuple@, li@),
            values_of(right_key@) == project(self.table()[0], ri@),
        ensures
            stream_of(rows@) == matches_of(tuple@, self.table(), li@, ri@),
    {
        let mut rows: TupleVec = Vec::new();
        proof {
            assert(self.table().drop_last() =~= Seq::<Seq<Value>>::empty());
            assert(self.table().last() == self.table()[0]);
            assert(matches_of(tuple@, self.table().drop_last(), li@, ri@) =~= Seq::empty());
        }
        if key_matches(&tuple.0, li, right_key) {
            rows.push(Ok(tuple.extended(&self.data[0])));
            assert(stream_of(rows@) =~= matches_of(tuple@, self.table(), li@, ri@));
        } else {
            assert(stream_of(rows@) =~= matches_of(tuple@, self.table(), li@, ri@));
        }
        rows
    }

    /// The rows that one left row gives, looked up in the grouping of the table.
    pub(crate) fn grouped_row(
        &self,
        tuple: &Tuple,
        li: &Vec<usize>,
        ri: &Vec<usize>,
        groups: &Vec<KeyGroup>,
    ) -> (rows: TupleVec)
        requires
            covers(tuple@, li@),
            groups_index(groups@, self.table(), ri@),
        ensures
            stream_of(rows@) == matches_of(tuple@, self.table(), li@, ri@),
    {
        let ghost key = project(tuple@, li@);
        let ghost places = positions_of(self.table(), ri@, key);
        let mut rows: TupleVec = Vec::new();
        proof {
            lemma_matches_by_positions(tuple@, self.table(), li@, ri@);
            lemma_positions_in_table(self.table(), ri@, key);
            lemma_positions_empty(self.table(), ri@, key);
        }
        match find_group(groups, &tuple.0, li) {
            None => {
                proof {
                    if places.len() > 0 {
                        let j = choose|j: int|
                            0 <= j < self.table().len() && project(#[trigger] self.table()[j], ri@)
                                == key;
                        let g = choose|g: int|
                            0 <= g < groups.len() && values_of((#[trigger] groups[g]).key@) == project(
                                self.table()[j],
                                ri@,
                            );
                    }
                    assert(stream_of(rows@) =~= matches_of(tuple@, self.table(), li@, ri@));
                }
            },
            Some(g) => {
                let members = &groups[g].rows;
                assert(lists(members@, places));
                let mut m: usize = 0;
                while m < members.len()
                    invariant
                        m <= members.len(),
                        lists(members@, places),
                        forall|q: int|
                            0 <= q < places.len() ==> 0 <= #[trigger] places[q] < self.data.len(),
                        rows.len() == m,
                        forall|q: int|
                            0 <= q < m ==> stream_of(rows@)[q] == Ok::<Seq<Value>, QueryError>(
                                tuple@ + self.table()[places[q]],
                            ),
                    decreases members.len() - m,
                {
                    let j = members[m];
                    assert(j as int == places[m as int]);
                    let ghost before = rows@;
                    rows.push(Ok(tuple.extended(&self.data[j])));
                    assert forall|q: int| 0 <= q < m + 1 implies stream_of(rows@)[q] == Ok::<
                        Seq<Value>,
                        QueryError,
                    >(tuple@ + self.table()[places[q]]) by {
                        if q < m {
                            assert(stream_of(rows@)[q] == stream_of(before)[q]);
                        }
                    }
                    m += 1;
                }
                assert(stream_of(rows@) =~= matches_of(tuple@, self.table(), li@, ri@));
            },
        }
        rows
    }

    /// Joins a fallible sequence of left rows with this table.
    ///
    /// `join_indices` holds the key columns of the left rows and, pair by
    /// pair, those of the table. An empty table gives the empty sequence and
    /// the left side is not looked at. Else each left row, in order, gives one
    /// row for each row of the table that agrees with it on the key columns,
    /// in the order of the table: the left row with the table's row behind it;
    /// and the first error of the left side ends the result. The table is
    /// grouped by key here, once; the left side is pulled as the result is.
    pub fn join<'a>(
        &'a self,
        left_iter: TupleIter<'a>,
        join_indices: (Vec<usize>, Vec<usize>),
    ) -> (out: TupleIter<'a>)
        requires
            left_iter.wf(),
            table_covers(self.table(), join_indices.1@),
            self.data.len() > 0 ==> rows_cover(left_iter.remaining(), join_indices.0@),
        ensures
            out.wf(),
            out.remaining() == if self.data.len() == 0 {
                Seq::empty()
            } else {
                nested_loop_join(left_iter.remaining(), self.table(), join_indices.0@, join_indices.1@)
            },
            self.data.len() == 0 ==> out is Rows && out->rows@.len() == 0,
            self.data.len() == 1 ==> out.starts_with(left_iter) && (out->step matches JoinStep::Broadcast {
                table,
                li,
                ri,
                key,
            } && *table == *self && li == join_indices.0 && ri == join_indices.1),
            self.data.len() > 1 ==> out.starts_with(left_iter) && (out->step matches JoinStep::Grouped {
                table,
                li,
                ri,
                groups,
            } && *table == *self && li == join_indices.0 && ri == join_indices.1),
    {
        let (left_join_indices, right_join_indices) = join_indices;
        if self.data.len() == 0 {
            let nothing: TupleVec = Vec::new();
            assert(until_error(stream_of(nothing@)) =~= Seq::empty());
            TupleIter::from_vec(nothing)
        } else if self.data.len() == 1 {
            assert(covers(self.table()[0], right_join_indices@));
            let right_join_values = project_row(&self.data[0], &right_join_indices);
            TupleIter::joined(
                left_iter,
                JoinStep::Broadcast {
                    table: self,
                    li: left_join_indices,
                    ri: right_join_indices,
                    key: right_join_values,
                },
            )
        } else {
            let right_mapping = group_by_key(&self.data, &right_join_indices);
            TupleIter::joined(
                left_iter,
                JoinStep::Grouped {
                    table: self,
                    li: left_join_indices,
                    ri: right_join_indices,
                    groups: right_mapping,
                },
            )
        }
    }
}

} // verus!
