//! What a join is: for each left row in order, each right row whose key
//! columns agree with it, in order, the two rows one behind the other.

use vstd::prelude::*;
use crate::data::tuple::RowResult;
use crate::data::value::{values_of, DataValue, Value};
use crate::error::QueryError;
use crate::transact::stream::{
    flat_map_ok, lemma_flat_map_ok_source, lemma_until_error_shape, until_error,
};

verus! {

/// Whether `row` has each of the columns that `idx` names.
pub open spec fn covers(row: Seq<Value>, idx: Seq<usize>) -> bool {
    forall|k: int| 0 <= k < idx.len() ==> (#[trigger] idx[k]) < row.len()
}

/// Whether every row of a fallible sequence has the columns that `idx` names.
pub open spec fn rows_cover(s: Seq<RowResult>, idx: Seq<usize>) -> bool {
    forall|i: int| 0 <= i < s.len() ==> ((#[trigger] s[i]) matches Ok(row) ==> covers(row, idx))
}

/// Whether every row of a table has the columns that `idx` names.
pub open spec fn table_covers(table: Seq<Seq<Value>>, idx: Seq<usize>) -> bool {
    forall|i: int| 0 <= i < table.len() ==> covers(#[trigger] table[i], idx)
}

/// The columns of `row` that `idx` names, in the order of `idx`.
pub open spec fn project(row: Seq<Value>, idx: Seq<usize>) -> Seq<Value> {
    Seq::new(idx.len(), |k: int| row[idx[k] as int])
}

/// Whether a left row and a right row agree on the key columns.
pub open spec fn keys_agree(l: Seq<Value>, r: Seq<Value>, li: Seq<usize>, ri: Seq<usize>) -> bool {
    project(l, li) == project(r, ri)
}

/// The rows that one left row gives: for each row of `table` in order that
/// agrees with it on the key columns, the left row with that row behind it.
pub open spec fn matches_of(l: Seq<Value>, table: Seq<Seq<Value>>, li: Seq<usize>, ri: Seq<usize>) -> Seq<
    RowResult,
>
    decreases table.len(),
{
    if table.len() == 0 {
        Seq::empty()
    } else {
        let before = matches_of(l, table.drop_last(), li, ri);
        if keys_agree(l, table.last(), li, ri) {
            before.push(Ok(l + table.last()))
        } else {
            before
        }
    }
}

/// `matches_of` as a function of the left row.
pub open spec fn match_rows(table: Seq<Seq<Value>>, li: Seq<usize>, ri: Seq<usize>) -> spec_fn(
    Seq<Value>,
) -> Seq<RowResult> {
    |l: Seq<Value>| matches_of(l, table, li, ri)
}

/// The nested-loop equi-join of a fallible sequence of left rows with a
/// table, cut behind the first error of the left side.
pub open spec fn nested_loop_join(
    left: Seq<RowResult>,
    table: Seq<Seq<Value>>,
    li: Seq<usize>,
    ri: Seq<usize>,
) -> Seq<RowResult> {
    until_error(flat_map_ok(left, match_rows(table, li, ri)))
}

/// The places of `table`, in rising order, whose rows have `key` in the
/// columns `ri`.
pub open spec fn positions_of(table: Seq<Seq<Value>>, ri: Seq<usize>, key: Seq<Value>) -> Seq<int>
    decreases table.len(),
{
    if table.len() == 0 {
        Seq::empty()
    } else {
        let before = positions_of(table.drop_last(), ri, key);
        if project(table.last(), ri) == key {
            before.push(table.len() - 1)
        } else {
            before
        }
    }
}

/// Each place that `positions_of` gives is a place of the table, and its row
/// has the key.
pub proof fn lemma_positions_in_table(table: Seq<Seq<Value>>, ri: Seq<usize>, key: Seq<Value>)
    ensures
        forall|m: int|
            0 <= m < positions_of(table, ri, key).len() ==> {
                let j = #[trigger] positions_of(table, ri, key)[m];
                0 <= j < table.len() && project(table[j], ri) == key
            },
    decreases table.len(),
{
    if table.len() > 0 {
        let shorter = table.drop_last();
        lemma_positions_in_table(shorter, ri, key);
        assert forall|m: int| 0 <= m < positions_of(table, ri, key).len() implies {
            let j = #[trigger] positions_of(table, ri, key)[m];
            0 <= j < table.len() && project(table[j], ri) == key
        } by {
            if m < positions_of(shorter, ri, key).len() {
                let j = positions_of(shorter, ri, key)[m];
                assert(positions_of(table, ri, key)[m] == j);
                assert(shorter[j] == table[j]);
            }
        }
    }
}

/// No row of the table has the key exactly where `positions_of` gives no place.
pub proof fn lemma_positions_empty(table: Seq<Seq<Value>>, ri: Seq<usize>, key: Seq<Value>)
    ensures
        positions_of(table, ri, key).len() == 0 <==> forall|j: int|
            0 <= j < table.len() ==> project(#[trigger] table[j], ri) != key,
    decreases table.len(),
{
    if table.len() > 0 {
        lemma_positions_empty(table.drop_last(), ri, key);
        if positions_of(table, ri, key).len() == 0 {
            assert forall|j: int| 0 <= j < table.len() implies project(#[trigger] table[j], ri)
                != key by {
                if j < table.len() - 1 {
                    assert(table.drop_last()[j] == table[j]);
                }
            }
        } else {
            if project(table.last(), ri) != key {
                let j = choose|j: int|
                    0 <= j < table.drop_last().len() && project(#[trigger] table.drop_last()[j], ri)
                        == key;
                assert(table[j] == table.drop_last()[j]);
            }
        }
    }
}

/// The rows that a left row gives are the rows at the places of its key, each
/// behind the left row.
pub proof fn lemma_matches_by_positions(
    l: Seq<Value>,
    table: Seq<Seq<Value>>,
    li: Seq<usize>,
    ri: Seq<usize>,
)
    ensures
        matches_of(l, table, li, ri).len() == positions_of(table, ri, project(l, li)).len(),
        forall|m: int|
            0 <= m < positions_of(table, ri, project(l, li)).len() ==> #[trigger] matches_of(
                l,
                table,
                li,
                ri,
            )[m] == Ok::<Seq<Value>, QueryError>(
                l + table[positions_of(table, ri, project(l, li))[m]],
            ),
    decreases table.len(),
{
    if table.len() > 0 {
        lemma_matches_by_positions(l, table.drop_last(), li, ri);
        lemma_positions_in_table(table.drop_last(), ri, project(l, li));
    }
}

/// Each row that a left row gives is the left row with a row of the table
/// behind it that agrees with it on the key columns. The lemma returns the
/// place of that row of the table.
pub proof fn lemma_matches_row(
    l: Seq<Value>,
    table: Seq<Seq<Value>>,
    li: Seq<usize>,
    ri: Seq<usize>,
    m: int,
) -> (j: int)
    requires
        0 <= m < matches_of(l, table, li, ri).len(),
    ensures
        0 <= j < table.len(),
        keys_agree(l, table[j], li, ri),
        matches_of(l, table, li, ri)[m] == Ok::<Seq<Value>, QueryError>(l + table[j]),
{
    lemma_matches_by_positions(l, table, li, ri);
    lemma_positions_in_table(table, ri, project(l, li));
    positions_of(table, ri, project(l, li))[m]
}

/// Every row of a join is a row of the left side with a row of the table
/// behind it, and the two agree on the key columns: for each pair of key
/// columns, the row of the join holds the same value in the column of the
/// left row and in the column of the table's row. The lemma returns the
/// places of the two rows.
pub proof fn lemma_nested_loop_row(
    left: Seq<RowResult>,
    table: Seq<Seq<Value>>,
    li: Seq<usize>,
    ri: Seq<usize>,
    i: int,
) -> (at: (int, int))
    requires
        0 <= i < nested_loop_join(left, table, li, ri).len(),
        nested_loop_join(left, table, li, ri)[i] is Ok,
    ensures
        0 <= at.0 < left.len(),
        0 <= at.1 < table.len(),
        left[at.0] is Ok,
        nested_loop_join(left, table, li, ri)[i] == Ok::<Seq<Value>, QueryError>(
            left[at.0]->Ok_0 + table[at.1],
        ),
        keys_agree(left[at.0]->Ok_0, table[at.1], li, ri),
        covers(left[at.0]->Ok_0, li) && covers(table[at.1], ri) ==> forall|k: int|
            0 <= k < li.len() && k < ri.len() ==> {
                let row = nested_loop_join(left, table, li, ri)[i]->Ok_0;
                row[(#[trigger] li[k]) as int] == row[left[at.0]->Ok_0.len() + ri[k]]
            },
{
    let f = match_rows(table, li, ri);
    let flat = flat_map_ok(left, f);
    lemma_until_error_shape(flat);
    let j = lemma_flat_map_ok_source(left, f, i);
    let l = left[j]->Ok_0;
    let rows = matches_of(l, table, li, ri);
    assert(rows.contains(flat[i]));
    let m = choose|m: int| 0 <= m < rows.len() && #[trigger] rows[m] == flat[i];
    let r = lemma_matches_row(l, table, li, ri, m);
    if covers(l, li) && covers(table[r], ri) {
        assert forall|k: int| 0 <= k < li.len() && k < ri.len() implies {
            let row = nested_loop_join(left, table, li, ri)[i]->Ok_0;
            row[(#[trigger] li[k]) as int] == row[l.len() + ri[k]]
        } by {
            assert(project(l, li)[k] == project(table[r], ri)[k]);
            assert(ri[k] < table[r].len());
        }
    }
    (j, r)
}

/// The columns of a row that `idx` names, copied in the order of `idx`.
pub fn project_row(row: &Vec<DataValue>, idx: &Vec<usize>) -> (out: Vec<DataValue>)
    requires
        covers(values_of(row@), idx@),
    ensures
        values_of(out@) == project(values_of(row@), idx@),
{
    let mut out: Vec<DataValue> = Vec::new();
    let mut k: usize = 0;
    while k < idx.len()
        invariant
            k <= idx.len(),
            covers(values_of(row@), idx@),
            out.len() == k,
            forall|j: int| 0 <= j < k ==> (#[trigger] out@[j])@ == row@[idx@[j] as int]@,
        decreases idx.len() - k,
    {
        assert(idx@[k as int] < values_of(row@).len());
        let item = row[idx[k]].clone();
        out.push(item);
        k += 1;
    }
    assert(values_of(out@) =~= project(values_of(row@), idx@));
    out
}

/// Whether the columns of a row that `idx` names hold `key`, place by place.
pub fn key_matches(row: &Vec<DataValue>, idx: &Vec<usize>, key: &Vec<DataValue>) -> (same: bool)
    requires
        covers(values_of(row@), idx@),
    ensures
        same == (project(values_of(row@), idx@) == values_of(key@)),
{
    if idx.len() != key.len() {
        assert(project(values_of(row@), idx@).len() != values_of(key@).len());
        return false;
    }
    let mut k: usize = 0;
    while k < idx.len()
        invariant
            k <= idx.len(),
            idx.len() == key.len(),
            covers(values_of(row@), idx@),
            forall|j: int| 0 <= j < k ==> row@[(#[trigger] idx@[j]) as int]@ == key@[j]@,
        decreases idx.len() - k,
    {
        assert(idx@[k as int] < values_of(row@).len());
        if !row[idx[k]].same_value(&key[k]) {
            assert(project(values_of(row@), idx@)[k as int] != values_of(key@)[k as int]);
            return false;
        }
        k += 1;
    }
    assert(project(values_of(row@), idx@) =~= values_of(key@));
    true
}

} // verus!
