//! What holds of every join, whatever the rows and the facts.

use vstd::prelude::*;
use crate::data::id::{AttrId, Validity};
use crate::data::keyword::names;
use crate::data::tuple::RowResult;
use crate::data::value::Value;
use crate::error::QueryError;
use crate::runtime::transact::{
    attribute_probe, distinct_facts, fits, select, Fact, Probe, SessionTx,
};
use crate::transact::joiner::{key_positions, lemma_last_index_found};
use crate::transact::nested_loop::{
    keys_agree, lemma_nested_loop_row, match_rows, matches_of, nested_loop_join, project,
};
use crate::transact::query::{join_rows, join_wf, InnerJoin, Relation};
use crate::transact::stream::{
    flat_map_ok, has_error, lemma_flat_map_ok_concat, lemma_no_error_concat,
    lemma_until_error_concat, lemma_until_error_none, lemma_until_error_shape,
    lemma_until_error_stops, until_error,
};
use crate::transact::triple::{
    appended, entities_bound, fact_row, fact_table, lemma_keys_agree_none, lemma_keys_agree_two,
    lemma_matches_by_probe, lemma_select_unique, lemma_triple_join_row, triple_join,
    triple_matches, triple_rows,
};

verus! {

/// The first error of a fallible sequence ends its cut: where the element at
/// `k` is an error and every element before it is a row, the cut is the
/// first `k` rows and then that error, and nothing more.
pub proof fn lemma_error_ends_result<T>(s: Seq<Result<T, QueryError>>, k: int)
    requires
        0 <= k < s.len(),
        s[k] is Err,
        forall|i: int| 0 <= i < k ==> (#[trigger] s[i]) is Ok,
    ensures
        until_error(s) == s.take(k + 1),
        until_error(s).len() == k + 1,
        until_error(s)[k] == s[k],
{
    let a = s.take(k);
    let b = s.skip(k);
    assert(a + b =~= s);
    lemma_until_error_concat(a, b);
    lemma_until_error_none(a);
    assert(b[0] is Err);
    assert(until_error(b) =~= seq![b[0]]);
    assert(a + seq![b[0]] =~= s.take(k + 1));
}

/// `flat_map_ok` looks at `f` only on the rows of `left`.
pub proof fn lemma_flat_map_ok_congruent(
    left: Seq<RowResult>,
    f: spec_fn(Seq<Value>) -> Seq<RowResult>,
    g: spec_fn(Seq<Value>) -> Seq<RowResult>,
)
    requires
        forall|j: int| 0 <= j < left.len() && (#[trigger] left[j]) is Ok ==> f(left[j]->Ok_0) == g(left[j]->Ok_0),
    ensures
        flat_map_ok(left, f) == flat_map_ok(left, g),
    decreases left.len(),
{
    if left.len() > 0 {
        let shorter = left.drop_last();
        assert forall|j: int| 0 <= j < shorter.len() && (#[trigger] shorter[j]) is Ok implies f(
            shorter[j]->Ok_0,
        ) == g(shorter[j]->Ok_0) by {
            assert(shorter[j] == left[j]);
        }
        lemma_flat_map_ok_congruent(shorter, f, g);
        assert(left.last() == left[left.len() - 1]);
    }
}

/// An error of the left side is forwarded: where the element of `left` at `k`
/// is an error, every element before it is a row, and `f` gives no error for
/// these rows, the result is what `f` gives for the first `k` rows, then that
/// error, and nothing more.
pub proof fn lemma_left_error_forwarded(
    left: Seq<RowResult>,
    f: spec_fn(Seq<Value>) -> Seq<RowResult>,
    k: int,
)
    requires
        0 <= k < left.len(),
        left[k] is Err,
        forall|i: int| 0 <= i < k ==> (#[trigger] left[i]) is Ok,
        !has_error(flat_map_ok(left.take(k), f)),
    ensures
        until_error(flat_map_ok(left, f)) == flat_map_ok(left.take(k), f) + seq![left[k]],
{
    let done = left.take(k);
    let rest = left.skip(k + 1);
    let here = seq![left[k]];
    assert((done + here) + rest =~= left);
    lemma_flat_map_ok_concat(done + here, rest, f);
    lemma_flat_map_ok_concat(done, here, f);
    assert(here.drop_last() =~= Seq::<RowResult>::empty());
    assert(flat_map_ok(here, f) =~= here) by {
        assert(flat_map_ok(here.drop_last(), f) =~= Seq::<RowResult>::empty());
    }
    assert(until_error(here) =~= here);
    lemma_until_error_stops(
        flat_map_ok(done, f),
        here,
        flat_map_ok(rest, f),
    );
}

/// An error of a scan is forwarded: where the element of a scan at `k` is an
/// error and every element before it is a pair, a left row joined with the
/// scan gives the row with each of the first `k` pairs behind it, then that
/// error, and nothing more.
pub proof fn lemma_scan_error_forwarded(
    row: Seq<Value>,
    pairs: Seq<Result<(u64, Value), QueryError>>,
    k: int,
)
    requires
        0 <= k < pairs.len(),
        pairs[k] is Err,
        forall|i: int| 0 <= i < k ==> (#[trigger] pairs[i]) is Ok,
    ensures
        until_error(appended(row, pairs)) == appended(row, pairs.take(k)) + seq![
            Err::<Seq<Value>, QueryError>(pairs[k]->Err_0),
        ],
{
    let s = appended(row, pairs);
    assert(s[k] is Err);
    assert forall|i: int| 0 <= i < k implies (#[trigger] s[i]) is Ok by {
        assert(pairs[i] is Ok);
    }
    lemma_error_ends_result(s, k);
    assert(s.take(k + 1) =~= appended(row, pairs.take(k)) + seq![
        Err::<Seq<Value>, QueryError>(pairs[k]->Err_0),
    ]);
}

/// What stands behind the first error of the left side plays no part in a
/// join.
pub proof fn lemma_join_of_cut(left: Seq<RowResult>, f: spec_fn(Seq<Value>) -> Seq<RowResult>)
    ensures
        until_error(flat_map_ok(left, f)) == until_error(flat_map_ok(until_error(left), f)),
{
    lemma_until_error_shape(left);
    if has_error(left) {
        let cut = until_error(left);
        let rest = left.skip(cut.len() as int);
        assert(cut + rest =~= left);
        lemma_flat_map_ok_concat(cut, rest, f);
        let k = cut.len() - 1;
        assert(cut[k] is Err);
        assert(cut.take(k).push(cut[k]) =~= cut);
        lemma_flat_map_ok_concat(cut.take(k), seq![cut[k]], f);
        assert(cut.take(k) + seq![cut[k]] =~= cut);
        let last = flat_map_ok(seq![cut[k]], f);
        assert(seq![cut[k]].drop_last() =~= Seq::<RowResult>::empty());
        assert(flat_map_ok(seq![cut[k]].drop_last(), f) =~= Seq::<RowResult>::empty());
        assert(last =~= seq![cut[k]]);
        let whole = flat_map_ok(cut, f);
        assert(whole[whole.len() - 1] is Err);
        lemma_until_error_concat(whole, flat_map_ok(rest, f));
    }
}

/// Where every left row that comes before the first error of the left side
/// holds an entity reference in each column that needs one, the join with
/// the facts of an attribute is the nested-loop join with the table of these
/// facts: how the store is read changes nothing.
pub proof fn lemma_triple_join_is_nested_loop(
    left: Seq<RowResult>,
    table: Seq<Seq<Value>>,
    li: Seq<usize>,
    ri: Seq<usize>,
    by_reference: bool,
)
    requires
        forall|j: int|
            0 <= j < until_error(left).len() && (#[trigger] until_error(left)[j]) is Ok
                ==> entities_bound(until_error(left)[j]->Ok_0, li, ri, by_reference),
    ensures
        triple_join(left, table, li, ri, by_reference) == nested_loop_join(left, table, li, ri),
{
    lemma_join_of_cut(left, triple_rows(table, li, ri, by_reference));
    lemma_join_of_cut(left, match_rows(table, li, ri));
    lemma_flat_map_ok_congruent(
        until_error(left),
        triple_rows(table, li, ri, by_reference),
        match_rows(table, li, ri),
    );
}

/// A left row joined on no column gives one row for each row of the table.
pub proof fn lemma_matches_all(row: Seq<Value>, table: Seq<Seq<Value>>)
    ensures
        matches_of(row, table, Seq::<usize>::empty(), Seq::<usize>::empty()).len() == table.len(),
        !has_error(matches_of(row, table, Seq::<usize>::empty(), Seq::<usize>::empty())),
    decreases table.len(),
{
    let none = Seq::<usize>::empty();
    if table.len() > 0 {
        lemma_matches_all(row, table.drop_last());
        lemma_keys_agree_none(row, table.last());
        let before = matches_of(row, table.drop_last(), none, none);
        let now = matches_of(row, table, none, none);
        if has_error(now) {
            let i = choose|i: int| 0 <= i < now.len() && (#[trigger] now[i]) is Err;
            if i < before.len() {
                assert(before[i] is Err);
            }
        }
    }
}

/// A join on no column of `L` left rows, none of them an error, with `M`
/// facts has `L * M` rows.
pub proof fn lemma_cartesian_count(left: Seq<RowResult>, table: Seq<Seq<Value>>, by_reference: bool)
    requires
        !has_error(left),
    ensures
        triple_join(left, table, Seq::<usize>::empty(), Seq::<usize>::empty(), by_reference).len()
            == left.len() * table.len(),
        !has_error(triple_join(left, table, Seq::<usize>::empty(), Seq::<usize>::empty(), by_reference)),
    decreases left.len(),
{
    let none = Seq::<usize>::empty();
    let f = triple_rows(table, none, none, by_reference);
    if left.len() == 0 {
        assert(flat_map_ok(left, f) =~= Seq::<RowResult>::empty());
        assert(until_error(flat_map_ok(left, f)) =~= Seq::<RowResult>::empty());
        assert(left.len() * table.len() == 0) by (nonlinear_arith)
            requires
                left.len() == 0,
        ;
    } else {
        let shorter = left.drop_last();
        assert(!has_error(shorter)) by {
            if has_error(shorter) {
                let i = choose|i: int| 0 <= i < shorter.len() && (#[trigger] shorter[i]) is Err;
                assert(left[i] is Err);
            }
        }
        lemma_cartesian_count(shorter, table, by_reference);
        assert(left[left.len() - 1] is Ok);
        let row = left.last()->Ok_0;
        lemma_matches_all(row, table);
        assert(entities_bound(row, none, none, by_reference));
        let before = flat_map_ok(shorter, f);
        let here = f(row);
        lemma_until_error_shape(before);
        lemma_until_error_concat(before, here);
        lemma_until_error_none(here);
        lemma_no_error_concat(before, here);
        assert(left.len() * table.len() == shorter.len() * table.len() + table.len()) by (nonlinear_arith)
            requires
                left.len() == shorter.len() + 1,
        ;
    }
}

/// Where `f` gives at most one element for each row, `flat_map_ok` has at
/// most as many elements as `left`.
pub proof fn lemma_flat_map_ok_len_bound(left: Seq<RowResult>, f: spec_fn(Seq<Value>) -> Seq<RowResult>)
    requires
        forall|j: int| 0 <= j < left.len() && (#[trigger] left[j]) is Ok ==> f(left[j]->Ok_0).len() <= 1,
    ensures
        flat_map_ok(left, f).len() <= left.len(),
    decreases left.len(),
{
    if left.len() > 0 {
        let shorter = left.drop_last();
        assert forall|j: int| 0 <= j < shorter.len() && (#[trigger] shorter[j]) is Ok implies f(
            shorter[j]->Ok_0,
        ).len() <= 1 by {
            assert(shorter[j] == left[j]);
        }
        lemma_flat_map_ok_len_bound(shorter, f);
        assert(left.last() == left[left.len() - 1]);
    }
}

/// A left row joined on both columns with facts of which none is repeated
/// gives at most one element.
pub proof fn lemma_existence_row(
    row: Seq<Value>,
    facts: Seq<Fact>,
    attr: AttrId,
    as_of: Validity,
    e_col: usize,
    v_col: usize,
    by_reference: bool,
)
    requires
        distinct_facts(facts),
    ensures
        triple_matches(
            row,
            fact_table(facts, attr, as_of),
            seq![e_col, v_col],
            seq![0usize, 1usize],
            by_reference,
        ).len() <= 1,
{
    let li = seq![e_col, v_col];
    let ri = seq![0usize, 1usize];
    if entities_bound(row, li, ri, by_reference) {
        assert(ri[0] == 0);
        assert(row[li[0] as int] is EnId);
        let e = row[e_col as int]->EnId_0;
        let base = attribute_probe(attr, as_of);
        let p = Probe { entity: Some(e), value: Some(row[v_col as int]), ..base };
        assert forall|f: Fact| #[trigger]
            fits(f, p) <==> (fits(f, base)
                && keys_agree(row, fact_row(f), li, ri)) by {
            lemma_keys_agree_two(row, fact_row(f), e_col, v_col, 0, 1);
        }
        lemma_matches_by_probe(row, facts, base, p, li, ri);
        lemma_select_unique(facts, p);
    }
}

/// A join on both columns only filters: with facts of which none is
/// repeated, the result has at most as many elements as the left side, and
/// each of its rows is a left row with the values of its two key columns
/// behind it.
pub proof fn lemma_existence_filter(
    left: Seq<RowResult>,
    facts: Seq<Fact>,
    attr: AttrId,
    as_of: Validity,
    e_col: usize,
    v_col: usize,
    by_reference: bool,
)
    requires
        distinct_facts(facts),
    ensures
        ({
            let out = triple_join(
                left,
                fact_table(facts, attr, as_of),
                seq![e_col, v_col],
                seq![0usize, 1usize],
                by_reference,
            );
            &&& out.len() <= left.len()
            &&& forall|i: int|
                0 <= i < out.len() && (#[trigger] out[i]) is Ok ==> exists|j: int|
                    0 <= j < left.len() && (#[trigger] left[j]) is Ok && out[i] == Ok::<
                        Seq<Value>,
                        QueryError,
                    >(
                        left[j]->Ok_0 + seq![left[j]->Ok_0[e_col as int], left[j]->Ok_0[v_col as int]],
                    )
        }),
{
    let table = fact_table(facts, attr, as_of);
    let li = seq![e_col, v_col];
    let ri = seq![0usize, 1usize];
    let f = triple_rows(table, li, ri, by_reference);
    let out = triple_join(left, table, li, ri, by_reference);
    assert forall|j: int| 0 <= j < left.len() && (#[trigger] left[j]) is Ok implies f(left[j]->Ok_0).len()
        <= 1 by {
        lemma_existence_row(left[j]->Ok_0, facts, attr, as_of, e_col, v_col, by_reference);
    }
    lemma_flat_map_ok_len_bound(left, f);
    lemma_until_error_shape(flat_map_ok(left, f));
    assert forall|i: int| 0 <= i < out.len() && (#[trigger] out[i]) is Ok implies exists|j: int|
        0 <= j < left.len() && (#[trigger] left[j]) is Ok && out[i] == Ok::<Seq<Value>, QueryError>(
            left[j]->Ok_0 + seq![left[j]->Ok_0[e_col as int], left[j]->Ok_0[v_col as int]],
        ) by {
        let at = lemma_triple_join_row(left, table, li, ri, by_reference, i);
        let l = left[at.0]->Ok_0;
        let r = table[at.1];
        lemma_keys_agree_two(l, r, e_col, v_col, 0, 1);
        let chosen = select(facts, attribute_probe(attr, as_of));
        assert(r == fact_row(chosen[at.1]));
        assert(r =~= seq![l[e_col as int], l[v_col as int]]);
    }
}

/// The rows of a join agree on each pair of key columns: in every row, the
/// column that the joiner finds for a left key and the column that it finds
/// for the right key of the same pair, which stands behind the columns of the
/// left side, hold the same value.
pub proof fn lemma_join_agrees_on_keys(join: InnerJoin, tx: &SessionTx, i: int, k: int)
    requires
        join.left.wf(),
        join.right.wf(),
        join_wf(join.left.spec_bindings(), join.right, join.joiner),
        0 <= i < join_rows(join.left.rows(tx), join.left.spec_bindings(), join.right, join.joiner, tx).len(),
        join_rows(join.left.rows(tx), join.left.spec_bindings(), join.right, join.joiner, tx)[i] is Ok,
        0 <= k < join.joiner.left_keys.len(),
    ensures
        ({
            let row = join_rows(
                join.left.rows(tx),
                join.left.spec_bindings(),
                join.right,
                join.joiner,
                tx,
            )[i]->Ok_0;
            let left_columns = join.left.spec_bindings().len();
            let li = key_positions(join.joiner.left_keys@, join.left.spec_bindings());
            let ri = key_positions(join.joiner.right_keys@, join.right.spec_bindings());
            &&& row.len() == left_columns + join.right.spec_bindings().len()
            &&& li[k] < left_columns
            &&& ri[k] < join.right.spec_bindings().len()
            &&& row[li[k] as int] == row[left_columns + ri[k]]
        }),
{
    let left_rows = join.left.rows(tx);
    let li = key_positions(join.joiner.left_keys@, join.left.spec_bindings());
    let ri = key_positions(join.joiner.right_keys@, join.right.spec_bindings());
    let whole = Relation::Join(Box::new(join));
    assert(whole.wf());
    assert(whole.rows(tx) == join_rows(left_rows, join.left.spec_bindings(), join.right, join.joiner, tx));
    whole.lemma_rows_arity(tx, i);
    assert(names(join.left.spec_bindings()).contains(join.joiner.left_keys[k]@));
    assert(names(join.right.spec_bindings()).contains(join.joiner.right_keys[k]@));
    lemma_last_index_found(names(join.left.spec_bindings()), join.joiner.left_keys[k]@);
    lemma_last_index_found(
        names(join.right.spec_bindings()),
        join.joiner.right_keys[k]@,
    );
    match join.right {
        Relation::Fixed(f) => {
            let at = lemma_nested_loop_row(left_rows, f.table(), li, ri, i);
            join.left.lemma_rows_arity(tx, at.0);
            let l = left_rows[at.0]->Ok_0;
            let r = f.table()[at.1];
            assert(project(l, li)[k] == project(r, ri)[k]);
        },
        Relation::Triple(t) => {
            let at = lemma_triple_join_row(left_rows, t.table(tx), li, ri, t.by_reference(), i);
            join.left.lemma_rows_arity(tx, at.0);
            let l = left_rows[at.0]->Ok_0;
            let r = t.table(tx)[at.1];
            assert(project(l, li)[k] == project(r, ri)[k]);
        },
        _ => {},
    }
}

} // verus!
