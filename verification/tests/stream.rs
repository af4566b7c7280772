use cozo::data::id::EntityId;
use cozo::data::tuple::{Tuple, TupleVec};
use cozo::data::value::DataValue;
use cozo::error::QueryError;
use cozo::runtime::transact::Scan;
use cozo::transact::cursor::{JoinStep, TupleIter};
use cozo::transact::fixed::InlineFixedRelation;
use cozo::data::keyword::Keyword;
use cozo::transact::triple::{with_entities, with_pairs, with_pairs_where};

fn row(n: i64) -> Result<Tuple, QueryError> {
    Ok(Tuple(vec![DataValue::Int(n)]))
}

fn io_error() -> QueryError {
    QueryError::Storage("read failed".to_string())
}

#[test]
fn a_sequence_without_error_is_pulled_to_its_end() {
    let mut iter = TupleIter::from_vec(vec![row(1), row(2), row(3)]);
    assert_eq!(iter.next(), Some(row(1)));
    assert_eq!(iter.next(), Some(row(2)));
    assert_eq!(iter.next(), Some(row(3)));
    assert_eq!(iter.next(), None);
    assert_eq!(iter.next(), None);
    assert_eq!(TupleIter::from_vec(vec![]).collect(), vec![]);
    assert_eq!(TupleIter::from_vec(vec![row(1), row(2)]).collect(), vec![row(1), row(2)]);
}

#[test]
fn a_sequence_ends_behind_its_first_error() {
    let s: TupleVec = vec![row(1), row(2), Err(io_error()), row(3), Err(QueryError::NotAnEntity)];
    assert_eq!(TupleIter::from_vec(s.clone()).collect(), vec![row(1), row(2), Err(io_error())]);
    let mut iter = TupleIter::from_vec(s);
    assert_eq!(iter.next(), Some(row(1)));
    assert_eq!(iter.next(), Some(row(2)));
    assert_eq!(iter.next(), Some(Err(io_error())));
    assert_eq!(iter.next(), None);
    assert_eq!(iter.next(), None);
    let first: TupleVec = vec![Err(QueryError::Unsupported), row(1)];
    assert_eq!(TupleIter::from_vec(first).collect(), vec![Err(QueryError::Unsupported)]);
}

#[test]
fn collect_gives_what_is_still_to_come() {
    let mut iter = TupleIter::from_vec(vec![row(1), row(2), row(3)]);
    assert_eq!(iter.next(), Some(row(1)));
    assert_eq!(iter.collect(), vec![row(2), row(3)]);
}

#[test]
fn a_join_pulls_its_left_side_row_by_row() {
    let table = InlineFixedRelation {
        bindings: vec![Keyword::new("k")],
        data: vec![vec![DataValue::Int(1)], vec![DataValue::Int(2)], vec![DataValue::Int(1)]],
    };
    // the row behind the error lacks the key column: it is never looked at
    let left = TupleIter::from_vec(vec![row(1), row(3), row(2), Err(io_error()), Ok(Tuple(vec![]))]);
    let mut joined = table.join(left, (vec![0], vec![0]));
    let pair = |a: i64, b: i64| Some(Ok(Tuple(vec![DataValue::Int(a), DataValue::Int(b)])));
    assert_eq!(joined.next(), pair(1, 1));
    assert_eq!(joined.next(), pair(1, 1));
    assert_eq!(joined.next(), pair(2, 2));
    assert_eq!(joined.next(), Some(Err(io_error())));
    assert_eq!(joined.next(), None);
    assert_eq!(joined.next(), None);
}

#[test]
fn a_step_gives_the_rows_of_one_left_row() {
    let table = InlineFixedRelation {
        bindings: vec![Keyword::new("k"), Keyword::new("v")],
        data: vec![vec![DataValue::Int(1), DataValue::Bool(true)]],
    };
    let step = JoinStep::Broadcast { table: &table, li: vec![0], ri: vec![0], key: vec![DataValue::Int(1)] };
    assert_eq!(
        step.rows_for(&Tuple(vec![DataValue::Int(1)])),
        vec![Ok(Tuple(vec![DataValue::Int(1), DataValue::Int(1), DataValue::Bool(true)]))]
    );
    assert_eq!(step.rows_for(&Tuple(vec![DataValue::Int(2)])), vec![]);
    let joined = TupleIter::joined(TupleIter::from_vec(vec![row(1), row(2), row(1)]), step);
    assert_eq!(joined.collect().len(), 2);
}

#[test]
fn with_pairs_appends_entity_and_value() {
    let scan: Scan = vec![
        Ok((EntityId(5), DataValue::Str("red".to_string()))),
        Ok((EntityId(6), DataValue::Int(2))),
    ];
    let out = with_pairs(&Tuple(vec![DataValue::Bool(true)]), &scan);
    assert_eq!(
        out,
        vec![
            Ok(Tuple(vec![
                DataValue::Bool(true),
                DataValue::EnId(EntityId(5)),
                DataValue::Str("red".to_string()),
            ])),
            Ok(Tuple(vec![DataValue::Bool(true), DataValue::EnId(EntityId(6)), DataValue::Int(2)])),
        ]
    );
}

#[test]
fn scan_error_comes_after_the_rows_before_it() {
    let scan: Scan = vec![
        Ok((EntityId(1), DataValue::Int(10))),
        Ok((EntityId(2), DataValue::Int(20))),
        Err(io_error()),
        Ok((EntityId(3), DataValue::Int(30))),
    ];
    let out = with_pairs(&Tuple(vec![]), &scan);
    assert_eq!(out.len(), 4);
    assert_eq!(
        TupleIter::from_vec(out).collect(),
        vec![
            Ok(Tuple(vec![DataValue::EnId(EntityId(1)), DataValue::Int(10)])),
            Ok(Tuple(vec![DataValue::EnId(EntityId(2)), DataValue::Int(20)])),
            Err(io_error()),
        ]
    );
}

#[test]
fn with_entities_appends_the_given_value() {
    let scan: Scan = vec![Ok((EntityId(5), DataValue::Null)), Err(io_error())];
    let out = with_entities(&Tuple(vec![DataValue::Int(0)]), &scan, &DataValue::EnId(EntityId(9)));
    assert_eq!(
        out,
        vec![
            Ok(Tuple(vec![DataValue::Int(0), DataValue::EnId(EntityId(5)), DataValue::EnId(EntityId(9))])),
            Err(io_error()),
        ]
    );
}

#[test]
fn with_pairs_where_keeps_the_given_value_and_errors() {
    let scan: Scan = vec![
        Ok((EntityId(1), DataValue::Int(10))),
        Ok((EntityId(2), DataValue::Int(20))),
        Err(io_error()),
        Ok((EntityId(3), DataValue::Int(10))),
    ];
    let out = with_pairs_where(&Tuple(vec![]), &scan, &DataValue::Int(10));
    assert_eq!(
        out,
        vec![
            Ok(Tuple(vec![DataValue::EnId(EntityId(1)), DataValue::Int(10)])),
            Err(io_error()),
            Ok(Tuple(vec![DataValue::EnId(EntityId(3)), DataValue::Int(10)])),
        ]
    );
}
