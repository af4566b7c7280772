use cozo::data::attr::{AttributeIndex, AttributeTyping};
use cozo::data::id::EntityId;
use cozo::data::tuple::Tuple;
use cozo::data::value::{clone_values, same_values, DataValue};
use cozo::error::QueryError;
use cozo::transact::query::{flatten_err, invert_option_err};

fn text(s: &str) -> DataValue {
    DataValue::Str(s.to_string())
}

#[test]
fn get_entity_id_of_a_reference() {
    assert_eq!(DataValue::EnId(EntityId(42)).get_entity_id(), Ok(EntityId(42)));
}

#[test]
fn get_entity_id_of_other_values_fails() {
    let others = vec![
        DataValue::Null,
        DataValue::Bool(true),
        DataValue::Int(42),
        DataValue::Float(42),
        text("42"),
        DataValue::List(vec![DataValue::EnId(EntityId(42))]),
    ];
    for v in others {
        assert_eq!(v.get_entity_id(), Err(QueryError::NotAnEntity));
    }
}

#[test]
fn same_value_tells_kinds_apart() {
    let values = vec![
        DataValue::Null,
        DataValue::Bool(false),
        DataValue::Bool(true),
        DataValue::Int(1),
        DataValue::Int(-1),
        DataValue::Float(1),
        text(""),
        text("1"),
        DataValue::EnId(EntityId(1)),
        DataValue::List(vec![]),
        DataValue::List(vec![DataValue::Int(1)]),
        DataValue::List(vec![DataValue::Int(1), DataValue::Int(1)]),
        DataValue::List(vec![DataValue::List(vec![DataValue::Int(1)])]),
    ];
    for (i, a) in values.iter().enumerate() {
        for (j, b) in values.iter().enumerate() {
            assert_eq!(a.same_value(b), i == j);
        }
    }
}

#[test]
fn clone_keeps_nested_lists() {
    let v = DataValue::List(vec![
        text("a"),
        DataValue::List(vec![DataValue::Int(7), DataValue::Null]),
        DataValue::Float(0x3ff0000000000000),
    ]);
    let c = v.clone();
    assert_eq!(c, v);
    assert!(c.same_value(&v));
}

#[test]
fn clone_values_and_same_values_agree() {
    let row = vec![DataValue::Int(1), text("x"), DataValue::EnId(EntityId(3))];
    let copy = clone_values(&row);
    assert_eq!(copy, row);
    assert!(same_values(&row, &copy));
    assert!(!same_values(&row, &vec![DataValue::Int(1), text("x")]));
    assert!(!same_values(&row, &vec![DataValue::Int(1), text("y"), DataValue::EnId(EntityId(3))]));
    assert!(same_values(&vec![], &vec![]));
}

#[test]
fn tuple_extended_puts_the_values_behind() {
    let t = Tuple(vec![DataValue::Int(1)]);
    let e = t.extended(&vec![text("a"), DataValue::Null]);
    assert_eq!(e, Tuple(vec![DataValue::Int(1), text("a"), DataValue::Null]));
    assert_eq!(t.extended(&vec![]), t);
    assert_eq!(t.clone(), t);
}

#[test]
fn flatten_err_takes_the_outer_error_first() {
    let outer: Result<Result<i32, QueryError>, QueryError> = Err(QueryError::Unsupported);
    assert_eq!(flatten_err(outer), Err(QueryError::Unsupported));
    let inner: Result<Result<i32, QueryError>, QueryError> = Ok(Err(QueryError::NotAnEntity));
    assert_eq!(flatten_err(inner), Err(QueryError::NotAnEntity));
    let fine: Result<Result<i32, QueryError>, QueryError> = Ok(Ok(5));
    assert_eq!(flatten_err(fine), Ok(5));
}

#[test]
fn invert_option_err_drops_nothing_but_none() {
    let failed: Result<Option<i32>, QueryError> = Err(QueryError::Storage("io".to_string()));
    assert_eq!(invert_option_err(failed), Some(Err(QueryError::Storage("io".to_string()))));
    let nothing: Result<Option<i32>, QueryError> = Ok(None);
    assert_eq!(invert_option_err(nothing), None);
    let some: Result<Option<i32>, QueryError> = Ok(Some(9));
    assert_eq!(invert_option_err(some), Some(Ok(9)));
}

#[test]
fn query_error_clone_keeps_the_text() {
    let e = QueryError::Storage("disk gone".to_string());
    assert_eq!(e.clone(), e);
    assert_eq!(QueryError::NotAnEntity.clone(), QueryError::NotAnEntity);
    assert_eq!(QueryError::Unsupported.clone(), QueryError::Unsupported);
    assert_ne!(QueryError::Storage("a".to_string()), QueryError::Storage("b".to_string()));
}

#[test]
fn attribute_kinds() {
    assert!(AttributeTyping::Ref.is_ref_type());
    for t in [
        AttributeTyping::Bool,
        AttributeTyping::Int,
        AttributeTyping::Float,
        AttributeTyping::Str,
        AttributeTyping::List,
    ] {
        assert!(!t.is_ref_type());
    }
    assert!(!AttributeIndex::Unindexed.should_index());
    assert!(AttributeIndex::Indexed.should_index());
    assert!(AttributeIndex::Identity.should_index());
}

#[test]
fn values_sort_by_kind_and_then_by_content() {
    let mut values = vec![
        DataValue::List(vec![DataValue::Int(2)]),
        text("b"),
        DataValue::Int(7),
        DataValue::EnId(EntityId(1)),
        DataValue::Null,
        text("a"),
        DataValue::Int(-7),
        DataValue::Bool(true),
        DataValue::List(vec![DataValue::Int(1), DataValue::Int(9)]),
        DataValue::Bool(false),
    ];
    values.sort();
    assert_eq!(
        values,
        vec![
            DataValue::Null,
            DataValue::Bool(false),
            DataValue::Bool(true),
            DataValue::Int(-7),
            DataValue::Int(7),
            text("a"),
            text("b"),
            DataValue::EnId(EntityId(1)),
            DataValue::List(vec![DataValue::Int(1), DataValue::Int(9)]),
            DataValue::List(vec![DataValue::Int(2)]),
        ]
    );
    let mut keyed = std::collections::BTreeMap::new();
    keyed.insert(vec![text("k"), DataValue::Int(1)], 1);
    keyed.insert(vec![text("k"), DataValue::Int(0)], 2);
    assert_eq!(keyed.keys().next(), Some(&vec![text("k"), DataValue::Int(0)]));
}

#[test]
fn query_error_message() {
    assert_eq!(QueryError::NotAnEntity.message(), "a bound column holds no entity reference");
    assert_eq!(QueryError::Storage("disk gone".to_string()).message(), "disk gone");
    assert_eq!(QueryError::Unsupported.message(), "this kind of relation is not evaluated");
}
