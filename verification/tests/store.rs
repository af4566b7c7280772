use cozo::data::id::{AttrId, EntityId, Validity};
use cozo::data::value::DataValue;
use cozo::runtime::transact::{Scan, SessionTx};

fn text(s: &str) -> DataValue {
    DataValue::Str(s.to_string())
}

fn sample() -> SessionTx {
    let mut tx = SessionTx::new();
    assert!(tx.put(EntityId(1), AttrId(1), text("red"), Validity(0)));
    assert!(tx.put(EntityId(2), AttrId(1), text("blue"), Validity(5)));
    assert!(tx.put(EntityId(1), AttrId(2), DataValue::EnId(EntityId(2)), Validity(0)));
    assert!(tx.put(EntityId(1), AttrId(1), text("blue"), Validity(10)));
    assert!(tx.put(EntityId(3), AttrId(2), DataValue::EnId(EntityId(2)), Validity(0)));
    tx
}

fn pairs(items: Vec<(u64, DataValue)>) -> Scan {
    items.into_iter().map(|(e, v)| Ok((EntityId(e), v))).collect()
}

#[test]
fn new_snapshot_is_empty() {
    let tx = SessionTx::new();
    assert_eq!(tx.len(), 0);
    assert_eq!(tx.triple_a_before_scan(AttrId(1), Validity(100)), vec![]);
    assert_eq!(tx.eav_exists(EntityId(1), AttrId(1), &DataValue::Null, Validity(100)), Ok(false));
}

#[test]
fn put_refuses_a_repeated_fact() {
    let mut tx = sample();
    assert_eq!(tx.len(), 5);
    assert!(!tx.put(EntityId(1), AttrId(1), text("red"), Validity(50)));
    assert_eq!(tx.len(), 5);
    assert!(tx.put(EntityId(1), AttrId(1), text("green"), Validity(50)));
    assert_eq!(tx.len(), 6);
}

#[test]
fn attribute_scan_follows_the_order_of_the_store() {
    let tx = sample();
    assert_eq!(
        tx.triple_a_before_scan(AttrId(1), Validity(10)),
        pairs(vec![(1, text("red")), (2, text("blue")), (1, text("blue"))])
    );
}

#[test]
fn scans_see_only_what_was_asserted_by_then() {
    let tx = sample();
    assert_eq!(tx.triple_a_before_scan(AttrId(1), Validity(-1)), vec![]);
    assert_eq!(tx.triple_a_before_scan(AttrId(1), Validity(0)), pairs(vec![(1, text("red"))]));
    assert_eq!(
        tx.triple_a_before_scan(AttrId(1), Validity(9)),
        pairs(vec![(1, text("red")), (2, text("blue"))])
    );
    assert_eq!(tx.eav_exists(EntityId(1), AttrId(1), &text("blue"), Validity(9)), Ok(false));
    assert_eq!(tx.eav_exists(EntityId(1), AttrId(1), &text("blue"), Validity(10)), Ok(true));
}

#[test]
fn entity_scan_yields_the_facts_of_one_entity() {
    let tx = sample();
    assert_eq!(
        tx.triple_ea_before_scan(EntityId(1), AttrId(1), Validity(10)),
        pairs(vec![(1, text("red")), (1, text("blue"))])
    );
    assert_eq!(tx.triple_ea_before_scan(EntityId(9), AttrId(1), Validity(10)), vec![]);
}

#[test]
fn value_scan_yields_the_facts_with_one_value() {
    let tx = sample();
    assert_eq!(
        tx.triple_av_before_scan(AttrId(1), &text("blue"), Validity(10)),
        pairs(vec![(2, text("blue")), (1, text("blue"))])
    );
    assert_eq!(tx.triple_av_before_scan(AttrId(1), &text("pink"), Validity(10)), vec![]);
}

#[test]
fn reference_scan_yields_the_referring_entities() {
    let tx = sample();
    assert_eq!(
        tx.triple_vref_a_before_scan(EntityId(2), AttrId(2), Validity(10)),
        pairs(vec![(1, DataValue::EnId(EntityId(2))), (3, DataValue::EnId(EntityId(2)))])
    );
    assert_eq!(tx.triple_vref_a_before_scan(EntityId(1), AttrId(2), Validity(10)), vec![]);
}

#[test]
fn existence_test_needs_entity_attribute_and_value() {
    let tx = sample();
    assert_eq!(tx.eav_exists(EntityId(1), AttrId(1), &text("red"), Validity(10)), Ok(true));
    assert_eq!(tx.eav_exists(EntityId(2), AttrId(1), &text("red"), Validity(10)), Ok(false));
    assert_eq!(tx.eav_exists(EntityId(1), AttrId(2), &text("red"), Validity(10)), Ok(false));
    assert_eq!(tx.eav_exists(EntityId(1), AttrId(1), &text("rod"), Validity(10)), Ok(false));
}
