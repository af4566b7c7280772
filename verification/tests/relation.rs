use cozo::data::attr::{Attribute, AttributeIndex, AttributeTyping};
use cozo::data::id::{AttrId, EntityId, Validity};
use cozo::data::keyword::Keyword;
use cozo::data::tuple::{Tuple, TupleVec};
use cozo::data::value::DataValue;
use cozo::error::QueryError;
use cozo::runtime::transact::SessionTx;
use cozo::transact::fixed::InlineFixedRelation;
use cozo::transact::joiner::Joiner;
use cozo::transact::query::{
    clone_keywords, has_keyword, InnerJoin, ProjectedRelation, Relation, StoredDerivedRelation,
};
use cozo::transact::triple::TripleRelation;

fn text(s: &str) -> DataValue {
    DataValue::Str(s.to_string())
}

fn entity(id: u64) -> DataValue {
    DataValue::EnId(EntityId(id))
}

fn kws(names: &[&str]) -> Vec<Keyword> {
    names.iter().map(|n| Keyword::new(n)).collect()
}

fn rows(items: Vec<Vec<DataValue>>) -> TupleVec {
    items.into_iter().map(|r| Ok(Tuple(r))).collect()
}

fn people() -> Relation {
    Relation::Fixed(InlineFixedRelation {
        bindings: kws(&["who", "age"]),
        data: vec![
            vec![entity(1), DataValue::Int(30)],
            vec![entity(2), DataValue::Int(40)],
            vec![entity(5), DataValue::Int(50)],
        ],
    })
}

fn color_facts(entity_name: &str, value_name: &str) -> Relation {
    Relation::Triple(TripleRelation {
        attr: Attribute { id: AttrId(7), val_type: AttributeTyping::Str, indexing: AttributeIndex::Indexed },
        vld: Validity(0),
        bindings: [Keyword::new(entity_name), Keyword::new(value_name)],
    })
}

fn derived() -> Relation {
    Relation::Derived(StoredDerivedRelation { name: Keyword::new("path"), arity: 2, bindings: kws(&["a", "b"]) })
}

fn join(left: Relation, right: Relation, left_keys: &[&str], right_keys: &[&str]) -> Relation {
    Relation::Join(Box::new(InnerJoin {
        left,
        right,
        joiner: Joiner { left_keys: kws(left_keys), right_keys: kws(right_keys) },
    }))
}

fn store() -> SessionTx {
    let mut tx = SessionTx::new();
    tx.put(EntityId(1), AttrId(7), text("red"), Validity(0));
    tx.put(EntityId(2), AttrId(7), text("blue"), Validity(0));
    tx.put(EntityId(1), AttrId(7), text("blue"), Validity(0));
    tx
}

#[test]
fn fixed_relation_replays_its_rows() {
    let rel = people();
    assert!(rel.validate());
    assert_eq!(
        rel.iter(&store()).collect(),
        rows(vec![
            vec![entity(1), DataValue::Int(30)],
            vec![entity(2), DataValue::Int(40)],
            vec![entity(5), DataValue::Int(50)],
        ])
    );
    assert_eq!(rel.bindings(), kws(&["who", "age"]));
}

#[test]
fn triple_relation_scans_all_its_facts() {
    let rel = color_facts("e", "c");
    assert_eq!(
        rel.iter(&store()).collect(),
        rows(vec![
            vec![entity(1), text("red")],
            vec![entity(2), text("blue")],
            vec![entity(1), text("blue")],
        ])
    );
    assert_eq!(rel.bindings(), kws(&["e", "c"]));
    assert_eq!(rel.iter(&SessionTx::new()).collect(), vec![]);
}

#[test]
fn join_of_table_and_facts() {
    let rel = join(people(), color_facts("who", "color"), &["who"], &["who"]);
    assert!(rel.validate());
    assert_eq!(rel.bindings(), kws(&["who", "age", "who", "color"]));
    assert_eq!(
        rel.iter(&store()).collect(),
        rows(vec![
            vec![entity(1), DataValue::Int(30), entity(1), text("red")],
            vec![entity(1), DataValue::Int(30), entity(1), text("blue")],
            vec![entity(2), DataValue::Int(40), entity(2), text("blue")],
        ])
    );
}

#[test]
fn join_of_facts_and_table() {
    let rel = join(color_facts("e", "c"), people(), &["e"], &["who"]);
    assert!(rel.validate());
    assert_eq!(
        rel.iter(&store()).collect(),
        rows(vec![
            vec![entity(1), text("red"), entity(1), DataValue::Int(30)],
            vec![entity(2), text("blue"), entity(2), DataValue::Int(40)],
            vec![entity(1), text("blue"), entity(1), DataValue::Int(30)],
        ])
    );
}

#[test]
fn join_of_a_join_addresses_the_later_columns() {
    let inner = join(people(), color_facts("who", "color"), &["who"], &["who"]);
    let names = Relation::Fixed(InlineFixedRelation {
        bindings: kws(&["color", "warm"]),
        data: vec![vec![text("red"), DataValue::Bool(true)], vec![text("blue"), DataValue::Bool(false)]],
    });
    let rel = join(inner, names, &["color"], &["color"]);
    assert!(rel.validate());
    assert_eq!(rel.bindings(), kws(&["who", "age", "who", "color", "color", "warm"]));
    let out = rel.iter(&store()).collect();
    assert_eq!(
        out,
        rows(vec![
            vec![entity(1), DataValue::Int(30), entity(1), text("red"), text("red"), DataValue::Bool(true)],
            vec![entity(1), DataValue::Int(30), entity(1), text("blue"), text("blue"), DataValue::Bool(false)],
            vec![entity(2), DataValue::Int(40), entity(2), text("blue"), text("blue"), DataValue::Bool(false)],
        ])
    );
}

#[test]
fn join_on_both_columns_of_the_facts_filters() {
    let pairs = Relation::Fixed(InlineFixedRelation {
        bindings: kws(&["c", "e"]),
        data: vec![
            vec![text("blue"), entity(1)],
            vec![text("red"), entity(2)],
            vec![text("blue"), entity(2)],
        ],
    });
    let rel = join(pairs, color_facts("e", "c"), &["c", "e"], &["c", "e"]);
    assert!(rel.validate());
    assert_eq!(
        rel.iter(&store()).collect(),
        rows(vec![
            vec![text("blue"), entity(1), entity(1), text("blue")],
            vec![text("blue"), entity(2), entity(2), text("blue")],
        ])
    );
}

#[test]
fn every_joined_row_has_one_value_for_each_binding() {
    let rel = join(
        join(people(), color_facts("who", "color"), &["who"], &["who"]),
        color_facts("other", "color"),
        &["color"],
        &["color"],
    );
    assert!(rel.validate());
    let width = rel.bindings().len();
    let out = rel.iter(&store()).collect();
    assert_eq!(out.len(), 5);
    for item in out {
        let row = item.unwrap().0;
        assert_eq!(row.len(), width);
        assert_eq!(row[3], row[5]);
    }
}

#[test]
fn relations_that_are_not_run_give_unsupported() {
    let tx = store();
    assert_eq!(derived().iter(&tx).collect(), vec![Err(QueryError::Unsupported)]);
    let projected = Relation::Project(Box::new(ProjectedRelation { relation: people(), eliminate: kws(&["age"]) }));
    assert_eq!(projected.iter(&tx).collect(), vec![Err(QueryError::Unsupported)]);
    assert_eq!(join(people(), derived(), &[], &[]).iter(&tx).collect(), vec![Err(QueryError::Unsupported)]);
    let nested = join(people(), join(people(), people(), &[], &[]), &[], &[]);
    assert_eq!(nested.iter(&tx).collect(), vec![Err(QueryError::Unsupported)]);
    let projected_right = join(
        people(),
        Relation::Project(Box::new(ProjectedRelation { relation: people(), eliminate: vec![] })),
        &[],
        &[],
    );
    assert_eq!(projected_right.iter(&tx).collect(), vec![Err(QueryError::Unsupported)]);
}

#[test]
fn an_unsupported_left_side_is_forwarded() {
    let tx = store();
    let rel = join(derived(), color_facts("a", "c"), &["a"], &["a"]);
    assert!(rel.validate());
    assert_eq!(rel.iter(&tx).collect(), vec![Err(QueryError::Unsupported)]);
    let with_table = join(derived(), people(), &["a"], &["who"]);
    assert_eq!(with_table.iter(&tx).collect(), vec![Err(QueryError::Unsupported)]);
}

#[test]
fn bindings_of_a_projection_leave_out_the_eliminated() {
    let inner = join(people(), color_facts("who", "color"), &["who"], &["who"]);
    let rel = Relation::Project(Box::new(ProjectedRelation { relation: inner, eliminate: kws(&["who", "none"]) }));
    assert_eq!(rel.bindings(), kws(&["age", "color"]));
    let all = Relation::Project(Box::new(ProjectedRelation { relation: people(), eliminate: vec![] }));
    assert_eq!(all.bindings(), kws(&["who", "age"]));
    assert_eq!(derived().bindings(), kws(&["a", "b"]));
}

#[test]
fn validate_refuses_inconsistent_plans() {
    let missing_left = join(people(), color_facts("who", "color"), &["nobody"], &["who"]);
    assert!(!missing_left.validate());
    let missing_right = join(people(), color_facts("who", "color"), &["who"], &["nobody"]);
    assert!(!missing_right.validate());
    let uneven = join(people(), color_facts("who", "color"), &["who", "age"], &["who"]);
    assert!(!uneven.validate());
    let three = join(
        people(),
        color_facts("who", "color"),
        &["who", "who", "who"],
        &["who", "color", "who"],
    );
    assert!(!three.validate());
    let twice = join(people(), color_facts("who", "color"), &["who", "age"], &["who", "who"]);
    assert!(!twice.validate());
    let ragged = Relation::Fixed(InlineFixedRelation {
        bindings: kws(&["a", "b"]),
        data: vec![vec![DataValue::Int(1)]],
    });
    assert!(!ragged.validate());
    assert!(!join(people(), ragged, &[], &[]).validate());
    let same_names = join(people(), color_facts("x", "x"), &["who", "age"], &["x", "x"]);
    assert!(!same_names.validate());
    assert!(join(people(), people(), &["who", "age", "who"], &["who", "age", "age"]).validate());
    assert!(join(people(), derived(), &["nobody"], &[]).validate());
}

#[test]
fn keyword_helpers() {
    let names = kws(&["a", "b"]);
    assert_eq!(clone_keywords(&names), names);
    assert!(has_keyword(&names, &Keyword::new("b")));
    assert!(!has_keyword(&names, &Keyword::new("c")));
    assert!(!has_keyword(&vec![], &Keyword::new("a")));
}

#[test]
fn relations_are_built_from_their_parts() {
    let attr = Attribute { id: AttrId(7), val_type: AttributeTyping::Str, indexing: AttributeIndex::Indexed };
    let facts = Relation::triple(attr, Validity(0), Keyword::new("who"), Keyword::new("color"));
    assert_eq!(facts, color_facts("who", "color"));
    let table = Relation::fixed(kws(&["who", "age"]), vec![
        vec![entity(1), DataValue::Int(30)],
        vec![entity(2), DataValue::Int(40)],
        vec![entity(5), DataValue::Int(50)],
    ]);
    assert_eq!(table, people());
    let joiner = Joiner { left_keys: kws(&["who"]), right_keys: kws(&["who"]) };
    let joined = Relation::join(table, facts, joiner);
    assert_eq!(joined, join(people(), color_facts("who", "color"), &["who"], &["who"]));
    assert!(joined.validate());
    assert_eq!(joined.iter(&store()).collect().len(), 3);
    let projected = Relation::project(joined, kws(&["age"]));
    assert_eq!(projected.bindings(), kws(&["who", "who", "color"]));
}
