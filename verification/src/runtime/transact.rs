//! A snapshot of a triple store and its scans.

use vstd::prelude::*;
use crate::data::id::{AttrId, EntityId, Validity};
use crate::data::value::{DataValue, Value};
use crate::error::QueryError;

verus! {

/// One fact of the store: an entity has a value for an attribute, from a
/// point in time on.
pub struct Fact {
    pub entity: u64,
    pub attr: u64,
    pub value: Value,
    pub since: int,
}

/// What a scan looks for: the facts of one attribute that hold as of a point
/// in time, and among them those of one entity, or with one value, or both.
pub struct Probe {
    pub attr: u64,
    pub as_of: int,
    pub entity: Option<u64>,
    pub value: Option<Value>,
}

/// Whether a fact is one that the probe looks for.
pub open spec fn fits(f: Fact, p: Probe) -> bool {
    &&& f.attr == p.attr
    &&& f.since <= p.as_of
    &&& (p.entity matches Some(e) ==> f.entity == e)
    &&& (p.value matches Some(v) ==> f.value == v)
}

/// The facts that a probe looks for, in the order of the store.
pub open spec fn select(facts: Seq<Fact>, p: Probe) -> Seq<Fact>
    decreases facts.len(),
{
    if facts.len() == 0 {
        Seq::empty()
    } else {
        let before = select(facts.drop_last(), p);
        if fits(facts.last(), p) {
            before.push(facts.last())
        } else {
            before
        }
    }
}

/// The probe for all facts of an attribute as of a point in time.
pub open spec fn attribute_probe(attr: AttrId, as_of: Validity) -> Probe {
    Probe { attr: attr.0, as_of: as_of.0 as int, entity: None, value: None }
}

/// Whether no two facts speak of the same entity, attribute and value.
pub open spec fn distinct_facts(facts: Seq<Fact>) -> bool {
    forall|i: int, j: int|
        0 <= i < j < facts.len() ==> !({
            &&& (#[trigger] facts[i]).entity == (#[trigger] facts[j]).entity
            &&& facts[i].attr == facts[j].attr
            &&& facts[i].value == facts[j].value
        })
}

/// What a scan yields: entities with their values, in the order of the store.
/// An element is a `Result` because a scan of a store on disk can fail on the
/// way; the scans of a snapshot in memory do not.
pub type Scan = Vec<Result<(EntityId, DataValue), QueryError>>;

/// What one element of a scan stands for.
pub type PairResult = Result<(u64, Value), QueryError>;

/// What a scan's elements stand for.
pub open spec fn pairs_of(items: Seq<Result<(EntityId, DataValue), QueryError>>) -> Seq<PairResult> {
    Seq::new(
        items.len(),
        |i: int|
            match items[i] {
                Ok(pair) => Ok((pair.0.0, pair.1@)),
                Err(e) => Err(e),
            },
    )
}

/// The facts of a selection as the elements of a scan that met no error.
pub open spec fn found(facts: Seq<Fact>) -> Seq<PairResult> {
    Seq::new(facts.len(), |i: int| Ok((facts[i].entity, facts[i].value)))
}

/// A fact as the store holds it.
#[derive(Debug)]
pub struct StoredFact {
    pub entity: EntityId,
    pub attr: AttrId,
    pub value: DataValue,
    pub since: Validity,
}

impl View for StoredFact {
    type V = Fact;

    open spec fn view(&self) -> Fact {
        Fact { entity: self.entity.0, attr: self.attr.0, value: self.value@, since: self.since.0 as int }
    }
}

/// A snapshot of a triple store, held in memory: its facts, in the order in
/// which its scans yield them. A query only reads it.
#[derive(Debug)]
pub struct SessionTx {
    facts: Vec<StoredFact>,
}

impl View for SessionTx {
    type V = Seq<Fact>;

    closed spec fn view(&self) -> Seq<Fact> {
        Seq::new(self.facts@.len(), |i: int| self.facts@[i]@)
    }
}

impl SessionTx {
    /// No two facts of the snapshot speak of the same entity, attribute and value.
    pub open spec fn wf(&self) -> bool {
        distinct_facts(self@)
    }

    /// A snapshot without facts.
    pub fn new() -> (tx: SessionTx)
        ensures
            tx@ == Seq::<Fact>::empty(),
            tx.wf(),
    {
        let tx = SessionTx { facts: Vec::new() };
        assert(tx@ =~= Seq::<Fact>::empty());
        tx
    }

    /// Adds the fact that `entity` has `value` for `attr` from `since` on,
    /// behind the facts that are there. Where the snapshot holds a fact of
    /// the same entity, attribute and value, it stays as it is and the
    /// answer is `false`.
    pub fn put(&mut self, entity: EntityId, attr: AttrId, value: DataValue, since: Validity) -> (added: bool)
        requires
            old(self).wf(),
        ensures
            final(self).wf(),
            added == !(exists|i: int|
                0 <= i < old(self)@.len() && (#[trigger] old(self)@[i]).entity == entity.0 && old(
                    self,
                )@[i].attr == attr.0 && old(self)@[i].value == value@),
            added ==> final(self)@ == old(self)@.push(
                Fact { entity: entity.0, attr: attr.0, value: value@, since: since.0 as int },
            ),
            !added ==> final(self)@ == old(self)@,
    {
        let mut i: usize = 0;
        while i < self.facts.len()
            invariant
                i <= self.facts.len(),
                *self == *old(self),
                self.wf(),
                forall|j: int|
                    0 <= j < i ==> !((#[trigger] self@[j]).entity == entity.0 && self@[j].attr == attr.0
                        && self@[j].value == value@),
            decreases self.facts.len() - i,
        {
            let held = &self.facts[i];
            if held.entity.0 == entity.0 && held.attr.0 == attr.0 && held.value.same_value(&value) {
                assert(self@[i as int].entity == entity.0);
                return false;
            }
            i += 1;
        }
        let ghost before = self@;
        self.facts.push(StoredFact { entity, attr, value, since });
        assert(self@ =~= before.push(
            Fact { entity: entity.0, attr: attr.0, value: value@, since: since.0 as int },
        ));
        true
    }

    /// The number of facts.
    pub fn len(&self) -> (n: usize)
        ensures
            n == self@.len(),
    {
        self.facts.len()
    }

    /// The facts that a probe looks for, as a scan yields them.
    fn scan(&self, attr: AttrId, as_of: Validity, entity: Option<EntityId>, value: Option<&DataValue>) -> (out:
        Scan)
        ensures
            pairs_of(out@) == found(
                select(
                    self@,
                    Probe {
                        attr: attr.0,
                        as_of: as_of.0 as int,
                        entity: match entity {
                            Some(e) => Some(e.0),
                            None => None,
                        },
                        value: match value {
                            Some(v) => Some(v@),
                            None => None,
                        },
                    },
                ),
            ),
    {
        let ghost probe = Probe {
            attr: attr.0,
            as_of: as_of.0 as int,
            entity: match entity {
                Some(e) => Some(e.0),
                None => None,
            },
            value: match value {
                Some(v) => Some(v@),
                None => None,
            },
        };
        let mut out: Scan = Vec::new();
        let mut i: usize = 0;
        assert(self@.take(0) =~= Seq::<Fact>::empty());
        assert(pairs_of(out@) =~= found(select(self@.take(0), probe)));
        while i < self.facts.len()
            invariant
                i <= self.facts.len(),
                self.facts.len() == self@.len(),
                pairs_of(out@) == found(select(self@.take(i as int), probe)),
                probe.attr == attr.0,
                probe.as_of == as_of.0,
                probe.entity == match entity {
                    Some(e) => Some(e.0),
                    None => None::<u64>,
                },
                probe.value == match value {
                    Some(v) => Some(v@),
                    None => None::<Value>,
                },
            decreases self.facts.len() - i,
        {
            let held = &self.facts[i];
            proof {
                assert(self@.take(i + 1).drop_last() =~= self@.take(i as int));
                assert(self@.take(i + 1).last() == held@);
                assert(self@[i as int] == held@);
            }
            let entity_fits = match entity {
                Some(e) => held.entity.0 == e.0,
                None => true,
            };
            let value_fits = match value {
                Some(v) => held.value.same_value(v),
                None => true,
            };
            assert(entity_fits == (probe.entity matches Some(e) ==> held@.entity == e));
            assert(value_fits == (probe.value matches Some(v) ==> held@.value == v));
            if held.attr.0 == attr.0 && held.since.0 <= as_of.0 && entity_fits && value_fits {
                let ghost before = out@;
                let ghost chosen = select(self@.take(i as int), probe);
                assert(fits(held@, probe));
                out.push(Ok((held.entity, held.value.clone())));
                assert(select(self@.take(i + 1), probe) == chosen.push(held@));
                assert(pairs_of(before) == found(chosen));
                assert(pairs_of(before).len() == before.len());
                assert(found(chosen).len() == chosen.len());
                assert(pairs_of(out@) =~= found(chosen.push(held@))) by {
                    assert forall|q: int| 0 <= q < out@.len() implies pairs_of(out@)[q] == found(
                        chosen.push(held@),
                    )[q] by {
                        if q < before.len() {
                            assert(pairs_of(out@)[q] == pairs_of(before)[q]);
                            assert(found(chosen)[q] == found(chosen.push(held@))[q]);
                        }
                    }
                }
            } else {
                assert(!fits(held@, probe));
            }
            i += 1;
        }
        assert(self@.take(i as int) =~= self@);
        out
    }

    /// All facts of an attribute as of a point in time.
    pub fn triple_a_before_scan(&self, aid: AttrId, before: Validity) -> (out: Scan)
        ensures
            pairs_of(out@) == found(select(self@, attribute_probe(aid, before))),
    {
        self.scan(aid, before, None, None)
    }

    /// The facts of one entity for an attribute as of a point in time.
    pub fn triple_ea_before_scan(&self, eid: EntityId, aid: AttrId, before: Validity) -> (out: Scan)
        ensures
            pairs_of(out@) == found(
                select(self@, Probe { entity: Some(eid.0), ..attribute_probe(aid, before) }),
            ),
    {
        self.scan(aid, before, Some(eid), None)
    }

    /// Whether the entity has the value for the attribute as of a point in time.
    pub fn eav_exists(&self, eid: EntityId, aid: AttrId, val: &DataValue, vld: Validity) -> (out: Result<
        bool,
        QueryError,
    >)
        ensures
            out == Ok::<bool, QueryError>(
                select(
                    self@,
                    Probe { entity: Some(eid.0), value: Some(val@), ..attribute_probe(aid, vld) },
                ).len() > 0,
            ),
    {
        let hits = self.scan(aid, vld, Some(eid), Some(val));
        assert(hits@.len() == pairs_of(hits@).len());
        Ok(hits.len() > 0)
    }

    /// The facts of an attribute whose value is a reference to the given
    /// entity, as of a point in time.
    pub fn triple_vref_a_before_scan(&self, v_eid: EntityId, aid: AttrId, before: Validity) -> (out: Scan)
        ensures
            pairs_of(out@) == found(
                select(self@, Probe { value: Some(Value::EnId(v_eid.0)), ..attribute_probe(aid, before) }),
            ),
    {
        let target = DataValue::EnId(v_eid);
        self.scan(aid, before, None, Some(&target))
    }

    /// The facts of an attribute with the given value, as of a point in time.
    pub fn triple_av_before_scan(&self, aid: AttrId, val: &DataValue, before: Validity) -> (out: Scan)
        ensures
            pairs_of(out@) == found(select(self@, Probe { value: Some(val@), ..attribute_probe(aid, before) })),
    {
        self.scan(aid, before, None, Some(val))
    }
}

} // verus!
