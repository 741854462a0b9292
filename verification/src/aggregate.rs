//! Statistics over a whole data set.
//!
//! There are two ways to count. The grouped one goes through the relations
//! that describe streets and counts the ways that are their members. The flat
//! one counts every way of the data set on its own.
use crate::classify::{is_relation_of_type_street, is_street, relation_of_type_street, street};
use crate::entity::{Entity, EntityId, Ref, Relation, Way};
use crate::index::{way_in, EntityIndex};
use crate::laws::lemma_relation_sums_grow;
use crate::length::{calculate_way_length, way_segments, Segment};
use crate::stats::{classify_flat, classify_grouped, flat_kind, grouped_kind, InfraStats, InfraSums};
use crate::tags::tags_map;
use vstd::prelude::*;

verus! {

/// The statistics after `way` is counted as a member of a street relation.
pub open spec fn count_member(m: Map<EntityId, Entity>, sums: InfraSums, way: Way) -> InfraSums {
    sums.credit(
        seq![way_segments(m, way.nodes@)],
        street(tags_map(way.tags)),
        grouped_kind(tags_map(way.tags)),
    )
}

/// The statistics after `way` is counted on its own.
pub open spec fn count_way(m: Map<EntityId, Entity>, sums: InfraSums, way: Way) -> InfraSums {
    sums.credit(
        seq![way_segments(m, way.nodes@)],
        street(tags_map(way.tags)),
        flat_kind(tags_map(way.tags)),
    )
}

/// The statistics after the members `refs` of one relation are counted in
/// their order. A member that leads to no way of `m` is passed over; a way
/// that is a member twice is counted twice.
pub open spec fn relation_sums(m: Map<EntityId, Entity>, refs: Seq<Ref>, sums: InfraSums) -> InfraSums
    decreases refs.len(),
{
    if refs.len() == 0 {
        sums
    } else {
        let earlier = relation_sums(m, refs.drop_last(), sums);
        match way_in(m, refs.last().member) {
            Some(way) => count_member(m, earlier, way),
            None => earlier,
        }
    }
}

/// The statistics after the street relations among `entities` are counted in
/// their order, each with its members looked up in `m`. Nodes, ways and other
/// relations in `entities` are passed over.
pub open spec fn grouped_sums(
    m: Map<EntityId, Entity>,
    entities: Seq<Entity>,
    sums: InfraSums,
) -> InfraSums
    decreases entities.len(),
{
    if entities.len() == 0 {
        sums
    } else {
        let earlier = grouped_sums(m, entities.drop_last(), sums);
        match entities.last() {
            Entity::Relation(relation) => if relation_of_type_street(tags_map(relation.tags)) {
                relation_sums(m, relation.refs@, earlier)
            } else {
                earlier
            },
            _ => earlier,
        }
    }
}

/// The statistics after the ways among `entities` are counted in their
/// order, each on its own, with its nodes looked up in `m`.
pub open spec fn flat_sums(
    m: Map<EntityId, Entity>,
    entities: Seq<Entity>,
    sums: InfraSums,
) -> InfraSums
    decreases entities.len(),
{
    if entities.len() == 0 {
        sums
    } else {
        let earlier = flat_sums(m, entities.drop_last(), sums);
        match entities.last() {
            Entity::Way(way) => count_way(m, earlier, way),
            _ => earlier,
        }
    }
}

/// Adds the ways that are members of `relation` to `result`. The length of a
/// way goes to the streets if the way is a street, and to one of the three
/// kinds of cycling infrastructure if it offers one.
pub fn calculate_relation_length(index: &EntityIndex, relation: &Relation, result: &mut InfraStats)
    ensures
        final(result)@ == relation_sums(index@, relation.refs@, old(result)@),
        old(result)@.grown_into(final(result)@),
{
    proof {
        lemma_relation_sums_grow(index@, relation.refs@, old(result)@);
    }
    let mut i: usize = 0;
    while i < relation.refs.len()
        invariant
            i <= relation.refs@.len(),
            result@ == relation_sums(index@, relation.refs@.take(i as int), old(result)@),
        decreases relation.refs@.len() - i,
    {
        assert(relation.refs@.take(i + 1).drop_last() == relation.refs@.take(i as int));
        match index.get(relation.refs[i].member) {
            Some(Entity::Way(way)) => {
                let length = calculate_way_length(index, way);
                result.credit(&length, is_street(&way.tags), classify_grouped(&way.tags));
            },
            _ => {},
        }
        i += 1;
    }
    assert(relation.refs@.take(i as int) == relation.refs@);
}

/// The statistics of the streets of a data set. Every relation that
/// describes a street is taken in the order of the index, and every way among
/// its members is counted.
pub fn calculate_cycle_infra(index: &EntityIndex) -> (result: InfraStats)
    ensures
        result@ == grouped_sums(index@, index.entities(), InfraSums::zero()),
{
    let entities = index.as_vec();
    let mut result = InfraStats::new();
    let mut i: usize = 0;
    while i < entities.len()
        invariant
            i <= entities@.len(),
            entities@ == index.entities(),
            result@ == grouped_sums(index@, entities@.take(i as int), InfraSums::zero()),
        decreases entities@.len() - i,
    {
        assert(entities@.take(i + 1).drop_last() == entities@.take(i as int));
        match &entities[i] {
            Entity::Relation(relation) => {
                if is_relation_of_type_street(&relation.tags) {
                    calculate_relation_length(index, relation, &mut result);
                }
            },
            _ => {},
        }
        i += 1;
    }
    assert(entities@.take(i as int) == entities@);
    result
}

/// The statistics of the ways of a data set, each counted on its own in the
/// order of the index: as a street, and as a cycle lane or else a cycle track.
/// No length goes to the cycle streets.
pub fn calculate_cycle_infra_flat(index: &EntityIndex) -> (result: InfraStats)
    ensures
        result@ == flat_sums(index@, index.entities(), InfraSums::zero()),
        result@.cycle_street == Seq::<Seq<Segment>>::empty(),
{
    let entities = index.as_vec();
    let mut result = InfraStats::new();
    let mut i: usize = 0;
    while i < entities.len()
        invariant
            i <= entities@.len(),
            entities@ == index.entities(),
            result@ == flat_sums(index@, entities@.take(i as int), InfraSums::zero()),
            result@.cycle_street == Seq::<Seq<Segment>>::empty(),
        decreases entities@.len() - i,
    {
        assert(entities@.take(i + 1).drop_last() == entities@.take(i as int));
        match &entities[i] {
            Entity::Way(way) => {
                let street = is_street(&way.tags);
                let kind = classify_flat(&way.tags);
                if street || kind.is_some() {
                    let length = calculate_way_length(index, way);
                    result.credit(&length, street, kind);
                }
            },
            _ => {},
        }
        i += 1;
    }
    assert(entities@.take(i as int) == entities@);
    result
}

} // verus!
