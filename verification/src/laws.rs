//! What holds of the lengths and statistics of every data set.
//!
//! Distances are not computed here, so the laws on numbers speak of a
//! `metric`: any function that gives each stretch a natural number, such as
//! its distance in a unit small enough to be exact.
use crate::aggregate::{count_member, count_way, flat_sums, grouped_sums, relation_sums};
use crate::classify::{relation_of_type_street, street};
use crate::entity::{Entity, EntityId, Node, Ref};
use crate::index::{lemma_sorted_listing_is_unique, way_in, EntityIndex};
use crate::length::{length_sum, path_sum, resolved_nodes, segments_between, way_segments, Segment};
use crate::stats::{flat_kind, grouped_kind, CycleKind, InfraStats, InfraSums, Totals};
use crate::tags::tags_map;
use vstd::prelude::*;

verus! {

/// `metric` gives a stretch the same number in both directions.
pub open spec fn symmetric(metric: spec_fn(Segment) -> nat) -> bool {
    forall|segment: Segment| #[trigger] metric(segment.flipped()) == metric(segment)
}

/// The nodes of two runs of identifiers, one after the other, are the nodes of
/// the first run followed by those of the second.
pub proof fn lemma_resolved_nodes_of_two_runs(
    m: Map<EntityId, Entity>,
    first: Seq<i64>,
    second: Seq<i64>,
)
    ensures
        resolved_nodes(m, first + second) == resolved_nodes(m, first) + resolved_nodes(m, second),
    decreases second.len(),
{
    if second.len() == 0 {
        assert(first + second =~= first);
        assert(resolved_nodes(m, first) + resolved_nodes(m, second) =~= resolved_nodes(m, first));
    } else {
        assert((first + second).drop_last() =~= first + second.drop_last());
        lemma_resolved_nodes_of_two_runs(m, first, second.drop_last());
        assert(resolved_nodes(m, first + second) =~= resolved_nodes(m, first) + resolved_nodes(
            m,
            second,
        ));
    }
}

/// Two paths in a row come to the sum of what each comes to.
pub proof fn lemma_path_sum_of_two_runs(
    first: Seq<Segment>,
    second: Seq<Segment>,
    metric: spec_fn(Segment) -> nat,
)
    ensures
        path_sum(first + second, metric) == path_sum(first, metric) + path_sum(second, metric),
    decreases second.len(),
{
    if second.len() == 0 {
        assert(first + second =~= first);
    } else {
        assert((first + second).drop_last() =~= first + second.drop_last());
        lemma_path_sum_of_two_runs(first, second.drop_last(), metric);
    }
}

/// Two sums in a row come to the sum of what each comes to.
pub proof fn lemma_length_sum_of_two_runs(
    first: Seq<Seq<Segment>>,
    second: Seq<Seq<Segment>>,
    metric: spec_fn(Segment) -> nat,
)
    ensures
        length_sum(first + second, metric) == length_sum(first, metric) + length_sum(second, metric),
    decreases second.len(),
{
    if second.len() == 0 {
        assert(first + second =~= first);
    } else {
        assert((first + second).drop_last() =~= first + second.drop_last());
        lemma_length_sum_of_two_runs(first, second.drop_last(), metric);
    }
}

/// A way of which the index knows no node, or one node only, has length
/// zero: there is no stretch to measure, and its path comes to nothing under
/// every metric.
pub proof fn lemma_short_way_has_length_zero(
    m: Map<EntityId, Entity>,
    ids: Seq<i64>,
    metric: spec_fn(Segment) -> nat,
)
    requires
        resolved_nodes(m, ids).len() <= 1,
    ensures
        way_segments(m, ids) == Seq::<Segment>::empty(),
        path_sum(way_segments(m, ids), metric) == 0,
        length_sum(seq![way_segments(m, ids)], metric) == 0,
{
    assert(way_segments(m, ids) =~= Seq::<Segment>::empty());
    assert(seq![way_segments(m, ids)].drop_last() =~= Seq::<Seq<Segment>>::empty());
    assert(length_sum(seq![way_segments(m, ids)].drop_last(), metric) == 0);
}

/// Walking the identifiers backwards finds the same nodes, backwards.
pub proof fn lemma_resolved_nodes_reversed(m: Map<EntityId, Entity>, ids: Seq<i64>)
    ensures
        resolved_nodes(m, ids.reverse()) == resolved_nodes(m, ids).reverse(),
    decreases ids.len(),
{
    if ids.len() == 0 {
        assert(ids.reverse() =~= ids);
        assert(resolved_nodes(m, ids).reverse() =~= resolved_nodes(m, ids));
    } else {
        let start = ids.drop_last();
        let end = seq![ids.last()];
        assert(ids.reverse() =~= end + start.reverse());
        lemma_resolved_nodes_of_two_runs(m, end, start.reverse());
        lemma_resolved_nodes_reversed(m, start);
        assert(end.drop_last() =~= Seq::<i64>::empty());
        assert(resolved_nodes(m, end.drop_last()) =~= Seq::<Node>::empty());
        assert(resolved_nodes(m, ids).reverse() =~= resolved_nodes(m, end) + resolved_nodes(
            m,
            start,
        ).reverse());
    }
}

/// A path with every stretch turned round and the order of the stretches
/// turned round comes to the same under a symmetric metric.
pub proof fn lemma_path_sum_turned_round(path: Seq<Segment>, metric: spec_fn(Segment) -> nat)
    requires
        symmetric(metric),
    ensures
        path_sum(path.reverse().map_values(|segment: Segment| segment.flipped()), metric)
            == path_sum(path, metric),
    decreases path.len(),
{
    let flip = |segment: Segment| segment.flipped();
    let turned = path.reverse().map_values(flip);
    if path.len() == 0 {
        assert(turned =~= path);
    } else {
        let start = path.drop_last();
        let end = seq![path.last().flipped()];
        assert(turned =~= end + start.reverse().map_values(flip));
        lemma_path_sum_of_two_runs(end, start.reverse().map_values(flip), metric);
        lemma_path_sum_turned_round(start, metric);
        assert(end.drop_last() =~= Seq::<Segment>::empty());
        assert(path_sum(end.drop_last(), metric) == 0);
        assert(path_sum(end, metric) == metric(path.last().flipped()));
    }
}

/// Reversing the nodes of a way does not change its length. The stretches of
/// the reversed way are those of the way, each turned round, in the opposite
/// order; under a metric that is the same in both directions they come to the
/// same sum. This holds of every way, also where some of its nodes are
/// missing from the index.
pub proof fn lemma_reversed_way_has_same_length(
    m: Map<EntityId, Entity>,
    ids: Seq<i64>,
    metric: spec_fn(Segment) -> nat,
)
    ensures
        way_segments(m, ids.reverse()) == way_segments(m, ids).reverse().map_values(
            |segment: Segment| segment.flipped(),
        ),
        symmetric(metric) ==> path_sum(way_segments(m, ids.reverse()), metric) == path_sum(
            way_segments(m, ids),
            metric,
        ),
{
    lemma_resolved_nodes_reversed(m, ids);
    let nodes = resolved_nodes(m, ids);
    assert(segments_between(nodes.reverse()) =~= segments_between(nodes).reverse().map_values(
        |segment: Segment| segment.flipped(),
    ));
    if symmetric(metric) {
        lemma_path_sum_turned_round(way_segments(m, ids), metric);
    }
}

/// No `highway` value other than those of [`street_value`] makes a street:
/// `footway`, for one, does not.
pub proof fn lemma_footway_is_no_street(m: Map<Seq<char>, Seq<char>>)
    requires
        m.contains_key("highway"@),
        m["highway"@] == "footway"@,
    ensures
        !street(m),
{
    reveal_strlit("footway");
    reveal_strlit("motorway");
    reveal_strlit("trunk");
    reveal_strlit("primary");
    reveal_strlit("secondary");
    reveal_strlit("tertiary");
    reveal_strlit("unclassified");
    reveal_strlit("residential");
    reveal_strlit("motorway_link");
    reveal_strlit("trunk_link");
    reveal_strlit("primary_link");
    reveal_strlit("secondary_link");
    reveal_strlit("tertiary_link");
    reveal_strlit("road");
    // Of the street values only `primary` is as long as `footway`, and it
    // begins with another letter.
    assert("footway"@.len() == 7);
    assert("footway"@[0] == 'f');
    assert("primary"@[0] == 'p');
}

/// Counting one way takes nothing away from the statistics, and adds the
/// length of the way to one kind of cycling infrastructure at most.
pub proof fn lemma_credit_grows(
    sums: InfraSums,
    length: Seq<Seq<Segment>>,
    is_street: bool,
    kind: Option<CycleKind>,
)
    ensures
        sums.grown_into(sums.credit(length, is_street, kind)),
        ({
            let later = sums.credit(length, is_street, kind);
            later.track.len() + later.lane.len() + later.cycle_street.len() <= sums.track.len()
                + sums.lane.len() + sums.cycle_street.len() + length.len()
        }),
{
}

/// Growth goes on: what has grown into sums that grow further has grown into
/// the last of them.
pub proof fn lemma_growth_goes_on(first: InfraSums, second: InfraSums, third: InfraSums)
    requires
        first.grown_into(second),
        second.grown_into(third),
    ensures
        first.grown_into(third),
{
}

/// No length of the statistics gets shorter while the members of a relation
/// are counted.
pub proof fn lemma_relation_sums_grow(m: Map<EntityId, Entity>, refs: Seq<Ref>, sums: InfraSums)
    ensures
        sums.grown_into(relation_sums(m, refs, sums)),
    decreases refs.len(),
{
    if refs.len() > 0 {
        lemma_relation_sums_grow(m, refs.drop_last(), sums);
        let earlier = relation_sums(m, refs.drop_last(), sums);
        match way_in(m, refs.last().member) {
            Some(way) => {
                lemma_credit_grows(
                    earlier,
                    seq![way_segments(m, way.nodes@)],
                    street(tags_map(way.tags)),
                    grouped_kind(tags_map(way.tags)),
                );
                lemma_growth_goes_on(sums, earlier, count_member(m, earlier, way));
            },
            None => {},
        }
    }
}

/// No length of the statistics gets shorter while the street relations of a
/// data set are counted.
pub proof fn lemma_grouped_sums_grow(
    m: Map<EntityId, Entity>,
    entities: Seq<Entity>,
    sums: InfraSums,
)
    ensures
        sums.grown_into(grouped_sums(m, entities, sums)),
    decreases entities.len(),
{
    if entities.len() > 0 {
        lemma_grouped_sums_grow(m, entities.drop_last(), sums);
        let earlier = grouped_sums(m, entities.drop_last(), sums);
        match entities.last() {
            Entity::Relation(relation) => {
                lemma_relation_sums_grow(m, relation.refs@, earlier);
                lemma_growth_goes_on(sums, earlier, relation_sums(m, relation.refs@, earlier));
            },
            _ => {},
        }
    }
}

/// No length of the statistics gets shorter while the ways of a data set are
/// counted on their own.
pub proof fn lemma_flat_sums_grow(m: Map<EntityId, Entity>, entities: Seq<Entity>, sums: InfraSums)
    ensures
        sums.grown_into(flat_sums(m, entities, sums)),
    decreases entities.len(),
{
    if entities.len() > 0 {
        lemma_flat_sums_grow(m, entities.drop_last(), sums);
        let earlier = flat_sums(m, entities.drop_last(), sums);
        match entities.last() {
            Entity::Way(way) => {
                lemma_growth_goes_on(sums, earlier, count_way(m, earlier, way));
            },
            _ => {},
        }
    }
}

/// A sum that is the beginning of another comes to no more than that other.
pub proof fn lemma_longer_sum_is_no_less(
    shorter: Seq<Seq<Segment>>,
    longer: Seq<Seq<Segment>>,
    metric: spec_fn(Segment) -> nat,
)
    requires
        shorter.is_prefix_of(longer),
    ensures
        length_sum(shorter, metric) <= length_sum(longer, metric),
{
    let rest = longer.subrange(shorter.len() as int, longer.len() as int);
    assert(longer =~= shorter + rest);
    lemma_length_sum_of_two_runs(shorter, rest, metric);
}

/// Every way of `m` that offers cycling infrastructure of some kind is a
/// street as well.
pub open spec fn cycling_only_on_streets(m: Map<EntityId, Entity>) -> bool {
    forall|id: EntityId|
        (#[trigger] way_in(m, id)) matches Some(way) ==> (grouped_kind(tags_map(way.tags))
            is Some ==> street(tags_map(way.tags)))
}

/// Where cycling infrastructure is found on streets only, counting the
/// members of a relation keeps the cycling lengths together within the
/// length of the streets.
pub proof fn lemma_relation_keeps_cycling_within_streets(
    m: Map<EntityId, Entity>,
    refs: Seq<Ref>,
    sums: InfraSums,
    metric: spec_fn(Segment) -> nat,
)
    requires
        cycling_only_on_streets(m),
        sums.cycling_sum(metric) <= length_sum(sums.total_street, metric),
    ensures
        relation_sums(m, refs, sums).cycling_sum(metric) <= length_sum(
            relation_sums(m, refs, sums).total_street,
            metric,
        ),
    decreases refs.len(),
{
    if refs.len() > 0 {
        lemma_relation_keeps_cycling_within_streets(m, refs.drop_last(), sums, metric);
        let earlier = relation_sums(m, refs.drop_last(), sums);
        match way_in(m, refs.last().member) {
            Some(way) => {
                let length = seq![way_segments(m, way.nodes@)];
                lemma_length_sum_of_two_runs(earlier.track, length, metric);
                lemma_length_sum_of_two_runs(earlier.lane, length, metric);
                lemma_length_sum_of_two_runs(earlier.cycle_street, length, metric);
                lemma_length_sum_of_two_runs(earlier.total_street, length, metric);
            },
            None => {},
        }
    }
}

/// The total street length is at least the three cycling lengths together,
/// in a data set where every way with cycling infrastructure is a street as
/// well: under every metric, the statistics of the street relations give the
/// streets no less than track, lane and cycle street lengths sum up to.
pub proof fn lemma_cycling_within_streets(
    m: Map<EntityId, Entity>,
    entities: Seq<Entity>,
    metric: spec_fn(Segment) -> nat,
)
    requires
        cycling_only_on_streets(m),
    ensures
        grouped_sums(m, entities, InfraSums::zero()).cycling_sum(metric) <= length_sum(
            grouped_sums(m, entities, InfraSums::zero()).total_street,
            metric,
        ),
    decreases entities.len(),
{
    if entities.len() > 0 {
        lemma_cycling_within_streets(m, entities.drop_last(), metric);
        let earlier = grouped_sums(m, entities.drop_last(), InfraSums::zero());
        match entities.last() {
            Entity::Relation(relation) => {
                lemma_relation_keeps_cycling_within_streets(m, relation.refs@, earlier, metric);
            },
            _ => {},
        }
    }
}

/// Counting twice gives the same statistics. The statistics depend on
/// nothing but what the index holds: two indexes that lead from the same
/// identifiers to the same objects, and so one index counted twice, get the
/// same lengths, path by path and stretch by stretch, in both ways of
/// counting.
pub proof fn lemma_same_index_same_statistics(
    first: EntityIndex,
    second: EntityIndex,
    first_result: InfraStats,
    second_result: InfraStats,
    first_flat: InfraStats,
    second_flat: InfraStats,
)
    requires
        first.wf(),
        second.wf(),
        first@ == second@,
        first_result@ == grouped_sums(first@, first.entities(), InfraSums::zero()),
        second_result@ == grouped_sums(second@, second.entities(), InfraSums::zero()),
        first_flat@ == flat_sums(first@, first.entities(), InfraSums::zero()),
        second_flat@ == flat_sums(second@, second.entities(), InfraSums::zero()),
    ensures
        first_result@ == second_result@,
        first_flat@ == second_flat@,
{
    lemma_sorted_listing_is_unique(first.entities(), second.entities());
}

/// What counting `entity` adds to the statistics of the street relations:
/// the totals of its members if it is a street relation, and nothing
/// otherwise.
pub open spec fn grouped_part(
    m: Map<EntityId, Entity>,
    entity: Entity,
    metric: spec_fn(Segment) -> nat,
) -> Totals {
    match entity {
        Entity::Relation(relation) => if relation_of_type_street(tags_map(relation.tags)) {
            relation_sums(m, relation.refs@, InfraSums::zero()).totals(metric)
        } else {
            Totals::zero()
        },
        _ => Totals::zero(),
    }
}

/// What counting `entity` on its own adds to the statistics: the totals of
/// the way if it is one, and nothing otherwise.
pub open spec fn flat_part(
    m: Map<EntityId, Entity>,
    entity: Entity,
    metric: spec_fn(Segment) -> nat,
) -> Totals {
    match entity {
        Entity::Way(way) => count_way(m, InfraSums::zero(), way).totals(metric),
        _ => Totals::zero(),
    }
}

/// The parts of all `entities` taken together.
pub open spec fn totals_over(entities: Seq<Entity>, part: spec_fn(Entity) -> Totals) -> Totals
    decreases entities.len(),
{
    if entities.len() == 0 {
        Totals::zero()
    } else {
        totals_over(entities.drop_last(), part).plus(part(entities.last()))
    }
}

/// Counting one way adds the same to the totals, whatever was counted before.
pub proof fn lemma_credit_adds_up(
    sums: InfraSums,
    length: Seq<Seq<Segment>>,
    is_street: bool,
    kind: Option<CycleKind>,
    metric: spec_fn(Segment) -> nat,
)
    ensures
        sums.credit(length, is_street, kind).totals(metric) == sums.totals(metric).plus(
            InfraSums::zero().credit(length, is_street, kind).totals(metric),
        ),
{
    let none = Seq::<Seq<Segment>>::empty();
    assert(none + length =~= length);
    assert(length_sum(none, metric) == 0);
    lemma_length_sum_of_two_runs(sums.track, length, metric);
    lemma_length_sum_of_two_runs(sums.lane, length, metric);
    lemma_length_sum_of_two_runs(sums.cycle_street, length, metric);
    lemma_length_sum_of_two_runs(sums.total_street, length, metric);
}

/// Counting the members of a relation adds the same to the totals, whatever
/// was counted before.
pub proof fn lemma_relation_adds_up(
    m: Map<EntityId, Entity>,
    refs: Seq<Ref>,
    sums: InfraSums,
    metric: spec_fn(Segment) -> nat,
)
    ensures
        relation_sums(m, refs, sums).totals(metric) == sums.totals(metric).plus(
            relation_sums(m, refs, InfraSums::zero()).totals(metric),
        ),
    decreases refs.len(),
{
    if refs.len() == 0 {
        assert(length_sum(Seq::<Seq<Segment>>::empty(), metric) == 0);
    } else {
        lemma_relation_adds_up(m, refs.drop_last(), sums, metric);
        match way_in(m, refs.last().member) {
            Some(way) => {
                let length = seq![way_segments(m, way.nodes@)];
                let is_street = street(tags_map(way.tags));
                let kind = grouped_kind(tags_map(way.tags));
                let earlier = relation_sums(m, refs.drop_last(), sums);
                let alone = relation_sums(m, refs.drop_last(), InfraSums::zero());
                lemma_credit_adds_up(earlier, length, is_street, kind, metric);
                lemma_credit_adds_up(alone, length, is_street, kind, metric);
            },
            None => {},
        }
    }
}

/// The totals of the street relations are the parts of the objects taken
/// together.
pub proof fn lemma_grouped_totals_are_parts(
    m: Map<EntityId, Entity>,
    entities: Seq<Entity>,
    metric: spec_fn(Segment) -> nat,
)
    ensures
        grouped_sums(m, entities, InfraSums::zero()).totals(metric) == totals_over(
            entities,
            |entity: Entity| grouped_part(m, entity, metric),
        ),
    decreases entities.len(),
{
    if entities.len() == 0 {
        assert(length_sum(Seq::<Seq<Segment>>::empty(), metric) == 0);
    } else {
        lemma_grouped_totals_are_parts(m, entities.drop_last(), metric);
        let earlier = grouped_sums(m, entities.drop_last(), InfraSums::zero());
        match entities.last() {
            Entity::Relation(relation) => {
                lemma_relation_adds_up(m, relation.refs@, earlier, metric);
            },
            _ => {},
        }
    }
}

/// The totals of the ways counted on their own are the parts of the objects
/// taken together.
pub proof fn lemma_flat_totals_are_parts(
    m: Map<EntityId, Entity>,
    entities: Seq<Entity>,
    metric: spec_fn(Segment) -> nat,
)
    ensures
        flat_sums(m, entities, InfraSums::zero()).totals(metric) == totals_over(
            entities,
            |entity: Entity| flat_part(m, entity, metric),
        ),
    decreases entities.len(),
{
    if entities.len() == 0 {
        assert(length_sum(Seq::<Seq<Segment>>::empty(), metric) == 0);
    } else {
        lemma_flat_totals_are_parts(m, entities.drop_last(), metric);
        let earlier = flat_sums(m, entities.drop_last(), InfraSums::zero());
        match entities.last() {
            Entity::Way(way) => {
                lemma_credit_adds_up(
                    earlier,
                    seq![way_segments(m, way.nodes@)],
                    street(tags_map(way.tags)),
                    flat_kind(tags_map(way.tags)),
                    metric,
                );
            },
            _ => {},
        }
    }
}

/// Taking one object out of a sequence takes its part out of the totals.
pub proof fn lemma_totals_without_one(
    entities: Seq<Entity>,
    at: int,
    part: spec_fn(Entity) -> Totals,
)
    requires
        0 <= at < entities.len(),
    ensures
        totals_over(entities, part) == totals_over(entities.remove(at), part).plus(
            part(entities[at]),
        ),
    decreases entities.len(),
{
    if at == entities.len() - 1 {
        assert(entities.remove(at) =~= entities.drop_last());
    } else {
        lemma_totals_without_one(entities.drop_last(), at, part);
        assert(entities.remove(at).drop_last() =~= entities.drop_last().remove(at));
        assert(entities.remove(at).last() == entities.last());
    }
}

/// Sequences that hold the same objects, each as often, in whatever order,
/// have the same totals.
pub proof fn lemma_totals_in_any_order(
    first: Seq<Entity>,
    second: Seq<Entity>,
    part: spec_fn(Entity) -> Totals,
)
    requires
        first.to_multiset() == second.to_multiset(),
    ensures
        totals_over(first, part) == totals_over(second, part),
    decreases first.len(),
{
    first.to_multiset_ensures();
    second.to_multiset_ensures();
    if first.len() == 0 {
        assert(second.len() == 0);
    } else {
        let last = first.last();
        let rest = first.drop_last();
        assert(first =~= rest.push(last));
        rest.to_multiset_ensures();
        assert(first.to_multiset().count(last) > 0);
        assert(second.contains(last));
        let at: int = second.index_of(last);
        assert(second.remove(at).to_multiset() =~= second.to_multiset().remove(last));
        assert(rest.to_multiset() =~= first.to_multiset().remove(last));
        lemma_totals_in_any_order(rest, second.remove(at), part);
        lemma_totals_without_one(second, at, part);
    }
}

/// The order in which the objects of a data set are taken does not change
/// what the statistics come to. Under every metric, two listings of the same
/// objects give each of the four lengths the same total, in both ways of
/// counting.
pub proof fn lemma_order_of_counting_does_not_matter(
    m: Map<EntityId, Entity>,
    first: Seq<Entity>,
    second: Seq<Entity>,
    metric: spec_fn(Segment) -> nat,
)
    requires
        first.to_multiset() == second.to_multiset(),
    ensures
        grouped_sums(m, first, InfraSums::zero()).totals(metric) == grouped_sums(
            m,
            second,
            InfraSums::zero(),
        ).totals(metric),
        flat_sums(m, first, InfraSums::zero()).totals(metric) == flat_sums(
            m,
            second,
            InfraSums::zero(),
        ).totals(metric),
{
    lemma_grouped_totals_are_parts(m, first, metric);
    lemma_grouped_totals_are_parts(m, second, metric);
    lemma_totals_in_any_order(first, second, |entity: Entity| grouped_part(m, entity, metric));
    lemma_flat_totals_are_parts(m, first, metric);
    lemma_flat_totals_are_parts(m, second, metric);
    lemma_totals_in_any_order(first, second, |entity: Entity| flat_part(m, entity, metric));
}

} // verus!
