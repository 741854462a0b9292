//! The index of a data set: every object, found by its identifier.
use crate::entity::{Entity, EntityId, Node, Way};
use vstd::prelude::*;

verus! {

/// The identifiers of `entities` rise strictly from one to the next.
pub open spec fn strictly_sorted(entities: Seq<Entity>) -> bool {
    forall|i: int, j: int|
        0 <= i < j < entities.len() ==> (#[trigger] entities[i]).key().before(
            (#[trigger] entities[j]).key(),
        )
}

/// Some object of `entities` is filed under `id`.
pub open spec fn holds(entities: Seq<Entity>, id: EntityId) -> bool {
    exists|i: int| 0 <= i < entities.len() && (#[trigger] entities[i]).key() == id
}

/// A place in `entities` at which `id` is filed, if there is one.
pub open spec fn place_of(entities: Seq<Entity>, id: EntityId) -> int {
    choose|i: int| 0 <= i < entities.len() && (#[trigger] entities[i]).key() == id
}

/// The map that leads from each identifier in `entities` to an object filed
/// under it.
pub open spec fn filed(entities: Seq<Entity>) -> Map<EntityId, Entity> {
    Map::new(
        |id: EntityId| holds(entities, id),
        |id: EntityId| entities[place_of(entities, id)],
    )
}

/// The node that the number `id` leads to in `m`. There is none where nothing
/// is filed under it, or something that is no node.
pub open spec fn node_in(m: Map<EntityId, Entity>, id: i64) -> Option<Node> {
    if m.contains_key(EntityId::Node(id)) {
        match m[EntityId::Node(id)] {
            Entity::Node(node) => Some(node),
            _ => None,
        }
    } else {
        None
    }
}

/// The way that `id` leads to in `m`. There is none where nothing is filed
/// under it, or something that is no way.
pub open spec fn way_in(m: Map<EntityId, Entity>, id: EntityId) -> Option<Way> {
    if m.contains_key(id) {
        match m[id] {
            Entity::Way(way) => Some(way),
            _ => None,
        }
    } else {
        None
    }
}

/// The objects of a data set, each filed under its own identifier and kept in
/// the order of identifiers. No identifier occurs twice.
pub struct EntityIndex {
    entries: Vec<Entity>,
}

impl View for EntityIndex {
    type V = Map<EntityId, Entity>;

    /// The index as a map from identifiers to objects.
    open spec fn view(&self) -> Map<EntityId, Entity> {
        filed(self.entities())
    }
}

impl EntityIndex {
    /// The objects of the index in the order of their identifiers.
    pub closed spec fn entities(&self) -> Seq<Entity> {
        self.entries@
    }

    /// The invariant of the index: its objects are in strictly rising order
    /// of their identifiers.
    #[verifier::type_invariant]
    pub open spec fn wf(&self) -> bool {
        strictly_sorted(self.entities())
    }

    /// An index without objects.
    pub fn new() -> (index: EntityIndex)
        ensures
            index.entities() == Seq::<Entity>::empty(),
            index@ == Map::<EntityId, Entity>::empty(),
            index.wf(),
    {
        let index = EntityIndex { entries: Vec::new() };
        assert(index@ =~= Map::<EntityId, Entity>::empty());
        index
    }

    /// The number of objects in the index.
    pub fn len(&self) -> (n: usize)
        ensures
            n == self.entities().len(),
    {
        self.entries.len()
    }

    /// The objects of the index in the order of their identifiers.
    pub fn as_vec(&self) -> (entries: &Vec<Entity>)
        ensures
            entries@ == self.entities(),
            strictly_sorted(entries@),
    {
        proof {
            use_type_invariant(self);
        }
        &self.entries
    }

    /// Where `id` is filed, or where it would have to be put: the first place
    /// whose identifier does not come before `id`.
    fn lower_bound(&self, id: &EntityId) -> (at: usize)
        ensures
            at <= self.entities().len(),
            forall|i: int| 0 <= i < at ==> (#[trigger] self.entities()[i]).key().before(*id),
            forall|i: int|
                at <= i < self.entities().len() ==> !(#[trigger] self.entities()[i]).key().before(*id),
    {
        proof {
            use_type_invariant(self);
        }
        let ghost entries = self.entities();
        let mut low: usize = 0;
        let mut high: usize = self.entries.len();
        while low < high
            invariant
                low <= high <= entries.len(),
                entries == self.entries@,
                strictly_sorted(entries),
                forall|i: int| 0 <= i < low ==> (#[trigger] entries[i]).key().before(*id),
                forall|i: int| high <= i < entries.len() ==> !(#[trigger] entries[i]).key().before(*id),
            decreases high - low,
        {
            let middle: usize = low + (high - low) / 2;
            let key = self.entries[middle].id();
            if key.precedes(id) {
                assert forall|i: int| 0 <= i < middle + 1 implies (#[trigger] entries[i]).key().before(
                    *id,
                ) by {
                    if i < middle {
                        assert(entries[i].key().before(entries[middle as int].key()));
                    }
                }
                low = middle + 1;
            } else {
                assert forall|i: int| middle <= i < entries.len() implies !(#[trigger] entries[i])
                    .key().before(*id) by {
                    if middle < i {
                        assert(entries[middle as int].key().before(entries[i].key()));
                    }
                }
                high = middle;
            }
        }
        low
    }

    /// The object filed under `id`, if there is one.
    pub fn get(&self, id: EntityId) -> (found: Option<&Entity>)
        ensures
            match found {
                Some(entity) => self@.contains_key(id) && self@[id] == *entity
                    && entity.key() == id,
                None => !self@.contains_key(id),
            },
    {
        proof {
            use_type_invariant(self);
        }
        let at: usize = self.lower_bound(&id);
        if at < self.entries.len() {
            let entity = &self.entries[at];
            let key = entity.id();
            if !id.precedes(&key) {
                proof {
                    lemma_filed_once(self.entities(), at as int);
                }
                return Some(entity);
            }
        }
        proof {
            if holds(self.entities(), id) {
                let i: int = place_of(self.entities(), id);
                assert(self.entities()[i].key() == id);
                if i > at {
                    assert(self.entities()[at as int].key().before(self.entities()[i].key()));
                }
            }
        }
        None
    }

    /// Files `entity` under its own identifier. An object that was filed
    /// under that identifier before is replaced.
    pub fn insert(&mut self, entity: Entity)
        ensures
            final(self)@ == old(self)@.insert(entity.key(), entity),
            final(self).wf(),
    {
        proof {
            use_type_invariant(&*self);
        }
        let id = entity.id();
        let at: usize = self.lower_bound(&id);
        let ghost before = self.entities();
        let replace = at < self.entries.len() && !id.precedes(&self.entries[at].id());
        // The objects are taken out while they change, so that the index is
        // in order whenever it can be seen.
        let mut entries: Vec<Entity> = Vec::new();
        core::mem::swap(&mut self.entries, &mut entries);
        if replace {
            entries.set(at, entity);
            proof {
                lemma_replaced(before, at as int, entity);
            }
        } else {
            entries.insert(at, entity);
            proof {
                lemma_inserted(before, at as int, entity);
            }
        }
        core::mem::swap(&mut self.entries, &mut entries);
    }
}

/// In a sorted index the object at place `at` is the one that its identifier
/// leads to.
pub proof fn lemma_filed_once(entities: Seq<Entity>, at: int)
    requires
        strictly_sorted(entities),
        0 <= at < entities.len(),
    ensures
        holds(entities, entities[at].key()),
        place_of(entities, entities[at].key()) == at,
{
    let id = entities[at].key();
    let i: int = place_of(entities, id);
    assert(entities[i].key() == id);
    if i < at {
        assert(entities[i].key().before(entities[at].key()));
    }
    if at < i {
        assert(entities[at].key().before(entities[i].key()));
    }
}

/// Leaving out the last object of a sorted listing takes its identifier, and
/// nothing else, out of the map.
proof fn lemma_without_last(entities: Seq<Entity>)
    requires
        strictly_sorted(entities),
        entities.len() > 0,
    ensures
        strictly_sorted(entities.drop_last()),
        filed(entities.drop_last()) == filed(entities).remove(entities.last().key()),
{
    let shorter = entities.drop_last();
    let last: int = entities.len() - 1;
    assert forall|id: EntityId|
        holds(shorter, id) <==> (holds(entities, id) && id != entities.last().key()) by {
        if holds(shorter, id) {
            let i: int = place_of(shorter, id);
            assert(entities[i].key() == id);
            assert(entities[i].key().before(entities[last].key()));
        }
        if holds(entities, id) && id != entities.last().key() {
            let i: int = place_of(entities, id);
            assert(shorter[i].key() == id);
        }
    }
    assert forall|id: EntityId| holds(shorter, id) implies
        shorter[place_of(shorter, id)] == entities[place_of(entities, id)] by {
        let i: int = place_of(shorter, id);
        assert(entities[i].key() == id);
        lemma_filed_once(entities, i);
    }
    assert(filed(shorter) =~= filed(entities).remove(entities.last().key()));
}

/// The map decides the listing: two sorted listings that lead from the same
/// identifiers to the same objects are one and the same sequence.
pub proof fn lemma_sorted_listing_is_unique(first: Seq<Entity>, second: Seq<Entity>)
    requires
        strictly_sorted(first),
        strictly_sorted(second),
        filed(first) == filed(second),
    ensures
        first == second,
    decreases first.len(),
{
    if first.len() == 0 {
        if second.len() > 0 {
            assert(holds(second, second[0].key()));
            assert(filed(second).contains_key(second[0].key()));
            assert(holds(first, second[0].key()));
        }
        assert(first =~= second);
    } else {
        let end: int = first.len() - 1;
        let key = first[end].key();
        assert(holds(first, key));
        assert(filed(first).contains_key(key));
        assert(holds(second, key));
        let other_end: int = second.len() - 1;
        let other_key = second[other_end].key();
        assert(holds(second, other_key));
        assert(filed(second).contains_key(other_key));
        assert(holds(first, other_key));
        let j: int = place_of(second, key);
        let i: int = place_of(first, other_key);
        assert(second[j].key() == key);
        assert(first[i].key() == other_key);
        if i < end {
            assert(first[i].key().before(first[end].key()));
        }
        if j < other_end {
            assert(second[j].key().before(second[other_end].key()));
        }
        assert(key == other_key);
        lemma_filed_once(first, end);
        lemma_filed_once(second, other_end);
        assert(filed(first)[key] == first[end]);
        assert(filed(second)[key] == second[other_end]);
        lemma_without_last(first);
        lemma_without_last(second);
        lemma_sorted_listing_is_unique(first.drop_last(), second.drop_last());
        assert(first =~= first.drop_last().push(first[end]));
        assert(second =~= second.drop_last().push(second[other_end]));
    }
}

/// What `id` leads to once `entity` is filed among `before`.
spec fn entry_after(before: Seq<Entity>, entity: Entity, id: EntityId) -> Entity {
    if id == entity.key() {
        entity
    } else {
        before[place_of(before, id)]
    }
}

/// Putting a new object in its place keeps the order and adds one entry to
/// the map.
proof fn lemma_inserted(before: Seq<Entity>, at: int, entity: Entity)
    requires
        strictly_sorted(before),
        0 <= at <= before.len(),
        forall|i: int| 0 <= i < at ==> (#[trigger] before[i]).key().before(entity.key()),
        forall|i: int| at <= i < before.len() ==> entity.key().before((#[trigger] before[i]).key()),
    ensures
        strictly_sorted(before.insert(at, entity)),
        filed(before.insert(at, entity)) == filed(before).insert(entity.key(), entity),
{
    let after = before.insert(at, entity);
    assert forall|i: int, j: int| 0 <= i < j < after.len() implies
        (#[trigger] after[i]).key().before((#[trigger] after[j]).key()) by {
        let a: int = if i < at { i } else { i - 1 };
        let b: int = if j < at { j } else { j - 1 };
        if i != at && j != at {
            assert(before[a].key().before(before[b].key()));
        } else if i == at {
            assert(entity.key().before(before[b].key()));
        } else {
            assert(before[a].key().before(entity.key()));
        }
    }
    assert(after[at] == entity);
    assert forall|id: EntityId| holds(after, id) <==> (id == entity.key() || holds(before, id)) by {
        if holds(after, id) {
            let i: int = place_of(after, id);
            if i != at {
                let a: int = if i < at { i } else { i - 1 };
                assert(before[a].key() == id);
            }
        }
        if holds(before, id) {
            let a: int = place_of(before, id);
            let i: int = if a < at { a } else { a + 1 };
            assert(after[i].key() == id);
        }
    }
    assert forall|id: EntityId| holds(after, id) implies
        after[place_of(after, id)] == entry_after(before, entity, id) by {
        let i: int = place_of(after, id);
        lemma_filed_once(after, i);
        if id == entity.key() {
            lemma_filed_once(after, at);
        } else {
            let a: int = if i < at { i } else { i - 1 };
            assert(before[a].key() == id);
            lemma_filed_once(before, a);
        }
    }
    assert(filed(after) =~= filed(before).insert(entity.key(), entity));
}

/// Replacing an object by one with the same identifier keeps the order and
/// changes one entry of the map.
proof fn lemma_replaced(before: Seq<Entity>, at: int, entity: Entity)
    requires
        strictly_sorted(before),
        0 <= at < before.len(),
        before[at].key() == entity.key(),
    ensures
        strictly_sorted(before.update(at, entity)),
        filed(before.update(at, entity)) == filed(before).insert(entity.key(), entity),
{
    let after = before.update(at, entity);
    assert forall|i: int, j: int| 0 <= i < j < after.len() implies
        (#[trigger] after[i]).key().before((#[trigger] after[j]).key()) by {
        assert(before[i].key().before(before[j].key()));
    }
    assert(after[at] == entity);
    assert forall|id: EntityId| holds(after, id) <==> (id == entity.key() || holds(before, id)) by {
        if holds(after, id) {
            let i: int = place_of(after, id);
            assert(before[i].key() == id);
        }
        if holds(before, id) {
            let a: int = place_of(before, id);
            assert(after[a].key() == id);
        }
    }
    assert forall|id: EntityId| holds(after, id) implies
        after[place_of(after, id)] == entry_after(before, entity, id) by {
        let i: int = place_of(after, id);
        lemma_filed_once(after, i);
        if id == entity.key() {
            lemma_filed_once(after, at);
        } else {
            assert(before[i].key() == id);
            lemma_filed_once(before, i);
        }
    }
    assert(filed(after) =~= filed(before).insert(entity.key(), entity));
}

} // verus!
