use cyclerlib::{Entity, EntityId, EntityIndex, Node, Ref, Relation, Way};
use osmpbfreader::Tags;

fn node(id: i64, lat: i32, lon: i32) -> Entity {
    Entity::Node(Node { id, decimicro_lat: lat, decimicro_lon: lon })
}

fn way(id: i64, nodes: &[i64]) -> Entity {
    Entity::Way(Way { id, nodes: nodes.to_vec(), tags: Tags::new() })
}

fn relation(id: i64, members: &[EntityId]) -> Entity {
    let refs = members.iter().map(|member| Ref { member: *member, role: String::new() }).collect();
    Entity::Relation(Relation { id, refs, tags: Tags::new() })
}

#[test]
fn new_index_is_empty() {
    let index = EntityIndex::new();
    assert_eq!(index.len(), 0);
    assert!(index.as_vec().is_empty());
    assert!(index.get(EntityId::Node(1)).is_none());
}

#[test]
fn inserted_objects_are_found_by_their_identifier() {
    let mut index = EntityIndex::new();
    index.insert(node(7, 10, 20));
    index.insert(way(7, &[7]));
    index.insert(relation(7, &[EntityId::Way(7)]));
    assert_eq!(index.len(), 3);
    assert_eq!(index.get(EntityId::Node(7)), Some(&node(7, 10, 20)));
    assert_eq!(index.get(EntityId::Way(7)), Some(&way(7, &[7])));
    assert_eq!(index.get(EntityId::Relation(7)), Some(&relation(7, &[EntityId::Way(7)])));
    assert!(index.get(EntityId::Node(8)).is_none());
    assert!(index.get(EntityId::Way(6)).is_none());
    assert!(index.get(EntityId::Relation(0)).is_none());
}

#[test]
fn objects_are_kept_in_the_order_of_identifiers() {
    let mut index = EntityIndex::new();
    index.insert(relation(1, &[]));
    index.insert(way(5, &[]));
    index.insert(node(9, 0, 0));
    index.insert(way(-3, &[]));
    index.insert(node(-9, 0, 0));
    index.insert(relation(-1, &[]));
    index.insert(node(0, 0, 0));
    let ids: Vec<EntityId> = index.as_vec().iter().map(|entity| entity.id()).collect();
    assert_eq!(
        ids,
        vec![
            EntityId::Node(-9),
            EntityId::Node(0),
            EntityId::Node(9),
            EntityId::Way(-3),
            EntityId::Way(5),
            EntityId::Relation(-1),
            EntityId::Relation(1),
        ]
    );
}

#[test]
fn insert_replaces_an_object_with_the_same_identifier() {
    let mut index = EntityIndex::new();
    index.insert(node(1, 10, 20));
    index.insert(node(2, 30, 40));
    index.insert(node(1, 50, 60));
    assert_eq!(index.len(), 2);
    assert_eq!(index.get(EntityId::Node(1)), Some(&node(1, 50, 60)));
    assert_eq!(index.get(EntityId::Node(2)), Some(&node(2, 30, 40)));
}

#[test]
fn many_objects_in_any_order() {
    let mut index = EntityIndex::new();
    let mut id: i64 = 17;
    for _ in 0..500 {
        id = (id * 7919 + 13) % 1009;
        index.insert(node(id, id as i32, -(id as i32)));
    }
    let listed = index.as_vec();
    for pair in listed.windows(2) {
        assert!(pair[0].id().precedes(&pair[1].id()));
    }
    for entity in listed {
        assert_eq!(index.get(entity.id()), Some(entity));
    }
    assert!(index.get(EntityId::Node(1009)).is_none());
    assert!(index.get(EntityId::Node(-1)).is_none());
}

#[test]
fn extreme_identifiers() {
    let mut index = EntityIndex::new();
    index.insert(node(i64::MAX, 1, 1));
    index.insert(node(i64::MIN, 2, 2));
    index.insert(way(i64::MIN, &[]));
    assert_eq!(index.get(EntityId::Node(i64::MIN)), Some(&node(i64::MIN, 2, 2)));
    assert_eq!(index.get(EntityId::Node(i64::MAX)), Some(&node(i64::MAX, 1, 1)));
    assert_eq!(index.as_vec()[2], way(i64::MIN, &[]));
}

#[test]
fn order_of_identifiers() {
    assert!(EntityId::Node(5).precedes(&EntityId::Node(6)));
    assert!(!EntityId::Node(6).precedes(&EntityId::Node(5)));
    assert!(!EntityId::Node(5).precedes(&EntityId::Node(5)));
    assert!(EntityId::Node(100).precedes(&EntityId::Way(1)));
    assert!(EntityId::Node(100).precedes(&EntityId::Relation(1)));
    assert!(EntityId::Way(100).precedes(&EntityId::Relation(1)));
    assert!(!EntityId::Way(1).precedes(&EntityId::Node(100)));
    assert!(!EntityId::Relation(1).precedes(&EntityId::Way(100)));
    assert!(!EntityId::Relation(1).precedes(&EntityId::Node(100)));
    assert!(EntityId::Way(-1).precedes(&EntityId::Way(0)));
    assert!(EntityId::Relation(1).precedes(&EntityId::Relation(2)));
    assert!(!EntityId::Relation(2).precedes(&EntityId::Relation(2)));
}

#[test]
fn identifier_of_each_kind_of_object() {
    assert_eq!(node(4, 0, 0).id(), EntityId::Node(4));
    assert_eq!(way(4, &[]).id(), EntityId::Way(4));
    assert_eq!(relation(4, &[]).id(), EntityId::Relation(4));
}
