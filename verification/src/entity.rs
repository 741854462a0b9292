//! The objects of a data set: nodes, ways and relations.
use osmpbfreader::Tags;
use vstd::prelude::*;

verus! {

/// A point on the earth. Latitude and longitude count ten-millionths of a
/// degree.
#[derive(Clone, Copy, Debug, PartialEq, Eq, Structural)]
pub struct Node {
    pub id: i64,
    pub decimicro_lat: i32,
    pub decimicro_lon: i32,
}

/// A path through nodes, given by their identifiers in order.
#[derive(Debug, PartialEq, Eq)]
pub struct Way {
    pub id: i64,
    pub nodes: Vec<i64>,
    pub tags: Tags,
}

/// The identifier of an object. Objects of different kinds may share a
/// number, so the kind is part of the identifier.
#[derive(Clone, Copy, Debug, PartialEq, Eq, Structural)]
pub enum EntityId {
    Node(i64),
    Way(i64),
    Relation(i64),
}

/// A member of a relation, with the role it plays there.
#[derive(Debug, PartialEq, Eq)]
pub struct Ref {
    pub member: EntityId,
    pub role: String,
}

/// A group of objects, such as the parts of one street.
#[derive(Debug, PartialEq, Eq)]
pub struct Relation {
    pub id: i64,
    pub refs: Vec<Ref>,
    pub tags: Tags,
}

/// Any object of a data set.
#[derive(Debug, PartialEq, Eq)]
pub enum Entity {
    Node(Node),
    Way(Way),
    Relation(Relation),
}

impl EntityId {
    /// Nodes come before ways, and ways before relations.
    pub open spec fn rank(self) -> int {
        match self {
            EntityId::Node(_) => 0,
            EntityId::Way(_) => 1,
            EntityId::Relation(_) => 2,
        }
    }

    /// The number inside the identifier.
    pub open spec fn number(self) -> int {
        match self {
            EntityId::Node(n) => n as int,
            EntityId::Way(n) => n as int,
            EntityId::Relation(n) => n as int,
        }
    }

    /// The order of identifiers: by kind first, by number within a kind.
    pub open spec fn before(self, other: EntityId) -> bool {
        self.rank() < other.rank() || (self.rank() == other.rank() && self.number()
            < other.number())
    }

    /// Whether `self` comes before `other` in the order of identifiers.
    pub fn precedes(&self, other: &EntityId) -> (yes: bool)
        ensures
            yes == self.before(*other),
    {
        match (self, other) {
            (EntityId::Node(a), EntityId::Node(b)) => *a < *b,
            (EntityId::Node(_), _) => true,
            (EntityId::Way(_), EntityId::Node(_)) => false,
            (EntityId::Way(a), EntityId::Way(b)) => *a < *b,
            (EntityId::Way(_), EntityId::Relation(_)) => true,
            (EntityId::Relation(a), EntityId::Relation(b)) => *a < *b,
            (EntityId::Relation(_), _) => false,
        }
    }
}

impl Entity {
    /// The identifier under which the object is filed.
    pub open spec fn key(self) -> EntityId {
        match self {
            Entity::Node(node) => EntityId::Node(node.id),
            Entity::Way(way) => EntityId::Way(way.id),
            Entity::Relation(relation) => EntityId::Relation(relation.id),
        }
    }

    /// The identifier of the object.
    pub fn id(&self) -> (id: EntityId)
        ensures
            id == self.key(),
    {
        match self {
            Entity::Node(node) => EntityId::Node(node.id),
            Entity::Way(way) => EntityId::Way(way.id),
            Entity::Relation(relation) => EntityId::Relation(relation.id),
        }
    }
}

} // verus!
