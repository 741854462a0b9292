//! Lengths in exact form.
//!
//! The length of a way is the sum of the great-circle distances between its
//! consecutive nodes. The library does not compute distances. It says which
//! stretches are to be measured and in which order their distances are added
//! up: a [`Length`] is that sum, written down and not yet worked out.
use crate::entity::{Entity, EntityId, Node, Way};
use crate::index::{node_in, EntityIndex};
use vstd::prelude::*;

verus! {

/// The stretch between two nodes that follow one another on a way.
#[derive(Clone, Copy, Debug, PartialEq, Eq, Structural)]
pub struct Segment {
    pub from: Node,
    pub to: Node,
}

impl Segment {
    /// The same stretch, walked the other way.
    pub open spec fn flipped(self) -> Segment {
        Segment { from: self.to, to: self.from }
    }
}

/// A sum of distances. Each path is a run of stretches whose distances are
/// added up first, from the first stretch on; the sums of the paths are then
/// added up in the order of the paths. A length without paths is zero.
#[derive(Debug, PartialEq, Eq)]
pub struct Length {
    pub paths: Vec<Vec<Segment>>,
}

impl View for Length {
    type V = Seq<Seq<Segment>>;

    /// The paths of the sum, each as the sequence of its stretches.
    open spec fn view(&self) -> Seq<Seq<Segment>> {
        self.paths@.map_values(|path: Vec<Segment>| path@)
    }
}

/// The nodes that the identifiers `ids` lead to in `m`, in the order of `ids`.
/// An identifier that leads to no node is passed over.
pub open spec fn resolved_nodes(m: Map<EntityId, Entity>, ids: Seq<i64>) -> Seq<Node>
    decreases ids.len(),
{
    if ids.len() == 0 {
        Seq::empty()
    } else {
        let earlier = resolved_nodes(m, ids.drop_last());
        match node_in(m, ids.last()) {
            Some(node) => earlier.push(node),
            None => earlier,
        }
    }
}

/// The stretches from each of `nodes` to the next.
pub open spec fn segments_between(nodes: Seq<Node>) -> Seq<Segment> {
    Seq::new(
        if nodes.len() == 0 {
            0
        } else {
            (nodes.len() - 1) as nat
        },
        |i: int| Segment { from: nodes[i], to: nodes[i + 1] },
    )
}

/// The stretches of a way with the node identifiers `ids`: from each node
/// that `m` knows to the next one that it knows.
pub open spec fn way_segments(m: Map<EntityId, Entity>, ids: Seq<i64>) -> Seq<Segment> {
    segments_between(resolved_nodes(m, ids))
}

/// What a path comes to when each stretch counts `metric` of it.
pub open spec fn path_sum(path: Seq<Segment>, metric: spec_fn(Segment) -> nat) -> nat
    decreases path.len(),
{
    if path.len() == 0 {
        0
    } else {
        path_sum(path.drop_last(), metric) + metric(path.last())
    }
}

/// What a sum of paths comes to when each stretch counts `metric` of it.
pub open spec fn length_sum(paths: Seq<Seq<Segment>>, metric: spec_fn(Segment) -> nat) -> nat
    decreases paths.len(),
{
    if paths.len() == 0 {
        0
    } else {
        length_sum(paths.drop_last(), metric) + path_sum(paths.last(), metric)
    }
}

impl Length {
    /// The length zero: a sum without paths.
    pub fn zero() -> (length: Length)
        ensures
            length@ == Seq::<Seq<Segment>>::empty(),
    {
        let length = Length { paths: Vec::new() };
        assert(length@ =~= Seq::<Seq<Segment>>::empty());
        length
    }

    /// The sum of one path.
    pub fn of_path(path: Vec<Segment>) -> (length: Length)
        ensures
            length@ == seq![path@],
    {
        let mut paths: Vec<Vec<Segment>> = Vec::new();
        paths.push(path);
        let length = Length { paths };
        assert(length@ =~= seq![path@]);
        length
    }

    /// Adds `other` to the sum: its paths follow those that are there.
    pub fn add(&mut self, other: &Length)
        ensures
            final(self)@ == old(self)@ + other@,
    {
        let mut i: usize = 0;
        while i < other.paths.len()
            invariant
                i <= other.paths@.len(),
                self@ == old(self)@ + other@.take(i as int),
            decreases other.paths@.len() - i,
        {
            let path = other.paths[i].clone();
            assert(path@ =~= other@[i as int]);
            let ghost sum = self@;
            self.paths.push(path);
            assert(self@ =~= sum.push(other@[i as int]));
            assert(other@.take(i + 1) =~= other@.take(i as int).push(other@[i as int]));
            i += 1;
        }
        assert(other@.take(i as int) == other@);
    }
}

/// The length of `way`: one path, made of the stretches between the nodes of
/// the way that the index knows. A way with fewer than two such nodes has a
/// path without stretches.
pub fn calculate_way_length(index: &EntityIndex, way: &Way) -> (length: Length)
    ensures
        length@ == seq![way_segments(index@, way.nodes@)],
        resolved_nodes(index@, way.nodes@).len() < 2 ==> length@ == seq![Seq::<Segment>::empty()],
{
    let mut path: Vec<Segment> = Vec::new();
    let mut last: Option<Node> = None;
    let mut i: usize = 0;
    while i < way.nodes.len()
        invariant
            i <= way.nodes@.len(),
            path@ == way_segments(index@, way.nodes@.take(i as int)),
            last == if resolved_nodes(index@, way.nodes@.take(i as int)).len() == 0 {
                None
            } else {
                Some(resolved_nodes(index@, way.nodes@.take(i as int)).last())
            },
        decreases way.nodes@.len() - i,
    {
        let ghost earlier = resolved_nodes(index@, way.nodes@.take(i as int));
        assert(way.nodes@.take(i + 1).drop_last() == way.nodes@.take(i as int));
        match index.get(EntityId::Node(way.nodes[i])) {
            Some(Entity::Node(node)) => {
                if let Some(from) = last {
                    path.push(Segment { from, to: *node });
                }
                last = Some(*node);
                assert(path@ == segments_between(earlier.push(*node)));
            },
            _ => {},
        }
        i += 1;
    }
    assert(way.nodes@.take(i as int) == way.nodes@);
    assert(resolved_nodes(index@, way.nodes@).len() < 2 ==> path@ =~= Seq::<Segment>::empty());
    Length::of_path(path)
}

} // verus!
