//! The statistics of an area: one length for each kind of infrastructure.
use crate::classify::{
    cycle_lane, cycle_street, cycle_track, cycle_track_grouped, is_cycle_lane, is_cycle_street,
    is_cycle_track, is_cycle_track_grouped,
};
use crate::length::{length_sum, Length, Segment};
use crate::tags::tags_map;
use osmpbfreader::Tags;
use vstd::prelude::*;

verus! {

/// The kind of cycling infrastructure that a way offers. A way counts for one
/// kind only.
#[derive(Clone, Copy, Debug, PartialEq, Eq, Structural)]
pub enum CycleKind {
    CycleStreet,
    Lane,
    Track,
}

/// The kind of a way that is reached through a street relation: a cycle
/// street before a cycle lane, and a cycle lane before a cycle track, which is
/// taken by its wider rule.
pub open spec fn grouped_kind(m: Map<Seq<char>, Seq<char>>) -> Option<CycleKind> {
    if cycle_street(m) {
        Some(CycleKind::CycleStreet)
    } else if cycle_lane(m) {
        Some(CycleKind::Lane)
    } else if cycle_track_grouped(m) {
        Some(CycleKind::Track)
    } else {
        None
    }
}

/// The kind of a way that is looked at on its own: a cycle lane before a
/// cycle track. There are no cycle streets here.
pub open spec fn flat_kind(m: Map<Seq<char>, Seq<char>>) -> Option<CycleKind> {
    if cycle_lane(m) {
        Some(CycleKind::Lane)
    } else if cycle_track(m) {
        Some(CycleKind::Track)
    } else {
        None
    }
}

/// The kind of cycling infrastructure of a way that belongs to a street
/// relation.
pub fn classify_grouped(tags: &Tags) -> (kind: Option<CycleKind>)
    ensures
        kind == grouped_kind(tags_map(*tags)),
{
    if is_cycle_street(tags) {
        Some(CycleKind::CycleStreet)
    } else if is_cycle_lane(tags) {
        Some(CycleKind::Lane)
    } else if is_cycle_track_grouped(tags) {
        Some(CycleKind::Track)
    } else {
        None
    }
}

/// The kind of cycling infrastructure of a way that is looked at on its own.
pub fn classify_flat(tags: &Tags) -> (kind: Option<CycleKind>)
    ensures
        kind == flat_kind(tags_map(*tags)),
{
    if is_cycle_lane(tags) {
        Some(CycleKind::Lane)
    } else if is_cycle_track(tags) {
        Some(CycleKind::Track)
    } else {
        None
    }
}

/// What the four sums of the statistics come to under some metric.
pub struct Totals {
    pub track: nat,
    pub lane: nat,
    pub cycle_street: nat,
    pub total_street: nat,
}

impl Totals {
    /// Nothing counted.
    pub open spec fn zero() -> Totals {
        Totals { track: 0, lane: 0, cycle_street: 0, total_street: 0 }
    }

    /// The totals of two counts taken together.
    pub open spec fn plus(self, other: Totals) -> Totals {
        Totals {
            track: self.track + other.track,
            lane: self.lane + other.lane,
            cycle_street: self.cycle_street + other.cycle_street,
            total_street: self.total_street + other.total_street,
        }
    }
}

/// The four sums of the statistics as sequences of paths.
#[verifier::ext_equal]
pub struct InfraSums {
    pub track: Seq<Seq<Segment>>,
    pub lane: Seq<Seq<Segment>>,
    pub cycle_street: Seq<Seq<Segment>>,
    pub total_street: Seq<Seq<Segment>>,
}

impl InfraSums {
    /// The statistics before anything is counted.
    pub open spec fn zero() -> InfraSums {
        InfraSums {
            track: Seq::empty(),
            lane: Seq::empty(),
            cycle_street: Seq::empty(),
            total_street: Seq::empty(),
        }
    }

    /// The statistics after one more way is counted. Its length goes to the
    /// streets if the way is a street, and to the sum of its kind of cycling
    /// infrastructure if it has one.
    pub open spec fn credit(
        self,
        length: Seq<Seq<Segment>>,
        street: bool,
        kind: Option<CycleKind>,
    ) -> InfraSums {
        InfraSums {
            track: if kind == Some(CycleKind::Track) {
                self.track + length
            } else {
                self.track
            },
            lane: if kind == Some(CycleKind::Lane) {
                self.lane + length
            } else {
                self.lane
            },
            cycle_street: if kind == Some(CycleKind::CycleStreet) {
                self.cycle_street + length
            } else {
                self.cycle_street
            },
            total_street: if street {
                self.total_street + length
            } else {
                self.total_street
            },
        }
    }

    /// What each of the four sums comes to when each stretch counts `metric`
    /// of it.
    pub open spec fn totals(self, metric: spec_fn(Segment) -> nat) -> Totals {
        Totals {
            track: length_sum(self.track, metric),
            lane: length_sum(self.lane, metric),
            cycle_street: length_sum(self.cycle_street, metric),
            total_street: length_sum(self.total_street, metric),
        }
    }

    /// What the three sums of cycling infrastructure come to together when
    /// each stretch counts `metric` of it.
    pub open spec fn cycling_sum(self, metric: spec_fn(Segment) -> nat) -> nat {
        length_sum(self.track, metric) + length_sum(self.lane, metric) + length_sum(
            self.cycle_street,
            metric,
        )
    }

    /// Every sum of `self` is the beginning of the same sum of `later`:
    /// nothing was taken away in between.
    pub open spec fn grown_into(self, later: InfraSums) -> bool {
        &&& self.track.is_prefix_of(later.track)
        &&& self.lane.is_prefix_of(later.lane)
        &&& self.cycle_street.is_prefix_of(later.cycle_street)
        &&& self.total_street.is_prefix_of(later.total_street)
    }
}

/// Infrastructure statistics of the streets of an area. `total_street_length`
/// is the length of the publicly accessible streets on which cars have
/// priority. Where a way offers infrastructure for bicycles, its length is
/// added to `track_length`, `lane_length` or `cycle_street_length` as well.
#[derive(Debug, PartialEq, Eq)]
pub struct InfraStats {
    pub track_length: Length,
    pub lane_length: Length,
    pub cycle_street_length: Length,
    pub total_street_length: Length,
}

impl View for InfraStats {
    type V = InfraSums;

    open spec fn view(&self) -> InfraSums {
        InfraSums {
            track: self.track_length@,
            lane: self.lane_length@,
            cycle_street: self.cycle_street_length@,
            total_street: self.total_street_length@,
        }
    }
}

impl InfraStats {
    /// Statistics in which every length is zero.
    pub fn new() -> (stats: InfraStats)
        ensures
            stats@ == InfraSums::zero(),
    {
        InfraStats {
            track_length: Length::zero(),
            lane_length: Length::zero(),
            cycle_street_length: Length::zero(),
            total_street_length: Length::zero(),
        }
    }

    /// Counts one more way of the given length.
    pub fn credit(&mut self, length: &Length, street: bool, kind: Option<CycleKind>)
        ensures
            final(self)@ == old(self)@.credit(length@, street, kind),
    {
        if street {
            self.total_street_length.add(length);
        }
        match kind {
            Some(CycleKind::CycleStreet) => self.cycle_street_length.add(length),
            Some(CycleKind::Lane) => self.lane_length.add(length),
            Some(CycleKind::Track) => self.track_length.add(length),
            None => {},
        }
    }
}

} // verus!
