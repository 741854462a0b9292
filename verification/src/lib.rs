//! Street and cycling infrastructure statistics over OpenStreetMap data.
//!
//! The library decides which ways of a data set count as streets, cycle
//! tracks, cycle lanes or cycle streets, and which stretches between
//! consecutive nodes make up the length of each of them. A length is kept in
//! exact form, as the list of stretches whose great-circle distances add up to
//! it; turning it into kilometres is left to the caller.
pub mod aggregate;
pub mod classify;
pub mod entity;
pub mod index;
pub mod laws;
pub mod length;
pub mod stats;
pub mod tags;
pub mod text;

pub use aggregate::{calculate_cycle_infra, calculate_cycle_infra_flat, calculate_relation_length};
pub use classify::{
    is_cycle_lane, is_cycle_lane_candidate, is_cycle_street, is_cycle_track,
    is_cycle_track_grouped, is_relation_of_type_street, is_street,
};
pub use entity::{Entity, EntityId, Node, Ref, Relation, Way};
pub use index::EntityIndex;
pub use length::{calculate_way_length, Length, Segment};
pub use stats::{CycleKind, InfraStats};
