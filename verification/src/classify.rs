//! Rules that read the tags of a way or of a relation.
//!
//! Each rule is a predicate over the key/value pairs of the object, stated as
//! a spec function over [`tags_map`]; the executable function of the same
//! purpose returns exactly that predicate.
use crate::tags::{has_nonempty_tag, has_tag, tags_contains, tags_entries, tags_map};
use crate::text::{same_text, starts_with};
use osmpbfreader::Tags;
use vstd::prelude::*;

verus! {

/// The `highway` values of streets on which cars have priority. `primary` is
/// among them in its full spelling: a value such as `pimary` is none of them.
pub open spec fn street_value(value: Seq<char>) -> bool {
    ||| value == "motorway"@
    ||| value == "trunk"@
    ||| value == "primary"@
    ||| value == "secondary"@
    ||| value == "tertiary"@
    ||| value == "unclassified"@
    ||| value == "residential"@
    ||| value == "motorway_link"@
    ||| value == "trunk_link"@
    ||| value == "primary_link"@
    ||| value == "secondary_link"@
    ||| value == "tertiary_link"@
    ||| value == "road"@
}

/// The object is a street: its `highway` tag carries a [`street_value`].
pub open spec fn street(m: Map<Seq<char>, Seq<char>>) -> bool {
    m.contains_key("highway"@) && street_value(m["highway"@])
}

/// The relation groups the parts of one street: its `type` is `street` or
/// `associatedStreet`.
pub open spec fn relation_of_type_street(m: Map<Seq<char>, Seq<char>>) -> bool {
    has_tag(m, "type"@, "street"@) || has_tag(m, "type"@, "associatedStreet"@)
}

/// The way is a cycle street: a cycleway that is signed as a bicycle road.
pub open spec fn cycle_street(m: Map<Seq<char>, Seq<char>>) -> bool {
    has_tag(m, "highway"@, "cycleway"@) && has_tag(m, "bicycle_road"@, "yes"@)
}

/// The key is `cycleway` itself or one of its sub-keys, such as
/// `cycleway:left`.
pub open spec fn cycleway_key(key: Seq<char>) -> bool {
    key == "cycleway"@ || "cycleway:"@.is_prefix_of(key)
}

/// Some [`cycleway_key`] of the object carries `first` or `second`.
pub open spec fn cycleway_carries(
    m: Map<Seq<char>, Seq<char>>,
    first: Seq<char>,
    second: Seq<char>,
) -> bool {
    exists|key: Seq<char>|
        #![trigger m.contains_key(key)]
        m.contains_key(key) && cycleway_key(key) && (m[key] == first || m[key] == second)
}

/// The way has a cycle lane: a cycleway tag valued `lane` or `opposite_lane`.
pub open spec fn cycle_lane(m: Map<Seq<char>, Seq<char>>) -> bool {
    cycleway_carries(m, "lane"@, "opposite_lane"@)
}

/// The way has a cycle track: a cycleway tag valued `track` or
/// `opposite_track`.
pub open spec fn cycle_track(m: Map<Seq<char>, Seq<char>>) -> bool {
    cycleway_carries(m, "track"@, "opposite_track"@)
}

/// The wider rule for cycle tracks, used where ways are reached through
/// street relations: a [`cycle_track`], a one-way cycleway, or a way whose
/// `bicycle` tag sends cyclists to a side path.
pub open spec fn cycle_track_grouped(m: Map<Seq<char>, Seq<char>>) -> bool {
    ||| cycle_track(m)
    ||| (has_tag(m, "highway"@, "cycleway"@) && has_nonempty_tag(m, "oneway"@))
    ||| has_tag(m, "bicycle"@, "use_sidepath"@)
}

/// Some key that begins with `cycleway` carries a value that is not empty.
pub open spec fn any_cycleway_tag(m: Map<Seq<char>, Seq<char>>) -> bool {
    exists|key: Seq<char>|
        #![trigger m.contains_key(key)]
        m.contains_key(key) && "cycleway"@.is_prefix_of(key) && m[key].len() > 0
}

/// The loose rule for cycle lanes, meant for picking candidate ways before a
/// data set is walked in full: any cycleway tag at all on a way that has a
/// `highway` tag, both with a value that is not empty.
pub open spec fn cycle_lane_candidate(m: Map<Seq<char>, Seq<char>>) -> bool {
    any_cycleway_tag(m) && has_nonempty_tag(m, "highway"@)
}

/// Whether the `highway` tag carries `value`.
fn highway_is(tags: &Tags, value: &str) -> (yes: bool)
    ensures
        yes == has_tag(tags_map(*tags), "highway"@, value@),
{
    tags_contains(tags, "highway", value)
}

/// Whether the tags are those of a street with priority for cars.
pub fn is_street(tags: &Tags) -> (yes: bool)
    ensures
        yes == street(tags_map(*tags)),
{
    highway_is(tags, "motorway")
        || highway_is(tags, "trunk")
        || highway_is(tags, "primary")
        || highway_is(tags, "secondary")
        || highway_is(tags, "tertiary")
        || highway_is(tags, "unclassified")
        || highway_is(tags, "residential")
        || highway_is(tags, "motorway_link")
        || highway_is(tags, "trunk_link")
        || highway_is(tags, "primary_link")
        || highway_is(tags, "secondary_link")
        || highway_is(tags, "tertiary_link")
        || highway_is(tags, "road")
}

/// Whether the tags are those of a relation that groups the parts of a street.
pub fn is_relation_of_type_street(tags: &Tags) -> (yes: bool)
    ensures
        yes == relation_of_type_street(tags_map(*tags)),
{
    tags_contains(tags, "type", "street") || tags_contains(tags, "type", "associatedStreet")
}

/// Whether the tags are those of a cycle street.
pub fn is_cycle_street(tags: &Tags) -> (yes: bool)
    ensures
        yes == cycle_street(tags_map(*tags)),
{
    highway_is(tags, "cycleway") && tags_contains(tags, "bicycle_road", "yes")
}

/// Whether `key` is `cycleway` or one of its sub-keys.
pub fn is_cycleway_key(key: &str) -> (yes: bool)
    ensures
        yes == cycleway_key(key@),
{
    same_text(key, "cycleway") || starts_with(key, "cycleway:")
}

/// Whether some cycleway tag carries `first` or `second`.
fn cycleway_has_value(tags: &Tags, first: &str, second: &str) -> (yes: bool)
    ensures
        yes == cycleway_carries(tags_map(*tags), first@, second@),
{
    let ghost m = tags_map(*tags);
    let entries = tags_entries(tags);
    let mut i: usize = 0;
    while i < entries.len()
        invariant
            i <= entries.len(),
            m == tags_map(*tags),
            forall|j: int|
                0 <= j < entries@.len() ==> has_tag(m, (#[trigger] entries@[j]).0@, entries@[j].1@),
            forall|j: int|
                0 <= j < i ==> !(cycleway_key((#[trigger] entries@[j]).0@)
                    && (entries@[j].1@ == first@ || entries@[j].1@ == second@)),
        decreases entries.len() - i,
    {
        let key = entries[i].0.as_str();
        let value = entries[i].1.as_str();
        if is_cycleway_key(key) && (same_text(value, first) || same_text(value, second)) {
            assert(has_tag(m, entries@[i as int].0@, entries@[i as int].1@));
            assert(m.contains_key(key@));
            return true;
        }
        i += 1;
    }
    proof {
        if cycleway_carries(m, first@, second@) {
            let key = choose|key: Seq<char>|
                #![trigger m.contains_key(key)]
                m.contains_key(key) && cycleway_key(key)
                    && (m[key] == first@ || m[key] == second@);
            let j: int = choose|j: int| 0 <= j < entries@.len() && (#[trigger] entries@[j]).0@ == key;
            assert(has_tag(m, entries@[j].0@, entries@[j].1@));
        }
    }
    false
}

/// Whether the tags show a cycle lane.
pub fn is_cycle_lane(tags: &Tags) -> (yes: bool)
    ensures
        yes == cycle_lane(tags_map(*tags)),
{
    cycleway_has_value(tags, "lane", "opposite_lane")
}

/// Whether the tags show a cycle track.
pub fn is_cycle_track(tags: &Tags) -> (yes: bool)
    ensures
        yes == cycle_track(tags_map(*tags)),
{
    cycleway_has_value(tags, "track", "opposite_track")
}

/// Whether `key` is present with a value of at least one character.
fn has_value(tags: &Tags, key: &str) -> (yes: bool)
    ensures
        yes == has_nonempty_tag(tags_map(*tags), key@),
{
    let ghost m = tags_map(*tags);
    let entries = tags_entries(tags);
    let mut i: usize = 0;
    while i < entries.len()
        invariant
            i <= entries.len(),
            m == tags_map(*tags),
            forall|j: int|
                0 <= j < entries@.len() ==> has_tag(m, (#[trigger] entries@[j]).0@, entries@[j].1@),
            forall|j: int| 0 <= j < i ==> (#[trigger] entries@[j]).0@ != key@,
        decreases entries.len() - i,
    {
        if same_text(entries[i].0.as_str(), key) {
            assert(has_tag(m, entries@[i as int].0@, entries@[i as int].1@));
            return !entries[i].1.as_str().is_empty();
        }
        i += 1;
    }
    proof {
        if m.contains_key(key@) {
            let j: int = choose|j: int| 0 <= j < entries@.len() && (#[trigger] entries@[j]).0@ == key@;
            assert(entries@[j].0@ == key@);
        }
    }
    false
}

/// Whether the tags show a cycle track by the wider rule that holds for the
/// ways of street relations.
pub fn is_cycle_track_grouped(tags: &Tags) -> (yes: bool)
    ensures
        yes == cycle_track_grouped(tags_map(*tags)),
{
    is_cycle_track(tags)
        || (highway_is(tags, "cycleway") && has_value(tags, "oneway"))
        || tags_contains(tags, "bicycle", "use_sidepath")
}

/// Whether some key that begins with `cycleway` carries a value that is not
/// empty.
fn has_any_cycleway_tag(tags: &Tags) -> (yes: bool)
    ensures
        yes == any_cycleway_tag(tags_map(*tags)),
{
    let ghost m = tags_map(*tags);
    let entries = tags_entries(tags);
    let mut i: usize = 0;
    while i < entries.len()
        invariant
            i <= entries.len(),
            m == tags_map(*tags),
            forall|j: int|
                0 <= j < entries@.len() ==> has_tag(m, (#[trigger] entries@[j]).0@, entries@[j].1@),
            forall|j: int|
                0 <= j < i ==> !("cycleway"@.is_prefix_of((#[trigger] entries@[j]).0@)
                    && entries@[j].1@.len() > 0),
        decreases entries.len() - i,
    {
        if starts_with(entries[i].0.as_str(), "cycleway") && !entries[i].1.as_str().is_empty() {
            assert(has_tag(m, entries@[i as int].0@, entries@[i as int].1@));
            assert(m.contains_key(entries@[i as int].0@));
            return true;
        }
        i += 1;
    }
    proof {
        if any_cycleway_tag(m) {
            let key = choose|key: Seq<char>|
                #![trigger m.contains_key(key)]
                m.contains_key(key) && "cycleway"@.is_prefix_of(key) && m[key].len() > 0;
            let j: int = choose|j: int| 0 <= j < entries@.len() && (#[trigger] entries@[j]).0@ == key;
            assert(has_tag(m, entries@[j].0@, entries@[j].1@));
        }
    }
    false
}

/// Whether the tags make the way a candidate for a cycle lane by the loose
/// rule.
pub fn is_cycle_lane_candidate(tags: &Tags) -> (yes: bool)
    ensures
        yes == cycle_lane_candidate(tags_map(*tags)),
{
    has_any_cycleway_tag(tags) && has_value(tags, "highway")
}

} // verus!
