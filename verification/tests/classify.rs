use cyclerlib::classify::is_cycleway_key;
use cyclerlib::stats::{classify_flat, classify_grouped};
use cyclerlib::text::{same_text, starts_with};
use cyclerlib::{
    is_cycle_lane, is_cycle_lane_candidate, is_cycle_street, is_cycle_track,
    is_cycle_track_grouped, is_relation_of_type_street, is_street, CycleKind,
};
use osmpbfreader::Tags;

fn tags(pairs: &[(&str, &str)]) -> Tags {
    let mut tags = Tags::new();
    for (key, value) in pairs {
        tags.insert((*key).into(), (*value).into());
    }
    tags
}

#[test]
fn every_street_value_makes_a_street() {
    let values = [
        "motorway",
        "trunk",
        "primary",
        "secondary",
        "tertiary",
        "unclassified",
        "residential",
        "motorway_link",
        "trunk_link",
        "primary_link",
        "secondary_link",
        "tertiary_link",
        "road",
    ];
    for value in values {
        assert!(is_street(&tags(&[("highway", value)])), "{}", format!("highway={value}"));
    }
}

#[test]
fn footway_is_no_street() {
    assert!(!is_street(&tags(&[("highway", "footway")])));
}

#[test]
fn cycleway_is_no_street() {
    assert!(!is_street(&tags(&[("highway", "cycleway")])));
}

#[test]
fn misspelled_primary_is_no_street() {
    assert!(!is_street(&tags(&[("highway", "pimary")])));
    assert!(is_street(&tags(&[("highway", "primary")])));
}

#[test]
fn street_needs_the_highway_key() {
    assert!(!is_street(&tags(&[])));
    assert!(!is_street(&tags(&[("name", "residential")])));
    assert!(!is_street(&tags(&[("highway:old", "residential")])));
    assert!(!is_street(&tags(&[("highway", "")])));
    assert!(!is_street(&tags(&[("highway", "Residential")])));
}

#[test]
fn street_with_other_tags_is_a_street() {
    assert!(is_street(&tags(&[("name", "Main Street"), ("highway", "tertiary"), ("oneway", "yes")])));
}

#[test]
fn relation_type_street_and_associated_street() {
    assert!(is_relation_of_type_street(&tags(&[("type", "street")])));
    assert!(is_relation_of_type_street(&tags(&[("type", "associatedStreet")])));
    assert!(!is_relation_of_type_street(&tags(&[("type", "route")])));
    assert!(!is_relation_of_type_street(&tags(&[("type", "associatedstreet")])));
    assert!(!is_relation_of_type_street(&tags(&[("highway", "street")])));
    assert!(!is_relation_of_type_street(&tags(&[])));
}

#[test]
fn cycle_street_needs_both_tags() {
    assert!(is_cycle_street(&tags(&[("highway", "cycleway"), ("bicycle_road", "yes")])));
    assert!(!is_cycle_street(&tags(&[("highway", "cycleway")])));
    assert!(!is_cycle_street(&tags(&[("bicycle_road", "yes")])));
    assert!(!is_cycle_street(&tags(&[("highway", "residential"), ("bicycle_road", "yes")])));
    assert!(!is_cycle_street(&tags(&[("highway", "cycleway"), ("bicycle_road", "no")])));
}

#[test]
fn cycleway_keys() {
    assert!(is_cycleway_key("cycleway"));
    assert!(is_cycleway_key("cycleway:left"));
    assert!(is_cycleway_key("cycleway:both"));
    assert!(is_cycleway_key("cycleway:"));
    assert!(!is_cycleway_key("cycleways"));
    assert!(!is_cycleway_key("cycleway_left"));
    assert!(!is_cycleway_key("cyclewa"));
    assert!(!is_cycleway_key("highway"));
    assert!(!is_cycleway_key(""));
    assert!(!is_cycleway_key("x:cycleway:left"));
}

#[test]
fn cycle_lane_values() {
    assert!(is_cycle_lane(&tags(&[("cycleway", "lane")])));
    assert!(is_cycle_lane(&tags(&[("cycleway", "opposite_lane")])));
    assert!(is_cycle_lane(&tags(&[("cycleway:left", "lane")])));
    assert!(is_cycle_lane(&tags(&[("cycleway:right", "opposite_lane")])));
    assert!(is_cycle_lane(&tags(&[("cycleway", "no"), ("cycleway:both", "lane")])));
    assert!(!is_cycle_lane(&tags(&[("cycleway", "track")])));
    assert!(!is_cycle_lane(&tags(&[("cycleway", "shared_lane")])));
    assert!(!is_cycle_lane(&tags(&[("cycleways", "lane")])));
    assert!(!is_cycle_lane(&tags(&[("highway", "lane")])));
    assert!(!is_cycle_lane(&tags(&[])));
}

#[test]
fn cycle_track_values() {
    assert!(is_cycle_track(&tags(&[("cycleway", "track")])));
    assert!(is_cycle_track(&tags(&[("cycleway", "opposite_track")])));
    assert!(is_cycle_track(&tags(&[("cycleway:right", "track")])));
    assert!(!is_cycle_track(&tags(&[("cycleway", "lane")])));
    assert!(!is_cycle_track(&tags(&[("cycleway_right", "track")])));
    assert!(!is_cycle_track(&tags(&[("highway", "cycleway"), ("oneway", "yes")])));
    assert!(!is_cycle_track(&tags(&[("bicycle", "use_sidepath")])));
    assert!(!is_cycle_track(&tags(&[])));
}

#[test]
fn wider_cycle_track_rule() {
    assert!(is_cycle_track_grouped(&tags(&[("cycleway", "track")])));
    assert!(is_cycle_track_grouped(&tags(&[("cycleway:left", "opposite_track")])));
    assert!(is_cycle_track_grouped(&tags(&[("highway", "cycleway"), ("oneway", "yes")])));
    assert!(is_cycle_track_grouped(&tags(&[("highway", "cycleway"), ("oneway", "no")])));
    assert!(is_cycle_track_grouped(&tags(&[("bicycle", "use_sidepath")])));
    assert!(!is_cycle_track_grouped(&tags(&[("highway", "cycleway"), ("oneway", "")])));
    assert!(!is_cycle_track_grouped(&tags(&[("highway", "cycleway")])));
    assert!(!is_cycle_track_grouped(&tags(&[("highway", "residential"), ("oneway", "yes")])));
    assert!(!is_cycle_track_grouped(&tags(&[("bicycle", "yes")])));
    assert!(!is_cycle_track_grouped(&tags(&[("cycleway", "lane")])));
    assert!(!is_cycle_track_grouped(&tags(&[])));
}

#[test]
fn loose_cycle_lane_rule() {
    assert!(is_cycle_lane_candidate(&tags(&[("highway", "residential"), ("cycleway", "track")])));
    assert!(is_cycle_lane_candidate(&tags(&[("highway", "path"), ("cycleway:left", "no")])));
    assert!(is_cycle_lane_candidate(&tags(&[("highway", "path"), ("cycleways", "x")])));
    assert!(!is_cycle_lane_candidate(&tags(&[("cycleway", "lane")])));
    assert!(!is_cycle_lane_candidate(&tags(&[("highway", "residential")])));
    assert!(!is_cycle_lane_candidate(&tags(&[("highway", ""), ("cycleway", "lane")])));
    assert!(!is_cycle_lane_candidate(&tags(&[("highway", "residential"), ("cycleway", "")])));
    assert!(is_cycle_lane_candidate(&tags(&[
        ("highway", "residential"),
        ("cycleway", ""),
        ("cycleway:right", "lane"),
    ])));
    assert!(!is_cycle_lane_candidate(&tags(&[])));
}

#[test]
fn grouped_kind_takes_cycle_street_first() {
    let all = tags(&[
        ("highway", "cycleway"),
        ("bicycle_road", "yes"),
        ("cycleway", "lane"),
        ("cycleway:left", "track"),
    ]);
    assert_eq!(classify_grouped(&all), Some(CycleKind::CycleStreet));
}

#[test]
fn grouped_kind_takes_lane_before_track() {
    let both = tags(&[("highway", "residential"), ("cycleway:left", "track"), ("cycleway:right", "lane")]);
    assert_eq!(classify_grouped(&both), Some(CycleKind::Lane));
    assert_eq!(classify_flat(&both), Some(CycleKind::Lane));
}

#[test]
fn grouped_kind_uses_the_wider_track_rule() {
    let one_way = tags(&[("highway", "cycleway"), ("oneway", "yes")]);
    assert_eq!(classify_grouped(&one_way), Some(CycleKind::Track));
    assert_eq!(classify_flat(&one_way), None);
    let side_path = tags(&[("highway", "primary"), ("bicycle", "use_sidepath")]);
    assert_eq!(classify_grouped(&side_path), Some(CycleKind::Track));
    assert_eq!(classify_flat(&side_path), None);
}

#[test]
fn flat_kind_knows_no_cycle_street() {
    let cycle_street = tags(&[("highway", "cycleway"), ("bicycle_road", "yes")]);
    assert_eq!(classify_grouped(&cycle_street), Some(CycleKind::CycleStreet));
    assert_eq!(classify_flat(&cycle_street), None);
}

#[test]
fn ways_without_cycling_tags_have_no_kind() {
    let plain = tags(&[("highway", "residential"), ("name", "Main Street")]);
    assert_eq!(classify_grouped(&plain), None);
    assert_eq!(classify_flat(&plain), None);
    assert_eq!(classify_grouped(&tags(&[])), None);
}

#[test]
fn track_only_is_a_track_in_both_ways_of_counting() {
    let track = tags(&[("highway", "residential"), ("cycleway", "track")]);
    assert_eq!(classify_grouped(&track), Some(CycleKind::Track));
    assert_eq!(classify_flat(&track), Some(CycleKind::Track));
}

#[test]
fn tags_in_other_scripts_are_read_whole() {
    let mixed = tags(&[
        ("name", "Große Straße"),
        ("name:ja", "大通り"),
        ("highway", "résidential"),
        ("cycleway:左", "lane"),
        ("cycleway", "lané"),
    ]);
    assert!(!is_street(&mixed));
    assert!(is_cycle_lane(&mixed));
    assert!(!is_cycle_track(&mixed));
    assert!(is_cycle_lane_candidate(&mixed));
    assert_eq!(classify_grouped(&mixed), Some(CycleKind::Lane));
}

#[test]
fn prefixes() {
    assert!(starts_with("cycleway:left", "cycleway"));
    assert!(starts_with("cycleway", "cycleway"));
    assert!(starts_with("anything", ""));
    assert!(starts_with("", ""));
    assert!(!starts_with("cycle", "cycleway"));
    assert!(!starts_with("", "c"));
    assert!(!starts_with("bicycleway", "cycleway"));
    assert!(starts_with("straße:links", "straße"));
    assert!(!starts_with("strasse", "straße"));
}

#[test]
fn equal_texts() {
    assert!(same_text("lane", "lane"));
    assert!(same_text("", ""));
    assert!(!same_text("lane", "lanes"));
    assert!(!same_text("lanes", "lane"));
    assert!(!same_text("lane", "Lane"));
    assert!(!same_text("", "x"));
    assert!(same_text("größe", "größe"));
}
