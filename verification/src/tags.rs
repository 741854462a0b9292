//! The tags of an OpenStreetMap object, kept in `osmpbfreader::Tags`.
//!
//! Verus does not look inside a `Tags` value. What it holds is named by
//! [`tags_map`], and the two functions that read a `Tags` value are trusted to
//! agree with that name.
use osmpbfreader::Tags;
use vstd::prelude::*;

verus! {

/// Declares `osmpbfreader::Tags`, so that it can stand in fields and
/// signatures. Nothing is said of what is inside.
#[verifier::external_type_specification]
#[verifier::external_body]
pub struct ExTags(Tags);

/// The key/value pairs that a `Tags` value holds, each string as its sequence
/// of characters. A key occurs at most once, as in the sorted map inside
/// `Tags`.
pub uninterp spec fn tags_map(tags: Tags) -> Map<Seq<char>, Seq<char>>;

/// `key` is present in `m` and carries exactly `value`.
pub open spec fn has_tag(m: Map<Seq<char>, Seq<char>>, key: Seq<char>, value: Seq<char>) -> bool {
    m.contains_key(key) && m[key] == value
}

/// `key` is present in `m` with a value of at least one character.
pub open spec fn has_nonempty_tag(m: Map<Seq<char>, Seq<char>>, key: Seq<char>) -> bool {
    m.contains_key(key) && m[key].len() > 0
}

/// Calls `osmpbfreader::Tags::contains`, which looks `key` up in the map and
/// compares what it finds with `value`. Trusted: the result is true exactly
/// when the pair is in [`tags_map`].
#[verifier::external_body]
pub(crate) fn tags_contains(tags: &Tags, key: &str, value: &str) -> (found: bool)
    ensures
        found == has_tag(tags_map(*tags), key@, value@),
{
    tags.contains(key, value)
}

/// Calls `iter` on the map inside `osmpbfreader::Tags` and copies every pair
/// into owned strings. Trusted: every pair handed out is in [`tags_map`], and
/// every key of [`tags_map`] is handed out.
#[verifier::external_body]
pub(crate) fn tags_entries(tags: &Tags) -> (entries: Vec<(String, String)>)
    ensures
        forall|i: int|
            0 <= i < entries@.len() ==> has_tag(
                tags_map(*tags),
                (#[trigger] entries@[i]).0@,
                entries@[i].1@,
            ),
        forall|key: Seq<char>| #[trigger]
            tags_map(*tags).contains_key(key) ==> exists|i: int|
                0 <= i < entries@.len() && (#[trigger] entries@[i]).0@ == key,
{
    tags.iter().map(|(k, v)| (k.to_string(), v.to_string())).collect()
}

} // verus!
