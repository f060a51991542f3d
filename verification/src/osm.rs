//! OpenStreetMap objects as the import reads them: tags, and relations
//! with their members.

use vstd::prelude::*;

use crate::text::{chars_of, chars_of_string, chars_equal};

verus! {

/// The tags of an OSM object, in their stored order; keys are unique.
#[derive(Debug, Clone)]
pub struct OsmTags {
    pub entries: Vec<(String, String)>,
}

/// The value stored under `key`: that of the first entry with this key.
pub open spec fn tag_value(tags: OsmTags, key: Seq<char>) -> Option<Seq<char>> {
    if exists|i: int| 0 <= i < tags.entries@.len() && #[trigger] tags.entries@[i].0@ == key {
        let i = choose|i: int|
            0 <= i < tags.entries@.len() && #[trigger] tags.entries@[i].0@ == key && forall|j: int|
                0 <= j < i ==> #[trigger] tags.entries@[j].0@ != key;
        Some(tags.entries@[i].1@)
    } else {
        None
    }
}

/// The value of a tag.
pub fn tag<'a>(tags: &'a OsmTags, key: &str) -> (r: Option<&'a str>)
    ensures
        match tag_value(*tags, key@) {
            Some(v) => r is Some && r->Some_0@ == v,
            None => r is None,
        },
{
    let k = chars_of(key);
    let mut i: usize = 0;
    while i < tags.entries.len()
        invariant
            i <= tags.entries@.len(),
            k@ == key@,
            forall|j: int| 0 <= j < i ==> #[trigger] tags.entries@[j].0@ != key@,
        decreases tags.entries@.len() - i,
    {
        let entry_key = chars_of_string(&tags.entries[i].0);
        if chars_equal(&entry_key, &k) {
            proof {
                let c = choose|c: int|
                    0 <= c < tags.entries@.len() && #[trigger] tags.entries@[c].0@ == key@ && forall|j: int|
                        0 <= j < c ==> #[trigger] tags.entries@[j].0@ != key@;
                assert(tags.entries@[i as int].0@ == key@);
                assert(0 <= i < tags.entries@.len() && tags.entries@[i as int].0@ == key@ && forall|j: int|
                    0 <= j < i ==> #[trigger] tags.entries@[j].0@ != key@);
                if c < i {
                    assert(tags.entries@[c].0@ != key@);
                } else if c > i {
                    assert(tags.entries@[i as int].0@ != key@);
                }
            }
            return Some(tags.entries[i].1.as_str());
        }
        i += 1;
    }
    None
}

/// The object a relation member refers to.
#[derive(Debug, Clone, Copy, PartialEq, Eq, Structural)]
pub enum OsmMember {
    Node(i64),
    Way(i64),
    Relation(i64),
}

/// A member of a relation with its role.
#[derive(Debug, Clone)]
pub struct RelationMember {
    pub member: OsmMember,
    pub role: String,
}

/// An OSM relation.
#[derive(Debug, Clone)]
pub struct OsmRelation {
    pub id: i64,
    pub tags: OsmTags,
    pub refs: Vec<RelationMember>,
}

} // verus!
