//! Matching profile rules against edges: the built-in tag values an edge
//! carries, the rules whose tags all hold, and the direction options that
//! drop inferred one-way exceptions.

use vstd::prelude::*;

use crate::graph::{
    highway_of_road_class, mode_bit, road_class_of, DirectedEdge, HighwayClass, RoadClass, SmoothnessClass,
    SurfaceClass, TravelMode, EDGE_FLAG_INFERRED_BICYCLE_CONTRAFLOW, EDGE_FLAG_INFERRED_FOOT_REVERSE_ONEWAY,
};
use crate::classify::{highway_tag_class, smoothness_of, surface_of};
use crate::osm::{tag_value, OsmTags};
use crate::profile_schema::{DirectionConfig, ExcludeRule, TagMatch};
use crate::text::{chars_of, eq_ignore_ascii_case, eq_ignore_case, lower_seq, str_eq};

verus! {

/// The text of an optional static string.
pub open spec fn text_of(v: Option<&'static str>) -> Option<Seq<char>> {
    match v {
        Some(s) => Some(s@),
        None => None,
    }
}

/// The tag value of a road class; ferries and unknown roads have none.
pub open spec fn road_class_tag(r: RoadClass) -> Option<Seq<char>> {
    match r {
        RoadClass::Motorway => Some("motorway"@),
        RoadClass::Trunk => Some("trunk"@),
        RoadClass::Primary => Some("primary"@),
        RoadClass::Secondary => Some("secondary"@),
        RoadClass::Tertiary => Some("tertiary"@),
        RoadClass::Residential => Some("residential"@),
        RoadClass::Service => Some("service"@),
        RoadClass::Track => Some("track"@),
        RoadClass::Ferry => None,
        RoadClass::Path => Some("path"@),
        RoadClass::Unknown => None,
    }
}

/// The tag value of a highway class; ferries and unknown ways have none.
pub open spec fn highway_tag(h: HighwayClass) -> Option<Seq<char>> {
    match h {
        HighwayClass::Motorway => Some("motorway"@),
        HighwayClass::MotorwayLink => Some("motorway_link"@),
        HighwayClass::Trunk => Some("trunk"@),
        HighwayClass::TrunkLink => Some("trunk_link"@),
        HighwayClass::Primary => Some("primary"@),
        HighwayClass::PrimaryLink => Some("primary_link"@),
        HighwayClass::Secondary => Some("secondary"@),
        HighwayClass::SecondaryLink => Some("secondary_link"@),
        HighwayClass::Tertiary => Some("tertiary"@),
        HighwayClass::TertiaryLink => Some("tertiary_link"@),
        HighwayClass::Residential => Some("residential"@),
        HighwayClass::Unclassified => Some("unclassified"@),
        HighwayClass::LivingStreet => Some("living_street"@),
        HighwayClass::Service => Some("service"@),
        HighwayClass::Track => Some("track"@),
        HighwayClass::Path => Some("path"@),
        HighwayClass::Cycleway => Some("cycleway"@),
        HighwayClass::Footway => Some("footway"@),
        HighwayClass::Pedestrian => Some("pedestrian"@),
        HighwayClass::Steps => Some("steps"@),
        HighwayClass::Bridleway => Some("bridleway"@),
        HighwayClass::Ferry => None,
        HighwayClass::Unknown => None,
    }
}

/// The tag value of a surface class; an unknown surface has none.
pub open spec fn surface_tag(s: SurfaceClass) -> Option<Seq<char>> {
    match s {
        SurfaceClass::Asphalt => Some("asphalt"@),
        SurfaceClass::Paved => Some("paved"@),
        SurfaceClass::Gravel => Some("gravel"@),
        SurfaceClass::Cobblestone => Some("cobblestone"@),
        SurfaceClass::Ground => Some("ground"@),
        SurfaceClass::Dirt => Some("dirt"@),
        SurfaceClass::Sand => Some("sand"@),
        SurfaceClass::Unknown => None,
    }
}

/// The tag value of a smoothness class; an unknown smoothness has none.
pub open spec fn smoothness_tag(s: SmoothnessClass) -> Option<Seq<char>> {
    match s {
        SmoothnessClass::Excellent => Some("excellent"@),
        SmoothnessClass::Good => Some("good"@),
        SmoothnessClass::Intermediate => Some("intermediate"@),
        SmoothnessClass::Bad => Some("bad"@),
        SmoothnessClass::VeryBad => Some("very_bad"@),
        SmoothnessClass::Horrible => Some("horrible"@),
        SmoothnessClass::VeryHorrible => Some("very_horrible"@),
        SmoothnessClass::Impassable => Some("impassable"@),
        SmoothnessClass::Unknown => None,
    }
}

/// The value an edge carries for a built-in key (compared exactly): the
/// highway falls back to the road class, `route` is `ferry` on ferries,
/// `toll` is `yes` or `no`. Other keys have no built-in value.
pub open spec fn edge_tag(edge: DirectedEdge, highway: HighwayClass, key: Seq<char>) -> Option<Seq<char>> {
    if key == "highway"@ {
        match highway_tag(highway) {
            Some(v) => Some(v),
            None => road_class_tag(edge.road_class),
        }
    } else if key == "road_class"@ {
        road_class_tag(edge.road_class)
    } else if key == "surface"@ {
        surface_tag(edge.surface)
    } else if key == "smoothness"@ {
        smoothness_tag(edge.smoothness)
    } else if key == "route"@ {
        if edge.road_class == RoadClass::Ferry {
            Some("ferry"@)
        } else {
            None
        }
    } else if key == "toll"@ {
        if edge.is_toll {
            Some("yes"@)
        } else {
            Some("no"@)
        }
    } else {
        None
    }
}

/// The tag value of a road class.
pub fn road_class_name(road_class: RoadClass) -> (r: Option<&'static str>)
    ensures
        text_of(r) == road_class_tag(road_class),
{
    match road_class {
        RoadClass::Motorway => Some("motorway"),
        RoadClass::Trunk => Some("trunk"),
        RoadClass::Primary => Some("primary"),
        RoadClass::Secondary => Some("secondary"),
        RoadClass::Tertiary => Some("tertiary"),
        RoadClass::Residential => Some("residential"),
        RoadClass::Service => Some("service"),
        RoadClass::Track => Some("track"),
        RoadClass::Ferry => None,
        RoadClass::Path => Some("path"),
        RoadClass::Unknown => None,
    }
}

/// The tag value of a highway class.
pub fn highway_name(highway: HighwayClass) -> (r: Option<&'static str>)
    ensures
        text_of(r) == highway_tag(highway),
{
    match highway {
        HighwayClass::Motorway => Some("motorway"),
        HighwayClass::MotorwayLink => Some("motorway_link"),
        HighwayClass::Trunk => Some("trunk"),
        HighwayClass::TrunkLink => Some("trunk_link"),
        HighwayClass::Primary => Some("primary"),
        HighwayClass::PrimaryLink => Some("primary_link"),
        HighwayClass::Secondary => Some("secondary"),
        HighwayClass::SecondaryLink => Some("secondary_link"),
        HighwayClass::Tertiary => Some("tertiary"),
        HighwayClass::TertiaryLink => Some("tertiary_link"),
        HighwayClass::Residential => Some("residential"),
        HighwayClass::Unclassified => Some("unclassified"),
        HighwayClass::LivingStreet => Some("living_street"),
        HighwayClass::Service => Some("service"),
        HighwayClass::Track => Some("track"),
        HighwayClass::Path => Some("path"),
        HighwayClass::Cycleway => Some("cycleway"),
        HighwayClass::Footway => Some("footway"),
        HighwayClass::Pedestrian => Some("pedestrian"),
        HighwayClass::Steps => Some("steps"),
        HighwayClass::Bridleway => Some("bridleway"),
        HighwayClass::Ferry | HighwayClass::Unknown => None,
    }
}

/// The tag value of a surface class.
pub fn surface_name(surface: SurfaceClass) -> (r: Option<&'static str>)
    ensures
        text_of(r) == surface_tag(surface),
{
    match surface {
        SurfaceClass::Asphalt => Some("asphalt"),
        SurfaceClass::Paved => Some("paved"),
        SurfaceClass::Gravel => Some("gravel"),
        SurfaceClass::Cobblestone => Some("cobblestone"),
        SurfaceClass::Ground => Some("ground"),
        SurfaceClass::Dirt => Some("dirt"),
        SurfaceClass::Sand => Some("sand"),
        SurfaceClass::Unknown => None,
    }
}

/// The tag value of a smoothness class.
pub fn smoothness_name(smoothness: SmoothnessClass) -> (r: Option<&'static str>)
    ensures
        text_of(r) == smoothness_tag(smoothness),
{
    match smoothness {
        SmoothnessClass::Excellent => Some("excellent"),
        SmoothnessClass::Good => Some("good"),
        SmoothnessClass::Intermediate => Some("intermediate"),
        SmoothnessClass::Bad => Some("bad"),
        SmoothnessClass::VeryBad => Some("very_bad"),
        SmoothnessClass::Horrible => Some("horrible"),
        SmoothnessClass::VeryHorrible => Some("very_horrible"),
        SmoothnessClass::Impassable => Some("impassable"),
        SmoothnessClass::Unknown => None,
    }
}

/// The built-in value an edge carries for a key.
pub fn edge_tag_value(edge: &DirectedEdge, highway: HighwayClass, key: &str) -> (r: Option<&'static str>)
    ensures
        text_of(r) == edge_tag(*edge, highway, key@),
{
    if str_eq(key, "highway") {
        match highway_name(highway) {
            Some(v) => Some(v),
            None => road_class_name(edge.road_class),
        }
    } else if str_eq(key, "road_class") {
        road_class_name(edge.road_class)
    } else if str_eq(key, "surface") {
        surface_name(edge.surface)
    } else if str_eq(key, "smoothness") {
        smoothness_name(edge.smoothness)
    } else if str_eq(key, "route") {
        if edge.road_class == RoadClass::Ferry {
            Some("ferry")
        } else {
            None
        }
    } else if str_eq(key, "toll") {
        if edge.is_toll {
            Some("yes")
        } else {
            Some("no")
        }
    } else {
        None
    }
}

/// The edge's built-in value for `key` equals `expected`, ASCII case
/// ignored.
pub open spec fn builtin_holds(edge: DirectedEdge, highway: HighwayClass, key: Seq<char>, expected: Seq<char>) -> bool {
    match edge_tag(edge, highway, key) {
        Some(v) => eq_ignore_case(v, expected),
        None => false,
    }
}

/// The attribute test `f` may answer `answer` for this key and value.
pub open spec fn attribute_answer<F: Fn(&str, &str) -> bool>(
    f: F,
    key: Seq<char>,
    expected: Seq<char>,
    answer: bool,
) -> bool {
    exists|k: &str, v: &str| k@ == key && v@ == expected && #[trigger] f.ensures((k, v), answer)
}

/// One tag of a rule holds: by the edge's built-in value, or, for a key
/// without one, by the attribute test.
pub open spec fn tag_passes<F: Fn(&str, &str) -> bool>(
    f: F,
    edge: DirectedEdge,
    highway: HighwayClass,
    key: Seq<char>,
    expected: Seq<char>,
) -> bool {
    builtin_holds(edge, highway, key, expected) || (edge_tag(edge, highway, key) is None && attribute_answer(
        f,
        key,
        expected,
        true,
    ))
}

/// One tag of a rule fails: the built-in value differs, or, for a key
/// without one, the attribute test says no.
pub open spec fn tag_fails<F: Fn(&str, &str) -> bool>(
    f: F,
    edge: DirectedEdge,
    highway: HighwayClass,
    key: Seq<char>,
    expected: Seq<char>,
) -> bool {
    !builtin_holds(edge, highway, key, expected) && (edge_tag(edge, highway, key) is Some || attribute_answer(
        f,
        key,
        expected,
        false,
    ))
}

/// Every tag of the rule holds on the edge.
pub open spec fn rule_passes<F: Fn(&str, &str) -> bool>(
    f: F,
    edge: DirectedEdge,
    highway: HighwayClass,
    tags: Seq<(String, String)>,
) -> bool {
    forall|i: int| 0 <= i < tags.len() ==> #[trigger] tag_passes(f, edge, highway, tags[i].0@, tags[i].1@)
}

/// Some tag of the rule fails on the edge.
pub open spec fn rule_fails<F: Fn(&str, &str) -> bool>(
    f: F,
    edge: DirectedEdge,
    highway: HighwayClass,
    tags: Seq<(String, String)>,
) -> bool {
    exists|i: int| 0 <= i < tags.len() && #[trigger] tag_fails(f, edge, highway, tags[i].0@, tags[i].1@)
}

/// Whether every tag of a rule holds on an edge. Keys with a built-in value
/// compare it with the expected value, ASCII case ignored; other keys ask
/// `attribute_matches`, which is called for those keys only, in order,
/// until a tag fails.
pub fn matches_edge<F: Fn(&str, &str) -> bool>(
    tags: &TagMatch,
    edge: &DirectedEdge,
    highway: HighwayClass,
    attribute_matches: &F,
) -> (r: bool)
    requires
        forall|k: &str, v: &str| #[trigger] attribute_matches.requires((k, v)),
    ensures
        r ==> rule_passes(*attribute_matches, *edge, highway, tags.tags@),
        !r ==> rule_fails(*attribute_matches, *edge, highway, tags.tags@),
{
    let mut i: usize = 0;
    while i < tags.tags.len()
        invariant
            forall|k: &str, v: &str| #[trigger] attribute_matches.requires((k, v)),
            i <= tags.tags@.len(),
            forall|j: int|
                0 <= j < i ==> #[trigger] tag_passes(*attribute_matches, *edge, highway, tags.tags@[j].0@, tags.tags@[j].1@),
        decreases tags.tags@.len() - i,
    {
        let key = tags.tags[i].0.as_str();
        let expected = tags.tags[i].1.as_str();
        let value = edge_tag_value(edge, highway, key);
        let ok = match value {
            Some(actual) => eq_ignore_ascii_case(&chars_of(actual), &chars_of(expected)),
            None => attribute_matches(key, expected),
        };
        if !ok {
            proof {
                assert(tag_fails(*attribute_matches, *edge, highway, tags.tags@[i as int].0@, tags.tags@[i as int].1@));
            }
            return false;
        }
        proof {
            assert(tag_passes(*attribute_matches, *edge, highway, tags.tags@[i as int].0@, tags.tags@[i as int].1@));
        }
        i += 1;
    }
    true
}

/// Whether some exclude rule matches the edge; the rules are tried in
/// order until one matches.
pub fn is_excluded<F: Fn(&str, &str) -> bool>(
    rules: &Vec<ExcludeRule>,
    edge: &DirectedEdge,
    highway: HighwayClass,
    attribute_matches: &F,
) -> (r: bool)
    requires
        forall|k: &str, v: &str| #[trigger] attribute_matches.requires((k, v)),
    ensures
        r ==> exists|i: int|
            0 <= i < rules@.len() && #[trigger] rule_passes(*attribute_matches, *edge, highway, rules@[i].rule_match.tags@),
        !r ==> forall|i: int|
            0 <= i < rules@.len() ==> #[trigger] rule_fails(*attribute_matches, *edge, highway, rules@[i].rule_match.tags@),
{
    let mut i: usize = 0;
    while i < rules.len()
        invariant
            forall|k: &str, v: &str| #[trigger] attribute_matches.requires((k, v)),
            i <= rules@.len(),
            forall|j: int|
                0 <= j < i ==> #[trigger] rule_fails(*attribute_matches, *edge, highway, rules@[j].rule_match.tags@),
        decreases rules@.len() - i,
    {
        if matches_edge(&rules[i].rule_match, edge, highway, attribute_matches) {
            return true;
        }
        i += 1;
    }
    false
}

/// The first rule whose tags all hold on the edge, if any (the rule that
/// sets the speed).
pub fn first_matching_rule<F: Fn(&str, &str) -> bool>(
    rules: &Vec<TagMatch>,
    edge: &DirectedEdge,
    highway: HighwayClass,
    attribute_matches: &F,
) -> (r: Option<usize>)
    requires
        forall|k: &str, v: &str| #[trigger] attribute_matches.requires((k, v)),
    ensures
        r matches Some(i) ==> i < rules@.len() && rule_passes(*attribute_matches, *edge, highway, rules@[i as int].tags@),
        forall|j: int|
            0 <= j < rules@.len() && (r is None || j < r->0) ==> #[trigger] rule_fails(
                *attribute_matches,
                *edge,
                highway,
                rules@[j].tags@,
            ),
{
    let mut i: usize = 0;
    while i < rules.len()
        invariant
            forall|k: &str, v: &str| #[trigger] attribute_matches.requires((k, v)),
            i <= rules@.len(),
            forall|j: int| 0 <= j < i ==> #[trigger] rule_fails(*attribute_matches, *edge, highway, rules@[j].tags@),
        decreases rules@.len() - i,
    {
        if matches_edge(&rules[i], edge, highway, attribute_matches) {
            return Some(i);
        }
        i += 1;
    }
    None
}

/// For each rule, whether its tags all hold on the edge (the rules whose
/// speed factors apply).
pub fn matching_rules<F: Fn(&str, &str) -> bool>(
    rules: &Vec<TagMatch>,
    edge: &DirectedEdge,
    highway: HighwayClass,
    attribute_matches: &F,
) -> (r: Vec<bool>)
    requires
        forall|k: &str, v: &str| #[trigger] attribute_matches.requires((k, v)),
    ensures
        r@.len() == rules@.len(),
        forall|j: int|
            0 <= j < rules@.len() ==> (#[trigger] r@[j] ==> rule_passes(*attribute_matches, *edge, highway, rules@[j].tags@)),
        forall|j: int|
            0 <= j < rules@.len() ==> (!#[trigger] r@[j] ==> rule_fails(*attribute_matches, *edge, highway, rules@[j].tags@)),
{
    let mut out: Vec<bool> = Vec::new();
    let mut i: usize = 0;
    while i < rules.len()
        invariant
            forall|k: &str, v: &str| #[trigger] attribute_matches.requires((k, v)),
            i <= rules@.len(),
            out@.len() == i,
            forall|j: int|
                0 <= j < i ==> (#[trigger] out@[j] ==> rule_passes(*attribute_matches, *edge, highway, rules@[j].tags@)),
            forall|j: int|
                0 <= j < i ==> (!#[trigger] out@[j] ==> rule_fails(*attribute_matches, *edge, highway, rules@[j].tags@)),
        decreases rules@.len() - i,
    {
        let m = matches_edge(&rules[i], edge, highway, attribute_matches);
        out.push(m);
        i += 1;
    }
    out
}

/// Whether the profile's direction options drop the edge: foot travel
/// against a plain one-way, or bicycle contraflow on a road, each unless
/// the profile allows it.
pub open spec fn directionally_excluded(mode: TravelMode, direction: DirectionConfig, flags: u32) -> bool {
    (mode == TravelMode::Foot && flags & EDGE_FLAG_INFERRED_FOOT_REVERSE_ONEWAY != 0
        && !direction.ignore_plain_oneway_for_foot) || (mode == TravelMode::Bicycle && flags
        & EDGE_FLAG_INFERRED_BICYCLE_CONTRAFLOW != 0 && !direction.allow_bicycle_contraflow_on_roads)
}

/// Whether the direction options of a profile for `mode` drop the edge.
pub fn is_directionally_excluded(mode: TravelMode, direction: &DirectionConfig, edge: &DirectedEdge) -> (r: bool)
    ensures
        r == directionally_excluded(mode, *direction, edge.flags),
{
    (mode == TravelMode::Foot && edge.flags & EDGE_FLAG_INFERRED_FOOT_REVERSE_ONEWAY != 0
        && !direction.ignore_plain_oneway_for_foot) || (mode == TravelMode::Bicycle && edge.flags
        & EDGE_FLAG_INFERRED_BICYCLE_CONTRAFLOW != 0 && !direction.allow_bicycle_contraflow_on_roads)
}

/// Whether a profile closes an edge: its mode may not use it, it is a
/// ferry the profile does not allow, the direction options drop it, or an
/// exclude rule matches it. Rules are tried, in order, only when nothing
/// before closes the edge.
pub fn edge_is_closed<F: Fn(&str, &str) -> bool>(
    mode: TravelMode,
    ferry_allowed: bool,
    direction: &DirectionConfig,
    rules: &Vec<ExcludeRule>,
    edge: &DirectedEdge,
    highway: HighwayClass,
    attribute_matches: &F,
) -> (r: bool)
    requires
        forall|k: &str, v: &str| #[trigger] attribute_matches.requires((k, v)),
    ensures
        ({
            let fixed = edge.access_mask.0 & mode_bit(mode) == 0 || (edge.road_class == RoadClass::Ferry && !ferry_allowed)
                || directionally_excluded(mode, *direction, edge.flags);
            &&& fixed ==> r
            &&& r && !fixed ==> exists|i: int|
                0 <= i < rules@.len() && #[trigger] rule_passes(
                    *attribute_matches,
                    *edge,
                    highway,
                    rules@[i].rule_match.tags@,
                )
            &&& !r ==> !fixed && forall|i: int|
                0 <= i < rules@.len() ==> #[trigger] rule_fails(
                    *attribute_matches,
                    *edge,
                    highway,
                    rules@[i].rule_match.tags@,
                )
        }),
{
    if !edge.access_mask.contains(mode.access_bit()) {
        return true;
    }
    if edge.road_class == RoadClass::Ferry && !ferry_allowed {
        return true;
    }
    if is_directionally_excluded(mode, direction, edge) {
        return true;
    }
    is_excluded(rules, edge, highway, attribute_matches)
}

// ---------------------------------------------------------------------------
// Laws of the built-in values.
// ---------------------------------------------------------------------------
/// The surface names are told apart from each other and from the OSM
/// values tried before them.
proof fn lemma_surface_names_distinct()
    ensures
        "paved"@ != "asphalt"@,
        "gravel"@ != "asphalt"@,
        "gravel"@ != "paved"@,
        "gravel"@ != "concrete"@,
        "gravel"@ != "concrete:lanes"@,
        "gravel"@ != "concrete:plates"@,
        "cobblestone"@ != "asphalt"@,
        "cobblestone"@ != "paved"@,
        "cobblestone"@ != "concrete"@,
        "cobblestone"@ != "concrete:lanes"@,
        "cobblestone"@ != "concrete:plates"@,
        "cobblestone"@ != "gravel"@,
        "cobblestone"@ != "fine_gravel"@,
        "cobblestone"@ != "pebblestone"@,
        "ground"@ != "asphalt"@,
        "ground"@ != "paved"@,
        "ground"@ != "concrete"@,
        "ground"@ != "concrete:lanes"@,
        "ground"@ != "concrete:plates"@,
        "ground"@ != "gravel"@,
        "ground"@ != "fine_gravel"@,
        "ground"@ != "pebblestone"@,
        "ground"@ != "cobblestone"@,
        "ground"@ != "sett"@,
        "ground"@ != "unhewn_cobblestone"@,
        "dirt"@ != "asphalt"@,
        "dirt"@ != "paved"@,
        "dirt"@ != "concrete"@,
        "dirt"@ != "concrete:lanes"@,
        "dirt"@ != "concrete:plates"@,
        "dirt"@ != "gravel"@,
        "dirt"@ != "fine_gravel"@,
        "dirt"@ != "pebblestone"@,
        "dirt"@ != "cobblestone"@,
        "dirt"@ != "sett"@,
        "dirt"@ != "unhewn_cobblestone"@,
        "dirt"@ != "ground"@,
        "dirt"@ != "earth"@,
        "dirt"@ != "grass"@,
        "dirt"@ != "mud"@,
        "sand"@ != "asphalt"@,
        "sand"@ != "paved"@,
        "sand"@ != "concrete"@,
        "sand"@ != "concrete:lanes"@,
        "sand"@ != "concrete:plates"@,
        "sand"@ != "gravel"@,
        "sand"@ != "fine_gravel"@,
        "sand"@ != "pebblestone"@,
        "sand"@ != "cobblestone"@,
        "sand"@ != "sett"@,
        "sand"@ != "unhewn_cobblestone"@,
        "sand"@ != "ground"@,
        "sand"@ != "earth"@,
        "sand"@ != "grass"@,
        "sand"@ != "mud"@,
        "sand"@ != "dirt"@,
        "sand"@ != "compacted"@,
{
    reveal_strlit("asphalt");
    reveal_strlit("paved");
    reveal_strlit("concrete");
    reveal_strlit("concrete:lanes");
    reveal_strlit("concrete:plates");
    reveal_strlit("gravel");
    reveal_strlit("fine_gravel");
    reveal_strlit("pebblestone");
    reveal_strlit("cobblestone");
    reveal_strlit("sett");
    reveal_strlit("unhewn_cobblestone");
    reveal_strlit("ground");
    reveal_strlit("earth");
    reveal_strlit("grass");
    reveal_strlit("mud");
    reveal_strlit("dirt");
    reveal_strlit("compacted");
    reveal_strlit("sand");
    assert("paved"@ != "asphalt"@) by {
        assert("paved"@[0] != "asphalt"@[0]);
    }
    assert("gravel"@ != "asphalt"@) by {
        assert("gravel"@[0] != "asphalt"@[0]);
    }
    assert("gravel"@ != "paved"@) by {
        assert("gravel"@[0] != "paved"@[0]);
    }
    assert("gravel"@ != "concrete"@) by {
        assert("gravel"@[0] != "concrete"@[0]);
    }
    assert("gravel"@ != "concrete:lanes"@) by {
        assert("gravel"@[0] != "concrete:lanes"@[0]);
    }
    assert("gravel"@ != "concrete:plates"@) by {
        assert("gravel"@[0] != "concrete:plates"@[0]);
    }
    assert("cobblestone"@ != "asphalt"@) by {
        assert("cobblestone"@[0] != "asphalt"@[0]);
    }
    assert("cobblestone"@ != "paved"@) by {
        assert("cobblestone"@[0] != "paved"@[0]);
    }
    assert("cobblestone"@ != "concrete"@) by {
        assert("cobblestone"@[2] != "concrete"@[2]);
    }
    assert("cobblestone"@ != "concrete:lanes"@) by {
        assert("cobblestone"@[2] != "concrete:lanes"@[2]);
    }
    assert("cobblestone"@ != "concrete:plates"@) by {
        assert("cobblestone"@[2] != "concrete:plates"@[2]);
    }
    assert("cobblestone"@ != "gravel"@) by {
        assert("cobblestone"@[0] != "gravel"@[0]);
    }
    assert("cobblestone"@ != "fine_gravel"@) by {
        assert("cobblestone"@[0] != "fine_gravel"@[0]);
    }
    assert("cobblestone"@ != "pebblestone"@) by {
        assert("cobblestone"@[0] != "pebblestone"@[0]);
    }
    assert("ground"@ != "asphalt"@) by {
        assert("ground"@[0] != "asphalt"@[0]);
    }
    assert("ground"@ != "paved"@) by {
        assert("ground"@[0] != "paved"@[0]);
    }
    assert("ground"@ != "concrete"@) by {
        assert("ground"@[0] != "concrete"@[0]);
    }
    assert("ground"@ != "concrete:lanes"@) by {
        assert("ground"@[0] != "concrete:lanes"@[0]);
    }
    assert("ground"@ != "concrete:plates"@) by {
        assert("ground"@[0] != "concrete:plates"@[0]);
    }
    assert("ground"@ != "gravel"@) by {
        assert("ground"@[2] != "gravel"@[2]);
    }
    assert("ground"@ != "fine_gravel"@) by {
        assert("ground"@[0] != "fine_gravel"@[0]);
    }
    assert("ground"@ != "pebblestone"@) by {
        assert("ground"@[0] != "pebblestone"@[0]);
    }
    assert("ground"@ != "cobblestone"@) by {
        assert("ground"@[0] != "cobblestone"@[0]);
    }
    assert("ground"@ != "sett"@) by {
        assert("ground"@[0] != "sett"@[0]);
    }
    assert("ground"@ != "unhewn_cobblestone"@) by {
        assert("ground"@[0] != "unhewn_cobblestone"@[0]);
    }
    assert("dirt"@ != "asphalt"@) by {
        assert("dirt"@[0] != "asphalt"@[0]);
    }
    assert("dirt"@ != "paved"@) by {
        assert("dirt"@[0] != "paved"@[0]);
    }
    assert("dirt"@ != "concrete"@) by {
        assert("dirt"@[0] != "concrete"@[0]);
    }
    assert("dirt"@ != "concrete:lanes"@) by {
        assert("dirt"@[0] != "concrete:lanes"@[0]);
    }
    assert("dirt"@ != "concrete:plates"@) by {
        assert("dirt"@[0] != "concrete:plates"@[0]);
    }
    assert("dirt"@ != "gravel"@) by {
        assert("dirt"@[0] != "gravel"@[0]);
    }
    assert("dirt"@ != "fine_gravel"@) by {
        assert("dirt"@[0] != "fine_gravel"@[0]);
    }
    assert("dirt"@ != "pebblestone"@) by {
        assert("dirt"@[0] != "pebblestone"@[0]);
    }
    assert("dirt"@ != "cobblestone"@) by {
        assert("dirt"@[0] != "cobblestone"@[0]);
    }
    assert("dirt"@ != "sett"@) by {
        assert("dirt"@[0] != "sett"@[0]);
    }
    assert("dirt"@ != "unhewn_cobblestone"@) by {
        assert("dirt"@[0] != "unhewn_cobblestone"@[0]);
    }
    assert("dirt"@ != "ground"@) by {
        assert("dirt"@[0] != "ground"@[0]);
    }
    assert("dirt"@ != "earth"@) by {
        assert("dirt"@[0] != "earth"@[0]);
    }
    assert("dirt"@ != "grass"@) by {
        assert("dirt"@[0] != "grass"@[0]);
    }
    assert("dirt"@ != "mud"@) by {
        assert("dirt"@[0] != "mud"@[0]);
    }
    assert("sand"@ != "asphalt"@) by {
        assert("sand"@[0] != "asphalt"@[0]);
    }
    assert("sand"@ != "paved"@) by {
        assert("sand"@[0] != "paved"@[0]);
    }
    assert("sand"@ != "concrete"@) by {
        assert("sand"@[0] != "concrete"@[0]);
    }
    assert("sand"@ != "concrete:lanes"@) by {
        assert("sand"@[0] != "concrete:lanes"@[0]);
    }
    assert("sand"@ != "concrete:plates"@) by {
        assert("sand"@[0] != "concrete:plates"@[0]);
    }
    assert("sand"@ != "gravel"@) by {
        assert("sand"@[0] != "gravel"@[0]);
    }
    assert("sand"@ != "fine_gravel"@) by {
        assert("sand"@[0] != "fine_gravel"@[0]);
    }
    assert("sand"@ != "pebblestone"@) by {
        assert("sand"@[0] != "pebblestone"@[0]);
    }
    assert("sand"@ != "cobblestone"@) by {
        assert("sand"@[0] != "cobblestone"@[0]);
    }
    assert("sand"@ != "sett"@) by {
        assert("sand"@[1] != "sett"@[1]);
    }
    assert("sand"@ != "unhewn_cobblestone"@) by {
        assert("sand"@[0] != "unhewn_cobblestone"@[0]);
    }
    assert("sand"@ != "ground"@) by {
        assert("sand"@[0] != "ground"@[0]);
    }
    assert("sand"@ != "earth"@) by {
        assert("sand"@[0] != "earth"@[0]);
    }
    assert("sand"@ != "grass"@) by {
        assert("sand"@[0] != "grass"@[0]);
    }
    assert("sand"@ != "mud"@) by {
        assert("sand"@[0] != "mud"@[0]);
    }
    assert("sand"@ != "dirt"@) by {
        assert("sand"@[0] != "dirt"@[0]);
    }
    assert("sand"@ != "compacted"@) by {
        assert("sand"@[0] != "compacted"@[0]);
    }
}

/// The smoothness names are told apart from each other.
proof fn lemma_smoothness_names_distinct()
    ensures
        "good"@ != "excellent"@,
        "intermediate"@ != "excellent"@,
        "intermediate"@ != "good"@,
        "bad"@ != "excellent"@,
        "bad"@ != "good"@,
        "bad"@ != "intermediate"@,
        "very_bad"@ != "excellent"@,
        "very_bad"@ != "good"@,
        "very_bad"@ != "intermediate"@,
        "very_bad"@ != "bad"@,
        "horrible"@ != "excellent"@,
        "horrible"@ != "good"@,
        "horrible"@ != "intermediate"@,
        "horrible"@ != "bad"@,
        "horrible"@ != "very_bad"@,
        "very_horrible"@ != "excellent"@,
        "very_horrible"@ != "good"@,
        "very_horrible"@ != "intermediate"@,
        "very_horrible"@ != "bad"@,
        "very_horrible"@ != "very_bad"@,
        "very_horrible"@ != "horrible"@,
        "impassable"@ != "excellent"@,
        "impassable"@ != "good"@,
        "impassable"@ != "intermediate"@,
        "impassable"@ != "bad"@,
        "impassable"@ != "very_bad"@,
        "impassable"@ != "horrible"@,
        "impassable"@ != "very_horrible"@,
{
    reveal_strlit("excellent");
    reveal_strlit("good");
    reveal_strlit("intermediate");
    reveal_strlit("bad");
    reveal_strlit("very_bad");
    reveal_strlit("horrible");
    reveal_strlit("very_horrible");
    reveal_strlit("impassable");
    assert("good"@ != "excellent"@) by {
        assert("good"@[0] != "excellent"@[0]);
    }
    assert("intermediate"@ != "excellent"@) by {
        assert("intermediate"@[0] != "excellent"@[0]);
    }
    assert("intermediate"@ != "good"@) by {
        assert("intermediate"@[0] != "good"@[0]);
    }
    assert("bad"@ != "excellent"@) by {
        assert("bad"@[0] != "excellent"@[0]);
    }
    assert("bad"@ != "good"@) by {
        assert("bad"@[0] != "good"@[0]);
    }
    assert("bad"@ != "intermediate"@) by {
        assert("bad"@[0] != "intermediate"@[0]);
    }
    assert("very_bad"@ != "excellent"@) by {
        assert("very_bad"@[0] != "excellent"@[0]);
    }
    assert("very_bad"@ != "good"@) by {
        assert("very_bad"@[0] != "good"@[0]);
    }
    assert("very_bad"@ != "intermediate"@) by {
        assert("very_bad"@[0] != "intermediate"@[0]);
    }
    assert("very_bad"@ != "bad"@) by {
        assert("very_bad"@[0] != "bad"@[0]);
    }
    assert("horrible"@ != "excellent"@) by {
        assert("horrible"@[0] != "excellent"@[0]);
    }
    assert("horrible"@ != "good"@) by {
        assert("horrible"@[0] != "good"@[0]);
    }
    assert("horrible"@ != "intermediate"@) by {
        assert("horrible"@[0] != "intermediate"@[0]);
    }
    assert("horrible"@ != "bad"@) by {
        assert("horrible"@[0] != "bad"@[0]);
    }
    assert("horrible"@ != "very_bad"@) by {
        assert("horrible"@[0] != "very_bad"@[0]);
    }
    assert("very_horrible"@ != "excellent"@) by {
        assert("very_horrible"@[0] != "excellent"@[0]);
    }
    assert("very_horrible"@ != "good"@) by {
        assert("very_horrible"@[0] != "good"@[0]);
    }
    assert("very_horrible"@ != "intermediate"@) by {
        assert("very_horrible"@[0] != "intermediate"@[0]);
    }
    assert("very_horrible"@ != "bad"@) by {
        assert("very_horrible"@[0] != "bad"@[0]);
    }
    assert("very_horrible"@ != "very_bad"@) by {
        assert("very_horrible"@[5] != "very_bad"@[5]);
    }
    assert("very_horrible"@ != "horrible"@) by {
        assert("very_horrible"@[0] != "horrible"@[0]);
    }
    assert("impassable"@ != "excellent"@) by {
        assert("impassable"@[0] != "excellent"@[0]);
    }
    assert("impassable"@ != "good"@) by {
        assert("impassable"@[0] != "good"@[0]);
    }
    assert("impassable"@ != "intermediate"@) by {
        assert("impassable"@[1] != "intermediate"@[1]);
    }
    assert("impassable"@ != "bad"@) by {
        assert("impassable"@[0] != "bad"@[0]);
    }
    assert("impassable"@ != "very_bad"@) by {
        assert("impassable"@[0] != "very_bad"@[0]);
    }
    assert("impassable"@ != "horrible"@) by {
        assert("impassable"@[0] != "horrible"@[0]);
    }
    assert("impassable"@ != "very_horrible"@) by {
        assert("impassable"@[0] != "very_horrible"@[0]);
    }
}

/// Law: the built-in surface value of an edge is the OSM `surface` value
/// that classifies as its surface class, so a way tagged with it reads
/// back as that class; distinct known classes have distinct values, and
/// only the unknown surface has none.
pub proof fn lemma_surface_name_round_trip(s: SurfaceClass, tags: OsmTags)
    ensures
        surface_tag(s) is None <==> s == SurfaceClass::Unknown,
        surface_tag(s) is Some && tag_value(tags, "surface"@) == surface_tag(s) ==> surface_of(tags) == s,
{
    lemma_surface_names_distinct();
    reveal_strlit("asphalt");
    reveal_strlit("paved");
    reveal_strlit("concrete");
    reveal_strlit("concrete:lanes");
    reveal_strlit("concrete:plates");
    reveal_strlit("gravel");
    reveal_strlit("fine_gravel");
    reveal_strlit("pebblestone");
    reveal_strlit("cobblestone");
    reveal_strlit("sett");
    reveal_strlit("unhewn_cobblestone");
    reveal_strlit("ground");
    reveal_strlit("earth");
    reveal_strlit("grass");
    reveal_strlit("mud");
    reveal_strlit("dirt");
    reveal_strlit("compacted");
    reveal_strlit("sand");
}

/// Law: two surface classes with the same built-in value are the same.
pub proof fn lemma_surface_name_injective(a: SurfaceClass, b: SurfaceClass)
    requires
        surface_tag(a) is Some,
        surface_tag(a) == surface_tag(b),
    ensures
        a == b,
{
    lemma_surface_names_distinct();
}

/// Law: the built-in smoothness value of an edge is the OSM `smoothness`
/// value that classifies as its smoothness class; distinct known classes
/// have distinct values, and only the unknown smoothness has none.
pub proof fn lemma_smoothness_name_round_trip(s: SmoothnessClass, tags: OsmTags)
    ensures
        smoothness_tag(s) is None <==> s == SmoothnessClass::Unknown,
        smoothness_tag(s) is Some && tag_value(tags, "smoothness"@) == smoothness_tag(s) ==> smoothness_of(tags)
            == s,
{
    lemma_smoothness_names_distinct();
    reveal_strlit("excellent");
    reveal_strlit("good");
    reveal_strlit("intermediate");
    reveal_strlit("bad");
    reveal_strlit("very_bad");
    reveal_strlit("horrible");
    reveal_strlit("very_horrible");
    reveal_strlit("impassable");
}

/// Law: two smoothness classes with the same built-in value are the same.
pub proof fn lemma_smoothness_name_injective(a: SmoothnessClass, b: SmoothnessClass)
    requires
        smoothness_tag(a) is Some,
        smoothness_tag(a) == smoothness_tag(b),
    ensures
        a == b,
{
    lemma_smoothness_names_distinct();
}

/// The highway values are pairwise distinct.
proof fn lemma_highway_names_distinct()
    ensures
        "motorway_link"@ != "motorway"@,
        "trunk"@ != "motorway"@,
        "trunk"@ != "motorway_link"@,
        "trunk_link"@ != "motorway"@,
        "trunk_link"@ != "motorway_link"@,
        "trunk_link"@ != "trunk"@,
        "primary"@ != "motorway"@,
        "primary"@ != "motorway_link"@,
        "primary"@ != "trunk"@,
        "primary"@ != "trunk_link"@,
        "primary_link"@ != "motorway"@,
        "primary_link"@ != "motorway_link"@,
        "primary_link"@ != "trunk"@,
        "primary_link"@ != "trunk_link"@,
        "primary_link"@ != "primary"@,
        "secondary"@ != "motorway"@,
        "secondary"@ != "motorway_link"@,
        "secondary"@ != "trunk"@,
        "secondary"@ != "trunk_link"@,
        "secondary"@ != "primary"@,
        "secondary"@ != "primary_link"@,
        "secondary_link"@ != "motorway"@,
        "secondary_link"@ != "motorway_link"@,
        "secondary_link"@ != "trunk"@,
        "secondary_link"@ != "trunk_link"@,
        "secondary_link"@ != "primary"@,
        "secondary_link"@ != "primary_link"@,
        "secondary_link"@ != "secondary"@,
        "tertiary"@ != "motorway"@,
        "tertiary"@ != "motorway_link"@,
        "tertiary"@ != "trunk"@,
        "tertiary"@ != "trunk_link"@,
        "tertiary"@ != "primary"@,
        "tertiary"@ != "primary_link"@,
        "tertiary"@ != "secondary"@,
        "tertiary"@ != "secondary_link"@,
        "tertiary_link"@ != "motorway"@,
        "tertiary_link"@ != "motorway_link"@,
        "tertiary_link"@ != "trunk"@,
        "tertiary_link"@ != "trunk_link"@,
        "tertiary_link"@ != "primary"@,
        "tertiary_link"@ != "primary_link"@,
        "tertiary_link"@ != "secondary"@,
        "tertiary_link"@ != "secondary_link"@,
        "tertiary_link"@ != "tertiary"@,
        "residential"@ != "motorway"@,
        "residential"@ != "motorway_link"@,
        "residential"@ != "trunk"@,
        "residential"@ != "trunk_link"@,
        "residential"@ != "primary"@,
        "residential"@ != "primary_link"@,
        "residential"@ != "secondary"@,
        "residential"@ != "secondary_link"@,
        "residential"@ != "tertiary"@,
        "residential"@ != "tertiary_link"@,
        "unclassified"@ != "motorway"@,
        "unclassified"@ != "motorway_link"@,
        "unclassified"@ != "trunk"@,
        "unclassified"@ != "trunk_link"@,
        "unclassified"@ != "primary"@,
        "unclassified"@ != "primary_link"@,
        "unclassified"@ != "secondary"@,
        "unclassified"@ != "secondary_link"@,
        "unclassified"@ != "tertiary"@,
        "unclassified"@ != "tertiary_link"@,
        "unclassified"@ != "residential"@,
        "living_street"@ != "motorway"@,
        "living_street"@ != "motorway_link"@,
        "living_street"@ != "trunk"@,
        "living_street"@ != "trunk_link"@,
        "living_street"@ != "primary"@,
        "living_street"@ != "primary_link"@,
        "living_street"@ != "secondary"@,
        "living_street"@ != "secondary_link"@,
        "living_street"@ != "tertiary"@,
        "living_street"@ != "tertiary_link"@,
        "living_street"@ != "residential"@,
        "living_street"@ != "unclassified"@,
        "service"@ != "motorway"@,
        "service"@ != "motorway_link"@,
        "service"@ != "trunk"@,
        "service"@ != "trunk_link"@,
        "service"@ != "primary"@,
        "service"@ != "primary_link"@,
        "service"@ != "secondary"@,
        "service"@ != "secondary_link"@,
        "service"@ != "tertiary"@,
        "service"@ != "tertiary_link"@,
        "service"@ != "residential"@,
        "service"@ != "unclassified"@,
        "service"@ != "living_street"@,
        "track"@ != "motorway"@,
        "track"@ != "motorway_link"@,
        "track"@ != "trunk"@,
        "track"@ != "trunk_link"@,
        "track"@ != "primary"@,
        "track"@ != "primary_link"@,
        "track"@ != "secondary"@,
        "track"@ != "secondary_link"@,
        "track"@ != "tertiary"@,
        "track"@ != "tertiary_link"@,
        "track"@ != "residential"@,
        "track"@ != "unclassified"@,
        "track"@ != "living_street"@,
        "track"@ != "service"@,
        "path"@ != "motorway"@,
        "path"@ != "motorway_link"@,
        "path"@ != "trunk"@,
        "path"@ != "trunk_link"@,
        "path"@ != "primary"@,
        "path"@ != "primary_link"@,
        "path"@ != "secondary"@,
        "path"@ != "secondary_link"@,
        "path"@ != "tertiary"@,
        "path"@ != "tertiary_link"@,
        "path"@ != "residential"@,
        "path"@ != "unclassified"@,
        "path"@ != "living_street"@,
        "path"@ != "service"@,
        "path"@ != "track"@,
        "cycleway"@ != "motorway"@,
        "cycleway"@ != "motorway_link"@,
        "cycleway"@ != "trunk"@,
        "cycleway"@ != "trunk_link"@,
        "cycleway"@ != "primary"@,
        "cycleway"@ != "primary_link"@,
        "cycleway"@ != "secondary"@,
        "cycleway"@ != "secondary_link"@,
        "cycleway"@ != "tertiary"@,
        "cycleway"@ != "tertiary_link"@,
        "cycleway"@ != "residential"@,
        "cycleway"@ != "unclassified"@,
        "cycleway"@ != "living_street"@,
        "cycleway"@ != "service"@,
        "cycleway"@ != "track"@,
        "cycleway"@ != "path"@,
        "footway"@ != "motorway"@,
        "footway"@ != "motorway_link"@,
        "footway"@ != "trunk"@,
        "footway"@ != "trunk_link"@,
        "footway"@ != "primary"@,
        "footway"@ != "primary_link"@,
        "footway"@ != "secondary"@,
        "footway"@ != "secondary_link"@,
        "footway"@ != "tertiary"@,
        "footway"@ != "tertiary_link"@,
        "footway"@ != "residential"@,
        "footway"@ != "unclassified"@,
        "footway"@ != "living_street"@,
        "footway"@ != "service"@,
        "footway"@ != "track"@,
        "footway"@ != "path"@,
        "footway"@ != "cycleway"@,
        "pedestrian"@ != "motorway"@,
        "pedestrian"@ != "motorway_link"@,
        "pedestrian"@ != "trunk"@,
        "pedestrian"@ != "trunk_link"@,
        "pedestrian"@ != "primary"@,
        "pedestrian"@ != "primary_link"@,
        "pedestrian"@ != "secondary"@,
        "pedestrian"@ != "secondary_link"@,
        "pedestrian"@ != "tertiary"@,
        "pedestrian"@ != "tertiary_link"@,
        "pedestrian"@ != "residential"@,
        "pedestrian"@ != "unclassified"@,
        "pedestrian"@ != "living_street"@,
        "pedestrian"@ != "service"@,
        "pedestrian"@ != "track"@,
        "pedestrian"@ != "path"@,
        "pedestrian"@ != "cycleway"@,
        "pedestrian"@ != "footway"@,
        "steps"@ != "motorway"@,
        "steps"@ != "motorway_link"@,
        "steps"@ != "trunk"@,
        "steps"@ != "trunk_link"@,
        "steps"@ != "primary"@,
        "steps"@ != "primary_link"@,
        "steps"@ != "secondary"@,
        "steps"@ != "secondary_link"@,
        "steps"@ != "tertiary"@,
        "steps"@ != "tertiary_link"@,
        "steps"@ != "residential"@,
        "steps"@ != "unclassified"@,
        "steps"@ != "living_street"@,
        "steps"@ != "service"@,
        "steps"@ != "track"@,
        "steps"@ != "path"@,
        "steps"@ != "cycleway"@,
        "steps"@ != "footway"@,
        "steps"@ != "pedestrian"@,
        "bridleway"@ != "motorway"@,
        "bridleway"@ != "motorway_link"@,
        "bridleway"@ != "trunk"@,
        "bridleway"@ != "trunk_link"@,
        "bridleway"@ != "primary"@,
        "bridleway"@ != "primary_link"@,
        "bridleway"@ != "secondary"@,
        "bridleway"@ != "secondary_link"@,
        "bridleway"@ != "tertiary"@,
        "bridleway"@ != "tertiary_link"@,
        "bridleway"@ != "residential"@,
        "bridleway"@ != "unclassified"@,
        "bridleway"@ != "living_street"@,
        "bridleway"@ != "service"@,
        "bridleway"@ != "track"@,
        "bridleway"@ != "path"@,
        "bridleway"@ != "cycleway"@,
        "bridleway"@ != "footway"@,
        "bridleway"@ != "pedestrian"@,
        "bridleway"@ != "steps"@,
{
    reveal_strlit("motorway");
    reveal_strlit("motorway_link");
    reveal_strlit("trunk");
    reveal_strlit("trunk_link");
    reveal_strlit("primary");
    reveal_strlit("primary_link");
    reveal_strlit("secondary");
    reveal_strlit("secondary_link");
    reveal_strlit("tertiary");
    reveal_strlit("tertiary_link");
    reveal_strlit("residential");
    reveal_strlit("unclassified");
    reveal_strlit("living_street");
    reveal_strlit("service");
    reveal_strlit("track");
    reveal_strlit("path");
    reveal_strlit("cycleway");
    reveal_strlit("footway");
    reveal_strlit("pedestrian");
    reveal_strlit("steps");
    reveal_strlit("bridleway");
    assert("motorway_link"@ != "motorway"@) by {
        assert("motorway_link"@.len() != "motorway"@.len());
    }
    assert("trunk"@ != "motorway"@) by {
        assert("trunk"@[0] != "motorway"@[0]);
    }
    assert("trunk"@ != "motorway_link"@) by {
        assert("trunk"@[0] != "motorway_link"@[0]);
    }
    assert("trunk_link"@ != "motorway"@) by {
        assert("trunk_link"@[0] != "motorway"@[0]);
    }
    assert("trunk_link"@ != "motorway_link"@) by {
        assert("trunk_link"@[0] != "motorway_link"@[0]);
    }
    assert("trunk_link"@ != "trunk"@) by {
        assert("trunk_link"@.len() != "trunk"@.len());
    }
    assert("primary"@ != "motorway"@) by {
        assert("primary"@[0] != "motorway"@[0]);
    }
    assert("primary"@ != "motorway_link"@) by {
        assert("primary"@[0] != "motorway_link"@[0]);
    }
    assert("primary"@ != "trunk"@) by {
        assert("primary"@[0] != "trunk"@[0]);
    }
    assert("primary"@ != "trunk_link"@) by {
        assert("primary"@[0] != "trunk_link"@[0]);
    }
    assert("primary_link"@ != "motorway"@) by {
        assert("primary_link"@[0] != "motorway"@[0]);
    }
    assert("primary_link"@ != "motorway_link"@) by {
        assert("primary_link"@[0] != "motorway_link"@[0]);
    }
    assert("primary_link"@ != "trunk"@) by {
        assert("primary_link"@[0] != "trunk"@[0]);
    }
    assert("primary_link"@ != "trunk_link"@) by {
        assert("primary_link"@[0] != "trunk_link"@[0]);
    }
    assert("primary_link"@ != "primary"@) by {
        assert("primary_link"@.len() != "primary"@.len());
    }
    assert("secondary"@ != "motorway"@) by {
        assert("secondary"@[0] != "motorway"@[0]);
    }
    assert("secondary"@ != "motorway_link"@) by {
        assert("secondary"@[0] != "motorway_link"@[0]);
    }
    assert("secondary"@ != "trunk"@) by {
        assert("secondary"@[0] != "trunk"@[0]);
    }
    assert("secondary"@ != "trunk_link"@) by {
        assert("secondary"@[0] != "trunk_link"@[0]);
    }
    assert("secondary"@ != "primary"@) by {
        assert("secondary"@[0] != "primary"@[0]);
    }
    assert("secondary"@ != "primary_link"@) by {
        assert("secondary"@[0] != "primary_link"@[0]);
    }
    assert("secondary_link"@ != "motorway"@) by {
        assert("secondary_link"@[0] != "motorway"@[0]);
    }
    assert("secondary_link"@ != "motorway_link"@) by {
        assert("secondary_link"@[0] != "motorway_link"@[0]);
    }
    assert("secondary_link"@ != "trunk"@) by {
        assert("secondary_link"@[0] != "trunk"@[0]);
    }
    assert("secondary_link"@ != "trunk_link"@) by {
        assert("secondary_link"@[0] != "trunk_link"@[0]);
    }
    assert("secondary_link"@ != "primary"@) by {
        assert("secondary_link"@[0] != "primary"@[0]);
    }
    assert("secondary_link"@ != "primary_link"@) by {
        assert("secondary_link"@[0] != "primary_link"@[0]);
    }
    assert("secondary_link"@ != "secondary"@) by {
        assert("secondary_link"@.len() != "secondary"@.len());
    }
    assert("tertiary"@ != "motorway"@) by {
        assert("tertiary"@[0] != "motorway"@[0]);
    }
    assert("tertiary"@ != "motorway_link"@) by {
        assert("tertiary"@[0] != "motorway_link"@[0]);
    }
    assert("tertiary"@ != "trunk"@) by {
        assert("tertiary"@[1] != "trunk"@[1]);
    }
    assert("tertiary"@ != "trunk_link"@) by {
        assert("tertiary"@[1] != "trunk_link"@[1]);
    }
    assert("tertiary"@ != "primary"@) by {
        assert("tertiary"@[0] != "primary"@[0]);
    }
    assert("tertiary"@ != "primary_link"@) by {
        assert("tertiary"@[0] != "primary_link"@[0]);
    }
    assert("tertiary"@ != "secondary"@) by {
        assert("tertiary"@[0] != "secondary"@[0]);
    }
    assert("tertiary"@ != "secondary_link"@) by {
        assert("tertiary"@[0] != "secondary_link"@[0]);
    }
    assert("tertiary_link"@ != "motorway"@) by {
        assert("tertiary_link"@[0] != "motorway"@[0]);
    }
    assert("tertiary_link"@ != "motorway_link"@) by {
        assert("tertiary_link"@[0] != "motorway_link"@[0]);
    }
    assert("tertiary_link"@ != "trunk"@) by {
        assert("tertiary_link"@[1] != "trunk"@[1]);
    }
    assert("tertiary_link"@ != "trunk_link"@) by {
        assert("tertiary_link"@[1] != "trunk_link"@[1]);
    }
    assert("tertiary_link"@ != "primary"@) by {
        assert("tertiary_link"@[0] != "primary"@[0]);
    }
    assert("tertiary_link"@ != "primary_link"@) by {
        assert("tertiary_link"@[0] != "primary_link"@[0]);
    }
    assert("tertiary_link"@ != "secondary"@) by {
        assert("tertiary_link"@[0] != "secondary"@[0]);
    }
    assert("tertiary_link"@ != "secondary_link"@) by {
        assert("tertiary_link"@[0] != "secondary_link"@[0]);
    }
    assert("tertiary_link"@ != "tertiary"@) by {
        assert("tertiary_link"@.len() != "tertiary"@.len());
    }
    assert("residential"@ != "motorway"@) by {
        assert("residential"@[0] != "motorway"@[0]);
    }
    assert("residential"@ != "motorway_link"@) by {
        assert("residential"@[0] != "motorway_link"@[0]);
    }
    assert("residential"@ != "trunk"@) by {
        assert("residential"@[0] != "trunk"@[0]);
    }
    assert("residential"@ != "trunk_link"@) by {
        assert("residential"@[0] != "trunk_link"@[0]);
    }
    assert("residential"@ != "primary"@) by {
        assert("residential"@[0] != "primary"@[0]);
    }
    assert("residential"@ != "primary_link"@) by {
        assert("residential"@[0] != "primary_link"@[0]);
    }
    assert("residential"@ != "secondary"@) by {
        assert("residential"@[0] != "secondary"@[0]);
    }
    assert("residential"@ != "secondary_link"@) by {
        assert("residential"@[0] != "secondary_link"@[0]);
    }
    assert("residential"@ != "tertiary"@) by {
        assert("residential"@[0] != "tertiary"@[0]);
    }
    assert("residential"@ != "tertiary_link"@) by {
        assert("residential"@[0] != "tertiary_link"@[0]);
    }
    assert("unclassified"@ != "motorway"@) by {
        assert("unclassified"@[0] != "motorway"@[0]);
    }
    assert("unclassified"@ != "motorway_link"@) by {
        assert("unclassified"@[0] != "motorway_link"@[0]);
    }
    assert("unclassified"@ != "trunk"@) by {
        assert("unclassified"@[0] != "trunk"@[0]);
    }
    assert("unclassified"@ != "trunk_link"@) by {
        assert("unclassified"@[0] != "trunk_link"@[0]);
    }
    assert("unclassified"@ != "primary"@) by {
        assert("unclassified"@[0] != "primary"@[0]);
    }
    assert("unclassified"@ != "primary_link"@) by {
        assert("unclassified"@[0] != "primary_link"@[0]);
    }
    assert("unclassified"@ != "secondary"@) by {
        assert("unclassified"@[0] != "secondary"@[0]);
    }
    assert("unclassified"@ != "secondary_link"@) by {
        assert("unclassified"@[0] != "secondary_link"@[0]);
    }
    assert("unclassified"@ != "tertiary"@) by {
        assert("unclassified"@[0] != "tertiary"@[0]);
    }
    assert("unclassified"@ != "tertiary_link"@) by {
        assert("unclassified"@[0] != "tertiary_link"@[0]);
    }
    assert("unclassified"@ != "residential"@) by {
        assert("unclassified"@[0] != "residential"@[0]);
    }
    assert("living_street"@ != "motorway"@) by {
        assert("living_street"@[0] != "motorway"@[0]);
    }
    assert("living_street"@ != "motorway_link"@) by {
        assert("living_street"@[0] != "motorway_link"@[0]);
    }
    assert("living_street"@ != "trunk"@) by {
        assert("living_street"@[0] != "trunk"@[0]);
    }
    assert("living_street"@ != "trunk_link"@) by {
        assert("living_street"@[0] != "trunk_link"@[0]);
    }
    assert("living_street"@ != "primary"@) by {
        assert("living_street"@[0] != "primary"@[0]);
    }
    assert("living_street"@ != "primary_link"@) by {
        assert("living_street"@[0] != "primary_link"@[0]);
    }
    assert("living_street"@ != "secondary"@) by {
        assert("living_street"@[0] != "secondary"@[0]);
    }
    assert("living_street"@ != "secondary_link"@) by {
        assert("living_street"@[0] != "secondary_link"@[0]);
    }
    assert("living_street"@ != "tertiary"@) by {
        assert("living_street"@[0] != "tertiary"@[0]);
    }
    assert("living_street"@ != "tertiary_link"@) by {
        assert("living_street"@[0] != "tertiary_link"@[0]);
    }
    assert("living_street"@ != "residential"@) by {
        assert("living_street"@[0] != "residential"@[0]);
    }
    assert("living_street"@ != "unclassified"@) by {
        assert("living_street"@[0] != "unclassified"@[0]);
    }
    assert("service"@ != "motorway"@) by {
        assert("service"@[0] != "motorway"@[0]);
    }
    assert("service"@ != "motorway_link"@) by {
        assert("service"@[0] != "motorway_link"@[0]);
    }
    assert("service"@ != "trunk"@) by {
        assert("service"@[0] != "trunk"@[0]);
    }
    assert("service"@ != "trunk_link"@) by {
        assert("service"@[0] != "trunk_link"@[0]);
    }
    assert("service"@ != "primary"@) by {
        assert("service"@[0] != "primary"@[0]);
    }
    assert("service"@ != "primary_link"@) by {
        assert("service"@[0] != "primary_link"@[0]);
    }
    assert("service"@ != "secondary"@) by {
        assert("service"@[2] != "secondary"@[2]);
    }
    assert("service"@ != "secondary_link"@) by {
        assert("service"@[2] != "secondary_link"@[2]);
    }
    assert("service"@ != "tertiary"@) by {
        assert("service"@[0] != "tertiary"@[0]);
    }
    assert("service"@ != "tertiary_link"@) by {
        assert("service"@[0] != "tertiary_link"@[0]);
    }
    assert("service"@ != "residential"@) by {
        assert("service"@[0] != "residential"@[0]);
    }
    assert("service"@ != "unclassified"@) by {
        assert("service"@[0] != "unclassified"@[0]);
    }
    assert("service"@ != "living_street"@) by {
        assert("service"@[0] != "living_street"@[0]);
    }
    assert("track"@ != "motorway"@) by {
        assert("track"@[0] != "motorway"@[0]);
    }
    assert("track"@ != "motorway_link"@) by {
        assert("track"@[0] != "motorway_link"@[0]);
    }
    assert("track"@ != "trunk"@) by {
        assert("track"@[2] != "trunk"@[2]);
    }
    assert("track"@ != "trunk_link"@) by {
        assert("track"@[2] != "trunk_link"@[2]);
    }
    assert("track"@ != "primary"@) by {
        assert("track"@[0] != "primary"@[0]);
    }
    assert("track"@ != "primary_link"@) by {
        assert("track"@[0] != "primary_link"@[0]);
    }
    assert("track"@ != "secondary"@) by {
        assert("track"@[0] != "secondary"@[0]);
    }
    assert("track"@ != "secondary_link"@) by {
        assert("track"@[0] != "secondary_link"@[0]);
    }
    assert("track"@ != "tertiary"@) by {
        assert("track"@[1] != "tertiary"@[1]);
    }
    assert("track"@ != "tertiary_link"@) by {
        assert("track"@[1] != "tertiary_link"@[1]);
    }
    assert("track"@ != "residential"@) by {
        assert("track"@[0] != "residential"@[0]);
    }
    assert("track"@ != "unclassified"@) by {
        assert("track"@[0] != "unclassified"@[0]);
    }
    assert("track"@ != "living_street"@) by {
        assert("track"@[0] != "living_street"@[0]);
    }
    assert("track"@ != "service"@) by {
        assert("track"@[0] != "service"@[0]);
    }
    assert("path"@ != "motorway"@) by {
        assert("path"@[0] != "motorway"@[0]);
    }
    assert("path"@ != "motorway_link"@) by {
        assert("path"@[0] != "motorway_link"@[0]);
    }
    assert("path"@ != "trunk"@) by {
        assert("path"@[0] != "trunk"@[0]);
    }
    assert("path"@ != "trunk_link"@) by {
        assert("path"@[0] != "trunk_link"@[0]);
    }
    assert("path"@ != "primary"@) by {
        assert("path"@[1] != "primary"@[1]);
    }
    assert("path"@ != "primary_link"@) by {
        assert("path"@[1] != "primary_link"@[1]);
    }
    assert("path"@ != "secondary"@) by {
        assert("path"@[0] != "secondary"@[0]);
    }
    assert("path"@ != "secondary_link"@) by {
        assert("path"@[0] != "secondary_link"@[0]);
    }
    assert("path"@ != "tertiary"@) by {
        assert("path"@[0] != "tertiary"@[0]);
    }
    assert("path"@ != "tertiary_link"@) by {
        assert("path"@[0] != "tertiary_link"@[0]);
    }
    assert("path"@ != "residential"@) by {
        assert("path"@[0] != "residential"@[0]);
    }
    assert("path"@ != "unclassified"@) by {
        assert("path"@[0] != "unclassified"@[0]);
    }
    assert("path"@ != "living_street"@) by {
        assert("path"@[0] != "living_street"@[0]);
    }
    assert("path"@ != "service"@) by {
        assert("path"@[0] != "service"@[0]);
    }
    assert("path"@ != "track"@) by {
        assert("path"@[0] != "track"@[0]);
    }
    assert("cycleway"@ != "motorway"@) by {
        assert("cycleway"@[0] != "motorway"@[0]);
    }
    assert("cycleway"@ != "motorway_link"@) by {
        assert("cycleway"@[0] != "motorway_link"@[0]);
    }
    assert("cycleway"@ != "trunk"@) by {
        assert("cycleway"@[0] != "trunk"@[0]);
    }
    assert("cycleway"@ != "trunk_link"@) by {
        assert("cycleway"@[0] != "trunk_link"@[0]);
    }
    assert("cycleway"@ != "primary"@) by {
        assert("cycleway"@[0] != "primary"@[0]);
    }
    assert("cycleway"@ != "primary_link"@) by {
        assert("cycleway"@[0] != "primary_link"@[0]);
    }
    assert("cycleway"@ != "secondary"@) by {
        assert("cycleway"@[0] != "secondary"@[0]);
    }
    assert("cycleway"@ != "secondary_link"@) by {
        assert("cycleway"@[0] != "secondary_link"@[0]);
    }
    assert("cycleway"@ != "tertiary"@) by {
        assert("cycleway"@[0] != "tertiary"@[0]);
    }
    assert("cycleway"@ != "tertiary_link"@) by {
        assert("cycleway"@[0] != "tertiary_link"@[0]);
    }
    assert("cycleway"@ != "residential"@) by {
        assert("cycleway"@[0] != "residential"@[0]);
    }
    assert("cycleway"@ != "unclassified"@) by {
        assert("cycleway"@[0] != "unclassified"@[0]);
    }
    assert("cycleway"@ != "living_street"@) by {
        assert("cycleway"@[0] != "living_street"@[0]);
    }
    assert("cycleway"@ != "service"@) by {
        assert("cycleway"@[0] != "service"@[0]);
    }
    assert("cycleway"@ != "track"@) by {
        assert("cycleway"@[0] != "track"@[0]);
    }
    assert("cycleway"@ != "path"@) by {
        assert("cycleway"@[0] != "path"@[0]);
    }
    assert("footway"@ != "motorway"@) by {
        assert("footway"@[0] != "motorway"@[0]);
    }
    assert("footway"@ != "motorway_link"@) by {
        assert("footway"@[0] != "motorway_link"@[0]);
    }
    assert("footway"@ != "trunk"@) by {
        assert("footway"@[0] != "trunk"@[0]);
    }
    assert("footway"@ != "trunk_link"@) by {
        assert("footway"@[0] != "trunk_link"@[0]);
    }
    assert("footway"@ != "primary"@) by {
        assert("footway"@[0] != "primary"@[0]);
    }
    assert("footway"@ != "primary_link"@) by {
        assert("footway"@[0] != "primary_link"@[0]);
    }
    assert("footway"@ != "secondary"@) by {
        assert("footway"@[0] != "secondary"@[0]);
    }
    assert("footway"@ != "secondary_link"@) by {
        assert("footway"@[0] != "secondary_link"@[0]);
    }
    assert("footway"@ != "tertiary"@) by {
        assert("footway"@[0] != "tertiary"@[0]);
    }
    assert("footway"@ != "tertiary_link"@) by {
        assert("footway"@[0] != "tertiary_link"@[0]);
    }
    assert("footway"@ != "residential"@) by {
        assert("footway"@[0] != "residential"@[0]);
    }
    assert("footway"@ != "unclassified"@) by {
        assert("footway"@[0] != "unclassified"@[0]);
    }
    assert("footway"@ != "living_street"@) by {
        assert("footway"@[0] != "living_street"@[0]);
    }
    assert("footway"@ != "service"@) by {
        assert("footway"@[0] != "service"@[0]);
    }
    assert("footway"@ != "track"@) by {
        assert("footway"@[0] != "track"@[0]);
    }
    assert("footway"@ != "path"@) by {
        assert("footway"@[0] != "path"@[0]);
    }
    assert("footway"@ != "cycleway"@) by {
        assert("footway"@[0] != "cycleway"@[0]);
    }
    assert("pedestrian"@ != "motorway"@) by {
        assert("pedestrian"@[0] != "motorway"@[0]);
    }
    assert("pedestrian"@ != "motorway_link"@) by {
        assert("pedestrian"@[0] != "motorway_link"@[0]);
    }
    assert("pedestrian"@ != "trunk"@) by {
        assert("pedestrian"@[0] != "trunk"@[0]);
    }
    assert("pedestrian"@ != "trunk_link"@) by {
        assert("pedestrian"@[0] != "trunk_link"@[0]);
    }
    assert("pedestrian"@ != "primary"@) by {
        assert("pedestrian"@[1] != "primary"@[1]);
    }
    assert("pedestrian"@ != "primary_link"@) by {
        assert("pedestrian"@[1] != "primary_link"@[1]);
    }
    assert("pedestrian"@ != "secondary"@) by {
        assert("pedestrian"@[0] != "secondary"@[0]);
    }
    assert("pedestrian"@ != "secondary_link"@) by {
        assert("pedestrian"@[0] != "secondary_link"@[0]);
    }
    assert("pedestrian"@ != "tertiary"@) by {
        assert("pedestrian"@[0] != "tertiary"@[0]);
    }
    assert("pedestrian"@ != "tertiary_link"@) by {
        assert("pedestrian"@[0] != "tertiary_link"@[0]);
    }
    assert("pedestrian"@ != "residential"@) by {
        assert("pedestrian"@[0] != "residential"@[0]);
    }
    assert("pedestrian"@ != "unclassified"@) by {
        assert("pedestrian"@[0] != "unclassified"@[0]);
    }
    assert("pedestrian"@ != "living_street"@) by {
        assert("pedestrian"@[0] != "living_street"@[0]);
    }
    assert("pedestrian"@ != "service"@) by {
        assert("pedestrian"@[0] != "service"@[0]);
    }
    assert("pedestrian"@ != "track"@) by {
        assert("pedestrian"@[0] != "track"@[0]);
    }
    assert("pedestrian"@ != "path"@) by {
        assert("pedestrian"@[1] != "path"@[1]);
    }
    assert("pedestrian"@ != "cycleway"@) by {
        assert("pedestrian"@[0] != "cycleway"@[0]);
    }
    assert("pedestrian"@ != "footway"@) by {
        assert("pedestrian"@[0] != "footway"@[0]);
    }
    assert("steps"@ != "motorway"@) by {
        assert("steps"@[0] != "motorway"@[0]);
    }
    assert("steps"@ != "motorway_link"@) by {
        assert("steps"@[0] != "motorway_link"@[0]);
    }
    assert("steps"@ != "trunk"@) by {
        assert("steps"@[0] != "trunk"@[0]);
    }
    assert("steps"@ != "trunk_link"@) by {
        assert("steps"@[0] != "trunk_link"@[0]);
    }
    assert("steps"@ != "primary"@) by {
        assert("steps"@[0] != "primary"@[0]);
    }
    assert("steps"@ != "primary_link"@) by {
        assert("steps"@[0] != "primary_link"@[0]);
    }
    assert("steps"@ != "secondary"@) by {
        assert("steps"@[1] != "secondary"@[1]);
    }
    assert("steps"@ != "secondary_link"@) by {
        assert("steps"@[1] != "secondary_link"@[1]);
    }
    assert("steps"@ != "tertiary"@) by {
        assert("steps"@[0] != "tertiary"@[0]);
    }
    assert("steps"@ != "tertiary_link"@) by {
        assert("steps"@[0] != "tertiary_link"@[0]);
    }
    assert("steps"@ != "residential"@) by {
        assert("steps"@[0] != "residential"@[0]);
    }
    assert("steps"@ != "unclassified"@) by {
        assert("steps"@[0] != "unclassified"@[0]);
    }
    assert("steps"@ != "living_street"@) by {
        assert("steps"@[0] != "living_street"@[0]);
    }
    assert("steps"@ != "service"@) by {
        assert("steps"@[1] != "service"@[1]);
    }
    assert("steps"@ != "track"@) by {
        assert("steps"@[0] != "track"@[0]);
    }
    assert("steps"@ != "path"@) by {
        assert("steps"@[0] != "path"@[0]);
    }
    assert("steps"@ != "cycleway"@) by {
        assert("steps"@[0] != "cycleway"@[0]);
    }
    assert("steps"@ != "footway"@) by {
        assert("steps"@[0] != "footway"@[0]);
    }
    assert("steps"@ != "pedestrian"@) by {
        assert("steps"@[0] != "pedestrian"@[0]);
    }
    assert("bridleway"@ != "motorway"@) by {
        assert("bridleway"@[0] != "motorway"@[0]);
    }
    assert("bridleway"@ != "motorway_link"@) by {
        assert("bridleway"@[0] != "motorway_link"@[0]);
    }
    assert("bridleway"@ != "trunk"@) by {
        assert("bridleway"@[0] != "trunk"@[0]);
    }
    assert("bridleway"@ != "trunk_link"@) by {
        assert("bridleway"@[0] != "trunk_link"@[0]);
    }
    assert("bridleway"@ != "primary"@) by {
        assert("bridleway"@[0] != "primary"@[0]);
    }
    assert("bridleway"@ != "primary_link"@) by {
        assert("bridleway"@[0] != "primary_link"@[0]);
    }
    assert("bridleway"@ != "secondary"@) by {
        assert("bridleway"@[0] != "secondary"@[0]);
    }
    assert("bridleway"@ != "secondary_link"@) by {
        assert("bridleway"@[0] != "secondary_link"@[0]);
    }
    assert("bridleway"@ != "tertiary"@) by {
        assert("bridleway"@[0] != "tertiary"@[0]);
    }
    assert("bridleway"@ != "tertiary_link"@) by {
        assert("bridleway"@[0] != "tertiary_link"@[0]);
    }
    assert("bridleway"@ != "residential"@) by {
        assert("bridleway"@[0] != "residential"@[0]);
    }
    assert("bridleway"@ != "unclassified"@) by {
        assert("bridleway"@[0] != "unclassified"@[0]);
    }
    assert("bridleway"@ != "living_street"@) by {
        assert("bridleway"@[0] != "living_street"@[0]);
    }
    assert("bridleway"@ != "service"@) by {
        assert("bridleway"@[0] != "service"@[0]);
    }
    assert("bridleway"@ != "track"@) by {
        assert("bridleway"@[0] != "track"@[0]);
    }
    assert("bridleway"@ != "path"@) by {
        assert("bridleway"@[0] != "path"@[0]);
    }
    assert("bridleway"@ != "cycleway"@) by {
        assert("bridleway"@[0] != "cycleway"@[0]);
    }
    assert("bridleway"@ != "footway"@) by {
        assert("bridleway"@[0] != "footway"@[0]);
    }
    assert("bridleway"@ != "pedestrian"@) by {
        assert("bridleway"@[0] != "pedestrian"@[0]);
    }
    assert("bridleway"@ != "steps"@) by {
        assert("bridleway"@[0] != "steps"@[0]);
    }
}

/// Law: the built-in highway value of a highway class is the OSM
/// `highway` value that classifies as that class; only ferries and
/// unknown ways have none, and distinct classes have distinct values.
pub proof fn lemma_highway_name_round_trip(h: HighwayClass)
    ensures
        highway_tag(h) is None <==> (h == HighwayClass::Ferry || h == HighwayClass::Unknown),
        highway_tag(h) is Some ==> highway_tag_class(highway_tag(h)->0) == Some(h),
{
    lemma_highway_names_distinct();
    reveal_strlit("motorway");
    reveal_strlit("motorway_link");
    reveal_strlit("trunk");
    reveal_strlit("trunk_link");
    reveal_strlit("primary");
    reveal_strlit("primary_link");
    reveal_strlit("secondary");
    reveal_strlit("secondary_link");
    reveal_strlit("tertiary");
    reveal_strlit("tertiary_link");
    reveal_strlit("residential");
    reveal_strlit("unclassified");
    reveal_strlit("living_street");
    reveal_strlit("service");
    reveal_strlit("track");
    reveal_strlit("path");
    reveal_strlit("cycleway");
    reveal_strlit("footway");
    reveal_strlit("pedestrian");
    reveal_strlit("steps");
    reveal_strlit("bridleway");
}

/// Law: two highway classes with the same built-in value are the same.
pub proof fn lemma_highway_name_injective(a: HighwayClass, b: HighwayClass)
    requires
        highway_tag(a) is Some,
        highway_tag(a) == highway_tag(b),
    ensures
        a == b,
{
    lemma_highway_name_round_trip(a);
    lemma_highway_name_round_trip(b);
}

/// Law: the built-in value of a road class is the highway value of its
/// representative highway class, and that value classifies back into the
/// road class.
pub proof fn lemma_road_class_name(r: RoadClass)
    ensures
        road_class_tag(r) == highway_tag(highway_of_road_class(r)),
        road_class_tag(r) is Some ==> road_class_of(highway_tag_class(road_class_tag(r)->0)->0) == r,
{
    lemma_highway_name_round_trip(highway_of_road_class(r));
}

/// The surface names stay apart with ASCII case ignored.
proof fn lemma_surface_names_apart_ignoring_case()
    ensures
        lower_seq("asphalt"@) != lower_seq("paved"@),
        lower_seq("asphalt"@) != lower_seq("gravel"@),
        lower_seq("asphalt"@) != lower_seq("cobblestone"@),
        lower_seq("asphalt"@) != lower_seq("ground"@),
        lower_seq("asphalt"@) != lower_seq("dirt"@),
        lower_seq("asphalt"@) != lower_seq("sand"@),
        lower_seq("paved"@) != lower_seq("asphalt"@),
        lower_seq("paved"@) != lower_seq("gravel"@),
        lower_seq("paved"@) != lower_seq("cobblestone"@),
        lower_seq("paved"@) != lower_seq("ground"@),
        lower_seq("paved"@) != lower_seq("dirt"@),
        lower_seq("paved"@) != lower_seq("sand"@),
        lower_seq("gravel"@) != lower_seq("asphalt"@),
        lower_seq("gravel"@) != lower_seq("paved"@),
        lower_seq("gravel"@) != lower_seq("cobblestone"@),
        lower_seq("gravel"@) != lower_seq("ground"@),
        lower_seq("gravel"@) != lower_seq("dirt"@),
        lower_seq("gravel"@) != lower_seq("sand"@),
        lower_seq("cobblestone"@) != lower_seq("asphalt"@),
        lower_seq("cobblestone"@) != lower_seq("paved"@),
        lower_seq("cobblestone"@) != lower_seq("gravel"@),
        lower_seq("cobblestone"@) != lower_seq("ground"@),
        lower_seq("cobblestone"@) != lower_seq("dirt"@),
        lower_seq("cobblestone"@) != lower_seq("sand"@),
        lower_seq("ground"@) != lower_seq("asphalt"@),
        lower_seq("ground"@) != lower_seq("paved"@),
        lower_seq("ground"@) != lower_seq("gravel"@),
        lower_seq("ground"@) != lower_seq("cobblestone"@),
        lower_seq("ground"@) != lower_seq("dirt"@),
        lower_seq("ground"@) != lower_seq("sand"@),
        lower_seq("dirt"@) != lower_seq("asphalt"@),
        lower_seq("dirt"@) != lower_seq("paved"@),
        lower_seq("dirt"@) != lower_seq("gravel"@),
        lower_seq("dirt"@) != lower_seq("cobblestone"@),
        lower_seq("dirt"@) != lower_seq("ground"@),
        lower_seq("dirt"@) != lower_seq("sand"@),
        lower_seq("sand"@) != lower_seq("asphalt"@),
        lower_seq("sand"@) != lower_seq("paved"@),
        lower_seq("sand"@) != lower_seq("gravel"@),
        lower_seq("sand"@) != lower_seq("cobblestone"@),
        lower_seq("sand"@) != lower_seq("ground"@),
        lower_seq("sand"@) != lower_seq("dirt"@),
{
    reveal_strlit("asphalt");
    reveal_strlit("paved");
    reveal_strlit("gravel");
    reveal_strlit("cobblestone");
    reveal_strlit("ground");
    reveal_strlit("dirt");
    reveal_strlit("sand");
    assert(lower_seq("asphalt"@) != lower_seq("paved"@)) by {
        assert(lower_seq("asphalt"@)[0] != lower_seq("paved"@)[0]);
    }
    assert(lower_seq("asphalt"@) != lower_seq("gravel"@)) by {
        assert(lower_seq("asphalt"@)[0] != lower_seq("gravel"@)[0]);
    }
    assert(lower_seq("asphalt"@) != lower_seq("cobblestone"@)) by {
        assert(lower_seq("asphalt"@)[0] != lower_seq("cobblestone"@)[0]);
    }
    assert(lower_seq("asphalt"@) != lower_seq("ground"@)) by {
        assert(lower_seq("asphalt"@)[0] != lower_seq("ground"@)[0]);
    }
    assert(lower_seq("asphalt"@) != lower_seq("dirt"@)) by {
        assert(lower_seq("asphalt"@)[0] != lower_seq("dirt"@)[0]);
    }
    assert(lower_seq("asphalt"@) != lower_seq("sand"@)) by {
        assert(lower_seq("asphalt"@)[0] != lower_seq("sand"@)[0]);
    }
    assert(lower_seq("paved"@) != lower_seq("asphalt"@)) by {
        assert(lower_seq("paved"@)[0] != lower_seq("asphalt"@)[0]);
    }
    assert(lower_seq("paved"@) != lower_seq("gravel"@)) by {
        assert(lower_seq("paved"@)[0] != lower_seq("gravel"@)[0]);
    }
    assert(lower_seq("paved"@) != lower_seq("cobblestone"@)) by {
        assert(lower_seq("paved"@)[0] != lower_seq("cobblestone"@)[0]);
    }
    assert(lower_seq("paved"@) != lower_seq("ground"@)) by {
        assert(lower_seq("paved"@)[0] != lower_seq("ground"@)[0]);
    }
    assert(lower_seq("paved"@) != lower_seq("dirt"@)) by {
        assert(lower_seq("paved"@)[0] != lower_seq("dirt"@)[0]);
    }
    assert(lower_seq("paved"@) != lower_seq("sand"@)) by {
        assert(lower_seq("paved"@)[0] != lower_seq("sand"@)[0]);
    }
    assert(lower_seq("gravel"@) != lower_seq("asphalt"@)) by {
        assert(lower_seq("gravel"@)[0] != lower_seq("asphalt"@)[0]);
    }
    assert(lower_seq("gravel"@) != lower_seq("paved"@)) by {
        assert(lower_seq("gravel"@)[0] != lower_seq("paved"@)[0]);
    }
    assert(lower_seq("gravel"@) != lower_seq("cobblestone"@)) by {
        assert(lower_seq("gravel"@)[0] != lower_seq("cobblestone"@)[0]);
    }
    assert(lower_seq("gravel"@) != lower_seq("ground"@)) by {
        assert(lower_seq("gravel"@)[2] != lower_seq("ground"@)[2]);
    }
    assert(lower_seq("gravel"@) != lower_seq("dirt"@)) by {
        assert(lower_seq("gravel"@)[0] != lower_seq("dirt"@)[0]);
    }
    assert(lower_seq("gravel"@) != lower_seq("sand"@)) by {
        assert(lower_seq("gravel"@)[0] != lower_seq("sand"@)[0]);
    }
    assert(lower_seq("cobblestone"@) != lower_seq("asphalt"@)) by {
        assert(lower_seq("cobblestone"@)[0] != lower_seq("asphalt"@)[0]);
    }
    assert(lower_seq("cobblestone"@) != lower_seq("paved"@)) by {
        assert(lower_seq("cobblestone"@)[0] != lower_seq("paved"@)[0]);
    }
    assert(lower_seq("cobblestone"@) != lower_seq("gravel"@)) by {
        assert(lower_seq("cobblestone"@)[0] != lower_seq("gravel"@)[0]);
    }
    assert(lower_seq("cobblestone"@) != lower_seq("ground"@)) by {
        assert(lower_seq("cobblestone"@)[0] != lower_seq("ground"@)[0]);
    }
    assert(lower_seq("cobblestone"@) != lower_seq("dirt"@)) by {
        assert(lower_seq("cobblestone"@)[0] != lower_seq("dirt"@)[0]);
    }
    assert(lower_seq("cobblestone"@) != lower_seq("sand"@)) by {
        assert(lower_seq("cobblestone"@)[0] != lower_seq("sand"@)[0]);
    }
    assert(lower_seq("ground"@) != lower_seq("asphalt"@)) by {
        assert(lower_seq("ground"@)[0] != lower_seq("asphalt"@)[0]);
    }
    assert(lower_seq("ground"@) != lower_seq("paved"@)) by {
        assert(lower_seq("ground"@)[0] != lower_seq("paved"@)[0]);
    }
    assert(lower_seq("ground"@) != lower_seq("gravel"@)) by {
        assert(lower_seq("ground"@)[2] != lower_seq("gravel"@)[2]);
    }
    assert(lower_seq("ground"@) != lower_seq("cobblestone"@)) by {
        assert(lower_seq("ground"@)[0] != lower_seq("cobblestone"@)[0]);
    }
    assert(lower_seq("ground"@) != lower_seq("dirt"@)) by {
        assert(lower_seq("ground"@)[0] != lower_seq("dirt"@)[0]);
    }
    assert(lower_seq("ground"@) != lower_seq("sand"@)) by {
        assert(lower_seq("ground"@)[0] != lower_seq("sand"@)[0]);
    }
    assert(lower_seq("dirt"@) != lower_seq("asphalt"@)) by {
        assert(lower_seq("dirt"@)[0] != lower_seq("asphalt"@)[0]);
    }
    assert(lower_seq("dirt"@) != lower_seq("paved"@)) by {
        assert(lower_seq("dirt"@)[0] != lower_seq("paved"@)[0]);
    }
    assert(lower_seq("dirt"@) != lower_seq("gravel"@)) by {
        assert(lower_seq("dirt"@)[0] != lower_seq("gravel"@)[0]);
    }
    assert(lower_seq("dirt"@) != lower_seq("cobblestone"@)) by {
        assert(lower_seq("dirt"@)[0] != lower_seq("cobblestone"@)[0]);
    }
    assert(lower_seq("dirt"@) != lower_seq("ground"@)) by {
        assert(lower_seq("dirt"@)[0] != lower_seq("ground"@)[0]);
    }
    assert(lower_seq("dirt"@) != lower_seq("sand"@)) by {
        assert(lower_seq("dirt"@)[0] != lower_seq("sand"@)[0]);
    }
    assert(lower_seq("sand"@) != lower_seq("asphalt"@)) by {
        assert(lower_seq("sand"@)[0] != lower_seq("asphalt"@)[0]);
    }
    assert(lower_seq("sand"@) != lower_seq("paved"@)) by {
        assert(lower_seq("sand"@)[0] != lower_seq("paved"@)[0]);
    }
    assert(lower_seq("sand"@) != lower_seq("gravel"@)) by {
        assert(lower_seq("sand"@)[0] != lower_seq("gravel"@)[0]);
    }
    assert(lower_seq("sand"@) != lower_seq("cobblestone"@)) by {
        assert(lower_seq("sand"@)[0] != lower_seq("cobblestone"@)[0]);
    }
    assert(lower_seq("sand"@) != lower_seq("ground"@)) by {
        assert(lower_seq("sand"@)[0] != lower_seq("ground"@)[0]);
    }
    assert(lower_seq("sand"@) != lower_seq("dirt"@)) by {
        assert(lower_seq("sand"@)[0] != lower_seq("dirt"@)[0]);
    }
}

/// Law: a rule's `surface` tag naming a known surface class holds on an
/// edge of known surface exactly when the edge has that surface: a rule
/// `surface=paved` holds on paved edges and on no others.
pub proof fn lemma_surface_rule_holds(edge: DirectedEdge, highway: HighwayClass, t: SurfaceClass)
    requires
        edge.surface != SurfaceClass::Unknown,
        t != SurfaceClass::Unknown,
    ensures
        builtin_holds(edge, highway, "surface"@, surface_tag(t)->0) <==> edge.surface == t,
{
    lemma_surface_names_apart_ignoring_case();
    reveal_strlit("surface");
    reveal_strlit("highway");
    reveal_strlit("road_class");
    assert("surface"@ != "highway"@) by {
        assert("surface"@[0] != "highway"@[0]);
    }
    assert("surface"@ != "road_class"@) by {
        assert("surface"@[0] != "road_class"@[0]);
    }
    assert(edge_tag(edge, highway, "surface"@) == surface_tag(edge.surface));
}

} // verus!
