//! Classification of OSM ways: road and highway class, surface,
//! smoothness, tolls, which travel modes may use a way, and in which
//! direction each of them may travel.

use vstd::prelude::*;

use crate::graph::{
    road_class_of, AccessMask, HighwayClass, RoadClass, SmoothnessClass, SurfaceClass, ACCESS_BICYCLE, ACCESS_CAR,
    ACCESS_FOOT, ACCESS_HGV, ACCESS_TRANSIT, EDGE_FLAG_INFERRED_BICYCLE_CONTRAFLOW,
    EDGE_FLAG_INFERRED_FOOT_REVERSE_ONEWAY,
};
use crate::osm::{tag, tag_value, OsmTags};
use crate::text::{is_lit, str_eq};

verus! {

/// The directions in which a mode may travel along a way.
#[derive(Debug, Clone, Copy, PartialEq, Eq, Structural)]
pub enum EdgeDirection {
    Both,
    ForwardOnly,
    ReverseOnly,
}

/// Modes and flags of the two directions of a way.
#[derive(Debug, Clone, Copy, PartialEq, Eq, Structural)]
pub struct DirectionalAccess {
    pub forward_access: AccessMask,
    pub reverse_access: AccessMask,
    pub forward_flags: u32,
    pub reverse_flags: u32,
}

/// Whether the tag `key` has exactly the value `value`.
pub open spec fn tag_eq(tags: OsmTags, key: Seq<char>, value: Seq<char>) -> bool {
    tag_value(tags, key) == Some(value)
}

pub fn tag_is(tags: &OsmTags, key: &str, value: &str) -> (r: bool)
    ensures
        r == tag_eq(*tags, key@, value@),
{
    match tag(tags, key) {
        Some(v) => str_eq(v, value),
        None => false,
    }
}

// ---------------------------------------------------------------------------
// Classes.
// ---------------------------------------------------------------------------
/// The class of an OSM `highway` value.
pub open spec fn highway_tag_class(h: Seq<char>) -> Option<HighwayClass> {
    if h == "motorway"@ {
        Some(HighwayClass::Motorway)
    } else if h == "motorway_link"@ {
        Some(HighwayClass::MotorwayLink)
    } else if h == "trunk"@ {
        Some(HighwayClass::Trunk)
    } else if h == "trunk_link"@ {
        Some(HighwayClass::TrunkLink)
    } else if h == "primary"@ {
        Some(HighwayClass::Primary)
    } else if h == "primary_link"@ {
        Some(HighwayClass::PrimaryLink)
    } else if h == "secondary"@ {
        Some(HighwayClass::Secondary)
    } else if h == "secondary_link"@ {
        Some(HighwayClass::SecondaryLink)
    } else if h == "tertiary"@ {
        Some(HighwayClass::Tertiary)
    } else if h == "tertiary_link"@ {
        Some(HighwayClass::TertiaryLink)
    } else if h == "residential"@ {
        Some(HighwayClass::Residential)
    } else if h == "unclassified"@ {
        Some(HighwayClass::Unclassified)
    } else if h == "living_street"@ {
        Some(HighwayClass::LivingStreet)
    } else if h == "service"@ {
        Some(HighwayClass::Service)
    } else if h == "track"@ {
        Some(HighwayClass::Track)
    } else if h == "path"@ {
        Some(HighwayClass::Path)
    } else if h == "cycleway"@ {
        Some(HighwayClass::Cycleway)
    } else if h == "footway"@ {
        Some(HighwayClass::Footway)
    } else if h == "pedestrian"@ {
        Some(HighwayClass::Pedestrian)
    } else if h == "steps"@ {
        Some(HighwayClass::Steps)
    } else if h == "bridleway"@ {
        Some(HighwayClass::Bridleway)
    } else {
        None
    }
}

/// The class of an OSM `highway` value; `None` for values that are not
/// routable roads or paths.
pub fn classify_highway(highway: &str) -> (r: Option<HighwayClass>)
    ensures
        r == highway_tag_class(highway@),
{
    let h = crate::text::chars_of(highway);
    classify_highway_chars(&h)
}

fn classify_highway_chars(h: &Vec<char>) -> (r: Option<HighwayClass>)
    ensures
        r == highway_tag_class(h@),
{

    if is_lit(h, "motorway") {
        Some(HighwayClass::Motorway)
    } else if is_lit(h, "motorway_link") {
        Some(HighwayClass::MotorwayLink)
    } else if is_lit(h, "trunk") {
        Some(HighwayClass::Trunk)
    } else if is_lit(h, "trunk_link") {
        Some(HighwayClass::TrunkLink)
    } else if is_lit(h, "primary") {
        Some(HighwayClass::Primary)
    } else if is_lit(h, "primary_link") {
        Some(HighwayClass::PrimaryLink)
    } else if is_lit(h, "secondary") {
        Some(HighwayClass::Secondary)
    } else if is_lit(h, "secondary_link") {
        Some(HighwayClass::SecondaryLink)
    } else if is_lit(h, "tertiary") {
        Some(HighwayClass::Tertiary)
    } else if is_lit(h, "tertiary_link") {
        Some(HighwayClass::TertiaryLink)
    } else if is_lit(h, "residential") {
        Some(HighwayClass::Residential)
    } else if is_lit(h, "unclassified") {
        Some(HighwayClass::Unclassified)
    } else if is_lit(h, "living_street") {
        Some(HighwayClass::LivingStreet)
    } else if is_lit(h, "service") {
        Some(HighwayClass::Service)
    } else if is_lit(h, "track") {
        Some(HighwayClass::Track)
    } else if is_lit(h, "path") {
        Some(HighwayClass::Path)
    } else if is_lit(h, "cycleway") {
        Some(HighwayClass::Cycleway)
    } else if is_lit(h, "footway") {
        Some(HighwayClass::Footway)
    } else if is_lit(h, "pedestrian") {
        Some(HighwayClass::Pedestrian)
    } else if is_lit(h, "steps") {
        Some(HighwayClass::Steps)
    } else if is_lit(h, "bridleway") {
        Some(HighwayClass::Bridleway)
    } else {
        None
    }
}

pub open spec fn surface_of(tags: OsmTags) -> SurfaceClass {
    let t = |v: Seq<char>| tag_eq(tags, "surface"@, v);
    if t("asphalt"@) {
        SurfaceClass::Asphalt
    } else if t("paved"@) || t("concrete"@) || t("concrete:lanes"@) || t("concrete:plates"@) {
        SurfaceClass::Paved
    } else if t("gravel"@) || t("fine_gravel"@) || t("pebblestone"@) {
        SurfaceClass::Gravel
    } else if t("cobblestone"@) || t("sett"@) || t("unhewn_cobblestone"@) {
        SurfaceClass::Cobblestone
    } else if t("ground"@) || t("earth"@) || t("grass"@) || t("mud"@) {
        SurfaceClass::Ground
    } else if t("dirt"@) || t("compacted"@) {
        SurfaceClass::Dirt
    } else if t("sand"@) {
        SurfaceClass::Sand
    } else {
        SurfaceClass::Unknown
    }
}

/// The surface class of a way's `surface` tag.
pub fn classify_surface(tags: &OsmTags) -> (r: SurfaceClass)
    ensures
        r == surface_of(*tags),
{
    let t = |v: &str| -> (b: bool)
        ensures
            b == tag_eq(*tags, "surface"@, v@),
        { tag_is(tags, "surface", v) };
    if t("asphalt") {
        SurfaceClass::Asphalt
    } else if t("paved") || t("concrete") || t("concrete:lanes") || t("concrete:plates") {
        SurfaceClass::Paved
    } else if t("gravel") || t("fine_gravel") || t("pebblestone") {
        SurfaceClass::Gravel
    } else if t("cobblestone") || t("sett") || t("unhewn_cobblestone") {
        SurfaceClass::Cobblestone
    } else if t("ground") || t("earth") || t("grass") || t("mud") {
        SurfaceClass::Ground
    } else if t("dirt") || t("compacted") {
        SurfaceClass::Dirt
    } else if t("sand") {
        SurfaceClass::Sand
    } else {
        SurfaceClass::Unknown
    }
}

pub open spec fn smoothness_of(tags: OsmTags) -> SmoothnessClass {
    let t = |v: Seq<char>| tag_eq(tags, "smoothness"@, v);
    if t("excellent"@) {
        SmoothnessClass::Excellent
    } else if t("good"@) {
        SmoothnessClass::Good
    } else if t("intermediate"@) {
        SmoothnessClass::Intermediate
    } else if t("bad"@) {
        SmoothnessClass::Bad
    } else if t("very_bad"@) {
        SmoothnessClass::VeryBad
    } else if t("horrible"@) {
        SmoothnessClass::Horrible
    } else if t("very_horrible"@) {
        SmoothnessClass::VeryHorrible
    } else if t("impassable"@) {
        SmoothnessClass::Impassable
    } else {
        SmoothnessClass::Unknown
    }
}

/// The smoothness class of a way's `smoothness` tag.
pub fn classify_smoothness(tags: &OsmTags) -> (r: SmoothnessClass)
    ensures
        r == smoothness_of(*tags),
{
    let t = |v: &str| -> (b: bool)
        ensures
            b == tag_eq(*tags, "smoothness"@, v@),
        { tag_is(tags, "smoothness", v) };
    if t("excellent") {
        SmoothnessClass::Excellent
    } else if t("good") {
        SmoothnessClass::Good
    } else if t("intermediate") {
        SmoothnessClass::Intermediate
    } else if t("bad") {
        SmoothnessClass::Bad
    } else if t("very_bad") {
        SmoothnessClass::VeryBad
    } else if t("horrible") {
        SmoothnessClass::Horrible
    } else if t("very_horrible") {
        SmoothnessClass::VeryHorrible
    } else if t("impassable") {
        SmoothnessClass::Impassable
    } else {
        SmoothnessClass::Unknown
    }
}

/// Whether a way is tolled: `toll` is `yes`, `true` or `1`.
pub fn classify_toll(tags: &OsmTags) -> (r: bool)
    ensures
        r == (tag_eq(*tags, "toll"@, "yes"@) || tag_eq(*tags, "toll"@, "true"@) || tag_eq(*tags, "toll"@, "1"@)),
{
    tag_is(tags, "toll", "yes") || tag_is(tags, "toll", "true") || tag_is(tags, "toll", "1")
}

/// Whether a node is a traffic signal.
pub fn is_traffic_signal_node(tags: &OsmTags) -> (r: bool)
    ensures
        r == tag_eq(*tags, "highway"@, "traffic_signals"@),
{
    tag_is(tags, "highway", "traffic_signals")
}

// ---------------------------------------------------------------------------
// Access.
// ---------------------------------------------------------------------------
/// `key` is `no` or `private`.
pub open spec fn restricted(tags: OsmTags, key: Seq<char>) -> bool {
    tag_eq(tags, key, "no"@) || tag_eq(tags, key, "private"@)
}

/// `key` is `yes`, `designated`, `official` or `permissive`.
pub open spec fn allowed(tags: OsmTags, key: Seq<char>) -> bool {
    tag_eq(tags, key, "yes"@) || tag_eq(tags, key, "designated"@) || tag_eq(tags, key, "official"@) || tag_eq(
        tags,
        key,
        "permissive"@,
    )
}

pub fn tag_is_restricted(tags: &OsmTags, key: &str) -> (r: bool)
    ensures
        r == restricted(*tags, key@),
{
    tag_is(tags, key, "no") || tag_is(tags, key, "private")
}

pub fn tag_is_allowed(tags: &OsmTags, key: &str) -> (r: bool)
    ensures
        r == allowed(*tags, key@),
{
    tag_is(tags, key, "yes") || tag_is(tags, key, "designated") || tag_is(tags, key, "official") || tag_is(
        tags,
        key,
        "permissive",
    )
}

/// Applies `access=no` first, then the mode-specific restrictions, then
/// the mode-specific permissions, each over the modes it names.
pub open spec fn overridden_bits(tags: OsmTags, base: u16) -> u16 {
    let b = if restricted(tags, "access"@) {
        0u16
    } else {
        base
    };
    let b = if restricted(tags, "vehicle"@) {
        b & !27u16
    } else {
        b
    };
    let b = if restricted(tags, "motor_vehicle"@) {
        b & !25u16
    } else {
        b
    };
    let b = if restricted(tags, "motorcar"@) {
        b & !ACCESS_CAR
    } else {
        b
    };
    let b = if restricted(tags, "bicycle"@) {
        b & !ACCESS_BICYCLE
    } else {
        b
    };
    let b = if restricted(tags, "foot"@) {
        b & !ACCESS_FOOT
    } else {
        b
    };
    let b = if restricted(tags, "psv"@) || restricted(tags, "bus"@) {
        b & !ACCESS_TRANSIT
    } else {
        b
    };
    let b = if restricted(tags, "hgv"@) {
        b & !ACCESS_HGV
    } else {
        b
    };
    let b = if allowed(tags, "vehicle"@) {
        b | 27u16
    } else {
        b
    };
    let b = if allowed(tags, "motor_vehicle"@) {
        b | 25u16
    } else {
        b
    };
    let b = if allowed(tags, "motorcar"@) {
        b | ACCESS_CAR
    } else {
        b
    };
    let b = if allowed(tags, "bicycle"@) {
        b | ACCESS_BICYCLE
    } else {
        b
    };
    let b = if allowed(tags, "foot"@) {
        b | ACCESS_FOOT
    } else {
        b
    };
    let b = if allowed(tags, "psv"@) || allowed(tags, "bus"@) {
        b | ACCESS_TRANSIT
    } else {
        b
    };
    if allowed(tags, "hgv"@) {
        b | ACCESS_HGV
    } else {
        b
    }
}

/// The modes left after a way's access tags have been applied to `base`.
pub fn apply_access_overrides(tags: &OsmTags, base_bits: u16) -> (r: AccessMask)
    ensures
        r.0 == overridden_bits(*tags, base_bits),
{
    let mut bits = base_bits;
    if tag_is_restricted(tags, "access") {
        bits = 0;
    }
    if tag_is_restricted(tags, "vehicle") {
        bits = bits & !27u16;
    }
    if tag_is_restricted(tags, "motor_vehicle") {
        bits = bits & !25u16;
    }
    if tag_is_restricted(tags, "motorcar") {
        bits = bits & !ACCESS_CAR;
    }
    if tag_is_restricted(tags, "bicycle") {
        bits = bits & !ACCESS_BICYCLE;
    }
    if tag_is_restricted(tags, "foot") {
        bits = bits & !ACCESS_FOOT;
    }
    if tag_is_restricted(tags, "psv") || tag_is_restricted(tags, "bus") {
        bits = bits & !ACCESS_TRANSIT;
    }
    if tag_is_restricted(tags, "hgv") {
        bits = bits & !ACCESS_HGV;
    }
    if tag_is_allowed(tags, "vehicle") {
        bits = bits | 27u16;
    }
    if tag_is_allowed(tags, "motor_vehicle") {
        bits = bits | 25u16;
    }
    if tag_is_allowed(tags, "motorcar") {
        bits = bits | ACCESS_CAR;
    }
    if tag_is_allowed(tags, "bicycle") {
        bits = bits | ACCESS_BICYCLE;
    }
    if tag_is_allowed(tags, "foot") {
        bits = bits | ACCESS_FOOT;
    }
    if tag_is_allowed(tags, "psv") || tag_is_allowed(tags, "bus") {
        bits = bits | ACCESS_TRANSIT;
    }
    if tag_is_allowed(tags, "hgv") {
        bits = bits | ACCESS_HGV;
    }
    AccessMask(bits)
}

/// The modes a highway value lets through before access tags apply.
pub open spec fn highway_base_bits(h: Seq<char>) -> u16 {
    if h == "motorway"@ || h == "motorway_link"@ {
        17
    } else if h == "trunk"@ || h == "trunk_link"@ || h == "primary"@ || h == "primary_link"@ || h
        == "secondary"@ || h == "secondary_link"@ || h == "tertiary"@ || h == "tertiary_link"@ || h
        == "residential"@ || h == "unclassified"@ || h == "living_street"@ || h == "service"@ {
        23
    } else if h == "track"@ {
        23
    } else if h == "path"@ || h == "footway"@ || h == "pedestrian"@ || h == "steps"@ {
        ACCESS_FOOT
    } else if h == "cycleway"@ {
        6
    } else if h == "bridleway"@ {
        ACCESS_FOOT
    } else {
        7
    }
}

fn highway_base(h: &Vec<char>) -> (r: u16)
    ensures
        r == highway_base_bits(h@),
{

    if is_lit(h, "motorway") || is_lit(h, "motorway_link") {
        17
    } else if is_lit(h, "trunk") || is_lit(h, "trunk_link") || is_lit(h, "primary") || is_lit(h, "primary_link")
        || is_lit(h, "secondary") || is_lit(h, "secondary_link") || is_lit(h, "tertiary") || is_lit(
        h,
        "tertiary_link",
    ) || is_lit(h, "residential") || is_lit(h, "unclassified") || is_lit(h, "living_street") || is_lit(
        h,
        "service",
    ) {
        23
    } else if is_lit(h, "track") {
        23
    } else if is_lit(h, "path") || is_lit(h, "footway") || is_lit(h, "pedestrian") || is_lit(h, "steps") {
        ACCESS_FOOT
    } else if is_lit(h, "cycleway") {
        6
    } else if is_lit(h, "bridleway") {
        ACCESS_FOOT
    } else {
        7
    }
}

/// The modes of a way: a ferry route admits every mode, a highway the
/// modes of its class, each then adjusted by the access tags.
pub open spec fn access_of(tags: OsmTags, highway: Seq<char>, route: Option<Seq<char>>) -> u16 {
    if route == Some("ferry"@) {
        overridden_bits(tags, 31)
    } else {
        overridden_bits(tags, highway_base_bits(highway))
    }
}

pub fn classify_access(tags: &OsmTags, highway: &str, route: Option<&str>) -> (r: AccessMask)
    ensures
        r.0 == access_of(
            *tags,
            highway@,
            match route {
                Some(x) => Some(x@),
                None => None,
            },
        ),
{
    let ferry = match route {
        Some(x) => str_eq(x, "ferry"),
        None => false,
    };
    if ferry {
        return apply_access_overrides(tags, 31);
    }
    let h = crate::text::chars_of(highway);
    apply_access_overrides(tags, highway_base(&h))
}

/// Road class, highway class and modes of a way: from its `highway` tag,
/// or as a ferry for `route=ferry` or any `ferry` tag.
pub open spec fn way_class(tags: OsmTags) -> Option<(RoadClass, HighwayClass, u16)> {
    match tag_value(tags, "highway"@) {
        Some(h) => match highway_tag_class(h) {
            Some(hc) => Some((road_class_of(hc), hc, access_of(tags, h, tag_value(tags, "route"@)))),
            None => None,
        },
        None => if tag_eq(tags, "route"@, "ferry"@) || tag_value(tags, "ferry"@) is Some {
            Some((RoadClass::Ferry, HighwayClass::Ferry, access_of(tags, seq![], Some("ferry"@))))
        } else {
            None
        },
    }
}

pub fn classify_way(tags: &OsmTags) -> (r: Option<(RoadClass, HighwayClass, AccessMask)>)
    ensures
        match way_class(*tags) {
            Some((rc, hc, bits)) => r == Some((rc, hc, AccessMask(bits))),
            None => r is None,
        },
{
    match tag(tags, "highway") {
        Some(highway) => {
            let hc = match classify_highway(highway) {
                Some(hc) => hc,
                None => {
                    return None;
                },
            };
            let rc = hc.road_class();
            let access = classify_access(tags, highway, tag(tags, "route"));
            Some((rc, hc, access))
        },
        None => {
            if tag_is(tags, "route", "ferry") || tag(tags, "ferry").is_some() {
                proof {
                    reveal_strlit("");
                }
                Some((RoadClass::Ferry, HighwayClass::Ferry, classify_access(tags, "", Some("ferry"))))
            } else {
                None
            }
        },
    }
}

// ---------------------------------------------------------------------------
// Directions.
// ---------------------------------------------------------------------------
/// The direction named by a `oneway` value.
pub open spec fn oneway_value(v: Seq<char>) -> Option<EdgeDirection> {
    if v == "-1"@ || v == "reverse"@ {
        Some(EdgeDirection::ReverseOnly)
    } else if v == "yes"@ || v == "true"@ || v == "1"@ {
        Some(EdgeDirection::ForwardOnly)
    } else if v == "no"@ || v == "false"@ || v == "0"@ {
        Some(EdgeDirection::Both)
    } else {
        None
    }
}

pub fn parse_oneway_direction(value: &str) -> (r: Option<EdgeDirection>)
    ensures
        r == oneway_value(value@),
{
    let v = crate::text::chars_of(value);
    if is_lit(&v, "-1") || is_lit(&v, "reverse") {
        Some(EdgeDirection::ReverseOnly)
    } else if is_lit(&v, "yes") || is_lit(&v, "true") || is_lit(&v, "1") {
        Some(EdgeDirection::ForwardOnly)
    } else if is_lit(&v, "no") || is_lit(&v, "false") || is_lit(&v, "0") {
        Some(EdgeDirection::Both)
    } else {
        None
    }
}

/// The general direction of a way: its `oneway` tag (`-1`, `yes`/`true`/
/// `1`, `no`/`false`/`0`); otherwise forward only on motorways and
/// roundabouts.
pub open spec fn direction_of(tags: OsmTags, road_class: RoadClass) -> EdgeDirection {
    let o = |v: Seq<char>| tag_eq(tags, "oneway"@, v);
    if o("-1"@) {
        EdgeDirection::ReverseOnly
    } else if o("yes"@) || o("true"@) || o("1"@) {
        EdgeDirection::ForwardOnly
    } else if o("no"@) || o("false"@) || o("0"@) {
        EdgeDirection::Both
    } else if road_class == RoadClass::Motorway {
        EdgeDirection::ForwardOnly
    } else if tag_eq(tags, "junction"@, "roundabout"@) {
        EdgeDirection::ForwardOnly
    } else {
        EdgeDirection::Both
    }
}

pub fn classify_direction(tags: &OsmTags, road_class: RoadClass) -> (r: EdgeDirection)
    ensures
        r == direction_of(*tags, road_class),
{
    let o = |v: &str| -> (b: bool)
        ensures
            b == tag_eq(*tags, "oneway"@, v@),
        { tag_is(tags, "oneway", v) };
    if o("-1") {
        EdgeDirection::ReverseOnly
    } else if o("yes") || o("true") || o("1") {
        EdgeDirection::ForwardOnly
    } else if o("no") || o("false") || o("0") {
        EdgeDirection::Both
    } else if road_class == RoadClass::Motorway {
        EdgeDirection::ForwardOnly
    } else if tag_is(tags, "junction", "roundabout") {
        EdgeDirection::ForwardOnly
    } else {
        EdgeDirection::Both
    }
}

/// `no` or `private`.
pub open spec fn access_no(v: Seq<char>) -> bool {
    v == "no"@ || v == "private"@
}

pub fn is_access_no(value: &str) -> (r: bool)
    ensures
        r == access_no(value@),
{
    str_eq(value, "no") || str_eq(value, "private")
}

/// The direction of a mode from its `:forward`/`:backward` access tags.
pub open spec fn forward_backward_of(forward: Option<Seq<char>>, backward: Option<Seq<char>>) -> Option<
    EdgeDirection,
> {
    let f = match forward {
        Some(v) => Some(!access_no(v)),
        None => None,
    };
    let b = match backward {
        Some(v) => Some(!access_no(v)),
        None => None,
    };
    match (f, b) {
        (Some(true), Some(true)) => Some(EdgeDirection::Both),
        (Some(true), Some(false)) | (Some(true), None) | (None, Some(false)) => Some(EdgeDirection::ForwardOnly),
        (Some(false), Some(true)) | (Some(false), None) | (None, Some(true)) => Some(EdgeDirection::ReverseOnly),
        (Some(false), Some(false)) => Some(EdgeDirection::Both),
        (None, None) => None,
    }
}

fn forward_backward(forward: Option<&str>, backward: Option<&str>) -> (r: Option<EdgeDirection>)
    ensures
        r == forward_backward_of(
            match forward {
                Some(v) => Some(v@),
                None => None,
            },
            match backward {
                Some(v) => Some(v@),
                None => None,
            },
        ),
{
    let f = match forward {
        Some(v) => Some(!is_access_no(v)),
        None => None,
    };
    let b = match backward {
        Some(v) => Some(!is_access_no(v)),
        None => None,
    };
    match (f, b) {
        (Some(true), Some(true)) => Some(EdgeDirection::Both),
        (Some(true), Some(false)) | (Some(true), None) | (None, Some(false)) => Some(EdgeDirection::ForwardOnly),
        (Some(false), Some(true)) | (Some(false), None) | (None, Some(true)) => Some(EdgeDirection::ReverseOnly),
        (Some(false), Some(false)) => Some(EdgeDirection::Both),
        (None, None) => None,
    }
}

/// The direction of a mode from its `<prefix>:forward` and
/// `<prefix>:backward` tags (`foot` or `bicycle`).
pub fn access_forward_backward_direction(tags: &OsmTags, bicycle: bool) -> (r: Option<EdgeDirection>)
    ensures
        r == if bicycle {
            forward_backward_of(tag_value(*tags, "bicycle:forward"@), tag_value(*tags, "bicycle:backward"@))
        } else {
            forward_backward_of(tag_value(*tags, "foot:forward"@), tag_value(*tags, "foot:backward"@))
        },
{
    if bicycle {
        forward_backward(tag(tags, "bicycle:forward"), tag(tags, "bicycle:backward"))
    } else {
        forward_backward(tag(tags, "foot:forward"), tag(tags, "foot:backward"))
    }
}

/// The direction given by the first of two `oneway` keys that holds a
/// known `oneway` value.
pub open spec fn explicit_of(tags: OsmTags, first: Seq<char>, second: Seq<char>) -> Option<EdgeDirection> {
    let a = match tag_value(tags, first) {
        Some(v) => oneway_value(v),
        None => None,
    };
    if a is Some {
        a
    } else {
        match tag_value(tags, second) {
            Some(v) => oneway_value(v),
            None => None,
        }
    }
}

pub fn explicit_oneway_direction(tags: &OsmTags, first: &str, second: &str) -> (r: Option<EdgeDirection>)
    ensures
        r == explicit_of(*tags, first@, second@),
{
    let a = match tag(tags, first) {
        Some(v) => parse_oneway_direction(v),
        None => None,
    };
    if a.is_some() {
        return a;
    }
    match tag(tags, second) {
        Some(v) => parse_oneway_direction(v),
        None => None,
    }
}

pub open spec fn opposite_value(tags: OsmTags, key: Seq<char>) -> bool {
    tag_eq(tags, key, "opposite"@) || tag_eq(tags, key, "opposite_lane"@) || tag_eq(tags, key, "opposite_track"@)
        || tag_eq(tags, key, "opposite_share_busway"@)
}

/// A legacy `cycleway=opposite*` tag, on either side.
pub open spec fn legacy_bicycle_opposite(tags: OsmTags) -> bool {
    opposite_value(tags, "cycleway"@) || opposite_value(tags, "cycleway:left"@) || opposite_value(
        tags,
        "cycleway:right"@,
    )
}

fn has_opposite(tags: &OsmTags, key: &str) -> (r: bool)
    ensures
        r == opposite_value(*tags, key@),
{
    tag_is(tags, key, "opposite") || tag_is(tags, key, "opposite_lane") || tag_is(tags, key, "opposite_track")
        || tag_is(tags, key, "opposite_share_busway")
}

pub fn has_legacy_bicycle_opposite(tags: &OsmTags) -> (r: bool)
    ensures
        r == legacy_bicycle_opposite(*tags),
{
    has_opposite(tags, "cycleway") || has_opposite(tags, "cycleway:left") || has_opposite(tags, "cycleway:right")
}

/// Roads on which a oneway restriction is taken to allow cyclists back
/// against it unless tagged otherwise.
pub open spec fn contraflow_road(h: HighwayClass) -> bool {
    h == HighwayClass::Primary || h == HighwayClass::PrimaryLink || h == HighwayClass::Secondary || h
        == HighwayClass::SecondaryLink || h == HighwayClass::Tertiary || h == HighwayClass::TertiaryLink || h
        == HighwayClass::Residential || h == HighwayClass::Unclassified || h == HighwayClass::LivingStreet || h
        == HighwayClass::Service || h == HighwayClass::Track
}

pub fn is_ordinary_bicycle_contraflow_road(highway: HighwayClass) -> (r: bool)
    ensures
        r == contraflow_road(highway),
{
    match highway {
        HighwayClass::Primary | HighwayClass::PrimaryLink | HighwayClass::Secondary | HighwayClass::SecondaryLink
        | HighwayClass::Tertiary | HighwayClass::TertiaryLink | HighwayClass::Residential
        | HighwayClass::Unclassified | HighwayClass::LivingStreet | HighwayClass::Service
        | HighwayClass::Track => true,
        _ => false,
    }
}

/// Grants `bit` in the directions of `direction`.
pub open spec fn with_bit(d: DirectionalAccess, bit: u16, direction: EdgeDirection) -> DirectionalAccess {
    match direction {
        EdgeDirection::Both => DirectionalAccess {
            forward_access: AccessMask(d.forward_access.0 | bit),
            reverse_access: AccessMask(d.reverse_access.0 | bit),
            ..d
        },
        EdgeDirection::ForwardOnly => DirectionalAccess {
            forward_access: AccessMask(d.forward_access.0 | bit),
            ..d
        },
        EdgeDirection::ReverseOnly => DirectionalAccess {
            reverse_access: AccessMask(d.reverse_access.0 | bit),
            ..d
        },
    }
}

/// Grants `bit` both ways and flags the direction against a oneway as
/// inferred.
pub open spec fn with_counterflow(d: DirectionalAccess, bit: u16, generic: EdgeDirection, flag: u32) -> DirectionalAccess {
    let both = DirectionalAccess {
        forward_access: AccessMask(d.forward_access.0 | bit),
        reverse_access: AccessMask(d.reverse_access.0 | bit),
        ..d
    };
    match generic {
        EdgeDirection::Both => both,
        EdgeDirection::ForwardOnly => DirectionalAccess { reverse_flags: both.reverse_flags | flag, ..both },
        EdgeDirection::ReverseOnly => DirectionalAccess { forward_flags: both.forward_flags | flag, ..both },
    }
}

pub fn add_directional_bit(directional: &mut DirectionalAccess, bit: u16, direction: EdgeDirection)
    ensures
        *final(directional) == with_bit(*old(directional), bit, direction),
{
    match direction {
        EdgeDirection::Both => {
            directional.forward_access = AccessMask(directional.forward_access.0 | bit);
            directional.reverse_access = AccessMask(directional.reverse_access.0 | bit);
        },
        EdgeDirection::ForwardOnly => {
            directional.forward_access = AccessMask(directional.forward_access.0 | bit);
        },
        EdgeDirection::ReverseOnly => {
            directional.reverse_access = AccessMask(directional.reverse_access.0 | bit);
        },
    }
}

pub fn add_bidirectional_bit_with_inferred_counterflow(
    directional: &mut DirectionalAccess,
    bit: u16,
    generic_direction: EdgeDirection,
    flag: u32,
)
    ensures
        *final(directional) == with_counterflow(*old(directional), bit, generic_direction, flag),
{
    directional.forward_access = AccessMask(directional.forward_access.0 | bit);
    directional.reverse_access = AccessMask(directional.reverse_access.0 | bit);
    match generic_direction {
        EdgeDirection::Both => {},
        EdgeDirection::ForwardOnly => {
            directional.reverse_flags = directional.reverse_flags | flag;
        },
        EdgeDirection::ReverseOnly => {
            directional.forward_flags = directional.forward_flags | flag;
        },
    }
}

/// Per-direction modes of a way. Motor modes follow the way's direction.
/// Pedestrians follow their own oneway or forward/backward tags, else
/// walk both ways, the direction against a oneway flagged as inferred.
/// Cyclists follow their own tags, then legacy opposite lanes (both ways),
/// then the way's direction on cycleways, then both ways with inferred
/// contraflow on ordinary roads, else the way's direction.
pub open spec fn directional_of(
    tags: OsmTags,
    highway: HighwayClass,
    road_class: RoadClass,
    base: AccessMask,
) -> DirectionalAccess {
    let g = direction_of(tags, road_class);
    let d = DirectionalAccess {
        forward_access: AccessMask(0),
        reverse_access: AccessMask(0),
        forward_flags: 0,
        reverse_flags: 0,
    };
    let d = if base.0 & ACCESS_CAR != 0 {
        with_bit(d, ACCESS_CAR, g)
    } else {
        d
    };
    let d = if base.0 & ACCESS_TRANSIT != 0 {
        with_bit(d, ACCESS_TRANSIT, g)
    } else {
        d
    };
    let d = if base.0 & ACCESS_HGV != 0 {
        with_bit(d, ACCESS_HGV, g)
    } else {
        d
    };
    let d = if base.0 & ACCESS_FOOT != 0 {
        let e = explicit_of(tags, "oneway:foot"@, "oneway:pedestrian"@);
        let e = if e is Some {
            e
        } else {
            forward_backward_of(tag_value(tags, "foot:forward"@), tag_value(tags, "foot:backward"@))
        };
        match e {
            Some(fd) => with_bit(d, ACCESS_FOOT, fd),
            None => with_counterflow(d, ACCESS_FOOT, g, EDGE_FLAG_INFERRED_FOOT_REVERSE_ONEWAY),
        }
    } else {
        d
    };
    if base.0 & ACCESS_BICYCLE != 0 {
        let e = explicit_of(tags, "oneway:bicycle"@, "bicycle:oneway"@);
        let e = if e is Some {
            e
        } else {
            forward_backward_of(tag_value(tags, "bicycle:forward"@), tag_value(tags, "bicycle:backward"@))
        };
        match e {
            Some(bd) => with_bit(d, ACCESS_BICYCLE, bd),
            None => if legacy_bicycle_opposite(tags) {
                with_bit(d, ACCESS_BICYCLE, EdgeDirection::Both)
            } else if highway == HighwayClass::Cycleway {
                with_bit(d, ACCESS_BICYCLE, g)
            } else if contraflow_road(highway) {
                with_counterflow(d, ACCESS_BICYCLE, g, EDGE_FLAG_INFERRED_BICYCLE_CONTRAFLOW)
            } else {
                with_bit(d, ACCESS_BICYCLE, g)
            },
        }
    } else {
        d
    }
}

pub fn classify_directional_access(
    tags: &OsmTags,
    highway: HighwayClass,
    road_class: RoadClass,
    base_access: AccessMask,
) -> (r: DirectionalAccess)
    ensures
        r == directional_of(*tags, highway, road_class, base_access),
{
    let generic_direction = classify_direction(tags, road_class);
    let mut directional = DirectionalAccess {
        forward_access: AccessMask(0),
        reverse_access: AccessMask(0),
        forward_flags: 0,
        reverse_flags: 0,
    };
    if base_access.contains(ACCESS_CAR) {
        add_directional_bit(&mut directional, ACCESS_CAR, generic_direction);
    }
    if base_access.contains(ACCESS_TRANSIT) {
        add_directional_bit(&mut directional, ACCESS_TRANSIT, generic_direction);
    }
    if base_access.contains(ACCESS_HGV) {
        add_directional_bit(&mut directional, ACCESS_HGV, generic_direction);
    }
    if base_access.contains(ACCESS_FOOT) {
        let explicit = explicit_oneway_direction(tags, "oneway:foot", "oneway:pedestrian");
        let explicit = if explicit.is_some() {
            explicit
        } else {
            access_forward_backward_direction(tags, false)
        };
        match explicit {
            Some(foot_direction) => add_directional_bit(&mut directional, ACCESS_FOOT, foot_direction),
            None => add_bidirectional_bit_with_inferred_counterflow(
                &mut directional,
                ACCESS_FOOT,
                generic_direction,
                EDGE_FLAG_INFERRED_FOOT_REVERSE_ONEWAY,
            ),
        }
    }
    if base_access.contains(ACCESS_BICYCLE) {
        let explicit = explicit_oneway_direction(tags, "oneway:bicycle", "bicycle:oneway");
        let explicit = if explicit.is_some() {
            explicit
        } else {
            access_forward_backward_direction(tags, true)
        };
        match explicit {
            Some(direction) => add_directional_bit(&mut directional, ACCESS_BICYCLE, direction),
            None => {
                if has_legacy_bicycle_opposite(tags) {
                    add_directional_bit(&mut directional, ACCESS_BICYCLE, EdgeDirection::Both);
                } else if highway == HighwayClass::Cycleway {
                    add_directional_bit(&mut directional, ACCESS_BICYCLE, generic_direction);
                } else if is_ordinary_bicycle_contraflow_road(highway) {
                    add_bidirectional_bit_with_inferred_counterflow(
                        &mut directional,
                        ACCESS_BICYCLE,
                        generic_direction,
                        EDGE_FLAG_INFERRED_BICYCLE_CONTRAFLOW,
                    );
                } else {
                    add_directional_bit(&mut directional, ACCESS_BICYCLE, generic_direction);
                }
            },
        }
    }
    directional
}

// ---------------------------------------------------------------------------
// Laws of the per-direction modes.
// ---------------------------------------------------------------------------
/// A direction lets traffic go forward: it is not reverse only.
pub open spec fn goes_forward(d: EdgeDirection) -> bool {
    d != EdgeDirection::ReverseOnly
}

/// A direction lets traffic go in reverse: it is not forward only.
pub open spec fn goes_reverse(d: EdgeDirection) -> bool {
    d != EdgeDirection::ForwardOnly
}

/// `x` with `bit` added where `c` holds.
spec fn add_if(x: u16, c: bool, bit: u16) -> u16 {
    if c {
        x | bit
    } else {
        x
    }
}

/// The bits of the five modes, each present where its flag is set, in
/// the order the modes are granted.
spec fn granted_bits(car: bool, transit: bool, hgv: bool, foot: bool, bicycle: bool) -> u16 {
    add_if(add_if(add_if(add_if(add_if(0u16, car, 1u16), transit, 8u16), hgv, 16u16), foot, 4u16), bicycle, 2u16)
}

proof fn lemma_granted_bits(car: bool, transit: bool, hgv: bool, foot: bool, bicycle: bool)
    by (bit_vector)
    ensures
        (granted_bits(car, transit, hgv, foot, bicycle) & 1u16 != 0u16) == car,
        (granted_bits(car, transit, hgv, foot, bicycle) & 8u16 != 0u16) == transit,
        (granted_bits(car, transit, hgv, foot, bicycle) & 16u16 != 0u16) == hgv,
        (granted_bits(car, transit, hgv, foot, bicycle) & 4u16 != 0u16) == foot,
        (granted_bits(car, transit, hgv, foot, bicycle) & 2u16 != 0u16) == bicycle,
        granted_bits(car, transit, hgv, foot, bicycle) & !31u16 == 0u16,
{
}

/// Granting a bit adds it to the sides its direction allows.
proof fn lemma_grant_sides()
    ensures
        forall|d: DirectionalAccess, bit: u16, dir: EdgeDirection| #[trigger] with_bit(d, bit, dir).forward_access.0
            == add_if(d.forward_access.0, goes_forward(dir), bit) && with_bit(d, bit, dir).reverse_access.0 == add_if(
            d.reverse_access.0,
            goes_reverse(dir),
            bit,
        ),
        forall|d: DirectionalAccess, bit: u16, g: EdgeDirection, flag: u32| #[trigger] with_counterflow(
            d,
            bit,
            g,
            flag,
        ).forward_access.0 == add_if(d.forward_access.0, true, bit) && with_counterflow(d, bit, g, flag).reverse_access.0
            == add_if(d.reverse_access.0, true, bit),
{
}

/// Law: on every way, the motor modes (car, public transport, HGV) go in
/// exactly the directions the way's oneway rules allow, and only where the
/// way admits them; pedestrians and cyclists keep at least one direction
/// exactly where the way admits them; no other bit is granted.
pub proof fn lemma_directional_modes(tags: OsmTags, highway: HighwayClass, road_class: RoadClass, base: AccessMask)
    ensures
        ({
            let d = directional_of(tags, highway, road_class, base);
            let g = direction_of(tags, road_class);
            &&& (d.forward_access.0 & ACCESS_CAR != 0) == (base.0 & ACCESS_CAR != 0 && goes_forward(g))
            &&& (d.reverse_access.0 & ACCESS_CAR != 0) == (base.0 & ACCESS_CAR != 0 && goes_reverse(g))
            &&& (d.forward_access.0 & ACCESS_TRANSIT != 0) == (base.0 & ACCESS_TRANSIT != 0 && goes_forward(g))
            &&& (d.reverse_access.0 & ACCESS_TRANSIT != 0) == (base.0 & ACCESS_TRANSIT != 0 && goes_reverse(g))
            &&& (d.forward_access.0 & ACCESS_HGV != 0) == (base.0 & ACCESS_HGV != 0 && goes_forward(g))
            &&& (d.reverse_access.0 & ACCESS_HGV != 0) == (base.0 & ACCESS_HGV != 0 && goes_reverse(g))
            &&& (d.forward_access.0 & ACCESS_FOOT != 0 || d.reverse_access.0 & ACCESS_FOOT != 0) == (base.0
                & ACCESS_FOOT != 0)
            &&& (d.forward_access.0 & ACCESS_BICYCLE != 0 || d.reverse_access.0 & ACCESS_BICYCLE != 0) == (base.0
                & ACCESS_BICYCLE != 0)
            &&& d.forward_access.0 & !31u16 == 0
            &&& d.reverse_access.0 & !31u16 == 0
        }),
{
    lemma_grant_sides();
    let d = directional_of(tags, highway, road_class, base);
    let g = direction_of(tags, road_class);
    let car = base.0 & ACCESS_CAR != 0;
    let transit = base.0 & ACCESS_TRANSIT != 0;
    let hgv = base.0 & ACCESS_HGV != 0;
    let foot = base.0 & ACCESS_FOOT != 0;
    let bicycle = base.0 & ACCESS_BICYCLE != 0;
    let fe = explicit_of(tags, "oneway:foot"@, "oneway:pedestrian"@);
    let fe = if fe is Some {
        fe
    } else {
        forward_backward_of(tag_value(tags, "foot:forward"@), tag_value(tags, "foot:backward"@))
    };
    let (foot_f, foot_r) = match fe {
        Some(fd) => (goes_forward(fd), goes_reverse(fd)),
        None => (true, true),
    };
    let be = explicit_of(tags, "oneway:bicycle"@, "bicycle:oneway"@);
    let be = if be is Some {
        be
    } else {
        forward_backward_of(tag_value(tags, "bicycle:forward"@), tag_value(tags, "bicycle:backward"@))
    };
    let (bike_f, bike_r) = match be {
        Some(bd) => (goes_forward(bd), goes_reverse(bd)),
        None => if legacy_bicycle_opposite(tags) {
            (true, true)
        } else if highway == HighwayClass::Cycleway {
            (goes_forward(g), goes_reverse(g))
        } else if contraflow_road(highway) {
            (true, true)
        } else {
            (goes_forward(g), goes_reverse(g))
        },
    };
    let d0 = DirectionalAccess {
        forward_access: AccessMask(0),
        reverse_access: AccessMask(0),
        forward_flags: 0,
        reverse_flags: 0,
    };
    let d1 = if car {
        with_bit(d0, ACCESS_CAR, g)
    } else {
        d0
    };
    let d2 = if transit {
        with_bit(d1, ACCESS_TRANSIT, g)
    } else {
        d1
    };
    let d3 = if hgv {
        with_bit(d2, ACCESS_HGV, g)
    } else {
        d2
    };
    let d4 = if foot {
        match fe {
            Some(fd) => with_bit(d3, ACCESS_FOOT, fd),
            None => with_counterflow(d3, ACCESS_FOOT, g, EDGE_FLAG_INFERRED_FOOT_REVERSE_ONEWAY),
        }
    } else {
        d3
    };
    assert(d1.forward_access.0 == add_if(0u16, car && goes_forward(g), 1u16));
    assert(d1.reverse_access.0 == add_if(0u16, car && goes_reverse(g), 1u16));
    assert(d2.forward_access.0 == add_if(d1.forward_access.0, transit && goes_forward(g), 8u16));
    assert(d2.reverse_access.0 == add_if(d1.reverse_access.0, transit && goes_reverse(g), 8u16));
    assert(d3.forward_access.0 == add_if(d2.forward_access.0, hgv && goes_forward(g), 16u16));
    assert(d3.reverse_access.0 == add_if(d2.reverse_access.0, hgv && goes_reverse(g), 16u16));
    assert(d4.forward_access.0 == add_if(d3.forward_access.0, foot && foot_f, 4u16));
    assert(d4.reverse_access.0 == add_if(d3.reverse_access.0, foot && foot_r, 4u16));
    assert(d.forward_access.0 == add_if(d4.forward_access.0, bicycle && bike_f, 2u16));
    assert(d.reverse_access.0 == add_if(d4.reverse_access.0, bicycle && bike_r, 2u16));
    lemma_granted_bits(car && goes_forward(g), transit && goes_forward(g), hgv && goes_forward(g), foot && foot_f, bicycle && bike_f);
    lemma_granted_bits(car && goes_reverse(g), transit && goes_reverse(g), hgv && goes_reverse(g), foot && foot_r, bicycle && bike_r);
}

// ---------------------------------------------------------------------------
// Laws of the access defaults.
// ---------------------------------------------------------------------------
/// The way carries none of the keys that adjust its modes.
pub open spec fn no_access_tags(tags: OsmTags) -> bool {
    &&& tag_value(tags, "access"@) is None
    &&& tag_value(tags, "vehicle"@) is None
    &&& tag_value(tags, "motor_vehicle"@) is None
    &&& tag_value(tags, "motorcar"@) is None
    &&& tag_value(tags, "bicycle"@) is None
    &&& tag_value(tags, "foot"@) is None
    &&& tag_value(tags, "psv"@) is None
    &&& tag_value(tags, "bus"@) is None
    &&& tag_value(tags, "hgv"@) is None
}

/// Of the keys that adjust a way's modes, the way carries `key` alone.
pub open spec fn only_access_key(tags: OsmTags, key: Seq<char>) -> bool {
    &&& ("access"@ == key || tag_value(tags, "access"@) is None)
    &&& ("vehicle"@ == key || tag_value(tags, "vehicle"@) is None)
    &&& ("motor_vehicle"@ == key || tag_value(tags, "motor_vehicle"@) is None)
    &&& ("motorcar"@ == key || tag_value(tags, "motorcar"@) is None)
    &&& ("bicycle"@ == key || tag_value(tags, "bicycle"@) is None)
    &&& ("foot"@ == key || tag_value(tags, "foot"@) is None)
    &&& ("psv"@ == key || tag_value(tags, "psv"@) is None)
    &&& ("bus"@ == key || tag_value(tags, "bus"@) is None)
    &&& ("hgv"@ == key || tag_value(tags, "hgv"@) is None)
}

/// The modes that a mode-specific access key speaks of: `vehicle` every
/// vehicle, `motor_vehicle` the motor vehicles, the others their own mode
/// (`psv` and `bus` public transport).
pub open spec fn access_key_modes(key: Seq<char>) -> u16 {
    if key == "vehicle"@ {
        ACCESS_CAR | ACCESS_BICYCLE | ACCESS_TRANSIT | ACCESS_HGV
    } else if key == "motor_vehicle"@ {
        ACCESS_CAR | ACCESS_TRANSIT | ACCESS_HGV
    } else if key == "motorcar"@ {
        ACCESS_CAR
    } else if key == "bicycle"@ {
        ACCESS_BICYCLE
    } else if key == "foot"@ {
        ACCESS_FOOT
    } else if key == "psv"@ {
        ACCESS_TRANSIT
    } else if key == "bus"@ {
        ACCESS_TRANSIT
    } else if key == "hgv"@ {
        ACCESS_HGV
    } else {
        0
    }
}

/// The access keys and their values are told apart.
proof fn lemma_access_words_distinct()
    ensures
        "vehicle"@ != "access"@,
        "motor_vehicle"@ != "access"@,
        "motor_vehicle"@ != "vehicle"@,
        "motorcar"@ != "access"@,
        "motorcar"@ != "vehicle"@,
        "motorcar"@ != "motor_vehicle"@,
        "bicycle"@ != "access"@,
        "bicycle"@ != "vehicle"@,
        "bicycle"@ != "motor_vehicle"@,
        "bicycle"@ != "motorcar"@,
        "foot"@ != "access"@,
        "foot"@ != "vehicle"@,
        "foot"@ != "motor_vehicle"@,
        "foot"@ != "motorcar"@,
        "foot"@ != "bicycle"@,
        "psv"@ != "access"@,
        "psv"@ != "vehicle"@,
        "psv"@ != "motor_vehicle"@,
        "psv"@ != "motorcar"@,
        "psv"@ != "bicycle"@,
        "psv"@ != "foot"@,
        "bus"@ != "access"@,
        "bus"@ != "vehicle"@,
        "bus"@ != "motor_vehicle"@,
        "bus"@ != "motorcar"@,
        "bus"@ != "bicycle"@,
        "bus"@ != "foot"@,
        "bus"@ != "psv"@,
        "hgv"@ != "access"@,
        "hgv"@ != "vehicle"@,
        "hgv"@ != "motor_vehicle"@,
        "hgv"@ != "motorcar"@,
        "hgv"@ != "bicycle"@,
        "hgv"@ != "foot"@,
        "hgv"@ != "psv"@,
        "hgv"@ != "bus"@,
        "no"@ != "yes"@,
        "no"@ != "designated"@,
        "no"@ != "official"@,
        "no"@ != "permissive"@,
        "private"@ != "yes"@,
        "private"@ != "designated"@,
        "private"@ != "official"@,
        "private"@ != "permissive"@,
{
    reveal_strlit("access");
    reveal_strlit("vehicle");
    reveal_strlit("motor_vehicle");
    reveal_strlit("motorcar");
    reveal_strlit("bicycle");
    reveal_strlit("foot");
    reveal_strlit("psv");
    reveal_strlit("bus");
    reveal_strlit("hgv");
    reveal_strlit("no");
    reveal_strlit("private");
    reveal_strlit("yes");
    reveal_strlit("designated");
    reveal_strlit("official");
    reveal_strlit("permissive");
    assert("vehicle"@ != "access"@) by {
        assert("vehicle"@[0] != "access"@[0]);
    }
    assert("motor_vehicle"@ != "access"@) by {
        assert("motor_vehicle"@[0] != "access"@[0]);
    }
    assert("motor_vehicle"@ != "vehicle"@) by {
        assert("motor_vehicle"@[0] != "vehicle"@[0]);
    }
    assert("motorcar"@ != "access"@) by {
        assert("motorcar"@[0] != "access"@[0]);
    }
    assert("motorcar"@ != "vehicle"@) by {
        assert("motorcar"@[0] != "vehicle"@[0]);
    }
    assert("motorcar"@ != "motor_vehicle"@) by {
        assert("motorcar"@[5] != "motor_vehicle"@[5]);
    }
    assert("bicycle"@ != "access"@) by {
        assert("bicycle"@[0] != "access"@[0]);
    }
    assert("bicycle"@ != "vehicle"@) by {
        assert("bicycle"@[0] != "vehicle"@[0]);
    }
    assert("bicycle"@ != "motor_vehicle"@) by {
        assert("bicycle"@[0] != "motor_vehicle"@[0]);
    }
    assert("bicycle"@ != "motorcar"@) by {
        assert("bicycle"@[0] != "motorcar"@[0]);
    }
    assert("foot"@ != "access"@) by {
        assert("foot"@[0] != "access"@[0]);
    }
    assert("foot"@ != "vehicle"@) by {
        assert("foot"@[0] != "vehicle"@[0]);
    }
    assert("foot"@ != "motor_vehicle"@) by {
        assert("foot"@[0] != "motor_vehicle"@[0]);
    }
    assert("foot"@ != "motorcar"@) by {
        assert("foot"@[0] != "motorcar"@[0]);
    }
    assert("foot"@ != "bicycle"@) by {
        assert("foot"@[0] != "bicycle"@[0]);
    }
    assert("psv"@ != "access"@) by {
        assert("psv"@[0] != "access"@[0]);
    }
    assert("psv"@ != "vehicle"@) by {
        assert("psv"@[0] != "vehicle"@[0]);
    }
    assert("psv"@ != "motor_vehicle"@) by {
        assert("psv"@[0] != "motor_vehicle"@[0]);
    }
    assert("psv"@ != "motorcar"@) by {
        assert("psv"@[0] != "motorcar"@[0]);
    }
    assert("psv"@ != "bicycle"@) by {
        assert("psv"@[0] != "bicycle"@[0]);
    }
    assert("psv"@ != "foot"@) by {
        assert("psv"@[0] != "foot"@[0]);
    }
    assert("bus"@ != "access"@) by {
        assert("bus"@[0] != "access"@[0]);
    }
    assert("bus"@ != "vehicle"@) by {
        assert("bus"@[0] != "vehicle"@[0]);
    }
    assert("bus"@ != "motor_vehicle"@) by {
        assert("bus"@[0] != "motor_vehicle"@[0]);
    }
    assert("bus"@ != "motorcar"@) by {
        assert("bus"@[0] != "motorcar"@[0]);
    }
    assert("bus"@ != "bicycle"@) by {
        assert("bus"@[1] != "bicycle"@[1]);
    }
    assert("bus"@ != "foot"@) by {
        assert("bus"@[0] != "foot"@[0]);
    }
    assert("bus"@ != "psv"@) by {
        assert("bus"@[0] != "psv"@[0]);
    }
    assert("hgv"@ != "access"@) by {
        assert("hgv"@[0] != "access"@[0]);
    }
    assert("hgv"@ != "vehicle"@) by {
        assert("hgv"@[0] != "vehicle"@[0]);
    }
    assert("hgv"@ != "motor_vehicle"@) by {
        assert("hgv"@[0] != "motor_vehicle"@[0]);
    }
    assert("hgv"@ != "motorcar"@) by {
        assert("hgv"@[0] != "motorcar"@[0]);
    }
    assert("hgv"@ != "bicycle"@) by {
        assert("hgv"@[0] != "bicycle"@[0]);
    }
    assert("hgv"@ != "foot"@) by {
        assert("hgv"@[0] != "foot"@[0]);
    }
    assert("hgv"@ != "psv"@) by {
        assert("hgv"@[0] != "psv"@[0]);
    }
    assert("hgv"@ != "bus"@) by {
        assert("hgv"@[0] != "bus"@[0]);
    }
    assert("no"@ != "yes"@) by {
        assert("no"@[0] != "yes"@[0]);
    }
    assert("no"@ != "designated"@) by {
        assert("no"@[0] != "designated"@[0]);
    }
    assert("no"@ != "official"@) by {
        assert("no"@[0] != "official"@[0]);
    }
    assert("no"@ != "permissive"@) by {
        assert("no"@[0] != "permissive"@[0]);
    }
    assert("private"@ != "yes"@) by {
        assert("private"@[0] != "yes"@[0]);
    }
    assert("private"@ != "designated"@) by {
        assert("private"@[0] != "designated"@[0]);
    }
    assert("private"@ != "official"@) by {
        assert("private"@[0] != "official"@[0]);
    }
    assert("private"@ != "permissive"@) by {
        assert("private"@[1] != "permissive"@[1]);
    }
}

/// Law: a way whose only access key restricts a mode-specific key (`no`
/// or `private`) loses exactly the modes that key speaks of and keeps
/// every other; one whose only access key allows it (`yes`,
/// `designated`, `official`, `permissive`) gains exactly those modes.
#[verifier::rlimit(60)]
pub proof fn lemma_single_access_key(tags: OsmTags, key: Seq<char>, base: u16)
    requires
        access_key_modes(key) != 0,
        only_access_key(tags, key),
    ensures
        restricted(tags, key) ==> overridden_bits(tags, base) == base & !access_key_modes(key),
        allowed(tags, key) ==> overridden_bits(tags, base) == base | access_key_modes(key),
        !restricted(tags, key) && !allowed(tags, key) ==> overridden_bits(tags, base) == base,
{
    lemma_access_words_distinct();
    reveal_strlit("access");
    reveal_strlit("vehicle");
    reveal_strlit("motor_vehicle");
    reveal_strlit("motorcar");
    reveal_strlit("bicycle");
    reveal_strlit("foot");
    reveal_strlit("psv");
    reveal_strlit("bus");
    reveal_strlit("hgv");
    reveal_strlit("no");
    reveal_strlit("private");
    reveal_strlit("yes");
    reveal_strlit("designated");
    reveal_strlit("official");
    reveal_strlit("permissive");
    assert(1u16 | 2u16 | 8u16 | 16u16 == 27u16 && 1u16 | 8u16 | 16u16 == 25u16) by (bit_vector);
}

/// Law: `access=no` (or `private`) alone closes a way to every mode;
/// `access` with any other value alone changes nothing.
pub proof fn lemma_access_key_alone(tags: OsmTags, base: u16)
    requires
        only_access_key(tags, "access"@),
    ensures
        restricted(tags, "access"@) ==> overridden_bits(tags, base) == 0,
        !restricted(tags, "access"@) ==> overridden_bits(tags, base) == base,
{
    lemma_access_words_distinct();
    reveal_strlit("access");
    reveal_strlit("vehicle");
    reveal_strlit("motor_vehicle");
    reveal_strlit("motorcar");
    reveal_strlit("bicycle");
    reveal_strlit("foot");
    reveal_strlit("psv");
    reveal_strlit("bus");
    reveal_strlit("hgv");
    reveal_strlit("no");
    reveal_strlit("private");
    reveal_strlit("yes");
    reveal_strlit("designated");
    reveal_strlit("official");
    reveal_strlit("permissive");
}

proof fn lemma_mode_unions()
    ensures
        ACCESS_CAR | ACCESS_HGV == 17u16,
        ACCESS_CAR | ACCESS_BICYCLE | ACCESS_FOOT | ACCESS_HGV == 23u16,
        ACCESS_BICYCLE | ACCESS_FOOT == 6u16,
        ACCESS_CAR | ACCESS_BICYCLE | ACCESS_FOOT == 7u16,
        ACCESS_CAR | ACCESS_BICYCLE | ACCESS_FOOT | ACCESS_TRANSIT | ACCESS_HGV == 31u16,
{
    assert(1u16 | 16u16 == 17u16) by (bit_vector);
    assert(1u16 | 2u16 | 4u16 | 16u16 == 23u16) by (bit_vector);
    assert(2u16 | 4u16 == 6u16) by (bit_vector);
    assert(1u16 | 2u16 | 4u16 == 7u16) by (bit_vector);
    assert(1u16 | 2u16 | 4u16 | 8u16 | 16u16 == 31u16) by (bit_vector);
}

/// Law: access tags that a way does not carry change nothing.
pub proof fn lemma_untagged_access_keeps_base(tags: OsmTags, base: u16)
    requires
        no_access_tags(tags),
    ensures
        overridden_bits(tags, base) == base,
{
}

/// The highway values the library knows are pairwise distinct, each
/// told from those before it in the classification order.
proof fn lemma_highway_values_distinct()
    ensures
        "trunk"@ != "motorway"@,
        "trunk"@ != "motorway_link"@,
        "trunk_link"@ != "motorway"@,
        "trunk_link"@ != "motorway_link"@,
        "primary"@ != "motorway"@,
        "primary"@ != "motorway_link"@,
        "primary_link"@ != "motorway"@,
        "primary_link"@ != "motorway_link"@,
        "secondary"@ != "motorway"@,
        "secondary"@ != "motorway_link"@,
        "secondary_link"@ != "motorway"@,
        "secondary_link"@ != "motorway_link"@,
        "tertiary"@ != "motorway"@,
        "tertiary"@ != "motorway_link"@,
        "tertiary_link"@ != "motorway"@,
        "tertiary_link"@ != "motorway_link"@,
        "residential"@ != "motorway"@,
        "residential"@ != "motorway_link"@,
        "unclassified"@ != "motorway"@,
        "unclassified"@ != "motorway_link"@,
        "living_street"@ != "motorway"@,
        "living_street"@ != "motorway_link"@,
        "service"@ != "motorway"@,
        "service"@ != "motorway_link"@,
        "track"@ != "motorway"@,
        "track"@ != "motorway_link"@,
        "track"@ != "trunk"@,
        "track"@ != "trunk_link"@,
        "track"@ != "primary"@,
        "track"@ != "primary_link"@,
        "track"@ != "secondary"@,
        "track"@ != "secondary_link"@,
        "track"@ != "tertiary"@,
        "track"@ != "tertiary_link"@,
        "track"@ != "residential"@,
        "track"@ != "unclassified"@,
        "track"@ != "living_street"@,
        "track"@ != "service"@,
        "path"@ != "motorway"@,
        "path"@ != "motorway_link"@,
        "path"@ != "trunk"@,
        "path"@ != "trunk_link"@,
        "path"@ != "primary"@,
        "path"@ != "primary_link"@,
        "path"@ != "secondary"@,
        "path"@ != "secondary_link"@,
        "path"@ != "tertiary"@,
        "path"@ != "tertiary_link"@,
        "path"@ != "residential"@,
        "path"@ != "unclassified"@,
        "path"@ != "living_street"@,
        "path"@ != "service"@,
        "path"@ != "track"@,
        "footway"@ != "motorway"@,
        "footway"@ != "motorway_link"@,
        "footway"@ != "trunk"@,
        "footway"@ != "trunk_link"@,
        "footway"@ != "primary"@,
        "footway"@ != "primary_link"@,
        "footway"@ != "secondary"@,
        "footway"@ != "secondary_link"@,
        "footway"@ != "tertiary"@,
        "footway"@ != "tertiary_link"@,
        "footway"@ != "residential"@,
        "footway"@ != "unclassified"@,
        "footway"@ != "living_street"@,
        "footway"@ != "service"@,
        "footway"@ != "track"@,
        "footway"@ != "path"@,
        "pedestrian"@ != "motorway"@,
        "pedestrian"@ != "motorway_link"@,
        "pedestrian"@ != "trunk"@,
        "pedestrian"@ != "trunk_link"@,
        "pedestrian"@ != "primary"@,
        "pedestrian"@ != "primary_link"@,
        "pedestrian"@ != "secondary"@,
        "pedestrian"@ != "secondary_link"@,
        "pedestrian"@ != "tertiary"@,
        "pedestrian"@ != "tertiary_link"@,
        "pedestrian"@ != "residential"@,
        "pedestrian"@ != "unclassified"@,
        "pedestrian"@ != "living_street"@,
        "pedestrian"@ != "service"@,
        "pedestrian"@ != "track"@,
        "pedestrian"@ != "path"@,
        "pedestrian"@ != "footway"@,
        "steps"@ != "motorway"@,
        "steps"@ != "motorway_link"@,
        "steps"@ != "trunk"@,
        "steps"@ != "trunk_link"@,
        "steps"@ != "primary"@,
        "steps"@ != "primary_link"@,
        "steps"@ != "secondary"@,
        "steps"@ != "secondary_link"@,
        "steps"@ != "tertiary"@,
        "steps"@ != "tertiary_link"@,
        "steps"@ != "residential"@,
        "steps"@ != "unclassified"@,
        "steps"@ != "living_street"@,
        "steps"@ != "service"@,
        "steps"@ != "track"@,
        "steps"@ != "path"@,
        "steps"@ != "footway"@,
        "steps"@ != "pedestrian"@,
        "cycleway"@ != "motorway"@,
        "cycleway"@ != "motorway_link"@,
        "cycleway"@ != "trunk"@,
        "cycleway"@ != "trunk_link"@,
        "cycleway"@ != "primary"@,
        "cycleway"@ != "primary_link"@,
        "cycleway"@ != "secondary"@,
        "cycleway"@ != "secondary_link"@,
        "cycleway"@ != "tertiary"@,
        "cycleway"@ != "tertiary_link"@,
        "cycleway"@ != "residential"@,
        "cycleway"@ != "unclassified"@,
        "cycleway"@ != "living_street"@,
        "cycleway"@ != "service"@,
        "cycleway"@ != "track"@,
        "cycleway"@ != "path"@,
        "cycleway"@ != "footway"@,
        "cycleway"@ != "pedestrian"@,
        "cycleway"@ != "steps"@,
        "bridleway"@ != "motorway"@,
        "bridleway"@ != "motorway_link"@,
        "bridleway"@ != "trunk"@,
        "bridleway"@ != "trunk_link"@,
        "bridleway"@ != "primary"@,
        "bridleway"@ != "primary_link"@,
        "bridleway"@ != "secondary"@,
        "bridleway"@ != "secondary_link"@,
        "bridleway"@ != "tertiary"@,
        "bridleway"@ != "tertiary_link"@,
        "bridleway"@ != "residential"@,
        "bridleway"@ != "unclassified"@,
        "bridleway"@ != "living_street"@,
        "bridleway"@ != "service"@,
        "bridleway"@ != "track"@,
        "bridleway"@ != "path"@,
        "bridleway"@ != "footway"@,
        "bridleway"@ != "pedestrian"@,
        "bridleway"@ != "steps"@,
        "bridleway"@ != "cycleway"@,
{
    reveal_strlit("motorway");
    reveal_strlit("motorway_link");
    reveal_strlit("trunk");
    reveal_strlit("trunk_link");
    reveal_strlit("primary");
    reveal_strlit("primary_link");
    reveal_strlit("secondary");
    reveal_strlit("secondary_link");
    reveal_strlit("tertiary");
    reveal_strlit("tertiary_link");
    reveal_strlit("residential");
    reveal_strlit("unclassified");
    reveal_strlit("living_street");
    reveal_strlit("service");
    reveal_strlit("track");
    reveal_strlit("path");
    reveal_strlit("footway");
    reveal_strlit("pedestrian");
    reveal_strlit("steps");
    reveal_strlit("cycleway");
    reveal_strlit("bridleway");
    assert("trunk"@ != "motorway"@) by {
        assert("trunk"@[0] != "motorway"@[0]);
    }
    assert("trunk"@ != "motorway_link"@) by {
        assert("trunk"@[0] != "motorway_link"@[0]);
    }
    assert("trunk_link"@ != "motorway"@) by {
        assert("trunk_link"@[0] != "motorway"@[0]);
    }
    assert("trunk_link"@ != "motorway_link"@) by {
        assert("trunk_link"@[0] != "motorway_link"@[0]);
    }
    assert("primary"@ != "motorway"@) by {
        assert("primary"@[0] != "motorway"@[0]);
    }
    assert("primary"@ != "motorway_link"@) by {
        assert("primary"@[0] != "motorway_link"@[0]);
    }
    assert("primary_link"@ != "motorway"@) by {
        assert("primary_link"@[0] != "motorway"@[0]);
    }
    assert("primary_link"@ != "motorway_link"@) by {
        assert("primary_link"@[0] != "motorway_link"@[0]);
    }
    assert("secondary"@ != "motorway"@) by {
        assert("secondary"@[0] != "motorway"@[0]);
    }
    assert("secondary"@ != "motorway_link"@) by {
        assert("secondary"@[0] != "motorway_link"@[0]);
    }
    assert("secondary_link"@ != "motorway"@) by {
        assert("secondary_link"@[0] != "motorway"@[0]);
    }
    assert("secondary_link"@ != "motorway_link"@) by {
        assert("secondary_link"@[0] != "motorway_link"@[0]);
    }
    assert("tertiary"@ != "motorway"@) by {
        assert("tertiary"@[0] != "motorway"@[0]);
    }
    assert("tertiary"@ != "motorway_link"@) by {
        assert("tertiary"@[0] != "motorway_link"@[0]);
    }
    assert("tertiary_link"@ != "motorway"@) by {
        assert("tertiary_link"@[0] != "motorway"@[0]);
    }
    assert("tertiary_link"@ != "motorway_link"@) by {
        assert("tertiary_link"@[0] != "motorway_link"@[0]);
    }
    assert("residential"@ != "motorway"@) by {
        assert("residential"@[0] != "motorway"@[0]);
    }
    assert("residential"@ != "motorway_link"@) by {
        assert("residential"@[0] != "motorway_link"@[0]);
    }
    assert("unclassified"@ != "motorway"@) by {
        assert("unclassified"@[0] != "motorway"@[0]);
    }
    assert("unclassified"@ != "motorway_link"@) by {
        assert("unclassified"@[0] != "motorway_link"@[0]);
    }
    assert("living_street"@ != "motorway"@) by {
        assert("living_street"@[0] != "motorway"@[0]);
    }
    assert("living_street"@ != "motorway_link"@) by {
        assert("living_street"@[0] != "motorway_link"@[0]);
    }
    assert("service"@ != "motorway"@) by {
        assert("service"@[0] != "motorway"@[0]);
    }
    assert("service"@ != "motorway_link"@) by {
        assert("service"@[0] != "motorway_link"@[0]);
    }
    assert("track"@ != "motorway"@) by {
        assert("track"@[0] != "motorway"@[0]);
    }
    assert("track"@ != "motorway_link"@) by {
        assert("track"@[0] != "motorway_link"@[0]);
    }
    assert("track"@ != "trunk"@) by {
        assert("track"@[2] != "trunk"@[2]);
    }
    assert("track"@ != "trunk_link"@) by {
        assert("track"@[2] != "trunk_link"@[2]);
    }
    assert("track"@ != "primary"@) by {
        assert("track"@[0] != "primary"@[0]);
    }
    assert("track"@ != "primary_link"@) by {
        assert("track"@[0] != "primary_link"@[0]);
    }
    assert("track"@ != "secondary"@) by {
        assert("track"@[0] != "secondary"@[0]);
    }
    assert("track"@ != "secondary_link"@) by {
        assert("track"@[0] != "secondary_link"@[0]);
    }
    assert("track"@ != "tertiary"@) by {
        assert("track"@[1] != "tertiary"@[1]);
    }
    assert("track"@ != "tertiary_link"@) by {
        assert("track"@[1] != "tertiary_link"@[1]);
    }
    assert("track"@ != "residential"@) by {
        assert("track"@[0] != "residential"@[0]);
    }
    assert("track"@ != "unclassified"@) by {
        assert("track"@[0] != "unclassified"@[0]);
    }
    assert("track"@ != "living_street"@) by {
        assert("track"@[0] != "living_street"@[0]);
    }
    assert("track"@ != "service"@) by {
        assert("track"@[0] != "service"@[0]);
    }
    assert("path"@ != "motorway"@) by {
        assert("path"@[0] != "motorway"@[0]);
    }
    assert("path"@ != "motorway_link"@) by {
        assert("path"@[0] != "motorway_link"@[0]);
    }
    assert("path"@ != "trunk"@) by {
        assert("path"@[0] != "trunk"@[0]);
    }
    assert("path"@ != "trunk_link"@) by {
        assert("path"@[0] != "trunk_link"@[0]);
    }
    assert("path"@ != "primary"@) by {
        assert("path"@[1] != "primary"@[1]);
    }
    assert("path"@ != "primary_link"@) by {
        assert("path"@[1] != "primary_link"@[1]);
    }
    assert("path"@ != "secondary"@) by {
        assert("path"@[0] != "secondary"@[0]);
    }
    assert("path"@ != "secondary_link"@) by {
        assert("path"@[0] != "secondary_link"@[0]);
    }
    assert("path"@ != "tertiary"@) by {
        assert("path"@[0] != "tertiary"@[0]);
    }
    assert("path"@ != "tertiary_link"@) by {
        assert("path"@[0] != "tertiary_link"@[0]);
    }
    assert("path"@ != "residential"@) by {
        assert("path"@[0] != "residential"@[0]);
    }
    assert("path"@ != "unclassified"@) by {
        assert("path"@[0] != "unclassified"@[0]);
    }
    assert("path"@ != "living_street"@) by {
        assert("path"@[0] != "living_street"@[0]);
    }
    assert("path"@ != "service"@) by {
        assert("path"@[0] != "service"@[0]);
    }
    assert("path"@ != "track"@) by {
        assert("path"@[0] != "track"@[0]);
    }
    assert("footway"@ != "motorway"@) by {
        assert("footway"@[0] != "motorway"@[0]);
    }
    assert("footway"@ != "motorway_link"@) by {
        assert("footway"@[0] != "motorway_link"@[0]);
    }
    assert("footway"@ != "trunk"@) by {
        assert("footway"@[0] != "trunk"@[0]);
    }
    assert("footway"@ != "trunk_link"@) by {
        assert("footway"@[0] != "trunk_link"@[0]);
    }
    assert("footway"@ != "primary"@) by {
        assert("footway"@[0] != "primary"@[0]);
    }
    assert("footway"@ != "primary_link"@) by {
        assert("footway"@[0] != "primary_link"@[0]);
    }
    assert("footway"@ != "secondary"@) by {
        assert("footway"@[0] != "secondary"@[0]);
    }
    assert("footway"@ != "secondary_link"@) by {
        assert("footway"@[0] != "secondary_link"@[0]);
    }
    assert("footway"@ != "tertiary"@) by {
        assert("footway"@[0] != "tertiary"@[0]);
    }
    assert("footway"@ != "tertiary_link"@) by {
        assert("footway"@[0] != "tertiary_link"@[0]);
    }
    assert("footway"@ != "residential"@) by {
        assert("footway"@[0] != "residential"@[0]);
    }
    assert("footway"@ != "unclassified"@) by {
        assert("footway"@[0] != "unclassified"@[0]);
    }
    assert("footway"@ != "living_street"@) by {
        assert("footway"@[0] != "living_street"@[0]);
    }
    assert("footway"@ != "service"@) by {
        assert("footway"@[0] != "service"@[0]);
    }
    assert("footway"@ != "track"@) by {
        assert("footway"@[0] != "track"@[0]);
    }
    assert("footway"@ != "path"@) by {
        assert("footway"@[0] != "path"@[0]);
    }
    assert("pedestrian"@ != "motorway"@) by {
        assert("pedestrian"@[0] != "motorway"@[0]);
    }
    assert("pedestrian"@ != "motorway_link"@) by {
        assert("pedestrian"@[0] != "motorway_link"@[0]);
    }
    assert("pedestrian"@ != "trunk"@) by {
        assert("pedestrian"@[0] != "trunk"@[0]);
    }
    assert("pedestrian"@ != "trunk_link"@) by {
        assert("pedestrian"@[0] != "trunk_link"@[0]);
    }
    assert("pedestrian"@ != "primary"@) by {
        assert("pedestrian"@[1] != "primary"@[1]);
    }
    assert("pedestrian"@ != "primary_link"@) by {
        assert("pedestrian"@[1] != "primary_link"@[1]);
    }
    assert("pedestrian"@ != "secondary"@) by {
        assert("pedestrian"@[0] != "secondary"@[0]);
    }
    assert("pedestrian"@ != "secondary_link"@) by {
        assert("pedestrian"@[0] != "secondary_link"@[0]);
    }
    assert("pedestrian"@ != "tertiary"@) by {
        assert("pedestrian"@[0] != "tertiary"@[0]);
    }
    assert("pedestrian"@ != "tertiary_link"@) by {
        assert("pedestrian"@[0] != "tertiary_link"@[0]);
    }
    assert("pedestrian"@ != "residential"@) by {
        assert("pedestrian"@[0] != "residential"@[0]);
    }
    assert("pedestrian"@ != "unclassified"@) by {
        assert("pedestrian"@[0] != "unclassified"@[0]);
    }
    assert("pedestrian"@ != "living_street"@) by {
        assert("pedestrian"@[0] != "living_street"@[0]);
    }
    assert("pedestrian"@ != "service"@) by {
        assert("pedestrian"@[0] != "service"@[0]);
    }
    assert("pedestrian"@ != "track"@) by {
        assert("pedestrian"@[0] != "track"@[0]);
    }
    assert("pedestrian"@ != "path"@) by {
        assert("pedestrian"@[1] != "path"@[1]);
    }
    assert("pedestrian"@ != "footway"@) by {
        assert("pedestrian"@[0] != "footway"@[0]);
    }
    assert("steps"@ != "motorway"@) by {
        assert("steps"@[0] != "motorway"@[0]);
    }
    assert("steps"@ != "motorway_link"@) by {
        assert("steps"@[0] != "motorway_link"@[0]);
    }
    assert("steps"@ != "trunk"@) by {
        assert("steps"@[0] != "trunk"@[0]);
    }
    assert("steps"@ != "trunk_link"@) by {
        assert("steps"@[0] != "trunk_link"@[0]);
    }
    assert("steps"@ != "primary"@) by {
        assert("steps"@[0] != "primary"@[0]);
    }
    assert("steps"@ != "primary_link"@) by {
        assert("steps"@[0] != "primary_link"@[0]);
    }
    assert("steps"@ != "secondary"@) by {
        assert("steps"@[1] != "secondary"@[1]);
    }
    assert("steps"@ != "secondary_link"@) by {
        assert("steps"@[1] != "secondary_link"@[1]);
    }
    assert("steps"@ != "tertiary"@) by {
        assert("steps"@[0] != "tertiary"@[0]);
    }
    assert("steps"@ != "tertiary_link"@) by {
        assert("steps"@[0] != "tertiary_link"@[0]);
    }
    assert("steps"@ != "residential"@) by {
        assert("steps"@[0] != "residential"@[0]);
    }
    assert("steps"@ != "unclassified"@) by {
        assert("steps"@[0] != "unclassified"@[0]);
    }
    assert("steps"@ != "living_street"@) by {
        assert("steps"@[0] != "living_street"@[0]);
    }
    assert("steps"@ != "service"@) by {
        assert("steps"@[1] != "service"@[1]);
    }
    assert("steps"@ != "track"@) by {
        assert("steps"@[0] != "track"@[0]);
    }
    assert("steps"@ != "path"@) by {
        assert("steps"@[0] != "path"@[0]);
    }
    assert("steps"@ != "footway"@) by {
        assert("steps"@[0] != "footway"@[0]);
    }
    assert("steps"@ != "pedestrian"@) by {
        assert("steps"@[0] != "pedestrian"@[0]);
    }
    assert("cycleway"@ != "motorway"@) by {
        assert("cycleway"@[0] != "motorway"@[0]);
    }
    assert("cycleway"@ != "motorway_link"@) by {
        assert("cycleway"@[0] != "motorway_link"@[0]);
    }
    assert("cycleway"@ != "trunk"@) by {
        assert("cycleway"@[0] != "trunk"@[0]);
    }
    assert("cycleway"@ != "trunk_link"@) by {
        assert("cycleway"@[0] != "trunk_link"@[0]);
    }
    assert("cycleway"@ != "primary"@) by {
        assert("cycleway"@[0] != "primary"@[0]);
    }
    assert("cycleway"@ != "primary_link"@) by {
        assert("cycleway"@[0] != "primary_link"@[0]);
    }
    assert("cycleway"@ != "secondary"@) by {
        assert("cycleway"@[0] != "secondary"@[0]);
    }
    assert("cycleway"@ != "secondary_link"@) by {
        assert("cycleway"@[0] != "secondary_link"@[0]);
    }
    assert("cycleway"@ != "tertiary"@) by {
        assert("cycleway"@[0] != "tertiary"@[0]);
    }
    assert("cycleway"@ != "tertiary_link"@) by {
        assert("cycleway"@[0] != "tertiary_link"@[0]);
    }
    assert("cycleway"@ != "residential"@) by {
        assert("cycleway"@[0] != "residential"@[0]);
    }
    assert("cycleway"@ != "unclassified"@) by {
        assert("cycleway"@[0] != "unclassified"@[0]);
    }
    assert("cycleway"@ != "living_street"@) by {
        assert("cycleway"@[0] != "living_street"@[0]);
    }
    assert("cycleway"@ != "service"@) by {
        assert("cycleway"@[0] != "service"@[0]);
    }
    assert("cycleway"@ != "track"@) by {
        assert("cycleway"@[0] != "track"@[0]);
    }
    assert("cycleway"@ != "path"@) by {
        assert("cycleway"@[0] != "path"@[0]);
    }
    assert("cycleway"@ != "footway"@) by {
        assert("cycleway"@[0] != "footway"@[0]);
    }
    assert("cycleway"@ != "pedestrian"@) by {
        assert("cycleway"@[0] != "pedestrian"@[0]);
    }
    assert("cycleway"@ != "steps"@) by {
        assert("cycleway"@[0] != "steps"@[0]);
    }
    assert("bridleway"@ != "motorway"@) by {
        assert("bridleway"@[0] != "motorway"@[0]);
    }
    assert("bridleway"@ != "motorway_link"@) by {
        assert("bridleway"@[0] != "motorway_link"@[0]);
    }
    assert("bridleway"@ != "trunk"@) by {
        assert("bridleway"@[0] != "trunk"@[0]);
    }
    assert("bridleway"@ != "trunk_link"@) by {
        assert("bridleway"@[0] != "trunk_link"@[0]);
    }
    assert("bridleway"@ != "primary"@) by {
        assert("bridleway"@[0] != "primary"@[0]);
    }
    assert("bridleway"@ != "primary_link"@) by {
        assert("bridleway"@[0] != "primary_link"@[0]);
    }
    assert("bridleway"@ != "secondary"@) by {
        assert("bridleway"@[0] != "secondary"@[0]);
    }
    assert("bridleway"@ != "secondary_link"@) by {
        assert("bridleway"@[0] != "secondary_link"@[0]);
    }
    assert("bridleway"@ != "tertiary"@) by {
        assert("bridleway"@[0] != "tertiary"@[0]);
    }
    assert("bridleway"@ != "tertiary_link"@) by {
        assert("bridleway"@[0] != "tertiary_link"@[0]);
    }
    assert("bridleway"@ != "residential"@) by {
        assert("bridleway"@[0] != "residential"@[0]);
    }
    assert("bridleway"@ != "unclassified"@) by {
        assert("bridleway"@[0] != "unclassified"@[0]);
    }
    assert("bridleway"@ != "living_street"@) by {
        assert("bridleway"@[0] != "living_street"@[0]);
    }
    assert("bridleway"@ != "service"@) by {
        assert("bridleway"@[0] != "service"@[0]);
    }
    assert("bridleway"@ != "track"@) by {
        assert("bridleway"@[0] != "track"@[0]);
    }
    assert("bridleway"@ != "path"@) by {
        assert("bridleway"@[0] != "path"@[0]);
    }
    assert("bridleway"@ != "footway"@) by {
        assert("bridleway"@[0] != "footway"@[0]);
    }
    assert("bridleway"@ != "pedestrian"@) by {
        assert("bridleway"@[0] != "pedestrian"@[0]);
    }
    assert("bridleway"@ != "steps"@) by {
        assert("bridleway"@[0] != "steps"@[0]);
    }
    assert("bridleway"@ != "cycleway"@) by {
        assert("bridleway"@[0] != "cycleway"@[0]);
    }
}

/// The base modes of each highway value the library knows.
proof fn lemma_base_bits_table()
    ensures
        highway_base_bits("motorway"@) == 17u16,
        highway_base_bits("motorway_link"@) == 17u16,
        highway_base_bits("trunk"@) == 23u16,
        highway_base_bits("trunk_link"@) == 23u16,
        highway_base_bits("primary"@) == 23u16,
        highway_base_bits("primary_link"@) == 23u16,
        highway_base_bits("secondary"@) == 23u16,
        highway_base_bits("secondary_link"@) == 23u16,
        highway_base_bits("tertiary"@) == 23u16,
        highway_base_bits("tertiary_link"@) == 23u16,
        highway_base_bits("residential"@) == 23u16,
        highway_base_bits("unclassified"@) == 23u16,
        highway_base_bits("living_street"@) == 23u16,
        highway_base_bits("service"@) == 23u16,
        highway_base_bits("track"@) == 23u16,
        highway_base_bits("path"@) == ACCESS_FOOT,
        highway_base_bits("footway"@) == ACCESS_FOOT,
        highway_base_bits("pedestrian"@) == ACCESS_FOOT,
        highway_base_bits("steps"@) == ACCESS_FOOT,
        highway_base_bits("cycleway"@) == 6u16,
        highway_base_bits("bridleway"@) == ACCESS_FOOT,
{
    lemma_highway_values_distinct();
    reveal_strlit("motorway");
    reveal_strlit("motorway_link");
    reveal_strlit("trunk");
    reveal_strlit("trunk_link");
    reveal_strlit("primary");
    reveal_strlit("primary_link");
    reveal_strlit("secondary");
    reveal_strlit("secondary_link");
    reveal_strlit("tertiary");
    reveal_strlit("tertiary_link");
    reveal_strlit("residential");
    reveal_strlit("unclassified");
    reveal_strlit("living_street");
    reveal_strlit("service");
    reveal_strlit("track");
    reveal_strlit("path");
    reveal_strlit("footway");
    reveal_strlit("pedestrian");
    reveal_strlit("steps");
    reveal_strlit("cycleway");
    reveal_strlit("bridleway");
}

/// Law: without access tags and outside ferries, the modes of a way are
/// those its highway value admits: motorways cars and HGVs; the ordinary
/// road classes and tracks cars, bicycles, pedestrians and HGVs; paths,
/// footways, pedestrian streets, steps and bridleways pedestrians;
/// cycleways bicycles and pedestrians. A ferry route admits every mode.
pub proof fn lemma_highway_default_modes(tags: OsmTags, highway: Seq<char>, route: Option<Seq<char>>)
    requires
        no_access_tags(tags),
    ensures
        route == Some("ferry"@) ==> access_of(tags, highway, route) == ACCESS_CAR | ACCESS_BICYCLE | ACCESS_FOOT
            | ACCESS_TRANSIT | ACCESS_HGV,
        route != Some("ferry"@) ==> {
            &&& (highway == "motorway"@ || highway == "motorway_link"@) ==> access_of(tags, highway, route)
                == ACCESS_CAR | ACCESS_HGV
            &&& (highway == "trunk"@ || highway == "trunk_link"@ || highway == "primary"@ || highway
                == "primary_link"@ || highway == "secondary"@ || highway == "secondary_link"@ || highway
                == "tertiary"@ || highway == "tertiary_link"@ || highway == "residential"@ || highway
                == "unclassified"@ || highway == "living_street"@ || highway == "service"@ || highway
                == "track"@) ==> access_of(tags, highway, route) == ACCESS_CAR | ACCESS_BICYCLE | ACCESS_FOOT
                | ACCESS_HGV
            &&& (highway == "path"@ || highway == "footway"@ || highway == "pedestrian"@ || highway == "steps"@
                || highway == "bridleway"@) ==> access_of(tags, highway, route) == ACCESS_FOOT
            &&& highway == "cycleway"@ ==> access_of(tags, highway, route) == ACCESS_BICYCLE | ACCESS_FOOT
        },
{
    lemma_mode_unions();
    lemma_base_bits_table();
    lemma_untagged_access_keeps_base(tags, 31u16);
    lemma_untagged_access_keeps_base(tags, highway_base_bits(highway));
}

/// Law: a way tagged only as a track, with no access tags and not a
/// ferry, is a track open to cars, bicycles, pedestrians and HGVs.
pub proof fn lemma_track_way(tags: OsmTags)
    requires
        no_access_tags(tags),
        tag_value(tags, "highway"@) == Some("track"@),
        tag_value(tags, "route"@) != Some("ferry"@),
    ensures
        way_class(tags) == Some(
            (RoadClass::Track, HighwayClass::Track, ACCESS_CAR | ACCESS_BICYCLE | ACCESS_FOOT | ACCESS_HGV),
        ),
{
    lemma_highway_default_modes(tags, "track"@, tag_value(tags, "route"@));
    assert(highway_tag_class("track"@) == Some(HighwayClass::Track)) by {
        reveal_strlit("motorway");
        reveal_strlit("motorway_link");
        reveal_strlit("trunk");
        reveal_strlit("trunk_link");
        reveal_strlit("primary");
        reveal_strlit("primary_link");
        reveal_strlit("secondary");
        reveal_strlit("secondary_link");
        reveal_strlit("tertiary");
        reveal_strlit("tertiary_link");
        reveal_strlit("residential");
        reveal_strlit("unclassified");
        reveal_strlit("living_street");
        reveal_strlit("service");
        reveal_strlit("track");
        assert("track"@[2] != "trunk"@[2]);
    }
}

} // verus!
