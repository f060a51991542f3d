//! Decisions taken while reading GeoPackage layers: which mapped layer a
//! table belongs to, how class, access and direction values decode, and
//! how SQL identifiers are quoted.

use vstd::prelude::*;

use crate::attributes::FeatureAttributeType;
use crate::graph::{AccessMask, HighwayClass, ACCESS_BICYCLE, ACCESS_CAR, ACCESS_FOOT, ACCESS_HGV, ACCESS_TRANSIT};
use crate::mapping::{DirectionValue, GeoPackageLayerMapping};
use crate::text::{
    chars_of, chars_of_string, contains_lit, contains_seq, ends_with, eq_ignore_case, is_lit, is_lit_ignore_case,
    normalize_attribute_name, normalized_name, starts_with, starts_with_lit, string_from_chars, sub_chars,
    to_ascii_uppercase, trim, trim_chars, upper_seq, eq_ignore_ascii_case, ends_with_lit,
};

verus! {

// ---------------------------------------------------------------------------
// SQL identifiers.
// ---------------------------------------------------------------------------
/// `s` with every double quote doubled.
pub open spec fn doubled_quotes(s: Seq<char>) -> Seq<char>
    decreases s.len(),
{
    if s.len() == 0 {
        s
    } else if s.last() == '"' {
        doubled_quotes(s.drop_last()).push('"').push('"')
    } else {
        doubled_quotes(s.drop_last()).push(s.last())
    }
}

/// Quotes an SQL identifier: wraps it in double quotes and doubles the
/// double quotes inside it.
pub fn quote_identifier(value: &str) -> (r: String)
    ensures
        r@ == seq!['"'] + doubled_quotes(value@) + seq!['"'],
{
    let chars = chars_of(value);
    let mut out: Vec<char> = Vec::new();
    out.push('"');
    let mut i: usize = 0;
    while i < chars.len()
        invariant
            i <= chars@.len(),
            chars@ == value@,
            out@ == seq!['"'] + doubled_quotes(chars@.take(i as int)),
        decreases chars@.len() - i,
    {
        proof {
            assert(chars@.take(i + 1).drop_last() =~= chars@.take(i as int));
        }
        if chars[i] == '"' {
            out.push('"');
            out.push('"');
        } else {
            out.push(chars[i]);
        }
        proof {
            assert(out@ =~= seq!['"'] + doubled_quotes(chars@.take(i + 1)));
        }
        i += 1;
    }
    out.push('"');
    proof {
        assert(chars@.take(chars@.len() as int) =~= chars@);
    }
    string_from_chars(&out)
}

// ---------------------------------------------------------------------------
// Layers and columns.
// ---------------------------------------------------------------------------
/// A mapped layer applies to a table when the table names agree (ASCII
/// case ignored) and, where the layer names a source, the file name equals
/// it (ASCII case ignored) or the whole path ends with it.
pub open spec fn layer_applies(
    mapping: GeoPackageLayerMapping,
    file_name: Option<Seq<char>>,
    path: Seq<char>,
    table: Seq<char>,
) -> bool {
    &&& eq_ignore_case(mapping.table@, table)
    &&& match mapping.source {
        None => true,
        Some(expected) => (file_name is Some && eq_ignore_case(file_name->Some_0, expected@)) || ends_with(
            path,
            expected@,
        ),
    }
}

/// Whether `mapping` applies to `table` of the source file with the given
/// file name and path text.
pub fn layer_matches(mapping: &GeoPackageLayerMapping, file_name: Option<&str>, path: &str, table: &str) -> (r: bool)
    ensures
        r == layer_applies(
            *mapping,
            match file_name {
                Some(f) => Some(f@),
                None => None,
            },
            path@,
            table@,
        ),
{
    let mapped = chars_of_string(&mapping.table);
    let wanted = chars_of(table);
    if !eq_ignore_ascii_case(&mapped, &wanted) {
        return false;
    }
    match &mapping.source {
        None => true,
        Some(expected) => {
            let e = chars_of_string(expected);
            let by_name = match file_name {
                Some(f) => {
                    let fc = chars_of(f);
                    eq_ignore_ascii_case(&fc, &e)
                },
                None => false,
            };
            if by_name {
                return true;
            }
            let p = chars_of(path);
            ends_with_lit(&p, expected.as_str())
        },
    }
}

/// The storage type of a source column: JSON for access schedules,
/// otherwise by SQLite's affinity rules on the declared type.
pub open spec fn sqlite_type_of(declared: Seq<char>, role: Option<Seq<char>>) -> FeatureAttributeType {
    let d = upper_seq(declared);
    if role is Some && eq_ignore_case(role->Some_0, "access_schedule"@) {
        FeatureAttributeType::Json
    } else if contains_seq(d, "BOOL"@) {
        FeatureAttributeType::Boolean
    } else if contains_seq(d, "INT"@) {
        FeatureAttributeType::Integer
    } else if contains_seq(d, "REAL"@) || contains_seq(d, "FLOA"@) || contains_seq(d, "DOUB"@) || contains_seq(
        d,
        "DEC"@,
    ) || contains_seq(d, "NUM"@) {
        FeatureAttributeType::Float
    } else {
        FeatureAttributeType::String
    }
}

pub fn sqlite_attribute_type(declared: &str, role: Option<&str>) -> (r: FeatureAttributeType)
    ensures
        r == sqlite_type_of(
            declared@,
            match role {
                Some(x) => Some(x@),
                None => None,
            },
        ),
{
    let is_schedule = match role {
        Some(x) => {
            let rc = chars_of(x);
            is_lit_ignore_case(&rc, "access_schedule")
        },
        None => false,
    };
    if is_schedule {
        return FeatureAttributeType::Json;
    }
    let dc = chars_of(declared);
    let d = to_ascii_uppercase(&dc);
    if contains_lit(&d, "BOOL") {
        FeatureAttributeType::Boolean
    } else if contains_lit(&d, "INT") {
        FeatureAttributeType::Integer
    } else if contains_lit(&d, "REAL") || contains_lit(&d, "FLOA") || contains_lit(&d, "DOUB") || contains_lit(
        &d,
        "DEC",
    ) || contains_lit(&d, "NUM") {
        FeatureAttributeType::Float
    } else {
        FeatureAttributeType::String
    }
}

// ---------------------------------------------------------------------------
// Classes, access modes and directions.
// ---------------------------------------------------------------------------
/// The class named by a normalized value (after an `m_` prefix is dropped).
pub open spec fn highway_named(n: Seq<char>) -> Option<HighwayClass> {
    if n == "motorway"@ {
        Some(HighwayClass::Motorway)
    } else if n == "motorway_link"@ {
        Some(HighwayClass::MotorwayLink)
    } else if n == "trunk"@ {
        Some(HighwayClass::Trunk)
    } else if n == "trunk_link"@ {
        Some(HighwayClass::TrunkLink)
    } else if n == "primary"@ {
        Some(HighwayClass::Primary)
    } else if n == "primary_link"@ {
        Some(HighwayClass::PrimaryLink)
    } else if n == "secondary"@ {
        Some(HighwayClass::Secondary)
    } else if n == "secondary_link"@ {
        Some(HighwayClass::SecondaryLink)
    } else if n == "tertiary"@ {
        Some(HighwayClass::Tertiary)
    } else if n == "tertiary_link"@ {
        Some(HighwayClass::TertiaryLink)
    } else if n == "residential"@ || n == "village"@ {
        Some(HighwayClass::Residential)
    } else if n == "unclassified"@ {
        Some(HighwayClass::Unclassified)
    } else if n == "living_street"@ {
        Some(HighwayClass::LivingStreet)
    } else if n == "service"@ || n == "service_lane"@ || n == "runin"@ {
        Some(HighwayClass::Service)
    } else if n == "track"@ {
        Some(HighwayClass::Track)
    } else if n == "cycleway"@ {
        Some(HighwayClass::Cycleway)
    } else if n == "pedestrian"@ {
        Some(HighwayClass::Pedestrian)
    } else if n == "steps"@ || n == "stair"@ || n == "stairs"@ || n == "staircase"@ || n == "stairlift"@ {
        Some(HighwayClass::Steps)
    } else if n == "bridleway"@ {
        Some(HighwayClass::Bridleway)
    } else if n == "ferry"@ {
        Some(HighwayClass::Ferry)
    } else if n == "path"@ || n == "footpath"@ || n == "generalized_walkway_inside_park"@ {
        Some(HighwayClass::Path)
    } else if n == "footway"@ || n == "footbridge"@ || n == "subway"@ || n == "traffic_island"@ || n
        == "escalator"@ || n == "travelator"@ || n == "lift"@ || n == "ramp"@ || n == "crossing_signalized"@
        || n == "crossing_zebra"@ || n == "crossing_cautionary"@ || n == "crossing_others"@ || n == "other"@
        || n == "others"@ {
        Some(HighwayClass::Footway)
    } else {
        None
    }
}

/// A normalized value without a leading `m_`.
pub open spec fn without_m_prefix(n: Seq<char>) -> Seq<char> {
    if starts_with(n, "m_"@) {
        n.subrange(2, n.len() as int)
    } else {
        n
    }
}

/// Decodes a mapped class value such as `Staircase` or `M_Escalator`.
pub fn highway_class(value: &str) -> (r: Option<HighwayClass>)
    ensures
        r == highway_named(without_m_prefix(normalized_name(value@))),
{
    proof {
        reveal_strlit("m_");
    }
    let normalized = normalize_attribute_name(value);
    let nc = chars_of_string(&normalized);
    let n = if starts_with_lit(&nc, "m_") {
        sub_chars(&nc, 2, nc.len())
    } else {
        sub_chars(&nc, 0, nc.len())
    };
    proof {
        assert(n@ == without_m_prefix(normalized_name(value@)));
    }
    highway_of_name(&n)
}

fn highway_of_name(n: &Vec<char>) -> (r: Option<HighwayClass>)
    ensures
        r == highway_named(n@),
{
    let n = n;
    if is_lit(&n, "motorway") {
        Some(HighwayClass::Motorway)
    } else if is_lit(&n, "motorway_link") {
        Some(HighwayClass::MotorwayLink)
    } else if is_lit(&n, "trunk") {
        Some(HighwayClass::Trunk)
    } else if is_lit(&n, "trunk_link") {
        Some(HighwayClass::TrunkLink)
    } else if is_lit(&n, "primary") {
        Some(HighwayClass::Primary)
    } else if is_lit(&n, "primary_link") {
        Some(HighwayClass::PrimaryLink)
    } else if is_lit(&n, "secondary") {
        Some(HighwayClass::Secondary)
    } else if is_lit(&n, "secondary_link") {
        Some(HighwayClass::SecondaryLink)
    } else if is_lit(&n, "tertiary") {
        Some(HighwayClass::Tertiary)
    } else if is_lit(&n, "tertiary_link") {
        Some(HighwayClass::TertiaryLink)
    } else if is_lit(&n, "residential") || is_lit(&n, "village") {
        Some(HighwayClass::Residential)
    } else if is_lit(&n, "unclassified") {
        Some(HighwayClass::Unclassified)
    } else if is_lit(&n, "living_street") {
        Some(HighwayClass::LivingStreet)
    } else if is_lit(&n, "service") || is_lit(&n, "service_lane") || is_lit(&n, "runin") {
        Some(HighwayClass::Service)
    } else if is_lit(&n, "track") {
        Some(HighwayClass::Track)
    } else if is_lit(&n, "cycleway") {
        Some(HighwayClass::Cycleway)
    } else if is_lit(&n, "pedestrian") {
        Some(HighwayClass::Pedestrian)
    } else if is_lit(&n, "steps") || is_lit(&n, "stair") || is_lit(&n, "stairs") || is_lit(&n, "staircase")
        || is_lit(&n, "stairlift") {
        Some(HighwayClass::Steps)
    } else if is_lit(&n, "bridleway") {
        Some(HighwayClass::Bridleway)
    } else if is_lit(&n, "ferry") {
        Some(HighwayClass::Ferry)
    } else if is_lit(&n, "path") || is_lit(&n, "footpath") || is_lit(&n, "generalized_walkway_inside_park") {
        Some(HighwayClass::Path)
    } else if is_lit(&n, "footway") || is_lit(&n, "footbridge") || is_lit(&n, "subway") || is_lit(
        &n,
        "traffic_island",
    ) || is_lit(&n, "escalator") || is_lit(&n, "travelator") || is_lit(&n, "lift") || is_lit(&n, "ramp")
        || is_lit(&n, "crossing_signalized") || is_lit(&n, "crossing_zebra") || is_lit(
        &n,
        "crossing_cautionary",
    ) || is_lit(&n, "crossing_others") || is_lit(&n, "other") || is_lit(&n, "others") {
        Some(HighwayClass::Footway)
    } else {
        None
    }
}

/// The access bit of a normalized mode name.
pub open spec fn access_mode_bit(n: Seq<char>) -> Option<u16> {
    if n == "car"@ {
        Some(ACCESS_CAR)
    } else if n == "bicycle"@ || n == "bike"@ {
        Some(ACCESS_BICYCLE)
    } else if n == "foot"@ || n == "pedestrian"@ || n == "walk"@ {
        Some(ACCESS_FOOT)
    } else if n == "transit"@ {
        Some(ACCESS_TRANSIT)
    } else if n == "hgv"@ {
        Some(ACCESS_HGV)
    } else {
        None
    }
}

/// The union of the modes named; `None` as soon as one is unknown.
pub open spec fn access_bits_of(values: Seq<String>) -> Option<u16>
    decreases values.len(),
{
    if values.len() == 0 {
        Some(0)
    } else {
        match access_bits_of(values.drop_last()) {
            None => None,
            Some(bits) => match access_mode_bit(normalized_name(values.last()@)) {
                None => None,
                Some(bit) => Some(bits | bit),
            },
        }
    }
}

proof fn lemma_access_none_sticky(values: Seq<String>, k: int)
    requires
        0 <= k <= values.len(),
        access_bits_of(values.take(k)) is None,
    ensures
        access_bits_of(values) is None,
    decreases values.len() - k,
{
    if k < values.len() {
        assert(values.take(k + 1).drop_last() =~= values.take(k));
        lemma_access_none_sticky(values, k + 1);
    } else {
        assert(values.take(k) =~= values);
    }
}

/// The access mask of a layer's default access modes, such as `foot` or
/// `bike`; `None` for an unknown mode.
pub fn access_mask(values: &Vec<String>) -> (r: Option<AccessMask>)
    ensures
        match access_bits_of(values@) {
            Some(bits) => r == Some(AccessMask(bits)),
            None => r is None,
        },
{
    let mut bits: u16 = 0;
    let mut i: usize = 0;
    proof {
        assert(values@.take(0) =~= Seq::<String>::empty());
    }
    while i < values.len()
        invariant
            i <= values@.len(),
            access_bits_of(values@.take(i as int)) == Some(bits),
        decreases values@.len() - i,
    {
        proof {
            assert(values@.take(i + 1).drop_last() =~= values@.take(i as int));
        }
        let normalized = normalize_attribute_name(values[i].as_str());
        let n = chars_of_string(&normalized);
        let bit = if is_lit(&n, "car") {
            ACCESS_CAR
        } else if is_lit(&n, "bicycle") || is_lit(&n, "bike") {
            ACCESS_BICYCLE
        } else if is_lit(&n, "foot") || is_lit(&n, "pedestrian") || is_lit(&n, "walk") {
            ACCESS_FOOT
        } else if is_lit(&n, "transit") {
            ACCESS_TRANSIT
        } else if is_lit(&n, "hgv") {
            ACCESS_HGV
        } else {
            proof {
                lemma_access_none_sticky(values@, i + 1);
            }
            return None;
        };
        bits = bits | bit;
        i += 1;
    }
    proof {
        assert(values@.take(values@.len() as int) =~= values@);
    }
    Some(AccessMask(bits))
}

/// The direction that one candidate text names: `-1`, `0`, `1` as trimmed
/// text, or a normalized name such as `forward_only` or `two_way`.
pub open spec fn direction_named(c: Seq<char>) -> Option<DirectionValue> {
    let t = trim(c);
    let n = normalized_name(c);
    if t == "-1"@ {
        Some(DirectionValue::Reverse)
    } else if t == "0"@ {
        Some(DirectionValue::Both)
    } else if t == "1"@ {
        Some(DirectionValue::Forward)
    } else if n == "1"@ || n == "forward"@ || n == "forward_only"@ || n == "one_way_forward"@ {
        Some(DirectionValue::Forward)
    } else if n == "reverse"@ || n == "backward"@ || n == "reverse_only"@ || n == "one_way_backward"@ {
        Some(DirectionValue::Reverse)
    } else if n == "0"@ || n == "both"@ || n == "both_ways"@ || n == "two_way"@ {
        Some(DirectionValue::Both)
    } else {
        None
    }
}

fn direction_of_text(c: &str) -> (r: Option<DirectionValue>)
    ensures
        r == direction_named(c@),
{
    let chars = chars_of(c);
    let t = trim_chars(&chars);
    if is_lit(&t, "-1") {
        return Some(DirectionValue::Reverse);
    }
    if is_lit(&t, "0") {
        return Some(DirectionValue::Both);
    }
    if is_lit(&t, "1") {
        return Some(DirectionValue::Forward);
    }
    let normalized = normalize_attribute_name(c);
    let n = chars_of_string(&normalized);
    if is_lit(&n, "1") || is_lit(&n, "forward") || is_lit(&n, "forward_only") || is_lit(&n, "one_way_forward") {
        Some(DirectionValue::Forward)
    } else if is_lit(&n, "reverse") || is_lit(&n, "backward") || is_lit(&n, "reverse_only") || is_lit(
        &n,
        "one_way_backward",
    ) {
        Some(DirectionValue::Reverse)
    } else if is_lit(&n, "0") || is_lit(&n, "both") || is_lit(&n, "both_ways") || is_lit(&n, "two_way") {
        Some(DirectionValue::Both)
    } else {
        None
    }
}

/// The direction of a mapped direction value: the decoded text first,
/// then the raw value.
pub fn decode_direction(decoded: &str, raw: &str) -> (r: Option<DirectionValue>)
    ensures
        r == match direction_named(decoded@) {
            Some(d) => Some(d),
            None => direction_named(raw@),
        },
{
    match direction_of_text(decoded) {
        Some(d) => Some(d),
        None => direction_of_text(raw),
    }
}

} // verus!
