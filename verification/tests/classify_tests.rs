use netweevil::classify::{
    classify_access, classify_direction, classify_directional_access, classify_highway, classify_smoothness,
    classify_surface, classify_toll, classify_way, EdgeDirection,
};
use netweevil::graph::{
    AccessMask, HighwayClass, RoadClass, SmoothnessClass, SurfaceClass, ACCESS_BICYCLE, ACCESS_CAR, ACCESS_FOOT,
    ACCESS_HGV, EDGE_FLAG_INFERRED_BICYCLE_CONTRAFLOW, EDGE_FLAG_INFERRED_FOOT_REVERSE_ONEWAY,
};
use netweevil::osm::OsmTags;

fn tags(pairs: &[(&str, &str)]) -> OsmTags {
    OsmTags { entries: pairs.iter().map(|(k, v)| (k.to_string(), v.to_string())).collect() }
}

#[test]
fn classifies_major_highways() {
    assert_eq!(classify_highway("motorway"), Some(HighwayClass::Motorway));
    assert_eq!(classify_highway("primary_link"), Some(HighwayClass::PrimaryLink));
    assert_eq!(classify_highway("footway"), Some(HighwayClass::Footway));
    assert_eq!(classify_highway("construction"), None);
}

#[test]
fn infers_access_masks() {
    let empty = tags(&[]);
    assert_eq!(classify_access(&empty, "motorway", None), AccessMask::new(ACCESS_CAR | ACCESS_HGV));
    assert_eq!(classify_access(&empty, "cycleway", None), AccessMask::new(ACCESS_BICYCLE | ACCESS_FOOT));
}

#[test]
fn applies_mode_specific_access_overrides() {
    let restricted = tags(&[("access", "no"), ("foot", "yes")]);
    assert_eq!(classify_access(&restricted, "residential", None), AccessMask::new(ACCESS_FOOT));

    let bicycle_forbidden = tags(&[("bicycle", "no")]);
    assert_eq!(classify_access(&bicycle_forbidden, "cycleway", None), AccessMask::new(ACCESS_FOOT));

    let ferry_foot_only = tags(&[("route", "ferry"), ("motor_vehicle", "no"), ("bicycle", "no")]);
    assert_eq!(classify_access(&ferry_foot_only, "", Some("ferry")), AccessMask::new(ACCESS_FOOT));
}

#[test]
fn infers_oneway_behavior() {
    let reverse = tags(&[("oneway", "-1")]);
    assert_eq!(classify_direction(&reverse, RoadClass::Residential), EdgeDirection::ReverseOnly);

    let roundabout = tags(&[("junction", "roundabout")]);
    assert_eq!(classify_direction(&roundabout, RoadClass::Residential), EdgeDirection::ForwardOnly);

    let empty = tags(&[]);
    assert_eq!(classify_direction(&empty, RoadClass::Residential), EdgeDirection::Both);
}

#[test]
fn builds_mode_specific_oneway_access() {
    let road = tags(&[("highway", "residential"), ("oneway", "yes")]);
    let access = classify_directional_access(
        &road,
        HighwayClass::Residential,
        RoadClass::Residential,
        AccessMask::new(ACCESS_CAR | ACCESS_BICYCLE | ACCESS_FOOT),
    );
    assert!(access.forward_access.contains(ACCESS_CAR));
    assert!(!access.reverse_access.contains(ACCESS_CAR));
    assert!(access.reverse_access.contains(ACCESS_FOOT));
    assert!(access.reverse_access.contains(ACCESS_BICYCLE));
    assert_ne!(access.reverse_flags & EDGE_FLAG_INFERRED_FOOT_REVERSE_ONEWAY, 0);
    assert_ne!(access.reverse_flags & EDGE_FLAG_INFERRED_BICYCLE_CONTRAFLOW, 0);

    let cycleway = tags(&[("highway", "cycleway"), ("oneway", "yes")]);
    let access = classify_directional_access(
        &cycleway,
        HighwayClass::Cycleway,
        RoadClass::Path,
        AccessMask::new(ACCESS_BICYCLE | ACCESS_FOOT),
    );
    assert!(access.forward_access.contains(ACCESS_BICYCLE));
    assert!(!access.reverse_access.contains(ACCESS_BICYCLE));
    assert!(access.reverse_access.contains(ACCESS_FOOT));
}

#[test]
fn explicit_mode_directions_win() {
    let road = tags(&[("oneway", "yes"), ("oneway:bicycle", "no"), ("foot:backward", "no")]);
    let access = classify_directional_access(
        &road,
        HighwayClass::Primary,
        RoadClass::Primary,
        AccessMask::new(ACCESS_BICYCLE | ACCESS_FOOT),
    );
    assert!(access.reverse_access.contains(ACCESS_BICYCLE));
    assert!(access.forward_access.contains(ACCESS_FOOT));
    assert!(!access.reverse_access.contains(ACCESS_FOOT));
    assert_eq!(access.reverse_flags, 0);
    assert_eq!(access.forward_flags, 0);
}

#[test]
fn classifies_ways_surfaces_and_tolls() {
    let road = tags(&[("highway", "primary"), ("surface", "sett"), ("smoothness", "bad"), ("toll", "yes")]);
    assert_eq!(
        classify_way(&road),
        Some((RoadClass::Primary, HighwayClass::Primary, AccessMask::new(ACCESS_CAR | ACCESS_BICYCLE | ACCESS_FOOT | ACCESS_HGV)))
    );
    assert_eq!(classify_surface(&road), SurfaceClass::Cobblestone);
    assert_eq!(classify_smoothness(&road), SmoothnessClass::Bad);
    assert!(classify_toll(&road));
    let ferry = tags(&[("route", "ferry")]);
    assert_eq!(classify_way(&ferry), Some((RoadClass::Ferry, HighwayClass::Ferry, AccessMask::new(31))));
    assert_eq!(classify_way(&tags(&[("highway", "proposed")])), None);
    assert_eq!(classify_way(&tags(&[("building", "yes")])), None);
}
