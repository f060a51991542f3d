use std::cell::RefCell;

use netweevil::edge_match::{
    edge_is_closed, edge_tag_value, first_matching_rule, highway_name, is_directionally_excluded, is_excluded, matches_edge,
    matching_rules, road_class_name, smoothness_name, surface_name,
};
use netweevil::graph::{
    AccessMask, DirectedEdge, EdgeId, HighwayClass, NodeId, RoadClass, SmoothnessClass, SurfaceClass, TravelMode,
    ACCESS_CAR, EDGE_FLAG_INFERRED_BICYCLE_CONTRAFLOW, EDGE_FLAG_INFERRED_FOOT_REVERSE_ONEWAY, NO_FEATURE_ROW,
};
use netweevil::graph::{EDGE_FLAG_ROUNDABOUT, EDGE_FLAG_TARGET_TRAFFIC_SIGNAL};
use netweevil::turn_rules::{turn_penalty_parts, TurnShape};
use netweevil::profile_schema::{ensure_supported_matchers, DirectionConfig, ExcludeRule, MatcherError, RuleGroup, TagMatch};

fn edge(road_class: RoadClass, surface: SurfaceClass, is_toll: bool, flags: u32) -> DirectedEdge {
    DirectedEdge {
        edge_id: EdgeId(0),
        from: NodeId(0),
        to: NodeId(1),
        source_way_id: 1,
        length_m: 1_000,
        ascent_m: 0,
        descent_m: 0,
        feature_row: NO_FEATURE_ROW,
        source_direction: 0,
        temporal_rule_id: None,
        duration_s: None,
        road_class,
        surface,
        smoothness: SmoothnessClass::Unknown,
        access_mask: AccessMask::new(ACCESS_CAR),
        is_toll,
        max_speed_kph: None,
        lanes: None,
        name_index: None,
        geometry_offset: 0,
        geometry_len: 0,
        flags,
    }
}

fn rule(tags: &[(&str, &str)]) -> TagMatch {
    TagMatch { tags: tags.iter().map(|(k, v)| (k.to_string(), v.to_string())).collect() }
}

fn no_attributes(_: &str, _: &str) -> bool {
    false
}

#[test]
fn class_names_follow_the_tag_vocabulary() {
    assert_eq!(road_class_name(RoadClass::Residential), Some("residential"));
    assert_eq!(road_class_name(RoadClass::Ferry), None);
    assert_eq!(highway_name(HighwayClass::LivingStreet), Some("living_street"));
    assert_eq!(highway_name(HighwayClass::Unknown), None);
    assert_eq!(surface_name(SurfaceClass::Cobblestone), Some("cobblestone"));
    assert_eq!(smoothness_name(SmoothnessClass::VeryHorrible), Some("very_horrible"));
    assert_eq!(smoothness_name(SmoothnessClass::Unknown), None);
}

#[test]
fn edge_tag_values_cover_the_builtin_keys() {
    let primary = edge(RoadClass::Primary, SurfaceClass::Asphalt, true, 0);
    assert_eq!(edge_tag_value(&primary, HighwayClass::PrimaryLink, "highway"), Some("primary_link"));
    assert_eq!(edge_tag_value(&primary, HighwayClass::Unknown, "highway"), Some("primary"));
    assert_eq!(edge_tag_value(&primary, HighwayClass::Unknown, "road_class"), Some("primary"));
    assert_eq!(edge_tag_value(&primary, HighwayClass::Primary, "surface"), Some("asphalt"));
    assert_eq!(edge_tag_value(&primary, HighwayClass::Primary, "smoothness"), None);
    assert_eq!(edge_tag_value(&primary, HighwayClass::Primary, "route"), None);
    assert_eq!(edge_tag_value(&primary, HighwayClass::Primary, "toll"), Some("yes"));
    assert_eq!(edge_tag_value(&primary, HighwayClass::Primary, "Highway"), None);
    assert_eq!(edge_tag_value(&primary, HighwayClass::Primary, "bridge"), None);
    let ferry = edge(RoadClass::Ferry, SurfaceClass::Unknown, false, 0);
    assert_eq!(edge_tag_value(&ferry, HighwayClass::Ferry, "route"), Some("ferry"));
    assert_eq!(edge_tag_value(&ferry, HighwayClass::Ferry, "highway"), None);
    assert_eq!(edge_tag_value(&ferry, HighwayClass::Ferry, "toll"), Some("no"));
}

#[test]
fn builtin_tags_match_ignoring_ascii_case() {
    let primary = edge(RoadClass::Primary, SurfaceClass::Asphalt, false, 0);
    assert!(matches_edge(&rule(&[("highway", "PRIMARY")]), &primary, HighwayClass::Primary, &no_attributes));
    assert!(matches_edge(&rule(&[("highway", "primary"), ("surface", "Asphalt")]), &primary, HighwayClass::Primary, &no_attributes));
    assert!(!matches_edge(&rule(&[("highway", "primary"), ("surface", "gravel")]), &primary, HighwayClass::Primary, &no_attributes));
    assert!(matches_edge(&rule(&[]), &primary, HighwayClass::Primary, &no_attributes));
}

#[test]
fn attribute_test_is_asked_only_for_keys_without_a_builtin_value() {
    let primary = edge(RoadClass::Primary, SurfaceClass::Unknown, false, 0);
    let asked: RefCell<Vec<(String, String)>> = RefCell::new(Vec::new());
    let attributes = |key: &str, expected: &str| {
        asked.borrow_mut().push((key.to_string(), expected.to_string()));
        (key == "lit" && expected == "yes") || (key == "surface" && expected == "paved")
    };
    let tags = rule(&[("highway", "primary"), ("lit", "yes"), ("surface", "paved")]);
    assert!(matches_edge(&tags, &primary, HighwayClass::Primary, &attributes));
    assert_eq!(
        asked.borrow().clone(),
        vec![("lit".to_string(), "yes".to_string()), ("surface".to_string(), "paved".to_string())]
    );
    asked.borrow_mut().clear();
    let failing = rule(&[("highway", "secondary"), ("lit", "yes")]);
    assert!(!matches_edge(&failing, &primary, HighwayClass::Primary, &attributes));
    assert!(asked.borrow().is_empty());
}

#[test]
fn exclusion_and_rule_selection_follow_rule_order() {
    let track = edge(RoadClass::Track, SurfaceClass::Gravel, false, 0);
    let excludes = vec![
        ExcludeRule { rule_match: rule(&[("highway", "motorway")]) },
        ExcludeRule { rule_match: rule(&[("surface", "gravel")]) },
    ];
    assert!(is_excluded(&excludes, &track, HighwayClass::Track, &no_attributes));
    assert!(!is_excluded(&excludes[..1].to_vec(), &track, HighwayClass::Track, &no_attributes));
    assert!(!is_excluded(&Vec::new(), &track, HighwayClass::Track, &no_attributes));

    let speeds = vec![rule(&[("highway", "primary")]), rule(&[("road_class", "track")]), rule(&[("surface", "gravel")])];
    assert_eq!(first_matching_rule(&speeds, &track, HighwayClass::Track, &no_attributes), Some(1));
    assert_eq!(first_matching_rule(&speeds[..1].to_vec(), &track, HighwayClass::Track, &no_attributes), None);
    assert_eq!(matching_rules(&speeds, &track, HighwayClass::Track, &no_attributes), vec![false, true, true]);
}

#[test]
fn direction_options_drop_inferred_one_way_exceptions() {
    let strict = DirectionConfig { ignore_plain_oneway_for_foot: false, allow_bicycle_contraflow_on_roads: false };
    let lenient = DirectionConfig { ignore_plain_oneway_for_foot: true, allow_bicycle_contraflow_on_roads: true };
    let foot_reverse = edge(RoadClass::Residential, SurfaceClass::Asphalt, false, EDGE_FLAG_INFERRED_FOOT_REVERSE_ONEWAY);
    let contraflow = edge(RoadClass::Residential, SurfaceClass::Asphalt, false, EDGE_FLAG_INFERRED_BICYCLE_CONTRAFLOW);
    assert!(is_directionally_excluded(TravelMode::Foot, &strict, &foot_reverse));
    assert!(!is_directionally_excluded(TravelMode::Foot, &lenient, &foot_reverse));
    assert!(!is_directionally_excluded(TravelMode::Bicycle, &strict, &foot_reverse));
    assert!(is_directionally_excluded(TravelMode::Bicycle, &strict, &contraflow));
    assert!(!is_directionally_excluded(TravelMode::Bicycle, &lenient, &contraflow));
    assert!(!is_directionally_excluded(TravelMode::Car, &strict, &contraflow));
}

#[test]
fn matchers_name_the_first_unsupported_attribute_in_profile_order() {
    let attributes = vec!["lit".to_string(), "wheelchair".to_string()];
    let speeds = vec![rule(&[("highway", "primary")]), rule(&[("Lit", "yes"), ("bridge", "yes")])];
    let excludes = vec![ExcludeRule { rule_match: rule(&[("tunnel", "yes")]) }];
    let factors = vec![rule(&[("ramp", "yes")])];
    let none: Vec<String> = Vec::new();
    match ensure_supported_matchers(&speeds, &excludes, &factors, true, "level", &attributes, &none) {
        Err(MatcherError::RuleKey { group, rule_index, key }) => {
            assert_eq!(group, RuleGroup::SpeedRules);
            assert_eq!(rule_index, 1);
            assert_eq!(key, "bridge");
        },
        other => panic!("unexpected {other:?}"),
    }
    let speeds = vec![rule(&[("highway", "primary")])];
    match ensure_supported_matchers(&speeds, &excludes, &factors, true, "level", &attributes, &none) {
        Err(MatcherError::RuleKey { group, rule_index, key }) => {
            assert_eq!(group, RuleGroup::ExcludeRules);
            assert_eq!(rule_index, 0);
            assert_eq!(key, "tunnel");
        },
        other => panic!("unexpected {other:?}"),
    }
    match ensure_supported_matchers(&speeds, &Vec::new(), &factors, true, "level", &attributes, &none) {
        Err(MatcherError::RuleKey { group, .. }) => assert_eq!(group, RuleGroup::Factors),
        other => panic!("unexpected {other:?}"),
    }
    match ensure_supported_matchers(&speeds, &Vec::new(), &Vec::new(), true, "level", &attributes, &none) {
        Err(MatcherError::FacilityAttribute { attribute }) => assert_eq!(attribute, "level"),
        other => panic!("unexpected {other:?}"),
    }
    let keys = vec!["Wheelchair".to_string(), "kerb".to_string()];
    match ensure_supported_matchers(&speeds, &Vec::new(), &Vec::new(), false, "level", &attributes, &keys) {
        Err(MatcherError::ComponentKey { key }) => assert_eq!(key, "kerb"),
        other => panic!("unexpected {other:?}"),
    }
    let keys = vec!["Wheelchair".to_string(), "surface".to_string()];
    assert!(ensure_supported_matchers(&speeds, &Vec::new(), &Vec::new(), true, "lit", &attributes, &keys).is_ok());
}

fn routing(from: u32, to: u32, way: i64, flags: u32) -> netweevil::graph::RoutingEdge {
    netweevil::graph::RoutingEdge {
        edge_id: EdgeId(0),
        from: NodeId(from),
        to: NodeId(to),
        source_way_id: way,
        length_m: 10,
        ascent_m: 0,
        descent_m: 0,
        feature_row: NO_FEATURE_ROW,
        source_direction: 1,
        temporal_rule_id: None,
        flags,
    }
}

#[test]
fn turn_penalties_follow_adjacency_signals_roundabouts_and_ways() {
    let signal_in = routing(0, 1, 7, EDGE_FLAG_TARGET_TRAFFIC_SIGNAL);
    let apart = turn_penalty_parts(&signal_in, &routing(2, 3, 8, EDGE_FLAG_ROUNDABOUT));
    assert_eq!(apart.shape, TurnShape::NotAdjacent);
    assert!(!apart.traffic_signal && !apart.roundabout_entry);
    let back = turn_penalty_parts(&signal_in, &routing(1, 0, 7, 0));
    assert_eq!(back.shape, TurnShape::UTurn);
    assert!(back.traffic_signal);
    let along = turn_penalty_parts(&signal_in, &routing(1, 2, 7, 0));
    assert_eq!(along.shape, TurnShape::SameWay);
    let entry = turn_penalty_parts(&routing(0, 1, 7, 0), &routing(1, 2, 9, EDGE_FLAG_ROUNDABOUT));
    assert_eq!(entry.shape, TurnShape::BetweenWays);
    assert!(entry.roundabout_entry && !entry.traffic_signal);
    let inside = turn_penalty_parts(&routing(0, 1, 9, EDGE_FLAG_ROUNDABOUT), &routing(1, 2, 9, EDGE_FLAG_ROUNDABOUT));
    assert!(!inside.roundabout_entry);
}

#[test]
fn profiles_close_edges_by_access_ferry_direction_and_exclude_rules() {
    let strict = DirectionConfig { ignore_plain_oneway_for_foot: false, allow_bicycle_contraflow_on_roads: false };
    let excludes = vec![ExcludeRule { rule_match: rule(&[("surface", "gravel")]) }];
    let road = edge(RoadClass::Primary, SurfaceClass::Unknown, false, 0);
    assert!(!edge_is_closed(TravelMode::Car, false, &strict, &excludes, &road, HighwayClass::Primary, &no_attributes));
    assert!(edge_is_closed(TravelMode::Foot, true, &strict, &Vec::new(), &road, HighwayClass::Primary, &no_attributes));
    let ferry = edge(RoadClass::Ferry, SurfaceClass::Unknown, false, 0);
    assert!(edge_is_closed(TravelMode::Car, false, &strict, &Vec::new(), &ferry, HighwayClass::Ferry, &no_attributes));
    assert!(!edge_is_closed(TravelMode::Car, true, &strict, &Vec::new(), &ferry, HighwayClass::Ferry, &no_attributes));
    let gravel = edge(RoadClass::Track, SurfaceClass::Gravel, false, 0);
    assert!(edge_is_closed(TravelMode::Car, true, &strict, &excludes, &gravel, HighwayClass::Track, &no_attributes));
}
