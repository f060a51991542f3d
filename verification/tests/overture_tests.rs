use netweevil::graph::{HighwayClass, SurfaceClass, ACCESS_BICYCLE, ACCESS_CAR, ACCESS_FOOT, ACCESS_HGV, ACCESS_TRANSIT};
use netweevil::overture_rules::{
    base_access_for_class, chunk_access, chunk_lanes, classify_overture_road, overture_surface, segment_is_unroutable,
    speed_limit_applies, travel_mode_bits, when_mode_bits, AccessRule, FlagRule, LaneRule, RuleCondition, ALL_MODES,
    MOTOR_MODES,
};

fn when(heading: Option<&str>, modes: &[&str]) -> RuleCondition {
    RuleCondition {
        heading: heading.map(|h| h.to_string()),
        during: None,
        mode: if modes.is_empty() { None } else { Some(modes.iter().map(|m| m.to_string()).collect()) },
        using_count: 0,
        recognized_count: 0,
        vehicle_count: 0,
    }
}

fn access(access_type: &str, condition: Option<RuleCondition>) -> AccessRule {
    AccessRule { access_type: Some(access_type.to_string()), when: condition, covers_chunk: true }
}

fn lane(direction: &str) -> LaneRule {
    LaneRule { direction: Some(direction.to_string()), lanes: None, covers_chunk: false }
}

#[test]
fn overture_classes_map_to_highway_classes() {
    assert_eq!(classify_overture_road(Some("primary"), Some("link")), HighwayClass::PrimaryLink);
    assert_eq!(classify_overture_road(Some("primary"), Some("sidewalk")), HighwayClass::Primary);
    assert_eq!(classify_overture_road(Some("living_street"), None), HighwayClass::LivingStreet);
    assert_eq!(classify_overture_road(Some("residential"), Some("link")), HighwayClass::Residential);
    assert_eq!(classify_overture_road(Some("rail"), None), HighwayClass::Unknown);
    assert_eq!(classify_overture_road(None, None), HighwayClass::Unknown);
}

#[test]
fn overture_class_defaults_and_mode_bits() {
    assert_eq!(base_access_for_class(Some("motorway")), ACCESS_CAR | ACCESS_HGV);
    assert_eq!(base_access_for_class(Some("residential")), ACCESS_CAR | ACCESS_BICYCLE | ACCESS_FOOT | ACCESS_HGV);
    assert_eq!(base_access_for_class(Some("steps")), ACCESS_FOOT);
    assert_eq!(base_access_for_class(Some("cycleway")), ACCESS_BICYCLE | ACCESS_FOOT);
    assert_eq!(base_access_for_class(None), ACCESS_CAR | ACCESS_BICYCLE | ACCESS_FOOT);
    assert_eq!(travel_mode_bits("motor_vehicle"), MOTOR_MODES);
    assert_eq!(travel_mode_bits("bus"), ACCESS_TRANSIT);
    assert_eq!(travel_mode_bits("horse"), 0);
    assert_eq!(when_mode_bits(None), ALL_MODES);
    assert_eq!(when_mode_bits(Some(&when(None, &[]))), ALL_MODES);
    assert_eq!(when_mode_bits(Some(&when(None, &["car", "bicycle", "horse"]))), ACCESS_CAR | ACCESS_BICYCLE);
}

#[test]
fn heading_denials_clear_one_direction() {
    let base = base_access_for_class(Some("residential"));
    let (forward, reverse) = chunk_access(base, &vec![access("denied", Some(when(Some("backward"), &[])))]);
    assert_eq!(forward.0, base);
    assert_eq!(reverse.0, 0);
}

#[test]
fn mode_scoped_allowances_grant_exactly_their_modes() {
    let base = base_access_for_class(Some("footway"));
    let rules = vec![access("designated", Some(when(None, &["bicycle"]))), access("denied", Some(when(Some("forward"), &["foot"])))];
    let (forward, reverse) = chunk_access(base, &rules);
    assert_eq!(forward.0, ACCESS_BICYCLE);
    assert_eq!(reverse.0, ACCESS_BICYCLE | ACCESS_FOOT);
    let reopen = vec![access("denied", None), access("allowed", None)];
    let (forward, reverse) = chunk_access(base, &reopen);
    assert_eq!((forward.0, reverse.0), (base, base));
}

#[test]
fn conditional_and_uncovering_rules_are_skipped() {
    let base = base_access_for_class(Some("residential"));
    let mut timed = when(None, &[]);
    timed.during = Some("Mo-Fr 07:00-09:00".to_string());
    let mut elsewhere = access("denied", None);
    elsewhere.covers_chunk = false;
    let mut for_deliveries = when(None, &[]);
    for_deliveries.using_count = 1;
    let rules = vec![access("denied", Some(timed)), elsewhere, access("denied", Some(for_deliveries))];
    let (forward, reverse) = chunk_access(base, &rules);
    assert!(forward.contains(ACCESS_CAR));
    assert_eq!((forward.0, reverse.0), (base, base));
}

#[test]
fn lanes_count_by_direction_and_scope() {
    assert_eq!(chunk_lanes(&vec![lane("forward"), lane("forward"), lane("backward")]), (Some(2), Some(1)));
    assert_eq!(chunk_lanes(&vec![lane("both_ways"), lane("alternating")]), (Some(2), Some(2)));
    assert_eq!(chunk_lanes(&vec![lane("forward")]), (Some(1), None));
    assert_eq!(chunk_lanes(&vec![lane("sideways")]), (None, None));
    assert_eq!(chunk_lanes(&Vec::new()), (None, None));
    let scoped = LaneRule {
        direction: None,
        lanes: Some(vec![Some("forward".to_string()), None, Some("backward".to_string())]),
        covers_chunk: true,
    };
    let mut outside = scoped.clone();
    outside.covers_chunk = false;
    assert_eq!(chunk_lanes(&vec![scoped, outside]), (Some(1), Some(1)));
    let many: Vec<LaneRule> = (0..300).map(|_| lane("forward")).collect();
    assert_eq!(chunk_lanes(&many), (Some(255), None));
}

#[test]
fn construction_and_abandonment_make_segments_unroutable() {
    let flags = |values: &[&str], covers_segment: bool| FlagRule {
        values: values.iter().map(|v| v.to_string()).collect(),
        covers_segment,
    };
    assert!(segment_is_unroutable(&vec![flags(&["is_bridge"], true), flags(&["is_abandoned"], true)]));
    assert!(!segment_is_unroutable(&vec![flags(&["is_under_construction"], false)]));
    assert!(!segment_is_unroutable(&vec![flags(&["is_tunnel"], true)]));
}

#[test]
fn overture_surfaces_and_speed_limit_scopes() {
    assert_eq!(overture_surface(Some("paving_stones")), SurfaceClass::Paved);
    assert_eq!(overture_surface(Some("unpaved")), SurfaceClass::Ground);
    assert_eq!(overture_surface(Some("ice")), SurfaceClass::Unknown);
    assert_eq!(overture_surface(None), SurfaceClass::Unknown);
    assert!(speed_limit_applies(None, "forward"));
    assert!(speed_limit_applies(Some(&when(Some("forward"), &[])), "forward"));
    assert!(!speed_limit_applies(Some(&when(Some("backward"), &[])), "forward"));
    assert!(!speed_limit_applies(Some(&when(None, &["bicycle"])), "forward"));
    assert!(speed_limit_applies(Some(&when(None, &["truck"])), "backward"));
}
