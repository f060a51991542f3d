use netweevil::components::{parse_component_expression, split_top_level, strip_wrapping_parentheses, ComponentError, ComponentQuantity};

fn chars(s: &str) -> Vec<char> {
    s.chars().collect()
}

#[test]
fn rejects_multiple_base_quantities() {
    assert!(parse_component_expression("distance * ascent").is_err());
}

#[test]
fn accepts_named_zero_for_facility_supplied_components() {
    let parsed = parse_component_expression("zero").expect("zero expression");
    assert_eq!(parsed.quantity, ComponentQuantity::Zero);
}

#[test]
fn parses_attribute_and_inverse_overlay_expressions() {
    let parsed = parse_component_expression("travel_time × (covered == false) * (1 − overlay:shade_fraction)")
        .expect("expression parses");
    assert_eq!(parsed.quantity, ComponentQuantity::TravelTime);
    assert_eq!(parsed.overlay_name.as_deref(), Some("shade_fraction"));
    assert!(parsed.invert_overlay);
    assert_eq!(parsed.predicates[0].key, "covered");
    assert_eq!(parsed.predicates[0].expected, "false");
    assert!(parsed.scales_with_travel_time());
    assert_eq!(parsed.attribute_keys(), vec!["covered".to_string()]);
}

#[test]
fn reports_each_kind_of_malformed_expression() {
    assert_eq!(parse_component_expression("distance * (a == b").err(), Some(ComponentError::UnmatchedParentheses));
    assert_eq!(parse_component_expression("distance) * (").err(), Some(ComponentError::UnmatchedParentheses));
    assert_eq!(parse_component_expression("distance *  ").err(), Some(ComponentError::EmptyFactor));
    assert_eq!(parse_component_expression("time * overlay:").err(), Some(ComponentError::EmptyOverlayName));
    assert_eq!(
        parse_component_expression("time * overlay:a * overlay:b").err(),
        Some(ComponentError::MultipleOverlays)
    );
    assert_eq!(parse_component_expression("time * covered").err(), Some(ComponentError::MissingComparison));
    assert_eq!(parse_component_expression("time * a == b == c").err(), Some(ComponentError::MalformedComparison));
    assert_eq!(parse_component_expression("time * == b").err(), Some(ComponentError::MalformedComparison));
    assert_eq!(parse_component_expression("covered == 'yes'").err(), Some(ComponentError::MissingQuantity));
}

#[test]
fn comparisons_strip_quotes_and_negate() {
    let parsed = parse_component_expression("((Distance_M)) * level != \"2\" * kind == 'stair'").expect("parses");
    assert_eq!(parsed.quantity, ComponentQuantity::Distance);
    assert_eq!(parsed.predicates.len(), 2);
    assert_eq!(parsed.predicates[0].key, "level");
    assert_eq!(parsed.predicates[0].expected, "2");
    assert!(parsed.predicates[0].negated);
    assert_eq!(parsed.predicates[1].expected, "stair");
    assert!(!parsed.predicates[1].negated);
    assert_eq!(parsed.overlay_name, None);
}

#[test]
fn splits_only_at_top_level_and_strips_whole_wrappers() {
    let parts = split_top_level(&chars("a*(b*c)*d"), '*').expect("splits");
    assert_eq!(parts, vec![chars("a"), chars("(b*c)"), chars("d")]);
    assert_eq!(strip_wrapping_parentheses(&chars(" ((x)) ")), chars("x"));
    assert_eq!(strip_wrapping_parentheses(&chars("(a) * (b)")), chars("(a) * (b)"));
}
