use netweevil::attribute_audit::compare_attribute_schemas;
use netweevil::attribute_merge::{merge_attribute_definitions, MergeError, SOURCE_GEOMETRY_LAYOUT_COLUMN, SOURCE_LAYER_SCHEMA_COLUMN};
use netweevil::attributes::{FeatureAttributeDefinition, FeatureAttributeType};

fn string_definition(name: &str) -> FeatureAttributeDefinition {
    FeatureAttributeDefinition {
        name: name.to_string(),
        semantic_role: None,
        value_type: FeatureAttributeType::String,
        domain: Vec::new(),
    }
}

#[test]
fn schema_comparison_detects_missing_all_null_column() {
    let retained: Vec<FeatureAttributeDefinition> = Vec::new();
    let source = vec![string_definition("all_null")];
    let (missing, unexpected, drifts) = compare_attribute_schemas(&retained, &source).expect("schema comparison");
    assert_eq!(missing, vec!["all_null"]);
    assert!(unexpected.is_empty());
    assert!(drifts.is_empty());
}

#[test]
fn schema_comparison_lists_each_side_in_name_order() {
    let retained = vec![string_definition("zeta"), string_definition("shared"), string_definition("alpha")];
    let source = vec![string_definition("shared"), string_definition("omega"), string_definition("beta")];
    let (missing, unexpected, drifts) = compare_attribute_schemas(&retained, &source).expect("schema comparison");
    assert_eq!(missing, vec!["beta", "omega"]);
    assert_eq!(unexpected, vec!["alpha", "zeta"]);
    assert!(drifts.is_empty());
}

#[test]
fn schema_comparison_reports_role_type_and_domain_drift() {
    let mut role = string_definition("highway");
    role.semantic_role = Some("road_class".to_string());
    let mut typed = string_definition("lanes");
    typed.value_type = FeatureAttributeType::Integer;
    let mut coded = string_definition("surface");
    coded.domain = vec![("1".to_string(), "paved".to_string())];
    let retained = vec![string_definition("highway"), string_definition("lanes"), string_definition("surface"), string_definition("name")];
    let source = vec![coded, typed, role, string_definition("name")];
    let (missing, unexpected, drifts) = compare_attribute_schemas(&retained, &source).expect("schema comparison");
    assert!(missing.is_empty());
    assert!(unexpected.is_empty());
    let fields: Vec<&str> = drifts.iter().map(|drift| drift.field.as_str()).collect();
    assert_eq!(fields, vec!["highway", "lanes", "surface"]);
    assert_eq!(drifts[0].retained.semantic_role, None);
    assert_eq!(drifts[0].source.semantic_role.as_deref(), Some("road_class"));
    assert_eq!(drifts[1].source.value_type, FeatureAttributeType::Integer);
    assert_eq!(drifts[2].source.domain, vec![("1".to_string(), "paved".to_string())]);
    assert!(drifts[2].retained.domain.is_empty());
}

#[test]
fn schema_comparison_refuses_a_repeated_column() {
    let retained = vec![string_definition("a"), string_definition("b"), string_definition("a"), string_definition("b")];
    let source = vec![string_definition("c"), string_definition("c")];
    assert_eq!(compare_attribute_schemas(&retained, &source).unwrap_err(), "a");
    let clean = vec![string_definition("a")];
    assert_eq!(compare_attribute_schemas(&clean, &source).unwrap_err(), "c");
}

#[test]
fn schema_comparison_orders_by_code_point() {
    let retained: Vec<FeatureAttributeDefinition> = Vec::new();
    let source = vec![string_definition("b"), string_definition("B"), string_definition("é"), string_definition("ab")];
    let (missing, _, _) = compare_attribute_schemas(&retained, &source).expect("schema comparison");
    assert_eq!(missing, vec!["B", "ab", "b", "é"]);
}

fn column(name: &str, role: Option<&str>, value_type: FeatureAttributeType, domain: &[(&str, &str)]) -> FeatureAttributeDefinition {
    FeatureAttributeDefinition {
        name: name.to_string(),
        semantic_role: role.map(|r| r.to_string()),
        value_type,
        domain: domain.iter().map(|(k, v)| (k.to_string(), v.to_string())).collect(),
    }
}

#[test]
fn merged_schema_widens_types_combines_domains_and_adds_reserved_columns() {
    let first = vec![
        column("lanes", None, FeatureAttributeType::Integer, &[("1", "one"), ("3", "three")]),
        column("highway", None, FeatureAttributeType::String, &[]),
    ];
    let second = vec![
        column("name", Some("street_name"), FeatureAttributeType::String, &[]),
        column("lanes", Some("lane_count"), FeatureAttributeType::Float, &[("2", "two"), ("1", "uno")]),
    ];
    let merged = merge_attribute_definitions(&vec![first, second]).expect("schemas merge");
    let names: Vec<&str> = merged.iter().map(|d| d.name.as_str()).collect();
    assert_eq!(names, vec!["highway", "lanes", "name", SOURCE_GEOMETRY_LAYOUT_COLUMN, SOURCE_LAYER_SCHEMA_COLUMN]);
    let lanes = &merged[1];
    assert_eq!(lanes.value_type, FeatureAttributeType::Float);
    assert_eq!(lanes.semantic_role.as_deref(), Some("lane_count"));
    assert_eq!(
        lanes.domain,
        vec![("1".to_string(), "uno".to_string()), ("2".to_string(), "two".to_string()), ("3".to_string(), "three".to_string())]
    );
    assert_eq!(merged[2].semantic_role.as_deref(), Some("street_name"));
    assert_eq!(merged[3].value_type, FeatureAttributeType::Json);
    assert!(merged[3].domain.is_empty() && merged[3].semantic_role.is_none());
}

#[test]
fn merged_schema_refuses_colliding_spellings() {
    let layers = vec![
        vec![column("Max Speed", None, FeatureAttributeType::Float, &[])],
        vec![column("max_speed", None, FeatureAttributeType::Float, &[])],
    ];
    match merge_attribute_definitions(&layers) {
        Err(MergeError::NameCollision { existing, column }) => {
            assert_eq!(existing, "Max Speed");
            assert_eq!(column, "max_speed");
        },
        other => panic!("unexpected {other:?}"),
    }
}

#[test]
fn merged_schema_keeps_the_first_role_and_refuses_a_different_one() {
    let agreeing = vec![vec![
        column("kind", None, FeatureAttributeType::String, &[]),
        column("kind", Some("feature_type"), FeatureAttributeType::String, &[]),
        column("kind", Some("FEATURE_TYPE"), FeatureAttributeType::Json, &[]),
    ]];
    let merged = merge_attribute_definitions(&agreeing).expect("roles agree up to case");
    assert_eq!(merged[0].semantic_role.as_deref(), Some("feature_type"));
    assert_eq!(merged[0].value_type, FeatureAttributeType::Json);
    let conflicting = vec![vec![
        column("kind", Some("feature_type"), FeatureAttributeType::String, &[]),
        column("kind", Some("road_class"), FeatureAttributeType::String, &[]),
    ]];
    match merge_attribute_definitions(&conflicting) {
        Err(MergeError::RoleConflict { column, existing_role, role }) => {
            assert_eq!(column, "kind");
            assert_eq!(existing_role, "feature_type");
            assert_eq!(role, "road_class");
        },
        other => panic!("unexpected {other:?}"),
    }
}

#[test]
fn merged_schema_refuses_reserved_names() {
    let layers = vec![vec![column("NetWeevil Source Layer Schema", None, FeatureAttributeType::String, &[])]];
    match merge_attribute_definitions(&layers) {
        Err(MergeError::Reserved { name }) => assert_eq!(name, SOURCE_LAYER_SCHEMA_COLUMN),
        other => panic!("unexpected {other:?}"),
    }
}
