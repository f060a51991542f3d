use netweevil::dataset::{CacheBundleId, DatasetId};
use netweevil::manifest_types::scaffold_algorithm;
use netweevil::mapping::{
    CoordinateMapping, CoordinateQuantization, DirectionValue, FieldMapping, GeoPackageLayerMapping,
    GeoPackageMapping, LayerDefaults, MappingError, RetainMode,
};
use netweevil::metrics::{add_cch_weights, CCH_WEIGHT_INFINITY, CCH_WEIGHT_OVERFLOW};
use netweevil::osm::{tag, OsmTags};
use netweevil::profile_schema::{
    default_facility_attribute, default_lift_wait_component, default_stair_burden_component, ensure_supported_keys,
    is_builtin_match_key, output_needs_geometry, TagMatch,
};
use netweevil::stages::{AnalysisMode, DatasetImportStage, PercentReporter, ProfileCompileStage};
use netweevil::text::{normalize_attribute_name, normalized_value_eq};
use netweevil::workspace::{join_path, WorkspacePaths};

#[test]
fn overflow_stays_distinct_from_inaccessible_and_never_wraps() {
    assert_eq!(add_cch_weights(CCH_WEIGHT_OVERFLOW - 10, 20), CCH_WEIGHT_OVERFLOW);
    assert_eq!(add_cch_weights(CCH_WEIGHT_OVERFLOW, 5), CCH_WEIGHT_OVERFLOW);
    assert_eq!(add_cch_weights(CCH_WEIGHT_INFINITY, 0), CCH_WEIGHT_INFINITY);
    assert_eq!(add_cch_weights(0, CCH_WEIGHT_INFINITY), CCH_WEIGHT_INFINITY);
    assert_eq!(add_cch_weights(CCH_WEIGHT_OVERFLOW, CCH_WEIGHT_INFINITY), CCH_WEIGHT_INFINITY);
}

#[test]
fn fixed_point_weights_add_exactly_below_the_cap() {
    assert_eq!(add_cch_weights(1, 2), 3);
    assert_eq!(add_cch_weights(0, 0), 0);
    assert_eq!(add_cch_weights(CCH_WEIGHT_OVERFLOW - 2, 1), CCH_WEIGHT_OVERFLOW - 1);
    assert_eq!(add_cch_weights(CCH_WEIGHT_OVERFLOW - 1, 1), CCH_WEIGHT_OVERFLOW);
    assert_eq!(add_cch_weights(7, 5), add_cch_weights(5, 7));
}

#[test]
fn rejects_unsupported_match_keys() {
    let rule = TagMatch { tags: vec![("lanes".to_string(), "2".to_string())] };
    assert_eq!(ensure_supported_keys(&rule, &vec![]), Err(0));
    assert_eq!(ensure_supported_keys(&rule, &vec!["lanes".to_string()]), Ok(()));
    let mixed = TagMatch {
        tags: vec![
            ("Highway".to_string(), "primary".to_string()),
            ("Wheelchair Access".to_string(), "yes".to_string()),
            ("lanes".to_string(), "2".to_string()),
        ],
    };
    assert_eq!(ensure_supported_keys(&mixed, &vec!["wheelchair_access".to_string()]), Err(2));
    assert!(is_builtin_match_key("ROAD CLASS"));
    assert!(is_builtin_match_key("toll"));
    assert!(!is_builtin_match_key("lanes"));
}

#[test]
fn rejects_a_layer_that_would_materialize_no_edges() {
    let mapping = GeoPackageMapping {
        version: 1,
        coordinates: CoordinateMapping { geographic_wgs84: true, z_metres: true },
        retain: RetainMode::All,
        quantization: CoordinateQuantization { xy_degrees_bits: 1.0e-9_f64.to_bits(), z_m_bits: 0.01_f64.to_bits() },
        layers: vec![GeoPackageLayerMapping {
            source: None,
            table: "walkways".to_string(),
            geometry_column: None,
            fields: vec![("id".to_string(), FieldMapping::Role("feature_id".to_string()))],
            defaults: LayerDefaults { highway: "footway".to_string(), access: vec![], direction: DirectionValue::Both },
        }],
        materialize_both_directions_for: vec![],
    };
    assert_eq!(mapping.validate(), Err(MappingError::EmptyDefaultAccess(0)));
}

#[test]
fn normalizes_attribute_names() {
    assert_eq!(normalize_attribute_name("Wheelchair Access"), "wheelchair_access");
    assert_eq!(normalize_attribute_name("  --Step-Free__Route!! "), "step_free_route");
    assert_eq!(normalize_attribute_name("ÄRGER"), "ärger");
    assert_eq!(normalize_attribute_name("***"), "");
    assert!(normalized_value_eq("Level Access", "level-access"));
    assert!(!normalized_value_eq("level", "levels"));
}

#[test]
fn output_formats_that_carry_geometry() {
    assert!(output_needs_geometry(Some("GeoJSON")));
    assert!(output_needs_geometry(Some("csv")));
    assert!(output_needs_geometry(Some("gpq")));
    assert!(!output_needs_geometry(Some("json")));
    assert!(!output_needs_geometry(None));
}

#[test]
fn profile_defaults_name_their_components() {
    assert_eq!(default_facility_attribute(), "feature_type");
    assert_eq!(default_stair_burden_component(), "stair_burden");
    assert_eq!(default_lift_wait_component(), "lift_wait");
}

#[test]
fn stages_have_readable_labels() {
    assert_eq!(DatasetImportStage::HashSource.label(), "Hash Source");
    assert_eq!(DatasetImportStage::WriteManifest.label(), "Write Dataset Manifest");
    assert_eq!(ProfileCompileStage::CompileAcceleration.label(), "Compile Acceleration");
    assert_eq!(AnalysisMode::Od.label(), "OD");
    assert_eq!(PercentReporter::new().last_bucket, None);
    assert_eq!(PercentReporter::starting_at_zero().last_bucket, Some(0));
}

#[test]
fn workspace_layout_lives_under_the_state_directory() {
    let paths = WorkspacePaths::discover("/data/city");
    assert_eq!(paths.root, "/data/city");
    assert_eq!(paths.state_dir, "/data/city/.netweevil");
    assert_eq!(paths.topology_bundles_dir, "/data/city/.netweevil/bundles/topology");
    assert_eq!(paths.edge_name_bundles_dir, "/data/city/.netweevil/bundles/names");
    assert_eq!(paths.compiled_profiles_dir, "/data/city/.netweevil/compiled_profiles");
    assert_eq!(paths.reports_dir, "/data/city/.netweevil/reports");
    assert_eq!(join_path(&"a/".to_string(), "b"), "a/b");
    assert_eq!(join_path(&String::new(), "b"), "b");
}

#[test]
fn identifiers_and_scaffold_values() {
    assert_eq!(DatasetId::new("city").0, "city");
    assert_eq!(CacheBundleId::new("topology-1").0, "topology-1");
    let algorithm = scaffold_algorithm();
    assert_eq!(algorithm.engine, "edge_based_exact_placeholder");
    assert_eq!(algorithm.graph_model, "directed_edge_graph");
    assert_eq!(algorithm.acceleration, "none");
}

#[test]
fn tag_lookup_takes_the_first_entry() {
    let tags = OsmTags {
        entries: vec![("highway".to_string(), "primary".to_string()), ("name".to_string(), "Main".to_string())],
    };
    assert_eq!(tag(&tags, "name"), Some("Main"));
    assert_eq!(tag(&tags, "oneway"), None);
}

#[test]
fn normalized_names_are_fixed_points_with_clean_separators() {
    for raw in ["  --Step-Free__Route!! ", "ÄRGER über_alles", "A__b", "_x_", "İstanbul Road"] {
        let once = normalize_attribute_name(raw);
        assert_eq!(normalize_attribute_name(&once), once);
        assert!(!once.starts_with('_') && !once.ends_with('_') && !once.contains("__"));
        assert!(once.chars().all(|c| c == '_' || c.is_alphanumeric()));
    }
}
