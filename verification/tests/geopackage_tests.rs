use netweevil::attributes::{promote_type, FeatureAttributeType};
use netweevil::geopackage_rules::{
    access_mask, decode_direction, highway_class, layer_matches, quote_identifier, sqlite_attribute_type,
};
use netweevil::graph::{AccessMask, HighwayClass};
use netweevil::mapping::{
    field_mapping_for_name, CoordinateMapping, CoordinateQuantization, DirectionValue, FieldMapping,
    FieldMappingDetail, GeoPackageLayerMapping, GeoPackageMapping, LayerDefaults, MappingError, RetainMode,
};

fn layer(table: &str, source: Option<&str>, fields: Vec<(&str, FieldMapping)>) -> GeoPackageLayerMapping {
    GeoPackageLayerMapping {
        source: source.map(|s| s.to_string()),
        table: table.to_string(),
        geometry_column: None,
        fields: fields.into_iter().map(|(k, v)| (k.to_string(), v)).collect(),
        defaults: LayerDefaults {
            highway: "footway".to_string(),
            access: vec!["foot".to_string()],
            direction: DirectionValue::Both,
        },
    }
}

fn mapping(layers: Vec<GeoPackageLayerMapping>) -> GeoPackageMapping {
    GeoPackageMapping {
        version: 1,
        coordinates: CoordinateMapping { geographic_wgs84: true, z_metres: true },
        retain: RetainMode::All,
        quantization: CoordinateQuantization { xy_degrees_bits: 1.0e-9_f64.to_bits(), z_m_bits: 0.01_f64.to_bits() },
        layers,
        materialize_both_directions_for: vec![],
    }
}

#[test]
fn quote_identifier_escapes_double_quotes() {
    assert_eq!(quote_identifier("some\"column"), "\"some\"\"column\"");
}

#[test]
fn maps_common_pedestrian_facilities_to_routing_classes() {
    assert_eq!(highway_class("Staircase").unwrap(), HighwayClass::Steps);
    assert_eq!(highway_class("M_Escalator").unwrap(), HighwayClass::Footway);
    assert_eq!(highway_class("Footbridge").unwrap(), HighwayClass::Footway);
    assert_eq!(highway_class("Runway"), None);
}

#[test]
fn decodes_access_modes_and_directions() {
    let modes = vec!["Foot".to_string(), "bike".to_string()];
    assert_eq!(access_mask(&modes), Some(AccessMask(6)));
    assert_eq!(access_mask(&vec!["boat".to_string()]), None);
    assert_eq!(decode_direction("one way forward", "7"), Some(DirectionValue::Forward));
    assert_eq!(decode_direction("??", " -1 "), Some(DirectionValue::Reverse));
    assert_eq!(decode_direction("Two Way", "1"), Some(DirectionValue::Both));
    assert_eq!(decode_direction("?", "?"), None);
}

#[test]
fn matches_layers_and_column_types() {
    let l = layer("Walkways", Some("campus.gpkg"), vec![]);
    assert!(layer_matches(&l, Some("CAMPUS.GPKG"), "/data/x/CAMPUS.GPKG", "walkways"));
    assert!(layer_matches(&l, Some("other"), "/data/campus.gpkg", "WALKWAYS"));
    assert!(!layer_matches(&l, Some("other.gpkg"), "/data/other.gpkg", "walkways"));
    assert!(!layer_matches(&l, Some("campus.gpkg"), "/campus.gpkg", "roads"));
    assert_eq!(sqlite_attribute_type("TEXT", Some("Access_Schedule")), FeatureAttributeType::Json);
    assert_eq!(sqlite_attribute_type("bigint", None), FeatureAttributeType::Integer);
    assert_eq!(sqlite_attribute_type("DOUBLE PRECISION", None), FeatureAttributeType::Float);
    assert_eq!(sqlite_attribute_type("boolean", None), FeatureAttributeType::Boolean);
    assert_eq!(sqlite_attribute_type("varchar", None), FeatureAttributeType::String);
    assert_eq!(promote_type(FeatureAttributeType::Integer, FeatureAttributeType::Float), FeatureAttributeType::Float);
    assert_eq!(promote_type(FeatureAttributeType::String, FeatureAttributeType::Json), FeatureAttributeType::Json);
    assert_eq!(promote_type(FeatureAttributeType::Boolean, FeatureAttributeType::Integer), FeatureAttributeType::String);
}

#[test]
fn finds_fields_by_name_and_role() {
    let l = layer(
        "walkways",
        None,
        vec![
            ("Direction", FieldMapping::Detailed(FieldMappingDetail {
                role: "direction".to_string(),
                decode: vec![("-1".to_string(), "reverse".to_string())],
                domain: None,
            })),
            ("id", FieldMapping::Role("Feature_ID".to_string())),
        ],
    );
    assert_eq!(l.field_for_role("feature_id").map(|f| f.0.as_str()), Some("id"));
    assert!(l.field_for_role("class").is_none());
    let m = field_mapping_for_name(&l, "DIRECTION").expect("mapped");
    assert_eq!(m.role(), "direction");
    assert_eq!(m.decode().map(|d| d[0].1.as_str()), Some("reverse"));
    assert!(field_mapping_for_name(&l, "ID").expect("mapped").decode().is_none());
}

#[test]
fn validates_mappings() {
    let good = layer("walkways", None, vec![("id", FieldMapping::Role("feature_id".to_string()))]);
    assert_eq!(mapping(vec![good.clone()]).validate(), Ok(()));
    assert_eq!(mapping(vec![]).validate(), Err(MappingError::NoLayers));
    let mut no_access = good.clone();
    no_access.defaults.access = vec![];
    assert_eq!(mapping(vec![no_access]).validate(), Err(MappingError::EmptyDefaultAccess(0)));
    let duplicate = layer("WALKWAYS", None, vec![("id", FieldMapping::Role("feature_id".to_string()))]);
    assert_eq!(mapping(vec![good.clone(), duplicate]).validate(), Err(MappingError::DuplicateLayer(1)));
    let no_id = layer("roads", None, vec![]);
    assert_eq!(mapping(vec![good.clone(), no_id]).validate(), Err(MappingError::MissingFeatureId(1)));
    let mut zero = mapping(vec![good.clone()]);
    zero.quantization.z_m_bits = (-0.0_f64).to_bits();
    assert_eq!(zero.validate(), Err(MappingError::NonPositiveQuantization));
    let mut nan = mapping(vec![good.clone()]);
    nan.quantization.z_m_bits = f64::NAN.to_bits();
    assert_eq!(nan.validate(), Ok(()));
    let mut keep = mapping(vec![good]);
    keep.retain = RetainMode::Unmapped;
    assert_eq!(keep.validate(), Err(MappingError::RetainNotAll));
}
