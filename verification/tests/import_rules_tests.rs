use netweevil::import_rules::{bundle_id, check_import_sources, detect_source_format, ImportError, SourceFormat};

#[test]
fn formats_follow_the_extension_ignoring_case() {
    assert_eq!(detect_source_format(true, None), SourceFormat::OvertureParquet);
    assert_eq!(detect_source_format(false, Some("GPKG")), SourceFormat::GeoPackage);
    assert_eq!(detect_source_format(false, Some("GeoParquet")), SourceFormat::OvertureParquet);
    assert_eq!(detect_source_format(false, Some("pbf")), SourceFormat::OsmPbf);
    assert_eq!(detect_source_format(false, None), SourceFormat::OsmPbf);
}

#[test]
fn import_source_checks_refuse_in_order() {
    let gpkg = SourceFormat::GeoPackage;
    let pbf = SourceFormat::OsmPbf;
    assert_eq!(check_import_sources(gpkg, &vec![], true), Err(ImportError::NoSources));
    assert_eq!(check_import_sources(pbf, &vec![pbf, pbf], false), Err(ImportError::MultiSourceNotGeoPackage));
    assert_eq!(check_import_sources(gpkg, &vec![gpkg, pbf], true), Err(ImportError::MixedFormats));
    assert_eq!(check_import_sources(gpkg, &vec![gpkg, gpkg], false), Err(ImportError::MappingRequired));
    assert_eq!(check_import_sources(pbf, &vec![pbf], true), Err(ImportError::MappingOnlyForGeoPackage));
    assert_eq!(check_import_sources(gpkg, &vec![gpkg, gpkg], true), Ok(()));
    assert_eq!(check_import_sources(pbf, &vec![pbf], false), Ok(()));
}

#[test]
fn bundle_ids_take_twelve_digest_characters() {
    assert_eq!(bundle_id("topology", "city", "0123456789abcdef"), "topology-city-0123456789ab");
}
