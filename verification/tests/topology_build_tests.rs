use std::collections::{HashMap, HashSet};

use netweevil::geopackage_scan::{collapsed_vertex_indexes, scan_feature_rows, FeatureRow, ScanError};
use netweevil::graph::{
    AccessMask, HighwayClass, RoadClass, SmoothnessClass, SurfaceClass, EDGE_FLAG_ROUNDABOUT,
    EDGE_FLAG_TARGET_TRAFFIC_SIGNAL, EDGE_FLAG_TEMPORAL_MATERIALIZED_DIRECTION,
};
use netweevil::mapping::{CoordinateMapping, CoordinateQuantization, DirectionValue, GeoPackageMapping, RetainMode};
use netweevil::topology_build::{emit_topology_edges, way_segments_of, PendingWay};

fn way(id: i64, nodes: Vec<i64>, forward: u16, reverse: u16) -> PendingWay {
    PendingWay {
        osm_way_id: id,
        node_ids: nodes,
        road_class: RoadClass::Residential,
        highway: HighwayClass::Residential,
        surface: SurfaceClass::Unknown,
        smoothness: SmoothnessClass::Unknown,
        forward_access_mask: AccessMask(forward),
        reverse_access_mask: AccessMask(reverse),
        is_toll: false,
        is_roundabout: false,
        forward_extra_flags: 0,
        reverse_extra_flags: 0,
        forward_max_speed_kph: None,
        reverse_max_speed_kph: None,
        forward_lanes: None,
        reverse_lanes: None,
        name: None,
        feature_row: 0,
        temporal_rule_id: None,
    }
}

fn lookup(pairs: &[(i64, u32)]) -> HashMap<i64, u32> {
    pairs.iter().copied().collect()
}

#[test]
fn segments_skip_repeated_and_unknown_nodes() {
    let nodes = vec![10, 10, 11, 99, 12, 13];
    let segs = way_segments_of(&nodes, &lookup(&[(10, 0), (11, 1), (12, 2), (13, 3)]));
    assert_eq!(segs, vec![(0, 1, 10, 11), (2, 3, 12, 13)]);
    assert!(way_segments_of(&vec![5], &lookup(&[(5, 0)])).is_empty());
}

#[test]
fn two_way_segments_emit_forward_then_reverse_edges_with_flags() {
    let mut w = way(7, vec![10, 11, 12], 1, 4);
    w.is_roundabout = true;
    w.reverse_extra_flags = 16;
    let ways = vec![w];
    let map = lookup(&[(10, 0), (11, 1), (12, 2)]);
    let signals: HashSet<i64> = [11].into_iter().collect();
    let (edges, highways, skipped) =
        emit_topology_edges(&ways, &map, &signals, &vec![Some(3)], &vec![vec![5, 6]], &vec![vec![None, Some(9)]]);
    assert_eq!(skipped, 0);
    assert_eq!(edges.len(), 4);
    let ids: Vec<u32> = edges.iter().map(|e| e.edge_id.0).collect();
    assert_eq!(ids, vec![0, 1, 2, 3]);
    assert_eq!((edges[0].from.0, edges[0].to.0, edges[0].source_direction), (0, 1, 1));
    assert_eq!((edges[1].from.0, edges[1].to.0, edges[1].source_direction), (1, 0, -1));
    assert_eq!(edges[0].flags, EDGE_FLAG_ROUNDABOUT | EDGE_FLAG_TARGET_TRAFFIC_SIGNAL);
    assert_eq!(edges[1].flags, EDGE_FLAG_ROUNDABOUT | 16);
    assert_eq!(edges[2].flags, EDGE_FLAG_ROUNDABOUT);
    assert_eq!(edges[3].flags, EDGE_FLAG_ROUNDABOUT | EDGE_FLAG_TARGET_TRAFFIC_SIGNAL | 16);
    assert_eq!(edges[0].access_mask, AccessMask(1));
    assert_eq!(edges[1].access_mask, AccessMask(4));
    assert_eq!((edges[2].length_m, edges[2].duration_s), (6, Some(9)));
    assert!(edges.iter().all(|e| e.name_index == Some(3) && e.source_way_id == 7));
    assert_eq!(highways, vec![HighwayClass::Residential; 4]);
}

#[test]
fn one_way_emits_forward_only_and_ways_without_segments_are_skipped() {
    let ways = vec![way(1, vec![10, 11], 1, 0), way(2, vec![10, 10], 1, 1), way(3, vec![50, 51], 1, 1)];
    let map = lookup(&[(10, 0), (11, 1)]);
    let (edges, highways, skipped) = emit_topology_edges(
        &ways,
        &map,
        &HashSet::new(),
        &vec![None, None, None],
        &vec![vec![8], vec![], vec![]],
        &vec![vec![None], vec![], vec![]],
    );
    assert_eq!(edges.len(), 1);
    assert_eq!((edges[0].from.0, edges[0].to.0, edges[0].length_m), (0, 1, 8));
    assert_eq!(skipped, 2);
    assert_eq!(highways.len(), 1);
}

fn mapping(materialize: Vec<i64>) -> GeoPackageMapping {
    GeoPackageMapping {
        version: 1,
        coordinates: CoordinateMapping { geographic_wgs84: true, z_metres: true },
        retain: RetainMode::All,
        quantization: CoordinateQuantization { xy_degrees_bits: 1.0e-9_f64.to_bits(), z_m_bits: 0.01_f64.to_bits() },
        layers: vec![],
        materialize_both_directions_for: materialize,
    }
}

fn row(id: i64, direction: DirectionValue, parts: Vec<Vec<(i64, i64, i64)>>) -> FeatureRow {
    FeatureRow {
        feature_id: id,
        direction,
        access_mask: AccessMask(4),
        highway: HighwayClass::Footway,
        name: Some("Main".to_string()),
        feature_row: id as u32,
        temporal_rule_id: None,
        geometry_srs_id: Some(4326),
        layer_srs_id: 4326,
        parts,
    }
}

#[test]
fn scan_welds_shared_vertices_and_keeps_parts_with_two_distinct_nodes() {
    let rows = vec![
        row(1, DirectionValue::Both, vec![vec![(0, 0, 0), (0, 0, 0), (5, 0, 0)], vec![(9, 9, 9)]]),
        row(2, DirectionValue::Forward, vec![vec![(5, 0, 0), (5, 1, 0)], vec![(5, 1, 0), (5, 1, 0)]]),
    ];
    let scan = scan_feature_rows(&mapping(vec![]), &rows).expect("scan");
    assert_eq!(scan.part_nodes, vec![vec![vec![1, 1, 2], vec![3]], vec![vec![2, 4], vec![4, 4]]]);
    assert_eq!(scan.node_count, 4);
    assert_eq!(scan.feature_count, 2);
    assert_eq!(scan.ways.len(), 2);
    assert_eq!(scan.ways[0].node_ids, vec![1, 1, 2]);
    assert_eq!((scan.ways[0].forward_access_mask, scan.ways[0].reverse_access_mask), (AccessMask(4), AccessMask(4)));
    assert_eq!(scan.ways[1].node_ids, vec![2, 4]);
    assert_eq!((scan.ways[1].forward_access_mask, scan.ways[1].reverse_access_mask), (AccessMask(4), AccessMask(0)));
    assert_eq!(scan.ways[1].road_class, RoadClass::Path);
    assert_eq!(scan.ways[1].name.as_deref(), Some("Main"));
    assert_eq!(scan.ways[1].feature_row, 2);
}

#[test]
fn scan_materializes_the_opposite_direction_of_listed_one_way_features() {
    let rows = vec![row(3, DirectionValue::Reverse, vec![vec![(0, 0, 0), (1, 0, 0)]])];
    let scan = scan_feature_rows(&mapping(vec![3]), &rows).expect("scan");
    let w = &scan.ways[0];
    assert_eq!((w.forward_access_mask, w.reverse_access_mask), (AccessMask(4), AccessMask(4)));
    assert_eq!((w.forward_extra_flags, w.reverse_extra_flags), (EDGE_FLAG_TEMPORAL_MATERIALIZED_DIRECTION, 0));
}

#[test]
fn scan_refuses_repeated_feature_ids() {
    let rows = vec![
        row(4, DirectionValue::Both, vec![]),
        row(5, DirectionValue::Both, vec![]),
        row(4, DirectionValue::Both, vec![]),
    ];
    assert_eq!(scan_feature_rows(&mapping(vec![]), &rows).unwrap_err(), ScanError::DuplicateFeatureId(4));
}

#[test]
fn collapsed_vertices_are_the_repeats_of_the_previous_node() {
    assert_eq!(collapsed_vertex_indexes(&vec![1, 1, 2]), Some(vec![1]));
    assert_eq!(collapsed_vertex_indexes(&vec![2, 3]), Some(vec![]));
    assert_eq!(collapsed_vertex_indexes(&vec![1, 1, 1, 4, 4]), Some(vec![1, 2, 4]));
}

#[test]
fn scan_refuses_a_geometry_in_another_srs_but_not_a_null_geometry() {
    let mut other = row(8, DirectionValue::Both, vec![vec![(0, 0, 0), (1, 0, 0)]]);
    other.geometry_srs_id = Some(3857);
    assert_eq!(
        scan_feature_rows(&mapping(vec![]), &vec![other]).unwrap_err(),
        ScanError::SrsMismatch { feature_id: 8, geometry_srs_id: 3857, layer_srs_id: 4326 }
    );
    let mut null = row(9, DirectionValue::Both, vec![]);
    null.geometry_srs_id = None;
    null.layer_srs_id = 0;
    assert_eq!(scan_feature_rows(&mapping(vec![]), &vec![null]).expect("scan").feature_count, 1);
}
