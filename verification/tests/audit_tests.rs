use netweevil::audit::{
    edge_attribute_link_drifts, first_segment_difference, missing_ids, multiset_difference_count,
    ordered_feature_segments, segment_multiset, EdgeAttributeLinkDrift, MAX_REPORTED_LINK_DRIFTS,
};
use netweevil::graph::{EdgeId, NodeId, RoutingEdge, TopologyNode, NO_FEATURE_ROW};

fn node(node_id: u32, lon: f64, lat: f64, z: f64) -> TopologyNode {
    TopologyNode { node_id: NodeId(node_id), lon: lon.to_bits(), lat: lat.to_bits(), z: z.to_bits() }
}

fn nodes() -> Vec<TopologyNode> {
    vec![node(0, 114.0, 22.0, 0.0), node(1, 114.000_001, 22.0, 1.0), node(2, 114.000_002, 22.0, 2.0)]
}

fn segment_edge(edge_id: u32, from: u32, to: u32, way: i64, direction: i8) -> RoutingEdge {
    RoutingEdge {
        edge_id: EdgeId(edge_id),
        from: NodeId(from),
        to: NodeId(to),
        source_way_id: way,
        length_m: 100,
        ascent_m: 0,
        descent_m: 0,
        feature_row: 0,
        source_direction: direction,
        temporal_rule_id: None,
        flags: 0,
    }
}

fn segment(feature: i64, from: &TopologyNode, to: &TopologyNode) -> (i64, u64, u64, u64, u64, u64, u64) {
    (feature, from.lon, from.lat, from.z, to.lon, to.lat, to.z)
}

fn routing_edge(edge_id: u32, source_way_id: i64, feature_row: u32) -> RoutingEdge {
    RoutingEdge {
        edge_id: EdgeId(edge_id),
        from: NodeId(0),
        to: NodeId(1),
        source_way_id,
        length_m: 100,
        ascent_m: 0,
        descent_m: 0,
        feature_row,
        source_direction: 1,
        temporal_rule_id: None,
        flags: 0,
    }
}

fn key(feature_id: i64, from: f64, to: f64) -> (i64, u64, u64, u64, u64, u64, u64) {
    (feature_id, from.to_bits(), 22.0_f64.to_bits(), 0, to.to_bits(), 22.0_f64.to_bits(), 0)
}

#[test]
fn detects_an_edge_linked_to_the_wrong_feature_row() {
    let edges = vec![routing_edge(0, 7, 0)];
    let (count, drifts) = edge_attribute_link_drifts(&edges, &vec![8]);
    assert_eq!(count, 1);
    assert_eq!(drifts[0].source_feature_id, 7);
    assert_eq!(drifts[0].row_feature_id, Some(8));
}

#[test]
fn links_to_missing_rows_are_broken_and_matching_rows_are_not() {
    let edges = vec![routing_edge(0, 7, 0), routing_edge(1, 9, NO_FEATURE_ROW), routing_edge(2, 8, 1)];
    let (count, drifts) = edge_attribute_link_drifts(&edges, &vec![7, 8]);
    assert_eq!(count, 1);
    assert_eq!(
        drifts,
        vec![EdgeAttributeLinkDrift { edge_id: 1, source_feature_id: 9, feature_row: NO_FEATURE_ROW, row_feature_id: None }]
    );
}

#[test]
fn link_drift_reports_are_capped() {
    let edges: Vec<RoutingEdge> = (0..(MAX_REPORTED_LINK_DRIFTS as u32 + 5)).map(|id| routing_edge(id, 1, 0)).collect();
    let (count, drifts) = edge_attribute_link_drifts(&edges, &vec![2]);
    assert_eq!(count, MAX_REPORTED_LINK_DRIFTS + 5);
    assert_eq!(drifts.len(), MAX_REPORTED_LINK_DRIFTS);
    assert_eq!(drifts[MAX_REPORTED_LINK_DRIFTS - 1].edge_id, MAX_REPORTED_LINK_DRIFTS as u32 - 1);
}

#[test]
fn ordered_geometry_detects_reversed_vertex_chain() {
    let nodes = nodes();
    let forward = ordered_feature_segments(&nodes, &vec![segment_edge(0, 0, 1, 7, 1), segment_edge(1, 1, 2, 7, 1)]);
    let reversed = ordered_feature_segments(&nodes, &vec![segment_edge(0, 2, 1, 7, 1), segment_edge(1, 1, 0, 7, 1)]);
    assert_ne!(forward, reversed);
    assert_eq!(forward, vec![(7, vec![segment(7, &nodes[0], &nodes[1]), segment(7, &nodes[1], &nodes[2])])]);
    let forward_counts = segment_multiset(&forward[0].1);
    let reversed_counts = segment_multiset(&reversed[0].1);
    assert_eq!(forward_counts.len(), 2);
    assert_eq!(reversed_counts.len(), 2);
    assert_eq!(multiset_difference_count(&forward_counts, &reversed_counts), 2);
}

#[test]
fn feature_geometry_follows_the_selected_direction_and_edge_ids() {
    let nodes = nodes();
    let edges = vec![
        // Feature 9 has a forward edge, so only its forward edges count,
        // ordered by edge id.
        segment_edge(5, 1, 2, 9, 1),
        segment_edge(4, 1, 0, 9, -1),
        segment_edge(3, 0, 1, 9, 1),
        // Feature 2 runs backward only: its segments are read in source
        // orientation, from the edge's head to its tail.
        segment_edge(6, 2, 1, 2, -1),
    ];
    let geometry = ordered_feature_segments(&nodes, &edges);
    assert_eq!(
        geometry,
        vec![
            (2, vec![segment(2, &nodes[1], &nodes[2])]),
            (9, vec![segment(9, &nodes[0], &nodes[1]), segment(9, &nodes[1], &nodes[2])]),
        ]
    );
    assert!(ordered_feature_segments(&nodes, &vec![]).is_empty());
}

#[test]
fn unknown_elevations_compare_equal_whatever_their_nan_bits() {
    let quiet = vec![node(0, 1.0, 2.0, f64::NAN), node(1, 1.5, 2.0, f64::NAN)];
    let other_nan = f64::from_bits(0x7ff0_0000_0000_0001);
    let signalling = vec![node(0, 1.0, 2.0, other_nan), node(1, 1.5, 2.0, -f64::NAN)];
    let edges = vec![segment_edge(0, 0, 1, 1, 1)];
    assert_eq!(ordered_feature_segments(&quiet, &edges), ordered_feature_segments(&signalling, &edges));
}

#[test]
fn counted_segments_compare_as_multisets() {
    let forward = vec![key(7, 114.0, 114.000_001), key(7, 114.000_001, 114.000_002)];
    let reversed = vec![key(7, 114.000_002, 114.000_001), key(7, 114.000_001, 114.0)];
    let forward_counts = segment_multiset(&forward);
    let reversed_counts = segment_multiset(&reversed);
    assert_eq!(multiset_difference_count(&forward_counts, &reversed_counts), 2);
    assert_eq!(multiset_difference_count(&forward_counts, &forward_counts), 0);
}

#[test]
fn segment_multisets_count_repeats() {
    let a = key(1, 1.0, 2.0);
    let b = key(1, 2.0, 3.0);
    let c = key(2, 0.0, 1.0);
    let counts = segment_multiset(&vec![c, a, b, a, a]);
    assert_eq!(counts, vec![(a, 3), (b, 1), (c, 1)]);
    let other = segment_multiset(&vec![a, c, c]);
    // `a` twice and `b` once are unmatched; `c` is over-matched.
    assert_eq!(multiset_difference_count(&counts, &other), 3);
    assert_eq!(multiset_difference_count(&other, &counts), 1);
    assert!(segment_multiset(&vec![]).is_empty());
}

#[test]
fn first_segment_difference_finds_the_first_departure() {
    let nodes = nodes();
    let forward = ordered_feature_segments(&nodes, &vec![segment_edge(0, 0, 1, 7, 1), segment_edge(1, 1, 2, 7, 1)]);
    let reversed = ordered_feature_segments(&nodes, &vec![segment_edge(0, 2, 1, 7, 1), segment_edge(1, 1, 0, 7, 1)]);
    assert_eq!(first_segment_difference(&forward[0].1, &reversed[0].1), Some(0));
    assert_eq!(first_segment_difference(&forward[0].1, &forward[0].1), None);
    let shorter = vec![forward[0].1[0]];
    assert_eq!(first_segment_difference(&shorter, &forward[0].1), Some(1));
    assert_eq!(first_segment_difference(&forward[0].1, &shorter), Some(1));
    let mut changed = forward[0].1.clone();
    changed[1].6 ^= 1;
    assert_eq!(first_segment_difference(&forward[0].1, &changed), Some(1));
}

#[test]
fn missing_ids_are_sorted_and_unique() {
    assert_eq!(missing_ids(&vec![9, 3, 5, 3, 1], &vec![5, 7]), vec![1, 3, 9]);
    assert_eq!(missing_ids(&vec![2, 2], &vec![2]), Vec::<i64>::new());
    assert_eq!(missing_ids(&vec![], &vec![4]), Vec::<i64>::new());
    assert_eq!(missing_ids(&vec![-4, 8], &vec![]), vec![-4, 8]);
}
