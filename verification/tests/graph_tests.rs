use netweevil::graph::{
    AccessMask, DirectedEdge, EdgeId, HighwayClass, NodeId, RoadClass, SmoothnessClass, SurfaceClass,
    TopologyEdgeLayers, TravelMode, ACCESS_BICYCLE, ACCESS_CAR, ACCESS_FOOT, ACCESS_HGV, ACCESS_TRANSIT,
    NO_FEATURE_ROW,
};
use netweevil::topology::build_edge_based_topology;
use netweevil::weak_components::label_weak_components;

fn edge(edge_id: u32, from: u32, to: u32, source_way_id: i64) -> DirectedEdge {
    DirectedEdge {
        edge_id: EdgeId(edge_id),
        from: NodeId(from),
        to: NodeId(to),
        source_way_id,
        length_m: 100,
        ascent_m: 0.0_f32.to_bits(),
        descent_m: 0.0_f32.to_bits(),
        feature_row: NO_FEATURE_ROW,
        source_direction: 1,
        temporal_rule_id: None,
        duration_s: None,
        road_class: RoadClass::Residential,
        surface: SurfaceClass::Asphalt,
        smoothness: SmoothnessClass::Unknown,
        access_mask: AccessMask::new(ACCESS_CAR),
        is_toll: false,
        max_speed_kph: None,
        lanes: None,
        name_index: None,
        geometry_offset: 0,
        geometry_len: 0,
        flags: 0,
    }
}

#[test]
fn labels_weak_components_for_disconnected_subnetworks() {
    let labels = label_weak_components(4, &vec![edge(0, 0, 1, 10), edge(1, 1, 0, 10), edge(2, 2, 3, 20)]);

    assert_eq!(labels.component_count, 2);
    assert_eq!(labels.node_component_ids, vec![0, 0, 1, 1]);
    assert_eq!(labels.edge_component_ids, vec![0, 0, 1]);
    assert_eq!(labels.largest_component_node_count, 2);
    assert_eq!(labels.largest_component_edge_count, 2);
}

#[test]
fn weak_components_ignore_edge_direction_and_count_isolated_nodes() {
    // 0 -> 1 <- 2 joins all three; 3 and 4 stand alone.
    let labels = label_weak_components(5, &vec![edge(0, 0, 1, 1), edge(1, 2, 1, 2)]);
    assert_eq!(labels.node_component_ids, vec![0, 0, 0, 1, 2]);
    assert_eq!(labels.component_count, 3);
    assert_eq!(labels.edge_component_ids, vec![0, 0]);
    assert_eq!(labels.largest_component_node_count, 3);
    assert_eq!(labels.largest_component_edge_count, 2);

    let empty = label_weak_components(0, &vec![]);
    assert_eq!(empty.component_count, 0);
    assert_eq!(empty.largest_component_node_count, 0);
}

#[test]
fn builds_node_and_transition_adjacency() {
    // 0 -> 1, 1 -> 2, 1 -> 0, 2 -> 1
    let edges = vec![edge(0, 0, 1, 1), edge(1, 1, 2, 2), edge(2, 1, 0, 1), edge(3, 2, 1, 2)];
    let topology = build_edge_based_topology(3, &edges);
    assert_eq!(topology.node_first_out, vec![0, 1, 3, 4]);
    assert_eq!(topology.node_edge_order, vec![0, 1, 2, 3]);
    // Edge 0 ends at node 1 and continues with edges 1 and 2; edge 1 ends
    // at node 2 and continues with edge 3; and so on.
    assert_eq!(topology.edge_transition_first_out, vec![0, 2, 3, 4, 6]);
    assert_eq!(topology.edge_transition_edges, vec![1, 2, 3, 0, 1, 2]);
}

#[test]
fn edge_layers_split_and_gather_each_edge() {
    let mut first = edge(7, 3, 4, 99);
    first.flags = 5;
    first.temporal_rule_id = Some(2);
    first.road_class = RoadClass::Primary;
    first.name_index = Some(3);
    let second = edge(8, 4, 3, 99);
    let layers = TopologyEdgeLayers::from_directed_edges(&vec![first, second]);
    assert_eq!(layers.routing.len(), 2);
    assert_eq!(layers.profile.len(), 2);
    assert_eq!(layers.presentation.len(), 2);
    assert_eq!(layers.profile[0].highway, HighwayClass::Primary);
    let back = layers.edge(0);
    assert_eq!(back.edge_id, EdgeId(7));
    assert_eq!(back.flags, 5);
    assert_eq!(back.temporal_rule_id, Some(2));
    assert_eq!(back.road_class, RoadClass::Primary);
    assert_eq!(back.name_index, Some(3));
    assert_eq!(layers.edge(1).from, NodeId(4));

    let mut pushed = TopologyEdgeLayers::from_directed_edges(&vec![]);
    pushed.push_directed_edge(&second);
    assert_eq!(pushed.routing.len(), 1);
    assert_eq!(pushed.edge(0).to, NodeId(3));
}

#[test]
fn road_classes_and_highway_classes_convert() {
    assert_eq!(HighwayClass::Footway.road_class(), RoadClass::Path);
    assert_eq!(HighwayClass::MotorwayLink.road_class(), RoadClass::Motorway);
    for class in [
        RoadClass::Motorway,
        RoadClass::Trunk,
        RoadClass::Primary,
        RoadClass::Secondary,
        RoadClass::Tertiary,
        RoadClass::Residential,
        RoadClass::Service,
        RoadClass::Track,
        RoadClass::Ferry,
        RoadClass::Path,
        RoadClass::Unknown,
    ] {
        assert_eq!(HighwayClass::from_road_class(class).road_class(), class);
    }
}

#[test]
fn access_masks_hold_one_bit_per_mode() {
    let mask = AccessMask::new(ACCESS_CAR | ACCESS_FOOT);
    assert!(mask.contains(ACCESS_CAR));
    assert!(mask.contains(ACCESS_FOOT));
    assert!(!mask.contains(ACCESS_BICYCLE));
    assert_eq!(TravelMode::Car.access_bit(), ACCESS_CAR);
    assert_eq!(TravelMode::Bicycle.access_bit(), ACCESS_BICYCLE);
    assert_eq!(TravelMode::Foot.access_bit(), ACCESS_FOOT);
    assert_eq!(TravelMode::Transit.access_bit(), ACCESS_TRANSIT);
    assert_eq!(TravelMode::Hgv.access_bit(), ACCESS_HGV);
}
