use netweevil::cch::{
    arcs_to_csr, build_with_order, DatasetAccelerationBundle, ACCELERATION_BUNDLE_SCHEMA_VERSION, CCH_ALGORITHM,
};
use netweevil::customize::{
    cch_shape_ok, compile_acceleration, compile_acceleration_weights, customize_triangles, place_base_weights,
};
use netweevil::dataset::CacheBundleId;
use netweevil::dissection::{build_dataset_acceleration_bundle, Cell, COORD_X, COORD_Y};
use netweevil::metrics::{
    add_cch_weights, CCH_WEIGHT_INFINITY, CCH_WEIGHT_OVERFLOW, COMPILED_ACCELERATION_SCHEMA_VERSION,
};
use netweevil::graph::{
    AccessMask, DirectedEdge, EdgeBasedTopology, EdgeId, NodeId, RoadClass, SmoothnessClass, SurfaceClass,
    ACCESS_CAR, NO_FEATURE_ROW,
};
use netweevil::topology::build_edge_based_topology;

fn edge(edge_id: u32, from: u32, to: u32, source_way_id: i64) -> DirectedEdge {
    DirectedEdge {
        edge_id: EdgeId(edge_id),
        from: NodeId(from),
        to: NodeId(to),
        source_way_id,
        length_m: 100,
        ascent_m: 0,
        descent_m: 0,
        feature_row: NO_FEATURE_ROW,
        source_direction: 1,
        temporal_rule_id: None,
        duration_s: None,
        road_class: RoadClass::Residential,
        surface: SurfaceClass::Asphalt,
        smoothness: SmoothnessClass::Unknown,
        access_mask: AccessMask::new(ACCESS_CAR),
        is_toll: false,
        max_speed_kph: None,
        lanes: None,
        name_index: None,
        geometry_offset: 0,
        geometry_len: 0,
        flags: 0,
    }
}

fn line_edges() -> Vec<DirectedEdge> {
    vec![edge(0, 0, 1, 10), edge(1, 1, 2, 11), edge(2, 2, 3, 12)]
}

/// Square grid with both travel directions between neighbouring nodes.
fn grid_edges(side: u32) -> Vec<DirectedEdge> {
    let mut edges = Vec::new();
    let mut edge_id = 0_u32;
    for row in 0..side {
        for col in 0..side {
            let node = row * side + col;
            let mut neighbours = Vec::new();
            if col + 1 < side {
                neighbours.push(node + 1);
            }
            if row + 1 < side {
                neighbours.push(node + side);
            }
            for other in neighbours {
                edges.push(edge(edge_id, node, other, 1000 + edge_id as i64));
                edge_id += 1;
                edges.push(edge(edge_id, other, node, 1000 + edge_id as i64));
                edge_id += 1;
            }
        }
    }
    edges
}

/// An order that interleaves the edge states from both ends.
fn zigzag_order(edge_count: usize) -> Vec<u32> {
    let mut order = Vec::new();
    let (mut low, mut high) = (0_usize, edge_count);
    while low < high {
        order.push(low as u32);
        low += 1;
        if low < high {
            high -= 1;
            order.push(high as u32);
        }
    }
    order
}

fn build(node_count: usize, edges: &Vec<DirectedEdge>, order: Vec<u32>) -> (EdgeBasedTopology, DatasetAccelerationBundle) {
    let topology = build_edge_based_topology(node_count, edges);
    let bundle = build_with_order(edges.len(), &topology, CacheBundleId::new("topology-test"), order);
    (topology, bundle)
}


fn line_nodes() -> Vec<(f64, f64)> {
    vec![(0.0, 0.0), (1.0, 0.0), (2.0, 0.0), (3.0, 0.0)]
}

fn grid_nodes(side: u32) -> Vec<(f64, f64)> {
    (0..side * side).map(|node| ((node % side) as f64 * 0.001, (node / side) as f64 * 0.001)).collect()
}

/// Coordinate bits of each edge state: its midpoint in an equirectangular
/// projection, projected onto the four inertial directions, then x and y.
fn edge_coords(nodes: &[(f64, f64)], edges: &[DirectedEdge]) -> Vec<[u32; 6]> {
    let mean_lat =
        if nodes.is_empty() { 0.0 } else { nodes.iter().map(|node| node.1).sum::<f64>() / nodes.len() as f64 };
    let longitude_scale = mean_lat.to_radians().cos().abs().max(0.05);
    edges
        .iter()
        .map(|edge| {
            let from = nodes[edge.from.0 as usize];
            let to = nodes[edge.to.0 as usize];
            let x = ((from.0 + to.0) * 0.5 * longitude_scale) as f32;
            let y = ((from.1 + to.1) * 0.5) as f32;
            let directions: [(f32, f32); 4] = [(1.0, 0.0), (0.0, 1.0), (1.0, 1.0), (1.0, -1.0)];
            let p = directions.map(|(dx, dy)| (dx * x + dy * y).to_bits());
            [p[0], p[1], p[2], p[3], x.to_bits(), y.to_bits()]
        })
        .collect()
}

/// Whether the x extent of a cell is at least its y extent.
fn x_is_wider(cell: &Cell) -> bool {
    let extent = |axis: usize| {
        cell.coords
            .iter()
            .map(|coords| f32::from_bits(coords[axis]))
            .fold((f32::INFINITY, f32::NEG_INFINITY), |bounds, value| (bounds.0.min(value), bounds.1.max(value)))
    };
    let (min_x, max_x) = extent(COORD_X);
    let (min_y, max_y) = extent(COORD_Y);
    (max_x - min_x) >= (max_y - min_y)
}

/// The acceleration bundle of a dataset, ordered by nested dissection.
fn build_dataset(nodes: &[(f64, f64)], edges: &Vec<DirectedEdge>) -> (EdgeBasedTopology, DatasetAccelerationBundle) {
    let topology = build_edge_based_topology(nodes.len(), edges);
    let bundle = build_dataset_acceleration_bundle(
        edges.len(),
        &topology,
        CacheBundleId::new("topology-test"),
        edge_coords(nodes, edges),
        &x_is_wider,
    )
    .expect("the hierarchy fits its rows");
    (topology, bundle)
}

fn has_arc(bundle: &DatasetAccelerationBundle, from: usize, to: u32) -> bool {
    let (first_out, heads) = if bundle.edge_rank[from] < bundle.edge_rank[to as usize] {
        (&bundle.upward_first_out, &bundle.upward_head)
    } else {
        (&bundle.downward_first_out, &bundle.downward_head)
    };
    heads[first_out[from] as usize..first_out[from + 1] as usize].binary_search(&to).is_ok()
}

fn assert_rank_monotone(bundle: &DatasetAccelerationBundle, edge_count: usize) {
    for edge_index in 0..edge_count {
        for slot in bundle.upward_first_out[edge_index] as usize..bundle.upward_first_out[edge_index + 1] as usize {
            let head = bundle.upward_head[slot] as usize;
            assert!(bundle.edge_rank[edge_index] < bundle.edge_rank[head]);
        }
        for slot in bundle.downward_first_out[edge_index] as usize..bundle.downward_first_out[edge_index + 1] as usize
        {
            let head = bundle.downward_head[slot] as usize;
            assert!(bundle.edge_rank[edge_index] > bundle.edge_rank[head]);
        }
    }
}

#[test]
fn builds_complete_cch_bundle_for_line_topology() {
    let (_, bundle) = build_dataset(&line_nodes(), &line_edges());

    assert_eq!(bundle.schema_version, ACCELERATION_BUNDLE_SCHEMA_VERSION);
    assert_eq!(bundle.algorithm, CCH_ALGORITHM);
    assert!(bundle.is_current_format());
    assert_eq!(bundle.source_topology_bundle_id, CacheBundleId::new("topology-test"));
    assert_eq!(bundle.stats.base_arc_count, 2);
    assert_eq!(bundle.stats.total_arc_count, bundle.stats.base_arc_count + bundle.stats.shortcut_arc_count);
    assert_eq!(bundle.edge_order.len(), 3);
    assert_eq!(bundle.edge_rank.len(), 3);
    assert_eq!(bundle.upward_first_out.len(), 4);
    assert_eq!(bundle.downward_first_out.len(), 4);
    assert_eq!(bundle.upward_head.len() + bundle.downward_head.len(), bundle.stats.total_arc_count as usize);
    assert_rank_monotone(&bundle, 3);
}

#[test]
fn contracting_the_middle_of_a_line_adds_one_shortcut() {
    // Edge state 1 is contracted first and lies between 0 and 2.
    let (_, bundle) = build(4, &line_edges(), vec![1, 0, 2]);
    assert_eq!(bundle.edge_rank, vec![1, 0, 2]);
    assert_eq!(bundle.stats.base_arc_count, 2);
    assert_eq!(bundle.stats.shortcut_arc_count, 1);
    assert_eq!(bundle.stats.total_arc_count, 3);
    assert_eq!(bundle.upward_first_out, vec![0, 1, 2, 2]);
    assert_eq!(bundle.upward_head, vec![2, 2]);
    assert_eq!(bundle.downward_first_out, vec![0, 1, 1, 1]);
    assert_eq!(bundle.downward_head, vec![1]);
    assert_eq!(bundle.downward_first_out.len(), 4);

    // In topological order no shortcut is needed.
    let (_, plain) = build(4, &line_edges(), vec![0, 1, 2]);
    assert_eq!(plain.stats.shortcut_arc_count, 0);
    assert_eq!(plain.upward_first_out, vec![0, 1, 2, 2]);
    assert_eq!(plain.upward_head, vec![1, 2]);
    assert!(plain.downward_head.is_empty());
}

#[test]
fn cch_rows_are_sorted_by_head_for_binary_search() {
    let edges = line_edges();
    let (_, bundle) = build_dataset(&line_nodes(), &edges);
    for edge_index in 0..edges.len() {
        let row = &bundle.upward_head
            [bundle.upward_first_out[edge_index] as usize..bundle.upward_first_out[edge_index + 1] as usize];
        assert!(row.windows(2).all(|pair| pair[0] < pair[1]));
        let row = &bundle.downward_head
            [bundle.downward_first_out[edge_index] as usize..bundle.downward_first_out[edge_index + 1] as usize];
        assert!(row.windows(2).all(|pair| pair[0] < pair[1]));
    }
}

#[test]
fn edge_order_is_a_valid_elimination_order() {
    let edges = grid_edges(12);
    let edge_count = edges.len();
    let (_, bundle) = build_dataset(&grid_nodes(12), &edges);

    assert_eq!(bundle.edge_order.len(), edge_count);
    let mut seen = vec![false; edge_count];
    for &edge_index in &bundle.edge_order {
        assert!(!seen[edge_index as usize]);
        seen[edge_index as usize] = true;
    }
    assert!(seen.into_iter().all(|hit| hit));
    for (rank, &edge_index) in bundle.edge_order.iter().enumerate() {
        assert_eq!(bundle.edge_rank[edge_index as usize], rank as u32);
    }
    assert_rank_monotone(&bundle, edge_count);
}

#[test]
fn edge_ordering_preserves_every_transition_including_uturns() {
    let edges = grid_edges(6);
    let (transitions, bundle) = build_dataset(&grid_nodes(6), &edges);
    let mut uturns = 0;
    for edge_index in 0..edges.len() {
        let from = edges[edge_index];
        let row = transitions.edge_transition_first_out[edge_index] as usize
            ..transitions.edge_transition_first_out[edge_index + 1] as usize;
        for &next in &transitions.edge_transition_edges[row] {
            let to = edges[next as usize];
            if from.from == to.to && from.to == to.from {
                uturns += 1;
            }
            if next as usize != edge_index {
                assert!(has_arc(&bundle, edge_index, next));
            }
        }
    }
    assert!(uturns > 0);
}

#[test]
fn contraction_is_complete_on_a_grid() {
    let edges = grid_edges(4);
    let edge_count = edges.len();
    let (_, bundle) = build_dataset(&grid_nodes(4), &edges);

    let mut incoming_from_higher: Vec<Vec<u32>> = vec![Vec::new(); edge_count];
    for tail in 0..edge_count {
        for slot in bundle.downward_first_out[tail] as usize..bundle.downward_first_out[tail + 1] as usize {
            incoming_from_higher[bundle.downward_head[slot] as usize].push(tail as u32);
        }
    }
    for (v, incoming) in incoming_from_higher.iter().enumerate() {
        let outgoing =
            &bundle.upward_head[bundle.upward_first_out[v] as usize..bundle.upward_first_out[v + 1] as usize];
        for &x in incoming {
            for &y in outgoing {
                if x == y {
                    continue;
                }
                assert!(has_arc(&bundle, x as usize, y), "missing closure arc {x} -> {y} for contracted state {v}");
            }
        }
    }
}

#[test]
fn compresses_sorted_arcs_into_rows() {
    let (first_out, heads) = arcs_to_csr(&vec![(0, 2), (0, 3), (2, 1)], 4);
    assert_eq!(first_out, vec![0, 2, 2, 3, 3]);
    assert_eq!(heads, vec![2, 3, 1]);
    let (first_out, heads) = arcs_to_csr(&vec![], 2);
    assert_eq!(first_out, vec![0, 0, 0]);
    assert!(heads.is_empty());
}

#[test]
fn customization_relaxes_shortcuts_through_contracted_states() {
    let (_, bundle) = build(4, &line_edges(), vec![1, 0, 2]);
    assert!(cch_shape_ok(&bundle, 3));
    // Upward slots: 0 -> 2 (shortcut), 1 -> 2; downward slot: 0 -> 1.
    let mut up = vec![CCH_WEIGHT_INFINITY, 7];
    let mut down = vec![5];
    customize_triangles(&bundle, 3, &mut up, &mut down);
    assert_eq!(up, vec![12, 7]);
    assert_eq!(down, vec![5]);

    // An inaccessible leg leaves the shortcut inaccessible.
    let mut up = vec![CCH_WEIGHT_INFINITY, CCH_WEIGHT_INFINITY];
    let mut down = vec![5];
    customize_triangles(&bundle, 3, &mut up, &mut down);
    assert_eq!(up, vec![CCH_WEIGHT_INFINITY, CCH_WEIGHT_INFINITY]);

    // A cheaper direct weight is kept.
    let mut up = vec![3, 7];
    let mut down = vec![5];
    customize_triangles(&bundle, 3, &mut up, &mut down);
    assert_eq!(up, vec![3, 7]);
}

#[test]
fn customized_grid_obeys_every_lower_triangle() {
    let edges = grid_edges(4);
    let edge_count = edges.len();
    let (_, bundle) = build(16, &edges, zigzag_order(edge_count));
    assert!(cch_shape_ok(&bundle, edge_count));
    let mut up: Vec<u32> = (0..bundle.upward_head.len() as u32).map(|i| 10 + (i * 7) % 13).collect();
    let mut down: Vec<u32> = (0..bundle.downward_head.len() as u32).map(|i| 10 + (i * 5) % 11).collect();
    customize_triangles(&bundle, edge_count, &mut up, &mut down);
    let weight = |from: usize, to: u32| -> Option<u32> {
        let (first_out, heads, weights) = if bundle.edge_rank[from] < bundle.edge_rank[to as usize] {
            (&bundle.upward_first_out, &bundle.upward_head, &up)
        } else {
            (&bundle.downward_first_out, &bundle.downward_head, &down)
        };
        let start = first_out[from] as usize;
        heads[start..first_out[from + 1] as usize].binary_search(&to).ok().map(|offset| weights[start + offset])
    };
    let mut triangles = 0;
    for v in 0..edge_count {
        for x in 0..edge_count {
            for y in 0..edge_count {
                if x == y || bundle.edge_rank[v] >= bundle.edge_rank[x] || bundle.edge_rank[v] >= bundle.edge_rank[y] {
                    continue;
                }
                if let (Some(a), Some(c), Some(w)) = (weight(x, v as u32), weight(v, y as u32), weight(x, y as u32)) {
                    assert!(w <= add_cch_weights(a, c));
                    triangles += 1;
                }
            }
        }
    }
    assert!(triangles > 0);
}

#[test]
fn rejects_malformed_hierarchies() {
    let (_, bundle) = build(4, &line_edges(), vec![1, 0, 2]);
    assert!(cch_shape_ok(&bundle, 3));
    assert!(!cch_shape_ok(&bundle, 4));
    let mut bad_rank = bundle.clone();
    bad_rank.edge_rank = vec![0, 1, 2];
    assert!(!cch_shape_ok(&bad_rank, 3));
    let mut bad_offsets = bundle.clone();
    bad_offsets.upward_first_out = vec![0, 2, 1, 2];
    assert!(!cch_shape_ok(&bad_offsets, 3));
    let mut bad_head = bundle.clone();
    bad_head.downward_head = vec![7];
    assert!(!cch_shape_ok(&bad_head, 3));
    // An upward arc must lead to a higher rank.
    let mut wrong_way = bundle.clone();
    wrong_way.upward_head = vec![1, 2];
    assert!(!cch_shape_ok(&wrong_way, 3));
}

#[test]
fn any_fixed_order_gives_a_consistent_hierarchy() {
    let edges = grid_edges(5);
    let edge_count = edges.len();
    let order = zigzag_order(edge_count);
    let (transitions, bundle) = build(25, &edges, order.clone());
    assert_eq!(bundle.edge_order, order);
    for (rank, &edge_index) in bundle.edge_order.iter().enumerate() {
        assert_eq!(bundle.edge_rank[edge_index as usize], rank as u32);
    }
    assert_rank_monotone(&bundle, edge_count);
    for edge_index in 0..edge_count {
        let row = transitions.edge_transition_first_out[edge_index] as usize
            ..transitions.edge_transition_first_out[edge_index + 1] as usize;
        for &next in &transitions.edge_transition_edges[row] {
            if next as usize != edge_index {
                assert!(has_arc(&bundle, edge_index, next));
            }
        }
        let row = &bundle.upward_head
            [bundle.upward_first_out[edge_index] as usize..bundle.upward_first_out[edge_index + 1] as usize];
        assert!(row.windows(2).all(|pair| pair[0] < pair[1]));
    }
}

fn transition_weights(topology: &EdgeBasedTopology, weight: impl Fn(usize, u32) -> u32) -> Vec<u32> {
    let mut out = Vec::new();
    for edge in 0..topology.edge_transition_first_out.len() - 1 {
        let row = topology.edge_transition_first_out[edge] as usize..topology.edge_transition_first_out[edge + 1] as usize;
        for &next in &topology.edge_transition_edges[row] {
            out.push(weight(edge, next));
        }
    }
    out
}

#[test]
fn base_weights_go_to_the_arc_of_each_usable_transition() {
    let (topology, bundle) = build(4, &line_edges(), vec![1, 0, 2]);
    let tw = transition_weights(&topology, |edge, next| if (edge, next) == (0, 1) { 5 } else { 7 });
    let forbidden_none = vec![Vec::new(), Vec::new(), Vec::new()];
    let all_cost = vec![true, true, true];
    let no_flags = vec![0, 0, 0];
    let first_out = &topology.edge_transition_first_out;
    let heads = &topology.edge_transition_edges;
    // Upward slots: 0 -> 2 (shortcut), 1 -> 2; downward slot: 0 -> 1.
    assert_eq!(
        place_base_weights(&bundle, 3, first_out, heads, &all_cost, &no_flags, &forbidden_none, &tw),
        (vec![CCH_WEIGHT_INFINITY, 7], vec![5])
    );
    assert_eq!(
        compile_acceleration_weights(&bundle, 3, first_out, heads, &all_cost, &no_flags, &forbidden_none, &tw),
        (vec![12, 7], vec![5])
    );
    let forbidden = vec![vec![1], Vec::new(), Vec::new()];
    assert_eq!(
        compile_acceleration_weights(&bundle, 3, first_out, heads, &all_cost, &no_flags, &forbidden, &tw),
        (vec![CCH_WEIGHT_INFINITY, 7], vec![CCH_WEIGHT_INFINITY])
    );
    let last_closed = vec![true, true, false];
    assert_eq!(
        compile_acceleration_weights(&bundle, 3, first_out, heads, &last_closed, &no_flags, &forbidden_none, &tw),
        (vec![CCH_WEIGHT_INFINITY, CCH_WEIGHT_INFINITY], vec![5])
    );
    let temporal = vec![0, 16, 0];
    assert_eq!(
        compile_acceleration_weights(&bundle, 3, first_out, heads, &all_cost, &temporal, &forbidden_none, &tw),
        (vec![CCH_WEIGHT_INFINITY, CCH_WEIGHT_INFINITY], vec![CCH_WEIGHT_INFINITY])
    );
}

#[test]
fn mismatched_inputs_compile_to_infinite_weights() {
    let (topology, bundle) = build(4, &line_edges(), vec![1, 0, 2]);
    let tw = transition_weights(&topology, |_, _| 1);
    let first_out = &topology.edge_transition_first_out;
    let heads = &topology.edge_transition_edges;
    assert_eq!(
        compile_acceleration_weights(&bundle, 4, first_out, heads, &vec![true; 4], &vec![0; 4], &vec![Vec::new(); 4], &tw),
        (vec![CCH_WEIGHT_INFINITY; 2], vec![CCH_WEIGHT_INFINITY; 1])
    );
}

#[test]
fn arc_counts_add_up_for_any_order() {
    let edges = grid_edges(3);
    let (_, bundle) = build(9, &edges, zigzag_order(edges.len()));
    let stats = &bundle.stats;
    assert_eq!(stats.total_arc_count, stats.base_arc_count + stats.shortcut_arc_count);
    assert_eq!(stats.total_arc_count, (bundle.upward_head.len() + bundle.downward_head.len()) as u64);
}

#[test]
fn compiled_acceleration_carries_every_metric_and_empties_mismatches() {
    let (topology, bundle) = build(4, &line_edges(), vec![1, 0, 2]);
    let cost = transition_weights(&topology, |edge, next| if (edge, next) == (0, 1) { 5 } else { 7 });
    let time = transition_weights(&topology, |_, _| 3);
    let distance = transition_weights(&topology, |_, _| CCH_WEIGHT_OVERFLOW);
    let first_out = &topology.edge_transition_first_out;
    let heads = &topology.edge_transition_edges;
    let (yes, none, no_flags) = (vec![true; 3], vec![Vec::new(); 3], vec![0; 3]);
    let id = CacheBundleId::new("acceleration-test");
    let compiled =
        compile_acceleration(&bundle, id.clone(), 3, first_out, heads, &yes, &no_flags, &none, &cost, &time, &distance);
    assert_eq!((compiled.upward_weight.clone(), compiled.downward_weight.clone()), (vec![12, 7], vec![5]));
    assert_eq!((compiled.time_upward_weight.clone(), compiled.time_downward_weight.clone()), (vec![6, 3], vec![3]));
    assert!(compiled.distance_upward_weight.is_empty() && compiled.distance_downward_weight.is_empty());
    assert_eq!(compiled.schema_version, COMPILED_ACCELERATION_SCHEMA_VERSION);
    assert_eq!(compiled.algorithm, bundle.algorithm);

    let mismatched = compile_acceleration(
        &bundle,
        id,
        4,
        first_out,
        heads,
        &vec![true; 4],
        &vec![0; 4],
        &vec![Vec::new(); 4],
        &cost,
        &time,
        &distance,
    );
    assert_eq!(mismatched.upward_weight, vec![CCH_WEIGHT_INFINITY; 2]);
    assert_eq!(mismatched.downward_weight, vec![CCH_WEIGHT_INFINITY; 1]);
    assert!(mismatched.time_upward_weight.is_empty() && mismatched.time_downward_weight.is_empty());
    assert!(mismatched.distance_upward_weight.is_empty() && mismatched.distance_downward_weight.is_empty());
}
