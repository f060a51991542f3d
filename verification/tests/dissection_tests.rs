use netweevil::dissection::{
    dissect, edge_cell, inertial_flow_split, minimum_degree_order, total_order_key, Cell, COORD_X, COORD_Y,
};
use netweevil::graph::EdgeBasedTopology;

/// Grid cell of `side * side` nodes with unit spacing.
fn grid_cell(side: usize) -> Cell {
    let node_count = side * side;
    let mut first_out = Vec::with_capacity(node_count + 1);
    let mut heads = Vec::new();
    first_out.push(0);
    for node in 0..node_count {
        let (row, col) = (node / side, node % side);
        if row > 0 {
            heads.push((node - side) as u32);
        }
        if col > 0 {
            heads.push((node - 1) as u32);
        }
        if col + 1 < side {
            heads.push((node + 1) as u32);
        }
        if row + 1 < side {
            heads.push((node + side) as u32);
        }
        first_out.push(heads.len() as u32);
    }
    let coords = (0..node_count)
        .map(|node| {
            let x = (node % side) as f32;
            let y = (node / side) as f32;
            let directions: [(f32, f32); 4] = [(1.0, 0.0), (0.0, 1.0), (1.0, 1.0), (1.0, -1.0)];
            let p = directions.map(|(dx, dy)| (dx * x + dy * y).to_bits());
            [p[0], p[1], p[2], p[3], x.to_bits(), y.to_bits()]
        })
        .collect();
    Cell { ids: (0..node_count as u32).collect(), first_out, heads, coords }
}

fn neighbours(cell: &Cell, node: usize) -> &[u32] {
    &cell.heads[cell.first_out[node] as usize..cell.first_out[node + 1] as usize]
}

fn x_is_wider(cell: &Cell) -> bool {
    let extent = |axis: usize| {
        cell.coords
            .iter()
            .map(|coords| f32::from_bits(coords[axis]))
            .fold((f32::INFINITY, f32::NEG_INFINITY), |bounds, value| (bounds.0.min(value), bounds.1.max(value)))
    };
    let (min_x, max_x) = extent(COORD_X);
    let (min_y, max_y) = extent(COORD_Y);
    (max_x - min_x) >= (max_y - min_y)
}

fn assert_permutation(order: &[u32], count: usize) {
    assert_eq!(order.len(), count);
    let mut seen = vec![false; count];
    for &id in order {
        assert!(!seen[id as usize]);
        seen[id as usize] = true;
    }
}

#[test]
fn inertial_flow_separates_a_grid() {
    let side = 24_usize;
    let cell = grid_cell(side);
    let split = inertial_flow_split(&cell).expect("grid admits an inertial flow split");

    // A square grid is cut by a single grid line.
    assert!(split.separator.len() <= side, "separator of {} nodes is larger than a grid line", split.separator.len());
    assert!(!split.separator.is_empty());
    assert_eq!(split.side_a.len() + split.side_b.len() + split.separator.len(), cell.len());
    // Both sides keep at least the flow source or sink set.
    assert!(split.side_a.len() * 4 >= cell.len());
    assert!(split.side_b.len() * 4 >= cell.len());

    let mut side_of = vec![0_u8; cell.len()];
    for &node in &split.side_a {
        side_of[node as usize] = 1;
    }
    for &node in &split.side_b {
        side_of[node as usize] = 2;
    }
    for node in 0..cell.len() {
        for &neighbour in neighbours(&cell, node) {
            let (left, right) = (side_of[node], side_of[neighbour as usize]);
            assert!(left == 0 || right == 0 || left == right, "separator leaves an arc between the two sides");
        }
    }
}

#[test]
fn small_cells_have_no_inertial_split() {
    // A quarter of three nodes is empty.
    assert!(inertial_flow_split(&grid_cell(1)).is_none());
    let mut line = grid_cell(1);
    line.ids = vec![0, 1, 2];
    line.first_out = vec![0, 1, 3, 4];
    line.heads = vec![1, 0, 2, 1];
    line.coords = vec![line.coords[0]; 3];
    assert!(inertial_flow_split(&line).is_none());
}

#[test]
fn total_order_keys_follow_the_ieee_total_order() {
    let values = [
        f32::NEG_INFINITY,
        -3.5,
        -1.0,
        -f32::MIN_POSITIVE,
        -0.0,
        0.0,
        f32::MIN_POSITIVE,
        1.0,
        2.25,
        f32::INFINITY,
        f32::NAN,
        -f32::NAN,
    ];
    for a in values {
        for b in values {
            let by_key = total_order_key(a.to_bits()).cmp(&total_order_key(b.to_bits()));
            assert_eq!(by_key, a.total_cmp(&b), "{a} vs {b}");
        }
    }
    assert_eq!(total_order_key(0x8000_0000), 0x7fff_ffff);
    assert_eq!(total_order_key(0), 0x8000_0000);
}

#[test]
fn dissection_orders_every_node_once() {
    for side in [1_usize, 2, 5, 9] {
        let cell = grid_cell(side);
        let count = cell.len();
        let order = dissect(cell, 4, &x_is_wider);
        assert_permutation(&order, count);
    }
}

#[test]
fn separators_come_after_both_sides() {
    // A path of 40 nodes: whatever splits it, the last node ordered is
    // a cut node of the whole path, never an end.
    let count = 40_usize;
    let mut first_out = vec![0_u32];
    let mut heads = Vec::new();
    for node in 0..count {
        if node > 0 {
            heads.push((node - 1) as u32);
        }
        if node + 1 < count {
            heads.push((node + 1) as u32);
        }
        first_out.push(heads.len() as u32);
    }
    let coords = (0..count)
        .map(|node| {
            let x = node as f32;
            [x.to_bits(), 0f32.to_bits(), x.to_bits(), x.to_bits(), x.to_bits(), 0f32.to_bits()]
        })
        .collect();
    let cell = Cell { ids: (0..count as u32).collect(), first_out, heads, coords };
    let order = dissect(cell, 4, &x_is_wider);
    assert_permutation(&order, count);
    let last = *order.last().unwrap();
    assert!(last != 0 && last as usize != count - 1);
}

#[test]
fn disconnected_cells_are_ordered_component_by_component() {
    // Two separate triangles with ids 10..13 and 20..23: every node of
    // the larger-ranked group follows every node of the other.
    let cell = Cell {
        ids: vec![10, 11, 12, 20, 21, 22],
        first_out: vec![0, 2, 4, 6, 8, 10, 12],
        heads: vec![1, 2, 0, 2, 0, 1, 4, 5, 3, 5, 3, 4],
        coords: vec![[0; 6]; 6],
    };
    let order = dissect(cell, 1, &x_is_wider);
    assert_eq!(order.len(), 6);
    let first_group = order[0] / 10;
    assert!(order[..3].iter().all(|id| id / 10 == first_group));
    assert!(order[3..].iter().all(|id| id / 10 != first_group));
}

#[test]
fn minimum_degree_eliminates_the_lowest_degree_first() {
    // A star: a leaf goes first; once two leaves are gone the centre and
    // the last leaf tie at degree one and the lower index wins.
    let star = Cell {
        ids: vec![7, 8, 9, 10],
        first_out: vec![0, 3, 4, 5, 6],
        heads: vec![1, 2, 3, 0, 0, 0],
        coords: vec![[0; 6]; 4],
    };
    assert_eq!(minimum_degree_order(&star), vec![8, 9, 7, 10]);
    // A kite: hub 0 joined to 1, 2 and the leaf 3, with 1 - 2 joined.
    // The leaf goes first, then the hub (a tie at degree two, lowest
    // index), then the rest.
    let kite = Cell {
        ids: vec![10, 11, 12, 13],
        first_out: vec![0, 3, 5, 7, 8],
        heads: vec![1, 2, 3, 0, 2, 0, 1, 0],
        coords: vec![[0; 6]; 4],
    };
    assert_eq!(minimum_degree_order(&kite), vec![13, 10, 11, 12]);
}

#[test]
fn edge_cells_join_states_by_transitions_either_way() {
    // 0 -> 1, 1 -> 0 (twice), 1 -> 2, 2 -> 2 (a self-transition).
    let transitions = EdgeBasedTopology {
        node_first_out: vec![],
        node_edge_order: vec![],
        edge_transition_first_out: vec![0, 1, 4, 5],
        edge_transition_edges: vec![1, 0, 0, 2, 2],
    };
    let cell = edge_cell(3, &transitions, vec![[0; 6]; 3]);
    assert_eq!(cell.ids, vec![0, 1, 2]);
    assert_eq!(cell.first_out, vec![0, 1, 3, 4]);
    assert_eq!(cell.heads, vec![1, 0, 2, 1]);
    // Without transition rows the states stand alone.
    let none = EdgeBasedTopology {
        node_first_out: vec![],
        node_edge_order: vec![],
        edge_transition_first_out: vec![],
        edge_transition_edges: vec![],
    };
    let cell = edge_cell(2, &none, vec![[0; 6]; 2]);
    assert_eq!(cell.first_out, vec![0, 0, 0]);
    assert!(cell.heads.is_empty());
}
