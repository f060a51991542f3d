use std::collections::HashMap;

use netweevil::graph::{
    TurnRestriction, ACCESS_FOOT,
    AccessMask, DirectedEdge, EdgeId, NodeId, RoadClass, SmoothnessClass, SurfaceClass, TurnRestrictionKind,
    ACCESS_BICYCLE, ACCESS_CAR, ACCESS_HGV, ACCESS_TRANSIT, NO_FEATURE_ROW,
};
use netweevil::osm::{OsmMember, OsmRelation, OsmTags, RelationMember};
use netweevil::restriction_paths::{build_turn_restrictions, edge_ids_are_indices, pairwise_forbidden_turns, WayNodes};
use netweevil::restrictions::{
    parse_except_modes, parse_restriction_kind, parse_restriction_rule, parse_turn_restriction_relation,
    RestrictionKind, TurnRestrictionCandidate, ViaSpec,
};

fn tags(pairs: &[(&str, &str)]) -> OsmTags {
    OsmTags { entries: pairs.iter().map(|(k, v)| (k.to_string(), v.to_string())).collect() }
}

fn member(member: OsmMember, role: &str) -> RelationMember {
    RelationMember { member, role: role.to_string() }
}

#[test]
fn parses_node_based_turn_restriction_relations() {
    let relation = OsmRelation {
        id: 42,
        tags: tags(&[("type", "restriction"), ("restriction", "no_left_turn")]),
        refs: vec![
            member(OsmMember::Way(10), "from"),
            member(OsmMember::Node(20), "via"),
            member(OsmMember::Way(30), "to"),
        ],
    };
    let candidate = parse_turn_restriction_relation(&relation).expect("relation parses");
    assert_eq!(candidate.relation_id, 42);
    assert_eq!(candidate.from_way_id, 10);
    assert!(matches!(candidate.via, ViaSpec::Node(20)));
    assert_eq!(candidate.to_way_id, 30);
    assert_eq!(candidate.kind, RestrictionKind::NoTurn);
    assert_eq!(candidate.mode_mask, AccessMask::new(ACCESS_CAR | ACCESS_HGV | ACCESS_TRANSIT));
}

#[test]
fn parses_via_way_turn_restriction_relations() {
    let relation = OsmRelation {
        id: 43,
        tags: tags(&[("type", "restriction"), ("restriction:vehicle", "no_straight_on")]),
        refs: vec![
            member(OsmMember::Way(10), "from"),
            member(OsmMember::Way(20), "via"),
            member(OsmMember::Way(30), "to"),
        ],
    };
    let candidate = parse_turn_restriction_relation(&relation).expect("relation parses");
    assert!(matches!(candidate.via, ViaSpec::Ways(ref ways) if ways == &vec![20]));
    assert_eq!(
        candidate.mode_mask,
        AccessMask::new(ACCESS_CAR | ACCESS_BICYCLE | ACCESS_HGV | ACCESS_TRANSIT)
    );
}

#[test]
fn refuses_conflicting_or_incomplete_relations() {
    let base = |t: OsmTags, refs: Vec<RelationMember>| OsmRelation { id: 1, tags: t, refs };
    let good_refs = || {
        vec![member(OsmMember::Way(1), "from"), member(OsmMember::Node(2), "via"), member(OsmMember::Way(3), "to")]
    };
    assert!(parse_turn_restriction_relation(&base(tags(&[("type", "multipolygon")]), good_refs())).is_none());
    assert!(parse_turn_restriction_relation(&base(
        tags(&[("type", "restriction"), ("restriction", "no_u_turn"), ("restriction:hgv", "only_straight_on")]),
        good_refs()
    ))
    .is_none());
    let mut two_from = good_refs();
    two_from.push(member(OsmMember::Way(9), "from"));
    assert!(parse_turn_restriction_relation(&base(tags(&[("type", "restriction"), ("restriction", "no_u_turn")]), two_from)).is_none());
    let mut mixed_via = good_refs();
    mixed_via.push(member(OsmMember::Way(7), "via"));
    assert!(parse_turn_restriction_relation(&base(tags(&[("type", "restriction"), ("restriction", "no_u_turn")]), mixed_via)).is_none());
    let mut repeated_from = good_refs();
    repeated_from.push(member(OsmMember::Way(1), "from"));
    assert!(parse_turn_restriction_relation(&base(tags(&[("type", "restriction"), ("restriction", "no_u_turn")]), repeated_from)).is_some());
}

#[test]
fn reads_kinds_and_exempted_modes() {
    assert_eq!(parse_restriction_kind(" only_left_turn "), Some(RestrictionKind::OnlyTurn));
    assert_eq!(parse_restriction_kind("give_way"), None);
    assert_eq!(parse_except_modes(Some("bicycle; psv,")), ACCESS_BICYCLE | ACCESS_TRANSIT);
    assert_eq!(parse_except_modes(Some("unknown")), 0);
    assert_eq!(parse_except_modes(None), 0);
    let all_exempt = tags(&[("restriction:bus", "no_entry"), ("except", "psv")]);
    assert_eq!(parse_restriction_rule(&all_exempt), None);
    let partial = tags(&[("restriction", "no_entry"), ("except", "motorcar")]);
    assert_eq!(parse_restriction_rule(&partial), Some((RestrictionKind::NoTurn, AccessMask::new(ACCESS_HGV | ACCESS_TRANSIT))));
}

fn way_edge(edge_id: u32, from: u32, to: u32, source_way_id: i64) -> DirectedEdge {
    DirectedEdge {
        edge_id: EdgeId(edge_id),
        from: NodeId(from),
        to: NodeId(to),
        source_way_id,
        length_m: 100,
        ascent_m: 0,
        descent_m: 0,
        feature_row: NO_FEATURE_ROW,
        source_direction: 1,
        temporal_rule_id: None,
        duration_s: None,
        road_class: RoadClass::Residential,
        surface: SurfaceClass::Asphalt,
        smoothness: SmoothnessClass::Unknown,
        access_mask: AccessMask::new(ACCESS_CAR),
        is_toll: false,
        max_speed_kph: None,
        lanes: None,
        name_index: None,
        geometry_offset: 0,
        geometry_len: 0,
        flags: 0,
    }
}

fn pending_way(osm_way_id: i64, node_ids: &[i64]) -> WayNodes {
    WayNodes { osm_way_id, node_ids: node_ids.to_vec() }
}

fn candidate(relation_id: i64, from: i64, via: ViaSpec, to: i64, kind: RestrictionKind) -> TurnRestrictionCandidate {
    TurnRestrictionCandidate {
        relation_id,
        from_way_id: from,
        via,
        to_way_id: to,
        kind,
        mode_mask: AccessMask::new(ACCESS_CAR),
    }
}

fn ids(path: &[u32]) -> Vec<EdgeId> {
    path.iter().map(|&id| EdgeId(id)).collect()
}

#[test]
fn expands_only_turn_relations_into_prohibited_transitions() {
    let candidates = vec![candidate(7, 10, ViaSpec::Node(100), 11, RestrictionKind::OnlyTurn)];
    let ways = vec![];
    let node_lookup = HashMap::from_iter([(100_i64, 1_u32)]);
    let edges = vec![way_edge(0, 0, 1, 10), way_edge(1, 1, 2, 11), way_edge(2, 1, 3, 12)];

    let restrictions = build_turn_restrictions(&candidates, &ways, &node_lookup, &edges);
    assert_eq!(restrictions.len(), 1);
    assert_eq!(restrictions[0].kind, TurnRestrictionKind::OnlyTurn);
    assert_eq!(restrictions[0].edge_path, vec![EdgeId(0), EdgeId(2)]);
    assert_eq!(restrictions[0].relation_id, 7);
}

#[test]
fn expands_via_way_only_turns_into_multi_edge_prohibitions() {
    let candidates = vec![candidate(8, 10, ViaSpec::Ways(vec![20]), 30, RestrictionKind::OnlyTurn)];
    let ways = vec![pending_way(10, &[1, 2]), pending_way(20, &[2, 3, 4]), pending_way(30, &[4, 5])];
    let node_lookup = HashMap::from_iter([(1_i64, 0_u32), (2, 1), (3, 2), (4, 3), (5, 4), (6, 5)]);
    let edges = vec![
        way_edge(0, 0, 1, 10),
        way_edge(1, 1, 2, 20),
        way_edge(2, 2, 3, 20),
        way_edge(3, 3, 4, 30),
        way_edge(4, 1, 5, 99),
        way_edge(5, 2, 5, 98),
        way_edge(6, 3, 5, 97),
    ];

    let restrictions = build_turn_restrictions(&candidates, &ways, &node_lookup, &edges);
    assert_eq!(restrictions.len(), 3);
    assert_eq!(restrictions[0].edge_path, vec![EdgeId(0), EdgeId(4)]);
    assert_eq!(restrictions[1].edge_path, vec![EdgeId(0), EdgeId(1), EdgeId(5)]);
    assert_eq!(restrictions[2].edge_path, vec![EdgeId(0), EdgeId(1), EdgeId(2), EdgeId(6)]);
}

#[test]
fn no_turns_forbid_each_incoming_to_outgoing_pair_once() {
    // Two edges of way 10 end at node 1; way 11 leaves it twice.
    let edges = vec![
        way_edge(0, 0, 1, 10),
        way_edge(1, 2, 1, 10),
        way_edge(2, 1, 3, 11),
        way_edge(3, 1, 4, 11),
        way_edge(4, 1, 5, 12),
    ];
    let node_lookup = HashMap::from_iter([(100_i64, 1_u32)]);
    let no_turn = candidate(5, 10, ViaSpec::Node(100), 11, RestrictionKind::NoTurn);
    // The same relation twice gives each path once, from the first.
    let mut again = no_turn.clone();
    again.relation_id = 6;
    let restrictions = build_turn_restrictions(&vec![no_turn, again], &vec![], &node_lookup, &edges);
    assert_eq!(restrictions.len(), 4);
    assert_eq!(restrictions[0].edge_path, ids(&[0, 2]));
    assert_eq!(restrictions[1].edge_path, ids(&[0, 3]));
    assert_eq!(restrictions[2].edge_path, ids(&[1, 2]));
    assert_eq!(restrictions[3].edge_path, ids(&[1, 3]));
    assert!(restrictions.iter().all(|r| r.relation_id == 5 && r.kind == TurnRestrictionKind::NoTurn));
    assert!(restrictions.iter().all(|r| r.mode_mask == AccessMask::new(ACCESS_CAR)));
}

#[test]
fn skips_candidates_that_do_not_meet_the_graph() {
    let edges = vec![way_edge(0, 0, 1, 10), way_edge(1, 1, 2, 11)];
    let node_lookup = HashMap::from_iter([(100_i64, 1_u32)]);
    // Unknown via node, a from way that does not reach it, an unknown via way.
    let candidates = vec![
        candidate(1, 10, ViaSpec::Node(999), 11, RestrictionKind::NoTurn),
        candidate(2, 11, ViaSpec::Node(100), 10, RestrictionKind::NoTurn),
        candidate(3, 10, ViaSpec::Ways(vec![77]), 11, RestrictionKind::NoTurn),
        candidate(4, 10, ViaSpec::Ways(vec![]), 11, RestrictionKind::NoTurn),
    ];
    let ways = vec![pending_way(10, &[0, 100]), pending_way(11, &[100, 2])];
    assert!(build_turn_restrictions(&candidates, &ways, &node_lookup, &edges).is_empty());
}

#[test]
fn via_ways_must_share_exactly_one_node() {
    // Ways 10 and 20 share nodes 2 and 3, so the relation is ambiguous.
    let ways = vec![pending_way(10, &[1, 2, 3]), pending_way(20, &[2, 3, 4]), pending_way(30, &[4, 5])];
    let node_lookup = HashMap::from_iter([(1_i64, 0_u32), (2, 1), (3, 2), (4, 3), (5, 4)]);
    let edges = vec![
        way_edge(0, 0, 1, 10),
        way_edge(1, 1, 2, 10),
        way_edge(2, 1, 2, 20),
        way_edge(3, 2, 3, 20),
        way_edge(4, 3, 4, 30),
    ];
    let candidates = vec![candidate(9, 10, ViaSpec::Ways(vec![20]), 30, RestrictionKind::NoTurn)];
    assert!(build_turn_restrictions(&candidates, &ways, &node_lookup, &edges).is_empty());

    // With a single shared node the via chain is forbidden as a whole.
    let ways = vec![pending_way(10, &[1, 2]), pending_way(20, &[2, 3, 4]), pending_way(30, &[4, 5])];
    let edges = vec![
        way_edge(0, 0, 1, 10),
        way_edge(1, 1, 2, 20),
        way_edge(2, 2, 3, 20),
        way_edge(3, 3, 4, 30),
    ];
    let restrictions = build_turn_restrictions(&candidates, &ways, &node_lookup, &edges);
    assert_eq!(restrictions.len(), 1);
    assert_eq!(restrictions[0].edge_path, ids(&[0, 1, 2, 3]));
}

fn restriction(path: &[u32], mask: u16) -> TurnRestriction {
    TurnRestriction { relation_id: 1, kind: TurnRestrictionKind::NoTurn, edge_path: ids(path), mode_mask: AccessMask::new(mask) }
}

#[test]
fn pairwise_table_lists_two_edge_prohibitions_per_mode() {
    let restrictions = vec![
        restriction(&[0, 3], ACCESS_CAR),
        restriction(&[0, 1], ACCESS_CAR | ACCESS_FOOT),
        restriction(&[0, 3], ACCESS_CAR),
        restriction(&[2, 1], ACCESS_FOOT),
        restriction(&[1, 2, 3], ACCESS_CAR),
    ];
    let car = pairwise_forbidden_turns(&restrictions, 4, ACCESS_CAR);
    assert_eq!(car, vec![vec![1, 3], vec![], vec![], vec![]]);
    let foot = pairwise_forbidden_turns(&restrictions, 4, ACCESS_FOOT);
    assert_eq!(foot, vec![vec![1], vec![], vec![1], vec![]]);
    assert_eq!(pairwise_forbidden_turns(&vec![], 2, ACCESS_CAR), vec![Vec::<u32>::new(), Vec::new()]);
}

#[test]
fn checks_that_edge_ids_index_the_edges() {
    assert!(edge_ids_are_indices(&vec![way_edge(1, 0, 1, 1), way_edge(0, 1, 0, 1)]));
    assert!(!edge_ids_are_indices(&vec![way_edge(2, 0, 1, 1), way_edge(0, 1, 0, 1)]));
    assert!(edge_ids_are_indices(&vec![]));
}
