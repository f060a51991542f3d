//! Graph primitives: node and edge ids, road classification, access masks
//! and the per-edge records that make up a topology.
//!
//! Floating-point quantities (elevation gain, durations, speeds) are carried
//! as their IEEE-754 bit patterns: this crate moves them around but never
//! computes with them.

use vstd::prelude::*;

verus! {

/// Edge flag: the edge is part of a roundabout.
pub const EDGE_FLAG_ROUNDABOUT: u32 = 1;

/// Edge flag: the edge ends at a node tagged as a traffic signal.
pub const EDGE_FLAG_TARGET_TRAFFIC_SIGNAL: u32 = 2;

/// Edge flag: foot travel against a one-way direction was inferred.
pub const EDGE_FLAG_INFERRED_FOOT_REVERSE_ONEWAY: u32 = 4;

/// Edge flag: bicycle contraflow on a one-way road was inferred.
pub const EDGE_FLAG_INFERRED_BICYCLE_CONTRAFLOW: u32 = 8;

/// Edge flag: the edge exists only so that a request-owned temporal
/// direction override can enable it; static routing keeps it gated.
pub const EDGE_FLAG_TEMPORAL_MATERIALIZED_DIRECTION: u32 = 16;

/// Schema version of a topology bundle. Readers accept this value only.
pub const TOPOLOGY_BUNDLE_SCHEMA_VERSION: u32 = 13;

/// Sentinel used by edges that are not derived from a source feature row.
pub const NO_FEATURE_ROW: u32 = 0xffff_ffff;

#[derive(Debug, Clone, Copy, PartialEq, Eq, Hash, Structural)]
pub struct NodeId(pub u32);

#[derive(Debug, Clone, Copy, PartialEq, Eq, Hash, Structural)]
pub struct EdgeId(pub u32);

#[derive(Debug, Clone, Copy, PartialEq, Eq, Hash, Structural)]
pub enum RoadClass {
    Motorway,
    Trunk,
    Primary,
    Secondary,
    Tertiary,
    Residential,
    Service,
    Track,
    Ferry,
    Path,
    Unknown,
}

#[derive(Debug, Clone, Copy, PartialEq, Eq, Hash, Structural)]
pub enum HighwayClass {
    Motorway,
    MotorwayLink,
    Trunk,
    TrunkLink,
    Primary,
    PrimaryLink,
    Secondary,
    SecondaryLink,
    Tertiary,
    TertiaryLink,
    Residential,
    Unclassified,
    LivingStreet,
    Service,
    Track,
    Path,
    Cycleway,
    Footway,
    Pedestrian,
    Steps,
    Bridleway,
    Ferry,
    Unknown,
}

/// The coarse road class that a highway class belongs to.
pub open spec fn road_class_of(h: HighwayClass) -> RoadClass {
    match h {
        HighwayClass::Motorway | HighwayClass::MotorwayLink => RoadClass::Motorway,
        HighwayClass::Trunk | HighwayClass::TrunkLink => RoadClass::Trunk,
        HighwayClass::Primary | HighwayClass::PrimaryLink => RoadClass::Primary,
        HighwayClass::Secondary | HighwayClass::SecondaryLink => RoadClass::Secondary,
        HighwayClass::Tertiary | HighwayClass::TertiaryLink => RoadClass::Tertiary,
        HighwayClass::Residential | HighwayClass::Unclassified | HighwayClass::LivingStreet =>
            RoadClass::Residential,
        HighwayClass::Service => RoadClass::Service,
        HighwayClass::Track => RoadClass::Track,
        HighwayClass::Path | HighwayClass::Cycleway | HighwayClass::Footway
        | HighwayClass::Pedestrian | HighwayClass::Steps | HighwayClass::Bridleway =>
            RoadClass::Path,
        HighwayClass::Ferry => RoadClass::Ferry,
        HighwayClass::Unknown => RoadClass::Unknown,
    }
}

/// The representative highway class of a road class.
pub open spec fn highway_of_road_class(r: RoadClass) -> HighwayClass {
    match r {
        RoadClass::Motorway => HighwayClass::Motorway,
        RoadClass::Trunk => HighwayClass::Trunk,
        RoadClass::Primary => HighwayClass::Primary,
        RoadClass::Secondary => HighwayClass::Secondary,
        RoadClass::Tertiary => HighwayClass::Tertiary,
        RoadClass::Residential => HighwayClass::Residential,
        RoadClass::Service => HighwayClass::Service,
        RoadClass::Track => HighwayClass::Track,
        RoadClass::Ferry => HighwayClass::Ferry,
        RoadClass::Path => HighwayClass::Path,
        RoadClass::Unknown => HighwayClass::Unknown,
    }
}

impl HighwayClass {
    pub fn road_class(self) -> (r: RoadClass)
        ensures
            r == road_class_of(self),
    {
        match self {
            HighwayClass::Motorway | HighwayClass::MotorwayLink => RoadClass::Motorway,
            HighwayClass::Trunk | HighwayClass::TrunkLink => RoadClass::Trunk,
            HighwayClass::Primary | HighwayClass::PrimaryLink => RoadClass::Primary,
            HighwayClass::Secondary | HighwayClass::SecondaryLink => RoadClass::Secondary,
            HighwayClass::Tertiary | HighwayClass::TertiaryLink => RoadClass::Tertiary,
            HighwayClass::Residential | HighwayClass::Unclassified | HighwayClass::LivingStreet =>
                RoadClass::Residential,
            HighwayClass::Service => RoadClass::Service,
            HighwayClass::Track => RoadClass::Track,
            HighwayClass::Path | HighwayClass::Cycleway | HighwayClass::Footway
            | HighwayClass::Pedestrian | HighwayClass::Steps | HighwayClass::Bridleway =>
                RoadClass::Path,
            HighwayClass::Ferry => RoadClass::Ferry,
            HighwayClass::Unknown => RoadClass::Unknown,
        }
    }

    pub fn from_road_class(road_class: RoadClass) -> (r: HighwayClass)
        ensures
            r == highway_of_road_class(road_class),
    {
        match road_class {
            RoadClass::Motorway => HighwayClass::Motorway,
            RoadClass::Trunk => HighwayClass::Trunk,
            RoadClass::Primary => HighwayClass::Primary,
            RoadClass::Secondary => HighwayClass::Secondary,
            RoadClass::Tertiary => HighwayClass::Tertiary,
            RoadClass::Residential => HighwayClass::Residential,
            RoadClass::Service => HighwayClass::Service,
            RoadClass::Track => HighwayClass::Track,
            RoadClass::Ferry => HighwayClass::Ferry,
            RoadClass::Path => HighwayClass::Path,
            RoadClass::Unknown => HighwayClass::Unknown,
        }
    }
}

/// Law: the representative highway class of a road class belongs to that
/// road class again, so going from a road class to a highway class and back
/// loses nothing.
pub proof fn lemma_road_class_round_trip(r: RoadClass)
    ensures
        road_class_of(highway_of_road_class(r)) == r,
{
}

#[derive(Debug, Clone, Copy, PartialEq, Eq, Hash, Structural)]
pub enum SurfaceClass {
    Asphalt,
    Paved,
    Gravel,
    Cobblestone,
    Ground,
    Dirt,
    Sand,
    Unknown,
}

#[derive(Debug, Clone, Copy, PartialEq, Eq, Hash, Structural)]
pub enum SmoothnessClass {
    Excellent,
    Good,
    Intermediate,
    Bad,
    VeryBad,
    Horrible,
    VeryHorrible,
    Impassable,
    Unknown,
}

/// Bit set of the travel modes allowed on an edge.
#[derive(Debug, Clone, Copy, PartialEq, Eq, Hash, Structural)]
pub struct AccessMask(pub u16);

pub const ACCESS_CAR: u16 = 1;

pub const ACCESS_BICYCLE: u16 = 2;

pub const ACCESS_FOOT: u16 = 4;

pub const ACCESS_TRANSIT: u16 = 8;

pub const ACCESS_HGV: u16 = 16;

impl AccessMask {
    pub fn new(bits: u16) -> (r: AccessMask)
        ensures
            r.0 == bits,
    {
        AccessMask(bits)
    }

    /// Whether any bit of `bit` is set.
    pub fn contains(self, bit: u16) -> (r: bool)
        ensures
            r == (self.0 & bit != 0),
    {
        self.0 & bit != 0
    }
}

#[derive(Debug, Clone, Copy, PartialEq, Eq, Hash, Structural)]
pub enum TravelMode {
    Car,
    Bicycle,
    Foot,
    Transit,
    Hgv,
}

/// The access bit of a travel mode.
pub open spec fn mode_bit(mode: TravelMode) -> u16 {
    match mode {
        TravelMode::Car => ACCESS_CAR,
        TravelMode::Bicycle => ACCESS_BICYCLE,
        TravelMode::Foot => ACCESS_FOOT,
        TravelMode::Transit => ACCESS_TRANSIT,
        TravelMode::Hgv => ACCESS_HGV,
    }
}

impl TravelMode {
    pub fn access_bit(self) -> (r: u16)
        ensures
            r == mode_bit(self),
    {
        match self {
            TravelMode::Car => ACCESS_CAR,
            TravelMode::Bicycle => ACCESS_BICYCLE,
            TravelMode::Foot => ACCESS_FOOT,
            TravelMode::Transit => ACCESS_TRANSIT,
            TravelMode::Hgv => ACCESS_HGV,
        }
    }
}

impl Default for TravelMode {
    fn default() -> (r: TravelMode)
        ensures
            r == TravelMode::Car,
    {
        TravelMode::Car
    }
}

/// Law: the travel modes have pairwise distinct access bits, each a single
/// bit, so an access mask records each mode independently.
pub proof fn lemma_mode_bits_distinct(a: TravelMode, b: TravelMode)
    ensures
        a != b ==> mode_bit(a) & mode_bit(b) == 0,
        mode_bit(a) & mode_bit(a) == mode_bit(a),
        mode_bit(a) != 0,
{
    let x = mode_bit(a);
    let y = mode_bit(b);
    assert(x == 1 || x == 2 || x == 4 || x == 8 || x == 16);
    assert(y == 1 || y == 2 || y == 4 || y == 8 || y == 16);
    assert((x == 1 || x == 2 || x == 4 || x == 8 || x == 16) && (y == 1 || y == 2 || y == 4 || y
        == 8 || y == 16) ==> (x != y ==> x & y == 0) && x & x == x) by (bit_vector);
}

#[derive(Debug, Clone, Copy, PartialEq, Eq, Hash, Structural)]
pub enum TurnRestrictionKind {
    NoTurn,
    OnlyTurn,
}

/// A prohibited (or, for only-turns, the complement of a mandatory) edge
/// sequence.
#[derive(Debug, Clone)]
pub struct TurnRestriction {
    pub relation_id: i64,
    pub kind: TurnRestrictionKind,
    pub edge_path: Vec<EdgeId>,
    pub mode_mask: AccessMask,
}

#[derive(Debug, Clone, Copy, PartialEq, Eq, Hash, Structural)]
pub enum ConnectedComponentKind {
    Weak,
}

#[derive(Debug, Clone)]
pub struct ConnectedComponentsMeta {
    pub kind: ConnectedComponentKind,
    pub component_count: u32,
    pub largest_component_node_count: u64,
    pub largest_component_edge_count: u64,
}

#[derive(Debug, Clone)]
pub struct TopologyBundleMeta {
    pub node_count: u64,
    pub edge_count: u64,
    pub geometry_bytes: u64,
    pub turn_count: u64,
    pub connected_components: Option<ConnectedComponentsMeta>,
    pub source_node_count: u64,
    pub source_way_count: u64,
    pub source_relation_count: u64,
    pub routable_way_count: u64,
    pub skipped_way_count: u64,
}

#[derive(Debug, Clone, Copy, PartialEq, Eq, Structural)]
pub struct SpatialIndexCell {
    pub node_start: u32,
    pub node_len: u32,
}

#[derive(Debug, Clone)]
pub struct EdgeNameBundle {
    pub names: Vec<String>,
}

/// Compressed adjacency of the directed graph and of its edge-to-edge
/// transition graph.
#[derive(Debug, Clone)]
pub struct EdgeBasedTopology {
    pub node_first_out: Vec<u32>,
    pub node_edge_order: Vec<u32>,
    pub edge_transition_first_out: Vec<u32>,
    pub edge_transition_edges: Vec<u32>,
}

/// One directed edge of the routable graph.
#[derive(Debug, Clone, Copy)]
pub struct DirectedEdge {
    pub edge_id: EdgeId,
    pub from: NodeId,
    pub to: NodeId,
    pub source_way_id: i64,
    /// Segment length in whole metres.
    pub length_m: u32,
    /// Positive elevation gain in this direction (bits of an `f32`).
    pub ascent_m: u32,
    /// Positive elevation loss in this direction (bits of an `f32`).
    pub descent_m: u32,
    pub feature_row: u32,
    /// `1` follows the source geometry, `-1` runs against it, `0` unknown.
    pub source_direction: i8,
    pub temporal_rule_id: Option<u32>,
    /// Tagged traversal time in seconds (bits of an `f64`).
    pub duration_s: Option<u64>,
    pub road_class: RoadClass,
    pub surface: SurfaceClass,
    pub smoothness: SmoothnessClass,
    pub access_mask: AccessMask,
    pub is_toll: bool,
    /// Posted speed limit in km/h (bits of an `f32`).
    pub max_speed_kph: Option<u32>,
    pub lanes: Option<u8>,
    pub name_index: Option<u32>,
    pub geometry_offset: u64,
    pub geometry_len: u32,
    pub flags: u32,
}

/// The routing layer of an edge.
#[derive(Debug, Clone, Copy)]
pub struct RoutingEdge {
    pub edge_id: EdgeId,
    pub from: NodeId,
    pub to: NodeId,
    pub source_way_id: i64,
    pub length_m: u32,
    /// Bits of an `f32`.
    pub ascent_m: u32,
    /// Bits of an `f32`.
    pub descent_m: u32,
    pub feature_row: u32,
    pub source_direction: i8,
    pub temporal_rule_id: Option<u32>,
    pub flags: u32,
}

/// A node of the routable graph; coordinates are `f64` bit patterns, and
/// an unknown elevation is a NaN.
#[derive(Debug, Clone, Copy)]
pub struct TopologyNode {
    pub node_id: NodeId,
    pub lon: u64,
    pub lat: u64,
    pub z: u64,
}

/// The profile-facing attributes of an edge.
#[derive(Debug, Clone, Copy)]
pub struct EdgeProfileAttributes {
    /// Bits of an `f64`.
    pub duration_s: Option<u64>,
    pub road_class: RoadClass,
    pub highway: HighwayClass,
    pub surface: SurfaceClass,
    pub smoothness: SmoothnessClass,
    pub access_mask: AccessMask,
    pub is_toll: bool,
    /// Bits of an `f32`.
    pub max_speed_kph: Option<u32>,
    pub lanes: Option<u8>,
}

/// Presentation metadata of an edge.
#[derive(Debug, Clone, Copy)]
pub struct EdgePresentation {
    pub name_index: Option<u32>,
    pub geometry_offset: u64,
    pub geometry_len: u32,
}

/// The three parallel per-edge columns of a topology bundle, indexed alike.
#[derive(Debug, Clone)]
pub struct TopologyEdgeLayers {
    pub routing: Vec<RoutingEdge>,
    pub profile: Vec<EdgeProfileAttributes>,
    pub presentation: Vec<EdgePresentation>,
}

pub open spec fn routing_of(e: DirectedEdge) -> RoutingEdge {
    RoutingEdge {
        edge_id: e.edge_id,
        from: e.from,
        to: e.to,
        source_way_id: e.source_way_id,
        length_m: e.length_m,
        ascent_m: e.ascent_m,
        descent_m: e.descent_m,
        feature_row: e.feature_row,
        source_direction: e.source_direction,
        temporal_rule_id: e.temporal_rule_id,
        flags: e.flags,
    }
}

pub open spec fn profile_of(e: DirectedEdge) -> EdgeProfileAttributes {
    EdgeProfileAttributes {
        duration_s: e.duration_s,
        road_class: e.road_class,
        highway: highway_of_road_class(e.road_class),
        surface: e.surface,
        smoothness: e.smoothness,
        access_mask: e.access_mask,
        is_toll: e.is_toll,
        max_speed_kph: e.max_speed_kph,
        lanes: e.lanes,
    }
}

pub open spec fn presentation_of(e: DirectedEdge) -> EdgePresentation {
    EdgePresentation {
        name_index: e.name_index,
        geometry_offset: e.geometry_offset,
        geometry_len: e.geometry_len,
    }
}

/// The edge gathered back from its three layers.
pub open spec fn gather_edge(
    r: RoutingEdge,
    p: EdgeProfileAttributes,
    q: EdgePresentation,
) -> DirectedEdge {
    DirectedEdge {
        edge_id: r.edge_id,
        from: r.from,
        to: r.to,
        source_way_id: r.source_way_id,
        length_m: r.length_m,
        ascent_m: r.ascent_m,
        descent_m: r.descent_m,
        feature_row: r.feature_row,
        source_direction: r.source_direction,
        temporal_rule_id: r.temporal_rule_id,
        duration_s: p.duration_s,
        road_class: p.road_class,
        surface: p.surface,
        smoothness: p.smoothness,
        access_mask: p.access_mask,
        is_toll: p.is_toll,
        max_speed_kph: p.max_speed_kph,
        lanes: p.lanes,
        name_index: q.name_index,
        geometry_offset: q.geometry_offset,
        geometry_len: q.geometry_len,
        flags: r.flags,
    }
}

impl TopologyEdgeLayers {
    pub open spec fn layers_aligned(&self) -> bool {
        self.routing@.len() == self.profile@.len() && self.routing@.len()
            == self.presentation@.len()
    }

    /// Splits `edges` into the three parallel layers.
    pub fn from_directed_edges(edges: &Vec<DirectedEdge>) -> (r: TopologyEdgeLayers)
        ensures
            r.layers_aligned(),
            r.routing@ == edges@.map_values(|e: DirectedEdge| routing_of(e)),
            r.profile@ == edges@.map_values(|e: DirectedEdge| profile_of(e)),
            r.presentation@ == edges@.map_values(|e: DirectedEdge| presentation_of(e)),
    {
        let mut layers = TopologyEdgeLayers {
            routing: Vec::with_capacity(edges.len()),
            profile: Vec::with_capacity(edges.len()),
            presentation: Vec::with_capacity(edges.len()),
        };
        let mut i: usize = 0;
        while i < edges.len()
            invariant
                i <= edges.len(),
                layers.layers_aligned(),
                layers.routing@ == edges@.take(i as int).map_values(
                    |e: DirectedEdge| routing_of(e),
                ),
                layers.profile@ == edges@.take(i as int).map_values(
                    |e: DirectedEdge| profile_of(e),
                ),
                layers.presentation@ == edges@.take(i as int).map_values(
                    |e: DirectedEdge| presentation_of(e),
                ),
            decreases edges.len() - i,
        {
            layers.push_directed_edge(&edges[i]);
            proof {
                assert(edges@.take(i + 1) =~= edges@.take(i as int).push(edges@[i as int]));
            }
            i += 1;
        }
        proof {
            assert(edges@.take(edges.len() as int) =~= edges@);
        }
        layers
    }

    /// Appends one edge to each layer.
    pub fn push_directed_edge(&mut self, edge: &DirectedEdge)
        ensures
            final(self).routing@ == old(self).routing@.push(routing_of(*edge)),
            final(self).profile@ == old(self).profile@.push(profile_of(*edge)),
            final(self).presentation@ == old(self).presentation@.push(presentation_of(*edge)),
    {
        self.routing.push(
            RoutingEdge {
                edge_id: edge.edge_id,
                from: edge.from,
                to: edge.to,
                source_way_id: edge.source_way_id,
                length_m: edge.length_m,
                ascent_m: edge.ascent_m,
                descent_m: edge.descent_m,
                feature_row: edge.feature_row,
                source_direction: edge.source_direction,
                temporal_rule_id: edge.temporal_rule_id,
                flags: edge.flags,
            },
        );
        self.profile.push(
            EdgeProfileAttributes {
                duration_s: edge.duration_s,
                road_class: edge.road_class,
                highway: HighwayClass::from_road_class(edge.road_class),
                surface: edge.surface,
                smoothness: edge.smoothness,
                access_mask: edge.access_mask,
                is_toll: edge.is_toll,
                max_speed_kph: edge.max_speed_kph,
                lanes: edge.lanes,
            },
        );
        self.presentation.push(
            EdgePresentation {
                name_index: edge.name_index,
                geometry_offset: edge.geometry_offset,
                geometry_len: edge.geometry_len,
            },
        );
    }

    /// Gathers the three layers at `edge_index` into one edge.
    pub fn edge(&self, edge_index: usize) -> (r: DirectedEdge)
        requires
            self.layers_aligned(),
            edge_index < self.routing@.len(),
        ensures
            r == gather_edge(
                self.routing@[edge_index as int],
                self.profile@[edge_index as int],
                self.presentation@[edge_index as int],
            ),
    {
        let routing = self.routing[edge_index];
        let profile = self.profile[edge_index];
        let presentation = self.presentation[edge_index];
        DirectedEdge {
            edge_id: routing.edge_id,
            from: routing.from,
            to: routing.to,
            source_way_id: routing.source_way_id,
            length_m: routing.length_m,
            ascent_m: routing.ascent_m,
            descent_m: routing.descent_m,
            feature_row: routing.feature_row,
            source_direction: routing.source_direction,
            temporal_rule_id: routing.temporal_rule_id,
            duration_s: profile.duration_s,
            road_class: profile.road_class,
            surface: profile.surface,
            smoothness: profile.smoothness,
            access_mask: profile.access_mask,
            is_toll: profile.is_toll,
            max_speed_kph: profile.max_speed_kph,
            lanes: profile.lanes,
            name_index: presentation.name_index,
            geometry_offset: presentation.geometry_offset,
            geometry_len: presentation.geometry_len,
            flags: routing.flags,
        }
    }
}

/// Law: splitting an edge into its layers and gathering it back yields the
/// same edge.
pub proof fn lemma_split_gather_round_trip(e: DirectedEdge)
    ensures
        gather_edge(routing_of(e), profile_of(e), presentation_of(e)) == e,
{
}

} // verus!
