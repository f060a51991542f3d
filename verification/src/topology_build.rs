//! Turning scanned ways into the directed edges of a topology bundle.
//!
//! Each way contributes one segment per pair of consecutive nodes that
//! differ and that both have a topology node; a segment becomes a forward
//! edge when the way allows some mode forward and a reverse edge when it
//! allows some mode backwards. A way without any segment is skipped.

use vstd::prelude::*;

use std::collections::{HashMap, HashSet};

use crate::graph::{
    AccessMask, DirectedEdge, EdgeId, HighwayClass, NodeId, RoadClass, SmoothnessClass, SurfaceClass,
    EDGE_FLAG_ROUNDABOUT, EDGE_FLAG_TARGET_TRAFFIC_SIGNAL,
};

verus! {

broadcast use vstd::std_specs::hash::group_hash_axioms;

/// A routable way as the scanners hand it to the topology build.
#[derive(Debug, Clone)]
pub struct PendingWay {
    pub osm_way_id: i64,
    pub node_ids: Vec<i64>,
    pub road_class: RoadClass,
    pub highway: HighwayClass,
    pub surface: SurfaceClass,
    pub smoothness: SmoothnessClass,
    pub forward_access_mask: AccessMask,
    pub reverse_access_mask: AccessMask,
    pub is_toll: bool,
    pub is_roundabout: bool,
    pub forward_extra_flags: u32,
    pub reverse_extra_flags: u32,
    /// Bits of an `f32`.
    pub forward_max_speed_kph: Option<u32>,
    /// Bits of an `f32`.
    pub reverse_max_speed_kph: Option<u32>,
    pub forward_lanes: Option<u8>,
    pub reverse_lanes: Option<u8>,
    pub name: Option<String>,
    pub feature_row: u32,
    pub temporal_rule_id: Option<u32>,
}

/// One segment of a way: topology node ids, then the source node ids.
pub type Segment = (u32, u32, i64, i64);

/// The segments among the first `k` nodes of a way, in order.
pub open spec fn segments_upto(nodes: Seq<i64>, lookup: Map<i64, u32>, k: nat) -> Seq<Segment>
    decreases k,
{
    if k <= 1 || k > nodes.len() {
        seq![]
    } else {
        let prev = segments_upto(nodes, lookup, (k - 1) as nat);
        let from = nodes[k - 2];
        let to = nodes[k - 1];
        if from != to && lookup.contains_key(from) && lookup.contains_key(to) {
            prev.push((lookup[from], lookup[to], from, to))
        } else {
            prev
        }
    }
}

/// The segments of a way.
pub open spec fn way_segments(nodes: Seq<i64>, lookup: Map<i64, u32>) -> Seq<Segment> {
    segments_upto(nodes, lookup, nodes.len())
}

/// The flags of the edge that runs towards source node `head`.
pub open spec fn edge_flags(roundabout: bool, signals: Set<i64>, head: i64, extra: u32) -> u32 {
    ((if roundabout {
        EDGE_FLAG_ROUNDABOUT
    } else {
        0u32
    }) | (if signals.contains(head) {
        EDGE_FLAG_TARGET_TRAFFIC_SIGNAL
    } else {
        0u32
    })) | extra
}

/// The edge of `way` from `from` to `to` with id `id`.
pub open spec fn directed_edge(
    way: PendingWay,
    forward: bool,
    from: u32,
    to: u32,
    length: u32,
    duration: Option<u64>,
    flags: u32,
    name_index: Option<u32>,
    id: int,
) -> DirectedEdge {
    DirectedEdge {
        edge_id: EdgeId(id as u32),
        from: NodeId(from),
        to: NodeId(to),
        source_way_id: way.osm_way_id,
        length_m: length,
        ascent_m: 0,
        descent_m: 0,
        feature_row: way.feature_row,
        source_direction: if forward {
            1i8
        } else {
            -1i8
        },
        temporal_rule_id: way.temporal_rule_id,
        duration_s: duration,
        road_class: way.road_class,
        surface: way.surface,
        smoothness: way.smoothness,
        access_mask: if forward {
            way.forward_access_mask
        } else {
            way.reverse_access_mask
        },
        is_toll: way.is_toll,
        max_speed_kph: if forward {
            way.forward_max_speed_kph
        } else {
            way.reverse_max_speed_kph
        },
        lanes: if forward {
            way.forward_lanes
        } else {
            way.reverse_lanes
        },
        name_index: name_index,
        geometry_offset: 0,
        geometry_len: 0,
        flags: flags,
    }
}

/// The edges of one segment, numbered from `id`: forward when the way
/// allows some mode forward, then reverse when it allows some mode back.
pub open spec fn segment_edges(
    way: PendingWay,
    seg: Segment,
    length: u32,
    duration: Option<u64>,
    signals: Set<i64>,
    name_index: Option<u32>,
    id: int,
) -> Seq<DirectedEdge> {
    let fwd = if way.forward_access_mask.0 != 0 {
        seq![
            directed_edge(
                way,
                true,
                seg.0,
                seg.1,
                length,
                duration,
                edge_flags(way.is_roundabout, signals, seg.3, way.forward_extra_flags),
                name_index,
                id,
            ),
        ]
    } else {
        seq![]
    };
    let rev = if way.reverse_access_mask.0 != 0 {
        seq![
            directed_edge(
                way,
                false,
                seg.1,
                seg.0,
                length,
                duration,
                edge_flags(way.is_roundabout, signals, seg.2, way.reverse_extra_flags),
                name_index,
                id + fwd.len(),
            ),
        ]
    } else {
        seq![]
    };
    fwd + rev
}

/// The edges of the first `k` segments of a way, numbered from `start`.
pub open spec fn way_edges(
    way: PendingWay,
    segs: Seq<Segment>,
    lengths: Seq<u32>,
    durations: Seq<Option<u64>>,
    signals: Set<i64>,
    name_index: Option<u32>,
    start: int,
    k: nat,
) -> Seq<DirectedEdge>
    decreases k,
{
    if k == 0 {
        seq![]
    } else {
        let prev = way_edges(way, segs, lengths, durations, signals, name_index, start, (k - 1) as nat);
        prev + segment_edges(way, segs[k - 1], lengths[k - 1], durations[k - 1], signals, name_index, start + prev.len())
    }
}

/// The edges of the first `w` ways, numbered from zero.
pub open spec fn emitted_upto(
    ways: Seq<PendingWay>,
    lookup: Map<i64, u32>,
    signals: Set<i64>,
    name_indexes: Seq<Option<u32>>,
    lengths: Seq<Vec<u32>>,
    durations: Seq<Vec<Option<u64>>>,
    w: nat,
) -> Seq<DirectedEdge>
    decreases w,
{
    if w == 0 {
        seq![]
    } else {
        let prev = emitted_upto(ways, lookup, signals, name_indexes, lengths, durations, (w - 1) as nat);
        let way = ways[w - 1];
        let segs = way_segments(way.node_ids@, lookup);
        prev + way_edges(
            way,
            segs,
            lengths[w - 1]@,
            durations[w - 1]@,
            signals,
            name_indexes[w - 1],
            prev.len() as int,
            segs.len(),
        )
    }
}

/// The highway class of each edge that the first `w` ways emit: that of
/// the way the edge comes from.
pub open spec fn highways_upto(
    ways: Seq<PendingWay>,
    lookup: Map<i64, u32>,
    signals: Set<i64>,
    name_indexes: Seq<Option<u32>>,
    lengths: Seq<Vec<u32>>,
    durations: Seq<Vec<Option<u64>>>,
    w: nat,
) -> Seq<HighwayClass>
    decreases w,
{
    if w == 0 {
        seq![]
    } else {
        let count = emitted_upto(ways, lookup, signals, name_indexes, lengths, durations, w).len()
            - emitted_upto(ways, lookup, signals, name_indexes, lengths, durations, (w - 1) as nat).len();
        highways_upto(ways, lookup, signals, name_indexes, lengths, durations, (w - 1) as nat) + Seq::new(
            count as nat,
            |i: int| ways[w - 1].highway,
        )
    }
}

/// The number of the first `w` ways that have no segment.
pub open spec fn skipped_upto(ways: Seq<PendingWay>, lookup: Map<i64, u32>, w: nat) -> nat
    decreases w,
{
    if w == 0 {
        0
    } else {
        skipped_upto(ways, lookup, (w - 1) as nat) + if way_segments(ways[w - 1].node_ids@, lookup).len() == 0 {
            1nat
        } else {
            0nat
        }
    }
}

/// Every way comes with a name index, and one length and one duration
/// per segment.
pub open spec fn measures_fit(
    ways: Seq<PendingWay>,
    lookup: Map<i64, u32>,
    name_indexes: Seq<Option<u32>>,
    lengths: Seq<Vec<u32>>,
    durations: Seq<Vec<Option<u64>>>,
) -> bool {
    &&& name_indexes.len() == ways.len()
    &&& lengths.len() == ways.len()
    &&& durations.len() == ways.len()
    &&& forall|w: int|
        0 <= w < ways.len() ==> (#[trigger] lengths[w])@.len() == way_segments(ways[w].node_ids@, lookup).len()
            && durations[w]@.len() == way_segments(ways[w].node_ids@, lookup).len()
}

/// The segments of a way: each pair of consecutive nodes that differ and
/// both have a topology node, in order.
pub fn way_segments_of(nodes: &Vec<i64>, lookup: &HashMap<i64, u32>) -> (r: Vec<Segment>)
    ensures
        r@ == way_segments(nodes@, lookup@),
{
    let mut out: Vec<Segment> = Vec::new();
    if nodes.len() < 2 {
        return out;
    }
    let mut k: usize = 1;
    while k < nodes.len()
        invariant
            1 <= k <= nodes@.len(),
            out@ == segments_upto(nodes@, lookup@, k as nat),
        decreases nodes@.len() - k,
    {
        let from = nodes[k - 1];
        let to = nodes[k];
        if from != to {
            match lookup.get(&from) {
                Some(f) => match lookup.get(&to) {
                    Some(t) => {
                        out.push((*f, *t, from, to));
                    },
                    None => {},
                },
                None => {},
            }
        }
        k += 1;
    }
    out
}

fn flags_for(roundabout: bool, signals: &HashSet<i64>, head: i64, extra: u32) -> (r: u32)
    ensures
        r == edge_flags(roundabout, signals@, head, extra),
{
    let a: u32 = if roundabout {
        EDGE_FLAG_ROUNDABOUT
    } else {
        0u32
    };
    let b: u32 = if signals.contains(&head) {
        EDGE_FLAG_TARGET_TRAFFIC_SIGNAL
    } else {
        0u32
    };
    (a | b) | extra
}

fn make_edge(
    way: &PendingWay,
    forward: bool,
    from: u32,
    to: u32,
    length: u32,
    duration: Option<u64>,
    flags: u32,
    name_index: Option<u32>,
    id: usize,
) -> (r: DirectedEdge)
    ensures
        r == directed_edge(*way, forward, from, to, length, duration, flags, name_index, id as int),
{
    DirectedEdge {
        edge_id: EdgeId(#[verifier::truncate] (id as u32)),
        from: NodeId(from),
        to: NodeId(to),
        source_way_id: way.osm_way_id,
        length_m: length,
        ascent_m: 0,
        descent_m: 0,
        feature_row: way.feature_row,
        source_direction: if forward {
            1i8
        } else {
            -1i8
        },
        temporal_rule_id: way.temporal_rule_id,
        duration_s: duration,
        road_class: way.road_class,
        surface: way.surface,
        smoothness: way.smoothness,
        access_mask: if forward {
            way.forward_access_mask
        } else {
            way.reverse_access_mask
        },
        is_toll: way.is_toll,
        max_speed_kph: if forward {
            way.forward_max_speed_kph
        } else {
            way.reverse_max_speed_kph
        },
        lanes: if forward {
            way.forward_lanes
        } else {
            way.reverse_lanes
        },
        name_index: name_index,
        geometry_offset: 0,
        geometry_len: 0,
        flags: flags,
    }
}

/// Emits the directed edges of all ways, numbered in emission order, with
/// the highway class of each edge's way, and counts the ways that had no
/// segment. `name_indexes` holds the position
/// of each way's name among the sorted distinct names; `lengths` and
/// `durations` hold one entry per segment of each way, as
/// `way_segments_of` lists them.
pub fn emit_topology_edges(
    ways: &Vec<PendingWay>,
    lookup: &HashMap<i64, u32>,
    signals: &HashSet<i64>,
    name_indexes: &Vec<Option<u32>>,
    lengths: &Vec<Vec<u32>>,
    durations: &Vec<Vec<Option<u64>>>,
) -> (r: (Vec<DirectedEdge>, Vec<HighwayClass>, u64))
    requires
        measures_fit(ways@, lookup@, name_indexes@, lengths@, durations@),
    ensures
        r.0@ == emitted_upto(ways@, lookup@, signals@, name_indexes@, lengths@, durations@, ways@.len()),
        r.1@ == highways_upto(ways@, lookup@, signals@, name_indexes@, lengths@, durations@, ways@.len()),
        r.2 == skipped_upto(ways@, lookup@, ways@.len()),
{
    let mut edges: Vec<DirectedEdge> = Vec::new();
    let mut highways: Vec<HighwayClass> = Vec::new();
    let mut skipped: u64 = 0;
    let mut w: usize = 0;
    while w < ways.len()
        invariant
            measures_fit(ways@, lookup@, name_indexes@, lengths@, durations@),
            w <= ways@.len(),
            edges@ == emitted_upto(ways@, lookup@, signals@, name_indexes@, lengths@, durations@, w as nat),
            highways@ == highways_upto(ways@, lookup@, signals@, name_indexes@, lengths@, durations@, w as nat),
            skipped == skipped_upto(ways@, lookup@, w as nat),
            skipped <= w,
        decreases ways@.len() - w,
    {
        let way = &ways[w];
        let segs = way_segments_of(&way.node_ids, lookup);
        let ghost base = edges@;
        let ghost start = base.len() as int;
        let ghost hbase = highways@;
        let highway = way.highway;
        proof {
            assert(lengths@[w as int]@.len() == segs@.len());
        }
        let lens = &lengths[w];
        let durs = &durations[w];
        let name_index = name_indexes[w];
        if segs.len() == 0 {
            skipped = skipped + 1;
        }
        let mut k: usize = 0;
        while k < segs.len()
            invariant
                w < ways@.len(),
                *way == ways@[w as int],
                segs@ == way_segments(way.node_ids@, lookup@),
                lens@.len() == segs@.len(),
                durs@.len() == segs@.len(),
                *lens == lengths@[w as int],
                *durs == durations@[w as int],
                name_index == name_indexes@[w as int],
                k <= segs@.len(),
                start == base.len(),
                edges@ == base + way_edges(*way, segs@, lens@, durs@, signals@, name_index, start, k as nat),
                highway == way.highway,
                edges@.len() >= base.len(),
                highways@ == hbase + Seq::new((edges@.len() - base.len()) as nat, |i: int| highway),
            decreases segs@.len() - k,
        {
            let seg = segs[k];
            let length = lens[k];
            let duration = durs[k];
            let ghost before = edges@;
            if way.forward_access_mask.0 != 0 {
                let flags = flags_for(way.is_roundabout, signals, seg.3, way.forward_extra_flags);
                let id = edges.len();
                edges.push(make_edge(way, true, seg.0, seg.1, length, duration, flags, name_index, id));
                highways.push(highway);
            }
            if way.reverse_access_mask.0 != 0 {
                let flags = flags_for(way.is_roundabout, signals, seg.2, way.reverse_extra_flags);
                let id = edges.len();
                edges.push(make_edge(way, false, seg.1, seg.0, length, duration, flags, name_index, id));
                highways.push(highway);
            }
            proof {
                let prev = way_edges(*way, segs@, lens@, durs@, signals@, name_index, start, k as nat);
                assert(way_edges(*way, segs@, lens@, durs@, signals@, name_index, start, (k + 1) as nat) == prev
                    + segment_edges(*way, segs@[k as int], lens@[k as int], durs@[k as int], signals@, name_index, start + prev.len()));
                assert(edges@ =~= before + segment_edges(*way, seg, length, duration, signals@, name_index, before.len() as int));
                assert(highways@ =~= hbase + Seq::new((edges@.len() - base.len()) as nat, |i: int| highway));
            }
            k += 1;
        }
        proof {
            assert(edges@ =~= emitted_upto(ways@, lookup@, signals@, name_indexes@, lengths@, durations@, (w + 1) as nat));
            assert(highways@ =~= highways_upto(ways@, lookup@, signals@, name_indexes@, lengths@, durations@, (w + 1) as nat));
        }
        w += 1;
    }
    (edges, highways, skipped)
}

} // verus!
