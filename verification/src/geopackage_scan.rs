//! The per-row logic of a GeoPackage scan: feature ids must be unique,
//! vertices are welded into topology nodes by their quantized coordinate,
//! the mapped direction decides which ways carry access each way, and
//! every line part with two distinct nodes becomes a pending way.

use vstd::prelude::*;

use std::collections::{HashMap, HashSet};

use crate::graph::{
    road_class_of, AccessMask, HighwayClass, SmoothnessClass, SurfaceClass,
    EDGE_FLAG_TEMPORAL_MATERIALIZED_DIRECTION,
};
use crate::mapping::{DirectionValue, GeoPackageMapping};
use crate::topology_build::PendingWay;

verus! {

broadcast use vstd::std_specs::hash::group_hash_axioms;

/// A vertex quantized onto the welding grid: longitude, latitude and
/// elevation steps.
pub type QuantizedKey = (i64, i64, i64);

/// The welding state: the node id of every key seen, and the next id.
pub type WeldState = (Map<QuantizedKey, i64>, i64);

/// Welds one vertex: a key seen before keeps its node; a new key takes
/// the next id. `None` when the ids are exhausted.
pub open spec fn weld_vertex(st: WeldState, k: QuantizedKey) -> Option<(WeldState, i64)> {
    if st.0.contains_key(k) {
        Some((st, st.0[k]))
    } else if st.1 == i64::MAX {
        None
    } else {
        Some(((st.0.insert(k, st.1), (st.1 + 1) as i64), st.1))
    }
}

/// Welds the vertices of one line part in order.
pub open spec fn weld_part(st: WeldState, keys: Seq<QuantizedKey>) -> Option<(WeldState, Seq<i64>)>
    decreases keys.len(),
{
    if keys.len() == 0 {
        Some((st, seq![]))
    } else {
        match weld_part(st, keys.drop_last()) {
            None => None,
            Some((st1, ids)) => match weld_vertex(st1, keys.last()) {
                None => None,
                Some((st2, id)) => Some((st2, ids.push(id))),
            },
        }
    }
}

/// The first entry of a bucket with latitude `lat` and elevation `z`.
pub open spec fn bucket_find(b: Seq<(i64, i64, i64)>, lat: i64, z: i64) -> Option<i64>
    decreases b.len(),
{
    if b.len() == 0 {
        None
    } else {
        match bucket_find(b.drop_last(), lat, z) {
            Some(id) => Some(id),
            None => if b.last().0 == lat && b.last().1 == z {
                Some(b.last().2)
            } else {
                None
            },
        }
    }
}

proof fn lemma_find_prefix(b: Seq<(i64, i64, i64)>, n: int, lat: i64, z: i64)
    requires
        0 < n <= b.len(),
        bucket_find(b.take(n - 1), lat, z) is None,
        b[n - 1].0 == lat && b[n - 1].1 == z,
    ensures
        bucket_find(b, lat, z) == Some(b[n - 1].2),
    decreases b.len(),
{
    if b.len() == n {
        assert(b.drop_last() =~= b.take(n - 1));
    } else {
        assert(b.drop_last().take(n - 1) =~= b.take(n - 1));
        lemma_find_prefix(b.drop_last(), n, lat, z);
    }
}

proof fn lemma_find_push(b: Seq<(i64, i64, i64)>, e: (i64, i64, i64), lat: i64, z: i64)
    ensures
        bucket_find(b.push(e), lat, z) == (match bucket_find(b, lat, z) {
            Some(id) => Some(id),
            None => if e.0 == lat && e.1 == z {
                Some(e.2)
            } else {
                None
            },
        }),
{
    assert(b.push(e).drop_last() =~= b);
}

/// Node ids of welded vertices, found by longitude, then by latitude and
/// elevation.
pub struct Welder {
    index: HashMap<i64, Vec<(i64, i64, i64)>>,
    next: i64,
    seen: Ghost<Map<QuantizedKey, i64>>,
}

impl Welder {
    /// The welding state the welder holds.
    pub closed spec fn state(&self) -> WeldState {
        (self.seen@, self.next)
    }

    /// The index finds exactly the keys seen, with their ids.
    pub closed spec fn wf(&self) -> bool {
        &&& forall|k: QuantizedKey|
            #[trigger] self.seen@.contains_key(k) ==> self.index@.contains_key(k.0) && bucket_find(
                self.index@[k.0]@,
                k.1,
                k.2,
            ) == Some(self.seen@[k])
        &&& forall|lon: i64, j: int|
            self.index@.contains_key(lon) && 0 <= j < self.index@[lon]@.len()
                ==> self.seen@.contains_key((lon, (#[trigger] self.index@[lon]@[j]).0, self.index@[lon]@[j].1))
        &&& self.next >= 1
    }

    /// A welder that has seen nothing; the first new key gets id 1.
    pub fn new() -> (r: Welder)
        ensures
            r.wf(),
            r.state() == (Map::<QuantizedKey, i64>::empty(), 1i64),
    {
        Welder { index: HashMap::new(), next: 1, seen: Ghost(Map::empty()) }
    }

    /// The number of distinct keys welded so far.
    pub fn node_count(&self) -> (r: u64)
        requires
            self.wf(),
        ensures
            r as int == self.state().1 - 1,
    {
        (self.next - 1) as u64
    }

    /// Welds one vertex, as `weld_vertex` says.
    pub fn weld(&mut self, k: QuantizedKey) -> (r: Option<i64>)
        requires
            old(self).wf(),
        ensures
            final(self).wf(),
            match weld_vertex(old(self).state(), k) {
                None => r is None && final(self).state() == old(self).state(),
                Some((st, id)) => r == Some(id) && final(self).state() == st,
            },
    {
        let (lon, lat, z) = k;
        let ghost old_index = self.index@;
        let had = self.index.contains_key(&lon);
        let mut bucket: Vec<(i64, i64, i64)> = match self.index.remove(&lon) {
            Some(b) => b,
            None => Vec::new(),
        };
        let ghost b0 = bucket@;
        proof {
            assert(self.index@ =~= old_index.remove(lon));
            if had {
                assert(bucket == old_index[lon]);
            } else {
                assert(b0.len() == 0);
            }
        }
        let mut j: usize = 0;
        let mut hit: Option<i64> = None;
        let ghost mut at: int = 0;
        while j < bucket.len() && hit.is_none()
            invariant
                bucket@ == b0,
                j <= b0.len(),
                hit is None ==> bucket_find(b0.take(j as int), lat, z) is None,
                hit matches Some(x) ==> 0 <= at < b0.len() && b0[at].0 == lat && b0[at].1 == z
                    && bucket_find(b0, lat, z) == Some(x),
            decreases b0.len() - j,
        {
            let e = bucket[j];
            proof {
                assert(b0.take(j + 1).drop_last() =~= b0.take(j as int));
            }
            if e.0 == lat && e.1 == z {
                proof {
                    lemma_find_prefix(b0, j as int + 1, lat, z);
                    at = j as int;
                }
                hit = Some(e.2);
            }
            j += 1;
        }
        if let Some(x) = hit {
            proof {
                assert(had);
                assert(self.seen@.contains_key((lon, b0[at].0, b0[at].1)));
            }
            self.index.insert(lon, bucket);
            proof {
                assert(self.index@ =~= old_index);
            }
            return Some(x);
        }
        proof {
            assert(b0.take(b0.len() as int) =~= b0);
            if self.seen@.contains_key(k) {
                assert(old_index.contains_key(lon));
                assert(b0 == old_index[lon]@);
                assert(false);
            }
        }
        if self.next == i64::MAX {
            let ghost nb0 = bucket;
            self.index.insert(lon, bucket);
            proof {
                if had {
                    assert(self.index@ =~= old_index);
                } else {
                    assert(self.index@ =~= old_index.insert(lon, nb0));
                    assert forall|k2: QuantizedKey| #[trigger] self.seen@.contains_key(k2) implies self.index@.contains_key(k2.0)
                        && bucket_find(self.index@[k2.0]@, k2.1, k2.2) == Some(self.seen@[k2]) by {
                        assert(old_index.contains_key(k2.0));
                    }
                }
            }
            return None;
        }
        let id = self.next;
        bucket.push((lat, z, id));
        let ghost nb = bucket;
        self.index.insert(lon, bucket);
        self.next = self.next + 1;
        proof {
            let old_seen = self.seen@;
            self.seen@ = self.seen@.insert(k, id);
            assert(nb@ == b0.push((lat, z, id)));
            assert(self.index@ =~= old_index.insert(lon, nb));
            assert forall|k2: QuantizedKey| #[trigger] self.seen@.contains_key(k2) implies self.index@.contains_key(k2.0)
                && bucket_find(self.index@[k2.0]@, k2.1, k2.2) == Some(self.seen@[k2]) by {
                if k2.0 == lon {
                    lemma_find_push(b0, (lat, z, id), k2.1, k2.2);
                }
            }
            assert forall|lon2: i64, jj: int|
                self.index@.contains_key(lon2) && 0 <= jj < self.index@[lon2]@.len()
                implies self.seen@.contains_key((lon2, (#[trigger] self.index@[lon2]@[jj]).0, self.index@[lon2]@[jj].1)) by {
                if lon2 == lon && jj < b0.len() {
                    assert(self.index@[lon2]@[jj] == b0[jj]);
                    assert(old_index[lon2]@[jj] == b0[jj]);
                }
            }
        }
        Some(id)
    }
}

/// Welds the vertices of each line part in turn.
pub open spec fn weld_parts(st: WeldState, parts: Seq<Seq<QuantizedKey>>) -> Option<(WeldState, Seq<Seq<i64>>)>
    decreases parts.len(),
{
    if parts.len() == 0 {
        Some((st, seq![]))
    } else {
        match weld_parts(st, parts.drop_last()) {
            None => None,
            Some((st1, ids)) => match weld_part(st1, parts.last()) {
                None => None,
                Some((st2, part)) => Some((st2, ids.push(part))),
            },
        }
    }
}

/// A feature row of a mapped layer, with what the scan reads of it:
/// the direction, default access, highway class, name and schedule that
/// the layer's mapping decoded, the row of the feature attribute table it
/// was appended to, and the quantized vertices of each line part.
#[derive(Debug, Clone)]
pub struct FeatureRow {
    pub feature_id: i64,
    pub direction: DirectionValue,
    pub access_mask: AccessMask,
    pub highway: HighwayClass,
    pub name: Option<String>,
    pub feature_row: u32,
    pub temporal_rule_id: Option<u32>,
    /// The SRS id of the row's geometry; `None` when the geometry is null.
    pub geometry_srs_id: Option<i32>,
    /// The SRS id the layer declares for its geometry column.
    pub layer_srs_id: i32,
    pub parts: Vec<Vec<QuantizedKey>>,
}

/// Why a scan stopped.
#[derive(Debug, Clone, PartialEq, Eq)]
pub enum ScanError {
    /// This feature id occurs in more than one row.
    DuplicateFeatureId(i64),
    /// The geometry of this feature has another SRS than its layer.
    SrsMismatch { feature_id: i64, geometry_srs_id: i32, layer_srs_id: i32 },
    /// The synthetic node ids ran out.
    NodeIdOverflow,
}

/// What a scan of feature rows produced.
#[derive(Debug, Clone)]
pub struct GeoPackageScan {
    /// One pending way per line part with two distinct nodes.
    pub ways: Vec<PendingWay>,
    /// The welded node ids of every part of every row.
    pub part_nodes: Vec<Vec<Vec<i64>>>,
    /// Distinct welded nodes.
    pub node_count: u64,
    /// Features scanned.
    pub feature_count: u64,
}

/// The quantized parts of a row as sequences.
pub open spec fn parts_view(row: FeatureRow) -> Seq<Seq<QuantizedKey>> {
    row.parts@.map_values(|p: Vec<QuantizedKey>| p@)
}

/// A part yields a way when it has two consecutive distinct nodes.
pub open spec fn routable(nodes: Seq<i64>) -> bool {
    exists|i: int| 0 <= i < nodes.len() - 1 && #[trigger] nodes[i] != nodes[i + 1]
}

/// The ways of row `row` from its welded parts: (row, nodes) of each
/// routable part, in order.
pub open spec fn kept_parts(row: int, parts: Seq<Seq<i64>>) -> Seq<(int, Seq<i64>)>
    decreases parts.len(),
{
    if parts.len() == 0 {
        seq![]
    } else {
        let prev = kept_parts(row, parts.drop_last());
        if routable(parts.last()) {
            prev.push((row, parts.last()))
        } else {
            prev
        }
    }
}

/// The access each way gets from the mapped direction, and the extra
/// flags of its forward and reverse edges: a one-way feature listed for
/// materialisation gets both directions, its opposite one flagged.
pub open spec fn direction_split(d: DirectionValue, force_both: bool, mask: AccessMask) -> (AccessMask, AccessMask, u32, u32) {
    match d {
        DirectionValue::Both => (mask, mask, 0, 0),
        DirectionValue::Forward => if force_both {
            (mask, mask, 0, EDGE_FLAG_TEMPORAL_MATERIALIZED_DIRECTION)
        } else {
            (mask, AccessMask(0), 0, 0)
        },
        DirectionValue::Reverse => if force_both {
            (mask, mask, EDGE_FLAG_TEMPORAL_MATERIALIZED_DIRECTION, 0)
        } else {
            (AccessMask(0), mask, 0, 0)
        },
    }
}

/// `way` is the pending way of `row` over `nodes`.
pub open spec fn way_from_row(way: PendingWay, row: FeatureRow, nodes: Seq<i64>, materialize: Seq<i64>) -> bool {
    let (fwd, rev, fx, rx) = direction_split(row.direction, materialize.contains(row.feature_id), row.access_mask);
    &&& way.osm_way_id == row.feature_id
    &&& way.node_ids@ == nodes
    &&& way.road_class == road_class_of(row.highway)
    &&& way.highway == row.highway
    &&& way.surface == SurfaceClass::Unknown
    &&& way.smoothness == SmoothnessClass::Unknown
    &&& way.forward_access_mask == fwd
    &&& way.reverse_access_mask == rev
    &&& way.forward_extra_flags == fx
    &&& way.reverse_extra_flags == rx
    &&& !way.is_toll
    &&& !way.is_roundabout
    &&& way.forward_max_speed_kph is None
    &&& way.reverse_max_speed_kph is None
    &&& way.forward_lanes is None
    &&& way.reverse_lanes is None
    &&& way.name == row.name
    &&& way.feature_row == row.feature_row
    &&& way.temporal_rule_id == row.temporal_rule_id
}

/// The scan state after a number of rows: the feature ids seen, the
/// welding state, the ways as (row, nodes), and the welded parts of each
/// row.
pub type ScanState = (Set<i64>, WeldState, Seq<(int, Seq<i64>)>, Seq<Seq<Seq<i64>>>);

/// Scans the first `n` rows: a repeated feature id stops the scan, as do
/// a geometry in another SRS than its layer's and exhausted node ids; else each row welds its parts and adds the ways of
/// its routable parts.
pub open spec fn scan_upto(rows: Seq<FeatureRow>, n: nat) -> Result<ScanState, ScanError>
    decreases n,
{
    if n == 0 {
        Ok((Set::empty(), (Map::empty(), 1i64), seq![], seq![]))
    } else {
        match scan_upto(rows, (n - 1) as nat) {
            Err(e) => Err(e),
            Ok(st) => {
                let row = rows[n - 1];
                if st.0.contains(row.feature_id) {
                    Err(ScanError::DuplicateFeatureId(row.feature_id))
                } else if row.geometry_srs_id is Some && row.geometry_srs_id->0 != row.layer_srs_id {
                    Err(
                        ScanError::SrsMismatch {
                            feature_id: row.feature_id,
                            geometry_srs_id: row.geometry_srs_id->0,
                            layer_srs_id: row.layer_srs_id,
                        },
                    )
                } else {
                    match weld_parts(st.1, parts_view(row)) {
                        None => Err(ScanError::NodeIdOverflow),
                        Some((w, ids)) => Ok((st.0.insert(row.feature_id), w, st.2 + kept_parts(n - 1, ids), st.3.push(ids))),
                    }
                }
            },
        }
    }
}

/// The ways and welded parts are the ones the state describes, for the
/// first `n` rows.
pub open spec fn scan_holds(
    st: ScanState,
    ways: Seq<PendingWay>,
    part_nodes: Seq<Vec<Vec<i64>>>,
    rows: Seq<FeatureRow>,
    n: int,
    materialize: Seq<i64>,
) -> bool {
    &&& ways.len() == st.2.len()
    &&& forall|p: int|
        0 <= p < st.2.len() ==> way_from_row(#[trigger] ways[p], rows[st.2[p].0], st.2[p].1, materialize)
    &&& part_nodes.len() == st.3.len()
    &&& forall|p: int|
        0 <= p < st.3.len() ==> (#[trigger] part_nodes[p])@.len() == st.3[p].len() && forall|q: int|
            0 <= q < st.3[p].len() ==> (#[trigger] part_nodes[p]@[q])@ == st.3[p][q]
}

/// The scan result is the one the state describes.
pub open spec fn scan_matches(s: GeoPackageScan, st: ScanState, rows: Seq<FeatureRow>, materialize: Seq<i64>) -> bool {
    &&& s.ways@.len() == st.2.len()
    &&& forall|i: int|
        0 <= i < st.2.len() ==> 0 <= st.2[i].0 < rows.len() && way_from_row(
            #[trigger] s.ways@[i],
            rows[st.2[i].0],
            st.2[i].1,
            materialize,
        )
    &&& s.part_nodes@.len() == st.3.len()
    &&& forall|i: int|
        0 <= i < st.3.len() ==> (#[trigger] s.part_nodes@[i])@.len() == st.3[i].len() && forall|j: int|
            0 <= j < st.3[i].len() ==> (#[trigger] s.part_nodes@[i]@[j])@ == st.3[i][j]
    &&& s.node_count == st.1.1 - 1
    &&& s.feature_count == rows.len()
}

fn weld_keys(welder: &mut Welder, keys: &Vec<QuantizedKey>) -> (r: Option<Vec<i64>>)
    requires
        old(welder).wf(),
    ensures
        final(welder).wf(),
        match weld_part(old(welder).state(), keys@) {
            None => r is None,
            Some((st, ids)) => r matches Some(v) && v@ == ids && final(welder).state() == st,
        },
{
    let ghost st0 = welder.state();
    let mut out: Vec<i64> = Vec::new();
    let mut i: usize = 0;
    proof {
        assert(keys@.take(0) =~= Seq::<QuantizedKey>::empty());
    }
    while i < keys.len()
        invariant
            welder.wf(),
            st0 == old(welder).state(),
            i <= keys@.len(),
            weld_part(st0, keys@.take(i as int)) == Some((welder.state(), out@)),
        decreases keys@.len() - i,
    {
        proof {
            assert(keys@.take(i + 1).drop_last() =~= keys@.take(i as int));
            assert(keys@.take(i + 1).last() == keys@[i as int]);
        }
        let ghost before = welder.state();
        match welder.weld(keys[i]) {
            Some(id) => {
                out.push(id);
            },
            None => {
                proof {
                    assert(weld_vertex(before, keys@[i as int]) is None);
                    assert(weld_part(st0, keys@.take(i + 1)) is None);
                    lemma_part_none_sticky(st0, keys@, i as int + 1);
                    assert(weld_part(st0, keys@) is None);
                    assert(st0 == old(welder).state());
                }
                return None;
            },
        }
        i += 1;
    }
    proof {
        assert(keys@.take(keys@.len() as int) =~= keys@);
    }
    Some(out)
}

proof fn lemma_part_none_sticky(st: WeldState, keys: Seq<QuantizedKey>, n: int)
    requires
        0 <= n <= keys.len(),
        weld_part(st, keys.take(n)) is None,
    ensures
        weld_part(st, keys) is None,
    decreases keys.len() - n,
{
    if n < keys.len() {
        assert(keys.take(n + 1).drop_last() =~= keys.take(n));
        lemma_part_none_sticky(st, keys, n + 1);
    } else {
        assert(keys.take(n) =~= keys);
    }
}

proof fn lemma_parts_none_sticky(st: WeldState, parts: Seq<Seq<QuantizedKey>>, n: int)
    requires
        0 <= n <= parts.len(),
        weld_parts(st, parts.take(n)) is None,
    ensures
        weld_parts(st, parts) is None,
    decreases parts.len() - n,
{
    if n < parts.len() {
        assert(parts.take(n + 1).drop_last() =~= parts.take(n));
        lemma_parts_none_sticky(st, parts, n + 1);
    } else {
        assert(parts.take(n) =~= parts);
    }
}

fn weld_row(welder: &mut Welder, row: &FeatureRow) -> (r: Option<Vec<Vec<i64>>>)
    requires
        old(welder).wf(),
    ensures
        final(welder).wf(),
        match weld_parts(old(welder).state(), parts_view(*row)) {
            None => r is None,
            Some((st, ids)) => r matches Some(v) && v@.len() == ids.len() && (forall|j: int|
                0 <= j < ids.len() ==> (#[trigger] v@[j])@ == ids[j]) && final(welder).state() == st,
        },
{
    let ghost st0 = welder.state();
    let ghost pv = parts_view(*row);
    let mut out: Vec<Vec<i64>> = Vec::new();
    let mut i: usize = 0;
    proof {
        assert(pv.take(0) =~= Seq::<Seq<QuantizedKey>>::empty());
    }
    while i < row.parts.len()
        invariant
            welder.wf(),
            st0 == old(welder).state(),
            pv == parts_view(*row),
            i <= row.parts@.len(),
            weld_parts(st0, pv.take(i as int)) matches Some((st, ids)) && st == welder.state() && ids.len() == out@.len()
                && forall|j: int| 0 <= j < ids.len() ==> (#[trigger] out@[j])@ == ids[j],
        decreases row.parts@.len() - i,
    {
        proof {
            assert(pv.take(i + 1).drop_last() =~= pv.take(i as int));
            assert(pv.take(i + 1).last() == row.parts@[i as int]@);
        }
        let ghost before = welder.state();
        match weld_keys(welder, &row.parts[i]) {
            Some(ids) => {
                out.push(ids);
            },
            None => {
                proof {
                    assert(weld_part(before, pv[i as int]) is None);
                    assert(weld_parts(st0, pv.take(i + 1)) is None);
                    lemma_parts_none_sticky(st0, pv, i as int + 1);
                    assert(weld_parts(st0, pv) is None);
                    assert(st0 == old(welder).state());
                }
                return None;
            },
        }
        i += 1;
    }
    proof {
        assert(pv.take(pv.len() as int) =~= pv);
    }
    Some(out)
}

fn routable_nodes(nodes: &Vec<i64>) -> (r: bool)
    ensures
        r == routable(nodes@),
{
    if nodes.len() < 2 {
        return false;
    }
    let mut i: usize = 0;
    while i < nodes.len() - 1
        invariant
            nodes@.len() >= 2,
            i <= nodes@.len() - 1,
            forall|j: int| 0 <= j < i ==> #[trigger] nodes@[j] == nodes@[j + 1],
        decreases nodes@.len() - i,
    {
        if nodes[i] != nodes[i + 1] {
            return true;
        }
        i += 1;
    }
    false
}

fn listed(ids: &Vec<i64>, id: i64) -> (r: bool)
    ensures
        r == ids@.contains(id),
{
    let mut i: usize = 0;
    while i < ids.len()
        invariant
            i <= ids@.len(),
            forall|j: int| 0 <= j < i ==> ids@[j] != id,
        decreases ids@.len() - i,
    {
        if ids[i] == id {
            return true;
        }
        i += 1;
    }
    false
}

fn split_direction(d: DirectionValue, force_both: bool, mask: AccessMask) -> (r: (AccessMask, AccessMask, u32, u32))
    ensures
        r == direction_split(d, force_both, mask),
{
    match d {
        DirectionValue::Both => (mask, mask, 0, 0),
        DirectionValue::Forward => if force_both {
            (mask, mask, 0, EDGE_FLAG_TEMPORAL_MATERIALIZED_DIRECTION)
        } else {
            (mask, AccessMask(0), 0, 0)
        },
        DirectionValue::Reverse => if force_both {
            (mask, mask, EDGE_FLAG_TEMPORAL_MATERIALIZED_DIRECTION, 0)
        } else {
            (AccessMask(0), mask, 0, 0)
        },
    }
}

fn row_way(row: &FeatureRow, nodes: Vec<i64>, force_both: bool, materialize: Ghost<Seq<i64>>) -> (r: PendingWay)
    requires
        force_both == materialize@.contains(row.feature_id),
    ensures
        way_from_row(r, *row, nodes@, materialize@),
{
    let (fwd, rev, fx, rx) = split_direction(row.direction, force_both, row.access_mask);
    let name = match &row.name {
        Some(s) => Some(s.clone()),
        None => None,
    };
    PendingWay {
        osm_way_id: row.feature_id,
        node_ids: nodes,
        road_class: row.highway.road_class(),
        highway: row.highway,
        surface: SurfaceClass::Unknown,
        smoothness: SmoothnessClass::Unknown,
        forward_access_mask: fwd,
        reverse_access_mask: rev,
        is_toll: false,
        is_roundabout: false,
        forward_extra_flags: fx,
        reverse_extra_flags: rx,
        forward_max_speed_kph: None,
        reverse_max_speed_kph: None,
        forward_lanes: None,
        reverse_lanes: None,
        name: name,
        feature_row: row.feature_row,
        temporal_rule_id: row.temporal_rule_id,
    }
}

proof fn lemma_kept_rows(row: int, parts: Seq<Seq<i64>>)
    ensures
        forall|k: int| 0 <= k < kept_parts(row, parts).len() ==> (#[trigger] kept_parts(row, parts)[k]).0 == row,
    decreases parts.len(),
{
    if parts.len() > 0 {
        let prev = kept_parts(row, parts.drop_last());
        lemma_kept_rows(row, parts.drop_last());
        assert forall|k: int| 0 <= k < kept_parts(row, parts).len() implies (#[trigger] kept_parts(row, parts)[k]).0 == row by {
            if k < prev.len() {
                assert(kept_parts(row, parts)[k] == prev[k]);
            }
        }
    }
}

proof fn lemma_scan_rows_bounded(rows: Seq<FeatureRow>, n: nat)
    ensures
        scan_upto(rows, n) matches Ok(st) ==> forall|p: int| 0 <= p < st.2.len() ==> 0 <= (#[trigger] st.2[p]).0 < n,
    decreases n,
{
    if n > 0 {
        lemma_scan_rows_bounded(rows, (n - 1) as nat);
        if let Ok(st0) = scan_upto(rows, (n - 1) as nat) {
            let row = rows[n - 1];
            if !st0.0.contains(row.feature_id) && !(row.geometry_srs_id is Some && row.geometry_srs_id->0
                != row.layer_srs_id) {
                if let Some((w, ids)) = weld_parts(st0.1, parts_view(row)) {
                    lemma_kept_rows(n - 1, ids);
                    let st = scan_upto(rows, n)->Ok_0;
                    assert forall|p: int| 0 <= p < st.2.len() implies 0 <= (#[trigger] st.2[p]).0 < n by {
                        if p >= st0.2.len() {
                            assert(st.2[p] == kept_parts(n - 1, ids)[p - st0.2.len()]);
                        } else {
                            assert(st.2[p] == st0.2[p]);
                        }
                    }
                }
            }
        }
    }
}

proof fn lemma_scan_err_sticky(rows: Seq<FeatureRow>, n: nat, m: nat)
    requires
        n <= m,
        scan_upto(rows, n) is Err,
    ensures
        scan_upto(rows, m) == scan_upto(rows, n),
    decreases m - n,
{
    if n < m {
        lemma_scan_err_sticky(rows, n, (m - 1) as nat);
    }
}

fn copy_nodes(v: &Vec<i64>) -> (r: Vec<i64>)
    ensures
        r@ == v@,
{
    let mut out: Vec<i64> = Vec::new();
    let mut i: usize = 0;
    while i < v.len()
        invariant
            i <= v@.len(),
            out@ == v@.take(i as int),
        decreases v@.len() - i,
    {
        out.push(v[i]);
        i += 1;
        proof {
            assert(out@ =~= v@.take(i as int));
        }
    }
    proof {
        assert(v@.take(v@.len() as int) =~= v@);
    }
    out
}

/// Scans mapped feature rows in order: a feature id seen before stops the
/// scan with `DuplicateFeatureId`, a geometry in another SRS than its
/// layer's with `SrsMismatch`; otherwise the row's vertices are welded
/// into nodes by quantized key (a new key takes the next id from 1 on) and
/// every part with two consecutive distinct nodes becomes a pending way
/// with the row's attributes and the access the direction grants. Exactly
/// as `scan_upto` describes.
#[verifier::spinoff_prover]
#[verifier::rlimit(40)]
pub fn scan_feature_rows(mapping: &GeoPackageMapping, rows: &Vec<FeatureRow>) -> (r: Result<GeoPackageScan, ScanError>)
    ensures
        match scan_upto(rows@, rows@.len()) {
            Err(e) => r == Err::<GeoPackageScan, ScanError>(e),
            Ok(st) => r matches Ok(s) && scan_matches(s, st, rows@, mapping.materialize_both_directions_for@),
        },
{
    let ghost materialize = mapping.materialize_both_directions_for@;
    let mut seen: HashSet<i64> = HashSet::new();
    let mut welder = Welder::new();
    let mut ways: Vec<PendingWay> = Vec::new();
    let mut part_nodes: Vec<Vec<Vec<i64>>> = Vec::new();
    let mut i: usize = 0;
    while i < rows.len()
        invariant
            i <= rows@.len(),
            materialize == mapping.materialize_both_directions_for@,
            welder.wf(),
            scan_upto(rows@, i as nat) matches Ok(st) && seen@ == st.0 && welder.state() == st.1 && scan_holds(
                st,
                ways@,
                part_nodes@,
                rows@,
                i as int,
                materialize,
            ),
        decreases rows@.len() - i,
    {
        let row = &rows[i];
        let ghost st = scan_upto(rows@, i as nat)->Ok_0;
        if seen.contains(&row.feature_id) {
            proof {
                assert(scan_upto(rows@, (i + 1) as nat) == Err::<ScanState, ScanError>(ScanError::DuplicateFeatureId(row.feature_id)));
                lemma_scan_err_sticky(rows@, (i + 1) as nat, rows@.len());
            }
            return Err(ScanError::DuplicateFeatureId(row.feature_id));
        }
        if let Some(g) = row.geometry_srs_id {
            if g != row.layer_srs_id {
                let e = ScanError::SrsMismatch {
                    feature_id: row.feature_id,
                    geometry_srs_id: g,
                    layer_srs_id: row.layer_srs_id,
                };
                proof {
                    assert(scan_upto(rows@, (i + 1) as nat) == Err::<ScanState, ScanError>(e));
                    lemma_scan_err_sticky(rows@, (i + 1) as nat, rows@.len());
                }
                return Err(e);
            }
        }
        let ids = match weld_row(&mut welder, row) {
            Some(v) => v,
            None => {
                proof {
                    assert(scan_upto(rows@, (i + 1) as nat) == Err::<ScanState, ScanError>(ScanError::NodeIdOverflow));
                    lemma_scan_err_sticky(rows@, (i + 1) as nat, rows@.len());
                }
                return Err(ScanError::NodeIdOverflow);
            },
        };
        let ghost welded = weld_parts(st.1, parts_view(*row))->Some_0;
        let ghost iv = welded.1;
        seen.insert(row.feature_id);
        let force_both = listed(&mapping.materialize_both_directions_for, row.feature_id);
        let ghost ways0 = ways@;
        let mut j: usize = 0;
        proof {
            assert(iv.take(0) =~= Seq::<Seq<i64>>::empty());
        }
        while j < ids.len()
            invariant
                i < rows@.len(),
                *row == rows@[i as int],
                materialize == mapping.materialize_both_directions_for@,
                force_both == materialize.contains(row.feature_id),
                ids@.len() == iv.len(),
                forall|b: int| 0 <= b < iv.len() ==> (#[trigger] ids@[b])@ == iv[b],
                j <= iv.len(),
                ways@.len() == ways0.len() + kept_parts(i as int, iv.take(j as int)).len(),
                forall|w: int| 0 <= w < ways0.len() ==> ways@[w] == ways0[w],
                forall|w: int|
                    0 <= w < kept_parts(i as int, iv.take(j as int)).len() ==> way_from_row(
                        #[trigger] ways@[ways0.len() + w],
                        rows@[i as int],
                        kept_parts(i as int, iv.take(j as int))[w].1,
                        materialize,
                    ) && kept_parts(i as int, iv.take(j as int))[w].0 == i,
            decreases iv.len() - j,
        {
            proof {
                assert(iv.take(j + 1).drop_last() =~= iv.take(j as int));
                assert(iv.take(j + 1).last() == iv[j as int]);
            }
            let ghost kp0 = kept_parts(i as int, iv.take(j as int));
            let ghost wb = ways@;
            if routable_nodes(&ids[j]) {
                let nodes = copy_nodes(&ids[j]);
                proof {
                    assert(nodes@ == iv[j as int]);
                }
                let way = row_way(row, nodes, force_both, Ghost(materialize));
                let ghost wv = way;
                ways.push(way);
                proof {
                    assert(way_from_row(wv, rows@[i as int], iv[j as int], materialize));
                    assert(ways@.len() == ways0.len() + kp0.len() + 1);
                    assert(ways@[(ways0.len() + kp0.len()) as int] == wv);
                    let kp1 = kept_parts(i as int, iv.take(j + 1));
                    assert(kp1 == kp0.push((i as int, iv[j as int])));
                    assert forall|w: int| 0 <= w < kp1.len() implies way_from_row(
                        #[trigger] ways@[ways0.len() + w],
                        rows@[i as int],
                        kp1[w].1,
                        materialize,
                    ) && kp1[w].0 == i by {
                        if w < kp0.len() {
                            assert(ways@[ways0.len() + w] == wb[ways0.len() + w]);
                            assert(kp1[w] == kp0[w]);
                        }
                    }
                }
            } else {
                proof {
                    assert(kept_parts(i as int, iv.take(j + 1)) == kp0);
                }
            }
            j += 1;
        }
        proof {
            assert(iv.take(iv.len() as int) =~= iv);
        }
        let ghost pn0 = part_nodes@;
        part_nodes.push(ids);
        proof {
            let kp = kept_parts(i as int, iv);
            assert(welder.state() == welded.0);
            assert(scan_upto(rows@, (i + 1) as nat) == Ok::<ScanState, ScanError>((st.0.insert(row.feature_id), welded.0, st.2 + kp, st.3.push(iv))));
            let st1 = scan_upto(rows@, (i + 1) as nat)->Ok_0;
            assert(st1.2 == st.2 + kp);
            assert(seen@ == st1.0);
            assert forall|w: int| 0 <= w < st1.2.len() implies way_from_row(
                #[trigger] ways@[w],
                rows@[st1.2[w].0],
                st1.2[w].1,
                materialize,
            ) by {
                if w >= st.2.len() {
                    let w2 = w - st.2.len();
                    assert(st1.2[w] == kp[w2]);
                    assert(ways@[ways0.len() + w2] == ways@[w]);
                } else {
                    assert(st1.2[w] == st.2[w]);
                    assert(ways@[w] == ways0[w]);
                    assert(way_from_row(ways0[w], rows@[st.2[w].0], st.2[w].1, materialize));
                }
            }
            assert forall|a: int| 0 <= a < st1.3.len() implies (#[trigger] part_nodes@[a])@.len() == st1.3[a].len()
                && forall|b: int| 0 <= b < st1.3[a].len() ==> (#[trigger] part_nodes@[a]@[b])@ == st1.3[a][b] by {
                if a == st.3.len() {
                    assert(st1.3[a] == iv);
                } else {
                    assert(part_nodes@[a] == pn0[a]);
                    assert(st1.3[a] == st.3[a]);
                }
            }
            assert(ways@.len() == st1.2.len());
            assert(part_nodes@.len() == st1.3.len());
            assert(welder.state() == st1.1);
            assert(scan_holds(st1, ways@, part_nodes@, rows@, i + 1, materialize));
        }
        i += 1;
    }
    let ghost st = scan_upto(rows@, rows@.len())->Ok_0;
    let node_count = welder.node_count();
    let scan = GeoPackageScan { ways, part_nodes, node_count, feature_count: rows.len() as u64 };
    proof {
        lemma_scan_rows_bounded(rows@, rows@.len());
        assert(scan_matches(scan, st, rows@, materialize));
    }
    Ok(scan)
}

/// The vertex indexes among the first `k` vertices of a part whose node
/// repeats the one before: the zero-length steps that topology omits.
pub open spec fn collapsed_upto(nodes: Seq<i64>, k: nat) -> Seq<int>
    decreases k,
{
    if k <= 1 || k > nodes.len() {
        seq![]
    } else {
        let prev = collapsed_upto(nodes, (k - 1) as nat);
        if nodes[k - 2] == nodes[k - 1] {
            prev.push(k - 1)
        } else {
            prev
        }
    }
}

/// The vertex indexes of a part whose node repeats the one before, in
/// order; `None` when such an index does not fit a `u32`.
pub fn collapsed_vertex_indexes(nodes: &Vec<i64>) -> (r: Option<Vec<u32>>)
    ensures
        match r {
            Some(v) => v@.len() == collapsed_upto(nodes@, nodes@.len()).len() && forall|j: int|
                0 <= j < v@.len() ==> #[trigger] v@[j] as int == collapsed_upto(nodes@, nodes@.len())[j],
            None => exists|j: int|
                0 <= j < collapsed_upto(nodes@, nodes@.len()).len() && #[trigger] collapsed_upto(nodes@, nodes@.len())[j]
                    > u32::MAX,
        },
{
    let mut out: Vec<u32> = Vec::new();
    if nodes.len() < 2 {
        return Some(out);
    }
    let mut k: usize = 1;
    while k < nodes.len()
        invariant
            1 <= k <= nodes@.len(),
            out@.len() == collapsed_upto(nodes@, k as nat).len(),
            forall|j: int| 0 <= j < out@.len() ==> #[trigger] out@[j] as int == collapsed_upto(nodes@, k as nat)[j],
        decreases nodes@.len() - k,
    {
        let ghost prev = collapsed_upto(nodes@, k as nat);
        if nodes[k - 1] == nodes[k] {
            if k > 0xffff_ffffusize {
                proof {
                    lemma_collapsed_kept(nodes@, (k + 1) as nat, nodes@.len());
                    assert(collapsed_upto(nodes@, (k + 1) as nat) == prev.push(k as int));
                    assert(collapsed_upto(nodes@, (k + 1) as nat)[prev.len() as int] == k);
                    assert(collapsed_upto(nodes@, nodes@.len())[prev.len() as int] > u32::MAX);
                }
                return None;
            }
            out.push(k as u32);
        }
        k += 1;
    }
    Some(out)
}

proof fn lemma_collapsed_kept(nodes: Seq<i64>, k: nat, m: nat)
    requires
        k <= m <= nodes.len(),
    ensures
        collapsed_upto(nodes, k).len() <= collapsed_upto(nodes, m).len(),
        forall|j: int| 0 <= j < collapsed_upto(nodes, k).len() ==> #[trigger] collapsed_upto(nodes, m)[j] == collapsed_upto(nodes, k)[j],
    decreases m - k,
{
    if k < m {
        lemma_collapsed_kept(nodes, k, (m - 1) as nat);
    }
}

} // verus!
