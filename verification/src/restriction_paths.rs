//! Expanding turn-restriction candidates into the edge paths that the
//! router must refuse.
//!
//! A `no_*` restriction forbids every path from an edge of its `from` way,
//! through its via node or via ways, onto an edge of its `to` way. An
//! `only_*` restriction forbids every other way out of the via node (and,
//! for via ways, every way out of the via chain before its end).

use vstd::prelude::*;

use std::collections::HashMap;

use crate::graph::{DirectedEdge, EdgeId, TurnRestriction, TurnRestrictionKind};
use crate::restrictions::{RestrictionKind, TurnRestrictionCandidate, ViaSpec};

verus! {

broadcast use {vstd::std_specs::hash::group_hash_axioms, vstd::seq_lib::group_to_multiset_ensures};

// ---------------------------------------------------------------------------
// The graph as the expansion reads it.
// ---------------------------------------------------------------------------
/// The ids of the edges of way `way` that end at node `node`, in edge order.
pub open spec fn ids_into(edges: Seq<DirectedEdge>, way: i64, node: u32) -> Seq<u32>
    decreases edges.len(),
{
    if edges.len() == 0 {
        seq![]
    } else {
        let rest = ids_into(edges.drop_last(), way, node);
        let e = edges.last();
        if e.source_way_id == way && e.to.0 == node {
            rest.push(e.edge_id.0)
        } else {
            rest
        }
    }
}

/// The ids of the edges of way `way` that leave node `node`, in edge order.
pub open spec fn ids_out_of(edges: Seq<DirectedEdge>, way: i64, node: u32) -> Seq<u32>
    decreases edges.len(),
{
    if edges.len() == 0 {
        seq![]
    } else {
        let rest = ids_out_of(edges.drop_last(), way, node);
        let e = edges.last();
        if e.source_way_id == way && e.from.0 == node {
            rest.push(e.edge_id.0)
        } else {
            rest
        }
    }
}

/// The ids of all edges that leave node `node`, in edge order.
pub open spec fn ids_leaving(edges: Seq<DirectedEdge>, node: u32) -> Seq<u32>
    decreases edges.len(),
{
    if edges.len() == 0 {
        seq![]
    } else {
        let rest = ids_leaving(edges.drop_last(), node);
        let e = edges.last();
        if e.from.0 == node {
            rest.push(e.edge_id.0)
        } else {
            rest
        }
    }
}

/// The id of the last edge of way `way` from node `from` to node `to`.
pub open spec fn edge_joining(edges: Seq<DirectedEdge>, way: i64, from: u32, to: u32) -> Option<u32>
    decreases edges.len(),
{
    if edges.len() == 0 {
        None
    } else {
        let e = edges.last();
        if e.source_way_id == way && e.from.0 == from && e.to.0 == to {
            Some(e.edge_id.0)
        } else {
            edge_joining(edges.drop_last(), way, from, to)
        }
    }
}

/// Key of a way and a node.
pub open spec fn way_node_key(way: i64, node: u32) -> i128 {
    (way * 4294967296 + node) as i128
}

/// Key of a way and two nodes.
pub open spec fn way_nodes_key(way: i64, from: u32, to: u32) -> i128 {
    (way * 18446744073709551616 + from * 4294967296 + to) as i128
}

proof fn lemma_way_node_key_injective(w1: i64, n1: u32, w2: i64, n2: u32)
    requires
        way_node_key(w1, n1) == way_node_key(w2, n2),
    ensures
        w1 == w2 && n1 == n2,
{
    assert(w1 * 4294967296 + n1 == w2 * 4294967296 + n2);
    if w1 != w2 {
        assert(w1 < w2 ==> w1 * 4294967296 + 4294967296 <= w2 * 4294967296) by (nonlinear_arith);
        assert(w2 < w1 ==> w2 * 4294967296 + 4294967296 <= w1 * 4294967296) by (nonlinear_arith);
    }
}

proof fn lemma_way_nodes_key_injective(w1: i64, f1: u32, t1: u32, w2: i64, f2: u32, t2: u32)
    requires
        way_nodes_key(w1, f1, t1) == way_nodes_key(w2, f2, t2),
    ensures
        w1 == w2 && f1 == f2 && t1 == t2,
{
    let a1 = f1 * 4294967296 + t1;
    let a2 = f2 * 4294967296 + t2;
    assert(0 <= a1 < 18446744073709551616);
    assert(0 <= a2 < 18446744073709551616);
    assert(w1 * 18446744073709551616 + a1 == w2 * 18446744073709551616 + a2);
    if w1 != w2 {
        assert(w1 < w2 ==> w1 * 18446744073709551616 + 18446744073709551616 <= w2 * 18446744073709551616)
            by (nonlinear_arith);
        assert(w2 < w1 ==> w2 * 18446744073709551616 + 18446744073709551616 <= w1 * 18446744073709551616)
            by (nonlinear_arith);
    }
    if f1 != f2 {
        assert(f1 < f2 ==> f1 * 4294967296 + 4294967296 <= f2 * 4294967296) by (nonlinear_arith);
        assert(f2 < f1 ==> f2 * 4294967296 + 4294967296 <= f1 * 4294967296) by (nonlinear_arith);
    }
}

fn way_node_key_exec(way: i64, node: u32) -> (k: i128)
    ensures
        k == way_node_key(way, node),
{
    assert(-9223372036854775808 * 4294967296 <= way * 4294967296 <= 9223372036854775807 * 4294967296)
        by (nonlinear_arith)
        requires
            -9223372036854775808 <= way <= 9223372036854775807,
    ;
    way as i128 * 4294967296i128 + node as i128
}

fn way_nodes_key_exec(way: i64, from: u32, to: u32) -> (k: i128)
    ensures
        k == way_nodes_key(way, from, to),
{
    assert(-9223372036854775808 * 18446744073709551616 <= way * 18446744073709551616 <= 9223372036854775807
        * 18446744073709551616) by (nonlinear_arith)
        requires
            -9223372036854775808 <= way <= 9223372036854775807,
    ;
    assert(from * 4294967296 <= 4294967295 * 4294967296) by (nonlinear_arith)
        requires
            from <= 4294967295,
    ;
    way as i128 * 18446744073709551616i128 + from as i128 * 4294967296i128 + to as i128
}

/// Lookup tables over the edges.
struct EdgeIndex {
    incoming: HashMap<i128, Vec<u32>>,
    outgoing: HashMap<i128, Vec<u32>>,
    leaving: HashMap<u32, Vec<u32>>,
    joining: HashMap<i128, u32>,
}

pub open spec fn into_indexed(m: Map<i128, Vec<u32>>, edges: Seq<DirectedEdge>) -> bool {
    forall|w: i64, n: u32|
        #![trigger way_node_key(w, n)]
        (m.contains_key(way_node_key(w, n)) <==> ids_into(edges, w, n).len() > 0) && (m.contains_key(
            way_node_key(w, n),
        ) ==> m[way_node_key(w, n)]@ == ids_into(edges, w, n))
}

pub open spec fn out_of_indexed(m: Map<i128, Vec<u32>>, edges: Seq<DirectedEdge>) -> bool {
    forall|w: i64, n: u32|
        #![trigger way_node_key(w, n)]
        (m.contains_key(way_node_key(w, n)) <==> ids_out_of(edges, w, n).len() > 0) && (m.contains_key(
            way_node_key(w, n),
        ) ==> m[way_node_key(w, n)]@ == ids_out_of(edges, w, n))
}

pub open spec fn leaving_indexed(m: Map<u32, Vec<u32>>, edges: Seq<DirectedEdge>) -> bool {
    forall|n: u32|
        (#[trigger] m.contains_key(n) <==> ids_leaving(edges, n).len() > 0) && (m.contains_key(n)
            ==> m[n]@ == ids_leaving(edges, n))
}

pub open spec fn joining_indexed(m: Map<i128, u32>, edges: Seq<DirectedEdge>) -> bool {
    forall|w: i64, f: u32, t: u32|
        #![trigger way_nodes_key(w, f, t)]
        (m.contains_key(way_nodes_key(w, f, t)) <==> edge_joining(edges, w, f, t) is Some) && (
        m.contains_key(way_nodes_key(w, f, t)) ==> edge_joining(edges, w, f, t) == Some(
            m[way_nodes_key(w, f, t)],
        ))
}

impl EdgeIndex {
    spec fn indexes(&self, edges: Seq<DirectedEdge>) -> bool {
        &&& into_indexed(self.incoming@, edges)
        &&& out_of_indexed(self.outgoing@, edges)
        &&& leaving_indexed(self.leaving@, edges)
        &&& joining_indexed(self.joining@, edges)
    }
}

fn push_at(m: &mut HashMap<i128, Vec<u32>>, key: i128, id: u32)
    ensures
        final(m)@.dom() == old(m)@.dom().insert(key),
        forall|k: i128| k != key && old(m)@.contains_key(k) ==> final(m)@[k] == old(m)@[k],
        final(m)@[key]@ == (if old(m)@.contains_key(key) {
            old(m)@[key]@
        } else {
            seq![]
        }).push(id),
{
    let mut v = match m.remove(&key) {
        Some(v) => v,
        None => Vec::new(),
    };
    v.push(id);
    m.insert(key, v);
}

fn push_at_node(m: &mut HashMap<u32, Vec<u32>>, key: u32, id: u32)
    ensures
        final(m)@.dom() == old(m)@.dom().insert(key),
        forall|k: u32| k != key && old(m)@.contains_key(k) ==> final(m)@[k] == old(m)@[k],
        final(m)@[key]@ == (if old(m)@.contains_key(key) {
            old(m)@[key]@
        } else {
            seq![]
        }).push(id),
{
    let mut v = match m.remove(&key) {
        Some(v) => v,
        None => Vec::new(),
    };
    v.push(id);
    m.insert(key, v);
}

proof fn lemma_index_step(ix0: EdgeIndex, ix1: EdgeIndex, edges: Seq<DirectedEdge>, i: int)
    requires
        0 <= i < edges.len(),
        ix0.indexes(edges.take(i)),
        ({
            let e = edges[i];
            let k_in = way_node_key(e.source_way_id, e.to.0);
            let k_out = way_node_key(e.source_way_id, e.from.0);
            &&& ix1.incoming@.dom() == ix0.incoming@.dom().insert(k_in)
            &&& forall|k: i128| k != k_in && ix0.incoming@.contains_key(k) ==> ix1.incoming@[k] == ix0.incoming@[k]
            &&& ix1.incoming@[k_in]@ == (if ix0.incoming@.contains_key(k_in) {
                ix0.incoming@[k_in]@
            } else {
                seq![]
            }).push(e.edge_id.0)
            &&& ix1.outgoing@.dom() == ix0.outgoing@.dom().insert(k_out)
            &&& forall|k: i128| k != k_out && ix0.outgoing@.contains_key(k) ==> ix1.outgoing@[k] == ix0.outgoing@[k]
            &&& ix1.outgoing@[k_out]@ == (if ix0.outgoing@.contains_key(k_out) {
                ix0.outgoing@[k_out]@
            } else {
                seq![]
            }).push(e.edge_id.0)
            &&& ix1.leaving@.dom() == ix0.leaving@.dom().insert(e.from.0)
            &&& forall|k: u32| k != e.from.0 && ix0.leaving@.contains_key(k) ==> ix1.leaving@[k] == ix0.leaving@[k]
            &&& ix1.leaving@[e.from.0]@ == (if ix0.leaving@.contains_key(e.from.0) {
                ix0.leaving@[e.from.0]@
            } else {
                seq![]
            }).push(e.edge_id.0)
            &&& ix1.joining@ == ix0.joining@.insert(way_nodes_key(e.source_way_id, e.from.0, e.to.0), e.edge_id.0)
        }),
    ensures
        ix1.indexes(edges.take(i + 1)),
{
    let pre = edges.take(i);
    let cur = edges.take(i + 1);
    let e = edges[i];
    assert(cur.drop_last() =~= pre);
    assert(cur.last() == e);
    assert forall|w: i64, n: u32| #![trigger way_node_key(w, n)]
        (ix1.incoming@.contains_key(way_node_key(w, n)) <==> ids_into(cur, w, n).len() > 0) && (
        ix1.incoming@.contains_key(way_node_key(w, n)) ==> ix1.incoming@[way_node_key(w, n)]@ == ids_into(
            cur,
            w,
            n,
        )) by {
        if way_node_key(w, n) == way_node_key(e.source_way_id, e.to.0) {
            lemma_way_node_key_injective(w, n, e.source_way_id, e.to.0);
        }
    }
    assert forall|w: i64, n: u32| #![trigger way_node_key(w, n)]
        (ix1.outgoing@.contains_key(way_node_key(w, n)) <==> ids_out_of(cur, w, n).len() > 0) && (
        ix1.outgoing@.contains_key(way_node_key(w, n)) ==> ix1.outgoing@[way_node_key(w, n)]@ == ids_out_of(
            cur,
            w,
            n,
        )) by {
        if way_node_key(w, n) == way_node_key(e.source_way_id, e.from.0) {
            lemma_way_node_key_injective(w, n, e.source_way_id, e.from.0);
        }
    }
    assert forall|n: u32|
        (#[trigger] ix1.leaving@.contains_key(n) <==> ids_leaving(cur, n).len() > 0) && (
        ix1.leaving@.contains_key(n) ==> ix1.leaving@[n]@ == ids_leaving(cur, n)) by {}
    assert forall|w: i64, f: u32, t: u32| #![trigger way_nodes_key(w, f, t)]
        (ix1.joining@.contains_key(way_nodes_key(w, f, t)) <==> edge_joining(cur, w, f, t) is Some) && (
        ix1.joining@.contains_key(way_nodes_key(w, f, t)) ==> edge_joining(cur, w, f, t) == Some(
            ix1.joining@[way_nodes_key(w, f, t)],
        )) by {
        if way_nodes_key(w, f, t) == way_nodes_key(e.source_way_id, e.from.0, e.to.0) {
            lemma_way_nodes_key_injective(w, f, t, e.source_way_id, e.from.0, e.to.0);
        }
    }
}

fn index_edges(edges: &Vec<DirectedEdge>) -> (ix: EdgeIndex)
    ensures
        ix.indexes(edges@),
{
    let mut ix = EdgeIndex {
        incoming: HashMap::new(),
        outgoing: HashMap::new(),
        leaving: HashMap::new(),
        joining: HashMap::new(),
    };
    proof {
        assert(edges@.take(0) =~= Seq::<DirectedEdge>::empty());
    }
    let mut i: usize = 0;
    while i < edges.len()
        invariant
            i <= edges@.len(),
            ix.indexes(edges@.take(i as int)),
        decreases edges@.len() - i,
    {
        let e = edges[i];
        let ghost ix0 = ix;
        push_at(&mut ix.incoming, way_node_key_exec(e.source_way_id, e.to.0), e.edge_id.0);
        push_at(&mut ix.outgoing, way_node_key_exec(e.source_way_id, e.from.0), e.edge_id.0);
        push_at_node(&mut ix.leaving, e.from.0, e.edge_id.0);
        ix.joining.insert(way_nodes_key_exec(e.source_way_id, e.from.0, e.to.0), e.edge_id.0);
        proof {
            lemma_index_step(ix0, ix, edges@, i as int);
        }
        i += 1;
    }
    proof {
        assert(edges@.take(edges@.len() as int) =~= edges@);
    }
    ix
}

// ---------------------------------------------------------------------------
// Ways and the nodes they share.
// ---------------------------------------------------------------------------
/// The node sequence of an OSM way, as the expansion reads it.
#[derive(Debug, Clone)]
pub struct WayNodes {
    pub osm_way_id: i64,
    pub node_ids: Vec<i64>,
}

/// The position of the way with id `id`: the last one, where several share
/// it.
pub open spec fn way_position(ways: Seq<WayNodes>, id: i64) -> Option<int>
    decreases ways.len(),
{
    if ways.len() == 0 {
        None
    } else if ways.last().osm_way_id == id {
        Some(ways.len() - 1)
    } else {
        way_position(ways.drop_last(), id)
    }
}

proof fn lemma_way_position_bounds(ways: Seq<WayNodes>, id: i64)
    ensures
        way_position(ways, id) matches Some(i) ==> 0 <= i < ways.len() && ways[i].osm_way_id == id,
    decreases ways.len(),
{
    if ways.len() > 0 {
        lemma_way_position_bounds(ways.drop_last(), id);
    }
}

fn way_positions(ways: &Vec<WayNodes>) -> (m: HashMap<i64, usize>)
    ensures
        forall|id: i64|
            #![trigger way_position(ways@, id)]
            (m@.contains_key(id) <==> way_position(ways@, id) is Some) && (m@.contains_key(id)
                ==> way_position(ways@, id) == Some(m@[id] as int)),
{
    let mut m: HashMap<i64, usize> = HashMap::new();
    let mut i: usize = 0;
    proof {
        assert(ways@.take(0) =~= Seq::<WayNodes>::empty());
    }
    while i < ways.len()
        invariant
            i <= ways@.len(),
            forall|id: i64|
                #![trigger way_position(ways@.take(i as int), id)]
                (m@.contains_key(id) <==> way_position(ways@.take(i as int), id) is Some) && (m@.contains_key(
                    id,
                ) ==> way_position(ways@.take(i as int), id) == Some(m@[id] as int)),
        decreases ways@.len() - i,
    {
        m.insert(ways[i].osm_way_id, i);
        proof {
            assert(ways@.take(i + 1).drop_last() =~= ways@.take(i as int));
            assert forall|id: i64| #![trigger way_position(ways@.take(i + 1), id)]
                (m@.contains_key(id) <==> way_position(ways@.take(i + 1), id) is Some) && (m@.contains_key(
                    id,
                ) ==> way_position(ways@.take(i + 1), id) == Some(m@[id] as int)) by {
                assert(way_position(ways@.take(i + 1), id) == if ways@[i as int].osm_way_id == id {
                    Some(i as int)
                } else {
                    way_position(ways@.take(i as int), id)
                });
            }
        }
        i += 1;
    }
    proof {
        assert(ways@.take(ways@.len() as int) =~= ways@);
    }
    m
}

/// Whether node `x` lies on both ways.
pub open spec fn shares(left: Seq<i64>, right: Seq<i64>, x: i64) -> bool {
    left.contains(x) && right.contains(x)
}

/// The node two ways share, where they share exactly one.
pub open spec fn unique_shared(left: Seq<i64>, right: Seq<i64>) -> Option<i64> {
    if exists|x: i64| #[trigger] shares(left, right, x) && forall|y: i64| #[trigger]
        shares(left, right, y) ==> y == x {
        Some(
            choose|x: i64| #[trigger] shares(left, right, x) && forall|y: i64| #[trigger]
                shares(left, right, y) ==> y == x,
        )
    } else {
        None
    }
}

fn holds_node(v: &Vec<i64>, x: i64) -> (r: bool)
    ensures
        r == v@.contains(x),
{
    let mut i: usize = 0;
    while i < v.len()
        invariant
            i <= v@.len(),
            forall|j: int| 0 <= j < i ==> v@[j] != x,
        decreases v@.len() - i,
    {
        if v[i] == x {
            return true;
        }
        i += 1;
    }
    false
}

fn unique_shared_node(left: &Vec<i64>, right: &Vec<i64>) -> (r: Option<i64>)
    ensures
        r == unique_shared(left@, right@),
{
    let mut found: Option<i64> = None;
    let mut i: usize = 0;
    while i < left.len()
        invariant
            i <= left@.len(),
            found is None ==> forall|j: int| 0 <= j < i ==> !right@.contains(#[trigger] left@[j]),
            found matches Some(f) ==> shares(left@, right@, f) && forall|j: int|
                0 <= j < i && right@.contains(#[trigger] left@[j]) ==> left@[j] == f,
        decreases left@.len() - i,
    {
        let x = left[i];
        if holds_node(right, x) {
            match found {
                None => {
                    found = Some(x);
                },
                Some(f) => {
                    if f != x {
                        proof {
                            assert(shares(left@, right@, x));
                            assert forall|z: i64| #[trigger] shares(left@, right@, z) implies !(forall|y: i64|
                                #[trigger] shares(left@, right@, y) ==> y == z) by {
                                assert(shares(left@, right@, f));
                            }
                        }
                        return None;
                    }
                },
            }
        }
        i += 1;
    }
    match found {
        None => {
            proof {
                assert forall|x: i64| !#[trigger] shares(left@, right@, x) by {
                    if shares(left@, right@, x) {
                        let j = choose|j: int| 0 <= j < left@.len() && left@[j] == x;
                        assert(!right@.contains(left@[j]));
                    }
                }
            }
            None
        },
        Some(f) => {
            proof {
                assert forall|y: i64| #[trigger] shares(left@, right@, y) implies y == f by {
                    let j = choose|j: int| 0 <= j < left@.len() && left@[j] == y;
                    assert(right@.contains(left@[j]));
                }
                let c = choose|x: i64| #[trigger] shares(left@, right@, x) && forall|y: i64| #[trigger]
                    shares(left@, right@, y) ==> y == x;
                assert(shares(left@, right@, c));
            }
            Some(f)
        },
    }
}

/// The nodes that consecutive ways of `ws` share, one per pair among the
/// first `k + 1` ways, where each pair shares exactly one.
pub open spec fn shared_upto(ws: Seq<Seq<i64>>, k: int) -> Option<Seq<i64>>
    decreases k,
{
    if k <= 0 {
        Some(seq![])
    } else {
        match shared_upto(ws, k - 1) {
            None => None,
            Some(s) => match unique_shared(ws[k - 1], ws[k]) {
                None => None,
                Some(x) => Some(s.push(x)),
            },
        }
    }
}

proof fn lemma_shared_upto_len(ws: Seq<Seq<i64>>, k: int)
    requires
        k >= 0,
    ensures
        shared_upto(ws, k) matches Some(s) ==> s.len() == k,
    decreases k,
{
    if k > 0 {
        lemma_shared_upto_len(ws, k - 1);
    }
}

proof fn lemma_shared_upto_none(ws: Seq<Seq<i64>>, k: int, n: int)
    requires
        0 <= k <= n,
        shared_upto(ws, k) is None,
    ensures
        shared_upto(ws, n) is None,
    decreases n - k,
{
    if k < n {
        lemma_shared_upto_none(ws, k + 1, n);
    }
}

/// The node sequences of the ways at the given positions.
pub open spec fn chain_nodes(ways: Seq<WayNodes>, pos: Seq<usize>) -> Seq<Seq<i64>> {
    pos.map_values(|p: usize| ways[p as int].node_ids@)
}

fn shared_chain(ways: &Vec<WayNodes>, pos: &Vec<usize>) -> (r: Option<Vec<i64>>)
    requires
        pos@.len() >= 1,
        forall|i: int| 0 <= i < pos@.len() ==> (#[trigger] pos@[i] as int) < ways@.len(),
    ensures
        match r {
            None => shared_upto(chain_nodes(ways@, pos@), pos@.len() - 1) is None,
            Some(v) => shared_upto(chain_nodes(ways@, pos@), pos@.len() - 1) == Some(v@),
        },
{
    let ghost ws = chain_nodes(ways@, pos@);
    let mut out: Vec<i64> = Vec::new();
    let mut k: usize = 1;
    while k < pos.len()
        invariant
            1 <= k <= pos@.len(),
            ws == chain_nodes(ways@, pos@),
            forall|i: int| 0 <= i < pos@.len() ==> (#[trigger] pos@[i] as int) < ways@.len(),
            shared_upto(ws, k - 1) == Some(out@),
        decreases pos@.len() - k,
    {
        match unique_shared_node(&ways[pos[k - 1]].node_ids, &ways[pos[k]].node_ids) {
            None => {
                proof {
                    lemma_shared_upto_none(ws, k as int, pos@.len() - 1);
                }
                return None;
            },
            Some(x) => {
                out.push(x);
            },
        }
        k += 1;
    }
    Some(out)
}

// ---------------------------------------------------------------------------
// Edge sequences along a way.
// ---------------------------------------------------------------------------
/// The edges of way `way` that lead from its `a`-th node to its `b`-th,
/// one step at a time, if every step has a graph node at both ends and an
/// edge of the way between them.
pub open spec fn walk(nodes: Seq<i64>, way: i64, a: int, b: int, lookup: Map<i64, u32>, edges: Seq<DirectedEdge>) -> Option<
    Seq<u32>,
>
    decreases (if a <= b {
        b - a
    } else {
        a - b
    }),
{
    if a == b {
        Some(seq![])
    } else {
        let p = if a < b {
            b - 1
        } else {
            b + 1
        };
        match walk(nodes, way, a, p, lookup, edges) {
            None => None,
            Some(prefix) => if lookup.contains_key(nodes[p]) && lookup.contains_key(nodes[b]) {
                match edge_joining(edges, way, lookup[nodes[p]], lookup[nodes[b]]) {
                    Some(id) => Some(prefix.push(id)),
                    None => None,
                }
            } else {
                None
            },
        }
    }
}

proof fn lemma_walk_none_sticky(
    nodes: Seq<i64>,
    way: i64,
    a: int,
    c: int,
    b: int,
    lookup: Map<i64, u32>,
    edges: Seq<DirectedEdge>,
)
    requires
        (a <= c <= b) || (b <= c <= a),
        walk(nodes, way, a, c, lookup, edges) is None,
    ensures
        walk(nodes, way, a, b, lookup, edges) is None,
    decreases (if c <= b {
        b - c
    } else {
        c - b
    }),
{
    if c != b {
        let n = if a <= b {
            c + 1
        } else {
            c - 1
        };
        assert(walk(nodes, way, a, n, lookup, edges) is None);
        lemma_walk_none_sticky(nodes, way, a, n, b, lookup, edges);
    }
}

proof fn lemma_walk_len(nodes: Seq<i64>, way: i64, a: int, b: int, lookup: Map<i64, u32>, edges: Seq<DirectedEdge>)
    ensures
        walk(nodes, way, a, b, lookup, edges) matches Some(p) ==> p.len() == (if a <= b {
            b - a
        } else {
            a - b
        }),
    decreases (if a <= b {
        b - a
    } else {
        a - b
    }),
{
    if a != b {
        let p = if a < b {
            b - 1
        } else {
            b + 1
        };
        lemma_walk_len(nodes, way, a, p, lookup, edges);
    }
}

fn walk_between(
    nodes: &Vec<i64>,
    way: i64,
    a: usize,
    b: usize,
    lookup: &HashMap<i64, u32>,
    ix: &EdgeIndex,
    Ghost(edges): Ghost<Seq<DirectedEdge>>,
) -> (r: Option<Vec<u32>>)
    requires
        a < nodes@.len(),
        b < nodes@.len(),
        ix.indexes(edges),
    ensures
        match r {
            None => walk(nodes@, way, a as int, b as int, lookup@, edges) is None,
            Some(p) => walk(nodes@, way, a as int, b as int, lookup@, edges) == Some(p@),
        },
{
    let mut cursor: usize = a;
    let mut path: Vec<u32> = Vec::new();
    while cursor != b
        invariant
            a < nodes@.len(),
            b < nodes@.len(),
            ix.indexes(edges),
            (a <= cursor <= b) || (b <= cursor <= a),
            walk(nodes@, way, a as int, cursor as int, lookup@, edges) == Some(path@),
        decreases (if cursor <= b {
            b - cursor
        } else {
            cursor - b
        }),
    {
        let next: usize = if a < b {
            cursor + 1
        } else {
            cursor - 1
        };
        assert(walk(nodes@, way, a as int, next as int, lookup@, edges) == (if lookup@.contains_key(
            nodes@[cursor as int],
        ) && lookup@.contains_key(nodes@[next as int]) {
            match edge_joining(edges, way, lookup@[nodes@[cursor as int]], lookup@[nodes@[next as int]]) {
                Some(id) => Some(path@.push(id)),
                None => None,
            }
        } else {
            None
        }));
        let from = match lookup.get(&nodes[cursor]) {
            Some(n) => *n,
            None => {
                proof {
                    lemma_walk_none_sticky(nodes@, way, a as int, next as int, b as int, lookup@, edges);
                }
                return None;
            },
        };
        let to = match lookup.get(&nodes[next]) {
            Some(n) => *n,
            None => {
                proof {
                    lemma_walk_none_sticky(nodes@, way, a as int, next as int, b as int, lookup@, edges);
                }
                return None;
            },
        };
        let key = way_nodes_key_exec(way, from, to);
        let id = match ix.joining.get(&key) {
            Some(id) => *id,
            None => {
                proof {
                    lemma_walk_none_sticky(nodes@, way, a as int, next as int, b as int, lookup@, edges);
                }
                return None;
            },
        };
        path.push(id);
        cursor = next;
    }
    Some(path)
}

pub open spec fn opt_view(o: Option<Vec<u32>>) -> Option<Seq<u32>> {
    match o {
        Some(v) => Some(v@),
        None => None,
    }
}

/// A candidate path replaces the best so far when it is shorter.
pub open spec fn consider(best: Option<Seq<u32>>, cand: Option<Seq<u32>>) -> Option<Seq<u32>> {
    match cand {
        Some(p) => if p.len() > 0 && (best is None || p.len() < best->Some_0.len()) {
            Some(p)
        } else {
            best
        },
        None => best,
    }
}

/// The best walk from the `a`-th node of the way (if it is `s`) to any of
/// its first `b` nodes that is `e`, starting from `best`.
pub open spec fn best_in_row(
    nodes: Seq<i64>,
    way: i64,
    s: i64,
    e: i64,
    lookup: Map<i64, u32>,
    edges: Seq<DirectedEdge>,
    a: int,
    b: int,
    best: Option<Seq<u32>>,
) -> Option<Seq<u32>>
    decreases b,
{
    if b <= 0 {
        best
    } else {
        let prev = best_in_row(nodes, way, s, e, lookup, edges, a, b - 1, best);
        if nodes[a] == s && nodes[b - 1] == e && a != b - 1 {
            consider(prev, walk(nodes, way, a, b - 1, lookup, edges))
        } else {
            prev
        }
    }
}

/// The best walk that starts at one of the first `a` nodes of the way.
pub open spec fn best_upto(
    nodes: Seq<i64>,
    way: i64,
    s: i64,
    e: i64,
    lookup: Map<i64, u32>,
    edges: Seq<DirectedEdge>,
    a: int,
) -> Option<Seq<u32>>
    decreases a,
{
    if a <= 0 {
        None
    } else {
        best_in_row(
            nodes,
            way,
            s,
            e,
            lookup,
            edges,
            a - 1,
            nodes.len() as int,
            best_upto(nodes, way, s, e, lookup, edges, a - 1),
        )
    }
}

/// The edges of a way from node `s` to node `e`: of the walks between an
/// occurrence of `s` and one of `e`, the first shortest, scanning starts
/// and then ends in way order.
pub open spec fn segment_between(
    nodes: Seq<i64>,
    way: i64,
    s: i64,
    e: i64,
    lookup: Map<i64, u32>,
    edges: Seq<DirectedEdge>,
) -> Option<Seq<u32>> {
    if s == e {
        None
    } else {
        best_upto(nodes, way, s, e, lookup, edges, nodes.len() as int)
    }
}

fn way_edge_sequence_between(
    way: &WayNodes,
    s: i64,
    e: i64,
    lookup: &HashMap<i64, u32>,
    ix: &EdgeIndex,
    Ghost(edges): Ghost<Seq<DirectedEdge>>,
) -> (r: Option<Vec<u32>>)
    requires
        ix.indexes(edges),
    ensures
        opt_view(r) == segment_between(way.node_ids@, way.osm_way_id, s, e, lookup@, edges),
{
    if s == e {
        return None;
    }
    let ghost nodes = way.node_ids@;
    let n = way.node_ids.len();
    let mut best: Option<Vec<u32>> = None;
    let mut a: usize = 0;
    while a < n
        invariant
            n == nodes.len(),
            nodes == way.node_ids@,
            ix.indexes(edges),
            a <= n,
            opt_view(best) == best_upto(nodes, way.osm_way_id, s, e, lookup@, edges, a as int),
        decreases n - a,
    {
        let ghost start = opt_view(best);
        let mut b: usize = 0;
        while b < n
            invariant
                n == nodes.len(),
                nodes == way.node_ids@,
                ix.indexes(edges),
                a < n,
                b <= n,
                opt_view(best) == best_in_row(nodes, way.osm_way_id, s, e, lookup@, edges, a as int, b as int, start),
            decreases n - b,
        {
            if way.node_ids[a] == s && way.node_ids[b] == e && a != b {
                match walk_between(&way.node_ids, way.osm_way_id, a, b, lookup, ix, Ghost(edges)) {
                    Some(p) => {
                        let better = match &best {
                            None => true,
                            Some(q) => p.len() < q.len(),
                        };
                        if p.len() > 0 && better {
                            best = Some(p);
                        }
                    },
                    None => {},
                }
            }
            b += 1;
        }
        a += 1;
    }
    best
}

/// The edges along the via ways, from each shared node to the next; `None`
/// if some stretch has no edges.
pub open spec fn via_path_upto(
    ways: Seq<WayNodes>,
    via_pos: Seq<usize>,
    shared: Seq<i64>,
    lookup: Map<i64, u32>,
    edges: Seq<DirectedEdge>,
    k: int,
) -> Option<Seq<u32>>
    decreases k,
{
    if k <= 0 {
        Some(seq![])
    } else {
        match via_path_upto(ways, via_pos, shared, lookup, edges, k - 1) {
            None => None,
            Some(p) => {
                let w = ways[via_pos[k - 1] as int];
                match segment_between(w.node_ids@, w.osm_way_id, shared[k - 1], shared[k], lookup, edges) {
                    None => None,
                    Some(q) => Some(p + q),
                }
            },
        }
    }
}

proof fn lemma_via_path_none(
    ways: Seq<WayNodes>,
    via_pos: Seq<usize>,
    shared: Seq<i64>,
    lookup: Map<i64, u32>,
    edges: Seq<DirectedEdge>,
    k: int,
    n: int,
)
    requires
        0 <= k <= n,
        via_path_upto(ways, via_pos, shared, lookup, edges, k) is None,
    ensures
        via_path_upto(ways, via_pos, shared, lookup, edges, n) is None,
    decreases n - k,
{
    if k < n {
        lemma_via_path_none(ways, via_pos, shared, lookup, edges, k + 1, n);
    }
}

fn via_path(
    ways: &Vec<WayNodes>,
    via_pos: &Vec<usize>,
    shared: &Vec<i64>,
    lookup: &HashMap<i64, u32>,
    ix: &EdgeIndex,
    Ghost(edges): Ghost<Seq<DirectedEdge>>,
) -> (r: Option<Vec<u32>>)
    requires
        ix.indexes(edges),
        shared@.len() == via_pos@.len() + 1,
        forall|i: int| 0 <= i < via_pos@.len() ==> (#[trigger] via_pos@[i] as int) < ways@.len(),
    ensures
        opt_view(r) == via_path_upto(ways@, via_pos@, shared@, lookup@, edges, via_pos@.len() as int),
{
    let mut path: Vec<u32> = Vec::new();
    let mut k: usize = 0;
    while k < via_pos.len()
        invariant
            ix.indexes(edges),
            shared@.len() == via_pos@.len() + 1,
            forall|i: int| 0 <= i < via_pos@.len() ==> (#[trigger] via_pos@[i] as int) < ways@.len(),
            k <= via_pos@.len(),
            via_path_upto(ways@, via_pos@, shared@, lookup@, edges, k as int) == Some(path@),
        decreases via_pos@.len() - k,
    {
        let w = &ways[via_pos[k]];
        match way_edge_sequence_between(w, shared[k], shared[k + 1], lookup, ix, Ghost(edges)) {
            None => {
                proof {
                    lemma_via_path_none(ways@, via_pos@, shared@, lookup@, edges, k + 1, via_pos@.len() as int);
                }
                return None;
            },
            Some(mut q) => {
                path.append(&mut q);
            },
        }
        k += 1;
    }
    Some(path)
}

// ---------------------------------------------------------------------------
// The prohibitions a candidate gives.
// ---------------------------------------------------------------------------
/// A prohibited path, with the mode mask, relation and kind of the
/// restriction that gave it.
pub open spec fn item(path: Seq<u32>, c: TurnRestrictionCandidate) -> (Seq<u32>, u16, i64, RestrictionKind) {
    (path, c.mode_mask.0, c.relation_id, c.kind)
}

/// One prohibition per edge of `tos`, each `prefix` followed by that edge.
pub open spec fn row_items(prefix: Seq<u32>, tos: Seq<u32>, c: TurnRestrictionCandidate) -> Seq<
    (Seq<u32>, u16, i64, RestrictionKind),
>
    decreases tos.len(),
{
    if tos.len() == 0 {
        seq![]
    } else {
        row_items(prefix, tos.drop_last(), c).push(item(prefix.push(tos.last()), c))
    }
}

/// The edges of `outs` that `allowed` does not hold, in order.
pub open spec fn excluding(outs: Seq<u32>, allowed: Seq<u32>) -> Seq<u32>
    decreases outs.len(),
{
    if outs.len() == 0 {
        seq![]
    } else {
        let r = excluding(outs.drop_last(), allowed);
        if allowed.contains(outs.last()) {
            r
        } else {
            r.push(outs.last())
        }
    }
}

/// The prohibitions at the end of the restriction: each incoming edge,
/// then the via edges, then an edge of the `to` way (`no_*`) or any other
/// edge out of the terminal node (`only_*`).
pub open spec fn terminal_items(
    c: TurnRestrictionCandidate,
    inc: Seq<u32>,
    via: Seq<u32>,
    allowed: Seq<u32>,
    outs: Seq<u32>,
) -> Seq<(Seq<u32>, u16, i64, RestrictionKind)>
    decreases inc.len(),
{
    if inc.len() == 0 {
        seq![]
    } else {
        terminal_items(c, inc.drop_last(), via, allowed, outs) + row_items(
            seq![inc.last()] + via,
            match c.kind {
                RestrictionKind::NoTurn => allowed,
                RestrictionKind::OnlyTurn => excluding(outs, allowed),
            },
            c,
        )
    }
}

/// The node at which the `k`-th via edge starts.
pub open spec fn node_before(via: Seq<u32>, entry: u32, edges: Seq<DirectedEdge>, k: int) -> u32 {
    if k == 0 {
        entry
    } else {
        edges[via[k - 1] as int].to.0
    }
}

/// For an `only_*` restriction with via ways: leaving the via chain early,
/// before each of its first `k` edges, is prohibited.
pub open spec fn detours(
    c: TurnRestrictionCandidate,
    f: u32,
    via: Seq<u32>,
    entry: u32,
    edges: Seq<DirectedEdge>,
    k: int,
) -> Seq<(Seq<u32>, u16, i64, RestrictionKind)>
    decreases k,
{
    if k <= 0 {
        seq![]
    } else {
        detours(c, f, via, entry, edges, k - 1) + row_items(
            seq![f] + via.take(k - 1),
            excluding(ids_leaving(edges, node_before(via, entry, edges, k - 1)), seq![via[k - 1]]),
            c,
        )
    }
}

pub open spec fn intermediate_items(
    c: TurnRestrictionCandidate,
    inc: Seq<u32>,
    via: Seq<u32>,
    entry: u32,
    edges: Seq<DirectedEdge>,
) -> Seq<(Seq<u32>, u16, i64, RestrictionKind)>
    decreases inc.len(),
{
    if inc.len() == 0 {
        seq![]
    } else {
        intermediate_items(c, inc.drop_last(), via, entry, edges) + detours(
            c,
            inc.last(),
            via,
            entry,
            edges,
            via.len() as int,
        )
    }
}

// ---------------------------------------------------------------------------
// Keeping the first of equal prohibitions.
// ---------------------------------------------------------------------------
/// Two prohibitions of the same path for the same modes.
pub open spec fn same_prohibition(a: (Seq<u32>, u16, i64, RestrictionKind), b: (Seq<u32>, u16, i64, RestrictionKind)) -> bool {
    a.0 == b.0 && a.1 == b.1
}

pub open spec fn dedup_push(
    list: Seq<(Seq<u32>, u16, i64, RestrictionKind)>,
    it: (Seq<u32>, u16, i64, RestrictionKind),
) -> Seq<(Seq<u32>, u16, i64, RestrictionKind)> {
    if exists|j: int| 0 <= j < list.len() && #[trigger] same_prohibition(list[j], it) {
        list
    } else {
        list.push(it)
    }
}

/// `acc` followed by the prohibitions of `s` that neither `acc` nor an
/// earlier one of `s` already holds.
pub open spec fn dedup_onto(
    acc: Seq<(Seq<u32>, u16, i64, RestrictionKind)>,
    s: Seq<(Seq<u32>, u16, i64, RestrictionKind)>,
) -> Seq<(Seq<u32>, u16, i64, RestrictionKind)>
    decreases s.len(),
{
    if s.len() == 0 {
        acc
    } else {
        dedup_push(dedup_onto(acc, s.drop_last()), s.last())
    }
}

proof fn lemma_dedup_onto_append(
    acc: Seq<(Seq<u32>, u16, i64, RestrictionKind)>,
    a: Seq<(Seq<u32>, u16, i64, RestrictionKind)>,
    b: Seq<(Seq<u32>, u16, i64, RestrictionKind)>,
)
    ensures
        dedup_onto(acc, a + b) == dedup_onto(dedup_onto(acc, a), b),
    decreases b.len(),
{
    if b.len() == 0 {
        assert(a + b =~= a);
    } else {
        lemma_dedup_onto_append(acc, a, b.drop_last());
        assert((a + b).drop_last() =~= a + b.drop_last());
        assert((a + b).last() == b.last());
    }
}

/// No two prohibitions of `s` are for the same path and modes.
pub open spec fn prohibitions_distinct(s: Seq<(Seq<u32>, u16, i64, RestrictionKind)>) -> bool {
    forall|i: int, j: int| 0 <= i < s.len() && 0 <= j < s.len() && i != j ==> !same_prohibition(#[trigger] s[i], #[trigger] s[j])
}

proof fn lemma_dedup_distinct(
    acc: Seq<(Seq<u32>, u16, i64, RestrictionKind)>,
    s: Seq<(Seq<u32>, u16, i64, RestrictionKind)>,
)
    requires
        prohibitions_distinct(acc),
    ensures
        prohibitions_distinct(dedup_onto(acc, s)),
    decreases s.len(),
{
    if s.len() > 0 {
        lemma_dedup_distinct(acc, s.drop_last());
        let prev = dedup_onto(acc, s.drop_last());
        let it = s.last();
        if !(exists|j: int| 0 <= j < prev.len() && #[trigger] same_prohibition(prev[j], it)) {
            let next = prev.push(it);
            assert forall|i: int, j: int| 0 <= i < next.len() && 0 <= j < next.len() && i != j implies !same_prohibition(
                #[trigger] next[i],
                #[trigger] next[j],
            ) by {
                if i == prev.len() {
                    assert(!same_prohibition(prev[j], it));
                } else if j == prev.len() {
                    assert(!same_prohibition(prev[i], it));
                } else {
                    assert(next[i] == prev[i] && next[j] == prev[j]);
                }
            }
        }
    }
}

struct Emitter {
    list: Vec<(Vec<u32>, u16, i64, RestrictionKind)>,
    seen: HashMap<u32, Vec<usize>>,
}

spec fn list_view(list: Seq<(Vec<u32>, u16, i64, RestrictionKind)>) -> Seq<(Seq<u32>, u16, i64, RestrictionKind)> {
    list.map_values(|x: (Vec<u32>, u16, i64, RestrictionKind)| (x.0@, x.1, x.2, x.3))
}

impl Emitter {
    spec fn view(&self) -> Seq<(Seq<u32>, u16, i64, RestrictionKind)> {
        list_view(self.list@)
    }

    spec fn wf(&self) -> bool {
        &&& forall|i: int|
            0 <= i < self.list@.len() ==> (#[trigger] self.list@[i]).0@.len() > 0 && self.seen@.contains_key(
                self.list@[i].0@[0],
            ) && self.seen@[self.list@[i].0@[0]]@.contains(i as usize)
        &&& forall|f: u32, k: int|
            #![trigger self.seen@[f]@[k]]
            self.seen@.contains_key(f) && 0 <= k < self.seen@[f]@.len() ==> (self.seen@[f]@[k] as int)
                < self.list@.len()
    }
}

fn same_u32s(a: &Vec<u32>, b: &Vec<u32>) -> (r: bool)
    ensures
        r == (a@ == b@),
{
    if a.len() != b.len() {
        return false;
    }
    let mut i: usize = 0;
    while i < a.len()
        invariant
            a@.len() == b@.len(),
            i <= a@.len(),
            forall|j: int| 0 <= j < i ==> a@[j] == b@[j],
        decreases a@.len() - i,
    {
        if a[i] != b[i] {
            return false;
        }
        i += 1;
    }
    proof {
        assert(a@ =~= b@);
    }
    true
}

fn push_position(m: &mut HashMap<u32, Vec<usize>>, key: u32, pos: usize)
    ensures
        final(m)@.dom() == old(m)@.dom().insert(key),
        forall|k: u32| k != key && old(m)@.contains_key(k) ==> final(m)@[k] == old(m)@[k],
        final(m)@[key]@ == (if old(m)@.contains_key(key) {
            old(m)@[key]@
        } else {
            seq![]
        }).push(pos),
{
    let mut v = match m.remove(&key) {
        Some(v) => v,
        None => Vec::new(),
    };
    v.push(pos);
    m.insert(key, v);
}

fn already_emitted(em: &Emitter, path: &Vec<u32>, mask: u16, Ghost(it): Ghost<(Seq<u32>, u16, i64, RestrictionKind)>) -> (r: bool)
    requires
        em.wf(),
        path@.len() > 0,
        it.0 == path@,
        it.1 == mask,
    ensures
        r == exists|j: int| 0 <= j < em.view().len() && #[trigger] same_prohibition(em.view()[j], it),
{
    let first = path[0];
    let total = em.list.len();
    assert(em.view().len() == total);
    match em.seen.get(&first) {
        Some(ids) => {
            let mut k: usize = 0;
            while k < ids.len()
                invariant
                    em.wf(),
                    path@.len() > 0,
                    it.0 == path@,
                    it.1 == mask,
                    first == path@[0],
                    em.seen@.contains_key(first),
                    ids@ == em.seen@[first]@,
                    k <= ids@.len(),
                    forall|q: int| 0 <= q < k ==> !#[trigger] same_prohibition(em.view()[ids@[q] as int], it),
                decreases ids@.len() - k,
            {
                let idx = ids[k];
                assert(ids@[k as int] == em.seen@[first]@[k as int]);
                assert((idx as int) < em.list@.len());
                assert(em.view()[idx as int] == (em.list@[idx as int].0@, em.list@[idx as int].1, em.list@[
                    idx as int].2, em.list@[idx as int].3));
                if em.list[idx].1 == mask && same_u32s(&em.list[idx].0, path) {
                    assert(same_prohibition(em.view()[idx as int], it));
                    return true;
                }
                k += 1;
            }
            proof {
                assert forall|j: int| 0 <= j < em.view().len() implies !#[trigger] same_prohibition(em.view()[j], it) by {
                    if same_prohibition(em.view()[j], it) {
                        assert(em.view()[j] == (em.list@[j].0@, em.list@[j].1, em.list@[j].2, em.list@[j].3));
                        assert(em.list@[j].0@[0] == first);
                        assert(em.seen@[first]@.contains(j as usize));
                        let q = choose|q: int| 0 <= q < em.seen@[first]@.len() && em.seen@[first]@[q] == j as usize;
                        assert(!same_prohibition(em.view()[ids@[q] as int], it));
                    }
                }
            }
            false
        },
        None => {
            proof {
                assert forall|j: int| 0 <= j < em.view().len() implies !#[trigger] same_prohibition(em.view()[j], it) by {
                    if same_prohibition(em.view()[j], it) {
                        assert(em.view()[j] == (em.list@[j].0@, em.list@[j].1, em.list@[j].2, em.list@[j].3));
                        assert(em.list@[j].0@[0] == first);
                    }
                }
            }
            false
        },
    }
}

fn emit(em: &mut Emitter, path: Vec<u32>, c: &TurnRestrictionCandidate)
    requires
        old(em).wf(),
        path@.len() > 0,
    ensures
        final(em).wf(),
        final(em).view() == dedup_push(old(em).view(), item(path@, *c)),
{
    let first = path[0];
    let mask = c.mode_mask.0;
    let ghost it = item(path@, *c);
    if already_emitted(em, &path, mask, Ghost(it)) {
        return;
    }
    let ghost old_list = em.list@;
    let ghost old_seen = em.seen@;
    let n = em.list.len();
    em.list.push((path, mask, c.relation_id, c.kind));
    push_position(&mut em.seen, first, n);
    proof {
        assert(em.view() =~= list_view(old_list).push(it));
        assert forall|i: int| 0 <= i < em.list@.len() implies (#[trigger] em.list@[i]).0@.len() > 0
            && em.seen@.contains_key(em.list@[i].0@[0]) && em.seen@[em.list@[i].0@[0]]@.contains(i as usize) by {
            if i < n {
                assert(em.list@[i] == old_list[i]);
                let f = old_list[i].0@[0];
                assert(old_seen[f]@.contains(i as usize));
                let q = choose|q: int| 0 <= q < old_seen[f]@.len() && old_seen[f]@[q] == i as usize;
                assert(em.seen@[f]@[q] == i as usize);
            } else {
                assert(em.seen@[first]@.last() == n);
            }
        }
        assert forall|f: u32, k: int|
            #![trigger em.seen@[f]@[k]]
            em.seen@.contains_key(f) && 0 <= k < em.seen@[f]@.len() implies (em.seen@[f]@[k] as int)
            < em.list@.len() by {
            if f != first {
                assert(old_seen.contains_key(f));
                assert(em.seen@[f]@[k] == old_seen[f]@[k]);
            } else if k < em.seen@[f]@.len() - 1 {
                assert(old_seen.contains_key(f));
                assert(em.seen@[f]@[k] == old_seen[f]@[k]);
            }
        }
    }
}

fn head_then(first: u32, rest: &Vec<u32>, n: usize) -> (r: Vec<u32>)
    requires
        n <= rest@.len(),
    ensures
        r@ == seq![first] + rest@.take(n as int),
{
    let mut out: Vec<u32> = Vec::new();
    out.push(first);
    let mut i: usize = 0;
    while i < n
        invariant
            n <= rest@.len(),
            i <= n,
            out@ == seq![first] + rest@.take(i as int),
        decreases n - i,
    {
        out.push(rest[i]);
        proof {
            assert(rest@.take(i + 1) =~= rest@.take(i as int).push(rest@[i as int]));
            assert(out@ =~= seq![first] + rest@.take(i + 1));
        }
        i += 1;
    }
    out
}

fn then_one(prefix: &Vec<u32>, last: u32) -> (r: Vec<u32>)
    ensures
        r@ == prefix@.push(last),
{
    let mut out: Vec<u32> = Vec::new();
    let mut i: usize = 0;
    while i < prefix.len()
        invariant
            i <= prefix@.len(),
            out@ == prefix@.take(i as int),
        decreases prefix@.len() - i,
    {
        out.push(prefix[i]);
        proof {
            assert(prefix@.take(i + 1) =~= prefix@.take(i as int).push(prefix@[i as int]));
        }
        i += 1;
    }
    out.push(last);
    proof {
        assert(prefix@.take(prefix@.len() as int) =~= prefix@);
    }
    out
}

fn emit_row(em: &mut Emitter, prefix: &Vec<u32>, tos: &Vec<u32>, c: &TurnRestrictionCandidate)
    requires
        old(em).wf(),
    ensures
        final(em).wf(),
        final(em).view() == dedup_onto(old(em).view(), row_items(prefix@, tos@, *c)),
{
    let ghost v0 = em.view();
    let mut j: usize = 0;
    proof {
        assert(tos@.take(0) =~= Seq::<u32>::empty());
    }
    while j < tos.len()
        invariant
            em.wf(),
            j <= tos@.len(),
            em.view() == dedup_onto(v0, row_items(prefix@, tos@.take(j as int), *c)),
        decreases tos@.len() - j,
    {
        let path = then_one(prefix, tos[j]);
        emit(em, path, c);
        proof {
            let r = row_items(prefix@, tos@.take(j as int), *c);
            assert(tos@.take(j + 1).drop_last() =~= tos@.take(j as int));
            assert(row_items(prefix@, tos@.take(j + 1), *c) == r.push(item(prefix@.push(tos@[j as int]), *c)));
            assert(r.push(item(prefix@.push(tos@[j as int]), *c)).drop_last() =~= r);
        }
        j += 1;
    }
    proof {
        assert(tos@.take(tos@.len() as int) =~= tos@);
    }
}

fn emit_row_excluding(
    em: &mut Emitter,
    prefix: &Vec<u32>,
    outs: &Vec<u32>,
    allowed: &Vec<u32>,
    c: &TurnRestrictionCandidate,
)
    requires
        old(em).wf(),
    ensures
        final(em).wf(),
        final(em).view() == dedup_onto(old(em).view(), row_items(prefix@, excluding(outs@, allowed@), *c)),
{
    let ghost v0 = em.view();
    let mut j: usize = 0;
    proof {
        assert(outs@.take(0) =~= Seq::<u32>::empty());
    }
    while j < outs.len()
        invariant
            em.wf(),
            j <= outs@.len(),
            em.view() == dedup_onto(v0, row_items(prefix@, excluding(outs@.take(j as int), allowed@), *c)),
        decreases outs@.len() - j,
    {
        let t = outs[j];
        proof {
            assert(outs@.take(j + 1).drop_last() =~= outs@.take(j as int));
        }
        if !holds_id(allowed, t) {
            let path = then_one(prefix, t);
            emit(em, path, c);
            proof {
                let x = excluding(outs@.take(j as int), allowed@);
                let r = row_items(prefix@, x, *c);
                assert(excluding(outs@.take(j + 1), allowed@) == x.push(t));
                assert(x.push(t).drop_last() =~= x);
                assert(r.push(item(prefix@.push(t), *c)).drop_last() =~= r);
            }
        }
        j += 1;
    }
    proof {
        assert(outs@.take(outs@.len() as int) =~= outs@);
    }
}

fn holds_id(v: &Vec<u32>, x: u32) -> (r: bool)
    ensures
        r == v@.contains(x),
{
    let mut i: usize = 0;
    while i < v.len()
        invariant
            i <= v@.len(),
            forall|j: int| 0 <= j < i ==> v@[j] != x,
        decreases v@.len() - i,
    {
        if v[i] == x {
            return true;
        }
        i += 1;
    }
    false
}

fn emit_terminal(
    em: &mut Emitter,
    c: &TurnRestrictionCandidate,
    inc: &Vec<u32>,
    via: &Vec<u32>,
    allowed: &Vec<u32>,
    outs: &Vec<u32>,
)
    requires
        old(em).wf(),
    ensures
        final(em).wf(),
        final(em).view() == dedup_onto(old(em).view(), terminal_items(*c, inc@, via@, allowed@, outs@)),
{
    let ghost v0 = em.view();
    let mut i: usize = 0;
    proof {
        assert(inc@.take(0) =~= Seq::<u32>::empty());
    }
    while i < inc.len()
        invariant
            em.wf(),
            i <= inc@.len(),
            em.view() == dedup_onto(v0, terminal_items(*c, inc@.take(i as int), via@, allowed@, outs@)),
        decreases inc@.len() - i,
    {
        let prefix = head_then(inc[i], via, via.len());
        let ghost before = em.view();
        match c.kind {
            RestrictionKind::NoTurn => emit_row(em, &prefix, allowed, c),
            RestrictionKind::OnlyTurn => emit_row_excluding(em, &prefix, outs, allowed, c),
        }
        proof {
            assert(via@.take(via@.len() as int) =~= via@);
            assert(inc@.take(i + 1).drop_last() =~= inc@.take(i as int));
            let row = row_items(
                seq![inc@[i as int]] + via@,
                match c.kind {
                    RestrictionKind::NoTurn => allowed@,
                    RestrictionKind::OnlyTurn => excluding(outs@, allowed@),
                },
                *c,
            );
            assert(terminal_items(*c, inc@.take(i + 1), via@, allowed@, outs@) == terminal_items(
                *c,
                inc@.take(i as int),
                via@,
                allowed@,
                outs@,
            ) + row);
            lemma_dedup_onto_append(v0, terminal_items(*c, inc@.take(i as int), via@, allowed@, outs@), row);
        }
        i += 1;
    }
    proof {
        assert(inc@.take(inc@.len() as int) =~= inc@);
    }
}

fn emit_detours(
    em: &mut Emitter,
    c: &TurnRestrictionCandidate,
    f: u32,
    chain: &Vec<u32>,
    entry: u32,
    edges: &Vec<DirectedEdge>,
    ix: &EdgeIndex,
)
    requires
        old(em).wf(),
        ix.indexes(edges@),
        forall|k: int| 0 <= k < chain@.len() ==> (#[trigger] chain@[k] as int) < edges@.len(),
    ensures
        final(em).wf(),
        final(em).view() == dedup_onto(old(em).view(), detours(*c, f, chain@, entry, edges@, chain@.len() as int)),
{
    let ghost v0 = em.view();
    let empty: Vec<u32> = Vec::new();
    let mut k: usize = 0;
    while k < chain.len()
        invariant
            em.wf(),
            ix.indexes(edges@),
            forall|q: int| 0 <= q < chain@.len() ==> (#[trigger] chain@[q] as int) < edges@.len(),
            empty@ == Seq::<u32>::empty(),
            k <= chain@.len(),
            em.view() == dedup_onto(v0, detours(*c, f, chain@, entry, edges@, k as int)),
        decreases chain@.len() - k,
    {
        let node = if k == 0 {
            entry
        } else {
            edges[chain[k - 1] as usize].to.0
        };
        assert(node == node_before(chain@, entry, edges@, k as int));
        let outs: &Vec<u32> = match ix.leaving.get(&node) {
            Some(v) => v,
            None => &empty,
        };
        assert(outs@ == ids_leaving(edges@, node));
        let prefix = head_then(f, chain, k);
        let mut one: Vec<u32> = Vec::new();
        one.push(chain[k]);
        emit_row_excluding(em, &prefix, outs, &one, c);
        proof {
            assert(one@ =~= seq![chain@[k as int]]);
            let row = row_items(
                seq![f] + chain@.take(k as int),
                excluding(ids_leaving(edges@, node_before(chain@, entry, edges@, k as int)), seq![chain@[k as int]]),
                *c,
            );
            assert(detours(*c, f, chain@, entry, edges@, k + 1) == detours(*c, f, chain@, entry, edges@, k as int)
                + row);
            lemma_dedup_onto_append(v0, detours(*c, f, chain@, entry, edges@, k as int), row);
        }
        k += 1;
    }
}

fn emit_intermediate(
    em: &mut Emitter,
    c: &TurnRestrictionCandidate,
    inc: &Vec<u32>,
    via: &Vec<u32>,
    entry: u32,
    edges: &Vec<DirectedEdge>,
    ix: &EdgeIndex,
)
    requires
        old(em).wf(),
        ix.indexes(edges@),
        forall|k: int| 0 <= k < via@.len() ==> (#[trigger] via@[k] as int) < edges@.len(),
    ensures
        final(em).wf(),
        final(em).view() == dedup_onto(old(em).view(), intermediate_items(*c, inc@, via@, entry, edges@)),
{
    let ghost v0 = em.view();
    let mut i: usize = 0;
    proof {
        assert(inc@.take(0) =~= Seq::<u32>::empty());
    }
    while i < inc.len()
        invariant
            em.wf(),
            ix.indexes(edges@),
            forall|q: int| 0 <= q < via@.len() ==> (#[trigger] via@[q] as int) < edges@.len(),
            i <= inc@.len(),
            em.view() == dedup_onto(v0, intermediate_items(*c, inc@.take(i as int), via@, entry, edges@)),
        decreases inc@.len() - i,
    {
        emit_detours(em, c, inc[i], via, entry, edges, ix);
        proof {
            assert(inc@.take(i + 1).drop_last() =~= inc@.take(i as int));
            let d = detours(*c, inc@[i as int], via@, entry, edges@, via@.len() as int);
            assert(intermediate_items(*c, inc@.take(i + 1), via@, entry, edges@) == intermediate_items(
                *c,
                inc@.take(i as int),
                via@,
                entry,
                edges@,
            ) + d);
            lemma_dedup_onto_append(v0, intermediate_items(*c, inc@.take(i as int), via@, entry, edges@), d);
        }
        i += 1;
    }
    proof {
        assert(inc@.take(inc@.len() as int) =~= inc@);
    }
}

// ---------------------------------------------------------------------------
// Candidates.
// ---------------------------------------------------------------------------
/// Every edge id of `s` is below `n`.
pub open spec fn ids_below(s: Seq<u32>, n: int) -> bool {
    forall|k: int| 0 <= k < s.len() ==> (#[trigger] s[k] as int) < n
}

/// Every edge's id indexes the edge list.
pub open spec fn ids_index_edges(edges: Seq<DirectedEdge>) -> bool {
    forall|i: int| 0 <= i < edges.len() ==> (#[trigger] edges[i].edge_id.0 as int) < edges.len()
}

/// Whether every edge's id indexes the edge list.
pub fn edge_ids_are_indices(edges: &Vec<DirectedEdge>) -> (r: bool)
    ensures
        r == ids_index_edges(edges@),
{
    let n = edges.len();
    let mut i: usize = 0;
    while i < n
        invariant
            n == edges@.len(),
            i <= n,
            forall|q: int| 0 <= q < i ==> (#[trigger] edges@[q].edge_id.0 as int) < n,
        decreases n - i,
    {
        if edges[i].edge_id.0 as usize >= n {
            return false;
        }
        i += 1;
    }
    true
}

proof fn lemma_joining_below(edges: Seq<DirectedEdge>, n: int, way: i64, from: u32, to: u32)
    requires
        forall|i: int| 0 <= i < edges.len() ==> (#[trigger] edges[i].edge_id.0 as int) < n,
    ensures
        edge_joining(edges, way, from, to) matches Some(id) ==> (id as int) < n,
    decreases edges.len(),
{
    if edges.len() > 0 {
        let rest = edges.drop_last();
        assert forall|i: int| 0 <= i < rest.len() implies (#[trigger] rest[i].edge_id.0 as int) < n by {
            assert(rest[i] == edges[i]);
        }
        lemma_joining_below(rest, n, way, from, to);
        assert(edges.last() == edges[edges.len() - 1]);
    }
}

proof fn lemma_walk_below(
    nodes: Seq<i64>,
    way: i64,
    a: int,
    b: int,
    lookup: Map<i64, u32>,
    edges: Seq<DirectedEdge>,
)
    requires
        ids_index_edges(edges),
    ensures
        walk(nodes, way, a, b, lookup, edges) matches Some(p) ==> ids_below(p, edges.len() as int),
    decreases (if a <= b {
        b - a
    } else {
        a - b
    }),
{
    if a != b {
        let p = if a < b {
            b - 1
        } else {
            b + 1
        };
        lemma_walk_below(nodes, way, a, p, lookup, edges);
        if lookup.contains_key(nodes[p]) && lookup.contains_key(nodes[b]) {
            lemma_joining_below(edges, edges.len() as int, way, lookup[nodes[p]], lookup[nodes[b]]);
        }
    }
}

proof fn lemma_best_row_below(
    nodes: Seq<i64>,
    way: i64,
    s: i64,
    e: i64,
    lookup: Map<i64, u32>,
    edges: Seq<DirectedEdge>,
    a: int,
    b: int,
    best: Option<Seq<u32>>,
)
    requires
        ids_index_edges(edges),
        best matches Some(q) ==> ids_below(q, edges.len() as int),
    ensures
        best_in_row(nodes, way, s, e, lookup, edges, a, b, best) matches Some(q) ==> ids_below(
            q,
            edges.len() as int,
        ),
    decreases b,
{
    if b > 0 {
        lemma_best_row_below(nodes, way, s, e, lookup, edges, a, b - 1, best);
        lemma_walk_below(nodes, way, a, b - 1, lookup, edges);
    }
}

proof fn lemma_best_upto_below(
    nodes: Seq<i64>,
    way: i64,
    s: i64,
    e: i64,
    lookup: Map<i64, u32>,
    edges: Seq<DirectedEdge>,
    a: int,
)
    requires
        ids_index_edges(edges),
    ensures
        best_upto(nodes, way, s, e, lookup, edges, a) matches Some(q) ==> ids_below(q, edges.len() as int),
    decreases a,
{
    if a > 0 {
        lemma_best_upto_below(nodes, way, s, e, lookup, edges, a - 1);
        lemma_best_row_below(
            nodes,
            way,
            s,
            e,
            lookup,
            edges,
            a - 1,
            nodes.len() as int,
            best_upto(nodes, way, s, e, lookup, edges, a - 1),
        );
    }
}

proof fn lemma_via_path_below(
    ways: Seq<WayNodes>,
    via_pos: Seq<usize>,
    shared: Seq<i64>,
    lookup: Map<i64, u32>,
    edges: Seq<DirectedEdge>,
    k: int,
)
    requires
        ids_index_edges(edges),
    ensures
        via_path_upto(ways, via_pos, shared, lookup, edges, k) matches Some(q) ==> ids_below(
            q,
            edges.len() as int,
        ),
    decreases k,
{
    if k > 0 {
        lemma_via_path_below(ways, via_pos, shared, lookup, edges, k - 1);
        let w = ways[via_pos[k - 1] as int];
        if shared[k - 1] != shared[k] {
            lemma_best_upto_below(
                w.node_ids@,
                w.osm_way_id,
                shared[k - 1],
                shared[k],
                lookup,
                edges,
                w.node_ids@.len() as int,
            );
        }
        match via_path_upto(ways, via_pos, shared, lookup, edges, k) {
            Some(q) => {
                let p = via_path_upto(ways, via_pos, shared, lookup, edges, k - 1)->Some_0;
                let r = segment_between(w.node_ids@, w.osm_way_id, shared[k - 1], shared[k], lookup, edges)->Some_0;
                assert(q == p + r);
                assert forall|i: int| 0 <= i < q.len() implies (#[trigger] q[i] as int) < edges.len() by {
                    if i < p.len() {
                        assert(q[i] == p[i]);
                    } else {
                        assert(q[i] == r[i - p.len()]);
                    }
                }
            },
            None => {},
        }
    }
}

/// The positions of the ways with the given ids, if every one is known.
pub open spec fn via_positions(ways: Seq<WayNodes>, ids: Seq<i64>) -> Option<Seq<usize>>
    decreases ids.len(),
{
    if ids.len() == 0 {
        Some(seq![])
    } else {
        match via_positions(ways, ids.drop_last()) {
            None => None,
            Some(p) => match way_position(ways, ids.last()) {
                None => None,
                Some(i) => Some(p.push(i as usize)),
            },
        }
    }
}

/// The prohibitions of a restriction through a single via node.
pub open spec fn node_candidate_items(
    c: TurnRestrictionCandidate,
    via_node: i64,
    lookup: Map<i64, u32>,
    edges: Seq<DirectedEdge>,
) -> Seq<(Seq<u32>, u16, i64, RestrictionKind)> {
    if !lookup.contains_key(via_node) {
        seq![]
    } else {
        let vn = lookup[via_node];
        let inc = ids_into(edges, c.from_way_id, vn);
        let allowed = ids_out_of(edges, c.to_way_id, vn);
        if inc.len() == 0 || allowed.len() == 0 {
            seq![]
        } else {
            terminal_items(c, inc, seq![], allowed, ids_leaving(edges, vn))
        }
    }
}

/// The prohibitions of a restriction through a chain of via ways: each
/// pair of consecutive ways in `from, vias.., to` must share exactly one
/// node, and every stretch of a via way between its shared nodes must have
/// edges.
pub open spec fn ways_candidate_items(
    c: TurnRestrictionCandidate,
    via_ids: Seq<i64>,
    ways: Seq<WayNodes>,
    lookup: Map<i64, u32>,
    edges: Seq<DirectedEdge>,
) -> Seq<(Seq<u32>, u16, i64, RestrictionKind)> {
    if via_ids.len() == 0 {
        seq![]
    } else {
        match (way_position(ways, c.from_way_id), way_position(ways, c.to_way_id), via_positions(ways, via_ids)) {
            (Some(fp), Some(tp), Some(vp)) => {
                let pos = seq![fp as usize] + vp + seq![tp as usize];
                match shared_upto(chain_nodes(ways, pos), pos.len() - 1) {
                    None => seq![],
                    Some(shared) => if !(lookup.contains_key(shared[0]) && lookup.contains_key(shared.last())) {
                        seq![]
                    } else {
                        let entry = lookup[shared[0]];
                        let exit = lookup[shared.last()];
                        let inc = ids_into(edges, c.from_way_id, entry);
                        let allowed = ids_out_of(edges, c.to_way_id, exit);
                        if inc.len() == 0 || allowed.len() == 0 {
                            seq![]
                        } else {
                            match via_path_upto(ways, vp, shared, lookup, edges, vp.len() as int) {
                                None => seq![],
                                Some(via) => if via.len() == 0 {
                                    seq![]
                                } else {
                                    terminal_items(c, inc, via, allowed, ids_leaving(edges, exit)) + (
                                    match c.kind {
                                        RestrictionKind::OnlyTurn => intermediate_items(c, inc, via, entry, edges),
                                        RestrictionKind::NoTurn => seq![],
                                    })
                                },
                            }
                        }
                    },
                }
            },
            _ => seq![],
        }
    }
}

/// The prohibitions of one candidate, in the order they are produced.
pub open spec fn candidate_items(
    c: TurnRestrictionCandidate,
    ways: Seq<WayNodes>,
    lookup: Map<i64, u32>,
    edges: Seq<DirectedEdge>,
) -> Seq<(Seq<u32>, u16, i64, RestrictionKind)> {
    match c.via {
        ViaSpec::Node(n) => node_candidate_items(c, n, lookup, edges),
        ViaSpec::Ways(ids) => ways_candidate_items(c, ids@, ways, lookup, edges),
    }
}

/// The prohibitions of all candidates, in order.
pub open spec fn all_items(
    cands: Seq<TurnRestrictionCandidate>,
    ways: Seq<WayNodes>,
    lookup: Map<i64, u32>,
    edges: Seq<DirectedEdge>,
) -> Seq<(Seq<u32>, u16, i64, RestrictionKind)>
    decreases cands.len(),
{
    if cands.len() == 0 {
        seq![]
    } else {
        all_items(cands.drop_last(), ways, lookup, edges) + candidate_items(cands.last(), ways, lookup, edges)
    }
}

fn leaving_of<'a>(ix: &'a EdgeIndex, node: u32, empty: &'a Vec<u32>, Ghost(edges): Ghost<Seq<DirectedEdge>>) -> (r: &'a Vec<u32>)
    requires
        ix.indexes(edges),
        empty@.len() == 0,
    ensures
        r@ == ids_leaving(edges, node),
{
    match ix.leaving.get(&node) {
        Some(v) => v,
        None => {
            assert(empty@ =~= ids_leaving(edges, node));
            empty
        },
    }
}

fn expand_candidate(
    em: &mut Emitter,
    c: &TurnRestrictionCandidate,
    ways: &Vec<WayNodes>,
    positions: &HashMap<i64, usize>,
    lookup: &HashMap<i64, u32>,
    edges: &Vec<DirectedEdge>,
    ix: &EdgeIndex,
)
    requires
        old(em).wf(),
        ix.indexes(edges@),
        ids_index_edges(edges@),
        forall|id: i64|
            #![trigger way_position(ways@, id)]
            (positions@.contains_key(id) <==> way_position(ways@, id) is Some) && (positions@.contains_key(id)
                ==> way_position(ways@, id) == Some(positions@[id] as int)),
    ensures
        final(em).wf(),
        final(em).view() == dedup_onto(old(em).view(), candidate_items(*c, ways@, lookup@, edges@)),
{
    let ghost v0 = em.view();
    let empty: Vec<u32> = Vec::new();
    match &c.via {
        ViaSpec::Node(via_node) => {
            let vn = match lookup.get(via_node) {
                Some(n) => *n,
                None => {
                    return;
                },
            };
            let inc = match ix.incoming.get(&way_node_key_exec(c.from_way_id, vn)) {
                Some(v) => v,
                None => {
                    return;
                },
            };
            let allowed = match ix.outgoing.get(&way_node_key_exec(c.to_way_id, vn)) {
                Some(v) => v,
                None => {
                    return;
                },
            };
            let outs = leaving_of(ix, vn, &empty, Ghost(edges@));
            let no_via: Vec<u32> = Vec::new();
            assert(no_via@ =~= Seq::<u32>::empty());
            emit_terminal(em, c, inc, &no_via, allowed, outs);
        },
        ViaSpec::Ways(via_ids) => {
            if via_ids.len() == 0 {
                return;
            }
            proof {
                lemma_way_position_bounds(ways@, c.from_way_id);
                lemma_way_position_bounds(ways@, c.to_way_id);
            }
            let fp = match positions.get(&c.from_way_id) {
                Some(p) => *p,
                None => {
                    return;
                },
            };
            let tp = match positions.get(&c.to_way_id) {
                Some(p) => *p,
                None => {
                    return;
                },
            };
            assert(way_position(ways@, c.to_way_id) == Some(tp as int));
            let mut vps: Vec<usize> = Vec::new();
            let mut k: usize = 0;
            proof {
                assert(via_ids@.take(0) =~= Seq::<i64>::empty());
            }
            #[verifier::loop_isolation(false)]
            while k < via_ids.len()
                invariant
                    k <= via_ids@.len(),
                    forall|id: i64|
                        #![trigger way_position(ways@, id)]
                        (positions@.contains_key(id) <==> way_position(ways@, id) is Some) && (
                        positions@.contains_key(id) ==> way_position(ways@, id) == Some(positions@[id] as int)),
                    via_positions(ways@, via_ids@.take(k as int)) == Some(vps@),
                    forall|i: int| 0 <= i < vps@.len() ==> (#[trigger] vps@[i] as int) < ways@.len(),
                decreases via_ids@.len() - k,
            {
                let id = via_ids[k];
                proof {
                    lemma_way_position_bounds(ways@, id);
                    assert(via_ids@.take(k + 1).drop_last() =~= via_ids@.take(k as int));
                }
                match positions.get(&id) {
                    Some(p) => {
                        vps.push(*p);
                    },
                    None => {
                        proof {
                            assert(way_position(ways@, id) is None);
                            assert(via_positions(ways@, via_ids@.take(k + 1)) is None);
                            lemma_via_positions_none(ways@, via_ids@, k + 1);
                            assert(via_ids@.take(via_ids@.len() as int) =~= via_ids@);
                        }
                        return;
                    },
                }
                k += 1;
            }
            proof {
                assert(via_ids@.take(via_ids@.len() as int) =~= via_ids@);
            }
            let mut pos: Vec<usize> = Vec::new();
            pos.push(fp);
            let mut q: usize = 0;
            while q < vps.len()
                invariant
                    q <= vps@.len(),
                    pos@ == seq![fp] + vps@.take(q as int),
                decreases vps@.len() - q,
            {
                pos.push(vps[q]);
                proof {
                    assert(vps@.take(q + 1) =~= vps@.take(q as int).push(vps@[q as int]));
                    assert(pos@ =~= seq![fp] + vps@.take(q + 1));
                }
                q += 1;
            }
            pos.push(tp);
            proof {
                assert(vps@.take(vps@.len() as int) =~= vps@);
                assert(pos@ =~= seq![fp] + vps@ + seq![tp]);
                assert forall|i: int| 0 <= i < pos@.len() implies (#[trigger] pos@[i] as int) < ways@.len() by {
                    if 0 < i < pos@.len() - 1 {
                        assert(pos@[i] == vps@[i - 1]);
                    }
                }
            }
            let shared = match shared_chain(ways, &pos) {
                Some(s) => s,
                None => {
                    return;
                },
            };
            proof {
                lemma_shared_upto_len(chain_nodes(ways@, pos@), pos@.len() - 1);
            }
            let entry = match lookup.get(&shared[0]) {
                Some(n) => *n,
                None => {
                    return;
                },
            };
            let exit = match lookup.get(&shared[shared.len() - 1]) {
                Some(n) => *n,
                None => {
                    return;
                },
            };
            let inc = match ix.incoming.get(&way_node_key_exec(c.from_way_id, entry)) {
                Some(v) => v,
                None => {
                    return;
                },
            };
            let allowed = match ix.outgoing.get(&way_node_key_exec(c.to_way_id, exit)) {
                Some(v) => v,
                None => {
                    return;
                },
            };
            let via = match via_path(ways, &vps, &shared, lookup, ix, Ghost(edges@)) {
                Some(v) => v,
                None => {
                    return;
                },
            };
            if via.len() == 0 {
                return;
            }
            proof {
                lemma_via_path_below(ways@, vps@, shared@, lookup@, edges@, vps@.len() as int);
            }
            let outs = leaving_of(ix, exit, &empty, Ghost(edges@));
            let ghost t = terminal_items(*c, inc@, via@, allowed@, outs@);
            emit_terminal(em, c, inc, &via, allowed, outs);
            match c.kind {
                RestrictionKind::OnlyTurn => {
                    let ghost v1 = em.view();
                    emit_intermediate(em, c, inc, &via, entry, edges, ix);
                    proof {
                        lemma_dedup_onto_append(v0, t, intermediate_items(*c, inc@, via@, entry, edges@));
                    }
                },
                RestrictionKind::NoTurn => {
                    proof {
                        assert(t + Seq::<(Seq<u32>, u16, i64, RestrictionKind)>::empty() =~= t);
                    }
                },
            }
        },
    }
}

proof fn lemma_via_positions_none(ways: Seq<WayNodes>, ids: Seq<i64>, k: int)
    requires
        0 <= k <= ids.len(),
        via_positions(ways, ids.take(k)) is None,
    ensures
        via_positions(ways, ids.take(ids.len() as int)) is None,
    decreases ids.len() - k,
{
    if k < ids.len() {
        assert(ids.take(k + 1).drop_last() =~= ids.take(k));
        lemma_via_positions_none(ways, ids, k + 1);
    }
}

// ---------------------------------------------------------------------------
// Ordering the result.
// ---------------------------------------------------------------------------
/// The order key of a prohibition: its first edge, its length, its last
/// edge, its mode mask and its relation.
pub open spec fn prohibition_key(it: (Seq<u32>, u16, i64, RestrictionKind)) -> (u32, int, u32, u16, i64) {
    (it.0[0], it.0.len() as int, it.0.last(), it.1, it.2)
}

/// Lexicographic order of prohibition keys, strict.
pub open spec fn key_lt(a: (u32, int, u32, u16, i64), b: (u32, int, u32, u16, i64)) -> bool {
    a.0 < b.0 || (a.0 == b.0 && (a.1 < b.1 || (a.1 == b.1 && (a.2 < b.2 || (a.2 == b.2 && (a.3 < b.3 || (a.3
        == b.3 && a.4 < b.4)))))))
}

/// `out` is `d` sorted by key, keeping equal keys in their order in `d`;
/// `p` tells where each entry of `out` stood in `d`.
pub open spec fn stably_sorted(
    out: Seq<(Seq<u32>, u16, i64, RestrictionKind)>,
    d: Seq<(Seq<u32>, u16, i64, RestrictionKind)>,
    p: Seq<int>,
) -> bool {
    &&& out.len() == d.len()
    &&& p.len() == d.len()
    &&& forall|k: int| 0 <= k < out.len() ==> 0 <= #[trigger] p[k] < d.len() && out[k] == d[p[k]]
    &&& forall|k: int, l: int| 0 <= k < l < out.len() ==> #[trigger] p[k] != #[trigger] p[l]
    &&& forall|k: int, l: int|
        0 <= k < l < out.len() ==> key_lt(prohibition_key(#[trigger] out[k]), prohibition_key(#[trigger] out[l]))
            || (prohibition_key(out[k]) == prohibition_key(out[l]) && p[k] < p[l])
}

/// A turn restriction as a prohibition.
pub open spec fn restriction_view(t: TurnRestriction) -> (Seq<u32>, u16, i64, RestrictionKind) {
    (
        t.edge_path@.map_values(|e: EdgeId| e.0),
        t.mode_mask.0,
        t.relation_id,
        match t.kind {
            TurnRestrictionKind::NoTurn => RestrictionKind::NoTurn,
            TurnRestrictionKind::OnlyTurn => RestrictionKind::OnlyTurn,
        },
    )
}

/// Turn restrictions as prohibitions.
pub open spec fn restrictions_view(s: Seq<TurnRestriction>) -> Seq<(Seq<u32>, u16, i64, RestrictionKind)> {
    s.map_values(|t: TurnRestriction| restriction_view(t))
}

pub open spec fn key6_le(a: (u32, u64, u32, u16, i64, u64), b: (u32, u64, u32, u16, i64, u64)) -> bool {
    a.0 < b.0 || (a.0 == b.0 && (a.1 < b.1 || (a.1 == b.1 && (a.2 < b.2 || (a.2 == b.2 && (a.3 < b.3 || (a.3
        == b.3 && (a.4 < b.4 || (a.4 == b.4 && a.5 <= b.5)))))))))
}

/// `slice::sort_unstable` on tuples of integers: the keys in increasing
/// lexicographic order, each kept as often as it occurred.
#[verifier::external_body]
fn sort_prohibition_keys(keys: &mut Vec<(u32, u64, u32, u16, i64, u64)>)
    ensures
        final(keys)@.to_multiset() == old(keys)@.to_multiset(),
        forall|i: int, j: int|
            0 <= i < j < final(keys)@.len() ==> key6_le(#[trigger] final(keys)@[i], #[trigger] final(keys)@[j]),
{
    keys.sort_unstable();
}

/// The `q`-th sorted key is the key of some prohibition below `n`.
pub open spec fn sorted_from_entry(
    after: Seq<(u32, u64, u32, u16, i64, u64)>,
    d: Seq<(Seq<u32>, u16, i64, RestrictionKind)>,
    n: int,
    q: int,
) -> bool {
    exists|t: int| 0 <= t < n && after[q] == key_entry(d[t], t)
}

pub open spec fn key_entry(it: (Seq<u32>, u16, i64, RestrictionKind), j: int) -> (u32, u64, u32, u16, i64, u64) {
    (it.0[0], it.0.len() as u64, it.0.last(), it.1, it.2, j as u64)
}

fn edge_ids_of(ids: &Vec<u32>) -> (r: Vec<EdgeId>)
    ensures
        r@.map_values(|e: EdgeId| e.0) == ids@,
{
    let mut out: Vec<EdgeId> = Vec::new();
    let mut i: usize = 0;
    while i < ids.len()
        invariant
            i <= ids@.len(),
            out@.map_values(|e: EdgeId| e.0) == ids@.take(i as int),
        decreases ids@.len() - i,
    {
        out.push(EdgeId(ids[i]));
        proof {
            assert(ids@.take(i + 1) =~= ids@.take(i as int).push(ids@[i as int]));
            assert(out@.map_values(|e: EdgeId| e.0) =~= ids@.take(i + 1));
        }
        i += 1;
    }
    proof {
        assert(ids@.take(ids@.len() as int) =~= ids@);
    }
    out
}

/// Expands turn-restriction candidates into prohibited edge paths.
///
/// Candidates are expanded in order and a path is kept only the first
/// time it occurs for a mode mask; the result is ordered by first edge,
/// path length, last edge, mode mask and relation, keeping the expansion
/// order among equal keys.
pub fn build_turn_restrictions(
    candidates: &Vec<TurnRestrictionCandidate>,
    ways: &Vec<WayNodes>,
    node_lookup: &HashMap<i64, u32>,
    edges: &Vec<DirectedEdge>,
) -> (r: Vec<TurnRestriction>)
    requires
        ids_index_edges(edges@),
    ensures
        exists|p: Seq<int>|
            #[trigger] stably_sorted(
                restrictions_view(r@),
                dedup_onto(seq![], all_items(candidates@, ways@, node_lookup@, edges@)),
                p,
            ),
        prohibitions_distinct(restrictions_view(r@)),
{
    let ix = index_edges(edges);
    let positions = way_positions(ways);
    let mut em = Emitter { list: Vec::new(), seen: HashMap::new() };
    let ghost items = all_items(candidates@, ways@, node_lookup@, edges@);
    let mut i: usize = 0;
    proof {
        assert(candidates@.take(0) =~= Seq::<TurnRestrictionCandidate>::empty());
        assert(em.view() =~= Seq::<(Seq<u32>, u16, i64, RestrictionKind)>::empty());
    }
    while i < candidates.len()
        invariant
            i <= candidates@.len(),
            em.wf(),
            ix.indexes(edges@),
            ids_index_edges(edges@),
            forall|id: i64|
                #![trigger way_position(ways@, id)]
                (positions@.contains_key(id) <==> way_position(ways@, id) is Some) && (positions@.contains_key(id)
                    ==> way_position(ways@, id) == Some(positions@[id] as int)),
            em.view() == dedup_onto(seq![], all_items(candidates@.take(i as int), ways@, node_lookup@, edges@)),
        decreases candidates@.len() - i,
    {
        expand_candidate(&mut em, &candidates[i], ways, &positions, node_lookup, edges, &ix);
        proof {
            assert(candidates@.take(i + 1).drop_last() =~= candidates@.take(i as int));
            lemma_dedup_onto_append(
                seq![],
                all_items(candidates@.take(i as int), ways@, node_lookup@, edges@),
                candidate_items(candidates@[i as int], ways@, node_lookup@, edges@),
            );
        }
        i += 1;
    }
    proof {
        assert(candidates@.take(candidates@.len() as int) =~= candidates@);
    }
    let ghost d = em.view();
    let n = em.list.len();
    let mut keys: Vec<(u32, u64, u32, u16, i64, u64)> = Vec::new();
    let mut j: usize = 0;
    while j < n
        invariant
            n == em.list@.len(),
            em.wf(),
            d == em.view(),
            j <= n,
            keys@.len() == j,
            forall|q: int| 0 <= q < j ==> #[trigger] keys@[q] == key_entry(d[q], q),
            forall|q: int| 0 <= q < j ==> (#[trigger] d[q]).0.len() <= u64::MAX,
        decreases n - j,
    {
        let entry = &em.list[j];
        let len = entry.0.len();
        assert(d[j as int] == (entry.0@, entry.1, entry.2, entry.3));
        keys.push((entry.0[0], len as u64, entry.0[len - 1], entry.1, entry.2, j as u64));
        j += 1;
    }
    let ghost before = keys@;
    sort_prohibition_keys(&mut keys);
    let ghost after = keys@;
    proof {
        assert(before.no_duplicates()) by {
            assert forall|a: int, b: int| 0 <= a < before.len() && 0 <= b < before.len() && a != b implies before[a]
                != before[b] by {
                assert(before[a] == key_entry(d[a], a));
                assert(before[b] == key_entry(d[b], b));
            }
        }
        before.lemma_multiset_has_no_duplicates();
        after.lemma_multiset_has_no_duplicates_conv();
        assert(after.len() == before.len()) by {
            assert(after.to_multiset().len() == before.to_multiset().len());
        }
        assert forall|q: int| 0 <= q < n implies #[trigger] sorted_from_entry(after, d, n as int, q) by {
            assert(after.to_multiset().contains(after[q]));
            assert(before.contains(after[q]));
            let t = choose|t: int| 0 <= t < before.len() && before[t] == after[q];
            assert(after[q] == key_entry(d[t], t));
        }
    }
    let mut out: Vec<TurnRestriction> = Vec::new();
    let mut k: usize = 0;
    while k < n
        invariant
            n == em.list@.len(),
            em.wf(),
            d == em.view(),
            after == keys@,
            after.len() == n,
            k <= n,
            out@.len() == k,
            forall|q: int| 0 <= q < n ==> #[trigger] sorted_from_entry(after, d, n as int, q),
            forall|q: int| 0 <= q < n ==> (#[trigger] d[q]).0.len() <= u64::MAX,
            forall|q: int| 0 <= q < k ==> restriction_view(#[trigger] out@[q]) == d[after[q].5 as int] && (after[q].5 as int) < n,
        decreases n - k,
    {
        let idx = keys[k].5 as usize;
        proof {
            assert(sorted_from_entry(after, d, n as int, k as int));
            let t = choose|t: int| 0 <= t < n && after[k as int] == key_entry(d[t], t);
            assert(after[k as int].5 == t as u64);
        }
        let entry = &em.list[idx];
        assert(d[idx as int] == (entry.0@, entry.1, entry.2, entry.3));
        let kind = match entry.3 {
            RestrictionKind::NoTurn => TurnRestrictionKind::NoTurn,
            RestrictionKind::OnlyTurn => TurnRestrictionKind::OnlyTurn,
        };
        let restriction = TurnRestriction {
            relation_id: entry.2,
            kind,
            edge_path: edge_ids_of(&entry.0),
            mode_mask: crate::graph::AccessMask(entry.1),
        };
        out.push(restriction);
        proof {
            assert(restriction_view(out@[k as int]) == d[idx as int]);
        }
        k += 1;
    }
    proof {
        let ov = restrictions_view(out@);
        let p = Seq::new(n as nat, |q: int| after[q].5 as int);
        assert forall|a: int| 0 <= a < n implies (#[trigger] after[a]) == key_entry(d[p[a]], p[a]) && d[p[a]].0.len() > 0 by {
            assert(sorted_from_entry(after, d, n as int, a));
            let t = choose|t: int| 0 <= t < n && after[a] == key_entry(d[t], t);
            assert(after[a].5 == t as u64);
            assert(d[t] == (em.list@[t].0@, em.list@[t].1, em.list@[t].2, em.list@[t].3));
        }
        assert(ov.len() == n && d.len() == n);
        assert forall|a: int| 0 <= a < ov.len() implies 0 <= #[trigger] p[a] < d.len() && ov[a] == d[p[a]] by {
            assert(ov[a] == restriction_view(out@[a]));
        }
        assert forall|a: int, b: int| 0 <= a < b < n implies #[trigger] p[a] != #[trigger] p[b] by {
            assert(after[a] == key_entry(d[p[a]], p[a]));
            assert(after[b] == key_entry(d[p[b]], p[b]));
        }
        assert forall|a: int, b: int| 0 <= a < b < n implies key_lt(prohibition_key(#[trigger] ov[a]), prohibition_key(
            #[trigger] ov[b],
        )) || (prohibition_key(ov[a]) == prohibition_key(ov[b]) && p[a] < p[b]) by {
            assert(after[a] == key_entry(d[p[a]], p[a]));
            assert(after[b] == key_entry(d[p[b]], p[b]));
            assert(key6_le(after[a], after[b]));
            assert(after[a] != after[b]);
            assert(0 <= p[a] < n && 0 <= p[b] < n);
            assert(d[p[a]].0.len() <= u64::MAX);
            assert(d[p[b]].0.len() <= u64::MAX);
            assert(after[a].1 as int == d[p[a]].0.len());
            assert(after[b].1 as int == d[p[b]].0.len());
            assert(after[a].5 as int == p[a]);
            assert(after[b].5 as int == p[b]);
            assert(ov[a] == restriction_view(out@[a]));
            assert(ov[b] == restriction_view(out@[b]));
        }
        assert(stably_sorted(ov, d, p));
        lemma_dedup_distinct(seq![], all_items(candidates@, ways@, node_lookup@, edges@));
        assert forall|a: int, c: int| 0 <= a < ov.len() && 0 <= c < ov.len() && a != c implies !same_prohibition(
            #[trigger] ov[a],
            #[trigger] ov[c],
        ) by {
            assert(ov[a] == d[p[a]] && ov[c] == d[p[c]]);
            if a < c {
                assert(p[a] != p[c]);
            } else {
                assert(p[c] != p[a]);
            }
        }
    }
    out
}

// ---------------------------------------------------------------------------
// Pairwise prohibitions for one mode.
// ---------------------------------------------------------------------------
/// Restriction `r` applies to the mode bit and forbids turning from `e`
/// straight onto `t`.
pub open spec fn forbids_pair(r: TurnRestriction, mode_bit: u16, e: int, t: u32) -> bool {
    &&& r.mode_mask.0 & mode_bit != 0
    &&& r.edge_path@.len() == 2
    &&& r.edge_path@[0].0 as int == e
    &&& r.edge_path@[1].0 == t
}

/// The edges that some restriction forbids turning onto from `e`.
pub open spec fn forbidden_after(restrictions: Seq<TurnRestriction>, mode_bit: u16, e: int, t: u32) -> bool {
    exists|k: int| 0 <= k < restrictions.len() && #[trigger] forbids_pair(restrictions[k], mode_bit, e, t)
}

/// `slice::sort_unstable` on edge ids: increasing, each kept as often as
/// it occurred.
#[verifier::external_body]
fn sort_edge_ids(ids: &mut Vec<u32>)
    ensures
        final(ids)@.to_multiset() == old(ids)@.to_multiset(),
        forall|i: int, j: int| 0 <= i < j < final(ids)@.len() ==> #[trigger] final(ids)@[i] <= #[trigger] final(ids)@[j],
{
    ids.sort_unstable();
}

fn copy_ids(ids: &Vec<u32>) -> (r: Vec<u32>)
    ensures
        r@ == ids@,
{
    let mut out: Vec<u32> = Vec::new();
    let mut i: usize = 0;
    while i < ids.len()
        invariant
            i <= ids@.len(),
            out@ == ids@.take(i as int),
        decreases ids@.len() - i,
    {
        out.push(ids[i]);
        proof {
            assert(ids@.take(i + 1) =~= ids@.take(i as int).push(ids@[i as int]));
        }
        i += 1;
    }
    proof {
        assert(ids@.take(ids@.len() as int) =~= ids@);
    }
    out
}

fn dedup_sorted(ids: &Vec<u32>) -> (r: Vec<u32>)
    requires
        forall|i: int, j: int| 0 <= i < j < ids@.len() ==> #[trigger] ids@[i] <= #[trigger] ids@[j],
    ensures
        forall|i: int, j: int| 0 <= i < j < r@.len() ==> #[trigger] r@[i] < #[trigger] r@[j],
        forall|t: u32| r@.contains(t) <==> ids@.contains(t),
{
    let mut out: Vec<u32> = Vec::new();
    let mut i: usize = 0;
    while i < ids.len()
        invariant
            i <= ids@.len(),
            forall|a: int, b: int| 0 <= a < b < ids@.len() ==> #[trigger] ids@[a] <= #[trigger] ids@[b],
            forall|a: int, b: int| 0 <= a < b < out@.len() ==> #[trigger] out@[a] < #[trigger] out@[b],
            forall|t: u32| out@.contains(t) <==> ids@.take(i as int).contains(t),
            i > 0 ==> out@.len() > 0 && out@.last() == ids@[i - 1],
            out@.len() <= i,
        decreases ids@.len() - i,
    {
        let x = ids[i];
        let ghost prev = out@;
        proof {
            assert(ids@.take(i + 1) =~= ids@.take(i as int).push(x));
            assert forall|t: u32| ids@.take(i + 1).contains(t) <==> (ids@.take(i as int).contains(t) || t == x) by {
                if ids@.take(i + 1).contains(t) {
                    let j = choose|j: int| 0 <= j < i + 1 && #[trigger] ids@.take(i + 1)[j] == t;
                    if j < i {
                        assert(ids@.take(i as int)[j] == t);
                    }
                }
                if ids@.take(i as int).contains(t) {
                    let j = choose|j: int| 0 <= j < i && #[trigger] ids@.take(i as int)[j] == t;
                    assert(ids@.take(i + 1)[j] == t);
                }
                if t == x {
                    assert(ids@.take(i + 1)[i as int] == t);
                }
            }
        }
        if out.len() == 0 || out[out.len() - 1] != x {
            proof {
                if i > 0 {
                    assert(ids@[i - 1] <= x);
                    assert(prev.last() < x);
                }
            }
            out.push(x);
            proof {
                assert forall|a: int, b: int| 0 <= a < b < out@.len() implies #[trigger] out@[a] < #[trigger] out@[b] by {
                    if b == out@.len() - 1 && a < b {
                        assert(out@[a] == prev[a] && out@[b] == x);
                        assert(prev.len() > 0 && prev.last() < x);
                        if a < prev.len() - 1 {
                            assert(prev[a] < prev[prev.len() - 1]);
                        }
                    } else {
                        assert(out@[a] == prev[a] && out@[b] == prev[b]);
                    }
                }
                assert forall|t: u32| out@.contains(t) <==> ids@.take(i + 1).contains(t) by {
                    if out@.contains(t) {
                        let j = choose|j: int| 0 <= j < out@.len() && out@[j] == t;
                        if j < prev.len() {
                            assert(prev[j] == t);
                        }
                    }
                    if prev.contains(t) {
                        let j = choose|j: int| 0 <= j < prev.len() && prev[j] == t;
                        assert(out@[j] == t);
                    }
                    if t == x {
                        assert(out@[out@.len() - 1] == t);
                    }
                }
            }
        } else {
            proof {
                assert(prev[prev.len() - 1] == x);
                assert(prev.contains(x));
            }
        }
        i += 1;
    }
    proof {
        assert(ids@.take(ids@.len() as int) =~= ids@);
    }
    out
}

/// For each edge, the increasing list of edges that a two-edge
/// restriction for the mode forbids turning onto from it.
pub fn pairwise_forbidden_turns(restrictions: &Vec<TurnRestriction>, edge_count: usize, mode_bit: u16) -> (r: Vec<
    Vec<u32>,
>)
    requires
        forall|k: int|
            0 <= k < restrictions@.len() && (#[trigger] restrictions@[k]).edge_path@.len() == 2 ==> (
            restrictions@[k].edge_path@[0].0 as int) < edge_count,
    ensures
        r@.len() == edge_count,
        forall|e: int, i: int, j: int|
            0 <= e < edge_count && 0 <= i < j < r@[e]@.len() ==> #[trigger] r@[e]@[i] < #[trigger] r@[e]@[j],
        forall|e: int, t: u32|
            0 <= e < edge_count ==> (#[trigger] r@[e]@.contains(t) <==> forbidden_after(restrictions@, mode_bit, e, t)),
{
    let mut rows: Vec<Vec<u32>> = Vec::new();
    let mut e: usize = 0;
    while e < edge_count
        invariant
            e <= edge_count,
            rows@.len() == e,
            forall|q: int| 0 <= q < e ==> (#[trigger] rows@[q])@.len() == 0,
        decreases edge_count - e,
    {
        rows.push(Vec::new());
        e += 1;
    }
    let mut k: usize = 0;
    while k < restrictions.len()
        invariant
            k <= restrictions@.len(),
            rows@.len() == edge_count,
            forall|q: int|
                0 <= q < restrictions@.len() && (#[trigger] restrictions@[q]).edge_path@.len() == 2 ==> (
                restrictions@[q].edge_path@[0].0 as int) < edge_count,
            forall|f: int, t: u32|
                0 <= f < edge_count ==> (#[trigger] rows@[f]@.contains(t) <==> exists|q: int|
                    0 <= q < k && #[trigger] forbids_pair(restrictions@[q], mode_bit, f, t)),
        decreases restrictions@.len() - k,
    {
        let r = &restrictions[k];
        if r.mode_mask.0 & mode_bit != 0 && r.edge_path.len() == 2 {
            let from = r.edge_path[0].0 as usize;
            let to = r.edge_path[1].0;
            let ghost before = rows@;
            let mut row = copy_ids(&rows[from]);
            let ghost old_row = row@;
            row.push(to);
            rows.set(from, row);
            proof {
                assert forall|f: int, t: u32| 0 <= f < edge_count implies (#[trigger] rows@[f]@.contains(t) <==> exists|q: int|
                    0 <= q < k + 1 && #[trigger] forbids_pair(restrictions@[q], mode_bit, f, t)) by {
                    if rows@[f]@.contains(t) && !(exists|q: int| 0 <= q < k && #[trigger] forbids_pair(restrictions@[q], mode_bit, f, t)) {
                        if f == from as int {
                            let i = choose|i: int| 0 <= i < rows@[f]@.len() && rows@[f]@[i] == t;
                            if i < old_row.len() {
                                assert(old_row[i] == t);
                                assert(old_row.contains(t));
                            }
                            assert(forbids_pair(restrictions@[k as int], mode_bit, f, t));
                        } else {
                            assert(rows@[f] == before[f]);
                        }
                    }
                    if exists|q: int| 0 <= q < k + 1 && #[trigger] forbids_pair(restrictions@[q], mode_bit, f, t) {
                        let q = choose|q: int| 0 <= q < k + 1 && #[trigger] forbids_pair(restrictions@[q], mode_bit, f, t);
                        if q == k {
                            assert(f == from as int);
                            assert(rows@[f]@.last() == t);
                        } else if f == from as int {
                            assert(old_row.contains(t));
                            let i = choose|i: int| 0 <= i < old_row.len() && old_row[i] == t;
                            assert(rows@[f]@[i] == t);
                        } else {
                            assert(rows@[f] == before[f]);
                        }
                    }
                }
            }
        } else {
            proof {
                assert forall|f: int, t: u32| 0 <= f < edge_count implies (#[trigger] rows@[f]@.contains(t) <==> exists|q: int|
                    0 <= q < k + 1 && #[trigger] forbids_pair(restrictions@[q], mode_bit, f, t)) by {
                    if exists|q: int| 0 <= q < k + 1 && #[trigger] forbids_pair(restrictions@[q], mode_bit, f, t) {
                        let q = choose|q: int| 0 <= q < k + 1 && #[trigger] forbids_pair(restrictions@[q], mode_bit, f, t);
                        assert(q != k);
                    }
                }
            }
        }
        k += 1;
    }
    proof {
        assert forall|f: int, t: u32| 0 <= f < edge_count implies (#[trigger] rows@[f]@.contains(t) <==> forbidden_after(
            restrictions@,
            mode_bit,
            f,
            t,
        )) by {
            if rows@[f]@.contains(t) {
                let q = choose|q: int| 0 <= q < restrictions@.len() && #[trigger] forbids_pair(restrictions@[q], mode_bit, f, t);
            }
        }
    }
    let mut out: Vec<Vec<u32>> = Vec::new();
    let mut e: usize = 0;
    while e < edge_count
        invariant
            e <= edge_count,
            rows@.len() == edge_count,
            out@.len() == e,
            forall|f: int, t: u32|
                0 <= f < edge_count ==> (#[trigger] rows@[f]@.contains(t) <==> forbidden_after(restrictions@, mode_bit, f, t)),
            forall|f: int, i: int, j: int|
                0 <= f < e && 0 <= i < j < out@[f]@.len() ==> #[trigger] out@[f]@[i] < #[trigger] out@[f]@[j],
            forall|f: int, t: u32| 0 <= f < e ==> (#[trigger] out@[f]@.contains(t) <==> rows@[f]@.contains(t)),
        decreases edge_count - e,
    {
        let mut row = copy_ids(&rows[e]);
        let ghost before = row@;
        sort_edge_ids(&mut row);
        proof {
            assert forall|t: u32| row@.contains(t) <==> before.contains(t) by {
                if row@.contains(t) {
                    assert(row@.to_multiset().contains(t));
                }
                if before.contains(t) {
                    assert(before.to_multiset().contains(t));
                }
            }
        }
        let unique = dedup_sorted(&row);
        out.push(unique);
        e += 1;
    }
    proof {
        assert forall|f: int, t: u32| 0 <= f < edge_count implies (#[trigger] out@[f]@.contains(t) <==> forbidden_after(
            restrictions@,
            mode_bit,
            f,
            t,
        )) by {
            assert(rows@[f]@.contains(t) <==> forbidden_after(restrictions@, mode_bit, f, t));
        }
    }
    out
}

} // verus!
