//! Weakly connected components of a directed graph, labelled by order of
//! first appearance.

use vstd::prelude::*;
use std::collections::BTreeMap;

use crate::graph::DirectedEdge;
use crate::topology::endpoints_below;
use crate::union_find::{
    find_component_root, lemma_root, root_of, uf_inv, uf_wf, union_components,
};

verus! {

broadcast use {vstd::laws_cmp::group_laws_cmp, vstd::std_specs::btree::group_btree_axioms};

// ---------------------------------------------------------------------------
// Weak connectivity.
// ---------------------------------------------------------------------------
/// Edge `e` joins `a` and `b`, in either direction.
pub open spec fn edge_joins(e: DirectedEdge, a: int, b: int) -> bool {
    (e.from.0 == a && e.to.0 == b) || (e.from.0 == b && e.to.0 == a)
}

/// Some edge joins `a` and `b`.
pub open spec fn linked(edges: Seq<DirectedEdge>, a: int, b: int) -> bool {
    exists|i: int| 0 <= i < edges.len() && #[trigger] edge_joins(edges[i], a, b)
}

pub open spec fn step_ok(edges: Seq<DirectedEdge>, path: Seq<int>, k: int) -> bool {
    linked(edges, path[k], path[k + 1])
}

/// `path` is a walk that ignores edge directions.
pub open spec fn is_walk(edges: Seq<DirectedEdge>, path: Seq<int>) -> bool {
    path.len() > 0 && forall|k: int| 0 <= k < path.len() - 1 ==> #[trigger] step_ok(edges, path, k)
}

/// `a` and `b` are weakly connected.
pub open spec fn connected(edges: Seq<DirectedEdge>, a: int, b: int) -> bool {
    exists|path: Seq<int>| #[trigger] is_walk(edges, path) && path[0] == a && path.last() == b
}

proof fn lemma_connected_refl(edges: Seq<DirectedEdge>, a: int)
    ensures
        connected(edges, a, a),
{
    let p = seq![a];
    assert(is_walk(edges, p));
}

proof fn lemma_connected_sym(edges: Seq<DirectedEdge>, a: int, b: int)
    requires
        connected(edges, a, b),
    ensures
        connected(edges, b, a),
{
    let p = choose|p: Seq<int>| #[trigger] is_walk(edges, p) && p[0] == a && p.last() == b;
    let q = p.reverse();
    assert forall|k: int| 0 <= k < q.len() - 1 implies #[trigger] step_ok(edges, q, k) by {
        let j = p.len() - 2 - k;
        assert(step_ok(edges, p, j));
        let i = choose|i: int| 0 <= i < edges.len() && #[trigger] edge_joins(edges[i], p[j], p[j + 1]);
        assert(edge_joins(edges[i], q[k], q[k + 1]));
    }
    assert(is_walk(edges, q));
}

proof fn lemma_connected_join(edges: Seq<DirectedEdge>, a: int, b: int, c: int, d: int)
    requires
        connected(edges, a, b),
        linked(edges, b, c),
        connected(edges, c, d),
    ensures
        connected(edges, a, d),
{
    let p = choose|p: Seq<int>| #[trigger] is_walk(edges, p) && p[0] == a && p.last() == b;
    let q = choose|q: Seq<int>| #[trigger] is_walk(edges, q) && q[0] == c && q.last() == d;
    let w = p + q;
    assert forall|k: int| 0 <= k < w.len() - 1 implies #[trigger] step_ok(edges, w, k) by {
        if k < p.len() - 1 {
            assert(step_ok(edges, p, k));
        } else if k == p.len() - 1 {
        } else {
            assert(step_ok(edges, q, k - p.len()));
        }
    }
    assert(is_walk(edges, w));
}

proof fn lemma_connected_extend(edges: Seq<DirectedEdge>, i: int, a: int, b: int)
    requires
        0 <= i < edges.len(),
        connected(edges.take(i), a, b),
    ensures
        connected(edges.take(i + 1), a, b),
{
    let small = edges.take(i);
    let big = edges.take(i + 1);
    let p = choose|p: Seq<int>| #[trigger] is_walk(small, p) && p[0] == a && p.last() == b;
    assert forall|k: int| 0 <= k < p.len() - 1 implies #[trigger] step_ok(big, p, k) by {
        assert(step_ok(small, p, k));
        let j = choose|j: int| 0 <= j < small.len() && #[trigger] edge_joins(small[j], p[k], p[k + 1]);
        assert(big[j] == small[j]);
    }
    assert(is_walk(big, p));
}

/// Nodes whose roots agree along every edge agree along every walk.
proof fn lemma_walk_same_root(
    edges: Seq<DirectedEdge>,
    parent: Seq<u32>,
    height: Seq<nat>,
    path: Seq<int>,
    k: int,
)
    requires
        is_walk(edges, path),
        0 <= k < path.len(),
        forall|e: int|
            0 <= e < edges.len() ==> root_of(parent, height, (#[trigger] edges[e]).from.0 as int)
                == root_of(parent, height, edges[e].to.0 as int),
    ensures
        root_of(parent, height, path[k]) == root_of(parent, height, path[0]),
    decreases k,
{
    if k > 0 {
        lemma_walk_same_root(edges, parent, height, path, k - 1);
        assert(step_ok(edges, path, k - 1));
        let i = choose|i: int| 0 <= i < edges.len() && #[trigger] edge_joins(edges[i], path[k - 1], path[k]);
        assert(edges[i] == edges[i]);
    }
}

// ---------------------------------------------------------------------------
// First-appearance labelling.
// ---------------------------------------------------------------------------
/// No node before `w` carries the label of `w`.
pub open spec fn is_first(ids: Seq<u32>, w: int) -> bool {
    forall|x: int| 0 <= x < w ==> ids[x] != ids[w]
}

/// The number of nodes below `v` that open a new label.
pub open spec fn firsts_below(ids: Seq<u32>, v: int) -> nat
    decreases v,
{
    if v <= 0 {
        0
    } else {
        firsts_below(ids, v - 1) + if is_first(ids, v - 1) {
            1nat
        } else {
            0nat
        }
    }
}

/// The number of positions below `k` that hold `c`.
pub open spec fn label_count(ids: Seq<u32>, c: int, k: int) -> nat
    decreases k,
{
    if k <= 0 {
        0
    } else {
        label_count(ids, c, k - 1) + if ids[k - 1] as int == c {
            1nat
        } else {
            0nat
        }
    }
}

/// `largest` is the greatest of the counts of labels `0..count` in `ids`,
/// or `0` when there are no labels.
pub open spec fn is_largest_count(ids: Seq<u32>, count: int, largest: int) -> bool {
    &&& forall|c: int| 0 <= c < count ==> #[trigger] label_count(ids, c, ids.len() as int) <= largest
    &&& (count == 0 ==> largest == 0)
    &&& (count > 0 ==> exists|c: int|
        0 <= c < count && #[trigger] label_count(ids, c, ids.len() as int) == largest)
}

proof fn lemma_firsts_push(ids: Seq<u32>, x: u32, v: int)
    requires
        0 <= v <= ids.len(),
    ensures
        firsts_below(ids.push(x), v) == firsts_below(ids, v),
        forall|w: int| 0 <= w < ids.len() ==> (#[trigger] is_first(ids.push(x), w) <==> is_first(ids, w)),
    decreases v,
{
    assert forall|w: int| 0 <= w < ids.len() implies (#[trigger] is_first(ids.push(x), w) <==> is_first(ids, w)) by {
        assert forall|y: int| 0 <= y < w implies ids.push(x)[y] == ids[y] by {}
    }
    if v > 0 {
        lemma_firsts_push(ids, x, v - 1);
    }
}

proof fn lemma_label_count_push(ids: Seq<u32>, x: u32, c: int, k: int)
    requires
        0 <= k <= ids.len(),
    ensures
        label_count(ids.push(x), c, k) == label_count(ids, c, k),
    decreases k,
{
    if k > 0 {
        lemma_label_count_push(ids, x, c, k - 1);
    }
}

proof fn lemma_label_count_zero(ids: Seq<u32>, c: int, k: int)
    requires
        0 <= k <= ids.len(),
        forall|u: int| 0 <= u < k ==> ids[u] as int != c,
    ensures
        label_count(ids, c, k) == 0,
    decreases k,
{
    if k > 0 {
        lemma_label_count_zero(ids, c, k - 1);
    }
}

/// The greatest count, or `0` for no counts.
fn largest_count(counts: &Vec<u64>) -> (r: u64)
    ensures
        forall|c: int| 0 <= c < counts@.len() ==> #[trigger] counts@[c] <= r,
        counts@.len() == 0 ==> r == 0,
        counts@.len() > 0 ==> exists|c: int| 0 <= c < counts@.len() && #[trigger] counts@[c] == r,
{
    let mut best: u64 = 0;
    let mut i: usize = 0;
    while i < counts.len()
        invariant
            i <= counts@.len(),
            forall|c: int| 0 <= c < i ==> #[trigger] counts@[c] <= best,
            i == 0 ==> best == 0,
            i > 0 ==> exists|c: int| 0 <= c < i && #[trigger] counts@[c] == best,
        decreases counts@.len() - i,
    {
        if i == 0 || counts[i] > best {
            best = counts[i];
        }
        i += 1;
    }
    best
}

proof fn lemma_firsts_le(ids: Seq<u32>, v: int)
    requires
        v >= 0,
    ensures
        firsts_below(ids, v) <= v,
    decreases v,
{
    if v > 0 {
        lemma_firsts_le(ids, v - 1);
    }
}

proof fn lemma_label_count_le(ids: Seq<u32>, c: int, k: int)
    requires
        k >= 0,
    ensures
        label_count(ids, c, k) <= k,
    decreases k,
{
    if k > 0 {
        lemma_label_count_le(ids, c, k - 1);
    }
}

/// The component labels of the nodes and of the edges of a graph.
#[derive(Debug, Clone)]
pub struct WeakComponentLabels {
    pub node_component_ids: Vec<u32>,
    pub edge_component_ids: Vec<u32>,
    pub component_count: u32,
    pub largest_component_node_count: u64,
    pub largest_component_edge_count: u64,
}

/// Labels the weakly connected components of the graph on `node_count`
/// nodes: two nodes share a label exactly when a walk that ignores edge
/// directions joins them, labels are numbered by the first node that
/// carries them, and each edge carries the label of its tail.
pub fn label_weak_components(node_count: usize, edges: &Vec<DirectedEdge>) -> (r:
    WeakComponentLabels)
    requires
        node_count <= u32::MAX,
        endpoints_below(edges@, node_count as int),
    ensures
        r.node_component_ids@.len() == node_count,
        r.edge_component_ids@.len() == edges@.len(),
        forall|a: int, b: int|
            0 <= a < node_count && 0 <= b < node_count ==> (r.node_component_ids@[a]
                == r.node_component_ids@[b] <==> #[trigger] connected(edges@, a, b)),
        forall|v: int|
            0 <= v < node_count ==> #[trigger] r.node_component_ids@[v] < r.component_count,
        forall|v: int|
            0 <= v < node_count && #[trigger] is_first(r.node_component_ids@, v)
                ==> r.node_component_ids@[v] == firsts_below(r.node_component_ids@, v),
        r.component_count == firsts_below(r.node_component_ids@, node_count as int),
        forall|e: int|
            0 <= e < edges@.len() ==> #[trigger] r.edge_component_ids@[e]
                == r.node_component_ids@[edges@[e].from.0 as int],
        is_largest_count(
            r.node_component_ids@,
            r.component_count as int,
            r.largest_component_node_count as int,
        ),
        is_largest_count(
            r.edge_component_ids@,
            r.component_count as int,
            r.largest_component_edge_count as int,
        ),
{
    let ghost es = edges@;
    let ghost n = node_count as int;
    let mut parent: Vec<u32> = Vec::new();
    let mut rank: Vec<u8> = Vec::new();
    let mut k: u32 = 0;
    while (k as usize) < node_count
        invariant
            node_count <= u32::MAX,
            k as int <= node_count,
            parent@.len() == k,
            rank@.len() == k,
            forall|j: int| 0 <= j < k ==> #[trigger] parent@[j] == j as u32,
            forall|j: int| 0 <= j < k ==> #[trigger] rank@[j] == 0,
        decreases node_count - k,
    {
        parent.push(k);
        rank.push(0);
        k += 1;
    }
    let ghost mut height: Seq<nat> = Seq::new(node_count as nat, |j: int| 0nat);
    proof {
        assert(uf_wf(parent@, height));
        assert forall|j: int| 0 <= j < n implies #[trigger] root_of(parent@, height, j) == j by {}
        assert forall|x: int| 0 <= x < n && #[trigger] parent@[x] as int == x implies
            vstd::arithmetic::power2::pow2(rank@[x] as nat) <= crate::union_find::root_count(
            parent@,
            height,
            x,
            n,
        ) by {
            lemma_count_single(parent@, height, x, n);
            assert(vstd::arithmetic::power2::pow2(0) == 1) by {
                vstd::arithmetic::power2::lemma2_to64();
            }
        }
        assert forall|a: int, b: int|
            0 <= a < n && 0 <= b < n && root_of(parent@, height, a) == root_of(parent@, height, b)
            implies #[trigger] connected(es.take(0), a, b) by {
            lemma_connected_refl(es.take(0), a);
        }
    }
    let mut i: usize = 0;
    while i < edges.len()
        invariant
            es == edges@,
            n == node_count,
            endpoints_below(es, n),
            i <= es.len(),
            parent@.len() == n,
            uf_inv(parent@, rank@, height),
            forall|e: int|
                0 <= e < i ==> root_of(parent@, height, (#[trigger] es[e]).from.0 as int) == root_of(
                    parent@,
                    height,
                    es[e].to.0 as int,
                ),
            forall|a: int, b: int|
                0 <= a < n && 0 <= b < n && root_of(parent@, height, a) == root_of(parent@, height, b)
                    ==> #[trigger] connected(es.take(i as int), a, b),
        decreases es.len() - i,
    {
        let from = edges[i].from.0 as usize;
        let to = edges[i].to.0 as usize;
        let ghost p0 = parent@;
        let ghost h0 = height;
        let ghost ra = root_of(p0, h0, from as int);
        let ghost rb = root_of(p0, h0, to as int);
        let Ghost(h1) = union_components(&mut parent, &mut rank, from, to, Ghost(height));
        proof {
            height = h1;
            let p1 = parent@;
            let w = root_of(p1, h1, from as int);
            assert forall|e: int|
                0 <= e < i + 1 implies root_of(p1, h1, (#[trigger] es[e]).from.0 as int) == root_of(
                p1,
                h1,
                es[e].to.0 as int,
            ) by {
                if e < i {
                    assert(root_of(p0, h0, es[e].from.0 as int) == root_of(p0, h0, es[e].to.0 as int));
                }
            }
            assert(edge_joins(es.take(i + 1)[i as int], from as int, to as int));
            assert(linked(es.take(i + 1), from as int, to as int));
            assert forall|a: int, b: int|
                0 <= a < n && 0 <= b < n && root_of(p1, h1, a) == root_of(p1, h1, b)
                implies #[trigger] connected(es.take(i + 1), a, b) by {
                let oa = root_of(p0, h0, a);
                let ob = root_of(p0, h0, b);
                if oa == ob {
                    lemma_connected_extend(es, i as int, a, b);
                } else {
                    lemma_root(p0, h0, a);
                    lemma_root(p0, h0, b);
                    // Both were merged: one lies with `from`, the other with `to`.
                    assert(oa == ra || oa == rb);
                    assert(ob == ra || ob == rb);
                    if oa == ra {
                        assert(connected(es.take(i as int), a, from as int));
                        assert(connected(es.take(i as int), to as int, b));
                        lemma_connected_extend(es, i as int, a, from as int);
                        lemma_connected_extend(es, i as int, to as int, b);
                        lemma_connected_join(es.take(i + 1), a, from as int, to as int, b);
                    } else {
                        assert(connected(es.take(i as int), a, to as int));
                        assert(connected(es.take(i as int), from as int, b));
                        lemma_connected_extend(es, i as int, a, to as int);
                        lemma_connected_extend(es, i as int, from as int, b);
                        assert(edge_joins(es.take(i + 1)[i as int], to as int, from as int));
                        lemma_connected_join(es.take(i + 1), a, to as int, from as int, b);
                    }
                }
            }
        }
        i += 1;
    }
    proof {
        assert(es.take(es.len() as int) =~= es);
    }
    // Every node takes the label of its root, numbered by first appearance.
    let ghost p_done = parent@;
    let ghost h_done = height;
    let mut root_to_component: BTreeMap<u32, u32> = BTreeMap::new();
    let mut node_counts: Vec<u64> = Vec::new();
    let mut node_component_ids: Vec<u32> = Vec::new();
    let mut v: usize = 0;
    while v < node_count
        invariant
            n == node_count,
            n <= u32::MAX,
            v <= n,
            parent@.len() == n,
            uf_wf(parent@, height),
            height == h_done,
            uf_wf(p_done, h_done),
            p_done.len() == n,
            es == edges@,
            forall|e: int|
                0 <= e < es.len() ==> root_of(p_done, h_done, (#[trigger] es[e]).from.0 as int) == root_of(
                    p_done,
                    h_done,
                    es[e].to.0 as int,
                ),
            forall|a: int, b: int|
                0 <= a < n && 0 <= b < n && root_of(p_done, h_done, a) == root_of(p_done, h_done, b)
                    ==> #[trigger] connected(es, a, b),
            forall|j: int| 0 <= j < n ==> #[trigger] root_of(parent@, height, j) == root_of(p_done, h_done, j),
            node_component_ids@.len() == v,
            node_counts@.len() == root_to_component@.len(),
            root_to_component@.len() == firsts_below(node_component_ids@, v as int),
            root_to_component@.dom().finite(),
            forall|u: int| 0 <= u < v ==> #[trigger] node_component_ids@[u] < node_counts@.len(),
            forall|u: int|
                0 <= u < v ==> root_to_component@.contains_key(
                    root_of(p_done, h_done, u) as u32,
                ) && root_to_component@[root_of(p_done, h_done, u) as u32]
                    == #[trigger] node_component_ids@[u],
            forall|key: u32|
                #[trigger] root_to_component@.contains_key(key) ==> exists|u: int|
                    0 <= u < v && root_of(p_done, h_done, u) == key as int,
            forall|a: int, b: int|
                0 <= a < v && 0 <= b < v ==> (#[trigger] node_component_ids@[a]
                    == #[trigger] node_component_ids@[b] <==> root_of(p_done, h_done, a) == root_of(
                    p_done,
                    h_done,
                    b,
                )),
            forall|u: int|
                0 <= u < v && #[trigger] is_first(node_component_ids@, u)
                    ==> node_component_ids@[u] == firsts_below(node_component_ids@, u),
            forall|c: int|
                0 <= c < node_counts@.len() ==> #[trigger] node_counts@[c] == label_count(
                    node_component_ids@,
                    c,
                    v as int,
                ),
        decreases n - v,
    {
        proof {
            assert forall|u: int| 0 <= u < v implies root_to_component@.contains_key(root_of(p_done, h_done, u) as u32) by {
                assert(node_component_ids@[u] < node_counts@.len());
                assert(root_to_component@.contains_key(
                    root_of(p_done, h_done, u) as u32,
                ) && root_to_component@[root_of(p_done, h_done, u) as u32]
                    == node_component_ids@[u]);
            }
        }
        let root = find_component_root(&mut parent, v, Ghost(height));
        let ghost old_ids = node_component_ids@;
        let ghost old_map = root_to_component@;
        let ghost old_counts = node_counts@;
        let ghost rv = root_of(p_done, h_done, v as int);
        proof {
            lemma_root(p_done, h_done, v as int);
            assert(root as int == rv);
        }
        let component_id: u32;
        let ghost is_new: bool;
        match root_to_component.get(&root) {
            Some(existing) => {
                component_id = *existing;
                proof {
                    is_new = false;
                }
            },
            None => {
                proof {
                    is_new = true;
                    lemma_firsts_le(old_ids, v as int);
                }
                component_id = node_counts.len() as u32;
                root_to_component.insert(root, component_id);
                node_counts.push(0);
            },
        }
        node_component_ids.push(component_id);
        proof {
            let ids = node_component_ids@;
            lemma_firsts_push(old_ids, component_id, v as int);
            assert(ids[v as int] == component_id);
            assert forall|u: int| 0 <= u < v implies #[trigger] ids[u] == old_ids[u] by {}
            if is_new {
                assert forall|u: int| 0 <= u < v implies old_ids[u] != component_id by {
                    assert(old_ids[u] < old_counts.len());
                }
                assert(is_first(ids, v as int));
                lemma_label_count_zero(old_ids, component_id as int, v as int);
                assert forall|u: int| 0 <= u < v implies root_of(p_done, h_done, u) != rv by {
                    lemma_root(p_done, h_done, u);
                    assert(old_map.contains_key(root_of(p_done, h_done, u) as u32) && old_map[root_of(p_done, h_done, u) as u32] == old_ids[u]);
                    if root_of(p_done, h_done, u) == rv {
                        assert(old_map.contains_key(rv as u32));
                    }
                }
                assert(root_to_component@[rv as u32] == component_id);
            } else {
                assert(old_map.contains_key(root) && old_map[root] == component_id);
                assert(exists|w: int| 0 <= w < v && root_of(p_done, h_done, w) == root as int);
                let w = choose|w: int| 0 <= w < v && root_of(p_done, h_done, w) == root as int;
                lemma_root(p_done, h_done, w);
                assert(old_map.contains_key(root_of(p_done, h_done, w) as u32) && old_map[root_of(p_done, h_done, w) as u32] == old_ids[w]);
                assert(old_ids[w] == component_id);
                assert(ids[w] == ids[v as int]);
                assert(!is_first(ids, v as int));
                assert(root_to_component@[rv as u32] == component_id);
            }
            assert(root_to_component@.len() == firsts_below(ids, v + 1));
            assert forall|u: int|
                0 <= u < v + 1 implies root_to_component@.contains_key(
                    root_of(p_done, h_done, u) as u32,
                ) && root_to_component@[root_of(p_done, h_done, u) as u32]
                    == #[trigger] ids[u] by {
                if u < v {
                    lemma_root(p_done, h_done, u);
                    assert(old_map.contains_key(root_of(p_done, h_done, u) as u32) && old_map[root_of(p_done, h_done, u) as u32] == old_ids[u]);
                    if is_new {
                        assert(root_of(p_done, h_done, u) != rv);
                        assert((root_of(p_done, h_done, u) as u32) != (rv as u32));
                    }
                }
            }
            assert forall|key: u32| #[trigger] root_to_component@.contains_key(key) implies exists|u: int|
                0 <= u < v + 1 && root_of(p_done, h_done, u) == key as int by {
                if old_map.contains_key(key) {
                    let w = choose|w: int| 0 <= w < v && root_of(p_done, h_done, w) == key as int;
                    assert(0 <= w < v + 1 && root_of(p_done, h_done, w) == key as int);
                } else {
                    assert(key == root);
                    assert(root_of(p_done, h_done, v as int) == key as int);
                }
            }
            assert forall|a: int, b: int|
                0 <= a < v + 1 && 0 <= b < v + 1 implies (#[trigger] ids[a] == #[trigger] ids[b]
                <==> root_of(p_done, h_done, a) == root_of(p_done, h_done, b)) by {
                if a < v && b < v {
                    assert(old_ids[a] == old_ids[b] <==> root_of(p_done, h_done, a) == root_of(p_done, h_done, b));
                } else if a == v && b < v {
                    if is_new {
                        assert(old_ids[b] != component_id);
                    } else {
                        let w = choose|w: int| 0 <= w < v && root_of(p_done, h_done, w) == (rv as u32) as int;
                        assert(old_ids[w] == component_id);
                        assert(old_ids[w] == old_ids[b] <==> root_of(p_done, h_done, w) == root_of(p_done, h_done, b));
                    }
                } else if b == v && a < v {
                    if is_new {
                        assert(old_ids[a] != component_id);
                    } else {
                        let w = choose|w: int| 0 <= w < v && root_of(p_done, h_done, w) == (rv as u32) as int;
                        assert(old_ids[w] == component_id);
                        assert(old_ids[w] == old_ids[a] <==> root_of(p_done, h_done, w) == root_of(p_done, h_done, a));
                    }
                }
            }
            assert forall|u: int|
                0 <= u < v + 1 && #[trigger] is_first(ids, u) implies ids[u] == firsts_below(ids, u) by {
                if u < v {
                    lemma_firsts_push(old_ids, component_id, u);
                    assert(is_first(old_ids, u));
                } else {
                    assert(is_new);
                }
            }
            lemma_label_count_le(old_ids, component_id as int, v as int);
            assert(node_counts@[component_id as int] == label_count(old_ids, component_id as int, v as int));
        }
        let current = node_counts[component_id as usize];
        node_counts.set(component_id as usize, current + 1);
        proof {
            let ids = node_component_ids@;
            assert forall|c: int| 0 <= c < node_counts@.len() implies #[trigger] node_counts@[c]
                == label_count(ids, c, v + 1) by {
                lemma_label_count_push(old_ids, component_id, c, v as int);
                if is_new && c == component_id {
                }
            }
            assert forall|u: int| 0 <= u < v + 1 implies #[trigger] ids[u] < node_counts@.len() by {
                if u < v {
                    assert(old_ids[u] < old_counts.len());
                }
            }
        }
        v += 1;
    }
    proof {
        lemma_firsts_le(node_component_ids@, n);
    }
    let component_count = node_counts.len() as u32;
    // Edges take the label of their tail node.
    let mut edge_counts: Vec<u64> = Vec::new();
    let mut c: usize = 0;
    while c < node_counts.len()
        invariant
            c <= node_counts@.len(),
            edge_counts@.len() == c,
            forall|x: int| 0 <= x < c ==> #[trigger] edge_counts@[x] == 0,
        decreases node_counts@.len() - c,
    {
        edge_counts.push(0);
        c += 1;
    }
    let mut edge_component_ids: Vec<u32> = Vec::new();
    let mut e: usize = 0;
    while e < edges.len()
        invariant
            es == edges@,
            e <= es.len(),
            es.len() <= u64::MAX,
            endpoints_below(es, n),
            node_component_ids@.len() == n,
            edge_counts@.len() == node_counts@.len(),
            forall|u: int| 0 <= u < n ==> #[trigger] node_component_ids@[u] < node_counts@.len(),
            edge_component_ids@.len() == e,
            forall|x: int|
                0 <= x < e ==> #[trigger] edge_component_ids@[x] == node_component_ids@[es[x].from.0 as int],
            forall|x: int|
                0 <= x < edge_counts@.len() ==> #[trigger] edge_counts@[x] == label_count(
                    edge_component_ids@,
                    x,
                    e as int,
                ),
        decreases es.len() - e,
    {
        let component_id = node_component_ids[edges[e].from.0 as usize];
        let ghost old_eids = edge_component_ids@;
        proof {
            lemma_label_count_le(old_eids, component_id as int, e as int);
        }
        let current = edge_counts[component_id as usize];
        edge_counts.set(component_id as usize, current + 1);
        edge_component_ids.push(component_id);
        proof {
            assert forall|x: int| 0 <= x < edge_counts@.len() implies #[trigger] edge_counts@[x]
                == label_count(edge_component_ids@, x, e + 1) by {
                lemma_label_count_push(old_eids, component_id, x, e as int);
            }
        }
        e += 1;
    }
    proof {
        assert(node_component_ids@.len() == n);
        assert forall|a: int, b: int|
            0 <= a < n && 0 <= b < n implies (node_component_ids@[a] == node_component_ids@[b]
            <==> #[trigger] connected(es, a, b)) by {
            if connected(es, a, b) {
                let path = choose|path: Seq<int>| #[trigger] is_walk(es, path) && path[0] == a && path.last() == b;
                lemma_walk_same_root(es, p_done, h_done, path, path.len() - 1);
            }
        }
    }
    let largest_component_node_count = largest_count(&node_counts);
    let largest_component_edge_count = largest_count(&edge_counts);
    proof {
        let ids = node_component_ids@;
        let eids = edge_component_ids@;
        assert forall|c: int| 0 <= c < component_count implies #[trigger] label_count(ids, c, ids.len() as int)
            <= largest_component_node_count by {
            assert(node_counts@[c] == label_count(ids, c, n));
        }
        if component_count > 0 {
            let c = choose|c: int| 0 <= c < node_counts@.len() && #[trigger] node_counts@[c] == largest_component_node_count;
            assert(label_count(ids, c, ids.len() as int) == largest_component_node_count);
        }
        assert forall|c: int| 0 <= c < component_count implies #[trigger] label_count(eids, c, eids.len() as int)
            <= largest_component_edge_count by {
            assert(edge_counts@[c] == label_count(eids, c, es.len() as int));
        }
        if component_count > 0 {
            let c = choose|c: int| 0 <= c < edge_counts@.len() && #[trigger] edge_counts@[c] == largest_component_edge_count;
            assert(label_count(eids, c, eids.len() as int) == largest_component_edge_count);
        }
    }
    WeakComponentLabels {
        node_component_ids,
        edge_component_ids,
        component_count,
        largest_component_node_count,
        largest_component_edge_count,
    }
}

proof fn lemma_count_single(parent: Seq<u32>, height: Seq<nat>, x: int, n: int)
    requires
        uf_wf(parent, height),
        0 <= x < n,
        n == parent.len(),
        parent[x] as int == x,
    ensures
        crate::union_find::root_count(parent, height, x, n) >= 1,
{
    lemma_count_ge(parent, height, x, n, n);
}

proof fn lemma_count_ge(parent: Seq<u32>, height: Seq<nat>, x: int, k: int, n: int)
    requires
        uf_wf(parent, height),
        0 <= x < k <= n,
        n == parent.len(),
        parent[x] as int == x,
    ensures
        crate::union_find::root_count(parent, height, x, k) >= 1,
    decreases k,
{
    if k > x + 1 {
        lemma_count_ge(parent, height, x, k - 1, n);
    } else {
        assert(root_of(parent, height, x) == x);
    }
}

} // verus!
