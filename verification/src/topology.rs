//! Topology construction: the compressed node and edge-transition adjacency
//! of a directed graph, and its weakly connected components.

use vstd::prelude::*;

use crate::graph::{DirectedEdge, EdgeBasedTopology};

verus! {

// ---------------------------------------------------------------------------
// Mathematical model of the adjacency.
// ---------------------------------------------------------------------------
/// The indices of the edges that leave node `v`, in increasing order.
pub open spec fn out_edges(edges: Seq<DirectedEdge>, v: int) -> Seq<u32>
    decreases edges.len(),
{
    if edges.len() == 0 {
        Seq::empty()
    } else {
        let rest = out_edges(edges.drop_last(), v);
        if edges.last().from.0 == v {
            rest.push((edges.len() - 1) as u32)
        } else {
            rest
        }
    }
}

/// The number of edges that leave a node numbered below `v`.
pub open spec fn edges_before(edges: Seq<DirectedEdge>, v: int) -> nat
    decreases edges.len(),
{
    if edges.len() == 0 {
        0
    } else {
        edges_before(edges.drop_last(), v) + if (edges.last().from.0 as int) < v {
            1nat
        } else {
            0nat
        }
    }
}

/// The number of transitions out of the edges numbered below `e`: each edge
/// can continue with any edge that leaves its head node.
pub open spec fn transitions_before(edges: Seq<DirectedEdge>, e: int) -> nat
    decreases e,
{
    if e <= 0 {
        0
    } else {
        transitions_before(edges, e - 1) + out_edges(edges, edges[e - 1].to.0 as int).len()
    }
}

/// Every edge endpoint is a node below `node_count`.
pub open spec fn endpoints_below(edges: Seq<DirectedEdge>, node_count: int) -> bool {
    forall|i: int|
        0 <= i < edges.len() ==> (#[trigger] edges[i]).from.0 < node_count && edges[i].to.0
            < node_count
}

/// The node adjacency is the compressed form of the edge list: row `v` of
/// `node_edge_order` lists the edges leaving `v`, in edge order.
pub open spec fn node_adjacency_matches(t: EdgeBasedTopology, edges: Seq<DirectedEdge>, n: int) -> bool {
    &&& t.node_first_out@.len() == n + 1
    &&& forall|v: int| 0 <= v <= n ==> #[trigger] t.node_first_out@[v] == edges_before(edges, v)
    &&& t.node_edge_order@.len() == edges.len()
    &&& forall|v: int, k: int|
        0 <= v < n && 0 <= k < out_edges(edges, v).len() ==> t.node_edge_order@[t.node_first_out@[v]
            + k] == #[trigger] out_edges(edges, v)[k]
}

/// The transition adjacency: row `e` lists every edge leaving the head of
/// edge `e`, in edge order.
pub open spec fn transition_adjacency_matches(t: EdgeBasedTopology, edges: Seq<DirectedEdge>) -> bool {
    &&& t.edge_transition_first_out@.len() == edges.len() + 1
    &&& forall|e: int|
        0 <= e <= edges.len() ==> #[trigger] t.edge_transition_first_out@[e] == transitions_before(
            edges,
            e,
        )
    &&& t.edge_transition_edges@.len() == transitions_before(edges, edges.len() as int)
    &&& forall|e: int, k: int|
        0 <= e < edges.len() && 0 <= k < out_edges(edges, edges[e].to.0 as int).len()
            ==> t.edge_transition_edges@[t.edge_transition_first_out@[e] + k]
            == #[trigger] out_edges(edges, edges[e].to.0 as int)[k]
}

// ---------------------------------------------------------------------------
// Lemmas about the model.
// ---------------------------------------------------------------------------
proof fn lemma_out_edges_bounds(edges: Seq<DirectedEdge>, v: int)
    requires
        edges.len() <= u32::MAX,
    ensures
        out_edges(edges, v).len() <= edges.len(),
        edges_before(edges, v) <= edges.len(),
        forall|k: int|
            0 <= k < out_edges(edges, v).len() ==> (#[trigger] out_edges(edges, v)[k] as int)
                < edges.len() && edges[out_edges(edges, v)[k] as int].from.0 == v,
    decreases edges.len(),
{
    if edges.len() > 0 {
        let rest = edges.drop_last();
        lemma_out_edges_bounds(rest, v);
        assert forall|k: int| 0 <= k < out_edges(edges, v).len() implies (#[trigger] out_edges(
            edges,
            v,
        )[k] as int) < edges.len() && edges[out_edges(edges, v)[k] as int].from.0 == v by {
            if k < out_edges(rest, v).len() {
                assert(out_edges(edges, v)[k] == out_edges(rest, v)[k]);
                assert(edges[out_edges(rest, v)[k] as int] == rest[out_edges(rest, v)[k] as int]);
            } else {
                assert(out_edges(edges, v)[k] == (edges.len() - 1) as u32);
                assert(edges[edges.len() - 1] == edges.last());
            }
        }
    }
}

proof fn lemma_edges_before_step(edges: Seq<DirectedEdge>, v: int)
    ensures
        edges_before(edges, v + 1) == edges_before(edges, v) + out_edges(edges, v).len(),
    decreases edges.len(),
{
    if edges.len() > 0 {
        lemma_edges_before_step(edges.drop_last(), v);
    }
}

proof fn lemma_edges_before_mono(edges: Seq<DirectedEdge>, u: int, v: int)
    requires
        u <= v,
    ensures
        edges_before(edges, u) <= edges_before(edges, v),
    decreases edges.len(),
{
    if edges.len() > 0 {
        lemma_edges_before_mono(edges.drop_last(), u, v);
    }
}

proof fn lemma_edges_before_range(edges: Seq<DirectedEdge>, n: int)
    requires
        endpoints_below(edges, n),
    ensures
        edges_before(edges, 0) == 0,
        edges_before(edges, n) == edges.len(),
    decreases edges.len(),
{
    if edges.len() > 0 {
        assert(endpoints_below(edges.drop_last(), n)) by {
            assert forall|i: int| 0 <= i < edges.drop_last().len() implies (
            #[trigger] edges.drop_last()[i]).from.0 < n && edges.drop_last()[i].to.0 < n by {
                assert(edges.drop_last()[i] == edges[i]);
            }
        }
        lemma_edges_before_range(edges.drop_last(), n);
        assert(edges[edges.len() - 1] == edges.last());
    }
}

proof fn lemma_out_edges_prefix(edges: Seq<DirectedEdge>, i: int, j: int, v: int)
    requires
        0 <= i <= j <= edges.len(),
    ensures
        out_edges(edges.take(i), v).len() <= out_edges(edges.take(j), v).len(),
        forall|k: int|
            0 <= k < out_edges(edges.take(i), v).len() ==> #[trigger] out_edges(edges.take(i), v)[k]
                == out_edges(edges.take(j), v)[k],
    decreases j - i,
{
    if i < j {
        lemma_out_edges_prefix(edges, i, j - 1, v);
        assert(edges.take(j).drop_last() =~= edges.take(j - 1));
    }
}

proof fn lemma_take_step(edges: Seq<DirectedEdge>, i: int, v: int)
    requires
        0 <= i < edges.len(),
    ensures
        out_edges(edges.take(i + 1), v) == if edges[i].from.0 == v {
            out_edges(edges.take(i), v).push(i as u32)
        } else {
            out_edges(edges.take(i), v)
        },
{
    assert(edges.take(i + 1).drop_last() =~= edges.take(i));
    assert(edges.take(i + 1).last() == edges[i]);
}

proof fn lemma_transitions_mono(edges: Seq<DirectedEdge>, a: int, b: int)
    requires
        a <= b,
    ensures
        transitions_before(edges, a) <= transitions_before(edges, b),
    decreases b - a,
{
    if a < b {
        lemma_transitions_mono(edges, a, b - 1);
    }
}

/// Law: the rows of the node adjacency are consecutive and together cover
/// every edge exactly once: row `v` ends where row `v + 1` begins and holds
/// as many entries as there are edges leaving `v`.
pub proof fn lemma_node_rows_partition_edges(edges: Seq<DirectedEdge>, n: int, v: int)
    requires
        edges.len() <= u32::MAX,
        endpoints_below(edges, n),
        0 <= v < n,
    ensures
        edges_before(edges, v + 1) - edges_before(edges, v) == out_edges(edges, v).len(),
        edges_before(edges, 0) == 0,
        edges_before(edges, n) == edges.len(),
        forall|k: int|
            0 <= k < out_edges(edges, v).len() ==> edges[#[trigger] out_edges(edges, v)[k] as int].from.0
                == v,
{
    lemma_edges_before_step(edges, v);
    lemma_edges_before_range(edges, n);
    lemma_out_edges_bounds(edges, v);
}

// ---------------------------------------------------------------------------
// Construction.
// ---------------------------------------------------------------------------
/// Builds the compressed adjacency of the directed graph on `node_count`
/// nodes and of its edge-transition graph: edge `e` may continue with every
/// edge that leaves the node at which `e` ends.
pub fn build_edge_based_topology(node_count: usize, edges: &Vec<DirectedEdge>) -> (r:
    EdgeBasedTopology)
    requires
        node_count < usize::MAX,
        edges.len() < u32::MAX,
        endpoints_below(edges@, node_count as int),
        transitions_before(edges@, edges.len() as int) <= u32::MAX,
    ensures
        node_adjacency_matches(r, edges@, node_count as int),
        transition_adjacency_matches(r, edges@),
{
    let m = edges.len();
    let ghost es = edges@;
    let mut out_degree: Vec<u32> = vec![0u32; node_count];
    let mut head: Vec<u32> = vec![0u32; m];
    let mut i: usize = 0;
    while i < m
        invariant
            m == edges.len(),
            es == edges@,
            m <= u32::MAX,
            i <= m,
            endpoints_below(es, node_count as int),
            out_degree@.len() == node_count,
            head@.len() == m,
            forall|v: int|
                0 <= v < node_count ==> #[trigger] out_degree@[v] == out_edges(
                    es.take(i as int),
                    v,
                ).len(),
            forall|e: int| 0 <= e < i ==> #[trigger] head@[e] == es[e].to.0,
        decreases m - i,
    {
        let from = edges[i].from.0 as usize;
        proof {
            lemma_out_edges_bounds(es.take(i as int), from as int);
            assert forall|v: int| 0 <= v < node_count implies out_edges(es.take(i + 1), v)
                == if es[i as int].from.0 == v {
                out_edges(es.take(i as int), v).push(i as u32)
            } else {
                out_edges(es.take(i as int), v)
            } by {
                lemma_take_step(es, i as int, v);
            }
        }
        out_degree.set(from, out_degree[from] + 1);
        head.set(i, edges[i].to.0);
        i += 1;
    }
    proof {
        assert(es.take(m as int) =~= es);
    }
    // Row offsets: prefix sums of the out-degrees.
    let mut node_first_out: Vec<u32> = vec![0u32; node_count + 1];
    let mut v: usize = 0;
    proof {
        lemma_edges_before_range(es, node_count as int);
    }
    while v < node_count
        invariant
            m == edges.len(),
            es == edges@,
            m <= u32::MAX,
            v <= node_count,
            endpoints_below(es, node_count as int),
            out_degree@.len() == node_count,
            node_first_out@.len() == node_count + 1,
            forall|u: int|
                0 <= u < node_count ==> #[trigger] out_degree@[u] == out_edges(es, u).len(),
            forall|u: int| 0 <= u <= v ==> #[trigger] node_first_out@[u] == edges_before(es, u),
        decreases node_count - v,
    {
        proof {
            lemma_edges_before_step(es, v as int);
            lemma_out_edges_bounds(es, v as int + 1);
        }
        let next = node_first_out[v] + out_degree[v];
        node_first_out.set(v + 1, next);
        v += 1;
    }
    // Row contents: every edge written into the row of its tail node.
    let mut node_edge_order: Vec<u32> = vec![0u32; m];
    let mut write_positions: Vec<u32> = Vec::new();
    let mut c: usize = 0;
    while c < node_count
        invariant
            c <= node_count,
            node_first_out@.len() == node_count + 1,
            write_positions@ == node_first_out@.take(c as int),
        decreases node_count - c,
    {
        write_positions.push(node_first_out[c]);
        proof {
            assert(node_first_out@.take(c + 1) =~= node_first_out@.take(c as int).push(
                node_first_out@[c as int],
            ));
        }
        c += 1;
    }
    let mut i: usize = 0;
    while i < m
        invariant
            m == edges.len(),
            es == edges@,
            m <= u32::MAX,
            i <= m,
            endpoints_below(es, node_count as int),
            node_first_out@.len() == node_count + 1,
            forall|u: int| 0 <= u <= node_count ==> #[trigger] node_first_out@[u] == edges_before(es, u),
            node_edge_order@.len() == m,
            write_positions@.len() == node_count,
            forall|u: int|
                0 <= u < node_count ==> #[trigger] write_positions@[u] == node_first_out@[u]
                    + out_edges(es.take(i as int), u).len(),
            forall|u: int, k: int|
                0 <= u < node_count && 0 <= k < out_edges(es.take(i as int), u).len()
                    ==> node_edge_order@[node_first_out@[u] + k] == #[trigger] out_edges(
                    es.take(i as int),
                    u,
                )[k],
        decreases m - i,
    {
        let from = edges[i].from.0 as usize;
        let ghost f = from as int;
        let ghost before = es.take(i as int);
        let ghost after = es.take(i + 1);
        proof {
            lemma_take_step(es, i as int, f);
            lemma_out_edges_prefix(es, i + 1, m as int, f);
            assert(es.take(m as int) =~= es);
            lemma_edges_before_step(es, f);
            lemma_edges_before_range(es, node_count as int);
            lemma_edges_before_mono(es, f + 1, node_count as int);
        }
        let w = write_positions[from];
        let ghost old_order = node_edge_order@;
        node_edge_order.set(w as usize, i as u32);
        write_positions.set(from, w + 1);
        proof {
            assert forall|u: int| 0 <= u < node_count implies #[trigger] write_positions@[u]
                == node_first_out@[u] + out_edges(after, u).len() by {
                lemma_take_step(es, i as int, u);
            }
            assert(w as int == node_first_out@[f] + out_edges(before, f).len());
            assert(out_edges(after, f) == out_edges(before, f).push(i as u32));
            assert forall|u: int, k: int|
                0 <= u < node_count && 0 <= k < out_edges(after, u).len() implies node_edge_order@[
            node_first_out@[u] + k] == #[trigger] out_edges(after, u)[k] by {
                lemma_take_step(es, i as int, u);
                if u != f {
                    // Row `u` lies entirely before or entirely after position `w`.
                    assert(out_edges(after, u) == out_edges(before, u));
                    lemma_edges_before_step(es, u);
                    lemma_out_edges_prefix(es, i as int, m as int, u);
                    assert(out_edges(before, u).len() <= out_edges(es, u).len());
                    if u < f {
                        lemma_edges_before_mono(es, u + 1, f);
                        assert(node_first_out@[u] + k < node_first_out@[f]);
                    } else {
                        lemma_edges_before_mono(es, f + 1, u);
                        assert(node_first_out@[u] + k > w);
                    }
                    lemma_edges_before_mono(es, u + 1, node_count as int);
                    assert(node_first_out@[u] + k < m);
                    assert(node_edge_order@[node_first_out@[u] + k] == old_order[node_first_out@[u] + k]);
                } else if k < out_edges(before, u).len() {
                    assert(node_edge_order@[node_first_out@[u] + k] == old_order[node_first_out@[u] + k]);
                    assert(out_edges(after, u)[k] == out_edges(before, u)[k]);
                } else {
                    assert(node_first_out@[u] + k == w);
                }
            }
        }
        i += 1;
    }
    proof {
        assert(es.take(m as int) =~= es);
    }
    // Transition row offsets.
    let mut edge_transition_first_out: Vec<u32> = vec![0u32; m + 1];
    let mut e: usize = 0;
    while e < m
        invariant
            m == edges.len(),
            es == edges@,
            e <= m,
            endpoints_below(es, node_count as int),
            transitions_before(es, m as int) <= u32::MAX,
            head@.len() == m,
            forall|x: int| 0 <= x < m ==> #[trigger] head@[x] == es[x].to.0,
            node_first_out@.len() == node_count + 1,
            forall|u: int| 0 <= u <= node_count ==> #[trigger] node_first_out@[u] == edges_before(es, u),
            edge_transition_first_out@.len() == m + 1,
            forall|x: int| 0 <= x <= e ==> #[trigger] edge_transition_first_out@[x] == transitions_before(es, x),
        decreases m - e,
    {
        let head_node = head[e] as usize;
        proof {
            assert(es[e as int] == edges@[e as int]);
            lemma_edges_before_step(es, head_node as int);
            lemma_transitions_mono(es, e + 1, m as int);
        }
        let degree = node_first_out[head_node + 1] - node_first_out[head_node];
        let next = edge_transition_first_out[e] + degree;
        edge_transition_first_out.set(e + 1, next);
        e += 1;
    }
    // Transition rows: the node row of each edge's head.
    let total = edge_transition_first_out[m];
    let mut edge_transition_edges: Vec<u32> = vec![0u32; total as usize];
    let mut e: usize = 0;
    while e < m
        invariant
            m == edges.len(),
            es == edges@,
            e <= m,
            endpoints_below(es, node_count as int),
            head@.len() == m,
            forall|x: int| 0 <= x < m ==> #[trigger] head@[x] == es[x].to.0,
            node_first_out@.len() == node_count + 1,
            forall|u: int| 0 <= u <= node_count ==> #[trigger] node_first_out@[u] == edges_before(es, u),
            node_edge_order@.len() == m,
            transitions_before(es, m as int) <= u32::MAX,
            forall|u: int, k: int|
                0 <= u < node_count && 0 <= k < out_edges(es, u).len()
                    ==> node_edge_order@[node_first_out@[u] + k] == #[trigger] out_edges(es, u)[k],
            edge_transition_first_out@.len() == m + 1,
            forall|x: int| 0 <= x <= m ==> #[trigger] edge_transition_first_out@[x] == transitions_before(es, x),
            edge_transition_edges@.len() == transitions_before(es, m as int),
            forall|x: int, k: int|
                0 <= x < e && 0 <= k < out_edges(es, es[x].to.0 as int).len()
                    ==> edge_transition_edges@[edge_transition_first_out@[x] + k]
                    == #[trigger] out_edges(es, es[x].to.0 as int)[k],
        decreases m - e,
    {
        let head_node = head[e] as usize;
        let start = node_first_out[head_node];
        let end = node_first_out[head_node + 1];
        let base = edge_transition_first_out[e];
        proof {
            lemma_edges_before_step(es, head_node as int);
            lemma_edges_before_range(es, node_count as int);
            lemma_edges_before_mono(es, head_node as int + 1, node_count as int);
            lemma_transitions_mono(es, e + 1, m as int);
            assert forall|x: int| 0 <= x < e implies edge_transition_first_out@[x] + out_edges(
                es,
                (#[trigger] es[x]).to.0 as int,
            ).len() <= base by {
                lemma_transitions_mono(es, x + 1, e as int);
            }
        }
        let mut j: u32 = start;
        while j < end
            invariant
                start <= j <= end,
                end as int == start + out_edges(es, head_node as int).len(),
                end <= m,
                base + out_edges(es, head_node as int).len() <= edge_transition_edges@.len(),
                transitions_before(es, m as int) <= u32::MAX,
                head_node < node_count,
                node_edge_order@.len() == m,
                forall|u: int, k: int|
                    0 <= u < node_count && 0 <= k < out_edges(es, u).len()
                        ==> node_edge_order@[node_first_out@[u] + k] == #[trigger] out_edges(es, u)[k],
                start == node_first_out@[head_node as int],
                edge_transition_edges@.len() == transitions_before(es, m as int),
                base == edge_transition_first_out@[e as int],
                forall|x: int, k: int|
                    0 <= x < e && 0 <= k < out_edges(es, es[x].to.0 as int).len()
                        ==> edge_transition_edges@[edge_transition_first_out@[x] + k]
                        == #[trigger] out_edges(es, es[x].to.0 as int)[k],
                forall|k: int|
                    0 <= k < j - start ==> edge_transition_edges@[base + k]
                        == #[trigger] out_edges(es, head_node as int)[k],
                forall|x: int| 0 <= x <= m ==> #[trigger] edge_transition_first_out@[x] == transitions_before(es, x),
                edge_transition_first_out@.len() == m + 1,
                forall|x: int|
                    0 <= x < e ==> edge_transition_first_out@[x] + out_edges(
                        es,
                        (#[trigger] es[x]).to.0 as int,
                    ).len() <= base,
            decreases end - j,
        {
            let ghost k = j - start;
            assert(node_edge_order@[node_first_out@[head_node as int] + k] == out_edges(
                es,
                head_node as int,
            )[k]);
            let next_edge = node_edge_order[j as usize];
            let write_index = base + (j - start);
            edge_transition_edges.set(write_index as usize, next_edge);
            j += 1;
        }
        proof {
            assert(head@[e as int] == es[e as int].to.0);
        }
        e += 1;
    }
    EdgeBasedTopology {
        node_first_out,
        node_edge_order,
        edge_transition_first_out,
        edge_transition_edges,
    }
}

} // verus!
