//! The metric-independent customizable contraction hierarchy (CCH) of a
//! dataset: edge states contracted in a given order by the elimination game.
//!
//! Contracting state `v` inserts a shortcut `x -> y` for every pair of arcs
//! `x -> v` and `v -> y` whose other endpoints outrank `v`. Arcs are stored
//! in an upward CSR (tail ranked below head) and a downward CSR (tail ranked
//! above head), every row sorted by head.

use vstd::prelude::*;
use vstd::relations::injective_on;
use vstd::set_lib::{lemma_int_range, lemma_len_subset, lemma_map_size, set_int_range};

use crate::dataset::CacheBundleId;
use crate::graph::EdgeBasedTopology;
use crate::text::str_eq;

verus! {

broadcast use vstd::seq_lib::group_to_multiset_ensures;

/// Algorithm identifier of the current acceleration bundle format.
pub const CCH_ALGORITHM: &'static str = "edge_based_cch_v2";

/// Schema version of [`DatasetAccelerationBundle`].
pub const ACCELERATION_BUNDLE_SCHEMA_VERSION: u32 = 3;

/// Arc counts of an acceleration bundle.
#[derive(Debug, Clone, PartialEq, Eq)]
pub struct AccelerationBundleStats {
    pub base_arc_count: u64,
    pub shortcut_arc_count: u64,
    pub total_arc_count: u64,
}

/// Metric-independent CCH topology built once per dataset.
///
/// Vertices are directed edge states; arcs are legal edge-to-edge
/// transitions plus the complete set of elimination shortcuts, split by rank
/// direction into an upward and a downward CSR whose rows are sorted by head.
#[derive(Debug, Clone)]
pub struct DatasetAccelerationBundle {
    pub schema_version: u32,
    pub source_topology_bundle_id: CacheBundleId,
    pub algorithm: String,
    pub stats: AccelerationBundleStats,
    pub edge_order: Vec<u32>,
    pub edge_rank: Vec<u32>,
    pub upward_first_out: Vec<u32>,
    pub upward_head: Vec<u32>,
    pub downward_first_out: Vec<u32>,
    pub downward_head: Vec<u32>,
}

impl DatasetAccelerationBundle {
    /// Whether this bundle uses the current CCH algorithm and schema.
    pub fn is_current_format(&self) -> (r: bool)
        ensures
            r == (self.schema_version == ACCELERATION_BUNDLE_SCHEMA_VERSION
                && self.algorithm@ == CCH_ALGORITHM@),
    {
        self.schema_version == ACCELERATION_BUNDLE_SCHEMA_VERSION && str_eq(
            self.algorithm.as_str(),
            CCH_ALGORITHM,
        )
    }
}

// ---------------------------------------------------------------------------
// Ordered arc lists and their compressed rows.
// ---------------------------------------------------------------------------
pub open spec fn pair_le(a: (u32, u32), b: (u32, u32)) -> bool {
    a.0 < b.0 || (a.0 == b.0 && a.1 <= b.1)
}

/// Sorted by tail, then by head.
pub open spec fn sorted_pairs(s: Seq<(u32, u32)>) -> bool {
    forall|i: int, j: int| 0 <= i < j < s.len() ==> pair_le(#[trigger] s[i], #[trigger] s[j])
}

/// The number of arcs whose tail is below `v`.
pub open spec fn tails_below(s: Seq<(u32, u32)>, v: int) -> nat
    decreases s.len(),
{
    if s.len() == 0 {
        0
    } else {
        tails_below(s.drop_last(), v) + if (s.last().0 as int) < v {
            1nat
        } else {
            0nat
        }
    }
}

/// `first_out`/`heads` is the compressed form of the sorted list `arcs`:
/// arc `i` lies in the row of its tail and keeps its head.
pub open spec fn csr_of(first_out: Seq<u32>, heads: Seq<u32>, arcs: Seq<(u32, u32)>, n: int) -> bool {
    &&& first_out.len() == n + 1
    &&& heads.len() == arcs.len()
    &&& forall|v: int| 0 <= v <= n ==> #[trigger] first_out[v] == tails_below(arcs, v)
    &&& forall|i: int| 0 <= i < arcs.len() ==> #[trigger] heads[i] == arcs[i].1
    &&& forall|i: int|
        0 <= i < arcs.len() ==> first_out[(#[trigger] arcs[i]).0 as int] <= i < first_out[arcs[i].0 + 1]
}

pub(crate) proof fn lemma_tails_below_sorted(s: Seq<(u32, u32)>, v: int)
    requires
        sorted_pairs(s),
    ensures
        tails_below(s, v) <= s.len(),
        forall|i: int| 0 <= i < s.len() ==> ((#[trigger] s[i].0 as int) < v <==> i < tails_below(s, v)),
    decreases s.len(),
{
    if s.len() > 0 {
        let p = s.drop_last();
        assert(sorted_pairs(p)) by {
            assert forall|i: int, j: int| 0 <= i < j < p.len() implies pair_le(#[trigger] p[i], #[trigger] p[j]) by {
                assert(p[i] == s[i] && p[j] == s[j]);
            }
        }
        lemma_tails_below_sorted(p, v);
        assert forall|i: int| 0 <= i < s.len() implies ((#[trigger] s[i].0 as int) < v <==> i < tails_below(s, v)) by {
            if i < s.len() - 1 {
                assert(s[i] == p[i]);
                if (s.last().0 as int) < v {
                    assert(pair_le(s[i], s[s.len() - 1]));
                    assert forall|k: int| 0 <= k < p.len() implies (#[trigger] p[k].0 as int) < v by {
                        assert(pair_le(s[k], s[s.len() - 1]));
                    }
                }
            } else {
                if (s.last().0 as int) < v {
                    assert forall|k: int| 0 <= k < p.len() implies (#[trigger] p[k].0 as int) < v by {
                        assert(pair_le(s[k], s[s.len() - 1]));
                    }
                    if tails_below(p, v) < p.len() {
                        assert(!((p[tails_below(p, v) as int].0 as int) < v));
                    }
                }
            }
        }
    }
}

proof fn lemma_tails_below_step(s: Seq<(u32, u32)>, v: int)
    ensures
        tails_below(s, v + 1) == tails_below(s, v) + tails_equal(s, v),
    decreases s.len(),
{
    if s.len() > 0 {
        lemma_tails_below_step(s.drop_last(), v);
    }
}

/// The number of arcs whose tail is `v`.
pub open spec fn tails_equal(s: Seq<(u32, u32)>, v: int) -> nat
    decreases s.len(),
{
    if s.len() == 0 {
        0
    } else {
        tails_equal(s.drop_last(), v) + if s.last().0 as int == v {
            1nat
        } else {
            0nat
        }
    }
}

proof fn lemma_tails_equal_le(s: Seq<(u32, u32)>, v: int)
    ensures
        tails_equal(s, v) <= s.len(),
    decreases s.len(),
{
    if s.len() > 0 {
        lemma_tails_equal_le(s.drop_last(), v);
    }
}

proof fn lemma_tails_below_all(s: Seq<(u32, u32)>, n: int)
    requires
        forall|i: int| 0 <= i < s.len() ==> (#[trigger] s[i].0 as int) < n,
    ensures
        tails_below(s, n) == s.len(),
        tails_below(s, 0) == 0,
    decreases s.len(),
{
    if s.len() > 0 {
        let p = s.drop_last();
        assert forall|i: int| 0 <= i < p.len() implies (#[trigger] p[i].0 as int) < n by {
            assert(p[i] == s[i]);
        }
        lemma_tails_below_all(p, n);
        assert(s[s.len() - 1] == s.last());
    }
}

/// `slice::sort_unstable`: the arcs in increasing order, each kept as
/// often as it occurred.
#[verifier::external_body]
pub(crate) fn sort_arcs(arcs: &mut Vec<(u32, u32)>)
    ensures
        final(arcs)@.to_multiset() == old(arcs)@.to_multiset(),
        sorted_pairs(final(arcs)@),
{
    arcs.sort_unstable();
}

/// Compresses sorted arcs into rows by tail.
pub fn arcs_to_csr(sorted_arcs: &Vec<(u32, u32)>, edge_count: usize) -> (r: (Vec<u32>, Vec<u32>))
    requires
        sorted_pairs(sorted_arcs@),
        edge_count < usize::MAX,
        sorted_arcs@.len() <= u32::MAX,
        forall|i: int| 0 <= i < sorted_arcs@.len() ==> (#[trigger] sorted_arcs@[i].0 as int) < edge_count,
    ensures
        csr_of(r.0@, r.1@, sorted_arcs@, edge_count as int),
{
    let ghost s = sorted_arcs@;
    let mut first_out: Vec<u32> = vec![0u32; edge_count + 1];
    let mut heads: Vec<u32> = vec![0u32; sorted_arcs.len()];
    let mut slot: usize = 0;
    while slot < sorted_arcs.len()
        invariant
            s == sorted_arcs@,
            slot <= s.len(),
            s.len() <= u32::MAX,
            forall|i: int| 0 <= i < s.len() ==> (#[trigger] s[i].0 as int) < edge_count,
            first_out@.len() == edge_count + 1,
            heads@.len() == s.len(),
            first_out@[0] == 0,
            forall|v: int| 0 <= v < edge_count ==> #[trigger] first_out@[v + 1] == tails_equal(s.take(slot as int), v),
            forall|i: int| 0 <= i < slot ==> #[trigger] heads@[i] == s[i].1,
        decreases s.len() - slot,
    {
        let (tail, head) = sorted_arcs[slot];
        proof {
            assert(s.take(slot + 1).drop_last() =~= s.take(slot as int));
            lemma_tails_equal_le(s.take(slot as int), tail as int);
        }
        let current = first_out[tail as usize + 1];
        first_out.set(tail as usize + 1, current + 1);
        heads.set(slot, head);
        slot += 1;
    }
    proof {
        assert(s.take(s.len() as int) =~= s);
        lemma_tails_below_all(s, edge_count as int);
    }
    let mut edge_index: usize = 0;
    while edge_index < edge_count
        invariant
            s == sorted_arcs@,
            s.len() <= u32::MAX,
            edge_index <= edge_count,
            forall|i: int| 0 <= i < s.len() ==> (#[trigger] s[i].0 as int) < edge_count,
            first_out@.len() == edge_count + 1,
            tails_below(s, 0) == 0,
            tails_below(s, edge_count as int) == s.len(),
            forall|v: int| 0 <= v <= edge_index ==> #[trigger] first_out@[v] == tails_below(s, v),
            forall|v: int| edge_index <= v < edge_count ==> #[trigger] first_out@[v + 1] == tails_equal(s, v),
        decreases edge_count - edge_index,
    {
        proof {
            lemma_tails_below_step(s, edge_index as int);
            lemma_tails_below_sorted_mono(s, edge_index as int + 1, edge_count as int);
        }
        let sum = first_out[edge_index + 1] + first_out[edge_index];
        first_out.set(edge_index + 1, sum);
        edge_index += 1;
    }
    proof {
        assert forall|i: int| 0 <= i < s.len() implies first_out@[(#[trigger] s[i]).0 as int] <= i
            < first_out@[s[i].0 + 1] by {
            lemma_tails_below_sorted(s, s[i].0 as int);
            lemma_tails_below_sorted(s, s[i].0 + 1);
        }
    }
    (first_out, heads)
}

proof fn lemma_tails_below_sorted_mono(s: Seq<(u32, u32)>, u: int, v: int)
    requires
        u <= v,
    ensures
        tails_below(s, u) <= tails_below(s, v),
    decreases s.len(),
{
    if s.len() > 0 {
        lemma_tails_below_sorted_mono(s.drop_last(), u, v);
    }
}

// ---------------------------------------------------------------------------
// The elimination game.
// ---------------------------------------------------------------------------
/// `order` lists every edge state below `n` exactly once.
pub open spec fn is_edge_order(order: Seq<u32>, n: int) -> bool {
    &&& order.len() == n
    &&& forall|i: int| 0 <= i < n ==> (#[trigger] order[i] as int) < n
    &&& forall|i: int, j: int| 0 <= i < j < n ==> order[i] != order[j]
    &&& forall|v: u32| (v as int) < n ==> #[trigger] order.contains(v)
}

/// The rank of every edge state: its position in `order`.
pub open spec fn ranks_of_order(order: Seq<u32>) -> Seq<u32> {
    Seq::new(
        order.len(),
        |v: int| (choose|i: int| 0 <= i < order.len() && order[i] as int == v) as u32,
    )
}

/// Whether `edges[lo..hi]` holds `h`.
pub open spec fn row_has(edges: Seq<u32>, lo: int, hi: int, h: int) -> bool {
    exists|k: int| lo <= k < hi && #[trigger] edges[k] as int == h
}

/// An arc joins two different edge states below `n`.
pub open spec fn is_proper_arc(a: (u32, u32), n: int) -> bool {
    (a.0 as int) < n && (a.1 as int) < n && a.0 != a.1
}

/// A legal transition `a.0 -> a.1` of the edge-based topology (only when the
/// topology carries one row per edge state).
pub open spec fn is_base_arc(first_out: Seq<u32>, edges: Seq<u32>, n: int, a: (u32, u32)) -> bool {
    &&& first_out.len() == n + 1
    &&& is_proper_arc(a, n)
    &&& row_has(edges, first_out[a.0 as int] as int, first_out[a.0 + 1] as int, a.1 as int)
}

pub open spec fn contains_base(s: Set<(u32, u32)>, first_out: Seq<u32>, edges: Seq<u32>, n: int) -> bool {
    forall|a: (u32, u32)| #[trigger] is_base_arc(first_out, edges, n, a) ==> s.contains(a)
}

/// Contracting any state `v` adds `x -> y` for arcs `x -> v`, `v -> y`
/// whose other endpoints outrank `v`.
pub open spec fn shortcut_closed(s: Set<(u32, u32)>, rank: Seq<u32>) -> bool {
    forall|x: u32, v: u32, y: u32|
        #![trigger s.contains((x, v)), s.contains((v, y))]
        s.contains((x, v)) && s.contains((v, y)) && rank[v as int] < rank[x as int] && rank[v as int]
            < rank[y as int] && x != y ==> s.contains((x, y))
}

/// The arcs of the contraction hierarchy: the least set that holds every
/// legal transition and is closed under shortcut insertion.
pub open spec fn is_elimination_closure(
    s: Set<(u32, u32)>,
    first_out: Seq<u32>,
    edges: Seq<u32>,
    rank: Seq<u32>,
    n: int,
) -> bool {
    &&& s.finite()
    &&& contains_base(s, first_out, edges, n)
    &&& shortcut_closed(s, rank)
    &&& forall|t: Set<(u32, u32)>|
        #[trigger] contains_base(t, first_out, edges, n) && shortcut_closed(t, rank) ==> s.subset_of(t)
}

pub open spec fn goes_up(rank: Seq<u32>, a: (u32, u32)) -> bool {
    rank[a.0 as int] < rank[a.1 as int]
}

pub open spec fn upward_arcs(s: Set<(u32, u32)>, rank: Seq<u32>) -> Set<(u32, u32)> {
    s.filter(|a: (u32, u32)| goes_up(rank, a))
}

pub open spec fn downward_arcs(s: Set<(u32, u32)>, rank: Seq<u32>) -> Set<(u32, u32)> {
    s.filter(|a: (u32, u32)| !goes_up(rank, a))
}

pub open spec fn base_arcs_of(s: Set<(u32, u32)>, first_out: Seq<u32>, edges: Seq<u32>, n: int) -> Set<(u32, u32)> {
    s.filter(|a: (u32, u32)| is_base_arc(first_out, edges, n, a))
}

/// Rows of `first_out`/`heads` list, for every tail below `n`, exactly the
/// heads of the arcs of `arcs` leaving it, in increasing order.
pub open spec fn csr_describes(first_out: Seq<u32>, heads: Seq<u32>, n: int, arcs: Set<(u32, u32)>) -> bool {
    &&& first_out.len() == n + 1
    &&& first_out[0] == 0
    &&& first_out[n] == heads.len()
    &&& forall|t: int| 0 <= t < n ==> #[trigger] first_out[t] <= first_out[t + 1]
    &&& forall|t: int, i: int, j: int|
        #![trigger first_out[t], heads[i], heads[j]]
        0 <= t < n && first_out[t] <= i < j < first_out[t + 1] ==> heads[i] < heads[j]
    &&& forall|t: int, i: int|
        0 <= t < n && first_out[t] <= i < first_out[t + 1] ==> #[trigger] arcs.contains((t as u32, heads[i]))
    &&& forall|a: (u32, u32)|
        #[trigger] arcs.contains(a) ==> (a.0 as int) < n && exists|i: int|
            first_out[a.0 as int] <= i < first_out[a.0 + 1] && #[trigger] heads[i] == a.1
}

/// For every elimination closure of the input, the upward and the downward
/// arc counts fit the `u32` offsets of the CSR rows.
pub open spec fn closure_fits_u32(first_out: Seq<u32>, edges: Seq<u32>, order: Seq<u32>, n: int) -> bool {
    forall|s: Set<(u32, u32)>|
        #[trigger] is_elimination_closure(s, first_out, edges, ranks_of_order(order), n) ==> upward_arcs(
            s,
            ranks_of_order(order),
        ).len() <= u32::MAX && downward_arcs(s, ranks_of_order(order)).len() <= u32::MAX
}

// ---------------------------------------------------------------------------
// Pending arcs: every arc is owned by its lower-ranked endpoint until that
// state is contracted. A pending row is a sorted list of
// `other_endpoint * 2 + outgoing` keys.
// ---------------------------------------------------------------------------
pub open spec fn strictly_sorted(s: Seq<u64>) -> bool {
    forall|i: int, j: int| 0 <= i < j < s.len() ==> s[i] < s[j]
}

/// Binary search in a strictly increasing list: whether `key` occurs, and
/// the first position whose entry is not below `key`.
fn search_sorted(list: &Vec<u64>, key: u64) -> (r: (bool, usize))
    requires
        strictly_sorted(list@),
    ensures
        r.1 <= list@.len(),
        forall|j: int| 0 <= j < r.1 ==> list@[j] < key,
        forall|j: int| r.1 <= j < list@.len() ==> key <= list@[j],
        r.0 == list@.contains(key),
        r.0 ==> list@[r.1 as int] == key,
{
    let mut lo: usize = 0;
    let mut hi: usize = list.len();
    while lo < hi
        invariant
            lo <= hi <= list@.len(),
            strictly_sorted(list@),
            forall|j: int| 0 <= j < lo ==> list@[j] < key,
            forall|j: int| hi <= j < list@.len() ==> key <= list@[j],
        decreases hi - lo,
    {
        let mid = lo + (hi - lo) / 2;
        if list[mid] < key {
            lo = mid + 1;
        } else {
            hi = mid;
        }
    }
    let found = lo < list.len() && list[lo] == key;
    proof {
        if !found && list@.contains(key) {
            let j = choose|j: int| 0 <= j < list@.len() && list@[j] == key;
            if j > lo as int {
                assert(list@[lo as int] < list@[j]);
            }
        }
    }
    (found, lo)
}

/// Inserts `key` into a strictly increasing list unless it is there;
/// reports whether it was new.
fn insert_key(list: &mut Vec<u64>, key: u64) -> (inserted: bool)
    requires
        strictly_sorted(old(list)@),
    ensures
        strictly_sorted(final(list)@),
        inserted == !old(list)@.contains(key),
        forall|k: u64| #[trigger] final(list)@.contains(k) <==> (old(list)@.contains(k) || k == key),
{
    let (found, pos) = search_sorted(list, key);
    if found {
        false
    } else {
        let ghost before = list@;
        list.insert(pos, key);
        proof {
            let after = list@;
            assert(after =~= before.insert(pos as int, key));
            assert forall|i: int, j: int| 0 <= i < j < after.len() implies after[i] < after[j] by {
                if j < pos {
                } else if j == pos {
                } else if i < pos {
                } else if i == pos {
                    assert(after[j] == before[j - 1]);
                } else {
                    assert(after[i] == before[i - 1] && after[j] == before[j - 1]);
                }
            }
            assert forall|k: u64| #[trigger] after.contains(k) <==> (before.contains(k) || k == key) by {
                if after.contains(k) {
                    let i = choose|i: int| 0 <= i < after.len() && after[i] == k;
                    if i < pos {
                        assert(before[i] == k);
                    } else if i > pos {
                        assert(before[i - 1] == k);
                    }
                }
                if before.contains(k) {
                    let i = choose|i: int| 0 <= i < before.len() && before[i] == k;
                    if i < pos {
                        assert(after[i] == k);
                    } else {
                        assert(after[i + 1] == k);
                    }
                }
                if k == key {
                    assert(after[pos as int] == k);
                }
            }
        }
        true
    }
}

/// Inserts `key` into the pending row of `owner`.
fn insert_pending(pending: &mut Vec<Vec<u64>>, owner: usize, key: u64) -> (inserted: bool)
    requires
        owner < old(pending)@.len(),
        strictly_sorted(old(pending)@[owner as int]@),
    ensures
        final(pending)@.len() == old(pending)@.len(),
        forall|o: int|
            0 <= o < old(pending)@.len() && o != owner ==> #[trigger] final(pending)@[o] == old(pending)@[o],
        strictly_sorted(final(pending)@[owner as int]@),
        inserted == !old(pending)@[owner as int]@.contains(key),
        forall|k: u64|
            #[trigger] final(pending)@[owner as int]@.contains(k) <==> (old(pending)@[owner as int]@.contains(k)
                || k == key),
{
    let mut list: Vec<u64> = Vec::new();
    std::mem::swap(&mut list, &mut pending[owner]);
    let inserted = insert_key(&mut list, key);
    pending.set(owner, list);
    inserted
}

/// The arc that `key` stands for in the pending row of `owner`.
spec fn arc_of_key(owner: int, key: u64) -> (u32, u32) {
    if key % 2 == 1 {
        (owner as u32, (key / 2) as u32)
    } else {
        ((key / 2) as u32, owner as u32)
    }
}

/// The lower-ranked endpoint of an arc.
spec fn owner_of(rank: Seq<u32>, a: (u32, u32)) -> int {
    if goes_up(rank, a) {
        a.0 as int
    } else {
        a.1 as int
    }
}

/// The key of an arc in the pending row of its owner.
spec fn key_of(rank: Seq<u32>, a: (u32, u32)) -> u64 {
    if goes_up(rank, a) {
        (a.1 * 2 + 1) as u64
    } else {
        (a.0 * 2) as u64
    }
}

/// `rank` inverts the edge order.
pub open spec fn rank_ok(rank: Seq<u32>, order: Seq<u32>, n: int) -> bool {
    &&& rank.len() == n
    &&& order.len() == n
    &&& forall|v: int| 0 <= v < n ==> (#[trigger] rank[v] as int) < n && order[rank[v] as int] as int == v
    &&& forall|i: int| 0 <= i < n ==> (#[trigger] order[i] as int) < n && rank[order[i] as int] as int == i
}

/// Every arc joins two different edge states below `n`.
pub open spec fn arcs_proper(s: Set<(u32, u32)>, n: int) -> bool {
    forall|a: (u32, u32)| #[trigger] s.contains(a) ==> is_proper_arc(a, n)
}

spec fn key_ok(k: u64, o: int, s: Set<(u32, u32)>, rank: Seq<u32>, n: int) -> bool {
    &&& (k / 2) < n
    &&& (k / 2) as int != o
    &&& rank[o] < rank[(k / 2) as int]
    &&& s.contains(arc_of_key(o, k))
}

/// Row `o` holds the keys of exactly the arcs of `s` owned by `o`, as long
/// as `o` has not been contracted (rank at least `step`); contracted rows
/// are empty.
spec fn pending_ok(p: Seq<Vec<u64>>, s: Set<(u32, u32)>, rank: Seq<u32>, n: int, step: int) -> bool {
    &&& p.len() == n
    &&& forall|o: int| 0 <= o < n ==> strictly_sorted(#[trigger] p[o]@)
    &&& forall|o: int, j: int|
        0 <= o < n && 0 <= j < p[o]@.len() ==> key_ok(#[trigger] p[o]@[j], o, s, rank, n)
    &&& forall|o: int| 0 <= o < n && rank[o] < step ==> (#[trigger] p[o]@).len() == 0
    &&& forall|a: (u32, u32)|
        #[trigger] s.contains(a) && rank[owner_of(rank, a)] >= step ==> p[owner_of(
            rank,
            a,
        )]@.contains(key_of(rank, a))
}

proof fn lemma_key_round_trip(rank: Seq<u32>, order: Seq<u32>, n: int, a: (u32, u32))
    requires
        rank_ok(rank, order, n),
        is_proper_arc(a, n),
    ensures
        0 <= owner_of(rank, a) < n,
        key_ok(key_of(rank, a), owner_of(rank, a), set![a], rank, n),
        arc_of_key(owner_of(rank, a), key_of(rank, a)) == a,
{
    if !goes_up(rank, a) {
        if rank[a.0 as int] == rank[a.1 as int] {
            assert(order[rank[a.0 as int] as int] == a.0);
        }
    }
}

proof fn lemma_key_ok_grows(k: u64, o: int, s: Set<(u32, u32)>, t: Set<(u32, u32)>, rank: Seq<u32>, n: int)
    requires
        key_ok(k, o, s, rank, n),
        s.subset_of(t),
    ensures
        key_ok(k, o, t, rank, n),
{
}

/// Adding an arc's key to its owner's row keeps the rows in step with the
/// arc set; the key was already there exactly when the arc was.
proof fn lemma_pending_insert(
    p: Seq<Vec<u64>>,
    p2: Seq<Vec<u64>>,
    s: Set<(u32, u32)>,
    rank: Seq<u32>,
    order: Seq<u32>,
    n: int,
    step: int,
    a: (u32, u32),
)
    requires
        pending_ok(p, s, rank, n, step),
        rank_ok(rank, order, n),
        arcs_proper(s, n),
        is_proper_arc(a, n),
        rank[owner_of(rank, a)] >= step,
        p2.len() == p.len(),
        forall|o: int| 0 <= o < n && o != owner_of(rank, a) ==> #[trigger] p2[o] == p[o],
        strictly_sorted(p2[owner_of(rank, a)]@),
        forall|k: u64|
            #[trigger] p2[owner_of(rank, a)]@.contains(k) <==> (p[owner_of(rank, a)]@.contains(k) || k
                == key_of(rank, a)),
    ensures
        pending_ok(p2, s.insert(a), rank, n, step),
        p[owner_of(rank, a)]@.contains(key_of(rank, a)) <==> s.contains(a),
{
    let w = owner_of(rank, a);
    let s2 = s.insert(a);
    lemma_key_round_trip(rank, order, n, a);
    assert forall|o: int| 0 <= o < n implies strictly_sorted(#[trigger] p2[o]@) by {
        if o != w {
            assert(p2[o] == p[o]);
        }
    }
    assert forall|o: int, j: int| 0 <= o < n && 0 <= j < p2[o]@.len() implies key_ok(
        #[trigger] p2[o]@[j],
        o,
        s2,
        rank,
        n,
    ) by {
        if o != w {
            assert(p2[o] == p[o]);
            lemma_key_ok_grows(p[o]@[j], o, s, s2, rank, n);
        } else {
            let k = p2[o]@[j];
            assert(p2[o]@.contains(k));
            if p[o]@.contains(k) {
                let jj = choose|jj: int| 0 <= jj < p[o]@.len() && p[o]@[jj] == k;
                assert(key_ok(p[o]@[jj], o, s, rank, n));
                lemma_key_ok_grows(k, o, s, s2, rank, n);
            } else {
                assert(k == key_of(rank, a));
            }
        }
    }
    assert forall|o: int| 0 <= o < n && rank[o] < step implies (#[trigger] p2[o]@).len() == 0 by {
        assert(o != w);
        assert(p2[o] == p[o]);
    }
    assert forall|b: (u32, u32)| #[trigger]
        s2.contains(b) && rank[owner_of(rank, b)] >= step implies p2[owner_of(
        rank,
        b,
    )]@.contains(key_of(rank, b)) by {
        if b == a {
        } else {
            assert(s.contains(b));
            assert(is_proper_arc(b, n));
            let wb = owner_of(rank, b);
            assert(p[wb]@.contains(key_of(rank, b)));
            if wb != w {
                assert(p2[wb] == p[wb]);
            }
        }
    }
    if p[w]@.contains(key_of(rank, a)) {
        let jj = choose|jj: int| 0 <= jj < p[w]@.len() && p[w]@[jj] == key_of(rank, a);
        assert(key_ok(p[w]@[jj], w, s, rank, n));
    }
}

/// Records arc `tail -> head` in the pending row of its lower-ranked
/// endpoint.
fn add_arc(pending: &mut Vec<Vec<u64>>, rank: &Vec<u32>, tail: u32, head: u32) -> (inserted: bool)
    requires
        (tail as int) < old(pending)@.len(),
        (head as int) < old(pending)@.len(),
        old(pending)@.len() <= u32::MAX,
        rank@.len() == old(pending)@.len(),
        strictly_sorted(old(pending)@[owner_of(rank@, (tail, head))]@),
    ensures
        final(pending)@.len() == old(pending)@.len(),
        forall|o: int|
            0 <= o < old(pending)@.len() && o != owner_of(rank@, (tail, head)) ==> #[trigger] final(pending)@[o] == old(pending)@[o],
        strictly_sorted(final(pending)@[owner_of(rank@, (tail, head))]@),
        inserted == !old(pending)@[owner_of(rank@, (tail, head))]@.contains(key_of(rank@, (tail, head))),
        forall|k: u64|
            #[trigger] final(pending)@[owner_of(rank@, (tail, head))]@.contains(k) <==> (old(pending)@[owner_of(rank@, (tail, head))]@.contains(k) || k == key_of(rank@, (tail, head))),
{
    if rank[tail as usize] < rank[head as usize] {
        insert_pending(pending, tail as usize, (head as u64) * 2 + 1)
    } else {
        insert_pending(pending, head as usize, (tail as u64) * 2)
    }
}

/// The rank of each edge state: its position in `order`.
fn ranks_from_order(order: &Vec<u32>, n: usize) -> (rank: Vec<u32>)
    requires
        is_edge_order(order@, n as int),
        n <= u32::MAX,
    ensures
        rank_ok(rank@, order@, n as int),
        rank@ == ranks_of_order(order@),
{
    let mut rank: Vec<u32> = vec![0u32; n];
    let mut i: usize = 0;
    while i < n
        invariant
            is_edge_order(order@, n as int),
            n <= u32::MAX,
            i <= n,
            rank@.len() == n,
            forall|j: int| 0 <= j < i ==> rank@[#[trigger] order@[j] as int] == j,
        decreases n - i,
    {
        let v = order[i];
        rank.set(v as usize, i as u32);
        proof {
            assert forall|j: int| 0 <= j < i + 1 implies rank@[#[trigger] order@[j] as int] == j by {
                if j < i {
                    assert(order@[j] != order@[i as int]);
                }
            }
        }
        i += 1;
    }
    proof {
        assert forall|v: int| 0 <= v < n implies (#[trigger] rank@[v] as int) < n && order@[rank@[v] as int]
            as int == v by {
            assert(order@.contains(v as u32));
            let j = choose|j: int| 0 <= j < n && order@[j] == v as u32;
            assert(rank@[order@[j] as int] == j);
        }
        let r = ranks_of_order(order@);
        assert forall|v: int| 0 <= v < n implies #[trigger] r[v] == rank@[v] by {
            let j = choose|j: int| 0 <= j < order@.len() && order@[j] as int == v;
            assert(order@[rank@[v] as int] as int == v);
            if j != rank@[v] as int {
                if j < rank@[v] as int {
                    assert(order@[j] != order@[rank@[v] as int]);
                } else {
                    assert(order@[rank@[v] as int] != order@[j]);
                }
            }
        }
        assert(rank@ =~= r);
    }
    rank
}

proof fn lemma_pair_code(x: int, y: int, x2: int, y2: int, n: int)
    by (nonlinear_arith)
    requires
        0 <= x < n,
        0 <= y < n,
        0 <= x2 < n,
        0 <= y2 < n,
    ensures
        0 <= x * n + y < n * n,
        x * n + y == x2 * n + y2 ==> x == x2 && y == y2,
{
    if x * n + y == x2 * n + y2 {
        if x < x2 {
            assert(x * n + y < x2 * n);
        } else if x > x2 {
            assert(x2 * n + y2 < x * n);
        }
    }
}

/// A set of arcs between states below `n` has at most `n * n` arcs.
proof fn lemma_arc_set_len(s: Set<(u32, u32)>, n: int)
    requires
        s.finite(),
        n >= 0,
        forall|a: (u32, u32)| #[trigger] s.contains(a) ==> (a.0 as int) < n && (a.1 as int) < n,
    ensures
        s.len() <= n * n,
{
    let f = |a: (u32, u32)| (a.0 as int) * n + (a.1 as int);
    assert forall|a: (u32, u32), b: (u32, u32)| s.contains(a) && s.contains(b) && #[trigger] f(a) == #[trigger] f(
        b,
    ) implies a == b by {
        lemma_pair_code(a.0 as int, a.1 as int, b.0 as int, b.1 as int, n);
    }
    assert(injective_on(f, s));
    lemma_map_size(s, s.map(f), f);
    lemma_int_range(0, n * n);
    assert forall|c: int| #[trigger] s.map(f).contains(c) implies set_int_range(0, n * n).contains(c) by {
        let a = choose|a: (u32, u32)| s.contains(a) && f(a) == c;
        lemma_pair_code(a.0 as int, a.1 as int, a.0 as int, a.1 as int, n);
    }
    lemma_len_subset(s.map(f), set_int_range(0, n * n));
}

proof fn lemma_row_has_step(edges: Seq<u32>, lo: int, k: int, h: int)
    requires
        lo <= k,
    ensures
        row_has(edges, lo, k + 1, h) <==> (row_has(edges, lo, k, h) || edges[k] as int == h),
{
    if row_has(edges, lo, k + 1, h) {
        let j = choose|j: int| lo <= j < k + 1 && #[trigger] edges[j] as int == h;
        if j < k {
            assert(row_has(edges, lo, k, h));
        }
    }
    if edges[k] as int == h {
        assert(row_has(edges, lo, k + 1, h));
    }
}

/// The legal transitions found in the rows of states below `e`, and in
/// row `e` before position `k`.
spec fn base_upto(first_out: Seq<u32>, edges: Seq<u32>, n: int, e: int, k: int, a: (u32, u32)) -> bool {
    &&& first_out.len() == n + 1
    &&& is_proper_arc(a, n)
    &&& {
        ||| (a.0 as int) < e && row_has(edges, first_out[a.0 as int] as int, first_out[a.0 + 1] as int, a.1 as int)
        ||| a.0 as int == e && row_has(edges, first_out[e] as int, k, a.1 as int)
    }
}

/// Fills the pending rows with the legal transitions of the topology.
fn insert_base_arcs(
    pending: &mut Vec<Vec<u64>>,
    rank: &Vec<u32>,
    first_out: &Vec<u32>,
    edges: &Vec<u32>,
    n: usize,
    Ghost(order): Ghost<Seq<u32>>,
) -> (r: (u64, Ghost<Set<(u32, u32)>>))
    requires
        n <= u32::MAX,
        n < usize::MAX,
        old(pending)@.len() == n,
        forall|o: int| 0 <= o < n ==> (#[trigger] old(pending)@[o]@).len() == 0,
        rank_ok(rank@, order, n as int),
        first_out@.len() == n + 1 ==> forall|e: int|
            0 <= e < n ==> #[trigger] first_out@[e] <= first_out@[e + 1] <= edges@.len(),
    ensures
        pending_ok(final(pending)@, r.1@, rank@, n as int, 0),
        arcs_proper(r.1@, n as int),
        forall|a: (u32, u32)| #[trigger] r.1@.contains(a) <==> is_base_arc(first_out@, edges@, n as int, a),
        r.1@.finite(),
        r.0 == r.1@.len(),
{
    let ghost mut s: Set<(u32, u32)> = Set::empty();
    let mut count: u64 = 0;
    proof {
        assert forall|o: int| 0 <= o < n implies strictly_sorted(#[trigger] pending@[o]@) by {
            assert(pending@[o]@.len() == 0);
        }
    }
    if first_out.len() == n + 1 {
        let mut e: usize = 0;
        while e < n
            invariant
                n <= u32::MAX,
                e <= n,
                first_out@.len() == n + 1,
                forall|e2: int| 0 <= e2 < n ==> #[trigger] first_out@[e2] <= first_out@[e2 + 1] <= edges@.len(),
                rank_ok(rank@, order, n as int),
                pending_ok(pending@, s, rank@, n as int, 0),
                arcs_proper(s, n as int),
                s.finite(),
                count == s.len(),
                forall|a: (u32, u32)|
                    #![trigger s.contains(a)]
                    #![trigger base_upto(first_out@, edges@, n as int, e as int, first_out@[e as int] as int, a)]
                    s.contains(a) <==> base_upto(first_out@, edges@, n as int, e as int, first_out@[e as int] as int, a),
            decreases n - e,
        {
            let start = first_out[e] as usize;
            let end = first_out[e + 1] as usize;
            let mut k: usize = start;
            while k < end
                invariant
                    n <= u32::MAX,
                    e < n,
                    first_out@.len() == n + 1,
                    start == first_out@[e as int],
                    end == first_out@[e + 1],
                    start <= k <= end <= edges@.len(),
                    rank_ok(rank@, order, n as int),
                    pending_ok(pending@, s, rank@, n as int, 0),
                    arcs_proper(s, n as int),
                    s.finite(),
                    count == s.len(),
                    forall|a: (u32, u32)|
                        #![trigger s.contains(a)]
                        #![trigger base_upto(first_out@, edges@, n as int, e as int, k as int, a)]
                        s.contains(a) <==> base_upto(first_out@, edges@, n as int, e as int, k as int, a),
                decreases end - k,
            {
                let next = edges[k];
                let ghost a = (e as u32, next);
                proof {
                    assert forall|b: (u32, u32)| base_upto(first_out@, edges@, n as int, e as int, k + 1, b)
                        <==> (base_upto(first_out@, edges@, n as int, e as int, k as int, b) || (b == a
                        && is_proper_arc(a, n as int))) by {
                        lemma_row_has_step(edges@, start as int, k as int, b.1 as int);
                    }
                }
                if next as usize != e && (next as usize) < n {
                    let ghost p = pending@;
                    proof {
                        lemma_key_round_trip(rank@, order, n as int, a);
                    }
                    let inserted = add_arc(pending, rank, e as u32, next);
                    proof {
                        lemma_pending_insert(p, pending@, s, rank@, order, n as int, 0, a);
                        lemma_arc_set_len(s.insert(a), n as int);
                        assert((n as int) * (n as int) <= 0xffff_ffff * 0xffff_ffff) by (nonlinear_arith)
                            requires
                                n <= u32::MAX,
                        ;
                        s = s.insert(a);
                    }
                    if inserted {
                        count = count + 1;
                    }
                }
                k += 1;
            }
            proof {
                assert forall|b: (u32, u32)| base_upto(first_out@, edges@, n as int, e as int, end as int, b)
                    <==> base_upto(first_out@, edges@, n as int, e + 1, first_out@[e + 1] as int, b) by {
                    if e + 1 < n {
                        assert(!row_has(edges@, first_out@[e + 1] as int, first_out@[e + 1] as int, b.1 as int));
                    }
                }
            }
            e += 1;
        }
        proof {
            assert forall|b: (u32, u32)| base_upto(first_out@, edges@, n as int, n as int, first_out@[n as int] as int, b)
                <==> is_base_arc(first_out@, edges@, n as int, b) by {
            }
        }
    }
    (count, Ghost(s))
}

// ---------------------------------------------------------------------------
// Contraction of one state.
// ---------------------------------------------------------------------------
/// Every closure of the input contains `s`.
spec fn least(s: Set<(u32, u32)>, fo: Seq<u32>, ed: Seq<u32>, rank: Seq<u32>, n: int) -> bool {
    forall|t: Set<(u32, u32)>| #[trigger] contains_base(t, fo, ed, n) && shortcut_closed(t, rank) ==> s.subset_of(t)
}

/// Shortcut insertion has been done for every middle ranked below `step`.
spec fn closed_below(s: Set<(u32, u32)>, rank: Seq<u32>, step: int) -> bool {
    forall|x: u32, w: u32, y: u32|
        #![trigger s.contains((x, w)), s.contains((w, y))]
        s.contains((x, w)) && s.contains((w, y)) && rank[w as int] < step && rank[w as int] < rank[x as int]
            && rank[w as int] < rank[y as int] && x != y ==> s.contains((x, y))
}

/// `list` holds, once each, the arcs of `s` in direction `up` whose owner
/// has been contracted.
spec fn emitted_ok(list: Seq<(u32, u32)>, s: Set<(u32, u32)>, rank: Seq<u32>, step: int, up: bool) -> bool {
    &&& list.no_duplicates()
    &&& forall|j: int|
        0 <= j < list.len() ==> s.contains(#[trigger] list[j]) && goes_up(rank, list[j]) == up
            && rank[owner_of(rank, list[j])] < step
    &&& forall|a: (u32, u32)|
        #[trigger] s.contains(a) && goes_up(rank, a) == up && rank[owner_of(rank, a)] < step ==> list.contains(a)
}

/// `s2` grows `s` by arcs whose endpoints both rank above `i`.
spec fn grows_above(s: Set<(u32, u32)>, s2: Set<(u32, u32)>, rank: Seq<u32>, i: int) -> bool {
    &&& s.subset_of(s2)
    &&& forall|a: (u32, u32)|
        #[trigger] s2.contains(a) && !s.contains(a) ==> rank[a.0 as int] > i && rank[a.1 as int] > i
}

/// `list` holds, in increasing order, the heads of the arcs of `s` leaving
/// `v` upwards (`out`), or the tails of those entering it from above.
spec fn neighbours_ok(list: Seq<u32>, s: Set<(u32, u32)>, rank: Seq<u32>, n: int, v: u32, out: bool) -> bool {
    &&& forall|m: int|
        0 <= m < list.len() ==> (#[trigger] list[m] as int) < n && rank[v as int] < rank[list[m] as int] && s.contains(
            if out {
                (v, list[m])
            } else {
                (list[m], v)
            },
        )
    &&& forall|m1: int, m2: int| 0 <= m1 < m2 < list.len() ==> list[m1] < list[m2]
    &&& forall|w: u32|
        s.contains(
            if out {
                (v, w)
            } else {
                (w, v)
            },
        ) && rank[v as int] < rank[w as int] ==> #[trigger] list.contains(w)
}

spec fn row_arcs(v: u32, others: Seq<u32>, out: bool) -> Seq<(u32, u32)> {
    Seq::new(
        others.len(),
        |m: int|
            if out {
                (v, others[m])
            } else {
                (others[m], v)
            },
    )
}

proof fn lemma_grows_trans(s: Set<(u32, u32)>, s2: Set<(u32, u32)>, s3: Set<(u32, u32)>, rank: Seq<u32>, i: int)
    requires
        grows_above(s, s2, rank, i),
        grows_above(s2, s3, rank, i),
    ensures
        grows_above(s, s3, rank, i),
{
}

proof fn lemma_closed_below_grows(s: Set<(u32, u32)>, s2: Set<(u32, u32)>, rank: Seq<u32>, i: int)
    requires
        closed_below(s, rank, i),
        grows_above(s, s2, rank, i),
    ensures
        closed_below(s2, rank, i),
{
    assert forall|x: u32, w: u32, y: u32|
        #![trigger s2.contains((x, w)), s2.contains((w, y))]
        s2.contains((x, w)) && s2.contains((w, y)) && rank[w as int] < i && rank[w as int] < rank[x as int]
            && rank[w as int] < rank[y as int] && x != y implies s2.contains((x, y)) by {
        assert(s.contains((x, w)));
        assert(s.contains((w, y)));
    }
}

proof fn lemma_emitted_grows(list: Seq<(u32, u32)>, s: Set<(u32, u32)>, s2: Set<(u32, u32)>, rank: Seq<u32>, i: int, up: bool)
    requires
        emitted_ok(list, s, rank, i + 1, up),
        grows_above(s, s2, rank, i),
    ensures
        emitted_ok(list, s2, rank, i + 1, up),
{
    assert forall|a: (u32, u32)|
        #[trigger] s2.contains(a) && goes_up(rank, a) == up && rank[owner_of(rank, a)] < i + 1 implies list.contains(a) by {
        assert(s.contains(a));
    }
}

/// Splits the keys owned by `v` into the tails of its incoming arcs and the
/// heads of its outgoing arcs.
fn split_owned(
    owned: &Vec<u64>,
    v: u32,
    Ghost(s): Ghost<Set<(u32, u32)>>,
    Ghost(rank): Ghost<Seq<u32>>,
    Ghost(n): Ghost<int>,
) -> (r: (Vec<u32>, Vec<u32>))
    requires
        n <= u32::MAX,
        0 <= v < n,
        rank.len() == n,
        strictly_sorted(owned@),
        forall|j: int| 0 <= j < owned@.len() ==> key_ok(#[trigger] owned@[j], v as int, s, rank, n),
        forall|a: (u32, u32)|
            #[trigger] s.contains(a) && owner_of(rank, a) == v as int ==> owned@.contains(key_of(rank, a)),
    ensures
        neighbours_ok(r.0@, s, rank, n, v, false),
        neighbours_ok(r.1@, s, rank, n, v, true),
{
    let mut incoming: Vec<u32> = Vec::new();
    let mut outgoing: Vec<u32> = Vec::new();
    let mut j: usize = 0;
    while j < owned.len()
        invariant
            n <= u32::MAX,
            0 <= v < n,
            rank.len() == n,
            j <= owned@.len(),
            strictly_sorted(owned@),
            forall|jj: int| 0 <= jj < owned@.len() ==> key_ok(#[trigger] owned@[jj], v as int, s, rank, n),
            forall|m: int|
                0 <= m < outgoing@.len() ==> (#[trigger] outgoing@[m] as int) < n && rank[v as int]
                    < rank[outgoing@[m] as int] && s.contains((v, outgoing@[m])),
            forall|m: int|
                0 <= m < incoming@.len() ==> (#[trigger] incoming@[m] as int) < n && rank[v as int]
                    < rank[incoming@[m] as int] && s.contains((incoming@[m], v)),
            forall|m1: int, m2: int| 0 <= m1 < m2 < outgoing@.len() ==> outgoing@[m1] < outgoing@[m2],
            forall|m1: int, m2: int| 0 <= m1 < m2 < incoming@.len() ==> incoming@[m1] < incoming@[m2],
            forall|m: int, jj: int|
                #![trigger outgoing@[m], owned@[jj]]
                0 <= m < outgoing@.len() && j <= jj < owned@.len() ==> outgoing@[m] * 2 + 1 < owned@[jj],
            forall|m: int, jj: int|
                #![trigger incoming@[m], owned@[jj]]
                0 <= m < incoming@.len() && j <= jj < owned@.len() ==> incoming@[m] * 2 < owned@[jj],
            forall|jj: int|
                0 <= jj < j ==> (#[trigger] owned@[jj] % 2 == 1 ==> outgoing@.contains((owned@[jj] / 2) as u32)),
            forall|jj: int|
                0 <= jj < j ==> (#[trigger] owned@[jj] % 2 == 0 ==> incoming@.contains((owned@[jj] / 2) as u32)),
        decreases owned@.len() - j,
    {
        let key = owned[j];
        let other = (key / 2) as u32;
        proof {
            assert(key_ok(owned@[j as int], v as int, s, rank, n));
        }
        if key % 2 == 1 {
            let ghost before = outgoing@;
            outgoing.push(other);
            proof {
                assert(outgoing@[before.len() as int] == other);
                assert forall|jj: int| 0 <= jj < j + 1 implies (#[trigger] owned@[jj] % 2 == 1
                    ==> outgoing@.contains((owned@[jj] / 2) as u32)) by {
                    if jj < j && owned@[jj] % 2 == 1 {
                        let m = choose|m: int| 0 <= m < before.len() && before[m] == (owned@[jj] / 2) as u32;
                        assert(outgoing@[m] == before[m]);
                    }
                }
                assert forall|m: int, jj: int|
                    #![trigger outgoing@[m], owned@[jj]]
                    0 <= m < outgoing@.len() && j + 1 <= jj < owned@.len() implies outgoing@[m] * 2 + 1
                    < owned@[jj] by {
                    assert(owned@[j as int] < owned@[jj]);
                }
            }
        } else {
            let ghost before = incoming@;
            incoming.push(other);
            proof {
                assert(incoming@[before.len() as int] == other);
                assert forall|jj: int| 0 <= jj < j + 1 implies (#[trigger] owned@[jj] % 2 == 0
                    ==> incoming@.contains((owned@[jj] / 2) as u32)) by {
                    if jj < j && owned@[jj] % 2 == 0 {
                        let m = choose|m: int| 0 <= m < before.len() && before[m] == (owned@[jj] / 2) as u32;
                        assert(incoming@[m] == before[m]);
                    }
                }
                assert forall|m: int, jj: int|
                    #![trigger incoming@[m], owned@[jj]]
                    0 <= m < incoming@.len() && j + 1 <= jj < owned@.len() implies incoming@[m] * 2
                    < owned@[jj] by {
                    assert(owned@[j as int] < owned@[jj]);
                }
            }
        }
        j += 1;
    }
    proof {
        assert forall|w: u32| s.contains((v, w)) && rank[v as int] < rank[w as int] implies #[trigger] outgoing@.contains(w) by {
            let a = (v, w);
            assert(owned@.contains(key_of(rank, a)));
            let jj = choose|jj: int| 0 <= jj < owned@.len() && owned@[jj] == key_of(rank, a);
            assert(owned@[jj] % 2 == 1);
        }
        assert forall|w: u32| s.contains((w, v)) && rank[v as int] < rank[w as int] implies #[trigger] incoming@.contains(w) by {
            let a = (w, v);
            assert(owned@.contains(key_of(rank, a)));
            let jj = choose|jj: int| 0 <= jj < owned@.len() && owned@[jj] == key_of(rank, a);
            assert(owned@[jj] % 2 == 0);
        }
    }
    (incoming, outgoing)
}

/// Appends the arcs between `v` and each of `others`.
fn emit_row(list: &mut Vec<(u32, u32)>, v: u32, others: &Vec<u32>, out: bool)
    ensures
        final(list)@ == old(list)@ + row_arcs(v, others@, out),
{
    let mut m: usize = 0;
    while m < others.len()
        invariant
            m <= others@.len(),
            list@ == old(list)@ + row_arcs(v, others@, out).take(m as int),
        decreases others@.len() - m,
    {
        if out {
            list.push((v, others[m]));
        } else {
            list.push((others[m], v));
        }
        proof {
            assert(row_arcs(v, others@, out).take(m + 1) =~= row_arcs(v, others@, out).take(m as int).push(
                row_arcs(v, others@, out)[m as int],
            ));
            assert(list@ =~= old(list)@ + row_arcs(v, others@, out).take(m + 1));
        }
        m += 1;
    }
    proof {
        assert(row_arcs(v, others@, out).take(others@.len() as int) =~= row_arcs(v, others@, out));
    }
}

proof fn lemma_emit(
    list: Seq<(u32, u32)>,
    others: Seq<u32>,
    s: Set<(u32, u32)>,
    rank: Seq<u32>,
    order: Seq<u32>,
    n: int,
    i: int,
    v: u32,
    out: bool,
)
    requires
        rank_ok(rank, order, n),
        arcs_proper(s, n),
        0 <= i < n,
        order[i] == v,
        emitted_ok(list, s, rank, i, out),
        neighbours_ok(others, s, rank, n, v, out),
    ensures
        emitted_ok(list + row_arcs(v, others, out), s, rank, i + 1, out),
{
    let row = row_arcs(v, others, out);
    let all = list + row;
    assert(rank[v as int] == i);
    assert forall|j: int| 0 <= j < row.len() implies s.contains(#[trigger] row[j]) && goes_up(rank, row[j]) == out
        && owner_of(rank, row[j]) == v as int by {
        assert(rank[v as int] < rank[others[j] as int]);
    }
    assert forall|j: int| 0 <= j < all.len() implies s.contains(#[trigger] all[j]) && goes_up(rank, all[j]) == out
        && rank[owner_of(rank, all[j])] < i + 1 by {
        if j < list.len() {
            assert(all[j] == list[j]);
        } else {
            assert(all[j] == row[j - list.len()]);
        }
    }
    assert forall|j: int, k: int| 0 <= j < all.len() && 0 <= k < all.len() && j != k implies all[j] != all[k] by {
        if j < list.len() && k < list.len() {
            assert(all[j] == list[j] && all[k] == list[k]);
        } else if j < list.len() {
            assert(all[j] == list[j]);
            assert(all[k] == row[k - list.len()]);
            assert(rank[owner_of(rank, list[j])] < i);
        } else if k < list.len() {
            assert(all[k] == list[k]);
            assert(all[j] == row[j - list.len()]);
            assert(rank[owner_of(rank, list[k])] < i);
        } else {
            assert(all[j] == row[j - list.len()]);
            assert(all[k] == row[k - list.len()]);
            let (a, b) = if j < k {
                (j - list.len(), k - list.len())
            } else {
                (k - list.len(), j - list.len())
            };
            assert(others[a] < others[b]);
        }
    }
    assert forall|a: (u32, u32)|
        #[trigger] s.contains(a) && goes_up(rank, a) == out && rank[owner_of(rank, a)] < i + 1 implies all.contains(a) by {
        if rank[owner_of(rank, a)] < i {
            let j = choose|j: int| 0 <= j < list.len() && list[j] == a;
            assert(all[j] == a);
        } else {
            let w = owner_of(rank, a);
            assert(is_proper_arc(a, n));
            assert(order[rank[w] as int] as int == w);
            assert(w == v as int);
            let o = if out {
                a.1
            } else {
                a.0
            };
            if out {
                assert(a == (v, o));
            } else {
                assert(a == (o, v));
                assert(rank[v as int] != rank[o as int]) by {
                    assert(order[rank[o as int] as int] == o);
                }
            }
            assert(others.contains(o));
            let m = choose|m: int| 0 <= m < others.len() && others[m] == o;
            assert(all[list.len() + m] == row[m]);
        }
    }
}

/// Inserts the shortcut `x -> y` for every incoming tail `x` and outgoing
/// head `y` of the contracted state `v`.
fn insert_shortcuts(
    pending: &mut Vec<Vec<u64>>,
    rank: &Vec<u32>,
    v: u32,
    incoming: &Vec<u32>,
    outgoing: &Vec<u32>,
    shortcut_count: &mut u64,
    Ghost(s): Ghost<Set<(u32, u32)>>,
    Ghost(order): Ghost<Seq<u32>>,
    Ghost(i): Ghost<int>,
    Ghost(n): Ghost<int>,
    Ghost(fo): Ghost<Seq<u32>>,
    Ghost(ed): Ghost<Seq<u32>>,
    Ghost(base_len): Ghost<int>,
) -> (s2: Ghost<Set<(u32, u32)>>)
    requires
        old(pending)@.len() == n,
        n <= u32::MAX,
        rank_ok(rank@, order, n),
        0 <= i < n,
        order[i] == v,
        pending_ok(old(pending)@, s, rank@, n, i + 1),
        arcs_proper(s, n),
        s.finite(),
        least(s, fo, ed, rank@, n),
        neighbours_ok(incoming@, s, rank@, n, v, false),
        neighbours_ok(outgoing@, s, rank@, n, v, true),
        0 <= base_len <= s.len(),
        *old(shortcut_count) == s.len() - base_len,
    ensures
        final(pending)@.len() == n,
        pending_ok(final(pending)@, s2@, rank@, n, i + 1),
        arcs_proper(s2@, n),
        s2@.finite(),
        least(s2@, fo, ed, rank@, n),
        grows_above(s, s2@, rank@, i),
        *final(shortcut_count) == s2@.len() - base_len,
        forall|x: u32, y: u32|
            #![trigger incoming@.contains(x), outgoing@.contains(y)]
            incoming@.contains(x) && outgoing@.contains(y) && x != y ==> s2@.contains((x, y)),
{
    let ghost mut cur = s;
    proof {
        assert(rank@[v as int] == i);
        assert((n as int) * (n as int) <= 0xffff_ffff * 0xffff_ffff) by (nonlinear_arith)
            requires
                0 <= n <= u32::MAX,
        ;
    }
    let mut ti: usize = 0;
    while ti < incoming.len()
        invariant
            pending@.len() == n,
            n <= u32::MAX,
            (n as int) * (n as int) <= 0xffff_ffff * 0xffff_ffff,
            rank_ok(rank@, order, n),
            0 <= i < n,
            rank@[v as int] == i,
            ti <= incoming@.len(),
            pending_ok(pending@, cur, rank@, n, i + 1),
            arcs_proper(cur, n),
            cur.finite(),
            least(cur, fo, ed, rank@, n),
            grows_above(s, cur, rank@, i),
            neighbours_ok(incoming@, s, rank@, n, v, false),
            neighbours_ok(outgoing@, s, rank@, n, v, true),
            0 <= base_len <= s.len(),
            *shortcut_count == cur.len() - base_len,
            forall|tt: int, hh: int|
                #![trigger incoming@[tt], outgoing@[hh]]
                0 <= tt < ti && 0 <= hh < outgoing@.len() && incoming@[tt] != outgoing@[hh] ==> cur.contains(
                    (incoming@[tt], outgoing@[hh]),
                ),
        decreases incoming@.len() - ti,
    {
        let x = incoming[ti];
        let mut hj: usize = 0;
        while hj < outgoing.len()
            invariant
                pending@.len() == n,
                n <= u32::MAX,
                (n as int) * (n as int) <= 0xffff_ffff * 0xffff_ffff,
                rank_ok(rank@, order, n),
                0 <= i < n,
                rank@[v as int] == i,
                ti < incoming@.len(),
                x == incoming@[ti as int],
                hj <= outgoing@.len(),
                pending_ok(pending@, cur, rank@, n, i + 1),
                arcs_proper(cur, n),
                cur.finite(),
                least(cur, fo, ed, rank@, n),
                grows_above(s, cur, rank@, i),
                neighbours_ok(incoming@, s, rank@, n, v, false),
                neighbours_ok(outgoing@, s, rank@, n, v, true),
                0 <= base_len <= s.len(),
                *shortcut_count == cur.len() - base_len,
                forall|tt: int, hh: int|
                    #![trigger incoming@[tt], outgoing@[hh]]
                    (0 <= tt < ti && 0 <= hh < outgoing@.len() || tt == ti && 0 <= hh < hj) && incoming@[tt]
                        != outgoing@[hh] ==> cur.contains((incoming@[tt], outgoing@[hh])),
            decreases outgoing@.len() - hj,
        {
            let y = outgoing[hj];
            if x != y {
                let ghost a = (x, y);
                let ghost p = pending@;
                proof {
                    assert(s.contains((x, v)));
                    assert(s.contains((v, y)));
                    assert(rank@[v as int] < rank@[x as int]);
                    assert(rank@[v as int] < rank@[y as int]);
                    lemma_key_round_trip(rank@, order, n, a);
                }
                let inserted = add_arc(pending, rank, x, y);
                proof {
                    lemma_pending_insert(p, pending@, cur, rank@, order, n, i + 1, a);
                    let next = cur.insert(a);
                    lemma_arc_set_len(next, n);
                    assert forall|t: Set<(u32, u32)>| #[trigger]
                        contains_base(t, fo, ed, n) && shortcut_closed(t, rank@) implies next.subset_of(t) by {
                        assert(cur.subset_of(t));
                        assert(t.contains((x, v)));
                        assert(t.contains((v, y)));
                    }
                    cur = next;
                }
                if inserted {
                    *shortcut_count = *shortcut_count + 1;
                }
            }
            hj += 1;
        }
        ti += 1;
    }
    proof {
        assert forall|x: u32, y: u32|
            #![trigger incoming@.contains(x), outgoing@.contains(y)]
            incoming@.contains(x) && outgoing@.contains(y) && x != y implies cur.contains((x, y)) by {
            let tt = choose|tt: int| 0 <= tt < incoming@.len() && incoming@[tt] == x;
            let hh = choose|hh: int| 0 <= hh < outgoing@.len() && outgoing@[hh] == y;
            assert(incoming@[tt] != outgoing@[hh]);
        }
    }
    Ghost(cur)
}

/// Contracts state `v`, of rank `i`: emits the arcs it owns and inserts
/// the shortcuts that bypass it.
fn contract_state(
    pending: &mut Vec<Vec<u64>>,
    rank: &Vec<u32>,
    v: u32,
    upward: &mut Vec<(u32, u32)>,
    downward: &mut Vec<(u32, u32)>,
    shortcut_count: &mut u64,
    Ghost(s): Ghost<Set<(u32, u32)>>,
    Ghost(order): Ghost<Seq<u32>>,
    Ghost(i): Ghost<int>,
    Ghost(n): Ghost<int>,
    Ghost(fo): Ghost<Seq<u32>>,
    Ghost(ed): Ghost<Seq<u32>>,
    Ghost(base_len): Ghost<int>,
) -> (s2: Ghost<Set<(u32, u32)>>)
    requires
        old(pending)@.len() == n,
        n <= u32::MAX,
        rank_ok(rank@, order, n),
        0 <= i < n,
        order[i] == v,
        pending_ok(old(pending)@, s, rank@, n, i),
        arcs_proper(s, n),
        s.finite(),
        closed_below(s, rank@, i),
        least(s, fo, ed, rank@, n),
        emitted_ok(old(upward)@, s, rank@, i, true),
        emitted_ok(old(downward)@, s, rank@, i, false),
        0 <= base_len <= s.len(),
        *old(shortcut_count) == s.len() - base_len,
    ensures
        final(pending)@.len() == n,
        pending_ok(final(pending)@, s2@, rank@, n, i + 1),
        arcs_proper(s2@, n),
        s2@.finite(),
        closed_below(s2@, rank@, i + 1),
        least(s2@, fo, ed, rank@, n),
        emitted_ok(final(upward)@, s2@, rank@, i + 1, true),
        emitted_ok(final(downward)@, s2@, rank@, i + 1, false),
        s.subset_of(s2@),
        *final(shortcut_count) == s2@.len() - base_len,
{
    let ghost p0 = pending@;
    proof {
        assert(rank@[v as int] == i);
    }
    let mut owned: Vec<u64> = Vec::new();
    std::mem::swap(&mut owned, &mut pending[v as usize]);
    proof {
        assert(owned == p0[v as int]);
        assert(pending@.len() == p0.len());
        assert(forall|o: int| 0 <= o < n && o != v as int ==> pending@[o] == p0[o]);
        assert(pending@[v as int]@.len() == 0);
        assert forall|o: int| 0 <= o < n implies strictly_sorted(#[trigger] pending@[o]@) by {
            if o != v as int {
                assert(pending@[o] == p0[o]);
            }
        }
        assert forall|o: int, j: int| 0 <= o < n && 0 <= j < pending@[o]@.len() implies key_ok(
            #[trigger] pending@[o]@[j],
            o,
            s,
            rank@,
            n,
        ) by {
            assert(o != v as int);
            assert(pending@[o] == p0[o]);
        }
        assert forall|o: int| 0 <= o < n && rank@[o] < i + 1 implies (#[trigger] pending@[o]@).len() == 0 by {
            if o != v as int {
                assert(pending@[o] == p0[o]);
            }
        }
        assert forall|a: (u32, u32)| #[trigger]
            s.contains(a) && rank@[owner_of(rank@, a)] >= i + 1 implies pending@[owner_of(
            rank@,
            a,
        )]@.contains(key_of(rank@, a)) by {
            assert(is_proper_arc(a, n));
            assert(owner_of(rank@, a) != v as int);
        }
        assert(pending_ok(pending@, s, rank@, n, i + 1));
        assert forall|j: int| 0 <= j < owned@.len() implies key_ok(#[trigger] owned@[j], v as int, s, rank@, n) by {
            assert(owned@[j] == p0[v as int]@[j]);
        }
        assert forall|a: (u32, u32)| #[trigger]
            s.contains(a) && owner_of(rank@, a) == v as int implies owned@.contains(key_of(rank@, a)) by {
        }
    }
    let (incoming, outgoing) = split_owned(&owned, v, Ghost(s), Ghost(rank@), Ghost(n));
    let ghost up0 = upward@;
    let ghost down0 = downward@;
    emit_row(upward, v, &outgoing, true);
    emit_row(downward, v, &incoming, false);
    proof {
        lemma_emit(up0, outgoing@, s, rank@, order, n, i, v, true);
        lemma_emit(down0, incoming@, s, rank@, order, n, i, v, false);
    }
    let s2 = insert_shortcuts(
        pending,
        rank,
        v,
        &incoming,
        &outgoing,
        shortcut_count,
        Ghost(s),
        Ghost(order),
        Ghost(i),
        Ghost(n),
        Ghost(fo),
        Ghost(ed),
        Ghost(base_len),
    );
    proof {
        let t = s2@;
        lemma_closed_below_grows(s, t, rank@, i);
        lemma_emitted_grows(upward@, s, t, rank@, i, true);
        lemma_emitted_grows(downward@, s, t, rank@, i, false);
        assert forall|x: u32, w: u32, y: u32|
            #![trigger t.contains((x, w)), t.contains((w, y))]
            t.contains((x, w)) && t.contains((w, y)) && rank@[w as int] < i + 1 && rank@[w as int] < rank@[x as int]
                && rank@[w as int] < rank@[y as int] && x != y implies t.contains((x, y)) by {
            if rank@[w as int] == i {
                assert(is_proper_arc((x, w), n));
                assert(order[rank@[w as int] as int] == w);
                assert(w == v);
                assert(s.contains((x, w)));
                assert(s.contains((w, y)));
                assert(incoming@.contains(x));
                assert(outgoing@.contains(y));
            }
        }
    }
    s2
}

// ---------------------------------------------------------------------------
// The whole build.
// ---------------------------------------------------------------------------
/// Rows compressed from a sorted list of distinct arcs describe its set.
proof fn lemma_csr_describes(first_out: Seq<u32>, heads: Seq<u32>, arcs: Seq<(u32, u32)>, set: Set<(u32, u32)>, n: int)
    requires
        csr_of(first_out, heads, arcs, n),
        sorted_pairs(arcs),
        arcs.no_duplicates(),
        forall|i: int| 0 <= i < arcs.len() ==> (#[trigger] arcs[i].0 as int) < n,
        forall|a: (u32, u32)| #[trigger] set.contains(a) <==> arcs.contains(a),
        n >= 0,
    ensures
        csr_describes(first_out, heads, n, set),
{
    lemma_tails_below_all(arcs, n);
    assert forall|t: int| 0 <= t < n implies #[trigger] first_out[t] <= first_out[t + 1] by {
        lemma_tails_below_sorted_mono(arcs, t, t + 1);
    }
    assert forall|t: int, i: int|
        0 <= t < n && first_out[t] <= i < first_out[t + 1] implies #[trigger] set.contains(
        (t as u32, heads[i]),
    ) by {
        lemma_tails_below_sorted(arcs, t);
        lemma_tails_below_sorted(arcs, t + 1);
        assert(arcs[i].0 as int == t);
        assert(arcs.contains(arcs[i]));
    }
    assert forall|t: int, i: int, j: int|
        #![trigger first_out[t], heads[i], heads[j]]
        0 <= t < n && first_out[t] <= i < j < first_out[t + 1] implies heads[i] < heads[j] by {
        lemma_tails_below_sorted(arcs, t);
        lemma_tails_below_sorted(arcs, t + 1);
        assert(pair_le(arcs[i], arcs[j]));
        assert(arcs[i] != arcs[j]);
    }
    assert forall|a: (u32, u32)| #[trigger] set.contains(a) implies (a.0 as int) < n && exists|i: int|
        first_out[a.0 as int] <= i < first_out[a.0 + 1] && #[trigger] heads[i] == a.1 by {
        let i = choose|i: int| 0 <= i < arcs.len() && arcs[i] == a;
        assert(first_out[(arcs[i]).0 as int] <= i < first_out[arcs[i].0 + 1]);
        assert(heads[i] == a.1);
    }
}

/// Sorting a list of distinct arcs keeps it free of repeats and keeps its
/// set of arcs.
proof fn lemma_sorted_copy(before: Seq<(u32, u32)>, after: Seq<(u32, u32)>)
    requires
        before.no_duplicates(),
        after.to_multiset() == before.to_multiset(),
    ensures
        after.no_duplicates(),
        after.len() == before.len(),
        forall|a: (u32, u32)| #[trigger] after.contains(a) <==> before.contains(a),
{
    broadcast use vstd::multiset::group_multiset_axioms;
    before.lemma_multiset_has_no_duplicates();
    after.lemma_multiset_has_no_duplicates_conv();
    assert forall|a: (u32, u32)| #[trigger] after.contains(a) <==> before.contains(a) by {
        vstd::seq_lib::to_multiset_contains(after, a);
        vstd::seq_lib::to_multiset_contains(before, a);
    }
    vstd::seq_lib::to_multiset_len(after);
    vstd::seq_lib::to_multiset_len(before);
}

/// The number of distinct arcs in a list without repeats is its length.
proof fn lemma_emitted_len(list: Seq<(u32, u32)>, set: Set<(u32, u32)>)
    requires
        list.no_duplicates(),
        forall|a: (u32, u32)| #[trigger] set.contains(a) <==> list.contains(a),
    ensures
        set.len() == list.len(),
        set.finite(),
{
    list.unique_seq_to_set();
    assert(list.to_set() =~= set);
    vstd::seq_lib::seq_to_set_is_finite(list);
}

/// The elimination closure of an input is unique.
pub proof fn lemma_elimination_closure_unique(
    s1: Set<(u32, u32)>,
    s2: Set<(u32, u32)>,
    first_out: Seq<u32>,
    edges: Seq<u32>,
    rank: Seq<u32>,
    n: int,
)
    requires
        is_elimination_closure(s1, first_out, edges, rank, n),
        is_elimination_closure(s2, first_out, edges, rank, n),
    ensures
        s1 == s2,
{
    assert(s1.subset_of(s2));
    assert(s2.subset_of(s1));
    assert(s1 =~= s2);
}

/// The arcs and counts of a bundle are those of the elimination closure of
/// the transitions under `order`: upward and downward rows, base arcs
/// (the transitions) and shortcuts.
pub open spec fn arcs_of_order(r: DatasetAccelerationBundle, fo: Seq<u32>, ed: Seq<u32>, order: Seq<u32>, n: int) -> bool {
    exists|s: Set<(u32, u32)>|
        #[trigger] is_elimination_closure(s, fo, ed, ranks_of_order(order), n) && r.stats.total_arc_count == s.len()
            && r.stats.base_arc_count == base_arcs_of(s, fo, ed, n).len() && r.stats.shortcut_arc_count == s.len()
            - base_arcs_of(s, fo, ed, n).len() && csr_describes(
            r.upward_first_out@,
            r.upward_head@,
            n,
            upward_arcs(s, ranks_of_order(order)),
        ) && csr_describes(r.downward_first_out@, r.downward_head@, n, downward_arcs(s, ranks_of_order(order)))
}

/// The ranks of an edge order invert it.
pub proof fn lemma_ranks_of_edge_order(order: Seq<u32>, n: int)
    requires
        is_edge_order(order, n),
        n <= u32::MAX + 1,
    ensures
        rank_ok(ranks_of_order(order), order, n),
{
    let rank = ranks_of_order(order);
    assert forall|v: int| 0 <= v < n implies (#[trigger] rank[v] as int) < n && order[rank[v] as int] as int == v by {
        assert(order.contains(v as u32));
        let i = choose|i: int| 0 <= i < order.len() && order[i] as int == v;
        assert(rank[v] == i as u32);
    }
    assert forall|i: int| 0 <= i < n implies (#[trigger] order[i] as int) < n && rank[order[i] as int] as int == i by {
        let v = order[i] as int;
        let j = choose|j: int| 0 <= j < order.len() && order[j] as int == v;
        if j != i {
            if j < i {
                assert(order[j] != order[i]);
            } else {
                assert(order[i] != order[j]);
            }
        }
    }
}

/// The elimination closure holds only proper arcs.
pub proof fn lemma_closure_proper(s: Set<(u32, u32)>, fo: Seq<u32>, ed: Seq<u32>, rank: Seq<u32>, n: int)
    requires
        is_elimination_closure(s, fo, ed, rank, n),
    ensures
        arcs_proper(s, n),
{
    let t = s.filter(|a: (u32, u32)| is_proper_arc(a, n));
    assert(contains_base(t, fo, ed, n));
    assert(shortcut_closed(t, rank));
    assert(s.subset_of(t));
}

/// Lower-triangle closure of a built hierarchy: when row `x` of the
/// downward rows holds `v` and row `v` of the upward rows holds `y`, for
/// `x != y`, then `y` is in row `x` of the upward rows if `x` ranks below
/// `y`, and in row `x` of the downward rows otherwise. A query that meets
/// `v` from `x` and `y` needs no further search.
#[verifier::spinoff_prover]
#[verifier::rlimit(50)]
pub proof fn lemma_triangles_closed(
    r: DatasetAccelerationBundle,
    fo: Seq<u32>,
    ed: Seq<u32>,
    order: Seq<u32>,
    n: int,
    x: int,
    i: int,
    j: int,
)
    requires
        arcs_of_order(r, fo, ed, order, n),
        is_edge_order(order, n),
        n <= u32::MAX,
        0 <= x < n,
        r.downward_first_out@[x] <= i < r.downward_first_out@[x + 1],
        0 <= r.downward_head@[i] < n,
        r.upward_first_out@[r.downward_head@[i] as int] <= j < r.upward_first_out@[r.downward_head@[i] + 1],
        x != r.upward_head@[j],
    ensures
        ranks_of_order(order)[x] < ranks_of_order(order)[r.upward_head@[j] as int] ==> exists|k: int|
            r.upward_first_out@[x] <= k < r.upward_first_out@[x + 1] && #[trigger] r.upward_head@[k] == r.upward_head@[j],
        ranks_of_order(order)[x] > ranks_of_order(order)[r.upward_head@[j] as int] ==> exists|k: int|
            r.downward_first_out@[x] <= k < r.downward_first_out@[x + 1] && #[trigger] r.downward_head@[k]
                == r.upward_head@[j],
{
    let rank = ranks_of_order(order);
    let s = choose|s: Set<(u32, u32)>|
        #[trigger] is_elimination_closure(s, fo, ed, rank, n) && r.stats.total_arc_count == s.len()
            && r.stats.base_arc_count == base_arcs_of(s, fo, ed, n).len() && r.stats.shortcut_arc_count == s.len()
            - base_arcs_of(s, fo, ed, n).len() && csr_describes(
            r.upward_first_out@,
            r.upward_head@,
            n,
            upward_arcs(s, rank),
        ) && csr_describes(r.downward_first_out@, r.downward_head@, n, downward_arcs(s, rank));
    lemma_ranks_of_edge_order(order, n);
    lemma_closure_proper(s, fo, ed, rank, n);
    let v = r.downward_head@[i];
    let y = r.upward_head@[j];
    let xu = x as u32;
    let up = upward_arcs(s, rank);
    let down = downward_arcs(s, rank);
    assert(csr_describes(r.downward_first_out@, r.downward_head@, n, down));
    assert(csr_describes(r.upward_first_out@, r.upward_head@, n, up));
    assert(down.contains((xu, r.downward_head@[i])));
    let vi = v as int;
    assert(vi as u32 == v);
    assert(r.upward_first_out@[vi] <= j < r.upward_first_out@[vi + 1]);
    assert(up.contains((vi as u32, r.upward_head@[j])));
    assert(s.contains((xu, v)) && s.contains((v, y)));
    assert(is_proper_arc((xu, v), n));
    assert(is_proper_arc((v, y), n));
    assert(order[rank[v as int] as int] == v && order[rank[x] as int] as int == x);
    assert(rank[v as int] < rank[xu as int]);
    assert(s.contains((xu, y)));
    if rank[x] < rank[y as int] {
        assert(upward_arcs(s, rank).contains((xu, y)));
    } else if rank[x] > rank[y as int] {
        assert(downward_arcs(s, rank).contains((xu, y)));
    }
}

/// Builds the metric-independent CCH of a dataset for a given contraction
/// order: edge state `edge_order[i]` is contracted `i`-th, arcs are the
/// legal transitions plus every elimination shortcut, split by rank
/// direction into upward and downward rows sorted by head.
pub fn build_with_order(
    edge_count: usize,
    transitions: &EdgeBasedTopology,
    source_topology_bundle_id: CacheBundleId,
    edge_order: Vec<u32>,
) -> (r: DatasetAccelerationBundle)
    requires
        edge_count <= u32::MAX,
        edge_count < usize::MAX,
        is_edge_order(edge_order@, edge_count as int),
        transitions.edge_transition_first_out@.len() == edge_count + 1 ==> forall|e: int|
            0 <= e < edge_count ==> #[trigger] transitions.edge_transition_first_out@[e]
                <= transitions.edge_transition_first_out@[e + 1] <= transitions.edge_transition_edges@.len(),
        closure_fits_u32(
            transitions.edge_transition_first_out@,
            transitions.edge_transition_edges@,
            edge_order@,
            edge_count as int,
        ),
    ensures
        r.schema_version == ACCELERATION_BUNDLE_SCHEMA_VERSION,
        r.source_topology_bundle_id == source_topology_bundle_id,
        r.algorithm@ == CCH_ALGORITHM@,
        r.edge_order@ == edge_order@,
        r.edge_rank@ == ranks_of_order(edge_order@),
        arcs_of_order(r, transitions.edge_transition_first_out@, transitions.edge_transition_edges@, edge_order@, edge_count as int),
        r.stats.total_arc_count == r.stats.base_arc_count + r.stats.shortcut_arc_count,
        r.stats.total_arc_count == r.upward_head@.len() + r.downward_head@.len(),
{
    let r = build_with_order_checked(edge_count, transitions, source_topology_bundle_id, edge_order);
    r.unwrap()
}

/// Builds the metric-independent CCH of a dataset for a given contraction
/// order, as `build_with_order` does; `None` when the upward or the
/// downward arcs of the order's elimination closure are more than the `u32`
/// offsets of the rows can count.
pub fn build_with_order_checked(
    edge_count: usize,
    transitions: &EdgeBasedTopology,
    source_topology_bundle_id: CacheBundleId,
    edge_order: Vec<u32>,
) -> (r: Option<DatasetAccelerationBundle>)
    requires
        edge_count <= u32::MAX,
        edge_count < usize::MAX,
        is_edge_order(edge_order@, edge_count as int),
        transitions.edge_transition_first_out@.len() == edge_count + 1 ==> forall|e: int|
            0 <= e < edge_count ==> #[trigger] transitions.edge_transition_first_out@[e]
                <= transitions.edge_transition_first_out@[e + 1] <= transitions.edge_transition_edges@.len(),
    ensures
        r is Some <==> closure_fits_u32(
            transitions.edge_transition_first_out@,
            transitions.edge_transition_edges@,
            edge_order@,
            edge_count as int,
        ),
        r matches Some(b) ==> {
            &&& b.schema_version == ACCELERATION_BUNDLE_SCHEMA_VERSION
            &&& b.source_topology_bundle_id == source_topology_bundle_id
            &&& b.algorithm@ == CCH_ALGORITHM@
            &&& b.edge_order@ == edge_order@
            &&& b.edge_rank@ == ranks_of_order(edge_order@)
            &&& arcs_of_order(b, transitions.edge_transition_first_out@, transitions.edge_transition_edges@, edge_order@, edge_count as int)
            &&& b.stats.total_arc_count == b.stats.base_arc_count + b.stats.shortcut_arc_count
            &&& b.stats.total_arc_count == b.upward_head@.len() + b.downward_head@.len()
        },
{
    let n = edge_count;
    let ghost fo = transitions.edge_transition_first_out@;
    let ghost ed = transitions.edge_transition_edges@;
    let ghost order = edge_order@;
    let edge_rank = ranks_from_order(&edge_order, n);
    let ghost rank = edge_rank@;
    let mut pending: Vec<Vec<u64>> = Vec::new();
    let mut o: usize = 0;
    while o < n
        invariant
            o <= n,
            pending@.len() == o,
            forall|q: int| 0 <= q < o ==> (#[trigger] pending@[q]@).len() == 0,
        decreases n - o,
    {
        pending.push(Vec::new());
        o += 1;
    }
    let (base_count, base_set) = insert_base_arcs(
        &mut pending,
        &edge_rank,
        &transitions.edge_transition_first_out,
        &transitions.edge_transition_edges,
        n,
        Ghost(order),
    );
    let ghost s0 = base_set@;
    let ghost mut s = s0;
    let mut upward: Vec<(u32, u32)> = Vec::new();
    let mut downward: Vec<(u32, u32)> = Vec::new();
    let mut shortcut_count: u64 = 0;
    proof {
        assert forall|t: Set<(u32, u32)>| #[trigger]
            contains_base(t, fo, ed, n as int) && shortcut_closed(t, rank) implies s0.subset_of(t) by {
            assert forall|a: (u32, u32)| s0.contains(a) implies t.contains(a) by {
                assert(is_base_arc(fo, ed, n as int, a));
            }
        }
    }
    let mut i: usize = 0;
    while i < n
        invariant
            i <= n,
            n <= u32::MAX,
            pending@.len() == n,
            rank_ok(edge_rank@, order, n as int),
            edge_rank@ == rank,
            edge_order@ == order,
            fo == transitions.edge_transition_first_out@,
            ed == transitions.edge_transition_edges@,
            pending_ok(pending@, s, rank, n as int, i as int),
            arcs_proper(s, n as int),
            s.finite(),
            closed_below(s, rank, i as int),
            least(s, fo, ed, rank, n as int),
            emitted_ok(upward@, s, rank, i as int, true),
            emitted_ok(downward@, s, rank, i as int, false),
            s0.subset_of(s),
            s0.finite(),
            forall|a: (u32, u32)| #[trigger] s0.contains(a) <==> is_base_arc(fo, ed, n as int, a),
            base_count == s0.len(),
            shortcut_count == s.len() - s0.len(),
        decreases n - i,
    {
        let v = edge_order[i];
        proof {
            vstd::set_lib::lemma_len_subset(s0, s);
        }
        let next = contract_state(
            &mut pending,
            &edge_rank,
            v,
            &mut upward,
            &mut downward,
            &mut shortcut_count,
            Ghost(s),
            Ghost(order),
            Ghost(i as int),
            Ghost(n as int),
            Ghost(fo),
            Ghost(ed),
            Ghost(s0.len() as int),
        );
        proof {
            s = next@;
        }
        i += 1;
    }
    proof {
        assert forall|x: u32, w: u32, y: u32|
            #![trigger s.contains((x, w)), s.contains((w, y))]
            s.contains((x, w)) && s.contains((w, y)) && rank[w as int] < rank[x as int] && rank[w as int]
                < rank[y as int] && x != y implies s.contains((x, y)) by {
            assert(is_proper_arc((x, w), n as int));
        }
        assert(is_elimination_closure(s, fo, ed, rank, n as int));
        assert(is_elimination_closure(s, fo, ed, ranks_of_order(order), n as int));
        lemma_emitted_len(upward@, upward_arcs(s, rank));
        lemma_emitted_len(downward@, downward_arcs(s, rank));
        vstd::set_lib::lemma_len_subset(s0, s);
        lemma_arc_set_len(s, n as int);
        assert((n as int) * (n as int) <= 0xffff_ffff * 0xffff_ffff) by (nonlinear_arith)
            requires
                n <= u32::MAX,
        ;
        assert(base_arcs_of(s, fo, ed, n as int) =~= s0);
    }
    if upward.len() > 0xffff_ffffusize || downward.len() > 0xffff_ffffusize {
        proof {
            assert(!closure_fits_u32(fo, ed, order, n as int));
        }
        return None;
    }
    proof {
        assert forall|t: Set<(u32, u32)>| #[trigger] is_elimination_closure(t, fo, ed, ranks_of_order(order), n as int) implies upward_arcs(
            t,
            ranks_of_order(order),
        ).len() <= u32::MAX && downward_arcs(t, ranks_of_order(order)).len() <= u32::MAX by {
            lemma_elimination_closure_unique(s, t, fo, ed, ranks_of_order(order), n as int);
        }
    }
    let ghost up_before = upward@;
    let ghost down_before = downward@;
    sort_arcs(&mut upward);
    sort_arcs(&mut downward);
    proof {
        lemma_sorted_copy(up_before, upward@);
        lemma_sorted_copy(down_before, downward@);
        assert forall|k: int| 0 <= k < upward@.len() implies (#[trigger] upward@[k].0 as int) < n by {
            assert(upward@.contains(upward@[k]));
            assert(up_before.contains(upward@[k]));
        }
        assert forall|k: int| 0 <= k < downward@.len() implies (#[trigger] downward@[k].0 as int) < n by {
            assert(downward@.contains(downward@[k]));
            assert(down_before.contains(downward@[k]));
        }
    }
    let (upward_first_out, upward_head) = arcs_to_csr(&upward, n);
    let (downward_first_out, downward_head) = arcs_to_csr(&downward, n);
    proof {
        lemma_csr_describes(upward_first_out@, upward_head@, upward@, upward_arcs(s, rank), n as int);
        lemma_csr_describes(downward_first_out@, downward_head@, downward@, downward_arcs(s, rank), n as int);
        assert(upward_arcs(s, rank).disjoint(downward_arcs(s, rank)));
        assert(upward_arcs(s, rank) + downward_arcs(s, rank) =~= s);
        vstd::set_lib::lemma_set_disjoint_lens(upward_arcs(s, rank), downward_arcs(s, rank));
    }
    let stats = AccelerationBundleStats {
        base_arc_count: base_count,
        shortcut_arc_count: shortcut_count,
        total_arc_count: base_count + shortcut_count,
    };
    Some(DatasetAccelerationBundle {
        schema_version: ACCELERATION_BUNDLE_SCHEMA_VERSION,
        source_topology_bundle_id,
        algorithm: CCH_ALGORITHM.to_owned(),
        stats,
        edge_order,
        edge_rank,
        upward_first_out,
        upward_head,
        downward_first_out,
        downward_head,
    })
}

} // verus!
