//! Nested-dissection ordering of edge states for the CCH.
//!
//! The undirected transition graph is cut recursively: a cell falls apart
//! into its connected components where it can, is otherwise split by a
//! minimum vertex separator between the two ends of an inertial projection
//! (found with a unit-capacity max-flow), and small cells are ordered by
//! minimum degree. Both sides come first, the separator last.
//!
//! Coordinates never enter this module as numbers: every node carries the
//! bit patterns of its four inertial projections and of its x and y, and
//! nodes are ordered by [`total_order_key`] of those bits. Which axis of a
//! cell is wider is arithmetic on them, and is asked of the caller.

use vstd::prelude::*;

use crate::cch::{
    arcs_of_order, arcs_to_csr, build_with_order_checked, closure_fits_u32, csr_of, is_edge_order, lemma_tails_below_sorted, pair_le,
    ranks_of_order, sort_arcs, sorted_pairs, tails_below, DatasetAccelerationBundle, ACCELERATION_BUNDLE_SCHEMA_VERSION,
    CCH_ALGORITHM,
};
use crate::dataset::CacheBundleId;
use crate::elimination::{cell_rows, eliminate, eliminate_node, is_pick, lemma_pick_unique, lightest_open, md_run, min_degree_elimination, pick, row_sets};
use crate::flow::{carries_flow, in_row, levels_closed, max_flow, FlowNetwork, INFINITE_CAPACITY};
use crate::graph::EdgeBasedTopology;

verus! {

broadcast use {
    vstd::seq_lib::group_to_multiset_ensures,
    vstd::multiset::group_multiset_axioms,
};

/// Node count below which a cell is ordered directly by minimum degree.
pub const LEAF_NODES: usize = 32;

/// Most nodes plus adjacency entries a cell may hold, so that every index
/// of its flow network fits in a `u32` and every BFS level in an `i32`.
pub const CELL_CAPACITY: usize = 0x1000_0000;

/// Index of the x coordinate in a node's coordinate bits.
pub const COORD_X: usize = 4;

/// Index of the y coordinate in a node's coordinate bits.
pub const COORD_Y: usize = 5;

/// Undirected working graph of one nested-dissection cell.
///
/// `ids` maps a local index back to an edge state, `first_out`/`heads`
/// hold each node's strictly increasing row of local neighbours, and
/// `coords[v]` holds the `f32` bit patterns of the projections of node `v`
/// onto the four inertial directions `(1,0)`, `(0,1)`, `(1,1)`, `(1,-1)`,
/// then of its x and its y.
#[derive(Clone, Debug)]
pub struct Cell {
    pub ids: Vec<u32>,
    pub first_out: Vec<u32>,
    pub heads: Vec<u32>,
    pub coords: Vec<[u32; 6]>,
}

/// Row `u` of a CSR adjacency starts at `first_out[u]` and ends before
/// `first_out[u + 1]`.
pub open spec fn csr_ok(first_out: Seq<u32>, heads: Seq<u32>, n: int) -> bool {
    &&& first_out.len() == n + 1
    &&& first_out[0] == 0
    &&& forall|i: int, j: int| 0 <= i <= j <= n ==> #[trigger] first_out[i] <= #[trigger] first_out[j]
    &&& first_out[n] == heads.len()
    &&& forall|k: int| 0 <= k < heads.len() ==> (#[trigger] heads[k] as int) < n
}

/// Row `u` strictly increasing.
pub open spec fn row_increasing(first_out: Seq<u32>, heads: Seq<u32>, u: int) -> bool {
    forall|k: int, l: int| first_out[u] <= k < l < first_out[u + 1] ==> #[trigger] heads[k] < #[trigger] heads[l]
}

/// Node `v` is in row `u`.
pub open spec fn row_has(first_out: Seq<u32>, heads: Seq<u32>, u: int, v: int) -> bool {
    exists|k: int| first_out[u] <= k < first_out[u + 1] && heads[k] as int == v
}

/// Every row strictly increasing.
pub open spec fn rows_increasing(first_out: Seq<u32>, heads: Seq<u32>, n: int) -> bool {
    forall|u: int| 0 <= u < n ==> #[trigger] row_increasing(first_out, heads, u)
}

impl Cell {
    /// Number of nodes.
    pub open spec fn size(&self) -> nat {
        self.ids@.len()
    }

    pub open spec fn wf(&self) -> bool {
        &&& csr_ok(self.first_out@, self.heads@, self.ids@.len() as int)
        &&& rows_increasing(self.first_out@, self.heads@, self.ids@.len() as int)
        &&& self.coords@.len() == self.ids@.len()
        &&& self.ids@.len() + self.heads@.len() <= CELL_CAPACITY
    }

    /// Node `v` is in the row of node `u`.
    pub open spec fn adjacent(&self, u: int, v: int) -> bool {
        row_has(self.first_out@, self.heads@, u, v)
    }

    /// Number of nodes.
    pub fn len(&self) -> (r: usize)
        ensures
            r == self.ids@.len(),
    {
        self.ids.len()
    }
}

/// A key whose unsigned order is the IEEE total order of the `f32` with
/// these bits: negatives reversed below the positives, `-0` below `+0`,
/// NaNs at both ends by sign.
pub open spec fn total_order_key_spec(bits: u32) -> u32 {
    if bits >= 0x8000_0000 {
        (0xffff_ffff - bits) as u32
    } else {
        (bits + 0x8000_0000) as u32
    }
}

/// The key of [`total_order_key_spec`].
pub fn total_order_key(bits: u32) -> (r: u32)
    ensures
        r == total_order_key_spec(bits),
{
    if bits >= 0x8000_0000 {
        0xffff_ffff - bits
    } else {
        bits + 0x8000_0000
    }
}

/// `members` lists local nodes of a cell of `n` nodes, strictly increasing.
pub open spec fn member_list(members: Seq<u32>, n: int) -> bool {
    &&& forall|i: int| 0 <= i < members.len() ==> (#[trigger] members[i] as int) < n
    &&& forall|i: int, j: int| 0 <= i < j < members.len() ==> #[trigger] members[i] < #[trigger] members[j]
}

/// `sub` is the sub-cell of `cell` on `members`: their ids and
/// coordinates, and the arcs among them.
pub open spec fn induced_from(cell: Cell, members: Seq<u32>, sub: Cell) -> bool {
    &&& sub.wf()
    &&& sub.ids@ == member_ids(cell.ids@, members)
    &&& sub.coords@ == members.map_values(|m: u32| cell.coords@[m as int])
    &&& forall|i: int, j: int|
        0 <= i < members.len() && 0 <= j < members.len() ==> (#[trigger] sub.adjacent(i, j) <==> cell.adjacent(
            members[i] as int,
            members[j] as int,
        ))
}

/// The ids of the members of a cell.
pub open spec fn member_ids(ids: Seq<u32>, members: Seq<u32>) -> Seq<u32> {
    members.map_values(|m: u32| ids[m as int])
}

proof fn lemma_member_bounds(members: Seq<u32>, n: int, i: int)
    requires
        member_list(members, n),
        0 <= i < members.len(),
    ensures
        i <= members[i],
        members[i] + (members.len() - i) <= n,
    decreases members.len() - i,
{
    if i + 1 < members.len() {
        lemma_member_bounds(members, n, i + 1);
        assert(members[i] < members[i + 1]);
    }
    lemma_member_bounds_low(members, n, i);
}

proof fn lemma_member_bounds_low(members: Seq<u32>, n: int, i: int)
    requires
        member_list(members, n),
        0 <= i < members.len(),
    ensures
        i <= members[i],
    decreases i,
{
    if i > 0 {
        lemma_member_bounds_low(members, n, i - 1);
        assert(members[i - 1] < members[i]);
    }
}

impl Cell {
    /// The subgraph induced by `members`: member `i` becomes local node
    /// `i`, keeping its id and coordinates, and its row keeps the members
    /// among its neighbours, renumbered.
    pub fn induced(&self, members: &Vec<u32>) -> (r: Cell)
        requires
            self.wf(),
            member_list(members@, self.size() as int),
        ensures
            induced_from(*self, members@, r),
            r.wf(),
            r.ids@ == member_ids(self.ids@, members@),
            r.coords@ == members@.map_values(|m: u32| self.coords@[m as int]),
            forall|i: int, j: int|
                0 <= i < members@.len() && 0 <= j < members@.len() ==> (#[trigger] r.adjacent(i, j) <==> self.adjacent(
                    members@[i] as int,
                    members@[j] as int,
                )),
    {
        let n = self.ids.len();
        let ghost fo = self.first_out@;
        let ghost hs = self.heads@;
        let ghost ms = members@;
        let mut mapping: Vec<u32> = Vec::new();
        let mut v: usize = 0;
        while v < n
            invariant
                v <= n,
                n == self.ids@.len(),
                mapping@.len() == v,
                forall|x: int| 0 <= x < v ==> #[trigger] mapping@[x] == u32::MAX,
            decreases n - v,
        {
            mapping.push(u32::MAX);
            v += 1;
        }
        let mut i: usize = 0;
        while i < members.len()
            invariant
                self.wf(),
                n == self.ids@.len(),
                member_list(ms, n as int),
                ms == members@,
                i <= ms.len(),
                mapping@.len() == n,
                forall|x: int|
                    0 <= x < n ==> (#[trigger] mapping@[x] == u32::MAX || ((mapping@[x] as int) < i && ms[mapping@[x] as int] == x)),
                forall|j: int| 0 <= j < i ==> #[trigger] mapping@[ms[j] as int] == j,
            decreases ms.len() - i,
        {
            proof {
                lemma_member_bounds(ms, n as int, i as int);
            }
            let m = members[i];
            mapping.set(m as usize, i as u32);
            proof {
                assert forall|j: int| 0 <= j < i implies ms[j] != ms[i as int] by {
                    assert(ms[j] < ms[i as int]);
                }
            }
            i += 1;
        }
        assert forall|x: int|
            0 <= x < n implies (#[trigger] mapping@[x] == u32::MAX || ((mapping@[x] as int) < ms.len()
                && ms[mapping@[x] as int] == x)) by {}
        let mut ids: Vec<u32> = Vec::new();
        let mut coords: Vec<[u32; 6]> = Vec::new();
        let mut first_out: Vec<u32> = Vec::new();
        let mut heads: Vec<u32> = Vec::new();
        first_out.push(0);
        let mut i: usize = 0;
        while i < members.len()
            invariant
                self.wf(),
                n == self.ids@.len(),
                fo == self.first_out@,
                hs == self.heads@,
                member_list(ms, n as int),
                ms == members@,
                i <= ms.len(),
                mapping@.len() == n,
                forall|x: int|
                    0 <= x < n ==> (#[trigger] mapping@[x] == u32::MAX || ((mapping@[x] as int) < ms.len()
                        && ms[mapping@[x] as int] == x)),
                forall|j: int| 0 <= j < ms.len() ==> #[trigger] mapping@[ms[j] as int] == j,
                ids@ == member_ids(self.ids@, ms.take(i as int)),
                coords@ == ms.take(i as int).map_values(|m: u32| self.coords@[m as int]),
                first_out@.len() == i + 1,
                first_out@[0] == 0,
                forall|a: int, b: int| 0 <= a <= b <= i ==> #[trigger] first_out@[a] <= #[trigger] first_out@[b],
                first_out@[i as int] == heads@.len(),
                i == 0 ==> heads@.len() == 0,
                i > 0 ==> heads@.len() <= fo[ms[i - 1] + 1],
                forall|k: int| 0 <= k < heads@.len() ==> (#[trigger] heads@[k] as int) < ms.len(),
                rows_increasing(first_out@, heads@, i as int),
                forall|a: int, b: int|
                    0 <= a < i && 0 <= b < ms.len() ==> (#[trigger] row_has(first_out@, heads@, a, b) <==> row_has(
                        fo,
                        hs,
                        ms[a] as int,
                        ms[b] as int,
                    )),
            decreases ms.len() - i,
        {
            proof {
                lemma_member_bounds(ms, n as int, i as int);
                if i > 0 {
                    assert(ms[i - 1] < ms[i as int]);
                    assert(fo[ms[i - 1] + 1] <= fo[ms[i as int] as int]);
                }
            }
            let member = members[i] as usize;
            ids.push(self.ids[member]);
            coords.push(self.coords[member]);
            let start = self.first_out[member] as usize;
            let end = self.first_out[member + 1] as usize;
            proof {
                assert(fo[member as int] <= fo[member + 1]);
            }
            let row_start: usize = heads.len();
            let ghost heads_before = heads@;
            let mut k = start;
            while k < end
                invariant
                    self.wf(),
                    n == self.ids@.len(),
                    fo == self.first_out@,
                    hs == self.heads@,
                    member_list(ms, n as int),
                    ms == members@,
                    i < ms.len(),
                    member == ms[i as int],
                    start == fo[member as int],
                    end == fo[member + 1],
                    start <= k <= end,
                    mapping@.len() == n,
                    forall|x: int|
                        0 <= x < n ==> (#[trigger] mapping@[x] == u32::MAX || ((mapping@[x] as int) < ms.len()
                            && ms[mapping@[x] as int] == x)),
                    forall|j: int| 0 <= j < ms.len() ==> #[trigger] mapping@[ms[j] as int] == j,
                    row_start == heads_before.len(),
                    heads@.len() >= row_start,
                    heads@.subrange(0, row_start as int) == heads_before,
                    heads@.len() - row_start <= k - start,
                    row_start <= start,
                    forall|kk: int| 0 <= kk < heads@.len() ==> (#[trigger] heads@[kk] as int) < ms.len(),
                    forall|p: int, q: int|
                        row_start <= p < q < heads@.len() ==> #[trigger] heads@[p] < #[trigger] heads@[q],
                    forall|p: int|
                        row_start <= p < heads@.len() ==> exists|kk: int|
                            start <= kk < k && hs[kk] == ms[#[trigger] heads@[p] as int],
                    forall|kk: int|
                        start <= kk < k && (#[trigger] mapping@[hs[kk] as int]) != u32::MAX ==> exists|p: int|
                            row_start <= p < heads@.len() && heads@[p] == mapping@[hs[kk] as int],
                    heads@.len() > row_start ==> forall|kk: int|
                        k <= kk < end ==> ms[heads@[heads@.len() - 1] as int] < #[trigger] hs[kk],
                decreases end - k,
            {
                let neighbour = self.heads[k];
                let mapped = mapping[neighbour as usize];
                let ghost heads_mid = heads@;
                if mapped != u32::MAX {
                    proof {
                        if heads@.len() > row_start {
                            let last = heads@[heads@.len() - 1];
                            assert(ms[last as int] < hs[k as int]);
                            assert(ms[mapped as int] == neighbour);
                            if mapped <= last {
                                if mapped < last {
                                    assert(ms[mapped as int] < ms[last as int]);
                                }
                            }
                        }
                    }
                    heads.push(mapped);
                }
                proof {
                    assert(row_increasing(fo, hs, member as int));
                    assert forall|kk: int| k + 1 <= kk < end implies hs[k as int] < #[trigger] hs[kk] by {
                        assert(fo[member as int] <= k < kk < fo[member + 1]);
                    }
                    assert forall|kk: int|
                        start <= kk < k + 1 && (#[trigger] mapping@[hs[kk] as int]) != u32::MAX implies exists|p: int|
                            row_start <= p < heads@.len() && heads@[p] == mapping@[hs[kk] as int] by {
                        if kk == k {
                            assert(heads@[heads@.len() - 1] == mapping@[hs[kk] as int]);
                        } else {
                            let p = choose|p: int| row_start <= p < heads_mid.len() && heads_mid[p] == mapping@[hs[kk] as int];
                            assert(heads@[p] == heads_mid[p]);
                        }
                    }
                    if mapped != u32::MAX {
                        assert(ms[heads@[heads@.len() - 1] as int] == hs[k as int]);
                    }
                }
                k += 1;
            }
            proof {
                assert(heads@.len() <= fo[member + 1]);
            }
            let ghost first_before = first_out@;
            first_out.push(heads.len() as u32);
            proof {
                assert(ms.take(i + 1) =~= ms.take(i as int).push(ms[i as int]));
                assert forall|p: int| 0 <= p < row_start implies heads@[p] == heads_before[p] by {
                    assert(heads@.subrange(0, row_start as int)[p] == heads@[p]);
                }
                assert forall|a: int, b: int|
                    0 <= a < i + 1 && 0 <= b < ms.len() implies (#[trigger] row_has(first_out@, heads@, a, b) <==> row_has(
                        fo,
                        hs,
                        ms[a] as int,
                        ms[b] as int,
                    )) by {
                    if a < i {
                        assert(first_out@[a] == first_before[a] && first_out@[a + 1] == first_before[a + 1]);
                        assert(first_before[a + 1] <= first_before[i as int]);
                        if exists|k: int| first_out@[a] <= k < first_out@[a + 1] && heads@[k] as int == b {
                            let k = choose|k: int| first_out@[a] <= k < first_out@[a + 1] && heads@[k] as int == b;
                            assert(heads_before[k] == heads@[k]);
                        }
                        if row_has(first_before, heads_before, a, b) {
                            let k = choose|k: int| first_before[a] <= k < first_before[a + 1] && heads_before[k] as int == b;
                            assert(heads_before[k] == heads@[k]);
                        }
                        assert(row_has(first_before, heads_before, a, b) == row_has(fo, hs, ms[a] as int, ms[b] as int));
                    } else {
                        if exists|k: int| first_out@[a] <= k < first_out@[a + 1] && heads@[k] as int == b {
                            let k = choose|k: int| first_out@[a] <= k < first_out@[a + 1] && heads@[k] as int == b;
                            let kk = choose|kk: int| start <= kk < end && hs[kk] == ms[heads@[k] as int];
                        }
                        if row_has(fo, hs, ms[a] as int, ms[b] as int) {
                            let kk = choose|k: int| fo[ms[a] as int] <= k < fo[ms[a] + 1] && hs[k] == ms[b];
                            assert(mapping@[hs[kk] as int] == b);
                            let p = choose|p: int| row_start <= p < heads@.len() && heads@[p] == mapping@[hs[kk] as int];
                            assert(first_out@[a] <= p < first_out@[a + 1] && heads@[p] as int == b);
                        }
                    }
                }
                assert forall|u: int| 0 <= u < i + 1 implies #[trigger] row_increasing(first_out@, heads@, u) by {
                    if u < i {
                        assert(row_increasing(first_before, heads_before, u));
                        assert(first_out@[u + 1] <= first_out@[i as int]);
                        assert(first_before[u] == first_out@[u] && first_before[u + 1] == first_out@[u + 1]);
                        assert forall|p: int, q: int| first_out@[u] <= p < q < first_out@[u + 1] implies #[trigger] heads@[p] < #[trigger] heads@[q] by {
                            assert(heads_before[p] == heads@[p] && heads_before[q] == heads@[q]);
                        }
                    }
                }
            }
            i += 1;
        }
        proof {
            assert(ms.take(ms.len() as int) =~= ms);
            if ms.len() > 0 {
                lemma_member_bounds(ms, n as int, ms.len() - 1);
                assert(fo[ms[ms.len() - 1] + 1] <= fo[n as int]);
            }
        }
        Cell { ids, first_out, heads, coords }
    }
}

// ---------------------------------------------------------------------------
// Minimum-degree ordering of small cells
// ---------------------------------------------------------------------------

/// Strictly increasing.
pub open spec fn increasing_u32(s: Seq<u32>) -> bool {
    forall|i: int, j: int| 0 <= i < j < s.len() ==> #[trigger] s[i] < #[trigger] s[j]
}

/// Binary search in a strictly increasing list: whether `key` occurs, and
/// the first position whose entry is not below `key`.
fn search_u32(list: &Vec<u32>, key: u32) -> (r: (bool, usize))
    requires
        increasing_u32(list@),
    ensures
        r.1 <= list@.len(),
        forall|j: int| 0 <= j < r.1 ==> list@[j] < key,
        forall|j: int| r.1 <= j < list@.len() ==> key <= list@[j],
        r.0 == list@.contains(key),
        r.0 ==> list@[r.1 as int] == key,
{
    let mut lo: usize = 0;
    let mut hi: usize = list.len();
    while lo < hi
        invariant
            lo <= hi <= list@.len(),
            increasing_u32(list@),
            forall|j: int| 0 <= j < lo ==> list@[j] < key,
            forall|j: int| hi <= j < list@.len() ==> key <= list@[j],
        decreases hi - lo,
    {
        let mid = lo + (hi - lo) / 2;
        if list[mid] < key {
            lo = mid + 1;
        } else {
            hi = mid;
        }
    }
    let found = lo < list.len() && list[lo] == key;
    proof {
        if !found && list@.contains(key) {
            let j = choose|j: int| 0 <= j < list@.len() && list@[j] == key;
            if j > lo as int {
                assert(list@[lo as int] < list@[j]);
            }
        }
    }
    (found, lo)
}

/// Inserts `key` into a strictly increasing list unless it is there.
fn insert_u32(list: &mut Vec<u32>, key: u32)
    requires
        increasing_u32(old(list)@),
    ensures
        increasing_u32(final(list)@),
        forall|k: u32| #[trigger] final(list)@.contains(k) <==> (old(list)@.contains(k) || k == key),
{
    let (found, pos) = search_u32(list, key);
    if !found {
        let ghost before = list@;
        list.insert(pos, key);
        proof {
            let after = list@;
            assert(after =~= before.insert(pos as int, key));
            assert forall|i: int, j: int| 0 <= i < j < after.len() implies #[trigger] after[i] < #[trigger] after[j] by {
                if j < pos {
                } else if j == pos {
                } else if i < pos {
                } else if i == pos {
                    assert(after[j] == before[j - 1]);
                } else {
                    assert(after[i] == before[i - 1] && after[j] == before[j - 1]);
                }
            }
            assert forall|k: u32| #[trigger] after.contains(k) <==> (before.contains(k) || k == key) by {
                if after.contains(k) {
                    let i = choose|i: int| 0 <= i < after.len() && after[i] == k;
                    if i < pos {
                        assert(before[i] == k);
                    } else if i > pos {
                        assert(before[i - 1] == k);
                    }
                }
                if before.contains(k) {
                    let i = choose|i: int| 0 <= i < before.len() && before[i] == k;
                    if i < pos {
                        assert(after[i] == k);
                    } else {
                        assert(after[i + 1] == k);
                    }
                }
                if k == key {
                    assert(after[pos as int] == k);
                }
            }
        }
    }
}

/// Removes `key` from a strictly increasing list if it is there.
fn remove_u32(list: &mut Vec<u32>, key: u32)
    requires
        increasing_u32(old(list)@),
    ensures
        increasing_u32(final(list)@),
        forall|k: u32| #[trigger] final(list)@.contains(k) <==> (old(list)@.contains(k) && k != key),
{
    let (found, pos) = search_u32(list, key);
    if found {
        let ghost before = list@;
        list.remove(pos);
        proof {
            let after = list@;
            assert(after =~= before.remove(pos as int));
            assert forall|i: int, j: int| 0 <= i < j < after.len() implies #[trigger] after[i] < #[trigger] after[j] by {
                if i < pos && j >= pos {
                    assert(after[j] == before[j + 1]);
                } else if i >= pos {
                    assert(after[i] == before[i + 1] && after[j] == before[j + 1]);
                }
            }
            assert forall|k: u32| #[trigger] after.contains(k) <==> (before.contains(k) && k != key) by {
                if after.contains(k) {
                    let i = choose|i: int| 0 <= i < after.len() && after[i] == k;
                    if i < pos {
                        assert(before[i] == k);
                    } else {
                        assert(before[i + 1] == k);
                    }
                }
                if before.contains(k) && k != key {
                    let i = choose|i: int| 0 <= i < before.len() && before[i] == k;
                    if i < pos {
                        assert(after[i] == k);
                    } else if i > pos {
                        assert(after[i - 1] == k);
                    }
                }
            }
        }
    }
}

/// Number of `false` entries.
pub open spec fn count_open(s: Seq<bool>) -> nat
    decreases s.len(),
{
    if s.len() == 0 {
        0
    } else {
        count_open(s.drop_last()) + if s.last() {
            0nat
        } else {
            1nat
        }
    }
}

proof fn lemma_count_open_close(s: Seq<bool>, i: int)
    requires
        0 <= i < s.len(),
        !s[i],
    ensures
        count_open(s.update(i, true)) + 1 == count_open(s),
    decreases s.len(),
{
    if i < s.len() - 1 {
        assert(s.update(i, true).drop_last() =~= s.drop_last().update(i, true));
        lemma_count_open_close(s.drop_last(), i);
    } else {
        assert(s.update(i, true).drop_last() =~= s.drop_last());
    }
}

proof fn lemma_count_open_all(s: Seq<bool>)
    requires
        forall|i: int| 0 <= i < s.len() ==> !#[trigger] s[i],
    ensures
        count_open(s) == s.len(),
    decreases s.len(),
{
    if s.len() > 0 {
        lemma_count_open_all(s.drop_last());
    }
}

proof fn lemma_count_open_none(s: Seq<bool>)
    requires
        forall|i: int| 0 <= i < s.len() ==> #[trigger] s[i],
    ensures
        count_open(s) == 0,
    decreases s.len(),
{
    if s.len() > 0 {
        lemma_count_open_none(s.drop_last());
    }
}

/// Rows of a working adjacency: strictly increasing, entries below `n`.
pub open spec fn adjacency_ok(adjacency: Seq<Vec<u32>>, n: int) -> bool {
    &&& adjacency.len() == n
    &&& forall|x: int| 0 <= x < n ==> #[trigger] increasing_u32(adjacency[x]@)
    &&& forall|x: int, k: int| 0 <= x < n && 0 <= k < adjacency[x]@.len() ==> (#[trigger] adjacency[x]@[k] as int) < n
}

/// `sorted_insert` into one row of a working adjacency.
pub(crate) fn insert_into_row(adjacency: &mut Vec<Vec<u32>>, row: usize, value: u32)
    requires
        adjacency_ok(old(adjacency)@, old(adjacency)@.len() as int),
        row < old(adjacency)@.len(),
        value < old(adjacency)@.len(),
    ensures
        adjacency_ok(final(adjacency)@, old(adjacency)@.len() as int),
        forall|r: int| 0 <= r < old(adjacency)@.len() && r != row ==> #[trigger] final(adjacency)@[r] == old(adjacency)@[r],
        forall|k: u32| #[trigger] final(adjacency)@[row as int]@.contains(k) <==> (old(adjacency)@[row as int]@.contains(k) || k == value),
{
    let ghost n = adjacency@.len() as int;
    let mut list: Vec<u32> = Vec::new();
    std::mem::swap(&mut list, &mut adjacency[row]);
    let ghost before = list@;
    insert_u32(&mut list, value);
    proof {
        assert forall|k: int| 0 <= k < list@.len() implies (#[trigger] list@[k] as int) < n by {
            assert(list@.contains(list@[k]));
            if list@[k] != value {
                let j = choose|j: int| 0 <= j < before.len() && before[j] == list@[k];
            }
        }
    }
    adjacency.set(row, list);
}

/// Removes `value` from one row of a working adjacency.
pub(crate) fn remove_from_row(adjacency: &mut Vec<Vec<u32>>, row: usize, value: u32)
    requires
        adjacency_ok(old(adjacency)@, old(adjacency)@.len() as int),
        row < old(adjacency)@.len(),
    ensures
        adjacency_ok(final(adjacency)@, old(adjacency)@.len() as int),
        forall|r: int| 0 <= r < old(adjacency)@.len() && r != row ==> #[trigger] final(adjacency)@[r] == old(adjacency)@[r],
        forall|k: u32| #[trigger] final(adjacency)@[row as int]@.contains(k) <==> (old(adjacency)@[row as int]@.contains(k) && k != value),
{
    let ghost n = adjacency@.len() as int;
    let mut list: Vec<u32> = Vec::new();
    std::mem::swap(&mut list, &mut adjacency[row]);
    let ghost before = list@;
    remove_u32(&mut list, value);
    proof {
        assert forall|k: int| 0 <= k < list@.len() implies (#[trigger] list@[k] as int) < n by {
            assert(list@.contains(list@[k]));
            let j = choose|j: int| 0 <= j < before.len() && before[j] == list@[k];
        }
    }
    adjacency.set(row, list);
}

/// Orders a cell by repeatedly eliminating a node of minimum degree in the
/// fill-in graph (the least local index among equal degrees): its row is
/// dropped and its neighbours become pairwise adjacent.
pub fn minimum_degree_order(cell: &Cell) -> (r: Vec<u32>)
    requires
        cell.wf(),
    ensures
        r@.len() == cell.ids@.len(),
        forall|x: u32| #[trigger] r@.contains(x) <==> cell.ids@.contains(x),
        cell.ids@.no_duplicates() ==> r@.no_duplicates(),
        r@ == min_degree_elimination(*cell),
{
    let n = cell.len();
    let ghost ids = cell.ids@;
    let mut adjacency: Vec<Vec<u32>> = Vec::new();
    let mut v: usize = 0;
    while v < n
        invariant
            cell.wf(),
            n == cell.ids@.len(),
            v <= n,
            adjacency@.len() == v,
            forall|x: int| 0 <= x < v ==> #[trigger] increasing_u32(adjacency@[x]@),
            forall|x: int, k: int| 0 <= x < v && 0 <= k < adjacency@[x]@.len() ==> (#[trigger] adjacency@[x]@[k] as int) < n,
            forall|x: int| 0 <= x < v ==> (#[trigger] adjacency@[x])@.to_set() == cell_rows(*cell)[x],
        decreases n - v,
    {
        let start = cell.first_out[v] as usize;
        let end = cell.first_out[v + 1] as usize;
        proof {
            assert(cell.first_out@[v as int] <= cell.first_out@[v + 1] <= cell.first_out@[n as int]);
            assert(row_increasing(cell.first_out@, cell.heads@, v as int));
        }
        let mut row: Vec<u32> = Vec::new();
        let mut k = start;
        while k < end
            invariant
                cell.wf(),
                n == cell.ids@.len(),
                v < n,
                start == cell.first_out@[v as int],
                end == cell.first_out@[v + 1],
                end <= cell.heads@.len(),
                row_increasing(cell.first_out@, cell.heads@, v as int),
                start <= k <= end,
                row@ == cell.heads@.subrange(start as int, k as int),
            decreases end - k,
        {
            row.push(cell.heads[k]);
            proof {
                assert(cell.heads@.subrange(start as int, k + 1) =~= cell.heads@.subrange(start as int, k as int).push(cell.heads@[k as int]));
            }
            k += 1;
        }
        proof {
            assert forall|i: int, j: int| 0 <= i < j < row@.len() implies #[trigger] row@[i] < #[trigger] row@[j] by {
                assert(row@[i] == cell.heads@[start + i] && row@[j] == cell.heads@[start + j]);
            }
            assert forall|k: int| 0 <= k < row@.len() implies (#[trigger] row@[k] as int) < n by {
                assert(row@[k] == cell.heads@[start + k]);
            }
            assert forall|w: u32| #[trigger] row@.to_set().contains(w) <==> cell_rows(*cell)[v as int].contains(w) by {
                if row@.contains(w) {
                    let k = choose|k: int| 0 <= k < row@.len() && row@[k] == w;
                    assert(cell.heads@[start + k] == w);
                    assert(cell.adjacent(v as int, w as int));
                }
                if cell.adjacent(v as int, w as int) {
                    let k = choose|k: int| cell.first_out@[v as int] <= k < cell.first_out@[v + 1] && cell.heads@[k] as int == w as int;
                    assert(row@[k - start] == w);
                    assert(row@.contains(w));
                }
            }
            assert(row@.to_set() =~= cell_rows(*cell)[v as int]);
        }
        adjacency.push(row);
        v += 1;
    }
    let mut eliminated: Vec<bool> = Vec::new();
    let mut v: usize = 0;
    while v < n
        invariant
            v <= n,
            eliminated@.len() == v,
            forall|x: int| 0 <= x < v ==> !#[trigger] eliminated@[x],
        decreases n - v,
    {
        eliminated.push(false);
        v += 1;
    }
    proof {
        lemma_count_open_all(eliminated@);
    }
    let mut order: Vec<u32> = Vec::new();
    let ghost mut elim: Seq<u32> = Seq::empty();
    let ghost rows0 = row_sets(adjacency@);
    proof {
        assert(rows0 =~= cell_rows(*cell));
        assert(eliminated@ =~= Seq::new(rows0.len(), |x: int| false));
    }
    loop
        invariant
            n == cell.ids@.len(),
            n <= CELL_CAPACITY,
            ids == cell.ids@,
            rows0 == cell_rows(*cell),
            adjacency_ok(adjacency@, n as int),
            eliminated@.len() == n,
            count_open(eliminated@) + elim.len() == n,
            order@.len() == elim.len(),
            forall|i: int| 0 <= i < elim.len() ==> (#[trigger] elim[i] as int) < n,
            forall|i: int| 0 <= i < elim.len() ==> #[trigger] order@[i] == ids[elim[i] as int],
            forall|i: int, j: int| 0 <= i < j < elim.len() ==> #[trigger] elim[i] != #[trigger] elim[j],
            forall|x: int| 0 <= x < n ==> (#[trigger] eliminated@[x] <==> elim.contains(x as u32)),
            md_run(rows0, elim.len() as nat) == (row_sets(adjacency@), eliminated@, elim),
        ensures
            elim.len() == n,
            forall|x: int| 0 <= x < n ==> #[trigger] eliminated@[x],
            md_run(rows0, elim.len() as nat) == (row_sets(adjacency@), eliminated@, elim),
            order@.len() == elim.len(),
            forall|i: int| 0 <= i < elim.len() ==> #[trigger] order@[i] == ids[elim[i] as int],
        decreases count_open(eliminated@),
    {
        let best = lightest_open(&adjacency, &eliminated);
        if best == n {
            proof {
                lemma_count_open_none(eliminated@);
            }
            break;
        }
        let node = best;
        let ghost rows_before = row_sets(adjacency@);
        let ghost done_before = eliminated@;
        let ghost k = elim.len() as nat;
        proof {
            lemma_count_open_close(eliminated@, node as int);
            let p = pick(rows_before, done_before);
            assert(is_pick(rows_before, done_before, node as int));
            lemma_pick_unique(rows_before, done_before, p, node as int);
        }
        eliminated.set(node, true);
        order.push(cell.ids[node]);
        proof {
            assert(!elim.contains(node as u32));
            let old_elim = elim;
            elim = elim.push(node as u32);
            assert forall|i: int, j: int| 0 <= i < j < elim.len() implies #[trigger] elim[i] != #[trigger] elim[j] by {
                if j == elim.len() - 1 {
                    assert(old_elim.contains(elim[i]) ==> elim[i] != node as u32);
                    assert(elim[i] == old_elim[i]);
                }
            }
            assert forall|y: int| 0 <= y < n implies (#[trigger] eliminated@[y] <==> elim.contains(y as u32)) by {
                if y != node {
                    if elim.contains(y as u32) {
                        let i = choose|i: int| 0 <= i < elim.len() && elim[i] == y as u32;
                        assert(elim[elim.len() - 1] == node as u32);
                        assert(i < old_elim.len());
                        assert(old_elim[i] == y as u32);
                    }
                    if old_elim.contains(y as u32) {
                        let i = choose|i: int| 0 <= i < old_elim.len() && old_elim[i] == y as u32;
                        assert(elim[i] == y as u32);
                    }
                } else {
                    assert(elim[elim.len() - 1] == y as u32);
                }
            }
        }
        eliminate_node(&mut adjacency, node);
        proof {
            assert(md_run(rows0, (k + 1) as nat) == (eliminate(rows_before, node as u32), done_before.update(node as int, true), elim));
        }
    }
    proof {
        assert forall|x: u32| #[trigger] order@.contains(x) <==> ids.contains(x) by {
            if order@.contains(x) {
                let i = choose|i: int| 0 <= i < order@.len() && order@[i] == x;
                assert(ids[elim[i] as int] == x);
            }
            if ids.contains(x) {
                let v = choose|v: int| 0 <= v < ids.len() && ids[v] == x;
                assert(eliminated@[v]);
                let i = choose|i: int| 0 <= i < elim.len() && elim[i] == v as u32;
                assert(order@[i] == x);
            }
        }
        assert(order@ =~= md_run(cell_rows(*cell), cell.size() as nat).2.map_values(|x: u32| cell.ids@[x as int]));
        if ids.no_duplicates() {
            assert forall|i: int, j: int| 0 <= i < order@.len() && 0 <= j < order@.len() && i != j implies order@[i]
                != order@[j] by {
                if i < j {
                    assert(elim[i] != elim[j]);
                } else {
                    assert(elim[j] != elim[i]);
                }
            }
        }
    }
    order
}

// ---------------------------------------------------------------------------
// Splitting a cell into groups of whole components
// ---------------------------------------------------------------------------

impl Cell {
    /// Every arc has its reverse.
    pub open spec fn symmetric(&self) -> bool {
        forall|u: int, v: int|
            0 <= u < self.size() && 0 <= v < self.size() && #[trigger] self.adjacent(u, v) ==> self.adjacent(v, u)
    }
}

/// `a` and `b` are strictly increasing lists of local nodes below `n`
/// that hold every node exactly once between them.
pub open spec fn two_way(a: Seq<u32>, b: Seq<u32>, n: int) -> bool {
    &&& member_list(a, n)
    &&& member_list(b, n)
    &&& a.len() + b.len() == n
    &&& forall|x: u32| (x as int) < n ==> (#[trigger] a.contains(x) <==> !b.contains(x))
}

/// No arc leads from a node of `a` to a node of `b`.
pub open spec fn no_arc_between(cell: Cell, a: Seq<u32>, b: Seq<u32>) -> bool {
    forall|u: u32, v: u32|
        #[trigger] a.contains(u) && #[trigger] b.contains(v) ==> !cell.adjacent(u as int, v as int)
}

/// Appends `x` to an increasing list whose entries are all below `x`.
proof fn lemma_push_member(list: Seq<u32>, x: u32, n: int)
    requires
        member_list(list, n),
        (x as int) < n,
        forall|i: int| 0 <= i < list.len() ==> #[trigger] list[i] < x,
    ensures
        member_list(list.push(x), n),
        forall|y: u32| #[trigger] list.push(x).contains(y) <==> (list.contains(y) || y == x),
{
    assert forall|y: u32| #[trigger] list.push(x).contains(y) <==> (list.contains(y) || y == x) by {
        if list.push(x).contains(y) {
            let i = choose|i: int| 0 <= i < list.push(x).len() && list.push(x)[i] == y;
            if i < list.len() {
                assert(list[i] == y);
            }
        }
        if list.contains(y) {
            let i = choose|i: int| 0 <= i < list.len() && list[i] == y;
            assert(list.push(x)[i] == y);
        }
        if y == x {
            assert(list.push(x)[list.len() as int] == y);
        }
    }
}

/// Number of unlabelled (`u32::MAX`) entries.
pub open spec fn count_unlabelled(s: Seq<u32>) -> nat
    decreases s.len(),
{
    if s.len() == 0 {
        0
    } else {
        count_unlabelled(s.drop_last()) + if s.last() == u32::MAX {
            1nat
        } else {
            0nat
        }
    }
}

proof fn lemma_count_unlabelled_set(s: Seq<u32>, i: int, label: u32)
    requires
        0 <= i < s.len(),
        s[i] == u32::MAX,
        label != u32::MAX,
    ensures
        count_unlabelled(s.update(i, label)) + 1 == count_unlabelled(s),
    decreases s.len(),
{
    if i < s.len() - 1 {
        assert(s.update(i, label).drop_last() =~= s.drop_last().update(i, label));
        lemma_count_unlabelled_set(s.drop_last(), i, label);
    } else {
        assert(s.update(i, label).drop_last() =~= s.drop_last());
    }
}

proof fn lemma_count_unlabelled_bound(s: Seq<u32>)
    ensures
        count_unlabelled(s) <= s.len(),
    decreases s.len(),
{
    if s.len() > 0 {
        lemma_count_unlabelled_bound(s.drop_last());
    }
}

/// Every neighbour of `x` is labelled, with a label not above that of `x`.
pub open spec fn expanded(c: Seq<u32>, fo: Seq<u32>, hs: Seq<u32>, x: int) -> bool {
    forall|k: int| fo[x] <= k < fo[x + 1] ==> #[trigger] c[hs[k] as int] != u32::MAX && c[hs[k] as int] <= c[x]
}

proof fn lemma_expanded_kept(c: Seq<u32>, fo: Seq<u32>, hs: Seq<u32>, x: int, w: int, label: u32)
    requires
        expanded(c, fo, hs, x),
        0 <= w < c.len(),
        c[w] == u32::MAX,
        0 <= x < c.len(),
        x != w,
        forall|k: int| fo[x] <= k < fo[x + 1] ==> 0 <= #[trigger] hs[k] < c.len(),
    ensures
        expanded(c.update(w, label), fo, hs, x),
{
    assert forall|k: int| fo[x] <= k < fo[x + 1] implies #[trigger] c.update(w, label)[hs[k] as int] != u32::MAX
        && c.update(w, label)[hs[k] as int] <= c.update(w, label)[x] by {
        assert(c[hs[k] as int] != u32::MAX);
    }
}

/// A two-colouring of the nodes of a cell that no arc crosses.
pub open spec fn closed_coloring(cell: Cell, c: Seq<bool>) -> bool {
    &&& c.len() == cell.size()
    &&& forall|u: int, v: int|
        0 <= u < cell.size() && 0 <= v < cell.size() && #[trigger] cell.adjacent(u, v) ==> c[u] == c[v]
}

/// The cell is in one piece: every colouring that no arc crosses gives all
/// nodes one colour.
pub open spec fn unsplittable(cell: Cell) -> bool {
    forall|c: Seq<bool>| #[trigger] closed_coloring(cell, c) ==> forall|x: int, y: int|
        0 <= x < cell.size() && 0 <= y < cell.size() ==> #[trigger] c[x] == #[trigger] c[y]
}

/// Every labelled node has the colour of its label's root under every
/// colouring that no arc crosses.
pub open spec fn tied(cell: Cell, comp: Seq<u32>, roots: Seq<int>) -> bool {
    forall|c: Seq<bool>| #[trigger] closed_coloring(cell, c) ==> forall|x: int|
        0 <= x < comp.len() && comp[x] != u32::MAX ==> #[trigger] c[x] == c[roots[comp[x] as int]]
}

/// Some node carries label `l`.
pub open spec fn labelled(comp: Seq<u32>, l: int) -> bool {
    exists|x: int| 0 <= x < comp.len() && comp[x] as int == l
}

/// Each label's root is a node carrying that label.
pub open spec fn rooted(comp: Seq<u32>, roots: Seq<int>) -> bool {
    forall|l: int| 0 <= l < roots.len() ==> 0 <= #[trigger] roots[l] < comp.len() && comp[roots[l]] as int == l
}

/// Labelling a node reached along an arc from a node of the same label
/// keeps every label tied to its root.
proof fn lemma_tie_reached(cell: Cell, comp: Seq<u32>, roots: Seq<int>, w: int, via: int, label: u32)
    requires
        tied(cell, comp, roots),
        comp.len() == cell.size(),
        0 <= w < comp.len(),
        0 <= via < comp.len(),
        comp[via] == label,
        label != u32::MAX,
        cell.adjacent(via, w),
    ensures
        tied(cell, comp.update(w, label), roots),
{
    let d = comp.update(w, label);
    assert forall|c: Seq<bool>| #[trigger] closed_coloring(cell, c) implies forall|x: int|
        0 <= x < d.len() && d[x] != u32::MAX ==> #[trigger] c[x] == c[roots[d[x] as int]] by {
        assert forall|x: int| 0 <= x < d.len() && d[x] != u32::MAX implies #[trigger] c[x] == c[roots[d[x] as int]] by {
            if x == w {
                assert(c[via] == c[w]);
                assert(c[via] == c[roots[comp[via] as int]]);
            } else {
                assert(c[x] == c[roots[comp[x] as int]]);
            }
        }
    }
}

/// Labelling a new root with a new label keeps every label tied.
proof fn lemma_tie_root(cell: Cell, comp: Seq<u32>, roots: Seq<int>, w: int)
    requires
        tied(cell, comp, roots),
        0 <= w < comp.len(),
        roots.len() < u32::MAX,
        forall|x: int| 0 <= x < comp.len() ==> (#[trigger] comp[x] == u32::MAX || (comp[x] as int) < roots.len()),
    ensures
        tied(cell, comp.update(w, roots.len() as u32), roots.push(w)),
{
    let d = comp.update(w, roots.len() as u32);
    let r = roots.push(w);
    assert forall|c: Seq<bool>| #[trigger] closed_coloring(cell, c) implies forall|x: int|
        0 <= x < d.len() && d[x] != u32::MAX ==> #[trigger] c[x] == c[r[d[x] as int]] by {
        assert forall|x: int| 0 <= x < d.len() && d[x] != u32::MAX implies #[trigger] c[x] == c[r[d[x] as int]] by {
            if x != w {
                assert(c[x] == c[roots[comp[x] as int]]);
                assert(r[comp[x] as int] == roots[comp[x] as int]);
            }
        }
    }
}

/// Labels the connected components of a cell by depth-first search from
/// each unlabelled node in turn; returns each node's label and each
/// label's size. In a symmetric cell both ends of an arc share a label.
fn component_labels(cell: &Cell) -> (r: (Vec<u32>, Vec<u32>))
    requires
        cell.wf(),
    ensures
        r.0@.len() == cell.size(),
        forall|x: int| 0 <= x < cell.size() ==> (#[trigger] r.0@[x] as int) < r.1@.len(),
        r.1@.len() <= cell.size(),
        cell.symmetric() ==> forall|u: int, v: int|
            0 <= u < cell.size() && 0 <= v < cell.size() && #[trigger] cell.adjacent(u, v) ==> r.0@[u] == r.0@[v],
        forall|c: Seq<bool>| #[trigger] closed_coloring(*cell, c) ==> forall|x: int, y: int|
            0 <= x < cell.size() && 0 <= y < cell.size() && r.0@[x] == r.0@[y] ==> #[trigger] c[x] == #[trigger] c[y],
        forall|l: int| 0 <= l < r.1@.len() ==> #[trigger] labelled(r.0@, l),
        forall|l: int| 0 <= l < r.1@.len() ==> #[trigger] r.1@[l] >= 1,
{
    let n = cell.len();
    let ghost fo = cell.first_out@;
    let ghost hs = cell.heads@;
    let mut component: Vec<u32> = Vec::new();
    let mut v: usize = 0;
    while v < n
        invariant
            v <= n,
            component@.len() == v,
            forall|x: int| 0 <= x < v ==> #[trigger] component@[x] == u32::MAX,
        decreases n - v,
    {
        component.push(u32::MAX);
        v += 1;
    }
    let mut sizes: Vec<u32> = Vec::new();
    let ghost mut roots: Seq<int> = Seq::empty();
    let mut root: usize = 0;
    while root < n
        invariant
            cell.wf(),
            n == cell.size(),
            fo == cell.first_out@,
            hs == cell.heads@,
            root <= n,
            component@.len() == n,
            sizes@.len() <= root,
            forall|x: int| 0 <= x < root ==> #[trigger] component@[x] != u32::MAX,
            forall|x: int| 0 <= x < n ==> (#[trigger] component@[x] == u32::MAX || (component@[x] as int) < sizes@.len()),
            forall|x: int| 0 <= x < n && component@[x] != u32::MAX ==> #[trigger] expanded(component@, fo, hs, x),
            roots.len() == sizes@.len(),
            tied(*cell, component@, roots),
            rooted(component@, roots),
            forall|l: int| 0 <= l < sizes@.len() ==> #[trigger] sizes@[l] >= 1,
        decreases n - root,
    {
        if component[root] == u32::MAX {
            let label = sizes.len() as u32;
            let mut size: u32 = 0;
            let ghost c0 = component@;
            proof {
                lemma_count_unlabelled_set(component@, root as int, label);
                lemma_count_unlabelled_bound(component@);
                lemma_tie_root(*cell, component@, roots, root as int);
            }
            component.set(root, label);
            proof {
                assert forall|l: int| 0 <= l < roots.len() implies #[trigger] roots[l] != root as int by {
                    assert(c0[roots[l]] as int == l);
                }
                roots = roots.push(root as int);
            }
            let mut stack: Vec<u32> = Vec::new();
            stack.push(root as u32);
            proof {
                assert(stack@ =~= seq![root as u32]);
                assert forall|x: int|
                    0 <= x < n && component@[x] != u32::MAX && !stack@.contains(x as u32) implies #[trigger] expanded(
                    component@,
                    fo,
                    hs,
                    x,
                ) by {
                    if x == root {
                        assert(stack@[0] == x as u32);
                    }
                    assert(c0[x] != u32::MAX);
                    assert(expanded(c0, fo, hs, x));
                    assert forall|k: int| fo[x] <= k < fo[x + 1] implies 0 <= #[trigger] hs[k] < c0.len() by {
                        assert(fo[x] <= fo[x + 1] <= fo[n as int]);
                    }
                    lemma_expanded_kept(c0, fo, hs, x, root as int, label);
                }
            }
            while stack.len() > 0
                invariant
                    cell.wf(),
                    n == cell.size(),
                    fo == cell.first_out@,
                    hs == cell.heads@,
                    root < n,
                    component@.len() == n,
                    label == sizes@.len(),
                    sizes@.len() <= root,
                    forall|x: int| 0 <= x <= root ==> #[trigger] component@[x] != u32::MAX,
                    forall|x: int| 0 <= x < n ==> (#[trigger] component@[x] == u32::MAX || component@[x] <= label),
                    stack@.no_duplicates(),
                    forall|i: int| 0 <= i < stack@.len() ==> (#[trigger] stack@[i] as int) < n,
                    forall|i: int| 0 <= i < stack@.len() ==> #[trigger] component@[stack@[i] as int] == label,
                    forall|x: int|
                        0 <= x < n && component@[x] != u32::MAX && !stack@.contains(x as u32) ==> #[trigger] expanded(
                            component@,
                            fo,
                            hs,
                            x,
                        ),
                    size + stack@.len() + count_unlabelled(component@) <= n,
                    size + stack@.len() >= 1,
                    roots.len() == label + 1,
                    roots[label as int] == root as int,
                    tied(*cell, component@, roots),
                    rooted(component@, roots),
                    forall|l: int| 0 <= l < sizes@.len() ==> #[trigger] sizes@[l] >= 1,
                decreases count_unlabelled(component@), stack@.len(),
            {
                let ghost stack_before = stack@;
                let node = stack.pop().unwrap();
                let ghost popped = stack@;
                let ghost count0 = count_unlabelled(component@);
                proof {
                    assert(stack_before =~= popped.push(node));
                    assert forall|x: int|
                        0 <= x < n && x != node && component@[x] != u32::MAX && !stack@.contains(x as u32)
                            implies #[trigger] expanded(component@, fo, hs, x) by {
                        if stack_before.contains(x as u32) {
                            let i = choose|i: int| 0 <= i < stack_before.len() && stack_before[i] == x as u32;
                            if i < popped.len() {
                                assert(popped[i] == x as u32);
                            }
                        }
                    }
                    lemma_count_unlabelled_bound(component@);
                    assert(!stack@.contains(node)) by {
                        if stack@.contains(node) {
                            let i = choose|i: int| 0 <= i < stack@.len() && stack@[i] == node;
                            assert(stack@.push(node)[i] == stack@.push(node)[stack@.len() as int]);
                        }
                    }
                }
                size += 1;
                let start = cell.first_out[node as usize] as usize;
                let end = cell.first_out[node as usize + 1] as usize;
                proof {
                    assert(fo[node as int] <= fo[node + 1] <= fo[n as int]);
                }
                let mut k = start;
                while k < end
                    invariant
                        cell.wf(),
                        n == cell.size(),
                        fo == cell.first_out@,
                        hs == cell.heads@,
                        root < n,
                        (node as int) < n,
                        start == fo[node as int],
                        end == fo[node + 1],
                        end <= hs.len(),
                        start <= k <= end,
                        component@.len() == n,
                        label == sizes@.len(),
                        sizes@.len() <= root,
                        component@[node as int] == label,
                        !stack@.contains(node),
                        forall|x: int| 0 <= x <= root ==> #[trigger] component@[x] != u32::MAX,
                        forall|x: int| 0 <= x < n ==> (#[trigger] component@[x] == u32::MAX || component@[x] <= label),
                        stack@.no_duplicates(),
                        forall|i: int| 0 <= i < stack@.len() ==> (#[trigger] stack@[i] as int) < n,
                        forall|i: int| 0 <= i < stack@.len() ==> #[trigger] component@[stack@[i] as int] == label,
                        forall|x: int|
                            0 <= x < n && x != node && component@[x] != u32::MAX && !stack@.contains(x as u32)
                                ==> #[trigger] expanded(component@, fo, hs, x),
                        forall|kk: int| start <= kk < k ==> #[trigger] component@[hs[kk] as int] != u32::MAX && component@[hs[kk] as int] <= label,
                        size + stack@.len() + count_unlabelled(component@) <= n,
                        count_unlabelled(component@) + stack@.len() == count0 + popped.len(),
                        count_unlabelled(component@) <= count0,
                        size >= 1,
                        roots.len() == label + 1,
                        roots[label as int] == root as int,
                        tied(*cell, component@, roots),
                        rooted(component@, roots),
                        forall|l: int| 0 <= l < sizes@.len() ==> #[trigger] sizes@[l] >= 1,
                    decreases end - k,
                {
                    let neighbour = cell.heads[k];
                    if component[neighbour as usize] == u32::MAX {
                        let ghost c1 = component@;
                        let ghost s1 = stack@;
                        proof {
                            lemma_count_unlabelled_set(component@, neighbour as int, label);
                            assert(!stack@.contains(neighbour)) by {
                                if stack@.contains(neighbour) {
                                    let i = choose|i: int| 0 <= i < stack@.len() && stack@[i] == neighbour;
                                }
                            }
                            assert(cell.adjacent(node as int, neighbour as int)) by {
                                assert(fo[node as int] <= k < fo[node + 1] && hs[k as int] as int == neighbour as int);
                            }
                            lemma_tie_reached(*cell, component@, roots, neighbour as int, node as int, label);
                            assert forall|l: int| 0 <= l < roots.len() implies #[trigger] roots[l] != neighbour as int by {
                                assert(c1[roots[l]] as int == l);
                            }
                        }
                        component.set(neighbour as usize, label);
                        stack.push(neighbour);
                        proof {
                            assert forall|i: int, j: int| 0 <= i < j < stack@.len() implies stack@[i] != stack@[j] by {
                                if j == stack@.len() - 1 {
                                    assert(stack@[i] == s1[i]);
                                    assert(s1.contains(stack@[i]));
                                }
                            }
                            assert forall|x: int|
                                0 <= x < n && x != node && component@[x] != u32::MAX && !stack@.contains(x as u32)
                                    implies #[trigger] expanded(component@, fo, hs, x) by {
                                assert(stack@[s1.len() as int] == neighbour);
                                assert(x != neighbour);
                                assert(!s1.contains(x as u32)) by {
                                    if s1.contains(x as u32) {
                                        let i = choose|i: int| 0 <= i < s1.len() && s1[i] == x as u32;
                                        assert(stack@[i] == x as u32);
                                    }
                                }
                                assert(c1[x] != u32::MAX);
                                assert(expanded(c1, fo, hs, x));
                                assert forall|kk: int| fo[x] <= kk < fo[x + 1] implies 0 <= #[trigger] hs[kk] < c1.len() by {
                                    assert(fo[x] <= fo[x + 1] <= fo[n as int]);
                                }
                                lemma_expanded_kept(c1, fo, hs, x, neighbour as int, label);
                            }
                        }
                    }
                    k += 1;
                }
                proof {
                    assert(expanded(component@, fo, hs, node as int));
                }
            }
            sizes.push(size);
        }
        root += 1;
    }
    proof {
        assert forall|c: Seq<bool>| #[trigger] closed_coloring(*cell, c) implies forall|x: int, y: int|
            0 <= x < n && 0 <= y < n && component@[x] == component@[y] ==> #[trigger] c[x] == #[trigger] c[y] by {
            assert forall|x: int, y: int| 0 <= x < n && 0 <= y < n && component@[x] == component@[y] implies #[trigger] c[x]
                == #[trigger] c[y] by {
                assert(c[x] == c[roots[component@[x] as int]]);
                assert(c[y] == c[roots[component@[y] as int]]);
            }
        }
        assert forall|l: int| 0 <= l < sizes@.len() implies #[trigger] labelled(component@, l) by {
            assert(component@[roots[l]] as int == l);
        }
        if cell.symmetric() {
            assert forall|u: int, v: int|
                0 <= u < n && 0 <= v < n && #[trigger] cell.adjacent(u, v) implies component@[u] == component@[v] by {
                assert(cell.adjacent(v, u));
                assert(expanded(component@, fo, hs, u));
                assert(expanded(component@, fo, hs, v));
                let k = choose|k: int| fo[u] <= k < fo[u + 1] && hs[k] as int == v;
                let l = choose|l: int| fo[v] <= l < fo[v + 1] && hs[l] as int == u;
            }
        }
    }
    (component, sizes)
}

/// Splits a cell into two size-balanced groups of whole connected
/// components: components by decreasing size (then label) each join the
/// currently lighter group, the first group on ties. `None` when the cell
/// has fewer than two components or a group stays empty.
fn split_components(cell: &Cell) -> (r: Option<(Vec<u32>, Vec<u32>)>)
    requires
        cell.wf(),
    ensures
        r matches Some((a, b)) ==> two_way(a@, b@, cell.size() as int) && a@.len() > 0 && b@.len() > 0 && (
        cell.symmetric() ==> no_arc_between(*cell, a@, b@) && no_arc_between(*cell, b@, a@)),
        r is None ==> unsplittable(*cell),
{
    let n = cell.len();
    let (component, sizes) = component_labels(cell);
    let label_count = sizes.len();
    if label_count < 2 {
        proof {
            assert forall|c: Seq<bool>| #[trigger] closed_coloring(*cell, c) implies forall|x: int, y: int|
                0 <= x < cell.size() && 0 <= y < cell.size() ==> #[trigger] c[x] == #[trigger] c[y] by {
                assert forall|x: int, y: int| 0 <= x < cell.size() && 0 <= y < cell.size() implies #[trigger] c[x]
                    == #[trigger] c[y] by {
                    assert(component@[x] == component@[y]);
                }
            }
        }
        return None;
    }
    let mut keys: Vec<(u32, u32)> = Vec::new();
    let mut label: usize = 0;
    while label < label_count
        invariant
            label <= label_count,
            label_count == sizes@.len(),
            label_count <= n,
            n <= CELL_CAPACITY,
            keys@.len() == label,
            forall|i: int| 0 <= i < label ==> (#[trigger] keys@[i]).1 == i,
        decreases label_count - label,
    {
        keys.push((u32::MAX - sizes[label], label as u32));
        label += 1;
    }
    let ghost unsorted = keys@;
    sort_arcs(&mut keys);
    proof {
        assert(keys@.to_multiset().len() == unsorted.to_multiset().len());
        assert(unsorted.no_duplicates()) by {
            assert forall|a: int, b: int| 0 <= a < unsorted.len() && 0 <= b < unsorted.len() && a != b implies unsorted[a]
                != unsorted[b] by {
                assert(unsorted[a].1 == a && unsorted[b].1 == b);
            }
        }
        unsorted.lemma_multiset_has_no_duplicates();
        keys@.lemma_multiset_has_no_duplicates_conv();
        assert forall|a: int| 0 <= a < keys@.len() implies #[trigger] keys@[a] == unsorted[keys@[a].1 as int] && (keys@[a].1 as int)
            < label_count by {
            assert(keys@.contains(keys@[a]));
            assert(unsorted.to_multiset().count(keys@[a]) > 0);
            let j = choose|j: int| 0 <= j < unsorted.len() && unsorted[j] == keys@[a];
        }
        assert forall|a: int, b: int| 0 <= a < b < keys@.len() implies #[trigger] keys@[a].1 != #[trigger] keys@[b].1 by {
            assert(keys@[a] == unsorted[keys@[a].1 as int]);
            assert(keys@[b] == unsorted[keys@[b].1 as int]);
        }
    }
    let mut group: Vec<u8> = Vec::new();
    let mut label: usize = 0;
    while label < label_count
        invariant
            label <= label_count,
            group@.len() == label,
        decreases label_count - label,
    {
        group.push(0u8);
        label += 1;
    }
    let mut light: u64 = 0;
    let mut heavy: u64 = 0;
    let mut i: usize = 0;
    while i < keys.len()
        invariant
            i <= keys@.len(),
            keys@.len() == label_count,
            label_count == sizes@.len(),
            label_count <= CELL_CAPACITY,
            group@.len() == label_count,
            keys@.to_multiset() == unsorted.to_multiset(),
            forall|j: int| 0 <= j < label_count ==> (#[trigger] unsorted[j]).1 == j,
            unsorted.len() == label_count,
            light + heavy <= i * 0xffff_ffffu64,
            forall|a: int, b: int| 0 <= a < b < keys@.len() ==> #[trigger] keys@[a].1 != #[trigger] keys@[b].1,
            forall|a: int| 0 <= a < keys@.len() ==> (#[trigger] keys@[a].1 as int) < label_count,
            forall|l: int| 0 <= l < sizes@.len() ==> #[trigger] sizes@[l] >= 1,
            i >= 1 ==> group@[keys@[0].1 as int] == 0 && light >= 1,
            i >= 2 ==> group@[keys@[1].1 as int] == 1,
            i <= 1 ==> heavy == 0,
            label_count >= 2,
        decreases keys@.len() - i,
    {
        let (_, l) = keys[i];
        proof {
            assert(keys@.contains(keys@[i as int]));
            assert(unsorted.to_multiset().count(keys@[i as int]) > 0);
            let j = choose|j: int| 0 <= j < unsorted.len() && unsorted[j] == keys@[i as int];
        }
        let size = sizes[l as usize] as u64;
        if heavy < light {
            group.set(l as usize, 1u8);
            heavy = heavy + size;
        } else {
            group.set(l as usize, 0u8);
            light = light + size;
        }
        i += 1;
    }
    let mut left: Vec<u32> = Vec::new();
    let mut right: Vec<u32> = Vec::new();
    let mut node: usize = 0;
    while node < n
        invariant
            node <= n,
            n == cell.size(),
            n <= CELL_CAPACITY,
            component@.len() == n,
            forall|x: int| 0 <= x < n ==> (#[trigger] component@[x] as int) < sizes@.len(),
            group@.len() == sizes@.len(),
            member_list(left@, n as int),
            member_list(right@, n as int),
            left@.len() + right@.len() == node,
            forall|j: int| 0 <= j < left@.len() ==> (#[trigger] left@[j] as int) < node,
            forall|j: int| 0 <= j < right@.len() ==> (#[trigger] right@[j] as int) < node,
            forall|x: u32| #[trigger] left@.contains(x) <==> ((x as int) < node && group@[component@[x as int] as int] == 0),
            forall|x: u32| #[trigger] right@.contains(x) <==> ((x as int) < node && group@[component@[x as int] as int] != 0),
        decreases n - node,
    {
        let g = group[component[node] as usize];
        if g == 0 {
            proof {
                lemma_push_member(left@, node as u32, n as int);
            }
            left.push(node as u32);
        } else {
            proof {
                lemma_push_member(right@, node as u32, n as int);
            }
            right.push(node as u32);
        }
        node += 1;
    }
    if left.len() == 0 || right.len() == 0 {
        proof {
            assert(labelled(component@, keys@[0].1 as int));
            assert(labelled(component@, keys@[1].1 as int));
            let x = choose|x: int| 0 <= x < component@.len() && component@[x] as int == keys@[0].1 as int;
            let y = choose|y: int| 0 <= y < component@.len() && component@[y] as int == keys@[1].1 as int;
            assert(left@.contains(x as u32));
            assert(right@.contains(y as u32));
        }
        return None;
    }
    proof {
        if cell.symmetric() {
            assert forall|u: u32, v: u32| #[trigger] left@.contains(u) && #[trigger] right@.contains(v) implies !cell.adjacent(
                u as int,
                v as int,
            ) by {
                if cell.adjacent(u as int, v as int) {
                    assert(component@[u as int] == component@[v as int]);
                }
            }
            assert forall|u: u32, v: u32| #[trigger] right@.contains(u) && #[trigger] left@.contains(v) implies !cell.adjacent(
                u as int,
                v as int,
            ) by {
                if cell.adjacent(u as int, v as int) {
                    assert(component@[u as int] == component@[v as int]);
                }
            }
        }
    }
    Some((left, right))
}

// ---------------------------------------------------------------------------
// The vertex-capacity flow network of one source/sink assignment
// ---------------------------------------------------------------------------

/// Role of a node that may enter the separator.
pub const ROLE_INNER: u8 = 0;
/// Role of a node in the contracted source set.
pub const ROLE_SOURCE: u8 = 1;
/// Role of a node in the contracted sink set.
pub const ROLE_SINK: u8 = 2;

/// Flow node through which flow enters cell node `u`.
pub open spec fn entry(u: int) -> u32 {
    (2 + 2 * u) as u32
}

/// Flow node through which flow leaves cell node `u`.
pub open spec fn exit(u: int) -> u32 {
    (3 + 2 * u) as u32
}

/// Roles are inner, source or sink.
pub open spec fn roles_ok(role: Seq<u8>, n: int) -> bool {
    &&& role.len() == n
    &&& forall|u: int| 0 <= u < n ==> #[trigger] role[u] <= ROLE_SINK
}

/// A source node and a sink node.
pub open spec fn opposite(a: u8, b: u8) -> bool {
    (a == ROLE_SOURCE && b == ROLE_SINK) || (a == ROLE_SINK && b == ROLE_SOURCE)
}

/// Not a source node and a sink node.
pub open spec fn compatible(role: Seq<u8>, u: int, v: int) -> bool {
    !opposite(role[u], role[v])
}

/// Some source node is adjacent to some sink node, so no vertex separator
/// exists for this assignment.
pub open spec fn source_touches_sink(cell: Cell, role: Seq<u8>) -> bool {
    exists|u: int, v: int| 0 <= u < v < cell.size() && #[trigger] cell.adjacent(u, v) && opposite(role[u], role[v])
}

/// The infinite arcs that the cell arc between `u < v` contributes.
pub open spec fn pair_arcs_present(pairs: Seq<(u32, u32, u8)>, role: Seq<u8>, u: int, v: int) -> bool {
    let (a, b) = (role[u], role[v]);
    &&& (a == ROLE_INNER && b == ROLE_INNER) ==> pairs.contains((exit(u), entry(v), INFINITE_CAPACITY))
        && pairs.contains((exit(v), entry(u), INFINITE_CAPACITY))
    &&& (a == ROLE_SOURCE && b == ROLE_INNER) ==> pairs.contains((0u32, entry(v), INFINITE_CAPACITY))
    &&& (a == ROLE_INNER && b == ROLE_SOURCE) ==> pairs.contains((0u32, entry(u), INFINITE_CAPACITY))
    &&& (a == ROLE_SINK && b == ROLE_INNER) ==> pairs.contains((exit(v), 1u32, INFINITE_CAPACITY))
    &&& (a == ROLE_INNER && b == ROLE_SINK) ==> pairs.contains((exit(u), 1u32, INFINITE_CAPACITY))
}

/// Every pair runs between two distinct flow nodes below `flow_nodes`.
pub open spec fn pairs_ok(pairs: Seq<(u32, u32, u8)>, flow_nodes: int) -> bool {
    forall|p: int|
        0 <= p < pairs.len() ==> (#[trigger] pairs[p]).0 < flow_nodes && pairs[p].1 < flow_nodes && pairs[p].0
            != pairs[p].1
}

proof fn lemma_push_keeps_contains(s: Seq<(u32, u32, u8)>, x: (u32, u32, u8), y: (u32, u32, u8))
    requires
        s.contains(y),
    ensures
        s.push(x).contains(y),
{
    let i = choose|i: int| 0 <= i < s.len() && s[i] == y;
    assert(s.push(x)[i] == y);
}

proof fn lemma_push_contains(s: Seq<(u32, u32, u8)>, x: (u32, u32, u8))
    ensures
        s.push(x).contains(x),
{
    assert(s.push(x)[s.len() as int] == x);
}

/// The arc pairs of the flow network in visiting order, each a forward
/// arc `(tail, head, capacity)` whose reverse starts empty.
///
/// Inner nodes are split into an entry node and an exit node joined by a
/// unit arc, so every finite minimum cut is a vertex separator; cell arcs
/// run from exits to entries with infinite capacity; the source and sink
/// sets are contracted into flow nodes 0 and 1. `None` when a source node
/// touches a sink node.
fn flow_arc_pairs(cell: &Cell, role: &Vec<u8>) -> (r: Option<Vec<(u32, u32, u8)>>)
    requires
        cell.wf(),
        roles_ok(role@, cell.size() as int),
    ensures
        r is None <==> source_touches_sink(*cell, role@),
        r matches Some(pairs) ==> {
            &&& pairs@.len() <= cell.size() + 2 * cell.heads@.len()
            &&& pairs_ok(pairs@, 2 + 2 * cell.size() as int)
            &&& forall|u: int, v: int|
                0 <= u < v < cell.size() && #[trigger] cell.adjacent(u, v) ==> pair_arcs_present(pairs@, role@, u, v)
        },
{
    let n = cell.len();
    let ghost fo = cell.first_out@;
    let ghost hs = cell.heads@;
    let ghost rl = role@;
    let mut pairs: Vec<(u32, u32, u8)> = Vec::new();
    let mut node: usize = 0;
    while node < n
        invariant
            cell.wf(),
            n == cell.size(),
            fo == cell.first_out@,
            hs == cell.heads@,
            rl == role@,
            roles_ok(rl, n as int),
            node <= n,
            pairs@.len() <= node + 2 * fo[node as int],
            pairs_ok(pairs@, 2 + 2 * n),
            forall|u: int, k: int|
                0 <= u < node && fo[u] <= k < fo[u + 1] && u < hs[k] ==> #[trigger] compatible(rl, u, hs[k] as int),
            forall|u: int, k: int|
                0 <= u < node && fo[u] <= k < fo[u + 1] && u < hs[k] ==> #[trigger] pair_arcs_present(
                    pairs@,
                    rl,
                    u,
                    hs[k] as int,
                ),
        decreases n - node,
    {
        proof {
            assert(fo[node as int] <= fo[node + 1] <= fo[n as int]);
        }
        if role[node] == ROLE_INNER {
            let ghost before = pairs@;
            pairs.push(((2 + 2 * node) as u32, (3 + 2 * node) as u32, 1u8));
            proof {
                assert forall|u: int, k: int|
                    0 <= u < node && fo[u] <= k < fo[u + 1] && u < hs[k] implies #[trigger] pair_arcs_present(
                    pairs@,
                    rl,
                    u,
                    hs[k] as int,
                ) by {
                    let v = hs[k] as int;
                    assert(pair_arcs_present(before, rl, u, v));
                    if pair_arcs_present(before, rl, u, v) {
                        if before.contains((exit(u), entry(v), INFINITE_CAPACITY)) {
                            lemma_push_keeps_contains(before, pairs@.last(), (exit(u), entry(v), INFINITE_CAPACITY));
                        }
                        if before.contains((exit(v), entry(u), INFINITE_CAPACITY)) {
                            lemma_push_keeps_contains(before, pairs@.last(), (exit(v), entry(u), INFINITE_CAPACITY));
                        }
                        if before.contains((0u32, entry(v), INFINITE_CAPACITY)) {
                            lemma_push_keeps_contains(before, pairs@.last(), (0u32, entry(v), INFINITE_CAPACITY));
                        }
                        if before.contains((0u32, entry(u), INFINITE_CAPACITY)) {
                            lemma_push_keeps_contains(before, pairs@.last(), (0u32, entry(u), INFINITE_CAPACITY));
                        }
                        if before.contains((exit(v), 1u32, INFINITE_CAPACITY)) {
                            lemma_push_keeps_contains(before, pairs@.last(), (exit(v), 1u32, INFINITE_CAPACITY));
                        }
                        if before.contains((exit(u), 1u32, INFINITE_CAPACITY)) {
                            lemma_push_keeps_contains(before, pairs@.last(), (exit(u), 1u32, INFINITE_CAPACITY));
                        }
                    }
                }
            }
        }
        let start = cell.first_out[node] as usize;
        let end = cell.first_out[node + 1] as usize;
        let mut k = start;
        while k < end
            invariant
                cell.wf(),
                n == cell.size(),
                fo == cell.first_out@,
                hs == cell.heads@,
                rl == role@,
                roles_ok(rl, n as int),
                node < n,
                start == fo[node as int],
                end == fo[node + 1],
                end <= hs.len(),
                start <= k <= end,
                pairs@.len() <= node + 1 + 2 * k,
                pairs_ok(pairs@, 2 + 2 * n),
                forall|u: int, kk: int|
                    ((0 <= u < node && fo[u] <= kk < fo[u + 1]) || (u == node && start <= kk < k)) && u < hs[kk]
                        ==> #[trigger] compatible(rl, u, hs[kk] as int),
                forall|u: int, kk: int|
                    ((0 <= u < node && fo[u] <= kk < fo[u + 1]) || (u == node && start <= kk < k)) && u < hs[kk]
                        ==> #[trigger] pair_arcs_present(pairs@, rl, u, hs[kk] as int),
            decreases end - k,
        {
            let neighbour = cell.heads[k] as usize;
            if neighbour > node {
                let a = role[node];
                let b = role[neighbour];
                if (a == ROLE_SOURCE && b == ROLE_SINK) || (a == ROLE_SINK && b == ROLE_SOURCE) {
                    proof {
                        assert(cell.adjacent(node as int, neighbour as int));
                    }
                    return None;
                }
                let ghost before = pairs@;
                let ghost mut added: Seq<(u32, u32, u8)> = Seq::empty();
                if a == ROLE_INNER && b == ROLE_INNER {
                    pairs.push(((3 + 2 * node) as u32, (2 + 2 * neighbour) as u32, INFINITE_CAPACITY));
                    pairs.push(((3 + 2 * neighbour) as u32, (2 + 2 * node) as u32, INFINITE_CAPACITY));
                } else if a == ROLE_SOURCE && b == ROLE_INNER {
                    pairs.push((0u32, (2 + 2 * neighbour) as u32, INFINITE_CAPACITY));
                } else if a == ROLE_INNER && b == ROLE_SOURCE {
                    pairs.push((0u32, (2 + 2 * node) as u32, INFINITE_CAPACITY));
                } else if a == ROLE_SINK && b == ROLE_INNER {
                    pairs.push(((3 + 2 * neighbour) as u32, 1u32, INFINITE_CAPACITY));
                } else if a == ROLE_INNER && b == ROLE_SINK {
                    pairs.push(((3 + 2 * node) as u32, 1u32, INFINITE_CAPACITY));
                }
                proof {
                    let after = pairs@;
                    assert(after.subrange(0, before.len() as int) =~= before);
                    assert forall|y: (u32, u32, u8)| before.contains(y) implies after.contains(y) by {
                        let i = choose|i: int| 0 <= i < before.len() && before[i] == y;
                        assert(after.subrange(0, before.len() as int)[i] == after[i]);
                    }
                    assert forall|u: int, kk: int|
                        ((0 <= u < node && fo[u] <= kk < fo[u + 1]) || (u == node && start <= kk < k + 1)) && u < hs[kk]
                            implies #[trigger] pair_arcs_present(after, rl, u, hs[kk] as int) by {
                        let v = hs[kk] as int;
                        if u == node && kk == k {
                            if a == ROLE_INNER && b == ROLE_INNER {
                                assert(after[after.len() - 2] == (exit(u), entry(v), INFINITE_CAPACITY));
                                assert(after[after.len() - 1] == (exit(v), entry(u), INFINITE_CAPACITY));
                            } else if a != ROLE_SINK || b != ROLE_SINK {
                                if a != ROLE_SOURCE || b != ROLE_SOURCE {
                                    assert(after[after.len() - 1] == after.last());
                                }
                            }
                        } else {
                            assert(pair_arcs_present(before, rl, u, v));
                        }
                    }
                }
            }
            k += 1;
        }
        node += 1;
    }
    proof {
        assert forall|u: int, v: int|
            0 <= u < v < n && #[trigger] cell.adjacent(u, v) implies pair_arcs_present(pairs@, rl, u, v) by {
            let k = choose|k: int| fo[u] <= k < fo[u + 1] && hs[k] as int == v;
        }
        if source_touches_sink(*cell, rl) {
            let (u, v) = choose|u: int, v: int| 0 <= u < v < n && #[trigger] cell.adjacent(u, v) && opposite(rl[u], rl[v]);
            let k = choose|k: int| fo[u] <= k < fo[u + 1] && hs[k] as int == v;
            assert(compatible(rl, u, hs[k] as int));
        }
        assert(fo[n as int] == hs.len());
    }
    Some(pairs)
}

impl FlowNetwork {
    /// The infinite arcs that the cell arc between `u < v` contributes.
    pub open spec fn carries_pair(&self, role: Seq<u8>, u: int, v: int) -> bool {
        let (a, b) = (role[u], role[v]);
        &&& (a == ROLE_INNER && b == ROLE_INNER) ==> self.infinite_arc(exit(u) as int, entry(v) as int)
            && self.infinite_arc(exit(v) as int, entry(u) as int)
        &&& (a == ROLE_SOURCE && b == ROLE_INNER) ==> self.infinite_arc(0, entry(v) as int)
        &&& (a == ROLE_INNER && b == ROLE_SOURCE) ==> self.infinite_arc(0, entry(u) as int)
        &&& (a == ROLE_SINK && b == ROLE_INNER) ==> self.infinite_arc(exit(v) as int, 1)
        &&& (a == ROLE_INNER && b == ROLE_SINK) ==> self.infinite_arc(exit(u) as int, 1)
    }
}

/// The rows of a CSR built from sorted arcs are those of a CSR adjacency.
proof fn lemma_csr_rows(first_out: Seq<u32>, heads: Seq<u32>, arcs: Seq<(u32, u32)>, n: int)
    requires
        sorted_pairs(arcs),
        csr_of(first_out, heads, arcs, n),
        n >= 0,
        forall|i: int| 0 <= i < arcs.len() ==> (#[trigger] arcs[i].0 as int) < n,
    ensures
        first_out.len() == n + 1,
        first_out[0] == 0,
        forall|i: int, j: int| 0 <= i <= j <= n ==> #[trigger] first_out[i] <= #[trigger] first_out[j],
        first_out[n] == arcs.len(),
{
    lemma_tails_below_sorted(arcs, 0);
    lemma_tails_below_sorted(arcs, n);
    assert(first_out[0] == tails_below(arcs, 0));
    assert(first_out[n] == tails_below(arcs, n));
    if tails_below(arcs, 0) > 0 {
        assert(!((arcs[0].0 as int) < 0));
    }
    if tails_below(arcs, n) < arcs.len() {
        assert((arcs[tails_below(arcs, n) as int].0 as int) < n);
    }
    assert forall|i: int, j: int| 0 <= i <= j <= n implies #[trigger] first_out[i] <= #[trigger] first_out[j] by {
        lemma_tails_below_sorted(arcs, i);
        lemma_tails_below_sorted(arcs, j);
        assert(first_out[i] == tails_below(arcs, i) && first_out[j] == tails_below(arcs, j));
        if tails_below(arcs, i) > tails_below(arcs, j) {
            let k = tails_below(arcs, j) as int;
            assert((arcs[k].0 as int) < i);
        }
    }
}

/// The flow node that owns endpoint `q` of the pair list: the tail of
/// pair `q / 2` for even `q`, its head for odd `q`.
pub open spec fn endpoint_owner(pairs: Seq<(u32, u32, u8)>, q: int) -> u32 {
    if q % 2 == 0 {
        pairs[q / 2].0
    } else {
        pairs[q / 2].1
    }
}

/// Builds the residual network of one source/sink assignment; every row
/// lists its arcs in visiting order. `None` when a source node touches a
/// sink node.
fn build_flow_network(cell: &Cell, role: &Vec<u8>) -> (r: Option<FlowNetwork>)
    requires
        cell.wf(),
        roles_ok(role@, cell.size() as int),
    ensures
        r is None <==> source_touches_sink(*cell, role@),
        r matches Some(net) ==> {
            &&& net.shape_ok(2 + 2 * cell.size() as int)
            &&& forall|u: int, v: int|
                0 <= u < v < cell.size() && #[trigger] cell.adjacent(u, v) ==> net.carries_pair(role@, u, v)
        },
{
    let n = cell.len();
    let pairs = match flow_arc_pairs(cell, role) {
        Some(pairs) => pairs,
        None => {
            return None;
        },
    };
    let ghost ps = pairs@;
    let flow_nodes = 2 + 2 * n;
    let mut entries: Vec<(u32, u32)> = Vec::new();
    let mut p: usize = 0;
    while p < pairs.len()
        invariant
            ps == pairs@,
            ps.len() <= n + 2 * cell.heads@.len(),
            n + cell.heads@.len() <= CELL_CAPACITY,
            p <= ps.len(),
            entries@.len() == 2 * p,
            forall|q: int| 0 <= q < 2 * p ==> #[trigger] entries@[q] == (endpoint_owner(ps, q), q as u32),
        decreases ps.len() - p,
    {
        entries.push((pairs[p].0, (2 * p) as u32));
        entries.push((pairs[p].1, (2 * p + 1) as u32));
        proof {
            assert(entries@[2 * p] == (endpoint_owner(ps, 2 * p), (2 * p) as u32));
            assert(entries@[2 * p + 1] == (endpoint_owner(ps, 2 * p + 1), (2 * p + 1) as u32));
        }
        p += 1;
    }
    let ghost unsorted = entries@;
    let total = entries.len();
    proof {
        assert(unsorted.no_duplicates()) by {
            assert forall|i: int, j: int| 0 <= i < unsorted.len() && 0 <= j < unsorted.len() && i != j implies unsorted[i]
                != unsorted[j] by {
                assert(unsorted[i].1 == i as u32 && unsorted[j].1 == j as u32);
            }
        }
        unsorted.lemma_multiset_has_no_duplicates();
    }
    sort_arcs(&mut entries);
    let ghost sorted = entries@;
    proof {
        assert(sorted.to_multiset().len() == unsorted.to_multiset().len());
        assert forall|x: (u32, u32)| sorted.to_multiset().contains(x) implies sorted.to_multiset().count(x) == 1 by {}
        sorted.lemma_multiset_has_no_duplicates_conv();
        assert forall|s: int| 0 <= s < sorted.len() implies #[trigger] sorted[s] == (
            endpoint_owner(ps, sorted[s].1 as int),
            sorted[s].1,
        ) && (sorted[s].1 as int) < total by {
            assert(sorted.contains(sorted[s]));
            assert(unsorted.to_multiset().count(sorted[s]) > 0);
            let q = choose|q: int| 0 <= q < unsorted.len() && unsorted[q] == sorted[s];
        }
        assert forall|i: int| 0 <= i < sorted.len() implies (#[trigger] sorted[i].0 as int) < flow_nodes by {
            let q = sorted[i].1 as int;
            assert(sorted[i] == (endpoint_owner(ps, q), q as u32));
            assert(ps[q / 2].0 < flow_nodes && ps[q / 2].1 < flow_nodes);
        }
    }
    let (first_out, positions) = arcs_to_csr(&entries, flow_nodes);
    proof {
        lemma_csr_rows(first_out@, positions@, sorted, flow_nodes as int);
    }
    let mut slot_of: Vec<u32> = Vec::new();
    let mut q: usize = 0;
    while q < total
        invariant
            q <= total,
            slot_of@.len() == q,
        decreases total - q,
    {
        slot_of.push(0u32);
        q += 1;
    }
    let mut slot: usize = 0;
    while slot < total
        invariant
            total == sorted.len(),
            total <= 0x4000_0000,
            positions@.len() == total,
            slot <= total,
            slot_of@.len() == total,
            sorted.no_duplicates(),
            forall|s: int| 0 <= s < total ==> #[trigger] positions@[s] == sorted[s].1,
            forall|s: int| 0 <= s < sorted.len() ==> #[trigger] sorted[s] == (
                endpoint_owner(ps, sorted[s].1 as int),
                sorted[s].1,
            ) && (sorted[s].1 as int) < total,
            forall|s: int| 0 <= s < slot ==> #[trigger] slot_of@[positions@[s] as int] == s,
        decreases total - slot,
    {
        let ghost before = slot_of@;
        slot_of.set(positions[slot] as usize, slot as u32);
        proof {
            assert forall|s: int| 0 <= s < slot + 1 implies #[trigger] slot_of@[positions@[s] as int] == s by {
                if s < slot {
                    assert(sorted[s] != sorted[slot as int]);
                    assert(positions@[s] != positions@[slot as int]);
                }
            }
        }
        slot += 1;
    }
    proof {
        assert forall|q: int| 0 <= q < total implies positions@[#[trigger] slot_of@[q] as int] == q && (slot_of@[q] as int) < total by {
            assert(unsorted[q] == (endpoint_owner(ps, q), q as u32));
            assert(unsorted.contains(unsorted[q]));
            assert(sorted.to_multiset().count(unsorted[q]) > 0);
            let s = choose|s: int| 0 <= s < sorted.len() && sorted[s] == unsorted[q];
            assert(slot_of@[positions@[s] as int] == s);
        }
    }
    let mut head: Vec<u32> = Vec::new();
    let mut cap: Vec<u8> = Vec::new();
    let mut rev: Vec<u32> = Vec::new();
    let mut slot: usize = 0;
    while slot < total
        invariant
            total == sorted.len(),
            total == 2 * ps.len(),
            total <= 0x4000_0000,
            ps == pairs@,
            positions@.len() == total,
            slot_of@.len() == total,
            slot <= total,
            forall|s: int| 0 <= s < total ==> #[trigger] positions@[s] == sorted[s].1,
            forall|s: int| 0 <= s < sorted.len() ==> #[trigger] sorted[s] == (
                endpoint_owner(ps, sorted[s].1 as int),
                sorted[s].1,
            ) && (sorted[s].1 as int) < total,
            forall|q: int| 0 <= q < total ==> positions@[#[trigger] slot_of@[q] as int] == q && (slot_of@[q] as int) < total,
            head@.len() == slot,
            cap@.len() == slot,
            rev@.len() == slot,
            forall|s: int| 0 <= s < slot ==> (#[trigger] rev@[s] as int) < total,
            forall|s: int| 0 <= s < slot ==> #[trigger] head@[s] == (if positions@[s] % 2 == 0 {
                ps[(positions@[s] / 2) as int].1
            } else {
                ps[(positions@[s] / 2) as int].0
            }),
            forall|s: int| 0 <= s < slot && positions@[s] % 2 == 0 ==> #[trigger] cap@[s] == ps[(positions@[s] / 2) as int].2,
        decreases total - slot,
    {
        let q = positions[slot] as usize;
        let pair = pairs[q / 2];
        if q % 2 == 0 {
            head.push(pair.1);
            cap.push(pair.2);
            rev.push(slot_of[q + 1]);
        } else {
            head.push(pair.0);
            cap.push(0u8);
            rev.push(slot_of[q - 1]);
        }
        slot += 1;
    }
    let net = FlowNetwork { first_out, head, cap, rev };
    proof {
        assert forall|k: int| 0 <= k < net.head@.len() implies (#[trigger] net.head@[k] as int) < flow_nodes by {
            let q = positions@[k] as int;
            assert(ps[q / 2].0 < flow_nodes && ps[q / 2].1 < flow_nodes);
        }
        assert forall|u: int, v: int| 0 <= u < v < n && #[trigger] cell.adjacent(u, v) implies net.carries_pair(role@, u, v) by {
            assert(pair_arcs_present(ps, role@, u, v));
            assert forall|t: u32, h: u32| #[trigger] ps.contains((t, h, INFINITE_CAPACITY)) implies net.infinite_arc(t as int, h as int) by {
                let p = choose|p: int| 0 <= p < ps.len() && ps[p] == (t, h, INFINITE_CAPACITY);
                let q = 2 * p;
                let s = slot_of@[q] as int;
                assert(positions@[s] == q);
                assert(sorted[s] == (endpoint_owner(ps, q), q as u32));
                assert(q % 2 == 0 && q / 2 == p);
                assert(sorted[s].0 == t);
                assert(first_out@[sorted[s].0 as int] <= s < first_out@[sorted[s].0 + 1]);
                assert(positions@[s] % 2 == 0);
                assert(net.head@[s] == h && net.cap@[s] == INFINITE_CAPACITY);
                assert(net.first_out@[t as int] <= s < net.first_out@[t + 1]);
            }
        }
    }
    Some(net)
}

/// A cell split into two sides and the separator that keeps them apart,
/// each a strictly increasing list of local nodes.
pub struct Split {
    pub side_a: Vec<u32>,
    pub side_b: Vec<u32>,
    pub separator: Vec<u32>,
}

/// `a`, `b` and `c` are strictly increasing lists of local nodes below `n`
/// that hold every node exactly once between them.
pub open spec fn three_way(a: Seq<u32>, b: Seq<u32>, c: Seq<u32>, n: int) -> bool {
    &&& member_list(a, n)
    &&& member_list(b, n)
    &&& member_list(c, n)
    &&& a.len() + b.len() + c.len() == n
    &&& forall|x: u32|
        #![trigger a.contains(x)]
        #![trigger b.contains(x)]
        #![trigger c.contains(x)]
        (x as int) < n ==> (a.contains(x) || b.contains(x) || c.contains(x)) && !(a.contains(x) && b.contains(x)) && !(
        a.contains(x) && c.contains(x)) && !(b.contains(x) && c.contains(x))
}

/// The side of cell node `u` after the cut: 0 for side A (sources and
/// inner nodes whose exit the source reaches), 1 for side B (sinks and
/// inner nodes the source does not reach), 2 for the separator (inner
/// nodes whose entry but not exit the source reaches).
pub open spec fn side_of(role: Seq<u8>, lv: Seq<i32>, u: int) -> int {
    if role[u] == ROLE_SOURCE {
        0
    } else if role[u] == ROLE_SINK {
        1
    } else if lv[exit(u) as int] >= 0 {
        0
    } else if lv[entry(u) as int] >= 0 {
        2
    } else {
        1
    }
}

/// The infinite arcs of a network survive any run that keeps the rows and
/// every infinite capacity.
proof fn lemma_infinite_arc_kept(before: FlowNetwork, after: FlowNetwork, t: int, h: int)
    requires
        before.infinite_arc(t, h),
        after.first_out@ == before.first_out@,
        after.head@ == before.head@,
        before.shape_ok(before.first_out@.len() - 1),
        0 <= t < before.first_out@.len() - 1,
        forall|a: int| 0 <= a < before.cap@.len() && before.cap@[a] == INFINITE_CAPACITY ==> #[trigger] after.cap@[a]
            == INFINITE_CAPACITY,
    ensures
        after.infinite_arc(t, h),
{
    let a = choose|a: int|
        before.first_out@[t] <= a < before.first_out@[t + 1] && before.head@[a] as int == h && before.cap@[a]
            == INFINITE_CAPACITY;
    assert(before.first_out@[t + 1] <= before.first_out@[before.first_out@.len() - 1]);
    assert(after.cap@[a] == INFINITE_CAPACITY);
}

/// An infinite arc from a node with a level leads to a node with one.
proof fn lemma_infinite_arc_closed(net: FlowNetwork, lv: Seq<i32>, t: int, h: int)
    requires
        net.infinite_arc(t, h),
        levels_closed(net.first_out@, net.head@, net.cap@, lv),
        0 <= t < lv.len(),
        lv[t] >= 0,
    ensures
        lv[h] >= 0,
{
    let a = choose|a: int|
        net.first_out@[t] <= a < net.first_out@[t + 1] && net.head@[a] as int == h && net.cap@[a] == INFINITE_CAPACITY;
    assert(in_row(net.first_out@, t, a));
}

/// The cut leaves no cell arc between side A and side B.
proof fn lemma_cut_separates(net: FlowNetwork, role: Seq<u8>, lv: Seq<i32>, u: int, v: int, n: int)
    requires
        0 <= u < v < n,
        lv.len() == 2 + 2 * n,
        roles_ok(role, n),
        compatible(role, u, v),
        net.carries_pair(role, u, v),
        levels_closed(net.first_out@, net.head@, net.cap@, lv),
        lv[0] >= 0,
        lv[1] < 0,
    ensures
        !(side_of(role, lv, u) == 0 && side_of(role, lv, v) == 1),
        !(side_of(role, lv, u) == 1 && side_of(role, lv, v) == 0),
{
    let (a, b) = (role[u], role[v]);
    if a == ROLE_INNER && b == ROLE_INNER {
        if lv[exit(u) as int] >= 0 {
            lemma_infinite_arc_closed(net, lv, exit(u) as int, entry(v) as int);
        }
        if lv[exit(v) as int] >= 0 {
            lemma_infinite_arc_closed(net, lv, exit(v) as int, entry(u) as int);
        }
    } else if a == ROLE_SOURCE && b == ROLE_INNER {
        lemma_infinite_arc_closed(net, lv, 0, entry(v) as int);
    } else if a == ROLE_INNER && b == ROLE_SOURCE {
        lemma_infinite_arc_closed(net, lv, 0, entry(u) as int);
    } else if a == ROLE_SINK && b == ROLE_INNER {
        if lv[exit(v) as int] >= 0 {
            lemma_infinite_arc_closed(net, lv, exit(v) as int, 1);
        }
    } else if a == ROLE_INNER && b == ROLE_SINK {
        if lv[exit(u) as int] >= 0 {
            lemma_infinite_arc_closed(net, lv, exit(u) as int, 1);
        }
    }
}

/// `net` is a flow network of the cell under `role`, as it is built: the
/// right number of flow nodes and the arcs of every cell arc.
pub open spec fn flow_network_for(cell: Cell, role: Seq<u8>, net: FlowNetwork) -> bool {
    &&& net.shape_ok(2 + 2 * cell.size() as int)
    &&& forall|u: int, v: int| 0 <= u < v < cell.size() && #[trigger] cell.adjacent(u, v) ==> net.carries_pair(role, u, v)
}

/// No cut below `limit` separates the sources from the sinks: they touch,
/// or the limit is zero, or the flow network of the cell carries `limit`
/// units from the sources to the sinks.
pub open spec fn flow_refused(cell: Cell, role: Seq<u8>, limit: u32) -> bool {
    ||| source_touches_sink(cell, role)
    ||| limit == 0
    ||| exists|net: FlowNetwork, end: Seq<u8>|
        #[trigger] flow_network_for(cell, role, net) && #[trigger] carries_flow(
            net.first_out@,
            net.head@,
            net.rev@,
            net.cap@,
            end,
            limit as int,
        )
}

/// Splits a cell along one source/sink assignment with a minimum vertex
/// cut found by max-flow; `None` when a source node touches a sink node or
/// the flow reaches `limit`.
fn flow_split(cell: &Cell, role: &Vec<u8>, limit: u32) -> (r: Option<Split>)
    requires
        cell.wf(),
        roles_ok(role@, cell.size() as int),
    ensures
        r matches Some(split) ==> {
            &&& three_way(split.side_a@, split.side_b@, split.separator@, cell.size() as int)
            &&& forall|u: u32|
                (u as int) < cell.size() && role@[u as int] == ROLE_SOURCE ==> #[trigger] split.side_a@.contains(u)
            &&& forall|u: u32|
                (u as int) < cell.size() && role@[u as int] == ROLE_SINK ==> #[trigger] split.side_b@.contains(u)
            &&& cell.symmetric() ==> no_arc_between(*cell, split.side_a@, split.side_b@) && no_arc_between(
                *cell,
                split.side_b@,
                split.side_a@,
            )
        },
        r is None ==> flow_refused(*cell, role@, limit),
{
    let n = cell.len();
    let mut network = match build_flow_network(cell, role) {
        Some(network) => network,
        None => {
            return None;
        },
    };
    let ghost built = network;
    let level = match max_flow(&mut network, limit) {
        Some(level) => level,
        None => {
            proof {
                if limit != 0 {
                    assert(flow_network_for(*cell, role@, built));
                    assert(carries_flow(built.first_out@, built.head@, built.rev@, built.cap@, network.cap@, limit as int));
                }
            }
            return None;
        },
    };
    let ghost lv = level@;
    let ghost rl = role@;
    let mut side_a: Vec<u32> = Vec::new();
    let mut side_b: Vec<u32> = Vec::new();
    let mut separator: Vec<u32> = Vec::new();
    let mut node: usize = 0;
    while node < n
        invariant
            n == cell.size(),
            n + cell.heads@.len() <= CELL_CAPACITY,
            rl == role@,
            roles_ok(rl, n as int),
            lv == level@,
            lv.len() == 2 + 2 * n,
            node <= n,
            member_list(side_a@, n as int),
            member_list(side_b@, n as int),
            member_list(separator@, n as int),
            side_a@.len() + side_b@.len() + separator@.len() == node,
            forall|j: int| 0 <= j < side_a@.len() ==> (#[trigger] side_a@[j] as int) < node,
            forall|j: int| 0 <= j < side_b@.len() ==> (#[trigger] side_b@[j] as int) < node,
            forall|j: int| 0 <= j < separator@.len() ==> (#[trigger] separator@[j] as int) < node,
            forall|x: u32| #[trigger] side_a@.contains(x) <==> ((x as int) < node && side_of(rl, lv, x as int) == 0),
            forall|x: u32| #[trigger] side_b@.contains(x) <==> ((x as int) < node && side_of(rl, lv, x as int) == 1),
            forall|x: u32| #[trigger] separator@.contains(x) <==> ((x as int) < node && side_of(rl, lv, x as int) == 2),
        decreases n - node,
    {
        let r = role[node];
        if r == ROLE_SOURCE {
            proof {
                lemma_push_member(side_a@, node as u32, n as int);
            }
            side_a.push(node as u32);
        } else if r == ROLE_SINK {
            proof {
                lemma_push_member(side_b@, node as u32, n as int);
            }
            side_b.push(node as u32);
        } else if level[3 + 2 * node] >= 0 {
            proof {
                lemma_push_member(side_a@, node as u32, n as int);
            }
            side_a.push(node as u32);
        } else if level[2 + 2 * node] >= 0 {
            proof {
                lemma_push_member(separator@, node as u32, n as int);
            }
            separator.push(node as u32);
        } else {
            proof {
                lemma_push_member(side_b@, node as u32, n as int);
            }
            side_b.push(node as u32);
        }
        node += 1;
    }
    proof {
        if cell.symmetric() {
            assert forall|u: int, v: int| 0 <= u < v < n && #[trigger] cell.adjacent(u, v) implies !(side_of(rl, lv, u) == 0
                && side_of(rl, lv, v) == 1) && !(side_of(rl, lv, u) == 1 && side_of(rl, lv, v) == 0) by {
                assert(built.carries_pair(rl, u, v));
                assert(!source_touches_sink(*cell, rl));
                assert(compatible(rl, u, v));
                let (a, b) = (rl[u], rl[v]);
                if a == ROLE_INNER && b == ROLE_INNER {
                    lemma_infinite_arc_kept(built, network, exit(u) as int, entry(v) as int);
                    lemma_infinite_arc_kept(built, network, exit(v) as int, entry(u) as int);
                } else if a == ROLE_SOURCE && b == ROLE_INNER {
                    lemma_infinite_arc_kept(built, network, 0, entry(v) as int);
                } else if a == ROLE_INNER && b == ROLE_SOURCE {
                    lemma_infinite_arc_kept(built, network, 0, entry(u) as int);
                } else if a == ROLE_SINK && b == ROLE_INNER {
                    lemma_infinite_arc_kept(built, network, exit(v) as int, 1);
                } else if a == ROLE_INNER && b == ROLE_SINK {
                    lemma_infinite_arc_kept(built, network, exit(u) as int, 1);
                }
                lemma_cut_separates(network, rl, lv, u, v, n as int);
            }
            assert forall|u: u32, v: u32| #[trigger] side_a@.contains(u) && #[trigger] side_b@.contains(v) implies !cell.adjacent(
                u as int,
                v as int,
            ) by {
                if cell.adjacent(u as int, v as int) {
                    if u < v {
                    } else if v < u {
                        assert(cell.adjacent(v as int, u as int));
                    }
                }
            }
            assert forall|u: u32, v: u32| #[trigger] side_b@.contains(u) && #[trigger] side_a@.contains(v) implies !cell.adjacent(
                u as int,
                v as int,
            ) by {
                if cell.adjacent(u as int, v as int) {
                    if u < v {
                    } else if v < u {
                        assert(cell.adjacent(v as int, u as int));
                    }
                }
            }
        }
    }
    Some(Split { side_a, side_b, separator })
}

// ---------------------------------------------------------------------------
// Choosing a split and ordering recursively
// ---------------------------------------------------------------------------

/// Lexicographic order on `(key, id, node)` triples.
pub open spec fn triple_le(a: (u32, u32, u32), b: (u32, u32, u32)) -> bool {
    a.0 < b.0 || (a.0 == b.0 && (a.1 < b.1 || (a.1 == b.1 && a.2 <= b.2)))
}

/// `slice::sort_unstable` on `(key, id, node)` triples: the same triples,
/// in lexicographic order.
#[verifier::external_body]
fn sort_node_keys(keys: &mut Vec<(u32, u32, u32)>)
    ensures
        final(keys)@.to_multiset() == old(keys)@.to_multiset(),
        forall|i: int, j: int| 0 <= i < j < final(keys)@.len() ==> triple_le(#[trigger] final(keys)@[i], #[trigger] final(keys)@[j]),
{
    keys.sort_unstable();
}

/// The local nodes of a cell ordered by the total-order key of coordinate
/// bits `axis`, then by id: the order of the projections under
/// `f32::total_cmp`, ties by id.
fn nodes_by_key(cell: &Cell, axis: usize) -> (r: Vec<u32>)
    requires
        cell.wf(),
        axis < 6,
    ensures
        r@.len() == cell.size(),
        forall|i: int| 0 <= i < r@.len() ==> (#[trigger] r@[i] as int) < cell.size(),
        forall|i: int, j: int| 0 <= i < j < r@.len() ==> #[trigger] r@[i] != #[trigger] r@[j],
        forall|i: int, j: int|
            0 <= i < j < r@.len() ==> triple_le(
                (total_order_key_spec(cell.coords@[r@[i] as int][axis as int]), cell.ids@[r@[i] as int], #[trigger] r@[i]),
                (total_order_key_spec(cell.coords@[r@[j] as int][axis as int]), cell.ids@[r@[j] as int], #[trigger] r@[j]),
            ),
{
    let n = cell.len();
    let mut keys: Vec<(u32, u32, u32)> = Vec::new();
    let mut node: usize = 0;
    while node < n
        invariant
            cell.wf(),
            n == cell.size(),
            axis < 6,
            node <= n,
            keys@.len() == node,
            forall|i: int| 0 <= i < node ==> #[trigger] keys@[i] == (
                total_order_key_spec(cell.coords@[i][axis as int]),
                cell.ids@[i],
                i as u32,
            ),
        decreases n - node,
    {
        let k = total_order_key(cell.coords[node][axis]);
        keys.push((k, cell.ids[node], node as u32));
        node += 1;
    }
    let ghost unsorted = keys@;
    proof {
        assert(unsorted.no_duplicates()) by {
            assert forall|i: int, j: int| 0 <= i < unsorted.len() && 0 <= j < unsorted.len() && i != j implies unsorted[i]
                != unsorted[j] by {
                assert(unsorted[i].2 == i as u32 && unsorted[j].2 == j as u32);
            }
        }
        unsorted.lemma_multiset_has_no_duplicates();
    }
    sort_node_keys(&mut keys);
    let ghost sorted = keys@;
    proof {
        assert(sorted.to_multiset().len() == unsorted.to_multiset().len());
        assert forall|x: (u32, u32, u32)| sorted.to_multiset().contains(x) implies sorted.to_multiset().count(x) == 1 by {}
        sorted.lemma_multiset_has_no_duplicates_conv();
        assert forall|i: int| 0 <= i < sorted.len() implies #[trigger] sorted[i] == (
            total_order_key_spec(cell.coords@[sorted[i].2 as int][axis as int]),
            cell.ids@[sorted[i].2 as int],
            sorted[i].2,
        ) && (sorted[i].2 as int) < n by {
            assert(sorted.contains(sorted[i]));
            assert(unsorted.to_multiset().count(sorted[i]) > 0);
            let q = choose|q: int| 0 <= q < unsorted.len() && unsorted[q] == sorted[i];
        }
    }
    let mut order: Vec<u32> = Vec::new();
    let mut i: usize = 0;
    while i < keys.len()
        invariant
            keys@ == sorted,
            i <= sorted.len(),
            order@.len() == i,
            forall|j: int| 0 <= j < i ==> #[trigger] order@[j] == sorted[j].2,
        decreases sorted.len() - i,
    {
        order.push(keys[i].2);
        i += 1;
    }
    proof {
        assert forall|i: int, j: int| 0 <= i < j < order@.len() implies #[trigger] order@[i] != #[trigger] order@[j] by {
            assert(sorted[i] != sorted[j]);
            assert(sorted[i] == (
                total_order_key_spec(cell.coords@[sorted[i].2 as int][axis as int]),
                cell.ids@[sorted[i].2 as int],
                sorted[i].2,
            ));
            assert(sorted[j] == (
                total_order_key_spec(cell.coords@[sorted[j].2 as int][axis as int]),
                cell.ids@[sorted[j].2 as int],
                sorted[j].2,
            ));
        }
        assert forall|i: int, j: int| 0 <= i < j < order@.len() implies triple_le(
            (total_order_key_spec(cell.coords@[order@[i] as int][axis as int]), cell.ids@[order@[i] as int], #[trigger] order@[i]),
            (total_order_key_spec(cell.coords@[order@[j] as int][axis as int]), cell.ids@[order@[j] as int], #[trigger] order@[j]),
        ) by {
            assert(triple_le(sorted[i], sorted[j]));
            assert(sorted[i] == (
                total_order_key_spec(cell.coords@[sorted[i].2 as int][axis as int]),
                cell.ids@[sorted[i].2 as int],
                sorted[i].2,
            ));
            assert(sorted[j] == (
                total_order_key_spec(cell.coords@[sorted[j].2 as int][axis as int]),
                cell.ids@[sorted[j].2 as int],
                sorted[j].2,
            ));
        }
        assert forall|i: int| 0 <= i < order@.len() implies (#[trigger] order@[i] as int) < n by {
            assert(sorted[i].2 == order@[i]);
        }
    }
    order
}

/// A strictly increasing list that holds `k` distinct values is at least
/// `k` long.
proof fn lemma_holds_distinct(list: Seq<u32>, values: Seq<u32>, n: int)
    requires
        member_list(list, n),
        values.no_duplicates(),
        forall|i: int| 0 <= i < values.len() ==> list.contains(#[trigger] values[i]),
    ensures
        list.len() >= values.len(),
{
    assert(list.no_duplicates()) by {
        assert forall|i: int, j: int| 0 <= i < list.len() && 0 <= j < list.len() && i != j implies list[i] != list[j] by {
            if i < j {
                assert(list[i] < list[j]);
            } else {
                assert(list[j] < list[i]);
            }
        }
    }
    values.unique_seq_to_set();
    list.unique_seq_to_set();
    assert(values.to_set().subset_of(list.to_set())) by {
        assert forall|x: u32| values.to_set().contains(x) implies list.to_set().contains(x) by {
            let i = choose|i: int| 0 <= i < values.len() && values[i] == x;
            assert(list.contains(values[i]));
        }
    }
    vstd::seq_lib::seq_to_set_is_finite(list);
    vstd::set_lib::lemma_len_subset(values.to_set(), list.to_set());
}

/// `role` makes the first `side` nodes of `order` sources, the last `side`
/// sinks and the others inner nodes.
pub open spec fn quarter_roles(role: Seq<u8>, order: Seq<u32>, side: int) -> bool {
    &&& role.len() == order.len()
    &&& forall|j: int|
        0 <= j < order.len() ==> role[#[trigger] order[j] as int] == if j < side {
            ROLE_SOURCE
        } else if j >= order.len() - side {
            ROLE_SINK
        } else {
            ROLE_INNER
        }
}

/// `order` lists each node of the cell once, by the total-order key of
/// coordinate `axis`, then by id.
pub open spec fn ordered_by_axis(cell: Cell, order: Seq<u32>, axis: int) -> bool {
    &&& order.len() == cell.size()
    &&& forall|i: int| 0 <= i < order.len() ==> (#[trigger] order[i] as int) < cell.size()
    &&& forall|i: int, j: int| 0 <= i < j < order.len() ==> #[trigger] order[i] != #[trigger] order[j]
    &&& forall|i: int, j: int|
        0 <= i < j < order.len() ==> triple_le(
            (total_order_key_spec(cell.coords@[order[i] as int][axis]), cell.ids@[order[i] as int], #[trigger] order[i]),
            (total_order_key_spec(cell.coords@[order[j] as int][axis]), cell.ids@[order[j] as int], #[trigger] order[j]),
        )
}

/// Along projection `axis` there is no separator: with the lowest and
/// highest `side` nodes as sources and sinks, the sources touch the sinks
/// or the cell's flow network carries as many units as a `u32` counts.
pub open spec fn axis_refused(cell: Cell, axis: int, side: int) -> bool {
    exists|order: Seq<u32>, role: Seq<u8>|
        #[trigger] ordered_by_axis(cell, order, axis) && #[trigger] quarter_roles(role, order, side) && flow_refused(
            cell,
            role,
            u32::MAX,
        )
}

/// Chooses the smallest inertial-flow separator over the four projection
/// directions: the quarter of the cell lowest along a direction is the
/// source set, the quarter highest along it the sink set. Both sides keep
/// at least those quarters. `None` when a quarter is empty or the
/// quarters would meet, or no direction yields a cut.
pub fn inertial_flow_split(cell: &Cell) -> (r: Option<Split>)
    requires
        cell.wf(),
    ensures
        r matches Some(split) ==> {
            &&& three_way(split.side_a@, split.side_b@, split.separator@, cell.size() as int)
            &&& split.side_a@.len() >= cell.size() / 4
            &&& split.side_b@.len() >= cell.size() / 4
            &&& cell.size() / 4 > 0
            &&& cell.symmetric() ==> no_arc_between(*cell, split.side_a@, split.side_b@) && no_arc_between(
                *cell,
                split.side_b@,
                split.side_a@,
            )
        },
        r is None ==> cell.size() / 4 == 0 || 2 * (cell.size() / 4) >= cell.size() || forall|d: int|
            0 <= d < 4 ==> #[trigger] axis_refused(*cell, d, (cell.size() / 4) as int),
{
    let node_count = cell.len();
    let side = node_count / 4;
    if side == 0 || 2 * side >= node_count {
        return None;
    }
    let mut best: Option<Split> = None;
    let mut best_size: u32 = u32::MAX;
    let mut direction: usize = 0;
    while direction < 4
        invariant
            cell.wf(),
            node_count == cell.size(),
            side == node_count / 4,
            side > 0,
            2 * side < node_count,
            direction <= 4,
            best matches Some(split) ==> {
                &&& three_way(split.side_a@, split.side_b@, split.separator@, node_count as int)
                &&& split.side_a@.len() >= side
                &&& split.side_b@.len() >= side
                &&& cell.symmetric() ==> no_arc_between(*cell, split.side_a@, split.side_b@) && no_arc_between(
                    *cell,
                    split.side_b@,
                    split.side_a@,
                )
            },
            best is None ==> best_size == u32::MAX && forall|d: int| 0 <= d < direction ==> #[trigger] axis_refused(*cell, d, side as int),
            node_count <= CELL_CAPACITY,
        decreases 4 - direction,
    {
        let order = nodes_by_key(cell, direction);
        let mut role: Vec<u8> = Vec::new();
        let mut v: usize = 0;
        while v < node_count
            invariant
                v <= node_count,
                role@.len() == v,
                forall|x: int| 0 <= x < v ==> #[trigger] role@[x] == ROLE_INNER,
            decreases node_count - v,
        {
            role.push(ROLE_INNER);
            v += 1;
        }
        let mut i: usize = 0;
        while i < node_count
            invariant
                order@.len() == node_count,
                forall|j: int| 0 <= j < node_count ==> (#[trigger] order@[j] as int) < node_count,
                forall|j: int, l: int| 0 <= j < l < node_count ==> #[trigger] order@[j] != #[trigger] order@[l],
                side > 0,
                2 * side < node_count,
                i <= node_count,
                role@.len() == node_count,
                forall|x: int| 0 <= x < node_count ==> #[trigger] role@[x] <= ROLE_SINK,
                forall|j: int| 0 <= j < i && j < side ==> #[trigger] role@[order@[j] as int] == ROLE_SOURCE,
                forall|j: int| 0 <= j < i && j >= node_count - side ==> #[trigger] role@[order@[j] as int] == ROLE_SINK,
                forall|j: int| 0 <= j < i && side <= j < node_count - side ==> #[trigger] role@[order@[j] as int] == ROLE_INNER,
                forall|j: int| i <= j < node_count ==> #[trigger] role@[order@[j] as int] == ROLE_INNER,
            decreases node_count - i,
        {
            if i < side {
                role.set(order[i] as usize, ROLE_SOURCE);
            } else if i >= node_count - side {
                role.set(order[i] as usize, ROLE_SINK);
            }
            proof {
                assert forall|j: int| 0 <= j < i && j < side implies #[trigger] role@[order@[j] as int] == ROLE_SOURCE by {
                    assert(order@[j] != order@[i as int]);
                }
                assert forall|j: int| 0 <= j < i && j >= node_count - side implies #[trigger] role@[order@[j] as int] == ROLE_SINK by {
                    assert(order@[j] != order@[i as int]);
                }
                assert forall|j: int| 0 <= j < i && side <= j < node_count - side implies #[trigger] role@[order@[j] as int] == ROLE_INNER by {
                    assert(order@[j] != order@[i as int]);
                }
                assert forall|j: int| i + 1 <= j < node_count implies #[trigger] role@[order@[j] as int] == ROLE_INNER by {
                    assert(order@[i as int] != order@[j]);
                }
            }
            i += 1;
        }
        proof {
            assert(quarter_roles(role@, order@, side as int));
            assert(ordered_by_axis(*cell, order@, direction as int));
        }
        match flow_split(cell, &role, best_size) {
            Some(split) => {
                proof {
                    let sources = order@.take(side as int);
                    let sinks = order@.subrange(node_count - side, node_count as int);
                    assert forall|j: int| 0 <= j < sources.len() implies split.side_a@.contains(#[trigger] sources[j]) by {
                        assert(role@[order@[j] as int] == ROLE_SOURCE);
                    }
                    assert forall|j: int| 0 <= j < sinks.len() implies split.side_b@.contains(#[trigger] sinks[j]) by {
                        assert(sinks[j] == order@[node_count - side + j]);
                        assert(role@[order@[node_count - side + j] as int] == ROLE_SINK);
                    }
                    assert(sources.no_duplicates()) by {
                        assert forall|a: int, b: int| 0 <= a < sources.len() && 0 <= b < sources.len() && a != b implies sources[a] != sources[b] by {
                            if a < b {
                                assert(order@[a] != order@[b]);
                            } else {
                                assert(order@[b] != order@[a]);
                            }
                        }
                    }
                    assert(sinks.no_duplicates()) by {
                        assert forall|a: int, b: int| 0 <= a < sinks.len() && 0 <= b < sinks.len() && a != b implies sinks[a] != sinks[b] by {
                            assert(sinks[a] == order@[node_count - side + a] && sinks[b] == order@[node_count - side + b]);
                            if a < b {
                                assert(order@[node_count - side + a] != order@[node_count - side + b]);
                            } else {
                                assert(order@[node_count - side + b] != order@[node_count - side + a]);
                            }
                        }
                    }
                    lemma_holds_distinct(split.side_a@, sources, node_count as int);
                    lemma_holds_distinct(split.side_b@, sinks, node_count as int);
                }
                let size = split.separator.len() as u32;
                proof {
                    assert(split.separator@.len() <= node_count);
                }
                if size < best_size {
                    best_size = size;
                    best = Some(split);
                }
                if best_size == 0 {
                    return best;
                }
            },
            None => {
                proof {
                    if best is None {
                        assert(axis_refused(*cell, direction as int, side as int));
                    }
                }
            },
        }
        proof {
            if best is None {
                assert forall|d: int| 0 <= d < direction + 1 implies #[trigger] axis_refused(*cell, d, side as int) by {
                    if d < direction {
                    }
                }
            }
        }
        direction += 1;
    }
    best
}

/// Splits a cell at the median of one coordinate axis (x when
/// `x_is_wider`, else y): the lower half by that coordinate (then id) is
/// side A except its nodes with a neighbour in the upper half, which form
/// the separator; the upper half is side B.
fn coordinate_split(cell: &Cell, x_is_wider: bool) -> (r: Split)
    requires
        cell.wf(),
    ensures
        three_way(r.side_a@, r.side_b@, r.separator@, cell.size() as int),
        cell.size() >= 2 ==> r.side_b@.len() > 0 && r.side_a@.len() + r.separator@.len() > 0,
        no_arc_between(*cell, r.side_a@, r.side_b@),
        cell.symmetric() ==> no_arc_between(*cell, r.side_b@, r.side_a@),
{
    let n = cell.len();
    let axis = if x_is_wider {
        COORD_X
    } else {
        COORD_Y
    };
    let order = nodes_by_key(cell, axis);
    let mut lower: Vec<bool> = Vec::new();
    let mut v: usize = 0;
    while v < n
        invariant
            v <= n,
            lower@.len() == v,
            forall|x: int| 0 <= x < v ==> !#[trigger] lower@[x],
        decreases n - v,
    {
        lower.push(false);
        v += 1;
    }
    let half = n / 2;
    let mut i: usize = 0;
    while i < half
        invariant
            half == n / 2,
            order@.len() == n,
            forall|j: int| 0 <= j < n ==> (#[trigger] order@[j] as int) < n,
            forall|j: int, l: int| 0 <= j < l < n ==> #[trigger] order@[j] != #[trigger] order@[l],
            i <= half,
            lower@.len() == n,
            forall|j: int| 0 <= j < i ==> #[trigger] lower@[order@[j] as int],
            forall|j: int| half <= j < n ==> !#[trigger] lower@[order@[j] as int],
        decreases half - i,
    {
        lower.set(order[i] as usize, true);
        proof {
            assert forall|j: int| half <= j < n implies !#[trigger] lower@[order@[j] as int] by {
                assert(order@[j] != order@[i as int]);
            }
        }
        i += 1;
    }
    let ghost fo = cell.first_out@;
    let ghost hs = cell.heads@;
    let ghost low = lower@;
    let mut side_a: Vec<u32> = Vec::new();
    let mut side_b: Vec<u32> = Vec::new();
    let mut separator: Vec<u32> = Vec::new();
    let mut node: usize = 0;
    while node < n
        invariant
            cell.wf(),
            n == cell.size(),
            fo == cell.first_out@,
            hs == cell.heads@,
            low == lower@,
            low.len() == n,
            node <= n,
            member_list(side_a@, n as int),
            member_list(side_b@, n as int),
            member_list(separator@, n as int),
            side_a@.len() + side_b@.len() + separator@.len() == node,
            forall|j: int| 0 <= j < side_a@.len() ==> (#[trigger] side_a@[j] as int) < node,
            forall|j: int| 0 <= j < side_b@.len() ==> (#[trigger] side_b@[j] as int) < node,
            forall|j: int| 0 <= j < separator@.len() ==> (#[trigger] separator@[j] as int) < node,
            forall|x: u32| #[trigger] side_b@.contains(x) <==> ((x as int) < node && !low[x as int]),
            forall|x: u32|
                #[trigger] side_a@.contains(x) <==> ((x as int) < node && low[x as int] && forall|k: int|
                    fo[x as int] <= k < fo[x + 1] ==> #[trigger] low[hs[k] as int]),
            forall|x: u32|
                #[trigger] separator@.contains(x) <==> ((x as int) < node && low[x as int] && exists|k: int|
                    fo[x as int] <= k < fo[x + 1] && !#[trigger] low[hs[k] as int]),
        decreases n - node,
    {
        if !lower[node] {
            proof {
                lemma_push_member(side_b@, node as u32, n as int);
            }
            side_b.push(node as u32);
        } else {
            let start = cell.first_out[node] as usize;
            let end = cell.first_out[node + 1] as usize;
            proof {
                assert(fo[node as int] <= fo[node + 1] <= fo[n as int]);
            }
            let mut touches_upper = false;
            let mut k = start;
            while k < end
                invariant
                    cell.wf(),
                    n == cell.size(),
                    fo == cell.first_out@,
                    hs == cell.heads@,
                    low == lower@,
                    low.len() == n,
                    start <= k <= end,
                    end <= hs.len(),
                    touches_upper <==> exists|kk: int| start <= kk < k && !#[trigger] low[hs[kk] as int],
                decreases end - k,
            {
                if !lower[cell.heads[k] as usize] {
                    touches_upper = true;
                }
                k += 1;
            }
            if touches_upper {
                proof {
                    lemma_push_member(separator@, node as u32, n as int);
                }
                separator.push(node as u32);
            } else {
                proof {
                    lemma_push_member(side_a@, node as u32, n as int);
                }
                side_a.push(node as u32);
            }
        }
        node += 1;
    }
    proof {
        assert forall|u: u32, v: u32| #[trigger] side_a@.contains(u) && #[trigger] side_b@.contains(v) implies !cell.adjacent(
            u as int,
            v as int,
        ) by {
            if cell.adjacent(u as int, v as int) {
                let k = choose|k: int| fo[u as int] <= k < fo[u + 1] && hs[k] as int == v as int;
                assert(low[hs[k] as int]);
            }
        }
        if cell.symmetric() {
            assert forall|u: u32, v: u32| #[trigger] side_b@.contains(u) && #[trigger] side_a@.contains(v) implies !cell.adjacent(
                u as int,
                v as int,
            ) by {
                if cell.adjacent(u as int, v as int) {
                    assert(cell.adjacent(v as int, u as int));
                    let k = choose|k: int| fo[v as int] <= k < fo[v + 1] && hs[k] as int == u as int;
                    assert(low[hs[k] as int]);
                }
            }
        }
        if n >= 2 {
            assert(side_b@.contains(order@[n - 1]));
            let first = order@[0];
            assert(low[first as int]);
            if !side_a@.contains(first) {
                assert(separator@.contains(first));
            }
            if side_b@.len() == n {
                assert(side_a@.len() == 0 && separator@.len() == 0);
                assert(!side_a@.contains(first));
            }
        }
    }
    Split { side_a, side_b, separator }
}

/// `a` followed by `b`.
fn concat(a: Vec<u32>, b: &Vec<u32>) -> (r: Vec<u32>)
    ensures
        r@ == a@ + b@,
{
    let mut r = a;
    let ghost a0 = r@;
    let mut i: usize = 0;
    while i < b.len()
        invariant
            i <= b@.len(),
            r@ == a0 + b@.take(i as int),
        decreases b@.len() - i,
    {
        r.push(b[i]);
        proof {
            assert(b@.take(i + 1) =~= b@.take(i as int).push(b@[i as int]));
        }
        i += 1;
    }
    proof {
        assert(b@.take(b@.len() as int) =~= b@);
    }
    r
}

/// A two-way split is a three-way split with an empty third part.
proof fn lemma_two_way_three_way(a: Seq<u32>, b: Seq<u32>, n: int)
    requires
        two_way(a, b, n),
    ensures
        three_way(a, b, Seq::<u32>::empty(), n),
{
    assert forall|x: u32| (x as int) < n implies (#[trigger] a.contains(x) || b.contains(x) || Seq::<u32>::empty().contains(x))
        && !(a.contains(x) && b.contains(x)) && !(a.contains(x) && Seq::<u32>::empty().contains(x)) && !(b.contains(x)
        && Seq::<u32>::empty().contains(x)) by {
        assert(!Seq::<u32>::empty().contains(x));
    }
}

/// The ids of a cell split three ways are the ids of the parts, and the
/// parts' ids are disjoint and free of repeats when the cell's are.
proof fn lemma_parts_ids(ids: Seq<u32>, a: Seq<u32>, b: Seq<u32>, c: Seq<u32>)
    requires
        three_way(a, b, c, ids.len() as int),
        ids.len() <= CELL_CAPACITY,
    ensures
        forall|x: u32|
            #[trigger] ids.contains(x) <==> (member_ids(ids, a).contains(x) || member_ids(ids, b).contains(x) || member_ids(
                ids,
                c,
            ).contains(x)),
        ids.no_duplicates() ==> member_ids(ids, a).no_duplicates() && member_ids(ids, b).no_duplicates() && member_ids(
            ids,
            c,
        ).no_duplicates(),
        ids.no_duplicates() ==> forall|x: u32|
            !(#[trigger] member_ids(ids, a).contains(x) && member_ids(ids, b).contains(x)) && !(member_ids(ids, a).contains(x)
                && member_ids(ids, c).contains(x)) && !(member_ids(ids, b).contains(x) && member_ids(ids, c).contains(x)),
{
    let n = ids.len() as int;
    assert forall|x: u32|
        #[trigger] ids.contains(x) <==> (member_ids(ids, a).contains(x) || member_ids(ids, b).contains(x) || member_ids(
            ids,
            c,
        ).contains(x)) by {
        if ids.contains(x) {
            let v = choose|v: int| 0 <= v < n && ids[v] == x;
            assert((v as u32) as int == v);
            if a.contains(v as u32) {
                let i = choose|i: int| 0 <= i < a.len() && a[i] == v as u32;
                assert(member_ids(ids, a)[i] == x);
            } else if b.contains(v as u32) {
                let i = choose|i: int| 0 <= i < b.len() && b[i] == v as u32;
                assert(member_ids(ids, b)[i] == x);
            } else {
                assert(c.contains(v as u32));
                let i = choose|i: int| 0 <= i < c.len() && c[i] == v as u32;
                assert(member_ids(ids, c)[i] == x);
            }
        }
        if member_ids(ids, a).contains(x) {
            let i = choose|i: int| 0 <= i < member_ids(ids, a).len() && member_ids(ids, a)[i] == x;
            assert(ids[a[i] as int] == x);
        }
        if member_ids(ids, b).contains(x) {
            let i = choose|i: int| 0 <= i < member_ids(ids, b).len() && member_ids(ids, b)[i] == x;
            assert(ids[b[i] as int] == x);
        }
        if member_ids(ids, c).contains(x) {
            let i = choose|i: int| 0 <= i < member_ids(ids, c).len() && member_ids(ids, c)[i] == x;
            assert(ids[c[i] as int] == x);
        }
    }
    if ids.no_duplicates() {
        lemma_member_ids_no_dup(ids, a, n);
        lemma_member_ids_no_dup(ids, b, n);
        lemma_member_ids_no_dup(ids, c, n);
        assert forall|x: u32|
            !(#[trigger] member_ids(ids, a).contains(x) && member_ids(ids, b).contains(x)) && !(member_ids(ids, a).contains(x)
                && member_ids(ids, c).contains(x)) && !(member_ids(ids, b).contains(x) && member_ids(ids, c).contains(x)) by {
            if member_ids(ids, a).contains(x) && member_ids(ids, b).contains(x) {
                lemma_disjoint_parts(ids, a, b, c, x);
            }
            if member_ids(ids, a).contains(x) && member_ids(ids, c).contains(x) {
                lemma_disjoint_parts(ids, a, c, b, x);
            }
            if member_ids(ids, b).contains(x) && member_ids(ids, c).contains(x) {
                lemma_disjoint_parts(ids, b, c, a, x);
            }
        }
    }
}

proof fn lemma_disjoint_parts(ids: Seq<u32>, p: Seq<u32>, q: Seq<u32>, r: Seq<u32>, x: u32)
    requires
        ids.no_duplicates(),
        ids.len() <= CELL_CAPACITY,
        member_list(p, ids.len() as int),
        member_list(q, ids.len() as int),
        forall|y: u32| (y as int) < ids.len() ==> !(#[trigger] p.contains(y) && q.contains(y)),
    ensures
        !(member_ids(ids, p).contains(x) && member_ids(ids, q).contains(x)),
{
    if member_ids(ids, p).contains(x) && member_ids(ids, q).contains(x) {
        let i = choose|i: int| 0 <= i < member_ids(ids, p).len() && member_ids(ids, p)[i] == x;
        let j = choose|j: int| 0 <= j < member_ids(ids, q).len() && member_ids(ids, q)[j] == x;
        assert(member_ids(ids, p)[i] == ids[p[i] as int]);
        assert(member_ids(ids, q)[j] == ids[q[j] as int]);
        assert((p[i] as int) < ids.len() && (q[j] as int) < ids.len());
        if p[i] != q[j] {
            assert(ids[p[i] as int] != ids[q[j] as int]);
        }
        assert(p.contains(p[i]));
        assert(q.contains(q[j]));
        assert(p.contains(p[i]) && q.contains(p[i]));
    }
}

proof fn lemma_member_ids_no_dup(ids: Seq<u32>, m: Seq<u32>, n: int)
    requires
        ids.no_duplicates(),
        ids.len() == n,
        member_list(m, n),
    ensures
        member_ids(ids, m).no_duplicates(),
{
    assert forall|i: int, j: int|
        0 <= i < member_ids(ids, m).len() && 0 <= j < member_ids(ids, m).len() && i != j implies member_ids(ids, m)[i]
        != member_ids(ids, m)[j] by {
        if i < j {
            assert(m[i] < m[j]);
        } else {
            assert(m[j] < m[i]);
        }
    }
}

proof fn lemma_concat_contains(s1: Seq<u32>, s2: Seq<u32>)
    ensures
        forall|x: u32| #[trigger] (s1 + s2).contains(x) <==> (s1.contains(x) || s2.contains(x)),
{
    assert forall|x: u32| #[trigger] (s1 + s2).contains(x) <==> (s1.contains(x) || s2.contains(x)) by {
        if (s1 + s2).contains(x) {
            let i = choose|i: int| 0 <= i < (s1 + s2).len() && (s1 + s2)[i] == x;
            if i < s1.len() {
                assert(s1[i] == x);
            } else {
                assert(s2[i - s1.len()] == x);
            }
        }
        if s1.contains(x) {
            let i = choose|i: int| 0 <= i < s1.len() && s1[i] == x;
            assert((s1 + s2)[i] == x);
        }
        if s2.contains(x) {
            let i = choose|i: int| 0 <= i < s2.len() && s2[i] == x;
            assert((s1 + s2)[s1.len() + i] == x);
        }
    }
}

/// `r` is a nested-dissection order of `cell`: empty for an empty cell;
/// the minimum-degree order for a cell of at most `leaf` nodes; otherwise
/// the cell is split three ways into smaller parts, with no arc from the
/// first to the second in a symmetric cell, and `r` orders the first part,
/// then the second, then the third (the separator), each recursively.
pub open spec fn nested_dissection(cell: Cell, leaf: int, r: Seq<u32>, fuel: nat) -> bool
    decreases fuel,
{
    if cell.ids@.len() == 0 {
        r.len() == 0
    } else if cell.ids@.len() <= leaf {
        r == min_degree_elimination(cell)
    } else {
        fuel > 0 && exists|
            a: Seq<u32>,
            b: Seq<u32>,
            c: Seq<u32>,
            ca: Cell,
            cb: Cell,
            cc: Cell,
            ra: Seq<u32>,
            rb: Seq<u32>,
            rc: Seq<u32>,
        |
            #[trigger] dissection_split(cell, r, a, b, c, ca, cb, cc, ra, rb, rc) && nested_dissection(
                ca,
                leaf,
                ra,
                (fuel - 1) as nat,
            ) && nested_dissection(cb, leaf, rb, (fuel - 1) as nat) && nested_dissection(cc, leaf, rc, (fuel - 1) as nat)
    }
}

/// One level of a nested dissection: the split `a`, `b`, `c` of `cell`
/// into smaller parts, its sub-cells, and `r` as their orders one after
/// the other.
pub open spec fn dissection_split(
    cell: Cell,
    r: Seq<u32>,
    a: Seq<u32>,
    b: Seq<u32>,
    c: Seq<u32>,
    ca: Cell,
    cb: Cell,
    cc: Cell,
    ra: Seq<u32>,
    rb: Seq<u32>,
    rc: Seq<u32>,
) -> bool {
    &&& three_way(a, b, c, cell.size() as int)
    &&& a.len() < cell.size() && b.len() < cell.size() && c.len() < cell.size()
    &&& cell.symmetric() ==> no_arc_between(cell, a, b)
    &&& induced_from(cell, a, ca) && induced_from(cell, b, cb) && induced_from(cell, c, cc)
    &&& r == ra + rb + rc
}

/// More fuel never hurts a nested dissection.
pub proof fn lemma_nested_dissection_fuel(cell: Cell, leaf: int, r: Seq<u32>, f: nat, g: nat)
    requires
        nested_dissection(cell, leaf, r, f),
        f <= g,
    ensures
        nested_dissection(cell, leaf, r, g),
    decreases f,
{
    if cell.ids@.len() > 0 && cell.ids@.len() > leaf {
        let (a, b, c, ca, cb, cc, ra, rb, rc) = choose|
            a: Seq<u32>,
            b: Seq<u32>,
            c: Seq<u32>,
            ca: Cell,
            cb: Cell,
            cc: Cell,
            ra: Seq<u32>,
            rb: Seq<u32>,
            rc: Seq<u32>,
        |
            #[trigger] dissection_split(cell, r, a, b, c, ca, cb, cc, ra, rb, rc) && nested_dissection(
                ca,
                leaf,
                ra,
                (f - 1) as nat,
            ) && nested_dissection(cb, leaf, rb, (f - 1) as nat) && nested_dissection(cc, leaf, rc, (f - 1) as nat);
        lemma_nested_dissection_fuel(ca, leaf, ra, (f - 1) as nat, (g - 1) as nat);
        lemma_nested_dissection_fuel(cb, leaf, rb, (f - 1) as nat, (g - 1) as nat);
        lemma_nested_dissection_fuel(cc, leaf, rc, (f - 1) as nat, (g - 1) as nat);
        assert(dissection_split(cell, r, a, b, c, ca, cb, cc, ra, rb, rc));
    }
}

/// Orders the sub-cells of a three-way split one after the other.
#[verifier::spinoff_prover]
#[verifier::rlimit(40)]
fn order_parts<F: Fn(&Cell) -> bool>(
    cell: &Cell,
    a: &Vec<u32>,
    b: &Vec<u32>,
    c: &Vec<u32>,
    leaf_nodes: usize,
    x_is_wider: &F,
) -> (r: Vec<u32>)
    requires
        cell.wf(),
        leaf_nodes >= 1,
        forall|any: &Cell| #[trigger] x_is_wider.requires((any,)),
        three_way(a@, b@, c@, cell.size() as int),
        a@.len() < cell.size(),
        b@.len() < cell.size(),
        c@.len() < cell.size(),
        cell.ids@.len() > leaf_nodes,
        cell.symmetric() ==> no_arc_between(*cell, a@, b@),
    ensures
        r@.len() == cell.ids@.len(),
        forall|x: u32| #[trigger] r@.contains(x) <==> cell.ids@.contains(x),
        cell.ids@.no_duplicates() ==> r@.no_duplicates(),
        nested_dissection(*cell, leaf_nodes as int, r@, cell.ids@.len()),
    decreases cell.ids@.len(), 0nat,
{
    let ghost ids = cell.ids@;
    proof {
        lemma_parts_ids(ids, a@, b@, c@);
    }
    let part_a = cell.induced(a);
    let part_b = cell.induced(b);
    let part_c = cell.induced(c);
    let order_a = dissect(part_a, leaf_nodes, x_is_wider);
    let order_b = dissect(part_b, leaf_nodes, x_is_wider);
    let order_c = dissect(part_c, leaf_nodes, x_is_wider);
    let ghost oa = order_a@;
    let ab = concat(order_a, &order_b);
    let r = concat(ab, &order_c);
    proof {
        let (ob, oc) = (order_b@, order_c@);
        lemma_concat_contains(oa, ob);
        lemma_concat_contains(ab@, oc);
        if ids.no_duplicates() {
            assert forall|i: int, j: int| 0 <= i < oa.len() && 0 <= j < ob.len() implies oa[i] != ob[j] by {
                assert(oa.contains(oa[i]) && ob.contains(ob[j]));
                if oa[i] == ob[j] {
                    assert(member_ids(ids, a@).contains(oa[i]) && member_ids(ids, b@).contains(oa[i]));
                }
            }
            vstd::seq_lib::lemma_no_dup_in_concat(oa, ob);
            assert forall|i: int, j: int| 0 <= i < ab@.len() && 0 <= j < oc.len() implies ab@[i] != oc[j] by {
                assert(ab@.contains(ab@[i]) && oc.contains(oc[j]));
                if ab@[i] == oc[j] {
                    assert(member_ids(ids, c@).contains(oc[j]));
                    assert(member_ids(ids, a@).contains(oc[j]) || member_ids(ids, b@).contains(oc[j]));
                }
            }
            vstd::seq_lib::lemma_no_dup_in_concat(ab@, oc);
        }
        lemma_split_orders(*cell, leaf_nodes as int, r@, a@, b@, c@, part_a, part_b, part_c, oa, ob, oc);
    }
    r
}

proof fn lemma_split_orders(
    cell: Cell,
    leaf: int,
    r: Seq<u32>,
    a: Seq<u32>,
    b: Seq<u32>,
    c: Seq<u32>,
    ca: Cell,
    cb: Cell,
    cc: Cell,
    ra: Seq<u32>,
    rb: Seq<u32>,
    rc: Seq<u32>,
)
    requires
        cell.ids@.len() > leaf,
        cell.ids@.len() > 0,
        three_way(a, b, c, cell.size() as int),
        a.len() < cell.size() && b.len() < cell.size() && c.len() < cell.size(),
        cell.symmetric() ==> no_arc_between(cell, a, b),
        induced_from(cell, a, ca) && induced_from(cell, b, cb) && induced_from(cell, c, cc),
        r == ra + rb + rc,
        nested_dissection(ca, leaf, ra, ca.ids@.len()),
        nested_dissection(cb, leaf, rb, cb.ids@.len()),
        nested_dissection(cc, leaf, rc, cc.ids@.len()),
    ensures
        nested_dissection(cell, leaf, r, cell.ids@.len()),
{
    let fuel = (cell.ids@.len() - 1) as nat;
    lemma_nested_dissection_fuel(ca, leaf, ra, ca.ids@.len(), fuel);
    lemma_nested_dissection_fuel(cb, leaf, rb, cb.ids@.len(), fuel);
    lemma_nested_dissection_fuel(cc, leaf, rc, cc.ids@.len(), fuel);
    assert(dissection_split(cell, r, a, b, c, ca, cb, cc, ra, rb, rc));
}

/// Produces a nested-dissection elimination order of a cell: a small cell
/// by minimum degree; else the groups of whole components one after the
/// other when the cell falls apart; else both sides of an inertial-flow
/// cut (or, failing that, of a median split along the wider axis, which
/// `x_is_wider` tells) and then their separator. The order lists every id
/// of the cell once.
pub fn dissect<F: Fn(&Cell) -> bool>(cell: Cell, leaf_nodes: usize, x_is_wider: &F) -> (r: Vec<u32>)
    requires
        cell.wf(),
        leaf_nodes >= 1,
        forall|any: &Cell| #[trigger] x_is_wider.requires((any,)),
    ensures
        r@.len() == cell.ids@.len(),
        forall|x: u32| #[trigger] r@.contains(x) <==> cell.ids@.contains(x),
        cell.ids@.no_duplicates() ==> r@.no_duplicates(),
        cell.ids@.len() <= leaf_nodes ==> r@ == min_degree_elimination(cell),
        nested_dissection(cell, leaf_nodes as int, r@, cell.ids@.len()),
    decreases cell.ids@.len(), 1nat,
{
    let node_count = cell.len();
    if node_count == 0 {
        proof {
            assert(min_degree_elimination(cell) =~= Seq::<u32>::empty());
        }
        return Vec::new();
    }
    if node_count <= leaf_nodes {
        return minimum_degree_order(&cell);
    }
    match split_components(&cell) {
        Some((left, right)) => {
            let empty: Vec<u32> = Vec::new();
            proof {
                lemma_two_way_three_way(left@, right@, node_count as int);
                assert(empty@ =~= Seq::<u32>::empty());
            }
            return order_parts(&cell, &left, &right, &empty, leaf_nodes, x_is_wider);
        },
        None => {},
    }
    let split = match inertial_flow_split(&cell) {
        Some(split) => split,
        None => {
            let wider = x_is_wider(&cell);
            coordinate_split(&cell, wider)
        },
    };
    order_parts(&cell, &split.side_a, &split.side_b, &split.separator, leaf_nodes, x_is_wider)
}

// ---------------------------------------------------------------------------
// The transition graph of a dataset and its acceleration bundle
// ---------------------------------------------------------------------------

/// Edge state `f` follows edge state `e` by a transition.
pub open spec fn transition(fo: Seq<u32>, ed: Seq<u32>, n: int, e: int, f: int) -> bool {
    fo.len() == n + 1 && exists|k: int| fo[e] <= k < fo[e + 1] && ed[k] as int == f
}

/// Distinct edge states joined by a transition either way.
pub open spec fn transition_link(fo: Seq<u32>, ed: Seq<u32>, n: int, u: int, v: int) -> bool {
    u != v && (transition(fo, ed, n, u, v) || transition(fo, ed, n, v, u))
}

/// Transition row `e` is well formed.
pub open spec fn transition_row_ok(fo: Seq<u32>, ed: Seq<u32>, e: int) -> bool {
    fo[e] <= fo[e + 1] <= ed.len()
}

/// Transition rows that exist are well formed.
pub open spec fn transition_rows_ok(fo: Seq<u32>, ed: Seq<u32>, n: int) -> bool {
    fo.len() == n + 1 ==> forall|e: int| 0 <= e < n ==> #[trigger] transition_row_ok(fo, ed, e)
}

/// Drops repeats from arcs sorted by tail, then head.
fn dedup_pairs(arcs: &Vec<(u32, u32)>) -> (r: Vec<(u32, u32)>)
    requires
        sorted_pairs(arcs@),
    ensures
        sorted_pairs(r@),
        forall|i: int, j: int| 0 <= i < j < r@.len() ==> #[trigger] r@[i] != #[trigger] r@[j],
        forall|a: (u32, u32)| #[trigger] r@.contains(a) <==> arcs@.contains(a),
        r@.len() <= arcs@.len(),
{
    let mut out: Vec<(u32, u32)> = Vec::new();
    let mut i: usize = 0;
    while i < arcs.len()
        invariant
            sorted_pairs(arcs@),
            i <= arcs@.len(),
            out@.len() <= i,
            sorted_pairs(out@),
            forall|p: int, q: int| 0 <= p < q < out@.len() ==> #[trigger] out@[p] != #[trigger] out@[q],
            forall|a: (u32, u32)| #[trigger] out@.contains(a) <==> arcs@.take(i as int).contains(a),
            i > 0 ==> out@.len() > 0 && out@.last() == arcs@[i - 1],
        decreases arcs@.len() - i,
    {
        let a = arcs[i];
        let ghost before = out@;
        proof {
            assert(arcs@.take(i + 1) =~= arcs@.take(i as int).push(a));
            assert forall|b: (u32, u32)| arcs@.take(i + 1).contains(b) <==> (arcs@.take(i as int).contains(b) || b == a) by {
                if arcs@.take(i + 1).contains(b) {
                    let j = choose|j: int| 0 <= j < i + 1 && #[trigger] arcs@.take(i + 1)[j] == b;
                    if j < i {
                        assert(arcs@.take(i as int)[j] == b);
                    }
                }
                if arcs@.take(i as int).contains(b) {
                    let j = choose|j: int| 0 <= j < i && #[trigger] arcs@.take(i as int)[j] == b;
                    assert(arcs@.take(i + 1)[j] == b);
                }
                if b == a {
                    assert(arcs@.take(i + 1)[i as int] == b);
                }
            }
        }
        let keep = if out.len() == 0 {
            true
        } else {
            let last = out[out.len() - 1];
            last.0 != a.0 || last.1 != a.1
        };
        if keep {
            out.push(a);
            proof {
                if i > 0 {
                    assert(pair_le(arcs@[i - 1], arcs@[i as int]));
                }
                assert forall|p: int, q: int| 0 <= p < q < out@.len() implies pair_le(#[trigger] out@[p], #[trigger] out@[q]) by {
                    if q == out@.len() - 1 && p < q {
                        assert(before.contains(before[p]));
                        let j = choose|j: int| 0 <= j < i && #[trigger] arcs@.take(i as int)[j] == before[p];
                        assert(pair_le(arcs@[j], arcs@[i as int]));
                    }
                }
                assert forall|p: int, q: int| 0 <= p < q < out@.len() implies #[trigger] out@[p] != #[trigger] out@[q] by {
                    if q == out@.len() - 1 {
                        if p < out@.len() - 2 {
                            assert(pair_le(before[p], before[before.len() - 1]));
                            assert(before[p] != before[before.len() - 1]);
                        }
                    }
                }
                assert forall|b: (u32, u32)| #[trigger] out@.contains(b) <==> arcs@.take(i + 1).contains(b) by {
                    if out@.contains(b) {
                        let j = choose|j: int| 0 <= j < out@.len() && out@[j] == b;
                        if j < before.len() {
                            assert(before[j] == b);
                        }
                    }
                    if before.contains(b) {
                        let j = choose|j: int| 0 <= j < before.len() && before[j] == b;
                        assert(out@[j] == b);
                    }
                    if b == a {
                        assert(out@[out@.len() - 1] == b);
                    }
                }
            }
        } else {
            proof {
                assert(out@.last() == a);
                assert(out@.contains(a));
            }
        }
        i += 1;
    }
    proof {
        assert(arcs@.take(arcs@.len() as int) =~= arcs@);
    }
    out
}

/// Every listed pair joins two distinct edge states below `n` by a
/// transition.
pub open spec fn pairs_are_links(pairs: Seq<(u32, u32)>, fo: Seq<u32>, ed: Seq<u32>, n: int) -> bool {
    forall|i: int|
        0 <= i < pairs.len() ==> (#[trigger] pairs[i]).0 < n && pairs[i].1 < n && transition_link(
            fo,
            ed,
            n,
            pairs[i].0 as int,
            pairs[i].1 as int,
        )
}

/// Both directions of the transition `u -> ed[k]` are listed.
pub open spec fn both_listed(pairs: Seq<(u32, u32)>, ed: Seq<u32>, u: int, k: int) -> bool {
    pairs.contains((u as u32, ed[k])) && pairs.contains((ed[k], u as u32))
}

proof fn lemma_listed_kept(before: Seq<(u32, u32)>, after: Seq<(u32, u32)>, ed: Seq<u32>, u: int, k: int)
    requires
        both_listed(before, ed, u, k),
        forall|i: int| 0 <= i < before.len() ==> after[i] == before[i],
        before.len() <= after.len(),
    ensures
        both_listed(after, ed, u, k),
{
    let i = choose|i: int| 0 <= i < before.len() && before[i] == (u as u32, ed[k]);
    assert(after[i] == (u as u32, ed[k]));
    let j = choose|j: int| 0 <= j < before.len() && before[j] == (ed[k], u as u32);
    assert(after[j] == (ed[k], u as u32));
}

/// Appends both directions of every transition of edge state `edge` to
/// another edge state below `n`.
fn push_transition_row(transitions: &EdgeBasedTopology, n: usize, edge: usize, pairs: &mut Vec<(u32, u32)>)
    requires
        n + 2 * transitions.edge_transition_edges@.len() <= CELL_CAPACITY,
        transitions.edge_transition_first_out@.len() == n + 1,
        transition_rows_ok(transitions.edge_transition_first_out@, transitions.edge_transition_edges@, n as int),
        edge < n,
        old(pairs)@.len() <= 2 * transitions.edge_transition_first_out@[edge as int],
        pairs_are_links(old(pairs)@, transitions.edge_transition_first_out@, transitions.edge_transition_edges@, n as int),
    ensures
        final(pairs)@.len() <= 2 * transitions.edge_transition_first_out@[edge + 1],
        pairs_are_links(final(pairs)@, transitions.edge_transition_first_out@, transitions.edge_transition_edges@, n as int),
        old(pairs)@.len() <= final(pairs)@.len(),
        forall|i: int| 0 <= i < old(pairs)@.len() ==> final(pairs)@[i] == old(pairs)@[i],
        forall|k: int|
            transitions.edge_transition_first_out@[edge as int] <= k < transitions.edge_transition_first_out@[edge + 1]
                && transitions.edge_transition_edges@[k] as int != edge && (transitions.edge_transition_edges@[k] as int) < n
                ==> #[trigger] both_listed(final(pairs)@, transitions.edge_transition_edges@, edge as int, k),
{
    let ghost fo = transitions.edge_transition_first_out@;
    let ghost ed = transitions.edge_transition_edges@;
    let ghost start_pairs = pairs@;
    let start = transitions.edge_transition_first_out[edge] as usize;
    let end = transitions.edge_transition_first_out[edge + 1] as usize;
    proof {
        assert(transition_row_ok(fo, ed, edge as int));
    }
    let mut k = start;
    while k < end
        invariant
            n + 2 * ed.len() <= CELL_CAPACITY,
            fo == transitions.edge_transition_first_out@,
            ed == transitions.edge_transition_edges@,
            fo.len() == n + 1,
            edge < n,
            start == fo[edge as int],
            end == fo[edge + 1],
            end <= ed.len(),
            start <= k <= end,
            start_pairs.len() <= 2 * start,
            pairs@.len() <= start_pairs.len() + 2 * (k - start),
            start_pairs.len() <= pairs@.len(),
            forall|i: int| 0 <= i < start_pairs.len() ==> pairs@[i] == start_pairs[i],
            pairs_are_links(pairs@, fo, ed, n as int),
            forall|kk: int|
                start <= kk < k && ed[kk] as int != edge && (ed[kk] as int) < n ==> #[trigger] both_listed(pairs@, ed, edge as int, kk),
        decreases end - k,
    {
        let next = transitions.edge_transition_edges[k];
        if next as usize != edge && (next as usize) < n {
            let ghost before = pairs@;
            pairs.push((edge as u32, next));
            pairs.push((next, edge as u32));
            proof {
                assert(transition(fo, ed, n as int, edge as int, next as int));
                assert forall|kk: int|
                    start <= kk < k + 1 && ed[kk] as int != edge && (ed[kk] as int) < n implies #[trigger] both_listed(pairs@, ed, edge as int, kk) by {
                    if kk == k {
                        assert(pairs@[pairs@.len() - 2] == (edge as u32, ed[kk]));
                        assert(pairs@[pairs@.len() - 1] == (ed[kk], edge as u32));
                    } else {
                        lemma_listed_kept(before, pairs@, ed, edge as int, kk);
                    }
                }
            }
        }
        k += 1;
    }
}

proof fn lemma_links_listed(pairs: Seq<(u32, u32)>, fo: Seq<u32>, ed: Seq<u32>, n: int)
    requires
        fo.len() == n + 1,
        forall|u: int, k: int|
            0 <= u < n && fo[u] <= k < fo[u + 1] && ed[k] as int != u && (ed[k] as int) < n ==> #[trigger] both_listed(
                pairs,
                ed,
                u,
                k,
            ),
    ensures
        forall|u: int, v: int|
            0 <= u < n && 0 <= v < n && transition_link(fo, ed, n, u, v) ==> #[trigger] pairs.contains((u as u32, v as u32)),
{
    assert forall|u: int, v: int|
        0 <= u < n && 0 <= v < n && transition_link(fo, ed, n, u, v) implies #[trigger] pairs.contains((u as u32, v as u32)) by {
        if transition(fo, ed, n, u, v) {
            let k = choose|k: int| fo[u] <= k < fo[u + 1] && ed[k] as int == v;
            assert(both_listed(pairs, ed, u, k));
        } else {
            let k = choose|k: int| fo[v] <= k < fo[v + 1] && ed[k] as int == u;
            assert(both_listed(pairs, ed, v, k));
        }
    }
}

/// Both directions of every transition between distinct edge states, in
/// the order the transition rows list them.
fn transition_pairs(edge_count: usize, transitions: &EdgeBasedTopology) -> (r: Vec<(u32, u32)>)
    requires
        edge_count + 2 * transitions.edge_transition_edges@.len() <= CELL_CAPACITY,
        transition_rows_ok(transitions.edge_transition_first_out@, transitions.edge_transition_edges@, edge_count as int),
    ensures
        r@.len() <= 2 * transitions.edge_transition_edges@.len(),
        pairs_are_links(r@, transitions.edge_transition_first_out@, transitions.edge_transition_edges@, edge_count as int),
        forall|u: int, v: int|
            0 <= u < edge_count && 0 <= v < edge_count && transition_link(
                transitions.edge_transition_first_out@,
                transitions.edge_transition_edges@,
                edge_count as int,
                u,
                v,
            ) ==> #[trigger] r@.contains((u as u32, v as u32)),
{
    let n = edge_count;
    let ghost fo = transitions.edge_transition_first_out@;
    let ghost ed = transitions.edge_transition_edges@;
    let mut pairs: Vec<(u32, u32)> = Vec::new();
    if transitions.edge_transition_first_out.len() == n + 1 {
        let mut edge: usize = 0;
        while edge < n
            invariant
                n + 2 * ed.len() <= CELL_CAPACITY,
                fo == transitions.edge_transition_first_out@,
                ed == transitions.edge_transition_edges@,
                fo.len() == n + 1,
                transition_rows_ok(fo, ed, n as int),
                edge <= n,
                pairs@.len() <= 2 * fo[edge as int],
                edge == 0 ==> pairs@.len() == 0,
                pairs_are_links(pairs@, fo, ed, n as int),
                forall|u: int, k: int|
                    0 <= u < edge && fo[u] <= k < fo[u + 1] && ed[k] as int != u && (ed[k] as int) < n ==> #[trigger] both_listed(
                        pairs@,
                        ed,
                        u,
                        k,
                    ),
            decreases n - edge,
        {
            let ghost before = pairs@;
            push_transition_row(transitions, n, edge, &mut pairs);
            proof {
                assert forall|u: int, k: int|
                    0 <= u < edge + 1 && fo[u] <= k < fo[u + 1] && ed[k] as int != u && (ed[k] as int) < n implies #[trigger] both_listed(
                    pairs@,
                    ed,
                    u,
                    k,
                ) by {
                    if u < edge {
                        lemma_listed_kept(before, pairs@, ed, u, k);
                    }
                }
            }
            edge += 1;
        }
        proof {
            if n > 0 {
                assert(transition_row_ok(fo, ed, n - 1));
            }
            lemma_links_listed(pairs@, fo, ed, n as int);
        }
    }
    pairs
}

/// A CSR built from sorted arcs has `v` in row `u` exactly when `(u, v)`
/// is one of the arcs.
proof fn lemma_csr_adjacency(first_out: Seq<u32>, heads: Seq<u32>, a: Seq<(u32, u32)>, n: int, u: int, v: int)
    requires
        sorted_pairs(a),
        csr_of(first_out, heads, a, n),
        0 <= u < n,
        0 <= v < n,
        n <= CELL_CAPACITY,
        forall|i: int| 0 <= i < a.len() ==> (#[trigger] a[i].0 as int) < n,
    ensures
        row_has(first_out, heads, u, v) <==> a.contains((u as u32, v as u32)),
{
    lemma_tails_below_sorted(a, u);
    lemma_tails_below_sorted(a, u + 1);
    assert(first_out[u] == tails_below(a, u) && first_out[u + 1] == tails_below(a, u + 1));
    if row_has(first_out, heads, u, v) {
        let k = choose|k: int| first_out[u] <= k < first_out[u + 1] && heads[k] as int == v;
        assert(!((a[k].0 as int) < u));
        assert((a[k].0 as int) < u + 1);
        assert(heads[k] == a[k].1);
        assert(a[k] == (u as u32, v as u32));
    }
    if a.contains((u as u32, v as u32)) {
        let k = choose|k: int| 0 <= k < a.len() && a[k] == (u as u32, v as u32);
        assert(first_out[a[k].0 as int] <= k < first_out[a[k].0 + 1]);
        assert(heads[k] == a[k].1);
    }
}

/// The root cell of a dataset's ordering: one node per edge state, the
/// undirected transition graph (u-turns and self-transitions aside, each
/// pair once) as adjacency, and the given coordinate bits per state.
pub fn edge_cell(edge_count: usize, transitions: &EdgeBasedTopology, coords: Vec<[u32; 6]>) -> (r: Cell)
    requires
        coords@.len() == edge_count,
        edge_count + 2 * transitions.edge_transition_edges@.len() <= CELL_CAPACITY,
        transition_rows_ok(transitions.edge_transition_first_out@, transitions.edge_transition_edges@, edge_count as int),
    ensures
        edge_cell_of(
            r,
            edge_count as int,
            transitions.edge_transition_first_out@,
            transitions.edge_transition_edges@,
            coords@,
        ),
        r.wf(),
        r.ids@ == Seq::new(edge_count as nat, |i: int| i as u32),
        r.coords@ == coords@,
        r.symmetric(),
        forall|u: int, v: int|
            0 <= u < edge_count && 0 <= v < edge_count ==> (#[trigger] r.adjacent(u, v) <==> transition_link(
                transitions.edge_transition_first_out@,
                transitions.edge_transition_edges@,
                edge_count as int,
                u,
                v,
            )),
{
    let n = edge_count;
    let ghost fo = transitions.edge_transition_first_out@;
    let ghost ed = transitions.edge_transition_edges@;
    let mut pairs = transition_pairs(edge_count, transitions);
    let ghost unsorted = pairs@;
    sort_arcs(&mut pairs);
    proof {
        assert(pairs@.to_multiset().len() == unsorted.to_multiset().len());
        assert forall|a: (u32, u32)| #[trigger] pairs@.contains(a) <==> unsorted.contains(a) by {
            assert(pairs@.contains(a) <==> pairs@.to_multiset().count(a) > 0);
            assert(unsorted.contains(a) <==> unsorted.to_multiset().count(a) > 0);
        }
    }
    let arcs = dedup_pairs(&pairs);
    proof {
        assert forall|i: int| 0 <= i < arcs@.len() implies (#[trigger] arcs@[i].0 as int) < n && (arcs@[i].1 as int) < n
            && transition_link(fo, ed, n as int, arcs@[i].0 as int, arcs@[i].1 as int) by {
            assert(arcs@.contains(arcs@[i]));
            assert(unsorted.contains(arcs@[i]));
            let j = choose|j: int| 0 <= j < unsorted.len() && unsorted[j] == arcs@[i];
        }
    }
    let (first_out, heads) = arcs_to_csr(&arcs, n);
    proof {
        lemma_csr_rows(first_out@, heads@, arcs@, n as int);
    }
    let mut ids: Vec<u32> = Vec::new();
    let mut v: usize = 0;
    while v < n
        invariant
            v <= n,
            n <= CELL_CAPACITY,
            ids@.len() == v,
            forall|i: int| 0 <= i < v ==> #[trigger] ids@[i] == i as u32,
        decreases n - v,
    {
        ids.push(v as u32);
        v += 1;
    }
    let cell = Cell { ids, first_out, heads, coords };
    proof {
        let a = arcs@;
        assert(cell.ids@ =~= Seq::new(n as nat, |i: int| i as u32));
        assert forall|i: int| 0 <= i < a.len() implies cell.first_out@[a[i].0 as int] <= i < cell.first_out@[a[i].0 + 1] && cell.heads@[i] == a[i].1 by {}
        assert forall|u: int, v: int|
            0 <= u < n && 0 <= v < n implies (#[trigger] cell.adjacent(u, v) <==> transition_link(fo, ed, n as int, u, v)) by {
            lemma_csr_adjacency(cell.first_out@, cell.heads@, a, n as int, u, v);
            if a.contains((u as u32, v as u32)) {
                assert(pairs@.contains((u as u32, v as u32)));
                assert(unsorted.contains((u as u32, v as u32)));
                let i = choose|i: int| 0 <= i < unsorted.len() && unsorted[i] == (u as u32, v as u32);
                assert(pairs_are_links(unsorted, fo, ed, n as int));
                assert(unsorted[i].0 as int == u && unsorted[i].1 as int == v);
            }
            if transition_link(fo, ed, n as int, u, v) {
                assert(unsorted.contains((u as u32, v as u32)));
                assert(pairs@.contains((u as u32, v as u32)));
                assert(a.contains((u as u32, v as u32)));
            }
        }
        assert forall|u: int| 0 <= u < n implies #[trigger] row_increasing(cell.first_out@, cell.heads@, u) by {
            lemma_tails_below_sorted(a, u);
            lemma_tails_below_sorted(a, u + 1);
            assert forall|k: int, l: int| cell.first_out@[u] <= k < l < cell.first_out@[u + 1] implies #[trigger] cell.heads@[k] < #[trigger] cell.heads@[l] by {
                assert(!((a[k].0 as int) < u) && (a[k].0 as int) < u + 1);
                assert(!((a[l].0 as int) < u) && (a[l].0 as int) < u + 1);
                assert(pair_le(a[k], a[l]));
                assert(a[k] != a[l]);
            }
        }
        assert forall|u: int, v: int| 0 <= u < n && 0 <= v < n && #[trigger] cell.adjacent(u, v) implies cell.adjacent(v, u) by {
            assert(transition_link(fo, ed, n as int, u, v));
            assert(transition_link(fo, ed, n as int, v, u));
        }
    }
    cell
}

/// Builds the metric-independent CCH of a dataset: the edge states are
/// ordered by nested dissection of the transition graph (both sides before
/// their separator, small cells by minimum degree), then contracted in that
/// order. `coords[e]` holds the coordinate bits of edge state `e` (see
/// [`Cell`]) and `x_is_wider` tells of a cell whether its x extent is at
/// least its y extent.
/// `cell` is the transition graph of a dataset as one cell: edge state
/// `i` is node `i` with its coordinates, joined to the states it shares a
/// transition with either way.
pub open spec fn edge_cell_of(cell: Cell, n: int, fo: Seq<u32>, ed: Seq<u32>, coords: Seq<[u32; 6]>) -> bool {
    &&& cell.wf()
    &&& cell.ids@ == Seq::new(n as nat, |i: int| i as u32)
    &&& cell.coords@ == coords
    &&& cell.symmetric()
    &&& forall|u: int, v: int|
        0 <= u < n && 0 <= v < n ==> (#[trigger] cell.adjacent(u, v) <==> transition_link(fo, ed, n, u, v))
}

pub fn build_dataset_acceleration_bundle<F: Fn(&Cell) -> bool>(
    edge_count: usize,
    transitions: &EdgeBasedTopology,
    source_topology_bundle_id: CacheBundleId,
    coords: Vec<[u32; 6]>,
    x_is_wider: &F,
) -> (r: Option<DatasetAccelerationBundle>)
    requires
        coords@.len() == edge_count,
        edge_count + 2 * transitions.edge_transition_edges@.len() <= CELL_CAPACITY,
        transition_rows_ok(transitions.edge_transition_first_out@, transitions.edge_transition_edges@, edge_count as int),
        forall|any: &Cell| #[trigger] x_is_wider.requires((any,)),
    ensures
        r matches Some(b) ==> {
            &&& is_edge_order(b.edge_order@, edge_count as int)
            &&& b.schema_version == ACCELERATION_BUNDLE_SCHEMA_VERSION
            &&& b.source_topology_bundle_id == source_topology_bundle_id
            &&& b.algorithm@ == CCH_ALGORITHM@
            &&& b.edge_rank@ == ranks_of_order(b.edge_order@)
            &&& arcs_of_order(
                b,
                transitions.edge_transition_first_out@,
                transitions.edge_transition_edges@,
                b.edge_order@,
                edge_count as int,
            )
            &&& exists|cell: Cell|
                #[trigger] edge_cell_of(
                    cell,
                    edge_count as int,
                    transitions.edge_transition_first_out@,
                    transitions.edge_transition_edges@,
                    coords@,
                ) && nested_dissection(cell, LEAF_NODES as int, b.edge_order@, edge_count as nat)
        },
        r is None ==> exists|cell: Cell, order: Seq<u32>|
            #![trigger edge_cell_of(cell, edge_count as int, transitions.edge_transition_first_out@, transitions.edge_transition_edges@, coords@), is_edge_order(order, edge_count as int)]
            edge_cell_of(
                cell,
                edge_count as int,
                transitions.edge_transition_first_out@,
                transitions.edge_transition_edges@,
                coords@,
            ) && nested_dissection(cell, LEAF_NODES as int, order, edge_count as nat) && is_edge_order(
                order,
                edge_count as int,
            ) && !closure_fits_u32(
                transitions.edge_transition_first_out@,
                transitions.edge_transition_edges@,
                order,
                edge_count as int,
            ),
{
    let n = edge_count;
    let ghost coords_view = coords@;
    let cell = edge_cell(edge_count, transitions, coords);
    let ghost ids = cell.ids@;
    let ghost top = cell;
    proof {
        assert(ids.no_duplicates()) by {
            assert forall|i: int, j: int| 0 <= i < ids.len() && 0 <= j < ids.len() && i != j implies ids[i] != ids[j] by {
                assert(ids[i] == i as u32 && ids[j] == j as u32);
            }
        }
    }
    let order = dissect(cell, LEAF_NODES, x_is_wider);
    proof {
        assert forall|i: int| 0 <= i < n implies (#[trigger] order@[i] as int) < n by {
            assert(order@.contains(order@[i]));
            assert(ids.contains(order@[i]));
        }
        assert forall|v: u32| (v as int) < n implies #[trigger] order@.contains(v) by {
            assert(ids[v as int] == v);
            assert(ids.contains(v));
        }
        assert forall|i: int, j: int| 0 <= i < j < n implies order@[i] != order@[j] by {}
        assert(is_edge_order(order@, n as int));
        if transitions.edge_transition_first_out@.len() == n + 1 {
            assert forall|e: int| 0 <= e < n implies #[trigger] transitions.edge_transition_first_out@[e]
                <= transitions.edge_transition_first_out@[e + 1] <= transitions.edge_transition_edges@.len() by {
                assert(transition_row_ok(transitions.edge_transition_first_out@, transitions.edge_transition_edges@, e));
            }
        }
    }
    let ghost order_view = order@;
    let r = build_with_order_checked(edge_count, transitions, source_topology_bundle_id, order);
    proof {
        assert(edge_cell_of(
            top,
            edge_count as int,
            transitions.edge_transition_first_out@,
            transitions.edge_transition_edges@,
            coords_view,
        ));
        assert(nested_dissection(top, LEAF_NODES as int, order_view, edge_count as nat));
    }
    r
}

} // verus!
