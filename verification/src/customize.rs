//! Customizing a contraction hierarchy for a metric: once every arc holds
//! the weight of its own transition, arcs are relaxed through each edge
//! state in elimination order, so that every lower triangle obeys the
//! triangle inequality and queries need no further search.

use vstd::prelude::*;

use crate::cch::{
    arcs_of_order, arcs_to_csr, base_arcs_of, csr_describes, csr_of, downward_arcs, goes_up, is_edge_order,
    is_elimination_closure, is_proper_arc, lemma_closure_proper, lemma_ranks_of_edge_order, lemma_tails_below_sorted,
    lemma_triangles_closed, ranks_of_order, sort_arcs, sorted_pairs, upward_arcs, DatasetAccelerationBundle,
};
use crate::graph::EDGE_FLAG_TEMPORAL_MATERIALIZED_DIRECTION;
use crate::dataset::CacheBundleId;
use crate::metrics::{
    add_cch_weights, weight_sum, CompiledAcceleration, CCH_WEIGHT_INFINITY, CCH_WEIGHT_OVERFLOW,
    COMPILED_ACCELERATION_SCHEMA_VERSION,
};

verus! {

broadcast use vstd::seq_lib::group_to_multiset_ensures;

// ---------------------------------------------------------------------------
// The shape of a hierarchy.
// ---------------------------------------------------------------------------
/// Compressed rows over `n` tails: offsets that rise from zero to the
/// number of heads, heads below `n`, and heads strictly increasing within
/// each row.
pub open spec fn rows_ok(fo: Seq<u32>, heads: Seq<u32>, n: int) -> bool {
    &&& fo.len() == n + 1
    &&& fo[0] == 0
    &&& fo[n] == heads.len()
    &&& forall|t: int| 0 <= t < n ==> #[trigger] fo[t] <= fo[t + 1]
    &&& forall|i: int| 0 <= i < heads.len() ==> (#[trigger] heads[i] as int) < n
    &&& forall|t: int, i: int, j: int|
        #![trigger in_row(fo, t, i), in_row(fo, t, j)]
        0 <= t < n && in_row(fo, t, i) && in_row(fo, t, j) && i < j ==> heads[i] < heads[j]
}

/// Slot `s` lies in the row of tail `t`.
pub open spec fn in_row(fo: Seq<u32>, t: int, s: int) -> bool {
    fo[t] <= s < fo[t + 1]
}

/// `order` and `rank` are inverse permutations of the edge states.
pub open spec fn ranks_ok(order: Seq<u32>, rank: Seq<u32>, n: int) -> bool {
    &&& order.len() == n
    &&& rank.len() == n
    &&& forall|i: int| 0 <= i < n ==> (#[trigger] order[i] as int) < n && rank[order[i] as int] == i
    &&& forall|v: int| 0 <= v < n ==> (#[trigger] rank[v] as int) < n && order[rank[v] as int] == v
}

/// Every arc of the rows leads to a higher (`up`) or lower rank.
pub open spec fn rows_toward(fo: Seq<u32>, heads: Seq<u32>, rank: Seq<u32>, n: int, up: bool) -> bool {
    forall|t: int, s: int|
        #![trigger in_row(fo, t, s), heads[s]]
        0 <= t < n && in_row(fo, t, s) ==> if up {
            rank[t] < rank[heads[s] as int]
        } else {
            rank[t] > rank[heads[s] as int]
        }
}

/// The acceleration bundle describes a hierarchy over `n` edge states.
pub open spec fn cch_shape(b: DatasetAccelerationBundle, n: int) -> bool {
    &&& rows_ok(b.upward_first_out@, b.upward_head@, n)
    &&& rows_ok(b.downward_first_out@, b.downward_head@, n)
    &&& ranks_ok(b.edge_order@, b.edge_rank@, n)
    &&& rows_toward(b.upward_first_out@, b.upward_head@, b.edge_rank@, n, true)
    &&& rows_toward(b.downward_first_out@, b.downward_head@, b.edge_rank@, n, false)
}

/// The slot of arc `t -> h` among the rows, if the rows hold it.
pub open spec fn row_slot(fo: Seq<u32>, heads: Seq<u32>, t: int, h: int) -> Option<int> {
    if exists|s: int| #[trigger] in_row(fo, t, s) && heads[s] as int == h {
        Some(choose|s: int| #[trigger] in_row(fo, t, s) && heads[s] as int == h)
    } else {
        None
    }
}

/// The tail whose row holds slot `s`.
pub open spec fn slot_tail(fo: Seq<u32>, n: int, s: int) -> int {
    choose|t: int| 0 <= t < n && #[trigger] in_row(fo, t, s)
}

proof fn lemma_offsets_rise(fo: Seq<u32>, n: int, t: int, u: int)
    requires
        fo.len() == n + 1,
        forall|q: int| 0 <= q < n ==> #[trigger] fo[q] <= fo[q + 1],
        0 <= t <= u <= n,
    ensures
        fo[t] <= fo[u],
    decreases u - t,
{
    if t < u {
        lemma_offsets_rise(fo, n, t + 1, u);
    }
}

/// Rows do not overlap: a slot lies in the row of one tail at most.
proof fn lemma_one_tail(fo: Seq<u32>, n: int, t1: int, t2: int, s: int)
    requires
        fo.len() == n + 1,
        forall|q: int| 0 <= q < n ==> #[trigger] fo[q] <= fo[q + 1],
        0 <= t1 < n,
        0 <= t2 < n,
        in_row(fo, t1, s),
        in_row(fo, t2, s),
    ensures
        t1 == t2,
{
    if t1 < t2 {
        lemma_offsets_rise(fo, n, t1 + 1, t2);
    } else if t2 < t1 {
        lemma_offsets_rise(fo, n, t2 + 1, t1);
    }
}

/// Every slot below the last offset lies in exactly one row.
proof fn lemma_slot_tail(fo: Seq<u32>, n: int, s: int)
    requires
        0 <= n,
        fo.len() == n + 1,
        fo[0] == 0,
        forall|q: int| 0 <= q < n ==> #[trigger] fo[q] <= fo[q + 1],
        0 <= s < fo[n],
    ensures
        0 <= slot_tail(fo, n, s) < n,
        in_row(fo, slot_tail(fo, n, s), s),
        forall|t: int| 0 <= t < n && #[trigger] in_row(fo, t, s) ==> t == slot_tail(fo, n, s),
{
    lemma_some_row(fo, n, s, n);
    let t = slot_tail(fo, n, s);
    assert forall|u: int| 0 <= u < n && #[trigger] in_row(fo, u, s) implies u == t by {
        lemma_one_tail(fo, n, u, t, s);
    }
}

proof fn lemma_some_row(fo: Seq<u32>, n: int, s: int, m: int)
    requires
        fo.len() == n + 1,
        fo[0] == 0,
        forall|q: int| 0 <= q < n ==> #[trigger] fo[q] <= fo[q + 1],
        0 <= s < fo[m],
        0 <= m <= n,
    ensures
        exists|t: int| 0 <= t < n && #[trigger] in_row(fo, t, s),
    decreases m,
{
    if m > 0 {
        if s < fo[m - 1] {
            lemma_some_row(fo, n, s, m - 1);
        } else {
            assert(in_row(fo, m - 1, s));
        }
    }
}

/// Within a row, a head names one slot at most.
proof fn lemma_row_slot_unique(fo: Seq<u32>, heads: Seq<u32>, n: int, t: int, s: int)
    requires
        rows_ok(fo, heads, n),
        0 <= t < n,
        in_row(fo, t, s),
    ensures
        row_slot(fo, heads, t, heads[s] as int) == Some(s),
{
    let h = heads[s] as int;
    assert(in_row(fo, t, s) && heads[s] as int == h);
    let c = choose|c: int| #[trigger] in_row(fo, t, c) && heads[c] as int == h;
    if c < s {
        assert(heads[c] < heads[s]);
    } else if s < c {
        assert(heads[s] < heads[c]);
    }
}

/// The slot of arc `t -> h`, found by binary search in the row of `t`.
fn find_slot(fo: &Vec<u32>, heads: &Vec<u32>, t: usize, h: u32, Ghost(n): Ghost<int>) -> (r: Option<usize>)
    requires
        rows_ok(fo@, heads@, n),
        t < n,
    ensures
        match r {
            Some(s) => row_slot(fo@, heads@, t as int, h as int) == Some(s as int),
            None => row_slot(fo@, heads@, t as int, h as int) is None,
        },
{
    proof {
        lemma_offsets_rise(fo@, n, t as int + 1, n);
    }
    let total = fo.len();
    assert(t + 1 < total);
    let mut lo: usize = fo[t] as usize;
    let mut hi: usize = fo[t + 1] as usize;
    let ghost start = lo as int;
    let ghost stop = hi as int;
    while lo < hi
        invariant
            rows_ok(fo@, heads@, n),
            t < n,
            start == fo@[t as int],
            stop == fo@[t as int + 1],
            stop <= heads@.len(),
            start <= lo <= hi <= stop,
            forall|q: int| start <= q < lo ==> heads@[q] < h,
            forall|q: int| hi <= q < stop ==> heads@[q] > h,
        decreases hi - lo,
    {
        let mid = lo + (hi - lo) / 2;
        let m = heads[mid];
        if m == h {
            proof {
                assert(in_row(fo@, t as int, mid as int));
                lemma_row_slot_unique(fo@, heads@, n, t as int, mid as int);
            }
            return Some(mid);
        } else if m < h {
            proof {
                assert forall|q: int| start <= q < mid + 1 implies heads@[q] < h by {
                    if q < mid {
                        assert(in_row(fo@, t as int, q) && in_row(fo@, t as int, mid as int));
                    }
                }
            }
            lo = mid + 1;
        } else {
            proof {
                assert forall|q: int| mid <= q < stop implies heads@[q] > h by {
                    if q > mid {
                        assert(in_row(fo@, t as int, q) && in_row(fo@, t as int, mid as int));
                    }
                }
            }
            hi = mid;
        }
    }
    proof {
        assert forall|s: int| #[trigger] in_row(fo@, t as int, s) implies heads@[s] as int != h by {}
    }
    None
}

/// Row `v` lists slot `s`.
pub open spec fn listed(fo: Seq<u32>, slots: Seq<u32>, v: int, s: int) -> bool {
    exists|q: int| #[trigger] in_row(fo, v, q) && slots[q] == s
}

fn slot_tails(fo: &Vec<u32>, Ghost(n): Ghost<int>) -> (r: Vec<u32>)
    requires
        0 <= n <= u32::MAX,
        fo@.len() == n + 1,
        fo@[0] == 0,
        forall|q: int| 0 <= q < n ==> #[trigger] fo@[q] <= fo@[q + 1],
    ensures
        r@.len() == fo@[n],
        forall|s: int| 0 <= s < r@.len() ==> #[trigger] r@[s] as int == slot_tail(fo@, n, s),
{
    let count = fo.len() - 1;
    let mut out: Vec<u32> = Vec::new();
    let mut t: usize = 0;
    while t < count
        invariant
            count == n,
            0 <= n <= u32::MAX,
            fo@.len() == n + 1,
            fo@[0] == 0,
            forall|q: int| 0 <= q < n ==> #[trigger] fo@[q] <= fo@[q + 1],
            t <= n,
            out@.len() == fo@[t as int],
            forall|s: int| 0 <= s < out@.len() ==> (#[trigger] out@[s] as int) < n && in_row(fo@, out@[s] as int, s),
        decreases count - t,
    {
        let stop = fo[t + 1] as usize;
        while out.len() < stop
            invariant
                count == n,
                fo@.len() == n + 1,
                t < n,
                n <= u32::MAX,
                stop == fo@[t + 1],
                fo@[t as int] <= out@.len() <= stop,
                forall|s: int| 0 <= s < out@.len() ==> (#[trigger] out@[s] as int) < n && in_row(fo@, out@[s] as int, s),
            decreases stop - out@.len(),
        {
            proof {
                assert(in_row(fo@, t as int, out@.len() as int));
            }
            out.push(t as u32);
        }
        t += 1;
    }
    proof {
        assert forall|s: int| 0 <= s < out@.len() implies #[trigger] out@[s] as int == slot_tail(fo@, n, s) by {
            lemma_slot_tail(fo@, n, s);
        }
    }
    out
}

/// The downward slots by head: row `v` of the result lists the slots of
/// the arcs that end at `v`.
fn reverse_rows(heads: &Vec<u32>, n: usize) -> (r: (Vec<u32>, Vec<u32>))
    requires
        heads@.len() <= u32::MAX,
        n < usize::MAX,
        forall|i: int| 0 <= i < heads@.len() ==> (#[trigger] heads@[i] as int) < n,
    ensures
        r.0@.len() == n + 1,
        r.0@[0] == 0,
        r.0@[n as int] == heads@.len(),
        r.1@.len() == heads@.len(),
        forall|v: int| 0 <= v < n ==> #[trigger] r.0@[v] <= r.0@[v + 1],
        forall|v: int, q: int|
            0 <= v < n && #[trigger] in_row(r.0@, v, q) ==> (r.1@[q] as int) < heads@.len() && heads@[r.1@[q] as int]
                == v,
        forall|v: int, q1: int, q2: int|
            #![trigger in_row(r.0@, v, q1), in_row(r.0@, v, q2)]
            0 <= v < n && in_row(r.0@, v, q1) && in_row(r.0@, v, q2) && q1 != q2 ==> r.1@[q1] != r.1@[q2],
        forall|s: int| 0 <= s < heads@.len() ==> #[trigger] listed(r.0@, r.1@, heads@[s] as int, s),
{
    let mut pairs: Vec<(u32, u32)> = Vec::new();
    let mut s: usize = 0;
    while s < heads.len()
        invariant
            heads@.len() <= u32::MAX,
            s <= heads@.len(),
            pairs@.len() == s,
            forall|i: int| 0 <= i < s ==> #[trigger] pairs@[i] == (heads@[i], i as u32),
        decreases heads@.len() - s,
    {
        pairs.push((heads[s], s as u32));
        s += 1;
    }
    let ghost before = pairs@;
    sort_arcs(&mut pairs);
    let ghost arcs = pairs@;
    proof {
        assert(before.no_duplicates()) by {
            assert forall|a: int, b: int| 0 <= a < before.len() && 0 <= b < before.len() && a != b implies before[a]
                != before[b] by {
                assert(before[a] == (heads@[a], a as u32));
                assert(before[b] == (heads@[b], b as u32));
            }
        }
        before.lemma_multiset_has_no_duplicates();
        arcs.lemma_multiset_has_no_duplicates_conv();
        assert(arcs.len() == before.len()) by {
            assert(arcs.to_multiset().len() == before.to_multiset().len());
        }
        assert forall|i: int| 0 <= i < arcs.len() implies #[trigger] arcs[i] == (
            heads@[arcs[i].1 as int],
            arcs[i].1,
        ) && (arcs[i].1 as int) < heads@.len() by {
            assert(arcs.to_multiset().contains(arcs[i]));
            assert(before.contains(arcs[i]));
            let q = choose|q: int| 0 <= q < before.len() && before[q] == arcs[i];
            assert(before[q] == (heads@[q], q as u32));
        }
    }
    let r = arcs_to_csr(&pairs, n);
    proof {
        let fo = r.0@;
        let sl = r.1@;
        assert forall|v: int| 0 <= v <= n implies #[trigger] fo[v] <= arcs.len() && forall|q: int|
            0 <= q < arcs.len() ==> ((#[trigger] arcs[q].0 as int) < v <==> q < fo[v]) by {
            lemma_tails_below_sorted(arcs, v);
        }
        assert(fo[0] == 0) by {
            if fo[0] > 0 {
                assert((arcs[0].0 as int) < 0);
            }
        }
        assert(fo[n as int] == arcs.len()) by {
            if fo[n as int] < arcs.len() {
                assert((arcs[fo[n as int] as int].0 as int) < n);
            }
        }
        assert forall|v: int| 0 <= v < n implies #[trigger] fo[v] <= fo[v + 1] by {
            if fo[v] > fo[v + 1] {
                assert((arcs[fo[v + 1] as int].0 as int) < v);
            }
        }
        assert forall|v: int, q: int| 0 <= v < n && #[trigger] in_row(fo, v, q) implies arcs[q].0 as int == v && (
        sl[q] as int) < heads@.len() && heads@[sl[q] as int] == v by {
            assert(fo[v] <= fo[v + 1] <= arcs.len());
            assert(arcs[q] == (heads@[arcs[q].1 as int], arcs[q].1));
        }
        assert forall|v: int, q1: int, q2: int|
            #![trigger in_row(fo, v, q1), in_row(fo, v, q2)]
            0 <= v < n && in_row(fo, v, q1) && in_row(fo, v, q2) && q1 != q2 implies sl[q1] != sl[q2] by {
            assert(arcs[q1] != arcs[q2]);
        }
        assert forall|s: int| 0 <= s < heads@.len() implies #[trigger] listed(fo, sl, heads@[s] as int, s) by {
            assert(before[s] == (heads@[s], s as u32));
            assert(before.to_multiset().contains(before[s]));
            assert(arcs.contains(before[s]));
            let q = choose|q: int| 0 <= q < arcs.len() && arcs[q] == before[s];
            assert((arcs[q].0 as int) < heads@[s] + 1);
            assert(!((arcs[q].0 as int) < heads@[s] as int));
            assert(in_row(fo, heads@[s] as int, q));
        }
    }
    r
}

// ---------------------------------------------------------------------------
// Relaxation.
// ---------------------------------------------------------------------------
/// What a path through `v` offers for the arc `t -> h`: the weight of
/// `t -> v` followed by `v -> h`, where both arcs exist and `t != h`.
pub open spec fn through(b: DatasetAccelerationBundle, up: Seq<u32>, down: Seq<u32>, v: int, t: int, h: int) -> Option<
    u32,
> {
    match (
        row_slot(b.downward_first_out@, b.downward_head@, t, v),
        row_slot(b.upward_first_out@, b.upward_head@, v, h),
    ) {
        (Some(i), Some(o)) => if t != h {
            Some(weight_sum(down[i], up[o]))
        } else {
            None
        },
        _ => None,
    }
}

/// A weight lowered to a candidate that beats it.
pub open spec fn relaxed(cur: u32, cand: Option<u32>) -> u32 {
    match cand {
        Some(c) => if c < cur {
            c
        } else {
            cur
        },
        None => cur,
    }
}

/// The weight of upward slot `s` after relaxing through `v`.
pub open spec fn up_relaxed(b: DatasetAccelerationBundle, n: int, st: (Seq<u32>, Seq<u32>), v: int, s: int) -> u32 {
    relaxed(st.0[s], through(b, st.0, st.1, v, slot_tail(b.upward_first_out@, n, s), b.upward_head@[s] as int))
}

/// The weight of downward slot `s` after relaxing through `v`.
pub open spec fn down_relaxed(b: DatasetAccelerationBundle, n: int, st: (Seq<u32>, Seq<u32>), v: int, s: int) -> u32 {
    relaxed(st.1[s], through(b, st.0, st.1, v, slot_tail(b.downward_first_out@, n, s), b.downward_head@[s] as int))
}

/// Upward and downward weights after relaxing every arc through `v`.
pub open spec fn relax_step(b: DatasetAccelerationBundle, n: int, st: (Seq<u32>, Seq<u32>), v: int) -> (
    Seq<u32>,
    Seq<u32>,
) {
    (
        Seq::new(st.0.len(), |s: int| up_relaxed(b, n, st, v, s)),
        Seq::new(st.1.len(), |s: int| down_relaxed(b, n, st, v, s)),
    )
}

/// The weights after relaxing through the first `k` edge states of the
/// elimination order, one after the other.
pub open spec fn customized(b: DatasetAccelerationBundle, n: int, st: (Seq<u32>, Seq<u32>), k: int) -> (
    Seq<u32>,
    Seq<u32>,
)
    decreases k,
{
    if k <= 0 {
        st
    } else {
        relax_step(b, n, customized(b, n, st, k - 1), b.edge_order@[k - 1] as int)
    }
}

/// Some reverse arc among positions `lo..r` starts at `t`.
pub open spec fn tail_done(slots: Seq<u32>, tails: Seq<u32>, lo: int, r: int, t: int) -> bool {
    exists|q: int| lo <= q < r && #[trigger] tails[slots[q] as int] as int == t
}

/// Some head among positions `lo..o` is `h`.
pub open spec fn head_done(heads: Seq<u32>, lo: int, o: int, h: int) -> bool {
    exists|q: int| lo <= q < o && #[trigger] heads[q] as int == h
}

/// Facts about the arcs through `v`: none leaves `v` downward to itself
/// or upward to itself, so relaxing through `v` leaves its own arcs alone.
proof fn lemma_own_arcs_stay(b: DatasetAccelerationBundle, n: int, st: (Seq<u32>, Seq<u32>), v: int)
    requires
        cch_shape(b, n),
        0 <= v < n,
        st.0.len() == b.upward_head@.len(),
        st.1.len() == b.downward_head@.len(),
    ensures
        forall|s: int|
            0 <= s < st.0.len() && (slot_tail(b.upward_first_out@, n, s) == v || b.upward_head@[s] == v) ==> #[trigger] up_relaxed(
                b,
                n,
                st,
                v,
                s,
            ) == st.0[s],
        forall|s: int|
            0 <= s < st.1.len() && (slot_tail(b.downward_first_out@, n, s) == v || b.downward_head@[s] == v)
                ==> #[trigger] down_relaxed(b, n, st, v, s) == st.1[s],
{
    let ufo = b.upward_first_out@;
    let uh = b.upward_head@;
    let dfo = b.downward_first_out@;
    let dh = b.downward_head@;
    let rank = b.edge_rank@;
    assert(row_slot(ufo, uh, v, v) is None) by {
        if exists|s: int| #[trigger] in_row(ufo, v, s) && uh[s] as int == v {
            let s = choose|s: int| #[trigger] in_row(ufo, v, s) && uh[s] as int == v;
            assert(rank[v] < rank[uh[s] as int]);
        }
    }
    assert(row_slot(dfo, dh, v, v) is None) by {
        if exists|s: int| #[trigger] in_row(dfo, v, s) && dh[s] as int == v {
            let s = choose|s: int| #[trigger] in_row(dfo, v, s) && dh[s] as int == v;
            assert(rank[v] > rank[dh[s] as int]);
        }
    }
}

/// The reverse rows `rfo`/`rslots` list, for each edge state, the
/// downward slots that end at it.
pub open spec fn reverse_ok(
    b: DatasetAccelerationBundle,
    n: int,
    rfo: Seq<u32>,
    rslots: Seq<u32>,
) -> bool {
    let dh = b.downward_head@;
    &&& rfo.len() == n + 1
    &&& rfo[0] == 0
    &&& rfo[n] == dh.len()
    &&& rslots.len() == dh.len()
    &&& forall|t: int| 0 <= t < n ==> #[trigger] rfo[t] <= rfo[t + 1]
    &&& forall|t: int, q: int|
        0 <= t < n && #[trigger] in_row(rfo, t, q) ==> (rslots[q] as int) < dh.len() && dh[rslots[q] as int] == t
    &&& forall|t: int, q1: int, q2: int|
        #![trigger in_row(rfo, t, q1), in_row(rfo, t, q2)]
        0 <= t < n && in_row(rfo, t, q1) && in_row(rfo, t, q2) && q1 != q2 ==> rslots[q1] != rslots[q2]
    &&& forall|s: int| 0 <= s < dh.len() ==> #[trigger] listed(rfo, rslots, dh[s] as int, s)
}

#[verifier::rlimit(100)]
fn relax_through(
    b: &DatasetAccelerationBundle,
    n: usize,
    v: usize,
    dtail: &Vec<u32>,
    rfo: &Vec<u32>,
    rslots: &Vec<u32>,
    up: &mut Vec<u32>,
    down: &mut Vec<u32>,
)
    requires
        cch_shape(*b, n as int),
        n <= u32::MAX,
        v < n,
        old(up)@.len() == b.upward_head@.len(),
        old(down)@.len() == b.downward_head@.len(),
        dtail@.len() == b.downward_head@.len(),
        forall|s: int| 0 <= s < dtail@.len() ==> #[trigger] dtail@[s] as int == slot_tail(b.downward_first_out@, n as int, s),
        reverse_ok(*b, n as int, rfo@, rslots@),
    ensures
        (final(up)@, final(down)@) == relax_step(*b, n as int, (old(up)@, old(down)@), v as int),
{
    let ghost st0 = (up@, down@);
    let ghost ufo = b.upward_first_out@;
    let ghost uh = b.upward_head@;
    let ghost dfo = b.downward_first_out@;
    let ghost dh = b.downward_head@;
    let ghost rank = b.edge_rank@;
    let ghost ni = n as int;
    let ghost vi = v as int;
    let ghost lo = rfo@[vi] as int;
    proof {
        lemma_own_arcs_stay(*b, ni, st0, vi);
        lemma_offsets_rise(rfo@, ni, vi + 1, ni);
        lemma_offsets_rise(ufo, ni, vi + 1, ni);
    }
    let mut r: usize = rfo[v] as usize;
    let rend: usize = rfo[v + 1] as usize;
    let ostart: usize = b.upward_first_out[v] as usize;
    let oend: usize = b.upward_first_out[v + 1] as usize;
    while r < rend
        invariant
            cch_shape(*b, ni),
            ni == n,
            vi == v,
            n <= u32::MAX,
            v < n,
            ufo == b.upward_first_out@,
            uh == b.upward_head@,
            dfo == b.downward_first_out@,
            dh == b.downward_head@,
            rank == b.edge_rank@,
            st0.0.len() == uh.len(),
            st0.1.len() == dh.len(),
            up@.len() == uh.len(),
            down@.len() == dh.len(),
            dtail@.len() == dh.len(),
            forall|s: int| 0 <= s < dtail@.len() ==> #[trigger] dtail@[s] as int == slot_tail(dfo, ni, s),
            reverse_ok(*b, ni, rfo@, rslots@),
            lo == rfo@[vi],
            rend == rfo@[vi + 1],
            rend <= rslots@.len(),
            ostart == ufo[vi],
            oend == ufo[vi + 1],
            oend <= uh.len(),
            lo <= r <= rend,
            forall|s: int|
                0 <= s < up@.len() ==> #[trigger] up@[s] == if tail_done(rslots@, dtail@, lo, r as int, slot_tail(ufo, ni, s)) {
                    up_relaxed(*b, ni, st0, vi, s)
                } else {
                    st0.0[s]
                },
            forall|s: int|
                0 <= s < down@.len() ==> #[trigger] down@[s] == if tail_done(rslots@, dtail@, lo, r as int, slot_tail(dfo, ni, s)) {
                    down_relaxed(*b, ni, st0, vi, s)
                } else {
                    st0.1[s]
                },
        decreases rend - r,
    {
        proof {
            assert(in_row(rfo@, vi, r as int));
        }
        let i = rslots[r] as usize;
        let x = dtail[i] as usize;
        proof {
            lemma_slot_tail(dfo, ni, i as int);
            lemma_row_slot_unique(dfo, dh, ni, x as int, i as int);
            // No earlier reverse arc starts at `x`.
            assert forall|q: int| lo <= q < r implies #[trigger] dtail@[rslots@[q] as int] as int != x by {
                assert(in_row(rfo@, vi, q));
                let i2 = rslots@[q] as int;
                if dtail@[i2] as int == x {
                    lemma_slot_tail(dfo, ni, i2);
                    assert(rslots@[q] != rslots@[r as int]);
                    if i2 < i {
                        assert(dh[i2] < dh[i as int]);
                    } else {
                        assert(dh[i as int] < dh[i2]);
                    }
                }
            }
        }
        let mut o: usize = ostart;
        while o < oend
            invariant
                cch_shape(*b, ni),
                ni == n,
                vi == v,
                n <= u32::MAX,
                v < n,
                ufo == b.upward_first_out@,
                uh == b.upward_head@,
                dfo == b.downward_first_out@,
                dh == b.downward_head@,
                rank == b.edge_rank@,
                st0.0.len() == uh.len(),
                st0.1.len() == dh.len(),
                up@.len() == uh.len(),
                down@.len() == dh.len(),
                dtail@.len() == dh.len(),
                forall|s: int| 0 <= s < dtail@.len() ==> #[trigger] dtail@[s] as int == slot_tail(dfo, ni, s),
                reverse_ok(*b, ni, rfo@, rslots@),
                lo == rfo@[vi],
                rend == rfo@[vi + 1],
                rend <= rslots@.len(),
                ostart == ufo[vi],
                oend == ufo[vi + 1],
                oend <= uh.len(),
                lo <= r < rend,
                ostart <= o <= oend,
                (i as int) < dh.len(),
                dh[i as int] == v,
                x < n,
                x as int == slot_tail(dfo, ni, i as int),
                in_row(dfo, x as int, i as int),
                row_slot(dfo, dh, x as int, vi) == Some(i as int),
                forall|q: int| lo <= q < r ==> #[trigger] dtail@[rslots@[q] as int] as int != x,
                forall|s: int|
                    0 <= s < up@.len() ==> #[trigger] up@[s] == if tail_done(rslots@, dtail@, lo, r as int, slot_tail(ufo, ni, s))
                        || (slot_tail(ufo, ni, s) == x && head_done(uh, ostart as int, o as int, uh[s] as int)) {
                        up_relaxed(*b, ni, st0, vi, s)
                    } else {
                        st0.0[s]
                    },
                forall|s: int|
                    0 <= s < down@.len() ==> #[trigger] down@[s] == if tail_done(rslots@, dtail@, lo, r as int, slot_tail(dfo, ni, s))
                        || (slot_tail(dfo, ni, s) == x && head_done(uh, ostart as int, o as int, dh[s] as int)) {
                        down_relaxed(*b, ni, st0, vi, s)
                    } else {
                        st0.1[s]
                    },
            decreases oend - o,
        {
            let y = b.upward_head[o];
            let ghost up_before = up@;
            let ghost down_before = down@;
            proof {
                assert(in_row(ufo, vi, o as int));
                lemma_row_slot_unique(ufo, uh, ni, vi, o as int);
                lemma_slot_tail(ufo, ni, o as int);
                // No earlier head of the row of `v` is `y`.
                assert forall|q: int| ostart <= q < o implies #[trigger] uh[q] as int != y by {
                    assert(in_row(ufo, vi, q));
                    assert(uh[q] < uh[o as int]);
                }
            }
            if y as usize != x {
                let wi = down[i];
                let wo = up[o];
                proof {
                    assert(down_relaxed(*b, ni, st0, vi, i as int) == st0.1[i as int]);
                    assert(up_relaxed(*b, ni, st0, vi, o as int) == st0.0[o as int]);
                }
                let cand = add_cch_weights(wi, wo);
                proof {
                    assert(through(*b, st0.0, st0.1, vi, x as int, y as int) == Some(cand));
                }
                if b.edge_rank[x] < b.edge_rank[y as usize] {
                    match find_slot(&b.upward_first_out, &b.upward_head, x, y, Ghost(ni)) {
                        Some(sl) => {
                            proof {
                                let c = choose|c: int| #[trigger] in_row(ufo, x as int, c) && uh[c] as int == y;
                                lemma_offsets_rise(ufo, ni, x as int + 1, ni);
                                lemma_slot_tail(ufo, ni, sl as int);
                                assert(!tail_done(rslots@, dtail@, lo, r as int, x as int));
                                assert(!head_done(uh, ostart as int, o as int, y as int));
                                assert(up@[sl as int] == st0.0[sl as int]);
                                assert(up_relaxed(*b, ni, st0, vi, sl as int) == relaxed(st0.0[sl as int], Some(cand)));
                            }
                            if cand < up[sl] {
                                up.set(sl, cand);
                            }
                        },
                        None => {},
                    }
                } else {
                    match find_slot(&b.downward_first_out, &b.downward_head, x, y, Ghost(ni)) {
                        Some(sl) => {
                            proof {
                                let c = choose|c: int| #[trigger] in_row(dfo, x as int, c) && dh[c] as int == y;
                                lemma_offsets_rise(dfo, ni, x as int + 1, ni);
                                lemma_slot_tail(dfo, ni, sl as int);
                                assert(!tail_done(rslots@, dtail@, lo, r as int, x as int));
                                assert(!head_done(uh, ostart as int, o as int, y as int));
                                assert(down@[sl as int] == st0.1[sl as int]);
                                assert(down_relaxed(*b, ni, st0, vi, sl as int) == relaxed(st0.1[sl as int], Some(cand)));
                            }
                            if cand < down[sl] {
                                down.set(sl, cand);
                            }
                        },
                        None => {},
                    }
                }
            }
            proof {
                assert forall|s: int| 0 <= s < up@.len() implies #[trigger] up@[s] == if tail_done(
                    rslots@,
                    dtail@,
                    lo,
                    r as int,
                    slot_tail(ufo, ni, s),
                ) || (slot_tail(ufo, ni, s) == x && head_done(uh, ostart as int, o + 1, uh[s] as int)) {
                    up_relaxed(*b, ni, st0, vi, s)
                } else {
                    st0.0[s]
                } by {
                    lemma_slot_tail(ufo, ni, s);
                    let t = slot_tail(ufo, ni, s);
                    if t == x && uh[s] == y {
                        lemma_row_slot_unique(ufo, uh, ni, x as int, s);
                        assert(rank[t] < rank[uh[s] as int]);
                        assert(!tail_done(rslots@, dtail@, lo, r as int, x as int));
                        assert(head_done(uh, ostart as int, o + 1, uh[s] as int)) by {
                            assert(uh[o as int] as int == uh[s] as int);
                        }
                    } else {
                        assert(up@[s] == up_before[s]);
                        if head_done(uh, ostart as int, o + 1, uh[s] as int) && !head_done(uh, ostart as int, o as int, uh[s] as int) {
                            let q = choose|q: int| ostart <= q < o + 1 && #[trigger] uh[q] as int == uh[s] as int;
                            assert(q == o);
                        }
                    }
                }
                assert forall|s: int| 0 <= s < down@.len() implies #[trigger] down@[s] == if tail_done(
                    rslots@,
                    dtail@,
                    lo,
                    r as int,
                    slot_tail(dfo, ni, s),
                ) || (slot_tail(dfo, ni, s) == x && head_done(uh, ostart as int, o + 1, dh[s] as int)) {
                    down_relaxed(*b, ni, st0, vi, s)
                } else {
                    st0.1[s]
                } by {
                    lemma_slot_tail(dfo, ni, s);
                    let t = slot_tail(dfo, ni, s);
                    if t == x && dh[s] == y {
                        lemma_row_slot_unique(dfo, dh, ni, x as int, s);
                        assert(rank[t] > rank[dh[s] as int]);
                        assert(!tail_done(rslots@, dtail@, lo, r as int, x as int));
                        assert(head_done(uh, ostart as int, o + 1, dh[s] as int)) by {
                            assert(uh[o as int] as int == dh[s] as int);
                        }
                    } else {
                        assert(down@[s] == down_before[s]);
                        if head_done(uh, ostart as int, o + 1, dh[s] as int) && !head_done(uh, ostart as int, o as int, dh[s] as int) {
                            let q = choose|q: int| ostart <= q < o + 1 && #[trigger] uh[q] as int == dh[s] as int;
                            assert(q == o);
                        }
                    }
                }
            }
            o += 1;
        }
        proof {
            assert forall|s: int| 0 <= s < up@.len() implies #[trigger] up@[s] == if tail_done(
                rslots@,
                dtail@,
                lo,
                r + 1,
                slot_tail(ufo, ni, s),
            ) {
                up_relaxed(*b, ni, st0, vi, s)
            } else {
                st0.0[s]
            } by {
                lemma_slot_tail(ufo, ni, s);
                let t = slot_tail(ufo, ni, s);
                if tail_done(rslots@, dtail@, lo, r + 1, t) && !tail_done(rslots@, dtail@, lo, r as int, t) {
                    let q = choose|q: int| lo <= q < r + 1 && #[trigger] dtail@[rslots@[q] as int] as int == t;
                    assert(q == r);
                    assert(t == x);
                    if !head_done(uh, ostart as int, oend as int, uh[s] as int) {
                        lemma_through_needs_head(*b, ni, st0, vi, t, uh[s] as int);
                    }
                }
                if !tail_done(rslots@, dtail@, lo, r + 1, t) {
                    assert(t != x) by {
                        if t == x {
                            assert(dtail@[rslots@[r as int] as int] as int == t);
                        }
                    }
                }
            }
            assert forall|s: int| 0 <= s < down@.len() implies #[trigger] down@[s] == if tail_done(
                rslots@,
                dtail@,
                lo,
                r + 1,
                slot_tail(dfo, ni, s),
            ) {
                down_relaxed(*b, ni, st0, vi, s)
            } else {
                st0.1[s]
            } by {
                lemma_slot_tail(dfo, ni, s);
                let t = slot_tail(dfo, ni, s);
                if tail_done(rslots@, dtail@, lo, r + 1, t) && !tail_done(rslots@, dtail@, lo, r as int, t) {
                    let q = choose|q: int| lo <= q < r + 1 && #[trigger] dtail@[rslots@[q] as int] as int == t;
                    assert(q == r);
                    assert(t == x);
                    if !head_done(uh, ostart as int, oend as int, dh[s] as int) {
                        lemma_through_needs_head(*b, ni, st0, vi, t, dh[s] as int);
                    }
                }
                if !tail_done(rslots@, dtail@, lo, r + 1, t) {
                    assert(t != x) by {
                        if t == x {
                            assert(dtail@[rslots@[r as int] as int] as int == t);
                        }
                    }
                }
            }
        }
        r += 1;
    }
    proof {
        assert forall|s: int| 0 <= s < up@.len() implies #[trigger] up@[s] == up_relaxed(*b, ni, st0, vi, s) by {
            lemma_slot_tail(ufo, ni, s);
            let t = slot_tail(ufo, ni, s);
            if !tail_done(rslots@, dtail@, lo, rend as int, t) {
                lemma_through_needs_tail(*b, ni, st0, vi, t, uh[s] as int, dtail@, rfo@, rslots@);
            }
        }
        assert forall|s: int| 0 <= s < down@.len() implies #[trigger] down@[s] == down_relaxed(*b, ni, st0, vi, s) by {
            lemma_slot_tail(dfo, ni, s);
            let t = slot_tail(dfo, ni, s);
            if !tail_done(rslots@, dtail@, lo, rend as int, t) {
                lemma_through_needs_tail(*b, ni, st0, vi, t, dh[s] as int, dtail@, rfo@, rslots@);
            }
        }
        assert(up@ =~= relax_step(*b, ni, st0, vi).0);
        assert(down@ =~= relax_step(*b, ni, st0, vi).1);
    }
}

/// A path through `v` to `h` needs an arc from `v` to `h`.
proof fn lemma_through_needs_head(b: DatasetAccelerationBundle, n: int, st: (Seq<u32>, Seq<u32>), v: int, t: int, h: int)
    requires
        cch_shape(b, n),
        0 <= v < n,
        !head_done(b.upward_head@, b.upward_first_out@[v] as int, b.upward_first_out@[v + 1] as int, h),
    ensures
        through(b, st.0, st.1, v, t, h) is None,
{
    let ufo = b.upward_first_out@;
    let uh = b.upward_head@;
    if exists|s: int| #[trigger] in_row(ufo, v, s) && uh[s] as int == h {
        let s = choose|s: int| #[trigger] in_row(ufo, v, s) && uh[s] as int == h;
        assert(head_done(uh, ufo[v] as int, ufo[v + 1] as int, h));
    }
}

/// A path from `t` through `v` needs an arc from `t` to `v`, which the
/// reverse row of `v` lists.
proof fn lemma_through_needs_tail(
    b: DatasetAccelerationBundle,
    n: int,
    st: (Seq<u32>, Seq<u32>),
    v: int,
    t: int,
    h: int,
    dtail: Seq<u32>,
    rfo: Seq<u32>,
    rslots: Seq<u32>,
)
    requires
        cch_shape(b, n),
        0 <= v < n,
        0 <= t < n,
        dtail.len() == b.downward_head@.len(),
        forall|s: int| 0 <= s < dtail.len() ==> #[trigger] dtail[s] as int == slot_tail(b.downward_first_out@, n, s),
        reverse_ok(b, n, rfo, rslots),
        !tail_done(rslots, dtail, rfo[v] as int, rfo[v + 1] as int, t),
    ensures
        through(b, st.0, st.1, v, t, h) is None,
{
    let dfo = b.downward_first_out@;
    let dh = b.downward_head@;
    if exists|s: int| #[trigger] in_row(dfo, t, s) && dh[s] as int == v {
        let i = choose|s: int| #[trigger] in_row(dfo, t, s) && dh[s] as int == v;
        lemma_offsets_rise(dfo, n, t + 1, n);
        assert(0 <= i < dh.len());
        assert(listed(rfo, rslots, dh[i] as int, i));
        let q = choose|q: int| #[trigger] in_row(rfo, v, q) && rslots[q] == i;
        lemma_slot_tail(dfo, n, i);
        assert(dtail[rslots[q] as int] as int == t);
        assert(tail_done(rslots, dtail, rfo[v] as int, rfo[v + 1] as int, t));
    }
}


/// The weight of arc `t -> h`: upward when `h` outranks `t`, downward
/// otherwise; `None` where the hierarchy has no such arc.
pub open spec fn arc_weight(b: DatasetAccelerationBundle, st: (Seq<u32>, Seq<u32>), t: int, h: int) -> Option<u32> {
    if b.edge_rank@[t] < b.edge_rank@[h] {
        match row_slot(b.upward_first_out@, b.upward_head@, t, h) {
            Some(s) => Some(st.0[s]),
            None => None,
        }
    } else {
        match row_slot(b.downward_first_out@, b.downward_head@, t, h) {
            Some(s) => Some(st.1[s]),
            None => None,
        }
    }
}

/// The triangle `x -> v -> y` under `v` does not beat the arc `x -> y`.
pub open spec fn triangle_holds(b: DatasetAccelerationBundle, st: (Seq<u32>, Seq<u32>), v: int, x: int, y: int) -> bool {
    match (arc_weight(b, st, x, v), arc_weight(b, st, v, y), arc_weight(b, st, x, y)) {
        (Some(a), Some(c), Some(w)) => (x != y && b.edge_rank@[v] < b.edge_rank@[x] && b.edge_rank@[v]
            < b.edge_rank@[y]) ==> w <= weight_sum(a, c),
        _ => true,
    }
}

/// A path through `v` only improves arcs between states that outrank
/// `v`.
proof fn lemma_through_above(b: DatasetAccelerationBundle, n: int, st: (Seq<u32>, Seq<u32>), v: int, t: int, h: int)
    requires
        cch_shape(b, n),
        0 <= v < n,
        0 <= t < n,
        through(b, st.0, st.1, v, t, h) is Some,
    ensures
        b.edge_rank@[t] > b.edge_rank@[v],
        b.edge_rank@[v] < b.edge_rank@[h],
        t != h,
{
    let ufo = b.upward_first_out@;
    let uh = b.upward_head@;
    let dfo = b.downward_first_out@;
    let dh = b.downward_head@;
    let i = choose|s: int| #[trigger] in_row(dfo, t, s) && dh[s] as int == v;
    let o = choose|s: int| #[trigger] in_row(ufo, v, s) && uh[s] as int == h;
}

/// Relaxing through `u` changes an arc's weight only by lowering it, and
/// only for arcs between states that outrank `u`.
proof fn lemma_step_arc(b: DatasetAccelerationBundle, n: int, st: (Seq<u32>, Seq<u32>), u: int, t: int, h: int)
    requires
        cch_shape(b, n),
        0 <= u < n,
        0 <= t < n,
        0 <= h < n,
        st.0.len() == b.upward_head@.len(),
        st.1.len() == b.downward_head@.len(),
    ensures
        ({
            let st2 = relax_step(b, n, st, u);
            &&& arc_weight(b, st2, t, h) is Some == arc_weight(b, st, t, h) is Some
            &&& arc_weight(b, st, t, h) matches Some(w) ==> arc_weight(b, st2, t, h)->Some_0 == relaxed(
                w,
                through(b, st.0, st.1, u, t, h),
            )
        }),
{
    let ufo = b.upward_first_out@;
    let uh = b.upward_head@;
    let dfo = b.downward_first_out@;
    let dh = b.downward_head@;
    if b.edge_rank@[t] < b.edge_rank@[h] {
        match row_slot(ufo, uh, t, h) {
            Some(s) => {
                lemma_offsets_rise(ufo, n, t + 1, n);
                lemma_slot_tail(ufo, n, s);
            },
            None => {},
        }
    } else {
        match row_slot(dfo, dh, t, h) {
            Some(s) => {
                lemma_offsets_rise(dfo, n, t + 1, n);
                lemma_slot_tail(dfo, n, s);
            },
            None => {},
        }
    }
}

/// Law: once the first `k` states of the elimination order are relaxed,
/// every lower triangle under one of them obeys the triangle inequality.
pub proof fn lemma_customized_triangles(b: DatasetAccelerationBundle, n: int, st: (Seq<u32>, Seq<u32>), k: int)
    requires
        cch_shape(b, n),
        0 <= k <= n,
        st.0.len() == b.upward_head@.len(),
        st.1.len() == b.downward_head@.len(),
    ensures
        customized(b, n, st, k).0.len() == st.0.len(),
        customized(b, n, st, k).1.len() == st.1.len(),
        forall|v: int, x: int, y: int|
            0 <= v < n && 0 <= x < n && 0 <= y < n && b.edge_rank@[v] < k ==> #[trigger] triangle_holds(
                b,
                customized(b, n, st, k),
                v,
                x,
                y,
            ),
    decreases k,
{
    if k > 0 {
        lemma_customized_triangles(b, n, st, k - 1);
        let prev = customized(b, n, st, k - 1);
        let next = customized(b, n, st, k);
        let u = b.edge_order@[k - 1] as int;
        assert(next == relax_step(b, n, prev, u));
        assert(b.edge_rank@[u] == k - 1);
        assert forall|v: int, x: int, y: int|
            0 <= v < n && 0 <= x < n && 0 <= y < n && b.edge_rank@[v] < k implies #[trigger] triangle_holds(
            b,
            next,
            v,
            x,
            y,
        ) by {
            lemma_step_arc(b, n, prev, u, x, v);
            lemma_step_arc(b, n, prev, u, v, y);
            lemma_step_arc(b, n, prev, u, x, y);
            if through(b, prev.0, prev.1, u, x, v) is Some {
                lemma_through_above(b, n, prev, u, x, v);
            }
            if through(b, prev.0, prev.1, u, v, y) is Some {
                lemma_through_above(b, n, prev, u, v, y);
            }
            if b.edge_rank@[v] < k - 1 {
                assert(triangle_holds(b, prev, v, x, y));
            } else {
                assert(v == u);
            }
        }
    }
}

/// Relaxes every arc through each edge state in elimination order: for
/// each arc `x -> v` into a state and `v -> y` out of it, both to higher
/// ranks, the arc `x -> y` is lowered to their combined weight where that
/// is less. Afterwards no lower triangle beats its arc.
pub fn customize_triangles(b: &DatasetAccelerationBundle, n: usize, up: &mut Vec<u32>, down: &mut Vec<u32>)
    requires
        cch_shape(*b, n as int),
        n <= u32::MAX,
        old(up)@.len() == b.upward_head@.len(),
        old(down)@.len() == b.downward_head@.len(),
    ensures
        (final(up)@, final(down)@) == customized(*b, n as int, (old(up)@, old(down)@), n as int),
        forall|v: int, x: int, y: int|
            0 <= v < n && 0 <= x < n && 0 <= y < n ==> #[trigger] triangle_holds(*b, (final(up)@, final(down)@), v, x, y),
{
    let ghost st0 = (up@, down@);
    let ghost ni = n as int;
    let dtail = slot_tails(&b.downward_first_out, Ghost(ni));
    proof {
        lemma_offsets_rise(b.downward_first_out@, ni, 0, ni);
    }
    let offsets = b.downward_first_out.len();
    assert(n < offsets);
    let rev = reverse_rows(&b.downward_head, n);
    let rfo = rev.0;
    let rslots = rev.1;
    let mut k: usize = 0;
    while k < n
        invariant
            cch_shape(*b, ni),
            ni == n,
            n <= u32::MAX,
            k <= n,
            st0.0.len() == b.upward_head@.len(),
            st0.1.len() == b.downward_head@.len(),
            dtail@.len() == b.downward_head@.len(),
            forall|s: int| 0 <= s < dtail@.len() ==> #[trigger] dtail@[s] as int == slot_tail(b.downward_first_out@, ni, s),
            reverse_ok(*b, ni, rfo@, rslots@),
            (up@, down@) == customized(*b, ni, st0, k as int),
            up@.len() == b.upward_head@.len(),
            down@.len() == b.downward_head@.len(),
        decreases n - k,
    {
        let v = b.edge_order[k] as usize;
        relax_through(b, n, v, &dtail, &rfo, &rslots, up, down);
        k += 1;
    }
    proof {
        lemma_customized_triangles(*b, ni, st0, ni);
        assert forall|v: int, x: int, y: int| 0 <= v < n && 0 <= x < n && 0 <= y < n implies #[trigger] triangle_holds(
            *b,
            (up@, down@),
            v,
            x,
            y,
        ) by {
            assert(b.edge_rank@[v] < ni);
        }
    }
}

// ---------------------------------------------------------------------------
// Checking the shape of a bundle read from disk.
// ---------------------------------------------------------------------------
proof fn lemma_rows_sorted_from_steps(fo: Seq<u32>, heads: Seq<u32>, n: int, t: int, i: int, j: int)
    requires
        0 <= t < n,
        fo.len() == n + 1,
        fo[t + 1] <= heads.len(),
        forall|s: int| fo[t] <= s && s + 1 < fo[t + 1] ==> #[trigger] heads[s] < heads[s + 1],
        in_row(fo, t, i),
        in_row(fo, t, j),
        i < j,
    ensures
        heads[i] < heads[j],
    decreases j - i,
{
    if i + 1 < j {
        lemma_rows_sorted_from_steps(fo, heads, n, t, i + 1, j);
        assert(heads[i] < heads[i + 1]);
    } else {
        assert(heads[i] < heads[i + 1]);
    }
}

/// Whether the heads of row `t` rise strictly.
pub open spec fn row_rises(fo: Seq<u32>, heads: Seq<u32>, t: int) -> bool {
    forall|a: int, c: int|
        #![trigger in_row(fo, t, a), in_row(fo, t, c)]
        in_row(fo, t, a) && in_row(fo, t, c) && a < c ==> heads[a] < heads[c]
}

fn row_rises_exec(fo: &Vec<u32>, heads: &Vec<u32>, t: usize, Ghost(n): Ghost<int>) -> (r: bool)
    requires
        0 <= t < n,
        fo@.len() == n + 1,
        fo@[t as int] <= fo@[t + 1] <= heads@.len(),
    ensures
        r == row_rises(fo@, heads@, t as int),
{
    let total = fo.len();
    assert(t + 1 < total);
    let start = fo[t] as usize;
    let stop = fo[t + 1] as usize;
    let mut s: usize = start;
    while s < stop
        invariant
            t < n,
            fo@.len() == n + 1,
            start == fo@[t as int],
            stop == fo@[t + 1],
            stop <= heads@.len(),
            start <= s <= stop,
            forall|q: int| start <= q && q + 1 < stop && q < s ==> #[trigger] heads@[q] < heads@[q + 1],
        decreases stop - s,
    {
        if s + 1 < stop && heads[s] >= heads[s + 1] {
            proof {
                assert(in_row(fo@, t as int, s as int) && in_row(fo@, t as int, s + 1));
            }
            return false;
        }
        s += 1;
    }
    proof {
        assert forall|a: int, c: int|
            #![trigger in_row(fo@, t as int, a), in_row(fo@, t as int, c)]
            in_row(fo@, t as int, a) && in_row(fo@, t as int, c) && a < c implies heads@[a] < heads@[c] by {
            lemma_rows_sorted_from_steps(fo@, heads@, n, t as int, a, c);
        }
    }
    true
}

fn rows_ok_exec(fo: &Vec<u32>, heads: &Vec<u32>, n: usize) -> (r: bool)
    ensures
        r == rows_ok(fo@, heads@, n as int),
{
    let ghost ni = n as int;
    if fo.len() == 0 || fo.len() - 1 != n || fo[0] != 0 || fo[n] as usize != heads.len() {
        return false;
    }
    let mut t: usize = 0;
    while t < n
        invariant
            ni == n,
            fo@.len() == ni + 1,
            t <= n,
            forall|q: int| 0 <= q < t ==> #[trigger] fo@[q] <= fo@[q + 1],
        decreases n - t,
    {
        if fo[t] > fo[t + 1] {
            assert(!(fo@[t as int] <= fo@[t + 1]));
            return false;
        }
        t += 1;
    }
    let mut i: usize = 0;
    while i < heads.len()
        invariant
            i <= heads@.len(),
            forall|q: int| 0 <= q < i ==> (#[trigger] heads@[q] as int) < n,
        decreases heads@.len() - i,
    {
        if heads[i] as usize >= n {
            return false;
        }
        i += 1;
    }
    let mut t: usize = 0;
    while t < n
        invariant
            ni == n,
            fo@.len() == ni + 1,
            fo@[0] == 0,
            fo@[ni] == heads@.len(),
            t <= n,
            forall|q: int| 0 <= q < n ==> #[trigger] fo@[q] <= fo@[q + 1],
            forall|u: int| 0 <= u < t ==> #[trigger] row_rises(fo@, heads@, u),
        decreases n - t,
    {
        proof {
            lemma_offsets_rise(fo@, ni, t as int + 1, ni);
        }
        if !row_rises_exec(fo, heads, t, Ghost(ni)) {
            return false;
        }
        t += 1;
    }
    proof {
        assert forall|u: int, a: int, c: int|
            #![trigger in_row(fo@, u, a), in_row(fo@, u, c)]
            0 <= u < ni && in_row(fo@, u, a) && in_row(fo@, u, c) && a < c implies heads@[a] < heads@[c] by {
            assert(row_rises(fo@, heads@, u));
        }
    }
    true
}

fn ranks_ok_exec(order: &Vec<u32>, rank: &Vec<u32>, n: usize) -> (r: bool)
    ensures
        r == ranks_ok(order@, rank@, n as int),
{
    if order.len() != n || rank.len() != n {
        return false;
    }
    let mut i: usize = 0;
    while i < n
        invariant
            order@.len() == n,
            rank@.len() == n,
            i <= n,
            forall|q: int| 0 <= q < i ==> (#[trigger] order@[q] as int) < n && rank@[order@[q] as int] == q,
        decreases n - i,
    {
        let v = order[i] as usize;
        if v >= n || rank[v] as usize != i {
            return false;
        }
        i += 1;
    }
    let mut v: usize = 0;
    while v < n
        invariant
            order@.len() == n,
            rank@.len() == n,
            v <= n,
            forall|q: int| 0 <= q < n ==> (#[trigger] order@[q] as int) < n && rank@[order@[q] as int] == q,
            forall|q: int| 0 <= q < v ==> (#[trigger] rank@[q] as int) < n && order@[rank@[q] as int] == q,
        decreases n - v,
    {
        let k = rank[v] as usize;
        if k >= n || order[k] as usize != v {
            return false;
        }
        v += 1;
    }
    true
}

fn rows_toward_exec(fo: &Vec<u32>, heads: &Vec<u32>, rank: &Vec<u32>, n: usize, up: bool) -> (r: bool)
    requires
        rows_ok(fo@, heads@, n as int),
        rank@.len() == n,
    ensures
        r == rows_toward(fo@, heads@, rank@, n as int, up),
{
    let ghost ni = n as int;
    let mut t: usize = 0;
    while t < n
        invariant
            ni == n,
            rows_ok(fo@, heads@, ni),
            rank@.len() == n,
            t <= n,
            forall|u: int, s: int|
                #![trigger in_row(fo@, u, s), heads@[s]]
                0 <= u < t && in_row(fo@, u, s) ==> if up {
                    rank@[u] < rank@[heads@[s] as int]
                } else {
                    rank@[u] > rank@[heads@[s] as int]
                },
        decreases n - t,
    {
        proof {
            lemma_offsets_rise(fo@, ni, t as int + 1, ni);
        }
        let stop = fo[t + 1] as usize;
        let mut s: usize = fo[t] as usize;
        while s < stop
            invariant
                ni == n,
                rows_ok(fo@, heads@, ni),
                rank@.len() == n,
                t < n,
                stop == fo@[t + 1],
                stop <= heads@.len(),
                fo@[t as int] <= s,
                forall|u: int, q: int|
                    #![trigger in_row(fo@, u, q), heads@[q]]
                    0 <= u < t && in_row(fo@, u, q) ==> if up {
                        rank@[u] < rank@[heads@[q] as int]
                    } else {
                        rank@[u] > rank@[heads@[q] as int]
                    },
                forall|q: int|
                    #![trigger heads@[q]]
                    fo@[t as int] <= q < s ==> if up {
                        rank@[t as int] < rank@[heads@[q] as int]
                    } else {
                        rank@[t as int] > rank@[heads@[q] as int]
                    },
            decreases stop - s,
        {
            let h = heads[s] as usize;
            let fine = if up {
                rank[t] < rank[h]
            } else {
                rank[t] > rank[h]
            };
            if !fine {
                proof {
                    assert(in_row(fo@, t as int, s as int));
                }
                return false;
            }
            s += 1;
        }
        t += 1;
    }
    true
}

/// Whether an acceleration bundle describes a hierarchy over `n` edge
/// states that customization can run on.
pub fn cch_shape_ok(b: &DatasetAccelerationBundle, n: usize) -> (r: bool)
    ensures
        r == cch_shape(*b, n as int),
{
    if !rows_ok_exec(&b.upward_first_out, &b.upward_head, n) {
        return false;
    }
    if !rows_ok_exec(&b.downward_first_out, &b.downward_head, n) {
        return false;
    }
    if !ranks_ok_exec(&b.edge_order, &b.edge_rank, n) {
        return false;
    }
    if !rows_toward_exec(&b.upward_first_out, &b.upward_head, &b.edge_rank, n, true) {
        return false;
    }
    rows_toward_exec(&b.downward_first_out, &b.downward_head, &b.edge_rank, n, false)
}


/// Transition slot `k`, in the row of `t`, leads to another edge state
/// that the metric can use: both states have a cost and neither only
/// exists for a temporal direction, and no restriction forbids the turn.
pub open spec fn transition_usable(
    tfo: Seq<u32>,
    ted: Seq<u32>,
    has_cost: Seq<bool>,
    flags: Seq<u32>,
    forbidden: Seq<Vec<u32>>,
    n: int,
    t: int,
    k: int,
) -> bool {
    let h = ted[k] as int;
    &&& in_row(tfo, t, k)
    &&& h != t
    &&& h < n
    &&& has_cost[t]
    &&& has_cost[h]
    &&& flags[t] & EDGE_FLAG_TEMPORAL_MATERIALIZED_DIRECTION == 0
    &&& flags[h] & EDGE_FLAG_TEMPORAL_MATERIALIZED_DIRECTION == 0
    &&& !forbidden[t]@.contains(ted[k])
}

/// The usable transition `k` from `t` gives its weight to slot `s` of the
/// upward rows (`up`) or the downward rows: the direction its ranks take,
/// and the slot of the arc `t -> head` there.
pub open spec fn feeds(
    b: DatasetAccelerationBundle,
    tfo: Seq<u32>,
    ted: Seq<u32>,
    has_cost: Seq<bool>,
    flags: Seq<u32>,
    forbidden: Seq<Vec<u32>>,
    n: int,
    up: bool,
    t: int,
    k: int,
    s: int,
) -> bool {
    &&& transition_usable(tfo, ted, has_cost, flags, forbidden, n, t, k)
    &&& up == (b.edge_rank@[t] < b.edge_rank@[ted[k] as int])
    &&& if up {
        row_slot(b.upward_first_out@, b.upward_head@, t, ted[k] as int) == Some(s)
    } else {
        row_slot(b.downward_first_out@, b.downward_head@, t, ted[k] as int) == Some(s)
    }
}

/// Every slot holds the least weight of the transitions that feed it, and
/// the infinite weight where none does.
pub open spec fn base_weights(
    b: DatasetAccelerationBundle,
    tfo: Seq<u32>,
    ted: Seq<u32>,
    has_cost: Seq<bool>,
    flags: Seq<u32>,
    forbidden: Seq<Vec<u32>>,
    tw: Seq<u32>,
    n: int,
    up: bool,
    w: Seq<u32>,
) -> bool {
    &&& w.len() == (if up {
        b.upward_head@.len()
    } else {
        b.downward_head@.len()
    })
    &&& forall|t: int, k: int, s: int|
        0 <= t < n && #[trigger] feeds(b, tfo, ted, has_cost, flags, forbidden, n, up, t, k, s) ==> w[s] <= tw[k]
    &&& forall|s: int|
        0 <= s < w.len() ==> #[trigger] w[s] == CCH_WEIGHT_INFINITY || exists|t: int, k: int|
            0 <= t < n && #[trigger] feeds(b, tfo, ted, has_cost, flags, forbidden, n, up, t, k, s) && w[s] == tw[k]
}

/// Transition rows over `n` edge states.
pub open spec fn transition_rows(tfo: Seq<u32>, ted: Seq<u32>, n: int) -> bool {
    &&& tfo.len() == n + 1
    &&& forall|t: int| 0 <= t < n ==> #[trigger] tfo[t] <= tfo[t + 1] && tfo[t + 1] <= ted.len()
}

/// Whether `x` occurs in `v`.
fn holds_u32(v: &Vec<u32>, x: u32) -> (r: bool)
    ensures
        r == v@.contains(x),
{
    let mut i: usize = 0;
    while i < v.len()
        invariant
            i <= v@.len(),
            forall|j: int| 0 <= j < i ==> v@[j] != x,
        decreases v@.len() - i,
    {
        if v[i] == x {
            return true;
        }
        i += 1;
    }
    false
}

/// The weight of a slot lowered to `w`.
proof fn lemma_lower_slot(
    b: DatasetAccelerationBundle,
    tfo: Seq<u32>,
    ted: Seq<u32>,
    has_cost: Seq<bool>,
    flags: Seq<u32>,
    forbidden: Seq<Vec<u32>>,
    tw: Seq<u32>,
    n: int,
    up: bool,
    w: Seq<u32>,
    t0: int,
    k0: int,
    s0: int,
    v: u32,
)
    requires
        0 <= t0 < n,
        feeds(b, tfo, ted, has_cost, flags, forbidden, n, up, t0, k0, s0),
        0 <= s0 < w.len(),
        v == (if tw[k0] < w[s0] {
            tw[k0]
        } else {
            w[s0]
        }),
        forall|s: int|
            0 <= s < w.len() ==> #[trigger] w[s] == CCH_WEIGHT_INFINITY || exists|t: int, k: int|
                0 <= t < n && #[trigger] feeds(b, tfo, ted, has_cost, flags, forbidden, n, up, t, k, s) && w[s] == tw[k],
    ensures
        forall|s: int|
            0 <= s < w.len() ==> #[trigger] w.update(s0, v)[s] == CCH_WEIGHT_INFINITY || exists|t: int, k: int|
                0 <= t < n && #[trigger] feeds(b, tfo, ted, has_cost, flags, forbidden, n, up, t, k, s) && w.update(s0, v)[s]
                    == tw[k],
{
    let nw = w.update(s0, v);
    assert forall|s: int| 0 <= s < w.len() implies #[trigger] nw[s] == CCH_WEIGHT_INFINITY || exists|t: int, k: int|
        0 <= t < n && #[trigger] feeds(b, tfo, ted, has_cost, flags, forbidden, n, up, t, k, s) && nw[s] == tw[k] by {
        if s == s0 && tw[k0] < w[s0] {
            assert(feeds(b, tfo, ted, has_cost, flags, forbidden, n, up, t0, k0, s0) && nw[s] == tw[k0]);
        } else {
            assert(nw[s] == w[s]);
            if w[s] != CCH_WEIGHT_INFINITY {
                let (t, k) = choose|t: int, k: int|
                    0 <= t < n && #[trigger] feeds(b, tfo, ted, has_cost, flags, forbidden, n, up, t, k, s) && w[s] == tw[k];
                assert(feeds(b, tfo, ted, has_cost, flags, forbidden, n, up, t, k, s) && nw[s] == tw[k]);
            }
        }
    }
}

/// Every slot's weight is infinite or that of a transition feeding it.
#[verifier::opaque]
pub open spec fn weights_witnessed(
    b: DatasetAccelerationBundle,
    tfo: Seq<u32>,
    ted: Seq<u32>,
    has_cost: Seq<bool>,
    flags: Seq<u32>,
    forbidden: Seq<Vec<u32>>,
    tw: Seq<u32>,
    n: int,
    up: bool,
    w: Seq<u32>,
) -> bool {
    forall|s: int|
        0 <= s < w.len() ==> #[trigger] w[s] == CCH_WEIGHT_INFINITY || exists|t: int, k: int|
            0 <= t < n && #[trigger] feeds(b, tfo, ted, has_cost, flags, forbidden, n, up, t, k, s) && w[s] == tw[k]
}

/// The transitions of rows below `t`, and of row `t` below slot `k`, are
/// no lighter than the slots they feed.
#[verifier::opaque]
pub open spec fn weights_bounded(
    b: DatasetAccelerationBundle,
    tfo: Seq<u32>,
    ted: Seq<u32>,
    has_cost: Seq<bool>,
    flags: Seq<u32>,
    forbidden: Seq<Vec<u32>>,
    tw: Seq<u32>,
    n: int,
    up: bool,
    w: Seq<u32>,
    t: int,
    k: int,
) -> bool {
    forall|t2: int, k2: int, s: int|
        (0 <= t2 < t || (t2 == t && k2 < k)) && #[trigger] feeds(b, tfo, ted, has_cost, flags, forbidden, n, up, t2, k2, s)
            ==> w[s] <= tw[k2]
}

/// One more transition placed keeps the slots bounded.
proof fn lemma_bounded_step(
    b: DatasetAccelerationBundle,
    tfo: Seq<u32>,
    ted: Seq<u32>,
    has_cost: Seq<bool>,
    flags: Seq<u32>,
    forbidden: Seq<Vec<u32>>,
    tw: Seq<u32>,
    n: int,
    up: bool,
    w0: Seq<u32>,
    w1: Seq<u32>,
    t: int,
    k: int,
)
    requires
        weights_bounded(b, tfo, ted, has_cost, flags, forbidden, tw, n, up, w0, t, k),
        w1.len() == w0.len(),
        forall|s: int| 0 <= s < w0.len() ==> #[trigger] w1[s] <= w0[s],
        forall|s: int| #[trigger] feeds(b, tfo, ted, has_cost, flags, forbidden, n, up, t, k, s) ==> w1[s] <= tw[k],
        forall|t2: int, k2: int, s: int|
            #[trigger] feeds(b, tfo, ted, has_cost, flags, forbidden, n, up, t2, k2, s) && 0 <= t2 < n ==> 0 <= s < w0.len(),
        0 <= t < n,
    ensures
        weights_bounded(b, tfo, ted, has_cost, flags, forbidden, tw, n, up, w1, t, k + 1),
{
    reveal(weights_bounded);
    assert forall|t2: int, k2: int, s: int|
        (0 <= t2 < t || (t2 == t && k2 < k + 1)) && #[trigger] feeds(b, tfo, ted, has_cost, flags, forbidden, n, up, t2, k2, s)
            implies w1[s] <= tw[k2] by {
        if !(t2 == t && k2 == k) {
            assert(w0[s] <= tw[k2]);
        }
    }
}

/// Moving to the next row keeps the slots bounded.
proof fn lemma_bounded_row(
    b: DatasetAccelerationBundle,
    tfo: Seq<u32>,
    ted: Seq<u32>,
    has_cost: Seq<bool>,
    flags: Seq<u32>,
    forbidden: Seq<Vec<u32>>,
    tw: Seq<u32>,
    n: int,
    up: bool,
    w: Seq<u32>,
    t: int,
    k: int,
)
    requires
        weights_bounded(b, tfo, ted, has_cost, flags, forbidden, tw, n, up, w, t, k),
        k == tfo[t + 1],
    ensures
        weights_bounded(b, tfo, ted, has_cost, flags, forbidden, tw, n, up, w, t + 1, 0),
{
    reveal(weights_bounded);
    assert forall|t2: int, k2: int, s: int|
        (0 <= t2 < t + 1 || (t2 == t + 1 && k2 < 0)) && #[trigger] feeds(b, tfo, ted, has_cost, flags, forbidden, n, up, t2, k2, s)
            implies w[s] <= tw[k2] by {
        if t2 == t {
            assert(in_row(tfo, t2, k2));
        }
    }
}

/// At the start of a row nothing of the row is placed yet.
proof fn lemma_bounded_start(
    b: DatasetAccelerationBundle,
    tfo: Seq<u32>,
    ted: Seq<u32>,
    has_cost: Seq<bool>,
    flags: Seq<u32>,
    forbidden: Seq<Vec<u32>>,
    tw: Seq<u32>,
    n: int,
    up: bool,
    w: Seq<u32>,
    t: int,
)
    requires
        weights_bounded(b, tfo, ted, has_cost, flags, forbidden, tw, n, up, w, t, 0),
    ensures
        weights_bounded(b, tfo, ted, has_cost, flags, forbidden, tw, n, up, w, t, tfo[t] as int),
{
    reveal(weights_bounded);
    assert forall|t2: int, k2: int, s: int|
        (0 <= t2 < t || (t2 == t && k2 < tfo[t])) && #[trigger] feeds(b, tfo, ted, has_cost, flags, forbidden, n, up, t2, k2, s)
            implies w[s] <= tw[k2] by {
        if t2 == t {
            assert(in_row(tfo, t2, k2));
        }
    }
}

/// A fed slot is a slot of its rows.
proof fn lemma_feeds_in_range(
    b: DatasetAccelerationBundle,
    tfo: Seq<u32>,
    ted: Seq<u32>,
    has_cost: Seq<bool>,
    flags: Seq<u32>,
    forbidden: Seq<Vec<u32>>,
    n: int,
    up: bool,
)
    requires
        cch_shape(b, n),
    ensures
        forall|t2: int, k2: int, s: int|
            #[trigger] feeds(b, tfo, ted, has_cost, flags, forbidden, n, up, t2, k2, s) && 0 <= t2 < n ==> 0 <= s < (if up {
                b.upward_head@.len()
            } else {
                b.downward_head@.len()
            }),
{
    assert forall|t2: int, k2: int, s: int|
        #[trigger] feeds(b, tfo, ted, has_cost, flags, forbidden, n, up, t2, k2, s) && 0 <= t2 < n implies 0 <= s < (if up {
            b.upward_head@.len()
        } else {
            b.downward_head@.len()
        }) by {
        if up {
            assert(in_row(b.upward_first_out@, t2, s));
            lemma_offsets_rise(b.upward_first_out@, n, t2 + 1, n);
        } else {
            assert(in_row(b.downward_first_out@, t2, s));
            lemma_offsets_rise(b.downward_first_out@, n, t2 + 1, n);
        }
    }
}

/// Lowers the slot that transition `k` of row `t` feeds, if any.
fn place_transition(
    b: &DatasetAccelerationBundle,
    n: usize,
    transition_first_out: &Vec<u32>,
    transition_edges: &Vec<u32>,
    has_cost: &Vec<bool>,
    flags: &Vec<u32>,
    forbidden: &Vec<Vec<u32>>,
    transition_weight: &Vec<u32>,
    up: &mut Vec<u32>,
    down: &mut Vec<u32>,
    t: usize,
    k: usize,
)
    requires
        cch_shape(*b, n as int),
        transition_rows(transition_first_out@, transition_edges@, n as int),
        has_cost@.len() == n,
        flags@.len() == n,
        forbidden@.len() == n,
        transition_weight@.len() == transition_edges@.len(),
        t < n,
        transition_first_out@[t as int] <= k < transition_first_out@[t + 1],
        old(up)@.len() == b.upward_head@.len(),
        old(down)@.len() == b.downward_head@.len(),
        weights_witnessed(*b, transition_first_out@, transition_edges@, has_cost@, flags@, forbidden@, transition_weight@, n as int, true, old(up)@),
        weights_witnessed(*b, transition_first_out@, transition_edges@, has_cost@, flags@, forbidden@, transition_weight@, n as int, false, old(down)@),
    ensures
        final(up)@.len() == old(up)@.len(),
        final(down)@.len() == old(down)@.len(),
        forall|s: int| 0 <= s < old(up)@.len() ==> #[trigger] final(up)@[s] <= old(up)@[s],
        forall|s: int| 0 <= s < old(down)@.len() ==> #[trigger] final(down)@[s] <= old(down)@[s],
        forall|s: int|
            #[trigger] feeds(*b, transition_first_out@, transition_edges@, has_cost@, flags@, forbidden@, n as int, true, t as int, k as int, s)
                ==> final(up)@[s] <= transition_weight@[k as int],
        forall|s: int|
            #[trigger] feeds(*b, transition_first_out@, transition_edges@, has_cost@, flags@, forbidden@, n as int, false, t as int, k as int, s)
                ==> final(down)@[s] <= transition_weight@[k as int],
        weights_witnessed(*b, transition_first_out@, transition_edges@, has_cost@, flags@, forbidden@, transition_weight@, n as int, true, final(up)@),
        weights_witnessed(*b, transition_first_out@, transition_edges@, has_cost@, flags@, forbidden@, transition_weight@, n as int, false, final(down)@),
{
    let ghost tfo = transition_first_out@;
    let ghost ted = transition_edges@;
    let ghost tw = transition_weight@;
    let ghost ni = n as int;
    proof {
        reveal(weights_witnessed);
        assert(transition_first_out@[t + 1] <= transition_edges@.len());
    }
    let h = transition_edges[k];
    let hi = h as usize;
    let usable = has_cost[t] && flags[t] & EDGE_FLAG_TEMPORAL_MATERIALIZED_DIRECTION == 0 && hi != t && hi < n && has_cost[hi]
        && flags[hi] & EDGE_FLAG_TEMPORAL_MATERIALIZED_DIRECTION == 0 && !holds_u32(&forbidden[t], h);
    proof {
        assert(usable == transition_usable(tfo, ted, has_cost@, flags@, forbidden@, ni, t as int, k as int));
    }
    if !usable {
        return;
    }
    let weight = transition_weight[k];
    if b.edge_rank[t] < b.edge_rank[hi] {
        match find_slot(&b.upward_first_out, &b.upward_head, t, h, Ghost(ni)) {
            Some(slot) => {
                proof {
                    assert(feeds(*b, tfo, ted, has_cost@, flags@, forbidden@, ni, true, t as int, k as int, slot as int));
                    assert(in_row(b.upward_first_out@, t as int, slot as int));
                    lemma_offsets_rise(b.upward_first_out@, ni, t as int + 1, ni);
                }
                let cur = up[slot];
                let lowered = if weight < cur {
                    weight
                } else {
                    cur
                };
                proof {
                    lemma_lower_slot(*b, tfo, ted, has_cost@, flags@, forbidden@, tw, ni, true, up@, t as int, k as int, slot as int, lowered);
                }
                up.set(slot, lowered);
                proof {
                    reveal(weights_witnessed);
                    assert forall|s: int| #[trigger] feeds(*b, tfo, ted, has_cost@, flags@, forbidden@, ni, true, t as int, k as int, s) implies up@[s] <= tw[k as int] by {
                    }
                }
            },
            None => {},
        }
    } else {
        match find_slot(&b.downward_first_out, &b.downward_head, t, h, Ghost(ni)) {
            Some(slot) => {
                proof {
                    assert(feeds(*b, tfo, ted, has_cost@, flags@, forbidden@, ni, false, t as int, k as int, slot as int));
                    assert(in_row(b.downward_first_out@, t as int, slot as int));
                    lemma_offsets_rise(b.downward_first_out@, ni, t as int + 1, ni);
                }
                let cur = down[slot];
                let lowered = if weight < cur {
                    weight
                } else {
                    cur
                };
                proof {
                    lemma_lower_slot(*b, tfo, ted, has_cost@, flags@, forbidden@, tw, ni, false, down@, t as int, k as int, slot as int, lowered);
                }
                down.set(slot, lowered);
                proof {
                    reveal(weights_witnessed);
                    assert forall|s: int| #[trigger] feeds(*b, tfo, ted, has_cost@, flags@, forbidden@, ni, false, t as int, k as int, s) implies down@[s] <= tw[k as int] by {
                    }
                }
            },
            None => {},
        }
    }
}

/// The base weights of a hierarchy's arcs: each usable transition
/// `t -> h` lowers the weight of the arc `t -> h` in the upward rows when
/// `h` ranks above `t`, else in the downward rows, to the transition's
/// weight; arcs that no transition feeds stay infinite.
pub fn place_base_weights(
    b: &DatasetAccelerationBundle,
    n: usize,
    transition_first_out: &Vec<u32>,
    transition_edges: &Vec<u32>,
    has_cost: &Vec<bool>,
    flags: &Vec<u32>,
    forbidden: &Vec<Vec<u32>>,
    transition_weight: &Vec<u32>,
) -> (r: (Vec<u32>, Vec<u32>))
    requires
        cch_shape(*b, n as int),
        transition_rows(transition_first_out@, transition_edges@, n as int),
        has_cost@.len() == n,
        flags@.len() == n,
        forbidden@.len() == n,
        transition_weight@.len() == transition_edges@.len(),
    ensures
        base_weights(*b, transition_first_out@, transition_edges@, has_cost@, flags@, forbidden@, transition_weight@, n as int, true, r.0@),
        base_weights(*b, transition_first_out@, transition_edges@, has_cost@, flags@, forbidden@, transition_weight@, n as int, false, r.1@),
{
    let ghost tfo = transition_first_out@;
    let ghost ted = transition_edges@;
    let ghost tw = transition_weight@;
    let ghost ni = n as int;
    let mut up: Vec<u32> = Vec::new();
    let mut i: usize = 0;
    while i < b.upward_head.len()
        invariant
            i <= b.upward_head@.len(),
            up@.len() == i,
            forall|q: int| 0 <= q < i ==> up@[q] == CCH_WEIGHT_INFINITY,
        decreases b.upward_head@.len() - i,
    {
        up.push(CCH_WEIGHT_INFINITY);
        i += 1;
    }
    let mut down: Vec<u32> = Vec::new();
    let mut i: usize = 0;
    while i < b.downward_head.len()
        invariant
            i <= b.downward_head@.len(),
            down@.len() == i,
            forall|q: int| 0 <= q < i ==> down@[q] == CCH_WEIGHT_INFINITY,
        decreases b.downward_head@.len() - i,
    {
        down.push(CCH_WEIGHT_INFINITY);
        i += 1;
    }
    proof {
        reveal(weights_bounded);
        reveal(weights_witnessed);
    }
    let mut t: usize = 0;
    while t < n
        invariant
            cch_shape(*b, ni),
            ni == n,
            tfo == transition_first_out@,
            ted == transition_edges@,
            tw == transition_weight@,
            transition_rows(tfo, ted, ni),
            has_cost@.len() == n,
            flags@.len() == n,
            forbidden@.len() == n,
            tw.len() == ted.len(),
            t <= n,
            up@.len() == b.upward_head@.len(),
            down@.len() == b.downward_head@.len(),
            weights_bounded(*b, tfo, ted, has_cost@, flags@, forbidden@, tw, ni, true, up@, t as int, 0),
            weights_bounded(*b, tfo, ted, has_cost@, flags@, forbidden@, tw, ni, false, down@, t as int, 0),
            weights_witnessed(*b, tfo, ted, has_cost@, flags@, forbidden@, tw, ni, true, up@),
            weights_witnessed(*b, tfo, ted, has_cost@, flags@, forbidden@, tw, ni, false, down@),
        decreases n - t,
    {
        let start = transition_first_out[t] as usize;
        let end = transition_first_out[t + 1] as usize;
        let mut k = start;
        proof {
            lemma_bounded_start(*b, tfo, ted, has_cost@, flags@, forbidden@, tw, ni, true, up@, t as int);
            lemma_bounded_start(*b, tfo, ted, has_cost@, flags@, forbidden@, tw, ni, false, down@, t as int);
        }
        while k < end
            invariant
                cch_shape(*b, ni),
                ni == n,
                tfo == transition_first_out@,
                ted == transition_edges@,
                tw == transition_weight@,
                transition_rows(tfo, ted, ni),
                has_cost@.len() == n,
                flags@.len() == n,
                forbidden@.len() == n,
                tw.len() == ted.len(),
                t < n,
                start == tfo[t as int],
                end == tfo[t + 1],
                start <= k <= end,
                up@.len() == b.upward_head@.len(),
                down@.len() == b.downward_head@.len(),
                weights_bounded(*b, tfo, ted, has_cost@, flags@, forbidden@, tw, ni, true, up@, t as int, k as int),
                weights_bounded(*b, tfo, ted, has_cost@, flags@, forbidden@, tw, ni, false, down@, t as int, k as int),
                weights_witnessed(*b, tfo, ted, has_cost@, flags@, forbidden@, tw, ni, true, up@),
                weights_witnessed(*b, tfo, ted, has_cost@, flags@, forbidden@, tw, ni, false, down@),
            decreases end - k,
        {
            let ghost up0 = up@;
            let ghost down0 = down@;
            place_transition(b, n, transition_first_out, transition_edges, has_cost, flags, forbidden, transition_weight, &mut up, &mut down, t, k);
            proof {
                lemma_feeds_in_range(*b, tfo, ted, has_cost@, flags@, forbidden@, ni, true);
                lemma_feeds_in_range(*b, tfo, ted, has_cost@, flags@, forbidden@, ni, false);
                lemma_bounded_step(*b, tfo, ted, has_cost@, flags@, forbidden@, tw, ni, true, up0, up@, t as int, k as int);
                lemma_bounded_step(*b, tfo, ted, has_cost@, flags@, forbidden@, tw, ni, false, down0, down@, t as int, k as int);
            }
            k += 1;
        }
        proof {
            lemma_bounded_row(*b, tfo, ted, has_cost@, flags@, forbidden@, tw, ni, true, up@, t as int, k as int);
            lemma_bounded_row(*b, tfo, ted, has_cost@, flags@, forbidden@, tw, ni, false, down@, t as int, k as int);
        }
        t += 1;
    }
    proof {
        reveal(weights_bounded);
        reveal(weights_witnessed);
    }
    (up, down)
}


/// The number of slots that offsets declare: their last entry, or none.
pub open spec fn declared_slots(fo: Seq<u32>) -> int {
    if fo.len() == 0 {
        0
    } else {
        fo.last() as int
    }
}

/// The inputs of a compile fit `n` edge states.
pub open spec fn compile_inputs_fit(
    b: DatasetAccelerationBundle,
    n: int,
    tfo: Seq<u32>,
    ted: Seq<u32>,
    has_cost: Seq<bool>,
    flags: Seq<u32>,
    forbidden: Seq<Vec<u32>>,
    tw: Seq<u32>,
) -> bool {
    &&& n <= u32::MAX
    &&& cch_shape(b, n)
    &&& transition_rows(tfo, ted, n)
    &&& has_cost.len() == n
    &&& flags.len() == n
    &&& forbidden.len() == n
    &&& tw.len() == ted.len()
}

/// `count` infinite weights.
fn infinite_weights(count: usize) -> (r: Vec<u32>)
    ensures
        r@ == Seq::new(count as nat, |i: int| CCH_WEIGHT_INFINITY),
{
    let mut out: Vec<u32> = Vec::new();
    let mut i: usize = 0;
    while i < count
        invariant
            i <= count,
            out@ == Seq::new(i as nat, |q: int| CCH_WEIGHT_INFINITY),
        decreases count - i,
    {
        out.push(CCH_WEIGHT_INFINITY);
        proof {
            assert(out@ =~= Seq::new((i + 1) as nat, |q: int| CCH_WEIGHT_INFINITY));
        }
        i += 1;
    }
    out
}

/// Whether transition rows fit `n` edge states.
fn transition_rows_ok(tfo: &Vec<u32>, ted: &Vec<u32>, n: usize) -> (r: bool)
    ensures
        r == transition_rows(tfo@, ted@, n as int),
{
    if tfo.len() == 0 || tfo.len() - 1 != n {
        return false;
    }
    let mut t: usize = 0;
    while t < n
        invariant
            tfo@.len() == n + 1,
            t <= n,
            forall|q: int| 0 <= q < t ==> #[trigger] tfo@[q] <= tfo@[q + 1] && tfo@[q + 1] <= ted@.len(),
        decreases n - t,
    {
        if tfo[t] > tfo[t + 1] || tfo[t + 1] as usize > ted.len() {
            return false;
        }
        t += 1;
    }
    true
}

/// The bundle and transition rows have the lengths of `n` edge states.
pub open spec fn compile_lengths_match(b: DatasetAccelerationBundle, n: int, tfo: Seq<u32>) -> bool {
    &&& b.upward_first_out@.len() == n + 1
    &&& b.downward_first_out@.len() == n + 1
    &&& b.edge_rank@.len() == n
    &&& b.edge_order@.len() == n
    &&& tfo.len() == n + 1
}

/// The weights `(up, down)` of one metric: the base weights of the usable
/// transitions placed, then every lower triangle relaxed.
#[verifier::opaque]
pub open spec fn metric_weights(
    b: DatasetAccelerationBundle,
    n: int,
    tfo: Seq<u32>,
    ted: Seq<u32>,
    has_cost: Seq<bool>,
    flags: Seq<u32>,
    forbidden: Seq<Vec<u32>>,
    tw: Seq<u32>,
    up: Seq<u32>,
    down: Seq<u32>,
) -> bool {
    exists|u0: Seq<u32>, d0: Seq<u32>|
        base_weights(b, tfo, ted, has_cost, flags, forbidden, tw, n, true, u0) && base_weights(
            b,
            tfo,
            ted,
            has_cost,
            flags,
            forbidden,
            tw,
            n,
            false,
            d0,
        ) && (up, down) == #[trigger] customized(b, n, (u0, d0), n)
}

/// `count` infinite weights.
pub open spec fn all_infinite(count: int) -> Seq<u32> {
    Seq::new(count as nat, |i: int| CCH_WEIGHT_INFINITY)
}

/// The compiled arc weights of a hierarchy for one metric: the base
/// weights of the usable transitions placed, then every lower triangle
/// relaxed. A bundle whose row offsets, ranks or order, or transition rows
/// whose offsets, have other lengths than `n` edge states call for compiles
/// to infinite weights for every slot the bundle's offsets declare, which
/// the engine then refuses. A bundle of the right lengths is the hierarchy
/// that `build_with_order` made, with inputs of matching lengths.
pub fn compile_acceleration_weights(
    b: &DatasetAccelerationBundle,
    n: usize,
    transition_first_out: &Vec<u32>,
    transition_edges: &Vec<u32>,
    has_cost: &Vec<bool>,
    flags: &Vec<u32>,
    forbidden: &Vec<Vec<u32>>,
    transition_weight: &Vec<u32>,
) -> (r: (Vec<u32>, Vec<u32>))
    requires
        compile_lengths_match(*b, n as int, transition_first_out@) ==> compile_inputs_fit(
            *b,
            n as int,
            transition_first_out@,
            transition_edges@,
            has_cost@,
            flags@,
            forbidden@,
            transition_weight@,
        ),
    ensures
        compile_lengths_match(*b, n as int, transition_first_out@) ==> metric_weights(
            *b,
            n as int,
            transition_first_out@,
            transition_edges@,
            has_cost@,
            flags@,
            forbidden@,
            transition_weight@,
            r.0@,
            r.1@,
        ),
        !compile_lengths_match(*b, n as int, transition_first_out@) ==> r.0@ == all_infinite(
            declared_slots(b.upward_first_out@),
        ) && r.1@ == all_infinite(declared_slots(b.downward_first_out@)),
{
    let lengths = n < usize::MAX && b.upward_first_out.len() == n + 1 && b.downward_first_out.len() == n + 1 && b.edge_rank.len()
        == n && b.edge_order.len() == n && transition_first_out.len() == n + 1;
    if !lengths {
        let up_count: usize = if b.upward_first_out.len() == 0 {
            0
        } else {
            b.upward_first_out[b.upward_first_out.len() - 1] as usize
        };
        let down_count: usize = if b.downward_first_out.len() == 0 {
            0
        } else {
            b.downward_first_out[b.downward_first_out.len() - 1] as usize
        };
        return (infinite_weights(up_count), infinite_weights(down_count));
    }
    let (mut up, mut down) = place_base_weights(
        b,
        n,
        transition_first_out,
        transition_edges,
        has_cost,
        flags,
        forbidden,
        transition_weight,
    );
    let ghost u0 = up@;
    let ghost d0 = down@;
    customize_triangles(b, n, &mut up, &mut down);
    proof {
        assert(customized(*b, n as int, (u0, d0), n as int) == (up@, down@));
        reveal(metric_weights);
    }
    (up, down)
}

/// Some weight of a metric hit the overflow marker.
pub open spec fn metric_overflows(up: Seq<u32>, down: Seq<u32>) -> bool {
    up.contains(CCH_WEIGHT_OVERFLOW) || down.contains(CCH_WEIGHT_OVERFLOW)
}

fn holds_overflow(v: &Vec<u32>) -> (r: bool)
    ensures
        r == v@.contains(CCH_WEIGHT_OVERFLOW),
{
    let mut i: usize = 0;
    while i < v.len()
        invariant
            i <= v@.len(),
            forall|j: int| 0 <= j < i ==> v@[j] != CCH_WEIGHT_OVERFLOW,
        decreases v@.len() - i,
    {
        if v[i] == CCH_WEIGHT_OVERFLOW {
            return true;
        }
        i += 1;
    }
    false
}

/// The compiled acceleration of a profile over a hierarchy. The profile
/// cost, travel time and length of each transition come as encoded
/// weights, one per transition. When the bundle's lengths do not fit `n`
/// edge states, every cost weight is infinite, for every slot the bundle
/// declares, and the time and distance weights are empty: the engine
/// refuses such a bundle. Otherwise each metric is compiled as
/// `metric_weights` says, and a time or distance metric in which some
/// weight overflowed is left empty.
pub fn compile_acceleration(
    b: &DatasetAccelerationBundle,
    source_acceleration_bundle_id: CacheBundleId,
    n: usize,
    transition_first_out: &Vec<u32>,
    transition_edges: &Vec<u32>,
    has_cost: &Vec<bool>,
    flags: &Vec<u32>,
    forbidden: &Vec<Vec<u32>>,
    cost_weight: &Vec<u32>,
    time_weight: &Vec<u32>,
    distance_weight: &Vec<u32>,
) -> (r: CompiledAcceleration)
    requires
        compile_lengths_match(*b, n as int, transition_first_out@) ==> compile_inputs_fit(
            *b,
            n as int,
            transition_first_out@,
            transition_edges@,
            has_cost@,
            flags@,
            forbidden@,
            cost_weight@,
        ) && time_weight@.len() == transition_edges@.len() && distance_weight@.len() == transition_edges@.len(),
    ensures
        r.schema_version == COMPILED_ACCELERATION_SCHEMA_VERSION,
        r.source_acceleration_bundle_id == source_acceleration_bundle_id,
        r.algorithm@ == b.algorithm@,
        !compile_lengths_match(*b, n as int, transition_first_out@) ==> {
            &&& r.upward_weight@ == all_infinite(declared_slots(b.upward_first_out@))
            &&& r.downward_weight@ == all_infinite(declared_slots(b.downward_first_out@))
            &&& r.time_upward_weight@.len() == 0 && r.time_downward_weight@.len() == 0
            &&& r.distance_upward_weight@.len() == 0 && r.distance_downward_weight@.len() == 0
        },
        compile_lengths_match(*b, n as int, transition_first_out@) ==> {
            &&& metric_weights(
                *b,
                n as int,
                transition_first_out@,
                transition_edges@,
                has_cost@,
                flags@,
                forbidden@,
                cost_weight@,
                r.upward_weight@,
                r.downward_weight@,
            )
            &&& exists|tu: Seq<u32>, td: Seq<u32>|
                #[trigger] metric_weights(
                    *b,
                    n as int,
                    transition_first_out@,
                    transition_edges@,
                    has_cost@,
                    flags@,
                    forbidden@,
                    time_weight@,
                    tu,
                    td,
                ) && (r.time_upward_weight@, r.time_downward_weight@) == (if metric_overflows(tu, td) {
                    (Seq::<u32>::empty(), Seq::<u32>::empty())
                } else {
                    (tu, td)
                })
            &&& exists|du: Seq<u32>, dd: Seq<u32>|
                #[trigger] metric_weights(
                    *b,
                    n as int,
                    transition_first_out@,
                    transition_edges@,
                    has_cost@,
                    flags@,
                    forbidden@,
                    distance_weight@,
                    du,
                    dd,
                ) && (r.distance_upward_weight@, r.distance_downward_weight@) == (if metric_overflows(du, dd) {
                    (Seq::<u32>::empty(), Seq::<u32>::empty())
                } else {
                    (du, dd)
                })
        },
{
    let algorithm = b.algorithm.clone();
    let (upward_weight, downward_weight) = compile_acceleration_weights(
        b,
        n,
        transition_first_out,
        transition_edges,
        has_cost,
        flags,
        forbidden,
        cost_weight,
    );
    let lengths = n < usize::MAX && b.upward_first_out.len() == n + 1 && b.downward_first_out.len() == n + 1
        && b.edge_rank.len() == n && b.edge_order.len() == n && transition_first_out.len() == n + 1;
    if !lengths {
        proof {
            assert(b.upward_first_out@.len() == b.upward_first_out.len());
            assert(!compile_lengths_match(*b, n as int, transition_first_out@));
        }
        return CompiledAcceleration {
            schema_version: COMPILED_ACCELERATION_SCHEMA_VERSION,
            source_acceleration_bundle_id,
            algorithm,
            upward_weight,
            downward_weight,
            time_upward_weight: Vec::new(),
            time_downward_weight: Vec::new(),
            distance_upward_weight: Vec::new(),
            distance_downward_weight: Vec::new(),
        };
    }
    let (tu, td) = compile_acceleration_weights(
        b,
        n,
        transition_first_out,
        transition_edges,
        has_cost,
        flags,
        forbidden,
        time_weight,
    );
    let ghost (tu0, td0) = (tu@, td@);
    let (time_upward_weight, time_downward_weight) = if holds_overflow(&tu) || holds_overflow(&td) {
        (Vec::new(), Vec::new())
    } else {
        (tu, td)
    };
    let (du, dd) = compile_acceleration_weights(
        b,
        n,
        transition_first_out,
        transition_edges,
        has_cost,
        flags,
        forbidden,
        distance_weight,
    );
    let ghost (du0, dd0) = (du@, dd@);
    let (distance_upward_weight, distance_downward_weight) = if holds_overflow(&du) || holds_overflow(&dd) {
        (Vec::new(), Vec::new())
    } else {
        (du, dd)
    };
    let r = CompiledAcceleration {
        schema_version: COMPILED_ACCELERATION_SCHEMA_VERSION,
        source_acceleration_bundle_id,
        algorithm,
        upward_weight,
        downward_weight,
        time_upward_weight,
        time_downward_weight,
        distance_upward_weight,
        distance_downward_weight,
    };
    proof {
        assert(metric_weights(
            *b,
            n as int,
            transition_first_out@,
            transition_edges@,
            has_cost@,
            flags@,
            forbidden@,
            time_weight@,
            tu0,
            td0,
        ));
        assert(metric_weights(
            *b,
            n as int,
            transition_first_out@,
            transition_edges@,
            has_cost@,
            flags@,
            forbidden@,
            distance_weight@,
            du0,
            dd0,
        ));
    }
    r
}

/// Whether the inputs of a compile fit `n` edge states, as
/// `compile_inputs_fit` says.
pub fn compile_inputs_ok(
    b: &DatasetAccelerationBundle,
    n: usize,
    transition_first_out: &Vec<u32>,
    transition_edges: &Vec<u32>,
    has_cost: &Vec<bool>,
    flags: &Vec<u32>,
    forbidden: &Vec<Vec<u32>>,
    transition_weight: &Vec<u32>,
) -> (r: bool)
    ensures
        r == compile_inputs_fit(
            *b,
            n as int,
            transition_first_out@,
            transition_edges@,
            has_cost@,
            flags@,
            forbidden@,
            transition_weight@,
        ),
{
    n <= u32::MAX as usize && cch_shape_ok(b, n) && transition_rows_ok(transition_first_out, transition_edges, n)
        && has_cost.len() == n && flags.len() == n && forbidden.len() == n && transition_weight.len()
        == transition_edges.len()
}

proof fn lemma_described_heads(fo: Seq<u32>, heads: Seq<u32>, n: int, arcs: Set<(u32, u32)>)
    requires
        csr_describes(fo, heads, n, arcs),
        n >= 0,
        forall|a: (u32, u32)| #[trigger] arcs.contains(a) ==> is_proper_arc(a, n),
    ensures
        forall|i: int| 0 <= i < heads.len() ==> (#[trigger] heads[i] as int) < n,
{
    assert forall|i: int| 0 <= i < heads.len() implies (#[trigger] heads[i] as int) < n by {
        lemma_slot_tail(fo, n, i);
        let t = slot_tail(fo, n, i);
        assert(arcs.contains((t as u32, heads[i])));
    }
}

proof fn lemma_described_increasing(fo: Seq<u32>, heads: Seq<u32>, n: int, arcs: Set<(u32, u32)>)
    requires
        csr_describes(fo, heads, n, arcs),
    ensures
        forall|t: int, i: int, j: int|
            #![trigger in_row(fo, t, i), in_row(fo, t, j)]
            0 <= t < n && in_row(fo, t, i) && in_row(fo, t, j) && i < j ==> heads[i] < heads[j],
{
    assert forall|t: int, i: int, j: int|
        #![trigger in_row(fo, t, i), in_row(fo, t, j)]
        0 <= t < n && in_row(fo, t, i) && in_row(fo, t, j) && i < j implies heads[i] < heads[j] by {
        assert(fo[t] <= i < j < fo[t + 1]);
    }
}

proof fn lemma_described_toward(fo: Seq<u32>, heads: Seq<u32>, n: int, arcs: Set<(u32, u32)>, rank: Seq<u32>, up: bool)
    requires
        csr_describes(fo, heads, n, arcs),
        n <= u32::MAX,
        forall|a: (u32, u32)| #[trigger] arcs.contains(a) ==> (if up {
            rank[a.0 as int] < rank[a.1 as int]
        } else {
            rank[a.0 as int] > rank[a.1 as int]
        }),
    ensures
        rows_toward(fo, heads, rank, n, up),
{
    assert forall|t: int, i: int|
        #![trigger in_row(fo, t, i), heads[i]]
        0 <= t < n && in_row(fo, t, i) implies if up {
            rank[t] < rank[heads[i] as int]
        } else {
            rank[t] > rank[heads[i] as int]
        } by {
        assert(arcs.contains((t as u32, heads[i])));
        assert((t as u32) as int == t);
    }
}

proof fn lemma_described_rows(fo: Seq<u32>, heads: Seq<u32>, n: int, arcs: Set<(u32, u32)>, rank: Seq<u32>, up: bool)
    requires
        csr_describes(fo, heads, n, arcs),
        0 <= n <= u32::MAX,
        forall|a: (u32, u32)| #[trigger] arcs.contains(a) ==> is_proper_arc(a, n) && (if up {
            rank[a.0 as int] < rank[a.1 as int]
        } else {
            rank[a.0 as int] > rank[a.1 as int]
        }),
    ensures
        rows_ok(fo, heads, n),
        rows_toward(fo, heads, rank, n, up),
{
    lemma_described_heads(fo, heads, n, arcs);
    lemma_described_increasing(fo, heads, n, arcs);
    lemma_described_toward(fo, heads, n, arcs, rank, up);
}

/// Law: a hierarchy that `build_with_order` describes for an edge order
/// has the shape customization relies on: upward and downward rows of
/// `n + 1` offsets whose heads lie below `n` and strictly increase in each
/// row, upward arcs to higher and downward arcs to lower ranks, and ranks
/// that invert the order (so `edge_rank[edge_order[i]] == i`); its total
/// arc count is its base count plus its shortcut count.
pub proof fn lemma_built_hierarchy_shape(
    r: DatasetAccelerationBundle,
    fo: Seq<u32>,
    ed: Seq<u32>,
    order: Seq<u32>,
    n: int,
)
    requires
        arcs_of_order(r, fo, ed, order, n),
        is_edge_order(order, n),
        n <= u32::MAX,
        r.edge_order@ == order,
        r.edge_rank@ == ranks_of_order(order),
    ensures
        cch_shape(r, n),
        forall|i: int| 0 <= i < n ==> #[trigger] r.edge_rank@[r.edge_order@[i] as int] == i,
        r.stats.total_arc_count == r.stats.base_arc_count + r.stats.shortcut_arc_count,
{
    let rank = ranks_of_order(order);
    let s = choose|s: Set<(u32, u32)>|
        #[trigger] is_elimination_closure(s, fo, ed, rank, n) && r.stats.total_arc_count == s.len()
            && r.stats.base_arc_count == base_arcs_of(s, fo, ed, n).len() && r.stats.shortcut_arc_count == s.len()
            - base_arcs_of(s, fo, ed, n).len() && csr_describes(
            r.upward_first_out@,
            r.upward_head@,
            n,
            upward_arcs(s, rank),
        ) && csr_describes(r.downward_first_out@, r.downward_head@, n, downward_arcs(s, rank));
    lemma_ranks_of_edge_order(order, n);
    lemma_closure_proper(s, fo, ed, rank, n);
    assert forall|a: (u32, u32)| #[trigger] upward_arcs(s, rank).contains(a) implies is_proper_arc(a, n)
        && rank[a.0 as int] < rank[a.1 as int] by {
        assert(s.contains(a));
    }
    assert forall|a: (u32, u32)| #[trigger] downward_arcs(s, rank).contains(a) implies is_proper_arc(a, n)
        && rank[a.0 as int] > rank[a.1 as int] by {
        assert(s.contains(a));
        assert(order[rank[a.0 as int] as int] == a.0 && order[rank[a.1 as int] as int] == a.1);
    }
    lemma_described_rows(r.upward_first_out@, r.upward_head@, n, upward_arcs(s, rank), rank, true);
    lemma_described_rows(r.downward_first_out@, r.downward_head@, n, downward_arcs(s, rank), rank, false);
    assert(ranks_ok(order, rank, n));
}

proof fn lemma_slot_unique(fo: Seq<u32>, heads: Seq<u32>, n: int, t: int, a: int, c: int)
    requires
        rows_ok(fo, heads, n),
        0 <= t < n,
        in_row(fo, t, a),
        in_row(fo, t, c),
        heads[a] == heads[c],
    ensures
        a == c,
{
    if a < c {
        assert(heads[a] < heads[c]);
    } else if c < a {
        assert(heads[c] < heads[a]);
    }
}


proof fn lemma_triangle_weight(r: DatasetAccelerationBundle, n: int, up: Seq<u32>, down: Seq<u32>, x: int, i: int, j: int)
    requires
        cch_shape(r, n),
        0 <= x < n,
        in_row(r.downward_first_out@, x, i),
        r.downward_head@[i] < n,
        in_row(r.upward_first_out@, r.downward_head@[i] as int, j),
        x != r.upward_head@[j],
        triangle_holds(r, (up, down), r.downward_head@[i] as int, x, r.upward_head@[j] as int),
        r.edge_rank@[x] < r.edge_rank@[r.upward_head@[j] as int] ==> exists|k: int|
            r.upward_first_out@[x] <= k < r.upward_first_out@[x + 1] && #[trigger] r.upward_head@[k] == r.upward_head@[j],
        r.edge_rank@[x] > r.edge_rank@[r.upward_head@[j] as int] ==> exists|k: int|
            r.downward_first_out@[x] <= k < r.downward_first_out@[x + 1] && #[trigger] r.downward_head@[k]
                == r.upward_head@[j],
    ensures
        r.edge_rank@[x] < r.edge_rank@[r.upward_head@[j] as int] ==> exists|k: int|
            r.upward_first_out@[x] <= k < r.upward_first_out@[x + 1] && #[trigger] r.upward_head@[k] == r.upward_head@[j]
                && up[k] <= weight_sum(down[i], up[j]),
        r.edge_rank@[x] > r.edge_rank@[r.upward_head@[j] as int] ==> exists|k: int|
            r.downward_first_out@[x] <= k < r.downward_first_out@[x + 1] && #[trigger] r.downward_head@[k]
                == r.upward_head@[j] && down[k] <= weight_sum(down[i], up[j]),
{
    let rank = r.edge_rank@;
    let ufo = r.upward_first_out@;
    let uh = r.upward_head@;
    let dfo = r.downward_first_out@;
    let dh = r.downward_head@;
    let v = dh[i] as int;
    let y = uh[j] as int;
    assert(rank[x] > rank[v]);
    assert(rank[v] < rank[y]);
    let sxv = row_slot(dfo, dh, x, v);
    assert(sxv is Some);
    lemma_slot_unique(dfo, dh, n, x, sxv->0, i);
    let svy = row_slot(ufo, uh, v, y);
    assert(svy is Some);
    lemma_slot_unique(ufo, uh, n, v, svy->0, j);
    if rank[x] < rank[y] {
        let k0 = choose|k: int| ufo[x] <= k < ufo[x + 1] && #[trigger] uh[k] == uh[j];
        assert(in_row(ufo, x, k0));
        let c = row_slot(ufo, uh, x, y);
        assert(c is Some);
        assert(in_row(ufo, x, c->0) && uh[c->0] == uh[j]);
    } else if rank[x] > rank[y] {
        let k0 = choose|k: int| dfo[x] <= k < dfo[x + 1] && #[trigger] dh[k] == uh[j];
        assert(in_row(dfo, x, k0));
        let c = row_slot(dfo, dh, x, y);
        assert(c is Some);
        assert(in_row(dfo, x, c->0) && dh[c->0] == uh[j]);
    }
}


/// Every lower triangle of a metric's compiled weights obeys the triangle
/// inequality.
proof fn lemma_metric_triangles(
    r: DatasetAccelerationBundle,
    n: int,
    fo: Seq<u32>,
    ed: Seq<u32>,
    has_cost: Seq<bool>,
    flags: Seq<u32>,
    forbidden: Seq<Vec<u32>>,
    tw: Seq<u32>,
    up: Seq<u32>,
    down: Seq<u32>,
)
    requires
        cch_shape(r, n),
        metric_weights(r, n, fo, ed, has_cost, flags, forbidden, tw, up, down),
    ensures
        forall|v: int, x: int, y: int|
            0 <= v < n && 0 <= x < n && 0 <= y < n && r.edge_rank@[v] < n ==> #[trigger] triangle_holds(
                r,
                (up, down),
                v,
                x,
                y,
            ),
{
    reveal(metric_weights);
    let (u0, d0) = choose|u0: Seq<u32>, d0: Seq<u32>|
        base_weights(r, fo, ed, has_cost, flags, forbidden, tw, n, true, u0) && base_weights(
            r,
            fo,
            ed,
            has_cost,
            flags,
            forbidden,
            tw,
            n,
            false,
            d0,
        ) && (up, down) == #[trigger] customized(r, n, (u0, d0), n);
    lemma_customized_triangles(r, n, (u0, d0), n);
}

/// Law: compiled weights of a hierarchy that `build_with_order` describes
/// need no further search. For a downward arc `x -> v` (slot `i` of row
/// `x`) and an upward arc `v -> y` (slot `j` of row `v`) with `x != y`, the
/// hierarchy holds the arc `x -> y` (upward when `x` ranks below `y`,
/// downward otherwise) and its weight is at most the sum of the two.
#[verifier::spinoff_prover]
#[verifier::rlimit(60)]
pub proof fn lemma_compiled_triangles(
    r: DatasetAccelerationBundle,
    fo: Seq<u32>,
    ed: Seq<u32>,
    order: Seq<u32>,
    n: int,
    has_cost: Seq<bool>,
    flags: Seq<u32>,
    forbidden: Seq<Vec<u32>>,
    tw: Seq<u32>,
    up: Seq<u32>,
    down: Seq<u32>,
    x: int,
    i: int,
    j: int,
)
    requires
        arcs_of_order(r, fo, ed, order, n),
        is_edge_order(order, n),
        n <= u32::MAX,
        r.edge_order@ == order,
        r.edge_rank@ == ranks_of_order(order),
        metric_weights(r, n, fo, ed, has_cost, flags, forbidden, tw, up, down),
        0 <= x < n,
        r.downward_first_out@[x] <= i < r.downward_first_out@[x + 1],
        r.upward_first_out@[r.downward_head@[i] as int] <= j < r.upward_first_out@[r.downward_head@[i] + 1],
        x != r.upward_head@[j],
    ensures
        r.edge_rank@[x] < r.edge_rank@[r.upward_head@[j] as int] ==> exists|k: int|
            r.upward_first_out@[x] <= k < r.upward_first_out@[x + 1] && #[trigger] r.upward_head@[k] == r.upward_head@[j]
                && up[k] <= weight_sum(down[i], up[j]),
        r.edge_rank@[x] > r.edge_rank@[r.upward_head@[j] as int] ==> exists|k: int|
            r.downward_first_out@[x] <= k < r.downward_first_out@[x + 1] && #[trigger] r.downward_head@[k]
                == r.upward_head@[j] && down[k] <= weight_sum(down[i], up[j]),
{
    lemma_built_hierarchy_shape(r, fo, ed, order, n);
    let v = r.downward_head@[i] as int;
    let y = r.upward_head@[j] as int;
    assert(0 <= v < n) by {
        lemma_offsets_rise(r.downward_first_out@, n, x + 1, n);
        assert(i < r.downward_head@.len());
    }
    assert(triangle_holds(r, (up, down), v, x, y)) by {
        lemma_metric_triangles(r, n, fo, ed, has_cost, flags, forbidden, tw, up, down);
        assert(r.edge_rank@[v] < n);
        lemma_offsets_rise(r.upward_first_out@, n, v + 1, n);
        assert(j < r.upward_head@.len());
    }
    lemma_triangles_closed(r, fo, ed, order, n, x, i, j);
    lemma_triangle_weight(r, n, up, down, x, i, j);
}

} // verus!
