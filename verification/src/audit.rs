//! Auditing an imported dataset against its sources: the checks that
//! compare what the topology retained with what the source holds.

use vstd::prelude::*;

use std::collections::HashMap;

use crate::graph::{RoutingEdge, TopologyNode};
use crate::wkb::NAN_BITS;

verus! {

broadcast use {
    vstd::seq_lib::group_to_multiset_ensures,
    vstd::multiset::group_multiset_axioms,
    vstd::std_specs::hash::group_hash_axioms,
};

/// Most broken edge links that a report lists.
pub const MAX_REPORTED_LINK_DRIFTS: usize = 1000;

/// A field whose retained value differs from the source's.
#[derive(Debug, Clone, PartialEq, Eq)]
pub struct AttributeDrift {
    pub feature_id: i64,
    pub field: String,
    pub retained: Option<String>,
    pub source: Option<String>,
}

/// An edge whose attribute row belongs to another feature.
#[derive(Debug, Clone, Copy, PartialEq, Eq, Structural)]
pub struct EdgeAttributeLinkDrift {
    pub edge_id: u32,
    pub source_feature_id: i64,
    pub feature_row: u32,
    pub row_feature_id: Option<i64>,
}

/// The feature id of the attribute row an edge points at, if the row
/// exists.
pub open spec fn row_feature_id(e: RoutingEdge, row_ids: Seq<i64>) -> Option<i64> {
    if (e.feature_row as int) < row_ids.len() {
        Some(row_ids[e.feature_row as int])
    } else {
        None
    }
}

/// The broken links among the edges, in edge order.
pub open spec fn link_drifts(edges: Seq<RoutingEdge>, row_ids: Seq<i64>) -> Seq<EdgeAttributeLinkDrift>
    decreases edges.len(),
{
    if edges.len() == 0 {
        seq![]
    } else {
        let rest = link_drifts(edges.drop_last(), row_ids);
        let e = edges.last();
        if row_feature_id(e, row_ids) != Some(e.source_way_id) {
            rest.push(
                EdgeAttributeLinkDrift {
                    edge_id: e.edge_id.0,
                    source_feature_id: e.source_way_id,
                    feature_row: e.feature_row,
                    row_feature_id: row_feature_id(e, row_ids),
                },
            )
        } else {
            rest
        }
    }
}

proof fn lemma_link_drifts_len(edges: Seq<RoutingEdge>, row_ids: Seq<i64>)
    ensures
        link_drifts(edges, row_ids).len() <= edges.len(),
    decreases edges.len(),
{
    if edges.len() > 0 {
        lemma_link_drifts_len(edges.drop_last(), row_ids);
    }
}

/// Counts the edges whose attribute row is missing or holds another
/// feature than the edge's source feature, and lists the first
/// `MAX_REPORTED_LINK_DRIFTS` of them; `row_ids[r]` is the feature id of
/// attribute row `r`.
pub fn edge_attribute_link_drifts(edges: &Vec<RoutingEdge>, row_ids: &Vec<i64>) -> (r: (usize, Vec<EdgeAttributeLinkDrift>))
    ensures
        r.0 == link_drifts(edges@, row_ids@).len(),
        r.1@ == link_drifts(edges@, row_ids@).take(
            if r.0 < MAX_REPORTED_LINK_DRIFTS {
                r.0 as int
            } else {
                MAX_REPORTED_LINK_DRIFTS as int
            },
        ),
{
    let mut count: usize = 0;
    let mut drifts: Vec<EdgeAttributeLinkDrift> = Vec::new();
    let mut i: usize = 0;
    proof {
        assert(edges@.take(0) =~= Seq::<RoutingEdge>::empty());
    }
    while i < edges.len()
        invariant
            i <= edges@.len(),
            count == link_drifts(edges@.take(i as int), row_ids@).len(),
            count <= i,
            drifts@ == link_drifts(edges@.take(i as int), row_ids@).take(
                if count < MAX_REPORTED_LINK_DRIFTS {
                    count as int
                } else {
                    MAX_REPORTED_LINK_DRIFTS as int
                },
            ),
        decreases edges@.len() - i,
    {
        let e = edges[i];
        let ghost before = link_drifts(edges@.take(i as int), row_ids@);
        proof {
            assert(edges@.take(i + 1).drop_last() =~= edges@.take(i as int));
            lemma_link_drifts_len(edges@.take(i as int), row_ids@);
        }
        let found = if (e.feature_row as usize) < row_ids.len() {
            Some(row_ids[e.feature_row as usize])
        } else {
            None
        };
        let broken = match found {
            Some(id) => id != e.source_way_id,
            None => true,
        };
        if broken {
            let drift = EdgeAttributeLinkDrift {
                edge_id: e.edge_id.0,
                source_feature_id: e.source_way_id,
                feature_row: e.feature_row,
                row_feature_id: found,
            };
            if drifts.len() < MAX_REPORTED_LINK_DRIFTS {
                drifts.push(drift);
            }
            proof {
                let after = before.push(drift);
                assert(link_drifts(edges@.take(i + 1), row_ids@) == after);
                if count < MAX_REPORTED_LINK_DRIFTS {
                    assert(before.take(count as int) =~= before);
                    assert(after.take(count + 1) =~= after);
                } else {
                    assert(after.take(MAX_REPORTED_LINK_DRIFTS as int) =~= before.take(MAX_REPORTED_LINK_DRIFTS as int));
                }
            }
            count += 1;
        }
        i += 1;
    }
    proof {
        assert(edges@.take(edges@.len() as int) =~= edges@);
    }
    (count, drifts)
}

// ---------------------------------------------------------------------------
// Segment multisets.
// ---------------------------------------------------------------------------
/// Lexicographic order of segment keys `(feature, from x, y, z, to x, y,
/// z)`, strict.
pub open spec fn seg_lt(a: (i64, u64, u64, u64, u64, u64, u64), b: (i64, u64, u64, u64, u64, u64, u64)) -> bool {
    a.0 < b.0 || (a.0 == b.0 && (a.1 < b.1 || (a.1 == b.1 && (a.2 < b.2 || (a.2 == b.2 && (a.3 < b.3 || (a.3 == b.3
        && (a.4 < b.4 || (a.4 == b.4 && (a.5 < b.5 || (a.5 == b.5 && a.6 < b.6)))))))))))
}

pub open spec fn seg_le(a: (i64, u64, u64, u64, u64, u64, u64), b: (i64, u64, u64, u64, u64, u64, u64)) -> bool {
    seg_lt(a, b) || a == b
}

fn seg_less(a: &(i64, u64, u64, u64, u64, u64, u64), b: &(i64, u64, u64, u64, u64, u64, u64)) -> (r: bool)
    ensures
        r == seg_lt(*a, *b),
{
    if a.0 != b.0 {
        return a.0 < b.0;
    }
    if a.1 != b.1 {
        return a.1 < b.1;
    }
    if a.2 != b.2 {
        return a.2 < b.2;
    }
    if a.3 != b.3 {
        return a.3 < b.3;
    }
    if a.4 != b.4 {
        return a.4 < b.4;
    }
    if a.5 != b.5 {
        return a.5 < b.5;
    }
    a.6 < b.6
}

fn seg_same(a: &(i64, u64, u64, u64, u64, u64, u64), b: &(i64, u64, u64, u64, u64, u64, u64)) -> (r: bool)
    ensures
        r == (*a == *b),
{
    a.0 == b.0 && a.1 == b.1 && a.2 == b.2 && a.3 == b.3 && a.4 == b.4 && a.5 == b.5 && a.6 == b.6
}

/// Keys of the counted entries rise strictly.
pub open spec fn counts_sorted(m: Seq<((i64, u64, u64, u64, u64, u64, u64), usize)>) -> bool {
    forall|i: int, j: int| 0 <= i < j < m.len() ==> seg_lt(#[trigger] m[i].0, #[trigger] m[j].0)
}

/// How often `k` occurs according to counted entries.
pub open spec fn count_of(m: Seq<((i64, u64, u64, u64, u64, u64, u64), usize)>, k: (i64, u64, u64, u64, u64, u64, u64)) -> nat
    decreases m.len(),
{
    if m.len() == 0 {
        0
    } else if m.last().0 == k {
        m.last().1 as nat
    } else {
        count_of(m.drop_last(), k)
    }
}

/// `slice::sort_unstable` on segment keys: increasing in the
/// lexicographic order of tuples, each kept as often as it occurred.
#[verifier::external_body]
fn sort_segment_keys(keys: &mut Vec<(i64, u64, u64, u64, u64, u64, u64)>)
    ensures
        final(keys)@.to_multiset() == old(keys)@.to_multiset(),
        forall|i: int, j: int| 0 <= i < j < final(keys)@.len() ==> seg_le(#[trigger] final(keys)@[i], #[trigger] final(keys)@[j]),
{
    keys.sort_unstable();
}

proof fn lemma_seg_lt_trans(a: (i64, u64, u64, u64, u64, u64, u64), b: (i64, u64, u64, u64, u64, u64, u64), c: (i64, u64, u64, u64, u64, u64, u64))
    ensures
        seg_lt(a, b) && seg_lt(b, c) ==> seg_lt(a, c),
        seg_le(a, b) && seg_lt(b, c) ==> seg_lt(a, c),
        seg_lt(a, b) ==> !seg_le(b, a),
{
}

proof fn lemma_count_of_absent(m: Seq<((i64, u64, u64, u64, u64, u64, u64), usize)>, k: (i64, u64, u64, u64, u64, u64, u64))
    requires
        forall|i: int| 0 <= i < m.len() ==> (#[trigger] m[i]).0 != k,
    ensures
        count_of(m, k) == 0,
    decreases m.len(),
{
    if m.len() > 0 {
        let p = m.drop_last();
        assert forall|i: int| 0 <= i < p.len() implies (#[trigger] p[i]).0 != k by {
            assert(p[i] == m[i]);
        }
        lemma_count_of_absent(p, k);
        assert(m.last() == m[m.len() - 1]);
    }
}

proof fn lemma_count_of_at(m: Seq<((i64, u64, u64, u64, u64, u64, u64), usize)>, i: int)
    requires
        counts_sorted(m),
        0 <= i < m.len(),
    ensures
        count_of(m, m[i].0) == m[i].1,
    decreases m.len(),
{
    let p = m.drop_last();
    assert(counts_sorted(p)) by {
        assert forall|a: int, b: int| 0 <= a < b < p.len() implies seg_lt(#[trigger] p[a].0, #[trigger] p[b].0) by {
            assert(p[a] == m[a] && p[b] == m[b]);
        }
    }
    if i < m.len() - 1 {
        assert(seg_lt(m[i].0, m[m.len() - 1].0));
        assert(m.last() == m[m.len() - 1]);
        assert(p[i] == m[i]);
        lemma_count_of_at(p, i);
    } else {
        assert(m.last() == m[i]);
    }
}

/// Counts each segment of a sorted-then-grouped list: distinct keys in
/// increasing order, each with how often it occurs.
pub fn segment_multiset(segments: &Vec<(i64, u64, u64, u64, u64, u64, u64)>) -> (r: Vec<((i64, u64, u64, u64, u64, u64, u64), usize)>)
    ensures
        counts_sorted(r@),
        forall|i: int| 0 <= i < r@.len() ==> (#[trigger] r@[i]).1 > 0,
        forall|k: (i64, u64, u64, u64, u64, u64, u64)| #[trigger] count_of(r@, k) == segments@.to_multiset().count(k),
{
    let mut keys = copy_keys(segments);
    sort_segment_keys(&mut keys);
    let ghost sorted = keys@;
    let mut out: Vec<((i64, u64, u64, u64, u64, u64, u64), usize)> = Vec::new();
    let mut i: usize = 0;
    proof {
        assert(sorted.take(0).to_multiset() =~= vstd::multiset::Multiset::empty());
    }
    while i < keys.len()
        invariant
            sorted == keys@,
            i <= keys@.len(),
            forall|a: int, b: int| 0 <= a < b < sorted.len() ==> seg_le(#[trigger] sorted[a], #[trigger] sorted[b]),
            counts_sorted(out@),
            forall|q: int| 0 <= q < out@.len() ==> (#[trigger] out@[q]).1 > 0 && out@[q].1 <= i,
            i > 0 ==> out@.len() > 0 && out@.last().0 == sorted[i - 1],
            i == 0 ==> out@.len() == 0,
            forall|k: (i64, u64, u64, u64, u64, u64, u64)| #[trigger] count_of(out@, k) == sorted.take(i as int).to_multiset().count(k),
            forall|q: int| 0 <= q < out@.len() ==> seg_le((#[trigger] out@[q]).0, out@.last().0),
            out@.len() <= i,
        decreases keys@.len() - i,
    {
        let k = keys[i];
        let ghost prev = out@;
        proof {
            assert(sorted.take(i + 1) =~= sorted.take(i as int).push(k));
            assert(sorted.take(i + 1).to_multiset() =~= sorted.take(i as int).to_multiset().insert(k));
        }
        let n = out.len();
        if n > 0 && seg_same(&out[n - 1].0, &k) {
            let c = out[n - 1].1;
            proof {
                assert(c <= i);
            }
            out.set(n - 1, (k, c + 1));
            proof {
                assert(out@.drop_last() =~= prev.drop_last());
                assert forall|x: (i64, u64, u64, u64, u64, u64, u64)| #[trigger] count_of(out@, x) == sorted.take(i + 1).to_multiset().count(x) by {
                    assert(out@.last() == (k, (c + 1) as usize));
                    assert(prev.last().0 == k);
                    if x != k {
                        assert(count_of(out@, x) == count_of(prev.drop_last(), x));
                        assert(count_of(prev, x) == count_of(prev.drop_last(), x));
                    } else {
                        assert(count_of(prev, k) == c);
                        assert(count_of(out@, k) == c + 1);
                        assert(sorted.take(i as int).to_multiset().count(k) == c);
                    }
                }
                assert forall|a: int, b: int| 0 <= a < b < out@.len() implies seg_lt(#[trigger] out@[a].0, #[trigger] out@[b].0) by {
                    assert(out@[a].0 == prev[a].0 && out@[b].0 == prev[b].0);
                }
                assert forall|q: int| 0 <= q < out@.len() implies seg_le((#[trigger] out@[q]).0, out@.last().0) by {
                    assert(out@[q].0 == prev[q].0);
                }
                assert forall|q: int| 0 <= q < out@.len() implies (#[trigger] out@[q]).1 > 0 && out@[q].1 <= i + 1 by {
                    if q < n - 1 {
                        assert(out@[q] == prev[q]);
                    }
                }
            }
        } else {
            proof {
                if n > 0 {
                    assert(seg_le(sorted[i - 1], k));
                    assert(seg_lt(prev.last().0, k));
                }
                assert forall|q: int| 0 <= q < prev.len() implies (#[trigger] prev[q]).0 != k by {
                    assert(seg_le(prev[q].0, prev.last().0));
                    lemma_seg_lt_trans(prev[q].0, prev.last().0, k);
                }
                lemma_count_of_absent(prev, k);
            }
            out.push((k, 1));
            proof {
                assert(out@.drop_last() =~= prev);
                assert forall|a: int, b: int| 0 <= a < b < out@.len() implies seg_lt(#[trigger] out@[a].0, #[trigger] out@[b].0) by {
                    if b == out@.len() - 1 {
                        assert(out@[a] == prev[a]);
                        assert(seg_le(prev[a].0, prev.last().0));
                        lemma_seg_lt_trans(prev[a].0, prev.last().0, k);
                    } else {
                        assert(out@[a] == prev[a] && out@[b] == prev[b]);
                    }
                }
                assert forall|q: int| 0 <= q < out@.len() implies (#[trigger] out@[q]).1 > 0 && out@[q].1 <= i + 1 by {
                    if q < prev.len() {
                        assert(out@[q] == prev[q]);
                    }
                }
                assert forall|x: (i64, u64, u64, u64, u64, u64, u64)| #[trigger] count_of(out@, x) == sorted.take(i + 1).to_multiset().count(x) by {
                    if x != k {
                        assert(count_of(out@, x) == count_of(prev, x));
                    }
                }
                assert forall|q: int| 0 <= q < out@.len() implies seg_le((#[trigger] out@[q]).0, out@.last().0) by {
                    if q < prev.len() {
                        assert(out@[q] == prev[q]);
                        assert(seg_le(prev[q].0, prev.last().0));
                        lemma_seg_lt_trans(prev[q].0, prev.last().0, k);
                    }
                }
            }
        }
        i += 1;
    }
    proof {
        assert(sorted.take(sorted.len() as int) =~= sorted);
        assert(sorted.to_multiset() == segments@.to_multiset());
    }
    out
}

fn copy_keys(keys: &Vec<(i64, u64, u64, u64, u64, u64, u64)>) -> (r: Vec<(i64, u64, u64, u64, u64, u64, u64)>)
    ensures
        r@ == keys@,
{
    let mut out: Vec<(i64, u64, u64, u64, u64, u64, u64)> = Vec::new();
    let mut i: usize = 0;
    while i < keys.len()
        invariant
            i <= keys@.len(),
            out@ == keys@.take(i as int),
        decreases keys@.len() - i,
    {
        out.push(keys[i]);
        proof {
            assert(keys@.take(i + 1) =~= keys@.take(i as int).push(keys@[i as int]));
        }
        i += 1;
    }
    proof {
        assert(keys@.take(keys@.len() as int) =~= keys@);
    }
    out
}

/// How many more times than `b` allows `a` occurs.
pub open spec fn excess(a: usize, b: nat) -> nat {
    if a >= b {
        (a - b) as nat
    } else {
        0
    }
}

/// The number of occurrences in `left` that `right` does not match: the
/// size of the multiset difference.
pub open spec fn difference_total(
    left: Seq<((i64, u64, u64, u64, u64, u64, u64), usize)>,
    right: Seq<((i64, u64, u64, u64, u64, u64, u64), usize)>,
) -> nat
    decreases left.len(),
{
    if left.len() == 0 {
        0
    } else {
        difference_total(left.drop_last(), right) + excess(left.last().1, count_of(right, left.last().0))
    }
}

fn count_in(m: &Vec<((i64, u64, u64, u64, u64, u64, u64), usize)>, k: &(i64, u64, u64, u64, u64, u64, u64)) -> (r: usize)
    requires
        counts_sorted(m@),
    ensures
        r == count_of(m@, *k),
{
    let mut lo: usize = 0;
    let mut hi: usize = m.len();
    while lo < hi
        invariant
            counts_sorted(m@),
            0 <= lo <= hi <= m@.len(),
            forall|q: int| 0 <= q < lo ==> seg_lt(#[trigger] m@[q].0, *k),
            forall|q: int| hi <= q < m@.len() ==> seg_lt(*k, #[trigger] m@[q].0),
        decreases hi - lo,
    {
        let mid = lo + (hi - lo) / 2;
        if seg_same(&m[mid].0, k) {
            proof {
                lemma_count_of_at(m@, mid as int);
            }
            return m[mid].1;
        } else if seg_less(&m[mid].0, k) {
            proof {
                assert forall|q: int| 0 <= q < mid + 1 implies seg_lt(#[trigger] m@[q].0, *k) by {
                    if q < mid {
                        lemma_seg_lt_trans(m@[q].0, m@[mid as int].0, *k);
                    }
                }
            }
            lo = mid + 1;
        } else {
            proof {
                assert forall|q: int| mid <= q < m@.len() implies seg_lt(*k, #[trigger] m@[q].0) by {
                    if q > mid {
                        lemma_seg_lt_trans(*k, m@[mid as int].0, m@[q].0);
                    }
                }
            }
            hi = mid;
        }
    }
    proof {
        assert forall|q: int| 0 <= q < m@.len() implies (#[trigger] m@[q]).0 != *k by {
            if q < lo {
                assert(seg_lt(m@[q].0, *k));
            } else {
                assert(seg_lt(*k, m@[q].0));
            }
        }
        lemma_count_of_absent(m@, *k);
    }
    0
}

/// The size of the multiset difference `left - right` of two counted
/// segment lists: for each key, how many more times `left` holds it.
pub fn multiset_difference_count(
    left: &Vec<((i64, u64, u64, u64, u64, u64, u64), usize)>,
    right: &Vec<((i64, u64, u64, u64, u64, u64, u64), usize)>,
) -> (r: usize)
    requires
        counts_sorted(right@),
        difference_total(left@, right@) <= usize::MAX,
    ensures
        r == difference_total(left@, right@),
{
    let mut total: usize = 0;
    let mut i: usize = 0;
    proof {
        assert(left@.take(0) =~= Seq::<((i64, u64, u64, u64, u64, u64, u64), usize)>::empty());
    }
    while i < left.len()
        invariant
            counts_sorted(right@),
            difference_total(left@, right@) <= usize::MAX,
            i <= left@.len(),
            total == difference_total(left@.take(i as int), right@),
        decreases left@.len() - i,
    {
        let entry = &left[i];
        let have = count_in(right, &entry.0);
        let more: usize = if entry.1 >= have {
            entry.1 - have
        } else {
            0
        };
        proof {
            assert(left@.take(i + 1).drop_last() =~= left@.take(i as int));
            lemma_difference_total_prefix(left@, right@, i + 1);
        }
        total = total + more;
        i += 1;
    }
    proof {
        assert(left@.take(left@.len() as int) =~= left@);
    }
    total
}

proof fn lemma_difference_total_prefix(
    left: Seq<((i64, u64, u64, u64, u64, u64, u64), usize)>,
    right: Seq<((i64, u64, u64, u64, u64, u64, u64), usize)>,
    k: int,
)
    requires
        0 <= k <= left.len(),
    ensures
        difference_total(left.take(k), right) <= difference_total(left, right),
    decreases left.len() - k,
{
    if k < left.len() {
        lemma_difference_total_prefix(left, right, k + 1);
        assert(left.take(k + 1).drop_last() =~= left.take(k));
    } else {
        assert(left.take(k) =~= left);
    }
}

/// Law: a counted segment list has no occurrence that it does not match
/// itself, so an audit of identical geometry reports no missing and no
/// unexpected segments.
pub proof fn lemma_no_difference_from_itself(m: Seq<((i64, u64, u64, u64, u64, u64, u64), usize)>)
    requires
        counts_sorted(m),
    ensures
        difference_total(m, m) == 0,
{
    lemma_prefix_within(m, m.len() as int);
    assert(m.take(m.len() as int) =~= m);
}

proof fn lemma_prefix_within(m: Seq<((i64, u64, u64, u64, u64, u64, u64), usize)>, k: int)
    requires
        counts_sorted(m),
        0 <= k <= m.len(),
    ensures
        difference_total(m.take(k), m) == 0,
    decreases k,
{
    if k > 0 {
        lemma_prefix_within(m, k - 1);
        assert(m.take(k).drop_last() =~= m.take(k - 1));
        assert(m.take(k).last() == m[k - 1]);
        lemma_count_of_at(m, k - 1);
    }
}

// ---------------------------------------------------------------------------
// The retained geometry of each feature.
// ---------------------------------------------------------------------------
/// Whether `bits` is the pattern of a NaN.
pub open spec fn is_nan_bits(bits: u64) -> bool {
    bits & 0x7ff0_0000_0000_0000 == 0x7ff0_0000_0000_0000 && bits & 0x000f_ffff_ffff_ffff != 0
}

/// A coordinate's bits, with every NaN written as `f64::NAN`.
pub open spec fn coordinate_key(bits: u64) -> u64 {
    if is_nan_bits(bits) {
        NAN_BITS
    } else {
        bits
    }
}

fn coordinate_bits(bits: u64) -> (r: u64)
    ensures
        r == coordinate_key(bits),
{
    if bits & 0x7ff0_0000_0000_0000 == 0x7ff0_0000_0000_0000 && bits & 0x000f_ffff_ffff_ffff != 0 {
        NAN_BITS
    } else {
        bits
    }
}

/// The direction in which feature `f` is read: forward if any of its
/// edges follows the source geometry, else that of its first edge.
pub open spec fn selected_direction(edges: Seq<RoutingEdge>, f: i64) -> Option<i8>
    decreases edges.len(),
{
    if edges.len() == 0 {
        None
    } else {
        let prev = selected_direction(edges.drop_last(), f);
        let e = edges.last();
        if e.source_way_id != f {
            prev
        } else {
            match prev {
                None => Some(e.source_direction),
                Some(d) => if e.source_direction == 1 {
                    Some(1i8)
                } else {
                    Some(d)
                },
            }
        }
    }
}

/// Edge `i` runs in its feature's selected direction.
pub open spec fn is_chosen(edges: Seq<RoutingEdge>, i: int) -> bool {
    selected_direction(edges, edges[i].source_way_id) == Some(edges[i].source_direction)
}

/// The segment of an edge in source orientation.
pub open spec fn segment_key(nodes: Seq<TopologyNode>, e: RoutingEdge) -> (i64, u64, u64, u64, u64, u64, u64) {
    let (a, b) = if e.source_direction < 0 {
        (nodes[e.to.0 as int], nodes[e.from.0 as int])
    } else {
        (nodes[e.from.0 as int], nodes[e.to.0 as int])
    };
    (
        e.source_way_id,
        coordinate_key(a.lon),
        coordinate_key(a.lat),
        coordinate_key(a.z),
        coordinate_key(b.lon),
        coordinate_key(b.lat),
        coordinate_key(b.z),
    )
}

/// Edge `i` comes before edge `j` by edge id, then by position.
pub open spec fn edge_before(edges: Seq<RoutingEdge>, i: int, j: int) -> bool {
    edges[i].edge_id.0 < edges[j].edge_id.0 || (edges[i].edge_id.0 == edges[j].edge_id.0 && i < j)
}

/// `q` lists the chosen edges of feature `f`, ordered by edge id then
/// position, and `keys` their segments.
pub open spec fn lists_feature(
    edges: Seq<RoutingEdge>,
    nodes: Seq<TopologyNode>,
    f: i64,
    keys: Seq<(i64, u64, u64, u64, u64, u64, u64)>,
    q: Seq<int>,
) -> bool {
    &&& q.len() == keys.len()
    &&& forall|k: int|
        0 <= k < q.len() ==> 0 <= #[trigger] q[k] < edges.len() && edges[q[k]].source_way_id == f && is_chosen(
            edges,
            q[k],
        ) && keys[k] == segment_key(nodes, edges[q[k]])
    &&& forall|k: int, l: int| 0 <= k < l < q.len() ==> edge_before(edges, #[trigger] q[k], #[trigger] q[l])
    &&& forall|i: int|
        0 <= i < edges.len() && edges[i].source_way_id == f && #[trigger] is_chosen(edges, i) ==> q.contains(i)
}

/// The chosen edges as `(feature, edge id, position)`, in position order.
pub open spec fn chosen_triples(edges: Seq<RoutingEdge>, k: int) -> Seq<(i64, u32, u64)>
    decreases k,
{
    if k <= 0 {
        seq![]
    } else {
        let prev = chosen_triples(edges, k - 1);
        if is_chosen(edges, k - 1) {
            prev.push((edges[k - 1].source_way_id, edges[k - 1].edge_id.0, (k - 1) as u64))
        } else {
            prev
        }
    }
}

pub open spec fn triple_le(a: (i64, u32, u64), b: (i64, u32, u64)) -> bool {
    a.0 < b.0 || (a.0 == b.0 && (a.1 < b.1 || (a.1 == b.1 && a.2 <= b.2)))
}

/// `slice::sort_unstable` on `(feature, edge id, position)` triples:
/// increasing lexicographically, each kept as often as it occurred.
#[verifier::external_body]
fn sort_triples(triples: &mut Vec<(i64, u32, u64)>)
    ensures
        final(triples)@.to_multiset() == old(triples)@.to_multiset(),
        forall|i: int, j: int| 0 <= i < j < final(triples)@.len() ==> triple_le(#[trigger] final(triples)@[i], #[trigger] final(triples)@[j]),
{
    triples.sort_unstable();
}

fn selected_directions(edges: &Vec<RoutingEdge>) -> (m: HashMap<i64, i8>)
    ensures
        forall|f: i64|
            #![trigger selected_direction(edges@, f)]
            (m@.contains_key(f) <==> selected_direction(edges@, f) is Some) && (m@.contains_key(f)
                ==> selected_direction(edges@, f) == Some(m@[f])),
{
    let mut m: HashMap<i64, i8> = HashMap::new();
    let mut i: usize = 0;
    proof {
        assert(edges@.take(0) =~= Seq::<RoutingEdge>::empty());
    }
    while i < edges.len()
        invariant
            i <= edges@.len(),
            forall|f: i64|
                #![trigger selected_direction(edges@.take(i as int), f)]
                (m@.contains_key(f) <==> selected_direction(edges@.take(i as int), f) is Some) && (m@.contains_key(f)
                    ==> selected_direction(edges@.take(i as int), f) == Some(m@[f])),
        decreases edges@.len() - i,
    {
        let e = edges[i];
        proof {
            assert(edges@.take(i + 1).drop_last() =~= edges@.take(i as int));
        }
        match m.get(&e.source_way_id) {
            None => {
                m.insert(e.source_way_id, e.source_direction);
            },
            Some(_) => {
                if e.source_direction == 1 {
                    m.insert(e.source_way_id, 1);
                }
            },
        }
        proof {
            assert forall|f: i64| #![trigger selected_direction(edges@.take(i + 1), f)]
                (m@.contains_key(f) <==> selected_direction(edges@.take(i + 1), f) is Some) && (m@.contains_key(f)
                    ==> selected_direction(edges@.take(i + 1), f) == Some(m@[f])) by {
                assert(selected_direction(edges@.take(i + 1), f) == {
                    let prev = selected_direction(edges@.take(i as int), f);
                    if e.source_way_id != f {
                        prev
                    } else {
                        match prev {
                            None => Some(e.source_direction),
                            Some(d) => if e.source_direction == 1 {
                                Some(1i8)
                            } else {
                                Some(d)
                            },
                        }
                    }
                });
            }
        }
        i += 1;
    }
    proof {
        assert(edges@.take(edges@.len() as int) =~= edges@);
    }
    m
}

proof fn lemma_selected_some(edges: Seq<RoutingEdge>, f: i64, i: int)
    requires
        0 <= i < edges.len(),
        edges[i].source_way_id == f,
    ensures
        selected_direction(edges, f) is Some,
    decreases edges.len(),
{
    if i < edges.len() - 1 {
        assert(edges.drop_last()[i] == edges[i]);
        lemma_selected_some(edges.drop_last(), f, i);
    }
}

proof fn lemma_selected_from_edge(edges: Seq<RoutingEdge>, f: i64)
    ensures
        selected_direction(edges, f) matches Some(d) ==> exists|i: int|
            0 <= i < edges.len() && edges[i].source_way_id == f && #[trigger] edges[i].source_direction == d,
    decreases edges.len(),
{
    if edges.len() > 0 {
        let p = edges.drop_last();
        lemma_selected_from_edge(p, f);
        let e = edges.last();
        assert(e == edges[edges.len() - 1]);
        match selected_direction(p, f) {
            Some(d) => {
                let i = choose|i: int| 0 <= i < p.len() && p[i].source_way_id == f && #[trigger] p[i].source_direction == d;
                assert(edges[i] == p[i]);
            },
            None => {},
        }
    }
}

proof fn lemma_chosen_triples(edges: Seq<RoutingEdge>, k: int)
    requires
        0 <= k <= edges.len(),
        edges.len() <= u64::MAX,
    ensures
        forall|x: int|
            0 <= x < chosen_triples(edges, k).len() ==> {
                let t = #[trigger] chosen_triples(edges, k)[x];
                &&& (t.2 as int) < k
                &&& t.0 == edges[t.2 as int].source_way_id
                &&& t.1 == edges[t.2 as int].edge_id.0
                &&& is_chosen(edges, t.2 as int)
            },
        forall|x: int, y: int|
            0 <= x < y < chosen_triples(edges, k).len() ==> #[trigger] chosen_triples(edges, k)[x].2
                < #[trigger] chosen_triples(edges, k)[y].2,
        forall|i: int|
            0 <= i < k && #[trigger] is_chosen(edges, i) ==> chosen_triples(edges, k).contains(
                (edges[i].source_way_id, edges[i].edge_id.0, i as u64),
            ),
    decreases k,
{
    if k > 0 {
        lemma_chosen_triples(edges, k - 1);
        let prev = chosen_triples(edges, k - 1);
        let cur = chosen_triples(edges, k);
        if is_chosen(edges, k - 1) {
            let t = (edges[k - 1].source_way_id, edges[k - 1].edge_id.0, (k - 1) as u64);
            assert(cur == prev.push(t));
            assert forall|i: int| 0 <= i < k && #[trigger] is_chosen(edges, i) implies cur.contains(
                (edges[i].source_way_id, edges[i].edge_id.0, i as u64),
            ) by {
                if i < k - 1 {
                    let x = choose|x: int| 0 <= x < prev.len() && prev[x] == (edges[i].source_way_id, edges[i].edge_id.0, i as u64);
                    assert(cur[x] == prev[x]);
                } else {
                    assert(cur[cur.len() - 1] == t);
                }
            }
            assert forall|x: int| 0 <= x < cur.len() implies {
                let t = #[trigger] cur[x];
                &&& (t.2 as int) < k
                &&& t.0 == edges[t.2 as int].source_way_id
                &&& t.1 == edges[t.2 as int].edge_id.0
                &&& is_chosen(edges, t.2 as int)
            } by {
                if x < prev.len() {
                    assert(cur[x] == prev[x]);
                }
            }
            assert forall|x: int, y: int| 0 <= x < y < cur.len() implies #[trigger] cur[x].2 < #[trigger] cur[y].2 by {
                if y == cur.len() - 1 {
                    assert(cur[x] == prev[x]);
                    assert((prev[x].2 as int) < k - 1);
                } else {
                    assert(cur[x] == prev[x] && cur[y] == prev[y]);
                }
            }
        }
    }
}

/// Position `x` lies in one of the ranges.
pub open spec fn covered(ranges: Seq<(int, int)>, x: int) -> bool {
    exists|a: int| 0 <= a < ranges.len() && #[trigger] ranges[a].0 <= x < ranges[a].1
}

/// Some edge belongs to feature `f`.
pub open spec fn has_feature_edge(edges: Seq<RoutingEdge>, f: i64) -> bool {
    exists|i: int| 0 <= i < edges.len() && #[trigger] edges[i].source_way_id == f
}

/// Some entry of the geometry is for feature `f`.
pub open spec fn has_feature_entry(r: Seq<(i64, Vec<(i64, u64, u64, u64, u64, u64, u64)>)>, f: i64) -> bool {
    exists|a: int| 0 <= a < r.len() && #[trigger] r[a].0 == f
}

/// Entry `a` of the geometry lists the segments of its feature.
pub open spec fn entry_lists_feature(
    edges: Seq<RoutingEdge>,
    nodes: Seq<TopologyNode>,
    r: Seq<(i64, Vec<(i64, u64, u64, u64, u64, u64, u64)>)>,
    a: int,
) -> bool {
    exists|q: Seq<int>| #[trigger] lists_feature(edges, nodes, r[a].0, r[a].1@, q)
}

fn segment_of(nodes: &Vec<TopologyNode>, e: &RoutingEdge) -> (r: (i64, u64, u64, u64, u64, u64, u64))
    requires
        (e.from.0 as int) < nodes@.len(),
        (e.to.0 as int) < nodes@.len(),
    ensures
        r == segment_key(nodes@, *e),
{
    let (a, b) = if e.source_direction < 0 {
        (nodes[e.to.0 as usize], nodes[e.from.0 as usize])
    } else {
        (nodes[e.from.0 as usize], nodes[e.to.0 as usize])
    };
    (
        e.source_way_id,
        coordinate_bits(a.lon),
        coordinate_bits(a.lat),
        coordinate_bits(a.z),
        coordinate_bits(b.lon),
        coordinate_bits(b.lat),
        coordinate_bits(b.z),
    )
}

/// The retained geometry of each feature, by increasing feature id: the
/// segments, in source orientation, of its edges that run in its selected
/// direction (forward if any edge does), ordered by edge id.
pub fn ordered_feature_segments(nodes: &Vec<TopologyNode>, edges: &Vec<RoutingEdge>) -> (r: Vec<
    (i64, Vec<(i64, u64, u64, u64, u64, u64, u64)>),
>)
    requires
        forall|i: int|
            0 <= i < edges@.len() ==> (#[trigger] edges@[i].from.0 as int) < nodes@.len() && (edges@[i].to.0 as int)
                < nodes@.len(),
    ensures
        forall|a: int, b: int| 0 <= a < b < r@.len() ==> #[trigger] r@[a].0 < #[trigger] r@[b].0,
        forall|f: i64| #[trigger] has_feature_edge(edges@, f) <==> has_feature_entry(r@, f),
        forall|a: int| 0 <= a < r@.len() ==> #[trigger] entry_lists_feature(edges@, nodes@, r@, a),
{
    let sel = selected_directions(edges);
    let n = edges.len();
    let mut triples: Vec<(i64, u32, u64)> = Vec::new();
    let mut i: usize = 0;
    while i < n
        invariant
            n == edges@.len(),
            i <= n,
            forall|f: i64|
                #![trigger selected_direction(edges@, f)]
                (sel@.contains_key(f) <==> selected_direction(edges@, f) is Some) && (sel@.contains_key(f)
                    ==> selected_direction(edges@, f) == Some(sel@[f])),
            triples@ == chosen_triples(edges@, i as int),
            forall|q: int|
                0 <= q < edges@.len() ==> (#[trigger] edges@[q].from.0 as int) < nodes@.len() && (edges@[q].to.0 as int)
                    < nodes@.len(),
        decreases n - i,
    {
        let e = edges[i];
        proof {
            lemma_selected_some(edges@, e.source_way_id, i as int);
        }
        match sel.get(&e.source_way_id) {
            Some(d) => {
                if *d == e.source_direction {
                    triples.push((e.source_way_id, e.edge_id.0, i as u64));
                }
            },
            None => {},
        }
        i += 1;
    }
    let ghost base = triples@;
    proof {
        lemma_chosen_triples(edges@, n as int);
        assert(base.no_duplicates()) by {
            assert forall|x: int, y: int| 0 <= x < base.len() && 0 <= y < base.len() && x != y implies base[x]
                != base[y] by {
                if x < y {
                    assert(base[x].2 < base[y].2);
                } else {
                    assert(base[y].2 < base[x].2);
                }
            }
        }
        base.lemma_multiset_has_no_duplicates();
    }
    sort_triples(&mut triples);
    let ghost t = triples@;
    proof {
        t.lemma_multiset_has_no_duplicates_conv();
        assert(t.len() == base.len()) by {
            assert(t.to_multiset().len() == base.to_multiset().len());
        }
        assert forall|x: int| 0 <= x < t.len() implies {
            let tr = #[trigger] t[x];
            &&& (tr.2 as int) < n
            &&& tr.0 == edges@[tr.2 as int].source_way_id
            &&& tr.1 == edges@[tr.2 as int].edge_id.0
            &&& is_chosen(edges@, tr.2 as int)
        } by {
            assert(t.to_multiset().contains(t[x]));
            assert(base.contains(t[x]));
            let y = choose|y: int| 0 <= y < base.len() && base[y] == t[x];
            assert(base[y] == chosen_triples(edges@, n as int)[y]);
        }
    }
    let total = triples.len();
    let mut out: Vec<(i64, Vec<(i64, u64, u64, u64, u64, u64, u64)>)> = Vec::new();
    let mut cur_keys: Vec<(i64, u64, u64, u64, u64, u64, u64)> = Vec::new();
    let mut cur_f: i64 = 0;
    let ghost mut start: int = 0;
    let ghost mut ranges: Seq<(int, int)> = seq![];
    let mut j: usize = 0;
    while j < total
        invariant
            n == edges@.len(),
            total == t.len(),
            t == triples@,
            forall|a: int, b: int| 0 <= a < b < t.len() ==> triple_le(#[trigger] t[a], #[trigger] t[b]),
            t.no_duplicates(),
            forall|x: int| 0 <= x < t.len() ==> {
                let tr = #[trigger] t[x];
                &&& (tr.2 as int) < n
                &&& tr.0 == edges@[tr.2 as int].source_way_id
                &&& tr.1 == edges@[tr.2 as int].edge_id.0
                &&& is_chosen(edges@, tr.2 as int)
            },
            forall|q: int|
                0 <= q < edges@.len() ==> (#[trigger] edges@[q].from.0 as int) < nodes@.len() && (edges@[q].to.0 as int)
                    < nodes@.len(),
            j <= total,
            0 <= start <= j,
            j > 0 ==> start < j,
            j == 0 ==> out@.len() == 0 && cur_keys@.len() == 0 && start == 0,
            ranges.len() == out@.len(),
            forall|a: int| 0 <= a < ranges.len() ==> 0 <= (#[trigger] ranges[a]).0 < ranges[a].1 <= start,
            forall|x: int| 0 <= x < start ==> #[trigger] covered(ranges, x),
            forall|a: int, x: int| 0 <= a < ranges.len() && ranges[a].0 <= x < ranges[a].1 ==> #[trigger] t[x].0 == (#[trigger] out@[a]).0,
            forall|x: int| start <= x < j ==> #[trigger] t[x].0 == cur_f,
            forall|a: int|
                0 <= a < out@.len() ==> (#[trigger] out@[a]).1@ == Seq::new(
                    (ranges[a].1 - ranges[a].0) as nat,
                    |k: int| segment_key(nodes@, edges@[t[ranges[a].0 + k].2 as int]),
                ),
            cur_keys@ == Seq::new((j - start) as nat, |k: int| segment_key(nodes@, edges@[t[start + k].2 as int])),
            forall|a: int, b: int| 0 <= a < b < out@.len() ==> #[trigger] out@[a].0 < #[trigger] out@[b].0,
            j > 0 ==> forall|a: int| 0 <= a < out@.len() ==> #[trigger] out@[a].0 < cur_f,
        decreases total - j,
    {
        let tr = triples[j];
        assert(t[j as int] == tr);
        let e = edges[tr.2 as usize];
        assert(e == edges@[tr.2 as int]);
        assert((edges@[tr.2 as int].from.0 as int) < nodes@.len());
        let key = segment_of(nodes, &e);
        if j == 0 {
            cur_f = tr.0;
            cur_keys.push(key);
            proof {
                assert(cur_keys@ =~= Seq::new((j + 1 - start) as nat, |k: int| segment_key(nodes@, edges@[t[start + k].2 as int])));
            }
        } else if tr.0 != cur_f {
            proof {
                assert(t[j - 1].0 == cur_f);
                assert(triple_le(t[j - 1], t[j as int]));
            }
            let ghost old_out = out@;
            let ghost old_ranges = ranges;
            let ghost old_start = start;
            let ghost old_keys = cur_keys@;
            out.push((cur_f, cur_keys));
            cur_f = tr.0;
            cur_keys = Vec::new();
            cur_keys.push(key);
            proof {
                ranges = ranges.push((old_start, j as int));
                start = j as int;
                assert(cur_keys@ =~= Seq::new((j + 1 - start) as nat, |k: int| segment_key(nodes@, edges@[t[start + k].2 as int])));
                assert forall|a: int| 0 <= a < ranges.len() implies 0 <= (#[trigger] ranges[a]).0 < ranges[a].1 <= start by {
                    if a < old_ranges.len() {
                        assert(ranges[a] == old_ranges[a]);
                    }
                }
                assert forall|x: int| 0 <= x < start implies #[trigger] covered(ranges, x) by {
                    if x < old_start {
                        assert(covered(old_ranges, x));
                        assert(covered(old_ranges, x));
                    let a = choose|a: int| 0 <= a < old_ranges.len() && #[trigger] old_ranges[a].0 <= x < old_ranges[a].1;
                        assert(ranges[a] == old_ranges[a]);
                    } else {
                        assert(ranges[old_ranges.len() as int] == (old_start, j as int));
                    }
                }
                assert forall|a: int, x: int| 0 <= a < ranges.len() && ranges[a].0 <= x < ranges[a].1 implies #[trigger] t[x].0 == (#[trigger] out@[a]).0 by {
                    if a < old_ranges.len() {
                        assert(ranges[a] == old_ranges[a]);
                        assert(out@[a] == old_out[a]);
                    }
                }
                assert forall|a: int| 0 <= a < out@.len() implies (#[trigger] out@[a]).1@ == Seq::new(
                    (ranges[a].1 - ranges[a].0) as nat,
                    |k: int| segment_key(nodes@, edges@[t[ranges[a].0 + k].2 as int]),
                ) by {
                    if a < old_out.len() {
                        assert(ranges[a] == old_ranges[a]);
                        assert(out@[a] == old_out[a]);
                    } else {
                        assert(out@[a].1@ == old_keys);
                    }
                }
                assert forall|a: int, b: int| 0 <= a < b < out@.len() implies #[trigger] out@[a].0 < #[trigger] out@[b].0 by {
                    if b < old_out.len() {
                        assert(out@[a] == old_out[a] && out@[b] == old_out[b]);
                    } else {
                        assert(out@[a] == old_out[a]);
                    }
                }
                assert forall|a: int| 0 <= a < out@.len() implies #[trigger] out@[a].0 < cur_f by {
                    if a < old_out.len() {
                        assert(out@[a] == old_out[a]);
                    }
                }
            }
        } else {
            cur_keys.push(key);
            proof {
                assert(cur_keys@ =~= Seq::new((j + 1 - start) as nat, |k: int| segment_key(nodes@, edges@[t[start + k].2 as int])));
            }
        }
        j += 1;
    }
    if total > 0 {
        let ghost old_out = out@;
        let ghost old_ranges = ranges;
        let ghost old_keys = cur_keys@;
        out.push((cur_f, cur_keys));
        proof {
            ranges = ranges.push((start, total as int));
            assert forall|x: int| 0 <= x < total implies #[trigger] covered(ranges, x) by {
                if x < start {
                    assert(covered(old_ranges, x));
                    let a = choose|a: int| 0 <= a < old_ranges.len() && #[trigger] old_ranges[a].0 <= x < old_ranges[a].1;
                    assert(ranges[a] == old_ranges[a]);
                } else {
                    assert(ranges[old_ranges.len() as int] == (start, total as int));
                    assert(ranges[old_ranges.len() as int].0 <= x < ranges[old_ranges.len() as int].1);
                }
            }
            assert forall|a: int, x: int| 0 <= a < ranges.len() && ranges[a].0 <= x < ranges[a].1 implies #[trigger] t[x].0 == (#[trigger] out@[a]).0 by {
                if a < old_ranges.len() {
                    assert(ranges[a] == old_ranges[a]);
                    assert(out@[a] == old_out[a]);
                }
            }
            assert forall|a: int| 0 <= a < out@.len() implies (#[trigger] out@[a]).1@ == Seq::new(
                (ranges[a].1 - ranges[a].0) as nat,
                |k: int| segment_key(nodes@, edges@[t[ranges[a].0 + k].2 as int]),
            ) by {
                if a < old_out.len() {
                    assert(ranges[a] == old_ranges[a]);
                    assert(out@[a] == old_out[a]);
                } else {
                    assert(out@[a].1@ == old_keys);
                }
            }
            assert forall|a: int, b: int| 0 <= a < b < out@.len() implies #[trigger] out@[a].0 < #[trigger] out@[b].0 by {
                if b < old_out.len() {
                    assert(out@[a] == old_out[a] && out@[b] == old_out[b]);
                } else {
                    assert(out@[a] == old_out[a]);
                }
            }
            assert forall|a: int| 0 <= a < ranges.len() implies 0 <= (#[trigger] ranges[a]).0 < ranges[a].1 <= total by {
                if a < old_ranges.len() {
                    assert(ranges[a] == old_ranges[a]);
                }
            }
        }
    }
    proof {
        lemma_group_facts(edges@, nodes@, t, out@, ranges);
    }
    out
}

/// What grouping the sorted chosen triples gives.
proof fn lemma_group_facts(
    edges: Seq<RoutingEdge>,
    nodes: Seq<TopologyNode>,
    t: Seq<(i64, u32, u64)>,
    out: Seq<(i64, Vec<(i64, u64, u64, u64, u64, u64, u64)>)>,
    ranges: Seq<(int, int)>,
)
    requires
        edges.len() <= u64::MAX,
        t.to_multiset() == chosen_triples(edges, edges.len() as int).to_multiset(),
        forall|a: int, b: int| 0 <= a < b < t.len() ==> triple_le(#[trigger] t[a], #[trigger] t[b]),
        t.no_duplicates(),
        forall|x: int| 0 <= x < t.len() ==> {
            let tr = #[trigger] t[x];
            &&& (tr.2 as int) < edges.len()
            &&& tr.0 == edges[tr.2 as int].source_way_id
            &&& tr.1 == edges[tr.2 as int].edge_id.0
            &&& is_chosen(edges, tr.2 as int)
        },
        ranges.len() == out.len(),
        forall|a: int| 0 <= a < ranges.len() ==> 0 <= (#[trigger] ranges[a]).0 < ranges[a].1 <= t.len(),
        forall|x: int| 0 <= x < t.len() ==> #[trigger] covered(ranges, x),
        forall|a: int, x: int| 0 <= a < ranges.len() && ranges[a].0 <= x < ranges[a].1 ==> #[trigger] t[x].0 == (#[trigger] out[a]).0,
        forall|a: int|
            0 <= a < out.len() ==> (#[trigger] out[a]).1@ == Seq::new(
                (ranges[a].1 - ranges[a].0) as nat,
                |k: int| segment_key(nodes, edges[t[ranges[a].0 + k].2 as int]),
            ),
        forall|a: int, b: int| 0 <= a < b < out.len() ==> #[trigger] out[a].0 < #[trigger] out[b].0,
    ensures
        forall|f: i64| #[trigger] has_feature_edge(edges, f) <==> has_feature_entry(out, f),
        forall|a: int| 0 <= a < out.len() ==> #[trigger] entry_lists_feature(edges, nodes, out, a),
{
    lemma_chosen_triples(edges, edges.len() as int);
    let base = chosen_triples(edges, edges.len() as int);
    assert forall|f: i64| #[trigger] has_feature_edge(edges, f) <==> has_feature_entry(out, f) by {
        if has_feature_edge(edges, f) {
            let i = choose|i: int| 0 <= i < edges.len() && #[trigger] edges[i].source_way_id == f;
            lemma_selected_some(edges, f, i);
            lemma_selected_from_edge(edges, f);
            let d = selected_direction(edges, f)->Some_0;
            let c = choose|c: int| 0 <= c < edges.len() && edges[c].source_way_id == f && #[trigger] edges[c].source_direction == d;
            assert(is_chosen(edges, c));
            let tr = (edges[c].source_way_id, edges[c].edge_id.0, c as u64);
            assert(base.contains(tr));
            assert(base.to_multiset().contains(tr));
            assert(t.contains(tr));
            let x = choose|x: int| 0 <= x < t.len() && t[x] == tr;
            assert(covered(ranges, x));
            let a = choose|a: int| 0 <= a < ranges.len() && #[trigger] ranges[a].0 <= x < ranges[a].1;
            assert(t[x].0 == out[a].0);
        }
        if has_feature_entry(out, f) {
            let a = choose|a: int| 0 <= a < out.len() && #[trigger] out[a].0 == f;
            let x = ranges[a].0;
            assert(t[x].0 == out[a].0);
            assert(edges[t[x].2 as int].source_way_id == f);
        }
    }
    assert forall|a: int| 0 <= a < out.len() implies #[trigger] entry_lists_feature(edges, nodes, out, a) by {
        let lo = ranges[a].0;
        let hi = ranges[a].1;
        let f = out[a].0;
        let q = Seq::new((hi - lo) as nat, |k: int| t[lo + k].2 as int);
        assert forall|k: int| 0 <= k < q.len() implies 0 <= #[trigger] q[k] < edges.len() && edges[q[k]].source_way_id == f
            && is_chosen(edges, q[k]) && out[a].1@[k] == segment_key(nodes, edges[q[k]]) by {
            assert(t[lo + k].0 == out[a].0);
        }
        assert forall|k: int, l: int| 0 <= k < l < q.len() implies edge_before(edges, #[trigger] q[k], #[trigger] q[l]) by {
            assert(t[lo + k].0 == out[a].0);
            assert(t[lo + l].0 == out[a].0);
            assert(triple_le(t[lo + k], t[lo + l]));
            assert(t[lo + k] != t[lo + l]);
        }
        assert forall|i: int| 0 <= i < edges.len() && edges[i].source_way_id == f && #[trigger] is_chosen(edges, i) implies q.contains(i) by {
            let tr = (edges[i].source_way_id, edges[i].edge_id.0, i as u64);
            assert(base.contains(tr));
            assert(base.to_multiset().contains(tr));
            assert(t.contains(tr));
            let x = choose|x: int| 0 <= x < t.len() && t[x] == tr;
            assert(covered(ranges, x));
            let b = choose|b: int| 0 <= b < ranges.len() && #[trigger] ranges[b].0 <= x < ranges[b].1;
            assert(t[x].0 == out[b].0);
            if b < a {
                assert(out[b].0 < out[a].0);
            } else if a < b {
                assert(out[a].0 < out[b].0);
            }
            assert(q[x - lo] == i);
        }
        assert(lists_feature(edges, nodes, f, out[a].1@, q));
    }
}

/// Where two segment lists first differ: the first position holding
/// different segments, else, if one is longer, the length of the shorter.
pub open spec fn first_difference_spec(
    retained: Seq<(i64, u64, u64, u64, u64, u64, u64)>,
    source: Seq<(i64, u64, u64, u64, u64, u64, u64)>,
) -> Option<int> {
    let m = if retained.len() < source.len() {
        retained.len() as int
    } else {
        source.len() as int
    };
    if exists|k: int| 0 <= k < m && retained[k] != source[k] {
        Some(choose|k: int| 0 <= k < m && retained[k] != source[k] && forall|l: int| 0 <= l < k ==> retained[l] == source[l])
    } else if retained.len() != source.len() {
        Some(m)
    } else {
        None
    }
}

/// The first segment at which a feature's retained geometry departs from
/// its source geometry, if it does.
pub fn first_segment_difference(
    retained: &Vec<(i64, u64, u64, u64, u64, u64, u64)>,
    source: &Vec<(i64, u64, u64, u64, u64, u64, u64)>,
) -> (r: Option<usize>)
    ensures
        match first_difference_spec(retained@, source@) {
            Some(k) => r == Some(k as usize),
            None => r is None,
        },
{
    let m = if retained.len() < source.len() {
        retained.len()
    } else {
        source.len()
    };
    let mut k: usize = 0;
    while k < m
        invariant
            m <= retained@.len(),
            m <= source@.len(),
            m == retained@.len() || m == source@.len(),
            k <= m,
            forall|l: int| 0 <= l < k ==> retained@[l] == source@[l],
        decreases m - k,
    {
        if !seg_same(&retained[k], &source[k]) {
            proof {
                let c = choose|c: int| 0 <= c < m && retained@[c] != source@[c] && forall|l: int| 0 <= l < c ==> retained@[l] == source@[l];
                if c < k {
                    assert(retained@[c] == source@[c]);
                } else if c > k {
                    assert(retained@[k as int] == source@[k as int]);
                }
            }
            return Some(k);
        }
        k += 1;
    }
    if retained.len() != source.len() {
        Some(m)
    } else {
        None
    }
}

/// `slice::sort_unstable` on feature ids: increasing, each kept as often
/// as it occurred.
#[verifier::external_body]
fn sort_feature_ids(ids: &mut Vec<i64>)
    ensures
        final(ids)@.to_multiset() == old(ids)@.to_multiset(),
        forall|i: int, j: int| 0 <= i < j < final(ids)@.len() ==> #[trigger] final(ids)@[i] <= #[trigger] final(ids)@[j],
{
    ids.sort_unstable();
}

/// The ids of `left` that `right` lacks, increasing and each once.
pub fn missing_ids(left: &Vec<i64>, right: &Vec<i64>) -> (r: Vec<i64>)
    ensures
        forall|i: int, j: int| 0 <= i < j < r@.len() ==> #[trigger] r@[i] < #[trigger] r@[j],
        forall|x: i64| #[trigger] r@.contains(x) <==> (left@.contains(x) && !right@.contains(x)),
{
    let mut candidates: Vec<i64> = Vec::new();
    let mut i: usize = 0;
    while i < left.len()
        invariant
            i <= left@.len(),
            forall|x: i64| #[trigger] candidates@.contains(x) <==> (left@.take(i as int).contains(x) && !right@.contains(x)),
        decreases left@.len() - i,
    {
        let x = left[i];
        proof {
            assert(left@.take(i + 1) =~= left@.take(i as int).push(x));
        }
        let ghost before = candidates@;
        if !holds_id(right, x) {
            candidates.push(x);
        }
        proof {
            assert forall|y: i64| #[trigger] candidates@.contains(y) <==> (left@.take(i + 1).contains(y) && !right@.contains(y)) by {
                if left@.take(i + 1).contains(y) {
                    let k = choose|k: int| 0 <= k < i + 1 && #[trigger] left@.take(i + 1)[k] == y;
                    if k < i {
                        assert(left@.take(i as int)[k] == y);
                    }
                }
                if left@.take(i as int).contains(y) {
                    let k = choose|k: int| 0 <= k < i && #[trigger] left@.take(i as int)[k] == y;
                    assert(left@.take(i + 1)[k] == y);
                }
                if candidates@.contains(y) && !before.contains(y) {
                    assert(y == x);
                    assert(left@.take(i + 1)[i as int] == y);
                }
                if before.contains(y) {
                    let k = choose|k: int| 0 <= k < before.len() && before[k] == y;
                    assert(candidates@[k] == y);
                }
                if y == x && !right@.contains(y) {
                    assert(candidates@[candidates@.len() - 1] == y);
                }
            }
        }
        i += 1;
    }
    proof {
        assert(left@.take(left@.len() as int) =~= left@);
    }
    let ghost unsorted = candidates@;
    sort_feature_ids(&mut candidates);
    proof {
        assert forall|x: i64| #[trigger] candidates@.contains(x) <==> unsorted.contains(x) by {
            assert(candidates@.contains(x) <==> candidates@.to_multiset().count(x) > 0);
            assert(unsorted.contains(x) <==> unsorted.to_multiset().count(x) > 0);
        }
    }
    let r = dedup_ids(&candidates);
    proof {
        assert forall|x: i64| #[trigger] r@.contains(x) <==> (left@.contains(x) && !right@.contains(x)) by {
            assert(r@.contains(x) <==> candidates@.contains(x));
            assert(candidates@.contains(x) <==> unsorted.contains(x));
        }
    }
    r
}

fn holds_id(v: &Vec<i64>, x: i64) -> (r: bool)
    ensures
        r == v@.contains(x),
{
    let mut i: usize = 0;
    while i < v.len()
        invariant
            i <= v@.len(),
            forall|j: int| 0 <= j < i ==> v@[j] != x,
        decreases v@.len() - i,
    {
        if v[i] == x {
            return true;
        }
        i += 1;
    }
    false
}

fn dedup_ids(ids: &Vec<i64>) -> (r: Vec<i64>)
    requires
        forall|i: int, j: int| 0 <= i < j < ids@.len() ==> #[trigger] ids@[i] <= #[trigger] ids@[j],
    ensures
        forall|i: int, j: int| 0 <= i < j < r@.len() ==> #[trigger] r@[i] < #[trigger] r@[j],
        forall|t: i64| #[trigger] r@.contains(t) <==> ids@.contains(t),
{
    let mut out: Vec<i64> = Vec::new();
    let mut i: usize = 0;
    while i < ids.len()
        invariant
            i <= ids@.len(),
            forall|a: int, b: int| 0 <= a < b < ids@.len() ==> #[trigger] ids@[a] <= #[trigger] ids@[b],
            forall|a: int, b: int| 0 <= a < b < out@.len() ==> #[trigger] out@[a] < #[trigger] out@[b],
            forall|t: i64| out@.contains(t) <==> ids@.take(i as int).contains(t),
            i > 0 ==> out@.len() > 0 && out@.last() == ids@[i - 1],
            out@.len() <= i,
        decreases ids@.len() - i,
    {
        let x = ids[i];
        let ghost prev = out@;
        proof {
            assert(ids@.take(i + 1) =~= ids@.take(i as int).push(x));
            assert forall|t: i64| ids@.take(i + 1).contains(t) <==> (ids@.take(i as int).contains(t) || t == x) by {
                if ids@.take(i + 1).contains(t) {
                    let j = choose|j: int| 0 <= j < i + 1 && #[trigger] ids@.take(i + 1)[j] == t;
                    if j < i {
                        assert(ids@.take(i as int)[j] == t);
                    }
                }
                if ids@.take(i as int).contains(t) {
                    let j = choose|j: int| 0 <= j < i && #[trigger] ids@.take(i as int)[j] == t;
                    assert(ids@.take(i + 1)[j] == t);
                }
                if t == x {
                    assert(ids@.take(i + 1)[i as int] == t);
                }
            }
        }
        if out.len() == 0 || out[out.len() - 1] != x {
            proof {
                if i > 0 {
                    assert(ids@[i - 1] <= x);
                    assert(prev.last() < x);
                }
            }
            out.push(x);
            proof {
                assert forall|a: int, b: int| 0 <= a < b < out@.len() implies #[trigger] out@[a] < #[trigger] out@[b] by {
                    if b == out@.len() - 1 && a < b {
                        assert(out@[a] == prev[a] && out@[b] == x);
                        assert(prev.len() > 0 && prev.last() < x);
                        if a < prev.len() - 1 {
                            assert(prev[a] < prev[prev.len() - 1]);
                        }
                    } else {
                        assert(out@[a] == prev[a] && out@[b] == prev[b]);
                    }
                }
                assert forall|t: i64| out@.contains(t) <==> ids@.take(i + 1).contains(t) by {
                    if out@.contains(t) {
                        let j = choose|j: int| 0 <= j < out@.len() && out@[j] == t;
                        if j < prev.len() {
                            assert(prev[j] == t);
                        }
                    }
                    if prev.contains(t) {
                        let j = choose|j: int| 0 <= j < prev.len() && prev[j] == t;
                        assert(out@[j] == t);
                    }
                    if t == x {
                        assert(out@[out@.len() - 1] == t);
                    }
                }
            }
        } else {
            proof {
                assert(prev[prev.len() - 1] == x);
                assert(prev.contains(x));
            }
        }
        i += 1;
    }
    proof {
        assert(ids@.take(ids@.len() as int) =~= ids@);
    }
    out
}

} // verus!
