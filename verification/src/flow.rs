//! Maximum flow on unit-vertex-capacity networks by Dinic's algorithm.
//!
//! A network is a residual graph in CSR form whose capacities are small
//! integers; the largest value stands for an infinite capacity, which no
//! push ever changes. Each phase labels nodes with their BFS distance from
//! the source, then searches the level graph depth-first, pushing a unit
//! whenever the sink is reached and retreating from dead ends; a phase that
//! starts with the sink reachable always pushes, so the algorithm ends.

use vstd::prelude::*;

use crate::dissection::csr_ok;

verus! {

/// Capacity of arcs that never appear in a minimum cut.
pub const INFINITE_CAPACITY: u8 = 255;
/// Flow node of the contracted source set.
pub const FLOW_SOURCE: usize = 0;
/// Flow node of the contracted sink set.
pub const FLOW_SINK: usize = 1;

/// Residual network in CSR form: arc `a` runs from its row's flow node to
/// `head[a]` with residual capacity `cap[a]`, and `rev[a]` is its reverse.
pub struct FlowNetwork {
    pub first_out: Vec<u32>,
    pub head: Vec<u32>,
    pub cap: Vec<u8>,
    pub rev: Vec<u32>,
}

impl FlowNetwork {
    /// Rows of `flow_nodes` nodes over arrays of one length that fits a `u32`.
    pub open spec fn shape_ok(&self, flow_nodes: int) -> bool {
        &&& csr_ok(self.first_out@, self.head@, flow_nodes)
        &&& self.cap@.len() == self.head@.len()
        &&& self.rev@.len() == self.head@.len()
        &&& forall|a: int| 0 <= a < self.rev@.len() ==> (#[trigger] self.rev@[a] as int) < self.head@.len()
        &&& self.head@.len() <= 0x4000_0000
        &&& 2 <= flow_nodes <= 0x4000_0000
    }

    /// An arc of infinite capacity runs from `t` to `h`.
    pub open spec fn infinite_arc(&self, t: int, h: int) -> bool {
        exists|a: int|
            self.first_out@[t] <= a < self.first_out@[t + 1] && self.head@[a] as int == h && self.cap@[a]
                == INFINITE_CAPACITY
    }
}

// ---------------------------------------------------------------------------
// Dinic's algorithm on the unit-vertex-capacity network
// ---------------------------------------------------------------------------

/// Arc `a` is in the row of flow node `x`.
pub open spec fn in_row(fo: Seq<u32>, x: int, a: int) -> bool {
    fo[x] <= a < fo[x + 1]
}

/// Flow node `y` is entered by a residual arc from a node one level up.
pub open spec fn has_pred(fo: Seq<u32>, hd: Seq<u32>, cp: Seq<u8>, lv: Seq<i32>, y: int) -> bool {
    exists|x: int, a: int|
        0 <= x < fo.len() - 1 && #[trigger] in_row(fo, x, a) && hd[a] as int == y && cp[a] > 0 && lv[x] >= 0 && lv[x]
            + 1 == lv[y]
}

/// Every residual arc of `x` below `upto` leads to a node that is not one
/// level further, or that is dead.
pub open spec fn dead_end(fo: Seq<u32>, hd: Seq<u32>, cp: Seq<u8>, l0: Seq<i32>, lv: Seq<i32>, x: int, upto: int) -> bool {
    forall|a: int|
        fo[x] <= a < upto ==> cp[a] == 0 || l0[#[trigger] hd[a] as int] != l0[x] + 1 || lv[hd[a] as int] < 0
}

/// Every residual arc leaving a node with a level leads to a node with one.
pub open spec fn levels_closed(fo: Seq<u32>, hd: Seq<u32>, cp: Seq<u8>, lv: Seq<i32>) -> bool {
    forall|x: int, a: int|
        0 <= x < lv.len() && lv[x] >= 0 && #[trigger] in_row(fo, x, a) && cp[a] > 0 ==> lv[hd[a] as int] >= 0
}

/// Number of nodes with a level.
pub open spec fn count_nonneg(s: Seq<i32>) -> nat
    decreases s.len(),
{
    if s.len() == 0 {
        0
    } else {
        count_nonneg(s.drop_last()) + if s.last() >= 0 {
            1nat
        } else {
            0nat
        }
    }
}

proof fn lemma_count_nonneg_set(s: Seq<i32>, i: int, v: i32)
    requires
        0 <= i < s.len(),
    ensures
        count_nonneg(s.update(i, v)) + (if s[i] >= 0 { 1int } else { 0int }) == count_nonneg(s) + (if v >= 0 {
            1int
        } else {
            0int
        }),
    decreases s.len(),
{
    if i < s.len() - 1 {
        assert(s.update(i, v).drop_last() =~= s.drop_last().update(i, v));
        lemma_count_nonneg_set(s.drop_last(), i, v);
    } else {
        assert(s.update(i, v).drop_last() =~= s.drop_last());
    }
}

proof fn lemma_count_nonneg_bound(s: Seq<i32>)
    ensures
        count_nonneg(s) <= s.len(),
    decreases s.len(),
{
    if s.len() > 0 {
        lemma_count_nonneg_bound(s.drop_last());
    }
}

proof fn lemma_count_nonneg_none(s: Seq<i32>)
    requires
        forall|i: int| 0 <= i < s.len() ==> #[trigger] s[i] < 0,
    ensures
        count_nonneg(s) == 0,
    decreases s.len(),
{
    if s.len() > 0 {
        lemma_count_nonneg_none(s.drop_last());
    }
}

/// The state of the breadth-first search once the first `read` queued
/// nodes have had their rows scanned.
#[verifier::opaque]
pub open spec fn bfs_inv(fo: Seq<u32>, hd: Seq<u32>, cp: Seq<u8>, lv: Seq<i32>, q: Seq<u32>, read: int, n: int) -> bool {
    &&& lv.len() == n
    &&& read <= q.len()
    &&& q.len() == count_nonneg(lv)
    &&& forall|i: int| 0 <= i < q.len() ==> (#[trigger] q[i] as int) < n
    &&& forall|i: int| 0 <= i < q.len() ==> #[trigger] lv[q[i] as int] >= 0
    &&& forall|y: int| 0 <= y < n && #[trigger] lv[y] >= 0 ==> q.contains(y as u32)
    &&& lv[0] == 0
    &&& forall|y: int| 0 <= y < n ==> #[trigger] lv[y] == -1 || 0 <= lv[y] < q.len()
    &&& forall|y: int| 0 < y < n ==> #[trigger] lv[y] != 0
    &&& forall|y: int| 0 <= y < n && #[trigger] lv[y] >= 1 ==> has_pred(fo, hd, cp, lv, y)
    &&& forall|i: int, a: int|
        0 <= i < read && #[trigger] in_row(fo, q[i] as int, a) && cp[a] > 0 ==> lv[hd[a] as int] >= 0
}

/// Scans the row of the next queued node, giving each unlabelled node it
/// reaches by a residual arc the next level and queueing it.
fn bfs_visit(net: &FlowNetwork, level: &mut Vec<i32>, queue: &mut Vec<u32>, read: usize)
    requires
        net.shape_ok(net.first_out@.len() - 1),
        bfs_inv(net.first_out@, net.head@, net.cap@, old(level)@, old(queue)@, read as int, net.first_out@.len() - 1),
        read < old(queue)@.len(),
    ensures
        bfs_inv(net.first_out@, net.head@, net.cap@, final(level)@, final(queue)@, read + 1, net.first_out@.len() - 1),
{
    let n = net.first_out.len() - 1;
    let ghost fo = net.first_out@;
    let ghost hd = net.head@;
    let ghost cp = net.cap@;
    reveal(bfs_inv);
    proof {
        lemma_count_nonneg_bound(level@);
    }
    let node = queue[read] as usize;
    let start = net.first_out[node] as usize;
    let end = net.first_out[node + 1] as usize;
    proof {
        assert(fo[node as int] <= fo[node + 1] <= fo[n as int]);
    }
    let mut arc = start;
    while arc < end
        invariant
            net.shape_ok(n as int),
            n == net.first_out@.len() - 1,
            fo == net.first_out@,
            hd == net.head@,
            cp == net.cap@,
            bfs_inv(fo, hd, cp, level@, queue@, read as int, n as int),
            read < queue@.len(),
            (node as int) < n,
            node == queue@[read as int],
            start == fo[node as int],
            end == fo[node + 1],
            end <= hd.len(),
            start <= arc <= end,
            forall|a: int| start <= a < arc && cp[a] > 0 ==> level@[#[trigger] hd[a] as int] >= 0,
        decreases end - arc,
    {
        reveal(bfs_inv);
        if net.cap[arc] != 0 {
            let target = net.head[arc] as usize;
            if level[target] < 0 {
                proof {
                    lemma_count_nonneg_bound(level@);
                    assert(level@[node as int] >= 0);
                }
                let next = level[node] + 1;
                proof {
                    lemma_count_nonneg_set(level@, target as int, next);
                }
                let ghost before = level@;
                let ghost queue_before = queue@;
                level.set(target, next);
                queue.push(target as u32);
                proof {
                    assert(in_row(fo, node as int, arc as int));
                    assert forall|y: int| 0 <= y < n && #[trigger] level@[y] >= 1 implies has_pred(fo, hd, cp, level@, y) by {
                        if y == target {
                            assert(in_row(fo, node as int, arc as int));
                        } else {
                            assert(before[y] >= 1);
                            assert(has_pred(fo, hd, cp, before, y));
                            let (x, a) = choose|x: int, a: int|
                                0 <= x < fo.len() - 1 && #[trigger] in_row(fo, x, a) && hd[a] as int == y && cp[a] > 0
                                    && before[x] >= 0 && before[x] + 1 == before[y];
                            assert(level@[x] == before[x]);
                        }
                    }
                    assert forall|y: int| 0 <= y < n && #[trigger] level@[y] >= 0 implies queue@.contains(y as u32) by {
                        if y == target {
                            assert(queue@[queue@.len() - 1] == y as u32);
                        } else {
                            assert(queue_before.contains(y as u32));
                            let i = choose|i: int| 0 <= i < queue_before.len() && queue_before[i] == y as u32;
                            assert(queue@[i] == y as u32);
                        }
                    }
                    assert forall|i: int, a: int|
                        0 <= i < read && #[trigger] in_row(fo, queue@[i] as int, a) && cp[a] > 0 implies level@[hd[a] as int] >= 0 by {
                        assert(queue@[i] == queue_before[i]);
                        assert(in_row(fo, queue_before[i] as int, a));
                    }
                    assert forall|i: int| 0 <= i < queue@.len() implies #[trigger] level@[queue@[i] as int] >= 0 by {
                        if i < queue_before.len() {
                            assert(queue@[i] == queue_before[i]);
                        }
                    }
                }
            }
        }
        arc += 1;
    }
}

/// Labels every flow node with its BFS distance from the source in the
/// residual network, or `-1` where the source does not reach it.
fn bfs_levels(net: &FlowNetwork, level: &mut Vec<i32>, queue: &mut Vec<u32>)
    requires
        net.shape_ok(net.first_out@.len() - 1),
        old(level)@.len() == net.first_out@.len() - 1,
    ensures
        final(level)@.len() == net.first_out@.len() - 1,
        final(level)@[0] == 0,
        forall|x: int|
            0 <= x < final(level)@.len() ==> #[trigger] final(level)@[x] == -1 || 0 <= final(level)@[x]
                < final(level)@.len(),
        forall|x: int| 0 < x < final(level)@.len() ==> #[trigger] final(level)@[x] != 0,
        forall|y: int|
            0 <= y < final(level)@.len() && #[trigger] final(level)@[y] >= 1 ==> has_pred(
                net.first_out@,
                net.head@,
                net.cap@,
                final(level)@,
                y,
            ),
        levels_closed(net.first_out@, net.head@, net.cap@, final(level)@),
{
    let n = net.first_out.len() - 1;
    let ghost fo = net.first_out@;
    let ghost hd = net.head@;
    let ghost cp = net.cap@;
    let mut x: usize = 0;
    while x < n
        invariant
            x <= n,
            level@.len() == n,
            forall|y: int| 0 <= y < x ==> #[trigger] level@[y] == -1,
        decreases n - x,
    {
        level.set(x, -1);
        x += 1;
    }
    proof {
        lemma_count_nonneg_none(level@);
        lemma_count_nonneg_set(level@, 0, 0);
    }
    queue.clear();
    level.set(0, 0);
    queue.push(0);
    assert(bfs_inv(fo, hd, cp, level@, queue@, 0, n as int)) by {
        reveal(bfs_inv);
        assert(queue@ =~= seq![0u32]);
        assert forall|y: int| 0 <= y < n && #[trigger] level@[y] >= 0 implies queue@.contains(y as u32) by {
            assert(y == 0);
            assert(queue@[0] == y as u32);
        }
    }
    let mut read: usize = 0;
    while read < queue.len()
        invariant
            net.shape_ok(n as int),
            n == net.first_out@.len() - 1,
            fo == net.first_out@,
            hd == net.head@,
            cp == net.cap@,
            bfs_inv(fo, hd, cp, level@, queue@, read as int, n as int),
        decreases n - read,
    {
        assert(read < n) by {
            reveal(bfs_inv);
            lemma_count_nonneg_bound(level@);
        }
        bfs_visit(net, level, queue, read);
        read += 1;
    }
    assert(levels_closed(fo, hd, cp, level@)) by {
        reveal(bfs_inv);
        assert forall|x: int, a: int|
            0 <= x < level@.len() && level@[x] >= 0 && #[trigger] in_row(fo, x, a) && cp[a] > 0 implies level@[hd[a] as int] >= 0 by {
            assert(queue@.contains(x as u32));
            let i = choose|i: int| 0 <= i < queue@.len() && queue@[i] == x as u32;
            assert(in_row(fo, queue@[i] as int, a));
        }
    }
    proof {
        reveal(bfs_inv);
        lemma_count_nonneg_bound(level@);
    }
}

/// Arcs the first `m` cursors have still to try.
pub open spec fn cursor_slack(fo: Seq<u32>, it: Seq<u32>, m: int) -> int
    decreases m,
{
    if m <= 0 {
        0
    } else {
        cursor_slack(fo, it, m - 1) + (fo[m] - it[m - 1])
    }
}

proof fn lemma_cursor_slack_step(fo: Seq<u32>, it: Seq<u32>, x: int, v: u32, m: int)
    requires
        0 <= x < m <= it.len(),
        v == it[x] + 1,
    ensures
        cursor_slack(fo, it.update(x, v), m) + 1 == cursor_slack(fo, it, m),
    decreases m,
{
    if x < m - 1 {
        lemma_cursor_slack_step(fo, it, x, v, m - 1);
    } else {
        lemma_cursor_slack_same(fo, it, it.update(x, v), m - 1);
    }
}

proof fn lemma_cursor_slack_same(fo: Seq<u32>, a: Seq<u32>, b: Seq<u32>, m: int)
    requires
        m <= a.len(),
        m <= b.len(),
        forall|x: int| 0 <= x < m ==> a[x] == b[x],
    ensures
        cursor_slack(fo, a, m) == cursor_slack(fo, b, m),
    decreases m,
{
    if m > 0 {
        lemma_cursor_slack_same(fo, a, b, m - 1);
    }
}

proof fn lemma_cursor_slack_nonneg(fo: Seq<u32>, it: Seq<u32>, m: int)
    requires
        m <= it.len(),
        forall|x: int| 0 <= x < m ==> #[trigger] it[x] <= fo[x + 1],
    ensures
        cursor_slack(fo, it, m) >= 0,
    decreases m,
{
    if m > 0 {
        lemma_cursor_slack_nonneg(fo, it, m - 1);
    }
}

/// Once the source is dead and every dead node's residual arcs into the
/// next level lead to dead nodes, every node of the level graph is dead:
/// follow BFS predecessors back to the source.
proof fn lemma_all_dead(fo: Seq<u32>, hd: Seq<u32>, cp: Seq<u8>, l0: Seq<i32>, lv: Seq<i32>, y: int)
    requires
        l0.len() == lv.len(),
        lv.len() == fo.len() - 1,
        0 <= y < lv.len(),
        l0[y] >= 0,
        l0[0] == 0,
        lv[0] < 0,
        forall|x: int| 0 < x < l0.len() ==> #[trigger] l0[x] != 0,
        forall|x: int| 0 <= x < l0.len() && #[trigger] l0[x] >= 1 ==> has_pred(fo, hd, cp, l0, x),
        forall|x: int| 0 <= x < lv.len() ==> #[trigger] lv[x] == l0[x] || lv[x] == -1,
        forall|x: int|
            0 <= x < lv.len() && #[trigger] lv[x] < 0 && l0[x] >= 0 ==> dead_end(fo, hd, cp, l0, lv, x, fo[x + 1] as int),
    ensures
        lv[y] < 0,
    decreases l0[y],
{
    if y != 0 {
        assert(l0[y] >= 1);
        assert(has_pred(fo, hd, cp, l0, y));
        let (x, a) = choose|x: int, a: int|
            0 <= x < fo.len() - 1 && #[trigger] in_row(fo, x, a) && hd[a] as int == y && cp[a] > 0 && l0[x] >= 0 && l0[x]
                + 1 == l0[y];
        lemma_all_dead(fo, hd, cp, l0, lv, x);
        assert(lv[x] < 0);
        assert(dead_end(fo, hd, cp, l0, lv, x, fo[x + 1] as int));
        assert(fo[x] <= a < fo[x + 1]);
        assert(hd[a] as int == y);
    }
}

/// Arcs in the rows of distinct flow nodes are distinct.
proof fn lemma_rows_disjoint(fo: Seq<u32>, n: int, x: int, y: int, a: int, b: int)
    requires
        fo.len() == n + 1,
        forall|i: int, j: int| 0 <= i <= j <= n ==> #[trigger] fo[i] <= #[trigger] fo[j],
        0 <= x < n,
        0 <= y < n,
        x != y,
        in_row(fo, x, a),
        in_row(fo, y, b),
    ensures
        a != b,
{
    if x < y {
        assert(fo[x + 1] <= fo[y]);
    } else {
        assert(fo[y + 1] <= fo[x]);
    }
}

/// One unit pushed along arc `a`: its residual capacity drops by one and
/// that of its reverse rises by one, infinite capacities staying as they
/// are.
pub open spec fn push_arc(cap: Seq<u8>, rev: Seq<u32>, a: int) -> Seq<u8> {
    let lowered = if cap[a] != INFINITE_CAPACITY {
        cap.update(a, (cap[a] - 1) as u8)
    } else {
        cap
    };
    let b = rev[a] as int;
    if lowered[b] != INFINITE_CAPACITY {
        lowered.update(b, (lowered[b] + 1) as u8)
    } else {
        lowered
    }
}

/// One unit pushed along each arc of a path in turn.
pub open spec fn push_path(cap: Seq<u8>, rev: Seq<u32>, arcs: Seq<u32>) -> Seq<u8>
    decreases arcs.len(),
{
    if arcs.len() == 0 {
        cap
    } else {
        push_arc(push_path(cap, rev, arcs.drop_last()), rev, arcs.last() as int)
    }
}

/// `arcs` lead from the source to the sink, each arc starting where the
/// one before it ends, each with residual capacity left in `cap`.
pub open spec fn augmenting(fo: Seq<u32>, hd: Seq<u32>, cap: Seq<u8>, arcs: Seq<u32>) -> bool {
    &&& arcs.len() > 0
    &&& in_row(fo, 0, arcs[0] as int)
    &&& hd[arcs[arcs.len() - 1] as int] == 1
    &&& forall|i: int| 0 <= i < arcs.len() - 1 ==> #[trigger] in_row(fo, hd[arcs[i] as int] as int, arcs[i + 1] as int)
    &&& forall|i: int| 0 <= i < arcs.len() ==> (#[trigger] arcs[i] as int) < hd.len() && cap[arcs[i] as int] > 0
}

/// The residual capacities after one unit was pushed along each path in
/// turn.
pub open spec fn log_end(rv: Seq<u32>, start: Seq<u8>, paths: Seq<Seq<u32>>) -> Seq<u8>
    decreases paths.len(),
{
    if paths.len() == 0 {
        start
    } else {
        push_path(log_end(rv, start, paths.drop_last()), rv, paths.last())
    }
}

/// Each path was augmenting when its unit was pushed.
pub open spec fn log_valid(fo: Seq<u32>, hd: Seq<u32>, rv: Seq<u32>, start: Seq<u8>, paths: Seq<Seq<u32>>) -> bool
    decreases paths.len(),
{
    if paths.len() == 0 {
        true
    } else {
        log_valid(fo, hd, rv, start, paths.drop_last()) && augmenting(fo, hd, log_end(rv, start, paths.drop_last()), paths.last())
    }
}

/// `units` augmenting paths, one unit pushed along each in turn, lead from
/// the residual capacities `start` to `end`: a flow of `units` from the
/// source to the sink.
pub open spec fn carries_flow(fo: Seq<u32>, hd: Seq<u32>, rv: Seq<u32>, start: Seq<u8>, end: Seq<u8>, units: int) -> bool {
    exists|paths: Seq<Seq<u32>>|
        paths.len() == units && #[trigger] log_valid(fo, hd, rv, start, paths) && log_end(rv, start, paths) == end
}

proof fn lemma_carries_none(fo: Seq<u32>, hd: Seq<u32>, rv: Seq<u32>, start: Seq<u8>)
    ensures
        carries_flow(fo, hd, rv, start, start, 0),
{
    assert(log_valid(fo, hd, rv, start, Seq::<Seq<u32>>::empty()));
}

proof fn lemma_carries_push(
    fo: Seq<u32>,
    hd: Seq<u32>,
    rv: Seq<u32>,
    start: Seq<u8>,
    mid: Seq<u8>,
    units: int,
    path: Seq<u32>,
)
    requires
        carries_flow(fo, hd, rv, start, mid, units),
        augmenting(fo, hd, mid, path),
    ensures
        carries_flow(fo, hd, rv, start, push_path(mid, rv, path), units + 1),
{
    let paths = choose|paths: Seq<Seq<u32>>|
        paths.len() == units && #[trigger] log_valid(fo, hd, rv, start, paths) && log_end(rv, start, paths) == mid;
    let longer = paths.push(path);
    assert(longer.drop_last() =~= paths);
    assert(log_valid(fo, hd, rv, start, longer));
}

proof fn lemma_log_concat(fo: Seq<u32>, hd: Seq<u32>, rv: Seq<u32>, a: Seq<u8>, p1: Seq<Seq<u32>>, p2: Seq<Seq<u32>>)
    requires
        log_valid(fo, hd, rv, a, p1),
        log_valid(fo, hd, rv, log_end(rv, a, p1), p2),
    ensures
        log_valid(fo, hd, rv, a, p1 + p2),
        log_end(rv, a, p1 + p2) == log_end(rv, log_end(rv, a, p1), p2),
    decreases p2.len(),
{
    if p2.len() == 0 {
        assert(p1 + p2 =~= p1);
    } else {
        lemma_log_concat(fo, hd, rv, a, p1, p2.drop_last());
        assert((p1 + p2).drop_last() =~= p1 + p2.drop_last());
        assert((p1 + p2).last() == p2.last());
    }
}

proof fn lemma_carries_concat(
    fo: Seq<u32>,
    hd: Seq<u32>,
    rv: Seq<u32>,
    a: Seq<u8>,
    b: Seq<u8>,
    c: Seq<u8>,
    u: int,
    v: int,
)
    requires
        carries_flow(fo, hd, rv, a, b, u),
        carries_flow(fo, hd, rv, b, c, v),
    ensures
        carries_flow(fo, hd, rv, a, c, u + v),
{
    let p1 = choose|paths: Seq<Seq<u32>>|
        paths.len() == u && #[trigger] log_valid(fo, hd, rv, a, paths) && log_end(rv, a, paths) == b;
    let p2 = choose|paths: Seq<Seq<u32>>|
        paths.len() == v && #[trigger] log_valid(fo, hd, rv, b, paths) && log_end(rv, b, paths) == c;
    lemma_log_concat(fo, hd, rv, a, p1, p2);
    assert(log_valid(fo, hd, rv, a, p1 + p2));
}

/// Pushes one unit along the arcs of an augmenting path: each finite arc
/// loses a unit of residual capacity and its reverse gains one unless it
/// is infinite.
fn push_unit(net: &mut FlowNetwork, path_arcs: &Vec<u32>)
    requires
        old(net).shape_ok(old(net).first_out@.len() - 1),
        forall|i: int| 0 <= i < path_arcs@.len() ==> (#[trigger] path_arcs@[i] as int) < old(net).head@.len(),
        forall|i: int| 0 <= i < path_arcs@.len() ==> old(net).cap@[#[trigger] path_arcs@[i] as int] > 0,
        forall|i: int, j: int| 0 <= i < j < path_arcs@.len() ==> #[trigger] path_arcs@[i] != #[trigger] path_arcs@[j],
    ensures
        final(net).first_out@ == old(net).first_out@,
        final(net).head@ == old(net).head@,
        final(net).rev@ == old(net).rev@,
        final(net).cap@.len() == old(net).cap@.len(),
        forall|a: int| 0 <= a < old(net).cap@.len() && old(net).cap@[a] == INFINITE_CAPACITY ==> #[trigger] final(net).cap@[a]
            == INFINITE_CAPACITY,
        final(net).cap@ == push_path(old(net).cap@, old(net).rev@, path_arcs@),
{
    let mut i: usize = 0;
    while i < path_arcs.len()
        invariant
            net.cap@ == push_path(old(net).cap@, old(net).rev@, path_arcs@.take(i as int)),
            net.first_out@ == old(net).first_out@,
            net.head@ == old(net).head@,
            net.rev@ == old(net).rev@,
            net.cap@.len() == old(net).cap@.len(),
            old(net).shape_ok(old(net).first_out@.len() - 1),
            i <= path_arcs@.len(),
            forall|j: int| 0 <= j < path_arcs@.len() ==> (#[trigger] path_arcs@[j] as int) < old(net).head@.len(),
            forall|j: int| i <= j < path_arcs@.len() ==> net.cap@[#[trigger] path_arcs@[j] as int] > 0,
            forall|j: int, l: int| 0 <= j < l < path_arcs@.len() ==> #[trigger] path_arcs@[j] != #[trigger] path_arcs@[l],
            forall|a: int| 0 <= a < old(net).cap@.len() && old(net).cap@[a] == INFINITE_CAPACITY ==> #[trigger] net.cap@[a]
                == INFINITE_CAPACITY,
        decreases path_arcs@.len() - i,
    {
        proof {
            assert(path_arcs@.take(i + 1).drop_last() =~= path_arcs@.take(i as int));
        }
        let arc = path_arcs[i] as usize;
        let c = net.cap[arc];
        if c != INFINITE_CAPACITY {
            net.cap.set(arc, c - 1);
        }
        let back = net.rev[arc] as usize;
        let cb = net.cap[back];
        if cb != INFINITE_CAPACITY {
            net.cap.set(back, cb + 1);
        }
        proof {
            assert forall|j: int| i + 1 <= j < path_arcs@.len() implies net.cap@[#[trigger] path_arcs@[j] as int] > 0 by {
                assert(path_arcs@[i as int] != path_arcs@[j]);
            }
        }
        i += 1;
    }
    proof {
        assert(path_arcs@.take(path_arcs@.len() as int) =~= path_arcs@);
    }
}

/// The first arc of the path left without residual capacity, else 0.
fn first_saturated(net: &FlowNetwork, path_arcs: &Vec<u32>) -> (r: usize)
    requires
        path_arcs@.len() > 0,
        forall|i: int| 0 <= i < path_arcs@.len() ==> (#[trigger] path_arcs@[i] as int) < net.cap@.len(),
    ensures
        r < path_arcs@.len(),
        forall|i: int| 0 <= i < r ==> net.cap@[#[trigger] path_arcs@[i] as int] > 0,
        net.cap@[path_arcs@[r as int] as int] == 0 || (r == 0 && forall|i: int|
            0 <= i < path_arcs@.len() ==> net.cap@[#[trigger] path_arcs@[i] as int] > 0),
{
    let mut j: usize = 0;
    while j < path_arcs.len()
        invariant
            j <= path_arcs@.len(),
            forall|i: int| 0 <= i < path_arcs@.len() ==> (#[trigger] path_arcs@[i] as int) < net.cap@.len(),
            forall|i: int| 0 <= i < j ==> net.cap@[#[trigger] path_arcs@[i] as int] > 0,
        decreases path_arcs@.len() - j,
    {
        if net.cap[path_arcs[j] as usize] == 0 {
            return j;
        }
        j += 1;
    }
    0
}

proof fn lemma_dead_end_kill(fo: Seq<u32>, hd: Seq<u32>, cp: Seq<u8>, l0: Seq<i32>, lv: Seq<i32>, x: int, upto: int, w: int)
    requires
        dead_end(fo, hd, cp, l0, lv, x, upto),
        0 <= w < lv.len(),
        forall|a: int| fo[x] <= a < upto ==> (#[trigger] hd[a] as int) < lv.len(),
    ensures
        dead_end(fo, hd, cp, l0, lv.update(w, -1i32), x, upto),
{
    assert forall|a: int| fo[x] <= a < upto implies cp[a] == 0 || l0[#[trigger] hd[a] as int] != l0[x] + 1 || lv.update(
        w,
        -1i32,
    )[hd[a] as int] < 0 by {
        if hd[a] as int != w {
            assert(lv.update(w, -1i32)[hd[a] as int] == lv[hd[a] as int]);
        }
    }
}

/// The path of the depth-first search: arc `i` leaves `tails[i]` (at
/// level `i`, its cursor on that arc, residual capacity left) for the next
/// tail or, last, for `node`.
pub open spec fn path_ok(
    fo: Seq<u32>,
    hd: Seq<u32>,
    cp: Seq<u8>,
    l0: Seq<i32>,
    lv: Seq<i32>,
    it: Seq<u32>,
    arcs: Seq<u32>,
    tails: Seq<u32>,
    node: int,
    n: int,
) -> bool {
    let k = arcs.len() as int;
    &&& tails.len() == k
    &&& 0 <= node < n
    &&& lv[node] == l0[node]
    &&& l0[node] == k
    &&& k == 0 ==> node == 0
    &&& forall|i: int| 0 <= i < k ==> (#[trigger] tails[i] as int) < n
    &&& forall|i: int| 0 <= i < k ==> lv[#[trigger] tails[i] as int] == i && l0[tails[i] as int] == i
    &&& forall|i: int| 0 <= i < k ==> in_row(fo, tails[i] as int, #[trigger] arcs[i] as int)
    &&& forall|i: int| 0 <= i < k ==> it[#[trigger] tails[i] as int] == arcs[i]
    &&& forall|i: int| 0 <= i < k ==> cp[#[trigger] arcs[i] as int] > 0
    &&& forall|i: int| 0 <= i < k - 1 ==> hd[#[trigger] arcs[i] as int] == tails[i + 1]
    &&& k > 0 ==> hd[arcs[k - 1] as int] as int == node
}

/// The levels of a BFS from the source that reached the sink.
pub open spec fn phase_levels(fo: Seq<u32>, hd: Seq<u32>, cp: Seq<u8>, l0: Seq<i32>, n: int) -> bool {
    &&& l0.len() == n
    &&& l0[0] == 0
    &&& l0[1] >= 0
    &&& forall|x: int| 0 <= x < n ==> #[trigger] l0[x] == -1 || 0 <= l0[x] < n
    &&& forall|x: int| 0 < x < n ==> #[trigger] l0[x] != 0
    &&& forall|y: int| 0 <= y < n && #[trigger] l0[y] >= 1 ==> has_pred(fo, hd, cp, l0, y)
}

/// Arcs of a search path are distinct arcs of the network.
proof fn lemma_path_arcs_distinct(
    fo: Seq<u32>,
    hd: Seq<u32>,
    cp: Seq<u8>,
    l0: Seq<i32>,
    lv: Seq<i32>,
    it: Seq<u32>,
    arcs: Seq<u32>,
    tails: Seq<u32>,
    node: int,
    n: int,
)
    requires
        path_ok(fo, hd, cp, l0, lv, it, arcs, tails, node, n),
        csr_ok(fo, hd, n),
    ensures
        forall|i: int, j: int| 0 <= i < j < arcs.len() ==> #[trigger] arcs[i] != #[trigger] arcs[j],
        forall|i: int| 0 <= i < arcs.len() ==> (#[trigger] arcs[i] as int) < hd.len(),
{
    assert forall|i: int, j: int| 0 <= i < j < arcs.len() implies #[trigger] arcs[i] != #[trigger] arcs[j] by {
        lemma_rows_disjoint(fo, n, tails[i] as int, tails[j] as int, arcs[i] as int, arcs[j] as int);
    }
    assert forall|i: int| 0 <= i < arcs.len() implies (#[trigger] arcs[i] as int) < hd.len() by {
        assert(in_row(fo, tails[i] as int, arcs[i] as int));
        assert(fo[tails[i] + 1] <= fo[n]);
    }
}

/// Stepping along a residual arc into the next level extends the path.
proof fn lemma_path_extend(
    fo: Seq<u32>,
    hd: Seq<u32>,
    cp: Seq<u8>,
    l0: Seq<i32>,
    lv: Seq<i32>,
    it: Seq<u32>,
    arcs: Seq<u32>,
    tails: Seq<u32>,
    node: int,
    n: int,
    arc: u32,
)
    requires
        path_ok(fo, hd, cp, l0, lv, it, arcs, tails, node, n),
        csr_ok(fo, hd, n),
        lv.len() == n,
        l0.len() == n,
        forall|y: int| 0 <= y < n ==> #[trigger] lv[y] == l0[y] || lv[y] == -1,
        in_row(fo, node, arc as int),
        it[node] == arc,
        cp[arc as int] > 0,
        lv[hd[arc as int] as int] == lv[node] + 1,
    ensures
        path_ok(fo, hd, cp, l0, lv, it, arcs.push(arc), tails.push(node as u32), hd[arc as int] as int, n),
{
    assert(fo[node + 1] <= fo[n]);
    let target = hd[arc as int] as int;
    assert(lv[target] == l0[target]);
    let arcs2 = arcs.push(arc);
    let tails2 = tails.push(node as u32);
    let k = arcs.len() as int;
    assert forall|i: int| 0 <= i < k + 1 implies lv[#[trigger] tails2[i] as int] == i && l0[tails2[i] as int] == i by {
        if i < k {
            assert(tails2[i] == tails[i]);
        }
    }
    assert forall|i: int| 0 <= i < k + 1 implies in_row(fo, tails2[i] as int, #[trigger] arcs2[i] as int) by {
        if i < k {
            assert(tails2[i] == tails[i] && arcs2[i] == arcs[i]);
        }
    }
    assert forall|i: int| 0 <= i < k + 1 implies it[#[trigger] tails2[i] as int] == arcs2[i] by {
        if i < k {
            assert(tails2[i] == tails[i] && arcs2[i] == arcs[i]);
        }
    }
    assert forall|i: int| 0 <= i < k + 1 implies cp[#[trigger] arcs2[i] as int] > 0 by {
        if i < k {
            assert(arcs2[i] == arcs[i]);
        }
    }
    assert forall|i: int| 0 <= i < k implies hd[#[trigger] arcs2[i] as int] == tails2[i + 1] by {
        assert(arcs2[i] == arcs[i]);
        if i < k - 1 {
            assert(tails2[i + 1] == tails[i + 1]);
        }
    }
    assert forall|i: int| 0 <= i < k + 1 implies (#[trigger] tails2[i] as int) < n by {
        if i < k {
            assert(tails2[i] == tails[i]);
        }
    }
}

/// Killing the dead end `node` and retreating along the last path arc,
/// past it, keeps the path and the dead-end bookkeeping.
proof fn lemma_path_retreat(
    fo: Seq<u32>,
    hd: Seq<u32>,
    cp: Seq<u8>,
    l0: Seq<i32>,
    lv: Seq<i32>,
    it: Seq<u32>,
    arcs: Seq<u32>,
    tails: Seq<u32>,
    node: int,
    n: int,
)
    requires
        path_ok(fo, hd, cp, l0, lv, it, arcs, tails, node, n),
        csr_ok(fo, hd, n),
        arcs.len() > 0,
        lv.len() == n,
        it.len() == n,
        forall|x: int| 0 < x < n ==> #[trigger] l0[x] != 0,
    ensures
        ({
            let tail = tails.last() as int;
            path_ok(
                fo,
                hd,
                cp,
                l0,
                lv.update(node, -1i32),
                it.update(tail, (it[tail] + 1) as u32),
                arcs.drop_last(),
                tails.drop_last(),
                tail,
                n,
            )
        }),
        it[tails.last() as int] < fo[tails.last() + 1],
        hd[it[tails.last() as int] as int] as int == node,
{
    let k = arcs.len() as int;
    let tail = tails.last() as int;
    let lv2 = lv.update(node, -1i32);
    let it2 = it.update(tail, (it[tail] + 1) as u32);
    let arcs2 = arcs.drop_last();
    let tails2 = tails.drop_last();
    assert(in_row(fo, tails[k - 1] as int, arcs[k - 1] as int));
    assert forall|i: int| 0 <= i < k - 1 implies lv2[#[trigger] tails2[i] as int] == i && l0[tails2[i] as int] == i by {
        assert(tails2[i] == tails[i]);
        assert(lv[tails[i] as int] == i);
    }
    assert forall|i: int| 0 <= i < k - 1 implies it2[#[trigger] tails2[i] as int] == arcs2[i] by {
        assert(tails2[i] == tails[i] && arcs2[i] == arcs[i]);
        assert(lv[tails[i] as int] == i && lv[tail] == k - 1);
    }
    assert forall|i: int| 0 <= i < k - 1 implies in_row(fo, tails2[i] as int, #[trigger] arcs2[i] as int) by {
        assert(tails2[i] == tails[i] && arcs2[i] == arcs[i]);
    }
    assert forall|i: int| 0 <= i < k - 1 implies cp[#[trigger] arcs2[i] as int] > 0 by {
        assert(arcs2[i] == arcs[i]);
    }
    assert forall|i: int| 0 <= i < k - 2 implies hd[#[trigger] arcs2[i] as int] == tails2[i + 1] by {
        assert(arcs2[i] == arcs[i] && tails2[i + 1] == tails[i + 1]);
    }
    if k > 1 {
        assert(hd[arcs[k - 2] as int] == tails[k - 1]);
        assert(arcs2[k - 2] == arcs[k - 2]);
    }
    assert forall|i: int| 0 <= i < k - 1 implies (#[trigger] tails2[i] as int) < n by {
        assert(tails2[i] == tails[i]);
    }
    assert(lv[tail] == k - 1);
    assert(tail != node);
    assert(lv2[tail] == lv[tail]);
    if k == 1 {
        assert(l0[tail] == 0);
    }
}

/// After a push, the path up to the first saturated arc is still a path,
/// ending at the tail of that arc.
proof fn lemma_path_truncate(
    fo: Seq<u32>,
    hd: Seq<u32>,
    cp: Seq<u8>,
    cp2: Seq<u8>,
    l0: Seq<i32>,
    lv: Seq<i32>,
    it: Seq<u32>,
    arcs: Seq<u32>,
    tails: Seq<u32>,
    node: int,
    n: int,
    sat: int,
)
    requires
        path_ok(fo, hd, cp, l0, lv, it, arcs, tails, node, n),
        0 <= sat < arcs.len(),
        forall|i: int| 0 <= i < sat ==> cp2[#[trigger] arcs[i] as int] > 0,
        forall|x: int| 0 < x < n ==> #[trigger] l0[x] != 0,
    ensures
        path_ok(fo, hd, cp2, l0, lv, it, arcs.take(sat), tails.take(sat), tails[sat] as int, n),
{
    let arcs2 = arcs.take(sat);
    let tails2 = tails.take(sat);
    assert forall|i: int| 0 <= i < sat implies lv[#[trigger] tails2[i] as int] == i && l0[tails2[i] as int] == i by {
        assert(tails2[i] == tails[i]);
    }
    assert forall|i: int| 0 <= i < sat implies it[#[trigger] tails2[i] as int] == arcs2[i] by {
        assert(tails2[i] == tails[i] && arcs2[i] == arcs[i]);
    }
    assert forall|i: int| 0 <= i < sat implies in_row(fo, tails2[i] as int, #[trigger] arcs2[i] as int) by {
        assert(tails2[i] == tails[i] && arcs2[i] == arcs[i]);
    }
    assert forall|i: int| 0 <= i < sat implies cp2[#[trigger] arcs2[i] as int] > 0 by {
        assert(arcs2[i] == arcs[i]);
    }
    assert forall|i: int| 0 <= i < sat - 1 implies hd[#[trigger] arcs2[i] as int] == tails2[i + 1] by {
        assert(arcs2[i] == arcs[i] && tails2[i + 1] == tails[i + 1]);
    }
    if sat > 0 {
        assert(hd[arcs[sat - 1] as int] == tails[sat]);
        assert(arcs2[sat - 1] == arcs[sat - 1]);
    }
    assert forall|i: int| 0 <= i < sat implies (#[trigger] tails2[i] as int) < n by {
        assert(tails2[i] == tails[i]);
    }
    assert(lv[tails[sat] as int] == sat && l0[tails[sat] as int] == sat);
    if sat == 0 {
        if arcs.len() > 0 {
            assert(lv[tails[0] as int] == 0);
            assert(l0[tails[0] as int] == 0);
        }
    }
}

/// Killing a node whose cursor has passed its whole row keeps every dead
/// node a dead end.
proof fn lemma_kill_dead_ends(fo: Seq<u32>, hd: Seq<u32>, cp: Seq<u8>, l0: Seq<i32>, lv: Seq<i32>, it: Seq<u32>, node: int, n: int)
    requires
        csr_ok(fo, hd, n),
        lv.len() == n,
        it.len() == n,
        0 <= node < n,
        lv[node] >= 0,
        it[node] == fo[node + 1],
        forall|y: int| 0 <= y < n && #[trigger] lv[y] < 0 && l0[y] >= 0 ==> dead_end(fo, hd, cp, l0, lv, y, fo[y + 1] as int),
        forall|y: int| 0 <= y < n && #[trigger] lv[y] >= 0 ==> dead_end(fo, hd, cp, l0, lv, y, it[y] as int),
    ensures
        forall|y: int|
            0 <= y < n && #[trigger] lv.update(node, -1i32)[y] < 0 && l0[y] >= 0 ==> dead_end(
                fo,
                hd,
                cp,
                l0,
                lv.update(node, -1i32),
                y,
                fo[y + 1] as int,
            ),
{
    assert forall|y: int|
        0 <= y < n && #[trigger] lv.update(node, -1i32)[y] < 0 && l0[y] >= 0 implies dead_end(
        fo,
        hd,
        cp,
        l0,
        lv.update(node, -1i32),
        y,
        fo[y + 1] as int,
    ) by {
        assert(fo[y + 1] <= fo[n]);
        assert(forall|a: int| fo[y] <= a < fo[y + 1] ==> (#[trigger] hd[a] as int) < lv.len());
        if y == node {
            assert(dead_end(fo, hd, cp, l0, lv, y, it[y] as int));
        } else {
            assert(lv[y] < 0);
        }
        lemma_dead_end_kill(fo, hd, cp, l0, lv, y, fo[y + 1] as int, node);
    }
}

/// Killing a dead end and stepping the cursor of its path predecessor past
/// the arc into it keeps the dead-end bookkeeping of dead and live nodes.
proof fn lemma_retreat_dead_ends(
    fo: Seq<u32>,
    hd: Seq<u32>,
    cp: Seq<u8>,
    l0: Seq<i32>,
    lv: Seq<i32>,
    it: Seq<u32>,
    node: int,
    tail: int,
    n: int,
)
    requires
        csr_ok(fo, hd, n),
        lv.len() == n,
        it.len() == n,
        0 <= node < n,
        0 <= tail < n,
        tail != node,
        lv[node] >= 0,
        it[node] == fo[node + 1],
        fo[tail] <= it[tail] < fo[tail + 1],
        hd[it[tail] as int] as int == node,
        forall|y: int| 0 <= y < n ==> fo[y] <= #[trigger] it[y] <= fo[y + 1],
        forall|y: int| 0 <= y < n && #[trigger] lv[y] < 0 && l0[y] >= 0 ==> dead_end(fo, hd, cp, l0, lv, y, fo[y + 1] as int),
        forall|y: int| 0 <= y < n && #[trigger] lv[y] >= 0 ==> dead_end(fo, hd, cp, l0, lv, y, it[y] as int),
    ensures
        forall|y: int|
            0 <= y < n && #[trigger] lv.update(node, -1i32)[y] < 0 && l0[y] >= 0 ==> dead_end(
                fo,
                hd,
                cp,
                l0,
                lv.update(node, -1i32),
                y,
                fo[y + 1] as int,
            ),
        forall|y: int|
            0 <= y < n && #[trigger] lv.update(node, -1i32)[y] >= 0 ==> dead_end(
                fo,
                hd,
                cp,
                l0,
                lv.update(node, -1i32),
                y,
                it.update(tail, (it[tail] + 1) as u32)[y] as int,
            ),
{
    lemma_kill_dead_ends(fo, hd, cp, l0, lv, it, node, n);
    let lv2 = lv.update(node, -1i32);
    let it2 = it.update(tail, (it[tail] + 1) as u32);
    assert forall|y: int| 0 <= y < n && #[trigger] lv2[y] >= 0 implies dead_end(fo, hd, cp, l0, lv2, y, it2[y] as int) by {
        assert(y != node);
        assert(lv[y] >= 0);
        assert(fo[y + 1] <= fo[n]);
        assert(dead_end(fo, hd, cp, l0, lv, y, it[y] as int));
        assert(forall|a: int| fo[y] <= a < it[y] ==> (#[trigger] hd[a] as int) < lv.len());
        lemma_dead_end_kill(fo, hd, cp, l0, lv, y, it[y] as int, node);
        if y == tail {
            assert forall|a: int| fo[y] <= a < it2[y] implies cp[a] == 0 || l0[#[trigger] hd[a] as int] != l0[y] + 1 || lv2[hd[a] as int] < 0 by {
                if a == it[tail] {
                    assert(lv2[node] == -1);
                }
            }
        }
    }
}

/// Moving the cursor of a live node past arcs that lead to no live node
/// one level further keeps it a dead end up to its cursor.
proof fn lemma_advance_dead_ends(
    fo: Seq<u32>,
    hd: Seq<u32>,
    cp: Seq<u8>,
    l0: Seq<i32>,
    lv: Seq<i32>,
    it: Seq<u32>,
    it2: Seq<u32>,
    node: int,
    n: int,
)
    requires
        csr_ok(fo, hd, n),
        lv.len() == n,
        l0.len() == n,
        it.len() == n,
        it2.len() == n,
        0 <= node < n,
        lv[node] == l0[node],
        forall|y: int| 0 <= y < n ==> #[trigger] lv[y] == l0[y] || lv[y] == -1,
        forall|y: int| 0 <= y < n && y != node ==> #[trigger] it2[y] == it[y],
        it[node] <= it2[node] <= fo[node + 1],
        forall|a: int| it[node] <= a < it2[node] ==> cp[a] == 0 || lv[#[trigger] hd[a] as int] != lv[node] + 1,
        forall|y: int| 0 <= y < n && #[trigger] lv[y] >= 0 ==> dead_end(fo, hd, cp, l0, lv, y, it[y] as int),
    ensures
        forall|y: int| 0 <= y < n && #[trigger] lv[y] >= 0 ==> dead_end(fo, hd, cp, l0, lv, y, it2[y] as int),
{
    assert forall|y: int| 0 <= y < n && #[trigger] lv[y] >= 0 implies dead_end(fo, hd, cp, l0, lv, y, it2[y] as int) by {
        if y == node {
            assert(dead_end(fo, hd, cp, l0, lv, y, it[y] as int));
            assert forall|a: int| fo[y] <= a < it2[y] implies cp[a] == 0 || l0[#[trigger] hd[a] as int] != l0[y] + 1 || lv[hd[a] as int] < 0 by {
                if a >= it[y] {
                    assert(fo[y + 1] <= fo[n]);
                    assert(lv[hd[a] as int] == l0[hd[a] as int] || lv[hd[a] as int] == -1);
                }
            }
        } else {
            assert(it2[y] == it[y]);
        }
    }
}

/// Moves the cursor of `node` past arcs that lead nowhere useful, stopping
/// at the first residual arc into a node one level further; reports
/// whether it found one.
fn try_advance(net: &FlowNetwork, level: &Vec<i32>, iter: &mut Vec<u32>, node: usize) -> (advanced: bool)
    requires
        net.shape_ok(net.first_out@.len() - 1),
        level@.len() == net.first_out@.len() - 1,
        old(iter)@.len() == net.first_out@.len() - 1,
        node < level@.len(),
        0 <= level@[node as int] < 0x4000_0000,
        forall|y: int| 0 <= y < level@.len() ==> net.first_out@[y] <= #[trigger] old(iter)@[y] <= net.first_out@[y + 1],
    ensures
        final(iter)@.len() == old(iter)@.len(),
        forall|y: int| 0 <= y < level@.len() && y != node ==> #[trigger] final(iter)@[y] == old(iter)@[y],
        old(iter)@[node as int] <= final(iter)@[node as int] <= net.first_out@[node + 1],
        cursor_slack(net.first_out@, final(iter)@, level@.len() as int) + (final(iter)@[node as int] - old(iter)@[node as int])
            == cursor_slack(net.first_out@, old(iter)@, level@.len() as int),
        advanced ==> final(iter)@[node as int] < net.first_out@[node + 1] && net.cap@[final(iter)@[node as int] as int] > 0
            && level@[net.head@[final(iter)@[node as int] as int] as int] == level@[node as int] + 1,
        !advanced ==> final(iter)@[node as int] == net.first_out@[node + 1],
        forall|a: int|
            old(iter)@[node as int] <= a < final(iter)@[node as int] ==> net.cap@[a] == 0 || level@[#[trigger] net.head@[a] as int]
                != level@[node as int] + 1,
{
    let ghost n = level@.len() as int;
    let ghost fo = net.first_out@;
    let ghost it0 = iter@;
    let end = net.first_out[node + 1];
    loop
        invariant
            n == fo.len() - 1,
            fo == net.first_out@,
            it0 == old(iter)@,
            it0.len() == n,
            net.shape_ok(n),
            level@.len() == n,
            iter@.len() == n,
            (node as int) < n,
            0 <= level@[node as int] < 0x4000_0000,
            end == fo[node + 1],
            forall|y: int| 0 <= y < n && y != node ==> #[trigger] iter@[y] == it0[y],
            forall|y: int| 0 <= y < n ==> fo[y] <= #[trigger] iter@[y] <= fo[y + 1],
            it0[node as int] <= iter@[node as int],
            cursor_slack(fo, iter@, n) + (iter@[node as int] - it0[node as int]) == cursor_slack(fo, it0, n),
            forall|a: int|
                it0[node as int] <= a < iter@[node as int] ==> net.cap@[a] == 0 || level@[#[trigger] net.head@[a] as int]
                    != level@[node as int] + 1,
        decreases end - iter@[node as int],
    {
        if iter[node] >= end {
            return false;
        }
        let arc = iter[node] as usize;
        proof {
            assert(fo[node + 1] <= fo[n]);
        }
        let target = net.head[arc] as usize;
        if net.cap[arc] > 0 && level[target] == level[node] + 1 {
            return true;
        }
        let ghost before = iter@;
        let next = iter[node] + 1;
        iter.set(node, next);
        proof {
            lemma_cursor_slack_step(fo, before, node as int, next, n);
        }
    }
}

/// What no step of a blocking phase's search breaks: the network keeps
/// its rows and every infinite capacity, dead nodes are dead in the BFS
/// levels `l0` of the phase (the sink never), cursors stay in their rows,
/// and the flow stays below `limit`.
#[verifier::opaque]
pub open spec fn phase_frame(
    net: FlowNetwork,
    lv: Seq<i32>,
    it: Seq<u32>,
    flow: u32,
    limit: u32,
    fo: Seq<u32>,
    hd: Seq<u32>,
    rv: Seq<u32>,
    c0: Seq<u8>,
    l0: Seq<i32>,
    flow0: u32,
    n: int,
) -> bool {
    &&& n == fo.len() - 1
    &&& net.first_out@ == fo
    &&& net.head@ == hd
    &&& net.rev@ == rv
    &&& net.shape_ok(n)
    &&& c0.len() == hd.len()
    &&& forall|a: int| 0 <= a < c0.len() && c0[a] == INFINITE_CAPACITY ==> #[trigger] net.cap@[a] == INFINITE_CAPACITY
    &&& lv.len() == n
    &&& it.len() == n
    &&& phase_levels(fo, hd, c0, l0, n)
    &&& forall|y: int| 0 <= y < n ==> #[trigger] lv[y] == l0[y] || lv[y] == -1
    &&& lv[1] == l0[1]
    &&& forall|y: int| 0 <= y < n ==> fo[y] <= #[trigger] it[y] <= fo[y + 1]
    &&& flow0 <= flow < limit
}

/// Until the phase pushes, the residual capacities are those the levels
/// were computed on, every dead node of the level graph is a dead end, and
/// every live node is a dead end up to its cursor.
#[verifier::opaque]
pub open spec fn phase_dead(
    cp: Seq<u8>,
    lv: Seq<i32>,
    it: Seq<u32>,
    flow: u32,
    fo: Seq<u32>,
    hd: Seq<u32>,
    c0: Seq<u8>,
    l0: Seq<i32>,
    flow0: u32,
    n: int,
) -> bool {
    flow == flow0 ==> {
        &&& cp == c0
        &&& forall|y: int| 0 <= y < n && #[trigger] lv[y] < 0 && l0[y] >= 0 ==> dead_end(fo, hd, cp, l0, lv, y, fo[y + 1] as int)
        &&& forall|y: int| 0 <= y < n && #[trigger] lv[y] >= 0 ==> dead_end(fo, hd, cp, l0, lv, y, it[y] as int)
    }
}

/// The state of a blocking phase between two steps of its search.
#[verifier::opaque]
pub open spec fn phase_inv(
    net: FlowNetwork,
    lv: Seq<i32>,
    it: Seq<u32>,
    arcs: Seq<u32>,
    tails: Seq<u32>,
    node: int,
    flow: u32,
    limit: u32,
    fo: Seq<u32>,
    hd: Seq<u32>,
    rv: Seq<u32>,
    c0: Seq<u8>,
    l0: Seq<i32>,
    flow0: u32,
    n: int,
) -> bool {
    &&& phase_frame(net, lv, it, flow, limit, fo, hd, rv, c0, l0, flow0, n)
    &&& path_ok(fo, hd, net.cap@, l0, lv, it, arcs, tails, node, n)
    &&& phase_dead(net.cap@, lv, it, flow, fo, hd, c0, l0, flow0, n)
}

/// The search measure `(limit - flow, live nodes, cursor slack, n - path
/// length)` went down lexicographically and stays non-negative.
pub open spec fn phase_progress(
    limit: u32,
    flow: u32,
    lv: Seq<i32>,
    it: Seq<u32>,
    arcs: Seq<u32>,
    flow_before: u32,
    lv_before: Seq<i32>,
    it_before: Seq<u32>,
    arcs_before: Seq<u32>,
    fo: Seq<u32>,
    n: int,
) -> bool {
    let (a, b, c, d) = (limit - flow, count_nonneg(lv) as int, cursor_slack(fo, it, n), n - arcs.len());
    let (a0, b0, c0, d0) = (
        limit - flow_before,
        count_nonneg(lv_before) as int,
        cursor_slack(fo, it_before, n),
        n - arcs_before.len(),
    );
    &&& a >= 0
    &&& b >= 0
    &&& c >= 0
    &&& d >= 0
    &&& (a < a0 || (a == a0 && (b < b0 || (b == b0 && (c < c0 || (c == c0 && d < d0))))))
}

/// The plain facts that a blocking phase's invariant gives its steps.
proof fn lemma_phase_facts(
    net: FlowNetwork,
    lv: Seq<i32>,
    it: Seq<u32>,
    arcs: Seq<u32>,
    tails: Seq<u32>,
    node: int,
    flow: u32,
    limit: u32,
    fo: Seq<u32>,
    hd: Seq<u32>,
    rv: Seq<u32>,
    c0: Seq<u8>,
    l0: Seq<i32>,
    flow0: u32,
    n: int,
)
    requires
        phase_inv(net, lv, it, arcs, tails, node, flow, limit, fo, hd, rv, c0, l0, flow0, n),
    ensures
        n == fo.len() - 1,
        net.shape_ok(n),
        net.first_out@ == fo,
        net.head@ == hd,
        net.rev@ == rv,
        net.cap@.len() == c0.len(),
        forall|a: int| 0 <= a < c0.len() && c0[a] == INFINITE_CAPACITY ==> #[trigger] net.cap@[a] == INFINITE_CAPACITY,
        lv.len() == n,
        it.len() == n,
        arcs.len() == tails.len(),
        0 <= node < n,
        lv[node] == l0[node],
        0 <= lv[node] < 0x4000_0000,
        forall|y: int| 0 <= y < n ==> fo[y] <= #[trigger] it[y] <= fo[y + 1],
        flow0 <= flow < limit,
        path_ok(fo, hd, net.cap@, l0, lv, it, arcs, tails, node, n),
        phase_levels(fo, hd, c0, l0, n),
        forall|y: int| 0 <= y < n ==> #[trigger] lv[y] == l0[y] || lv[y] == -1,
        lv[1] == l0[1],
{
    reveal(phase_inv);
    reveal(phase_frame);
}

/// Dead-end bookkeeping survives moving the cursor of a live node past
/// arcs that lead to no live node one level further.
proof fn lemma_dead_forward(
    cp: Seq<u8>,
    lv: Seq<i32>,
    it: Seq<u32>,
    it2: Seq<u32>,
    flow: u32,
    fo: Seq<u32>,
    hd: Seq<u32>,
    c0: Seq<u8>,
    l0: Seq<i32>,
    flow0: u32,
    n: int,
    node: int,
)
    requires
        phase_dead(cp, lv, it, flow, fo, hd, c0, l0, flow0, n),
        csr_ok(fo, hd, n),
        lv.len() == n,
        l0.len() == n,
        it.len() == n,
        it2.len() == n,
        0 <= node < n,
        lv[node] == l0[node],
        forall|y: int| 0 <= y < n ==> #[trigger] lv[y] == l0[y] || lv[y] == -1,
        forall|y: int| 0 <= y < n && y != node ==> #[trigger] it2[y] == it[y],
        it[node] <= it2[node] <= fo[node + 1],
        forall|a: int| it[node] <= a < it2[node] ==> cp[a] == 0 || lv[#[trigger] hd[a] as int] != lv[node] + 1,
    ensures
        phase_dead(cp, lv, it2, flow, fo, hd, c0, l0, flow0, n),
{
    reveal(phase_dead);
    if flow == flow0 {
        lemma_advance_dead_ends(fo, hd, cp, l0, lv, it, it2, node, n);
    }
}

/// Dead-end bookkeeping survives killing a dead end whose cursor has
/// passed its row and stepping its path predecessor's cursor past the arc
/// into it.
proof fn lemma_dead_back(
    cp: Seq<u8>,
    lv: Seq<i32>,
    it: Seq<u32>,
    it2: Seq<u32>,
    flow: u32,
    fo: Seq<u32>,
    hd: Seq<u32>,
    c0: Seq<u8>,
    l0: Seq<i32>,
    flow0: u32,
    n: int,
    node: int,
    tail: int,
)
    requires
        phase_dead(cp, lv, it, flow, fo, hd, c0, l0, flow0, n),
        csr_ok(fo, hd, n),
        lv.len() == n,
        l0.len() == n,
        it.len() == n,
        it2.len() == n,
        0 <= node < n,
        0 <= tail < n,
        tail != node,
        lv[node] == l0[node],
        lv[node] >= 0,
        forall|y: int| 0 <= y < n ==> #[trigger] lv[y] == l0[y] || lv[y] == -1,
        forall|y: int| 0 <= y < n && y != node ==> #[trigger] it2[y] == it[y],
        it[node] <= it2[node],
        it2[node] == fo[node + 1],
        forall|a: int| it[node] <= a < it2[node] ==> cp[a] == 0 || lv[#[trigger] hd[a] as int] != lv[node] + 1,
        fo[tail] <= it2[tail] < fo[tail + 1],
        hd[it2[tail] as int] as int == node,
        forall|y: int| 0 <= y < n ==> fo[y] <= #[trigger] it2[y] <= fo[y + 1],
    ensures
        phase_dead(cp, lv.update(node, -1i32), it2.update(tail, (it2[tail] + 1) as u32), flow, fo, hd, c0, l0, flow0, n),
{
    reveal(phase_dead);
    if flow == flow0 {
        lemma_advance_dead_ends(fo, hd, cp, l0, lv, it, it2, node, n);
        lemma_retreat_dead_ends(fo, hd, c0, l0, lv, it2, node, tail, n);
    }
}

/// Once the phase has pushed, nothing is left to keep.
proof fn lemma_dead_pushed(
    cp: Seq<u8>,
    lv: Seq<i32>,
    it: Seq<u32>,
    flow: u32,
    fo: Seq<u32>,
    hd: Seq<u32>,
    c0: Seq<u8>,
    l0: Seq<i32>,
    flow0: u32,
    n: int,
)
    requires
        flow != flow0,
    ensures
        phase_dead(cp, lv, it, flow, fo, hd, c0, l0, flow0, n),
{
    reveal(phase_dead);
}

/// When the source itself becomes a dead end, the phase has pushed.
proof fn lemma_dead_source(
    cp: Seq<u8>,
    lv: Seq<i32>,
    it: Seq<u32>,
    it2: Seq<u32>,
    flow: u32,
    fo: Seq<u32>,
    hd: Seq<u32>,
    c0: Seq<u8>,
    l0: Seq<i32>,
    flow0: u32,
    n: int,
)
    requires
        phase_dead(cp, lv, it, flow, fo, hd, c0, l0, flow0, n),
        phase_levels(fo, hd, c0, l0, n),
        csr_ok(fo, hd, n),
        n >= 2,
        flow0 <= flow,
        lv.len() == n,
        it.len() == n,
        it2.len() == n,
        lv[0] == l0[0],
        lv[1] == l0[1],
        forall|y: int| 0 <= y < n ==> #[trigger] lv[y] == l0[y] || lv[y] == -1,
        forall|y: int| 0 < y < n ==> #[trigger] it2[y] == it[y],
        it[0] <= it2[0],
        it2[0] == fo[1],
        forall|a: int| it[0] <= a < it2[0] ==> cp[a] == 0 || lv[#[trigger] hd[a] as int] != lv[0] + 1,
    ensures
        flow0 < flow,
{
    reveal(phase_dead);
    if flow == flow0 {
        lemma_advance_dead_ends(fo, hd, cp, l0, lv, it, it2, 0, n);
        lemma_kill_dead_ends(fo, hd, c0, l0, lv, it2, 0, n);
        assert forall|y: int| 0 <= y < n implies #[trigger] lv.update(0, -1i32)[y] == l0[y] || lv.update(0, -1i32)[y] == -1 by {}
        lemma_all_dead(fo, hd, c0, l0, lv.update(0, -1i32), 1);
        assert(lv.update(0, -1i32)[1] == lv[1]);
        assert(l0[1] >= 0);
    }
}

/// Pushing a unit and backing up to the tail of the first saturated arc
/// keeps the invariant and makes progress.
proof fn lemma_phase_push(
    net: FlowNetwork,
    net2: FlowNetwork,
    lv: Seq<i32>,
    it: Seq<u32>,
    arcs: Seq<u32>,
    tails: Seq<u32>,
    node: int,
    flow: u32,
    limit: u32,
    fo: Seq<u32>,
    hd: Seq<u32>,
    rv: Seq<u32>,
    c0: Seq<u8>,
    l0: Seq<i32>,
    flow0: u32,
    n: int,
    sat: int,
)
    requires
        phase_inv(net, lv, it, arcs, tails, node, flow, limit, fo, hd, rv, c0, l0, flow0, n),
        node == 1,
        flow + 1 < limit,
        net2.first_out@ == net.first_out@,
        net2.head@ == net.head@,
        net2.rev@ == net.rev@,
        net2.cap@.len() == net.cap@.len(),
        forall|a: int| 0 <= a < net.cap@.len() && net.cap@[a] == INFINITE_CAPACITY ==> #[trigger] net2.cap@[a]
            == INFINITE_CAPACITY,
        0 <= sat < arcs.len(),
        forall|i: int| 0 <= i < sat ==> net2.cap@[#[trigger] arcs[i] as int] > 0,
    ensures
        phase_inv(net2, lv, it, arcs.take(sat), tails.take(sat), tails[sat] as int, (flow + 1) as u32, limit, fo, hd, rv, c0, l0, flow0, n),
        phase_progress(limit, (flow + 1) as u32, lv, it, arcs.take(sat), flow, lv, it, arcs, fo, n),
{
    reveal(phase_inv);
    reveal(phase_frame);
    lemma_count_nonneg_bound(lv);
    lemma_cursor_slack_nonneg(fo, it, n);
    lemma_path_truncate(fo, hd, net.cap@, net2.cap@, l0, lv, it, arcs, tails, node, n, sat);
    lemma_dead_pushed(net2.cap@, lv, it, (flow + 1) as u32, fo, hd, c0, l0, flow0, n);
    assert forall|a: int| 0 <= a < c0.len() && c0[a] == INFINITE_CAPACITY implies #[trigger] net2.cap@[a] == INFINITE_CAPACITY by {
        assert(net.cap@[a] == INFINITE_CAPACITY);
    }
}

/// The step of a blocking phase at the sink: push a unit along the path
/// and back up to the tail of its first saturated arc.
fn step_at_sink(
    net: &mut FlowNetwork,
    level: &mut Vec<i32>,
    iter: &mut Vec<u32>,
    path_arcs: &mut Vec<u32>,
    path_tails: &mut Vec<u32>,
    node: &mut usize,
    flow: &mut u32,
    limit: u32,
    Ghost(fo): Ghost<Seq<u32>>,
    Ghost(hd): Ghost<Seq<u32>>,
    Ghost(rv): Ghost<Seq<u32>>,
    Ghost(c0): Ghost<Seq<u8>>,
    Ghost(l0): Ghost<Seq<i32>>,
    Ghost(flow0): Ghost<u32>,
    Ghost(n): Ghost<int>,
) -> (outcome: u8)
    requires
        *old(node) == FLOW_SINK,
        phase_inv(
            *old(net),
            old(level)@,
            old(iter)@,
            old(path_arcs)@,
            old(path_tails)@,
            *old(node) as int,
            *old(flow),
            limit,
            fo,
            hd,
            rv,
            c0,
            l0,
            flow0,
            n,
        ),
    ensures
        outcome <= 1,
        *final(flow) == *old(flow) + 1,
        augmenting(fo, hd, old(net).cap@, old(path_arcs)@),
        final(net).cap@ == push_path(old(net).cap@, rv, old(path_arcs)@),
        outcome == 1 ==> *final(flow) == limit,
        final(net).first_out@ == fo,
        final(net).head@ == hd,
        final(net).rev@ == rv,
        final(net).cap@.len() == c0.len(),
        forall|a: int| 0 <= a < c0.len() && c0[a] == INFINITE_CAPACITY ==> #[trigger] final(net).cap@[a] == INFINITE_CAPACITY,
        final(level)@.len() == n,
        final(iter)@.len() == n,
        outcome == 1 ==> *final(flow) >= limit,
        outcome == 2 ==> flow0 < *final(flow) < limit,
        outcome == 0 ==> phase_inv(
            *final(net),
            final(level)@,
            final(iter)@,
            final(path_arcs)@,
            final(path_tails)@,
            *final(node) as int,
            *final(flow),
            limit,
            fo,
            hd,
            rv,
            c0,
            l0,
            flow0,
            n,
        ) && phase_progress(
            limit,
            *final(flow),
            final(level)@,
            final(iter)@,
            final(path_arcs)@,
            *old(flow),
            old(level)@,
            old(iter)@,
            old(path_arcs)@,
            fo,
            n,
        ),
{
    proof {
        lemma_phase_facts(*net, level@, iter@, path_arcs@, path_tails@, *node as int, *flow, limit, fo, hd, rv, c0, l0, flow0, n);
        lemma_path_arcs_distinct(fo, hd, net.cap@, l0, level@, iter@, path_arcs@, path_tails@, *node as int, n);
        let arcs = path_arcs@;
        let tails = path_tails@;
        let k = arcs.len() as int;
        assert(k > 0);
        assert(tails[0] == 0) by {
            assert(l0[tails[0] as int] == 0);
        }
        assert(in_row(fo, 0, arcs[0] as int));
        assert forall|i: int| 0 <= i < k - 1 implies #[trigger] in_row(fo, hd[arcs[i] as int] as int, arcs[i + 1] as int) by {
            assert(hd[arcs[i] as int] == tails[i + 1]);
            assert(in_row(fo, tails[i + 1] as int, arcs[i + 1] as int));
        }
        assert forall|i: int| 0 <= i < k implies (#[trigger] arcs[i] as int) < hd.len() && net.cap@[arcs[i] as int] > 0 by {
            assert(in_row(fo, tails[i] as int, arcs[i] as int));
            assert(fo[tails[i] as int + 1] <= fo[n]);
        }
        assert(augmenting(fo, hd, net.cap@, path_arcs@));
    }
    let ghost net_before = *net;
    let ghost arcs_start = path_arcs@;
    let ghost tails_start = path_tails@;
    push_unit(net, path_arcs);
    if *flow + 1 >= limit {
        *flow = *flow + 1;
        return 1;
    }
    let saturated = first_saturated(net, path_arcs);
    proof {
        lemma_phase_push(net_before, *net, level@, iter@, path_arcs@, path_tails@, *node as int, *flow, limit, fo, hd, rv, c0, l0, flow0, n, saturated as int);
    }
    *flow = *flow + 1;
    *node = path_tails[saturated] as usize;
    path_arcs.truncate(saturated);
    path_tails.truncate(saturated);
    proof {
        assert(path_arcs@ =~= arcs_start.take(saturated as int));
        assert(path_tails@ =~= tails_start.take(saturated as int));
    }
    0
}

/// Advancing along a useful arc keeps the invariant and makes progress.
proof fn lemma_phase_forward(
    net: FlowNetwork,
    lv: Seq<i32>,
    it: Seq<u32>,
    it2: Seq<u32>,
    arcs: Seq<u32>,
    tails: Seq<u32>,
    node: int,
    flow: u32,
    limit: u32,
    fo: Seq<u32>,
    hd: Seq<u32>,
    rv: Seq<u32>,
    c0: Seq<u8>,
    l0: Seq<i32>,
    flow0: u32,
    n: int,
    arc: u32,
)
    requires
        node != 1,
        phase_inv(net, lv, it, arcs, tails, node, flow, limit, fo, hd, rv, c0, l0, flow0, n),
        it2.len() == it.len(),
        forall|y: int| 0 <= y < n && y != node ==> #[trigger] it2[y] == it[y],
        it[node] <= it2[node] <= fo[node + 1],
        cursor_slack(fo, it2, n) + (it2[node] - it[node]) == cursor_slack(fo, it, n),
        it2[node] == arc,
        arc < fo[node + 1],
        net.cap@[arc as int] > 0,
        lv[hd[arc as int] as int] == lv[node] + 1,
        forall|a: int| it[node] <= a < it2[node] ==> net.cap@[a] == 0 || lv[#[trigger] hd[a] as int] != lv[node] + 1,
    ensures
        (hd[arc as int] as int) < n,
        phase_inv(net, lv, it2, arcs.push(arc), tails.push(node as u32), hd[arc as int] as int, flow, limit, fo, hd, rv, c0, l0, flow0, n),
        phase_progress(limit, flow, lv, it2, arcs.push(arc), flow, lv, it, arcs, fo, n),
{
    lemma_phase_facts(net, lv, it, arcs, tails, node, flow, limit, fo, hd, rv, c0, l0, flow0, n);
    reveal(phase_inv);
    reveal(phase_frame);
    lemma_count_nonneg_bound(lv);
    lemma_cursor_slack_nonneg(fo, it2, n);
    assert forall|i: int| 0 <= i < tails.len() implies it2[#[trigger] tails[i] as int] == arcs[i] by {
        assert(tails[i] != node as u32);
    }
    lemma_dead_forward(net.cap@, lv, it, it2, flow, fo, hd, c0, l0, flow0, n, node);
    assert(in_row(fo, node, arc as int));
    lemma_path_extend(fo, hd, net.cap@, l0, lv, it2, arcs, tails, node, n, arc);
    assert(fo[node + 1] <= fo[n]);
    assert(l0[hd[arc as int] as int] < n);
    assert forall|y: int| 0 <= y < n implies fo[y] <= #[trigger] it2[y] <= fo[y + 1] by {
        if y != node {
            assert(it2[y] == it[y]);
        }
    }
}

/// Killing the dead end `node` and retreating one arc keeps the invariant
/// and makes progress.
proof fn lemma_phase_back(
    net: FlowNetwork,
    lv: Seq<i32>,
    it2: Seq<u32>,
    arcs: Seq<u32>,
    tails: Seq<u32>,
    node: int,
    flow: u32,
    limit: u32,
    fo: Seq<u32>,
    hd: Seq<u32>,
    rv: Seq<u32>,
    c0: Seq<u8>,
    l0: Seq<i32>,
    flow0: u32,
    n: int,
    it: Seq<u32>,
)
    requires
        node != 1,
        phase_inv(net, lv, it, arcs, tails, node, flow, limit, fo, hd, rv, c0, l0, flow0, n),
        it2.len() == it.len(),
        forall|y: int| 0 <= y < n && y != node ==> #[trigger] it2[y] == it[y],
        it[node] <= it2[node],
        it2[node] == fo[node + 1],
        cursor_slack(fo, it2, n) + (it2[node] - it[node]) == cursor_slack(fo, it, n),
        forall|a: int| it[node] <= a < it2[node] ==> net.cap@[a] == 0 || lv[#[trigger] hd[a] as int] != lv[node] + 1,
        arcs.len() > 0,
    ensures
        (tails.last() as int) < n,
        it2[tails.last() as int] < fo[tails.last() + 1],
        ({
            let tail = tails.last() as int;
            &&& phase_inv(
                net,
                lv.update(node, -1i32),
                it2.update(tail, (it2[tail] + 1) as u32),
                arcs.drop_last(),
                tails.drop_last(),
                tail,
                flow,
                limit,
                fo,
                hd,
                rv,
                c0,
                l0,
                flow0,
                n,
            )
            &&& phase_progress(
                limit,
                flow,
                lv.update(node, -1i32),
                it2.update(tail, (it2[tail] + 1) as u32),
                arcs.drop_last(),
                flow,
                lv,
                it,
                arcs,
                fo,
                n,
            )
        }),
{
    lemma_phase_facts(net, lv, it, arcs, tails, node, flow, limit, fo, hd, rv, c0, l0, flow0, n);
    let tail = tails.last() as int;
    assert forall|i: int| 0 <= i < tails.len() implies it2[#[trigger] tails[i] as int] == arcs[i] by {
        assert(tails[i] != node as u32);
    }
    assert forall|y: int| 0 <= y < n implies fo[y] <= #[trigger] it2[y] <= fo[y + 1] by {
        if y != node {
            assert(it2[y] == it[y]);
        }
    }
    lemma_path_retreat(fo, hd, net.cap@, l0, lv, it2, arcs, tails, node, n);
    lemma_count_nonneg_set(lv, node, -1i32);
    lemma_count_nonneg_bound(lv.update(node, -1i32));
    lemma_cursor_slack_step(fo, it2, tail, (it2[tail] + 1) as u32, n);
    lemma_cursor_slack_nonneg(fo, it2.update(tail, (it2[tail] + 1) as u32), n);
    assert(phase_inv(net, lv, it, arcs, tails, node, flow, limit, fo, hd, rv, c0, l0, flow0, n));
    assert(phase_dead(net.cap@, lv, it, flow, fo, hd, c0, l0, flow0, n)) by {
        reveal(phase_inv);
    }
    lemma_dead_back(net.cap@, lv, it, it2, flow, fo, hd, c0, l0, flow0, n, node, tail);
    let lv2 = lv.update(node, -1i32);
    let it3 = it2.update(tail, (it2[tail] + 1) as u32);
    assert(phase_frame(net, lv2, it3, flow, limit, fo, hd, rv, c0, l0, flow0, n)) by {
        reveal(phase_frame);
        assert forall|y: int| 0 <= y < n implies #[trigger] lv2[y] == l0[y] || lv2[y] == -1 by {}
        assert forall|y: int| 0 <= y < n implies fo[y] <= #[trigger] it3[y] <= fo[y + 1] by {
            if y != tail {
                assert(it3[y] == it2[y]);
            }
        }
    }
    reveal(phase_inv);
}

/// The step of a blocking phase away from the sink: advance along the
/// next useful arc, else kill the dead end and retreat.
fn step_elsewhere(
    net: &mut FlowNetwork,
    level: &mut Vec<i32>,
    iter: &mut Vec<u32>,
    path_arcs: &mut Vec<u32>,
    path_tails: &mut Vec<u32>,
    node: &mut usize,
    flow: &mut u32,
    limit: u32,
    Ghost(fo): Ghost<Seq<u32>>,
    Ghost(hd): Ghost<Seq<u32>>,
    Ghost(rv): Ghost<Seq<u32>>,
    Ghost(c0): Ghost<Seq<u8>>,
    Ghost(l0): Ghost<Seq<i32>>,
    Ghost(flow0): Ghost<u32>,
    Ghost(n): Ghost<int>,
) -> (outcome: u8)
    requires
        *old(node) != FLOW_SINK,
        phase_inv(
            *old(net),
            old(level)@,
            old(iter)@,
            old(path_arcs)@,
            old(path_tails)@,
            *old(node) as int,
            *old(flow),
            limit,
            fo,
            hd,
            rv,
            c0,
            l0,
            flow0,
            n,
        ),
    ensures
        outcome == 0 || outcome == 2,
        *final(net) == *old(net),
        *final(flow) == *old(flow),
        final(net).first_out@ == fo,
        final(net).head@ == hd,
        final(net).rev@ == rv,
        final(net).cap@.len() == c0.len(),
        forall|a: int| 0 <= a < c0.len() && c0[a] == INFINITE_CAPACITY ==> #[trigger] final(net).cap@[a] == INFINITE_CAPACITY,
        final(level)@.len() == n,
        final(iter)@.len() == n,
        outcome == 1 ==> *final(flow) >= limit,
        outcome == 2 ==> flow0 < *final(flow) < limit,
        outcome == 0 ==> phase_inv(
            *final(net),
            final(level)@,
            final(iter)@,
            final(path_arcs)@,
            final(path_tails)@,
            *final(node) as int,
            *final(flow),
            limit,
            fo,
            hd,
            rv,
            c0,
            l0,
            flow0,
            n,
        ) && phase_progress(
            limit,
            *final(flow),
            final(level)@,
            final(iter)@,
            final(path_arcs)@,
            *old(flow),
            old(level)@,
            old(iter)@,
            old(path_arcs)@,
            fo,
            n,
        ),
{
    proof {
        lemma_phase_facts(*net, level@, iter@, path_arcs@, path_tails@, *node as int, *flow, limit, fo, hd, rv, c0, l0, flow0, n);
    }
    let here = *node;
    let ghost before_iter = iter@;
    let advanced = try_advance(net, level, iter, here);
    if advanced {
        let arc = iter[here];
        proof {
            lemma_phase_forward(*net, level@, before_iter, iter@, path_arcs@, path_tails@, here as int, *flow, limit, fo, hd, rv, c0, l0, flow0, n, arc);
        }
        path_arcs.push(arc);
        path_tails.push(here as u32);
        *node = net.head[arc as usize] as usize;
        return 0;
    }
    let ghost before_level = level@;
    if path_arcs.len() > 0 {
        proof {
            lemma_phase_back(*net, before_level, iter@, path_arcs@, path_tails@, here as int, *flow, limit, fo, hd, rv, c0, l0, flow0, n, before_iter);
        }
        level.set(here, -1);
        let _ = path_arcs.pop();
        let tail = path_tails.pop().unwrap() as usize;
        let next = iter[tail] + 1;
        iter.set(tail, next);
        *node = tail;
        return 0;
    }
    proof {
        assert(phase_dead(net.cap@, level@, before_iter, *flow, fo, hd, c0, l0, flow0, n)) by {
            reveal(phase_inv);
        }
        lemma_dead_source(net.cap@, level@, before_iter, iter@, *flow, fo, hd, c0, l0, flow0, n);
    }
    level.set(here, -1);
    2
}

/// One step of the search of a blocking phase: push a unit when at the
/// sink, else advance along the next useful arc, else kill the dead end
/// and retreat. Returns 1 once the flow reaches `limit`, 2 when the source
/// itself is a dead end (the phase is over, having pushed), 0 otherwise.
fn phase_step(
    net: &mut FlowNetwork,
    level: &mut Vec<i32>,
    iter: &mut Vec<u32>,
    path_arcs: &mut Vec<u32>,
    path_tails: &mut Vec<u32>,
    node: &mut usize,
    flow: &mut u32,
    limit: u32,
    Ghost(fo): Ghost<Seq<u32>>,
    Ghost(hd): Ghost<Seq<u32>>,
    Ghost(rv): Ghost<Seq<u32>>,
    Ghost(c0): Ghost<Seq<u8>>,
    Ghost(l0): Ghost<Seq<i32>>,
    Ghost(flow0): Ghost<u32>,
    Ghost(n): Ghost<int>,
) -> (outcome: u8)
    requires
        phase_inv(
            *old(net),
            old(level)@,
            old(iter)@,
            old(path_arcs)@,
            old(path_tails)@,
            *old(node) as int,
            *old(flow),
            limit,
            fo,
            hd,
            rv,
            c0,
            l0,
            flow0,
            n,
        ),
    ensures
        outcome <= 2,
        (*final(flow) == *old(flow) && final(net).cap@ == old(net).cap@) || (*final(flow) == *old(flow) + 1 && exists|p: Seq<u32>|
            #[trigger] augmenting(fo, hd, old(net).cap@, p) && final(net).cap@ == push_path(old(net).cap@, rv, p)),
        outcome == 1 ==> *final(flow) == limit,
        final(net).first_out@ == fo,
        final(net).head@ == hd,
        final(net).rev@ == rv,
        final(net).cap@.len() == c0.len(),
        forall|a: int| 0 <= a < c0.len() && c0[a] == INFINITE_CAPACITY ==> #[trigger] final(net).cap@[a] == INFINITE_CAPACITY,
        final(level)@.len() == n,
        final(iter)@.len() == n,
        outcome == 1 ==> *final(flow) >= limit,
        outcome == 2 ==> flow0 < *final(flow) < limit,
        outcome == 0 ==> phase_inv(
            *final(net),
            final(level)@,
            final(iter)@,
            final(path_arcs)@,
            final(path_tails)@,
            *final(node) as int,
            *final(flow),
            limit,
            fo,
            hd,
            rv,
            c0,
            l0,
            flow0,
            n,
        ) && phase_progress(
            limit,
            *final(flow),
            final(level)@,
            final(iter)@,
            final(path_arcs)@,
            *old(flow),
            old(level)@,
            old(iter)@,
            old(path_arcs)@,
            fo,
            n,
        ),
{
    if *node == FLOW_SINK {
        let ghost arcs = path_arcs@;
        let outcome = step_at_sink(net, level, iter, path_arcs, path_tails, node, flow, limit, Ghost(fo), Ghost(hd), Ghost(rv), Ghost(c0), Ghost(l0), Ghost(flow0), Ghost(n));
        proof {
            assert(augmenting(fo, hd, old(net).cap@, arcs));
        }
        outcome
    } else {
        step_elsewhere(net, level, iter, path_arcs, path_tails, node, flow, limit, Ghost(fo), Ghost(hd), Ghost(rv), Ghost(c0), Ghost(l0), Ghost(flow0), Ghost(n))
    }
}

/// Runs one phase of Dinic's algorithm on the level graph of `level`:
/// depth-first search from the source along residual arcs one level
/// down, pushing a unit whenever the sink is reached and retreating from
/// dead ends. Returns `true` once the flow reaches `limit`; otherwise the
/// phase pushed at least one unit.
fn blocking_phase(
    net: &mut FlowNetwork,
    level: &mut Vec<i32>,
    iter: &mut Vec<u32>,
    path_arcs: &mut Vec<u32>,
    path_tails: &mut Vec<u32>,
    flow: &mut u32,
    limit: u32,
) -> (limit_reached: bool)
    requires
        old(net).shape_ok(old(net).first_out@.len() - 1),
        old(iter)@.len() == old(net).first_out@.len() - 1,
        phase_levels(old(net).first_out@, old(net).head@, old(net).cap@, old(level)@, old(net).first_out@.len() - 1),
        *old(flow) < limit,
    ensures
        final(net).first_out@ == old(net).first_out@,
        final(net).head@ == old(net).head@,
        final(net).rev@ == old(net).rev@,
        final(net).cap@.len() == old(net).cap@.len(),
        forall|a: int| 0 <= a < old(net).cap@.len() && old(net).cap@[a] == INFINITE_CAPACITY ==> #[trigger] final(net).cap@[a]
            == INFINITE_CAPACITY,
        final(level)@.len() == old(level)@.len(),
        final(iter)@.len() == old(iter)@.len(),
        limit_reached ==> *final(flow) >= limit,
        !limit_reached ==> *old(flow) < *final(flow) < limit,
        limit_reached ==> *final(flow) == limit,
        carries_flow(old(net).first_out@, old(net).head@, old(net).rev@, old(net).cap@, final(net).cap@, *final(flow) - *old(flow)),
{
    let n = net.first_out.len() - 1;
    let ghost fo = net.first_out@;
    let ghost hd = net.head@;
    let ghost rv = net.rev@;
    let ghost c0 = net.cap@;
    let ghost l0 = level@;
    let ghost flow0 = *flow;
    let mut x: usize = 0;
    while x < n
        invariant
            x <= n,
            n == fo.len() - 1,
            fo == net.first_out@,
            iter@.len() == n,
            forall|y: int| 0 <= y < x ==> #[trigger] iter@[y] == fo[y],
        decreases n - x,
    {
        iter.set(x, net.first_out[x]);
        x += 1;
    }
    path_arcs.clear();
    path_tails.clear();
    let mut node: usize = FLOW_SOURCE;
    assert(phase_inv(*net, level@, iter@, path_arcs@, path_tails@, node as int, *flow, limit, fo, hd, rv, c0, l0, flow0, n as int)) by {
        reveal(phase_inv);
        reveal(phase_frame);
        reveal(phase_dead);
        assert forall|y: int| 0 <= y < n implies fo[y] <= #[trigger] iter@[y] <= fo[y + 1] by {
            assert(fo[y] <= fo[y + 1]);
        }
        assert forall|y: int| 0 <= y < n && #[trigger] level@[y] >= 0 implies dead_end(fo, hd, net.cap@, l0, level@, y, iter@[y] as int) by {}
    }
    proof {
        lemma_cursor_slack_nonneg(fo, iter@, n as int);
        lemma_count_nonneg_bound(level@);
        lemma_carries_none(fo, hd, rv, c0);
    }
    loop
        invariant_except_break
            carries_flow(fo, hd, rv, c0, net.cap@, *flow - flow0),
            fo == old(net).first_out@,
            hd == old(net).head@,
            rv == old(net).rev@,
            c0 == old(net).cap@,
            l0 == old(level)@,
            l0.len() == n,
            n == old(iter)@.len(),
            n == fo.len() - 1,
            flow0 == *old(flow),
            phase_inv(*net, level@, iter@, path_arcs@, path_tails@, node as int, *flow, limit, fo, hd, rv, c0, l0, flow0, n as int),
        ensures
            net.first_out@ == fo,
            net.head@ == hd,
            net.rev@ == rv,
            net.cap@.len() == c0.len(),
            forall|a: int| 0 <= a < c0.len() && c0[a] == INFINITE_CAPACITY ==> #[trigger] net.cap@[a] == INFINITE_CAPACITY,
            level@.len() == n,
            iter@.len() == n,
            flow0 < *flow < limit,
            carries_flow(fo, hd, rv, c0, net.cap@, *flow - flow0),
        decreases limit - *flow, count_nonneg(level@), cursor_slack(fo, iter@, n as int), n - path_arcs@.len(),
    {
        let ghost cap_before = net.cap@;
        let ghost flow_before = *flow;
        let outcome = phase_step(
            net,
            level,
            iter,
            path_arcs,
            path_tails,
            &mut node,
            flow,
            limit,
            Ghost(fo),
            Ghost(hd),
            Ghost(rv),
            Ghost(c0),
            Ghost(l0),
            Ghost(flow0),
            Ghost(n as int),
        );
        proof {
            if !(*flow == flow_before && net.cap@ == cap_before) {
                let p = choose|p: Seq<u32>| #[trigger] augmenting(fo, hd, cap_before, p) && net.cap@ == push_path(cap_before, rv, p);
                lemma_carries_push(fo, hd, rv, c0, cap_before, flow_before - flow0, p);
            }
        }
        if outcome == 1 {
            return true;
        }
        if outcome == 2 {
            break;
        }
    }
    false
}

/// Runs Dinic's algorithm and returns the residual BFS levels of the final
/// phase: the source has a level, the sink has none, and every residual
/// arc from a node with a level leads to a node with one. Returns `None`
/// once the flow reaches `limit` (at once for a zero limit), since the cut
/// can then no longer beat `limit`.
pub(crate) fn max_flow(net: &mut FlowNetwork, limit: u32) -> (r: Option<Vec<i32>>)
    requires
        old(net).shape_ok(old(net).first_out@.len() - 1),
    ensures
        final(net).first_out@ == old(net).first_out@,
        final(net).head@ == old(net).head@,
        final(net).rev@ == old(net).rev@,
        final(net).cap@.len() == old(net).cap@.len(),
        forall|a: int| 0 <= a < old(net).cap@.len() && old(net).cap@[a] == INFINITE_CAPACITY ==> #[trigger] final(net).cap@[a]
            == INFINITE_CAPACITY,
        limit == 0 ==> r is None,
        r is None ==> limit == 0 || carries_flow(
            old(net).first_out@,
            old(net).head@,
            old(net).rev@,
            old(net).cap@,
            final(net).cap@,
            limit as int,
        ),
        r matches Some(level) ==> {
            &&& level@.len() == old(net).first_out@.len() - 1
            &&& level@[0] >= 0
            &&& level@[1] < 0
            &&& levels_closed(final(net).first_out@, final(net).head@, final(net).cap@, level@)
        },
{
    if limit == 0 {
        return None;
    }
    let n = net.first_out.len() - 1;
    let ghost c_start = net.cap@;
    let mut level: Vec<i32> = Vec::new();
    let mut iter: Vec<u32> = Vec::new();
    let mut x: usize = 0;
    while x < n
        invariant
            x <= n,
            level@.len() == x,
            iter@.len() == x,
        decreases n - x,
    {
        level.push(-1);
        iter.push(0);
        x += 1;
    }
    let mut queue: Vec<u32> = Vec::new();
    let mut path_arcs: Vec<u32> = Vec::new();
    let mut path_tails: Vec<u32> = Vec::new();
    let mut flow: u32 = 0;
    proof {
        lemma_carries_none(old(net).first_out@, old(net).head@, old(net).rev@, c_start);
    }
    loop
        invariant
            carries_flow(old(net).first_out@, old(net).head@, old(net).rev@, c_start, net.cap@, flow as int),
            n == old(net).first_out@.len() - 1,
            net.first_out@ == old(net).first_out@,
            net.head@ == old(net).head@,
            net.rev@ == old(net).rev@,
            net.cap@.len() == old(net).cap@.len(),
            c_start == old(net).cap@,
            net.shape_ok(n as int),
            forall|a: int| 0 <= a < c_start.len() && c_start[a] == INFINITE_CAPACITY ==> #[trigger] net.cap@[a] == INFINITE_CAPACITY,
            level@.len() == n,
            iter@.len() == n,
            flow < limit,
        decreases limit - flow,
    {
        bfs_levels(net, &mut level, &mut queue);
        if level[FLOW_SINK] < 0 {
            return Some(level);
        }
        let ghost c_phase = net.cap@;
        let ghost flow_phase = flow;
        let reached = blocking_phase(net, &mut level, &mut iter, &mut path_arcs, &mut path_tails, &mut flow, limit);
        proof {
            lemma_carries_concat(
                old(net).first_out@,
                old(net).head@,
                old(net).rev@,
                c_start,
                c_phase,
                net.cap@,
                flow_phase as int,
                flow - flow_phase,
            );
        }
        if reached {
            return None;
        }
        proof {
            assert forall|a: int| 0 <= a < c_start.len() && c_start[a] == INFINITE_CAPACITY implies #[trigger] net.cap@[a]
                == INFINITE_CAPACITY by {
                assert(c_phase[a] == INFINITE_CAPACITY);
            }
        }
    }
}

} // verus!
