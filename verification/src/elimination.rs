//! Minimum-degree elimination on the fill-in graph of a cell: what one
//! elimination does to the rows, which node goes next, and the order the
//! whole run produces.

use vstd::prelude::*;

use crate::dissection::{adjacency_ok, increasing_u32, insert_into_row, remove_from_row, Cell};

verus! {

/// The rows of a working adjacency as sets.
pub open spec fn row_sets(adj: Seq<Vec<u32>>) -> Seq<Set<u32>> {
    Seq::new(adj.len(), |x: int| adj[x]@.to_set())
}

/// Neighbour `left` of the eliminated `node` handled: `node` leaves the
/// row of `left`, and `left` is joined both ways to every later neighbour.
pub open spec fn join_step(rows: Seq<Set<u32>>, nb: Set<u32>, node: u32, left: u32) -> Seq<Set<u32>> {
    Seq::new(
        rows.len(),
        |y: int|
            if y == left as int {
                rows[y].remove(node).union(nb.filter(|r: u32| r > left))
            } else if nb.contains(y as u32) && y > left as int {
                rows[y].insert(left)
            } else {
                rows[y]
            },
    )
}

/// The neighbours below `m` handled in increasing order.
pub open spec fn joined_upto(rows: Seq<Set<u32>>, nb: Set<u32>, node: u32, m: nat) -> Seq<Set<u32>>
    decreases m,
{
    if m == 0 {
        rows
    } else {
        let prev = joined_upto(rows, nb, node, (m - 1) as nat);
        if nb.contains((m - 1) as u32) {
            join_step(prev, nb, node, (m - 1) as u32)
        } else {
            prev
        }
    }
}

/// Eliminating `node`: its row empties, and each of its neighbours in
/// increasing order drops it and is joined to the neighbours after it.
pub open spec fn eliminate(rows: Seq<Set<u32>>, node: u32) -> Seq<Set<u32>> {
    joined_upto(rows.update(node as int, Set::empty()), rows[node as int], node, rows.len())
}

/// `a` comes before `b`: fewer row entries, or as many and a lower index.
pub open spec fn lighter(rows: Seq<Set<u32>>, a: int, b: int) -> bool {
    rows[a].len() < rows[b].len() || (rows[a].len() == rows[b].len() && a <= b)
}

/// `v` is the open node to eliminate next.
pub open spec fn is_pick(rows: Seq<Set<u32>>, done: Seq<bool>, v: int) -> bool {
    &&& 0 <= v < rows.len()
    &&& !done[v]
    &&& forall|w: int| 0 <= w < rows.len() && !done[w] ==> #[trigger] lighter(rows, v, w)
}

/// The open node to eliminate next.
pub open spec fn pick(rows: Seq<Set<u32>>, done: Seq<bool>) -> int {
    choose|v: int| is_pick(rows, done, v)
}

/// The state after `k` eliminations: rows, eliminated flags and the order
/// so far.
pub open spec fn md_run(rows0: Seq<Set<u32>>, k: nat) -> (Seq<Set<u32>>, Seq<bool>, Seq<u32>)
    decreases k,
{
    if k == 0 {
        (rows0, Seq::new(rows0.len(), |x: int| false), Seq::empty())
    } else {
        let (rows, done, order) = md_run(rows0, (k - 1) as nat);
        if exists|v: int| is_pick(rows, done, v) {
            let v = pick(rows, done);
            (eliminate(rows, v as u32), done.update(v, true), order.push(v as u32))
        } else {
            (rows, done, order)
        }
    }
}

/// The rows of a cell as sets of local nodes.
pub open spec fn cell_rows(cell: Cell) -> Seq<Set<u32>> {
    Seq::new(cell.size() as nat, |x: int| Set::new(|v: u32| cell.adjacent(x, v as int)))
}

/// The minimum-degree elimination order of a cell, as node ids.
pub open spec fn min_degree_elimination(cell: Cell) -> Seq<u32> {
    md_run(cell_rows(cell), cell.size() as nat).2.map_values(|x: u32| cell.ids@[x as int])
}

/// Two picks are the same node.
pub proof fn lemma_pick_unique(rows: Seq<Set<u32>>, done: Seq<bool>, v: int, w: int)
    requires
        is_pick(rows, done, v),
        is_pick(rows, done, w),
    ensures
        v == w,
{
    assert(lighter(rows, v, w));
    assert(lighter(rows, w, v));
}

/// A strictly increasing row has as many entries as its set.
pub proof fn lemma_row_len(row: Seq<u32>)
    requires
        increasing_u32(row),
    ensures
        row.len() == row.to_set().len(),
{
    assert(row.no_duplicates()) by {
        assert forall|i: int, j: int| 0 <= i < row.len() && 0 <= j < row.len() && i != j implies row[i] != row[j] by {
            if i < j {
                assert(row[i] < row[j]);
            } else {
                assert(row[j] < row[i]);
            }
        }
    }
    row.unique_seq_to_set();
}

/// The open node of fewest row entries, the lowest among equals; `n` when
/// every node is eliminated.
pub(crate) fn lightest_open(adjacency: &Vec<Vec<u32>>, eliminated: &Vec<bool>) -> (r: usize)
    requires
        adjacency_ok(adjacency@, adjacency@.len() as int),
        eliminated@.len() == adjacency@.len(),
    ensures
        r == adjacency@.len() ==> forall|y: int| 0 <= y < adjacency@.len() ==> #[trigger] eliminated@[y],
        r < adjacency@.len() ==> is_pick(row_sets(adjacency@), eliminated@, r as int),
        r <= adjacency@.len(),
{
    let n = adjacency.len();
    let ghost rows = row_sets(adjacency@);
    let mut best: usize = n;
    let mut best_degree: usize = 0;
    let mut x: usize = 0;
    while x < n
        invariant
            n == adjacency@.len(),
            rows == row_sets(adjacency@),
            adjacency_ok(adjacency@, n as int),
            x <= n,
            eliminated@.len() == n,
            best == n || (best < x && !eliminated@[best as int] && best_degree == rows[best as int].len()),
            best == n ==> forall|y: int| 0 <= y < x ==> #[trigger] eliminated@[y],
            best < n ==> forall|y: int| 0 <= y < x && !eliminated@[y] ==> #[trigger] lighter(rows, best as int, y),
        decreases n - x,
    {
        proof {
            lemma_row_len(adjacency@[x as int]@);
        }
        let ghost old_best = best;
        if !eliminated[x] && (best == n || adjacency[x].len() < best_degree) {
            best = x;
            best_degree = adjacency[x].len();
        }
        proof {
            if best < n {
                assert forall|y: int| 0 <= y < x + 1 && !eliminated@[y] implies #[trigger] lighter(rows, best as int, y) by {
                    if y < x && old_best != best {
                        assert(lighter(rows, old_best as int, y));
                    }
                }
            }
        }
        x += 1;
    }
    best
}

/// Skipping values that are no neighbours changes nothing.
proof fn lemma_joined_skip(rows: Seq<Set<u32>>, nb: Set<u32>, node: u32, m: nat, m2: nat)
    requires
        m <= m2,
        forall|v: int| m <= v < m2 ==> !nb.contains(#[trigger] (v as u32)),
        m2 <= u32::MAX + 1,
    ensures
        joined_upto(rows, nb, node, m2) == joined_upto(rows, nb, node, m),
    decreases m2 - m,
{
    if m2 > m {
        lemma_joined_skip(rows, nb, node, m, (m2 - 1) as nat);
        assert(!nb.contains(((m2 - 1) as int) as u32));
    }
}

/// The rows while the neighbours at positions `p + 1 .. q` are joined to
/// `left`, after `node` left its row.
pub open spec fn partly_joined(rows: Seq<Set<u32>>, later: Set<u32>, node: u32, left: u32) -> Seq<Set<u32>> {
    Seq::new(
        rows.len(),
        |y: int|
            if y == left as int {
                rows[y].remove(node).union(later)
            } else if later.contains(y as u32) {
                rows[y].insert(left)
            } else {
                rows[y]
            },
    )
}

/// Eliminates `node` from a working adjacency: its row is emptied, and
/// each neighbour in increasing order drops it and is joined both ways to
/// the neighbours after it.
pub(crate) fn eliminate_node(adjacency: &mut Vec<Vec<u32>>, node: usize)
    requires
        adjacency_ok(old(adjacency)@, old(adjacency)@.len() as int),
        node < old(adjacency)@.len(),
        old(adjacency)@.len() <= u32::MAX,
    ensures
        adjacency_ok(final(adjacency)@, old(adjacency)@.len() as int),
        row_sets(final(adjacency)@) == eliminate(row_sets(old(adjacency)@), node as u32),
{
    let n = adjacency.len();
    let ghost start = row_sets(adjacency@);
    let mut neighbours: Vec<u32> = Vec::new();
    std::mem::swap(&mut neighbours, &mut adjacency[node]);
    let ghost nb = neighbours@.to_set();
    let ghost r1 = start.update(node as int, Set::empty());
    proof {
        assert(nb == start[node as int]);
        assert(row_sets(adjacency@) =~= r1) by {
            assert forall|y: int| 0 <= y < n implies #[trigger] row_sets(adjacency@)[y] == r1[y] by {
                if y == node as int {
                    assert(adjacency@[y]@ == Seq::<u32>::empty());
                    assert(adjacency@[y]@.to_set() =~= Set::<u32>::empty());
                }
            }
        }
        assert(increasing_u32(neighbours@));
    }
    let mut position: usize = 0;
    while position < neighbours.len()
        invariant
            n == adjacency@.len(),
            n <= u32::MAX,
            adjacency_ok(adjacency@, n as int),
            node < n,
            position <= neighbours@.len(),
            increasing_u32(neighbours@),
            nb == neighbours@.to_set(),
            r1.len() == n,
            forall|k: int| 0 <= k < neighbours@.len() ==> (#[trigger] neighbours@[k] as int) < n,
            row_sets(adjacency@) == joined_upto(
                r1,
                nb,
                node as u32,
                if position == 0 {
                    0nat
                } else {
                    (neighbours@[position - 1] + 1) as nat
                },
            ),
        decreases neighbours@.len() - position,
    {
        let left = neighbours[position];
        let ghost lo: nat = if position == 0 {
            0nat
        } else {
            (neighbours@[position - 1] + 1) as nat
        };
        proof {
            assert forall|v: int| lo <= v < left as int implies !nb.contains(#[trigger] (v as u32)) by {
                if nb.contains(v as u32) {
                    let k = choose|k: int| 0 <= k < neighbours@.len() && neighbours@[k] == v as u32;
                    if k < position {
                        assert(neighbours@[k] <= neighbours@[position - 1]);
                    } else if k > position {
                        assert(neighbours@[position as int] < neighbours@[k]);
                    }
                }
            }
            lemma_joined_skip(r1, nb, node as u32, lo, left as nat);
            assert(nb.contains(left));
        }
        let ghost p0 = joined_upto(r1, nb, node as u32, left as nat);
        let ghost before = adjacency@;
        remove_from_row(adjacency, left as usize, node as u32);
        proof {
            assert(row_sets(adjacency@) =~= partly_joined(p0, Set::empty(), node as u32, left)) by {
                assert forall|y: int| 0 <= y < n implies #[trigger] row_sets(adjacency@)[y] == partly_joined(p0, Set::empty(), node as u32, left)[y] by {
                    if y == left as int {
                        assert(adjacency@[y]@.to_set() =~= before[y]@.to_set().remove(node as u32));
                        assert(p0[y].remove(node as u32).union(Set::empty()) =~= p0[y].remove(node as u32));
                    }
                }
            }
        }
        let mut other = position + 1;
        proof {
            assert(neighbours@.subrange(position + 1, position + 1).to_set() =~= Set::<u32>::empty());
        }
        while other < neighbours.len()
            invariant
                n == adjacency@.len(),
                adjacency_ok(adjacency@, n as int),
                position < other <= neighbours@.len(),
                n <= u32::MAX,
                left == neighbours@[position as int],
                increasing_u32(neighbours@),
                forall|k: int| 0 <= k < neighbours@.len() ==> (#[trigger] neighbours@[k] as int) < n,
                p0.len() == n,
                row_sets(adjacency@) == partly_joined(
                    p0,
                    neighbours@.subrange(position + 1, other as int).to_set(),
                    node as u32,
                    left,
                ),
            decreases neighbours@.len() - other,
        {
            let right = neighbours[other];
            let ghost later = neighbours@.subrange(position + 1, other as int).to_set();
            let ghost later2 = neighbours@.subrange(position + 1, other + 1).to_set();
            let ghost b0 = adjacency@;
            insert_into_row(adjacency, left as usize, right);
            let ghost b1 = adjacency@;
            insert_into_row(adjacency, right as usize, left);
            proof {
                assert(neighbours@.subrange(position + 1, other + 1) =~= neighbours@.subrange(position + 1, other as int).push(
                    right,
                ));
                assert forall|r: u32| #[trigger] later2.contains(r) <==> later.insert(right).contains(r) by {
                    let s1 = neighbours@.subrange(position + 1, other as int);
                    let s2 = neighbours@.subrange(position + 1, other + 1);
                    if s2.contains(r) && r != right {
                        let k = choose|k: int| 0 <= k < s2.len() && s2[k] == r;
                        assert(k < s1.len());
                        assert(s1[k] == r);
                    }
                    if s1.contains(r) {
                        let k = choose|k: int| 0 <= k < s1.len() && s1[k] == r;
                        assert(s2[k] == r);
                    }
                    if r == right {
                        assert(s2[s1.len() as int] == r);
                    }
                }
                assert(later2 =~= later.insert(right));
                assert(left < right);
                assert(!later.contains(left)) by {
                    if later.contains(left) {
                        let sub = neighbours@.subrange(position + 1, other as int);
                        let k = choose|k: int| 0 <= k < sub.len() && sub[k] == left;
                        assert(neighbours@[position as int] < neighbours@[position + 1 + k]);
                    }
                }
                assert forall|y: int| 0 <= y < n implies #[trigger] row_sets(adjacency@)[y] == partly_joined(p0, later2, node as u32, left)[y] by {
                    assert(row_sets(b0)[y] == partly_joined(p0, later, node as u32, left)[y]);
                    if y == left as int {
                        assert(adjacency@[y] == b1[y]);
                        assert(adjacency@[y]@.to_set() =~= b0[y]@.to_set().insert(right));
                        assert(p0[y].remove(node as u32).union(later2) =~= p0[y].remove(node as u32).union(later).insert(right));
                        assert(row_sets(adjacency@)[y] == adjacency@[y]@.to_set());
                        assert(partly_joined(p0, later2, node as u32, left)[y] == p0[y].remove(node as u32).union(later2));
                        assert(row_sets(b0)[y] == b0[y]@.to_set());
                    } else if y == right as int {
                        assert(adjacency@[y]@.to_set() =~= b1[y]@.to_set().insert(left));
                        assert(b1[y] == b0[y]);
                        assert(!later.contains(right)) by {
                            if later.contains(right) {
                                let sub = neighbours@.subrange(position + 1, other as int);
                                let k = choose|k: int| 0 <= k < sub.len() && sub[k] == right;
                                assert(neighbours@[position + 1 + k] < neighbours@[other as int]);
                            }
                        }
                        assert(b0[y]@.to_set() == p0[y]);
                        assert(later2.contains(right));
                        assert(row_sets(adjacency@)[y] == adjacency@[y]@.to_set());
                        assert(row_sets(b0)[y] == b0[y]@.to_set());
                        assert(partly_joined(p0, later2, node as u32, left)[y] == p0[y].insert(left));
                    } else {
                        assert(adjacency@[y] == b1[y] && b1[y] == b0[y]);
                        assert(row_sets(adjacency@)[y] == adjacency@[y]@.to_set());
                        assert(row_sets(b0)[y] == b0[y]@.to_set());
                        assert((y as u32) as int == y);
                        assert(later2.contains(y as u32) == later.contains(y as u32));
                    }
                }
                assert(row_sets(adjacency@) =~= partly_joined(p0, later2, node as u32, left));
            }
            other += 1;
        }
        proof {
            let later = neighbours@.subrange(position + 1, neighbours@.len() as int).to_set();
            assert(later =~= nb.filter(|r: u32| r > left)) by {
                assert forall|r: u32| later.contains(r) <==> nb.filter(|r: u32| r > left).contains(r) by {
                    if later.contains(r) {
                        let sub = neighbours@.subrange(position + 1, neighbours@.len() as int);
                        let k = choose|k: int| 0 <= k < sub.len() && sub[k] == r;
                        assert(neighbours@[position as int] < neighbours@[position + 1 + k]);
                        assert(neighbours@.contains(r));
                    }
                    if nb.filter(|r: u32| r > left).contains(r) {
                        let k = choose|k: int| 0 <= k < neighbours@.len() && neighbours@[k] == r;
                        if k <= position {
                            assert(neighbours@[k] <= neighbours@[position as int]);
                        }
                        assert(neighbours@.subrange(position + 1, neighbours@.len() as int)[k - position - 1] == r);
                    }
                }
            }
            assert forall|y: int| 0 <= y < n implies #[trigger] partly_joined(p0, later, node as u32, left)[y] == join_step(p0, nb, node as u32, left)[y] by {
                if y != left as int {
                    assert(later.contains(y as u32) <==> (nb.contains(y as u32) && y > left as int));
                }
            }
            assert(partly_joined(p0, later, node as u32, left) =~= join_step(p0, nb, node as u32, left));
            assert(joined_upto(r1, nb, node as u32, (left + 1) as nat) == join_step(p0, nb, node as u32, left));
        }
        position += 1;
    }
    proof {
        let lo: nat = if neighbours@.len() == 0 {
            0nat
        } else {
            (neighbours@[neighbours@.len() - 1] + 1) as nat
        };
        assert forall|v: int| lo <= v < n implies !nb.contains(#[trigger] (v as u32)) by {
            if nb.contains(v as u32) {
                let k = choose|k: int| 0 <= k < neighbours@.len() && neighbours@[k] == v as u32;
                assert(neighbours@[k] <= neighbours@[neighbours@.len() - 1]);
            }
        }
        lemma_joined_skip(r1, nb, node as u32, lo, n as nat);
    }
}

} // verus!
