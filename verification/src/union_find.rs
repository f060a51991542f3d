//! Union-find over node indices: a parent forest with path compression and
//! union by rank.
//!
//! The forest is described by the root that each node reaches. A ghost
//! height per node, strictly larger than the height of its parent, shows
//! that every parent chain ends at a root.

use vstd::prelude::*;
use vstd::arithmetic::power2::{pow2, lemma_pow2_unfold, lemma_pow2_strictly_increases};

verus! {

/// Every parent is a node, and every step towards a root decreases height.
pub open spec fn uf_wf(parent: Seq<u32>, height: Seq<nat>) -> bool {
    &&& parent.len() == height.len()
    &&& forall|i: int|
        0 <= i < parent.len() ==> (#[trigger] parent[i] as int) < parent.len() && (parent[i] as int
            != i ==> height[parent[i] as int] < height[i])
}

/// The root reached from `i` by following parents.
pub open spec fn root_of(parent: Seq<u32>, height: Seq<nat>, i: int) -> int
    decreases height[i],
{
    if 0 <= i < parent.len() && i < height.len() && parent[i] as int != i && (parent[i] as int)
        < height.len() && height[parent[i] as int] < height[i] {
        root_of(parent, height, parent[i] as int)
    } else {
        i
    }
}

/// The number of nodes below `k` whose root is `x`.
pub open spec fn root_count(parent: Seq<u32>, height: Seq<nat>, x: int, k: int) -> nat
    decreases k,
{
    if k <= 0 {
        0
    } else {
        root_count(parent, height, x, k - 1) + if root_of(parent, height, k - 1) == x {
            1nat
        } else {
            0nat
        }
    }
}

/// The union-find invariant: a well-formed forest whose every root of rank
/// `r` spans at least `2^r` nodes.
pub open spec fn uf_inv(parent: Seq<u32>, rank: Seq<u8>, height: Seq<nat>) -> bool {
    &&& uf_wf(parent, height)
    &&& rank.len() == parent.len()
    &&& parent.len() <= u32::MAX
    &&& forall|x: int|
        0 <= x < parent.len() && #[trigger] parent[x] as int == x ==> pow2(rank[x] as nat)
            <= root_count(parent, height, x, parent.len() as int)
}

pub proof fn lemma_root(parent: Seq<u32>, height: Seq<nat>, i: int)
    requires
        uf_wf(parent, height),
        0 <= i < parent.len(),
    ensures
        0 <= root_of(parent, height, i) < parent.len(),
        parent[root_of(parent, height, i)] as int == root_of(parent, height, i),
        root_of(parent, height, i) != i ==> height[root_of(parent, height, i)] < height[i],
        root_of(parent, height, root_of(parent, height, i)) == root_of(parent, height, i),
        root_of(parent, height, parent[i] as int) == root_of(parent, height, i),
    decreases height[i],
{
    if parent[i] as int != i {
        lemma_root(parent, height, parent[i] as int);
    }
}

proof fn lemma_compress_root(parent: Seq<u32>, height: Seq<nat>, c: int, r: int, j: int)
    requires
        uf_wf(parent, height),
        0 <= c < parent.len(),
        0 <= j < parent.len(),
        root_of(parent, height, c) == r,
        r != c,
        uf_wf(parent.update(c, r as u32), height),
    ensures
        root_of(parent.update(c, r as u32), height, j) == root_of(parent, height, j),
    decreases height[j],
{
    let p2 = parent.update(c, r as u32);
    lemma_root(parent, height, c);
    lemma_root(parent, height, j);
    if j == c {
        lemma_root(parent, height, r);
        assert(p2[r] == parent[r]);
        assert(root_of(p2, height, r) == r);
    } else if parent[j] as int != j {
        lemma_compress_root(parent, height, c, r, parent[j] as int);
    }
}

/// Pointing `c` straight at its root keeps the forest well formed and
/// every node's root unchanged.
pub proof fn lemma_compress(parent: Seq<u32>, height: Seq<nat>, c: int, r: int)
    requires
        uf_wf(parent, height),
        0 <= c < parent.len(),
        root_of(parent, height, c) == r,
        r != c,
    ensures
        uf_wf(parent.update(c, r as u32), height),
        forall|j: int|
            0 <= j < parent.len() ==> #[trigger] root_of(parent.update(c, r as u32), height, j)
                == root_of(parent, height, j),
{
    lemma_root(parent, height, c);
    let p2 = parent.update(c, r as u32);
    assert forall|j: int| 0 <= j < p2.len() implies (#[trigger] p2[j] as int) < p2.len() && (
    p2[j] as int != j ==> height[p2[j] as int] < height[j]) by {
        if j == c {
        } else {
            assert(p2[j] == parent[j]);
        }
    }
    assert forall|j: int| 0 <= j < parent.len() implies #[trigger] root_of(p2, height, j)
        == root_of(parent, height, j) by {
        lemma_compress_root(parent, height, c, r, j);
    }
}

/// The heights after hanging root `x` below root `y`.
pub open spec fn linked_height(parent: Seq<u32>, height: Seq<nat>, x: int, y: int) -> Seq<nat> {
    Seq::new(
        height.len(),
        |j: int|
            if root_of(parent, height, j) == x {
                height[j] + height[y] + 1
            } else {
                height[j]
            },
    )
}

proof fn lemma_link_root(parent: Seq<u32>, height: Seq<nat>, x: int, y: int, j: int)
    requires
        uf_wf(parent, height),
        0 <= x < parent.len(),
        0 <= y < parent.len(),
        parent[x] as int == x,
        parent[y] as int == y,
        x != y,
        0 <= j < parent.len(),
        uf_wf(parent.update(x, y as u32), linked_height(parent, height, x, y)),
    ensures
        root_of(parent.update(x, y as u32), linked_height(parent, height, x, y), j) == if root_of(
            parent,
            height,
            j,
        ) == x {
            y
        } else {
            root_of(parent, height, j)
        },
    decreases height[j],
{
    let p2 = parent.update(x, y as u32);
    let h2 = linked_height(parent, height, x, y);
    lemma_root(parent, height, j);
    if j == x {
        assert(p2[y] == parent[y]);
        assert(root_of(p2, h2, y) == y);
        assert(root_of(parent, height, x) == x);
    } else if parent[j] as int != j {
        lemma_root(parent, height, parent[j] as int);
        lemma_link_root(parent, height, x, y, parent[j] as int);
        assert(p2[j] == parent[j]);
    } else {
        assert(p2[j] == parent[j]);
    }
}

/// Hanging root `x` below root `y` keeps the forest well formed and moves
/// exactly the nodes of `x`'s tree to root `y`.
pub proof fn lemma_link(parent: Seq<u32>, height: Seq<nat>, x: int, y: int)
    requires
        uf_wf(parent, height),
        0 <= x < parent.len(),
        0 <= y < parent.len(),
        parent[x] as int == x,
        parent[y] as int == y,
        x != y,
    ensures
        uf_wf(parent.update(x, y as u32), linked_height(parent, height, x, y)),
        forall|j: int|
            0 <= j < parent.len() ==> #[trigger] root_of(
                parent.update(x, y as u32),
                linked_height(parent, height, x, y),
                j,
            ) == if root_of(parent, height, j) == x {
                y
            } else {
                root_of(parent, height, j)
            },
{
    let p2 = parent.update(x, y as u32);
    let h2 = linked_height(parent, height, x, y);
    lemma_root(parent, height, y);
    assert forall|j: int| 0 <= j < p2.len() implies (#[trigger] p2[j] as int) < p2.len() && (
    p2[j] as int != j ==> h2[p2[j] as int] < h2[j]) by {
        lemma_root(parent, height, j);
        if j == x {
            assert(root_of(parent, height, x) == x);
        } else {
            assert(p2[j] == parent[j]);
            if parent[j] as int != j {
                lemma_root(parent, height, parent[j] as int);
            }
        }
    }
    assert forall|j: int| 0 <= j < parent.len() implies #[trigger] root_of(p2, h2, j) == if root_of(
        parent,
        height,
        j,
    ) == x {
        y
    } else {
        root_of(parent, height, j)
    } by {
        lemma_link_root(parent, height, x, y, j);
    }
}

proof fn lemma_count_ext(
    p1: Seq<u32>,
    h1: Seq<nat>,
    p2: Seq<u32>,
    h2: Seq<nat>,
    x: int,
    y: int,
    k: int,
)
    requires
        forall|j: int| 0 <= j < k ==> (root_of(p1, h1, j) == x <==> root_of(p2, h2, j) == y),
    ensures
        root_count(p1, h1, x, k) == root_count(p2, h2, y, k),
    decreases k,
{
    if k > 0 {
        lemma_count_ext(p1, h1, p2, h2, x, y, k - 1);
    }
}

proof fn lemma_count_merge(
    p1: Seq<u32>,
    h1: Seq<nat>,
    p2: Seq<u32>,
    h2: Seq<nat>,
    x: int,
    y: int,
    k: int,
)
    requires
        x != y,
        forall|j: int|
            0 <= j < k ==> (root_of(p2, h2, j) == y <==> (root_of(p1, h1, j) == x || root_of(
                p1,
                h1,
                j,
            ) == y)),
    ensures
        root_count(p2, h2, y, k) == root_count(p1, h1, x, k) + root_count(p1, h1, y, k),
    decreases k,
{
    if k > 0 {
        lemma_count_merge(p1, h1, p2, h2, x, y, k - 1);
    }
}

proof fn lemma_count_le(p: Seq<u32>, h: Seq<nat>, x: int, k: int)
    requires
        k >= 0,
    ensures
        root_count(p, h, x, k) <= k,
    decreases k,
{
    if k > 0 {
        lemma_count_le(p, h, x, k - 1);
    }
}

proof fn lemma_rank_small(p: Seq<u32>, rank: Seq<u8>, h: Seq<nat>, x: int)
    requires
        uf_inv(p, rank, h),
        0 <= x < p.len(),
        p[x] as int == x,
    ensures
        rank[x] < 32,
{
    lemma_count_le(p, h, x, p.len() as int);
    if rank[x] >= 32 {
        if rank[x] > 32 {
            lemma_pow2_strictly_increases(32, rank[x] as nat);
        }
        assert(pow2(32) == 0x1_0000_0000) by {
            vstd::arithmetic::power2::lemma2_to64();
        }
    }
}

/// Finds the root of `index`, pointing every node on the way directly at
/// it. Every node keeps its root.
pub fn find_component_root(parent: &mut Vec<u32>, index: usize, Ghost(height): Ghost<Seq<nat>>) -> (root: u32)
    requires
        uf_wf(old(parent)@, height),
        index < old(parent)@.len(),
        old(parent)@.len() <= u32::MAX,
    ensures
        root as int == root_of(old(parent)@, height, index as int),
        final(parent)@.len() == old(parent)@.len(),
        uf_wf(final(parent)@, height),
        forall|j: int|
            0 <= j < old(parent)@.len() ==> #[trigger] root_of(final(parent)@, height, j)
                == root_of(old(parent)@, height, j),
{
    let ghost p0 = parent@;
    let mut root: u32 = index as u32;
    proof {
        lemma_root(p0, height, index as int);
    }
    while parent[root as usize] != root
        invariant
            parent@ == p0,
            uf_wf(p0, height),
            (root as int) < p0.len(),
            root_of(p0, height, root as int) == root_of(p0, height, index as int),
        decreases height[root as int],
    {
        proof {
            lemma_root(p0, height, root as int);
        }
        root = parent[root as usize];
    }
    proof {
        assert(root_of(p0, height, root as int) == root as int);
    }
    let mut cursor: u32 = index as u32;
    while parent[cursor as usize] != root
        invariant
            parent@.len() == p0.len(),
            uf_wf(parent@, height),
            (root as int) < p0.len(),
            (cursor as int) < p0.len(),
            parent@[root as int] == root,
            root as int == root_of(p0, height, index as int),
            root_of(parent@, height, cursor as int) == root as int,
            forall|j: int|
                0 <= j < p0.len() ==> #[trigger] root_of(parent@, height, j) == root_of(
                    p0,
                    height,
                    j,
                ),
        decreases height[cursor as int],
    {
        let next = parent[cursor as usize];
        proof {
            lemma_root(parent@, height, cursor as int);
            lemma_compress(parent@, height, cursor as int, root as int);
        }
        parent.set(cursor as usize, root);
        cursor = next;
    }
    root
}

/// Merges the sets of `left` and `right`, hanging the root of lower rank
/// below the other (on equal ranks the lower-numbered root stays root and
/// gains a rank). Returns the new ghost heights.
pub fn union_components(
    parent: &mut Vec<u32>,
    rank: &mut Vec<u8>,
    left: usize,
    right: usize,
    Ghost(height): Ghost<Seq<nat>>,
) -> (new_height: Ghost<Seq<nat>>)
    requires
        uf_inv(old(parent)@, old(rank)@, height),
        left < old(parent)@.len(),
        right < old(parent)@.len(),
    ensures
        final(parent)@.len() == old(parent)@.len(),
        uf_inv(final(parent)@, final(rank)@, new_height@),
        root_of(final(parent)@, new_height@, left as int) == root_of(
            final(parent)@,
            new_height@,
            right as int,
        ),
        root_of(final(parent)@, new_height@, left as int) == root_of(old(parent)@, height, left as int)
            || root_of(final(parent)@, new_height@, left as int) == root_of(
            old(parent)@,
            height,
            right as int,
        ),
        forall|j: int|
            0 <= j < old(parent)@.len() ==> #[trigger] root_of(final(parent)@, new_height@, j)
                == if root_of(old(parent)@, height, j) == root_of(old(parent)@, height, left as int)
                || root_of(old(parent)@, height, j) == root_of(old(parent)@, height, right as int) {
                root_of(final(parent)@, new_height@, left as int)
            } else {
                root_of(old(parent)@, height, j)
            },
{
    let ghost p0 = parent@;
    let ghost n = p0.len() as int;
    let left_root = find_component_root(parent, left, Ghost(height));
    let right_root = find_component_root(parent, right, Ghost(height));
    let ghost p1 = parent@;
    proof {
        lemma_root(p0, height, left as int);
        lemma_root(p0, height, right as int);
        lemma_root(p1, height, left_root as int);
        lemma_root(p1, height, right_root as int);
        assert forall|x: int| 0 <= x < n && #[trigger] p1[x] as int == x implies pow2(
            rank@[x] as nat,
        ) <= root_count(p1, height, x, n) by {
            lemma_root(p1, height, x);
            lemma_root(p0, height, x);
            lemma_count_ext(p0, height, p1, height, x, x, n);
        }
    }
    if left_root == right_root {
        return Ghost(height);
    }
    let left_rank = rank[left_root as usize];
    let right_rank = rank[right_root as usize];
    let ghost (x, y): (int, int) = if left_rank < right_rank {
        (left_root as int, right_root as int)
    } else if left_rank > right_rank {
        (right_root as int, left_root as int)
    } else if left_root <= right_root {
        (right_root as int, left_root as int)
    } else {
        (left_root as int, right_root as int)
    };
    let ghost h2 = linked_height(p1, height, x, y);
    proof {
        lemma_link(p1, height, x, y);
        lemma_rank_small(p1, rank@, height, left_root as int);
        lemma_rank_small(p1, rank@, height, right_root as int);
    }
    if left_rank < right_rank {
        parent.set(left_root as usize, right_root);
    } else if left_rank > right_rank {
        parent.set(right_root as usize, left_root);
    } else if left_root <= right_root {
        parent.set(right_root as usize, left_root);
        rank.set(left_root as usize, left_rank + 1);
    } else {
        parent.set(left_root as usize, right_root);
        rank.set(right_root as usize, right_rank + 1);
    }
    proof {
        let p2 = parent@;
        assert(p2 == p1.update(x, y as u32));
        lemma_count_merge(p1, height, p2, h2, x, y, n);
        assert forall|z: int| 0 <= z < n && #[trigger] p2[z] as int == z implies pow2(
            rank@[z] as nat,
        ) <= root_count(p2, h2, z, n) by {
            if z == y {
                lemma_pow2_unfold((rank@[z]) as nat);
            } else {
                assert(z != x);
                assert(p1[z] == p2[z]);
                lemma_count_ext(p1, height, p2, h2, z, z, n);
            }
        }
        lemma_root(p2, h2, left as int);
        assert(root_of(p2, h2, left as int) == y);
        assert(root_of(p2, h2, right as int) == y);
    }
    Ghost(h2)
}

} // verus!
