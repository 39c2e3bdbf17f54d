//! Rooted trees given by a `parent` array: the root, and an index that
//! lists the children of every node.
use std::ops::Index;
use vstd::prelude::*;

verus! {

/// `r` is the first node of `parent` that is its own parent.
pub open spec fn is_first_root(parent: Seq<usize>, r: int) -> bool {
    &&& 0 <= r < parent.len()
    &&& parent[r] == r
    &&& forall|j: int| 0 <= j < r ==> parent[j] != j
}

/// No node of `parent` is its own parent.
pub open spec fn has_no_root(parent: Seq<usize>) -> bool {
    forall|j: int| 0 <= j < parent.len() ==> parent[j] != j
}

/// Every entry of `parent` names a node.
pub open spec fn parents_in_range(parent: Seq<usize>) -> bool {
    forall|v: int| 0 <= v < parent.len() ==> parent[v] < parent.len()
}

/// The children of `p` among the nodes below `k`, in ascending order.
/// The root is nobody's child.
pub open spec fn children_below(parent: Seq<usize>, root: int, p: int, k: int) -> Seq<usize>
    decreases k,
{
    if k <= 0 {
        Seq::empty()
    } else if k - 1 != root && parent[k - 1] == p {
        children_below(parent, root, p, k - 1).push((k - 1) as usize)
    } else {
        children_below(parent, root, p, k - 1)
    }
}

/// The children of `p`, in ascending order.
pub open spec fn children_of(parent: Seq<usize>, root: int, p: int) -> Seq<usize> {
    children_below(parent, root, p, parent.len() as int)
}

/// One more than the number of nodes below `k` whose parent is below `p`,
/// the root not counted.
pub open spec fn slot_below(parent: Seq<usize>, root: int, p: int, k: int) -> int
    decreases p,
{
    if p <= 0 {
        1
    } else {
        slot_below(parent, root, p - 1, k) + children_below(parent, root, p - 1, k).len()
    }
}

/// The slot at which the children of `p` start: slot 0 holds the root, the
/// children of node 0 follow, then those of node 1, and so on.
pub open spec fn first_child_slot(parent: Seq<usize>, root: int, p: int) -> int {
    slot_below(parent, root, p, parent.len() as int)
}

/// The children of `p` among the nodes below `k` are those nodes, but for
/// the root, whose parent is `p`: each of them once, in ascending order.
pub proof fn lemma_children_below(parent: Seq<usize>, root: int, p: int, k: int)
    requires
        0 <= k <= parent.len() <= usize::MAX,
    ensures
        ({
            let c = children_below(parent, root, p, k);
            &&& c.len() <= k
            &&& forall|t: int|
                0 <= t < c.len() ==> (#[trigger] c[t]) < k && c[t] != root && parent[c[t] as int]
                    == p
            &&& forall|s: int, t: int| 0 <= s < t < c.len() ==> c[s] < c[t]
            &&& forall|v: int|
                0 <= v < k && v != root && #[trigger] parent[v] == p ==> c.contains(v as usize)
        }),
    decreases k,
{
    if k > 0 {
        lemma_children_below(parent, root, p, k - 1);
        let before = children_below(parent, root, p, k - 1);
        let c = children_below(parent, root, p, k);
        let last = (k - 1) as usize;
        let taken = k - 1 != root && parent[k - 1] == p;
        assert(c == if taken {
            before.push(last)
        } else {
            before
        });
        assert forall|t: int| 0 <= t < c.len() implies (#[trigger] c[t]) < k && c[t] != root
            && parent[c[t] as int] == p by {
            if t < before.len() {
                assert(before[t] < k - 1);
            }
        }
        assert forall|s: int, t: int| 0 <= s < t < c.len() implies c[s] < c[t] by {
            if t < before.len() {
                assert(before[s] < before[t]);
            } else {
                assert(before[s] < k - 1);
            }
        }
        assert forall|v: int| 0 <= v < k && v != root && #[trigger] parent[v] == p implies c.contains(
            v as usize,
        ) by {
            if v < k - 1 {
                assert(before.contains(v as usize));
                let t = choose|t: int| 0 <= t < before.len() && before[t] == v as usize;
                assert(c[t] == v as usize);
            } else {
                assert(c[c.len() - 1] == v as usize);
            }
        }
    }
}

/// Find the root node of a tree given its `parent` vector: the first `i`
/// with `parent[i] == i`, if there is one.
pub fn find_root(parent: &[usize]) -> (root: Option<usize>)
    ensures
        match root {
            Some(r) => is_first_root(parent@, r as int),
            None => has_no_root(parent@),
        },
{
    let n: usize = parent.len();
    let mut i: usize = 0;
    while i < n
        invariant
            n == parent@.len(),
            i <= n,
            forall|j: int| 0 <= j < i ==> parent@[j] != j,
        decreases n - i,
    {
        if parent[i] == i {
            return Some(i);
        }
        i += 1;
    }
    None
}

/// Adding node `k` adds it to the children of its parent and to no others.
proof fn lemma_children_step(parent: Seq<usize>, root: int, p: int, k: int)
    requires
        0 <= k,
    ensures
        children_below(parent, root, p, k + 1).len() == children_below(parent, root, p, k).len()
            + (if k != root && parent[k] == p { 1int } else { 0int }),
{
}

/// The children of `p` among more nodes are at least as many.
proof fn lemma_children_monotone(parent: Seq<usize>, root: int, p: int, k1: int, k2: int)
    requires
        0 <= k1 <= k2,
    ensures
        children_below(parent, root, p, k1).len() <= children_below(parent, root, p, k2).len(),
    decreases k2 - k1,
{
    if k1 < k2 {
        lemma_children_monotone(parent, root, p, k1, k2 - 1);
    }
}

/// Among the nodes below `k`, a node has fewer than `k` children, and
/// fewer still when the root is among them.
proof fn lemma_children_bound(parent: Seq<usize>, root: int, p: int, k: int)
    requires
        0 <= k,
    ensures
        children_below(parent, root, p, k).len() + (if 0 <= root < k {
            1int
        } else {
            0int
        }) <= k,
    decreases k,
{
    if k > 0 {
        lemma_children_bound(parent, root, p, k - 1);
    }
}

/// The children of a node end where those of the next node start.
proof fn lemma_slot_next(parent: Seq<usize>, root: int, p: int, k: int)
    requires
        0 <= p,
    ensures
        slot_below(parent, root, p + 1, k) == slot_below(parent, root, p, k) + children_below(
            parent,
            root,
            p,
            k,
        ).len(),
{
}

/// Adding node `k` moves the slots of the nodes above its parent by one.
proof fn lemma_slot_step(parent: Seq<usize>, root: int, m: int, k: int)
    requires
        0 <= k,
        0 <= m,
    ensures
        slot_below(parent, root, m, k + 1) == slot_below(parent, root, m, k) + (if k != root
            && parent[k] < m {
            1int
        } else {
            0int
        }),
    decreases m,
{
    if m > 0 {
        lemma_slot_step(parent, root, m - 1, k);
        lemma_children_step(parent, root, m - 1, k);
    }
}

/// Over all parents, the nodes below `k` fill one slot each, but for the root.
proof fn lemma_slot_total(parent: Seq<usize>, root: int, k: int)
    requires
        parents_in_range(parent),
        0 <= k <= parent.len(),
    ensures
        slot_below(parent, root, parent.len() as int, k) == 1 + k - (if 0 <= root < k {
            1int
        } else {
            0int
        }),
    decreases k,
{
    let n = parent.len() as int;
    if k == 0 {
        lemma_slot_empty(parent, root, n);
    } else {
        lemma_slot_total(parent, root, k - 1);
        lemma_slot_step(parent, root, n, k - 1);
    }
}

/// With no nodes taken in, every slot is the first.
proof fn lemma_slot_empty(parent: Seq<usize>, root: int, m: int)
    ensures
        slot_below(parent, root, m, 0) == 1,
    decreases m,
{
    if m > 0 {
        lemma_slot_empty(parent, root, m - 1);
    }
}

/// The children of a node end where those of the next node start, and
/// slots never go down.
proof fn lemma_slot_monotone(parent: Seq<usize>, root: int, p: int, q: int, k: int)
    requires
        0 <= p <= q,
    ensures
        slot_below(parent, root, p, k) <= slot_below(parent, root, q, k),
        slot_below(parent, root, p, k) >= 1,
    decreases q,
{
    if p < q {
        lemma_slot_monotone(parent, root, p, q - 1, k);
    } else if p > 0 {
        lemma_slot_monotone(parent, root, p - 1, p - 1, k);
    }
}

/// While the parents are counted: with the nodes below `k` seen, entry `p`
/// holds the number of those with parent `p`, the root among them.
spec fn counted(idx: Seq<usize>, parent: Seq<usize>, root: int, k: int, p: int) -> bool {
    idx[p] == children_below(parent, root, p, k).len() + (if p == root && root < k {
        1int
    } else {
        0int
    })
}

/// While the children are placed: with the nodes below `v` placed, the
/// entry after `p` is the next free slot among those of `p`.
spec fn next_free(idx: Seq<usize>, parent: Seq<usize>, root: int, v: int, p: int) -> bool {
    idx[p + 1] == first_child_slot(parent, root, p) + children_below(parent, root, p, v).len()
}

/// While the children are placed: the slots of `p` that are taken hold
/// its children among the nodes below `v`.
spec fn placed(child: Seq<usize>, parent: Seq<usize>, root: int, v: int, p: int) -> bool {
    let first = first_child_slot(parent, root, p);
    let part = children_below(parent, root, p, v);
    &&& 1 <= first
    &&& first + part.len() <= child.len()
    &&& child.subrange(first, first + part.len()) == part
}

/// Counting node `k` keeps the counts right.
proof fn lemma_count_step(
    idx: Seq<usize>,
    parent: Seq<usize>,
    root: int,
    k: int,
    after: Seq<usize>,
)
    requires
        0 <= k < parent.len(),
        0 <= root < parent.len(),
        parent[root] == root,
        parents_in_range(parent),
        idx.len() == parent.len() + 1,
        forall|p: int| 0 <= p < parent.len() ==> #[trigger] counted(idx, parent, root, k, p),
        after.len() == idx.len(),
        after[parent[k] as int] == idx[parent[k] as int] + 1,
        forall|j: int| 0 <= j < idx.len() && j != parent[k] ==> after[j] == idx[j],
    ensures
        forall|p: int| 0 <= p < parent.len() ==> #[trigger] counted(after, parent, root, k + 1, p),
{
    assert forall|p: int| 0 <= p < parent.len() implies #[trigger] counted(
        after,
        parent,
        root,
        k + 1,
        p,
    ) by {
        assert(counted(idx, parent, root, k, p));
        lemma_children_step(parent, root, p, k);
    }
}

/// Fewer than `k` of the nodes below `k` have the parent of node `k`.
proof fn lemma_count_bound(idx: Seq<usize>, parent: Seq<usize>, root: int, k: int)
    requires
        0 <= k < parent.len(),
        0 <= root < parent.len(),
        parents_in_range(parent),
        counted(idx, parent, root, k, parent[k] as int),
    ensures
        idx[parent[k] as int] <= k,
{
    lemma_children_bound(parent, root, parent[k] as int, k);
}

/// The slot that the next child of `parent[v]` goes to is free and in range.
proof fn lemma_place_slot(idx: Seq<usize>, parent: Seq<usize>, root: int, v: int)
    requires
        0 <= v < parent.len(),
        0 <= root < parent.len(),
        v != root,
        parents_in_range(parent),
        idx.len() == parent.len() + 1,
        next_free(idx, parent, root, v, parent[v] as int),
    ensures
        1 <= idx[parent[v] as int + 1] < parent.len(),
        idx[parent[v] as int + 1] < first_child_slot(parent, root, parent[v] as int + 1),
{
    let n = parent.len() as int;
    let p = parent[v] as int;
    lemma_children_step(parent, root, p, v);
    lemma_children_monotone(parent, root, p, v + 1, n);
    lemma_slot_next(parent, root, p, n);
    lemma_slot_monotone(parent, root, p + 1, n, n);
    lemma_slot_monotone(parent, root, 0, p, n);
    lemma_slot_total(parent, root, n);
}

/// Placing node `v` in the next free slot of its parent keeps all that is
/// placed right.
proof fn lemma_place_step(
    idx: Seq<usize>,
    child: Seq<usize>,
    parent: Seq<usize>,
    root: int,
    v: int,
    idx_after: Seq<usize>,
    child_after: Seq<usize>,
)
    requires
        0 <= v < parent.len(),
        0 <= root < parent.len(),
        v != root,
        parents_in_range(parent),
        idx.len() == parent.len() + 1,
        child.len() == parent.len(),
        forall|p: int| 0 <= p < parent.len() ==> #[trigger] next_free(idx, parent, root, v, p),
        forall|p: int| 0 <= p < parent.len() ==> #[trigger] placed(child, parent, root, v, p),
        child_after.len() == child.len(),
        child_after[idx[parent[v] as int + 1] as int] == v,
        forall|j: int|
            0 <= j < child.len() && j != idx[parent[v] as int + 1] ==> child_after[j] == child[j],
        idx_after.len() == idx.len(),
        idx_after[parent[v] as int + 1] == idx[parent[v] as int + 1] + 1,
        forall|j: int| 0 <= j < idx.len() && j != parent[v] + 1 ==> idx_after[j] == idx[j],
    ensures
        forall|p: int|
            0 <= p < parent.len() ==> #[trigger] next_free(idx_after, parent, root, v + 1, p),
        forall|p: int|
            0 <= p < parent.len() ==> #[trigger] placed(child_after, parent, root, v + 1, p),
{
    let n = parent.len() as int;
    let pv = parent[v] as int;
    let s = idx[pv + 1] as int;
    assert(next_free(idx, parent, root, v, pv));
    lemma_place_slot(idx, parent, root, v);
    lemma_slot_next(parent, root, pv, n);
    assert forall|p: int| 0 <= p < n implies #[trigger] next_free(
        idx_after,
        parent,
        root,
        v + 1,
        p,
    ) by {
        assert(next_free(idx, parent, root, v, p));
        lemma_children_step(parent, root, p, v);
    }
    assert forall|p: int| 0 <= p < n implies #[trigger] placed(
        child_after,
        parent,
        root,
        v + 1,
        p,
    ) by {
        assert(placed(child, parent, root, v, p));
        assert(next_free(idx, parent, root, v, p));
        lemma_children_step(parent, root, p, v);
        let first = first_child_slot(parent, root, p);
        let before = children_below(parent, root, p, v);
        let now = children_below(parent, root, p, v + 1);
        lemma_children_monotone(parent, root, p, v, n);
        lemma_slot_next(parent, root, p, n);
        if p < pv {
            lemma_slot_monotone(parent, root, p + 1, pv, n);
        }
        if p > pv {
            lemma_slot_monotone(parent, root, pv + 1, p, n);
        }
        if p == pv {
            assert(now == before.push(v as usize));
            assert forall|t: int| 0 <= t < now.len() implies child_after.subrange(
                first,
                first + now.len(),
            )[t] == now[t] by {
                if t < before.len() {
                    assert(child.subrange(first, first + before.len())[t] == before[t]);
                }
            }
            assert(child_after.subrange(first, first + now.len()) =~= now);
        } else {
            assert(now == before);
            assert forall|t: int| 0 <= t < now.len() implies child_after.subrange(
                first,
                first + now.len(),
            )[t] == now[t] by {
                assert(child.subrange(first, first + before.len())[t] == before[t]);
            }
            assert(child_after.subrange(first, first + now.len()) =~= now);
        }
    }
}

/// The root is placed with no node: nothing else changes.
proof fn lemma_place_root(
    idx: Seq<usize>,
    child: Seq<usize>,
    parent: Seq<usize>,
    root: int,
    v: int,
)
    requires
        0 <= v < parent.len(),
        v == root,
        forall|p: int| 0 <= p < parent.len() ==> #[trigger] next_free(idx, parent, root, v, p),
        forall|p: int| 0 <= p < parent.len() ==> #[trigger] placed(child, parent, root, v, p),
    ensures
        forall|p: int| 0 <= p < parent.len() ==> #[trigger] next_free(idx, parent, root, v + 1, p),
        forall|p: int| 0 <= p < parent.len() ==> #[trigger] placed(child, parent, root, v + 1, p),
{
    assert forall|p: int| 0 <= p < parent.len() implies #[trigger] next_free(
        idx,
        parent,
        root,
        v + 1,
        p,
    ) by {
        assert(next_free(idx, parent, root, v, p));
        lemma_children_step(parent, root, p, v);
    }
    assert forall|p: int| 0 <= p < parent.len() implies #[trigger] placed(
        child,
        parent,
        root,
        v + 1,
        p,
    ) by {
        assert(placed(child, parent, root, v, p));
        lemma_children_step(parent, root, p, v);
    }
}

/// Find all children of a node in constant time.
///
/// Slot 0 of `child` holds the root. The children of node `i` are
/// `child[idx[i]..idx[i + 1]]`, in ascending order.
#[derive(PartialEq, Debug)]
pub struct ChildrenIndex {
    idx: Vec<usize>,
    child: Vec<usize>,
}

impl ChildrenIndex {
    /// The start of every node's children among the slots, and the end of the
    /// last node's.
    pub closed spec fn offsets(&self) -> Seq<usize> {
        self.idx@
    }

    /// The root, followed by the children of node 0, of node 1, and so on.
    pub closed spec fn slots(&self) -> Seq<usize> {
        self.child@
    }

    /// The number of nodes.
    pub open spec fn spec_len(&self) -> nat {
        self.slots().len()
    }

    /// The root node.
    pub open spec fn spec_root(&self) -> usize {
        self.slots()[0]
    }

    /// The children of node `i`.
    pub open spec fn children(&self, i: int) -> Seq<usize> {
        self.slots().subrange(self.offsets()[i] as int, self.offsets()[i + 1] as int)
    }

    /// The offsets cut the slots behind the root into one range per node.
    pub open spec fn wf(&self) -> bool {
        &&& self.slots().len() > 0
        &&& self.offsets().len() == self.slots().len() + 1
        &&& self.offsets()[0] == 1
        &&& self.offsets()[self.slots().len() as int] == self.slots().len()
        &&& forall|i: int|
            0 <= i < self.slots().len() ==> #[trigger] self.offsets()[i] <= self.offsets()[i + 1]
    }

    /// This is the index of the tree `parent` with root `root`.
    pub open spec fn indexes(&self, parent: Seq<usize>, root: int) -> bool {
        &&& self.wf()
        &&& self.spec_len() == parent.len()
        &&& self.spec_root() == root
        &&& forall|i: int|
            0 <= i <= parent.len() ==> #[trigger] self.offsets()[i] == first_child_slot(
                parent,
                root,
                i,
            )
        &&& forall|i: int|
            0 <= i < parent.len() ==> #[trigger] self.children(i) == children_of(parent, root, i)
    }

    /// Build the index of the tree `parent` with root `root`.
    pub fn from_tree(parent: &[usize], root: usize) -> (cidx: Self)
        requires
            root < parent@.len(),
            parent@[root as int] == root,
            parents_in_range(parent@),
        ensures
            cidx.indexes(parent@, root as int),
    {
        let n: usize = parent.len();
        let ghost ps = parent@;
        let ghost r = root as int;
        let mut idx: Vec<usize> = Vec::new();
        idx.resize(n, 0);
        idx.push(0);
        let mut k: usize = 0;
        while k < n
            invariant
                n == ps.len(),
                ps == parent@,
                0 <= r < n,
                ps[r] == r,
                parents_in_range(ps),
                k <= n,
                idx@.len() == n + 1,
                idx@[n as int] == 0,
                forall|p: int| 0 <= p < n ==> #[trigger] counted(idx@, ps, r, k as int, p),
            decreases n - k,
        {
            let p: usize = parent[k];
            let ghost before = idx@;
            proof {
                assert(counted(idx@, ps, r, k as int, p as int));
                lemma_count_bound(idx@, ps, r, k as int);
            }
            idx[p] += 1;
            proof {
                lemma_count_step(before, ps, r, k as int, idx@);
            }
            k += 1;
        }
        let ghost counts = idx@;
        proof {
            assert(counted(counts, ps, r, n as int, r));
        }
        idx[root] -= 1;
        proof {
            lemma_slot_total(ps, r, n as int);
            assert forall|p: int| 0 <= p < n implies #[trigger] idx@[p] == children_of(
                ps,
                r,
                p,
            ).len() by {
                assert(counted(counts, ps, r, n as int, p));
            }
        }

        let mut acc: usize = 1;
        let mut deg_i: usize = 0;
        let mut deg_ii: usize = idx[0];
        let mut i: usize = 0;
        while i < n
            invariant
                n == ps.len(),
                0 <= r < n,
                i <= n,
                idx@.len() == n + 1,
                idx@[n as int] == 0,
                first_child_slot(ps, r, n as int) == n,
                forall|p: int| i <= p < n ==> #[trigger] idx@[p] == children_of(ps, r, p).len(),
                forall|p: int| 0 < p < i ==> #[trigger] idx@[p] == first_child_slot(ps, r, p - 1),
                i > 0 ==> idx@[0] == 1,
                acc == (if i == 0 {
                    1
                } else {
                    first_child_slot(ps, r, i - 1)
                }),
                deg_i == (if i == 0 {
                    0
                } else {
                    children_of(ps, r, i - 1).len()
                }),
                deg_ii == (if i < n {
                    children_of(ps, r, i as int).len()
                } else {
                    0
                }),
            decreases n - i,
        {
            proof {
                lemma_slot_monotone(ps, r, i as int, n as int, n as int);
                if i > 0 {
                    lemma_slot_next(ps, r, i - 1, n as int);
                }
            }
            idx[i] = acc;
            acc += deg_i;
            deg_i = deg_ii;
            deg_ii = idx[i + 1];
            i += 1;
        }
        idx[n] = acc;

        let mut child: Vec<usize> = Vec::new();
        child.resize(n, usize::MAX);
        child[0] = root;

        proof {
            assert forall|p: int| 0 <= p < n implies #[trigger] next_free(idx@, ps, r, 0, p) by {
                if p > 0 {
                    lemma_slot_next(ps, r, p - 1, n as int);
                }
            }
            assert forall|p: int| 0 <= p < n implies #[trigger] placed(child@, ps, r, 0, p) by {
                lemma_slot_monotone(ps, r, 0, p, n as int);
                lemma_slot_monotone(ps, r, p, n as int, n as int);
                let first = first_child_slot(ps, r, p);
                assert(child@.subrange(first, first + 0) =~= Seq::<usize>::empty());
            }
        }
        let mut v: usize = 0;
        while v < n
            invariant
                n == ps.len(),
                ps == parent@,
                0 <= r < n,
                r == root,
                parents_in_range(ps),
                v <= n,
                idx@.len() == n + 1,
                child@.len() == n,
                child@[0] == root,
                idx@[0] == 1,
                forall|p: int| 0 <= p < n ==> #[trigger] next_free(idx@, ps, r, v as int, p),
                forall|p: int| 0 <= p < n ==> #[trigger] placed(child@, ps, r, v as int, p),
            decreases n - v,
        {
            let p: usize = parent[v];
            if v != root {
                proof {
                    assert(next_free(idx@, ps, r, v as int, p as int));
                    lemma_place_slot(idx@, ps, r, v as int);
                }
                let ghost idx_before = idx@;
                let ghost child_before = child@;
                let s: usize = idx[p + 1];
                child[s] = v;
                idx[p + 1] = s + 1;
                proof {
                    lemma_place_step(idx_before, child_before, ps, r, v as int, idx@, child@);
                }
            } else {
                proof {
                    lemma_place_root(idx@, child@, ps, r, v as int);
                }
            }
            v += 1;
        }
        let cidx = ChildrenIndex { idx, child };
        proof {
            lemma_slot_total(ps, r, n as int);
            assert forall|i: int| 0 <= i <= n implies #[trigger] cidx.offsets()[i]
                == first_child_slot(ps, r, i) by {
                if i > 0 {
                    assert(next_free(cidx.idx@, ps, r, n as int, i - 1));
                    lemma_slot_next(ps, r, i - 1, n as int);
                }
            }
            assert forall|i: int| 0 <= i < n implies #[trigger] cidx.offsets()[i]
                <= cidx.offsets()[i + 1] by {
                lemma_slot_monotone(ps, r, i, i + 1, n as int);
            }
            assert forall|i: int| 0 <= i < n implies #[trigger] cidx.children(i) == children_of(
                ps,
                r,
                i,
            ) by {
                assert(placed(cidx.child@, ps, r, n as int, i));
                lemma_slot_next(ps, r, i, n as int);
            }
        }
        cidx
    }

    /// Build the index of the tree `parent`, whose root is found first.
    /// `None` if no node is its own parent.
    pub fn from_parent(parent: &[usize]) -> (cidx: Option<Self>)
        requires
            parents_in_range(parent@),
        ensures
            match cidx {
                Some(c) => is_first_root(parent@, c.spec_root() as int) && c.indexes(
                    parent@,
                    c.spec_root() as int,
                ),
                None => has_no_root(parent@),
            },
    {
        match find_root(parent) {
            Some(root) => Some(Self::from_tree(parent, root)),
            None => None,
        }
    }

    /// The root node of the underlying tree.
    pub fn root_node(&self) -> (root: usize)
        requires
            self.wf(),
        ensures
            root == self.spec_root(),
    {
        self.child[0]
    }

    /// Number of nodes in the underlying tree.
    pub fn len(&self) -> (n: usize)
        ensures
            n == self.spec_len(),
    {
        self.child.len()
    }

    /// The children of node `i`, in ascending order.
    pub fn index(&self, i: usize) -> (children: &[usize])
        requires
            self.wf(),
            i < self.spec_len(),
        ensures
            children@ == self.children(i as int),
    {
        proof {
            self.lemma_offsets_in_range(i as int);
            self.lemma_offsets_in_range(i as int + 1);
        }
        vstd::slice::slice_subrange(self.child.as_slice(), self.idx[i], self.idx[i + 1])
    }

    /// The offsets, one per node and one more.
    pub fn idx(&self) -> (idx: &Vec<usize>)
        ensures
            idx@ == self.offsets(),
    {
        &self.idx
    }

    /// The slots: the root, then every node's children.
    pub fn child(&self) -> (child: &Vec<usize>)
        ensures
            child@ == self.slots(),
    {
        &self.child
    }

    /// Every offset is a slot behind the root, or the end of the slots.
    pub proof fn lemma_offsets_in_range(&self, i: int)
        requires
            self.wf(),
            0 <= i <= self.spec_len(),
        ensures
            1 <= self.offsets()[i] <= self.spec_len(),
    {
        self.lemma_offsets_ordered(0, i);
        self.lemma_offsets_ordered(i, self.spec_len() as int);
    }

    /// The offsets never go down.
    pub proof fn lemma_offsets_ordered(&self, i: int, j: int)
        requires
            self.wf(),
            0 <= i <= j <= self.spec_len(),
        ensures
            self.offsets()[i] <= self.offsets()[j],
        decreases j - i,
    {
        if i < j {
            self.lemma_offsets_ordered(i, j - 1);
            assert(self.offsets()[j - 1] <= self.offsets()[j - 1 + 1]);
        }
    }
}

impl Index<usize> for ChildrenIndex {
    type Output = [usize];

    /// The children of node `i`, in ascending order.
    fn index(&self, i: usize) -> (children: &[usize])
        ensures
            children@ == self.children(i as int),
    {
        proof {
            self.lemma_offsets_in_range(i as int);
            self.lemma_offsets_in_range(i as int + 1);
        }
        vstd::slice::slice_subrange(self.child.as_slice(), self.idx[i], self.idx[i + 1])
    }
}

impl vstd::std_specs::core::IndexSpecImpl<usize> for ChildrenIndex {
    open spec fn index_req(&self, index: &usize) -> bool {
        self.wf() && *index < self.spec_len()
    }
}

/// A tree represented by a `parent` array that tells the parent node.
/// For the `root` node it must hold `parent[root] == root`.
pub struct Tree {
    root: usize,
    parent: Vec<usize>,
}

impl Tree {
    /// The root node.
    pub closed spec fn spec_root(&self) -> usize {
        self.root
    }

    /// The parent of every node.
    pub closed spec fn spec_parent(&self) -> Seq<usize> {
        self.parent@
    }

    /// Take `parent` with the root that `find_root` gives; `None` if it has none.
    pub fn from_parent(parent: Vec<usize>) -> (tree: Option<Self>)
        ensures
            match tree {
                Some(t) => t.spec_parent() == parent@ && is_first_root(
                    parent@,
                    t.spec_root() as int,
                ),
                None => has_no_root(parent@),
            },
    {
        match find_root(parent.as_slice()) {
            Some(root) => Some(Tree { root, parent }),
            None => None,
        }
    }

    /// The root node.
    pub fn root(&self) -> (root: usize)
        ensures
            root == self.spec_root(),
    {
        self.root
    }

    /// The parent of every node.
    pub fn parent(&self) -> (parent: &Vec<usize>)
        ensures
            parent@ == self.spec_parent(),
    {
        &self.parent
    }
}

} // verus!
