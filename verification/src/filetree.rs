//! Arena-indexed tree of filesystem entries with bottom-up size aggregation.
//!
//! All nodes live in one flat `Vec` keyed by [`NodeID`]; id 0 is always the
//! root. Parent and child links are plain indices, never owning pointers.
//! A directory's `size` is kept equal to the size it was inserted with plus
//! the sum of its direct children's sizes, maintained incrementally on every
//! insertion and invalidation.

use vstd::prelude::*;

verus! {

/// Index of a node inside its tree's arena; stable and never reused within
/// one tree's lifetime.
pub type NodeID = usize;

/// One filesystem entry (file or directory) tracked in a [`Tree`].
#[derive(Debug, Clone)]
pub struct Node {
    pub id: NodeID,
    pub size: u64,
    pub name: String,
    pub path: String,
    pub depth: u64,
    pub is_file: bool,
    pub parent: Option<NodeID>,
    pub children: Vec<NodeID>,
}

/// Arena of nodes. `elems[0]` is the root once the tree is constructed, and
/// `last_id` is always the highest id handed out so far.
pub struct Tree {
    pub elems: Vec<Node>,
    pub last_id: NodeID,
    /// The size each node was inserted with (its own, non-aggregated size).
    /// Ghost bookkeeping for the aggregation invariant: a node's `size` field
    /// always equals its inserted size plus the sum of its children's sizes.
    pub own_sizes: Ghost<Seq<u64>>,
}

/// Sum of the `size` fields of the nodes listed in `ids`.
pub open spec fn ids_size_sum(elems: Seq<Node>, ids: Seq<NodeID>) -> int
    decreases ids.len(),
{
    if ids.len() == 0 {
        0
    } else {
        elems[ids[0] as int].size + ids_size_sum(elems, ids.subrange(1, ids.len() as int))
    }
}

/// The signed amount a propagation step adds to an ancestor's size.
pub open spec fn signed_delta(size: u64, negative: bool) -> int {
    if negative {
        -(size as int)
    } else {
        size as int
    }
}

/// All fields of the two nodes agree except possibly `size` and `children`.
pub open spec fn same_except_size_and_children(a: Node, b: Node) -> bool {
    &&& a.id == b.id
    &&& a.name@ == b.name@
    &&& a.path@ == b.path@
    &&& a.depth == b.depth
    &&& a.is_file == b.is_file
    &&& a.parent == b.parent
}

/// All fields of the two nodes agree except possibly `size`.
pub open spec fn same_except_size(a: Node, b: Node) -> bool {
    &&& same_except_size_and_children(a, b)
    &&& a.children@ == b.children@
}

proof fn lemma_ids_size_sum_nonneg(elems: Seq<Node>, ids: Seq<NodeID>)
    ensures
        ids_size_sum(elems, ids) >= 0,
    decreases ids.len(),
{
    if ids.len() > 0 {
        lemma_ids_size_sum_nonneg(elems, ids.subrange(1, ids.len() as int));
    }
}

proof fn lemma_ids_size_sum_le(elems: Seq<Node>, ids: Seq<NodeID>, k: int)
    requires
        0 <= k < ids.len(),
    ensures
        ids_size_sum(elems, ids) >= elems[ids[k] as int].size,
    decreases ids.len(),
{
    let rest = ids.subrange(1, ids.len() as int);
    if k == 0 {
        lemma_ids_size_sum_nonneg(elems, rest);
    } else {
        assert(rest[k - 1] == ids[k]);
        lemma_ids_size_sum_le(elems, rest, k - 1);
    }
}

proof fn lemma_ids_size_sum_push(elems: Seq<Node>, ids: Seq<NodeID>, x: NodeID)
    ensures
        ids_size_sum(elems, ids.push(x)) == ids_size_sum(elems, ids) + elems[x as int].size,
    decreases ids.len(),
{
    let pushed = ids.push(x);
    if ids.len() == 0 {
        assert(pushed.subrange(1, pushed.len() as int) =~= Seq::<NodeID>::empty());
        assert(pushed[0] == x);
        assert(ids_size_sum(elems, pushed) == elems[x as int].size + ids_size_sum(
            elems,
            pushed.subrange(1, pushed.len() as int),
        ));
    } else {
        assert(pushed.subrange(1, pushed.len() as int) =~= ids.subrange(
            1,
            ids.len() as int,
        ).push(x));
        assert(pushed[0] == ids[0]);
        lemma_ids_size_sum_push(elems, ids.subrange(1, ids.len() as int), x);
    }
}

proof fn lemma_ids_size_sum_same_sizes(elems1: Seq<Node>, elems2: Seq<Node>, ids: Seq<NodeID>)
    requires
        forall|k: int|
            0 <= k < ids.len() ==> elems2[#[trigger] ids[k] as int].size == elems1[ids[
                k
            ] as int].size,
    ensures
        ids_size_sum(elems2, ids) == ids_size_sum(elems1, ids),
    decreases ids.len(),
{
    if ids.len() > 0 {
        let rest = ids.subrange(1, ids.len() as int);
        assert(forall|k: int| 0 <= k < rest.len() ==> rest[k] == ids[k + 1]);
        lemma_ids_size_sum_same_sizes(elems1, elems2, rest);
    }
}

proof fn lemma_ids_size_sum_update(elems: Seq<Node>, ids: Seq<NodeID>, j: NodeID, n2: Node)
    requires
        forall|k: int| 0 <= k < ids.len() ==> #[trigger] ids[k] < elems.len(),
        forall|k1: int, k2: int| 0 <= k1 < k2 < ids.len() ==> ids[k1] != ids[k2],
        j < elems.len(),
    ensures
        ids_size_sum(elems.update(j as int, n2), ids) == ids_size_sum(elems, ids) + (
        if ids.contains(j) {
            n2.size - elems[j as int].size
        } else {
            0
        }),
    decreases ids.len(),
{
    let elems2 = elems.update(j as int, n2);
    if ids.len() == 0 {
        assert(!ids.contains(j));
    } else {
        let rest = ids.subrange(1, ids.len() as int);
        assert(forall|k: int| 0 <= k < rest.len() ==> rest[k] == ids[k + 1]);
        lemma_ids_size_sum_update(elems, rest, j, n2);
        if ids[0] == j {
            assert(ids.contains(j)) by {
                assert(ids[0] == j);
            }
            assert(!rest.contains(j)) by {
                if rest.contains(j) {
                    let k = choose|k: int| 0 <= k < rest.len() && rest[k] == j;
                    assert(ids[k + 1] == j);
                }
            }
        } else {
            assert(ids.contains(j) == rest.contains(j)) by {
                if ids.contains(j) {
                    let k = choose|k: int| 0 <= k < ids.len() && ids[k] == j;
                    assert(rest[k - 1] == j);
                }
                if rest.contains(j) {
                    let k = choose|k: int| 0 <= k < rest.len() && rest[k] == j;
                    assert(ids[k + 1] == j);
                }
            }
        }
    }
}

proof fn lemma_ids_size_sum_remove(elems: Seq<Node>, ids: Seq<NodeID>, k: int)
    requires
        0 <= k < ids.len(),
    ensures
        ids_size_sum(elems, ids.remove(k)) == ids_size_sum(elems, ids) - elems[ids[
            k
        ] as int].size,
    decreases ids.len(),
{
    let rest = ids.subrange(1, ids.len() as int);
    if k == 0 {
        assert(ids.remove(0) =~= rest);
    } else {
        lemma_ids_size_sum_remove(elems, rest, k - 1);
        assert(ids.remove(k)[0] == ids[0]);
        assert(ids.remove(k).subrange(1, ids.remove(k).len() as int) =~= rest.remove(k - 1));
    }
}

/// Linkedness of a node below `removed` survives dropping `removed` from a
/// children list, since its own chain never passes through `removed`.
proof fn lemma_linked_preserved(t0: Tree, t1: Tree, i: int, removed: NodeID)
    requires
        t1.elems@.len() == t0.elems@.len(),
        forall|j: int| 0 <= j < t0.elems@.len() ==> t1.elems@[j].parent == t0.elems@[j].parent,
        forall|j: int, x: NodeID|
            0 <= j < t0.elems@.len() && x != removed && #[trigger] t0.elems@[j].children@.contains(
                x,
            ) ==> t1.elems@[j].children@.contains(x),
        t0.linked(i),
        0 <= i < removed,
    ensures
        t1.linked(i),
    decreases i,
{
    if i > 0 {
        let p = t0.parent_idx(i);
        assert(t0.elems@[p].children@.contains(i as NodeID));
        assert(t1.elems@[p].children@.contains(i as NodeID));
        lemma_linked_preserved(t0, t1, p, removed);
    }
}

proof fn lemma_ancestor_lt(t: Tree, a: int, i: int)
    requires
        t.is_ancestor_of(a, i),
    ensures
        0 <= a < i,
    decreases i,
{
    let p = t.parent_idx(i);
    if p != a {
        lemma_ancestor_lt(t, a, p);
    }
}

proof fn lemma_ancestor_trans(t: Tree, a: int, b: int, c: int)
    requires
        t.is_ancestor_of(a, b),
        t.is_ancestor_of(b, c),
    ensures
        t.is_ancestor_of(a, c),
    decreases c,
{
    let pc = t.parent_idx(c);
    if pc == b {
        assert(t.is_ancestor_of(a, pc));
    } else {
        lemma_ancestor_trans(t, a, b, pc);
    }
}

proof fn lemma_ancestor_parent(t: Tree, a: int, i: int)
    requires
        t.struct_wf(),
        t.is_ancestor_of(a, i),
        a != 0,
    ensures
        t.is_ancestor_of(t.parent_idx(a), i),
    decreases i,
{
    lemma_ancestor_lt(t, a, i);
    let p = t.parent_idx(i);
    if p == a {
        assert(t.node_struct_wf(a));
        assert(t.is_ancestor_of(t.parent_idx(a), a));
    } else {
        lemma_ancestor_parent(t, a, p);
    }
}

/// Whether `a` is an ancestor of `i` depends only on the parent links of the
/// nodes below `i`, so it carries over between trees that agree on those.
proof fn lemma_ancestor_extend(t1: Tree, t2: Tree, a: int, i: int)
    requires
        0 <= i < t1.elems@.len(),
        t1.elems@.len() <= t2.elems@.len(),
        forall|j: int|
            0 <= j < t1.elems@.len() ==> t2.elems@[j].parent == t1.elems@[j].parent,
    ensures
        t2.is_ancestor_of(a, i) == t1.is_ancestor_of(a, i),
    decreases i,
{
    if i > 0 && t1.elems@[i].parent is Some && 0 <= t1.parent_idx(i) < i {
        lemma_ancestor_extend(t1, t2, a, t1.parent_idx(i));
    }
}

/// Linkedness carries over to a tree that keeps every parent link and only
/// appends to children lists.
proof fn lemma_linked_extend(t1: Tree, t2: Tree, i: int)
    requires
        0 <= i < t1.elems@.len(),
        t1.elems@.len() <= t2.elems@.len(),
        forall|j: int|
            0 <= j < t1.elems@.len() ==> t2.elems@[j].parent == t1.elems@[j].parent,
        forall|j: int|
            0 <= j < t1.elems@.len() ==> (#[trigger] t1.elems@[j].children@).is_prefix_of(
                t2.elems@[j].children@,
            ),
        t1.linked(i),
    ensures
        t2.linked(i),
    decreases i,
{
    if i > 0 {
        let p = t1.parent_idx(i);
        let c1 = t1.elems@[p].children@;
        let c2 = t2.elems@[p].children@;
        let k = choose|k: int| 0 <= k < c1.len() && c1[k] == i as NodeID;
        assert(c2[k] == i as NodeID);
        lemma_linked_extend(t1, t2, p);
    }
}

/// On a tree whose size equations hold everywhere above `i`, every size on
/// `i`'s parent chain (including `i` itself) is bounded by the root's size.
proof fn lemma_chain_sizes_le_root(t: Tree, i: int)
    requires
        t.struct_wf(),
        0 <= i < t.elems@.len(),
        t.linked(i),
        forall|a: int| t.is_ancestor_of(a, i) ==> t.size_ok_at(a),
    ensures
        forall|a: int|
            a == i || t.is_ancestor_of(a, i) ==> #[trigger] t.elems@[a].size <= t.elems@[0].size,
    decreases i,
{
    if i == 0 {
        assert forall|a: int| a == i || t.is_ancestor_of(a, i) implies #[trigger] t.elems@[a].size
            <= t.elems@[0].size by {
            if a != i {
                lemma_ancestor_lt(t, a, i);
            }
        }
    } else {
        let p = t.parent_idx(i);
        let c = t.elems@[p].children@;
        assert(c.contains(i as NodeID));
        let k = choose|k: int| 0 <= k < c.len() && c[k] == i as NodeID;
        assert(t.is_ancestor_of(p, i));
        assert(t.size_ok_at(p));
        lemma_ids_size_sum_le(t.elems@, c, k);
        assert(ids_size_sum(t.elems@, c) >= t.elems@[i].size);
        assert(t.elems@[p].size == t.own_sizes@[p] + ids_size_sum(t.elems@, c));
        assert(t.elems@[i].size <= t.elems@[p].size);
        assert forall|a: int| t.is_ancestor_of(a, p) implies t.size_ok_at(a) by {
            assert(t.is_ancestor_of(a, i));
        }
        lemma_chain_sizes_le_root(t, p);
        assert forall|a: int| a == i || t.is_ancestor_of(a, i) implies #[trigger] t.elems@[a].size
            <= t.elems@[0].size by {
            if a != i && a != p {
                assert(t.is_ancestor_of(a, p));
            }
        }
    }
}

/// Depth never exceeds the arena index, which bounds depth arithmetic.
proof fn lemma_depth_le_index(t: Tree, i: int)
    requires
        t.struct_wf(),
        0 <= i < t.elems@.len(),
    ensures
        t.elems@[i].depth <= i,
    decreases i,
{
    assert(t.node_struct_wf(i));
    if i > 0 {
        lemma_depth_le_index(t, t.parent_idx(i));
    }
}

impl Tree {
    /// Structural well-formedness of the node at index `i`: its id is its
    /// index, its parent sits strictly below it with a consistent depth, and
    /// its child list is strictly increasing with matching back-links.
    pub open spec fn node_struct_wf(self, i: int) -> bool {
        let n = self.elems@[i];
        &&& n.id == i
        &&& if i == 0 {
            &&& n.parent is None
            &&& n.depth == 0
        } else {
            &&& n.parent is Some
            &&& 0 <= n.parent->0 < i
            &&& n.depth == self.elems@[n.parent->0 as int].depth + 1
        }
        &&& forall|k: int|
            0 <= k < n.children@.len() ==> i < #[trigger] n.children@[k] < self.elems@.len()
        &&& forall|k: int|
            0 <= k < n.children@.len() ==> self.elems@[#[trigger] n.children@[k] as int].parent
                == Some(i as NodeID)
        &&& forall|k1: int, k2: int|
            0 <= k1 < k2 < n.children@.len() ==> n.children@[k1] < n.children@[k2]
    }

    /// Structural well-formedness of the whole arena.
    pub open spec fn struct_wf(self) -> bool {
        &&& 1 <= self.elems@.len()
        &&& self.last_id == self.elems@.len() - 1
        &&& self.own_sizes@.len() == self.elems@.len()
        &&& forall|i: int| 0 <= i < self.elems@.len() ==> self.node_struct_wf(i)
    }

    /// The aggregation equation at node `i`: its `size` equals the size it
    /// was inserted with plus the sum of its direct children's sizes.
    pub open spec fn size_ok_at(self, i: int) -> bool {
        self.elems@[i].size == self.own_sizes@[i] + ids_size_sum(
            self.elems@,
            self.elems@[i].children@,
        )
    }

    /// The aggregation equation holds at every node.
    pub open spec fn sizes_ok(self) -> bool {
        forall|i: int| 0 <= i < self.elems@.len() ==> self.size_ok_at(i)
    }

    /// Full tree invariant: structure plus size aggregation.
    pub open spec fn wf(self) -> bool {
        &&& self.struct_wf()
        &&& self.sizes_ok()
    }

    /// Node `i` is reachable from the root through children lists. An
    /// invalidated node keeps its slot and parent link but stops being linked.
    pub open spec fn linked(self, i: int) -> bool
        decreases i,
    {
        if i <= 0 {
            i == 0
        } else if i < self.elems@.len() && self.elems@[i].parent is Some && 0 <= self.elems@[
            i
        ].parent->0 < i {
            let p = self.elems@[i].parent->0 as int;
            self.elems@[p].children@.contains(i as NodeID) && self.linked(p)
        } else {
            false
        }
    }

    /// `a` lies strictly above `i` on `i`'s parent chain.
    pub open spec fn is_ancestor_of(self, a: int, i: int) -> bool
        decreases i,
    {
        if i <= 0 || i >= self.elems@.len() {
            false
        } else if self.elems@[i].parent is Some && 0 <= self.elems@[i].parent->0 < i {
            let p = self.elems@[i].parent->0 as int;
            p == a || self.is_ancestor_of(a, p)
        } else {
            false
        }
    }

    /// The parent index of node `i` as a mathematical integer; meaningful
    /// only when node `i` has a parent.
    pub open spec fn parent_idx(self, i: int) -> int {
        self.elems@[i].parent->0 as int
    }

    /// Creates a tree holding only a root node for the scan target: zero
    /// size, zero depth, no parent.
    pub fn new(root_name: &str) -> (t: Tree)
        ensures
            t.wf(),
            t.elems@.len() == 1,
            t.last_id == 0,
            t.elems@[0].size == 0,
            t.elems@[0].name@ == root_name@,
            t.elems@[0].path@ == root_name@,
            !t.elems@[0].is_file,
            t.elems@[0].children@.len() == 0,
    {
        let root = Node {
            id: 0,
            size: 0,
            name: root_name.to_owned(),
            path: root_name.to_owned(),
            depth: 0,
            is_file: false,
            parent: None,
            children: Vec::new(),
        };
        let mut elems: Vec<Node> = Vec::new();
        elems.push(root);
        let ghost base: Seq<u64> = seq![0u64];
        let t = Tree { elems, last_id: 0, own_sizes: Ghost(base) };
        proof {
            assert(t.elems@[0].children@.len() == 0);
            assert(ids_size_sum(t.elems@, t.elems@[0].children@) == 0);
        }
        t
    }

    /// Adds `size` to (or, with `negative`, subtracts it from) every node on
    /// the parent chain above `node`, restoring the aggregation equation that
    /// a fresh insertion or removal left broken at `node`'s parent.
    fn propagate_child_size(&mut self, node: NodeID, size: u64, negative: bool)
        requires
            old(self).struct_wf(),
            node < old(self).elems@.len(),
            old(self).elems@[node as int].parent is None ==> old(self).sizes_ok(),
            old(self).elems@[node as int].parent is Some ==> {
                let g = *old(self);
                let p0 = g.parent_idx(node as int);
                &&& g.linked(p0)
                &&& forall|i: int| 0 <= i < g.elems@.len() && i != p0 ==> g.size_ok_at(i)
                &&& g.elems@[p0].size + signed_delta(size, negative) == g.own_sizes@[p0]
                    + ids_size_sum(g.elems@, g.elems@[p0].children@)
                &&& (!negative ==> g.elems@[0].size + size <= u64::MAX)
            },
        ensures
            final(self).struct_wf(),
            final(self).sizes_ok(),
            final(self).elems@.len() == old(self).elems@.len(),
            final(self).last_id == old(self).last_id,
            final(self).own_sizes@ == old(self).own_sizes@,
            forall|i: int|
                0 <= i < final(self).elems@.len() ==> same_except_size(
                    #[trigger] final(self).elems@[i],
                    old(self).elems@[i],
                ),
            forall|i: int|
                0 <= i < final(self).elems@.len() ==> #[trigger] final(self).elems@[i].size == old(
                    self,
                ).elems@[i].size + (if old(self).is_ancestor_of(i, node as int) {
                    signed_delta(size, negative)
                } else {
                    0
                }),
    {
        let ghost g = *old(self);
        let ghost delta = signed_delta(size, negative);
        proof {
            if !negative && g.elems@[node as int].parent is Some {
                let p0 = g.parent_idx(node as int);
                assert(g.node_struct_wf(node as int));
                assert forall|a: int| g.is_ancestor_of(a, p0) implies g.size_ok_at(a) by {
                    lemma_ancestor_lt(g, a, p0);
                }
                lemma_chain_sizes_le_root(g, p0);
            }
        }
        let mut cur = node;
        proof {
            assert forall|i: int| 0 <= i < self.elems@.len() implies #[trigger] self.elems@[i].size
                == g.elems@[i].size + (if g.is_ancestor_of(i, node as int) && (i == cur as int
                || !g.is_ancestor_of(i, cur as int)) {
                delta
            } else {
                0
            }) by {
                if i == node as int && g.is_ancestor_of(i, node as int) {
                    lemma_ancestor_lt(g, i, node as int);
                }
            }
        }
        while self.elems[cur].parent.is_some()
            invariant
                g.struct_wf(),
                node < g.elems@.len(),
                cur < g.elems@.len(),
                cur == node || g.is_ancestor_of(cur as int, node as int),
                self.elems@.len() == g.elems@.len(),
                self.last_id == g.last_id,
                self.own_sizes@ == g.own_sizes@,
                forall|i: int|
                    0 <= i < self.elems@.len() ==> same_except_size(
                        #[trigger] self.elems@[i],
                        g.elems@[i],
                    ),
                forall|i: int|
                    0 <= i < self.elems@.len() ==> #[trigger] self.elems@[i].size
                        == g.elems@[i].size + (if g.is_ancestor_of(i, node as int) && (i
                        == cur as int || !g.is_ancestor_of(i, cur as int)) {
                        delta
                    } else {
                        0
                    }),
                g.elems@[cur as int].parent is Some ==> g.linked(g.parent_idx(cur as int)),
                g.elems@[cur as int].parent is None ==> forall|i: int|
                    0 <= i < self.elems@.len() ==> self.size_ok_at(i),
                g.elems@[cur as int].parent is Some ==> {
                    let p1 = g.parent_idx(cur as int);
                    &&& forall|i: int|
                        0 <= i < self.elems@.len() && i != p1 ==> self.size_ok_at(i)
                    &&& self.elems@[p1].size + delta == self.own_sizes@[p1] + ids_size_sum(
                        self.elems@,
                        self.elems@[p1].children@,
                    )
                },
                !negative && g.elems@[node as int].parent is Some ==> {
                    let p0 = g.parent_idx(node as int);
                    &&& g.elems@[0].size + size <= u64::MAX
                    &&& forall|a: int|
                        a == p0 || g.is_ancestor_of(a, p0) ==> #[trigger] g.elems@[a].size
                            <= g.elems@[0].size
                },
                g.elems@[node as int].parent is None ==> cur == node,
                delta == signed_delta(size, negative),
            decreases cur,
        {
            let p = match self.elems[cur].parent {
                Some(p) => p,
                None => 0,  // unreachable: the loop condition saw a parent
            };
            let ghost s1 = *self;
            let ghost p0 = g.parent_idx(node as int);
            proof {
                assert(g.node_struct_wf(cur as int));
                assert(g.elems@[cur as int].parent is Some);
                assert(same_except_size(s1.elems@[cur as int], g.elems@[cur as int]));
                assert(p == g.parent_idx(cur as int));
                assert(0 <= p < cur);
                // `p` lies on the chain from node's parent to the root.
                if cur == node {
                    assert(p == p0);
                } else {
                    assert(g.is_ancestor_of(cur as int, node as int));
                    assert(p0 == cur as int || g.is_ancestor_of(cur as int, p0));
                    if p0 == cur as int {
                        assert(g.node_struct_wf(cur as int));
                        assert(g.is_ancestor_of(p as int, p0));
                    } else {
                        lemma_ancestor_parent(g, cur as int, p0);
                    }
                }
                // `p` was not updated yet, so it still carries its pre-loop size.
                assert(g.is_ancestor_of(p as int, cur as int));
                lemma_ancestor_lt(g, p as int, cur as int);
                assert(s1.elems@[p as int].size == g.elems@[p as int].size);
                if !negative {
                    assert(p as int == p0 || g.is_ancestor_of(p as int, p0));
                    assert(g.elems@[p as int].size <= g.elems@[0].size);
                    assert(s1.elems@[p as int].size + size <= u64::MAX);
                } else {
                    lemma_ids_size_sum_nonneg(s1.elems@, s1.elems@[p as int].children@);
                    assert(s1.elems@[p as int].size >= size);
                }
            }
            if negative {
                let new_size = self.elems[p].size - size;
                self.elems[p].size = new_size;
            } else {
                let new_size = self.elems[p].size + size;
                self.elems[p].size = new_size;
            }
            proof {
                let s2 = *self;
                assert(s2.elems@ =~= s1.elems@.update(
                    p as int,
                    Node { size: (s1.elems@[p as int].size + delta) as u64, ..s1.elems@[p as int] },
                ));
                let n2 = s2.elems@[p as int];
                assert(n2.size == s1.elems@[p as int].size + delta);
                // Sums change only where `p` is listed as a child, which by the
                // back-link property is exactly at p's parent.
                assert forall|i: int| 0 <= i < s2.elems@.len() implies ids_size_sum(
                    s2.elems@,
                    s2.elems@[i].children@,
                ) == ids_size_sum(s1.elems@, s1.elems@[i].children@) + (
                if g.elems@[i].children@.contains(p) {
                    delta
                } else {
                    0
                }) by {
                    assert(g.node_struct_wf(i));
                    assert(s1.elems@[i].children@ == g.elems@[i].children@);
                    assert(s2.elems@[i].children@ == g.elems@[i].children@);
                    lemma_ids_size_sum_update(s1.elems@, g.elems@[i].children@, p, n2);
                }
                // Identify which nodes list `p` as a child.
                assert forall|i: int|
                    0 <= i < g.elems@.len() && #[trigger] g.elems@[i].children@.contains(p)
                        implies g.elems@[p as int].parent == Some(i as NodeID) by {
                    let c = g.elems@[i].children@;
                    let k = choose|k: int| 0 <= k < c.len() && c[k] == p;
                    assert(g.node_struct_wf(i));
                }
                assert(!g.elems@[p as int].children@.contains(p)) by {
                    if g.elems@[p as int].children@.contains(p) {
                        let c = g.elems@[p as int].children@;
                        let k = choose|k: int| 0 <= k < c.len() && c[k] == p;
                        assert(g.node_struct_wf(p as int));
                    }
                }
                // The aggregation equation is restored at `p` ...
                assert(s2.size_ok_at(p as int));
                // ... and the deficit moves to p's parent, if any.
                if g.elems@[p as int].parent is Some {
                    let pp = g.parent_idx(p as int);
                    assert(g.node_struct_wf(p as int));
                    assert(p != 0);
                    assert(0 <= pp < p);
                    assert(g.linked(p as int));
                    assert(g.elems@[pp].children@.contains(p));
                    assert(pp != p as int);
                    assert(s2.elems@[pp].size == s1.elems@[pp].size);
                    assert(s1.size_ok_at(pp));
                    assert(s2.elems@[pp].size + delta == s2.own_sizes@[pp] + ids_size_sum(
                        s2.elems@,
                        s2.elems@[pp].children@,
                    ));
                    assert forall|i: int| 0 <= i < s2.elems@.len() && i != pp implies
                        s2.size_ok_at(i) by {
                        if i != p as int {
                            assert(s1.size_ok_at(i));
                            if g.elems@[i].children@.contains(p) {
                                assert(g.elems@[p as int].parent == Some(i as NodeID));
                            }
                        }
                    }
                } else {
                    assert(g.node_struct_wf(p as int));
                    assert(p == 0);
                    assert forall|i: int| 0 <= i < s2.elems@.len() implies s2.size_ok_at(i) by {
                        if i != p as int {
                            assert(s1.size_ok_at(i));
                            if g.elems@[i].children@.contains(p) {
                                assert(g.elems@[p as int].parent == Some(i as NodeID));
                            }
                        }
                    }
                }
                // The set of updated nodes grows by exactly `p`.
                assert(g.is_ancestor_of(p as int, node as int)) by {
                    if cur != node {
                        assert(g.is_ancestor_of(p as int, cur as int));
                        lemma_ancestor_trans(g, p as int, cur as int, node as int);
                    }
                }
                assert forall|i: int| 0 <= i < s2.elems@.len() implies #[trigger] s2.elems@[i].size
                    == g.elems@[i].size + (if g.is_ancestor_of(i, node as int) && (i == p as int
                    || !g.is_ancestor_of(i, p as int)) {
                    delta
                } else {
                    0
                }) by {
                    if i == p as int {
                        assert(g.is_ancestor_of(p as int, node as int));
                    } else {
                        assert(s2.elems@[i].size == s1.elems@[i].size);
                        // old guard (w.r.t. cur) and new guard (w.r.t. p) agree off `p`
                        assert(g.is_ancestor_of(i, cur as int) == (i == p as int
                            || g.is_ancestor_of(i, p as int)));
                        if i == cur as int && g.is_ancestor_of(i, p as int) {
                            // impossible: an ancestor sits strictly below its node
                            lemma_ancestor_lt(g, i, p as int);
                        }
                    }
                }
            }
            cur = p;
        }
        proof {
            // At exit the current node has no parent, so it is the root and
            // every strict ancestor of `node` has been updated.
            assert(g.node_struct_wf(cur as int));
            if cur != 0 {
                assert(g.elems@[cur as int].parent is Some);
            }
            assert(cur == 0);
            assert forall|i: int| 0 <= i < self.elems@.len() implies #[trigger] self.elems@[i].size
                == g.elems@[i].size + (if g.is_ancestor_of(i, node as int) {
                delta
            } else {
                0
            }) by {
                if g.is_ancestor_of(i, node as int) && i != 0 {
                    assert(!g.is_ancestor_of(i, 0));
                }
            }
            assert forall|i: int| 0 <= i < self.elems@.len() implies self.node_struct_wf(i) by {
                assert(g.node_struct_wf(i));
            }
        }
    }

    /// Appends a new node as the last child of `parent` and adds its size to
    /// every ancestor up to the root. Returns the new id, which is always the
    /// previous highest id plus one.
    pub fn add_elem(
        &mut self,
        parent: NodeID,
        name: String,
        path: String,
        is_file: bool,
        size: u64,
    ) -> (r: NodeID)
        requires
            old(self).wf(),
            parent < old(self).elems@.len(),
            old(self).linked(parent as int),
            old(self).elems@[0].size + size <= u64::MAX,
        ensures
            final(self).wf(),
            r == old(self).last_id + 1,
            r == old(self).elems@.len(),
            final(self).last_id == r,
            final(self).elems@.len() == old(self).elems@.len() + 1,
            final(self).own_sizes@ == old(self).own_sizes@.push(size),
            final(self).linked(r as int),
            ({
                let n = final(self).elems@[r as int];
                &&& n.id == r
                &&& n.size == size
                &&& n.name@ == name@
                &&& n.path@ == path@
                &&& n.depth == old(self).elems@[parent as int].depth + 1
                &&& n.is_file == is_file
                &&& n.parent == Some(parent)
                &&& n.children@.len() == 0
            }),
            final(self).elems@[parent as int].children@ == old(self).elems@[
                parent as int
            ].children@.push(r),
            same_except_size_and_children(
                final(self).elems@[parent as int],
                old(self).elems@[parent as int],
            ),
            forall|i: int|
                0 <= i < old(self).elems@.len() && i != parent ==> same_except_size(
                    #[trigger] final(self).elems@[i],
                    old(self).elems@[i],
                ),
            forall|i: int|
                0 <= i < old(self).elems@.len() ==> #[trigger] final(self).elems@[i].size == old(
                    self,
                ).elems@[i].size + (if i == parent || old(self).is_ancestor_of(i, parent as int) {
                    size as int
                } else {
                    0
                }),
    {
        let ghost t0 = *old(self);
        proof {
            assert(t0.node_struct_wf(parent as int));
            lemma_depth_le_index(t0, parent as int);
        }
        let len_now = self.elems.len();
        proof {
            assert(self.last_id < len_now);
        }
        let new_id = self.last_id + 1;
        self.last_id = new_id;
        let depth = self.elems[parent].depth + 1;
        let node = Node {
            id: new_id,
            size,
            name,
            path,
            depth,
            is_file,
            parent: Some(parent),
            children: Vec::new(),
        };
        self.elems[parent].children.push(new_id);
        self.elems.push(node);
        proof {
            self.own_sizes@ = t0.own_sizes@.push(size);
        }
        let ghost t1 = *self;
        proof {
            let r = new_id as int;
            assert(t1.elems@.len() == t0.elems@.len() + 1);
            assert(forall|i: int|
                0 <= i < t0.elems@.len() && i != parent ==> t1.elems@[i] == t0.elems@[i]);
            assert(t1.elems@[parent as int].children@ == t0.elems@[
                parent as int
            ].children@.push(new_id));
            assert(t1.elems@[r].children@.len() == 0);
            // structural well-formedness of the extended arena
            assert forall|i: int| 0 <= i < t1.elems@.len() implies t1.node_struct_wf(i) by {
                if i < t0.elems@.len() {
                    assert(t0.node_struct_wf(i));
                }
            }
            assert(t1.struct_wf());
            // every size equation except the parent's survives the append
            assert forall|i: int| 0 <= i < t1.elems@.len() && i != parent implies t1.size_ok_at(
                i,
            ) by {
                if i < t0.elems@.len() {
                    assert(t0.size_ok_at(i));
                    assert(t0.node_struct_wf(i));
                    assert(t1.elems@[i].children@ == t0.elems@[i].children@);
                    lemma_ids_size_sum_same_sizes(t0.elems@, t1.elems@, t0.elems@[i].children@);
                } else {
                    assert(ids_size_sum(t1.elems@, t1.elems@[r].children@) == 0);
                }
            }
            // and the parent is short of the new child's size exactly
            assert(t0.size_ok_at(parent as int));
            lemma_ids_size_sum_same_sizes(t0.elems@, t1.elems@, t0.elems@[parent as int].children@);
            lemma_ids_size_sum_push(t1.elems@, t0.elems@[parent as int].children@, new_id);
            assert(t1.elems@[parent as int].size + size == t1.own_sizes@[parent as int]
                + ids_size_sum(t1.elems@, t1.elems@[parent as int].children@));
            // the parent stays linked in the extended arena
            assert forall|j: int| 0 <= j < t0.elems@.len() implies (
            #[trigger] t0.elems@[j].children@).is_prefix_of(t1.elems@[j].children@) by {
                if j != parent {
                    assert(t1.elems@[j].children@ == t0.elems@[j].children@);
                }
            }
            lemma_linked_extend(t0, t1, parent as int);
            assert(t1.parent_idx(r) == parent as int);
            assert(t1.linked(parent as int));
        }
        self.propagate_child_size(new_id, size, false);
        proof {
            let r = new_id as int;
            let t2 = *self;
            // ancestor chains in the extended arena match those of the old arena
            assert forall|i: int| 0 <= i < t0.elems@.len() implies t1.is_ancestor_of(
                i,
                parent as int,
            ) == t0.is_ancestor_of(i, parent as int) by {
                lemma_ancestor_extend(t0, t1, i, parent as int);
            }
            assert forall|i: int| 0 <= i < t0.elems@.len() implies t1.is_ancestor_of(i, r) == (i
                == parent as int || t0.is_ancestor_of(i, parent as int)) by {
                lemma_ancestor_extend(t0, t1, i, parent as int);
            }
            assert forall|i: int| 0 <= i < t0.elems@.len() implies #[trigger] t2.elems@[i].size
                == t0.elems@[i].size + (if i == parent || t0.is_ancestor_of(i, parent as int) {
                size as int
            } else {
                0
            }) by {
                assert(t2.elems@[i].size == t1.elems@[i].size + (if t1.is_ancestor_of(i, r) {
                    size as int
                } else {
                    0
                }));
            }
            // the new node keeps the fields it was inserted with
            assert(!t1.is_ancestor_of(r, r)) by {
                if t1.is_ancestor_of(r, r) {
                    lemma_ancestor_lt(t1, r, r);
                }
            }
            assert(t2.elems@[r].size == t1.elems@[r].size);
            assert(same_except_size(t2.elems@[r], t1.elems@[r]));
            // the new node ends up linked under its parent
            assert(t1.elems@[parent as int].children@[t1.elems@[parent as int].children@.len()
                - 1] == new_id);
            assert(t1.elems@[parent as int].children@.contains(new_id));
            assert(t1.linked(r));
            assert forall|j: int| 0 <= j < t1.elems@.len() implies (
            #[trigger] t1.elems@[j].children@).is_prefix_of(t2.elems@[j].children@) by {
                assert(same_except_size(t2.elems@[j], t1.elems@[j]));
                assert(t1.elems@[j].children@ =~= t2.elems@[j].children@);
            }
            lemma_linked_extend(t1, t2, r);
        }
        new_id
    }

    /// Removes `node` from its parent's child list and subtracts its size
    /// from every ancestor. The node's slot is retained, so its id and those
    /// of its descendants stay readable, but it becomes unreachable from the
    /// root. Invalidating the root is a no-op.
    pub fn invalidate_elem(&mut self, node: NodeID)
        requires
            old(self).wf(),
            node < old(self).elems@.len(),
            old(self).linked(node as int),
        ensures
            final(self).wf(),
            final(self).elems@.len() == old(self).elems@.len(),
            final(self).last_id == old(self).last_id,
            final(self).own_sizes@ == old(self).own_sizes@,
            node == 0 ==> final(self).elems@ == old(self).elems@,
            node != 0 ==> {
                let g = *old(self);
                let p = g.parent_idx(node as int);
                let c = g.elems@[p].children@;
                &&& final(self).elems@[p].children@ == c.remove(c.index_of(node))
                &&& !final(self).linked(node as int)
                &&& same_except_size_and_children(final(self).elems@[p], g.elems@[p])
                &&& forall|i: int|
                    0 <= i < g.elems@.len() && i != p ==> same_except_size(
                        #[trigger] final(self).elems@[i],
                        g.elems@[i],
                    )
                &&& forall|i: int|
                    0 <= i < g.elems@.len() ==> #[trigger] final(self).elems@[i].size
                        == g.elems@[i].size - (if g.is_ancestor_of(i, node as int) {
                        g.elems@[node as int].size as int
                    } else {
                        0
                    })
            },
    {
        let ghost t0 = *old(self);
        let size = self.elems[node].size;
        let parent_opt = self.elems[node].parent;
        match parent_opt {
            None => {
                proof {
                    assert(t0.node_struct_wf(node as int));
                    assert(node == 0);
                }
            },
            Some(p) => {
                proof {
                    assert(t0.node_struct_wf(node as int));
                    assert(node != 0);
                    assert(p as int == t0.parent_idx(node as int));
                    assert(t0.elems@[p as int].children@.contains(node));
                }
                let clen = self.elems[p].children.len();
                let mut pos: usize = 0;
                while self.elems[p].children[pos] != node
                    invariant
                        *self == t0,
                        clen == t0.elems@[p as int].children@.len(),
                        t0.wf(),
                        node < t0.elems@.len(),
                        node != 0,
                        p < t0.elems@.len(),
                        p as int == t0.parent_idx(node as int),
                        t0.elems@[p as int].children@.contains(node),
                        pos < t0.elems@[p as int].children@.len(),
                        forall|j: int|
                            0 <= j < pos ==> t0.elems@[p as int].children@[j] != node,
                    decreases t0.elems@[p as int].children@.len() - pos,
                {
                    proof {
                        let c = t0.elems@[p as int].children@;
                        let k = choose|k: int| 0 <= k < c.len() && c[k] == node;
                        assert(k > pos);
                    }
                    pos = pos + 1;
                }
                let ghost c = t0.elems@[p as int].children@;
                proof {
                    assert(c[pos as int] == node);
                    // the child list is strictly increasing, so this is the
                    // only occurrence
                    assert(t0.node_struct_wf(p as int));
                    assert forall|j: int| 0 <= j < c.len() && j != pos ==> c[j] != node by {}
                }
                self.elems[p].children.remove(pos);
                let ghost t1 = *self;
                proof {
                    let cc = c.remove(pos as int);
                    assert(t1.elems@[p as int].children@ == cc);
                    assert(forall|i: int|
                        0 <= i < t0.elems@.len() && i != p ==> t1.elems@[i] == t0.elems@[i]);
                    assert forall|a: int| 0 <= a < cc.len() implies (if a < pos {
                        cc[a] == c[a]
                    } else {
                        cc[a] == c[a + 1]
                    }) by {}
                    // structure is preserved
                    assert forall|i: int| 0 <= i < t1.elems@.len() implies t1.node_struct_wf(
                        i,
                    ) by {
                        assert(t0.node_struct_wf(i));
                    }
                    assert(t1.struct_wf());
                    // no size changed, only the parent's child list
                    assert(forall|j: int|
                        0 <= j < t0.elems@.len() ==> #[trigger] t1.elems@[j].size
                            == t0.elems@[j].size);
                    // all size equations except the parent's survive
                    assert forall|i: int| 0 <= i < t1.elems@.len() && i != p implies t1.size_ok_at(
                        i,
                    ) by {
                        assert(t0.size_ok_at(i));
                        assert(t0.node_struct_wf(i));
                        assert(t1.elems@[i].children@ == t0.elems@[i].children@);
                        lemma_ids_size_sum_same_sizes(t0.elems@, t1.elems@, t0.elems@[i].children@);
                    }
                    // and the parent now carries exactly the removed size too much
                    assert(t0.size_ok_at(p as int));
                    lemma_ids_size_sum_remove(t0.elems@, c, pos as int);
                    assert(forall|a: int|
                        0 <= a < cc.len() ==> #[trigger] cc[a] < t0.elems@.len());
                    lemma_ids_size_sum_same_sizes(t0.elems@, t1.elems@, cc);
                    assert(t1.elems@[p as int].size - size == t1.own_sizes@[p as int]
                        + ids_size_sum(t1.elems@, t1.elems@[p as int].children@));
                    // the parent chain stays linked
                    assert forall|j: int, x: NodeID|
                        0 <= j < t0.elems@.len() && x != node && #[trigger] t0.elems@[
                            j
                        ].children@.contains(x) implies t1.elems@[j].children@.contains(x) by {
                        if j == p {
                            let k = choose|k: int| 0 <= k < c.len() && c[k] == x;
                            if k < pos {
                                assert(cc[k] == x);
                            } else {
                                assert(cc[k - 1] == x);
                            }
                        }
                    }
                    assert(t0.linked(p as int));
                    lemma_linked_preserved(t0, t1, p as int, node);
                    assert(t1.linked(t1.parent_idx(node as int)));
                }
                self.propagate_child_size(node, size, true);
                proof {
                    let t2 = *self;
                    // ancestor chains are unchanged by the unlink
                    assert forall|i: int| 0 <= i < t0.elems@.len() implies t1.is_ancestor_of(
                        i,
                        node as int,
                    ) == t0.is_ancestor_of(i, node as int) by {
                        lemma_ancestor_extend(t0, t1, i, node as int);
                    }
                    // the removal position is the one `index_of` picks
                    assert(c.index_of(node) == pos as int) by {
                        assert(c[pos as int] == node);
                        let k = c.index_of(node);
                        assert(0 <= k < c.len() && c[k] == node);
                    }
                    // the node is no longer reachable from the root
                    assert(t2.elems@[p as int].children@ == c.remove(pos as int));
                    assert(!t2.elems@[p as int].children@.contains(node)) by {
                        let cc = c.remove(pos as int);
                        if cc.contains(node) {
                            let a = choose|a: int| 0 <= a < cc.len() && cc[a] == node;
                            assert(t0.node_struct_wf(p as int));
                            if a < pos {
                                assert(c[a] == node);
                            } else {
                                assert(c[a + 1] == node);
                            }
                        }
                    }
                    assert(t2.parent_idx(node as int) == p as int);
                    assert(!t2.linked(node as int));
                }
            },
        }
    }

    /// Read-only access to the node with the given id. Invalidated nodes
    /// remain readable even though they are unreachable from the root.
    pub fn get_elem(&self, id: NodeID) -> (n: &Node)
        requires
            id < self.elems@.len(),
        ensures
            *n == self.elems@[id as int],
    {
        &self.elems[id]
    }

    /// Drops every node, leaving an empty arena. Only meaningful as the
    /// first half of a reset: the tree is not well-formed again until a new
    /// root is pushed.
    fn truncate_tree(&mut self)
        ensures
            final(self).elems@.len() == 0,
            final(self).last_id == 0,
            final(self).own_sizes@.len() == 0,
    {
        self.elems.truncate(0);
        self.last_id = 0;
        proof {
            self.own_sizes@ = Seq::empty();
        }
    }

    /// Resets the tree to a single fresh root node naming the new scan
    /// target, discarding all prior nodes and ids: exactly the state
    /// construction produces, with the target as both name and path.
    pub fn set_root(&mut self, root_name: &str)
        ensures
            final(self).wf(),
            final(self).elems@.len() == 1,
            final(self).last_id == 0,
            final(self).elems@[0].size == 0,
            final(self).elems@[0].name@ == root_name@,
            final(self).elems@[0].path@ == root_name@,
            !final(self).elems@[0].is_file,
            final(self).elems@[0].children@.len() == 0,
    {
        self.truncate_tree();
        let root = Node {
            id: 0,
            size: 0,
            name: root_name.to_owned(),
            path: root_name.to_owned(),
            depth: 0,
            is_file: false,
            parent: None,
            children: Vec::new(),
        };
        self.elems.push(root);
        proof {
            self.own_sizes@ = seq![0u64];
            assert(ids_size_sum(self.elems@, self.elems@[0].children@) == 0);
        }
    }

    /// Reports whether `id` is still reachable from the root; the root
    /// always is, and an invalidated node never is. Lets a holder of an old
    /// id detect that the entry has been soft-removed.
    pub fn is_linked_elem(&self, id: NodeID) -> (r: bool)
        requires
            self.struct_wf(),
            id < self.elems@.len(),
        ensures
            r == self.linked(id as int),
        decreases id,
    {
        if id == 0 {
            true
        } else {
            proof {
                assert(self.node_struct_wf(id as int));
            }
            let p = match self.elems[id].parent {
                Some(p) => p,
                None => 0,  // unreachable: only the root lacks a parent
            };
            if contains_id(&self.elems[p].children, id) {
                self.is_linked_elem(p)
            } else {
                false
            }
        }
    }

    /// Reconstructs the absolute path of `id` by joining ancestor names from
    /// the root down, inserting the separator only where the prefix does not
    /// already end in one (so a root like `/` adds no duplicate).
    pub fn get_full_path(&self, id: NodeID) -> (r: String)
        requires
            self.struct_wf(),
            id < self.elems@.len(),
        ensures
            r@ == spec_full_path(*self, id as int),
        decreases id,
    {
        proof {
            assert(self.node_struct_wf(id as int));
        }
        match self.elems[id].parent {
            None => self.elems[id].name.clone(),
            Some(p) => {
                let mut prefix = self.get_full_path(p);
                let plen = prefix.as_str().unicode_len();
                let needs_sep = if plen == 0 {
                    true
                } else {
                    prefix.as_str().get_char(plen - 1) != SEPARATOR
                };
                if needs_sep {
                    proof {
                        reveal_strlit("/");
                        assert("/"@ =~= seq![SEPARATOR]);
                    }
                    prefix.append("/");
                }
                prefix.append(self.elems[id].name.as_str());
                proof {
                    assert(prefix@ =~= spec_full_path(*self, id as int));
                }
                prefix
            },
        }
    }
}

/// The separator used when reconstructing full paths.
pub const SEPARATOR: char = '/';

/// The full path of node `id`: ancestor names joined from the root down,
/// with a separator between steps unless the prefix already ends in one.
pub open spec fn spec_full_path(t: Tree, id: int) -> Seq<char>
    decreases id,
{
    if !(0 <= id < t.elems@.len()) {
        Seq::empty()
    } else if t.elems@[id].parent is Some && 0 <= t.elems@[id].parent->0 < id {
        let prefix = spec_full_path(t, t.elems@[id].parent->0 as int);
        if prefix.len() > 0 && prefix.last() == SEPARATOR {
            prefix + t.elems@[id].name@
        } else {
            prefix + seq![SEPARATOR] + t.elems@[id].name@
        }
    } else {
        t.elems@[id].name@
    }
}

/// Linear membership test on a child list.
fn contains_id(v: &Vec<NodeID>, x: NodeID) -> (r: bool)
    ensures
        r == v@.contains(x),
{
    let mut k: usize = 0;
    while k < v.len()
        invariant
            k <= v@.len(),
            forall|j: int| 0 <= j < k ==> v@[j] != x,
        decreases v@.len() - k,
    {
        if v[k] == x {
            return true;
        }
        k = k + 1;
    }
    false
}

impl Default for Tree {
    /// An empty-named single-root tree: construction with an empty scan
    /// target.
    fn default() -> (t: Self)
        ensures
            t.wf(),
            t.elems@.len() == 1,
            t.elems@[0].name@.len() == 0,
            t.elems@[0].size == 0,
    {
        proof {
            reveal_strlit("");
        }
        Tree::new("")
    }
}

/// `t1` is `t0` with one node of the given description appended under
/// `parent` and the new size propagated to every ancestor: the relation
/// `add_elem` establishes, written out so other contracts can reuse it.
pub open spec fn tree_extended(
    t0: Tree,
    t1: Tree,
    parent: int,
    name: Seq<char>,
    path: Seq<char>,
    is_file: bool,
    size: u64,
) -> bool {
    let r = t0.elems@.len() as int;
    &&& t1.elems@.len() == t0.elems@.len() + 1
    &&& t1.last_id == r
    &&& t1.own_sizes@ == t0.own_sizes@.push(size)
    &&& t1.linked(r)
    &&& ({
        let n = t1.elems@[r];
        &&& n.id == r
        &&& n.size == size
        &&& n.name@ == name
        &&& n.path@ == path
        &&& n.depth == t0.elems@[parent].depth + 1
        &&& n.is_file == is_file
        &&& n.parent == Some(parent as NodeID)
        &&& n.children@.len() == 0
    })
    &&& t1.elems@[parent].children@ == t0.elems@[parent].children@.push(r as NodeID)
    &&& same_except_size_and_children(t1.elems@[parent], t0.elems@[parent])
    &&& forall|i: int|
        0 <= i < r && i != parent ==> same_except_size(#[trigger] t1.elems@[i], t0.elems@[i])
    &&& forall|i: int|
        0 <= i < r ==> #[trigger] t1.elems@[i].size == t0.elems@[i].size + (if i == parent
            || t0.is_ancestor_of(i, parent) {
            size as int
        } else {
            0
        })
}

/// The sum of the inserted sizes over the whole subtree reachable from `i`
/// through children lists (an invalidated subtree is in no children list and
/// so does not count).
pub open spec fn spec_subtree_own_sum(t: Tree, i: int) -> int
    decreases t.elems@.len() - i, t.elems@[i].children@.len() + 1,
{
    if !(0 <= i < t.elems@.len()) {
        0
    } else {
        t.own_sizes@[i] + spec_children_own_sum(t, i, t.elems@[i].children@.len() as int)
    }
}

/// The subtree sums of the first `k` children of `i`, added up.
pub open spec fn spec_children_own_sum(t: Tree, i: int, k: int) -> int
    decreases t.elems@.len() - i, k,
{
    if k <= 0 || !(0 <= i < t.elems@.len()) {
        0
    } else {
        let c = t.elems@[i].children@[k - 1] as int;
        (if i < c < t.elems@.len() {
            spec_subtree_own_sum(t, c)
        } else {
            0
        }) + spec_children_own_sum(t, i, k - 1)
    }
}

/// Re-derivation law: in a well-formed tree, every node's aggregated size
/// equals the sum of the inserted sizes over its whole reachable subtree.
/// Recomputing a size from scratch after any run of insertions and
/// invalidations matches the incrementally propagated value.
pub proof fn lemma_size_is_subtree_sum(t: Tree, i: int)
    requires
        t.wf(),
        0 <= i < t.elems@.len(),
    ensures
        t.elems@[i].size == spec_subtree_own_sum(t, i),
    decreases t.elems@.len() - i, t.elems@[i].children@.len() + 1,
{
    assert(t.size_ok_at(i));
    lemma_children_own_sum_eq(t, i, t.elems@[i].children@.len() as int);
    assert(t.elems@[i].children@.subrange(0, t.elems@[i].children@.len() as int)
        =~= t.elems@[i].children@);
}

proof fn lemma_children_own_sum_eq(t: Tree, i: int, k: int)
    requires
        t.wf(),
        0 <= i < t.elems@.len(),
        0 <= k <= t.elems@[i].children@.len(),
    ensures
        ids_size_sum(t.elems@, t.elems@[i].children@.subrange(0, k)) == spec_children_own_sum(
            t,
            i,
            k,
        ),
    decreases t.elems@.len() - i, k,
{
    let c_seq = t.elems@[i].children@;
    if k <= 0 {
        assert(ids_size_sum(t.elems@, c_seq.subrange(0, 0)) == 0);
    } else {
        assert(t.node_struct_wf(i));
        let c = c_seq[k - 1] as int;
        assert(i < c < t.elems@.len());
        lemma_size_is_subtree_sum(t, c);
        lemma_children_own_sum_eq(t, i, k - 1);
        assert(c_seq.subrange(0, k) =~= c_seq.subrange(0, k - 1).push(c_seq[k - 1]));
        lemma_ids_size_sum_push(t.elems@, c_seq.subrange(0, k - 1), c_seq[k - 1]);
    }
}

/// Aggregation law: in a well-formed tree, every node's size equals the size
/// it was inserted with plus the sum of its direct children's sizes. For a
/// node inserted with size zero the size is exactly the children's sum.
pub proof fn lemma_size_aggregation(t: Tree, i: int)
    requires
        t.wf(),
        0 <= i < t.elems@.len(),
    ensures
        t.elems@[i].size == t.own_sizes@[i] + ids_size_sum(t.elems@, t.elems@[i].children@),
        t.own_sizes@[i] == 0 ==> t.elems@[i].size == ids_size_sum(
            t.elems@,
            t.elems@[i].children@,
        ),
{
    assert(t.size_ok_at(i));
}

/// Depth law: the root has depth zero and every other node sits exactly one
/// level below its parent.
pub proof fn lemma_depth_law(t: Tree, i: int)
    requires
        t.wf(),
        0 <= i < t.elems@.len(),
    ensures
        t.elems@[0].depth == 0,
        i != 0 ==> t.elems@[i].parent is Some && t.elems@[i].depth == t.elems@[t.parent_idx(
            i,
        )].depth + 1,
{
    assert(t.node_struct_wf(0));
    assert(t.node_struct_wf(i));
}

/// Identity law: ids coincide with arena indices, so the ids in use are
/// exactly `0 ..= last_id`, pairwise distinct, with the root at id zero.
pub proof fn lemma_ids_are_indices(t: Tree, i: int)
    requires
        t.wf(),
        0 <= i < t.elems@.len(),
    ensures
        t.elems@[i].id == i,
        t.last_id + 1 == t.elems@.len(),
        t.elems@[0].parent is None,
{
    assert(t.node_struct_wf(i));
    assert(t.node_struct_wf(0));
}

} // verus!
