use vstd::prelude::*;
use crate::graph::v8_heap_graph::V8HeapGraph;
use crate::types::NodeId;
use crate::utils::capped;
use std::collections::HashMap;

verus! {

/// What the dominator tree holds for one node.
#[derive(Debug, Default)]
pub struct DominatorNode {
    pub retained_size: usize,
    pub children: Vec<NodeId>,
}

/// Whether `k` steps from a node to the immediate dominator of that node,
/// none of them from a node to itself, lead from `x` to `n`.
pub open spec fn climbs_to(m: Map<NodeId, NodeId>, x: NodeId, n: NodeId, k: nat) -> bool
    decreases k,
{
    if k == 0 {
        x == n && m.contains_key(x)
    } else {
        m.contains_key(x) && m[x] != x && climbs_to(m, m[x], n, (k - 1) as nat)
    }
}

/// Whether `n` dominates `x` as far as `m` tells: `x` is `n`, or its
/// immediate dominator, or the immediate dominator of that, and so on.
pub open spec fn below(m: Map<NodeId, NodeId>, n: NodeId, x: NodeId) -> bool {
    exists|k: nat| climbs_to(m, x, n, k)
}

/// Whether `n` is its own immediate dominator, as a root is.
pub open spec fn is_tree_root(m: Map<NodeId, NodeId>, n: NodeId) -> bool {
    m.contains_key(n) && m[n] == n
}

/// Whether `n` stands in a tree of `m`: a root dominates it.
pub open spec fn in_tree(m: Map<NodeId, NodeId>, n: NodeId) -> bool {
    exists|r: NodeId| is_tree_root(m, r) && below(m, r, n)
}

/// Whether `c` is a child of `p` in the dominator tree: `p` is the immediate
/// dominator of `c`, and another node.
pub open spec fn is_child(m: Map<NodeId, NodeId>, p: NodeId, c: NodeId) -> bool {
    m.contains_key(c) && m[c] == p && c != p
}

/// The sum of a sequence of numbers.
pub open spec fn seq_sum(s: Seq<int>) -> int
    decreases s.len(),
{
    if s.len() == 0 {
        0
    } else {
        seq_sum(s.drop_last()) + s.last()
    }
}

/// The self sizes of the first `upto` nodes that `n` dominates, added up.
pub open spec fn dominated_size(sizes: Seq<u32>, m: Map<NodeId, NodeId>, n: NodeId, upto: int) -> int
    decreases upto,
{
    if upto <= 0 {
        0
    } else {
        dominated_size(sizes, m, n, upto - 1) + if below(m, n, (upto - 1) as NodeId) {
            sizes[upto - 1] as int
        } else {
            0
        }
    }
}

/// Whether every key and every value of `m` is a node of a graph with
/// `node_count` nodes.
pub open spec fn idoms_in_range(m: Map<NodeId, NodeId>, node_count: int) -> bool {
    forall|n: NodeId| #[trigger] m.contains_key(n) ==> (n as int) < node_count && (m[n] as int) < node_count
}

/// The dominator tree: for each node its immediate dominator, the nodes that
/// it dominates immediately, and the size of all that it dominates.
pub struct DominatorTree {
    idom: Vec<Option<NodeId>>,
    children: Vec<Vec<NodeId>>,
    retained_sizes: Vec<u64>,
    in_tree: Vec<bool>,
}

impl DominatorTree {
    /// How many nodes the tree has room for.
    pub closed spec fn spec_len(&self) -> int {
        self.idom@.len() as int
    }

    /// The tree holds an entry for each node in all that it holds.
    pub closed spec fn wf(&self) -> bool {
        &&& self.children@.len() == self.idom@.len()
        &&& self.retained_sizes@.len() == self.idom@.len()
        &&& self.in_tree@.len() == self.idom@.len()
        &&& self.idom@.len() <= u32::MAX
    }

    /// The immediate dominators as a map from each node that has one.
    pub closed spec fn spec_idom(&self) -> Map<NodeId, NodeId> {
        Map::new(
            |n: NodeId| (n as int) < self.idom@.len() && self.idom@[n as int] is Some,
            |n: NodeId| self.idom@[n as int]->0,
        )
    }

    /// The children of a node, in ascending order.
    pub closed spec fn spec_children(&self, n: NodeId) -> Seq<NodeId> {
        self.children@[n as int]@
    }

    /// The retained size of a node.
    pub closed spec fn spec_retained(&self, n: NodeId) -> int {
        self.retained_sizes@[n as int] as int
    }

    /// Whether a node stands in a tree: a node that is its own immediate
    /// dominator dominates it.
    pub closed spec fn spec_in_tree(&self, n: NodeId) -> bool {
        self.in_tree@[n as int]
    }

    /// The retained sizes of the children of a node, in the order of the
    /// children.
    pub open spec fn spec_child_sizes(&self, n: NodeId) -> Seq<int> {
        self.spec_children(n).map_values(|c: NodeId| self.spec_retained(c))
    }

    /// Whether the children of every node are what `m` says, in ascending
    /// order.
    pub open spec fn inverts(&self, m: Map<NodeId, NodeId>) -> bool {
        &&& forall|p: NodeId, c: NodeId|
            (p as int) < self.spec_len() ==> (#[trigger] self.spec_children(p).contains(c)
                <==> is_child(m, p, c))
        &&& forall|p: NodeId, i: int, j: int|
            (p as int) < self.spec_len() && 0 <= i < j < self.spec_children(p).len()
                ==> #[trigger] self.spec_children(p)[i] < #[trigger] self.spec_children(p)[j]
    }

    /// The retained size of a node: the bytes that would be freed with it,
    /// as far as a counter of the machine holds them.
    pub fn retained_size(&self, node_id: NodeId) -> (r: usize)
        requires
            self.wf(),
            (node_id as int) < self.spec_len(),
        ensures
            r == capped(self.spec_retained(node_id)),
    {
        let bytes = self.retained_sizes[node_id as usize];
        if bytes > usize::MAX as u64 {
            usize::MAX
        } else {
            bytes as usize
        }
    }

    /// The retained size of a node, in full.
    pub fn retained_bytes(&self, node_id: NodeId) -> (r: u64)
        requires
            self.wf(),
            (node_id as int) < self.spec_len(),
        ensures
            r == self.spec_retained(node_id),
    {
        self.retained_sizes[node_id as usize]
    }

    /// Whether a node stands in a tree.
    pub fn stands_in_tree(&self, node_id: NodeId) -> (r: bool)
        requires
            self.wf(),
            (node_id as int) < self.spec_len(),
        ensures
            r == self.spec_in_tree(node_id),
    {
        self.in_tree[node_id as usize]
    }

    /// The immediate dominator of a node, where it has one.
    pub fn idom(&self, node_id: NodeId) -> (r: Option<NodeId>)
        requires
            self.wf(),
        ensures
            r is Some <==> self.spec_idom().contains_key(node_id),
            r matches Some(d) ==> d == self.spec_idom()[node_id],
    {
        if (node_id as usize) < self.idom.len() {
            self.idom[node_id as usize]
        } else {
            None
        }
    }

    /// The children of a node, in ascending order.
    pub fn children(&self, node_id: NodeId) -> (r: &[NodeId])
        requires
            self.wf(),
            (node_id as int) < self.spec_len(),
        ensures
            r@ == self.spec_children(node_id),
    {
        self.children[node_id as usize].as_slice()
    }

    /// How many nodes the tree has room for.
    pub fn len(&self) -> (r: usize)
        ensures
            r == self.spec_len(),
    {
        self.idom.len()
    }
}

/// The immediate dominators of the nodes of a graph as a column, and for
/// each node its children in ascending order.
pub fn invert(immediate_dominators: &HashMap<NodeId, NodeId>, node_count: usize) -> (r: (
    Vec<Option<NodeId>>,
    Vec<Vec<NodeId>>,
))
    requires
        node_count <= u32::MAX,
        idoms_in_range(immediate_dominators@, node_count as int),
    ensures
        r.0@.len() == node_count,
        r.1@.len() == node_count,
        forall|n: NodeId|
            (n as int) < node_count ==> (#[trigger] r.0@[n as int] is Some
                <==> immediate_dominators@.contains_key(n)),
        forall|n: NodeId|
            (n as int) < node_count && immediate_dominators@.contains_key(n) ==> #[trigger] r.0@[n as int]
                == Some(immediate_dominators@[n]),
        forall|p: NodeId, c: NodeId|
            (p as int) < node_count ==> (#[trigger] r.1@[p as int]@.contains(c) <==> is_child(
                immediate_dominators@,
                p,
                c,
            )),
        forall|p: NodeId, i: int, j: int|
            (p as int) < node_count && 0 <= i < j < r.1@[p as int]@.len()
                ==> #[trigger] r.1@[p as int]@[i] < #[trigger] r.1@[p as int]@[j],
{
    broadcast use vstd::std_specs::hash::group_hash_axioms;

    let ghost m = immediate_dominators@;
    let mut idom: Vec<Option<NodeId>> = Vec::with_capacity(node_count);
    let mut children: Vec<Vec<NodeId>> = Vec::with_capacity(node_count);
    let mut i: usize = 0;
    while i < node_count
        invariant
            i <= node_count,
            idom@.len() == i,
            children@.len() == i,
            forall|n: int| 0 <= n < i ==> (#[trigger] idom@[n]) is None,
            forall|n: int| 0 <= n < i ==> (#[trigger] children@[n])@.len() == 0,
        decreases node_count - i,
    {
        idom.push(None);
        children.push(Vec::new());
        i = i + 1;
    }
    let mut n: usize = 0;
    while n < node_count
        invariant
            node_count <= u32::MAX,
            m == immediate_dominators@,
            idoms_in_range(m, node_count as int),
            n <= node_count,
            idom@.len() == node_count,
            children@.len() == node_count,
            forall|x: NodeId|
                (x as int) < node_count ==> (#[trigger] idom@[x as int] is Some <==> m.contains_key(x)
                    && (x as int) < n),
            forall|x: NodeId|
                (x as int) < n && m.contains_key(x) ==> #[trigger] idom@[x as int] == Some(m[x]),
            forall|p: NodeId, c: NodeId|
                (p as int) < node_count ==> (#[trigger] children@[p as int]@.contains(c) <==> is_child(
                    m,
                    p,
                    c,
                ) && (c as int) < n),
            forall|p: NodeId, i: int, j: int|
                (p as int) < node_count && 0 <= i < j < children@[p as int]@.len()
                    ==> #[trigger] children@[p as int]@[i] < #[trigger] children@[p as int]@[j],
        decreases node_count - n,
    {
        let node = n as NodeId;
        match immediate_dominators.get(&node) {
            Some(d) => {
                let d = *d;
                assert(m.contains_key(node) && m[node] == d);
                idom[n] = Some(d);
                if d != node {
                    let ghost before = children@;
                    children[d as usize].push(node);
                    proof {
                        assert(children@[d as int]@ == before[d as int]@.push(node));
                        assert forall|p: NodeId, c: NodeId| (p as int) < node_count implies (
                        #[trigger] children@[p as int]@.contains(c) <==> is_child(m, p, c) && (
                        c as int) < n + 1) by {
                            if p == d {
                                if c == node {
                                    assert(children@[d as int]@[before[d as int]@.len() as int]
                                        == node);
                                } else {
                                    if before[p as int]@.contains(c) {
                                        let k = choose|k: int|
                                            0 <= k < before[p as int]@.len() && before[p as int]@[k]
                                                == c;
                                        assert(children@[p as int]@[k] == c);
                                    }
                                    if children@[p as int]@.contains(c) {
                                        let k = choose|k: int|
                                            0 <= k < children@[p as int]@.len()
                                                && children@[p as int]@[k] == c;
                                        assert(before[p as int]@[k] == c);
                                    }
                                }
                            } else {
                                assert(children@[p as int] == before[p as int]);
                            }
                        }
                        assert forall|p: NodeId, i: int, j: int|
                            (p as int) < node_count && 0 <= i < j < children@[p as int]@.len()
                            implies #[trigger] children@[p as int]@[i] < #[trigger] children@[p as int]@[j] by {
                            if p == d {
                                if j == before[d as int]@.len() {
                                    assert(before[d as int]@.contains(before[d as int]@[i]));
                                } else {
                                    assert(before[d as int]@[i] < before[d as int]@[j]);
                                }
                            } else {
                                assert(children@[p as int] == before[p as int]);
                            }
                        }
                    }
                } else {
                    proof {
                        assert forall|p: NodeId, c: NodeId| (p as int) < node_count implies (
                        #[trigger] children@[p as int]@.contains(c) <==> is_child(m, p, c) && (
                        c as int) < n + 1) by {}
                    }
                }
            },
            None => {
                assert(!m.contains_key(node));
                proof {
                    assert forall|p: NodeId, c: NodeId| (p as int) < node_count implies (
                    #[trigger] children@[p as int]@.contains(c) <==> is_child(m, p, c) && (c as int)
                        < n + 1) by {}
                }
            },
        }
        n = n + 1;
    }
    (idom, children)
}

/// The immediate dominators that a column holds, as a map.
pub open spec fn column_map(idom: Seq<Option<NodeId>>) -> Map<NodeId, NodeId> {
    Map::new(|n: NodeId| (n as int) < idom.len() && idom[n as int] is Some, |n: NodeId| idom[n as int]->0)
}

/// The self sizes of the first `k` nodes of `order`, added up.
pub open spec fn order_sum(sizes: Seq<u32>, order: Seq<NodeId>, k: int) -> int
    decreases k,
{
    if k <= 0 {
        0
    } else {
        order_sum(sizes, order, k - 1) + sizes[order[k - 1] as int] as int
    }
}

/// The largest self size that a node can have.
pub const SELF_SIZE_MAX: u64 = 0xffff_ffff;

/// The sum of the sizes grows with the nodes counted, by no more than the
/// largest size for each.
pub proof fn lemma_order_sum_bounds(sizes: Seq<u32>, order: Seq<NodeId>, i: int, j: int)
    requires
        0 <= i <= j,
    ensures
        0 <= order_sum(sizes, order, i) <= order_sum(sizes, order, j),
        order_sum(sizes, order, j) <= j * SELF_SIZE_MAX,
    decreases j,
{
    if j > 0 {
        if i < j {
            lemma_order_sum_bounds(sizes, order, i, j - 1);
        } else {
            lemma_order_sum_bounds(sizes, order, i - 1, j - 1);
        }
        assert(order_sum(sizes, order, j - 1) <= (j - 1) * SELF_SIZE_MAX);
        assert((j - 1) * SELF_SIZE_MAX + SELF_SIZE_MAX == j * SELF_SIZE_MAX) by (nonlinear_arith);
    }
}

/// The sum over a prefix does not depend on what follows the prefix.
pub proof fn lemma_order_sum_push(sizes: Seq<u32>, order: Seq<NodeId>, x: NodeId, k: int)
    requires
        0 <= k <= order.len(),
    ensures
        order_sum(sizes, order.push(x), k) == order_sum(sizes, order, k),
    decreases k,
{
    if k > 0 {
        lemma_order_sum_push(sizes, order, x, k - 1);
        assert(order.push(x)[k - 1] == order[k - 1]);
    }
}

/// A step from a node to its immediate dominator carries on a climb.
pub proof fn lemma_climb_on(m: Map<NodeId, NodeId>, q: NodeId, p: NodeId, y: NodeId, k: nat)
    requires
        climbs_to(m, y, p, k),
        is_child(m, q, p),
        m.contains_key(q),
    ensures
        climbs_to(m, y, q, k + 1),
    decreases k,
{
    if k == 0 {
        assert(climbs_to(m, m[y], q, 0));
    } else {
        lemma_climb_on(m, q, p, m[y], (k - 1) as nat);
    }
}

/// A climb of at least one step to `p` passes a child of `p` right before.
pub proof fn lemma_climb_last(m: Map<NodeId, NodeId>, p: NodeId, y: NodeId, k: nat) -> (c: NodeId)
    requires
        climbs_to(m, y, p, k),
        k >= 1,
    ensures
        is_child(m, p, c),
        climbs_to(m, y, c, (k - 1) as nat),
    decreases k,
{
    if k == 1 {
        assert(climbs_to(m, m[y], p, 0));
        y
    } else {
        lemma_climb_last(m, p, m[y], (k - 1) as nat)
    }
}

/// One level of the walk through the dominator tree: a node, how many of
/// its children have been taken up, and the retained sizes of the children
/// that are done, added up.
struct TreeFrame {
    node: NodeId,
    next: usize,
    acc: u64,
}

/// What the walk through the dominator tree has done: the nodes that are
/// done, in the order in which they were done, for each of them its place in
/// that order and the place of the first node done below it, and for each
/// level of the walk how many nodes were done when it was entered.
struct Post {
    order: Seq<NodeId>,
    fin: Map<NodeId, int>,
    starts: Map<NodeId, int>,
    bases: Seq<int>,
}

/// What the walk works on: the self sizes, the immediate dominators, and the
/// children of each node.
struct Ground {
    sizes: Seq<u32>,
    idom: Seq<Option<NodeId>>,
    children: Seq<Vec<NodeId>>,
}

impl Ground {
    spec fn count(self) -> int {
        self.idom.len() as int
    }

    spec fn m(self) -> Map<NodeId, NodeId> {
        column_map(self.idom)
    }

    spec fn kids(self, p: NodeId) -> Seq<NodeId> {
        self.children[p as int]@
    }

    spec fn ok(self) -> bool {
        &&& self.sizes.len() == self.count()
        &&& self.children.len() == self.count()
        &&& self.count() <= u32::MAX
        &&& idoms_in_range(self.m(), self.count())
        &&& forall|p: NodeId, c: NodeId|
            (p as int) < self.count() ==> (#[trigger] self.kids(p).contains(c) <==> is_child(
                self.m(),
                p,
                c,
            ))
        &&& forall|p: NodeId, i: int, j: int|
            (p as int) < self.count() && 0 <= i < j < self.kids(p).len() ==> #[trigger] self.kids(
                p,
            )[i] < #[trigger] self.kids(p)[j]
    }

    /// The retained sizes of the first `upto` children of `p`, added up.
    spec fn kid_sum(self, retained: Seq<u64>, p: NodeId, upto: int) -> int {
        seq_sum(self.kids(p).take(upto).map_values(|c: NodeId| retained[c as int] as int))
    }

    /// A child of a node is a node of the graph, and has that node as its
    /// immediate dominator.
    proof fn lemma_kid(self, p: NodeId, j: int)
        requires
            self.ok(),
            (p as int) < self.count(),
            0 <= j < self.kids(p).len(),
        ensures
            (self.kids(p)[j] as int) < self.count(),
            is_child(self.m(), p, self.kids(p)[j]),
    {
        assert(self.kids(p).contains(self.kids(p)[j]));
    }

    /// A child stands at one place only among the children of its parent.
    proof fn lemma_kid_place(self, p: NodeId, i: int, j: int)
        requires
            self.ok(),
            (p as int) < self.count(),
            0 <= i < self.kids(p).len(),
            0 <= j < self.kids(p).len(),
            self.kids(p)[i] == self.kids(p)[j],
        ensures
            i == j,
    {
        if i < j {
            assert(self.kids(p)[i] < self.kids(p)[j]);
        } else if j < i {
            assert(self.kids(p)[j] < self.kids(p)[i]);
        }
    }
}

impl Post {
    spec fn depth(self) -> int {
        self.bases.len() as int
    }

    /// How many children of the node at level `i` are done.
    spec fn cnt(self, stack: Seq<TreeFrame>, i: int) -> int {
        if i == stack.len() - 1 {
            stack[i].next as int
        } else {
            stack[i].next - 1
        }
    }

    /// How many nodes were done when the node at level `i` was last at work.
    spec fn end(self, stack: Seq<TreeFrame>, i: int) -> int {
        if i == stack.len() - 1 {
            self.order.len() as int
        } else {
            self.bases[i + 1]
        }
    }

    spec fn on_stack(stack: Seq<TreeFrame>, x: NodeId) -> bool {
        exists|i: int| 0 <= i < stack.len() && (#[trigger] stack[i]).node == x
    }

    /// Whether the parent of `x` is done or has `x` among its children that
    /// are done.
    spec fn parent_knows(self, gr: Ground, stack: Seq<TreeFrame>, x: NodeId) -> bool {
        let q = gr.m()[x];
        q != x ==> self.fin.contains_key(q) || exists|i: int, j: int|
            0 <= i < stack.len() && (#[trigger] stack[i]).node == q && 0 <= j < self.cnt(stack, i)
                && #[trigger] gr.kids(q)[j] == x
    }

    /// What holds of a node that is done.
    spec fn done_ok(self, gr: Ground, stack: Seq<TreeFrame>, retained: Seq<u64>, x: NodeId) -> bool {
        &&& (x as int) < gr.count()
        &&& self.starts.contains_key(x)
        &&& 0 <= self.starts[x] <= self.fin[x] < self.order.len()
        &&& self.order[self.fin[x]] == x
        &&& retained[x as int] == order_sum(gr.sizes, self.order, self.fin[x] + 1) - order_sum(
            gr.sizes,
            self.order,
            self.starts[x],
        )
        &&& retained[x as int] == gr.sizes[x as int] as int + gr.kid_sum(
            retained,
            x,
            gr.kids(x).len() as int,
        )
        &&& forall|k: int|
            self.starts[x] <= k <= self.fin[x] ==> below(gr.m(), x, #[trigger] self.order[k])
        &&& forall|y: NodeId|
            #[trigger] below(gr.m(), x, y) ==> self.fin.contains_key(y) && self.starts[x]
                <= self.fin[y] <= self.fin[x]
        &&& in_tree(gr.m(), x)
        &&& self.parent_knows(gr, stack, x)
    }

    /// What holds of the node at level `i`.
    spec fn level_ok(self, gr: Ground, stack: Seq<TreeFrame>, retained: Seq<u64>, i: int) -> bool {
        let f = stack[i];
        &&& (f.node as int) < gr.count()
        &&& !self.fin.contains_key(f.node)
        &&& in_tree(gr.m(), f.node)
        &&& 0 <= self.cnt(stack, i) <= f.next <= gr.kids(f.node).len()
        &&& 0 <= self.bases[i] <= self.end(stack, i) <= self.order.len()
        &&& f.acc == order_sum(gr.sizes, self.order, self.end(stack, i)) - order_sum(
            gr.sizes,
            self.order,
            self.bases[i],
        )
        &&& f.acc == gr.kid_sum(retained, f.node, self.cnt(stack, i))
        &&& forall|j: int|
            0 <= j < self.cnt(stack, i) ==> self.fin.contains_key(#[trigger] gr.kids(f.node)[j])
                && self.bases[i] <= self.starts[gr.kids(f.node)[j]] && self.fin[gr.kids(f.node)[j]]
                < self.end(stack, i)
        &&& forall|k: int|
            self.bases[i] <= k < self.end(stack, i) ==> below(gr.m(), f.node, #[trigger] self.order[k])
        &&& i > 0 ==> f.node == gr.kids(stack[i - 1].node)[stack[i - 1].next - 1]
        &&& i == 0 ==> is_tree_root(gr.m(), f.node)
    }

    /// What holds while the walk is under way.
    #[verifier::opaque]
    spec fn inv(
        self,
        gr: Ground,
        stack: Seq<TreeFrame>,
        retained: Seq<u64>,
        unseen: Set<int>,
        cursor: int,
    ) -> bool {
        &&& gr.ok()
        &&& retained.len() == gr.count()
        &&& self.bases.len() == stack.len()
        &&& forall|k: int|
            0 <= k < self.order.len() ==> self.fin.contains_key(#[trigger] self.order[k])
                && self.fin[self.order[k]] == k
        &&& forall|x: NodeId|
            self.fin.contains_key(x) ==> #[trigger] self.done_ok(gr, stack, retained, x)
        &&& forall|x: NodeId|
            (x as int) < gr.count() && !self.fin.contains_key(x) ==> #[trigger] retained[x as int] == 0
        &&& forall|x: NodeId|
            #[trigger] self.fin.contains_key(x) && is_tree_root(gr.m(), x) ==> (x as int) <= cursor
        &&& forall|i: int| 0 <= i < stack.len() ==> #[trigger] self.level_ok(gr, stack, retained, i)
        &&& forall|i: int, j: int|
            0 <= i < j < stack.len() ==> (#[trigger] stack[i]).node != (#[trigger] stack[j]).node
        &&& unseen.finite()
        &&& unseen.len() + self.order.len() + stack.len() == gr.count()
        &&& forall|x: int|
            unseen.contains(x) <==> 0 <= x < gr.count() && !self.fin.contains_key(x as NodeId)
                && !Self::on_stack(stack, x as NodeId)
    }
}

/// The sum of a sequence with one more number.
pub proof fn lemma_seq_sum_push(s: Seq<int>, x: int)
    ensures
        seq_sum(s.push(x)) == seq_sum(s) + x,
{
    assert(s.push(x).drop_last() =~= s);
}

/// A sum of numbers of which none is negative is not negative.
pub proof fn lemma_seq_sum_nonneg(s: Seq<int>)
    requires
        forall|i: int| 0 <= i < s.len() ==> 0 <= #[trigger] s[i],
    ensures
        0 <= seq_sum(s),
    decreases s.len(),
{
    if s.len() > 0 {
        lemma_seq_sum_nonneg(s.drop_last());
    }
}

impl Ground {
    /// The sum over the children does not change where the retained sizes of
    /// the children do not.
    proof fn lemma_kid_sum_same(self, a: Seq<u64>, b: Seq<u64>, p: NodeId, upto: int)
        requires
            0 <= upto <= self.kids(p).len(),
            forall|j: int| 0 <= j < upto ==> a[#[trigger] self.kids(p)[j] as int] == b[self.kids(p)[j] as int],
        ensures
            self.kid_sum(a, p, upto) == self.kid_sum(b, p, upto),
    {
        let fa = |c: NodeId| a[c as int] as int;
        let fb = |c: NodeId| b[c as int] as int;
        let t = self.kids(p).take(upto);
        assert forall|j: int| 0 <= j < t.len() implies t.map_values(fa)[j] == t.map_values(fb)[j] by {
            assert(t[j] == self.kids(p)[j]);
        }
        assert(t.map_values(fa) =~= t.map_values(fb));
    }

    /// The sum over one more child.
    proof fn lemma_kid_sum_next(self, a: Seq<u64>, p: NodeId, upto: int)
        requires
            0 <= upto < self.kids(p).len(),
        ensures
            self.kid_sum(a, p, upto + 1) == self.kid_sum(a, p, upto) + a[self.kids(p)[upto] as int],
    {
        let fa = |c: NodeId| a[c as int] as int;
        let t = self.kids(p).take(upto);
        let t1 = self.kids(p).take(upto + 1);
        assert(t1 =~= t.push(self.kids(p)[upto]));
        assert(t1.map_values(fa) =~= t.map_values(fa).push(fa(self.kids(p)[upto])));
        lemma_seq_sum_push(t.map_values(fa), fa(self.kids(p)[upto]));
    }

    /// The sum over no child at all.
    proof fn lemma_kid_sum_none(self, a: Seq<u64>, p: NodeId)
        ensures
            self.kid_sum(a, p, 0) == 0,
    {
        let fa = |c: NodeId| a[c as int] as int;
        assert(self.kids(p).take(0).map_values(fa) =~= Seq::<int>::empty());
    }

    /// A node of a tree has an immediate dominator.
    proof fn lemma_in_tree_has_idom(self, x: NodeId)
        requires
            in_tree(self.m(), x),
        ensures
            self.m().contains_key(x),
            below(self.m(), x, x),
    {
        let r = choose|r: NodeId| is_tree_root(self.m(), r) && below(self.m(), r, x);
        let k = choose|k: nat| climbs_to(self.m(), x, r, k);
        assert(climbs_to(self.m(), x, x, 0));
    }

    /// A child of a node of a tree is a node of that tree.
    proof fn lemma_kid_in_tree(self, p: NodeId, c: NodeId)
        requires
            in_tree(self.m(), p),
            is_child(self.m(), p, c),
        ensures
            in_tree(self.m(), c),
            below(self.m(), p, c),
    {
        let r = choose|r: NodeId| is_tree_root(self.m(), r) && below(self.m(), r, p);
        let k = choose|k: nat| climbs_to(self.m(), p, r, k);
        assert(climbs_to(self.m(), c, r, k + 1));
        self.lemma_in_tree_has_idom(p);
        assert(climbs_to(self.m(), p, p, 0));
        assert(climbs_to(self.m(), c, p, 1));
    }
}

impl Post {
    /// What the walk needs to know of the node on top of its stack.
    proof fn lemma_top(
        self,
        gr: Ground,
        stack: Seq<TreeFrame>,
        retained: Seq<u64>,
        unseen: Set<int>,
        cursor: int,
    )
        requires
            self.inv(gr, stack, retained, unseen, cursor),
            stack.len() > 0,
        ensures
            (stack.last().node as int) < gr.count(),
            stack.last().next <= gr.kids(stack.last().node).len(),
            retained.len() == gr.count(),
            self.order.len() + stack.len() <= gr.count(),
            stack.last().acc + gr.sizes[stack.last().node as int] as int <= gr.count()
                * SELF_SIZE_MAX,
            stack.len() >= 2 ==> stack[stack.len() - 2].acc + stack.last().acc
                + gr.sizes[stack.last().node as int] as int <= gr.count() * SELF_SIZE_MAX,
            gr.count() <= u32::MAX,
            gr.sizes.len() == gr.count(),
            gr.children.len() == gr.count(),
    {
        reveal(Post::inv);
        let l = stack.len() as int;
        let n0 = self.order.len() as int;
        assert(self.level_ok(gr, stack, retained, l - 1));
        lemma_order_sum_bounds(gr.sizes, self.order, self.bases[l - 1], n0);
        assert(n0 * SELF_SIZE_MAX + SELF_SIZE_MAX <= gr.count() * SELF_SIZE_MAX) by (nonlinear_arith)
            requires
                n0 + 1 <= gr.count(),
        ;
        if l >= 2 {
            assert(self.level_ok(gr, stack, retained, l - 2));
            lemma_order_sum_bounds(gr.sizes, self.order, self.bases[l - 2], self.bases[l - 1]);
        }
    }

    /// The walk does not mind how far the roots have been looked through.
    proof fn lemma_cursor(
        self,
        gr: Ground,
        stack: Seq<TreeFrame>,
        retained: Seq<u64>,
        unseen: Set<int>,
        cursor: int,
        later: int,
    )
        requires
            self.inv(gr, stack, retained, unseen, cursor),
            cursor <= later,
        ensures
            self.inv(gr, stack, retained, unseen, later),
    {
        reveal(Post::inv);
    }

    /// The walk enters the tree of a root.
    proof fn lemma_enter(
        self,
        gr: Ground,
        retained: Seq<u64>,
        unseen: Set<int>,
        r: NodeId,
        next: Post,
        frame: TreeFrame,
    )
        requires
            self.inv(gr, Seq::<TreeFrame>::empty(), retained, unseen, r - 1),
            (r as int) < gr.count(),
            is_tree_root(gr.m(), r),
            frame.node == r,
            frame.next == 0,
            frame.acc == 0,
            next.order == self.order,
            next.fin == self.fin,
            next.starts == self.starts,
            next.bases == seq![self.order.len() as int],
        ensures
            next.inv(gr, seq![frame], retained, unseen.remove(r as int), r as int),
            unseen.contains(r as int),
            unseen.finite(),
    {
        reveal(Post::inv);
        let stack = seq![frame];
        let none = Seq::<TreeFrame>::empty();
        assert(!self.fin.contains_key(r));
        assert(!Self::on_stack(none, r));
        assert(climbs_to(gr.m(), r, r, 0));
        gr.lemma_kid_sum_none(retained, r);
        assert(next.level_ok(gr, stack, retained, 0));
        assert forall|x: NodeId| next.fin.contains_key(x) implies #[trigger] next.done_ok(
            gr,
            stack,
            retained,
            x,
        ) by {
            assert(self.done_ok(gr, none, retained, x));
        }
        assert forall|x: int|
            unseen.remove(r as int).contains(x) <==> 0 <= x < gr.count() && !next.fin.contains_key(
                x as NodeId,
            ) && !Self::on_stack(stack, x as NodeId) by {
            if x == r {
                assert(stack[0].node == r);
            }
            if Self::on_stack(stack, x as NodeId) {
            }
        }
    }

    /// The walk goes down to the next child of the node on top of its stack.
    proof fn lemma_descend(
        self,
        gr: Ground,
        stack: Seq<TreeFrame>,
        retained: Seq<u64>,
        unseen: Set<int>,
        cursor: int,
        next: Post,
        advanced: TreeFrame,
        fresh: TreeFrame,
    )
        requires
            self.inv(gr, stack, retained, unseen, cursor),
            stack.len() > 0,
            stack.last().next < gr.kids(stack.last().node).len(),
            advanced.node == stack.last().node,
            advanced.next == stack.last().next + 1,
            advanced.acc == stack.last().acc,
            fresh.node == gr.kids(stack.last().node)[stack.last().next as int],
            fresh.next == 0,
            fresh.acc == 0,
            next.order == self.order,
            next.fin == self.fin,
            next.starts == self.starts,
            next.bases == self.bases.push(self.order.len() as int),
        ensures
            next.inv(
                gr,
                stack.drop_last().push(advanced).push(fresh),
                retained,
                unseen.remove(fresh.node as int),
                cursor,
            ),
            unseen.contains(fresh.node as int),
            unseen.finite(),
            (fresh.node as int) < gr.count(),
    {
        reveal(Post::inv);
        let l = stack.len() as int;
        let top = stack[l - 1];
        let p = top.node;
        let c = fresh.node;
        let st = stack.drop_last().push(advanced).push(fresh);
        assert(self.level_ok(gr, stack, retained, l - 1));
        gr.lemma_kid(p, top.next as int);
        gr.lemma_kid_in_tree(p, c);
        assert(!self.fin.contains_key(c)) by {
            if self.fin.contains_key(c) {
                assert(self.done_ok(gr, stack, retained, c));
                assert(self.parent_knows(gr, stack, c));
                let (i, j) = choose|i: int, j: int|
                    0 <= i < stack.len() && (#[trigger] stack[i]).node == p && 0 <= j < self.cnt(
                        stack,
                        i,
                    ) && #[trigger] gr.kids(p)[j] == c;
                if i < l - 1 {
                    assert(stack[i].node != stack[l - 1].node);
                }
                gr.lemma_kid_place(p, j, top.next as int);
            }
        }
        assert(!Self::on_stack(stack, c)) by {
            if Self::on_stack(stack, c) {
                let i = choose|i: int| 0 <= i < stack.len() && (#[trigger] stack[i]).node == c;
                assert(self.level_ok(gr, stack, retained, i));
                if i > 0 {
                    assert(self.level_ok(gr, stack, retained, i - 1));
                    gr.lemma_kid(stack[i - 1].node, stack[i - 1].next - 1);
                    if i - 1 < l - 1 {
                        assert(stack[i - 1].node != stack[l - 1].node);
                    }
                }
            }
        }
        gr.lemma_kid_sum_none(retained, c);
        assert forall|i: int| 0 <= i < st.len() implies #[trigger] next.level_ok(
            gr,
            st,
            retained,
            i,
        ) by {
            if i < l - 1 {
                assert(st[i] == stack[i]);
                assert(self.level_ok(gr, stack, retained, i));
                if i > 0 {
                    assert(st[i - 1] == stack[i - 1]);
                }
            } else if i == l - 1 {
                if i > 0 {
                    assert(st[i - 1] == stack[i - 1]);
                }
            } else {
            }
        }
        assert forall|x: NodeId| next.fin.contains_key(x) implies #[trigger] next.done_ok(
            gr,
            st,
            retained,
            x,
        ) by {
            assert(self.done_ok(gr, stack, retained, x));
            let q = gr.m()[x];
            if q != x && !self.fin.contains_key(q) {
                let (i, j) = choose|i: int, j: int|
                    0 <= i < stack.len() && (#[trigger] stack[i]).node == q && 0 <= j < self.cnt(
                        stack,
                        i,
                    ) && #[trigger] gr.kids(q)[j] == x;
                assert(st[i].node == q);
                assert(next.cnt(st, i) == self.cnt(stack, i));
                assert(gr.kids(q)[j] == x);
            }
        }
        assert forall|i: int, j: int| 0 <= i < j < st.len() implies (#[trigger] st[i]).node != (
        #[trigger] st[j]).node by {
            if j < l {
                assert(st[i].node == stack[i].node);
                assert(st[j].node == stack[j].node);
            } else {
                assert(st[i].node == stack[i].node);
            }
        }
        assert forall|x: int|
            unseen.remove(c as int).contains(x) <==> 0 <= x < gr.count() && !next.fin.contains_key(
                x as NodeId,
            ) && !Self::on_stack(st, x as NodeId) by {
            if Self::on_stack(stack, x as NodeId) {
                let i = choose|i: int| 0 <= i < stack.len() && (#[trigger] stack[i]).node == x as NodeId;
                assert(st[i].node == x as NodeId);
            }
            if Self::on_stack(st, x as NodeId) {
                let i = choose|i: int| 0 <= i < st.len() && (#[trigger] st[i]).node == x as NodeId;
                if i < l {
                    assert(stack[i].node == x as NodeId);
                }
            }
            if x == c {
                assert(st[l].node == c);
            }
        }
    }
}

impl Post {
    /// Whether `next`, `after` and `total` are what becomes of the walk when
    /// the node on top of the stack, whose children are all done, is done.
    spec fn finishes(
        self,
        gr: Ground,
        stack: Seq<TreeFrame>,
        retained: Seq<u64>,
        unseen: Set<int>,
        cursor: int,
        next: Post,
        after: Seq<TreeFrame>,
        total: u64,
    ) -> bool {
        &&& self.inv(gr, stack, retained, unseen, cursor)
        &&& stack.len() > 0
        &&& stack[0].node <= cursor
        &&& stack.last().next >= gr.kids(stack.last().node).len()
        &&& total == gr.sizes[stack.last().node as int] as int + stack.last().acc
        &&& next.order == self.order.push(stack.last().node)
        &&& next.fin == self.fin.insert(stack.last().node, self.order.len() as int)
        &&& next.starts == self.starts.insert(stack.last().node, self.bases.last())
        &&& next.bases == self.bases.drop_last()
        &&& after.len() == stack.len() - 1
        &&& forall|i: int| 0 <= i < stack.len() - 2 ==> after[i] == stack[i]
        &&& stack.len() >= 2 ==> after.last().node == stack[stack.len() - 2].node && after.last().next
            == stack[stack.len() - 2].next && after.last().acc == stack[stack.len() - 2].acc + total
    }

    /// The sums over the order when one more node is done.
    proof fn lemma_fin_sums(
        self,
        gr: Ground,
        stack: Seq<TreeFrame>,
        retained: Seq<u64>,
        unseen: Set<int>,
        cursor: int,
        next: Post,
        after: Seq<TreeFrame>,
        total: u64,
    )
        requires
            self.finishes(gr, stack, retained, unseen, cursor, next, after, total),
        ensures
            forall|k: int|
                0 <= k <= self.order.len() ==> #[trigger] order_sum(gr.sizes, next.order, k)
                    == order_sum(gr.sizes, self.order, k),
            order_sum(gr.sizes, next.order, self.order.len() as int + 1) == order_sum(
                gr.sizes,
                self.order,
                self.order.len() as int,
            ) + gr.sizes[stack.last().node as int] as int,
            forall|k: int| 0 <= k < self.order.len() ==> #[trigger] next.order[k] == self.order[k],
    {
        let p = stack.last().node;
        let n0 = self.order.len() as int;
        assert forall|k: int| 0 <= k <= n0 implies #[trigger] order_sum(gr.sizes, next.order, k)
            == order_sum(gr.sizes, self.order, k) by {
            lemma_order_sum_push(gr.sizes, self.order, p, k);
        }
        assert(order_sum(gr.sizes, next.order, n0 + 1) == order_sum(gr.sizes, next.order, n0)
            + gr.sizes[next.order[n0] as int] as int);
    }

    /// The children of a node that is done keep their retained sizes.
    proof fn lemma_fin_kids_done(
        self,
        gr: Ground,
        stack: Seq<TreeFrame>,
        retained: Seq<u64>,
        unseen: Set<int>,
        cursor: int,
        next: Post,
        after: Seq<TreeFrame>,
        total: u64,
        x: NodeId,
    )
        requires
            self.finishes(gr, stack, retained, unseen, cursor, next, after, total),
            self.fin.contains_key(x),
        ensures
            gr.kid_sum(
                retained.update(stack.last().node as int, total),
                x,
                gr.kids(x).len() as int,
            ) == gr.kid_sum(retained, x, gr.kids(x).len() as int),
    {
        reveal(Post::inv);
        let l = stack.len() as int;
        let p = stack.last().node;
        let kept = retained.update(p as int, total);
        assert(self.level_ok(gr, stack, retained, l - 1));
        assert(self.done_ok(gr, stack, retained, x));
        assert forall|j: int| 0 <= j < gr.kids(x).len() implies kept[#[trigger] gr.kids(x)[j] as int]
            == retained[gr.kids(x)[j] as int] by {
            gr.lemma_kid(x, j);
            gr.lemma_kid_in_tree(x, gr.kids(x)[j]);
            assert(self.fin.contains_key(gr.kids(x)[j]));
        }
        gr.lemma_kid_sum_same(kept, retained, x, gr.kids(x).len() as int);
    }

    /// The children that are done of a node on the stack keep their retained
    /// sizes.
    proof fn lemma_fin_kids_level(
        self,
        gr: Ground,
        stack: Seq<TreeFrame>,
        retained: Seq<u64>,
        unseen: Set<int>,
        cursor: int,
        next: Post,
        after: Seq<TreeFrame>,
        total: u64,
        i: int,
    )
        requires
            self.finishes(gr, stack, retained, unseen, cursor, next, after, total),
            0 <= i < stack.len(),
        ensures
            gr.kid_sum(
                retained.update(stack.last().node as int, total),
                stack[i].node,
                self.cnt(stack, i),
            ) == gr.kid_sum(retained, stack[i].node, self.cnt(stack, i)),
    {
        reveal(Post::inv);
        let l = stack.len() as int;
        let p = stack.last().node;
        let kept = retained.update(p as int, total);
        assert(self.level_ok(gr, stack, retained, l - 1));
        assert(self.level_ok(gr, stack, retained, i));
        assert forall|j: int| 0 <= j < self.cnt(stack, i) implies kept[#[trigger] gr.kids(
            stack[i].node,
        )[j] as int] == retained[gr.kids(stack[i].node)[j] as int] by {
            gr.lemma_kid(stack[i].node, j);
            assert(self.fin.contains_key(gr.kids(stack[i].node)[j]));
        }
        gr.lemma_kid_sum_same(kept, retained, stack[i].node, self.cnt(stack, i));
    }

    /// What holds of the node that is done now.
    proof fn lemma_fin_self(
        self,
        gr: Ground,
        stack: Seq<TreeFrame>,
        retained: Seq<u64>,
        unseen: Set<int>,
        cursor: int,
        next: Post,
        after: Seq<TreeFrame>,
        total: u64,
    )
        requires
            self.finishes(gr, stack, retained, unseen, cursor, next, after, total),
        ensures
            next.done_ok(gr, after, retained.update(stack.last().node as int, total), stack.last().node),
    {
        self.lemma_fin_sums(gr, stack, retained, unseen, cursor, next, after, total);
        self.lemma_fin_kids_level(
            gr,
            stack,
            retained,
            unseen,
            cursor,
            next,
            after,
            total,
            stack.len() - 1,
        );
        reveal(Post::inv);
        let l = stack.len() as int;
        let top = stack[l - 1];
        let p = top.node;
        let n0 = self.order.len() as int;
        let base = self.bases[l - 1];
        let m = gr.m();
        let kept = retained.update(p as int, total);
        assert(self.level_ok(gr, stack, retained, l - 1));
        gr.lemma_in_tree_has_idom(p);
        assert(gr.kids(p).take(gr.kids(p).len() as int) =~= gr.kids(p));
        assert(order_sum(gr.sizes, next.order, base) == order_sum(gr.sizes, self.order, base));
        assert forall|k: int| base <= k <= n0 implies below(m, p, #[trigger] next.order[k]) by {
            if k < n0 {
                assert(next.order[k] == self.order[k]);
            }
        }
        assert forall|y: NodeId| #[trigger] below(m, p, y) implies next.fin.contains_key(y) && base
            <= next.fin[y] <= n0 by {
            let k = choose|k: nat| climbs_to(m, y, p, k);
            if k == 0 {
            } else {
                let c = lemma_climb_last(m, p, y, k);
                assert(gr.kids(p).contains(c));
                let j = choose|j: int| 0 <= j < gr.kids(p).len() && gr.kids(p)[j] == c;
                assert(self.fin.contains_key(gr.kids(p)[j]));
                assert(self.done_ok(gr, stack, retained, c));
                assert(below(m, c, y));
            }
        }
        if m[p] != p {
            assert(l >= 2);
            assert(self.level_ok(gr, stack, retained, l - 2));
            gr.lemma_kid(stack[l - 2].node, stack[l - 2].next - 1);
            assert(after[l - 2].node == m[p]);
            assert(gr.kids(m[p])[stack[l - 2].next - 1] == p);
            assert(next.parent_knows(gr, after, p));
        }
    }

    /// What holds of a node that was done before.
    proof fn lemma_fin_other(
        self,
        gr: Ground,
        stack: Seq<TreeFrame>,
        retained: Seq<u64>,
        unseen: Set<int>,
        cursor: int,
        next: Post,
        after: Seq<TreeFrame>,
        total: u64,
        x: NodeId,
    )
        requires
            self.finishes(gr, stack, retained, unseen, cursor, next, after, total),
            self.fin.contains_key(x),
        ensures
            next.done_ok(gr, after, retained.update(stack.last().node as int, total), x),
    {
        self.lemma_fin_sums(gr, stack, retained, unseen, cursor, next, after, total);
        self.lemma_fin_kids_done(gr, stack, retained, unseen, cursor, next, after, total, x);
        reveal(Post::inv);
        let l = stack.len() as int;
        let p = stack[l - 1].node;
        let m = gr.m();
        assert(self.level_ok(gr, stack, retained, l - 1));
        assert(x != p);
        assert(self.done_ok(gr, stack, retained, x));
        assert(order_sum(gr.sizes, next.order, self.fin[x] + 1) == order_sum(
            gr.sizes,
            self.order,
            self.fin[x] + 1,
        ));
        assert(order_sum(gr.sizes, next.order, self.starts[x]) == order_sum(
            gr.sizes,
            self.order,
            self.starts[x],
        ));
        assert forall|k: int| next.starts[x] <= k <= next.fin[x] implies below(
            m,
            x,
            #[trigger] next.order[k],
        ) by {
            assert(next.order[k] == self.order[k]);
        }
        assert forall|y: NodeId| #[trigger] below(m, x, y) implies next.fin.contains_key(y)
            && next.starts[x] <= next.fin[y] <= next.fin[x] by {
            assert(self.fin.contains_key(y));
        }
        let q = m[x];
        if q != x && !next.fin.contains_key(q) {
            let (i, j) = choose|i: int, j: int|
                0 <= i < stack.len() && (#[trigger] stack[i]).node == q && 0 <= j < self.cnt(stack, i)
                    && #[trigger] gr.kids(q)[j] == x;
            assert(i < l - 1);
            assert(after[i].node == q);
            assert(next.cnt(after, i) >= self.cnt(stack, i));
            assert(gr.kids(q)[j] == x);
            assert(next.parent_knows(gr, after, x));
        }
    }

    /// What holds of a level that is left on the stack.
    proof fn lemma_fin_level(
        self,
        gr: Ground,
        stack: Seq<TreeFrame>,
        retained: Seq<u64>,
        unseen: Set<int>,
        cursor: int,
        next: Post,
        after: Seq<TreeFrame>,
        total: u64,
        i: int,
    )
        requires
            self.finishes(gr, stack, retained, unseen, cursor, next, after, total),
            0 <= i < after.len(),
        ensures
            next.level_ok(gr, after, retained.update(stack.last().node as int, total), i),
    {
        self.lemma_fin_sums(gr, stack, retained, unseen, cursor, next, after, total);
        self.lemma_fin_kids_level(gr, stack, retained, unseen, cursor, next, after, total, i);
        self.lemma_fin_self(gr, stack, retained, unseen, cursor, next, after, total);
        reveal(Post::inv);
        let l = stack.len() as int;
        let top = stack[l - 1];
        let p = top.node;
        let n0 = self.order.len() as int;
        let base = self.bases[l - 1];
        let m = gr.m();
        let kept = retained.update(p as int, total);
        assert(self.level_ok(gr, stack, retained, l - 1));
        assert(self.level_ok(gr, stack, retained, i));
        assert(stack[i].node != stack[l - 1].node);
        if i > 0 {
            assert(after[i - 1] == stack[i - 1]);
        }
        assert(order_sum(gr.sizes, next.order, self.bases[i]) == order_sum(
            gr.sizes,
            self.order,
            self.bases[i],
        ));
        if i < l - 2 {
            assert(after[i] == stack[i]);
            assert(next.cnt(after, i) == self.cnt(stack, i));
            assert(next.end(after, i) == self.end(stack, i));
            assert(order_sum(gr.sizes, next.order, self.end(stack, i)) == order_sum(
                gr.sizes,
                self.order,
                self.end(stack, i),
            ));
            assert forall|k: int| next.bases[i] <= k < next.end(after, i) implies below(
                m,
                after[i].node,
                #[trigger] next.order[k],
            ) by {
                assert(next.order[k] == self.order[k]);
            }
        } else {
            let q = stack[i].node;
            let c0 = self.cnt(stack, i);
            gr.lemma_kid(q, c0);
            gr.lemma_kid_sum_next(kept, q, c0);
            gr.lemma_in_tree_has_idom(q);
            assert(order_sum(gr.sizes, next.order, base) == order_sum(gr.sizes, self.order, base));
            assert(next.done_ok(gr, after, kept, p));
            assert forall|k: int| next.bases[i] <= k < next.end(after, i) implies below(
                m,
                after[i].node,
                #[trigger] next.order[k],
            ) by {
                if k < base {
                    assert(next.order[k] == self.order[k]);
                } else {
                    assert(below(m, p, next.order[k]));
                    let s = choose|s: nat| climbs_to(m, next.order[k], p, s);
                    lemma_climb_on(m, q, p, next.order[k], s);
                }
            }
        }
    }

    /// The node on top of the stack, whose children are all done, is done:
    /// it gets its retained size, which is added to what its parent has
    /// gathered.
    proof fn lemma_finish(
        self,
        gr: Ground,
        stack: Seq<TreeFrame>,
        retained: Seq<u64>,
        unseen: Set<int>,
        cursor: int,
        next: Post,
        after: Seq<TreeFrame>,
        total: u64,
    )
        requires
            self.finishes(gr, stack, retained, unseen, cursor, next, after, total),
        ensures
            next.inv(gr, after, retained.update(stack.last().node as int, total), unseen, cursor),
    {
        let l = stack.len() as int;
        let p = stack[l - 1].node;
        let n0 = self.order.len() as int;
        let m = gr.m();
        let kept = retained.update(p as int, total);
        assert forall|x: NodeId| next.fin.contains_key(x) implies #[trigger] next.done_ok(
            gr,
            after,
            kept,
            x,
        ) by {
            if x == p {
                self.lemma_fin_self(gr, stack, retained, unseen, cursor, next, after, total);
            } else {
                self.lemma_fin_other(gr, stack, retained, unseen, cursor, next, after, total, x);
            }
        }
        assert forall|i: int| 0 <= i < after.len() implies #[trigger] next.level_ok(
            gr,
            after,
            kept,
            i,
        ) by {
            self.lemma_fin_level(gr, stack, retained, unseen, cursor, next, after, total, i);
        }
        self.lemma_fin_rest(gr, stack, retained, unseen, cursor, next, after, total);
        reveal(Post::inv);
    }

    /// What else holds when one more node is done.
    proof fn lemma_fin_rest(
        self,
        gr: Ground,
        stack: Seq<TreeFrame>,
        retained: Seq<u64>,
        unseen: Set<int>,
        cursor: int,
        next: Post,
        after: Seq<TreeFrame>,
        total: u64,
    )
        requires
            self.finishes(gr, stack, retained, unseen, cursor, next, after, total),
        ensures
            gr.ok(),
            retained.update(stack.last().node as int, total).len() == gr.count(),
            next.bases.len() == after.len(),
            forall|k: int|
                0 <= k < next.order.len() ==> next.fin.contains_key(#[trigger] next.order[k])
                    && next.fin[next.order[k]] == k,
            forall|x: NodeId|
                (x as int) < gr.count() && !next.fin.contains_key(x) ==> #[trigger] retained.update(
                    stack.last().node as int,
                    total,
                )[x as int] == 0,
            forall|x: NodeId|
                #[trigger] next.fin.contains_key(x) && is_tree_root(gr.m(), x) ==> (x as int) <= cursor,
            forall|i: int, j: int|
                0 <= i < j < after.len() ==> (#[trigger] after[i]).node != (#[trigger] after[j]).node,
            unseen.finite(),
            unseen.len() + next.order.len() + after.len() == gr.count(),
            forall|x: int|
                unseen.contains(x) <==> 0 <= x < gr.count() && !next.fin.contains_key(x as NodeId)
                    && !Self::on_stack(after, x as NodeId),
    {
        reveal(Post::inv);
        let l = stack.len() as int;
        let p = stack[l - 1].node;
        let n0 = self.order.len() as int;
        let m = gr.m();
        assert(self.level_ok(gr, stack, retained, l - 1));
        assert forall|i: int| 0 <= i < after.len() implies (#[trigger] after[i]).node
            == stack[i].node by {}
        assert forall|k: int| 0 <= k < next.order.len() implies next.fin.contains_key(
            #[trigger] next.order[k],
        ) && next.fin[next.order[k]] == k by {
            if k < n0 {
                assert(self.fin.contains_key(self.order[k]));
            }
        }
        assert forall|x: NodeId|
            #[trigger] next.fin.contains_key(x) && is_tree_root(m, x) implies (x as int) <= cursor by {
            if x == p && l >= 2 {
                assert(self.level_ok(gr, stack, retained, l - 2));
                gr.lemma_kid(stack[l - 2].node, stack[l - 2].next - 1);
            }
            if x == p && l == 1 {
            }
        }
        assert forall|i: int, j: int| 0 <= i < j < after.len() implies (#[trigger] after[i]).node != (
        #[trigger] after[j]).node by {
            assert(after[i].node == stack[i].node);
            assert(after[j].node == stack[j].node);
        }
        assert forall|x: int|
            unseen.contains(x) <==> 0 <= x < gr.count() && !next.fin.contains_key(x as NodeId)
                && !Self::on_stack(after, x as NodeId) by {
            if Self::on_stack(stack, x as NodeId) {
                let i = choose|i: int| 0 <= i < stack.len() && (#[trigger] stack[i]).node == x as NodeId;
                if i < l - 1 {
                    assert(after[i].node == x as NodeId);
                }
            }
            if Self::on_stack(after, x as NodeId) {
                let i = choose|i: int| 0 <= i < after.len() && (#[trigger] after[i]).node == x as NodeId;
                assert(stack[i].node == x as NodeId);
            }
            if x == p {
                assert(stack[l - 1].node == p);
            }
        }
    }
}

/// A sum over the first nodes of an order does not depend on the nodes that
/// follow.
pub proof fn lemma_order_sum_agree(sizes: Seq<u32>, a: Seq<NodeId>, b: Seq<NodeId>, k: int)
    requires
        0 <= k <= a.len(),
        k <= b.len(),
        forall|i: int| 0 <= i < k ==> a[i] == b[i],
    ensures
        order_sum(sizes, a, k) == order_sum(sizes, b, k),
    decreases k,
{
    if k > 0 {
        lemma_order_sum_agree(sizes, a, b, k - 1);
    }
}

/// The sum over an order without one of its nodes.
pub proof fn lemma_order_sum_remove(sizes: Seq<u32>, s: Seq<NodeId>, i: int)
    requires
        0 <= i < s.len(),
    ensures
        order_sum(sizes, s, s.len() as int) == order_sum(sizes, s.remove(i), s.len() - 1) + sizes[s[i] as int] as int,
    decreases s.len(),
{
    let n = s.len() as int;
    if i == n - 1 {
        lemma_order_sum_agree(sizes, s, s.remove(i), n - 1);
    } else {
        let t = s.drop_last();
        lemma_order_sum_remove(sizes, t, i);
        lemma_order_sum_agree(sizes, s, t, n - 1);
        assert(s.remove(i).drop_last() =~= t.remove(i));
        lemma_order_sum_agree(sizes, s.remove(i), t.remove(i), n - 2);
        assert(s.remove(i)[n - 2] == s[n - 1]);
    }
}

/// The sum over a part of an order.
pub proof fn lemma_order_sum_range(sizes: Seq<u32>, order: Seq<NodeId>, a: int, b: int)
    requires
        0 <= a <= b <= order.len(),
    ensures
        order_sum(sizes, order, b) - order_sum(sizes, order, a) == order_sum(sizes,
            order.subrange(a, b),
            b - a,
        ),
    decreases b - a,
{
    if a < b {
        lemma_order_sum_range(sizes, order, a, b - 1);
        lemma_order_sum_agree(sizes, order.subrange(a, b), order.subrange(a, b - 1), b - 1 - a);
        assert(order.subrange(a, b)[b - a - 1] == order[b - 1]);
    }
}

/// The sum over an order that holds, once each, the nodes below `upto` that
/// `n` dominates is the size of what `n` dominates.
pub proof fn lemma_masked_sum(
    sizes: Seq<u32>,
    m: Map<NodeId, NodeId>,
    n: NodeId,
    s: Seq<NodeId>,
    upto: int,
)
    requires
        0 <= upto <= u32::MAX + 1,
        forall|i: int, j: int| 0 <= i < j < s.len() ==> s[i] != s[j],
        forall|i: int| 0 <= i < s.len() ==> (#[trigger] s[i] as int) < upto && below(m, n, s[i]),
        forall|y: NodeId| (y as int) < upto && #[trigger] below(m, n, y) ==> s.contains(y),
    ensures
        order_sum(sizes, s, s.len() as int) == dominated_size(sizes, m, n, upto),
    decreases upto,
{
    if upto <= 0 {
        assert(s.len() == 0) by {
            if s.len() > 0 {
                assert((s[0] as int) < upto);
            }
        }
    } else {
        let z = (upto - 1) as NodeId;
        if below(m, n, z) {
            assert(s.contains(z));
            let i = choose|i: int| 0 <= i < s.len() && s[i] == z;
            let t = s.remove(i);
            lemma_order_sum_remove(sizes, s, i);
            assert forall|a: int| 0 <= a < t.len() implies (#[trigger] t[a] as int) < upto - 1
                && below(m, n, t[a]) by {
                if a < i {
                    assert(t[a] == s[a]);
                    assert(s[a] != s[i]);
                } else {
                    assert(t[a] == s[a + 1]);
                    assert(s[i] != s[a + 1]);
                }
            }
            assert forall|a: int, b: int| 0 <= a < b < t.len() implies t[a] != t[b] by {
                let a2 = if a < i { a } else { a + 1 };
                let b2 = if b < i { b } else { b + 1 };
                assert(t[a] == s[a2] && t[b] == s[b2]);
            }
            assert forall|y: NodeId| (y as int) < upto - 1 && #[trigger] below(m, n, y) implies t.contains(
                y,
            ) by {
                assert(s.contains(y));
                let k = choose|k: int| 0 <= k < s.len() && s[k] == y;
                if k < i {
                    assert(t[k] == y);
                } else {
                    assert(t[k - 1] == y);
                }
            }
            lemma_masked_sum(sizes, m, n, t, upto - 1);
        } else {
            assert forall|a: int| 0 <= a < s.len() implies (#[trigger] s[a] as int) < upto - 1
                && below(m, n, s[a]) by {
                if s[a] == z {
                    assert(below(m, n, s[a]));
                }
            }
            lemma_masked_sum(sizes, m, n, s, upto - 1);
        }
    }
}

impl Post {
    /// What the retained sizes are when all trees have been walked.
    proof fn lemma_outcome(self, gr: Ground, retained: Seq<u64>, unseen: Set<int>, cursor: int)
        requires
            self.inv(gr, Seq::<TreeFrame>::empty(), retained, unseen, cursor),
            forall|x: NodeId|
                is_tree_root(gr.m(), x) && (x as int) < gr.count() ==> #[trigger] self.fin.contains_key(
                    x,
                ),
        ensures
            retained.len() == gr.count(),
            forall|n: NodeId|
                (n as int) < gr.count() ==> (#[trigger] self.fin.contains_key(n) <==> in_tree(
                    gr.m(),
                    n,
                )),
            forall|n: NodeId|
                (n as int) < gr.count() ==> #[trigger] retained[n as int] == if in_tree(gr.m(), n) {
                    dominated_size(gr.sizes, gr.m(), n, gr.count())
                } else {
                    0
                },
            forall|n: NodeId|
                (n as int) < gr.count() && in_tree(gr.m(), n) ==> #[trigger] retained[n as int]
                    == gr.sizes[n as int] as int + seq_sum(
                    gr.children[n as int]@.map_values(|c: NodeId| retained[c as int] as int),
                ),
    {
        reveal(Post::inv);
        let none = Seq::<TreeFrame>::empty();
        let m = gr.m();
        assert forall|n: NodeId| (n as int) < gr.count() && in_tree(m, n) implies self.fin.contains_key(
            n,
        ) by {
            let r = choose|r: NodeId| is_tree_root(m, r) && below(m, r, n);
            assert(self.fin.contains_key(r));
            assert(self.done_ok(gr, none, retained, r));
        }
        assert forall|n: NodeId| (n as int) < gr.count() implies (#[trigger] self.fin.contains_key(n)
            <==> in_tree(m, n)) by {
            if self.fin.contains_key(n) {
                assert(self.done_ok(gr, none, retained, n));
            }
        }
        assert forall|n: NodeId| (n as int) < gr.count() implies #[trigger] retained[n as int]
            == if in_tree(m, n) {
            dominated_size(gr.sizes, m, n, gr.count())
        } else {
            0
        } by {
            if self.fin.contains_key(n) {
                assert(self.done_ok(gr, none, retained, n));
                let a = self.starts[n];
                let b = self.fin[n] + 1;
                let blk = self.order.subrange(a, b);
                lemma_order_sum_range(gr.sizes, self.order, a, b);
                assert forall|i: int, j: int| 0 <= i < j < blk.len() implies blk[i] != blk[j] by {
                    assert(self.fin[self.order[a + i]] == a + i);
                    assert(self.fin[self.order[a + j]] == a + j);
                }
                assert forall|i: int| 0 <= i < blk.len() implies (#[trigger] blk[i] as int)
                    < gr.count() && below(m, n, blk[i]) by {
                    assert(blk[i] == self.order[a + i]);
                    assert(self.fin.contains_key(self.order[a + i]));
                    assert(self.done_ok(gr, none, retained, self.order[a + i]));
                }
                assert forall|y: NodeId|
                    (y as int) < gr.count() && #[trigger] below(m, n, y) implies blk.contains(y) by {
                    assert(self.fin.contains_key(y));
                    assert(self.done_ok(gr, none, retained, y));
                    assert(blk[self.fin[y] - a] == y);
                }
                lemma_masked_sum(gr.sizes, m, n, blk, gr.count());
            }
        }
        assert forall|n: NodeId| (n as int) < gr.count() && in_tree(m, n) implies #[trigger] retained[n as int]
            == gr.sizes[n as int] as int + seq_sum(
            gr.children[n as int]@.map_values(|c: NodeId| retained[c as int] as int),
        ) by {
            assert(self.done_ok(gr, none, retained, n));
            assert(gr.kids(n).take(gr.kids(n).len() as int) =~= gr.kids(n));
        }
    }
}

/// The retained size of every node that stands in a tree of the immediate
/// dominators: its self size and the retained sizes of its children, which
/// is the self sizes of all that it dominates. The trees are walked from
/// their roots with a stack, children before parents.
fn annotate_retained_sizes(
    idom: &Vec<Option<NodeId>>,
    children: &Vec<Vec<NodeId>>,
    sizes: &Vec<u32>,
) -> (r: (Vec<u64>, Vec<bool>))
    requires
        (Ground { sizes: sizes@, idom: idom@, children: children@ }).ok(),
    ensures
        ({
            let retained = r.0;
            let done = r.1;
            &&& retained@.len() == idom@.len()
            &&& done@.len() == idom@.len()
            &&& forall|n: NodeId|
                (n as int) < idom@.len() ==> (#[trigger] done@[n as int] <==> in_tree(
                    column_map(idom@),
                    n,
                ))
            &&& retained_as_dominated(retained@, sizes@, idom@, children@)
        }),
{
    let (retained, done) = annotate_walk(idom, children, sizes);
    (retained, done)
}

/// Whether the retained sizes are those of what the nodes dominate.
pub open spec fn retained_as_dominated(
    retained: Seq<u64>,
    sizes: Seq<u32>,
    idom: Seq<Option<NodeId>>,
    children: Seq<Vec<NodeId>>,
) -> bool {
    &&& forall|n: NodeId|
        (n as int) < idom.len() ==> #[trigger] retained[n as int] == if in_tree(column_map(idom), n) {
            dominated_size(sizes, column_map(idom), n, idom.len() as int)
        } else {
            0
        }
    &&& forall|n: NodeId|
        (n as int) < idom.len() && in_tree(column_map(idom), n) ==> #[trigger] retained[n as int]
            == sizes[n as int] as int + seq_sum(
            children[n as int]@.map_values(|c: NodeId| retained[c as int] as int),
        )
}

/// The walk behind `annotate_retained_sizes`.
fn annotate_walk(
    idom: &Vec<Option<NodeId>>,
    children: &Vec<Vec<NodeId>>,
    sizes: &Vec<u32>,
) -> (r: (Vec<u64>, Vec<bool>))
    requires
        (Ground { sizes: sizes@, idom: idom@, children: children@ }).ok(),
    ensures
        r.0@.len() == idom@.len(),
        r.1@.len() == idom@.len(),
        forall|n: NodeId|
            (n as int) < idom@.len() ==> (#[trigger] r.1@[n as int] <==> in_tree(column_map(idom@), n)),
        forall|n: NodeId|
            (n as int) < idom@.len() ==> #[trigger] r.0@[n as int] == if in_tree(
                column_map(idom@),
                n,
            ) {
                dominated_size(sizes@, column_map(idom@), n, idom@.len() as int)
            } else {
                0
            },
        forall|n: NodeId|
            (n as int) < idom@.len() && in_tree(column_map(idom@), n) ==> #[trigger] r.0@[n as int]
                == sizes@[n as int] as int + seq_sum(
                children@[n as int]@.map_values(|c: NodeId| r.0@[c as int] as int),
            ),
{
    let ghost gr = Ground { sizes: sizes@, idom: idom@, children: children@ };
    let count = idom.len();
    let mut retained: Vec<u64> = vec![0u64; count];
    let mut done: Vec<bool> = vec![false; count];
    let mut stack: Vec<TreeFrame> = Vec::new();
    let ghost mut post = Post {
        order: Seq::empty(),
        fin: Map::empty(),
        starts: Map::empty(),
        bases: Seq::empty(),
    };
    let ghost mut unseen: Set<int> = vstd::set_lib::set_int_range(0, count as int);
    proof {
        vstd::set_lib::lemma_int_range(0, count as int);
        reveal(Post::inv);
        assert(post.inv(gr, stack@, retained@, unseen, -1));
    }
    let mut r: usize = 0;
    while r < count
        invariant
            gr == (Ground { sizes: sizes@, idom: idom@, children: children@ }),
            count == idom@.len(),
            r <= count,
            stack@.len() == 0,
            done@.len() == count,
            forall|x: NodeId| (x as int) < count ==> #[trigger] done@[x as int] == post.fin.contains_key(x),
            post.inv(gr, stack@, retained@, unseen, r - 1),
            forall|x: NodeId|
                is_tree_root(gr.m(), x) && (x as int) < r ==> #[trigger] post.fin.contains_key(x),
        decreases count - r,
    {
        let is_root = match idom[r] {
            Some(d) => d as usize == r,
            None => false,
        };
        assert(is_root == is_tree_root(gr.m(), r as NodeId)) by {
            reveal(Post::inv);
        }
        if is_root {
            let frame = TreeFrame { node: r as NodeId, next: 0, acc: 0 };
            let ghost entered = Post {
                order: post.order,
                fin: post.fin,
                starts: post.starts,
                bases: seq![post.order.len() as int],
            };
            proof {
                assert(stack@ =~= Seq::<TreeFrame>::empty());
                post.lemma_enter(gr, retained@, unseen, r as NodeId, entered, frame);
                unseen = unseen.remove(r as int);
                post = entered;
            }
            stack.push(frame);
            assert(stack@ =~= seq![frame]);
            while stack.len() > 0
                invariant
                    gr == (Ground { sizes: sizes@, idom: idom@, children: children@ }),
                    count == idom@.len(),
                    r < count,
                    done@.len() == count,
                    forall|x: NodeId|
                        (x as int) < count ==> #[trigger] done@[x as int] == post.fin.contains_key(x),
                    post.inv(gr, stack@, retained@, unseen, r as int),
                    stack@.len() > 0 ==> stack@[0].node == r,
                    stack@.len() == 0 ==> post.fin.contains_key(r as NodeId),
                    forall|x: NodeId|
                        is_tree_root(gr.m(), x) && (x as int) < r ==> #[trigger] post.fin.contains_key(
                            x,
                        ),
                decreases unseen.len(), count - post.order.len(),
            {
                proof {
                    post.lemma_top(gr, stack@, retained@, unseen, r as int);
                    assert(count * SELF_SIZE_MAX <= u64::MAX) by (nonlinear_arith)
                        requires
                            count <= 0xffff_ffff,
                            SELF_SIZE_MAX == 0xffff_ffff,
                    ;
                }
                let ghost old_stack = stack@;
                let mut top = stack.pop().unwrap();
                let kids = &children[top.node as usize];
                if top.next < kids.len() {
                    let c = kids[top.next];
                    top.next = top.next + 1;
                    let fresh = TreeFrame { node: c, next: 0, acc: 0 };
                    let ghost deeper = Post {
                        order: post.order,
                        fin: post.fin,
                        starts: post.starts,
                        bases: post.bases.push(post.order.len() as int),
                    };
                    proof {
                        post.lemma_descend(
                            gr,
                            old_stack,
                            retained@,
                            unseen,
                            r as int,
                            deeper,
                            top,
                            fresh,
                        );
                        assert(unseen.remove(c as int).len() < unseen.len());
                        unseen = unseen.remove(c as int);
                        post = deeper;
                    }
                    stack.push(top);
                    stack.push(fresh);
                    assert(stack@[0].node == r) by {
                        if old_stack.len() > 1 {
                            assert(stack@[0] == old_stack[0]);
                        }
                    }
                } else {
                    let total: u64 = sizes[top.node as usize] as u64 + top.acc;
                    let ghost before = retained@;
                    retained[top.node as usize] = total;
                    done[top.node as usize] = true;
                    if stack.len() > 0 {
                        let mut parent = stack.pop().unwrap();
                        parent.acc = parent.acc + total;
                        stack.push(parent);
                    }
                    let ghost shorter = Post {
                        order: post.order.push(top.node),
                        fin: post.fin.insert(top.node, post.order.len() as int),
                        starts: post.starts.insert(top.node, post.bases.last()),
                        bases: post.bases.drop_last(),
                    };
                    proof {
                        assert(old_stack.len() >= 2 ==> stack@.last().node == old_stack[old_stack.len()
                            - 2].node);
                        post.lemma_finish(
                            gr,
                            old_stack,
                            before,
                            unseen,
                            r as int,
                            shorter,
                            stack@,
                            total,
                        );
                        post = shorter;
                        if stack@.len() > 0 {
                            assert(stack@[0].node == old_stack[0].node);
                        }
                    }
                }
            }
        } else {
            proof {
                post.lemma_cursor(gr, stack@, retained@, unseen, r - 1, r as int);
            }
        }
        r = r + 1;
    }
    proof {
        assert(stack@ =~= Seq::<TreeFrame>::empty());
        post.lemma_outcome(gr, retained@, unseen, count - 1);
    }
    (retained, done)
}

/// The self sizes of the first `upto` nodes that have an immediate
/// dominator, added up.
pub open spec fn reachable_size(sizes: Seq<u32>, m: Map<NodeId, NodeId>, upto: int) -> int
    decreases upto,
{
    if upto <= 0 {
        0
    } else {
        reachable_size(sizes, m, upto - 1) + if m.contains_key((upto - 1) as NodeId) {
            sizes[upto - 1] as int
        } else {
            0
        }
    }
}

impl DominatorTree {
    /// Whether the tree is the dominator tree that `m` describes on the
    /// nodes with these self sizes: it holds `m`, the children of every node are those that `m`
    /// gives it, and the retained size of every node that stands in a tree
    /// of `m` is the self size of all that it dominates, which is its own
    /// self size and the retained sizes of its children. A node that stands
    /// in no tree retains nothing.
    pub open spec fn is_tree_of(&self, sizes: Seq<u32>, m: Map<NodeId, NodeId>) -> bool {
        &&& self.wf()
        &&& self.spec_len() == sizes.len()
        &&& self.spec_idom() == m
        &&& self.inverts(m)
        &&& forall|n: NodeId|
            (n as int) < self.spec_len() ==> (#[trigger] self.spec_in_tree(n) <==> in_tree(m, n))
        &&& forall|n: NodeId|
            (n as int) < self.spec_len() ==> #[trigger] self.spec_retained(n) == if in_tree(m, n) {
                dominated_size(sizes, m, n, self.spec_len())
            } else {
                0
            }
        &&& forall|n: NodeId|
            (n as int) < self.spec_len() && in_tree(m, n) ==> #[trigger] self.spec_retained(n)
                == sizes[n as int] as int + seq_sum(self.spec_child_sizes(n))
    }

    /// The tree has no more nodes than their numbers can tell apart.
    pub proof fn lemma_len_bound(&self)
        requires
            self.wf(),
        ensures
            self.spec_len() <= u32::MAX,
    {
    }

    /// A child of a node is another node of the tree.
    pub proof fn lemma_child_in_range(&self, sizes: Seq<u32>, p: NodeId, c: NodeId)
        requires
            self.is_tree_of(sizes, self.spec_idom()),
            (p as int) < self.spec_len(),
            self.spec_children(p).contains(c),
        ensures
            (c as int) < self.spec_len(),
            c != p,
    {
        assert(is_child(self.spec_idom(), p, c));
    }

    /// A retained size is not negative.
    pub proof fn lemma_retained_nonneg(&self, n: NodeId)
        ensures
            0 <= self.spec_retained(n),
    {
    }
}

/// The dominator tree of the immediate dominators of a graph: the children
/// of each node in ascending order, and the retained size of each node that
/// stands in a tree.
pub fn tree_from_immediate_dominators(
    immediate_dominators: &HashMap<NodeId, NodeId>,
    graph: &V8HeapGraph,
) -> (tree: DominatorTree)
    requires
        graph.wf(),
        idoms_in_range(immediate_dominators@, graph.spec_node_count()),
    ensures
        tree.is_tree_of(graph.spec_self_sizes(), immediate_dominators@),
{
    let sizes = graph.self_sizes();
    tree_from_sizes(immediate_dominators, &sizes)
}

/// The dominator tree of the immediate dominators of nodes with the given
/// self sizes: the children of each node in ascending order, and the
/// retained size of each node that stands in a tree.
pub fn tree_from_sizes(immediate_dominators: &HashMap<NodeId, NodeId>, sizes: &Vec<u32>) -> (tree:
    DominatorTree)
    requires
        sizes@.len() <= u32::MAX,
        idoms_in_range(immediate_dominators@, sizes@.len() as int),
    ensures
        tree.is_tree_of(sizes@, immediate_dominators@),
{
    let node_count = sizes.len();
    let (idom, children) = invert(immediate_dominators, node_count);
    let ghost m = immediate_dominators@;
    proof {
        assert(column_map(idom@) =~= m);
    }
    let (retained_sizes, flags) = annotate_retained_sizes(&idom, &children, sizes);
    let tree = DominatorTree { idom, children, retained_sizes, in_tree: flags };
    proof {
        assert(tree.spec_idom() =~= m);
        assert forall|n: NodeId| (n as int) < tree.spec_len() && in_tree(m, n) implies #[trigger] tree.spec_retained(
            n,
        ) == sizes@[n as int] as int + seq_sum(tree.spec_child_sizes(n)) by {
            assert(tree.spec_child_sizes(n) =~= tree.children@[n as int]@.map_values(
                |c: NodeId| tree.retained_sizes@[c as int] as int,
            ));
        }
    }
    tree
}

/// A node other than a root stands among the children of its immediate
/// dominator, and among the children of no other node; so the children give
/// the immediate dominators back.
pub proof fn lemma_child_of_one_parent(
    tree: DominatorTree,
    sizes: Seq<u32>,
    m: Map<NodeId, NodeId>,
    n: NodeId,
    p: NodeId,
)
    requires
        idoms_in_range(m, sizes.len() as int),
        tree.is_tree_of(sizes, m),
        (p as int) < sizes.len(),
    ensures
        tree.spec_children(p).contains(n) <==> m.contains_key(n) && m[n] == p && n != p,
        m.contains_key(n) && m[n] != n ==> tree.spec_children(m[n]).contains(n),
{
    if m.contains_key(n) && m[n] != n {
        assert(is_child(m, m[n], n));
    }
}

/// The retained size of a node that stands in a tree, as a counter of the
/// machine holds it, is at least its self size.
pub proof fn lemma_counted_at_least_self(
    tree: DominatorTree,
    sizes: Seq<u32>,
    m: Map<NodeId, NodeId>,
    n: NodeId,
)
    requires
        tree.is_tree_of(sizes, m),
        (n as int) < sizes.len(),
        in_tree(m, n),
    ensures
        capped(tree.spec_retained(n)) >= sizes[n as int],
{
    lemma_retained_at_least_self(tree, sizes, m, n);
    assert(usize::MAX >= u32::MAX);
}

/// The retained size of a node that stands in a tree is at least its self
/// size.
pub proof fn lemma_retained_at_least_self(
    tree: DominatorTree,
    sizes: Seq<u32>,
    m: Map<NodeId, NodeId>,
    n: NodeId,
)
    requires
        tree.is_tree_of(sizes, m),
        (n as int) < sizes.len(),
        in_tree(m, n),
    ensures
        tree.spec_retained(n) >= sizes[n as int] as int,
{
    let kids = tree.spec_child_sizes(n);
    assert forall|i: int| 0 <= i < kids.len() implies 0 <= #[trigger] kids[i] by {
        tree.lemma_retained_nonneg(tree.spec_children(n)[i]);
    }
    lemma_seq_sum_nonneg(kids);
}

/// Where every node climbs to lower ranks and `root` is the only root, the
/// root dominates every node that has an immediate dominator.
pub proof fn lemma_all_below_root(
    m: Map<NodeId, NodeId>,
    rank: spec_fn(NodeId) -> nat,
    root: NodeId,
    n: NodeId,
)
    requires
        crate::graph::lengauer_tarjan::ranked_by(m, rank),
        forall|x: NodeId| is_tree_root(m, x) ==> x == root,
        m.contains_key(n),
    ensures
        below(m, root, n),
    decreases rank(n),
{
    if m[n] == n {
        assert(is_tree_root(m, n));
        assert(climbs_to(m, n, root, 0));
    } else {
        lemma_all_below_root(m, rank, root, m[n]);
        let k = choose|k: nat| climbs_to(m, m[n], root, k);
        assert(climbs_to(m, n, root, k + 1));
    }
}

/// A node that a root dominates has an immediate dominator.
pub proof fn lemma_below_has_idom(m: Map<NodeId, NodeId>, n: NodeId, x: NodeId)
    requires
        below(m, n, x),
    ensures
        m.contains_key(x),
{
    let k = choose|k: nat| climbs_to(m, x, n, k);
}

/// Where the immediate dominators form a forest with one root only, the
/// retained size of that root is the self size of all nodes that have an
/// immediate dominator: of all nodes that can be reached.
pub proof fn lemma_root_retains_all(
    tree: DominatorTree,
    sizes: Seq<u32>,
    m: Map<NodeId, NodeId>,
    root: NodeId,
)
    requires
        idoms_in_range(m, sizes.len() as int),
        tree.is_tree_of(sizes, m),
        crate::graph::lengauer_tarjan::is_dominator_forest(m),
        is_tree_root(m, root),
        forall|x: NodeId| is_tree_root(m, x) ==> x == root,
    ensures
        tree.spec_retained(root) == reachable_size(sizes, m, sizes.len() as int),
{
    let rank = choose|rank: spec_fn(NodeId) -> nat| crate::graph::lengauer_tarjan::ranked_by(m, rank);
    assert(climbs_to(m, root, root, 0));
    assert(in_tree(m, root));
    assert forall|x: NodeId| below(m, root, x) <==> m.contains_key(x) by {
        if m.contains_key(x) {
            lemma_all_below_root(m, rank, root, x);
        }
        if below(m, root, x) {
            lemma_below_has_idom(m, root, x);
        }
    }
    lemma_dominated_is_reachable(sizes, m, root, sizes.len() as int);
}

/// The size of what a node dominates that dominates every node that has an
/// immediate dominator.
pub proof fn lemma_dominated_is_reachable(
    sizes: Seq<u32>,
    m: Map<NodeId, NodeId>,
    root: NodeId,
    upto: int,
)
    requires
        forall|x: NodeId| below(m, root, x) <==> m.contains_key(x),
    ensures
        dominated_size(sizes, m, root, upto) == reachable_size(sizes, m, upto),
    decreases upto,
{
    if upto > 0 {
        lemma_dominated_is_reachable(sizes, m, root, upto - 1);
    }
}

/// The immediate dominators and the self sizes tell the whole tree: two
/// trees of the same immediate dominators on the same nodes have the same
/// children in the same order and the same retained sizes.
pub proof fn lemma_tree_determined(
    a: DominatorTree,
    b: DominatorTree,
    sizes: Seq<u32>,
    m: Map<NodeId, NodeId>,
    n: NodeId,
)
    requires
        a.is_tree_of(sizes, m),
        b.is_tree_of(sizes, m),
        (n as int) < sizes.len(),
    ensures
        a.spec_idom() == b.spec_idom(),
        a.spec_children(n) == b.spec_children(n),
        a.spec_retained(n) == b.spec_retained(n),
        a.spec_in_tree(n) == b.spec_in_tree(n),
{
    let s = a.spec_children(n);
    let t = b.spec_children(n);
    assert forall|x: u32| s.contains(x) <==> t.contains(x) by {
        assert(a.spec_children(n).contains(x) <==> is_child(m, n, x));
        assert(b.spec_children(n).contains(x) <==> is_child(m, n, x));
    }
    assert forall|i: int, j: int| 0 <= i < j < s.len() implies s[i] < s[j] by {
        assert(a.spec_children(n)[i] < a.spec_children(n)[j]);
    }
    assert forall|i: int, j: int| 0 <= i < j < t.len() implies t[i] < t[j] by {
        assert(b.spec_children(n)[i] < b.spec_children(n)[j]);
    }
    crate::seq_lemmas::lemma_ascending_same(s, t);
}

} // verus!
