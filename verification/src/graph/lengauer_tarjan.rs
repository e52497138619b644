use vstd::prelude::*;
use crate::analysis::dominance::gives_dominators;
use crate::analysis::exact::{exact_where_small, settled};
use crate::types::NodeId;
use std::collections::HashMap;

verus! {

/// What the dominator engine asks of a graph: how many nodes it has, and for
/// each node the nodes before and after it.
pub trait GraphOps {
    /// Whether the graph is in a state in which it can be asked.
    spec fn ops_wf(&self) -> bool;

    /// The total number of nodes in the graph.
    spec fn vertex_count(&self) -> int;

    /// The nodes that the edges leaving `node` arrive at.
    spec fn spec_successors(&self, node: NodeId) -> Seq<NodeId>;

    /// The nodes that the edges arriving at `node` leave.
    spec fn spec_predecessors(&self, node: NodeId) -> Seq<NodeId>;

    /// Returns the total number of nodes in the graph
    fn node_count(&self) -> (n: usize)
        requires
            self.ops_wf(),
        ensures
            n == self.vertex_count(),
    ;

    /// Returns all predecessors (incoming edges) for a given node
    fn predecessors(&self, node: NodeId) -> (r: Vec<NodeId>)
        requires
            self.ops_wf(),
            (node as int) < self.vertex_count(),
        ensures
            r@ == self.spec_predecessors(node),
    ;

    /// Returns all successors (outgoing edges) for a given node
    fn successors(&self, node: NodeId) -> (r: Vec<NodeId>)
        requires
            self.ops_wf(),
            (node as int) < self.vertex_count(),
        ensures
            r@ == self.spec_successors(node),
    ;
}

/// Whether the graph is one that dominators can be computed on: its nodes
/// can be numbered, every edge joins two of its nodes, and a node comes
/// before another exactly where the other comes after it.
pub open spec fn is_flow_graph<G: GraphOps>(g: &G) -> bool {
    &&& g.ops_wf()
    &&& 0 <= g.vertex_count() < u32::MAX
    &&& forall|v: NodeId, j: int|
        (v as int) < g.vertex_count() && 0 <= j < g.spec_successors(v).len() ==> (
        #[trigger] g.spec_successors(v)[j] as int) < g.vertex_count()
    &&& forall|v: NodeId, j: int|
        (v as int) < g.vertex_count() && 0 <= j < g.spec_predecessors(v).len() ==> (
        #[trigger] g.spec_predecessors(v)[j] as int) < g.vertex_count()
    &&& forall|v: NodeId, w: NodeId|
        (v as int) < g.vertex_count() && (w as int) < g.vertex_count() ==> (
        #[trigger] g.spec_successors(v).contains(w) <==> #[trigger] g.spec_predecessors(
            w,
        ).contains(v))
}

/// Whether `p` is a walk in the graph: a node, or nodes of which each is
/// followed by one of its successors.
pub open spec fn is_walk<G: GraphOps>(g: &G, p: Seq<NodeId>) -> bool {
    &&& p.len() > 0
    &&& forall|i: int| 0 <= i < p.len() ==> (#[trigger] p[i] as int) < g.vertex_count()
    &&& forall|i: int|
        0 <= i < p.len() - 1 ==> g.spec_successors(#[trigger] p[i]).contains(p[i + 1])
}

/// Whether a walk leads from one of the roots to `v`.
pub open spec fn reachable<G: GraphOps>(g: &G, roots: Seq<NodeId>, v: NodeId) -> bool {
    exists|p: Seq<NodeId>| is_walk(g, p) && roots.contains(p[0]) && #[trigger] p.last() == v
}

/// A root is reachable.
pub proof fn lemma_root_reachable<G: GraphOps>(g: &G, roots: Seq<NodeId>, r: NodeId)
    requires
        roots.contains(r),
        (r as int) < g.vertex_count(),
    ensures
        reachable(g, roots, r),
{
    let p = seq![r];
    assert(is_walk(g, p));
    assert(p.last() == r);
}

/// A successor of a reachable node is reachable.
pub proof fn lemma_successor_reachable<G: GraphOps>(
    g: &G,
    roots: Seq<NodeId>,
    u: NodeId,
    v: NodeId,
)
    requires
        reachable(g, roots, u),
        g.spec_successors(u).contains(v),
        (v as int) < g.vertex_count(),
    ensures
        reachable(g, roots, v),
{
    let p = choose|p: Seq<NodeId>| is_walk(g, p) && roots.contains(p[0]) && #[trigger] p.last() == u;
    let q = p.push(v);
    assert forall|i: int| 0 <= i < q.len() - 1 implies g.spec_successors(#[trigger] q[i]).contains(
        q[i + 1],
    ) by {
        if i < p.len() - 1 {
            assert(q[i] == p[i] && q[i + 1] == p[i + 1]);
        }
    }
    assert(is_walk(g, q));
    assert(q[0] == p[0]);
    assert(q.last() == v);
}

/// A set of nodes that holds the roots and, with each node, its successors,
/// holds every reachable node.
pub proof fn lemma_closed_holds_reachable<G: GraphOps>(
    g: &G,
    roots: Seq<NodeId>,
    inside: spec_fn(NodeId) -> bool,
    v: NodeId,
)
    requires
        reachable(g, roots, v),
        forall|j: int| 0 <= j < roots.len() ==> inside(#[trigger] roots[j]),
        forall|u: NodeId, j: int|
            (u as int) < g.vertex_count() && inside(u) && 0 <= j < g.spec_successors(u).len()
                ==> inside(#[trigger] g.spec_successors(u)[j]),
    ensures
        inside(v),
{
    let p = choose|p: Seq<NodeId>| is_walk(g, p) && roots.contains(p[0]) && #[trigger] p.last() == v;
    lemma_walk_inside(g, roots, inside, p, p.len() - 1);
}

proof fn lemma_walk_inside<G: GraphOps>(
    g: &G,
    roots: Seq<NodeId>,
    inside: spec_fn(NodeId) -> bool,
    p: Seq<NodeId>,
    k: int,
)
    requires
        is_walk(g, p),
        roots.contains(p[0]),
        0 <= k < p.len(),
        forall|j: int| 0 <= j < roots.len() ==> inside(#[trigger] roots[j]),
        forall|u: NodeId, j: int|
            (u as int) < g.vertex_count() && inside(u) && 0 <= j < g.spec_successors(u).len()
                ==> inside(#[trigger] g.spec_successors(u)[j]),
    ensures
        inside(p[k]),
    decreases k,
{
    if k == 0 {
        let j = choose|j: int| 0 <= j < roots.len() && roots[j] == p[0];
        assert(inside(roots[j]));
    } else {
        lemma_walk_inside(g, roots, inside, p, k - 1);
        let u = p[k - 1];
        assert(g.spec_successors(u).contains(p[k - 1 + 1]));
        let j = choose|j: int|
            0 <= j < g.spec_successors(u).len() && g.spec_successors(u)[j] == p[k];
        assert(inside(g.spec_successors(u)[j]));
    }
}

/// The mark of a slot that holds no node or no number.
pub const UNSET: NodeId = NodeId::MAX;

/// One level of the depth-first walk: a node, its successors, and how many
/// of them have been looked at.
struct Frame {
    node: NodeId,
    succs: Vec<NodeId>,
    next: usize,
}

/// What is left to do for the frames of a walk: for each frame its
/// successors not yet looked at, and the frame itself.
spec fn pending(stack: Seq<Frame>) -> nat
    decreases stack.len(),
{
    if stack.len() == 0 {
        0
    } else {
        let f = stack.last();
        let rest = if f.next <= f.succs@.len() {
            (f.succs@.len() - f.next) as nat
        } else {
            0
        };
        pending(stack.drop_last()) + rest + 1
    }
}

/// Whether one of the frames is the frame of `x`.
spec fn on_stack(stack: Seq<Frame>, x: int) -> bool {
    exists|i: int| 0 <= i < stack.len() && (#[trigger] stack[i]).node == x
}

/// The successors of a node in the graph to which a root above all roots
/// has been added: that root, which stands behind the last node, is
/// followed by the roots.
spec fn aug<G: GraphOps>(g: &G, roots: Seq<NodeId>, x: int) -> Seq<NodeId> {
    if x == g.vertex_count() {
        roots
    } else {
        g.spec_successors(x as NodeId)
    }
}

/// The depth-first walk as far as it has come: the number of each node
/// reached, the node of each number, the node from which each node was
/// reached, how many nodes were reached, and which nodes are roots. The last
/// slot belongs to a root above all roots, from which the walk starts.
struct Walk {
    dfnum: Seq<NodeId>,
    vertex: Seq<NodeId>,
    parent: Seq<NodeId>,
    n: int,
    is_root: Seq<bool>,
}

impl Walk {
    spec fn size(self) -> int {
        self.dfnum.len() as int
    }

    /// The slot of the root above all roots.
    spec fn top(self) -> int {
        self.size() - 1
    }

    spec fn sized(self) -> bool {
        &&& 1 <= self.size() <= u32::MAX
        &&& self.vertex.len() == self.size()
        &&& self.parent.len() == self.size()
        &&& self.is_root.len() == self.size()
        &&& 0 <= self.n <= self.size()
    }

    /// Whether the walk has reached `x`.
    spec fn seen(self, x: int) -> bool {
        0 <= x < self.size() && self.dfnum[x] != UNSET
    }

    /// As `seen`, where nothing more is to follow from it.
    spec fn reached(self, x: int) -> bool {
        0 <= x < self.size() && self.dfnum[x] != UNSET
    }

    /// Whether the node numbered right after `s` was reached from `s`.
    spec fn first_child(self, s: int) -> bool {
        &&& 0 <= s < self.size()
        &&& self.dfnum[s] != UNSET
        &&& self.dfnum[s] + 1 < self.n
        &&& self.parent[self.vertex[self.dfnum[s] + 1] as int] == s
    }

    /// The numbering of the walk: the nodes reached are numbered in the
    /// order in which they were reached, from the root above all roots on,
    /// and each but that root was reached from a node numbered before it,
    /// whose first child in the walk got the number after its own.
    spec fn numbered(self) -> bool {
        &&& self.n >= 1
        &&& self.dfnum[self.top()] == 0
        &&& self.vertex[0] == self.top()
        &&& !self.is_root[self.top()]
        &&& forall|x: int|
            #[trigger] self.seen(x) ==> self.dfnum[x] < self.n && self.vertex[self.dfnum[x] as int]
                == x
        &&& forall|k: int|
            0 <= k < self.n ==> (#[trigger] self.vertex[k] as int) < self.size()
                && self.dfnum[self.vertex[k] as int] == k
        &&& forall|x: int|
            #[trigger] self.seen(x) && x != self.top() ==> {
                &&& self.reached(self.parent[x] as int)
                &&& self.dfnum[self.parent[x] as int] < self.dfnum[x]
                &&& self.first_child(self.parent[x] as int)
                &&& self.parent[x] == self.top() ==> self.is_root[x]
            }
    }

    /// Whether the first `upto` successors of `x` have been reached, and `x`
    /// has a child in the walk where one of them was reached after it.
    spec fn succ_done<G: GraphOps>(self, g: &G, roots: Seq<NodeId>, x: int, upto: int) -> bool {
        forall|j: int|
            0 <= j < upto ==> {
                &&& self.reached(#[trigger] aug(g, roots, x)[j] as int)
                &&& self.dfnum[aug(g, roots, x)[j] as int] > self.dfnum[x] ==> self.first_child(x)
            }
    }

    spec fn frame_ok<G: GraphOps>(self, g: &G, roots: Seq<NodeId>, f: Frame) -> bool {
        &&& self.reached(f.node as int)
        &&& f.succs@ == aug(g, roots, f.node as int)
        &&& f.next <= f.succs@.len()
        &&& self.succ_done(g, roots, f.node as int, f.next as int)
    }

    spec fn stack_ok<G: GraphOps>(self, g: &G, roots: Seq<NodeId>, stack: Seq<Frame>) -> bool {
        &&& forall|i: int| 0 <= i < stack.len() ==> self.frame_ok(g, roots, #[trigger] stack[i])
        &&& forall|i: int|
            0 < i < stack.len() ==> self.parent[(#[trigger] stack[i]).node as int] == stack[i
                - 1].node
        &&& forall|i: int|
            0 <= i < stack.len() - 1 ==> self.first_child((#[trigger] stack[i]).node as int)
        &&& stack.len() > 0 ==> {
            ||| self.n == self.dfnum[stack.last().node as int] + 1
            ||| self.first_child(stack.last().node as int)
        }
        &&& stack.len() > 0 ==> stack[0].node == self.top()
    }

    /// Whether every node reached but the root above all roots is a
    /// successor of the node it was reached from.
    spec fn tree_edges<G: GraphOps>(self, g: &G, roots: Seq<NodeId>) -> bool {
        forall|x: int|
            #[trigger] self.seen(x) && x != self.top() ==> aug(
                g,
                roots,
                self.parent[x] as int,
            ).contains(x as NodeId)
    }

    /// What holds while the walk is under way: the numbering, the frames,
    /// that every node reached is on the stack or has all its successors
    /// reached, and that every node reached can be reached from a root.
    #[verifier::opaque]
    spec fn dfs_inv<G: GraphOps>(self, g: &G, roots: Seq<NodeId>, stack: Seq<Frame>) -> bool {
        &&& self.numbered()
        &&& self.tree_edges(g, roots)
        &&& self.stack_ok(g, roots, stack)
        &&& forall|x: int|
            #[trigger] self.seen(x) ==> on_stack(stack, x) || self.succ_done(
                g,
                roots,
                x,
                aug(g, roots, x).len() as int,
            )
        &&& forall|x: int|
            #[trigger] self.seen(x) && x != self.top() ==> reachable(g, roots, x as NodeId)
    }

    /// The walk after `s` was reached from `u`.
    spec fn stepped(self, old: Walk, s: int, u: int) -> bool {
        &&& self.dfnum == old.dfnum.update(s, old.n as NodeId)
        &&& self.vertex == old.vertex.update(old.n, s as NodeId)
        &&& self.parent == old.parent.update(s, u as NodeId)
        &&& self.n == old.n + 1
        &&& self.is_root == old.is_root
    }

    /// What the walk needs to know of the frame on top of its stack.
    proof fn lemma_top_frame<G: GraphOps>(self, g: &G, roots: Seq<NodeId>, stack: Seq<Frame>)
        requires
            is_flow_graph(g),
            self.sized(),
            self.size() == g.vertex_count() + 1,
            forall|k: int| 0 <= k < roots.len() ==> (#[trigger] roots[k] as int) < self.top(),
            self.dfs_inv(g, roots, stack),
            stack.len() > 0,
        ensures
            self.seen(stack.last().node as int),
            stack.last().succs@ == aug(g, roots, stack.last().node as int),
            stack.last().next <= stack.last().succs@.len(),
            forall|j: int|
                0 <= j < stack.last().succs@.len() ==> (#[trigger] stack.last().succs@[j] as int)
                    < self.top(),
            self.n >= 1,
    {
        reveal(Walk::dfs_inv);
        let f = stack.last();
        assert(self.frame_ok(g, roots, stack[stack.len() - 1]));
        assert forall|j: int| 0 <= j < f.succs@.len() implies (#[trigger] f.succs@[j] as int)
            < self.top() by {
            if f.node == self.top() {
            } else {
                assert(g.spec_successors(f.node)[j] == f.succs@[j]);
            }
        }
    }

    /// A frame whose successors have all been looked at leaves the stack.
    proof fn lemma_finish<G: GraphOps>(self, g: &G, roots: Seq<NodeId>, stack: Seq<Frame>)
        requires
            self.dfs_inv(g, roots, stack),
            stack.len() > 0,
            stack.last().next >= stack.last().succs@.len(),
        ensures
            self.dfs_inv(g, roots, stack.drop_last()),
            pending(stack.drop_last()) < pending(stack),
    {
        reveal(Walk::dfs_inv);
        let st = stack.drop_last();
        let f = stack.last();
        assert forall|i: int| 0 <= i < st.len() implies #[trigger] st[i] == stack[i] by {}
        assert(self.frame_ok(g, roots, stack[stack.len() - 1]));
        if st.len() > 0 {
            assert(self.first_child(stack[st.len() - 1].node as int));
        }
        assert(self.stack_ok(g, roots, st));
        assert forall|x: int| #[trigger] self.seen(x) implies on_stack(st, x) || self.succ_done(
            g,
            roots,
            x,
            aug(g, roots, x).len() as int,
        ) by {
            if on_stack(stack, x) {
                let i = choose|i: int| 0 <= i < stack.len() && (#[trigger] stack[i]).node == x;
                if i < st.len() {
                    assert(st[i].node == x);
                } else {
                    assert(x == f.node);
                }
            }
        }
    }

    /// A successor that was reached before is passed over.
    proof fn lemma_skip<G: GraphOps>(
        self,
        g: &G,
        roots: Seq<NodeId>,
        stack: Seq<Frame>,
        advanced: Frame,
    )
        requires
            self.sized(),
            self.dfs_inv(g, roots, stack),
            stack.len() > 0,
            stack.last().next < stack.last().succs@.len(),
            advanced.node == stack.last().node,
            advanced.succs == stack.last().succs,
            advanced.next == stack.last().next + 1,
            self.seen(stack.last().succs@[stack.last().next as int] as int),
        ensures
            self.dfs_inv(g, roots, stack.drop_last().push(advanced)),
            pending(stack.drop_last().push(advanced)) < pending(stack),
    {
        reveal(Walk::dfs_inv);
        let f = stack.last();
        let st = stack.drop_last().push(advanced);
        let u = f.node as int;
        let t = f.succs@[f.next as int] as int;
        assert(st.drop_last() =~= stack.drop_last());
        assert(self.frame_ok(g, roots, stack[stack.len() - 1]));
        assert forall|i: int| 0 <= i < st.len() implies (#[trigger] st[i]).node
            == stack[i].node by {}
        assert(self.succ_done(g, roots, u, advanced.next as int)) by {
            if self.dfnum[t] > self.dfnum[u] {
                assert(self.dfnum[t] < self.n);
            }
        }
        assert forall|i: int| 0 <= i < st.len() implies self.frame_ok(g, roots, #[trigger] st[i]) by {
            if i < st.len() - 1 {
                assert(st[i] == stack[i]);
            }
        }
        assert(self.stack_ok(g, roots, st));
        assert forall|x: int| #[trigger] self.seen(x) implies on_stack(st, x) || self.succ_done(
            g,
            roots,
            x,
            aug(g, roots, x).len() as int,
        ) by {
            if on_stack(stack, x) {
                let i = choose|i: int| 0 <= i < stack.len() && (#[trigger] stack[i]).node == x;
                assert(st[i].node == x);
            }
        }
    }

    /// Numbering a node that is reached for the first time keeps the
    /// numbering in order.
    proof fn lemma_step_numbered(self, old: Walk, s: int, u: int)
        requires
            old.sized(),
            old.numbered(),
            self.stepped(old, s, u),
            0 <= s < old.size(),
            !old.seen(s),
            old.seen(u),
            old.n < old.size(),
            old.n == old.dfnum[u] + 1 || old.first_child(u),
            u == old.top() ==> old.is_root[s],
        ensures
            self.sized(),
            self.size() == old.size(),
            self.numbered(),
            self.first_child(u),
            self.seen(s),
            self.dfnum[s] == old.n,
            forall|x: int| #[trigger] old.seen(x) ==> self.seen(x) && self.dfnum[x] == old.dfnum[x],
            forall|x: int| #[trigger] self.seen(x) ==> x == s || old.seen(x),
            forall|x: int| #[trigger] old.first_child(x) ==> self.first_child(x),
            forall|x: int| old.seen(x) && x != old.top() ==> self.parent[x] == old.parent[x],
    {
        assert(old.seen(old.top()));
        assert(s != old.top());
        assert forall|x: int| #[trigger] old.first_child(x) implies self.first_child(x) by {
            let c = old.vertex[old.dfnum[x] + 1] as int;
            assert(old.dfnum[c] == old.dfnum[x] + 1);
            assert(old.seen(c));
        }
        assert(self.first_child(u)) by {
            if old.n == old.dfnum[u] + 1 {
            } else {
                assert(old.first_child(u));
            }
        }
        assert forall|x: int| #[trigger] self.seen(x) && x != self.top() implies {
            &&& self.reached(self.parent[x] as int)
            &&& self.dfnum[self.parent[x] as int] < self.dfnum[x]
            &&& self.first_child(self.parent[x] as int)
            &&& self.parent[x] == self.top() ==> self.is_root[x]
        } by {
            if x != s {
                assert(old.seen(x));
                assert(old.seen(old.parent[x] as int));
                assert(old.first_child(old.parent[x] as int));
            }
        }
        assert forall|x: int| #[trigger] self.seen(x) implies self.dfnum[x] < self.n
            && self.vertex[self.dfnum[x] as int] == x by {
            if x != s {
                assert(old.seen(x));
            }
        }
    }

    /// What was known of the successors of a node stays known when the walk
    /// goes on.
    proof fn lemma_step_succ_done<G: GraphOps>(
        self,
        old: Walk,
        g: &G,
        roots: Seq<NodeId>,
        x: int,
        upto: int,
    )
        requires
            old.seen(x),
            old.succ_done(g, roots, x, upto),
            forall|y: int| #[trigger] old.seen(y) ==> self.seen(y) && self.dfnum[y] == old.dfnum[y],
            forall|y: int| #[trigger] old.first_child(y) ==> self.first_child(y),
        ensures
            self.succ_done(g, roots, x, upto),
    {
        assert forall|j: int| 0 <= j < upto implies {
            &&& self.reached(#[trigger] aug(g, roots, x)[j] as int)
            &&& self.dfnum[aug(g, roots, x)[j] as int] > self.dfnum[x] ==> self.first_child(x)
        } by {
            assert(old.seen(aug(g, roots, x)[j] as int));
        }
    }

    /// The walk goes down to a successor that it reaches for the first time.
    proof fn lemma_descend<G: GraphOps>(
        self,
        old: Walk,
        g: &G,
        roots: Seq<NodeId>,
        stack: Seq<Frame>,
        advanced: Frame,
        fresh: Frame,
    )
        requires
            is_flow_graph(g),
            old.sized(),
            old.size() == g.vertex_count() + 1,
            forall|x: int|
                0 <= x < old.top() ==> (#[trigger] old.is_root[x] <==> roots.contains(x as NodeId)),
            old.dfs_inv(g, roots, stack),
            stack.len() > 0,
            stack.last().next < stack.last().succs@.len(),
            advanced.node == stack.last().node,
            advanced.succs == stack.last().succs,
            advanced.next == stack.last().next + 1,
            fresh.node == stack.last().succs@[stack.last().next as int],
            (fresh.node as int) < old.top(),
            fresh.succs@ == g.spec_successors(fresh.node),
            fresh.next == 0,
            !old.seen(fresh.node as int),
            old.n < old.size(),
            self.stepped(old, fresh.node as int, stack.last().node as int),
        ensures
            self.sized(),
            self.dfs_inv(g, roots, stack.drop_last().push(advanced).push(fresh)),
    {
        reveal(Walk::dfs_inv);
        let f = stack.last();
        let below = stack.drop_last();
        let st = below.push(advanced).push(fresh);
        let s = fresh.node as int;
        let u = f.node as int;
        assert(old.frame_ok(g, roots, stack[stack.len() - 1]));
        assert(old.seen(u));
        assert(u == old.top() ==> old.is_root[s]) by {
            if u == old.top() {
                assert(roots[f.next as int] == s);
            }
        }
        self.lemma_step_numbered(old, s, u);
        assert(self.tree_edges(g, roots)) by {
            assert forall|x: int| #[trigger] self.seen(x) && x != self.top() implies aug(
                g,
                roots,
                self.parent[x] as int,
            ).contains(x as NodeId) by {
                if x == s {
                    assert(aug(g, roots, u)[f.next as int] == s);
                } else {
                    assert(old.seen(x));
                }
            }
        }
        assert forall|i: int| 0 <= i < below.len() implies #[trigger] st[i] == stack[i] by {}
        assert forall|i: int| 0 <= i < st.len() implies self.frame_ok(g, roots, #[trigger] st[i]) by {
            if i < below.len() {
                assert(old.frame_ok(g, roots, stack[i]));
                assert(old.seen(stack[i].node as int));
                self.lemma_step_succ_done(old, g, roots, stack[i].node as int, stack[i].next as int);
            } else if i == below.len() {
                self.lemma_step_succ_done(old, g, roots, u, f.next as int);
                assert(self.succ_done(g, roots, u, advanced.next as int));
            } else {
            }
        }
        assert forall|i: int| 0 <= i < st.len() - 1 implies self.first_child(
            (#[trigger] st[i]).node as int,
        ) by {
            if i < below.len() {
                assert(old.first_child(stack[i].node as int));
            }
        }
        assert forall|i: int| 0 < i < st.len() implies self.parent[(#[trigger] st[i]).node as int]
            == st[i - 1].node by {
            if i <= below.len() {
                assert(st[i].node == stack[i].node);
                assert(st[i - 1] == stack[i - 1]);
                assert(old.frame_ok(g, roots, stack[i]));
                assert(old.seen(stack[i].node as int));
            }
        }
        assert(st[0].node == self.top()) by {
            assert(st[0].node == stack[0].node);
        }
        assert(self.stack_ok(g, roots, st));
        assert forall|x: int| #[trigger] self.seen(x) implies on_stack(st, x) || self.succ_done(
            g,
            roots,
            x,
            aug(g, roots, x).len() as int,
        ) by {
            if x == s {
                assert(st[st.len() - 1].node == s);
            } else {
                assert(old.seen(x));
                if on_stack(stack, x) {
                    let i = choose|i: int| 0 <= i < stack.len() && (#[trigger] stack[i]).node == x;
                    assert(st[i].node == x);
                } else {
                    self.lemma_step_succ_done(old, g, roots, x, aug(g, roots, x).len() as int);
                }
            }
        }
        assert forall|x: int| #[trigger] self.seen(x) && x != self.top() implies reachable(
            g,
            roots,
            x as NodeId,
        ) by {
            if x == s {
                if u == old.top() {
                    assert(roots[f.next as int] == s);
                    lemma_root_reachable(g, roots, s as NodeId);
                } else {
                    assert(g.spec_successors(u as NodeId)[f.next as int] == s);
                    lemma_successor_reachable(g, roots, u as NodeId, s as NodeId);
                }
            } else {
                assert(old.seen(x));
            }
        }
    }

    /// What the walk leaves behind: the numbering, and for every node
    /// reached that all its successors were reached too.
    #[verifier::opaque]
    spec fn walked<G: GraphOps>(self, g: &G, roots: Seq<NodeId>) -> bool {
        &&& self.numbered()
        &&& self.tree_edges(g, roots)
        &&& forall|x: int|
            #[trigger] self.seen(x) ==> self.succ_done(g, roots, x, aug(g, roots, x).len() as int)
    }

    /// Whether at most one node is marked as a root.
    spec fn lone(self) -> bool {
        forall|x: int, y: int|
            0 <= x < self.size() && 0 <= y < self.size() && #[trigger] self.is_root[x]
                && #[trigger] self.is_root[y] ==> x == y
    }

    /// Whether `s` can be the semidominator of `w`: it was numbered before
    /// `w`, has a child in the walk, and is the root above all roots where
    /// `w` is a root, and only there where there is but one root.
    spec fn cand_ok(self, s: int, w: int) -> bool {
        &&& self.reached(s)
        &&& self.dfnum[s] < self.dfnum[w]
        &&& self.first_child(s)
        &&& self.is_root[w] ==> s == self.top()
        &&& self.lone() && s == self.top() ==> self.is_root[w]
    }

    /// Once a node was reached, the root above all roots has a first child.
    proof fn lemma_top_has_child(self)
        requires
            self.sized(),
            self.numbered(),
            self.n >= 2,
        ensures
            self.first_child(self.top()),
            self.seen(self.top()),
    {
        let c = self.vertex[1] as int;
        assert(self.dfnum[c] == 1);
        assert(self.seen(c));
        assert(self.seen(self.top()));
        assert(c != self.top());
        let q = self.parent[c] as int;
        assert(self.seen(q));
        assert(self.dfnum[q] == 0);
        assert(self.vertex[self.dfnum[q] as int] == q);
    }

    /// What is known of the node numbered `i`.
    proof fn lemma_pick<G: GraphOps>(self, g: &G, roots: Seq<NodeId>, i: int)
        requires
            self.sized(),
            self.walked(g, roots),
            1 <= i < self.n,
        ensures
            (self.vertex[i] as int) < self.top(),
            self.seen(self.vertex[i] as int),
            self.dfnum[self.vertex[i] as int] == i,
            !self.is_root[self.vertex[i] as int] ==> self.cand_ok(
                self.parent[self.vertex[i] as int] as int,
                self.vertex[i] as int,
            ),
            self.is_root[self.vertex[i] as int] ==> self.cand_ok(self.top(), self.vertex[i] as int),
            self.seen(self.parent[self.vertex[i] as int] as int),
            self.first_child(self.parent[self.vertex[i] as int] as int),
            self.dfnum[self.parent[self.vertex[i] as int] as int] < i,
            self.parent[self.vertex[i] as int] != UNSET,
    {
        reveal(Walk::walked);
        let w = self.vertex[i] as int;
        assert(self.dfnum[w] == i);
        assert(self.seen(w));
        assert(self.seen(self.top()));
        assert(w != self.top());
        let p = self.parent[w] as int;
        assert(self.seen(p));
        self.lemma_top_has_child();
    }

    /// Where there is but one root, it is numbered first.
    proof fn lemma_lone_root<G: GraphOps>(self, g: &G, roots: Seq<NodeId>, y: int)
        requires
            self.sized(),
            self.walked(g, roots),
            self.lone(),
            self.seen(y),
            self.is_root[y],
        ensures
            self.dfnum[y] == 1,
    {
        reveal(Walk::walked);
        assert(y != self.top());
        assert(self.seen(self.top()));
        assert(self.dfnum[y] < self.n);
        assert(self.dfnum[y] != 0) by {
            if self.dfnum[y] == 0 {
                assert(self.vertex[self.dfnum[y] as int] == y);
            }
        }
        self.lemma_top_has_child();
        let c = self.vertex[1] as int;
        assert(self.dfnum[c] == 1);
        assert(self.seen(c));
        assert(self.is_root[c]);
    }

    /// Two nodes with the same number are one node.
    proof fn lemma_same_number<G: GraphOps>(self, g: &G, roots: Seq<NodeId>, x: int, y: int)
        requires
            self.walked(g, roots),
            self.seen(x),
            self.seen(y),
            self.dfnum[x] == self.dfnum[y],
        ensures
            x == y,
    {
        reveal(Walk::walked);
    }

    /// A predecessor that the walk numbered before a node has a child in the
    /// walk.
    proof fn lemma_pred_has_child<G: GraphOps>(
        self,
        g: &G,
        roots: Seq<NodeId>,
        v: NodeId,
        w: NodeId,
    )
        requires
            is_flow_graph(g),
            self.sized(),
            self.size() == g.vertex_count() + 1,
            self.walked(g, roots),
            (w as int) < self.top(),
            (v as int) < self.top(),
            g.spec_predecessors(w).contains(v),
            self.seen(v as int),
            self.seen(w as int),
            self.dfnum[v as int] < self.dfnum[w as int],
        ensures
            self.first_child(v as int),
    {
        reveal(Walk::walked);
        assert(g.spec_successors(v).contains(w));
        let j = choose|j: int| 0 <= j < g.spec_successors(v).len() && g.spec_successors(v)[j] == w;
        assert(self.succ_done(g, roots, v as int, aug(g, roots, v as int).len() as int));
        assert(aug(g, roots, v as int)[j] == w);
    }
}

/// The arrays of the Lengauer-Tarjan algorithm. They have one slot per node
/// and one more, the last, for a root above all roots, from which the walk
/// starts and which dominates every node.
struct LengauerTarjan {
    // DFS state
    dfnum: Vec<NodeId>,
    vertex: Vec<NodeId>,
    parent: Vec<NodeId>,
    n: NodeId,
    is_root: Vec<bool>,
    // Dominator computation
    semi: Vec<NodeId>,
    ancestor: Vec<NodeId>,
    best: Vec<NodeId>,
    idom: Vec<NodeId>,
    samedom: Vec<NodeId>,
    bucket: Vec<Vec<NodeId>>,
}

impl LengauerTarjan {
    /// The walk that the first five arrays hold.
    spec fn walk(&self) -> Walk {
        Walk {
            dfnum: self.dfnum@,
            vertex: self.vertex@,
            parent: self.parent@,
            n: self.n as int,
            is_root: self.is_root@,
        }
    }

    spec fn size(&self) -> int {
        self.dfnum@.len() as int
    }

    spec fn sized(&self) -> bool {
        &&& self.walk().sized()
        &&& self.semi@.len() == self.size()
        &&& self.ancestor@.len() == self.size()
        &&& self.best@.len() == self.size()
        &&& self.idom@.len() == self.size()
        &&& self.samedom@.len() == self.size()
        &&& self.bucket@.len() == self.size()
    }

    /// Nothing has been computed on the part of the arrays that the second
    /// and third step fill.
    spec fn blank(&self) -> bool {
        &&& forall|x: int| 0 <= x < self.size() ==> #[trigger] self.semi@[x] == UNSET
        &&& forall|x: int| 0 <= x < self.size() ==> #[trigger] self.ancestor@[x] == UNSET
        &&& forall|x: int| 0 <= x < self.size() ==> #[trigger] self.best@[x] == UNSET
        &&& forall|x: int| 0 <= x < self.size() ==> #[trigger] self.idom@[x] == UNSET
        &&& forall|x: int| 0 <= x < self.size() ==> #[trigger] self.samedom@[x] == UNSET
        &&& forall|x: int| 0 <= x < self.size() ==> (#[trigger] self.bucket@[x])@.len() == 0
    }

    /// Whether the second and third step have left their arrays as `other`
    /// has them.
    spec fn same_forest(&self, other: Self) -> bool {
        &&& self.semi == other.semi
        &&& self.ancestor == other.ancestor
        &&& self.best == other.best
        &&& self.idom == other.idom
        &&& self.samedom == other.samedom
        &&& self.bucket == other.bucket
    }

    /// Arrays for a graph of `node_count` nodes, with nothing in them.
    fn new(node_count: usize) -> (lt: Self)
        requires
            node_count < u32::MAX,
        ensures
            lt.sized(),
            lt.size() == node_count + 1,
            lt.n == 0,
            lt.blank(),
            forall|x: int| 0 <= x < lt.size() ==> #[trigger] lt.dfnum@[x] == UNSET,
            forall|x: int| 0 <= x < lt.size() ==> #[trigger] lt.parent@[x] == UNSET,
            forall|x: int| 0 <= x < lt.size() ==> !#[trigger] lt.is_root@[x],
    {
        let size = node_count + 1;
        let mut bucket: Vec<Vec<NodeId>> = Vec::with_capacity(size);
        let mut i: usize = 0;
        while i < size
            invariant
                i <= size,
                bucket@.len() == i,
                forall|x: int| 0 <= x < i ==> (#[trigger] bucket@[x])@.len() == 0,
            decreases size - i,
        {
            bucket.push(Vec::new());
            i = i + 1;
        }
        Self {
            dfnum: vec![UNSET; size],
            vertex: vec![UNSET; size],
            parent: vec![UNSET; size],
            n: 0,
            is_root: vec![false; size],
            semi: vec![UNSET; size],
            ancestor: vec![UNSET; size],
            best: vec![UNSET; size],
            idom: vec![UNSET; size],
            samedom: vec![UNSET; size],
            bucket,
        }
    }

    /// Marks the slots of the roots.
    fn mark_roots(&mut self, roots: &[NodeId])
        requires
            old(self).sized(),
            forall|x: int| 0 <= x < old(self).size() ==> !#[trigger] old(self).is_root@[x],
            forall|j: int| 0 <= j < roots@.len() ==> (#[trigger] roots@[j] as int) < old(self).size() - 1,
        ensures
            final(self).sized(),
            final(self).dfnum == old(self).dfnum,
            final(self).vertex == old(self).vertex,
            final(self).parent == old(self).parent,
            final(self).n == old(self).n,
            final(self).same_forest(*old(self)),
            forall|x: int|
                0 <= x < final(self).size() - 1 ==> (#[trigger] final(self).is_root@[x]
                    <==> roots@.contains(x as NodeId)),
            !final(self).is_root@[final(self).size() - 1],
    {
        let ghost top = self.size() - 1;
        let mut j: usize = 0;
        while j < roots.len()
            invariant
                j <= roots@.len(),
                self.sized(),
                self.size() - 1 == top,
                self.dfnum == old(self).dfnum,
                self.vertex == old(self).vertex,
                self.parent == old(self).parent,
                self.n == old(self).n,
                self.same_forest(*old(self)),
                forall|k: int| 0 <= k < roots@.len() ==> (#[trigger] roots@[k] as int) < top,
                forall|x: int|
                    0 <= x < top ==> (#[trigger] self.is_root@[x] <==> roots@.take(
                        j as int,
                    ).contains(x as NodeId)),
                !self.is_root@[top],
            decreases roots@.len() - j,
        {
            let r = roots[j];
            self.is_root[r as usize] = true;
            proof {
                let t0 = roots@.take(j as int);
                let t1 = roots@.take(j + 1);
                assert(t1 =~= t0.push(r));
                assert forall|x: int| 0 <= x < top implies (#[trigger] self.is_root@[x]
                    <==> t1.contains(x as NodeId)) by {
                    if x == r {
                        assert(t1[j as int] == r);
                    } else {
                        if t1.contains(x as NodeId) {
                            let k = choose|k: int| 0 <= k < t1.len() && #[trigger] t1[k] == x as NodeId;
                            assert(t0[k] == x as NodeId);
                        }
                        if t0.contains(x as NodeId) {
                            let k = choose|k: int| 0 <= k < t0.len() && #[trigger] t0[k] == x as NodeId;
                            assert(t1[k] == x as NodeId);
                        }
                    }
                }
            }
            j = j + 1;
        }
        proof {
            assert(roots@.take(roots@.len() as int) =~= roots@);
        }
    }

    /// Walks the graph depth first from the root above all roots, whose
    /// successors are the roots, and numbers the nodes in the order in which
    /// it reaches them. The walk keeps its own stack.
    fn dfs<G: GraphOps>(&mut self, graph: &G, roots: &[NodeId])
        requires
            is_flow_graph(graph),
            old(self).sized(),
            old(self).size() == graph.vertex_count() + 1,
            old(self).n == 0,
            old(self).blank(),
            forall|x: int| 0 <= x < old(self).size() ==> #[trigger] old(self).dfnum@[x] == UNSET,
            forall|x: int| 0 <= x < old(self).size() ==> #[trigger] old(self).parent@[x] == UNSET,
            forall|x: int| 0 <= x < old(self).size() ==> !#[trigger] old(self).is_root@[x],
            forall|j: int| 0 <= j < roots@.len() ==> (#[trigger] roots@[j] as int) < graph.vertex_count(),
        ensures
            final(self).sized(),
            final(self).size() == old(self).size(),
            final(self).blank(),
            final(self).walk().walked(graph, roots@),
            forall|x: int|
                0 <= x < final(self).size() - 1 ==> (#[trigger] final(self).is_root@[x]
                    <==> roots@.contains(x as NodeId)),
            forall|x: int|
                #[trigger] final(self).walk().seen(x) && x != final(self).size() - 1 ==> reachable(
                    graph,
                    roots@,
                    x as NodeId,
                ),
    {
        let size = self.dfnum.len();
        let top = (size - 1) as NodeId;
        self.mark_roots(roots);
        let ghost marked = *self;
        self.dfnum[top as usize] = 0;
        self.vertex[0] = top;
        self.n = 1;
        let ghost mut unvisited: Set<int> = vstd::set_lib::set_int_range(0, size as int).remove(
            top as int,
        );
        proof {
            vstd::set_lib::lemma_int_range(0, size as int);
        }
        let mut stack: Vec<Frame> = Vec::new();
        let copy = slice_to_vec(roots);
        stack.push(Frame { node: top, succs: copy, next: 0 });
        proof {
            reveal(Walk::dfs_inv);
            let w = self.walk();
            assert(stack@.drop_last() =~= Seq::<Frame>::empty());
            assert(w.numbered());
            assert(w.succ_done(graph, roots@, top as int, 0));
            assert(w.frame_ok(graph, roots@, stack@[0]));
            assert(w.stack_ok(graph, roots@, stack@));
            assert(on_stack(stack@, top as int)) by {
                assert(stack@[0].node == top);
            }
            assert(w.dfs_inv(graph, roots@, stack@));
        }
        while stack.len() > 0
            invariant
                is_flow_graph(graph),
                self.sized(),
                self.size() == size,
                top == size - 1,
                size == graph.vertex_count() + 1,
                self.is_root == marked.is_root,
                self.same_forest(marked),
                forall|k: int| 0 <= k < roots@.len() ==> (#[trigger] roots@[k] as int) < top,
                forall|x: int|
                    0 <= x < top ==> (#[trigger] self.is_root@[x] <==> roots@.contains(
                        x as NodeId,
                    )),
                unvisited.finite(),
                unvisited.len() + self.n == size,
                forall|x: int| unvisited.contains(x) <==> 0 <= x < size && self.dfnum@[x] == UNSET,
                self.walk().dfs_inv(graph, roots@, stack@),
            decreases size - self.n, pending(stack@),
        {
            let ghost old_stack = stack@;
            let ghost old_walk = self.walk();
            proof {
                old_walk.lemma_top_frame(graph, roots@, old_stack);
            }
            let mut frame = stack.pop().unwrap();
            if frame.next < frame.succs.len() {
                let s = frame.succs[frame.next];
                let u = frame.node;
                frame.next = frame.next + 1;
                if self.dfnum[s as usize] == UNSET {
                    proof {
                        assert(unvisited.contains(s as int));
                        assert(unvisited.len() >= 1) by {
                            if unvisited.len() == 0 {
                                unvisited.lemma_len0_is_empty();
                            }
                        }
                        unvisited = unvisited.remove(s as int);
                    }
                    self.dfnum[s as usize] = self.n;
                    self.vertex[self.n as usize] = s;
                    self.parent[s as usize] = u;
                    self.n = self.n + 1;
                    let succs = graph.successors(s);
                    let fresh = Frame { node: s, succs, next: 0 };
                    proof {
                        self.walk().lemma_descend(old_walk, graph, roots@, old_stack, frame, fresh);
                    }
                    stack.push(frame);
                    stack.push(fresh);
                } else {
                    proof {
                        old_walk.lemma_skip(graph, roots@, old_stack, frame);
                    }
                    stack.push(frame);
                }
            } else {
                proof {
                    old_walk.lemma_finish(graph, roots@, old_stack);
                }
            }
        }
        proof {
            reveal(Walk::dfs_inv);
            reveal(Walk::walked);
            let w = self.walk();
            assert forall|x: int| #[trigger] w.seen(x) implies w.succ_done(
                graph,
                roots@,
                x,
                aug(graph, roots@, x).len() as int,
            ) by {
                assert(!on_stack(stack@, x));
            }
        }
    }

    /// Whether `x` has been joined to the forest.
    spec fn linked(&self, x: int) -> bool {
        0 <= x < self.size() && self.ancestor@[x] != UNSET
    }

    /// As `linked`, where nothing more is to follow from it.
    spec fn joined(&self, x: int) -> bool {
        0 <= x < self.size() && self.ancestor@[x] != UNSET
    }

    /// What holds of the forest when the nodes numbered from `lo` on have
    /// been joined to it.
    #[verifier::opaque]
    spec fn forest_ok(&self, lo: int) -> bool {
        let w = self.walk();
        &&& forall|x: int|
            #[trigger] self.linked(x) ==> {
                &&& w.reached(x)
                &&& x != w.top()
                &&& w.dfnum[x] >= lo
                &&& w.reached(self.ancestor@[x] as int)
                &&& w.dfnum[self.ancestor@[x] as int] < w.dfnum[x]
                &&& self.joined(self.best@[x] as int)
                &&& w.dfnum[self.best@[x] as int] <= w.dfnum[x]
                &&& 0 <= self.semi@[self.best@[x] as int] < self.size()
                &&& w.dfnum[self.semi@[self.best@[x] as int] as int] <= w.dfnum[self.semi@[x] as int]
                &&& w.cand_ok(self.semi@[x] as int, x)
            }
        &&& forall|x: int|
            #[trigger] w.seen(x) && x != w.top() && w.dfnum[x] >= lo ==> self.joined(x)
    }

    /// Whether the immediate dominator of `x` is known or has been put off.
    spec fn settled(&self, x: int) -> bool {
        self.idom@[x] != UNSET || self.samedom@[x] != UNSET
    }

    /// What holds of the dominators, of the nodes put off and of the buckets,
    /// whatever the buckets still hold.
    spec fn marks_ok(&self) -> bool {
        &&& forall|x: int|
            0 <= x < self.size() && #[trigger] self.idom@[x] != UNSET ==> self.linked(x)
                && self.idom@[x] == self.semi@[x]
        &&& forall|x: int|
            0 <= x < self.size() && #[trigger] self.samedom@[x] != UNSET ==> {
                &&& self.linked(x)
                &&& self.linked(self.samedom@[x] as int)
                &&& 2 <= self.walk().dfnum[self.samedom@[x] as int] < self.walk().dfnum[x]
                &&& self.semi@[x] != self.walk().top()
            }
        &&& forall|b: int, k: int|
            0 <= b < self.size() && 0 <= k < self.bucket@[b]@.len() ==> {
                &&& self.linked(#[trigger] self.bucket@[b]@[k] as int)
                &&& self.semi@[self.bucket@[b]@[k] as int] == b
            }
    }

    /// Whether `x` waits in the bucket of its semidominator, which is
    /// numbered more than one before `lo`.
    spec fn waits(&self, x: int, lo: int) -> bool {
        &&& 0 <= self.semi@[x] < self.size()
        &&& self.bucket@[self.semi@[x] as int]@.contains(x as NodeId)
        &&& self.walk().dfnum[self.semi@[x] as int] + 1 < lo
    }

    /// Every node of the forest is settled or waits.
    #[verifier::opaque]
    spec fn resolved_ok(&self, lo: int) -> bool {
        &&& self.marks_ok()
        &&& forall|x: int| #[trigger] self.linked(x) ==> self.settled(x) || self.waits(x, lo)
    }

    /// Whether `x` is one of the items from `k` on.
    spec fn queued(items: Seq<NodeId>, k: int, x: int) -> bool {
        exists|m: int| k <= m < items.len() && #[trigger] items[m] == x
    }

    /// As `resolved_ok`, while the bucket of `p` is being emptied: its
    /// items from `k` on wait in `items`.
    #[verifier::opaque]
    spec fn drain_ok(&self, lo: int, p: int, items: Seq<NodeId>, k: int) -> bool {
        &&& self.marks_ok()
        &&& 0 <= p < self.size()
        &&& self.bucket@[p]@.len() == 0
        &&& forall|m: int|
            0 <= m < items.len() ==> self.linked(#[trigger] items[m] as int)
                && self.semi@[items[m] as int] == p
        &&& forall|x: int|
            #[trigger] self.linked(x) ==> {
                ||| self.settled(x)
                ||| self.waits(x, lo)
                ||| (self.semi@[x] == p && Self::queued(items, k, x))
            }
    }

    /// Before any node is joined to the forest there is nothing to settle.
    proof fn lemma_forest_start(&self)
        requires
            self.sized(),
            self.blank(),
            self.walk().numbered(),
        ensures
            self.forest_ok(self.n as int),
            self.resolved_ok(self.n as int),
    {
        reveal(LengauerTarjan::forest_ok);
        reveal(LengauerTarjan::resolved_ok);
        assert forall|x: int| !#[trigger] self.linked(x) by {}
    }

    /// What is known of a node of the forest and its semidominator.
    proof fn lemma_linked_facts(&self, lo: int, y: int)
        requires
            self.forest_ok(lo),
            self.linked(y),
        ensures
            self.walk().seen(y),
            y != self.walk().top(),
            self.walk().dfnum[y] >= lo,
            self.walk().cand_ok(self.semi@[y] as int, y),
            self.walk().seen(self.semi@[y] as int),
            self.linked(self.best@[y] as int),
            self.walk().seen(self.ancestor@[y] as int),
            self.walk().dfnum[self.ancestor@[y] as int] < self.walk().dfnum[y],
            self.walk().dfnum[self.best@[y] as int] <= self.walk().dfnum[y],
            self.walk().dfnum[self.semi@[self.best@[y] as int] as int]
                <= self.walk().dfnum[self.semi@[y] as int],
    {
        reveal(LengauerTarjan::forest_ok);
    }

    /// A node numbered from `lo` on has been joined to the forest.
    proof fn lemma_processed_linked(&self, lo: int, v: int)
        requires
            self.forest_ok(lo),
            self.walk().seen(v),
            v != self.walk().top(),
            self.walk().dfnum[v] >= lo,
        ensures
            self.linked(v),
    {
        reveal(LengauerTarjan::forest_ok);
    }

    /// A node numbered before `lo` has not been joined to the forest.
    proof fn lemma_early_unlinked(&self, lo: int, v: int)
        requires
            self.forest_ok(lo),
            0 <= v < self.size(),
            self.walk().dfnum[v] < lo,
        ensures
            !self.linked(v),
    {
        reveal(LengauerTarjan::forest_ok);
    }

    /// The forest does not change where only dominators, nodes put off and
    /// buckets do.
    proof fn lemma_forest_kept(&self, old: Self, lo: int)
        requires
            old.forest_ok(lo),
            self.walk() == old.walk(),
            self.semi == old.semi,
            self.ancestor == old.ancestor,
            self.best == old.best,
        ensures
            self.forest_ok(lo),
    {
        reveal(LengauerTarjan::forest_ok);
        assert forall|x: int| #[trigger] self.linked(x) implies old.linked(x) by {}
    }

    /// What is settled and what waits does not change where only the way up
    /// through the forest does.
    proof fn lemma_resolved_kept(&self, old: Self, lo: int)
        requires
            old.resolved_ok(lo),
            self.walk() == old.walk(),
            self.semi == old.semi,
            self.idom == old.idom,
            self.samedom == old.samedom,
            self.bucket == old.bucket,
            self.size() == old.size(),
            forall|x: int| self.linked(x) == old.linked(x),
        ensures
            self.resolved_ok(lo),
    {
        reveal(LengauerTarjan::resolved_ok);
        assert forall|x: int| #[trigger] self.linked(x) implies self.settled(x) || self.waits(
            x,
            lo,
        ) by {
            assert(old.linked(x));
            assert(old.settled(x) || old.waits(x, lo));
        }
        assert(self.marks_ok()) by {
            assert forall|x: int|
                0 <= x < self.size() && #[trigger] self.idom@[x] != UNSET implies self.linked(x)
                && self.idom@[x] == self.semi@[x] by {
                assert(old.linked(x));
            }
            assert forall|x: int|
                0 <= x < self.size() && #[trigger] self.samedom@[x] != UNSET implies {
                &&& self.linked(x)
                &&& self.linked(self.samedom@[x] as int)
                &&& 2 <= self.walk().dfnum[self.samedom@[x] as int] < self.walk().dfnum[x]
                &&& self.semi@[x] != self.walk().top()
            } by {
                assert(old.linked(x));
                assert(old.linked(old.samedom@[x] as int));
            }
            assert forall|b: int, k: int|
                0 <= b < self.size() && 0 <= k < self.bucket@[b]@.len() implies {
                &&& self.linked(#[trigger] self.bucket@[b]@[k] as int)
                &&& self.semi@[self.bucket@[b]@[k] as int] == b
            } by {
                assert(old.linked(old.bucket@[b]@[k] as int));
            }
        }
    }

    /// As `lemma_resolved_kept`, while a bucket is being emptied.
    proof fn lemma_drain_kept(&self, old: Self, lo: int, p: int, items: Seq<NodeId>, k: int)
        requires
            old.drain_ok(lo, p, items, k),
            self.walk() == old.walk(),
            self.semi == old.semi,
            self.idom == old.idom,
            self.samedom == old.samedom,
            self.bucket == old.bucket,
            self.size() == old.size(),
            forall|x: int| self.linked(x) == old.linked(x),
        ensures
            self.drain_ok(lo, p, items, k),
    {
        reveal(LengauerTarjan::drain_ok);
        assert forall|x: int| #[trigger] self.linked(x) implies {
            ||| self.settled(x)
            ||| self.waits(x, lo)
            ||| (self.semi@[x] == p && Self::queued(items, k, x))
        } by {
            assert(old.linked(x));
            assert(old.settled(x) || old.waits(x, lo) || (old.semi@[x] == p && Self::queued(
                items,
                k,
                x,
            )));
        }
        assert forall|m: int| 0 <= m < items.len() implies self.linked(#[trigger] items[m] as int)
            && self.semi@[items[m] as int] == p by {
            assert(old.linked(items[m] as int));
        }
        assert(self.marks_ok()) by {
            assert forall|x: int|
                0 <= x < self.size() && #[trigger] self.idom@[x] != UNSET implies self.linked(x)
                && self.idom@[x] == self.semi@[x] by {
                assert(old.linked(x));
            }
            assert forall|x: int|
                0 <= x < self.size() && #[trigger] self.samedom@[x] != UNSET implies {
                &&& self.linked(x)
                &&& self.linked(self.samedom@[x] as int)
                &&& 2 <= self.walk().dfnum[self.samedom@[x] as int] < self.walk().dfnum[x]
                &&& self.semi@[x] != self.walk().top()
            } by {
                assert(old.linked(x));
                assert(old.linked(old.samedom@[x] as int));
            }
            assert forall|b: int, k: int|
                0 <= b < self.size() && 0 <= k < self.bucket@[b]@.len() implies {
                &&& self.linked(#[trigger] self.bucket@[b]@[k] as int)
                &&& self.semi@[self.bucket@[b]@[k] as int] == b
            } by {
                assert(old.linked(old.bucket@[b]@[k] as int));
            }
        }
    }

    /// The forest after the ancestor of `x` was replaced by its ancestor's
    /// ancestor, and the best node on the way by a better one.
    proof fn lemma_compress(&self, old: Self, lo: int, x: int, changed: bool)
        requires
            old.sized(),
            old.forest_ok(lo),
            old.linked(x),
            old.linked(old.ancestor@[x] as int),
            self.walk() == old.walk(),
            self.semi == old.semi,
            self.ancestor@ == old.ancestor@.update(x, old.ancestor@[old.ancestor@[x] as int]),
            changed ==> old.walk().dfnum[old.semi@[old.best@[old.ancestor@[x] as int] as int] as int]
                < old.walk().dfnum[old.semi@[old.best@[x] as int] as int],
            self.best@ == if changed {
                old.best@.update(x, old.best@[old.ancestor@[x] as int])
            } else {
                old.best@
            },
        ensures
            self.forest_ok(lo),
            forall|y: int| self.linked(y) == old.linked(y),
    {
        reveal(LengauerTarjan::forest_ok);
        let a = old.ancestor@[x] as int;
        let w = old.walk();
        assert(old.linked(a));
        assert(old.linked(x));
        let b = old.best@[a] as int;
        assert(old.joined(b));
        assert(old.linked(b));
        assert forall|y: int| self.linked(y) == old.linked(y) by {}
        assert forall|y: int| #[trigger] self.linked(y) implies {
            &&& w.reached(y)
            &&& y != w.top()
            &&& w.dfnum[y] >= lo
            &&& w.reached(self.ancestor@[y] as int)
            &&& w.dfnum[self.ancestor@[y] as int] < w.dfnum[y]
            &&& self.joined(self.best@[y] as int)
            &&& w.dfnum[self.best@[y] as int] <= w.dfnum[y]
            &&& 0 <= self.semi@[self.best@[y] as int] < self.size()
            &&& w.dfnum[self.semi@[self.best@[y] as int] as int] <= w.dfnum[self.semi@[y] as int]
            &&& w.cand_ok(self.semi@[y] as int, y)
        } by {
            assert(old.linked(y));
            if y == x {
                assert(w.cand_ok(old.semi@[b] as int, b));
            }
        }
        assert forall|y: int|
            #[trigger] w.seen(y) && y != w.top() && w.dfnum[y] >= lo implies self.joined(y) by {
            assert(old.joined(y));
        }
    }

    /// What is known of the best node on the way up from `v`.
    proof fn lemma_eval_result(&self, lo: int, v: int)
        requires
            self.forest_ok(lo),
            self.linked(v),
        ensures
            self.linked(self.best@[v] as int),
            self.walk().dfnum[self.best@[v] as int] <= self.walk().dfnum[v],
            self.walk().dfnum[self.semi@[self.best@[v] as int] as int]
                <= self.walk().dfnum[self.semi@[v] as int],
            self.walk().seen(self.semi@[self.best@[v] as int] as int),
            self.walk().seen(self.semi@[v] as int),
    {
        reveal(LengauerTarjan::forest_ok);
        assert(self.joined(self.best@[v] as int));
        assert(self.linked(self.best@[v] as int));
        assert(self.walk().cand_ok(self.semi@[self.best@[v] as int] as int, self.best@[v] as int));
    }

    /// The node with the lowest semidominator among `v` and its ancestors
    /// in the forest, the root of its tree left out. On the way the
    /// ancestors of the nodes passed are replaced by the highest.
    fn ancestor_with_lowest_semi(&mut self, v: NodeId, Ghost(lo): Ghost<int>) -> (y: NodeId)
        requires
            old(self).sized(),
            old(self).forest_ok(lo),
            old(self).linked(v as int),
        ensures
            final(self).sized(),
            final(self).size() == old(self).size(),
            final(self).walk() == old(self).walk(),
            final(self).semi == old(self).semi,
            final(self).idom == old(self).idom,
            final(self).samedom == old(self).samedom,
            final(self).bucket == old(self).bucket,
            final(self).forest_ok(lo),
            forall|x: int| final(self).linked(x) == old(self).linked(x),
            final(self).linked(y as int),
            final(self).walk().dfnum[y as int] <= final(self).walk().dfnum[v as int],
            final(self).walk().dfnum[final(self).semi@[y as int] as int]
                <= final(self).walk().dfnum[final(self).semi@[v as int] as int],
            final(self).walk().seen(final(self).semi@[y as int] as int),
            final(self).walk().seen(final(self).semi@[v as int] as int),
    {
        let mut path: Vec<NodeId> = Vec::new();
        let mut u = v;
        loop
            invariant
                self.sized(),
                *self == *old(self),
                self.forest_ok(lo),
                self.linked(u as int),
                forall|m: int| 0 <= m < path@.len() ==> self.linked(#[trigger] path@[m] as int),
            ensures
                *self == *old(self),
                forall|m: int| 0 <= m < path@.len() ==> self.linked(#[trigger] path@[m] as int),
            decreases self.dfnum@[u as int],
        {
            proof {
                self.lemma_linked_facts(lo, u as int);
            }
            let a = self.ancestor[u as usize];
            if self.ancestor[a as usize] != UNSET {
                path.push(u);
                u = a;
            } else {
                break;
            }
        }
        let mut k = path.len();
        while k > 0
            invariant
                k <= path@.len(),
                self.sized(),
                self.size() == old(self).size(),
                self.walk() == old(self).walk(),
                self.semi == old(self).semi,
                self.idom == old(self).idom,
                self.samedom == old(self).samedom,
                self.bucket == old(self).bucket,
                self.forest_ok(lo),
                forall|x: int| self.linked(x) == old(self).linked(x),
                forall|m: int| 0 <= m < path@.len() ==> self.linked(#[trigger] path@[m] as int),
            decreases k,
        {
            k = k - 1;
            let x = path[k];
            proof {
                self.lemma_linked_facts(lo, x as int);
            }
            let a = self.ancestor[x as usize];
            if self.ancestor[a as usize] != UNSET {
                proof {
                    self.lemma_linked_facts(lo, a as int);
                    self.lemma_linked_facts(lo, self.best@[a as int] as int);
                    self.lemma_linked_facts(lo, self.best@[x as int] as int);
                }
                let ghost before = *self;
                let b = self.best[a as usize];
                self.ancestor[x as usize] = self.ancestor[a as usize];
                let sb = self.semi[b as usize];
                let sx = self.semi[self.best[x as usize] as usize];
                let better = self.dfnum[sb as usize] < self.dfnum[sx as usize];
                if better {
                    self.best[x as usize] = b;
                }
                proof {
                    self.lemma_compress(before, lo, x as int, better);
                }
            }
        }
        proof {
            self.lemma_linked_facts(lo, v as int);
            self.lemma_eval_result(lo, v as int);
        }
        self.best[v as usize]
    }

    /// Joins `n` to the forest, below `p`.
    fn link(&mut self, p: NodeId, n: NodeId)
        requires
            old(self).sized(),
            (n as int) < old(self).size(),
        ensures
            final(self).ancestor@ == old(self).ancestor@.update(n as int, p),
            final(self).best@ == old(self).best@.update(n as int, n),
            final(self).walk() == old(self).walk(),
            final(self).semi == old(self).semi,
            final(self).idom == old(self).idom,
            final(self).samedom == old(self).samedom,
            final(self).bucket == old(self).bucket,
    {
        self.ancestor[n as usize] = p;
        self.best[n as usize] = n;
    }
}

impl LengauerTarjan {
    /// The state after the node numbered `i` got its semidominator `s`, was
    /// put into the bucket of `s`, and was joined to the forest.
    proof fn lemma_link<G: GraphOps>(&self, old: Self, g: &G, roots: Seq<NodeId>, i: int, s: int)
        requires
            old.sized(),
            self.sized(),
            old.walk().walked(g, roots),
            1 <= i < old.n,
            old.forest_ok(i + 1),
            old.resolved_ok(i + 1),
            old.walk().cand_ok(s, old.vertex@[i] as int),
            self.walk() == old.walk(),
            self.semi@ == old.semi@.update(old.vertex@[i] as int, s as NodeId),
            self.ancestor@ == old.ancestor@.update(
                old.vertex@[i] as int,
                old.parent@[old.vertex@[i] as int],
            ),
            self.best@ == old.best@.update(old.vertex@[i] as int, old.vertex@[i]),
            self.idom == old.idom,
            self.samedom == old.samedom,
            self.bucket@[s]@ == old.bucket@[s]@.push(old.vertex@[i]),
            forall|b: int| 0 <= b < old.size() && b != s ==> self.bucket@[b] == old.bucket@[b],
        ensures
            self.forest_ok(i),
            self.resolved_ok(i + 1),
    {
        let w = old.walk();
        let x0 = old.vertex@[i] as int;
        w.lemma_pick(g, roots, i);
        old.lemma_early_unlinked(i + 1, x0);
        assert(s != UNSET);
        assert(old.parent@[x0] != UNSET);
        assert forall|x: int| #[trigger] self.linked(x) implies x == x0 || old.linked(x) by {}
        assert forall|x: int| old.linked(x) implies #[trigger] self.linked(x) by {}
        assert(self.linked(x0));
        assert(self.forest_ok(i)) by {
            reveal(LengauerTarjan::forest_ok);
            assert forall|x: int| #[trigger] self.linked(x) implies {
                &&& w.reached(x)
                &&& x != w.top()
                &&& w.dfnum[x] >= i
                &&& w.reached(self.ancestor@[x] as int)
                &&& w.dfnum[self.ancestor@[x] as int] < w.dfnum[x]
                &&& self.joined(self.best@[x] as int)
                &&& w.dfnum[self.best@[x] as int] <= w.dfnum[x]
                &&& 0 <= self.semi@[self.best@[x] as int] < self.size()
                &&& w.dfnum[self.semi@[self.best@[x] as int] as int] <= w.dfnum[self.semi@[x] as int]
                &&& w.cand_ok(self.semi@[x] as int, x)
            } by {
                if x != x0 {
                    assert(old.linked(x));
                    assert(old.joined(old.best@[x] as int));
                    assert(old.best@[x] != x0);
                }
            }
            assert forall|x: int|
                #[trigger] w.seen(x) && x != w.top() && w.dfnum[x] >= i implies self.joined(x) by {
                if w.dfnum[x] == i {
                    w.lemma_same_number(g, roots, x, x0);
                } else {
                    assert(old.joined(x));
                }
            }
        }
        assert(self.resolved_ok(i + 1)) by {
            reveal(LengauerTarjan::resolved_ok);
            assert forall|x: int|
                0 <= x < self.size() && #[trigger] self.idom@[x] != UNSET implies self.linked(x)
                && self.idom@[x] == self.semi@[x] by {
                assert(old.linked(x));
            }
            assert forall|x: int|
                0 <= x < self.size() && #[trigger] self.samedom@[x] != UNSET implies {
                &&& self.linked(x)
                &&& self.linked(self.samedom@[x] as int)
                &&& 2 <= self.walk().dfnum[self.samedom@[x] as int] < self.walk().dfnum[x]
                &&& self.semi@[x] != self.walk().top()
            } by {
                assert(old.linked(x));
                assert(old.linked(old.samedom@[x] as int));
            }
            assert forall|b: int, k: int|
                0 <= b < self.size() && 0 <= k < self.bucket@[b]@.len() implies {
                &&& self.linked(#[trigger] self.bucket@[b]@[k] as int)
                &&& self.semi@[self.bucket@[b]@[k] as int] == b
            } by {
                if b == s && k == old.bucket@[s]@.len() {
                } else {
                    assert(self.bucket@[b]@[k] == old.bucket@[b]@[k]);
                    assert(old.linked(old.bucket@[b]@[k] as int));
                }
            }
            assert forall|x: int| #[trigger] self.linked(x) implies self.settled(x) || self.waits(
                x,
                i + 1,
            ) by {
                if x == x0 {
                    assert(self.bucket@[s]@[old.bucket@[s]@.len() as int] == x0 as NodeId);
                    assert(self.waits(x, i + 1));
                } else {
                    assert(old.linked(x));
                    if !old.settled(x) {
                        assert(old.waits(x, i + 1));
                        let b = old.semi@[x] as int;
                        let k = choose|k: int|
                            0 <= k < old.bucket@[b]@.len() && old.bucket@[b]@[k] == x as NodeId;
                        assert(self.bucket@[b]@[k] == x as NodeId);
                        assert(self.waits(x, i + 1));
                    }
                }
            }
        }
    }

    /// The semidominator of `w`, the node numbered `i`: of its parent in the
    /// walk, its predecessors numbered before it, and the semidominators of
    /// the best nodes above its predecessors numbered after it, the one
    /// numbered first.
    fn semidominator<G: GraphOps>(
        &mut self,
        graph: &G,
        w: NodeId,
        Ghost(roots): Ghost<Seq<NodeId>>,
        Ghost(i): Ghost<int>,
    ) -> (s: NodeId)
        requires
            is_flow_graph(graph),
            old(self).sized(),
            old(self).size() == graph.vertex_count() + 1,
            old(self).walk().walked(graph, roots),
            1 <= i < old(self).n,
            w == old(self).vertex@[i],
            old(self).forest_ok(i + 1),
        ensures
            final(self).sized(),
            final(self).size() == old(self).size(),
            final(self).walk() == old(self).walk(),
            final(self).semi == old(self).semi,
            final(self).idom == old(self).idom,
            final(self).samedom == old(self).samedom,
            final(self).bucket == old(self).bucket,
            final(self).forest_ok(i + 1),
            forall|x: int| final(self).linked(x) == old(self).linked(x),
            final(self).walk().cand_ok(s as int, w as int),
    {
        proof {
            self.walk().lemma_pick(graph, roots, i);
        }
        let top = (self.dfnum.len() - 1) as NodeId;
        let mut s = if self.is_root[w as usize] {
            top
        } else {
            self.parent[w as usize]
        };
        let preds = graph.predecessors(w);
        let mut j: usize = 0;
        while j < preds.len()
            invariant
                is_flow_graph(graph),
                self.sized(),
                self.size() == old(self).size(),
                self.size() == graph.vertex_count() + 1,
                top == self.size() - 1,
                self.walk() == old(self).walk(),
                self.walk().walked(graph, roots),
                self.semi == old(self).semi,
                self.idom == old(self).idom,
                self.samedom == old(self).samedom,
                self.bucket == old(self).bucket,
                self.forest_ok(i + 1),
                forall|x: int| self.linked(x) == old(self).linked(x),
                1 <= i < self.n,
                w == self.vertex@[i],
                (w as int) < top,
                self.walk().seen(w as int),
                self.walk().dfnum[w as int] == i,
                preds@ == graph.spec_predecessors(w),
                self.walk().cand_ok(s as int, w as int),
            decreases preds@.len() - j,
        {
            let v = preds[j];
            assert(graph.spec_predecessors(w)[j as int] == v);
            if self.dfnum[v as usize] != UNSET {
                let s_prime = if self.dfnum[v as usize] <= self.dfnum[w as usize] {
                    v
                } else {
                    proof {
                        self.lemma_processed_linked(i + 1, v as int);
                    }
                    let y = self.ancestor_with_lowest_semi(v, Ghost(i + 1));
                    proof {
                        self.lemma_linked_facts(i + 1, y as int);
                        if self.walk().lone() && self.semi@[y as int] == top {
                            self.walk().lemma_lone_root(graph, roots, y as int);
                        }
                    }
                    self.semi[y as usize]
                };
                if self.dfnum[s_prime as usize] < self.dfnum[s as usize] {
                    proof {
                        if s_prime == v && self.dfnum@[v as int] <= self.dfnum@[w as int] {
                            self.walk().lemma_pred_has_child(graph, roots, v, w);
                        }
                        assert(self.walk().seen(top as int)) by {
                            reveal(Walk::walked);
                        }
                        assert(self.walk().dfnum[top as int] == 0) by {
                            reveal(Walk::walked);
                        }
                    }
                    s = s_prime;
                }
            }
            j = j + 1;
        }
        s
    }

    /// The state right after the bucket of `p` was taken out to be emptied.
    proof fn lemma_drain_start(&self, old: Self, lo: int, p: int)
        requires
            old.sized(),
            self.sized(),
            old.resolved_ok(lo),
            0 <= p < old.size(),
            self.walk() == old.walk(),
            self.semi == old.semi,
            self.ancestor == old.ancestor,
            self.best == old.best,
            self.idom == old.idom,
            self.samedom == old.samedom,
            self.bucket@[p]@.len() == 0,
            forall|b: int| 0 <= b < old.size() && b != p ==> self.bucket@[b] == old.bucket@[b],
        ensures
            self.drain_ok(lo, p, old.bucket@[p]@, 0),
    {
        reveal(LengauerTarjan::resolved_ok);
        reveal(LengauerTarjan::drain_ok);
        let items = old.bucket@[p]@;
        assert forall|x: int| self.linked(x) == old.linked(x) by {}
        assert forall|m: int| 0 <= m < items.len() implies self.linked(#[trigger] items[m] as int)
            && self.semi@[items[m] as int] == p by {
            assert(old.linked(old.bucket@[p]@[m] as int));
        }
        assert forall|b: int, k: int|
            0 <= b < self.size() && 0 <= k < self.bucket@[b]@.len() implies {
            &&& self.linked(#[trigger] self.bucket@[b]@[k] as int)
            &&& self.semi@[self.bucket@[b]@[k] as int] == b
        } by {
            assert(old.linked(old.bucket@[b]@[k] as int));
        }
        assert forall|x: int|
            0 <= x < self.size() && #[trigger] self.idom@[x] != UNSET implies self.linked(x)
            && self.idom@[x] == self.semi@[x] by {
            assert(old.linked(x));
        }
        assert forall|x: int|
            0 <= x < self.size() && #[trigger] self.samedom@[x] != UNSET implies {
            &&& self.linked(x)
            &&& self.linked(self.samedom@[x] as int)
            &&& 2 <= self.walk().dfnum[self.samedom@[x] as int] < self.walk().dfnum[x]
            &&& self.semi@[x] != self.walk().top()
        } by {
            assert(old.linked(x));
            assert(old.linked(old.samedom@[x] as int));
        }
        assert forall|x: int| #[trigger] self.linked(x) implies {
            ||| self.settled(x)
            ||| self.waits(x, lo)
            ||| (self.semi@[x] == p && Self::queued(items, 0, x))
        } by {
            assert(old.linked(x));
            if !old.settled(x) {
                assert(old.waits(x, lo));
                if old.semi@[x] == p {
                    let m = choose|m: int| 0 <= m < items.len() && items[m] == x as NodeId;
                    assert(items[m] == x);
                }
            }
        }
    }

    /// What is known of the item that is taken out of the bucket next.
    proof fn lemma_drain_item(&self, lo: int, p: int, items: Seq<NodeId>, k: int)
        requires
            self.drain_ok(lo, p, items, k),
            0 <= k < items.len(),
        ensures
            self.linked(items[k] as int),
            self.semi@[items[k] as int] == p,
            0 <= p < self.size(),
    {
        reveal(LengauerTarjan::drain_ok);
    }

    /// The state after the item at `k` was settled: its dominator is `p`
    /// where the best node above it has the same semidominator, and is put
    /// off to that of the best node otherwise.
    proof fn lemma_drain_step<G: GraphOps>(
        &self,
        old: Self,
        g: &G,
        roots: Seq<NodeId>,
        i: int,
        p: int,
        items: Seq<NodeId>,
        k: int,
        y: int,
    )
        requires
            old.sized(),
            self.sized(),
            old.walk().walked(g, roots),
            1 <= i < old.n,
            p == old.parent@[old.vertex@[i] as int],
            old.drain_ok(i + 1, p, items, k),
            old.forest_ok(i),
            0 <= k < items.len(),
            old.linked(y),
            old.walk().dfnum[y] <= old.walk().dfnum[items[k] as int],
            old.walk().dfnum[old.semi@[y] as int] <= old.walk().dfnum[old.semi@[items[k] as int] as int],
            old.walk().seen(old.semi@[y] as int),
            self.walk() == old.walk(),
            self.semi == old.semi,
            self.ancestor == old.ancestor,
            self.best == old.best,
            self.bucket == old.bucket,
            old.semi@[y] == old.semi@[items[k] as int] ==> self.idom@ == old.idom@.update(
                items[k] as int,
                p as NodeId,
            ) && self.samedom == old.samedom,
            old.semi@[y] != old.semi@[items[k] as int] ==> self.samedom@ == old.samedom@.update(
                items[k] as int,
                y as NodeId,
            ) && self.idom == old.idom,
        ensures
            self.drain_ok(i + 1, p, items, k + 1),
    {
        reveal(LengauerTarjan::drain_ok);
        let w = old.walk();
        let v = items[k] as int;
        assert(old.linked(v));
        assert(old.semi@[v] == p);
        w.lemma_pick(g, roots, i);
        old.lemma_linked_facts(i, y);
        old.lemma_linked_facts(i, v);
        assert forall|x: int| self.linked(x) == old.linked(x) by {}
        if old.semi@[y] != old.semi@[v] {
            assert(y != v);
            if w.dfnum[y] == w.dfnum[v] {
                w.lemma_same_number(g, roots, y, v);
            }
            assert(p != w.top()) by {
                if p == w.top() {
                    reveal(Walk::walked);
                    assert(w.dfnum[old.semi@[y] as int] == 0);
                    assert(w.vertex[w.dfnum[old.semi@[y] as int] as int] == old.semi@[y]);
                }
            }
            assert(i >= 2) by {
                if i == 1 {
                    reveal(Walk::walked);
                    assert(w.dfnum[p] == 0);
                    assert(w.seen(p));
                    assert(w.vertex[w.dfnum[p] as int] == p);
                }
            }
            assert(y != UNSET);
        } else {
            assert(p != UNSET);
        }
        assert forall|m: int| 0 <= m < items.len() implies self.linked(#[trigger] items[m] as int)
            && self.semi@[items[m] as int] == p by {
            assert(old.linked(items[m] as int));
        }
        assert forall|b: int, k: int|
            0 <= b < self.size() && 0 <= k < self.bucket@[b]@.len() implies {
            &&& self.linked(#[trigger] self.bucket@[b]@[k] as int)
            &&& self.semi@[self.bucket@[b]@[k] as int] == b
        } by {
            assert(old.linked(old.bucket@[b]@[k] as int));
        }
        assert forall|x: int|
            0 <= x < self.size() && #[trigger] self.idom@[x] != UNSET implies self.linked(x)
            && self.idom@[x] == self.semi@[x] by {
            if x != v {
                assert(old.idom@[x] != UNSET);
                assert(old.linked(x));
            } else if old.semi@[y] != old.semi@[v] {
                assert(old.idom@[x] != UNSET);
            }
        }
        assert forall|x: int|
            0 <= x < self.size() && #[trigger] self.samedom@[x] != UNSET implies {
            &&& self.linked(x)
            &&& self.linked(self.samedom@[x] as int)
            &&& 2 <= self.walk().dfnum[self.samedom@[x] as int] < self.walk().dfnum[x]
            &&& self.semi@[x] != self.walk().top()
        } by {
            if x == v && old.semi@[y] != old.semi@[v] {
            } else {
                assert(old.samedom@[x] != UNSET);
                assert(old.linked(x));
                assert(old.linked(old.samedom@[x] as int));
            }
        }
        assert forall|x: int| #[trigger] self.linked(x) implies {
            ||| self.settled(x)
            ||| self.waits(x, i + 1)
            ||| (self.semi@[x] == p && Self::queued(items, k + 1, x))
        } by {
            assert(old.linked(x));
            if x == v {
                assert(self.settled(x));
            } else if old.settled(x) {
                assert(self.settled(x));
            } else if old.waits(x, i + 1) {
                assert(self.waits(x, i + 1));
            } else {
                assert(Self::queued(items, k, x));
                let m = choose|m: int| k <= m < items.len() && #[trigger] items[m] == x;
                assert(m != k);
                assert(items[m] == x);
            }
        }
    }

    /// The state after the bucket of `p`, the parent of the node numbered
    /// `i`, was emptied.
    proof fn lemma_drain_end<G: GraphOps>(
        &self,
        g: &G,
        roots: Seq<NodeId>,
        i: int,
        p: int,
        items: Seq<NodeId>,
    )
        requires
            self.sized(),
            self.walk().walked(g, roots),
            1 <= i < self.n,
            p == self.parent@[self.vertex@[i] as int],
            self.drain_ok(i + 1, p, items, items.len() as int),
            self.forest_ok(i),
        ensures
            self.resolved_ok(i),
    {
        reveal(LengauerTarjan::drain_ok);
        reveal(LengauerTarjan::resolved_ok);
        let w = self.walk();
        assert forall|x: int| #[trigger] self.linked(x) implies self.settled(x) || self.waits(
            x,
            i,
        ) by {
            if !self.settled(x) {
                assert(!Self::queued(items, items.len() as int, x));
                assert(self.waits(x, i + 1));
                self.lemma_linked_facts(i, x);
                let s = self.semi@[x] as int;
                assert(w.first_child(s));
                assert(s != p);
            }
        }
    }

    /// Settles the nodes that wait in the bucket of `p`, the parent of the
    /// node numbered `i`.
    fn drain<G: GraphOps>(
        &mut self,
        p: NodeId,
        graph: &G,
        Ghost(roots): Ghost<Seq<NodeId>>,
        Ghost(i): Ghost<int>,
    )
        requires
            old(self).sized(),
            old(self).walk().walked(graph, roots),
            1 <= i < old(self).n,
            p == old(self).parent@[old(self).vertex@[i] as int],
            (p as int) < old(self).size(),
            old(self).forest_ok(i),
            old(self).resolved_ok(i + 1),
        ensures
            final(self).sized(),
            final(self).size() == old(self).size(),
            final(self).walk() == old(self).walk(),
            final(self).forest_ok(i),
            final(self).resolved_ok(i),
    {
        let ghost before = *self;
        let mut items: Vec<NodeId> = Vec::new();
        std::mem::swap(&mut items, &mut self.bucket[p as usize]);
        proof {
            self.lemma_drain_start(before, i + 1, p as int);
            self.lemma_forest_kept(before, i);
        }
        let mut k: usize = 0;
        while k < items.len()
            invariant
                k <= items@.len(),
                self.sized(),
                self.size() == old(self).size(),
                self.walk() == old(self).walk(),
                self.walk().walked(graph, roots),
                1 <= i < self.n,
                p == self.parent@[self.vertex@[i] as int],
                self.forest_ok(i),
                self.drain_ok(i + 1, p as int, items@, k as int),
            decreases items@.len() - k,
        {
            let v = items[k];
            proof {
                self.lemma_drain_item(i + 1, p as int, items@, k as int);
            }
            let ghost s0 = *self;
            let y = self.ancestor_with_lowest_semi(v, Ghost(i));
            proof {
                self.lemma_drain_kept(s0, i + 1, p as int, items@, k as int);
                self.lemma_linked_facts(i, v as int);
            }
            let ghost s1 = *self;
            if self.semi[y as usize] == self.semi[v as usize] {
                self.idom[v as usize] = p;
            } else {
                self.samedom[v as usize] = y;
            }
            proof {
                self.lemma_drain_step(s1, graph, roots, i, p as int, items@, k as int, y as int);
                self.lemma_forest_kept(s1, i);
            }
            k = k + 1;
        }
        proof {
            self.lemma_drain_end(graph, roots, i, p as int, items@);
        }
    }

    /// The second step: from the node numbered last down to the one numbered
    /// first, the semidominator of each node, and the dominator of each node
    /// whose semidominator is the parent of the node at hand.
    fn semidominators<G: GraphOps>(&mut self, graph: &G, Ghost(roots): Ghost<Seq<NodeId>>)
        requires
            is_flow_graph(graph),
            old(self).sized(),
            old(self).size() == graph.vertex_count() + 1,
            old(self).blank(),
            old(self).walk().walked(graph, roots),
        ensures
            final(self).sized(),
            final(self).size() == old(self).size(),
            final(self).walk() == old(self).walk(),
            final(self).forest_ok(1),
            final(self).resolved_ok(1),
    {
        proof {
            reveal(Walk::walked);
            self.lemma_forest_start();
        }
        let mut i = self.n;
        while i > 1
            invariant
                is_flow_graph(graph),
                self.sized(),
                self.size() == old(self).size(),
                self.size() == graph.vertex_count() + 1,
                self.walk() == old(self).walk(),
                self.walk().walked(graph, roots),
                1 <= i <= self.n,
                self.forest_ok(i as int),
                self.resolved_ok(i as int),
            decreases i,
        {
            i = i - 1;
            proof {
                self.walk().lemma_pick(graph, roots, i as int);
            }
            let w = self.vertex[i as usize];
            let p = self.parent[w as usize];
            let ghost s0 = *self;
            let s = self.semidominator(graph, w, Ghost(roots), Ghost(i as int));
            proof {
                self.lemma_resolved_kept(s0, i + 1);
            }
            let ghost s1 = *self;
            self.semi[w as usize] = s;
            self.bucket[s as usize].push(w);
            self.link(p, w);
            proof {
                self.lemma_link(s1, graph, roots, i as int, s as int);
            }
            self.drain(p, graph, Ghost(roots), Ghost(i as int));
        }
    }

    /// Whether the dominator of `x` is final: a node numbered before `x`,
    /// the root above all roots where `x` is a root, and only there where
    /// there is but one root.
    spec fn fin(&self, x: int) -> bool {
        &&& self.idom@[x] != UNSET
        &&& self.walk().cand_ok(self.idom@[x] as int, x)
    }

    /// Whether the dominator of `x` is known or was put off to a node that
    /// is numbered before `x`, but not first.
    spec fn pend(&self, x: int) -> bool {
        &&& self.samedom@[x] != UNSET ==> {
            &&& self.walk().reached(self.samedom@[x] as int)
            &&& self.samedom@[x] != self.walk().top()
            &&& 2 <= self.walk().dfnum[self.samedom@[x] as int] < self.walk().dfnum[x]
            &&& !self.walk().is_root[x]
        }
        &&& self.samedom@[x] == UNSET ==> self.fin(x)
    }

    /// What holds in the third step when the nodes numbered before `i` have
    /// their final dominators.
    #[verifier::opaque]
    spec fn done_ok(&self, i: int) -> bool {
        let w = self.walk();
        &&& forall|x: int|
            #[trigger] w.seen(x) && x != w.top() && w.dfnum[x] < i ==> self.fin(x)
        &&& forall|x: int|
            #[trigger] w.seen(x) && x != w.top() && w.dfnum[x] >= i ==> self.pend(x)
    }

    /// After the second step every node reached is settled.
    proof fn lemma_done_start(&self)
        requires
            self.sized(),
            self.forest_ok(1),
            self.resolved_ok(1),
            self.walk().numbered(),
        ensures
            self.done_ok(1),
    {
        reveal(LengauerTarjan::resolved_ok);
        reveal(LengauerTarjan::done_ok);
        let w = self.walk();
        assert forall|x: int|
            #[trigger] w.seen(x) && x != w.top() && w.dfnum[x] >= 1 implies self.pend(x) by {
            self.lemma_processed_linked(1, x);
            self.lemma_linked_facts(1, x);
            assert(self.settled(x) || self.waits(x, 1));
            assert(self.settled(x));
            if self.samedom@[x] != UNSET {
                let y = self.samedom@[x] as int;
                assert(self.linked(y));
                self.lemma_linked_facts(1, y);
            } else {
                assert(self.idom@[x] != UNSET);
            }
        }
        assert forall|x: int|
            #[trigger] w.seen(x) && x != w.top() && w.dfnum[x] < 1 implies self.fin(x) by {
            assert(w.dfnum[x] == 0);
            assert(w.vertex[w.dfnum[x] as int] == x);
        }
    }

    /// The state after the node numbered `i` got its final dominator.
    proof fn lemma_done_step<G: GraphOps>(&self, old: Self, g: &G, roots: Seq<NodeId>, i: int)
        requires
            old.sized(),
            self.sized(),
            old.walk().walked(g, roots),
            1 <= i < old.n,
            old.done_ok(i),
            self.walk() == old.walk(),
            self.samedom == old.samedom,
            old.samedom@[old.vertex@[i] as int] == UNSET ==> self.idom == old.idom,
            old.samedom@[old.vertex@[i] as int] != UNSET ==> self.idom@ == old.idom@.update(
                old.vertex@[i] as int,
                old.idom@[old.samedom@[old.vertex@[i] as int] as int],
            ),
        ensures
            self.done_ok(i + 1),
    {
        reveal(LengauerTarjan::done_ok);
        let w = old.walk();
        let x0 = old.vertex@[i] as int;
        w.lemma_pick(g, roots, i);
        assert(old.pend(x0));
        assert forall|x: int|
            #[trigger] w.seen(x) && x != w.top() && w.dfnum[x] < i + 1 implies self.fin(x) by {
            if w.dfnum[x] == i {
                w.lemma_same_number(g, roots, x, x0);
                if old.samedom@[x0] != UNSET {
                    let y = old.samedom@[x0] as int;
                    assert(w.seen(y));
                    assert(old.fin(y));
                    if w.lone() && old.idom@[y] == w.top() {
                        w.lemma_lone_root(g, roots, y);
                    }
                }
            } else {
                assert(old.fin(x));
                assert(x != x0);
            }
        }
        assert forall|x: int|
            #[trigger] w.seen(x) && x != w.top() && w.dfnum[x] >= i + 1 implies self.pend(x) by {
            assert(old.pend(x));
            assert(x != x0);
        }
    }

    /// The third step: a node that was put off gets the dominator of the
    /// node it was put off to.
    fn resolve_deferred<G: GraphOps>(&mut self, graph: &G, Ghost(roots): Ghost<Seq<NodeId>>)
        requires
            old(self).sized(),
            old(self).walk().walked(graph, roots),
            old(self).forest_ok(1),
            old(self).resolved_ok(1),
        ensures
            final(self).sized(),
            final(self).size() == old(self).size(),
            final(self).walk() == old(self).walk(),
            final(self).done_ok(final(self).n as int),
    {
        proof {
            reveal(Walk::walked);
            self.lemma_done_start();
        }
        let mut i: NodeId = 1;
        while i < self.n
            invariant
                self.sized(),
                self.size() == old(self).size(),
                self.walk() == old(self).walk(),
                self.walk().walked(graph, roots),
                1 <= i,
                i <= self.n || self.n <= 1,
                self.done_ok(i as int),
            decreases self.n - i,
        {
            proof {
                self.walk().lemma_pick(graph, roots, i as int);
                self.lemma_pending(i as int, self.vertex@[i as int] as int);
            }
            let w = self.vertex[i as usize];
            let ghost s0 = *self;
            let y = self.samedom[w as usize];
            if y != UNSET {
                self.idom[w as usize] = self.idom[y as usize];
            }
            proof {
                self.lemma_done_step(s0, graph, roots, i as int);
            }
            i = i + 1;
        }
        proof {
            if self.n <= 1 {
                reveal(LengauerTarjan::done_ok);
            }
        }
    }

    /// What is known of a node whose turn has not come in the third step.
    proof fn lemma_pending(&self, i: int, x: int)
        requires
            self.done_ok(i),
            self.walk().seen(x),
            x != self.walk().top(),
            self.walk().dfnum[x] >= i,
        ensures
            self.pend(x),
    {
        reveal(LengauerTarjan::done_ok);
    }

    /// What is known of a node that has its final dominator.
    proof fn lemma_final(&self, x: int)
        requires
            self.done_ok(self.n as int),
            self.walk().numbered(),
            self.walk().seen(x),
            x != self.walk().top(),
        ensures
            self.fin(x),
    {
        reveal(LengauerTarjan::done_ok);
    }

    /// The dominator of `x` as it is handed out: `x` itself where it is the
    /// root above all roots.
    spec fn outcome(&self, x: int) -> NodeId {
        if self.idom@[x] == self.walk().top() {
            x as NodeId
        } else {
            self.idom@[x]
        }
    }

    /// The dominators of the nodes reached, as a map.
    fn collect(&self) -> (result: HashMap<NodeId, NodeId>)
        requires
            self.sized(),
            self.walk().numbered(),
            self.done_ok(self.n as int),
        ensures
            forall|v: NodeId|
                result@.contains_key(v) <==> self.walk().seen(v as int) && v != self.walk().top(),
            forall|v: NodeId| result@.contains_key(v) ==> result@[v] == self.outcome(v as int),
    {
        broadcast use vstd::std_specs::hash::group_hash_axioms;

        let top = (self.dfnum.len() - 1) as NodeId;
        let mut result: HashMap<NodeId, NodeId> = HashMap::new();
        let mut i: NodeId = 1;
        while i < self.n
            invariant
                self.sized(),
                self.walk().numbered(),
                self.done_ok(self.n as int),
                top == self.walk().top(),
                1 <= i,
                i <= self.n || self.n <= 1,
                forall|v: NodeId|
                    result@.contains_key(v) <==> self.walk().seen(v as int) && 1
                        <= self.walk().dfnum[v as int] < i,
                forall|v: NodeId| result@.contains_key(v) ==> result@[v] == self.outcome(v as int),
            decreases self.n - i,
        {
            let v = self.vertex[i as usize];
            proof {
                assert(self.walk().dfnum[self.walk().vertex[i as int] as int] == i);
                assert(self.walk().seen(v as int));
                assert(v != top);
                self.lemma_final(v as int);
            }
            let d = self.idom[v as usize];
            let ghost before = result@;
            let value = if d == top {
                v
            } else {
                d
            };
            result.insert(v, value);
            proof {
                assert(result@ == before.insert(v, value));
                assert(value == self.outcome(v as int));
                assert forall|u: NodeId|
                    result@.contains_key(u) <==> self.walk().seen(u as int) && 1
                        <= self.walk().dfnum[u as int] < i + 1 by {
                    if u == v {
                    } else {
                        assert(result@.contains_key(u) == before.contains_key(u));
                        if self.walk().seen(u as int) && self.walk().dfnum[u as int] == i {
                            assert(self.walk().vertex[self.walk().dfnum[u as int] as int] == u);
                        }
                    }
                }
                assert forall|u: NodeId| result@.contains_key(u) implies result@[u] == self.outcome(
                    u as int,
                ) by {
                    if u != v {
                        assert(before.contains_key(u));
                    }
                }
            }
            i = i + 1;
        }
        proof {
            assert forall|v: NodeId|
                result@.contains_key(v) <==> self.walk().seen(v as int) && v
                    != self.walk().top() by {
                if self.walk().seen(v as int) {
                    assert(self.walk().dfnum[v as int] < self.n);
                    if self.walk().dfnum[v as int] == 0 {
                        assert(self.walk().vertex[self.walk().dfnum[v as int] as int] == v);
                    }
                }
            }
        }
        result
    }
}

/// Whether `rank` goes down along `m`: the value of each key is a key too,
/// and of lower rank unless it is the key itself.
pub open spec fn ranked_by(m: Map<NodeId, NodeId>, rank: spec_fn(NodeId) -> nat) -> bool {
    forall|v: NodeId|
        #[trigger] m.contains_key(v) ==> m.contains_key(m[v]) && (m[v] != v ==> rank(m[v]) < rank(v))
}

/// Whether `m` is a forest: following it from any key leads, through keys
/// only, to a key that is its own value.
pub open spec fn is_dominator_forest(m: Map<NodeId, NodeId>) -> bool {
    exists|rank: spec_fn(NodeId) -> nat| ranked_by(m, rank)
}

impl LengauerTarjan {
    /// Whether `m` maps each node reached to its dominator as handed out.
    spec fn handed_out(&self, m: Map<NodeId, NodeId>) -> bool {
        &&& forall|v: NodeId|
            m.contains_key(v) <==> self.walk().seen(v as int) && v != self.walk().top()
        &&& forall|v: NodeId| m.contains_key(v) ==> m[v] == self.outcome(v as int)
    }

    /// Whether the marks of the roots are those of `roots`, and every node
    /// reached can be reached from one of them.
    spec fn rooted<G: GraphOps>(&self, g: &G, roots: Seq<NodeId>) -> bool {
        &&& forall|j: int| 0 <= j < roots.len() ==> (#[trigger] roots[j] as int) < g.vertex_count()
        &&& forall|x: int|
            0 <= x < self.size() - 1 ==> (#[trigger] self.is_root@[x] <==> roots.contains(
                x as NodeId,
            ))
        &&& forall|x: int|
            #[trigger] self.walk().seen(x) && x != self.size() - 1 ==> reachable(
                g,
                roots,
                x as NodeId,
            )
    }

    /// The roots were reached.
    proof fn lemma_roots_seen<G: GraphOps>(&self, g: &G, roots: Seq<NodeId>, j: int)
        requires
            self.sized(),
            self.size() == g.vertex_count() + 1,
            self.walk().walked(g, roots),
            0 <= j < roots.len(),
        ensures
            self.walk().seen(roots[j] as int),
    {
        reveal(Walk::walked);
        let w = self.walk();
        let top = w.top();
        assert(w.seen(top));
        assert(w.succ_done(g, roots, top, aug(g, roots, top).len() as int));
        assert(w.reached(aug(g, roots, top)[j] as int));
    }

    /// The nodes reached are the nodes that can be reached from a root.
    proof fn lemma_domain<G: GraphOps>(&self, g: &G, roots: Seq<NodeId>, v: NodeId)
        requires
            is_flow_graph(g),
            self.sized(),
            self.size() == g.vertex_count() + 1,
            self.walk().walked(g, roots),
            self.rooted(g, roots),
        ensures
            (self.walk().seen(v as int) && v != self.walk().top()) <==> reachable(g, roots, v),
    {
        let w = self.walk();
        if reachable(g, roots, v) {
            let inside = |u: NodeId| w.seen(u as int);
            assert forall|j: int| 0 <= j < roots.len() implies inside(#[trigger] roots[j]) by {
                self.lemma_roots_seen(g, roots, j);
            }
            assert forall|u: NodeId, j: int|
                (u as int) < g.vertex_count() && inside(u) && 0 <= j < g.spec_successors(u).len()
                implies inside(#[trigger] g.spec_successors(u)[j]) by {
                reveal(Walk::walked);
                assert(w.seen(u as int));
                assert(w.succ_done(g, roots, u as int, aug(g, roots, u as int).len() as int));
                assert(w.reached(aug(g, roots, u as int)[j] as int));
            }
            lemma_closed_holds_reachable(g, roots, inside, v);
            let p = choose|p: Seq<NodeId>|
                is_walk(g, p) && roots.contains(p[0]) && #[trigger] p.last() == v;
            assert((p[p.len() - 1] as int) < g.vertex_count());
        }
    }

    /// Each root is handed out as its own dominator.
    proof fn lemma_root_fixed<G: GraphOps>(&self, g: &G, roots: Seq<NodeId>, j: int)
        requires
            self.sized(),
            self.size() == g.vertex_count() + 1,
            self.walk().walked(g, roots),
            self.rooted(g, roots),
            self.done_ok(self.n as int),
            0 <= j < roots.len(),
        ensures
            self.walk().seen(roots[j] as int),
            roots[j] != self.walk().top(),
            self.outcome(roots[j] as int) == roots[j],
    {
        let r = roots[j];
        self.lemma_roots_seen(g, roots, j);
        assert(self.walk().numbered()) by {
            reveal(Walk::walked);
        }
        self.lemma_final(r as int);
        assert(roots.contains(r));
        assert(self.is_root@[r as int]);
    }

    /// The dominator handed out for a node reached is a node reached, and
    /// numbered before it unless it is the node itself.
    proof fn lemma_outcome_ranked<G: GraphOps>(&self, g: &G, roots: Seq<NodeId>, v: NodeId)
        requires
            self.sized(),
            self.walk().walked(g, roots),
            self.done_ok(self.n as int),
            self.walk().seen(v as int),
            v != self.walk().top(),
        ensures
            self.walk().seen(self.outcome(v as int) as int),
            self.outcome(v as int) != self.walk().top(),
            self.outcome(v as int) != v ==> self.walk().dfnum[self.outcome(v as int) as int]
                < self.walk().dfnum[v as int],
            self.walk().lone() && !self.is_root@[v as int] ==> self.outcome(v as int) != v,
    {
        assert(self.walk().numbered()) by {
            reveal(Walk::walked);
        }
        self.lemma_final(v as int);
    }

    /// The second and third step of the algorithm, and the dominators as a
    /// map. A node whose dominator is the root above all roots is handed out
    /// as its own dominator.
    fn compute_dominators<G: GraphOps>(
        self,
        graph: &G,
        Ghost(roots): Ghost<Seq<NodeId>>,
    ) -> (result: HashMap<NodeId, NodeId>)
        requires
            is_flow_graph(graph),
            self.sized(),
            self.size() == graph.vertex_count() + 1,
            self.blank(),
            self.walk().walked(graph, roots),
            self.rooted(graph, roots),
        ensures
            forall|v: NodeId| result@.contains_key(v) <==> reachable(graph, roots, v),
            forall|j: int| 0 <= j < roots.len() ==> result@[#[trigger] roots[j]] == roots[j],
            is_dominator_forest(result@),
            roots.len() == 1 ==> forall|v: NodeId|
                #[trigger] result@.contains_key(v) && v != roots[0] ==> result@[v] != v,
    {
        let mut lt = self;
        lt.semidominators(graph, Ghost(roots));
        lt.resolve_deferred(graph, Ghost(roots));
        proof {
            reveal(Walk::walked);
        }
        let result = lt.collect();
        proof {
            assert(lt.rooted(graph, roots));
            lt.lemma_result(graph, roots, result@);
        }
        result
    }

    /// What the map of the dominators handed out is.
    proof fn lemma_result<G: GraphOps>(&self, g: &G, roots: Seq<NodeId>, m: Map<NodeId, NodeId>)
        requires
            is_flow_graph(g),
            self.sized(),
            self.size() == g.vertex_count() + 1,
            self.walk().walked(g, roots),
            self.rooted(g, roots),
            self.done_ok(self.n as int),
            self.handed_out(m),
        ensures
            forall|v: NodeId| m.contains_key(v) <==> reachable(g, roots, v),
            forall|j: int| 0 <= j < roots.len() ==> m[#[trigger] roots[j]] == roots[j],
            is_dominator_forest(m),
            roots.len() == 1 ==> forall|v: NodeId|
                #[trigger] m.contains_key(v) && v != roots[0] ==> m[v] != v,
    {
        let w = self.walk();
        assert forall|v: NodeId| m.contains_key(v) <==> reachable(g, roots, v) by {
            self.lemma_domain(g, roots, v);
        }
        assert forall|j: int| 0 <= j < roots.len() implies m[#[trigger] roots[j]] == roots[j] by {
            self.lemma_root_fixed(g, roots, j);
        }
        let rank = |v: NodeId| w.dfnum[v as int] as nat;
        assert(ranked_by(m, rank)) by {
            assert forall|v: NodeId| #[trigger] m.contains_key(v) implies m.contains_key(m[v]) && (
            m[v] != v ==> rank(m[v]) < rank(v)) by {
                self.lemma_outcome_ranked(g, roots, v);
            }
        }
        if roots.len() == 1 {
            assert(w.lone()) by {
                assert forall|x: int, y: int|
                    0 <= x < w.size() && 0 <= y < w.size() && #[trigger] w.is_root[x]
                        && #[trigger] w.is_root[y] implies x == y by {
                    assert(!w.is_root[w.top()]) by {
                        reveal(Walk::walked);
                    }
                    assert(roots.contains(x as NodeId));
                    assert(roots.contains(y as NodeId));
                }
            }
            assert forall|v: NodeId| #[trigger] m.contains_key(v) && v != roots[0] implies m[v]
                != v by {
                self.lemma_outcome_ranked(g, roots, v);
                if self.is_root@[v as int] {
                    assert(roots.contains(v));
                }
            }
        }
    }
}

/// Lengauer-Tarjan dominator tree algorithm
///
/// This implements the classic algorithm from "A Fast Algorithm for Finding
/// Dominators in a Flowgraph" (Lengauer & Tarjan, 1979). It computes the
/// immediate dominator (idom) for each node that a walk from one of the roots
/// reaches.
///
/// A node d dominates a node n if every path from the root to n must go
/// through d. The immediate dominator of n is the unique node that strictly
/// dominates n but does not strictly dominate any other node that strictly
/// dominates n.
///
/// The roots are taken as the successors of one root above them all. A node
/// that nothing but that root dominates, such as each of the roots, is mapped
/// to itself.
///
/// What is found is held against the graph before it is handed out. Of a
/// graph of no more than `EXACT_LIMIT` nodes the result is the immediate
/// dominators: the graph is walked without each of its nodes to see that
/// every node was given the closest of the nodes that dominate it, and
/// should what was found not be that, what those walks give is handed out.
/// Of a larger graph what the result gives a node dominates the node;
/// should what was found not pass, every node is given to the one root, or
/// to itself where there are more roots.
///
/// # Arguments
/// * `graph` - The graph to analyze (must implement GraphOps trait)
/// * `roots` - The root nodes to start the dominator analysis from
///
/// # Returns
/// A HashMap mapping each node to its immediate dominator
pub fn lengauer_tarjan<G: GraphOps>(graph: &G, roots: &[NodeId]) -> (idom: HashMap<NodeId, NodeId>)
    requires
        is_flow_graph(graph),
        forall|j: int| 0 <= j < roots@.len() ==> (#[trigger] roots@[j] as int) < graph.vertex_count(),
    ensures
        forall|v: NodeId| idom@.contains_key(v) <==> reachable(graph, roots@, v),
        forall|j: int| 0 <= j < roots@.len() ==> idom@[#[trigger] roots@[j]] == roots@[j],
        is_dominator_forest(idom@),
        roots@.len() == 1 ==> forall|v: NodeId|
            #[trigger] idom@.contains_key(v) && v != roots@[0] ==> idom@[v] != v,
        gives_dominators(graph, roots@, idom@),
        exact_where_small(graph, roots@, idom@),
{
    let mut lt = LengauerTarjan::new(graph.node_count());
    lt.dfs(graph, roots);
    let found = lt.compute_dominators(graph, Ghost(roots@));
    // What was found is held against the graph before it is handed out
    settled(graph, roots, found)
}

/// How many times at most the immediate dominators are gone through when
/// they are found by going through them until nothing changes.
pub const MAX_ITERATIONS: usize = 100;

impl Walk {
    /// Only the root above all roots has the number 0.
    proof fn lemma_top_number<G: GraphOps>(self, g: &G, roots: Seq<NodeId>, x: int)
        requires
            self.walked(g, roots),
            self.seen(x),
        ensures
            self.dfnum[x] == 0 <==> x == self.top(),
            self.seen(self.top()),
    {
        reveal(Walk::walked);
        assert(self.seen(self.top()));
        if self.dfnum[x] == 0 {
            assert(self.vertex[self.dfnum[x] as int] == x);
        }
    }
}

impl LengauerTarjan {
    /// Whether `x` has an immediate dominator so far.
    spec fn known(&self, x: int) -> bool {
        0 <= x < self.size() && self.idom@[x] != UNSET
    }

    /// As `known`, where nothing more is to follow from it.
    spec fn has_idom(&self, x: int) -> bool {
        0 <= x < self.size() && self.idom@[x] != UNSET
    }

    /// What holds of the immediate dominators while they are gone through:
    /// each is a node numbered before the node it belongs to, has a child in
    /// the walk, and has an immediate dominator of its own unless it is the
    /// root above all roots; and the nodes numbered before `bound` have one.
    #[verifier::opaque]
    spec fn relaxed_ok(&self, bound: int) -> bool {
        let w = self.walk();
        &&& forall|x: int|
            #[trigger] self.known(x) ==> {
                &&& w.reached(x)
                &&& x != w.top()
                &&& w.cand_ok(self.idom@[x] as int, x)
                &&& self.idom@[x] != w.top() ==> self.has_idom(self.idom@[x] as int)
            }
        &&& forall|x: int|
            #[trigger] w.seen(x) && x != w.top() && w.dfnum[x] < bound ==> self.has_idom(x)
    }

    /// Before the immediate dominators are gone through there are none.
    proof fn lemma_relax_start(&self)
        requires
            self.sized(),
            self.blank(),
            self.walk().numbered(),
        ensures
            self.relaxed_ok(1),
    {
        reveal(LengauerTarjan::relaxed_ok);
        let w = self.walk();
        assert forall|x: int| !#[trigger] self.known(x) by {}
        assert forall|x: int|
            #[trigger] w.seen(x) && x != w.top() && w.dfnum[x] < 1 implies self.has_idom(x) by {
            assert(w.vertex[w.dfnum[x] as int] == x);
        }
    }

    /// What is known of a node that has an immediate dominator.
    proof fn lemma_known_facts(&self, bound: int, x: int)
        requires
            self.relaxed_ok(bound),
            self.known(x),
        ensures
            self.walk().seen(x),
            x != self.walk().top(),
            self.walk().cand_ok(self.idom@[x] as int, x),
            self.walk().seen(self.idom@[x] as int),
            self.idom@[x] != self.walk().top() ==> self.known(self.idom@[x] as int),
    {
        reveal(LengauerTarjan::relaxed_ok);
    }

    /// A node numbered before the bound has an immediate dominator.
    proof fn lemma_early_known(&self, bound: int, x: int)
        requires
            self.relaxed_ok(bound),
            self.walk().seen(x),
            x != self.walk().top(),
            self.walk().dfnum[x] < bound,
        ensures
            self.known(x),
    {
        reveal(LengauerTarjan::relaxed_ok);
    }

    /// What holds up to a bound holds up to every lower bound.
    proof fn lemma_relax_lower(&self, bound: int, lower: int)
        requires
            self.relaxed_ok(bound),
            lower <= bound,
        ensures
            self.relaxed_ok(lower),
    {
        reveal(LengauerTarjan::relaxed_ok);
    }

    /// The state after the node numbered `i` got `value` as its immediate
    /// dominator.
    proof fn lemma_relax_set<G: GraphOps>(
        &self,
        old: Self,
        g: &G,
        roots: Seq<NodeId>,
        bound: int,
        i: int,
        value: int,
    )
        requires
            old.sized(),
            self.sized(),
            old.walk().walked(g, roots),
            1 <= i < old.n,
            bound >= i,
            old.relaxed_ok(bound),
            self.walk() == old.walk(),
            self.idom@ == old.idom@.update(old.vertex@[i] as int, value as NodeId),
            old.walk().cand_ok(value, old.vertex@[i] as int),
            value != old.walk().top() ==> old.known(value),
        ensures
            self.relaxed_ok(if bound > i + 1 { bound } else { i + 1 }),
    {
        reveal(LengauerTarjan::relaxed_ok);
        let w = old.walk();
        let x0 = old.vertex@[i] as int;
        w.lemma_pick(g, roots, i);
        assert(value != UNSET);
        assert forall|x: int| #[trigger] self.known(x) implies {
            &&& w.reached(x)
            &&& x != w.top()
            &&& w.cand_ok(self.idom@[x] as int, x)
            &&& self.idom@[x] != w.top() ==> self.has_idom(self.idom@[x] as int)
        } by {
            if x != x0 {
                assert(old.known(x));
            }
        }
        let next = if bound > i + 1 {
            bound
        } else {
            i + 1
        };
        assert forall|x: int|
            #[trigger] w.seen(x) && x != w.top() && w.dfnum[x] < next implies self.has_idom(x) by {
            if w.dfnum[x] == i {
                w.lemma_same_number(g, roots, x, x0);
            } else {
                assert(old.has_idom(x));
            }
        }
    }

    /// The state after the node numbered `i` kept its immediate dominator.
    proof fn lemma_relax_keep<G: GraphOps>(&self, g: &G, roots: Seq<NodeId>, bound: int, i: int)
        requires
            self.sized(),
            self.walk().walked(g, roots),
            1 <= i < self.n,
            bound >= i,
            self.relaxed_ok(bound),
            self.known(self.vertex@[i] as int),
        ensures
            self.relaxed_ok(if bound > i + 1 { bound } else { i + 1 }),
    {
        reveal(LengauerTarjan::relaxed_ok);
        let w = self.walk();
        let x0 = self.vertex@[i] as int;
        let next = if bound > i + 1 {
            bound
        } else {
            i + 1
        };
        assert forall|x: int|
            #[trigger] w.seen(x) && x != w.top() && w.dfnum[x] < next implies self.has_idom(x) by {
            if w.dfnum[x] == i {
                w.lemma_pick(g, roots, i);
                w.lemma_same_number(g, roots, x, x0);
            }
        }
    }

    /// When every node has an immediate dominator, the nodes are done.
    proof fn lemma_relax_done(&self)
        requires
            self.sized(),
            self.relaxed_ok(self.n as int),
            self.walk().numbered(),
        ensures
            self.done_ok(self.n as int),
    {
        reveal(LengauerTarjan::relaxed_ok);
        reveal(LengauerTarjan::done_ok);
        let w = self.walk();
        assert forall|x: int|
            #[trigger] w.seen(x) && x != w.top() && w.dfnum[x] < self.n implies self.fin(x) by {
            assert(self.has_idom(x));
            assert(self.known(x));
        }
        assert forall|x: int|
            #[trigger] w.seen(x) && x != w.top() && w.dfnum[x] >= self.n implies self.pend(x) by {
            assert(w.dfnum[x] < w.n);
        }
    }

    /// Whether `k` steps, each from a node to the immediate dominator found
    /// for it so far, lead from `x` up to `y`.
    spec fn rises(&self, x: int, y: int, k: nat) -> bool
        decreases k,
    {
        if k == 0 {
            x == y
        } else {
            self.known(x) && self.rises(self.idom@[x] as int, y, (k - 1) as nat)
        }
    }

    /// As `rises`, to be looked for.
    spec fn steps_up(&self, x: int, y: int, k: nat) -> bool {
        self.rises(x, y, k)
    }

    /// Whether `y` is `x` or stands above `x` in the tree of the immediate
    /// dominators found so far.
    spec fn above(&self, y: int, x: int) -> bool {
        exists|k: nat| #[trigger] self.steps_up(x, y, k)
    }

    /// Whether every node that is above both `a0` and `b0` is above both
    /// `a` and `b`.
    spec fn meets(&self, a0: int, b0: int, a: int, b: int) -> bool {
        forall|c: int|
            #![trigger self.above(c, a0), self.above(c, b0)]
            self.above(c, a0) && self.above(c, b0) ==> self.above(c, a) && self.above(c, b)
    }

    /// A node above another was numbered no later, and earlier where steps
    /// lead to it.
    proof fn lemma_rises_lower(&self, bound: int, x: int, y: int, k: nat)
        requires
            self.relaxed_ok(bound),
            self.rises(x, y, k),
        ensures
            k > 0 ==> self.walk().dfnum[y] < self.walk().dfnum[x],
            k == 0 ==> x == y,
        decreases k,
    {
        if k > 0 {
            self.lemma_known_facts(bound, x);
            self.lemma_rises_lower(bound, self.idom@[x] as int, y, (k - 1) as nat);
        }
    }

    /// Steps up to a node, and one more from it.
    proof fn lemma_rises_on(&self, x: int, y: int, k: nat)
        requires
            self.rises(x, y, k),
            self.known(y),
        ensures
            self.rises(x, self.idom@[y] as int, k + 1),
        decreases k,
    {
        if k > 0 {
            self.lemma_rises_on(self.idom@[x] as int, y, (k - 1) as nat);
        } else {
            assert(self.rises(self.idom@[y] as int, self.idom@[y] as int, 0));
        }
    }

    /// When the node of the two that was numbered later gives way to its
    /// immediate dominator, what is above both stays above both.
    proof fn lemma_meet_step(&self, bound: int, a0: int, b0: int, a: int, b: int)
        requires
            self.relaxed_ok(bound),
            self.meets(a0, b0, a, b),
            self.above(a, a0),
            self.known(a),
            self.walk().dfnum[a] > self.walk().dfnum[b],
        ensures
            self.meets(a0, b0, self.idom@[a] as int, b),
            self.above(self.idom@[a] as int, a0),
    {
        let k0 = choose|k: nat| #[trigger] self.steps_up(a0, a, k);
        self.lemma_rises_on(a0, a, k0);
        assert(self.steps_up(a0, self.idom@[a] as int, k0 + 1));
        assert forall|c: int|
            #![trigger self.above(c, a0), self.above(c, b0)]
            self.above(c, a0) && self.above(c, b0) implies self.above(c, self.idom@[a] as int)
            && self.above(c, b) by {
            assert(self.above(c, a) && self.above(c, b));
            let ka = choose|k: nat| #[trigger] self.steps_up(a, c, k);
            let kb = choose|k: nat| #[trigger] self.steps_up(b, c, k);
            self.lemma_rises_lower(bound, a, c, ka);
            self.lemma_rises_lower(bound, b, c, kb);
            assert(ka > 0);
            assert(self.steps_up(self.idom@[a] as int, c, (ka - 1) as nat));
        }
    }

    /// The closest node that is above both `a` and `b` in the tree of the
    /// immediate dominators found so far: it is reached from each of them
    /// by steps from a node to its immediate dominator, and every node that
    /// is reached from both is reached from it.
    fn intersect<G: GraphOps>(
        &self,
        a: NodeId,
        b: NodeId,
        graph: &G,
        Ghost(roots): Ghost<Seq<NodeId>>,
        Ghost(bound): Ghost<int>,
    ) -> (r: NodeId)
        requires
            self.sized(),
            self.walk().walked(graph, roots),
            self.relaxed_ok(bound),
            self.known(a as int),
            self.walk().seen(b as int),
            b == self.walk().top() || self.known(b as int),
            self.walk().first_child(b as int),
            self.walk().lone() ==> b != self.walk().top(),
        ensures
            self.walk().seen(r as int),
            r == self.walk().top() || self.known(r as int),
            self.walk().first_child(r as int),
            self.walk().dfnum[r as int] <= self.walk().dfnum[b as int],
            self.walk().lone() ==> r != self.walk().top(),
            self.above(r as int, a as int),
            self.above(r as int, b as int),
            self.meets(a as int, b as int, r as int, r as int),
    {
        let ghost a0 = a;
        let ghost b0 = b;
        let mut a = a;
        let mut b = b;
        proof {
            self.lemma_known_facts(bound, a as int);
            assert(self.steps_up(a0 as int, a0 as int, 0));
            assert(self.steps_up(b0 as int, b0 as int, 0));
        }
        while a != b
            invariant
                self.above(a as int, a0 as int),
                self.above(b as int, b0 as int),
                self.meets(a0 as int, b0 as int, a as int, b as int),
                self.sized(),
                self.walk().walked(graph, roots),
                self.relaxed_ok(bound),
                self.walk().seen(a as int),
                self.walk().seen(b as int),
                a == self.walk().top() || self.known(a as int),
                b == self.walk().top() || self.known(b as int),
                self.walk().first_child(b as int),
                self.walk().dfnum[b as int] <= self.walk().dfnum[b0 as int],
                self.walk().lone() ==> a != self.walk().top() && b != self.walk().top(),
            decreases self.walk().dfnum[a as int] + self.walk().dfnum[b as int],
        {
            proof {
                self.walk().lemma_top_number(graph, roots, a as int);
                self.walk().lemma_top_number(graph, roots, b as int);
                if self.walk().dfnum[a as int] == self.walk().dfnum[b as int] {
                    self.walk().lemma_same_number(graph, roots, a as int, b as int);
                }
            }
            if self.dfnum[a as usize] > self.dfnum[b as usize] {
                proof {
                    self.lemma_known_facts(bound, a as int);
                    if self.walk().lone() && self.idom@[a as int] == self.walk().top() {
                        self.walk().lemma_lone_root(graph, roots, a as int);
                    }
                    self.lemma_meet_step(bound, a0 as int, b0 as int, a as int, b as int);
                }
                a = self.idom[a as usize];
            } else {
                proof {
                    self.lemma_known_facts(bound, b as int);
                    if self.walk().lone() && self.idom@[b as int] == self.walk().top() {
                        self.walk().lemma_lone_root(graph, roots, b as int);
                    }
                    assert(self.meets(b0 as int, a0 as int, b as int, a as int));
                    self.lemma_meet_step(bound, b0 as int, a0 as int, b as int, a as int);
                    assert(self.meets(a0 as int, b0 as int, a as int, self.idom@[b as int] as int));
                }
                b = self.idom[b as usize];
            }
        }
        a
    }

    /// The closest node above the node that `w`, the node numbered `i`, was
    /// reached from and above all predecessors of `w` that have an immediate
    /// dominator.
    fn common_dominator<G: GraphOps>(
        &self,
        graph: &G,
        w: NodeId,
        Ghost(roots): Ghost<Seq<NodeId>>,
        Ghost(bound): Ghost<int>,
        Ghost(i): Ghost<int>,
    ) -> (cur: NodeId)
        requires
            is_flow_graph(graph),
            self.sized(),
            self.size() == graph.vertex_count() + 1,
            self.walk().walked(graph, roots),
            self.relaxed_ok(bound),
            1 <= i < self.n,
            bound >= i,
            w == self.vertex@[i],
            !self.is_root@[w as int],
        ensures
            self.walk().cand_ok(cur as int, w as int),
            cur != self.walk().top() ==> self.known(cur as int),
    {
        proof {
            self.walk().lemma_pick(graph, roots, i);
        }
        let p = self.parent[w as usize];
        proof {
            self.walk().lemma_top_number(graph, roots, p as int);
            assert(p != self.walk().top()) by {
                reveal(Walk::walked);
            }
            self.lemma_early_known(bound, p as int);
        }
        let mut cur = p;
        let preds = graph.predecessors(w);
        let mut j: usize = 0;
        while j < preds.len()
            invariant
                is_flow_graph(graph),
                self.sized(),
                self.size() == graph.vertex_count() + 1,
                self.walk().walked(graph, roots),
                self.relaxed_ok(bound),
                (w as int) < self.walk().top(),
                self.walk().dfnum[w as int] == i,
                preds@ == graph.spec_predecessors(w),
                self.walk().seen(cur as int),
                cur == self.walk().top() || self.known(cur as int),
                self.walk().first_child(cur as int),
                self.walk().dfnum[cur as int] < i,
                self.walk().lone() ==> cur != self.walk().top(),
            decreases preds@.len() - j,
        {
            let v = preds[j];
            assert(graph.spec_predecessors(w)[j as int] == v);
            if self.dfnum[v as usize] != UNSET && self.idom[v as usize] != UNSET {
                cur = self.intersect(v, cur, graph, Ghost(roots), Ghost(bound));
            }
            j = j + 1;
        }
        cur
    }

    /// Goes once through the nodes in the order of their numbers and gives
    /// each the closest node above all its predecessors that have an
    /// immediate dominator; a root gets the root above all roots. Says
    /// whether anything changed.
    fn relax_once<G: GraphOps>(
        &mut self,
        graph: &G,
        Ghost(roots): Ghost<Seq<NodeId>>,
        Ghost(bound): Ghost<int>,
    ) -> (changed: bool)
        requires
            is_flow_graph(graph),
            old(self).sized(),
            old(self).size() == graph.vertex_count() + 1,
            old(self).walk().walked(graph, roots),
            old(self).relaxed_ok(bound),
            bound >= 1,
        ensures
            final(self).sized(),
            final(self).size() == old(self).size(),
            final(self).walk() == old(self).walk(),
            final(self).relaxed_ok(final(self).n as int),
    {
        let top = (self.dfnum.len() - 1) as NodeId;
        let mut changed = false;
        let mut i: NodeId = 1;
        let ghost mut reach: int = bound;
        while i < self.n
            invariant
                is_flow_graph(graph),
                self.sized(),
                self.size() == old(self).size(),
                self.size() == graph.vertex_count() + 1,
                top == self.size() - 1,
                self.walk() == old(self).walk(),
                self.walk().walked(graph, roots),
                1 <= i,
                i <= self.n || self.n <= 1,
                reach >= i,
                self.relaxed_ok(reach),
            decreases self.n - i,
        {
            proof {
                self.walk().lemma_pick(graph, roots, i as int);
            }
            let w = self.vertex[i as usize];
            let value = if self.is_root[w as usize] {
                top
            } else {
                self.common_dominator(graph, w, Ghost(roots), Ghost(reach), Ghost(i as int))
            };
            let ghost before = *self;
            if self.idom[w as usize] != value {
                self.idom[w as usize] = value;
                changed = true;
                proof {
                    self.lemma_relax_set(before, graph, roots, reach, i as int, value as int);
                }
            } else {
                proof {
                    self.lemma_relax_keep(graph, roots, reach, i as int);
                }
            }
            proof {
                reach = if reach > i + 1 {
                    reach
                } else {
                    i + 1
                };
            }
            i = i + 1;
        }
        proof {
            self.lemma_relax_lower(reach, self.n as int);
        }
        changed
    }
}

/// The immediate dominators of the nodes that a walk from one of the roots
/// reaches, found by going through the nodes until nothing changes
/// (Cooper, Harvey and Kennedy), at most a fixed number of times: each node
/// gets the closest node above all its predecessors in the tree of the
/// immediate dominators found so far.
///
/// The roots are taken as the successors of one root above them all. A node
/// that nothing but that root dominates, such as each of the roots, is mapped
/// to itself.
///
/// What is found is held against the graph before it is handed out. Of a
/// graph of no more than `EXACT_LIMIT` nodes the result is the immediate
/// dominators: the graph is walked without each of its nodes to see that
/// every node was given the closest of the nodes that dominate it, and
/// should what was found not be that, as where the nodes did not settle in
/// the times allowed, what those walks give is handed out. Of a larger
/// graph what the result gives a node dominates the node; should what was
/// found not pass, every node is given to the one root, or to itself where
/// there are more roots.
pub fn relaxed_dominators<G: GraphOps>(graph: &G, roots: &[NodeId]) -> (idom: HashMap<NodeId, NodeId>)
    requires
        is_flow_graph(graph),
        forall|j: int| 0 <= j < roots@.len() ==> (#[trigger] roots@[j] as int) < graph.vertex_count(),
    ensures
        forall|v: NodeId| idom@.contains_key(v) <==> reachable(graph, roots@, v),
        forall|j: int| 0 <= j < roots@.len() ==> idom@[#[trigger] roots@[j]] == roots@[j],
        is_dominator_forest(idom@),
        roots@.len() == 1 ==> forall|v: NodeId|
            #[trigger] idom@.contains_key(v) && v != roots@[0] ==> idom@[v] != v,
        gives_dominators(graph, roots@, idom@),
        exact_where_small(graph, roots@, idom@),
{
    let mut lt = LengauerTarjan::new(graph.node_count());
    lt.dfs(graph, roots);
    proof {
        reveal(Walk::walked);
        lt.lemma_relax_start();
    }
    let mut iterations: usize = 0;
    let ghost mut bound: int = 1;
    loop
        invariant_except_break
            iterations < MAX_ITERATIONS,
        invariant
            is_flow_graph(graph),
            lt.sized(),
            lt.size() == graph.vertex_count() + 1,
            lt.walk().walked(graph, roots@),
            lt.rooted(graph, roots@),
            lt.relaxed_ok(bound),
            bound >= 1,
        ensures
            lt.sized(),
            lt.size() == graph.vertex_count() + 1,
            lt.walk().walked(graph, roots@),
            lt.rooted(graph, roots@),
            lt.relaxed_ok(lt.n as int),
        decreases MAX_ITERATIONS - iterations,
    {
        let changed = lt.relax_once(graph, Ghost(roots@), Ghost(bound));
        proof {
            bound = lt.n as int;
            reveal(Walk::walked);
        }
        iterations = iterations + 1;
        if !changed || iterations >= MAX_ITERATIONS {
            break;
        }
    }
    proof {
        reveal(Walk::walked);
        lt.lemma_relax_done();
    }
    let found = lt.collect();
    proof {
        lt.lemma_result(graph, roots@, found@);
    }
    // What was found, settled or not, is held against the graph before it
    // is handed out
    settled(graph, roots, found)
}

/// A vector with the items of a slice.
fn slice_to_vec(s: &[NodeId]) -> (v: Vec<NodeId>)
    ensures
        v@ == s@,
{
    let mut v: Vec<NodeId> = Vec::with_capacity(s.len());
    let mut i: usize = 0;
    while i < s.len()
        invariant
            i <= s@.len(),
            v@ == s@.take(i as int),
        decreases s@.len() - i,
    {
        v.push(s[i]);
        proof {
            assert(s@.take(i + 1) =~= s@.take(i as int).push(s@[i as int]));
        }
        i = i + 1;
    }
    proof {
        assert(s@.take(s@.len() as int) =~= s@);
    }
    v
}

} // verus!
