use vstd::prelude::*;
use crate::analysis::dominance::{dominates, gives_dominators, lemma_given_dominates};
use crate::analysis::exact::{
    exact_where_small, lemma_exact_is_closest, lemma_small_is_exact, EXACT_LIMIT,
};
use crate::analysis::dominator_tree::{
    below, climbs_to, dominated_size, idoms_in_range, in_tree, invert, is_child, is_tree_root,
    lemma_all_below_root, lemma_below_has_idom, tree_from_sizes,
};
use crate::graph::lengauer_tarjan::{
    is_dominator_forest, is_flow_graph, is_walk, ranked_by, reachable, relaxed_dominators,
    GraphOps,
};
use crate::graph::CompactGraph;
use crate::paths::finder::{has_edge, is_root_walk, root_reachable, steps_to};
use crate::seq_lemmas::lemma_filter_push;
use crate::types::NodeId;
use std::collections::HashMap;

verus! {

/// What a node holds: alone, and together with others.
#[derive(Debug, Clone, Copy, Default)]
pub struct RetainedSize {
    pub owned: u64,
    pub shared: u64,
}

/// Whether an edge of the graph leads from `v` to `w`, both nodes of the
/// graph.
pub open spec fn joins(g: &CompactGraph, v: NodeId, w: NodeId) -> bool {
    (v as int) < g.spec_node_count() && (w as int) < g.spec_node_count() && steps_to(g, v, w)
}

/// Builds reverse edge map for efficient backward traversal: for each node
/// the nodes from which an edge leads to it, once for each such edge. Edges
/// to nodes that the graph does not have are passed over.
pub fn build_reverse_graph(graph: &CompactGraph, node_count: usize) -> (reverse: Vec<Vec<NodeId>>)
    requires
        graph.wf(),
        node_count == graph.spec_node_count(),
        node_count <= u32::MAX,
    ensures
        reverse@.len() == node_count,
        forall|w: NodeId, k: int|
            (w as int) < node_count && 0 <= k < reverse@[w as int]@.len() ==> joins(
                graph,
                #[trigger] reverse@[w as int]@[k],
                w,
            ),
        forall|v: NodeId, w: NodeId|
            joins(graph, v, w) ==> #[trigger] reverse@[w as int]@.contains(v),
{
    let mut reverse: Vec<Vec<NodeId>> = Vec::with_capacity(node_count);
    let mut i: usize = 0;
    while i < node_count
        invariant
            i <= node_count,
            reverse@.len() == i,
            forall|x: int| 0 <= x < i ==> (#[trigger] reverse@[x])@.len() == 0,
        decreases node_count - i,
    {
        reverse.push(Vec::new());
        i = i + 1;
    }
    let mut n: usize = 0;
    while n < node_count
        invariant
            graph.wf(),
            node_count == graph.spec_node_count(),
            node_count <= u32::MAX,
            n <= node_count,
            reverse@.len() == node_count,
            forall|w: NodeId, k: int|
                (w as int) < node_count && 0 <= k < reverse@[w as int]@.len() ==> joins(
                    graph,
                    #[trigger] reverse@[w as int]@[k],
                    w,
                ),
            forall|v: NodeId, w: NodeId, e: int|
                (v as int) < n && (w as int) < node_count && #[trigger] has_edge(graph, v, e)
                    && graph.edge_targets@[e] == w ==> #[trigger] reverse@[w as int]@.contains(v),
        decreases node_count - n,
    {
        let node_id = n as NodeId;
        let (start, end) = graph.node_edge_ranges[n];
        let mut e = start as usize;
        while e < end as usize
            invariant
                graph.wf(),
                node_count == graph.spec_node_count(),
                node_count <= u32::MAX,
                n < node_count,
                node_id == n,
                start == graph.spec_edge_start(node_id),
                end == graph.spec_edge_end(node_id),
                start <= e <= end <= graph.edge_types@.len(),
                reverse@.len() == node_count,
                forall|w: NodeId, k: int|
                    (w as int) < node_count && 0 <= k < reverse@[w as int]@.len() ==> joins(
                        graph,
                        #[trigger] reverse@[w as int]@[k],
                        w,
                    ),
                forall|v: NodeId, w: NodeId, d: int|
                    (v as int) < n && (w as int) < node_count && #[trigger] has_edge(graph, v, d)
                        && graph.edge_targets@[d] == w ==> #[trigger] reverse@[w as int]@.contains(
                        v,
                    ),
                forall|w: NodeId, d: int|
                    (w as int) < node_count && start <= d < e && #[trigger] graph.edge_targets@[d]
                        == w ==> #[trigger] reverse@[w as int]@.contains(node_id),
            decreases end - e,
        {
            let target = graph.edge_targets[e];
            if (target as usize) < node_count {
                let ghost before = reverse@;
                reverse[target as usize].push(node_id);
                proof {
                    assert(has_edge(graph, node_id, e as int));
                    assert(steps_to(graph, node_id, target));
                    assert forall|w: NodeId, x: NodeId|
                        (w as int) < node_count && before[w as int]@.contains(
                            x,
                        ) implies reverse@[w as int]@.contains(x) by {
                        let k = choose|k: int| 0 <= k < before[w as int]@.len() && before[w as int]@[k] == x;
                        assert(reverse@[w as int]@[k] == x);
                    }
                    assert(reverse@[target as int]@[before[target as int]@.len() as int] == node_id);
                    assert forall|w: NodeId, k: int|
                        (w as int) < node_count && 0 <= k < reverse@[w as int]@.len() implies joins(
                        graph,
                        #[trigger] reverse@[w as int]@[k],
                        w,
                    ) by {
                        if w == target && k == before[target as int]@.len() {
                        } else {
                            assert(reverse@[w as int]@[k] == before[w as int]@[k]);
                        }
                    }
                    assert forall|v: NodeId, w: NodeId, d: int|
                        (v as int) < n && (w as int) < node_count && #[trigger] has_edge(
                            graph,
                            v,
                            d,
                        ) && graph.edge_targets@[d] == w implies #[trigger] reverse@[w as int]@.contains(
                        v,
                    ) by {
                        assert(before[w as int]@.contains(v));
                    }
                    assert forall|w: NodeId, d: int|
                        (w as int) < node_count && start <= d < e + 1
                            && #[trigger] graph.edge_targets@[d] == w implies #[trigger] reverse@[w as int]@.contains(
                        node_id,
                    ) by {
                        if d < e {
                            assert(before[w as int]@.contains(node_id));
                        }
                    }
                }
            }
            e = e + 1;
        }
        n = n + 1;
    }
    proof {
        assert forall|v: NodeId, w: NodeId| joins(graph, v, w) implies #[trigger] reverse@[w as int]@.contains(
            v,
        ) by {
            let e = choose|e: int| has_edge(graph, v, e) && #[trigger] graph.edge_targets@[e] == w;
            assert(has_edge(graph, v, e));
        }
    }
    reverse
}

/// A compact graph with the nodes before each node at hand, for the
/// dominator engine.
pub struct CompactFlow<'a> {
    pub graph: &'a CompactGraph,
    pub reverse: Vec<Vec<NodeId>>,
}

impl<'a> CompactFlow<'a> {
    /// The test that a target passes that is a node of the graph.
    pub open spec fn in_graph(&self) -> spec_fn(NodeId) -> bool {
        |t: NodeId| (t as int) < self.graph.spec_node_count()
    }

    /// The targets of the edges of a node, in stored order.
    pub open spec fn targets(&self, node: NodeId) -> Seq<NodeId> {
        Seq::new(
            (self.graph.spec_edge_end(node) - self.graph.spec_edge_start(node)) as nat,
            |k: int| self.graph.edge_targets@[self.graph.spec_edge_start(node) + k],
        )
    }

    /// A compact graph with its reverse edges is a graph that dominators
    /// can be computed on.
    pub proof fn lemma_is_flow_graph(&self)
        requires
            self.ops_wf(),
        ensures
            is_flow_graph(self),
    {
        let g = self.graph;
        assert forall|v: NodeId, j: int|
            (v as int) < self.vertex_count() && 0 <= j < self.spec_successors(v).len() implies (
        #[trigger] self.spec_successors(v)[j] as int) < self.vertex_count() by {
            self.targets(v).lemma_filter_pred(self.in_graph(), j);
        }
        assert forall|v: NodeId, w: NodeId|
            (v as int) < self.vertex_count() && (w as int) < self.vertex_count() implies (
        #[trigger] self.spec_successors(v).contains(w) <==> #[trigger] self.spec_predecessors(
            w,
        ).contains(v)) by {
            if self.spec_successors(v).contains(w) {
                self.targets(v).lemma_filter_contains_rev(self.in_graph(), w);
                let k = choose|k: int| 0 <= k < self.targets(v).len() && self.targets(v)[k] == w;
                assert(has_edge(g, v, g.spec_edge_start(v) + k));
                assert(g.edge_targets@[g.spec_edge_start(v) + k] == w);
                assert(joins(g, v, w));
            }
            if self.spec_predecessors(w).contains(v) {
                let k = choose|k: int|
                    0 <= k < self.reverse@[w as int]@.len() && self.reverse@[w as int]@[k] == v;
                assert(joins(g, self.reverse@[w as int]@[k], w));
                let e = choose|e: int| has_edge(g, v, e) && #[trigger] g.edge_targets@[e] == w;
                assert(self.targets(v)[e - g.spec_edge_start(v)] == w);
                self.targets(v).lemma_filter_contains(self.in_graph(), e - g.spec_edge_start(v));
            }
        }
    }
}

impl<'a> CompactFlow<'a> {
    /// A walk from a root of the compact graph to one of its nodes is a
    /// walk of this graph from one of the roots that are nodes.
    pub proof fn lemma_root_walk(&self, roots: Seq<NodeId>, nodes: Seq<NodeId>, v: NodeId)
        requires
            self.ops_wf(),
            is_root_walk(self.graph, nodes, v),
            (v as int) < self.graph.spec_node_count(),
            forall|j: int|
                0 <= j < self.graph.gc_roots@.len() && (#[trigger] self.graph.gc_roots@[j] as int)
                    < self.graph.spec_node_count() ==> roots.contains(self.graph.gc_roots@[j]),
        ensures
            is_walk(self, nodes),
            roots.contains(nodes[0]),
            nodes.last() == v,
    {
        let graph = self.graph;
        assert forall|i: int| 0 <= i < nodes.len() implies (#[trigger] nodes[i] as int)
            < self.vertex_count() by {
            if i < nodes.len() - 1 {
                assert(steps_to(graph, nodes[i], nodes[i + 1]));
                let e = choose|e: int|
                    has_edge(graph, nodes[i], e) && #[trigger] graph.edge_targets@[e] == nodes[i + 1];
                assert(has_edge(graph, nodes[i], e));
            }
        }
        assert forall|i: int| 0 <= i < nodes.len() - 1 implies self.spec_successors(
            #[trigger] nodes[i],
        ).contains(nodes[i + 1]) by {
            assert(steps_to(graph, nodes[i], nodes[i + 1]));
            let e = choose|e: int|
                has_edge(graph, nodes[i], e) && #[trigger] graph.edge_targets@[e] == nodes[i + 1];
            let k = e - graph.spec_edge_start(nodes[i]);
            assert(self.targets(nodes[i])[k] == nodes[i + 1]);
            assert((nodes[i + 1] as int) < self.vertex_count());
            self.targets(nodes[i]).lemma_filter_contains(self.in_graph(), k);
        }
        let j = choose|j: int| 0 <= j < graph.gc_roots@.len() && graph.gc_roots@[j] == nodes[0];
        assert((graph.gc_roots@[j] as int) < graph.spec_node_count());
    }

    /// A walk of this graph from one of the roots is a walk from a root of
    /// the compact graph.
    pub proof fn lemma_flow_walk(&self, roots: Seq<NodeId>, p: Seq<NodeId>, v: NodeId)
        requires
            self.ops_wf(),
            is_walk(self, p),
            roots.contains(p[0]),
            p.last() == v,
            forall|j: int| 0 <= j < roots.len() ==> self.graph.gc_roots@.contains(#[trigger] roots[j]),
        ensures
            is_root_walk(self.graph, p, v),
    {
        let graph = self.graph;
        let j = choose|j: int| 0 <= j < roots.len() && roots[j] == p[0];
        assert(graph.gc_roots@.contains(roots[j]));
        assert forall|i: int| 0 <= i < p.len() - 1 implies steps_to(graph, #[trigger] p[i], p[i + 1]) by {
            assert(self.spec_successors(p[i]).contains(p[i + 1]));
            self.targets(p[i]).lemma_filter_contains_rev(self.in_graph(), p[i + 1]);
            let k = choose|k: int|
                0 <= k < self.targets(p[i]).len() && self.targets(p[i])[k] == p[i + 1];
            assert(has_edge(graph, p[i], graph.spec_edge_start(p[i]) + k));
            assert(graph.edge_targets@[graph.spec_edge_start(p[i]) + k] == p[i + 1]);
        }
    }

    /// In a small graph, the closest of the nodes that dominate a node in
    /// this graph is the closest of those that dominate it in the compact
    /// graph.
    pub proof fn lemma_root_closest(&self, roots: Seq<NodeId>, m: Map<NodeId, NodeId>)
        requires
            self.ops_wf(),
            exact_where_small(self, roots, m),
            forall|v: NodeId| #[trigger] m.contains_key(v) ==> (v as int) < self.graph.spec_node_count()
                && (m[v] as int) < self.graph.spec_node_count(),
            forall|j: int| 0 <= j < roots.len() ==> self.graph.gc_roots@.contains(#[trigger] roots[j]),
            forall|j: int|
                0 <= j < self.graph.gc_roots@.len() && (#[trigger] self.graph.gc_roots@[j] as int)
                    < self.graph.spec_node_count() ==> roots.contains(self.graph.gc_roots@[j]),
        ensures
            self.graph.spec_node_count() <= EXACT_LIMIT ==> gives_root_closest(self.graph, m),
    {
        reveal(gives_root_closest);
        if self.graph.spec_node_count() <= EXACT_LIMIT {
            lemma_small_is_exact(self, roots, m);
            assert forall|v: NodeId, x: NodeId|
                m.contains_key(v) && #[trigger] root_dominates(self.graph, x, v) && x
                    != v implies m[v] != v && root_dominates(self.graph, x, m[v]) by {
                assert(dominates(self, roots, x, v)) by {
                    assert forall|p: Seq<NodeId>|
                        is_walk(self, p) && roots.contains(p[0]) && p.last() == v implies #[trigger] p.contains(
                        x,
                    ) by {
                        self.lemma_flow_walk(roots, p, v);
                    }
                }
                lemma_exact_is_closest(self, roots, m, v, x);
                assert forall|nodes: Seq<NodeId>|
                    is_root_walk(self.graph, nodes, m[v]) implies #[trigger] nodes.contains(x) by {
                    self.lemma_root_walk(roots, nodes, m[v]);
                }
            }
        }
    }

    /// What dominates a node in this graph dominates it in the compact
    /// graph.
    pub proof fn lemma_root_dominators(&self, roots: Seq<NodeId>, m: Map<NodeId, NodeId>)
        requires
            self.ops_wf(),
            gives_dominators(self, roots, m),
            forall|v: NodeId| #[trigger] m.contains_key(v) ==> (v as int) < self.graph.spec_node_count(),
            forall|j: int|
                0 <= j < self.graph.gc_roots@.len() && (#[trigger] self.graph.gc_roots@[j] as int)
                    < self.graph.spec_node_count() ==> roots.contains(self.graph.gc_roots@[j]),
        ensures
            gives_root_dominators(self.graph, m),
    {
        reveal(gives_root_dominators);
        assert forall|v: NodeId| #[trigger] m.contains_key(v) implies root_dominates(
            self.graph,
            m[v],
            v,
        ) by {
            lemma_given_dominates(self, roots, m, v);
            assert forall|nodes: Seq<NodeId>| is_root_walk(self.graph, nodes, v) implies #[trigger] nodes.contains(
                m[v],
            ) by {
                self.lemma_root_walk(roots, nodes, v);
            }
        }
    }
}

impl<'a> GraphOps for CompactFlow<'a> {
    open spec fn ops_wf(&self) -> bool {
        &&& self.graph.wf()
        &&& self.graph.spec_node_count() < u32::MAX
        &&& self.reverse@.len() == self.graph.spec_node_count()
        &&& forall|w: NodeId, k: int|
            (w as int) < self.graph.spec_node_count() && 0 <= k < self.reverse@[w as int]@.len()
                ==> joins(self.graph, #[trigger] self.reverse@[w as int]@[k], w)
        &&& forall|v: NodeId, w: NodeId|
            joins(self.graph, v, w) ==> #[trigger] self.reverse@[w as int]@.contains(v)
    }

    open spec fn vertex_count(&self) -> int {
        self.graph.spec_node_count()
    }

    /// The targets of the edges of a node that are nodes of the graph.
    open spec fn spec_successors(&self, node: NodeId) -> Seq<NodeId> {
        self.targets(node).filter(self.in_graph())
    }

    open spec fn spec_predecessors(&self, node: NodeId) -> Seq<NodeId> {
        self.reverse@[node as int]@
    }

    fn node_count(&self) -> (n: usize) {
        self.graph.node_count()
    }

    fn predecessors(&self, node: NodeId) -> (r: Vec<NodeId>) {
        let list = &self.reverse[node as usize];
        let mut out: Vec<NodeId> = Vec::with_capacity(list.len());
        let mut k: usize = 0;
        while k < list.len()
            invariant
                k <= list@.len(),
                out@ == list@.take(k as int),
            decreases list@.len() - k,
        {
            out.push(list[k]);
            proof {
                assert(list@.take(k + 1) =~= list@.take(k as int).push(list@[k as int]));
            }
            k = k + 1;
        }
        proof {
            assert(list@.take(list@.len() as int) =~= list@);
        }
        out
    }

    fn successors(&self, node: NodeId) -> (r: Vec<NodeId>) {
        let count = self.graph.node_count();
        let (start, end) = self.graph.node_edge_ranges[node as usize];
        let ghost all = self.targets(node);
        let mut out: Vec<NodeId> = Vec::new();
        let mut e = start as usize;
        proof {
            assert(all.take(0) =~= Seq::<NodeId>::empty());
            reveal(Seq::filter);
        }
        while e < end as usize
            invariant
                self.graph.wf(),
                count == self.graph.spec_node_count(),
                all == self.targets(node),
                start == self.graph.spec_edge_start(node),
                end == self.graph.spec_edge_end(node),
                start <= e <= end <= self.graph.edge_types@.len(),
                out@ == all.take(e - start).filter(self.in_graph()),
            decreases end - e,
        {
            let target = self.graph.edge_targets[e];
            proof {
                assert(all.take(e - start + 1) =~= all.take(e - start).push(target));
                lemma_filter_push(all.take(e - start), target, self.in_graph());
            }
            if (target as usize) < count {
                out.push(target);
            }
            e = e + 1;
        }
        proof {
            assert(all.take(all.len() as int) =~= all);
        }
        out
    }
}

/// The roots of the graph that are nodes of the graph, in their order.
pub fn valid_roots(graph: &CompactGraph) -> (roots: Vec<NodeId>)
    ensures
        forall|j: int| 0 <= j < roots@.len() ==> (#[trigger] roots@[j] as int) < graph.spec_node_count()
            && graph.gc_roots@.contains(roots@[j]),
        forall|j: int|
            0 <= j < graph.gc_roots@.len() && (#[trigger] graph.gc_roots@[j] as int)
                < graph.spec_node_count() ==> roots@.contains(graph.gc_roots@[j]),
        roots@.len() <= graph.gc_roots@.len(),
{
    let count = graph.node_count();
    let mut roots: Vec<NodeId> = Vec::new();
    let mut j: usize = 0;
    while j < graph.gc_roots.len()
        invariant
            count == graph.spec_node_count(),
            j <= graph.gc_roots@.len(),
            roots@.len() <= j,
            forall|k: int|
                0 <= k < roots@.len() ==> (#[trigger] roots@[k] as int) < count
                    && graph.gc_roots@.contains(roots@[k]),
            forall|k: int|
                0 <= k < j && (#[trigger] graph.gc_roots@[k] as int) < count ==> roots@.contains(
                    graph.gc_roots@[k],
                ),
        decreases graph.gc_roots@.len() - j,
    {
        let r = graph.gc_roots[j];
        if (r as usize) < count {
            let ghost before = roots@;
            roots.push(r);
            proof {
                assert(graph.gc_roots@.contains(graph.gc_roots@[j as int]));
                assert(roots@[before.len() as int] == r);
                assert forall|k: int|
                    0 <= k < j + 1 && (#[trigger] graph.gc_roots@[k] as int)
                        < count implies roots@.contains(graph.gc_roots@[k]) by {
                    if k < j {
                        let d = choose|d: int| 0 <= d < before.len() && before[d] == graph.gc_roots@[k];
                        assert(roots@[d] == graph.gc_roots@[k]);
                    }
                }
            }
        }
        j = j + 1;
    }
    roots
}

/// Whether `d` dominates `v`: every walk from a root of the graph to `v`
/// passes `d`.
pub open spec fn root_dominates(g: &CompactGraph, d: NodeId, v: NodeId) -> bool {
    forall|nodes: Seq<NodeId>| is_root_walk(g, nodes, v) ==> #[trigger] nodes.contains(d)
}

/// Whether what `m` gives a node dominates the node.
#[verifier::opaque]
pub open spec fn gives_root_dominators(g: &CompactGraph, m: Map<NodeId, NodeId>) -> bool {
    forall|v: NodeId| #[trigger] m.contains_key(v) ==> root_dominates(g, m[v], v)
}

/// Whether every other node that dominates a node of `m` dominates what
/// `m` gives the node, which is then another node: `m` gives every node the
/// closest of the nodes that dominate it.
#[verifier::opaque]
pub open spec fn gives_root_closest(g: &CompactGraph, m: Map<NodeId, NodeId>) -> bool {
    forall|v: NodeId, x: NodeId|
        m.contains_key(v) && #[trigger] root_dominates(g, x, v) && x != v ==> m[v] != v
            && root_dominates(g, x, m[v])
}

/// Whether `m` gives the nodes of the graph dominators, in the shape of the
/// immediate dominators: it has a node exactly for each node of the graph
/// that a walk from a root leads to, it maps each root of the graph to
/// itself, it is a forest, what it gives a node dominates the node, and
/// where the graph has one root it maps no other node to itself. Of a graph
/// of no more than `EXACT_LIMIT` nodes it is the immediate dominators: what
/// it gives a node is the closest of the nodes that dominate it.
pub open spec fn shaped_like_dominators(g: &CompactGraph, m: Map<NodeId, NodeId>) -> bool {
    &&& forall|v: NodeId|
        m.contains_key(v) <==> (v as int) < g.spec_node_count() && root_reachable(g, v)
    &&& forall|j: int|
        0 <= j < g.gc_roots@.len() && (g.gc_roots@[j] as int) < g.spec_node_count()
            ==> m[#[trigger] g.gc_roots@[j]] == g.gc_roots@[j]
    &&& is_dominator_forest(m)
    &&& idoms_in_range(m, g.spec_node_count())
    &&& gives_root_dominators(g, m)
    &&& g.gc_roots@.len() == 1 ==> forall|v: NodeId|
        #[trigger] m.contains_key(v) && v != g.gc_roots@[0] ==> m[v] != v
    &&& g.spec_node_count() <= EXACT_LIMIT ==> gives_root_closest(g, m)
}

/// The self sizes of the first `upto` nodes of the graph that a walk from a
/// root leads to, added up.
pub open spec fn reachable_total(g: &CompactGraph, upto: int) -> int
    decreases upto,
{
    if upto <= 0 {
        0
    } else {
        reachable_total(g, upto - 1) + if root_reachable(g, (upto - 1) as NodeId) {
            g.node_sizes@[upto - 1] as int
        } else {
            0
        }
    }
}

/// Where the graph has one root, that root dominates all that a walk from
/// it leads to: what it owns is the self size of all of that.
pub proof fn lemma_root_owns_all(g: &CompactGraph, m: Map<NodeId, NodeId>, upto: int)
    requires
        shaped_like_dominators(g, m),
        g.gc_roots@.len() == 1,
        (g.gc_roots@[0] as int) < g.spec_node_count(),
        0 <= upto <= g.spec_node_count(),
    ensures
        in_tree(m, g.gc_roots@[0]),
        m.contains_key(g.gc_roots@[0]),
        dominated_size(g.node_sizes@, m, g.gc_roots@[0], upto) == reachable_total(g, upto),
    decreases upto,
{
    let root = g.gc_roots@[0];
    assert(is_root_walk(g, seq![root], root)) by {
        assert(g.gc_roots@.contains(g.gc_roots@[0]));
        assert(seq![root].last() == root);
    }
    assert(root_reachable(g, root));
    assert(m.contains_key(root));
    assert(m[g.gc_roots@[0]] == root);
    assert(climbs_to(m, root, root, 0));
    assert(is_tree_root(m, root));
    if upto > 0 {
        lemma_root_owns_all(g, m, upto - 1);
        let x = (upto - 1) as NodeId;
        let rank = choose|rank: spec_fn(NodeId) -> nat| ranked_by(m, rank);
        if m.contains_key(x) {
            lemma_all_below_root(m, rank, root, x);
        }
        if below(m, root, x) {
            lemma_below_has_idom(m, root, x);
        }
    }
}

/// Calculates immediate dominators by going through the nodes until nothing
/// changes. A node that nothing but all roots together dominate is mapped to
/// itself.
pub fn calculate_dominators(graph: &CompactGraph) -> (dominators: HashMap<NodeId, NodeId>)
    requires
        graph.wf(),
        graph.spec_node_count() < u32::MAX,
    ensures
        shaped_like_dominators(graph, dominators@),
{
    let node_count = graph.node_count();
    // Build reverse graph for dominator analysis
    let reverse = build_reverse_graph(graph, node_count);
    let flow = CompactFlow { graph, reverse };
    let roots = valid_roots(graph);
    proof {
        flow.lemma_is_flow_graph();
    }
    let dominators = relaxed_dominators(&flow, roots.as_slice());
    proof {
        let m = dominators@;
        assert forall|v: NodeId|
            m.contains_key(v) <==> (v as int) < graph.spec_node_count() && root_reachable(
                graph,
                v,
            ) by {
            if reachable(&flow, roots@, v) {
                let p = choose|p: Seq<NodeId>|
                    is_walk(&flow, p) && roots@.contains(p[0]) && #[trigger] p.last() == v;
                assert((p[p.len() - 1] as int) < flow.vertex_count());
                assert(is_root_walk(graph, p, v)) by {
                    let j = choose|j: int| 0 <= j < roots@.len() && roots@[j] == p[0];
                    assert(graph.gc_roots@.contains(roots@[j]));
                    assert forall|i: int| 0 <= i < p.len() - 1 implies steps_to(
                        graph,
                        #[trigger] p[i],
                        p[i + 1],
                    ) by {
                        assert(flow.spec_successors(p[i]).contains(p[i + 1]));
                        flow.targets(p[i]).lemma_filter_contains_rev(flow.in_graph(), p[i + 1]);
                        let k = choose|k: int|
                            0 <= k < flow.targets(p[i]).len() && flow.targets(p[i])[k] == p[i + 1];
                        assert(has_edge(graph, p[i], graph.spec_edge_start(p[i]) + k));
                        assert(graph.edge_targets@[graph.spec_edge_start(p[i]) + k] == p[i + 1]);
                    }
                }
            }
            if (v as int) < graph.spec_node_count() && root_reachable(graph, v) {
                let nodes = choose|nodes: Seq<NodeId>| is_root_walk(graph, nodes, v);
                assert forall|i: int| 0 <= i < nodes.len() implies (#[trigger] nodes[i] as int)
                    < flow.vertex_count() by {
                    if i < nodes.len() - 1 {
                        assert(steps_to(graph, nodes[i], nodes[i + 1]));
                        let e = choose|e: int|
                            has_edge(graph, nodes[i], e) && #[trigger] graph.edge_targets@[e]
                                == nodes[i + 1];
                        assert(has_edge(graph, nodes[i], e));
                    }
                }
                assert forall|i: int| 0 <= i < nodes.len() - 1 implies flow.spec_successors(
                    #[trigger] nodes[i],
                ).contains(nodes[i + 1]) by {
                    assert(steps_to(graph, nodes[i], nodes[i + 1]));
                    let e = choose|e: int|
                        has_edge(graph, nodes[i], e) && #[trigger] graph.edge_targets@[e] == nodes[i
                            + 1];
                    let k = e - graph.spec_edge_start(nodes[i]);
                    assert(flow.targets(nodes[i])[k] == nodes[i + 1]);
                    assert((nodes[i + 1] as int) < flow.vertex_count());
                    flow.targets(nodes[i]).lemma_filter_contains(flow.in_graph(), k);
                }
                assert(is_walk(&flow, nodes));
                let j = choose|j: int| 0 <= j < graph.gc_roots@.len() && graph.gc_roots@[j] == nodes[0];
                assert((graph.gc_roots@[j] as int) < graph.spec_node_count());
                assert(roots@.contains(nodes[0]));
                assert(reachable(&flow, roots@, v));
            }
        }
        assert forall|j: int|
            0 <= j < graph.gc_roots@.len() && (graph.gc_roots@[j] as int)
                < graph.spec_node_count() implies m[#[trigger] graph.gc_roots@[j]]
            == graph.gc_roots@[j] by {
            assert(roots@.contains(graph.gc_roots@[j]));
            let k = choose|k: int| 0 <= k < roots@.len() && roots@[k] == graph.gc_roots@[j];
            assert(m[roots@[k]] == roots@[k]);
        }
        assert(idoms_in_range(m, graph.spec_node_count())) by {
            let rank = choose|rank: spec_fn(NodeId) -> nat|
                crate::graph::lengauer_tarjan::ranked_by(m, rank);
            assert forall|n: NodeId| #[trigger] m.contains_key(n) implies (n as int)
                < graph.spec_node_count() && (m[n] as int) < graph.spec_node_count() by {
                assert(m.contains_key(m[n]));
            }
        }
        flow.lemma_root_dominators(roots@, m);
        lemma_one_root(&flow, roots@, m);
        flow.lemma_root_closest(roots@, m);
    }
    dominators
}

/// Where the compact graph has one root, a map that maps no node but the
/// one root among the roots that are nodes to itself maps no node but the
/// root of the graph to itself.
proof fn lemma_one_root(flow: &CompactFlow, roots: Seq<NodeId>, m: Map<NodeId, NodeId>)
    requires
        forall|j: int|
            0 <= j < roots.len() ==> (#[trigger] roots[j] as int) < flow.graph.spec_node_count()
                && flow.graph.gc_roots@.contains(roots[j]),
        forall|j: int|
            0 <= j < flow.graph.gc_roots@.len() && (#[trigger] flow.graph.gc_roots@[j] as int)
                < flow.graph.spec_node_count() ==> roots.contains(flow.graph.gc_roots@[j]),
        roots.len() <= flow.graph.gc_roots@.len(),
        forall|v: NodeId| m.contains_key(v) <==> reachable(flow, roots, v),
        roots.len() == 1 ==> forall|v: NodeId|
            #[trigger] m.contains_key(v) && v != roots[0] ==> m[v] != v,
    ensures
        flow.graph.gc_roots@.len() == 1 ==> forall|v: NodeId|
            #[trigger] m.contains_key(v) && v != flow.graph.gc_roots@[0] ==> m[v] != v,
{
    let g = flow.graph;
    if g.gc_roots@.len() == 1 {
        if roots.len() == 1 {
            assert(g.gc_roots@.contains(roots[0]));
            let j = choose|j: int| 0 <= j < g.gc_roots@.len() && g.gc_roots@[j] == roots[0];
            assert(roots[0] == g.gc_roots@[0]);
        } else {
            assert(roots.len() == 0);
            assert forall|v: NodeId| !m.contains_key(v) by {
                if reachable(flow, roots, v) {
                    let p = choose|p: Seq<NodeId>|
                        is_walk(flow, p) && roots.contains(p[0]) && #[trigger] p.last() == v;
                    assert(roots.contains(p[0]));
                }
            }
        }
    }
}

/// Builds dominator tree (children dominated by each node)
pub fn build_dominator_tree(dominators: &HashMap<NodeId, NodeId>, node_count: usize) -> (tree: Vec<
    Vec<NodeId>,
>)
    requires
        node_count <= u32::MAX,
        idoms_in_range(dominators@, node_count as int),
    ensures
        tree@.len() == node_count,
        forall|p: NodeId, c: NodeId|
            (p as int) < node_count ==> (#[trigger] tree@[p as int]@.contains(c) <==> is_child(
                dominators@,
                p,
                c,
            )),
        forall|p: NodeId, i: int, j: int|
            (p as int) < node_count && 0 <= i < j < tree@[p as int]@.len()
                ==> #[trigger] tree@[p as int]@[i] < #[trigger] tree@[p as int]@[j],
{
    let (_, children) = invert(dominators, node_count);
    children
}

/// Whether `sizes` holds, for each node that has an immediate dominator in
/// `m`, the self sizes of all that it dominates as owned, and nothing as
/// shared.
pub open spec fn sizes_of_dominators(
    g: &CompactGraph,
    m: Map<NodeId, NodeId>,
    sizes: Map<NodeId, RetainedSize>,
) -> bool {
    &&& forall|n: NodeId|
        #![trigger sizes.contains_key(n)]
        #![trigger m.contains_key(n)]
        sizes.contains_key(n) <==> m.contains_key(n) && in_tree(m, n)
    &&& forall|n: NodeId|
        #[trigger] sizes.contains_key(n) ==> sizes[n].owned == dominated_size(
            g.node_sizes@,
            m,
            n,
            g.spec_node_count(),
        ) && sizes[n].shared == 0
}

/// Calculates retained sizes using dominator tree: each node owns what it
/// dominates.
pub fn calculate_sizes_from_dominators(
    graph: &CompactGraph,
    dominators: &HashMap<NodeId, NodeId>,
) -> (results: HashMap<NodeId, RetainedSize>)
    requires
        graph.wf(),
        graph.spec_node_count() <= u32::MAX,
        idoms_in_range(dominators@, graph.spec_node_count()),
    ensures
        sizes_of_dominators(graph, dominators@, results@),
{
    broadcast use vstd::std_specs::hash::group_hash_axioms;

    let tree = tree_from_sizes(dominators, &graph.node_sizes);
    let node_count = graph.node_count();
    let ghost m = dominators@;
    let mut results: HashMap<NodeId, RetainedSize> = HashMap::new();
    let mut n: usize = 0;
    while n < node_count
        invariant
            node_count == graph.spec_node_count(),
            node_count <= u32::MAX,
            graph.wf(),
            m == dominators@,
            idoms_in_range(m, node_count as int),
            tree.is_tree_of(graph.node_sizes@, m),
            n <= node_count,
            forall|x: NodeId|
                #![trigger results@.contains_key(x)]
                #![trigger m.contains_key(x)]
                results@.contains_key(x) <==> m.contains_key(x) && in_tree(m, x) && (x as int) < n,
            forall|x: NodeId|
                #[trigger] results@.contains_key(x) ==> results@[x].owned == dominated_size(
                    graph.node_sizes@,
                    m,
                    x,
                    node_count as int,
                ) && results@[x].shared == 0,
        decreases node_count - n,
    {
        let node_id = n as NodeId;
        let ghost before = results@;
        let owned = tree.retained_bytes(node_id);
        let inside = tree.idom(node_id).is_some() && tree.stands_in_tree(node_id);
        proof {
            assert(tree.spec_idom() == m);
            assert(tree.spec_in_tree(node_id) == in_tree(m, node_id));
            assert(inside == (m.contains_key(node_id) && in_tree(m, node_id)));
            assert(tree.spec_retained(node_id) == if in_tree(m, node_id) {
                dominated_size(graph.node_sizes@, m, node_id, node_count as int)
            } else {
                0
            });
        }
        if inside {
            results.insert(node_id, RetainedSize { owned, shared: 0 });
            proof {
                assert(results@ == before.insert(node_id, RetainedSize { owned, shared: 0 }));
            }
        }
        proof {
            assert forall|x: NodeId|
                #![trigger results@.contains_key(x)]
                #![trigger m.contains_key(x)]
                results@.contains_key(x) <==> m.contains_key(x) && in_tree(m, x) && (x as int) < n
                    + 1 by {
                if x != node_id {
                    assert(results@.contains_key(x) == before.contains_key(x));
                } else {
                    assert(!before.contains_key(node_id));
                }
            }
            assert forall|x: NodeId| #[trigger] results@.contains_key(x) implies results@[x].owned
                == dominated_size(graph.node_sizes@, m, x, node_count as int) && results@[x].shared
                == 0 by {
                if x != node_id {
                    assert(before.contains_key(x));
                }
            }
        }
        n = n + 1;
    }
    proof {
        assert forall|x: NodeId|
            #![trigger results@.contains_key(x)]
            #![trigger m.contains_key(x)]
            results@.contains_key(x) <==> m.contains_key(x) && in_tree(m, x) by {
            if m.contains_key(x) {
                assert((x as int) < node_count);
            }
        }
    }
    results
}

/// Calculates owned and shared retained sizes using dominator tree analysis.
/// The result holds a size for each node of the graph that a walk from a
/// root leads to: what the node dominates, by immediate dominators that are
/// found by going through the nodes until nothing changes. Where the graph
/// has one root, that root owns the self size of all that a walk from it
/// leads to.
pub fn calculate_retained_sizes(graph: &CompactGraph) -> (sizes: HashMap<NodeId, RetainedSize>)
    requires
        graph.wf(),
        graph.spec_node_count() < u32::MAX,
    ensures
        exists|m: Map<NodeId, NodeId>|
            shaped_like_dominators(graph, m) && #[trigger] sizes_of_dominators(graph, m, sizes@),
        graph.gc_roots@.len() == 1 && (graph.gc_roots@[0] as int) < graph.spec_node_count()
            ==> sizes@.contains_key(graph.gc_roots@[0]) && sizes@[graph.gc_roots@[0]].owned
            == reachable_total(graph, graph.spec_node_count()),
        forall|n: NodeId|
            #[trigger] sizes@.contains_key(n) ==> (n as int) < graph.spec_node_count()
                && sizes@[n].owned >= graph.node_sizes@[n as int],
{
    // Calculate dominators using iterative algorithm
    let dominators = calculate_dominators(graph);
    // Calculate retained sizes using dominator tree
    let sizes = calculate_sizes_from_dominators(graph, &dominators);
    proof {
        assert(sizes_of_dominators(graph, dominators@, sizes@));
        if graph.gc_roots@.len() == 1 && (graph.gc_roots@[0] as int) < graph.spec_node_count() {
            lemma_root_owns_all(graph, dominators@, graph.spec_node_count());
        }
        assert forall|n: NodeId| #[trigger] sizes@.contains_key(n) implies (n as int)
            < graph.spec_node_count() && sizes@[n].owned >= graph.node_sizes@[n as int] by {
            assert(dominators@.contains_key(n));
            lemma_owns_itself(graph.node_sizes@, dominators@, n, graph.spec_node_count());
        }
    }
    sizes
}

/// What a node dominates holds the node itself: the size of what it
/// dominates is at least its own.
pub proof fn lemma_owns_itself(sizes: Seq<u32>, m: Map<NodeId, NodeId>, n: NodeId, upto: int)
    requires
        m.contains_key(n),
        0 <= upto,
    ensures
        dominated_size(sizes, m, n, upto) >= 0,
        (n as int) < upto ==> dominated_size(sizes, m, n, upto) >= sizes[n as int],
    decreases upto,
{
    if upto > 0 {
        lemma_owns_itself(sizes, m, n, upto - 1);
        if n == upto - 1 {
            assert(climbs_to(m, n, n, 0));
            assert(below(m, n, (upto - 1) as NodeId));
        }
    }
}

} // verus!
