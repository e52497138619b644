use vstd::prelude::*;
use crate::graph::v8_heap_graph::{Edge, EdgeId, V8HeapGraph};
use crate::types::{AnalyzerError, NodeId};
use fixedbitset::FixedBitSet;

verus! {

/// `fixedbitset::FixedBitSet`, a set of bits of a length fixed when it is
/// made; nothing is known of what is inside but through the functions
/// below.
#[verifier::external_type_specification]
#[verifier::external_body]
pub struct ExFixedBitSet(fixedbitset::FixedBitSet);

/// The bits of a `fixedbitset::FixedBitSet`, by position: as many as the set
/// was made for.
pub uninterp spec fn bitset_bits(b: FixedBitSet) -> Seq<bool>;

/// `FixedBitSet::with_capacity` makes a set of `bits` bits, all of them
/// clear.
pub assume_specification[ FixedBitSet::with_capacity ](bits: usize) -> (b: FixedBitSet)
    ensures
        bitset_bits(b).len() == bits,
        forall|i: int| 0 <= i < bits ==> !#[trigger] bitset_bits(b)[i],
;

/// `FixedBitSet::put` sets one bit and returns what the bit was before; the
/// other bits stay. It panics on a position that the set does not have,
/// which is left out here.
pub assume_specification[ FixedBitSet::put ](b: &mut FixedBitSet, bit: usize) -> (was: bool)
    requires
        bit < bitset_bits(*old(b)).len(),
    ensures
        was == bitset_bits(*old(b))[bit as int],
        bitset_bits(*final(b)) == bitset_bits(*old(b)).update(bit as int, true),
;

/// Whether `p` is a path in the graph from `from` to `to`: edges of the
/// graph of which the first leaves `from`, each arrives where the next
/// leaves, and the last arrives at `to`; or no edge at all, from a node to
/// itself.
pub open spec fn is_edge_path(g: &V8HeapGraph, p: Seq<EdgeId>, from: NodeId, to: NodeId) -> bool {
    &&& forall|i: int| 0 <= i < p.len() ==> (#[trigger] p[i] as int) < g.spec_edge_count()
    &&& if p.len() == 0 {
        from == to
    } else {
        &&& g.spec_source(p[0] as int) == from
        &&& g.spec_target(p.last() as int) == to
        &&& forall|i: int|
            0 <= i < p.len() - 1 ==> g.spec_target(#[trigger] p[i] as int) == g.spec_source(
                p[i + 1] as int,
            )
    }
}

/// Whether a path leads from `from` to `to`.
pub open spec fn connects(g: &V8HeapGraph, from: NodeId, to: NodeId) -> bool {
    exists|p: Seq<EdgeId>| is_edge_path(g, p, from, to)
}

/// A path with one more edge at its end.
pub proof fn lemma_path_push(g: &V8HeapGraph, p: Seq<EdgeId>, from: NodeId, e: EdgeId)
    requires
        g.wf(),
        (e as int) < g.spec_edge_count(),
        is_edge_path(g, p, from, g.spec_source(e as int)),
    ensures
        is_edge_path(g, p.push(e), from, g.spec_target(e as int)),
{
    let q = p.push(e);
    assert forall|i: int| 0 <= i < q.len() implies (#[trigger] q[i] as int) < g.spec_edge_count() by {
        if i < p.len() {
            assert(q[i] == p[i]);
        }
    }
    if p.len() > 0 {
        assert(q[0] == p[0]);
        assert forall|i: int| 0 <= i < q.len() - 1 implies g.spec_target(#[trigger] q[i] as int)
            == g.spec_source(q[i + 1] as int) by {
            if i < p.len() - 1 {
                assert(q[i] == p[i] && q[i + 1] == p[i + 1]);
            } else {
                assert(q[i] == p.last());
            }
        }
    }
}

/// A set of nodes that holds `from` and, with each node, the targets of its
/// edges, holds every node that a path from `from` leads to.
pub proof fn lemma_closed_holds_connected(
    g: &V8HeapGraph,
    from: NodeId,
    inside: spec_fn(NodeId) -> bool,
    p: Seq<EdgeId>,
    to: NodeId,
)
    requires
        g.wf(),
        inside(from),
        forall|e: int|
            0 <= e < g.spec_edge_count() && inside(g.spec_source(e)) ==> inside(
                #[trigger] g.spec_target(e),
            ),
        is_edge_path(g, p, from, to),
    ensures
        inside(to),
    decreases p.len(),
{
    if p.len() > 0 {
        let q = p.drop_last();
        let e = p.last();
        assert((p[p.len() - 1] as int) < g.spec_edge_count());
        let mid = g.spec_source(e as int);
        assert(is_edge_path(g, q, from, mid)) by {
            assert forall|i: int| 0 <= i < q.len() implies (#[trigger] q[i] as int)
                < g.spec_edge_count() by {
                assert(q[i] == p[i]);
            }
            if q.len() > 0 {
                assert(q[0] == p[0]);
                assert(g.spec_target(p[p.len() - 2] as int) == g.spec_source(p[p.len() - 2 + 1] as int));
                assert forall|i: int| 0 <= i < q.len() - 1 implies g.spec_target(
                    #[trigger] q[i] as int,
                ) == g.spec_source(q[i + 1] as int) by {
                    assert(q[i] == p[i] && q[i + 1] == p[i + 1]);
                }
            }
        }
        lemma_closed_holds_connected(g, from, inside, q, mid);
        assert(inside(g.spec_target(e as int)));
    }
}

/// A path from the root to a node, as the edges that it follows.
#[derive(Clone, Debug, Default)]
pub struct RootPath(pub Vec<EdgeId>);

impl RootPath {
    /// The edges of the path, each with the node that it leaves.
    pub fn edges<'a>(&'a self, graph: &'a V8HeapGraph) -> (r: Vec<Edge<'a>>)
        requires
            graph.wf(),
            forall|i: int| 0 <= i < self.0@.len() ==> (#[trigger] self.0@[i] as int) < graph.spec_edge_count(),
        ensures
            r@.len() == self.0@.len(),
            forall|i: int|
                0 <= i < r@.len() ==> (#[trigger] r@[i]).wf() && r@[i].graph == graph && r@[i].id
                    == self.0@[i],
    {
        let mut out: Vec<Edge<'a>> = Vec::with_capacity(self.0.len());
        let mut i: usize = 0;
        while i < self.0.len()
            invariant
                graph.wf(),
                forall|k: int|
                    0 <= k < self.0@.len() ==> (#[trigger] self.0@[k] as int) < graph.spec_edge_count(),
                i <= self.0@.len(),
                out@.len() == i,
                forall|k: int|
                    0 <= k < i ==> (#[trigger] out@[k]).wf() && out@[k].graph == graph && out@[k].id
                        == self.0@[k],
            decreases self.0@.len() - i,
        {
            out.push(graph.edge(self.0[i]));
            i = i + 1;
        }
        out
    }
}

/// The paths found for a node, and whether there were more than were asked
/// for.
pub struct PathsFound {
    pub paths: Vec<RootPath>,
    pub truncated: bool,
}

/// For each node that can be reached from a root the edge over which a walk
/// in breadth from the root first arrived at it.
pub struct RootPaths {
    root: NodeId,
    paths: Vec<Vec<EdgeId>>,
    depth: Vec<u32>,
}

impl RootPaths {
    /// The root that the paths start from.
    pub closed spec fn spec_root(&self) -> NodeId {
        self.root
    }

    /// Whether the walk arrived at `x`.
    pub closed spec fn reached(&self, x: NodeId) -> bool {
        x == self.root || ((x as int) < self.paths@.len() && self.paths@[x as int]@.len() == 1)
    }

    /// The edge over which the walk arrived at `x`.
    pub closed spec fn spec_segment(&self, x: NodeId) -> EdgeId {
        self.paths@[x as int]@[0]
    }

    /// How many edges lead from the root to `x`.
    pub closed spec fn spec_depth(&self, x: NodeId) -> nat {
        self.depth@[x as int] as nat
    }

    /// The index holds a tree on the nodes of the graph: the root stands at
    /// depth 0, and every other node that the walk arrived at was arrived at
    /// over an edge of the graph that leaves a node one less deep.
    pub closed spec fn wf(&self, g: &V8HeapGraph) -> bool {
        &&& g.wf()
        &&& self.paths@.len() == g.spec_node_count()
        &&& self.depth@.len() == g.spec_node_count()
        &&& (self.root as int) < g.spec_node_count()
        &&& self.paths@[self.root as int]@.len() == 0
        &&& self.depth@[self.root as int] == 0
        &&& forall|x: int|
            0 <= x < self.paths@.len() ==> (#[trigger] self.paths@[x])@.len() <= 1
        &&& forall|x: NodeId|
            (x as int) < self.paths@.len() && (#[trigger] self.paths@[x as int])@.len() == 1 ==> {
                let e = self.paths@[x as int]@[0];
                &&& (e as int) < g.spec_edge_count()
                &&& g.spec_target(e as int) == x
                &&& self.reached(g.spec_source(e as int))
                &&& self.depth@[x as int] == self.depth@[g.spec_source(e as int) as int] + 1
            }
    }

    /// Whether every edge that leaves a node that the walk arrived at leads
    /// to a node that it arrived at, at most one deeper.
    pub closed spec fn levelled(&self, g: &V8HeapGraph) -> bool {
        forall|e: int|
            0 <= e < g.spec_edge_count() && self.reached(g.spec_source(e)) ==> self.reached(
                #[trigger] g.spec_target(e),
            ) && self.depth@[g.spec_target(e) as int] <= self.depth@[g.spec_source(e) as int] + 1
    }

    /// No path from the root to a node has fewer edges than the path that
    /// the index holds for the node.
    pub proof fn lemma_depth_least(&self, g: &V8HeapGraph, p: Seq<EdgeId>, x: NodeId)
        requires
            self.wf(g),
            self.levelled(g),
            is_edge_path(g, p, self.spec_root(), x),
        ensures
            self.reached(x),
            self.spec_depth(x) <= p.len(),
            self.spec_path(g, x).len() <= p.len(),
        decreases p.len(),
    {
        if p.len() > 0 {
            let e = p.last();
            let before = p.drop_last();
            assert(is_edge_path(g, before, self.spec_root(), g.spec_source(e as int))) by {
                assert forall|i: int| 0 <= i < before.len() implies (#[trigger] before[i] as int)
                    < g.spec_edge_count() by {
                    assert(before[i] == p[i]);
                }
                if before.len() > 0 {
                    assert(before[0] == p[0]);
                    assert(before.last() == p[p.len() - 2]);
                    assert forall|i: int| 0 <= i < before.len() - 1 implies g.spec_target(
                        #[trigger] before[i] as int,
                    ) == g.spec_source(before[i + 1] as int) by {
                        assert(before[i] == p[i] && before[i + 1] == p[i + 1]);
                    }
                }
            }
            self.lemma_depth_least(g, before, g.spec_source(e as int));
            assert(g.spec_target(e as int) == x);
        }
        assert((x as int) < g.spec_node_count()) by {
            if p.len() > 0 {
                assert((g.spec_target(p.last() as int) as int) < g.spec_node_count());
            }
        }
        self.lemma_path_valid(g, x);
    }

    /// The path from the root to `x` that the index holds, where `fuel` is
    /// at least the depth of `x`.
    pub open spec fn spec_path_upto(&self, g: &V8HeapGraph, x: NodeId, fuel: nat) -> Seq<EdgeId>
        decreases fuel,
    {
        if fuel == 0 || x == self.spec_root() || !self.reached(x) {
            Seq::empty()
        } else {
            self.spec_path_upto(
                g,
                g.spec_source(self.spec_segment(x) as int),
                (fuel - 1) as nat,
            ).push(self.spec_segment(x))
        }
    }

    /// The path from the root to `x` that the index holds.
    pub open spec fn spec_path(&self, g: &V8HeapGraph, x: NodeId) -> Seq<EdgeId> {
        self.spec_path_upto(g, x, self.spec_depth(x))
    }

    /// What is known of a node that the walk arrived at over an edge.
    pub proof fn lemma_segment(&self, g: &V8HeapGraph, x: NodeId)
        requires
            self.wf(g),
            (x as int) < g.spec_node_count(),
            self.reached(x),
            x != self.spec_root(),
        ensures
            (self.spec_segment(x) as int) < g.spec_edge_count(),
            g.spec_target(self.spec_segment(x) as int) == x,
            self.reached(g.spec_source(self.spec_segment(x) as int)),
            (g.spec_source(self.spec_segment(x) as int) as int) < g.spec_node_count(),
            self.spec_depth(x) == self.spec_depth(g.spec_source(self.spec_segment(x) as int)) + 1,
    {
        assert(self.paths@[x as int]@.len() == 1);
    }

    /// The graph of a well-formed index is well-formed.
    pub proof fn lemma_graph_wf(&self, g: &V8HeapGraph)
        requires
            self.wf(g),
        ensures
            g.wf(),
    {
    }

    /// The root stands at depth 0.
    pub proof fn lemma_root_depth(&self, g: &V8HeapGraph)
        requires
            self.wf(g),
        ensures
            self.spec_depth(self.spec_root()) == 0,
            (self.spec_root() as int) < g.spec_node_count(),
            self.reached(self.spec_root()),
    {
    }

    /// The path that the index holds for a node starts at the root, ends at
    /// the node, and follows edges of the graph of which each arrives where
    /// the next leaves.
    pub proof fn lemma_path_valid(&self, g: &V8HeapGraph, x: NodeId)
        requires
            self.wf(g),
            (x as int) < g.spec_node_count(),
            self.reached(x),
        ensures
            is_edge_path(g, self.spec_path(g, x), self.spec_root(), x),
            self.spec_path(g, x).len() == self.spec_depth(x),
        decreases self.spec_depth(x),
    {
        if x == self.spec_root() {
            self.lemma_root_depth(g);
        } else {
            self.lemma_segment(g, x);
            let e = self.spec_segment(x);
            let s = g.spec_source(e as int);
            self.lemma_path_valid(g, s);
            lemma_path_push(g, self.spec_path(g, s), self.spec_root(), e);
        }
    }

    /// All root paths for the given node, at most `max_paths` of them. The
    /// index holds one path for each node that can be reached from the root,
    /// so there is one path or none; where there is one and none was asked
    /// for, the result says that it was cut.
    pub fn paths_to(&self, node: NodeId, graph: &V8HeapGraph, max_paths: usize) -> (r: Result<
        PathsFound,
        AnalyzerError,
    >)
        requires
            self.wf(graph),
        ensures
            r is Err <==> (node as int) >= graph.spec_node_count(),
            r matches Err(e) ==> e is Query,
            r matches Ok(found) ==> {
                &&& found.truncated == (self.reached(node) && max_paths == 0)
                &&& found.paths@.len() == if self.reached(node) && max_paths > 0 {
                    1int
                } else {
                    0int
                }
                &&& forall|i: int|
                    0 <= i < found.paths@.len() ==> (#[trigger] found.paths@[i]).0@ == self.spec_path(
                        graph,
                        node,
                    )
                &&& forall|i: int|
                    0 <= i < found.paths@.len() ==> is_edge_path(
                        graph,
                        (#[trigger] found.paths@[i]).0@,
                        self.spec_root(),
                        node,
                    )
            },
    {
        if node as usize >= self.paths.len() {
            return Err(AnalyzerError::Query(unknown_node_message()));
        }
        let mut paths: Vec<RootPath> = Vec::new();
        let is_reached = node == self.root || self.paths[node as usize].len() == 1;
        if !is_reached {
            return Ok(PathsFound { paths, truncated: false });
        }
        if max_paths == 0 {
            return Ok(PathsFound { paths, truncated: true });
        }
        let mut rev: Vec<EdgeId> = Vec::new();
        let mut cur = node;
        while cur != self.root
            invariant
                self.wf(graph),
                (cur as int) < graph.spec_node_count(),
                self.reached(cur),
                self.spec_path(graph, node) == self.spec_path(graph, cur) + rev@.reverse(),
            decreases self.spec_depth(cur),
        {
            proof {
                self.lemma_segment(graph, cur);
            }
            let e = self.paths[cur as usize][0];
            let ghost before = rev@;
            rev.push(e);
            let prev = graph.edge(e).from_node();
            proof {
                assert(rev@.reverse() =~= seq![e] + before.reverse());
                assert(self.spec_path(graph, cur) == self.spec_path(graph, prev).push(e));
                assert(self.spec_path(graph, prev).push(e) + before.reverse() =~= self.spec_path(
                    graph,
                    prev,
                ) + rev@.reverse());
            }
            cur = prev;
        }
        proof {
            self.lemma_root_depth(graph);
            assert(self.spec_path(graph, cur) =~= Seq::<EdgeId>::empty());
            assert(self.spec_path(graph, node) =~= rev@.reverse());
            self.lemma_path_valid(graph, node);
        }
        let path = reversed(&rev);
        paths.push(RootPath(path));
        Ok(PathsFound { paths, truncated: false })
    }
}

/// What holds of the walk in breadth when the edges before `cursor` of the
/// node at `head - 1`, and all edges of the nodes before it in the queue,
/// have been followed.
spec fn walk_ok(
    g: &V8HeapGraph,
    root: NodeId,
    paths: Seq<Vec<EdgeId>>,
    depth: Seq<u32>,
    queue: Seq<NodeId>,
    bits: Seq<bool>,
    head: int,
    cursor: int,
) -> bool {
    let n = g.spec_node_count();
    &&& paths.len() == n
    &&& depth.len() == n
    &&& bits.len() == n
    &&& 1 <= queue.len()
    &&& queue[0] == root
    &&& (root as int) < n
    &&& 0 <= head <= queue.len()
    &&& forall|i: int| 0 <= i < queue.len() ==> (#[trigger] queue[i] as int) < n && bits[queue[i] as int]
    &&& forall|x: int| 0 <= x < n && #[trigger] bits[x] ==> queue.contains(x as NodeId)
    &&& forall|i: int| 0 <= i < queue.len() ==> depth[#[trigger] queue[i] as int] <= i
    &&& paths[root as int]@.len() == 0
    &&& depth[root as int] == 0
    &&& forall|x: int| 0 <= x < n ==> (#[trigger] paths[x])@.len() <= 1
    &&& forall|x: int| 0 <= x < n && x != root ==> (bits[x] <==> (#[trigger] paths[x])@.len() == 1)
    &&& forall|x: int|
        0 <= x < n && (#[trigger] paths[x])@.len() == 1 ==> {
            let e = paths[x]@[0];
            &&& (e as int) < g.spec_edge_count()
            &&& g.spec_target(e as int) == x
            &&& bits[g.spec_source(e as int) as int]
            &&& depth[x] == depth[g.spec_source(e as int) as int] + 1
        }
    &&& forall|i: int, e: int|
        0 <= i < head - 1 && #[trigger] g.owns_edge(queue[i] as int, e) ==> bits[g.spec_target(
            e,
        ) as int]
    &&& head >= 1 ==> forall|e: int|
        #[trigger] g.owns_edge(queue[head - 1] as int, e) && e < cursor ==> bits[g.spec_target(
            e,
        ) as int]
}

/// What holds of the depths in the walk in breadth when the edges before
/// `cursor` of the node at `head - 1`, and all edges of the nodes before it
/// in the queue, have been followed: the nodes stand in the queue by their
/// depth, none more than one deeper than the node at `head - 1`, and no
/// edge followed leads more than one deeper.
spec fn levels_ok(g: &V8HeapGraph, depth: Seq<u32>, queue: Seq<NodeId>, head: int, cursor: int) -> bool {
    &&& head == 0 ==> queue.len() == 1
    &&& forall|i: int, j: int|
        0 <= i <= j < queue.len() ==> depth[#[trigger] queue[i] as int] <= depth[#[trigger] queue[j] as int]
    &&& head >= 1 ==> forall|j: int|
        0 <= j < queue.len() ==> depth[#[trigger] queue[j] as int] <= depth[queue[head - 1] as int]
            + 1
    &&& forall|i: int, e: int|
        0 <= i < head - 1 && #[trigger] g.owns_edge(queue[i] as int, e) ==> depth[g.spec_target(
            e,
        ) as int] <= depth[queue[i] as int] + 1
    &&& head >= 1 ==> forall|e: int|
        #[trigger] g.owns_edge(queue[head - 1] as int, e) && e < cursor ==> depth[g.spec_target(
            e,
        ) as int] <= depth[queue[head - 1] as int] + 1
}

/// Walks the graph in breadth from `root`, over edges of every kind, and
/// keeps for each node the edge over which it was first arrived at. No way
/// from the root to a node is shorter than the one that is kept.
pub fn find_root_paths(graph: &V8HeapGraph, root: NodeId) -> (r: RootPaths)
    requires
        graph.wf(),
        (root as int) < graph.spec_node_count(),
    ensures
        r.wf(graph),
        r.levelled(graph),
        r.spec_root() == root,
        forall|x: NodeId|
            (x as int) < graph.spec_node_count() ==> (#[trigger] r.reached(x) <==> connects(
                graph,
                root,
                x,
            )),
{
    let n = graph.node_count();
    let mut paths: Vec<Vec<EdgeId>> = Vec::with_capacity(n);
    let mut i: usize = 0;
    while i < n
        invariant
            i <= n,
            paths@.len() == i,
            forall|x: int| 0 <= x < i ==> (#[trigger] paths@[x])@.len() == 0,
        decreases n - i,
    {
        paths.push(Vec::new());
        i = i + 1;
    }
    let mut depth: Vec<u32> = vec![0u32; n];
    let mut queue: Vec<NodeId> = Vec::new();
    let mut seen = FixedBitSet::with_capacity(n);
    let ghost mut unseen: Set<int> = vstd::set_lib::set_int_range(0, n as int);
    proof {
        vstd::set_lib::lemma_int_range(0, n as int);
    }
    // Root has an empty path
    queue.push(root);
    seen.put(root as usize);
    proof {
        unseen = unseen.remove(root as int);
        assert(queue@.contains(root)) by {
            assert(queue@[0] == root);
        }
    }
    let mut head: usize = 0;
    while head < queue.len()
        invariant
            graph.wf(),
            n == graph.spec_node_count(),
            walk_ok(graph, root, paths@, depth@, queue@, bitset_bits(seen), head as int, 0),
            levels_ok(graph, depth@, queue@, head as int, graph.spec_edge_count()),
            head >= 1 ==> forall|e: int|
                #[trigger] graph.owns_edge(queue@[head - 1] as int, e) ==> bitset_bits(
                    seen,
                )[graph.spec_target(e) as int],
            unseen.finite(),
            unseen.len() + queue@.len() == n,
            forall|x: int| unseen.contains(x) <==> 0 <= x < n && !bitset_bits(seen)[x],
        decreases n - head,
    {
        let from_node = queue[head];
        head = head + 1;
        proof {
            graph.lemma_edge_range(from_node as int);
        }
        let start = graph.node_out_edges[from_node as usize];
        let end = graph.node_out_edges[from_node as usize + 1];
        let mut e = start;
        proof {
            assert(levels_ok(graph, depth@, queue@, head as int, start as int)) by {
                if head >= 2 {
                    assert(depth@[queue@[head - 2] as int] <= depth@[queue@[head - 1] as int]);
                    graph.lemma_edge_range(queue@[head - 2] as int);
                    assert forall|i: int, e2: int|
                        0 <= i < head - 1 && #[trigger] graph.owns_edge(
                            queue@[i] as int,
                            e2,
                        ) implies depth@[graph.spec_target(e2) as int] <= depth@[queue@[i] as int]
                        + 1 by {
                        if i == head - 2 {
                            assert(e2 < graph.spec_edge_count());
                        }
                    }
                }
            }
        }
        while e < end
            invariant
                graph.wf(),
                n == graph.spec_node_count(),
                1 <= head <= queue@.len(),
                from_node == queue@[head - 1],
                start == graph.spec_first_edge(from_node as int),
                end == graph.spec_first_edge(from_node + 1),
                end <= graph.spec_edge_count(),
                start <= e <= end,
                walk_ok(graph, root, paths@, depth@, queue@, bitset_bits(seen), head as int, e as int),
                levels_ok(graph, depth@, queue@, head as int, e as int),
                unseen.finite(),
                unseen.len() + queue@.len() == n,
                forall|x: int| unseen.contains(x) <==> 0 <= x < n && !bitset_bits(seen)[x],
            decreases end - e,
        {
            assert(graph.owns_edge(from_node as int, e as int));
            assert((graph.spec_target(e as int) as int) < n);
            let to_node = graph.edges.to_nodes[e as usize];
            let ghost old_bits = bitset_bits(seen);
            let ghost old_queue = queue@;
            let ghost old_paths = paths@;
            let ghost old_depth = depth@;
            if !seen.put(to_node as usize) {
                proof {
                    assert(unseen.contains(to_node as int));
                    assert(unseen.len() >= 1) by {
                        if unseen.len() == 0 {
                            unseen.lemma_len0_is_empty();
                        }
                    }
                    unseen = unseen.remove(to_node as int);
                    assert(to_node != root);
                    assert(old_paths[to_node as int]@.len() == 0);
                    assert(old_depth[from_node as int] <= head - 1);
                }
                paths[to_node as usize].push(e);
                depth[to_node as usize] = depth[from_node as usize] + 1;
                queue.push(to_node);
                proof {
                    let bits = bitset_bits(seen);
                    assert forall|i: int| 0 <= i < queue@.len() implies (#[trigger] queue@[i] as int)
                        < n && bits[queue@[i] as int] by {
                        if i < old_queue.len() {
                            assert(queue@[i] == old_queue[i]);
                        }
                    }
                    assert forall|x: int| 0 <= x < n && #[trigger] bits[x] implies queue@.contains(
                        x as NodeId,
                    ) by {
                        if x == to_node {
                            assert(queue@[old_queue.len() as int] == to_node);
                        } else {
                            assert(old_bits[x]);
                            let i = choose|i: int| 0 <= i < old_queue.len() && old_queue[i] == x as NodeId;
                            assert(queue@[i] == x as NodeId);
                        }
                    }
                    assert forall|i: int| 0 <= i < queue@.len() implies depth@[#[trigger] queue@[i] as int]
                        <= i by {
                        if i < old_queue.len() {
                            assert(queue@[i] == old_queue[i]);
                            assert(old_bits[old_queue[i] as int]);
                        }
                    }
                    assert forall|x: int| 0 <= x < n && (#[trigger] paths@[x])@.len() == 1 implies {
                        let e2 = paths@[x]@[0];
                        &&& (e2 as int) < graph.spec_edge_count()
                        &&& graph.spec_target(e2 as int) == x
                        &&& bits[graph.spec_source(e2 as int) as int]
                        &&& depth@[x] == depth@[graph.spec_source(e2 as int) as int] + 1
                    } by {
                        if x == to_node {
                            assert(graph.spec_source(e as int) == from_node);
                        } else {
                            assert(paths@[x] == old_paths[x]);
                            let s = graph.spec_source(old_paths[x]@[0] as int);
                            assert(old_bits[s as int]);
                        }
                    }
                    assert forall|x: int| 0 <= x < n implies (#[trigger] paths@[x])@.len() <= 1 by {
                        if x != to_node {
                            assert(paths@[x] == old_paths[x]);
                        }
                    }
                    assert forall|x: int| 0 <= x < n && x != root implies (bits[x] <==> (
                    #[trigger] paths@[x])@.len() == 1) by {
                        if x != to_node {
                            assert(paths@[x] == old_paths[x]);
                        }
                    }
                    assert forall|i: int, e2: int|
                        0 <= i < head - 1 && #[trigger] graph.owns_edge(
                            queue@[i] as int,
                            e2,
                        ) implies bits[graph.spec_target(e2) as int] by {
                        assert(queue@[i] == old_queue[i]);
                        assert(graph.owns_edge(old_queue[i] as int, e2));
                        graph.lemma_edge_range(old_queue[i] as int);
                        assert((graph.spec_target(e2) as int) < n);
                        assert(old_bits[graph.spec_target(e2) as int]);
                    }
                    assert(queue@[head - 1] == old_queue[head - 1]);
                    assert(queue@[0] == old_queue[0]);
                    assert forall|e2: int|
                        #[trigger] graph.owns_edge(queue@[head - 1] as int, e2) && e2 < e
                            + 1 implies bits[graph.spec_target(e2) as int] by {
                        assert((graph.spec_target(e2) as int) < n);
                        if e2 < e {
                            assert(old_bits[graph.spec_target(e2) as int]);
                        }
                    }
                    lemma_levels_grow(
                        graph,
                        old_depth,
                        depth@,
                        old_queue,
                        queue@,
                        old_bits,
                        head as int,
                        e as int,
                    );
                }
            } else {
                proof {
                    assert(bitset_bits(seen) =~= old_bits);
                    assert(queue@.contains(to_node));
                    let j = choose|j: int| 0 <= j < queue@.len() && queue@[j] == to_node;
                    assert(depth@[queue@[j] as int] <= depth@[queue@[head - 1] as int] + 1);
                }
            }
            e = e + 1;
        }
    }
    let r = RootPaths { root, paths, depth };
    proof {
        let bits = bitset_bits(seen);
        assert forall|x: NodeId|
            (x as int) < r.paths@.len() && (#[trigger] r.paths@[x as int])@.len() == 1 implies {
            let e = r.paths@[x as int]@[0];
            &&& (e as int) < graph.spec_edge_count()
            &&& graph.spec_target(e as int) == x
            &&& r.reached(graph.spec_source(e as int))
            &&& r.depth@[x as int] == r.depth@[graph.spec_source(e as int) as int] + 1
        } by {
            let s = graph.spec_source(r.paths@[x as int]@[0] as int);
            assert(bits[s as int]);
            assert((s as int) < n);
        }
        assert(r.wf(graph));
        assert forall|e: int|
            0 <= e < graph.spec_edge_count() && r.reached(graph.spec_source(e)) implies r.reached(
            #[trigger] graph.spec_target(e),
        ) && r.depth@[graph.spec_target(e) as int] <= r.depth@[graph.spec_source(e) as int] + 1 by {
            let s = graph.spec_source(e);
            assert((s as int) < n);
            assert(bits[s as int]);
            assert(queue@.contains(s));
            let i = choose|i: int| 0 <= i < queue@.len() && queue@[i] == s;
            assert(graph.owns_edge(queue@[i] as int, e));
            assert((graph.spec_target(e) as int) < n);
            assert(bits[graph.spec_target(e) as int]);
        }
        assert(r.levelled(graph));
        assert forall|x: NodeId| (x as int) < graph.spec_node_count() implies (#[trigger] r.reached(
            x,
        ) <==> connects(graph, root, x)) by {
            if r.reached(x) {
                r.lemma_path_valid(graph, x);
            }
            if connects(graph, root, x) {
                let p = choose|p: Seq<EdgeId>| is_edge_path(graph, p, root, x);
                let inside = |y: NodeId| (y as int) < n && bits[y as int];
                assert(inside(root)) by {
                    assert(bits[queue@[0] as int]);
                }
                assert forall|e: int|
                    0 <= e < graph.spec_edge_count() && inside(graph.spec_source(e)) implies inside(
                    #[trigger] graph.spec_target(e),
                ) by {
                    let s = graph.spec_source(e);
                    assert(queue@.contains(s));
                    let i = choose|i: int| 0 <= i < queue@.len() && queue@[i] == s;
                    assert(graph.owns_edge(queue@[i] as int, e));
                    assert((graph.spec_target(e) as int) < n);
                }
                lemma_closed_holds_connected(graph, root, inside, p, x);
            }
        }
    }
    r
}

/// The depths stay in order when the walk arrives at a node over the edge
/// at `cursor`.
proof fn lemma_levels_grow(
    g: &V8HeapGraph,
    old_depth: Seq<u32>,
    depth: Seq<u32>,
    old_queue: Seq<NodeId>,
    queue: Seq<NodeId>,
    old_bits: Seq<bool>,
    head: int,
    cursor: int,
)
    requires
        g.wf(),
        levels_ok(g, old_depth, old_queue, head, cursor),
        1 <= head <= old_queue.len(),
        g.owns_edge(old_queue[head - 1] as int, cursor),
        old_bits.len() == g.spec_node_count(),
        old_depth.len() == g.spec_node_count(),
        forall|i: int|
            0 <= i < old_queue.len() ==> (#[trigger] old_queue[i] as int) < g.spec_node_count()
                && old_bits[old_queue[i] as int],
        !old_bits[g.spec_target(cursor) as int],
        (g.spec_target(cursor) as int) < g.spec_node_count(),
        forall|i: int, e: int|
            0 <= i < head - 1 && #[trigger] g.owns_edge(old_queue[i] as int, e) ==> old_bits[g.spec_target(
                e,
            ) as int],
        forall|e: int|
            #[trigger] g.owns_edge(old_queue[head - 1] as int, e) && e < cursor ==> old_bits[g.spec_target(
                e,
            ) as int],
        queue == old_queue.push(g.spec_target(cursor)),
        old_depth[old_queue[head - 1] as int] < u32::MAX,
        depth == old_depth.update(
            g.spec_target(cursor) as int,
            (old_depth[old_queue[head - 1] as int] + 1) as u32,
        ),
    ensures
        levels_ok(g, depth, queue, head, cursor + 1),
{
    let to = g.spec_target(cursor);
    let from = old_queue[head - 1];
    assert forall|i: int| 0 <= i < old_queue.len() implies depth[#[trigger] old_queue[i] as int]
        == old_depth[old_queue[i] as int] && queue[i] == old_queue[i] by {}
    assert forall|i: int, j: int| 0 <= i <= j < queue.len() implies depth[#[trigger] queue[i] as int]
        <= depth[#[trigger] queue[j] as int] by {
        if j < old_queue.len() {
            assert(old_depth[old_queue[i] as int] <= old_depth[old_queue[j] as int]);
        } else if i < old_queue.len() {
            assert(old_depth[old_queue[i] as int] <= old_depth[old_queue[head - 1] as int] + 1);
        }
    }
    assert forall|j: int| 0 <= j < queue.len() implies depth[#[trigger] queue[j] as int] <= depth[queue[head
        - 1] as int] + 1 by {
        if j < old_queue.len() {
            assert(old_depth[old_queue[j] as int] <= old_depth[old_queue[head - 1] as int] + 1);
        }
    }
    assert forall|i: int, e: int|
        0 <= i < head - 1 && #[trigger] g.owns_edge(queue[i] as int, e) implies depth[g.spec_target(
        e,
    ) as int] <= depth[queue[i] as int] + 1 by {
        assert(g.owns_edge(old_queue[i] as int, e));
        g.lemma_edge_range(old_queue[i] as int);
        assert((g.spec_target(e) as int) < g.spec_node_count());
        assert(old_bits[g.spec_target(e) as int]);
    }
    assert forall|e: int| #[trigger]
        g.owns_edge(queue[head - 1] as int, e) && e < cursor + 1 implies depth[g.spec_target(
        e,
    ) as int] <= depth[queue[head - 1] as int] + 1 by {
        g.lemma_edge_range(old_queue[head - 1] as int);
        assert((g.spec_target(e) as int) < g.spec_node_count());
        if e < cursor {
            assert(g.owns_edge(old_queue[head - 1] as int, e));
            assert(old_bits[g.spec_target(e) as int]);
        }
    }
}

/// The items of a vector, last first.
fn reversed(v: &Vec<EdgeId>) -> (r: Vec<EdgeId>)
    ensures
        r@ == v@.reverse(),
{
    let mut out: Vec<EdgeId> = Vec::with_capacity(v.len());
    let mut i: usize = v.len();
    while i > 0
        invariant
            i <= v@.len(),
            out@.len() == v@.len() - i,
            forall|k: int| 0 <= k < out@.len() ==> out@[k] == v@[v@.len() - 1 - k],
        decreases i,
    {
        i = i - 1;
        out.push(v[i]);
    }
    proof {
        assert(out@ =~= v@.reverse());
    }
    out
}

/// The text of the error for a question about a node that is not there.
fn unknown_node_message() -> (s: String)
    ensures
        s@ == "node is not part of the graph"@,
{
    let s = "node is not part of the graph".to_string();
    proof {
        vstd::string::to_string_from_display_ensures_for_str("node is not part of the graph", s);
    }
    s
}

} // verus!
