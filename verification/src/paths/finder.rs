use vstd::prelude::*;
use crate::graph::CompactGraph;
use crate::sorting::turned;
use crate::types::NodeId;
use std::collections::HashSet;

verus! {

/// A compact graph, to find in it why a node is alive.
pub struct RetentionPathFinder<'a> {
    pub graph: &'a CompactGraph,
}

/// A way from a root to a node: the nodes passed, and for each step the kind
/// and the name of the edge taken.
#[derive(Debug, Clone)]
pub struct RetentionPath {
    pub length: usize,
    pub nodes: Vec<NodeId>,
    pub edge_types: Vec<u8>,
    pub edge_names: Vec<String>,
}

/// Whether edge `e` is one of the edges that leave `from`.
pub open spec fn has_edge(g: &CompactGraph, from: NodeId, e: int) -> bool {
    g.spec_edge_start(from) <= e < g.spec_edge_end(from)
}

/// The name of edge `e`; the empty string where its name index stands for
/// no string.
pub open spec fn edge_label(g: &CompactGraph, e: int) -> Seq<char> {
    if (g.edge_names@[e] as int) < g.spec_strings().len() {
        g.spec_strings()[g.edge_names@[e] as int]
    } else {
        Seq::empty()
    }
}

/// Whether an edge leads from `from` to `to`.
pub open spec fn steps_to(g: &CompactGraph, from: NodeId, to: NodeId) -> bool {
    exists|e: int| has_edge(g, from, e) && #[trigger] g.edge_targets@[e] == to
}

/// Whether `nodes` is a walk from a root of the graph to `target`.
pub open spec fn is_root_walk(g: &CompactGraph, nodes: Seq<NodeId>, target: NodeId) -> bool {
    &&& nodes.len() >= 1
    &&& g.gc_roots@.contains(nodes[0])
    &&& nodes.last() == target
    &&& forall|i: int| 0 <= i < nodes.len() - 1 ==> steps_to(g, #[trigger] nodes[i], nodes[i + 1])
}

/// Whether a walk leads from a root of the graph to `target`.
pub open spec fn root_reachable(g: &CompactGraph, target: NodeId) -> bool {
    exists|nodes: Seq<NodeId>| is_root_walk(g, nodes, target)
}

/// Whether `p` is a retention path to `target`: a walk from a root to the
/// target, with the kind and name of an edge of the graph for each step.
pub open spec fn is_retention_path(g: &CompactGraph, p: RetentionPath, target: NodeId) -> bool {
    &&& p.length == p.nodes@.len()
    &&& p.nodes@.len() >= 1
    &&& p.edge_types@.len() == p.nodes@.len() - 1
    &&& p.edge_names@.len() == p.nodes@.len() - 1
    &&& g.gc_roots@.contains(p.nodes@[0])
    &&& p.nodes@.last() == target
    &&& forall|i: int|
        0 <= i < p.nodes@.len() - 1 ==> exists|e: int|
            has_edge(g, #[trigger] p.nodes@[i], e) && g.edge_targets@[e] == p.nodes@[i + 1]
                && g.edge_types@[e] == p.edge_types@[i] && edge_label(g, e) == p.edge_names@[i]@
}

/// Whether some walk from a root to `u` has fewer nodes than every walk
/// from a root to `target`: `u` is nearer to the roots than the target.
pub open spec fn is_nearer(g: &CompactGraph, u: NodeId, target: NodeId) -> bool {
    exists|walk: Seq<NodeId>| #[trigger]
        is_root_walk(g, walk, u) && forall|other: Seq<NodeId>| #[trigger]
            is_root_walk(g, other, target) ==> walk.len() < other.len()
}

/// Whether the last step of `p` is the edge `e` from `u`, as far as a path
/// tells: it comes from `u` and has the kind and the name of `e`.
pub open spec fn ends_with(g: &CompactGraph, p: RetentionPath, u: NodeId, e: int) -> bool {
    &&& p.nodes@.len() >= 2
    &&& p.edge_types@.len() == p.nodes@.len() - 1
    &&& p.edge_names@.len() == p.nodes@.len() - 1
    &&& p.nodes@[p.nodes@.len() - 2] == u
    &&& p.edge_types@[p.edge_types@.len() - 1] == g.edge_types@[e]
    &&& p.edge_names@[p.edge_names@.len() - 1]@ == edge_label(g, e)
}

/// Whether the edge `e` from `u` has its path among `paths`, or there are
/// as many paths as were asked for.
pub open spec fn is_covered(
    g: &CompactGraph,
    paths: Seq<RetentionPath>,
    u: NodeId,
    e: int,
    max_paths: usize,
) -> bool {
    paths.len() >= max_paths || exists|i: int|
        0 <= i < paths.len() && ends_with(g, #[trigger] paths[i], u, e)
}

/// What is covered stays covered when a path is added.
pub proof fn lemma_covered_on(
    g: &CompactGraph,
    before: Seq<RetentionPath>,
    after: Seq<RetentionPath>,
    u: NodeId,
    e: int,
    max_paths: usize,
)
    requires
        after.len() >= before.len(),
        forall|i: int| 0 <= i < before.len() ==> after[i] == before[i],
        is_covered(g, before, u, e, max_paths),
    ensures
        is_covered(g, after, u, e, max_paths),
{
    if before.len() < max_paths {
        let i = choose|i: int| 0 <= i < before.len() && ends_with(g, #[trigger] before[i], u, e);
        assert(ends_with(g, after[i], u, e));
    }
}

/// A retention path is a walk from a root.
pub proof fn lemma_retention_path_is_walk(g: &CompactGraph, p: RetentionPath, target: NodeId)
    requires
        is_retention_path(g, p, target),
    ensures
        is_root_walk(g, p.nodes@, target),
{
    assert forall|i: int| 0 <= i < p.nodes@.len() - 1 implies steps_to(
        g,
        #[trigger] p.nodes@[i],
        p.nodes@[i + 1],
    ) by {
        let e = choose|e: int|
            has_edge(g, p.nodes@[i], e) && g.edge_targets@[e] == p.nodes@[i + 1]
                && g.edge_types@[e] == p.edge_types@[i] && edge_label(g, e) == p.edge_names@[i]@;
        assert(g.edge_targets@[e] == p.nodes@[i + 1]);
    }
}

/// A set of nodes that holds the roots and, with each node, the targets of
/// its edges, holds every node that a walk from a root leads to.
pub proof fn lemma_closed_holds_walk(
    g: &CompactGraph,
    inside: spec_fn(NodeId) -> bool,
    nodes: Seq<NodeId>,
    k: int,
)
    requires
        nodes.len() >= 1,
        g.gc_roots@.contains(nodes[0]),
        forall|i: int| 0 <= i < nodes.len() - 1 ==> steps_to(g, #[trigger] nodes[i], nodes[i + 1]),
        forall|j: int| 0 <= j < g.gc_roots@.len() ==> inside(#[trigger] g.gc_roots@[j]),
        forall|x: NodeId, e: int|
            inside(x) && #[trigger] has_edge(g, x, e) ==> inside(g.edge_targets@[e]),
        0 <= k < nodes.len(),
    ensures
        inside(nodes[k]),
    decreases k,
{
    if k == 0 {
        let j = choose|j: int| 0 <= j < g.gc_roots@.len() && g.gc_roots@[j] == nodes[0];
        assert(inside(g.gc_roots@[j]));
    } else {
        lemma_closed_holds_walk(g, inside, nodes, k - 1);
        assert(steps_to(g, nodes[k - 1], nodes[k - 1 + 1]));
        let e = choose|e: int| has_edge(g, nodes[k - 1], e) && #[trigger] g.edge_targets@[e] == nodes[k];
        assert(inside(g.edge_targets@[e]));
    }
}

/// A node that the walk in breadth has come to: the node, and unless it is
/// a root the place in the walk of the node it was reached from, and the
/// edge over which it was reached.
struct Visit {
    node: NodeId,
    parent: Option<usize>,
    edge: usize,
}

/// Whether the visit at place `i` was made from a root or over an edge from
/// an earlier visit.
spec fn visit_ok(g: &CompactGraph, visits: Seq<Visit>, i: int) -> bool {
    match visits[i].parent {
        Some(p) => {
            &&& p < i
            &&& has_edge(g, visits[p as int].node, visits[i].edge as int)
            &&& g.edge_targets@[visits[i].edge as int] == visits[i].node
        },
        None => g.gc_roots@.contains(visits[i].node),
    }
}

/// Whether some visit is a visit of `x`.
spec fn visited(visits: Seq<Visit>, x: NodeId) -> bool {
    exists|i: int| 0 <= i < visits.len() && (#[trigger] visits[i]).node == x
}

/// How many edges lead from a root to the visit at place `i`.
spec fn depth_of(visits: Seq<Visit>, i: int) -> nat
    decreases i,
{
    if i < 0 {
        0
    } else {
        match visits[i].parent {
            Some(p) => if p < i {
                depth_of(visits, p as int) + 1
            } else {
                0
            },
            None => 0,
        }
    }
}

/// As `depth_of`, to be looked for.
spec fn level(visits: Seq<Visit>, i: int) -> int {
    depth_of(visits, i) as int
}

/// Whether some visit of `x` lies no deeper than `bound`.
spec fn met_within(visits: Seq<Visit>, x: NodeId, bound: int) -> bool {
    exists|j: int| 0 <= j < visits.len() && (#[trigger] visits[j]).node == x && level(visits, j) <= bound
}

/// What holds of the depths in the walk in breadth when all edges of the
/// visits before `done` have been followed: the visits stand by their
/// depth, each was made from a visit before `head`, every root has a visit
/// of depth 0, and every edge followed leads to a visit at most one deeper.
spec fn levels_ok(g: &CompactGraph, visits: Seq<Visit>, head: int, done: int) -> bool {
    &&& forall|i: int, j: int|
        0 <= i <= j < visits.len() ==> #[trigger] level(visits, i) <= #[trigger] level(visits, j)
    &&& forall|i: int|
        0 <= i < visits.len() ==> ((#[trigger] visits[i]).parent matches Some(p) ==> p < head)
    &&& forall|r: int| 0 <= r < g.gc_roots@.len() ==> met_within(visits, #[trigger] g.gc_roots@[r], 0)
    &&& forall|i: int, e: int|
        0 <= i < done && #[trigger] has_edge(g, visits[i].node, e) ==> met_within(
            visits,
            g.edge_targets@[e],
            level(visits, i) + 1,
        )
}

/// A visit more leaves the depths of the visits made before as they were.
proof fn lemma_depth_kept(before: Seq<Visit>, after: Seq<Visit>, i: int)
    requires
        after.len() >= before.len(),
        forall|k: int| 0 <= k < before.len() ==> after[k] == before[k],
        0 <= i < before.len(),
    ensures
        depth_of(after, i) == depth_of(before, i),
    decreases i,
{
    match before[i].parent {
        Some(p) => {
            if p < i {
                lemma_depth_kept(before, after, p as int);
            }
        },
        None => {},
    }
}

/// What was met within a bound is met within it after a visit more.
proof fn lemma_met_kept(before: Seq<Visit>, after: Seq<Visit>, x: NodeId, bound: int)
    requires
        after.len() >= before.len(),
        forall|k: int| 0 <= k < before.len() ==> after[k] == before[k],
        met_within(before, x, bound),
    ensures
        met_within(after, x, bound),
{
    let j = choose|j: int|
        0 <= j < before.len() && (#[trigger] before[j]).node == x && level(before, j) <= bound;
    lemma_depth_kept(before, after, j);
    assert(after[j].node == x && level(after, j) <= bound);
}

/// The depths stay in order when a visit is made from the visit at the
/// head, or from a root while no edge has been followed.
proof fn lemma_levels_on(
    g: &CompactGraph,
    before: Seq<Visit>,
    after: Seq<Visit>,
    head: int,
    done: int,
)
    requires
        levels_ok(g, before, head, done),
        after.len() == before.len() + 1,
        forall|k: int| 0 <= k < before.len() ==> after[k] == before[k],
        done <= before.len(),
        match after[before.len() as int].parent {
            Some(p) => p == head - 1 && 0 <= p < before.len() && forall|j: int|
                0 <= j < before.len() ==> #[trigger] level(before, j) <= level(before, p as int)
                    + 1,
            None => forall|j: int| 0 <= j < before.len() ==> #[trigger] level(before, j) == 0,
        },
    ensures
        forall|i: int, j: int|
            0 <= i <= j < after.len() ==> #[trigger] level(after, i) <= #[trigger] level(after, j),
        forall|i: int|
            0 <= i < after.len() ==> ((#[trigger] after[i]).parent matches Some(p) ==> p < head),
        forall|i: int, e: int|
            0 <= i < done && #[trigger] has_edge(g, after[i].node, e) ==> met_within(
                after,
                g.edge_targets@[e],
                level(after, i) + 1,
            ),
        forall|j: int| 0 <= j < before.len() ==> #[trigger] level(after, j) == level(before, j),
        forall|x: NodeId, bound: int| #[trigger] met_within(before, x, bound) ==> met_within(after, x, bound),
{
    let n = before.len() as int;
    assert forall|j: int| 0 <= j < n implies #[trigger] level(after, j) == level(before, j) by {
        lemma_depth_kept(before, after, j);
    }
    assert forall|x: NodeId, bound: int| #[trigger] met_within(before, x, bound) implies met_within(
        after,
        x,
        bound,
    ) by {
        lemma_met_kept(before, after, x, bound);
    }
    assert forall|i: int, j: int| 0 <= i <= j < after.len() implies #[trigger] level(after, i)
        <= #[trigger] level(after, j) by {
        if j < n {
            assert(level(before, i) <= level(before, j));
        } else if i < n {
            match after[n].parent {
                Some(p) => {
                    assert(level(before, i) <= level(before, p as int) + 1);
                    lemma_depth_kept(before, after, p as int);
                },
                None => {
                    assert(level(before, i) == 0);
                },
            }
        }
    }
    assert forall|i: int, e: int|
        0 <= i < done && #[trigger] has_edge(g, after[i].node, e) implies met_within(
        after,
        g.edge_targets@[e],
        level(after, i) + 1,
    ) by {
        assert(has_edge(g, before[i].node, e));
        lemma_met_kept(before, after, g.edge_targets@[e], level(before, i) + 1);
    }
}

/// A node that a walk from a root reaches over no more edges than lead to
/// the visit at `head` has a visit, no deeper than the walk is long.
proof fn lemma_near_is_met(g: &CompactGraph, visits: Seq<Visit>, head: int, nodes: Seq<NodeId>, x: NodeId)
    requires
        0 <= head < visits.len(),
        levels_ok(g, visits, visits.len() as int, head),
        is_root_walk(g, nodes, x),
        nodes.len() - 1 <= level(visits, head),
    ensures
        met_within(visits, x, nodes.len() - 1),
    decreases nodes.len(),
{
    if nodes.len() == 1 {
        let r = choose|r: int| 0 <= r < g.gc_roots@.len() && g.gc_roots@[r] == nodes[0];
        assert(met_within(visits, g.gc_roots@[r], 0));
    } else {
        let before = nodes.drop_last();
        let y = before.last();
        assert(is_root_walk(g, before, y)) by {
            assert(before[0] == nodes[0]);
            assert forall|i: int| 0 <= i < before.len() - 1 implies steps_to(
                g,
                #[trigger] before[i],
                before[i + 1],
            ) by {
                assert(before[i] == nodes[i] && before[i + 1] == nodes[i + 1]);
                assert(steps_to(g, nodes[i], nodes[i + 1]));
            }
        }
        lemma_near_is_met(g, visits, head, before, y);
        let i = choose|i: int|
            0 <= i < visits.len() && (#[trigger] visits[i]).node == y && level(visits, i)
                <= before.len() - 1;
        assert(i < head) by {
            if i >= head {
                assert(level(visits, head) <= level(visits, i));
            }
        }
        assert(y == nodes[nodes.len() - 2]);
        assert(steps_to(g, nodes[nodes.len() - 2], nodes[nodes.len() - 1]));
        let e = choose|e: int| has_edge(g, y, e) && #[trigger] g.edge_targets@[e] == x;
        assert(has_edge(g, visits[i].node, e));
        assert(met_within(visits, g.edge_targets@[e], level(visits, i) + 1));
        let j = choose|j: int|
            0 <= j < visits.len() && (#[trigger] visits[j]).node == x && level(visits, j) <= level(
                visits,
                i,
            ) + 1;
        assert(visits[j].node == x && level(visits, j) <= nodes.len() - 1);
    }
}

/// The trail of a visit has a node for each edge that leads to it, and one
/// more.
proof fn lemma_trail_len(visits: Seq<Visit>, i: int)
    requires
        0 <= i < visits.len(),
    ensures
        trail(visits, i).len() == depth_of(visits, i) + 1,
    decreases i,
{
    match visits[i].parent {
        Some(p) => {
            if p < i {
                lemma_trail_len(visits, p as int);
            }
        },
        None => {},
    }
}

/// The nodes from a root to the visit at place `i`.
spec fn trail(visits: Seq<Visit>, i: int) -> Seq<NodeId>
    decreases i,
{
    if i < 0 {
        Seq::empty()
    } else {
        match visits[i].parent {
            Some(p) => if p < i {
                trail(visits, p as int).push(visits[i].node)
            } else {
                seq![visits[i].node]
            },
            None => seq![visits[i].node],
        }
    }
}

impl<'a> RetentionPathFinder<'a> {
    /// A finder of paths in the graph.
    pub fn new(graph: &'a CompactGraph) -> (r: Self)
        ensures
            r.graph == graph,
    {
        Self { graph }
    }

    /// The first and the last place of the edges of a node in the edge
    /// columns; an empty stretch for a node that the graph does not have.
    fn edge_range(&self, node: NodeId) -> (r: (usize, usize))
        requires
            self.graph.wf(),
        ensures
            r.0 == self.graph.spec_edge_start(node),
            r.1 == self.graph.spec_edge_end(node),
            r.0 <= r.1 <= self.graph.edge_types@.len(),
    {
        if (node as usize) < self.graph.node_edge_ranges.len() {
            let (start, end) = self.graph.node_edge_ranges[node as usize];
            (start as usize, end as usize)
        } else {
            (0, 0)
        }
    }

    /// The name of an edge; the empty string where its name index stands
    /// for no string.
    fn label(&self, e: usize) -> (r: String)
        requires
            self.graph.wf(),
            e < self.graph.edge_types@.len(),
        ensures
            r@ == edge_label(self.graph, e as int),
    {
        match self.graph.string_table.get(self.graph.edge_names[e]) {
            Some(s) => s.to_string(),
            None => String::new(),
        }
    }

    /// Up to `max_paths` ways from a root to `target`. The graph is walked
    /// in breadth from its roots until the target is reached; then every
    /// edge to the target from a node reached by then gives a path.
    pub fn find_paths(&self, target: NodeId, max_paths: usize) -> (paths: Vec<RetentionPath>)
        requires
            self.graph.wf(),
        ensures
            paths@.len() <= max_paths,
            forall|i: int|
                0 <= i < paths@.len() ==> is_retention_path(self.graph, #[trigger] paths@[i], target),
            paths@.len() == 0 <==> max_paths == 0 || !root_reachable(self.graph, target),
            forall|u: NodeId, e: int|
                is_nearer(self.graph, u, target) && #[trigger] has_edge(self.graph, u, e)
                    && self.graph.edge_targets@[e] == target ==> is_covered(
                    self.graph,
                    paths@,
                    u,
                    e,
                    max_paths,
                ),
    {
        broadcast use vstd::std_specs::hash::group_hash_axioms;

        let mut paths: Vec<RetentionPath> = Vec::new();
        let visits = self.walk_until(target);
        match visits {
            None => {
                proof {
                    assert forall|u: NodeId, e: int|
                        is_nearer(self.graph, u, target) && #[trigger] has_edge(self.graph, u, e)
                            && self.graph.edge_targets@[e] == target implies is_covered(
                        self.graph,
                        paths@,
                        u,
                        e,
                        max_paths,
                    ) by {
                        lemma_walk_on(self.graph, u, e);
                    }
                }
                paths
            },
            Some(visits) => {
                proof {
                    let i = choose|i: int| 0 <= i < visits@.len() && (#[trigger] visits@[i]).node == target;
                    lemma_trail(self.graph, visits@, i);
                    assert(is_root_walk(self.graph, trail(visits@, i), target));
                }
                if max_paths == 0 {
                    return paths;
                }
                let mut k: usize = 0;
                while k < visits.len() && paths.len() < max_paths
                    invariant
                        self.graph.wf(),
                        max_paths > 0,
                        k <= visits@.len(),
                        forall|i: int, d: int|
                            0 <= i < k && visits@[i].node != target && #[trigger] has_edge(
                                self.graph,
                                visits@[i].node,
                                d,
                            ) && self.graph.edge_targets@[d] == target ==> is_covered(
                                self.graph,
                                paths@,
                                visits@[i].node,
                                d,
                                max_paths,
                            ),
                        forall|i: int| 0 <= i < visits@.len() ==> visit_ok(self.graph, visits@, i),
                        paths@.len() <= max_paths,
                        forall|i: int|
                            0 <= i < paths@.len() ==> is_retention_path(
                                self.graph,
                                #[trigger] paths@[i],
                                target,
                            ),
                        forall|i: int|
                            0 <= i < k && (#[trigger] visits@[i]).node == target ==> paths@.len() > 0,
                        forall|i: int|
                            0 <= i < visits@.len() && (#[trigger] visits@[i]).node == target
                                && visits@[i].parent is Some && visits@[i].parent->0 < k ==> paths@.len() > 0,
                    decreases visits@.len() - k,
                {
                    let v = visits[k].node;
                    let ghost at_k = paths@;
                    if v == target {
                        if visits[k].parent.is_none() {
                            proof {
                                lemma_trail(self.graph, visits@, k as int);
                            }
                            let path = self.path_to(&visits, k, None);
                            paths.push(path);
                        }
                        proof {
                            assert(visit_ok(self.graph, visits@, k as int));
                        }
                    } else {
                        let (start, end) = self.edge_range(v);
                        let mut e = start;
                        while e < end && paths.len() < max_paths
                            invariant
                                self.graph.wf(),
                                max_paths > 0,
                                k < visits@.len(),
                                v == visits@[k as int].node,
                                v != target,
                                start == self.graph.spec_edge_start(v),
                                end == self.graph.spec_edge_end(v),
                                start <= e <= end <= self.graph.edge_types@.len(),
                                forall|i: int|
                                    0 <= i < visits@.len() ==> visit_ok(self.graph, visits@, i),
                                paths@.len() <= max_paths,
                                forall|i: int|
                                    0 <= i < paths@.len() ==> is_retention_path(
                                        self.graph,
                                        #[trigger] paths@[i],
                                        target,
                                    ),
                                forall|i: int|
                                    0 <= i < k && (#[trigger] visits@[i]).node == target
                                        ==> paths@.len() > 0,
                                forall|i: int|
                            0 <= i < visits@.len() && (#[trigger] visits@[i]).node == target
                                && visits@[i].parent is Some && visits@[i].parent->0 < k ==> paths@.len() > 0,
                                forall|d: int|
                                    start <= d < e && #[trigger] self.graph.edge_targets@[d] == target
                                        ==> paths@.len() > 0,
                                paths@.len() >= at_k.len(),
                                forall|i: int| 0 <= i < at_k.len() ==> paths@[i] == at_k[i],
                                forall|d: int|
                                    start <= d < e && #[trigger] self.graph.edge_targets@[d] == target
                                        ==> is_covered(self.graph, paths@, v, d, max_paths),
                            decreases end - e,
                        {
                            if self.graph.edge_targets[e] == target {
                                let ghost before = paths@;
                                let path = self.path_to(&visits, k, Some(e));
                                paths.push(path);
                                proof {
                                    assert(has_edge(self.graph, v, e as int));
                                    assert(ends_with(
                                        self.graph,
                                        paths@[before.len() as int],
                                        v,
                                        e as int,
                                    ));
                                    assert forall|d: int|
                                        start <= d < e + 1 && #[trigger] self.graph.edge_targets@[d]
                                            == target implies is_covered(
                                        self.graph,
                                        paths@,
                                        v,
                                        d,
                                        max_paths,
                                    ) by {
                                        if d < e {
                                            lemma_covered_on(
                                                self.graph,
                                                before,
                                                paths@,
                                                v,
                                                d,
                                                max_paths,
                                            );
                                        }
                                    }
                                }
                            }
                            e = e + 1;
                        }
                        proof {
                            assert forall|i: int|
                                0 <= i < visits@.len() && (#[trigger] visits@[i]).node == target
                                    && visits@[i].parent is Some && visits@[i].parent->0 < k
                                    + 1 implies paths@.len() > 0 by {
                                if visits@[i].parent->0 == k {
                                    assert(visit_ok(self.graph, visits@, i));
                                    if paths@.len() < max_paths {
                                        assert(self.graph.edge_targets@[visits@[i].edge as int]
                                            == target);
                                    }
                                }
                            }
                        }
                    }
                    proof {
                        assert forall|i: int, d: int|
                            0 <= i < k + 1 && visits@[i].node != target && #[trigger] has_edge(
                                self.graph,
                                visits@[i].node,
                                d,
                            ) && self.graph.edge_targets@[d] == target implies is_covered(
                            self.graph,
                            paths@,
                            visits@[i].node,
                            d,
                            max_paths,
                        ) by {
                            if i < k {
                                lemma_covered_on(
                                    self.graph,
                                    at_k,
                                    paths@,
                                    visits@[i].node,
                                    d,
                                    max_paths,
                                );
                            }
                        }
                    }
                    k = k + 1;
                }
                proof {
                    let i = choose|i: int| 0 <= i < visits@.len() && (#[trigger] visits@[i]).node == target;
                    assert(visit_ok(self.graph, visits@, i));
                    assert forall|u: NodeId, e: int|
                        is_nearer(self.graph, u, target) && #[trigger] has_edge(self.graph, u, e)
                            && self.graph.edge_targets@[e] == target implies is_covered(
                        self.graph,
                        paths@,
                        u,
                        e,
                        max_paths,
                    ) by {
                        if paths@.len() < max_paths {
                            assert(visited(visits@, u));
                            let j = choose|j: int|
                                0 <= j < visits@.len() && (#[trigger] visits@[j]).node == u;
                            lemma_nearer_differs(self.graph, u, target);
                        }
                    }
                }
                paths
            },
        }
    }

    /// The path from a root to the visit at place `k`, and on over the edge
    /// `last` where one is given.
    fn path_to(&self, visits: &Vec<Visit>, k: usize, last: Option<usize>) -> (path: RetentionPath)
        requires
            self.graph.wf(),
            k < visits@.len(),
            forall|i: int| 0 <= i < visits@.len() ==> visit_ok(self.graph, visits@, i),
            last matches Some(e) ==> has_edge(self.graph, visits@[k as int].node, e as int),
        ensures
            is_retention_path(
                self.graph,
                path,
                match last {
                    Some(e) => self.graph.edge_targets@[e as int],
                    None => visits@[k as int].node,
                },
            ),
            last matches Some(e) ==> ends_with(self.graph, path, visits@[k as int].node, e as int),
    {
        let g = self.graph;
        let mut nodes: Vec<NodeId> = Vec::new();
        let mut edge_types: Vec<u8> = Vec::new();
        let mut edge_names: Vec<String> = Vec::new();
        if let Some(e) = last {
            nodes.push(g.edge_targets[e]);
            edge_types.push(g.edge_types[e]);
            edge_names.push(self.label(e));
        }
        let ghost goal = nodes@;
        let mut cur = k;
        nodes.push(visits[cur].node);
        let mut at_root = visits[cur].parent.is_none();
        // Gathered from the end of the path; turned round below
        while !at_root
            invariant
                g == self.graph,
                g.wf(),
                cur < visits@.len(),
                forall|i: int| 0 <= i < visits@.len() ==> visit_ok(g, visits@, i),
                at_root == (visits@[cur as int].parent is None),
                nodes@.len() >= 1,
                nodes@.len() == edge_types@.len() + 1,
                edge_names@.len() == edge_types@.len(),
                nodes@.last() == visits@[cur as int].node,
                nodes@[0] == match last {
                    Some(e) => g.edge_targets@[e as int],
                    None => visits@[k as int].node,
                },
                last matches Some(e) ==> nodes@.len() >= 2 && nodes@[1] == visits@[k as int].node
                    && edge_types@[0] == g.edge_types@[e as int] && edge_names@[0]@ == edge_label(
                    g,
                    e as int,
                ),
                forall|i: int|
                    0 <= i < nodes@.len() - 1 ==> exists|e: int|
                        has_edge(g, #[trigger] nodes@[i + 1], e) && g.edge_targets@[e] == nodes@[i]
                            && g.edge_types@[e] == edge_types@[i] && edge_label(g, e)
                            == edge_names@[i]@,
            decreases cur,
        {
            assert(visit_ok(g, visits@, cur as int));
            let p = visits[cur].parent.unwrap();
            let e = visits[cur].edge;
            let ghost old_nodes = nodes@;
            let ghost old_types = edge_types@;
            let ghost old_names = edge_names@;
            edge_types.push(g.edge_types[e]);
            edge_names.push(self.label(e));
            nodes.push(visits[p].node);
            proof {
                assert forall|i: int| 0 <= i < nodes@.len() - 1 implies exists|e2: int|
                    has_edge(g, #[trigger] nodes@[i + 1], e2) && g.edge_targets@[e2] == nodes@[i]
                        && g.edge_types@[e2] == edge_types@[i] && edge_label(g, e2)
                        == edge_names@[i]@ by {
                    if i < old_nodes.len() - 1 {
                        assert(nodes@[i + 1] == old_nodes[i + 1]);
                        let e2 = choose|e2: int|
                            has_edge(g, #[trigger] old_nodes[i + 1], e2) && g.edge_targets@[e2]
                                == old_nodes[i] && g.edge_types@[e2] == old_types[i] && edge_label(
                                g,
                                e2,
                            ) == old_names[i]@;
                        assert(has_edge(g, nodes@[i + 1], e2) && g.edge_targets@[e2] == nodes@[i]
                            && g.edge_types@[e2] == edge_types@[i] && edge_label(g, e2)
                            == edge_names@[i]@);
                    } else {
                        assert(has_edge(g, nodes@[i + 1], e as int) && g.edge_targets@[e as int]
                            == nodes@[i] && g.edge_types@[e as int] == edge_types@[i] && edge_label(
                            g,
                            e as int,
                        ) == edge_names@[i]@);
                    }
                }
            }
            cur = p;
            at_root = visits[cur].parent.is_none();
        }
        proof {
            assert(visit_ok(g, visits@, cur as int));
        }
        let ghost rn = nodes@;
        let ghost rt = edge_types@;
        let ghost rm = edge_names@;
        let nodes = turned(nodes);
        let edge_types = turned(edge_types);
        let edge_names = turned(edge_names);
        let path = RetentionPath { length: nodes.len(), nodes, edge_types, edge_names };
        proof {
            let n = path.nodes@.len() as int;
            assert(path.nodes@[0] == rn[n - 1]);
            assert(path.nodes@[n - 1] == rn[0]);
            if last is Some {
                assert(path.nodes@[n - 2] == rn[1]);
                assert(path.edge_types@[n - 2] == rt[0]);
                assert(path.edge_names@[n - 2] == rm[0]);
            }
            assert forall|i: int| 0 <= i < n - 1 implies exists|e: int|
                has_edge(g, #[trigger] path.nodes@[i], e) && g.edge_targets@[e] == path.nodes@[i + 1]
                    && g.edge_types@[e] == path.edge_types@[i] && edge_label(g, e)
                    == path.edge_names@[i]@ by {
                let j = n - 2 - i;
                assert(path.nodes@[i] == rn[j + 1]);
                assert(path.nodes@[i + 1] == rn[j]);
                assert(path.edge_types@[i] == rt[j]);
                assert(path.edge_names@[i] == rm[j]);
                let e = choose|e: int|
                    has_edge(g, #[trigger] rn[j + 1], e) && g.edge_targets@[e] == rn[j]
                        && g.edge_types@[e] == rt[j] && edge_label(g, e) == rm[j]@;
                assert(has_edge(g, path.nodes@[i], e) && g.edge_targets@[e] == path.nodes@[i + 1]
                    && g.edge_types@[e] == path.edge_types@[i] && edge_label(g, e)
                    == path.edge_names@[i]@);
            }
        }
        path
    }

    /// Walks the graph in breadth from its roots until it comes to
    /// `target`. Hands out the visits made, in their order, where it came to
    /// the target, and nothing where no walk from a root leads there.
    fn walk_until(&self, target: NodeId) -> (r: Option<Vec<Visit>>)
        requires
            self.graph.wf(),
        ensures
            r is None ==> !root_reachable(self.graph, target),
            r matches Some(visits) ==> {
                &&& visited(visits@, target)
                &&& forall|i: int| 0 <= i < visits@.len() ==> visit_ok(self.graph, visits@, i)
                &&& forall|u: NodeId| #[trigger] is_nearer(self.graph, u, target) ==> visited(visits@, u)
            },
    {
        broadcast use vstd::std_specs::hash::group_hash_axioms;

        let g = self.graph;
        let mut visits: Vec<Visit> = Vec::new();
        let mut seen: HashSet<NodeId> = HashSet::new();
        let ghost mut unseen: Set<int> = vstd::set_lib::set_int_range(0, 0x1_0000_0000);
        proof {
            vstd::set_lib::lemma_int_range(0, 0x1_0000_0000);
        }
        // Start from all GC roots
        let mut j: usize = 0;
        while j < g.gc_roots.len()
            invariant
                g == self.graph,
                g.wf(),
                j <= g.gc_roots@.len(),
                forall|i: int| 0 <= i < visits@.len() ==> visit_ok(g, visits@, i),
                forall|x: NodeId| seen@.contains(x) <==> visited(visits@, x),
                forall|i: int| 0 <= i < j ==> seen@.contains(#[trigger] g.gc_roots@[i]),
                forall|i: int| 0 <= i < visits@.len() ==> (#[trigger] visits@[i]).parent is None,
                unseen.finite(),
                unseen.len() + visits@.len() == 0x1_0000_0000,
                forall|x: int| unseen.contains(x) <==> 0 <= x < 0x1_0000_0000 && !seen@.contains(x as NodeId),
            decreases g.gc_roots@.len() - j,
        {
            let root = g.gc_roots[j];
            if !seen.contains(&root) {
                let ghost old_visits = visits@;
                seen.insert(root);
                visits.push(Visit { node: root, parent: None, edge: 0 });
                proof {
                    unseen = unseen.remove(root as int);
                    lemma_visit_added(g, old_visits, visits@);
                    assert(g.gc_roots@.contains(g.gc_roots@[j as int]));
                }
            }
            j = j + 1;
        }
        proof {
            assert forall|r: int| 0 <= r < g.gc_roots@.len() implies met_within(
                visits@,
                #[trigger] g.gc_roots@[r],
                0,
            ) by {
                assert(seen@.contains(g.gc_roots@[r]));
                let i = choose|i: int|
                    0 <= i < visits@.len() && (#[trigger] visits@[i]).node == g.gc_roots@[r];
                assert(visits@[i].parent is None);
                assert(level(visits@, i) == 0);
            }
            assert forall|i: int, k: int| 0 <= i <= k < visits@.len() implies #[trigger] level(
                visits@,
                i,
            ) <= #[trigger] level(visits@, k) by {
                assert(visits@[i].parent is None && visits@[k].parent is None);
            }
            assert forall|k: int| 0 <= k < visits@.len() implies #[trigger] level(visits@, k)
                == 0 by {
                assert(visits@[k].parent is None);
            }
            assert(levels_ok(g, visits@, 0, 0));
        }
        let mut reached = seen.contains(&target);
        let mut head: usize = 0;
        while !reached && head < visits.len()
            invariant
                g == self.graph,
                g.wf(),
                head <= visits@.len(),
                reached == seen@.contains(target),
                forall|i: int| 0 <= i < visits@.len() ==> visit_ok(g, visits@, i),
                forall|x: NodeId| seen@.contains(x) <==> visited(visits@, x),
                forall|i: int| 0 <= i < g.gc_roots@.len() ==> seen@.contains(#[trigger] g.gc_roots@[i]),
                !reached ==> forall|i: int, e: int|
                    0 <= i < head && #[trigger] has_edge(g, visits@[i].node, e) ==> seen@.contains(
                        g.edge_targets@[e],
                    ),
                levels_ok(
                    g,
                    visits@,
                    head as int,
                    if reached && head >= 1 {
                        head - 1
                    } else {
                        head as int
                    },
                ),
                !reached && head < visits@.len() ==> forall|k: int|
                    0 <= k < visits@.len() ==> #[trigger] level(visits@, k) <= level(
                        visits@,
                        head as int,
                    ) + 1,
                unseen.finite(),
                unseen.len() + visits@.len() == 0x1_0000_0000,
                forall|x: int| unseen.contains(x) <==> 0 <= x < 0x1_0000_0000 && !seen@.contains(x as NodeId),
            decreases unseen.len(), visits@.len() - head,
        {
            let current = visits[head].node;
            let ghost len0 = visits@.len();
            let (start, end) = self.edge_range(current);
            let mut e = start;
            proof {
                assert(levels_ok(g, visits@, head + 1, head as int));
            }
            while e < end && !reached
                invariant
                    g == self.graph,
                    g.wf(),
                    head < visits@.len(),
                    current == visits@[head as int].node,
                    start == g.spec_edge_start(current),
                    end == g.spec_edge_end(current),
                    start <= e <= end <= g.edge_types@.len(),
                    reached == seen@.contains(target),
                    forall|i: int| 0 <= i < visits@.len() ==> visit_ok(g, visits@, i),
                    forall|x: NodeId| seen@.contains(x) <==> visited(visits@, x),
                    forall|i: int|
                        0 <= i < g.gc_roots@.len() ==> seen@.contains(#[trigger] g.gc_roots@[i]),
                    forall|i: int, d: int|
                        0 <= i < head && #[trigger] has_edge(g, visits@[i].node, d)
                            ==> seen@.contains(g.edge_targets@[d]),
                    forall|d: int| start <= d < e ==> seen@.contains(#[trigger] g.edge_targets@[d]),
                    levels_ok(g, visits@, head + 1, head as int),
                    forall|k: int|
                        0 <= k < visits@.len() ==> #[trigger] level(visits@, k) <= level(
                            visits@,
                            head as int,
                        ) + 1,
                    forall|d: int|
                        start <= d < e ==> met_within(
                            visits@,
                            #[trigger] g.edge_targets@[d],
                            level(visits@, head as int) + 1,
                        ),
                    visits@.len() >= len0,
                    unseen.finite(),
                    unseen.len() + visits@.len() == 0x1_0000_0000,
                    forall|x: int|
                        unseen.contains(x) <==> 0 <= x < 0x1_0000_0000 && !seen@.contains(
                            x as NodeId,
                        ),
                decreases end - e,
            {
                let to = g.edge_targets[e];
                if !seen.contains(&to) {
                    let ghost old_visits = visits@;
                    seen.insert(to);
                    visits.push(Visit { node: to, parent: Some(head), edge: e });
                    proof {
                        unseen = unseen.remove(to as int);
                        lemma_visit_added(g, old_visits, visits@);
                        lemma_levels_on(g, old_visits, visits@, head + 1, head as int);
                        let last = old_visits.len() as int;
                        assert(level(visits@, last) == level(visits@, head as int) + 1);
                        assert(visits@[last].node == to);
                        assert(met_within(visits@, to, level(visits@, head as int) + 1));
                        assert forall|r: int| 0 <= r < g.gc_roots@.len() implies met_within(
                            visits@,
                            #[trigger] g.gc_roots@[r],
                            0,
                        ) by {
                            assert(met_within(old_visits, g.gc_roots@[r], 0));
                        }
                        assert forall|d: int| start <= d < e + 1 implies met_within(
                            visits@,
                            #[trigger] g.edge_targets@[d],
                            level(visits@, head as int) + 1,
                        ) by {
                            if d < e {
                                assert(met_within(
                                    old_visits,
                                    g.edge_targets@[d],
                                    level(old_visits, head as int) + 1,
                                ));
                            }
                        }
                        assert(levels_ok(g, visits@, head + 1, head as int));
                        assert(has_edge(g, visits@[head as int].node, e as int));
                        assert(visit_ok(g, visits@, visits@.len() - 1));
                        assert forall|i: int, d: int|
                            0 <= i < head && #[trigger] has_edge(
                                g,
                                visits@[i].node,
                                d,
                            ) implies seen@.contains(g.edge_targets@[d]) by {
                            assert(visits@[i] == old_visits[i]);
                            assert(has_edge(g, old_visits[i].node, d));
                        }
                    }
                    if to == target {
                        reached = true;
                    }
                } else {
                    proof {
                        let i = choose|i: int| 0 <= i < visits@.len() && (#[trigger] visits@[i]).node == to;
                        assert(level(visits@, i) <= level(visits@, head as int) + 1);
                        assert(met_within(visits@, to, level(visits@, head as int) + 1));
                    }
                }
                e = e + 1;
            }
            proof {
                if !reached {
                    assert forall|i: int, d: int|
                        0 <= i < head + 1 && #[trigger] has_edge(
                            g,
                            visits@[i].node,
                            d,
                        ) implies met_within(
                        visits@,
                        g.edge_targets@[d],
                        level(visits@, i) + 1,
                    ) by {
                        if i == head {
                            assert(start <= d < end);
                        }
                    }
                    assert(levels_ok(g, visits@, head + 1, head + 1));
                    if head + 1 < visits@.len() {
                        assert(level(visits@, head as int) <= level(visits@, head + 1));
                    }
                }
            }
            head = head + 1;
        }
        if reached {
            proof {
                let done = if head >= 1 {
                    head - 1
                } else {
                    head as int
                };
                let t = choose|t: int| 0 <= t < visits@.len() && (#[trigger] visits@[t]).node == target;
                lemma_trail(g, visits@, t);
                lemma_trail_len(visits@, t);
                assert forall|u: NodeId| #[trigger] is_nearer(g, u, target) implies visited(
                    visits@,
                    u,
                ) by {
                    let walk = choose|walk: Seq<NodeId>| #[trigger]
                        is_root_walk(g, walk, u) && forall|other: Seq<NodeId>| #[trigger]
                            is_root_walk(g, other, target) ==> walk.len() < other.len();
                    assert(is_root_walk(g, trail(visits@, t), target));
                    assert(walk.len() < trail(visits@, t).len());
                    assert(visit_ok(g, visits@, t));
                    assert(visits@[t].parent is Some);
                    let p = visits@[t].parent->0 as int;
                    assert(p < head);
                    assert(levels_ok(g, visits@, visits@.len() as int, p));
                    lemma_near_is_met(g, visits@, p, walk, u);
                }
            }
            Some(visits)
        } else {
            proof {
                if root_reachable(g, target) {
                    let nodes = choose|nodes: Seq<NodeId>| is_root_walk(g, nodes, target);
                    let inside = |x: NodeId| seen@.contains(x);
                    assert forall|x: NodeId, e: int| inside(x) && #[trigger] has_edge(
                        g,
                        x,
                        e,
                    ) implies inside(g.edge_targets@[e]) by {
                        let i = choose|i: int| 0 <= i < visits@.len() && (#[trigger] visits@[i]).node == x;
                        assert(has_edge(g, visits@[i].node, e));
                    }
                    lemma_closed_holds_walk(g, inside, nodes, nodes.len() - 1);
                }
            }
            None
        }
    }
}

/// Where an edge leads from a node that a walk from a root reaches, a walk
/// from a root reaches its target.
proof fn lemma_walk_on(g: &CompactGraph, u: NodeId, e: int)
    requires
        root_reachable(g, u),
        has_edge(g, u, e),
    ensures
        root_reachable(g, g.edge_targets@[e]),
{
    let walk = choose|walk: Seq<NodeId>| is_root_walk(g, walk, u);
    let t = g.edge_targets@[e];
    let more = walk.push(t);
    assert(more[0] == walk[0]);
    assert forall|i: int| 0 <= i < more.len() - 1 implies steps_to(g, #[trigger] more[i], more[i + 1]) by {
        if i < walk.len() - 1 {
            assert(more[i] == walk[i] && more[i + 1] == walk[i + 1]);
            assert(steps_to(g, walk[i], walk[i + 1]));
        }
    }
    assert(is_root_walk(g, more, t));
}

/// A node that is nearer to the roots than another is another node.
proof fn lemma_nearer_differs(g: &CompactGraph, u: NodeId, target: NodeId)
    requires
        is_nearer(g, u, target),
    ensures
        u != target,
        root_reachable(g, u),
{
    let walk = choose|walk: Seq<NodeId>| #[trigger]
        is_root_walk(g, walk, u) && forall|other: Seq<NodeId>| #[trigger]
            is_root_walk(g, other, target) ==> walk.len() < other.len();
    if u == target {
        assert(is_root_walk(g, walk, target));
    }
}

/// A visit more leaves the visits made before as they were.
proof fn lemma_visit_added(g: &CompactGraph, before: Seq<Visit>, after: Seq<Visit>)
    requires
        after.len() == before.len() + 1,
        forall|i: int| 0 <= i < before.len() ==> after[i] == before[i],
        forall|i: int| 0 <= i < before.len() ==> visit_ok(g, before, i),
    ensures
        forall|i: int| 0 <= i < before.len() ==> visit_ok(g, after, i),
        forall|x: NodeId|
            visited(after, x) <==> visited(before, x) || x == after[before.len() as int].node,
{
    assert forall|i: int| 0 <= i < before.len() implies visit_ok(g, after, i) by {
        assert(visit_ok(g, before, i));
        match before[i].parent {
            Some(p) => {
                assert(after[p as int] == before[p as int]);
            },
            None => {},
        }
    }
    assert forall|x: NodeId|
        visited(after, x) <==> visited(before, x) || x == after[before.len() as int].node by {
        if visited(before, x) {
            let i = choose|i: int| 0 <= i < before.len() && (#[trigger] before[i]).node == x;
            assert(after[i].node == x);
        }
        if visited(after, x) {
            let i = choose|i: int| 0 <= i < after.len() && (#[trigger] after[i]).node == x;
            if i < before.len() {
                assert(before[i].node == x);
            }
        }
        if x == after[before.len() as int].node {
            assert(after[before.len() as int].node == x);
        }
    }
}

/// The trail of a visit is a walk from a root to the node visited.
proof fn lemma_trail(g: &CompactGraph, visits: Seq<Visit>, i: int)
    requires
        forall|k: int| 0 <= k < visits.len() ==> visit_ok(g, visits, k),
        0 <= i < visits.len(),
    ensures
        is_root_walk(g, trail(visits, i), visits[i].node),
    decreases i,
{
    assert(visit_ok(g, visits, i));
    match visits[i].parent {
        Some(p) => {
            lemma_trail(g, visits, p as int);
            let t = trail(visits, p as int);
            let u = t.push(visits[i].node);
            assert(u[0] == t[0]);
            assert forall|k: int| 0 <= k < u.len() - 1 implies steps_to(g, #[trigger] u[k], u[k + 1]) by {
                if k < t.len() - 1 {
                    assert(u[k] == t[k] && u[k + 1] == t[k + 1]);
                } else {
                    assert(u[k] == visits[p as int].node);
                    assert(g.edge_targets@[visits[i].edge as int] == visits[i].node);
                }
            }
        },
        None => {},
    }
}

} // verus!
