use vstd::prelude::*;
use crate::analysis::dominance::{
    certified, check_dominators, climbs, climbs_within, dominates, gives_dominators,
    has_dominator_shape, is_certified, lemma_certified_dominates, lemma_certified_gives,
    lemma_climbs_within, lemma_idom_dominates, step_certified,
};
use crate::graph::lengauer_tarjan::{
    is_flow_graph, is_walk, lemma_root_reachable, lemma_successor_reachable, ranked_by, reachable,
    GraphOps,
};
use crate::types::NodeId;
use std::collections::HashMap;

verus! {

/// Whether a walk from a root leads to `v` without passing `x`.
pub open spec fn reaches_without<G: GraphOps>(g: &G, roots: Seq<NodeId>, x: NodeId, v: NodeId) -> bool {
    exists|p: Seq<NodeId>|
        is_walk(g, p) && roots.contains(p[0]) && p.last() == v && !(#[trigger] p.contains(x))
}

/// A root is reached without passing another node.
pub proof fn lemma_root_without<G: GraphOps>(g: &G, roots: Seq<NodeId>, x: NodeId, r: NodeId)
    requires
        roots.contains(r),
        (r as int) < g.vertex_count(),
        r != x,
    ensures
        reaches_without(g, roots, x, r),
{
    let p = seq![r];
    assert(is_walk(g, p));
    assert(p.last() == r);
    assert(!p.contains(x)) by {
        if p.contains(x) {
            let i = choose|i: int| 0 <= i < p.len() && p[i] == x;
        }
    }
}

/// A successor of a node that is reached without passing `x` is reached
/// without passing `x`, unless it is `x`.
pub proof fn lemma_step_without<G: GraphOps>(
    g: &G,
    roots: Seq<NodeId>,
    x: NodeId,
    v: NodeId,
    w: NodeId,
)
    requires
        reaches_without(g, roots, x, v),
        g.spec_successors(v).contains(w),
        (w as int) < g.vertex_count(),
        w != x,
    ensures
        reaches_without(g, roots, x, w),
{
    let p = choose|p: Seq<NodeId>|
        is_walk(g, p) && roots.contains(p[0]) && p.last() == v && !(#[trigger] p.contains(x));
    let q = p.push(w);
    assert forall|i: int| 0 <= i < q.len() - 1 implies g.spec_successors(#[trigger] q[i]).contains(
        q[i + 1],
    ) by {
        if i < p.len() - 1 {
            assert(q[i] == p[i] && q[i + 1] == p[i + 1]);
        }
    }
    assert(is_walk(g, q));
    assert(q[0] == p[0]);
    assert(q.last() == w);
    assert(!q.contains(x)) by {
        if q.contains(x) {
            let i = choose|i: int| 0 <= i < q.len() && q[i] == x;
            if i < p.len() {
                assert(p[i] == x);
                assert(p.contains(x));
            }
        }
    }
}

/// A set of nodes that holds the roots but `x` and, with each node, its
/// successors but `x`, holds every node of a walk from a root that does not
/// pass `x`.
pub proof fn lemma_closed_without<G: GraphOps>(
    g: &G,
    roots: Seq<NodeId>,
    x: NodeId,
    inside: spec_fn(NodeId) -> bool,
    p: Seq<NodeId>,
    k: int,
)
    requires
        is_walk(g, p),
        roots.contains(p[0]),
        !p.contains(x),
        forall|j: int| 0 <= j < roots.len() && roots[j] != x ==> inside(#[trigger] roots[j]),
        forall|v: NodeId, i: int|
            inside(v) && (v as int) < g.vertex_count() && 0 <= i < g.spec_successors(v).len()
                && g.spec_successors(v)[i] != x ==> inside(#[trigger] g.spec_successors(v)[i]),
        0 <= k < p.len(),
    ensures
        inside(p[k]),
    decreases k,
{
    assert(p.contains(p[k]));
    if k == 0 {
        let j = choose|j: int| 0 <= j < roots.len() && roots[j] == p[0];
        assert(inside(roots[j]));
    } else {
        lemma_closed_without(g, roots, x, inside, p, k - 1);
        assert(g.spec_successors(p[k - 1]).contains(p[k]));
        let succs = g.spec_successors(p[k - 1]);
        let i = choose|i: int| 0 <= i < succs.len() && #[trigger] succs[i] == p[k];
        assert(inside(g.spec_successors(p[k - 1])[i]));
    }
}

/// For each node whether a walk from a root leads to it without passing
/// `x`.
pub fn reach_without<G: GraphOps>(graph: &G, roots: &[NodeId], x: NodeId) -> (marks: Vec<bool>)
    requires
        is_flow_graph(graph),
        forall|j: int| 0 <= j < roots@.len() ==> (#[trigger] roots@[j] as int) < graph.vertex_count(),
    ensures
        marks@.len() == graph.vertex_count(),
        forall|v: NodeId|
            (v as int) < graph.vertex_count() ==> (#[trigger] marks@[v as int] <==> reaches_without(
                graph,
                roots@,
                x,
                v,
            )),
{
    let n = graph.node_count();
    let mut marks: Vec<bool> = vec![false; n];
    let mut stack: Vec<NodeId> = Vec::new();
    let ghost mut unseen: Set<int> = vstd::set_lib::set_int_range(0, n as int);
    proof {
        vstd::set_lib::lemma_int_range(0, n as int);
    }
    let mut j: usize = 0;
    while j < roots.len()
        invariant
            is_flow_graph(graph),
            n == graph.vertex_count(),
            j <= roots@.len(),
            forall|k: int| 0 <= k < roots@.len() ==> (#[trigger] roots@[k] as int) < n,
            marks@.len() == n,
            forall|i: int| 0 <= i < stack@.len() ==> (#[trigger] stack@[i] as int) < n && marks@[stack@[i] as int],
            forall|v: NodeId|
                (v as int) < n && #[trigger] marks@[v as int] ==> reaches_without(graph, roots@, x, v)
                    && stack@.contains(v),
            forall|k: int| 0 <= k < j && roots@[k] != x ==> marks@[#[trigger] roots@[k] as int],
            unseen.finite(),
            forall|v: int| unseen.contains(v) <==> 0 <= v < n && !marks@[v],
        decreases roots@.len() - j,
    {
        let r = roots[j];
        if r != x && !marks[r as usize] {
            let ghost old_stack = stack@;
            marks[r as usize] = true;
            stack.push(r);
            proof {
                unseen = unseen.remove(r as int);
                assert(roots@.contains(roots@[j as int]));
                lemma_root_without(graph, roots@, x, r);
                assert forall|v: NodeId| (v as int) < n && #[trigger] marks@[v as int] implies stack@.contains(
                    v,
                ) by {
                    if v == r {
                        assert(stack@[old_stack.len() as int] == r);
                    } else {
                        let i = choose|i: int| 0 <= i < old_stack.len() && old_stack[i] == v;
                        assert(stack@[i] == v);
                    }
                }
            }
        }
        j = j + 1;
    }
    while stack.len() > 0
        invariant
            is_flow_graph(graph),
            n == graph.vertex_count(),
            forall|k: int| 0 <= k < roots@.len() ==> (#[trigger] roots@[k] as int) < n,
            marks@.len() == n,
            forall|i: int| 0 <= i < stack@.len() ==> (#[trigger] stack@[i] as int) < n && marks@[stack@[i] as int],
            forall|v: NodeId|
                (v as int) < n && #[trigger] marks@[v as int] ==> reaches_without(graph, roots@, x, v),
            forall|k: int| 0 <= k < roots@.len() && roots@[k] != x ==> marks@[#[trigger] roots@[k] as int],
            forall|u: NodeId, i: int|
                (u as int) < n && marks@[u as int] && !stack@.contains(u) && 0 <= i
                    < graph.spec_successors(u).len() && graph.spec_successors(u)[i] != x
                    ==> marks@[#[trigger] graph.spec_successors(u)[i] as int],
            unseen.finite(),
            forall|v: int| unseen.contains(v) <==> 0 <= v < n && !marks@[v],
        decreases unseen.len(), stack@.len(),
    {
        let ghost full = stack@;
        let ghost unseen0 = unseen;
        let v = stack.pop().unwrap();
        let ghost rest = stack@;
        let succs = graph.successors(v);
        let mut i: usize = 0;
        proof {
            assert forall|u: NodeId| !rest.contains(u) && u != v implies !full.contains(u) by {
                if full.contains(u) {
                    let k = choose|k: int| 0 <= k < full.len() && full[k] == u;
                    if k < rest.len() {
                        assert(rest[k] == u);
                    }
                }
            }
        }
        while i < succs.len()
            invariant
                is_flow_graph(graph),
                n == graph.vertex_count(),
                (v as int) < n,
                marks@[v as int],
                succs@ == graph.spec_successors(v),
                i <= succs@.len(),
                forall|k: int| 0 <= k < roots@.len() ==> (#[trigger] roots@[k] as int) < n,
                marks@.len() == n,
                forall|k: int|
                    0 <= k < stack@.len() ==> (#[trigger] stack@[k] as int) < n && marks@[stack@[k] as int],
                forall|u: NodeId|
                    (u as int) < n && #[trigger] marks@[u as int] ==> reaches_without(
                        graph,
                        roots@,
                        x,
                        u,
                    ),
                forall|k: int|
                    0 <= k < roots@.len() && roots@[k] != x ==> marks@[#[trigger] roots@[k] as int],
                forall|u: NodeId, k: int|
                    (u as int) < n && marks@[u as int] && !stack@.contains(u) && u != v && 0 <= k
                        < graph.spec_successors(u).len() && graph.spec_successors(u)[k] != x
                        ==> marks@[#[trigger] graph.spec_successors(u)[k] as int],
                forall|k: int| 0 <= k < i && succs@[k] != x ==> marks@[#[trigger] succs@[k] as int],
                stack@.len() >= rest.len(),
                unseen.finite(),
                unseen0.finite(),
                unseen.subset_of(unseen0),
                forall|u: int| unseen.contains(u) <==> 0 <= u < n && !marks@[u],
                stack@.len() > rest.len() ==> unseen.len() < unseen0.len(),
            decreases succs@.len() - i,
        {
            let w = succs[i];
            proof {
                assert((graph.spec_successors(v)[i as int] as int) < n);
            }
            if w != x && !marks[w as usize] {
                let ghost old_stack = stack@;
                let ghost old_unseen = unseen;
                let ghost old_marks = marks@;
                marks[w as usize] = true;
                stack.push(w);
                proof {
                    unseen = unseen.remove(w as int);
                    assert(old_unseen.contains(w as int));
                    vstd::set_lib::lemma_len_subset(old_unseen, unseen0);
                    assert(graph.spec_successors(v).contains(w));
                    lemma_step_without(graph, roots@, x, v, w);
                    assert(stack@[old_stack.len() as int] == w);
                    assert forall|u: NodeId, k: int|
                        (u as int) < n && marks@[u as int] && !stack@.contains(u) && u != v && 0
                            <= k < graph.spec_successors(u).len() && graph.spec_successors(u)[k]
                            != x implies marks@[#[trigger] graph.spec_successors(u)[k] as int] by {
                        assert(u != w);
                        assert(old_marks[u as int]);
                        if old_stack.contains(u) {
                            let d = choose|d: int| 0 <= d < old_stack.len() && old_stack[d] == u;
                            assert(stack@[d] == u);
                        }
                        assert((graph.spec_successors(u)[k] as int) < n);
                        assert(old_marks[graph.spec_successors(u)[k] as int]);
                    }
                }
            }
            i = i + 1;
        }
        proof {
            if stack@.len() == rest.len() {
                vstd::set_lib::lemma_len_subset(unseen, unseen0);
            }
        }
    }
    proof {
        assert forall|v: NodeId| (v as int) < n && reaches_without(graph, roots@, x, v) implies marks@[v as int] by {
            let p = choose|p: Seq<NodeId>|
                is_walk(graph, p) && roots@.contains(p[0]) && p.last() == v && !(
                #[trigger] p.contains(x));
            let inside = |u: NodeId| (u as int) < n && marks@[u as int];
            assert forall|u: NodeId, i: int|
                inside(u) && (u as int) < graph.vertex_count() && 0 <= i < graph.spec_successors(
                    u,
                ).len() && graph.spec_successors(u)[i] != x implies inside(
                #[trigger] graph.spec_successors(u)[i],
            ) by {
                assert(!stack@.contains(u));
                assert((graph.spec_successors(u)[i] as int) < n);
            }
            lemma_closed_without(graph, roots@, x, inside, p, p.len() - 1);
        }
    }
    marks
}

/// Whether every node that dominates a node of `m` stands above that node
/// in `m`, or is the node.
pub open spec fn holds_all_dominators<G: GraphOps>(
    g: &G,
    roots: Seq<NodeId>,
    m: Map<NodeId, NodeId>,
) -> bool {
    forall|v: NodeId, x: NodeId|
        m.contains_key(v) && #[trigger] dominates(g, roots, x, v) ==> climbs_within(
            m,
            v,
            x,
            g.vertex_count() as nat,
        )
}

/// Whether `m` is the immediate dominators of the graph: the nodes that
/// stand above a node in `m` dominate it, and no other node does. So what
/// `m` gives a node is the closest of the nodes that dominate it, and a
/// node that `m` gives to itself has none.
pub open spec fn is_exact<G: GraphOps>(g: &G, roots: Seq<NodeId>, m: Map<NodeId, NodeId>) -> bool {
    is_certified(g, roots, m) && holds_all_dominators(g, roots, m)
}

/// A node dominates another where no walk from a root leads to the other
/// without passing it, and only there.
pub proof fn lemma_dominates_or_without<G: GraphOps>(g: &G, roots: Seq<NodeId>, x: NodeId, v: NodeId)
    ensures
        dominates(g, roots, x, v) <==> !reaches_without(g, roots, x, v),
{
    if reaches_without(g, roots, x, v) {
        let p = choose|p: Seq<NodeId>|
            is_walk(g, p) && roots.contains(p[0]) && p.last() == v && !(#[trigger] p.contains(x));
        assert(!dominates(g, roots, x, v));
    }
}

/// A node that steps lead up to is a node of the map.
pub proof fn lemma_climb_ends_in_map(m: Map<NodeId, NodeId>, v: NodeId, x: NodeId, fuel: nat)
    requires
        climbs_within(m, v, x, fuel),
    ensures
        m.contains_key(x),
    decreases fuel,
{
    if v != x {
        lemma_climb_ends_in_map(m, m[v], x, (fuel - 1) as nat);
    }
}

/// Whether every node of `m` is a node of the graph.
pub open spec fn keys_in_graph<G: GraphOps>(g: &G, m: Map<NodeId, NodeId>) -> bool {
    forall|u: NodeId| #[trigger] m.contains_key(u) ==> (u as int) < g.vertex_count()
}

/// Whether `x`, where it dominates a node of `m`, stands above that node
/// in `m` or is the node.
pub open spec fn stands_above_dominated<G: GraphOps>(
    g: &G,
    roots: Seq<NodeId>,
    m: Map<NodeId, NodeId>,
    x: NodeId,
) -> bool {
    forall|u: NodeId|
        m.contains_key(u) && #[trigger] dominates(g, roots, x, u) ==> climbs_within(
            m,
            u,
            x,
            g.vertex_count() as nat,
        )
}

/// Whether a walk from a root leads to every node of `m`.
pub open spec fn keys_reached<G: GraphOps>(g: &G, roots: Seq<NodeId>, m: Map<NodeId, NodeId>) -> bool {
    forall|u: NodeId| #[trigger] m.contains_key(u) ==> reachable(g, roots, u)
}

/// A walk is a walk without a node that is no node of the graph.
pub proof fn lemma_without_none<G: GraphOps>(g: &G, roots: Seq<NodeId>, none: NodeId, u: NodeId)
    requires
        (none as int) >= g.vertex_count(),
    ensures
        reaches_without(g, roots, none, u) <==> reachable(g, roots, u),
{
    if reachable(g, roots, u) {
        let p = choose|p: Seq<NodeId>| is_walk(g, p) && roots.contains(p[0]) && #[trigger] p.last() == u;
        assert(!p.contains(none)) by {
            if p.contains(none) {
                let i = choose|i: int| 0 <= i < p.len() && p[i] == none;
                assert((p[i] as int) < g.vertex_count());
            }
        }
    }
    if reaches_without(g, roots, none, u) {
        let p = choose|p: Seq<NodeId>|
            is_walk(g, p) && roots.contains(p[0]) && p.last() == u && !(#[trigger] p.contains(none));
        assert(p.last() == u);
    }
}

/// Whether a walk from a root leads to every node of `idom`.
fn check_reached<G: GraphOps>(graph: &G, roots: &[NodeId], idom: &HashMap<NodeId, NodeId>) -> (ok:
    bool)
    requires
        is_flow_graph(graph),
        forall|j: int| 0 <= j < roots@.len() ==> (#[trigger] roots@[j] as int) < graph.vertex_count(),
        keys_in_graph(graph, idom@),
    ensures
        ok == keys_reached(graph, roots@, idom@),
{
    broadcast use vstd::std_specs::hash::group_hash_axioms;

    let n = graph.node_count();
    let ghost m = idom@;
    // No node of the graph has the number of its nodes: a walk without it
    // is any walk
    let none = n as NodeId;
    let reached = reach_without(graph, roots, none);
    let mut v: usize = 0;
    while v < n
        invariant
            n == graph.vertex_count(),
            n < u32::MAX,
            none == n,
            m == idom@,
            v <= n,
            reached@.len() == n,
            forall|u: NodeId|
                (u as int) < n ==> (#[trigger] reached@[u as int] <==> reaches_without(
                    graph,
                    roots@,
                    none,
                    u,
                )),
            forall|u: NodeId| (u as int) < v && #[trigger] m.contains_key(u) ==> reachable(graph, roots@, u),
        decreases n - v,
    {
        let node = v as NodeId;
        proof {
            lemma_without_none(graph, roots@, none, node);
        }
        proof {
            assert(reached@[node as int] == reached@[v as int]);
        }
        if idom.contains_key(&node) && !reached[v] {
            return false;
        }
        v = v + 1;
    }
    true
}

/// Whether `x`, where it dominates a node of `idom`, stands above that node
/// in `idom` or is the node.
fn check_above<G: GraphOps>(
    graph: &G,
    roots: &[NodeId],
    idom: &HashMap<NodeId, NodeId>,
    x: NodeId,
) -> (ok: bool)
    requires
        is_flow_graph(graph),
        forall|j: int| 0 <= j < roots@.len() ==> (#[trigger] roots@[j] as int) < graph.vertex_count(),
        keys_in_graph(graph, idom@),
    ensures
        ok == stands_above_dominated(graph, roots@, idom@, x),
{
    broadcast use vstd::std_specs::hash::group_hash_axioms;

    let n = graph.node_count();
    let ghost m = idom@;
    let without = reach_without(graph, roots, x);
    let mut v: usize = 0;
    while v < n
        invariant
            n == graph.vertex_count(),
            n < u32::MAX,
            m == idom@,
            v <= n,
            without@.len() == n,
            forall|u: NodeId|
                (u as int) < n ==> (#[trigger] without@[u as int] <==> reaches_without(
                    graph,
                    roots@,
                    x,
                    u,
                )),
            forall|u: NodeId|
                (u as int) < v && m.contains_key(u) && #[trigger] dominates(graph, roots@, x, u)
                    ==> climbs_within(m, u, x, n as nat),
        decreases n - v,
    {
        let node = v as NodeId;
        proof {
            lemma_dominates_or_without(graph, roots@, x, node);
        }
        proof {
            assert(without@[node as int] == without@[v as int]);
        }
        if idom.contains_key(&node) && !without[v] && !climbs(idom, node, x, n) {
            proof {
                assert(dominates(graph, roots@, x, node));
            }
            return false;
        }
        v = v + 1;
    }
    true
}

/// Where a walk leads to every node of `m`, and every node of the graph
/// stands above what it dominates, every node does.
proof fn lemma_all_stand_above<G: GraphOps>(g: &G, roots: Seq<NodeId>, m: Map<NodeId, NodeId>)
    requires
        keys_in_graph(g, m),
        keys_reached(g, roots, m),
        forall|x: NodeId| (x as int) < g.vertex_count() ==> #[trigger] stands_above_dominated(g, roots, m, x),
    ensures
        holds_all_dominators(g, roots, m),
{
    assert forall|v: NodeId, x: NodeId|
        m.contains_key(v) && #[trigger] dominates(g, roots, x, v) implies climbs_within(
        m,
        v,
        x,
        g.vertex_count() as nat,
    ) by {
        if (x as int) < g.vertex_count() {
            assert(stands_above_dominated(g, roots, m, x));
        } else {
            lemma_without_none(g, roots, x, v);
            lemma_dominates_or_without(g, roots, x, v);
        }
    }
}

/// Where every node that dominates a node of `m` stands above it, a walk
/// leads to every node of `m`, and each node stands above what it
/// dominates.
proof fn lemma_stand_above_all<G: GraphOps>(g: &G, roots: Seq<NodeId>, m: Map<NodeId, NodeId>)
    requires
        keys_in_graph(g, m),
        g.vertex_count() < u32::MAX,
        holds_all_dominators(g, roots, m),
    ensures
        keys_reached(g, roots, m),
        forall|x: NodeId| #[trigger] stands_above_dominated(g, roots, m, x),
{
    assert forall|u: NodeId| #[trigger] m.contains_key(u) implies reachable(g, roots, u) by {
        if !reachable(g, roots, u) {
            // Every node dominates a node that no walk leads to
            let none = g.vertex_count() as NodeId;
            assert(dominates(g, roots, none, u));
            lemma_climb_ends_in_map(m, u, none, g.vertex_count() as nat);
        }
    }
}

/// Whether `idom` is the immediate dominators of the graph. For each node
/// the graph is walked without it, so this takes the time of as many walks
/// as the graph has nodes.
pub fn check_exact<G: GraphOps>(graph: &G, roots: &[NodeId], idom: &HashMap<NodeId, NodeId>) -> (ok:
    bool)
    requires
        is_flow_graph(graph),
        forall|j: int| 0 <= j < roots@.len() ==> (#[trigger] roots@[j] as int) < graph.vertex_count(),
    ensures
        ok == is_exact(graph, roots@, idom@),
{
    if !check_dominators(graph, roots, idom) {
        return false;
    }
    proof {
        assert(keys_in_graph(graph, idom@));
    }
    if !check_reached(graph, roots, idom) {
        proof {
            if holds_all_dominators(graph, roots@, idom@) {
                lemma_stand_above_all(graph, roots@, idom@);
            }
        }
        return false;
    }
    let n = graph.node_count();
    let mut x: usize = 0;
    while x < n
        invariant
            is_flow_graph(graph),
            n == graph.vertex_count(),
            forall|j: int| 0 <= j < roots@.len() ==> (#[trigger] roots@[j] as int) < n,
            keys_in_graph(graph, idom@),
            keys_reached(graph, roots@, idom@),
            x <= n,
            forall|d: NodeId| (d as int) < x ==> #[trigger] stands_above_dominated(graph, roots@, idom@, d),
        decreases n - x,
    {
        if !check_above(graph, roots, idom, x as NodeId) {
            proof {
                if holds_all_dominators(graph, roots@, idom@) {
                    lemma_stand_above_all(graph, roots@, idom@);
                }
            }
            return false;
        }
        x = x + 1;
    }
    proof {
        lemma_all_stand_above(graph, roots@, idom@);
    }
    true
}

/// In the immediate dominators of the graph, what a node is given is the
/// closest of the nodes that dominate it: it dominates the node, and every
/// other node that dominates the node dominates it too.
pub proof fn lemma_exact_is_closest<G: GraphOps>(
    g: &G,
    roots: Seq<NodeId>,
    m: Map<NodeId, NodeId>,
    v: NodeId,
    x: NodeId,
)
    requires
        is_exact(g, roots, m),
        m.contains_key(v),
        dominates(g, roots, x, v),
        x != v,
    ensures
        m[v] != v,
        dominates(g, roots, m[v], v),
        dominates(g, roots, x, m[v]),
{
    assert(climbs_within(m, v, x, g.vertex_count() as nat));
    lemma_climbs_within(m, m[v], x, (g.vertex_count() - 1) as nat);
    lemma_certified_dominates(g, roots, m, x, m[v]);
    lemma_idom_dominates(g, roots, m, v);
}

/// The beginning of a walk is a walk.
pub proof fn lemma_walk_take<G: GraphOps>(g: &G, p: Seq<NodeId>, k: int)
    requires
        is_walk(g, p),
        0 <= k < p.len(),
    ensures
        is_walk(g, p.take(k + 1)),
        p.take(k + 1)[0] == p[0],
        p.take(k + 1).last() == p[k],
{
    let q = p.take(k + 1);
    assert forall|i: int| 0 <= i < q.len() - 1 implies g.spec_successors(#[trigger] q[i]).contains(
        q[i + 1],
    ) by {
        assert(q[i] == p[i] && q[i + 1] == p[i + 1]);
    }
}

/// Two nodes that a walk from a root leads to and that dominate each other
/// are one node.
pub proof fn lemma_dominance_antisymmetric<G: GraphOps>(
    g: &G,
    roots: Seq<NodeId>,
    a: NodeId,
    b: NodeId,
)
    requires
        dominates(g, roots, a, b),
        dominates(g, roots, b, a),
        reachable(g, roots, b),
    ensures
        a == b,
{
    if a != b {
        let p = choose|p: Seq<NodeId>| is_walk(g, p) && roots.contains(p[0]) && #[trigger] p.last() == b;
        assert(p.contains(b)) by {
            assert(p[p.len() - 1] == b);
        }
        p.index_of_first_ensures(b);
        let i = p.index_of_first(b)->0;
        // The walk up to where it first comes to `b` passes `a` before
        let q = p.take(i + 1);
        lemma_walk_take(g, p, i);
        assert(q.contains(a));
        let j = choose|j: int| 0 <= j < q.len() && q[j] == a;
        assert(j < i);
        // And up to there it is a walk to `a` that does not pass `b`
        let r = p.take(j + 1);
        lemma_walk_take(g, p, j);
        assert(!r.contains(b)) by {
            if r.contains(b) {
                let k = choose|k: int| 0 <= k < r.len() && r[k] == b;
                assert(p[k] == b);
            }
        }
        assert(r.last() == a);
    }
}

/// A node that dominates a node that a walk from a root leads to is a node
/// that a walk from a root leads to.
pub proof fn lemma_dominator_reached<G: GraphOps>(g: &G, roots: Seq<NodeId>, d: NodeId, v: NodeId)
    requires
        dominates(g, roots, d, v),
        reachable(g, roots, v),
    ensures
        reachable(g, roots, d),
{
    let p = choose|p: Seq<NodeId>| is_walk(g, p) && roots.contains(p[0]) && #[trigger] p.last() == v;
    assert(p.contains(d));
    let j = choose|j: int| 0 <= j < p.len() && p[j] == d;
    lemma_walk_take(g, p, j);
    assert(p.take(j + 1).last() == d);
}

/// The immediate dominators of a graph are one map only: two maps that are
/// both the immediate dominators give every node that both hold the same
/// node. So two engines whose results both pass `check_exact` agree node
/// for node.
pub proof fn lemma_exact_unique<G: GraphOps>(
    g: &G,
    roots: Seq<NodeId>,
    a: Map<NodeId, NodeId>,
    b: Map<NodeId, NodeId>,
    v: NodeId,
)
    requires
        is_exact(g, roots, a),
        is_exact(g, roots, b),
        g.vertex_count() < u32::MAX,
        a.contains_key(v),
        b.contains_key(v),
    ensures
        a[v] == b[v],
{
    lemma_idom_dominates(g, roots, a, v);
    lemma_idom_dominates(g, roots, b, v);
    assert(keys_in_graph(g, a));
    lemma_stand_above_all(g, roots, a);
    assert(reachable(g, roots, v));
    if a[v] == v {
        // Nothing but the node itself dominates it
        assert(climbs_within(a, v, b[v], g.vertex_count() as nat));
    } else if b[v] == v {
        assert(climbs_within(b, v, a[v], g.vertex_count() as nat));
    } else {
        lemma_exact_is_closest(g, roots, a, v, b[v]);
        lemma_exact_is_closest(g, roots, b, v, a[v]);
        lemma_dominator_reached(g, roots, a[v], v);
        lemma_dominance_antisymmetric(g, roots, b[v], a[v]);
    }
}

/// A node dominates itself.
pub proof fn lemma_dominates_self<G: GraphOps>(g: &G, roots: Seq<NodeId>, v: NodeId)
    ensures
        dominates(g, roots, v, v),
{
    assert forall|p: Seq<NodeId>|
        is_walk(g, p) && roots.contains(p[0]) && p.last() == v implies #[trigger] p.contains(v) by {
        assert(p[p.len() - 1] == v);
    }
}

/// What dominates a node dominates what that node dominates.
pub proof fn lemma_dominance_transitive<G: GraphOps>(
    g: &G,
    roots: Seq<NodeId>,
    a: NodeId,
    b: NodeId,
    c: NodeId,
)
    requires
        dominates(g, roots, a, b),
        dominates(g, roots, b, c),
    ensures
        dominates(g, roots, a, c),
{
    assert forall|p: Seq<NodeId>|
        is_walk(g, p) && roots.contains(p[0]) && p.last() == c implies #[trigger] p.contains(a) by {
        assert(p.contains(b));
        let j = choose|j: int| 0 <= j < p.len() && p[j] == b;
        lemma_walk_take(g, p, j);
        let q = p.take(j + 1);
        assert(q.contains(a));
        let k = choose|k: int| 0 <= k < q.len() && q[k] == a;
        assert(p[k] == a);
    }
}

/// What dominates a node, and is another node, dominates every node from
/// which an edge leads to it.
pub proof fn lemma_dominates_before<G: GraphOps>(
    g: &G,
    roots: Seq<NodeId>,
    d: NodeId,
    u: NodeId,
    w: NodeId,
)
    requires
        dominates(g, roots, d, w),
        d != w,
        g.spec_successors(u).contains(w),
        (w as int) < g.vertex_count(),
    ensures
        dominates(g, roots, d, u),
{
    assert forall|p: Seq<NodeId>|
        is_walk(g, p) && roots.contains(p[0]) && p.last() == u implies #[trigger] p.contains(d) by {
        let q = p.push(w);
        assert forall|i: int| 0 <= i < q.len() - 1 implies g.spec_successors(#[trigger] q[i]).contains(
            q[i + 1],
        ) by {
            if i < p.len() - 1 {
                assert(q[i] == p[i] && q[i + 1] == p[i + 1]);
            }
        }
        assert(is_walk(g, q));
        assert(q[0] == p[0]);
        assert(q.last() == w);
        assert(q.contains(d));
        let i = choose|i: int| 0 <= i < q.len() && q[i] == d;
        assert(p[i] == d);
    }
}

/// The last place up to `k` at which a walk is at `a` or at `b`; -1 where
/// it is at neither.
pub open spec fn last_at(p: Seq<NodeId>, a: NodeId, b: NodeId, k: int) -> int
    decreases k + 1,
{
    if k < 0 {
        -1
    } else if p[k] == a || p[k] == b {
        k
    } else {
        last_at(p, a, b, k - 1)
    }
}

/// What the last place is.
pub proof fn lemma_last_at(p: Seq<NodeId>, a: NodeId, b: NodeId, k: int)
    requires
        -1 <= k < p.len(),
    ensures
        -1 <= last_at(p, a, b, k) <= k,
        last_at(p, a, b, k) >= 0 ==> p[last_at(p, a, b, k)] == a || p[last_at(p, a, b, k)] == b,
        forall|j: int| last_at(p, a, b, k) < j <= k ==> #[trigger] p[j] != a && p[j] != b,
    decreases k + 1,
{
    if k >= 0 && !(p[k] == a || p[k] == b) {
        lemma_last_at(p, a, b, k - 1);
    }
}

/// A walk to a node, and on from that node as another walk goes on from it,
/// is a walk.
pub proof fn lemma_walk_joined<G: GraphOps>(g: &G, first: Seq<NodeId>, second: Seq<NodeId>, i: int)
    requires
        is_walk(g, first),
        is_walk(g, second),
        0 <= i < second.len() - 1,
        first.last() == second[i],
    ensures
        is_walk(g, first + second.subrange(i + 1, second.len() as int)),
        (first + second.subrange(i + 1, second.len() as int))[0] == first[0],
        (first + second.subrange(i + 1, second.len() as int)).last() == second.last(),
{
    let rest = second.subrange(i + 1, second.len() as int);
    let q = first + rest;
    assert forall|k: int| 0 <= k < q.len() implies (#[trigger] q[k] as int) < g.vertex_count() by {
        if k < first.len() {
            assert(q[k] == first[k]);
        } else {
            assert(q[k] == second[i + 1 + (k - first.len())]);
        }
    }
    assert forall|k: int| 0 <= k < q.len() - 1 implies g.spec_successors(#[trigger] q[k]).contains(
        q[k + 1],
    ) by {
        if k < first.len() - 1 {
            assert(q[k] == first[k] && q[k + 1] == first[k + 1]);
        } else if k == first.len() - 1 {
            assert(q[k] == second[i]);
            assert(q[k + 1] == second[i + 1]);
        } else {
            let d = i + 1 + (k - first.len());
            assert(q[k] == second[d] && q[k + 1] == second[d + 1]);
        }
    }
    assert(q.last() == second[second.len() - 1]);
}

/// Of two nodes that dominate a third, one dominates the other.
pub proof fn lemma_dominators_in_line<G: GraphOps>(
    g: &G,
    roots: Seq<NodeId>,
    a: NodeId,
    b: NodeId,
    v: NodeId,
)
    requires
        dominates(g, roots, a, v),
        dominates(g, roots, b, v),
        a != v,
        b != v,
        reachable(g, roots, v),
    ensures
        dominates(g, roots, a, b) || dominates(g, roots, b, a),
{
    if !dominates(g, roots, a, b) && !dominates(g, roots, b, a) {
        lemma_dominates_or_without(g, roots, a, b);
        lemma_dominates_or_without(g, roots, b, a);
        let to_b = choose|p: Seq<NodeId>|
            is_walk(g, p) && roots.contains(p[0]) && p.last() == b && !(#[trigger] p.contains(a));
        let to_a = choose|p: Seq<NodeId>|
            is_walk(g, p) && roots.contains(p[0]) && p.last() == a && !(#[trigger] p.contains(b));
        let to_v = choose|p: Seq<NodeId>| is_walk(g, p) && roots.contains(p[0]) && #[trigger] p.last() == v;
        let n = to_v.len() as int;
        lemma_last_at(to_v, a, b, n - 1);
        let i = last_at(to_v, a, b, n - 1);
        assert(i >= 0) by {
            assert(to_v.contains(a));
            let k = choose|k: int| 0 <= k < to_v.len() && to_v[k] == a;
            if i < k {
                assert(to_v[k] != a);
            }
        }
        assert(i < n - 1);
        let rest = to_v.subrange(i + 1, n);
        if to_v[i] == a {
            // To `a` without `b`, and on to `v` without `b`
            lemma_walk_joined(g, to_a, to_v, i);
            let q = to_a + rest;
            assert(!q.contains(b)) by {
                if q.contains(b) {
                    let k = choose|k: int| 0 <= k < q.len() && q[k] == b;
                    if k < to_a.len() {
                        assert(to_a[k] == b);
                        assert(to_a.contains(b));
                    } else {
                        assert(q[k] == to_v[i + 1 + (k - to_a.len())]);
                    }
                }
            }
            assert(q.last() == v);
            assert(reaches_without(g, roots, b, v));
            lemma_dominates_or_without(g, roots, b, v);
        } else {
            lemma_walk_joined(g, to_b, to_v, i);
            let q = to_b + rest;
            assert(!q.contains(a)) by {
                if q.contains(a) {
                    let k = choose|k: int| 0 <= k < q.len() && q[k] == a;
                    if k < to_b.len() {
                        assert(to_b[k] == a);
                        assert(to_b.contains(a));
                    } else {
                        assert(q[k] == to_v[i + 1 + (k - to_b.len())]);
                    }
                }
            }
            assert(q.last() == v);
            assert(reaches_without(g, roots, a, v));
            lemma_dominates_or_without(g, roots, a, v);
        }
    }
}

/// How many of the first `upto` nodes dominate `v` and are other nodes.
pub open spec fn strict_count<G: GraphOps>(g: &G, roots: Seq<NodeId>, v: NodeId, upto: int) -> nat
    decreases upto,
{
    if upto <= 0 {
        0
    } else {
        strict_count(g, roots, v, upto - 1) + if (upto - 1) as NodeId != v && dominates(
            g,
            roots,
            (upto - 1) as NodeId,
            v,
        ) {
            1nat
        } else {
            0nat
        }
    }
}

/// No more nodes are counted than are looked at.
pub proof fn lemma_count_bound<G: GraphOps>(g: &G, roots: Seq<NodeId>, v: NodeId, upto: int)
    requires
        0 <= upto,
    ensures
        strict_count(g, roots, v, upto) <= upto,
    decreases upto,
{
    if upto > 0 {
        lemma_count_bound(g, roots, v, upto - 1);
    }
}

/// A node that dominates another node has fewer nodes that dominate it:
/// those that dominate it dominate the other node too, which it dominates
/// itself.
pub proof fn lemma_count_less<G: GraphOps>(g: &G, roots: Seq<NodeId>, y: NodeId, v: NodeId, upto: int)
    requires
        dominates(g, roots, y, v),
        y != v,
        reachable(g, roots, v),
        0 <= upto < u32::MAX,
    ensures
        strict_count(g, roots, y, upto) + (if (y as int) < upto {
            1nat
        } else {
            0nat
        }) <= strict_count(g, roots, v, upto),
    decreases upto,
{
    if upto > 0 {
        lemma_count_less(g, roots, y, v, upto - 1);
        let x = (upto - 1) as NodeId;
        if x != y && dominates(g, roots, x, y) {
            lemma_dominance_transitive(g, roots, x, y, v);
            if x == v {
                lemma_dominance_antisymmetric(g, roots, y, v);
            }
        }
    }
}

/// Whether `y` is the closest of the nodes that dominate `v`: another node
/// that dominates `v` and that every other node that dominates `v`
/// dominates; or `v` itself where no other node dominates `v`.
pub open spec fn is_closest<G: GraphOps>(g: &G, roots: Seq<NodeId>, v: NodeId, y: NodeId) -> bool {
    if y == v {
        forall|x: NodeId| #[trigger] dominates(g, roots, x, v) ==> x == v
    } else {
        dominates(g, roots, y, v) && forall|x: NodeId| #[trigger]
            dominates(g, roots, x, v) && x != v ==> dominates(g, roots, x, y)
    }
}

/// Whether `m` gives every node that a walk from a root leads to, and no
/// other, the closest of the nodes that dominate it.
pub open spec fn gives_closest<G: GraphOps>(g: &G, roots: Seq<NodeId>, m: Map<NodeId, NodeId>) -> bool {
    &&& forall|v: NodeId| m.contains_key(v) <==> reachable(g, roots, v)
    &&& forall|v: NodeId| #[trigger] m.contains_key(v) ==> is_closest(g, roots, v, m[v])
}

/// A node that a walk leads to is a node of the graph.
pub proof fn lemma_reached_in_graph<G: GraphOps>(g: &G, roots: Seq<NodeId>, v: NodeId)
    requires
        reachable(g, roots, v),
    ensures
        (v as int) < g.vertex_count(),
{
    let p = choose|p: Seq<NodeId>| is_walk(g, p) && roots.contains(p[0]) && #[trigger] p.last() == v;
    assert((p[p.len() - 1] as int) < g.vertex_count());
}

/// In a map that gives every node the closest of the nodes that dominate
/// it, every node that dominates a node stands above it, within as many
/// steps as nodes dominate it.
pub proof fn lemma_closest_climbs<G: GraphOps>(
    g: &G,
    roots: Seq<NodeId>,
    m: Map<NodeId, NodeId>,
    v: NodeId,
    x: NodeId,
    fuel: nat,
)
    requires
        g.vertex_count() < u32::MAX,
        gives_closest(g, roots, m),
        m.contains_key(v),
        dominates(g, roots, x, v),
        strict_count(g, roots, v, g.vertex_count()) <= fuel,
    ensures
        climbs_within(m, v, x, fuel),
    decreases fuel,
{
    if x != v {
        let y = m[v];
        assert(is_closest(g, roots, v, y));
        assert(y != v);
        assert(dominates(g, roots, x, y));
        lemma_dominator_reached(g, roots, y, v);
        lemma_reached_in_graph(g, roots, y);
        lemma_count_less(g, roots, y, v, g.vertex_count());
        lemma_closest_climbs(g, roots, m, y, x, (fuel - 1) as nat);
    }
}

/// In a map that gives every node the closest of the nodes that dominate
/// it, every node is a node of the graph and is given a node of the map.
pub proof fn lemma_closest_keys<G: GraphOps>(g: &G, roots: Seq<NodeId>, m: Map<NodeId, NodeId>, v: NodeId)
    requires
        gives_closest(g, roots, m),
        m.contains_key(v),
    ensures
        (v as int) < g.vertex_count(),
        m.contains_key(m[v]),
        is_closest(g, roots, v, m[v]),
{
    lemma_reached_in_graph(g, roots, v);
    if m[v] != v {
        lemma_dominator_reached(g, roots, m[v], v);
    }
}

/// A map that gives every node the closest of the nodes that dominate it
/// gives each root to itself.
pub proof fn lemma_closest_root<G: GraphOps>(g: &G, roots: Seq<NodeId>, m: Map<NodeId, NodeId>, r: NodeId)
    requires
        gives_closest(g, roots, m),
        roots.contains(r),
        (r as int) < g.vertex_count(),
    ensures
        m.contains_key(r),
        m[r] == r,
{
    lemma_root_reachable(g, roots, r);
    assert(m.contains_key(r));
    assert(is_closest(g, roots, r, m[r]));
    if m[r] != r {
        // The walk that stays at the root passes no other node
        let p = seq![r];
        assert(is_walk(g, p));
        assert(p.last() == r);
        assert(p.contains(m[r]));
        let i = choose|i: int| 0 <= i < p.len() && p[i] == m[r];
    }
}

/// In a map that gives every node the closest of the nodes that dominate
/// it, what a successor of a node is given stands above the node.
pub proof fn lemma_closest_step<G: GraphOps>(
    g: &G,
    roots: Seq<NodeId>,
    m: Map<NodeId, NodeId>,
    v: NodeId,
    w: NodeId,
)
    requires
        is_flow_graph(g),
        gives_closest(g, roots, m),
        m.contains_key(v),
        g.spec_successors(v).contains(w),
    ensures
        step_certified(g, m, v, w),
{
    let n = g.vertex_count();
    lemma_reached_in_graph(g, roots, v);
    let i = choose|i: int| 0 <= i < g.spec_successors(v).len() && g.spec_successors(v)[i] == w;
    assert((g.spec_successors(v)[i] as int) < n);
    lemma_successor_reachable(g, roots, v, w);
    assert(m.contains_key(w));
    if m[w] != w {
        assert(is_closest(g, roots, w, m[w]));
        lemma_dominates_before(g, roots, m[w], v, w);
        lemma_count_bound(g, roots, v, n);
        lemma_closest_climbs(g, roots, m, v, m[w], n as nat);
    }
}

/// A map that gives every node the closest of the nodes that dominate it
/// passes for the immediate dominators.
pub proof fn lemma_closest_certified<G: GraphOps>(g: &G, roots: Seq<NodeId>, m: Map<NodeId, NodeId>)
    requires
        is_flow_graph(g),
        forall|j: int| 0 <= j < roots.len() ==> (#[trigger] roots[j] as int) < g.vertex_count(),
        gives_closest(g, roots, m),
    ensures
        is_certified(g, roots, m),
{
    assert forall|v: NodeId| #[trigger] m.contains_key(v) implies (v as int) < g.vertex_count()
        && m.contains_key(m[v]) by {
        lemma_closest_keys(g, roots, m, v);
    }
    assert forall|j: int| 0 <= j < roots.len() implies m.contains_key(#[trigger] roots[j])
        && m[roots[j]] == roots[j] by {
        assert(roots.contains(roots[j]));
        lemma_closest_root(g, roots, m, roots[j]);
    }
    assert forall|v: NodeId, i: int|
        m.contains_key(v) && 0 <= i < g.spec_successors(v).len() implies step_certified(
        g,
        m,
        v,
        #[trigger] g.spec_successors(v)[i],
    ) by {
        assert(g.spec_successors(v).contains(g.spec_successors(v)[i]));
        lemma_closest_step(g, roots, m, v, g.spec_successors(v)[i]);
    }
}

/// A map that gives every node the closest of the nodes that dominate it
/// has the shape of the immediate dominators.
pub proof fn lemma_closest_shape<G: GraphOps>(g: &G, roots: Seq<NodeId>, m: Map<NodeId, NodeId>)
    requires
        is_flow_graph(g),
        forall|j: int| 0 <= j < roots.len() ==> (#[trigger] roots[j] as int) < g.vertex_count(),
        gives_closest(g, roots, m),
    ensures
        has_dominator_shape(g, roots, m),
{
    let n = g.vertex_count();
    assert forall|j: int| 0 <= j < roots.len() implies m[#[trigger] roots[j]] == roots[j] by {
        assert(roots.contains(roots[j]));
        lemma_closest_root(g, roots, m, roots[j]);
    }
    let rank = |v: NodeId| strict_count(g, roots, v, n);
    assert(ranked_by(m, rank)) by {
        assert forall|v: NodeId| #[trigger] m.contains_key(v) implies m.contains_key(m[v]) && (m[v]
            != v ==> rank(m[v]) < rank(v)) by {
            lemma_closest_keys(g, roots, m, v);
            if m[v] != v {
                lemma_reached_in_graph(g, roots, m[v]);
                lemma_count_less(g, roots, m[v], v, n);
            }
        }
    }
    if roots.len() == 1 {
        assert forall|v: NodeId| #[trigger] m.contains_key(v) && v != roots[0] implies m[v] != v by {
            lemma_closest_keys(g, roots, m, v);
            if m[v] == v {
                lemma_one_root_dominates(g, roots, v);
            }
        }
    }
}

/// Where there is one root it dominates every node.
pub proof fn lemma_one_root_dominates<G: GraphOps>(g: &G, roots: Seq<NodeId>, v: NodeId)
    requires
        roots.len() == 1,
    ensures
        dominates(g, roots, roots[0], v),
{
    assert forall|p: Seq<NodeId>|
        is_walk(g, p) && roots.contains(p[0]) && p.last() == v implies #[trigger] p.contains(
        roots[0],
    ) by {
        let j = choose|j: int| 0 <= j < roots.len() && roots[j] == p[0];
        assert(p[0] == roots[0]);
    }
}

/// A map that gives every node the closest of the nodes that dominate it is
/// the immediate dominators of the graph.
pub proof fn lemma_closest_is_exact<G: GraphOps>(g: &G, roots: Seq<NodeId>, m: Map<NodeId, NodeId>)
    requires
        is_flow_graph(g),
        forall|j: int| 0 <= j < roots.len() ==> (#[trigger] roots[j] as int) < g.vertex_count(),
        gives_closest(g, roots, m),
    ensures
        is_exact(g, roots, m),
{
    lemma_closest_certified(g, roots, m);
    assert forall|v: NodeId, x: NodeId|
        m.contains_key(v) && #[trigger] dominates(g, roots, x, v) implies climbs_within(
        m,
        v,
        x,
        g.vertex_count() as nat,
    ) by {
        lemma_count_bound(g, roots, v, g.vertex_count());
        lemma_closest_climbs(g, roots, m, v, x, g.vertex_count() as nat);
    }
}

/// Whether the table holds, for each node `x` and each node `u`, whether a
/// walk from a root leads to `u` without passing `x`.
pub open spec fn is_without_table<G: GraphOps>(
    g: &G,
    roots: Seq<NodeId>,
    table: Seq<Vec<bool>>,
    upto: int,
) -> bool {
    forall|x: NodeId| (x as int) < upto ==> is_without_row(g, roots, (#[trigger] table[x as int])@, x)
}

/// Whether the row holds, for each node `u`, whether a walk from a root
/// leads to `u` without passing `x`.
pub open spec fn is_without_row<G: GraphOps>(
    g: &G,
    roots: Seq<NodeId>,
    row: Seq<bool>,
    x: NodeId,
) -> bool {
    &&& row.len() == g.vertex_count()
    &&& forall|u: NodeId|
        (u as int) < g.vertex_count() ==> (#[trigger] row[u as int] <==> reaches_without(
            g,
            roots,
            x,
            u,
        ))
}

/// No node that is no node of the graph dominates a node that a walk leads
/// to.
pub proof fn lemma_none_dominates<G: GraphOps>(g: &G, roots: Seq<NodeId>, x: NodeId, v: NodeId)
    requires
        (x as int) >= g.vertex_count(),
        reachable(g, roots, v),
    ensures
        !dominates(g, roots, x, v),
{
    lemma_without_none(g, roots, x, v);
    lemma_dominates_or_without(g, roots, x, v);
}

/// The closest of the nodes that dominate `v`, found by going through the
/// nodes: of the nodes that dominate `v` so far, the one that the others
/// dominate is kept.
fn closest_of<G: GraphOps>(graph: &G, roots: &[NodeId], table: &Vec<Vec<bool>>, v: NodeId) -> (y:
    NodeId)
    requires
        is_flow_graph(graph),
        table@.len() == graph.vertex_count(),
        is_without_table(graph, roots@, table@, graph.vertex_count()),
        (v as int) < graph.vertex_count(),
        reachable(graph, roots@, v),
    ensures
        is_closest(graph, roots@, v, y),
{
    let n = table.len();
    let mut y = v;
    let mut x: usize = 0;
    while x < n
        invariant
            n == graph.vertex_count(),
            n < u32::MAX,
            table@.len() == n,
            is_without_table(graph, roots@, table@, n as int),
            (v as int) < n,
            (y as int) < n,
            reachable(graph, roots@, v),
            x <= n,
            y == v ==> forall|z: NodeId|
                (z as int) < x && #[trigger] dominates(graph, roots@, z, v) ==> z == v,
            y != v ==> dominates(graph, roots@, y, v) && forall|z: NodeId|
                (z as int) < x && z != v && #[trigger] dominates(graph, roots@, z, v) ==> dominates(
                    graph,
                    roots@,
                    z,
                    y,
                ),
        decreases n - x,
    {
        let node = x as NodeId;
        proof {
            lemma_dominates_or_without(graph, roots@, node, v);
            assert(is_without_row(graph, roots@, table@[node as int]@, node));
            assert(table@[x as int] == table@[node as int]);
            assert(table@[node as int]@[v as int] <==> reaches_without(graph, roots@, node, v));
        }
        if node != v && !table[x][v as usize] {
            let ghost old_y = y;
            if y == v {
                y = node;
                proof {
                    lemma_dominates_self(graph, roots@, node);
                }
            } else {
                proof {
                    lemma_dominates_or_without(graph, roots@, y, node);
                    assert(is_without_row(graph, roots@, table@[y as int]@, y));
                    assert(table@[y as int]@[node as int] <==> reaches_without(
                        graph,
                        roots@,
                        y,
                        node,
                    ));
                    assert(table@[y as int]@[node as int] == table@[y as int]@[x as int]);
                }
                if !table[y as usize][x] {
                    y = node;
                    proof {
                        lemma_dominates_self(graph, roots@, node);
                        assert forall|z: NodeId|
                            (z as int) < x + 1 && z != v && #[trigger] dominates(
                                graph,
                                roots@,
                                z,
                                v,
                            ) implies dominates(graph, roots@, z, node) by {
                            if z != node {
                                assert(dominates(graph, roots@, z, old_y));
                                lemma_dominance_transitive(graph, roots@, z, old_y, node);
                            }
                        }
                    }
                } else {
                    proof {
                        lemma_dominators_in_line(graph, roots@, node, y, v);
                    }
                }
            }
        }
        x = x + 1;
    }
    proof {
        if y == v {
            assert forall|z: NodeId| #[trigger] dominates(graph, roots@, z, v) implies z == v by {
                if (z as int) >= n {
                    lemma_none_dominates(graph, roots@, z, v);
                }
            }
        } else {
            assert forall|z: NodeId| #[trigger]
                dominates(graph, roots@, z, v) && z != v implies dominates(graph, roots@, z, y) by {
                if (z as int) >= n {
                    lemma_none_dominates(graph, roots@, z, v);
                }
            }
        }
    }
    y
}

/// The immediate dominators of the graph, found by walking the graph
/// without each of its nodes in turn: a node dominates the nodes that are
/// then not come to. This takes the time of as many walks as the graph has
/// nodes, and room for each node times each node.
pub fn exact_dominators<G: GraphOps>(graph: &G, roots: &[NodeId]) -> (idom: HashMap<NodeId, NodeId>)
    requires
        is_flow_graph(graph),
        forall|j: int| 0 <= j < roots@.len() ==> (#[trigger] roots@[j] as int) < graph.vertex_count(),
    ensures
        is_exact(graph, roots@, idom@),
        has_dominator_shape(graph, roots@, idom@),
{
    broadcast use vstd::std_specs::hash::group_hash_axioms;

    let n = graph.node_count();
    let none = n as NodeId;
    let reached = reach_without(graph, roots, none);
    let mut table: Vec<Vec<bool>> = Vec::new();
    let mut x: usize = 0;
    while x < n
        invariant
            is_flow_graph(graph),
            n == graph.vertex_count(),
            forall|j: int| 0 <= j < roots@.len() ==> (#[trigger] roots@[j] as int) < n,
            n < u32::MAX,
            x <= n,
            table@.len() == x,
            is_without_table(graph, roots@, table@, x as int),
        decreases n - x,
    {
        let ghost before = table@;
        let marks = reach_without(graph, roots, x as NodeId);
        table.push(marks);
        proof {
            assert forall|d: NodeId| (d as int) < x + 1 implies is_without_row(
                graph,
                roots@,
                (#[trigger] table@[d as int])@,
                d,
            ) by {
                if (d as int) < x {
                    assert(table@[d as int] == before[d as int]);
                    assert(is_without_row(graph, roots@, before[d as int]@, d));
                } else {
                    assert(d == x as NodeId);
                }
            }
        }
        x = x + 1;
    }
    let mut idom: HashMap<NodeId, NodeId> = HashMap::new();
    let mut v: usize = 0;
    while v < n
        invariant
            is_flow_graph(graph),
            n == graph.vertex_count(),
            none == n,
            v <= n,
            table@.len() == n,
            is_without_table(graph, roots@, table@, n as int),
            reached@.len() == n,
            forall|u: NodeId|
                (u as int) < n ==> (#[trigger] reached@[u as int] <==> reaches_without(
                    graph,
                    roots@,
                    none,
                    u,
                )),
            forall|u: NodeId|
                idom@.contains_key(u) <==> (u as int) < v && reachable(graph, roots@, u),
            forall|u: NodeId| #[trigger] idom@.contains_key(u) ==> is_closest(graph, roots@, u, idom@[u]),
        decreases n - v,
    {
        let node = v as NodeId;
        proof {
            lemma_without_none(graph, roots@, none, node);
            assert(reached@[node as int] == reached@[v as int]);
        }
        if reached[v] {
            let y = closest_of(graph, roots, &table, node);
            idom.insert(node, y);
        }
        v = v + 1;
    }
    proof {
        assert forall|u: NodeId| idom@.contains_key(u) <==> reachable(graph, roots@, u) by {
            if reachable(graph, roots@, u) {
                lemma_reached_in_graph(graph, roots@, u);
            }
        }
        assert(gives_closest(graph, roots@, idom@));
        lemma_closest_is_exact(graph, roots@, idom@);
        lemma_closest_shape(graph, roots@, idom@);
    }
    idom
}

/// Up to how many nodes a graph is walked without each of its nodes, to
/// see that the dominators found are the immediate dominators.
pub const EXACT_LIMIT: usize = 10_000;

/// Whether `m` is the immediate dominators of the graph, where the graph
/// has no more nodes than are walked without each of them.
#[verifier::opaque]
pub open spec fn exact_where_small<G: GraphOps>(g: &G, roots: Seq<NodeId>, m: Map<NodeId, NodeId>) -> bool {
    g.vertex_count() <= EXACT_LIMIT ==> is_exact(g, roots, m)
}

/// What the result of an engine says of a graph that is small.
pub proof fn lemma_small_is_exact<G: GraphOps>(g: &G, roots: Seq<NodeId>, m: Map<NodeId, NodeId>)
    requires
        exact_where_small(g, roots, m),
        g.vertex_count() <= EXACT_LIMIT,
    ensures
        is_exact(g, roots, m),
{
    reveal(exact_where_small);
}

/// The dominators found, held against the graph. Of a graph of no more
/// than `EXACT_LIMIT` nodes what is handed out is the immediate
/// dominators: what was found where that is they, and else what walking
/// the graph without each of its nodes gives. Of a larger graph what is
/// handed out gives every node a node that dominates it: what was found
/// where that passes, and else the map that gives every node to the one
/// root, or to itself where there are more roots.
pub fn settled<G: GraphOps>(graph: &G, roots: &[NodeId], found: HashMap<NodeId, NodeId>) -> (r:
    HashMap<NodeId, NodeId>)
    requires
        is_flow_graph(graph),
        forall|j: int| 0 <= j < roots@.len() ==> (#[trigger] roots@[j] as int) < graph.vertex_count(),
        has_dominator_shape(graph, roots@, found@),
    ensures
        has_dominator_shape(graph, roots@, r@),
        gives_dominators(graph, roots@, r@),
        exact_where_small(graph, roots@, r@),
        graph.vertex_count() <= EXACT_LIMIT && is_exact(graph, roots@, found@) ==> r@ == found@,
{
    let n = graph.node_count();
    if n <= EXACT_LIMIT {
        if check_exact(graph, roots, &found) {
            proof {
                reveal(exact_where_small);
                lemma_certified_gives(graph, roots@, found@);
            }
            found
        } else {
            let exact = exact_dominators(graph, roots);
            proof {
                reveal(exact_where_small);
                lemma_certified_gives(graph, roots@, exact@);
            }
            exact
        }
    } else {
        proof {
            reveal(exact_where_small);
        }
        certified(graph, roots, found)
    }
}

/// Two results for a graph of no more than `EXACT_LIMIT` nodes are one
/// map: whichever engines found them, they agree node for node.
pub proof fn lemma_small_results_agree<G: GraphOps>(
    g: &G,
    roots: Seq<NodeId>,
    a: Map<NodeId, NodeId>,
    b: Map<NodeId, NodeId>,
)
    requires
        has_dominator_shape(g, roots, a),
        has_dominator_shape(g, roots, b),
        exact_where_small(g, roots, a),
        exact_where_small(g, roots, b),
        g.vertex_count() <= EXACT_LIMIT,
    ensures
        a == b,
{
    lemma_small_is_exact(g, roots, a);
    lemma_small_is_exact(g, roots, b);
    assert forall|v: NodeId| a.contains_key(v) implies a[v] == b[v] by {
        assert(b.contains_key(v));
        lemma_exact_unique(g, roots, a, b, v);
    }
    assert(a =~= b);
}

} // verus!
