use vstd::prelude::*;
use crate::analysis::dominator_tree::{below, climbs_to};
use crate::graph::lengauer_tarjan::{
    is_dominator_forest, is_flow_graph, is_walk, lemma_root_reachable, lemma_successor_reachable,
    ranked_by, reachable, GraphOps,
};
use crate::types::NodeId;
use std::collections::HashMap;

verus! {

/// Whether `d` dominates `v`: every walk from a root to `v` passes `d`.
pub open spec fn dominates<G: GraphOps>(g: &G, roots: Seq<NodeId>, d: NodeId, v: NodeId) -> bool {
    forall|p: Seq<NodeId>|
        is_walk(g, p) && roots.contains(p[0]) && p.last() == v ==> #[trigger] p.contains(d)
}

/// Whether at most `fuel` steps from a node to its immediate dominator, none
/// of them from a node to itself, lead from `x` to `n`.
pub open spec fn climbs_within(m: Map<NodeId, NodeId>, x: NodeId, n: NodeId, fuel: nat) -> bool
    decreases fuel,
{
    m.contains_key(x) && (x == n || (fuel > 0 && m[x] != x && climbs_within(
        m,
        m[x],
        n,
        (fuel - 1) as nat,
    )))
}

/// Whether `m` passes for the immediate dominators of the graph: it maps
/// each root to itself, it holds the immediate dominator of every node that
/// it holds and the successors of that node, and the immediate dominator of
/// a successor of a node stands above that node or is the node, unless the
/// successor is mapped to itself.
pub open spec fn is_certified<G: GraphOps>(g: &G, roots: Seq<NodeId>, m: Map<NodeId, NodeId>) -> bool {
    &&& forall|j: int|
        0 <= j < roots.len() ==> m.contains_key(#[trigger] roots[j]) && m[roots[j]] == roots[j]
    &&& forall|v: NodeId|
        #[trigger] m.contains_key(v) ==> (v as int) < g.vertex_count() && m.contains_key(m[v])
    &&& forall|v: NodeId, i: int|
        m.contains_key(v) && 0 <= i < g.spec_successors(v).len() ==> step_certified(
            g,
            m,
            v,
            #[trigger] g.spec_successors(v)[i],
        )
}

/// Whether the step from `v` to its successor `w` agrees with `m`.
pub open spec fn step_certified<G: GraphOps>(
    g: &G,
    m: Map<NodeId, NodeId>,
    v: NodeId,
    w: NodeId,
) -> bool {
    m.contains_key(w) && (m[w] != w ==> climbs_within(m, v, m[w], g.vertex_count() as nat))
}

/// A climb within some number of steps is a climb.
pub proof fn lemma_climbs_within(m: Map<NodeId, NodeId>, x: NodeId, n: NodeId, fuel: nat)
    requires
        climbs_within(m, x, n, fuel),
    ensures
        below(m, n, x),
    decreases fuel,
{
    if x == n {
        assert(climbs_to(m, x, n, 0));
    } else {
        lemma_climbs_within(m, m[x], n, (fuel - 1) as nat);
        let k = choose|k: nat| climbs_to(m, m[x], n, k);
        assert(climbs_to(m, x, n, k + 1));
    }
}

/// A climb from `u` to `mid` and a climb from `mid` to `top` make a climb
/// from `u` to `top`.
pub proof fn lemma_climb_through(
    m: Map<NodeId, NodeId>,
    u: NodeId,
    mid: NodeId,
    top: NodeId,
    k1: nat,
    k2: nat,
)
    requires
        climbs_to(m, u, mid, k1),
        climbs_to(m, mid, top, k2),
    ensures
        climbs_to(m, u, top, k1 + k2),
    decreases k1,
{
    if k1 > 0 {
        lemma_climb_through(m, m[u], mid, top, (k1 - 1) as nat, k2);
    }
}

/// Where `m` passes for the immediate dominators, every node of a walk from
/// a root stands in `m`, and so does every node above it, which the walk has
/// passed by then.
pub proof fn lemma_walk_passes<G: GraphOps>(
    g: &G,
    roots: Seq<NodeId>,
    m: Map<NodeId, NodeId>,
    p: Seq<NodeId>,
    k: int,
    d: NodeId,
)
    requires
        is_certified(g, roots, m),
        is_walk(g, p),
        roots.contains(p[0]),
        0 <= k < p.len(),
        below(m, d, p[k]) || d == p[k],
    ensures
        m.contains_key(p[k]),
        exists|i: int| 0 <= i <= k && #[trigger] p[i] == d,
    decreases k, 1nat,
{
    lemma_walk_held(g, roots, m, p, k);
    if d != p[k] {
        let steps = choose|steps: nat| climbs_to(m, p[k], d, steps);
        assert(steps >= 1);
        let w = p[k];
        assert(m[w] != w);
        assert(climbs_to(m, m[w], d, (steps - 1) as nat));
        if k == 0 {
            let j = choose|j: int| 0 <= j < roots.len() && roots[j] == p[0];
            assert(m[roots[j]] == roots[j]);
        } else {
            let u = p[k - 1];
            lemma_walk_held(g, roots, m, p, k - 1);
            assert(g.spec_successors(p[k - 1]).contains(p[k - 1 + 1]));
            let i = choose|i: int| 0 <= i < g.spec_successors(u).len() && g.spec_successors(u)[i] == w;
            assert(step_certified(g, m, u, g.spec_successors(u)[i]));
            lemma_climbs_within(m, u, m[w], g.vertex_count() as nat);
            let up = choose|up: nat| climbs_to(m, u, m[w], up);
            lemma_climb_through(m, u, m[w], d, up, (steps - 1) as nat);
            assert(below(m, d, u));
            lemma_walk_passes(g, roots, m, p, k - 1, d);
            let i2 = choose|i2: int| 0 <= i2 <= k - 1 && #[trigger] p[i2] == d;
            assert(p[i2] == d);
        }
    } else {
        assert(p[k] == d);
    }
}

/// Where `m` passes for the immediate dominators, it holds every node of a
/// walk from a root.
pub proof fn lemma_walk_held<G: GraphOps>(
    g: &G,
    roots: Seq<NodeId>,
    m: Map<NodeId, NodeId>,
    p: Seq<NodeId>,
    k: int,
)
    requires
        is_certified(g, roots, m),
        is_walk(g, p),
        roots.contains(p[0]),
        0 <= k < p.len(),
    ensures
        m.contains_key(p[k]),
    decreases k, 0nat,
{
    if k == 0 {
        let j = choose|j: int| 0 <= j < roots.len() && roots[j] == p[0];
        assert(m.contains_key(roots[j]));
    } else {
        lemma_walk_held(g, roots, m, p, k - 1);
        let u = p[k - 1];
        assert(g.spec_successors(p[k - 1]).contains(p[k - 1 + 1]));
        let i = choose|i: int| 0 <= i < g.spec_successors(u).len() && g.spec_successors(u)[i] == p[k];
        assert(step_certified(g, m, u, g.spec_successors(u)[i]));
    }
}

/// Where `m` passes for the immediate dominators, every node that stands
/// above another in `m` dominates it: every walk from a root to the node
/// below passes the node above. So the immediate dominator that `m` gives a
/// node dominates the node.
pub proof fn lemma_certified_dominates<G: GraphOps>(
    g: &G,
    roots: Seq<NodeId>,
    m: Map<NodeId, NodeId>,
    d: NodeId,
    v: NodeId,
)
    requires
        is_certified(g, roots, m),
        below(m, d, v),
    ensures
        dominates(g, roots, d, v),
{
    assert forall|p: Seq<NodeId>|
        is_walk(g, p) && roots.contains(p[0]) && p.last() == v implies #[trigger] p.contains(d) by {
        lemma_walk_passes(g, roots, m, p, p.len() - 1, d);
    }
}

/// Whether at most `fuel` steps lead from `x` up to `n`.
pub fn climbs(m: &HashMap<NodeId, NodeId>, x: NodeId, n: NodeId, fuel: usize) -> (r: bool)
    ensures
        r == climbs_within(m@, x, n, fuel as nat),
{
    broadcast use vstd::std_specs::hash::group_hash_axioms;

    let mut cur = x;
    let mut left = fuel;
    loop
        invariant
            climbs_within(m@, x, n, fuel as nat) == climbs_within(m@, cur, n, left as nat),
        decreases left,
    {
        match m.get(&cur) {
            None => {
                return false;
            },
            Some(up) => {
                if cur == n {
                    return true;
                }
                if left == 0 || *up == cur {
                    return false;
                }
                cur = *up;
                left = left - 1;
            },
        }
    }
}

/// Whether `idom` passes for the immediate dominators of the graph. Where it
/// does, each node that stands above another in `idom` dominates it.
pub fn check_dominators<G: GraphOps>(
    graph: &G,
    roots: &[NodeId],
    idom: &HashMap<NodeId, NodeId>,
) -> (ok: bool)
    requires
        is_flow_graph(graph),
    ensures
        ok == is_certified(graph, roots@, idom@),
{
    broadcast use vstd::std_specs::hash::group_hash_axioms;

    let count = graph.node_count();
    let mut j: usize = 0;
    while j < roots.len()
        invariant
            j <= roots@.len(),
            forall|k: int|
                0 <= k < j ==> idom@.contains_key(#[trigger] roots@[k]) && idom@[roots@[k]]
                    == roots@[k],
        decreases roots@.len() - j,
    {
        match idom.get(&roots[j]) {
            Some(d) => {
                if *d != roots[j] {
                    return false;
                }
            },
            None => {
                return false;
            },
        }
        j = j + 1;
    }
    if idom.len() > count {
        proof {
            lemma_too_many_keys(idom@, count as int);
        }
        return false;
    }
    let mut v: usize = 0;
    while v < count
        invariant
            is_flow_graph(graph),
            count == graph.vertex_count(),
            v <= count,
            forall|k: int|
                0 <= k < roots@.len() ==> idom@.contains_key(#[trigger] roots@[k]) && idom@[roots@[k]]
                    == roots@[k],
            forall|x: NodeId|
                #[trigger] idom@.contains_key(x) && (x as int) < v ==> idom@.contains_key(idom@[x]),
            forall|x: NodeId, i: int|
                idom@.contains_key(x) && (x as int) < v && 0 <= i < graph.spec_successors(x).len()
                    ==> step_certified(graph, idom@, x, #[trigger] graph.spec_successors(x)[i]),
        decreases count - v,
    {
        let node = v as NodeId;
        match idom.get(&node) {
            None => {},
            Some(d) => {
                if !idom.contains_key(d) {
                    return false;
                }
                let succs = graph.successors(node);
                let mut i: usize = 0;
                while i < succs.len()
                    invariant
                        succs@ == graph.spec_successors(node),
                        count == graph.vertex_count(),
                        idom@.contains_key(node),
                        i <= succs@.len(),
                        forall|k: int|
                            0 <= k < i ==> step_certified(graph, idom@, node, #[trigger] succs@[k]),
                    decreases succs@.len() - i,
                {
                    let w = succs[i];
                    match idom.get(&w) {
                        None => {
                            proof {
                                assert(succs@[i as int] == w);
                                assert(idom@.contains_key(node));
                                if is_certified(graph, roots@, idom@) {
                                    assert(step_certified(
                                        graph,
                                        idom@,
                                        node,
                                        graph.spec_successors(node)[i as int],
                                    ));
                                }
                            }
                            return false;
                        },
                        Some(dw) => {
                            if *dw != w && !climbs(idom, node, *dw, count) {
                                proof {
                                    assert(succs@[i as int] == w);
                                    assert(idom@.contains_key(node));
                                    assert(idom@[w] == *dw);
                                    if is_certified(graph, roots@, idom@) {
                                        assert(step_certified(
                                            graph,
                                            idom@,
                                            node,
                                            graph.spec_successors(node)[i as int],
                                        ));
                                    }
                                }
                                return false;
                            }
                        },
                    }
                    i = i + 1;
                }
            },
        }
        v = v + 1;
    }
    // No key stands behind the last node
    let in_range = keys_in_range(idom, count);
    in_range
}

/// Whether every key of the map is below `count`, for a map with no more
/// than `count` keys of which the keys below `count` hold their values.
fn keys_in_range(idom: &HashMap<NodeId, NodeId>, count: usize) -> (ok: bool)
    requires
        idom@.len() <= count,
    ensures
        ok == forall|x: NodeId| #[trigger] idom@.contains_key(x) ==> (x as int) < count,
{
    broadcast use vstd::std_specs::hash::group_hash_axioms;

    let mut inside: usize = 0;
    let mut v: usize = 0;
    let ghost mut seen: Set<NodeId> = Set::empty();
    while v < count && v <= u32::MAX as usize
        invariant
            v <= count,
            v <= u32::MAX + 1,
            inside <= v,
            seen.finite(),
            seen.len() == inside,
            forall|x: NodeId| seen.contains(x) <==> idom@.contains_key(x) && (x as int) < v,
        decreases count - v,
    {
        if idom.contains_key(&(v as NodeId)) {
            proof {
                seen = seen.insert(v as NodeId);
            }
            inside = inside + 1;
        }
        v = v + 1;
    }
    proof {
        let keys = idom@.dom();
        assert(seen.subset_of(keys));
        if inside == idom@.len() {
            vstd::set_lib::lemma_subset_equality(seen, keys);
        } else {
            if forall|x: NodeId| #[trigger] idom@.contains_key(x) ==> (x as int) < count {
                assert(keys =~= seen);
            }
        }
    }
    inside == idom.len()
}

/// A map with more keys than there are nodes holds a key that is no node.
pub proof fn lemma_too_many_keys(m: Map<NodeId, NodeId>, count: int)
    requires
        m.dom().finite(),
        m.len() > count,
        count >= 0,
    ensures
        exists|x: NodeId| #[trigger] m.contains_key(x) && (x as int) >= count,
{
    if forall|x: NodeId| #[trigger] m.contains_key(x) ==> (x as int) < count {
        let ints = m.dom().map(|x: NodeId| x as int);
        assert(ints.subset_of(vstd::set_lib::set_int_range(0, count))) by {
            assert forall|i: int| ints.contains(i) implies vstd::set_lib::set_int_range(
                0,
                count,
            ).contains(i) by {
                let x = choose|x: NodeId| m.dom().contains(x) && i == x as int;
            }
        }
        vstd::set_lib::lemma_int_range(0, count);
        vstd::set_lib::lemma_len_subset(ints, vstd::set_lib::set_int_range(0, count));
        vstd::set_lib::lemma_map_size(m.dom(), ints, |x: NodeId| x as int);
    }
}

/// Whether `m` has the shape of the immediate dominators of the graph: it
/// holds the nodes that a walk from a root reaches and no others, maps each
/// root to itself, and is a forest; where there is one root, no other node
/// is mapped to itself.
pub open spec fn has_dominator_shape<G: GraphOps>(
    g: &G,
    roots: Seq<NodeId>,
    m: Map<NodeId, NodeId>,
) -> bool {
    &&& forall|v: NodeId| m.contains_key(v) <==> reachable(g, roots, v)
    &&& forall|j: int| 0 <= j < roots.len() ==> m[#[trigger] roots[j]] == roots[j]
    &&& is_dominator_forest(m)
    &&& roots.len() == 1 ==> forall|v: NodeId|
        #[trigger] m.contains_key(v) && v != roots[0] ==> m[v] != v
}

/// The map that gives every node that a walk from a root reaches to the one
/// root, or to itself where there are more roots or none: what is known of
/// every graph without looking at its edges.
pub open spec fn coarse_map<G: GraphOps>(g: &G, roots: Seq<NodeId>) -> Map<NodeId, NodeId> {
    Map::new(
        |v: NodeId| reachable(g, roots, v),
        |v: NodeId|
            if roots.len() == 1 {
                roots[0]
            } else {
                v
            },
    )
}

/// The coarse map has the shape of the immediate dominators, and passes for
/// them.
pub proof fn lemma_coarse_map<G: GraphOps>(g: &G, roots: Seq<NodeId>)
    requires
        is_flow_graph(g),
        forall|j: int| 0 <= j < roots.len() ==> (#[trigger] roots[j] as int) < g.vertex_count(),
    ensures
        has_dominator_shape(g, roots, coarse_map(g, roots)),
        is_certified(g, roots, coarse_map(g, roots)),
{
    let m = coarse_map(g, roots);
    assert forall|j: int| 0 <= j < roots.len() implies m.contains_key(#[trigger] roots[j])
        && m[roots[j]] == roots[j] by {
        lemma_root_reachable(g, roots, roots[j]);
    }
    if roots.len() == 1 {
        let root = roots[0];
        assert(m.contains_key(roots[0]));
        let rank = |v: NodeId|
            if v == root {
                0nat
            } else {
                1nat
            };
        assert(ranked_by(m, rank));
    } else {
        let rank = |v: NodeId| 0nat;
        assert(ranked_by(m, rank));
    }
    assert forall|v: NodeId| #[trigger] m.contains_key(v) implies (v as int) < g.vertex_count()
        && m.contains_key(m[v]) by {
        let p = choose|p: Seq<NodeId>| is_walk(g, p) && roots.contains(p[0]) && #[trigger] p.last() == v;
        assert((p[p.len() - 1] as int) < g.vertex_count());
    }
    assert forall|v: NodeId, i: int|
        m.contains_key(v) && 0 <= i < g.spec_successors(v).len() implies step_certified(
        g,
        m,
        v,
        #[trigger] g.spec_successors(v)[i],
    ) by {
        let w = g.spec_successors(v)[i];
        assert(g.spec_successors(v).contains(w));
        lemma_successor_reachable(g, roots, v, w);
        if m[w] != w {
            let root = roots[0];
            assert(m.contains_key(root));
            if v != root {
                assert(climbs_within(m, root, root, (g.vertex_count() - 1) as nat));
            }
        }
    }
}

/// The map found where it passes for the immediate dominators of the
/// graph, and the coarse map where it does not: so what is handed out
/// passes for them, and what stands above a node in it dominates the node.
pub fn certified<G: GraphOps>(graph: &G, roots: &[NodeId], found: HashMap<NodeId, NodeId>) -> (r:
    HashMap<NodeId, NodeId>)
    requires
        is_flow_graph(graph),
        forall|j: int| 0 <= j < roots@.len() ==> (#[trigger] roots@[j] as int) < graph.vertex_count(),
        has_dominator_shape(graph, roots@, found@),
    ensures
        has_dominator_shape(graph, roots@, r@),
        gives_dominators(graph, roots@, r@),
        r@ == if is_certified(graph, roots@, found@) {
            found@
        } else {
            coarse_map(graph, roots@)
        },
{
    broadcast use vstd::std_specs::hash::group_hash_axioms;

    if check_dominators(graph, roots, &found) {
        proof {
            lemma_certified_gives(graph, roots@, found@);
        }
        return found;
    }
    let count = graph.node_count();
    let mut out: HashMap<NodeId, NodeId> = HashMap::new();
    let mut v: usize = 0;
    while v < count
        invariant
            count == graph.vertex_count(),
            count < u32::MAX,
            v <= count,
            forall|j: int| 0 <= j < roots@.len() ==> (#[trigger] roots@[j] as int) < count,
            forall|x: NodeId| found@.contains_key(x) <==> reachable(graph, roots@, x),
            forall|x: NodeId|
                out@.contains_key(x) <==> (x as int) < v && reachable(graph, roots@, x),
            forall|x: NodeId|
                #[trigger] out@.contains_key(x) ==> out@[x] == coarse_map(graph, roots@)[x],
        decreases count - v,
    {
        let node = v as NodeId;
        if found.contains_key(&node) {
            let to = if roots.len() == 1 {
                roots[0]
            } else {
                node
            };
            out.insert(node, to);
        }
        v = v + 1;
    }
    proof {
        assert forall|x: NodeId| reachable(graph, roots@, x) implies (x as int) < count by {
            let p = choose|p: Seq<NodeId>|
                is_walk(graph, p) && roots@.contains(p[0]) && #[trigger] p.last() == x;
            assert((p[p.len() - 1] as int) < graph.vertex_count());
        }
        assert(out@ =~= coarse_map(graph, roots@));
        lemma_coarse_map(graph, roots@);
        lemma_certified_gives(graph, roots@, out@);
    }
    out
}

/// Whether `m` passes for the immediate dominators of the graph, so that
/// what it gives a node dominates the node: every walk from a root to the
/// node passes it.
#[verifier::opaque]
pub open spec fn gives_dominators<G: GraphOps>(g: &G, roots: Seq<NodeId>, m: Map<NodeId, NodeId>) -> bool {
    &&& is_certified(g, roots, m)
    &&& forall|v: NodeId| #[trigger] m.contains_key(v) ==> dominates(g, roots, m[v], v)
}

/// A map that passes for the immediate dominators gives each node a node
/// that dominates it.
pub proof fn lemma_certified_gives<G: GraphOps>(g: &G, roots: Seq<NodeId>, m: Map<NodeId, NodeId>)
    requires
        is_certified(g, roots, m),
    ensures
        gives_dominators(g, roots, m),
{
    reveal(gives_dominators);
    assert forall|v: NodeId| #[trigger] m.contains_key(v) implies dominates(g, roots, m[v], v) by {
        lemma_idom_dominates(g, roots, m, v);
    }
}

/// What a map that gives dominators says of a node.
pub proof fn lemma_given_dominates<G: GraphOps>(
    g: &G,
    roots: Seq<NodeId>,
    m: Map<NodeId, NodeId>,
    v: NodeId,
)
    requires
        gives_dominators(g, roots, m),
        m.contains_key(v),
    ensures
        is_certified(g, roots, m),
        dominates(g, roots, m[v], v),
{
    reveal(gives_dominators);
}

/// Where `m` passes for the immediate dominators, what it gives a node
/// dominates the node.
pub proof fn lemma_idom_dominates<G: GraphOps>(
    g: &G,
    roots: Seq<NodeId>,
    m: Map<NodeId, NodeId>,
    v: NodeId,
)
    requires
        is_certified(g, roots, m),
        m.contains_key(v),
    ensures
        dominates(g, roots, m[v], v),
{
    if m[v] == v {
        assert(climbs_to(m, v, v, 0));
    } else {
        assert(climbs_to(m, m[v], m[v], 0));
        assert(climbs_to(m, v, m[v], 1));
    }
    lemma_certified_dominates(g, roots, m, m[v], v);
}

} // verus!
