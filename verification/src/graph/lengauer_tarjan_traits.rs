use vstd::prelude::*;
use crate::graph::lengauer_tarjan::{is_flow_graph, GraphOps};
use crate::graph::v8_heap_graph::{EdgeId, V8HeapGraph};
use crate::seq_lemmas::{lemma_filter_map_member, lemma_filter_map_origin, lemma_filter_push};
use crate::types::NodeId;

verus! {

/// The ordinal under which a snapshot stores the kind of a weak edge.
pub const WEAK_TAG: NodeId = 6;

impl V8HeapGraph {
    /// The edges that leave node `n`, in stored order.
    pub open spec fn out_ids(&self, n: int) -> Seq<EdgeId> {
        Seq::new(self.spec_out_degree(n) as nat, |k: int| (self.spec_first_edge(n) + k) as EdgeId)
    }

    /// Whether edge `e` keeps its target alive, as every edge but a weak one
    /// does.
    pub open spec fn is_strong(&self, e: EdgeId) -> bool {
        self.spec_edge_tag(e as int) != WEAK_TAG
    }

    /// The targets of the edges, weak ones left out, that leave node `n`.
    pub open spec fn strong_targets(&self, n: int) -> Seq<NodeId> {
        self.out_ids(n).filter(|e: EdgeId| self.is_strong(e)).map_values(
            |e: EdgeId| self.spec_target(e as int),
        )
    }

    /// The sources of the edges, weak ones left out, that arrive at node `n`.
    pub open spec fn strong_sources(&self, n: int) -> Seq<NodeId> {
        self.spec_in_edges(n).filter(|e: EdgeId| self.is_strong(e)).map_values(
            |e: EdgeId| self.spec_source(e as int),
        )
    }

    /// A well-formed heap graph, its weak edges left out, is a graph that
    /// dominators can be computed on.
    pub proof fn lemma_is_flow_graph(&self)
        requires
            self.wf(),
        ensures
            is_flow_graph(self),
    {
        let strong = |e: EdgeId| self.is_strong(e);
        let target = |e: EdgeId| self.spec_target(e as int);
        let source = |e: EdgeId| self.spec_source(e as int);
        assert forall|v: NodeId, j: int|
            (v as int) < self.vertex_count() && 0 <= j < self.spec_successors(v).len() implies (
        #[trigger] self.spec_successors(v)[j] as int) < self.vertex_count() by {
            self.lemma_edge_range(v as int);
            let i = lemma_filter_map_origin(self.out_ids(v as int), strong, target, j);
            let e = self.out_ids(v as int)[i];
            assert((self.spec_target(e as int) as int) < self.node_count);
        }
        assert forall|v: NodeId, j: int|
            (v as int) < self.vertex_count() && 0 <= j < self.spec_predecessors(v).len() implies (
        #[trigger] self.spec_predecessors(v)[j] as int) < self.vertex_count() by {
            let i = lemma_filter_map_origin(self.spec_in_edges(v as int), strong, source, j);
            let e = self.spec_in_edges(v as int)[i];
            assert((e as int) < self.spec_edge_count());
            assert((self.spec_source(e as int) as int) < self.node_count);
        }
        assert forall|v: NodeId, w: NodeId|
            (v as int) < self.vertex_count() && (w as int) < self.vertex_count() implies (
        #[trigger] self.spec_successors(v).contains(w) <==> #[trigger] self.spec_predecessors(
            w,
        ).contains(v)) by {
            self.lemma_edge_range(v as int);
            if self.spec_successors(v).contains(w) {
                let j = choose|j: int|
                    0 <= j < self.spec_successors(v).len() && self.spec_successors(v)[j] == w;
                let i = lemma_filter_map_origin(self.out_ids(v as int), strong, target, j);
                let e = self.out_ids(v as int)[i];
                assert(self.owns_edge(v as int, e as int));
                assert(self.spec_source(e as int) == v);
                assert(self.spec_in_edges(self.spec_target(e as int) as int).contains(e));
                let k = choose|k: int|
                    0 <= k < self.spec_in_edges(w as int).len() && self.spec_in_edges(w as int)[k]
                        == e;
                lemma_filter_map_member(self.spec_in_edges(w as int), strong, source, k);
            }
            if self.spec_predecessors(w).contains(v) {
                let j = choose|j: int|
                    0 <= j < self.spec_predecessors(w).len() && self.spec_predecessors(w)[j] == v;
                let k = lemma_filter_map_origin(self.spec_in_edges(w as int), strong, source, j);
                let e = self.spec_in_edges(w as int)[k];
                assert((e as int) < self.spec_edge_count());
                assert(self.spec_target(e as int) == w);
                assert(self.owns_edge(self.spec_source(e as int) as int, e as int));
                let i = e - self.spec_first_edge(v as int);
                assert(self.out_ids(v as int)[i] == e);
                lemma_filter_map_member(self.out_ids(v as int), strong, target, i);
            }
        }
    }
}

impl GraphOps for V8HeapGraph {
    open spec fn ops_wf(&self) -> bool {
        self.wf()
    }

    open spec fn vertex_count(&self) -> int {
        self.node_count as int
    }

    /// Dominance is about what keeps a node alive, so weak edges are left out.
    open spec fn spec_successors(&self, node: NodeId) -> Seq<NodeId> {
        self.strong_targets(node as int)
    }

    /// Dominance is about what keeps a node alive, so weak edges are left out.
    open spec fn spec_predecessors(&self, node: NodeId) -> Seq<NodeId> {
        self.strong_sources(node as int)
    }

    fn node_count(&self) -> (n: usize) {
        self.node_count
    }

    fn predecessors(&self, node: NodeId) -> (r: Vec<NodeId>) {
        let ids = &self.node_in_edges[node as usize];
        let ghost strong = |e: EdgeId| self.is_strong(e);
        let ghost source = |e: EdgeId| self.spec_source(e as int);
        let mut out: Vec<NodeId> = Vec::new();
        let mut k: usize = 0;
        proof {
            assert(ids@.take(0) =~= Seq::<EdgeId>::empty());
            reveal(Seq::filter);
        }
        while k < ids.len()
            invariant
                self.wf(),
                node < self.spec_node_count(),
                ids@ == self.spec_in_edges(node as int),
                strong == |e: EdgeId| self.is_strong(e),
                source == |e: EdgeId| self.spec_source(e as int),
                k <= ids@.len(),
                out@ == ids@.take(k as int).filter(strong).map_values(source),
            decreases ids@.len() - k,
        {
            let e = ids[k];
            assert((self.spec_in_edges(node as int)[k as int] as int) < self.spec_edge_count());
            proof {
                assert(ids@.take(k + 1) =~= ids@.take(k as int).push(e));
                lemma_filter_push(ids@.take(k as int), e, strong);
            }
            if self.edges.types[e as usize] != WEAK_TAG {
                out.push(self.edge_sources[e as usize]);
                proof {
                    assert(ids@.take(k as int).filter(strong).push(e).map_values(source)
                        =~= ids@.take(k as int).filter(strong).map_values(source).push(source(e)));
                }
            }
            k = k + 1;
        }
        proof {
            assert(ids@.take(ids@.len() as int) =~= ids@);
        }
        out
    }

    fn successors(&self, node: NodeId) -> (r: Vec<NodeId>) {
        proof {
            self.lemma_edge_range(node as int);
        }
        let start = self.node_out_edges[node as usize];
        let end = self.node_out_edges[node as usize + 1];
        let ghost ids = self.out_ids(node as int);
        let ghost strong = |e: EdgeId| self.is_strong(e);
        let ghost target = |e: EdgeId| self.spec_target(e as int);
        let mut out: Vec<NodeId> = Vec::new();
        let mut e = start;
        proof {
            assert(ids.take(0) =~= Seq::<EdgeId>::empty());
            reveal(Seq::filter);
        }
        while e < end
            invariant
                self.wf(),
                node < self.spec_node_count(),
                ids == self.out_ids(node as int),
                ids.len() == end - start,
                strong == |e: EdgeId| self.is_strong(e),
                target == |e: EdgeId| self.spec_target(e as int),
                start == self.spec_first_edge(node as int),
                end == self.spec_first_edge(node + 1),
                end <= self.spec_edge_count(),
                start <= e <= end,
                out@ == ids.take(e - start).filter(strong).map_values(target),
            decreases end - e,
        {
            proof {
                assert(ids.take(e - start + 1) =~= ids.take(e - start).push(e));
                lemma_filter_push(ids.take(e - start), e, strong);
            }
            if self.edges.types[e as usize] != WEAK_TAG {
                out.push(self.edges.to_nodes[e as usize]);
                proof {
                    assert(ids.take(e - start).filter(strong).push(e).map_values(target)
                        =~= ids.take(e - start).filter(strong).map_values(target).push(target(e)));
                }
            }
            e = e + 1;
        }
        proof {
            assert(ids.take(ids.len() as int) =~= ids);
        }
        out
    }
}

/// A graph as two lists per node: the nodes before it and the nodes after
/// it. It serves to try the dominator engine on graphs written by hand.
pub struct AdjacencyGraph {
    pub preds: Vec<Vec<NodeId>>,
    pub succs: Vec<Vec<NodeId>>,
}

/// Whether `x` stands in `list`.
fn list_contains(list: &Vec<NodeId>, x: NodeId) -> (r: bool)
    ensures
        r == list@.contains(x),
{
    let mut i: usize = 0;
    while i < list.len()
        invariant
            i <= list@.len(),
            forall|k: int| 0 <= k < i ==> list@[k] != x,
        decreases list@.len() - i,
    {
        if list[i] == x {
            return true;
        }
        i = i + 1;
    }
    false
}

impl AdjacencyGraph {
    /// Whether every node listed is a node of the graph.
    pub open spec fn in_range(lists: Seq<Vec<NodeId>>) -> bool {
        forall|v: int, j: int|
            0 <= v < lists.len() && 0 <= j < lists[v]@.len() ==> (#[trigger] lists[v]@[j] as int)
                < lists.len()
    }

    /// Whether each node that `a` lists for a node lists that node in `b`.
    pub open spec fn mirrored(a: Seq<Vec<NodeId>>, b: Seq<Vec<NodeId>>) -> bool {
        forall|v: int, j: int|
            0 <= v < a.len() && 0 <= j < a[v]@.len() ==> b[#[trigger] a[v]@[j] as int]@.contains(
                v as NodeId,
            )
    }

    /// Whether every node of the lists of `lists` is a node of the graph and
    /// lists the node in `other`.
    fn check_lists(lists: &Vec<Vec<NodeId>>, other: &Vec<Vec<NodeId>>) -> (ok: bool)
        requires
            lists@.len() == other@.len(),
            lists@.len() < u32::MAX,
        ensures
            ok == (Self::in_range(lists@) && Self::mirrored(lists@, other@)),
    {
        let mut v: usize = 0;
        while v < lists.len()
            invariant
                lists@.len() == other@.len(),
                lists@.len() < u32::MAX,
                v <= lists@.len(),
                forall|a: int, j: int|
                    0 <= a < v && 0 <= j < lists@[a]@.len() ==> (#[trigger] lists@[a]@[j] as int)
                        < lists@.len() && other@[lists@[a]@[j] as int]@.contains(a as NodeId),
            decreases lists@.len() - v,
        {
            let mut j: usize = 0;
            while j < lists[v].len()
                invariant
                    lists@.len() == other@.len(),
                    lists@.len() < u32::MAX,
                    v < lists@.len(),
                    j <= lists@[v as int]@.len(),
                    forall|k: int|
                        0 <= k < j ==> (#[trigger] lists@[v as int]@[k] as int) < lists@.len()
                            && other@[lists@[v as int]@[k] as int]@.contains(v as NodeId),
                decreases lists@[v as int]@.len() - j,
            {
                let w = lists[v][j];
                if w as usize >= lists.len() || !list_contains(&other[w as usize], v as NodeId) {
                    proof {
                        assert(lists@[v as int]@[j as int] == w);
                    }
                    return false;
                }
                j = j + 1;
            }
            v = v + 1;
        }
        true
    }

    /// Whether the graph is one that dominators can be computed on: every
    /// node listed is a node of the graph, and a node comes before another
    /// exactly where the other comes after it.
    pub fn is_consistent(&self) -> (ok: bool)
        ensures
            ok == self.ops_wf(),
    {
        if self.preds.len() != self.succs.len() || self.preds.len() >= u32::MAX as usize {
            return false;
        }
        Self::check_lists(&self.succs, &self.preds) && Self::check_lists(&self.preds, &self.succs)
    }

    /// A consistent graph is a graph that dominators can be computed on.
    pub proof fn lemma_is_flow_graph(&self)
        requires
            self.ops_wf(),
        ensures
            is_flow_graph(self),
    {
        assert forall|v: NodeId, w: NodeId|
            (v as int) < self.vertex_count() && (w as int) < self.vertex_count() implies (
        #[trigger] self.spec_successors(v).contains(w) <==> #[trigger] self.spec_predecessors(
            w,
        ).contains(v)) by {
            if self.spec_successors(v).contains(w) {
                let j = choose|j: int|
                    0 <= j < self.succs@[v as int]@.len() && self.succs@[v as int]@[j] == w;
                assert(self.preds@[self.succs@[v as int]@[j] as int]@.contains(v));
            }
            if self.spec_predecessors(w).contains(v) {
                let j = choose|j: int|
                    0 <= j < self.preds@[w as int]@.len() && self.preds@[w as int]@[j] == v;
                assert(self.succs@[self.preds@[w as int]@[j] as int]@.contains(w));
            }
        }
    }
}

impl GraphOps for AdjacencyGraph {
    open spec fn ops_wf(&self) -> bool {
        &&& self.preds@.len() == self.succs@.len()
        &&& self.preds@.len() < u32::MAX
        &&& Self::in_range(self.succs@)
        &&& Self::mirrored(self.succs@, self.preds@)
        &&& Self::in_range(self.preds@)
        &&& Self::mirrored(self.preds@, self.succs@)
    }

    open spec fn vertex_count(&self) -> int {
        self.preds@.len() as int
    }

    open spec fn spec_successors(&self, node: NodeId) -> Seq<NodeId> {
        self.succs@[node as int]@
    }

    open spec fn spec_predecessors(&self, node: NodeId) -> Seq<NodeId> {
        self.preds@[node as int]@
    }

    fn node_count(&self) -> (n: usize) {
        self.preds.len()
    }

    fn predecessors(&self, node: NodeId) -> (r: Vec<NodeId>) {
        copy_list(&self.preds[node as usize])
    }

    fn successors(&self, node: NodeId) -> (r: Vec<NodeId>) {
        copy_list(&self.succs[node as usize])
    }
}

/// A vector with the items of another.
fn copy_list(list: &Vec<NodeId>) -> (out: Vec<NodeId>)
    ensures
        out@ == list@,
{
    let mut out: Vec<NodeId> = Vec::with_capacity(list.len());
    let mut k: usize = 0;
    while k < list.len()
        invariant
            k <= list@.len(),
            out@ == list@.take(k as int),
        decreases list@.len() - k,
    {
        out.push(list[k]);
        proof {
            assert(list@.take(k + 1) =~= list@.take(k as int).push(list@[k as int]));
        }
        k = k + 1;
    }
    proof {
        assert(list@.take(list@.len() as int) =~= list@);
    }
    out
}

} // verus!
