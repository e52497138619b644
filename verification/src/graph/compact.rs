use vstd::prelude::*;
use crate::parser::StringTable;
use crate::types::NodeId;
use std::sync::Arc;

verus! {

/// What an edge is, apart from the table in which its name is looked up.
#[derive(Clone, Copy, Debug)]
pub struct EdgeView {
    pub edge_type: u8,
    pub name_or_index: u32,
    pub target: NodeId,
}

/// A heap graph held as columns: one entry per node in each node column, one
/// entry per edge in each edge column, and for each node the half-open range
/// of its edges in the edge columns.
pub struct CompactGraph {
    pub node_types: Vec<u8>,
    pub node_names: Vec<u32>,
    pub node_ids: Vec<u32>,
    pub node_sizes: Vec<u32>,
    pub node_edge_ranges: Vec<(u32, u32)>,
    pub edge_types: Vec<u8>,
    pub edge_names: Vec<u32>,
    pub edge_targets: Vec<u32>,
    pub string_table: Arc<StringTable>,
    pub gc_roots: Vec<NodeId>,
}

impl CompactGraph {
    /// The columns agree in length, and every node's edge range lies within
    /// the edge columns.
    pub open spec fn wf(&self) -> bool {
        &&& self.node_names@.len() == self.node_types@.len()
        &&& self.node_ids@.len() == self.node_types@.len()
        &&& self.node_sizes@.len() == self.node_types@.len()
        &&& self.node_edge_ranges@.len() == self.node_types@.len()
        &&& self.edge_names@.len() == self.edge_types@.len()
        &&& self.edge_targets@.len() == self.edge_types@.len()
        &&& forall|i: int|
            0 <= i < self.node_edge_ranges@.len() ==> {
                &&& (#[trigger] self.node_edge_ranges@[i]).0 <= self.node_edge_ranges@[i].1
                &&& self.node_edge_ranges@[i].1 <= self.edge_types@.len()
            }
    }

    /// The interned strings, by index.
    pub open spec fn spec_strings(&self) -> Seq<Seq<char>> {
        (*self.string_table)@
    }

    /// How many nodes the graph has.
    pub open spec fn spec_node_count(&self) -> int {
        self.node_types@.len() as int
    }

    /// The name of a node, where the node and its name's index both exist.
    pub open spec fn spec_node_name(&self, node_id: NodeId) -> Option<Seq<char>> {
        if (node_id as int) < self.node_names@.len() && (self.node_names@[node_id as int] as int)
            < self.spec_strings().len() {
            Some(self.spec_strings()[self.node_names@[node_id as int] as int])
        } else {
            None
        }
    }

    /// The self size of a node, where the node exists.
    pub open spec fn spec_node_size(&self, node_id: NodeId) -> Option<u32> {
        if (node_id as int) < self.node_sizes@.len() {
            Some(self.node_sizes@[node_id as int])
        } else {
            None
        }
    }

    /// The type tag of a node, where the node exists.
    pub open spec fn spec_node_type(&self, node_id: NodeId) -> Option<u8> {
        if (node_id as int) < self.node_types@.len() {
            Some(self.node_types@[node_id as int])
        } else {
            None
        }
    }

    /// Where a node's edges start in the edge columns; 0 for a node that
    /// does not exist.
    pub open spec fn spec_edge_start(&self, node_id: NodeId) -> int {
        if (node_id as int) < self.node_edge_ranges@.len() {
            self.node_edge_ranges@[node_id as int].0 as int
        } else {
            0
        }
    }

    /// Where a node's edges end in the edge columns; 0 for a node that does
    /// not exist.
    pub open spec fn spec_edge_end(&self, node_id: NodeId) -> int {
        if (node_id as int) < self.node_edge_ranges@.len() {
            self.node_edge_ranges@[node_id as int].1 as int
        } else {
            0
        }
    }

    /// The edge at position `i` of the edge columns.
    pub open spec fn spec_edge(&self, i: int) -> EdgeView {
        EdgeView {
            edge_type: self.edge_types@[i],
            name_or_index: self.edge_names@[i],
            target: self.edge_targets@[i],
        }
    }

    /// The out-edges of a node, in stored order; none for a node that does
    /// not exist.
    pub open spec fn spec_edges(&self, node_id: NodeId) -> Seq<EdgeView> {
        Seq::new(
            (self.spec_edge_end(node_id) - self.spec_edge_start(node_id)) as nat,
            |k: int| self.spec_edge(self.spec_edge_start(node_id) + k),
        )
    }

    /// A graph without nodes, edges or roots over the given strings.
    pub fn new(string_table: Arc<StringTable>) -> (g: Self)
        ensures
            g.wf(),
            g.spec_node_count() == 0,
            g.edge_types@.len() == 0,
            g.gc_roots@.len() == 0,
            g.string_table == string_table,
    {
        Self {
            node_types: Vec::new(),
            node_names: Vec::new(),
            node_ids: Vec::new(),
            node_sizes: Vec::new(),
            node_edge_ranges: Vec::new(),
            edge_types: Vec::new(),
            edge_names: Vec::new(),
            edge_targets: Vec::new(),
            string_table,
            gc_roots: Vec::new(),
        }
    }

    /// Whether the columns agree with each other, so that every edge range
    /// can be walked.
    pub fn is_well_formed(&self) -> (b: bool)
        ensures
            b == self.wf(),
    {
        let n = self.node_types.len();
        let e = self.edge_types.len();
        if self.node_names.len() != n || self.node_ids.len() != n || self.node_sizes.len() != n
            || self.node_edge_ranges.len() != n || self.edge_names.len() != e
            || self.edge_targets.len() != e {
            return false;
        }
        let mut i: usize = 0;
        while i < n
            invariant
                i <= n,
                n == self.node_edge_ranges@.len(),
                e == self.edge_types@.len(),
                forall|j: int|
                    0 <= j < i ==> {
                        &&& (#[trigger] self.node_edge_ranges@[j]).0 <= self.node_edge_ranges@[j].1
                        &&& self.node_edge_ranges@[j].1 <= e
                    },
            decreases n - i,
        {
            let (start, end) = self.node_edge_ranges[i];
            if start > end || end as usize > e {
                return false;
            }
            i = i + 1;
        }
        true
    }

    /// How many nodes the graph has.
    pub fn node_count(&self) -> (n: usize)
        ensures
            n == self.spec_node_count(),
    {
        self.node_types.len()
    }

    /// How many edges the graph has.
    pub fn edge_count(&self) -> (n: usize)
        ensures
            n == self.edge_types@.len(),
    {
        self.edge_types.len()
    }

    /// The type tag of a node, where the node exists.
    pub fn node_type(&self, node_id: NodeId) -> (r: Option<u8>)
        ensures
            r == self.spec_node_type(node_id),
    {
        if (node_id as usize) < self.node_types.len() {
            Some(self.node_types[node_id as usize])
        } else {
            None
        }
    }

    /// The name of a node, where the node and its name's index both exist.
    pub fn node_name(&self, node_id: NodeId) -> (r: Option<&str>)
        ensures
            r is Some <==> self.spec_node_name(node_id) is Some,
            r is Some ==> r->0@ == self.spec_node_name(node_id)->0,
    {
        if (node_id as usize) < self.node_names.len() {
            let name_idx = self.node_names[node_id as usize];
            self.string_table.get(name_idx)
        } else {
            None
        }
    }

    /// The self size of a node, where the node exists.
    pub fn node_size(&self, node_id: NodeId) -> (r: Option<u32>)
        ensures
            r == self.spec_node_size(node_id),
    {
        if (node_id as usize) < self.node_sizes.len() {
            Some(self.node_sizes[node_id as usize])
        } else {
            None
        }
    }

    /// A walk over the out-edges of a node, in stored order; over nothing
    /// for a node that does not exist.
    pub fn edges(&self, node_id: NodeId) -> (it: EdgeIterator<'_>)
        requires
            self.wf(),
        ensures
            it.wf(),
            it.graph == self,
            it.spec_remaining() == self.spec_edges(node_id),
    {
        let (start, end) = if (node_id as usize) < self.node_edge_ranges.len() {
            self.node_edge_ranges[node_id as usize]
        } else {
            (0, 0)
        };
        let it = EdgeIterator { graph: self, current: start, end };
        proof {
            assert(it.spec_remaining() =~= self.spec_edges(node_id));
        }
        it
    }

    /// Whether a node is one of the graph's roots.
    pub fn is_gc_root(&self, node_id: NodeId) -> (b: bool)
        ensures
            b == self.gc_roots@.contains(node_id),
    {
        let mut i: usize = 0;
        while i < self.gc_roots.len()
            invariant
                i <= self.gc_roots@.len(),
                forall|j: int| 0 <= j < i ==> self.gc_roots@[j] != node_id,
            decreases self.gc_roots@.len() - i,
        {
            if self.gc_roots[i] == node_id {
                return true;
            }
            i = i + 1;
        }
        false
    }

    /// The graph's roots, in the order in which they were found.
    pub fn gc_roots(&self) -> (r: &[NodeId])
        ensures
            r@ == self.gc_roots@,
    {
        self.gc_roots.as_slice()
    }
}

/// A position in the walk over one node's out-edges.
pub struct EdgeIterator<'a> {
    pub graph: &'a CompactGraph,
    pub current: u32,
    pub end: u32,
}

impl<'a> EdgeIterator<'a> {
    /// The walk stays within the edge columns of a well-formed graph.
    pub open spec fn wf(&self) -> bool {
        &&& self.graph.wf()
        &&& self.end as int <= self.graph.edge_types@.len()
    }

    /// The edges that the walk has still to hand out.
    pub open spec fn spec_remaining(&self) -> Seq<EdgeView> {
        Seq::new(
            if self.current <= self.end {
                (self.end - self.current) as nat
            } else {
                0
            },
            |k: int| self.graph.spec_edge(self.current + k),
        )
    }

    /// The next edge of the walk, where one is left.
    pub fn next(&mut self) -> (r: Option<Edge<'a>>)
        requires
            old(self).wf(),
        ensures
            final(self).wf(),
            final(self).graph == old(self).graph,
            old(self).spec_remaining().len() == 0 ==> r is None && *final(self) == *old(self),
            old(self).spec_remaining().len() > 0 ==> {
                &&& r is Some
                &&& r->0@ == old(self).spec_remaining()[0]
                &&& r->0.string_table == &*old(self).graph.string_table
                &&& final(self).spec_remaining() == old(self).spec_remaining().drop_first()
            },
    {
        if self.current >= self.end {
            return None;
        }
        let idx = self.current as usize;
        let edge = Edge {
            edge_type: self.graph.edge_types[idx],
            name_or_index: self.graph.edge_names[idx],
            target: self.graph.edge_targets[idx],
            string_table: &self.graph.string_table,
        };
        self.current = self.current + 1;
        proof {
            assert(self.spec_remaining() =~= old(self).spec_remaining().drop_first());
        }
        Some(edge)
    }

    /// All the edges that the walk has still to hand out, in order.
    pub fn collect(self) -> (r: Vec<Edge<'a>>)
        requires
            self.wf(),
        ensures
            r@.len() == self.spec_remaining().len(),
            forall|k: int|
                0 <= k < r@.len() ==> {
                    &&& (#[trigger] r@[k])@ == self.spec_remaining()[k]
                    &&& r@[k].string_table == &*self.graph.string_table
                },
    {
        let mut it = self;
        let mut out: Vec<Edge<'a>> = Vec::new();
        loop
            invariant
                it.wf(),
                it.graph == self.graph,
                out@.len() + it.spec_remaining().len() == self.spec_remaining().len(),
                forall|k: int|
                    0 <= k < it.spec_remaining().len() ==> it.spec_remaining()[k]
                        == self.spec_remaining()[out@.len() + k],
                forall|k: int|
                    0 <= k < out@.len() ==> {
                        &&& (#[trigger] out@[k])@ == self.spec_remaining()[k]
                        &&& out@[k].string_table == &*self.graph.string_table
                    },
            ensures
                out@.len() == self.spec_remaining().len(),
                forall|k: int|
                    0 <= k < out@.len() ==> {
                        &&& (#[trigger] out@[k])@ == self.spec_remaining()[k]
                        &&& out@[k].string_table == &*self.graph.string_table
                    },
            decreases it.spec_remaining().len(),
        {
            let ghost before = it;
            match it.next() {
                Some(edge) => {
                    out.push(edge);
                },
                None => {
                    break;
                },
            }
        }
        out
    }
}

/// One out-edge of a node, with the table in which its name is looked up.
pub struct Edge<'a> {
    pub edge_type: u8,
    pub name_or_index: u32,
    pub target: NodeId,
    pub string_table: &'a StringTable,
}

impl<'a> View for Edge<'a> {
    type V = EdgeView;

    open spec fn view(&self) -> EdgeView {
        EdgeView {
            edge_type: self.edge_type,
            name_or_index: self.name_or_index,
            target: self.target,
        }
    }
}

impl<'a> Edge<'a> {
    /// The string that the edge's name index stands for, where there is one.
    pub open spec fn spec_name(&self) -> Option<Seq<char>> {
        if (self.name_or_index as int) < self.string_table@.len() {
            Some(self.string_table@[self.name_or_index as int])
        } else {
            None
        }
    }

    /// The string that the edge's name index stands for, where there is one.
    pub fn name(&self) -> (r: Option<&str>)
        ensures
            r is Some <==> self.spec_name() is Some,
            r is Some ==> r->0@ == self.spec_name()->0,
    {
        self.string_table.get(self.name_or_index)
    }
}

} // verus!
