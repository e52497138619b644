use vstd::prelude::*;
use crate::graph::gexf::{edge_label, node_label, push_edge_label, push_node_label};
use crate::graph::v8_heap_graph::V8HeapGraph;
use crate::types::NodeId;
use crate::utils::{decimal, push_decimal, push_str_chars};

verus! {

/// The block that stands for node `n`.
pub open spec fn gml_node(g: &V8HeapGraph, n: int) -> Seq<char> {
    "  node [\n    id "@ + decimal(n as nat) + "\n    label \""@ + node_label(g, n) + "\"\n  ]\n"@
}

/// The block that stands for edge `e`.
pub open spec fn gml_edge(g: &V8HeapGraph, e: int) -> Seq<char> {
    "  edge [\n    source "@ + decimal(g.spec_source(e) as nat) + "\n    target "@ + decimal(
        g.spec_target(e) as nat,
    ) + "\n    label \""@ + edge_label(g, e) + "\"\n  ]\n"@
}

/// The blocks of the first `upto` nodes.
pub open spec fn gml_nodes(g: &V8HeapGraph, upto: nat) -> Seq<char>
    decreases upto,
{
    if upto == 0 {
        Seq::empty()
    } else {
        gml_nodes(g, (upto - 1) as nat) + gml_node(g, upto - 1)
    }
}

/// The blocks of the first `upto` edges.
pub open spec fn gml_edges(g: &V8HeapGraph, upto: nat) -> Seq<char>
    decreases upto,
{
    if upto == 0 {
        Seq::empty()
    } else {
        gml_edges(g, (upto - 1) as nat) + gml_edge(g, upto - 1)
    }
}

/// The graph as a GML document: a block for each node, then one for each
/// edge, in the order of their numbers.
pub open spec fn gml_text(g: &V8HeapGraph) -> Seq<char> {
    "graph [\n"@ + gml_nodes(g, g.spec_node_count() as nat) + gml_edges(
        g,
        g.spec_edge_count() as nat,
    ) + "]\n"@
}

/// Appends the block that stands for a node.
fn push_gml_node(f: &mut Vec<char>, graph: &V8HeapGraph, node_id: NodeId)
    requires
        graph.wf(),
        node_id < graph.spec_node_count(),
    ensures
        final(f)@ == old(f)@ + gml_node(graph, node_id as int),
{
    let ghost before = f@;
    push_str_chars(f, "  node [\n    id ");
    push_decimal(f, node_id as u64);
    push_str_chars(f, "\n    label \"");
    push_node_label(f, graph, node_id);
    push_str_chars(f, "\"\n  ]\n");
    proof {
        assert(f@ =~= before + gml_node(graph, node_id as int));
    }
}

/// Appends the block that stands for an edge.
fn push_gml_edge(f: &mut Vec<char>, graph: &V8HeapGraph, edge_id: NodeId)
    requires
        graph.wf(),
        edge_id < graph.spec_edge_count(),
    ensures
        final(f)@ == old(f)@ + gml_edge(graph, edge_id as int),
{
    let ghost before = f@;
    let edge = graph.edge(edge_id);
    push_str_chars(f, "  edge [\n    source ");
    push_decimal(f, edge.from_node() as u64);
    push_str_chars(f, "\n    target ");
    push_decimal(f, edge.to_node() as u64);
    push_str_chars(f, "\n    label \"");
    push_edge_label(f, graph, edge_id);
    push_str_chars(f, "\"\n  ]\n");
    proof {
        assert(f@ =~= before + gml_edge(graph, edge_id as int));
    }
}

/// Appends the graph as a GML document.
pub fn write_gml(f: &mut Vec<char>, graph: &V8HeapGraph)
    requires
        graph.wf(),
    ensures
        final(f)@ == old(f)@ + gml_text(graph),
{
    let ghost before = f@;
    push_str_chars(f, "graph [\n");
    let ghost head = f@;
    let node_count = graph.node_count();
    let mut node_id: usize = 0;
    proof {
        assert(head + gml_nodes(graph, 0) =~= head);
    }
    while node_id < node_count
        invariant
            graph.wf(),
            node_count == graph.spec_node_count(),
            node_id <= node_count,
            f@ == head + gml_nodes(graph, node_id as nat),
        decreases node_count - node_id,
    {
        push_gml_node(f, graph, node_id as NodeId);
        proof {
            assert(f@ =~= head + gml_nodes(graph, (node_id + 1) as nat));
        }
        node_id = node_id + 1;
    }
    let ghost middle = f@;
    let edge_count = graph.edge_count();
    let mut edge_id: usize = 0;
    proof {
        assert(middle + gml_edges(graph, 0) =~= middle);
    }
    while edge_id < edge_count
        invariant
            graph.wf(),
            edge_count == graph.spec_edge_count(),
            edge_id <= edge_count,
            f@ == middle + gml_edges(graph, edge_id as nat),
        decreases edge_count - edge_id,
    {
        push_gml_edge(f, graph, edge_id as NodeId);
        proof {
            assert(f@ =~= middle + gml_edges(graph, (edge_id + 1) as nat));
        }
        edge_id = edge_id + 1;
    }
    push_str_chars(f, "]\n");
    proof {
        assert(f@ =~= before + gml_text(graph));
    }
}

} // verus!
