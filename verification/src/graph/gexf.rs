use vstd::prelude::*;
use vstd::std_specs::iter::IteratorSpec;
use crate::graph::v8_heap_graph::{NodeType, V8HeapGraph};
use crate::types::NodeId;
use crate::utils::{
    decimal, escape_chars, escape_string, print_safe, print_safe_spec, push_decimal,
    push_str_chars, string_from_chars,
};

verus! {

/// What one character becomes inside a quoted attribute: the five characters
/// that mark-up reserves become their entities, any other stays.
pub open spec fn xml_quote_char(c: char) -> Seq<char> {
    if c == '&' {
        "&amp;"@
    } else if c == '"' {
        "&quot;"@
    } else if c == '\'' {
        "&apos;"@
    } else if c == '<' {
        "&lt;"@
    } else if c == '>' {
        "&gt;"@
    } else {
        seq![c]
    }
}

/// The characters of `s`, each as it stands inside a quoted attribute.
pub open spec fn xml_quoted(s: Seq<char>) -> Seq<char>
    decreases s.len(),
{
    if s.len() == 0 {
        Seq::empty()
    } else {
        xml_quoted(s.drop_last()) + xml_quote_char(s.last())
    }
}

/// The name of a node as a label shows it: a string node's contents between
/// quotes, escaped and cut at `max_len`; any other node's name as it is.
pub open spec fn display_name(g: &V8HeapGraph, n: int, max_len: usize) -> Seq<char> {
    let name = g.spec_string(g.spec_name_index(n) as int);
    if g.spec_node_tag(n) == 2 {
        print_safe_spec(name, max_len)
    } else {
        name
    }
}

/// The label of a node: its kind and its name.
pub open spec fn node_label(g: &V8HeapGraph, n: int) -> Seq<char> {
    g.spec_kind_name(n as NodeId) + ":"@ + xml_quoted(display_name(g, n, 30))
}

/// The label of an edge: its kind and its name or index.
pub open spec fn edge_label(g: &V8HeapGraph, e: int) -> Seq<char> {
    g.spec_edge_kind_name(e) + ":"@ + xml_quoted(escape_chars(g.spec_label_text(e)))
}

/// The element that stands for node `n`.
pub open spec fn gexf_node(g: &V8HeapGraph, n: int) -> Seq<char> {
    "        <node id=\""@ + decimal(n as nat) + "\" label=\""@ + node_label(g, n) + "\" />\n"@
}

/// The element that stands for edge `e`.
pub open spec fn gexf_edge(g: &V8HeapGraph, e: int) -> Seq<char> {
    "        <edge id=\""@ + decimal(e as nat) + "\" source=\""@ + decimal(g.spec_source(e) as nat)
        + "\" target=\""@ + decimal(g.spec_target(e) as nat) + "\" label=\""@ + edge_label(g, e)
        + " ("@ + decimal(g.spec_label(e) as nat) + ")\" />\n"@
}

/// The elements of the first `upto` nodes.
pub open spec fn gexf_nodes(g: &V8HeapGraph, upto: nat) -> Seq<char>
    decreases upto,
{
    if upto == 0 {
        Seq::empty()
    } else {
        gexf_nodes(g, (upto - 1) as nat) + gexf_node(g, upto - 1)
    }
}

/// The elements of the first `upto` edges.
pub open spec fn gexf_edges(g: &V8HeapGraph, upto: nat) -> Seq<char>
    decreases upto,
{
    if upto == 0 {
        Seq::empty()
    } else {
        gexf_edges(g, (upto - 1) as nat) + gexf_edge(g, upto - 1)
    }
}

/// The graph as a GEXF document: a static directed graph with an element
/// for each node and one for each edge, in the order of their numbers.
pub open spec fn gexf_text(g: &V8HeapGraph) -> Seq<char> {
    "<?xml version=\"1.0\" encoding=\"UTF-8\"?>\n"@
        + "<gexf xmlns=\"http://gexf.net/1.2\" version=\"1.2\">\n"@
        + "<graph mode=\"static\" defaultedgetype=\"directed\">\n"@ + "    <nodes>\n"@
        + gexf_nodes(g, g.spec_node_count() as nat) + "    </nodes>\n"@ + "    <edges>\n"@
        + gexf_edges(g, g.spec_edge_count() as nat) + "    </edges>\n"@ + "</graph>\n"@
        + "</gexf>\n"@
}

/// Appends a character as it stands inside a quoted attribute.
fn push_xml_char(out: &mut Vec<char>, c: char)
    ensures
        final(out)@ == old(out)@ + xml_quote_char(c),
{
    let ghost before = out@;
    if c == '&' {
        push_str_chars(out, "&amp;");
    } else if c == '"' {
        push_str_chars(out, "&quot;");
    } else if c == '\'' {
        push_str_chars(out, "&apos;");
    } else if c == '<' {
        push_str_chars(out, "&lt;");
    } else if c == '>' {
        push_str_chars(out, "&gt;");
    } else {
        out.push(c);
        proof {
            assert(out@ =~= before + seq![c]);
        }
    }
}

/// Appends a string as it stands inside a quoted attribute.
pub fn push_xml_quoted(out: &mut Vec<char>, x: &str)
    ensures
        final(out)@ == old(out)@ + xml_quoted(x@),
{
    let ghost before = out@;
    proof {
        vstd::string::axiom_spec_iter(x);
        assert(before + xml_quoted(x@.take(0)) =~= before);
    }
    for c in it: x.chars()
        invariant
            it.seq() == x@,
            out@ == before + xml_quoted(x@.take(it.index())),
    {
        push_xml_char(out, c);
        proof {
            let k = it.index();
            assert(x@.take(k + 1).drop_last() =~= x@.take(k));
            assert(x@.take(k + 1).last() == c);
            assert(out@ =~= before + xml_quoted(x@.take(k + 1)));
        }
    }
    proof {
        assert(x@.take(x@.len() as int) =~= x@);
    }
}

/// A string as it stands inside a quoted attribute.
pub fn xml_quote(x: &str) -> (r: String)
    ensures
        r@ == xml_quoted(x@),
{
    let mut out: Vec<char> = Vec::new();
    push_xml_quoted(&mut out, x);
    proof {
        assert(out@ =~= xml_quoted(x@));
    }
    string_from_chars(&out)
}

/// Appends the label of a node.
pub fn push_node_label(f: &mut Vec<char>, graph: &V8HeapGraph, node_id: NodeId)
    requires
        graph.wf(),
        node_id < graph.spec_node_count(),
    ensures
        final(f)@ == old(f)@ + node_label(graph, node_id as int),
{
    let ghost before = f@;
    let node = graph.node(node_id);
    push_str_chars(f, node.typ_str());
    push_str_chars(f, ":");
    match node.typ() {
        NodeType::String => {
            let name = print_safe(node.name(), 30);
            push_xml_quoted(f, name.as_str());
        },
        _ => {
            push_xml_quoted(f, node.name());
        },
    }
    proof {
        assert(f@ =~= before + node_label(graph, node_id as int));
    }
}

/// Appends the label of an edge.
pub fn push_edge_label(f: &mut Vec<char>, graph: &V8HeapGraph, edge_id: NodeId)
    requires
        graph.wf(),
        edge_id < graph.spec_edge_count(),
    ensures
        final(f)@ == old(f)@ + edge_label(graph, edge_id as int),
{
    let ghost before = f@;
    let edge = graph.edge(edge_id);
    push_str_chars(f, edge.typ_str());
    push_str_chars(f, ":");
    let text = edge.name_or_index().to_text();
    let escaped = escape_string(text.as_str());
    push_xml_quoted(f, escaped.as_str());
    proof {
        assert(f@ =~= before + edge_label(graph, edge_id as int));
    }
}

/// Appends the element that stands for a node.
fn push_gexf_node(f: &mut Vec<char>, graph: &V8HeapGraph, node_id: NodeId)
    requires
        graph.wf(),
        node_id < graph.spec_node_count(),
    ensures
        final(f)@ == old(f)@ + gexf_node(graph, node_id as int),
{
    let ghost before = f@;
    push_str_chars(f, "        <node id=\"");
    push_decimal(f, node_id as u64);
    push_str_chars(f, "\" label=\"");
    push_node_label(f, graph, node_id);
    push_str_chars(f, "\" />\n");
    proof {
        assert(f@ =~= before + gexf_node(graph, node_id as int));
    }
}

/// Appends the element that stands for an edge.
fn push_gexf_edge(f: &mut Vec<char>, graph: &V8HeapGraph, edge_id: NodeId)
    requires
        graph.wf(),
        edge_id < graph.spec_edge_count(),
    ensures
        final(f)@ == old(f)@ + gexf_edge(graph, edge_id as int),
{
    let ghost before = f@;
    let edge = graph.edge(edge_id);
    push_str_chars(f, "        <edge id=\"");
    push_decimal(f, edge_id as u64);
    push_str_chars(f, "\" source=\"");
    push_decimal(f, edge.from_node() as u64);
    push_str_chars(f, "\" target=\"");
    push_decimal(f, edge.to_node() as u64);
    push_str_chars(f, "\" label=\"");
    push_edge_label(f, graph, edge_id);
    push_str_chars(f, " (");
    push_decimal(f, edge.index() as u64);
    push_str_chars(f, ")\" />\n");
    proof {
        assert(f@ =~= before + gexf_edge(graph, edge_id as int));
    }
}

/// Appends the graph as a GEXF document.
pub fn write_gexf(f: &mut Vec<char>, graph: &V8HeapGraph)
    requires
        graph.wf(),
    ensures
        final(f)@ == old(f)@ + gexf_text(graph),
{
    let ghost before = f@;
    push_str_chars(f, "<?xml version=\"1.0\" encoding=\"UTF-8\"?>\n");
    push_str_chars(f, "<gexf xmlns=\"http://gexf.net/1.2\" version=\"1.2\">\n");
    push_str_chars(f, "<graph mode=\"static\" defaultedgetype=\"directed\">\n");
    push_str_chars(f, "    <nodes>\n");
    let ghost head = f@;
    let node_count = graph.node_count();
    let mut node_id: usize = 0;
    proof {
        assert(head + gexf_nodes(graph, 0) =~= head);
    }
    while node_id < node_count
        invariant
            graph.wf(),
            node_count == graph.spec_node_count(),
            node_id <= node_count,
            f@ == head + gexf_nodes(graph, node_id as nat),
        decreases node_count - node_id,
    {
        push_gexf_node(f, graph, node_id as NodeId);
        proof {
            assert(f@ =~= head + gexf_nodes(graph, (node_id + 1) as nat));
        }
        node_id = node_id + 1;
    }
    push_str_chars(f, "    </nodes>\n");
    push_str_chars(f, "    <edges>\n");
    let ghost middle = f@;
    let edge_count = graph.edge_count();
    let mut edge_id: usize = 0;
    proof {
        assert(middle + gexf_edges(graph, 0) =~= middle);
    }
    while edge_id < edge_count
        invariant
            graph.wf(),
            edge_count == graph.spec_edge_count(),
            edge_id <= edge_count,
            f@ == middle + gexf_edges(graph, edge_id as nat),
        decreases edge_count - edge_id,
    {
        push_gexf_edge(f, graph, edge_id as NodeId);
        proof {
            assert(f@ =~= middle + gexf_edges(graph, (edge_id + 1) as nat));
        }
        edge_id = edge_id + 1;
    }
    push_str_chars(f, "    </edges>\n");
    push_str_chars(f, "</graph>\n");
    push_str_chars(f, "</gexf>\n");
    proof {
        assert(f@ =~= before + gexf_text(graph));
    }
}

} // verus!
