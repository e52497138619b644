use vstd::prelude::*;
use crate::analysis::all_paths::RootPaths;
use crate::analysis::dominator_tree::DominatorTree;
use crate::report::explorer::{
    blanks, build_ui_tree, mirrors, push_blanks, shows_child, UiTreeId, UiTreeNode,
};
use crate::graph::v8_heap_graph::{Edge, EdgeType, Node, NodeType, V8HeapGraph};
use crate::types::NodeId;
use crate::utils::{
    decimal, format_bytes, format_bytes_spec, joined, lemma_joined_push, print_safe,
    print_safe_spec, push_decimal, push_str_chars, string_from_chars,
};

pub mod explorer;
pub mod generator;
pub mod groups;
pub mod rows;

verus! {

/// How deep one node is shown through another before the rest is left out.
pub const REPR_DEPTH: usize = 64;

/// The edge at place `k` among the edges of node `n`.
pub open spec fn edge_of(g: &V8HeapGraph, n: NodeId, k: int) -> int {
    g.spec_first_edge(n as int) + k
}

/// The short texts of the targets of the first `upto` edges of `n` that are
/// elements.
pub open spec fn element_parts(g: &V8HeapGraph, n: NodeId, upto: nat, depth: nat) -> Seq<Seq<char>>
    decreases depth, upto + 1,
{
    if upto == 0 {
        Seq::empty()
    } else {
        let e = edge_of(g, n, upto - 1);
        let rest = element_parts(g, n, (upto - 1) as nat, depth);
        if g.spec_edge_tag(e) == 1 {
            rest.push(minimal_repr(g, g.spec_target(e), depth))
        } else {
            rest
        }
    }
}

/// The names of the first `upto` edges of `n` that are properties.
pub open spec fn property_parts(g: &V8HeapGraph, n: NodeId, upto: nat) -> Seq<Seq<char>>
    decreases upto,
{
    if upto == 0 {
        Seq::empty()
    } else {
        let e = edge_of(g, n, upto - 1);
        let rest = property_parts(g, n, (upto - 1) as nat);
        if g.spec_edge_tag(e) == 2 {
            rest.push(g.spec_label_text(e))
        } else {
            rest
        }
    }
}

/// A node in a few words: a string as its contents, a string made of parts
/// as its parts, a function by its name, an object with its elements or the
/// names of its properties, and any other node as its kind and name. What
/// lies deeper than `depth` nodes is left out.
pub open spec fn minimal_repr(g: &V8HeapGraph, n: NodeId, depth: nat) -> Seq<char>
    decreases depth, 0nat,
{
    let name = g.spec_node_name(n);
    let tag = g.spec_node_tag(n as int);
    let degree = g.spec_out_degree(n as int) as nat;
    if depth == 0 {
        "..."@
    } else if tag == 2 {
        print_safe_spec(name, 30)
    } else if tag == 9 {
        name
    } else if tag == 10 {
        match (
            g.spec_find_edge(n, EdgeType::Internal, "first"@),
            g.spec_find_edge(n, EdgeType::Internal, "second"@),
        ) {
            (Some(first), Some(second)) => minimal_repr(g, first, (depth - 1) as nat) + " + "@
                + minimal_repr(g, second, (depth - 1) as nat),
            _ => "<string of lost parts>"@,
        }
    } else if tag == 11 {
        match g.spec_find_edge(n, EdgeType::Internal, "parent"@) {
            Some(parent) => "<slice of "@ + minimal_repr(g, parent, (depth - 1) as nat) + ">"@,
            None => "<slice of a lost string>"@,
        }
    } else if tag == 7 {
        "<a number>"@
    } else if tag == 13 {
        "<a bigint>"@
    } else if tag == 5 {
        "function "@ + name + "()"@
    } else if tag == 12 {
        match g.spec_find_edge(n, EdgeType::Internal, "name"@) {
            Some(x) => "symbol "@ + minimal_repr(g, x, (depth - 1) as nat),
            None => "unnamed symbol"@,
        }
    } else if tag == 3 {
        if g.spec_find_edge(n, EdgeType::Internal, "elements"@) is Some {
            name + " [ "@ + joined(element_parts(g, n, degree, (depth - 1) as nat)) + " ]"@
        } else {
            name + " { "@ + joined(property_parts(g, n, degree)) + " }"@
        }
    } else {
        g.spec_kind_name(n) + ":"@ + name
    }
}

/// The lines for the first `upto` edges of `n`: for each its kind, its
/// label, its target, and the target in a few words.
pub open spec fn edges_text(g: &V8HeapGraph, n: NodeId, upto: nat) -> Seq<char>
    decreases upto,
{
    if upto == 0 {
        Seq::empty()
    } else {
        let e = edge_of(g, n, upto - 1);
        edges_text(g, n, (upto - 1) as nat) + "  -["@ + g.spec_edge_kind_name(e) + ":"@
            + g.spec_label_text(e) + "]-> "@ + decimal(g.spec_target(e) as nat) + "  "@
            + minimal_repr(g, g.spec_target(e), REPR_DEPTH as nat) + "\n"@
    }
}

/// The edges of `n` on one line: for each its kind, its label and its target.
pub open spec fn edge_words(g: &V8HeapGraph, n: NodeId, upto: nat) -> Seq<Seq<char>>
    decreases upto,
{
    if upto == 0 {
        Seq::empty()
    } else {
        let e = edge_of(g, n, upto - 1);
        edge_words(g, n, (upto - 1) as nat).push(
            g.spec_edge_kind_name(e) + " "@ + g.spec_label_text(e) + " "@ + decimal(
                g.spec_target(e) as nat,
            ),
        )
    }
}

/// The lines for the targets of the first `upto` edges of `n` that are
/// elements.
pub open spec fn element_lines(g: &V8HeapGraph, n: NodeId, upto: nat) -> Seq<char>
    decreases upto,
{
    if upto == 0 {
        Seq::empty()
    } else {
        let e = edge_of(g, n, upto - 1);
        element_lines(g, n, (upto - 1) as nat) + if g.spec_edge_tag(e) == 1 {
            " - "@ + minimal_repr(g, g.spec_target(e), REPR_DEPTH as nat) + "\n"@
        } else {
            Seq::empty()
        }
    }
}

/// The lines for the first `upto` edges of `n` that are properties: the name
/// and the target in a few words.
pub open spec fn property_lines(g: &V8HeapGraph, n: NodeId, upto: nat) -> Seq<char>
    decreases upto,
{
    if upto == 0 {
        Seq::empty()
    } else {
        let e = edge_of(g, n, upto - 1);
        property_lines(g, n, (upto - 1) as nat) + if g.spec_edge_tag(e) == 2 {
            "  "@ + g.spec_label_text(e) + ": "@ + minimal_repr(
                g,
                g.spec_target(e),
                REPR_DEPTH as nat,
            ) + "\n"@
        } else {
            Seq::empty()
        }
    }
}

/// How many of the first `upto` edges of `n` are elements.
pub open spec fn element_count(g: &V8HeapGraph, n: NodeId, upto: nat) -> nat
    decreases upto,
{
    if upto == 0 {
        0
    } else {
        element_count(g, n, (upto - 1) as nat) + if g.spec_edge_tag(edge_of(g, n, upto - 1)) == 1 {
            1nat
        } else {
            0nat
        }
    }
}

/// A node at length: a string as its contents, a root or a function with its
/// edges, an object with its elements or its properties, and any other node
/// as in a few words.
pub open spec fn detailed_repr(g: &V8HeapGraph, n: NodeId) -> Seq<char> {
    let name = g.spec_node_name(n);
    let tag = g.spec_node_tag(n as int);
    let degree = g.spec_out_degree(n as int) as nat;
    if tag == 2 {
        print_safe_spec(name, 50)
    } else if tag == 9 {
        name + "\n\n"@ + edges_text(g, n, degree)
    } else if tag == 5 {
        "function "@ + name + "()\n\n"@ + edges_text(g, n, degree)
    } else if tag == 3 {
        if g.spec_find_edge(n, EdgeType::Internal, "elements"@) is Some {
            name + " ("@ + decimal(element_count(g, n, degree)) + " elements)\n\n"@ + element_lines(
                g,
                n,
                degree,
            )
        } else {
            name + "\n\n"@ + property_lines(g, n, degree)
        }
    } else {
        minimal_repr(g, n, REPR_DEPTH as nat)
    }
}

/// An edge as a step of a path: a property behind a point, an element
/// between brackets, and any other edge with its kind.
pub open spec fn step_text(g: &V8HeapGraph, e: int) -> Seq<char> {
    let tag = g.spec_edge_tag(e);
    let label = g.spec_label_text(e);
    if tag == 2 {
        "."@ + label
    } else if tag == 1 {
        "["@ + decimal(g.spec_label(e) as nat) + "]"@
    } else {
        "("@ + g.spec_edge_kind_name(e) + "/"@ + label + ")"@
    }
}

/// The steps of the first `upto` edges of a path.
pub open spec fn path_steps(g: &V8HeapGraph, path: Seq<NodeId>, upto: nat) -> Seq<char>
    decreases upto,
{
    if upto == 0 {
        Seq::empty()
    } else {
        path_steps(g, path, (upto - 1) as nat) + step_text(g, path[upto - 1] as int)
    }
}

/// Appends a node in a few words.
fn push_node_repr(out: &mut Vec<char>, node: NodeId, graph: &V8HeapGraph, depth: usize)
    requires
        graph.wf(),
        node < graph.spec_node_count(),
    ensures
        final(out)@ == old(out)@ + minimal_repr(graph, node, depth as nat),
    decreases depth,
{
    let ghost before = out@;
    if depth == 0 {
        push_str_chars(out, "...");
        return ;
    }
    let n = graph.node(node);
    match n.typ() {
        NodeType::String => {
            let text = print_safe(n.name(), 30);
            push_str_chars(out, text.as_str());
        },
        NodeType::Synthetic => {
            push_str_chars(out, n.name());
        },
        NodeType::ConcatString => {
            let first = graph.find_edge(node, EdgeType::Internal, "first");
            let second = graph.find_edge(node, EdgeType::Internal, "second");
            match (first, second) {
                (Some(first), Some(second)) => {
                    push_node_repr(out, first, graph, depth - 1);
                    push_str_chars(out, " + ");
                    push_node_repr(out, second, graph, depth - 1);
                    proof {
                        assert(out@ =~= before + minimal_repr(graph, node, depth as nat));
                    }
                },
                _ => {
                    push_str_chars(out, "<string of lost parts>");
                },
            }
        },
        NodeType::SlicedString => {
            match graph.find_edge(node, EdgeType::Internal, "parent") {
                Some(parent) => {
                    push_str_chars(out, "<slice of ");
                    push_node_repr(out, parent, graph, depth - 1);
                    push_str_chars(out, ">");
                    proof {
                        assert(out@ =~= before + minimal_repr(graph, node, depth as nat));
                    }
                },
                None => {
                    push_str_chars(out, "<slice of a lost string>");
                },
            }
        },
        NodeType::Number => {
            push_str_chars(out, "<a number>");
        },
        NodeType::BigInt => {
            push_str_chars(out, "<a bigint>");
        },
        NodeType::Closure => {
            push_str_chars(out, "function ");
            push_str_chars(out, n.name());
            push_str_chars(out, "()");
            proof {
                assert(out@ =~= before + minimal_repr(graph, node, depth as nat));
            }
        },
        NodeType::Symbol => {
            match graph.find_edge(node, EdgeType::Internal, "name") {
                Some(name) => {
                    push_str_chars(out, "symbol ");
                    push_node_repr(out, name, graph, depth - 1);
                    proof {
                        assert(out@ =~= before + minimal_repr(graph, node, depth as nat));
                    }
                },
                None => {
                    push_str_chars(out, "unnamed symbol");
                },
            }
        },
        NodeType::Object => {
            proof {
                graph.lemma_edge_range(node as int);
            }
            let start = graph.node_out_edges[node as usize];
            let end = graph.node_out_edges[node as usize + 1];
            let as_array = graph.find_edge(node, EdgeType::Internal, "elements").is_some();
            push_str_chars(out, n.name());
            if as_array {
                // It's an array or array-like, format like an array
                push_str_chars(out, " [ ");
            } else {
                // Format as a regular object
                push_str_chars(out, " { ");
            }
            let ghost head = out@;
            let mut parts: usize = 0;
            let mut e = start;
            while e < end
                invariant
                    graph.wf(),
                    node < graph.spec_node_count(),
                    depth > 0,
                    start == graph.spec_first_edge(node as int),
                    end == graph.spec_first_edge(node + 1),
                    end <= graph.spec_edge_count(),
                    start <= e <= end,
                    parts <= e - start,
                    as_array ==> parts == element_parts(
                        graph,
                        node,
                        (e - start) as nat,
                        (depth - 1) as nat,
                    ).len() && out@ == head + joined(
                        element_parts(graph, node, (e - start) as nat, (depth - 1) as nat),
                    ),
                    !as_array ==> parts == property_parts(graph, node, (e - start) as nat).len()
                        && out@ == head + joined(property_parts(graph, node, (e - start) as nat)),
                decreases end - e,
            {
                let edge = graph.edge(e);
                let ghost at = out@;
                let ghost k = (e - start) as nat;
                proof {
                    assert(edge_of(graph, node, k as int) == e);
                    assert(graph.owns_edge(node as int, e as int));
                }
                if as_array {
                    if edge.typ() == EdgeType::Element {
                        if parts > 0 {
                            out.push(',');
                            out.push(' ');
                        }
                        let ghost mid = out@;
                        push_node_repr(out, edge.to_node(), graph, depth - 1);
                        parts = parts + 1;
                        proof {
                            let so_far = element_parts(graph, node, k, (depth - 1) as nat);
                            let part = minimal_repr(
                                graph,
                                graph.spec_target(e as int),
                                (depth - 1) as nat,
                            );
                            lemma_joined_push(so_far, part);
                            assert(element_parts(graph, node, k + 1, (depth - 1) as nat)
                                == so_far.push(part));
                            if so_far.len() == 0 {
                                assert(out@ =~= head + part);
                            } else {
                                assert(out@ =~= head + (joined(so_far) + seq![',', ' '] + part));
                            }
                        }
                    } else {
                        proof {
                            assert(element_parts(graph, node, k + 1, (depth - 1) as nat)
                                == element_parts(graph, node, k, (depth - 1) as nat));
                        }
                    }
                } else {
                    if edge.typ() == EdgeType::Property {
                        if parts > 0 {
                            out.push(',');
                            out.push(' ');
                        }
                        edge.name_or_index().push_text(out);
                        parts = parts + 1;
                        proof {
                            let so_far = property_parts(graph, node, k);
                            let part = graph.spec_label_text(e as int);
                            lemma_joined_push(so_far, part);
                            assert(property_parts(graph, node, k + 1) == so_far.push(part));
                            if so_far.len() == 0 {
                                assert(out@ =~= head + part);
                            } else {
                                assert(out@ =~= head + (joined(so_far) + seq![',', ' '] + part));
                            }
                        }
                    } else {
                        proof {
                            assert(property_parts(graph, node, k + 1) == property_parts(
                                graph,
                                node,
                                k,
                            ));
                        }
                    }
                }
                e = e + 1;
            }
            if as_array {
                push_str_chars(out, " ]");
            } else {
                push_str_chars(out, " }");
            }
            proof {
                assert(out@ =~= before + minimal_repr(graph, node, depth as nat));
            }
        },
        _ => {
            push_str_chars(out, n.typ_str());
            push_str_chars(out, ":");
            push_str_chars(out, n.name());
            proof {
                assert(out@ =~= before + minimal_repr(graph, node, depth as nat));
            }
        },
    }
}

/// A node in a few words.
pub fn minimal_node_repr(node: NodeId, graph: &V8HeapGraph) -> (r: String)
    requires
        graph.wf(),
        node < graph.spec_node_count(),
    ensures
        r@ == minimal_repr(graph, node, REPR_DEPTH as nat),
{
    let mut out: Vec<char> = Vec::new();
    push_node_repr(&mut out, node, graph, REPR_DEPTH);
    proof {
        assert(out@ =~= minimal_repr(graph, node, REPR_DEPTH as nat));
    }
    string_from_chars(&out)
}

/// Appends a line for each edge of a node: its kind, its label, its target,
/// and the target in a few words.
pub fn print_edges(f: &mut Vec<char>, node: NodeId, graph: &V8HeapGraph)
    requires
        graph.wf(),
        node < graph.spec_node_count(),
    ensures
        final(f)@ == old(f)@ + edges_text(graph, node, graph.spec_out_degree(node as int) as nat),
{
    proof {
        graph.lemma_edge_range(node as int);
    }
    let ghost before = f@;
    let start = graph.node_out_edges[node as usize];
    let end = graph.node_out_edges[node as usize + 1];
    let mut e = start;
    proof {
        assert(before + edges_text(graph, node, 0) =~= before);
    }
    while e < end
        invariant
            graph.wf(),
            node < graph.spec_node_count(),
            start == graph.spec_first_edge(node as int),
            end == graph.spec_first_edge(node + 1),
            end <= graph.spec_edge_count(),
            start <= e <= end,
            f@ == before + edges_text(graph, node, (e - start) as nat),
        decreases end - e,
    {
        let edge = graph.edge(e);
        let ghost at = f@;
        proof {
            assert(edge_of(graph, node, e - start) == e);
        }
        push_str_chars(f, "  -[");
        push_str_chars(f, edge.typ_str());
        push_str_chars(f, ":");
        edge.name_or_index().push_text(f);
        push_str_chars(f, "]-> ");
        push_decimal(f, edge.to_node() as u64);
        push_str_chars(f, "  ");
        push_node_repr(f, edge.to_node(), graph, REPR_DEPTH);
        push_str_chars(f, "\n");
        proof {
            assert(f@ =~= before + edges_text(graph, node, (e - start + 1) as nat));
        }
        e = e + 1;
    }
}

/// The edges of a node on one line: for each its kind, its label and its
/// target.
pub fn show_node(node: Node<'_>) -> (r: String)
    requires
        node.wf(),
    ensures
        r@ == joined(
            edge_words(node.graph, node.id, node.graph.spec_out_degree(node.id as int) as nat),
        ),
{
    let graph = node.graph;
    proof {
        graph.lemma_edge_range(node.id as int);
    }
    let mut out: Vec<char> = Vec::new();
    let start = graph.node_out_edges[node.id as usize];
    let end = graph.node_out_edges[node.id as usize + 1];
    let mut e = start;
    while e < end
        invariant
            graph.wf(),
            node.id < graph.spec_node_count(),
            start == graph.spec_first_edge(node.id as int),
            end == graph.spec_first_edge(node.id + 1),
            end <= graph.spec_edge_count(),
            start <= e <= end,
            out@ == joined(edge_words(graph, node.id, (e - start) as nat)),
        decreases end - e,
    {
        let edge = graph.edge(e);
        let ghost at = out@;
        let ghost so_far = edge_words(graph, node.id, (e - start) as nat);
        proof {
            assert(edge_of(graph, node.id, e - start) == e);
            assert(so_far.len() == e - start) by {
                lemma_edge_words_len(graph, node.id, (e - start) as nat);
            }
        }
        if e > start {
            out.push(',');
            out.push(' ');
        }
        push_str_chars(&mut out, edge.typ_str());
        push_str_chars(&mut out, " ");
        edge.name_or_index().push_text(&mut out);
        push_str_chars(&mut out, " ");
        push_decimal(&mut out, edge.to_node() as u64);
        proof {
            let part = graph.spec_edge_kind_name(e as int) + " "@ + graph.spec_label_text(e as int)
                + " "@ + decimal(graph.spec_target(e as int) as nat);
            lemma_joined_push(so_far, part);
            assert(edge_words(graph, node.id, (e - start + 1) as nat) == so_far.push(part));
            if so_far.len() == 0 {
                assert(out@ =~= part);
            } else {
                assert(out@ =~= joined(so_far) + seq![',', ' '] + part);
            }
        }
        e = e + 1;
    }
    string_from_chars(&out)
}

/// There is a word for each edge.
pub proof fn lemma_edge_words_len(g: &V8HeapGraph, n: NodeId, upto: nat)
    ensures
        edge_words(g, n, upto).len() == upto,
    decreases upto,
{
    if upto > 0 {
        lemma_edge_words_len(g, n, (upto - 1) as nat);
    }
}

/// A node at length.
pub fn detailed_node_repr(node: NodeId, graph: &V8HeapGraph) -> (r: String)
    requires
        graph.wf(),
        node < graph.spec_node_count(),
    ensures
        r@ == detailed_repr(graph, node),
{
    let n = graph.node(node);
    let mut ret: Vec<char> = Vec::new();
    match n.typ() {
        NodeType::String => {
            return print_safe(n.name(), 50);
        },
        NodeType::Synthetic => {
            push_str_chars(&mut ret, n.name());
            push_str_chars(&mut ret, "\n\n");
            print_edges(&mut ret, node, graph);
            proof {
                assert(ret@ =~= detailed_repr(graph, node));
            }
        },
        NodeType::Closure => {
            push_str_chars(&mut ret, "function ");
            push_str_chars(&mut ret, n.name());
            push_str_chars(&mut ret, "()\n\n");
            print_edges(&mut ret, node, graph);
            proof {
                assert(ret@ =~= detailed_repr(graph, node));
            }
        },
        NodeType::Object => {
            proof {
                graph.lemma_edge_range(node as int);
            }
            let start = graph.node_out_edges[node as usize];
            let end = graph.node_out_edges[node as usize + 1];
            let as_array = graph.find_edge(node, EdgeType::Internal, "elements").is_some();
            let mut lines: Vec<char> = Vec::new();
            let mut count: u32 = 0;
            let mut e = start;
            while e < end
                invariant
                    graph.wf(),
                    node < graph.spec_node_count(),
                    start == graph.spec_first_edge(node as int),
                    end == graph.spec_first_edge(node + 1),
                    end <= graph.spec_edge_count(),
                    start <= e <= end,
                    count <= e - start,
                    count == element_count(graph, node, (e - start) as nat),
                    as_array ==> lines@ == element_lines(graph, node, (e - start) as nat),
                    !as_array ==> lines@ == property_lines(graph, node, (e - start) as nat),
                decreases end - e,
            {
                let edge = graph.edge(e);
                let ghost at = lines@;
                proof {
                    assert(edge_of(graph, node, e - start) == e);
                }
                let kind = edge.typ();
                if kind == EdgeType::Element {
                    count = count + 1;
                }
                if as_array {
                    if kind == EdgeType::Element {
                        push_str_chars(&mut lines, " - ");
                        push_node_repr(&mut lines, edge.to_node(), graph, REPR_DEPTH);
                        push_str_chars(&mut lines, "\n");
                    }
                    proof {
                        assert(lines@ =~= element_lines(graph, node, (e - start + 1) as nat));
                    }
                } else {
                    if kind == EdgeType::Property {
                        push_str_chars(&mut lines, "  ");
                        edge.name_or_index().push_text(&mut lines);
                        push_str_chars(&mut lines, ": ");
                        push_node_repr(&mut lines, edge.to_node(), graph, REPR_DEPTH);
                        push_str_chars(&mut lines, "\n");
                    }
                    proof {
                        assert(lines@ =~= property_lines(graph, node, (e - start + 1) as nat));
                    }
                }
                e = e + 1;
            }
            push_str_chars(&mut ret, n.name());
            if as_array {
                push_str_chars(&mut ret, " (");
                push_decimal(&mut ret, count as u64);
                push_str_chars(&mut ret, " elements)\n\n");
            } else {
                push_str_chars(&mut ret, "\n\n");
            }
            let ghost body = lines@;
            ret.append(&mut lines);
            proof {
                assert(ret@ =~= detailed_repr(graph, node));
            }
        },
        _ => {
            return minimal_node_repr(node, graph);
        },
    }
    string_from_chars(&ret)
}

/// Appends an edge as a step of a path.
pub fn fmt_edge(f: &mut Vec<char>, edge: &Edge<'_>)
    requires
        edge.wf(),
    ensures
        final(f)@ == old(f)@ + step_text(edge.graph, edge.id as int),
{
    let ghost before = f@;
    match edge.typ() {
        EdgeType::Property => {
            push_str_chars(f, ".");
            edge.name_or_index().push_text(f);
        },
        EdgeType::Element => {
            push_str_chars(f, "[");
            push_decimal(f, edge.index() as u64);
            push_str_chars(f, "]");
        },
        _ => {
            push_str_chars(f, "(");
            push_str_chars(f, edge.typ_str());
            push_str_chars(f, "/");
            edge.name_or_index().push_text(f);
            push_str_chars(f, ")");
        },
    }
    proof {
        assert(f@ =~= before + step_text(edge.graph, edge.id as int));
    }
}

/// Appends the way from the root to a node, a step for each edge and a line
/// for the way; nothing for a node that cannot be reached or that the graph
/// does not have.
pub fn format_retention_paths(f: &mut Vec<char>, node: NodeId, paths: &RootPaths, graph: &V8HeapGraph)
    requires
        paths.wf(graph),
    ensures
        final(f)@ == old(f)@ + if (node as int) < graph.spec_node_count() && paths.reached(node) {
            path_steps(
                graph,
                paths.spec_path(graph, node),
                paths.spec_path(graph, node).len(),
            ) + "\n"@
        } else {
            Seq::empty()
        },
{
    let ghost before = f@;
    proof {
        paths.lemma_graph_wf(graph);
    }
    match paths.paths_to(node, graph, 1) {
        Ok(found) => {
            if found.paths.len() > 0 {
                let path = &found.paths[0];
                let ghost ids = path.0@;
                let edges = path.edges(graph);
                let mut i: usize = 0;
                proof {
                    assert(before + path_steps(graph, ids, 0) =~= before);
                }
                while i < edges.len()
                    invariant
                        i <= edges@.len(),
                        edges@.len() == ids.len(),
                        forall|k: int|
                            0 <= k < edges@.len() ==> (#[trigger] edges@[k]).wf() && edges@[k].graph
                                == graph && edges@[k].id == ids[k],
                        f@ == before + path_steps(graph, ids, i as nat),
                    decreases edges@.len() - i,
                {
                    fmt_edge(f, &edges[i]);
                    proof {
                        assert(f@ =~= before + path_steps(graph, ids, (i + 1) as nat));
                    }
                    i = i + 1;
                }
                push_str_chars(f, "\n");
                proof {
                    assert(f@ =~= before + (path_steps(graph, ids, ids.len()) + "\n"@));
                }
            } else {
                proof {
                    assert(f@ =~= before + Seq::<char>::empty());
                }
            }
        },
        Err(_) => {
            proof {
                assert(f@ =~= before + Seq::<char>::empty());
            }
        },
    }
}

/// Whether a node of this kind is left out where the dominator tree is
/// shown.
pub fn is_passed_over(kind: NodeType) -> (r: bool)
    ensures
        r == (kind == NodeType::Hidden || kind == NodeType::ObjectShape || kind
            == NodeType::ConcatString || kind == NodeType::SlicedString || kind == NodeType::Code
            || kind == NodeType::Array),
{
    match kind {
        NodeType::Hidden
        | NodeType::ObjectShape
        | NodeType::ConcatString
        | NodeType::SlicedString
        | NodeType::Code
        | NodeType::Array => true,
        _ => false,
    }
}

/// How many children of a node the printed tree shows.
pub const SHOWN_CHILDREN: usize = 20;

/// The identity that the runtime gave the heap node that `ui` shows.
pub open spec fn stable_id_of(ui: UiTreeNode, g: &V8HeapGraph) -> nat {
    match ui.id {
        UiTreeId::Heap(n) => g.spec_field(n as int, 2) as nat,
        UiTreeId::Group(_) => 0,
    }
}

/// The line of a node in the printed tree: four blanks for each level, the
/// identity of the node, the node in a few words, and what it retains.
pub open spec fn tree_line(ui: UiTreeNode, g: &V8HeapGraph, depth: nat) -> Seq<char> {
    blanks(4 * depth as int) + "["@ + decimal(stable_id_of(ui, g)) + "]  "@ + ui.label@ + "  ("@
        + format_bytes_spec(ui.retained_size as int) + ")\n"@
}

/// The printed tree below and with a node: its line, and the printed trees
/// of the first of its children.
pub open spec fn tree_lines(ui: UiTreeNode, g: &V8HeapGraph, depth: nat) -> Seq<char>
    decreases ui, 0nat,
{
    tree_line(ui, g, depth) + child_lines(
        ui.children@,
        g,
        depth + 1,
        if ui.children@.len() < SHOWN_CHILDREN {
            ui.children@.len()
        } else {
            SHOWN_CHILDREN as nat
        },
    )
}

/// The printed trees of the first `upto` of the children of a node.
pub open spec fn child_lines(children: Seq<UiTreeNode>, g: &V8HeapGraph, depth: nat, upto: nat) -> Seq<
    char,
>
    decreases children, upto,
{
    if upto == 0 || upto > children.len() {
        Seq::empty()
    } else {
        child_lines(children, g, depth, (upto - 1) as nat) + tree_lines(children[upto - 1], g, depth)
    }
}

/// Whether `ui` shows the dominator tree from the first node on.
pub open spec fn shows_tree(ui: UiTreeNode, tree: &DominatorTree, g: &V8HeapGraph) -> bool {
    mirrors(ui, tree, g, 0, tree.spec_len() as nat)
}

/// Appends the printed tree below and with a node.
#[verifier::rlimit(60)]
fn push_tree_lines(
    out: &mut Vec<char>,
    ui: &UiTreeNode,
    node_id: NodeId,
    tree: &DominatorTree,
    graph: &V8HeapGraph,
    depth: usize,
    fuel: usize,
)
    requires
        graph.wf(),
        tree.is_tree_of(graph.spec_self_sizes(), tree.spec_idom()),
        node_id < graph.spec_node_count(),
        mirrors(*ui, tree, graph, node_id, fuel as nat),
        depth + fuel <= u32::MAX,
    ensures
        final(out)@ == old(out)@ + tree_lines(*ui, graph, depth as nat),
    decreases fuel,
{
    let ghost before = out@;
    let node = graph.node(node_id);
    push_blanks(out, depth);
    push_blanks(out, depth);
    push_blanks(out, depth);
    push_blanks(out, depth);
    push_str_chars(out, "[");
    push_decimal(out, node.stable_id() as u64);
    push_str_chars(out, "]  ");
    push_str_chars(out, ui.label.as_str());
    push_str_chars(out, "  (");
    let size = format_bytes(ui.retained_size);
    push_str_chars(out, size.as_str());
    push_str_chars(out, ")\n");
    proof {
        assert(blanks(depth as int) + blanks(depth as int) + blanks(depth as int) + blanks(
            depth as int,
        ) =~= blanks(4 * depth));
        assert(out@ =~= before + tree_line(*ui, graph, depth as nat));
    }
    let ghost head = out@;
    let shown = if ui.children.len() < SHOWN_CHILDREN {
        ui.children.len()
    } else {
        SHOWN_CHILDREN
    };
    let mut i: usize = 0;
    proof {
        assert(head + child_lines(ui.children@, graph, (depth + 1) as nat, 0) =~= head);
    }
    while i < shown
        invariant
            graph.wf(),
            tree.is_tree_of(graph.spec_self_sizes(), tree.spec_idom()),
            node_id < graph.spec_node_count(),
            mirrors(*ui, tree, graph, node_id, fuel as nat),
            depth + fuel <= u32::MAX,
            i <= shown <= ui.children@.len(),
            out@ == head + child_lines(ui.children@, graph, (depth + 1) as nat, i as nat),
        decreases shown - i,
    {
        let child = &ui.children[i];
        proof {
            assert(fuel > 0);
            assert(shows_child(ui.children@[i as int], tree, graph, node_id, fuel as nat));
        }
        let ghost c = choose|c: NodeId| #[trigger]
            crate::report::explorer::is_kept(tree, graph, node_id, c) && mirrors(
                *child,
                tree,
                graph,
                c,
                (fuel - 1) as nat,
            );
        proof {
            tree.lemma_child_in_range(graph.spec_self_sizes(), node_id, c);
        }
        match child.id {
            UiTreeId::Heap(child_id) => {
                push_tree_lines(out, child, child_id, tree, graph, depth + 1, fuel - 1);
            },
            UiTreeId::Group(_) => {},
        }
        proof {
            assert(out@ =~= head + child_lines(
                ui.children@,
                graph,
                (depth + 1) as nat,
                (i + 1) as nat,
            ));
        }
        i = i + 1;
    }
    proof {
        assert(out@ =~= before + tree_lines(*ui, graph, depth as nat));
    }
}

/// The dominator tree from the first node on as lines of text: for each
/// node its line, and below it the trees of those of its children that are
/// shown, the twenty that retain most.
pub fn print_dominator_tree(tree: &DominatorTree, graph: &V8HeapGraph) -> (r: String)
    requires
        graph.wf(),
        tree.is_tree_of(graph.spec_self_sizes(), tree.spec_idom()),
        graph.spec_node_count() > 0,
    ensures
        exists|ui: UiTreeNode| #[trigger] shows_tree(ui, tree, graph) && r@ == tree_lines(ui, graph, 0),
{
    let ui = build_ui_tree(0, tree, graph);
    let mut out: Vec<char> = Vec::new();
    proof {
        tree.lemma_len_bound();
    }
    push_tree_lines(&mut out, &ui, 0, tree, graph, 0, tree.len());
    proof {
        assert(out@ =~= tree_lines(ui, graph, 0));
        assert(shows_tree(ui, tree, graph));
    }
    string_from_chars(&out)
}

} // verus!
