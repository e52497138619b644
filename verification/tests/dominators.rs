use std::collections::HashMap;
use v8_heap_analyzer::analysis::all_paths::find_root_paths;
use v8_heap_analyzer::analysis::dominance::{certified, check_dominators};
use v8_heap_analyzer::analysis::exact::{check_exact, exact_dominators, reach_without, settled};
use v8_heap_analyzer::analysis::dominator_tree::tree_from_immediate_dominators;
use v8_heap_analyzer::graph::lengauer_tarjan::{lengauer_tarjan, relaxed_dominators, GraphOps};
use v8_heap_analyzer::graph::lengauer_tarjan_traits::AdjacencyGraph;
use v8_heap_analyzer::graph::v8_heap_graph::{
    EdgeFields, EdgeType, NameOrIndex, NodeFields, NodeType, V8HeapGraph,
};
use v8_heap_analyzer::snapshot::{Snapshot, SnapshotFile, SnapshotMetadata, SnapshotType};
use v8_heap_analyzer::types::{AnalyzerError, NodeId};

fn test_graph(count: usize, edges: &[(NodeId, NodeId)]) -> AdjacencyGraph {
    let mut graph = AdjacencyGraph { preds: vec![vec![]; count], succs: vec![vec![]; count] };
    for &(from, to) in edges {
        graph.succs[from as usize].push(to);
        graph.preds[to as usize].push(from);
    }
    assert!(graph.is_consistent());
    graph
}

fn sorted(map: &HashMap<NodeId, NodeId>) -> Vec<(NodeId, NodeId)> {
    let mut pairs: Vec<(NodeId, NodeId)> = map.iter().map(|(k, v)| (*k, *v)).collect();
    pairs.sort();
    pairs
}

fn strings_of(names: &[&str]) -> Vec<String> {
    names.iter().map(|s| s.to_string()).collect()
}

const NODE_KINDS: [&str; 15] = [
    "hidden",
    "array",
    "string",
    "object",
    "code",
    "closure",
    "regexp",
    "number",
    "native",
    "synthetic",
    "concatenated string",
    "sliced string",
    "symbol",
    "bigint",
    "object shape",
];

const EDGE_KINDS: [&str; 7] =
    ["context", "element", "property", "internal", "hidden", "shortcut", "weak"];

/// A snapshot of nodes given as (type, name, self size) and edges given as
/// (from, type, name or index, to); six numbers describe a node.
fn snapshot(nodes: &[(u32, u32, u32)], edges: &[(u32, u32, u32, u32)], strings: &[&str]) -> SnapshotFile {
    let mut flat_nodes = vec![];
    let mut flat_edges = vec![];
    for (n, node) in nodes.iter().enumerate() {
        let out = edges.iter().filter(|e| e.0 as usize == n).count() as u32;
        flat_nodes.extend([node.0, node.1, 100 + n as u32, node.2, out, (n % 2) as u32]);
        for e in edges.iter().filter(|e| e.0 as usize == n) {
            flat_edges.extend([e.1, e.2, e.3 * 6]);
        }
    }
    SnapshotFile {
        snapshot: Snapshot {
            meta: SnapshotMetadata {
                edge_fields: strings_of(&["type", "name_or_index", "to_node"]),
                edge_types: vec![
                    SnapshotType::Strs(strings_of(&EDGE_KINDS)),
                    SnapshotType::Str("string_or_number".to_string()),
                    SnapshotType::Str("node".to_string()),
                ],
                location_fields: vec![],
                node_fields: strings_of(&[
                    "type",
                    "name",
                    "id",
                    "self_size",
                    "edge_count",
                    "detachedness",
                ]),
                node_types: vec![
                    SnapshotType::Strs(strings_of(&NODE_KINDS)),
                    SnapshotType::Str("string".to_string()),
                ],
                sample_fields: vec![],
                trace_function_info_fields: vec![],
                trace_node_fields: vec![],
            },
            node_count: nodes.len(),
            edge_count: edges.len(),
            trace_function_count: 0,
            extra_native_bytes: 0,
        },
        nodes: flat_nodes,
        edges: flat_edges,
        locations: vec![],
        strings: strings_of(strings),
    }
}

/// A graph of objects with the given self sizes and property edges.
fn heap(sizes: &[u32], edges: &[(u32, u32)]) -> V8HeapGraph {
    let nodes: Vec<(u32, u32, u32)> = sizes.iter().map(|&s| (3, 0, s)).collect();
    let edges: Vec<(u32, u32, u32, u32)> = edges.iter().map(|e| (e.0, 2, 1, e.1)).collect();
    V8HeapGraph::from_snapshot(snapshot(&nodes, &edges, &["node", "edge"])).unwrap()
}

#[test]
fn test_simple_dominator_tree() {
    // Graph: 0 -> 1 -> 2
    //            \-> 3 -> 2
    // Node 0 dominates all, node 1 dominates 2
    let graph = AdjacencyGraph {
        preds: vec![
            vec![],     // 0: no predecessors (root)
            vec![0],    // 1: predecessor is 0
            vec![1, 3], // 2: predecessors are 1 and 3
            vec![1],    // 3: predecessor is 1
        ],
        succs: vec![
            vec![1],    // 0: successor is 1
            vec![2, 3], // 1: successors are 2 and 3
            vec![],     // 2: no successors
            vec![2],    // 3: successor is 2
        ],
    };

    let idom = lengauer_tarjan(&graph, &[0]);

    assert_eq!(idom.get(&1), Some(&0)); // 0 dominates 1
    assert_eq!(idom.get(&2), Some(&1)); // 1 dominates 2
    assert_eq!(idom.get(&3), Some(&1)); // 1 dominates 3
}

#[test]
fn test_adjacency_graph_consistency() {
    let mut graph = test_graph(3, &[(0, 1), (1, 2), (2, 0)]);
    assert_eq!(graph.node_count(), 3);
    assert_eq!(graph.successors(1), vec![2]);
    assert_eq!(graph.predecessors(1), vec![0]);
    graph.succs[0].push(2);
    assert!(!graph.is_consistent());
    graph.preds[2].push(0);
    assert!(graph.is_consistent());
    graph.preds[2].push(7);
    assert!(!graph.is_consistent());
}

#[test]
fn test_root_is_its_own_dominator() {
    let graph = test_graph(4, &[(0, 1), (1, 2), (1, 3), (3, 2)]);
    let idom = lengauer_tarjan(&graph, &[0]);
    assert_eq!(sorted(&idom), vec![(0, 0), (1, 0), (2, 1), (3, 1)]);
    // Without a root nothing is reached
    assert!(lengauer_tarjan(&graph, &[]).is_empty());
    assert!(lengauer_tarjan(&test_graph(0, &[]), &[]).is_empty());
}

#[test]
fn test_diamond() {
    let graph = heap(&[10, 20, 30, 40], &[(0, 1), (0, 2), (1, 3), (2, 3)]);
    let idom = lengauer_tarjan(&graph, &[0]);
    assert_eq!(sorted(&idom), vec![(0, 0), (1, 0), (2, 0), (3, 0)]);
    let tree = tree_from_immediate_dominators(&idom, &graph);
    let retained: Vec<usize> = (0..4).map(|n| tree.retained_size(n)).collect();
    assert_eq!(retained, vec![100, 20, 30, 40]);
    assert_eq!(tree.children(0), &[1, 2, 3]);
    assert!(tree.children(3).is_empty());
    assert_eq!(tree.idom(3), Some(0));
    assert_eq!(tree.len(), 4);
}

#[test]
fn test_chain() {
    let graph = heap(&[10, 10, 10, 10], &[(0, 1), (1, 2), (2, 3)]);
    let idom = lengauer_tarjan(&graph, &[0]);
    assert_eq!(sorted(&idom), vec![(0, 0), (1, 0), (2, 1), (3, 2)]);
    let tree = tree_from_immediate_dominators(&idom, &graph);
    let retained: Vec<usize> = (0..4).map(|n| tree.retained_size(n)).collect();
    assert_eq!(retained, vec![40, 30, 20, 10]);
}

#[test]
fn test_shared_leaf_through_two_roots() {
    // Node 3 stands above the roots 0 and 1, which both lead to 2
    let graph = heap(&[1, 1, 1, 1], &[(0, 2), (1, 2), (3, 0), (3, 1)]);
    let from_above = lengauer_tarjan(&graph, &[3]);
    assert_eq!(from_above.get(&2), Some(&3));
    let from_zero = lengauer_tarjan(&graph, &[0]);
    assert_eq!(sorted(&from_zero), vec![(0, 0), (2, 0)]);
    assert!(!from_zero.contains_key(&1));
    // From both roots at once nothing but all roots together dominates 2
    let from_both = lengauer_tarjan(&graph, &[0, 1]);
    assert_eq!(sorted(&from_both), vec![(0, 0), (1, 1), (2, 2)]);
    assert_eq!(sorted(&relaxed_dominators(&graph, &[0, 1])), sorted(&from_both));
}

#[test]
fn test_weak_edges_do_not_dominate() {
    // 0 -> 1 -> 2 by property edges; 0 -> 2 and 2 -> 1 by weak edges only
    let nodes = [(3, 0, 1), (3, 0, 1), (3, 0, 1), (3, 0, 1)];
    let edges = [(0, 2, 1, 1), (0, 6, 1, 2), (1, 2, 1, 2), (2, 6, 1, 1), (2, 6, 1, 3)];
    let graph = V8HeapGraph::from_snapshot(snapshot(&nodes, &edges, &["node", "edge"])).unwrap();
    let idom = lengauer_tarjan(&graph, &[0]);
    assert_eq!(sorted(&idom), vec![(0, 0), (1, 0), (2, 1)]);
    assert_eq!(GraphOps::successors(&graph, 0), vec![1]);
    assert_eq!(GraphOps::predecessors(&graph, 1), vec![0]);
    assert_eq!(GraphOps::predecessors(&graph, 2), vec![1]);
    assert_eq!(GraphOps::node_count(&graph), 4);
    // The paths that explain why a node is alive follow weak edges too
    let paths = find_root_paths(&graph, 0);
    assert_eq!(paths.paths_to(3, &graph, 5).unwrap().paths.len(), 1);
}

#[test]
fn test_both_engines_agree() {
    let graphs: Vec<(usize, Vec<(NodeId, NodeId)>)> = vec![
        (4, vec![(0, 1), (0, 2), (1, 3), (2, 3)]),
        (6, vec![(0, 1), (1, 2), (2, 3), (3, 1), (1, 4), (4, 5), (5, 2), (0, 5)]),
        (
            13,
            vec![
                (0, 1),
                (0, 2),
                (0, 3),
                (1, 4),
                (2, 1),
                (2, 4),
                (2, 5),
                (3, 6),
                (3, 7),
                (4, 12),
                (5, 8),
                (6, 9),
                (7, 9),
                (7, 10),
                (8, 5),
                (8, 11),
                (9, 11),
                (10, 9),
                (11, 0),
                (11, 9),
                (12, 8),
            ],
        ),
        (5, vec![(0, 1), (1, 1), (1, 2), (2, 0), (3, 4)]),
    ];
    for (count, edges) in graphs {
        let graph = test_graph(count, &edges);
        let fast = lengauer_tarjan(&graph, &[0]);
        let slow = relaxed_dominators(&graph, &[0]);
        assert_eq!(sorted(&fast), sorted(&slow));
        assert_eq!(fast.get(&0), Some(&0));
    }
    // The flow graph of Lengauer and Tarjan's paper
    let graph = test_graph(
        13,
        &[
            (0, 1),
            (0, 2),
            (0, 3),
            (1, 4),
            (2, 1),
            (2, 4),
            (2, 5),
            (3, 6),
            (3, 7),
            (4, 12),
            (5, 8),
            (6, 9),
            (7, 9),
            (7, 10),
            (8, 5),
            (8, 11),
            (9, 11),
            (10, 9),
            (11, 0),
            (11, 9),
            (12, 8),
        ],
    );
    assert_eq!(
        sorted(&lengauer_tarjan(&graph, &[0])),
        vec![
            (0, 0),
            (1, 0),
            (2, 0),
            (3, 0),
            (4, 0),
            (5, 0),
            (6, 3),
            (7, 3),
            (8, 0),
            (9, 0),
            (10, 7),
            (11, 0),
            (12, 4)
        ]
    );
}

#[test]
fn test_every_node_is_a_child_of_its_dominator_only() {
    let graph = heap(&[1, 2, 4, 8, 16, 32], &[(0, 1), (1, 2), (1, 3), (3, 2), (2, 4), (5, 0)]);
    let idom = lengauer_tarjan(&graph, &[0]);
    let tree = tree_from_immediate_dominators(&idom, &graph);
    for n in 0..6u32 {
        for p in 0..6u32 {
            let is_child = tree.children(p).contains(&n);
            assert_eq!(is_child, idom.get(&n) == Some(&p) && n != p);
        }
        if idom.contains_key(&n) {
            assert!(tree.retained_size(n) >= graph.self_size_for(n));
            assert!(tree.stands_in_tree(n));
        }
    }
    // What the root retains is what can be reached; node 5 cannot
    assert_eq!(tree.retained_size(0), 31);
    assert_eq!(tree.retained_bytes(1), 30);
    assert_eq!(tree.retained_size(5), 0);
    assert_eq!(tree.idom(5), None);
    assert!(!tree.stands_in_tree(5));
}

#[test]
fn test_root_paths() {
    let graph = heap(&[1, 1, 1, 1, 1], &[(0, 1), (0, 2), (1, 3), (2, 3), (3, 0)]);
    let paths = find_root_paths(&graph, 0);
    for node in 0..4u32 {
        let found = paths.paths_to(node, &graph, 10).unwrap();
        assert!(!found.truncated);
        assert_eq!(found.paths.len(), 1);
        let edges = found.paths[0].edges(&graph);
        let mut at = 0;
        for edge in &edges {
            assert_eq!(edge.from_node(), at);
            at = edge.to_node();
        }
        assert_eq!(at, node);
    }
    // The edge 0 -> 1 is edge 0, the edge 1 -> 3 is edge 2
    assert_eq!(paths.paths_to(3, &graph, 10).unwrap().paths[0].0, vec![0, 2]);
    assert!(paths.paths_to(0, &graph, 10).unwrap().paths[0].0.is_empty());
    // A node that cannot be reached has no path
    let none = paths.paths_to(4, &graph, 10).unwrap();
    assert!(none.paths.is_empty() && !none.truncated);
    // No path is asked for
    let cut = paths.paths_to(3, &graph, 0).unwrap();
    assert!(cut.paths.is_empty() && cut.truncated);
    assert!(matches!(paths.paths_to(5, &graph, 10), Err(AnalyzerError::Query(_))));
}

#[test]
fn test_graph_of_a_snapshot() {
    let nodes = [(9, 0, 0), (3, 1, 24), (2, 2, 16), (10, 3, 8)];
    let edges = [
        (0, 2, 4, 1),
        (1, 1, 7, 2),
        (1, 3, 5, 3),
        (3, 3, 6, 2),
        (3, 6, 5, 1),
    ];
    let strings = ["(GC roots)", "Window", "text\n", "cons", "global", "first", "second"];
    let graph = V8HeapGraph::from_snapshot(snapshot(&nodes, &edges, &strings)).unwrap();
    assert_eq!(graph.node_count(), 4);
    assert_eq!(graph.edge_count(), 5);
    assert_eq!(graph.iter_nodes(), 0..4);
    assert_eq!(graph.iter_edges(), 0..5);
    assert_eq!(graph.node_range(1), &[3, 1, 101, 24, 2, 1]);
    assert_eq!(graph.edge_count_for(1), 2);
    assert_eq!(graph.self_size_for(1), 24);
    assert_eq!(graph.self_sizes(), vec![0, 24, 16, 8]);
    assert_eq!(graph.string(1), "Window");
    assert_eq!(graph.out_edges(1), &[2, 3]);
    assert_eq!(graph.in_edges(2), vec![1, 3]);
    assert_eq!(graph.in_edges(0), Vec::<u32>::new());
    assert_eq!(graph.find_edge(1, EdgeType::Internal, "first"), Some(3));
    assert_eq!(graph.find_edge(1, EdgeType::Internal, "second"), None);
    assert_eq!(graph.find_edge(1, EdgeType::Property, "first"), None);
    assert_eq!(graph.find_edge(1, EdgeType::Element, "first"), None);

    let node = graph.node(1);
    assert_eq!(node.typ(), NodeType::Object);
    assert_eq!(node.typ_str(), "object");
    assert_eq!(node.name(), "Window");
    assert_eq!(node.print_safe_name(10), "Window");
    assert_eq!(node.stable_id(), 101);
    assert_eq!(node.self_size(), 24);
    assert_eq!(node.edge_count(), 2);
    assert!(node.detachedness());
    assert!(!graph.node(2).detachedness());
    assert_eq!(graph.node(2).print_safe_name(3), "\"tex...\"");
    assert_eq!(graph.node(2).print_safe_name(10), "\"text\\n\"");

    let edge = graph.edge(1);
    assert_eq!(edge.from_node(), 1);
    assert_eq!(edge.to_node(), 2);
    assert_eq!(edge.typ(), EdgeType::Element);
    assert_eq!(edge.typ_str(), "element");
    assert_eq!(edge.index(), 7);
    assert!(matches!(edge.name_or_index(), NameOrIndex::Index(7)));
    assert!(matches!(graph.edge(3).name_or_index(), NameOrIndex::Name("second")));
    assert!(graph.edge(3).name_or_index().is_str("second"));
    assert!(!edge.name_or_index().is_str("7"));
    let out: Vec<u32> = graph.edges_for(3).iter().map(|e| e.id).collect();
    assert_eq!(out, vec![3, 4]);
    assert_eq!(EdgeType::Weak.as_str(), "weak");
    assert_eq!(EdgeType::from_tag(6), Some(EdgeType::Weak));
    assert_eq!(EdgeType::from_tag(7), None);
    assert_eq!(NodeType::from_tag(14), Some(NodeType::ObjectShape));
    assert_eq!(NodeType::from_tag(15), None);
    assert_eq!(NodeType::ConcatString.tag(), 10);
    assert_eq!(EdgeType::Shortcut.tag(), 5);
}

#[test]
fn test_field_layouts() {
    let fields = NodeFields::new(strings_of(&[
        "type",
        "name",
        "id",
        "self_size",
        "edge_count",
        "trace_node_id",
        "detachedness",
    ]))
    .unwrap();
    assert_eq!(fields.stride(), 7);
    assert_eq!(fields.type_field(), 0);
    assert_eq!(fields.name_field(), 1);
    assert_eq!(fields.stable_id(), 2);
    assert_eq!(fields.self_size_field(), 3);
    assert_eq!(fields.edge_count_field(), 4);
    assert_eq!(fields.detachedness_field(), Some(6));
    assert_eq!(fields.trace_node_id, Some(5));
    assert_eq!(fields.edge_count(&[0, 0, 0, 0, 3, 0, 0, 0, 0, 0, 0, 9, 0, 0], 1), 9);
    let plain =
        NodeFields::new(strings_of(&["type", "name", "id", "self_size", "edge_count"])).unwrap();
    assert_eq!(plain.detachedness_field(), None);
    assert_eq!(plain.stride(), 5);
    let edge_fields = EdgeFields::new(strings_of(&["type", "name_or_index", "to_node"])).unwrap();
    assert_eq!(edge_fields.to_node_field(), 2);
    assert_eq!(edge_fields.stride(), 3);

    // Any other layout is a load error
    assert!(matches!(
        NodeFields::new(strings_of(&["type", "name", "id", "self_size"])),
        Err(AnalyzerError::InvalidFormat(_))
    ));
    assert!(matches!(
        NodeFields::new(strings_of(&["name", "type", "id", "self_size", "edge_count"])),
        Err(AnalyzerError::InvalidFormat(_))
    ));
    assert!(matches!(
        EdgeFields::new(strings_of(&["type", "name_or_index"])),
        Err(AnalyzerError::InvalidFormat(_))
    ));
    assert!(matches!(
        EdgeFields::new(strings_of(&["type", "name_or_index", "to_node", "more"])),
        Err(AnalyzerError::InvalidFormat(_))
    ));
    assert!(matches!(
        EdgeFields::new(strings_of(&["type", "to_node", "name_or_index"])),
        Err(AnalyzerError::InvalidFormat(_))
    ));
}

fn refused(file: SnapshotFile) -> bool {
    matches!(V8HeapGraph::from_snapshot(file), Err(AnalyzerError::InvalidFormat(_)))
}

#[test]
fn test_malformed_snapshots_are_refused() {
    let nodes = [(3, 0, 1), (3, 0, 1)];
    let edges = [(0, 2, 1, 1)];
    let strings = ["node", "edge"];
    assert!(V8HeapGraph::from_snapshot(snapshot(&nodes, &edges, &strings)).is_ok());

    // An unknown kind of node, and one that the snapshot does not name
    assert!(refused(snapshot(&[(15, 0, 1)], &[], &strings)));
    let mut file = snapshot(&nodes, &edges, &strings);
    file.snapshot.meta.node_types[0] = SnapshotType::Strs(strings_of(&NODE_KINDS[..3]));
    assert!(refused(file));
    // An unknown kind of edge
    assert!(refused(snapshot(&nodes, &[(0, 7, 1, 1)], &strings)));
    // An edge to a node that is not there
    assert!(refused(snapshot(&nodes, &[(0, 2, 1, 2)], &strings)));
    // Names outside the string table; an element needs none
    assert!(refused(snapshot(&[(3, 2, 1)], &[], &strings)));
    assert!(refused(snapshot(&nodes, &[(0, 2, 2, 1)], &strings)));
    assert!(V8HeapGraph::from_snapshot(snapshot(&nodes, &[(0, 1, 9, 1)], &strings)).is_ok());
    // Edge counts that do not add up to the number of edges
    let mut file = snapshot(&nodes, &edges, &strings);
    file.nodes[4] = 2;
    assert!(refused(file));
    let mut file = snapshot(&nodes, &edges, &strings);
    file.nodes[4] = 0;
    assert!(refused(file));
    // Arrays of other sizes than the header announces
    let mut file = snapshot(&nodes, &edges, &strings);
    file.snapshot.node_count = 3;
    assert!(refused(file));
    let mut file = snapshot(&nodes, &edges, &strings);
    file.edges.push(0);
    assert!(refused(file));
    // Another layout
    let mut file = snapshot(&nodes, &edges, &strings);
    file.snapshot.meta.node_fields[3] = "size".to_string();
    assert!(refused(file));
    let mut file = snapshot(&nodes, &edges, &strings);
    file.snapshot.meta.edge_fields.push("extra".to_string());
    assert!(refused(file));
    let mut file = snapshot(&nodes, &edges, &strings);
    file.snapshot.meta.edge_types[0] = SnapshotType::Str("string".to_string());
    assert!(refused(file));
    let mut file = snapshot(&nodes, &edges, &strings);
    file.snapshot.meta.node_types.clear();
    assert!(refused(file));
}

#[test]
fn test_same_snapshot_gives_the_same_results() {
    let nodes = [(9, 0, 0), (3, 1, 24), (2, 2, 16), (3, 1, 8)];
    let edges = [(0, 2, 1, 1), (0, 2, 1, 3), (1, 2, 2, 2), (3, 2, 2, 2)];
    let strings = ["root", "obj", "txt"];
    let first = V8HeapGraph::from_snapshot(snapshot(&nodes, &edges, &strings)).unwrap();
    let second = V8HeapGraph::from_snapshot(snapshot(&nodes, &edges, &strings)).unwrap();
    assert_eq!(first.nodes, second.nodes);
    assert_eq!(first.node_out_edges, second.node_out_edges);
    assert_eq!(first.node_in_edges, second.node_in_edges);
    assert_eq!(first.edge_sources, second.edge_sources);
    assert_eq!(first.node_out_edges, vec![0, 2, 3, 3, 4]);
    assert_eq!(first.edge_sources, vec![0, 0, 1, 3]);
    assert_eq!(first.node_in_edges, vec![vec![], vec![0], vec![2, 3], vec![1]]);
    let a = lengauer_tarjan(&first, &[0]);
    let b = lengauer_tarjan(&second, &[0]);
    assert_eq!(sorted(&a), sorted(&b));
    let ta = tree_from_immediate_dominators(&a, &first);
    let tb = tree_from_immediate_dominators(&b, &second);
    for n in 0..4u32 {
        assert_eq!(ta.children(n), tb.children(n));
        assert_eq!(ta.retained_size(n), tb.retained_size(n));
    }
    assert_eq!(ta.retained_size(0), 48);
}

#[test]
fn test_dominators_pass_the_check() {
    let edges = [(0, 1), (1, 2), (2, 3), (3, 1), (1, 4), (4, 5), (5, 2), (0, 5), (6, 0)];
    let graph = test_graph(7, &edges);
    let idom = lengauer_tarjan(&graph, &[0]);
    assert!(check_dominators(&graph, &[0], &idom));
    assert!(check_dominators(&graph, &[0], &relaxed_dominators(&graph, &[0])));
    let both = lengauer_tarjan(&graph, &[0, 6]);
    assert!(check_dominators(&graph, &[0, 6], &both));

    // Node 3 is reached through 2 only, but not through 4
    let mut wrong = idom.clone();
    wrong.insert(3, 4);
    assert!(!check_dominators(&graph, &[0], &wrong));
    // A node that is reached is left out
    let mut short = idom.clone();
    short.remove(&4);
    assert!(!check_dominators(&graph, &[0], &short));
    // The root has another dominator, and a node that is none is held
    let mut moved = idom.clone();
    moved.insert(0, 1);
    assert!(!check_dominators(&graph, &[0], &moved));
    let mut more = idom.clone();
    more.insert(9, 9);
    assert!(!check_dominators(&graph, &[0], &more));
    // Every node above another dominates it, so a map to the root passes too
    let mut flat = idom.clone();
    flat.insert(3, 0);
    assert_eq!(idom.get(&3), Some(&2));
    assert!(check_dominators(&graph, &[0], &flat));
}

#[test]
fn test_error_texts_and_edge_columns() {
    assert_eq!(AnalyzerError::Parse("bad".to_string()).detail(), "bad");
    assert_eq!(AnalyzerError::Io("gone".to_string()).detail(), "gone");
    let graph = heap(&[1, 1, 1], &[(0, 1), (0, 2), (2, 1)]);
    assert_eq!(graph.edges.size(), 3);
    assert_eq!(graph.edges.to1(2), 1);
    assert_eq!(graph.edges.to(1, 2), &[2, 1]);
    match graph.find_edge(0, EdgeType::Property, "edge") {
        Some(target) => assert_eq!(target, 1),
        None => panic!("node 0 has a property named edge"),
    }
}

#[test]
fn test_what_is_handed_out_passes_the_check() {
    // The diamond: what was found is handed out where it passes
    let graph = test_graph(4, &[(0, 1), (0, 2), (1, 3), (2, 3)]);
    let found = lengauer_tarjan(&graph, &[0]);
    let kept = certified(&graph, &[0], found.clone());
    assert_eq!(sorted(&kept), sorted(&found));
    assert_eq!(sorted(&kept), vec![(0, 0), (1, 0), (2, 0), (3, 0)]);

    // A map of the same shape that does not pass gives way to the map that
    // gives every node to the root
    let mut wrong = found.clone();
    wrong.insert(3, 1);
    assert!(!check_dominators(&graph, &[0], &wrong));
    let kept = certified(&graph, &[0], wrong);
    assert_eq!(sorted(&kept), vec![(0, 0), (1, 0), (2, 0), (3, 0)]);
    assert!(check_dominators(&graph, &[0], &kept));

    // On a chain the map to the root passes, though it is not the closest
    let chain = test_graph(4, &[(0, 1), (1, 2), (2, 3)]);
    let mut wrong = lengauer_tarjan(&chain, &[0]);
    assert_eq!(sorted(&wrong), vec![(0, 0), (1, 0), (2, 1), (3, 2)]);
    wrong.insert(2, 3);
    wrong.insert(3, 2);
    let kept = certified(&chain, &[0], wrong);
    assert_eq!(sorted(&kept), vec![(0, 0), (1, 0), (2, 0), (3, 0)]);

    // With more roots than one every node is given to itself
    let two = test_graph(3, &[(0, 2), (1, 2)]);
    let mut wrong = lengauer_tarjan(&two, &[0, 1]);
    assert_eq!(sorted(&wrong), vec![(0, 0), (1, 1), (2, 2)]);
    wrong.insert(2, 0);
    let kept = certified(&two, &[0, 1], wrong);
    assert_eq!(sorted(&kept), vec![(0, 0), (1, 1), (2, 2)]);
}

#[test]
fn test_reach_without() {
    let graph = test_graph(6, &[(0, 1), (1, 2), (0, 3), (3, 2), (2, 4), (5, 4)]);
    assert_eq!(reach_without(&graph, &[0], 9), vec![true, true, true, true, true, false]);
    assert_eq!(reach_without(&graph, &[0], 1), vec![true, false, true, true, true, false]);
    assert_eq!(reach_without(&graph, &[0], 2), vec![true, true, false, true, false, false]);
    assert_eq!(reach_without(&graph, &[0], 0), vec![false; 6]);
    assert_eq!(reach_without(&graph, &[0, 5], 2), vec![true, true, false, true, true, true]);
    assert_eq!(reach_without(&graph, &[], 9), vec![false; 6]);
}

#[test]
fn test_both_engines_give_the_immediate_dominators() {
    let graphs = vec![
        // The diamond, the chain, a loop, and a graph with ways round
        (test_graph(4, &[(0, 1), (0, 2), (1, 3), (2, 3)]), vec![0]),
        (test_graph(4, &[(0, 1), (1, 2), (2, 3)]), vec![0]),
        (test_graph(4, &[(0, 1), (1, 2), (2, 1), (2, 3)]), vec![0]),
        (
            test_graph(
                7,
                &[(0, 1), (1, 2), (2, 3), (3, 1), (1, 4), (4, 5), (5, 2), (0, 5), (6, 0)],
            ),
            vec![0],
        ),
        // Two roots, and a node that only both reach
        (test_graph(4, &[(0, 2), (1, 2), (2, 3)]), vec![0, 1]),
        (test_graph(3, &[(1, 2)]), vec![]),
    ];
    for (graph, roots) in graphs.iter() {
        let first = lengauer_tarjan(graph, roots);
        let second = relaxed_dominators(graph, roots);
        assert!(check_exact(graph, roots, &first));
        assert!(check_exact(graph, roots, &second));
        assert_eq!(sorted(&first), sorted(&second));
    }
}

#[test]
fn test_check_exact_tells_the_closest() {
    let chain = test_graph(4, &[(0, 1), (1, 2), (2, 3)]);
    let idom = lengauer_tarjan(&chain, &[0]);
    assert_eq!(sorted(&idom), vec![(0, 0), (1, 0), (2, 1), (3, 2)]);
    assert!(check_exact(&chain, &[0], &idom));

    // The root dominates every node, but it is not the closest
    let mut flat = idom.clone();
    flat.insert(3, 0);
    assert!(check_dominators(&chain, &[0], &flat));
    assert!(!check_exact(&chain, &[0], &flat));
    let mut own = idom.clone();
    own.insert(2, 2);
    assert!(check_dominators(&chain, &[0], &own));
    assert!(!check_exact(&chain, &[0], &own));

    // What does not dominate does not pass either
    let diamond = test_graph(4, &[(0, 1), (0, 2), (1, 3), (2, 3)]);
    let mut wrong = lengauer_tarjan(&diamond, &[0]);
    wrong.insert(3, 1);
    assert!(!check_exact(&diamond, &[0], &wrong));

    // A node that no walk leads to is no node of the immediate dominators
    let apart = test_graph(3, &[(0, 1)]);
    let mut more = lengauer_tarjan(&apart, &[0]);
    assert!(check_exact(&apart, &[0], &more));
    more.insert(2, 2);
    assert!(check_dominators(&apart, &[0], &more));
    assert!(!check_exact(&apart, &[0], &more));
}

#[test]
fn test_exact_dominators() {
    let graph = test_graph(
        7,
        &[(0, 1), (1, 2), (2, 3), (3, 1), (1, 4), (4, 5), (5, 2), (0, 5), (6, 0)],
    );
    let exact = exact_dominators(&graph, &[0]);
    assert_eq!(sorted(&exact), vec![(0, 0), (1, 0), (2, 0), (3, 2), (4, 1), (5, 0)]);
    assert_eq!(sorted(&exact), sorted(&lengauer_tarjan(&graph, &[0])));
    assert!(check_exact(&graph, &[0], &exact));

    let chain = test_graph(4, &[(0, 1), (1, 2), (2, 3)]);
    assert_eq!(sorted(&exact_dominators(&chain, &[0])), vec![(0, 0), (1, 0), (2, 1), (3, 2)]);
    let two = test_graph(4, &[(0, 2), (1, 2), (2, 3)]);
    assert_eq!(sorted(&exact_dominators(&two, &[0, 1])), vec![(0, 0), (1, 1), (2, 2), (3, 2)]);
    assert_eq!(sorted(&exact_dominators(&two, &[0])), vec![(0, 0), (2, 0), (3, 2)]);
    assert!(exact_dominators(&two, &[]).is_empty());
}

#[test]
fn test_settled_hands_out_the_immediate_dominators() {
    let chain = test_graph(4, &[(0, 1), (1, 2), (2, 3)]);
    let found = lengauer_tarjan(&chain, &[0]);
    assert_eq!(sorted(&settled(&chain, &[0], found.clone())), sorted(&found));
    // What is not the immediate dominators gives way to them
    let mut flat = found.clone();
    flat.insert(3, 0);
    assert_eq!(sorted(&settled(&chain, &[0], flat)), sorted(&found));
    let mut wrong = found.clone();
    wrong.insert(2, 3);
    wrong.insert(3, 2);
    assert_eq!(sorted(&settled(&chain, &[0], wrong)), sorted(&found));
}
