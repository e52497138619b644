use std::sync::Arc;
use v8_heap_analyzer::graph::{CompactGraph, GraphBuilder};
use v8_heap_analyzer::parser::{decode_edge, decode_node, SnapshotMetadata, StringTable};
use v8_heap_analyzer::snapshot::SnapshotType;
use v8_heap_analyzer::types::AnalyzerError;

fn create_test_graph() -> CompactGraph {
    let strings = vec!["".to_string(), "Window".to_string(), "document".to_string()];
    let string_table = Arc::new(StringTable::new(strings));

    let mut graph = CompactGraph::new(string_table);

    // Add two nodes
    graph.node_types.push(3); // object type
    graph.node_names.push(1); // "Window"
    graph.node_ids.push(1);
    graph.node_sizes.push(100);
    graph.node_edge_ranges.push((0, 1)); // 1 edge

    graph.node_types.push(3); // object type
    graph.node_names.push(2); // "document"
    graph.node_ids.push(2);
    graph.node_sizes.push(200);
    graph.node_edge_ranges.push((1, 1)); // 0 edges

    // Add one edge from node 0 to node 1
    graph.edge_types.push(2); // property
    graph.edge_names.push(2); // "document"
    graph.edge_targets.push(1); // target node 1

    // Mark node 0 as GC root
    graph.gc_roots.push(0);

    graph
}

fn strings_of(names: &[&str]) -> Vec<String> {
    names.iter().map(|s| s.to_string()).collect()
}

fn test_metadata() -> SnapshotMetadata {
    SnapshotMetadata {
        node_fields: strings_of(&["type", "name", "id", "self_size", "edge_count"]),
        node_types: vec![
            SnapshotType::Strs(strings_of(&["object"])),
            SnapshotType::Str("string".to_string()),
            SnapshotType::Str("number".to_string()),
            SnapshotType::Str("number".to_string()),
            SnapshotType::Str("number".to_string()),
        ],
        edge_fields: strings_of(&["type", "name_or_index", "to_node"]),
        edge_types: vec![
            SnapshotType::Strs(strings_of(&["property"])),
            SnapshotType::Str("string_or_number".to_string()),
            SnapshotType::Str("node".to_string()),
        ],
        node_count: 0,
        edge_count: 0,
    }
}

#[test]
fn test_graph_counts() {
    let graph = create_test_graph();
    assert_eq!(graph.node_count(), 2);
    assert_eq!(graph.edge_count(), 1);
}

#[test]
fn test_node_accessors() {
    let graph = create_test_graph();

    assert_eq!(graph.node_type(0), Some(3));
    assert_eq!(graph.node_name(0), Some("Window"));
    assert_eq!(graph.node_size(0), Some(100));

    assert_eq!(graph.node_type(1), Some(3));
    assert_eq!(graph.node_name(1), Some("document"));
    assert_eq!(graph.node_size(1), Some(200));

    assert_eq!(graph.node_type(2), None);
}

#[test]
fn test_edge_iteration() {
    let graph = create_test_graph();

    let edges: Vec<_> = graph.edges(0).collect();
    assert_eq!(edges.len(), 1);
    assert_eq!(edges[0].edge_type, 2);
    assert_eq!(edges[0].name(), Some("document"));
    assert_eq!(edges[0].target, 1);

    let edges: Vec<_> = graph.edges(1).collect();
    assert_eq!(edges.len(), 0);
}

#[test]
fn test_gc_roots() {
    let graph = create_test_graph();
    assert!(graph.is_gc_root(0));
    assert!(!graph.is_gc_root(1));
    assert_eq!(graph.gc_roots(), &[0]);
}

#[test]
fn test_edge_walk_step_by_step() {
    let graph = create_test_graph();
    let mut walk = graph.edges(0);
    let first = walk.next();
    assert!(first.is_some());
    assert_eq!(first.unwrap().target, 1);
    assert!(walk.next().is_none());
    // A node that the graph does not have has no edges
    assert_eq!(graph.edges(7).collect().len(), 0);
}

#[test]
fn test_well_formed_check() {
    let mut graph = create_test_graph();
    assert!(graph.is_well_formed());
    graph.node_edge_ranges.push((0, 5));
    assert!(!graph.is_well_formed());
}

#[test]
fn test_node_name_outside_string_table() {
    let mut graph = create_test_graph();
    graph.node_names[1] = 99;
    assert_eq!(graph.node_name(1), None);
    assert_eq!(graph.node_name(5), None);
    assert_eq!(graph.node_size(5), None);
}

#[test]
fn test_graph_builder() {
    let strings = vec!["".to_string(), "Window".to_string(), "document".to_string()];
    let string_table = Arc::new(StringTable::new(strings));
    let metadata = test_metadata();

    let mut builder = GraphBuilder::new(metadata, string_table);

    // Add two nodes
    let nodes = vec![
        3, 1, 100, 48, 1, // Node 0: type=3, name=1, id=100, size=48, edges=1
        3, 2, 200, 96, 0, // Node 1: type=3, name=2, id=200, size=96, edges=0
    ];
    builder.add_nodes(&nodes).unwrap();

    // Add one edge (from node 0 to node 1)
    let edges = vec![
        2, 2, 5, // Edge: type=2, name=2, target=5 (which is node 1 in flat array)
    ];
    builder.add_edges(&edges).unwrap();

    let graph = builder.finalize().unwrap();

    assert_eq!(graph.node_count(), 2);
    assert_eq!(graph.edge_count(), 1);
    assert_eq!(graph.node_name(0), Some("Window"));
    assert_eq!(graph.node_name(1), Some("document"));

    let edges: Vec<_> = graph.edges(0).collect();
    assert_eq!(edges.len(), 1);
    assert_eq!(edges[0].target, 1);
}

#[test]
fn test_builder_marks_roots_and_ranges() {
    let string_table = Arc::new(StringTable::new(vec!["".to_string()]));
    let mut builder = GraphBuilder::new(test_metadata(), string_table);
    let nodes = vec![
        9, 0, 1, 0, 2, // synthetic: a root
        3, 0, 2, 16, 1, //
        0, 0, 3, 8, 0, // hidden: a root
        3, 0, 4, 4, 0, // with a number left over behind it
        7,
    ];
    builder.add_nodes(&nodes).unwrap();
    builder.add_edges(&[2, 0, 5, 2, 0, 10, 2, 0, 15]).unwrap();
    let graph = builder.finalize().unwrap();
    assert_eq!(graph.node_count(), 4);
    assert_eq!(graph.gc_roots(), &[0, 2]);
    assert_eq!(graph.node_edge_ranges, vec![(0, 2), (2, 3), (3, 3), (3, 3)]);
    assert_eq!(graph.edge_targets, vec![1, 2, 3]);
    assert!(graph.is_well_formed());
}

#[test]
fn test_builder_refuses_edges_that_are_not_as_many_as_counted() {
    let string_table = Arc::new(StringTable::new(vec!["".to_string()]));
    let mut builder = GraphBuilder::new(test_metadata(), string_table.clone());
    builder.add_nodes(&[3, 0, 1, 0, 2, 3, 0, 2, 0, 2]).unwrap();
    builder.add_edges(&[2, 0, 5, 2, 0, 0, 2, 0, 5]).unwrap();
    assert!(matches!(builder.finalize(), Err(AnalyzerError::InvalidFormat(_))));

    let mut builder = GraphBuilder::new(test_metadata(), string_table.clone());
    builder.add_nodes(&[3, 0, 1, 0, 1, 3, 0, 2, 0, 0]).unwrap();
    builder.add_edges(&[2, 0, 5, 2, 0, 0]).unwrap();
    assert!(matches!(builder.finalize(), Err(AnalyzerError::InvalidFormat(_))));

    let mut builder = GraphBuilder::new(test_metadata(), string_table);
    builder.add_nodes(&[3, 0, 1, 0, 2, 3, 0, 2, 0, 1]).unwrap();
    builder.add_edges(&[2, 0, 5, 2, 0, 0, 2, 0, 5]).unwrap();
    let graph = builder.finalize().unwrap();
    assert_eq!(graph.node_edge_ranges, vec![(0, 2), (2, 3)]);
    assert!(graph.is_well_formed());
}

#[test]
fn test_builder_refuses_unknown_kinds_and_targets() {
    let string_table = Arc::new(StringTable::new(vec!["".to_string()]));
    let mut builder = GraphBuilder::new(test_metadata(), string_table);
    // A kind of node that there is not, and a number too large for its column
    assert!(matches!(
        builder.add_nodes(&[3, 0, 1, 0, 0, 15, 0, 2, 0, 0]),
        Err(AnalyzerError::InvalidFormat(_))
    ));
    assert!(matches!(
        builder.add_nodes(&[3, 0, 1, 0x1_0000_0000, 0]),
        Err(AnalyzerError::InvalidFormat(_))
    ));
    assert_eq!(builder.node_types.len(), 0);
    builder.add_nodes(&[14, 0, 1, 0, 1, 3, 0, 2, 0, 0]).unwrap();
    // A kind of edge that there is not, a target that is no node
    assert!(matches!(builder.add_edges(&[7, 0, 5]), Err(AnalyzerError::InvalidFormat(_))));
    assert!(matches!(builder.add_edges(&[2, 0, 5, 2, 0, 10]), Err(AnalyzerError::InvalidFormat(_))));
    assert!(matches!(
        builder.add_edges(&[2, 0x1_0000_0000, 5]),
        Err(AnalyzerError::InvalidFormat(_))
    ));
    assert_eq!(builder.edge_types.len(), 0);
    builder.add_edges(&[6, 0, 9]).unwrap();
    assert_eq!(builder.edge_targets, vec![1]);
    assert!(builder.finalize().is_ok());
}

#[test]
fn test_builder_refuses_short_layouts() {
    let string_table = Arc::new(StringTable::new(vec![]));
    let mut metadata = test_metadata();
    metadata.node_fields.truncate(4);
    metadata.edge_fields.truncate(2);
    let mut builder = GraphBuilder::new(metadata, string_table);
    assert!(matches!(builder.add_nodes(&[3, 1, 100, 48]), Err(AnalyzerError::InvalidFormat(_))));
    assert!(matches!(builder.add_edges(&[2, 2]), Err(AnalyzerError::InvalidFormat(_))));
    assert_eq!(builder.node_types.len(), 0);
    assert_eq!(builder.edge_types.len(), 0);
}

#[test]
fn test_decode_node() {
    let meta = test_metadata();
    let node_data = vec![3, 1, 100, 48, 2];

    let decoded = decode_node(&node_data, &meta).unwrap();
    assert_eq!(decoded.node_type, 3);
    assert_eq!(decoded.name_idx, 1);
    assert_eq!(decoded.id, 100);
    assert_eq!(decoded.size, 48);
    assert_eq!(decoded.edge_count, 2);
}

#[test]
fn test_decode_edge() {
    let meta = test_metadata();
    let edge_data = vec![2, 5, 10];

    let decoded = decode_edge(&edge_data, &meta).unwrap();
    assert_eq!(decoded.edge_type, 2);
    assert_eq!(decoded.name_or_index, 5);
    assert_eq!(decoded.target_node, 10);
}

#[test]
fn test_decode_refuses_what_cannot_be_read() {
    let meta = test_metadata();
    assert!(decode_node(&[3, 1, 100, 48], &meta).is_none());
    assert!(decode_edge(&[2, 5], &meta).is_none());
    // A kind that there is not, and numbers too large for their columns
    assert!(decode_node(&[259, 1, 2, 3, 4], &meta).is_none());
    assert!(decode_node(&[15, 1, 2, 3, 4], &meta).is_none());
    assert!(decode_node(&[3, 0x1_0000_0001, 2, 3, 4], &meta).is_none());
    assert!(decode_node(&[3, 1, 2, 3, 0x1_0000_0000], &meta).is_none());
    assert!(decode_edge(&[7, 5, 10], &meta).is_none());
    assert!(decode_edge(&[2, 5, 0x1_0000_0000], &meta).is_none());
    let decoded = decode_node(&[14, 0xffff_ffff, 2, 3, 4, 99], &meta).unwrap();
    assert_eq!(decoded.node_type, 14);
    assert_eq!(decoded.name_idx, 0xffff_ffff);
    let decoded = decode_edge(&[6, 0, 0xffff_ffff], &meta).unwrap();
    assert_eq!(decoded.edge_type, 6);
    assert_eq!(decoded.target_node, 0xffff_ffff);
    assert_eq!(meta.node_field_count(), 5);
    assert_eq!(meta.edge_field_count(), 3);
}

#[test]
fn test_string_table_get() {
    let table = StringTable::new(vec![
        "first".to_string(),
        "second".to_string(),
        "third".to_string(),
    ]);

    assert_eq!(table.get(0), Some("first"));
    assert_eq!(table.get(1), Some("second"));
    assert_eq!(table.get(2), Some("third"));
    assert_eq!(table.get(3), None);
}

#[test]
fn test_string_table_len() {
    let table = StringTable::new(vec!["a".to_string(), "b".to_string()]);
    assert_eq!(table.len(), 2);
    assert!(!table.is_empty());

    let empty = StringTable::new(vec![]);
    assert_eq!(empty.len(), 0);
    assert!(empty.is_empty());
}
