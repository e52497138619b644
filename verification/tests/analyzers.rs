use std::collections::hash_map::DefaultHasher;
use std::collections::HashMap;
use std::hash::{Hash, Hasher};
use std::sync::Arc;
use v8_heap_analyzer::analysis::duplicates::{DuplicateAnalyzer, DuplicateGroup};
use v8_heap_analyzer::analysis::hidden_classes::HiddenClassAnalyzer;
use v8_heap_analyzer::analysis::retained_size::{
    build_dominator_tree, build_reverse_graph, calculate_dominators, calculate_retained_sizes,
    RetainedSize,
};
use v8_heap_analyzer::graph::CompactGraph;
use v8_heap_analyzer::parser::StringTable;
use v8_heap_analyzer::paths::RetentionPathFinder;
use v8_heap_analyzer::types::AnalyzerError;
use v8_heap_analyzer::{analyze_graph, find_retention_paths_for_groups};

fn graph_with_strings(strings: &[&str]) -> CompactGraph {
    let strings = strings.iter().map(|s| s.to_string()).collect();
    CompactGraph::new(Arc::new(StringTable::new(strings)))
}

/// A graph of objects named by their ordinal, with the given sizes and
/// edges; node 0 is the root.
fn object_graph(sizes: &[u32], edges: &[(u32, u32)], roots: &[u32]) -> CompactGraph {
    let mut graph = graph_with_strings(&["", "node", "edge"]);
    let mut edge_start = 0u32;
    for (n, &size) in sizes.iter().enumerate() {
        graph.node_types.push(3);
        graph.node_names.push(1);
        graph.node_ids.push(n as u32);
        graph.node_sizes.push(size);
        let count = edges.iter().filter(|e| e.0 as usize == n).count() as u32;
        graph.node_edge_ranges.push((edge_start, edge_start + count));
        edge_start += count;
        for e in edges.iter().filter(|e| e.0 as usize == n) {
            graph.edge_types.push(2);
            graph.edge_names.push(2);
            graph.edge_targets.push(e.1);
        }
    }
    graph.gc_roots.extend(roots);
    graph
}

#[test]
fn test_find_duplicate_strings() {
    let mut graph = graph_with_strings(&["", "duplicate", "unique"]);

    // Add 3 string nodes: 2 duplicates, 1 unique
    graph.node_types.extend(&[2, 2, 2]);
    graph.node_names.extend(&[1, 1, 2]); // Two "duplicate", one "unique"
    graph.node_ids.extend(&[1, 2, 3]);
    graph.node_sizes.extend(&[48, 48, 32]);
    graph.node_edge_ranges.extend(&[(0, 0), (0, 0), (0, 0)]);

    let analyzer = DuplicateAnalyzer::new(graph, false);
    let groups = analyzer.find_duplicate_strings();

    assert_eq!(groups.len(), 1);
    assert_eq!(groups[0].count, 2);
    assert_eq!(groups[0].object_type, "String"); // Changed: now uses "String" as caption
    assert_eq!(groups[0].total_wasted, 48);
    assert!(groups[0].sample_value.is_some());
    assert!(groups[0].sample_value.as_ref().unwrap().contains("duplicate")); // Actual value in sample
}

#[test]
fn test_shallow_size_calculation() {
    let mut graph = graph_with_strings(&["", "parent", "child", "prop"]);

    // Add parent object (node 0) with size 100
    graph.node_types.push(3); // object
    graph.node_names.push(1); // "parent"
    graph.node_ids.push(1);
    graph.node_sizes.push(100);
    graph.node_edge_ranges.push((0, 1)); // 1 edge

    // Add child object (node 1) with size 50
    graph.node_types.push(3); // object
    graph.node_names.push(2); // "child"
    graph.node_ids.push(2);
    graph.node_sizes.push(50);
    graph.node_edge_ranges.push((1, 1)); // 0 edges

    // Add edge from parent to child
    graph.edge_types.push(2); // property
    graph.edge_names.push(3); // "prop"
    graph.edge_targets.push(1); // target node 1

    let analyzer = DuplicateAnalyzer::new(graph, false);

    // Calculate size of parent (should be shallow size only)
    let size = analyzer.calculate_total_size(0);
    assert_eq!(size, 100, "Should return shallow size of parent object");
}

#[test]
fn test_multiple_retention_paths() {
    let mut graph = graph_with_strings(&["", "root1", "root2", "target", "prop"]);

    // Node 0: root1 (GC root)
    graph.node_types.push(3);
    graph.node_names.push(1);
    graph.node_ids.push(1);
    graph.node_sizes.push(100);
    graph.node_edge_ranges.push((0, 1)); // 1 edge
    graph.gc_roots.push(0);

    // Node 1: root2 (GC root)
    graph.node_types.push(3);
    graph.node_names.push(2);
    graph.node_ids.push(2);
    graph.node_sizes.push(100);
    graph.node_edge_ranges.push((1, 2)); // 1 edge
    graph.gc_roots.push(1);

    // Node 2: target (reachable from both roots)
    graph.node_types.push(3);
    graph.node_names.push(3);
    graph.node_ids.push(3);
    graph.node_sizes.push(50);
    graph.node_edge_ranges.push((2, 2)); // 0 edges

    // Edge from root1 to target
    graph.edge_types.push(2);
    graph.edge_names.push(4);
    graph.edge_targets.push(2);

    // Edge from root2 to target
    graph.edge_types.push(2);
    graph.edge_names.push(4);
    graph.edge_targets.push(2);

    let finder = RetentionPathFinder::new(&graph);
    let paths = finder.find_paths(2, 10); // Find up to 10 paths

    // Should find 2 paths (one from each root)
    assert!(paths.len() >= 2, "Expected at least 2 retention paths, found {}", paths.len());

    // Verify both paths lead to the target
    for path in &paths {
        assert_eq!(*path.nodes.last().unwrap(), 2, "Path should end at target node");
        assert!(graph.is_gc_root(path.nodes[0]), "Path should start from GC root");
    }

    // Verify we have paths from different roots
    let root_nodes: std::collections::HashSet<_> = paths.iter().map(|p| p.nodes[0]).collect();
    assert_eq!(root_nodes.len(), 2, "Should have paths from 2 different GC roots");
}

#[test]
fn test_find_retention_path() {
    let mut graph = graph_with_strings(&["", "Window", "document", "cache"]);

    // Node 0: Window (GC root)
    // Node 1: document
    // Node 2: cache
    graph.node_types.extend(&[3, 3, 3]);
    graph.node_names.extend(&[1, 2, 3]);
    graph.node_ids.extend(&[1, 2, 3]);
    graph.node_sizes.extend(&[100, 200, 50]);
    graph.node_edge_ranges.extend(&[(0, 1), (1, 2), (2, 2)]);
    graph.gc_roots.push(0);

    // Edges: 0 -> 1 -> 2
    graph.edge_types.extend(&[2, 2]);
    graph.edge_names.extend(&[2, 3]);
    graph.edge_targets.extend(&[1, 2]);

    let finder = RetentionPathFinder::new(&graph);
    let paths = finder.find_paths(2, 1);

    assert_eq!(paths.len(), 1);
    assert_eq!(paths[0].nodes, vec![0, 1, 2]);
    assert_eq!(paths[0].length, 3);
}

#[test]
fn test_retention_path_edges_and_limits() {
    let mut graph = graph_with_strings(&["", "Window", "document", "cache"]);
    graph.node_types.extend(&[3, 3, 3, 3]);
    graph.node_names.extend(&[1, 2, 3, 3]);
    graph.node_ids.extend(&[1, 2, 3, 4]);
    graph.node_sizes.extend(&[100, 200, 50, 5]);
    graph.node_edge_ranges.extend(&[(0, 1), (1, 2), (2, 2), (2, 2)]);
    graph.gc_roots.push(0);
    graph.edge_types.extend(&[2, 1]);
    graph.edge_names.extend(&[2, 77]);
    graph.edge_targets.extend(&[1, 2]);

    let finder = RetentionPathFinder::new(&graph);
    let paths = finder.find_paths(2, 3);
    assert_eq!(paths.len(), 1);
    assert_eq!(paths[0].edge_types, vec![2, 1]);
    assert_eq!(paths[0].edge_names, vec!["document".to_string(), String::new()]);
    // Nothing is asked for
    assert!(finder.find_paths(2, 0).is_empty());
    // A node that no walk from a root leads to, and one that the graph does not have
    assert!(finder.find_paths(3, 5).is_empty());
    assert!(finder.find_paths(9, 5).is_empty());
    // A root is held by itself
    let own = finder.find_paths(0, 5);
    assert_eq!(own.len(), 1);
    assert_eq!(own[0].nodes, vec![0]);
    assert_eq!(own[0].length, 1);
    assert!(own[0].edge_types.is_empty());
}

#[test]
fn test_multi_path_retention_through_intermediates() {
    // Two roots reach node 4 through nodes 2 and 3
    let graph = object_graph(&[1, 1, 1, 1, 1], &[(0, 2), (1, 3), (2, 4), (3, 4)], &[0, 1]);
    let finder = RetentionPathFinder::new(&graph);
    let mut paths = finder.find_paths(4, 10);
    assert!(paths.len() >= 2);
    v8_heap_analyzer::filter_subset_paths(&mut paths);
    let nodes: Vec<Vec<u32>> = paths.iter().map(|p| p.nodes.clone()).collect();
    assert_eq!(nodes, vec![vec![0, 2, 4], vec![1, 3, 4]]);
    for p in &paths {
        for pair in p.nodes.windows(2) {
            assert!(graph.edges(pair[0]).collect().iter().any(|e| e.target == pair[1]));
        }
    }
    // The limit cuts the list
    assert_eq!(finder.find_paths(4, 1).len(), 1);
}

#[test]
fn test_hidden_class_analysis() {
    let mut graph = graph_with_strings(&["", "User", "Product"]);

    // Add hidden class nodes
    graph.node_types.extend(&[4, 4, 4]); // Hidden class type
    graph.node_names.extend(&[1, 1, 2]); // Two for User, one for Product
    graph.node_ids.extend(&[1, 2, 3]);
    graph.node_sizes.extend(&[100, 100, 50]);
    graph.node_edge_ranges.extend(&[(0, 0), (0, 0), (0, 0)]);

    let analyzer = HiddenClassAnalyzer::new(graph);
    let groups = analyzer.analyze();

    assert_eq!(groups.len(), 2);
    assert_eq!(groups[0].object_type, "User");
    assert_eq!(groups[0].hidden_class_count, 2);
    assert_eq!(groups[0].total_hidden_class_memory, 200);
}

#[test]
fn test_hidden_classes_order_and_tag() {
    let mut graph = graph_with_strings(&["", "A", "B", "C"]);
    graph.node_types.extend(&[4, 14, 4, 14, 4, 3]);
    graph.node_names.extend(&[1, 2, 3, 2, 1, 1]);
    graph.node_ids.extend(&[1, 2, 3, 4, 5, 6]);
    graph.node_sizes.extend(&[10, 7, 20, 9, 10, 1000]);
    graph.node_edge_ranges.extend(&[(0, 0); 6]);

    let analyzer = HiddenClassAnalyzer::new(graph);
    let groups = analyzer.analyze();
    // The same memory: the group whose first node comes first stands first
    assert_eq!(groups.len(), 2);
    assert_eq!(groups[0].object_type, "A");
    assert_eq!(groups[0].hidden_classes, vec![0, 4]);
    assert_eq!(groups[0].total_hidden_class_memory, 20);
    assert_eq!(groups[1].object_type, "C");
    assert_eq!(groups[1].hidden_classes, vec![2]);
    assert_eq!(analyzer.find_object_type_for_hidden_class(1), Some("B".to_string()));
    assert_eq!(analyzer.find_object_type_for_hidden_class(9), None);

    let shapes = HiddenClassAnalyzer::with_tag(analyzer.into_graph(), 14);
    let groups = shapes.analyze();
    assert_eq!(groups.len(), 1);
    assert_eq!(groups[0].object_type, "B");
    assert_eq!(groups[0].hidden_class_count, 2);
    assert_eq!(groups[0].total_hidden_class_memory, 16);
}

#[test]
fn test_retained_sizes_with_dominators() {
    // Create a simple graph: Root -> A -> B, Root -> C
    let mut graph = graph_with_strings(&["", "Root", "A", "B", "C"]);

    // Add nodes: Root(0), A(1), B(2), C(3)
    graph.node_types.extend(&[3, 3, 3, 3]);
    graph.node_names.extend(&[1, 2, 3, 4]);
    graph.node_ids.extend(&[0, 1, 2, 3]);
    graph.node_sizes.extend(&[10, 20, 30, 40]);

    // Edges: Root->A, A->B, Root->C
    graph.node_edge_ranges.extend(&[(0, 2), (2, 3), (3, 3), (3, 3)]);
    graph.edge_types.extend(&[2, 2, 2]);
    graph.edge_names.extend(&[1, 1, 1]);
    graph.edge_targets.extend(&[1, 3, 2]);

    graph.gc_roots.push(0);

    let sizes = calculate_retained_sizes(&graph);

    // Root dominates everything, retains all: 10 + 20 + 30 + 40 = 100
    assert_eq!(sizes[&0].owned, 100);

    // A dominates B (only path to B is through A), retains A + B: 20 + 30 = 50
    assert_eq!(sizes[&1].owned, 50);

    // B doesn't dominate anything else, retains only itself: 30
    assert_eq!(sizes[&2].owned, 30);

    // C doesn't dominate anything else, retains only itself: 40
    assert_eq!(sizes[&3].owned, 40);
}

#[test]
fn test_retained_sizes_leave_out_what_is_not_reached() {
    // 0 -> 1 -> 3, 0 -> 2 -> 3, 3 -> 1 closes a cycle; 4 is not reached; an edge leads nowhere
    let graph = object_graph(
        &[1, 2, 4, 8, 16],
        &[(0, 1), (0, 2), (1, 3), (2, 3), (3, 1), (4, 0), (2, 99)],
        &[0, 77],
    );
    let dominators = calculate_dominators(&graph);
    let mut pairs: Vec<(u32, u32)> = dominators.iter().map(|(k, v)| (*k, *v)).collect();
    pairs.sort();
    assert_eq!(pairs, vec![(0, 0), (1, 0), (2, 0), (3, 0)]);
    let sizes = calculate_retained_sizes(&graph);
    assert_eq!(sizes.len(), 4);
    assert_eq!(sizes[&0].owned, 15);
    assert_eq!(sizes[&1].owned, 2);
    assert_eq!(sizes[&2].owned, 4);
    assert_eq!(sizes[&3].owned, 8);
    assert_eq!(sizes[&3].shared, 0);
    assert!(!sizes.contains_key(&4));

    let reverse = build_reverse_graph(&graph, 5);
    assert_eq!(reverse, vec![vec![4], vec![0, 3], vec![0], vec![1, 2], vec![]]);
    let children = build_dominator_tree(&dominators, 5);
    assert_eq!(children, vec![vec![1, 2, 3], vec![], vec![], vec![], vec![]]);
}

#[test]
fn test_string_hash_is_the_hash_of_the_string() {
    let analyzer = DuplicateAnalyzer::new(graph_with_strings(&[""]), false);
    for s in ["", "dup", "other", "caf\u{e9}"] {
        let mut hasher = DefaultHasher::new();
        s.hash(&mut hasher);
        assert_eq!(analyzer.hash_string(s), hasher.finish());
        assert_eq!(analyzer.hash_string(s), analyzer.hash_string(&s.to_string()));
    }
    assert_ne!(analyzer.hash_string("dup"), analyzer.hash_string("other"));
}

#[test]
fn test_object_hash_follows_name_and_sorted_edges() {
    let mut graph = graph_with_strings(&["", "Point", "x", "y"]);
    graph.node_types.extend(&[3, 3, 3]);
    graph.node_names.extend(&[1, 1, 1]);
    graph.node_ids.extend(&[1, 2, 3]);
    graph.node_sizes.extend(&[24, 24, 24]);
    // Node 0: y, hidden, x; node 1: x, y; node 2: none
    graph.node_edge_ranges.extend(&[(0, 3), (3, 5), (5, 5)]);
    graph.edge_types.extend(&[2, 4, 2, 2, 2]);
    graph.edge_names.extend(&[3, 0, 2, 2, 3]);
    graph.edge_targets.extend(&[2, 2, 2, 2, 2]);

    let expected = |edges: &[(u8, u32, u32)]| {
        let mut hasher = DefaultHasher::new();
        "Point".hash(&mut hasher);
        for e in edges {
            e.0.hash(&mut hasher);
            e.1.hash(&mut hasher);
            e.2.hash(&mut hasher);
        }
        hasher.finish()
    };
    let analyzer = DuplicateAnalyzer::new(graph, false);
    assert_eq!(analyzer.hash_object(0), expected(&[(2, 2, 2), (2, 3, 2)]));
    assert_eq!(analyzer.hash_object(0), analyzer.hash_object(1));
    assert_eq!(analyzer.hash_object(2), expected(&[]));
    let with_hidden = DuplicateAnalyzer::new(analyzer.into_graph(), true);
    assert_eq!(with_hidden.hash_object(0), expected(&[(4, 0, 2), (2, 2, 2), (2, 3, 2)]));
    assert_ne!(with_hidden.hash_object(0), with_hidden.hash_object(1));
}

fn check_totals(group: &DuplicateGroup) {
    assert!(group.count >= 2);
    assert_eq!(group.node_ids.len(), group.count);
    assert_eq!(group.total_wasted, (group.count as u64 - 1) * group.size_per_object);
    assert_eq!(group.representative, group.node_ids[0]);
}

#[test]
fn test_string_duplicates_scenario() {
    let mut graph = graph_with_strings(&["", "dup", "other"]);
    graph.node_types.extend(&[2, 2, 2]);
    graph.node_names.extend(&[1, 2, 1]);
    graph.node_ids.extend(&[1, 2, 3]);
    graph.node_sizes.extend(&[48, 48, 48]);
    graph.node_edge_ranges.extend(&[(0, 0), (0, 0), (0, 0)]);
    let analyzer = DuplicateAnalyzer::new(graph, false);
    let groups = analyzer.find_duplicates();
    assert_eq!(groups.len(), 1);
    assert_eq!(groups[0].count, 2);
    assert_eq!(groups[0].total_wasted, 48);
    assert_eq!(groups[0].object_type, "String");
    assert_eq!(groups[0].sample_value, Some("\"dup\"".to_string()));
    assert_eq!(groups[0].node_ids, vec![0, 2]);
    assert_eq!(groups[0].hash, analyzer.hash_string("dup"));
    assert_eq!(groups[0].owned_retained_size, None);
    check_totals(&groups[0]);
}

#[test]
fn test_duplicates_are_ordered_by_waste() {
    let mut graph = graph_with_strings(&["", "a", "b", "Point", "x", "c"]);
    // Strings: "a" three times (size 10), "b" twice (size 100), "c" twice (size 10)
    // Objects: two alike Points of size 40 with an edge to node 0, one Point without
    graph.node_types.extend(&[2, 2, 2, 2, 2, 3, 3, 3, 2, 2]);
    graph.node_names.extend(&[1, 1, 1, 2, 2, 3, 3, 3, 5, 5]);
    graph.node_ids.extend(&[1, 2, 3, 4, 5, 6, 7, 8, 9, 10]);
    graph.node_sizes.extend(&[10, 10, 10, 100, 100, 40, 40, 40, 10, 10]);
    graph.node_edge_ranges.extend(&[
        (0, 0),
        (0, 0),
        (0, 0),
        (0, 0),
        (0, 0),
        (0, 1),
        (1, 2),
        (2, 2),
        (2, 2),
        (2, 2),
    ]);
    graph.edge_types.extend(&[2, 2]);
    graph.edge_names.extend(&[4, 4]);
    graph.edge_targets.extend(&[0, 0]);

    let analyzer = DuplicateAnalyzer::new(graph, false);
    let groups = analyzer.find_duplicates();
    let wasted: Vec<u64> = groups.iter().map(|g| g.total_wasted).collect();
    assert_eq!(wasted, vec![100, 40, 20, 10]);
    let types: Vec<&str> = groups.iter().map(|g| g.object_type.as_str()).collect();
    assert_eq!(types, vec!["String", "Point", "String", "String"]);
    assert_eq!(groups[1].sample_value, Some("{ x: a }".to_string()));
    assert_eq!(groups[1].node_ids, vec![5, 6]);
    assert_eq!(groups[2].node_ids, vec![0, 1, 2]);
    for g in &groups {
        check_totals(g);
    }
    // The same graph gives the same list
    let again = analyzer.find_duplicates();
    assert_eq!(again.len(), groups.len());
    for (a, b) in again.iter().zip(groups.iter()) {
        assert_eq!(a.hash, b.hash);
        assert_eq!(a.node_ids, b.node_ids);
    }
    let strings = analyzer.find_duplicate_strings();
    assert_eq!(strings.iter().map(|g| g.total_wasted).collect::<Vec<_>>(), vec![100, 20, 10]);
    let objects = analyzer.find_duplicate_objects();
    assert_eq!(objects.len(), 1);
}

#[test]
fn test_groups_that_waste_the_same_go_by_hash() {
    let mut graph = graph_with_strings(&["", "a", "b"]);
    graph.node_types.extend(&[2, 2, 2, 2]);
    graph.node_names.extend(&[1, 2, 1, 2]);
    graph.node_ids.extend(&[1, 2, 3, 4]);
    graph.node_sizes.extend(&[8, 8, 8, 8]);
    graph.node_edge_ranges.extend(&[(0, 0); 4]);
    let analyzer = DuplicateAnalyzer::new(graph, false);
    let groups = analyzer.find_duplicates();
    assert_eq!(groups.len(), 2);
    assert!(groups[0].hash < groups[1].hash);
}

#[test]
fn test_sample_values() {
    let long: String = "x".repeat(150);
    let mut graph = graph_with_strings(&["", "a\nb", &long, "Obj", "k1", "k2", "k3", "k4", "k5", "k6"]);
    graph.node_types.extend(&[2, 2, 3, 3, 7, 2]);
    graph.node_names.extend(&[1, 2, 3, 3, 3, 99]);
    graph.node_ids.extend(&[1, 2, 3, 4, 5, 6]);
    graph.node_sizes.extend(&[1, 1, 1, 1, 1, 1]);
    graph.node_edge_ranges.extend(&[(0, 0), (0, 0), (0, 7), (7, 7), (7, 7), (7, 7)]);
    // Six named edges to node 0, and between them one whose name is not a string
    graph.edge_types.extend(&[2, 2, 2, 2, 2, 2, 2]);
    graph.edge_names.extend(&[4, 5, 99, 6, 7, 8, 9]);
    graph.edge_targets.extend(&[0, 3, 0, 0, 0, 0, 0]);

    let analyzer = DuplicateAnalyzer::new(graph, false);
    assert_eq!(analyzer.get_sample_value(0), Some("\"a\\nb\"".to_string()));
    assert_eq!(analyzer.get_sample_value(1), Some(format!("\"{}...\"", "x".repeat(100))));
    assert_eq!(
        analyzer.get_sample_value(2),
        Some("{ k1: a\nb, k2: Obj, k3: a\nb, k4: a\nb }".to_string())
    );
    assert_eq!(analyzer.get_sample_value(3), Some("{}".to_string()));
    assert_eq!(analyzer.get_sample_value(4), None);
    assert_eq!(analyzer.get_sample_value(5), None);
    assert_eq!(analyzer.get_sample_value(50), None);
    assert_eq!(analyzer.calculate_total_size(50), 0);
}

#[test]
fn test_enrich_with_retained_sizes() {
    let mut graph = graph_with_strings(&["", "dup"]);
    graph.node_types.extend(&[2, 2]);
    graph.node_names.extend(&[1, 1]);
    graph.node_ids.extend(&[1, 2]);
    graph.node_sizes.extend(&[48, 48]);
    graph.node_edge_ranges.extend(&[(0, 0), (0, 0)]);
    let analyzer = DuplicateAnalyzer::new(graph, false);
    let mut groups = analyzer.find_duplicates();
    let mut sizes = HashMap::new();
    DuplicateAnalyzer::enrich_with_retained_sizes(&mut groups, &sizes);
    assert_eq!(groups[0].owned_retained_size, None);
    sizes.insert(0, RetainedSize { owned: 70, shared: 3 });
    DuplicateAnalyzer::enrich_with_retained_sizes(&mut groups, &sizes);
    assert_eq!(groups[0].owned_retained_size, Some(70));
    assert_eq!(groups[0].shared_retained_size, Some(3));
}

#[test]
fn test_analyze_graph() {
    let mut graph = graph_with_strings(&["", "dup", "Root", "held"]);
    graph.node_types.extend(&[9, 2, 2, 4]);
    graph.node_names.extend(&[2, 1, 1, 2]);
    graph.node_ids.extend(&[1, 2, 3, 4]);
    graph.node_sizes.extend(&[0, 30, 30, 12]);
    graph.node_edge_ranges.extend(&[(0, 2), (2, 2), (2, 2), (2, 2)]);
    graph.edge_types.extend(&[2, 2]);
    graph.edge_names.extend(&[3, 3]);
    graph.edge_targets.extend(&[1, 2]);
    graph.gc_roots.push(0);

    let results = analyze_graph(graph, false).unwrap();
    assert_eq!(results.duplicate_groups.len(), 1);
    assert_eq!(results.duplicate_groups[0].total_wasted, 30);
    assert_eq!(results.hidden_class_groups.len(), 1);
    assert_eq!(results.hidden_class_groups[0].object_type, "Root");
    let paths = &results.retention_paths[&1];
    assert_eq!(paths.len(), 1);
    assert_eq!(paths[0].nodes, vec![0, 1]);
    assert_eq!(paths[0].edge_names, vec!["held".to_string()]);

    let mut broken = graph_with_strings(&[""]);
    broken.node_types.push(3);
    assert!(matches!(analyze_graph(broken, false), Err(AnalyzerError::InvalidFormat(_))));
}

#[test]
fn test_retention_paths_for_top_groups_only() {
    let graph = object_graph(&[1, 1, 1], &[(0, 1), (0, 2)], &[0]);
    let group = |representative: u32| DuplicateGroup {
        hash: representative as u64,
        object_type: "node".to_string(),
        count: 2,
        size_per_object: 1,
        total_wasted: 1,
        representative,
        node_ids: vec![representative, representative],
        sample_value: None,
        owned_retained_size: None,
        shared_retained_size: None,
    };
    let groups = vec![group(1), group(2)];
    let paths = find_retention_paths_for_groups(&graph, &groups, 1, 3);
    assert_eq!(paths.len(), 1);
    assert_eq!(paths[&1][0].nodes, vec![0, 1]);
    let paths = find_retention_paths_for_groups(&graph, &groups, 10, 3);
    assert_eq!(paths.len(), 2);
}

#[test]
fn test_a_thousand_long_strings() {
    let long = "x".repeat(100);
    let mut graph = graph_with_strings(&["", &long, "Root", "held", "one of a kind"]);
    graph.node_types.push(9);
    graph.node_names.push(2);
    graph.node_ids.push(1);
    graph.node_sizes.push(0);
    graph.node_edge_ranges.push((0, 1001));
    for k in 0..1000u32 {
        graph.node_types.push(2);
        graph.node_names.push(1);
        graph.node_ids.push(2 + k);
        graph.node_sizes.push(112);
        graph.node_edge_ranges.push((1001, 1001));
        graph.edge_types.push(2);
        graph.edge_names.push(3);
        graph.edge_targets.push(1 + k);
    }
    graph.node_types.push(2);
    graph.node_names.push(4);
    graph.node_ids.push(1002);
    graph.node_sizes.push(40);
    graph.node_edge_ranges.push((1001, 1001));
    graph.edge_types.push(2);
    graph.edge_names.push(3);
    graph.edge_targets.push(1001);
    graph.gc_roots.push(0);

    let results = analyze_graph(graph, false).unwrap();
    assert!(!results.duplicate_groups.is_empty(), "No duplicate groups found");
    assert_eq!(results.duplicate_groups.len(), 1);
    let group = &results.duplicate_groups[0];
    assert_eq!(group.count, 1000);
    assert_eq!(group.total_wasted, 999 * 112);
    assert!(group.total_wasted > 20000);
    assert_eq!(group.sample_value, Some(format!("\"{}\"", long)));
    check_totals(group);
    let paths = &results.retention_paths[&group.representative];
    assert_eq!(paths.len(), 1);
    assert_eq!(paths[0].nodes, vec![0, 1]);
}

#[test]
fn test_strings_outside_ascii() {
    let mut graph = graph_with_strings(&["", "sn\u{f6}w \u{2603} \u{1f600}", "plain"]);
    graph.node_types.extend(&[2, 2, 2, 2]);
    graph.node_names.extend(&[1, 1, 1, 2]);
    graph.node_ids.extend(&[1, 2, 3, 4]);
    graph.node_sizes.extend(&[64, 64, 64, 16]);
    graph.node_edge_ranges.extend(&[(0, 0), (0, 0), (0, 0), (0, 0)]);

    let results = analyze_graph(graph, false).unwrap();
    assert_eq!(results.duplicate_groups.len(), 1);
    let group = &results.duplicate_groups[0];
    assert_eq!(group.count, 3);
    assert_eq!(group.total_wasted, 128);
    assert_eq!(group.sample_value, Some("\"sn?w ? ?\"".to_string()));
    assert!(results.retention_paths.is_empty());
}
