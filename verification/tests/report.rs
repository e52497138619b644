use std::collections::HashMap;
use std::sync::Arc;
use v8_heap_analyzer::analysis::duplicates::DuplicateGroup;
use v8_heap_analyzer::analysis::hidden_classes::HiddenClassGroup;
use v8_heap_analyzer::graph::CompactGraph;
use v8_heap_analyzer::parser::StringTable;
use v8_heap_analyzer::paths::RetentionPath;
use v8_heap_analyzer::report::generator::ReportGenerator;
use v8_heap_analyzer::utils::format_bytes;

fn group(object_type: &str, count: usize, size: u64, wasted: u64, representative: u32) -> DuplicateGroup {
    DuplicateGroup {
        hash: 123,
        object_type: object_type.to_string(),
        count,
        size_per_object: size,
        total_wasted: wasted,
        representative,
        node_ids: vec![0, 1, 2],
        sample_value: None,
        owned_retained_size: None,
        shared_retained_size: None,
    }
}

#[test]
fn test_generate_text_report() {
    let strings = vec!["".to_string(), "test".to_string()];
    let string_table = Arc::new(StringTable::new(strings));
    let graph = CompactGraph::new(string_table);

    let groups = vec![group("String", 10, 48, 432, 0)];

    let generator = ReportGenerator::new(&graph, groups, vec![], HashMap::new());
    let report = generator.generate_text_report(10);

    assert!(report.contains("V8 Heap Snapshot Analysis"));
    assert!(report.contains("String"));
    assert!(report.contains("432 bytes"));
}

#[test]
fn test_text_report_in_full() {
    let strings = vec!["".to_string(), "Window".to_string(), "cache".to_string()];
    let mut graph = CompactGraph::new(Arc::new(StringTable::new(strings)));
    graph.node_types.extend(&[9, 3]);
    graph.node_names.extend(&[1, 2]);
    graph.node_ids.extend(&[1, 2]);
    graph.node_sizes.extend(&[0, 48]);
    graph.node_edge_ranges.extend(&[(0, 0), (0, 0)]);

    let groups = vec![group("String", 10, 48, 432, 1), group("Point", 2, 7, 7, 0)];
    let classes = vec![HiddenClassGroup {
        object_type: "User".to_string(),
        hidden_class_count: 2,
        total_hidden_class_memory: 200,
        hidden_classes: vec![4, 5],
    }];
    let mut paths = HashMap::new();
    paths.insert(
        1,
        vec![RetentionPath {
            length: 3,
            nodes: vec![0, 1, 9],
            edge_types: vec![2, 2],
            edge_names: vec!["held".to_string(), "lost".to_string()],
        }],
    );
    let generator = ReportGenerator::new(&graph, groups, classes, paths);
    assert_eq!(generator.total_wasted(), 439);
    let expected = "V8 Heap Snapshot Analysis\n\
==========================\n\
\n\
Summary:\n\
- Total Objects: 2\n\
- Duplicate Groups Found: 2\n\
- Total Wasted Memory: 439 bytes\n\
\n\
Top 1 Duplicate Groups (by memory impact):\n\
-------------------------------------------\n\
\n\
1. String\n   Count: 10 duplicates\n   Size: 48 bytes each\n   Total Wasted: 432 bytes\n   Retention Path:\n      Window\n        .held\n        cache\n          .lost\n          unknown\n\
\n\
Top 1 Object Types by Hidden Class Memory:\n\
--------------------------------------------\n\
\n\
1. User\n   Hidden Classes: 2\n   Total Memory: 200 bytes\n\
\n";
    assert_eq!(generator.generate_text_report(1), expected);
}

#[test]
fn test_format_bytes() {
    assert_eq!(format_bytes(500), "500b");
    assert_eq!(format_bytes(1024), "1.00k");
    assert_eq!(format_bytes(1536), "1.50k");
    assert_eq!(format_bytes(1048576), "1.00M");
    assert_eq!(format_bytes(1073741824), "1.00G");
}

#[test]
fn test_format_bytes_rounds_to_hundredths() {
    assert_eq!(format_bytes(0), "0b");
    assert_eq!(format_bytes(1023), "1023b");
    assert_eq!(format_bytes(1029), "1.00k");
    assert_eq!(format_bytes(1030), "1.01k");
    assert_eq!(format_bytes(1048575), "1024.00k");
    assert_eq!(format_bytes(123456789), "117.74M");
    assert_eq!(format_bytes(usize::MAX), "17179869184.00G");
}
