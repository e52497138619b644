use v8_heap_analyzer::analysis::all_paths::find_root_paths;
use v8_heap_analyzer::analysis::dominator_tree::{tree_from_immediate_dominators, DominatorTree};
use v8_heap_analyzer::graph::gexf::{write_gexf, xml_quote};
use v8_heap_analyzer::graph::gml::write_gml;
use v8_heap_analyzer::graph::lengauer_tarjan::lengauer_tarjan;
use v8_heap_analyzer::graph::v8_heap_graph::{NodeType, V8HeapGraph};
use v8_heap_analyzer::report::explorer::{
    build_ui_tree, flatten_tree, inspector_text, AppAction, ExpandedSet, ExplorerState, Focus, Key,
    UiTreeId, UiTreeNode,
};
use v8_heap_analyzer::report::groups::{
    build_explorer_tree, find_groups_in_ui_tree, first_like_slots, group_children,
};
use v8_heap_analyzer::report::{
    detailed_node_repr, fmt_edge, format_retention_paths, is_passed_over, minimal_node_repr,
    print_dominator_tree, print_edges, show_node,
};
use v8_heap_analyzer::snapshot::{Snapshot, SnapshotFile, SnapshotMetadata, SnapshotType};
use v8_heap_analyzer::utils::format_bytes;

fn words(names: &[&str]) -> Vec<String> {
    names.iter().map(|s| s.to_string()).collect()
}

/// A heap graph of nodes given as (type, name, self size) and edges given
/// as (from, type, name or index, to).
fn heap_of(nodes: &[(u32, u32, u32)], edges: &[(u32, u32, u32, u32)], strings: &[&str]) -> V8HeapGraph {
    let mut flat_nodes = vec![];
    let mut flat_edges = vec![];
    for (n, node) in nodes.iter().enumerate() {
        let out = edges.iter().filter(|e| e.0 as usize == n).count() as u32;
        flat_nodes.extend([node.0, node.1, 100 + n as u32, node.2, out]);
        for e in edges.iter().filter(|e| e.0 as usize == n) {
            flat_edges.extend([e.1, e.2, e.3 * 5]);
        }
    }
    let file = SnapshotFile {
        snapshot: Snapshot {
            meta: SnapshotMetadata {
                edge_fields: words(&["type", "name_or_index", "to_node"]),
                edge_types: vec![
                    SnapshotType::Strs(words(&[
                        "context", "element", "property", "internal", "hidden", "shortcut", "weak",
                    ])),
                    SnapshotType::Str("string_or_number".to_string()),
                    SnapshotType::Str("node".to_string()),
                ],
                location_fields: vec![],
                node_fields: words(&["type", "name", "id", "self_size", "edge_count"]),
                node_types: vec![
                    SnapshotType::Strs(words(&[
                        "hidden",
                        "array",
                        "string",
                        "object",
                        "code",
                        "closure",
                        "regexp",
                        "number",
                        "native",
                        "synthetic",
                        "concatenated string",
                        "sliced string",
                        "symbol",
                        "bigint",
                        "object shape",
                    ])),
                    SnapshotType::Str("string".to_string()),
                ],
                sample_fields: vec![],
                trace_function_info_fields: vec![],
                trace_node_fields: vec![],
            },
            node_count: nodes.len(),
            edge_count: edges.len(),
            trace_function_count: 0,
            extra_native_bytes: 0,
        },
        nodes: flat_nodes,
        edges: flat_edges,
        locations: vec![],
        strings: words(strings),
    };
    V8HeapGraph::from_snapshot(file).unwrap()
}

const WORDS: [&str; 13] = [
    "(GC roots)",
    "Window",
    "text\n",
    "cons",
    "global",
    "first",
    "second",
    "elements",
    "Array",
    "run",
    "parent",
    "name",
    "tag",
];

/// A window with a function, a string made of two, a string and a symbol;
/// and an array of a string and a number.
fn window() -> V8HeapGraph {
    let nodes = [
        (9, 0, 0),
        (3, 1, 24),
        (2, 2, 16),
        (10, 3, 8),
        (3, 8, 32),
        (1, 1, 40),
        (7, 3, 4),
        (5, 9, 64),
        (11, 3, 8),
        (12, 3, 8),
    ];
    let edges = [
        (0, 2, 4, 1),
        (0, 2, 12, 4),
        (1, 2, 9, 7),
        (1, 2, 5, 3),
        (1, 1, 7, 2),
        (1, 2, 11, 9),
        (3, 3, 5, 2),
        (3, 3, 6, 8),
        (4, 3, 7, 5),
        (4, 1, 0, 2),
        (4, 1, 1, 6),
        (8, 3, 10, 2),
        (9, 3, 11, 2),
    ];
    heap_of(&nodes, &edges, &WORDS)
}

fn text_of(chars: Vec<char>) -> String {
    chars.into_iter().collect()
}

#[test]
fn test_minimal_node_repr() {
    let graph = window();
    assert_eq!(minimal_node_repr(0, &graph), "(GC roots)");
    assert_eq!(minimal_node_repr(1, &graph), "Window { run, first, name }");
    assert_eq!(minimal_node_repr(2, &graph), "\"text\\n\"");
    assert_eq!(minimal_node_repr(3, &graph), "\"text\\n\" + <slice of \"text\\n\">");
    assert_eq!(minimal_node_repr(4, &graph), "Array [ \"text\\n\", <a number> ]");
    assert_eq!(minimal_node_repr(5, &graph), "array:Window");
    assert_eq!(minimal_node_repr(6, &graph), "<a number>");
    assert_eq!(minimal_node_repr(7, &graph), "function run()");
    assert_eq!(minimal_node_repr(8, &graph), "<slice of \"text\\n\">");
    assert_eq!(minimal_node_repr(9, &graph), "symbol \"text\\n\"");
}

#[test]
fn test_minimal_node_repr_of_lost_parts_and_cycles() {
    // A string made of two that has lost one, a slice and a symbol without
    // theirs, and a string made of itself
    let nodes = [(9, 0, 0), (10, 1, 8), (11, 1, 8), (12, 1, 8), (10, 1, 8), (13, 1, 8)];
    let edges = [
        (0, 2, 2, 1),
        (0, 2, 2, 2),
        (0, 2, 2, 3),
        (0, 2, 2, 4),
        (0, 2, 2, 5),
        (1, 3, 3, 0),
        (4, 3, 3, 4),
        (4, 3, 4, 0),
    ];
    let graph = heap_of(&nodes, &edges, &["(GC roots)", "s", "p", "first", "second"]);
    assert_eq!(minimal_node_repr(1, &graph), "<string of lost parts>");
    assert_eq!(minimal_node_repr(2, &graph), "<slice of a lost string>");
    assert_eq!(minimal_node_repr(3, &graph), "unnamed symbol");
    assert_eq!(minimal_node_repr(5, &graph), "<a bigint>");
    let wound = minimal_node_repr(4, &graph);
    assert!(wound.starts_with("... + ... + (GC roots) + (GC roots)"));
    assert_eq!(wound.len(), 9 + 63 * " + (GC roots)".len());
}

#[test]
fn test_detailed_node_repr() {
    let graph = window();
    assert_eq!(
        detailed_node_repr(0, &graph),
        "(GC roots)\n\n  -[property:global]-> 1  Window { run, first, name }\n  \
         -[property:tag]-> 4  Array [ \"text\\n\", <a number> ]\n"
    );
    assert_eq!(
        detailed_node_repr(1, &graph),
        "Window\n\n  run: function run()\n  first: \"text\\n\" + <slice of \"text\\n\">\n  \
         name: symbol \"text\\n\"\n"
    );
    assert_eq!(detailed_node_repr(2, &graph), "\"text\\n\"");
    assert_eq!(detailed_node_repr(3, &graph), "\"text\\n\" + <slice of \"text\\n\">");
    assert_eq!(
        detailed_node_repr(4, &graph),
        "Array (2 elements)\n\n - \"text\\n\"\n - <a number>\n"
    );
    assert_eq!(detailed_node_repr(6, &graph), "<a number>");
    assert_eq!(detailed_node_repr(7, &graph), "function run()\n\n");
    assert_eq!(detailed_node_repr(9, &graph), "symbol \"text\\n\"");
}

#[test]
fn test_print_edges_and_show_node() {
    let graph = window();
    let mut out: Vec<char> = "edges:\n".chars().collect();
    print_edges(&mut out, 3, &graph);
    assert_eq!(
        text_of(out),
        "edges:\n  -[internal:first]-> 2  \"text\\n\"\n  -[internal:second]-> 8  <slice of \
         \"text\\n\">\n"
    );
    assert_eq!(show_node(graph.node(3)), "internal first 2, internal second 8");
    assert_eq!(show_node(graph.node(4)), "internal elements 5, element 0 2, element 1 6");
    assert_eq!(show_node(graph.node(2)), "");
}

#[test]
fn test_fmt_edge_and_retention_paths() {
    let graph = window();
    let mut out: Vec<char> = Vec::new();
    fmt_edge(&mut out, &graph.edge(0));
    fmt_edge(&mut out, &graph.edge(4));
    fmt_edge(&mut out, &graph.edge(6));
    assert_eq!(text_of(out), ".global[7](internal/first)");

    let paths = find_root_paths(&graph, 0);
    let mut out: Vec<char> = Vec::new();
    format_retention_paths(&mut out, 2, &paths, &graph);
    format_retention_paths(&mut out, 8, &paths, &graph);
    format_retention_paths(&mut out, 6, &paths, &graph);
    format_retention_paths(&mut out, 77, &paths, &graph);
    assert_eq!(text_of(out), ".global[7]\n.global.first(internal/second)\n.tag[1]\n");

    // A node that the root does not reach has no way to it
    let apart = heap_of(&[(9, 0, 0), (3, 0, 8)], &[(1, 2, 0, 0)], &["(GC roots)"]);
    let paths = find_root_paths(&apart, 0);
    let mut out: Vec<char> = Vec::new();
    format_retention_paths(&mut out, 1, &paths, &apart);
    assert_eq!(text_of(out), "");
}

#[test]
fn test_xml_quote() {
    assert_eq!(xml_quote("a<b>&\"c\"'d'"), "a&lt;b&gt;&amp;&quot;c&quot;&apos;d&apos;");
    assert_eq!(xml_quote("&amp;"), "&amp;amp;");
    assert_eq!(xml_quote("plain"), "plain");
    assert_eq!(xml_quote(""), "");
}

#[test]
fn test_write_gexf_and_gml() {
    let graph = heap_of(&[(9, 0, 0), (2, 1, 8)], &[(0, 2, 2, 1)], &["(GC roots)", "a<b", "x&y"]);
    let mut out: Vec<char> = Vec::new();
    write_gexf(&mut out, &graph);
    assert_eq!(
        text_of(out),
        "<?xml version=\"1.0\" encoding=\"UTF-8\"?>\n\
         <gexf xmlns=\"http://gexf.net/1.2\" version=\"1.2\">\n\
         <graph mode=\"static\" defaultedgetype=\"directed\">\n    <nodes>\n        \
         <node id=\"0\" label=\"synthetic:(GC roots)\" />\n        \
         <node id=\"1\" label=\"string:&quot;a&lt;b&quot;\" />\n    </nodes>\n    <edges>\n        \
         <edge id=\"0\" source=\"0\" target=\"1\" label=\"property:x&amp;y (2)\" />\n    \
         </edges>\n</graph>\n</gexf>\n"
    );
    let mut out: Vec<char> = Vec::new();
    write_gml(&mut out, &graph);
    assert_eq!(
        text_of(out),
        "graph [\n  node [\n    id 0\n    label \"synthetic:(GC roots)\"\n  ]\n  node [\n    \
         id 1\n    label \"string:&quot;a&lt;b&quot;\"\n  ]\n  edge [\n    source 0\n    \
         target 1\n    label \"property:x&amp;y\"\n  ]\n]\n"
    );
}

/// A root above two rooms, a hall and a hidden node, and in the hall two
/// chairs.
fn house() -> (V8HeapGraph, DominatorTree) {
    let nodes = [
        (9, 0, 0),
        (3, 1, 10),
        (3, 1, 30),
        (3, 2, 20),
        (0, 3, 5),
        (3, 3, 1),
        (3, 3, 2),
    ];
    let edges = [
        (0, 2, 4, 1),
        (0, 2, 4, 2),
        (0, 2, 4, 3),
        (0, 2, 4, 4),
        (3, 2, 4, 5),
        (3, 2, 4, 6),
    ];
    let graph = heap_of(&nodes, &edges, &["(GC roots)", "Room", "Hall", "Chair", "in"]);
    let idom = lengauer_tarjan(&graph, &[0]);
    let tree = tree_from_immediate_dominators(&idom, &graph);
    (graph, tree)
}

fn ids_of(nodes: &[UiTreeNode]) -> Vec<UiTreeId> {
    nodes.iter().map(|n| n.id).collect()
}

#[test]
fn test_build_ui_tree() {
    let (graph, tree) = house();
    let root = build_ui_tree(0, &tree, &graph);
    assert_eq!(root.id, UiTreeId::Heap(0));
    assert_eq!(root.label, "(GC roots)");
    assert_eq!(root.retained_size, 68);
    // The rooms by what they retain; the hidden node is left out
    assert_eq!(
        ids_of(&root.children),
        vec![UiTreeId::Heap(2), UiTreeId::Heap(3), UiTreeId::Heap(1)]
    );
    let hall = &root.children[1];
    assert_eq!(hall.label, "Hall { in, in }");
    assert_eq!(hall.retained_size, 23);
    assert_eq!(ids_of(&hall.children), vec![UiTreeId::Heap(6), UiTreeId::Heap(5)]);
    assert_eq!(hall.children[0].label, "Chair {  }");
    assert!(hall.children[0].children.is_empty());
    assert_eq!(root.children[2].label, "Room {  }");
    assert_eq!(root.children[2].retained_size, 10);
    assert!(is_passed_over(NodeType::Hidden));
    assert!(is_passed_over(NodeType::Array));
    assert!(!is_passed_over(NodeType::Object));
    assert!(!is_passed_over(NodeType::String));
}

#[test]
fn test_nodes_that_retain_the_same_come_by_number() {
    let nodes = [(9, 0, 0), (3, 1, 8), (3, 1, 8), (3, 1, 9), (3, 1, 8)];
    let edges = [(0, 2, 2, 1), (0, 2, 2, 2), (0, 2, 2, 3), (0, 2, 2, 4)];
    let graph = heap_of(&nodes, &edges, &["(GC roots)", "X", "in"]);
    let idom = lengauer_tarjan(&graph, &[0]);
    let tree = tree_from_immediate_dominators(&idom, &graph);
    let root = build_ui_tree(0, &tree, &graph);
    assert_eq!(
        ids_of(&root.children),
        vec![UiTreeId::Heap(3), UiTreeId::Heap(1), UiTreeId::Heap(2), UiTreeId::Heap(4)]
    );
}

#[test]
fn test_print_dominator_tree() {
    let (graph, tree) = house();
    assert_eq!(
        print_dominator_tree(&tree, &graph),
        "[100]  (GC roots)  (68b)\n    [102]  Room {  }  (30b)\n    [103]  Hall { in, in }  \
         (23b)\n        [106]  Chair {  }  (2b)\n        [105]  Chair {  }  (1b)\n    \
         [101]  Room {  }  (10b)\n"
    );
}

#[test]
fn test_printed_tree_shows_twenty_children() {
    let mut nodes = vec![(9, 0, 0)];
    let mut edges = vec![];
    for k in 1..=25u32 {
        nodes.push((3, 1, k));
        edges.push((0, 2, 2, k));
    }
    let graph = heap_of(&nodes, &edges, &["(GC roots)", "X", "in"]);
    let idom = lengauer_tarjan(&graph, &[0]);
    let tree = tree_from_immediate_dominators(&idom, &graph);
    let text = print_dominator_tree(&tree, &graph);
    let lines: Vec<&str> = text.lines().collect();
    assert_eq!(lines.len(), 21);
    assert_eq!(lines[1], "    [125]  X {  }  (25b)");
    assert_eq!(lines[20], "    [106]  X {  }  (6b)");
}

fn leaf(id: u32, label: &str, retained_size: usize) -> UiTreeNode {
    UiTreeNode { id: UiTreeId::Heap(id), label: label.to_string(), retained_size, children: vec![] }
}

#[test]
fn test_first_like_slots() {
    let children = vec![
        leaf(1, "a", 1),
        leaf(2, "b", 1),
        leaf(3, "a", 1),
        leaf(4, "c", 1),
        leaf(5, "b", 1),
        leaf(6, "a", 1),
    ];
    assert_eq!(first_like_slots(&children), vec![0, 1, 0, 3, 1, 0]);
    assert_eq!(first_like_slots(&vec![]), Vec::<usize>::new());
}

#[test]
fn test_group_children() {
    let children = vec![
        leaf(1, "a", 10),
        leaf(2, "b", 25),
        leaf(3, "a", 7),
        leaf(4, "c", 1),
        leaf(5, "a", 3),
    ];
    let mid = group_children(children);
    assert_eq!(
        ids_of(&mid),
        vec![UiTreeId::Heap(2), UiTreeId::Group(1), UiTreeId::Heap(4)]
    );
    let group = &mid[1];
    assert_eq!(group.label, "<Group> 3 instances of a");
    assert_eq!(group.retained_size, 20);
    assert_eq!(
        ids_of(&group.children),
        vec![UiTreeId::Heap(1), UiTreeId::Heap(3), UiTreeId::Heap(5)]
    );

    // Where no two nodes have the same label the list stays as it is
    let children = vec![leaf(1, "a", 1), leaf(2, "b", 5), leaf(3, "c", 3)];
    let mid = group_children(children);
    assert_eq!(ids_of(&mid), vec![UiTreeId::Heap(1), UiTreeId::Heap(2), UiTreeId::Heap(3)]);

    // What a group retains stops at what a counter holds
    let children = vec![leaf(1, "a", usize::MAX - 1), leaf(2, "a", 5)];
    let mid = group_children(children);
    assert_eq!(mid.len(), 1);
    assert_eq!(mid[0].retained_size, usize::MAX);
}

#[test]
fn test_find_groups_in_ui_tree() {
    let (graph, tree) = house();
    let root = find_groups_in_ui_tree(build_ui_tree(0, &tree, &graph));
    assert_eq!(root.id, UiTreeId::Heap(0));
    assert_eq!(root.label, "(GC roots)");
    assert_eq!(ids_of(&root.children), vec![UiTreeId::Group(2), UiTreeId::Heap(3)]);
    let rooms = &root.children[0];
    assert_eq!(rooms.label, "<Group> 2 instances of Room {  }");
    assert_eq!(rooms.retained_size, 40);
    assert_eq!(ids_of(&rooms.children), vec![UiTreeId::Heap(2), UiTreeId::Heap(1)]);
    // Below the other nodes the nodes are gathered too
    let hall = &root.children[1];
    assert_eq!(hall.label, "Hall { in, in }");
    assert_eq!(ids_of(&hall.children), vec![UiTreeId::Group(6)]);
    assert_eq!(hall.children[0].label, "<Group> 2 instances of Chair {  }");
    assert_eq!(hall.children[0].retained_size, 3);
    assert_eq!(
        ids_of(&hall.children[0].children),
        vec![UiTreeId::Heap(6), UiTreeId::Heap(5)]
    );

    let again = build_explorer_tree(0, &tree, &graph);
    assert_eq!(ids_of(&again.children), ids_of(&root.children));
}

fn rows_of(state: &ExplorerState) -> Vec<(UiTreeId, usize)> {
    state.flat_list.iter().map(|row| (row.node.id, row.depth)).collect()
}

#[test]
fn test_flatten_tree() {
    let (graph, tree) = house();
    let root = build_explorer_tree(0, &tree, &graph);
    let mut expanded = ExpandedSet::new();
    let rows = flatten_tree(&root, &expanded);
    assert_eq!(rows.len(), 1);
    expanded.insert(UiTreeId::Heap(0));
    expanded.insert(UiTreeId::Group(6));
    assert!(expanded.contains(&UiTreeId::Group(6)));
    assert!(!expanded.contains(&UiTreeId::Heap(6)));
    // A node that stands open below one that is shut is not shown
    let rows = flatten_tree(&root, &expanded);
    let seen: Vec<(UiTreeId, usize)> = rows.iter().map(|row| (row.node.id, row.depth)).collect();
    assert_eq!(seen, vec![(UiTreeId::Heap(0), 0), (UiTreeId::Group(2), 1), (UiTreeId::Heap(3), 1)]);
    expanded.insert(UiTreeId::Heap(3));
    expanded.insert(UiTreeId::Group(2));
    let rows = flatten_tree(&root, &expanded);
    let seen: Vec<(UiTreeId, usize)> = rows.iter().map(|row| (row.node.id, row.depth)).collect();
    assert_eq!(
        seen,
        vec![
            (UiTreeId::Heap(0), 0),
            (UiTreeId::Group(2), 1),
            (UiTreeId::Heap(2), 2),
            (UiTreeId::Heap(1), 2),
            (UiTreeId::Heap(3), 1),
            (UiTreeId::Group(6), 2),
            (UiTreeId::Heap(6), 3),
            (UiTreeId::Heap(5), 3),
        ]
    );
    expanded.remove(&UiTreeId::Group(6));
    assert_eq!(flatten_tree(&root, &expanded).len(), 6);

    assert_eq!(rows[1].lead(&expanded), "  \u{25bc} ");
    assert_eq!(rows[2].lead(&expanded), "      ");
    assert_eq!(rows[5].lead(&expanded), "    \u{25b6} ");
    assert_eq!(rows[1].size_text(), "    40b  ");
    assert_eq!(rows[1].size_text(), format!("{:>7}  ", format_bytes(40)));
    let big = leaf(1, "big", 123_456_789_012);
    let rows = flatten_tree(&big, &expanded);
    assert_eq!(rows[0].size_text(), format!("{:>7}  ", format_bytes(123_456_789_012)));
    expanded.remove(&UiTreeId::Heap(0));
    assert_eq!(flatten_tree(&root, &expanded).len(), 1);
}

#[test]
fn test_explorer_selection() {
    let (graph, tree) = house();
    let root = build_explorer_tree(0, &tree, &graph);
    let mut state = ExplorerState::new(&root);
    assert_eq!(
        rows_of(&state),
        vec![(UiTreeId::Heap(0), 0), (UiTreeId::Group(2), 1), (UiTreeId::Heap(3), 1)]
    );
    assert_eq!(state.selected, 0);
    assert_eq!(state.selected_id(), UiTreeId::Heap(0));
    assert_eq!(state.focus, Focus::Tree);
    assert!(!state.info_open);

    state.set_height(7);
    assert_eq!(state.height, 2);
    state.set_height(3);
    assert_eq!(state.height, 0);
    state.set_height(7);
    assert_eq!(state.visible_rows(), (0, 2));

    state.move_selection(1);
    assert_eq!(state.selected_id(), UiTreeId::Group(2));
    state.inspector_scroll_offset = 4;
    state.move_selection(5);
    assert_eq!(state.selected, 2);
    assert_eq!(state.tree_scroll_offset, 1);
    assert_eq!(state.inspector_scroll_offset, 0);
    assert_eq!(state.visible_rows(), (1, 3));
    state.inspector_scroll_offset = 4;
    state.set_selection(2);
    assert_eq!(state.inspector_scroll_offset, 4);
    state.move_selection(-1);
    assert_eq!(state.selected, 1);
    assert_eq!(state.tree_scroll_offset, 1);
    state.move_selection(isize::MIN);
    assert_eq!(state.selected, 0);
    assert_eq!(state.tree_scroll_offset, 0);
    state.move_selection(isize::MAX);
    assert_eq!(state.selected, 2);
    assert_eq!(state.selected_node().label, "Hall { in, in }");
}

#[test]
fn test_explorer_opens_and_shuts() {
    let (graph, tree) = house();
    let root = build_explorer_tree(0, &tree, &graph);
    let mut state = ExplorerState::new(&root);

    state.set_selection(1);
    state.expand_selected();
    assert_eq!(state.flat_list.len(), 5);
    state.expand_selected();
    assert_eq!(state.flat_list.len(), 5);
    state.toggle_selected();
    assert_eq!(state.flat_list.len(), 3);
    state.toggle_selected();
    assert_eq!(state.flat_list.len(), 5);

    // A node without children does not open
    state.set_selection(2);
    assert_eq!(state.selected_id(), UiTreeId::Heap(2));
    state.toggle_selected();
    state.expand_selected();
    assert_eq!(state.flat_list.len(), 5);
    assert!(!state.expanded.contains(&UiTreeId::Heap(2)));

    // From a child to its parent, which is shut
    state.set_selection(3);
    assert_eq!(state.selected_id(), UiTreeId::Heap(1));
    state.collapse_selected();
    assert_eq!(state.selected, 1);
    assert_eq!(state.flat_list.len(), 3);
    assert!(!state.expanded.contains(&UiTreeId::Group(2)));

    // An open node is shut itself
    state.set_selection(0);
    state.collapse_selected();
    assert_eq!(state.flat_list.len(), 1);
    assert_eq!(state.selected, 0);
    // The root has no parent
    state.collapse_selected();
    assert_eq!(state.flat_list.len(), 1);
    state.update_flat_list();
    assert_eq!(state.flat_list.len(), 1);
}

#[test]
fn test_explorer_keys() {
    let (graph, tree) = house();
    let root = build_explorer_tree(0, &tree, &graph);
    let mut state = ExplorerState::new(&root);
    state.set_height(8);

    assert_eq!(state.handle_key(Key::Down), AppAction::Continue);
    assert_eq!(state.selected, 1);
    assert_eq!(state.handle_key(Key::Char('l')), AppAction::Continue);
    assert_eq!(state.flat_list.len(), 5);
    state.handle_key(Key::Char('J'));
    assert_eq!(state.selected, 4);
    state.handle_key(Key::Char('k'));
    assert_eq!(state.selected, 3);
    state.handle_key(Key::Left);
    assert_eq!(state.selected, 1);
    assert_eq!(state.flat_list.len(), 3);
    state.handle_key(Key::Enter);
    assert_eq!(state.flat_list.len(), 5);
    state.handle_key(Key::Char(' '));
    assert_eq!(state.flat_list.len(), 3);
    state.handle_key(Key::PageDown);
    assert_eq!(state.selected, 2);
    state.handle_key(Key::Char('g'));
    assert_eq!(state.selected, 0);
    state.handle_key(Key::Other);
    assert_eq!(state.selected, 0);

    // The focus moves to the inspector only while it is open
    state.handle_key(Key::Tab);
    assert_eq!(state.focus, Focus::Tree);
    state.handle_key(Key::Char('i'));
    assert!(state.info_open);
    state.handle_key(Key::Tab);
    assert_eq!(state.focus, Focus::Inspector);
    state.handle_key(Key::Down);
    state.handle_key(Key::Char('j'));
    assert_eq!(state.inspector_scroll_offset, 2);
    assert_eq!(state.selected, 0);
    state.handle_key(Key::PageDown);
    assert_eq!(state.inspector_scroll_offset, 5);
    state.handle_key(Key::Up);
    assert_eq!(state.inspector_scroll_offset, 4);
    state.handle_key(Key::PageUp);
    assert_eq!(state.inspector_scroll_offset, 1);
    state.handle_key(Key::PageUp);
    assert_eq!(state.inspector_scroll_offset, 0);
    state.inspector_scroll_offset = u16::MAX;
    state.handle_key(Key::Down);
    assert_eq!(state.inspector_scroll_offset, u16::MAX);
    state.handle_key(Key::Char('g'));
    assert_eq!(state.inspector_scroll_offset, 0);
    state.handle_key(Key::BackTab);
    assert_eq!(state.focus, Focus::Tree);
    state.handle_key(Key::Tab);
    state.handle_key(Key::Char('i'));
    assert!(!state.info_open);
    assert_eq!(state.focus, Focus::Tree);

    assert_eq!(state.handle_key(Key::Char('q')), AppAction::Quit);
    assert_eq!(UiTreeId::default(), UiTreeId::Group(usize::MAX));
}

#[test]
fn test_inspector_text() {
    let graph = window();
    let idom = lengauer_tarjan(&graph, &[0]);
    let tree = tree_from_immediate_dominators(&idom, &graph);
    let paths = find_root_paths(&graph, 0);
    let root = build_ui_tree(0, &tree, &graph);
    let array = root.children.iter().find(|n| n.id == UiTreeId::Heap(4)).unwrap();
    assert_eq!(
        inspector_text(array, &paths, &graph),
        "Array (2 elements)\n\n - \"text\\n\"\n - <a number>\n\n\nPath(s):\n.tag\n"
    );
    let group = UiTreeNode {
        id: UiTreeId::Group(3),
        label: "<Group> 2 instances of x".to_string(),
        retained_size: 0,
        children: vec![],
    };
    assert_eq!(inspector_text(&group, &paths, &graph), "<Group> 2 instances of x");
}

#[test]
fn test_mem_size() {
    let graph = window();
    let list = std::mem::size_of::<Vec<u32>>();
    assert_eq!(graph.edges.mem_size(), 13 * 3 * 4);
    assert_eq!(graph.mem_size(), 50 * 4 + 13 * 3 * 4 + 11 * 4 + 10 * list + 13 * 4);
}

#[test]
fn test_root_paths_are_shortest() {
    // A long way round stands before the short way among the edges
    let nodes = [(9, 0, 0), (3, 1, 8), (3, 1, 8), (3, 1, 8), (3, 1, 8)];
    let edges = [(0, 2, 2, 1), (0, 2, 3, 4), (1, 2, 2, 2), (2, 2, 2, 3), (4, 2, 2, 3)];
    let graph = heap_of(&nodes, &edges, &["(GC roots)", "X", "far", "near"]);
    let paths = find_root_paths(&graph, 0);
    let found = paths.paths_to(3, &graph, 5).unwrap();
    assert!(!found.truncated);
    assert_eq!(found.paths.len(), 1);
    assert_eq!(found.paths[0].0, vec![1, 4]);
    let found = paths.paths_to(2, &graph, 5).unwrap();
    assert_eq!(found.paths[0].0, vec![0, 2]);
    let found = paths.paths_to(0, &graph, 5).unwrap();
    assert_eq!(found.paths[0].0, Vec::<u32>::new());
    let mut out: Vec<char> = Vec::new();
    format_retention_paths(&mut out, 3, &paths, &graph);
    assert_eq!(text_of(out), ".near.far\n");
}

#[test]
fn test_set_selection_takes_any_number() {
    let (graph, tree) = house();
    let root = build_explorer_tree(0, &tree, &graph);
    let mut state = ExplorerState::new(&root);
    state.set_height(7);
    state.inspector_scroll_offset = 3;
    state.set_selection(40);
    assert_eq!(state.selected, 40);
    assert_eq!(state.tree_scroll_offset, 39);
    assert_eq!(state.inspector_scroll_offset, 0);
    assert_eq!(state.flat_list.len(), 3);
    state.set_height(0);
    state.set_selection(usize::MAX);
    assert_eq!(state.selected, usize::MAX);
    assert_eq!(state.tree_scroll_offset, usize::MAX);
    state.set_selection(1);
    assert_eq!(state.tree_scroll_offset, 1);
    assert_eq!(state.selected_id(), UiTreeId::Group(2));
}
