use v8_heap_analyzer::utils::{escape_string, escape_string_chars, print_safe, str_eq};
use v8_heap_analyzer::paths::RetentionPath;
use v8_heap_analyzer::{filter_subset_paths, is_subset};

#[test]
fn test_escape_string() {
    assert_eq!(escape_string("hello\nworld"), "hello\\nworld");
    assert_eq!(escape_string("tab\there"), "tab\\there");
    assert_eq!(escape_string("quote\"test"), "quote\\\"test");
    assert_eq!(escape_string("backslash\\test"), "backslash\\\\test");
    assert_eq!(escape_string("normal text"), "normal text");
}

#[test]
fn test_escape_other_characters() {
    assert_eq!(escape_string("a\rb"), "a\\rb");
    assert_eq!(escape_string("caf\u{e9}\u{1}~ "), "caf??~ ");
    assert_eq!(escape_string(""), "");
    let chars: Vec<char> = "x\ty".chars().collect();
    assert_eq!(escape_string_chars(&chars), "x\\ty");
}

#[test]
fn test_print_safe() {
    assert_eq!(print_safe("abc", 10), "\"abc\"");
    assert_eq!(print_safe("abcdef", 3), "\"abc...\"");
    assert_eq!(print_safe("a\nbcdef", 2), "\"a\\n...\"");
    // The limit is counted in bytes, the cut in characters
    assert_eq!(print_safe("\u{e9}\u{e9}", 3), "\"??...\"");
    assert_eq!(print_safe("abc", 3), "\"abc\"");
}

#[test]
fn test_str_eq() {
    assert!(str_eq("type", "type"));
    assert!(!str_eq("type", "typ"));
    assert!(!str_eq("type", "tyqe"));
    assert!(str_eq("", ""));
}

fn path(nodes: &[u32]) -> RetentionPath {
    RetentionPath {
        length: nodes.len(),
        nodes: nodes.to_vec(),
        edge_types: vec![2; nodes.len().saturating_sub(1)],
        edge_names: vec![String::new(); nodes.len().saturating_sub(1)],
    }
}

#[test]
fn test_is_subset() {
    assert!(is_subset(&[1, 2], &[0, 1, 2, 3]));
    assert!(is_subset(&[0, 1], &[0, 1, 2]));
    assert!(is_subset(&[2, 3], &[0, 1, 2, 3]));
    assert!(!is_subset(&[1, 3], &[0, 1, 2, 3]));
    assert!(!is_subset(&[0, 1, 2], &[0, 1, 2]));
    assert!(!is_subset(&[0, 1, 2, 3], &[1, 2]));
    assert!(is_subset(&[], &[4]));
    assert!(!is_subset(&[], &[]));
}

#[test]
fn test_filter_subset_paths() {
    let mut paths = vec![path(&[0, 1, 2]), path(&[1, 2]), path(&[5, 2]), path(&[0, 1])];
    filter_subset_paths(&mut paths);
    let kept: Vec<Vec<u32>> = paths.iter().map(|p| p.nodes.clone()).collect();
    assert_eq!(kept, vec![vec![0, 1, 2], vec![5, 2]]);

    let mut same = vec![path(&[0, 2]), path(&[0, 2])];
    filter_subset_paths(&mut same);
    assert_eq!(same.len(), 2);

    let mut none: Vec<RetentionPath> = vec![];
    filter_subset_paths(&mut none);
    assert!(none.is_empty());
}
