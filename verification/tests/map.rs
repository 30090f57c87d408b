use agentcode::budgeter::Budget;
use agentcode::indexer::index_source;
use agentcode::json::serialize_map;
use agentcode::map::{build_context_map, replace_backslashes, scores_fit};
use agentcode::models::{FileMap, Symbol, SymbolKind};

#[test]
fn normalizes_relative_paths() {
    let scanned = vec![FileMap {
        path: "src/lib.rs".to_string(),
        symbols: index_source("rs", "pub fn alpha() {}\n"),
    }];
    let output = build_context_map("/fixture".to_string(), scanned, Budget::parse("8k").unwrap());
    assert_eq!(output.pruned_map.files[0].path, "src/lib.rs");
    assert!(serialize_map(&output.pruned_map).contains("\"src/lib.rs\""));
}

#[test]
fn files_without_symbols_are_left_out_and_paths_sorted() {
    let sym = |n: &str| Symbol::new(n.to_string(), SymbolKind::Function, 1, None);
    let scanned = vec![
        FileMap { path: "z\\b.rs".to_string(), symbols: vec![sym("b")] },
        FileMap { path: "empty.rs".to_string(), symbols: vec![] },
        FileMap { path: "a.rs".to_string(), symbols: vec![sym("a")] },
    ];
    assert!(scores_fit(&scanned));
    let output = build_context_map("/p".to_string(), scanned, Budget::parse("8k").unwrap());
    assert_eq!(output.scanned_files, 3);
    assert_eq!(output.full_map.files.len(), 2);
    assert_eq!(output.full_map.files[0].path, "a.rs");
    assert_eq!(output.full_map.files[1].path, "z/b.rs");
    assert_eq!(output.summary.indexed_files, 2);
    assert_eq!(output.summary.retained_files, 2);
    assert_eq!(output.pruned_map.root, "/p");
}

#[test]
fn backslashes_become_slashes() {
    assert_eq!(replace_backslashes("a\\b\\\\c"), "a/b//c");
    assert_eq!(replace_backslashes("plain"), "plain");
    assert_eq!(replace_backslashes(""), "");
}
