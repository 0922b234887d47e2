use ctx::commands::flow::{
    ctx_range_exec, file_sites, flow_search_done, flow_sites, is_test_file, keep_flow_file, no_references_message,
    record_lines, regex_escape_ident, render_text, sort_paths, sort_sites, symbol_matcher, unclassified_message,
    FlowSite,
};
use ctx::ts::RefKind;

#[test]
fn escaping_identifiers() {
    assert_eq!(regex_escape_ident("foo"), "foo");
    assert_eq!(regex_escape_ident("a.b$c"), "a\\.b\\$c");
    assert_eq!(regex_escape_ident("x(y)[z]{w}|^+*?\\"), "x\\(y\\)\\[z\\]\\{w\\}\\|\\^\\+\\*\\?\\\\");
    assert!(symbol_matcher("fetchUser").is_ok());
}

#[test]
fn context_ranges() {
    assert_eq!(ctx_range_exec(1, 2, 10), (0, 3));
    assert_eq!(ctx_range_exec(8, 2, 10), (6, 9));
    assert_eq!(ctx_range_exec(5, 4, 0), (1, 0));
}

#[test]
fn flow_test_files_do_not_include_mocha() {
    assert!(is_test_file("a.spec.ts"));
    assert!(!is_test_file("a.mocha.js"));
    assert!(keep_flow_file("src/a.ts", &None, false));
    assert!(!keep_flow_file("src/a.md", &None, false));
    assert!(!keep_flow_file("src/test_a.py", &None, true));
}

fn site(file: &str, line: usize, kind: RefKind, snippet: &str) -> FlowSite {
    FlowSite { file: file.to_string(), line, kind, snippet: snippet.to_string() }
}

#[test]
fn rendering_sites() {
    let sites = vec![
        site("a.rs", 0, RefKind::Definition, ">   1 fn x() {}\n"),
        site("b.rs", 4, RefKind::Call, "    5 x();\n"),
    ];
    let expected = format!(
        "Flow: x\n\n── DEFINITION {}\n  a.rs:1\n    >   1 fn x() {{}}\n\n── CALL {}\n  b.rs:5\n        5 x();\n\n2 sites across 2 files\n",
        "─".repeat(53),
        "─".repeat(59)
    );
    assert_eq!(render_text("x", &sites), expected);
}

#[test]
fn sites_sort_by_kind_then_file_then_line() {
    let sites = vec![
        site("b.rs", 3, RefKind::Call, ""),
        site("a.rs", 9, RefKind::Call, ""),
        site("a.rs", 2, RefKind::Call, ""),
        site("z.rs", 1, RefKind::Import, ""),
    ];
    let sorted = sort_sites(sites);
    let keys: Vec<(&str, usize)> = sorted.iter().map(|s| (s.file.as_str(), s.line)).collect();
    assert_eq!(keys, vec![("z.rs", 1), ("a.rs", 2), ("a.rs", 9), ("b.rs", 3)]);
}

#[test]
fn sites_of_a_rust_file() {
    let src = "fn greet() {}\n\nfn main() {\n    greet();\n}\n";
    let sites = file_sites("m.rs", src, &vec![0, 3], "greet").unwrap();
    let kinds: Vec<(usize, RefKind)> = sites.iter().map(|s| (s.line, s.kind)).collect();
    assert_eq!(kinds, vec![(0, RefKind::Definition), (3, RefKind::Call)]);
    assert_eq!(sites[0].snippet, ">   1 fn greet() {}\n");
    assert!(file_sites("notes.txt", src, &vec![0], "greet").unwrap().is_empty());
}

#[test]
fn sites_of_all_files_in_order() {
    let entries = vec![
        ("b.rs".to_string(), vec![0]),
        ("a.rs".to_string(), vec![0]),
    ];
    let contents = vec![Some("fn f() { g(); }\n".to_string()), Some("fn g() {}\n".to_string())];
    let sites = flow_sites(&entries, &contents, "g").unwrap();
    let keys: Vec<(&str, RefKind)> = sites.iter().map(|s| (s.file.as_str(), s.kind)).collect();
    assert_eq!(keys, vec![("a.rs", RefKind::Definition), ("b.rs", RefKind::Call)]);
}

#[test]
fn files_and_rows_by_path() {
    let sorted = sort_paths(vec!["b/x.rs".to_string(), "a.rs".to_string(), "a/b.rs".to_string()]);
    assert_eq!(sorted, vec!["a/b.rs", "a.rs", "b/x.rs"]);
    let mut entries: Vec<(String, Vec<usize>)> = Vec::new();
    record_lines(&mut entries, "b.rs".to_string(), &vec![3, 5]);
    record_lines(&mut entries, "a.rs".to_string(), &vec![1]);
    assert_eq!(entries, vec![("a.rs".to_string(), vec![0]), ("b.rs".to_string(), vec![2, 4])]);
    assert!(flow_search_done(2, 2));
    assert!(!flow_search_done(1, 2));
}

#[test]
fn flow_messages() {
    assert_eq!(no_references_message("x"), "No references to 'x' found.");
    assert_eq!(
        unclassified_message("x", 3),
        "Found 'x' in 3 files but could not classify references (comments/strings only?)."
    );
}
