use ctx::commands::symbols::{file_symbols, filter_by_kind, format_symbols, group_by_kind, is_symbols_noise_dir, keep_symbols_file};
use ctx::ts::{parse, parse_with, Lang};
use ctx::commands::tree::{format_tree, is_tree_noise_dir};
use ctx::ts::SymbolInfo;

#[test]
fn drawing_a_tree() {
    let entries = vec!["/p/src".to_string(), "/p/src/main.rs".to_string(), "/p/Cargo.toml".to_string()];
    assert_eq!(format_tree("/p", &entries), "p/\n├── Cargo.toml\n└── src/ \n    └── main.rs\n");
    assert_eq!(format_tree("/p", &vec![]), "p/\n");
}

#[test]
fn tree_noise() {
    assert!(is_tree_noise_dir("node_modules"));
    assert!(is_tree_noise_dir(".parcel-cache"));
    assert!(!is_tree_noise_dir(".yarn"));
    assert!(is_symbols_noise_dir("target"));
    assert!(!is_symbols_noise_dir(".turbo"));
}

fn sym(name: &str, kind: &str, line: usize, sig: &str) -> SymbolInfo {
    SymbolInfo { name: name.to_string(), kind: kind.to_string(), line, signature: sig.to_string() }
}

#[test]
fn listing_symbols() {
    let entries = vec![
        ("a.rs".to_string(), sym("f", "fn", 0, "pub fn f()")),
        ("a.rs".to_string(), sym("S", "struct", 2, "pub struct S")),
        ("b.rs".to_string(), sym("g", "fn", 9, "pub fn g()")),
    ];
    // grouped by kind: both functions first, then the struct
    let expected = format!(
        "=== a.rs ===\n{}\n=== b.rs ===\n{}\n=== a.rs ===\n{}",
        format!("  {:>4}  {:>10}  {}: {}\n", 1, "fn", "f", "pub fn f()"),
        format!("  {:>4}  {:>10}  {}: {}\n", 10, "fn", "g", "pub fn g()"),
        format!("  {:>4}  {:>10}  {}: {}\n", 3, "struct", "S", "pub struct S"),
    );
    assert_eq!(format_symbols(&entries), expected);
    assert_eq!(format_symbols(&vec![]), "No symbols found.\n");
}

#[test]
fn filtering_symbols_by_kind() {
    let syms = vec![sym("f", "fn", 0, ""), sym("S", "struct", 1, ""), sym("T", "type", 2, "")];
    let kept = filter_by_kind(syms, &Some("t".to_string()));
    let names: Vec<&str> = kept.iter().map(|s| s.name.as_str()).collect();
    assert_eq!(names, vec!["S", "T"]);
    assert!(keep_symbols_file("a.py", &None));
    assert!(!keep_symbols_file("a.py", &Some("rs".to_string())));
}

#[test]
fn symbols_of_a_file() {
    let syms = file_symbols("lib.rs", "pub fn f() {}\nfn private() {}\npub struct S;\n", &None);
    let names: Vec<&str> = syms.iter().map(|s| s.name.as_str()).collect();
    assert!(names.contains(&"f"));
    assert!(names.contains(&"S"));
    assert!(file_symbols("README", "text", &None).is_empty());
}

#[test]
fn symbols_grouped_by_kind() {
    let entries = vec![
        ("a.rs".to_string(), sym("f", "fn", 0, "")),
        ("a.rs".to_string(), sym("S", "struct", 2, "")),
        ("b.rs".to_string(), sym("g", "fn", 9, "")),
        ("b.rs".to_string(), sym("T", "struct", 12, "")),
    ];
    let names: Vec<String> = group_by_kind(&entries).into_iter().map(|(_, s)| s.name).collect();
    assert_eq!(names, vec!["f", "g", "S", "T"]);
}

#[test]
fn python_defs_nested_in_functions_are_not_listed() {
    let src = "def f():\n    def g():\n        pass\n\nclass C:\n    def m(self):\n        def h():\n            pass\n";
    let names: Vec<(String, String)> = file_symbols("a.py", src, &None).into_iter().map(|s| (s.name, s.kind)).collect();
    assert_eq!(
        names,
        vec![
            ("f".to_string(), "def".to_string()),
            ("C".to_string(), "class".to_string()),
            ("m".to_string(), "def".to_string()),
        ]
    );
}

#[test]
fn parsing_with_a_parser_gives_the_tree_of_a_fresh_parse() {
    let src = "fn main() {\n    let x = 1;\n}\n";
    let fresh = parse(src, Lang::Rust).ok().unwrap();
    let mut parser = tree_sitter::Parser::new();
    let reused = parse_with(&mut parser, src, Lang::Rust).ok().unwrap();
    let view = |t: &ctx::ts::SyntaxTree| -> Vec<(String, usize, usize, Option<usize>)> {
        t.nodes.iter().map(|n| (n.kind.clone(), n.start, n.stop, n.parent)).collect()
    };
    assert_eq!(view(&fresh), view(&reused));
    assert_eq!(fresh.nodes[0].kind, "source_file");
    assert_eq!(fresh.subtree_end, reused.subtree_end);
    // the parser can be used again
    let again = parse_with(&mut parser, "fn f() {}\n", Lang::Rust).ok().unwrap();
    assert_eq!(again.nodes[0].stop, 10);
}
