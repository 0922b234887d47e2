use ctx::commands::grep::{
    bre_notice, build_matcher, format_context, format_count, format_expanded, format_files_only, grep_output,
    is_test_file, keep_search_file, merge_ranges, record_matches, search_done, ExpandMode, FileMatch,
};

fn fm(path: &str, lines: &[u64], content: Option<&str>) -> FileMatch {
    FileMatch {
        path: path.to_string(),
        lines: lines.iter().map(|l| (*l, String::new())).collect(),
        content: content.map(|c| c.to_string()),
    }
}

#[test]
fn files_only_and_count() {
    let ms = vec![fm("a.rs", &[1, 2], None), fm("b.rs", &[3], None)];
    assert_eq!(format_files_only(&ms), "a.rs\nb.rs\n");
    assert_eq!(format_count(&ms), "a.rs:2\nb.rs:1\n");
    assert_eq!(format_files_only(&vec![]), "\n");
}

#[test]
fn context_rendering() {
    let ms = vec![fm("f.txt", &[3], Some("a\nb\nc\nd\ne\n"))];
    assert_eq!(format_context(&ms, 1), "=== f.txt ===\n    2 b\n>   3 c\n    4 d\n--\n\n");
}

#[test]
fn context_rendering_skips_files_without_content() {
    let ms = vec![fm("x", &[1], None), fm("f", &[1], Some("only\n"))];
    assert_eq!(format_context(&ms, 0), "=== f ===\n>   1 only\n--\n\n");
}

#[test]
fn merging_ranges() {
    let mut ranges = vec![(5, 8, 6), (1, 3, 2), (4, 4, 4), (10, 12, 11)];
    let merged = merge_ranges(&mut ranges);
    assert_eq!(ranges, vec![(1, 3, 2), (4, 4, 4), (5, 8, 6), (10, 12, 11)]);
    assert_eq!(merged, vec![(1, 8, vec![2, 4, 6]), (10, 12, vec![11])]);
    assert!(merge_ranges(&mut vec![]).is_empty());
}

#[test]
fn merged_blocks_do_not_touch() {
    let mut ranges = vec![(0, 2, 1), (4, 6, 5), (3, 3, 3), (9, 9, 9)];
    let merged = merge_ranges(&mut ranges);
    for w in merged.windows(2) {
        assert!(w[0].1 + 1 < w[1].0);
    }
    assert_eq!(merged, vec![(0, 6, vec![1, 3, 5]), (9, 9, vec![9])]);
}

#[test]
fn expanded_lines() {
    let content = "l1\nl2\nl3\nl4\nl5\nl6\nl7\nl8\nl9\nl10\n";
    let ms = vec![fm("f", &[3, 4], Some(content))];
    let out = format_expanded(&ms, ExpandMode::Lines(2)).unwrap();
    assert_eq!(out, "=== f:2-5 ===\n    2 l2\n>   3 l3\n>   4 l4\n    5 l5\n\n");
}

#[test]
fn expanded_function_of_rust_code() {
    let content = "fn a() {\n    let x = 1;\n    x\n}\n\nfn b() {}\n";
    let ms = vec![fm("m.rs", &[2], Some(content))];
    let out = format_expanded(&ms, ExpandMode::Function).unwrap();
    assert_eq!(out, "=== m.rs:1-4 ===\n    1 fn a() {\n>   2     let x = 1;\n    3     x\n    4 }\n\n");
}

#[test]
fn output_modes() {
    let ms = vec![fm("f", &[1], Some("one\ntwo\n"))];
    assert_eq!(grep_output(&ms, true, false, false, None, 2).unwrap(), "f\n");
    assert_eq!(grep_output(&ms, false, true, false, None, 2).unwrap(), "f:1\n");
    assert_eq!(grep_output(&ms, false, false, false, None, 0).unwrap(), "=== f ===\n>   1 one\n--\n\n");
}

#[test]
fn invalid_pattern_message() {
    let err = build_matcher("(", "(", false).err().unwrap();
    assert!(err.starts_with("Invalid regex pattern '(': "));
    assert!(err.ends_with("See: https://docs.rs/regex/latest/regex/#syntax"));
    assert!(err.contains("- Alternation: foo|bar  (NOT foo\\|bar)"));
    assert!(build_matcher("a|b", "a|b", true).is_ok());
}

#[test]
fn bre_note() {
    assert_eq!(
        bre_notice(r"a\|b", "a|b"),
        "ctx: auto-converted BRE pattern 'a\\|b' → 'a|b' (ctx uses Rust/ripgrep regex syntax)"
    );
}

#[test]
fn test_files_are_recognised() {
    assert!(is_test_file("src/a.test.ts"));
    assert!(is_test_file("x/test_mod.py"));
    assert!(is_test_file("y/thing.mocha.js"));
    assert!(!is_test_file("src/main.rs"));
    assert!(keep_search_file("src/a.rs", &Some("rs".to_string()), false));
    assert!(!keep_search_file("src/a.ts", &Some("rs".to_string()), false));
    assert!(!keep_search_file("src/a_test.rs", &None, true));
}

#[test]
fn matches_are_kept_by_path() {
    let mut files: Vec<FileMatch> = Vec::new();
    record_matches(&mut files, fm("b.rs", &[1], None));
    record_matches(&mut files, fm("a.rs", &[2], None));
    record_matches(&mut files, fm("c.rs", &[3], None));
    record_matches(&mut files, fm("b.rs", &[4, 5], None));
    let paths: Vec<&str> = files.iter().map(|f| f.path.as_str()).collect();
    assert_eq!(paths, vec!["a.rs", "b.rs", "c.rs"]);
    assert_eq!(files[1].lines.len(), 2);
    assert!(search_done(&files, 3));
    assert!(!search_done(&files, 4));
}
