use ctx::commands::grep::normalize_pattern;

#[test]
fn test_normalize_bre_alternation() {
    let (result, modified) = normalize_pattern(r"foo\|bar\|baz");
    assert_eq!(result, "foo|bar|baz");
    assert!(modified);
}

#[test]
fn test_normalize_bre_groups() {
    let (result, modified) = normalize_pattern(r"\(foo\|bar\)");
    assert_eq!(result, "(foo|bar)");
    assert!(modified);
}

#[test]
fn test_normalize_bre_quantifiers() {
    let (result, modified) = normalize_pattern(r"foo\+bar\?");
    assert_eq!(result, "foo+bar?");
    assert!(modified);
}

#[test]
fn test_normalize_preserves_valid_escapes() {
    let (result, modified) = normalize_pattern(r"\bword\b");
    assert_eq!(result, r"\bword\b");
    assert!(!modified);
}

#[test]
fn test_normalize_preserves_double_backslash() {
    let (result, modified) = normalize_pattern(r"foo\\|bar");
    assert_eq!(result, r"foo\\|bar");
    assert!(!modified);
}

#[test]
fn test_normalize_plain_alternation_unchanged() {
    let (result, modified) = normalize_pattern("foo|bar");
    assert_eq!(result, "foo|bar");
    assert!(!modified);
}

#[test]
fn test_normalize_no_change() {
    let (result, modified) = normalize_pattern("simple");
    assert_eq!(result, "simple");
    assert!(!modified);
}

#[test]
fn normalize_braces_and_trailing_backslash() {
    let (result, modified) = normalize_pattern(r"a\{2\}\");
    assert_eq!(result, r"a{2}\");
    assert!(modified);
}

#[test]
fn normalize_twice_changes_nothing_more() {
    for p in [r"foo\|bar", r"\(a\)\+", r"x\\\|y", r"\bw\b", r"end\"] {
        let (once, _) = normalize_pattern(p);
        let (twice, modified) = normalize_pattern(&once);
        assert_eq!(twice, once);
        assert!(!modified);
    }
}
