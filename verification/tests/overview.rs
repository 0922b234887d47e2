use ctx::commands::overview::{
    compact_tree_line, config_file_names, detect_workspaces, llm_file_names, readme_names, render_overview,
    truncate_lines,
};

#[test]
fn truncating_lines() {
    assert_eq!(truncate_lines("a\nb\n", 5), "a\nb\n");
    assert_eq!(truncate_lines("a\nb\nc\nd", 2), "a\nb\n... (2 more lines)");
}

#[test]
fn cargo_workspace_members() {
    let cargo = "[package]\nname = \"x\"\n\n[workspace]\nmembers = [\n    \"crates/a\",\n    \"crates/b\",\n]\n\n[dependencies]\nserde = \"1\"\n";
    assert_eq!(detect_workspaces(None, Some(cargo)), vec!["crates/a".to_string(), "crates/b".to_string()]);
}

#[test]
fn package_json_workspaces() {
    let pkg = "{\"name\": \"x\", \"workspaces\": [\"packages/*\", 3, \"apps/web\"]}";
    assert_eq!(detect_workspaces(Some(pkg), None), vec!["packages/*".to_string(), "apps/web".to_string()]);
    assert!(detect_workspaces(Some("not json"), None).is_empty());
    assert!(detect_workspaces(Some("{\"workspaces\": {\"packages\": []}}"), None).is_empty());
}

#[test]
fn overview_sections() {
    let configs = vec![("Cargo.toml".to_string(), "[package]\n".to_string())];
    let readme = Some(("README.md".to_string(), "# X\n".to_string()));
    let llm = vec![("AGENTS.md".to_string(), "be brief".to_string())];
    let out = render_overview(&configs, &readme, &llm, "src/\n", &vec!["crates/a".to_string()]);
    assert_eq!(
        out,
        "# Project Overview\n\n## Cargo.toml\n```\n[package]\n\n```\n\n## README.md\n# X\n\n\n## AGENTS.md (LLM instructions)\nbe brief\n\n## Directory Structure\n```\nsrc/\n```\n\n## Workspaces/Packages\n- crates/a\n\n"
    );
}

#[test]
fn file_lists() {
    assert_eq!(config_file_names()[0], "package.json");
    assert_eq!(config_file_names().len(), 11);
    assert_eq!(readme_names(), vec!["README.md", "README", "README.txt", "readme.md"]);
    assert_eq!(llm_file_names()[4], ".github/copilot-instructions.md");
}

#[test]
fn compact_tree_lines() {
    assert_eq!(compact_tree_line("/p", "/p", true), None);
    assert_eq!(compact_tree_line("/p/src", "/p", true), Some("src/\n".to_string()));
    assert_eq!(compact_tree_line("/p/src/main.rs", "/p", false), Some("  main.rs\n".to_string()));
}
