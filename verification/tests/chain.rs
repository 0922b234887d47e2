use ctx::commands::chain::{
    build_graph,
    format_path, format_traversal, local_imports, pathdiff, relative_entries, relative_files, root_marker, root_search_start, root_step,
    ImportGraph, RootStep,
};

fn graph(edges: &[(&str, &str)]) -> ImportGraph {
    let mut g = ImportGraph::new();
    for (a, b) in edges {
        g.add_import(a, b);
    }
    g
}

#[test]
fn graph_records_imports_once_per_file() {
    let mut g = ImportGraph::new();
    let (a, b) = g.add_import("/p/a.ts", "/p/b.ts");
    let (a2, c) = g.add_import("/p/a.ts", "/p/c.ts");
    assert_eq!(a, a2);
    assert_eq!(g.files, vec!["/p/a.ts", "/p/b.ts", "/p/c.ts"]);
    assert_eq!(g.forward[a], vec![b, c]);
    assert_eq!(g.reverse[b], vec![a]);
    assert_eq!(g.reverse[c], vec![a]);
    assert_eq!(g.find("/p/c.ts"), Some(c));
    assert_eq!(g.find("/p/d.ts"), None);
}

#[test]
fn forward_traversal_is_breadth_first() {
    // a -> b, a -> c, b -> d, c -> d, d -> a
    let g = graph(&[("a", "b"), ("a", "c"), ("b", "d"), ("c", "d"), ("d", "a")]);
    let a = g.find("a").unwrap();
    let found = g.traverse(a, true, 5);
    let names: Vec<(&str, usize)> = found.iter().map(|(i, d)| (g.files[*i].as_str(), *d)).collect();
    assert_eq!(names, vec![("b", 1), ("c", 1), ("d", 2)]);
}

#[test]
fn traversal_depth_limit() {
    let g = graph(&[("a", "b"), ("b", "c"), ("c", "d")]);
    let a = g.find("a").unwrap();
    let names: Vec<&str> = g.traverse(a, true, 2).iter().map(|(i, _)| g.files[*i].as_str()).collect();
    assert_eq!(names, vec!["b", "c"]);
    assert!(g.traverse(a, true, 0).is_empty());
}

#[test]
fn reverse_traversal_follows_importers() {
    let g = graph(&[("a", "c"), ("b", "c"), ("x", "a")]);
    let c = g.find("c").unwrap();
    let names: Vec<(&str, usize)> = g.traverse(c, false, 5).iter().map(|(i, d)| (g.files[*i].as_str(), *d)).collect();
    assert_eq!(names, vec![("a", 1), ("b", 1), ("x", 2)]);
}

#[test]
fn shortest_path_found_and_not_found() {
    let g = graph(&[("a", "b"), ("b", "c"), ("a", "x"), ("x", "y"), ("y", "c")]);
    let a = g.find("a").unwrap();
    let c = g.find("c").unwrap();
    let p = g.shortest_path(a, c, 5).unwrap();
    let names: Vec<&str> = p.iter().map(|i| g.files[*i].as_str()).collect();
    assert_eq!(names, vec!["a", "b", "c"]);
    assert_eq!(g.shortest_path(a, c, 1), None);
    assert_eq!(g.shortest_path(c, a, 5), None);
    assert_eq!(g.shortest_path(a, a, 0), Some(vec![a]));
}

#[test]
fn rendering_a_traversal() {
    let entries = vec![("src/b.ts".to_string(), 1), ("src/c.ts".to_string(), 2)];
    assert_eq!(
        format_traversal(false, "src/a.ts", &entries, None),
        "Chain (reverse): src/a.ts\n\n  src/b.ts (depth 1)\n    src/c.ts (depth 2)\n\n2 files in reverse chain\n"
    );
    assert_eq!(
        format_traversal(true, "src/a.ts", &vec![], None),
        "Chain (forward): src/a.ts\n\n  (no files imported by this module)\n"
    );
    assert_eq!(
        format_traversal(false, "a", &vec![], None),
        "Chain (reverse): a\n\n  (no files import this module)\n"
    );
    let sk = vec![("src/b.ts".to_string(), "fn b();".to_string())];
    assert_eq!(
        format_traversal(true, "a", &vec![("src/b.ts".to_string(), 1)], Some(&sk)),
        "Chain (forward): a\n\n  src/b.ts (depth 1)\n\n--- Skeletons ---\n\n── src/b.ts ──\nfn b();\n\n\n1 files in forward chain\n"
    );
}

#[test]
fn rendering_a_path() {
    let chain = vec!["a.ts".to_string(), "b.ts".to_string(), "c.ts".to_string()];
    assert_eq!(
        format_path("a.ts", "c.ts", Some(&chain), None),
        "Path: a.ts -> c.ts\n\n  a.ts\n  -> b.ts\n  -> c.ts\n\n3 files, 2 hops\n"
    );
    assert_eq!(format_path("a.ts", "z.ts", None, None), "Path: a.ts -> z.ts\n\n  (no import path found)\n");
}

#[test]
fn relative_paths() {
    assert_eq!(pathdiff("/p/src/a.ts", "/p"), "src/a.ts");
    assert_eq!(pathdiff("/q/a.ts", "/p"), "/q/a.ts");
    let g = graph(&[("/p/a.ts", "/p/b.ts")]);
    assert_eq!(relative_entries(&g, &vec![(1, 1)], "/p"), vec![("b.ts".to_string(), 1)]);
    assert_eq!(relative_files(&g, &vec![0, 1], "/p"), vec!["a.ts".to_string(), "b.ts".to_string()]);
}

#[test]
fn project_root_search_steps() {
    assert_eq!(root_search_start("/p/src/a.rs"), Some("/p/src".to_string()));
    assert_eq!(root_search_start("/"), None);
    assert_eq!(root_marker("/p"), "/p/.git");
    assert!(matches!(root_step("/p", true), RootStep::Found(d) if d == "/p"));
    assert!(matches!(root_step("/p/src", false), RootStep::Next(d) if d == "/p"));
    assert!(matches!(root_step("/", false), RootStep::NotFound));
}

#[test]
fn only_local_imports_enter_the_graph() {
    let imp = |p: &str| ctx::ts::ImportInfo { path: p.to_string(), kind: "import".to_string(), line: 0 };
    let all = vec![imp("./a"), imp("react"), imp("/abs/b"), imp("../c")];
    assert_eq!(local_imports(&all), vec!["./a".to_string(), "/abs/b".to_string(), "../c".to_string()]);
}

#[test]
fn graph_of_resolved_imports() {
    let files = vec![
        ("a".to_string(), vec![Some("b".to_string()), None, Some("c".to_string())]),
        ("b".to_string(), vec![Some("c".to_string())]),
    ];
    let g = build_graph(&files);
    let a = g.find("a").unwrap();
    let b = g.find("b").unwrap();
    let c = g.find("c").unwrap();
    assert_eq!(g.forward[a], vec![b, c]);
    assert_eq!(g.forward[b], vec![c]);
    assert_eq!(g.reverse[c], vec![a, b]);
    assert!(g.forward[c].is_empty());
}
