use ctx::commands::deps::{DepsAction, DepsArgs, run};
use ctx::commands::find::{check_glob, find_done, find_files, format_found, sort_found};
use ctx::filter::{ask_args, ask_failure, ask_prompt, maybe_filter, FilterStep};
use ctx::output::prepare;
use ctx::resolve::{import_candidates, resolve_import, resolve_import_in, source_extension_list, Check};
use ctx::tokens::{estimate_tokens, truncate_to_tokens};
use ctx::skeleton::extract_skeleton;
use ctx::ts::{Lang, RefKind};
use ctx::walker::{is_noise_dir, is_test_file};

#[test]
fn import_candidates_in_order() {
    let c = import_candidates("./b", "/p/src");
    assert_eq!(c.len(), 45);
    assert_eq!(c[0], ("/p/src/./b".to_string(), Check::IsFile));
    assert_eq!(c[1], ("/p/src/./b.ts".to_string(), Check::Exists));
    assert_eq!(c[22], ("/p/src/./b.cc".to_string(), Check::Exists));
    assert_eq!(c[23], ("/p/src/./b/index.ts".to_string(), Check::Exists));
    assert_eq!(source_extension_list().len(), 22);
}

#[test]
fn resolving_picks_the_first_that_exists() {
    let mut passed = vec![false; 45];
    passed[4] = true;
    passed[30] = true;
    assert_eq!(resolve_import_in("./b", "/p/src", &passed), Some("/p/src/./b.jsx".to_string()));
    assert_eq!(resolve_import("./b", "/p/src/a.ts", &passed), Some("/p/src/./b.jsx".to_string()));
    assert_eq!(resolve_import_in("./b", "/p/src", &vec![false; 45]), None);
}

#[test]
fn filtering_through_the_assistant() {
    match maybe_filter("out", &None) {
        FilterStep::Keep(s) => assert_eq!(s, "out"),
        FilterStep::Ask(_) => panic!("no question was asked"),
    }
    let expected = "You are a context filter. Given the following codebase output, answer this question concisely: why?\n\nOutput ONLY the relevant parts — no preamble, no explanation, just the filtered result.\nIf nothing is relevant, say \"No relevant results.\"\n\n---\nout";
    match maybe_filter("out", &Some("why?".to_string())) {
        FilterStep::Ask(p) => assert_eq!(p, expected),
        FilterStep::Keep(_) => panic!("a question was asked"),
    }
    assert_eq!(ask_prompt("why?", "out"), expected);
    assert_eq!(ask_args()[6], "");
    assert_eq!(ask_failure("helper", "boom"), "helper CLI failed: boom");
}

#[test]
fn token_budgets() {
    assert_eq!(estimate_tokens(""), 0);
    assert_eq!(estimate_tokens("abcde"), 2);
    assert_eq!(truncate_to_tokens("short", 10), "short");
    assert_eq!(
        truncate_to_tokens("aaaa\nbbbb\ncccc\n", 2),
        "aaaa\n\n[... truncated at ~2 tokens — 3 more lines, ~3 more tokens ...]\n"
    );
    assert_eq!(estimate_tokens("éééé"), 1);
    assert_eq!(
        truncate_to_tokens("aaaaaaaaaa", 1),
        "\n\n[... truncated at ~1 tokens — 1 more lines, ~3 more tokens ...]\n"
    );
    assert_eq!(
        truncate_to_tokens("héllo\nwörld!!", 2),
        "héllo\n\n[... truncated at ~2 tokens — 2 more lines, ~2 more tokens ...]\n"
    );
    match prepare("aaaa\nbbbb\ncccc\n", Some(2), &None) {
        FilterStep::Keep(s) => assert!(s.starts_with("aaaa\n\n[... truncated")),
        FilterStep::Ask(_) => panic!("no question was asked"),
    }
}

#[test]
fn deps_walk_of_a_js_file() {
    let args = DepsArgs { file: "a.js".to_string(), max_depth: 3, external_only: false, local_only: false };
    let (mut walk, action) = run(&args, "/p/a.js");
    match action {
        DepsAction::Read(f) => assert_eq!(f, "/p/a.js"),
        _ => panic!("the file is read first"),
    }
    let content = "import x from './b';\nimport y from 'react';\n".to_string();
    assert!(matches!(walk.on_content(Some(content)), DepsAction::Continue));
    match walk.step() {
        DepsAction::Resolve(p, from) => {
            assert_eq!(p, "./b");
            assert_eq!(from, "/p/a.js");
        },
        _ => panic!("the local import is resolved"),
    }
    assert!(matches!(walk.on_resolved(None), DepsAction::Continue));
    assert!(matches!(walk.step(), DepsAction::Continue));
    assert!(matches!(walk.step(), DepsAction::Continue));
    match walk.step() {
        DepsAction::Done(out) => assert_eq!(
            out,
            "Dependencies for: a.js\n\n├── ./b (import, line 1)\n└── react (import, line 2)\n"
        ),
        _ => panic!("the walk is over"),
    }
}

#[test]
fn deps_walk_does_not_revisit() {
    let args = DepsArgs { file: "a.js".to_string(), max_depth: 3, external_only: false, local_only: true };
    let (mut walk, _) = run(&args, "/p/a.js");
    walk.on_content(Some("import b from './b';\n".to_string()));
    assert!(matches!(walk.step(), DepsAction::Resolve(_, _)));
    match walk.on_resolved(Some("/p/b.js".to_string())) {
        DepsAction::Read(f) => assert_eq!(f, "/p/b.js"),
        _ => panic!("b is read"),
    }
    walk.on_content(Some("import a from './a';\n".to_string()));
    assert!(matches!(walk.step(), DepsAction::Resolve(_, _)));
    assert!(matches!(walk.on_resolved(Some("/p/a.js".to_string())), DepsAction::Continue));
    loop {
        match walk.step() {
            DepsAction::Done(out) => {
                assert_eq!(
                    out,
                    "Dependencies for: a.js\n\n└── ./b (import, line 1)\n  └── ./a (import, line 1)\n"
                );
                break;
            },
            DepsAction::Continue => {},
            _ => panic!("nothing else is needed"),
        }
    }
}

#[test]
fn finding_files() {
    assert!(check_glob("*Model*").is_ok());
    assert!(check_glob("a[").is_err());
    let walked = vec![
        ("/p/src".to_string(), true, 50),
        ("/p/src/UserModel.ts".to_string(), false, 10),
        ("/p/src/User.ts".to_string(), false, 40),
        ("/p/src/AModel.rs".to_string(), false, 30),
        ("/p/src/BModel.rs".to_string(), false, 10),
    ];
    assert_eq!(
        find_files(&walked, "*Model*", &None, 10),
        Ok(vec!["/p/src/AModel.rs".to_string(), "/p/src/UserModel.ts".to_string(), "/p/src/BModel.rs".to_string()])
    );
    assert_eq!(find_files(&walked, "*Model*", &Some("rs".to_string()), 10),
        Ok(vec!["/p/src/AModel.rs".to_string(), "/p/src/BModel.rs".to_string()]));
    assert_eq!(find_files(&walked, "*Model*", &None, 1), Ok(vec!["/p/src/UserModel.ts".to_string()]));
    assert!(find_files(&walked, "a[", &None, 1).is_err());
    let sorted = sort_found(vec![("b".to_string(), 1), ("B".to_string(), 3), ("a".to_string(), 2), ("ab".to_string(), 3)]);
    assert_eq!(sorted, vec![("B".to_string(), 3), ("ab".to_string(), 3), ("a".to_string(), 2), ("b".to_string(), 1)]);
    let paths: Vec<String> = sorted.into_iter().map(|(p, _)| p).collect();
    assert_eq!(format_found(&paths), "B\nab\na\nb\n");
    assert_eq!(format_found(&vec![]), "");
    assert!(find_done(5, 5));
}

#[test]
fn walking_rules() {
    assert!(is_noise_dir(".yarn"));
    assert!(is_noise_dir("__pycache__"));
    assert!(!is_noise_dir("src"));
    assert!(is_test_file("a_test.go"));
    assert!(!is_test_file("attest.go"));
}

#[test]
fn languages_and_labels() {
    assert_eq!(Lang::from_path("a/b.tsx"), Some(Lang::Tsx));
    assert_eq!(Lang::from_path("x.pyi"), Some(Lang::Python));
    assert_eq!(Lang::from_path("Makefile"), None);
    assert_eq!(RefKind::PropReceive.label(), "PROP RECEIVE");
    assert_eq!(RefKind::ReturnValue.label(), "RETURN");
}

#[test]
fn rust_skeleton() {
    let src = "use std::io;\n\nfn a() {\n    1\n}\n";
    assert_eq!(extract_skeleton(src, Lang::Rust), "use std::io;\nfn a() { ... }\n");
}
