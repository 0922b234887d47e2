//! `ctx overview`: the sections of a project overview (configuration files,
//! README, instructions for language models, the directory tree) and the
//! workspaces the configuration declares.
use vstd::prelude::*;
use crate::paths::{
    compare_paths, component_count, component_count_of, file_name_or_empty, name_or_empty, path_order_of, strip_prefix,
    strip_prefix_of,
};
use crate::text::{
    push_repeat, repeat,
    chars_of, concat_n, decimal, lemma_concat_n_succ, lines, lines_of, push_all, push_decimal, push_str,
    starts_with, starts_with_exec, string_of, trim, trimmed, trim_class, CharClass, contains, contains_exec,
};

verus! {

/// The options of `ctx overview`.
pub struct OverviewArgs {
    /// Root directory to overview.
    pub path: String,
    /// Maximum depth for the tree.
    pub max_depth: usize,
}

/// The lines joined with `'\n'` between them.
pub open spec fn join_lines(ls: Seq<Seq<char>>) -> Seq<char> {
    concat_n(ls.len(), |i: int| (if i == 0 { seq![] } else { seq!['\n'] }) + ls[i])
}

/// The content as is when it has at most `max` lines; else its first `max`
/// lines and a note of how many more there are.
pub open spec fn truncated_lines(content: Seq<char>, max: nat) -> Seq<char> {
    let ls = lines_of(content);
    if ls.len() <= max {
        content
    } else {
        join_lines(ls.take(max as int)) + "\n... ("@ + decimal((ls.len() - max) as nat) + " more lines)"@
    }
}

/// Keeps the first `max_lines` lines of the content.
pub fn truncate_lines(content: &str, max_lines: usize) -> (r: String)
    ensures
        r@ == truncated_lines(content@, max_lines as nat),
{
    let cv = chars_of(content);
    let ls = lines(&cv);
    let ghost lsv = ls@.map_values(|l: Vec<char>| l@);
    assert(lsv == lines_of(content@));
    if ls.len() <= max_lines {
        return content.to_owned();
    }
    let mut out: Vec<char> = Vec::new();
    let ghost kept = lsv.take(max_lines as int);
    let ghost f = |i: int| (if i == 0 { seq![] } else { seq!['\n'] }) + kept[i];
    for i in 0..max_lines
        invariant
            max_lines < ls@.len(),
            lsv == ls@.map_values(|l: Vec<char>| l@),
            kept == lsv.take(max_lines as int),
            f == (|i: int| (if i == 0 { seq![] } else { seq!['\n'] }) + kept[i]),
            out@ == concat_n(i as nat, f),
    {
        if i > 0 {
            out.push('\n');
        }
        push_all(&mut out, &ls[i]);
        proof { lemma_concat_n_succ(i as nat, f); }
    }
    push_str(&mut out, "\n... (");
    push_decimal(&mut out, ls.len() - max_lines);
    push_str(&mut out, " more lines)");
    string_of(&out)
}

/// The configuration files shown, in order.
pub fn config_file_names() -> (r: Vec<&'static str>)
    ensures
        r@.map_values(|s: &str| s@) == seq!["package.json"@, "Cargo.toml"@, "pyproject.toml"@, "go.mod"@, "pom.xml"@,
            "build.gradle"@, "Gemfile"@, "mix.exs"@, "flake.nix"@, "shell.nix"@, "default.nix"@],
{
    let r = vec!["package.json", "Cargo.toml", "pyproject.toml", "go.mod", "pom.xml", "build.gradle", "Gemfile", "mix.exs",
        "flake.nix", "shell.nix", "default.nix"];
    assert(r@.map_values(|s: &str| s@) =~= seq!["package.json"@, "Cargo.toml"@, "pyproject.toml"@, "go.mod"@, "pom.xml"@,
        "build.gradle"@, "Gemfile"@, "mix.exs"@, "flake.nix"@, "shell.nix"@, "default.nix"@]);
    r
}

/// The README names tried, in order; the first that exists is shown.
pub fn readme_names() -> (r: Vec<&'static str>)
    ensures
        r@.map_values(|s: &str| s@) == seq!["README.md"@, "README"@, "README.txt"@, "readme.md"@],
{
    let r = vec!["README.md", "README", "README.txt", "readme.md"];
    assert(r@.map_values(|s: &str| s@) =~= seq!["README.md"@, "README"@, "README.txt"@, "readme.md"@]);
    r
}

/// The files of instructions for language models shown, in order.
pub fn llm_file_names() -> (r: Vec<&'static str>)
    ensures
        r@.map_values(|s: &str| s@) == seq!["AGENTS.md"@, "LLMS.md"@, ".cursorrules"@, "copilot-instructions.md"@,
            ".github/copilot-instructions.md"@],
{
    let r = vec!["AGENTS.md", "LLMS.md", ".cursorrules", "copilot-instructions.md", ".github/copilot-instructions.md"];
    assert(r@.map_values(|s: &str| s@) =~= seq!["AGENTS.md"@, "LLMS.md"@, ".cursorrules"@, "copilot-instructions.md"@,
        ".github/copilot-instructions.md"@]);
    r
}

/// The section of one configuration file: its first 30 lines in a code block.
pub open spec fn config_section(name: Seq<char>, content: Seq<char>) -> Seq<char> {
    "## "@ + name + "\n```\n"@ + truncated_lines(content, 30) + "\n```\n\n"@
}

/// The README section: its first 80 lines.
pub open spec fn readme_section(name: Seq<char>, content: Seq<char>) -> Seq<char> {
    "## "@ + name + seq!['\n'] + truncated_lines(content, 80) + "\n\n"@
}

/// The section of one file of instructions for language models, whole.
pub open spec fn llm_section(name: Seq<char>, content: Seq<char>) -> Seq<char> {
    "## "@ + name + " (LLM instructions)\n"@ + content + "\n\n"@
}

/// The workspaces section (nothing when there are none).
pub open spec fn workspaces_section(hints: Seq<String>) -> Seq<char> {
    if hints.len() == 0 {
        seq![]
    } else {
        "## Workspaces/Packages\n"@ + concat_n(hints.len(), |i: int| "- "@ + hints[i]@ + seq!['\n']) + seq!['\n']
    }
}

/// The whole overview: the configuration files found (name and content), the
/// README, the instruction files, the directory tree and the workspaces.
pub open spec fn overview_text(configs: Seq<(String, String)>, readme: Option<(String, String)>,
    llm: Seq<(String, String)>, tree: Seq<char>, hints: Seq<String>) -> Seq<char> {
    "# Project Overview\n\n"@
        + concat_n(configs.len(), |i: int| config_section(configs[i].0@, configs[i].1@))
        + match readme { Some(r) => readme_section(r.0@, r.1@), None => seq![] }
        + concat_n(llm.len(), |i: int| llm_section(llm[i].0@, llm[i].1@))
        + "## Directory Structure\n```\n"@ + tree + "```\n\n"@
        + workspaces_section(hints)
}

fn push_sections(out: &mut Vec<char>, files: &Vec<(String, String)>, config: bool)
    ensures
        final(out)@ == old(out)@ + if config {
            concat_n(files@.len(), |i: int| config_section(files@[i].0@, files@[i].1@))
        } else {
            concat_n(files@.len(), |i: int| llm_section(files@[i].0@, files@[i].1@))
        },
{
    let ghost s0 = out@;
    let ghost f = if config {
        |i: int| config_section(files@[i].0@, files@[i].1@)
    } else {
        |i: int| llm_section(files@[i].0@, files@[i].1@)
    };
    for i in 0..files.len()
        invariant
            f == if config {
                |i: int| config_section(files@[i].0@, files@[i].1@)
            } else {
                |i: int| llm_section(files@[i].0@, files@[i].1@)
            },
            out@ == s0 + concat_n(i as nat, f),
    {
        push_str(out, "## ");
        push_str(out, files[i].0.as_str());
        if config {
            push_str(out, "\n```\n");
            let p = truncate_lines(files[i].1.as_str(), 30);
            push_str(out, p.as_str());
            push_str(out, "\n```\n\n");
        } else {
            push_str(out, " (LLM instructions)\n");
            push_str(out, files[i].1.as_str());
            push_str(out, "\n\n");
        }
        proof { lemma_concat_n_succ(i as nat, f); }
    }
}

fn push_hints(out: &mut Vec<char>, hints: &Vec<String>)
    ensures
        final(out)@ == old(out)@ + workspaces_section(hints@),
{
    if hints.len() > 0 {
        push_str(out, "## Workspaces/Packages\n");
        let ghost s4 = out@;
        let ghost h = |i: int| "- "@ + hints@[i]@ + seq!['\n'];
        for i in 0..hints.len()
            invariant
                h == (|i: int| "- "@ + hints@[i]@ + seq!['\n']),
                out@ == s4 + concat_n(i as nat, h),
        {
            push_str(out, "- ");
            push_str(out, hints[i].as_str());
            out.push('\n');
            proof { lemma_concat_n_succ(i as nat, h); }
        }
        out.push('\n');
    }
}

/// Assembles the overview from what was read.
pub fn render_overview(configs: &Vec<(String, String)>, readme: &Option<(String, String)>,
    llm: &Vec<(String, String)>, tree: &str, hints: &Vec<String>) -> (r: String)
    ensures
        r@ == overview_text(configs@, *readme, llm@, tree@, hints@),
{
    let mut out: Vec<char> = Vec::new();
    push_str(&mut out, "# Project Overview\n\n");
    push_sections(&mut out, configs, true);
    let ghost s1 = out@;
    if let Some(r) = readme {
        push_str(&mut out, "## ");
        push_str(&mut out, r.0.as_str());
        out.push('\n');
        let p = truncate_lines(r.1.as_str(), 80);
        push_str(&mut out, p.as_str());
        push_str(&mut out, "\n\n");
    }
    assert(out@ == s1 + match *readme { Some(r) => readme_section(r.0@, r.1@), None => seq![] });
    push_sections(&mut out, llm, false);
    push_str(&mut out, "## Directory Structure\n```\n");
    push_str(&mut out, tree);
    push_str(&mut out, "```\n\n");
    push_hints(&mut out, hints);
    string_of(&out)
}


// ---------------------------------------------------------------------------
// Workspaces
// ---------------------------------------------------------------------------

/// The array under top-level `key` of a JSON document, each item as its text
/// when it is a string; `None` when the text is not JSON, or the document has
/// no such field, or the field is not an array.
pub uninterp spec fn json_string_array_of(content: Seq<char>, key: Seq<char>) -> Option<Seq<Option<Seq<char>>>>;

/// `serde_json::from_str::<Value>` on the text, then `Value::get(key)` and
/// `Value::as_array`, each item converted by `Value::as_str`. What JSON parsing
/// accepts is named, not stated.
#[verifier::external_body]
fn json_string_array(content: &str, key: &str) -> (r: Option<Vec<Option<String>>>)
    ensures
        match r {
            Some(v) => json_string_array_of(content@, key@) == Some(v@.map_values(|x: Option<String>| match x {
                Some(s) => Some(s@),
                None => None,
            })),
            None => json_string_array_of(content@, key@) is None,
        },
{
    let json: serde_json::Value = match serde_json::from_str(content) {
        Ok(j) => j,
        Err(_) => return None,
    };
    let arr = json.get(key)?.as_array()?;
    let mut v = Vec::new();
    for x in arr {
        v.push(x.as_str().map(String::from));
    }
    Some(v)
}

/// The texts among `items`, in order.
pub open spec fn strings_of(items: Seq<Option<Seq<char>>>) -> Seq<Seq<char>>
    decreases items.len(),
{
    if items.len() == 0 {
        seq![]
    } else {
        let rest = strings_of(items.drop_last());
        match items.last() {
            Some(s) => rest.push(s),
            None => rest,
        }
    }
}

/// The string items of the `workspaces` field of a `package.json`, in order.
pub open spec fn package_workspaces(content: Seq<char>) -> Seq<Seq<char>> {
    match json_string_array_of(content, "workspaces"@) {
        None => seq![],
        Some(items) => strings_of(items),
    }
}

/// The state after scanning lines of a `Cargo.toml`: inside `[workspace]`, and
/// the members found so far.
pub open spec fn cargo_scan(ls: Seq<Seq<char>>) -> (bool, Seq<Seq<char>>)
    decreases ls.len(),
{
    if ls.len() == 0 {
        (false, seq![])
    } else {
        let (in_ws, found) = cargo_scan(ls.drop_last());
        let line = ls.last();
        let in_now = if trim(line) == "[workspace]"@ {
            true
        } else if starts_with(line, "["@) && in_ws {
            false
        } else {
            in_ws
        };
        let member = trim_class(trim(line), CharClass::MemberPunct);
        if in_now && contains(line, "\""@) && member.len() > 0 && !starts_with(member, "["@) && !starts_with(member, "members"@) {
            (in_now, found.push(member))
        } else {
            (in_now, found)
        }
    }
}

/// The quoted entries inside the `[workspace]` table of a `Cargo.toml`, one
/// per line, other than `members` and array brackets.
pub open spec fn cargo_members(content: Seq<char>) -> Seq<Seq<char>> {
    cargo_scan(lines_of(content)).1
}

/// The workspaces the configuration declares: those of `package.json`, then
/// the members of a Cargo workspace.
pub open spec fn workspace_hints(pkg: Option<Seq<char>>, cargo: Option<Seq<char>>) -> Seq<Seq<char>> {
    (match pkg { Some(c) => package_workspaces(c), None => seq![] })
        + (match cargo { Some(c) => cargo_members(c), None => seq![] })
}

/// Detects workspaces from the contents of `package.json` and `Cargo.toml`,
/// when they could be read.
pub fn detect_workspaces(pkg: Option<&str>, cargo: Option<&str>) -> (r: Vec<String>)
    ensures
        r@.map_values(|s: String| s@) == workspace_hints(
            match pkg { Some(c) => Some(c@), None => None },
            match cargo { Some(c) => Some(c@), None => None }),
{
    let mut hints: Vec<String> = Vec::new();
    if let Some(content) = pkg {
        if let Some(items) = json_string_array(content, "workspaces") {
            let ghost iv = items@.map_values(|x: Option<String>| match x { Some(s) => Some(s@), None => None });
            for i in 0..items.len()
                invariant
                    iv == items@.map_values(|x: Option<String>| match x { Some(s) => Some(s@), None => None }),
                    hints@.map_values(|s: String| s@) == strings_of(iv.take(i as int)),
            {
                assert(iv.take(i + 1).drop_last() == iv.take(i as int));
                let ghost hv = hints@.map_values(|s: String| s@);
                if let Some(s) = &items[i] {
                    hints.push(s.clone());
                    assert(hints@.map_values(|s: String| s@) == hv.push(s@));
                }
            }
            assert(iv.take(items@.len() as int) == iv);
        }
    }
    let ghost after_pkg = hints@.map_values(|s: String| s@);
    if let Some(content) = cargo {
        let cv = chars_of(content);
        let ls = lines(&cv);
        let ghost lsv = ls@.map_values(|l: Vec<char>| l@);
        assert(lsv == lines_of(content@));
        let mut in_ws = false;
        let ws = chars_of("[workspace]");
        let open = chars_of("[");
        let quote = chars_of("\"");
        let members = chars_of("members");
        for i in 0..ls.len()
            invariant
                lsv == ls@.map_values(|l: Vec<char>| l@),
                ws@ == "[workspace]"@,
                open@ == "["@,
                quote@ == "\""@,
                members@ == "members"@,
                in_ws == cargo_scan(lsv.take(i as int)).0,
                hints@.map_values(|s: String| s@) == after_pkg + cargo_scan(lsv.take(i as int)).1,
        {
            let line = &ls[i];
            assert(lsv.take(i + 1).drop_last() == lsv.take(i as int));
            assert(lsv.take(i + 1).last() == line@);
            let t = trimmed(line, CharClass::Whitespace);
            if crate::text::seq_eq(&t, &ws) {
                in_ws = true;
            } else if starts_with_exec(line, &open) && in_ws {
                in_ws = false;
            }
            let member = trimmed(&t, CharClass::MemberPunct);
            let ghost hv = hints@.map_values(|s: String| s@);
            if in_ws && contains_exec(line, &quote) && member.len() > 0 && !starts_with_exec(&member, &open)
                && !starts_with_exec(&member, &members) {
                hints.push(string_of(&member));
                assert(hints@.map_values(|s: String| s@) == hv.push(member@));
            }
        }
        assert(lsv.take(ls@.len() as int) == lsv);
    }
    hints
}

// ---------------------------------------------------------------------------
// The compact directory tree
// ---------------------------------------------------------------------------

/// One entry of the compact tree: its name, indented by its depth below the
/// root, with `/` after directories; nothing for the root itself.
pub open spec fn tree_line_text(path: Seq<char>, root: Seq<char>, is_dir: bool) -> Option<Seq<char>> {
    if path_order_of(path, root) == 0 {
        None
    } else {
        let rel = match strip_prefix_of(path, root) { Some(r) => r, None => path };
        let depth = component_count_of(rel);
        let indent: nat = if depth >= 1 { (depth - 1) as nat } else { 0 };
        Some(repeat("  "@, indent) + name_or_empty(path) + if is_dir { "/\n"@ } else { "\n"@ })
    }
}

/// The line of the compact tree for one walked entry.
pub fn compact_tree_line(path: &str, root: &str, is_dir: bool) -> (r: Option<String>)
    ensures
        match r {
            Some(s) => tree_line_text(path@, root@, is_dir) == Some(s@),
            None => tree_line_text(path@, root@, is_dir) is None,
        },
{
    if compare_paths(path, root) == 0 {
        return None;
    }
    let rel = match strip_prefix(path, root) {
        Some(r) => r,
        None => path.to_owned(),
    };
    let depth = component_count(rel.as_str());
    let indent = if depth >= 1 { depth - 1 } else { 0 };
    let mut out: Vec<char> = Vec::new();
    let unit = chars_of("  ");
    push_repeat(&mut out, &unit, indent);
    let name = file_name_or_empty(path);
    push_all(&mut out, &name);
    if is_dir {
        push_str(&mut out, "/\n");
    } else {
        push_str(&mut out, "\n");
    }
    Some(string_of(&out))
}

} // verus!
