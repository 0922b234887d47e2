//! `ctx flow`: where a symbol is imported, defined, called, passed and read,
//! classified with the syntax tree and rendered in narrative order.
use vstd::prelude::*;
use crate::text::{
    chars_of, concat_n, decimal, lemma_concat_n_succ, lines, lines_of, padded_decimal, push_all,
    push_decimal, push_padded_decimal, push_repeat, push_str, repeat, string_of, contains,
    contains_exec, starts_with, starts_with_exec,
};
use crate::paths::{compare_paths, file_name_or_empty, has_extension, has_extension_exec, name_or_empty, path_order_of};
use crate::ts::{
    classify_identifier, grammar_accepted_of, is_parse_of, enclosing_function, find_enclosing_function, find_identifiers_on_line, lang_of_path, parse, Lang,
    RefKind, SyntaxTree, first_where, lemma_first_where_found, lemma_first_where_none,
};
use crate::commands::grep::numbered_line;

verus! {

/// The options of `ctx flow`.
pub struct FlowArgs {
    /// Symbol to trace through the codebase.
    pub symbol: String,
    /// Paths to search.
    pub paths: Vec<String>,
    /// Filter by file type extension (e.g., ts, rs, py).
    pub file_type: Option<String>,
    /// Exclude test files.
    pub no_tests: bool,
    /// Maximum number of files to search.
    pub limit: usize,
}

/// The characters that a regex needs escaped.
pub open spec fn is_regex_special(c: char) -> bool {
    c == '\\' || c == '.' || c == '+' || c == '*' || c == '?' || c == '(' || c == ')' || c == '['
        || c == ']' || c == '{' || c == '}' || c == '|' || c == '^' || c == '$'
}

/// `s` with a backslash before each regex-special character.
pub open spec fn escaped(s: Seq<char>) -> Seq<char>
    decreases s.len(),
{
    if s.len() == 0 {
        seq![]
    } else {
        let c = s.last();
        escaped(s.drop_last()) + if is_regex_special(c) { seq!['\\', c] } else { seq![c] }
    }
}

/// Escape regex-special characters in a symbol name.
pub fn regex_escape_ident(s: &str) -> (r: String)
    ensures
        r@ == escaped(s@),
{
    let cs = chars_of(s);
    let mut out: Vec<char> = Vec::new();
    for i in 0..cs.len()
        invariant
            out@ == escaped(cs@.take(i as int)),
    {
        let c = cs[i];
        assert(cs@.take(i + 1).drop_last() == cs@.take(i as int));
        if c == '\\' || c == '.' || c == '+' || c == '*' || c == '?' || c == '(' || c == ')' || c == '['
            || c == ']' || c == '{' || c == '}' || c == '|' || c == '^' || c == '$' {
            out.push('\\');
        }
        out.push(c);
    }
    assert(cs@.take(cs@.len() as int) == cs@);
    string_of(&out)
}

/// The pattern that finds the symbol as a whole word.
pub open spec fn word_pattern(symbol: Seq<char>) -> Seq<char> {
    "\\b"@ + escaped(symbol) + "\\b"@
}

/// The matcher for the symbol as a whole word, or, when it does not compile,
/// the context message and the matcher's error.
pub fn symbol_matcher(symbol: &str) -> (r: Result<grep_regex::RegexMatcher, (String, String)>)
    ensures
        r is Ok <==> crate::commands::grep::regex_error_of(word_pattern(symbol@)) is None,
        r matches Err(e) ==> e.0@ == "Invalid symbol name: "@ + symbol@
            && crate::commands::grep::regex_error_of(word_pattern(symbol@)) == Some(e.1@),
{
    let mut p: Vec<char> = Vec::new();
    push_str(&mut p, "\\b");
    let esc = regex_escape_ident(symbol);
    push_str(&mut p, esc.as_str());
    push_str(&mut p, "\\b");
    let ps = string_of(&p);
    match crate::commands::grep::new_line_matcher(ps.as_str()) {
        Ok(m) => Ok(m),
        Err(e) => {
            let mut msg: Vec<char> = Vec::new();
            push_str(&mut msg, "Invalid symbol name: ");
            push_str(&mut msg, symbol);
            Err((string_of(&msg), e))
        },
    }
}

/// A file name that `ctx flow` treats as a test: `.test.`, `.spec.` or
/// `_test.` inside it, or a `test_` prefix.
pub open spec fn is_flow_test_name(name: Seq<char>) -> bool {
    ||| contains(name, ".test."@)
    ||| contains(name, ".spec."@)
    ||| contains(name, "_test."@)
    ||| starts_with(name, "test_"@)
}

/// Whether the file name of `path` looks like a test file.
pub fn is_test_file(path: &str) -> (b: bool)
    ensures
        b == is_flow_test_name(name_or_empty(path@)),
{
    let name = file_name_or_empty(path);
    contains_exec(&name, &chars_of(".test.")) || contains_exec(&name, &chars_of(".spec."))
        || contains_exec(&name, &chars_of("_test.")) || starts_with_exec(&name, &chars_of("test_"))
}

/// Whether a walked file is searched: it has the requested extension, if one
/// was given, is not a test file when tests are excluded, and has a language
/// that can be parsed.
pub open spec fn keeps_flow_file(path: Seq<char>, file_type: Option<Seq<char>>, no_tests: bool) -> bool {
    &&& (file_type matches Some(ext) ==> has_extension(path, ext))
    &&& !(no_tests && is_flow_test_name(name_or_empty(path)))
    &&& lang_of_path(path) is Some
}

/// The selection that `collect_files` applies to each walked file.
pub fn keep_flow_file(path: &str, file_type: &Option<String>, no_tests: bool) -> (b: bool)
    ensures
        b == keeps_flow_file(path@, match file_type { Some(e) => Some(e@), None => None }, no_tests),
{
    if let Some(ext) = file_type {
        if !has_extension_exec(path, ext.as_str()) {
            return false;
        }
    }
    if no_tests && is_test_file(path) {
        return false;
    }
    Lang::from_path(path).is_some()
}

/// Rows `line - ctx ..= line + ctx`, cut to a file of `total` lines.
pub open spec fn ctx_range(line: int, ctx: int, total: int) -> (int, int) {
    (if line - ctx > 0 { line - ctx } else { 0 },
     if line + ctx < (if total > 0 { total - 1 } else { 0 }) { line + ctx } else { if total > 0 { total - 1 } else { 0 } })
}

/// The rows around `line`, cut to a file of `total` lines.
pub fn ctx_range_exec(line: usize, ctx: usize, total: usize) -> (r: (usize, usize))
    requires
        line + ctx <= usize::MAX,
    ensures
        r.0 as int == ctx_range(line as int, ctx as int, total as int).0,
        r.1 as int == ctx_range(line as int, ctx as int, total as int).1,
{
    let last = if total > 0 { total - 1 } else { 0 };
    (if line > ctx { line - ctx } else { 0 }, if line + ctx < last { line + ctx } else { last })
}


// ---------------------------------------------------------------------------
// Sites and snippets
// ---------------------------------------------------------------------------

/// One reference to the symbol: file, 0-based line, kind, and the numbered
/// source lines shown with it.
pub struct FlowSite {
    pub file: String,
    pub line: usize,
    pub kind: RefKind,
    pub snippet: String,
}

/// A site as plain values.
pub type SiteView = (Seq<char>, int, RefKind, Seq<char>);

pub open spec fn site_view(s: FlowSite) -> SiteView {
    (s.file@, s.line as int, s.kind, s.snippet@)
}

/// The rows shown for a reference of kind `kind` on row `target`: the
/// enclosing function (at most 15 rows) for definitions, else a few rows
/// around it.
pub open spec fn snippet_rows(t: SyntaxTree, src: Seq<char>, lang: Lang, target: int, kind: RefKind, total: int) -> (int, int) {
    match kind {
        RefKind::Definition | RefKind::TypeDefinition => match enclosing_function(t, src, target, lang) {
            Some((s, e)) => (s, if e < s + 14 { e } else { s + 14 }),
            None => ctx_range(target, 4, total),
        },
        RefKind::PropPass => ctx_range(target, 4, total),
        RefKind::PropReceive => ctx_range(target, 3, total),
        _ => ctx_range(target, 2, total),
    }
}

/// The snippet's arithmetic fits and every row it reads exists.
pub open spec fn snippet_ok(t: SyntaxTree, src: Seq<char>, lang: Lang, target: int, kind: RefKind, total: int) -> bool {
    let def = kind == RefKind::Definition || kind == RefKind::TypeDefinition;
    &&& def ==> match enclosing_function(t, src, target, lang) {
        Some((s, e)) => s + 14 <= usize::MAX,
        None => true,
    }
    &&& !(def && enclosing_function(t, src, target, lang) is Some) ==> target + 4 <= usize::MAX
    &&& (total >= 1 || snippet_rows(t, src, lang, target, kind, total).0 >= 1)
}

/// The last row a snippet shows.
pub open spec fn snippet_last(rows: (int, int), total: int) -> int {
    let cap = if total > 0 { total - 1 } else { 0 };
    if rows.1 < cap { rows.1 } else { cap }
}

/// The snippet: the rows numbered from 1, the target row marked with `>`.
pub open spec fn snippet_text(ls: Seq<Seq<char>>, target: int, rows: (int, int)) -> Seq<char> {
    let last = snippet_last(rows, ls.len() as int);
    concat_n(if last >= rows.0 { (last - rows.0 + 1) as nat } else { 0 }, |k: int| numbered_line(
        if rows.0 + k == target { '>' } else { ' ' }, (rows.0 + k + 1) as nat, ls[rows.0 + k]))
}

fn extract_snippet(ls: &Vec<Vec<char>>, target: usize, kind: RefKind, tree: &SyntaxTree, source: &str, lang: Lang)
    -> (r: String)
    requires
        tree.wf(),
        snippet_ok(*tree, source@, lang, target as int, kind, ls@.len() as int),
    ensures
        r@ == snippet_text(ls@.map_values(|l: Vec<char>| l@), target as int,
            snippet_rows(*tree, source@, lang, target as int, kind, ls@.len() as int)),
{
    let total = ls.len();
    let ghost lsv = ls@.map_values(|l: Vec<char>| l@);
    let ghost rows = snippet_rows(*tree, source@, lang, target as int, kind, total as int);
    let (start, end) = match kind {
        RefKind::Definition | RefKind::TypeDefinition => match find_enclosing_function(tree, source, target, lang) {
            Some((s, e)) => (s, if e < s + 14 { e } else { s + 14 }),
            None => ctx_range_exec(target, 4, total),
        },
        RefKind::PropPass => ctx_range_exec(target, 4, total),
        RefKind::PropReceive => ctx_range_exec(target, 3, total),
        _ => ctx_range_exec(target, 2, total),
    };
    assert(start as int == rows.0 && end as int == rows.1);
    let cap = if total > 0 { total - 1 } else { 0 };
    let last = if end < cap { end } else { cap };
    let mut out: Vec<char> = Vec::new();
    let ghost f = |k: int| numbered_line(if rows.0 + k == target { '>' } else { ' ' }, (rows.0 + k + 1) as nat, lsv[rows.0 + k]);
    if start <= last {
        let mut i = start;
        while i <= last
            invariant
                start <= i <= last + 1,
                last < total || (total == 0 && last == 0),
                total >= 1 || start >= 1,
                total == ls@.len(),
                start as int == rows.0,
                lsv == ls@.map_values(|l: Vec<char>| l@),
                f == (|k: int| numbered_line(if rows.0 + k == target { '>' } else { ' ' }, (rows.0 + k + 1) as nat, lsv[rows.0 + k])),
                out@ == concat_n((i - start) as nat, f),
            decreases last + 1 - i,
        {
            out.push(if i == target { '>' } else { ' ' });
            push_padded_decimal(&mut out, i + 1, 4);
            out.push(' ');
            push_all(&mut out, &ls[i]);
            out.push('\n');
            proof {
                lemma_concat_n_succ((i - start) as nat, f);
            }
            i = i + 1;
        }
    }
    string_of(&out)
}


/// The kinds in `ks` in order of first occurrence, each once.
pub open spec fn dedup_kinds(ks: Seq<RefKind>) -> Seq<RefKind>
    decreases ks.len(),
{
    if ks.len() == 0 {
        seq![]
    } else {
        let d = dedup_kinds(ks.drop_last());
        if d.contains(ks.last()) { d } else { d.push(ks.last()) }
    }
}

/// The kinds of the references to `symbol` on row `line`, each once.
pub open spec fn line_kinds(t: SyntaxTree, src: Seq<char>, lang: Lang, line: int, symbol: Seq<char>) -> Seq<RefKind> {
    dedup_kinds(t.idents_upto(src, line, symbol, t.len() as int).map_values(|i: int| t.classification(lang, i)))
}

/// The sites of one matching row: one per kind of reference found on it.
pub open spec fn line_sites(t: SyntaxTree, src: Seq<char>, lang: Lang, path: Seq<char>, line: int, symbol: Seq<char>) -> Seq<SiteView> {
    let ls = lines_of(src);
    line_kinds(t, src, lang, line, symbol).map_values(|k: RefKind|
        (path, line, k, snippet_text(ls, line, snippet_rows(t, src, lang, line, k, ls.len() as int))))
}

/// The concatenation of lists of sites.
pub open spec fn flatten_sites(parts: Seq<Seq<SiteView>>) -> Seq<SiteView>
    decreases parts.len(),
{
    if parts.len() == 0 { seq![] } else { flatten_sites(parts.drop_last()) + parts.last() }
}

/// The sites of a file, row by row in the order of `match_lines`.
pub open spec fn file_sites_spec(t: SyntaxTree, src: Seq<char>, lang: Lang, path: Seq<char>, match_lines: Seq<usize>, symbol: Seq<char>) -> Seq<SiteView> {
    flatten_sites(match_lines.map_values(|l: usize| line_sites(t, src, lang, path, l as int, symbol)))
}

/// Every snippet of the file's sites can be built.
pub open spec fn file_sites_ok(t: SyntaxTree, src: Seq<char>, lang: Lang, match_lines: Seq<usize>, symbol: Seq<char>) -> bool {
    forall|j: int, q: int| 0 <= j < match_lines.len() && 0 <= q < line_kinds(t, src, lang, match_lines[j] as int, symbol).len()
        ==> #[trigger] snippet_ok(t, src, lang, match_lines[j] as int, line_kinds(t, src, lang, match_lines[j] as int, symbol)[q],
            lines_of(src).len() as int)
}

fn contains_kind(v: &Vec<RefKind>, k: RefKind) -> (b: bool)
    ensures
        b == v@.contains(k),
{
    for i in 0..v.len()
        invariant
            forall|q: int| 0 <= q < i ==> v@[q] != k,
    {
        if v[i] == k {
            return true;
        }
    }
    false
}

/// Every snippet of the sites of one row can be built.
pub open spec fn line_sites_ok(t: SyntaxTree, src: Seq<char>, lang: Lang, line: int, symbol: Seq<char>) -> bool {
    forall|q: int| 0 <= q < line_kinds(t, src, lang, line, symbol).len()
        ==> #[trigger] snippet_ok(t, src, lang, line, line_kinds(t, src, lang, line, symbol)[q], lines_of(src).len() as int)
}

proof fn lemma_new_kind_listed(ks: Seq<RefKind>, q: int, seen: Seq<RefKind>, kind: RefKind)
    requires
        0 <= q < ks.len(),
        seen == dedup_kinds(ks.take(q)),
        ks[q] == kind,
        !seen.contains(kind),
    ensures
        seen.len() < dedup_kinds(ks).len(),
        dedup_kinds(ks)[seen.len() as int] == kind,
{
    lemma_dedup_take(ks, q + 1, ks.len() as int);
    assert(ks.take(ks.len() as int) == ks);
    assert(ks.take(q + 1).drop_last() == ks.take(q));
    assert(dedup_kinds(ks.take(q + 1)) == seen.push(kind));
    let lk = dedup_kinds(ks);
    assert(lk.take(seen.len() as int + 1) == seen.push(kind));
    assert(lk.take(seen.len() as int + 1)[seen.len() as int] == lk[seen.len() as int]);
}

/// Appends the sites of one matching row; `false` when a snippet cannot be built.
#[verifier::rlimit(40)]
fn push_line_sites(sites: &mut Vec<FlowSite>, tree: &SyntaxTree, source: &str, ls: &Vec<Vec<char>>, lang: Lang,
    path: &str, line: usize, symbol: &str) -> (ok: bool)
    requires
        tree.wf(),
        ls@.map_values(|l: Vec<char>| l@) == lines_of(source@),
    ensures
        ok == line_sites_ok(*tree, source@, lang, line as int, symbol@),
        ok ==> final(sites)@.map_values(|s: FlowSite| site_view(s))
            == old(sites)@.map_values(|s: FlowSite| site_view(s)) + line_sites(*tree, source@, lang, path@, line as int, symbol@),
{
    let ghost lsv = ls@.map_values(|l: Vec<char>| l@);
    let idents = find_identifiers_on_line(tree, source, line, symbol);
    let ghost ids = tree.idents_upto(source@, line as int, symbol@, tree.len() as int);
    let ghost ks = ids.map_values(|i: int| tree.classification(lang, i));
    let ghost lk = line_kinds(*tree, source@, lang, line as int, symbol@);
    let ghost before = sites@.map_values(|s: FlowSite| site_view(s));
    let ghost g = |k: RefKind| (path@, line as int, k,
        snippet_text(lsv, line as int, snippet_rows(*tree, source@, lang, line as int, k, lsv.len() as int)));
    let mut seen: Vec<RefKind> = Vec::new();
    assert(idents@.len() == ids.len()) by {
        assert(idents@.map_values(|i: usize| i as int).len() == idents@.len());
    }
    assert(ks.take(0) == Seq::<RefKind>::empty());
    for q in 0..idents.len()
        invariant
            tree.wf(),
            lsv == ls@.map_values(|l: Vec<char>| l@),
            lsv == lines_of(source@),
            idents@.map_values(|i: usize| i as int) == ids,
            idents@.len() == ids.len(),
            forall|k: int| 0 <= k < idents@.len() ==> #[trigger] idents@[k] < tree.len(),
            ks == ids.map_values(|i: int| tree.classification(lang, i)),
            lk == dedup_kinds(ks),
            ids == tree.idents_upto(source@, line as int, symbol@, tree.len() as int),
            lk == line_kinds(*tree, source@, lang, line as int, symbol@),
            seen@ == dedup_kinds(ks.take(q as int)),
            g == (|k: RefKind| (path@, line as int, k,
                snippet_text(lsv, line as int, snippet_rows(*tree, source@, lang, line as int, k, lsv.len() as int)))),
            sites@.map_values(|s: FlowSite| site_view(s)) == before + seen@.map_values(g),
            forall|p: int| 0 <= p < seen@.len() ==> #[trigger] snippet_ok(*tree, source@, lang, line as int, seen@[p], lsv.len() as int),
    {
        assert(ks.take(q + 1).drop_last() == ks.take(q as int));
        assert(idents@.map_values(|i: usize| i as int)[q as int] == idents@[q as int] as int);
        let kind = classify_identifier(tree, idents[q], source, lang);
        assert(ks[q as int] == kind);
        assert(ks.take(q + 1).last() == kind);
        if !contains_kind(&seen, kind) {
            let ok = snippet_fits(ls, line, kind, tree, source, lang);
            if !ok {
                proof {
                    lemma_new_kind_listed(ks, q as int, seen@, kind);
                    assert(lk[seen@.len() as int] == kind);
                    assert(lsv.len() == ls@.len());
                    assert(!snippet_ok(*tree, source@, lang, line as int, lk[seen@.len() as int], lines_of(source@).len() as int));
                    assert(lk == line_kinds(*tree, source@, lang, line as int, symbol@));
                    assert(!line_sites_ok(*tree, source@, lang, line as int, symbol@));
                }
                return false;
            }
            let snippet = extract_snippet(ls, line, kind, tree, source, lang);
            let ghost prev_seen = seen@;
            seen.push(kind);
            let ghost sv = sites@.map_values(|s: FlowSite| site_view(s));
            sites.push(FlowSite { file: path.to_owned(), line, kind, snippet });
            assert(sites@.map_values(|s: FlowSite| site_view(s)) == sv.push(g(kind)));
            assert(seen@.map_values(g) == prev_seen.map_values(g).push(g(kind)));
        }
    }
    assert(ks.take(ks.len() as int) == ks);
    true
}

/// The sites of one file, with its syntax tree already parsed; `None` where a
/// snippet cannot be built (a row beyond the file, or arithmetic that overflows).
pub fn file_sites_with(tree: &SyntaxTree, source: &str, lang: Lang, path: &str, match_lines: &Vec<usize>, symbol: &str)
    -> (r: Option<Vec<FlowSite>>)
    requires
        tree.wf(),
    ensures
        r is Some <==> file_sites_ok(*tree, source@, lang, match_lines@, symbol@),
        r matches Some(v) ==> v@.map_values(|s: FlowSite| site_view(s))
            == file_sites_spec(*tree, source@, lang, path@, match_lines@, symbol@),
{
    let src = chars_of(source);
    let ls = lines(&src);
    let ghost lsv = ls@.map_values(|l: Vec<char>| l@);
    assert(lsv == lines_of(source@));
    let ghost parts = match_lines@.map_values(|l: usize| line_sites(*tree, source@, lang, path@, l as int, symbol@));
    let mut sites: Vec<FlowSite> = Vec::new();
    assert(parts.take(0) == Seq::<Seq<SiteView>>::empty());
    for j in 0..match_lines.len()
        invariant
            tree.wf(),
            lsv == ls@.map_values(|l: Vec<char>| l@),
            lsv == lines_of(source@),
            parts == match_lines@.map_values(|l: usize| line_sites(*tree, source@, lang, path@, l as int, symbol@)),
            sites@.map_values(|s: FlowSite| site_view(s)) == flatten_sites(parts.take(j as int)),
            forall|jj: int| 0 <= jj < j ==> #[trigger] line_sites_ok(*tree, source@, lang, match_lines@[jj] as int, symbol@),
    {
        let line = match_lines[j];
        if !push_line_sites(&mut sites, tree, source, &ls, lang, path, line, symbol) {
            proof {
                assert(!line_sites_ok(*tree, source@, lang, match_lines@[j as int] as int, symbol@));
                let q = choose|q: int| 0 <= q < line_kinds(*tree, source@, lang, line as int, symbol@).len()
                    && !snippet_ok(*tree, source@, lang, line as int, line_kinds(*tree, source@, lang, line as int, symbol@)[q], lines_of(source@).len() as int);
                assert(!snippet_ok(*tree, source@, lang, match_lines@[j as int] as int,
                    line_kinds(*tree, source@, lang, match_lines@[j as int] as int, symbol@)[q], lines_of(source@).len() as int));
            }
            return None;
        }
        assert(parts.take(j + 1).drop_last() == parts.take(j as int));
    }
    assert(parts.take(match_lines@.len() as int) == parts);
    proof {
        assert forall|j: int, q: int| 0 <= j < match_lines@.len() && 0 <= q < line_kinds(*tree, source@, lang, match_lines@[j] as int, symbol@).len()
            implies #[trigger] snippet_ok(*tree, source@, lang, match_lines@[j] as int, line_kinds(*tree, source@, lang, match_lines@[j] as int, symbol@)[q],
                lines_of(source@).len() as int) by {
            assert(line_sites_ok(*tree, source@, lang, match_lines@[j] as int, symbol@));
        }
    }
    Some(sites)
}

proof fn lemma_dedup_take(s: Seq<RefKind>, a: int, b: int)
    requires
        0 <= a <= b <= s.len(),
    ensures
        dedup_kinds(s.take(a)).len() <= dedup_kinds(s.take(b)).len(),
        dedup_kinds(s.take(b)).take(dedup_kinds(s.take(a)).len() as int) == dedup_kinds(s.take(a)),
    decreases b - a,
{
    if a < b {
        lemma_dedup_take(s, a, b - 1);
        assert(s.take(b).drop_last() == s.take(b - 1));
        let d = dedup_kinds(s.take(b - 1));
        let da = dedup_kinds(s.take(a));
        if !d.contains(s.take(b).last()) {
            assert(d.push(s.take(b).last()).take(da.len() as int) == d.take(da.len() as int));
        }
    }
}

/// Whether the snippet of a reference can be built.
fn snippet_fits(ls: &Vec<Vec<char>>, target: usize, kind: RefKind, tree: &SyntaxTree, source: &str, lang: Lang) -> (b: bool)
    requires
        tree.wf(),
    ensures
        b == snippet_ok(*tree, source@, lang, target as int, kind, ls@.len() as int),
{
    let total = ls.len();
    let def = kind == RefKind::Definition || kind == RefKind::TypeDefinition;
    let found = if def { find_enclosing_function(tree, source, target, lang) } else { None };
    let start: usize = match found {
        Some((s, e)) => {
            if s > usize::MAX - 14 {
                return false;
            }
            s
        },
        None => {
            if target > usize::MAX - 4 {
                return false;
            }
            let ctx: usize = match kind {
                RefKind::Definition | RefKind::TypeDefinition | RefKind::PropPass => 4,
                RefKind::PropReceive => 3,
                _ => 2,
            };
            ctx_range_exec(target, ctx, total).0
        },
    };
    total >= 1 || start >= 1
}


/// The sites of one file: none when its language is unknown or its grammar
/// is not accepted; else those of `file_sites_with` on the tree of the source.
pub fn file_sites(path: &str, source: &str, match_lines: &Vec<usize>, symbol: &str) -> (r: Option<Vec<FlowSite>>)
    ensures
        lang_of_path(path@) is None ==> (r matches Some(v) && v@.len() == 0),
        match lang_of_path(path@) {
            Some(lang) => {
                &&& !grammar_accepted_of(lang) ==> (r matches Some(v) && v@.len() == 0)
                &&& grammar_accepted_of(lang) ==> exists|t: SyntaxTree| #![trigger is_parse_of(t, source@, lang)] {
                    &&& is_parse_of(t, source@, lang)
                    &&& (r is Some <==> file_sites_ok(t, source@, lang, match_lines@, symbol@))
                    &&& (r matches Some(v) ==> v@.map_values(|s: FlowSite| site_view(s))
                        == file_sites_spec(t, source@, lang, path@, match_lines@, symbol@))
                }
            },
            None => true,
        },
{
    let lang = match Lang::from_path(path) {
        Some(l) => l,
        None => { return Some(Vec::new()); },
    };
    match parse(source, lang) {
        Ok(tree) => file_sites_with(&tree, source, lang, path, match_lines, symbol),
        Err(_) => Some(Vec::new()),
    }
}

/// Whether the searching of files for the symbol stops: as many files matched
/// as the limit allows.
pub fn flow_search_done(matched_files: usize, limit: usize) -> (b: bool)
    ensures
        b == (matched_files >= limit),
{
    matched_files >= limit
}

// ---------------------------------------------------------------------------
// Ordering
// ---------------------------------------------------------------------------

/// The narrative order of sites: by kind, then file, then line.
pub open spec fn site_less(a: SiteView, b: SiteView) -> bool {
    ||| a.2.spec_rank() < b.2.spec_rank()
    ||| a.2.spec_rank() == b.2.spec_rank() && path_order_of(a.0, b.0) < 0
    ||| a.2.spec_rank() == b.2.spec_rank() && path_order_of(a.0, b.0) == 0 && a.1 < b.1
}

/// `s` (sorted) with `x` inserted after every site that does not come after it.
pub open spec fn insert_site(s: Seq<SiteView>, x: SiteView) -> Seq<SiteView>
    decreases s.len(),
{
    if s.len() == 0 {
        seq![x]
    } else if !site_less(x, s.last()) {
        s.push(x)
    } else {
        insert_site(s.drop_last(), x).push(s.last())
    }
}

/// `s` stably sorted in narrative order.
pub open spec fn sorted_sites(s: Seq<SiteView>) -> Seq<SiteView>
    decreases s.len(),
{
    if s.len() == 0 { seq![] } else { insert_site(sorted_sites(s.drop_last()), s.last()) }
}

/// No site of `s` is followed by one that comes before it.
pub open spec fn sites_in_order(s: Seq<SiteView>) -> bool {
    forall|i: int| 0 <= i < s.len() - 1 ==> !site_less(#[trigger] s[i + 1], s[i])
}

/// Inserting a site adds it to the sites, whatever the order.
pub proof fn lemma_insert_site_multiset(s: Seq<SiteView>, x: SiteView)
    ensures
        insert_site(s, x).to_multiset() == s.to_multiset().insert(x),
    decreases s.len(),
{
    broadcast use vstd::seq_lib::group_to_multiset_ensures;
    if s.len() == 0 {
        assert(seq![x] == Seq::<SiteView>::empty().push(x));
    } else if !site_less(x, s.last()) {
    } else {
        lemma_insert_site_multiset(s.drop_last(), x);
        assert(s == s.drop_last().push(s.last()));
    }
}

/// Sorting the sites keeps every site, as often as it occurs: the result is a
/// permutation of the input.
pub proof fn lemma_sorted_sites_permutation(s: Seq<SiteView>)
    ensures
        sorted_sites(s).to_multiset() == s.to_multiset(),
    decreases s.len(),
{
    broadcast use vstd::seq_lib::group_to_multiset_ensures;
    if s.len() > 0 {
        lemma_sorted_sites_permutation(s.drop_last());
        lemma_insert_site_multiset(sorted_sites(s.drop_last()), s.last());
        assert(s == s.drop_last().push(s.last()));
    }
}

fn site_less_exec(a: &FlowSite, b: &FlowSite) -> (r: bool)
    ensures
        r == site_less(site_view(*a), site_view(*b)),
        r ==> !site_less(site_view(*b), site_view(*a)),
{
    let ra = a.kind.rank();
    let rb = b.kind.rank();
    if ra != rb {
        return ra < rb;
    }
    let o = compare_paths(a.file.as_str(), b.file.as_str());
    o < 0 || (o == 0 && a.line < b.line)
}

fn insert_site_exec(s: Vec<FlowSite>, x: FlowSite) -> (r: Vec<FlowSite>)
    requires
        sites_in_order(s@.map_values(|v: FlowSite| site_view(v))),
    ensures
        r@.map_values(|v: FlowSite| site_view(v)) == insert_site(s@.map_values(|v: FlowSite| site_view(v)), site_view(x)),
        sites_in_order(r@.map_values(|v: FlowSite| site_view(v))),
        r@.len() == s@.len() + 1,
        site_view(r@.last()) == site_view(x) || (s@.len() > 0 && site_view(r@.last()) == site_view(s@.last())),
    decreases s@.len(),
{
    let mut s = s;
    let ghost sv = s@.map_values(|v: FlowSite| site_view(v));
    let n = s.len();
    if n == 0 {
        s.push(x);
        assert(s@.map_values(|v: FlowSite| site_view(v)) == seq![site_view(x)]);
        s
    } else if !site_less_exec(&x, &s[n - 1]) {
        s.push(x);
        assert(s@.map_values(|v: FlowSite| site_view(v)) == sv.push(site_view(x)));
        s
    } else {
        let last = s.pop().unwrap();
        assert(s@.map_values(|v: FlowSite| site_view(v)) == sv.drop_last());
        assert(sites_in_order(sv.drop_last())) by {
            assert forall|i: int| 0 <= i < sv.drop_last().len() - 1 implies
                !site_less(#[trigger] sv.drop_last()[i + 1], sv.drop_last()[i]) by {
                assert(sv.drop_last()[i + 1] == sv[i + 1]);
            }
        }
        let ghost rest = s@;
        let mut r = insert_site_exec(s, x);
        let ghost rv = r@.map_values(|v: FlowSite| site_view(v));
        r.push(last);
        assert(r@.map_values(|v: FlowSite| site_view(v)) == rv.push(site_view(last)));
        assert(sv[n - 1] == site_view(last));
        assert(!site_less(site_view(last), rv.last())) by {
            if rv.last() != site_view(x) {
                assert(rest.map_values(|v: FlowSite| site_view(v))[n - 2] == site_view(rest.last()));
                assert(sv[n - 2] == rv.last());
                assert(!site_less(sv[(n - 2) + 1], sv[n - 2]));
            }
        }
        r
    }
}

/// Sorts the sites in narrative order (kind, then file, then line), keeping
/// the order of sites that compare equal.
pub fn sort_sites(sites: Vec<FlowSite>) -> (r: Vec<FlowSite>)
    ensures
        r@.map_values(|v: FlowSite| site_view(v)) == sorted_sites(sites@.map_values(|v: FlowSite| site_view(v))),
        sites_in_order(r@.map_values(|v: FlowSite| site_view(v))),
{
    let ghost input = sites@.map_values(|v: FlowSite| site_view(v));
    let n = sites.len();
    let mut rest = sites;
    let mut taken: Vec<FlowSite> = Vec::new();
    // take the sites from the back, then insert them from the front
    let mut i: usize = n;
    while i > 0
        invariant
            i <= n,
            n == input.len(),
            rest@.len() == i,
            rest@.map_values(|v: FlowSite| site_view(v)) == input.take(i as int),
            taken@.len() == n - i,
            forall|k: int| 0 <= k < n - i ==> site_view(#[trigger] taken@[k]) == input[n - 1 - k],
        decreases i,
    {
        let ghost rv = rest@.map_values(|v: FlowSite| site_view(v));
        let x = rest.pop().unwrap();
        assert(rest@.map_values(|v: FlowSite| site_view(v)) == rv.drop_last());
        assert(input.take(i - 1) == input.take(i as int).drop_last());
        assert(rv[i - 1] == site_view(x));
        assert(rv[i - 1] == input.take(i as int)[i - 1]);
        assert(site_view(x) == input[i - 1]);
        taken.push(x);
        i = i - 1;
    }
    let mut sorted: Vec<FlowSite> = Vec::new();
    let mut k: usize = 0;
    while taken.len() > 0
        invariant
            k + taken@.len() == n,
            n == input.len(),
            forall|q: int| 0 <= q < taken@.len() ==> site_view(#[trigger] taken@[q]) == input[n - 1 - q],
            sorted@.map_values(|v: FlowSite| site_view(v)) == sorted_sites(input.take(k as int)),
            sites_in_order(sorted@.map_values(|v: FlowSite| site_view(v))),
        decreases taken@.len(),
    {
        let ghost tl = taken@.len();
        let x = taken.pop().unwrap();
        assert(site_view(x) == input[k as int]);
        assert(input.take(k + 1).drop_last() == input.take(k as int));
        sorted = insert_site_exec(sorted, x);
        k = k + 1;
    }
    assert(input.take(n as int) == input);
    sorted
}


// ---------------------------------------------------------------------------
// Rendering
// ---------------------------------------------------------------------------

/// The header of a group of sites of one kind: the label, then a rule of `─`
/// filling the line to 66 columns.
pub open spec fn kind_header(k: RefKind) -> Seq<char> {
    let l = k.spec_label();
    let width: int = if l.len() + 3 < 66 { 66 - (l.len() + 3) } else { 0 };
    "\n── "@ + l + seq![' '] + repeat("─"@, width as nat) + seq!['\n']
}

/// One site: the file and 1-based line, then the snippet's lines indented.
pub open spec fn site_text(s: SiteView) -> Seq<char> {
    let ls = lines_of(s.3);
    "  "@ + s.0 + seq![':'] + decimal((s.1 + 1) as nat) + seq!['\n']
        + concat_n(ls.len(), |i: int| "    "@ + ls[i] + seq!['\n'])
}

/// Whether site `i` starts a new group (its kind differs from the previous site's).
pub open spec fn starts_group(sites: Seq<SiteView>, i: int) -> bool {
    i == 0 || sites[i - 1].2 != sites[i].2
}

/// The number of distinct files among the sites (paths equal as `Path`s count once).
pub open spec fn distinct_files(sites: Seq<SiteView>) -> nat
    decreases sites.len(),
{
    if sites.len() == 0 {
        0
    } else {
        let rest = sites.drop_last();
        distinct_files(rest) + if exists|j: int| 0 <= j < rest.len() && path_order_of(rest[j].0, sites.last().0) == 0 { 0nat } else { 1nat }
    }
}

/// The text rendering of the sorted sites.
pub open spec fn flow_text(symbol: Seq<char>, sites: Seq<SiteView>) -> Seq<char> {
    "Flow: "@ + symbol + seq!['\n']
        + concat_n(sites.len(), |i: int| (if starts_group(sites, i) { kind_header(sites[i].2) } else { seq![] }) + site_text(sites[i]))
        + seq!['\n'] + decimal(sites.len()) + " sites across "@ + decimal(distinct_files(sites)) + " files\n"@
}

fn count_files(sites: &Vec<FlowSite>) -> (n: usize)
    ensures
        n == distinct_files(sites@.map_values(|v: FlowSite| site_view(v))),
{
    let ghost sv = sites@.map_values(|v: FlowSite| site_view(v));
    let mut n: usize = 0;
    for i in 0..sites.len()
        invariant
            sv == sites@.map_values(|v: FlowSite| site_view(v)),
            n == distinct_files(sv.take(i as int)),
            n <= i,
    {
        let mut dup = false;
        for j in 0..i
            invariant
                i < sites@.len(),
                sv == sites@.map_values(|v: FlowSite| site_view(v)),
                dup <==> exists|q: int| 0 <= q < j && path_order_of(sv[q].0, sv[i as int].0) == 0,
        {
            let c = compare_paths(sites[j].file.as_str(), sites[i].file.as_str());
            assert(sv[j as int] == site_view(sites@[j as int]) && sv[i as int] == site_view(sites@[i as int]));
            if c == 0 {
                dup = true;
            }
        }
        proof {
            let t = sv.take(i + 1);
            assert(t.drop_last() == sv.take(i as int));
            assert(t.last() == sv[i as int]);
            assert((exists|q: int| 0 <= q < t.drop_last().len() && path_order_of(t.drop_last()[q].0, t.last().0) == 0)
                <==> (exists|q: int| 0 <= q < i && path_order_of(sv[q].0, sv[i as int].0) == 0)) by {
                if exists|q: int| 0 <= q < i && path_order_of(sv[q].0, sv[i as int].0) == 0 {
                    let q = choose|q: int| 0 <= q < i && path_order_of(sv[q].0, sv[i as int].0) == 0;
                    assert(t.drop_last()[q] == sv[q]);
                }
            }
        }
        if !dup {
            n = n + 1;
        }
    }
    assert(sv.take(sites@.len() as int) == sv);
    n
}

fn push_kind_header(out: &mut Vec<char>, kind: RefKind)
    ensures
        final(out)@ == old(out)@ + kind_header(kind),
{
    let label = kind.label();
    let lc = chars_of(label);
    let dash: Vec<char> = chars_of("─");
    let width: usize = if lc.len() < 63 { 66 - (lc.len() + 3) } else { 0 };
    push_str(out, "\n── ");
    push_all(out, &lc);
    out.push(' ');
    push_repeat(out, &dash, width);
    out.push('\n');
}

fn push_site(out: &mut Vec<char>, site: &FlowSite)
    requires
        site.line < usize::MAX,
    ensures
        final(out)@ == old(out)@ + site_text(site_view(*site)),
{
    let ghost start = out@;
    push_str(out, "  ");
    push_str(out, site.file.as_str());
    out.push(':');
    push_decimal(out, site.line + 1);
    out.push('\n');
    let sc = chars_of(site.snippet.as_str());
    let sl = lines(&sc);
    let ghost slv = sl@.map_values(|l: Vec<char>| l@);
    assert(slv == lines_of(site.snippet@));
    let ghost g = |k: int| "    "@ + slv[k] + seq!['\n'];
    let ghost top = out@;
    for k in 0..sl.len()
        invariant
            slv == sl@.map_values(|l: Vec<char>| l@),
            g == (|k: int| "    "@ + slv[k] + seq!['\n']),
            out@ == top + concat_n(k as nat, g),
    {
        push_str(out, "    ");
        push_all(out, &sl[k]);
        out.push('\n');
        proof { lemma_concat_n_succ(k as nat, g); }
    }
}

/// Renders the sorted sites: a header, each group of one kind under its
/// label, each site with its snippet, and the counts.
pub fn render_text(symbol: &str, sites: &Vec<FlowSite>) -> (r: String)
    requires
        forall|i: int| 0 <= i < sites@.len() ==> (#[trigger] sites@[i]).line < usize::MAX,
    ensures
        r@ == flow_text(symbol@, sites@.map_values(|v: FlowSite| site_view(v))),
{
    let ghost sv = sites@.map_values(|v: FlowSite| site_view(v));
    let mut out: Vec<char> = Vec::new();
    push_str(&mut out, "Flow: ");
    push_str(&mut out, symbol);
    out.push('\n');
    let ghost head = out@;
    let ghost f = |i: int| (if starts_group(sv, i) { kind_header(sv[i].2) } else { seq![] }) + site_text(sv[i]);
    for i in 0..sites.len()
        invariant
            sv == sites@.map_values(|v: FlowSite| site_view(v)),
            forall|i: int| 0 <= i < sites@.len() ==> (#[trigger] sites@[i]).line < usize::MAX,
            f == (|i: int| (if starts_group(sv, i) { kind_header(sv[i].2) } else { seq![] }) + site_text(sv[i])),
            out@ == head + concat_n(i as nat, f),
    {
        let ghost before = out@;
        let new_group = i == 0 || sites[i - 1].kind != sites[i].kind;
        assert(new_group == starts_group(sv, i as int));
        if new_group {
            push_kind_header(&mut out, sites[i].kind);
        }
        assert(out@ == before + (if starts_group(sv, i as int) { kind_header(sv[i as int].2) } else { seq![] }));
        push_site(&mut out, &sites[i]);
        proof { lemma_concat_n_succ(i as nat, f); }
    }
    let files = count_files(sites);
    out.push('\n');
    push_decimal(&mut out, sites.len());
    push_str(&mut out, " sites across ");
    push_decimal(&mut out, files);
    push_str(&mut out, " files\n");
    string_of(&out)
}


// ---------------------------------------------------------------------------
// Files and their matching rows, ordered by path
// ---------------------------------------------------------------------------

/// `s` (sorted) with path `x` inserted after every path that does not come after it.
pub open spec fn insert_path(s: Seq<Seq<char>>, x: Seq<char>) -> Seq<Seq<char>>
    decreases s.len(),
{
    if s.len() == 0 {
        seq![x]
    } else if path_order_of(x, s.last()) >= 0 {
        s.push(x)
    } else {
        insert_path(s.drop_last(), x).push(s.last())
    }
}

/// `s` stably sorted by path.
pub open spec fn sorted_paths(s: Seq<Seq<char>>) -> Seq<Seq<char>>
    decreases s.len(),
{
    if s.len() == 0 { seq![] } else { insert_path(sorted_paths(s.drop_last()), s.last()) }
}

/// No path of `s` is followed by one that comes before it.
pub open spec fn paths_in_order(s: Seq<Seq<char>>) -> bool {
    forall|i: int| 0 <= i < s.len() - 1 ==> path_order_of(s[i], #[trigger] s[i + 1]) <= 0
}

/// Inserting a path adds it to the paths, whatever the order.
pub proof fn lemma_insert_path_multiset(s: Seq<Seq<char>>, x: Seq<char>)
    ensures
        insert_path(s, x).to_multiset() == s.to_multiset().insert(x),
    decreases s.len(),
{
    broadcast use vstd::seq_lib::group_to_multiset_ensures;
    if s.len() == 0 {
        assert(seq![x] == Seq::<Seq<char>>::empty().push(x));
    } else if path_order_of(x, s.last()) >= 0 {
    } else {
        lemma_insert_path_multiset(s.drop_last(), x);
        assert(s == s.drop_last().push(s.last()));
    }
}

/// Sorting paths keeps every path, as often as it occurs.
pub proof fn lemma_sorted_paths_permutation(s: Seq<Seq<char>>)
    ensures
        sorted_paths(s).to_multiset() == s.to_multiset(),
    decreases s.len(),
{
    broadcast use vstd::seq_lib::group_to_multiset_ensures;
    if s.len() > 0 {
        lemma_sorted_paths_permutation(s.drop_last());
        lemma_insert_path_multiset(sorted_paths(s.drop_last()), s.last());
        assert(s == s.drop_last().push(s.last()));
    }
}

fn insert_path_exec(s: Vec<String>, x: String) -> (r: Vec<String>)
    requires
        paths_in_order(s@.map_values(|p: String| p@)),
    ensures
        r@.map_values(|p: String| p@) == insert_path(s@.map_values(|p: String| p@), x@),
        paths_in_order(r@.map_values(|p: String| p@)),
        r@.len() == s@.len() + 1,
        r@.last()@ == x@ || (s@.len() > 0 && r@.last()@ == s@.last()@),
    decreases s@.len(),
{
    let mut s = s;
    let ghost sv = s@.map_values(|p: String| p@);
    let n = s.len();
    if n == 0 {
        s.push(x);
        assert(s@.map_values(|p: String| p@) == seq![x@]);
        s
    } else if compare_paths(x.as_str(), s[n - 1].as_str()) >= 0 {
        s.push(x);
        assert(s@.map_values(|p: String| p@) == sv.push(x@));
        s
    } else {
        let last = s.pop().unwrap();
        assert(s@.map_values(|p: String| p@) == sv.drop_last());
        assert(paths_in_order(sv.drop_last())) by {
            assert forall|i: int| 0 <= i < sv.drop_last().len() - 1 implies
                path_order_of(sv.drop_last()[i], #[trigger] sv.drop_last()[i + 1]) <= 0 by {
                assert(sv.drop_last()[i + 1] == sv[i + 1]);
            }
        }
        let ghost rest = s@;
        let mut r = insert_path_exec(s, x);
        let ghost rv = r@.map_values(|p: String| p@);
        r.push(last);
        assert(r@.map_values(|p: String| p@) == rv.push(last@));
        assert(sv[n - 1] == last@);
        assert(path_order_of(rv.last(), last@) <= 0) by {
            if rv.last() != x@ {
                assert(rest.map_values(|p: String| p@)[n - 2] == rest.last()@);
                assert(sv[n - 2] == rv.last());
                assert(path_order_of(sv[n - 2], sv[(n - 2) + 1]) <= 0);
            }
        }
        r
    }
}

/// Sorts paths in `Path` order, keeping the order of equal ones.
pub fn sort_paths(paths: Vec<String>) -> (r: Vec<String>)
    ensures
        r@.map_values(|p: String| p@) == sorted_paths(paths@.map_values(|p: String| p@)),
        paths_in_order(r@.map_values(|p: String| p@)),
{
    let ghost input = paths@.map_values(|p: String| p@);
    let n = paths.len();
    let mut rest = paths;
    let mut taken: Vec<String> = Vec::new();
    let mut i: usize = n;
    while i > 0
        invariant
            i <= n,
            n == input.len(),
            rest@.len() == i,
            rest@.map_values(|p: String| p@) == input.take(i as int),
            taken@.len() == n - i,
            forall|k: int| 0 <= k < n - i ==> (#[trigger] taken@[k])@ == input[n - 1 - k],
        decreases i,
    {
        let ghost rv = rest@.map_values(|p: String| p@);
        let x = rest.pop().unwrap();
        assert(rest@.map_values(|p: String| p@) == rv.drop_last());
        assert(rv[i - 1] == x@);
        assert(rv[i - 1] == input.take(i as int)[i - 1]);
        taken.push(x);
        i = i - 1;
    }
    let mut sorted: Vec<String> = Vec::new();
    let mut k: usize = 0;
    while taken.len() > 0
        invariant
            k + taken@.len() == n,
            n == input.len(),
            forall|q: int| 0 <= q < taken@.len() ==> (#[trigger] taken@[q])@ == input[n - 1 - q],
            sorted@.map_values(|p: String| p@) == sorted_paths(input.take(k as int)),
            paths_in_order(sorted@.map_values(|p: String| p@)),
        decreases taken@.len(),
    {
        let x = taken.pop().unwrap();
        assert(x@ == input[k as int]);
        assert(input.take(k + 1).drop_last() == input.take(k as int));
        sorted = insert_path_exec(sorted, x);
        k = k + 1;
    }
    assert(input.take(n as int) == input);
    sorted
}

/// A file's matching rows as plain values.
pub open spec fn entry_view(e: (String, Vec<usize>)) -> (Seq<char>, Seq<usize>) {
    (e.0@, e.1@)
}

/// The 0-based rows of 1-based line numbers.
pub open spec fn zero_based(nums: Seq<u64>) -> Seq<usize> {
    nums.map_values(|l: u64| (l as usize - 1) as usize)
}

/// `entries` with `(p, rows)` recorded as a map keyed by path does it.
pub open spec fn record_entry(entries: Seq<(Seq<char>, Seq<usize>)>, p: Seq<char>, rows: Seq<usize>) -> Seq<(Seq<char>, Seq<usize>)> {
    let i = match first_where(0, entries.len() as int, |i: int| path_order_of(p, entries[i].0) <= 0) {
        Some(i) => i,
        None => entries.len() as int,
    };
    if i < entries.len() && path_order_of(p, entries[i].0) == 0 {
        entries.update(i, (entries[i].0, rows))
    } else {
        entries.insert(i, (p, rows))
    }
}

/// Each entry's path comes before the next one's: path order, one entry per path.
pub open spec fn entries_in_order(es: Seq<(Seq<char>, Seq<usize>)>) -> bool {
    forall|i: int| 0 <= i < es.len() - 1 ==> path_order_of(es[i].0, #[trigger] es[i + 1].0) < 0
}

/// Records the matching rows of a file (from the searcher's 1-based line
/// numbers) among the files found, kept ordered by path, one entry per path.
pub fn record_lines(entries: &mut Vec<(String, Vec<usize>)>, path: String, line_nums: &Vec<u64>)
    requires
        forall|i: int| 0 <= i < line_nums@.len() ==> 1 <= #[trigger] (line_nums@[i] as usize),
    ensures
        final(entries)@.map_values(|e: (String, Vec<usize>)| entry_view(e))
            == record_entry(old(entries)@.map_values(|e: (String, Vec<usize>)| entry_view(e)), path@, zero_based(line_nums@)),
        entries_in_order(old(entries)@.map_values(|e: (String, Vec<usize>)| entry_view(e)))
            ==> entries_in_order(final(entries)@.map_values(|e: (String, Vec<usize>)| entry_view(e))),
{
    let mut rows: Vec<usize> = Vec::new();
    for k in 0..line_nums.len()
        invariant
            forall|i: int| 0 <= i < line_nums@.len() ==> 1 <= #[trigger] (line_nums@[i] as usize),
            rows@ == zero_based(line_nums@.take(k as int)),
    {
        let l = line_nums[k] as usize;
        assert(1 <= (line_nums@[k as int] as usize));
        rows.push(l - 1);
        assert(zero_based(line_nums@.take(k + 1)) == zero_based(line_nums@.take(k as int)).push((l - 1) as usize));
    }
    assert(line_nums@.take(line_nums@.len() as int) == line_nums@);
    let ghost ev = entries@.map_values(|e: (String, Vec<usize>)| entry_view(e));
    let ghost pred = |i: int| path_order_of(path@, ev[i].0) <= 0;
    let n = entries.len();
    let mut i: usize = 0;
    let mut ord: i8 = 1;
    while i < n
        invariant
            n == entries@.len(),
            ev == entries@.map_values(|e: (String, Vec<usize>)| entry_view(e)),
            pred == (|i: int| path_order_of(path@, ev[i].0) <= 0),
            i <= n,
            forall|k: int| 0 <= k < i ==> !#[trigger] pred(k),
            0 < i ==> path_order_of(ev[i - 1].0, path@) < 0,
        ensures
            i <= n,
            forall|k: int| 0 <= k < i ==> !#[trigger] pred(k),
            0 < i ==> path_order_of(ev[i - 1].0, path@) < 0,
            i < n ==> pred(i as int) && ord == path_order_of(path@, ev[i as int].0),
        decreases n - i,
    {
        ord = compare_paths(path.as_str(), entries[i].0.as_str());
        assert(ev[i as int] == entry_view(entries@[i as int]));
        if ord <= 0 {
            break;
        }
        i = i + 1;
    }
    proof {
        if i < n {
            lemma_first_where_found(0, n as int, pred, i as int);
        } else {
            lemma_first_where_none(0, n as int, pred);
        }
    }
    if i < n && ord == 0 {
        let kept = entries[i].0.clone();
        assert(kept@ == ev[i as int].0);
        entries.set(i, (kept, rows));
        let ghost nv = ev.update(i as int, (ev[i as int].0, rows@));
        assert(entries@.map_values(|e: (String, Vec<usize>)| entry_view(e)) == nv);
        assert(entries_in_order(ev) ==> entries_in_order(nv)) by {
            if entries_in_order(ev) {
                assert forall|j: int| 0 <= j < nv.len() - 1 implies path_order_of(nv[j].0, #[trigger] nv[j + 1].0) < 0 by {
                    assert(nv[j].0 == ev[j].0);
                    assert(nv[j + 1].0 == ev[j + 1].0);
                    assert(path_order_of(ev[j].0, ev[j + 1].0) < 0);
                }
            }
        }
    } else {
        let ghost p = path@;
        entries.insert(i, (path, rows));
        let ghost nv = ev.insert(i as int, (p, rows@));
        assert(entries@.map_values(|e: (String, Vec<usize>)| entry_view(e)) == nv);
        assert(entries_in_order(ev) ==> entries_in_order(nv)) by {
            if entries_in_order(ev) {
                assert forall|j: int| 0 <= j < nv.len() - 1 implies path_order_of(nv[j].0, #[trigger] nv[j + 1].0) < 0 by {
                    if j + 1 < i {
                        assert(nv[j] == ev[j]);
                        assert(nv[j + 1] == ev[j + 1]);
                        assert(path_order_of(ev[j].0, ev[j + 1].0) < 0);
                    } else if j + 1 == i {
                        assert(nv[j] == ev[j]);
                        assert(nv[j + 1].0 == p);
                        assert(path_order_of(ev[i - 1].0, p) < 0);
                    } else if j == i {
                        assert(nv[j].0 == p);
                        assert(nv[j + 1] == ev[j]);
                        assert(ord < 0);
                        assert(path_order_of(p, ev[j].0) < 0);
                    } else {
                        assert(nv[j] == ev[j - 1]);
                        assert(nv[j + 1] == ev[j]);
                        assert(path_order_of(ev[j - 1].0, ev[(j - 1) + 1].0) < 0);
                    }
                }
            }
        }
    }
}


// ---------------------------------------------------------------------------
// All files
// ---------------------------------------------------------------------------

/// `part` is what the sites of a file are on its tree `t`.
pub open spec fn parsed_file_sites(t: SyntaxTree, c: Seq<char>, lg: Lang, path: Seq<char>, rows: Seq<usize>, symbol: Seq<char>,
    part: Option<Seq<SiteView>>) -> bool {
    &&& is_parse_of(t, c, lg)
    &&& (part is Some <==> file_sites_ok(t, c, lg, rows, symbol))
    &&& (part matches Some(v) ==> v == file_sites_spec(t, c, lg, path, rows, symbol))
}

/// What the sites of one file are: none when the file could not be read, its
/// language is unknown or its grammar is not accepted, else those of
/// `file_sites_with` on the tree of its content (`None` when a snippet cannot
/// be built).
pub open spec fn possible_file_sites(path: Seq<char>, content: Option<Seq<char>>, rows: Seq<usize>, symbol: Seq<char>,
    part: Option<Seq<SiteView>>) -> bool {
    match content {
        None => part == Some(Seq::<SiteView>::empty()),
        Some(c) => match lang_of_path(path) {
            None => part == Some(Seq::<SiteView>::empty()),
            Some(lg) => {
                &&& !grammar_accepted_of(lg) ==> part == Some(Seq::<SiteView>::empty())
                &&& grammar_accepted_of(lg) ==> exists|t: SyntaxTree| #[trigger] parsed_file_sites(t, c, lg, path, rows, symbol, part)
            },
        },
    }
}

/// The sites of a file whose grammar is accepted, given its tree.
proof fn lemma_possible_parsed(path: Seq<char>, c: Seq<char>, rows: Seq<usize>, symbol: Seq<char>,
    part: Option<Seq<SiteView>>, t: SyntaxTree)
    requires
        lang_of_path(path) is Some,
        grammar_accepted_of(lang_of_path(path)->0),
        is_parse_of(t, c, lang_of_path(path)->0),
        part is Some <==> file_sites_ok(t, c, lang_of_path(path)->0, rows, symbol),
        part matches Some(v) ==> v == file_sites_spec(t, c, lang_of_path(path)->0, path, rows, symbol),
    ensures
        possible_file_sites(path, Some(c), rows, symbol, part),
{
    let lg = lang_of_path(path)->0;
    let cc = Some(c);
    assert(cc->0 == c);
    assert(parsed_file_sites(t, cc->0, lg, path, rows, symbol, part));
}

/// A content that may be missing, as plain values.
pub open spec fn content_view(c: Option<String>) -> Option<Seq<char>> {
    match c {
        Some(s) => Some(s@),
        None => None,
    }
}

/// The concatenation of the parts that are present (all of them, when the
/// result is used).
pub open spec fn join_parts(parts: Seq<Option<Seq<SiteView>>>) -> Seq<SiteView>
    decreases parts.len(),
{
    if parts.len() == 0 {
        seq![]
    } else {
        join_parts(parts.drop_last()) + match parts.last() { Some(v) => v, None => seq![] }
    }
}

/// The sites of all matching files (`entries[i]` with the content read for
/// it in `contents[i]`), in narrative order; `None` where a snippet of some
/// file cannot be built.
pub fn flow_sites(entries: &Vec<(String, Vec<usize>)>, contents: &Vec<Option<String>>, symbol: &str)
    -> (r: Option<Vec<FlowSite>>)
    requires
        contents@.len() == entries@.len(),
    ensures
        exists|parts: Seq<Option<Seq<SiteView>>>| #![trigger join_parts(parts)] {
            &&& parts.len() == entries@.len()
            &&& forall|i: int| 0 <= i < parts.len() ==> #[trigger] possible_file_sites(entries@[i].0@,
                content_view(contents@[i]), entries@[i].1@, symbol@, parts[i])
            &&& (r is Some <==> forall|i: int| 0 <= i < parts.len() ==> (#[trigger] parts[i]) is Some)
            &&& (r matches Some(v) ==> v@.map_values(|s: FlowSite| site_view(s)) == sorted_sites(join_parts(parts)))
        },
{
    let ghost mut parts: Seq<Option<Seq<SiteView>>> = seq![];
    let mut all: Vec<FlowSite> = Vec::new();
    let mut failed = false;
    for i in 0..entries.len()
        invariant
            contents@.len() == entries@.len(),
            parts.len() == i,
            forall|k: int| 0 <= k < i ==> #[trigger] possible_file_sites(entries@[k].0@,
                content_view(contents@[k]), entries@[k].1@, symbol@, parts[k]),
            !failed <==> forall|k: int| 0 <= k < i ==> (#[trigger] parts[k]) is Some,
            all@.map_values(|s: FlowSite| site_view(s)) == join_parts(parts),
    {
        let ghost av = all@.map_values(|s: FlowSite| site_view(s));
        let ghost p0 = parts;
        match &contents[i] {
            None => {
                proof {
                    parts = parts.push(Some(Seq::<SiteView>::empty()));
                    assert(parts.drop_last() == p0);
                    assert(join_parts(parts) == av + Seq::<SiteView>::empty());
                    assert(join_parts(parts) =~= av);
                    assert(possible_file_sites(entries@[i as int].0@, content_view(contents@[i as int]),
                        entries@[i as int].1@, symbol@, parts[i as int]));
                    assert forall|k: int| 0 <= k < i + 1 implies #[trigger] possible_file_sites(entries@[k].0@,
                        content_view(contents@[k]), entries@[k].1@, symbol@, parts[k]) by {
                        if k < i { assert(parts[k] == p0[k]); }
                    }
                }
            },
            Some(c) => {
                match file_sites(entries[i].0.as_str(), c.as_str(), &entries[i].1, symbol) {
                    None => {
                        proof {
                            let ps = parts.push(None::<Seq<SiteView>>);
                            let path = entries@[i as int].0@;
                            let rows = entries@[i as int].1@;
                            let lang = lang_of_path(path)->0;
                            assert(lang_of_path(path) == Some(lang));
                            assert(grammar_accepted_of(lang));
                            let t = choose|t: SyntaxTree| #![trigger is_parse_of(t, c@, lang)] {
                                &&& is_parse_of(t, c@, lang)
                                &&& (false <==> file_sites_ok(t, c@, lang, rows, symbol@))
                                &&& (None::<Seq<SiteView>> matches Some(v) ==> v == file_sites_spec(t, c@, lang, path, rows, symbol@))
                            };
                            lemma_possible_parsed(path, c@, rows, symbol@, None, t);
                            parts = ps;
                            assert(parts.drop_last() == p0);
                            assert(join_parts(parts) == av + Seq::<SiteView>::empty());
                            assert(join_parts(parts) =~= av);
                            assert forall|k: int| 0 <= k < i + 1 implies #[trigger] possible_file_sites(entries@[k].0@,
                                content_view(contents@[k]), entries@[k].1@, symbol@, parts[k]) by {
                                if k < i { assert(parts[k] == p0[k]); }
                            }
                            assert(!(parts[i as int] is Some));
                        }
                        failed = true;
                    },
                    Some(v) => {
                        let ghost vv = v@.map_values(|s: FlowSite| site_view(s));
                        proof {
                            parts = parts.push(Some(vv));
                            assert(parts.drop_last() == p0);
                            let path = entries@[i as int].0@;
                            let rows = entries@[i as int].1@;
                            if lang_of_path(path) is None {
                                assert(vv =~= Seq::<SiteView>::empty());
                            } else if !grammar_accepted_of(lang_of_path(path)->0) {
                                assert(vv =~= Seq::<SiteView>::empty());
                            } else {
                                let lang = lang_of_path(path)->0;
                                let t = choose|t: SyntaxTree| #![trigger is_parse_of(t, c@, lang)] {
                                    &&& is_parse_of(t, c@, lang)
                                    &&& (true <==> file_sites_ok(t, c@, lang, rows, symbol@))
                                    &&& (vv == file_sites_spec(t, c@, lang, path, rows, symbol@))
                                };
                                lemma_possible_parsed(path, c@, rows, symbol@, Some(vv), t);
                            }
                            assert(possible_file_sites(entries@[i as int].0@, content_view(contents@[i as int]),
                                entries@[i as int].1@, symbol@, parts[i as int]));
                            assert forall|k: int| 0 <= k < i + 1 implies #[trigger] possible_file_sites(entries@[k].0@,
                                content_view(contents@[k]), entries@[k].1@, symbol@, parts[k]) by {
                                if k < i { assert(parts[k] == p0[k]); }
                            }
                        }
                        let mut v = v;
                        all.append(&mut v);
                        assert(all@.map_values(|s: FlowSite| site_view(s)) == av + vv);
                    },
                }
            },
        }
    }
    assert(parts.len() == entries@.len());
    if failed {
        assert(join_parts(parts) == join_parts(parts));
        return None;
    }
    let sorted = sort_sites(all);
    Some(sorted)
}

/// The note when the symbol was found nowhere.
pub fn no_references_message(symbol: &str) -> (r: String)
    ensures
        r@ == "No references to '"@ + symbol@ + "' found."@,
{
    let mut out: Vec<char> = Vec::new();
    push_str(&mut out, "No references to '");
    push_str(&mut out, symbol);
    push_str(&mut out, "' found.");
    string_of(&out)
}

/// The note when the symbol was found only where it could not be classified.
pub fn unclassified_message(symbol: &str, files: usize) -> (r: String)
    ensures
        r@ == "Found '"@ + symbol@ + "' in "@ + decimal(files as nat)
            + " files but could not classify references (comments/strings only?)."@,
{
    let mut out: Vec<char> = Vec::new();
    push_str(&mut out, "Found '");
    push_str(&mut out, symbol);
    push_str(&mut out, "' in ");
    push_decimal(&mut out, files);
    push_str(&mut out, " files but could not classify references (comments/strings only?).");
    string_of(&out)
}

} // verus!
