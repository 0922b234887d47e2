//! `ctx grep`: pattern normalisation, file selection and the renderings of
//! the matches that the searcher found.
use vstd::prelude::*;
use crate::text::{
    chars_of, concat, concat_n, contains, contains_exec, lemma_concat_n_succ, decimal, lines, lines_of, padded_decimal,
    push_all, push_decimal, push_padded_decimal, push_str, starts_with, starts_with_exec,
    string_of,
};
use crate::paths::{file_name_or_empty, has_extension, has_extension_exec, name_or_empty};
use crate::paths::{compare_paths, path_order_of};
use crate::ts::{first_where, grammar_accepted_of, is_parse_of, lemma_first_where_found, lemma_first_where_none, enclosing_function, find_enclosing_function, lang_of_path, parse, Lang, SyntaxTree};

verus! {

/// The options of `ctx grep`.
pub struct GrepArgs {
    /// Regex pattern to search for (Rust/ripgrep syntax).
    pub pattern: String,
    /// Paths to search.
    pub paths: Vec<String>,
    /// Filter by file type extension (e.g., ts, rs, py).
    pub file_type: Option<String>,
    /// Lines of context around each match.
    pub context_lines: usize,
    /// Expand each match to show N lines around it.
    pub expand: Option<usize>,
    /// Expand each match to the full enclosing function.
    pub expand_fn: bool,
    /// Only show file paths.
    pub files_only: bool,
    /// Show match counts per file.
    pub count: bool,
    /// Maximum number of matching files.
    pub limit: usize,
    /// Case-insensitive search.
    pub ignore_case: bool,
    /// Exclude test files.
    pub no_tests: bool,
}

/// The BRE operators that a backslash turns into ERE operators.
pub open spec fn is_bre_operator(c: char) -> bool {
    c == '|' || c == '(' || c == ')' || c == '+' || c == '?' || c == '{' || c == '}'
}

/// The pattern with GNU-grep BRE escapes (`\|`, `\(`, `\)`, `\+`, `\?`, `\{`, `\}`)
/// turned into Rust regex operators, and whether any was turned. A doubled
/// backslash is kept as it is, and so is any other escape.
pub open spec fn normalized(p: Seq<char>) -> (Seq<char>, bool)
    decreases p.len(),
{
    if p.len() == 0 {
        (seq![], false)
    } else if p[0] == '\\' && p.len() >= 2 {
        let c = p[1];
        let rest = normalized(p.skip(2));
        if c == '\\' {
            (seq!['\\', '\\'] + rest.0, rest.1)
        } else if is_bre_operator(c) {
            (seq![c] + rest.0, true)
        } else {
            (seq!['\\', c] + rest.0, rest.1)
        }
    } else {
        let rest = normalized(p.drop_first());
        (seq![p[0]] + rest.0, rest.1)
    }
}

/// Converts common BRE patterns to Rust regex syntax; returns the pattern and
/// whether it changed.
pub fn normalize_pattern(pattern: &str) -> (r: (String, bool))
    ensures
        r.0@ == normalized(pattern@).0,
        r.1 == normalized(pattern@).1,
{
    let chars = chars_of(pattern);
    let mut result: Vec<char> = Vec::new();
    let mut modified = false;
    let mut i: usize = 0;
    let n = chars.len();
    assert(chars@.skip(0) == chars@);
    while i < n
        invariant
            n == chars@.len(),
            i <= n,
            normalized(chars@) == (result@ + normalized(chars@.skip(i as int)).0,
                modified || normalized(chars@.skip(i as int)).1),
        decreases n - i,
    {
        let ghost rest = chars@.skip(i as int);
        if chars[i] == '\\' && i + 1 < n {
            let c = chars[i + 1];
            assert(rest.skip(2) == chars@.skip(i + 2));
            if c == '\\' {
                result.push('\\');
                result.push('\\');
            } else if c == '|' || c == '(' || c == ')' || c == '+' || c == '?' || c == '{' || c == '}' {
                result.push(c);
                modified = true;
            } else {
                result.push('\\');
                result.push(c);
            }
            i = i + 2;
        } else {
            assert(rest.drop_first() == chars@.skip(i + 1));
            result.push(chars[i]);
            i = i + 1;
        }
    }
    assert(chars@.skip(n as int).len() == 0);
    (string_of(&result), modified)
}

/// Normalizing `tok + q`, where `tok` is one piece that normalizing emits,
/// normalizes `tok` and `q` apart.
proof fn lemma_normalized_piece(tok: Seq<char>, q: Seq<char>)
    requires
        (tok.len() == 1 && tok[0] != '\\') || (tok.len() == 2 && tok[0] == '\\') || (tok == seq!['\\'] && q.len() == 0),
    ensures
        normalized(tok + q).0 == (if tok.len() == 2 && tok[1] != '\\' && is_bre_operator(tok[1]) { seq![tok[1]] } else { tok })
            + normalized(q).0,
        normalized(tok + q).1 == ((tok.len() == 2 && tok[1] != '\\' && is_bre_operator(tok[1])) || normalized(q).1),
{
    let p = tok + q;
    if tok.len() == 2 {
        assert(p.skip(2) == q);
        assert(p[0] == '\\' && p[1] == tok[1]);
        if tok[1] == '\\' {
            assert(seq!['\\', '\\'] == tok);
        } else if !is_bre_operator(tok[1]) {
            assert(seq!['\\', tok[1]] == tok);
        }
    } else if tok[0] != '\\' {
        assert(p.drop_first() == q);
    } else {
        assert(p == tok);
        assert(p.drop_first().len() == 0);
        assert(normalized(p.drop_first()) == (Seq::<char>::empty(), false));
    }
}

/// Normalizing twice changes nothing more: a normalized pattern is its own
/// normalization and is reported as unchanged.
pub proof fn lemma_normalize_idempotent(p: Seq<char>)
    ensures
        normalized(normalized(p).0) == (normalized(p).0, false),
    decreases p.len(),
{
    if p.len() == 0 {
        return;
    }
    if p[0] == '\\' && p.len() >= 2 {
        let c = p[1];
        let rest = normalized(p.skip(2));
        lemma_normalize_idempotent(p.skip(2));
        if c == '\\' {
            lemma_normalized_piece(seq!['\\', '\\'], rest.0);
        } else if is_bre_operator(c) {
            lemma_normalized_piece(seq![c], rest.0);
        } else {
            lemma_normalized_piece(seq!['\\', c], rest.0);
        }
    } else {
        let rest = normalized(p.drop_first());
        lemma_normalize_idempotent(p.drop_first());
        if p[0] == '\\' {
            assert(p.drop_first().len() == 0);
            assert(rest == (Seq::<char>::empty(), false));
        }
        lemma_normalized_piece(seq![p[0]], rest.0);
    }
}

/// A file name that looks like a test: `.test.`, `.spec.`, `_test.`, `.mocha.`
/// inside it, or a `test_` prefix.
pub open spec fn is_test_name(name: Seq<char>) -> bool {
    ||| contains(name, ".test."@)
    ||| contains(name, ".spec."@)
    ||| contains(name, "_test."@)
    ||| starts_with(name, "test_"@)
    ||| contains(name, ".mocha."@)
}

/// Whether the file name of `path` looks like a test file.
pub fn is_test_file(path: &str) -> (b: bool)
    ensures
        b == is_test_name(name_or_empty(path@)),
{
    let name = file_name_or_empty(path);
    contains_exec(&name, &chars_of(".test.")) || contains_exec(&name, &chars_of(".spec."))
        || contains_exec(&name, &chars_of("_test.")) || starts_with_exec(&name, &chars_of("test_"))
        || contains_exec(&name, &chars_of(".mocha."))
}

/// Whether a walked file is searched: it has the requested extension, if one
/// was given, and is not a test file when tests are excluded.
pub open spec fn keeps_file(path: Seq<char>, file_type: Option<Seq<char>>, no_tests: bool) -> bool {
    &&& (file_type matches Some(ext) ==> has_extension(path, ext))
    &&& !(no_tests && is_test_name(name_or_empty(path)))
}

/// The selection that `collect_search_files` applies to each walked file.
pub fn keep_search_file(path: &str, file_type: &Option<String>, no_tests: bool) -> (b: bool)
    ensures
        b == keeps_file(path@, match file_type { Some(e) => Some(e@), None => None }, no_tests),
{
    if let Some(ext) = file_type {
        if !has_extension_exec(path, ext.as_str()) {
            return false;
        }
    }
    !(no_tests && is_test_file(path))
}

} // verus!

verus! {

/// The matches found in one file: the path, each matching line (1-based
/// number and text), and the file's content when it is needed for rendering.
pub struct FileMatch {
    pub path: String,
    pub lines: Vec<(u64, String)>,
    pub content: Option<String>,
}

/// `"{path}\n"` for each file: the `--files-only` rendering.
pub open spec fn files_only_text(files: Seq<FileMatch>) -> Seq<char> {
    if files.len() == 0 {
        seq!['\n']
    } else {
        concat_n(files.len(), |i: int| files[i].path@ + seq!['\n'])
    }
}

/// Renders the matching files one per line.
pub fn format_files_only(matches: &Vec<FileMatch>) -> (r: String)
    ensures
        r@ == files_only_text(matches@),
{
    let mut out: Vec<char> = Vec::new();
    let ghost f = |i: int| matches@[i].path@ + seq!['\n'];
    for i in 0..matches.len()
        invariant
            f == (|i: int| matches@[i].path@ + seq!['\n']),
            out@ == concat_n(i as nat, f),
    {
        push_str(&mut out, matches[i].path.as_str());
        out.push('\n');
        proof { lemma_concat_n_succ(i as nat, f); }
    }
    if matches.len() == 0 {
        out.push('\n');
    }
    string_of(&out)
}

/// `"{path}:{count}\n"` for each file: the `--count` rendering.
pub open spec fn count_text(files: Seq<FileMatch>) -> Seq<char> {
    if files.len() == 0 {
        seq!['\n']
    } else {
        concat_n(files.len(), |i: int| files[i].path@ + seq![':'] + decimal(files[i].lines@.len()) + seq!['\n'])
    }
}

/// Renders the number of matches per file.
pub fn format_count(matches: &Vec<FileMatch>) -> (r: String)
    ensures
        r@ == count_text(matches@),
{
    let mut out: Vec<char> = Vec::new();
    let ghost f = |i: int| matches@[i].path@ + seq![':'] + decimal(matches@[i].lines@.len()) + seq!['\n'];
    for i in 0..matches.len()
        invariant
            f == (|i: int| matches@[i].path@ + seq![':'] + decimal(matches@[i].lines@.len()) + seq!['\n']),
            out@ == concat_n(i as nat, f),
    {
        push_str(&mut out, matches[i].path.as_str());
        out.push(':');
        push_decimal(&mut out, matches[i].lines.len());
        out.push('\n');
        proof { lemma_concat_n_succ(i as nat, f); }
    }
    if matches.len() == 0 {
        out.push('\n');
    }
    string_of(&out)
}

/// One numbered source line: marker (`>` on a match), number right-aligned
/// in four columns, a space, the text.
pub open spec fn numbered_line(marker: char, number: nat, line: Seq<char>) -> Seq<char> {
    seq![marker] + padded_decimal(number, 4) + seq![' '] + line + seq!['\n']
}

/// The 0-based window `[start, end)` of lines shown around 1-based match `ln`.
pub open spec fn context_window(ln: int, ctx: int, n: int) -> (int, int) {
    (if ln - (ctx + 1) > 0 { ln - (ctx + 1) } else { 0 }, if ln + ctx < n { ln + ctx } else { n })
}

/// The lines `start..end` of `ls`, numbered, with the line numbered `ln` marked.
pub open spec fn numbered_lines(ls: Seq<Seq<char>>, start: int, end: int, ln: int) -> Seq<char> {
    concat_n((end - start) as nat, |k: int| numbered_line(
        if start + k + 1 == ln { '>' } else { ' ' }, (start + k + 1) as nat, ls[start + k]))
}

/// The block shown for one match with `ctx` lines of context.
pub open spec fn context_match_block(ls: Seq<Seq<char>>, ln: int, ctx: int) -> Seq<char> {
    let (start, end) = context_window(ln, ctx, ls.len() as int);
    numbered_lines(ls, start, end, ln) + "--\n"@
}

/// The block shown for one file in the default rendering.
pub open spec fn context_file_block(f: FileMatch, ctx: int) -> Seq<char> {
    match f.content {
        None => seq![],
        Some(c) => {
            let ls = lines_of(c@);
            "=== "@ + f.path@ + " ===\n"@ + concat_n(f.lines@.len(),
                |j: int| context_match_block(ls, f.lines@[j].0 as usize as int, ctx)) + seq!['\n']
        },
    }
}

/// The default rendering: each match with `ctx` lines of context.
pub open spec fn context_text(files: Seq<FileMatch>, ctx: int) -> Seq<char> {
    concat_n(files.len(), |i: int| context_file_block(files[i], ctx))
}

/// The match line numbers are such that every window starts before it ends
/// (else the slice of lines would be out of bounds) and nothing overflows.
pub open spec fn context_windows_fit(files: Seq<FileMatch>, ctx: int) -> bool {
    forall|i: int, j: int| #![trigger files[i].lines@[j]] 0 <= i < files.len() && 0 <= j < files[i].lines@.len()
        ==> (files[i].content matches Some(c) ==> {
            let ln = files[i].lines@[j].0 as usize as int;
            let (start, end) = context_window(ln, ctx, lines_of(c@).len() as int);
            &&& ln + ctx <= usize::MAX
            &&& start <= end
        })
}

fn push_numbered_lines(out: &mut Vec<char>, ls: &Vec<Vec<char>>, start: usize, end: usize, ln: usize)
    requires
        start <= end <= ls@.len(),
    ensures
        final(out)@ == old(out)@ + numbered_lines(ls@.map_values(|l: Vec<char>| l@), start as int, end as int, ln as int),
{
    let ghost lsv = ls@.map_values(|l: Vec<char>| l@);
    let ghost f = |k: int| numbered_line(
        if start + k + 1 == ln { '>' } else { ' ' }, (start + k + 1) as nat, lsv[start + k]);
    let ghost old_out = out@;
    for i in start..end
        invariant
            start <= end <= ls@.len(),
            lsv == ls@.map_values(|l: Vec<char>| l@),
            f == (|k: int| numbered_line(
                if start + k + 1 == ln { '>' } else { ' ' }, (start + k + 1) as nat, lsv[start + k])),
            out@ == old_out + concat_n((i - start) as nat, f),
    {
        let idx = i + 1;
        out.push(if idx == ln { '>' } else { ' ' });
        push_padded_decimal(out, idx, 4);
        out.push(' ');
        push_all(out, &ls[i]);
        out.push('\n');
        proof {
            lemma_concat_n_succ((i - start) as nat, f);
            assert(f((i - start) as int) == numbered_line(
                if idx == ln { '>' } else { ' ' }, idx as nat, ls@[i as int]@));
        }
    }
}

/// The default rendering of the matches, `ctx` lines of context around each.
#[verifier::rlimit(60)]
#[verifier::spinoff_prover]
pub fn format_context(matches: &Vec<FileMatch>, ctx: usize) -> (r: String)
    requires
        ctx < usize::MAX,
        context_windows_fit(matches@, ctx as int),
    ensures
        r@ == context_text(matches@, ctx as int),
{
    let mut out: Vec<char> = Vec::new();
    let ghost ff = |i: int| context_file_block(matches@[i], ctx as int);
    for i in 0..matches.len()
        invariant
            ctx < usize::MAX,
            context_windows_fit(matches@, ctx as int),
            ff == (|i: int| context_file_block(matches@[i], ctx as int)),
            out@ == concat_n(i as nat, ff),
    {
        let fm = &matches[i];
        proof { lemma_concat_n_succ(i as nat, ff); }
        match &fm.content {
            None => {
                assert(ff(i as int) == Seq::<char>::empty());
                assert(out@ + ff(i as int) == out@);
            },
            Some(c) => {
                let ghost before = out@;
                let cv = chars_of(c.as_str());
                let ls = lines(&cv);
                let ghost lsv = ls@.map_values(|l: Vec<char>| l@);
                assert(lsv == lines_of(c@));
                push_str(&mut out, "=== ");
                push_str(&mut out, fm.path.as_str());
                push_str(&mut out, " ===\n");
                let ghost head = out@;
                let ghost g = |j: int| context_match_block(lsv, fm.lines@[j].0 as usize as int, ctx as int);
                for j in 0..fm.lines.len()
                    invariant
                        ctx < usize::MAX,
                        context_windows_fit(matches@, ctx as int),
                        0 <= i < matches@.len(),
                        fm == matches@[i as int],
                        fm.content == Some(*c),
                        lsv == ls@.map_values(|l: Vec<char>| l@),
                        lsv == lines_of(c@),
                        g == (|j: int| context_match_block(lsv, fm.lines@[j].0 as usize as int, ctx as int)),
                        out@ == head + concat_n(j as nat, g),
                {
                    let ln = fm.lines[j].0 as usize;
                    assert(matches@[i as int].content matches Some(c2) && c2 == *c);
                    let ghost w = context_window(ln as int, ctx as int, ls@.len() as int);
                    assert(ln + ctx <= usize::MAX && w.0 <= w.1);
                    let start = if ln > ctx + 1 { ln - (ctx + 1) } else { 0 };
                    let end = if ln + ctx < ls.len() { ln + ctx } else { ls.len() };
                    push_numbered_lines(&mut out, &ls, start, end, ln);
                    push_str(&mut out, "--\n");
                    proof { lemma_concat_n_succ(j as nat, g); }
                }
                out.push('\n');
            },
        }
    }
    string_of(&out)
}

} // verus!

verus! {

/// A range of 0-based lines `(start, end, match_line)`, inclusive.
pub type LineRange = (usize, usize, usize);

/// Ranges are ordered by `(start, end)`.
pub open spec fn range_le(a: LineRange, b: LineRange) -> bool {
    a.0 < b.0 || (a.0 == b.0 && a.1 <= b.1)
}

/// `s` (sorted) with `x` inserted after every range that does not come after it.
pub open spec fn insert_range(s: Seq<LineRange>, x: LineRange) -> Seq<LineRange>
    decreases s.len(),
{
    if s.len() == 0 {
        seq![x]
    } else if range_le(s.last(), x) {
        s.push(x)
    } else {
        insert_range(s.drop_last(), x).push(s.last())
    }
}

/// `s` stably sorted by `(start, end)` (`sort_by_key`): ranges with equal keys
/// keep their order.
pub open spec fn sorted_ranges(s: Seq<LineRange>) -> Seq<LineRange>
    decreases s.len(),
{
    if s.len() == 0 {
        seq![]
    } else {
        insert_range(sorted_ranges(s.drop_last()), s.last())
    }
}

/// A merged block: first line, last line, and the match lines it holds.
pub type MergedBlock = (usize, usize, Seq<usize>);

/// The blocks closed so far and the open block, after merging the ranges of
/// `r` (sorted, non-empty) from left to right: a range that starts at most one
/// line after the open block ends joins it.
pub open spec fn merge_scan(r: Seq<LineRange>) -> (Seq<MergedBlock>, MergedBlock)
    decreases r.len(),
{
    if r.len() <= 1 {
        (seq![], (r[0].0, r[0].1, seq![r[0].2]))
    } else {
        let (done, cur) = merge_scan(r.drop_last());
        let x = r.last();
        if x.0 <= cur.1 + 1 {
            (done, (cur.0, if cur.1 >= x.1 { cur.1 } else { x.1 }, cur.2.push(x.2)))
        } else {
            (done.push(cur), (x.0, x.1, seq![x.2]))
        }
    }
}

/// The blocks that merging the sorted ranges `r` yields.
pub open spec fn merged_blocks(r: Seq<LineRange>) -> Seq<MergedBlock> {
    if r.len() == 0 {
        seq![]
    } else {
        let (done, cur) = merge_scan(r);
        done.push(cur)
    }
}

fn insert_range_exec(s: Vec<LineRange>, x: LineRange) -> (r: Vec<LineRange>)
    ensures
        r@ == insert_range(s@, x),
    decreases s@.len(),
{
    let mut s = s;
    let n = s.len();
    if n == 0 {
        s.push(x);
        s
    } else {
        let last = s[n - 1];
        if last.0 < x.0 || (last.0 == x.0 && last.1 <= x.1) {
            s.push(x);
            s
        } else {
            let ghost s0 = s@;
            s.pop();
            assert(s@ == s0.drop_last());
            let mut r = insert_range_exec(s, x);
            r.push(last);
            r
        }
    }
}

/// Merges overlapping or adjacent ranges into blocks, after sorting the
/// ranges in place by `(start, end)`.
pub fn merge_ranges(ranges: &mut Vec<LineRange>) -> (r: Vec<(usize, usize, Vec<usize>)>)
    requires
        forall|i: int| 0 <= i < old(ranges)@.len() ==> (#[trigger] old(ranges)@[i]).1 < usize::MAX,
    ensures
        final(ranges)@ == sorted_ranges(old(ranges)@),
        r@.len() == merged_blocks(final(ranges)@).len(),
        forall|k: int| 0 <= k < r@.len() ==> {
            let b = merged_blocks(final(ranges)@)[k];
            &&& (#[trigger] r@[k]).0 == b.0
            &&& r@[k].1 == b.1
            &&& r@[k].2@ == b.2
        },
{
    let ghost input = ranges@;
    let mut sorted: Vec<LineRange> = Vec::new();
    let n = ranges.len();
    for i in 0..n
        invariant
            n == input.len(),
            ranges@ == input,
            sorted@ == sorted_ranges(input.take(i as int)),
    {
        proof {
            assert(input.take(i + 1).drop_last() == input.take(i as int));
        }
        sorted = insert_range_exec(sorted, ranges[i]);
    }
    assert(input.take(n as int) == input);
    proof { lemma_sorted_ranges_elems(input); }
    *ranges = sorted;
    let mut merged: Vec<(usize, usize, Vec<usize>)> = Vec::new();
    if n == 0 {
        return merged;
    }
    let (mut cur_start, mut cur_end, first_match) = ranges[0];
    let mut cur_matches: Vec<usize> = Vec::new();
    cur_matches.push(first_match);
    let ghost rs = ranges@;
    assert forall|j: int| 0 <= j < rs.len() implies (#[trigger] rs[j]).1 < usize::MAX by {
        assert(sorted_ranges(input).contains(rs[j]));
        let k = choose|k: int| 0 <= k < input.len() && input[k] == rs[j];
        assert(input[k].1 < usize::MAX);
    }
    assert(rs.take(1).drop_last().len() == 0);
    for i in 1..n
        invariant
            n == rs.len(),
            n >= 1,
            ranges@ == rs,
            forall|j: int| 0 <= j < rs.len() ==> (#[trigger] rs[j]).1 < usize::MAX,
            cur_end < usize::MAX,
            ({
                let (done, cur) = merge_scan(rs.take(i as int));
                &&& merged@.len() == done.len()
                &&& forall|k: int| 0 <= k < merged@.len() ==> {
                    &&& (#[trigger] merged@[k]).0 == done[k].0
                    &&& merged@[k].1 == done[k].1
                    &&& merged@[k].2@ == done[k].2
                }
                &&& cur == (cur_start, cur_end, cur_matches@)
            }),
    {
        let (start, end, match_line) = ranges[i];
        proof {
            assert(rs.take(i + 1).drop_last() == rs.take(i as int));
            assert(rs.take(i + 1).last() == rs[i as int]);
        }
        if start <= cur_end + 1 {
            if end > cur_end {
                cur_end = end;
            }
            cur_matches.push(match_line);
        } else {
            let ghost old_merged = merged@;
            let block = (cur_start, cur_end, cur_matches);
            merged.push(block);
            cur_start = start;
            cur_end = end;
            cur_matches = Vec::new();
            cur_matches.push(match_line);
            assert(forall|k: int| 0 <= k < old_merged.len() ==> merged@[k] == old_merged[k]);
        }
    }
    assert(rs.take(n as int) == rs);
    merged.push((cur_start, cur_end, cur_matches));
    merged
}

proof fn lemma_insert_range_elems(s: Seq<LineRange>, x: LineRange)
    ensures
        insert_range(s, x).len() == s.len() + 1,
        forall|y: LineRange| #[trigger] insert_range(s, x).contains(y) ==> y == x || s.contains(y),
    decreases s.len(),
{
    if s.len() > 0 && !range_le(s.last(), x) {
        lemma_insert_range_elems(s.drop_last(), x);
        assert forall|y: LineRange| #[trigger] insert_range(s, x).contains(y) implies y == x || s.contains(y) by {
            let t = insert_range(s.drop_last(), x);
            if y != s.last() {
                let k = choose|k: int| 0 <= k < t.push(s.last()).len() && t.push(s.last())[k] == y;
                assert(t.contains(y));
                if y != x {
                    let k2 = choose|k2: int| 0 <= k2 < s.drop_last().len() && s.drop_last()[k2] == y;
                    assert(s[k2] == y);
                }
            } else {
                assert(s[s.len() - 1] == y);
            }
        }
    } else if s.len() > 0 {
        assert forall|y: LineRange| #[trigger] insert_range(s, x).contains(y) implies y == x || s.contains(y) by {
            let k = choose|k: int| 0 <= k < s.push(x).len() && s.push(x)[k] == y;
            if k < s.len() { assert(s[k] == y); }
        }
    }
}

proof fn lemma_sorted_ranges_elems(s: Seq<LineRange>)
    ensures
        sorted_ranges(s).len() == s.len(),
        forall|y: LineRange| #[trigger] sorted_ranges(s).contains(y) ==> s.contains(y),
    decreases s.len(),
{
    if s.len() > 0 {
        lemma_sorted_ranges_elems(s.drop_last());
        lemma_insert_range_elems(sorted_ranges(s.drop_last()), s.last());
        assert forall|y: LineRange| #[trigger] sorted_ranges(s).contains(y) implies s.contains(y) by {
            if y == s.last() {
                assert(s[s.len() - 1] == y);
            } else {
                assert(sorted_ranges(s.drop_last()).contains(y));
                let k = choose|k: int| 0 <= k < s.drop_last().len() && s.drop_last()[k] == y;
                assert(s[k] == y);
            }
        }
    }
}


// ---------------------------------------------------------------------------
// Expanded rendering (`--expand N`, `--fn`)
// ---------------------------------------------------------------------------

/// How each match is widened: to `N` lines around it, or to the function that
/// encloses it.
#[derive(Clone, Copy, PartialEq, Eq, Debug, Structural)]
pub enum ExpandMode {
    Lines(usize),
    Function,
}

/// Half the window of lines shown around a match.
pub open spec fn half_of(mode: ExpandMode) -> int {
    match mode {
        ExpandMode::Lines(e) => (e / 2) as int,
        ExpandMode::Function => 20,
    }
}

/// The 0-based rows `(start, end)` around 1-based match line `ml` in a file of
/// `n` lines: `half` rows before the match and `half - 1` after it.
pub open spec fn around(ml: int, half: int, n: int) -> (int, int) {
    (if ml - (half + 1) > 0 { ml - (half + 1) } else { 0 }, if ml + half - 1 < n - 1 { ml + half - 1 } else { n - 1 })
}

/// The enclosing function's rows, when `--fn` found a syntax tree and a function.
pub open spec fn fn_rows(tree: Option<(SyntaxTree, Lang)>, src: Seq<char>, ml: int) -> Option<(int, int)> {
    match tree {
        Some((t, lang)) => enclosing_function(t, src, ml - 1, lang),
        None => None,
    }
}

/// The rows shown for 1-based match line `ml`.
pub open spec fn match_rows(mode: ExpandMode, tree: Option<(SyntaxTree, Lang)>, src: Seq<char>, ml: int, n: int) -> (int, int) {
    match mode {
        ExpandMode::Function => match fn_rows(tree, src, ml) {
            Some(r) => r,
            None => around(ml, 20, n),
        },
        ExpandMode::Lines(e) => around(ml, half_of(mode), n),
    }
}

/// The rows of a match can be computed without overflow: the line is 1-based,
/// the window's arithmetic fits, and the last row can be numbered.
pub open spec fn rows_ok(mode: ExpandMode, tree: Option<(SyntaxTree, Lang)>, src: Seq<char>, ml: int, n: int) -> bool {
    &&& 1 <= ml
    &&& (mode is Lines || fn_rows(tree, src, ml) is None) ==> ml + half_of(mode) <= usize::MAX
    &&& match_rows(mode, tree, src, ml, n).1 < usize::MAX
}

/// The line number of a match, as the renderings use it.
pub open spec fn line_no(f: FileMatch, j: int) -> int {
    f.lines@[j].0 as usize as int
}

/// The ranges `(start, end, match line)` of the matches of one file.
pub open spec fn file_ranges(f: FileMatch, mode: ExpandMode, tree: Option<(SyntaxTree, Lang)>, src: Seq<char>, n: int) -> Seq<LineRange> {
    Seq::new(f.lines@.len(), |j: int| {
        let (a, b) = match_rows(mode, tree, src, line_no(f, j), n);
        (a as usize, b as usize, line_no(f, j) as usize)
    })
}

/// The rows of a merged block that exist in a file of `n` lines.
pub open spec fn block_last(b: MergedBlock, n: int) -> int {
    if (b.1 as int) < n - 1 { b.1 as int } else { n - 1 }
}

/// One merged block: a header with the file and the 1-based line span, the
/// lines numbered, those that matched marked with `>`.
pub open spec fn block_text(path: Seq<char>, ls: Seq<Seq<char>>, b: MergedBlock) -> Seq<char> {
    "=== "@ + path + seq![':'] + decimal((b.0 + 1) as nat) + seq!['-'] + decimal((b.1 + 1) as nat) + " ===\n"@
        + concat_n((block_last(b, ls.len() as int) - b.0 + 1) as nat, |k: int| numbered_line(
            if b.2.contains((b.0 + k + 1) as usize) { '>' } else { ' ' }, (b.0 + k + 1) as nat, ls[b.0 + k]))
        + seq!['\n']
}

/// The merged blocks of one file.
pub open spec fn file_blocks(f: FileMatch, mode: ExpandMode, tree: Option<(SyntaxTree, Lang)>) -> Seq<MergedBlock> {
    let src = f.content.unwrap()@;
    merged_blocks(sorted_ranges(file_ranges(f, mode, tree, src, lines_of(src).len() as int)))
}

/// One file can be rendered: every match's rows can be computed, and every
/// merged block starts at a row that exists and does not end before it.
pub open spec fn file_ok(f: FileMatch, mode: ExpandMode, tree: Option<(SyntaxTree, Lang)>) -> bool {
    f.content matches Some(c) ==> {
        let n = lines_of(c@).len() as int;
        &&& forall|j: int| 0 <= j < f.lines@.len() ==> #[trigger] rows_ok(mode, tree, c@, line_no(f, j), n)
        &&& f.lines@.len() > 0 ==> n >= 1
        &&& forall|k: int| 0 <= k < file_blocks(f, mode, tree).len() ==>
            (#[trigger] file_blocks(f, mode, tree)[k]).0 <= block_last(file_blocks(f, mode, tree)[k], n)
    }
}

/// The expanded rendering of one file (nothing when its content is missing).
pub open spec fn file_expanded(f: FileMatch, mode: ExpandMode, tree: Option<(SyntaxTree, Lang)>) -> Seq<char> {
    match f.content {
        None => seq![],
        Some(c) => {
            let blocks = file_blocks(f, mode, tree);
            concat_n(blocks.len(), |k: int| block_text(f.path@, lines_of(c@), blocks[k]))
        },
    }
}

/// The expanded rendering: each file's merged blocks, in order.
pub open spec fn expanded_text(files: Seq<FileMatch>, mode: ExpandMode, trees: Seq<Option<(SyntaxTree, Lang)>>) -> Seq<char> {
    concat_n(files.len(), |i: int| file_expanded(files[i], mode, trees[i]))
}

/// Every file can be rendered.
pub open spec fn expanded_ok(files: Seq<FileMatch>, mode: ExpandMode, trees: Seq<Option<(SyntaxTree, Lang)>>) -> bool {
    forall|i: int| 0 <= i < files.len() ==> #[trigger] file_ok(files[i], mode, trees[i])
}

fn around_exec(ml: usize, half: usize, n: usize) -> (r: (usize, usize))
    requires
        n >= 1,
        ml + half <= usize::MAX,
        1 <= ml,
    ensures
        r.0 as int == around(ml as int, half as int, n as int).0,
        r.1 as int == around(ml as int, half as int, n as int).1,
{
    let start = if ml > half + 1 { ml - (half + 1) } else { 0 };
    let end = if ml + half - 1 < n - 1 { ml + half - 1 } else { n - 1 };
    (start, end)
}

/// The ranges of one file's matches, or `None` when a row cannot be computed.
fn ranges_of(fm: &FileMatch, mode: ExpandMode, tree: &Option<(SyntaxTree, Lang)>, src: &String, n: usize)
    -> (r: Option<Vec<LineRange>>)
    requires
        n >= 1,
        tree matches Some(p) ==> p.0.wf(),
    ensures
        r matches Some(v) ==> v@ == file_ranges(*fm, mode, *tree, src@, n as int)
            && forall|j: int| 0 <= j < fm.lines@.len() ==> #[trigger] rows_ok(mode, *tree, src@, line_no(*fm, j), n as int),
        r is None ==> exists|j: int| 0 <= j < fm.lines@.len() && !#[trigger] rows_ok(mode, *tree, src@, line_no(*fm, j), n as int),
{
    let mut v: Vec<LineRange> = Vec::new();
    let ghost target = file_ranges(*fm, mode, *tree, src@, n as int);
    for j in 0..fm.lines.len()
        invariant
            n >= 1,
            tree matches Some(p) ==> p.0.wf(),
            target == file_ranges(*fm, mode, *tree, src@, n as int),
            v@ == target.take(j as int),
            forall|k: int| 0 <= k < j ==> #[trigger] rows_ok(mode, *tree, src@, line_no(*fm, k), n as int),
    {
        let ml = fm.lines[j].0 as usize;
        assert(ml as int == line_no(*fm, j as int));
        if ml < 1 {
            assert(!rows_ok(mode, *tree, src@, line_no(*fm, j as int), n as int));
            return None;
        }
        let rows: (usize, usize) = match mode {
            ExpandMode::Lines(e) => {
                if ml > usize::MAX - e / 2 {
                    assert(!rows_ok(mode, *tree, src@, line_no(*fm, j as int), n as int));
                    return None;
                }
                around_exec(ml, e / 2, n)
            },
            ExpandMode::Function => {
                let found = match tree {
                    Some((t, lang)) => find_enclosing_function(t, src.as_str(), ml - 1, *lang),
                    None => None,
                };
                match found {
                    Some(p) => p,
                    None => {
                        if ml > usize::MAX - 20 {
                            assert(!rows_ok(mode, *tree, src@, line_no(*fm, j as int), n as int));
                            return None;
                        }
                        around_exec(ml, 20, n)
                    },
                }
            },
        };
        assert(rows.0 as int == match_rows(mode, *tree, src@, ml as int, n as int).0);
        assert(rows.1 as int == match_rows(mode, *tree, src@, ml as int, n as int).1);
        if rows.1 == usize::MAX {
            assert(!rows_ok(mode, *tree, src@, line_no(*fm, j as int), n as int));
            return None;
        }
        v.push((rows.0, rows.1, ml));
        assert(target[j as int] == (rows.0, rows.1, ml));
        assert(v@ == target.take(j + 1));
    }
    assert(v@ == target);
    Some(v)
}


fn contains_line(v: &Vec<usize>, x: usize) -> (b: bool)
    ensures
        b == v@.contains(x),
{
    for i in 0..v.len()
        invariant
            forall|k: int| 0 <= k < i ==> v@[k] != x,
    {
        if v[i] == x {
            return true;
        }
    }
    false
}

#[verifier::rlimit(60)]
#[verifier::spinoff_prover]
fn push_block(out: &mut Vec<char>, path: &str, ls: &Vec<Vec<char>>, b: &(usize, usize, Vec<usize>))
    requires
        ls@.len() >= 1,
        b.0 as int <= block_last((b.0, b.1, b.2@), ls@.len() as int),
        b.1 < usize::MAX,
    ensures
        final(out)@ == old(out)@ + block_text(path@, ls@.map_values(|l: Vec<char>| l@), (b.0, b.1, b.2@)),
{
    let ghost lsv = ls@.map_values(|l: Vec<char>| l@);
    let ghost bb = (b.0, b.1, b.2@);
    let ghost old_out = out@;
    push_str(out, "=== ");
    push_str(out, path);
    out.push(':');
    push_decimal(out, b.0 + 1);
    out.push('-');
    push_decimal(out, b.1 + 1);
    push_str(out, " ===\n");
    let ghost head = out@;
    let last = if b.1 < ls.len() - 1 { b.1 } else { ls.len() - 1 };
    let ghost f = |k: int| numbered_line(
        if bb.2.contains((bb.0 + k + 1) as usize) { '>' } else { ' ' }, (bb.0 + k + 1) as nat, lsv[bb.0 + k]);
    let mut i = b.0;
    let nl = ls.len();
    while i <= last
        invariant
            b.0 <= i <= last + 1,
            nl == ls@.len(),
            last < nl,
            lsv == ls@.map_values(|l: Vec<char>| l@),
            bb == (b.0, b.1, b.2@),
            f == (|k: int| numbered_line(
                if bb.2.contains((bb.0 + k + 1) as usize) { '>' } else { ' ' }, (bb.0 + k + 1) as nat, lsv[bb.0 + k])),
            out@ == head + concat_n((i - b.0) as nat, f),
        decreases last + 1 - i,
    {
        let ln = i + 1;
        out.push(if contains_line(&b.2, ln) { '>' } else { ' ' });
        push_padded_decimal(out, ln, 4);
        out.push(' ');
        push_all(out, &ls[i]);
        out.push('\n');
        proof {
            lemma_concat_n_succ((i - b.0) as nat, f);
            assert(f((i - b.0) as int) == numbered_line(
                if bb.2.contains(ln) { '>' } else { ' ' }, ln as nat, ls@[i as int]@));
        }
        i = i + 1;
    }
    out.push('\n');
}

/// Renders one file's merged blocks; `false` when a row cannot be computed or
/// a block does not fit the file.
fn expand_file(out: &mut Vec<char>, fm: &FileMatch, mode: ExpandMode, tree: &Option<(SyntaxTree, Lang)>) -> (ok: bool)
    requires
        tree matches Some(p) ==> p.0.wf(),
    ensures
        ok == file_ok(*fm, mode, *tree),
        ok ==> final(out)@ == old(out)@ + file_expanded(*fm, mode, *tree),
{
    match &fm.content {
        None => {
            assert(old(out)@ + file_expanded(*fm, mode, *tree) == old(out)@);
            true
        },
        Some(c) => {
            let cv = chars_of(c.as_str());
            let ls = lines(&cv);
            let ghost lsv = ls@.map_values(|l: Vec<char>| l@);
            assert(lsv == lines_of(c@));
            let n = ls.len();
            let ghost blocks = file_blocks(*fm, mode, *tree);
            if fm.lines.len() == 0 {
                assert(file_ranges(*fm, mode, *tree, c@, n as int).len() == 0);
                assert(sorted_ranges(file_ranges(*fm, mode, *tree, c@, n as int)).len() == 0);
                assert(blocks.len() == 0);
                assert(old(out)@ + file_expanded(*fm, mode, *tree) == old(out)@);
                return true;
            }
            if n == 0 {
                return false;
            }
            let mut ranges = match ranges_of(fm, mode, tree, c, n) {
                Some(v) => v,
                None => { return false; },
            };
            let ghost rs0 = ranges@;
            assert forall|i: int| 0 <= i < ranges@.len() implies (#[trigger] ranges@[i]).1 < usize::MAX by {
                assert(rows_ok(mode, *tree, c@, line_no(*fm, i), n as int));
            }
            let merged = merge_ranges(&mut ranges);
            assert(ranges@ == sorted_ranges(rs0));
            proof {
                lemma_sorted_ranges_elems(rs0);
                assert forall|i: int| 0 <= i < ranges@.len() implies (#[trigger] ranges@[i]).1 < usize::MAX by {
                    assert(sorted_ranges(rs0).contains(ranges@[i]));
                }
                lemma_merged_ends(ranges@);
            }
            assert(merged@.len() == blocks.len());
            let ghost g = |k: int| block_text(fm.path@, lsv, blocks[k]);
            let ghost start = out@;
            for k in 0..merged.len()
                invariant
                    n == ls@.len(),
                    n >= 1,
                    lsv == ls@.map_values(|l: Vec<char>| l@),
                    lsv == lines_of(c@),
                    fm.content == Some(*c),
                    blocks == file_blocks(*fm, mode, *tree),
                    merged@.len() == blocks.len(),
                    forall|q: int| 0 <= q < merged@.len() ==> {
                        &&& (#[trigger] merged@[q]).0 == blocks[q].0
                        &&& merged@[q].1 == blocks[q].1
                        &&& merged@[q].2@ == blocks[q].2
                    },
                    forall|q: int| 0 <= q < merged@.len() ==> (#[trigger] merged@[q]).1 < usize::MAX,
                    forall|q: int| 0 <= q < k ==> (#[trigger] blocks[q]).0 <= block_last(blocks[q], n as int),
                    g == (|k: int| block_text(fm.path@, lsv, blocks[k])),
                    out@ == start + concat_n(k as nat, g),
            {
                let b = &merged[k];
                let last = if b.1 < n - 1 { b.1 } else { n - 1 };
                if b.0 > last {
                    assert(!(blocks[k as int].0 <= block_last(blocks[k as int], n as int)));
                    return false;
                }
                assert((b.0, b.1, b.2@) == blocks[k as int]);
                push_block(out, fm.path.as_str(), &ls, b);
                proof { lemma_concat_n_succ(k as nat, g); }
            }
            true
        },
    }
}

/// The expanded rendering with the syntax trees already parsed (`trees[i]`
/// for `matches[i]`, used by `--fn`); `None` where a match's rows cannot be
/// computed or a merged block does not fit its file.
pub fn format_expanded_with(matches: &Vec<FileMatch>, mode: ExpandMode, trees: &Vec<Option<(SyntaxTree, Lang)>>)
    -> (r: Option<String>)
    requires
        trees@.len() == matches@.len(),
        forall|i: int| 0 <= i < trees@.len() ==> (#[trigger] trees@[i] matches Some(p) ==> p.0.wf()),
    ensures
        r is Some <==> expanded_ok(matches@, mode, trees@),
        r matches Some(s) ==> s@ == expanded_text(matches@, mode, trees@),
{
    let mut out: Vec<char> = Vec::new();
    let ghost f = |i: int| file_expanded(matches@[i], mode, trees@[i]);
    for i in 0..matches.len()
        invariant
            trees@.len() == matches@.len(),
            forall|i: int| 0 <= i < trees@.len() ==> (#[trigger] trees@[i] matches Some(p) ==> p.0.wf()),
            forall|q: int| 0 <= q < i ==> #[trigger] file_ok(matches@[q], mode, trees@[q]),
            f == (|i: int| file_expanded(matches@[i], mode, trees@[i])),
            out@ == concat_n(i as nat, f),
    {
        assert(trees@[i as int] matches Some(p) ==> p.0.wf());
        if !expand_file(&mut out, &matches[i], mode, &trees[i]) {
            return None;
        }
        proof { lemma_concat_n_succ(i as nat, f); }
    }
    Some(string_of(&out))
}

/// The tree a file is expanded with: for `--fn`, when the file's content was
/// read and its language is known and accepted, the tree of its content;
/// otherwise none (the file then falls back to lines around each match).
pub open spec fn tree_of_file(f: FileMatch, mode: ExpandMode, tree: Option<(SyntaxTree, Lang)>) -> bool {
    if mode is Function && f.content is Some && lang_of_path(f.path@) is Some
        && grammar_accepted_of(lang_of_path(f.path@)->0) {
        &&& tree matches Some(p)
        &&& p.1 == lang_of_path(f.path@)->0
        &&& is_parse_of(p.0, f.content->0@, p.1)
    } else {
        tree is None
    }
}

/// The expanded rendering of the matches: for `--fn` each file with a known
/// language is parsed, and the trees of their contents are those of
/// `format_expanded_with`.
pub fn format_expanded(matches: &Vec<FileMatch>, mode: ExpandMode) -> (r: Option<String>)
    ensures
        exists|trees: Seq<Option<(SyntaxTree, Lang)>>| #![trigger expanded_ok(matches@, mode, trees)] {
            &&& trees.len() == matches@.len()
            &&& forall|i: int| 0 <= i < trees.len() ==> #[trigger] tree_of_file(matches@[i], mode, trees[i])
            &&& (r is Some <==> expanded_ok(matches@, mode, trees))
            &&& (r matches Some(s) ==> s@ == expanded_text(matches@, mode, trees))
        },
{
    let mut trees: Vec<Option<(SyntaxTree, Lang)>> = Vec::new();
    for i in 0..matches.len()
        invariant
            trees@.len() == i,
            forall|q: int| 0 <= q < i ==> #[trigger] tree_of_file(matches@[q], mode, trees@[q]),
    {
        let fm = &matches[i];
        let mut tree: Option<(SyntaxTree, Lang)> = None;
        if mode == ExpandMode::Function {
            if let Some(c) = &fm.content {
                if let Some(lang) = Lang::from_path(fm.path.as_str()) {
                    if let Ok(t) = parse(c.as_str(), lang) {
                        tree = Some((t, lang));
                    }
                }
            }
        }
        assert(tree_of_file(matches@[i as int], mode, tree));
        trees.push(tree);
    }
    assert forall|i: int| 0 <= i < trees@.len() implies (#[trigger] trees@[i] matches Some(p) ==> p.0.wf()) by {
        assert(tree_of_file(matches@[i], mode, trees@[i]));
    }
    let r = format_expanded_with(matches, mode, &trees);
    assert(trees@.len() == matches@.len());
    assert(expanded_ok(matches@, mode, trees@) == expanded_ok(matches@, mode, trees@));
    r
}


proof fn lemma_merge_scan_ends(r: Seq<LineRange>)
    requires
        r.len() >= 1,
        forall|i: int| 0 <= i < r.len() ==> (#[trigger] r[i]).1 < usize::MAX,
    ensures
        merge_scan(r).1.1 < usize::MAX,
        forall|k: int| 0 <= k < merge_scan(r).0.len() ==> (#[trigger] merge_scan(r).0[k]).1 < usize::MAX,
    decreases r.len(),
{
    if r.len() > 1 {
        lemma_merge_scan_ends(r.drop_last());
        assert(r[r.len() - 1] == r.last());
    }
}

proof fn lemma_merged_ends(r: Seq<LineRange>)
    requires
        forall|i: int| 0 <= i < r.len() ==> (#[trigger] r[i]).1 < usize::MAX,
    ensures
        forall|k: int| 0 <= k < merged_blocks(r).len() ==> (#[trigger] merged_blocks(r)[k]).1 < usize::MAX,
{
    if r.len() > 0 {
        lemma_merge_scan_ends(r);
        let (done, cur) = merge_scan(r);
        assert forall|k: int| 0 <= k < merged_blocks(r).len() implies (#[trigger] merged_blocks(r)[k]).1 < usize::MAX by {
            if k < done.len() { assert(merged_blocks(r)[k] == done[k]); }
        }
    }
}

} // verus!

verus! {

// ---------------------------------------------------------------------------
// The matcher
// ---------------------------------------------------------------------------

#[verifier::external_type_specification]
#[verifier::external_body]
pub struct ExRegexMatcher(grep_regex::RegexMatcher);

/// What building a line matcher from a pattern reports: `None` when the
/// pattern compiles, else the error's message.
pub uninterp spec fn regex_error_of(pattern: Seq<char>) -> Option<Seq<char>>;

/// `RegexMatcher::new_line_matcher`: a matcher for `pattern` with `\n` as line
/// terminator, or the text of the error it gave. Whether a pattern compiles,
/// and the error's wording, are named, not stated.
#[verifier::external_body]
pub(crate) fn new_line_matcher(pattern: &str) -> (r: Result<grep_regex::RegexMatcher, String>)
    ensures
        r is Ok <==> regex_error_of(pattern@) is None,
        r matches Err(e) ==> regex_error_of(pattern@) == Some(e@),
{
    match grep_regex::RegexMatcher::new_line_matcher(pattern) {
        Ok(m) => Ok(m),
        Err(e) => Err(e.to_string()),
    }
}

/// The pattern handed to the matcher: `(?i)` in front when case is ignored.
pub open spec fn effective_pattern(pattern: Seq<char>, ignore_case: bool) -> Seq<char> {
    if ignore_case { "(?i)"@ + pattern } else { pattern }
}

/// The reminder of the regex syntax shown with an invalid pattern.
pub open spec fn syntax_help() -> Seq<char> {
    "\n\nctx uses Rust/ripgrep regex syntax:\n- Alternation: foo|bar  (NOT foo\\|bar)\n- Grouping:    (a|b)    (NOT \\(a\\|b\\))\n- Quantifiers: a+  a?   (NOT a\\+ a\\?)\n- Word boundary: \\bword\\b\n- Case-insensitive: (?i)pattern or -i flag\nSee: https://docs.rs/regex/latest/regex/#syntax"@
}

/// The error for a pattern that does not compile.
pub open spec fn invalid_pattern_text(pattern: Seq<char>, err: Seq<char>) -> Seq<char> {
    "Invalid regex pattern '"@ + pattern + "': "@ + err + syntax_help()
}

/// The matcher for `pattern` (as the user wrote it, after BRE conversion to
/// `converted`), or the message that explains why it does not compile.
pub fn build_matcher(pattern: &str, converted: &str, ignore_case: bool) -> (r: Result<grep_regex::RegexMatcher, String>)
    ensures
        r is Ok <==> regex_error_of(effective_pattern(converted@, ignore_case)) is None,
        r matches Err(m) ==> exists|e: Seq<char>| regex_error_of(effective_pattern(converted@, ignore_case)) == Some(e)
            && m@ == invalid_pattern_text(pattern@, e),
{
    let mut p: Vec<char> = Vec::new();
    if ignore_case {
        push_str(&mut p, "(?i)");
    }
    push_str(&mut p, converted);
    let ps = string_of(&p);
    assert(ps@ == effective_pattern(converted@, ignore_case));
    match new_line_matcher(ps.as_str()) {
        Ok(m) => Ok(m),
        Err(e) => {
            let mut out: Vec<char> = Vec::new();
            push_str(&mut out, "Invalid regex pattern '");
            push_str(&mut out, pattern);
            push_str(&mut out, "': ");
            push_str(&mut out, e.as_str());
            push_str(&mut out, "\n\nctx uses Rust/ripgrep regex syntax:\n- Alternation: foo|bar  (NOT foo\\|bar)\n- Grouping:    (a|b)    (NOT \\(a\\|b\\))\n- Quantifiers: a+  a?   (NOT a\\+ a\\?)\n- Word boundary: \\bword\\b\n- Case-insensitive: (?i)pattern or -i flag\nSee: https://docs.rs/regex/latest/regex/#syntax");
            assert(out@ == invalid_pattern_text(pattern@, e@));
            Err(string_of(&out))
        },
    }
}

/// The note printed when a BRE pattern was converted.
pub open spec fn bre_notice_text(pattern: Seq<char>, converted: Seq<char>) -> Seq<char> {
    "ctx: auto-converted BRE pattern '"@ + pattern + "' → '"@ + converted + "' (ctx uses Rust/ripgrep regex syntax)"@
}

/// The note printed when a BRE pattern was converted.
pub fn bre_notice(pattern: &str, converted: &str) -> (r: String)
    ensures
        r@ == bre_notice_text(pattern@, converted@),
{
    let mut out: Vec<char> = Vec::new();
    push_str(&mut out, "ctx: auto-converted BRE pattern '");
    push_str(&mut out, pattern);
    push_str(&mut out, "' → '");
    push_str(&mut out, converted);
    push_str(&mut out, "' (ctx uses Rust/ripgrep regex syntax)");
    string_of(&out)
}

} // verus!

verus! {

// ---------------------------------------------------------------------------
// The matching files, ordered by path
// ---------------------------------------------------------------------------

/// The index at which a file with path `p` goes in `files` (ordered by path):
/// the first file whose path is not before `p`.
pub open spec fn slot_of(files: Seq<FileMatch>, p: Seq<char>) -> int {
    match first_where(0, files.len() as int, |i: int| path_order_of(p, files[i].path@) <= 0) {
        Some(i) => i,
        None => files.len() as int,
    }
}

/// `files` with `f` recorded as a map keyed by path does it: `f` replaces the
/// file with an equal path, or is inserted before the first file whose path
/// comes after it.
pub open spec fn record_file(files: Seq<FileMatch>, f: FileMatch) -> Seq<FileMatch> {
    let i = slot_of(files, f.path@);
    if i < files.len() && path_order_of(f.path@, files[i].path@) == 0 {
        files.update(i, FileMatch { path: files[i].path, lines: f.lines, content: f.content })
    } else {
        files.insert(i, f)
    }
}

/// Each file's path comes before the next one's: the files are in path order,
/// one entry per path.
pub open spec fn files_in_order(files: Seq<FileMatch>) -> bool {
    forall|i: int| 0 <= i < files.len() - 1 ==> path_order_of(files[i].path@, #[trigger] files[i + 1].path@) < 0
}

/// Records the matches of one file among the matching files, which are kept
/// ordered by path, one entry per path.
pub fn record_matches(files: &mut Vec<FileMatch>, f: FileMatch)
    ensures
        final(files)@ == record_file(old(files)@, f),
        files_in_order(old(files)@) ==> files_in_order(final(files)@),
{
    let ghost old_files = files@;
    let ghost pred = |i: int| path_order_of(f.path@, old_files[i].path@) <= 0;
    let n = files.len();
    let mut i: usize = 0;
    let mut ord: i8 = 1;
    while i < n
        invariant
            n == files@.len(),
            files@ == old_files,
            pred == (|i: int| path_order_of(f.path@, old_files[i].path@) <= 0),
            i <= n,
            forall|k: int| 0 <= k < i ==> !#[trigger] pred(k),
            0 < i ==> path_order_of(old_files[i - 1].path@, f.path@) < 0,
        ensures
            i <= n,
            forall|k: int| 0 <= k < i ==> !#[trigger] pred(k),
            0 < i ==> path_order_of(old_files[i - 1].path@, f.path@) < 0,
            i < n ==> pred(i as int) && ord == path_order_of(f.path@, old_files[i as int].path@),
        decreases n - i,
    {
        ord = compare_paths(f.path.as_str(), files[i].path.as_str());
        if ord <= 0 {
            break;
        }
        i = i + 1;
    }
    proof {
        if i < n {
            lemma_first_where_found(0, n as int, pred, i as int);
        } else {
            lemma_first_where_none(0, n as int, pred);
        }
        assert(slot_of(old_files, f.path@) == i as int);
    }
    if i < n && ord == 0 {
        let kept = files[i].path.clone();
        files.set(i, FileMatch { path: kept, lines: f.lines, content: f.content });
        assert(files_in_order(old_files) ==> files_in_order(files@)) by {
            if files_in_order(old_files) {
                assert forall|j: int| 0 <= j < files@.len() - 1 implies
                    path_order_of(files@[j].path@, #[trigger] files@[j + 1].path@) < 0 by {
                    assert(files@[j].path == old_files[j].path);
                    assert(files@[j + 1].path == old_files[j + 1].path);
                }
            }
        }
    } else {
        let ghost fp = f.path@;
        files.insert(i, f);
        assert(files_in_order(old_files) ==> files_in_order(files@)) by {
            if files_in_order(old_files) {
                assert forall|j: int| 0 <= j < files@.len() - 1 implies
                    path_order_of(files@[j].path@, #[trigger] files@[j + 1].path@) < 0 by {
                    if j + 1 < i {
                        assert(files@[j] == old_files[j]);
                        assert(files@[j + 1] == old_files[j + 1]);
                        assert(path_order_of(old_files[j].path@, old_files[j + 1].path@) < 0);
                    } else if j + 1 == i {
                        assert(files@[j] == old_files[j]);
                        assert(files@[j + 1].path@ == fp);
                        assert(path_order_of(old_files[i - 1].path@, fp) < 0);
                    } else if j == i {
                        assert(files@[j].path@ == fp);
                        assert(files@[j + 1] == old_files[j]);
                        assert(ord < 0);
                        assert(path_order_of(fp, old_files[j].path@) < 0);
                    } else {
                        assert(files@[j] == old_files[j - 1]);
                        assert(files@[j + 1] == old_files[j]);
                        assert(path_order_of(old_files[j - 1].path@, old_files[(j - 1) + 1].path@) < 0);
                    }
                }
            }
        }
    }
}

/// Whether the search has found as many matching files as it may.
pub fn search_done(files: &Vec<FileMatch>, limit: usize) -> (b: bool)
    ensures
        b == (files@.len() >= limit),
{
    files.len() >= limit
}


/// Whether the default rendering can be made with `ctx` lines of context.
pub fn context_fits(matches: &Vec<FileMatch>, ctx: usize) -> (b: bool)
    ensures
        b == (ctx < usize::MAX && context_windows_fit(matches@, ctx as int)),
{
    if ctx == usize::MAX {
        return false;
    }
    for i in 0..matches.len()
        invariant
            ctx < usize::MAX,
            forall|a: int, j: int| #![trigger matches@[a].lines@[j]] 0 <= a < i && 0 <= j < matches@[a].lines@.len()
                ==> (matches@[a].content matches Some(c) ==> {
                    let ln = matches@[a].lines@[j].0 as usize as int;
                    let (start, end) = context_window(ln, ctx as int, lines_of(c@).len() as int);
                    &&& ln + ctx <= usize::MAX
                    &&& start <= end
                }),
    {
        if let Some(c) = &matches[i].content {
            let cv = chars_of(c.as_str());
            let ls = lines(&cv);
            let n = ls.len();
            let nm = matches[i].lines.len();
            for j in 0..nm
                invariant
                    ctx < usize::MAX,
                    i < matches@.len(),
                    nm == matches@[i as int].lines@.len(),
                    n == lines_of(c@).len(),
                    matches@[i as int].content == Some(*c),
                    forall|a: int, j: int| #![trigger matches@[a].lines@[j]] 0 <= a < i && 0 <= j < matches@[a].lines@.len()
                        ==> (matches@[a].content matches Some(c) ==> {
                            let ln = matches@[a].lines@[j].0 as usize as int;
                            let (start, end) = context_window(ln, ctx as int, lines_of(c@).len() as int);
                            &&& ln + ctx <= usize::MAX
                            &&& start <= end
                        }),
                    forall|q: int| #![trigger matches@[i as int].lines@[q]] 0 <= q < j ==> {
                        let ln = matches@[i as int].lines@[q].0 as usize as int;
                        let (start, end) = context_window(ln, ctx as int, n as int);
                        &&& ln + ctx <= usize::MAX
                        &&& start <= end
                    },
            {
                let ln = matches[i].lines[j].0 as usize;
                assert(matches@[i as int].lines@[j as int].0 as usize == ln);
                if ln > usize::MAX - ctx {
                    return false;
                }
                let start = if ln > ctx + 1 { ln - (ctx + 1) } else { 0 };
                let end = if ln + ctx < n { ln + ctx } else { n };
                if start > end {
                    assert(context_window(ln as int, ctx as int, n as int) == (start as int, end as int));
                    return false;
                }
            }
        }
    }
    true
}

/// The widening that `--fn` or `--expand N` asks for.
pub open spec fn mode_of(expand_fn: bool, expand: Option<usize>) -> ExpandMode {
    if expand_fn { ExpandMode::Function } else { ExpandMode::Lines(expand->0) }
}

/// The rendering that the options ask for: file names, counts, expanded
/// blocks, or matches with context; `None` where the chosen rendering cannot
/// be made (see `format_expanded` and `context_fits`).
pub fn grep_output(matches: &Vec<FileMatch>, files_only: bool, count: bool, expand_fn: bool, expand: Option<usize>,
    context_lines: usize) -> (r: Option<String>)
    ensures
        files_only ==> (r matches Some(s) && s@ == files_only_text(matches@)),
        !files_only && count ==> (r matches Some(s) && s@ == count_text(matches@)),
        !files_only && !count && !expand_fn && expand is None ==> match r {
            Some(s) => context_lines < usize::MAX && context_windows_fit(matches@, context_lines as int)
                && s@ == context_text(matches@, context_lines as int),
            None => !(context_lines < usize::MAX && context_windows_fit(matches@, context_lines as int)),
        },
        !files_only && !count && (expand_fn || expand is Some) ==> exists|trees: Seq<Option<(SyntaxTree, Lang)>>|
            #![trigger expanded_ok(matches@, mode_of(expand_fn, expand), trees)] {
            &&& trees.len() == matches@.len()
            &&& forall|i: int| 0 <= i < trees.len() ==> #[trigger] tree_of_file(matches@[i], mode_of(expand_fn, expand), trees[i])
            &&& (r is Some <==> expanded_ok(matches@, mode_of(expand_fn, expand), trees))
            &&& (r matches Some(s) ==> s@ == expanded_text(matches@, mode_of(expand_fn, expand), trees))
        },
{
    if files_only {
        Some(format_files_only(matches))
    } else if count {
        Some(format_count(matches))
    } else if expand_fn || expand.is_some() {
        let mode = if expand_fn { ExpandMode::Function } else { ExpandMode::Lines(expand.unwrap()) };
        assert(mode == mode_of(expand_fn, expand));
        format_expanded(matches, mode)
    } else if context_fits(matches, context_lines) {
        Some(format_context(matches, context_lines))
    } else {
        None
    }
}


/// The match lines of blocks, block after block.
pub open spec fn block_lines(bs: Seq<MergedBlock>) -> Seq<usize>
    decreases bs.len(),
{
    if bs.len() == 0 { seq![] } else { block_lines(bs.drop_last()) + bs.last().2 }
}

proof fn lemma_merge_scan_props(r: Seq<LineRange>)
    requires
        r.len() >= 1,
        forall|i: int| 0 <= i < r.len() ==> (#[trigger] r[i]).0 <= r[i].1,
    ensures
        ({
            let (done, cur) = merge_scan(r);
            &&& cur.0 <= cur.1
            &&& forall|k: int| 0 <= k < done.len() ==> (#[trigger] done[k]).0 <= done[k].1
            &&& forall|k: int| 0 <= k < done.len() - 1 ==> (#[trigger] done[k]).1 + 1 < done[k + 1].0
            &&& done.len() > 0 ==> done.last().1 + 1 < cur.0
            &&& block_lines(done) + cur.2 == r.map_values(|x: LineRange| x.2)
        }),
    decreases r.len(),
{
    if r.len() == 1 {
        assert(r.map_values(|x: LineRange| x.2) == seq![r[0].2]);
    } else {
        let rest = r.drop_last();
        assert forall|i: int| 0 <= i < rest.len() implies (#[trigger] rest[i]).0 <= rest[i].1 by {
            assert(rest[i] == r[i]);
        }
        lemma_merge_scan_props(rest);
        let (done, cur) = merge_scan(rest);
        let x = r.last();
        assert(x == r[r.len() - 1]);
        assert(r.map_values(|x: LineRange| x.2) == rest.map_values(|x: LineRange| x.2).push(x.2));
        if x.0 <= cur.1 + 1 {
        } else {
            let d2 = done.push(cur);
            assert(d2.drop_last() == done);
            assert(block_lines(d2) == block_lines(done) + cur.2);
            assert forall|k: int| 0 <= k < d2.len() - 1 implies (#[trigger] d2[k]).1 + 1 < d2[k + 1].0 by {
                if k + 1 < done.len() {
                    assert(d2[k] == done[k] && d2[k + 1] == done[k + 1]);
                } else {
                    assert(d2[k] == done.last() && d2[k + 1] == cur);
                }
            }
            assert forall|k: int| 0 <= k < d2.len() implies (#[trigger] d2[k]).0 <= d2[k].1 by {
                if k < done.len() { assert(d2[k] == done[k]); }
            }
        }
    }
}

/// Merging leaves blocks that neither overlap nor touch: each block starts
/// where it ends or before, the next one starts more than a line after it
/// ends, and the match lines of the blocks are those of the ranges, in order.
pub proof fn lemma_merged_blocks_disjoint(r: Seq<LineRange>)
    requires
        forall|i: int| 0 <= i < r.len() ==> (#[trigger] r[i]).0 <= r[i].1,
    ensures
        ({
            let b = merged_blocks(sorted_ranges(r));
            &&& forall|k: int| 0 <= k < b.len() ==> (#[trigger] b[k]).0 <= b[k].1
            &&& forall|k: int| 0 <= k < b.len() - 1 ==> (#[trigger] b[k]).1 + 1 < b[k + 1].0
            &&& block_lines(b) == sorted_ranges(r).map_values(|x: LineRange| x.2)
        }),
{
    let s = sorted_ranges(r);
    lemma_sorted_ranges_elems(r);
    assert forall|i: int| 0 <= i < s.len() implies (#[trigger] s[i]).0 <= s[i].1 by {
        assert(s.contains(s[i]));
        let k = choose|k: int| 0 <= k < r.len() && r[k] == s[i];
        assert(r[k].0 <= r[k].1);
    }
    let b = merged_blocks(s);
    if s.len() == 0 {
        assert(s.map_values(|x: LineRange| x.2) =~= Seq::<usize>::empty());
    } else {
        lemma_merge_scan_props(s);
        let (done, cur) = merge_scan(s);
        assert(b == done.push(cur));
        assert(b.drop_last() == done);
        assert forall|k: int| 0 <= k < b.len() - 1 implies (#[trigger] b[k]).1 + 1 < b[k + 1].0 by {
            if k + 1 < done.len() {
                assert(b[k] == done[k] && b[k + 1] == done[k + 1]);
            } else {
                assert(b[k] == done.last() && b[k + 1] == cur);
            }
        }
        assert forall|k: int| 0 <= k < b.len() implies (#[trigger] b[k]).0 <= b[k].1 by {
            if k < done.len() { assert(b[k] == done[k]); }
        }
    }
}

} // verus!
