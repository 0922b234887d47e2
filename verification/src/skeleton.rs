//! Skeletons: a file reduced to its signatures, types and imports, with the
//! bodies of functions replaced by placeholders.
use vstd::prelude::*;
use crate::text::{lines_of, starts_with, trim, find, concat_n};
use crate::ts::{grammar_accepted_of, is_parse_of, Lang, SyntaxTree, text_of};

verus! {

/// Lines `a..b` of `ls` (cut at the end of `ls`), each followed by a newline.
pub open spec fn lines_range(ls: Seq<Seq<char>>, a: int, b: int) -> Seq<char> {
    let hi = if b < ls.len() { b } else { ls.len() as int };
    if a >= hi {
        seq![]
    } else {
        concat_n((hi - a) as nat, |k: int| ls[a + k] + seq!['\n'])
    }
}

/// Line `r` of `ls`, or the empty line past the end.
pub open spec fn line_at(ls: Seq<Seq<char>>, r: int) -> Seq<char> {
    if 0 <= r < ls.len() { ls[r] } else { seq![] }
}

/// The leading white space of line `r`; four spaces past the end.
pub open spec fn indent_of(ls: Seq<Seq<char>>, r: int) -> Seq<char> {
    if 0 <= r < ls.len() {
        let l = ls[r];
        l.take(l.len() - crate::text::trim_start_class(l, crate::text::CharClass::Whitespace).len())
    } else {
        "    "@
    }
}

/// `s` without its last character when that is a newline.
pub open spec fn drop_final_newline(s: Seq<char>) -> Seq<char> {
    if s.len() > 0 && s.last() == '\n' { s.drop_last() } else { s }
}

/// The kinds of body nodes that a `{ ... }` placeholder replaces.
pub open spec fn is_body_kind(k: Seq<char>) -> bool {
    k == "statement_block"@ || k == "block"@ || k == "declaration_list"@ || k == "field_declaration_list"@
}

/// The kinds of declarations that an `export` may wrap.
pub open spec fn is_exported_decl_kind(k: Seq<char>) -> bool {
    ||| k == "function_declaration"@
    ||| k == "class_declaration"@
    ||| k == "abstract_class_declaration"@
    ||| k == "lexical_declaration"@
    ||| k == "type_alias_declaration"@
    ||| k == "interface_declaration"@
    ||| k == "enum_declaration"@
    ||| k == "generator_function_declaration"@
}

impl SyntaxTree {
    /// The body of a function-like node: its `body` field, else its first child
    /// of a body kind (`find_body_child`).
    pub open spec fn body_child(&self, i: int) -> Option<int> {
        match self.child_by_field(i, "body"@) {
            Some(b) => Some(b),
            None => crate::ts::first_where(i + 1, self.end_of(i),
                |j: int| self.is_child(i, j) && is_body_kind(self.nodes@[j].kind@)),
        }
    }

    /// A lexical declaration whose some declarator's value is an arrow function.
    pub open spec fn declares_arrow(&self, i: int) -> bool {
        crate::ts::first_where(i + 1, self.end_of(i), |j: int| self.is_child(i, j)
            && self.nodes@[j].kind@ == "variable_declarator"@
            && (self.child_by_field(j, "value"@) matches Some(v) && self.nodes@[v].kind@ == "arrow_function"@)) is Some
    }
}

/// `acc` followed by all lines of node rows `s..=e`.
pub open spec fn emit_full(ls: Seq<Seq<char>>, s: int, e: int, acc: Seq<char>) -> Seq<char> {
    acc + lines_range(ls, s, e + 1)
}

/// The signature of function-like node `i` up to its body, then a placeholder
/// for the body (`emit_signature_then_body_placeholder`): with `arrow`, up to
/// the first `=>` and `=> { ... }`; otherwise up to the body's `{` and `{ ... }`.
pub open spec fn signature_then_placeholder(t: SyntaxTree, src: Seq<char>, ls: Seq<Seq<char>>, i: int, arrow: bool,
    acc: Seq<char>) -> Seq<char>
{
    let n = t.nodes@[i];
    let s = n.start_row as int;
    let e = t.last_row(i);
    let node_text = match text_of(src, n) { Some(x) => x, None => seq![] };
    if arrow && find(node_text, "=>"@) is Some {
        let off = find(node_text, "=>"@).unwrap();
        let abs = n.start + off;
        let nl = lines_of(src.take(abs)).len() as int;
        let arrow_line = if nl > 0 { nl - 1 } else { 0 };
        let lt = line_at(ls, arrow_line);
        let head = acc + lines_range(ls, s, arrow_line);
        match find(lt, "=>"@) {
            Some(pos) => head + lt.take(pos) + "=> { ... }\n"@,
            None => head + lt + " "@ + "=> { ... }\n"@,
        }
    } else if !arrow && t.body_child(i) is Some {
        let br = t.nodes@[t.body_child(i).unwrap()].start_row as int;
        let head = acc + lines_range(ls, s, br);
        let lt = line_at(ls, br);
        match find(lt, "{"@) {
            Some(pos) => {
                let before = crate::text::trim_end_class(lt.take(pos), crate::text::CharClass::Whitespace);
                if before.len() == 0 && br > s {
                    drop_final_newline(head) + " { ... }\n"@
                } else if before.len() == 0 {
                    head + "{ ... }\n"@
                } else {
                    head + before + " "@ + "{ ... }\n"@
                }
            },
            None => head + lt + "\n"@,
        }
    } else {
        emit_full(ls, s, e, acc)
    }
}

/// A Python `def`: its lines up to the body, then `...` at the body's indent.
pub open spec fn python_def(t: SyntaxTree, ls: Seq<Seq<char>>, i: int, acc: Seq<char>) -> Seq<char> {
    let s = t.nodes@[i].start_row as int;
    match t.child_by_field(i, "body"@) {
        Some(b) => {
            let bs = t.nodes@[b].start_row as int;
            acc + lines_range(ls, s, bs) + indent_of(ls, bs) + "...\n"@
        },
        None => emit_full(ls, s, t.last_row(i), acc),
    }
}

/// The skeleton of node `i` appended to `acc`.
pub open spec fn skel(t: SyntaxTree, src: Seq<char>, ls: Seq<Seq<char>>, lang: Lang, i: int, acc: Seq<char>) -> Seq<char>
    decreases t.len() - i, t.len() + 1,
{
    if !(0 <= i < t.len()) {
        acc
    } else {
        let n = t.nodes@[i];
        let k = n.kind@;
        let s = n.start_row as int;
        let e = t.last_row(i);
        if lang.is_js_family() {
            if k == "function_declaration"@ || k == "generator_function_declaration"@
                || k == "function_expression"@ || k == "method_definition"@ {
                signature_then_placeholder(t, src, ls, i, false, acc)
            } else if k == "arrow_function"@ {
                signature_then_placeholder(t, src, ls, i, true, acc)
            } else if k == "export_statement"@ {
                match t.first_named_child(i) {
                    Some(c) => if is_exported_decl_kind(t.nodes@[c].kind@) && i < c < t.len() {
                        let cs = t.nodes@[c].start_row as int;
                        if cs == s {
                            skel(t, src, ls, lang, c, acc)
                        } else {
                            skel(t, src, ls, lang, c, acc + lines_range(ls, s, cs))
                        }
                    } else {
                        emit_full(ls, s, e, acc)
                    },
                    None => emit_full(ls, s, e, acc),
                }
            } else if k == "lexical_declaration"@ {
                if t.declares_arrow(i) {
                    signature_then_placeholder(t, src, ls, i, true, acc)
                } else {
                    emit_full(ls, s, e, acc)
                }
            } else if k == "class_declaration"@ || k == "abstract_class_declaration"@ {
                match t.descendant_of_kind(i, "class_body"@) {
                    Some(b) => if i < b < t.len() {
                        let head = acc + lines_range(ls, s, t.nodes@[b].start_row + 1);
                        skel_children(t, src, ls, lang, b, t.end_of(b), true, head)
                            + line_at(ls, t.last_row(b)) + "\n"@
                    } else {
                        acc
                    },
                    None => emit_full(ls, s, e, acc),
                }
            } else {
                emit_full(ls, s, e, acc)
            }
        } else if lang == Lang::Rust {
            if k == "function_item"@ {
                signature_then_placeholder(t, src, ls, i, false, acc)
            } else if k == "impl_item"@ {
                match t.descendant_of_kind(i, "declaration_list"@) {
                    Some(b) => if i < b < t.len() {
                        let head = acc + lines_range(ls, s, t.nodes@[b].start_row + 1);
                        skel_children(t, src, ls, lang, b, t.end_of(b), true, head)
                            + line_at(ls, t.last_row(b)) + "\n"@
                    } else {
                        acc
                    },
                    None => emit_full(ls, s, e, acc),
                }
            } else {
                emit_full(ls, s, e, acc)
            }
        } else {
            if k == "function_definition"@ {
                python_def(t, ls, i, acc)
            } else if k == "class_definition"@ {
                match t.child_by_field(i, "body"@) {
                    Some(b) => if i < b < t.len() {
                        let head = acc + lines_range(ls, s, t.nodes@[b].start_row as int);
                        skel_children(t, src, ls, lang, b, t.end_of(b), true, head)
                    } else {
                        acc
                    },
                    None => emit_full(ls, s, e, acc),
                }
            } else if k == "decorated_definition"@ {
                if i < t.end_of(i) <= t.len() {
                    skel_children(t, src, ls, lang, i, t.end_of(i), false, acc)
                } else {
                    acc
                }
            } else {
                emit_full(ls, s, e, acc)
            }
        }
    }
}

/// The skeletons of the children of `p` before `k` appended to `acc`: only
/// named children when `named_only`; otherwise (decorated definitions)
/// decorators as they are, other named children by their skeleton.
pub open spec fn skel_children(t: SyntaxTree, src: Seq<char>, ls: Seq<Seq<char>>, lang: Lang, p: int, k: int,
    named_only: bool, acc: Seq<char>) -> Seq<char>
    decreases t.len() - p, k - p,
{
    if !(0 <= p < k && k <= t.len()) || k <= p + 1 {
        acc
    } else {
        let prev = skel_children(t, src, ls, lang, p, k - 1, named_only, acc);
        let m = k - 1;
        let nd = t.nodes@[m];
        if !t.is_child(p, m) {
            prev
        } else if !named_only && nd.kind@ == "decorator"@ {
            emit_full(ls, nd.start_row as int, t.last_row(m), prev)
        } else if nd.named {
            skel(t, src, ls, lang, m, prev)
        } else {
            prev
        }
    }
}

/// The skeleton text of a parsed file: the skeletons of the root's children,
/// trailing white space reduced to one newline (unless nothing but white
/// space was emitted).
pub open spec fn skeleton_text(t: SyntaxTree, src: Seq<char>, lang: Lang) -> Seq<char> {
    let ls = lines_of(src);
    let out = skel_children(t, src, ls, lang, 0, t.end_of(0), false, seq![]);
    let trimmed = crate::text::trim_end_class(out, crate::text::CharClass::Whitespace);
    if trimmed.len() == 0 { out } else { trimmed + "\n"@ }
}

} // verus!

verus! {

/// The lines held by a vector of lines.
pub open spec fn lines_view(ls: Seq<Vec<char>>) -> Seq<Seq<char>> {
    ls.map_values(|l: Vec<char>| l@)
}

fn push_lines_range(out: &mut Vec<char>, ls: &Vec<Vec<char>>, a: usize, b: usize)
    ensures
        final(out)@ == old(out)@ + lines_range(lines_view(ls@), a as int, b as int),
{
    let ghost lv = lines_view(ls@);
    let hi = if b < ls.len() { b } else { ls.len() };
    if a >= hi {
        return;
    }
    let ghost f = |k: int| lv[a + k] + seq!['\n'];
    let ghost start = out@;
    for i in a..hi
        invariant
            a < hi <= ls@.len(),
            lv == lines_view(ls@),
            f == (|k: int| lv[a + k] + seq!['\n']),
            out@ == start + concat_n((i - a) as nat, f),
    {
        crate::text::push_all(out, &ls[i]);
        out.push('\n');
        proof { crate::text::lemma_concat_n_succ((i - a) as nat, f); }
    }
}

/// Emit all lines of a node as-is (`emit_node_full`).
pub fn emit_node_full(lines: &Vec<Vec<char>>, start_row: usize, end_row: usize, output: &mut Vec<char>)
    ensures
        final(output)@ == emit_full(lines_view(lines@), start_row as int, end_row as int, old(output)@),
{
    let end = if end_row >= lines.len() { lines.len() } else { end_row + 1 };
    push_lines_range(output, lines, start_row, end);
}

/// Get the indentation of a line (`get_indent`).
pub fn get_indent(lines: &Vec<Vec<char>>, row: usize) -> (r: Vec<char>)
    ensures
        r@ == indent_of(lines_view(lines@), row as int),
{
    if row < lines.len() {
        let line = &lines[row];
        let lead = crate::text::lead_count(line, 0, line.len(), crate::text::CharClass::Whitespace);
        proof {
            assert(line@.subrange(0, line@.len() as int) == line@);
        }
        crate::text::slice(line, 0, lead)
    } else {
        crate::text::chars_of("    ")
    }
}

fn line_at_exec(ls: &Vec<Vec<char>>, r: usize) -> (l: Vec<char>)
    ensures
        l@ == line_at(lines_view(ls@), r as int),
{
    if r < ls.len() {
        crate::text::slice(&ls[r], 0, ls[r].len())
    } else {
        Vec::new()
    }
}

fn body_child(t: &SyntaxTree, i: usize) -> (r: Option<usize>)
    requires
        t.wf(),
        i < t.len(),
    ensures
        r matches Some(b) ==> t.body_child(i as int) == Some(b as int) && b < t.len(),
        r is None ==> t.body_child(i as int) is None,
{
    if let Some(b) = crate::ts::child_by_field(t, i, "body") {
        return Some(b);
    }
    let end = t.subtree_end[i];
    assert(t.child_by_field(i as int, "body"@) is None);
    let ghost pred = |j: int| t.is_child(i as int, j) && is_body_kind(t.nodes@[j].kind@);
    let mut j = i + 1;
    while j < end
        invariant
            t.wf(),
            i < t.len(),
            end == t.end_of(i as int),
            i + 1 <= j <= end,
            pred == (|j: int| t.is_child(i as int, j) && is_body_kind(t.nodes@[j].kind@)),
            t.child_by_field(i as int, "body"@) is None,
            forall|x: int| i + 1 <= x < j ==> !#[trigger] pred(x),
        decreases end - j,
    {
        let nd = &t.nodes[j];
        let k = nd.kind.as_str();
        let hit = match nd.parent {
            Some(q) => q == i && (k.eq("statement_block") || k.eq("block") || k.eq("declaration_list")
                || k.eq("field_declaration_list")),
            None => false,
        };
        if hit {
            proof {
                crate::ts::lemma_first_where_found(i + 1, end as int, pred, j as int);
                assert(t.body_child(i as int) == crate::ts::first_where(i + 1, end as int, pred));
            }
            return Some(j);
        }
        j = j + 1;
    }
    proof { crate::ts::lemma_first_where_none(i + 1, end as int, pred); }
    None
}

fn declares_arrow(t: &SyntaxTree, i: usize) -> (b: bool)
    requires
        t.wf(),
        i < t.len(),
    ensures
        b == t.declares_arrow(i as int),
{
    let end = t.subtree_end[i];
    let ghost pred = |j: int| t.is_child(i as int, j)
        && t.nodes@[j].kind@ == "variable_declarator"@
        && (t.child_by_field(j, "value"@) matches Some(v) && t.nodes@[v].kind@ == "arrow_function"@);
    let mut j = i + 1;
    while j < end
        invariant
            t.wf(),
            i < t.len(),
            end == t.end_of(i as int),
            i + 1 <= j <= end,
            pred == (|j: int| t.is_child(i as int, j)
                && t.nodes@[j].kind@ == "variable_declarator"@
                && (t.child_by_field(j, "value"@) matches Some(v) && t.nodes@[v].kind@ == "arrow_function"@)),
            forall|x: int| i + 1 <= x < j ==> !#[trigger] pred(x),
        decreases end - j,
    {
        let nd = &t.nodes[j];
        let is_child = match nd.parent { Some(q) => q == i, None => false };
        let hit = is_child && nd.kind.as_str().eq("variable_declarator") && match crate::ts::child_by_field(t, j, "value") {
            Some(v) => t.nodes[v].kind.as_str().eq("arrow_function"),
            None => false,
        };
        if hit {
            proof { crate::ts::lemma_first_where_found(i + 1, end as int, pred, j as int); }
            return true;
        }
        j = j + 1;
    }
    proof { crate::ts::lemma_first_where_none(i + 1, end as int, pred); }
    false
}

fn arrow_line_of(src: &Vec<char>, abs: usize) -> (r: usize)
    requires
        abs <= src@.len(),
    ensures
        r == (if lines_of(src@.take(abs as int)).len() > 0 { lines_of(src@.take(abs as int)).len() - 1 } else { 0 }),
{
    let prefix = crate::text::slice(src, 0, abs);
    assert(prefix@ == src@.take(abs as int));
    let nl = crate::text::lines(&prefix).len();
    if nl > 0 { nl - 1 } else { 0 }
}

fn push_arrow_line(output: &mut Vec<char>, lt: &Vec<char>)
    ensures
        final(output)@ == match find(lt@, "=>"@) {
            Some(pos) => old(output)@ + lt@.take(pos) + "=> { ... }\n"@,
            None => old(output)@ + lt@ + " "@ + "=> { ... }\n"@,
        },
{
    let arrow_tok = crate::text::chars_of("=>");
    match crate::text::find_first(lt, &arrow_tok) {
        Some(pos) => {
            proof { crate::text::lemma_find_bounds(lt@, arrow_tok@); }
            let before = crate::text::slice(lt, 0, pos);
            crate::text::push_all(output, &before);
            crate::text::push_str(output, "=> { ... }\n");
        },
        None => {
            crate::text::push_all(output, lt);
            crate::text::push_str(output, " ");
            crate::text::push_str(output, "=> { ... }\n");
        },
    }
}

#[verifier::rlimit(100)]
#[verifier::spinoff_prover]
fn emit_arrow_placeholder(t: &SyntaxTree, src: &Vec<char>, lines: &Vec<Vec<char>>, i: usize,
    output: &mut Vec<char>) -> (done: bool)
    requires
        t.wf(),
        i < t.len(),
    ensures
        ({
            let n = t.nodes@[i as int];
            let node_text = match text_of(src@, n) { Some(x) => x, None => seq![] };
            &&& done == find(node_text, "=>"@) is Some
            &&& done ==> final(output)@ == signature_then_placeholder(*t, src@, lines_view(lines@), i as int, true, old(output)@)
            &&& !done ==> final(output)@ == old(output)@
        }),
{
    let n = &t.nodes[i];
    let s = n.start_row;
    let node_text = match crate::ts::node_text(src, n) {
        Some(x) => x,
        None => Vec::new(),
    };
    let arrow_tok = crate::text::chars_of("=>");
    match crate::text::find_first(&node_text, &arrow_tok) {
        None => false,
        Some(off) => {
            proof {
                crate::text::lemma_find_bounds(node_text@, arrow_tok@);
                reveal_strlit("=>");
                assert(text_of(src@, *n) is Some);
            }
            let abs = n.start + off;
            let arrow_line = arrow_line_of(src, abs);
            let lt = line_at_exec(lines, arrow_line);
            push_lines_range(output, lines, s, arrow_line);
            push_arrow_line(output, &lt);
            true
        },
    }
}

#[verifier::rlimit(60)]
fn emit_brace_placeholder(t: &SyntaxTree, lines: &Vec<Vec<char>>, i: usize, b: usize, output: &mut Vec<char>)
    requires
        t.wf(),
        i < t.len(),
        b < t.len(),
        t.body_child(i as int) == Some(b as int),
    ensures
        ({
            let lv = lines_view(lines@);
            let s = t.nodes@[i as int].start_row as int;
            let br = t.nodes@[b as int].start_row as int;
            let head = old(output)@ + lines_range(lv, s, br);
            let lt = line_at(lv, br);
            final(output)@ == match find(lt, "{"@) {
                Some(pos) => {
                    let before = crate::text::trim_end_class(lt.take(pos), crate::text::CharClass::Whitespace);
                    if before.len() == 0 && br > s {
                        drop_final_newline(head) + " { ... }\n"@
                    } else if before.len() == 0 {
                        head + "{ ... }\n"@
                    } else {
                        head + before + " "@ + "{ ... }\n"@
                    }
                },
                None => head + lt + "\n"@,
            }
        }),
{
    let s = t.nodes[i].start_row;
    let br = t.nodes[b].start_row;
    push_lines_range(output, lines, s, br);
    let lt = line_at_exec(lines, br);
    match crate::text::find_first(&lt, &crate::text::chars_of("{")) {
        Some(pos) => {
            proof { crate::text::lemma_find_bounds(lt@, "{"@); }
            let head = crate::text::slice(&lt, 0, pos);
            let tc = crate::text::trail_count(&head, 0, head.len(), crate::text::CharClass::Whitespace);
            proof { assert(head@.subrange(0, head@.len() as int) == head@); }
            let before = crate::text::slice(&head, 0, head.len() - tc);
            if before.len() == 0 && br > s {
                if output.len() > 0 && output[output.len() - 1] == '\n' {
                    output.pop();
                }
                crate::text::push_str(output, " { ... }\n");
            } else if before.len() == 0 {
                crate::text::push_str(output, "{ ... }\n");
            } else {
                crate::text::push_all(output, &before);
                crate::text::push_str(output, " ");
                crate::text::push_str(output, "{ ... }\n");
            }
        },
        None => {
            crate::text::push_all(output, &lt);
            crate::text::push_str(output, "\n");
        },
    }
}

/// Emit a function's signature up to its body, then a placeholder for the body.
fn emit_signature_then_body_placeholder(t: &SyntaxTree, src: &Vec<char>, lines: &Vec<Vec<char>>, i: usize,
    arrow: bool, output: &mut Vec<char>)
    requires
        t.wf(),
        i < t.len(),
    ensures
        final(output)@ == signature_then_placeholder(*t, src@, lines_view(lines@), i as int, arrow, old(output)@),
{
    if arrow {
        if emit_arrow_placeholder(t, src, lines, i, output) {
            return;
        }
    } else {
        if let Some(b) = body_child(t, i) {
            emit_brace_placeholder(t, lines, i, b, output);
            return;
        }
    }
    let s = t.nodes[i].start_row;
    let e = crate::ts::node_last_row(t, i);
    emit_node_full(lines, s, e, output);
}

/// Emit a Python `def` as its signature lines and an indented `...`.
fn emit_python_def_skeleton(t: &SyntaxTree, lines: &Vec<Vec<char>>, i: usize, output: &mut Vec<char>)
    requires
        t.wf(),
        i < t.len(),
    ensures
        final(output)@ == python_def(*t, lines_view(lines@), i as int, old(output)@),
{
    let s = t.nodes[i].start_row;
    match crate::ts::child_by_field(t, i, "body") {
        Some(b) => {
            let bs = t.nodes[b].start_row;
            push_lines_range(output, lines, s, bs);
            let indent = get_indent(lines, bs);
            crate::text::push_all(output, &indent);
            crate::text::push_str(output, "...\n");
        },
        None => {
            let e = crate::ts::node_last_row(t, i);
            emit_node_full(lines, s, e, output);
        },
    }
}

} // verus!

verus! {

fn is_exported_decl_kind_exec(k: &str) -> (b: bool)
    ensures
        b == is_exported_decl_kind(k@),
{
    k.eq("function_declaration") || k.eq("class_declaration") || k.eq("abstract_class_declaration")
        || k.eq("lexical_declaration") || k.eq("type_alias_declaration") || k.eq("interface_declaration")
        || k.eq("enum_declaration") || k.eq("generator_function_declaration")
}

/// The skeletons of the children of `p`, appended to `output`.
fn skeleton_children(t: &SyntaxTree, src: &Vec<char>, lines: &Vec<Vec<char>>, lang: Lang, p: usize,
    named_only: bool, output: &mut Vec<char>)
    requires
        t.wf(),
        p < t.len(),
    ensures
        final(output)@ == skel_children(*t, src@, lines_view(lines@), lang, p as int, t.end_of(p as int),
            named_only, old(output)@),
    decreases t.len() - p, t.end_of(p as int) - p,
{
    let ghost lv = lines_view(lines@);
    let ghost start = output@;
    let end = t.subtree_end[p];
    let mut j = p + 1;
    while j < end
        invariant
            t.wf(),
            p < t.len(),
            end == t.end_of(p as int),
            p + 1 <= j <= end,
            lv == lines_view(lines@),
            output@ == skel_children(*t, src@, lv, lang, p as int, j as int, named_only, start),
        decreases end - j,
    {
        let nd = &t.nodes[j];
        let is_child = match nd.parent { Some(q) => q == p, None => false };
        if is_child {
            if !named_only && nd.kind.as_str().eq("decorator") {
                let e = crate::ts::node_last_row(t, j);
                emit_node_full(lines, nd.start_row, e, output);
            } else if nd.named {
                skeleton_node(t, src, lines, lang, j, output);
            }
        }
        j = j + 1;
    }
}

/// Emits the skeleton of node `i` (`skeleton_node`).
fn skeleton_node(t: &SyntaxTree, src: &Vec<char>, lines: &Vec<Vec<char>>, lang: Lang, i: usize,
    output: &mut Vec<char>)
    requires
        t.wf(),
        i < t.len(),
    ensures
        final(output)@ == skel(*t, src@, lines_view(lines@), lang, i as int, old(output)@),
    decreases t.len() - i, t.len() + 2,
{
    match lang {
        Lang::TypeScript | Lang::Tsx | Lang::JavaScript => skeleton_node_ts(t, src, lines, lang, i, output),
        Lang::Rust => skeleton_node_rust(t, src, lines, lang, i, output),
        Lang::Python => skeleton_node_python(t, src, lines, lang, i, output),
    }
}

/// Emits the lines from `s` through the first row of body `b`, the skeletons
/// of the body's named children, and the body's last line.
fn skeleton_braced_body(t: &SyntaxTree, src: &Vec<char>, lines: &Vec<Vec<char>>, lang: Lang, i: usize, b: usize,
    output: &mut Vec<char>)
    requires
        t.wf(),
        i < b < t.len(),
    ensures
        final(output)@ == skel_children(*t, src@, lines_view(lines@), lang, b as int, t.end_of(b as int), true,
            old(output)@ + lines_range(lines_view(lines@), t.nodes@[i as int].start_row as int,
                t.nodes@[b as int].start_row + 1)) + line_at(lines_view(lines@), t.last_row(b as int)) + "\n"@,
    decreases t.len() - i, t.len(),
{
    let s = t.nodes[i].start_row;
    let bs = t.nodes[b].start_row;
    let nlines = lines.len();
    if bs < usize::MAX {
        push_lines_range(output, lines, s, bs + 1);
    } else {
        push_lines_range(output, lines, s, bs);
        assert(lines_range(lines_view(lines@), s as int, bs as int)
            == lines_range(lines_view(lines@), s as int, bs + 1));
    }
    skeleton_children(t, src, lines, lang, b, true, output);
    let lt = line_at_exec(lines, crate::ts::node_last_row(t, b));
    crate::text::push_all(output, &lt);
    crate::text::push_str(output, "\n");
}

/// The skeleton of a TypeScript/JavaScript node.
fn skeleton_node_ts(t: &SyntaxTree, src: &Vec<char>, lines: &Vec<Vec<char>>, lang: Lang, i: usize,
    output: &mut Vec<char>)
    requires
        t.wf(),
        i < t.len(),
        lang.is_js_family(),
    ensures
        final(output)@ == skel(*t, src@, lines_view(lines@), lang, i as int, old(output)@),
    decreases t.len() - i, t.len() + 1,
{
    let n = &t.nodes[i];
    let k = n.kind.as_str();
    let s = n.start_row;
    let e = crate::ts::node_last_row(t, i);
    if k.eq("function_declaration") || k.eq("generator_function_declaration")
        || k.eq("function_expression") || k.eq("method_definition") {
        emit_signature_then_body_placeholder(t, src, lines, i, false, output);
    } else if k.eq("arrow_function") {
        emit_signature_then_body_placeholder(t, src, lines, i, true, output);
    } else if k.eq("export_statement") {
        match crate::ts::first_child(t, i, true) {
            Some(c) => {
                if is_exported_decl_kind_exec(t.nodes[c].kind.as_str()) {
                    let cs = t.nodes[c].start_row;
                    if cs != s {
                        push_lines_range(output, lines, s, cs);
                    }
                    skeleton_node(t, src, lines, lang, c, output);
                } else {
                    emit_node_full(lines, s, e, output);
                }
            },
            None => emit_node_full(lines, s, e, output),
        }
    } else if k.eq("lexical_declaration") {
        if declares_arrow(t, i) {
            emit_signature_then_body_placeholder(t, src, lines, i, true, output);
        } else {
            emit_node_full(lines, s, e, output);
        }
    } else if k.eq("class_declaration") || k.eq("abstract_class_declaration") {
        match crate::ts::descendant_of_kind(t, i, "class_body") {
            Some(b) => skeleton_braced_body(t, src, lines, lang, i, b, output),
            None => emit_node_full(lines, s, e, output),
        }
    } else {
        emit_node_full(lines, s, e, output);
    }
}

/// The skeleton of a Rust node.
fn skeleton_node_rust(t: &SyntaxTree, src: &Vec<char>, lines: &Vec<Vec<char>>, lang: Lang, i: usize,
    output: &mut Vec<char>)
    requires
        t.wf(),
        i < t.len(),
        lang == Lang::Rust,
    ensures
        final(output)@ == skel(*t, src@, lines_view(lines@), lang, i as int, old(output)@),
    decreases t.len() - i, t.len() + 1,
{
    let n = &t.nodes[i];
    let k = n.kind.as_str();
    let s = n.start_row;
    let e = crate::ts::node_last_row(t, i);
    if k.eq("function_item") {
        emit_signature_then_body_placeholder(t, src, lines, i, false, output);
    } else if k.eq("impl_item") {
        match crate::ts::descendant_of_kind(t, i, "declaration_list") {
            Some(b) => skeleton_braced_body(t, src, lines, lang, i, b, output),
            None => emit_node_full(lines, s, e, output),
        }
    } else {
        emit_node_full(lines, s, e, output);
    }
}

/// The skeleton of a Python node.
fn skeleton_node_python(t: &SyntaxTree, src: &Vec<char>, lines: &Vec<Vec<char>>, lang: Lang, i: usize,
    output: &mut Vec<char>)
    requires
        t.wf(),
        i < t.len(),
        lang == Lang::Python,
    ensures
        final(output)@ == skel(*t, src@, lines_view(lines@), lang, i as int, old(output)@),
    decreases t.len() - i, t.len() + 1,
{
    let n = &t.nodes[i];
    let k = n.kind.as_str();
    let s = n.start_row;
    let e = crate::ts::node_last_row(t, i);
    if k.eq("function_definition") {
        emit_python_def_skeleton(t, lines, i, output);
    } else if k.eq("class_definition") {
        match crate::ts::child_by_field(t, i, "body") {
            Some(b) => {
                push_lines_range(output, lines, s, t.nodes[b].start_row);
                skeleton_children(t, src, lines, lang, b, true, output);
            },
            None => emit_node_full(lines, s, e, output),
        }
    } else if k.eq("decorated_definition") {
        skeleton_children(t, src, lines, lang, i, false, output);
    } else {
        emit_node_full(lines, s, e, output);
    }
}

/// The skeleton of a parsed file.
pub fn skeleton_of(tree: &SyntaxTree, source: &str, lang: Lang) -> (r: String)
    requires
        tree.wf(),
    ensures
        r@ == skeleton_text(*tree, source@, lang),
{
    let src = crate::text::chars_of(source);
    let lines = crate::text::lines(&src);
    assert(lines_view(lines@) == lines_of(source@));
    let mut output: Vec<char> = Vec::new();
    skeleton_children(tree, &src, &lines, lang, 0, false, &mut output);
    let tc = crate::text::trail_count(&output, 0, output.len(), crate::text::CharClass::Whitespace);
    proof { assert(output@.subrange(0, output@.len() as int) == output@); }
    if tc == output.len() {
        crate::text::string_of(&output)
    } else {
        let mut trimmed = crate::text::slice(&output, 0, output.len() - tc);
        crate::text::push_str(&mut trimmed, "\n");
        crate::text::string_of(&trimmed)
    }
}

/// Extract a skeleton view of source code: signatures, types and imports,
/// with bodies replaced by placeholders. When the grammar is not accepted,
/// the source itself.
pub fn extract_skeleton(source: &str, lang: Lang) -> (r: String)
    ensures
        !grammar_accepted_of(lang) ==> r@ == source@,
        grammar_accepted_of(lang) ==> exists|t: SyntaxTree| is_parse_of(t, source@, lang) && r@ == skeleton_text(t, source@, lang),
{
    match crate::ts::parse(source, lang) {
        Ok(tree) => skeleton_of(&tree, source, lang),
        Err(_) => source.to_owned(),
    }
}

/// The skeleton of a Python `def` with a body keeps, verbatim and in order,
/// the source lines from the def's first row up to (not including) the body's
/// first row, each with its newline, followed by the body's indentation and
/// `...`.
pub proof fn lemma_python_def_skeleton(t: SyntaxTree, src: Seq<char>, ls: Seq<Seq<char>>, i: int, b: int, acc: Seq<char>)
    requires
        0 <= i < t.len(),
        t.nodes@[i].kind@ == "function_definition"@,
        t.child_by_field(i, "body"@) == Some(b),
        t.nodes@[i].start_row <= t.nodes@[b].start_row <= ls.len(),
    ensures
        ({
            let s = t.nodes@[i].start_row as int;
            let bs = t.nodes@[b].start_row as int;
            skel(t, src, ls, Lang::Python, i, acc)
                == acc + concat_n((bs - s) as nat, |k: int| ls[s + k] + seq!['\n']) + indent_of(ls, bs) + "...\n"@
        }),
{
    let s = t.nodes@[i].start_row as int;
    let bs = t.nodes@[b].start_row as int;
    assert(!Lang::Python.is_js_family());
    if s == bs {
        assert(Seq::new(0nat, |k: int| ls[s + k] + seq!['\n']) =~= Seq::<Seq<char>>::empty());
        assert(concat_n(0nat, |k: int| ls[s + k] + seq!['\n']) == Seq::<char>::empty());
        assert(lines_range(ls, s, bs) == Seq::<char>::empty());
    } else {
        assert(lines_range(ls, s, bs) == concat_n((bs - s) as nat, |k: int| ls[s + k] + seq!['\n']));
    }
}

} // verus!
