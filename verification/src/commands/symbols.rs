//! `ctx symbols`: the symbols of files, filtered by kind and listed grouped by kind.
use vstd::prelude::*;
use crate::paths::{has_extension, has_extension_exec};
use crate::text::{
    chars_of, concat_n, contains, contains_exec, decimal, lemma_concat_n_succ, padded_decimal, push_all, push_decimal,
    push_padded_decimal, push_str, string_of,
};
use crate::ts::{grammar_accepted_of, is_parse_of, extract_symbols, lang_of_path, parse, sym_specs, Lang, SymSpec, SymbolInfo, SyntaxTree};

verus! {

/// The options of `ctx symbols`.
pub struct SymbolsArgs {
    /// File or directory to extract symbols from.
    pub path: String,
    /// Filter by symbol kind (fn, type, class, interface, const, enum, struct, trait, impl, def).
    pub kind: Option<String>,
    /// Filter by file extension (e.g., ts, rs, py).
    pub file_type: Option<String>,
    /// Filter output through the assistant with a question.
    pub ask: Option<String>,
    /// Output as JSON.
    pub json: bool,
}

/// The directories that `ctx symbols` never enters.
pub open spec fn is_symbols_noise(name: Seq<char>) -> bool {
    name == "node_modules"@ || name == ".git"@ || name == "dist"@ || name == "build"@ || name == ".next"@
        || name == "__pycache__"@ || name == "target"@
}

/// Whether the walk of `ctx symbols` skips an entry of this name.
pub fn is_symbols_noise_dir(name: &str) -> (b: bool)
    ensures
        b == is_symbols_noise(name@),
{
    name.eq("node_modules") || name.eq(".git") || name.eq("dist") || name.eq("build") || name.eq(".next")
        || name.eq("__pycache__") || name.eq("target")
}

/// Whether a walked file is read: it has the requested extension, if one was
/// given, and a language that can be parsed.
pub open spec fn keeps_symbols_file(path: Seq<char>, file_type: Option<Seq<char>>) -> bool {
    &&& (file_type matches Some(ext) ==> has_extension(path, ext))
    &&& lang_of_path(path) is Some
}

/// The selection that `collect_files` applies to each walked file.
pub fn keep_symbols_file(path: &str, file_type: &Option<String>) -> (b: bool)
    ensures
        b == keeps_symbols_file(path@, match file_type { Some(e) => Some(e@), None => None }),
{
    if let Some(ext) = file_type {
        if !has_extension_exec(path, ext.as_str()) {
            return false;
        }
    }
    Lang::from_path(path).is_some()
}

/// The symbols whose kind contains the filter, if one is given.
pub open spec fn kind_filtered(syms: Seq<SymSpec>, kind: Option<Seq<char>>) -> Seq<SymSpec>
    decreases syms.len(),
{
    if syms.len() == 0 {
        seq![]
    } else {
        let prev = kind_filtered(syms.drop_last(), kind);
        if kind matches Some(k) && !contains(syms.last().1, k) { prev } else { prev.push(syms.last()) }
    }
}

/// Keeps the symbols whose kind contains the filter.
pub fn filter_by_kind(syms: Vec<SymbolInfo>, kind: &Option<String>) -> (r: Vec<SymbolInfo>)
    ensures
        sym_specs(r@) == kind_filtered(sym_specs(syms@), match kind { Some(k) => Some(k@), None => None }),
{
    let ghost sv = sym_specs(syms@);
    let ghost kv = match kind { Some(k) => Some(k@), None => None };
    let kc: Option<Vec<char>> = match kind { Some(k) => Some(chars_of(k.as_str())), None => None };
    let mut out: Vec<SymbolInfo> = Vec::new();
    let mut rest = syms;
    let mut taken: Vec<SymbolInfo> = Vec::new();
    // reverse, so that popping yields the symbols in order
    while rest.len() > 0
        invariant
            sym_specs(rest@) + sym_specs(taken@).reverse() == sv,
        decreases rest@.len(),
    {
        let ghost r0 = rest@;
        let ghost t0 = taken@;
        let x = rest.pop().unwrap();
        taken.push(x);
        assert(sym_specs(rest@) == sym_specs(r0).drop_last());
        assert(sym_specs(taken@) == sym_specs(t0).push(x.spec()));
        assert(sym_specs(r0) == sym_specs(rest@).push(x.spec()));
        assert(sym_specs(taken@).reverse() == seq![x.spec()] + sym_specs(t0).reverse());
    }
    assert(sym_specs(rest@) =~= Seq::<SymSpec>::empty());
    let mut k: usize = 0;
    let n = taken.len();
    while taken.len() > 0
        invariant
            k + taken@.len() == n,
            sym_specs(taken@).reverse() == sv.skip(k as int),
            kv == match kind { Some(kk) => Some(kk@), None => None },
            match kc { Some(v) => kv == Some(v@), None => kv is None },
            sym_specs(out@) == kind_filtered(sv.take(k as int), kv),
            n == sv.len(),
        decreases taken@.len(),
    {
        let ghost t0 = taken@;
        let x = taken.pop().unwrap();
        assert(sym_specs(t0) == sym_specs(taken@).push(x.spec()));
        assert(sym_specs(t0).reverse()[0] == x.spec());
        assert(sv.skip(k as int)[0] == sv[k as int]);
        assert(sym_specs(taken@).reverse() == sv.skip(k + 1)) by {
            assert(sym_specs(t0).reverse().drop_first() == sym_specs(taken@).reverse());
            assert(sv.skip(k as int).drop_first() == sv.skip(k + 1));
        }
        assert(sv.take(k + 1).drop_last() == sv.take(k as int));
        assert(sv.take(k + 1).last() == x.spec());
        let keep = match &kc {
            Some(kk) => {
                let kind_chars = chars_of(x.kind.as_str());
                contains_exec(&kind_chars, kk)
            },
            None => true,
        };
        let ghost o0 = out@;
        if keep {
            out.push(x);
            assert(sym_specs(out@) == sym_specs(o0).push(x.spec()));
        }
        k = k + 1;
    }
    assert(sv.take(n as int) == sv);
    out
}


/// The symbols of one file that pass the kind filter: none when its language
/// is unknown or parsing fails, else those of the tree that parsing gave.
pub fn file_symbols(path: &str, content: &str, kind: &Option<String>) -> (r: Vec<SymbolInfo>)
    ensures
        lang_of_path(path@) is None ==> r@.len() == 0,
        match lang_of_path(path@) {
            Some(lang) => {
                &&& !grammar_accepted_of(lang) ==> r@.len() == 0
                &&& grammar_accepted_of(lang) ==> exists|t: SyntaxTree| is_parse_of(t, content@, lang)
                    && sym_specs(r@) == kind_filtered(t.symbols(content@, lang), match kind { Some(k) => Some(k@), None => None })
            },
            None => true,
        },
{
    let lang = match Lang::from_path(path) {
        Some(l) => l,
        None => { return Vec::new(); },
    };
    match parse(content, lang) {
        Ok(tree) => {
            let syms = extract_symbols(&tree, content, lang);
            filter_by_kind(syms, kind)
        },
        Err(_) => Vec::new(),
    }
}

/// `{:>w}` of a text: right-aligned in `w` columns.
pub open spec fn padded_text(s: Seq<char>, w: nat) -> Seq<char> {
    if s.len() >= w { s } else { Seq::new((w - s.len()) as nat, |i: int| ' ') + s }
}

fn push_padded_text(out: &mut Vec<char>, s: &str, w: usize)
    ensures
        final(out)@ == old(out)@ + padded_text(s@, w as nat),
{
    let cs = chars_of(s);
    let ghost start = out@;
    if cs.len() < w {
        let pad = w - cs.len();
        for k in 0..pad
            invariant
                out@ == start + Seq::new(k as nat, |i: int| ' '),
        {
            out.push(' ');
            assert(out@ == start + Seq::new((k + 1) as nat, |i: int| ' '));
        }
    }
    push_all(out, &cs);
}

/// The file in front of entry `i` (the empty text before the first).
pub open spec fn prev_file(entries: Seq<(Seq<char>, SymSpec)>, i: int) -> Seq<char> {
    if i == 0 { seq![] } else { entries[i - 1].0 }
}

/// One listed symbol, under its file's header when the file changes.
pub open spec fn symbol_entry_text(entries: Seq<(Seq<char>, SymSpec)>, i: int) -> Seq<char> {
    let (file, sym) = entries[i];
    let cur = prev_file(entries, i);
    (if file != cur {
        (if cur.len() > 0 { seq!['\n'] } else { seq![] }) + "=== "@ + file + " ===\n"@
    } else {
        seq![]
    }) + "  "@ + padded_decimal((sym.2 + 1) as nat, 4) + "  "@ + padded_text(sym.1, 10) + "  "@ + sym.0 + ": "@ + sym.3
        + seq!['\n']
}

/// The listing of the symbols found, grouped under their files.
pub open spec fn symbols_text(entries: Seq<(Seq<char>, SymSpec)>) -> Seq<char> {
    if entries.len() == 0 {
        "No symbols found.\n"@
    } else {
        concat_n(entries.len(), |i: int| symbol_entry_text(entries, i))
    }
}

/// An entry as plain values.
pub open spec fn entry_spec(e: (String, SymbolInfo)) -> (Seq<char>, SymSpec) {
    (e.0@, e.1.spec())
}

fn push_file_header(out: &mut Vec<char>, file: &str, cur: &str)
    ensures
        final(out)@ == old(out)@ + (if file@ != cur@ {
            (if cur@.len() > 0 { seq!['\n'] } else { seq![] }) + "=== "@ + file@ + " ===\n"@
        } else {
            seq![]
        }),
{
    proof {
        reveal_strlit("");
        assert(""@ =~= Seq::<char>::empty());
        assert(cur@ == ""@ <==> cur@.len() == 0) by {
            if cur@.len() == 0 { assert(cur@ =~= ""@); }
        }
    }
    let ghost start = out@;
    if !file.eq(cur) {
        let ghost s0 = out@;
        if !cur.eq("") {
            out.push('\n');
        }
        assert(out@ == s0 + (if cur@.len() > 0 { seq!['\n'] } else { seq![] }));
        push_str(out, "=== ");
        push_str(out, file);
        push_str(out, " ===\n");
    }
}

fn push_symbol_line(out: &mut Vec<char>, sym: &SymbolInfo)
    requires
        sym.line < usize::MAX,
    ensures
        final(out)@ == old(out)@ + "  "@ + padded_decimal((sym.line + 1) as nat, 4) + "  "@ + padded_text(sym.kind@, 10)
            + "  "@ + sym.name@ + ": "@ + sym.signature@ + seq!['\n'],
{
    push_str(out, "  ");
    push_padded_decimal(out, sym.line + 1, 4);
    push_str(out, "  ");
    push_padded_text(out, sym.kind.as_str(), 10);
    push_str(out, "  ");
    push_str(out, sym.name.as_str());
    push_str(out, ": ");
    push_str(out, sym.signature.as_str());
    out.push('\n');
}

#[verifier::rlimit(80)]
#[verifier::spinoff_prover]
fn push_entry(out: &mut Vec<char>, entries: &Vec<(String, SymbolInfo)>, i: usize)
    requires
        i < entries@.len(),
        forall|k: int| 0 <= k < entries@.len() ==> (#[trigger] entries@[k]).1.line < usize::MAX,
    ensures
        final(out)@ == old(out)@ + symbol_entry_text(entries@.map_values(|e: (String, SymbolInfo)| entry_spec(e)), i as int),
{
    let ghost ev = entries@.map_values(|e: (String, SymbolInfo)| entry_spec(e));
    let file = entries[i].0.as_str();
    let sym = &entries[i].1;
    let cur: &str = if i == 0 { "" } else { entries[i - 1].0.as_str() };
    proof { reveal_strlit(""); }
    assert(cur@ == prev_file(ev, i as int));
    assert(ev[i as int] == (file@, sym.spec()));
    assert(""@ == Seq::<char>::empty());
    push_file_header(out, file, cur);
    push_symbol_line(out, sym);
}

/// The kinds of the entries, each once, in the order they first occur.
pub open spec fn kinds_in_order(s: Seq<(Seq<char>, SymSpec)>) -> Seq<Seq<char>>
    decreases s.len(),
{
    if s.len() == 0 {
        seq![]
    } else {
        let d = kinds_in_order(s.drop_last());
        if d.contains(s.last().1.1) { d } else { d.push(s.last().1.1) }
    }
}

/// The entries of kind `k`, in order.
pub open spec fn of_kind(s: Seq<(Seq<char>, SymSpec)>, k: Seq<char>) -> Seq<(Seq<char>, SymSpec)>
    decreases s.len(),
{
    if s.len() == 0 {
        seq![]
    } else {
        let prev = of_kind(s.drop_last(), k);
        if s.last().1.1 == k { prev.push(s.last()) } else { prev }
    }
}

/// The entries of the first `j` kinds of `d`, kind after kind.
pub open spec fn groups_upto(s: Seq<(Seq<char>, SymSpec)>, d: Seq<Seq<char>>, j: int) -> Seq<(Seq<char>, SymSpec)>
    decreases j,
{
    if j <= 0 { seq![] } else { groups_upto(s, d, j - 1) + of_kind(s, d[j - 1]) }
}

/// The entries grouped by symbol kind: the kinds in the order they first
/// occur, and within a kind the entries in their order.
pub open spec fn grouped_by_kind(s: Seq<(Seq<char>, SymSpec)>) -> Seq<(Seq<char>, SymSpec)> {
    groups_upto(s, kinds_in_order(s), kinds_in_order(s).len() as int)
}

fn clone_entry(e: &(String, SymbolInfo)) -> (r: (String, SymbolInfo))
    ensures
        entry_spec(r) == entry_spec(*e),
        r.1.line == e.1.line,
{
    (e.0.clone(), SymbolInfo {
        name: e.1.name.clone(),
        kind: e.1.kind.clone(),
        line: e.1.line,
        signature: e.1.signature.clone(),
    })
}

/// The entries grouped by symbol kind (see [`grouped_by_kind`]).
pub fn group_by_kind(entries: &Vec<(String, SymbolInfo)>) -> (r: Vec<(String, SymbolInfo)>)
    ensures
        r@.map_values(|e: (String, SymbolInfo)| entry_spec(e)) == grouped_by_kind(entries@.map_values(|e: (String, SymbolInfo)| entry_spec(e))),
        forall|k: int| 0 <= k < r@.len() ==> exists|q: int| 0 <= q < entries@.len()
            && (#[trigger] r@[k]).1.line == entries@[q].1.line,
{
    let ghost ev = entries@.map_values(|e: (String, SymbolInfo)| entry_spec(e));
    let n = entries.len();
    let mut kinds: Vec<String> = Vec::new();
    for i in 0..n
        invariant
            n == entries@.len(),
            ev == entries@.map_values(|e: (String, SymbolInfo)| entry_spec(e)),
            kinds@.map_values(|k: String| k@) == kinds_in_order(ev.take(i as int)),
    {
        let ghost kv = kinds@.map_values(|k: String| k@);
        assert(ev.take(i + 1).drop_last() == ev.take(i as int));
        assert(ev.take(i + 1).last() == ev[i as int]);
        assert(ev[i as int].1.1 == entries@[i as int].1.kind@);
        let mut seen = false;
        let mut j: usize = 0;
        while j < kinds.len()
            invariant
                kv == kinds@.map_values(|k: String| k@),
                i < entries@.len(),
                j <= kinds@.len(),
                seen <==> exists|q: int| 0 <= q < j && kv[q] == entries@[i as int].1.kind@,
            decreases kinds@.len() - j,
        {
            assert(kv[j as int] == kinds@[j as int]@);
            if kinds[j].as_str().eq(entries[i].1.kind.as_str()) {
                seen = true;
            }
            j = j + 1;
        }
        assert(seen <==> kv.contains(ev[i as int].1.1)) by {
            if kv.contains(ev[i as int].1.1) {
                let q = choose|q: int| 0 <= q < kv.len() && kv[q] == ev[i as int].1.1;
                assert(kv[q] == entries@[i as int].1.kind@);
            }
        }
        if !seen {
            kinds.push(entries[i].1.kind.clone());
            assert(kinds@.map_values(|k: String| k@) == kv.push(ev[i as int].1.1));
        }
    }
    assert(ev.take(n as int) == ev);
    let ghost d = kinds@.map_values(|k: String| k@);
    let mut out: Vec<(String, SymbolInfo)> = Vec::new();
    for j in 0..kinds.len()
        invariant
            n == entries@.len(),
            ev == entries@.map_values(|e: (String, SymbolInfo)| entry_spec(e)),
            d == kinds@.map_values(|k: String| k@),
            out@.map_values(|e: (String, SymbolInfo)| entry_spec(e)) == groups_upto(ev, d, j as int),
            forall|k: int| 0 <= k < out@.len() ==> exists|q: int| 0 <= q < entries@.len()
                && (#[trigger] out@[k]).1.line == entries@[q].1.line,
    {
        let ghost base = out@.map_values(|e: (String, SymbolInfo)| entry_spec(e));
        assert(d[j as int] == kinds@[j as int]@);
        for i in 0..n
            invariant
                n == entries@.len(),
                ev == entries@.map_values(|e: (String, SymbolInfo)| entry_spec(e)),
                d == kinds@.map_values(|k: String| k@),
                j < kinds@.len(),
                out@.map_values(|e: (String, SymbolInfo)| entry_spec(e)) == base + of_kind(ev.take(i as int), d[j as int]),
                forall|k: int| 0 <= k < out@.len() ==> exists|q: int| 0 <= q < entries@.len()
                    && (#[trigger] out@[k]).1.line == entries@[q].1.line,
        {
            let ghost ov = out@.map_values(|e: (String, SymbolInfo)| entry_spec(e));
            assert(ev.take(i + 1).drop_last() == ev.take(i as int));
            assert(ev.take(i + 1).last() == ev[i as int]);
            assert(ev[i as int] == entry_spec(entries@[i as int]));
            if entries[i].1.kind.as_str().eq(kinds[j].as_str()) {
                let e = clone_entry(&entries[i]);
                out.push(e);
                assert(out@.map_values(|e: (String, SymbolInfo)| entry_spec(e)) == ov.push(ev[i as int]));
                assert(out@[out@.len() - 1].1.line == entries@[i as int].1.line);
            }
        }
        assert(ev.take(n as int) == ev);
    }
    out
}

/// Renders the symbols found grouped by kind (kinds in the order they first
/// occur), each under its file's header whenever the file changes.
pub fn format_symbols(entries: &Vec<(String, SymbolInfo)>) -> (r: String)
    requires
        forall|k: int| 0 <= k < entries@.len() ==> (#[trigger] entries@[k]).1.line < usize::MAX,
    ensures
        r@ == symbols_text(grouped_by_kind(entries@.map_values(|e: (String, SymbolInfo)| entry_spec(e)))),
{
    let ghost orig = entries@;
    let entries = &group_by_kind(entries);
    assert forall|k: int| 0 <= k < entries@.len() implies (#[trigger] entries@[k]).1.line < usize::MAX by {
        let q = choose|q: int| 0 <= q < orig.len() && entries@[k].1.line == orig[q].1.line;
        assert(orig[q].1.line < usize::MAX);
    }
    let ghost ev = entries@.map_values(|e: (String, SymbolInfo)| entry_spec(e));
    let mut out: Vec<char> = Vec::new();
    if entries.len() == 0 {
        push_str(&mut out, "No symbols found.\n");
        return string_of(&out);
    }
    let ghost f = |i: int| symbol_entry_text(ev, i);
    for i in 0..entries.len()
        invariant
            ev == entries@.map_values(|e: (String, SymbolInfo)| entry_spec(e)),
            forall|k: int| 0 <= k < entries@.len() ==> (#[trigger] entries@[k]).1.line < usize::MAX,
            f == (|i: int| symbol_entry_text(ev, i)),
            out@ == concat_n(i as nat, f),
    {
        push_entry(&mut out, entries, i);
        proof { lemma_concat_n_succ(i as nat, f); }
    }
    string_of(&out)
}


proof fn lemma_kinds_in_order_distinct(s: Seq<(Seq<char>, SymSpec)>)
    ensures
        forall|a: int, b: int| 0 <= a < b < kinds_in_order(s).len() ==>
            #[trigger] kinds_in_order(s)[a] != #[trigger] kinds_in_order(s)[b],
    decreases s.len(),
{
    if s.len() > 0 {
        lemma_kinds_in_order_distinct(s.drop_last());
        let d0 = kinds_in_order(s.drop_last());
        let d = kinds_in_order(s);
        let k = s.last().1.1;
        if !d0.contains(k) {
            assert forall|a: int, b: int| 0 <= a < b < d.len() implies #[trigger] d[a] != #[trigger] d[b] by {
                if b == d0.len() {
                    assert(d[a] == d0[a]);
                    assert(d[b] == k);
                } else {
                    assert(d[a] == d0[a] && d[b] == d0[b]);
                }
            }
        }
    }
}

proof fn lemma_of_kind_kinds(s: Seq<(Seq<char>, SymSpec)>, k: Seq<char>)
    ensures
        forall|i: int| 0 <= i < of_kind(s, k).len() ==> (#[trigger] of_kind(s, k)[i]).1.1 == k,
    decreases s.len(),
{
    if s.len() > 0 {
        lemma_of_kind_kinds(s.drop_last(), k);
        let prev = of_kind(s.drop_last(), k);
        assert forall|i: int| 0 <= i < of_kind(s, k).len() implies (#[trigger] of_kind(s, k)[i]).1.1 == k by {
            if i < prev.len() {
                assert(of_kind(s, k)[i] == prev[i]);
            }
        }
    }
}

/// The kinds of a group sequence lie among the first `j` kinds, and no kind
/// is split.
proof fn lemma_groups_upto(s: Seq<(Seq<char>, SymSpec)>, d: Seq<Seq<char>>, j: int)
    requires
        0 <= j <= d.len(),
        forall|a: int, b: int| 0 <= a < b < d.len() ==> #[trigger] d[a] != #[trigger] d[b],
    ensures
        forall|i: int| 0 <= i < groups_upto(s, d, j).len() ==>
            exists|a: int| 0 <= a < j && d[a] == (#[trigger] groups_upto(s, d, j)[i]).1.1,
        forall|i: int, m: int, l: int| 0 <= i < m < l < groups_upto(s, d, j).len()
            && (#[trigger] groups_upto(s, d, j)[i]).1.1 == (#[trigger] groups_upto(s, d, j)[l]).1.1
            ==> (#[trigger] groups_upto(s, d, j)[m]).1.1 == groups_upto(s, d, j)[i].1.1,
    decreases j,
{
    if j > 0 {
        lemma_groups_upto(s, d, j - 1);
        lemma_of_kind_kinds(s, d[j - 1]);
        let g0 = groups_upto(s, d, j - 1);
        let blk = of_kind(s, d[j - 1]);
        let g = groups_upto(s, d, j);
        assert(g == g0 + blk);
        assert forall|i: int| 0 <= i < g.len() implies exists|a: int| 0 <= a < j && d[a] == (#[trigger] g[i]).1.1 by {
            if i < g0.len() {
                assert(g[i] == g0[i]);
                let a = choose|a: int| 0 <= a < j - 1 && d[a] == g0[i].1.1;
            } else {
                assert(g[i] == blk[i - g0.len()]);
                assert(d[j - 1] == g[i].1.1);
            }
        }
        assert forall|i: int, m: int, l: int| 0 <= i < m < l < g.len() && (#[trigger] g[i]).1.1 == (#[trigger] g[l]).1.1
            implies (#[trigger] g[m]).1.1 == g[i].1.1 by {
            if l < g0.len() {
                assert(g[i] == g0[i] && g[m] == g0[m] && g[l] == g0[l]);
            } else if m >= g0.len() {
                assert(g[m] == blk[m - g0.len()] && g[l] == blk[l - g0.len()]);
                if i < g0.len() {
                    assert(g[i] == g0[i]);
                    let a = choose|a: int| 0 <= a < j - 1 && d[a] == g0[i].1.1;
                    assert(d[a] != d[j - 1]);
                } else {
                    assert(g[i] == blk[i - g0.len()]);
                }
            } else {
                assert(g[i] == g0[i] && g[l] == blk[l - g0.len()]);
                let a = choose|a: int| 0 <= a < j - 1 && d[a] == g0[i].1.1;
                assert(d[a] != d[j - 1]);
            }
        }
    }
}

/// Grouping by kind leaves each kind in one contiguous run: between two
/// entries of a kind, every entry has that kind.
pub proof fn lemma_grouped_by_kind(s: Seq<(Seq<char>, SymSpec)>)
    ensures
        forall|i: int, m: int, l: int| 0 <= i < m < l < grouped_by_kind(s).len()
            && (#[trigger] grouped_by_kind(s)[i]).1.1 == (#[trigger] grouped_by_kind(s)[l]).1.1
            ==> (#[trigger] grouped_by_kind(s)[m]).1.1 == grouped_by_kind(s)[i].1.1,
{
    lemma_kinds_in_order_distinct(s);
    lemma_groups_upto(s, kinds_in_order(s), kinds_in_order(s).len() as int);
}

/// Every symbol kept has a kind that contains the filter, and no symbol whose
/// kind contains it is dropped.
pub proof fn lemma_kind_filter(syms: Seq<SymSpec>, kind: Seq<char>)
    ensures
        forall|i: int| 0 <= i < kind_filtered(syms, Some(kind)).len() ==>
            contains(#[trigger] kind_filtered(syms, Some(kind))[i].1, kind),
        kind_filtered(syms, Some(kind)).len() == syms.filter(|s: SymSpec| contains(s.1, kind)).len(),
    decreases syms.len(),
{
    reveal(Seq::filter);
    if syms.len() > 0 {
        lemma_kind_filter(syms.drop_last(), kind);
        let prev = kind_filtered(syms.drop_last(), Some(kind));
        let r = kind_filtered(syms, Some(kind));
        assert forall|i: int| 0 <= i < r.len() implies contains(#[trigger] r[i].1, kind) by {
            if i < prev.len() { assert(r[i] == prev[i]); }
        }
    }
}

} // verus!
