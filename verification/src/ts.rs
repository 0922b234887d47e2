//! Syntax trees: language detection, parsing with tree-sitter into a flat
//! pre-order model, and the queries that the commands run on that model.
use vstd::prelude::*;
use tree_sitter::{Language, Parser, Tree};
use crate::paths::{extension, extension_of};
use crate::text::{starts_with, trim};

verus! {

// ---------------------------------------------------------------------------
// Languages
// ---------------------------------------------------------------------------

/// Supported languages for tree-sitter parsing.
#[derive(Clone, Copy, PartialEq, Eq, Debug, Structural)]
pub enum Lang {
    TypeScript,
    Tsx,
    JavaScript,
    Rust,
    Python,
}

/// The language of a file extension.
pub open spec fn lang_of_extension(e: Seq<char>) -> Option<Lang> {
    if e == "ts"@ || e == "mts"@ || e == "cts"@ {
        Some(Lang::TypeScript)
    } else if e == "tsx"@ {
        Some(Lang::Tsx)
    } else if e == "js"@ || e == "mjs"@ || e == "cjs"@ || e == "jsx"@ {
        Some(Lang::JavaScript)
    } else if e == "rs"@ {
        Some(Lang::Rust)
    } else if e == "py"@ || e == "pyi"@ {
        Some(Lang::Python)
    } else {
        None
    }
}

/// The language of a path, by its extension.
pub open spec fn lang_of_path(p: Seq<char>) -> Option<Lang> {
    match extension_of(p) {
        Some(e) => lang_of_extension(e),
        None => None,
    }
}

impl Lang {
    /// Detect language from file extension.
    pub fn from_path(path: &str) -> (r: Option<Lang>)
        ensures
            r == lang_of_path(path@),
    {
        match extension(path) {
            None => None,
            Some(e) => {
                let e = e.as_str();
                if e.eq("ts") || e.eq("mts") || e.eq("cts") {
                    Some(Lang::TypeScript)
                } else if e.eq("tsx") {
                    Some(Lang::Tsx)
                } else if e.eq("js") || e.eq("mjs") || e.eq("cjs") || e.eq("jsx") {
                    Some(Lang::JavaScript)
                } else if e.eq("rs") {
                    Some(Lang::Rust)
                } else if e.eq("py") || e.eq("pyi") {
                    Some(Lang::Python)
                } else {
                    None
                }
            },
        }
    }

    /// Whether the language is one of the JavaScript family.
    pub open spec fn is_js_family(self) -> bool {
        self == Lang::TypeScript || self == Lang::Tsx || self == Lang::JavaScript
    }

    /// Node kinds that represent function-like constructs in this language.
    pub open spec fn function_kinds(self) -> Seq<Seq<char>> {
        match self {
            Lang::TypeScript | Lang::Tsx | Lang::JavaScript => seq![
                "function_declaration"@, "method_definition"@, "arrow_function"@,
                "function_expression"@, "generator_function_declaration"@],
            Lang::Rust => seq!["function_item"@],
            Lang::Python => seq!["function_definition"@, "decorated_definition"@],
        }
    }

    /// Node kinds that represent import statements in this language.
    pub open spec fn import_kinds(self) -> Seq<Seq<char>> {
        match self {
            Lang::TypeScript | Lang::Tsx | Lang::JavaScript => seq!["import_statement"@, "export_statement"@],
            Lang::Rust => seq!["use_declaration"@, "mod_item"@, "extern_crate_declaration"@],
            Lang::Python => seq!["import_statement"@, "import_from_statement"@],
        }
    }

    /// Node kinds that represent function-like constructs in this language.
    pub fn function_node_kinds(self) -> (r: Vec<&'static str>)
        ensures
            r@.map_values(|k: &str| k@) == self.function_kinds(),
    {
        let r = match self {
            Lang::TypeScript | Lang::Tsx | Lang::JavaScript => vec![
                "function_declaration", "method_definition", "arrow_function",
                "function_expression", "generator_function_declaration"],
            Lang::Rust => vec!["function_item"],
            Lang::Python => vec!["function_definition", "decorated_definition"],
        };
        assert(r@.map_values(|k: &str| k@) =~= self.function_kinds());
        r
    }

    /// Node kinds that represent import statements in this language.
    pub fn import_node_kinds(self) -> (r: Vec<&'static str>)
        ensures
            r@.map_values(|k: &str| k@) == self.import_kinds(),
    {
        let r = match self {
            Lang::TypeScript | Lang::Tsx | Lang::JavaScript => vec!["import_statement", "export_statement"],
            Lang::Rust => vec!["use_declaration", "mod_item", "extern_crate_declaration"],
            Lang::Python => vec!["import_statement", "import_from_statement"],
        };
        assert(r@.map_values(|k: &str| k@) =~= self.import_kinds());
        r
    }
}

/// Whether `k` is one of `kinds`.
pub fn kind_in(kinds: &Vec<&'static str>, k: &str) -> (b: bool)
    ensures
        b == kinds@.map_values(|x: &str| x@).contains(k@),
{
    let ghost ks = kinds@.map_values(|x: &str| x@);
    for i in 0..kinds.len()
        invariant
            ks == kinds@.map_values(|x: &str| x@),
            forall|j: int| 0 <= j < i ==> ks[j] != k@,
    {
        if kinds[i].eq(k) {
            assert(ks[i as int] == k@);
            return true;
        }
    }
    false
}

} // verus!

verus! {

// ---------------------------------------------------------------------------
// tree-sitter (trusted items)
// ---------------------------------------------------------------------------

#[verifier::external_type_specification]
#[verifier::external_body]
pub struct ExLanguage(Language);

#[verifier::external_type_specification]
#[verifier::external_body]
pub struct ExParser(Parser);

#[verifier::external_type_specification]
#[verifier::external_body]
pub struct ExTree(Tree);

/// The tree-sitter grammar of a language (the `LANGUAGE` constants of the
/// grammar crates). Nothing is claimed of the grammar.
#[verifier::external_body]
fn tree_sitter_language(lang: Lang) -> Language {
    match lang {
        Lang::TypeScript => tree_sitter_typescript::LANGUAGE_TYPESCRIPT.into(),
        Lang::Tsx => tree_sitter_typescript::LANGUAGE_TSX.into(),
        Lang::JavaScript => tree_sitter_javascript::LANGUAGE.into(),
        Lang::Rust => tree_sitter_rust::LANGUAGE.into(),
        Lang::Python => tree_sitter_python::LANGUAGE.into(),
    }
}

} // verus!

verus! {

// ---------------------------------------------------------------------------
// The syntax tree model
// ---------------------------------------------------------------------------

/// One node of a syntax tree, as plain values.
pub struct SyntaxNode {
    /// The grammar's name of the node's type.
    pub kind: String,
    /// The field under which its parent holds it, if any.
    pub field: Option<String>,
    /// Whether the node is named (not an anonymous token).
    pub named: bool,
    /// Character offset in the source where the node starts.
    pub start: usize,
    /// Character offset in the source where the node ends.
    pub stop: usize,
    /// Row (0-based line) where the node starts.
    pub start_row: usize,
    /// Row where the node ends.
    pub end_row: usize,
    /// Column (in bytes) where the node ends.
    pub end_col: usize,
    /// Index of the parent node; `None` for the root.
    pub parent: Option<usize>,
}

/// A syntax tree in pre-order: node 0 is the root, each node comes before its
/// descendants, and the descendants of node `i` are exactly the nodes
/// `i + 1 .. subtree_end[i]`.
pub struct SyntaxTree {
    pub nodes: Vec<SyntaxNode>,
    pub subtree_end: Vec<usize>,
}

/// The shape invariant of a tree (see [`SyntaxTree`]).
pub open spec fn wf_shape(ns: Seq<SyntaxNode>, ends: Seq<usize>) -> bool {
    &&& ns.len() >= 1
    &&& ends.len() == ns.len()
    &&& ns[0].parent is None
    &&& forall|i: int| 0 < i < ns.len() ==> (#[trigger] ns[i].parent matches Some(p) && p < i)
    &&& forall|i: int| 0 <= i < ns.len() ==> i < #[trigger] ends[i] <= ns.len()
    &&& forall|i: int| 0 < i < ns.len() ==> (#[trigger] ns[i].parent matches Some(p)
        && i < ends[p as int] && ends[i] <= ends[p as int])
    &&& forall|i: int, j: int| #![trigger ends[i], ns[j].parent] 0 <= i < ns.len() && i < j < ends[i] ==>
        (ns[j].parent matches Some(p) && i <= p)
}

impl SyntaxTree {
    pub open spec fn wf(&self) -> bool {
        wf_shape(self.nodes@, self.subtree_end@)
    }

    pub open spec fn len(&self) -> nat {
        self.nodes@.len()
    }

    pub open spec fn node(&self, i: int) -> SyntaxNode {
        self.nodes@[i]
    }

    pub open spec fn parent_of(&self, i: int) -> Option<int> {
        match self.nodes@[i].parent {
            Some(p) => Some(p as int),
            None => None,
        }
    }

    pub open spec fn end_of(&self, i: int) -> int {
        self.subtree_end@[i] as int
    }
}

/// The number of bytes of `c` in UTF-8: one below U+0080, two below U+0800,
/// three below U+10000, else four.
pub open spec fn utf8_len(c: char) -> nat {
    let u = c as u32;
    if u < 0x80 { 1 } else if u < 0x800 { 2 } else if u < 0x10000 { 3 } else { 4 }
}

/// For each byte of the UTF-8 encoding of `s`, the index of the character it
/// belongs to.
pub open spec fn char_of_bytes(s: Seq<char>) -> Seq<usize>
    decreases s.len(),
{
    if s.len() == 0 {
        seq![]
    } else {
        char_of_bytes(s.drop_last()) + Seq::new(utf8_len(s.last()), |j: int| (s.len() - 1) as usize)
    }
}

/// Every byte of `s` belongs to one of its characters.
proof fn lemma_char_of_bytes_bound(s: Seq<char>)
    ensures
        forall|j: int| 0 <= j < char_of_bytes(s).len() ==> #[trigger] char_of_bytes(s)[j] < s.len(),
    decreases s.len(),
{
    if s.len() > 0 {
        lemma_char_of_bytes_bound(s.drop_last());
        let a = char_of_bytes(s.drop_last());
        let b = Seq::new(utf8_len(s.last()), |j: int| (s.len() - 1) as usize);
        assert forall|j: int| 0 <= j < char_of_bytes(s).len() implies #[trigger] char_of_bytes(s)[j] < s.len() by {
            if j < a.len() {
                assert(char_of_bytes(s)[j] == a[j]);
            } else {
                assert(char_of_bytes(s)[j] == b[j - a.len()]);
            }
        }
    }
}

/// Every node's character offsets lie within a source of `n` characters.
pub open spec fn offsets_within(ns: Seq<SyntaxNode>, n: nat) -> bool {
    forall|i: int| 0 <= i < ns.len() ==> (#[trigger] ns[i]).start <= n && ns[i].stop <= n
}

/// The number of bytes of `c` in UTF-8.
fn utf8_width(c: char) -> (w: usize)
    ensures
        w == utf8_len(c),
{
    let u = c as u32;
    if u < 0x80 { 1 } else if u < 0x800 { 2 } else if u < 0x10000 { 3 } else { 4 }
}

/// For each byte offset of the source, the index of the character that holds
/// it; the number of characters for the end offset.
fn byte_to_char_map(source: &Vec<char>) -> (m: Vec<usize>)
    ensures
        m@ == char_of_bytes(source@).push(source@.len() as usize),
{
    let mut m: Vec<usize> = Vec::new();
    for k in 0..source.len()
        invariant
            m@ == char_of_bytes(source@.take(k as int)),
    {
        let w = utf8_width(source[k]);
        let ghost base = m@;
        let mut t: usize = 0;
        while t < w
            invariant
                t <= w,
                w == utf8_len(source@[k as int]),
                m@ == base + Seq::new(t as nat, |j: int| k),
            decreases w - t,
        {
            m.push(k);
            assert(m@ == base + Seq::new((t + 1) as nat, |j: int| k));
            t = t + 1;
        }
        assert(source@.take(k + 1).drop_last() == source@.take(k as int));
        assert(source@.take(k + 1).last() == source@[k as int]);
        assert(Seq::new(w as nat, |j: int| k) == Seq::new(utf8_len(source@.take(k + 1).last()),
            |j: int| (source@.take(k + 1).len() - 1) as usize));
    }
    assert(source@.take(source@.len() as int) == source@);
    m.push(source.len());
    m
}

/// The character at byte offset `b` by the map `m`; `nchars` past its end.
fn char_at_byte(m: &Vec<usize>, b: usize, nchars: usize) -> (r: usize)
    ensures
        r == if (b as int) < m@.len() { m@[b as int] } else { nchars },
{
    if b < m.len() { m[b] } else { nchars }
}

/// The invariant of the pre-order walk that builds a tree: the nodes on the
/// stack are open (their subtree is still growing), the others are closed.
spec fn walk_inv(ns: Seq<SyntaxNode>, ends: Seq<usize>, stack: Seq<usize>) -> bool {
    &&& ns.len() >= 1
    &&& ends.len() == ns.len()
    &&& ns[0].parent is None
    &&& forall|i: int| 0 < i < ns.len() ==> (#[trigger] ns[i].parent matches Some(p) && p < i)
    &&& forall|k: int| 0 <= k < stack.len() ==> #[trigger] stack[k] < ns.len()
    &&& forall|k: int, l: int| 0 <= k < l < stack.len() ==> #[trigger] stack[k] < #[trigger] stack[l]
    &&& stack.len() > 0 ==> stack[0] == 0
    &&& forall|k: int| 0 < k < stack.len() ==> ns[#[trigger] stack[k] as int].parent == Some(stack[k - 1])
    &&& forall|i: int| 0 <= i < ns.len() && !stack.contains(i as usize) ==> i < #[trigger] ends[i] <= ns.len()
    &&& forall|i: int| 0 < i < ns.len() ==> (#[trigger] ns[i].parent matches Some(p)
        && (stack.contains(p) || (!stack.contains(i as usize) && i < ends[p as int] && ends[i] <= ends[p as int])))
    &&& forall|i: int, j: int| #![trigger ends[i], ns[j].parent]
        0 <= i < j < ns.len() && !stack.contains(i as usize) && j < ends[i] ==>
        (ns[j].parent matches Some(p) && i <= p)
    &&& forall|i: int, j: int| #![trigger stack.contains(i as usize), ns[j].parent]
        0 <= i < j < ns.len() && stack.contains(i as usize) ==>
        (ns[j].parent matches Some(p) && i <= p)
}

} // verus!

verus! {

proof fn lemma_walk_push(ns: Seq<SyntaxNode>, ends: Seq<usize>, stack: Seq<usize>, n: SyntaxNode)
    requires
        walk_inv(ns, ends, stack),
        stack.len() > 0,
        n.parent == Some(stack.last()),
        ns.len() < usize::MAX,
    ensures
        walk_inv(ns.push(n), ends.push(0), stack.push(ns.len() as usize)),
{
    let ns2 = ns.push(n);
    let ends2 = ends.push(0);
    let st2 = stack.push(ns.len() as usize);
    let t = stack.last();
    assert forall|i: int| 0 <= i < ns2.len() && !st2.contains(i as usize) implies i < #[trigger] ends2[i] <= ns2.len() by {
        if i < ns.len() {
            assert(!stack.contains(i as usize)) by {
                if stack.contains(i as usize) {
                    let k = choose|k: int| 0 <= k < stack.len() && stack[k] == i as usize;
                    assert(st2[k] == i as usize);
                }
            }
        } else {
            assert(st2[st2.len() - 1] == i as usize);
        }
    }
    assert forall|i: int| 0 < i < ns2.len() implies (#[trigger] ns2[i].parent matches Some(p)
        && (st2.contains(p) || (!st2.contains(i as usize) && i < ends2[p as int] && ends2[i] <= ends2[p as int]))) by {
        if i < ns.len() {
            let p = ns[i].parent.unwrap();
            if stack.contains(p) {
                let k = choose|k: int| 0 <= k < stack.len() && stack[k] == p;
                assert(st2[k] == p);
            } else {
                assert(!st2.contains(i as usize)) by {
                    if st2.contains(i as usize) {
                        let k = choose|k: int| 0 <= k < st2.len() && st2[k] == i as usize;
                        if k < stack.len() as int {
                            assert(stack[k] == i as usize);
                            assert(stack.contains(i as usize));
                        }
                    }
                }
            }
        } else {
            assert(st2[stack.len() - 1] == t);
        }
    }
    assert forall|i: int, j: int| #![trigger ends2[i], ns2[j].parent]
        0 <= i < j < ns2.len() && !st2.contains(i as usize) && j < ends2[i] implies
        (ns2[j].parent matches Some(p) && i <= p) by {
        assert(!stack.contains(i as usize)) by {
            if stack.contains(i as usize) {
                let k = choose|k: int| 0 <= k < stack.len() && stack[k] == i as usize;
                assert(st2[k] == i as usize);
            }
        }
        assert(ends2[i] == ends[i]);
    }
    assert forall|i: int, j: int| #![trigger st2.contains(i as usize), ns2[j].parent]
        0 <= i < j < ns2.len() && st2.contains(i as usize) implies
        (ns2[j].parent matches Some(p) && i <= p) by {
        let k = choose|k: int| 0 <= k < st2.len() && st2[k] == i as usize;
        if k < stack.len() {
            assert(stack[k] == i as usize);
            assert(stack.contains(i as usize));
            if j == ns.len() {
                if k < stack.len() - 1 {
                    assert(stack[k] < stack[stack.len() - 1]);
                }
            }
        }
    }
    assert forall|k: int, l: int| 0 <= k < l < st2.len() implies #[trigger] st2[k] < #[trigger] st2[l] by {
        if l == stack.len() {
            assert(stack[k] < ns.len());
        }
    }
    assert forall|k: int| 0 < k < st2.len() implies ns2[#[trigger] st2[k] as int].parent == Some(st2[k - 1]) by {
        if k < stack.len() {
            assert(stack[k] < ns.len());
        }
    }
}

proof fn lemma_walk_close(ns: Seq<SyntaxNode>, ends: Seq<usize>, stack: Seq<usize>)
    requires
        walk_inv(ns, ends, stack),
        stack.len() > 0,
        ns.len() <= usize::MAX,
    ensures
        walk_inv(ns, ends.update(stack.last() as int, ns.len() as usize), stack.drop_last()),
{
    let t = stack.last();
    let st2 = stack.drop_last();
    let ends2 = ends.update(t as int, ns.len() as usize);
    assert(stack[stack.len() - 1] == t);
    assert(!st2.contains(t)) by {
        if st2.contains(t) {
            let k = choose|k: int| 0 <= k < st2.len() && st2[k] == t;
            assert(stack[k] < stack[stack.len() - 1]);
        }
    }
    assert forall|x: usize| #[trigger] st2.contains(x) implies stack.contains(x) && x != t by {
        let k = choose|k: int| 0 <= k < st2.len() && st2[k] == x;
        assert(stack[k] == x);
    }
    assert forall|x: usize| #[trigger] stack.contains(x) && x != t implies st2.contains(x) by {
        let k = choose|k: int| 0 <= k < stack.len() && stack[k] == x;
        if k == stack.len() - 1 {
        } else {
            assert(st2[k] == x);
        }
    }
    // children of t are closed
    assert forall|i: int| 0 < i < ns.len() && ns[i].parent == Some(t) implies !stack.contains(i as usize) by {
        if stack.contains(i as usize) {
            let k = choose|k: int| 0 <= k < stack.len() && stack[k] == i as usize;
            if k == 0 {
                assert(stack[0] == 0);
            } else {
                assert(ns[stack[k] as int].parent == Some(stack[k - 1]));
                assert(stack[k - 1] == t);
                assert(stack[k - 1] < stack[stack.len() - 1]) by {
                    if k - 1 < stack.len() - 1 {
                    } else {
                        assert(stack[k] > stack[k - 1]);
                    }
                }
            }
        }
    }
    assert forall|i: int| 0 <= i < ns.len() && !st2.contains(i as usize) implies i < #[trigger] ends2[i] <= ns.len() by {
        if i != t as int {
            assert(!stack.contains(i as usize));
        }
    }
    assert forall|i: int| 0 < i < ns.len() implies (#[trigger] ns[i].parent matches Some(p)
        && (st2.contains(p) || (!st2.contains(i as usize) && i < ends2[p as int] && ends2[i] <= ends2[p as int]))) by {
        let p = ns[i].parent.unwrap();
        if p == t {
            assert(!stack.contains(i as usize));
            assert(i as usize != t);
        } else if stack.contains(p) {
            assert(st2.contains(p));
        } else {
            assert(!stack.contains(i as usize));
            assert(i as usize != t);
        }
    }
    assert forall|i: int, j: int| #![trigger ends2[i], ns[j].parent]
        0 <= i < j < ns.len() && !st2.contains(i as usize) && j < ends2[i] implies
        (ns[j].parent matches Some(p) && i <= p) by {
        if i == t as int {
            assert(stack.contains(i as usize));
        } else {
            assert(!stack.contains(i as usize));
            assert(ends2[i] == ends[i]);
        }
    }
    assert forall|i: int, j: int| #![trigger st2.contains(i as usize), ns[j].parent]
        0 <= i < j < ns.len() && st2.contains(i as usize) implies
        (ns[j].parent matches Some(p) && i <= p) by {
        assert(stack.contains(i as usize));
    }
    assert forall|k: int| 0 < k < st2.len() implies ns[#[trigger] st2[k] as int].parent == Some(st2[k - 1]) by {
        assert(st2[k] == stack[k]);
    }
}

proof fn lemma_walk_done(ns: Seq<SyntaxNode>, ends: Seq<usize>)
    requires
        walk_inv(ns, ends, Seq::<usize>::empty()),
    ensures
        wf_shape(ns, ends),
{
    let e = Seq::<usize>::empty();
    assert forall|i: int| 0 <= i < ns.len() implies i < #[trigger] ends[i] <= ns.len() by {
        assert(!e.contains(i as usize));
    }
    assert forall|i: int| 0 < i < ns.len() implies (#[trigger] ns[i].parent matches Some(p)
        && i < ends[p as int] && ends[i] <= ends[p as int]) by {
        let p = ns[i].parent.unwrap();
        assert(!e.contains(p));
    }
    assert forall|i: int, j: int| #![trigger ends[i], ns[j].parent] 0 <= i < ns.len() && i < j < ends[i] implies
        (ns[j].parent matches Some(p) && i <= p) by {
        assert(!e.contains(i as usize));
        assert(i < ends[i] <= ns.len());
    }
}

} // verus!

verus! {

// ---------------------------------------------------------------------------
// The parse of a source, node by node in pre-order
// ---------------------------------------------------------------------------

/// A node as tree-sitter reports it.
pub struct RawNode {
    pub kind: String,
    pub field: Option<String>,
    pub named: bool,
    pub start_byte: usize,
    pub end_byte: usize,
    pub start_row: usize,
    pub end_row: usize,
    pub end_col: usize,
    /// Depth below the root.
    pub depth: usize,
}

/// A text option as plain values.
pub open spec fn opt_view(o: Option<String>) -> Option<Seq<char>> {
    match o {
        Some(s) => Some(s@),
        None => None,
    }
}

/// A reported node as plain values: kind, field, whether named, start and end
/// byte, start row, end row, end column, depth.
pub open spec fn raw_view(r: RawNode) -> (Seq<char>, Option<Seq<char>>, bool, usize, usize, usize, usize, usize, usize) {
    (r.kind@, opt_view(r.field), r.named, r.start_byte, r.end_byte, r.start_row, r.end_row, r.end_col, r.depth)
}

/// Whether `Parser::set_language` accepts the grammar of `lang` (its ABI
/// version lies in the range this tree-sitter supports; fixed by the build).
pub uninterp spec fn grammar_accepted_of(lang: Lang) -> bool;

/// The number of nodes of the tree tree-sitter builds for `source` with the
/// grammar of `lang`, parsing the included ranges `ranges` (each as start and
/// end byte, start row and column, end row and column): `Node::descendant_count`
/// of the root.
pub uninterp spec fn parsed_node_count_of(source: Seq<char>, lang: Lang, ranges: Seq<(usize, usize, usize, usize, usize, usize)>) -> usize;

/// Node `i`, in pre-order, of the tree tree-sitter builds for `source` with the
/// grammar of `lang` and the included ranges `ranges`, as
/// `TreeCursor::goto_descendant(i)` reaches it.
pub uninterp spec fn parsed_node_of(source: Seq<char>, lang: Lang, ranges: Seq<(usize, usize, usize, usize, usize, usize)>, i: usize)
    -> (Seq<char>, Option<Seq<char>>, bool, usize, usize, usize, usize, usize, usize);

/// A parsed source: the tree, with the source, the language and the included
/// ranges it was parsed with. Only `parse_fresh` and `parse_in` make one.
struct ParsedSource {
    tree: Tree,
    source: String,
    lang: Lang,
    ranges: Vec<(usize, usize, usize, usize, usize, usize)>,
}

/// `Parser::new`, `Parser::set_language` with the grammar of `lang`, then
/// `Parser::parse` of `source`, and the parser's `included_ranges`. The parser
/// is fresh (no timeout, no cancellation flag, the default included range), so
/// by tree-sitter's documentation `parse` returns a tree whenever the language
/// was set: the result is `None` exactly when the grammar is not accepted. A new
/// parser's included range is the whole document (`ts_parser_new` sets
/// `DEFAULT_RANGE`, `lexer.c`).
#[verifier::external_body]
fn parse_fresh(source: &str, lang: Lang) -> (r: Option<ParsedSource>)
    ensures
        r is Some <==> grammar_accepted_of(lang),
        r matches Some(p) ==> p.source@ == source@ && p.lang == lang && p.ranges@ == whole_document(),
{
    let mut parser = Parser::new();
    if parser.set_language(&tree_sitter_language(lang)).is_err() {
        return None;
    }
    let tree = parser.parse(source, None)?;
    let ranges = parser.included_ranges().iter()
        .map(|r| (r.start_byte, r.end_byte, r.start_point.row, r.start_point.column, r.end_point.row, r.end_point.column))
        .collect();
    Some(ParsedSource { tree, source: source.to_string(), lang, ranges })
}

/// With a caller's parser: `Parser::reset` (no halted parse is resumed),
/// `Parser::set_language` with the grammar of `lang`, `Parser::parse` of
/// `source`, and the parser's `included_ranges`. The language error comes
/// exactly when the grammar is not accepted; the parse itself can still stop
/// (a timeout or a cancellation flag of the caller's), so a tree is not
/// promised.
#[verifier::external_body]
fn parse_in(parser: &mut Parser, source: &str, lang: Lang) -> (r: Result<ParsedSource, ParseError>)
    ensures
        r is Err && r->Err_0 == ParseError::Language <==> !grammar_accepted_of(lang),
        r matches Ok(p) ==> p.source@ == source@ && p.lang == lang,
{
    parser.reset();
    if parser.set_language(&tree_sitter_language(lang)).is_err() {
        return Err(ParseError::Language);
    }
    let tree = match parser.parse(source, None) {
        Some(t) => t,
        None => return Err(ParseError::Parse),
    };
    let ranges = parser.included_ranges().iter()
        .map(|r| (r.start_byte, r.end_byte, r.start_point.row, r.start_point.column, r.end_point.row, r.end_point.column))
        .collect();
    Ok(ParsedSource { tree, source: source.to_string(), lang, ranges })
}

/// `Node::descendant_count` of the root: the number of nodes, the root
/// included (so at least one).
#[verifier::external_body]
fn parsed_node_count(p: &ParsedSource) -> (r: usize)
    ensures
        r == parsed_node_count_of(p.source@, p.lang, p.ranges@),
        r >= 1,
{
    p.tree.root_node().descendant_count()
}

/// Node `i` in pre-order: a cursor on the root moved by
/// `TreeCursor::goto_descendant(i)`, and what `Node` and the cursor report there.
#[verifier::external_body]
fn parsed_node(p: &ParsedSource, i: usize) -> (r: RawNode)
    requires
        i < parsed_node_count_of(p.source@, p.lang, p.ranges@),
    ensures
        raw_view(r) == parsed_node_of(p.source@, p.lang, p.ranges@, i),
{
    let mut c = p.tree.walk();
    c.goto_descendant(i);
    let n = c.node();
    RawNode {
        kind: n.kind().to_string(),
        field: c.field_name().map(|f| f.to_string()),
        named: n.is_named(),
        start_byte: n.start_byte(),
        end_byte: n.end_byte(),
        start_row: n.start_position().row,
        end_row: n.end_position().row,
        end_col: n.end_position().column,
        depth: c.depth() as usize,
    }
}

/// The depth given to node `i` of the parse: the root at 0; any other node at
/// least 1 and at most one below the node before it (tree-sitter's pre-order
/// depths always are, and are then taken as they come).
pub open spec fn parse_depth(src: Seq<char>, lang: Lang, rg: Seq<(usize, usize, usize, usize, usize, usize)>, i: nat) -> nat
    decreases i,
{
    if i == 0 {
        0
    } else {
        let prev = parse_depth(src, lang, rg, (i - 1) as nat);
        let d = parsed_node_of(src, lang, rg, i as usize).8 as nat;
        if d < 1 { 1 } else if d > prev + 1 { prev + 1 } else { d }
    }
}

/// The last node before `i` whose depth is `dep`.
pub open spec fn last_at_depth(src: Seq<char>, lang: Lang, rg: Seq<(usize, usize, usize, usize, usize, usize)>, i: int, dep: nat) -> Option<int>
    decreases i,
{
    if i <= 0 {
        None
    } else if parse_depth(src, lang, rg, (i - 1) as nat) == dep {
        Some(i - 1)
    } else {
        last_at_depth(src, lang, rg, i - 1, dep)
    }
}

/// The character that holds byte `b` of `src` (the number of characters past
/// its end).
pub open spec fn char_index(src: Seq<char>, b: usize) -> usize {
    let m = char_of_bytes(src);
    if (b as int) < m.len() { m[b as int] } else { src.len() as usize }
}

/// A model node holds what tree-sitter reports of a node.
pub open spec fn node_matches(n: SyntaxNode, raw: (Seq<char>, Option<Seq<char>>, bool, usize, usize, usize, usize, usize, usize),
    src: Seq<char>) -> bool {
    &&& n.kind@ == raw.0
    &&& opt_view(n.field) == raw.1
    &&& n.named == raw.2
    &&& n.start == char_index(src, raw.3)
    &&& n.stop == char_index(src, raw.4)
    &&& n.start_row == raw.5
    &&& n.end_row == raw.6
    &&& n.end_col == raw.7
}

/// `t` is the tree tree-sitter builds for `src` with the grammar of `lang`,
/// parsing the included ranges `rg`: its nodes in pre-order with what
/// tree-sitter reports of each, each node's parent the last node before it
/// one level up. (With the shape invariant, this fixes the subtree ends too.)
pub open spec fn is_parse_in(t: SyntaxTree, src: Seq<char>, lang: Lang, rg: Seq<(usize, usize, usize, usize, usize, usize)>) -> bool {
    &&& t.wf()
    &&& t.len() == parsed_node_count_of(src, lang, rg)
    &&& forall|i: int| 0 <= i < t.len() ==> node_matches(#[trigger] t.nodes@[i], parsed_node_of(src, lang, rg, i as usize), src)
    &&& forall|i: int| 0 < i < t.len() ==> #[trigger] t.parent_of(i)
        == last_at_depth(src, lang, rg, i, (parse_depth(src, lang, rg, i as nat) - 1) as nat)
}

/// The included ranges of a fresh parser: the whole document (tree-sitter's
/// `DEFAULT_RANGE`: bytes 0 to `u32::MAX`, points (0, 0) to (`u32::MAX`, `u32::MAX`)).
pub open spec fn whole_document() -> Seq<(usize, usize, usize, usize, usize, usize)> {
    seq![(0usize, 0xffff_ffffusize, 0usize, 0usize, 0xffff_ffffusize, 0xffff_ffffusize)]
}

/// `t` is the tree tree-sitter builds for the whole of `src` with the grammar
/// of `lang`.
pub open spec fn is_parse_of(t: SyntaxTree, src: Seq<char>, lang: Lang) -> bool {
    is_parse_in(t, src, lang, whole_document())
}

/// The model node of a reported node.
fn model_node(raw: RawNode, parent: Option<usize>, m: &Vec<usize>, nchars: usize) -> (n: SyntaxNode)
    requires
        forall|j: int| 0 <= j < m@.len() ==> #[trigger] m@[j] <= nchars,
    ensures
        n.parent == parent,
        n.start == (if (raw.start_byte as int) < m@.len() { m@[raw.start_byte as int] } else { nchars }),
        n.stop == (if (raw.end_byte as int) < m@.len() { m@[raw.end_byte as int] } else { nchars }),
        n.start <= nchars,
        n.stop <= nchars,
        n.kind@ == raw.kind@,
        opt_view(n.field) == opt_view(raw.field),
        n.named == raw.named,
        n.start_row == raw.start_row,
        n.end_row == raw.end_row,
        n.end_col == raw.end_col,
{
    let start = char_at_byte(m, raw.start_byte, nchars);
    let stop = char_at_byte(m, raw.end_byte, nchars);
    SyntaxNode {
        kind: raw.kind,
        field: raw.field,
        named: raw.named,
        start,
        stop,
        start_row: raw.start_row,
        end_row: raw.end_row,
        end_col: raw.end_col,
        parent,
    }
}

/// Closes the open nodes above the first `e`: each one's subtree ends here.
fn close_down_to(nodes: &Vec<SyntaxNode>, ends: &mut Vec<usize>, stack: &mut Vec<usize>, e: usize)
    requires
        walk_inv(nodes@, old(ends)@, old(stack)@),
        e <= old(stack)@.len(),
    ensures
        walk_inv(nodes@, final(ends)@, final(stack)@),
        final(stack)@ == old(stack)@.take(e as int),
{
    let ghost old_stack = stack@;
    while stack.len() > e
        invariant
            walk_inv(nodes@, ends@, stack@),
            e <= stack@.len() <= old_stack.len(),
            stack@ == old_stack.take(stack@.len() as int),
        decreases stack@.len(),
    {
        let len = nodes.len();
        let top = stack[stack.len() - 1];
        proof { lemma_walk_close(nodes@, ends@, stack@); }
        ends.set(top, len);
        let ghost s0 = stack@;
        stack.pop();
        assert(stack@ == old_stack.take(stack@.len() as int));
    }
}

/// What `char_at_byte` gives by the map of `src` is the character that holds the byte.
proof fn lemma_char_index(src: Seq<char>, m: Seq<usize>, b: usize)
    requires
        m == char_of_bytes(src).push(src.len() as usize),
    ensures
        char_index(src, b) == (if (b as int) < m.len() { m[b as int] } else { src.len() as usize }),
{
}

/// Builds the model of a parse: node after node in pre-order, each hung under
/// the last open node one level up.
#[verifier::rlimit(60)]
fn build_parsed(p: &ParsedSource) -> (t: SyntaxTree)
    ensures
        is_parse_in(t, p.source@, p.lang, p.ranges@),
        offsets_within(t.nodes@, p.source@.len()),
{
    let ghost src = p.source@;
    let ghost lang = p.lang;
    let ghost rg = p.ranges@;
    let chars = crate::text::chars_of(p.source.as_str());
    let m = byte_to_char_map(&chars);
    let nchars = chars.len();
    proof {
        lemma_char_of_bytes_bound(src);
        let cb = char_of_bytes(src);
        assert forall|j: int| 0 <= j < m@.len() implies #[trigger] m@[j] <= nchars by {
            if j < cb.len() {
                assert(m@[j] == cb[j]);
            }
        }
    }
    let count = parsed_node_count(p);
    let mut nodes: Vec<SyntaxNode> = Vec::new();
    let mut ends: Vec<usize> = Vec::new();
    let mut stack: Vec<usize> = Vec::new();
    let root = parsed_node(p, 0);
    proof {
        lemma_char_index(src, m@, root.start_byte);
        lemma_char_index(src, m@, root.end_byte);
    }
    nodes.push(model_node(root, None, &m, nchars));
    ends.push(0);
    stack.push(0);
    proof {
        let st = stack@;
        assert(st.contains(0usize)) by { assert(st[0] == 0usize); }
        assert forall|x: usize| #[trigger] st.contains(x) implies x == 0usize by {
            let k = choose|k: int| 0 <= k < st.len() && st[k] == x;
        }
        assert(last_at_depth(src, lang, rg, 1, 0) == Some(0int));
    }
    let mut i: usize = 1;
    while i < count
        invariant
            walk_inv(nodes@, ends@, stack@),
            1 <= i <= count,
            count == parsed_node_count_of(src, lang, rg),
            nodes@.len() == i,
            stack@.len() == parse_depth(src, lang, rg, (i - 1) as nat) + 1,
            forall|k: int| 0 <= k < stack@.len() ==> last_at_depth(src, lang, rg, i as int, k as nat) == Some(#[trigger] stack@[k] as int),
            forall|j: int| 0 <= j < i ==> node_matches(#[trigger] nodes@[j], parsed_node_of(src, lang, rg, j as usize), src),
            forall|j: int| 0 < j < i ==> (match (#[trigger] nodes@[j]).parent { Some(q) => Some(q as int), None => None::<int> })
                == last_at_depth(src, lang, rg, j, (parse_depth(src, lang, rg, j as nat) - 1) as nat),
            offsets_within(nodes@, nchars as nat),
            src == p.source@,
            lang == p.lang,
            rg == p.ranges@,
            m@ == char_of_bytes(src).push(src.len() as usize),
            nchars == src.len(),
            forall|j: int| 0 <= j < m@.len() ==> #[trigger] m@[j] <= nchars,
        decreases count - i,
    {
        let raw = parsed_node(p, i);
        let ghost raw_start = raw.start_byte;
        let ghost raw_end = raw.end_byte;
        let ghost old_nodes = nodes@;
        let sl = stack.len();
        let e: usize = if raw.depth < 1 { 1 } else if raw.depth > sl { sl } else { raw.depth };
        assert(e == parse_depth(src, lang, rg, i as nat));
        let ghost old_stack = stack@;
        close_down_to(&nodes, &mut ends, &mut stack, e);
        let top = stack[e - 1];
        assert(top == old_stack[e - 1]);
        let n = model_node(raw, Some(top), &m, nchars);
        proof { lemma_walk_push(nodes@, ends@, stack@, n); }
        let ghost pre_stack = stack@;
        nodes.push(n);
        ends.push(0);
        stack.push(i);
        proof {
            assert forall|k: int| 0 <= k < stack@.len() implies last_at_depth(src, lang, rg, (i + 1) as int, k as nat)
                == Some(#[trigger] stack@[k] as int) by {
                if k < e {
                    assert(stack@[k] == old_stack[k]);
                } else {
                    assert(stack@[k] == i);
                }
            }
            lemma_char_index(src, m@, raw_start);
            lemma_char_index(src, m@, raw_end);
            assert(node_matches(nodes@[i as int], parsed_node_of(src, lang, rg, i), src));
            assert forall|j: int| 0 <= j < i + 1 implies node_matches(#[trigger] nodes@[j], parsed_node_of(src, lang, rg, j as usize), src) by {
                if j < i {
                    assert(nodes@[j] == old_nodes[j]);
                }
            }
        }
        i = i + 1;
    }
    close_down_to(&nodes, &mut ends, &mut stack, 0);
    proof {
        assert(stack@ =~= Seq::<usize>::empty());
        lemma_walk_done(nodes@, ends@);
    }
    let t = SyntaxTree { nodes, subtree_end: ends };
    assert forall|i: int| 0 < i < t.len() implies #[trigger] t.parent_of(i)
        == last_at_depth(src, lang, rg, i, (parse_depth(src, lang, rg, i as nat) - 1) as nat) by {
        assert(t.nodes@[i] == nodes@[i]);
    }
    t
}

/// Why parsing failed.
#[derive(Clone, Copy, PartialEq, Eq, Debug, Structural)]
pub enum ParseError {
    /// "Failed to set tree-sitter language".
    Language,
    /// "Failed to parse source code".
    Parse,
}

/// Parse source code with tree-sitter, with a fresh parser: the tree of the
/// source (see [`is_parse_of`]), or the language error when the grammar is
/// not accepted.
pub fn parse(source: &str, lang: Lang) -> (r: Result<SyntaxTree, ParseError>)
    ensures
        r is Ok <==> grammar_accepted_of(lang),
        r matches Ok(t) ==> is_parse_of(t, source@, lang) && offsets_within(t.nodes@, source@.len()),
        r matches Err(e) ==> e == ParseError::Language,
{
    match parse_fresh(source, lang) {
        None => Err(ParseError::Language),
        Some(p) => Ok(build_parsed(&p)),
    }
}

/// Parse source code reusing an existing parser: the tree of the source
/// under the parser's included ranges (see [`is_parse_in`]), the language error
/// exactly when the grammar is not accepted, or the parse error when the
/// parser's own timeout or cancellation flag stops the parse.
pub fn parse_with(parser: &mut Parser, source: &str, lang: Lang) -> (r: Result<SyntaxTree, ParseError>)
    ensures
        r is Err && r->Err_0 == ParseError::Language <==> !grammar_accepted_of(lang),
        r matches Ok(t) ==> offsets_within(t.nodes@, source@.len())
            && exists|rg: Seq<(usize, usize, usize, usize, usize, usize)>| #[trigger] is_parse_in(t, source@, lang, rg),
{
    match parse_in(parser, source, lang) {
        Err(e) => Err(e),
        Ok(p) => {
            let t = build_parsed(&p);
            assert(is_parse_in(t, source@, lang, p.ranges@));
            Ok(t)
        },
    }
}

// ---------------------------------------------------------------------------
// Queries on the model
// ---------------------------------------------------------------------------

/// The first index in `lo..hi` that satisfies `pred`.
pub open spec fn first_where(lo: int, hi: int, pred: spec_fn(int) -> bool) -> Option<int>
    decreases hi - lo,
{
    if lo >= hi {
        None
    } else if pred(lo) {
        Some(lo)
    } else {
        first_where(lo + 1, hi, pred)
    }
}

pub proof fn lemma_first_where_found(lo: int, hi: int, pred: spec_fn(int) -> bool, k: int)
    requires
        lo <= k < hi,
        pred(k),
        forall|j: int| lo <= j < k ==> !#[trigger] pred(j),
    ensures
        first_where(lo, hi, pred) == Some(k),
    decreases k - lo,
{
    if lo < k {
        lemma_first_where_found(lo + 1, hi, pred, k);
    }
}

pub proof fn lemma_first_where_none(lo: int, hi: int, pred: spec_fn(int) -> bool)
    requires
        forall|j: int| lo <= j < hi ==> !#[trigger] pred(j),
    ensures
        first_where(lo, hi, pred) is None,
    decreases hi - lo,
{
    if lo < hi {
        lemma_first_where_none(lo + 1, hi, pred);
    }
}

pub proof fn lemma_first_where_bounds(lo: int, hi: int, pred: spec_fn(int) -> bool)
    ensures
        first_where(lo, hi, pred) matches Some(k) ==> lo <= k < hi && pred(k)
            && forall|j: int| lo <= j < k ==> !#[trigger] pred(j),
    decreases hi - lo,
{
    if lo < hi && !pred(lo) {
        lemma_first_where_bounds(lo + 1, hi, pred);
    }
}

/// The node is held by its parent under field `f`.
pub open spec fn field_is(n: SyntaxNode, f: Seq<char>) -> bool {
    match n.field {
        Some(g) => g@ == f,
        None => false,
    }
}

/// The source text of a node (`Node::utf8_text`), when its range lies in the source.
pub open spec fn text_of(src: Seq<char>, n: SyntaxNode) -> Option<Seq<char>> {
    if n.start <= n.stop <= src.len() {
        Some(src.subrange(n.start as int, n.stop as int))
    } else {
        None
    }
}

impl SyntaxTree {
    /// Node `j` is a child of node `p`.
    pub open spec fn is_child(&self, p: int, j: int) -> bool {
        self.nodes@[j].parent == Some(p as usize)
    }

    /// `child_by_field_name`: the first child of `p` held under field `f`.
    pub open spec fn child_by_field(&self, p: int, f: Seq<char>) -> Option<int> {
        first_where(p + 1, self.end_of(p),
            |j: int| self.is_child(p, j) && field_is(self.nodes@[j], f))
    }

    /// The first descendant of `p`, in pre-order, of kind `k`.
    pub open spec fn descendant_of_kind(&self, p: int, k: Seq<char>) -> Option<int> {
        first_where(p + 1, self.end_of(p), |j: int| self.nodes@[j].kind@ == k)
    }

    /// The first child of `p` (`child(0)`).
    pub open spec fn first_child(&self, p: int) -> Option<int> {
        first_where(p + 1, self.end_of(p), |j: int| self.is_child(p, j))
    }

    /// The first named child of `p` (`named_child(0)`).
    pub open spec fn first_named_child(&self, p: int) -> Option<int> {
        first_where(p + 1, self.end_of(p), |j: int| self.is_child(p, j) && self.nodes@[j].named)
    }

    /// Whether a child of `p` has kind `k`.
    pub open spec fn has_child_of_kind(&self, p: int, k: Seq<char>) -> bool {
        first_where(p + 1, self.end_of(p), |j: int| self.is_child(p, j) && self.nodes@[j].kind@ == k) is Some
    }

    /// `end_position().row`, adjusted to the last row the node occupies when it
    /// ends at column 0 of a later row.
    pub open spec fn last_row(&self, i: int) -> int {
        let n = self.nodes@[i];
        if n.end_col == 0 && n.end_row > n.start_row { n.end_row - 1 } else { n.end_row as int }
    }
}

/// `child_by_field_name`.
pub fn child_by_field(t: &SyntaxTree, p: usize, f: &str) -> (r: Option<usize>)
    requires
        t.wf(),
        p < t.len(),
    ensures
        r matches Some(j) ==> t.child_by_field(p as int, f@) == Some(j as int) && p < j < t.len(),
        r is None ==> t.child_by_field(p as int, f@) is None,
{
    let end = t.subtree_end[p];
    let ghost pred = |j: int| t.is_child(p as int, j) && field_is(t.nodes@[j], f@);
    let mut j = p + 1;
    while j < end
        invariant
            t.wf(),
            p < t.len(),
            end == t.end_of(p as int),
            p + 1 <= j <= end,
            pred == (|j: int| t.is_child(p as int, j) && field_is(t.nodes@[j], f@)),
            forall|i: int| p + 1 <= i < j ==> !#[trigger] pred(i),
        decreases end - j,
    {
        let nd = &t.nodes[j];
        let hit = match &nd.parent {
            Some(q) => *q == p && match &nd.field {
                Some(g) => g.as_str().eq(f),
                None => false,
            },
            None => false,
        };
        if hit {
            proof { lemma_first_where_found(p + 1, end as int, pred, j as int); }
            return Some(j);
        }
        j = j + 1;
    }
    proof { lemma_first_where_none(p + 1, end as int, pred); }
    None
}

/// The first descendant of `p` of kind `k` (`find_child_by_kind`).
pub fn descendant_of_kind(t: &SyntaxTree, p: usize, k: &str) -> (r: Option<usize>)
    requires
        t.wf(),
        p < t.len(),
    ensures
        r matches Some(j) ==> t.descendant_of_kind(p as int, k@) == Some(j as int) && p < j < t.len(),
        r is None ==> t.descendant_of_kind(p as int, k@) is None,
{
    let end = t.subtree_end[p];
    let ghost pred = |j: int| t.nodes@[j].kind@ == k@;
    let mut j = p + 1;
    while j < end
        invariant
            t.wf(),
            p < t.len(),
            end == t.end_of(p as int),
            p + 1 <= j <= end,
            pred == (|j: int| t.nodes@[j].kind@ == k@),
            forall|i: int| p + 1 <= i < j ==> !#[trigger] pred(i),
        decreases end - j,
    {
        if t.nodes[j].kind.as_str().eq(k) {
            proof { lemma_first_where_found(p + 1, end as int, pred, j as int); }
            return Some(j);
        }
        j = j + 1;
    }
    proof { lemma_first_where_none(p + 1, end as int, pred); }
    None
}

/// The first child of `p`, or its first named child when `named_only`.
pub fn first_child(t: &SyntaxTree, p: usize, named_only: bool) -> (r: Option<usize>)
    requires
        t.wf(),
        p < t.len(),
    ensures
        !named_only ==> (r matches Some(j) ==> t.first_child(p as int) == Some(j as int) && p < j < t.len()),
        !named_only ==> (r is None ==> t.first_child(p as int) is None),
        named_only ==> (r matches Some(j) ==> t.first_named_child(p as int) == Some(j as int) && p < j < t.len()),
        named_only ==> (r is None ==> t.first_named_child(p as int) is None),
{
    let end = t.subtree_end[p];
    let ghost pred = if named_only {
        |j: int| t.is_child(p as int, j) && t.nodes@[j].named
    } else {
        |j: int| t.is_child(p as int, j)
    };
    let mut j = p + 1;
    while j < end
        invariant
            t.wf(),
            p < t.len(),
            end == t.end_of(p as int),
            p + 1 <= j <= end,
            pred == (if named_only {
                |j: int| t.is_child(p as int, j) && t.nodes@[j].named
            } else {
                |j: int| t.is_child(p as int, j)
            }),
            forall|i: int| p + 1 <= i < j ==> !#[trigger] pred(i),
        decreases end - j,
    {
        let nd = &t.nodes[j];
        let hit = match &nd.parent {
            Some(q) => *q == p && (!named_only || nd.named),
            None => false,
        };
        if hit {
            proof { lemma_first_where_found(p + 1, end as int, pred, j as int); }
            return Some(j);
        }
        j = j + 1;
    }
    proof { lemma_first_where_none(p + 1, end as int, pred); }
    None
}

/// Whether a child of `p` has kind `k` (`has_child_kind`).
pub fn has_child_kind(t: &SyntaxTree, p: usize, k: &str) -> (b: bool)
    requires
        t.wf(),
        p < t.len(),
    ensures
        b == t.has_child_of_kind(p as int, k@),
{
    let end = t.subtree_end[p];
    let ghost pred = |j: int| t.is_child(p as int, j) && t.nodes@[j].kind@ == k@;
    let mut j = p + 1;
    while j < end
        invariant
            t.wf(),
            p < t.len(),
            end == t.end_of(p as int),
            p + 1 <= j <= end,
            pred == (|j: int| t.is_child(p as int, j) && t.nodes@[j].kind@ == k@),
            forall|i: int| p + 1 <= i < j ==> !#[trigger] pred(i),
        decreases end - j,
    {
        let nd = &t.nodes[j];
        let hit = match &nd.parent {
            Some(q) => *q == p && nd.kind.as_str().eq(k),
            None => false,
        };
        if hit {
            proof { lemma_first_where_found(p + 1, end as int, pred, j as int); }
            return true;
        }
        j = j + 1;
    }
    proof { lemma_first_where_none(p + 1, end as int, pred); }
    false
}

/// The source text of a node, when its range lies in the source.
pub fn node_text(src: &Vec<char>, n: &SyntaxNode) -> (r: Option<Vec<char>>)
    ensures
        r matches Some(v) ==> text_of(src@, *n) == Some(v@),
        r is None ==> text_of(src@, *n) is None,
{
    if n.start <= n.stop && n.stop <= src.len() {
        Some(crate::text::slice(src, n.start, n.stop))
    } else {
        None
    }
}

/// The last row a node occupies (`node_last_row`).
pub fn node_last_row(t: &SyntaxTree, i: usize) -> (r: usize)
    requires
        i < t.len(),
    ensures
        r == t.last_row(i as int),
{
    let n = &t.nodes[i];
    if n.end_col == 0 && n.end_row > n.start_row { n.end_row - 1 } else { n.end_row }
}

} // verus!

verus! {

// ---------------------------------------------------------------------------
// Enclosing function
// ---------------------------------------------------------------------------

impl SyntaxTree {
    /// Node `i` spans row `line`.
    pub open spec fn spans_row(&self, i: int, line: int) -> bool {
        self.nodes@[i].start_row <= line <= self.nodes@[i].end_row
    }

    /// The search for the enclosing function reaches node `i`: it and all its
    /// ancestors span `line`.
    pub open spec fn reaches(&self, i: int, line: int) -> bool
        decreases i,
    {
        self.spans_row(i, line) && match self.nodes@[i].parent {
            None => true,
            Some(p) => if 0 <= p < i { self.reaches(p as int, line) } else { false },
        }
    }

    /// The number of rows a node spans, less one.
    pub open spec fn row_span(&self, i: int) -> int {
        self.nodes@[i].end_row - self.nodes@[i].start_row
    }

    /// Among the nodes before `k`, the first of the smallest row span that
    /// the search reaches and whose kind is in `kinds`.
    pub open spec fn smallest_enclosing(&self, k: int, line: int, kinds: Seq<Seq<char>>) -> Option<int>
        decreases k,
    {
        if k <= 0 {
            None
        } else {
            let b = self.smallest_enclosing(k - 1, line, kinds);
            let i = k - 1;
            if self.reaches(i, line) && kinds.contains(self.nodes@[i].kind@)
                && (b matches Some(c) ==> self.row_span(i) < self.row_span(c)) {
                Some(i)
            } else {
                b
            }
        }
    }
}

/// A line that continues a comment above a function: after trimming it starts
/// with `//`, `/*`, `*`, `*/`, `#` or `///`.
pub open spec fn is_comment_line(l: Seq<char>) -> bool {
    let t = crate::text::trim(l);
    ||| starts_with(t, "//"@)
    ||| starts_with(t, "/*"@)
    ||| starts_with(t, "*"@)
    ||| starts_with(t, "*/"@)
    ||| starts_with(t, "#"@)
    ||| starts_with(t, "///"@)
}

/// Row `s` moved up over the comment lines directly above it.
pub open spec fn comment_start(ls: Seq<Seq<char>>, s: int) -> int
    decreases s,
{
    if s > 0 && s - 1 < ls.len() && is_comment_line(ls[s - 1]) {
        comment_start(ls, s - 1)
    } else {
        s
    }
}

/// The kinds of wrappers whose first row a function's range starts at.
pub open spec fn is_wrapper_kind(k: Seq<char>) -> bool {
    k == "export_statement"@ || k == "decorated_definition"@ || k == "lexical_declaration"@
}

/// The 0-based rows `(start, end)` of the function enclosing row `line`: the
/// smallest function-like node spanning it (the first such in pre-order on
/// ties), started at its export/decorator/declaration wrapper and at the
/// comment lines above it.
pub open spec fn enclosing_function(t: SyntaxTree, src: Seq<char>, line: int, lang: Lang) -> Option<(int, int)> {
    match t.smallest_enclosing(t.len() as int, line, lang.function_kinds()) {
        None => None,
        Some(b) => {
            let n = t.nodes@[b];
            let start = match n.parent {
                Some(p) => if is_wrapper_kind(t.nodes@[p as int].kind@) {
                    t.nodes@[p as int].start_row as int
                } else {
                    n.start_row as int
                },
                None => n.start_row as int,
            };
            Some((comment_start(crate::text::lines_of(src), start), n.end_row as int))
        },
    }
}

fn is_comment_line_exec(l: &Vec<char>) -> (b: bool)
    ensures
        b == is_comment_line(l@),
{
    let t = crate::text::trimmed(l, crate::text::CharClass::Whitespace);
    crate::text::starts_with_exec(&t, &crate::text::chars_of("//"))
        || crate::text::starts_with_exec(&t, &crate::text::chars_of("/*"))
        || crate::text::starts_with_exec(&t, &crate::text::chars_of("*"))
        || crate::text::starts_with_exec(&t, &crate::text::chars_of("*/"))
        || crate::text::starts_with_exec(&t, &crate::text::chars_of("#"))
        || crate::text::starts_with_exec(&t, &crate::text::chars_of("///"))
}

/// Find the enclosing function/method at a given line (0-indexed).
/// Returns (start_line, end_line) inclusive, both 0-indexed.
pub fn find_enclosing_function(tree: &SyntaxTree, source: &str, target_line: usize, lang: Lang)
    -> (r: Option<(usize, usize)>)
    requires
        tree.wf(),
    ensures
        r matches Some(p) ==> enclosing_function(*tree, source@, target_line as int, lang)
            == Some((p.0 as int, p.1 as int)),
        r is None ==> enclosing_function(*tree, source@, target_line as int, lang) is None,
{
    let kinds = lang.function_node_kinds();
    let ghost ks = kinds@.map_values(|k: &str| k@);
    let n = tree.nodes.len();
    let mut reach: Vec<bool> = Vec::new();
    let mut best: Option<usize> = None;
    for i in 0..n
        invariant
            tree.wf(),
            n == tree.len(),
            ks == kinds@.map_values(|k: &str| k@),
            ks == lang.function_kinds(),
            reach@.len() == i,
            forall|j: int| 0 <= j < i ==> reach@[j] == tree.reaches(j, target_line as int),
            best matches Some(b) ==> b < i && tree.smallest_enclosing(i as int, target_line as int, ks) == Some(b as int)
                && tree.spans_row(b as int, target_line as int),
            best is None ==> tree.smallest_enclosing(i as int, target_line as int, ks) is None,
    {
        let nd = &tree.nodes[i];
        let spans = nd.start_row <= target_line && target_line <= nd.end_row;
        let r = spans && match nd.parent {
            None => true,
            Some(p) => reach[p],
        };
        reach.push(r);
        if r && kind_in(&kinds, nd.kind.as_str()) {
            let smaller = match best {
                None => true,
                Some(b) => {
                    let bn = &tree.nodes[b];
                    nd.end_row - nd.start_row < bn.end_row - bn.start_row
                },
            };
            if smaller {
                best = Some(i);
            }
        }
    }
    match best {
        None => None,
        Some(b) => {
            let bn = &tree.nodes[b];
            let mut start = bn.start_row;
            let end = bn.end_row;
            if let Some(p) = bn.parent {
                let pk = tree.nodes[p].kind.as_str();
                if pk.eq("export_statement") || pk.eq("decorated_definition") || pk.eq("lexical_declaration") {
                    start = tree.nodes[p].start_row;
                }
            }
            let src = crate::text::chars_of(source);
            let ls = crate::text::lines(&src);
            let ghost lsv = ls@.map_values(|l: Vec<char>| l@);
            assert(lsv == crate::text::lines_of(source@));
            let ghost s0 = start;
            while start > 0 && start - 1 < ls.len() && is_comment_line_exec(&ls[start - 1])
                invariant
                    lsv == ls@.map_values(|l: Vec<char>| l@),
                    comment_start(lsv, start as int) == comment_start(lsv, s0 as int),
                decreases start,
            {
                start = start - 1;
            }
            Some((start, end))
        },
    }
}

} // verus!

verus! {

// ---------------------------------------------------------------------------
// Imports
// ---------------------------------------------------------------------------

/// An import found in a file: the imported path, the kind of statement, and
/// its 0-based line.
pub struct ImportInfo {
    pub path: String,
    pub kind: String,
    pub line: usize,
}

/// The kinds that hold a string literal of a module path.
pub open spec fn is_string_kind(k: Seq<char>) -> bool {
    k == "string_fragment"@ || k == "string_content"@ || k == "string"@
}

impl SyntaxTree {
    /// Some ancestor of `j` that is a descendant of `i` or `i` itself has a
    /// string kind (the search for a string stops there).
    pub open spec fn string_ancestor_from(&self, j: int, i: int) -> bool
        decreases j,
    {
        match self.nodes@[j].parent {
            Some(p) => if i <= p < j {
                is_string_kind(self.nodes@[p as int].kind@) || self.string_ancestor_from(p as int, i)
            } else {
                false
            },
            None => false,
        }
    }

    /// The string found in the subtree of `i` (`find_string_in_node`): the
    /// first string node in pre-order not inside another one, whose text can
    /// be read; fragments as they are, whole strings without their quotes.
    pub open spec fn string_in(&self, src: Seq<char>, i: int) -> Option<Seq<char>> {
        match first_where(i, self.end_of(i), |j: int| is_string_kind(self.nodes@[j].kind@)
            && !self.string_ancestor_from(j, i) && text_of(src, self.nodes@[j]) is Some) {
            None => None,
            Some(j) => {
                let txt = text_of(src, self.nodes@[j]).unwrap();
                if self.nodes@[j].kind@ == "string"@ {
                    Some(crate::text::trim_class(txt, crate::text::CharClass::Quote))
                } else {
                    Some(txt)
                }
            },
        }
    }

    /// The import that node `i` (of an import kind) holds: `(path, kind, line)`.
    pub open spec fn import_of(&self, src: Seq<char>, i: int, lang: Lang) -> Option<(Seq<char>, Seq<char>, int)> {
        let n = self.nodes@[i];
        let line = n.start_row as int;
        match text_of(src, n) {
            None => None,
            Some(text) => {
                if lang.is_js_family() {
                    let source_child = self.child_by_field(i, "source"@);
                    if source_child is None && n.kind@ == "export_statement"@ {
                        None
                    } else {
                        let kind = if starts_with(text, "export"@) { "re-export"@ } else { "import"@ };
                        let path = match source_child {
                            Some(c) => match text_of(src, self.nodes@[c]) {
                                Some(st) => Some(crate::text::trim_class(st, crate::text::CharClass::Quote)),
                                None => None,
                            },
                            None => self.string_in(src, i),
                        };
                        match path {
                            Some(p) => Some((p, kind, line)),
                            None => None,
                        }
                    }
                } else if lang == Lang::Rust {
                    let t = trim(crate::text::trim_end_class(text, crate::text::CharClass::Semicolon));
                    if starts_with(t, "use "@) {
                        Some((t.skip(4), n.kind@, line))
                    } else if starts_with(t, "mod "@) {
                        Some((t.skip(4), n.kind@, line))
                    } else if starts_with(t, "extern crate "@) {
                        Some((t.skip(13), n.kind@, line))
                    } else {
                        None
                    }
                } else {
                    match self.descendant_of_kind(i, "dotted_name"@) {
                        Some(d) => match text_of(src, self.nodes@[d]) {
                            Some(p) => Some((p, n.kind@, line)),
                            None => None,
                        },
                        None => None,
                    }
                }
            },
        }
    }

    /// The imports of the nodes before `k`, in pre-order.
    pub open spec fn imports_upto(&self, src: Seq<char>, lang: Lang, k: int) -> Seq<(Seq<char>, Seq<char>, int)>
        decreases k,
    {
        if k <= 0 {
            seq![]
        } else {
            let prev = self.imports_upto(src, lang, k - 1);
            if lang.import_kinds().contains(self.nodes@[k - 1].kind@) {
                match self.import_of(src, k - 1, lang) {
                    Some(x) => prev.push(x),
                    None => prev,
                }
            } else {
                prev
            }
        }
    }
}

fn is_string_kind_exec(k: &str) -> (b: bool)
    ensures
        b == is_string_kind(k@),
{
    k.eq("string_fragment") || k.eq("string_content") || k.eq("string")
}

/// `find_string_in_node`.
fn string_in(t: &SyntaxTree, src: &Vec<char>, i: usize) -> (r: Option<Vec<char>>)
    requires
        t.wf(),
        i < t.len(),
    ensures
        r matches Some(v) ==> t.string_in(src@, i as int) == Some(v@),
        r is None ==> t.string_in(src@, i as int) is None,
{
    let end = t.subtree_end[i];
    let ghost pred = |j: int| is_string_kind(t.nodes@[j].kind@)
        && !t.string_ancestor_from(j, i as int) && text_of(src@, t.nodes@[j]) is Some;
    // below[j - i]: whether node j lies under a string node within the subtree of i
    let mut below: Vec<bool> = Vec::new();
    let mut j = i;
    while j < end
        invariant
            t.wf(),
            i < t.len(),
            end == t.end_of(i as int),
            i <= j <= end,
            below@.len() == j - i,
            forall|x: int| i <= x < j ==> below@[x - i] == t.string_ancestor_from(x, i as int),
            pred == (|j: int| is_string_kind(t.nodes@[j].kind@)
                && !t.string_ancestor_from(j, i as int) && text_of(src@, t.nodes@[j]) is Some),
            forall|x: int| i <= x < j ==> !#[trigger] pred(x),
        decreases end - j,
    {
        let nd = &t.nodes[j];
        let under = match nd.parent {
            Some(p) => if i <= p && p < j {
                let bp = below[p - i];
                assert(bp == t.string_ancestor_from(p as int, i as int)) by {
                    assert(below@[(p as int) - (i as int)] == t.string_ancestor_from(p as int, i as int));
                }
                is_string_kind_exec(t.nodes[p].kind.as_str()) || bp
            } else {
                false
            },
            None => false,
        };
        assert(under == t.string_ancestor_from(j as int, i as int));
        if !under && is_string_kind_exec(nd.kind.as_str()) {
            let txt = node_text(src, nd);
            if let Some(v) = txt {
                proof { crate::ts::lemma_first_where_found(i as int, end as int, pred, j as int); }
                if nd.kind.as_str().eq("string") {
                    return Some(crate::text::trimmed(&v, crate::text::CharClass::Quote));
                } else {
                    return Some(v);
                }
            }
        }
        below.push(under);
        j = j + 1;
    }
    proof { lemma_first_where_none(i as int, end as int, pred); }
    None
}

/// The import held by node `i`.
fn import_of(t: &SyntaxTree, src: &Vec<char>, i: usize, lang: Lang) -> (r: Option<ImportInfo>)
    requires
        t.wf(),
        i < t.len(),
    ensures
        r matches Some(x) ==> t.import_of(src@, i as int, lang) == Some((x.path@, x.kind@, x.line as int)),
        r is None ==> t.import_of(src@, i as int, lang) is None,
{
    let n = &t.nodes[i];
    let line = n.start_row;
    let text = match node_text(src, n) {
        None => { return None; },
        Some(v) => v,
    };
    match lang {
        Lang::TypeScript | Lang::Tsx | Lang::JavaScript => {
            let source_child = child_by_field(t, i, "source");
            if source_child.is_none() && n.kind.as_str().eq("export_statement") {
                return None;
            }
            let kind = if crate::text::starts_with_exec(&text, &crate::text::chars_of("export")) {
                "re-export"
            } else {
                "import"
            };
            let path = match source_child {
                Some(c) => match node_text(src, &t.nodes[c]) {
                    Some(st) => Some(crate::text::trimmed(&st, crate::text::CharClass::Quote)),
                    None => None,
                },
                None => string_in(t, src, i),
            };
            match path {
                Some(p) => Some(ImportInfo {
                    path: crate::text::string_of(&p),
                    kind: kind.to_owned(),
                    line,
                }),
                None => None,
            }
        },
        Lang::Rust => {
            assert(text@.subrange(0, text@.len() as int) == text@);
            let te = crate::text::slice(&text, 0, text.len() - crate::text::trail_count(&text, 0, text.len(), crate::text::CharClass::Semicolon));
            let tt = crate::text::trimmed(&te, crate::text::CharClass::Whitespace);
            proof {
                reveal_strlit("use ");
                reveal_strlit("mod ");
                reveal_strlit("extern crate ");
            }
            let skip = if crate::text::starts_with_exec(&tt, &crate::text::chars_of("use ")) {
                4
            } else if crate::text::starts_with_exec(&tt, &crate::text::chars_of("mod ")) {
                4
            } else if crate::text::starts_with_exec(&tt, &crate::text::chars_of("extern crate ")) {
                13
            } else {
                return None;
            };
            let p = crate::text::slice(&tt, skip, tt.len());
            assert(p@ == tt@.skip(skip as int));
            Some(ImportInfo { path: crate::text::string_of(&p), kind: n.kind.clone(), line })
        },
        Lang::Python => {
            match descendant_of_kind(t, i, "dotted_name") {
                Some(d) => match node_text(src, &t.nodes[d]) {
                    Some(p) => Some(ImportInfo { path: crate::text::string_of(&p), kind: n.kind.clone(), line }),
                    None => None,
                },
                None => None,
            }
        },
    }
}

/// Extract import information from a parsed file, in pre-order.
pub fn extract_imports(tree: &SyntaxTree, source: &str, lang: Lang) -> (r: Vec<ImportInfo>)
    requires
        tree.wf(),
    ensures
        r@.len() == tree.imports_upto(source@, lang, tree.len() as int).len(),
        forall|k: int| 0 <= k < r@.len() ==> {
            let x = tree.imports_upto(source@, lang, tree.len() as int)[k];
            &&& (#[trigger] r@[k]).path@ == x.0
            &&& r@[k].kind@ == x.1
            &&& r@[k].line == x.2
        },
{
    let src = crate::text::chars_of(source);
    let kinds = lang.import_node_kinds();
    let mut out: Vec<ImportInfo> = Vec::new();
    for i in 0..tree.nodes.len()
        invariant
            tree.wf(),
            src@ == source@,
            kinds@.map_values(|k: &str| k@) == lang.import_kinds(),
            out@.len() == tree.imports_upto(source@, lang, i as int).len(),
            forall|k: int| 0 <= k < out@.len() ==> {
                let x = tree.imports_upto(source@, lang, i as int)[k];
                &&& (#[trigger] out@[k]).path@ == x.0
                &&& out@[k].kind@ == x.1
                &&& out@[k].line == x.2
            },
    {
        if kind_in(&kinds, tree.nodes[i].kind.as_str()) {
            if let Some(x) = import_of(tree, &src, i, lang) {
                out.push(x);
            }
        }
    }
    out
}

} // verus!

verus! {

// ---------------------------------------------------------------------------
// Symbols
// ---------------------------------------------------------------------------

/// A symbol extracted from source code.
pub struct SymbolInfo {
    pub name: String,
    pub kind: String,
    pub line: usize,
    pub signature: String,
}

/// A symbol as plain values: `(name, kind, line, signature)`.
pub type SymSpec = (Seq<char>, Seq<char>, int, Seq<char>);

impl SymbolInfo {
    pub open spec fn spec(&self) -> SymSpec {
        (self.name@, self.kind@, self.line as int, self.signature@)
    }
}

/// The first line of the source from offset `start` on, trimmed
/// (`source[start..].lines().next().unwrap_or("").trim()`).
pub open spec fn first_line_at(src: Seq<char>, start: int) -> Seq<char> {
    if start > src.len() {
        seq![]
    } else {
        let ls = crate::text::lines_of(src.skip(start));
        if ls.len() > 0 { trim(ls[0]) } else { seq![] }
    }
}

/// The first line of a node's text, trimmed.
fn first_line(src: &Vec<char>, start: usize) -> (r: Vec<char>)
    ensures
        r@ == first_line_at(src@, start as int),
{
    if start > src.len() {
        return Vec::new();
    }
    let ghost rest = src@.skip(start as int);
    let mut k = start;
    while k < src.len() && src[k] != '\n'
        invariant
            start <= k <= src@.len(),
            forall|j: int| start <= j < k ==> src@[j] != '\n',
        decreases src.len() - k,
    {
        k = k + 1;
    }
    let mut line = crate::text::slice(src, start, k);
    if k < src.len() {
        proof {
            assert forall|j: int| 0 <= j < k - start implies rest[j] != '\n' by {
                assert(rest[j] == src@[start + j]);
            }
            crate::text::lemma_lines_of_split(rest, k - start);
            assert(rest.take(k - start) == line@);
        }
        if line.len() > 0 && line[line.len() - 1] == '\r' {
            line.pop();
        }
    } else if k > start {
        proof {
            assert forall|j: int| 0 <= j < rest.len() implies rest[j] != '\n' by {
                assert(rest[j] == src@[start + j]);
            }
            crate::text::lemma_lines_of_last(rest);
            assert(rest == line@);
        }
    } else {
        assert(rest.len() == 0);
        return Vec::new();
    }
    crate::text::trimmed(&line, crate::text::CharClass::Whitespace)
}

impl SyntaxTree {
    /// The text of the `name` child of `i`, `"?"` when unreadable; `None`
    /// when there is no such child.
    pub open spec fn name_of(&self, src: Seq<char>, i: int) -> Option<Seq<char>> {
        match self.child_by_field(i, "name"@) {
            Some(c) => Some(match text_of(src, self.nodes@[c]) { Some(x) => x, None => "?"@ }),
            None => None,
        }
    }

    /// The text of the child of `i` under field `f`, or `d` when there is none
    /// or it is unreadable.
    pub open spec fn field_text_or(&self, src: Seq<char>, i: int, f: Seq<char>, d: Seq<char>) -> Seq<char> {
        match self.child_by_field(i, f) {
            Some(c) => match text_of(src, self.nodes@[c]) { Some(x) => x, None => d },
            None => d,
        }
    }

    /// The symbol for node `i` of kind label `kind`, named by its `name` child.
    pub open spec fn named_sym(&self, src: Seq<char>, i: int, kind: Seq<char>, sig_from: int) -> Seq<SymSpec> {
        match self.name_of(src, i) {
            Some(name) => seq![(name, kind, self.nodes@[i].start_row as int,
                first_line_at(src, self.nodes@[sig_from].start as int))],
            None => seq![],
        }
    }
}

fn name_of(t: &SyntaxTree, src: &Vec<char>, i: usize) -> (r: Option<Vec<char>>)
    requires
        t.wf(),
        i < t.len(),
    ensures
        r matches Some(v) ==> t.name_of(src@, i as int) == Some(v@),
        r is None ==> t.name_of(src@, i as int) is None,
{
    match child_by_field(t, i, "name") {
        Some(c) => match node_text(src, &t.nodes[c]) {
            Some(x) => Some(x),
            None => Some(crate::text::chars_of("?")),
        },
        None => None,
    }
}

fn field_text_or(t: &SyntaxTree, src: &Vec<char>, i: usize, f: &str, d: &str) -> (r: Vec<char>)
    requires
        t.wf(),
        i < t.len(),
    ensures
        r@ == t.field_text_or(src@, i as int, f@, d@),
{
    match child_by_field(t, i, f) {
        Some(c) => match node_text(src, &t.nodes[c]) {
            Some(x) => x,
            None => crate::text::chars_of(d),
        },
        None => crate::text::chars_of(d),
    }
}

fn push_sym(out: &mut Vec<SymbolInfo>, name: Vec<char>, kind: &str, line: usize, sig: Vec<char>)
    ensures
        final(out)@.len() == old(out)@.len() + 1,
        forall|k: int| 0 <= k < old(out)@.len() ==> final(out)@[k] == old(out)@[k],
        final(out)@.last().spec() == (name@, kind@, line as int, sig@),
{
    out.push(SymbolInfo {
        name: crate::text::string_of(&name),
        kind: kind.to_owned(),
        line,
        signature: crate::text::string_of(&sig),
    });
}

/// Pushes the symbol of node `i` named by its `name` child, if it has one.
fn push_named_sym(out: &mut Vec<SymbolInfo>, t: &SyntaxTree, src: &Vec<char>, i: usize, kind: &str, sig_from: usize)
    requires
        t.wf(),
        i < t.len(),
        sig_from < t.len(),
    ensures
        final(out)@.map_values(|s: SymbolInfo| s.spec())
            == old(out)@.map_values(|s: SymbolInfo| s.spec()) + t.named_sym(src@, i as int, kind@, sig_from as int),
{
    let ghost before = out@.map_values(|s: SymbolInfo| s.spec());
    match name_of(t, src, i) {
        Some(name) => {
            let sig = first_line(src, t.nodes[sig_from].start);
            push_sym(out, name, kind, t.nodes[i].start_row, sig);
            assert(out@.map_values(|s: SymbolInfo| s.spec()) =~= before + t.named_sym(src@, i as int, kind@, sig_from as int));
        },
        None => {
            assert(before + t.named_sym(src@, i as int, kind@, sig_from as int) =~= before);
        },
    }
}

} // verus!

verus! {

impl SyntaxTree {
    /// The node's first child is a visibility modifier (`pub`).
    pub open spec fn is_pub(&self, i: int) -> bool {
        match self.first_child(i) {
            Some(c) => self.nodes@[c].kind@ == "visibility_modifier"@,
            None => false,
        }
    }

    /// The symbols that a Rust node contributes: a `pub` item by its kind, and
    /// every `impl` block by its type.
    pub open spec fn rust_syms_of(&self, src: Seq<char>, i: int) -> Seq<SymSpec> {
        let k = self.nodes@[i].kind@;
        let item = if self.is_pub(i) {
            if k == "function_item"@ { self.named_sym(src, i, "fn"@, i) }
            else if k == "struct_item"@ { self.named_sym(src, i, "struct"@, i) }
            else if k == "enum_item"@ { self.named_sym(src, i, "enum"@, i) }
            else if k == "trait_item"@ { self.named_sym(src, i, "trait"@, i) }
            else if k == "type_item"@ { self.named_sym(src, i, "type"@, i) }
            else { seq![] }
        } else {
            seq![]
        };
        let imp = if k == "impl_item"@ {
            match self.child_by_field(i, "type"@) {
                Some(c) => seq![(match text_of(src, self.nodes@[c]) { Some(x) => x, None => "?"@ },
                    "impl"@, self.nodes@[i].start_row as int, first_line_at(src, self.nodes@[i].start as int))],
                None => seq![],
            }
        } else {
            seq![]
        };
        item + imp
    }

    /// Whether node `i` lies inside a function: some ancestor of it is a
    /// `function_definition`.
    pub open spec fn inside_function(&self, i: int) -> bool
        decreases i,
    {
        if i <= 0 || i >= self.nodes@.len() {
            false
        } else {
            match self.nodes@[i].parent {
                Some(p) => if (p as int) < i {
                    self.nodes@[p as int].kind@ == "function_definition"@ || self.inside_function(p as int)
                } else {
                    false
                },
                None => false,
            }
        }
    }

    /// A Python definition is collected when it is at the top level or in a
    /// class: its parent is a module, a class body, a block or a decorated
    /// definition (or it has none), and it does not lie inside a function
    /// (a `def` nested in a function's body is no part of a module's API).
    pub open spec fn top_level_or_class_method(&self, i: int) -> bool {
        &&& match self.nodes@[i].parent {
            Some(p) => {
                let k = self.nodes@[p as int].kind@;
                k == "module"@ || k == "source_file"@ || k == "class_body"@ || k == "block"@
                    || k == "decorated_definition"@
            },
            None => true,
        }
        &&& !self.inside_function(i)
    }

    /// The symbols that a Python node contributes.
    pub open spec fn python_syms_of(&self, src: Seq<char>, i: int) -> Seq<SymSpec> {
        let k = self.nodes@[i].kind@;
        if k == "function_definition"@ {
            match self.name_of(src, i) {
                Some(name) => if self.top_level_or_class_method(i) {
                    seq![(name, "def"@, self.nodes@[i].start_row as int, first_line_at(src, self.nodes@[i].start as int))]
                } else {
                    seq![]
                },
                None => seq![],
            }
        } else if k == "class_definition"@ {
            self.named_sym(src, i, "class"@, i)
        } else {
            seq![]
        }
    }

    /// The symbols of the nodes before `k` for Rust (`rust`) or Python.
    pub open spec fn item_syms_upto(&self, src: Seq<char>, rust: bool, k: int) -> Seq<SymSpec>
        decreases k,
    {
        if k <= 0 {
            seq![]
        } else {
            self.item_syms_upto(src, rust, k - 1) + if rust {
                self.rust_syms_of(src, k - 1)
            } else {
                self.python_syms_of(src, k - 1)
            }
        }
    }
}

fn push_rust_syms(out: &mut Vec<SymbolInfo>, t: &SyntaxTree, src: &Vec<char>, i: usize)
    requires
        t.wf(),
        i < t.len(),
    ensures
        final(out)@.map_values(|s: SymbolInfo| s.spec())
            == old(out)@.map_values(|s: SymbolInfo| s.spec()) + t.rust_syms_of(src@, i as int),
{
    let ghost before = out@.map_values(|s: SymbolInfo| s.spec());
    let k = t.nodes[i].kind.as_str();
    let is_pub = match first_child(t, i, false) {
        Some(c) => t.nodes[c].kind.as_str().eq("visibility_modifier"),
        None => false,
    };
    if is_pub {
        if k.eq("function_item") {
            push_named_sym(out, t, src, i, "fn", i);
        } else if k.eq("struct_item") {
            push_named_sym(out, t, src, i, "struct", i);
        } else if k.eq("enum_item") {
            push_named_sym(out, t, src, i, "enum", i);
        } else if k.eq("trait_item") {
            push_named_sym(out, t, src, i, "trait", i);
        } else if k.eq("type_item") {
            push_named_sym(out, t, src, i, "type", i);
        }
    }
    let ghost mid = out@.map_values(|s: SymbolInfo| s.spec());
    if k.eq("impl_item") {
        if let Some(c) = child_by_field(t, i, "type") {
            let name = match node_text(src, &t.nodes[c]) {
                Some(x) => x,
                None => crate::text::chars_of("?"),
            };
            let sig = first_line(src, t.nodes[i].start);
            push_sym(out, name, "impl", t.nodes[i].start_row, sig);
            assert(out@.map_values(|s: SymbolInfo| s.spec()) =~= mid.push(out@.last().spec()));
        }
    }
    assert(out@.map_values(|s: SymbolInfo| s.spec()) =~= before + t.rust_syms_of(src@, i as int));
}

/// Whether node `i` lies inside a function (see `SyntaxTree::inside_function`).
fn inside_function(t: &SyntaxTree, i: usize) -> (b: bool)
    requires
        t.wf(),
        i < t.len(),
    ensures
        b == t.inside_function(i as int),
{
    let mut j = i;
    while j > 0
        invariant
            t.wf(),
            j < t.len(),
            t.inside_function(i as int) == t.inside_function(j as int),
        decreases j,
    {
        match t.nodes[j].parent {
            Some(p) => {
                if t.nodes[p].kind.as_str().eq("function_definition") {
                    return true;
                }
                j = p;
            },
            None => {
                return false;
            },
        }
    }
    false
}

fn push_python_syms(out: &mut Vec<SymbolInfo>, t: &SyntaxTree, src: &Vec<char>, i: usize)
    requires
        t.wf(),
        i < t.len(),
    ensures
        final(out)@.map_values(|s: SymbolInfo| s.spec())
            == old(out)@.map_values(|s: SymbolInfo| s.spec()) + t.python_syms_of(src@, i as int),
{
    let ghost before = out@.map_values(|s: SymbolInfo| s.spec());
    let k = t.nodes[i].kind.as_str();
    if k.eq("function_definition") {
        if let Some(name) = name_of(t, src, i) {
            let top = match t.nodes[i].parent {
                Some(p) => {
                    let pk = t.nodes[p].kind.as_str();
                    pk.eq("module") || pk.eq("source_file") || pk.eq("class_body") || pk.eq("block")
                        || pk.eq("decorated_definition")
                },
                None => true,
            };
            if top && !inside_function(t, i) {
                let sig = first_line(src, t.nodes[i].start);
                push_sym(out, name, "def", t.nodes[i].start_row, sig);
            }
        }
    } else if k.eq("class_definition") {
        push_named_sym(out, t, src, i, "class", i);
    }
    assert(out@.map_values(|s: SymbolInfo| s.spec()) =~= before + t.python_syms_of(src@, i as int));
}

} // verus!

verus! {

impl SyntaxTree {
    /// The symbols of the members of class body `b`, from its children before `k`.
    pub open spec fn body_syms(&self, src: Seq<char>, b: int, k: int) -> Seq<SymSpec>
        decreases k - b,
    {
        if k <= b + 1 {
            seq![]
        } else {
            let prev = self.body_syms(src, b, k - 1);
            let m = k - 1;
            let mk = self.nodes@[m].kind@;
            let line = self.nodes@[m].start_row as int;
            let sig = first_line_at(src, self.nodes@[m].start as int);
            if !self.is_child(b, m) {
                prev
            } else if mk == "method_definition"@ || mk == "public_field_definition"@ {
                let prefix = if self.has_child_of_kind(m, "static"@) { "static "@ } else { ""@ };
                let suffix = if mk == "method_definition"@ { "method"@ } else { "field"@ };
                prev.push((self.field_text_or(src, m, "name"@, "?"@), prefix + suffix, line, sig))
            } else if mk == "method_signature"@ {
                prev.push((self.field_text_or(src, m, "name"@, "?"@), "method"@, line, sig))
            } else {
                prev
            }
        }
    }

    /// The member symbols of a class (`collect_ts_class_members`): those of
    /// the first `class_body` within it.
    pub open spec fn member_syms(&self, src: Seq<char>, c: int) -> Seq<SymSpec> {
        match self.descendant_of_kind(c, "class_body"@) {
            Some(b) => self.body_syms(src, b, self.end_of(b)),
            None => seq![],
        }
    }

    /// The `const` symbols of the declarators of lexical declaration `c`
    /// (children before `k`) exported by `x`.
    pub open spec fn decl_syms(&self, src: Seq<char>, x: int, c: int, k: int) -> Seq<SymSpec>
        decreases k - c,
    {
        if k <= c + 1 {
            seq![]
        } else {
            let prev = self.decl_syms(src, x, c, k - 1);
            let d = k - 1;
            if self.is_child(c, d) && self.nodes@[d].kind@ == "variable_declarator"@ {
                match self.name_of(src, d) {
                    Some(name) => prev.push((name, "const"@, self.nodes@[d].start_row as int,
                        first_line_at(src, self.nodes@[x].start as int))),
                    None => prev,
                }
            } else {
                prev
            }
        }
    }

    /// The symbols that child `c` of export statement `x` declares.
    pub open spec fn export_child_syms(&self, src: Seq<char>, x: int, c: int) -> Seq<SymSpec> {
        let k = self.nodes@[c].kind@;
        if k == "function_declaration"@ || k == "generator_function_declaration"@ {
            self.named_sym(src, c, "function"@, c)
        } else if k == "lexical_declaration"@ {
            self.decl_syms(src, x, c, self.end_of(c))
        } else if k == "class_declaration"@ || k == "abstract_class_declaration"@ {
            let label = if k == "abstract_class_declaration"@ { "abstract class"@ } else { "class"@ };
            self.named_sym(src, c, label, c) + self.member_syms(src, c)
        } else if k == "type_alias_declaration"@ {
            self.named_sym(src, c, "type"@, c)
        } else if k == "interface_declaration"@ {
            self.named_sym(src, c, "interface"@, c)
        } else if k == "enum_declaration"@ {
            self.named_sym(src, c, "enum"@, c)
        } else {
            seq![]
        }
    }

    /// The symbols of the children of export statement `x` before `k`.
    pub open spec fn export_syms(&self, src: Seq<char>, x: int, k: int) -> Seq<SymSpec>
        decreases k - x,
    {
        if k <= x + 1 {
            seq![]
        } else {
            self.export_syms(src, x, k - 1) + if self.is_child(x, k - 1) {
                self.export_child_syms(src, x, k - 1)
            } else {
                seq![]
            }
        }
    }

    /// `export default class`: the class (the first descendant of kind
    /// `class`) is added unless a symbol on its line was already collected,
    /// and its members are added.
    pub open spec fn with_default_class(&self, src: Seq<char>, x: int, acc: Seq<SymSpec>) -> Seq<SymSpec> {
        let text = match text_of(src, self.nodes@[x]) { Some(t) => t, None => seq![] };
        if starts_with(text, "export default class"@) {
            match self.descendant_of_kind(x, "class"@) {
                Some(k) => {
                    let line = self.nodes@[k].start_row as int;
                    let acc2 = if exists|s: int| 0 <= s < acc.len() && (#[trigger] acc[s]).2 == line {
                        acc
                    } else {
                        acc.push((self.field_text_or(src, k, "name"@, "default"@), "class"@, line,
                            first_line_at(src, self.nodes@[k].start as int)))
                    };
                    acc2 + self.member_syms(src, k)
                },
                None => acc,
            }
        } else {
            acc
        }
    }

    /// The TypeScript/JavaScript walk visits node `i`: no node on its path
    /// below the root is a function body (`statement_block`).
    pub open spec fn ts_visits(&self, i: int) -> bool
        decreases i,
    {
        match self.nodes@[i].parent {
            None => true,
            Some(p) => if 0 <= p < i {
                self.nodes@[i].kind@ != "statement_block"@ && self.ts_visits(p as int)
            } else {
                false
            },
        }
    }

    /// The exported symbols found among the nodes before `k`.
    pub open spec fn ts_syms_upto(&self, src: Seq<char>, k: int) -> Seq<SymSpec>
        decreases k,
    {
        if k <= 0 {
            seq![]
        } else {
            let prev = self.ts_syms_upto(src, k - 1);
            let x = k - 1;
            if self.ts_visits(x) && self.nodes@[x].kind@ == "export_statement"@ {
                self.with_default_class(src, x, prev + self.export_syms(src, x, self.end_of(x)))
            } else {
                prev
            }
        }
    }

    /// The symbols of the file (`extract_symbols`).
    pub open spec fn symbols(&self, src: Seq<char>, lang: Lang) -> Seq<SymSpec> {
        if lang.is_js_family() {
            self.ts_syms_upto(src, self.len() as int)
        } else {
            self.item_syms_upto(src, lang == Lang::Rust, self.len() as int)
        }
    }
}

/// The symbols as plain values.
pub open spec fn sym_specs(v: Seq<SymbolInfo>) -> Seq<SymSpec> {
    v.map_values(|s: SymbolInfo| s.spec())
}

fn push_body_syms(out: &mut Vec<SymbolInfo>, t: &SyntaxTree, src: &Vec<char>, b: usize)
    requires
        t.wf(),
        b < t.len(),
    ensures
        sym_specs(final(out)@) == sym_specs(old(out)@) + t.body_syms(src@, b as int, t.end_of(b as int)),
{
    let end = t.subtree_end[b];
    let ghost before = sym_specs(out@);
    let mut j = b + 1;
    while j < end
        invariant
            t.wf(),
            b < t.len(),
            end == t.end_of(b as int),
            b + 1 <= j <= end,
            sym_specs(out@) == before + t.body_syms(src@, b as int, j as int),
        decreases end - j,
    {
        let ghost mid = sym_specs(out@);
        let m = &t.nodes[j];
        let mk = m.kind.as_str();
        let is_child = match m.parent { Some(q) => q == b, None => false };
        if is_child {
            if mk.eq("method_definition") || mk.eq("public_field_definition") {
                let name = field_text_or(t, src, j, "name", "?");
                let is_static = has_child_kind(t, j, "static");
                let kind = if is_static {
                    if mk.eq("method_definition") { "static method" } else { "static field" }
                } else {
                    if mk.eq("method_definition") { "method" } else { "field" }
                };
                proof {
                    reveal_strlit("static method");
                    reveal_strlit("static field");
                    reveal_strlit("static ");
                    reveal_strlit("method");
                    reveal_strlit("field");
                    reveal_strlit("");
                    assert(kind@ == (if is_static { "static "@ } else { ""@ })
                        + (if mk@ == "method_definition"@ { "method"@ } else { "field"@ }));
                }
                let sig = first_line(src, m.start);
                push_sym(out, name, kind, m.start_row, sig);
                assert(sym_specs(out@) =~= mid.push(out@.last().spec()));
            } else if mk.eq("method_signature") {
                let name = field_text_or(t, src, j, "name", "?");
                let sig = first_line(src, m.start);
                push_sym(out, name, "method", m.start_row, sig);
                assert(sym_specs(out@) =~= mid.push(out@.last().spec()));
            }
        }
        j = j + 1;
    }
}

fn push_member_syms(out: &mut Vec<SymbolInfo>, t: &SyntaxTree, src: &Vec<char>, c: usize)
    requires
        t.wf(),
        c < t.len(),
    ensures
        sym_specs(final(out)@) == sym_specs(old(out)@) + t.member_syms(src@, c as int),
{
    match descendant_of_kind(t, c, "class_body") {
        Some(b) => push_body_syms(out, t, src, b),
        None => {
            assert(sym_specs(out@) + t.member_syms(src@, c as int) =~= sym_specs(out@));
        },
    }
}

fn push_decl_syms(out: &mut Vec<SymbolInfo>, t: &SyntaxTree, src: &Vec<char>, x: usize, c: usize)
    requires
        t.wf(),
        x < t.len(),
        c < t.len(),
    ensures
        sym_specs(final(out)@) == sym_specs(old(out)@) + t.decl_syms(src@, x as int, c as int, t.end_of(c as int)),
{
    let end = t.subtree_end[c];
    let ghost before = sym_specs(out@);
    let mut j = c + 1;
    while j < end
        invariant
            t.wf(),
            x < t.len(),
            c < t.len(),
            end == t.end_of(c as int),
            c + 1 <= j <= end,
            sym_specs(out@) == before + t.decl_syms(src@, x as int, c as int, j as int),
        decreases end - j,
    {
        let ghost mid = sym_specs(out@);
        let d = &t.nodes[j];
        let is_child = match d.parent { Some(q) => q == c, None => false };
        if is_child && d.kind.as_str().eq("variable_declarator") {
            if let Some(name) = name_of(t, src, j) {
                let sig = first_line(src, t.nodes[x].start);
                push_sym(out, name, "const", d.start_row, sig);
                assert(sym_specs(out@) =~= mid.push(out@.last().spec()));
            }
        }
        j = j + 1;
    }
}

fn push_export_child_syms(out: &mut Vec<SymbolInfo>, t: &SyntaxTree, src: &Vec<char>, x: usize, c: usize)
    requires
        t.wf(),
        x < t.len(),
        c < t.len(),
    ensures
        sym_specs(final(out)@) == sym_specs(old(out)@) + t.export_child_syms(src@, x as int, c as int),
{
    let ghost before = sym_specs(out@);
    let k = t.nodes[c].kind.as_str();
    if k.eq("function_declaration") || k.eq("generator_function_declaration") {
        push_named_sym(out, t, src, c, "function", c);
    } else if k.eq("lexical_declaration") {
        push_decl_syms(out, t, src, x, c);
    } else if k.eq("class_declaration") || k.eq("abstract_class_declaration") {
        let label = if k.eq("abstract_class_declaration") { "abstract class" } else { "class" };
        push_named_sym(out, t, src, c, label, c);
        push_member_syms(out, t, src, c);
        assert(sym_specs(out@) =~= before + t.export_child_syms(src@, x as int, c as int));
    } else if k.eq("type_alias_declaration") {
        push_named_sym(out, t, src, c, "type", c);
    } else if k.eq("interface_declaration") {
        push_named_sym(out, t, src, c, "interface", c);
    } else if k.eq("enum_declaration") {
        push_named_sym(out, t, src, c, "enum", c);
    } else {
        assert(before + t.export_child_syms(src@, x as int, c as int) =~= before);
    }
}

fn push_export_syms(out: &mut Vec<SymbolInfo>, t: &SyntaxTree, src: &Vec<char>, x: usize)
    requires
        t.wf(),
        x < t.len(),
    ensures
        sym_specs(final(out)@) == sym_specs(old(out)@) + t.export_syms(src@, x as int, t.end_of(x as int)),
{
    let end = t.subtree_end[x];
    let ghost before = sym_specs(out@);
    let mut j = x + 1;
    while j < end
        invariant
            t.wf(),
            x < t.len(),
            end == t.end_of(x as int),
            x + 1 <= j <= end,
            sym_specs(out@) == before + t.export_syms(src@, x as int, j as int),
        decreases end - j,
    {
        let ghost mid = sym_specs(out@);
        let is_child = match t.nodes[j].parent { Some(q) => q == x, None => false };
        if is_child {
            push_export_child_syms(out, t, src, x, j);
            assert(sym_specs(out@) =~= before + t.export_syms(src@, x as int, j + 1));
        } else {
            assert(before + t.export_syms(src@, x as int, j + 1) =~= mid);
        }
        j = j + 1;
    }
}

fn push_default_class(out: &mut Vec<SymbolInfo>, t: &SyntaxTree, src: &Vec<char>, x: usize)
    requires
        t.wf(),
        x < t.len(),
    ensures
        sym_specs(final(out)@) == t.with_default_class(src@, x as int, sym_specs(old(out)@)),
{
    let ghost acc = sym_specs(out@);
    let text = match node_text(src, &t.nodes[x]) {
        Some(v) => v,
        None => Vec::new(),
    };
    if !crate::text::starts_with_exec(&text, &crate::text::chars_of("export default class")) {
        return;
    }
    match descendant_of_kind(t, x, "class") {
        None => {},
        Some(k) => {
            let line = t.nodes[k].start_row;
            let mut seen = false;
            let mut s: usize = 0;
            while s < out.len()
                invariant
                    acc == sym_specs(out@),
                    s <= out@.len(),
                    seen == exists|q: int| 0 <= q < s && (#[trigger] acc[q]).2 == line,
                decreases out.len() - s,
            {
                if out[s].line == line {
                    seen = true;
                }
                proof {
                    assert(acc[s as int] == out@[s as int].spec());
                    if seen {
                        if out@[s as int].line == line {
                            assert(acc[s as int].2 == line);
                        }
                    } else {
                        assert forall|q: int| 0 <= q < s + 1 implies (#[trigger] acc[q]).2 != line by {
                            if q == s {
                                assert(acc[q].2 == out@[s as int].line);
                            }
                        }
                    }
                }
                s = s + 1;
            }
            if !seen {
                let name = field_text_or(t, src, k, "name", "default");
                let sig = first_line(src, t.nodes[k].start);
                push_sym(out, name, "class", line, sig);
                assert(sym_specs(out@) =~= acc.push(out@.last().spec()));
            }
            push_member_syms(out, t, src, k);
        },
    }
}

/// Extract exported/public symbols from a parsed file.
pub fn extract_symbols(tree: &SyntaxTree, source: &str, lang: Lang) -> (r: Vec<SymbolInfo>)
    requires
        tree.wf(),
    ensures
        sym_specs(r@) == tree.symbols(source@, lang),
{
    let src = crate::text::chars_of(source);
    let mut out: Vec<SymbolInfo> = Vec::new();
    let n = tree.nodes.len();
    match lang {
        Lang::TypeScript | Lang::Tsx | Lang::JavaScript => {
            let mut vis: Vec<bool> = Vec::new();
            for i in 0..n
                invariant
                    tree.wf(),
                    n == tree.len(),
                    src@ == source@,
                    vis@.len() == i,
                    forall|j: int| 0 <= j < i ==> vis@[j] == tree.ts_visits(j),
                    sym_specs(out@) == tree.ts_syms_upto(source@, i as int),
            {
                let nd = &tree.nodes[i];
                let v = match nd.parent {
                    None => true,
                    Some(p) => {
                        assert(p < i);
                        let vp = vis[p];
                        assert(vp == tree.ts_visits(p as int));
                        !nd.kind.as_str().eq("statement_block") && vp
                    },
                };
                assert(v == tree.ts_visits(i as int));
                vis.push(v);
                if v && nd.kind.as_str().eq("export_statement") {
                    push_export_syms(&mut out, tree, &src, i);
                    push_default_class(&mut out, tree, &src, i);
                }
            }
        },
        Lang::Rust | Lang::Python => {
            let rust = match lang { Lang::Rust => true, _ => false };
            for i in 0..n
                invariant
                    tree.wf(),
                    n == tree.len(),
                    src@ == source@,
                    rust == (lang == Lang::Rust),
                    !lang.is_js_family(),
                    sym_specs(out@) == tree.item_syms_upto(source@, rust, i as int),
            {
                if rust {
                    push_rust_syms(&mut out, tree, &src, i);
                } else {
                    push_python_syms(&mut out, tree, &src, i);
                }
            }
        },
    }
    out
}

} // verus!

verus! {

// ---------------------------------------------------------------------------
// References (`ctx flow`)
// ---------------------------------------------------------------------------

/// How a symbol is used at a specific place. The order of the variants is
/// the narrative order of the output: imports, definitions, usage, output.
#[derive(Clone, Copy, PartialEq, Eq, PartialOrd, Ord, Hash, Debug, Structural)]
pub enum RefKind {
    Import,
    Definition,
    TypeDefinition,
    Export,
    PropReceive,
    Call,
    PropPass,
    ConditionalUse,
    ReturnValue,
    Mutation,
    Read,
}

impl RefKind {
    /// The label of each kind.
    pub open spec fn spec_label(self) -> Seq<char> {
        match self {
            RefKind::Import => "IMPORT"@,
            RefKind::Definition => "DEFINITION"@,
            RefKind::TypeDefinition => "TYPE"@,
            RefKind::Export => "EXPORT"@,
            RefKind::PropReceive => "PROP RECEIVE"@,
            RefKind::Call => "CALL"@,
            RefKind::PropPass => "PROP PASS"@,
            RefKind::ConditionalUse => "CONDITIONAL"@,
            RefKind::ReturnValue => "RETURN"@,
            RefKind::Mutation => "MUTATION"@,
            RefKind::Read => "READ"@,
        }
    }

    /// The position of the kind in the narrative order.
    pub open spec fn spec_rank(self) -> nat {
        match self {
            RefKind::Import => 0,
            RefKind::Definition => 1,
            RefKind::TypeDefinition => 2,
            RefKind::Export => 3,
            RefKind::PropReceive => 4,
            RefKind::Call => 5,
            RefKind::PropPass => 6,
            RefKind::ConditionalUse => 7,
            RefKind::ReturnValue => 8,
            RefKind::Mutation => 9,
            RefKind::Read => 10,
        }
    }

    /// The label of the kind, as the output shows it.
    pub fn label(self) -> (r: &'static str)
        ensures
            r@ == self.spec_label(),
    {
        match self {
            RefKind::Import => "IMPORT",
            RefKind::Definition => "DEFINITION",
            RefKind::TypeDefinition => "TYPE",
            RefKind::Export => "EXPORT",
            RefKind::PropReceive => "PROP RECEIVE",
            RefKind::Call => "CALL",
            RefKind::PropPass => "PROP PASS",
            RefKind::ConditionalUse => "CONDITIONAL",
            RefKind::ReturnValue => "RETURN",
            RefKind::Mutation => "MUTATION",
            RefKind::Read => "READ",
        }
    }

    /// The position of the kind in the narrative order.
    pub fn rank(self) -> (r: u8)
        ensures
            r as nat == self.spec_rank(),
    {
        match self {
            RefKind::Import => 0,
            RefKind::Definition => 1,
            RefKind::TypeDefinition => 2,
            RefKind::Export => 3,
            RefKind::PropReceive => 4,
            RefKind::Call => 5,
            RefKind::PropPass => 6,
            RefKind::ConditionalUse => 7,
            RefKind::ReturnValue => 8,
            RefKind::Mutation => 9,
            RefKind::Read => 10,
        }
    }
}

/// Identifier-like node kinds across all supported languages.
pub open spec fn is_ident_kind(k: Seq<char>) -> bool {
    ||| k == "identifier"@
    ||| k == "property_identifier"@
    ||| k == "shorthand_property_identifier"@
    ||| k == "shorthand_property_identifier_pattern"@
    ||| k == "type_identifier"@
    ||| k == "field_identifier"@
}

fn is_ident_kind_exec(k: &str) -> (b: bool)
    ensures
        b == is_ident_kind(k@),
{
    k.eq("identifier") || k.eq("property_identifier") || k.eq("shorthand_property_identifier")
        || k.eq("shorthand_property_identifier_pattern") || k.eq("type_identifier") || k.eq("field_identifier")
}

impl SyntaxTree {
    /// Node `i` is an identifier reading `symbol` that starts on `line`, and
    /// the search (which only descends into nodes spanning `line`) reaches it.
    pub open spec fn ident_on_line(&self, src: Seq<char>, i: int, line: int, symbol: Seq<char>) -> bool {
        &&& self.reaches(i, line)
        &&& self.nodes@[i].start_row == line
        &&& is_ident_kind(self.nodes@[i].kind@)
        &&& text_of(src, self.nodes@[i]) == Some(symbol)
    }

    /// The identifiers on `line` among the nodes before `k`, in pre-order.
    pub open spec fn idents_upto(&self, src: Seq<char>, line: int, symbol: Seq<char>, k: int) -> Seq<int>
        decreases k,
    {
        if k <= 0 {
            seq![]
        } else {
            let prev = self.idents_upto(src, line, symbol, k - 1);
            if self.ident_on_line(src, k - 1, line, symbol) { prev.push(k - 1) } else { prev }
        }
    }
}

/// Find all identifier nodes reading `symbol` on a given line (0-indexed).
pub fn find_identifiers_on_line(tree: &SyntaxTree, source: &str, line: usize, symbol: &str) -> (r: Vec<usize>)
    requires
        tree.wf(),
    ensures
        r@.map_values(|i: usize| i as int) == tree.idents_upto(source@, line as int, symbol@, tree.len() as int),
        forall|k: int| 0 <= k < r@.len() ==> #[trigger] r@[k] < tree.len(),
{
    let src = crate::text::chars_of(source);
    let sym = crate::text::chars_of(symbol);
    let n = tree.nodes.len();
    let mut reach: Vec<bool> = Vec::new();
    let mut out: Vec<usize> = Vec::new();
    for i in 0..n
        invariant
            tree.wf(),
            n == tree.len(),
            src@ == source@,
            sym@ == symbol@,
            reach@.len() == i,
            forall|j: int| 0 <= j < i ==> reach@[j] == tree.reaches(j, line as int),
            out@.map_values(|i: usize| i as int) == tree.idents_upto(source@, line as int, symbol@, i as int),
            forall|k: int| 0 <= k < out@.len() ==> #[trigger] out@[k] < i,
    {
        let nd = &tree.nodes[i];
        let spans = nd.start_row <= line && line <= nd.end_row;
        let r = spans && match nd.parent {
            None => true,
            Some(p) => reach[p],
        };
        reach.push(r);
        if r && nd.start_row == line && is_ident_kind_exec(nd.kind.as_str()) {
            let matches = match crate::ts::node_text(&src, nd) {
                Some(t) => crate::text::seq_eq(&t, &sym),
                None => false,
            };
            if matches {
                out.push(i);
                assert(out@.map_values(|i: usize| i as int) =~= tree.idents_upto(source@, line as int, symbol@, i + 1));
            }
        }
    }
    out
}

} // verus!

verus! {

impl SyntaxTree {
    /// `target` lies within the child of `p` under field `f` (`is_in_field`).
    pub open spec fn in_field(&self, p: int, f: Seq<char>, target: int) -> bool {
        match self.child_by_field(p, f) {
            Some(c) => self.nodes@[c].start <= self.nodes@[target].start
                && self.nodes@[target].stop <= self.nodes@[c].stop,
            None => false,
        }
    }

    pub open spec fn kind_is(&self, i: int, k: Seq<char>) -> bool {
        self.nodes@[i].kind@ == k
    }

    /// What parent `p` of `cur` (on the way up from identifier `ident`) tells
    /// about a TypeScript/JavaScript reference, if anything.
    pub open spec fn ts_decision(&self, ident: int, cur: int, p: int) -> Option<RefKind> {
        let k = self.nodes@[p].kind@;
        if k == "import_specifier"@ || k == "import_clause"@ || k == "import_statement"@ || k == "namespace_import"@ {
            Some(RefKind::Import)
        } else if k == "export_specifier"@ || k == "export_clause"@ {
            Some(RefKind::Export)
        } else if k == "export_statement"@ {
            if cur == ident { Some(RefKind::Export) } else { None }
        } else if k == "variable_declarator"@ {
            if self.in_field(p, "name"@, ident) { Some(RefKind::Definition) } else { None }
        } else if k == "function_declaration"@ || k == "generator_function_declaration"@ || k == "method_definition"@
            || k == "class_declaration"@ || k == "abstract_class_declaration"@ {
            if self.in_field(p, "name"@, ident) { Some(RefKind::Definition) } else { None }
        } else if k == "call_expression"@ || k == "new_expression"@ {
            if self.in_field(p, "function"@, ident) { Some(RefKind::Call) } else { None }
        } else if k == "jsx_attribute"@ {
            Some(RefKind::PropPass)
        } else if k == "jsx_opening_element"@ || k == "jsx_self_closing_element"@ {
            if self.in_field(p, "name"@, ident) { Some(RefKind::Call) } else { None }
        } else if k == "required_parameter"@ || k == "optional_parameter"@ {
            Some(RefKind::PropReceive)
        } else if k == "object_pattern"@ {
            match self.nodes@[p].parent {
                Some(gp) => {
                    let gk = self.nodes@[gp as int].kind@;
                    if gk == "required_parameter"@ || gk == "optional_parameter"@ {
                        Some(RefKind::PropReceive)
                    } else if gk == "variable_declarator"@ && self.in_field(gp as int, "name"@, p) {
                        Some(RefKind::Definition)
                    } else {
                        None
                    }
                },
                None => None,
            }
        } else if k == "array_pattern"@ {
            match self.nodes@[p].parent {
                Some(gp) => if self.kind_is(gp as int, "variable_declarator"@) && self.in_field(gp as int, "name"@, p) {
                    Some(RefKind::Definition)
                } else {
                    None
                },
                None => None,
            }
        } else if k == "property_signature"@ || k == "method_signature"@ {
            Some(RefKind::TypeDefinition)
        } else if k == "type_alias_declaration"@ || k == "interface_declaration"@ || k == "enum_declaration"@ {
            Some(RefKind::TypeDefinition)
        } else if k == "type_annotation"@ || k == "type_arguments"@ || k == "constraint"@ {
            Some(RefKind::TypeDefinition)
        } else if k == "assignment_expression"@ || k == "augmented_assignment_expression"@ {
            if self.in_field(p, "left"@, ident) { Some(RefKind::Mutation) } else { None }
        } else if k == "update_expression"@ {
            Some(RefKind::Mutation)
        } else if k == "return_statement"@ {
            Some(RefKind::ReturnValue)
        } else if k == "if_statement"@ || k == "while_statement"@ || k == "do_statement"@ || k == "switch_statement"@
            || k == "ternary_expression"@ {
            if self.in_field(p, "condition"@, ident) { Some(RefKind::ConditionalUse) } else { None }
        } else {
            None
        }
    }

    /// A chain of `scoped_identifier` nodes above `a` (at most `steps`) ends in
    /// a `use` declaration.
    pub open spec fn scoped_in_use(&self, a: int, steps: nat) -> bool
        decreases steps,
    {
        if steps == 0 {
            false
        } else {
            match self.nodes@[a].parent {
                Some(b) => if self.kind_is(b as int, "use_declaration"@) {
                    true
                } else if self.kind_is(b as int, "scoped_identifier"@) {
                    self.scoped_in_use(b as int, (steps - 1) as nat)
                } else {
                    false
                },
                None => false,
            }
        }
    }

    /// What parent `p` tells about a Rust reference, if anything.
    pub open spec fn rust_decision(&self, ident: int, p: int) -> Option<RefKind> {
        let k = self.nodes@[p].kind@;
        if k == "use_declaration"@ || k == "use_as_clause"@ || k == "use_list"@ || k == "use_wildcard"@ {
            Some(RefKind::Import)
        } else if k == "scoped_identifier"@ {
            if self.scoped_in_use(p, 10) { Some(RefKind::Import) } else { None }
        } else if k == "function_item"@ || k == "const_item"@ || k == "static_item"@ || k == "let_declaration"@ {
            if self.in_field(p, "name"@, ident) { Some(RefKind::Definition) } else { None }
        } else if k == "struct_item"@ || k == "enum_item"@ || k == "trait_item"@ || k == "type_item"@ {
            if self.in_field(p, "name"@, ident) { Some(RefKind::TypeDefinition) } else { None }
        } else if k == "impl_item"@ {
            if self.in_field(p, "type"@, ident) || self.in_field(p, "trait"@, ident) {
                Some(RefKind::TypeDefinition)
            } else {
                None
            }
        } else if k == "call_expression"@ {
            if self.in_field(p, "function"@, ident) { Some(RefKind::Call) } else { None }
        } else if k == "macro_invocation"@ {
            if self.in_field(p, "macro"@, ident) { Some(RefKind::Call) } else { None }
        } else if k == "assignment_expression"@ || k == "compound_assignment_expr"@ {
            if self.in_field(p, "left"@, ident) { Some(RefKind::Mutation) } else { None }
        } else if k == "return_expression"@ {
            Some(RefKind::ReturnValue)
        } else if k == "if_expression"@ || k == "while_expression"@ {
            if self.in_field(p, "condition"@, ident) { Some(RefKind::ConditionalUse) } else { None }
        } else if k == "parameter"@ || k == "self_parameter"@ {
            Some(RefKind::PropReceive)
        } else {
            None
        }
    }

    /// What parent `p` tells about a Python reference, if anything.
    pub open spec fn python_decision(&self, ident: int, p: int) -> Option<RefKind> {
        let k = self.nodes@[p].kind@;
        if k == "import_statement"@ || k == "import_from_statement"@ || k == "aliased_import"@ {
            Some(RefKind::Import)
        } else if k == "dotted_name"@ {
            match self.nodes@[p].parent {
                Some(gp) => if self.kind_is(gp as int, "import_statement"@) || self.kind_is(gp as int, "import_from_statement"@) {
                    Some(RefKind::Import)
                } else {
                    None
                },
                None => None,
            }
        } else if k == "function_definition"@ || k == "class_definition"@ {
            if self.in_field(p, "name"@, ident) { Some(RefKind::Definition) } else { None }
        } else if k == "assignment"@ {
            if self.in_field(p, "left"@, ident) { Some(RefKind::Definition) } else { None }
        } else if k == "augmented_assignment"@ {
            if self.in_field(p, "left"@, ident) { Some(RefKind::Mutation) } else { None }
        } else if k == "call"@ {
            if self.in_field(p, "function"@, ident) { Some(RefKind::Call) } else { None }
        } else if k == "return_statement"@ {
            Some(RefKind::ReturnValue)
        } else if k == "if_statement"@ || k == "while_statement"@ || k == "elif_clause"@ {
            if self.in_field(p, "condition"@, ident) { Some(RefKind::ConditionalUse) } else { None }
        } else if k == "parameters"@ || k == "default_parameter"@ || k == "typed_parameter"@
            || k == "typed_default_parameter"@ {
            Some(RefKind::PropReceive)
        } else {
            None
        }
    }

    /// The kind of the reference at identifier `ident`, from ancestor `cur` on,
    /// looking at most `steps` more parents up; `Read` when none decides.
    pub open spec fn classify_from(&self, lang: Lang, ident: int, cur: int, steps: nat) -> RefKind
        decreases steps,
    {
        if steps == 0 {
            RefKind::Read
        } else {
            match self.nodes@[cur].parent {
                None => RefKind::Read,
                Some(p) => {
                    let d = if lang.is_js_family() {
                        self.ts_decision(ident, cur, p as int)
                    } else if lang == Lang::Rust {
                        self.rust_decision(ident, p as int)
                    } else {
                        self.python_decision(ident, p as int)
                    };
                    match d {
                        Some(k) => k,
                        None => self.classify_from(lang, ident, p as int, (steps - 1) as nat),
                    }
                },
            }
        }
    }

    /// How identifier `ident` is used: decided by the first of its (at most
    /// 20) nearest ancestors that tells.
    pub open spec fn classification(&self, lang: Lang, ident: int) -> RefKind {
        self.classify_from(lang, ident, ident, 20)
    }
}

fn in_field(t: &SyntaxTree, p: usize, f: &str, target: usize) -> (b: bool)
    requires
        t.wf(),
        p < t.len(),
        target < t.len(),
    ensures
        b == t.in_field(p as int, f@, target as int),
{
    match child_by_field(t, p, f) {
        Some(c) => t.nodes[c].start <= t.nodes[target].start && t.nodes[target].stop <= t.nodes[c].stop,
        None => false,
    }
}

fn ts_decision(t: &SyntaxTree, ident: usize, cur: usize, p: usize) -> (r: Option<RefKind>)
    requires
        t.wf(),
        ident < t.len(),
        cur < t.len(),
        p < t.len(),
    ensures
        r == t.ts_decision(ident as int, cur as int, p as int),
{
    let k = t.nodes[p].kind.as_str();
    if k.eq("import_specifier") || k.eq("import_clause") || k.eq("import_statement") || k.eq("namespace_import") {
        Some(RefKind::Import)
    } else if k.eq("export_specifier") || k.eq("export_clause") {
        Some(RefKind::Export)
    } else if k.eq("export_statement") {
        if cur == ident { Some(RefKind::Export) } else { None }
    } else if k.eq("variable_declarator") {
        if in_field(t, p, "name", ident) { Some(RefKind::Definition) } else { None }
    } else if k.eq("function_declaration") || k.eq("generator_function_declaration") || k.eq("method_definition")
        || k.eq("class_declaration") || k.eq("abstract_class_declaration") {
        if in_field(t, p, "name", ident) { Some(RefKind::Definition) } else { None }
    } else if k.eq("call_expression") || k.eq("new_expression") {
        if in_field(t, p, "function", ident) { Some(RefKind::Call) } else { None }
    } else if k.eq("jsx_attribute") {
        Some(RefKind::PropPass)
    } else if k.eq("jsx_opening_element") || k.eq("jsx_self_closing_element") {
        if in_field(t, p, "name", ident) { Some(RefKind::Call) } else { None }
    } else if k.eq("required_parameter") || k.eq("optional_parameter") {
        Some(RefKind::PropReceive)
    } else if k.eq("object_pattern") {
        match t.nodes[p].parent {
            Some(gp) => {
                let gk = t.nodes[gp].kind.as_str();
                if gk.eq("required_parameter") || gk.eq("optional_parameter") {
                    Some(RefKind::PropReceive)
                } else if gk.eq("variable_declarator") && in_field(t, gp, "name", p) {
                    Some(RefKind::Definition)
                } else {
                    None
                }
            },
            None => None,
        }
    } else if k.eq("array_pattern") {
        match t.nodes[p].parent {
            Some(gp) => if t.nodes[gp].kind.as_str().eq("variable_declarator") && in_field(t, gp, "name", p) {
                Some(RefKind::Definition)
            } else {
                None
            },
            None => None,
        }
    } else if k.eq("property_signature") || k.eq("method_signature") {
        Some(RefKind::TypeDefinition)
    } else if k.eq("type_alias_declaration") || k.eq("interface_declaration") || k.eq("enum_declaration") {
        Some(RefKind::TypeDefinition)
    } else if k.eq("type_annotation") || k.eq("type_arguments") || k.eq("constraint") {
        Some(RefKind::TypeDefinition)
    } else if k.eq("assignment_expression") || k.eq("augmented_assignment_expression") {
        if in_field(t, p, "left", ident) { Some(RefKind::Mutation) } else { None }
    } else if k.eq("update_expression") {
        Some(RefKind::Mutation)
    } else if k.eq("return_statement") {
        Some(RefKind::ReturnValue)
    } else if k.eq("if_statement") || k.eq("while_statement") || k.eq("do_statement") || k.eq("switch_statement")
        || k.eq("ternary_expression") {
        if in_field(t, p, "condition", ident) { Some(RefKind::ConditionalUse) } else { None }
    } else {
        None
    }
}

fn scoped_in_use(t: &SyntaxTree, a: usize) -> (b: bool)
    requires
        t.wf(),
        a < t.len(),
    ensures
        b == t.scoped_in_use(a as int, 10),
{
    let mut cur = a;
    let mut steps: usize = 10;
    while steps > 0
        invariant
            t.wf(),
            cur < t.len(),
            steps <= 10,
            t.scoped_in_use(a as int, 10) == t.scoped_in_use(cur as int, steps as nat),
        decreases steps,
    {
        match t.nodes[cur].parent {
            Some(b) => {
                if t.nodes[b].kind.as_str().eq("use_declaration") {
                    return true;
                } else if t.nodes[b].kind.as_str().eq("scoped_identifier") {
                    cur = b;
                } else {
                    return false;
                }
            },
            None => {
                return false;
            },
        }
        steps = steps - 1;
    }
    false
}

fn rust_decision(t: &SyntaxTree, ident: usize, p: usize) -> (r: Option<RefKind>)
    requires
        t.wf(),
        ident < t.len(),
        p < t.len(),
    ensures
        r == t.rust_decision(ident as int, p as int),
{
    let k = t.nodes[p].kind.as_str();
    if k.eq("use_declaration") || k.eq("use_as_clause") || k.eq("use_list") || k.eq("use_wildcard") {
        Some(RefKind::Import)
    } else if k.eq("scoped_identifier") {
        if scoped_in_use(t, p) { Some(RefKind::Import) } else { None }
    } else if k.eq("function_item") || k.eq("const_item") || k.eq("static_item") || k.eq("let_declaration") {
        if in_field(t, p, "name", ident) { Some(RefKind::Definition) } else { None }
    } else if k.eq("struct_item") || k.eq("enum_item") || k.eq("trait_item") || k.eq("type_item") {
        if in_field(t, p, "name", ident) { Some(RefKind::TypeDefinition) } else { None }
    } else if k.eq("impl_item") {
        if in_field(t, p, "type", ident) || in_field(t, p, "trait", ident) {
            Some(RefKind::TypeDefinition)
        } else {
            None
        }
    } else if k.eq("call_expression") {
        if in_field(t, p, "function", ident) { Some(RefKind::Call) } else { None }
    } else if k.eq("macro_invocation") {
        if in_field(t, p, "macro", ident) { Some(RefKind::Call) } else { None }
    } else if k.eq("assignment_expression") || k.eq("compound_assignment_expr") {
        if in_field(t, p, "left", ident) { Some(RefKind::Mutation) } else { None }
    } else if k.eq("return_expression") {
        Some(RefKind::ReturnValue)
    } else if k.eq("if_expression") || k.eq("while_expression") {
        if in_field(t, p, "condition", ident) { Some(RefKind::ConditionalUse) } else { None }
    } else if k.eq("parameter") || k.eq("self_parameter") {
        Some(RefKind::PropReceive)
    } else {
        None
    }
}

fn python_decision(t: &SyntaxTree, ident: usize, p: usize) -> (r: Option<RefKind>)
    requires
        t.wf(),
        ident < t.len(),
        p < t.len(),
    ensures
        r == t.python_decision(ident as int, p as int),
{
    let k = t.nodes[p].kind.as_str();
    if k.eq("import_statement") || k.eq("import_from_statement") || k.eq("aliased_import") {
        Some(RefKind::Import)
    } else if k.eq("dotted_name") {
        match t.nodes[p].parent {
            Some(gp) => {
                let gk = t.nodes[gp].kind.as_str();
                if gk.eq("import_statement") || gk.eq("import_from_statement") {
                    Some(RefKind::Import)
                } else {
                    None
                }
            },
            None => None,
        }
    } else if k.eq("function_definition") || k.eq("class_definition") {
        if in_field(t, p, "name", ident) { Some(RefKind::Definition) } else { None }
    } else if k.eq("assignment") {
        if in_field(t, p, "left", ident) { Some(RefKind::Definition) } else { None }
    } else if k.eq("augmented_assignment") {
        if in_field(t, p, "left", ident) { Some(RefKind::Mutation) } else { None }
    } else if k.eq("call") {
        if in_field(t, p, "function", ident) { Some(RefKind::Call) } else { None }
    } else if k.eq("return_statement") {
        Some(RefKind::ReturnValue)
    } else if k.eq("if_statement") || k.eq("while_statement") || k.eq("elif_clause") {
        if in_field(t, p, "condition", ident) { Some(RefKind::ConditionalUse) } else { None }
    } else if k.eq("parameters") || k.eq("default_parameter") || k.eq("typed_parameter")
        || k.eq("typed_default_parameter") {
        Some(RefKind::PropReceive)
    } else {
        None
    }
}

/// Classify how an identifier node is used by walking up the tree.
pub fn classify_identifier(tree: &SyntaxTree, ident: usize, source: &str, lang: Lang) -> (r: RefKind)
    requires
        tree.wf(),
        ident < tree.len(),
    ensures
        r == tree.classification(lang, ident as int),
{
    let mut current = ident;
    let mut steps: usize = 20;
    while steps > 0
        invariant
            tree.wf(),
            ident < tree.len(),
            current < tree.len(),
            steps <= 20,
            tree.classification(lang, ident as int) == tree.classify_from(lang, ident as int, current as int, steps as nat),
        decreases steps,
    {
        let p = match tree.nodes[current].parent {
            Some(p) => p,
            None => {
                return RefKind::Read;
            },
        };
        let d = match lang {
            Lang::TypeScript | Lang::Tsx | Lang::JavaScript => ts_decision(tree, ident, current, p),
            Lang::Rust => rust_decision(tree, ident, p),
            Lang::Python => python_decision(tree, ident, p),
        };
        if let Some(k) = d {
            return k;
        }
        current = p;
        steps = steps - 1;
    }
    RefKind::Read
}

} // verus!

verus! {

// ---------------------------------------------------------------------------
// Laws of the queries on the model
// ---------------------------------------------------------------------------

/// In a Rust file, every import node (`use_declaration`, `mod_item`,
/// `extern_crate_declaration`) whose text, trimmed and without its trailing
/// `;`, starts with `use `, `mod ` or `extern crate ` is listed among the
/// file's imports: its path is that text without the keyword, its kind the
/// node's kind and its line the node's row. So `mod name;` lists `name` as a
/// `mod_item`.
pub proof fn lemma_rust_imports_listed(t: SyntaxTree, src: Seq<char>, i: int, k: int)
    requires
        0 <= i < k <= t.len(),
        Lang::Rust.import_kinds().contains(t.nodes@[i].kind@),
        text_of(src, t.nodes@[i]) is Some,
    ensures
        ({
            let tt = trim(crate::text::trim_end_class(text_of(src, t.nodes@[i])->0, crate::text::CharClass::Semicolon));
            let kind = t.nodes@[i].kind@;
            let row = t.nodes@[i].start_row as int;
            &&& starts_with(tt, "use "@) ==> t.imports_upto(src, Lang::Rust, k).contains((tt.skip(4), kind, row))
            &&& starts_with(tt, "mod "@) ==> t.imports_upto(src, Lang::Rust, k).contains((tt.skip(4), kind, row))
            &&& starts_with(tt, "extern crate "@) ==> t.imports_upto(src, Lang::Rust, k).contains((tt.skip(13), kind, row))
        }),
    decreases k,
{
    let tt = trim(crate::text::trim_end_class(text_of(src, t.nodes@[i])->0, crate::text::CharClass::Semicolon));
    let kind = t.nodes@[i].kind@;
    let row = t.nodes@[i].start_row as int;
    reveal_strlit("use ");
    reveal_strlit("mod ");
    reveal_strlit("extern crate ");
    assert("use "@[0] == 'u' && "use "@.len() == 4);
    assert("mod "@[0] == 'm' && "mod "@.len() == 4);
    assert("extern crate "@[0] == 'e' && "extern crate "@.len() == 13);
    if starts_with(tt, "mod "@) {
        assert(tt.subrange(0, 4) == "mod "@);
        assert(tt[0] == tt.subrange(0, 4)[0]);
        assert(!starts_with(tt, "use "@));
    }
    if starts_with(tt, "extern crate "@) {
        assert(tt.subrange(0, 13) == "extern crate "@);
        assert(tt[0] == tt.subrange(0, 13)[0]);
        assert(!starts_with(tt, "use "@)) by {
            if starts_with(tt, "use "@) { assert(tt[0] == tt.subrange(0, 4)[0]); }
        }
        assert(!starts_with(tt, "mod "@)) by {
            if starts_with(tt, "mod "@) { assert(tt[0] == tt.subrange(0, 4)[0]); }
        }
    }
    if i == k - 1 {
        let prev = t.imports_upto(src, Lang::Rust, k - 1);
        if let Some(x) = t.import_of(src, i, Lang::Rust) {
            assert(t.imports_upto(src, Lang::Rust, k) == prev.push(x));
            assert(t.imports_upto(src, Lang::Rust, k)[prev.len() as int] == x);
        }
    } else {
        lemma_rust_imports_listed(t, src, i, k - 1);
        let prev = t.imports_upto(src, Lang::Rust, k - 1);
        let cur = t.imports_upto(src, Lang::Rust, k);
        assert forall|x: (Seq<char>, Seq<char>, int)| prev.contains(x) implies cur.contains(x) by {
            let q = choose|q: int| 0 <= q < prev.len() && prev[q] == x;
            if cur != prev {
                let y = t.import_of(src, k - 1, Lang::Rust)->0;
                assert(cur == prev.push(y));
                assert(cur[q] == x);
            }
        }
    }
}

/// In Python, a `call` decides an identifier below it by its `function` field
/// alone: an identifier within the callee is a `Call`; one elsewhere in the
/// call (in its arguments) is left undecided by it. And when a call is the
/// parent of the node being looked at and holds the identifier as its callee,
/// the identifier is classified as a `Call`.
pub proof fn lemma_python_call(t: SyntaxTree, ident: int, cur: int, p: int, steps: nat)
    requires
        0 <= p < t.len(),
        t.nodes@[p].kind@ == "call"@,
    ensures
        t.in_field(p, "function"@, ident) ==> t.python_decision(ident, p) == Some(RefKind::Call),
        !t.in_field(p, "function"@, ident) ==> t.python_decision(ident, p) is None,
        0 <= cur < t.len() && t.nodes@[cur].parent == Some(p as usize) && t.in_field(p, "function"@, ident)
            ==> t.classify_from(Lang::Python, ident, cur, steps + 1) == RefKind::Call,
{
    reveal_strlit("call");
    reveal_strlit("import_statement");
    reveal_strlit("import_from_statement");
    reveal_strlit("aliased_import");
    reveal_strlit("dotted_name");
    reveal_strlit("function_definition");
    reveal_strlit("class_definition");
    reveal_strlit("assignment");
    reveal_strlit("augmented_assignment");
    let k = t.nodes@[p].kind@;
    assert(k.len() == 4);
    assert("import_statement"@.len() == 16 && "import_from_statement"@.len() == 21 && "aliased_import"@.len() == 14);
    assert("dotted_name"@.len() == 11 && "function_definition"@.len() == 19 && "class_definition"@.len() == 16);
    assert("assignment"@.len() == 10 && "augmented_assignment"@.len() == 20);
    assert(k != "import_statement"@ && k != "import_from_statement"@ && k != "aliased_import"@);
    assert(k != "dotted_name"@ && k != "function_definition"@ && k != "class_definition"@);
    assert(k != "assignment"@ && k != "augmented_assignment"@);
    if 0 <= cur < t.len() && t.nodes@[cur].parent == Some(p as usize) && t.in_field(p, "function"@, ident) {
        assert(!Lang::Python.is_js_family());
        assert(t.classify_from(Lang::Python, ident, cur, steps + 1) == RefKind::Call);
    }
}

/// The search for the function enclosing a line finds the innermost one: the
/// rows it gives end where a function-like node ends that the search reaches
/// (it and its ancestors span the line), and no function-like node that the
/// search reaches spans fewer rows. It finds none only when the search
/// reaches no function-like node.
pub proof fn lemma_enclosing_is_innermost(t: SyntaxTree, src: Seq<char>, line: int, lang: Lang)
    ensures
        match enclosing_function(t, src, line, lang) {
            None => forall|j: int| 0 <= j < t.len() ==> !(t.reaches(j, line)
                && #[trigger] lang.function_kinds().contains(t.nodes@[j].kind@)),
            Some(r) => exists|b: int| {
                &&& 0 <= b < t.len()
                &&& t.reaches(b, line)
                &&& lang.function_kinds().contains(t.nodes@[b].kind@)
                &&& r.1 == t.nodes@[b].end_row
                &&& forall|j: int| 0 <= j < t.len() && t.reaches(j, line)
                    && #[trigger] lang.function_kinds().contains(t.nodes@[j].kind@) ==> t.row_span(b) <= t.row_span(j)
            },
        },
{
    lemma_smallest_enclosing(t, t.len() as int, line, lang.function_kinds());
}

proof fn lemma_smallest_enclosing(t: SyntaxTree, k: int, line: int, kinds: Seq<Seq<char>>)
    requires
        k <= t.len(),
    ensures
        match t.smallest_enclosing(k, line, kinds) {
            None => forall|j: int| 0 <= j < k ==> !(t.reaches(j, line) && #[trigger] kinds.contains(t.nodes@[j].kind@)),
            Some(b) => {
                &&& 0 <= b < k
                &&& t.reaches(b, line)
                &&& kinds.contains(t.nodes@[b].kind@)
                &&& forall|j: int| 0 <= j < k && t.reaches(j, line) && #[trigger] kinds.contains(t.nodes@[j].kind@)
                    ==> t.row_span(b) <= t.row_span(j)
            },
        },
    decreases k,
{
    if k > 0 {
        lemma_smallest_enclosing(t, k - 1, line, kinds);
    }
}

/// A member of a class body that `ctx symbols` lists: a method, a field or a
/// method signature.
pub open spec fn is_member_kind(k: Seq<char>) -> bool {
    k == "method_definition"@ || k == "public_field_definition"@ || k == "method_signature"@
}

/// The symbol listed for class member `m`: its name, `method` or `field`
/// (with `static ` in front for a static method or field), its row and the
/// first line of its text.
pub open spec fn member_symbol(t: SyntaxTree, src: Seq<char>, m: int) -> SymSpec {
    let mk = t.nodes@[m].kind@;
    let label = if mk == "method_signature"@ {
        "method"@
    } else {
        (if t.has_child_of_kind(m, "static"@) { "static "@ } else { ""@ })
            + (if mk == "method_definition"@ { "method"@ } else { "field"@ })
    };
    (t.field_text_or(src, m, "name"@, "?"@), label, t.nodes@[m].start_row as int, first_line_at(src, t.nodes@[m].start as int))
}

/// `s` is the symbol of some member of class body `b`.
pub open spec fn is_member_symbol_of(t: SyntaxTree, src: Seq<char>, b: int, s: SymSpec) -> bool {
    exists|m: int| 0 <= m < t.len() && t.is_child(b, m) && is_member_kind(t.nodes@[m].kind@)
        && s == #[trigger] member_symbol(t, src, m)
}

/// An exported TypeScript class lists the class itself, then its members: the
/// class as `class` with its name, row and first line; after it, one symbol
/// per method, field or method signature of its class body `b`, and nothing
/// else.
pub proof fn lemma_exported_class_members(t: SyntaxTree, src: Seq<char>, x: int, c: int, b: int)
    requires
        t.wf(),
        0 <= c < t.len(),
        t.nodes@[c].kind@ == "class_declaration"@,
        t.name_of(src, c) is Some,
        t.descendant_of_kind(c, "class_body"@) == Some(b),
    ensures
        t.export_child_syms(src, x, c).len() >= 1,
        t.export_child_syms(src, x, c)[0] == (t.name_of(src, c)->0, "class"@, t.nodes@[c].start_row as int,
            first_line_at(src, t.nodes@[c].start as int)),
        forall|m: int| 0 <= m < t.len() && t.is_child(b, m) && #[trigger] is_member_kind(t.nodes@[m].kind@)
            ==> t.export_child_syms(src, x, c).drop_first().contains(member_symbol(t, src, m)),
        forall|q: int| 1 <= q < t.export_child_syms(src, x, c).len()
            ==> is_member_symbol_of(t, src, b, #[trigger] t.export_child_syms(src, x, c)[q]),
{
    reveal_strlit("class_declaration");
    reveal_strlit("abstract_class_declaration");
    reveal_strlit("function_declaration");
    reveal_strlit("generator_function_declaration");
    reveal_strlit("lexical_declaration");
    let k = t.nodes@[c].kind@;
    assert(k.len() == 17);
    assert("abstract_class_declaration"@.len() == 26 && "function_declaration"@.len() == 20);
    assert("generator_function_declaration"@.len() == 30 && "lexical_declaration"@.len() == 19);
    assert(k != "function_declaration"@ && k != "generator_function_declaration"@ && k != "lexical_declaration"@);
    assert(k != "abstract_class_declaration"@);
    crate::ts::lemma_first_where_bounds(c + 1, t.end_of(c), |j: int| t.nodes@[j].kind@ == "class_body"@);
    let ms = t.body_syms(src, b, t.end_of(b));
    lemma_body_syms(t, src, b, t.end_of(b));
    let head = t.named_sym(src, c, "class"@, c);
    let syms = t.export_child_syms(src, x, c);
    assert(syms == head + ms);
    assert(head.len() == 1);
    assert(syms.drop_first() == ms);
    assert forall|m: int| 0 <= m < t.len() && t.is_child(b, m) && #[trigger] is_member_kind(t.nodes@[m].kind@)
        implies syms.drop_first().contains(member_symbol(t, src, m)) by {
        assert(b < m);
        assert(m < t.end_of(b));
    }
    assert forall|q: int| 1 <= q < syms.len() implies is_member_symbol_of(t, src, b, #[trigger] syms[q]) by {
        assert(syms[q] == ms[q - 1]);
        let m = choose|m: int| b < m < t.end_of(b) && t.is_child(b, m)
            && is_member_kind(t.nodes@[m].kind@) && ms[q - 1] == #[trigger] member_symbol(t, src, m);
        assert(m < t.len());
        assert(is_member_symbol_of(t, src, b, syms[q]));
    }
    assert(syms[0] == head[0]);
}

proof fn lemma_body_syms(t: SyntaxTree, src: Seq<char>, b: int, k: int)
    requires
        t.wf(),
        0 <= b < t.len(),
        k <= t.len(),
    ensures
        forall|m: int| b < m < k && t.is_child(b, m) && #[trigger] is_member_kind(t.nodes@[m].kind@)
            ==> t.body_syms(src, b, k).contains(member_symbol(t, src, m)),
        forall|q: int| #![trigger t.body_syms(src, b, k)[q]] 0 <= q < t.body_syms(src, b, k).len() ==> exists|m: int| b < m < k && t.is_child(b, m)
            && is_member_kind(t.nodes@[m].kind@) && t.body_syms(src, b, k)[q] == #[trigger] member_symbol(t, src, m),
    decreases k - b,
{
    if k > b + 1 {
        lemma_body_syms(t, src, b, k - 1);
        let prev = t.body_syms(src, b, k - 1);
        let cur = t.body_syms(src, b, k);
        let m = k - 1;
        reveal_strlit("method_definition");
        reveal_strlit("public_field_definition");
        reveal_strlit("method_signature");
        assert("method_definition"@.len() == 17 && "public_field_definition"@.len() == 23 && "method_signature"@.len() == 16);
        let mk = t.nodes@[m].kind@;
        if t.is_child(b, m) && is_member_kind(mk) {
            assert(mk == "method_signature"@ ==> mk != "method_definition"@ && mk != "public_field_definition"@);
            assert(cur == prev.push(member_symbol(t, src, m)));
        } else {
            assert(cur == prev);
        }
        assert forall|mm: int| b < mm < k && t.is_child(b, mm) && #[trigger] is_member_kind(t.nodes@[mm].kind@)
            implies cur.contains(member_symbol(t, src, mm)) by {
            if mm == m {
                assert(cur[cur.len() - 1] == member_symbol(t, src, m));
            } else {
                let q = choose|q: int| 0 <= q < prev.len() && prev[q] == member_symbol(t, src, mm);
                assert(cur[q] == prev[q]);
            }
        }
        assert forall|q: int| #![trigger cur[q]] 0 <= q < cur.len() implies exists|mm: int| b < mm < k && t.is_child(b, mm)
            && is_member_kind(t.nodes@[mm].kind@) && cur[q] == #[trigger] member_symbol(t, src, mm) by {
            if q < prev.len() {
                assert(cur[q] == prev[q]);
                let mm = choose|mm: int| b < mm < k - 1 && t.is_child(b, mm)
                    && is_member_kind(t.nodes@[mm].kind@) && prev[q] == #[trigger] member_symbol(t, src, mm);
            } else {
                assert(cur[q] == member_symbol(t, src, m));
            }
        }
    }
}

} // verus!
