//! `ctx tree`: the directory tree drawn with box-drawing connectors.
use vstd::prelude::*;
use crate::commands::flow::{sort_paths, sorted_paths};
use crate::paths::{
    compare_paths, file_name, file_name_of, file_name_or_empty, last_ancestor, last_ancestor_of, name_or_empty, parent,
    parent_of, path_order_of, path_starts_with, path_starts_with_of, strip_prefix, strip_prefix_of,
};
use crate::text::{chars_of, concat_n, lemma_concat_n_succ, push_all, push_str, string_of};

verus! {

/// The options of `ctx tree`.
pub struct TreeArgs {
    /// Root directory to show the tree of.
    pub path: String,
    /// Maximum depth to traverse.
    pub max_depth: usize,
    /// Include gitignored files.
    pub no_gitignore: bool,
    /// Filter output through the assistant with a question.
    pub ask: Option<String>,
    /// Output as JSON.
    pub json: bool,
}

/// The directories that the tree never enters.
pub open spec fn is_tree_noise(name: Seq<char>) -> bool {
    name == "node_modules"@ || name == ".git"@ || name == "dist"@ || name == "build"@ || name == ".next"@
        || name == "__pycache__"@ || name == "target"@ || name == ".turbo"@ || name == ".cache"@
        || name == ".parcel-cache"@
}

/// Whether the walk of `ctx tree` skips an entry of this name.
pub fn is_tree_noise_dir(name: &str) -> (b: bool)
    ensures
        b == is_tree_noise(name@),
{
    name.eq("node_modules") || name.eq(".git") || name.eq("dist") || name.eq("build") || name.eq(".next")
        || name.eq("__pycache__") || name.eq("target") || name.eq(".turbo") || name.eq(".cache")
        || name.eq(".parcel-cache")
}

/// `p` relative to `root`, or `p` when `root` is not a prefix of it.
pub open spec fn rel_path(p: Seq<char>, root: Seq<char>) -> Seq<char> {
    match strip_prefix_of(p, root) {
        Some(r) => r,
        None => p,
    }
}

/// `p` without its root (`p.strip_prefix(p.ancestors().last())`).
pub open spec fn rootless(p: Seq<char>) -> Seq<char> {
    rel_path(p, last_ancestor_of(p))
}

/// Whether `rel`'s parent is the path `p` (equal as paths).
pub open spec fn is_child_of(rel: Seq<char>, p: Seq<char>) -> bool {
    parent_of(rel) matches Some(q) && path_order_of(q, p) == 0
}

/// The entries whose parent is `p`, in order: what the map of `format_tree`
/// holds under the key `p`.
pub open spec fn kids(rels: Seq<Seq<char>>, p: Seq<char>) -> Seq<Seq<char>>
    decreases rels.len(),
{
    if rels.len() == 0 {
        seq![]
    } else {
        let prev = kids(rels.drop_last(), p);
        if is_child_of(rels.last(), p) { prev.push(rels.last()) } else { prev }
    }
}

/// Whether some entry has `p` as parent (the map has the key `p`).
pub open spec fn has_kids(rels: Seq<Seq<char>>, p: Seq<char>) -> bool {
    exists|i: int| 0 <= i < rels.len() && #[trigger] is_child_of(rels[i], p)
}

/// `s` without the elements equal (as paths) to the one kept before them (`Vec::dedup`).
pub open spec fn dedup_paths(s: Seq<Seq<char>>) -> Seq<Seq<char>>
    decreases s.len(),
{
    if s.len() == 0 {
        seq![]
    } else {
        let d = dedup_paths(s.drop_last());
        if d.len() > 0 && path_order_of(s.last(), d.last()) == 0 { d } else { d.push(s.last()) }
    }
}

/// The children of `p` as drawn: sorted and without duplicates.
pub open spec fn shown_kids(rels: Seq<Seq<char>>, p: Seq<char>) -> Seq<Seq<char>> {
    dedup_paths(sorted_paths(kids(rels, p)))
}

/// Whether a child is drawn as a directory: it has children, or some entry
/// (without its root) lies strictly below it.
pub open spec fn drawn_as_dir(rels: Seq<Seq<char>>, bare: Seq<Seq<char>>, child: Seq<char>) -> bool {
    ||| has_kids(rels, child)
    ||| exists|i: int| 0 <= i < bare.len() && #[trigger] path_starts_with_of(bare[i], child)
        && path_order_of(bare[i], child) != 0
}

/// The lines of `children[k..]` under `prefix`, descending at most `fuel` more levels.
pub open spec fn children_text(rels: Seq<Seq<char>>, bare: Seq<Seq<char>>, children: Seq<Seq<char>>, prefix: Seq<char>,
    fuel: nat, k: int) -> Seq<char>
    decreases fuel, children.len() - k, 1int,
{
    if k < 0 || k >= children.len() {
        seq![]
    } else {
        child_text(rels, bare, children[k], k == children.len() - 1, prefix, fuel)
            + children_text(rels, bare, children, prefix, fuel, k + 1)
    }
}

/// The line of one child, then its own children one level deeper.
pub open spec fn child_text(rels: Seq<Seq<char>>, bare: Seq<Seq<char>>, child: Seq<char>, last: bool, prefix: Seq<char>,
    fuel: nat) -> Seq<char>
    decreases fuel, 0int, 0int,
{
    prefix + (if last { "└── "@ } else { "├── "@ }) + name_or_empty(child)
        + (if drawn_as_dir(rels, bare, child) { "/ \n"@ } else { "\n"@ })
        + if has_kids(rels, child) && fuel > 0 {
            children_text(rels, bare, shown_kids(rels, child), prefix + (if last { "    "@ } else { "│   "@ }),
                (fuel - 1) as nat, 0)
        } else {
            seq![]
        }
}


/// The drawing of the tree: the root's name, then its children, descending
/// at most one level per entry.
pub open spec fn tree_text(root: Seq<char>, entries: Seq<Seq<char>>) -> Seq<char> {
    let rels = entries.map_values(|e: Seq<char>| rel_path(e, root));
    let bare = entries.map_values(|e: Seq<char>| rootless(e));
    let root_name = match file_name_of(root) { Some(n) => n, None => root };
    root_name + "/\n"@ + if has_kids(rels, seq![]) {
        children_text(rels, bare, shown_kids(rels, seq![]), seq![], entries.len(), 0)
    } else {
        seq![]
    }
}

fn kids_exec(rels: &Vec<String>, p: &str) -> (r: Vec<String>)
    ensures
        r@.map_values(|s: String| s@) == kids(rels@.map_values(|s: String| s@), p@),
        r@.len() > 0 <==> has_kids(rels@.map_values(|s: String| s@), p@),
{
    let ghost rv = rels@.map_values(|s: String| s@);
    let mut out: Vec<String> = Vec::new();
    for i in 0..rels.len()
        invariant
            rv == rels@.map_values(|s: String| s@),
            out@.map_values(|s: String| s@) == kids(rv.take(i as int), p@),
            out@.len() > 0 <==> exists|j: int| 0 <= j < i && #[trigger] is_child_of(rv[j], p@),
    {
        assert(rv.take(i + 1).drop_last() == rv.take(i as int));
        assert(rv.take(i + 1).last() == rels@[i as int]@);
        let ghost ov = out@.map_values(|s: String| s@);
        let child = match parent(rels[i].as_str()) {
            Some(q) => compare_paths(q.as_str(), p) == 0,
            None => false,
        };
        assert(child == is_child_of(rv[i as int], p@));
        if child {
            out.push(rels[i].clone());
            assert(out@.map_values(|s: String| s@) == ov.push(rels@[i as int]@));
        }
    }
    assert(rv.take(rels@.len() as int) == rv);
    out
}

fn dedup_exec(s: Vec<String>) -> (r: Vec<String>)
    ensures
        r@.map_values(|x: String| x@) == dedup_paths(s@.map_values(|x: String| x@)),
{
    let ghost sv = s@.map_values(|x: String| x@);
    let mut out: Vec<String> = Vec::new();
    for i in 0..s.len()
        invariant
            sv == s@.map_values(|x: String| x@),
            out@.map_values(|x: String| x@) == dedup_paths(sv.take(i as int)),
    {
        assert(sv.take(i + 1).drop_last() == sv.take(i as int));
        assert(sv.take(i + 1).last() == s@[i as int]@);
        let ghost ov = out@.map_values(|x: String| x@);
        let n = out.len();
        let same = n > 0 && compare_paths(s[i].as_str(), out[n - 1].as_str()) == 0;
        if !same {
            out.push(s[i].clone());
            assert(out@.map_values(|x: String| x@) == ov.push(s@[i as int]@));
        }
    }
    assert(sv.take(s@.len() as int) == sv);
    out
}

fn shown_kids_exec(rels: &Vec<String>, p: &str) -> (r: Vec<String>)
    ensures
        r@.map_values(|s: String| s@) == shown_kids(rels@.map_values(|s: String| s@), p@),
{
    let k = kids_exec(rels, p);
    let sorted = sort_paths(k);
    dedup_exec(sorted)
}

fn drawn_as_dir_exec(rels: &Vec<String>, bare: &Vec<String>, child: &str) -> (b: bool)
    ensures
        b == drawn_as_dir(rels@.map_values(|s: String| s@), bare@.map_values(|s: String| s@), child@),
{
    let k = kids_exec(rels, child);
    if k.len() > 0 {
        return true;
    }
    let ghost bv = bare@.map_values(|s: String| s@);
    for i in 0..bare.len()
        invariant
            bv == bare@.map_values(|s: String| s@),
            forall|j: int| 0 <= j < i ==> !(#[trigger] path_starts_with_of(bv[j], child@) && path_order_of(bv[j], child@) != 0),
    {
        assert(bv[i as int] == bare@[i as int]@);
        if path_starts_with(bare[i].as_str(), child) && compare_paths(bare[i].as_str(), child) != 0 {
            return true;
        }
    }
    false
}

fn push_children(out: &mut Vec<char>, rels: &Vec<String>, bare: &Vec<String>, children: &Vec<String>,
    prefix: &Vec<char>, fuel: usize)
    ensures
        final(out)@ == old(out)@ + children_text(rels@.map_values(|s: String| s@), bare@.map_values(|s: String| s@),
            children@.map_values(|s: String| s@), prefix@, fuel as nat, 0),
    decreases fuel, 1int,
{
    let ghost rv = rels@.map_values(|s: String| s@);
    let ghost bv = bare@.map_values(|s: String| s@);
    let ghost cv = children@.map_values(|s: String| s@);
    let ghost start = out@;
    let n = children.len();
    for k in 0..n
        invariant
            n == children@.len(),
            rv == rels@.map_values(|s: String| s@),
            bv == bare@.map_values(|s: String| s@),
            cv == children@.map_values(|s: String| s@),
            start + children_text(rv, bv, cv, prefix@, fuel as nat, 0) == out@ + children_text(rv, bv, cv, prefix@, fuel as nat, k as int),
    {
        let ghost before = out@;
        push_child(out, rels, bare, children[k].as_str(), k == n - 1, prefix, fuel);
        assert(cv[k as int] == children@[k as int]@);
        assert(children_text(rv, bv, cv, prefix@, fuel as nat, k as int)
            == child_text(rv, bv, cv[k as int], k == n - 1, prefix@, fuel as nat)
                + children_text(rv, bv, cv, prefix@, fuel as nat, k + 1));
    }
    assert(children_text(rv, bv, cv, prefix@, fuel as nat, n as int) == Seq::<char>::empty());
}

fn push_child(out: &mut Vec<char>, rels: &Vec<String>, bare: &Vec<String>, child: &str, last: bool,
    prefix: &Vec<char>, fuel: usize)
    ensures
        final(out)@ == old(out)@ + child_text(rels@.map_values(|s: String| s@), bare@.map_values(|s: String| s@),
            child@, last, prefix@, fuel as nat),
    decreases fuel, 0int,
{
    push_all(out, prefix);
    push_str(out, if last { "└── " } else { "├── " });
    let name = file_name_or_empty(child);
    push_all(out, &name);
    let dir = drawn_as_dir_exec(rels, bare, child);
    push_str(out, if dir { "/ \n" } else { "\n" });
    let sub = kids_exec(rels, child);
    if sub.len() > 0 && fuel > 0 {
        let shown = shown_kids_exec(rels, child);
        let mut np: Vec<char> = Vec::new();
        push_all(&mut np, prefix);
        push_str(&mut np, if last { "    " } else { "│   " });
        push_children(out, rels, bare, &shown, &np, fuel - 1);
    }
}

/// Draws the tree of the walked entries below `root`.
pub fn format_tree(root: &str, entries: &Vec<String>) -> (r: String)
    ensures
        r@ == tree_text(root@, entries@.map_values(|s: String| s@)),
{
    let ghost ev = entries@.map_values(|s: String| s@);
    let mut rels: Vec<String> = Vec::new();
    let mut bare: Vec<String> = Vec::new();
    for i in 0..entries.len()
        invariant
            ev == entries@.map_values(|s: String| s@),
            rels@.map_values(|s: String| s@) == ev.take(i as int).map_values(|e: Seq<char>| rel_path(e, root@)),
            bare@.map_values(|s: String| s@) == ev.take(i as int).map_values(|e: Seq<char>| rootless(e)),
    {
        let e = entries[i].as_str();
        let ghost rv = rels@.map_values(|s: String| s@);
        let ghost bv = bare@.map_values(|s: String| s@);
        let r = match strip_prefix(e, root) { Some(x) => x, None => e.to_owned() };
        let top = last_ancestor(e);
        let b = match strip_prefix(e, top.as_str()) { Some(x) => x, None => e.to_owned() };
        rels.push(r);
        bare.push(b);
        assert(ev.take(i + 1) == ev.take(i as int).push(ev[i as int]));
        assert(rels@.map_values(|s: String| s@) == rv.push(rel_path(ev[i as int], root@)));
        assert(bare@.map_values(|s: String| s@) == bv.push(rootless(ev[i as int])));
    }
    assert(ev.take(entries@.len() as int) == ev);
    let mut out: Vec<char> = Vec::new();
    match file_name(root) {
        Some(n) => push_str(&mut out, n.as_str()),
        None => push_str(&mut out, root),
    }
    push_str(&mut out, "/\n");
    let ghost head = out@;
    let ghost root_name = match file_name_of(root@) { Some(n) => n, None => root@ };
    assert(head == root_name + "/\n"@);
    let ghost rv = ev.map_values(|e: Seq<char>| rel_path(e, root@));
    let ghost bv = ev.map_values(|e: Seq<char>| rootless(e));
    assert(rels@.map_values(|s: String| s@) == rv);
    assert(bare@.map_values(|s: String| s@) == bv);
    let top = kids_exec(&rels, "");
    proof {
        reveal_strlit("");
        assert(""@ == Seq::<char>::empty());
    }
    if top.len() > 0 {
        let shown = shown_kids_exec(&rels, "");
        let prefix: Vec<char> = Vec::new();
        push_children(&mut out, &rels, &bare, &shown, &prefix, entries.len());
    }
    string_of(&out)
}

} // verus!
