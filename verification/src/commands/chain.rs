//! `ctx chain`: the import graph of a project, traversals of it, and the path
//! between two files.
use vstd::prelude::*;
use crate::text::{chars_of, concat_n, decimal, lemma_concat_n_succ, push_decimal, push_repeat, push_str, repeat, string_of};
use crate::paths::{has_extension, has_extension_exec, join, join_of, name_or_empty, parent, parent_of, strip_prefix, strip_prefix_of};
use crate::commands::grep::is_test_name;
use crate::text::{starts_with, starts_with_exec};
use crate::ts::{grammar_accepted_of, is_parse_of, extract_imports, lang_of_path, parse, ImportInfo, Lang, SyntaxTree};

verus! {

/// The options of `ctx chain`.
pub struct ChainArgs {
    /// Target file to trace.
    pub file: String,
    /// Second file: find the import path from `file` to it.
    pub to: Option<String>,
    /// Forward traversal (what the file imports) instead of reverse.
    pub forward: bool,
    /// Maximum traversal depth.
    pub max_depth: usize,
    /// Filter source files by extension.
    pub file_type: Option<String>,
    /// Exclude test files.
    pub no_tests: bool,
    /// Show skeletons of the files found.
    pub skeleton: bool,
}

// ---------------------------------------------------------------------------
// The project root: the nearest directory above a file that holds `.git`
// ---------------------------------------------------------------------------

/// Where the search for the project root goes after looking at a directory.
pub enum RootStep {
    /// The directory holds the marker: it is the root.
    Found(String),
    /// Look in this directory next (the parent of the one looked at).
    Next(String),
    /// No directory is left to look in: there is no root.
    NotFound,
}

/// The directory the search for `file`'s project root starts in: its parent.
pub fn root_search_start(file: &str) -> (r: Option<String>)
    ensures
        r matches Some(d) ==> parent_of(file@) == Some(d@),
        r is None ==> parent_of(file@) is None,
{
    parent(file)
}

/// The path whose existence makes `dir` the project root: `dir/.git`.
pub fn root_marker(dir: &str) -> (r: String)
    ensures
        r@ == join_of(dir@, ".git"@),
{
    join(dir, ".git")
}

/// One step of the search for the project root, given whether the marker of
/// `dir` exists: `dir` is the root, or the search goes on in its parent, or
/// it ends without a root when `dir` has no parent.
pub fn root_step(dir: &str, marker_exists: bool) -> (r: RootStep)
    ensures
        marker_exists ==> (r matches RootStep::Found(d) && d@ == dir@),
        !marker_exists ==> match parent_of(dir@) {
            Some(p) => r matches RootStep::Next(d) && d@ == p,
            None => r is NotFound,
        },
{
    if marker_exists {
        return RootStep::Found(dir.to_string());
    }
    match parent(dir) {
        Some(p) => RootStep::Next(p),
        None => RootStep::NotFound,
    }
}

/// Adjacency lists over the nodes `0..n`.
pub open spec fn adj_wf(adj: Seq<Vec<usize>>, n: nat) -> bool {
    &&& adj.len() == n
    &&& forall|u: int, k: int| 0 <= u < n && 0 <= k < adj[u]@.len() ==> (#[trigger] adj[u]@[k]) < n
}

/// The import graph: each file (a canonical path) once, with the files it
/// imports (`forward`) and the files that import it (`reverse`).
pub struct ImportGraph {
    pub files: Vec<String>,
    pub forward: Vec<Vec<usize>>,
    pub reverse: Vec<Vec<usize>>,
}

/// Each edge is recorded in both directions, as often in each: file `b`
/// occurs in `a`'s imports as often as `a` occurs in `b`'s importers.
pub open spec fn edges_mirrored(forward: Seq<Vec<usize>>, reverse: Seq<Vec<usize>>, n: nat) -> bool {
    forall|a: int, b: int| 0 <= a < n && 0 <= b < n ==>
        (#[trigger] forward[a]@.to_multiset()).count(b as usize) == (#[trigger] reverse[b]@.to_multiset()).count(a as usize)
}

impl ImportGraph {
    pub open spec fn wf(&self) -> bool {
        &&& adj_wf(self.forward@, self.files@.len())
        &&& adj_wf(self.reverse@, self.files@.len())
        &&& forall|i: int, j: int| 0 <= i < j < self.files@.len() ==> self.files@[i]@ != self.files@[j]@
        &&& edges_mirrored(self.forward@, self.reverse@, self.files@.len())
    }

    /// The index of a file in the graph.
    pub open spec fn index_of(&self, p: Seq<char>) -> Option<int> {
        if exists|i: int| 0 <= i < self.files@.len() && self.files@[i]@ == p {
            Some(choose|i: int| 0 <= i < self.files@.len() && self.files@[i]@ == p)
        } else {
            None
        }
    }

    /// An empty graph.
    pub fn new() -> (g: ImportGraph)
        ensures
            g.wf(),
            g.files@.len() == 0,
    {
        ImportGraph { files: Vec::new(), forward: Vec::new(), reverse: Vec::new() }
    }

    /// The index of file `p`, if it is in the graph.
    pub fn find(&self, p: &str) -> (r: Option<usize>)
        requires
            self.wf(),
        ensures
            r matches Some(i) ==> self.index_of(p@) == Some(i as int) && i < self.files@.len(),
            r is None ==> self.index_of(p@) is None,
    {
        for i in 0..self.files.len()
            invariant
                self.wf(),
                forall|j: int| 0 <= j < i ==> self.files@[j]@ != p@,
        {
            if self.files[i].as_str().eq(p) {
                proof {
                    let c = choose|c: int| 0 <= c < self.files@.len() && self.files@[c]@ == p@;
                    if c != i {
                        if c < i { assert(self.files@[c]@ != p@); }
                        else { assert(self.files@[i as int]@ != self.files@[c]@); }
                    }
                }
                return Some(i);
            }
        }
        None
    }

    /// The index of file `p`, adding it (with no imports) when it is new.
    pub fn intern(&mut self, p: &str) -> (r: usize)
        requires
            old(self).wf(),
        ensures
            final(self).wf(),
            r < final(self).files@.len(),
            final(self).files@[r as int]@ == p@,
            final(self).index_of(p@) == Some(r as int),
            old(self).index_of(p@) is Some ==> *final(self) == *old(self),
            old(self).index_of(p@) is None ==> {
                &&& final(self).files@ == old(self).files@.push(final(self).files@[r as int])
                &&& final(self).forward@.drop_last() == old(self).forward@
                &&& final(self).reverse@.drop_last() == old(self).reverse@
                &&& final(self).forward@.len() == old(self).forward@.len() + 1
                &&& final(self).reverse@.len() == old(self).reverse@.len() + 1
                &&& final(self).forward@[r as int]@.len() == 0
                &&& final(self).reverse@[r as int]@.len() == 0
                &&& r == old(self).files@.len()
            },
    {
        match self.find(p) {
            Some(i) => i,
            None => {
                let n = self.files.len();
                self.files.push(p.to_owned());
                self.forward.push(Vec::new());
                self.reverse.push(Vec::new());
                proof {
                    broadcast use vstd::seq_lib::group_to_multiset_ensures;
                    assert forall|i: int, j: int| 0 <= i < j < self.files@.len() implies
                        self.files@[i]@ != self.files@[j]@ by {
                        if j == n {
                            assert(old(self).files@[i]@ != p@);
                        }
                    }
                    assert forall|a: int, b: int| 0 <= a < self.files@.len() && 0 <= b < self.files@.len() implies
                        (#[trigger] self.forward@[a]@.to_multiset()).count(b as usize)
                            == (#[trigger] self.reverse@[b]@.to_multiset()).count(a as usize) by {
                        if a == n {
                            assert(self.forward@[a]@ =~= Seq::<usize>::empty());
                            if b < n {
                                assert(self.reverse@[b] == old(self).reverse@[b]);
                                assert forall|k: int| 0 <= k < self.reverse@[b]@.len() implies self.reverse@[b]@[k] != a as usize by {}
                                assert(!self.reverse@[b]@.contains(a as usize));
                            } else {
                                assert(self.reverse@[b]@ =~= Seq::<usize>::empty());
                            }
                        } else if b == n {
                            assert(self.reverse@[b]@ =~= Seq::<usize>::empty());
                            assert(self.forward@[a] == old(self).forward@[a]);
                            assert(!self.forward@[a]@.contains(b as usize));
                        } else {
                            assert(self.forward@[a] == old(self).forward@[a]);
                            assert(self.reverse@[b] == old(self).reverse@[b]);
                        }
                    }
                    assert(self.files@[n as int]@ == p@);
                    let c = choose|c: int| 0 <= c < self.files@.len() && self.files@[c]@ == p@;
                    if c != n { assert(self.files@[c]@ != self.files@[n as int]@); }
                }
                n
            },
        }
    }

    /// Records that file `from` imports file `to`; returns the indices of the two files.
    pub fn add_import(&mut self, from: &str, to: &str) -> (r: (usize, usize))
        requires
            old(self).wf(),
        ensures
            final(self).wf(),
            final(self).files@.len() >= old(self).files@.len(),
            forall|i: int| 0 <= i < old(self).files@.len() ==> #[trigger] final(self).files@[i] == old(self).files@[i],
            r.0 < final(self).files@.len(),
            r.1 < final(self).files@.len(),
            final(self).files@[r.0 as int]@ == from@,
            final(self).files@[r.1 as int]@ == to@,
            final(self).forward@[r.0 as int]@ == ids_or_empty(old(self).forward@, r.0 as int).push(r.1),
            final(self).reverse@[r.1 as int]@ == ids_or_empty(old(self).reverse@, r.1 as int).push(r.0),
            forall|u: int| 0 <= u < final(self).files@.len() && u != r.0 ==>
                #[trigger] final(self).forward@[u]@ == ids_or_empty(old(self).forward@, u),
            forall|u: int| 0 <= u < final(self).files@.len() && u != r.1 ==>
                #[trigger] final(self).reverse@[u]@ == ids_or_empty(old(self).reverse@, u),
    {
        let a = self.intern(from);
        let b = self.intern(to);
        let ghost g = *self;
        let mut fa = copy_ids(&self.forward[a]);
        fa.push(b);
        self.forward.set(a, fa);
        let mut rb = copy_ids(&self.reverse[b]);
        rb.push(a);
        self.reverse.set(b, rb);
        proof {
            assert forall|u: int, k: int| 0 <= u < self.files@.len() && 0 <= k < self.forward@[u]@.len() implies
                (#[trigger] self.forward@[u]@[k]) < self.files@.len() by {
                if u != a { assert(self.forward@[u] == g.forward@[u]); }
            }
            assert forall|u: int, k: int| 0 <= u < self.files@.len() && 0 <= k < self.reverse@[u]@.len() implies
                (#[trigger] self.reverse@[u]@[k]) < self.files@.len() by {
                if u != b { assert(self.reverse@[u] == g.reverse@[u]); }
            }
            broadcast use vstd::seq_lib::group_to_multiset_ensures;
            assert forall|x: int, y: int| 0 <= x < self.files@.len() && 0 <= y < self.files@.len() implies
                (#[trigger] self.forward@[x]@.to_multiset()).count(y as usize)
                    == (#[trigger] self.reverse@[y]@.to_multiset()).count(x as usize) by {
                assert(g.forward@[x]@.to_multiset().count(y as usize) == g.reverse@[y]@.to_multiset().count(x as usize));
                assert(self.files@.len() == self.files.len());
                let xu = x as usize;
                let yu = y as usize;
                assert(xu as int == x && yu as int == y);
                if x == a {
                    assert(self.forward@[x]@ == g.forward@[x]@.push(b));
                    assert(self.forward@[x]@.to_multiset() == g.forward@[x]@.to_multiset().insert(b));
                    if y == b {
                        assert(yu == b);
                    } else {
                        assert(yu != b);
                    }
                } else {
                    assert(self.forward@[x] == g.forward@[x]);
                }
                if y == b {
                    assert(self.reverse@[y]@ == g.reverse@[y]@.push(a));
                    assert(self.reverse@[y]@.to_multiset() == g.reverse@[y]@.to_multiset().insert(a));
                    if x == a {
                        assert(xu == a);
                    } else {
                        assert(xu != a);
                    }
                } else {
                    assert(self.reverse@[y] == g.reverse@[y]);
                }
            }
        }
        (a, b)
    }
}

// ---------------------------------------------------------------------------
// The graph of a project's resolved imports
// ---------------------------------------------------------------------------

/// A file with the resolution of each of its local imports (`None` where the
/// import resolved to no file), as plain values.
pub open spec fn resolved_view(f: (String, Vec<Option<String>>)) -> (Seq<char>, Seq<Option<Seq<char>>>) {
    (f.0@, f.1@.map_values(|r: Option<String>| match r { Some(s) => Some(s@), None => None }))
}

/// The files with their resolutions, as plain values.
pub open spec fn resolved_files(files: Seq<(String, Vec<Option<String>>)>) -> Seq<(Seq<char>, Seq<Option<Seq<char>>>)> {
    files.map_values(|f: (String, Vec<Option<String>>)| resolved_view(f))
}

/// How many of the resolutions `rs` are `b`.
pub open spec fn count_resolved(rs: Seq<Option<Seq<char>>>, b: Seq<char>) -> nat
    decreases rs.len(),
{
    if rs.len() == 0 {
        0
    } else {
        count_resolved(rs.drop_last(), b) + if rs.last() == Some(b) { 1nat } else { 0nat }
    }
}

/// How many imports of file `a` resolve to file `b`, over the first `i` files
/// and the first `j` imports of file `i`.
pub open spec fn edges_upto(fs: Seq<(Seq<char>, Seq<Option<Seq<char>>>)>, i: int, j: int, a: Seq<char>, b: Seq<char>) -> nat
    decreases i,
{
    if i <= 0 {
        if 0 < fs.len() && fs[0].0 == a { count_resolved(fs[0].1.take(j), b) } else { 0 }
    } else {
        edges_upto(fs, i - 1, fs[i - 1].1.len() as int, a, b)
            + if i < fs.len() && fs[i].0 == a { count_resolved(fs[i].1.take(j), b) } else { 0 }
    }
}

/// How many imports of file `a` resolve to file `b`, over all the files.
pub open spec fn edge_count(fs: Seq<(Seq<char>, Seq<Option<Seq<char>>>)>, a: Seq<char>, b: Seq<char>) -> nat {
    if fs.len() == 0 { 0 } else { edges_upto(fs, fs.len() - 1, fs[fs.len() - 1].1.len() as int, a, b) }
}

/// Whether a file is in the graph.
pub open spec fn in_graph(g: ImportGraph, p: Seq<char>) -> bool {
    exists|u: int| 0 <= u < g.files@.len() && g.files@[u]@ == p
}

/// The import graph of the files, each given with the resolution of each of
/// its local imports (`None` where it resolved to no file): every resolved
/// import is an edge, recorded in both directions. Exactly: each file that an
/// edge starts or ends at is in the graph, and between two files of the graph
/// there are as many edges as imports of the one that resolve to the other.
pub fn build_graph(files: &Vec<(String, Vec<Option<String>>)>) -> (g: ImportGraph)
    ensures
        g.wf(),
        forall|u: int, v: int| 0 <= u < g.files@.len() && 0 <= v < g.files@.len() ==>
            (#[trigger] g.forward@[u]@.to_multiset()).count(v as usize)
                == edge_count(resolved_files(files@), g.files@[u]@, (#[trigger] g.files@[v])@),
        forall|a: Seq<char>, b: Seq<char>|
            #[trigger] edge_count(resolved_files(files@), a, b) > 0
                ==> in_graph(g, a) && in_graph(g, b),
{
    let ghost fv = resolved_files(files@);
    let mut g = ImportGraph::new();
    let n = files.len();
    if n == 0 {
        return g;
    }
    let mut i: usize = 0;
    while i < n
        invariant
            n == files@.len(),
            n > 0,
            fv == resolved_files(files@),
            i <= n,
            g.wf(),
            i < n ==> forall|u: int, v: int| 0 <= u < g.files@.len() && 0 <= v < g.files@.len() ==>
                (#[trigger] g.forward@[u]@.to_multiset()).count(v as usize) == edges_upto(fv, i as int, 0, g.files@[u]@, (#[trigger] g.files@[v])@),
            i < n ==> forall|a: Seq<char>, b: Seq<char>|
                #[trigger] edges_upto(fv, i as int, 0, a, b) > 0 ==> in_graph(g, a) && in_graph(g, b),
            i == n ==> forall|u: int, v: int| 0 <= u < g.files@.len() && 0 <= v < g.files@.len() ==>
                (#[trigger] g.forward@[u]@.to_multiset()).count(v as usize) == edge_count(fv, g.files@[u]@, (#[trigger] g.files@[v])@),
            i == n ==> forall|a: Seq<char>, b: Seq<char>|
                #[trigger] edge_count(fv, a, b) > 0 ==> in_graph(g, a) && in_graph(g, b),
        decreases n - i,
    {
        let file = files[i].0.as_str();
        let rs = &files[i].1;
        assert(fv[i as int].0 == file@);
        let m = rs.len();
        let mut j: usize = 0;
        while j < m
            invariant
                n == files@.len(),
                i < n,
                fv == resolved_files(files@),
                fv[i as int].0 == file@,
                rs == &files@[i as int].1,
                m == rs@.len(),
                j <= m,
                g.wf(),
                forall|u: int, v: int| 0 <= u < g.files@.len() && 0 <= v < g.files@.len() ==>
                    (#[trigger] g.forward@[u]@.to_multiset()).count(v as usize) == edges_upto(fv, i as int, j as int, g.files@[u]@, (#[trigger] g.files@[v])@),
                forall|a: Seq<char>, b: Seq<char>|
                    #[trigger] edges_upto(fv, i as int, j as int, a, b) > 0 ==> in_graph(g, a) && in_graph(g, b),
            decreases m - j,
        {
            proof { lemma_edges_step(fv, i as int, j as int); }
            assert(fv[i as int].1[j as int] == match rs@[j as int] { Some(s) => Some(s@), None => None });
            if let Some(r) = &rs[j] {
                let ghost old_g = g;
                let (ra, rb) = g.add_import(file, r.as_str());
                proof { lemma_edge_added(old_g, g, ra, rb, fv, i as int, j as int, file@, r@); }
            } else {
                proof {
                    assert forall|a: Seq<char>, b: Seq<char>| edges_upto(fv, i as int, (j + 1) as int, a, b)
                        == #[trigger] edges_upto(fv, i as int, j as int, a, b) by {}
                }
            }
            j = j + 1;
        }
        proof { lemma_edges_next_file(fv, i as int); }
        i = i + 1;
    }
    g
}

/// One more import of file `i` adds one edge when it resolved to `b`.
proof fn lemma_edges_step(fs: Seq<(Seq<char>, Seq<Option<Seq<char>>>)>, i: int, j: int)
    requires
        0 <= i < fs.len(),
        0 <= j < fs[i].1.len(),
    ensures
        forall|a: Seq<char>, b: Seq<char>| #[trigger] edges_upto(fs, i, j + 1, a, b)
            == edges_upto(fs, i, j, a, b) + if fs[i].0 == a && fs[i].1[j] == Some(b) { 1nat } else { 0nat },
{
    assert forall|a: Seq<char>, b: Seq<char>| #[trigger] edges_upto(fs, i, j + 1, a, b)
        == edges_upto(fs, i, j, a, b) + if fs[i].0 == a && fs[i].1[j] == Some(b) { 1nat } else { 0nat } by {
        assert(fs[i].1.take(j + 1).drop_last() == fs[i].1.take(j));
        assert(fs[i].1.take(j + 1).last() == fs[i].1[j]);
    }
}

/// After the last import of file `i`, the count goes on with file `i + 1`
/// (or is the whole count when `i` was the last file).
proof fn lemma_edges_next_file(fs: Seq<(Seq<char>, Seq<Option<Seq<char>>>)>, i: int)
    requires
        0 <= i < fs.len(),
    ensures
        i + 1 < fs.len() ==> forall|a: Seq<char>, b: Seq<char>| #[trigger] edges_upto(fs, i + 1, 0, a, b)
            == edges_upto(fs, i, fs[i].1.len() as int, a, b),
        i + 1 == fs.len() ==> forall|a: Seq<char>, b: Seq<char>| #[trigger] edge_count(fs, a, b)
            == edges_upto(fs, i, fs[i].1.len() as int, a, b),
{
    if i + 1 < fs.len() {
        assert forall|a: Seq<char>, b: Seq<char>| #[trigger] edges_upto(fs, i + 1, 0, a, b)
            == edges_upto(fs, i, fs[i].1.len() as int, a, b) by {
            assert(fs[i + 1].1.take(0) =~= Seq::<Option<Seq<char>>>::empty());
        }
    }
}

/// Recording the edge `a → b` (an import of file `i` resolved to `b`) keeps the
/// counts exact and every endpoint in the graph.
proof fn lemma_edge_added(old_g: ImportGraph, g: ImportGraph, ra: usize, rb: usize,
    fs: Seq<(Seq<char>, Seq<Option<Seq<char>>>)>, i: int, j: int, a: Seq<char>, b: Seq<char>)
    requires
        old_g.wf(),
        g.wf(),
        0 <= i < fs.len(),
        0 <= j < fs[i].1.len(),
        fs[i].0 == a,
        fs[i].1[j] == Some(b),
        forall|x: Seq<char>, y: Seq<char>| #[trigger] edges_upto(fs, i, j + 1, x, y)
            == edges_upto(fs, i, j, x, y) + if fs[i].0 == x && fs[i].1[j] == Some(y) { 1nat } else { 0nat },
        forall|u: int, v: int| 0 <= u < old_g.files@.len() && 0 <= v < old_g.files@.len() ==>
            (#[trigger] old_g.forward@[u]@.to_multiset()).count(v as usize) == edges_upto(fs, i, j, old_g.files@[u]@, (#[trigger] old_g.files@[v])@),
        forall|x: Seq<char>, y: Seq<char>|
            #[trigger] edges_upto(fs, i, j, x, y) > 0 ==> in_graph(old_g, x) && in_graph(old_g, y),
        g.files@.len() >= old_g.files@.len(),
        forall|k: int| 0 <= k < old_g.files@.len() ==> #[trigger] g.files@[k] == old_g.files@[k],
        ra < g.files@.len(),
        rb < g.files@.len(),
        g.files@[ra as int]@ == a,
        g.files@[rb as int]@ == b,
        g.forward@[ra as int]@ == ids_or_empty(old_g.forward@, ra as int).push(rb),
        forall|u: int| 0 <= u < g.files@.len() && u != ra ==> #[trigger] g.forward@[u]@ == ids_or_empty(old_g.forward@, u),
    ensures
        forall|u: int, v: int| 0 <= u < g.files@.len() && 0 <= v < g.files@.len() ==>
            (#[trigger] g.forward@[u]@.to_multiset()).count(v as usize) == edges_upto(fs, i, j + 1, g.files@[u]@, (#[trigger] g.files@[v])@),
        forall|x: Seq<char>, y: Seq<char>|
            #[trigger] edges_upto(fs, i, j + 1, x, y) > 0 ==> in_graph(g, x) && in_graph(g, y),
{
    broadcast use vstd::seq_lib::group_to_multiset_ensures;
    let on = old_g.files@.len();
    assert forall|u: int, v: int| 0 <= u < g.files@.len() && 0 <= v < g.files@.len() implies
        (#[trigger] g.forward@[u]@.to_multiset()).count(v as usize) == edges_upto(fs, i, j + 1, g.files@[u]@, (#[trigger] g.files@[v])@) by {
        let pu = g.files@[u]@;
        let pv = g.files@[v]@;
        assert(g.files@.len() == g.files.len());
        let vu = v as usize;
        assert(vu as int == v);
        // the count before the edge, as the old graph had it
        let old_count = ids_or_empty(old_g.forward@, u).to_multiset().count(vu);
        assert(old_count == edges_upto(fs, i, j, pu, pv)) by {
            if u < on && v < on {
                assert(g.files@[u] == old_g.files@[u] && g.files@[v] == old_g.files@[v]);
                assert(ids_or_empty(old_g.forward@, u) == old_g.forward@[u]@);
            } else {
                // one end is new: nothing was recorded for it, and no import counted it
                if u < on {
                    assert(ids_or_empty(old_g.forward@, u) == old_g.forward@[u]@);
                    assert(!old_g.forward@[u]@.contains(vu)) by {
                        if old_g.forward@[u]@.contains(vu) {
                            let k = choose|k: int| 0 <= k < old_g.forward@[u]@.len() && old_g.forward@[u]@[k] == vu;
                            assert(old_g.forward@[u]@[k] < on);
                        }
                    }
                } else {
                    assert(ids_or_empty(old_g.forward@, u) =~= Seq::<usize>::empty());
                }
                if edges_upto(fs, i, j, pu, pv) > 0 {
                    if u >= on {
                        let w = choose|w: int| 0 <= w < on && old_g.files@[w]@ == pu;
                        assert(g.files@[w] == old_g.files@[w]);
                        assert(g.files@[w]@ == g.files@[u]@);
                    } else {
                        let w = choose|w: int| 0 <= w < on && old_g.files@[w]@ == pv;
                        assert(g.files@[w] == old_g.files@[w]);
                        assert(g.files@[w]@ == g.files@[v]@);
                    }
                }
            }
        }
        // the new edge counts exactly for (a, b)
        assert((u == ra as int) <==> pu == a) by {
            if pu == a && u != ra as int {
                assert(g.files@[u]@ == g.files@[ra as int]@);
            }
        }
        assert((vu == rb) <==> pv == b) by {
            if pv == b && vu != rb {
                assert(g.files@[v]@ == g.files@[rb as int]@);
            }
        }
        if u == ra as int {
            assert(g.forward@[u]@.to_multiset() == ids_or_empty(old_g.forward@, u).to_multiset().insert(rb));
        }
    }
    assert forall|x: Seq<char>, y: Seq<char>| #[trigger] edges_upto(fs, i, j + 1, x, y) > 0 implies
        in_graph(g, x) && in_graph(g, y) by {
        if edges_upto(fs, i, j, x, y) > 0 {
            let w1 = choose|w: int| 0 <= w < on && old_g.files@[w]@ == x;
            let w2 = choose|w: int| 0 <= w < on && old_g.files@[w]@ == y;
            assert(g.files@[w1] == old_g.files@[w1]);
            assert(g.files@[w2] == old_g.files@[w2]);
        } else {
            assert(x == a && y == b);
            assert(g.files@[ra as int]@ == x);
            assert(g.files@[rb as int]@ == y);
        }
    }
}

/// The ids in list `u` of an adjacency, or none when `u` is beyond it.
pub open spec fn ids_or_empty(adj: Seq<Vec<usize>>, u: int) -> Seq<usize> {
    if 0 <= u < adj.len() { adj[u]@ } else { seq![] }
}

/// A copy of a list of ids.
fn copy_ids(v: &Vec<usize>) -> (r: Vec<usize>)
    ensures
        r@ == v@,
{
    let mut r: Vec<usize> = Vec::new();
    for i in 0..v.len()
        invariant
            r@ == v@.take(i as int),
    {
        r.push(v[i]);
        assert(v@.take(i + 1) == v@.take(i as int).push(v@[i as int]));
    }
    assert(v@.take(v@.len() as int) == v@);
    r
}

// ---------------------------------------------------------------------------
// Breadth-first search, one layer of depth at a time
// ---------------------------------------------------------------------------

/// The search state: which nodes were seen, the latest layer, and for each
/// node found the node it was found from.
pub struct Search {
    pub seen: Seq<bool>,
    pub layer: Seq<usize>,
    pub parent: Seq<Option<usize>>,
    pub found: Seq<(usize, usize)>,
}

/// Visits the candidates `cands`, found from `from`, in order: each one not seen
/// yet is marked, appended to `out` and given `from` as its parent.
pub open spec fn add_fresh(seen: Seq<bool>, out: Seq<usize>, parent: Seq<Option<usize>>, from: usize, cands: Seq<usize>)
    -> (Seq<bool>, Seq<usize>, Seq<Option<usize>>)
    decreases cands.len(),
{
    if cands.len() == 0 {
        (seen, out, parent)
    } else {
        let (s, o, p) = add_fresh(seen, out, parent, from, cands.drop_last());
        let v = cands.last();
        if s[v as int] {
            (s, o, p)
        } else {
            (s.update(v as int, true), o.push(v), p.update(v as int, Some(from)))
        }
    }
}

/// Visits the neighbours of each node of `frontier`, in order.
pub open spec fn expand(adj: Seq<Vec<usize>>, seen: Seq<bool>, out: Seq<usize>, parent: Seq<Option<usize>>, frontier: Seq<usize>)
    -> (Seq<bool>, Seq<usize>, Seq<Option<usize>>)
    decreases frontier.len(),
{
    if frontier.len() == 0 {
        (seen, out, parent)
    } else {
        let (s, o, p) = expand(adj, seen, out, parent, frontier.drop_last());
        let u = frontier.last();
        add_fresh(s, o, p, u, adj[u as int]@)
    }
}

/// The search from `start` after `k` layers: layer `d` holds the nodes first
/// reached in `d` steps, in the order in which a queue would reach them, and
/// `found` lists the nodes of layers `1..=k` with their depth.
pub open spec fn bfs(adj: Seq<Vec<usize>>, start: usize, k: nat) -> Search
    decreases k,
{
    if k == 0 {
        Search {
            seen: Seq::new(adj.len(), |v: int| v == start),
            layer: seq![start],
            parent: Seq::new(adj.len(), |v: int| None),
            found: seq![],
        }
    } else {
        let prev = bfs(adj, start, (k - 1) as nat);
        let (s, l, p) = expand(adj, prev.seen, seq![], prev.parent, prev.layer);
        Search { seen: s, layer: l, parent: p, found: prev.found + l.map_values(|v: usize| (v, k as usize)) }
    }
}

/// The shape that every search state keeps.
pub open spec fn search_wf(adj: Seq<Vec<usize>>, st: Search) -> bool {
    &&& st.seen.len() == adj.len()
    &&& st.parent.len() == adj.len()
    &&& forall|i: int| 0 <= i < st.layer.len() ==> (#[trigger] st.layer[i]) < adj.len()
    &&& forall|v: int| 0 <= v < adj.len() ==> (#[trigger] st.parent[v] matches Some(u) ==> u < adj.len())
}

proof fn lemma_add_fresh_wf(adj: Seq<Vec<usize>>, seen: Seq<bool>, out: Seq<usize>, parent: Seq<Option<usize>>, from: usize, cands: Seq<usize>)
    requires
        seen.len() == adj.len(),
        parent.len() == adj.len(),
        forall|i: int| 0 <= i < out.len() ==> (#[trigger] out[i]) < adj.len(),
        forall|i: int| 0 <= i < cands.len() ==> (#[trigger] cands[i]) < adj.len(),
        from < adj.len(),
        forall|v: int| 0 <= v < adj.len() ==> (#[trigger] parent[v] matches Some(u) ==> u < adj.len()),
    ensures
        ({
            let (s, o, p) = add_fresh(seen, out, parent, from, cands);
            &&& s.len() == adj.len()
            &&& p.len() == adj.len()
            &&& forall|i: int| 0 <= i < o.len() ==> (#[trigger] o[i]) < adj.len()
            &&& forall|v: int| 0 <= v < adj.len() ==> (#[trigger] p[v] matches Some(u) ==> u < adj.len())
        }),
    decreases cands.len(),
{
    if cands.len() > 0 {
        lemma_add_fresh_wf(adj, seen, out, parent, from, cands.drop_last());
    }
}

proof fn lemma_expand_wf(adj: Seq<Vec<usize>>, seen: Seq<bool>, out: Seq<usize>, parent: Seq<Option<usize>>, frontier: Seq<usize>)
    requires
        adj_wf(adj, adj.len()),
        seen.len() == adj.len(),
        parent.len() == adj.len(),
        forall|i: int| 0 <= i < out.len() ==> (#[trigger] out[i]) < adj.len(),
        forall|i: int| 0 <= i < frontier.len() ==> (#[trigger] frontier[i]) < adj.len(),
        forall|v: int| 0 <= v < adj.len() ==> (#[trigger] parent[v] matches Some(u) ==> u < adj.len()),
    ensures
        ({
            let (s, o, p) = expand(adj, seen, out, parent, frontier);
            &&& s.len() == adj.len()
            &&& p.len() == adj.len()
            &&& forall|i: int| 0 <= i < o.len() ==> (#[trigger] o[i]) < adj.len()
            &&& forall|v: int| 0 <= v < adj.len() ==> (#[trigger] p[v] matches Some(u) ==> u < adj.len())
        }),
    decreases frontier.len(),
{
    if frontier.len() > 0 {
        lemma_expand_wf(adj, seen, out, parent, frontier.drop_last());
        let (s, o, p) = expand(adj, seen, out, parent, frontier.drop_last());
        let u = frontier.last();
        lemma_add_fresh_wf(adj, s, o, p, u, adj[u as int]@);
    }
}

proof fn lemma_bfs_wf(adj: Seq<Vec<usize>>, start: usize, k: nat)
    requires
        adj_wf(adj, adj.len()),
        start < adj.len(),
    ensures
        search_wf(adj, bfs(adj, start, k)),
    decreases k,
{
    if k > 0 {
        lemma_bfs_wf(adj, start, (k - 1) as nat);
        let prev = bfs(adj, start, (k - 1) as nat);
        lemma_expand_wf(adj, prev.seen, seq![], prev.parent, prev.layer);
    }
}

/// Once a layer is empty, every later search state is the same.
proof fn lemma_bfs_settled(adj: Seq<Vec<usize>>, start: usize, k: nat, j: nat)
    requires
        bfs(adj, start, k).layer.len() == 0,
    ensures
        bfs(adj, start, k + j) == bfs(adj, start, k),
    decreases j,
{
    if j > 0 {
        lemma_bfs_settled(adj, start, k, (j - 1) as nat);
        let st = bfs(adj, start, k);
        assert(st.layer =~= Seq::<usize>::empty());
        let (s, l, p) = expand(adj, st.seen, seq![], st.parent, st.layer);
        assert(l =~= Seq::<usize>::empty());
        assert(st.found + l.map_values(|v: usize| (v, (k + j) as usize)) =~= st.found);
    }
}

/// Runs `add_fresh` on the neighbours of `u`.
fn add_fresh_exec(adj: &Vec<Vec<usize>>, u: usize, seen: &mut Vec<bool>, out: &mut Vec<usize>, parent: &mut Vec<Option<usize>>)
    requires
        adj_wf(adj@, adj@.len()),
        u < adj@.len(),
        old(seen)@.len() == adj@.len(),
        old(parent)@.len() == adj@.len(),
    ensures
        final(seen)@.len() == adj@.len(),
        final(parent)@.len() == adj@.len(),
        (final(seen)@, final(out)@, final(parent)@) == add_fresh(old(seen)@, old(out)@, old(parent)@, u, adj@[u as int]@),
{
    let ghost s0 = seen@;
    let ghost o0 = out@;
    let ghost p0 = parent@;
    let nb = &adj[u];
    let ghost cands = adj@[u as int]@;
    let mut i: usize = 0;
    assert(cands.take(0) =~= Seq::<usize>::empty());
    while i < nb.len()
        invariant
            adj_wf(adj@, adj@.len()),
            u < adj@.len(),
            nb@ == cands,
            cands == adj@[u as int]@,
            i <= nb@.len(),
            seen@.len() == adj@.len(),
            parent@.len() == adj@.len(),
            (seen@, out@, parent@) == add_fresh(s0, o0, p0, u, cands.take(i as int)),
        decreases nb@.len() - i,
    {
        let v = nb[i];
        assert(cands.take(i + 1).drop_last() == cands.take(i as int));
        assert(v < adj@.len()) by {
            assert(adj@[u as int]@[i as int] == v);
        }
        if !seen[v] {
            seen.set(v, true);
            out.push(v);
            parent.set(v, Some(u));
        }
        i = i + 1;
    }
    assert(cands.take(nb@.len() as int) == cands);
}

/// Runs `expand` on a frontier.
fn expand_exec(adj: &Vec<Vec<usize>>, frontier: &Vec<usize>, seen: &mut Vec<bool>, parent: &mut Vec<Option<usize>>) -> (out: Vec<usize>)
    requires
        adj_wf(adj@, adj@.len()),
        forall|i: int| 0 <= i < frontier@.len() ==> (#[trigger] frontier@[i]) < adj@.len(),
        old(seen)@.len() == adj@.len(),
        old(parent)@.len() == adj@.len(),
    ensures
        (final(seen)@, out@, final(parent)@) == expand(adj@, old(seen)@, seq![], old(parent)@, frontier@),
{
    let ghost s0 = seen@;
    let ghost p0 = parent@;
    let mut out: Vec<usize> = Vec::new();
    let mut i: usize = 0;
    assert(frontier@.take(0) =~= Seq::<usize>::empty());
    while i < frontier.len()
        invariant
            adj_wf(adj@, adj@.len()),
            forall|j: int| 0 <= j < frontier@.len() ==> (#[trigger] frontier@[j]) < adj@.len(),
            i <= frontier@.len(),
            seen@.len() == adj@.len(),
            parent@.len() == adj@.len(),
            (seen@, out@, parent@) == expand(adj@, s0, seq![], p0, frontier@.take(i as int)),
        decreases frontier@.len() - i,
    {
        assert(frontier@.take(i + 1).drop_last() == frontier@.take(i as int));
        add_fresh_exec(adj, frontier[i], seen, &mut out, parent);
        i = i + 1;
    }
    assert(frontier@.take(frontier@.len() as int) == frontier@);
    out
}

/// Runs the search from `start` for `max_depth` layers, stopping early once a
/// layer is empty; returns the final state's seen marks, parents and the nodes
/// found with their depths.
fn run_bfs(adj: &Vec<Vec<usize>>, start: usize, max_depth: usize) -> (r: (Vec<bool>, Vec<Option<usize>>, Vec<(usize, usize)>))
    requires
        adj_wf(adj@, adj@.len()),
        start < adj@.len(),
    ensures
        r.0@ == bfs(adj@, start, max_depth as nat).seen,
        r.1@ == bfs(adj@, start, max_depth as nat).parent,
        r.2@ == bfs(adj@, start, max_depth as nat).found,
{
    let n = adj.len();
    let mut seen: Vec<bool> = Vec::new();
    let mut parent: Vec<Option<usize>> = Vec::new();
    for v in 0..n
        invariant
            n == adj@.len(),
            seen@ == Seq::new(v as nat, |x: int| x == start),
            parent@ == Seq::new(v as nat, |x: int| None::<usize>),
    {
        seen.push(v == start);
        parent.push(None);
        assert(seen@ == Seq::new((v + 1) as nat, |x: int| x == start));
        assert(parent@ == Seq::new((v + 1) as nat, |x: int| None::<usize>));
    }
    let mut layer: Vec<usize> = Vec::new();
    layer.push(start);
    let mut found: Vec<(usize, usize)> = Vec::new();
    let mut k: usize = 0;
    proof { lemma_bfs_wf(adj@, start, 0); }
    while k < max_depth && layer.len() > 0
        invariant
            adj_wf(adj@, adj@.len()),
            start < adj@.len(),
            k <= max_depth,
            search_wf(adj@, bfs(adj@, start, k as nat)),
            seen@ == bfs(adj@, start, k as nat).seen,
            layer@ == bfs(adj@, start, k as nat).layer,
            parent@ == bfs(adj@, start, k as nat).parent,
            found@ == bfs(adj@, start, k as nat).found,
        decreases max_depth - k,
    {
        let next = expand_exec(adj, &layer, &mut seen, &mut parent);
        k = k + 1;
        let ghost before = found@;
        for j in 0..next.len()
            invariant
                found@ == before + next@.take(j as int).map_values(|v: usize| (v, k)),
        {
            found.push((next[j], k));
            assert(next@.take(j + 1).map_values(|v: usize| (v, k))
                == next@.take(j as int).map_values(|v: usize| (v, k)).push((next@[j as int], k)));
        }
        assert(next@.take(next@.len() as int) == next@);
        layer = next;
        proof { lemma_bfs_wf(adj@, start, k as nat); }
    }
    if k < max_depth {
        proof { lemma_bfs_settled(adj@, start, k as nat, (max_depth - k) as nat); }
    }
    (seen, parent, found)
}

/// The chain of parents from `v` back towards the start, `v` first, following
/// at most `fuel` links.
pub open spec fn walk_back(parent: Seq<Option<usize>>, v: usize, fuel: nat) -> Seq<usize>
    decreases fuel,
{
    if fuel == 0 {
        seq![v]
    } else {
        match parent[v as int] {
            Some(u) => seq![v] + walk_back(parent, u, (fuel - 1) as nat),
            None => seq![v],
        }
    }
}

/// The adjacency the traversal follows: the imports, or the importers.
pub open spec fn direction(g: ImportGraph, forward: bool) -> Seq<Vec<usize>> {
    if forward { g.forward@ } else { g.reverse@ }
}

impl ImportGraph {
    /// The files reached from file `start` in `1..=max_depth` steps, each once,
    /// in breadth-first order and with its depth; the steps follow imports when
    /// `forward` holds, importers otherwise.
    pub fn traverse(&self, start: usize, forward: bool, max_depth: usize) -> (r: Vec<(usize, usize)>)
        requires
            self.wf(),
            start < self.files@.len(),
        ensures
            r@ == bfs(direction(*self, forward), start, max_depth as nat).found,
    {
        let adj = if forward { &self.forward } else { &self.reverse };
        let (_, _, found) = run_bfs(adj, start, max_depth);
        found
    }

    /// The shortest import path from file `from` to file `to` that a
    /// breadth-first search over imports finds within `max_depth` steps, or
    /// `None` when it does not reach `to`.
    pub fn shortest_path(&self, from: usize, to: usize, max_depth: usize) -> (r: Option<Vec<usize>>)
        requires
            self.wf(),
            from < self.files@.len(),
            to < self.files@.len(),
        ensures
            r is Some <==> bfs(self.forward@, from, max_depth as nat).seen[to as int],
            r matches Some(p) ==> p@ == walk_back(bfs(self.forward@, from, max_depth as nat).parent, to,
                max_depth as nat).reverse(),
            r matches Some(p) ==> p@.len() >= 1 && forall|i: int| 0 <= i < p@.len() ==> (#[trigger] p@[i]) < self.files@.len(),
    {
        let (seen, parent, _) = run_bfs(&self.forward, from, max_depth);
        proof { lemma_bfs_wf(self.forward@, from, max_depth as nat); }
        if !seen[to] {
            return None;
        }
        let ghost p = parent@;
        let n = self.files.len();
        let mut back: Vec<usize> = Vec::new();
        back.push(to);
        let mut cur = to;
        let mut fuel = max_depth;
        while fuel > 0
            invariant
                p == parent@,
                p.len() == n,
                n == self.files@.len(),
                adj_wf(self.forward@, n as nat),
                cur < n,
                fuel <= max_depth,
                back@.len() >= 1,
                back@.last() == cur,
                forall|k: int| 0 <= k < back@.len() ==> (#[trigger] back@[k]) < n,
                forall|v: int| 0 <= v < n ==> (#[trigger] p[v] matches Some(u) ==> u < n),
                walk_back(p, to, max_depth as nat) == back@.drop_last() + walk_back(p, cur, fuel as nat),
            ensures
                walk_back(p, to, max_depth as nat) == back@,
            decreases fuel,
        {
            match parent[cur] {
                Some(u) => {
                    assert(u < n);
                    assert(back@.push(u).drop_last() == back@);
                    assert(back@.drop_last() + seq![cur] == back@);
                    back.push(u);
                    cur = u;
                    fuel = fuel - 1;
                }
                None => {
                    assert(back@.drop_last().push(cur) == back@);
                    break;
                }
            }
        }
        let mut path: Vec<usize> = Vec::new();
        let m = back.len();
        for i in 0..m
            invariant
                m == back@.len(),
                m >= 1,
                n == self.files@.len(),
                forall|k: int| 0 <= k < back@.len() ==> (#[trigger] back@[k]) < n,
                path@ == back@.reverse().take(i as int),
        {
            path.push(back[m - 1 - i]);
            assert(back@.reverse().take(i + 1) == back@.reverse().take(i as int).push(back@.reverse()[i as int]));
        }
        assert(back@.reverse().take(m as int) == back@.reverse());
        assert forall|i: int| 0 <= i < path@.len() implies (#[trigger] path@[i]) < self.files@.len() by {
            assert(path@[i] == back@[m - 1 - i]);
        }
        Some(path)
    }
}

// ---------------------------------------------------------------------------
// What every traversal keeps
// ---------------------------------------------------------------------------

/// What `add_fresh` adds: only nodes not seen before, each once, each marked as
/// seen; nothing seen before is forgotten and `out` is kept as a prefix.
proof fn lemma_add_fresh_new(adj: Seq<Vec<usize>>, seen: Seq<bool>, out: Seq<usize>, parent: Seq<Option<usize>>, from: usize, cands: Seq<usize>)
    requires
        seen.len() == adj.len(),
        forall|i: int| 0 <= i < cands.len() ==> (#[trigger] cands[i]) < adj.len(),
    ensures
        ({
            let (s, o, p) = add_fresh(seen, out, parent, from, cands);
            &&& s.len() == seen.len()
            &&& o.len() >= out.len()
            &&& o.take(out.len() as int) == out
            &&& forall|i: int| out.len() <= i < o.len() ==> (#[trigger] o[i]) < adj.len() && !seen[o[i] as int] && s[o[i] as int]
            &&& forall|i: int, j: int| out.len() <= i < j < o.len() ==> #[trigger] o[i] != #[trigger] o[j]
            &&& forall|x: int| 0 <= x < seen.len() && #[trigger] seen[x] ==> s[x]
        }),
    decreases cands.len(),
{
    if cands.len() > 0 {
        let rest = cands.drop_last();
        lemma_add_fresh_new(adj, seen, out, parent, from, rest);
        let (s, o, p) = add_fresh(seen, out, parent, from, rest);
        let v = cands.last();
        if !s[v as int] {
            let o2 = o.push(v);
            assert(o2.take(out.len() as int) == o.take(out.len() as int));
            assert forall|i: int| out.len() <= i < o2.len() implies
                (#[trigger] o2[i]) < adj.len() && !seen[o2[i] as int] && s.update(v as int, true)[o2[i] as int] by {
                if i < o.len() {
                    assert(o2[i] == o[i]);
                } else {
                    assert(o2[i] == v);
                    assert(cands[cands.len() - 1] == v);
                    if seen[v as int] { assert(s[v as int]); }
                }
            }
            assert forall|i: int, j: int| out.len() <= i < j < o2.len() implies #[trigger] o2[i] != #[trigger] o2[j] by {
                if j == o.len() {
                    assert(o2[i] == o[i]);
                    assert(s[o[i] as int]);
                } else {
                    assert(o2[i] == o[i] && o2[j] == o[j]);
                }
            }
        }
    }
}

/// The same for `expand`, which runs `add_fresh` for each node of the frontier.
proof fn lemma_expand_new(adj: Seq<Vec<usize>>, seen: Seq<bool>, out: Seq<usize>, parent: Seq<Option<usize>>, frontier: Seq<usize>)
    requires
        adj_wf(adj, adj.len()),
        seen.len() == adj.len(),
        forall|i: int| 0 <= i < frontier.len() ==> (#[trigger] frontier[i]) < adj.len(),
    ensures
        ({
            let (s, o, p) = expand(adj, seen, out, parent, frontier);
            &&& s.len() == seen.len()
            &&& o.len() >= out.len()
            &&& o.take(out.len() as int) == out
            &&& forall|i: int| out.len() <= i < o.len() ==> (#[trigger] o[i]) < adj.len() && !seen[o[i] as int] && s[o[i] as int]
            &&& forall|i: int, j: int| out.len() <= i < j < o.len() ==> #[trigger] o[i] != #[trigger] o[j]
            &&& forall|x: int| 0 <= x < seen.len() && #[trigger] seen[x] ==> s[x]
        }),
    decreases frontier.len(),
{
    if frontier.len() > 0 {
        let rest = frontier.drop_last();
        lemma_expand_new(adj, seen, out, parent, rest);
        let (s, o, p) = expand(adj, seen, out, parent, rest);
        let u = frontier.last();
        assert(frontier[frontier.len() - 1] == u);
        assert forall|i: int| 0 <= i < adj[u as int]@.len() implies (#[trigger] adj[u as int]@[i]) < adj.len() by {
        }
        lemma_add_fresh_new(adj, s, o, p, u, adj[u as int]@);
        let (s2, o2, p2) = add_fresh(s, o, p, u, adj[u as int]@);
        assert(o2.take(out.len() as int) == o2.take(o.len() as int).take(out.len() as int));
        assert forall|i: int| out.len() <= i < o2.len() implies
            (#[trigger] o2[i]) < adj.len() && !seen[o2[i] as int] && s2[o2[i] as int] by {
            if i < o.len() {
                assert(o2[i] == o2.take(o.len() as int)[i]);
                assert(s[o[i] as int]);
            }
        }
        assert forall|i: int, j: int| out.len() <= i < j < o2.len() implies #[trigger] o2[i] != #[trigger] o2[j] by {
            if j < o.len() {
                assert(o2[i] == o2.take(o.len() as int)[i]);
                assert(o2[j] == o2.take(o.len() as int)[j]);
            } else if i < o.len() {
                assert(o2[i] == o2.take(o.len() as int)[i]);
                assert(s[o[i] as int]);
            }
        }
    }
}

/// Every node that `add_fresh` marks is one it appends.
proof fn lemma_add_fresh_marks(adj: Seq<Vec<usize>>, seen: Seq<bool>, out: Seq<usize>, parent: Seq<Option<usize>>, from: usize,
    cands: Seq<usize>)
    requires
        seen.len() == adj.len(),
        forall|i: int| 0 <= i < cands.len() ==> (#[trigger] cands[i]) < adj.len(),
    ensures
        forall|x: int| 0 <= x < seen.len() && #[trigger] add_fresh(seen, out, parent, from, cands).0[x] && !seen[x] ==>
            exists|i: int| out.len() <= i < add_fresh(seen, out, parent, from, cands).1.len()
                && add_fresh(seen, out, parent, from, cands).1[i] == x,
    decreases cands.len(),
{
    if cands.len() > 0 {
        let rest = cands.drop_last();
        lemma_add_fresh_marks(adj, seen, out, parent, from, rest);
        lemma_add_fresh_new(adj, seen, out, parent, from, rest);
        let (s, o, p) = add_fresh(seen, out, parent, from, rest);
        let v = cands.last();
        assert(cands[cands.len() - 1] == v);
        if s[v as int] {
            let r = add_fresh(seen, out, parent, from, cands);
            assert(r == (s, o, p));
            assert(r.0 == s && r.1 == o);
            assert forall|x: int| 0 <= x < seen.len() && #[trigger] r.0[x] && !seen[x] implies
                exists|i: int| out.len() <= i < r.1.len() && r.1[i] == x by {
                let i = choose|i: int| out.len() <= i < o.len() && o[i] == x;
                assert(r.1[i] == x);
            }
        } else {
            let s2 = s.update(v as int, true);
            let o2 = o.push(v);
            let r = add_fresh(seen, out, parent, from, cands);
            assert(r == (s2, o2, p.update(v as int, Some(from))));
            assert(r.0 == s2 && r.1 == o2);
            assert forall|x: int| 0 <= x < seen.len() && #[trigger] r.0[x] && !seen[x] implies
                exists|i: int| out.len() <= i < r.1.len() && r.1[i] == x by {
                if x == v as int {
                    assert(r.1[o.len() as int] == v);
                } else {
                    assert(s[x]);
                    let i = choose|i: int| out.len() <= i < o.len() && o[i] == x;
                    assert(r.1[i] == x);
                }
            }
        }
    } else {
        assert(add_fresh(seen, out, parent, from, cands) == (seen, out, parent));
    }
}

/// Every node that `expand` marks is one it appends.
proof fn lemma_expand_marks(adj: Seq<Vec<usize>>, seen: Seq<bool>, out: Seq<usize>, parent: Seq<Option<usize>>,
    frontier: Seq<usize>)
    requires
        adj_wf(adj, adj.len()),
        seen.len() == adj.len(),
        forall|i: int| 0 <= i < frontier.len() ==> (#[trigger] frontier[i]) < adj.len(),
    ensures
        forall|x: int| 0 <= x < seen.len() && #[trigger] expand(adj, seen, out, parent, frontier).0[x] && !seen[x] ==>
            exists|i: int| out.len() <= i < expand(adj, seen, out, parent, frontier).1.len()
                && expand(adj, seen, out, parent, frontier).1[i] == x,
    decreases frontier.len(),
{
    if frontier.len() > 0 {
        let rest = frontier.drop_last();
        lemma_expand_marks(adj, seen, out, parent, rest);
        lemma_expand_new(adj, seen, out, parent, rest);
        let (s, o, p) = expand(adj, seen, out, parent, rest);
        let u = frontier.last();
        assert(frontier[frontier.len() - 1] == u);
        assert forall|i: int| 0 <= i < adj[u as int]@.len() implies (#[trigger] adj[u as int]@[i]) < adj.len() by {
        }
        lemma_add_fresh_marks(adj, s, o, p, u, adj[u as int]@);
        lemma_add_fresh_new(adj, s, o, p, u, adj[u as int]@);
        let (s2, o2, p2) = add_fresh(s, o, p, u, adj[u as int]@);
        assert forall|x: int| 0 <= x < seen.len() && #[trigger] s2[x] && !seen[x] implies
            exists|i: int| out.len() <= i < o2.len() && o2[i] == x by {
            if s[x] {
                let i = choose|i: int| out.len() <= i < o.len() && o[i] == x;
                assert(o2.take(o.len() as int)[i] == o2[i]);
            } else {
                let i = choose|i: int| o.len() <= i < o2.len() && o2[i] == x;
            }
        }
    }
}

/// Every node marked after `k` layers, other than the start, is listed in
/// `found`; and `found` lists its nodes by depth, shallowest first.
proof fn lemma_bfs_complete(adj: Seq<Vec<usize>>, start: usize, k: nat)
    requires
        adj_wf(adj, adj.len()),
        start < adj.len(),
        k <= usize::MAX,
    ensures
        forall|v: int| 0 <= v < adj.len() && #[trigger] bfs(adj, start, k).seen[v] && v != start ==>
            exists|i: int| 0 <= i < bfs(adj, start, k).found.len() && bfs(adj, start, k).found[i].0 == v,
        forall|i: int, j: int| 0 <= i < j < bfs(adj, start, k).found.len() ==>
            (#[trigger] bfs(adj, start, k).found[i]).1 <= (#[trigger] bfs(adj, start, k).found[j]).1,
    decreases k,
{
    lemma_bfs_wf(adj, start, k);
    if k > 0 {
        let km = (k - 1) as nat;
        lemma_bfs_complete(adj, start, km);
        lemma_bfs_found(adj, start, km);
        lemma_bfs_wf(adj, start, km);
        let prev = bfs(adj, start, km);
        lemma_expand_marks(adj, prev.seen, seq![], prev.parent, prev.layer);
        let (s, l, p) = expand(adj, prev.seen, seq![], prev.parent, prev.layer);
        let st = bfs(adj, start, k);
        let add = l.map_values(|v: usize| (v, k as usize));
        assert(st.found == prev.found + add);
        assert forall|v: int| 0 <= v < adj.len() && #[trigger] st.seen[v] && v != start implies
            exists|i: int| 0 <= i < st.found.len() && st.found[i].0 == v by {
            if prev.seen[v] {
                let i = choose|i: int| 0 <= i < prev.found.len() && prev.found[i].0 == v;
                assert(st.found[i] == prev.found[i]);
            } else {
                let q = choose|q: int| 0 <= q < l.len() && l[q] == v;
                assert(st.found[prev.found.len() + q] == add[q]);
            }
        }
        assert forall|i: int, j: int| 0 <= i < j < st.found.len() implies
            (#[trigger] st.found[i]).1 <= (#[trigger] st.found[j]).1 by {
            if j < prev.found.len() {
                assert(st.found[i] == prev.found[i] && st.found[j] == prev.found[j]);
            } else if i < prev.found.len() {
                assert(st.found[i] == prev.found[i]);
                assert(st.found[j] == add[j - prev.found.len()]);
                assert(1 <= prev.found[i].1 <= km);
            } else {
                assert(st.found[i] == add[i - prev.found.len()]);
                assert(st.found[j] == add[j - prev.found.len()]);
            }
        }
    }
}

/// A traversal is complete and ordered by depth: every file reachable from
/// the start in at most `max_depth` steps (other than the start) is listed,
/// and no file is listed before one at a smaller depth.
pub proof fn lemma_traversal_complete(g: ImportGraph, start: usize, forward: bool, max_depth: usize, walk: Seq<usize>)
    requires
        g.wf(),
        start < g.files@.len(),
        walk.len() >= 1,
        walk.len() <= max_depth + 1,
        walk[0] == start,
        walk.last() != start,
        forall|j: int| 0 <= j < walk.len() ==> (#[trigger] walk[j]) < g.files@.len(),
        forall|j: int| 0 <= j < walk.len() - 1 ==> has_edge(direction(g, forward), #[trigger] walk[j], walk[j + 1]),
    ensures
        exists|i: int| 0 <= i < bfs(direction(g, forward), start, max_depth as nat).found.len()
            && bfs(direction(g, forward), start, max_depth as nat).found[i].0 == walk.last(),
        forall|i: int, j: int| 0 <= i < j < bfs(direction(g, forward), start, max_depth as nat).found.len() ==>
            (#[trigger] bfs(direction(g, forward), start, max_depth as nat).found[i]).1
                <= (#[trigger] bfs(direction(g, forward), start, max_depth as nat).found[j]).1,
{
    let adj = direction(g, forward);
    let m = (walk.len() - 1) as nat;
    assert(walk[m as int] == walk.last());
    lemma_walk_marked(adj, start, walk, m as int);
    lemma_bfs_frame(adj, start, m, max_depth as nat);
    lemma_bfs_complete(adj, start, max_depth as nat);
    let v = walk.last();
    assert(bfs(adj, start, max_depth as nat).seen[v as int]);
}

/// The invariant of the search behind the traversal law.
spec fn found_wf(adj: Seq<Vec<usize>>, start: usize, k: nat, st: Search) -> bool {
    &&& st.seen[start as int]
    &&& forall|i: int| 0 <= i < st.layer.len() ==> #[trigger] st.seen[st.layer[i] as int]
    &&& forall|i: int| 0 <= i < st.found.len() ==> (#[trigger] st.found[i]).0 < adj.len() && st.seen[st.found[i].0 as int]
    &&& forall|i: int| 0 <= i < st.found.len() ==> (#[trigger] st.found[i]).0 != start
    &&& forall|i: int| 0 <= i < st.found.len() ==> 1 <= (#[trigger] st.found[i]).1 <= k
    &&& forall|i: int, j: int| 0 <= i < j < st.found.len() ==> (#[trigger] st.found[i]).0 != (#[trigger] st.found[j]).0
}

proof fn lemma_bfs_found(adj: Seq<Vec<usize>>, start: usize, k: nat)
    requires
        adj_wf(adj, adj.len()),
        start < adj.len(),
        k <= usize::MAX,
    ensures
        found_wf(adj, start, k, bfs(adj, start, k)),
    decreases k,
{
    lemma_bfs_wf(adj, start, k);
    if k > 0 {
        let km = (k - 1) as nat;
        lemma_bfs_found(adj, start, km);
        lemma_bfs_wf(adj, start, km);
        let prev = bfs(adj, start, km);
        lemma_expand_new(adj, prev.seen, seq![], prev.parent, prev.layer);
        let (s, l, p) = expand(adj, prev.seen, seq![], prev.parent, prev.layer);
        let st = bfs(adj, start, k);
        let add = l.map_values(|v: usize| (v, k as usize));
        assert(st.found == prev.found + add);
        assert(st.seen == s && st.layer == l);
        assert forall|i: int| 0 <= i < st.found.len() implies
            (#[trigger] st.found[i]).0 < adj.len() && st.seen[st.found[i].0 as int] && st.found[i].0 != start
            && 1 <= st.found[i].1 <= k by {
            if i < prev.found.len() {
                assert(st.found[i] == prev.found[i]);
            } else {
                let j = i - prev.found.len();
                assert(st.found[i] == add[j]);
                assert(add[j] == (l[j], k as usize));
            }
        }
        assert forall|i: int, j: int| 0 <= i < j < st.found.len() implies
            (#[trigger] st.found[i]).0 != (#[trigger] st.found[j]).0 by {
            if j < prev.found.len() {
                assert(st.found[i] == prev.found[i] && st.found[j] == prev.found[j]);
            } else if i < prev.found.len() {
                let jj = j - prev.found.len();
                assert(st.found[j] == add[jj]);
                assert(st.found[i] == prev.found[i]);
                assert(prev.seen[prev.found[i].0 as int]);
                assert(!prev.seen[l[jj] as int]);
            } else {
                let ii = i - prev.found.len();
                let jj = j - prev.found.len();
                assert(st.found[i] == add[ii] && st.found[j] == add[jj]);
            }
        }
        assert forall|i: int| 0 <= i < st.layer.len() implies #[trigger] st.seen[st.layer[i] as int] by {
            assert(l[i] == st.layer[i]);
        }
    }
}

/// A traversal lists each file at most once, never the file it starts from,
/// and only at depths from 1 to `max_depth`.
pub proof fn lemma_traversal_distinct(g: ImportGraph, start: usize, forward: bool, max_depth: usize)
    requires
        g.wf(),
        start < g.files@.len(),
    ensures
        ({
            let found = bfs(direction(g, forward), start, max_depth as nat).found;
            &&& forall|i: int, j: int| 0 <= i < j < found.len() ==> (#[trigger] found[i]).0 != (#[trigger] found[j]).0
            &&& forall|i: int| 0 <= i < found.len() ==> (#[trigger] found[i]).0 != start
            &&& forall|i: int| 0 <= i < found.len() ==> 1 <= (#[trigger] found[i]).1 <= max_depth
            &&& forall|i: int| 0 <= i < found.len() ==> (#[trigger] found[i]).0 < g.files@.len()
        }),
{
    lemma_bfs_found(direction(g, forward), start, max_depth as nat);
}

// ---------------------------------------------------------------------------
// Rendering
// ---------------------------------------------------------------------------

/// `path` relative to `root` when `root` is a prefix of it, else `path` itself.
pub open spec fn relative_to(path: Seq<char>, root: Seq<char>) -> Seq<char> {
    match strip_prefix_of(path, root) {
        Some(rel) => rel,
        None => path,
    }
}

/// A path relative to the project root, for display.
pub fn pathdiff(path: &str, root: &str) -> (r: String)
    ensures
        r@ == relative_to(path@, root@),
{
    match strip_prefix(path, root) {
        Some(rel) => rel,
        None => path.to_owned(),
    }
}

/// The name of a traversal's direction.
pub open spec fn mode_name(forward: bool) -> Seq<char> {
    if forward { "forward"@ } else { "reverse"@ }
}

/// One file of a traversal, indented by its depth.
pub open spec fn depth_line(rel: Seq<char>, depth: nat) -> Seq<char> {
    repeat("  "@, depth) + rel + " (depth "@ + decimal(depth) + ")\n"@
}

/// The skeleton of one file, under a header naming it.
pub open spec fn skeleton_block(rel: Seq<char>, skel: Seq<char>) -> Seq<char> {
    "── "@ + rel + " ──\n"@ + skel + "\n\n"@
}

/// The skeletons section, when skeletons were asked for.
pub open spec fn skeletons_text(skeletons: Option<Seq<(String, String)>>) -> Seq<char> {
    match skeletons {
        None => seq![],
        Some(sk) => "\n--- Skeletons ---\n\n"@ + concat_n(sk.len(), |i: int| skeleton_block(sk[i].0@, sk[i].1@)),
    }
}

/// The text of a traversal: a header, the files found with their depths (or a
/// note that there are none), the skeletons, and a count.
pub open spec fn traversal_text(forward: bool, rel_start: Seq<char>, entries: Seq<(String, usize)>,
    skeletons: Option<Seq<(String, String)>>) -> Seq<char> {
    "Chain ("@ + mode_name(forward) + "): "@ + rel_start + "\n\n"@ + if entries.len() == 0 {
        "  (no files "@ + (if forward { "imported by"@ } else { "import"@ }) + " this module)\n"@
    } else {
        concat_n(entries.len(), |i: int| depth_line(entries[i].0@, entries[i].1 as nat))
            + skeletons_text(skeletons)
            + "\n"@ + decimal(entries.len()) + " files in "@ + mode_name(forward) + " chain\n"@
    }
}

fn push_skeletons(out: &mut Vec<char>, skeletons: Option<&Vec<(String, String)>>)
    ensures
        final(out)@ == old(out)@ + skeletons_text(match skeletons { Some(v) => Some(v@), None => None }),
{
    if let Some(sk) = skeletons {
        push_str(out, "\n--- Skeletons ---\n\n");
        let ghost start = out@;
        let ghost f = |i: int| skeleton_block(sk@[i].0@, sk@[i].1@);
        for i in 0..sk.len()
            invariant
                f == (|i: int| skeleton_block(sk@[i].0@, sk@[i].1@)),
                out@ == start + concat_n(i as nat, f),
        {
            push_str(out, "── ");
            push_str(out, sk[i].0.as_str());
            push_str(out, " ──\n");
            push_str(out, sk[i].1.as_str());
            push_str(out, "\n\n");
            proof { lemma_concat_n_succ(i as nat, f); }
        }
    }
}

#[verifier::rlimit(40)]
/// Renders a traversal: `entries` are the files found (relative paths) with
/// their depths, `skeletons` the skeletons of those that could be read, when
/// they were asked for.
pub fn format_traversal(forward: bool, rel_start: &str, entries: &Vec<(String, usize)>,
    skeletons: Option<&Vec<(String, String)>>) -> (r: String)
    ensures
        r@ == traversal_text(forward, rel_start@, entries@, match skeletons { Some(v) => Some(v@), None => None }),
{
    let mode = if forward { "forward" } else { "reverse" };
    assert(mode@ == mode_name(forward));
    let mut out: Vec<char> = Vec::new();
    push_str(&mut out, "Chain (");
    push_str(&mut out, mode);
    push_str(&mut out, "): ");
    push_str(&mut out, rel_start);
    push_str(&mut out, "\n\n");
    let ghost head = out@;
    assert(head == "Chain ("@ + mode_name(forward) + "): "@ + rel_start@ + "\n\n"@);
    if entries.len() == 0 {
        push_str(&mut out, "  (no files ");
        push_str(&mut out, if forward { "imported by" } else { "import" });
        push_str(&mut out, " this module)\n");
    } else {
        let ghost f = |i: int| depth_line(entries@[i].0@, entries@[i].1 as nat);
        let indent: Vec<char> = chars_of("  ");
        for i in 0..entries.len()
            invariant
                indent@ == "  "@,
                f == (|i: int| depth_line(entries@[i].0@, entries@[i].1 as nat)),
                out@ == head + concat_n(i as nat, f),
        {
            push_repeat(&mut out, &indent, entries[i].1);
            push_str(&mut out, entries[i].0.as_str());
            push_str(&mut out, " (depth ");
            push_decimal(&mut out, entries[i].1);
            push_str(&mut out, ")\n");
            proof { lemma_concat_n_succ(i as nat, f); }
        }
        let ghost listed = out@;
        push_skeletons(&mut out, skeletons);
        let ghost with_sk = out@;
        push_str(&mut out, "\n");
        push_decimal(&mut out, entries.len());
        push_str(&mut out, " files in ");
        push_str(&mut out, mode);
        push_str(&mut out, " chain\n");
        assert(out@ == with_sk + "\n"@ + decimal(entries@.len()) + " files in "@ + mode_name(forward) + " chain\n"@);
    }
    string_of(&out)
}

/// One file of an import path: the first plain, the others after an arrow.
pub open spec fn path_line(i: int, rel: Seq<char>) -> Seq<char> {
    if i == 0 { "  "@ + rel + "\n"@ } else { "  -> "@ + rel + "\n"@ }
}

/// The text of a path search: a header, then the files of the path with the
/// skeletons and the count of files and hops, or a note that none was found.
pub open spec fn path_text(rel_from: Seq<char>, rel_to: Seq<char>, chain: Option<Seq<String>>,
    skeletons: Option<Seq<(String, String)>>) -> Seq<char> {
    "Path: "@ + rel_from + " -> "@ + rel_to + "\n\n"@ + match chain {
        None => "  (no import path found)\n"@,
        Some(c) => concat_n(c.len(), |i: int| path_line(i, c[i]@)) + skeletons_text(skeletons)
            + "\n"@ + decimal(c.len()) + " files, "@ + decimal((c.len() - 1) as nat) + " hops\n"@,
    }
}

/// Renders the result of a path search: `chain` holds the files of the path
/// (relative paths, from first to last), or is `None` when none was found.
pub fn format_path(rel_from: &str, rel_to: &str, chain: Option<&Vec<String>>,
    skeletons: Option<&Vec<(String, String)>>) -> (r: String)
    requires
        chain matches Some(c) ==> c@.len() >= 1,
    ensures
        r@ == path_text(rel_from@, rel_to@, match chain { Some(v) => Some(v@), None => None },
            match skeletons { Some(v) => Some(v@), None => None }),
{
    let mut out: Vec<char> = Vec::new();
    push_str(&mut out, "Path: ");
    push_str(&mut out, rel_from);
    push_str(&mut out, " -> ");
    push_str(&mut out, rel_to);
    push_str(&mut out, "\n\n");
    let ghost head = out@;
    match chain {
        None => {
            push_str(&mut out, "  (no import path found)\n");
        },
        Some(c) => {
            let ghost f = |i: int| path_line(i, c@[i]@);
            for i in 0..c.len()
                invariant
                    f == (|i: int| path_line(i, c@[i]@)),
                    out@ == head + concat_n(i as nat, f),
            {
                if i == 0 {
                    push_str(&mut out, "  ");
                } else {
                    push_str(&mut out, "  -> ");
                }
                push_str(&mut out, c[i].as_str());
                push_str(&mut out, "\n");
                proof { lemma_concat_n_succ(i as nat, f); }
            }
            push_skeletons(&mut out, skeletons);
            push_str(&mut out, "\n");
            push_decimal(&mut out, c.len());
            push_str(&mut out, " files, ");
            push_decimal(&mut out, c.len() - 1);
            push_str(&mut out, " hops\n");
        },
    }
    string_of(&out)
}


/// The files found by a traversal, relative to `root`, with their depths.
pub fn relative_entries(g: &ImportGraph, found: &Vec<(usize, usize)>, root: &str) -> (r: Vec<(String, usize)>)
    requires
        forall|i: int| 0 <= i < found@.len() ==> (#[trigger] found@[i]).0 < g.files@.len(),
    ensures
        r@.len() == found@.len(),
        forall|i: int| 0 <= i < found@.len() ==> (#[trigger] r@[i]).0@ == relative_to(g.files@[found@[i].0 as int]@, root@)
            && r@[i].1 == found@[i].1,
{
    let mut r: Vec<(String, usize)> = Vec::new();
    for i in 0..found.len()
        invariant
            forall|i: int| 0 <= i < found@.len() ==> (#[trigger] found@[i]).0 < g.files@.len(),
            r@.len() == i,
            forall|k: int| 0 <= k < i ==> (#[trigger] r@[k]).0@ == relative_to(g.files@[found@[k].0 as int]@, root@)
                && r@[k].1 == found@[k].1,
    {
        let (f, d) = found[i];
        r.push((pathdiff(g.files[f].as_str(), root), d));
    }
    r
}

/// The files of a path, relative to `root`.
pub fn relative_files(g: &ImportGraph, path: &Vec<usize>, root: &str) -> (r: Vec<String>)
    requires
        forall|i: int| 0 <= i < path@.len() ==> (#[trigger] path@[i]) < g.files@.len(),
    ensures
        r@.len() == path@.len(),
        forall|i: int| 0 <= i < path@.len() ==> (#[trigger] r@[i])@ == relative_to(g.files@[path@[i] as int]@, root@),
{
    let mut r: Vec<String> = Vec::new();
    for i in 0..path.len()
        invariant
            forall|i: int| 0 <= i < path@.len() ==> (#[trigger] path@[i]) < g.files@.len(),
            r@.len() == i,
            forall|k: int| 0 <= k < i ==> (#[trigger] r@[k])@ == relative_to(g.files@[path@[k] as int]@, root@),
    {
        r.push(pathdiff(g.files[path[i]].as_str(), root));
    }
    r
}


// ---------------------------------------------------------------------------
// What a path search finds
// ---------------------------------------------------------------------------

/// `v` is among the neighbours of `u`.
pub open spec fn has_edge(adj: Seq<Vec<usize>>, u: usize, v: usize) -> bool {
    exists|k: int| 0 <= k < adj[u as int]@.len() && adj[u as int]@[k] == v
}

/// Following `d` parent links from `v` goes through seen nodes along edges and
/// ends at `start`.
pub open spec fn chain_ok(adj: Seq<Vec<usize>>, seen: Seq<bool>, parent: Seq<Option<usize>>, start: usize, v: usize, d: nat) -> bool
    decreases d,
{
    if d == 0 {
        v == start
    } else {
        &&& seen[v as int]
        &&& parent[v as int] matches Some(u)
        &&& has_edge(adj, u, v)
        &&& chain_ok(adj, seen, parent, start, u, (d - 1) as nat)
    }
}

/// A chain survives when more nodes are seen and the parents of the nodes
/// seen before are kept.
proof fn lemma_chain_frame(adj: Seq<Vec<usize>>, s: Seq<bool>, p: Seq<Option<usize>>, s2: Seq<bool>, p2: Seq<Option<usize>>,
    start: usize, v: usize, d: nat)
    requires
        chain_ok(adj, s, p, start, v, d),
        forall|w: int| 0 <= w < s.len() && #[trigger] s[w] ==> s2[w] && p2[w] == p[w],
        s.len() == s2.len(),
        v < s.len(),
        forall|w: int| 0 <= w < p.len() ==> (#[trigger] p[w] matches Some(u) ==> u < s.len()),
        p.len() == s.len(),
    ensures
        chain_ok(adj, s2, p2, start, v, d),
    decreases d,
{
    if d > 0 {
        let u = p[v as int]->0;
        lemma_chain_frame(adj, s, p, s2, p2, start, u, (d - 1) as nat);
    }
}

/// What `add_fresh` changes: nothing about nodes seen before; a node it marks
/// gets `from` as parent and is one of the candidates.
proof fn lemma_add_fresh_parents(seen: Seq<bool>, out: Seq<usize>, parent: Seq<Option<usize>>, from: usize, cands: Seq<usize>)
    requires
        seen.len() == parent.len(),
        forall|i: int| 0 <= i < cands.len() ==> (#[trigger] cands[i]) < seen.len(),
    ensures
        ({
            let (s, o, p) = add_fresh(seen, out, parent, from, cands);
            &&& s.len() == seen.len() && p.len() == parent.len()
            &&& forall|w: int| 0 <= w < seen.len() && #[trigger] seen[w] ==> s[w] && p[w] == parent[w]
            &&& forall|w: int| 0 <= w < seen.len() && #[trigger] s[w] && !seen[w] ==>
                p[w] == Some(from) && exists|k: int| 0 <= k < cands.len() && cands[k] == w
        }),
    decreases cands.len(),
{
    if cands.len() > 0 {
        let rest = cands.drop_last();
        lemma_add_fresh_parents(seen, out, parent, from, rest);
        let (s, o, p) = add_fresh(seen, out, parent, from, rest);
        let v = cands.last();
        assert(v == cands[cands.len() - 1]);
        let (s2, o2, p2) = add_fresh(seen, out, parent, from, cands);
        assert forall|w: int| 0 <= w < seen.len() && #[trigger] s2[w] && !seen[w] implies
            p2[w] == Some(from) && exists|k: int| 0 <= k < cands.len() && cands[k] == w by {
            if w == v as int && !s[v as int] {
                assert(cands[cands.len() - 1] == w);
            } else {
                assert(s[w]);
                let k = choose|k: int| 0 <= k < rest.len() && rest[k] == w;
                assert(cands[k] == w);
            }
        }
    }
}

/// The same for `expand`: a node it marks gets as parent a node of the
/// frontier that has it as a neighbour.
proof fn lemma_expand_parents(adj: Seq<Vec<usize>>, seen: Seq<bool>, out: Seq<usize>, parent: Seq<Option<usize>>, frontier: Seq<usize>)
    requires
        adj_wf(adj, adj.len()),
        seen.len() == adj.len(),
        parent.len() == adj.len(),
        forall|i: int| 0 <= i < frontier.len() ==> (#[trigger] frontier[i]) < adj.len(),
    ensures
        ({
            let (s, o, p) = expand(adj, seen, out, parent, frontier);
            &&& s.len() == seen.len() && p.len() == parent.len()
            &&& forall|w: int| 0 <= w < seen.len() && #[trigger] seen[w] ==> s[w] && p[w] == parent[w]
            &&& forall|w: int| 0 <= w < seen.len() && #[trigger] s[w] && !seen[w] ==>
                (p[w] matches Some(u) && (exists|i: int| 0 <= i < frontier.len() && frontier[i] == u)
                    && has_edge(adj, u, w as usize))
        }),
    decreases frontier.len(),
{
    if frontier.len() > 0 {
        let rest = frontier.drop_last();
        lemma_expand_parents(adj, seen, out, parent, rest);
        let (s, o, p) = expand(adj, seen, out, parent, rest);
        let u = frontier.last();
        assert(u == frontier[frontier.len() - 1]);
        assert forall|i: int| 0 <= i < adj[u as int]@.len() implies (#[trigger] adj[u as int]@[i]) < adj.len() by {}
        lemma_add_fresh_parents(s, o, p, u, adj[u as int]@);
        let (s2, o2, p2) = expand(adj, seen, out, parent, frontier);
        assert forall|w: int| 0 <= w < seen.len() && #[trigger] s2[w] && !seen[w] implies
            (p2[w] matches Some(x) && (exists|i: int| 0 <= i < frontier.len() && frontier[i] == x)
                && has_edge(adj, x, w as usize)) by {
            if s[w] {
                let x = p[w]->0;
                let i = choose|i: int| 0 <= i < rest.len() && rest[i] == x;
                assert(frontier[i] == x);
            } else {
                let k = choose|k: int| 0 <= k < adj[u as int]@.len() && adj[u as int]@[k] == w;
                assert(frontier[frontier.len() - 1] == u);
            }
        }
    }
}

/// The invariant behind the path law: the start is seen and has no parent,
/// every node seen has a chain back to the start of at most `k` links, and
/// the nodes of the last layer have one of exactly `k` links.
spec fn chains_wf(adj: Seq<Vec<usize>>, start: usize, k: nat, st: Search) -> bool {
    &&& st.seen[start as int]
    &&& st.parent[start as int] is None
    &&& forall|v: int| 0 <= v < adj.len() && #[trigger] st.seen[v] ==>
        exists|d: nat| d <= k && #[trigger] chain_ok(adj, st.seen, st.parent, start, v as usize, d)
    &&& forall|i: int| 0 <= i < st.layer.len() ==> chain_ok(adj, st.seen, st.parent, start, #[trigger] st.layer[i], k)
}

proof fn lemma_bfs_chains(adj: Seq<Vec<usize>>, start: usize, k: nat)
    requires
        adj_wf(adj, adj.len()),
        start < adj.len(),
        k <= usize::MAX,
        adj.len() <= usize::MAX,
    ensures
        chains_wf(adj, start, k, bfs(adj, start, k)),
    decreases k,
{
    lemma_bfs_wf(adj, start, k);
    if k == 0 {
        let st = bfs(adj, start, 0);
        assert forall|v: int| 0 <= v < adj.len() && #[trigger] st.seen[v] implies
            exists|d: nat| d <= 0 && #[trigger] chain_ok(adj, st.seen, st.parent, start, v as usize, d) by {
            assert(chain_ok(adj, st.seen, st.parent, start, v as usize, 0));
        }
        assert forall|i: int| 0 <= i < st.layer.len() implies chain_ok(adj, st.seen, st.parent, start, #[trigger] st.layer[i], 0) by {
            assert(st.layer[i] == start);
        }
    } else {
        let km = (k - 1) as nat;
        lemma_bfs_chains(adj, start, km);
        lemma_bfs_wf(adj, start, km);
        lemma_bfs_found(adj, start, km);
        let prev = bfs(adj, start, km);
        lemma_expand_parents(adj, prev.seen, seq![], prev.parent, prev.layer);
        lemma_expand_new(adj, prev.seen, seq![], prev.parent, prev.layer);
        let (s, l, p) = expand(adj, prev.seen, seq![], prev.parent, prev.layer);
        let st = bfs(adj, start, k);
        assert(st.seen == s && st.parent == p && st.layer == l);
        // chains of nodes seen before survive
        assert forall|v: int| 0 <= v < adj.len() && #[trigger] prev.seen[v] implies
            exists|d: nat| d <= k && #[trigger] chain_ok(adj, s, p, start, v as usize, d) by {
            let d = choose|d: nat| d <= km && #[trigger] chain_ok(adj, prev.seen, prev.parent, start, v as usize, d);
            lemma_chain_frame(adj, prev.seen, prev.parent, s, p, start, v as usize, d);
        }
        // nodes of the last layer keep their chains of `km` links
        assert forall|i: int| 0 <= i < prev.layer.len() implies chain_ok(adj, s, p, start, #[trigger] prev.layer[i], km) by {
            lemma_chain_frame(adj, prev.seen, prev.parent, s, p, start, prev.layer[i], km);
        }
        // new nodes hang below a node of the last layer
        assert forall|w: int| 0 <= w < adj.len() && #[trigger] s[w] && !prev.seen[w] implies
            chain_ok(adj, s, p, start, w as usize, k) by {
            let u = p[w]->0;
            assert(p[w] == Some(u));
            assert(has_edge(adj, u, w as usize));
            let i = choose|i: int| 0 <= i < prev.layer.len() && prev.layer[i] == u;
            assert(prev.layer[i] == u);
            assert(chain_ok(adj, s, p, start, prev.layer[i], km));
            assert(chain_ok(adj, s, p, start, u, km));
            assert(s[w]);
            let wu = w as usize;
            assert(wu as int == w);
            assert(chain_ok(adj, s, p, start, wu, k));
        }
        assert forall|v: int| 0 <= v < adj.len() && #[trigger] st.seen[v] implies
            exists|d: nat| d <= k && #[trigger] chain_ok(adj, st.seen, st.parent, start, v as usize, d) by {
            if !prev.seen[v] {
                assert(chain_ok(adj, s, p, start, v as usize, k));
            }
        }
        assert forall|i: int| 0 <= i < st.layer.len() implies chain_ok(adj, st.seen, st.parent, start, #[trigger] st.layer[i], k) by {
            assert(l[i] < adj.len() && !prev.seen[l[i] as int] && s[l[i] as int]);
        }
        assert(prev.parent[start as int] is None);
        assert(p[start as int] == prev.parent[start as int]);
    }
}

/// Following the parents from a node with a chain of `d` links, for at least
/// `d` steps, gives exactly that chain.
proof fn lemma_walk_back_chain(adj: Seq<Vec<usize>>, seen: Seq<bool>, parent: Seq<Option<usize>>, start: usize, v: usize,
    d: nat, fuel: nat)
    requires
        chain_ok(adj, seen, parent, start, v, d),
        d <= fuel,
        parent[start as int] is None,
    ensures
        ({
            let w = walk_back(parent, v, fuel);
            &&& w.len() == d + 1
            &&& w[0] == v
            &&& w[d as int] == start
            &&& forall|i: int| 0 <= i < d ==> has_edge(adj, #[trigger] w[i + 1], w[i])
        }),
    decreases d,
{
    if d == 0 {
        if fuel > 0 {
            assert(parent[v as int] is None);
        }
    } else {
        let u = parent[v as int]->0;
        lemma_walk_back_chain(adj, seen, parent, start, u, (d - 1) as nat, (fuel - 1) as nat);
        let rest = walk_back(parent, u, (fuel - 1) as nat);
        let w = walk_back(parent, v, fuel);
        assert(w == seq![v] + rest);
        assert(w[1] == u && w[0] == v);
        assert(has_edge(adj, u, v));
        assert forall|i: int| 0 <= i < d implies has_edge(adj, #[trigger] w[i + 1], w[i]) by {
            if i > 0 {
                let j = i - 1;
                assert(w[i] == rest[j] && w[i + 1] == rest[j + 1]);
                assert(has_edge(adj, rest[j + 1], rest[j]));
            }
        }
    }
}

/// The path that a search finds is an import chain: it starts at `from`,
/// ends at `to`, each file imports the next, and it has at most `max_depth` hops.
pub proof fn lemma_path_is_import_chain(g: ImportGraph, from: usize, to: usize, max_depth: usize)
    requires
        g.wf(),
        g.files@.len() <= usize::MAX,
        from < g.files@.len(),
        to < g.files@.len(),
        bfs(g.forward@, from, max_depth as nat).seen[to as int],
    ensures
        ({
            let path = walk_back(bfs(g.forward@, from, max_depth as nat).parent, to, max_depth as nat).reverse();
            &&& 1 <= path.len() <= max_depth + 1
            &&& path[0] == from
            &&& path.last() == to
            &&& forall|i: int| 0 <= i < path.len() - 1 ==> has_edge(g.forward@, #[trigger] path[i], path[i + 1])
        }),
{
    let adj = g.forward@;
    let st = bfs(adj, from, max_depth as nat);
    lemma_bfs_chains(adj, from, max_depth as nat);
    lemma_bfs_wf(adj, from, max_depth as nat);
    let d = choose|d: nat| d <= max_depth && #[trigger] chain_ok(adj, st.seen, st.parent, from, to, d);
    lemma_walk_back_chain(adj, st.seen, st.parent, from, to, d, max_depth as nat);
    let w = walk_back(st.parent, to, max_depth as nat);
    let path = w.reverse();
    assert(path[0] == w[d as int]);
    assert(path.last() == w[0]);
    assert forall|i: int| 0 <= i < path.len() - 1 implies has_edge(adj, #[trigger] path[i], path[i + 1]) by {
        let j = d - 1 - i;
        assert(path[i] == w[j + 1] && path[i + 1] == w[j]);
    }
}


// ---------------------------------------------------------------------------
// Building the graph
// ---------------------------------------------------------------------------

/// Whether a walked file enters the graph: it has the requested extension, if
/// one was given, is not a test file when tests are excluded, and has a
/// language that can be parsed.
pub open spec fn keeps_chain_file(path: Seq<char>, file_type: Option<Seq<char>>, no_tests: bool) -> bool {
    &&& (file_type matches Some(ext) ==> has_extension(path, ext))
    &&& !(no_tests && is_test_name(name_or_empty(path)))
    &&& lang_of_path(path) is Some
}

/// The selection of files for the graph.
pub fn keep_chain_file(path: &str, file_type: &Option<String>, no_tests: bool) -> (b: bool)
    ensures
        b == keeps_chain_file(path@, match file_type { Some(e) => Some(e@), None => None }, no_tests),
{
    if let Some(ext) = file_type {
        if !has_extension_exec(path, ext.as_str()) {
            return false;
        }
    }
    if no_tests && crate::walker::is_test_file(path) {
        return false;
    }
    Lang::from_path(path).is_some()
}

/// The local imports (those that start with `.` or `/`) among `imports`, in order.
pub open spec fn local_paths(imports: Seq<Seq<char>>) -> Seq<Seq<char>>
    decreases imports.len(),
{
    if imports.len() == 0 {
        seq![]
    } else {
        let prev = local_paths(imports.drop_last());
        if is_local(imports.last()) { prev.push(imports.last()) } else { prev }
    }
}

/// The local imports of a file, to be resolved into edges of the graph: none
/// when its language is unknown or it does not parse, else those of the tree
/// that parsing gave.
pub fn graph_imports(path: &str, content: &str) -> (r: Vec<String>)
    ensures
        lang_of_path(path@) is None ==> r@.len() == 0,
        match lang_of_path(path@) {
            Some(lang) => {
                &&& !grammar_accepted_of(lang) ==> r@.len() == 0
                &&& grammar_accepted_of(lang) ==> exists|t: SyntaxTree| is_parse_of(t, content@, lang)
                    && r@.map_values(|s: String| s@) == local_paths(t.imports_upto(content@, lang, t.len() as int)
                        .map_values(|x: (Seq<char>, Seq<char>, int)| x.0))
            },
            None => true,
        },
{
    let lang = match Lang::from_path(path) {
        Some(l) => l,
        None => { return Vec::new(); },
    };
    let tree = match parse(content, lang) {
        Ok(t) => t,
        Err(_) => { return Vec::new(); },
    };
    let imports = extract_imports(&tree, content, lang);
    proof {
        let all = tree.imports_upto(content@, lang, tree.len() as int);
        let ps = imports@.map_values(|x: ImportInfo| x.path@);
        let qs = all.map_values(|x: (Seq<char>, Seq<char>, int)| x.0);
        assert forall|k: int| 0 <= k < ps.len() implies #[trigger] ps[k] == qs[k] by {
            assert(imports@[k].path@ == all[k].0);
        }
        assert(ps =~= qs);
    }
    local_imports(&imports)
}

/// The paths of the local imports among `imports` (those that start with `.`
/// or `/`), in order.
pub fn local_imports(imports: &Vec<ImportInfo>) -> (r: Vec<String>)
    ensures
        r@.map_values(|s: String| s@) == local_paths(imports@.map_values(|x: ImportInfo| x.path@)),
{
    let ghost all = imports@.map_values(|x: ImportInfo| x.path@);
    let mut out: Vec<String> = Vec::new();
    for i in 0..imports.len()
        invariant
            all == imports@.map_values(|x: ImportInfo| x.path@),
            out@.map_values(|s: String| s@) == local_paths(all.take(i as int)),
    {
        assert(all.take(i + 1).drop_last() == all.take(i as int));
        assert(all.take(i + 1).last() == imports@[i as int].path@);
        let ghost ov = out@.map_values(|s: String| s@);
        if is_local_path(imports[i].path.as_str()) {
            out.push(imports[i].path.clone());
            assert(out@.map_values(|s: String| s@) == ov.push(imports@[i as int].path@));
        }
    }
    assert(all.take(imports@.len() as int) == all);
    out
}

/// A local import: it starts with `.` or `/`.
pub open spec fn is_local(path: Seq<char>) -> bool {
    starts_with(path, "."@) || starts_with(path, "/"@)
}

fn is_local_path(path: &str) -> (b: bool)
    ensures
        b == is_local(path@),
{
    let p = chars_of(path);
    starts_with_exec(&p, &chars_of(".")) || starts_with_exec(&p, &chars_of("/"))
}


// ---------------------------------------------------------------------------
// The path found is a shortest one
// ---------------------------------------------------------------------------

/// `add_fresh` marks every candidate, and lists every node it marks.
proof fn lemma_add_fresh_covers(seen: Seq<bool>, out: Seq<usize>, parent: Seq<Option<usize>>, from: usize, cands: Seq<usize>)
    requires
        forall|i: int| 0 <= i < cands.len() ==> (#[trigger] cands[i]) < seen.len(),
    ensures
        ({
            let (s, o, p) = add_fresh(seen, out, parent, from, cands);
            &&& s.len() == seen.len()
            &&& o.len() >= out.len()
            &&& forall|k: int| 0 <= k < cands.len() ==> s[#[trigger] cands[k] as int]
            &&& forall|w: int| 0 <= w < seen.len() && #[trigger] s[w] && !seen[w] ==>
                exists|i: int| out.len() <= i < o.len() && o[i] == w
            &&& forall|w: int| 0 <= w < seen.len() && #[trigger] seen[w] ==> s[w]
        }),
    decreases cands.len(),
{
    if cands.len() > 0 {
        let rest = cands.drop_last();
        lemma_add_fresh_covers(seen, out, parent, from, rest);
        let (s, o, p) = add_fresh(seen, out, parent, from, rest);
        let v = cands.last();
        assert(v == cands[cands.len() - 1]);
        let (s2, o2, p2) = add_fresh(seen, out, parent, from, cands);
        assert forall|k: int| 0 <= k < cands.len() implies s2[#[trigger] cands[k] as int] by {
            if k < rest.len() { assert(rest[k] == cands[k]); }
        }
        assert forall|w: int| 0 <= w < seen.len() && #[trigger] s2[w] && !seen[w] implies
            exists|i: int| out.len() <= i < o2.len() && o2[i] == w by {
            if s[w] {
                let i = choose|i: int| out.len() <= i < o.len() && o[i] == w;
                if !s[v as int] { assert(o2[i] == o[i]); }
            } else {
                assert(o2[o.len() as int] == w);
            }
        }
    }
}

/// `expand` marks every neighbour of the frontier, and lists every node it marks.
proof fn lemma_expand_covers(adj: Seq<Vec<usize>>, seen: Seq<bool>, out: Seq<usize>, parent: Seq<Option<usize>>, frontier: Seq<usize>)
    requires
        adj_wf(adj, adj.len()),
        seen.len() == adj.len(),
        forall|i: int| 0 <= i < frontier.len() ==> (#[trigger] frontier[i]) < adj.len(),
    ensures
        ({
            let (s, o, p) = expand(adj, seen, out, parent, frontier);
            &&& s.len() == seen.len()
            &&& o.len() >= out.len()
            &&& forall|f: int, k: int| 0 <= f < frontier.len() && 0 <= k < adj[frontier[f] as int]@.len() ==>
                s[#[trigger] adj[frontier[f] as int]@[k] as int]
            &&& forall|w: int| 0 <= w < seen.len() && #[trigger] s[w] && !seen[w] ==>
                exists|i: int| out.len() <= i < o.len() && o[i] == w
            &&& forall|w: int| 0 <= w < seen.len() && #[trigger] seen[w] ==> s[w]
        }),
    decreases frontier.len(),
{
    if frontier.len() > 0 {
        let rest = frontier.drop_last();
        lemma_expand_covers(adj, seen, out, parent, rest);
        let (s, o, p) = expand(adj, seen, out, parent, rest);
        let u = frontier.last();
        assert(u == frontier[frontier.len() - 1]);
        assert forall|i: int| 0 <= i < adj[u as int]@.len() implies (#[trigger] adj[u as int]@[i]) < s.len() by {}
        lemma_add_fresh_covers(s, o, p, u, adj[u as int]@);
        let (s2, o2, p2) = expand(adj, seen, out, parent, frontier);
        assert forall|f: int, k: int| 0 <= f < frontier.len() && 0 <= k < adj[frontier[f] as int]@.len() implies
            s2[#[trigger] adj[frontier[f] as int]@[k] as int] by {
            if f < rest.len() {
                assert(rest[f] == frontier[f]);
                assert(s[adj[rest[f] as int]@[k] as int]);
            } else {
                assert(adj[u as int]@[k] == adj[frontier[f] as int]@[k]);
            }
        }
        assert forall|w: int| 0 <= w < seen.len() && #[trigger] s2[w] && !seen[w] implies
            exists|i: int| out.len() <= i < o2.len() && o2[i] == w by {
            if s[w] {
                let i = choose|i: int| out.len() <= i < o.len() && o[i] == w;
                lemma_add_fresh_new(adj, s, o, p, u, adj[u as int]@);
                assert(o2.take(o.len() as int) == o);
                assert(o2[i] == o.take(o.len() as int)[i]);
            } else {
                let i = choose|i: int| o.len() <= i < o2.len() && o2[i] == w;
            }
        }
    }
}

/// Between two search states the marks only grow and the parents of marked
/// nodes stay.
proof fn lemma_bfs_frame(adj: Seq<Vec<usize>>, start: usize, i: nat, j: nat)
    requires
        adj_wf(adj, adj.len()),
        start < adj.len(),
        i <= j,
    ensures
        forall|w: int| 0 <= w < adj.len() && #[trigger] bfs(adj, start, i).seen[w] ==>
            bfs(adj, start, j).seen[w] && bfs(adj, start, j).parent[w] == bfs(adj, start, i).parent[w],
    decreases j - i,
{
    if i < j {
        let jm = (j - 1) as nat;
        lemma_bfs_frame(adj, start, i, jm);
        lemma_bfs_wf(adj, start, jm);
        let prev = bfs(adj, start, jm);
        lemma_expand_parents(adj, prev.seen, seq![], prev.parent, prev.layer);
    }
}

/// The neighbours of a node marked after `i` layers are marked after `i + 1`.
proof fn lemma_bfs_neighbours(adj: Seq<Vec<usize>>, start: usize, i: nat, u: usize, k: int)
    requires
        adj_wf(adj, adj.len()),
        start < adj.len(),
        u < adj.len(),
        bfs(adj, start, i).seen[u as int],
        0 <= k < adj[u as int]@.len(),
    ensures
        bfs(adj, start, i + 1).seen[adj[u as int]@[k] as int],
    decreases i,
{
    lemma_bfs_wf(adj, start, i);
    let st = bfs(adj, start, i);
    let v = adj[u as int]@[k];
    if i > 0 && bfs(adj, start, (i - 1) as nat).seen[u as int] {
        lemma_bfs_neighbours(adj, start, (i - 1) as nat, u, k);
        lemma_bfs_frame(adj, start, i, i + 1);
        lemma_bfs_frame(adj, start, (i - 1) as nat, i);
    } else {
        // `u` is in the last layer
        if i == 0 {
            assert(u == start);
            assert(st.layer[0] == u);
        } else {
            let im = (i - 1) as nat;
            lemma_bfs_wf(adj, start, im);
            let prev = bfs(adj, start, im);
            lemma_expand_covers(adj, prev.seen, seq![], prev.parent, prev.layer);
            let q = choose|q: int| 0 <= q < st.layer.len() && st.layer[q] == u;
        }
        let f = choose|f: int| 0 <= f < st.layer.len() && st.layer[f] == u;
        lemma_expand_covers(adj, st.seen, seq![], st.parent, st.layer);
        assert(adj[st.layer[f] as int]@[k] == v);
    }
}

/// Along a walk from the start, the node after `i` steps is marked after `i` layers.
proof fn lemma_walk_marked(adj: Seq<Vec<usize>>, start: usize, walk: Seq<usize>, i: int)
    requires
        adj_wf(adj, adj.len()),
        start < adj.len(),
        walk.len() >= 1,
        walk[0] == start,
        forall|j: int| 0 <= j < walk.len() ==> (#[trigger] walk[j]) < adj.len(),
        forall|j: int| 0 <= j < walk.len() - 1 ==> has_edge(adj, #[trigger] walk[j], walk[j + 1]),
        0 <= i < walk.len(),
    ensures
        bfs(adj, start, i as nat).seen[walk[i] as int],
    decreases i,
{
    if i > 0 {
        lemma_walk_marked(adj, start, walk, i - 1);
        assert(has_edge(adj, walk[i - 1], walk[(i - 1) + 1]));
        let u = walk[i - 1];
        let k = choose|k: int| 0 <= k < adj[u as int]@.len() && #[trigger] adj[u as int]@[k] == walk[i];
        lemma_bfs_neighbours(adj, start, (i - 1) as nat, u, k);
    }
}

/// A node has at most one length of chain back to a start without a parent.
proof fn lemma_chain_unique(adj: Seq<Vec<usize>>, seen: Seq<bool>, parent: Seq<Option<usize>>, start: usize, v: usize,
    d1: nat, d2: nat)
    requires
        chain_ok(adj, seen, parent, start, v, d1),
        chain_ok(adj, seen, parent, start, v, d2),
        parent[start as int] is None,
    ensures
        d1 == d2,
    decreases d1,
{
    if d1 > 0 && d2 > 0 {
        let u = parent[v as int]->0;
        lemma_chain_unique(adj, seen, parent, start, u, (d1 - 1) as nat, (d2 - 1) as nat);
    }
}

/// The path search finds a shortest import chain: whenever `to` can be
/// reached from `from` in at most `max_depth` hops, the path is found and has
/// no more files than any such chain.
pub proof fn lemma_path_is_shortest(g: ImportGraph, from: usize, to: usize, max_depth: usize, walk: Seq<usize>)
    requires
        g.wf(),
        g.files@.len() <= usize::MAX,
        walk.len() >= 1,
        walk.len() <= max_depth + 1,
        walk[0] == from,
        walk.last() == to,
        forall|j: int| 0 <= j < walk.len() ==> (#[trigger] walk[j]) < g.files@.len(),
        forall|j: int| 0 <= j < walk.len() - 1 ==> has_edge(g.forward@, #[trigger] walk[j], walk[j + 1]),
    ensures
        bfs(g.forward@, from, max_depth as nat).seen[to as int],
        walk_back(bfs(g.forward@, from, max_depth as nat).parent, to, max_depth as nat).reverse().len() <= walk.len(),
{
    let adj = g.forward@;
    let m = (walk.len() - 1) as nat;
    assert(walk[m as int] == to);
    lemma_walk_marked(adj, from, walk, m as int);
    lemma_bfs_frame(adj, from, m, max_depth as nat);
    let sm = bfs(adj, from, m);
    let st = bfs(adj, from, max_depth as nat);
    lemma_bfs_chains(adj, from, m);
    lemma_bfs_chains(adj, from, max_depth as nat);
    lemma_bfs_wf(adj, from, m);
    lemma_bfs_wf(adj, from, max_depth as nat);
    let d1 = choose|d: nat| d <= m && #[trigger] chain_ok(adj, sm.seen, sm.parent, from, to, d);
    assert forall|w: int| 0 <= w < sm.seen.len() && #[trigger] sm.seen[w] implies st.seen[w] && st.parent[w] == sm.parent[w] by {}
    lemma_chain_frame(adj, sm.seen, sm.parent, st.seen, st.parent, from, to, d1);
    let d2 = choose|d: nat| d <= max_depth && #[trigger] chain_ok(adj, st.seen, st.parent, from, to, d);
    lemma_chain_unique(adj, st.seen, st.parent, from, to, d1, d2);
    lemma_walk_back_chain(adj, st.seen, st.parent, from, to, d1, max_depth as nat);
}


/// A node listed at depth `d` was not marked after `d - 1` layers.
proof fn lemma_found_fresh(adj: Seq<Vec<usize>>, start: usize, k: nat)
    requires
        adj_wf(adj, adj.len()),
        start < adj.len(),
        k <= usize::MAX,
    ensures
        forall|i: int| 0 <= i < bfs(adj, start, k).found.len() ==> {
            let (v, d) = #[trigger] bfs(adj, start, k).found[i];
            1 <= d <= k && !bfs(adj, start, (d - 1) as nat).seen[v as int]
        },
    decreases k,
{
    if k > 0 {
        let km = (k - 1) as nat;
        lemma_found_fresh(adj, start, km);
        lemma_bfs_wf(adj, start, km);
        let prev = bfs(adj, start, km);
        lemma_expand_new(adj, prev.seen, seq![], prev.parent, prev.layer);
        let (s2, l, p) = expand(adj, prev.seen, seq![], prev.parent, prev.layer);
        let st = bfs(adj, start, k);
        let add = l.map_values(|v: usize| (v, k as usize));
        assert(st.found == prev.found + add);
        assert forall|i: int| 0 <= i < st.found.len() implies {
            let (v, d) = #[trigger] st.found[i];
            1 <= d <= k && !bfs(adj, start, (d - 1) as nat).seen[v as int]
        } by {
            if i < prev.found.len() {
                assert(st.found[i] == prev.found[i]);
            } else {
                let j = i - prev.found.len();
                assert(st.found[i] == add[j]);
                assert(add[j] == (l[j], k as usize));
            }
        }
    }
}

/// The depth a traversal shows for a file is the length of the shortest
/// chain of steps that leads to it: no chain from the start to it is shorter.
pub proof fn lemma_traversal_depth_is_distance(g: ImportGraph, start: usize, forward: bool, max_depth: usize, i: int,
    walk: Seq<usize>)
    requires
        g.wf(),
        start < g.files@.len(),
        0 <= i < bfs(direction(g, forward), start, max_depth as nat).found.len(),
        walk.len() >= 1,
        walk[0] == start,
        walk.last() == bfs(direction(g, forward), start, max_depth as nat).found[i].0,
        forall|j: int| 0 <= j < walk.len() ==> (#[trigger] walk[j]) < g.files@.len(),
        forall|j: int| 0 <= j < walk.len() - 1 ==> has_edge(direction(g, forward), #[trigger] walk[j], walk[j + 1]),
    ensures
        bfs(direction(g, forward), start, max_depth as nat).found[i].1 <= walk.len() - 1,
{
    let adj = direction(g, forward);
    let (v, d) = bfs(adj, start, max_depth as nat).found[i];
    lemma_found_fresh(adj, start, max_depth as nat);
    let m = (walk.len() - 1) as nat;
    assert(walk[m as int] == v);
    lemma_walk_marked(adj, start, walk, m as int);
    if m < d {
        lemma_bfs_frame(adj, start, m, (d - 1) as nat);
        assert(bfs(adj, start, m).seen[v as int]);
    }
}

} // verus!
