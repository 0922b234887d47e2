//! Import path resolution: the candidate files an import may name, tried in
//! order.
use vstd::prelude::*;
use crate::paths::{join, join_of, parent, parent_of, with_extension, with_extension_of};
use crate::text::{push_str, string_of};

verus! {

/// The source file extensions tried, in order of likelihood.
pub open spec fn source_extensions() -> Seq<Seq<char>> {
    seq!["ts"@, "tsx"@, "js"@, "jsx"@, "mts"@, "mjs"@, "cjs"@, "rs"@, "py"@, "pyi"@, "go"@, "rb"@, "java"@, "kt"@,
        "scala"@, "cs"@, "swift"@, "c"@, "h"@, "cpp"@, "hpp"@, "cc"@]
}

/// No extension holds a path separator.
pub open spec fn plain_extensions(es: Seq<Seq<char>>) -> bool {
    forall|i: int| 0 <= i < es.len() ==> !(#[trigger] es[i]).contains('/') && !es[i].contains('\\')
}

/// The source file extensions tried, in order.
pub fn source_extension_list() -> (r: Vec<&'static str>)
    ensures
        r@.map_values(|s: &str| s@) == source_extensions(),
        plain_extensions(source_extensions()),
{
    let r = vec!["ts", "tsx", "js", "jsx", "mts", "mjs", "cjs", "rs", "py", "pyi", "go", "rb", "java", "kt", "scala",
        "cs", "swift", "c", "h", "cpp", "hpp", "cc"];
    assert(r@.map_values(|s: &str| s@) =~= source_extensions());
    proof {
        reveal_strlit("ts");
        reveal_strlit("tsx");
        reveal_strlit("js");
        reveal_strlit("jsx");
        reveal_strlit("mts");
        reveal_strlit("mjs");
        reveal_strlit("cjs");
        reveal_strlit("rs");
        reveal_strlit("py");
        reveal_strlit("pyi");
        reveal_strlit("go");
        reveal_strlit("rb");
        reveal_strlit("java");
        reveal_strlit("kt");
        reveal_strlit("scala");
        reveal_strlit("cs");
        reveal_strlit("swift");
        reveal_strlit("c");
        reveal_strlit("h");
        reveal_strlit("cpp");
        reveal_strlit("hpp");
        reveal_strlit("cc");
        let es = source_extensions();
        assert forall|i: int| 0 <= i < es.len() implies !(#[trigger] es[i]).contains('/') && !es[i].contains('\\') by {
            assert(es[i].len() <= 5);
            assert forall|j: int| 0 <= j < es[i].len() implies es[i][j] != '/' && es[i][j] != '\\' by {}
        }
    }
    r
}

/// How a candidate must be found on disk.
#[derive(Clone, Copy, PartialEq, Eq, Debug, Structural)]
pub enum Check {
    /// It exists and is a file.
    IsFile,
    /// It exists.
    Exists,
}

/// The candidates for `import_path` in `dir`, in the order they are tried:
/// the path itself (as a file), then with each source extension, then an
/// `index` file with each source extension inside it.
pub open spec fn candidates(import_path: Seq<char>, dir: Seq<char>) -> Seq<(Seq<char>, Check)> {
    let c = join_of(dir, import_path);
    let exts = source_extensions();
    seq![(c, Check::IsFile)]
        + exts.map_values(|e: Seq<char>| (with_extension_of(c, e), Check::Exists))
        + exts.map_values(|e: Seq<char>| (join_of(c, "index."@ + e), Check::Exists))
}

/// The candidate files for an import, each with the check it must pass.
pub fn import_candidates(import_path: &str, dir: &str) -> (r: Vec<(String, Check)>)
    ensures
        r@.map_values(|x: (String, Check)| (x.0@, x.1)) == candidates(import_path@, dir@),
{
    let c = join(dir, import_path);
    let exts = source_extension_list();
    let ghost ev = exts@.map_values(|s: &str| s@);
    let mut r: Vec<(String, Check)> = Vec::new();
    r.push((c.clone(), Check::IsFile));
    let ghost first = seq![(c@, Check::IsFile)];
    assert(r@.map_values(|x: (String, Check)| (x.0@, x.1)) == first);
    for i in 0..exts.len()
        invariant
            ev == exts@.map_values(|s: &str| s@),
            ev == source_extensions(),
            plain_extensions(ev),
            r@.map_values(|x: (String, Check)| (x.0@, x.1))
                == first + ev.take(i as int).map_values(|e: Seq<char>| (with_extension_of(c@, e), Check::Exists)),
    {
        let ghost rv = r@.map_values(|x: (String, Check)| (x.0@, x.1));
        assert(exts@[i as int]@ == ev[i as int]);
        r.push((with_extension(c.as_str(), exts[i]), Check::Exists));
        assert(ev.take(i + 1) == ev.take(i as int).push(ev[i as int]));
        assert(r@.map_values(|x: (String, Check)| (x.0@, x.1)) == rv.push((with_extension_of(c@, ev[i as int]), Check::Exists)));
    }
    assert(ev.take(ev.len() as int) == ev);
    let ghost second = r@.map_values(|x: (String, Check)| (x.0@, x.1));
    for i in 0..exts.len()
        invariant
            ev == exts@.map_values(|s: &str| s@),
            ev == source_extensions(),
            r@.map_values(|x: (String, Check)| (x.0@, x.1))
                == second + ev.take(i as int).map_values(|e: Seq<char>| (join_of(c@, "index."@ + e), Check::Exists)),
    {
        let ghost rv = r@.map_values(|x: (String, Check)| (x.0@, x.1));
        let mut name: Vec<char> = Vec::new();
        push_str(&mut name, "index.");
        push_str(&mut name, exts[i]);
        let ns = string_of(&name);
        r.push((join(c.as_str(), ns.as_str()), Check::Exists));
        assert(ev.take(i + 1) == ev.take(i as int).push(ev[i as int]));
        assert(r@.map_values(|x: (String, Check)| (x.0@, x.1)) == rv.push((join_of(c@, "index."@ + ev[i as int]), Check::Exists)));
    }
    r
}

/// The first candidate that passed its check, if any.
pub open spec fn first_passing(cands: Seq<(Seq<char>, Check)>, passed: Seq<bool>) -> Option<Seq<char>>
    decreases cands.len(),
{
    if cands.len() == 0 || passed.len() == 0 {
        None
    } else if passed[0] {
        Some(cands[0].0)
    } else {
        first_passing(cands.drop_first(), passed.drop_first())
    }
}

/// Resolves a relative import within a directory: `passed[i]` tells whether
/// candidate `i` of `import_candidates` passed its check on disk.
pub fn resolve_import_in(import_path: &str, dir: &str, passed: &Vec<bool>) -> (r: Option<String>)
    ensures
        match r {
            Some(p) => first_passing(candidates(import_path@, dir@), passed@) == Some(p@),
            None => first_passing(candidates(import_path@, dir@), passed@) is None,
        },
{
    let cands = import_candidates(import_path, dir);
    let ghost cv = cands@.map_values(|x: (String, Check)| (x.0@, x.1));
    let mut i: usize = 0;
    assert(cv.skip(0) == cv && passed@.skip(0) == passed@);
    while i < cands.len() && i < passed.len()
        invariant
            cv == cands@.map_values(|x: (String, Check)| (x.0@, x.1)),
            cv == candidates(import_path@, dir@),
            i <= cands@.len(),
            i <= passed@.len(),
            first_passing(cv, passed@) == first_passing(cv.skip(i as int), passed@.skip(i as int)),
        decreases cands@.len() - i,
    {
        if passed[i] {
            assert(cv.skip(i as int)[0] == (cands@[i as int].0@, cands@[i as int].1));
            return Some(cands[i].0.clone());
        }
        assert(cv.skip(i as int).drop_first() == cv.skip(i + 1));
        assert(passed@.skip(i as int).drop_first() == passed@.skip(i + 1));
        i = i + 1;
    }
    assert(cv.skip(i as int).len() == 0 || passed@.skip(i as int).len() == 0);
    None
}

/// The directory an import of `from_file` is resolved in.
pub open spec fn import_dir(from_file: Seq<char>) -> Option<Seq<char>> {
    parent_of(from_file)
}

/// Resolves a relative import of the file `from_file`, in its directory;
/// `passed` as for `resolve_import_in`.
pub fn resolve_import(import_path: &str, from_file: &str, passed: &Vec<bool>) -> (r: Option<String>)
    ensures
        match import_dir(from_file@) {
            None => r is None,
            Some(d) => match r {
                Some(p) => first_passing(candidates(import_path@, d), passed@) == Some(p@),
                None => first_passing(candidates(import_path@, d), passed@) is None,
            },
        },
{
    match parent(from_file) {
        None => None,
        Some(dir) => resolve_import_in(import_path, dir.as_str(), passed),
    }
}

} // verus!
