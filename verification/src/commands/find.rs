//! `ctx find`: the walked files whose name matches a glob, newest first.
use vstd::prelude::*;
use crate::paths::{file_name, file_name_of, has_extension, has_extension_exec};
use crate::text::{concat_n, lemma_concat_n_succ, push_str, string_of};

verus! {

/// The options of `ctx find`.
pub struct FindArgs {
    /// Glob pattern to match file names (e.g., '*Model*', '*.graphql').
    pub pattern: String,
    /// Root directory to search in.
    pub path: String,
    /// Filter by file extension (e.g., ts, rs, py).
    pub file_type: Option<String>,
    /// Maximum number of results.
    pub limit: usize,
    /// Include gitignored files.
    pub no_gitignore: bool,
    /// Filter output through the assistant with a question.
    pub ask: Option<String>,
    /// Output as JSON.
    pub json: bool,
}

/// What building a glob set from a pattern reports (`Glob::new`, then
/// `GlobSet::new` on that one glob, which compiles its matcher): `None` when
/// both succeed, else the error's message.
pub uninterp spec fn glob_error_of(pattern: Seq<char>) -> Option<Seq<char>>;

/// Whether the glob set built from a valid pattern matches a file name.
pub uninterp spec fn glob_match_of(pattern: Seq<char>, name: Seq<char>) -> bool;

/// `globset::Glob::new`, then `GlobSet::new` on the one glob: whether the
/// pattern parses and its matcher compiles (a too large matcher is an error
/// here, not a panic), and the error's text when not; named, not stated.
#[verifier::external_body]
pub fn check_glob(pattern: &str) -> (r: Result<(), String>)
    ensures
        r is Ok <==> glob_error_of(pattern@) is None,
        r matches Err(e) ==> glob_error_of(pattern@) == Some(e@),
{
    let set = match globset::Glob::new(pattern) {
        Ok(g) => globset::GlobSet::new([g]),
        Err(e) => Err(e),
    };
    match set {
        Ok(_) => Ok(()),
        Err(e) => Err(e.to_string()),
    }
}

/// `GlobSet::is_match` of the set built from a valid pattern, on a file name;
/// what it matches is named, not stated.
#[verifier::external_body]
fn glob_matches(pattern: &str, name: &str) -> (r: bool)
    requires
        glob_error_of(pattern@) is None,
    ensures
        r == glob_match_of(pattern@, name@),
{
    let set = match globset::Glob::new(pattern) {
        Ok(g) => globset::GlobSet::new([g]),
        Err(e) => Err(e),
    };
    match set {
        Ok(set) => set.is_match(name),
        Err(_) => false,
    }
}

/// Whether a walked file (not a directory) is listed: it has a file name
/// that the glob matches, and the requested extension if one was given.
pub open spec fn find_keeps(path: Seq<char>, pattern: Seq<char>, file_type: Option<Seq<char>>) -> bool {
    &&& file_name_of(path) matches Some(n) && glob_match_of(pattern, n)
    &&& (file_type matches Some(ext) ==> has_extension(path, ext))
}

/// The selection that `ctx find` applies to each walked file.
pub(crate) fn keep_found(path: &str, pattern: &str, file_type: &Option<String>) -> (b: bool)
    requires
        glob_error_of(pattern@) is None,
    ensures
        b == find_keeps(path@, pattern@, match file_type { Some(e) => Some(e@), None => None }),
{
    let name = match file_name(path) {
        Some(n) => n,
        None => { return false; },
    };
    if !glob_matches(pattern, name.as_str()) {
        return false;
    }
    if let Some(ext) = file_type {
        if !has_extension_exec(path, ext.as_str()) {
            return false;
        }
    }
    true
}

/// Whether the walk has found as many files as it may.
pub fn find_done(found: usize, limit: usize) -> (b: bool)
    ensures
        b == (found >= limit),
{
    found >= limit
}

/// `s` (newest first) with `x` inserted after every file modified no earlier
/// than it.
pub open spec fn insert_by_time(s: Seq<(Seq<char>, u64)>, x: (Seq<char>, u64)) -> Seq<(Seq<char>, u64)>
    decreases s.len(),
{
    if s.len() == 0 {
        seq![x]
    } else if s.last().1 >= x.1 {
        s.push(x)
    } else {
        insert_by_time(s.drop_last(), x).push(s.last())
    }
}

/// `s` stably sorted by modification time, newest first.
pub open spec fn newest_first(s: Seq<(Seq<char>, u64)>) -> Seq<(Seq<char>, u64)>
    decreases s.len(),
{
    if s.len() == 0 { seq![] } else { insert_by_time(newest_first(s.drop_last()), s.last()) }
}

/// A found file as plain values: its path and modification time.
pub open spec fn found_view(f: (String, u64)) -> (Seq<char>, u64) {
    (f.0@, f.1)
}

fn insert_by_time_exec(s: Vec<(String, u64)>, x: (String, u64)) -> (r: Vec<(String, u64)>)
    ensures
        r@.map_values(|f: (String, u64)| found_view(f)) == insert_by_time(s@.map_values(|f: (String, u64)| found_view(f)), found_view(x)),
    decreases s@.len(),
{
    let mut s = s;
    let ghost sv = s@.map_values(|f: (String, u64)| found_view(f));
    let n = s.len();
    if n == 0 {
        s.push(x);
        assert(s@.map_values(|f: (String, u64)| found_view(f)) == seq![found_view(x)]);
        s
    } else if s[n - 1].1 >= x.1 {
        s.push(x);
        assert(s@.map_values(|f: (String, u64)| found_view(f)) == sv.push(found_view(x)));
        s
    } else {
        let last = s.pop().unwrap();
        assert(s@.map_values(|f: (String, u64)| found_view(f)) == sv.drop_last());
        let mut r = insert_by_time_exec(s, x);
        let ghost rv = r@.map_values(|f: (String, u64)| found_view(f));
        r.push(last);
        assert(r@.map_values(|f: (String, u64)| found_view(f)) == rv.push(found_view(last)));
        r
    }
}

/// Sorts the files found by modification time, newest first; files modified
/// at the same time keep their order.
pub fn sort_found(found: Vec<(String, u64)>) -> (r: Vec<(String, u64)>)
    ensures
        r@.map_values(|f: (String, u64)| found_view(f)) == newest_first(found@.map_values(|f: (String, u64)| found_view(f))),
{
    let ghost input = found@.map_values(|f: (String, u64)| found_view(f));
    let n = found.len();
    let mut rest = found;
    let mut taken: Vec<(String, u64)> = Vec::new();
    let mut i: usize = n;
    while i > 0
        invariant
            i <= n,
            n == input.len(),
            rest@.len() == i,
            rest@.map_values(|f: (String, u64)| found_view(f)) == input.take(i as int),
            taken@.len() == n - i,
            forall|k: int| 0 <= k < n - i ==> found_view(#[trigger] taken@[k]) == input[n - 1 - k],
        decreases i,
    {
        let ghost rv = rest@.map_values(|f: (String, u64)| found_view(f));
        let x = rest.pop().unwrap();
        assert(rest@.map_values(|f: (String, u64)| found_view(f)) == rv.drop_last());
        assert(rv[i - 1] == found_view(x));
        assert(rv[i - 1] == input.take(i as int)[i - 1]);
        taken.push(x);
        i = i - 1;
    }
    let mut sorted: Vec<(String, u64)> = Vec::new();
    let mut k: usize = 0;
    while taken.len() > 0
        invariant
            k + taken@.len() == n,
            n == input.len(),
            forall|q: int| 0 <= q < taken@.len() ==> found_view(#[trigger] taken@[q]) == input[n - 1 - q],
            sorted@.map_values(|f: (String, u64)| found_view(f)) == newest_first(input.take(k as int)),
        decreases taken@.len(),
    {
        let x = taken.pop().unwrap();
        assert(found_view(x) == input[k as int]);
        assert(input.take(k + 1).drop_last() == input.take(k as int));
        sorted = insert_by_time_exec(sorted, x);
        k = k + 1;
    }
    assert(input.take(n as int) == input);
    sorted
}

/// The text listing: one path per line (nothing when none was found).
pub open spec fn found_text(found: Seq<Seq<char>>) -> Seq<char> {
    concat_n(found.len(), |i: int| found[i] + seq!['\n'])
}

/// Renders the files found, one per line.
pub fn format_found(found: &Vec<String>) -> (r: String)
    ensures
        r@ == found_text(found@.map_values(|p: String| p@)),
{
    let ghost fv = found@.map_values(|p: String| p@);
    let ghost f = |i: int| fv[i] + seq!['\n'];
    let mut out: Vec<char> = Vec::new();
    for i in 0..found.len()
        invariant
            fv == found@.map_values(|p: String| p@),
            f == (|i: int| fv[i] + seq!['\n']),
            out@ == concat_n(i as nat, f),
    {
        push_str(&mut out, found[i].as_str());
        out.push('\n');
        proof { lemma_concat_n_succ(i as nat, f); }
    }
    string_of(&out)
}


/// The files listed from the walked entries (path, whether a directory,
/// modification time), in walk order: those kept, at most `limit` of them,
/// each with its time.
pub open spec fn found_in(entries: Seq<(Seq<char>, bool, u64)>, pattern: Seq<char>, file_type: Option<Seq<char>>, limit: nat)
    -> Seq<(Seq<char>, u64)>
    decreases entries.len(),
{
    if entries.len() == 0 {
        seq![]
    } else {
        let prev = found_in(entries.drop_last(), pattern, file_type, limit);
        let (p, is_dir, t) = entries.last();
        if prev.len() < limit && !is_dir && find_keeps(p, pattern, file_type) { prev.push((p, t)) } else { prev }
    }
}

/// A walked entry as plain values.
pub open spec fn walked_view(e: (String, bool, u64)) -> (Seq<char>, bool, u64) {
    (e.0@, e.1, e.2)
}

/// `ctx find` on the walked entries: the error of an invalid glob, or the
/// paths of the files kept (at most `limit`, taken in walk order), newest
/// first by modification time.
pub fn find_files(entries: &Vec<(String, bool, u64)>, pattern: &str, file_type: &Option<String>, limit: usize)
    -> (r: Result<Vec<String>, String>)
    ensures
        match r {
            Err(e) => glob_error_of(pattern@) == Some(e@),
            Ok(v) => glob_error_of(pattern@) is None && v@.map_values(|p: String| p@) == newest_first(found_in(
                entries@.map_values(|e: (String, bool, u64)| walked_view(e)), pattern@,
                match file_type { Some(e) => Some(e@), None => None }, limit as nat)).map_values(|f: (Seq<char>, u64)| f.0),
        },
{
    if let Err(e) = check_glob(pattern) {
        return Err(e);
    }
    let ghost ev = entries@.map_values(|e: (String, bool, u64)| walked_view(e));
    let ghost ft = match file_type { Some(e) => Some(e@), None => None };
    let mut found: Vec<(String, u64)> = Vec::new();
    for i in 0..entries.len()
        invariant
            glob_error_of(pattern@) is None,
            ev == entries@.map_values(|e: (String, bool, u64)| walked_view(e)),
            ft == match file_type { Some(e) => Some(e@), None => None },
            found@.map_values(|f: (String, u64)| found_view(f)) == found_in(ev.take(i as int), pattern@, ft, limit as nat),
    {
        assert(ev.take(i + 1).drop_last() == ev.take(i as int));
        assert(ev.take(i + 1).last() == walked_view(entries@[i as int]));
        let ghost fv = found@.map_values(|f: (String, u64)| found_view(f));
        if found.len() < limit && !entries[i].1 && keep_found(entries[i].0.as_str(), pattern, file_type) {
            found.push((entries[i].0.clone(), entries[i].2));
            assert(found@.map_values(|f: (String, u64)| found_view(f)) == fv.push((entries@[i as int].0@, entries@[i as int].2)));
        }
    }
    assert(ev.take(entries@.len() as int) == ev);
    let sorted = sort_found(found);
    let ghost sv = sorted@.map_values(|f: (String, u64)| found_view(f));
    let mut out: Vec<String> = Vec::new();
    for j in 0..sorted.len()
        invariant
            sv == sorted@.map_values(|f: (String, u64)| found_view(f)),
            out@.map_values(|p: String| p@) == sv.take(j as int).map_values(|f: (Seq<char>, u64)| f.0),
    {
        let ghost ov = out@.map_values(|p: String| p@);
        out.push(sorted[j].0.clone());
        assert(out@.map_values(|p: String| p@) == ov.push(sv[j as int].0));
        assert(sv.take(j + 1) == sv.take(j as int).push(sv[j as int]));
    }
    assert(sv.take(sorted@.len() as int) == sv);
    Ok(out)
}


/// No file is listed before one modified later.
pub open spec fn newest_first_order(s: Seq<(Seq<char>, u64)>) -> bool {
    forall|i: int, j: int| 0 <= i < j < s.len() ==> (#[trigger] s[i]).1 >= (#[trigger] s[j]).1
}

proof fn lemma_insert_by_time(s: Seq<(Seq<char>, u64)>, x: (Seq<char>, u64))
    requires
        newest_first_order(s),
    ensures
        newest_first_order(insert_by_time(s, x)),
        insert_by_time(s, x).to_multiset() == s.to_multiset().insert(x),
    decreases s.len(),
{
    broadcast use vstd::seq_lib::group_to_multiset_ensures;
    let r = insert_by_time(s, x);
    if s.len() == 0 {
        assert(seq![x] == Seq::<(Seq<char>, u64)>::empty().push(x));
    } else if s.last().1 >= x.1 {
        assert forall|i: int, j: int| 0 <= i < j < r.len() implies (#[trigger] r[i]).1 >= (#[trigger] r[j]).1 by {
            if j == s.len() {
                assert(r[i] == s[i] && r[j] == x);
                if i < s.len() - 1 {
                    assert(s[i].1 >= s[s.len() - 1].1);
                }
            } else {
                assert(r[i] == s[i] && r[j] == s[j]);
            }
        }
    } else {
        let rest = s.drop_last();
        let l = s.last();
        assert(newest_first_order(rest)) by {
            assert forall|i: int, j: int| 0 <= i < j < rest.len() implies (#[trigger] rest[i]).1 >= (#[trigger] rest[j]).1 by {
                assert(rest[i] == s[i] && rest[j] == s[j]);
            }
        }
        lemma_insert_by_time(rest, x);
        let t = insert_by_time(rest, x);
        assert(r == t.push(l));
        assert(s == rest.push(l));
        assert forall|i: int, j: int| 0 <= i < j < r.len() implies (#[trigger] r[i]).1 >= (#[trigger] r[j]).1 by {
            if j == t.len() {
                assert(r[j] == l && r[i] == t[i]);
                assert(t.to_multiset().count(t[i]) > 0);
                assert(rest.to_multiset().insert(x).count(t[i]) > 0);
                if t[i] != x {
                    assert(rest.to_multiset().count(t[i]) > 0);
                    assert(rest.contains(t[i]));
                    let k = choose|k: int| 0 <= k < rest.len() && rest[k] == t[i];
                    assert(s[k] == t[i] && s[s.len() - 1] == l);
                }
            } else {
                assert(r[i] == t[i] && r[j] == t[j]);
            }
        }
    }
}

/// Sorting the found files lists them newest first, each file kept as often
/// as it was found.
pub proof fn lemma_found_sorted(s: Seq<(Seq<char>, u64)>)
    ensures
        newest_first_order(newest_first(s)),
        newest_first(s).to_multiset() == s.to_multiset(),
    decreases s.len(),
{
    broadcast use vstd::seq_lib::group_to_multiset_ensures;
    if s.len() == 0 {
        assert(newest_first(s) =~= s);
    } else {
        lemma_found_sorted(s.drop_last());
        lemma_insert_by_time(newest_first(s.drop_last()), s.last());
        assert(s == s.drop_last().push(s.last()));
    }
}

} // verus!
