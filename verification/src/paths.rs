//! Path operations of `std::path`, on paths held as UTF-8 strings.
//!
//! Component parsing is `std`'s: the functions here call it and name what it
//! returns, and derive the rest (extensions) from those names in verified code.
use vstd::prelude::*;
use crate::text::{chars_of, slice, string_of};

verus! {

/// `str == str` compares the two strings character by character.
pub assume_specification[ <str as PartialEq>::eq ](a: &str, b: &str) -> (r: bool)
    ensures
        r == (a@ == b@),
;

/// What `Path::file_name` returns for a path: its final component, if it has one.
pub uninterp spec fn file_name_of(p: Seq<char>) -> Option<Seq<char>>;

/// What `Path::parent` returns for a path.
pub uninterp spec fn parent_of(p: Seq<char>) -> Option<Seq<char>>;

/// What `Path::strip_prefix` returns: `p` relative to `base`, when `base` is a prefix of it.
pub uninterp spec fn strip_prefix_of(p: Seq<char>, base: Seq<char>) -> Option<Seq<char>>;

/// What `Path::join` returns.
pub uninterp spec fn join_of(base: Seq<char>, rest: Seq<char>) -> Seq<char>;

/// What `Path::with_extension` returns.
pub uninterp spec fn with_extension_of(p: Seq<char>, ext: Seq<char>) -> Seq<char>;

/// `Path::file_name`: the final component of `p` (`None` when `p` ends in `..` or is a root).
/// Nothing is claimed of how components are found beyond naming the result.
#[verifier::external_body]
pub fn file_name(p: &str) -> (r: Option<String>)
    ensures
        r matches Some(n) ==> file_name_of(p@) == Some(n@),
        r is None ==> file_name_of(p@) is None,
{
    std::path::Path::new(p).file_name().map(|n| n.to_string_lossy().to_string())
}

/// `Path::parent`: `p` without its final component.
#[verifier::external_body]
pub fn parent(p: &str) -> (r: Option<String>)
    ensures
        r matches Some(n) ==> parent_of(p@) == Some(n@),
        r is None ==> parent_of(p@) is None,
{
    std::path::Path::new(p).parent().map(|n| n.to_string_lossy().to_string())
}

/// `Path::strip_prefix`: `p` relative to `base`, or `None` when `base` is not a prefix.
#[verifier::external_body]
pub fn strip_prefix(p: &str, base: &str) -> (r: Option<String>)
    ensures
        r matches Some(n) ==> strip_prefix_of(p@, base@) == Some(n@),
        r is None ==> strip_prefix_of(p@, base@) is None,
{
    std::path::Path::new(p).strip_prefix(base).ok().map(|n| n.to_string_lossy().to_string())
}

/// `Path::join`: `rest` appended to `base` (or `rest` itself when it is absolute).
#[verifier::external_body]
pub fn join(base: &str, rest: &str) -> (r: String)
    ensures
        r@ == join_of(base@, rest@),
{
    std::path::Path::new(base).join(rest).to_string_lossy().to_string()
}

/// `Path::with_extension`: `p` with the extension of its file name replaced by `ext`.
/// `std` panics when `ext` holds a path separator, so such extensions are left out.
#[verifier::external_body]
pub fn with_extension(p: &str, ext: &str) -> (r: String)
    requires
        !ext@.contains('/'),
        !ext@.contains('\\'),
    ensures
        r@ == with_extension_of(p@, ext@),
{
    std::path::Path::new(p).with_extension(ext).to_string_lossy().to_string()
}

/// The index of the last occurrence of `c` in `s`, if any.
pub open spec fn last_index_of(s: Seq<char>, c: char) -> Option<int>
    decreases s.len(),
{
    if s.len() == 0 {
        None
    } else if s.last() == c {
        Some(s.len() - 1)
    } else {
        last_index_of(s.drop_last(), c)
    }
}

/// The extension of a file name as `Path::extension` documents it: the part
/// after the final `.`; none when there is no `.`, or only a leading one.
pub open spec fn extension_of_name(name: Seq<char>) -> Option<Seq<char>> {
    match last_index_of(name, '.') {
        Some(k) => if k == 0 { None } else { Some(name.skip(k + 1)) },
        None => None,
    }
}

/// `Path::extension` of a path.
pub open spec fn extension_of(p: Seq<char>) -> Option<Seq<char>> {
    match file_name_of(p) {
        Some(n) => extension_of_name(n),
        None => None,
    }
}

proof fn lemma_last_index_of(s: Seq<char>, c: char, i: int)
    requires
        -1 <= i < s.len(),
        forall|j: int| i < j < s.len() ==> s[j] != c,
        i >= 0 ==> s[i] == c,
    ensures
        last_index_of(s, c) == (if i >= 0 { Some(i) } else { None::<int> }),
    decreases s.len(),
{
    if s.len() > 0 && s.last() != c {
        lemma_last_index_of(s.drop_last(), c, i);
    }
}

/// `rfind` of a character.
pub fn rfind_char(s: &Vec<char>, c: char) -> (r: Option<usize>)
    ensures
        r matches Some(k) ==> last_index_of(s@, c) == Some(k as int) && k < s@.len(),
        r is None ==> last_index_of(s@, c) is None,
{
    let mut i = s.len();
    while i > 0
        invariant
            i <= s@.len(),
            forall|j: int| i <= j < s@.len() ==> s@[j] != c,
        decreases i,
    {
        if s[i - 1] == c {
            proof { lemma_last_index_of(s@, c, i - 1); }
            return Some(i - 1);
        }
        i = i - 1;
    }
    proof { lemma_last_index_of(s@, c, -1); }
    None
}

/// `Path::extension` of `p`, as text.
pub fn extension(p: &str) -> (r: Option<String>)
    ensures
        r matches Some(e) ==> extension_of(p@) == Some(e@),
        r is None ==> extension_of(p@) is None,
{
    match file_name(p) {
        None => None,
        Some(n) => {
            let v = chars_of(n.as_str());
            match rfind_char(&v, '.') {
                None => None,
                Some(k) => {
                    if k == 0 {
                        None
                    } else {
                        let e = slice(&v, k + 1, v.len());
                        assert(e@ == v@.skip(k + 1));
                        Some(string_of(&e))
                    }
                },
            }
        },
    }
}

/// The file name of `p`, or the empty string when it has none
/// (`file_name().unwrap_or_default()`).
pub open spec fn name_or_empty(p: Seq<char>) -> Seq<char> {
    match file_name_of(p) {
        Some(n) => n,
        None => seq![],
    }
}

pub fn file_name_or_empty(p: &str) -> (r: Vec<char>)
    ensures
        r@ == name_or_empty(p@),
{
    match file_name(p) {
        Some(n) => chars_of(n.as_str()),
        None => Vec::new(),
    }
}

/// `path.extension() == Some(ext)`: the file-type filter of the commands.
pub open spec fn has_extension(p: Seq<char>, ext: Seq<char>) -> bool {
    extension_of(p) == Some(ext)
}

pub fn has_extension_exec(p: &str, ext: &str) -> (b: bool)
    ensures
        b == has_extension(p@, ext@),
{
    match extension(p) {
        Some(e) => e.as_str().eq(ext),
        None => false,
    }
}


/// How `Path`'s ordering (component by component) places `a` against `b`:
/// negative before, zero equal, positive after.
pub uninterp spec fn path_order_of(a: Seq<char>, b: Seq<char>) -> i8;

/// `Path::cmp` of two paths, as -1, 0 or 1. The order itself is only named;
/// what is stated of it is the duality that `Ord` documents for every impl
/// (`a.cmp(b)` is `b.cmp(a)` reversed). Transitivity, also documented, is left
/// unsaid: no clause of one call can speak of a third path.
#[verifier::external_body]
pub fn compare_paths(a: &str, b: &str) -> (r: i8)
    ensures
        r == path_order_of(a@, b@),
        r == -path_order_of(b@, a@),
        -1 <= r <= 1,
{
    match std::path::Path::new(a).cmp(std::path::Path::new(b)) {
        std::cmp::Ordering::Less => -1,
        std::cmp::Ordering::Equal => 0,
        std::cmp::Ordering::Greater => 1,
    }
}


/// How many components `Path::components` yields for `p`.
pub uninterp spec fn component_count_of(p: Seq<char>) -> usize;

/// `Path::components().count()`: the number of components of `p`; named, not stated.
#[verifier::external_body]
pub fn component_count(p: &str) -> (r: usize)
    ensures
        r == component_count_of(p@),
{
    std::path::Path::new(p).components().count()
}


/// The last of `Path::ancestors` of `p` (its root, or the empty path for a
/// relative path).
pub uninterp spec fn last_ancestor_of(p: Seq<char>) -> Seq<char>;

/// `p.ancestors().last()`, or `p` itself when there is none; named, not stated.
#[verifier::external_body]
pub fn last_ancestor(p: &str) -> (r: String)
    ensures
        r@ == last_ancestor_of(p@),
{
    let path = std::path::Path::new(p);
    path.ancestors().last().unwrap_or(path).to_string_lossy().to_string()
}

/// Whether `Path::starts_with` holds: `base` is a prefix of `p` by whole components.
pub uninterp spec fn path_starts_with_of(p: Seq<char>, base: Seq<char>) -> bool;

/// `Path::starts_with`; named, not stated.
#[verifier::external_body]
pub fn path_starts_with(p: &str, base: &str) -> (r: bool)
    ensures
        r == path_starts_with_of(p@, base@),
{
    std::path::Path::new(p).starts_with(base)
}

} // verus!
