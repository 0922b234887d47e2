//! Character-level text utilities shared by all commands: line splitting,
//! trimming, searching and decimal rendering, each with its specification.
use vstd::prelude::*;

verus! {

broadcast use vstd::string::group_string_axioms;

/// `String::push` appends one character.
pub assume_specification[ String::push ](s: &mut String, ch: char)
    ensures
        final(s)@ == old(s)@.push(ch),
;

/// The characters of a string slice, in order.
pub fn chars_of(s: &str) -> (v: Vec<char>)
    ensures
        v@ == s@,
{
    let mut v: Vec<char> = Vec::new();
    for c in it: s.chars()
        invariant
            v@ == it.seq().take(it.index() as int),
    {
        v.push(c);
    }
    v
}

/// A `String` holding exactly the given characters.
pub fn string_of(v: &Vec<char>) -> (s: String)
    ensures
        s@ == v@,
{
    let mut s = String::new();
    for i in 0..v.len()
        invariant
            s@ == v@.take(i as int),
    {
        s.push(v[i]);
        assert(v@.take(i + 1) == v@.take(i as int).push(v@[i as int]));
    }
    assert(v@.take(v@.len() as int) == v@);
    s
}

/// Appends all characters of `src` to `out`.
pub fn push_all(out: &mut Vec<char>, src: &Vec<char>)
    ensures
        final(out)@ == old(out)@ + src@,
{
    let ghost start = out@;
    for i in 0..src.len()
        invariant
            out@ == start + src@.take(i as int),
    {
        out.push(src[i]);
        assert(src@.take(i + 1) == src@.take(i as int).push(src@[i as int]));
    }
    assert(src@.take(src@.len() as int) == src@);
}

/// Appends the characters of a string slice to `out`.
pub fn push_str(out: &mut Vec<char>, s: &str)
    ensures
        final(out)@ == old(out)@ + s@,
{
    let v = chars_of(s);
    push_all(out, &v);
}

// ---------------------------------------------------------------------------
// Decimal rendering
// ---------------------------------------------------------------------------

/// The ASCII digit for `d < 10`.
pub open spec fn digit_char(d: nat) -> char {
    if d == 0 { '0' }
    else if d == 1 { '1' }
    else if d == 2 { '2' }
    else if d == 3 { '3' }
    else if d == 4 { '4' }
    else if d == 5 { '5' }
    else if d == 6 { '6' }
    else if d == 7 { '7' }
    else if d == 8 { '8' }
    else { '9' }
}

/// The decimal representation of `n`, without leading zeros (as `{}` prints it).
pub open spec fn decimal(n: nat) -> Seq<char>
    decreases n,
{
    if n < 10 {
        seq![digit_char(n)]
    } else {
        decimal(n / 10).push(digit_char(n % 10))
    }
}

/// `{:w}` of a number: the decimal text, right-aligned in `w` columns.
pub open spec fn padded_decimal(n: nat, w: nat) -> Seq<char> {
    let d = decimal(n);
    if d.len() >= w {
        d
    } else {
        Seq::new((w - d.len()) as nat, |i: int| ' ') + d
    }
}

fn digit_of(d: usize) -> (c: char)
    requires
        d < 10,
    ensures
        c == digit_char(d as nat),
{
    if d == 0 { '0' }
    else if d == 1 { '1' }
    else if d == 2 { '2' }
    else if d == 3 { '3' }
    else if d == 4 { '4' }
    else if d == 5 { '5' }
    else if d == 6 { '6' }
    else if d == 7 { '7' }
    else if d == 8 { '8' }
    else { '9' }
}

/// Appends the decimal text of `n`.
pub fn push_decimal(out: &mut Vec<char>, n: usize)
    ensures
        final(out)@ == old(out)@ + decimal(n as nat),
    decreases n,
{
    if n >= 10 {
        push_decimal(out, n / 10);
    }
    let c = digit_of(n % 10);
    out.push(c);
    proof {
        if n >= 10 {
            assert(old(out)@ + decimal(n as nat) == old(out)@ + decimal((n / 10) as nat) + seq![c]);
        } else {
            assert(decimal(n as nat) == seq![c]);
        }
    }
}

/// The number of characters in the decimal text of `n`.
pub fn decimal_len(n: usize) -> (l: usize)
    ensures
        l == decimal(n as nat).len(),
        1 <= l <= n + 1,
    decreases n,
{
    if n >= 10 {
        decimal_len(n / 10) + 1
    } else {
        1
    }
}

/// Appends `{:w}` of `n`: the decimal text right-aligned in `w` columns.
pub fn push_padded_decimal(out: &mut Vec<char>, n: usize, w: usize)
    ensures
        final(out)@ == old(out)@ + padded_decimal(n as nat, w as nat),
{
    let l = decimal_len(n);
    let ghost start = out@;
    if l < w {
        let mut k: usize = 0;
        while k < w - l
            invariant
                l < w,
                out@ == start + Seq::new(k as nat, |i: int| ' '),
                k <= w - l,
            decreases w - l - k,
        {
            out.push(' ');
            k = k + 1;
            assert(out@ == start + Seq::new(k as nat, |i: int| ' '));
        }
    }
    push_decimal(out, n);
}

/// Appends `count` copies of the characters of `unit`.
pub fn push_repeat(out: &mut Vec<char>, unit: &Vec<char>, count: usize)
    ensures
        final(out)@ == old(out)@ + repeat(unit@, count as nat),
{
    let ghost start = out@;
    for k in 0..count
        invariant
            out@ == start + repeat(unit@, k as nat),
    {
        push_all(out, unit);
        proof { lemma_repeat_succ(unit@, k as nat); }
    }
}

/// `count` copies of `unit`, concatenated (`str::repeat`).
pub open spec fn repeat(unit: Seq<char>, count: nat) -> Seq<char>
    decreases count,
{
    if count == 0 { seq![] } else { repeat(unit, (count - 1) as nat) + unit }
}

proof fn lemma_repeat_succ(unit: Seq<char>, k: nat)
    ensures
        repeat(unit, k + 1) == repeat(unit, k) + unit,
{
}

/// The concatenation of the given pieces.
pub open spec fn concat(parts: Seq<Seq<char>>) -> Seq<char>
    decreases parts.len(),
{
    if parts.len() == 0 { seq![] } else { concat(parts.drop_last()) + parts.last() }
}

/// The concatenation of `f(0)`, ..., `f(n - 1)`.
pub open spec fn concat_n(n: nat, f: spec_fn(int) -> Seq<char>) -> Seq<char> {
    concat(Seq::new(n, f))
}

pub proof fn lemma_concat_n_succ(n: nat, f: spec_fn(int) -> Seq<char>)
    ensures
        concat_n(n + 1, f) == concat_n(n, f) + f(n as int),
{
    assert(Seq::new(n + 1, f).drop_last() == Seq::new(n, f));
}

// ---------------------------------------------------------------------------
// Lines
// ---------------------------------------------------------------------------

/// The index of the first `'\n'` at or after `k`, if any.
pub open spec fn newline_from(s: Seq<char>, k: int) -> Option<int>
    decreases s.len() - k,
{
    if k < 0 || k >= s.len() {
        None
    } else if s[k] == '\n' {
        Some(k)
    } else {
        newline_from(s, k + 1)
    }
}

pub proof fn lemma_newline_from_found(s: Seq<char>, k: int, m: int)
    requires
        0 <= k <= m < s.len(),
        s[m] == '\n',
        forall|j: int| k <= j < m ==> s[j] != '\n',
    ensures
        newline_from(s, k) == Some(m),
    decreases m - k,
{
    if k < m {
        lemma_newline_from_found(s, k + 1, m);
    }
}

pub proof fn lemma_newline_from_none(s: Seq<char>, k: int)
    requires
        0 <= k <= s.len(),
        forall|j: int| k <= j < s.len() ==> s[j] != '\n',
    ensures
        newline_from(s, k) is None,
    decreases s.len() - k,
{
    if k < s.len() {
        lemma_newline_from_none(s, k + 1);
    }
}

pub proof fn lemma_newline_from_bounds(s: Seq<char>, k: int)
    ensures
        newline_from(s, k) matches Some(m) ==> 0 <= k <= m < s.len() && s[m] == '\n'
            && forall|j: int| k <= j < m ==> s[j] != '\n',
    decreases s.len() - k,
{
    if 0 <= k < s.len() && s[k] != '\n' {
        lemma_newline_from_bounds(s, k + 1);
    }
}

/// A line without its `'\r'` when the line ended in `"\r\n"`.
pub open spec fn strip_cr(l: Seq<char>) -> Seq<char> {
    if l.len() > 0 && l.last() == '\r' { l.drop_last() } else { l }
}

/// The lines of `s` as `str::lines` yields them: split at `'\n'`, a `'\r'`
/// before the `'\n'` dropped, no empty last line after a final `'\n'`.
pub open spec fn lines_of(s: Seq<char>) -> Seq<Seq<char>>
    decreases s.len(),
{
    if s.len() == 0 {
        seq![]
    } else {
        match newline_from(s, 0) {
            Some(m) => {
                if 0 <= m < s.len() {
                    seq![strip_cr(s.take(m))] + lines_of(s.skip(m + 1))
                } else {
                    seq![]
                }
            },
            None => seq![s],
        }
    }
}

pub proof fn lemma_lines_of_split(s: Seq<char>, m: int)
    requires
        0 <= m < s.len(),
        s[m] == '\n',
        forall|j: int| 0 <= j < m ==> s[j] != '\n',
    ensures
        lines_of(s) == seq![strip_cr(s.take(m))] + lines_of(s.skip(m + 1)),
{
    lemma_newline_from_found(s, 0, m);
}

pub proof fn lemma_lines_of_last(s: Seq<char>)
    requires
        s.len() > 0,
        forall|j: int| 0 <= j < s.len() ==> s[j] != '\n',
    ensures
        lines_of(s) == seq![s],
{
    lemma_newline_from_none(s, 0);
}

/// The lines of `s` (`str::lines`).
pub fn lines(s: &Vec<char>) -> (out: Vec<Vec<char>>)
    ensures
        out@.len() == lines_of(s@).len(),
        forall|i: int| 0 <= i < out@.len() ==> #[trigger] out@[i]@ == lines_of(s@)[i],
{
    let mut out: Vec<Vec<char>> = Vec::new();
    let mut cur: Vec<char> = Vec::new();
    let mut start: usize = 0;
    let mut i: usize = 0;
    let ghost mut done: Seq<Seq<char>> = seq![];
    assert(s@.skip(0) == s@);
    while i < s.len()
        invariant
            start <= i <= s.len(),
            cur@ == s@.subrange(start as int, i as int),
            forall|j: int| start <= j < i ==> s@[j] != '\n',
            out@.len() == done.len(),
            forall|k: int| 0 <= k < out@.len() ==> #[trigger] out@[k]@ == done[k],
            lines_of(s@) == done + lines_of(s@.skip(start as int)),
        decreases s.len() - i,
    {
        let c = s[i];
        if c == '\n' {
            let ghost t = s@.skip(start as int);
            proof {
                assert forall|j: int| 0 <= j < i - start implies t[j] != '\n' by {
                    assert(t[j] == s@[start + j]);
                }
                lemma_lines_of_split(t, i - start);
                assert(t.take(i - start) == cur@);
                assert(t.skip(i - start + 1) == s@.skip(i + 1));
            }
            let mut line = cur;
            if line.len() > 0 && line[line.len() - 1] == '\r' {
                line.pop();
            }
            proof {
                assert(line@ == strip_cr(t.take(i - start)));
                done = done.push(line@);
            }
            out.push(line);
            cur = Vec::new();
            start = i + 1;
            proof {
                assert(lines_of(s@) == done + lines_of(s@.skip(start as int)));
            }
        } else {
            cur.push(c);
            assert(cur@ == s@.subrange(start as int, i + 1));
        }
        i = i + 1;
    }
    let ghost t = s@.skip(start as int);
    if start < s.len() {
        proof {
            assert forall|j: int| 0 <= j < t.len() implies t[j] != '\n' by {
                assert(t[j] == s@[start + j]);
            }
            lemma_lines_of_last(t);
            assert(cur@ == t);
            done = done.push(cur@);
        }
        out.push(cur);
    } else {
        assert(t.len() == 0);
    }
    assert(lines_of(s@) == done);
    out
}


// ---------------------------------------------------------------------------
// Character classes and trimming
// ---------------------------------------------------------------------------

/// Unicode `White_Space` (what `char::is_whitespace` tests).
pub open spec fn is_ws(c: char) -> bool {
    ||| '\t' <= c <= '\r'
    ||| c == ' '
    ||| c == '\u{85}'
    ||| c == '\u{a0}'
    ||| c == '\u{1680}'
    ||| '\u{2000}' <= c <= '\u{200a}'
    ||| c == '\u{2028}'
    ||| c == '\u{2029}'
    ||| c == '\u{202f}'
    ||| c == '\u{205f}'
    ||| c == '\u{3000}'
}

/// The sets of characters that the commands trim away.
#[derive(Clone, Copy, PartialEq, Eq)]
pub enum CharClass {
    /// Unicode white space (`trim`).
    Whitespace,
    /// `'` and `"` (quotes around a module path).
    Quote,
    /// `"`, `,` and space (around a workspace member entry).
    MemberPunct,
    /// `;` (after a Rust `use` item).
    Semicolon,
}

pub open spec fn in_class(cls: CharClass, c: char) -> bool {
    match cls {
        CharClass::Whitespace => is_ws(c),
        CharClass::Quote => c == '\'' || c == '"',
        CharClass::MemberPunct => c == '"' || c == ',' || c == ' ',
        CharClass::Semicolon => c == ';',
    }
}

pub fn is_in_class(cls: CharClass, c: char) -> (b: bool)
    ensures
        b == in_class(cls, c),
{
    match cls {
        CharClass::Whitespace => {
            ('\t' <= c && c <= '\r') || c == ' ' || c == '\u{85}' || c == '\u{a0}'
                || c == '\u{1680}' || ('\u{2000}' <= c && c <= '\u{200a}') || c == '\u{2028}'
                || c == '\u{2029}' || c == '\u{202f}' || c == '\u{205f}' || c == '\u{3000}'
        },
        CharClass::Quote => c == '\'' || c == '"',
        CharClass::MemberPunct => c == '"' || c == ',' || c == ' ',
        CharClass::Semicolon => c == ';',
    }
}

/// The number of leading characters of `s` in `cls`.
pub open spec fn lead_len(s: Seq<char>, cls: CharClass) -> nat
    decreases s.len(),
{
    if s.len() == 0 || !in_class(cls, s[0]) {
        0
    } else {
        1 + lead_len(s.drop_first(), cls)
    }
}

/// The number of trailing characters of `s` in `cls`.
pub open spec fn trail_len(s: Seq<char>, cls: CharClass) -> nat
    decreases s.len(),
{
    if s.len() == 0 || !in_class(cls, s.last()) {
        0
    } else {
        1 + trail_len(s.drop_last(), cls)
    }
}

/// `s` without its leading characters in `cls`.
pub open spec fn trim_start_class(s: Seq<char>, cls: CharClass) -> Seq<char> {
    s.skip(lead_len(s, cls) as int)
}

/// `s` without its trailing characters in `cls`.
pub open spec fn trim_end_class(s: Seq<char>, cls: CharClass) -> Seq<char> {
    s.take(s.len() - trail_len(s, cls))
}

/// `s` without leading and trailing characters in `cls` (`str::trim_matches`).
pub open spec fn trim_class(s: Seq<char>, cls: CharClass) -> Seq<char> {
    trim_end_class(trim_start_class(s, cls), cls)
}

/// `str::trim`.
pub open spec fn trim(s: Seq<char>) -> Seq<char> {
    trim_class(s, CharClass::Whitespace)
}

pub proof fn lemma_lead_len(s: Seq<char>, cls: CharClass, i: int)
    requires
        0 <= i <= s.len(),
        forall|j: int| 0 <= j < i ==> in_class(cls, #[trigger] s[j]),
        i == s.len() || !in_class(cls, s[i]),
    ensures
        lead_len(s, cls) == i,
    decreases i,
{
    if i > 0 {
        let t = s.drop_first();
        assert forall|j: int| 0 <= j < i - 1 implies in_class(cls, #[trigger] t[j]) by {
            assert(t[j] == s[j + 1]);
        }
        lemma_lead_len(t, cls, i - 1);
    }
}

pub proof fn lemma_trail_len(s: Seq<char>, cls: CharClass, i: int)
    requires
        0 <= i <= s.len(),
        forall|j: int| s.len() - i <= j < s.len() ==> in_class(cls, #[trigger] s[j]),
        i == s.len() || !in_class(cls, s[s.len() - i - 1]),
    ensures
        trail_len(s, cls) == i,
    decreases i,
{
    if i > 0 {
        let t = s.drop_last();
        assert forall|j: int| t.len() - (i - 1) <= j < t.len() implies in_class(cls, #[trigger] t[j]) by {
            assert(t[j] == s[j]);
        }
        lemma_trail_len(t, cls, i - 1);
    }
}

/// The number of leading characters in `cls` of `s[from..to]`.
pub fn lead_count(s: &Vec<char>, from: usize, to: usize, cls: CharClass) -> (n: usize)
    requires
        from <= to <= s@.len(),
    ensures
        n == lead_len(s@.subrange(from as int, to as int), cls),
        from + n <= to,
{
    let ghost t = s@.subrange(from as int, to as int);
    let mut i = from;
    while i < to && is_in_class(cls, s[i])
        invariant
            from <= i <= to <= s@.len(),
            t == s@.subrange(from as int, to as int),
            forall|j: int| 0 <= j < i - from ==> in_class(cls, #[trigger] t[j]),
        decreases to - i,
    {
        i = i + 1;
    }
    proof { lemma_lead_len(t, cls, i - from); }
    i - from
}

/// The number of trailing characters in `cls` of `s[from..to]`.
pub fn trail_count(s: &Vec<char>, from: usize, to: usize, cls: CharClass) -> (n: usize)
    requires
        from <= to <= s@.len(),
    ensures
        n == trail_len(s@.subrange(from as int, to as int), cls),
        from + n <= to,
{
    let ghost t = s@.subrange(from as int, to as int);
    let mut i = to;
    while i > from && is_in_class(cls, s[i - 1])
        invariant
            from <= i <= to <= s@.len(),
            t == s@.subrange(from as int, to as int),
            forall|j: int| i - from <= j < t.len() ==> in_class(cls, #[trigger] t[j]),
        decreases i - from,
    {
        i = i - 1;
    }
    proof { lemma_trail_len(t, cls, to - i); }
    to - i
}

/// The bounds `(a, b)` of `trim_class(s[from..to])` within `s`.
pub fn trim_bounds(s: &Vec<char>, from: usize, to: usize, cls: CharClass) -> (r: (usize, usize))
    requires
        from <= to <= s@.len(),
    ensures
        from <= r.0 <= r.1 <= to,
        s@.subrange(r.0 as int, r.1 as int) == trim_class(s@.subrange(from as int, to as int), cls),
{
    let a = from + lead_count(s, from, to, cls);
    let b = a + trail_count(s, a, to, cls);
    let b2 = to - trail_count(s, a, to, cls);
    proof {
        let t = s@.subrange(from as int, to as int);
        assert(trim_start_class(t, cls) == s@.subrange(a as int, to as int));
    }
    (a, b2)
}

/// Copies `s[a..b]`.
pub fn slice(s: &Vec<char>, a: usize, b: usize) -> (r: Vec<char>)
    requires
        a <= b <= s@.len(),
    ensures
        r@ == s@.subrange(a as int, b as int),
{
    let mut r: Vec<char> = Vec::new();
    for i in a..b
        invariant
            a <= b <= s@.len(),
            r@ == s@.subrange(a as int, i as int),
    {
        r.push(s[i]);
        assert(r@ == s@.subrange(a as int, i + 1));
    }
    r
}

/// `trim_class` of the whole of `s`, copied.
pub fn trimmed(s: &Vec<char>, cls: CharClass) -> (r: Vec<char>)
    ensures
        r@ == trim_class(s@, cls),
{
    let (a, b) = trim_bounds(s, 0, s.len(), cls);
    assert(s@.subrange(0, s@.len() as int) == s@);
    slice(s, a, b)
}

// ---------------------------------------------------------------------------
// Searching
// ---------------------------------------------------------------------------

/// `p` occurs in `s` at index `i`.
pub open spec fn occurs_at(s: Seq<char>, p: Seq<char>, i: int) -> bool {
    0 <= i && i + p.len() <= s.len() && s.subrange(i, i + p.len()) == p
}

/// `s.starts_with(p)`.
pub open spec fn starts_with(s: Seq<char>, p: Seq<char>) -> bool {
    occurs_at(s, p, 0)
}

/// `s.contains(p)`.
pub open spec fn contains(s: Seq<char>, p: Seq<char>) -> bool {
    exists|i: int| occurs_at(s, p, i)
}

/// `s.find(p)`: the first index at which `p` occurs.
pub open spec fn find(s: Seq<char>, p: Seq<char>) -> Option<int> {
    if contains(s, p) {
        Some(choose|i: int| occurs_at(s, p, i) && forall|j: int| 0 <= j < i ==> !occurs_at(s, p, j))
    } else {
        None
    }
}

pub proof fn lemma_find_bounds(s: Seq<char>, p: Seq<char>)
    ensures
        find(s, p) matches Some(i) ==> occurs_at(s, p, i) && 0 <= i && i + p.len() <= s.len(),
{
    if contains(s, p) {
        let w = choose|i: int| occurs_at(s, p, i);
        lemma_first_occurrence_exists(s, p, w);
    }
}

proof fn lemma_first_occurrence_exists(s: Seq<char>, p: Seq<char>, w: int)
    requires
        occurs_at(s, p, w),
    ensures
        exists|i: int| occurs_at(s, p, i) && forall|j: int| 0 <= j < i ==> !occurs_at(s, p, j),
    decreases w,
{
    if exists|j: int| 0 <= j < w && occurs_at(s, p, j) {
        let j = choose|j: int| 0 <= j < w && occurs_at(s, p, j);
        lemma_first_occurrence_exists(s, p, j);
    } else {
        assert(occurs_at(s, p, w) && forall|j: int| 0 <= j < w ==> !occurs_at(s, p, j));
    }
}

/// Whether `p` occurs in `s` at `i`.
pub fn matches_at(s: &Vec<char>, p: &Vec<char>, i: usize) -> (b: bool)
    ensures
        b == occurs_at(s@, p@, i as int),
{
    if i > s.len() || p.len() > s.len() - i {
        return false;
    }
    let n = s.len();
    let mut k: usize = 0;
    while k < p.len()
        invariant
            n == s@.len(),
            i + p@.len() <= s@.len(),
            i <= s@.len(),
            k <= p@.len(),
            forall|j: int| 0 <= j < k ==> s@[i + j] == p@[j],
        decreases p.len() - k,
    {
        assert(i + k < s@.len());
        if s[i + k] != p[k] {
            assert(s@.subrange(i as int, i + p@.len())[k as int] != p@[k as int]);
            return false;
        }
        k = k + 1;
    }
    assert(s@.subrange(i as int, i + p@.len()) == p@);
    true
}

/// `s.find(p)`.
pub fn find_first(s: &Vec<char>, p: &Vec<char>) -> (r: Option<usize>)
    ensures
        r matches Some(i) ==> find(s@, p@) == Some(i as int),
        r is None ==> find(s@, p@) is None,
{
    let mut i: usize = 0;
    while i <= s.len()
        invariant
            i <= s@.len(),
            forall|j: int| 0 <= j < i ==> !occurs_at(s@, p@, j),
        ensures
            forall|j: int| 0 <= j <= s@.len() ==> !occurs_at(s@, p@, j),
        decreases s.len() - i,
    {
        if matches_at(s, p, i) {
            proof {
                let w = choose|w: int| occurs_at(s@, p@, w) && forall|j: int| 0 <= j < w ==> !occurs_at(s@, p@, j);
                assert(occurs_at(s@, p@, i as int));
                assert(w == i) by {
                    if w < i { assert(!occurs_at(s@, p@, w)); }
                    if w > i { assert(!occurs_at(s@, p@, i as int)); }
                }
            }
            return Some(i);
        }
        if i == s.len() {
            break;
        }
        i = i + 1;
    }
    assert(!contains(s@, p@));
    None
}

/// `s.contains(p)`.
pub fn contains_exec(s: &Vec<char>, p: &Vec<char>) -> (b: bool)
    ensures
        b == contains(s@, p@),
{
    find_first(s, p).is_some()
}

/// Whether two character sequences are equal.
pub fn seq_eq(a: &Vec<char>, b: &Vec<char>) -> (r: bool)
    ensures
        r == (a@ == b@),
{
    if a.len() != b.len() {
        return false;
    }
    for i in 0..a.len()
        invariant
            a@.len() == b@.len(),
            forall|j: int| 0 <= j < i ==> a@[j] == b@[j],
    {
        if a[i] != b[i] {
            return false;
        }
    }
    assert(a@ == b@);
    true
}

/// `s.starts_with(p)`.
pub fn starts_with_exec(s: &Vec<char>, p: &Vec<char>) -> (b: bool)
    ensures
        b == starts_with(s@, p@),
{
    matches_at(s, p, 0)
}

} // verus!
