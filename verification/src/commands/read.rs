//! `ctx read`: line ranges, and files rendered with numbered lines.
use vstd::prelude::*;
use crate::text::{
    chars_of, concat_n, contains, contains_exec, decimal, digit_char, lemma_concat_n_succ, lines, lines_of, padded_decimal,
    push_all, push_decimal, push_padded_decimal, push_str, string_of,
};
use crate::ts::{grammar_accepted_of, is_parse_of, lang_of_path, Lang, SyntaxTree};
use crate::skeleton::{extract_skeleton, skeleton_text};

verus! {

/// The options of `ctx read`.
pub struct ReadArgs {
    /// Files to read.
    pub files: Vec<String>,
    /// Line range to read (e.g., "1-50", "100-200").
    pub line_range: Option<String>,
    /// Show only lines containing this text.
    pub match_pattern: Option<String>,
    /// Show only signatures, types and imports.
    pub skeleton: bool,
}

/// Why text is not a `usize` (`ParseIntError`'s kinds).
#[derive(Clone, Copy, PartialEq, Eq, Debug, Structural)]
pub enum IntError {
    Empty,
    InvalidDigit,
    PosOverflow,
}

impl IntError {
    pub open spec fn spec_message(self) -> Seq<char> {
        match self {
            IntError::Empty => "cannot parse integer from empty string"@,
            IntError::InvalidDigit => "invalid digit found in string"@,
            IntError::PosOverflow => "number too large to fit in target type"@,
        }
    }

    /// The message `ParseIntError` shows for the kind.
    pub fn message(self) -> (r: &'static str)
        ensures
            r@ == self.spec_message(),
    {
        match self {
            IntError::Empty => "cannot parse integer from empty string",
            IntError::InvalidDigit => "invalid digit found in string",
            IntError::PosOverflow => "number too large to fit in target type",
        }
    }
}

pub open spec fn is_digit(c: char) -> bool {
    '0' <= c <= '9'
}

pub open spec fn digit_value(c: char) -> int {
    c as int - '0' as int
}

/// Reading the digits `d` after the value `acc`: the value, or the first
/// problem met from left to right.
pub open spec fn read_digits(d: Seq<char>, acc: int) -> Result<int, IntError>
    decreases d.len(),
{
    if d.len() == 0 {
        Ok(acc)
    } else if !is_digit(d[0]) {
        Err(IntError::InvalidDigit)
    } else if acc * 10 + digit_value(d[0]) > usize::MAX {
        Err(IntError::PosOverflow)
    } else {
        read_digits(d.drop_first(), acc * 10 + digit_value(d[0]))
    }
}

/// `str::parse::<usize>`: an optional `+`, then decimal digits, the value
/// fitting in a `usize`.
pub open spec fn parse_usize(s: Seq<char>) -> Result<int, IntError> {
    if s.len() == 0 {
        Err(IntError::Empty)
    } else if s == "+"@ || s == "-"@ {
        Err(IntError::InvalidDigit)
    } else if s[0] == '+' {
        read_digits(s.drop_first(), 0)
    } else {
        read_digits(s, 0)
    }
}

/// Parses a decimal `usize` as `str::parse` does.
pub fn parse_usize_exec(s: &Vec<char>) -> (r: Result<usize, IntError>)
    ensures
        match r {
            Ok(n) => parse_usize(s@) == Ok::<int, IntError>(n as int),
            Err(e) => parse_usize(s@) == Err::<int, IntError>(e),
        },
{
    let n = s.len();
    if n == 0 {
        return Err(IntError::Empty);
    }
    proof { reveal_strlit("+"); reveal_strlit("-"); }
    if n == 1 && (s[0] == '+' || s[0] == '-') {
        assert(s@ == "+"@ || s@ == "-"@);
        return Err(IntError::InvalidDigit);
    }
    assert(s@ != "+"@ && s@ != "-"@);
    let mut i: usize = if s[0] == '+' { 1 } else { 0 };
    let ghost d0 = s@.skip(i as int);
    assert(s[0] == '+' ==> s@.drop_first() == d0);
    assert(s[0] != '+' ==> s@ == d0);
    let mut acc: usize = 0;
    assert(parse_usize(s@) == read_digits(d0, 0));
    while i < n
        invariant
            n == s@.len(),
            i <= n,
            read_digits(d0, 0) == read_digits(s@.skip(i as int), acc as int),
            parse_usize(s@) == read_digits(d0, 0),
        decreases n - i,
    {
        let c = s[i];
        assert(s@.skip(i as int)[0] == c);
        if !('0' <= c && c <= '9') {
            return Err(IntError::InvalidDigit);
        }
        let d = (c as u32 - '0' as u32) as usize;
        assert(d as int == digit_value(c));
        if acc > (usize::MAX - d) / 10 {
            assert(acc * 10 + d > usize::MAX) by (nonlinear_arith)
                requires acc > (usize::MAX - d) / 10, d <= 9;
            return Err(IntError::PosOverflow);
        }
        assert(acc * 10 + d <= usize::MAX) by (nonlinear_arith)
            requires acc <= (usize::MAX - d) / 10, d <= 9;
        assert(s@.skip(i as int).drop_first() == s@.skip(i + 1));
        acc = acc * 10 + d;
        i = i + 1;
    }
    assert(s@.skip(n as int).len() == 0);
    Ok(acc)
}

/// Reading one more digit after `s`.
proof fn lemma_read_digits_push(s: Seq<char>, c: char, acc: int)
    requires
        is_digit(c),
        acc >= 0,
    ensures
        read_digits(s.push(c), acc) == match read_digits(s, acc) {
            Ok(v) => if v * 10 + digit_value(c) > usize::MAX { Err(IntError::PosOverflow) } else { Ok(v * 10 + digit_value(c)) },
            Err(e) => Err(e),
        },
    decreases s.len(),
{
    if s.len() == 0 {
        assert(s.push(c).drop_first() =~= Seq::<char>::empty());
        assert(s.push(c)[0] == c);
        let v = acc * 10 + digit_value(c);
        assert(read_digits(Seq::<char>::empty(), v) == Ok::<int, IntError>(v));
        assert(read_digits(s, acc) == Ok::<int, IntError>(acc));
    } else {
        assert(s.push(c)[0] == s[0]);
        assert(s.push(c).drop_first() == s.drop_first().push(c));
        if is_digit(s[0]) && acc * 10 + digit_value(s[0]) <= usize::MAX {
            lemma_read_digits_push(s.drop_first(), c, acc * 10 + digit_value(s[0]));
        }
    }
}

proof fn lemma_digit_char(d: nat)
    requires
        d < 10,
    ensures
        is_digit(digit_char(d)),
        digit_value(digit_char(d)) == d,
{
}

/// A number written in decimal reads back as itself.
pub proof fn lemma_parse_decimal(n: nat)
    requires
        n <= usize::MAX,
    ensures
        parse_usize(decimal(n)) == Ok::<int, IntError>(n as int),
    decreases n,
{
    lemma_read_decimal(n);
    let d = decimal(n);
    assert(d.len() >= 1);
    assert(d[0] != '+') by { lemma_decimal_first(n); }
    assert(d != "+"@ && d != "-"@) by {
        reveal_strlit("+");
        reveal_strlit("-");
        lemma_decimal_first(n);
        if d == "+"@ { assert(d[0] == '+'); }
        if d == "-"@ { assert(d[0] == '-'); }
    }
}

proof fn lemma_decimal_first(n: nat)
    ensures
        decimal(n).len() >= 1,
        is_digit(decimal(n)[0]),
    decreases n,
{
    if n >= 10 {
        lemma_decimal_first(n / 10);
        assert(decimal(n)[0] == decimal(n / 10)[0]);
    } else {
        lemma_digit_char(n);
    }
}

proof fn lemma_read_decimal(n: nat)
    requires
        n <= usize::MAX,
    ensures
        read_digits(decimal(n), 0) == Ok::<int, IntError>(n as int),
    decreases n,
{
    if n < 10 {
        lemma_digit_char(n);
        lemma_read_digits_push(Seq::<char>::empty(), digit_char(n), 0);
        assert(Seq::<char>::empty().push(digit_char(n)) == decimal(n));
    } else {
        lemma_read_decimal(n / 10);
        lemma_digit_char(n % 10);
        lemma_read_digits_push(decimal(n / 10), digit_char(n % 10), 0);
        assert((n / 10) * 10 + n % 10 == n);
    }
}

/// Why a line range was refused.
#[derive(Clone, Copy, PartialEq, Eq, Debug, Structural)]
pub enum LineRangeError {
    /// One number that is not a line number.
    Line(IntError),
    /// `N-M` whose first number is not a line number.
    Start(IntError),
    /// `N-M` whose second number is not a line number.
    End(IntError),
    /// More than one `-`.
    Format,
}

impl LineRangeError {
    pub open spec fn spec_message(self) -> Seq<char> {
        match self {
            LineRangeError::Line(e) => "Invalid line number: "@ + e.spec_message(),
            LineRangeError::Start(e) => "Invalid start line: "@ + e.spec_message(),
            LineRangeError::End(e) => "Invalid end line: "@ + e.spec_message(),
            LineRangeError::Format => "Invalid line range format. Use N or N-M"@,
        }
    }

    /// The message of the error, with its cause after a colon.
    pub fn message(self) -> (r: String)
        ensures
            r@ == self.spec_message(),
    {
        let mut out: Vec<char> = Vec::new();
        match self {
            LineRangeError::Line(e) => {
                push_str(&mut out, "Invalid line number: ");
                push_str(&mut out, e.message());
            },
            LineRangeError::Start(e) => {
                push_str(&mut out, "Invalid start line: ");
                push_str(&mut out, e.message());
            },
            LineRangeError::End(e) => {
                push_str(&mut out, "Invalid end line: ");
                push_str(&mut out, e.message());
            },
            LineRangeError::Format => {
                push_str(&mut out, "Invalid line range format. Use N or N-M");
            },
        }
        string_of(&out)
    }
}

/// The pieces of `s` between the `-` characters (`str::split('-')`).
pub open spec fn split_dash(s: Seq<char>) -> Seq<Seq<char>>
    decreases s.len(),
{
    if s.len() == 0 {
        seq![seq![]]
    } else {
        let prev = split_dash(s.drop_last());
        if s.last() == '-' {
            prev.push(seq![])
        } else {
            prev.update(prev.len() - 1, prev.last().push(s.last()))
        }
    }
}

proof fn lemma_split_dash_len(s: Seq<char>)
    ensures
        split_dash(s).len() >= 1,
    decreases s.len(),
{
    if s.len() > 0 {
        lemma_split_dash_len(s.drop_last());
    }
}

/// The range `(start, end)` that `--lines` asks for: `N` is `N-N`.
pub open spec fn line_range_of(range: Option<Seq<char>>) -> Result<(Option<int>, Option<int>), LineRangeError> {
    match range {
        None => Ok((None, None)),
        Some(r) => {
            let parts = split_dash(r);
            if parts.len() == 1 {
                match parse_usize(parts[0]) {
                    Ok(n) => Ok((Some(n), Some(n))),
                    Err(e) => Err(LineRangeError::Line(e)),
                }
            } else if parts.len() == 2 {
                match parse_usize(parts[0]) {
                    Err(e) => Err(LineRangeError::Start(e)),
                    Ok(a) => match parse_usize(parts[1]) {
                        Err(e) => Err(LineRangeError::End(e)),
                        Ok(b) => Ok((Some(a), Some(b))),
                    },
                }
            } else {
                Err(LineRangeError::Format)
            }
        },
    }
}

proof fn lemma_decimal_digits(n: nat)
    ensures
        forall|i: int| 0 <= i < decimal(n).len() ==> is_digit(#[trigger] decimal(n)[i]),
    decreases n,
{
    if n >= 10 {
        lemma_decimal_digits(n / 10);
        lemma_digit_char(n % 10);
        let d = decimal(n);
        assert forall|i: int| 0 <= i < d.len() implies is_digit(#[trigger] d[i]) by {
            if i < d.len() - 1 { assert(d[i] == decimal(n / 10)[i]); }
        }
    } else {
        lemma_digit_char(n);
    }
}

proof fn lemma_split_append(s: Seq<char>, t: Seq<char>)
    requires
        forall|i: int| 0 <= i < t.len() ==> #[trigger] t[i] != '-',
    ensures
        split_dash(s).len() >= 1,
        split_dash(s + t) == split_dash(s).update(split_dash(s).len() - 1, split_dash(s).last() + t),
    decreases t.len(),
{
    lemma_split_dash_len(s);
    if t.len() == 0 {
        assert(s + t == s);
        assert(split_dash(s).last() + t == split_dash(s).last());
        assert(split_dash(s).update(split_dash(s).len() - 1, split_dash(s).last()) == split_dash(s));
    } else {
        let t0 = t.drop_last();
        lemma_split_append(s, t0);
        assert((s + t).drop_last() == s + t0);
        assert((s + t).last() == t.last());
        assert(t[t.len() - 1] == t.last());
        let p = split_dash(s);
        let l = p.len() - 1;
        let prev = split_dash(s + t0);
        assert(prev == p.update(l, p.last() + t0));
        assert(prev.len() == p.len());
        assert(prev.last() == p.last() + t0);
        assert(split_dash(s + t) == prev.update(prev.len() - 1, prev.last().push(t.last())));
        assert((p.last() + t0).push(t.last()) == p.last() + t);
        assert(prev.update(l, p.last() + t) == p.update(l, p.last() + t));
    }
}

/// A line range written as `N` or `N-M` in decimal reads back as itself.
pub proof fn lemma_line_range_roundtrip(a: nat, b: nat)
    requires
        a <= usize::MAX,
        b <= usize::MAX,
    ensures
        line_range_of(Some(decimal(a))) == Ok::<(Option<int>, Option<int>), LineRangeError>((Some(a as int), Some(a as int))),
        line_range_of(Some(decimal(a) + "-"@ + decimal(b)))
            == Ok::<(Option<int>, Option<int>), LineRangeError>((Some(a as int), Some(b as int))),
{
    lemma_decimal_digits(a);
    lemma_decimal_digits(b);
    lemma_parse_decimal(a);
    lemma_parse_decimal(b);
    let da = decimal(a);
    let db = decimal(b);
    assert forall|i: int| 0 <= i < da.len() implies #[trigger] da[i] != '-' by { assert(is_digit(da[i])); }
    assert forall|i: int| 0 <= i < db.len() implies #[trigger] db[i] != '-' by { assert(is_digit(db[i])); }
    lemma_split_append(Seq::<char>::empty(), da);
    assert(Seq::<char>::empty() + da == da);
    assert(split_dash(Seq::<char>::empty()) == seq![Seq::<char>::empty()]);
    assert(split_dash(da) == seq![da]);
    reveal_strlit("-");
    let s1 = da + "-"@;
    assert(s1.drop_last() == da && s1.last() == '-');
    assert(split_dash(s1) == seq![da, Seq::<char>::empty()]);
    lemma_split_append(s1, db);
    assert(s1 + db == da + "-"@ + db);
    assert(split_dash(s1 + db) == seq![da, db]);
}

fn split_dash_exec(s: &Vec<char>) -> (r: Vec<Vec<char>>)
    ensures
        r@.map_values(|p: Vec<char>| p@) == split_dash(s@),
{
    let mut parts: Vec<Vec<char>> = Vec::new();
    let mut cur: Vec<char> = Vec::new();
    for i in 0..s.len()
        invariant
            parts@.map_values(|p: Vec<char>| p@).push(cur@) == split_dash(s@.take(i as int)),
    {
        assert(s@.take(i + 1).drop_last() == s@.take(i as int));
        let ghost pv = parts@.map_values(|p: Vec<char>| p@);
        if s[i] == '-' {
            let done = cur;
            parts.push(done);
            cur = Vec::new();
            assert(parts@.map_values(|p: Vec<char>| p@) == pv.push(done@));
        } else {
            cur.push(s[i]);
        }
    }
    assert(s@.take(s@.len() as int) == s@);
    let ghost pv = parts@.map_values(|p: Vec<char>| p@);
    parts.push(cur);
    assert(parts@.map_values(|p: Vec<char>| p@) == pv.push(cur@));
    parts
}

/// Parses `--lines`: `N` or `N-M`.
pub fn parse_line_range(range: &Option<String>) -> (r: Result<(Option<usize>, Option<usize>), LineRangeError>)
    ensures
        match r {
            Ok((a, b)) => line_range_of(match range { Some(s) => Some(s@), None => None })
                == Ok::<(Option<int>, Option<int>), LineRangeError>((
                    match a { Some(x) => Some(x as int), None => None },
                    match b { Some(x) => Some(x as int), None => None })),
            Err(e) => line_range_of(match range { Some(s) => Some(s@), None => None })
                == Err::<(Option<int>, Option<int>), LineRangeError>(e),
        },
{
    match range {
        None => Ok((None, None)),
        Some(r) => {
            let cs = chars_of(r.as_str());
            let parts = split_dash_exec(&cs);
            let ghost pv = parts@.map_values(|p: Vec<char>| p@);
            assert(pv == split_dash(r@));
            if parts.len() == 1 {
                assert(pv[0] == parts@[0]@);
                match parse_usize_exec(&parts[0]) {
                    Ok(n) => Ok((Some(n), Some(n))),
                    Err(e) => Err(LineRangeError::Line(e)),
                }
            } else if parts.len() == 2 {
                assert(pv[0] == parts@[0]@ && pv[1] == parts@[1]@);
                match parse_usize_exec(&parts[0]) {
                    Err(e) => Err(LineRangeError::Start(e)),
                    Ok(a) => match parse_usize_exec(&parts[1]) {
                        Err(e) => Err(LineRangeError::End(e)),
                        Ok(b) => Ok((Some(a), Some(b))),
                    },
                }
            } else {
                Err(LineRangeError::Format)
            }
        },
    }
}


/// The 0-based rows `start..end` shown of a file of `n` lines.
pub open spec fn read_window(start_line: Option<int>, end_line: Option<int>, n: int) -> (int, int) {
    (match start_line { Some(a) => if a >= 1 { a - 1 } else { 0 }, None => 0 },
     match end_line { Some(b) => if b < n { b } else { n }, None => n })
}

/// One row as shown: its number in four columns and its text, or nothing when
/// a filter is given and the row does not contain it.
pub open spec fn read_row(number: nat, line: Seq<char>, pat: Option<Seq<char>>) -> Seq<char> {
    if pat matches Some(p) && !contains(line, p) {
        seq![]
    } else {
        padded_decimal(number, 4) + seq![' '] + line + seq!['\n']
    }
}

/// Rows `s..e` as shown.
pub open spec fn rows_text(ls: Seq<Seq<char>>, s: int, e: int, pat: Option<Seq<char>>) -> Seq<char> {
    concat_n((e - s) as nat, |k: int| read_row((s + k + 1) as nat, ls[s + k], pat))
}

/// The rendering of one file: a header with the rows shown and the number of
/// lines, then the rows; a blank line after it when several files are read.
pub open spec fn read_block_text(name: Seq<char>, content: Seq<char>, start_line: Option<int>, end_line: Option<int>,
    pat: Option<Seq<char>>, several: bool) -> Seq<char> {
    let ls = lines_of(content);
    let (s, e) = read_window(start_line, end_line, ls.len() as int);
    "=== "@ + name + " (lines "@ + decimal((s + 1) as nat) + seq!['-'] + decimal(e as nat) + " of "@ + decimal(ls.len())
        + ") ===\n"@
        + rows_text(ls, s, e, pat)
        + if several { seq!['\n'] } else { seq![] }
}

/// The requested rows exist as a slice: the first does not come after the end.
pub open spec fn read_window_ok(content: Seq<char>, start_line: Option<int>, end_line: Option<int>) -> bool {
    let (s, e) = read_window(start_line, end_line, lines_of(content).len() as int);
    s <= e
}

fn push_rows(out: &mut Vec<char>, ls: &Vec<Vec<char>>, start: usize, end: usize, pc: &Option<Vec<char>>)
    requires
        start <= end <= ls@.len(),
    ensures
        final(out)@ == old(out)@ + rows_text(ls@.map_values(|l: Vec<char>| l@), start as int, end as int,
            match pc { Some(v) => Some(v@), None => None }),
{
    let ghost lsv = ls@.map_values(|l: Vec<char>| l@);
    let ghost pv = match pc { Some(v) => Some(v@), None => None };
    let ghost head = out@;
    let ghost f = |k: int| read_row((start + k + 1) as nat, lsv[start + k], pv);
    let mut i = start;
    while i < end
        invariant
            start <= i <= end <= ls@.len(),
            lsv == ls@.map_values(|l: Vec<char>| l@),
            pv == match pc { Some(v) => Some(v@), None => None },
            f == (|k: int| read_row((start + k + 1) as nat, lsv[start + k], pv)),
            out@ == head + concat_n((i - start) as nat, f),
        decreases end - i,
    {
        let show = match pc {
            Some(p) => contains_exec(&ls[i], p),
            None => true,
        };
        if show {
            push_padded_decimal(out, i + 1, 4);
            out.push(' ');
            push_all(out, &ls[i]);
            out.push('\n');
        }
        proof { lemma_concat_n_succ((i - start) as nat, f); }
        i = i + 1;
    }
}

/// Renders one file read with `ctx read`.
#[verifier::rlimit(40)]
pub fn read_block(name: &str, content: &str, start_line: Option<usize>, end_line: Option<usize>,
    pat: &Option<String>, several: bool) -> (r: String)
    requires
        read_window_ok(content@, match start_line { Some(x) => Some(x as int), None => None },
            match end_line { Some(x) => Some(x as int), None => None }),
    ensures
        r@ == read_block_text(name@, content@, match start_line { Some(x) => Some(x as int), None => None },
            match end_line { Some(x) => Some(x as int), None => None },
            match pat { Some(p) => Some(p@), None => None }, several),
{
    let cv = chars_of(content);
    let ls = lines(&cv);
    let ghost lsv = ls@.map_values(|l: Vec<char>| l@);
    assert(lsv == lines_of(content@));
    let n = ls.len();
    let start = match start_line { Some(a) => if a >= 1 { a - 1 } else { 0 }, None => 0 };
    let end = match end_line { Some(b) => if b < n { b } else { n }, None => n };
    let ghost sl = match start_line { Some(x) => Some(x as int), None => None };
    let ghost el = match end_line { Some(x) => Some(x as int), None => None };
    assert(read_window(sl, el, n as int) == (start as int, end as int));
    let mut out: Vec<char> = Vec::new();
    push_str(&mut out, "=== ");
    push_str(&mut out, name);
    push_str(&mut out, " (lines ");
    push_decimal(&mut out, start + 1);
    out.push('-');
    push_decimal(&mut out, end);
    push_str(&mut out, " of ");
    push_decimal(&mut out, n);
    push_str(&mut out, ") ===\n");
    assert(out@ == "=== "@ + name@ + " (lines "@ + decimal((start + 1) as nat) + seq!['-'] + decimal(end as nat)
        + " of "@ + decimal(lsv.len()) + ") ===\n"@);
    let pc: Option<Vec<char>> = match pat { Some(p) => Some(chars_of(p.as_str())), None => None };
    let ghost pv = match pat { Some(p) => Some(p@), None => None };
    assert(pv == match pc { Some(v) => Some(v@), None => None });
    let ghost before = out@;
    push_rows(&mut out, &ls, start, end, &pc);
    if several {
        out.push('\n');
    }
    string_of(&out)
}

/// The content shown for a file: its skeleton when asked for and its language
/// is known, else the content itself.
pub fn read_content(path: &str, content: &str, skeleton: bool) -> (r: String)
    ensures
        !skeleton || lang_of_path(path@) is None ==> r@ == content@,
        skeleton ==> match lang_of_path(path@) {
            Some(lang) => {
                &&& !grammar_accepted_of(lang) ==> r@ == content@
                &&& grammar_accepted_of(lang) ==> exists|t: SyntaxTree| is_parse_of(t, content@, lang)
                    && r@ == skeleton_text(t, content@, lang)
            },
            None => true,
        },
{
    if skeleton {
        if let Some(lang) = Lang::from_path(path) {
            return extract_skeleton(content, lang);
        }
    }
    content.to_owned()
}

} // verus!
