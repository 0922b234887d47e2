//! Token budgets: a chars/4 estimate of the tokens in a text, and truncation
//! of a text to a budget at a line boundary.
use vstd::prelude::*;
use crate::text::{chars_of, decimal, lines, lines_of, push_decimal, push_str, slice, string_of};

verus! {

/// `n / 4`, rounded up.
pub open spec fn token_estimate(n: nat) -> nat {
    n / 4 + if n % 4 == 0 { 0nat } else { 1nat }
}

/// Estimates the tokens of a text: its number of characters divided by four,
/// rounded up.
pub fn estimate_tokens(text: &str) -> (r: usize)
    ensures
        r == token_estimate(text@.len()),
{
    let n = chars_of(text).len();
    n / 4 + if n % 4 == 0 { 0 } else { 1 }
}

/// The index of the last newline among the first `k` characters of `s`.
pub open spec fn last_newline_before(s: Seq<char>, k: int) -> Option<int>
    decreases k,
{
    if k <= 0 {
        None
    } else if s[k - 1] == '\n' {
        Some(k - 1)
    } else {
        last_newline_before(s, k - 1)
    }
}

/// Where a text is cut for a budget of `max` tokens: at the last newline
/// within its first `4 * max` characters, else at its start (a line boundary
/// either way).
pub open spec fn cut_point(s: Seq<char>, max: nat) -> int {
    match last_newline_before(s, (4 * max) as int) {
        Some(k) => k,
        None => 0,
    }
}

/// The text within `max` tokens: the whole text if its estimate fits,
/// otherwise the part before the cut followed by a notice of what was left out.
pub open spec fn truncated(s: Seq<char>, max: nat) -> Seq<char> {
    if token_estimate(s.len()) <= max {
        s
    } else {
        let cut = cut_point(s, max);
        let rest = s.skip(cut);
        s.take(cut) + "\n\n[... truncated at ~"@ + decimal(max) + " tokens \u{2014} "@
            + decimal(lines_of(rest).len()) + " more lines, ~"@
            + decimal(token_estimate(rest.len())) + " more tokens ...]\n"@
    }
}

proof fn lemma_last_newline_before(s: Seq<char>, k: int, i: int)
    requires
        0 <= k <= s.len(),
        -1 <= i < k,
        forall|j: int| i < j < k ==> s[j] != '\n',
        i >= 0 ==> s[i] == '\n',
    ensures
        last_newline_before(s, k) == (if i >= 0 { Some(i) } else { None::<int> }),
    decreases k,
{
    if k > 0 && s[k - 1] != '\n' {
        lemma_last_newline_before(s, k - 1, i);
    }
}

/// Truncates a text to fit within `max_tokens`, at a line boundary, with a
/// notice of what was cut.
pub fn truncate_to_tokens(text: &str, max_tokens: usize) -> (r: String)
    ensures
        r@ == truncated(text@, max_tokens as nat),
{
    let estimated = estimate_tokens(text);
    if estimated <= max_tokens {
        return text.to_owned();
    }
    let cs = chars_of(text);
    let n = cs.len();
    assert(max_tokens * 4 < n) by (nonlinear_arith)
        requires
            (n / 4 + if n % 4 == 0 { 0int } else { 1int }) > max_tokens;
    let target = max_tokens * 4;
    let mut k = target;
    while k > 0 && cs[k - 1] != '\n'
        invariant
            k <= target < cs@.len(),
            forall|j: int| k <= j < target ==> cs@[j] != '\n',
        decreases k,
    {
        k = k - 1;
    }
    let cut = if k > 0 { k - 1 } else { 0 };
    proof {
        if k > 0 {
            lemma_last_newline_before(cs@, target as int, k - 1);
        } else {
            lemma_last_newline_before(cs@, target as int, -1);
        }
    }
    let rest = slice(&cs, cut, n);
    assert(rest@ == text@.skip(cut as int));
    let rest_lines = lines(&rest);
    let rest_len = rest.len();
    let rest_tokens = rest_len / 4 + if rest_len % 4 == 0 { 0 } else { 1 };
    let mut out: Vec<char> = slice(&cs, 0, cut);
    assert(out@ == text@.take(cut as int));
    push_str(&mut out, "\n\n[... truncated at ~");
    push_decimal(&mut out, max_tokens);
    push_str(&mut out, " tokens \u{2014} ");
    push_decimal(&mut out, rest_lines.len());
    push_str(&mut out, " more lines, ~");
    push_decimal(&mut out, rest_tokens);
    push_str(&mut out, " more tokens ...]\n");
    string_of(&out)
}

/// A text within the budget is kept whole; a longer one is cut at a line
/// boundary within its first `4 * max` characters (at the last newline there,
/// or at its start when there is none), so what is kept fits the budget.
pub proof fn lemma_truncation_cut(s: Seq<char>, max: nat)
    ensures
        token_estimate(s.len()) <= max ==> truncated(s, max) == s,
        ({
            let cut = cut_point(s, max);
            &&& 0 <= cut <= 4 * max
            &&& (cut == 0 || s[cut] == '\n')
            &&& forall|j: int| cut < j < 4 * max && j < s.len() ==> s[j] != '\n'
            &&& token_estimate(cut as nat) <= max
        }),
{
    lemma_last_newline_before_props(s, (4 * max) as int);
    let cut = cut_point(s, max);
    assert(token_estimate(cut as nat) <= max) by (nonlinear_arith)
        requires
            0 <= cut <= 4 * max,
    {
    }
}

proof fn lemma_last_newline_before_props(s: Seq<char>, k: int)
    requires
        k >= 0,
    ensures
        match last_newline_before(s, k) {
            Some(i) => 0 <= i < k && s[i] == '\n' && forall|j: int| i < j < k && j < s.len() ==> s[j] != '\n',
            None => forall|j: int| 0 <= j < k && j < s.len() ==> s[j] != '\n',
        },
    decreases k,
{
    if k > 0 && s[k - 1] != '\n' {
        lemma_last_newline_before_props(s, k - 1);
    }
}

} // verus!
