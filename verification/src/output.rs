//! The output pipeline shared by the commands: truncation to a token budget,
//! then the optional filtering.
use vstd::prelude::*;
use crate::filter::{maybe_filter, prompt_text, FilterStep};
use crate::tokens::{truncate_to_tokens, truncated};

verus! {

/// The output after the token budget, if one is given.
pub open spec fn budgeted(output: Seq<char>, tokens: Option<usize>) -> Seq<char> {
    match tokens {
        Some(t) => truncated(output, t as nat),
        None => output,
    }
}

/// Applies the token budget, then decides on the filtering: what is printed,
/// or the prompt for the assistant.
pub fn prepare(output: &str, tokens: Option<usize>, ask: &Option<String>) -> (r: FilterStep)
    ensures
        ask is None ==> (r matches FilterStep::Keep(s) && s@ == budgeted(output@, tokens)),
        ask matches Some(q) ==> (r matches FilterStep::Ask(p) && p@ == prompt_text(q@, budgeted(output@, tokens))),
{
    let text = match tokens {
        Some(t) => truncate_to_tokens(output, t),
        None => output.to_owned(),
    };
    maybe_filter(text.as_str(), ask)
}

} // verus!
