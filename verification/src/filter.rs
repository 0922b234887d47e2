//! Filtering an output through an assistant's command-line program: the
//! prompt it is given, its arguments, and what the output becomes.
use vstd::prelude::*;
use crate::text::{push_str, string_of};

verus! {

/// What becomes of an output: kept as it is, or handed to the assistant with a prompt.
pub enum FilterStep {
    Keep(String),
    Ask(String),
}

/// The prompt that asks the assistant to filter `input` for `question`.
pub open spec fn prompt_text(question: Seq<char>, input: Seq<char>) -> Seq<char> {
    "You are a context filter. Given the following codebase output, answer this question concisely: "@ + question
        + "\n\nOutput ONLY the relevant parts — no preamble, no explanation, just the filtered result.\nIf nothing is relevant, say \"No relevant results.\"\n\n---\n"@
        + input
}

/// The prompt that asks the assistant to filter `input` for `question`.
pub fn ask_prompt(question: &str, input: &str) -> (r: String)
    ensures
        r@ == prompt_text(question@, input@),
{
    let mut out: Vec<char> = Vec::new();
    push_str(&mut out, "You are a context filter. Given the following codebase output, answer this question concisely: ");
    push_str(&mut out, question);
    push_str(&mut out, "\n\nOutput ONLY the relevant parts — no preamble, no explanation, just the filtered result.\nIf nothing is relevant, say \"No relevant results.\"\n\n---\n");
    push_str(&mut out, input);
    string_of(&out)
}

/// The arguments of the assistant's program: a prompt read from standard input,
/// a fast model, no tools and no session.
pub fn ask_args() -> (r: Vec<&'static str>)
    ensures
        r@.map_values(|s: &str| s@) == seq!["-p"@, "--model"@, "sonnet"@, "--effort"@, "low"@, "--tools"@, ""@,
            "--disable-slash-commands"@, "--no-session-persistence"@],
{
    let r = vec!["-p", "--model", "sonnet", "--effort", "low", "--tools", "", "--disable-slash-commands",
        "--no-session-persistence"];
    assert(r@.map_values(|s: &str| s@) =~= seq!["-p"@, "--model"@, "sonnet"@, "--effort"@, "low"@, "--tools"@, ""@,
        "--disable-slash-commands"@, "--no-session-persistence"@]);
    r
}

/// The error when the assistant's program `program` fails.
pub fn ask_failure(program: &str, stderr: &str) -> (r: String)
    ensures
        r@ == program@ + " CLI failed: "@ + stderr@,
{
    let mut out: Vec<char> = Vec::new();
    push_str(&mut out, program);
    push_str(&mut out, " CLI failed: ");
    push_str(&mut out, stderr);
    string_of(&out)
}

/// If a question is asked, the output is to be filtered through the assistant with
/// the prompt for it; otherwise it is kept as it is.
pub fn maybe_filter(output: &str, ask: &Option<String>) -> (r: FilterStep)
    ensures
        ask is None ==> (r matches FilterStep::Keep(s) && s@ == output@),
        ask matches Some(q) ==> (r matches FilterStep::Ask(p) && p@ == prompt_text(q@, output@)),
{
    match ask {
        Some(question) => FilterStep::Ask(ask_prompt(question.as_str(), output)),
        None => FilterStep::Keep(output.to_owned()),
    }
}

} // verus!
