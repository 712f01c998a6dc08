//! The prompts that ask the model to author a new blueprint or refine a
//! loaded one.

use vstd::prelude::*;
use crate::clock::{today_ymd, utc_date_text};
use crate::history::{history_summary, summarize_history};
use crate::model::{Blueprint, ChatMessage, TaskExecutionMeta, TaskExecutionOutcome};
use crate::text::{decimal, join, join_strings, push_decimal, push_str, views};

verus! {

/// Pieces of the authoring prompt, between the values it shows.
pub const AUTHORING_INTRO: &'static str = r#"You have just completed a task. Decide whether it is worth capturing as a \
Blueprint — a structured, replayable procedure document that a future agent can \
follow to execute the same type of task with minimal trial-and-error.

Task stats: "#;

pub const AUTHORING_AFTER_CALLS: &'static str = r#" tool calls, "#;

pub const AUTHORING_AFTER_DURATION: &'static str = r#"s duration, tools: "#;

pub const AUTHORING_AFTER_TOOLS: &'static str = r#", outcome: "#;

pub const AUTHORING_AFTER_OUTCOME: &'static str = r#"

Conversation summary:
"#;

pub const AUTHORING_AFTER_SUMMARY: &'static str = r#"

FIRST, decide: is this"#;

pub const AUTHORING_DECISION: &'static str = r#" task worth a blueprint?
- If the task was trivial, one-shot, or purely informational → respond with exactly: SKIP
- If the task involved a meaningful multi-step procedure that would benefit from \
  a replayable guide → write the blueprint below.

If you decide to write the blueprint, use Markdown with YAML frontmatter. Follow this EXACT structure:

```
---
id: "<kebab-case-descriptive-id>"
name: "<Human-readable title>"
trigger_patterns:
  - "<keyword1>"
  - "<keyword2>"
  - "<keyword3>"
  - "<keyword4>"
  - "<keyword5>"
task_signature: ""#;

pub const AUTHORING_AFTER_SIGNATURE: &'static str = r#""
semantic_tags:
  - "<domain-tag1>"
  - "<domain-tag2>"
  - "<domain-tag3>"
---
```

Then the body:

## Objective
[One sentence: what does this blueprint accomplish?]

## Prerequisites
[What must be true before starting? Credentials, tools, permissions, state.]

## Phases
[Break the procedure into sequential phases. Each phase has:]
### Phase N: [Name]
**Goal**: [What this phase achieves]
**Steps**: [Numbered, specific, actionable steps]
**Decision points**: [Where choices must be made, and what to choose]
**Failure modes**: [What can go wrong, how to detect it, how to recover]
**Quality gates**: [Conditions that must be true before moving to next phase]

## Failure Recovery
[Table: Scenario | Detection | Response]

## Verification
[Checklist of conditions that prove the task completed correctly]

## Execution Log
### Run 1 — "#;

pub const AUTHORING_AFTER_DATE: &'static str = r#"
[What happened in this execution: targets, results, duration, tool call count, anything surprising]

CRITICAL RULES:
- Be SPECIFIC. "Navigate to the login page" is useless. "Navigate to reddit.com/login, fill #loginUsername, fill #loginPassword, click .login-btn" is a blueprint.
- Include TIMING. If you waited between actions, say how long and why.
- Include FAILURE MODES you actually encountered, not theoretical ones.
- Include DECISION POINTS where you had to choose between approaches.
- The goal is REPLAYABILITY. Another agent reading this should be able to execute the same task with the same quality, without trial and error."#;

/// Pieces of the refinement prompt, between the values it shows.
pub const REFINEMENT_INTRO: &'static str = r#"You just executed a task using an existing Blueprint. Review the execution \
and produce an UPDATED version of the blueprint.

ORIGINAL BLUEPRINT (v"#;

pub const REFINEMENT_AFTER_VERSION: &'static str = r#"):
---
id: ""#;

pub const REFINEMENT_AFTER_ID: &'static str = r#""
name: ""#;

pub const REFINEMENT_AFTER_NAME: &'static str = r#""
trigger_patterns: "#;

pub const REFINEMENT_AFTER_TRIGGERS: &'static str = r#"
task_signature: ""#;

pub const REFINEMENT_AFTER_SIGNATURE: &'static str = r#""
semantic_tags: "#;

pub const REFINEMENT_AFTER_TAGS: &'static str = r#"
---

"#;

pub const REFINEMENT_AFTER_BODY: &'static str = r#"

THIS EXECUTION:
- Tool calls: "#;

pub const REFINEMENT_AFTER_CALLS: &'static str = r#"
- Duration: "#;

pub const REFINEMENT_AFTER_DURATION: &'static str = r#"s
- Tools used: "#;

pub const REFINEMENT_AFTER_TOOLS: &'static str = r#"
- Outcome: "#;

pub const REFINEMENT_AFTER_OUTCOME: &'static str = r#"

INSTRUCTIONS:
1. If steps worked as written, keep them unchanged.
2. If steps needed modification, update them with what actually worked.
3. If new failure modes were encountered, add them to the Failure Recovery table.
4. Append a new entry to the Execution Log.
5. Keep the same YAML frontmatter id, name, trigger_patterns, task_signature, semantic_tags.
6. Output the COMPLETE updated blueprint (frontmatter + full body), not just the diff.

The goal: the next execution should be even smoother than this one."#;

/// The label of a task outcome in a prompt.
pub open spec fn outcome_label(outcome: TaskExecutionOutcome) -> Seq<char> {
    match outcome {
        TaskExecutionOutcome::Success => "SUCCESS"@,
        TaskExecutionOutcome::Failure => "FAILURE"@,
        TaskExecutionOutcome::Partial => "PARTIAL"@,
    }
}

fn outcome_text(outcome: TaskExecutionOutcome) -> (s: &'static str)
    ensures
        s@ == outcome_label(outcome),
{
    match outcome {
        TaskExecutionOutcome::Success => "SUCCESS",
        TaskExecutionOutcome::Failure => "FAILURE",
        TaskExecutionOutcome::Partial => "PARTIAL",
    }
}

/// The authoring prompt for a task, given the conversation, the execution
/// stats and the date to log the run under.
pub open spec fn authoring_prompt(
    history: Seq<ChatMessage>,
    meta: TaskExecutionMeta,
    date: Seq<char>,
) -> Seq<char> {
    AUTHORING_INTRO@ + decimal(meta.tool_calls as nat) + AUTHORING_AFTER_CALLS@ + decimal(
        meta.duration_secs as nat,
    ) + AUTHORING_AFTER_DURATION@ + join(views(meta.tools_used@), ", "@) + AUTHORING_AFTER_TOOLS@
        + outcome_label(meta.outcome) + AUTHORING_AFTER_OUTCOME@ + history_summary(history)
        + AUTHORING_AFTER_SUMMARY@ + AUTHORING_DECISION@ + join(views(meta.tools_used@), "+"@)
        + AUTHORING_AFTER_SIGNATURE@ + date + AUTHORING_AFTER_DATE@
}

/// The prompt for authoring a new Blueprint from the conversation, with the
/// execution log entry dated `date`.
pub fn authoring_prompt_on(history: &[ChatMessage], meta: &TaskExecutionMeta, date: &str) -> (r:
    String)
    ensures
        r@ == authoring_prompt(history@, *meta, date@),
{
    let tools_str = join_strings(&meta.tools_used, ", ");
    let tools_sig = join_strings(&meta.tools_used, "+");
    let summary = summarize_history(history);
    let mut s = String::new();
    push_str(&mut s, AUTHORING_INTRO);
    push_decimal(&mut s, meta.tool_calls as u64);
    push_str(&mut s, AUTHORING_AFTER_CALLS);
    push_decimal(&mut s, meta.duration_secs);
    push_str(&mut s, AUTHORING_AFTER_DURATION);
    push_str(&mut s, tools_str.as_str());
    push_str(&mut s, AUTHORING_AFTER_TOOLS);
    push_str(&mut s, outcome_text(meta.outcome));
    push_str(&mut s, AUTHORING_AFTER_OUTCOME);
    push_str(&mut s, summary.as_str());
    push_str(&mut s, AUTHORING_AFTER_SUMMARY);
    push_str(&mut s, AUTHORING_DECISION);
    push_str(&mut s, tools_sig.as_str());
    push_str(&mut s, AUTHORING_AFTER_SIGNATURE);
    push_str(&mut s, date);
    push_str(&mut s, AUTHORING_AFTER_DATE);
    assert(s@ =~= authoring_prompt(history@, *meta, date@));
    s
}

/// Build the prompt for authoring a new Blueprint from conversation history,
/// dated today (UTC).
pub fn build_authoring_prompt(history: &[ChatMessage], meta: &TaskExecutionMeta) -> (r: String)
    ensures
        exists|date: Seq<char>|
            #![trigger authoring_prompt(history@, *meta, date)]
            utc_date_text(date) && r@ == authoring_prompt(history@, *meta, date),
{
    let date = today_ymd();
    authoring_prompt_on(history, meta, date.as_str())
}

/// The name of what `{:?}` writes for a string: the string in double quotes,
/// with quotes, backslashes, control and non-printable characters escaped.
pub uninterp spec fn debug_quoted(s: Seq<char>) -> Seq<char>;

/// `<str as Debug>::fmt`, through `format!("{:?}", s)`. Claims only that the
/// result is a function of the string, named `debug_quoted`.
#[verifier::external_body]
fn debug_string(s: &str) -> (r: String)
    ensures
        r@ == debug_quoted(s@),
{
    format!("{:?}", s)
}

/// `{:?}` of a list of strings: `[` then each string quoted, separated by
/// `, `, then `]`.
pub open spec fn debug_list(items: Seq<Seq<char>>) -> Seq<char> {
    "["@ + join(items.map_values(|x: Seq<char>| debug_quoted(x)), ", "@) + "]"@
}

fn debug_list_of(items: &Vec<String>) -> (r: String)
    ensures
        r@ == debug_list(views(items@)),
{
    let mut quoted: Vec<String> = Vec::new();
    let mut i: usize = 0;
    while i < items.len()
        invariant
            i <= items@.len(),
            views(quoted@) == views(items@).take(i as int).map_values(
                |x: Seq<char>| debug_quoted(x),
            ),
        decreases items.len() - i,
    {
        let q = debug_string(items[i].as_str());
        let ghost old_q = quoted@;
        quoted.push(q);
        assert(views(quoted@) =~= views(old_q).push(q@));
        assert(views(items@).take(i + 1).map_values(|x: Seq<char>| debug_quoted(x)) =~= views(
            items@,
        ).take(i as int).map_values(|x: Seq<char>| debug_quoted(x)).push(debug_quoted(items@[i as int]@)));
        i = i + 1;
    }
    assert(views(items@).take(i as int) =~= views(items@));
    let mut s = String::new();
    push_str(&mut s, "[");
    let inner = join_strings(&quoted, ", ");
    push_str(&mut s, inner.as_str());
    push_str(&mut s, "]");
    s
}

/// The refinement prompt for a blueprint after an execution.
pub open spec fn refinement_prompt(original: Blueprint, meta: TaskExecutionMeta) -> Seq<char> {
    REFINEMENT_INTRO@ + decimal(original.version as nat) + REFINEMENT_AFTER_VERSION@
        + original.id@ + REFINEMENT_AFTER_ID@ + original.name@ + REFINEMENT_AFTER_NAME@
        + debug_list(views(original.trigger_patterns@)) + REFINEMENT_AFTER_TRIGGERS@
        + original.task_signature@ + REFINEMENT_AFTER_SIGNATURE@ + debug_list(
        views(original.semantic_tags@),
    ) + REFINEMENT_AFTER_TAGS@ + original.body@ + REFINEMENT_AFTER_BODY@ + decimal(
        meta.tool_calls as nat,
    ) + REFINEMENT_AFTER_CALLS@ + decimal(meta.duration_secs as nat) + REFINEMENT_AFTER_DURATION@
        + join(views(meta.tools_used@), ", "@) + REFINEMENT_AFTER_TOOLS@ + outcome_label(
        meta.outcome,
    ) + REFINEMENT_AFTER_OUTCOME@
}

/// Build the prompt for refining an existing Blueprint after re-execution.
pub fn build_refinement_prompt(original: &Blueprint, meta: &TaskExecutionMeta) -> (r: String)
    ensures
        r@ == refinement_prompt(*original, *meta),
{
    let triggers = debug_list_of(&original.trigger_patterns);
    let tags = debug_list_of(&original.semantic_tags);
    let tools = join_strings(&meta.tools_used, ", ");
    let mut s = String::new();
    push_str(&mut s, REFINEMENT_INTRO);
    push_decimal(&mut s, original.version as u64);
    push_str(&mut s, REFINEMENT_AFTER_VERSION);
    push_str(&mut s, original.id.as_str());
    push_str(&mut s, REFINEMENT_AFTER_ID);
    push_str(&mut s, original.name.as_str());
    push_str(&mut s, REFINEMENT_AFTER_NAME);
    push_str(&mut s, triggers.as_str());
    push_str(&mut s, REFINEMENT_AFTER_TRIGGERS);
    push_str(&mut s, original.task_signature.as_str());
    push_str(&mut s, REFINEMENT_AFTER_SIGNATURE);
    push_str(&mut s, tags.as_str());
    push_str(&mut s, REFINEMENT_AFTER_TAGS);
    push_str(&mut s, original.body.as_str());
    push_str(&mut s, REFINEMENT_AFTER_BODY);
    push_decimal(&mut s, meta.tool_calls as u64);
    push_str(&mut s, REFINEMENT_AFTER_CALLS);
    push_decimal(&mut s, meta.duration_secs);
    push_str(&mut s, REFINEMENT_AFTER_DURATION);
    push_str(&mut s, tools.as_str());
    push_str(&mut s, REFINEMENT_AFTER_TOOLS);
    push_str(&mut s, outcome_text(meta.outcome));
    push_str(&mut s, REFINEMENT_AFTER_OUTCOME);
    assert(s@ =~= refinement_prompt(*original, *meta));
    s
}

} // verus!
