//! What the blueprint logic reads of a conversation: the tools it used and a
//! compact User/Assistant summary.

use vstd::prelude::*;
use crate::model::{ChatMessage, ContentPart, MessageContent, Role};
use crate::text::{
    chars_of, fitting_chars, fitting_prefix, join, join_strings, push_str, string_of, trim,
    trim_bounds, utf8_len, utf8_longer_than, vec_slice, views, dedup,
    push_unique_string, lemma_dedup_distinct, utf8_width, lemma_utf8_len_prepend,
};

verus! {

/// The label of a role in a summary; only user and assistant turns are kept.
pub open spec fn role_label(role: Role) -> Option<Seq<char>> {
    match role {
        Role::User => Some("User"@),
        Role::Assistant => Some("Assistant"@),
        _ => None,
    }
}

/// The texts of the `Text` parts among `parts`, in order.
pub open spec fn part_texts(parts: Seq<ContentPart>) -> Seq<Seq<char>>
    decreases parts.len(),
{
    if parts.len() == 0 {
        seq![]
    } else {
        let rest = part_texts(parts.drop_last());
        match parts.last() {
            ContentPart::Text { text } => rest.push(text@),
            _ => rest,
        }
    }
}

/// The text of a message: its plain text, or its text parts joined by a
/// space; `None` for a multi-part message without a text part.
pub open spec fn message_text(content: MessageContent) -> Option<Seq<char>> {
    match content {
        MessageContent::Text(t) => Some(t@),
        MessageContent::Parts(parts) => {
            let texts = part_texts(parts@);
            if texts.len() == 0 {
                None
            } else {
                Some(join(texts, " "@))
            }
        },
    }
}

/// The longest a summarised message may be, in UTF-8 bytes, before it is cut.
pub open spec fn display_limit() -> int {
    300
}

/// A message text as shown in a summary: texts over 300 bytes are cut at the
/// last character that starts at or before byte 300, and marked with "...".
pub open spec fn display_text(t: Seq<char>) -> Seq<char> {
    if utf8_len(t) > display_limit() {
        t.take(fitting_chars(t, display_limit()) as int) + "..."@
    } else {
        t
    }
}

/// The summary line of one message, if it has one.
pub open spec fn summary_entry(msg: ChatMessage) -> Option<Seq<char>> {
    match role_label(msg.role) {
        None => None,
        Some(label) => match message_text(msg.content) {
            None => None,
            Some(text) => {
                let t = trim(text);
                if t.len() == 0 {
                    None
                } else {
                    Some(label + ": "@ + display_text(t))
                }
            },
        },
    }
}

/// The summary lines of a conversation, in order.
pub open spec fn summary_entries(history: Seq<ChatMessage>) -> Seq<Seq<char>>
    decreases history.len(),
{
    if history.len() == 0 {
        seq![]
    } else {
        let rest = summary_entries(history.drop_last());
        match summary_entry(history.last()) {
            Some(e) => rest.push(e),
            None => rest,
        }
    }
}

/// How many of the latest summary lines a summary keeps.
pub open spec fn summary_window() -> int {
    20
}

/// The summary of a conversation: its last 20 summary lines, one per line.
pub open spec fn history_summary(history: Seq<ChatMessage>) -> Seq<char> {
    let entries = summary_entries(history);
    let start = if entries.len() > summary_window() {
        entries.len() - summary_window()
    } else {
        0
    };
    join(entries.skip(start), "\n"@)
}

fn collect_part_texts(parts: &Vec<ContentPart>) -> (r: Vec<String>)
    ensures
        views(r@) == part_texts(parts@),
{
    let mut r: Vec<String> = Vec::new();
    let mut i: usize = 0;
    while i < parts.len()
        invariant
            i <= parts@.len(),
            views(r@) == part_texts(parts@.take(i as int)),
        decreases parts.len() - i,
    {
        assert(parts@.take(i + 1).drop_last() =~= parts@.take(i as int));
        match &parts[i] {
            ContentPart::Text { text } => {
                let ghost old_r = r@;
                r.push(text.clone());
                assert(views(r@) =~= views(old_r).push(text@));
            },
            _ => {},
        }
        i = i + 1;
    }
    assert(parts@.take(i as int) =~= parts@);
    r
}

fn message_text_of(content: &MessageContent) -> (r: Option<String>)
    ensures
        r matches Some(t) ==> message_text(*content) == Some(t@),
        r is None ==> message_text(*content) is None,
{
    match content {
        MessageContent::Text(t) => Some(t.clone()),
        MessageContent::Parts(parts) => {
            let texts = collect_part_texts(parts);
            if texts.len() == 0 {
                None
            } else {
                Some(join_strings(&texts, " "))
            }
        },
    }
}

fn summary_entry_of(msg: &ChatMessage) -> (r: Option<String>)
    ensures
        r matches Some(e) ==> summary_entry(*msg) == Some(e@),
        r is None ==> summary_entry(*msg) is None,
{
    let label = match msg.role {
        Role::User => "User",
        Role::Assistant => "Assistant",
        _ => {
            return None;
        },
    };
    let text = match message_text_of(&msg.content) {
        Some(t) => t,
        None => {
            return None;
        },
    };
    let chars = chars_of(text.as_str());
    let (a, b) = trim_bounds(&chars, 0, chars.len());
    assert(chars@.subrange(0, chars@.len() as int) =~= chars@);
    if a == b {
        return None;
    }
    let trimmed = vec_slice(&chars, a, b);
    let mut entry = String::new();
    push_str(&mut entry, label);
    push_str(&mut entry, ": ");
    if utf8_longer_than(&trimmed, 300) {
        let k = fitting_prefix(&trimmed, 300);
        let cut = string_of(&trimmed, 0, k);
        push_str(&mut entry, cut.as_str());
        push_str(&mut entry, "...");
        assert(trimmed@.subrange(0, k as int) =~= trimmed@.take(k as int));
    } else {
        let whole = string_of(&trimmed, 0, trimmed.len());
        push_str(&mut entry, whole.as_str());
        assert(trimmed@.subrange(0, trimmed@.len() as int) =~= trimmed@);
    }
    assert(entry@ =~= summary_entry(*msg)->0);
    Some(entry)
}

/// Summarize conversation history for blueprint authoring: a compact
/// User/Assistant text thread of at most the last 20 exchanges, ignoring tool
/// outputs.
pub fn summarize_history(history: &[ChatMessage]) -> (r: String)
    ensures
        r@ == history_summary(history@),
{
    let mut entries: Vec<String> = Vec::new();
    let mut i: usize = 0;
    while i < history.len()
        invariant
            i <= history@.len(),
            views(entries@) == summary_entries(history@.take(i as int)),
        decreases history.len() - i,
    {
        assert(history@.take(i + 1).drop_last() =~= history@.take(i as int));
        match summary_entry_of(&history[i]) {
            Some(e) => {
                let ghost old_entries = entries@;
                entries.push(e);
                assert(views(entries@) =~= views(old_entries).push(e@));
            },
            None => {},
        }
        i = i + 1;
    }
    assert(history@.take(i as int) =~= history@);
    let start = if entries.len() > 20 {
        entries.len() - 20
    } else {
        0
    };
    let mut tail: Vec<String> = Vec::new();
    let mut j = start;
    while j < entries.len()
        invariant
            start <= j <= entries@.len(),
            views(tail@) == views(entries@).subrange(start as int, j as int),
        decreases entries.len() - j,
    {
        let ghost old_tail = tail@;
        tail.push(entries[j].clone());
        assert(views(tail@) =~= views(old_tail).push(entries@[j as int]@));
        assert(views(entries@).subrange(start as int, j + 1) =~= views(entries@).subrange(
            start as int,
            j as int,
        ).push(entries@[j as int]@));
        j = j + 1;
    }
    assert(views(entries@).subrange(start as int, entries@.len() as int) =~= views(
        entries@,
    ).skip(start as int));
    join_strings(&tail, "\n")
}


/// The names of the tool calls among `parts`, in order.
pub open spec fn part_tool_names(parts: Seq<ContentPart>) -> Seq<Seq<char>>
    decreases parts.len(),
{
    if parts.len() == 0 {
        seq![]
    } else {
        let rest = part_tool_names(parts.drop_last());
        match parts.last() {
            ContentPart::ToolUse { name, .. } => rest.push(name@),
            _ => rest,
        }
    }
}

/// The names of all tool calls in a conversation, in order, repeats included.
pub open spec fn tool_call_names(history: Seq<ChatMessage>) -> Seq<Seq<char>>
    decreases history.len(),
{
    if history.len() == 0 {
        seq![]
    } else {
        let rest = tool_call_names(history.drop_last());
        match history.last().content {
            MessageContent::Parts(parts) => rest + part_tool_names(parts@),
            MessageContent::Text(_) => rest,
        }
    }
}

/// Extract unique tool names from conversation history, in the order of
/// their first call.
pub fn extract_tools_used(history: &[ChatMessage]) -> (tools: Vec<String>)
    ensures
        views(tools@) == dedup(tool_call_names(history@)),
{
    let mut tools: Vec<String> = Vec::new();
    let mut i: usize = 0;
    while i < history.len()
        invariant
            i <= history@.len(),
            views(tools@) == dedup(tool_call_names(history@.take(i as int))),
        decreases history.len() - i,
    {
        assert(history@.take(i + 1).drop_last() =~= history@.take(i as int));
        let ghost before = tool_call_names(history@.take(i as int));
        match &history[i].content {
            MessageContent::Parts(parts) => {
                let mut j: usize = 0;
                assert(before + part_tool_names(parts@.take(0)) =~= before);
                while j < parts.len()
                    invariant
                        j <= parts@.len(),
                        views(tools@) == dedup(before + part_tool_names(parts@.take(j as int))),
                    decreases parts.len() - j,
                {
                    assert(parts@.take(j + 1).drop_last() =~= parts@.take(j as int));
                    match &parts[j] {
                        ContentPart::ToolUse { name, .. } => {
                            let ghost names = before + part_tool_names(parts@.take(j as int));
                            push_unique_string(&mut tools, name.as_str());
                            assert((names.push(name@)).drop_last() =~= names);
                            assert(before + part_tool_names(parts@.take(j + 1)) =~= names.push(
                                name@,
                            ));
                        },
                        _ => {
                            assert(before + part_tool_names(parts@.take(j + 1)) =~= before
                                + part_tool_names(parts@.take(j as int)));
                        },
                    }
                    j = j + 1;
                }
                assert(parts@.take(j as int) =~= parts@);
            },
            MessageContent::Text(_) => {},
        }
        i = i + 1;
    }
    assert(history@.take(i as int) =~= history@);
    tools
}

/// The tool list of a conversation names each tool once, and exactly the
/// tools the conversation called.
pub proof fn law_tools_used_distinct(history: Seq<ChatMessage>)
    ensures
        dedup(tool_call_names(history)).no_duplicates(),
        forall|name: Seq<char>|
            dedup(tool_call_names(history)).contains(name) <==> tool_call_names(history).contains(
                name,
            ),
{
    lemma_dedup_distinct(tool_call_names(history));
}


proof fn lemma_fitting_chars_fit(s: Seq<char>, budget: int)
    requires
        budget >= 0,
    ensures
        fitting_chars(s, budget) <= s.len(),
        utf8_len(s.take(fitting_chars(s, budget) as int)) <= budget,
    decreases s.len(),
{
    if s.len() > 0 && utf8_width(s[0]) <= budget {
        let rest = s.drop_first();
        let k = fitting_chars(rest, budget - utf8_width(s[0]));
        lemma_fitting_chars_fit(rest, budget - utf8_width(s[0]));
        assert(s.take(k as int + 1) =~= seq![s[0]] + rest.take(k as int));
        lemma_utf8_len_prepend(s[0], rest.take(k as int));
    } else {
        assert(s.take(0) =~= Seq::<char>::empty());
    }
}

/// A summary keeps at most the last 20 summary lines, and a cut message
/// keeps at most 300 bytes of its text before the "..." marker.
pub proof fn law_summary_bounded(history: Seq<ChatMessage>, t: Seq<char>)
    ensures
        summary_entries(history).len() > summary_window() ==> summary_entries(history).skip(
            summary_entries(history).len() - summary_window(),
        ).len() == summary_window(),
        utf8_len(t) > display_limit() ==> utf8_len(
            t.take(fitting_chars(t, display_limit()) as int),
        ) <= display_limit(),
        utf8_len(t) <= display_limit() ==> display_text(t) == t,
{
    lemma_fitting_chars_fit(t, display_limit());
}

proof fn lemma_summary_entries_concat(a: Seq<ChatMessage>, b: Seq<ChatMessage>)
    ensures
        summary_entries(a + b) == summary_entries(a) + summary_entries(b),
    decreases b.len(),
{
    if b.len() == 0 {
        assert(a + b =~= a);
        assert(summary_entries(a) + summary_entries(b) =~= summary_entries(a));
    } else {
        lemma_summary_entries_concat(a, b.drop_last());
        assert((a + b).drop_last() =~= a + b.drop_last());
        assert((a + b).last() == b.last());
        match summary_entry(b.last()) {
            Some(e) => {
                assert(summary_entries(a) + summary_entries(b) =~= (summary_entries(a)
                    + summary_entries(b.drop_last())).push(e));
            },
            None => {},
        }
    }
}

/// A message that is neither the user's nor the assistant's (a tool result,
/// a system message) changes nothing in the summary, wherever it stands in
/// the conversation: the cap counts summary lines, not messages.
pub proof fn law_summary_ignores_other_turns(
    before: Seq<ChatMessage>,
    msg: ChatMessage,
    after: Seq<ChatMessage>,
)
    requires
        msg.role != Role::User,
        msg.role != Role::Assistant,
    ensures
        history_summary(before + seq![msg] + after) == history_summary(before + after),
{
    lemma_summary_entries_concat(before, seq![msg]);
    lemma_summary_entries_concat(before + seq![msg], after);
    lemma_summary_entries_concat(before, after);
    assert(seq![msg].drop_last() =~= Seq::<ChatMessage>::empty());
    assert(role_label(msg.role) is None);
    assert(summary_entry(msg) is None);
    assert(summary_entries(Seq::<ChatMessage>::empty()) =~= Seq::<Seq<char>>::empty());
    assert(summary_entries(seq![msg]) =~= Seq::<Seq<char>>::empty());
    assert(summary_entries(before) + summary_entries(seq![msg]) =~= summary_entries(before));
}

/// A conversation with at most 20 summary lines is summarised whole: every
/// user and assistant line appears, in order, one per line.
pub proof fn law_short_summary_is_whole(history: Seq<ChatMessage>)
    requires
        summary_entries(history).len() <= summary_window(),
    ensures
        history_summary(history) == join(summary_entries(history), "\n"@),
{
    assert(summary_entries(history).skip(0) =~= summary_entries(history));
}

/// A longer conversation keeps exactly its last 20 summary lines: the lines
/// of the whole conversation, not those of its last 20 messages.
pub proof fn law_long_summary_keeps_last_lines(history: Seq<ChatMessage>)
    requires
        summary_entries(history).len() > summary_window(),
    ensures
        history_summary(history) == join(
            summary_entries(history).subrange(
                summary_entries(history).len() - summary_window(),
                summary_entries(history).len() as int,
            ),
            "\n"@,
        ),
{
    let e = summary_entries(history);
    assert(e.skip(e.len() - summary_window()) =~= e.subrange(e.len() - summary_window(), e.len() as int));
}

} // verus!
