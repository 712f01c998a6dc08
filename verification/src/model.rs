//! The data the blueprint logic works on.

use vstd::prelude::*;

verus! {

/// A UTC instant: whole seconds since the Unix epoch and the nanoseconds
/// past that second, as chrono's `timestamp` and `timestamp_subsec_nanos`
/// give them.
#[derive(Clone, Copy, Debug, PartialEq, Eq, Structural)]
pub struct UtcInstant {
    pub secs: i64,
    pub nanos: u32,
}

/// Outcome of a task execution.
#[derive(Clone, Copy, Debug, PartialEq, Eq, Structural)]
pub enum TaskExecutionOutcome {
    Success,
    Failure,
    Partial,
}

/// Execution metadata collected during a task for blueprint authoring/refinement.
#[derive(Clone, Debug)]
pub struct TaskExecutionMeta {
    pub tool_calls: u32,
    pub tools_used: Vec<String>,
    pub duration_secs: u64,
    pub outcome: TaskExecutionOutcome,
    pub is_compound: bool,
}

/// A parsed Blueprint: the agent's procedural memory for a complex task.
///
#[derive(Clone, Debug)]
pub struct Blueprint {
    pub id: String,
    pub name: String,
    pub version: u32,
    pub created: UtcInstant,
    pub updated: UtcInstant,
    pub trigger_patterns: Vec<String>,
    pub task_signature: String,
    pub semantic_tags: Vec<String>,
    pub times_executed: u32,
    pub times_succeeded: u32,
    pub times_failed: u32,
    pub avg_tool_calls: u32,
    pub avg_duration_secs: u32,
    pub owner_user_id: String,
    /// The full Markdown body (Objective, Prerequisites, Phases, etc.)
    pub body: String,
    /// Pre-computed token cost of the full body (for budget enforcement).
    pub token_count: usize,
}

/// The YAML frontmatter fields of a stored blueprint.
#[derive(Clone, Debug)]
pub struct BlueprintFrontmatter {
    pub id: String,
    pub name: String,
    pub trigger_patterns: Vec<String>,
    pub task_signature: String,
    pub semantic_tags: Vec<String>,
}

/// Who sent a chat message.
#[derive(Clone, Copy, Debug, PartialEq, Eq, Structural)]
pub enum Role {
    System,
    User,
    Assistant,
    Tool,
}

/// One part of a multi-part message.
#[derive(Clone, Debug)]
pub enum ContentPart {
    Text { text: String },
    /// A tool call; `input` holds the call's JSON arguments as text.
    ToolUse { id: String, name: String, input: String },
    ToolResult { tool_use_id: String, content: String, is_error: bool },
}

/// The content of a chat message.
#[derive(Clone, Debug)]
pub enum MessageContent {
    Text(String),
    Parts(Vec<ContentPart>),
}

/// One message of a conversation.
#[derive(Clone, Debug)]
pub struct ChatMessage {
    pub role: Role,
    pub content: MessageContent,
}

/// The kind of a memory entry.
#[derive(Clone, Copy, Debug, PartialEq, Eq, Structural)]
pub enum MemoryEntryType {
    Blueprint,
}

/// The metadata stored beside a blueprint memory entry. Its JSON form also
/// carries the blueprint's success rate.
#[derive(Clone, Debug)]
pub struct BlueprintMetadata {
    /// The entry's kind, always `"blueprint"` (the JSON key `type`).
    pub kind: String,
    pub name: String,
    pub version: u32,
    pub trigger_patterns: Vec<String>,
    pub task_signature: String,
    pub semantic_tags: Vec<String>,
    pub times_executed: u32,
    pub times_succeeded: u32,
    pub times_failed: u32,
    pub owner_user_id: String,
    pub token_count: usize,
}

/// A blueprint serialized for storage.
#[derive(Clone, Debug)]
pub struct MemoryEntry {
    pub id: String,
    pub content: String,
    pub metadata: BlueprintMetadata,
    pub timestamp: UtcInstant,
    pub session_id: Option<String>,
    pub entry_type: MemoryEntryType,
}

/// What the matching logic reads of a stored entry's JSON metadata: each
/// field is what the JSON lookup gave (`None` where the key is missing or of
/// another type; a `semantic_tags` item is `None` where it is not a string).
#[derive(Clone, Debug)]
pub struct StoredMetadata {
    pub semantic_tags: Option<Vec<Option<String>>>,
    pub version: Option<u64>,
    pub times_executed: Option<u64>,
    pub times_succeeded: Option<u64>,
    pub times_failed: Option<u64>,
    pub token_count: Option<u64>,
}

/// A blueprint memory entry as read back from storage.
#[derive(Clone, Debug)]
pub struct StoredEntry {
    pub id: String,
    pub content: String,
    pub metadata: StoredMetadata,
}

} // verus!
