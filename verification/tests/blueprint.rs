use skyclaw_agent::creation::should_create_blueprint;
use skyclaw_agent::formatting::{
    format_blueprint_catalog, format_blueprint_context, format_blueprint_outline,
};
use skyclaw_agent::history::{extract_tools_used, summarize_history};
use skyclaw_agent::matching::select_best_blueprint;
use skyclaw_agent::model::{
    Blueprint, BlueprintFrontmatter, ChatMessage, ContentPart, MemoryEntryType, MessageContent,
    Role, TaskExecutionMeta, TaskExecutionOutcome, UtcInstant,
};
use skyclaw_agent::parsing::{new_parsed_blueprint, split_frontmatter};
use skyclaw_agent::prompts::{build_authoring_prompt, build_refinement_prompt};
use skyclaw_agent::storage::to_memory_entry;

fn make_sample_blueprint() -> Blueprint {
    let t = chrono::Utc::now();
    let now = UtcInstant {
        secs: t.timestamp(),
        nanos: t.timestamp_subsec_nanos(),
    };
    Blueprint {
        id: "bp-test-deploy".to_string(),
        name: "Test Deployment".to_string(),
        version: 2,
        created: now,
        updated: now,
        trigger_patterns: vec![
            "deploy".to_string(),
            "production".to_string(),
            "docker".to_string(),
            "server".to_string(),
        ],
        task_signature: "shell+file".to_string(),
        semantic_tags: vec![
            "deployment".to_string(),
            "infrastructure".to_string(),
            "devops".to_string(),
        ],
        times_executed: 5,
        times_succeeded: 4,
        times_failed: 1,
        avg_tool_calls: 25,
        avg_duration_secs: 300,
        owner_user_id: "user-123".to_string(),
        body: "## Objective\nDeploy app to production.\n\n## Phases\n### Phase 1: Build\n**Steps**:\n1. Run docker build\n2. Push to registry".to_string(),
        token_count: 30,
    }
}

fn make_meta(
    tool_calls: u32,
    tools: &[&str],
    compound: bool,
    outcome: TaskExecutionOutcome,
) -> TaskExecutionMeta {
    TaskExecutionMeta {
        tool_calls,
        tools_used: tools.iter().map(|s| s.to_string()).collect(),
        duration_secs: 120,
        outcome,
        is_compound: compound,
    }
}

fn yaml_strings(v: &serde_yaml::Value, key: &str) -> Result<Vec<String>, String> {
    let items = v[key]
        .as_sequence()
        .ok_or(format!("missing or invalid field `{key}`"))?;
    items
        .iter()
        .map(|i| {
            i.as_str()
                .map(|s| s.to_string())
                .ok_or(format!("invalid item in `{key}`"))
        })
        .collect()
}

/// Parses stored blueprint content the way the application layer does:
/// the library splits it, YAML reads the frontmatter (every field present,
/// strings and lists of strings), the library builds the blueprint.
fn parse_blueprint(raw: &str) -> Result<Blueprint, String> {
    let (yaml, body) = split_frontmatter(raw)?;
    let v: serde_yaml::Value = serde_yaml::from_str(&yaml)
        .map_err(|e| format!("Failed to parse blueprint YAML: {e}"))?;
    let text = |key: &str| -> Result<String, String> {
        v[key]
            .as_str()
            .map(|s| s.to_string())
            .ok_or(format!("missing field `{key}`"))
    };
    let front = BlueprintFrontmatter {
        id: text("id")?,
        name: text("name")?,
        trigger_patterns: yaml_strings(&v, "trigger_patterns")?,
        task_signature: text("task_signature")?,
        semantic_tags: yaml_strings(&v, "semantic_tags")?,
    };
    Ok(new_parsed_blueprint(front, body))
}

// ── should_create_blueprint ──────────────────────────────────

#[test]
fn create_blueprint_all_conditions_met() {
    let meta = make_meta(
        15,
        &["shell", "file_read", "web_fetch"],
        true,
        TaskExecutionOutcome::Success,
    );
    assert!(should_create_blueprint(&meta, false));
}

#[test]
fn create_blueprint_low_effort_passed_to_llm() {
    let meta = make_meta(
        5,
        &["shell", "file_read", "web_fetch"],
        true,
        TaskExecutionOutcome::Success,
    );
    assert!(should_create_blueprint(&meta, false));
}

#[test]
fn create_blueprint_failure_rejected() {
    let meta = make_meta(
        15,
        &["shell", "file_read", "web_fetch"],
        true,
        TaskExecutionOutcome::Failure,
    );
    assert!(!should_create_blueprint(&meta, false));
}

#[test]
fn create_blueprint_already_loaded_rejected() {
    let meta = make_meta(
        15,
        &["shell", "file_read", "web_fetch"],
        true,
        TaskExecutionOutcome::Success,
    );
    assert!(!should_create_blueprint(&meta, true));
}

#[test]
fn create_blueprint_not_compound_but_enough_tools() {
    let meta = make_meta(
        12,
        &["shell", "browser", "web_fetch"],
        false,
        TaskExecutionOutcome::Success,
    );
    assert!(should_create_blueprint(&meta, false));
}

#[test]
fn create_blueprint_compound_but_few_tools() {
    let meta = make_meta(15, &["shell"], true, TaskExecutionOutcome::Success);
    assert!(should_create_blueprint(&meta, false));
}

#[test]
fn create_blueprint_no_tools_rejected() {
    let meta = make_meta(0, &[], false, TaskExecutionOutcome::Success);
    assert!(!should_create_blueprint(&meta, false));
}

#[test]
fn create_blueprint_partial_success_accepted() {
    let meta = make_meta(
        15,
        &["shell", "browser", "web_fetch"],
        true,
        TaskExecutionOutcome::Partial,
    );
    assert!(should_create_blueprint(&meta, false));
}

// ── parse_blueprint ──────────────────────────────────────────

#[test]
fn parse_valid_blueprint() {
    let raw = r#"---
id: "bp-reddit-engagement"
name: "Reddit Organic Engagement"
trigger_patterns:
  - "reddit"
  - "subreddit"
  - "engagement"
task_signature: "browser+web_fetch"
semantic_tags:
  - "social-media"
  - "marketing"
---

## Objective
Engage on Reddit naturally.

## Phases
### Phase 1: Login
**Steps**:
1. Navigate to reddit.com/login
2. Enter credentials"#;

    let bp = parse_blueprint(raw).unwrap();
    assert_eq!(bp.id, "bp-reddit-engagement");
    assert_eq!(bp.name, "Reddit Organic Engagement");
    assert_eq!(bp.trigger_patterns.len(), 3);
    assert_eq!(bp.task_signature, "browser+web_fetch");
    assert_eq!(bp.semantic_tags.len(), 2);
    assert!(bp.body.contains("## Objective"));
    assert!(bp.body.contains("Phase 1: Login"));
}

#[test]
fn parse_blueprint_no_frontmatter() {
    let raw = "Just some text without frontmatter";
    assert!(parse_blueprint(raw).is_err());
}

#[test]
fn parse_blueprint_missing_closing() {
    let raw = "---\nid: test\nname: test\n";
    assert!(parse_blueprint(raw).is_err());
}

#[test]
fn parse_blueprint_malformed_yaml() {
    let raw = "---\n  bad: [yaml: broken\n---\nBody";
    assert!(parse_blueprint(raw).is_err());
}

// ── format_blueprint_catalog ─────────────────────────────────

#[test]
fn catalog_format_with_blueprints() {
    let bp = make_sample_blueprint();
    let catalog = format_blueprint_catalog(&[bp], None);

    assert!(catalog.contains("AVAILABLE BLUEPRINTS"));
    assert!(catalog.contains("bp-test-deploy"));
    assert!(catalog.contains("30 tok"));
    assert!(catalog.contains("v2"));
    assert!(catalog.contains("80% success"));
    assert!(catalog.contains("END BLUEPRINTS"));
}

#[test]
fn catalog_format_with_loaded_marker() {
    let bp = make_sample_blueprint();
    let catalog = format_blueprint_catalog(&[bp], Some("bp-test-deploy"));
    assert!(catalog.contains("*LOADED*"));
}

#[test]
fn catalog_format_empty() {
    let catalog = format_blueprint_catalog(&[], None);
    assert!(catalog.is_empty());
}

#[test]
fn catalog_format_caps_at_five() {
    let bps: Vec<Blueprint> = (0..8)
        .map(|i| {
            let mut bp = make_sample_blueprint();
            bp.id = format!("bp-{i}");
            bp
        })
        .collect();
    let catalog = format_blueprint_catalog(&bps, None);
    let bp_lines = catalog
        .lines()
        .filter(|l| l.trim_start().starts_with('['))
        .count();
    assert_eq!(bp_lines, 5);
}

// ── format_blueprint_outline ──────────────────────────────────

#[test]
fn outline_format_shows_headers() {
    let bp = make_sample_blueprint();
    let outline = format_blueprint_outline(&bp);
    assert!(outline.contains("BLUEPRINT OUTLINE"));
    assert!(outline.contains("## Objective"));
    assert!(outline.contains("### Phase 1: Build"));
    assert!(outline.contains("too large"));
    assert!(outline.contains("END BLUEPRINT OUTLINE"));
}

// ── select_best_blueprint ─────────────────────────────────────

#[test]
fn select_best_returns_highest_success_rate() {
    let mut bp1 = make_sample_blueprint();
    bp1.token_count = 500;

    let mut bp2 = make_sample_blueprint();
    bp2.id = "bp-better".to_string();
    bp2.times_succeeded = 5;
    bp2.times_failed = 0;
    bp2.token_count = 400;

    let bps = vec![bp2, bp1];
    let best = select_best_blueprint(&bps, 1000, 10000);
    assert!(best.is_some());
    assert_eq!(best.unwrap().id, "bp-better");
}

#[test]
fn select_best_rejects_too_large() {
    let mut bp = make_sample_blueprint();
    bp.token_count = 30000;
    let bps = vec![bp];
    let best = select_best_blueprint(&bps, 10000, 100000);
    assert!(best.is_none());
}

#[test]
fn select_best_empty_list() {
    let best = select_best_blueprint(&[], 1000, 10000);
    assert!(best.is_none());
}

// ── format_blueprint_context ─────────────────────────────────

#[test]
fn format_context_includes_key_fields() {
    let bp = make_sample_blueprint();
    let ctx = format_blueprint_context(&bp);
    assert!(ctx.contains("BLUEPRINT: Test Deployment (v2)"));
    assert!(ctx.contains("5 previous execution(s)"));
    assert!(ctx.contains("success rate: 80%"));
    assert!(ctx.contains("Deploy app to production"));
    assert!(ctx.contains("END BLUEPRINT"));
}

// ── to_memory_entry ──────────────────────────────────────────

#[test]
fn memory_entry_roundtrip() {
    let bp = make_sample_blueprint();
    let entry = to_memory_entry(&bp, Some("session-1".to_string()));

    assert_eq!(entry.id, "blueprint:bp-test-deploy");
    assert_eq!(entry.entry_type, MemoryEntryType::Blueprint);
    assert_eq!(entry.session_id, Some("session-1".to_string()));

    let parsed = parse_blueprint(&entry.content).unwrap();
    assert_eq!(parsed.id, "bp-test-deploy");
    assert_eq!(parsed.name, "Test Deployment");
    assert_eq!(parsed.trigger_patterns.len(), 4);

    assert_eq!(entry.metadata.kind, "blueprint");
    assert_eq!(entry.metadata.version, 2);
    assert_eq!(entry.metadata.times_executed, 5);
    assert_eq!(entry.metadata.token_count, 30);
}

// ── build_authoring_prompt ────────────────────────────────────

#[test]
fn authoring_prompt_contains_metadata() {
    let history = vec![ChatMessage {
        role: Role::User,
        content: MessageContent::Text("Deploy the app".to_string()),
    }];
    let meta = make_meta(25, &["shell", "browser"], true, TaskExecutionOutcome::Success);
    let prompt = build_authoring_prompt(&history, &meta);

    assert!(prompt.contains("25 tool calls"));
    assert!(prompt.contains("120s duration"));
    assert!(prompt.contains("shell, browser"));
    assert!(prompt.contains("SUCCESS"));
    assert!(prompt.contains("REPLAYABILITY"));
}

// ── build_refinement_prompt ──────────────────────────────────

#[test]
fn refinement_prompt_contains_original() {
    let bp = make_sample_blueprint();
    let meta = make_meta(20, &["shell", "file_read"], true, TaskExecutionOutcome::Success);
    let prompt = build_refinement_prompt(&bp, &meta);

    assert!(prompt.contains("ORIGINAL BLUEPRINT (v2)"));
    assert!(prompt.contains("bp-test-deploy"));
    assert!(prompt.contains("Deploy app to production"));
    assert!(prompt.contains("Tool calls: 20"));
}

// ── extract_tools_used ───────────────────────────────────────

fn tool_use(id: &str, name: &str) -> ChatMessage {
    ChatMessage {
        role: Role::Assistant,
        content: MessageContent::Parts(vec![ContentPart::ToolUse {
            id: id.to_string(),
            name: name.to_string(),
            input: "{}".to_string(),
        }]),
    }
}

#[test]
fn extract_tools_from_history() {
    let history = vec![
        tool_use("t1", "shell"),
        tool_use("t2", "browser"),
        tool_use("t3", "shell"),
    ];
    let tools = extract_tools_used(&history);
    assert_eq!(tools, vec!["shell", "browser"]);
}

#[test]
fn extract_tools_empty_history() {
    let tools = extract_tools_used(&[]);
    assert!(tools.is_empty());
}

// ── summarize_history ────────────────────────────────────────

#[test]
fn summarize_extracts_user_and_assistant() {
    let history = vec![
        ChatMessage {
            role: Role::User,
            content: MessageContent::Text("Deploy the app".to_string()),
        },
        ChatMessage {
            role: Role::Assistant,
            content: MessageContent::Text("Starting deployment...".to_string()),
        },
        ChatMessage {
            role: Role::Tool,
            content: MessageContent::Text("exit code 0".to_string()),
        },
    ];
    let summary = summarize_history(&history);
    assert!(summary.contains("User: Deploy the app"));
    assert!(summary.contains("Assistant: Starting deployment"));
    assert!(!summary.contains("exit code"));
}

#[test]
fn parse_blueprint_rejects_bad_lists() {
    let missing = "---\nid: \"a\"\nname: \"b\"\ntask_signature: \"s\"\nsemantic_tags:\n  - \"t\"\n---\nBody";
    assert!(parse_blueprint(missing).is_err());
    let not_string = "---\nid: \"a\"\nname: \"b\"\ntrigger_patterns:\n  - [1, 2]\ntask_signature: \"s\"\nsemantic_tags:\n  - \"t\"\n---\nBody";
    assert!(parse_blueprint(not_string).is_err());
}
