use skyclaw_agent::formatting::{
    format_blueprint_catalog, format_blueprint_context, format_blueprint_outline,
};
use skyclaw_agent::history::{extract_tools_used, summarize_history};
use skyclaw_agent::matching::{
    available_categories, blueprints_in_category, ranked_in_category, restore_metadata,
    select_best_blueprint,
};
use skyclaw_agent::ranking::rank_by_success_rate;
use skyclaw_agent::model::{
    Blueprint, BlueprintFrontmatter, ChatMessage, ContentPart, MessageContent, Role,
    StoredEntry, StoredMetadata, TaskExecutionMeta, TaskExecutionOutcome, UtcInstant,
};
use skyclaw_agent::parsing::{
    blueprint_from_parts, estimate_tokens, new_parsed_blueprint, split_frontmatter,
};
use skyclaw_agent::prompts::{authoring_prompt_on, build_authoring_prompt, build_refinement_prompt};
use skyclaw_agent::storage::to_memory_entry;

fn sample() -> Blueprint {
    Blueprint {
        id: "bp-test-deploy".to_string(),
        name: "Test Deployment".to_string(),
        version: 2,
        created: UtcInstant { secs: 0, nanos: 0 },
        updated: UtcInstant { secs: 1_700_000_000, nanos: 123_456_789 },
        trigger_patterns: vec!["deploy".to_string(), "production".to_string()],
        task_signature: "shell+file".to_string(),
        semantic_tags: vec!["deployment".to_string(), "devops".to_string()],
        times_executed: 5,
        times_succeeded: 4,
        times_failed: 1,
        avg_tool_calls: 25,
        avg_duration_secs: 300,
        owner_user_id: "user-123".to_string(),
        body: "## Objective\nDeploy app to production.\n\n## Phases\n### Phase 1: Build\n**Steps**:\n1. Run docker build".to_string(),
        token_count: 30,
    }
}

fn with_counts(succeeded: u32, executed: u32) -> Blueprint {
    let mut bp = sample();
    bp.times_succeeded = succeeded;
    bp.times_executed = executed;
    bp
}

fn text_msg(role: Role, text: &str) -> ChatMessage {
    ChatMessage {
        role,
        content: MessageContent::Text(text.to_string()),
    }
}

fn meta(tools: &[&str], outcome: TaskExecutionOutcome) -> TaskExecutionMeta {
    TaskExecutionMeta {
        tool_calls: 7,
        tools_used: tools.iter().map(|s| s.to_string()).collect(),
        duration_secs: 42,
        outcome,
        is_compound: false,
    }
}

fn stored(content: &str, tags: Option<Vec<Option<&str>>>) -> StoredEntry {
    StoredEntry {
        id: "e".to_string(),
        content: content.to_string(),
        metadata: StoredMetadata {
            semantic_tags: tags.map(|t| t.into_iter().map(|x| x.map(|s| s.to_string())).collect()),
            version: None,
            times_executed: None,
            times_succeeded: None,
            times_failed: None,
            token_count: None,
        },
    }
}

// ── success percent ──────────────────────────────────────────

#[test]
fn success_percent_rounds_to_nearest() {
    assert_eq!(with_counts(4, 5).success_percent(), 80);
    assert_eq!(with_counts(1, 3).success_percent(), 33);
    assert_eq!(with_counts(2, 3).success_percent(), 67);
    assert_eq!(with_counts(7, 5).success_percent(), 140);
}

#[test]
fn success_percent_ties_to_even() {
    assert_eq!(with_counts(1, 8).success_percent(), 12);
    assert_eq!(with_counts(3, 8).success_percent(), 38);
}

#[test]
fn success_percent_follows_float_rounding() {
    // 23 / 40 is 0.575, which as a double times 100 is just below 57.5.
    assert_eq!(with_counts(23, 40).success_percent(), 57);
    assert_eq!(with_counts(109, 200).success_percent(), 55);
}

#[test]
fn success_percent_never_executed() {
    assert_eq!(with_counts(3, 0).success_percent(), 0);
}

// ── summary ──────────────────────────────────────────────────

#[test]
fn summary_cuts_long_ascii_message() {
    let long = "x".repeat(400);
    let s = summarize_history(&vec![text_msg(Role::User, &long)]);
    assert_eq!(s, format!("User: {}...", "x".repeat(300)));
}

#[test]
fn summary_keeps_exactly_300_bytes() {
    let exact = "y".repeat(300);
    let s = summarize_history(&vec![text_msg(Role::Assistant, &exact)]);
    assert_eq!(s, format!("Assistant: {}", exact));
}

#[test]
fn summary_cuts_at_char_boundary() {
    let two = "é".repeat(200);
    let s = summarize_history(&vec![text_msg(Role::User, &two)]);
    assert_eq!(s, format!("User: {}...", "é".repeat(150)));
    let shifted = format!("a{}", "€".repeat(150));
    let s = summarize_history(&vec![text_msg(Role::User, &shifted)]);
    assert_eq!(s, format!("User: a{}...", "€".repeat(99)));
}

#[test]
fn summary_keeps_last_twenty() {
    let history: Vec<ChatMessage> = (0..25)
        .map(|i| text_msg(Role::User, &format!("m{i}")))
        .collect();
    let s = summarize_history(&history);
    let lines: Vec<&str> = s.lines().collect();
    assert_eq!(lines.len(), 20);
    assert_eq!(lines[0], "User: m5");
    assert_eq!(lines[19], "User: m24");
}

#[test]
fn summary_joins_text_parts_and_skips_empty() {
    let history = vec![
        ChatMessage {
            role: Role::Assistant,
            content: MessageContent::Parts(vec![
                ContentPart::Text { text: "first".to_string() },
                ContentPart::ToolUse {
                    id: "t".to_string(),
                    name: "shell".to_string(),
                    input: "{}".to_string(),
                },
                ContentPart::Text { text: "second".to_string() },
            ]),
        },
        ChatMessage {
            role: Role::Assistant,
            content: MessageContent::Parts(vec![ContentPart::ToolResult {
                tool_use_id: "t".to_string(),
                content: "ok".to_string(),
                is_error: false,
            }]),
        },
        text_msg(Role::User, "   \n\t "),
        text_msg(Role::System, "system text"),
        text_msg(Role::User, "  padded  "),
    ];
    let s = summarize_history(&history);
    assert_eq!(s, "Assistant: first second\nUser: padded");
}

// ── tools ────────────────────────────────────────────────────

#[test]
fn tools_in_order_of_first_call() {
    let history = vec![
        ChatMessage {
            role: Role::Assistant,
            content: MessageContent::Parts(vec![
                ContentPart::ToolUse { id: "1".into(), name: "web_fetch".into(), input: "{}".into() },
                ContentPart::Text { text: "and".into() },
                ContentPart::ToolUse { id: "2".into(), name: "shell".into(), input: "{}".into() },
            ]),
        },
        text_msg(Role::User, "shell"),
        ChatMessage {
            role: Role::Assistant,
            content: MessageContent::Parts(vec![
                ContentPart::ToolUse { id: "3".into(), name: "shell".into(), input: "{}".into() },
                ContentPart::ToolUse { id: "4".into(), name: "browser".into(), input: "{}".into() },
                ContentPart::ToolUse { id: "5".into(), name: "web_fetch".into(), input: "{}".into() },
            ]),
        },
    ];
    assert_eq!(extract_tools_used(&history), vec!["web_fetch", "shell", "browser"]);
}

// ── catalog and outline ──────────────────────────────────────

#[test]
fn catalog_exact_text() {
    let bp = sample();
    let catalog = format_blueprint_catalog(&[bp], Some("bp-test-deploy"));
    assert_eq!(
        catalog,
        "=== AVAILABLE BLUEPRINTS ===\nThese are proven procedures from past executions. Follow the loaded blueprint if one matches your task.\n  [bp-test-deploy] (30 tok, v2, 80% success) Deploy app to production. *LOADED*\n=== END BLUEPRINTS ==="
    );
}

#[test]
fn catalog_placeholder_description() {
    let mut bp = sample();
    bp.body = "# Title\r\n   \r\n## Only headers\n".to_string();
    let catalog = format_blueprint_catalog(&[bp], Some("other"));
    assert!(catalog.contains("% success) (no description)\n"));
    assert!(!catalog.contains("*LOADED*"));
}

#[test]
fn catalog_description_trimmed_from_crlf_lines() {
    let mut bp = sample();
    bp.body = "## Objective\r\n   Ship it.  \r\nmore".to_string();
    let catalog = format_blueprint_catalog(&[bp], None);
    assert!(catalog.contains("% success) Ship it.\n"));
}

#[test]
fn outline_exact_text() {
    let mut bp = sample();
    bp.body = "## Objective\nDo it.\n  **Goal**: win  \n### Phase 1\ntext\n#tag".to_string();
    bp.token_count = 9000;
    assert_eq!(
        format_blueprint_outline(&bp),
        "=== BLUEPRINT OUTLINE: Test Deployment (v2) ===\nFull body too large (9000 tokens). Showing outline only.\n## Objective\nDo it.\n**Goal**: win\n### Phase 1\n#tag\n=== END BLUEPRINT OUTLINE ==="
    );
}

#[test]
fn context_exact_text() {
    let mut bp = sample();
    bp.body = "BODY".to_string();
    let expected = "=== BLUEPRINT: Test Deployment (v2) ===\nA Blueprint has been loaded for this".to_string()
        + " task. This is a proven procedure from 5 previous execution(s) (success rate: 80%).\nUse it as your operational guide. Follow the phases in order.\nDeviate only when conditions differ from what the blueprint describes.\nAfter completing the task, note any refinements needed.\n\nBODY\n\n=== END BLUEPRINT ===";
    assert_eq!(format_blueprint_context(&bp), expected);
}

// ── selection ────────────────────────────────────────────────

#[test]
fn select_best_quarter_boundary() {
    let mut bp = sample();
    bp.token_count = 2500;
    let bps = vec![bp];
    assert!(select_best_blueprint(&bps, 0, 10000).is_some());
    let mut bp = sample();
    bp.token_count = 2501;
    let bps = vec![bp];
    assert!(select_best_blueprint(&bps, 0, 10000).is_none());
}

// ── parsing ──────────────────────────────────────────────────

#[test]
fn split_reports_each_error() {
    assert_eq!(
        split_frontmatter("no frontmatter here"),
        Err("Blueprint content does not start with YAML frontmatter".to_string())
    );
    assert_eq!(
        split_frontmatter("---\nid: x\n--"),
        Err("No closing YAML frontmatter delimiter".to_string())
    );
}

#[test]
fn split_skips_whitespace_and_line_breaks() {
    let raw = "  \n---\r\n\nid: x\nname: y\n---\n\n  body text  \n\n";
    assert_eq!(
        split_frontmatter(raw),
        Ok(("id: x\nname: y".to_string(), "body text".to_string()))
    );
}

#[test]
fn split_empty_frontmatter_and_body() {
    assert_eq!(
        split_frontmatter("---\n---"),
        Err("No closing YAML frontmatter delimiter".to_string())
    );
    assert_eq!(split_frontmatter("---\nx\n---"), Ok(("x".to_string(), String::new())));
}

#[test]
fn estimate_tokens_counts_utf8_bytes() {
    assert_eq!(estimate_tokens(&"abcd".repeat(10)), 10);
    assert_eq!(estimate_tokens("abc"), 0);
    assert_eq!(estimate_tokens("ééé"), 1);
    assert_eq!(estimate_tokens("€€€€"), 3);
}

fn front() -> BlueprintFrontmatter {
    BlueprintFrontmatter {
        id: "bp-1".to_string(),
        name: "One".to_string(),
        trigger_patterns: vec!["a".to_string()],
        task_signature: "shell".to_string(),
        semantic_tags: vec!["ops".to_string()],
    }
}

#[test]
fn parsed_blueprint_fields() {
    let at = UtcInstant { secs: 77, nanos: 5 };
    let bp = blueprint_from_parts(front(), "12345678".to_string(), at);
    assert_eq!(bp.id, "bp-1");
    assert_eq!(bp.version, 1);
    assert_eq!(bp.created, at);
    assert_eq!(bp.updated, at);
    assert_eq!(bp.times_executed, 1);
    assert_eq!(bp.times_succeeded, 1);
    assert_eq!(bp.times_failed, 0);
    assert_eq!(bp.owner_user_id, "");
    assert_eq!(bp.token_count, 2);
}

#[test]
fn parsed_blueprint_stamped_now() {
    let key = |t: chrono::DateTime<chrono::Utc>| (t.timestamp(), t.timestamp_subsec_nanos());
    let before = key(chrono::Utc::now());
    let bp = new_parsed_blueprint(front(), "body".to_string());
    let after = key(chrono::Utc::now());
    let created = (bp.created.secs, bp.created.nanos);
    assert!(before <= created && created <= after);
    assert_eq!(bp.created, bp.updated);
}

// ── storage ──────────────────────────────────────────────────

#[test]
fn stored_content_splits_back() {
    let bp = sample();
    let entry = to_memory_entry(&bp, None);
    let (yaml, body) = split_frontmatter(&entry.content).unwrap();
    assert_eq!(
        yaml,
        "id: \"bp-test-deploy\"\nname: \"Test Deployment\"\ntrigger_patterns:\n  - \"deploy\"\n  - \"production\"\ntask_signature: \"shell+file\"\nsemantic_tags:\n  - \"deployment\"\n  - \"devops\""
    );
    assert_eq!(body, bp.body);
    assert_eq!(entry.timestamp, UtcInstant { secs: 1_700_000_000, nanos: 123_456_789 });
    assert_eq!(entry.session_id, None);
}

#[test]
fn stored_content_with_empty_lists() {
    let mut bp = sample();
    bp.trigger_patterns = vec![];
    bp.semantic_tags = vec![];
    bp.body = "  \n".to_string();
    let entry = to_memory_entry(&bp, None);
    let (yaml, body) = split_frontmatter(&entry.content).unwrap();
    assert_eq!(
        yaml,
        "id: \"bp-test-deploy\"\nname: \"Test Deployment\"\ntrigger_patterns:\n\ntask_signature: \"shell+file\"\nsemantic_tags:\n"
    );
    assert_eq!(body, "");
}

// ── matching ─────────────────────────────────────────────────

#[test]
fn categories_distinct_in_order() {
    let entries = vec![
        stored("", Some(vec![Some("ops"), None, Some("web")])),
        stored("", None),
        stored("", Some(vec![Some("web"), Some("data"), Some("ops")])),
    ];
    assert_eq!(available_categories(&entries), vec!["ops", "web", "data"]);
}

#[test]
fn category_match_ignores_case_and_skips_unparsed() {
    let entries = vec![
        stored("a", Some(vec![Some("DevOps")])),
        stored("b", Some(vec![Some("web")])),
        stored("c", Some(vec![Some("devops")])),
        stored("d", Some(vec![None, Some("DEVOPS")])),
    ];
    let mut first = sample();
    first.id = "first".to_string();
    let mut second = sample();
    second.id = "second".to_string();
    let mut fourth = sample();
    fourth.id = "fourth".to_string();
    let parsed = vec![Ok(first), Ok(second), Err("bad".to_string()), Ok(fourth)];
    let found = blueprints_in_category(&entries, parsed, "devOPS");
    let ids: Vec<&str> = found.iter().map(|b| b.id.as_str()).collect();
    assert_eq!(ids, vec!["first", "fourth"]);
}

#[test]
fn restore_narrows_counters() {
    let meta = StoredMetadata {
        semantic_tags: None,
        version: Some(7),
        times_executed: Some((1u64 << 32) + 3),
        times_succeeded: None,
        times_failed: Some(2),
        token_count: Some(1234),
    };
    let bp = restore_metadata(sample(), &meta);
    assert_eq!(bp.version, 7);
    assert_eq!(bp.times_executed, 3);
    assert_eq!(bp.times_succeeded, 4);
    assert_eq!(bp.times_failed, 2);
    assert_eq!(bp.token_count, 1234);
}

// ── prompts ──────────────────────────────────────────────────

#[test]
fn refinement_prompt_lists_patterns_as_debug() {
    let mut bp = sample();
    bp.trigger_patterns.push("say \"hi\"".to_string());
    let prompt = build_refinement_prompt(&bp, &meta(&["shell", "web"], TaskExecutionOutcome::Partial));
    assert!(prompt.contains("trigger_patterns: [\"deploy\", \"production\", \"say \\\"hi\\\"\"]\n"));
    assert!(prompt.contains("semantic_tags: [\"deployment\", \"devops\"]\n"));
    assert!(prompt.contains("- Tools used: shell, web\n- Outcome: PARTIAL\n"));
    assert!(prompt.contains("- Duration: 42s\n"));
}

#[test]
fn refinement_prompt_empty_lists() {
    let mut bp = sample();
    bp.trigger_patterns = vec![];
    let prompt = build_refinement_prompt(&bp, &meta(&[], TaskExecutionOutcome::Failure));
    assert!(prompt.contains("trigger_patterns: []\n"));
    assert!(prompt.contains("- Outcome: FAILURE"));
}

#[test]
fn authoring_prompt_dated_and_signed() {
    let history = vec![text_msg(Role::User, "Deploy the app")];
    let m = meta(&["shell", "browser"], TaskExecutionOutcome::Success);
    let prompt = authoring_prompt_on(&history, &m, "2024-01-02");
    assert!(prompt.contains("### Run 1 — 2024-01-02\n"));
    assert!(prompt.contains("task_signature: \"shell+browser\""));
    assert!(prompt.contains("Conversation summary:\nUser: Deploy the app\n"));
    assert!(prompt.contains("Task stats: 7 tool calls, 42s duration, tools: shell, browser, outcome: SUCCESS"));
}

#[test]
fn authoring_prompt_dated_today() {
    let today = chrono::Utc::now().format("%Y-%m-%d").to_string();
    let prompt = build_authoring_prompt(&vec![], &meta(&["shell"], TaskExecutionOutcome::Success));
    assert!(prompt.contains(&format!("### Run 1 — {today}")));
}

#[test]
fn success_percent_matches_float_formatting() {
    let mut pairs: Vec<(u32, u32)> = Vec::new();
    for e in 0..=260u32 {
        for s in 0..=(e + 3) {
            pairs.push((s, e));
        }
    }
    for &(s, e) in &[
        (23u32, 40u32),
        (109, 200),
        (u32::MAX, 1),
        (u32::MAX, u32::MAX),
        (1, u32::MAX),
        (u32::MAX - 1, u32::MAX),
        (3_000_000_000, 7),
        (123_456_789, 987_654_321),
    ] {
        pairs.push((s, e));
    }
    for (s, e) in pairs {
        let rate = if e == 0 { 0.0 } else { s as f64 / e as f64 };
        let shown: u64 = format!("{:.0}", rate * 100.0).parse().unwrap();
        assert_eq!(with_counts(s, e).success_percent(), shown, "{s}/{e}");
    }
}

fn float_rate(bp: &Blueprint) -> f64 {
    if bp.times_executed == 0 {
        0.0
    } else {
        bp.times_succeeded as f64 / bp.times_executed as f64
    }
}

#[test]
fn ranking_matches_stable_float_sort() {
    let counts: Vec<(u32, u32)> = vec![
        (1, 2),
        (0, 0),
        (4, 5),
        (2, 4),
        (5, 5),
        (0, 7),
        (3, 6),
        (7, 5),
        (u32::MAX - 1, u32::MAX),
        (u32::MAX - 2, u32::MAX - 1),
        (1, 3),
        (2, 6),
        (4, 5),
        (99, 100),
    ];
    let bps: Vec<Blueprint> = counts
        .iter()
        .enumerate()
        .map(|(i, &(s, e))| {
            let mut bp = with_counts(s, e);
            bp.id = format!("bp-{i}");
            bp
        })
        .collect();
    let mut expected = bps.clone();
    expected.sort_by(|a, b| {
        float_rate(b)
            .partial_cmp(&float_rate(a))
            .unwrap_or(std::cmp::Ordering::Equal)
    });
    let ranked = rank_by_success_rate(bps);
    let got: Vec<String> = ranked.iter().map(|b| b.id.clone()).collect();
    let want: Vec<String> = expected.iter().map(|b| b.id.clone()).collect();
    assert_eq!(got, want);
}

#[test]
fn ranked_category_best_first() {
    let entries = vec![
        stored("a", Some(vec![Some("ops")])),
        stored("b", Some(vec![Some("ops")])),
        stored("c", Some(vec![Some("ops")])),
    ];
    let parsed: Vec<Result<Blueprint, String>> = vec![(1, 4), (3, 4), (1, 2)]
        .into_iter()
        .enumerate()
        .map(|(i, (s, e))| {
            let mut bp = with_counts(s, e);
            bp.id = format!("bp-{i}");
            Ok(bp)
        })
        .collect();
    let found = ranked_in_category(&entries, parsed, "OPS");
    let ids: Vec<&str> = found.iter().map(|b| b.id.as_str()).collect();
    assert_eq!(ids, vec!["bp-1", "bp-2", "bp-0"]);
}

#[test]
fn outline_keeps_objective_sentence() {
    let bp = sample();
    let outline = format_blueprint_outline(&bp);
    assert!(outline.contains("## Objective\nDeploy app to production.\n## Phases\n"));
    assert!(!outline.contains("Run docker build"));
}

#[test]
fn outline_objective_after_blank_lines_only_once() {
    let mut bp = sample();
    bp.body = "## Objective\n\n   \n  Ship it.  \nSecond line.\n## Objective\n## Next\nlater".to_string();
    let outline = format_blueprint_outline(&bp);
    let kept: Vec<&str> = outline.lines().skip(2).collect();
    assert_eq!(
        kept,
        vec!["## Objective", "Ship it.", "## Objective", "## Next", "=== END BLUEPRINT OUTLINE ==="]
    );
}

#[test]
fn select_best_picks_highest_rate_anywhere() {
    let mut worse = sample();
    worse.token_count = 500;
    let mut better = sample();
    better.id = "bp-better".to_string();
    better.times_succeeded = 5;
    better.times_failed = 0;
    better.token_count = 400;
    let bps = vec![worse, better];
    let best = select_best_blueprint(&bps, 1000, 10000);
    assert_eq!(best.unwrap().id, "bp-better");
}

#[test]
fn select_best_first_on_tie_and_rejects_large_best() {
    let mut a = with_counts(1, 2);
    a.id = "a".to_string();
    let mut b = with_counts(2, 4);
    b.id = "b".to_string();
    let bps = vec![a, b];
    assert_eq!(select_best_blueprint(&bps, 0, 10000).unwrap().id, "a");

    let mut small = with_counts(1, 2);
    small.token_count = 10;
    let mut large = with_counts(9, 9);
    large.token_count = 5000;
    let bps = vec![small, large];
    assert!(select_best_blueprint(&bps, 0, 10000).is_none());
}
