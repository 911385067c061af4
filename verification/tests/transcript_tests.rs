use claude_log_viewer::models::{
    AssistantMessage, AssistantTranscriptEntry, BaseTranscriptEntry, ContentItem, MessageContent,
    SummaryTranscriptEntry, TranscriptEntry, UsageInfo, UserMessage, UserTranscriptEntry,
    UtcTimestamp,
};
use claude_log_viewer::parser::{
    collect_transcript, combine_transcripts, is_blank_line, is_jsonl_path, parse_error_report,
    sort_by_timestamp, LineOutcome,
};
use claude_log_viewer::project_finder::{claude_project_name, transcript_matches_project};
use claude_log_viewer::summary::{can_summarize, summarize};

fn base(ts: &str, uuid: &str) -> BaseTranscriptEntry {
    BaseTranscriptEntry {
        parent_uuid: None,
        is_sidechain: false,
        user_type: "external".to_string(),
        cwd: "/tmp".to_string(),
        session_id: "test_session".to_string(),
        version: "1.0.0".to_string(),
        uuid: uuid.to_string(),
        timestamp: ts.to_string(),
        is_meta: None,
    }
}

fn user(ts: &str, uuid: &str) -> TranscriptEntry {
    TranscriptEntry::User(UserTranscriptEntry {
        base: base(ts, uuid),
        message: UserMessage {
            role: "user".to_string(),
            content: MessageContent::Items(vec![ContentItem::Text { text: "Hello there!".to_string() }]),
        },
        tool_use_result: None,
    })
}

fn usage(i: i32, c: i32, o: i32) -> UsageInfo {
    UsageInfo {
        input_tokens: Some(i),
        cache_creation_input_tokens: Some(c),
        cache_read_input_tokens: Some(1000),
        output_tokens: Some(o),
        service_tier: None,
    }
}

fn assistant(ts: &str, u: Option<UsageInfo>) -> TranscriptEntry {
    TranscriptEntry::Assistant(AssistantTranscriptEntry {
        base: base(ts, "a"),
        message: AssistantMessage {
            id: "msg".to_string(),
            message_type: "message".to_string(),
            role: "assistant".to_string(),
            model: "model-a".to_string(),
            content: vec![],
            stop_reason: None,
            stop_sequence: None,
            usage: u,
        },
        request_id: None,
    })
}

fn summary(ts: Option<&str>) -> TranscriptEntry {
    TranscriptEntry::Summary(SummaryTranscriptEntry {
        summary: "sum".to_string(),
        leaf_uuid: "leaf".to_string(),
        cwd: None,
        timestamp: ts.map(|s| s.to_string()),
    })
}

fn uuids(v: &[TranscriptEntry]) -> Vec<String> {
    v.iter()
        .map(|e| match e {
            TranscriptEntry::User(u) => u.base.uuid.clone(),
            TranscriptEntry::Assistant(a) => a.base.uuid.clone(),
            TranscriptEntry::Summary(s) => s.leaf_uuid.clone(),
            _ => String::new(),
        })
        .collect()
}

#[test]
fn entry_accessors() {
    let e = user("2025-07-03T15:50:07.874907Z", "msg_001");
    assert_eq!(e.timestamp(), Some("2025-07-03T15:50:07.874907Z"));
    assert_eq!(e.session_id(), Some("test_session"));
    assert_eq!(summary(None).timestamp(), None);
    assert_eq!(summary(None).session_id(), None);
}

#[test]
fn parsed_timestamp_is_utc() {
    let e = user("2025-07-03T15:50:07.874907Z", "x");
    assert_eq!(e.parsed_timestamp(), Some(UtcTimestamp { unix_seconds: 1751557807, subsec_nanos: 874907000 }));
    let shifted = user("2025-07-03T15:50:07+02:00", "x");
    assert_eq!(shifted.parsed_timestamp(), Some(UtcTimestamp { unix_seconds: 1751550607, subsec_nanos: 0 }));
    assert_eq!(user("not a time", "x").parsed_timestamp(), None);
    assert_eq!(summary(None).parsed_timestamp(), None);
}

#[test]
fn extract_text_joins_text_items_by_newlines() {
    let c = MessageContent::Items(vec![
        ContentItem::Text { text: "a".to_string() },
        ContentItem::Thinking { thinking: "hidden".to_string(), signature: None },
        ContentItem::Text { text: "b".to_string() },
    ]);
    assert_eq!(c.extract_text(), "a\nb");
    assert_eq!(MessageContent::Text("plain".to_string()).extract_text(), "plain");
}

#[test]
fn usage_totals() {
    let u = usage(10, 20, 30);
    assert_eq!(u.total_tokens(), 60);
    assert_eq!(u.effective_input_tokens(), 1030);
    let none = UsageInfo {
        input_tokens: None,
        cache_creation_input_tokens: None,
        cache_read_input_tokens: None,
        output_tokens: Some(5),
        service_tier: None,
    };
    assert_eq!(none.total_tokens(), 5);
    assert_eq!(none.effective_input_tokens(), 0);
    assert!(!usage(i32::MAX, 1, 0).total_fits_exec());
}

#[test]
fn sorting_puts_timestamps_in_order_and_missing_last() {
    let v = vec![
        summary(None),
        user("2025-07-03T15:50:09Z", "c"),
        user("2025-07-03T15:50:07Z", "a"),
        user("2025-07-03T15:50:08Z", "b"),
        user("2025-07-03T15:50:08Z", "b2"),
    ];
    let sorted = sort_by_timestamp(v);
    assert_eq!(uuids(&sorted), vec!["a", "b", "b2", "c", "leaf"]);
}

#[test]
fn collect_transcript_sorts_and_reports() {
    let outcomes = vec![
        LineOutcome::Parsed(user("2025-07-03T15:50:09Z", "late")),
        LineOutcome::Failed { line_number: 2, message: "boom".to_string() },
        LineOutcome::Parsed(user("2025-07-03T15:50:07Z", "early")),
    ];
    let t = collect_transcript(outcomes);
    assert_eq!(uuids(&t.entries), vec!["early", "late"]);
    assert_eq!(t.errors, vec!["Line 2: Parse error: boom".to_string()]);
}

#[test]
fn combine_sorts_across_files() {
    let all = combine_transcripts(vec![
        vec![user("2025-07-03T15:50:09Z", "x"), user("2025-07-03T15:50:07Z", "y")],
        vec![user("2025-07-03T15:50:08Z", "z")],
    ]);
    assert_eq!(uuids(&all), vec!["y", "z", "x"]);
}

#[test]
fn error_report_lists_ten_and_counts_the_rest() {
    let errors: Vec<String> = (1..=12).map(|i| format!("Line {}: Parse error: e", i)).collect();
    let r = parse_error_report(&errors, "/tmp/t.jsonl");
    assert_eq!(r.len(), 12);
    assert_eq!(r[0], "Encountered 12 parse errors in /tmp/t.jsonl:");
    assert_eq!(r[1], "  Line 1: Parse error: e");
    assert_eq!(r[10], "  Line 10: Parse error: e");
    assert_eq!(r[11], "  ... and 2 more errors");
    assert!(parse_error_report(&vec![], "/x").is_empty());
    let few = vec!["Line 4: Parse error: bad".to_string()];
    assert_eq!(parse_error_report(&few, "f"), vec!["Encountered 1 parse errors in f:".to_string(), "  Line 4: Parse error: bad".to_string()]);
}

#[test]
fn blank_lines() {
    assert!(is_blank_line(""));
    assert!(is_blank_line("  \t "));
    assert!(!is_blank_line(" {} "));
}

#[test]
fn jsonl_paths() {
    assert!(is_jsonl_path("/a/b/session.jsonl"));
    assert!(!is_jsonl_path("/a/b/session.json"));
    assert!(!is_jsonl_path("/a/b/.jsonl"));
    assert!(!is_jsonl_path("/a/b/noext"));
}

#[test]
fn summary_counts_and_average() {
    let v = vec![
        user("t1", "u"),
        assistant("t2", Some(usage(10, 20, 30))),
        assistant("t3", Some(usage(1, 0, 0))),
        assistant("t4", None),
        summary(None),
    ];
    assert!(can_summarize(&v));
    let s = summarize(&v);
    assert_eq!(s.user_count, 1);
    assert_eq!(s.assistant_count, 3);
    assert_eq!(s.summary_count, 1);
    assert_eq!(s.system_count, 0);
    assert_eq!(s.queue_count, 0);
    assert_eq!(s.total_tokens, 61);
    assert_eq!(s.average_tokens, Some(20));
    let empty = summarize(&vec![]);
    assert_eq!(empty.average_tokens, None);
}

#[test]
fn average_rounds_toward_zero() {
    let v = vec![assistant("t", Some(usage(-7, 0, 0))), assistant("t", None)];
    assert_eq!(summarize(&v).average_tokens, Some(-3));
}

#[test]
fn overflowing_tokens_cannot_be_summarized() {
    let v = vec![assistant("t", Some(usage(i32::MAX, 0, 0))), assistant("t", Some(usage(1, 0, 0)))];
    assert!(!can_summarize(&v));
}

#[test]
fn claude_name_replaces_slashes() {
    assert_eq!(claude_project_name("/Users/foo/git/project"), "-Users-foo-git-project");
}

#[test]
fn transcript_project_by_cwd() {
    let content = "{\"type\":\"user\",\"cwd\":\"/tmp/proj\"}\n{\"cwd\":\"/elsewhere\"}";
    assert!(transcript_matches_project(content, "/tmp/proj"));
    assert!(transcript_matches_project(content, "/tmp//proj/"));
    assert!(!transcript_matches_project(content, "/elsewhere"));
    assert!(!transcript_matches_project("not json", "/tmp/proj"));
    assert!(!transcript_matches_project("{\"cwd\": 3}", "3"));
    assert!(!transcript_matches_project("", "/tmp/proj"));
}
