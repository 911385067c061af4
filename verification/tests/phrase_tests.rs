use claude_log_viewer::analytics::{extract_context, PhraseTracker};
use claude_log_viewer::models::{
    AssistantMessage, AssistantTranscriptEntry, BaseTranscriptEntry, ContentItem, MessageContent,
    TranscriptEntry, UserMessage, UserTranscriptEntry,
};

fn base(ts: &str) -> BaseTranscriptEntry {
    BaseTranscriptEntry {
        parent_uuid: None,
        is_sidechain: false,
        user_type: "external".to_string(),
        cwd: "/tmp".to_string(),
        session_id: "s1".to_string(),
        version: "1.0.0".to_string(),
        uuid: "u1".to_string(),
        timestamp: ts.to_string(),
        is_meta: None,
    }
}

fn user(ts: &str, text: &str) -> TranscriptEntry {
    TranscriptEntry::User(UserTranscriptEntry {
        base: base(ts),
        message: UserMessage { role: "user".to_string(), content: MessageContent::Text(text.to_string()) },
        tool_use_result: None,
    })
}

fn phrases(v: &[&str]) -> Vec<String> {
    v.iter().map(|s| s.to_string()).collect()
}

#[test]
fn literal_matching_ignores_case() {
    let mut t = PhraseTracker::new();
    let w = t.analyze_entry(&user("2025-07-03T15:50:07Z", "How do I fix this? how do I test it"), &phrases(&["how do i"]));
    assert!(w.is_empty());
    assert_eq!(t.get_summary(), vec![("how do i".to_string(), 2)]);
    let ctx = t.get_contexts("how do i");
    assert_eq!(ctx.len(), 2);
    assert_eq!(ctx[0].phrase, "how do i");
    assert_eq!(ctx[0].context, "How do I fix this? how do I test it");
    assert_eq!(ctx[0].timestamp, "2025-07-03T15:50:07Z");
}

#[test]
fn items_are_joined_by_spaces() {
    let mut t = PhraseTracker::new();
    let entry = TranscriptEntry::User(UserTranscriptEntry {
        base: base("2025-07-03T15:50:07Z"),
        message: UserMessage {
            role: "user".to_string(),
            content: MessageContent::Items(vec![
                ContentItem::Text { text: "try".to_string() },
                ContentItem::Text { text: "again".to_string() },
            ]),
        },
        tool_use_result: None,
    });
    t.analyze_entry(&entry, &phrases(&["try again"]));
    assert_eq!(t.get_summary(), vec![("try again".to_string(), 1)]);
}

#[test]
fn summary_counts_match_contexts_most_first() {
    let mut t = PhraseTracker::new();
    t.analyze_entry(&user("t1", "not working, error here"), &phrases(&["error", "not working"]));
    t.analyze_entry(&user("t2", "error again. another error"), &phrases(&["error", "not working"]));
    let summary = t.get_summary();
    assert_eq!(summary, vec![("error".to_string(), 3), ("not working".to_string(), 1)]);
    for (p, n) in &summary {
        assert_eq!(t.get_contexts(p).len(), *n);
    }
    assert!(t.get_contexts("absent").is_empty());
}

#[test]
fn assistant_messages_are_not_searched() {
    let mut t = PhraseTracker::new();
    let entry = TranscriptEntry::Assistant(AssistantTranscriptEntry {
        base: base("t"),
        message: AssistantMessage {
            id: "m".to_string(),
            message_type: "message".to_string(),
            role: "assistant".to_string(),
            model: "model-a".to_string(),
            content: vec![ContentItem::Text { text: "error error".to_string() }],
            stop_reason: None,
            stop_sequence: None,
            usage: None,
        },
        request_id: None,
    });
    t.analyze_entry(&entry, &phrases(&["error"]));
    assert!(t.get_summary().is_empty());
}

#[test]
fn regex_records_matched_text_under_pattern() {
    let mut t = PhraseTracker::with_regex();
    assert!(t.use_regex);
    let w = t.analyze_entry(&user("t", "I will never ever do it. Never again!"), &phrases(&["never (ever|again)"]));
    assert!(w.is_empty());
    let ctx = t.get_contexts("never (ever|again)");
    assert_eq!(ctx.len(), 2);
    assert_eq!(ctx[0].phrase, "never ever");
    assert_eq!(ctx[1].phrase, "Never again");
}

#[test]
fn invalid_regex_gives_a_warning() {
    let mut t = PhraseTracker::with_regex();
    let w = t.analyze_entry(&user("t", "anything"), &phrases(&["(unclosed"]));
    assert_eq!(w.len(), 1);
    assert!(w[0].starts_with("Invalid regex pattern '(unclosed': "));
    assert!(t.get_summary().is_empty());
}

#[test]
fn empty_phrase_is_refused() {
    let mut t = PhraseTracker::new();
    assert_eq!(t.try_analyze_entry(&user("t", "text"), &phrases(&[""])), None);
    assert!(t.get_summary().is_empty());
    assert_eq!(t.try_analyze_entry(&user("t", "text"), &phrases(&["text"])), Some(vec![]));
}

#[test]
fn context_stops_at_sentence_ends() {
    let text = format!("{}. needle tail.{}", "x".repeat(120), "y".repeat(200));
    let pos = text.find("needle").unwrap();
    assert_eq!(extract_context(&text, pos, 6), "...needle tail....");
}

#[test]
fn short_text_context_is_whole_text_trimmed() {
    assert_eq!(extract_context("  hello world  ", 2, 5), "hello world");
}

#[test]
fn long_text_without_sentence_end_is_cut_at_hundred_bytes() {
    let text = format!("{}needle{}", "a".repeat(150), "b".repeat(150));
    let ctx = extract_context(&text, 150, 6);
    assert_eq!(ctx, format!("...{}needle{}...", "a".repeat(100), "b".repeat(100)));
}
