use claude_log_viewer::detail::{can_format_detail, format_entry_detail, DetailLine, SpanStyle};
use claude_log_viewer::models::{
    AssistantMessage, AssistantTranscriptEntry, BaseTranscriptEntry, ContentItem, JsonValue,
    MessageContent, QueueOperation, QueueOperationTranscriptEntry, TranscriptEntry, UsageInfo,
    UserMessage, UserTranscriptEntry,
};
use claude_log_viewer::tui::{icon_of, list_line, time_short_of, App, EntryKind, Key};

fn base(ts: &str) -> BaseTranscriptEntry {
    BaseTranscriptEntry {
        parent_uuid: None,
        is_sidechain: false,
        user_type: "external".to_string(),
        cwd: "/tmp".to_string(),
        session_id: "sess".to_string(),
        version: "1.0.0".to_string(),
        uuid: "u".to_string(),
        timestamp: ts.to_string(),
        is_meta: None,
    }
}

fn user(text: &str) -> TranscriptEntry {
    TranscriptEntry::User(UserTranscriptEntry {
        base: base("2025-07-03T15:50:07.874907Z"),
        message: UserMessage { role: "user".to_string(), content: MessageContent::Text(text.to_string()) },
        tool_use_result: None,
    })
}

fn assistant(items: Vec<ContentItem>, usage: Option<UsageInfo>) -> TranscriptEntry {
    TranscriptEntry::Assistant(AssistantTranscriptEntry {
        base: base("2025-07-03T09:05:01Z"),
        message: AssistantMessage {
            id: "m".to_string(),
            message_type: "message".to_string(),
            role: "assistant".to_string(),
            model: "model-x".to_string(),
            content: items,
            stop_reason: None,
            stop_sequence: None,
            usage,
        },
        request_id: None,
    })
}

fn texts(line: &DetailLine) -> String {
    match line {
        DetailLine::Spans(spans) => spans.iter().map(|s| s.text.as_str()).collect(),
        DetailLine::ToolUseResult => "<tool use result>".to_string(),
        DetailLine::ToolResultContent(i) => format!("<content {}>", i),
    }
}

fn three() -> Vec<TranscriptEntry> {
    vec![user("a"), user("b"), user("c")]
}

#[test]
fn new_app_selects_first() {
    let app = App::new(three());
    assert_eq!(app.list_state(), (Some(0), 0));
    assert!(!app.should_quit());
    let empty = App::new(vec![]);
    assert_eq!(empty.list_state(), (None, 0));
    assert!(empty.selected_entry().is_none());
}

#[test]
fn next_and_previous_wrap() {
    let mut app = App::new(three());
    app.previous();
    assert_eq!(app.list_state().0, Some(2));
    app.next();
    assert_eq!(app.list_state().0, Some(0));
    app.next();
    app.next();
    assert_eq!(app.list_state().0, Some(2));
    app.next();
    assert_eq!(app.list_state().0, Some(0));
}

#[test]
fn previous_undoes_next() {
    for start in 0..3 {
        let mut app = App::new(three());
        app.sync_list_state(Some(start), 0);
        app.next();
        app.previous();
        assert_eq!(app.list_state().0, Some(start));
        app.previous();
        app.next();
        assert_eq!(app.list_state().0, Some(start));
    }
}

#[test]
fn moves_in_empty_list_do_nothing() {
    let mut app = App::new(vec![]);
    app.next();
    app.previous();
    assert_eq!(app.list_state().0, None);
}

#[test]
fn keys_drive_the_viewer() {
    let mut app = App::new(three());
    assert!(!app.handle_key(Key::Down));
    assert!(!app.handle_key(Key::Char('j')));
    assert_eq!(app.list_state().0, Some(2));
    assert!(!app.handle_key(Key::Up));
    assert!(!app.handle_key(Key::Char('k')));
    assert_eq!(app.list_state().0, Some(0));
    assert!(!app.handle_key(Key::Char('x')));
    assert!(!app.handle_key(Key::Other));
    assert_eq!(app.list_state().0, Some(0));
    assert!(app.handle_key(Key::Char('q')));
    assert!(app.should_quit());
    let mut other = App::new(three());
    assert!(other.handle_key(Key::Esc));
}

#[test]
fn selected_entry_follows_selection() {
    let mut app = App::new(three());
    app.next();
    match app.selected_entry() {
        Some(TranscriptEntry::User(u)) => match &u.message.content {
            MessageContent::Text(t) => assert_eq!(t, "b"),
            _ => panic!("unexpected content"),
        },
        _ => panic!("no entry selected"),
    }
    app.sync_list_state(Some(7), 2);
    assert!(app.selected_entry().is_none());
    assert_eq!(app.list_state(), (Some(7), 2));
    assert_eq!(app.entries().len(), 3);
}

#[test]
fn time_short_takes_time_of_day() {
    assert_eq!(time_short_of("2025-07-03T15:50:07.874907Z"), "15:50:07");
    assert_eq!(time_short_of("2025-07-03T15:50:07Z"), "15:50:07Z");
    assert_eq!(time_short_of("no time here"), "");
    assert_eq!(time_short_of(""), "");
}

#[test]
fn list_line_of_user_entry() {
    let long = "x".repeat(70);
    let l = list_line(&user(&long), 0);
    assert_eq!(l.number, "  1 ");
    assert_eq!(l.kind, EntryKind::User);
    assert_eq!(l.time, "15:50:07 ");
    assert_eq!(l.summary, "x".repeat(60));
    assert_eq!(list_line(&user("hi"), 1233).number, "1234 ");
}

#[test]
fn list_line_of_assistant_entry() {
    let items = vec![
        ContentItem::Text { text: "Looking".to_string() },
        ContentItem::ToolUse { id: "t".to_string(), name: "Read".to_string(), input: vec![] },
    ];
    let u = UsageInfo {
        input_tokens: Some(10),
        cache_creation_input_tokens: None,
        cache_read_input_tokens: Some(99),
        output_tokens: Some(20),
        service_tier: None,
    };
    let l = list_line(&assistant(items, Some(u)), 4);
    assert_eq!(l.number, "  5 ");
    assert_eq!(l.kind, EntryKind::Assistant);
    assert_eq!(l.time, "09:05:01Z ");
    assert_eq!(l.summary, "Looking Read [30t]");
}

#[test]
fn list_line_of_queue_operation() {
    let q = TranscriptEntry::QueueOperation(QueueOperationTranscriptEntry {
        operation: QueueOperation::Dequeue,
        timestamp: "2025-07-03T01:02:03.000Z".to_string(),
        session_id: "s".to_string(),
        content: None,
    });
    let l = list_line(&q, 9);
    assert_eq!(l.kind, EntryKind::QueueOperation);
    assert_eq!(l.summary, "Dequeue");
    assert_eq!(l.time, "01:02:03 ");
    assert_eq!(l.number, " 10 ");
}

#[test]
fn detail_of_user_text() {
    let lines = format_entry_detail(&user("first\nsecond"));
    let t: Vec<String> = lines.iter().map(texts).collect();
    assert_eq!(
        t,
        vec![
            "Type: User",
            "Session: sess",
            "Timestamp: 2025-07-03T15:50:07.874907Z",
            "",
            "Content:",
            "first",
            "second",
        ]
    );
    match &lines[0] {
        DetailLine::Spans(s) => {
            assert_eq!(s[0].style, SpanStyle::Bold);
            assert_eq!(s[1].style, SpanStyle::Plain);
        },
        _ => panic!("expected spans"),
    }
}

#[test]
fn detail_of_assistant_with_tool_use_and_usage() {
    let long_json = format!("\"{}\"", "z".repeat(150));
    let items = vec![
        ContentItem::ToolUse {
            id: "toolu_9".to_string(),
            name: "Read".to_string(),
            input: vec![("file_path".to_string(), JsonValue { string: None, json: long_json.clone() })],
        },
        ContentItem::ToolResult {
            tool_use_id: "toolu_9".to_string(),
            content: claude_log_viewer::models::ToolResultContent::Text("ok".to_string()),
            is_error: Some(true),
        },
    ];
    let u = UsageInfo {
        input_tokens: Some(1),
        cache_creation_input_tokens: None,
        cache_read_input_tokens: None,
        output_tokens: Some(2),
        service_tier: None,
    };
    let e = assistant(items, Some(u));
    assert!(can_format_detail(&e));
    let t: Vec<String> = format_entry_detail(&e).iter().map(texts).collect();
    let cut = format!("    file_path: {}...", &long_json[..100]);
    assert_eq!(
        t,
        vec![
            "Type: Assistant".to_string(),
            "Model: model-x".to_string(),
            "Session: sess".to_string(),
            "Timestamp: 2025-07-03T09:05:01Z".to_string(),
            "Token Usage:".to_string(),
            "  Input tokens: 1".to_string(),
            "  Output tokens: 2".to_string(),
            "  Total: 3".to_string(),
            "".to_string(),
            "Tool Use: Read".to_string(),
            "  ID: toolu_9".to_string(),
            "  Input:".to_string(),
            cut,
            "".to_string(),
            "Tool Result [ERROR]".to_string(),
            "  Tool Use ID: toolu_9".to_string(),
            "<content 1>".to_string(),
            "".to_string(),
        ]
    );
}

#[test]
fn detail_cannot_cut_inside_a_character() {
    let json = format!("\"{}é\"", "a".repeat(98));
    let items = vec![ContentItem::ToolUse {
        id: "t".to_string(),
        name: "Write".to_string(),
        input: vec![("content".to_string(), JsonValue { string: None, json })],
    }];
    assert!(!can_format_detail(&assistant(items, None)));
}

#[test]
fn icons_by_kind() {
    assert_eq!(icon_of(EntryKind::User), "👤");
    assert_eq!(icon_of(EntryKind::Assistant), "🤖");
    assert_eq!(icon_of(EntryKind::Summary), "📋");
    assert_eq!(icon_of(EntryKind::System), "⚙️");
    assert_eq!(icon_of(EntryKind::QueueOperation), "📥");
    assert_eq!(icon_of(EntryKind::FileHistorySnapshot), "📸");
}
