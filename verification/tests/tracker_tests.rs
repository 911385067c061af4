use claude_log_viewer::analytics::{FileAccessStats, FileAccessTracker};
use claude_log_viewer::models::{
    AssistantMessage, AssistantTranscriptEntry, BaseTranscriptEntry, ContentItem, JsonValue,
    MessageContent, TranscriptEntry, UserMessage, UserTranscriptEntry,
};

fn base(ts: &str) -> BaseTranscriptEntry {
    BaseTranscriptEntry {
        parent_uuid: None,
        is_sidechain: false,
        user_type: "external".to_string(),
        cwd: "/tmp".to_string(),
        session_id: "s1".to_string(),
        version: "1.0.0".to_string(),
        uuid: "u1".to_string(),
        timestamp: ts.to_string(),
        is_meta: None,
    }
}

fn tool_use(name: &str, path: &str) -> ContentItem {
    ContentItem::ToolUse {
        id: "toolu_1".to_string(),
        name: name.to_string(),
        input: vec![(
            "file_path".to_string(),
            JsonValue { string: Some(path.to_string()), json: format!("\"{}\"", path) },
        )],
    }
}

fn assistant(items: Vec<ContentItem>) -> TranscriptEntry {
    TranscriptEntry::Assistant(AssistantTranscriptEntry {
        base: base("2025-07-03T15:50:07Z"),
        message: AssistantMessage {
            id: "msg_1".to_string(),
            message_type: "message".to_string(),
            role: "assistant".to_string(),
            model: "model-a".to_string(),
            content: items,
            stop_reason: None,
            stop_sequence: None,
            usage: None,
        },
        request_id: None,
    })
}

fn tracker_of(entries: &[TranscriptEntry]) -> FileAccessTracker {
    let mut t = FileAccessTracker::new();
    for e in entries {
        assert!(t.has_room_for(e));
        t.analyze_entry(e);
    }
    t
}

fn sample() -> FileAccessTracker {
    tracker_of(&[
        assistant(vec![tool_use("Read", "/p/.env"), tool_use("Read", "/p/a.rs")]),
        assistant(vec![tool_use("Read", "/p/.env"), tool_use("Edit", "/p/.env")]),
        assistant(vec![tool_use("Write", "/p/.env.local"), tool_use("MultiEdit", "/p/a.rs")]),
        assistant(vec![tool_use("Bash", "/p/ignored"), tool_use("Read", "/p/b.rs")]),
    ])
}

#[test]
fn files_matching_sorts_by_count() {
    let t = sample();
    let m = t.files_matching(".env");
    assert_eq!(m, vec![("/p/.env".to_string(), 3), ("/p/.env.local".to_string(), 1)]);
}

#[test]
fn files_matching_nothing() {
    let t = sample();
    assert!(t.files_matching("*.py").is_empty());
}

#[test]
fn star_reports_every_access() {
    let t = sample();
    let all = t.files_matching("*");
    let sum: usize = all.iter().map(|(_, c)| *c).sum();
    let st = t.stats();
    assert_eq!(sum, st.total_reads + st.total_writes + st.total_edits);
    assert_eq!(sum, 7);
    assert_eq!(all.len(), 4);
    assert_eq!(all[0], ("/p/.env".to_string(), 3));
    assert_eq!(all[1], ("/p/a.rs".to_string(), 2));
}

#[test]
fn stats_count_each_kind() {
    let st = sample().stats();
    assert_eq!(st.total_reads, 4);
    assert_eq!(st.total_writes, 1);
    assert_eq!(st.total_edits, 2);
    assert_eq!(st.unique_files_read, 3);
    assert_eq!(st.unique_files_written, 1);
    assert_eq!(st.unique_files_edited, 2);
}

#[test]
fn top_files_ranks_by_total() {
    let t = sample();
    let top = t.top_files(2);
    assert_eq!(top.len(), 2);
    assert_eq!(top[0].0, "/p/.env");
    assert_eq!((top[0].1.reads, top[0].1.writes, top[0].1.edits), (2, 0, 1));
    assert_eq!(top[0].1.total(), 3);
    assert_eq!(top[1].0, "/p/a.rs");
    assert_eq!(top[1].1.total(), 2);
    assert!(top[0].1.total() >= top[1].1.total());
    assert_eq!(t.top_files(100).len(), 4);
    assert!(t.top_files(0).is_empty());
}

#[test]
fn same_path_written_differently_counts_once() {
    let t = tracker_of(&[assistant(vec![tool_use("Read", "/p/x.rs"), tool_use("Read", "/p//x.rs")])]);
    let st = t.stats();
    assert_eq!(st.unique_files_read, 1);
    assert_eq!(st.total_reads, 2);
    assert_eq!(t.files_matching("x.rs"), vec![("/p/x.rs".to_string(), 2)]);
}

#[test]
fn non_string_file_path_is_ignored() {
    let item = ContentItem::ToolUse {
        id: "t".to_string(),
        name: "Read".to_string(),
        input: vec![("file_path".to_string(), JsonValue { string: None, json: "42".to_string() })],
    };
    let t = tracker_of(&[assistant(vec![item])]);
    assert_eq!(t.stats().total_reads, 0);
}

#[test]
fn user_messages_are_not_accesses() {
    let user = TranscriptEntry::User(UserTranscriptEntry {
        base: base("2025-07-03T15:50:07Z"),
        message: UserMessage { role: "user".to_string(), content: MessageContent::Items(vec![tool_use("Read", "/p/a")]) },
        tool_use_result: None,
    });
    let t = tracker_of(&[user]);
    assert_eq!(t.checked_total(), Some(0));
}

#[test]
fn checked_total_and_room() {
    let t = sample();
    assert_eq!(t.checked_total(), Some(7));
    let mut full = FileAccessTracker::new();
    full.read_counts.push(("/big".to_string(), usize::MAX));
    assert_eq!(full.checked_total(), Some(usize::MAX));
    assert!(!full.has_room_for(&assistant(vec![tool_use("Read", "/x")])));
    full.write_counts.push(("/big".to_string(), 1));
    assert_eq!(full.checked_total(), None);
}

#[test]
fn access_stats_total() {
    let s = FileAccessStats { reads: 1, writes: 2, edits: 3 };
    assert_eq!(s.total(), 6);
}

#[test]
fn each_table_is_bounded_on_its_own() {
    let mut t = FileAccessTracker::new();
    t.read_counts.push(("/big".to_string(), usize::MAX - 5));
    t.write_counts.push(("/w".to_string(), 10));
    assert_eq!(t.checked_total(), None);
    let st = t.stats();
    assert_eq!(st.total_reads, usize::MAX - 5);
    assert_eq!(st.total_writes, 10);
    assert!(t.has_room_for(&assistant(vec![tool_use("Write", "/w")])));
    t.analyze_entry(&assistant(vec![tool_use("Write", "/w")]));
    assert_eq!(t.stats().total_writes, 11);
}
