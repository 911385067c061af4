//! Data model of coding-assistant transcript entries.
use vstd::prelude::*;
use crate::text::{join_seqs, push_str, string_of};

verus! {

/// One value of a JSON object that the library keeps: its string content
/// when the value is a JSON string, and its compact JSON rendering.
#[derive(Clone, Debug)]
pub struct JsonValue {
    pub string: Option<String>,
    pub json: String,
}

/// Token usage information.
#[derive(Clone, Debug)]
pub struct UsageInfo {
    pub input_tokens: Option<i32>,
    pub cache_creation_input_tokens: Option<i32>,
    pub cache_read_input_tokens: Option<i32>,
    pub output_tokens: Option<i32>,
    pub service_tier: Option<String>,
}

/// An optional token count, with an absent count read as zero.
pub open spec fn count_or_zero(o: Option<i32>) -> int {
    match o {
        Some(v) => v as int,
        None => 0,
    }
}

impl UsageInfo {
    /// Input plus cache-creation plus output tokens.
    pub open spec fn total_tokens_spec(&self) -> int {
        count_or_zero(self.input_tokens) + count_or_zero(self.cache_creation_input_tokens)
            + count_or_zero(self.output_tokens)
    }

    /// Input plus cache-creation plus cache-read tokens.
    pub open spec fn effective_input_tokens_spec(&self) -> int {
        count_or_zero(self.input_tokens) + count_or_zero(self.cache_creation_input_tokens)
            + count_or_zero(self.cache_read_input_tokens)
    }

    /// The additions of `total_tokens` stay within `i32`.
    pub open spec fn total_fits(&self) -> bool {
        let partial = count_or_zero(self.input_tokens) + count_or_zero(
            self.cache_creation_input_tokens,
        );
        &&& i32::MIN <= partial <= i32::MAX
        &&& i32::MIN <= self.total_tokens_spec() <= i32::MAX
    }

    /// The additions of `effective_input_tokens` stay within `i32`.
    pub open spec fn effective_fits(&self) -> bool {
        let partial = count_or_zero(self.input_tokens) + count_or_zero(
            self.cache_creation_input_tokens,
        );
        &&& i32::MIN <= partial <= i32::MAX
        &&& i32::MIN <= self.effective_input_tokens_spec() <= i32::MAX
    }

    /// Whether `total_tokens` can add up the counts without leaving `i32`.
    pub fn total_fits_exec(&self) -> (r: bool)
        ensures
            r == self.total_fits(),
    {
        let a: i64 = match self.input_tokens { Some(v) => v as i64, None => 0 };
        let b: i64 = match self.cache_creation_input_tokens { Some(v) => v as i64, None => 0 };
        let c: i64 = match self.output_tokens { Some(v) => v as i64, None => 0 };
        let partial = a + b;
        let total = partial + c;
        i32::MIN as i64 <= partial && partial <= i32::MAX as i64 && i32::MIN as i64 <= total && total
            <= i32::MAX as i64
    }

    /// Calculate total tokens used.
    pub fn total_tokens(&self) -> (r: i32)
        requires
            self.total_fits(),
        ensures
            r == self.total_tokens_spec(),
    {
        let a = match self.input_tokens { Some(v) => v, None => 0 };
        let b = match self.cache_creation_input_tokens { Some(v) => v, None => 0 };
        let c = match self.output_tokens { Some(v) => v, None => 0 };
        a + b + c
    }

    /// Calculate cost-effective tokens (with cache reads).
    pub fn effective_input_tokens(&self) -> (r: i32)
        requires
            self.effective_fits(),
        ensures
            r == self.effective_input_tokens_spec(),
    {
        let a = match self.input_tokens { Some(v) => v, None => 0 };
        let b = match self.cache_creation_input_tokens { Some(v) => v, None => 0 };
        let c = match self.cache_read_input_tokens { Some(v) => v, None => 0 };
        a + b + c
    }
}


/// Main transcript entry enum - all possible entry types.
#[derive(Debug)]
pub enum TranscriptEntry {
    User(UserTranscriptEntry),
    Assistant(AssistantTranscriptEntry),
    Summary(SummaryTranscriptEntry),
    System(SystemTranscriptEntry),
    QueueOperation(QueueOperationTranscriptEntry),
    FileHistorySnapshot(FileHistorySnapshotEntry),
}

/// Base fields common to most transcript entries.
#[derive(Clone, Debug)]
pub struct BaseTranscriptEntry {
    pub parent_uuid: Option<String>,
    pub is_sidechain: bool,
    pub user_type: String,
    pub cwd: String,
    pub session_id: String,
    pub version: String,
    pub uuid: String,
    pub timestamp: String,
    pub is_meta: Option<bool>,
}

/// User message entry.
#[derive(Debug)]
pub struct UserTranscriptEntry {
    pub base: BaseTranscriptEntry,
    pub message: UserMessage,
    pub tool_use_result: Option<ToolUseResult>,
}

/// Assistant message entry.
#[derive(Debug)]
pub struct AssistantTranscriptEntry {
    pub base: BaseTranscriptEntry,
    pub message: AssistantMessage,
    pub request_id: Option<String>,
}

/// Summary entry (generated for sessions).
#[derive(Clone, Debug)]
pub struct SummaryTranscriptEntry {
    pub summary: String,
    pub leaf_uuid: String,
    pub cwd: Option<String>,
    pub timestamp: Option<String>,
}

/// System message entry.
#[derive(Clone, Debug)]
pub struct SystemTranscriptEntry {
    pub base: BaseTranscriptEntry,
    pub content: String,
    pub level: Option<String>,
}

/// Queue operation entry (enqueue/dequeue tracking).
#[derive(Debug)]
pub struct QueueOperationTranscriptEntry {
    pub operation: QueueOperation,
    pub timestamp: String,
    pub session_id: String,
    pub content: Option<Vec<ContentItem>>,
}

/// The kind of a queue operation.
#[derive(Clone, Copy, Debug, PartialEq, Eq, Structural)]
pub enum QueueOperation {
    Enqueue,
    Dequeue,
}

/// File history snapshot entry (tracks file changes).
#[derive(Clone, Debug)]
pub struct FileHistorySnapshotEntry {
    pub message_id: String,
    pub snapshot: FileHistorySnapshot,
    pub is_snapshot_update: bool,
}

/// A snapshot of tracked file backups, keyed by file.
#[derive(Clone, Debug)]
pub struct FileHistorySnapshot {
    pub message_id: String,
    pub tracked_file_backups: Vec<(String, JsonValue)>,
    pub timestamp: Option<String>,
}

/// User message structure.
#[derive(Debug)]
pub struct UserMessage {
    pub role: String,
    pub content: MessageContent,
}

/// Assistant message structure.
#[derive(Debug)]
pub struct AssistantMessage {
    pub id: String,
    pub message_type: String,
    pub role: String,
    pub model: String,
    pub content: Vec<ContentItem>,
    pub stop_reason: Option<String>,
    pub stop_sequence: Option<String>,
    pub usage: Option<UsageInfo>,
}

/// Message content can be either a string or a list of content items.
#[derive(Debug)]
pub enum MessageContent {
    Text(String),
    Items(Vec<ContentItem>),
}

/// Content item - various types of content in messages.
///
/// The input of a tool use is the list of the fields of its JSON object.
#[derive(Debug)]
pub enum ContentItem {
    Text { text: String },
    ToolUse { id: String, name: String, input: Vec<(String, JsonValue)> },
    ToolResult { tool_use_id: String, content: ToolResultContent, is_error: Option<bool> },
    Thinking { thinking: String, signature: Option<String> },
    Image { source: ImageSource },
}

/// Tool result content can be string or list of content items.
#[derive(Debug)]
pub enum ToolResultContent {
    Text(String),
    Items(Vec<ContentItem>),
}

/// Image source structure.
#[derive(Clone, Debug)]
pub struct ImageSource {
    pub source_type: String,
    pub media_type: String,
    pub data: String,
}

/// Tool use result - can be various types.
#[derive(Debug)]
pub enum ToolUseResult {
    Text(String),
    FileRead(FileReadResult),
    Command(CommandResult),
    Todo(TodoResult),
    Edit(EditResult),
    Todos(Vec<TodoItem>),
    ContentItems(Vec<ContentItem>),
}

/// File read result.
#[derive(Clone, Debug)]
pub struct FileReadResult {
    pub result_type: String,
    pub file: FileInfo,
}

/// File information.
#[derive(Clone, Debug)]
pub struct FileInfo {
    pub file_path: String,
    pub content: String,
    pub num_lines: i32,
    pub start_line: i32,
    pub total_lines: i32,
}

/// Command execution result.
#[derive(Clone, Debug)]
pub struct CommandResult {
    pub stdout: String,
    pub stderr: String,
    pub interrupted: bool,
    pub is_image: bool,
}

/// Todo item.
#[derive(Clone, Debug)]
pub struct TodoItem {
    pub id: String,
    pub content: String,
    pub status: TodoStatus,
    pub priority: TodoPriority,
}

/// Status of a todo item.
#[derive(Clone, Copy, Debug, PartialEq, Eq, Structural)]
pub enum TodoStatus {
    Pending,
    InProgress,
    Completed,
}

/// Priority of a todo item.
#[derive(Clone, Copy, Debug, PartialEq, Eq, Structural)]
pub enum TodoPriority {
    High,
    Medium,
    Low,
}

/// Todo result (old and new todos).
#[derive(Clone, Debug)]
pub struct TodoResult {
    pub old_todos: Vec<TodoItem>,
    pub new_todos: Vec<TodoItem>,
}

/// Edit result.
#[derive(Clone, Debug)]
pub struct EditResult {
    pub old_string: Option<String>,
    pub new_string: Option<String>,
    pub replace_all: Option<bool>,
    pub original_file: Option<String>,
    pub user_modified: Option<bool>,
}

/// The texts of the text items among `items`, in order.
pub open spec fn text_parts(items: Seq<ContentItem>) -> Seq<Seq<char>>
    decreases items.len(),
{
    if items.len() == 0 {
        seq![]
    } else {
        let prev = text_parts(items.drop_last());
        match items.last() {
            ContentItem::Text { text } => prev.push(text@),
            _ => prev,
        }
    }
}

/// The text of message content, the text items joined by `sep`.
pub open spec fn content_text(content: MessageContent, sep: Seq<char>) -> Seq<char> {
    match content {
        MessageContent::Text(s) => s@,
        MessageContent::Items(items) => join_seqs(text_parts(items@), sep),
    }
}

/// The texts of the text items of `items` joined by `sep`.
pub fn join_text_items(items: &Vec<ContentItem>, sep: &str) -> (r: String)
    ensures
        r@ == join_seqs(text_parts(items@), sep@),
{
    let mut out: Vec<char> = Vec::new();
    let ghost mut parts: Seq<Seq<char>> = seq![];
    let mut any = false;
    let mut i: usize = 0;
    while i < items.len()
        invariant
            i <= items@.len(),
            any == (parts.len() > 0),
            parts == text_parts(items@.subrange(0, i as int)),
            out@ == join_seqs(parts, sep@),
        decreases items.len() - i,
    {
        assert(items@.subrange(0, i + 1).drop_last() == items@.subrange(0, i as int));
        match &items[i] {
            ContentItem::Text { text } => {
                if any {
                    push_str(&mut out, sep);
                }
                any = true;
                push_str(&mut out, text.as_str());
                proof {
                    let np = parts.push(text@);
                    assert(np.drop_last() == parts);
                    if parts.len() == 0 {
                        assert(out@ == np[0]);
                    }
                    parts = np;
                }
            },
            _ => {},
        }
        i = i + 1;
    }
    assert(items@.subrange(0, items@.len() as int) == items@);
    string_of(out.as_slice())
}

/// The text of message content, the text items joined by `sep`.
pub fn content_text_of(content: &MessageContent, sep: &str) -> (r: String)
    ensures
        r@ == content_text(*content, sep@),
{
    match content {
        MessageContent::Text(s) => s.clone(),
        MessageContent::Items(items) => join_text_items(items, sep),
    }
}

impl MessageContent {
    /// Extract text from content: the text itself, or the text items joined
    /// by newlines.
    pub fn extract_text(&self) -> (r: String)
        ensures
            r@ == content_text(*self, "\n"@),
    {
        content_text_of(self, "\n")
    }
}

/// An instant in UTC: seconds since the Unix epoch and the nanoseconds past
/// that second (more than a second's worth during a leap second).
#[derive(Clone, Copy, Debug, PartialEq, Eq, Structural)]
pub struct UtcTimestamp {
    pub unix_seconds: i64,
    pub subsec_nanos: u32,
}

/// The instant an RFC 3339 date-and-time names, as seconds and nanoseconds,
/// where `chrono` parses the text as one.
pub uninterp spec fn rfc3339_instant(text: Seq<char>) -> Option<(i64, u32)>;

/// Parses `text` with `chrono::DateTime::parse_from_rfc3339` and moves the
/// result to UTC with `with_timezone(&Utc)`; gives the instant's
/// `timestamp()` and `timestamp_subsec_nanos()`, or `None` where the text
/// does not parse. The outcome is named by `rfc3339_instant`.
#[verifier::external_body]
fn parse_rfc3339(text: &str) -> (r: Option<(i64, u32)>)
    ensures
        r == rfc3339_instant(text@),
{
    chrono::DateTime::parse_from_rfc3339(text).ok().map(|dt| dt.with_timezone(&chrono::Utc)).map(
        |dt| (dt.timestamp(), dt.timestamp_subsec_nanos()),
    )
}

impl TranscriptEntry {
    /// The instant of the entry's timestamp, where it has one that parses
    /// as RFC 3339.
    pub open spec fn parsed_timestamp_spec(&self) -> Option<UtcTimestamp> {
        match self.timestamp_view() {
            Some(t) => match rfc3339_instant(t) {
                Some(p) => Some(UtcTimestamp { unix_seconds: p.0, subsec_nanos: p.1 }),
                None => None,
            },
            None => None,
        }
    }

    /// Parse timestamp as an instant in UTC.
    pub fn parsed_timestamp(&self) -> (r: Option<UtcTimestamp>)
        ensures
            r == self.parsed_timestamp_spec(),
    {
        match self.timestamp() {
            Some(ts) => match parse_rfc3339(ts) {
                Some((s, n)) => Some(UtcTimestamp { unix_seconds: s, subsec_nanos: n }),
                None => None,
            },
            None => None,
        }
    }

    /// The timestamp of an entry, where its kind has one.
    pub open spec fn timestamp_view(&self) -> Option<Seq<char>> {
        match self {
            TranscriptEntry::User(e) => Some(e.base.timestamp@),
            TranscriptEntry::Assistant(e) => Some(e.base.timestamp@),
            TranscriptEntry::Summary(e) => match e.timestamp {
                Some(t) => Some(t@),
                None => None,
            },
            TranscriptEntry::System(e) => Some(e.base.timestamp@),
            TranscriptEntry::QueueOperation(e) => Some(e.timestamp@),
            TranscriptEntry::FileHistorySnapshot(e) => match e.snapshot.timestamp {
                Some(t) => Some(t@),
                None => None,
            },
        }
    }

    /// The session ID of an entry, where its kind has one.
    pub open spec fn session_id_view(&self) -> Option<Seq<char>> {
        match self {
            TranscriptEntry::User(e) => Some(e.base.session_id@),
            TranscriptEntry::Assistant(e) => Some(e.base.session_id@),
            TranscriptEntry::Summary(_) => None,
            TranscriptEntry::System(e) => Some(e.base.session_id@),
            TranscriptEntry::QueueOperation(e) => Some(e.session_id@),
            TranscriptEntry::FileHistorySnapshot(_) => None,
        }
    }

    /// Get the timestamp of this entry if it has one.
    pub fn timestamp(&self) -> (r: Option<&str>)
        ensures
            match r {
                Some(s) => self.timestamp_view() == Some(s@),
                None => self.timestamp_view() is None,
            },
    {
        match self {
            TranscriptEntry::User(e) => Some(e.base.timestamp.as_str()),
            TranscriptEntry::Assistant(e) => Some(e.base.timestamp.as_str()),
            TranscriptEntry::Summary(e) => match &e.timestamp {
                Some(t) => Some(t.as_str()),
                None => None,
            },
            TranscriptEntry::System(e) => Some(e.base.timestamp.as_str()),
            TranscriptEntry::QueueOperation(e) => Some(e.timestamp.as_str()),
            TranscriptEntry::FileHistorySnapshot(e) => match &e.snapshot.timestamp {
                Some(t) => Some(t.as_str()),
                None => None,
            },
        }
    }

    /// Get the session ID of this entry if it has one.
    pub fn session_id(&self) -> (r: Option<&str>)
        ensures
            match r {
                Some(s) => self.session_id_view() == Some(s@),
                None => self.session_id_view() is None,
            },
    {
        match self {
            TranscriptEntry::User(e) => Some(e.base.session_id.as_str()),
            TranscriptEntry::Assistant(e) => Some(e.base.session_id.as_str()),
            TranscriptEntry::Summary(_) => None,
            TranscriptEntry::System(e) => Some(e.base.session_id.as_str()),
            TranscriptEntry::QueueOperation(e) => Some(e.session_id.as_str()),
            TranscriptEntry::FileHistorySnapshot(_) => None,
        }
    }
}

/// An entry's timestamp is its own timestamp field: the required field of a
/// user, assistant, system or queue entry, and the optional one of a summary
/// or of a file history snapshot.
pub proof fn law_timestamp_is_the_entry_field(e: TranscriptEntry)
    ensures
        e is User ==> e.timestamp_view() == Some(e->User_0.base.timestamp@),
        e is Assistant ==> e.timestamp_view() == Some(e->Assistant_0.base.timestamp@),
        e is System ==> e.timestamp_view() == Some(e->System_0.base.timestamp@),
        e is QueueOperation ==> e.timestamp_view() == Some(e->QueueOperation_0.timestamp@),
        e is Summary ==> (e.timestamp_view() is Some <==> e->Summary_0.timestamp is Some),
        e is Summary && e->Summary_0.timestamp is Some ==> e.timestamp_view() == Some(
            e->Summary_0.timestamp->0@,
        ),
        e is FileHistorySnapshot ==> (e.timestamp_view() is Some <==> e->FileHistorySnapshot_0.snapshot.timestamp is Some),
        e is FileHistorySnapshot && e->FileHistorySnapshot_0.snapshot.timestamp is Some ==> e.timestamp_view() == Some(
            e->FileHistorySnapshot_0.snapshot.timestamp->0@,
        ),
{
}

} // verus!
