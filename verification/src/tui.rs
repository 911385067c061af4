//! State of the interactive transcript viewer: the selection in the list of
//! entries and how keys move it.
use vstd::prelude::*;
use crate::models::{content_text, ContentItem, QueueOperation, TranscriptEntry};
use crate::text::{
    chars_of, decimal, decimal_i64, digits, digits_u64, push_chars, push_str, split_chars, split_seq,
    string_of, sub_chars,
};

verus! {

/// The selection after moving down in a list of `len` entries: the next
/// entry, wrapping from the last to the first.
pub open spec fn next_selection(len: nat, sel: Option<usize>) -> Option<usize> {
    if len == 0 {
        sel
    } else {
        match sel {
            Some(i) => if i >= len - 1 {
                Some(0)
            } else {
                Some((i + 1) as usize)
            },
            None => Some(0),
        }
    }
}

/// The selection after moving up in a list of `len` entries: the previous
/// entry, wrapping from the first to the last.
pub open spec fn previous_selection(len: nat, sel: Option<usize>) -> Option<usize> {
    if len == 0 {
        sel
    } else {
        match sel {
            Some(i) => if i == 0 {
                Some((len - 1) as usize)
            } else {
                Some((i - 1) as usize)
            },
            None => Some(0),
        }
    }
}

/// Moving up after moving down comes back to the entry that was selected,
/// in a list that is not empty and a selection within it.
pub proof fn law_previous_undoes_next(len: nat, i: usize)
    requires
        i < len,
        len <= usize::MAX,
    ensures
        previous_selection(len, next_selection(len, Some(i))) == Some(i),
{
}

/// Moving down after moving up comes back to the entry that was selected,
/// in a list that is not empty and a selection within it.
pub proof fn law_next_undoes_previous(len: nat, i: usize)
    requires
        i < len,
        len <= usize::MAX,
    ensures
        next_selection(len, previous_selection(len, Some(i))) == Some(i),
{
}

/// Moving in a list that is not empty, from no selection or from an entry of
/// it, always selects an entry of it.
pub proof fn law_moves_stay_in_list(len: nat, sel: Option<usize>)
    requires
        len > 0,
        len <= usize::MAX,
        sel matches Some(i) ==> i < len,
    ensures
        next_selection(len, sel) matches Some(i) && i < len,
        previous_selection(len, sel) matches Some(i) && i < len,
{
}

/// A key press, as far as the viewer tells keys apart.
#[derive(Clone, Copy, Debug, PartialEq, Eq, Structural)]
pub enum Key {
    Char(char),
    Up,
    Down,
    Esc,
    Other,
}

/// What a key does in the viewer.
pub enum KeyAction {
    Quit,
    Next,
    Previous,
    Ignore,
}

/// What a key does: `q` and Esc quit, Down and `j` move down, Up and `k`
/// move up, any other key does nothing.
pub open spec fn key_action(key: Key) -> KeyAction {
    match key {
        Key::Char(c) => if c == 'q' {
            KeyAction::Quit
        } else if c == 'j' {
            KeyAction::Next
        } else if c == 'k' {
            KeyAction::Previous
        } else {
            KeyAction::Ignore
        },
        Key::Down => KeyAction::Next,
        Key::Up => KeyAction::Previous,
        Key::Esc => KeyAction::Quit,
        Key::Other => KeyAction::Ignore,
    }
}

/// The viewer's state: the entries, the selected entry and the first entry
/// shown of the list, and whether the viewer is to quit.
pub struct App {
    entries: Vec<TranscriptEntry>,
    selected: Option<usize>,
    offset: usize,
    should_quit: bool,
}

impl App {
    /// The entries shown.
    pub closed spec fn entries_view(&self) -> Seq<TranscriptEntry> {
        self.entries@
    }

    /// The index of the selected entry, if any.
    pub closed spec fn selected_view(&self) -> Option<usize> {
        self.selected
    }

    /// The index of the first entry shown of the list.
    pub closed spec fn offset_view(&self) -> usize {
        self.offset
    }

    /// Whether the viewer is to quit.
    pub closed spec fn quitting(&self) -> bool {
        self.should_quit
    }

    /// A viewer of `entries`, with the first one selected if there is one.
    pub fn new(entries: Vec<TranscriptEntry>) -> (r: Self)
        ensures
            r.entries_view() == entries@,
            r.selected_view() == (if entries@.len() > 0 { Some(0usize) } else { None }),
            r.offset_view() == 0,
            !r.quitting(),
    {
        let selected = if entries.len() > 0 { Some(0) } else { None };
        App { entries, selected, offset: 0, should_quit: false }
    }

    /// Select the next entry, wrapping to the first.
    pub fn next(&mut self)
        ensures
            final(self).selected_view() == next_selection(old(self).entries_view().len(), old(self).selected_view()),
            final(self).entries_view() == old(self).entries_view(),
            final(self).offset_view() == old(self).offset_view(),
            final(self).quitting() == old(self).quitting(),
    {
        if self.entries.len() == 0 {
            return;
        }
        let i = match self.selected {
            Some(i) => if i >= self.entries.len() - 1 {
                0
            } else {
                i + 1
            },
            None => 0,
        };
        self.selected = Some(i);
    }

    /// Select the previous entry, wrapping to the last.
    pub fn previous(&mut self)
        ensures
            final(self).selected_view() == previous_selection(old(self).entries_view().len(), old(self).selected_view()),
            final(self).entries_view() == old(self).entries_view(),
            final(self).offset_view() == old(self).offset_view(),
            final(self).quitting() == old(self).quitting(),
    {
        if self.entries.len() == 0 {
            return;
        }
        let i = match self.selected {
            Some(i) => if i == 0 {
                self.entries.len() - 1
            } else {
                i - 1
            },
            None => 0,
        };
        self.selected = Some(i);
    }

    /// The selected entry, if the selection names one.
    pub fn selected_entry(&self) -> (r: Option<&TranscriptEntry>)
        ensures
            match self.selected_view() {
                Some(i) => if i < self.entries_view().len() {
                    r == Some(&self.entries_view()[i as int])
                } else {
                    r is None
                },
                None => r is None,
            },
    {
        match self.selected {
            Some(i) => if i < self.entries.len() {
                Some(&self.entries[i])
            } else {
                None
            },
            None => None,
        }
    }

    /// The entries shown.
    pub fn entries(&self) -> (r: &Vec<TranscriptEntry>)
        ensures
            r@ == self.entries_view(),
    {
        &self.entries
    }

    /// The selected index and the first index shown, for drawing the list.
    pub fn list_state(&self) -> (r: (Option<usize>, usize))
        ensures
            r == (self.selected_view(), self.offset_view()),
    {
        (self.selected, self.offset)
    }

    /// Takes back the selection and scroll position that drawing the list settled on.
    pub fn sync_list_state(&mut self, selected: Option<usize>, offset: usize)
        ensures
            final(self).selected_view() == selected,
            final(self).offset_view() == offset,
            final(self).entries_view() == old(self).entries_view(),
            final(self).quitting() == old(self).quitting(),
    {
        self.selected = selected;
        self.offset = offset;
    }

    /// Whether the viewer is to quit.
    pub fn should_quit(&self) -> (r: bool)
        ensures
            r == self.quitting(),
    {
        self.should_quit
    }

    /// Handles one key press and says whether the viewer is to quit now.
    pub fn handle_key(&mut self, key: Key) -> (r: bool)
        ensures
            final(self).entries_view() == old(self).entries_view(),
            final(self).offset_view() == old(self).offset_view(),
            match key_action(key) {
                KeyAction::Quit => final(self).quitting() && final(self).selected_view() == old(self).selected_view(),
                KeyAction::Next => final(self).quitting() == old(self).quitting() && final(self).selected_view()
                    == next_selection(old(self).entries_view().len(), old(self).selected_view()),
                KeyAction::Previous => final(self).quitting() == old(self).quitting() && final(self).selected_view()
                    == previous_selection(old(self).entries_view().len(), old(self).selected_view()),
                KeyAction::Ignore => final(self).quitting() == old(self).quitting() && final(self).selected_view()
                    == old(self).selected_view(),
            },
            r == final(self).quitting(),
    {
        match key {
            Key::Char(c) => {
                if c == 'q' {
                    self.should_quit = true;
                } else if c == 'j' {
                    self.next();
                } else if c == 'k' {
                    self.previous();
                }
            },
            Key::Down => {
                self.next();
            },
            Key::Up => {
                self.previous();
            },
            Key::Esc => {
                self.should_quit = true;
            },
            Key::Other => {},
        }
        self.should_quit
    }
}


/// The kind of an entry, which the list shows as an icon.
#[derive(Clone, Copy, Debug, PartialEq, Eq, Structural)]
pub enum EntryKind {
    User,
    Assistant,
    Summary,
    System,
    QueueOperation,
    FileHistorySnapshot,
}

/// The icon the list shows for a kind of entry.
pub open spec fn icon_spec(kind: EntryKind) -> Seq<char> {
    match kind {
        EntryKind::User => "👤"@,
        EntryKind::Assistant => "🤖"@,
        EntryKind::Summary => "📋"@,
        EntryKind::System => "⚙️"@,
        EntryKind::QueueOperation => "📥"@,
        EntryKind::FileHistorySnapshot => "📸"@,
    }
}

/// The icon the list shows for a kind of entry.
pub fn icon_of(kind: EntryKind) -> (r: &'static str)
    ensures
        r@ == icon_spec(kind),
{
    match kind {
        EntryKind::User => "👤",
        EntryKind::Assistant => "🤖",
        EntryKind::Summary => "📋",
        EntryKind::System => "⚙️",
        EntryKind::QueueOperation => "📥",
        EntryKind::FileHistorySnapshot => "📸",
    }
}

/// How many characters of an entry's text its list line shows.
pub const SUMMARY_CHARS: usize = 60;

/// The first `n` characters of `s`.
pub open spec fn first_chars(s: Seq<char>, n: int) -> Seq<char> {
    if s.len() <= n { s } else { s.take(n) }
}

/// The time part of an ISO timestamp: what follows the first `T`, up to the
/// next `T`, cut at the first `.`; empty without a `T`.
pub open spec fn time_short(ts: Seq<char>) -> Seq<char> {
    let parts = split_seq(ts, 'T');
    let time = if parts.len() > 1 { parts[1] } else { seq![] };
    split_seq(time, '.')[0]
}

/// The time of day of a timestamp `dateTtime.fraction` is `time`, and of
/// `dateTtime` without a fraction too; a timestamp without a `T` has none.
pub proof fn law_time_short_is_time_of_day(d: Seq<char>, t: Seq<char>, f: Seq<char>)
    requires
        !d.contains('T'),
        !t.contains('T'),
        !t.contains('.'),
        !f.contains('T'),
    ensures
        time_short(d + seq!['T'] + t + seq!['.'] + f) == t,
        time_short(d + seq!['T'] + t) == t,
        time_short(d) == Seq::<char>::empty(),
{
    let tail = t + seq!['.'] + f;
    assert(!tail.contains('T')) by {
        if tail.contains('T') {
            let k = choose|k: int| 0 <= k < tail.len() && tail[k] == 'T';
            if k < t.len() {
                assert(t[k] == 'T');
            } else if k > t.len() {
                assert(f[k - t.len() - 1] == 'T');
            }
        }
    }
    assert(d + seq!['T'] + t + seq!['.'] + f =~= d + seq!['T'] + tail);
    crate::text::lemma_split_seq_concat(d, tail, 'T');
    crate::text::lemma_split_seq_whole(d, 'T');
    crate::text::lemma_split_seq_whole(tail, 'T');
    crate::text::lemma_split_seq_concat(t, f, '.');
    crate::text::lemma_split_seq_whole(t, '.');
    crate::text::lemma_split_seq_concat(d, t, 'T');
    crate::text::lemma_split_seq_whole(t, 'T');
    assert(split_seq(d + seq!['T'] + t, 'T')[1] == t);
    assert(split_seq(d + seq!['T'] + tail, 'T')[1] == tail);
    assert(split_seq(Seq::<char>::empty(), '.') == seq![Seq::<char>::empty()]);
}

/// The start of a text that a list line shows is the text's first `n`
/// characters, all of them where it is shorter; a right-aligned field is as
/// wide as asked, or as the text where that is wider, and is spaces followed
/// by the text.
pub proof fn law_list_fields(s: Seq<char>, n: int, w: int)
    requires
        n >= 0,
    ensures
        first_chars(s, n).len() == vstd::math::min(n, s.len() as int),
        forall|i: int| 0 <= i < first_chars(s, n).len() ==> #[trigger] first_chars(s, n)[i] == s[i],
        pad_left(s, w).len() == vstd::math::max(w, s.len() as int),
        pad_left(s, w).subrange(pad_left(s, w).len() - s.len(), pad_left(s, w).len() as int) == s,
        forall|i: int| 0 <= i < pad_left(s, w).len() - s.len() ==> #[trigger] pad_left(s, w)[i] == ' ',
{
    let p = pad_left(s, w);
    assert(p.subrange(p.len() - s.len(), p.len() as int) =~= s);
}

/// `n` spaces.
pub open spec fn spaces(n: int) -> Seq<char> {
    Seq::new(if n > 0 { n as nat } else { 0 }, |i: int| ' ')
}

/// `s` right-aligned in a field of `width` characters, as `{:>width}` writes it.
pub open spec fn pad_left(s: Seq<char>, width: int) -> Seq<char> {
    spaces(width - s.len()) + s
}

/// The names of the tool uses and the texts of the text items of `items`, in order.
pub open spec fn assistant_parts(items: Seq<ContentItem>) -> Seq<Seq<char>>
    decreases items.len(),
{
    if items.len() == 0 {
        seq![]
    } else {
        let prev = assistant_parts(items.drop_last());
        match items.last() {
            ContentItem::Text { text } => prev.push(text@),
            ContentItem::ToolUse { name, .. } => prev.push(name@),
            _ => prev,
        }
    }
}

/// The name of a queue operation, as `{:?}` writes it.
pub open spec fn operation_name(op: QueueOperation) -> Seq<char> {
    match op {
        QueueOperation::Enqueue => "Enqueue"@,
        QueueOperation::Dequeue => "Dequeue"@,
    }
}

/// The list line of an entry can be drawn: the token total of an assistant
/// message stays within `i32`.
pub open spec fn list_line_ok(entry: TranscriptEntry) -> bool {
    match entry {
        TranscriptEntry::Assistant(a) => match a.message.usage {
            Some(u) => u.total_fits(),
            None => true,
        },
        _ => true,
    }
}

/// The kind, timestamp and summary text of an entry's line in the list.
pub open spec fn list_summary(entry: TranscriptEntry) -> (EntryKind, Seq<char>, Seq<char>) {
    match entry {
        TranscriptEntry::User(u) => (
            EntryKind::User,
            u.base.timestamp@,
            first_chars(content_text(u.message.content, " "@), SUMMARY_CHARS as int),
        ),
        TranscriptEntry::Assistant(a) => {
            let text = first_chars(crate::text::join_seqs(assistant_parts(a.message.content@), " "@), SUMMARY_CHARS as int);
            let tokens = match a.message.usage {
                Some(u) => " ["@ + decimal(u.total_tokens_spec()) + "t]"@,
                None => seq![],
            };
            (EntryKind::Assistant, a.base.timestamp@, text + tokens)
        },
        TranscriptEntry::Summary(s) => (
            EntryKind::Summary,
            match s.timestamp {
                Some(t) => t@,
                None => seq![],
            },
            first_chars(s.summary@, SUMMARY_CHARS as int),
        ),
        TranscriptEntry::System(s) => (
            EntryKind::System,
            s.base.timestamp@,
            first_chars(s.content@, SUMMARY_CHARS as int),
        ),
        TranscriptEntry::QueueOperation(q) => (EntryKind::QueueOperation, q.timestamp@, operation_name(q.operation)),
        TranscriptEntry::FileHistorySnapshot(f) => (
            EntryKind::FileHistorySnapshot,
            match f.snapshot.timestamp {
                Some(t) => t@,
                None => seq![],
            },
            "File snapshot"@,
        ),
    }
}

/// The pieces of the list line of an entry.
#[derive(Debug)]
pub struct ListLine {
    /// The entry's number, right-aligned in three columns, and a space.
    pub number: String,
    /// The kind of entry, shown as an icon.
    pub kind: EntryKind,
    /// The time of day, right-aligned in eight columns, and a space.
    pub time: String,
    /// The start of the entry's text.
    pub summary: String,
}

/// The first `n` characters of `s`.
fn first_chars_of(s: &[char], n: usize) -> (r: Vec<char>)
    ensures
        r@ == first_chars(s@, n as int),
{
    if s.len() <= n {
        sub_chars(s, 0, s.len())
    } else {
        sub_chars(s, 0, n)
    }
}

/// `s` right-aligned in a field of `width` characters.
fn pad_left_chars(s: &[char], width: usize) -> (r: Vec<char>)
    ensures
        r@ == pad_left(s@, width as int),
{
    let mut r: Vec<char> = Vec::new();
    let mut k: usize = s.len();
    while k < width
        invariant
            s@.len() <= k <= width || (k == s@.len() && k >= width),
            r@ == spaces(k - s@.len()),
        decreases width - k,
    {
        r.push(' ');
        k = k + 1;
        assert(r@ =~= spaces(k - s@.len()));
    }
    assert(r@ =~= spaces(width - s@.len()));
    push_chars(&mut r, s);
    r
}

/// The time part of an ISO timestamp.
pub fn time_short_of(ts: &str) -> (r: String)
    ensures
        r@ == time_short(ts@),
{
    let cs = chars_of(ts);
    let parts = split_chars(cs.as_slice(), 'T');
    let time: Vec<char> = if parts.len() > 1 { sub_chars(parts[1].as_slice(), 0, parts[1].len()) } else { Vec::new() };
    assert(time@ == (if split_seq(ts@, 'T').len() > 1 { split_seq(ts@, 'T')[1] } else { seq![] }));
    let pieces = split_chars(time.as_slice(), '.');
    proof {
        crate::text::lemma_split_seq_nonempty(time@, '.');
    }
    string_of(pieces[0].as_slice())
}

/// The names of the tool uses and the texts of the text items, joined by spaces.
fn assistant_text(items: &Vec<ContentItem>) -> (r: Vec<char>)
    ensures
        r@ == crate::text::join_seqs(assistant_parts(items@), " "@),
{
    let mut out: Vec<char> = Vec::new();
    let ghost mut parts: Seq<Seq<char>> = seq![];
    let mut any = false;
    let mut i: usize = 0;
    while i < items.len()
        invariant
            i <= items@.len(),
            any == (parts.len() > 0),
            parts == assistant_parts(items@.subrange(0, i as int)),
            out@ == crate::text::join_seqs(parts, " "@),
        decreases items.len() - i,
    {
        assert(items@.subrange(0, i + 1).drop_last() == items@.subrange(0, i as int));
        let piece: Option<&str> = match &items[i] {
            ContentItem::Text { text } => Some(text.as_str()),
            ContentItem::ToolUse { name, .. } => Some(name.as_str()),
            _ => None,
        };
        match piece {
            Some(p) => {
                if any {
                    push_str(&mut out, " ");
                }
                any = true;
                push_str(&mut out, p);
                proof {
                    let np = parts.push(p@);
                    assert(np.drop_last() == parts);
                    if parts.len() == 0 {
                        assert(out@ == np[0]);
                    }
                    parts = np;
                }
            },
            None => {},
        }
        i = i + 1;
    }
    assert(items@.subrange(0, items@.len() as int) == items@);
    out
}

/// The kind, timestamp and summary text of an entry's line in the list.
pub fn list_summary_of(entry: &TranscriptEntry) -> (r: (EntryKind, String, String))
    requires
        list_line_ok(*entry),
    ensures
        (r.0, r.1@, r.2@) == list_summary(*entry),
{
    match entry {
        TranscriptEntry::User(u) => {
            let text = crate::models::content_text_of(&u.message.content, " ");
            let cs = chars_of(text.as_str());
            let short = first_chars_of(cs.as_slice(), SUMMARY_CHARS);
            (EntryKind::User, u.base.timestamp.clone(), string_of(short.as_slice()))
        },
        TranscriptEntry::Assistant(a) => {
            let text = assistant_text(&a.message.content);
            let mut out = first_chars_of(text.as_slice(), SUMMARY_CHARS);
            match &a.message.usage {
                Some(u) => {
                    push_str(&mut out, " [");
                    let d = decimal_i64(u.total_tokens() as i64);
                    push_chars(&mut out, d.as_slice());
                    push_str(&mut out, "t]");
                },
                None => {},
            }
            (EntryKind::Assistant, a.base.timestamp.clone(), string_of(out.as_slice()))
        },
        TranscriptEntry::Summary(s) => {
            let cs = chars_of(s.summary.as_str());
            let short = first_chars_of(cs.as_slice(), SUMMARY_CHARS);
            let ts = match &s.timestamp {
                Some(t) => t.clone(),
                None => String::new(),
            };
            (EntryKind::Summary, ts, string_of(short.as_slice()))
        },
        TranscriptEntry::System(s) => {
            let cs = chars_of(s.content.as_str());
            let short = first_chars_of(cs.as_slice(), SUMMARY_CHARS);
            (EntryKind::System, s.base.timestamp.clone(), string_of(short.as_slice()))
        },
        TranscriptEntry::QueueOperation(q) => {
            let name = match q.operation {
                QueueOperation::Enqueue => "Enqueue",
                QueueOperation::Dequeue => "Dequeue",
            };
            let cs = chars_of(name);
            (EntryKind::QueueOperation, q.timestamp.clone(), string_of(cs.as_slice()))
        },
        TranscriptEntry::FileHistorySnapshot(f) => {
            let ts = match &f.snapshot.timestamp {
                Some(t) => t.clone(),
                None => String::new(),
            };
            let cs = chars_of("File snapshot");
            (EntryKind::FileHistorySnapshot, ts, string_of(cs.as_slice()))
        },
    }
}

/// The list line of the entry with index `idx`.
pub open spec fn list_line_spec(entry: TranscriptEntry, idx: usize) -> (Seq<char>, EntryKind, Seq<char>, Seq<char>) {
    let (kind, ts, summary) = list_summary(entry);
    (
        pad_left(digits((idx + 1) as nat), 3) + " "@,
        kind,
        pad_left(time_short(ts), 8) + " "@,
        summary,
    )
}

/// The pieces of the list line of the entry with index `idx`.
pub fn list_line(entry: &TranscriptEntry, idx: usize) -> (r: ListLine)
    requires
        list_line_ok(*entry),
        idx < usize::MAX,
    ensures
        (r.number@, r.kind, r.time@, r.summary@) == list_line_spec(*entry, idx),
{
    let (kind, ts, summary) = list_summary_of(entry);
    let d = digits_u64((idx + 1) as u64);
    let mut number = pad_left_chars(d.as_slice(), 3);
    push_str(&mut number, " ");
    let t = time_short_of(ts.as_str());
    let tc = chars_of(t.as_str());
    let mut time = pad_left_chars(tc.as_slice(), 8);
    push_str(&mut time, " ");
    ListLine { number: string_of(number.as_slice()), kind, time: string_of(time.as_slice()), summary }
}

} // verus!
