//! The detail view of a transcript entry, as lines of styled text.
use vstd::prelude::*;
use vstd::string::StringSliceAdditionalSpecFns;
use vstd::utf8::{decode_utf8, encode_utf8, encode_utf8_valid_utf8, is_char_boundary};
use crate::models::{ContentItem, JsonValue, MessageContent, QueueOperation, TranscriptEntry, UsageInfo};
use crate::text::{
    chars_of, decimal, decimal_i64, digits, digits_u64, lemma_split_seq_nonempty, push_chars, push_str,
    split_chars, split_seq, string_of, strings_view, sub_chars, substr,
};
use crate::tui::operation_name;

verus! {

broadcast use vstd::string::group_string_axioms;

/// How a piece of detail text is drawn.
#[derive(Clone, Copy, Debug, PartialEq, Eq, Structural)]
pub enum SpanStyle {
    Plain,
    Bold,
    Dim,
    CyanBold,
    GreenBold,
    YellowBold,
    Yellow,
    MagentaBold,
}

/// A piece of detail text and how it is drawn.
#[derive(Debug)]
pub struct DetailSpan {
    pub text: String,
    pub style: SpanStyle,
}

/// A line of the detail view.
#[derive(Debug)]
pub enum DetailLine {
    /// Pieces of text, drawn one after the other.
    Spans(Vec<DetailSpan>),
    /// The debug rendering of the user message's tool use result.
    ToolUseResult,
    /// `  Content: ` and the debug rendering of the content of the tool
    /// result at this index of the message's content items.
    ToolResultContent(usize),
}

/// A line of the detail view, as plain sequences.
pub enum DetailLineView {
    Spans(Seq<(Seq<char>, SpanStyle)>),
    ToolUseResult,
    ToolResultContent(int),
}

/// The view of a span.
pub open spec fn span_view(s: DetailSpan) -> (Seq<char>, SpanStyle) {
    (s.text@, s.style)
}

/// The view of a line.
pub open spec fn line_view(l: DetailLine) -> DetailLineView {
    match l {
        DetailLine::Spans(v) => DetailLineView::Spans(v@.map_values(|s: DetailSpan| span_view(s))),
        DetailLine::ToolUseResult => DetailLineView::ToolUseResult,
        DetailLine::ToolResultContent(i) => DetailLineView::ToolResultContent(i as int),
    }
}

/// The view of lines.
pub open spec fn lines_view(v: Seq<DetailLine>) -> Seq<DetailLineView> {
    v.map_values(|l: DetailLine| line_view(l))
}

/// A line of one piece of plain text.
pub open spec fn plain(t: Seq<char>) -> DetailLineView {
    DetailLineView::Spans(seq![(t, SpanStyle::Plain)])
}

/// A line of one piece of text in a style.
pub open spec fn styled(t: Seq<char>, style: SpanStyle) -> DetailLineView {
    DetailLineView::Spans(seq![(t, style)])
}

/// A line with a bold label and a plain value.
pub open spec fn labeled(label: Seq<char>, value: Seq<char>) -> DetailLineView {
    DetailLineView::Spans(seq![(label, SpanStyle::Bold), (value, SpanStyle::Plain)])
}

/// `s` without a final carriage return.
pub open spec fn strip_cr(s: Seq<char>) -> Seq<char> {
    if s.len() > 0 && s.last() == '\r' { s.drop_last() } else { s }
}

/// The lines of a text as `str::lines` gives them: split at each `\n`, a
/// `\r` before the `\n` dropped, and no empty line after a final `\n`.
pub open spec fn text_lines(s: Seq<char>) -> Seq<Seq<char>> {
    let parts = split_seq(s, '\n');
    let n = parts.len();
    let body = Seq::new((n - 1) as nat, |k: int| strip_cr(parts[k]));
    if parts[n - 1].len() == 0 { body } else { body.push(parts[n - 1]) }
}

/// Lines of plain text.
pub open spec fn plain_lines(ls: Seq<Seq<char>>) -> Seq<DetailLineView> {
    ls.map_values(|l: Seq<char>| plain(l))
}

/// A JSON rendering cut to its first hundred bytes, with `...` after it.
pub open spec fn truncated_json(s: Seq<char>) -> Seq<char> {
    let b = encode_utf8(s);
    if b.len() > 100 { decode_utf8(b.subrange(0, 100)) + "..."@ } else { s }
}

/// The rendering of a JSON value can be cut at its hundredth byte.
pub open spec fn json_cut_ok(s: Seq<char>) -> bool {
    encode_utf8(s).len() > 100 ==> is_char_boundary(encode_utf8(s), 100)
}

/// The lines of the fields of a tool input.
pub open spec fn input_lines(input: Seq<(String, JsonValue)>) -> Seq<DetailLineView> {
    input.map_values(|f: (String, JsonValue)| plain("    "@ + f.0@ + ": "@ + truncated_json(f.1.json@)))
}

/// The lines for one content item at index `k` of its message.
pub open spec fn content_item_lines(item: ContentItem, k: int) -> Seq<DetailLineView> {
    match item {
        ContentItem::Text { text } => seq![styled("Text:"@, SpanStyle::Bold)] + plain_lines(text_lines(text@)) + seq![plain(seq![])],
        ContentItem::ToolUse { id, name, input } => seq![
            styled("Tool Use: "@ + name@, SpanStyle::CyanBold),
            DetailLineView::Spans(seq![("  ID: "@, SpanStyle::Plain), (id@, SpanStyle::Dim)]),
            plain("  Input:"@),
        ] + input_lines(input@) + seq![plain(seq![])],
        ContentItem::ToolResult { tool_use_id, content, is_error } => seq![
            styled(
                "Tool Result"@ + (if is_error == Some(true) { " [ERROR]"@ } else { seq![] }),
                SpanStyle::GreenBold,
            ),
            DetailLineView::Spans(seq![("  Tool Use ID: "@, SpanStyle::Plain), (tool_use_id@, SpanStyle::Dim)]),
            DetailLineView::ToolResultContent(k),
            plain(seq![]),
        ],
        ContentItem::Thinking { thinking, .. } => seq![styled("Thinking:"@, SpanStyle::YellowBold)]
            + text_lines(thinking@).map_values(
            |l: Seq<char>| DetailLineView::Spans(seq![("  "@, SpanStyle::Plain), (l, SpanStyle::Yellow)]),
        ) + seq![plain(seq![])],
        ContentItem::Image { source } => seq![
            styled("Image:"@, SpanStyle::MagentaBold),
            plain("  Type: "@ + source.media_type@),
            plain("  Size: "@ + digits(encode_utf8(source.data@).len()) + " bytes"@),
            plain(seq![]),
        ],
    }
}

/// The lines for the content items of a message, in order.
pub open spec fn items_lines(items: Seq<ContentItem>) -> Seq<DetailLineView>
    decreases items.len(),
{
    if items.len() == 0 {
        seq![]
    } else {
        items_lines(items.drop_last()) + content_item_lines(items.last(), items.len() - 1)
    }
}

/// The content items can be drawn: each rendering of a tool input value can
/// be cut where it is too long.
pub open spec fn items_ok(items: Seq<ContentItem>) -> bool {
    forall|k: int| 0 <= k < items.len() ==> match #[trigger] items[k] {
        ContentItem::ToolUse { input, .. } => forall|j: int| 0 <= j < input@.len() ==> json_cut_ok((#[trigger] input@[j]).1.json@),
        _ => true,
    }
}

/// An optional count line.
pub open spec fn count_line(label: Seq<char>, v: Option<i32>) -> Seq<DetailLineView> {
    match v {
        Some(n) => seq![plain(label + decimal(n as int))],
        None => seq![],
    }
}

/// The lines for token usage.
pub open spec fn usage_lines(u: UsageInfo) -> Seq<DetailLineView> {
    seq![styled("Token Usage:"@, SpanStyle::Bold)] + count_line("  Input tokens: "@, u.input_tokens) + count_line(
        "  Cache creation tokens: "@,
        u.cache_creation_input_tokens,
    ) + count_line("  Cache read tokens: "@, u.cache_read_input_tokens) + count_line(
        "  Output tokens: "@,
        u.output_tokens,
    ) + seq![
        DetailLineView::Spans(
            seq![("  Total: "@, SpanStyle::Plain), (decimal(u.total_tokens_spec()), SpanStyle::Bold)],
        ),
    ]
}

/// A line of one plain piece of text that begins with `prefix`.
pub open spec fn plain_line_starting(l: DetailLineView, prefix: Seq<char>) -> bool {
    match l {
        DetailLineView::Spans(sp) => sp.len() == 1 && sp[0].1 == SpanStyle::Plain && prefix.len() <= sp[0].0.len()
            && sp[0].0.subrange(0, prefix.len() as int) == prefix,
        _ => false,
    }
}

/// Each count line of the usage shows the count its label names: a count
/// that is there is shown after its label, and a count that is not there
/// has no line with its label. The total is shown in bold after `  Total: `.
pub proof fn law_usage_lines_show_their_counts(u: UsageInfo)
    ensures
        u.input_tokens matches Some(v) ==> usage_lines(u).contains(plain("  Input tokens: "@ + decimal(v as int))),
        u.cache_creation_input_tokens matches Some(v) ==> usage_lines(u).contains(
            plain("  Cache creation tokens: "@ + decimal(v as int)),
        ),
        u.cache_read_input_tokens matches Some(v) ==> usage_lines(u).contains(
            plain("  Cache read tokens: "@ + decimal(v as int)),
        ),
        u.output_tokens matches Some(v) ==> usage_lines(u).contains(plain("  Output tokens: "@ + decimal(v as int))),
        u.input_tokens is None ==> forall|k: int|
            0 <= k < usage_lines(u).len() ==> !plain_line_starting(#[trigger] usage_lines(u)[k], "  Input tokens: "@),
        u.cache_creation_input_tokens is None ==> forall|k: int|
            0 <= k < usage_lines(u).len() ==> !plain_line_starting(
                #[trigger] usage_lines(u)[k],
                "  Cache creation tokens: "@,
            ),
        u.cache_read_input_tokens is None ==> forall|k: int|
            0 <= k < usage_lines(u).len() ==> !plain_line_starting(#[trigger] usage_lines(u)[k], "  Cache read tokens: "@),
        u.output_tokens is None ==> forall|k: int|
            0 <= k < usage_lines(u).len() ==> !plain_line_starting(#[trigger] usage_lines(u)[k], "  Output tokens: "@),
        usage_lines(u).last() == DetailLineView::Spans(
            seq![("  Total: "@, SpanStyle::Plain), (decimal(u.total_tokens_spec()), SpanStyle::Bold)],
        ),
{
    reveal_strlit("  Input tokens: ");
    reveal_strlit("  Cache creation tokens: ");
    reveal_strlit("  Cache read tokens: ");
    reveal_strlit("  Output tokens: ");
    reveal_strlit("Token Usage:");
    let head = seq![styled("Token Usage:"@, SpanStyle::Bold)];
    let a = count_line("  Input tokens: "@, u.input_tokens);
    let b = count_line("  Cache creation tokens: "@, u.cache_creation_input_tokens);
    let c = count_line("  Cache read tokens: "@, u.cache_read_input_tokens);
    let d = count_line("  Output tokens: "@, u.output_tokens);
    let tot = seq![
        DetailLineView::Spans(
            seq![("  Total: "@, SpanStyle::Plain), (decimal(u.total_tokens_spec()), SpanStyle::Bold)],
        ),
    ];
    let all = usage_lines(u);
    assert(all == head + a + b + c + d + tot);
    let la = "  Input tokens: "@;
    let lb = "  Cache creation tokens: "@;
    let lc = "  Cache read tokens: "@;
    let ld = "  Output tokens: "@;
    // The labels differ from one another within the shortest of them.
    assert(la[2] == 'I' && lb[2] == 'C' && lc[2] == 'C' && ld[2] == 'O');
    assert(lb[8] == 'c' && lc[8] == 'r');
    let i0 = head.len() as int;
    let i1 = i0 + a.len();
    let i2 = i1 + b.len();
    let i3 = i2 + c.len();
    let i4 = i3 + d.len();
    assert forall|k: int| 0 <= k < all.len() implies
        (plain_line_starting(#[trigger] all[k], la) ==> i0 <= k < i1)
        && (plain_line_starting(all[k], lb) ==> i1 <= k < i2)
        && (plain_line_starting(all[k], lc) ==> i2 <= k < i3)
        && (plain_line_starting(all[k], ld) ==> i3 <= k < i4) by {
        if k < i0 {
            assert(all[k] == head[k]);
        } else if k < i1 {
            assert(all[k] == a[k - i0]);
            assert(a[k - i0] == plain(la + decimal(u.input_tokens->0 as int)));
            let t = la + decimal(u.input_tokens->0 as int);
            assert(t[2] == 'I' && t[8] == la[8]);
        } else if k < i2 {
            assert(all[k] == b[k - i1]);
            let t = lb + decimal(u.cache_creation_input_tokens->0 as int);
            assert(b[k - i1] == plain(t));
            assert(t[2] == 'C' && t[8] == 'c');
        } else if k < i3 {
            assert(all[k] == c[k - i2]);
            let t = lc + decimal(u.cache_read_input_tokens->0 as int);
            assert(c[k - i2] == plain(t));
            assert(t[2] == 'C' && t[8] == 'r');
        } else if k < i4 {
            assert(all[k] == d[k - i3]);
            let t = ld + decimal(u.output_tokens->0 as int);
            assert(d[k - i3] == plain(t));
            assert(t[2] == 'O');
        } else {
            assert(all[k] == tot[k - i4]);
        }
        if plain_line_starting(all[k], la) {
            let t = all[k]->Spans_0[0].0;
            assert(t.subrange(0, la.len() as int)[2] == la[2]);
            assert(t.subrange(0, la.len() as int)[8] == la[8]);
        }
        if plain_line_starting(all[k], lb) {
            let t = all[k]->Spans_0[0].0;
            assert(t.subrange(0, lb.len() as int)[2] == lb[2]);
            assert(t.subrange(0, lb.len() as int)[8] == lb[8]);
        }
        if plain_line_starting(all[k], lc) {
            let t = all[k]->Spans_0[0].0;
            assert(t.subrange(0, lc.len() as int)[2] == lc[2]);
            assert(t.subrange(0, lc.len() as int)[8] == lc[8]);
        }
        if plain_line_starting(all[k], ld) {
            let t = all[k]->Spans_0[0].0;
            assert(t.subrange(0, ld.len() as int)[2] == ld[2]);
        }
    }
    if let Some(v) = u.input_tokens {
        assert(all[i0] == a[0]);
    }
    if let Some(v) = u.cache_creation_input_tokens {
        assert(all[i1] == b[0]);
    }
    if let Some(v) = u.cache_read_input_tokens {
        assert(all[i2] == c[0]);
    }
    if let Some(v) = u.output_tokens {
        assert(all[i3] == d[0]);
    }
}

/// The detail view of an entry can be drawn: its token total stays within
/// `i32`, and the renderings of its tool inputs can be cut.
pub open spec fn detail_ok(entry: TranscriptEntry) -> bool {
    match entry {
        TranscriptEntry::User(u) => match u.message.content {
            MessageContent::Items(items) => items_ok(items@),
            MessageContent::Text(_) => true,
        },
        TranscriptEntry::Assistant(a) => items_ok(a.message.content@) && match a.message.usage {
            Some(u) => u.total_fits(),
            None => true,
        },
        _ => true,
    }
}

/// The detail view of an entry.
pub open spec fn entry_detail(entry: TranscriptEntry) -> Seq<DetailLineView> {
    match entry {
        TranscriptEntry::User(u) => seq![
            labeled("Type: "@, "User"@),
            labeled("Session: "@, u.base.session_id@),
            labeled("Timestamp: "@, u.base.timestamp@),
            plain(seq![]),
        ] + match u.message.content {
            MessageContent::Text(text) => seq![styled("Content:"@, SpanStyle::Bold)] + plain_lines(text_lines(text@)),
            MessageContent::Items(items) => items_lines(items@),
        } + match u.tool_use_result {
            Some(_) => seq![plain(seq![]), styled("Tool Result:"@, SpanStyle::Bold), DetailLineView::ToolUseResult],
            None => seq![],
        },
        TranscriptEntry::Assistant(a) => seq![
            labeled("Type: "@, "Assistant"@),
            labeled("Model: "@, a.message.model@),
            labeled("Session: "@, a.base.session_id@),
            labeled("Timestamp: "@, a.base.timestamp@),
        ] + match a.message.usage {
            Some(u) => usage_lines(u),
            None => seq![],
        } + seq![plain(seq![])] + items_lines(a.message.content@),
        TranscriptEntry::Summary(s) => seq![
            labeled("Type: "@, "Summary"@),
            plain(seq![]),
            styled("Summary:"@, SpanStyle::Bold),
        ] + plain_lines(text_lines(s.summary@)),
        TranscriptEntry::System(s) => seq![labeled("Type: "@, "System"@)] + match s.level {
            Some(level) => seq![labeled("Level: "@, level@)],
            None => seq![],
        } + seq![plain(seq![])] + plain_lines(text_lines(s.content@)),
        TranscriptEntry::QueueOperation(q) => seq![
            labeled("Type: "@, "Queue Operation"@),
            labeled("Operation: "@, operation_name(q.operation)),
            labeled("Timestamp: "@, q.timestamp@),
        ],
        TranscriptEntry::FileHistorySnapshot(f) => seq![
            labeled("Type: "@, "File History Snapshot"@),
            labeled("Message ID: "@, f.message_id@),
        ] + match f.snapshot.timestamp {
            Some(ts) => seq![labeled("Timestamp: "@, ts@)],
            None => seq![],
        },
    }
}


/// Adds a line at the end.
fn push_line(out: &mut Vec<DetailLine>, l: DetailLine)
    ensures
        lines_view(final(out)@) == lines_view(old(out)@).push(line_view(l)),
{
    let ghost before = out@;
    let ghost lv = line_view(l);
    out.push(l);
    assert(lines_view(out@) =~= lines_view(before).push(lv));
}

/// A line of one piece of text in a style.
fn styled_line(t: &str, style: SpanStyle) -> (r: DetailLine)
    ensures
        line_view(r) == styled(t@, style),
{
    let mut v: Vec<DetailSpan> = Vec::new();
    v.push(DetailSpan { text: t.to_owned(), style });
    assert(v@.map_values(|s: DetailSpan| span_view(s)) =~= seq![(t@, style)]);
    DetailLine::Spans(v)
}

/// A line of one empty piece of plain text.
fn blank_line() -> (r: DetailLine)
    ensures
        line_view(r) == plain(seq![]),
{
    let mut v: Vec<DetailSpan> = Vec::new();
    v.push(DetailSpan { text: String::new(), style: SpanStyle::Plain });
    assert(v@.map_values(|s: DetailSpan| span_view(s)) =~= seq![(Seq::<char>::empty(), SpanStyle::Plain)]);
    DetailLine::Spans(v)
}

/// A line of two pieces of text in their styles.
fn pair_line(a: &str, sa: SpanStyle, b: &str, sb: SpanStyle) -> (r: DetailLine)
    ensures
        line_view(r) == DetailLineView::Spans(seq![(a@, sa), (b@, sb)]),
{
    let mut v: Vec<DetailSpan> = Vec::new();
    v.push(DetailSpan { text: a.to_owned(), style: sa });
    v.push(DetailSpan { text: b.to_owned(), style: sb });
    assert(v@.map_values(|s: DetailSpan| span_view(s)) =~= seq![(a@, sa), (b@, sb)]);
    DetailLine::Spans(v)
}

/// The lines of a text as `str::lines` gives them.
pub fn lines_of(s: &str) -> (r: Vec<String>)
    ensures
        strings_view(r@) == text_lines(s@),
{
    let cs = chars_of(s);
    let parts = split_chars(cs.as_slice(), '\n');
    proof {
        lemma_split_seq_nonempty(s@, '\n');
    }
    let ghost pv = split_seq(s@, '\n');
    let n = parts.len();
    let mut r: Vec<String> = Vec::new();
    let mut k: usize = 0;
    while k + 1 < n
        invariant
            n == parts@.len(),
            n == pv.len(),
            n >= 1,
            k + 1 <= n,
            forall|j: int| 0 <= j < parts@.len() ==> #[trigger] parts@[j]@ == pv[j],
            strings_view(r@) == Seq::new(k as nat, |j: int| strip_cr(pv[j])),
        decreases n - k,
    {
        let part = &parts[k];
        let m = part.len();
        let line = if m > 0 && part[m - 1] == '\r' {
            sub_chars(part.as_slice(), 0, m - 1)
        } else {
            sub_chars(part.as_slice(), 0, m)
        };
        assert(line@ == strip_cr(pv[k as int]));
        let ghost before = r@;
        assert(strings_view(before).len() == k);
        assert(before.len() == k);
        r.push(string_of(line.as_slice()));
        assert(r@.len() == k + 1);
        assert forall|j: int| 0 <= j < k + 1 implies #[trigger] strings_view(r@)[j] == strip_cr(pv[j]) by {
            if j < k {
                assert(r@[j] == before[j]);
                assert(strings_view(before)[j] == Seq::new(k as nat, |j: int| strip_cr(pv[j]))[j]);
            }
        }
        assert(strings_view(r@) =~= Seq::new((k + 1) as nat, |j: int| strip_cr(pv[j])));
        k = k + 1;
    }
    let last = &parts[n - 1];
    if last.len() > 0 {
        let ghost before = r@;
        r.push(string_of(last.as_slice()));
        assert(strings_view(r@) =~= Seq::new((n - 1) as nat, |j: int| strip_cr(pv[j])).push(pv[n - 1]));
    }
    r
}

/// Adds a line of plain text for each line of `s`.
fn push_plain_lines(out: &mut Vec<DetailLine>, s: &str)
    ensures
        lines_view(final(out)@) == lines_view(old(out)@) + plain_lines(text_lines(s@)),
{
    let ls = lines_of(s);
    let ghost lv = strings_view(ls@);
    let mut k: usize = 0;
    while k < ls.len()
        invariant
            k <= ls@.len(),
            lv == strings_view(ls@),
            lines_view(out@) == lines_view(old(out)@) + plain_lines(lv.take(k as int)),
        decreases ls.len() - k,
    {
        push_line(out, styled_line(ls[k].as_str(), SpanStyle::Plain));
        assert(plain_lines(lv.take(k + 1)) =~= plain_lines(lv.take(k as int)).push(plain(lv[k as int])));
        k = k + 1;
    }
    assert(lv.take(ls@.len() as int) == lv);
}

/// Adds an indented line in yellow for each line of `s`.
fn push_thinking_lines(out: &mut Vec<DetailLine>, s: &str)
    ensures
        lines_view(final(out)@) == lines_view(old(out)@) + text_lines(s@).map_values(
            |l: Seq<char>| DetailLineView::Spans(seq![("  "@, SpanStyle::Plain), (l, SpanStyle::Yellow)]),
        ),
{
    let ls = lines_of(s);
    let ghost lv = strings_view(ls@);
    let ghost f = |l: Seq<char>| DetailLineView::Spans(seq![("  "@, SpanStyle::Plain), (l, SpanStyle::Yellow)]);
    let mut k: usize = 0;
    while k < ls.len()
        invariant
            k <= ls@.len(),
            lv == strings_view(ls@),
            f == (|l: Seq<char>| DetailLineView::Spans(seq![("  "@, SpanStyle::Plain), (l, SpanStyle::Yellow)])),
            lines_view(out@) == lines_view(old(out)@) + lv.take(k as int).map_values(f),
        decreases ls.len() - k,
    {
        push_line(out, pair_line("  ", SpanStyle::Plain, ls[k].as_str(), SpanStyle::Yellow));
        assert(lv.take(k + 1).map_values(f) =~= lv.take(k as int).map_values(f).push(f(lv[k as int])));
        k = k + 1;
    }
    assert(lv.take(ls@.len() as int) == lv);
}

/// A JSON rendering cut to its first hundred bytes.
fn truncate_json(s: &str) -> (r: String)
    requires
        json_cut_ok(s@),
    ensures
        r@ == truncated_json(s@),
{
    let b = s.as_bytes();
    if b.len() > 100 {
        proof {
            encode_utf8_valid_utf8(s@);
            vstd::utf8::is_char_boundary_start_end_of_seq(s.spec_bytes());
        }
        let head = substr(s, 0, 100);
        let mut out = chars_of(head);
        push_str(&mut out, "...");
        string_of(out.as_slice())
    } else {
        s.to_owned()
    }
}

/// Adds the lines for one content item at index `k` of its message.
fn push_item_lines(out: &mut Vec<DetailLine>, item: &ContentItem, k: usize)
    requires
        match *item {
            ContentItem::ToolUse { input, .. } => forall|j: int| 0 <= j < input@.len() ==> json_cut_ok((#[trigger] input@[j]).1.json@),
            _ => true,
        },
    ensures
        lines_view(final(out)@) == lines_view(old(out)@) + content_item_lines(*item, k as int),
{
    let ghost before = lines_view(out@);
    match item {
        ContentItem::Text { text } => {
            push_line(out, styled_line("Text:", SpanStyle::Bold));
            push_plain_lines(out, text.as_str());
            push_line(out, blank_line());
            assert(lines_view(out@) =~= before + content_item_lines(*item, k as int));
        },
        ContentItem::ToolUse { id, name, input } => {
            let mut head = chars_of("Tool Use: ");
            push_str(&mut head, name.as_str());
            let head_s = string_of(head.as_slice());
            push_line(out, styled_line(head_s.as_str(), SpanStyle::CyanBold));
            push_line(out, pair_line("  ID: ", SpanStyle::Plain, id.as_str(), SpanStyle::Dim));
            push_line(out, styled_line("  Input:", SpanStyle::Plain));
            let ghost mid = lines_view(out@);
            let mut j: usize = 0;
            while j < input.len()
                invariant
                    j <= input@.len(),
                    forall|t: int| 0 <= t < input@.len() ==> json_cut_ok((#[trigger] input@[t]).1.json@),
                    lines_view(out@) == mid + input_lines(input@.take(j as int)),
                decreases input.len() - j,
            {
                let mut line = chars_of("    ");
                push_str(&mut line, input[j].0.as_str());
                push_str(&mut line, ": ");
                let v = truncate_json(input[j].1.json.as_str());
                push_str(&mut line, v.as_str());
                let ls = string_of(line.as_slice());
                push_line(out, styled_line(ls.as_str(), SpanStyle::Plain));
                assert(input_lines(input@.take(j + 1)) =~= input_lines(input@.take(j as int)).push(
                    plain("    "@ + input@[j as int].0@ + ": "@ + truncated_json(input@[j as int].1.json@)),
                ));
                j = j + 1;
            }
            assert(input@.take(input@.len() as int) == input@);
            push_line(out, blank_line());
            assert(lines_view(out@) =~= before + content_item_lines(*item, k as int));
        },
        ContentItem::ToolResult { tool_use_id, content, is_error } => {
            let mut head = chars_of("Tool Result");
            let err = match is_error {
                Some(b) => *b,
                None => false,
            };
            if err {
                push_str(&mut head, " [ERROR]");
            }
            let head_s = string_of(head.as_slice());
            push_line(out, styled_line(head_s.as_str(), SpanStyle::GreenBold));
            push_line(out, pair_line("  Tool Use ID: ", SpanStyle::Plain, tool_use_id.as_str(), SpanStyle::Dim));
            push_line(out, DetailLine::ToolResultContent(k));
            push_line(out, blank_line());
            assert(lines_view(out@) =~= before + content_item_lines(*item, k as int));
        },
        ContentItem::Thinking { thinking, .. } => {
            push_line(out, styled_line("Thinking:", SpanStyle::YellowBold));
            push_thinking_lines(out, thinking.as_str());
            push_line(out, blank_line());
            assert(lines_view(out@) =~= before + content_item_lines(*item, k as int));
        },
        ContentItem::Image { source } => {
            push_line(out, styled_line("Image:", SpanStyle::MagentaBold));
            let mut t = chars_of("  Type: ");
            push_str(&mut t, source.media_type.as_str());
            let ts = string_of(t.as_slice());
            push_line(out, styled_line(ts.as_str(), SpanStyle::Plain));
            let mut z = chars_of("  Size: ");
            let n = source.data.as_str().as_bytes().len();
            let d = digits_u64(n as u64);
            push_chars(&mut z, d.as_slice());
            push_str(&mut z, " bytes");
            let zs = string_of(z.as_slice());
            push_line(out, styled_line(zs.as_str(), SpanStyle::Plain));
            push_line(out, blank_line());
            assert(lines_view(out@) =~= before + content_item_lines(*item, k as int));
        },
    }
}

/// Adds the lines for the content items of a message.
fn push_items_lines(out: &mut Vec<DetailLine>, items: &Vec<ContentItem>)
    requires
        items_ok(items@),
    ensures
        lines_view(final(out)@) == lines_view(old(out)@) + items_lines(items@),
{
    let mut k: usize = 0;
    while k < items.len()
        invariant
            k <= items@.len(),
            items_ok(items@),
            lines_view(out@) == lines_view(old(out)@) + items_lines(items@.take(k as int)),
        decreases items.len() - k,
    {
        let ghost before = lines_view(out@);
        assert(match items@[k as int] {
            ContentItem::ToolUse { input, .. } => forall|j: int| 0 <= j < input@.len() ==> json_cut_ok((#[trigger] input@[j]).1.json@),
            _ => true,
        });
        push_item_lines(out, &items[k], k);
        assert(items@.take(k + 1).drop_last() =~= items@.take(k as int));
        assert(lines_view(out@) =~= lines_view(old(out)@) + items_lines(items@.take(k + 1)));
        k = k + 1;
    }
    assert(items@.take(items@.len() as int) == items@);
}

/// Adds an optional count line.
fn push_count_line(out: &mut Vec<DetailLine>, label: &str, v: Option<i32>)
    ensures
        lines_view(final(out)@) == lines_view(old(out)@) + count_line(label@, v),
{
    match v {
        Some(n) => {
            let mut t = chars_of(label);
            let d = decimal_i64(n as i64);
            push_chars(&mut t, d.as_slice());
            let ts = string_of(t.as_slice());
            push_line(out, styled_line(ts.as_str(), SpanStyle::Plain));
        },
        None => {
            assert(lines_view(out@) + count_line(label@, v) =~= lines_view(out@));
        },
    }
}

/// Adds the lines for token usage.
fn push_usage_lines(out: &mut Vec<DetailLine>, u: &UsageInfo)
    requires
        u.total_fits(),
    ensures
        lines_view(final(out)@) == lines_view(old(out)@) + usage_lines(*u),
{
    let ghost before = lines_view(out@);
    push_line(out, styled_line("Token Usage:", SpanStyle::Bold));
    push_count_line(out, "  Input tokens: ", u.input_tokens);
    push_count_line(out, "  Cache creation tokens: ", u.cache_creation_input_tokens);
    push_count_line(out, "  Cache read tokens: ", u.cache_read_input_tokens);
    push_count_line(out, "  Output tokens: ", u.output_tokens);
    let d = decimal_i64(u.total_tokens() as i64);
    let ds = string_of(d.as_slice());
    push_line(out, pair_line("  Total: ", SpanStyle::Plain, ds.as_str(), SpanStyle::Bold));
    assert(lines_view(out@) =~= before + usage_lines(*u));
}

/// Whether a JSON rendering can be cut to its first hundred bytes.
fn json_cut_ok_exec(s: &str) -> (r: bool)
    ensures
        r == json_cut_ok(s@),
{
    proof {
        encode_utf8_valid_utf8(s@);
    }
    s.as_bytes().len() <= 100 || s.is_char_boundary(100)
}

/// Whether every tool input of one item can be cut for display.
#[verifier::loop_isolation(false)]
fn item_ok_exec(item: &ContentItem) -> (r: bool)
    ensures
        r == match *item {
            ContentItem::ToolUse { input, .. } => forall|j: int| 0 <= j < input@.len() ==> json_cut_ok((#[trigger] input@[j]).1.json@),
            _ => true,
        },
{
    match item {
        ContentItem::ToolUse { input, .. } => {
            let mut j: usize = 0;
            while j < input.len()
                invariant
                    j <= input@.len(),
                    forall|t: int| 0 <= t < j ==> json_cut_ok((#[trigger] input@[t]).1.json@),
                decreases input.len() - j,
            {
                if !json_cut_ok_exec(input[j].1.json.as_str()) {
                    assert(!json_cut_ok(input@[j as int].1.json@));
                    return false;
                }
                j = j + 1;
            }
            true
        },
        _ => true,
    }
}

/// Whether every tool input of the items can be cut for display.
fn items_ok_exec(items: &Vec<ContentItem>) -> (r: bool)
    ensures
        r == items_ok(items@),
{
    let mut k: usize = 0;
    while k < items.len()
        invariant
            k <= items@.len(),
            forall|t: int| 0 <= t < k ==> match #[trigger] items@[t] {
                ContentItem::ToolUse { input, .. } => forall|j: int| 0 <= j < input@.len() ==> json_cut_ok((#[trigger] input@[j]).1.json@),
                _ => true,
            },
        decreases items.len() - k,
    {
        if !item_ok_exec(&items[k]) {
            return false;
        }
        k = k + 1;
    }
    true
}

/// Whether `format_entry_detail` can show an entry: every tool input can be
/// cut for display, and its token total fits in `i32`.
pub fn can_format_detail(entry: &TranscriptEntry) -> (r: bool)
    ensures
        r == detail_ok(*entry),
{
    match entry {
        TranscriptEntry::User(u) => match &u.message.content {
            MessageContent::Items(items) => items_ok_exec(items),
            MessageContent::Text(_) => true,
        },
        TranscriptEntry::Assistant(a) => items_ok_exec(&a.message.content) && match &a.message.usage {
            Some(u) => u.total_fits_exec(),
            None => true,
        },
        _ => true,
    }
}

/// The detail view of an entry, line by line.
pub fn format_entry_detail(entry: &TranscriptEntry) -> (r: Vec<DetailLine>)
    requires
        detail_ok(*entry),
    ensures
        lines_view(r@) == entry_detail(*entry),
{
    let mut out: Vec<DetailLine> = Vec::new();
    match entry {
        TranscriptEntry::User(u) => {
            push_line(&mut out, pair_line("Type: ", SpanStyle::Bold, "User", SpanStyle::Plain));
            push_line(&mut out, pair_line("Session: ", SpanStyle::Bold, u.base.session_id.as_str(), SpanStyle::Plain));
            push_line(&mut out, pair_line("Timestamp: ", SpanStyle::Bold, u.base.timestamp.as_str(), SpanStyle::Plain));
            push_line(&mut out, blank_line());
            let ghost a = lines_view(out@);
            match &u.message.content {
                MessageContent::Text(text) => {
                    push_line(&mut out, styled_line("Content:", SpanStyle::Bold));
                    push_plain_lines(&mut out, text.as_str());
                },
                MessageContent::Items(items) => {
                    push_items_lines(&mut out, items);
                },
            }
            let ghost b = lines_view(out@);
            match &u.tool_use_result {
                Some(_) => {
                    push_line(&mut out, blank_line());
                    push_line(&mut out, styled_line("Tool Result:", SpanStyle::Bold));
                    push_line(&mut out, DetailLine::ToolUseResult);
                },
                None => {},
            }
            assert(lines_view(out@) =~= entry_detail(*entry));
        },
        TranscriptEntry::Assistant(a) => {
            push_line(&mut out, pair_line("Type: ", SpanStyle::Bold, "Assistant", SpanStyle::Plain));
            push_line(&mut out, pair_line("Model: ", SpanStyle::Bold, a.message.model.as_str(), SpanStyle::Plain));
            push_line(&mut out, pair_line("Session: ", SpanStyle::Bold, a.base.session_id.as_str(), SpanStyle::Plain));
            push_line(&mut out, pair_line("Timestamp: ", SpanStyle::Bold, a.base.timestamp.as_str(), SpanStyle::Plain));
            match &a.message.usage {
                Some(u) => {
                    push_usage_lines(&mut out, u);
                },
                None => {},
            }
            push_line(&mut out, blank_line());
            push_items_lines(&mut out, &a.message.content);
            assert(lines_view(out@) =~= entry_detail(*entry));
        },
        TranscriptEntry::Summary(s) => {
            push_line(&mut out, pair_line("Type: ", SpanStyle::Bold, "Summary", SpanStyle::Plain));
            push_line(&mut out, blank_line());
            push_line(&mut out, styled_line("Summary:", SpanStyle::Bold));
            push_plain_lines(&mut out, s.summary.as_str());
            assert(lines_view(out@) =~= entry_detail(*entry));
        },
        TranscriptEntry::System(s) => {
            push_line(&mut out, pair_line("Type: ", SpanStyle::Bold, "System", SpanStyle::Plain));
            match &s.level {
                Some(level) => {
                    push_line(&mut out, pair_line("Level: ", SpanStyle::Bold, level.as_str(), SpanStyle::Plain));
                },
                None => {},
            }
            push_line(&mut out, blank_line());
            push_plain_lines(&mut out, s.content.as_str());
            assert(lines_view(out@) =~= entry_detail(*entry));
        },
        TranscriptEntry::QueueOperation(q) => {
            let name = match q.operation {
                QueueOperation::Enqueue => "Enqueue",
                QueueOperation::Dequeue => "Dequeue",
            };
            push_line(&mut out, pair_line("Type: ", SpanStyle::Bold, "Queue Operation", SpanStyle::Plain));
            push_line(&mut out, pair_line("Operation: ", SpanStyle::Bold, name, SpanStyle::Plain));
            push_line(&mut out, pair_line("Timestamp: ", SpanStyle::Bold, q.timestamp.as_str(), SpanStyle::Plain));
            assert(lines_view(out@) =~= entry_detail(*entry));
        },
        TranscriptEntry::FileHistorySnapshot(f) => {
            push_line(&mut out, pair_line("Type: ", SpanStyle::Bold, "File History Snapshot", SpanStyle::Plain));
            push_line(&mut out, pair_line("Message ID: ", SpanStyle::Bold, f.message_id.as_str(), SpanStyle::Plain));
            match &f.snapshot.timestamp {
                Some(ts) => {
                    push_line(&mut out, pair_line("Timestamp: ", SpanStyle::Bold, ts.as_str(), SpanStyle::Plain));
                },
                None => {},
            }
            assert(lines_view(out@) =~= entry_detail(*entry));
        },
    }
    out
}

} // verus!
