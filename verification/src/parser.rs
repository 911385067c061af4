//! Assembling transcripts from parsed lines: ordering by timestamp and
//! reporting the lines that did not parse.
use vstd::prelude::*;
use vstd::string::StringSliceAdditionalSpecFns;
use vstd::utf8::encode_utf8;
use crate::models::TranscriptEntry;
use crate::text::{chars_of, digits, digits_u64, push_chars, push_str, string_of, trim, trim_chars};

verus! {

broadcast use vstd::string::group_string_axioms;

/// `a` comes before `b` in the byte order of strings.
pub open spec fn bytes_lt(a: Seq<u8>, b: Seq<u8>) -> bool
    decreases a.len(),
{
    if a.len() == 0 {
        b.len() > 0
    } else if b.len() == 0 {
        false
    } else if a[0] < b[0] {
        true
    } else if a[0] > b[0] {
        false
    } else {
        bytes_lt(a.drop_first(), b.drop_first())
    }
}

/// An entry with timestamp `a` sorts strictly before one with timestamp `b`:
/// timestamps in string order, entries without one last.
pub open spec fn timestamp_before(a: Option<Seq<char>>, b: Option<Seq<char>>) -> bool {
    match (a, b) {
        (Some(x), Some(y)) => bytes_lt(encode_utf8(x), encode_utf8(y)),
        (Some(_), None) => true,
        _ => false,
    }
}

/// Where an entry goes among sorted entries so that it follows every entry
/// that does not sort after it.
pub open spec fn timestamp_insert_pos(s: Seq<TranscriptEntry>, e: TranscriptEntry) -> int
    decreases s.len(),
{
    if s.len() == 0 {
        0
    } else if timestamp_before(e.timestamp_view(), s[0].timestamp_view()) {
        0
    } else {
        1 + timestamp_insert_pos(s.drop_first(), e)
    }
}

/// Entries sorted by timestamp, stably, as `sort_by` with the timestamp
/// comparison orders them.
pub open spec fn sort_by_timestamp_spec(s: Seq<TranscriptEntry>) -> Seq<TranscriptEntry>
    decreases s.len(),
{
    if s.len() == 0 {
        seq![]
    } else {
        let done = sort_by_timestamp_spec(s.drop_last());
        done.insert(timestamp_insert_pos(done, s.last()), s.last())
    }
}

proof fn lemma_bytes_lt_step(a: Seq<u8>, b: Seq<u8>, i: int)
    requires
        0 <= i <= a.len(),
        i <= b.len(),
        a.subrange(0, i) == b.subrange(0, i),
    ensures
        bytes_lt(a, b) == bytes_lt(a.subrange(i, a.len() as int), b.subrange(i, b.len() as int)),
    decreases i,
{
    if i > 0 {
        assert(a[0] == a.subrange(0, i)[0]);
        assert(b[0] == b.subrange(0, i)[0]);
        assert(a.drop_first().subrange(0, i - 1) == a.subrange(0, i).drop_first());
        assert(b.drop_first().subrange(0, i - 1) == b.subrange(0, i).drop_first());
        lemma_bytes_lt_step(a.drop_first(), b.drop_first(), i - 1);
        assert(a.drop_first().subrange(i - 1, a.drop_first().len() as int) == a.subrange(i, a.len() as int));
        assert(b.drop_first().subrange(i - 1, b.drop_first().len() as int) == b.subrange(i, b.len() as int));
    } else {
        assert(a.subrange(0, a.len() as int) == a);
        assert(b.subrange(0, b.len() as int) == b);
    }
}

/// Whether string `a` comes before string `b` in byte order.
pub fn str_lt(a: &str, b: &str) -> (r: bool)
    ensures
        r == bytes_lt(a.spec_bytes(), b.spec_bytes()),
{
    let x = a.as_bytes();
    let y = b.as_bytes();
    let mut i: usize = 0;
    while i < x.len() && i < y.len() && x[i] == y[i]
        invariant
            i <= x@.len(),
            i <= y@.len(),
            x@ == a.spec_bytes(),
            y@ == b.spec_bytes(),
            x@.subrange(0, i as int) == y@.subrange(0, i as int),
        decreases x.len() - i,
    {
        assert(x@.subrange(0, i + 1) == x@.subrange(0, i as int).push(x@[i as int]));
        assert(y@.subrange(0, i + 1) == y@.subrange(0, i as int).push(y@[i as int]));
        i = i + 1;
    }
    proof {
        lemma_bytes_lt_step(x@, y@, i as int);
        let xs = x@.subrange(i as int, x@.len() as int);
        let ys = y@.subrange(i as int, y@.len() as int);
        if i < x@.len() {
            assert(xs[0] == x@[i as int]);
        }
        if i < y@.len() {
            assert(ys[0] == y@[i as int]);
        }
    }
    if i == x.len() {
        i < y.len()
    } else if i == y.len() {
        false
    } else {
        x[i] < y[i]
    }
}

/// Whether entry `a` sorts strictly before entry `b`.
pub fn entry_before(a: &TranscriptEntry, b: &TranscriptEntry) -> (r: bool)
    ensures
        r == timestamp_before(a.timestamp_view(), b.timestamp_view()),
{
    match (a.timestamp(), b.timestamp()) {
        (Some(x), Some(y)) => str_lt(x, y),
        (Some(_), None) => true,
        _ => false,
    }
}

proof fn lemma_timestamp_insert_pos_skip(s: Seq<TranscriptEntry>, e: TranscriptEntry, j: int)
    requires
        0 <= j < s.len(),
        !timestamp_before(e.timestamp_view(), s[j].timestamp_view()),
    ensures
        timestamp_insert_pos(s.subrange(j, s.len() as int), e) == 1 + timestamp_insert_pos(
            s.subrange(j + 1, s.len() as int),
            e,
        ),
{
    assert(s.subrange(j, s.len() as int).drop_first() == s.subrange(j + 1, s.len() as int));
}

proof fn lemma_bytes_lt_irreflexive(a: Seq<u8>)
    ensures
        !bytes_lt(a, a),
    decreases a.len(),
{
    if a.len() > 0 {
        lemma_bytes_lt_irreflexive(a.drop_first());
    }
}

proof fn lemma_bytes_lt_transitive(a: Seq<u8>, b: Seq<u8>, c: Seq<u8>)
    requires
        bytes_lt(a, b),
        bytes_lt(b, c),
    ensures
        bytes_lt(a, c),
    decreases a.len(),
{
    if a.len() > 0 && a[0] == b[0] && b[0] == c[0] {
        lemma_bytes_lt_transitive(a.drop_first(), b.drop_first(), c.drop_first());
    }
}

proof fn lemma_timestamp_before_order(a: Option<Seq<char>>, b: Option<Seq<char>>, c: Option<Seq<char>>)
    ensures
        !timestamp_before(a, a),
        timestamp_before(a, b) && timestamp_before(b, c) ==> timestamp_before(a, c),
{
    if let Some(x) = a {
        lemma_bytes_lt_irreflexive(encode_utf8(x));
        if let (Some(y), Some(z)) = (b, c) {
            if timestamp_before(a, b) && timestamp_before(b, c) {
                lemma_bytes_lt_transitive(encode_utf8(x), encode_utf8(y), encode_utf8(z));
            }
        }
    }
}

proof fn lemma_timestamp_insert_pos_bounds(s: Seq<TranscriptEntry>, e: TranscriptEntry)
    ensures
        0 <= timestamp_insert_pos(s, e) <= s.len(),
        forall|i: int|
            0 <= i < timestamp_insert_pos(s, e) ==> !timestamp_before(
                e.timestamp_view(),
                #[trigger] s[i].timestamp_view(),
            ),
        timestamp_insert_pos(s, e) < s.len() ==> timestamp_before(
            e.timestamp_view(),
            s[timestamp_insert_pos(s, e)].timestamp_view(),
        ),
    decreases s.len(),
{
    if s.len() > 0 && !timestamp_before(e.timestamp_view(), s[0].timestamp_view()) {
        lemma_timestamp_insert_pos_bounds(s.drop_first(), e);
        assert forall|i: int| 0 <= i < timestamp_insert_pos(s, e) implies !timestamp_before(
            e.timestamp_view(),
            #[trigger] s[i].timestamp_view(),
        ) by {
            if i > 0 {
                assert(s[i] == s.drop_first()[i - 1]);
            }
        }
    }
}

/// No entry sorts strictly before an entry that precedes it.
pub open spec fn is_sorted_by_timestamp(s: Seq<TranscriptEntry>) -> bool {
    forall|i: int, j: int|
        0 <= i <= j < s.len() ==> !timestamp_before(
            #[trigger] s[j].timestamp_view(),
            #[trigger] s[i].timestamp_view(),
        )
}

/// Sorting by timestamp keeps every entry and leaves no entry after one
/// that it sorts before: timestamps ascend, and entries without one come last.
pub proof fn law_sort_by_timestamp_orders(s: Seq<TranscriptEntry>)
    ensures
        sort_by_timestamp_spec(s).len() == s.len(),
        sort_by_timestamp_spec(s).to_multiset() == s.to_multiset(),
        is_sorted_by_timestamp(sort_by_timestamp_spec(s)),
    decreases s.len(),
{
    broadcast use vstd::seq_lib::group_seq_properties;

    if s.len() > 0 {
        let done = sort_by_timestamp_spec(s.drop_last());
        let x = s.last();
        law_sort_by_timestamp_orders(s.drop_last());
        let p = timestamp_insert_pos(done, x);
        lemma_timestamp_insert_pos_bounds(done, x);
        let r = done.insert(p, x);
        done.insert_ensures(p, x);
        assert forall|i: int, j: int| 0 <= i <= j < r.len() implies !timestamp_before(
            #[trigger] r[j].timestamp_view(),
            #[trigger] r[i].timestamp_view(),
        ) by {
            lemma_timestamp_before_order(r[j].timestamp_view(), r[i].timestamp_view(), r[i].timestamp_view());
            if j < p {
                assert(r[j] == done[j]);
                assert(r[i] == done[i]);
            } else if j == p {
                if i < p {
                    assert(r[i] == done[i]);
                }
            } else if i < p {
                assert(r[j] == done[j - 1]);
                assert(r[i] == done[i]);
            } else if i == p {
                assert(r[j] == done[j - 1]);
                lemma_timestamp_before_order(
                    done[j - 1].timestamp_view(),
                    x.timestamp_view(),
                    done[p].timestamp_view(),
                );
                lemma_timestamp_before_order(
                    done[p].timestamp_view(),
                    x.timestamp_view(),
                    done[p].timestamp_view(),
                );
            } else {
                assert(r[j] == done[j - 1]);
                assert(r[i] == done[i - 1]);
            }
        }
        assert(r.remove(p) =~= done);
        assert(r.to_multiset().remove(x) =~= done.to_multiset());
        assert(s.drop_last().push(x) =~= s);
        assert(r.to_multiset() =~= done.to_multiset().insert(x));
    }
}

/// Sort entries by timestamp; entries without a timestamp go last, and
/// entries that compare equal keep their order.
pub fn sort_by_timestamp(entries: Vec<TranscriptEntry>) -> (r: Vec<TranscriptEntry>)
    ensures
        r@ == sort_by_timestamp_spec(entries@),
{
    let ghost orig = entries@;
    let mut rest = entries;
    let mut r: Vec<TranscriptEntry> = Vec::new();
    let ghost mut k: int = 0;
    while rest.len() > 0
        invariant
            0 <= k,
            k + rest@.len() == orig.len(),
            rest@ == orig.subrange(k, orig.len() as int),
            r@ == sort_by_timestamp_spec(orig.subrange(0, k)),
        decreases rest@.len(),
    {
        let x = rest.remove(0);
        let mut j: usize = 0;
        assert(r@.subrange(0, r@.len() as int) == r@);
        while j < r.len() && !entry_before(&x, &r[j])
            invariant
                j <= r@.len(),
                timestamp_insert_pos(r@, x) == j + timestamp_insert_pos(
                    r@.subrange(j as int, r@.len() as int),
                    x,
                ),
            decreases r.len() - j,
        {
            proof {
                lemma_timestamp_insert_pos_skip(r@, x, j as int);
            }
            j = j + 1;
        }
        proof {
            if j < r@.len() {
                assert(r@.subrange(j as int, r@.len() as int)[0] == r@[j as int]);
            }
            assert(timestamp_insert_pos(r@.subrange(j as int, r@.len() as int), x) == 0);
            assert(orig.subrange(0, k + 1).drop_last() == orig.subrange(0, k));
            assert(orig.subrange(0, k + 1).last() == x);
        }
        r.insert(j, x);
        proof {
            k = k + 1;
        }
    }
    assert(orig.subrange(0, orig.len() as int) == orig);
    r
}

/// The entries of several transcripts, one after the other.
pub open spec fn concat_entries(parts: Seq<Vec<TranscriptEntry>>) -> Seq<TranscriptEntry>
    decreases parts.len(),
{
    if parts.len() == 0 {
        seq![]
    } else {
        concat_entries(parts.drop_last()) + parts.last()@
    }
}

/// All entries of several transcripts, sorted by timestamp.
pub fn combine_transcripts(parts: Vec<Vec<TranscriptEntry>>) -> (r: Vec<TranscriptEntry>)
    ensures
        r@ == sort_by_timestamp_spec(concat_entries(parts@)),
{
    let ghost orig = parts@;
    let mut rest = parts;
    let mut all: Vec<TranscriptEntry> = Vec::new();
    let ghost mut k: int = 0;
    while rest.len() > 0
        invariant
            0 <= k,
            k + rest@.len() == orig.len(),
            rest@ == orig.subrange(k, orig.len() as int),
            all@ == concat_entries(orig.subrange(0, k)),
        decreases rest@.len(),
    {
        let mut part = rest.remove(0);
        let ghost pv = part@;
        all.append(&mut part);
        proof {
            assert(orig.subrange(0, k + 1).drop_last() == orig.subrange(0, k));
            assert(orig.subrange(0, k + 1).last()@ == pv);
            k = k + 1;
        }
    }
    assert(orig.subrange(0, orig.len() as int) == orig);
    sort_by_timestamp(all)
}

/// A line is blank when nothing but white space is on it.
pub fn is_blank_line(line: &str) -> (r: bool)
    ensures
        r == (trim(line@).len() == 0),
{
    let cs = chars_of(line);
    let t = trim_chars(cs.as_slice());
    t.len() == 0
}

/// What became of one non-blank line of a transcript file.
#[derive(Debug)]
pub enum LineOutcome {
    /// The line holds this entry.
    Parsed(TranscriptEntry),
    /// The line, numbered from one, did not parse; the parser said why.
    Failed { line_number: usize, message: String },
}

/// The decimal digits of a count.
pub open spec fn count_text(n: usize) -> Seq<char> {
    digits(n as nat)
}

/// The decimal digits of a count.
pub fn count_chars(n: usize) -> (r: Vec<char>)
    ensures
        r@ == count_text(n),
{
    digits_u64(n as u64)
}

/// The message for a line that did not parse.
pub open spec fn parse_error_text(line_number: usize, message: Seq<char>) -> Seq<char> {
    "Line "@ + count_text(line_number) + ": Parse error: "@ + message
}

/// The entries of the parsed lines, in order.
pub open spec fn parsed_entries(outcomes: Seq<LineOutcome>) -> Seq<TranscriptEntry>
    decreases outcomes.len(),
{
    if outcomes.len() == 0 {
        seq![]
    } else {
        let prev = parsed_entries(outcomes.drop_last());
        match outcomes.last() {
            LineOutcome::Parsed(e) => prev.push(e),
            _ => prev,
        }
    }
}

/// The messages for the lines that did not parse, in order.
pub open spec fn failed_messages(outcomes: Seq<LineOutcome>) -> Seq<Seq<char>>
    decreases outcomes.len(),
{
    if outcomes.len() == 0 {
        seq![]
    } else {
        let prev = failed_messages(outcomes.drop_last());
        match outcomes.last() {
            LineOutcome::Failed { line_number, message } => prev.push(parse_error_text(line_number, message@)),
            _ => prev,
        }
    }
}

/// Every non-blank line of a transcript ends up either as an entry or as a
/// parse error, never both and never neither.
pub proof fn law_every_line_accounted(outcomes: Seq<LineOutcome>)
    ensures
        sort_by_timestamp_spec(parsed_entries(outcomes)).len() + failed_messages(outcomes).len()
            == outcomes.len(),
    decreases outcomes.len(),
{
    law_sort_by_timestamp_orders(parsed_entries(outcomes));
    if outcomes.len() > 0 {
        law_every_line_accounted(outcomes.drop_last());
        law_sort_by_timestamp_orders(parsed_entries(outcomes.drop_last()));
    }
}

/// A transcript assembled from its lines.
#[derive(Debug)]
pub struct LoadedTranscript {
    /// The entries, sorted by timestamp.
    pub entries: Vec<TranscriptEntry>,
    /// A message for each line that did not parse, in line order.
    pub errors: Vec<String>,
}

/// Assembles a transcript from the outcomes of its non-blank lines: the
/// entries sorted by timestamp, and a message for each line that did not parse.
pub fn collect_transcript(outcomes: Vec<LineOutcome>) -> (r: LoadedTranscript)
    ensures
        r.entries@ == sort_by_timestamp_spec(parsed_entries(outcomes@)),
        r.errors@.map_values(|s: String| s@) == failed_messages(outcomes@),
{
    let ghost orig = outcomes@;
    let mut rest = outcomes;
    let mut entries: Vec<TranscriptEntry> = Vec::new();
    let mut errors: Vec<String> = Vec::new();
    let ghost mut k: int = 0;
    while rest.len() > 0
        invariant
            0 <= k,
            k + rest@.len() == orig.len(),
            rest@ == orig.subrange(k, orig.len() as int),
            entries@ == parsed_entries(orig.subrange(0, k)),
            errors@.map_values(|s: String| s@) == failed_messages(orig.subrange(0, k)),
        decreases rest@.len(),
    {
        let item = rest.remove(0);
        proof {
            assert(orig.subrange(0, k + 1).drop_last() == orig.subrange(0, k));
            assert(orig.subrange(0, k + 1).last() == item);
        }
        match item {
            LineOutcome::Parsed(e) => {
                entries.push(e);
            },
            LineOutcome::Failed { line_number, message } => {
                let mut m: Vec<char> = Vec::new();
                push_str(&mut m, "Line ");
                let d = count_chars(line_number);
                push_chars(&mut m, d.as_slice());
                push_str(&mut m, ": Parse error: ");
                push_str(&mut m, message.as_str());
                let ghost before = errors@;
                errors.push(string_of(m.as_slice()));
                proof {
                    assert(errors@.map_values(|s: String| s@) =~= before.map_values(|s: String| s@).push(
                        parse_error_text(line_number, message@),
                    ));
                }
            },
        }
        proof {
            k = k + 1;
        }
    }
    assert(orig.subrange(0, orig.len() as int) == orig);
    LoadedTranscript { entries: sort_by_timestamp(entries), errors }
}

/// How many parse errors a report lists before it sums up the rest.
pub const REPORTED_ERRORS: usize = 10;

/// The lines that report parse errors of a file: a heading, the first ten
/// errors, and a count of the others; nothing when there are none.
pub open spec fn error_report(errors: Seq<Seq<char>>, path: Seq<char>) -> Seq<Seq<char>> {
    if errors.len() == 0 {
        seq![]
    } else {
        let shown = if errors.len() < REPORTED_ERRORS { errors.len() as int } else { REPORTED_ERRORS as int };
        let head = seq!["Encountered "@ + count_text(errors.len() as usize) + " parse errors in "@ + path + ":"@];
        let listed = errors.take(shown).map_values(|e: Seq<char>| "  "@ + e);
        if errors.len() > REPORTED_ERRORS {
            head + listed + seq!["  ... and "@ + count_text((errors.len() - REPORTED_ERRORS) as usize) + " more errors"@]
        } else {
            head + listed
        }
    }
}

/// A report lists no more than the first ten errors: it is empty without
/// errors, and otherwise a heading, the errors shown and, past ten, one
/// line for the rest.
pub proof fn law_error_report_length(errors: Seq<Seq<char>>, path: Seq<char>)
    ensures
        error_report(errors, path).len() == if errors.len() == 0 {
            0int
        } else if errors.len() <= REPORTED_ERRORS {
            errors.len() + 1int
        } else {
            REPORTED_ERRORS + 2int
        },
{
}

/// The lines that report the parse errors of the file at `path`.
pub fn parse_error_report(errors: &Vec<String>, path: &str) -> (r: Vec<String>)
    ensures
        r@.map_values(|s: String| s@) == error_report(errors@.map_values(|s: String| s@), path@),
{
    let ghost ev = errors@.map_values(|s: String| s@);
    let mut out: Vec<String> = Vec::new();
    if errors.len() == 0 {
        assert(out@.map_values(|s: String| s@) =~= error_report(ev, path@));
        return out;
    }
    let mut head: Vec<char> = Vec::new();
    push_str(&mut head, "Encountered ");
    let d = count_chars(errors.len());
    push_chars(&mut head, d.as_slice());
    push_str(&mut head, " parse errors in ");
    push_str(&mut head, path);
    push_str(&mut head, ":");
    out.push(string_of(head.as_slice()));
    let shown = if errors.len() < REPORTED_ERRORS { errors.len() } else { REPORTED_ERRORS };
    let ghost head_view = seq!["Encountered "@ + count_text(errors.len()) + " parse errors in "@ + path@ + ":"@];
    assert(out@.map_values(|s: String| s@) =~= head_view);
    let mut i: usize = 0;
    while i < shown
        invariant
            i <= shown <= errors@.len(),
            ev == errors@.map_values(|s: String| s@),
            out@.map_values(|s: String| s@) == head_view + ev.take(i as int).map_values(|e: Seq<char>| "  "@ + e),
        decreases shown - i,
    {
        let mut line: Vec<char> = Vec::new();
        push_str(&mut line, "  ");
        push_str(&mut line, errors[i].as_str());
        let ghost before = out@;
        out.push(string_of(line.as_slice()));
        proof {
            assert(ev.take(i + 1).map_values(|e: Seq<char>| "  "@ + e) =~= ev.take(i as int).map_values(
                |e: Seq<char>| "  "@ + e,
            ).push("  "@ + ev[i as int]));
            assert(out@.map_values(|s: String| s@) =~= before.map_values(|s: String| s@).push("  "@ + ev[i as int]));
        }
        i = i + 1;
    }
    if errors.len() > REPORTED_ERRORS {
        let mut tail: Vec<char> = Vec::new();
        push_str(&mut tail, "  ... and ");
        let d = count_chars(errors.len() - REPORTED_ERRORS);
        push_chars(&mut tail, d.as_slice());
        push_str(&mut tail, " more errors");
        let ghost before = out@;
        out.push(string_of(tail.as_slice()));
        proof {
            assert(out@.map_values(|s: String| s@) =~= before.map_values(|s: String| s@).push(
                "  ... and "@ + count_text((errors.len() - REPORTED_ERRORS) as usize) + " more errors"@,
            ));
        }
    }
    assert(out@.map_values(|s: String| s@) =~= error_report(ev, path@));
    out
}


/// The extension of the file a path names, as `Path::extension` finds it.
pub uninterp spec fn path_extension(path: Seq<char>) -> Option<Seq<char>>;

/// `std::path::Path::extension` of `path`, as a string: the part of the
/// file name after its last `.`, if the name has one not at its start.
/// The outcome is named by `path_extension`.
#[verifier::external_body]
fn extension_of(path: &str) -> (r: Option<String>)
    ensures
        match r {
            Some(e) => path_extension(path@) == Some(e@),
            None => path_extension(path@) is None,
        },
{
    std::path::Path::new(path).extension().and_then(|e| e.to_str()).map(|e| e.to_string())
}

/// Whether a path names a JSONL transcript file.
pub fn is_jsonl_path(path: &str) -> (r: bool)
    ensures
        r == (path_extension(path@) == Some("jsonl"@)),
{
    match extension_of(path) {
        Some(e) => crate::text::str_equal(e.as_str(), "jsonl"),
        None => false,
    }
}

} // verus!
