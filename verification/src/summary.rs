//! Counts over a whole transcript, for the summary printed before viewing it.
use vstd::prelude::*;
use crate::models::TranscriptEntry;

verus! {

/// Counts of the entries of a transcript by kind, and the tokens used.
#[derive(Debug, Clone, Copy, PartialEq, Eq, Structural)]
pub struct TranscriptSummary {
    pub user_count: usize,
    pub assistant_count: usize,
    pub summary_count: usize,
    pub system_count: usize,
    pub queue_count: usize,
    /// The token totals of the assistant messages that report usage, added up.
    pub total_tokens: i32,
    /// The tokens per assistant message, rounded toward zero, where there is one.
    pub average_tokens: Option<i32>,
}

/// The number of entries of a kind.
pub open spec fn count_kind(entries: Seq<TranscriptEntry>, kind: spec_fn(TranscriptEntry) -> bool) -> nat
    decreases entries.len(),
{
    if entries.len() == 0 {
        0
    } else {
        count_kind(entries.drop_last(), kind) + if kind(entries.last()) { 1nat } else { 0nat }
    }
}

/// The tokens an entry adds to the total: the total of an assistant message
/// that reports usage.
pub open spec fn entry_tokens(e: TranscriptEntry) -> int {
    match e {
        TranscriptEntry::Assistant(a) => match a.message.usage {
            Some(u) => u.total_tokens_spec(),
            None => 0,
        },
        _ => 0,
    }
}

/// The tokens of all entries.
pub open spec fn tokens_sum(entries: Seq<TranscriptEntry>) -> int
    decreases entries.len(),
{
    if entries.len() == 0 {
        0
    } else {
        tokens_sum(entries.drop_last()) + entry_tokens(entries.last())
    }
}

/// Adding up the tokens never leaves `i32`, nor does any usage total.
pub open spec fn tokens_ok(entries: Seq<TranscriptEntry>) -> bool
    decreases entries.len(),
{
    if entries.len() == 0 {
        true
    } else {
        &&& tokens_ok(entries.drop_last())
        &&& match entries.last() {
            TranscriptEntry::Assistant(a) => match a.message.usage {
                Some(u) => u.total_fits(),
                None => true,
            },
            _ => true,
        }
        &&& i32::MIN <= tokens_sum(entries) <= i32::MAX
    }
}

/// Integer division rounding toward zero, as Rust divides.
pub open spec fn div_toward_zero(a: int, b: int) -> int {
    if a >= 0 { a / b } else { -((-a) / b) }
}

/// The summary of a transcript.
pub open spec fn summary_spec(entries: Seq<TranscriptEntry>) -> TranscriptSummary {
    let assistants = count_kind(entries, |e: TranscriptEntry| e is Assistant);
    TranscriptSummary {
        user_count: count_kind(entries, |e: TranscriptEntry| e is User) as usize,
        assistant_count: assistants as usize,
        summary_count: count_kind(entries, |e: TranscriptEntry| e is Summary) as usize,
        system_count: count_kind(entries, |e: TranscriptEntry| e is System) as usize,
        queue_count: count_kind(entries, |e: TranscriptEntry| e is QueueOperation) as usize,
        total_tokens: tokens_sum(entries) as i32,
        average_tokens: if assistants > 0 {
            Some(div_toward_zero(tokens_sum(entries), assistants as int) as i32)
        } else {
            None
        },
    }
}

/// Every entry is counted under exactly one kind, but for file history
/// snapshots, which the summary leaves out.
pub proof fn law_summary_counts_every_entry(entries: Seq<TranscriptEntry>)
    ensures
        count_kind(entries, |e: TranscriptEntry| e is User) + count_kind(entries, |e: TranscriptEntry| e is Assistant)
            + count_kind(entries, |e: TranscriptEntry| e is Summary) + count_kind(
            entries,
            |e: TranscriptEntry| e is System,
        ) + count_kind(entries, |e: TranscriptEntry| e is QueueOperation) + count_kind(
            entries,
            |e: TranscriptEntry| e is FileHistorySnapshot,
        ) == entries.len(),
    decreases entries.len(),
{
    if entries.len() > 0 {
        law_summary_counts_every_entry(entries.drop_last());
    }
}

proof fn lemma_count_kind_is_filter(entries: Seq<TranscriptEntry>, kind: spec_fn(TranscriptEntry) -> bool)
    ensures
        count_kind(entries, kind) == entries.filter(kind).len(),
    decreases entries.len(),
{
    reveal(Seq::filter);
    if entries.len() > 0 {
        lemma_count_kind_is_filter(entries.drop_last(), kind);
    }
}

/// Each count of the summary is the number of entries of its own kind; file
/// history snapshots are counted under none of them, so the counts and the
/// snapshots add up to the number of entries. The total adds up the token
/// totals of the assistant messages that report usage.
pub proof fn law_summary_counts_by_kind(entries: Seq<TranscriptEntry>)
    requires
        entries.len() <= i32::MAX,
    ensures
        summary_spec(entries).user_count == entries.filter(|e: TranscriptEntry| e is User).len(),
        summary_spec(entries).assistant_count == entries.filter(|e: TranscriptEntry| e is Assistant).len(),
        summary_spec(entries).summary_count == entries.filter(|e: TranscriptEntry| e is Summary).len(),
        summary_spec(entries).system_count == entries.filter(|e: TranscriptEntry| e is System).len(),
        summary_spec(entries).queue_count == entries.filter(|e: TranscriptEntry| e is QueueOperation).len(),
        summary_spec(entries).user_count + summary_spec(entries).assistant_count + summary_spec(entries).summary_count
            + summary_spec(entries).system_count + summary_spec(entries).queue_count + entries.filter(
            |e: TranscriptEntry| e is FileHistorySnapshot,
        ).len() == entries.len(),
        (summary_spec(entries).average_tokens is Some) == (entries.filter(|e: TranscriptEntry| e is Assistant).len() > 0),
{
    let u = |e: TranscriptEntry| e is User;
    let a = |e: TranscriptEntry| e is Assistant;
    let sm = |e: TranscriptEntry| e is Summary;
    let sy = |e: TranscriptEntry| e is System;
    let q = |e: TranscriptEntry| e is QueueOperation;
    let f = |e: TranscriptEntry| e is FileHistorySnapshot;
    lemma_count_kind_is_filter(entries, u);
    lemma_count_kind_is_filter(entries, a);
    lemma_count_kind_is_filter(entries, sm);
    lemma_count_kind_is_filter(entries, sy);
    lemma_count_kind_is_filter(entries, q);
    lemma_count_kind_is_filter(entries, f);
    lemma_count_kind_bound(entries, u);
    lemma_count_kind_bound(entries, a);
    lemma_count_kind_bound(entries, sm);
    lemma_count_kind_bound(entries, sy);
    lemma_count_kind_bound(entries, q);
    law_summary_counts_every_entry(entries);
}

/// An optional count, an absent one read as zero.
pub open spec fn or_zero(o: Option<i32>) -> int {
    match o {
        Some(v) => v as int,
        None => 0,
    }
}

/// One more entry adds to the total tokens the input, cache creation and
/// output tokens of its usage where it is an assistant message that reports
/// usage, and nothing otherwise; with no entries the total is zero.
pub proof fn law_summary_total_adds_usage(entries: Seq<TranscriptEntry>, e: TranscriptEntry)
    requires
        tokens_ok(entries.push(e)),
    ensures
        summary_spec(seq![]).total_tokens == 0,
        summary_spec(entries.push(e)).total_tokens == summary_spec(entries).total_tokens + match e {
            TranscriptEntry::Assistant(a) => match a.message.usage {
                Some(u) => or_zero(u.input_tokens) + or_zero(u.cache_creation_input_tokens) + or_zero(u.output_tokens),
                None => 0,
            },
            _ => 0,
        },
{
    let s = entries.push(e);
    assert(s.drop_last() =~= entries);
    assert(s.last() == e);
    assert(tokens_ok(entries));
    assert(i32::MIN <= tokens_sum(s) <= i32::MAX);
    if entries.len() > 0 {
        assert(i32::MIN <= tokens_sum(entries) <= i32::MAX);
    }
    assert(tokens_sum(s) == tokens_sum(entries) + entry_tokens(e));
}

/// The average is the total divided by the number of assistant messages,
/// rounded toward zero: it times that number differs from the total by less
/// than that number, on the side of zero.
pub proof fn law_summary_average_rounds_toward_zero(entries: Seq<TranscriptEntry>)
    requires
        tokens_ok(entries),
        entries.len() <= i32::MAX,
    ensures
        summary_spec(entries).average_tokens matches Some(v) ==> {
            let n = summary_spec(entries).assistant_count as int;
            let t = summary_spec(entries).total_tokens as int;
            &&& n > 0
            &&& t >= 0 ==> v * n <= t < v * n + n
            &&& t < 0 ==> v * n - n < t <= v * n
        },
{
    let n = count_kind(entries, |e: TranscriptEntry| e is Assistant) as int;
    lemma_count_kind_bound(entries, |e: TranscriptEntry| e is Assistant);
    if entries.len() > 0 {
        assert(i32::MIN <= tokens_sum(entries) <= i32::MAX);
    }
    let t = tokens_sum(entries);
    if n > 0 {
        if t >= 0 {
            let q = t / n;
            assert(q * n <= t < q * n + n) by (nonlinear_arith)
                requires
                    n > 0,
                    t >= 0,
                    q == t / n,
            ;
            assert(0 <= q <= t) by (nonlinear_arith)
                requires
                    n > 0,
                    t >= 0,
                    q == t / n,
            ;
        } else {
            let q = (-t) / n;
            assert(q * n <= -t < q * n + n) by (nonlinear_arith)
                requires
                    n > 0,
                    -t > 0,
                    q == (-t) / n,
            ;
            assert(0 <= q <= -t) by (nonlinear_arith)
                requires
                    n > 0,
                    -t > 0,
                    q == (-t) / n,
            ;
            assert((-q) * n == -(q * n)) by (nonlinear_arith);
        }
    }
}

proof fn lemma_count_kind_bound(entries: Seq<TranscriptEntry>, kind: spec_fn(TranscriptEntry) -> bool)
    ensures
        count_kind(entries, kind) <= entries.len(),
    decreases entries.len(),
{
    if entries.len() > 0 {
        lemma_count_kind_bound(entries.drop_last(), kind);
    }
}

/// Counts the entries of a transcript by kind and adds up the tokens used.
pub fn summarize(entries: &Vec<TranscriptEntry>) -> (r: TranscriptSummary)
    requires
        tokens_ok(entries@),
        entries@.len() <= i32::MAX,
    ensures
        r == summary_spec(entries@),
{
    let ghost is_user = |e: TranscriptEntry| e is User;
    let ghost is_assistant = |e: TranscriptEntry| e is Assistant;
    let ghost is_summary = |e: TranscriptEntry| e is Summary;
    let ghost is_system = |e: TranscriptEntry| e is System;
    let ghost is_queue = |e: TranscriptEntry| e is QueueOperation;
    let mut user_count: usize = 0;
    let mut assistant_count: usize = 0;
    let mut summary_count: usize = 0;
    let mut system_count: usize = 0;
    let mut queue_count: usize = 0;
    let mut total_tokens: i32 = 0;
    let mut i: usize = 0;
    while i < entries.len()
        invariant
            i <= entries@.len(),
            entries@.len() <= i32::MAX,
            tokens_ok(entries@),
            is_user == (|e: TranscriptEntry| e is User),
            is_assistant == (|e: TranscriptEntry| e is Assistant),
            is_summary == (|e: TranscriptEntry| e is Summary),
            is_system == (|e: TranscriptEntry| e is System),
            is_queue == (|e: TranscriptEntry| e is QueueOperation),
            user_count == count_kind(entries@.take(i as int), is_user),
            assistant_count == count_kind(entries@.take(i as int), is_assistant),
            summary_count == count_kind(entries@.take(i as int), is_summary),
            system_count == count_kind(entries@.take(i as int), is_system),
            queue_count == count_kind(entries@.take(i as int), is_queue),
            total_tokens == tokens_sum(entries@.take(i as int)),
        decreases entries.len() - i,
    {
        let ghost pre = entries@.take(i as int);
        let ghost next = entries@.take(i + 1);
        assert(next.drop_last() == pre);
        assert(next.last() == entries@[i as int]);
        proof {
            lemma_count_kind_bound(pre, is_user);
            lemma_count_kind_bound(pre, is_assistant);
            lemma_count_kind_bound(pre, is_summary);
            lemma_count_kind_bound(pre, is_system);
            lemma_count_kind_bound(pre, is_queue);
            lemma_tokens_ok_prefix(entries@, i as int + 1);
        }
        match &entries[i] {
            TranscriptEntry::User(_) => {
                user_count = user_count + 1;
            },
            TranscriptEntry::Assistant(a) => {
                assistant_count = assistant_count + 1;
                match &a.message.usage {
                    Some(u) => {
                        total_tokens = total_tokens + u.total_tokens();
                    },
                    None => {},
                }
            },
            TranscriptEntry::Summary(_) => {
                summary_count = summary_count + 1;
            },
            TranscriptEntry::System(_) => {
                system_count = system_count + 1;
            },
            TranscriptEntry::QueueOperation(_) => {
                queue_count = queue_count + 1;
            },
            TranscriptEntry::FileHistorySnapshot(_) => {},
        }
        i = i + 1;
    }
    assert(entries@.take(entries@.len() as int) == entries@);
    proof {
        lemma_count_kind_bound(entries@, is_assistant);
    }
    let average_tokens = if assistant_count > 0 {
        let n = assistant_count as u64;
        let t = total_tokens as i64;
        let m: u64 = if t >= 0 { t as u64 } else { (-t) as u64 };
        let q = m / n;
        assert(q <= m) by (nonlinear_arith)
            requires n > 0, q == m / n;
        if t >= 0 {
            Some(q as i32)
        } else {
            Some((-(q as i64)) as i32)
        }
    } else {
        None
    };
    TranscriptSummary { user_count, assistant_count, summary_count, system_count, queue_count, total_tokens, average_tokens }
}

/// Whether a transcript can be summed up without leaving `i32`: what
/// `summarize` needs of it.
pub fn can_summarize(entries: &Vec<TranscriptEntry>) -> (r: bool)
    ensures
        r == (tokens_ok(entries@) && entries@.len() <= i32::MAX),
{
    if entries.len() > i32::MAX as usize {
        return false;
    }
    let mut total: i64 = 0;
    let mut i: usize = 0;
    while i < entries.len()
        invariant
            i <= entries@.len(),
            tokens_ok(entries@.take(i as int)),
            total == tokens_sum(entries@.take(i as int)),
            i32::MIN <= total <= i32::MAX,
        decreases entries.len() - i,
    {
        let ghost pre = entries@.take(i as int);
        let ghost next = entries@.take(i + 1);
        assert(next.drop_last() == pre);
        assert(next.last() == entries@[i as int]);
        match &entries[i] {
            TranscriptEntry::Assistant(a) => match &a.message.usage {
                Some(u) => {
                    if !u.total_fits_exec() {
                        proof {
                            if tokens_ok(entries@) {
                                lemma_tokens_ok_prefix(entries@, i as int + 1);
                            }
                        }
                        return false;
                    }
                    total = total + u.total_tokens() as i64;
                },
                None => {},
            },
            _ => {},
        }
        if total < i32::MIN as i64 || total > i32::MAX as i64 {
            proof {
                if tokens_ok(entries@) {
                    lemma_tokens_ok_prefix(entries@, i as int + 1);
                }
            }
            return false;
        }
        i = i + 1;
    }
    assert(entries@.take(entries@.len() as int) == entries@);
    true
}

proof fn lemma_tokens_ok_prefix(entries: Seq<TranscriptEntry>, k: int)
    requires
        tokens_ok(entries),
        0 <= k <= entries.len(),
    ensures
        tokens_ok(entries.take(k)),
    decreases entries.len() - k,
{
    if k < entries.len() {
        assert(entries.take(k + 1).drop_last() == entries.take(k));
        lemma_tokens_ok_prefix(entries, k + 1);
    } else {
        assert(entries.take(k) == entries);
    }
}

} // verus!
