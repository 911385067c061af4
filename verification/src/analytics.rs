//! Analytics over transcripts: file access tracking and phrase tracking.
use vstd::prelude::*;
use vstd::string::StringSliceAdditionalSpecFns;
use vstd::utf8::{decode_utf8, encode_utf8, encode_utf8_valid_utf8, is_char_boundary};
use crate::models::{
    content_text, content_text_of, ContentItem, JsonValue, TranscriptEntry, UserTranscriptEntry,
};
use crate::sorting::{is_sorted_desc, items_apart, sort_by_count_desc, sort_desc};
use crate::text::{
    chars_of, contains_chars, contains_seq, find_bytes_from, find_from, occurs_at, lemma_find_from_some, ends_with_chars, ends_with_seq, has_char, split_chars,
    push_chars, push_str, split_seq, str_equal, string_of, strings_view, substr, trim, trim_chars, starts_with_chars, starts_with_seq, sub_chars,
};

verus! {

broadcast use vstd::string::group_string_axioms;

/// A pattern with a leading `~/` written with `*/` in its place: the home
/// directory stands for any leading directories.
pub open spec fn home_expanded(pattern: Seq<char>) -> Seq<char> {
    if pattern.len() >= 2 && pattern[0] == '~' && pattern[1] == '/' {
        seq!['*'] + pattern.subrange(1, pattern.len() as int)
    } else {
        pattern
    }
}

/// `prefix` begins the path or begins one of its components.
pub open spec fn starts_component(path: Seq<char>, prefix: Seq<char>) -> bool {
    starts_with_seq(path, prefix) || contains_seq(path, seq!['/'] + prefix)
}

/// Glob-like matching of a path against a pattern whose `~` is expanded.
///
/// `*` alone matches everything; `*foo*` asks for a substring, `*foo` for a
/// suffix, `foo*` for a prefix of the path or of one of its components,
/// `foo*bar` for a prefix of the path and a suffix; a pattern with more stars
/// asks for each piece as a substring, and a pattern without a star asks for
/// itself as a substring.
pub open spec fn glob_matches(path: Seq<char>, pattern: Seq<char>) -> bool {
    let n = pattern.len();
    if pattern == seq!['*'] {
        true
    } else if pattern.contains('*') {
        if pattern[0] == '*' && pattern[n - 1] == '*' && encode_utf8(pattern).len() > 2 {
            contains_seq(path, pattern.subrange(1, n - 1))
        } else if pattern[0] == '*' {
            ends_with_seq(path, pattern.subrange(1, n as int))
        } else if pattern[n - 1] == '*' {
            starts_component(path, pattern.subrange(0, n - 1))
        } else {
            let parts = split_seq(pattern, '*');
            if parts.len() == 2 {
                starts_with_seq(path, parts[0]) && ends_with_seq(path, parts[1])
            } else {
                forall|k: int| 0 <= k < parts.len() ==> contains_seq(path, #[trigger] parts[k])
            }
        }
    } else {
        contains_seq(path, pattern)
    }
}

/// Whether `path` matches `pattern`: a pattern without a star asks for
/// itself as a substring; in a pattern with a star, a leading `~/` stands for
/// any home directory.
pub open spec fn pattern_matches(path: Seq<char>, pattern: Seq<char>) -> bool {
    if pattern.contains('*') {
        glob_matches(path, home_expanded(pattern))
    } else {
        contains_seq(path, pattern)
    }
}

/// Whether `prefix` begins `path` or one of its components.
fn starts_component_chars(path: &[char], prefix: &[char]) -> (r: bool)
    ensures
        r == starts_component(path@, prefix@),
{
    if starts_with_chars(path, prefix) {
        return true;
    }
    let mut slashed: Vec<char> = Vec::new();
    slashed.push('/');
    push_chars(&mut slashed, prefix);
    assert(slashed@ == seq!['/'] + prefix@);
    contains_chars(path, slashed.as_slice())
}

proof fn lemma_encode_len_at_least(s: Seq<char>)
    ensures
        encode_utf8(s).len() >= s.len(),
    decreases s.len(),
{
    if s.len() > 0 {
        lemma_encode_len_at_least(s.drop_first());
    }
}

/// For a pattern that begins and ends with a star, its length in bytes is
/// above two exactly when its length in characters is.
proof fn lemma_star_bracketed_byte_len(p: Seq<char>)
    requires
        p.len() >= 1,
    ensures
        p[0] == '*' && p[p.len() - 1] == '*' ==> (encode_utf8(p).len() > 2 <==> p.len() > 2),
{
    lemma_encode_len_at_least(p);
    if p[0] == '*' && p[p.len() - 1] == '*' && p.len() <= 2 {
        reveal_with_fuel(encode_utf8, 3);
        if p.len() == 1 {
            assert(p.drop_first().len() == 0);
        } else {
            assert(p.drop_first().drop_first().len() == 0);
            assert(p.drop_first()[0] == '*');
        }
    }
}

/// Simple glob-like pattern matching.
#[verifier::loop_isolation(false)]
pub fn matches_pattern(path: &str, pattern: &str) -> (r: bool)
    ensures
        r == pattern_matches(path@, pattern@),
{
    let raw = chars_of(pattern);
    let s = chars_of(path);
    if !has_char(raw.as_slice(), '*') {
        return contains_chars(s.as_slice(), raw.as_slice());
    }
    let p = if raw.len() >= 2 && raw[0] == '~' && raw[1] == '/' {
        let mut e: Vec<char> = Vec::new();
        e.push('*');
        let rest = sub_chars(raw.as_slice(), 1, raw.len());
        push_chars(&mut e, rest.as_slice());
        assert(e@ == seq!['*'] + raw@.subrange(1, raw@.len() as int));
        e
    } else {
        raw
    };
    assert(p@ == home_expanded(pattern@));
    let n = p.len();
    if n == 1 && p[0] == '*' {
        assert(p@ =~= seq!['*']);
        return true;
    }
    assert(p@ != seq!['*']);
    if has_char(p.as_slice(), '*') {
        let first_star = p[0] == '*';
        let last_star = p[n - 1] == '*';
        proof {
            lemma_star_bracketed_byte_len(p@);
        }
        if first_star && last_star && n > 2 {
            let inner = sub_chars(p.as_slice(), 1, n - 1);
            contains_chars(s.as_slice(), inner.as_slice())
        } else if first_star {
            let suffix = sub_chars(p.as_slice(), 1, n);
            ends_with_chars(s.as_slice(), suffix.as_slice())
        } else if last_star {
            let prefix = sub_chars(p.as_slice(), 0, n - 1);
            starts_component_chars(s.as_slice(), prefix.as_slice())
        } else {
            let parts = split_chars(p.as_slice(), '*');
            if parts.len() == 2 {
                starts_with_chars(s.as_slice(), parts[0].as_slice()) && ends_with_chars(
                    s.as_slice(),
                    parts[1].as_slice(),
                )
            } else {
                let mut k: usize = 0;
                while k < parts.len()
                    invariant
                        k <= parts@.len(),
                        parts@.len() == split_seq(p@, '*').len(),
                        forall|j: int| 0 <= j < parts@.len() ==> #[trigger] parts@[j]@ == split_seq(p@, '*')[j],
                        forall|j: int| 0 <= j < k ==> contains_seq(s@, #[trigger] split_seq(p@, '*')[j]),
                    decreases parts.len() - k,
                {
                    if !contains_chars(s.as_slice(), parts[k].as_slice()) {
                        assert(!contains_seq(s@, split_seq(p@, '*')[k as int]));
                        return false;
                    }
                    k = k + 1;
                }
                assert(forall|j: int| 0 <= j < split_seq(p@, '*').len() ==> contains_seq(s@, #[trigger] split_seq(p@, '*')[j]));
                true
            }
        }
    } else {
        contains_chars(s.as_slice(), p.as_slice())
    }
}


/// The pattern `*` matches every path.
pub proof fn law_star_matches_every_path(path: Seq<char>)
    ensures
        pattern_matches(path, "*"@),
{
    reveal_strlit("*");
    assert("*"@ =~= seq!['*']);
    assert("*"@[0] == '*');
}

/// The common kinds of pattern, for a piece `s` without a star: `s` asks for
/// a substring, `*s` for a suffix, `*s*` for a substring, and `s*` (where `s`
/// does not start with `~/`) for a prefix of the path or of one of its
/// components.
pub proof fn law_pattern_kinds(path: Seq<char>, s: Seq<char>)
    requires
        s.len() > 0,
        !s.contains('*'),
    ensures
        pattern_matches(path, s) == contains_seq(path, s),
        pattern_matches(path, seq!['*'] + s) == ends_with_seq(path, s),
        pattern_matches(path, seq!['*'] + s + seq!['*']) == contains_seq(path, s),
        !(s.len() >= 2 && s[0] == '~' && s[1] == '/') ==> pattern_matches(path, s + seq!['*']) == (
        starts_with_seq(path, s) || contains_seq(path, seq!['/'] + s)),
{
    let p1 = seq!['*'] + s;
    let p2 = seq!['*'] + s + seq!['*'];
    let p3 = s + seq!['*'];
    assert(p1[0] == '*' && p1.contains('*'));
    assert(p2[0] == '*');
    assert(p2.contains('*')) by {
        assert(p2[0] == '*');
    }
    assert(p3[p3.len() - 1] == '*');
    assert(p3.contains('*')) by {
        assert(p3[p3.len() - 1] == '*');
    }
    assert(p2[p2.len() - 1] == '*');
    assert(p1 != seq!['*']) by {
        assert(p1.len() != 1);
    }
    assert(p2 != seq!['*']) by {
        assert(p2.len() != 1);
    }
    assert(p3 != seq!['*']) by {
        assert(p3.len() != 1);
    }
    assert(home_expanded(p1) == p1);
    assert(home_expanded(p2) == p2);
    if !(s.len() >= 2 && s[0] == '~' && s[1] == '/') {
        assert(p3[0] == s[0]);
        if s.len() >= 2 {
            assert(p3[1] == s[1]);
        }
        assert(home_expanded(p3) == p3);
    }
    lemma_star_bracketed_byte_len(p1);
    lemma_star_bracketed_byte_len(p2);
    assert(p1[p1.len() - 1] == s[s.len() - 1]);
    assert(p1[p1.len() - 1] != '*') by {
        if s[s.len() - 1] == '*' {
            assert(s.contains('*'));
        }
    }
    assert(p1.subrange(1, p1.len() as int) =~= s);
    assert(p2.subrange(1, p2.len() - 1) =~= s);
    assert(p3[0] == s[0]);
    assert(p3[0] != '*') by {
        if s[0] == '*' {
            assert(s.contains('*'));
        }
    }
    assert(p3.subrange(0, p3.len() - 1) =~= s);
}

/// Whether two paths are equal the way `std::path::Path` compares them.
pub uninterp spec fn same_path(a: Seq<char>, b: Seq<char>) -> bool;

/// Compares two paths with `<std::path::Path as PartialEq>::eq`, which
/// compares them component by component; the same text is the same path,
/// and the comparison does not depend on the order of the two paths.
#[verifier::external_body]
pub(crate) fn paths_equal(a: &str, b: &str) -> (r: bool)
    ensures
        r == same_path(a@, b@),
        r == same_path(b@, a@),
        a@ == b@ ==> r,
{
    std::path::Path::new(a) == std::path::Path::new(b)
}

/// Two paths are neither the same text nor the same path, in either order.
pub open spec fn paths_apart(a: Seq<char>, b: Seq<char>) -> bool {
    &&& a != b
    &&& !same_path(a, b)
    &&& !same_path(b, a)
}

/// Two table paths that cannot both have a slot.
pub open spec fn path_clash() -> spec_fn(String, String) -> bool {
    |a: String, b: String| !paths_apart(a@, b@)
}

/// Two per-file statistics for paths that cannot both have a slot.
pub open spec fn stats_clash() -> spec_fn((String, FileAccessStats), (String, FileAccessStats)) -> bool {
    |a: (String, FileAccessStats), b: (String, FileAccessStats)| !paths_apart(a.0@, b.0@)
}

/// No two slots of `m` hold the same path.
pub open spec fn stats_apart(m: Seq<(String, FileAccessStats)>) -> bool {
    forall|i: int, j: int| 0 <= i < m.len() && 0 <= j < m.len() && i != j ==> paths_apart(#[trigger] m[i].0@, #[trigger] m[j].0@)
}

/// The first slot of `m` whose path is the same path as `path`.
pub open spec fn path_slot(m: Seq<(String, usize)>, path: Seq<char>) -> Option<int>
    decreases m.len(),
{
    if m.len() == 0 {
        None
    } else {
        match path_slot(m.drop_last(), path) {
            Some(i) => Some(i),
            None => if same_path(m.last().0@, path) {
                Some(m.len() - 1)
            } else {
                None
            },
        }
    }
}

/// `m` with `c` more accesses of `path`: the count of its slot grows, or a
/// new slot is added at the end, as a map keyed by path would do it.
pub open spec fn add_access(m: Seq<(String, usize)>, path: String, c: usize) -> Seq<(String, usize)> {
    match path_slot(m, path@) {
        Some(i) => m.update(i, (m[i].0, (m[i].1 + c) as usize)),
        None => m.push((path, c)),
    }
}

/// The sum of the counts of `m`.
pub open spec fn count_sum(m: Seq<(String, usize)>) -> int
    decreases m.len(),
{
    if m.len() == 0 {
        0
    } else {
        count_sum(m.drop_last()) + m.last().1
    }
}

/// `acc` with the accesses of `m` added slot by slot, in order.
pub open spec fn merge_counts(acc: Seq<(String, usize)>, m: Seq<(String, usize)>) -> Seq<(String, usize)>
    decreases m.len(),
{
    if m.len() == 0 {
        acc
    } else {
        add_access(merge_counts(acc, m.drop_last()), m.last().0, m.last().1)
    }
}

/// The entries of `m` whose path matches `pattern`, in order.
pub open spec fn matching_counts(m: Seq<(String, usize)>, pattern: Seq<char>) -> Seq<(String, usize)>
    decreases m.len(),
{
    if m.len() == 0 {
        seq![]
    } else if pattern_matches(m.last().0@, pattern) {
        matching_counts(m.drop_last(), pattern).push(m.last())
    } else {
        matching_counts(m.drop_last(), pattern)
    }
}

proof fn lemma_path_slot(m: Seq<(String, usize)>, path: Seq<char>)
    ensures
        path_slot(m, path) matches Some(i) ==> 0 <= i < m.len() && same_path(m[i].0@, path),
    decreases m.len(),
{
    if m.len() > 0 {
        lemma_path_slot(m.drop_last(), path);
    }
}

proof fn lemma_count_sum_nonneg(m: Seq<(String, usize)>)
    ensures
        count_sum(m) >= 0,
        forall|i: int| 0 <= i < m.len() ==> m[i].1 <= count_sum(m),
    decreases m.len(),
{
    if m.len() > 0 {
        lemma_count_sum_nonneg(m.drop_last());
        assert forall|i: int| 0 <= i < m.len() implies m[i].1 <= count_sum(m) by {
            if i < m.len() - 1 {
                assert(m[i] == m.drop_last()[i]);
            }
        }
    }
}

proof fn lemma_count_sum_update(m: Seq<(String, usize)>, i: int, v: (String, usize))
    requires
        0 <= i < m.len(),
    ensures
        count_sum(m.update(i, v)) == count_sum(m) - m[i].1 + v.1,
    decreases m.len(),
{
    if i == m.len() - 1 {
        assert(m.update(i, v).drop_last() == m.drop_last());
    } else {
        lemma_count_sum_update(m.drop_last(), i, v);
        assert(m.update(i, v).drop_last() == m.drop_last().update(i, v));
    }
}

proof fn lemma_add_access_sum(m: Seq<(String, usize)>, path: String, c: usize)
    requires
        count_sum(m) + c <= usize::MAX,
    ensures
        count_sum(add_access(m, path, c)) == count_sum(m) + c,
{
    lemma_path_slot(m, path@);
    lemma_count_sum_nonneg(m);
    match path_slot(m, path@) {
        Some(i) => {
            lemma_count_sum_update(m, i, (m[i].0, (m[i].1 + c) as usize));
        },
        None => {
            assert(m.push((path, c)).drop_last() == m);
        },
    }
}

proof fn lemma_merge_counts_sum(acc: Seq<(String, usize)>, m: Seq<(String, usize)>)
    requires
        count_sum(acc) + count_sum(m) <= usize::MAX,
    ensures
        count_sum(merge_counts(acc, m)) == count_sum(acc) + count_sum(m),
    decreases m.len(),
{
    if m.len() > 0 {
        lemma_count_sum_nonneg(m.drop_last());
        lemma_count_sum_nonneg(m);
        lemma_merge_counts_sum(acc, m.drop_last());
        lemma_add_access_sum(merge_counts(acc, m.drop_last()), m.last().0, m.last().1);
    }
}

/// Adds `c` accesses of `path` to the counts in `m`.
fn add_access_exec(m: &mut Vec<(String, usize)>, path: String, c: usize)
    requires
        count_sum(old(m)@) + c <= usize::MAX,
    ensures
        final(m)@ == add_access(old(m)@, path, c),
        count_sum(final(m)@) == count_sum(old(m)@) + c,
        items_apart(old(m)@, path_clash()) ==> items_apart(final(m)@, path_clash()),
{
    proof {
        lemma_add_access_sum(m@, path, c);
        lemma_count_sum_nonneg(m@);
        lemma_path_slot(m@, path@);
    }
    let mut i: usize = 0;
    while i < m.len()
        invariant
            i <= m@.len(),
            m@ == old(m)@,
            count_sum(m@) + c <= usize::MAX,
            forall|j: int| 0 <= j < m@.len() ==> m@[j].1 <= count_sum(m@),
            path_slot(m@.subrange(0, i as int), path@) is None,
            forall|j: int| 0 <= j < i ==> paths_apart(#[trigger] m@[j].0@, path@),
        decreases m.len() - i,
    {
        let ghost pre = m@.subrange(0, i as int);
        assert(m@.subrange(0, i + 1).drop_last() == pre);
        if paths_equal(m[i].0.as_str(), path.as_str()) {
            let key = m[i].0.clone();
            let count = m[i].1 + c;
            proof {
                lemma_path_slot_prefix(m@, path@, i as int + 1);
            }
            let ghost before = m@;
            m.set(i, (key, count));
            proof {
                lemma_add_access_sum(old(m)@, path, c);
                if items_apart(before, path_clash()) {
                    assert forall|a: int, b: int| 0 <= a < m@.len() && 0 <= b < m@.len() && a != b implies !path_clash()(
                        #[trigger] m@[a].0,
                        #[trigger] m@[b].0,
                    ) by {
                        assert(m@[a].0 == before[a].0 && m@[b].0 == before[b].0);
                        assert(!path_clash()(before[a].0, before[b].0));
                    }
                }
            }
            return;
        }
        i = i + 1;
    }
    assert(m@.subrange(0, m@.len() as int) == m@);
    let ghost before = m@;
    let ghost pv = path@;
    m.push((path, c));
    proof {
        if items_apart(before, path_clash()) {
            assert forall|a: int, b: int| 0 <= a < m@.len() && 0 <= b < m@.len() && a != b implies !path_clash()(
                #[trigger] m@[a].0,
                #[trigger] m@[b].0,
            ) by {
                if a < before.len() && b < before.len() {
                    assert(m@[a] == before[a] && m@[b] == before[b]);
                    assert(!path_clash()(before[a].0, before[b].0));
                } else if a < before.len() {
                    assert(m@[a] == before[a]);
                    assert(paths_apart(before[a].0@, pv));
                } else {
                    assert(m@[b] == before[b]);
                    assert(paths_apart(before[b].0@, pv));
                }
            }
        }
    }
}

proof fn lemma_path_slot_prefix(m: Seq<(String, usize)>, path: Seq<char>, k: int)
    requires
        0 <= k <= m.len(),
        path_slot(m.subrange(0, k), path) is Some,
    ensures
        path_slot(m, path) == path_slot(m.subrange(0, k), path),
    decreases m.len() - k,
{
    if k < m.len() {
        assert(m.subrange(0, k + 1).drop_last() == m.subrange(0, k));
        lemma_path_slot_prefix(m, path, k + 1);
    } else {
        assert(m.subrange(0, k) == m);
    }
}

/// The value of the first field of `input` named `key`.
pub open spec fn input_field(input: Seq<(String, JsonValue)>, key: Seq<char>) -> Option<JsonValue>
    decreases input.len(),
{
    if input.len() == 0 {
        None
    } else {
        match input_field(input.drop_last(), key) {
            Some(v) => Some(v),
            None => if input.last().0@ == key {
                Some(input.last().1)
            } else {
                None
            },
        }
    }
}

/// The value of the first field of `input` named `key`.
fn find_input_field<'a>(input: &'a Vec<(String, JsonValue)>, key: &str) -> (r: Option<&'a JsonValue>)
    ensures
        match r {
            Some(v) => input_field(input@, key@) == Some(*v),
            None => input_field(input@, key@) is None,
        },
{
    let mut i: usize = 0;
    while i < input.len()
        invariant
            i <= input@.len(),
            input_field(input@.subrange(0, i as int), key@) is None,
        decreases input.len() - i,
    {
        assert(input@.subrange(0, i + 1).drop_last() == input@.subrange(0, i as int));
        if str_equal(input[i].0.as_str(), key) {
            proof {
                lemma_input_field_prefix(input@, key@, i as int + 1);
            }
            return Some(&input[i].1);
        }
        i = i + 1;
    }
    assert(input@.subrange(0, input@.len() as int) == input@);
    None
}

proof fn lemma_input_field_prefix(input: Seq<(String, JsonValue)>, key: Seq<char>, k: int)
    requires
        0 <= k <= input.len(),
        input_field(input.subrange(0, k), key) is Some,
    ensures
        input_field(input, key) == input_field(input.subrange(0, k), key),
    decreases input.len() - k,
{
    if k < input.len() {
        assert(input.subrange(0, k + 1).drop_last() == input.subrange(0, k));
        lemma_input_field_prefix(input, key, k + 1);
    } else {
        assert(input.subrange(0, k) == input);
    }
}


/// The three access tables of a tracker, as plain sequences.
pub struct AccessCounts {
    pub reads: Seq<(String, usize)>,
    pub writes: Seq<(String, usize)>,
    pub edits: Seq<(String, usize)>,
}

impl AccessCounts {
    /// All accesses counted in the three tables.
    pub open spec fn total(self) -> int {
        count_sum(self.reads) + count_sum(self.writes) + count_sum(self.edits)
    }

    /// Each table can count `n` more accesses without its sum leaving `usize`.
    pub open spec fn room_for(self, n: int) -> bool {
        &&& count_sum(self.reads) + n <= usize::MAX
        &&& count_sum(self.writes) + n <= usize::MAX
        &&& count_sum(self.edits) + n <= usize::MAX
    }

    /// Each table counts at most `n` accesses more than in `before`.
    pub open spec fn grew_by_at_most(self, before: AccessCounts, n: int) -> bool {
        &&& count_sum(self.reads) <= count_sum(before.reads) + n
        &&& count_sum(self.writes) <= count_sum(before.writes) + n
        &&& count_sum(self.edits) <= count_sum(before.edits) + n
    }
}

/// The kind of file access a tool makes.
#[derive(Clone, Copy, Debug, PartialEq, Eq, Structural)]
pub enum AccessKind {
    Read,
    Write,
    Edit,
}

/// The file access that a tool of this name makes, if any.
pub open spec fn access_kind(tool: Seq<char>) -> Option<AccessKind> {
    if tool == "Read"@ {
        Some(AccessKind::Read)
    } else if tool == "Write"@ {
        Some(AccessKind::Write)
    } else if tool == "Edit"@ || tool == "MultiEdit"@ {
        Some(AccessKind::Edit)
    } else {
        None
    }
}

/// The tables after one tool use: the `file_path` string of its input, if
/// any, counts once more in the table of the tool's kind of access.
pub open spec fn track_tool_use_spec(
    c: AccessCounts,
    tool: Seq<char>,
    input: Seq<(String, JsonValue)>,
) -> AccessCounts {
    match input_field(input, "file_path"@) {
        Some(v) => match v.string {
            Some(path) => match access_kind(tool) {
                Some(AccessKind::Read) => AccessCounts {
                    reads: add_access(c.reads, path, 1),
                    writes: c.writes,
                    edits: c.edits,
                },
                Some(AccessKind::Write) => AccessCounts {
                    reads: c.reads,
                    writes: add_access(c.writes, path, 1),
                    edits: c.edits,
                },
                Some(AccessKind::Edit) => AccessCounts {
                    reads: c.reads,
                    writes: c.writes,
                    edits: add_access(c.edits, path, 1),
                },
                None => c,
            },
            None => c,
        },
        None => c,
    }
}

/// The tables after the tool uses among `items`, in order.
pub open spec fn track_items(c: AccessCounts, items: Seq<ContentItem>) -> AccessCounts
    decreases items.len(),
{
    if items.len() == 0 {
        c
    } else {
        let prev = track_items(c, items.drop_last());
        match items.last() {
            ContentItem::ToolUse { id, name, input } => track_tool_use_spec(prev, name@, input@),
            _ => prev,
        }
    }
}

/// The tables after one transcript entry: only the tool uses of assistant
/// messages count.
pub open spec fn analyze_access_spec(c: AccessCounts, entry: TranscriptEntry) -> AccessCounts {
    match entry {
        TranscriptEntry::Assistant(a) => track_items(c, a.message.content@),
        _ => c,
    }
}

/// The number of content items an entry could count accesses for.
pub open spec fn entry_item_count(entry: TranscriptEntry) -> int {
    match entry {
        TranscriptEntry::Assistant(a) => a.message.content@.len() as int,
        _ => 0,
    }
}

proof fn lemma_track_tool_use_total(c: AccessCounts, tool: Seq<char>, input: Seq<(String, JsonValue)>)
    requires
        c.room_for(1),
    ensures
        track_tool_use_spec(c, tool, input).grew_by_at_most(c, 1),
{
    lemma_count_sum_nonneg(c.reads);
    lemma_count_sum_nonneg(c.writes);
    lemma_count_sum_nonneg(c.edits);
    match input_field(input, "file_path"@) {
        Some(v) => match v.string {
            Some(path) => {
                lemma_add_access_sum(c.reads, path, 1);
                lemma_add_access_sum(c.writes, path, 1);
                lemma_add_access_sum(c.edits, path, 1);
            },
            None => {},
        },
        None => {},
    }
}

proof fn lemma_track_items_total(c: AccessCounts, items: Seq<ContentItem>)
    requires
        c.room_for(items.len() as int),
    ensures
        track_items(c, items).grew_by_at_most(c, items.len() as int),
    decreases items.len(),
{
    if items.len() > 0 {
        lemma_track_items_total(c, items.drop_last());
        match items.last() {
            ContentItem::ToolUse { id, name, input } => {
                lemma_track_tool_use_total(track_items(c, items.drop_last()), name@, input@);
            },
            _ => {},
        }
    }
}

proof fn lemma_count_sum_prefix(m: Seq<(String, usize)>, k: int)
    requires
        0 <= k < m.len(),
    ensures
        count_sum(m.subrange(0, k + 1)) == count_sum(m.subrange(0, k)) + m[k].1,
        count_sum(m.subrange(0, k + 1)) <= count_sum(m),
    decreases m.len() - k,
{
    assert(m.subrange(0, k + 1).drop_last() == m.subrange(0, k));
    if k + 1 < m.len() {
        lemma_count_sum_prefix(m, k + 1);
        lemma_count_sum_nonneg(m.subrange(0, k + 2));
    } else {
        assert(m.subrange(0, k + 1) == m);
    }
}

/// Adds every slot of `m` to `acc`, in order.
fn merge_into(acc: &mut Vec<(String, usize)>, m: &Vec<(String, usize)>)
    requires
        count_sum(old(acc)@) + count_sum(m@) <= usize::MAX,
    ensures
        final(acc)@ == merge_counts(old(acc)@, m@),
        count_sum(final(acc)@) == count_sum(old(acc)@) + count_sum(m@),
        items_apart(old(acc)@, path_clash()) ==> items_apart(final(acc)@, path_clash()),
{
    let mut i: usize = 0;
    while i < m.len()
        invariant
            i <= m@.len(),
            count_sum(old(acc)@) + count_sum(m@) <= usize::MAX,
            items_apart(old(acc)@, path_clash()) ==> items_apart(acc@, path_clash()),
            acc@ == merge_counts(old(acc)@, m@.subrange(0, i as int)),
            count_sum(acc@) == count_sum(old(acc)@) + count_sum(m@.subrange(0, i as int)),
        decreases m.len() - i,
    {
        proof {
            lemma_count_sum_prefix(m@, i as int);
            lemma_count_sum_nonneg(m@.subrange(0, i as int));
            assert(m@.subrange(0, i + 1).drop_last() == m@.subrange(0, i as int));
        }
        let key = m[i].0.clone();
        add_access_exec(acc, key, m[i].1);
        i = i + 1;
    }
    assert(m@.subrange(0, m@.len() as int) == m@);
}

/// All accesses of the three tables, merged by path: reads first, then
/// writes, then edits.
pub open spec fn merged_counts(c: AccessCounts) -> Seq<(String, usize)> {
    merge_counts(merge_counts(merge_counts(seq![], c.reads), c.writes), c.edits)
}

proof fn lemma_matching_counts_from(m: Seq<(String, usize)>, pattern: Seq<char>)
    ensures
        forall|i: int|
            0 <= i < matching_counts(m, pattern).len() ==> exists|k: int|
                0 <= k < m.len() && m[k] == #[trigger] matching_counts(m, pattern)[i],
    decreases m.len(),
{
    if m.len() > 0 {
        let d = m.drop_last();
        lemma_matching_counts_from(d, pattern);
        let mc = matching_counts(m, pattern);
        let prev = matching_counts(d, pattern);
        assert forall|i: int| 0 <= i < mc.len() implies exists|k: int| 0 <= k < m.len() && m[k] == #[trigger] mc[i] by {
            if i < prev.len() {
                assert(mc[i] == prev[i]);
                let k = choose|k: int| 0 <= k < d.len() && d[k] == prev[i];
                assert(m[k] == d[k]);
            } else {
                assert(mc[i] == m[m.len() - 1]);
            }
        }
    }
}

proof fn lemma_matching_counts_apart(m: Seq<(String, usize)>, pattern: Seq<char>)
    requires
        items_apart(m, path_clash()),
    ensures
        items_apart(matching_counts(m, pattern), path_clash()),
    decreases m.len(),
{
    if m.len() > 0 {
        let d = m.drop_last();
        assert forall|i: int, j: int| 0 <= i < d.len() && 0 <= j < d.len() && i != j implies !path_clash()(
            #[trigger] d[i].0,
            #[trigger] d[j].0,
        ) by {
            assert(d[i] == m[i] && d[j] == m[j]);
        }
        lemma_matching_counts_apart(d, pattern);
        lemma_matching_counts_from(d, pattern);
        let mc = matching_counts(m, pattern);
        let prev = matching_counts(d, pattern);
        if pattern_matches(m.last().0@, pattern) {
            let x = m.last();
            assert forall|k: int| 0 <= k < prev.len() implies !path_clash()(#[trigger] prev[k].0, x.0) && !path_clash()(x.0, prev[k].0) by {
                let t = choose|t: int| 0 <= t < d.len() && d[t] == prev[k];
                assert(m[t] == prev[k]);
                assert(m[m.len() - 1] == x);
                assert(!path_clash()(m[t].0, m[m.len() - 1].0));
                assert(!path_clash()(m[m.len() - 1].0, m[t].0));
            }
            assert forall|i: int, j: int| 0 <= i < mc.len() && 0 <= j < mc.len() && i != j implies !path_clash()(
                #[trigger] mc[i].0,
                #[trigger] mc[j].0,
            ) by {
                if i < prev.len() && j < prev.len() {
                    assert(mc[i] == prev[i] && mc[j] == prev[j]);
                } else if i < prev.len() {
                    assert(mc[i] == prev[i] && mc[j] == x);
                } else {
                    assert(mc[j] == prev[j] && mc[i] == x);
                }
            }
        }
    }
}

/// Per-file access counts, broken down by kind.
#[derive(Debug, Clone, Copy, Default)]
pub struct FileAccessStats {
    pub reads: usize,
    pub writes: usize,
    pub edits: usize,
}

impl FileAccessStats {
    /// Reads plus writes plus edits.
    pub open spec fn total_spec(&self) -> int {
        self.reads + self.writes + self.edits
    }

    /// Reads plus writes plus edits.
    pub fn total(&self) -> (r: usize)
        requires
            self.total_spec() <= usize::MAX,
        ensures
            r == self.total_spec(),
    {
        self.reads + self.writes + self.edits
    }
}

/// Totals of a tracker.
#[derive(Debug)]
pub struct TrackerStats {
    pub total_reads: usize,
    pub total_writes: usize,
    pub total_edits: usize,
    pub unique_files_read: usize,
    pub unique_files_written: usize,
    pub unique_files_edited: usize,
}

/// The first slot of `m` whose path is the same path as `path`.
pub open spec fn stats_slot(m: Seq<(String, FileAccessStats)>, path: Seq<char>) -> Option<int>
    decreases m.len(),
{
    if m.len() == 0 {
        None
    } else {
        match stats_slot(m.drop_last(), path) {
            Some(i) => Some(i),
            None => if same_path(m.last().0@, path) {
                Some(m.len() - 1)
            } else {
                None
            },
        }
    }
}

/// The statistics with the count of one kind of access set to `c`.
pub open spec fn with_count(st: FileAccessStats, kind: AccessKind, c: usize) -> FileAccessStats {
    match kind {
        AccessKind::Read => FileAccessStats { reads: c, writes: st.writes, edits: st.edits },
        AccessKind::Write => FileAccessStats { reads: st.reads, writes: c, edits: st.edits },
        AccessKind::Edit => FileAccessStats { reads: st.reads, writes: st.writes, edits: c },
    }
}

/// `m` with the count of one kind of access of `path` set to `c`, the slot
/// of the path being added with zero counts where it is missing.
pub open spec fn set_stat(
    m: Seq<(String, FileAccessStats)>,
    path: String,
    kind: AccessKind,
    c: usize,
) -> Seq<(String, FileAccessStats)> {
    match stats_slot(m, path@) {
        Some(i) => m.update(i, (m[i].0, with_count(m[i].1, kind, c))),
        None => m.push((path, with_count(FileAccessStats { reads: 0, writes: 0, edits: 0 }, kind, c))),
    }
}

/// `acc` with the counts of the table `m` set for one kind of access, slot by slot.
pub open spec fn set_stats(
    acc: Seq<(String, FileAccessStats)>,
    m: Seq<(String, usize)>,
    kind: AccessKind,
) -> Seq<(String, FileAccessStats)>
    decreases m.len(),
{
    if m.len() == 0 {
        acc
    } else {
        set_stat(set_stats(acc, m.drop_last(), kind), m.last().0, kind, m.last().1)
    }
}

/// Per-file statistics of the three tables, reads first, then writes, then edits.
pub open spec fn merged_stats(c: AccessCounts) -> Seq<(String, FileAccessStats)> {
    set_stats(
        set_stats(set_stats(seq![], c.reads, AccessKind::Read), c.writes, AccessKind::Write),
        c.edits,
        AccessKind::Edit,
    )
}

/// Each item paired with its total as the key to order by.
pub open spec fn keyed_by_total(m: Seq<(String, FileAccessStats)>) -> Seq<((String, FileAccessStats), usize)> {
    m.map_values(|p: (String, FileAccessStats)| (p, p.1.total_spec() as usize))
}

/// The items without their keys.
pub open spec fn unkeyed<T>(m: Seq<(T, usize)>) -> Seq<T> {
    m.map_values(|p: (T, usize)| p.0)
}

/// Each count in the statistics is at most the sum of its table.
pub open spec fn stats_bounded(m: Seq<(String, FileAccessStats)>, r: int, w: int, e: int) -> bool {
    forall|i: int|
        0 <= i < m.len() ==> (#[trigger] m[i]).1.reads <= r && m[i].1.writes <= w && m[i].1.edits <= e
}

/// Sets one kind of count of `path` in `m`.
fn set_stat_exec(m: &mut Vec<(String, FileAccessStats)>, path: String, kind: AccessKind, c: usize)
    ensures
        final(m)@ == set_stat(old(m)@, path, kind, c),
        stats_apart(old(m)@) ==> stats_apart(final(m)@),
{
    let mut i: usize = 0;
    while i < m.len()
        invariant
            i <= m@.len(),
            m@ == old(m)@,
            stats_slot(m@.subrange(0, i as int), path@) is None,
            forall|j: int| 0 <= j < i ==> paths_apart(#[trigger] m@[j].0@, path@),
        decreases m.len() - i,
    {
        assert(m@.subrange(0, i + 1).drop_last() == m@.subrange(0, i as int));
        if paths_equal(m[i].0.as_str(), path.as_str()) {
            proof {
                lemma_stats_slot_prefix(m@, path@, i as int + 1);
            }
            let key = m[i].0.clone();
            let old_stats = m[i].1;
            let st = match kind {
                AccessKind::Read => FileAccessStats { reads: c, writes: old_stats.writes, edits: old_stats.edits },
                AccessKind::Write => FileAccessStats { reads: old_stats.reads, writes: c, edits: old_stats.edits },
                AccessKind::Edit => FileAccessStats { reads: old_stats.reads, writes: old_stats.writes, edits: c },
            };
            let ghost before = m@;
            m.set(i, (key, st));
            proof {
                if stats_apart(before) {
                    assert forall|a: int, b: int| 0 <= a < m@.len() && 0 <= b < m@.len() && a != b implies paths_apart(
                        #[trigger] m@[a].0@,
                        #[trigger] m@[b].0@,
                    ) by {
                        assert(m@[a].0 == before[a].0 && m@[b].0 == before[b].0);
                        assert(paths_apart(before[a].0@, before[b].0@));
                    }
                }
            }
            return;
        }
        i = i + 1;
    }
    assert(m@.subrange(0, m@.len() as int) == m@);
    let st = match kind {
        AccessKind::Read => FileAccessStats { reads: c, writes: 0, edits: 0 },
        AccessKind::Write => FileAccessStats { reads: 0, writes: c, edits: 0 },
        AccessKind::Edit => FileAccessStats { reads: 0, writes: 0, edits: c },
    };
    let ghost before = m@;
    let ghost pv = path@;
    m.push((path, st));
    proof {
        if stats_apart(before) {
            assert forall|a: int, b: int| 0 <= a < m@.len() && 0 <= b < m@.len() && a != b implies paths_apart(
                #[trigger] m@[a].0@,
                #[trigger] m@[b].0@,
            ) by {
                if a < before.len() && b < before.len() {
                    assert(m@[a] == before[a] && m@[b] == before[b]);
                } else if a < before.len() {
                    assert(m@[a] == before[a]);
                    assert(paths_apart(before[a].0@, pv));
                } else {
                    assert(m@[b] == before[b]);
                    assert(paths_apart(before[b].0@, pv));
                }
            }
        }
    }
}

proof fn lemma_stats_slot_prefix(m: Seq<(String, FileAccessStats)>, path: Seq<char>, k: int)
    requires
        0 <= k <= m.len(),
        stats_slot(m.subrange(0, k), path) is Some,
    ensures
        stats_slot(m, path) == stats_slot(m.subrange(0, k), path),
    decreases m.len() - k,
{
    if k < m.len() {
        assert(m.subrange(0, k + 1).drop_last() == m.subrange(0, k));
        lemma_stats_slot_prefix(m, path, k + 1);
    } else {
        assert(m.subrange(0, k) == m);
    }
}

proof fn lemma_stats_slot(m: Seq<(String, FileAccessStats)>, path: Seq<char>)
    ensures
        stats_slot(m, path) matches Some(i) ==> 0 <= i < m.len(),
    decreases m.len(),
{
    if m.len() > 0 {
        lemma_stats_slot(m.drop_last(), path);
    }
}

proof fn lemma_set_stat_bounded(
    m: Seq<(String, FileAccessStats)>,
    path: String,
    kind: AccessKind,
    c: usize,
    r: int,
    w: int,
    e: int,
)
    requires
        stats_bounded(m, r, w, e),
        kind is Read ==> c <= r,
        kind is Write ==> c <= w,
        kind is Edit ==> c <= e,
        r >= 0,
        w >= 0,
        e >= 0,
    ensures
        stats_bounded(set_stat(m, path, kind, c), r, w, e),
{
    lemma_stats_slot(m, path@);
    let n = set_stat(m, path, kind, c);
    assert forall|j: int| 0 <= j < n.len() implies (#[trigger] n[j]).1.reads <= r && n[j].1.writes <= w
        && n[j].1.edits <= e by {
        match stats_slot(m, path@) {
            Some(sl) => {
                if j != sl {
                    assert(n[j] == m[j]);
                } else {
                    assert(m[sl].1.reads <= r);
                }
            },
            None => {
                if j < m.len() {
                    assert(n[j] == m[j]);
                }
            },
        }
    }
}

/// Sets the counts of one table for one kind of access.
fn set_stats_exec(acc: &mut Vec<(String, FileAccessStats)>, m: &Vec<(String, usize)>, kind: AccessKind, Ghost(r): Ghost<int>, Ghost(w): Ghost<int>, Ghost(e): Ghost<int>)
    requires
        stats_bounded(old(acc)@, r, w, e),
        kind is Read ==> count_sum(m@) <= r,
        kind is Write ==> count_sum(m@) <= w,
        kind is Edit ==> count_sum(m@) <= e,
        r >= 0 && w >= 0 && e >= 0,
    ensures
        final(acc)@ == set_stats(old(acc)@, m@, kind),
        stats_bounded(final(acc)@, r, w, e),
        stats_apart(old(acc)@) ==> stats_apart(final(acc)@),
{
    proof {
        lemma_count_sum_nonneg(m@);
    }
    let mut i: usize = 0;
    while i < m.len()
        invariant
            i <= m@.len(),
            stats_apart(old(acc)@) ==> stats_apart(acc@),
            r >= 0 && w >= 0 && e >= 0,
            acc@ == set_stats(old(acc)@, m@.subrange(0, i as int), kind),
            stats_bounded(acc@, r, w, e),
            forall|j: int| 0 <= j < m@.len() ==> m@[j].1 <= count_sum(m@),
            kind is Read ==> count_sum(m@) <= r,
            kind is Write ==> count_sum(m@) <= w,
            kind is Edit ==> count_sum(m@) <= e,
        decreases m.len() - i,
    {
        assert(m@.subrange(0, i + 1).drop_last() == m@.subrange(0, i as int));
        let key = m[i].0.clone();
        let ghost before = acc@;
        set_stat_exec(acc, key, kind, m[i].1);
        proof {
            lemma_set_stat_bounded(before, key, kind, m@[i as int].1, r, w, e);
        }
        i = i + 1;
    }
    assert(m@.subrange(0, m@.len() as int) == m@);
}

/// The sum of the counts of a table.
fn sum_counts(m: &Vec<(String, usize)>) -> (r: usize)
    requires
        count_sum(m@) <= usize::MAX,
    ensures
        r == count_sum(m@),
{
    let mut total: usize = 0;
    let mut i: usize = 0;
    while i < m.len()
        invariant
            i <= m@.len(),
            count_sum(m@) <= usize::MAX,
            total == count_sum(m@.subrange(0, i as int)),
        decreases m.len() - i,
    {
        proof {
            lemma_count_sum_prefix(m@, i as int);
        }
        total = total + m[i].1;
        i = i + 1;
    }
    assert(m@.subrange(0, m@.len() as int) == m@);
    total
}

/// The sum of the counts of a table, where it fits in `usize`.
fn checked_sum(m: &Vec<(String, usize)>) -> (r: Option<usize>)
    ensures
        match r {
            Some(t) => t == count_sum(m@),
            None => count_sum(m@) > usize::MAX,
        },
{
    let mut total: usize = 0;
    let mut i: usize = 0;
    while i < m.len()
        invariant
            i <= m@.len(),
            total == count_sum(m@.subrange(0, i as int)),
        decreases m.len() - i,
    {
        proof {
            lemma_count_sum_prefix(m@, i as int);
        }
        if total > usize::MAX - m[i].1 {
            return None;
        }
        total = total + m[i].1;
        i = i + 1;
    }
    assert(m@.subrange(0, m@.len() as int) == m@);
    Some(total)
}

proof fn sorting_len<T>(s: Seq<(T, usize)>)
    ensures
        sort_desc(s).len() == s.len(),
{
    crate::sorting::lemma_sort_desc(s);
}

/// Track file access operations from transcripts.
///
/// Each table holds a path and its count of accesses; `well_formed` states
/// that no two of its paths name the same path.
#[derive(Debug)]
pub struct FileAccessTracker {
    pub read_counts: Vec<(String, usize)>,
    pub write_counts: Vec<(String, usize)>,
    pub edit_counts: Vec<(String, usize)>,
}

impl View for FileAccessTracker {
    type V = AccessCounts;

    open spec fn view(&self) -> AccessCounts {
        AccessCounts {
            reads: self.read_counts@,
            writes: self.write_counts@,
            edits: self.edit_counts@,
        }
    }
}

impl FileAccessTracker {
    /// No path has two slots in any of the three tables.
    pub open spec fn well_formed(&self) -> bool {
        &&& items_apart(self.read_counts@, path_clash())
        &&& items_apart(self.write_counts@, path_clash())
        &&& items_apart(self.edit_counts@, path_clash())
    }

    /// A tracker with no accesses counted.
    pub fn new() -> (r: Self)
        ensures
            r@.reads.len() == 0,
            r@.writes.len() == 0,
            r@.edits.len() == 0,
            r.well_formed(),
    {
        FileAccessTracker { read_counts: Vec::new(), write_counts: Vec::new(), edit_counts: Vec::new() }
    }

    /// All accesses counted, where their number fits in `usize`.
    pub fn checked_total(&self) -> (r: Option<usize>)
        ensures
            match r {
                Some(t) => t == self@.total(),
                None => self@.total() > usize::MAX,
            },
    {
        proof {
            lemma_count_sum_nonneg(self.read_counts@);
            lemma_count_sum_nonneg(self.write_counts@);
            lemma_count_sum_nonneg(self.edit_counts@);
        }
        let r = checked_sum(&self.read_counts)?;
        let w = checked_sum(&self.write_counts)?;
        let e = checked_sum(&self.edit_counts)?;
        if r > usize::MAX - w || r + w > usize::MAX - e {
            return None;
        }
        Some(r + w + e)
    }

    /// Whether `analyze_entry` can count the accesses of `entry` without a
    /// table's sum overflowing.
    pub fn has_room_for(&self, entry: &TranscriptEntry) -> (r: bool)
        ensures
            r == self@.room_for(entry_item_count(*entry)),
    {
        let n: usize = match entry {
            TranscriptEntry::Assistant(a) => a.message.content.len(),
            _ => 0,
        };
        let r = match checked_sum(&self.read_counts) {
            Some(t) => t,
            None => return false,
        };
        let w = match checked_sum(&self.write_counts) {
            Some(t) => t,
            None => return false,
        };
        let e = match checked_sum(&self.edit_counts) {
            Some(t) => t,
            None => return false,
        };
        r <= usize::MAX - n && w <= usize::MAX - n && e <= usize::MAX - n
    }

    /// Analyze a single transcript entry for file operations.
    pub fn analyze_entry(&mut self, entry: &TranscriptEntry)
        requires
            old(self)@.room_for(entry_item_count(*entry)),
        ensures
            final(self)@ == analyze_access_spec(old(self)@, *entry),
            final(self)@.grew_by_at_most(old(self)@, entry_item_count(*entry)),
            old(self).well_formed() ==> final(self).well_formed(),
    {
        match entry {
            TranscriptEntry::Assistant(a) => {
                self.analyze_assistant_message(&a.message.content);
            },
            TranscriptEntry::User(_) => {
                self.analyze_user_message();
            },
            _ => {},
        }
    }

    fn analyze_assistant_message(&mut self, items: &Vec<ContentItem>)
        requires
            old(self)@.room_for(items@.len() as int),
        ensures
            final(self)@ == track_items(old(self)@, items@),
            final(self)@.grew_by_at_most(old(self)@, items@.len() as int),
            old(self).well_formed() ==> final(self).well_formed(),
    {
        let mut i: usize = 0;
        while i < items.len()
            invariant
                i <= items@.len(),
                old(self).well_formed() ==> self.well_formed(),
                self@ == track_items(old(self)@, items@.subrange(0, i as int)),
                old(self)@.room_for(items@.len() as int),
                self@.grew_by_at_most(old(self)@, i as int),
            decreases items.len() - i,
        {
            let ghost pre = self@;
            assert(items@.subrange(0, i + 1).drop_last() == items@.subrange(0, i as int));
            match &items[i] {
                ContentItem::ToolUse { name, input, .. } => {
                    self.track_tool_use(name.as_str(), input);
                },
                _ => {},
            }
            i = i + 1;
        }
        assert(items@.subrange(0, items@.len() as int) == items@);
    }

    /// Tool results in user messages are not file accesses of their own.
    fn analyze_user_message(&mut self)
        ensures
            final(self)@ == old(self)@,
            *final(self) == *old(self),
    {
    }

    /// Get all files matching a pattern, sorted by access count.
    ///
    /// The count of a file is its reads, writes and edits together; files
    /// with equal counts stay in the order in which the tables first name them.
    pub fn files_matching(&self, pattern: &str) -> (r: Vec<(String, usize)>)
        requires
            self@.total() <= usize::MAX,
        ensures
            r@ == sort_desc(matching_counts(merged_counts(self@), pattern@)),
            forall|i: int, j: int|
                0 <= i < r@.len() && 0 <= j < r@.len() && i != j ==> paths_apart(
                    #[trigger] r@[i].0@,
                    #[trigger] r@[j].0@,
                ),
    {
        proof {
            lemma_count_sum_nonneg(self.read_counts@);
            lemma_count_sum_nonneg(self.write_counts@);
            lemma_count_sum_nonneg(self.edit_counts@);
        }
        let mut all_files: Vec<(String, usize)> = Vec::new();
        assert(items_apart(all_files@, path_clash()));
        merge_into(&mut all_files, &self.read_counts);
        merge_into(&mut all_files, &self.write_counts);
        merge_into(&mut all_files, &self.edit_counts);
        let mut results: Vec<(String, usize)> = Vec::new();
        let mut i: usize = 0;
        while i < all_files.len()
            invariant
                i <= all_files@.len(),
                results@ == matching_counts(all_files@.subrange(0, i as int), pattern@),
            decreases all_files.len() - i,
        {
            assert(all_files@.subrange(0, i + 1).drop_last() == all_files@.subrange(0, i as int));
            if matches_pattern(all_files[i].0.as_str(), pattern) {
                let key = all_files[i].0.clone();
                results.push((key, all_files[i].1));
            }
            i = i + 1;
        }
        assert(all_files@.subrange(0, all_files@.len() as int) == all_files@);
        proof {
            lemma_matching_counts_apart(all_files@, pattern@);
            crate::sorting::lemma_sort_desc_keeps_apart(results@, path_clash());
        }
        let r = sort_by_count_desc(results);
        proof {
            assert forall|i: int, j: int| 0 <= i < r@.len() && 0 <= j < r@.len() && i != j implies paths_apart(
                #[trigger] r@[i].0@,
                #[trigger] r@[j].0@,
            ) by {
                assert(!path_clash()(r@[i].0, r@[j].0));
            }
        }
        r
    }

    /// Get top N most accessed files overall, most accesses first.
    pub fn top_files(&self, n: usize) -> (r: Vec<(String, FileAccessStats)>)
        requires
            self@.total() <= usize::MAX,
        ensures
            r@ == unkeyed(sort_desc(keyed_by_total(merged_stats(self@)))).take(
                vstd::math::min(n as int, merged_stats(self@).len() as int),
            ),
            forall|i: int, j: int|
                0 <= i < r@.len() && 0 <= j < r@.len() && i != j ==> paths_apart(
                    #[trigger] r@[i].0@,
                    #[trigger] r@[j].0@,
                ),
    {
        proof {
            lemma_count_sum_nonneg(self.read_counts@);
            lemma_count_sum_nonneg(self.write_counts@);
            lemma_count_sum_nonneg(self.edit_counts@);
        }
        let ghost rs = count_sum(self.read_counts@);
        let ghost ws = count_sum(self.write_counts@);
        let ghost es = count_sum(self.edit_counts@);
        let mut all_files: Vec<(String, FileAccessStats)> = Vec::new();
        assert(stats_apart(all_files@));
        set_stats_exec(&mut all_files, &self.read_counts, AccessKind::Read, Ghost(rs), Ghost(ws), Ghost(es));
        set_stats_exec(&mut all_files, &self.write_counts, AccessKind::Write, Ghost(rs), Ghost(ws), Ghost(es));
        set_stats_exec(&mut all_files, &self.edit_counts, AccessKind::Edit, Ghost(rs), Ghost(ws), Ghost(es));
        let ghost merged = all_files@;
        let mut keyed: Vec<((String, FileAccessStats), usize)> = Vec::new();
        let mut i: usize = 0;
        while i < all_files.len()
            invariant
                i <= all_files@.len(),
                all_files@ == merged,
                stats_bounded(merged, rs, ws, es),
                rs + ws + es <= usize::MAX,
                keyed@ == keyed_by_total(merged).subrange(0, i as int),
            decreases all_files.len() - i,
        {
            let key = all_files[i].0.clone();
            let st = all_files[i].1;
            let total = st.total();
            keyed.push(((key, st), total));
            i = i + 1;
            assert(keyed@ =~= keyed_by_total(merged).subrange(0, i as int));
        }
        assert(keyed_by_total(merged).subrange(0, merged.len() as int) == keyed_by_total(merged));
        proof {
            let kv = keyed_by_total(merged);
            assert forall|i: int, j: int| 0 <= i < kv.len() && 0 <= j < kv.len() && i != j implies !stats_clash()(
                #[trigger] kv[i].0,
                #[trigger] kv[j].0,
            ) by {
                assert(kv[i].0 == merged[i] && kv[j].0 == merged[j]);
                assert(paths_apart(merged[i].0@, merged[j].0@));
            }
            crate::sorting::lemma_sort_desc_keeps_apart(keyed@, stats_clash());
        }
        let sorted = sort_by_count_desc(keyed);
        proof {
            sorting_len(keyed@);
        }
        let mut r: Vec<(String, FileAccessStats)> = Vec::new();
        let mut sorted = sorted;
        let mut j: usize = 0;
        let limit = if n < sorted.len() { n } else { sorted.len() };
        let ghost sorted_view = sorted@;
        while j < limit
            invariant
                j <= limit <= sorted_view.len(),
                sorted@.len() + j == sorted_view.len(),
                sorted@ == sorted_view.subrange(j as int, sorted_view.len() as int),
                r@ == unkeyed(sorted_view).take(j as int),
            decreases limit - j,
        {
            let item = sorted.remove(0);
            r.push(item.0);
            j = j + 1;
            assert(r@ =~= unkeyed(sorted_view).take(j as int));
        }
        proof {
            assert forall|a: int, b: int| 0 <= a < r@.len() && 0 <= b < r@.len() && a != b implies paths_apart(
                #[trigger] r@[a].0@,
                #[trigger] r@[b].0@,
            ) by {
                assert(r@[a] == sorted_view[a].0 && r@[b] == sorted_view[b].0);
                assert(!stats_clash()(sorted_view[a].0, sorted_view[b].0));
            }
        }
        r
    }

    /// Get statistics.
    pub fn stats(&self) -> (r: TrackerStats)
        requires
            self@.room_for(0),
        ensures
            r.total_reads == count_sum(self@.reads),
            r.total_writes == count_sum(self@.writes),
            r.total_edits == count_sum(self@.edits),
            r.unique_files_read == self@.reads.len(),
            r.unique_files_written == self@.writes.len(),
            r.unique_files_edited == self@.edits.len(),
    {
        proof {
            lemma_count_sum_nonneg(self.read_counts@);
            lemma_count_sum_nonneg(self.write_counts@);
            lemma_count_sum_nonneg(self.edit_counts@);
        }
        TrackerStats {
            total_reads: sum_counts(&self.read_counts),
            total_writes: sum_counts(&self.write_counts),
            total_edits: sum_counts(&self.edit_counts),
            unique_files_read: self.read_counts.len(),
            unique_files_written: self.write_counts.len(),
            unique_files_edited: self.edit_counts.len(),
        }
    }

    fn track_tool_use(&mut self, tool_name: &str, input: &Vec<(String, JsonValue)>)
        requires
            old(self)@.room_for(1),
        ensures
            final(self)@ == track_tool_use_spec(old(self)@, tool_name@, input@),
            final(self)@.grew_by_at_most(old(self)@, 1),
            old(self).well_formed() ==> final(self).well_formed(),
    {
        proof {
            lemma_track_tool_use_total(self@, tool_name@, input@);
            lemma_count_sum_nonneg(self.read_counts@);
            lemma_count_sum_nonneg(self.write_counts@);
            lemma_count_sum_nonneg(self.edit_counts@);
        }
        let file_path = match find_input_field(input, "file_path") {
            Some(v) => match &v.string {
                Some(path) => path.clone(),
                None => return,
            },
            None => return,
        };
        if str_equal(tool_name, "Read") {
            add_access_exec(&mut self.read_counts, file_path, 1);
        } else if str_equal(tool_name, "Write") {
            add_access_exec(&mut self.write_counts, file_path, 1);
        } else if str_equal(tool_name, "Edit") || str_equal(tool_name, "MultiEdit") {
            add_access_exec(&mut self.edit_counts, file_path, 1);
        }
    }
}


proof fn lemma_matching_counts_match(m: Seq<(String, usize)>, pattern: Seq<char>)
    ensures
        forall|i: int|
            0 <= i < matching_counts(m, pattern).len() ==> pattern_matches(
                (#[trigger] matching_counts(m, pattern)[i]).0@,
                pattern,
            ),
    decreases m.len(),
{
    if m.len() > 0 {
        lemma_matching_counts_match(m.drop_last(), pattern);
        let prev = matching_counts(m.drop_last(), pattern);
        assert forall|i: int| 0 <= i < matching_counts(m, pattern).len() implies pattern_matches(
            (#[trigger] matching_counts(m, pattern)[i]).0@,
            pattern,
        ) by {
            if i < prev.len() {
                assert(prev[i] == matching_counts(m, pattern)[i]);
            }
        }
    }
}

proof fn lemma_matching_counts_all(m: Seq<(String, usize)>, pattern: Seq<char>)
    requires
        forall|i: int| 0 <= i < m.len() ==> pattern_matches((#[trigger] m[i]).0@, pattern),
    ensures
        matching_counts(m, pattern) == m,
    decreases m.len(),
{
    if m.len() > 0 {
        lemma_matching_counts_all(m.drop_last(), pattern);
        assert(m.drop_last().push(m.last()) =~= m);
    }
}

proof fn lemma_count_sum_insert(m: Seq<(String, usize)>, p: int, x: (String, usize))
    requires
        0 <= p <= m.len(),
    ensures
        count_sum(m.insert(p, x)) == count_sum(m) + x.1,
    decreases m.len(),
{
    if p == m.len() {
        assert(m.insert(p, x) =~= m.push(x));
        assert(m.push(x).drop_last() =~= m);
    } else {
        lemma_count_sum_insert(m.drop_last(), p, x);
        assert(m.insert(p, x).drop_last() =~= m.drop_last().insert(p, x));
        assert(m.insert(p, x).last() == m.last());
    }
}

proof fn lemma_count_sum_sorted(m: Seq<(String, usize)>)
    ensures
        count_sum(sort_desc(m)) == count_sum(m),
    decreases m.len(),
{
    if m.len() > 0 {
        lemma_count_sum_sorted(m.drop_last());
        let done = sort_desc(m.drop_last());
        crate::sorting::lemma_sort_desc(m.drop_last());
        lemma_desc_insert_pos_in(done, m.last().1);
        lemma_count_sum_insert(done, crate::sorting::desc_insert_pos(done, m.last().1), m.last());
    }
}

proof fn lemma_desc_insert_pos_in<T>(s: Seq<(T, usize)>, k: usize)
    ensures
        0 <= crate::sorting::desc_insert_pos(s, k) <= s.len(),
    decreases s.len(),
{
    if s.len() > 0 {
        lemma_desc_insert_pos_in(s.drop_first(), k);
    }
}

/// The files that match a pattern come most accessed first, each of them
/// matches the pattern, and they are the matching files of the merged tables,
/// each once.
pub proof fn law_files_matching_report(c: AccessCounts, pattern: Seq<char>)
    ensures
        is_sorted_desc(sort_desc(matching_counts(merged_counts(c), pattern))),
        forall|i: int|
            0 <= i < sort_desc(matching_counts(merged_counts(c), pattern)).len() ==> pattern_matches(
                (#[trigger] sort_desc(matching_counts(merged_counts(c), pattern))[i]).0@,
                pattern,
            ),
        sort_desc(matching_counts(merged_counts(c), pattern)).to_multiset() == matching_counts(
            merged_counts(c),
            pattern,
        ).to_multiset(),
{
    let m = matching_counts(merged_counts(c), pattern);
    crate::sorting::lemma_sort_desc(m);
    lemma_matching_counts_match(merged_counts(c), pattern);
    assert forall|i: int| 0 <= i < sort_desc(m).len() implies pattern_matches(
        (#[trigger] sort_desc(m)[i]).0@,
        pattern,
    ) by {
        sort_desc(m).to_multiset_ensures();
        m.to_multiset_ensures();
        assert(sort_desc(m).contains(sort_desc(m)[i]));
        assert(m.to_multiset().count(sort_desc(m)[i]) > 0);
        let k = choose|k: int| 0 <= k < m.len() && m[k] == sort_desc(m)[i];
        assert(pattern_matches(m[k].0@, pattern));
    }
}

/// The pattern `*` reports every file, and their counts add up to every
/// access that the tracker counted.
pub proof fn law_star_reports_every_access(c: AccessCounts)
    requires
        c.total() <= usize::MAX,
    ensures
        matching_counts(merged_counts(c), "*"@) == merged_counts(c),
        count_sum(sort_desc(matching_counts(merged_counts(c), "*"@))) == c.total(),
{
    reveal_strlit("*");
    assert("*"@ =~= seq!['*']);
    lemma_count_sum_nonneg(c.reads);
    lemma_count_sum_nonneg(c.writes);
    lemma_count_sum_nonneg(c.edits);
    assert(count_sum(seq![]) == 0);
    lemma_merge_counts_sum(seq![], c.reads);
    lemma_merge_counts_sum(merge_counts(seq![], c.reads), c.writes);
    lemma_merge_counts_sum(merge_counts(merge_counts(seq![], c.reads), c.writes), c.edits);
    assert forall|i: int| 0 <= i < merged_counts(c).len() implies pattern_matches(
        (#[trigger] merged_counts(c)[i]).0@,
        "*"@,
    ) by {
        law_star_matches_every_path(merged_counts(c)[i].0@);
    }
    lemma_matching_counts_all(merged_counts(c), "*"@);
    lemma_count_sum_sorted(merged_counts(c));
}

proof fn lemma_set_stats_bounded(
    acc: Seq<(String, FileAccessStats)>,
    m: Seq<(String, usize)>,
    kind: AccessKind,
    r: int,
    w: int,
    e: int,
)
    requires
        stats_bounded(acc, r, w, e),
        kind is Read ==> count_sum(m) <= r,
        kind is Write ==> count_sum(m) <= w,
        kind is Edit ==> count_sum(m) <= e,
        r >= 0 && w >= 0 && e >= 0,
    ensures
        stats_bounded(set_stats(acc, m, kind), r, w, e),
    decreases m.len(),
{
    if m.len() > 0 {
        lemma_count_sum_nonneg(m);
        lemma_count_sum_nonneg(m.drop_last());
        lemma_set_stats_bounded(acc, m.drop_last(), kind, r, w, e);
        lemma_set_stat_bounded(set_stats(acc, m.drop_last(), kind), m.last().0, kind, m.last().1, r, w, e);
    }
}

/// The top files come most accessed first, as many of them as asked for
/// where the tracker knows that many files.
pub proof fn law_top_files_ranked(c: AccessCounts, n: usize)
    requires
        c.total() <= usize::MAX,
    ensures
        ({
            let r = unkeyed(sort_desc(keyed_by_total(merged_stats(c)))).take(
                vstd::math::min(n as int, merged_stats(c).len() as int),
            );
            &&& r.len() == vstd::math::min(n as int, merged_stats(c).len() as int)
            &&& forall|i: int, j: int|
                0 <= i <= j < r.len() ==> (#[trigger] r[j]).1.total_spec() <= (#[trigger] r[i]).1.total_spec()
        }),
{
    let rs = count_sum(c.reads);
    let ws = count_sum(c.writes);
    let es = count_sum(c.edits);
    lemma_count_sum_nonneg(c.reads);
    lemma_count_sum_nonneg(c.writes);
    lemma_count_sum_nonneg(c.edits);
    let empty: Seq<(String, FileAccessStats)> = seq![];
    lemma_set_stats_bounded(empty, c.reads, AccessKind::Read, rs, ws, es);
    lemma_set_stats_bounded(set_stats(empty, c.reads, AccessKind::Read), c.writes, AccessKind::Write, rs, ws, es);
    lemma_set_stats_bounded(
        set_stats(set_stats(empty, c.reads, AccessKind::Read), c.writes, AccessKind::Write),
        c.edits,
        AccessKind::Edit,
        rs,
        ws,
        es,
    );
    let merged = merged_stats(c);
    let keyed = keyed_by_total(merged);
    let sorted = sort_desc(keyed);
    crate::sorting::lemma_sort_desc(keyed);
    sorted.to_multiset_ensures();
    keyed.to_multiset_ensures();
    assert forall|i: int| 0 <= i < sorted.len() implies (#[trigger] sorted[i]).1 == sorted[i].0.1.total_spec() by {
        assert(sorted.contains(sorted[i]));
        assert(keyed.to_multiset().count(sorted[i]) > 0);
        let k = choose|k: int| 0 <= k < keyed.len() && keyed[k] == sorted[i];
        assert(merged[k].1.reads <= rs && merged[k].1.writes <= ws && merged[k].1.edits <= es);
    }
    let len = vstd::math::min(n as int, merged.len() as int);
    let r = unkeyed(sorted).take(len);
    assert forall|i: int, j: int| 0 <= i <= j < r.len() implies (#[trigger] r[j]).1.total_spec() <= (
    #[trigger] r[i]).1.total_spec() by {
        assert(r[i] == sorted[i].0);
        assert(r[j] == sorted[j].0);
        assert(sorted[j].1 <= sorted[i].1);
    }
}

/// The count of `p` in a table: that of its last slot named `p` by text, or
/// zero where no slot is.
pub open spec fn table_count(m: Seq<(String, usize)>, p: Seq<char>) -> usize
    decreases m.len(),
{
    if m.len() == 0 {
        0
    } else if m.last().0@ == p {
        m.last().1
    } else {
        table_count(m.drop_last(), p)
    }
}

/// Some slot of the table is named `p` by text.
pub open spec fn table_has(m: Seq<(String, usize)>, p: Seq<char>) -> bool {
    exists|i: int| 0 <= i < m.len() && (#[trigger] m[i]).0@ == p
}

/// Some table of `c` has a slot named `p` by text.
pub open spec fn counted_path(c: AccessCounts, p: Seq<char>) -> bool {
    table_has(c.reads, p) || table_has(c.writes, p) || table_has(c.edits, p)
}

/// Two paths of the tables are the same path exactly when they are the same text.
pub open spec fn same_path_is_text(c: AccessCounts) -> bool {
    forall|x: Seq<char>, y: Seq<char>|
        counted_path(c, x) && counted_path(c, y) ==> (#[trigger] same_path(x, y) <==> x == y)
}

/// The statistics of the last slot named `p` by text, or zero counts.
pub open spec fn stat_at(m: Seq<(String, FileAccessStats)>, p: Seq<char>) -> FileAccessStats
    decreases m.len(),
{
    if m.len() == 0 {
        FileAccessStats { reads: 0, writes: 0, edits: 0 }
    } else if m.last().0@ == p {
        m.last().1
    } else {
        stat_at(m.drop_last(), p)
    }
}

/// Some slot of the statistics is named `p` by text.
pub open spec fn stats_has(m: Seq<(String, FileAccessStats)>, p: Seq<char>) -> bool {
    exists|i: int| 0 <= i < m.len() && (#[trigger] m[i]).0@ == p
}

/// No two slots of the statistics are named by the same text.
pub open spec fn stats_texts_distinct(m: Seq<(String, FileAccessStats)>) -> bool {
    forall|i: int, j: int| 0 <= i < j < m.len() ==> (#[trigger] m[i]).0@ != (#[trigger] m[j]).0@
}

proof fn lemma_table_count_absent(m: Seq<(String, usize)>, p: Seq<char>)
    ensures
        !table_has(m, p) ==> table_count(m, p) == 0,
        m.len() > 0 ==> table_has(m, p) == (table_has(m.drop_last(), p) || m.last().0@ == p),
    decreases m.len(),
{
    if m.len() > 0 {
        lemma_table_count_absent(m.drop_last(), p);
        if table_has(m, p) {
            let i = choose|i: int| 0 <= i < m.len() && (#[trigger] m[i]).0@ == p;
            if i < m.len() - 1 {
                assert(m.drop_last()[i] == m[i]);
            }
        }
        if table_has(m.drop_last(), p) {
            let i = choose|i: int| 0 <= i < m.drop_last().len() && (#[trigger] m.drop_last()[i]).0@ == p;
            assert(m[i] == m.drop_last()[i]);
        }
        if m.last().0@ == p {
            assert(m[m.len() - 1].0@ == p);
        }
    }
}

proof fn lemma_stats_slot_text(m: Seq<(String, FileAccessStats)>, q: Seq<char>)
    requires
        forall|i: int| 0 <= i < m.len() ==> (same_path(#[trigger] m[i].0@, q) <==> m[i].0@ == q),
    ensures
        stats_slot(m, q) matches Some(i) ==> 0 <= i < m.len() && m[i].0@ == q,
        stats_slot(m, q) is None ==> forall|i: int| 0 <= i < m.len() ==> (#[trigger] m[i]).0@ != q,
    decreases m.len(),
{
    if m.len() > 0 {
        let d = m.drop_last();
        assert forall|i: int| 0 <= i < d.len() implies (same_path(#[trigger] d[i].0@, q) <==> d[i].0@ == q) by {
            assert(d[i] == m[i]);
        }
        lemma_stats_slot_text(d, q);
        assert(m[m.len() - 1] == m.last());
        if stats_slot(m, q) is None {
            assert forall|i: int| 0 <= i < m.len() implies (#[trigger] m[i]).0@ != q by {
                if i < m.len() - 1 {
                    assert(d[i] == m[i]);
                }
            }
        }
    }
}

proof fn lemma_stat_at_slot(m: Seq<(String, FileAccessStats)>, i: int)
    requires
        stats_texts_distinct(m),
        0 <= i < m.len(),
    ensures
        stat_at(m, m[i].0@) == m[i].1,
    decreases m.len(),
{
    if i < m.len() - 1 {
        assert(m.drop_last()[i] == m[i]);
        assert(m[i].0@ != m[m.len() - 1].0@);
        lemma_stat_at_slot(m.drop_last(), i);
    }
}

proof fn lemma_stat_at_update(m: Seq<(String, FileAccessStats)>, i: int, v: FileAccessStats, q: Seq<char>)
    requires
        stats_texts_distinct(m),
        0 <= i < m.len(),
    ensures
        stat_at(m.update(i, (m[i].0, v)), q) == if m[i].0@ == q { v } else { stat_at(m, q) },
    decreases m.len(),
{
    let u = m.update(i, (m[i].0, v));
    if i == m.len() - 1 {
        assert(u.drop_last() =~= m.drop_last());
    } else {
        assert(u.drop_last() =~= m.drop_last().update(i, (m[i].0, v)));
        assert(u.last() == m.last());
        assert(m.drop_last()[i] == m[i]);
        assert(m[i].0@ != m[m.len() - 1].0@);
        lemma_stat_at_update(m.drop_last(), i, v, q);
    }
}

proof fn lemma_set_stat_text(m: Seq<(String, FileAccessStats)>, path: String, kind: AccessKind, c: usize)
    requires
        stats_texts_distinct(m),
        forall|i: int| 0 <= i < m.len() ==> (same_path(#[trigger] m[i].0@, path@) <==> m[i].0@ == path@),
    ensures
        stats_texts_distinct(set_stat(m, path, kind, c)),
        forall|q: Seq<char>| #[trigger] stats_has(set_stat(m, path, kind, c), q) <==> (stats_has(m, q) || q == path@),
        forall|q: Seq<char>|
            #[trigger] stat_at(set_stat(m, path, kind, c), q) == if q == path@ {
                with_count(stat_at(m, q), kind, c)
            } else {
                stat_at(m, q)
            },
{
    lemma_stats_slot_text(m, path@);
    let r = set_stat(m, path, kind, c);
    match stats_slot(m, path@) {
        Some(i) => {
            lemma_stat_at_slot(m, i);
            assert forall|q: Seq<char>| #[trigger] stat_at(r, q) == if q == path@ {
                with_count(stat_at(m, q), kind, c)
            } else {
                stat_at(m, q)
            } by {
                lemma_stat_at_update(m, i, with_count(m[i].1, kind, c), q);
            }
            assert forall|a: int, b: int| 0 <= a < b < r.len() implies (#[trigger] r[a]).0@ != (#[trigger] r[b]).0@ by {
                assert(r[a].0 == m[a].0 && r[b].0 == m[b].0);
            }
            assert forall|q: Seq<char>| #[trigger] stats_has(r, q) <==> (stats_has(m, q) || q == path@) by {
                if stats_has(r, q) {
                    let k = choose|k: int| 0 <= k < r.len() && (#[trigger] r[k]).0@ == q;
                    assert(r[k].0 == m[k].0);
                }
                if stats_has(m, q) {
                    let k = choose|k: int| 0 <= k < m.len() && (#[trigger] m[k]).0@ == q;
                    assert(r[k].0 == m[k].0);
                }
                if q == path@ {
                    assert(r[i].0 == m[i].0);
                }
            }
        },
        None => {
            assert(r.drop_last() =~= m);
            assert forall|a: int, b: int| 0 <= a < b < r.len() implies (#[trigger] r[a]).0@ != (#[trigger] r[b]).0@ by {
                assert(r[a] == m[a]);
                if b < m.len() {
                    assert(r[b] == m[b]);
                }
            }
            assert forall|q: Seq<char>| #[trigger] stats_has(r, q) <==> (stats_has(m, q) || q == path@) by {
                if stats_has(r, q) {
                    let k = choose|k: int| 0 <= k < r.len() && (#[trigger] r[k]).0@ == q;
                    if k < m.len() {
                        assert(r[k] == m[k]);
                    }
                }
                if stats_has(m, q) {
                    let k = choose|k: int| 0 <= k < m.len() && (#[trigger] m[k]).0@ == q;
                    assert(r[k] == m[k]);
                }
                if q == path@ {
                    assert(r[m.len() as int].0@ == q);
                }
            }
            assert(stat_at(m, path@) == FileAccessStats { reads: 0, writes: 0, edits: 0 }) by {
                lemma_stat_at_absent(m, path@);
            }
        },
    }
}

proof fn lemma_stat_at_absent(m: Seq<(String, FileAccessStats)>, q: Seq<char>)
    requires
        forall|i: int| 0 <= i < m.len() ==> (#[trigger] m[i]).0@ != q,
    ensures
        stat_at(m, q) == (FileAccessStats { reads: 0, writes: 0, edits: 0 }),
    decreases m.len(),
{
    if m.len() > 0 {
        assert(m[m.len() - 1] == m.last());
        assert forall|i: int| 0 <= i < m.drop_last().len() implies (#[trigger] m.drop_last()[i]).0@ != q by {
            assert(m.drop_last()[i] == m[i]);
        }
        lemma_stat_at_absent(m.drop_last(), q);
    }
}

proof fn lemma_set_stats_text(
    c: AccessCounts,
    acc: Seq<(String, FileAccessStats)>,
    m: Seq<(String, usize)>,
    kind: AccessKind,
)
    requires
        same_path_is_text(c),
        stats_texts_distinct(acc),
        forall|i: int| 0 <= i < acc.len() ==> counted_path(c, (#[trigger] acc[i]).0@),
        forall|i: int| 0 <= i < m.len() ==> counted_path(c, (#[trigger] m[i]).0@),
    ensures
        stats_texts_distinct(set_stats(acc, m, kind)),
        forall|i: int|
            0 <= i < set_stats(acc, m, kind).len() ==> counted_path(c, (#[trigger] set_stats(acc, m, kind)[i]).0@),
        forall|q: Seq<char>| #[trigger] stats_has(set_stats(acc, m, kind), q) <==> (stats_has(acc, q) || table_has(m, q)),
        forall|q: Seq<char>|
            #[trigger] stat_at(set_stats(acc, m, kind), q) == if table_has(m, q) {
                with_count(stat_at(acc, q), kind, table_count(m, q))
            } else {
                stat_at(acc, q)
            },
    decreases m.len(),
{
    if m.len() == 0 {
        assert forall|q: Seq<char>| !table_has(m, q) by {}
    } else {
        let d = m.drop_last();
        let x = m.last();
        assert(m[m.len() - 1] == x);
        assert forall|i: int| 0 <= i < d.len() implies counted_path(c, (#[trigger] d[i]).0@) by {
            assert(d[i] == m[i]);
        }
        lemma_set_stats_text(c, acc, d, kind);
        let prev = set_stats(acc, d, kind);
        assert(counted_path(c, x.0@));
        assert forall|i: int| 0 <= i < prev.len() implies (same_path(#[trigger] prev[i].0@, x.0@) <==> prev[i].0@ == x.0@) by {
            assert(counted_path(c, prev[i].0@));
            assert(same_path(prev[i].0@, x.0@) <==> prev[i].0@ == x.0@);
        }
        lemma_set_stat_text(prev, x.0, kind, x.1);
        let r = set_stats(acc, m, kind);
        assert(r == set_stat(prev, x.0, kind, x.1));
        assert forall|q: Seq<char>| #[trigger] stats_has(r, q) <==> (stats_has(acc, q) || table_has(m, q)) by {
            lemma_table_count_absent(m, q);
            assert(stats_has(r, q) <==> (stats_has(prev, q) || q == x.0@));
        }
        assert forall|q: Seq<char>| #[trigger] stat_at(r, q) == if table_has(m, q) {
            with_count(stat_at(acc, q), kind, table_count(m, q))
        } else {
            stat_at(acc, q)
        } by {
            lemma_table_count_absent(m, q);
            assert(stat_at(r, q) == if q == x.0@ {
                with_count(stat_at(prev, q), kind, x.1)
            } else {
                stat_at(prev, q)
            });
            assert(stat_at(prev, q) == if table_has(d, q) {
                with_count(stat_at(acc, q), kind, table_count(d, q))
            } else {
                stat_at(acc, q)
            });
        }
        assert forall|i: int| 0 <= i < r.len() implies counted_path(c, (#[trigger] r[i]).0@) by {
            assert(stats_has(r, r[i].0@));
            if stats_has(prev, r[i].0@) {
                let k = choose|k: int| 0 <= k < prev.len() && (#[trigger] prev[k]).0@ == r[i].0@;
                assert(counted_path(c, prev[k].0@));
            }
        }
    }
}

proof fn lemma_merged_stats_text(c: AccessCounts)
    requires
        same_path_is_text(c),
    ensures
        stats_texts_distinct(merged_stats(c)),
        forall|q: Seq<char>| #[trigger] stats_has(merged_stats(c), q) <==> counted_path(c, q),
        forall|q: Seq<char>|
            #[trigger] stat_at(merged_stats(c), q) == (FileAccessStats {
                reads: table_count(c.reads, q),
                writes: table_count(c.writes, q),
                edits: table_count(c.edits, q),
            }),
{
    let empty: Seq<(String, FileAccessStats)> = seq![];
    assert forall|i: int| 0 <= i < c.reads.len() implies counted_path(c, (#[trigger] c.reads[i]).0@) by {
        assert(table_has(c.reads, c.reads[i].0@));
    }
    assert forall|i: int| 0 <= i < c.writes.len() implies counted_path(c, (#[trigger] c.writes[i]).0@) by {
        assert(table_has(c.writes, c.writes[i].0@));
    }
    assert forall|i: int| 0 <= i < c.edits.len() implies counted_path(c, (#[trigger] c.edits[i]).0@) by {
        assert(table_has(c.edits, c.edits[i].0@));
    }
    lemma_set_stats_text(c, empty, c.reads, AccessKind::Read);
    let s1 = set_stats(empty, c.reads, AccessKind::Read);
    lemma_set_stats_text(c, s1, c.writes, AccessKind::Write);
    let s2 = set_stats(s1, c.writes, AccessKind::Write);
    lemma_set_stats_text(c, s2, c.edits, AccessKind::Edit);
    let s3 = set_stats(s2, c.edits, AccessKind::Edit);
    assert(s3 == merged_stats(c));
    assert forall|q: Seq<char>| #[trigger] stats_has(s3, q) <==> counted_path(c, q) by {
        assert(!stats_has(empty, q));
    }
    assert forall|q: Seq<char>| #[trigger] stat_at(s3, q) == (FileAccessStats {
        reads: table_count(c.reads, q),
        writes: table_count(c.writes, q),
        edits: table_count(c.edits, q),
    }) by {
        lemma_table_count_absent(c.reads, q);
        lemma_table_count_absent(c.writes, q);
        lemma_table_count_absent(c.edits, q);
        assert(stat_at(empty, q) == FileAccessStats { reads: 0, writes: 0, edits: 0 });
        assert(stat_at(s1, q) == FileAccessStats { reads: table_count(c.reads, q), writes: 0, edits: 0 });
        assert(stat_at(s2, q) == FileAccessStats {
            reads: table_count(c.reads, q),
            writes: table_count(c.writes, q),
            edits: 0,
        });
    }
}

/// Each file that the top files report counts, for each kind of access, the
/// file's count in that kind's own table (zero where the table does not name
/// it), and every file of the tables is ranked, where the tables' paths are
/// the same path exactly when they are the same text.
pub proof fn law_top_files_count_each_kind(c: AccessCounts, n: usize)
    requires
        same_path_is_text(c),
    ensures
        forall|q: Seq<char>| counted_path(c, q) ==> #[trigger] stats_has(merged_stats(c), q),
        ({
            let r = unkeyed(sort_desc(keyed_by_total(merged_stats(c)))).take(
                vstd::math::min(n as int, merged_stats(c).len() as int),
            );
            forall|j: int|
                0 <= j < r.len() ==> {
                    &&& counted_path(c, (#[trigger] r[j]).0@)
                    &&& r[j].1.reads == table_count(c.reads, r[j].0@)
                    &&& r[j].1.writes == table_count(c.writes, r[j].0@)
                    &&& r[j].1.edits == table_count(c.edits, r[j].0@)
                }
        }),
{
    lemma_merged_stats_text(c);
    let merged = merged_stats(c);
    let keyed = keyed_by_total(merged);
    let sorted = sort_desc(keyed);
    crate::sorting::lemma_sort_desc(keyed);
    sorted.to_multiset_ensures();
    keyed.to_multiset_ensures();
    let len = vstd::math::min(n as int, merged.len() as int);
    let r = unkeyed(sorted).take(len);
    assert forall|j: int| 0 <= j < r.len() implies {
        &&& counted_path(c, (#[trigger] r[j]).0@)
        &&& r[j].1.reads == table_count(c.reads, r[j].0@)
        &&& r[j].1.writes == table_count(c.writes, r[j].0@)
        &&& r[j].1.edits == table_count(c.edits, r[j].0@)
    } by {
        assert(r[j] == sorted[j].0);
        assert(sorted.contains(sorted[j]));
        assert(keyed.to_multiset().count(sorted[j]) > 0);
        let k = choose|k: int| 0 <= k < keyed.len() && keyed[k] == sorted[j];
        assert(keyed[k].0 == merged[k]);
        lemma_stat_at_slot(merged, k);
        assert(stats_has(merged, merged[k].0@));
        assert(stat_at(merged, merged[k].0@) == merged[k].1);
    }
}

/// No two slots of a table are named by the same text.
pub open spec fn counts_texts_distinct(m: Seq<(String, usize)>) -> bool {
    forall|i: int, j: int| 0 <= i < j < m.len() ==> (#[trigger] m[i]).0@ != (#[trigger] m[j]).0@
}

proof fn lemma_table_count_slot(m: Seq<(String, usize)>, i: int)
    requires
        counts_texts_distinct(m),
        0 <= i < m.len(),
    ensures
        table_count(m, m[i].0@) == m[i].1,
    decreases m.len(),
{
    if i < m.len() - 1 {
        assert(m.drop_last()[i] == m[i]);
        assert(m[i].0@ != m[m.len() - 1].0@);
        lemma_table_count_slot(m.drop_last(), i);
    }
}

proof fn lemma_table_count_update(m: Seq<(String, usize)>, i: int, v: usize, q: Seq<char>)
    requires
        counts_texts_distinct(m),
        0 <= i < m.len(),
    ensures
        table_count(m.update(i, (m[i].0, v)), q) == if m[i].0@ == q { v } else { table_count(m, q) },
    decreases m.len(),
{
    let u = m.update(i, (m[i].0, v));
    if i == m.len() - 1 {
        assert(u.drop_last() =~= m.drop_last());
    } else {
        assert(u.drop_last() =~= m.drop_last().update(i, (m[i].0, v)));
        assert(u.last() == m.last());
        assert(m.drop_last()[i] == m[i]);
        assert(m[i].0@ != m[m.len() - 1].0@);
        lemma_table_count_update(m.drop_last(), i, v, q);
    }
}

proof fn lemma_path_slot_text(m: Seq<(String, usize)>, q: Seq<char>)
    requires
        forall|i: int| 0 <= i < m.len() ==> (same_path(#[trigger] m[i].0@, q) <==> m[i].0@ == q),
    ensures
        path_slot(m, q) matches Some(i) ==> 0 <= i < m.len() && m[i].0@ == q,
        path_slot(m, q) is None ==> !table_has(m, q),
    decreases m.len(),
{
    if m.len() > 0 {
        let d = m.drop_last();
        assert forall|i: int| 0 <= i < d.len() implies (same_path(#[trigger] d[i].0@, q) <==> d[i].0@ == q) by {
            assert(d[i] == m[i]);
        }
        lemma_path_slot_text(d, q);
        assert(m[m.len() - 1] == m.last());
        lemma_table_count_absent(m, q);
    }
}

proof fn lemma_add_access_text(m: Seq<(String, usize)>, path: String, c: usize)
    requires
        counts_texts_distinct(m),
        forall|i: int| 0 <= i < m.len() ==> (same_path(#[trigger] m[i].0@, path@) <==> m[i].0@ == path@),
        count_sum(m) + c <= usize::MAX,
    ensures
        counts_texts_distinct(add_access(m, path, c)),
        forall|q: Seq<char>| #[trigger] table_has(add_access(m, path, c), q) <==> (table_has(m, q) || q == path@),
        forall|q: Seq<char>|
            #[trigger] table_count(add_access(m, path, c), q) == if q == path@ {
                table_count(m, q) + c
            } else {
                table_count(m, q) as int
            },
{
    lemma_path_slot_text(m, path@);
    lemma_count_sum_nonneg(m);
    let r = add_access(m, path, c);
    match path_slot(m, path@) {
        Some(i) => {
            lemma_table_count_slot(m, i);
            assert forall|q: Seq<char>| #[trigger] table_count(r, q) == if q == path@ {
                table_count(m, q) + c
            } else {
                table_count(m, q) as int
            } by {
                lemma_table_count_update(m, i, (m[i].1 + c) as usize, q);
            }
            assert forall|a: int, b: int| 0 <= a < b < r.len() implies (#[trigger] r[a]).0@ != (#[trigger] r[b]).0@ by {
                assert(r[a].0 == m[a].0 && r[b].0 == m[b].0);
            }
            assert forall|q: Seq<char>| #[trigger] table_has(r, q) <==> (table_has(m, q) || q == path@) by {
                if table_has(r, q) {
                    let k = choose|k: int| 0 <= k < r.len() && (#[trigger] r[k]).0@ == q;
                    assert(r[k].0 == m[k].0);
                }
                if table_has(m, q) {
                    let k = choose|k: int| 0 <= k < m.len() && (#[trigger] m[k]).0@ == q;
                    assert(r[k].0 == m[k].0);
                }
                if q == path@ {
                    assert(r[i].0 == m[i].0);
                }
            }
        },
        None => {
            assert(r.drop_last() =~= m);
            lemma_table_count_absent(m, path@);
            assert forall|a: int, b: int| 0 <= a < b < r.len() implies (#[trigger] r[a]).0@ != (#[trigger] r[b]).0@ by {
                assert(r[a] == m[a]);
                if b < m.len() {
                    assert(r[b] == m[b]);
                } else {
                    assert(!table_has(m, path@));
                    assert(m[a].0@ != path@);
                }
            }
            assert forall|q: Seq<char>| #[trigger] table_has(r, q) <==> (table_has(m, q) || q == path@) by {
                lemma_table_count_absent(r, q);
            }
        },
    }
}

proof fn lemma_merge_counts_text(
    c: AccessCounts,
    acc: Seq<(String, usize)>,
    m: Seq<(String, usize)>,
)
    requires
        same_path_is_text(c),
        counts_texts_distinct(acc),
        counts_texts_distinct(m),
        forall|i: int| 0 <= i < acc.len() ==> counted_path(c, (#[trigger] acc[i]).0@),
        forall|i: int| 0 <= i < m.len() ==> counted_path(c, (#[trigger] m[i]).0@),
        count_sum(acc) + count_sum(m) <= usize::MAX,
    ensures
        counts_texts_distinct(merge_counts(acc, m)),
        forall|i: int|
            0 <= i < merge_counts(acc, m).len() ==> counted_path(c, (#[trigger] merge_counts(acc, m)[i]).0@),
        forall|q: Seq<char>| #[trigger] table_has(merge_counts(acc, m), q) <==> (table_has(acc, q) || table_has(m, q)),
        forall|q: Seq<char>| #[trigger] table_count(merge_counts(acc, m), q) == table_count(acc, q) + table_count(m, q),
    decreases m.len(),
{
    if m.len() == 0 {
        assert forall|q: Seq<char>| !table_has(m, q) && table_count(m, q) == 0 by {}
    } else {
        let d = m.drop_last();
        let x = m.last();
        assert(m[m.len() - 1] == x);
        assert forall|i: int| 0 <= i < d.len() implies counted_path(c, (#[trigger] d[i]).0@) by {
            assert(d[i] == m[i]);
        }
        assert forall|a: int, b: int| 0 <= a < b < d.len() implies (#[trigger] d[a]).0@ != (#[trigger] d[b]).0@ by {
            assert(d[a] == m[a] && d[b] == m[b]);
        }
        lemma_count_sum_nonneg(acc);
        lemma_count_sum_nonneg(d);
        lemma_count_sum_nonneg(m);
        lemma_merge_counts_text(c, acc, d);
        lemma_merge_counts_sum(acc, d);
        let prev = merge_counts(acc, d);
        assert(counted_path(c, x.0@));
        assert forall|i: int| 0 <= i < prev.len() implies (same_path(#[trigger] prev[i].0@, x.0@) <==> prev[i].0@ == x.0@) by {
            assert(counted_path(c, prev[i].0@));
            assert(same_path(prev[i].0@, x.0@) <==> prev[i].0@ == x.0@);
        }
        lemma_add_access_text(prev, x.0, x.1);
        let r = merge_counts(acc, m);
        assert(r == add_access(prev, x.0, x.1));
        assert(!table_has(d, x.0@)) by {
            if table_has(d, x.0@) {
                let k = choose|k: int| 0 <= k < d.len() && (#[trigger] d[k]).0@ == x.0@;
                assert(d[k] == m[k]);
            }
        }
        lemma_table_count_absent(d, x.0@);
        assert forall|q: Seq<char>| #[trigger] table_has(r, q) <==> (table_has(acc, q) || table_has(m, q)) by {
            lemma_table_count_absent(m, q);
        }
        assert forall|q: Seq<char>| #[trigger] table_count(r, q) == table_count(acc, q) + table_count(m, q) by {
            lemma_table_count_absent(m, q);
            assert(table_count(prev, q) == table_count(acc, q) + table_count(d, q));
        }
        assert forall|i: int| 0 <= i < r.len() implies counted_path(c, (#[trigger] r[i]).0@) by {
            assert(table_has(r, r[i].0@));
            if table_has(prev, r[i].0@) {
                let k = choose|k: int| 0 <= k < prev.len() && (#[trigger] prev[k]).0@ == r[i].0@;
                assert(counted_path(c, prev[k].0@));
            }
        }
    }
}

proof fn lemma_matching_counts_keeps(m: Seq<(String, usize)>, pattern: Seq<char>, k: int)
    requires
        0 <= k < m.len(),
        pattern_matches(m[k].0@, pattern),
    ensures
        matching_counts(m, pattern).contains(m[k]),
    decreases m.len(),
{
    let mc = matching_counts(m, pattern);
    if k == m.len() - 1 {
        assert(mc[mc.len() - 1] == m[k]);
    } else {
        assert(m.drop_last()[k] == m[k]);
        lemma_matching_counts_keeps(m.drop_last(), pattern, k);
        let prev = matching_counts(m.drop_last(), pattern);
        let t = choose|t: int| 0 <= t < prev.len() && prev[t] == m[k];
        assert(mc[t] == prev[t]);
    }
}

/// Each file that matches a pattern is reported with its reads, writes and
/// edits added up, each taken from its own table (zero where the table does
/// not name it), and every file of the tables that matches the pattern is
/// reported, where no table names a file twice and the tables' paths are the
/// same path exactly when they are the same text.
pub proof fn law_files_matching_adds_each_kind(c: AccessCounts, pattern: Seq<char>)
    requires
        same_path_is_text(c),
        counts_texts_distinct(c.reads),
        counts_texts_distinct(c.writes),
        counts_texts_distinct(c.edits),
        c.total() <= usize::MAX,
    ensures
        ({
            let r = sort_desc(matching_counts(merged_counts(c), pattern));
            &&& forall|j: int|
                0 <= j < r.len() ==> {
                    &&& counted_path(c, (#[trigger] r[j]).0@)
                    &&& pattern_matches(r[j].0@, pattern)
                    &&& r[j].1 == table_count(c.reads, r[j].0@) + table_count(c.writes, r[j].0@) + table_count(
                        c.edits,
                        r[j].0@,
                    )
                }
            &&& forall|q: Seq<char>|
                counted_path(c, q) && pattern_matches(q, pattern) ==> exists|j: int|
                    0 <= j < r.len() && (#[trigger] r[j]).0@ == q
        }),
{
    let empty: Seq<(String, usize)> = seq![];
    assert(counts_texts_distinct(empty));
    assert(count_sum(empty) == 0);
    lemma_count_sum_nonneg(c.reads);
    lemma_count_sum_nonneg(c.writes);
    lemma_count_sum_nonneg(c.edits);
    assert forall|i: int| 0 <= i < c.reads.len() implies counted_path(c, (#[trigger] c.reads[i]).0@) by {
        assert(table_has(c.reads, c.reads[i].0@));
    }
    assert forall|i: int| 0 <= i < c.writes.len() implies counted_path(c, (#[trigger] c.writes[i]).0@) by {
        assert(table_has(c.writes, c.writes[i].0@));
    }
    assert forall|i: int| 0 <= i < c.edits.len() implies counted_path(c, (#[trigger] c.edits[i]).0@) by {
        assert(table_has(c.edits, c.edits[i].0@));
    }
    lemma_merge_counts_text(c, empty, c.reads);
    lemma_merge_counts_sum(empty, c.reads);
    let s1 = merge_counts(empty, c.reads);
    lemma_merge_counts_text(c, s1, c.writes);
    lemma_merge_counts_sum(s1, c.writes);
    let s2 = merge_counts(s1, c.writes);
    lemma_merge_counts_text(c, s2, c.edits);
    let merged = merge_counts(s2, c.edits);
    assert(merged == merged_counts(c));
    assert forall|q: Seq<char>| #[trigger] table_count(merged, q) == table_count(c.reads, q) + table_count(
        c.writes,
        q,
    ) + table_count(c.edits, q) by {
        lemma_table_count_absent(empty, q);
    }
    let mc = matching_counts(merged, pattern);
    let r = sort_desc(mc);
    crate::sorting::lemma_sort_desc(mc);
    r.to_multiset_ensures();
    mc.to_multiset_ensures();
    lemma_matching_counts_from(merged, pattern);
    lemma_matching_counts_match(merged, pattern);
    assert forall|j: int| 0 <= j < r.len() implies {
        &&& counted_path(c, (#[trigger] r[j]).0@)
        &&& pattern_matches(r[j].0@, pattern)
        &&& r[j].1 == table_count(c.reads, r[j].0@) + table_count(c.writes, r[j].0@) + table_count(c.edits, r[j].0@)
    } by {
        assert(r.contains(r[j]));
        assert(mc.to_multiset().count(r[j]) > 0);
        let t = choose|t: int| 0 <= t < mc.len() && mc[t] == r[j];
        assert(pattern_matches(mc[t].0@, pattern));
        let k = choose|k: int| 0 <= k < merged.len() && merged[k] == #[trigger] mc[t];
        lemma_table_count_slot(merged, k);
        assert(counted_path(c, merged[k].0@));
    }
    assert forall|q: Seq<char>| counted_path(c, q) && pattern_matches(q, pattern) implies exists|j: int|
        0 <= j < r.len() && (#[trigger] r[j]).0@ == q by {
        assert(table_has(merged, q));
        let k = choose|k: int| 0 <= k < merged.len() && (#[trigger] merged[k]).0@ == q;
        lemma_matching_counts_keeps(merged, pattern, k);
        let t = choose|t: int| 0 <= t < mc.len() && mc[t] == merged[k];
        assert(mc.to_multiset().count(mc[t]) > 0);
        assert(r.contains(merged[k]));
        let j = choose|j: int| 0 <= j < r.len() && r[j] == merged[k];
        assert(r[j].0@ == q);
    }
}

/// The `file_path` string of a tool input, if it has one.
pub open spec fn tool_file_path(input: Seq<(String, JsonValue)>) -> Option<Seq<char>> {
    match input_field(input, "file_path"@) {
        Some(v) => match v.string {
            Some(p) => Some(p@),
            None => None,
        },
        None => None,
    }
}

proof fn lemma_table_text_hyp(c: AccessCounts, m: Seq<(String, usize)>, p: Seq<char>)
    requires
        forall|x: Seq<char>| counted_path(c, x) ==> (#[trigger] same_path(x, p) <==> x == p),
        forall|i: int| 0 <= i < m.len() ==> counted_path(c, (#[trigger] m[i]).0@),
    ensures
        forall|i: int| 0 <= i < m.len() ==> (same_path(#[trigger] m[i].0@, p) <==> m[i].0@ == p),
{
    assert forall|i: int| 0 <= i < m.len() implies (same_path(#[trigger] m[i].0@, p) <==> m[i].0@ == p) by {
        assert(counted_path(c, m[i].0@));
    }
}

/// A tool use counts one access of its `file_path` in the table of its kind:
/// `Read` in the reads, `Write` in the writes, `Edit` and `MultiEdit` in the
/// edits; other tools, and inputs without a `file_path` string, count
/// nothing. Where no table names a file twice and the tables' paths are the
/// same path as the tool's exactly when they are the same text.
pub proof fn law_tool_use_counts_its_kind(c: AccessCounts, tool: Seq<char>, input: Seq<(String, JsonValue)>)
    requires
        counts_texts_distinct(c.reads),
        counts_texts_distinct(c.writes),
        counts_texts_distinct(c.edits),
        c.room_for(1),
        tool_file_path(input) matches Some(p) ==> forall|x: Seq<char>|
            counted_path(c, x) ==> (#[trigger] same_path(x, p) <==> x == p),
    ensures
        tool_file_path(input) is None ==> track_tool_use_spec(c, tool, input) == c,
        tool_file_path(input) matches Some(p) ==> forall|q: Seq<char>| {
            &&& #[trigger] table_count(track_tool_use_spec(c, tool, input).reads, q) == table_count(c.reads, q) + if tool
                == "Read"@ && q == p {
                1int
            } else {
                0int
            }
            &&& table_count(track_tool_use_spec(c, tool, input).writes, q) == table_count(c.writes, q) + if tool
                == "Write"@ && q == p {
                1int
            } else {
                0int
            }
            &&& table_count(track_tool_use_spec(c, tool, input).edits, q) == table_count(c.edits, q) + if (tool
                == "Edit"@ || tool == "MultiEdit"@) && q == p {
                1int
            } else {
                0int
            }
        },
{
    reveal_strlit("Read");
    reveal_strlit("Write");
    reveal_strlit("Edit");
    reveal_strlit("MultiEdit");
    assert("Read"@ != "Write"@) by {
        assert("Read"@.len() != "Write"@.len());
    }
    assert("Read"@ != "Edit"@) by {
        assert("Read"@[0] != "Edit"@[0]);
    }
    assert("Read"@ != "MultiEdit"@) by {
        assert("Read"@.len() != "MultiEdit"@.len());
    }
    assert("Write"@ != "Edit"@) by {
        assert("Write"@.len() != "Edit"@.len());
    }
    assert("Write"@ != "MultiEdit"@) by {
        assert("Write"@.len() != "MultiEdit"@.len());
    }
    if let Some(p) = tool_file_path(input) {
        let v = input_field(input, "file_path"@)->0;
        let path = v.string->0;
        assert(path@ == p);
        assert forall|i: int| 0 <= i < c.reads.len() implies counted_path(c, (#[trigger] c.reads[i]).0@) by {
            assert(table_has(c.reads, c.reads[i].0@));
        }
        assert forall|i: int| 0 <= i < c.writes.len() implies counted_path(c, (#[trigger] c.writes[i]).0@) by {
            assert(table_has(c.writes, c.writes[i].0@));
        }
        assert forall|i: int| 0 <= i < c.edits.len() implies counted_path(c, (#[trigger] c.edits[i]).0@) by {
            assert(table_has(c.edits, c.edits[i].0@));
        }
        lemma_table_text_hyp(c, c.reads, p);
        lemma_table_text_hyp(c, c.writes, p);
        lemma_table_text_hyp(c, c.edits, p);
        lemma_add_access_text(c.reads, path, 1);
        lemma_add_access_text(c.writes, path, 1);
        lemma_add_access_text(c.edits, path, 1);
    }
}

/// How far context reaches on each side of an occurrence, in bytes.
pub const CONTEXT_CHARS: usize = 100;

/// The bytes of `.`, `!` and `?`, which end a sentence.
pub open spec fn is_sentence_end(c: u8) -> bool {
    c == 46 || c == 33 || c == 63
}

/// The index of the last sentence end in `s`.
pub open spec fn last_sentence_end(s: Seq<u8>) -> Option<int>
    decreases s.len(),
{
    if s.len() == 0 {
        None
    } else if is_sentence_end(s.last()) {
        Some(s.len() - 1)
    } else {
        last_sentence_end(s.drop_last())
    }
}

/// The index of the first sentence end in `s`.
pub open spec fn first_sentence_end(s: Seq<u8>) -> Option<int>
    decreases s.len(),
{
    if s.len() == 0 {
        None
    } else if is_sentence_end(s[0]) {
        Some(0)
    } else {
        match first_sentence_end(s.drop_first()) {
            Some(i) => Some(i + 1),
            None => None,
        }
    }
}

/// Where the context of an occurrence at `pos` begins: at most
/// `CONTEXT_CHARS` bytes back, just after the last sentence end there.
pub open spec fn context_start(b: Seq<u8>, pos: int) -> int {
    if pos > CONTEXT_CHARS {
        let ss = pos - CONTEXT_CHARS;
        match last_sentence_end(b.subrange(ss, pos)) {
            Some(p) => ss + p + 1,
            None => ss,
        }
    } else {
        0
    }
}

/// Where the context of an occurrence of `len` bytes at `pos` ends: at most
/// `CONTEXT_CHARS` bytes on, just after the first sentence end there.
pub open spec fn context_end(b: Seq<u8>, pos: int, len: int) -> int {
    let ep = pos + len;
    if ep + CONTEXT_CHARS < b.len() {
        let se = ep + CONTEXT_CHARS;
        match first_sentence_end(b.subrange(ep, se)) {
            Some(p) => ep + p + 1,
            None => se,
        }
    } else {
        b.len() as int
    }
}

/// Every slice that `extract_context` takes of text with bytes `b` is in
/// order and on character boundaries, and its sums fit in `usize`.
pub open spec fn context_safe(b: Seq<u8>, pos: int, len: int) -> bool {
    let start = context_start(b, pos);
    let end = context_end(b, pos, len);
    &&& 0 <= pos
    &&& 0 <= len
    &&& pos + len + CONTEXT_CHARS <= usize::MAX
    &&& pos > CONTEXT_CHARS ==> pos <= b.len() && is_char_boundary(b, pos - CONTEXT_CHARS)
        && is_char_boundary(b, pos)
    &&& pos + len + CONTEXT_CHARS < b.len() ==> is_char_boundary(b, pos + len) && is_char_boundary(
        b,
        pos + len + CONTEXT_CHARS,
    )
    &&& start <= end
    &&& is_char_boundary(b, start)
    &&& is_char_boundary(b, end)
}

/// The context of an occurrence of `len` bytes at byte `pos` of `text`: the
/// surrounding text, trimmed, with `...` where it was cut short.
pub open spec fn context_spec(text: Seq<char>, pos: int, len: int) -> Seq<char> {
    let b = encode_utf8(text);
    let start = context_start(b, pos);
    let end = context_end(b, pos, len);
    let core = trim(decode_utf8(b.subrange(start, end)));
    let with_head = if start > 0 { "..."@ + core } else { core };
    if end < b.len() { with_head + "..."@ } else { with_head }
}

proof fn lemma_sentence_end_bounds(s: Seq<u8>)
    ensures
        last_sentence_end(s) matches Some(p) ==> 0 <= p < s.len() && is_sentence_end(s[p]),
        first_sentence_end(s) matches Some(p) ==> 0 <= p < s.len() && is_sentence_end(s[p]),
    decreases s.len(),
{
    if s.len() > 0 {
        lemma_sentence_end_bounds(s.drop_last());
        lemma_sentence_end_bounds(s.drop_first());
    }
}

/// The context of an occurrence takes in the whole occurrence, and reaches
/// at most `CONTEXT_CHARS` bytes before and after it.
pub proof fn law_context_surrounds_occurrence(b: Seq<u8>, pos: int, len: int)
    requires
        0 <= pos,
        0 <= len,
        pos + len <= b.len(),
    ensures
        context_start(b, pos) <= pos,
        pos - context_start(b, pos) <= CONTEXT_CHARS,
        pos + len <= context_end(b, pos, len),
        context_end(b, pos, len) - (pos + len) <= CONTEXT_CHARS,
        context_end(b, pos, len) <= b.len(),
{
    if pos > CONTEXT_CHARS {
        lemma_sentence_end_bounds(b.subrange(pos - CONTEXT_CHARS, pos));
    }
    let ep = pos + len;
    if ep + CONTEXT_CHARS < b.len() {
        lemma_sentence_end_bounds(b.subrange(ep, ep + CONTEXT_CHARS));
    }
}

proof fn lemma_after_last_stop(s: Seq<u8>, k: int)
    requires
        0 <= k < s.len(),
        match last_sentence_end(s) {
            Some(p) => p < k,
            None => true,
        },
    ensures
        !is_sentence_end(s[k]),
    decreases s.len(),
{
    if !is_sentence_end(s.last()) && k < s.len() - 1 {
        assert(s[k] == s.drop_last()[k]);
        lemma_after_last_stop(s.drop_last(), k);
    }
}

proof fn lemma_before_first_stop(s: Seq<u8>, k: int)
    requires
        0 <= k < s.len(),
        match first_sentence_end(s) {
            Some(p) => k < p,
            None => true,
        },
    ensures
        !is_sentence_end(s[k]),
    decreases s.len(),
{
    if !is_sentence_end(s[0]) && k > 0 {
        assert(s[k] == s.drop_first()[k - 1]);
        lemma_before_first_stop(s.drop_first(), k - 1);
    }
}

/// The bytes `.`, `!` and `?`.
pub open spec fn stop_byte(c: u8) -> bool {
    c == 0x2e || c == 0x21 || c == 0x3f
}

/// The context of an occurrence begins just after the last `.`, `!` or `?`
/// in the hundred bytes before it, or a hundred bytes before it where there is
/// none (at the start of the text where the occurrence is nearer to it); it
/// ends just after the first `.`, `!` or `?` in the hundred bytes after it, or
/// a hundred bytes after it where there is none (at the end of the text where
/// that is nearer).
pub proof fn law_context_stops_at_sentence_ends(b: Seq<u8>, pos: int, len: int)
    requires
        0 <= pos,
        0 <= len,
        pos + len <= b.len(),
    ensures
        pos <= 100 ==> context_start(b, pos) == 0,
        pos > 100 ==> pos - 100 <= context_start(b, pos) <= pos,
        pos > 100 ==> forall|k: int| context_start(b, pos) <= k < pos ==> !stop_byte(#[trigger] b[k]),
        pos > 100 ==> context_start(b, pos) == pos - 100 || stop_byte(b[context_start(b, pos) - 1]),
        pos + len + 100 >= b.len() ==> context_end(b, pos, len) == b.len(),
        pos + len + 100 < b.len() ==> pos + len < context_end(b, pos, len) <= pos + len + 100,
        pos + len + 100 < b.len() ==> forall|k: int|
            pos + len <= k < context_end(b, pos, len) - 1 ==> !stop_byte(#[trigger] b[k]),
        pos + len + 100 < b.len() ==> context_end(b, pos, len) == pos + len + 100 || stop_byte(
            b[context_end(b, pos, len) - 1],
        ),
{
    if pos > 100 {
        let w = b.subrange(pos - 100, pos);
        lemma_sentence_end_bounds(w);
        assert forall|k: int| context_start(b, pos) <= k < pos implies !stop_byte(#[trigger] b[k]) by {
            assert(b[k] == w[k - (pos - 100)]);
            lemma_after_last_stop(w, k - (pos - 100));
        }
        if let Some(p) = last_sentence_end(w) {
            assert(b[pos - 100 + p] == w[p]);
        }
    }
    let ep = pos + len;
    if ep + 100 < b.len() {
        let w = b.subrange(ep, ep + 100);
        lemma_sentence_end_bounds(w);
        assert forall|k: int| ep <= k < context_end(b, pos, len) - 1 implies !stop_byte(#[trigger] b[k]) by {
            assert(b[k] == w[k - ep]);
            lemma_before_first_stop(w, k - ep);
        }
        if let Some(p) = first_sentence_end(w) {
            assert(b[ep + p] == w[p]);
        }
    }
}

/// The index of the last sentence end in `b` between `lo` and `hi`, relative to `lo`.
fn rfind_sentence_end(b: &[u8], lo: usize, hi: usize) -> (r: Option<usize>)
    requires
        lo <= hi <= b@.len(),
    ensures
        match r {
            Some(p) => last_sentence_end(b@.subrange(lo as int, hi as int)) == Some(p as int),
            None => last_sentence_end(b@.subrange(lo as int, hi as int)) is None,
        },
        r matches Some(p) ==> p < hi - lo,
{
    proof {
        lemma_sentence_end_bounds(b@.subrange(lo as int, hi as int));
    }
    let mut i = hi;
    while i > lo
        invariant
            lo <= i <= hi <= b@.len(),
            last_sentence_end(b@.subrange(lo as int, hi as int)) == last_sentence_end(
                b@.subrange(lo as int, i as int),
            ),
        decreases i - lo,
    {
        let c = b[i - 1];
        assert(b@.subrange(lo as int, i as int).drop_last() == b@.subrange(lo as int, i - 1));
        if c == 46 || c == 33 || c == 63 {
            return Some(i - 1 - lo);
        }
        i = i - 1;
    }
    None
}

proof fn lemma_first_sentence_end_skip(s: Seq<u8>, k: int)
    requires
        0 <= k < s.len(),
        !is_sentence_end(s[k]),
    ensures
        first_sentence_end(s.subrange(k, s.len() as int)) == match first_sentence_end(
            s.subrange(k + 1, s.len() as int),
        ) {
            Some(i) => Some(i + 1),
            None => None::<int>,
        },
{
    assert(s.subrange(k, s.len() as int).drop_first() == s.subrange(k + 1, s.len() as int));
}

/// The index of the first sentence end in `b` between `lo` and `hi`, relative to `lo`.
fn find_sentence_end(b: &[u8], lo: usize, hi: usize) -> (r: Option<usize>)
    requires
        lo <= hi <= b@.len(),
    ensures
        match r {
            Some(p) => first_sentence_end(b@.subrange(lo as int, hi as int)) == Some(p as int),
            None => first_sentence_end(b@.subrange(lo as int, hi as int)) is None,
        },
        r matches Some(p) ==> p < hi - lo,
{
    proof {
        lemma_sentence_end_bounds(b@.subrange(lo as int, hi as int));
    }
    let ghost w = b@.subrange(lo as int, hi as int);
    let mut i = lo;
    assert(w.subrange(0, w.len() as int) == w);
    while i < hi
        invariant
            lo <= i <= hi <= b@.len(),
            w == b@.subrange(lo as int, hi as int),
            first_sentence_end(w) == match first_sentence_end(w.subrange(i - lo, w.len() as int)) {
                Some(k) => Some(k + (i - lo)),
                None => None::<int>,
            },
        decreases hi - i,
    {
        let c = b[i];
        assert(w[i - lo] == c);
        if c == 46 || c == 33 || c == 63 {
            assert(w.subrange(i - lo, w.len() as int)[0] == c);
            return Some(i - lo);
        }
        proof {
            lemma_first_sentence_end_skip(w, i - lo);
        }
        i = i + 1;
    }
    assert(w.subrange(w.len() as int, w.len() as int).len() == 0);
    None
}

/// The context around an occurrence, or `None` where `extract_context`
/// would slice off a character boundary or overflow.
fn context_checked(text: &str, pos: usize, phrase_len: usize) -> (r: Option<String>)
    ensures
        r is Some <==> context_safe(text.spec_bytes(), pos as int, phrase_len as int),
        r matches Some(c) ==> c@ == context_spec(text@, pos as int, phrase_len as int),
{
    let b = text.as_bytes();
    let n = b.len();
    let ghost bs = text.spec_bytes();
    assert(b@ == bs);
    if pos > usize::MAX - CONTEXT_CHARS || phrase_len > usize::MAX - CONTEXT_CHARS - pos {
        return None;
    }
    let start = if pos > CONTEXT_CHARS {
        let ss = pos - CONTEXT_CHARS;
        if pos > n || !text.is_char_boundary(ss) || !text.is_char_boundary(pos) {
            return None;
        }
        match rfind_sentence_end(b, ss, pos) {
            Some(p) => ss + p + 1,
            None => ss,
        }
    } else {
        0
    };
    let end_pos = pos + phrase_len;
    let end = if end_pos + CONTEXT_CHARS < n {
        let se = end_pos + CONTEXT_CHARS;
        if !text.is_char_boundary(end_pos) || !text.is_char_boundary(se) {
            return None;
        }
        match find_sentence_end(b, end_pos, se) {
            Some(p) => end_pos + p + 1,
            None => se,
        }
    } else {
        n
    };
    assert(start == context_start(bs, pos as int));
    assert(end == context_end(bs, pos as int, phrase_len as int));
    if start > end || !text.is_char_boundary(start) || !text.is_char_boundary(end) {
        return None;
    }
    let piece = substr(text, start, end);
    let piece_chars = chars_of(piece);
    let core = trim_chars(piece_chars.as_slice());
    let mut out: Vec<char> = Vec::new();
    if start > 0 {
        push_str(&mut out, "...");
    }
    push_chars(&mut out, core.as_slice());
    if end < n {
        push_str(&mut out, "...");
    }
    Some(string_of(out.as_slice()))
}

/// Extract context around a phrase occurrence at byte `pos` of `text`.
pub fn extract_context(text: &str, pos: usize, phrase_len: usize) -> (r: String)
    requires
        context_safe(text.spec_bytes(), pos as int, phrase_len as int),
    ensures
        r@ == context_spec(text@, pos as int, phrase_len as int),
{
    match context_checked(text, pos, phrase_len) {
        Some(c) => c,
        None => {
            proof {
                assert(false);
            }
            String::new()
        },
    }
}


/// The lowercase form of a string, as `str::to_lowercase` gives it.
pub uninterp spec fn lowercase(s: Seq<char>) -> Seq<char>;

/// ASCII text with `A` to `Z` written as `a` to `z`.
pub open spec fn ascii_lowercase(s: Seq<char>) -> Seq<char> {
    s.map_values(|c: char| if 'A' <= c && c <= 'Z' { ((c as u32) + 32) as char } else { c })
}

/// `str::to_lowercase` (std): every character mapped to its Unicode
/// lowercase form; the result is named by `lowercase`. Text of ASCII
/// characters only keeps its characters but for `A` to `Z`, which become
/// `a` to `z`.
#[verifier::external_body]
pub(crate) fn to_lowercase(s: &str) -> (r: String)
    ensures
        r@ == lowercase(s@),
        (forall|i: int| 0 <= i < s@.len() ==> (#[trigger] s@[i] as u32) < 128) ==> r@ == ascii_lowercase(s@),
{
    s.to_lowercase()
}

/// The outcome of searching `text` with the regular expression `pattern`:
/// the byte spans of the matches, or the message of the compile error.
pub uninterp spec fn regex_search(pattern: Seq<char>, text: Seq<char>) -> Result<Seq<(usize, usize)>, Seq<char>>;

/// Compiles `pattern` with `regex::Regex::new` and collects the byte spans of
/// the successive matches that `Regex::find_iter` reports in `text`; where the
/// pattern does not compile, gives the message of `regex::Error`. As the
/// crate documents it, each match starts no later than it ends, and both ends
/// fall on character boundaries of `text`. The outcome is named by `regex_search`.
#[verifier::external_body]
fn find_regex_spans(pattern: &str, text: &str) -> (r: Result<Vec<(usize, usize)>, String>)
    ensures
        match r {
            Ok(v) => {
                &&& regex_search(pattern@, text@) == Ok::<Seq<(usize, usize)>, Seq<char>>(v@)
                &&& forall|i: int|
                    0 <= i < v@.len() ==> (#[trigger] v@[i]).0 <= v@[i].1 <= text.spec_bytes().len()
                        && is_char_boundary(text.spec_bytes(), v@[i].0 as int) && is_char_boundary(
                        text.spec_bytes(),
                        v@[i].1 as int,
                    )
            },
            Err(e) => regex_search(pattern@, text@) == Err::<Seq<(usize, usize)>, Seq<char>>(e@),
        },
{
    match regex::Regex::new(pattern) {
        Ok(re) => Ok(re.find_iter(text).map(|m| (m.start(), m.end())).collect()),
        Err(e) => Err(e.to_string()),
    }
}

/// Context around a phrase occurrence.
#[derive(Debug, Clone)]
pub struct PhraseContext {
    pub phrase: String,
    pub context: String,
    pub timestamp: String,
}

/// A phrase occurrence as plain character sequences.
pub struct PhraseContextView {
    pub phrase: Seq<char>,
    pub context: Seq<char>,
    pub timestamp: Seq<char>,
}

impl View for PhraseContext {
    type V = PhraseContextView;

    open spec fn view(&self) -> PhraseContextView {
        PhraseContextView { phrase: self.phrase@, context: self.context@, timestamp: self.timestamp@ }
    }
}

/// The occurrences of `needle` in `hay` that a literal scan from `start`
/// reports: each search resumes `step` bytes after the last occurrence.
pub open spec fn literal_positions(hay: Seq<u8>, needle: Seq<u8>, step: int, start: int) -> Seq<int>
    decreases hay.len() + 1 - start,
{
    if step <= 0 || start < 0 || start > hay.len() {
        seq![]
    } else {
        match find_from(hay, needle, start) {
            None => seq![],
            Some(p) => {
                proof {
                    lemma_find_from_some(hay, needle, start);
                }
                if p + step > hay.len() {
                    seq![p]
                } else {
                    seq![p] + literal_positions(hay, needle, step, p + step)
                }
            },
        }
    }
}

/// A literal scan from `start` never slices `hay` off a character boundary
/// nor past its end, and the context of each occurrence it reports in the
/// text with bytes `text` can be taken.
pub open spec fn literal_scan_ok(text: Seq<u8>, hay: Seq<u8>, needle: Seq<u8>, step: int, start: int) -> bool
    decreases hay.len() + 1 - start,
{
    if step <= 0 || start < 0 || start > hay.len() || !is_char_boundary(hay, start) {
        false
    } else {
        match find_from(hay, needle, start) {
            None => true,
            Some(p) => {
                proof {
                    lemma_find_from_some(hay, needle, start);
                }
                if !context_safe(text, p, step) || p + step > hay.len() {
                    false
                } else {
                    literal_scan_ok(text, hay, needle, step, p + step)
                }
            },
        }
    }
}

/// The occurrences of a phrase in a text, each with its context, as literal
/// matching finds them: the lowercase phrase is searched in the lowercase text.
pub open spec fn literal_records(text: Seq<char>, phrase: Seq<char>, timestamp: Seq<char>) -> Seq<(Seq<char>, PhraseContextView)> {
    let step = encode_utf8(phrase).len() as int;
    literal_positions(encode_utf8(lowercase(text)), encode_utf8(lowercase(phrase)), step, 0).map_values(
        |p: int| (phrase, PhraseContextView {
            phrase: phrase,
            context: context_spec(text, p, step),
            timestamp: timestamp,
        }),
    )
}

/// A literal scan reports only places where the needle occurs, from where
/// it starts on, each at least a phrase length after the one before.
pub proof fn law_literal_positions_are_occurrences(hay: Seq<u8>, needle: Seq<u8>, step: int, start: int)
    ensures
        forall|k: int|
            0 <= k < literal_positions(hay, needle, step, start).len() ==> occurs_at(
                hay,
                needle,
                #[trigger] literal_positions(hay, needle, step, start)[k],
            ) && start <= literal_positions(hay, needle, step, start)[k],
        forall|k: int|
            0 <= k < literal_positions(hay, needle, step, start).len() - 1 ==> #[trigger] literal_positions(
                hay,
                needle,
                step,
                start,
            )[k] + step <= literal_positions(hay, needle, step, start)[k + 1],
    decreases hay.len() + 1 - start,
{
    if !(step <= 0 || start < 0 || start > hay.len()) {
        if let Some(p) = find_from(hay, needle, start) {
            lemma_find_from_some(hay, needle, start);
            if p + step <= hay.len() {
                let rest = literal_positions(hay, needle, step, p + step);
                law_literal_positions_are_occurrences(hay, needle, step, p + step);
                let all = literal_positions(hay, needle, step, start);
                assert(all == seq![p] + rest);
                assert forall|k: int| 0 <= k < all.len() implies occurs_at(hay, needle, #[trigger] all[k])
                    && start <= all[k] by {
                    if k > 0 {
                        assert(all[k] == rest[k - 1]);
                    }
                }
                assert forall|k: int| 0 <= k < all.len() - 1 implies #[trigger] all[k] + step <= all[k + 1] by {
                    assert(all[k + 1] == rest[k]);
                    if k > 0 {
                        assert(all[k] == rest[k - 1]);
                    }
                }
            }
        }
    }
}

/// Each record of literal matching is the phrase, with the context of a
/// place where the lowercase phrase occurs in the lowercase text and with the
/// message's timestamp; the places come in order, each at least a phrase
/// length after the one before.
pub proof fn law_literal_records_are_occurrences(text: Seq<char>, phrase: Seq<char>, timestamp: Seq<char>)
    ensures
        ({
            let hay = encode_utf8(lowercase(text));
            let needle = encode_utf8(lowercase(phrase));
            let step = encode_utf8(phrase).len() as int;
            let recs = literal_records(text, phrase, timestamp);
            &&& recs.len() == literal_positions(hay, needle, step, 0).len()
            &&& forall|j: int|
                0 <= j < recs.len() ==> {
                    let p = literal_positions(hay, needle, step, 0)[j];
                    &&& occurs_at(hay, needle, p)
                    &&& (#[trigger] recs[j]).0 == phrase
                    &&& recs[j].1.phrase == phrase
                    &&& recs[j].1.timestamp == timestamp
                    &&& recs[j].1.context == context_spec(text, p, step)
                }
            &&& forall|j: int|
                0 <= j < recs.len() - 1 ==> literal_positions(hay, needle, step, 0)[j] + step
                    <= #[trigger] literal_positions(hay, needle, step, 0)[j + 1]
        }),
{
    let hay = encode_utf8(lowercase(text));
    let needle = encode_utf8(lowercase(phrase));
    let step = encode_utf8(phrase).len() as int;
    law_literal_positions_are_occurrences(hay, needle, step, 0);
    let ps = literal_positions(hay, needle, step, 0);
    let recs = literal_records(text, phrase, timestamp);
    assert forall|j: int| 0 <= j < recs.len() implies {
        let p = ps[j];
        &&& occurs_at(hay, needle, p)
        &&& (#[trigger] recs[j]).0 == phrase
        &&& recs[j].1.phrase == phrase
        &&& recs[j].1.timestamp == timestamp
        &&& recs[j].1.context == context_spec(text, p, step)
    } by {
        assert(occurs_at(hay, needle, ps[j]));
    }
}

/// Literal matching of a phrase in a text neither panics nor runs forever.
pub open spec fn literal_ok(text: Seq<char>, phrase: Seq<char>) -> bool {
    literal_scan_ok(
        encode_utf8(text),
        encode_utf8(lowercase(text)),
        encode_utf8(lowercase(phrase)),
        encode_utf8(phrase).len() as int,
        0,
    )
}

/// The records as plain sequences.
pub open spec fn records_view(v: Seq<(String, PhraseContext)>) -> Seq<(Seq<char>, PhraseContextView)> {
    v.map_values(|r: (String, PhraseContext)| (r.0@, r.1@))
}

/// The occurrences of `phrase` in `content`, whose lowercase form is
/// `lower`, or `None` where literal matching would panic.
fn literal_records_exec(content: &str, lower: &str, phrase: &String, timestamp: &String) -> (r: Option<Vec<(String, PhraseContext)>>)
    requires
        lower@ == lowercase(content@),
    ensures
        r is Some <==> literal_ok(content@, phrase@),
        r matches Some(v) ==> records_view(v@) == literal_records(content@, phrase@, timestamp@),
{
    let plower = to_lowercase(phrase.as_str());
    let hay = lower.as_bytes();
    let needle = plower.as_str().as_bytes();
    let step = phrase.as_str().as_bytes().len();
    let ghost cb = content.spec_bytes();
    proof {
        encode_utf8_valid_utf8(lower@);
        encode_utf8_valid_utf8(content@);
    }
    let ghost hb = hay@;
    let ghost nb = needle@;
    let ghost st = step as int;
    let ghost all = literal_positions(hb, nb, st, 0);
    let ghost mk = |p: int| (phrase@, PhraseContextView {
        phrase: phrase@,
        context: context_spec(content@, p, st),
        timestamp: timestamp@,
    });
    if step == 0 {
        return None;
    }
    let mut out: Vec<(String, PhraseContext)> = Vec::new();
    let mut start: usize = 0;
    let ghost mut found: Seq<int> = seq![];
    loop
        invariant
            step > 0,
            hb == hay@,
            nb == needle@,
            cb == content.spec_bytes(),
            st == step,
            lower@ == lowercase(content@),
            hb == lower.spec_bytes(),
            hb == encode_utf8(lowercase(content@)),
            nb == encode_utf8(lowercase(phrase@)),
            st == encode_utf8(phrase@).len(),
            vstd::utf8::valid_utf8(hb),
            all == literal_positions(hb, nb, st, 0),
            all == found + literal_positions(hb, nb, st, start as int),
            literal_ok(content@, phrase@) == literal_scan_ok(cb, hb, nb, st, start as int),
            records_view(out@) == found.map_values(mk),
            mk == (|p: int| (phrase@, PhraseContextView {
                phrase: phrase@,
                context: context_spec(content@, p, st),
                timestamp: timestamp@,
            })),
        decreases hay@.len() + 1 - start,
    {
        if start > hay.len() || !lower.is_char_boundary(start) {
            assert(!literal_scan_ok(cb, hb, nb, st, start as int));
            return None;
        }
        assert(is_char_boundary(hb, start as int));
        match find_bytes_from(hay, needle, start) {
            None => {
                assert(find_from(hb, nb, start as int) is None);
                assert(literal_scan_ok(cb, hb, nb, st, start as int));
                assert(literal_positions(hb, nb, st, start as int) == Seq::<int>::empty());
                assert(all == found);
                assert(found.map_values(mk) =~= literal_records(content@, phrase@, timestamp@));
                return Some(out);
            },
            Some(p) => {
                proof {
                    lemma_find_from_some(hb, nb, start as int);
                }
                let ctx = match context_checked(content, p, step) {
                    Some(c) => c,
                    None => {
                        return None;
                    },
                };
                let rec = PhraseContext { phrase: phrase.clone(), context: ctx, timestamp: timestamp.clone() };
                let ghost old_out = out@;
                out.push((phrase.clone(), rec));
                proof {
                    let nf = found.push(p as int);
                    assert(out@.len() == old_out.len() + 1);
                    assert(records_view(old_out).len() == old_out.len());
                    assert(found.map_values(mk).len() == found.len());
                    assert(records_view(old_out).len() == found.len());
                    assert(records_view(out@).len() == nf.map_values(mk).len());
                    assert forall|k: int| 0 <= k < nf.len() implies records_view(out@)[k] == nf.map_values(mk)[k] by {
                        if k < found.len() {
                            assert(out@[k] == old_out[k]);
                            assert(records_view(old_out)[k] == found.map_values(mk)[k]);
                        }
                    }
                    assert(records_view(out@) =~= nf.map_values(mk));
                }
                if step > hay.len() - p {
                    return None;
                }
                proof {
                    assert(literal_positions(hb, nb, st, start as int) == seq![p as int] + literal_positions(hb, nb, st, p + st));
                    assert(found.push(p as int) + literal_positions(hb, nb, st, p + st) =~= found + (seq![p as int] + literal_positions(hb, nb, st, p + st)));
                    found = found.push(p as int);
                }
                start = p + step;
            },
        }
    }
}


/// The pattern handed to the regex engine: `pattern` made case-insensitive.
pub open spec fn case_insensitive(pattern: Seq<char>) -> Seq<char> {
    "(?i)"@ + pattern
}

/// The matches of a regex pattern in a text, each with its context.
pub open spec fn regex_records(text: Seq<char>, pattern: Seq<char>, timestamp: Seq<char>) -> Seq<(Seq<char>, PhraseContextView)> {
    match regex_search(case_insensitive(pattern), text) {
        Ok(spans) => spans.map_values(
            |sp: (usize, usize)| (pattern, PhraseContextView {
                phrase: decode_utf8(encode_utf8(text).subrange(sp.0 as int, sp.1 as int)),
                context: context_spec(text, sp.0 as int, sp.1 - sp.0),
                timestamp: timestamp,
            }),
        ),
        Err(_) => seq![],
    }
}

/// The context of every match span in a text can be taken.
pub open spec fn spans_ok(text: Seq<char>, spans: Seq<(usize, usize)>) -> bool {
    forall|k: int|
        0 <= k < spans.len() ==> context_safe(
            encode_utf8(text),
            (#[trigger] spans[k]).0 as int,
            spans[k].1 - spans[k].0,
        )
}

/// The context of every match of a regex pattern in a text can be taken.
pub open spec fn regex_ok(text: Seq<char>, pattern: Seq<char>) -> bool {
    match regex_search(case_insensitive(pattern), text) {
        Ok(spans) => spans_ok(text, spans),
        Err(_) => true,
    }
}

/// The warning for a regex pattern that does not compile.
pub open spec fn regex_warning(text: Seq<char>, pattern: Seq<char>) -> Option<Seq<char>> {
    match regex_search(case_insensitive(pattern), text) {
        Ok(_) => None,
        Err(e) => Some("Invalid regex pattern '"@ + pattern + "': "@ + e),
    }
}

/// The matches of `pattern` in `content`, or `None` where taking a context
/// would panic; and the warning when the pattern does not compile.
fn regex_records_exec(content: &str, pattern: &String, timestamp: &String) -> (r: (
    Option<Vec<(String, PhraseContext)>>,
    Option<String>,
))
    ensures
        r.0 is Some <==> regex_ok(content@, pattern@),
        r.0 matches Some(v) ==> records_view(v@) == regex_records(content@, pattern@, timestamp@),
        match r.1 {
            Some(w) => regex_warning(content@, pattern@) == Some(w@),
            None => regex_warning(content@, pattern@) is None,
        },
{
    let mut full: Vec<char> = Vec::new();
    push_str(&mut full, "(?i)");
    push_str(&mut full, pattern.as_str());
    let full_pattern = string_of(full.as_slice());
    proof {
        encode_utf8_valid_utf8(content@);
    }
    match find_regex_spans(full_pattern.as_str(), content) {
        Err(e) => {
            let mut w: Vec<char> = Vec::new();
            push_str(&mut w, "Invalid regex pattern '");
            push_str(&mut w, pattern.as_str());
            push_str(&mut w, "': ");
            push_str(&mut w, e.as_str());
            let out: Vec<(String, PhraseContext)> = Vec::new();
            proof {
                assert(records_view(out@) =~= regex_records(content@, pattern@, timestamp@));
            }
            (Some(out), Some(string_of(w.as_slice())))
        },
        Ok(spans) => {
            let ghost mk = |sp: (usize, usize)| (pattern@, PhraseContextView {
                phrase: decode_utf8(encode_utf8(content@).subrange(sp.0 as int, sp.1 as int)),
                context: context_spec(content@, sp.0 as int, sp.1 - sp.0),
                timestamp: timestamp@,
            });
            let mut out: Vec<(String, PhraseContext)> = Vec::new();
            let mut k: usize = 0;
            while k < spans.len()
                invariant
                    k <= spans@.len(),
                    regex_search(case_insensitive(pattern@), content@) == Ok::<Seq<(usize, usize)>, Seq<char>>(spans@),
                    forall|i: int|
                        0 <= i < spans@.len() ==> (#[trigger] spans@[i]).0 <= spans@[i].1 <= content.spec_bytes().len()
                            && is_char_boundary(content.spec_bytes(), spans@[i].0 as int) && is_char_boundary(
                            content.spec_bytes(),
                            spans@[i].1 as int,
                        ),
                    forall|i: int| 0 <= i < k ==> context_safe(
                        encode_utf8(content@),
                        (#[trigger] spans@[i]).0 as int,
                        spans@[i].1 - spans@[i].0,
                    ),
                    records_view(out@) == spans@.subrange(0, k as int).map_values(mk),
                    mk == (|sp: (usize, usize)| (pattern@, PhraseContextView {
                        phrase: decode_utf8(encode_utf8(content@).subrange(sp.0 as int, sp.1 as int)),
                        context: context_spec(content@, sp.0 as int, sp.1 - sp.0),
                        timestamp: timestamp@,
                    })),
                decreases spans.len() - k,
            {
                let (st, en) = spans[k];
                let ctx = match context_checked(content, st, en - st) {
                    Some(c) => c,
                    None => {
                        assert(!context_safe(encode_utf8(content@), spans@[k as int].0 as int, spans@[k as int].1 - spans@[k as int].0));
                        assert(!spans_ok(content@, spans@));
                        return (None, None);
                    },
                };
                let matched = substr(content, st, en).to_owned();
                let rec = PhraseContext { phrase: matched, context: ctx, timestamp: timestamp.clone() };
                let ghost old_out = out@;
                out.push((pattern.clone(), rec));
                proof {
                    let pre = spans@.subrange(0, k as int);
                    let nxt = spans@.subrange(0, k + 1);
                    assert(nxt == pre.push(spans@[k as int]));
                    assert(records_view(old_out).len() == pre.map_values(mk).len());
                    assert forall|i: int| 0 <= i < nxt.len() implies records_view(out@)[i] == nxt.map_values(mk)[i] by {
                        if i < pre.len() {
                            assert(out@[i] == old_out[i]);
                            assert(records_view(old_out)[i] == pre.map_values(mk)[i]);
                        }
                    }
                    assert(records_view(out@) =~= nxt.map_values(mk));
                }
                k = k + 1;
            }
            proof {
                assert(spans@.subrange(0, spans@.len() as int) == spans@);
            }
            (Some(out), None)
        },
    }
}

/// The occurrences of a phrase in a text, by regex or by literal matching.
pub open spec fn phrase_records(use_regex: bool, text: Seq<char>, phrase: Seq<char>, timestamp: Seq<char>) -> Seq<(Seq<char>, PhraseContextView)> {
    if use_regex {
        regex_records(text, phrase, timestamp)
    } else {
        literal_records(text, phrase, timestamp)
    }
}

/// Matching a phrase in a text neither panics nor runs forever.
pub open spec fn phrase_ok(use_regex: bool, text: Seq<char>, phrase: Seq<char>) -> bool {
    if use_regex {
        regex_ok(text, phrase)
    } else {
        literal_ok(text, phrase)
    }
}

/// The occurrences of each phrase in turn.
pub open spec fn all_records(use_regex: bool, text: Seq<char>, phrases: Seq<String>, timestamp: Seq<char>) -> Seq<(Seq<char>, PhraseContextView)>
    decreases phrases.len(),
{
    if phrases.len() == 0 {
        seq![]
    } else {
        all_records(use_regex, text, phrases.drop_last(), timestamp) + phrase_records(
            use_regex,
            text,
            phrases.last()@,
            timestamp,
        )
    }
}

/// The warnings for the phrases, in turn, that do not compile as regex patterns.
pub open spec fn all_warnings(use_regex: bool, text: Seq<char>, phrases: Seq<String>) -> Seq<Seq<char>>
    decreases phrases.len(),
{
    if phrases.len() == 0 {
        seq![]
    } else {
        let prev = all_warnings(use_regex, text, phrases.drop_last());
        if use_regex {
            match regex_warning(text, phrases.last()@) {
                Some(w) => prev.push(w),
                None => prev,
            }
        } else {
            prev
        }
    }
}

/// The text of a user message that phrases are searched in: its text
/// items joined by spaces.
pub open spec fn user_text(u: UserTranscriptEntry) -> Seq<char> {
    content_text(u.message.content, " "@)
}

/// Matching each phrase in a text neither panics nor runs forever.
pub open spec fn phrases_ok(use_regex: bool, text: Seq<char>, phrases: Seq<String>) -> bool {
    forall|k: int| 0 <= k < phrases.len() ==> phrase_ok(use_regex, text, (#[trigger] phrases[k])@)
}

/// Phrase analysis of an entry neither panics nor runs forever.
pub open spec fn entry_phrases_ok(use_regex: bool, entry: TranscriptEntry, phrases: Seq<String>) -> bool {
    match entry {
        TranscriptEntry::User(u) => phrases_ok(use_regex, user_text(u), phrases),
        _ => true,
    }
}

/// The occurrences that phrase analysis records for an entry; only user
/// messages are searched.
pub open spec fn entry_records(use_regex: bool, entry: TranscriptEntry, phrases: Seq<String>) -> Seq<(Seq<char>, PhraseContextView)> {
    match entry {
        TranscriptEntry::User(u) => all_records(use_regex, user_text(u), phrases, u.base.timestamp@),
        _ => seq![],
    }
}

/// The warnings that phrase analysis gives for an entry.
pub open spec fn entry_warnings(use_regex: bool, entry: TranscriptEntry, phrases: Seq<String>) -> Seq<Seq<char>> {
    match entry {
        TranscriptEntry::User(u) => all_warnings(use_regex, user_text(u), phrases),
        _ => seq![],
    }
}

/// The records and warnings of phrase analysis of an entry, or `None` where
/// it would panic or run forever.
fn entry_records_exec(use_regex: bool, entry: &TranscriptEntry, phrases: &[String]) -> (r: Option<
    (Vec<(String, PhraseContext)>, Vec<String>),
>)
    ensures
        r is Some <==> entry_phrases_ok(use_regex, *entry, phrases@),
        r matches Some(p) ==> records_view(p.0@) == entry_records(use_regex, *entry, phrases@)
            && strings_view(p.1@) == entry_warnings(use_regex, *entry, phrases@),
{
    match entry {
        TranscriptEntry::User(u) => {
            let content = content_text_of(&u.message.content, " ");
            let lower = to_lowercase(content.as_str());
            let mut recs: Vec<(String, PhraseContext)> = Vec::new();
            let mut warnings: Vec<String> = Vec::new();
            let mut k: usize = 0;
            while k < phrases.len()
                invariant
                    k <= phrases@.len(),
                    *entry is User && entry->User_0 == *u,
                    content@ == user_text(*u),
                    lower@ == lowercase(content@),
                    forall|j: int| 0 <= j < k ==> phrase_ok(use_regex, user_text(*u), (#[trigger] phrases@[j])@),
                    records_view(recs@) == all_records(use_regex, user_text(*u), phrases@.subrange(0, k as int), u.base.timestamp@),
                    strings_view(warnings@) == all_warnings(use_regex, user_text(*u), phrases@.subrange(0, k as int)),
                decreases phrases.len() - k,
            {
                let ghost pre = phrases@.subrange(0, k as int);
                assert(phrases@.subrange(0, k + 1).drop_last() == pre);
                assert(phrases@.subrange(0, k + 1).last() == phrases@[k as int]);
                let (found, warning) = if use_regex {
                    regex_records_exec(content.as_str(), &phrases[k], &u.base.timestamp)
                } else {
                    (literal_records_exec(content.as_str(), lower.as_str(), &phrases[k], &u.base.timestamp), None)
                };
                let found = match found {
                    Some(f) => f,
                    None => {
                        assert(!phrase_ok(use_regex, user_text(*u), phrases@[k as int]@));
                        assert(!phrases_ok(use_regex, user_text(*u), phrases@));
                        return None;
                    },
                };
                let ghost before = recs@;
                let ghost found_view = found@;
                append_records(&mut recs, found);
                proof {
                    assert(records_view(recs@) =~= records_view(before) + records_view(found_view));
                }
                match warning {
                    Some(w) => {
                        let ghost wb = warnings@;
                        warnings.push(w);
                        proof {
                            assert(strings_view(warnings@) =~= strings_view(wb).push(w@));
                        }
                    },
                    None => {},
                }
                k = k + 1;
            }
            assert(phrases@.subrange(0, phrases@.len() as int) == phrases@);
            Some((recs, warnings))
        },
        _ => {
            let recs: Vec<(String, PhraseContext)> = Vec::new();
            let warnings: Vec<String> = Vec::new();
            assert(records_view(recs@) =~= seq![]);
            assert(strings_view(warnings@) =~= seq![]);
            Some((recs, warnings))
        },
    }
}

/// Moves the records of `more` to the end of `v`.
fn append_records(v: &mut Vec<(String, PhraseContext)>, more: Vec<(String, PhraseContext)>)
    ensures
        final(v)@ == old(v)@ + more@,
{
    let mut more = more;
    let ghost m0 = more@;
    let ghost mut k: int = 0;
    while more.len() > 0
        invariant
            0 <= k,
            k + more@.len() == m0.len(),
            more@ == m0.subrange(k, m0.len() as int),
            v@ == old(v)@ + m0.subrange(0, k),
        decreases more@.len(),
    {
        let x = more.remove(0);
        v.push(x);
        proof {
            k = k + 1;
            assert(m0.subrange(0, k) == m0.subrange(0, k - 1).push(x));
        }
    }
    assert(m0.subrange(0, m0.len() as int) == m0);
}


/// The first slot of `m` for the phrase `key`.
pub open spec fn phrase_slot(m: Seq<(Seq<char>, Seq<PhraseContextView>)>, key: Seq<char>) -> Option<int>
    decreases m.len(),
{
    if m.len() == 0 {
        None
    } else {
        match phrase_slot(m.drop_last(), key) {
            Some(i) => Some(i),
            None => if m.last().0 == key {
                Some(m.len() - 1)
            } else {
                None
            },
        }
    }
}

/// `m` with one more context for the phrase `key`: appended to its list, or
/// a new list for a phrase not seen before.
pub open spec fn add_context(
    m: Seq<(Seq<char>, Seq<PhraseContextView>)>,
    key: Seq<char>,
    ctx: PhraseContextView,
) -> Seq<(Seq<char>, Seq<PhraseContextView>)> {
    match phrase_slot(m, key) {
        Some(i) => m.update(i, (m[i].0, m[i].1.push(ctx))),
        None => m.push((key, seq![ctx])),
    }
}

/// `m` with the records added in order.
pub open spec fn add_records(
    m: Seq<(Seq<char>, Seq<PhraseContextView>)>,
    recs: Seq<(Seq<char>, PhraseContextView)>,
) -> Seq<(Seq<char>, Seq<PhraseContextView>)>
    decreases recs.len(),
{
    if recs.len() == 0 {
        m
    } else {
        add_context(add_records(m, recs.drop_last()), recs.last().0, recs.last().1)
    }
}

/// The contexts recorded per phrase, as plain sequences.
pub open spec fn contexts_view(v: Seq<(String, Vec<PhraseContext>)>) -> Seq<(Seq<char>, Seq<PhraseContextView>)> {
    v.map_values(|e: (String, Vec<PhraseContext>)| (e.0@, e.1@.map_values(|c: PhraseContext| c@)))
}

proof fn lemma_phrase_slot(m: Seq<(Seq<char>, Seq<PhraseContextView>)>, key: Seq<char>)
    ensures
        phrase_slot(m, key) matches Some(i) ==> 0 <= i < m.len() && m[i].0 == key,
    decreases m.len(),
{
    if m.len() > 0 {
        lemma_phrase_slot(m.drop_last(), key);
    }
}

proof fn lemma_phrase_slot_prefix(m: Seq<(Seq<char>, Seq<PhraseContextView>)>, key: Seq<char>, k: int)
    requires
        0 <= k <= m.len(),
        phrase_slot(m.subrange(0, k), key) is Some,
    ensures
        phrase_slot(m, key) == phrase_slot(m.subrange(0, k), key),
    decreases m.len() - k,
{
    if k < m.len() {
        assert(m.subrange(0, k + 1).drop_last() == m.subrange(0, k));
        lemma_phrase_slot_prefix(m, key, k + 1);
    } else {
        assert(m.subrange(0, k) == m);
    }
}

/// The contexts recorded for the phrase `q`, none where it has no slot.
pub open spec fn contexts_of(m: Seq<(Seq<char>, Seq<PhraseContextView>)>, q: Seq<char>) -> Seq<PhraseContextView> {
    match phrase_slot(m, q) {
        Some(i) => m[i].1,
        None => seq![],
    }
}

proof fn lemma_phrase_slot_same_keys(
    m: Seq<(Seq<char>, Seq<PhraseContextView>)>,
    n: Seq<(Seq<char>, Seq<PhraseContextView>)>,
    q: Seq<char>,
)
    requires
        m.len() == n.len(),
        forall|k: int| 0 <= k < m.len() ==> (#[trigger] m[k]).0 == n[k].0,
    ensures
        phrase_slot(m, q) == phrase_slot(n, q),
    decreases m.len(),
{
    if m.len() > 0 {
        assert forall|k: int| 0 <= k < m.len() - 1 implies (#[trigger] m.drop_last()[k]).0 == n.drop_last()[k].0 by {
            assert(m.drop_last()[k] == m[k]);
            assert(n.drop_last()[k] == n[k]);
        }
        lemma_phrase_slot_same_keys(m.drop_last(), n.drop_last(), q);
        assert(m.last().0 == n.last().0);
    }
}

proof fn lemma_add_context_contexts(
    m: Seq<(Seq<char>, Seq<PhraseContextView>)>,
    key: Seq<char>,
    ctx: PhraseContextView,
    q: Seq<char>,
)
    ensures
        contexts_of(add_context(m, key, ctx), q) == if q == key {
            contexts_of(m, q).push(ctx)
        } else {
            contexts_of(m, q)
        },
{
    let n = add_context(m, key, ctx);
    lemma_phrase_slot(m, key);
    lemma_phrase_slot(m, q);
    match phrase_slot(m, key) {
        Some(i) => {
            assert forall|k: int| 0 <= k < m.len() implies (#[trigger] m[k]).0 == n[k].0 by {}
            lemma_phrase_slot_same_keys(m, n, q);
        },
        None => {
            assert(n.drop_last() =~= m);
            if q == key {
                assert(phrase_slot(n, q) == Some(m.len() as int));
                assert(seq![ctx] =~= Seq::<PhraseContextView>::empty().push(ctx));
            }
        },
    }
}

/// The contexts among `recs` recorded for the phrase `q`, in order.
pub open spec fn recorded_for(recs: Seq<(Seq<char>, PhraseContextView)>, q: Seq<char>) -> Seq<PhraseContextView> {
    recs.filter(|r: (Seq<char>, PhraseContextView)| r.0 == q).map_values(|r: (Seq<char>, PhraseContextView)| r.1)
}

/// Recording contexts appends to each phrase's contexts those recorded for
/// it, in the order they come, and leaves every other phrase's as it was.
pub proof fn law_records_append_per_phrase(
    m: Seq<(Seq<char>, Seq<PhraseContextView>)>,
    recs: Seq<(Seq<char>, PhraseContextView)>,
    q: Seq<char>,
)
    ensures
        contexts_of(add_records(m, recs), q) == contexts_of(m, q) + recorded_for(recs, q),
    decreases recs.len(),
{
    reveal(Seq::filter);
    if recs.len() == 0 {
        assert(recorded_for(recs, q) =~= seq![]);
        assert(contexts_of(m, q) + recorded_for(recs, q) =~= contexts_of(m, q));
    } else {
        let d = recs.drop_last();
        let x = recs.last();
        law_records_append_per_phrase(m, d, q);
        lemma_add_context_contexts(add_records(m, d), x.0, x.1, q);
        let f = |r: (Seq<char>, PhraseContextView)| r.0 == q;
        let g = |r: (Seq<char>, PhraseContextView)| r.1;
        if x.0 == q {
            assert(recs.filter(f) == d.filter(f).push(x));
            assert(d.filter(f).push(x).map_values(g) =~= d.filter(f).map_values(g).push(x.1));
            assert(contexts_of(m, q) + recorded_for(d, q).push(x.1) =~= (contexts_of(m, q) + recorded_for(d, q)).push(
                x.1,
            ));
        } else {
            assert(recs.filter(f) == d.filter(f));
        }
    }
}

/// Each phrase with the number of its contexts.
pub open spec fn phrase_counts(v: Seq<(String, Vec<PhraseContext>)>) -> Seq<(String, usize)> {
    v.map_values(|e: (String, Vec<PhraseContext>)| (e.0, e.1@.len() as usize))
}

/// No phrase has two slots.
pub open spec fn phrases_distinct(m: Seq<(Seq<char>, Seq<PhraseContextView>)>) -> bool {
    forall|i: int, j: int| 0 <= i < j < m.len() ==> (#[trigger] m[i]).0 != (#[trigger] m[j]).0
}

proof fn lemma_phrase_slot_none(m: Seq<(Seq<char>, Seq<PhraseContextView>)>, key: Seq<char>)
    ensures
        phrase_slot(m, key) is None ==> forall|i: int| 0 <= i < m.len() ==> (#[trigger] m[i]).0 != key,
    decreases m.len(),
{
    if m.len() > 0 {
        lemma_phrase_slot_none(m.drop_last(), key);
        if phrase_slot(m, key) is None {
            assert forall|i: int| 0 <= i < m.len() implies (#[trigger] m[i]).0 != key by {
                if i < m.len() - 1 {
                    assert(m[i] == m.drop_last()[i]);
                }
            }
        }
    }
}

proof fn lemma_phrase_slot_of_distinct(m: Seq<(Seq<char>, Seq<PhraseContextView>)>, k: int)
    requires
        phrases_distinct(m),
        0 <= k < m.len(),
    ensures
        phrase_slot(m, m[k].0) == Some(k),
    decreases m.len(),
{
    let d = m.drop_last();
    assert forall|i: int, j: int| 0 <= i < j < d.len() implies (#[trigger] d[i]).0 != (#[trigger] d[j]).0 by {
        assert(d[i] == m[i] && d[j] == m[j]);
    }
    if k < m.len() - 1 {
        assert(d[k] == m[k]);
        lemma_phrase_slot_of_distinct(d, k);
    } else {
        lemma_phrase_slot_none(d, m[k].0);
        if phrase_slot(d, m[k].0) is Some {
            lemma_phrase_slot(d, m[k].0);
            let i = phrase_slot(d, m[k].0)->0;
            assert(d[i] == m[i]);
        }
    }
}

/// Recording contexts never gives a phrase a second slot.
pub proof fn law_add_records_keeps_phrases_distinct(
    m: Seq<(Seq<char>, Seq<PhraseContextView>)>,
    recs: Seq<(Seq<char>, PhraseContextView)>,
)
    requires
        phrases_distinct(m),
    ensures
        phrases_distinct(add_records(m, recs)),
    decreases recs.len(),
{
    if recs.len() > 0 {
        law_add_records_keeps_phrases_distinct(m, recs.drop_last());
        let prev = add_records(m, recs.drop_last());
        let key = recs.last().0;
        let next = add_context(prev, key, recs.last().1);
        lemma_phrase_slot(prev, key);
        lemma_phrase_slot_none(prev, key);
        assert forall|i: int, j: int| 0 <= i < j < next.len() implies (#[trigger] next[i]).0 != (
        #[trigger] next[j]).0 by {
            match phrase_slot(prev, key) {
                Some(sl) => {
                    assert(next[i].0 == prev[i].0);
                    assert(next[j].0 == prev[j].0);
                },
                None => {
                    if j == prev.len() {
                        assert(next[i] == prev[i]);
                    } else {
                        assert(next[i] == prev[i]);
                        assert(next[j] == prev[j]);
                    }
                },
            }
        }
    }
}

/// Where no phrase has two slots, each count of the summary is the number of
/// contexts recorded for its phrase, the ones `get_contexts` gives back.
pub proof fn law_summary_counts_contexts(v: Seq<(String, Vec<PhraseContext>)>)
    requires
        phrases_distinct(contexts_view(v)),
    ensures
        forall|i: int|
            0 <= i < sort_desc(phrase_counts(v)).len() ==> ({
                let item = #[trigger] sort_desc(phrase_counts(v))[i];
                &&& phrase_slot(contexts_view(v), item.0@) is Some
                &&& contexts_view(v)[phrase_slot(contexts_view(v), item.0@)->0].1.len() == item.1
            }),
{
    let counts = phrase_counts(v);
    let sorted = sort_desc(counts);
    let m = contexts_view(v);
    crate::sorting::lemma_sort_desc(counts);
    sorted.to_multiset_ensures();
    counts.to_multiset_ensures();
    assert forall|i: int| 0 <= i < sorted.len() implies ({
        let item = #[trigger] sorted[i];
        &&& phrase_slot(m, item.0@) is Some
        &&& m[phrase_slot(m, item.0@)->0].1.len() == item.1
    }) by {
        assert(sorted.contains(sorted[i]));
        assert(counts.to_multiset().count(sorted[i]) > 0);
        let k = choose|k: int| 0 <= k < counts.len() && counts[k] == sorted[i];
        assert(m[k].0 == v[k].0@);
        lemma_phrase_slot_of_distinct(m, k);
        assert(v[k].1@.len() == v[k].1.len());
        assert(m[k].1.len() == v[k].1@.len());
    }
}

/// Track user phrase usage.
#[derive(Debug)]
pub struct PhraseTracker {
    /// Phrase -> list of contexts where it appeared.
    pub phrase_contexts: Vec<(String, Vec<PhraseContext>)>,
    /// Whether to use regex matching.
    pub use_regex: bool,
}

impl PhraseTracker {
    /// The contexts recorded per phrase.
    pub open spec fn contexts(&self) -> Seq<(Seq<char>, Seq<PhraseContextView>)> {
        contexts_view(self.phrase_contexts@)
    }

    /// No phrase has two slots.
    pub open spec fn well_formed(&self) -> bool {
        phrases_distinct(self.contexts())
    }

    /// A tracker with literal matching and nothing recorded.
    pub fn new() -> (r: Self)
        ensures
            r.contexts().len() == 0,
            !r.use_regex,
            r.well_formed(),
    {
        PhraseTracker { phrase_contexts: Vec::new(), use_regex: false }
    }

    /// Create a new tracker with regex support.
    pub fn with_regex() -> (r: Self)
        ensures
            r.contexts().len() == 0,
            r.use_regex,
            r.well_formed(),
    {
        PhraseTracker { phrase_contexts: Vec::new(), use_regex: true }
    }

    /// Get the contexts recorded for a phrase, in the order they were recorded.
    pub fn get_contexts(&self, phrase: &str) -> (r: Vec<&PhraseContext>)
        ensures
            match phrase_slot(self.contexts(), phrase@) {
                Some(i) => r@.map_values(|c: &PhraseContext| c@) == self.contexts()[i].1,
                None => r@.len() == 0,
            },
    {
        let ghost m = self.contexts();
        let mut i: usize = 0;
        while i < self.phrase_contexts.len()
            invariant
                i <= self.phrase_contexts@.len(),
                m == self.contexts(),
                phrase_slot(m.subrange(0, i as int), phrase@) is None,
            decreases self.phrase_contexts.len() - i,
        {
            assert(m.subrange(0, i + 1).drop_last() == m.subrange(0, i as int));
            assert(m[i as int].0 == self.phrase_contexts@[i as int].0@);
            if str_equal(self.phrase_contexts[i].0.as_str(), phrase) {
                proof {
                    lemma_phrase_slot_prefix(m, phrase@, i as int + 1);
                }
                let list = &self.phrase_contexts[i].1;
                let mut r: Vec<&PhraseContext> = Vec::new();
                let mut j: usize = 0;
                while j < list.len()
                    invariant
                        j <= list@.len(),
                        r@.len() == j,
                        forall|t: int| 0 <= t < j ==> #[trigger] r@[t] == list@[t],
                    decreases list.len() - j,
                {
                    r.push(&list[j]);
                    j = j + 1;
                }
                proof {
                    assert(r@.map_values(|c: &PhraseContext| c@) =~= list@.map_values(|c: PhraseContext| c@));
                }
                return r;
            }
            i = i + 1;
        }
        assert(m.subrange(0, m.len() as int) == m);
        Vec::new()
    }

    /// Get summary: phrase -> occurrence count, most occurrences first; each
    /// phrase comes once.
    pub fn get_summary(&self) -> (r: Vec<(String, usize)>)
        requires
            self.well_formed(),
        ensures
            r@ == sort_desc(phrase_counts(self.phrase_contexts@)),
            forall|i: int, j: int| 0 <= i < j < r@.len() ==> (#[trigger] r@[i]).0@ != (#[trigger] r@[j]).0@,
    {
        proof {
            let c = phrase_counts(self.phrase_contexts@);
            let m = self.contexts();
            assert forall|i: int, j: int| 0 <= i < c.len() && 0 <= j < c.len() && i != j implies !(|a: String, b: String| a@ == b@)(
                #[trigger] c[i].0,
                #[trigger] c[j].0,
            ) by {
                assert(m[i].0 == c[i].0@ && m[j].0 == c[j].0@);
                if i < j {
                    assert(m[i].0 != m[j].0);
                } else {
                    assert(m[j].0 != m[i].0);
                }
            }
            crate::sorting::lemma_sort_desc_keeps_apart(c, |a: String, b: String| a@ == b@);
        }
        let mut items: Vec<(String, usize)> = Vec::new();
        let mut i: usize = 0;
        while i < self.phrase_contexts.len()
            invariant
                i <= self.phrase_contexts@.len(),
                items@ == phrase_counts(self.phrase_contexts@).subrange(0, i as int),
            decreases self.phrase_contexts.len() - i,
        {
            let key = self.phrase_contexts[i].0.clone();
            let n = self.phrase_contexts[i].1.len();
            items.push((key, n));
            i = i + 1;
            assert(items@ =~= phrase_counts(self.phrase_contexts@).subrange(0, i as int));
        }
        assert(phrase_counts(self.phrase_contexts@).subrange(0, i as int) == phrase_counts(self.phrase_contexts@));
        sort_by_count_desc(items)
    }

    fn add_context_exec(&mut self, key: String, ctx: PhraseContext)
        ensures
            final(self).contexts() == add_context(old(self).contexts(), key@, ctx@),
            final(self).use_regex == old(self).use_regex,
    {
        let ghost m = self.contexts();
        let mut i: usize = 0;
        while i < self.phrase_contexts.len()
            invariant
                i <= self.phrase_contexts@.len(),
                m == self.contexts(),
                self == old(self),
                phrase_slot(m.subrange(0, i as int), key@) is None,
            decreases self.phrase_contexts.len() - i,
        {
            assert(m.subrange(0, i + 1).drop_last() == m.subrange(0, i as int));
            assert(m[i as int].0 == self.phrase_contexts@[i as int].0@);
            if self.phrase_contexts[i].0 == key {
                proof {
                    lemma_phrase_slot_prefix(m, key@, i as int + 1);
                }
                let ghost v0 = self.phrase_contexts@;
                let (k, mut list) = self.phrase_contexts.remove(i);
                let ghost list0 = list@;
                list.push(ctx);
                self.phrase_contexts.insert(i, (k, list));
                proof {
                    let target = m.update(i as int, (m[i as int].0, m[i as int].1.push(ctx@)));
                    let now = self.phrase_contexts@;
                    assert(now.len() == v0.len());
                    assert forall|j: int| 0 <= j < now.len() && j != i implies now[j] == v0[j] by {
                        if j < i {
                        } else {
                        }
                    }
                    assert(now[i as int].1@ == list0.push(ctx));
                    assert(v0[i as int].1@ == list0);
                    assert(list0.push(ctx).map_values(|c: PhraseContext| c@) =~= list0.map_values(|c: PhraseContext| c@).push(ctx@));
                    assert forall|j: int| 0 <= j < now.len() implies self.contexts()[j] == target[j] by {
                        if j != i {
                            assert(self.contexts()[j] == contexts_view(v0)[j]);
                        }
                    }
                    assert(self.contexts() =~= target);
                }
                return;
            }
            i = i + 1;
        }
        assert(m.subrange(0, m.len() as int) == m);
        let mut list: Vec<PhraseContext> = Vec::new();
        list.push(ctx);
        self.phrase_contexts.push((key, list));
        proof {
            assert(list@.map_values(|c: PhraseContext| c@) =~= seq![ctx@]);
            assert(self.contexts() =~= m.push((key@, seq![ctx@])));
        }
    }

    fn add_records_exec(&mut self, recs: Vec<(String, PhraseContext)>)
        ensures
            final(self).contexts() == add_records(old(self).contexts(), records_view(recs@)),
            final(self).use_regex == old(self).use_regex,
    {
        let mut recs = recs;
        let ghost r0 = recs@;
        let ghost mut k: int = 0;
        while recs.len() > 0
            invariant
                0 <= k,
                k + recs@.len() == r0.len(),
                recs@ == r0.subrange(k, r0.len() as int),
                self.contexts() == add_records(old(self).contexts(), records_view(r0.subrange(0, k))),
                self.use_regex == old(self).use_regex,
            decreases recs@.len(),
        {
            let (key, ctx) = recs.remove(0);
            self.add_context_exec(key, ctx);
            proof {
                let pre = records_view(r0.subrange(0, k));
                k = k + 1;
                assert(records_view(r0.subrange(0, k)).drop_last() =~= pre);
            }
        }
        assert(r0.subrange(0, r0.len() as int) == r0);
    }

    /// Analyze an entry for phrase usage, or do nothing and give `None` where
    /// the analysis would panic or run forever; otherwise the warnings for
    /// regex patterns that do not compile.
    pub fn try_analyze_entry(&mut self, entry: &TranscriptEntry, phrases: &[String]) -> (r: Option<Vec<String>>)
        ensures
            r is Some <==> entry_phrases_ok(old(self).use_regex, *entry, phrases@),
            r is None ==> final(self).contexts() == old(self).contexts(),
            r matches Some(w) ==> final(self).contexts() == add_records(
                old(self).contexts(),
                entry_records(old(self).use_regex, *entry, phrases@),
            ) && strings_view(w@) == entry_warnings(old(self).use_regex, *entry, phrases@),
            final(self).use_regex == old(self).use_regex,
            old(self).well_formed() ==> final(self).well_formed(),
    {
        proof {
            if self.well_formed() {
                law_add_records_keeps_phrases_distinct(self.contexts(), entry_records(self.use_regex, *entry, phrases@));
            }
        }
        match entry_records_exec(self.use_regex, entry, phrases) {
            None => None,
            Some((recs, warnings)) => {
                self.add_records_exec(recs);
                Some(warnings)
            },
        }
    }

    /// Analyze an entry for phrase usage: the occurrences in a user message
    /// of each phrase, in turn, are recorded under the phrase; the warnings
    /// for regex patterns that do not compile are given back.
    pub fn analyze_entry(&mut self, entry: &TranscriptEntry, phrases: &[String]) -> (r: Vec<String>)
        requires
            entry_phrases_ok(old(self).use_regex, *entry, phrases@),
        ensures
            final(self).contexts() == add_records(
                old(self).contexts(),
                entry_records(old(self).use_regex, *entry, phrases@),
            ),
            strings_view(r@) == entry_warnings(old(self).use_regex, *entry, phrases@),
            final(self).use_regex == old(self).use_regex,
            old(self).well_formed() ==> final(self).well_formed(),
    {
        match self.try_analyze_entry(entry, phrases) {
            Some(w) => w,
            None => {
                proof {
                    assert(false);
                }
                Vec::new()
            },
        }
    }
}

} // verus!
