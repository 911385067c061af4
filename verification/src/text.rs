//! Character and string helpers with their specifications.
use vstd::prelude::*;
use vstd::string::StringSliceAdditionalSpecFns;
use vstd::utf8::{
    decode_utf8, encode_utf8_decode_utf8, encode_utf8_valid_utf8, is_char_boundary,
    is_char_boundary_iff_not_is_continuation_byte, is_char_boundary_start_end_of_seq, valid_utf8,
    valid_utf8_split,
};

verus! {

broadcast use vstd::string::group_string_axioms;

/// The views of a list of strings.
pub open spec fn strings_view(v: Seq<String>) -> Seq<Seq<char>> {
    v.map_values(|s: String| s@)
}

/// `sub` occurs in `s` starting at index `i`.
pub open spec fn occurs_at<A>(s: Seq<A>, sub: Seq<A>, i: int) -> bool {
    &&& 0 <= i
    &&& i + sub.len() <= s.len()
    &&& s.subrange(i, i + sub.len()) == sub
}

/// `sub` occurs somewhere in `s`.
pub open spec fn contains_seq<A>(s: Seq<A>, sub: Seq<A>) -> bool {
    exists|i: int| occurs_at(s, sub, i)
}

/// `s` begins with `p`.
pub open spec fn starts_with_seq<A>(s: Seq<A>, p: Seq<A>) -> bool {
    occurs_at(s, p, 0)
}

/// `s` ends with `p`.
pub open spec fn ends_with_seq<A>(s: Seq<A>, p: Seq<A>) -> bool {
    occurs_at(s, p, s.len() - p.len())
}

/// The first index at or after `i` where `sub` occurs in `s`.
pub open spec fn find_from<A>(s: Seq<A>, sub: Seq<A>, i: int) -> Option<int>
    decreases s.len() - i,
{
    if i < 0 || i + sub.len() > s.len() {
        None
    } else if occurs_at(s, sub, i) {
        Some(i)
    } else if i >= s.len() {
        None
    } else {
        find_from(s, sub, i + 1)
    }
}

/// The first index where `x` stands in `s`.
pub open spec fn index_of<A>(s: Seq<A>, x: A) -> Option<int>
    decreases s.len(),
{
    if s.len() == 0 {
        None
    } else if s.last() == x {
        match index_of(s.drop_last(), x) {
            Some(i) => Some(i),
            None => Some(s.len() - 1),
        }
    } else {
        index_of(s.drop_last(), x)
    }
}

/// The last index where `x` stands in `s`.
pub open spec fn last_index_of<A>(s: Seq<A>, x: A) -> Option<int>
    decreases s.len(),
{
    if s.len() == 0 {
        None
    } else if s.last() == x {
        Some(s.len() - 1)
    } else {
        last_index_of(s.drop_last(), x)
    }
}

/// The characters that Unicode gives the `White_Space` property, which is what
/// `char::is_whitespace` and `str::trim` go by.
pub open spec fn is_white_space(c: char) -> bool {
    let u = c as u32;
    ||| 0x9 <= u <= 0xd
    ||| u == 0x20
    ||| u == 0x85
    ||| u == 0xa0
    ||| u == 0x1680
    ||| 0x2000 <= u <= 0x200a
    ||| u == 0x2028
    ||| u == 0x2029
    ||| u == 0x202f
    ||| u == 0x205f
    ||| u == 0x3000
}

/// `s` without its leading white space.
pub open spec fn trim_start(s: Seq<char>) -> Seq<char>
    decreases s.len(),
{
    if s.len() > 0 && is_white_space(s[0]) {
        trim_start(s.drop_first())
    } else {
        s
    }
}

/// `s` without its trailing white space.
pub open spec fn trim_end(s: Seq<char>) -> Seq<char>
    decreases s.len(),
{
    if s.len() > 0 && is_white_space(s.last()) {
        trim_end(s.drop_last())
    } else {
        s
    }
}

/// `s` without leading and trailing white space.
pub open spec fn trim(s: Seq<char>) -> Seq<char> {
    trim_end(trim_start(s))
}

/// The decimal digit character for a value below ten.
pub open spec fn digit_char(d: int) -> char {
    if d == 0 {
        '0'
    } else if d == 1 {
        '1'
    } else if d == 2 {
        '2'
    } else if d == 3 {
        '3'
    } else if d == 4 {
        '4'
    } else if d == 5 {
        '5'
    } else if d == 6 {
        '6'
    } else if d == 7 {
        '7'
    } else if d == 8 {
        '8'
    } else {
        '9'
    }
}

/// The decimal digits of a natural number, most significant first.
pub open spec fn digits(n: nat) -> Seq<char>
    decreases n,
{
    if n < 10 {
        seq![digit_char(n as int)]
    } else {
        digits(n / 10).push(digit_char((n % 10) as int))
    }
}

/// An integer written in decimal, with a leading minus sign when negative.
pub open spec fn decimal(n: int) -> Seq<char> {
    if n < 0 {
        seq!['-'] + digits((-n) as nat)
    } else {
        digits(n as nat)
    }
}

/// The number that a string of decimal digits denotes.
pub open spec fn decimal_value(s: Seq<char>) -> int
    decreases s.len(),
{
    if s.len() == 0 {
        0
    } else {
        decimal_value(s.drop_last()) * 10 + ((s.last() as u32) - 48)
    }
}

proof fn lemma_digit_char_value(k: int)
    requires
        0 <= k < 10,
    ensures
        digit_char(k) as u32 == k + 48,
        '0' <= digit_char(k) <= '9',
        digit_char(k) == '0' <==> k == 0,
{
}

/// The digits of a natural number are decimal digits that denote it, with no
/// leading zero but for zero itself.
pub proof fn law_digits_denote(n: nat)
    ensures
        digits(n).len() >= 1,
        forall|i: int| 0 <= i < digits(n).len() ==> '0' <= #[trigger] digits(n)[i] <= '9',
        decimal_value(digits(n)) == n,
        digits(n)[0] == '0' ==> n == 0,
    decreases n,
{
    if n < 10 {
        lemma_digit_char_value(n as int);
        assert(digits(n).drop_last() =~= Seq::<char>::empty());
        assert(decimal_value(digits(n).drop_last()) == 0);
        assert(digits(n).last() == digit_char(n as int));
    } else {
        lemma_digit_char_value((n % 10) as int);
        law_digits_denote(n / 10);
        let d = digits(n / 10);
        let r = digits(n);
        assert(r == d.push(digit_char((n % 10) as int)));
        assert(r.drop_last() =~= d);
        assert forall|i: int| 0 <= i < r.len() implies '0' <= #[trigger] r[i] <= '9' by {
            if i < d.len() {
                assert(r[i] == d[i]);
            }
        }
        assert(r[0] == d[0]);
        assert(r.last() == digit_char((n % 10) as int));
        assert(decimal_value(r) == decimal_value(d) * 10 + ((r.last() as u32) - 48));
        assert(decimal_value(d) == n / 10);
        assert((n / 10) * 10 + n % 10 == n);
    }
}

/// The parts joined, with `sep` between each two of them.
pub open spec fn join_seqs(parts: Seq<Seq<char>>, sep: Seq<char>) -> Seq<char>
    decreases parts.len(),
{
    if parts.len() == 0 {
        seq![]
    } else if parts.len() == 1 {
        parts[0]
    } else {
        join_seqs(parts.drop_last(), sep) + sep + parts.last()
    }
}

/// The characters of a string slice, in order.
pub fn chars_of(s: &str) -> (v: Vec<char>)
    ensures
        v@ == s@,
{
    let mut v: Vec<char> = Vec::new();
    for c in it: s.chars()
        invariant
            v@ == it.seq().take(it.index() as int),
    {
        v.push(c);
    }
    v
}

/// Builds a string with `<String as FromIterator<&char>>::from_iter` (std);
/// the string holds the given characters in order.
#[verifier::external_body]
pub(crate) fn string_of(chars: &[char]) -> (s: String)
    ensures
        s@ == chars@,
{
    chars.iter().collect()
}

/// Appends the characters of `s` to `v`.
pub fn push_str(v: &mut Vec<char>, s: &str)
    ensures
        final(v)@ == old(v)@ + s@,
{
    let cs = chars_of(s);
    let mut i: usize = 0;
    while i < cs.len()
        invariant
            i <= cs@.len(),
            v@ == old(v)@ + cs@.subrange(0, i as int),
        decreases cs.len() - i,
    {
        v.push(cs[i]);
        i = i + 1;
        assert(cs@.subrange(0, i as int) == cs@.subrange(0, i - 1).push(cs@[i - 1]));
    }
    assert(cs@.subrange(0, cs@.len() as int) == cs@);
}

/// Appends the characters of `src` to `v`.
pub fn push_chars(v: &mut Vec<char>, src: &[char])
    ensures
        final(v)@ == old(v)@ + src@,
{
    let mut i: usize = 0;
    while i < src.len()
        invariant
            i <= src@.len(),
            v@ == old(v)@ + src@.subrange(0, i as int),
        decreases src.len() - i,
    {
        v.push(src[i]);
        i = i + 1;
        assert(src@.subrange(0, i as int) == src@.subrange(0, i - 1).push(src@[i - 1]));
    }
    assert(src@.subrange(0, src@.len() as int) == src@);
}

/// Whether `c` has the Unicode `White_Space` property.
pub fn is_white_space_char(c: char) -> (r: bool)
    ensures
        r == is_white_space(c),
{
    let u = c as u32;
    (0x9 <= u && u <= 0xd) || u == 0x20 || u == 0x85 || u == 0xa0 || u == 0x1680 || (0x2000 <= u
        && u <= 0x200a) || u == 0x2028 || u == 0x2029 || u == 0x202f || u == 0x205f || u == 0x3000
}

proof fn lemma_trim_start_skip(s: Seq<char>, a: int)
    requires
        0 <= a <= s.len(),
        forall|k: int| 0 <= k < a ==> is_white_space(#[trigger] s[k]),
    ensures
        trim_start(s) == trim_start(s.subrange(a, s.len() as int)),
    decreases a,
{
    if a > 0 {
        assert(s.drop_first().subrange(a - 1, s.drop_first().len() as int) == s.subrange(
            a,
            s.len() as int,
        ));
        lemma_trim_start_skip(s.drop_first(), a - 1);
    } else {
        assert(s.subrange(0, s.len() as int) == s);
    }
}

proof fn lemma_trim_end_skip(s: Seq<char>, b: int)
    requires
        0 <= b <= s.len(),
        forall|k: int| b <= k < s.len() ==> is_white_space(#[trigger] s[k]),
    ensures
        trim_end(s) == trim_end(s.subrange(0, b)),
    decreases s.len() - b,
{
    if b < s.len() {
        assert(s.drop_last().subrange(0, b) == s.subrange(0, b));
        lemma_trim_end_skip(s.drop_last(), b);
    } else {
        assert(s.subrange(0, s.len() as int) == s);
    }
}

/// The characters of `s` without leading and trailing white space.
pub fn trim_chars(s: &[char]) -> (r: Vec<char>)
    ensures
        r@ == trim(s@),
{
    let n = s.len();
    let mut a: usize = 0;
    while a < n && is_white_space_char(s[a])
        invariant
            a <= n,
            n == s@.len(),
            forall|k: int| 0 <= k < a ==> is_white_space(#[trigger] s@[k]),
        decreases n - a,
    {
        a = a + 1;
    }
    let ghost rest = s@.subrange(a as int, n as int);
    proof {
        lemma_trim_start_skip(s@, a as int);
        assert(rest.len() == 0 || !is_white_space(rest[0]));
        assert(trim_start(rest) == rest);
    }
    let mut b: usize = n;
    while b > a && is_white_space_char(s[b - 1])
        invariant
            a <= b <= n,
            n == s@.len(),
            forall|k: int| b <= k < n ==> is_white_space(#[trigger] s@[k]),
        decreases b - a,
    {
        b = b - 1;
    }
    proof {
        assert forall|k: int| b - a <= k < rest.len() implies is_white_space(#[trigger] rest[k]) by {
            assert(rest[k] == s@[a + k]);
        }
        lemma_trim_end_skip(rest, b - a);
        let kept = rest.subrange(0, b - a);
        assert(kept.len() == 0 || !is_white_space(kept.last()));
        assert(trim_end(kept) == kept);
    }
    let mut r: Vec<char> = Vec::new();
    let mut i: usize = a;
    while i < b
        invariant
            a <= i <= b <= n,
            n == s@.len(),
            r@ == s@.subrange(a as int, i as int),
        decreases b - i,
    {
        r.push(s[i]);
        i = i + 1;
        assert(s@.subrange(a as int, i as int) == s@.subrange(a as int, i - 1).push(s@[i - 1]));
    }
    assert(rest.subrange(0, b - a) == s@.subrange(a as int, b as int));
    r
}

/// The decimal digit character for a value below ten.
pub fn digit_of(d: u64) -> (c: char)
    requires
        d < 10,
    ensures
        c == digit_char(d as int),
{
    if d == 0 {
        '0'
    } else if d == 1 {
        '1'
    } else if d == 2 {
        '2'
    } else if d == 3 {
        '3'
    } else if d == 4 {
        '4'
    } else if d == 5 {
        '5'
    } else if d == 6 {
        '6'
    } else if d == 7 {
        '7'
    } else if d == 8 {
        '8'
    } else {
        '9'
    }
}

/// The decimal digits of `n`, most significant first.
pub fn digits_u64(n: u64) -> (r: Vec<char>)
    ensures
        r@ == digits(n as nat),
    decreases n,
{
    if n < 10 {
        let mut r: Vec<char> = Vec::new();
        r.push(digit_of(n));
        r
    } else {
        let mut r = digits_u64(n / 10);
        r.push(digit_of(n % 10));
        r
    }
}

/// `n` written in decimal.
pub fn decimal_i64(n: i64) -> (r: Vec<char>)
    ensures
        r@ == decimal(n as int),
{
    if n < 0 {
        let m: u64 = if n == i64::MIN {
            9223372036854775808u64
        } else {
            (-n) as u64
        };
        let mut r: Vec<char> = Vec::new();
        r.push('-');
        let d = digits_u64(m);
        push_chars(&mut r, d.as_slice());
        r
    } else {
        digits_u64(n as u64)
    }
}


/// The pieces of `s` between occurrences of `sep`, as `str::split` gives them.
pub open spec fn split_seq(s: Seq<char>, sep: char) -> Seq<Seq<char>>
    decreases s.len(),
{
    if s.len() == 0 {
        seq![seq![]]
    } else {
        let init = split_seq(s.drop_last(), sep);
        if s.last() == sep {
            init.push(seq![])
        } else {
            init.update(init.len() - 1, init.last().push(s.last()))
        }
    }
}

pub proof fn lemma_split_seq_nonempty(s: Seq<char>, sep: char)
    ensures
        split_seq(s, sep).len() >= 1,
    decreases s.len(),
{
    if s.len() > 0 {
        lemma_split_seq_nonempty(s.drop_last(), sep);
    }
}

/// A sequence without the separator is one piece.
pub proof fn lemma_split_seq_whole(a: Seq<char>, sep: char)
    requires
        !a.contains(sep),
    ensures
        split_seq(a, sep) == seq![a],
    decreases a.len(),
{
    if a.len() > 0 {
        assert(!a.drop_last().contains(sep)) by {
            if a.drop_last().contains(sep) {
                let k = choose|k: int| 0 <= k < a.drop_last().len() && a.drop_last()[k] == sep;
                assert(a[k] == sep);
            }
        }
        lemma_split_seq_whole(a.drop_last(), sep);
        assert(a[a.len() - 1] != sep);
        assert(a.drop_last().push(a.last()) =~= a);
        assert(split_seq(a, sep) =~= seq![a]);
    } else {
        assert(a =~= Seq::<char>::empty());
    }
}

/// Splitting at a separator splits the two sides apart.
pub proof fn lemma_split_seq_concat(a: Seq<char>, b: Seq<char>, sep: char)
    ensures
        split_seq(a + seq![sep] + b, sep) == split_seq(a, sep) + split_seq(b, sep),
    decreases b.len(),
{
    let w = a + seq![sep] + b;
    if b.len() == 0 {
        assert(w.drop_last() =~= a);
        assert(w.last() == sep);
        assert(split_seq(w, sep) =~= split_seq(a, sep) + split_seq(b, sep));
    } else {
        assert(w.drop_last() =~= a + seq![sep] + b.drop_last());
        assert(w.last() == b.last());
        lemma_split_seq_concat(a, b.drop_last(), sep);
        lemma_split_seq_nonempty(b.drop_last(), sep);
        lemma_split_seq_nonempty(a, sep);
        let x = split_seq(a, sep);
        let y = split_seq(b.drop_last(), sep);
        if b.last() == sep {
            assert(split_seq(w, sep) =~= x + y.push(seq![]));
        } else {
            assert((x + y).last() == y.last());
            assert((x + y).update((x + y).len() - 1, y.last().push(b.last())) =~= x + y.update(
                y.len() - 1,
                y.last().push(b.last()),
            ));
        }
    }
}

/// Whether `needle` occurs in `hay` at index `i`.
pub fn occurs_at_chars(hay: &[char], needle: &[char], i: usize) -> (r: bool)
    ensures
        r == occurs_at(hay@, needle@, i as int),
{
    if i > hay.len() || needle.len() > hay.len() - i {
        return false;
    }
    let mut k: usize = 0;
    while k < needle.len()
        invariant
            i + needle@.len() <= hay@.len(),
            hay@.len() == hay.len(),
            needle@.len() == needle.len(),
            k <= needle@.len(),
            forall|j: int| 0 <= j < k ==> hay@[i + j] == needle@[j],
        decreases needle.len() - k,
    {
        if hay[i + k] != needle[k] {
            assert(hay@.subrange(i as int, i + needle@.len())[k as int] != needle@[k as int]);
            return false;
        }
        k = k + 1;
    }
    assert(hay@.subrange(i as int, i + needle@.len()) =~= needle@);
    true
}

/// The first index at or after `from` where `needle` occurs in `hay`.
pub fn find_chars_from(hay: &[char], needle: &[char], from: usize) -> (r: Option<usize>)
    ensures
        match r {
            Some(p) => find_from(hay@, needle@, from as int) == Some(p as int),
            None => find_from(hay@, needle@, from as int) is None,
        },
{
    let mut i = from;
    while i <= hay.len() && needle.len() <= hay.len() - i
        invariant
            from <= i,
            find_from(hay@, needle@, from as int) == find_from(hay@, needle@, i as int),
        decreases hay.len() + 1 - i,
    {
        if occurs_at_chars(hay, needle, i) {
            return Some(i);
        }
        if i == hay.len() {
            return None;
        }
        i = i + 1;
    }
    None
}

/// Whether `needle` occurs in `hay` at index `i`.
pub fn occurs_at_bytes(hay: &[u8], needle: &[u8], i: usize) -> (r: bool)
    ensures
        r == occurs_at(hay@, needle@, i as int),
{
    if i > hay.len() || needle.len() > hay.len() - i {
        return false;
    }
    let mut k: usize = 0;
    while k < needle.len()
        invariant
            i + needle@.len() <= hay@.len(),
            hay@.len() == hay.len(),
            needle@.len() == needle.len(),
            k <= needle@.len(),
            forall|j: int| 0 <= j < k ==> hay@[i + j] == needle@[j],
        decreases needle.len() - k,
    {
        if hay[i + k] != needle[k] {
            assert(hay@.subrange(i as int, i + needle@.len())[k as int] != needle@[k as int]);
            return false;
        }
        k = k + 1;
    }
    assert(hay@.subrange(i as int, i + needle@.len()) =~= needle@);
    true
}

/// The first index at or after `from` where `needle` occurs in `hay`.
pub fn find_bytes_from(hay: &[u8], needle: &[u8], from: usize) -> (r: Option<usize>)
    ensures
        match r {
            Some(p) => find_from(hay@, needle@, from as int) == Some(p as int),
            None => find_from(hay@, needle@, from as int) is None,
        },
{
    let mut i = from;
    while i <= hay.len() && needle.len() <= hay.len() - i
        invariant
            from <= i,
            find_from(hay@, needle@, from as int) == find_from(hay@, needle@, i as int),
        decreases hay.len() + 1 - i,
    {
        if occurs_at_bytes(hay, needle, i) {
            return Some(i);
        }
        if i == hay.len() {
            return None;
        }
        i = i + 1;
    }
    None
}

pub proof fn lemma_find_from_some<A>(s: Seq<A>, sub: Seq<A>, i: int)
    requires
        find_from(s, sub, i) is Some,
    ensures
        i <= find_from(s, sub, i)->0,
        occurs_at(s, sub, find_from(s, sub, i)->0),
    decreases s.len() - i,
{
    if !(i < 0 || i + sub.len() > s.len()) && !occurs_at(s, sub, i) && i < s.len() {
        lemma_find_from_some(s, sub, i + 1);
    }
}

pub proof fn lemma_find_from_none<A>(s: Seq<A>, sub: Seq<A>, i: int, j: int)
    requires
        find_from(s, sub, i) is None,
        0 <= i <= j,
    ensures
        !occurs_at(s, sub, j),
    decreases s.len() - i,
{
    if !(i + sub.len() > s.len()) && i < s.len() && j > i {
        lemma_find_from_none(s, sub, i + 1, j);
    }
}

/// Whether `needle` occurs anywhere in `hay`.
pub fn contains_chars(hay: &[char], needle: &[char]) -> (r: bool)
    ensures
        r == contains_seq(hay@, needle@),
{
    match find_chars_from(hay, needle, 0) {
        Some(p) => {
            proof {
                lemma_find_from_some(hay@, needle@, 0);
            }
            true
        },
        None => {
            proof {
                assert forall|j: int| !occurs_at(hay@, needle@, j) by {
                    if j >= 0 {
                        lemma_find_from_none(hay@, needle@, 0, j);
                    }
                }
            }
            false
        },
    }
}

/// Whether `hay` begins with `p`.
pub fn starts_with_chars(hay: &[char], p: &[char]) -> (r: bool)
    ensures
        r == starts_with_seq(hay@, p@),
{
    occurs_at_chars(hay, p, 0)
}

/// Whether `hay` ends with `p`.
pub fn ends_with_chars(hay: &[char], p: &[char]) -> (r: bool)
    ensures
        r == ends_with_seq(hay@, p@),
{
    if p.len() > hay.len() {
        false
    } else {
        occurs_at_chars(hay, p, hay.len() - p.len())
    }
}

/// Whether `c` stands anywhere in `s`.
pub fn has_char(s: &[char], c: char) -> (r: bool)
    ensures
        r == s@.contains(c),
{
    let mut i: usize = 0;
    while i < s.len()
        invariant
            i <= s@.len(),
            forall|k: int| 0 <= k < i ==> s@[k] != c,
        decreases s.len() - i,
    {
        if s[i] == c {
            return true;
        }
        i = i + 1;
    }
    false
}

/// The characters of `s` from index `a` up to `b`.
pub fn sub_chars(s: &[char], a: usize, b: usize) -> (r: Vec<char>)
    requires
        a <= b <= s@.len(),
    ensures
        r@ == s@.subrange(a as int, b as int),
{
    let mut r: Vec<char> = Vec::new();
    let mut i: usize = a;
    while i < b
        invariant
            a <= i <= b <= s@.len(),
            r@ == s@.subrange(a as int, i as int),
        decreases b - i,
    {
        r.push(s[i]);
        i = i + 1;
        assert(s@.subrange(a as int, i as int) == s@.subrange(a as int, i - 1).push(s@[i - 1]));
    }
    r
}

/// The pieces of `s` between occurrences of `sep`.
pub fn split_chars(s: &[char], sep: char) -> (r: Vec<Vec<char>>)
    ensures
        r@.len() == split_seq(s@, sep).len(),
        forall|k: int| 0 <= k < r@.len() ==> #[trigger] r@[k]@ == split_seq(s@, sep)[k],
{
    let mut r: Vec<Vec<char>> = Vec::new();
    let mut cur: Vec<char> = Vec::new();
    let mut i: usize = 0;
    while i < s.len()
        invariant
            i <= s@.len(),
            r@.len() + 1 == split_seq(s@.subrange(0, i as int), sep).len(),
            forall|k: int| 0 <= k < r@.len() ==> #[trigger] r@[k]@ == split_seq(s@.subrange(0, i as int), sep)[k],
            cur@ == split_seq(s@.subrange(0, i as int), sep).last(),
        decreases s.len() - i,
    {
        let ghost pre = s@.subrange(0, i as int);
        let ghost next = s@.subrange(0, i + 1);
        assert(next.drop_last() == pre);
        proof {
            lemma_split_seq_nonempty(pre, sep);
        }
        if s[i] == sep {
            let done = cur;
            r.push(done);
            cur = Vec::new();
        } else {
            cur.push(s[i]);
        }
        i = i + 1;
    }
    assert(s@.subrange(0, s@.len() as int) == s@);
    r.push(cur);
    r
}


/// Whether two character sequences are equal.
pub fn chars_equal(a: &[char], b: &[char]) -> (r: bool)
    ensures
        r == (a@ == b@),
{
    if a.len() != b.len() {
        return false;
    }
    let mut i: usize = 0;
    while i < a.len()
        invariant
            a@.len() == b@.len(),
            i <= a@.len(),
            forall|k: int| 0 <= k < i ==> a@[k] == b@[k],
        decreases a.len() - i,
    {
        if a[i] != b[i] {
            return false;
        }
        i = i + 1;
    }
    assert(a@ =~= b@);
    true
}

/// Whether two string slices hold the same characters.
pub fn str_equal(a: &str, b: &str) -> (r: bool)
    ensures
        r == (a@ == b@),
{
    let x = chars_of(a);
    let y = chars_of(b);
    chars_equal(x.as_slice(), y.as_slice())
}


/// A character boundary below another one is also a boundary of the prefix
/// that ends at the other one.
pub proof fn lemma_boundary_in_prefix(bytes: Seq<u8>, a: int, b: int)
    requires
        valid_utf8(bytes),
        0 <= a <= b <= bytes.len(),
        is_char_boundary(bytes, a),
        is_char_boundary(bytes, b),
    ensures
        valid_utf8(bytes.subrange(0, b)),
        is_char_boundary(bytes.subrange(0, b), a),
{
    valid_utf8_split(bytes, b);
    let head = bytes.subrange(0, b);
    is_char_boundary_start_end_of_seq(head);
    if a != b && a != 0 {
        is_char_boundary_iff_not_is_continuation_byte(bytes, a);
        is_char_boundary_iff_not_is_continuation_byte(head, a);
    }
}

/// The part of `s` between two byte offsets that fall on character boundaries.
pub fn substr(s: &str, a: usize, b: usize) -> (r: &str)
    requires
        a <= b <= s.spec_bytes().len(),
        is_char_boundary(s.spec_bytes(), a as int),
        is_char_boundary(s.spec_bytes(), b as int),
    ensures
        r.spec_bytes() == s.spec_bytes().subrange(a as int, b as int),
        r@ == decode_utf8(s.spec_bytes().subrange(a as int, b as int)),
{
    proof {
        encode_utf8_valid_utf8(s@);
        lemma_boundary_in_prefix(s.spec_bytes(), a as int, b as int);
    }
    let (head, _) = s.split_at(b);
    let (_, mid) = head.split_at(a);
    proof {
        assert(head.spec_bytes() == s.spec_bytes().subrange(0, b as int));
        assert(mid.spec_bytes() =~= s.spec_bytes().subrange(a as int, b as int));
        encode_utf8_decode_utf8(mid@);
    }
    mid
}

} // verus!
