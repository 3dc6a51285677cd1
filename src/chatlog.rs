//! The chat-log file format: file names `chatLog-{video_id}.log` and lines
//! `[YYYY-MM-DD HH:MM:SS] nickname: message (user_id)`.
use vstd::prelude::*;
use crate::models::ChatMessage;

verus! {

/// The characters of a string.
pub fn chars_of(s: &str) -> (r: Vec<char>)
    ensures
        r@ == s@,
{
    broadcast use vstd::string::axiom_spec_iter;

    let mut out: Vec<char> = Vec::new();
    for c in it: s.chars()
        invariant
            out@.len() == it.index(),
            forall|i: int| 0 <= i < out@.len() ==> out@[i] == it.seq()[i],
            it.seq() == s@,
    {
        out.push(c);
    }
    assert(out@ =~= s@);
    out
}

/// `w` occurs in `s` at position `p`.
pub open spec fn occurs_at(s: Seq<char>, p: int, w: Seq<char>) -> bool {
    0 <= p && p + w.len() <= s.len() && s.subrange(p, p + w.len()) == w
}

/// An ASCII decimal digit.
pub open spec fn is_digit(c: char) -> bool {
    '0' <= c && c <= '9'
}

/// End of the run of digits that starts at `from`.
pub open spec fn digits_end(s: Seq<char>, from: int) -> int
    decreases s.len() - from,
{
    if from < 0 || from >= s.len() || !is_digit(s[from]) {
        from
    } else {
        digits_end(s, from + 1)
    }
}

/// The text before the video id in a chat-log file name.
pub open spec fn log_prefix() -> Seq<char> {
    seq!['c', 'h', 'a', 't', 'L', 'o', 'g', '-']
}

/// The text after the video id in a chat-log file name.
pub open spec fn log_suffix() -> Seq<char> {
    seq!['.', 'l', 'o', 'g']
}

/// `chatLog-`, one or more digits and `.log` occur in `s` from position `p`.
pub open spec fn file_name_match_at(s: Seq<char>, p: int) -> bool {
    &&& occurs_at(s, p, log_prefix())
    &&& digits_end(s, p + 8) > p + 8
    &&& occurs_at(s, digits_end(s, p + 8), log_suffix())
}

/// The first position, from `from` on, where a file-name match starts.
pub open spec fn first_file_name_match(s: Seq<char>, from: int) -> Option<int>
    decreases s.len() - from,
{
    if from < 0 || from >= s.len() {
        None
    } else if file_name_match_at(s, from) {
        Some(from)
    } else {
        first_file_name_match(s, from + 1)
    }
}

/// Value of a digit.
pub open spec fn digit_value(c: char) -> int {
    (c as u32) as int - ('0' as u32) as int
}

/// Value of a run of decimal digits.
pub open spec fn decimal_value(ds: Seq<char>) -> int
    decreases ds.len(),
{
    if ds.len() == 0 {
        0
    } else {
        decimal_value(ds.drop_last()) * 10 + digit_value(ds.last())
    }
}

/// The video id named by a chat-log file name: the digits of the first
/// `chatLog-<digits>.log` in it, when their value fits in a `u64`.
pub open spec fn video_id_of(s: Seq<char>) -> Option<u64> {
    match first_file_name_match(s, 0) {
        Some(p) => {
            let v = decimal_value(s.subrange(p + 8, digits_end(s, p + 8)));
            if v <= u64::MAX {
                Some(v as u64)
            } else {
                None
            }
        },
        None => None,
    }
}

/// Whether `w` occurs in `cs` at position `p`.
fn word_at(cs: &Vec<char>, p: usize, w: &Vec<char>) -> (r: bool)
    ensures
        r == occurs_at(cs@, p as int, w@),
{
    if p > cs.len() || w.len() > cs.len() - p {
        return false;
    }
    let mut k: usize = 0;
    while k < w.len()
        invariant
            0 <= k <= w@.len(),
            p + w.len() <= cs.len(),
            forall|j: int| 0 <= j < k ==> cs@[p + j] == w@[j],
        decreases w@.len() - k,
    {
        if cs[p + k] != w[k] {
            assert(cs@.subrange(p as int, p + w@.len())[k as int] != w@[k as int]);
            return false;
        }
        k += 1;
    }
    assert(cs@.subrange(p as int, p + w@.len()) =~= w@);
    true
}

/// End of the run of digits that starts at `from`.
fn digits_end_of(cs: &Vec<char>, from: usize) -> (r: usize)
    requires
        from <= cs@.len(),
    ensures
        r as int == digits_end(cs@, from as int),
        from <= r <= cs@.len(),
{
    let mut i = from;
    while i < cs.len() && '0' <= cs[i] && cs[i] <= '9'
        invariant
            from <= i <= cs@.len(),
            digits_end(cs@, i as int) == digits_end(cs@, from as int),
        decreases cs@.len() - i,
    {
        i += 1;
    }
    i
}

/// Every extension of a run of digits has at least its value.
proof fn lemma_decimal_grows(ds: Seq<char>, k: int)
    requires
        0 <= k <= ds.len(),
        forall|j: int| 0 <= j < ds.len() ==> is_digit(#[trigger] ds[j]),
    ensures
        0 <= decimal_value(ds.take(k)) <= decimal_value(ds),
    decreases ds.len() - k,
{
    if k < ds.len() {
        lemma_decimal_grows(ds, k + 1);
        assert(ds.take(k + 1).drop_last() =~= ds.take(k));
        assert(is_digit(ds.take(k + 1).last()));
    } else {
        assert(ds.take(k) =~= ds);
        lemma_decimal_nonneg(ds);
    }
}

proof fn lemma_decimal_nonneg(ds: Seq<char>)
    requires
        forall|j: int| 0 <= j < ds.len() ==> is_digit(#[trigger] ds[j]),
    ensures
        decimal_value(ds) >= 0,
    decreases ds.len(),
{
    if ds.len() > 0 {
        lemma_decimal_nonneg(ds.drop_last());
        assert(is_digit(ds[ds.len() - 1]));
    }
}

/// Value of the digits `cs[from..to]`, or `None` when it exceeds `u64::MAX`.
fn decimal_of(cs: &Vec<char>, from: usize, to: usize) -> (r: Option<u64>)
    requires
        from <= to <= cs@.len(),
        forall|j: int| from <= j < to ==> is_digit(#[trigger] cs@[j]),
    ensures
        ({
            let v = decimal_value(cs@.subrange(from as int, to as int));
            if v <= u64::MAX {
                r == Some(v as u64)
            } else {
                r.is_none()
            }
        }),
{
    let ghost ds = cs@.subrange(from as int, to as int);
    let mut v: u64 = 0;
    let mut i = from;
    while i < to
        invariant
            from <= i <= to <= cs@.len(),
            ds == cs@.subrange(from as int, to as int),
            forall|j: int| from <= j < to ==> is_digit(#[trigger] cs@[j]),
            v as int == decimal_value(ds.take(i - from)),
        decreases to - i,
    {
        let c = cs[i];
        assert(ds[i - from] == c);
        assert(ds.take(i - from + 1).drop_last() =~= ds.take(i - from));
        let d = (c as u32 - '0' as u32) as u64;
        if v > (u64::MAX - d) / 10 {
            proof {
                assert forall|j: int| 0 <= j < ds.len() implies is_digit(#[trigger] ds[j]) by {
                    assert(ds[j] == cs@[from + j]);
                }
                lemma_decimal_grows(ds, i - from + 1);
                assert(v * 10 + d > u64::MAX) by (nonlinear_arith)
                    requires
                        v > (u64::MAX - d) / 10,
                        d <= 9,
                ;
            }
            return None;
        }
        v = v * 10 + d;
        i += 1;
    }
    assert(ds.take(to - from) =~= ds);
    Some(v)
}

/// The video id in a chat-log file name `chatLog-{video_id}.log`.
pub fn extract_video_id_from_filename(filename: &str) -> (r: Option<u64>)
    ensures
        r == video_id_of(filename@),
{
    let cs = chars_of(filename);
    let prefix = vec!['c', 'h', 'a', 't', 'L', 'o', 'g', '-'];
    let suffix = vec!['.', 'l', 'o', 'g'];
    assert(prefix@ =~= log_prefix());
    assert(suffix@ =~= log_suffix());
    let n = cs.len();
    let mut p: usize = 0;
    while p < n
        invariant
            0 <= p <= n,
            n == cs@.len(),
            cs@ == filename@,
            prefix@ == log_prefix(),
            suffix@ == log_suffix(),
            first_file_name_match(cs@, 0) == first_file_name_match(cs@, p as int),
        decreases n - p,
    {
        if word_at(&cs, p, &prefix) {
            let d = digits_end_of(&cs, p + 8);
            if d > p + 8 && word_at(&cs, d, &suffix) {
                assert(file_name_match_at(cs@, p as int));
                proof {
                    assert forall|j: int| p + 8 <= j < d implies is_digit(#[trigger] cs@[j]) by {
                        lemma_digits_run(cs@, p + 8, j);
                    }
                }
                return decimal_of(&cs, p + 8, d);
            }
        }
        p += 1;
    }
    None
}

/// Every position before the end of a run of digits holds a digit.
proof fn lemma_digits_run(s: Seq<char>, from: int, j: int)
    requires
        0 <= from <= j < digits_end(s, from),
    ensures
        is_digit(s[j]),
    decreases j - from,
{
    if j > from {
        lemma_digits_run(s, from + 1, j);
    }
}

/// First position, from `from` on, holding `ch`; `s.len()` when none does.
pub open spec fn first_from(s: Seq<char>, from: int, ch: char) -> int
    decreases s.len() - from,
{
    if from < 0 || from >= s.len() {
        s.len() as int
    } else if s[from] == ch {
        from
    } else {
        first_from(s, from + 1, ch)
    }
}

/// Character `k` of a `YYYY-MM-DD HH:MM:SS` time stamp.
pub open spec fn stamp_char_ok(c: char, k: int) -> bool {
    if k == 4 || k == 7 {
        c == '-'
    } else if k == 10 {
        c == ' '
    } else if k == 13 || k == 16 {
        c == ':'
    } else {
        is_digit(c)
    }
}

/// `[YYYY-MM-DD HH:MM:SS] ` occurs in `s` at position `p`.
pub open spec fn header_at(s: Seq<char>, p: int) -> bool {
    &&& 0 <= p && p + 22 <= s.len()
    &&& s[p] == '[' && s[p + 20] == ']' && s[p + 21] == ' '
    &&& forall|k: int| 0 <= k < 19 ==> stamp_char_ok(#[trigger] s[p + 1 + k], k)
}

/// ` (`, one or more characters other than `)`, and `)` occur in `s` from
/// position `q`.
pub open spec fn tail_at(s: Seq<char>, q: int) -> bool {
    &&& 0 <= q && q + 2 < s.len()
    &&& s[q] == ' ' && s[q + 1] == '('
    &&& q + 2 < first_from(s, q + 2, ')') < s.len()
}

/// The last position in `[lo, hi)` where a tail occurs.
pub open spec fn last_tail(s: Seq<char>, lo: int, hi: int) -> Option<int>
    decreases hi - lo,
{
    if hi <= lo {
        None
    } else if tail_at(s, hi - 1) {
        Some(hi - 1)
    } else {
        last_tail(s, lo, hi - 1)
    }
}

/// A chat line that starts at position `p`: the header, a nickname without
/// `:` up to the first `:`, then `: `, the message (as long as possible), and
/// the user id in parentheses. Gives the positions of the start, of the `:`,
/// of the ` (` and of the closing `)`.
pub open spec fn line_match_at(s: Seq<char>, p: int) -> Option<(int, int, int, int)> {
    if !header_at(s, p) {
        None
    } else {
        let c = first_from(s, p + 22, ':');
        if c == p + 22 || c + 1 >= s.len() || s[c + 1] != ' ' {
            None
        } else {
            match last_tail(s, c + 3, s.len() as int) {
                Some(q) => Some((p, c, q, first_from(s, q + 2, ')'))),
                None => None,
            }
        }
    }
}

/// The first chat line that starts at `from` or later.
pub open spec fn first_line_match(s: Seq<char>, from: int) -> Option<(int, int, int, int)>
    decreases s.len() - from,
{
    if from < 0 || from >= s.len() {
        None
    } else {
        match line_match_at(s, from) {
            Some(m) => Some(m),
            None => first_line_match(s, from + 1),
        }
    }
}

/// A character with the Unicode `White_Space` property.
pub open spec fn is_white_space(c: char) -> bool {
    ('\u{9}' <= c && c <= '\u{d}') || c == ' ' || c == '\u{85}' || c == '\u{a0}' || c == '\u{1680}' || (
    '\u{2000}' <= c && c <= '\u{200a}') || c == '\u{2028}' || c == '\u{2029}' || c == '\u{202f}' || c
        == '\u{205f}' || c == '\u{3000}'
}

/// `s` without its leading white space.
pub open spec fn trim_start(s: Seq<char>) -> Seq<char>
    decreases s.len(),
{
    if s.len() > 0 && is_white_space(s[0]) {
        trim_start(s.drop_first())
    } else {
        s
    }
}

/// `s` without its trailing white space.
pub open spec fn trim_end(s: Seq<char>) -> Seq<char>
    decreases s.len(),
{
    if s.len() > 0 && is_white_space(s.last()) {
        trim_end(s.drop_last())
    } else {
        s
    }
}

/// `s` without leading and trailing white space.
pub open spec fn trimmed(s: Seq<char>) -> Seq<char> {
    trim_end(trim_start(s))
}

/// Seconds since the Unix epoch that chrono reads from a
/// `%Y-%m-%d %H:%M:%S` text taken as a time in the +09:00 zone, if it reads
/// one.
pub uninterp spec fn kst_local_timestamp(text: Seq<char>) -> Option<int>;

/// Relies on chrono (`NaiveDateTime::parse_from_str` with
/// `%Y-%m-%d %H:%M:%S`, `and_local_timezone` in a `FixedOffset` of +09:00,
/// `timestamp`): the result depends on the text alone.
#[verifier::external_body]
fn parse_kst_local(text: &String) -> (r: Option<i64>)
    ensures
        match r {
            Some(t) => kst_local_timestamp(text@) == Some(t as int),
            None => kst_local_timestamp(text@).is_none(),
        },
{
    match (chrono::NaiveDateTime::parse_from_str(text, "%Y-%m-%d %H:%M:%S"), chrono::FixedOffset::east_opt(9 * 3600)) {
        (Ok(naive), Some(kst)) => naive.and_local_timezone(kst).single().map(|t| t.timestamp()),
        _ => None,
    }
}

/// Relies on `String: FromIterator<char>`: the string of the characters.
#[verifier::external_body]
fn string_of(cs: Vec<char>) -> (r: String)
    ensures
        r@ == cs@,
{
    cs.into_iter().collect()
}

/// The characters `cs[a..b]`.
fn slice_chars(cs: &Vec<char>, a: usize, b: usize) -> (r: Vec<char>)
    requires
        a <= b <= cs@.len(),
    ensures
        r@ == cs@.subrange(a as int, b as int),
{
    let mut out: Vec<char> = Vec::new();
    let mut i = a;
    while i < b
        invariant
            a <= i <= b <= cs@.len(),
            out@ == cs@.subrange(a as int, i as int),
        decreases b - i,
    {
        out.push(cs[i]);
        assert(out@ =~= cs@.subrange(a as int, i + 1));
        i += 1;
    }
    out
}

/// Whether `c` has the Unicode `White_Space` property.
fn white_space(c: char) -> (r: bool)
    ensures
        r == is_white_space(c),
{
    ('\u{9}' <= c && c <= '\u{d}') || c == ' ' || c == '\u{85}' || c == '\u{a0}' || c == '\u{1680}' || (
    '\u{2000}' <= c && c <= '\u{200a}') || c == '\u{2028}' || c == '\u{2029}' || c == '\u{202f}' || c
        == '\u{205f}' || c == '\u{3000}'
}

proof fn lemma_trim_start_step(s: Seq<char>, a: int, b: int)
    requires
        0 <= a < b <= s.len(),
        is_white_space(s[a]),
    ensures
        trim_start(s.subrange(a, b)) == trim_start(s.subrange(a + 1, b)),
{
    assert(s.subrange(a, b).drop_first() =~= s.subrange(a + 1, b));
}

proof fn lemma_trim_end_step(s: Seq<char>, a: int, b: int)
    requires
        0 <= a < b <= s.len(),
        is_white_space(s[b - 1]),
    ensures
        trim_end(s.subrange(a, b)) == trim_end(s.subrange(a, b - 1)),
{
    assert(s.subrange(a, b).drop_last() =~= s.subrange(a, b - 1));
}

/// The characters `cs[a..b]` without leading and trailing white space.
fn trimmed_chars(cs: &Vec<char>, a: usize, b: usize) -> (r: Vec<char>)
    requires
        a <= b <= cs@.len(),
    ensures
        r@ == trimmed(cs@.subrange(a as int, b as int)),
{
    let mut lo = a;
    while lo < b && white_space(cs[lo])
        invariant
            a <= lo <= b <= cs@.len(),
            trim_start(cs@.subrange(a as int, b as int)) == trim_start(cs@.subrange(lo as int, b as int)),
        decreases b - lo,
    {
        proof {
            lemma_trim_start_step(cs@, lo as int, b as int);
        }
        lo += 1;
    }
    assert(trim_start(cs@.subrange(lo as int, b as int)) == cs@.subrange(lo as int, b as int));
    let mut hi = b;
    while hi > lo && white_space(cs[hi - 1])
        invariant
            a <= lo <= hi <= b <= cs@.len(),
            trim_end(cs@.subrange(lo as int, b as int)) == trim_end(cs@.subrange(lo as int, hi as int)),
        decreases hi - lo,
    {
        proof {
            lemma_trim_end_step(cs@, lo as int, hi as int);
        }
        hi -= 1;
    }
    assert(trim_end(cs@.subrange(lo as int, hi as int)) == cs@.subrange(lo as int, hi as int));
    slice_chars(cs, lo, hi)
}

/// First position, from `from` on, holding `ch` (or the length).
fn first_from_of(cs: &Vec<char>, from: usize, ch: char) -> (r: usize)
    requires
        from <= cs@.len(),
    ensures
        r as int == first_from(cs@, from as int, ch),
        from <= r <= cs@.len(),
{
    let mut i = from;
    while i < cs.len() && cs[i] != ch
        invariant
            from <= i <= cs@.len(),
            first_from(cs@, i as int, ch) == first_from(cs@, from as int, ch),
        decreases cs@.len() - i,
    {
        i += 1;
    }
    i
}

/// Whether a line header starts at `p`.
fn header_at_of(cs: &Vec<char>, p: usize) -> (r: bool)
    ensures
        r == header_at(cs@, p as int),
{
    if p > cs.len() || cs.len() - p < 22 {
        return false;
    }
    if cs[p] != '[' || cs[p + 20] != ']' || cs[p + 21] != ' ' {
        return false;
    }
    let mut k: usize = 0;
    while k < 19
        invariant
            0 <= k <= 19,
            p + 22 <= cs.len(),
            forall|j: int| 0 <= j < k ==> stamp_char_ok(#[trigger] cs@[p + 1 + j], j),
        decreases 19 - k,
    {
        let c = cs[p + 1 + k];
        let ok = if k == 4 || k == 7 {
            c == '-'
        } else if k == 10 {
            c == ' '
        } else if k == 13 || k == 16 {
            c == ':'
        } else {
            '0' <= c && c <= '9'
        };
        if !ok {
            assert(!stamp_char_ok(cs@[p + 1 + k as int], k as int));
            return false;
        }
        k += 1;
    }
    true
}

/// Whether a tail starts at `q`.
fn tail_at_of(cs: &Vec<char>, q: usize) -> (r: bool)
    ensures
        r == tail_at(cs@, q as int),
{
    if q >= cs.len() || cs.len() - q < 3 {
        return false;
    }
    if cs[q] != ' ' || cs[q + 1] != '(' {
        return false;
    }
    let close = first_from_of(cs, q + 2, ')');
    q + 2 < close && close < cs.len()
}

/// The last position in `[lo, hi)` where a tail starts.
fn last_tail_of(cs: &Vec<char>, lo: usize, hi: usize) -> (r: Option<usize>)
    requires
        hi <= cs@.len(),
    ensures
        match r {
            Some(q) => last_tail(cs@, lo as int, hi as int) == Some(q as int) && tail_at(cs@, q as int)
                && lo <= q < hi,
            None => last_tail(cs@, lo as int, hi as int).is_none(),
        },
{
    let mut h = hi;
    while h > lo
        invariant
            h <= hi <= cs@.len(),
            last_tail(cs@, lo as int, hi as int) == last_tail(cs@, lo as int, h as int),
        decreases h,
    {
        if tail_at_of(cs, h - 1) {
            return Some(h - 1);
        }
        h -= 1;
    }
    None
}

/// The timestamp, nickname, message and user id of the first chat line in
/// `s`, when there is one and its time stamp reads as a date and time.
pub open spec fn chat_line_of(s: Seq<char>) -> Option<(int, Seq<char>, Seq<char>, Seq<char>)> {
    match first_line_match(s, 0) {
        Some(m) => match kst_local_timestamp(s.subrange(m.0 + 1, m.0 + 20)) {
            Some(t) => Some(
                (
                    t,
                    trimmed(s.subrange(m.0 + 22, m.1)),
                    trimmed(s.subrange(m.1 + 2, m.2)),
                    s.subrange(m.2 + 2, m.3),
                ),
            ),
            None => None,
        },
        None => None,
    }
}

/// Parses a chat-log line `[YYYY-MM-DD HH:MM:SS] nickname: message (user_id)`,
/// its time read in the +09:00 zone.
pub fn parse_chat_line(line: &str) -> (r: Option<ChatMessage>)
    ensures
        match r {
            Some(m) => chat_line_of(line@) == Some(
                (m.timestamp as int, m.nickname@, m.message@, m.user_id@),
            ),
            None => chat_line_of(line@).is_none(),
        },
{
    let cs = chars_of(line);
    let n = cs.len();
    let mut p: usize = 0;
    while p < n
        invariant
            0 <= p <= n,
            n == cs@.len(),
            cs@ == line@,
            first_line_match(cs@, 0) == first_line_match(cs@, p as int),
        decreases n - p,
    {
        if header_at_of(&cs, p) {
            let c = first_from_of(&cs, p + 22, ':');
            if c != p + 22 && c < n - 1 && cs[c + 1] == ' ' && n - c > 3 {
                match last_tail_of(&cs, c + 3, n) {
                    Some(q) => {
                        let close = first_from_of(&cs, q + 2, ')');
                        assert(line_match_at(cs@, p as int) == Some((p as int, c as int, q as int, close as int)));
                        let stamp = string_of(slice_chars(&cs, p + 1, p + 20));
                        return match parse_kst_local(&stamp) {
                            Some(t) => Some(
                                ChatMessage {
                                    timestamp: t,
                                    nickname: string_of(trimmed_chars(&cs, p + 22, c)),
                                    message: string_of(trimmed_chars(&cs, c + 2, q)),
                                    user_id: string_of(slice_chars(&cs, q + 2, close)),
                                },
                            ),
                            None => None,
                        };
                    },
                    None => {},
                }
            }
        }
        p += 1;
    }
    None
}

} // verus!
