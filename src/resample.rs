//! Per-second message counts of a chat log.
use vstd::prelude::*;
use crate::models::ChatMessage;
use crate::stats::counts;

verus! {

/// Largest absolute timestamp (seconds from the Unix epoch) that a chat
/// message may carry; about the range of a calendar date-time.
pub const TIMESTAMP_LIMIT: i64 = 8_000_000_000_000;

/// Timestamps of the messages.
pub open spec fn stamps(m: Seq<ChatMessage>) -> Seq<int> {
    m.map_values(|x: ChatMessage| x.timestamp as int)
}

/// Every timestamp lies within `TIMESTAMP_LIMIT` of the epoch.
pub open spec fn stamps_in_range(m: Seq<ChatMessage>) -> bool {
    forall|i: int| 0 <= i < m.len() ==> -TIMESTAMP_LIMIT <= #[trigger] m[i].timestamp <= TIMESTAMP_LIMIT
}

/// The earliest timestamp (0 when there is none).
pub open spec fn earliest(t: Seq<int>) -> int
    decreases t.len(),
{
    if t.len() == 0 {
        0
    } else if t.len() == 1 || t.last() <= earliest(t.drop_last()) {
        t.last()
    } else {
        earliest(t.drop_last())
    }
}

/// The latest timestamp (0 when there is none).
pub open spec fn latest(t: Seq<int>) -> int
    decreases t.len(),
{
    if t.len() == 0 {
        0
    } else if t.len() == 1 || t.last() >= latest(t.drop_last()) {
        t.last()
    } else {
        latest(t.drop_last())
    }
}

/// Number of timestamps that fall `sec` whole seconds after `first`.
pub open spec fn count_in_second(t: Seq<int>, first: int, sec: int) -> int
    decreases t.len(),
{
    if t.len() == 0 {
        0
    } else {
        count_in_second(t.drop_last(), first, sec) + if t.last() - first == sec {
            1int
        } else {
            0int
        }
    }
}

/// Sum of a sequence.
pub open spec fn sum(s: Seq<int>) -> int
    decreases s.len(),
{
    if s.len() == 0 {
        0
    } else {
        sum(s.drop_last()) + s.last()
    }
}

pub(crate) proof fn lemma_extremes(t: Seq<int>)
    requires
        t.len() > 0,
    ensures
        forall|i: int| 0 <= i < t.len() ==> earliest(t) <= #[trigger] t[i] <= latest(t),
        exists|i: int| 0 <= i < t.len() && t[i] == earliest(t),
        exists|i: int| 0 <= i < t.len() && t[i] == latest(t),
    decreases t.len(),
{
    if t.len() > 1 {
        lemma_extremes(t.drop_last());
        let e = choose|i: int| 0 <= i < t.len() - 1 && t.drop_last()[i] == earliest(t.drop_last());
        let l = choose|i: int| 0 <= i < t.len() - 1 && t.drop_last()[i] == latest(t.drop_last());
        assert(t[e] == earliest(t.drop_last()));
        assert(t[l] == latest(t.drop_last()));
        assert forall|i: int| 0 <= i < t.len() implies earliest(t) <= #[trigger] t[i] <= latest(t) by {
            if i < t.len() - 1 {
                assert(t[i] == t.drop_last()[i]);
            }
        }
        if t.last() <= earliest(t.drop_last()) {
            assert(t[t.len() - 1] == earliest(t));
        } else {
            assert(t[e] == earliest(t));
        }
        if t.last() >= latest(t.drop_last()) {
            assert(t[t.len() - 1] == latest(t));
        } else {
            assert(t[l] == latest(t));
        }
    } else {
        assert(t[0] == earliest(t));
        assert(t[0] == latest(t));
    }
}

proof fn lemma_sum_bump(s: Seq<int>, k: int)
    requires
        0 <= k < s.len(),
    ensures
        sum(s.update(k, s[k] + 1)) == sum(s) + 1,
    decreases s.len(),
{
    let u = s.update(k, s[k] + 1);
    if k == s.len() - 1 {
        assert(u.drop_last() =~= s.drop_last());
    } else {
        assert(u.drop_last() =~= s.drop_last().update(k, s[k] + 1));
        lemma_sum_bump(s.drop_last(), k);
    }
}

proof fn lemma_sum_zeros(n: int)
    requires
        n >= 0,
    ensures
        sum(Seq::new(n as nat, |i: int| 0int)) == 0,
    decreases n,
{
    if n > 0 {
        assert(Seq::new(n as nat, |i: int| 0int).drop_last() =~= Seq::new((n - 1) as nat, |i: int| 0int));
        lemma_sum_zeros(n - 1);
    }
}

/// Counts the messages of each second after `first_time`, for the seconds
/// `0 ..= span`; every message must fall in that range.
/// The counts add up to the number of messages.
pub fn resample_to_seconds(messages: &Vec<ChatMessage>, first_time: i64, span: usize) -> (rate: Vec<usize>)
    requires
        span < usize::MAX,
        -TIMESTAMP_LIMIT <= first_time,
        stamps_in_range(messages@),
        forall|i: int|
            0 <= i < messages@.len() ==> first_time <= #[trigger] messages@[i].timestamp
                && messages@[i].timestamp - first_time <= span,
    ensures
        rate@.len() == span + 1,
        forall|k: int|
            0 <= k < rate@.len() ==> #[trigger] rate@[k] == count_in_second(stamps(messages@), first_time as int, k),
        sum(counts(rate@)) == messages@.len(),
{
    let mut rate: Vec<usize> = Vec::new();
    let mut k: usize = 0;
    while k <= span
        invariant
            span < usize::MAX,
            k <= span + 1,
            rate@.len() == k,
            forall|j: int| 0 <= j < k ==> rate@[j] == 0,
        decreases span + 1 - k,
    {
        rate.push(0);
        k += 1;
    }
    proof {
        assert(counts(rate@) =~= Seq::new((span + 1) as nat, |i: int| 0int));
        lemma_sum_zeros(span + 1);
    }
    let ghost t = stamps(messages@);
    let mut i: usize = 0;
    while i < messages.len()
        invariant
            0 <= i <= messages@.len(),
            t == stamps(messages@),
            rate@.len() == span + 1,
            -TIMESTAMP_LIMIT <= first_time,
            stamps_in_range(messages@),
            forall|j: int|
                0 <= j < messages@.len() ==> first_time <= #[trigger] messages@[j].timestamp
                    && messages@[j].timestamp - first_time <= span,
            forall|j: int|
                0 <= j < rate@.len() ==> #[trigger] rate@[j] == count_in_second(
                    t.subrange(0, i as int),
                    first_time as int,
                    j,
                ),
            sum(counts(rate@)) == i,
        decreases messages@.len() - i,
    {
        let sec = (messages[i].timestamp - first_time) as usize;
        let ghost before = rate@;
        proof {
            assert(t.subrange(0, i + 1).drop_last() =~= t.subrange(0, i as int));
            assert(t.subrange(0, i + 1).last() == messages@[i as int].timestamp);
            assert(rate@[sec as int] == count_in_second(t.subrange(0, i as int), first_time as int, sec as int));
            assert(count_in_second(t.subrange(0, i as int), first_time as int, sec as int) <= i) by {
                lemma_count_le_len(t.subrange(0, i as int), first_time as int, sec as int);
            }
        }
        let c = rate[sec];
        rate.set(sec, c + 1);
        proof {
            assert(counts(rate@) =~= counts(before).update(sec as int, counts(before)[sec as int] + 1));
            lemma_sum_bump(counts(before), sec as int);
        }
        i += 1;
    }
    assert(t.subrange(0, messages@.len() as int) =~= t);
    rate
}

proof fn lemma_count_le_len(t: Seq<int>, first: int, sec: int)
    ensures
        0 <= count_in_second(t, first, sec) <= t.len(),
    decreases t.len(),
{
    if t.len() > 0 {
        lemma_count_le_len(t.drop_last(), first, sec);
    }
}

/// Earliest and latest timestamp of a non-empty message list.
pub(crate) fn time_range(messages: &Vec<ChatMessage>) -> (r: (i64, i64))
    requires
        messages@.len() > 0,
    ensures
        r.0 as int == earliest(stamps(messages@)),
        r.1 as int == latest(stamps(messages@)),
{
    let ghost t = stamps(messages@);
    let mut first = messages[0].timestamp;
    let mut last = messages[0].timestamp;
    let mut i: usize = 1;
    assert(t.subrange(0, 1) =~= seq![messages@[0].timestamp as int]);
    while i < messages.len()
        invariant
            1 <= i <= messages@.len(),
            t == stamps(messages@),
            first as int == earliest(t.subrange(0, i as int)),
            last as int == latest(t.subrange(0, i as int)),
        decreases messages@.len() - i,
    {
        assert(t.subrange(0, i + 1).drop_last() =~= t.subrange(0, i as int));
        let ts = messages[i].timestamp;
        if ts <= first {
            first = ts;
        }
        if ts >= last {
            last = ts;
        }
        i += 1;
    }
    assert(t.subrange(0, messages@.len() as int) =~= t);
    (first, last)
}

} // verus!
