//! Ten-minute message counts of chat logs.
use vstd::prelude::*;
use crate::resample::{earliest, latest, lemma_extremes, stamps, stamps_in_range, time_range};
use crate::order::{is_arrangement, lemma_arrangement_entries, seconds_of, sort_pairs};
use crate::models::{ChatLog, ChatMessage};

verus! {

/// Width of a timeline bucket, in seconds (ten minutes).
pub const INTERVAL_SECONDS: i64 = 600;

/// Messages in one bucket: `time` is the bucket's first second after the
/// first message.
#[derive(Debug, Clone, Copy)]
pub struct TimelineEntry {
    pub time: i64,
    pub count: usize,
}

/// The ten-minute timeline of one video.
#[derive(Debug, Clone)]
pub struct VideoChatTimeline {
    pub video_id: u64,
    /// Time of the first message, ISO 8601 in the +09:00 zone.
    pub start_time: String,
    /// Non-empty buckets in time order.
    pub timeline: Vec<TimelineEntry>,
}

/// Text that chrono gives for a timestamp shown in the +09:00 zone as
/// `%Y-%m-%dT%H:%M:%S%z`.
pub uninterp spec fn kst_iso_text(secs: int) -> Seq<char>;

/// Relies on chrono (`DateTime::from_timestamp`, `with_timezone` to a
/// `FixedOffset` of +09:00, `format`): the text depends on the timestamp alone.
#[verifier::external_body]
fn format_kst_iso(secs: i64) -> (r: String)
    ensures
        r@ == kst_iso_text(secs as int),
{
    match (chrono::DateTime::from_timestamp(secs, 0), chrono::FixedOffset::east_opt(9 * 3600)) {
        (Some(t), Some(kst)) => t.with_timezone(&kst).format("%Y-%m-%dT%H:%M:%S%z").to_string(),
        _ => String::new(),
    }
}

/// Number of timestamps in bucket `b` of a timeline starting at `first`.
pub open spec fn bucket_count(t: Seq<int>, first: int, b: int) -> int
    decreases t.len(),
{
    if t.len() == 0 {
        0
    } else {
        bucket_count(t.drop_last(), first, b) + if (t.last() - first) / (INTERVAL_SECONDS as int) == b {
            1int
        } else {
            0int
        }
    }
}

/// The non-empty buckets among the first `upto`, in time order.
pub open spec fn timeline_entries(t: Seq<int>, first: int, upto: int) -> Seq<TimelineEntry>
    decreases upto,
{
    if upto <= 0 {
        Seq::empty()
    } else {
        let prev = timeline_entries(t, first, upto - 1);
        let c = bucket_count(t, first, upto - 1);
        if c > 0 {
            prev.push(TimelineEntry { time: ((upto - 1) * INTERVAL_SECONDS) as i64, count: c as usize })
        } else {
            prev
        }
    }
}

proof fn lemma_bucket_count_bounded(t: Seq<int>, first: int, b: int)
    ensures
        0 <= bucket_count(t, first, b) <= t.len(),
    decreases t.len(),
{
    if t.len() > 0 {
        lemma_bucket_count_bounded(t.drop_last(), first, b);
    }
}

/// Message counts of every bucket from the first message on.
fn bucket_counts(messages: &Vec<ChatMessage>, first: i64, nb: usize) -> (r: Vec<usize>)
    requires
        -8_000_000_000_000 <= first,
        stamps_in_range(messages@),
        forall|i: int|
            0 <= i < messages@.len() ==> first <= #[trigger] messages@[i].timestamp
                && (messages@[i].timestamp - first) / (INTERVAL_SECONDS as int) < nb,
    ensures
        r@.len() == nb,
        forall|b: int| 0 <= b < nb ==> #[trigger] r@[b] == bucket_count(stamps(messages@), first as int, b),
{
    let mut r: Vec<usize> = Vec::new();
    let mut k: usize = 0;
    while k < nb
        invariant
            k <= nb,
            r@.len() == k,
            forall|j: int| 0 <= j < k ==> r@[j] == 0,
        decreases nb - k,
    {
        r.push(0);
        k += 1;
    }
    let ghost t = stamps(messages@);
    let mut i: usize = 0;
    while i < messages.len()
        invariant
            0 <= i <= messages@.len(),
            t == stamps(messages@),
            r@.len() == nb,
            -8_000_000_000_000 <= first,
            stamps_in_range(messages@),
            forall|j: int|
                0 <= j < messages@.len() ==> first <= #[trigger] messages@[j].timestamp
                    && (messages@[j].timestamp - first) / (INTERVAL_SECONDS as int) < nb,
            forall|b: int| 0 <= b < nb ==> #[trigger] r@[b] == bucket_count(t.take(i as int), first as int, b),
        decreases messages@.len() - i,
    {
        let b = ((messages[i].timestamp - first) / INTERVAL_SECONDS) as usize;
        proof {
            assert(t.take(i + 1).drop_last() =~= t.take(i as int));
            assert(t.take(i + 1).last() == messages@[i as int].timestamp);
            lemma_bucket_count_bounded(t.take(i as int), first as int, b as int);
        }
        let c = r[b];
        r.set(b, c + 1);
        i += 1;
    }
    assert(t.take(messages@.len() as int) =~= t);
    r
}

/// The ten-minute timeline of a chat log; `None` when it has no messages.
pub fn calculate_chat_timeline(chat_log: &ChatLog) -> (r: Option<VideoChatTimeline>)
    requires
        stamps_in_range(chat_log.messages@),
        latest(stamps(chat_log.messages@)) - earliest(stamps(chat_log.messages@)) < usize::MAX,
    ensures
        r.is_some() == (chat_log.messages@.len() > 0),
        r.is_some() ==> {
            let t = stamps(chat_log.messages@);
            let v = r.unwrap();
            &&& v.video_id == chat_log.video_id
            &&& v.start_time@ == kst_iso_text(earliest(t))
            &&& v.timeline@ == timeline_entries(
                t,
                earliest(t),
                (latest(t) - earliest(t)) / (INTERVAL_SECONDS as int) + 1,
            )
        },
{
    let messages = &chat_log.messages;
    if messages.len() == 0 {
        return None;
    }
    let ghost t = stamps(messages@);
    let (first, last) = time_range(messages);
    proof {
        lemma_extremes(t);
        let e = choose|i: int| 0 <= i < t.len() && t[i] == earliest(t);
        let l = choose|i: int| 0 <= i < t.len() && t[i] == latest(t);
        assert(t[e] == messages@[e].timestamp);
        assert(t[l] == messages@[l].timestamp);
    }
    let nb = ((last - first) / INTERVAL_SECONDS) as usize + 1;
    assert forall|i: int|
        0 <= i < messages@.len() implies first <= #[trigger] messages@[i].timestamp
            && (messages@[i].timestamp - first) / (INTERVAL_SECONDS as int) < nb by {
        assert(t[i] == messages@[i].timestamp);
        vstd::arithmetic::div_mod::lemma_div_is_ordered(
            messages@[i].timestamp - first,
            last - first,
            INTERVAL_SECONDS as int,
        );
    }
    let counts = bucket_counts(messages, first, nb);
    let mut timeline: Vec<TimelineEntry> = Vec::new();
    let mut b: usize = 0;
    while b < nb
        invariant
            0 <= b <= nb,
            nb as int == (last - first) / (INTERVAL_SECONDS as int) + 1,
            0 <= last - first <= 16_000_000_000_000,
            counts@.len() == nb,
            forall|q: int| 0 <= q < nb ==> #[trigger] counts@[q] == bucket_count(t, first as int, q),
            timeline@ == timeline_entries(t, first as int, b as int),
        decreases nb - b,
    {
        if counts[b] > 0 {
            timeline.push(TimelineEntry { time: b as i64 * INTERVAL_SECONDS, count: counts[b] });
        }
        b += 1;
    }
    let start_time = format_kst_iso(first);
    Some(VideoChatTimeline { video_id: chat_log.video_id, start_time, timeline })
}

/// Every log's timestamps are in range, and its span fits in a `usize`.
pub open spec fn logs_in_range(logs: Seq<ChatLog>) -> bool {
    forall|i: int|
        0 <= i < logs.len() ==> stamps_in_range((#[trigger] logs[i]).messages@) && latest(
            stamps(logs[i].messages@),
        ) - earliest(stamps(logs[i].messages@)) < usize::MAX
}

/// Positions of the logs that have messages.
pub open spec fn nonempty_logs(logs: Seq<ChatLog>, upto: int) -> Seq<int>
    decreases upto,
{
    if upto <= 0 {
        Seq::empty()
    } else if logs[upto - 1].messages@.len() > 0 {
        nonempty_logs(logs, upto - 1).push(upto - 1)
    } else {
        nonempty_logs(logs, upto - 1)
    }
}

/// Ordering keys of the listed logs: video id, then position.
pub open spec fn video_keys(logs: Seq<ChatLog>, idx: Seq<int>) -> Seq<(i128, usize)> {
    idx.map_values(|i: int| (logs[i].video_id as i128, i as usize))
}

/// The timelines of all logs that have messages, ordered by video id (logs
/// with equal ids keep their order).
pub fn extract_video_chat_timelines(chat_logs: &Vec<ChatLog>) -> (r: Vec<VideoChatTimeline>)
    requires
        logs_in_range(chat_logs@),
    ensures
        exists|order: Seq<(i128, usize)>|
            #[trigger] is_arrangement(order, video_keys(chat_logs@, nonempty_logs(chat_logs@, chat_logs@.len() as int)))
                && r@.len() == order.len()
                && forall|k: int| 0 <= k < order.len() ==> {
                    let log = chat_logs@[#[trigger] seconds_of(order)[k]];
                    let t = stamps(log.messages@);
                    &&& r@[k].video_id == log.video_id
                    &&& r@[k].start_time@ == kst_iso_text(earliest(t))
                    &&& r@[k].timeline@ == timeline_entries(
                        t,
                        earliest(t),
                        (latest(t) - earliest(t)) / (INTERVAL_SECONDS as int) + 1,
                    )
                },
{
    let mut keys: Vec<(i128, usize)> = Vec::new();
    let mut i: usize = 0;
    while i < chat_logs.len()
        invariant
            0 <= i <= chat_logs@.len(),
            keys@ == video_keys(chat_logs@, nonempty_logs(chat_logs@, i as int)),
            forall|q: int|
                0 <= q < keys@.len() ==> (#[trigger] keys@[q]).1 < i && chat_logs@[keys@[q].1 as int].messages@.len() > 0,
        decreases chat_logs@.len() - i,
    {
        if chat_logs[i].messages.len() > 0 {
            keys.push((chat_logs[i].video_id as i128, i));
            assert(keys@ =~= video_keys(chat_logs@, nonempty_logs(chat_logs@, i + 1)));
        }
        i += 1;
    }
    let ghost all = keys@;
    sort_pairs(&mut keys);
    proof {
        lemma_arrangement_entries(keys@, all);
        assert forall|q: int| 0 <= q < keys@.len() implies (#[trigger] keys@[q]).1 < chat_logs@.len()
            && chat_logs@[keys@[q].1 as int].messages@.len() > 0 by {
            assert(all.contains(keys@[q]));
        }
    }
    let ghost order = keys@;
    let mut r: Vec<VideoChatTimeline> = Vec::new();
    let mut k: usize = 0;
    while k < keys.len()
        invariant
            0 <= k <= keys@.len(),
            keys@ == order,
            logs_in_range(chat_logs@),
            forall|q: int|
                0 <= q < keys@.len() ==> (#[trigger] keys@[q]).1 < chat_logs@.len()
                    && chat_logs@[keys@[q].1 as int].messages@.len() > 0,
            r@.len() == k,
            forall|q: int| 0 <= q < k ==> {
                let log = chat_logs@[#[trigger] seconds_of(order)[q]];
                let t = stamps(log.messages@);
                &&& r@[q].video_id == log.video_id
                &&& r@[q].start_time@ == kst_iso_text(earliest(t))
                &&& r@[q].timeline@ == timeline_entries(
                    t,
                    earliest(t),
                    (latest(t) - earliest(t)) / (INTERVAL_SECONDS as int) + 1,
                )
            },
        decreases keys@.len() - k,
    {
        let pos = keys[k].1;
        assert(seconds_of(order)[k as int] == pos as int);
        let log = &chat_logs[pos];
        assert(stamps_in_range(chat_logs@[pos as int].messages@));
        match calculate_chat_timeline(log) {
            Some(v) => {
                r.push(v);
            },
            None => {},
        }
        k += 1;
    }
    r
}

} // verus!
