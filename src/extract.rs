//! The chat messages of each detected event.
use vstd::prelude::*;
use crate::event::{EventDetectionResult, EventInterval};
use crate::order::{is_arrangement, lemma_arrangement_entries, sort_pairs};
use crate::models::{ChatLog, ChatMessage};

verus! {

/// An event with the texts of the messages sent during it.
#[derive(Debug, Clone)]
pub struct EventChats {
    pub event: EventInterval,
    pub messages: Vec<String>,
}

/// No earlier event has the same start and end as event `k`.
pub open spec fn first_of_interval(events: Seq<EventInterval>, k: int) -> bool {
    forall|j: int|
        0 <= j < k ==> !(#[trigger] events[j].start_sec == events[k].start_sec && events[j].end_sec
            == events[k].end_sec)
}

/// Positions, in order, of the events among the first `upto` whose interval
/// has not occurred before.
pub open spec fn distinct_intervals(events: Seq<EventInterval>, upto: int) -> Seq<int>
    decreases upto,
{
    if upto <= 0 {
        Seq::empty()
    } else if first_of_interval(events, upto - 1) {
        distinct_intervals(events, upto - 1).push(upto - 1)
    } else {
        distinct_intervals(events, upto - 1)
    }
}

/// Keys (timestamp, position) of the first `upto` messages sent between
/// `lo` and `hi` inclusive.
pub open spec fn window_keys(msgs: Seq<ChatMessage>, lo: int, hi: int, upto: int) -> Seq<(i128, usize)>
    decreases upto,
{
    if upto <= 0 {
        Seq::empty()
    } else if lo <= msgs[upto - 1].timestamp <= hi {
        window_keys(msgs, lo, hi, upto - 1).push((msgs[upto - 1].timestamp as i128, (upto - 1) as usize))
    } else {
        window_keys(msgs, lo, hi, upto - 1)
    }
}

/// Texts of the messages at the positions of `order`.
pub open spec fn texts(msgs: Seq<ChatMessage>, order: Seq<(i128, usize)>) -> Seq<String> {
    order.map_values(|k: (i128, usize)| msgs[k.1 as int].message)
}

/// `c` holds event `e` and the texts of the messages sent from its start to
/// its end (seconds after `first`), in time order, earlier-listed first on
/// equal times.
pub open spec fn is_event_chats_of(c: EventChats, msgs: Seq<ChatMessage>, first: int, e: EventInterval) -> bool {
    &&& c.event == e
    &&& exists|order: Seq<(i128, usize)>|
        is_arrangement(order, window_keys(msgs, first + e.start_sec, first + e.end_sec, msgs.len() as int))
            && c.messages@ == texts(msgs, order)
}

/// The interval of `e` is among `seen`.
pub open spec fn interval_seen(seen: Seq<(i64, i64)>, e: EventInterval) -> bool {
    exists|q: int| 0 <= q < seen.len() && #[trigger] seen[q] == (e.start_sec, e.end_sec)
}

/// The messages of one event.
fn event_messages(msgs: &Vec<ChatMessage>, first: i64, e: EventInterval) -> (r: Vec<String>)
    ensures
        exists|order: Seq<(i128, usize)>|
            is_arrangement(order, window_keys(msgs@, first + e.start_sec, first + e.end_sec, msgs@.len() as int))
                && r@ == texts(msgs@, order),
{
    let lo = first as i128 + e.start_sec as i128;
    let hi = first as i128 + e.end_sec as i128;
    let ghost glo = first + e.start_sec;
    let ghost ghi = first + e.end_sec;
    let mut keys: Vec<(i128, usize)> = Vec::new();
    let mut i: usize = 0;
    while i < msgs.len()
        invariant
            0 <= i <= msgs@.len(),
            lo == glo,
            hi == ghi,
            keys@ == window_keys(msgs@, glo, ghi, i as int),
            forall|q: int| 0 <= q < keys@.len() ==> (#[trigger] keys@[q]).1 < i,
        decreases msgs@.len() - i,
    {
        let ts = msgs[i].timestamp as i128;
        if lo <= ts && ts <= hi {
            keys.push((ts, i));
        }
        assert(keys@ =~= window_keys(msgs@, glo, ghi, i + 1));
        i += 1;
    }
    let ghost all = keys@;
    sort_pairs(&mut keys);
    proof {
        lemma_arrangement_entries(keys@, all);
        assert forall|q: int| 0 <= q < keys@.len() implies (#[trigger] keys@[q]).1 < msgs@.len() by {
            assert(all.contains(keys@[q]));
        }
    }
    let mut out: Vec<String> = Vec::new();
    let mut k: usize = 0;
    while k < keys.len()
        invariant
            0 <= k <= keys@.len(),
            forall|q: int| 0 <= q < keys@.len() ==> (#[trigger] keys@[q]).1 < msgs@.len(),
            out@.len() == k,
            forall|q: int| 0 <= q < k ==> #[trigger] out@[q] == msgs@[keys@[q].1 as int].message,
        decreases keys@.len() - k,
    {
        let text = msgs[keys[k].1].message.clone();
        out.push(text);
        k += 1;
    }
    assert(out@ =~= texts(msgs@, keys@));
    out
}

/// The messages sent during each detected event, skipping events whose
/// interval repeats an earlier one.
pub fn collect_event_chats(chat_log: &ChatLog, result: &EventDetectionResult) -> (r: Vec<EventChats>)
    ensures
        r@.len() == distinct_intervals(result.events@, result.events@.len() as int).len(),
        forall|q: int|
            0 <= q < r@.len() ==> is_event_chats_of(
                #[trigger] r@[q],
                chat_log.messages@,
                result.first_message_time as int,
                result.events@[distinct_intervals(result.events@, result.events@.len() as int)[q]],
            ),
{
    let events = &result.events;
    let ghost evs = events@;
    let mut out: Vec<EventChats> = Vec::new();
    let mut seen: Vec<(i64, i64)> = Vec::new();
    let mut k: usize = 0;
    while k < events.len()
        invariant
            0 <= k <= evs.len(),
            evs == events@,
            evs == result.events@,
            out@.len() == distinct_intervals(evs, k as int).len(),
            seen@.len() == out@.len(),
            forall|q: int| 0 <= q < distinct_intervals(evs, k as int).len() ==> 0 <= #[trigger] distinct_intervals(evs, k as int)[q] < k,
            forall|q: int|
                0 <= q < seen@.len() ==> #[trigger] seen@[q] == (evs[distinct_intervals(evs, k as int)[q]].start_sec,
                    evs[distinct_intervals(evs, k as int)[q]].end_sec),
            forall|j: int| 0 <= j < k ==> interval_seen(seen@, #[trigger] evs[j]),
            forall|q: int|
                0 <= q < out@.len() ==> is_event_chats_of(
                    #[trigger] out@[q],
                    chat_log.messages@,
                    result.first_message_time as int,
                    evs[distinct_intervals(evs, k as int)[q]],
                ),
        decreases evs.len() - k,
    {
        let e = events[k];
        let ghost old_seen = seen@;
        let mut found = false;
        let mut s: usize = 0;
        while s < seen.len()
            invariant
                0 <= s <= seen@.len(),
                found == interval_seen(seen@.take(s as int), e),
            decreases seen@.len() - s,
        {
            proof {
                if interval_seen(seen@.take(s as int), e) {
                    let q = choose|q: int| 0 <= q < s && #[trigger] seen@.take(s as int)[q] == (e.start_sec, e.end_sec);
                    assert(seen@.take(s + 1)[q] == seen@.take(s as int)[q]);
                }
                if interval_seen(seen@.take(s + 1), e) {
                    let q = choose|q: int| 0 <= q < s + 1 && #[trigger] seen@.take(s + 1)[q] == (e.start_sec, e.end_sec);
                    if q < s {
                        assert(seen@.take(s + 1)[q] == seen@.take(s as int)[q]);
                    }
                }
                if seen@[s as int] == (e.start_sec, e.end_sec) {
                    assert(seen@.take(s + 1)[s as int] == seen@[s as int]);
                }
            }
            if seen[s].0 == e.start_sec && seen[s].1 == e.end_sec {
                found = true;
            }
            s += 1;
        }
        assert(seen@.take(seen@.len() as int) =~= seen@);
        proof {
            if found {
                let q = choose|q: int| 0 <= q < seen@.len() && #[trigger] seen@[q] == (e.start_sec, e.end_sec);
                assert(0 <= distinct_intervals(evs, k as int)[q] < k);
                let j = distinct_intervals(evs, k as int)[q];
                assert(evs[j].start_sec == evs[k as int].start_sec && evs[j].end_sec == evs[k as int].end_sec);
                assert(!first_of_interval(evs, k as int));
            } else {
                assert forall|j: int| 0 <= j < k implies !(#[trigger] evs[j].start_sec == evs[k as int].start_sec
                    && evs[j].end_sec == evs[k as int].end_sec) by {
                    assert(interval_seen(seen@, evs[j]));
                    let q = choose|q: int| 0 <= q < seen@.len() && #[trigger] seen@[q] == (evs[j].start_sec, evs[j].end_sec);
                    if evs[j].start_sec == evs[k as int].start_sec && evs[j].end_sec == evs[k as int].end_sec {
                        assert(interval_seen(seen@, e));
                    }
                }
            }
        }
        if !found {
            let msgs = event_messages(&chat_log.messages, result.first_message_time, e);
            let ghost before = out@;
            out.push(EventChats { event: e, messages: msgs });
            seen.push((e.start_sec, e.end_sec));
            proof {
                assert forall|q: int| 0 <= q < out@.len() implies is_event_chats_of(
                    #[trigger] out@[q],
                    chat_log.messages@,
                    result.first_message_time as int,
                    evs[distinct_intervals(evs, k + 1)[q]],
                ) by {
                    if q < before.len() {
                        assert(out@[q] == before[q]);
                    }
                }
            }
        }
        proof {
            assert forall|j: int| 0 <= j < k + 1 implies interval_seen(seen@, #[trigger] evs[j]) by {
                if j == k && !found {
                    assert(seen@[seen@.len() - 1] == (evs[j].start_sec, evs[j].end_sec));
                } else if !found {
                    assert(interval_seen(old_seen, evs[j]));
                    let q = choose|q: int| 0 <= q < old_seen.len() && #[trigger] old_seen[q] == (evs[j].start_sec, evs[j].end_sec);
                    assert(seen@[q] == old_seen[q]);
                } else if j < k {
                    assert(interval_seen(old_seen, evs[j]));
                }
            }
        }
        k += 1;
    }
    out
}

} // verus!
