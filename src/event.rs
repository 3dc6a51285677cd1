//! Burst detection on one chat log: per-second resampling, exponential
//! smoothing, robust z-scores, peak picking, peak merging and interval
//! expansion.
use vstd::prelude::*;
use crate::models::{ChatLog, ChatMessage};
use crate::peaks::{
    expand_intervals, groups_within, indices, is_expansion_of, is_run_peaks, lemma_merged_contains_peak,
    lemma_run_peaks_increasing, lemma_run_peaks_ordered, merge_nearby_peaks, merged, pick_peaks_from_runs,
    times_nondecreasing, Peak,
};
use crate::resample::{
    count_in_second, earliest, latest, lemma_extremes, resample_to_seconds, stamps, stamps_in_range, sum,
    time_range,
};
use crate::scoring::{robust_z_scores, z_series};
use crate::stats::{counts, ewma, ewma_at, ints};

verus! {

/// Smoothing weight of the newest count (0.2).
pub const SMOOTH_ALPHA: i128 = 200_000;

/// Peak threshold on the z-score (8.0).
pub const Z_TH: i128 = 8_000_000;

/// Expansion threshold on the z-score (2.5).
pub const Z_END: i128 = 2_500_000;

/// Peaks at most this many seconds after the end of a group join it.
pub const GAP_THRESHOLD_SEC: i64 = 12;

/// A detected event: seconds relative to the first message, and the
/// z-score (fixed point) and message count of its peak second.
#[derive(Debug, Clone, Copy)]
pub struct EventInterval {
    pub start_sec: i64,
    pub end_sec: i64,
    pub peak_sec: i64,
    pub peak_z_score: i128,
    pub peak_count: usize,
}

/// Outcome of burst detection on one chat log.
#[derive(Debug, Clone)]
pub struct EventDetectionResult {
    /// Timestamp of the earliest message; every second below counts from it.
    pub first_message_time: i64,
    /// Detected events, in time order.
    pub events: Vec<EventInterval>,
    /// For every second: the second, its message count and its z-score.
    pub timeline: Vec<(i64, usize, i128)>,
}

/// The message counts of a timeline.
pub open spec fn timeline_counts(timeline: Seq<(i64, usize, i128)>) -> Seq<int> {
    timeline.map_values(|e: (i64, usize, i128)| e.1 as int)
}

/// Per-second message counts from the earliest to the latest timestamp.
pub open spec fn rate_series(t: Seq<int>) -> Seq<int> {
    Seq::new((latest(t) - earliest(t) + 1) as nat, |k: int| count_in_second(t, earliest(t), k))
}

/// The smoothed rate.
pub open spec fn smooth_series(rate: Seq<int>) -> Seq<int> {
    Seq::new(rate.len(), |i: int| ewma_at(rate, SMOOTH_ALPHA as int, i))
}

/// The peak records of the seconds `p`.
pub open spec fn peak_records(p: Seq<int>, z: Seq<int>, rate: Seq<int>) -> Seq<Peak> {
    p.map_values(|i: int| Peak { index: i as usize, time_sec: i as i64, z_score: z[i] as i128, count: rate[i] as usize })
}

/// `r` is the detection on messages `m`: the per-second rates are smoothed
/// and scored, one peak is taken per run of scores above `Z_TH`, peaks within
/// `GAP_THRESHOLD_SEC` of a group's end are merged, and each group is grown
/// over neighbouring seconds scoring above `Z_END`.
pub open spec fn is_detection_of(r: EventDetectionResult, m: Seq<ChatMessage>) -> bool {
    let t = stamps(m);
    let rate = rate_series(t);
    let z = z_series(smooth_series(rate));
    &&& r.first_message_time == earliest(t)
    &&& exists|p: Seq<int>|
        is_run_peaks(z, rate, Z_TH as int, p) && is_expansion_of(
            r.events@,
            merged(peak_records(p, z, rate), GAP_THRESHOLD_SEC as int),
            z,
            Z_END as int,
        )
    &&& r.timeline@.len() == rate.len()
    &&& forall|k: int|
        0 <= k < rate.len() ==> #[trigger] r.timeline@[k] == (k as i64, rate[k] as usize, z[k] as i128)
}

/// Detects bursts of chat activity in a chat log; `None` when it has no
/// messages. Every event contains its peak second, and the per-second
/// counts of the timeline add up to the number of messages.
pub fn detect_event_intervals(chat_log: &ChatLog) -> (r: Option<EventDetectionResult>)
    requires
        stamps_in_range(chat_log.messages@),
        latest(stamps(chat_log.messages@)) - earliest(stamps(chat_log.messages@)) < usize::MAX,
    ensures
        r.is_some() == (chat_log.messages@.len() > 0),
        r.is_some() ==> is_detection_of(r.unwrap(), chat_log.messages@),
        r.is_some() ==> forall|k: int| 0 <= k < r.unwrap().events@.len() ==> {
            let e = #[trigger] r.unwrap().events@[k];
            e.start_sec <= e.peak_sec <= e.end_sec
        },
        r.is_some() ==> sum(timeline_counts(r.unwrap().timeline@)) == chat_log.messages@.len(),
{
    let messages = &chat_log.messages;
    if messages.len() == 0 {
        return None;
    }
    let ghost t = stamps(messages@);
    let (first, last) = time_range(messages);
    proof {
        lemma_extremes(t);
        let e = choose|i: int| 0 <= i < t.len() && t[i] == earliest(t);
        let l = choose|i: int| 0 <= i < t.len() && t[i] == latest(t);
        assert(t[e] == messages@[e].timestamp);
        assert(t[l] == messages@[l].timestamp);
    }
    let span = (last - first) as usize;
    assert forall|j: int|
        0 <= j < messages@.len() implies first <= #[trigger] messages@[j].timestamp
            && messages@[j].timestamp - first <= span by {
        assert(t[j] == messages@[j].timestamp);
    }
    let rate = resample_to_seconds(messages, first, span);
    let ghost rs = counts(rate@);
    assert(rs =~= rate_series(t));
    let smooth = ewma(&rate, SMOOTH_ALPHA);
    assert(ints(smooth@) =~= smooth_series(rs));
    let z = robust_z_scores(&smooth);
    let ghost zs = ints(z@);
    assert(zs.len() == z@.len());
    assert(z_series(ints(smooth@)).len() == smooth@.len());
    assert(ints(smooth@).len() == smooth@.len());
    let picked = pick_peaks_from_runs(&z, &rate, Z_TH);
    let ghost p = indices(picked@);
    let n = z.len();
    proof {
        lemma_run_peaks_ordered(zs, rs, Z_TH as int, p);
        assert forall|k: int| 0 <= k < picked@.len() implies #[trigger] picked@[k] < z@.len() by {
            assert(p[k] == picked@[k]);
        }
        assert forall|k: int| 0 <= k < picked@.len() - 1 implies #[trigger] picked@[k] < picked@[k + 1] by {
            assert(p[k] == picked@[k]);
            assert(p[k + 1] == picked@[k + 1]);
        }
    }
    let peaks = collect_peaks(&picked, &z, &rate);
    let ghost recs = peak_records(p, zs, rs);
    proof {
        lemma_merged_contains_peak(recs, GAP_THRESHOLD_SEC as int);
    }
    let groups = merge_nearby_peaks(peaks, GAP_THRESHOLD_SEC);
    assert(groups_within(groups@, n as int)) by {
        if recs.len() > 0 {
            assert(0 <= recs[0].time_sec);
            assert(recs.last().time_sec < n);
        }
    }
    let events = expand_intervals(groups, &z, Z_END);
    let timeline = timeline_of(&z, &rate);
    assert(timeline_counts(timeline@) =~= rs);
    let result = EventDetectionResult { first_message_time: first, events, timeline };
    Some(result)
}

/// The peak records of the picked seconds.
fn collect_peaks(picked: &Vec<usize>, z: &Vec<i128>, rate: &Vec<usize>) -> (peaks: Vec<Peak>)
    requires
        rate@.len() == z@.len(),
        z@.len() <= i64::MAX,
        forall|k: int| 0 <= k < picked@.len() ==> #[trigger] picked@[k] < z@.len(),
        forall|k: int| 0 <= k < picked@.len() - 1 ==> #[trigger] picked@[k] < picked@[k + 1],
    ensures
        peaks@ == peak_records(indices(picked@), ints(z@), counts(rate@)),
        times_nondecreasing(peaks@),
{
    let ghost p = indices(picked@);
    let ghost zs = ints(z@);
    let ghost rs = counts(rate@);
    let mut peaks: Vec<Peak> = Vec::new();
    let mut k: usize = 0;
    while k < picked.len()
        invariant
            0 <= k <= picked@.len(),
            rate@.len() == z@.len(),
            z@.len() <= i64::MAX,
            zs == ints(z@),
            rs == counts(rate@),
            p == indices(picked@),
            forall|q: int| 0 <= q < picked@.len() ==> #[trigger] picked@[q] < z@.len(),
            peaks@ == peak_records(p, zs, rs).subrange(0, k as int),
        decreases picked@.len() - k,
    {
        let idx = picked[k];
        assert(p[k as int] == idx);
        assert(zs[idx as int] == z@[idx as int]);
        assert(rs[idx as int] == rate@[idx as int]);
        let rec = Peak { index: idx, time_sec: idx as i64, z_score: z[idx], count: rate[idx] };
        peaks.push(rec);
        assert(peaks@ =~= peak_records(p, zs, rs).subrange(0, k + 1));
        k += 1;
    }
    assert(peaks@ =~= peak_records(p, zs, rs));
    assert forall|a: int, b: int| 0 <= a <= b < peaks@.len() implies peaks@[a].time_sec <= peaks@[b].time_sec by {
        assert forall|q: int| 0 <= q < p.len() - 1 implies #[trigger] p[q] < p[q + 1] by {
            assert(picked@[q] < picked@[q + 1]);
        }
        lemma_run_peaks_increasing(p, a, b);
    }
    peaks
}

/// The diagnostic timeline: each second with its count and z-score.
fn timeline_of(z: &Vec<i128>, rate: &Vec<usize>) -> (timeline: Vec<(i64, usize, i128)>)
    requires
        rate@.len() == z@.len(),
        z@.len() <= i64::MAX,
    ensures
        timeline@.len() == z@.len(),
        forall|q: int|
            0 <= q < z@.len() ==> #[trigger] timeline@[q] == (q as i64, counts(rate@)[q] as usize, ints(z@)[q] as i128),
{
    let n = z.len();
    let mut timeline: Vec<(i64, usize, i128)> = Vec::new();
    let mut j: usize = 0;
    while j < n
        invariant
            0 <= j <= n,
            n == z@.len(),
            n == rate@.len(),
            n <= i64::MAX,
            timeline@.len() == j,
            forall|q: int|
                0 <= q < j ==> #[trigger] timeline@[q] == (q as i64, counts(rate@)[q] as usize, ints(z@)[q] as i128),
        decreases n - j,
    {
        timeline.push((j as i64, rate[j], z[j]));
        j += 1;
    }
    timeline
}

} // verus!
