//! Peaks of a z-score series: one per run above a threshold, merged when
//! close together, then grown into intervals.
use vstd::prelude::*;
use crate::event::EventInterval;
use crate::stats::{counts, ints};

verus! {

/// Second `i` scores strictly better than second `j`: a larger z-score, or
/// an equal z-score with more messages.
pub open spec fn beats(z: Seq<int>, rate: Seq<int>, i: int, j: int) -> bool {
    z[i] > z[j] || (z[i] == z[j] && rate[i] > rate[j])
}

/// Every second from `a` to `b` (inclusive) is above the threshold.
pub open spec fn above_on(z: Seq<int>, th: int, a: int, b: int) -> bool {
    forall|k: int| a <= k <= b ==> #[trigger] z[k] > th
}

/// Seconds `a` and `b` lie in one run of above-threshold seconds.
pub open spec fn same_run(z: Seq<int>, th: int, a: int, b: int) -> bool {
    if a <= b {
        above_on(z, th, a, b)
    } else {
        above_on(z, th, b, a)
    }
}

/// Some second after `a` and no later than `b` is at or below the threshold.
pub open spec fn run_ended(z: Seq<int>, th: int, a: int, b: int) -> bool {
    exists|m: int| a < m <= b && #[trigger] z[m] <= th
}

/// Indices of a sequence of `usize`.
pub open spec fn indices(p: Seq<usize>) -> Seq<int> {
    p.map_values(|x: usize| x as int)
}

/// `p` holds, in increasing order, one second per maximal run of seconds
/// whose z-score exceeds `th`: the first second of the run with the best
/// score (see `beats`).
#[verifier::opaque]
pub open spec fn is_run_peaks(z: Seq<int>, rate: Seq<int>, th: int, p: Seq<int>) -> bool {
    &&& forall|k: int| 0 <= k < p.len() ==> 0 <= #[trigger] p[k] < z.len() && z[p[k]] > th
    &&& forall|k: int|
        0 <= k < p.len() - 1 ==> #[trigger] p[k] < p[k + 1] && !above_on(z, th, p[k], p[k + 1])
    &&& forall|j: int|
        0 <= j < z.len() && #[trigger] z[j] > th ==> exists|k: int|
            0 <= k < p.len() && same_run(z, th, j, p[k])
    &&& forall|k: int, j: int|
        0 <= k < p.len() && 0 <= j < p[k] && #[trigger] above_on(z, th, j, p[k]) ==> beats(
            z,
            rate,
            p[k],
            j,
        )
    &&& forall|k: int, j: int|
        0 <= k < p.len() && p[k] < j < z.len() && #[trigger] above_on(z, th, p[k], j) ==> !beats(
            z,
            rate,
            j,
            p[k],
        )
}

/// Picks one peak per maximal run of seconds with a z-score above `z_th`:
/// the best-scoring second of the run, the earliest on a tie.
#[verifier::rlimit(60)]
pub fn pick_peaks_from_runs(z: &Vec<i128>, rate: &Vec<usize>, z_th: i128) -> (peaks: Vec<usize>)
    requires
        rate@.len() == z@.len(),
    ensures
        is_run_peaks(ints(z@), counts(rate@), z_th as int, indices(peaks@)),
{
    let ghost zs = ints(z@);
    let ghost rs = counts(rate@);
    let ghost th = z_th as int;
    let n = z.len();
    let mut peaks: Vec<usize> = Vec::new();
    let mut i: usize = 0;
    while i < n
        invariant
            n == z@.len(),
            rate@.len() == n,
            zs == ints(z@),
            rs == counts(rate@),
            th == z_th as int,
            i <= n,
            forall|k: int|
                0 <= k < peaks@.len() ==> #[trigger] peaks@[k] < i && zs[peaks@[k] as int] > th,
            forall|k: int|
                0 <= k < peaks@.len() - 1 ==> #[trigger] peaks@[k] < peaks@[k + 1] && !above_on(
                    zs,
                    th,
                    peaks@[k] as int,
                    peaks@[k + 1] as int,
                ),
            forall|k: int|
                0 <= k < peaks@.len() && i < n ==> run_ended(zs, th, #[trigger] peaks@[k] as int, i as int),
            i > 0 && i < n && zs[i - 1] > th ==> zs[i as int] <= th,
            forall|j: int|
                0 <= j < i && #[trigger] zs[j] > th ==> exists|k: int|
                    0 <= k < peaks@.len() && same_run(zs, th, j, peaks@[k] as int),
            forall|k: int, j: int|
                0 <= k < peaks@.len() && 0 <= j < peaks@[k] && #[trigger] above_on(
                    zs,
                    th,
                    j,
                    peaks@[k] as int,
                ) ==> beats(zs, rs, peaks@[k] as int, j),
            forall|k: int, j: int|
                0 <= k < peaks@.len() && peaks@[k] < j < i && #[trigger] above_on(
                    zs,
                    th,
                    peaks@[k] as int,
                    j,
                ) ==> !beats(zs, rs, j, peaks@[k] as int),
        decreases n - i,
    {
        assert(zs[i as int] == z@[i as int]);
        if z[i] <= z_th {
            i += 1;
        } else {
            let start = i;
            let mut best = i;
            i += 1;
            while i < n && z[i] > z_th
                invariant
                    n == z@.len(),
                    rate@.len() == n,
                    zs == ints(z@),
                    rs == counts(rate@),
                    th == z_th as int,
                    start <= best < i <= n,
                    above_on(zs, th, start as int, i - 1),
                    start == 0 || zs[start - 1] <= th,
                    forall|j: int| start <= j < best ==> beats(zs, rs, best as int, j),
                    forall|j: int| best < j < i ==> !beats(zs, rs, j, best as int),
                decreases n - i,
            {
                assert(zs[i as int] == z@[i as int]);
                assert(zs[best as int] == z@[best as int]);
                assert(rs[i as int] == rate@[i as int]);
                assert(rs[best as int] == rate@[best as int]);
                if z[i] > z[best] || (z[i] == z[best] && rate[i] > rate[best]) {
                    let ghost old_best = best as int;
                    best = i;
                    assert forall|j: int| start <= j < best implies beats(zs, rs, best as int, j) by {
                        if j < old_best {
                            assert(beats(zs, rs, old_best, j));
                        } else if j > old_best {
                            assert(!beats(zs, rs, j, old_best));
                        }
                    }
                }
                i += 1;
            }
            proof {
                if i < n {
                    assert(zs[i as int] == z@[i as int]);
                }
            }
            let ghost old_peaks = peaks@;
            peaks.push(best);
            proof {
                let last = peaks@.len() - 1;
                assert(peaks@[last] == best);
                assert forall|k: int| 0 <= k < old_peaks.len() implies #[trigger] peaks@[k] == old_peaks[k] by {}
                assert forall|j: int| 0 <= j < i && #[trigger] zs[j] > th implies exists|k: int|
                    0 <= k < peaks@.len() && same_run(zs, th, j, peaks@[k] as int) by {
                    if j >= start {
                        assert(same_run(zs, th, j, peaks@[last] as int));
                    } else {
                        let k = choose|k: int| 0 <= k < old_peaks.len() && same_run(zs, th, j, old_peaks[k] as int);
                        assert(peaks@[k] == old_peaks[k]);
                    }
                }
            }
        }
    }
    proof {
        reveal(is_run_peaks);
        let p = indices(peaks@);
        assert forall|k: int| 0 <= k < p.len() implies #[trigger] p[k] == peaks@[k] as int by {}
        assert forall|j: int| 0 <= j < zs.len() && #[trigger] zs[j] > th implies exists|k: int|
            0 <= k < p.len() && same_run(zs, th, j, p[k]) by {
            let k = choose|k: int| 0 <= k < peaks@.len() && same_run(zs, th, j, peaks@[k] as int);
            assert(p[k] == peaks@[k] as int);
        }
    }
    peaks
}

/// Second `i` is a strict local maximum above `th`: above the threshold and
/// above both neighbours.
pub open spec fn is_local_max(z: Seq<int>, th: int, i: int) -> bool {
    1 <= i < z.len() - 1 && z[i] > th && z[i] > z[i - 1] && z[i] > z[i + 1]
}

/// The strict local maxima above `th` among the first `upto` seconds, in
/// increasing order.
pub open spec fn local_maxima(z: Seq<int>, th: int, upto: int) -> Seq<int>
    decreases upto,
{
    if upto <= 0 {
        Seq::empty()
    } else if is_local_max(z, th, upto - 1) {
        local_maxima(z, th, upto - 1).push(upto - 1)
    } else {
        local_maxima(z, th, upto - 1)
    }
}

/// The seconds whose z-score exceeds `threshold` and both neighbours' scores.
pub fn find_local_maxima(z_scores: &Vec<i128>, threshold: i128) -> (r: Vec<usize>)
    ensures
        indices(r@) == local_maxima(ints(z_scores@), threshold as int, z_scores@.len() as int),
{
    let ghost zs = ints(z_scores@);
    let n = z_scores.len();
    let mut r: Vec<usize> = Vec::new();
    let mut i: usize = 0;
    while i < n
        invariant
            0 <= i <= n,
            n == z_scores@.len(),
            zs == ints(z_scores@),
            indices(r@) == local_maxima(zs, threshold as int, i as int),
        decreases n - i,
    {
        if i >= 1 && i + 1 < n {
            assert(zs[i as int] == z_scores@[i as int]);
            assert(zs[i - 1] == z_scores@[i - 1]);
            assert(zs[i + 1] == z_scores@[i + 1]);
            if z_scores[i] > threshold && z_scores[i] > z_scores[i - 1] && z_scores[i] > z_scores[i + 1] {
                r.push(i);
            }
        }
        assert(indices(r@) =~= local_maxima(zs, threshold as int, i + 1));
        i += 1;
    }
    r
}

/// A picked peak: its second, z-score and message count.
#[derive(Debug, Clone, Copy)]
pub struct Peak {
    pub index: usize,
    pub time_sec: i64,
    pub z_score: i128,
    pub count: usize,
}

/// A group of nearby peaks: its first and last peak seconds and its
/// representative (strongest) peak.
#[derive(Debug, Clone, Copy)]
pub struct MergedPeak {
    pub start_sec: i64,
    pub end_sec: i64,
    pub peak_sec: i64,
    pub peak_z: i128,
    pub peak_count: usize,
}

/// A group made of one peak.
pub open spec fn group_of(p: Peak) -> MergedPeak {
    MergedPeak {
        start_sec: p.time_sec,
        end_sec: p.time_sec,
        peak_sec: p.time_sec,
        peak_z: p.z_score,
        peak_count: p.count,
    }
}

/// A group extended to peak `p`; `p` becomes the representative only with a
/// strictly larger z-score.
pub open spec fn absorb(g: MergedPeak, p: Peak) -> MergedPeak {
    if p.z_score > g.peak_z {
        MergedPeak {
            start_sec: g.start_sec,
            end_sec: p.time_sec,
            peak_sec: p.time_sec,
            peak_z: p.z_score,
            peak_count: p.count,
        }
    } else {
        MergedPeak {
            start_sec: g.start_sec,
            end_sec: p.time_sec,
            peak_sec: g.peak_sec,
            peak_z: g.peak_z,
            peak_count: g.peak_count,
        }
    }
}

/// Groups of `peaks`, taken in order: a peak at most `gap` seconds after the
/// end of the last group joins it, any other peak opens a new group.
pub open spec fn merged(peaks: Seq<Peak>, gap: int) -> Seq<MergedPeak>
    decreases peaks.len(),
{
    if peaks.len() == 0 {
        Seq::empty()
    } else {
        let prev = merged(peaks.drop_last(), gap);
        let p = peaks.last();
        if prev.len() > 0 && p.time_sec - prev.last().end_sec <= gap {
            prev.update(prev.len() - 1, absorb(prev.last(), p))
        } else {
            prev.push(group_of(p))
        }
    }
}

/// Merges peaks that follow each other within `gap_threshold_sec` seconds,
/// measured from the end of the group built so far.
pub fn merge_nearby_peaks(peaks: Vec<Peak>, gap_threshold_sec: i64) -> (r: Vec<MergedPeak>)
    ensures
        r@ == merged(peaks@, gap_threshold_sec as int),
{
    let mut out: Vec<MergedPeak> = Vec::new();
    let mut i: usize = 0;
    while i < peaks.len()
        invariant
            0 <= i <= peaks@.len(),
            out@ == merged(peaks@.subrange(0, i as int), gap_threshold_sec as int),
        decreases peaks@.len() - i,
    {
        let p = peaks[i];
        assert(peaks@.subrange(0, i + 1).drop_last() =~= peaks@.subrange(0, i as int));
        assert(peaks@.subrange(0, i + 1).last() == p);
        let n = out.len();
        if n > 0 && (p.time_sec as i128) - (out[n - 1].end_sec as i128) <= gap_threshold_sec as i128 {
            let last = out[n - 1];
            let g = if p.z_score > last.peak_z {
                MergedPeak {
                    start_sec: last.start_sec,
                    end_sec: p.time_sec,
                    peak_sec: p.time_sec,
                    peak_z: p.z_score,
                    peak_count: p.count,
                }
            } else {
                MergedPeak {
                    start_sec: last.start_sec,
                    end_sec: p.time_sec,
                    peak_sec: last.peak_sec,
                    peak_z: last.peak_z,
                    peak_count: last.peak_count,
                }
            };
            out.set(n - 1, g);
        } else {
            out.push(
                MergedPeak {
                    start_sec: p.time_sec,
                    end_sec: p.time_sec,
                    peak_sec: p.time_sec,
                    peak_z: p.z_score,
                    peak_count: p.count,
                },
            );
        }
        i += 1;
    }
    assert(peaks@.subrange(0, peaks@.len() as int) =~= peaks@);
    out
}

/// Peak seconds never decrease along `peaks`.
pub open spec fn times_nondecreasing(peaks: Seq<Peak>) -> bool {
    forall|a: int, b: int| 0 <= a <= b < peaks.len() ==> peaks[a].time_sec <= peaks[b].time_sec
}

/// With peaks in time order, every group starts no later than its
/// representative, which comes no later than the group's end; and no group
/// ends after the last peak.
pub proof fn lemma_merged_contains_peak(peaks: Seq<Peak>, gap: int)
    requires
        times_nondecreasing(peaks),
    ensures
        forall|k: int| 0 <= k < merged(peaks, gap).len() ==> {
            let g = #[trigger] merged(peaks, gap)[k];
            peaks[0].time_sec <= g.start_sec <= g.peak_sec <= g.end_sec && g.end_sec <= peaks.last().time_sec
        },
    decreases peaks.len(),
{
    if peaks.len() > 0 {
        let init = peaks.drop_last();
        assert(times_nondecreasing(init));
        lemma_merged_contains_peak(init, gap);
        let prev = merged(init, gap);
        let p = peaks.last();
        if init.len() > 0 {
            assert(init.last().time_sec <= p.time_sec);
            assert(init[0] == peaks[0]);
        } else {
            assert(prev.len() == 0);
        }
        if prev.len() > 0 && p.time_sec - prev.last().end_sec <= gap {
            let m = prev.update(prev.len() - 1, absorb(prev.last(), p));
            assert(merged(peaks, gap) == m);
            assert(prev[prev.len() - 1] == prev.last());
            assert forall|k: int| 0 <= k < m.len() implies {
                let g = #[trigger] m[k];
                peaks[0].time_sec <= g.start_sec <= g.peak_sec <= g.end_sec && g.end_sec <= peaks.last().time_sec
            } by {
                if k < m.len() - 1 {
                    assert(m[k] == prev[k]);
                }
            }
        } else {
            let m = prev.push(group_of(p));
            assert(merged(peaks, gap) == m);
            assert forall|k: int| 0 <= k < m.len() implies {
                let g = #[trigger] m[k];
                peaks[0].time_sec <= g.start_sec <= g.peak_sec <= g.end_sec && g.end_sec <= peaks.last().time_sec
            } by {
                if k < m.len() - 1 {
                    assert(m[k] == prev[k]);
                }
            }
        }
    }
}

/// The expanded start of a group starting at second `s`: if `s` is above
/// the threshold, the first second of its run of above-threshold seconds;
/// otherwise `s` itself.
pub open spec fn is_expanded_start(z: Seq<int>, th: int, s: int, r: int) -> bool {
    &&& 0 <= r <= s
    &&& r < s ==> above_on(z, th, r, s)
    &&& z[s] > th ==> (r == 0 || z[r - 1] <= th)
}

/// The expanded end of a group ending at second `e`: if `e` is above the
/// threshold, the last second of its run of above-threshold seconds;
/// otherwise `e` itself.
pub open spec fn is_expanded_end(z: Seq<int>, th: int, e: int, r: int) -> bool {
    &&& e <= r < z.len()
    &&& r > e ==> above_on(z, th, e, r)
    &&& z[e] > th ==> (r == z.len() - 1 || z[r + 1] <= th)
}

/// `events` are `groups` with bounds grown over neighbouring seconds whose
/// z-score exceeds `th`, and the groups' peak data.
pub open spec fn is_expansion_of(events: Seq<EventInterval>, groups: Seq<MergedPeak>, z: Seq<int>, th: int) -> bool {
    &&& events.len() == groups.len()
    &&& forall|k: int| 0 <= k < events.len() ==> {
        let e = #[trigger] events[k];
        let g = groups[k];
        &&& is_expanded_start(z, th, g.start_sec as int, e.start_sec as int)
        &&& is_expanded_end(z, th, g.end_sec as int, e.end_sec as int)
        &&& e.peak_sec == g.peak_sec
        &&& e.peak_z_score == g.peak_z
        &&& e.peak_count == g.peak_count
    }
}

/// Every group lies within the seconds `0 .. n`.
pub open spec fn groups_within(groups: Seq<MergedPeak>, n: int) -> bool {
    forall|k: int| 0 <= k < groups.len() ==> 0 <= #[trigger] groups[k].start_sec <= groups[k].end_sec < n
}

/// Grows each group over the neighbouring seconds whose z-score exceeds
/// `z_end`, stopping at the first second that does not.
/// Bounds never shrink: the start only moves earlier, the end only later.
pub fn expand_intervals(merged_peaks: Vec<MergedPeak>, z_scores: &Vec<i128>, z_end: i128) -> (events: Vec<EventInterval>)
    requires
        groups_within(merged_peaks@, z_scores@.len() as int),
        z_scores@.len() <= i64::MAX,
    ensures
        is_expansion_of(events@, merged_peaks@, ints(z_scores@), z_end as int),
        forall|k: int| 0 <= k < events@.len() ==>
            #[trigger] events@[k].start_sec <= merged_peaks@[k].start_sec
            && merged_peaks@[k].end_sec <= events@[k].end_sec,
{
    let ghost zs = ints(z_scores@);
    let n = z_scores.len();
    let mut events: Vec<EventInterval> = Vec::new();
    let mut k: usize = 0;
    while k < merged_peaks.len()
        invariant
            0 <= k <= merged_peaks@.len(),
            n == z_scores@.len(),
            n <= i64::MAX,
            zs == ints(z_scores@),
            groups_within(merged_peaks@, n as int),
            is_expansion_of(events@, merged_peaks@.subrange(0, k as int), zs, z_end as int),
        decreases merged_peaks@.len() - k,
    {
        let g = merged_peaks[k];
        assert(0 <= g.start_sec <= g.end_sec < n);
        let s = g.start_sec as usize;
        let e = g.end_sec as usize;
        let mut lo = s;
        if z_scores[s] > z_end {
            while lo > 0 && z_scores[lo - 1] > z_end
                invariant
                    lo <= s < n,
                    n == z_scores@.len(),
                    zs == ints(z_scores@),
                    zs[s as int] > z_end,
                    above_on(zs, z_end as int, lo as int, s as int),
                decreases lo,
            {
                assert(zs[lo - 1] == z_scores@[lo - 1]);
                lo -= 1;
            }
            assert(lo == 0 || zs[lo - 1] == z_scores@[lo - 1]);
        }
        assert(zs[s as int] == z_scores@[s as int]);
        let mut hi = e;
        if z_scores[e] > z_end {
            while hi + 1 < n && z_scores[hi + 1] > z_end
                invariant
                    e <= hi < n,
                    n == z_scores@.len(),
                    zs == ints(z_scores@),
                    zs[e as int] > z_end,
                    above_on(zs, z_end as int, e as int, hi as int),
                decreases n - hi,
            {
                assert(zs[hi + 1] == z_scores@[hi + 1]);
                hi += 1;
            }
            assert(hi + 1 == n || zs[hi + 1] == z_scores@[hi + 1]);
        }
        assert(zs[e as int] == z_scores@[e as int]);
        assert(is_expanded_start(zs, z_end as int, g.start_sec as int, lo as int));
        assert(is_expanded_end(zs, z_end as int, g.end_sec as int, hi as int));
        let ghost before = events@;
        events.push(
            EventInterval {
                start_sec: lo as i64,
                end_sec: hi as i64,
                peak_sec: g.peak_sec,
                peak_z_score: g.peak_z,
                peak_count: g.peak_count,
            },
        );
        assert forall|j: int| 0 <= j < k implies #[trigger] events@[j] == before[j] by {}
        assert(merged_peaks@.subrange(0, k + 1)[k as int] == g);
        assert forall|j: int| 0 <= j < k implies #[trigger] merged_peaks@.subrange(0, k + 1)[j] == merged_peaks@.subrange(0, k as int)[j] by {}
        assert(is_expansion_of(events@, merged_peaks@.subrange(0, k + 1), zs, z_end as int)) by {
            assert forall|j: int| 0 <= j < events@.len() implies {
                let ev = #[trigger] events@[j];
                let gr = merged_peaks@.subrange(0, k + 1)[j];
                &&& is_expanded_start(zs, z_end as int, gr.start_sec as int, ev.start_sec as int)
                &&& is_expanded_end(zs, z_end as int, gr.end_sec as int, ev.end_sec as int)
                &&& ev.peak_sec == gr.peak_sec
                &&& ev.peak_z_score == gr.peak_z
                &&& ev.peak_count == gr.peak_count
            } by {
                if j < k {
                    assert(events@[j] == before[j]);
                    assert(merged_peaks@.subrange(0, k as int)[j] == merged_peaks@.subrange(0, k + 1)[j]);
                }
            }
        }
        k += 1;
    }
    assert(merged_peaks@.subrange(0, merged_peaks@.len() as int) =~= merged_peaks@);
    events
}

/// The first two facts of `is_run_peaks`: peaks are in range, above the
/// threshold and strictly increasing.
pub(crate) proof fn lemma_run_peaks_ordered(z: Seq<int>, rate: Seq<int>, th: int, p: Seq<int>)
    requires
        is_run_peaks(z, rate, th, p),
    ensures
        forall|k: int| 0 <= k < p.len() ==> 0 <= #[trigger] p[k] < z.len(),
        forall|k: int| 0 <= k < p.len() - 1 ==> #[trigger] p[k] < p[k + 1],
{
    reveal(is_run_peaks);
}

/// Peaks picked from runs come in strictly increasing order.
pub(crate) proof fn lemma_run_peaks_increasing(p: Seq<int>, a: int, b: int)
    requires
        forall|k: int| 0 <= k < p.len() - 1 ==> #[trigger] p[k] < p[k + 1],
        0 <= a <= b < p.len(),
    ensures
        p[a] <= p[b],
        a < b ==> p[a] < p[b],
    decreases b - a,
{
    if a < b {
        lemma_run_peaks_increasing(p, a, b - 1);
        assert(p[b - 1] < p[b]);
    }
}

} // verus!
