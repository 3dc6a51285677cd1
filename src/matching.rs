//! Alignment of the events of two recordings: the global offset (see
//! `offset`), then a greedy one-to-one matching of overlapping events.
use vstd::prelude::*;
use crate::event::{EventDetectionResult, EventInterval};
use crate::resample::TIMESTAMP_LIMIT;
use crate::scoring::div_toward_zero;
use crate::order::{
    is_arrangement, lemma_arrangement_entries, lemma_arrangement_positions, lex_le, lex_sorted, seconds_of,
    sort_pairs,
};
use crate::offset::{
    estimate_offset, is_offset_of, min_int, peak_pairs, top_in_range, TOP_K, Z_LIMIT,
};
use crate::stats::{floor_div, SCALE};

verus! {

/// Largest peak-time difference, in seconds, of a matched pair.
pub const PEAK_WINDOW: i64 = 90;

/// Smallest overlap, in seconds, of a matched pair.
pub const MIN_OVERLAP: i64 = 15;

/// Events with a peak z-score below this (3.0) are not matched.
pub const Z_MIN: i128 = 3_000_000;

/// Largest magnitude of an event second (relative to its recording's first
/// message) that the matcher accepts.
pub const SEC_LIMIT: i64 = 16_000_000_000_000;

/// One matched pair of events.
#[derive(Debug, Clone, Copy)]
pub struct MatchedEvent {
    /// Index of the event in the first recording's event list.
    pub a_idx: usize,
    /// Index of the event in the second recording's event list.
    pub b_idx: usize,
    /// Overlap ratio plus 0.03 times the smaller peak z-score (fixed point).
    pub score: i128,
    /// Absolute peak time of the first event, shifted by the offset.
    pub abs_peak_a_aligned: i64,
    /// Absolute peak time of the second event.
    pub abs_peak_b: i64,
    /// Distance in seconds between the two peak times above.
    pub delta_peak_sec: i64,
}

/// Outcome of matching two recordings.
#[derive(Debug, Clone)]
pub struct MatchResult {
    /// Estimated shift (fixed point, seconds) that aligns the first recording
    /// with the second.
    pub offset_sec: i128,
    /// Matched pairs, strongest first.
    pub matches: Vec<MatchedEvent>,
}

/// Indices, ascending, of the events among the first `upto` whose peak
/// z-score is at least `Z_MIN`.
pub open spec fn strong_indices(ev: Seq<EventInterval>, upto: int) -> Seq<int>
    decreases upto,
{
    if upto <= 0 {
        Seq::empty()
    } else if ev[upto - 1].peak_z_score >= Z_MIN {
        strong_indices(ev, upto - 1).push(upto - 1)
    } else {
        strong_indices(ev, upto - 1)
    }
}

/// Indices of a sequence of `usize`.
pub open spec fn idx_seq(p: Seq<usize>) -> Seq<int> {
    p.map_values(|x: usize| x as int)
}

/// Indices of the events strong enough to be matched.
fn strong_events(ev: &Vec<EventInterval>) -> (r: Vec<usize>)
    ensures
        idx_seq(r@) == strong_indices(ev@, ev@.len() as int),
        forall|k: int| 0 <= k < r@.len() ==> #[trigger] r@[k] < ev@.len(),
{
    let mut r: Vec<usize> = Vec::new();
    let mut i: usize = 0;
    while i < ev.len()
        invariant
            0 <= i <= ev@.len(),
            idx_seq(r@) == strong_indices(ev@, i as int),
            forall|k: int| 0 <= k < r@.len() ==> #[trigger] r@[k] < i,
        decreases ev@.len() - i,
    {
        if ev[i].peak_z_score >= Z_MIN {
            r.push(i);
            assert(idx_seq(r@) =~= strong_indices(ev@, i + 1));
        }
        i += 1;
    }
    r
}

/// Ranking keys of events: negated peak z-score, then position.
pub open spec fn rank_keys(ev: Seq<EventInterval>) -> Seq<(i128, usize)> {
    Seq::new(ev.len(), |i: int| ((-ev[i].peak_z_score) as i128, i as usize))
}

/// Every event's peak z-score is non-negative and within `Z_LIMIT`.
pub open spec fn z_in_range(ev: Seq<EventInterval>) -> bool {
    forall|i: int| 0 <= i < ev.len() ==> 0 <= #[trigger] ev[i].peak_z_score <= Z_LIMIT
}

/// The `k` events with the highest peak z-scores, strongest first (earlier
/// events first on equal scores), as indices.
pub fn select_top_events(events: &Vec<EventInterval>, k: usize) -> (r: Vec<usize>)
    requires
        z_in_range(events@),
    ensures
        exists|order: Seq<(i128, usize)>|
            is_arrangement(order, rank_keys(events@)) && idx_seq(r@) == seconds_of(
                order,
            ).take(if k < events@.len() { k as int } else { events@.len() as int }),
        forall|q: int| 0 <= q < r@.len() ==> #[trigger] r@[q] < events@.len(),
        r@.len() <= k,
{
    let n = events.len();
    let mut keys: Vec<(i128, usize)> = Vec::new();
    let mut i: usize = 0;
    while i < n
        invariant
            0 <= i <= n,
            n == events@.len(),
            z_in_range(events@),
            keys@ == rank_keys(events@).subrange(0, i as int),
        decreases n - i,
    {
        keys.push((-events[i].peak_z_score, i));
        assert(keys@ =~= rank_keys(events@).subrange(0, i + 1));
        i += 1;
    }
    assert(keys@ =~= rank_keys(events@));
    let ghost all_keys = keys@;
    sort_pairs(&mut keys);
    proof {
        lemma_arrangement_positions(keys@, all_keys, n as int);
    }
    let take = if k < n {
        k
    } else {
        n
    };
    let mut r: Vec<usize> = Vec::new();
    let mut j: usize = 0;
    while j < take
        invariant
            0 <= j <= take,
            take <= n,
            keys@.len() == n,
            forall|q: int| 0 <= q < keys@.len() ==> (#[trigger] keys@[q]).1 < n,
            r@.len() == j,
            forall|q: int| 0 <= q < j ==> #[trigger] r@[q] as int == keys@[q].1 as int,
            forall|q: int| 0 <= q < r@.len() ==> #[trigger] r@[q] < n,
        decreases take - j,
    {
        r.push(keys[j].1);
        j += 1;
    }
    assert(idx_seq(r@) =~= seconds_of(keys@).take(take as int));
    r
}

/// The recording's base time and event seconds are within the matcher's
/// limits.
pub open spec fn detection_in_range(d: EventDetectionResult) -> bool {
    &&& -TIMESTAMP_LIMIT <= d.first_message_time <= TIMESTAMP_LIMIT
    &&& z_in_range(d.events@)
    &&& forall|i: int|
        0 <= i < d.events@.len() ==> {
            let e = #[trigger] d.events@[i];
            &&& -SEC_LIMIT <= e.start_sec <= SEC_LIMIT
            &&& -SEC_LIMIT <= e.end_sec <= SEC_LIMIT
            &&& -SEC_LIMIT <= e.peak_sec <= SEC_LIMIT
        }
}

/// Absolute peak time and z-score of each listed event.
pub open spec fn peak_entries(d: EventDetectionResult, idx: Seq<int>) -> Seq<(i64, i128)> {
    idx.map_values(
        |i: int| ((d.first_message_time + d.events@[i].peak_sec) as i64, d.events@[i].peak_z_score),
    )
}

/// `top` are the `TOP_K` strongest events of `d`, strongest first.
pub open spec fn is_top_of(top: Seq<int>, d: EventDetectionResult) -> bool {
    exists|order: Seq<(i128, usize)>|
        is_arrangement(order, rank_keys(d.events@)) && top == seconds_of(order).take(
            if TOP_K < d.events@.len() {
                TOP_K as int
            } else {
                d.events@.len() as int
            },
        )
}

/// Absolute peak time and z-score of the strongest events of a recording.
fn top_peaks(d: &EventDetectionResult) -> (r: Vec<(i64, i128)>)
    requires
        detection_in_range(*d),
    ensures
        exists|top: Seq<int>| is_top_of(top, *d) && r@ == peak_entries(*d, top),
        top_in_range(r@),
        r@.len() <= TOP_K,
{
    let idx = select_top_events(&d.events, TOP_K);
    let ghost top = idx_seq(idx@);
    let mut r: Vec<(i64, i128)> = Vec::new();
    let mut k: usize = 0;
    while k < idx.len()
        invariant
            0 <= k <= idx@.len(),
            detection_in_range(*d),
            top == idx_seq(idx@),
            forall|q: int| 0 <= q < idx@.len() ==> #[trigger] idx@[q] < d.events@.len(),
            r@ == peak_entries(*d, top).take(k as int),
        decreases idx@.len() - k,
    {
        let i = idx[k];
        let e = d.events[i];
        assert(d.events@[i as int] == e);
        r.push((d.first_message_time + e.peak_sec, e.peak_z_score));
        assert(r@ =~= peak_entries(*d, top).take(k + 1));
        k += 1;
    }
    assert(r@ =~= peak_entries(*d, top));
    r
}

/// Ordering keys of the listed events of `d`: absolute peak time, then index.
pub open spec fn peak_keys(d: EventDetectionResult, idx: Seq<int>) -> Seq<(i128, usize)> {
    idx.map_values(|i: int| ((d.first_message_time + d.events@[i].peak_sec) as i128, i as usize))
}

/// The listed events of `d` in order of absolute peak time (then index).
fn order_by_peak(d: &EventDetectionResult, idx: &Vec<usize>) -> (r: Vec<(i128, usize)>)
    requires
        detection_in_range(*d),
        forall|q: int| 0 <= q < idx@.len() ==> #[trigger] idx@[q] < d.events@.len(),
    ensures
        is_arrangement(r@, peak_keys(*d, idx_seq(idx@))),
        forall|q: int| 0 <= q < r@.len() ==> (#[trigger] r@[q]).1 < d.events@.len(),
        forall|q: int|
            0 <= q < r@.len() ==> (#[trigger] r@[q]).0 == d.first_message_time + d.events@[r@[q].1 as int].peak_sec,
{
    let mut keys: Vec<(i128, usize)> = Vec::new();
    let mut k: usize = 0;
    while k < idx.len()
        invariant
            0 <= k <= idx@.len(),
            detection_in_range(*d),
            forall|q: int| 0 <= q < idx@.len() ==> #[trigger] idx@[q] < d.events@.len(),
            keys@ == peak_keys(*d, idx_seq(idx@)).take(k as int),
        decreases idx@.len() - k,
    {
        let i = idx[k];
        let e = d.events[i];
        assert(d.events@[i as int] == e);
        keys.push(((d.first_message_time + e.peak_sec) as i128, i));
        assert(keys@ =~= peak_keys(*d, idx_seq(idx@)).take(k + 1));
        k += 1;
    }
    assert(keys@ =~= peak_keys(*d, idx_seq(idx@)));
    assert forall|q: int| 0 <= q < keys@.len() implies (#[trigger] keys@[q]).0 == d.first_message_time
        + d.events@[keys@[q].1 as int].peak_sec && keys@[q].1 < d.events@.len() by {
        assert(idx_seq(idx@)[q] == idx@[q] as int);
    }
    let ghost all = keys@;
    sort_pairs(&mut keys);
    proof {
        lemma_arrangement_positions(keys@, all, d.events@.len() as int);
        lemma_arrangement_keys(keys@, all, *d);
    }
    keys
}

/// A rearrangement of peak keys keeps each key's time tied to its event.
proof fn lemma_arrangement_keys(order: Seq<(i128, usize)>, keys: Seq<(i128, usize)>, d: EventDetectionResult)
    requires
        order.to_multiset() == keys.to_multiset(),
        forall|i: int| 0 <= i < keys.len() ==> (#[trigger] keys[i]).1 < d.events@.len(),
        forall|i: int|
            0 <= i < keys.len() ==> (#[trigger] keys[i]).0 == d.first_message_time + d.events@[keys[i].1 as int].peak_sec,
    ensures
        forall|i: int|
            0 <= i < order.len() ==> (#[trigger] order[i]).0 == d.first_message_time + d.events@[order[i].1 as int].peak_sec,
{
    lemma_arrangement_entries(order, keys);
    assert forall|i: int| 0 <= i < order.len() implies (#[trigger] order[i]).0 == d.first_message_time
        + d.events@[order[i].1 as int].peak_sec by {
        assert(keys.contains(order[i]));
    }
}

/// Length of the overlap of `[s1, e1]` and `[s2, e2]` (0 when disjoint).
pub open spec fn overlap_len(s1: int, e1: int, s2: int, e2: int) -> int {
    let lo = if s1 >= s2 {
        s1
    } else {
        s2
    };
    let hi = if e1 <= e2 {
        e1
    } else {
        e2
    };
    if hi - lo > 0 {
        hi - lo
    } else {
        0
    }
}

/// The candidate pair of event `ia` of `a` and event `ib` of `b`, with the
/// first recording shifted by `shift` seconds: its peaks lie within
/// `PEAK_WINDOW` (the window is closed below and open above), its intervals
/// overlap by at least `MIN_OVERLAP` seconds and by at least 0.35 of the
/// shorter one, which has a positive length. Its score is the overlap ratio
/// plus 0.03 times the smaller peak z-score.
pub open spec fn candidate_of(
    a: EventDetectionResult,
    b: EventDetectionResult,
    shift: int,
    ia: int,
    ib: int,
) -> Option<MatchedEvent> {
    let ea = a.events@[ia];
    let eb = b.events@[ib];
    let aligned = a.first_message_time + ea.peak_sec + shift;
    let b_abs = b.first_message_time + eb.peak_sec;
    let a_s = a.first_message_time + ea.start_sec + shift;
    let a_e = a.first_message_time + ea.end_sec + shift;
    let b_s = b.first_message_time + eb.start_sec;
    let b_e = b.first_message_time + eb.end_sec;
    let ov = overlap_len(a_s, a_e, b_s, b_e);
    let min_len = min_int(a_e - a_s, b_e - b_s);
    if aligned - PEAK_WINDOW <= b_abs < aligned + PEAK_WINDOW && ov >= MIN_OVERLAP && min_len > 0 && 20
        * ov >= 7 * min_len {
        Some(
            MatchedEvent {
                a_idx: ia as usize,
                b_idx: ib as usize,
                score: (ov * SCALE / min_len + 3 * min_int(
                    ea.peak_z_score as int,
                    eb.peak_z_score as int,
                ) / 100) as i128,
                abs_peak_a_aligned: aligned as i64,
                abs_peak_b: b_abs as i64,
                delta_peak_sec: (if b_abs >= aligned {
                    b_abs - aligned
                } else {
                    aligned - b_abs
                }) as i64,
            },
        )
    } else {
        None
    }
}

/// Candidates of event `ia` against the events `border`, in that order.
pub open spec fn candidate_row(
    a: EventDetectionResult,
    b: EventDetectionResult,
    shift: int,
    ia: int,
    border: Seq<int>,
) -> Seq<MatchedEvent>
    decreases border.len(),
{
    if border.len() == 0 {
        Seq::empty()
    } else {
        let prev = candidate_row(a, b, shift, ia, border.drop_last());
        match candidate_of(a, b, shift, ia, border.last()) {
            Some(c) => prev.push(c),
            None => prev,
        }
    }
}

/// Candidates of the events `alist` against the events `border`, row by row.
pub open spec fn candidate_list(
    a: EventDetectionResult,
    b: EventDetectionResult,
    shift: int,
    alist: Seq<int>,
    border: Seq<int>,
) -> Seq<MatchedEvent>
    decreases alist.len(),
{
    if alist.len() == 0 {
        Seq::empty()
    } else {
        candidate_list(a, b, shift, alist.drop_last(), border) + candidate_row(
            a,
            b,
            shift,
            alist.last(),
            border,
        )
    }
}

/// Largest magnitude of a candidate score (fixed point).
pub const SCORE_LIMIT: i128 = 0x1000_0000_0000_0000_0000_0000;

/// Largest magnitude of the whole-second shift applied to the first recording.
pub const SHIFT_LIMIT: i64 = 48_000_000_000_100;

/// The candidate pair of two events (see `candidate_of`).
fn candidate_at(a: &EventDetectionResult, b: &EventDetectionResult, shift: i64, ia: usize, ib: usize) -> (r: Option<MatchedEvent>)
    requires
        detection_in_range(*a),
        detection_in_range(*b),
        -SHIFT_LIMIT <= shift <= SHIFT_LIMIT,
        ia < a.events@.len(),
        ib < b.events@.len(),
    ensures
        r == candidate_of(*a, *b, shift as int, ia as int, ib as int),
        r.is_some() ==> -SCORE_LIMIT <= r.unwrap().score <= SCORE_LIMIT,
{
    let ea = a.events[ia];
    let eb = b.events[ib];
    assert(a.events@[ia as int] == ea);
    assert(b.events@[ib as int] == eb);
    let aligned = a.first_message_time + ea.peak_sec + shift;
    let b_abs = b.first_message_time + eb.peak_sec;
    let a_s = a.first_message_time + ea.start_sec + shift;
    let a_e = a.first_message_time + ea.end_sec + shift;
    let b_s = b.first_message_time + eb.start_sec;
    let b_e = b.first_message_time + eb.end_sec;
    let lo = if a_s >= b_s {
        a_s
    } else {
        b_s
    };
    let hi = if a_e <= b_e {
        a_e
    } else {
        b_e
    };
    let ov = if hi - lo > 0 {
        hi - lo
    } else {
        0
    };
    let len_a = a_e - a_s;
    let len_b = b_e - b_s;
    let min_len = if len_a <= len_b {
        len_a
    } else {
        len_b
    };
    if aligned - PEAK_WINDOW <= b_abs && b_abs < aligned + PEAK_WINDOW && ov >= MIN_OVERLAP && min_len
        > 0 && 20 * ov >= 7 * min_len {
        let za = ea.peak_z_score;
        let zb = eb.peak_z_score;
        let zmin = if za <= zb {
            za
        } else {
            zb
        };
        let ratio = floor_div(ov as i128 * SCALE, min_len as i128);
        let bonus = floor_div(3 * zmin, 100);
        let delta = if b_abs >= aligned {
            b_abs - aligned
        } else {
            aligned - b_abs
        };
        Some(
            MatchedEvent {
                a_idx: ia,
                b_idx: ib,
                score: ratio + bonus,
                abs_peak_a_aligned: aligned,
                abs_peak_b: b_abs,
                delta_peak_sec: delta,
            },
        )
    } else {
        None
    }
}

/// Position of the first entry whose time is at least `target`, in entries
/// ordered by time.
fn lower_bound(keys: &Vec<(i128, usize)>, target: i128) -> (r: usize)
    requires
        lex_sorted(keys@),
    ensures
        r <= keys@.len(),
        forall|q: int| 0 <= q < r ==> (#[trigger] keys@[q]).0 < target,
        forall|q: int| r <= q < keys@.len() ==> (#[trigger] keys@[q]).0 >= target,
{
    let mut lo: usize = 0;
    let mut hi: usize = keys.len();
    while lo < hi
        invariant
            0 <= lo <= hi <= keys@.len(),
            lex_sorted(keys@),
            forall|q: int| 0 <= q < lo ==> (#[trigger] keys@[q]).0 < target,
            forall|q: int| hi <= q < keys@.len() ==> (#[trigger] keys@[q]).0 >= target,
        decreases hi - lo,
    {
        let mid = lo + (hi - lo) / 2;
        if keys[mid].0 < target {
            assert forall|q: int| 0 <= q <= mid implies (#[trigger] keys@[q]).0 < target by {
                if q < mid {
                    assert(lex_le(keys@[q], keys@[mid as int]));
                }
            }
            lo = mid + 1;
        } else {
            assert forall|q: int| mid <= q < keys@.len() implies (#[trigger] keys@[q]).0 >= target by {
                if q > mid {
                    assert(lex_le(keys@[mid as int], keys@[q]));
                }
            }
            hi = mid;
        }
    }
    lo
}

/// Entries that give no candidate leave a row unchanged.
proof fn lemma_row_skips(
    a: EventDetectionResult,
    b: EventDetectionResult,
    shift: int,
    ia: int,
    bs: Seq<int>,
    from: int,
    to: int,
)
    requires
        0 <= from <= to <= bs.len(),
        forall|q: int| from <= q < to ==> (#[trigger] candidate_of(a, b, shift, ia, bs[q])).is_none(),
    ensures
        candidate_row(a, b, shift, ia, bs.take(to)) == candidate_row(a, b, shift, ia, bs.take(from)),
    decreases to - from,
{
    if from < to {
        lemma_row_skips(a, b, shift, ia, bs, from, to - 1);
        assert(bs.take(to).drop_last() =~= bs.take(to - 1));
        assert(bs.take(to).last() == bs[to - 1]);
    }
}

/// Candidates of one event of the first recording against the ordered
/// events of the second.
fn candidate_row_of(
    a: &EventDetectionResult,
    b: &EventDetectionResult,
    shift: i64,
    ia: usize,
    border: &Vec<(i128, usize)>,
    out: &mut Vec<MatchedEvent>,
)
    requires
        detection_in_range(*a),
        detection_in_range(*b),
        -SHIFT_LIMIT <= shift <= SHIFT_LIMIT,
        ia < a.events@.len(),
        forall|q: int| 0 <= q < border@.len() ==> (#[trigger] border@[q]).1 < b.events@.len(),
        lex_sorted(border@),
        forall|q: int|
            0 <= q < border@.len() ==> (#[trigger] border@[q]).0 == b.first_message_time + b.events@[border@[q].1 as int].peak_sec,
        candidates_in_range(old(out)@, a.events@.len() as int, b.events@.len() as int),
    ensures
        final(out)@ == old(out)@ + candidate_row(*a, *b, shift as int, ia as int, seconds_of(border@)),
        candidates_in_range(final(out)@, a.events@.len() as int, b.events@.len() as int),
{
    let ghost start = out@;
    let ghost bs = seconds_of(border@);
    let ea = a.events[ia];
    assert(a.events@[ia as int] == ea);
    let aligned = a.first_message_time + ea.peak_sec + shift;
    let lo = lower_bound(border, (aligned - PEAK_WINDOW) as i128);
    let hi_raw = lower_bound(border, (aligned + PEAK_WINDOW) as i128);
    let hi = if hi_raw < lo {
        lo
    } else {
        hi_raw
    };
    proof {
        assert forall|q: int| 0 <= q < lo implies (#[trigger] candidate_of(*a, *b, shift as int, ia as int, bs[q])).is_none() by {
            assert(bs[q] == border@[q].1 as int);
        }
        lemma_row_skips(*a, *b, shift as int, ia as int, bs, 0, lo as int);
        assert(bs.take(0) =~= Seq::<int>::empty());
        assert(start + candidate_row(*a, *b, shift as int, ia as int, bs.take(0)) =~= start);
    }
    let mut j: usize = lo;
    while j < hi
        invariant
            lo <= j <= hi <= border@.len(),
            detection_in_range(*a),
            detection_in_range(*b),
            -SHIFT_LIMIT <= shift <= SHIFT_LIMIT,
            ia < a.events@.len(),
            bs == seconds_of(border@),
            forall|q: int| 0 <= q < border@.len() ==> (#[trigger] border@[q]).1 < b.events@.len(),
            out@ == start + candidate_row(*a, *b, shift as int, ia as int, bs.take(j as int)),
            candidates_in_range(out@, a.events@.len() as int, b.events@.len() as int),
        decreases hi - j,
    {
        let ib = border[j].1;
        assert(bs.take(j + 1).drop_last() =~= bs.take(j as int));
        assert(bs.take(j + 1).last() == ib as int);
        let c = candidate_at(a, b, shift, ia, ib);
        match c {
            Some(m) => {
                out.push(m);
            },
            None => {},
        }
        proof {
            let row = candidate_row(*a, *b, shift as int, ia as int, bs.take(j as int));
            match c {
                Some(m) => {
                    assert(start + row.push(m) =~= (start + row).push(m));
                },
                None => {},
            }
        }
        j += 1;
    }
    proof {
        assert forall|q: int| hi <= q < bs.len() implies (#[trigger] candidate_of(*a, *b, shift as int, ia as int, bs[q])).is_none() by {
            assert(bs[q] == border@[q].1 as int);
        }
        lemma_row_skips(*a, *b, shift as int, ia as int, bs, hi as int, bs.len() as int);
    }
    assert(bs.take(border@.len() as int) =~= bs);
}

/// Every candidate score is within `SCORE_LIMIT` and every index is in range.
pub open spec fn candidates_in_range(cs: Seq<MatchedEvent>, na: int, nb: int) -> bool {
    forall|k: int|
        0 <= k < cs.len() ==> -SCORE_LIMIT <= (#[trigger] cs[k]).score <= SCORE_LIMIT && cs[k].a_idx
            < na && cs[k].b_idx < nb
}

/// All candidate pairs: each strong event of the first recording, in index
/// order, against the strong events of the second, in peak-time order.
fn collect_candidates(
    a: &EventDetectionResult,
    b: &EventDetectionResult,
    shift: i64,
    alist: &Vec<usize>,
    border: &Vec<(i128, usize)>,
) -> (r: Vec<MatchedEvent>)
    requires
        detection_in_range(*a),
        detection_in_range(*b),
        -SHIFT_LIMIT <= shift <= SHIFT_LIMIT,
        forall|q: int| 0 <= q < alist@.len() ==> #[trigger] alist@[q] < a.events@.len(),
        forall|q: int| 0 <= q < border@.len() ==> (#[trigger] border@[q]).1 < b.events@.len(),
        lex_sorted(border@),
        forall|q: int|
            0 <= q < border@.len() ==> (#[trigger] border@[q]).0 == b.first_message_time + b.events@[border@[q].1 as int].peak_sec,
    ensures
        r@ == candidate_list(*a, *b, shift as int, idx_seq(alist@), seconds_of(border@)),
        candidates_in_range(r@, a.events@.len() as int, b.events@.len() as int),
{
    let ghost al = idx_seq(alist@);
    let ghost bs = seconds_of(border@);
    let mut r: Vec<MatchedEvent> = Vec::new();
    let mut i: usize = 0;
    while i < alist.len()
        invariant
            0 <= i <= alist@.len(),
            detection_in_range(*a),
            detection_in_range(*b),
            -SHIFT_LIMIT <= shift <= SHIFT_LIMIT,
            al == idx_seq(alist@),
            bs == seconds_of(border@),
            forall|q: int| 0 <= q < alist@.len() ==> #[trigger] alist@[q] < a.events@.len(),
            forall|q: int| 0 <= q < border@.len() ==> (#[trigger] border@[q]).1 < b.events@.len(),
            lex_sorted(border@),
            forall|q: int|
                0 <= q < border@.len() ==> (#[trigger] border@[q]).0 == b.first_message_time + b.events@[border@[q].1 as int].peak_sec,
            r@ == candidate_list(*a, *b, shift as int, al.take(i as int), bs),
            candidates_in_range(r@, a.events@.len() as int, b.events@.len() as int),
        decreases alist@.len() - i,
    {
        assert(al.take(i + 1).drop_last() =~= al.take(i as int));
        assert(al.take(i + 1).last() == alist@[i as int] as int);
        candidate_row_of(a, b, shift, alist[i], border, &mut r);
        i += 1;
    }
    assert(al.take(alist@.len() as int) =~= al);
    r
}

/// Some accepted pair already uses the first or the second event of `c`.
pub open spec fn conflicts(ms: Seq<MatchedEvent>, c: MatchedEvent) -> bool {
    exists|k: int| 0 <= k < ms.len() && ((#[trigger] ms[k]).a_idx == c.a_idx || ms[k].b_idx == c.b_idx)
}

/// Greedy one-to-one selection: candidates in the given order, each kept
/// unless an earlier kept one shares one of its events.
pub open spec fn greedy(cs: Seq<MatchedEvent>) -> Seq<MatchedEvent>
    decreases cs.len(),
{
    if cs.len() == 0 {
        Seq::empty()
    } else {
        let prev = greedy(cs.drop_last());
        if conflicts(prev, cs.last()) {
            prev
        } else {
            prev.push(cs.last())
        }
    }
}

/// No event of either recording is used by two matched pairs.
pub open spec fn is_one_to_one(ms: Seq<MatchedEvent>) -> bool {
    forall|i: int, j: int|
        0 <= i < j < ms.len() ==> (#[trigger] ms[i]).a_idx != (#[trigger] ms[j]).a_idx && ms[i].b_idx
            != ms[j].b_idx
}

/// Greedy selection is one-to-one, whatever the candidates and their order.
pub proof fn lemma_greedy_one_to_one(cs: Seq<MatchedEvent>)
    ensures
        is_one_to_one(greedy(cs)),
    decreases cs.len(),
{
    if cs.len() > 0 {
        lemma_greedy_one_to_one(cs.drop_last());
        let prev = greedy(cs.drop_last());
        if !conflicts(prev, cs.last()) {
            let g = prev.push(cs.last());
            assert forall|i: int, j: int| 0 <= i < j < g.len() implies (#[trigger] g[i]).a_idx != (#[trigger] g[j]).a_idx
                && g[i].b_idx != g[j].b_idx by {
                if j == g.len() - 1 {
                    assert(g[i] == prev[i]);
                    assert(!((prev[i]).a_idx == cs.last().a_idx || prev[i].b_idx == cs.last().b_idx));
                } else {
                    assert(g[i] == prev[i] && g[j] == prev[j]);
                }
            }
        }
    }
}

/// Ranking keys of candidates: negated score, then position.
pub open spec fn score_keys(cs: Seq<MatchedEvent>) -> Seq<(i128, usize)> {
    Seq::new(cs.len(), |k: int| ((-cs[k].score) as i128, k as usize))
}

/// The candidates in the order given by `order`.
pub open spec fn ranked(cs: Seq<MatchedEvent>, order: Seq<(i128, usize)>) -> Seq<MatchedEvent> {
    order.map_values(|k: (i128, usize)| cs[k.1 as int])
}

/// Greedy one-to-one resolution of candidates taken by descending score
/// (earlier candidates first on equal scores).
fn resolve_greedy(cs: &Vec<MatchedEvent>, na: usize, nb: usize) -> (r: Vec<MatchedEvent>)
    requires
        candidates_in_range(cs@, na as int, nb as int),
    ensures
        exists|order: Seq<(i128, usize)>| is_arrangement(order, score_keys(cs@)) && r@ == greedy(ranked(cs@, order)),
        is_one_to_one(r@),
{
    let mut keys: Vec<(i128, usize)> = Vec::new();
    let mut k: usize = 0;
    while k < cs.len()
        invariant
            0 <= k <= cs@.len(),
            candidates_in_range(cs@, na as int, nb as int),
            keys@ == score_keys(cs@).take(k as int),
        decreases cs@.len() - k,
    {
        assert(-SCORE_LIMIT <= cs@[k as int].score <= SCORE_LIMIT);
        keys.push((-cs[k].score, k));
        assert(keys@ =~= score_keys(cs@).take(k + 1));
        k += 1;
    }
    assert(keys@ =~= score_keys(cs@));
    let ghost all = keys@;
    sort_pairs(&mut keys);
    proof {
        lemma_arrangement_positions(keys@, all, cs@.len() as int);
    }
    let ghost rk = ranked(cs@, keys@);
    let mut used_a: Vec<bool> = Vec::new();
    let mut q: usize = 0;
    while q < na
        invariant
            0 <= q <= na,
            used_a@.len() == q,
            forall|x: int| 0 <= x < q ==> !used_a@[x],
        decreases na - q,
    {
        used_a.push(false);
        q += 1;
    }
    let mut used_b: Vec<bool> = Vec::new();
    q = 0;
    while q < nb
        invariant
            0 <= q <= nb,
            used_b@.len() == q,
            forall|x: int| 0 <= x < q ==> !used_b@[x],
        decreases nb - q,
    {
        used_b.push(false);
        q += 1;
    }
    let mut out: Vec<MatchedEvent> = Vec::new();
    let mut i: usize = 0;
    while i < keys.len()
        invariant
            0 <= i <= keys@.len(),
            keys@.len() == cs@.len(),
            rk == ranked(cs@, keys@),
            candidates_in_range(cs@, na as int, nb as int),
            forall|x: int| 0 <= x < keys@.len() ==> (#[trigger] keys@[x]).1 < cs@.len(),
            used_a@.len() == na,
            used_b@.len() == nb,
            out@ == greedy(rk.take(i as int)),
            forall|x: int|
                0 <= x < na ==> (#[trigger] used_a@[x] <==> exists|m: int|
                    0 <= m < out@.len() && out@[m].a_idx == x),
            forall|x: int|
                0 <= x < nb ==> (#[trigger] used_b@[x] <==> exists|m: int|
                    0 <= m < out@.len() && out@[m].b_idx == x),
        decreases keys@.len() - i,
    {
        let pos = keys[i].1;
        let c = cs[pos];
        assert(rk[i as int] == c);
        assert(rk.take(i + 1).drop_last() =~= rk.take(i as int));
        assert(rk.take(i + 1).last() == c);
        assert(c.a_idx < na && c.b_idx < nb);
        let ghost prev = out@;
        if used_a[c.a_idx] || used_b[c.b_idx] {
            assert(conflicts(prev, c));
        } else {
            assert(!conflicts(prev, c));
            used_a.set(c.a_idx, true);
            used_b.set(c.b_idx, true);
            out.push(c);
            assert forall|x: int| 0 <= x < na implies (#[trigger] used_a@[x] <==> exists|m: int|
                0 <= m < out@.len() && out@[m].a_idx == x) by {
                if x == c.a_idx {
                    assert(out@[out@.len() - 1].a_idx == x);
                } else if used_a@[x] {
                    let m = choose|m: int| 0 <= m < prev.len() && prev[m].a_idx == x;
                    assert(out@[m] == prev[m]);
                } else {
                    assert forall|m: int| 0 <= m < out@.len() implies out@[m].a_idx != x by {
                        if m < prev.len() {
                            assert(out@[m] == prev[m]);
                        }
                    }
                }
            }
            assert forall|x: int| 0 <= x < nb implies (#[trigger] used_b@[x] <==> exists|m: int|
                0 <= m < out@.len() && out@[m].b_idx == x) by {
                if x == c.b_idx {
                    assert(out@[out@.len() - 1].b_idx == x);
                } else if used_b@[x] {
                    let m = choose|m: int| 0 <= m < prev.len() && prev[m].b_idx == x;
                    assert(out@[m] == prev[m]);
                } else {
                    assert forall|m: int| 0 <= m < out@.len() implies out@[m].b_idx != x by {
                        if m < prev.len() {
                            assert(out@[m] == prev[m]);
                        }
                    }
                }
            }
        }
        i += 1;
    }
    assert(rk.take(keys@.len() as int) =~= rk);
    proof {
        lemma_greedy_one_to_one(rk);
    }
    out
}

/// The steps of a matching: `ta` and `tb` are the strongest events of each
/// side, `r.offset_sec` their estimated offset, `border` the strong events of
/// `b` by peak time and `order` the candidate pairs by descending score.
pub open spec fn match_steps(
    r: MatchResult,
    a: EventDetectionResult,
    b: EventDetectionResult,
    ta: Seq<int>,
    tb: Seq<int>,
    border: Seq<(i128, usize)>,
    order: Seq<(i128, usize)>,
) -> bool {
    let sa = strong_indices(a.events@, a.events@.len() as int);
    let sb = strong_indices(b.events@, b.events@.len() as int);
    let shift = div_toward_zero(r.offset_sec as int, SCALE as int);
    let cs = candidate_list(a, b, shift, sa, seconds_of(border));
    &&& is_top_of(ta, a)
    &&& is_top_of(tb, b)
    &&& is_offset_of(r.offset_sec as int, peak_pairs(peak_entries(a, ta), peak_entries(b, tb)))
    &&& is_arrangement(border, peak_keys(b, sb))
    &&& is_arrangement(order, score_keys(cs))
    &&& r.matches@ == greedy(ranked(cs, order))
}

/// `r` is the matching of recordings `a` and `b`: without a strong event
/// (peak z-score at least `Z_MIN`) on either side, no offset and no pairs;
/// otherwise the offset estimated from the `TOP_K` strongest events of each
/// side, and the greedy one-to-one selection, by descending score, of the
/// candidate pairs of strong events once the first recording is shifted by
/// the whole seconds of that offset.
pub open spec fn is_match_of(r: MatchResult, a: EventDetectionResult, b: EventDetectionResult) -> bool {
    let sa = strong_indices(a.events@, a.events@.len() as int);
    let sb = strong_indices(b.events@, b.events@.len() as int);
    if sa.len() == 0 || sb.len() == 0 {
        r.offset_sec == 0 && r.matches@.len() == 0
    } else {
        exists|ta: Seq<int>, tb: Seq<int>, border: Seq<(i128, usize)>, order: Seq<(i128, usize)>|
            #[trigger] match_steps(r, a, b, ta, tb, border, order)
    }
}

/// Matches the events of two recordings by time alone. Each event of either
/// recording appears in at most one matched pair.
pub fn match_events_time_only(a: &EventDetectionResult, b: &EventDetectionResult) -> (r: MatchResult)
    requires
        detection_in_range(*a),
        detection_in_range(*b),
    ensures
        is_match_of(r, *a, *b),
        is_one_to_one(r.matches@),
{
    let sa = strong_events(&a.events);
    let sb = strong_events(&b.events);
    if sa.len() == 0 || sb.len() == 0 {
        return MatchResult { offset_sec: 0, matches: Vec::new() };
    }
    let a_top = top_peaks(a);
    let b_top = top_peaks(b);
    let offset = estimate_offset(&a_top, &b_top);
    let shift: i64 = if offset >= 0 {
        (offset / SCALE) as i64
    } else {
        -((-offset / SCALE) as i64)
    };
    let border = order_by_peak(b, &sb);
    let cands = collect_candidates(a, b, shift, &sa, &border);
    let matches = resolve_greedy(&cands, a.events.len(), b.events.len());
    let r = MatchResult { offset_sec: offset, matches };
    proof {
        let ta = choose|top: Seq<int>| is_top_of(top, *a) && a_top@ == peak_entries(*a, top);
        let tb = choose|top: Seq<int>| is_top_of(top, *b) && b_top@ == peak_entries(*b, top);
        let cs = cands@;
        let order = choose|order: Seq<(i128, usize)>|
            is_arrangement(order, score_keys(cs)) && r.matches@ == greedy(ranked(cs, order));
        assert(shift as int == div_toward_zero(offset as int, SCALE as int));
        assert(match_steps(r, *a, *b, ta, tb, border@, order));
    }
    r
}

} // verus!
