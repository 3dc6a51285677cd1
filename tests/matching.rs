use chzzk_chat::event::{detect_event_intervals, EventDetectionResult, EventInterval};
use chzzk_chat::matching::{match_events_time_only, select_top_events, MatchedEvent};
use chzzk_chat::offset::{estimate_offset, TOP_K};
use chzzk_chat::models::{ChatLog, ChatMessage};
use chzzk_chat::stats::{floor_div, SCALE};

const BASE: i64 = 1_761_296_595;

fn msg(ts: i64) -> ChatMessage {
    ChatMessage {
        timestamp: ts,
        nickname: String::from("viewer"),
        message: String::from("hello"),
        user_id: String::from("u1"),
    }
}

fn log_with_bursts(base: i64, len: i64, bursts: &[(i64, i64)], extra: usize) -> ChatLog {
    let mut messages = Vec::new();
    for t in 0..len {
        let in_burst = bursts.iter().any(|&(s, d)| t >= s && t < s + d);
        let n = if in_burst { extra } else { 1 };
        for _ in 0..n {
            messages.push(msg(base + t));
        }
    }
    ChatLog { video_id: 1, messages }
}

fn ev(start: i64, end: i64, peak: i64, z: i128) -> EventInterval {
    EventInterval { start_sec: start, end_sec: end, peak_sec: peak, peak_z_score: z, peak_count: 10 }
}

fn detection(base: i64, events: Vec<EventInterval>) -> EventDetectionResult {
    EventDetectionResult { first_message_time: base, events, timeline: Vec::new() }
}

fn assert_one_to_one(ms: &[MatchedEvent]) {
    for i in 0..ms.len() {
        for j in (i + 1)..ms.len() {
            assert_ne!(ms[i].a_idx, ms[j].a_idx);
            assert_ne!(ms[i].b_idx, ms[j].b_idx);
        }
    }
}

#[test]
fn floor_division_rounds_down() {
    assert_eq!(floor_div(7, 2), 3);
    assert_eq!(floor_div(-7, 2), -4);
    assert_eq!(floor_div(-6, 2), -3);
    assert_eq!(floor_div(0, 5), 0);
}

#[test]
fn top_events_are_strongest_first() {
    let events = vec![ev(0, 1, 0, 5), ev(0, 1, 0, 9), ev(0, 1, 0, 7), ev(0, 1, 0, 9)];
    assert_eq!(select_top_events(&events, 3), vec![1, 3, 2]);
    assert_eq!(select_top_events(&events, 10), vec![1, 3, 2, 0]);
    assert!(select_top_events(&events, 0).is_empty());
}

#[test]
fn offset_of_single_pair_is_its_difference() {
    let a = vec![(100, 5 * SCALE)];
    let b = vec![(400, 4 * SCALE)];
    assert_eq!(estimate_offset(&a, &b), 300 * SCALE);
}

#[test]
fn offset_is_weighted_mean_near_best_bin() {
    // pairs: 300 (w 4), 304 (w 4) -> bin 300 holds both, mean 302
    let a = vec![(100, 4 * SCALE), (96, 6 * SCALE)];
    let b = vec![(400, 4 * SCALE)];
    assert_eq!(estimate_offset(&a, &b), 302 * SCALE);
}

#[test]
fn offset_bins_round_down_for_negative_differences() {
    // difference -5 falls in bin -10; the mean of the nearby differences is -5
    let a = vec![(105, SCALE)];
    let b = vec![(100, SCALE)];
    assert_eq!(estimate_offset(&a, &b), -5 * SCALE);
}

#[test]
fn offset_tie_between_bins_takes_lowest_bin() {
    let a = vec![(0, SCALE)];
    let b = vec![(5, SCALE), (25, SCALE)];
    assert_eq!(estimate_offset(&a, &b), 5 * SCALE);
}

#[test]
fn top_events_are_capped() {
    let events: Vec<EventInterval> = (1..=45).map(|z| ev(0, 1, 0, z * SCALE)).collect();
    let top = select_top_events(&events, TOP_K);
    assert_eq!(top.len(), 40);
    assert_eq!(top[0], 44);
    assert_eq!(top[39], 5);
}

#[test]
fn offset_of_no_pairs_is_zero() {
    assert_eq!(estimate_offset(&Vec::new(), &vec![(1, SCALE)]), 0);
}

#[test]
fn no_strong_events_means_no_match() {
    let a = detection(BASE, vec![ev(0, 30, 10, 2 * SCALE)]);
    let b = detection(BASE, vec![ev(0, 30, 10, 9 * SCALE)]);
    let r = match_events_time_only(&a, &b);
    assert_eq!(r.offset_sec, 0);
    assert!(r.matches.is_empty());
    let r = match_events_time_only(&b, &a);
    assert_eq!(r.offset_sec, 0);
    assert!(r.matches.is_empty());
}

#[test]
fn matching_pairs_shifted_events() {
    let a = detection(BASE, vec![ev(100, 140, 110, 9 * SCALE), ev(500, 530, 505, 12 * SCALE)]);
    let b = detection(BASE + 300, vec![ev(100, 140, 110, 9 * SCALE), ev(500, 530, 505, 12 * SCALE)]);
    let r = match_events_time_only(&a, &b);
    assert_eq!(r.offset_sec, 300 * SCALE);
    assert_eq!(r.matches.len(), 2);
    assert_one_to_one(&r.matches);
    // the stronger pair scores higher and comes first
    assert_eq!((r.matches[0].a_idx, r.matches[0].b_idx), (1, 1));
    assert_eq!((r.matches[1].a_idx, r.matches[1].b_idx), (0, 0));
    assert_eq!(r.matches[0].delta_peak_sec, 0);
    assert_eq!(r.matches[0].abs_peak_b, BASE + 300 + 505);
    assert_eq!(r.matches[0].abs_peak_a_aligned, BASE + 505 + 300);
    // ratio 1.0 plus 0.03 * 12.0
    assert_eq!(r.matches[0].score, SCALE + 360_000);
}

#[test]
fn matching_is_one_to_one_under_contention() {
    // two events of A compete for the one event of B
    let a = detection(BASE, vec![ev(100, 140, 110, 9 * SCALE), ev(102, 142, 112, 8 * SCALE)]);
    let b = detection(BASE, vec![ev(100, 140, 110, 10 * SCALE)]);
    let r = match_events_time_only(&a, &b);
    assert_eq!(r.matches.len(), 1);
    assert_eq!(r.matches[0].a_idx, 0);
    assert_one_to_one(&r.matches);
}

#[test]
fn short_overlap_is_rejected() {
    let a = detection(BASE, vec![ev(100, 110, 105, 9 * SCALE)]);
    let b = detection(BASE, vec![ev(100, 110, 105, 9 * SCALE)]);
    let r = match_events_time_only(&a, &b);
    assert_eq!(r.offset_sec, 0);
    assert!(r.matches.is_empty());
}

#[test]
fn recovers_offset_between_recordings() {
    let bursts = [(700, 20), (1500, 20), (2300, 20)];
    let a_log = log_with_bursts(BASE, 3000, &bursts, 50);
    let b_log = log_with_bursts(BASE + 300, 3000, &bursts, 50);
    let a = detect_event_intervals(&a_log).unwrap();
    let b = detect_event_intervals(&b_log).unwrap();
    assert_eq!(a.events.len(), 3);
    assert_eq!(b.events.len(), 3);
    let r = match_events_time_only(&a, &b);
    assert!((r.offset_sec - 300 * SCALE).abs() <= 10 * SCALE);
    assert_eq!(r.matches.len(), 3);
    assert_one_to_one(&r.matches);
    for m in &r.matches {
        assert_eq!(m.a_idx, m.b_idx);
        assert!(m.delta_peak_sec.abs() <= 1);
    }
}
