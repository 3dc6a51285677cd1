use chzzk_chat::event::{detect_event_intervals, Z_END, Z_TH};
use chzzk_chat::peaks::{expand_intervals, merge_nearby_peaks, pick_peaks_from_runs, MergedPeak, Peak};
use chzzk_chat::resample::resample_to_seconds;
use chzzk_chat::scoring::robust_z_scores;
use chzzk_chat::models::{ChatLog, ChatMessage};
use chzzk_chat::stats::SCALE;

const BASE: i64 = 1_761_296_595;

fn msg(ts: i64) -> ChatMessage {
    ChatMessage {
        timestamp: ts,
        nickname: String::from("viewer"),
        message: String::from("hello"),
        user_id: String::from("f2959e925442442d133ed215d603786d"),
    }
}

/// One message per second for `len` seconds, plus `extra` more messages in
/// each second of each burst `(start, duration)`.
fn log_with_bursts(base: i64, len: i64, bursts: &[(i64, i64)], extra: usize) -> ChatLog {
    let mut messages = Vec::new();
    for t in 0..len {
        let in_burst = bursts.iter().any(|&(s, d)| t >= s && t < s + d);
        let n = if in_burst { extra } else { 1 };
        for _ in 0..n {
            messages.push(msg(base + t));
        }
    }
    ChatLog { video_id: 1, messages }
}

#[test]
fn resample_counts_add_up() {
    let messages = vec![msg(BASE + 3), msg(BASE), msg(BASE + 3), msg(BASE + 1), msg(BASE + 3)];
    let rate = resample_to_seconds(&messages, BASE, 3);
    assert_eq!(rate, vec![1, 1, 0, 3]);
    assert_eq!(rate.iter().sum::<usize>(), messages.len());
}

#[test]
fn empty_log_gives_no_result() {
    let log = ChatLog { video_id: 9, messages: Vec::new() };
    assert!(detect_event_intervals(&log).is_none());
}

#[test]
fn single_message_log() {
    let log = ChatLog { video_id: 9, messages: vec![msg(BASE)] };
    let r = detect_event_intervals(&log).unwrap();
    assert_eq!(r.first_message_time, BASE);
    assert!(r.events.is_empty());
    assert_eq!(r.timeline, vec![(0, 1, 0)]);
}

#[test]
fn unsorted_messages_anchor_on_earliest() {
    let log = ChatLog { video_id: 9, messages: vec![msg(BASE + 5), msg(BASE + 2), msg(BASE + 9)] };
    let r = detect_event_intervals(&log).unwrap();
    assert_eq!(r.first_message_time, BASE + 2);
    assert_eq!(r.timeline.len(), 8);
    assert_eq!(r.timeline[0].1, 1);
    assert_eq!(r.timeline[3].1, 1);
    assert_eq!(r.timeline[7].1, 1);
}

#[test]
fn evenly_spread_messages_give_no_event() {
    let mut messages = Vec::new();
    for t in (0..3000).step_by(2) {
        messages.push(msg(BASE + t));
    }
    let r = detect_event_intervals(&ChatLog { video_id: 2, messages }).unwrap();
    assert!(r.events.is_empty());
    let steady = log_with_bursts(BASE, 2000, &[], 1);
    let r = detect_event_intervals(&steady).unwrap();
    assert!(r.events.is_empty());
}

#[test]
fn single_second_burst_is_one_event() {
    let log = log_with_bursts(BASE, 1400, &[(700, 1)], 50);
    let r = detect_event_intervals(&log).unwrap();
    assert_eq!(r.events.len(), 1);
    let e = r.events[0];
    assert_eq!(e.peak_sec, 700);
    assert_eq!(e.peak_count, 50);
    assert!(e.start_sec <= e.peak_sec && e.peak_sec <= e.end_sec);
    assert_eq!(e.start_sec, 700);
    assert_eq!(e.end_sec, 706);
}

#[test]
fn spikes_five_seconds_apart_merge() {
    let log = log_with_bursts(BASE, 1400, &[(700, 1), (705, 1)], 50);
    let r = detect_event_intervals(&log).unwrap();
    assert_eq!(r.events.len(), 1);
    let e = r.events[0];
    assert_eq!(e.start_sec, 700);
    assert_eq!(e.peak_sec, 705);
    assert!(e.end_sec >= 705);
}

#[test]
fn spikes_thirty_seconds_apart_stay_apart() {
    let log = log_with_bursts(BASE, 1400, &[(700, 1), (730, 1)], 50);
    let r = detect_event_intervals(&log).unwrap();
    assert_eq!(r.events.len(), 2);
    assert_eq!(r.events[0].peak_sec, 700);
    assert_eq!(r.events[1].peak_sec, 730);
    for e in &r.events {
        assert!(e.start_sec <= e.peak_sec && e.peak_sec <= e.end_sec);
    }
}

#[test]
fn z_scores_of_flat_series_are_zero() {
    let z = robust_z_scores(&vec![3 * SCALE; 700]);
    assert!(z.iter().all(|&x| x == 0));
}

#[test]
fn z_score_of_jump_against_flat_window() {
    let mut smooth = vec![SCALE; 100];
    smooth.push(11 * SCALE);
    let z = robust_z_scores(&smooth);
    // (11 - 1) / (1 + 1e-6), rounded toward zero in units of 1e-6
    assert_eq!(z[100], 9_999_990);
}

#[test]
fn peaks_one_per_run_with_rate_tie_break() {
    let th = Z_TH;
    let z = vec![0, 9 * SCALE, 12 * SCALE, 12 * SCALE, 0, 10 * SCALE, 0];
    let rate = vec![0, 1, 2, 5, 0, 1, 0];
    assert_eq!(pick_peaks_from_runs(&z, &rate, th), vec![3, 5]);
    let rate_equal = vec![0, 1, 5, 5, 0, 1, 0];
    assert_eq!(pick_peaks_from_runs(&z, &rate_equal, th), vec![2, 5]);
}

#[test]
fn peaks_run_at_series_end() {
    let z = vec![9 * SCALE, 0, 9 * SCALE, 20 * SCALE];
    assert_eq!(pick_peaks_from_runs(&z, &vec![1, 1, 1, 1], Z_TH), vec![0, 3]);
}

fn peak(t: i64, z: i128, c: usize) -> Peak {
    Peak { index: t as usize, time_sec: t, z_score: z, count: c }
}

#[test]
fn merge_keeps_earlier_peak_on_equal_z() {
    let g = merge_nearby_peaks(vec![peak(10, 9 * SCALE, 4), peak(15, 9 * SCALE, 7)], 12);
    assert_eq!(g.len(), 1);
    assert_eq!((g[0].start_sec, g[0].end_sec, g[0].peak_sec, g[0].peak_count), (10, 15, 10, 4));
}

#[test]
fn merge_chains_from_running_end() {
    let g = merge_nearby_peaks(
        vec![peak(0, 9 * SCALE, 1), peak(10, 10 * SCALE, 2), peak(20, 8 * SCALE, 3), peak(40, 9 * SCALE, 4)],
        12,
    );
    assert_eq!(g.len(), 2);
    assert_eq!((g[0].start_sec, g[0].end_sec, g[0].peak_sec, g[0].peak_count), (0, 20, 10, 2));
    assert_eq!((g[1].start_sec, g[1].end_sec, g[1].peak_sec), (40, 40, 40));
}

#[test]
fn merge_of_nothing_is_nothing() {
    assert!(merge_nearby_peaks(Vec::new(), 12).is_empty());
}

#[test]
fn expansion_stops_at_first_dip() {
    let z = vec![3 * SCALE, 0, 3 * SCALE, 5 * SCALE, 9 * SCALE, 4 * SCALE, 3 * SCALE, 1, 3 * SCALE];
    let seed = MergedPeak { start_sec: 4, end_sec: 4, peak_sec: 4, peak_z: 9 * SCALE, peak_count: 7 };
    let ev = expand_intervals(vec![seed], &z, Z_END);
    assert_eq!(ev.len(), 1);
    assert_eq!((ev[0].start_sec, ev[0].end_sec, ev[0].peak_sec), (2, 6, 4));
    assert!(ev[0].start_sec <= seed.start_sec && ev[0].end_sec >= seed.end_sec);
}

#[test]
fn expansion_of_low_seed_keeps_bounds() {
    let z = vec![5 * SCALE, 1, 5 * SCALE];
    let seed = MergedPeak { start_sec: 1, end_sec: 1, peak_sec: 1, peak_z: 1, peak_count: 1 };
    let ev = expand_intervals(vec![seed], &z, Z_END);
    assert_eq!((ev[0].start_sec, ev[0].end_sec), (1, 1));
}
