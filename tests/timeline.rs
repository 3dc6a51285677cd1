use chzzk_chat::models::{ChatLog, ChatMessage};
use chzzk_chat::timeline::{calculate_chat_timeline, extract_video_chat_timelines};

/// 2025-10-24 18:03:15 +09:00
const BASE: i64 = 1_761_296_595;

fn msg(ts: i64) -> ChatMessage {
    ChatMessage {
        timestamp: ts,
        nickname: String::from("1연지"),
        message: String::from("머타타"),
        user_id: String::from("f2959e925442442d133ed215d603786d"),
    }
}

fn log(video_id: u64, offsets: &[i64]) -> ChatLog {
    ChatLog { video_id, messages: offsets.iter().map(|&o| msg(BASE + o)).collect() }
}

#[test]
fn timeline_counts_ten_minute_buckets() {
    let v = calculate_chat_timeline(&log(42, &[1300, 0, 599, 600, 1800, 5])).unwrap();
    assert_eq!(v.video_id, 42);
    assert_eq!(v.start_time, "2025-10-24T18:03:15+0900");
    let got: Vec<(i64, usize)> = v.timeline.iter().map(|e| (e.time, e.count)).collect();
    assert_eq!(got, vec![(0, 3), (600, 1), (1200, 1), (1800, 1)]);
}

#[test]
fn timeline_skips_empty_buckets() {
    let v = calculate_chat_timeline(&log(1, &[0, 3000])).unwrap();
    let got: Vec<(i64, usize)> = v.timeline.iter().map(|e| (e.time, e.count)).collect();
    assert_eq!(got, vec![(0, 1), (3000, 1)]);
}

#[test]
fn timeline_of_empty_log_is_none() {
    assert!(calculate_chat_timeline(&log(1, &[])).is_none());
}

#[test]
fn timelines_sorted_by_video_id() {
    let logs = vec![log(30, &[0]), log(10, &[0, 1]), log(20, &[]), log(10, &[700])];
    let out = extract_video_chat_timelines(&logs);
    let ids: Vec<u64> = out.iter().map(|v| v.video_id).collect();
    assert_eq!(ids, vec![10, 10, 30]);
    assert_eq!(out[0].timeline[0].count, 2);
    assert_eq!(out[1].timeline[0].count, 1);
}
