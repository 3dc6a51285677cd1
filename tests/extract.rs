use chzzk_chat::event::{EventDetectionResult, EventInterval};
use chzzk_chat::peaks::find_local_maxima;
use chzzk_chat::extract::collect_event_chats;
use chzzk_chat::models::{ChatLog, ChatMessage};

const BASE: i64 = 1_761_296_595;

fn msg(offset: i64, text: &str) -> ChatMessage {
    ChatMessage {
        timestamp: BASE + offset,
        nickname: String::from("n"),
        message: String::from(text),
        user_id: String::from("u"),
    }
}

fn ev(start: i64, end: i64) -> EventInterval {
    EventInterval { start_sec: start, end_sec: end, peak_sec: start, peak_z_score: 9_000_000, peak_count: 3 }
}

#[test]
fn event_chats_in_time_order_without_repeated_intervals() {
    let log = ChatLog {
        video_id: 5,
        messages: vec![msg(3, "c"), msg(0, "a"), msg(11, "x"), msg(3, "d"), msg(1, "b"), msg(20, "late")],
    };
    let result = EventDetectionResult {
        first_message_time: BASE,
        events: vec![ev(0, 5), ev(0, 5), ev(10, 12)],
        timeline: Vec::new(),
    };
    let chats = collect_event_chats(&log, &result);
    assert_eq!(chats.len(), 2);
    assert_eq!((chats[0].event.start_sec, chats[0].event.end_sec), (0, 5));
    assert_eq!(chats[0].messages, vec!["a", "b", "c", "d"]);
    assert_eq!((chats[1].event.start_sec, chats[1].event.end_sec), (10, 12));
    assert_eq!(chats[1].messages, vec!["x"]);
}

#[test]
fn event_without_messages_has_empty_list() {
    let log = ChatLog { video_id: 5, messages: vec![msg(0, "a")] };
    let result = EventDetectionResult { first_message_time: BASE, events: vec![ev(50, 60)], timeline: Vec::new() };
    let chats = collect_event_chats(&log, &result);
    assert_eq!(chats.len(), 1);
    assert!(chats[0].messages.is_empty());
}

#[test]
fn local_maxima_above_threshold() {
    let z = vec![0, 9, 3, 10, 10, 2, 12, 1];
    assert_eq!(find_local_maxima(&z, 5), vec![1, 6]);
    assert!(find_local_maxima(&vec![9, 1], 0).is_empty());
}
