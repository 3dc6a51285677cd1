use chzzk_chat::chatlog::{extract_video_id_from_filename, parse_chat_line};

#[test]
fn loader_test_extract_video_id_from_filename() {
    assert_eq!(extract_video_id_from_filename("chatLog-9902485.log"), Some(9902485));
    assert_eq!(extract_video_id_from_filename("chatLog-123456.log"), Some(123456));
    assert_eq!(extract_video_id_from_filename("invalid.log"), None);
}

#[test]
fn loader_test_parse_chat_line() {
    let line = "[2025-10-24 18:03:15] 1연지: 머타타 (f2959e925442442d133ed215d603786d)";
    let message = parse_chat_line(line);
    assert!(message.is_some());
    let msg = message.unwrap();
    assert_eq!(msg.nickname, "1연지");
    assert_eq!(msg.message, "머타타");
    assert_eq!(msg.user_id, "f2959e925442442d133ed215d603786d");
}

#[test]
fn chat_loader_test_extract_video_id_from_filename() {
    assert_eq!(extract_video_id_from_filename("chatLog-9902485.log"), Some(9902485));
    assert_eq!(extract_video_id_from_filename("chatLog-123456.log"), Some(123456));
    assert_eq!(extract_video_id_from_filename("invalid.log"), None);
}

#[test]
fn chat_loader_test_parse_chat_line() {
    let line = "[2025-10-24 18:03:15] 1연지: 머타타 (f2959e925442442d133ed215d603786d)";
    let message = parse_chat_line(line);
    assert!(message.is_some());
    let msg = message.unwrap();
    assert_eq!(msg.nickname, "1연지");
    assert_eq!(msg.message, "머타타");
    assert_eq!(msg.user_id, "f2959e925442442d133ed215d603786d");
}

#[test]
fn file_name_match_anywhere_and_overflow() {
    assert_eq!(extract_video_id_from_filename("/logs/chatLog-42.log.bak"), Some(42));
    assert_eq!(extract_video_id_from_filename("chatLog-.log chatLog-7.log"), Some(7));
    assert_eq!(extract_video_id_from_filename("chatLog-18446744073709551615.log"), Some(u64::MAX));
    assert_eq!(extract_video_id_from_filename("chatLog-18446744073709551616.log"), None);
    assert_eq!(extract_video_id_from_filename("chatLog-12x.log"), None);
}

#[test]
fn line_time_is_read_in_kst() {
    let msg = parse_chat_line("[2025-10-24 18:03:15] a: b (c)").unwrap();
    assert_eq!(msg.timestamp, 1_761_296_595);
}

#[test]
fn line_message_runs_to_last_user_id() {
    let msg = parse_chat_line("[2025-10-24 18:03:15]  nick : see (this): ok (u1)").unwrap();
    assert_eq!(msg.nickname, "nick");
    assert_eq!(msg.message, "see (this): ok");
    assert_eq!(msg.user_id, "u1");
}

#[test]
fn line_nickname_ends_at_first_colon() {
    let msg = parse_chat_line("[2025-10-24 18:03:15] a:b: c (d)");
    assert!(msg.is_none());
    let msg = parse_chat_line("[2025-10-24 18:03:15] ab: c: d (e)").unwrap();
    assert_eq!(msg.nickname, "ab");
    assert_eq!(msg.message, "c: d");
}

#[test]
fn line_with_leading_text_and_bad_lines() {
    let msg = parse_chat_line("x [2025-10-24 18:03:15] n: m (u) trailing").unwrap();
    assert_eq!(msg.user_id, "u");
    assert!(parse_chat_line("[2025-13-40 18:03:15] n: m (u)").is_none());
    assert!(parse_chat_line("[2025-10-24 18:03:15] n: m ()").is_none());
    assert!(parse_chat_line("[2025-10-24 18:03:15] : m (u)").is_none());
    assert!(parse_chat_line("").is_none());
}
