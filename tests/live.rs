use chzzk_chat::cli::AnalysisChatOpt;
use chzzk_chat::live::{init_message, live_closed, page_step, ready_live, server_action, ServerAction};
use chzzk_chat::models::{ChannelDetail, ChannelInfo, Live, LiveDetail, PageNext};

fn live(users: u64, id: &str) -> Live {
    Live {
        concurrent_user_count: users,
        adult: false,
        chat_channel_id: None,
        channel: ChannelInfo { channel_id: String::from(id) },
    }
}

#[test]
fn page_step_stops_at_unpopular_broadcast() {
    let next = Some(PageNext { concurrent_user_count: 80, live_id: 7 });
    let (kept, cursor) = page_step(vec![live(300, "a"), live(80, "b"), live(150, "c")], next, 100);
    let ids: Vec<String> = kept.iter().map(|l| l.channel.channel_id.clone()).collect();
    assert_eq!(ids, vec!["a", "c"]);
    assert!(cursor.is_none());
}

#[test]
fn page_step_continues_when_all_popular() {
    let next = Some(PageNext { concurrent_user_count: 120, live_id: 9 });
    let (kept, cursor) = page_step(vec![live(300, "a"), live(120, "b")], next, 100);
    assert_eq!(kept.len(), 2);
    assert_eq!(cursor.unwrap().live_id, 9);
    let (kept, cursor) = page_step(vec![live(300, "a")], None, 100);
    assert_eq!(kept.len(), 1);
    assert!(cursor.is_none());
}

fn detail(followers: Option<u64>, open: Option<bool>) -> ChannelDetail {
    ChannelDetail { channel_id: String::from("c"), follower_count: followers, open_live: open }
}

#[test]
fn ready_live_needs_followers_and_chat_channel() {
    let ld = LiveDetail { chat_channel_id: Some(String::from("N1abc")) };
    let r = ready_live(String::from("c"), Some(detail(Some(12), None)), Some(ld.clone())).unwrap();
    assert_eq!(r.channel_id, "c");
    assert_eq!(r.chat_channel_id, "N1abc");
    assert_eq!(r.follower_count, 12);
    assert!(ready_live(String::from("c"), Some(detail(None, None)), Some(ld.clone())).is_none());
    assert!(ready_live(String::from("c"), None, Some(ld)).is_none());
    let no_chat = LiveDetail { chat_channel_id: None };
    assert!(ready_live(String::from("c"), Some(detail(Some(1), None)), Some(no_chat)).is_none());
}

#[test]
fn closed_only_when_reported_offline() {
    assert!(live_closed(&Some(detail(None, Some(false)))));
    assert!(!live_closed(&Some(detail(None, Some(true)))));
    assert!(!live_closed(&Some(detail(None, None))));
    assert!(!live_closed(&None));
}

#[test]
fn handshake_joins_read_only() {
    let m = init_message(String::from("N1abc"));
    assert_eq!(m.ver, "3");
    assert_eq!(m.cmd, 100);
    assert_eq!(m.svcid, "game");
    assert_eq!(m.cid, "N1abc");
    assert_eq!(m.tid, 1);
    assert_eq!(m.bdy.dev_type, 2001);
    assert_eq!(m.bdy.auth, "READ");
    assert!(m.bdy.uid.is_none() && m.bdy.acc_tkn.is_none());
}

#[test]
fn server_commands_map_to_actions() {
    assert_eq!(server_action(0), ServerAction::Pong);
    assert_eq!(server_action(93101), ServerAction::PublishChats);
    assert_eq!(server_action(10000), ServerAction::Ignore);
}

#[test]
fn analysis_options_default_to_no_files() {
    assert!(AnalysisChatOpt::default().files.is_empty());
}
