use chzzk_chat::models::{find_channel_and_replay, ChannelWithReplays, Replay};

fn replay(video_no: u64, title: &str) -> Replay {
    Replay {
        title: String::from(title),
        start: String::from("2024-11-10T10:00:00+09:00"),
        end: String::from("2024-11-10T12:00:00+09:00"),
        video_no,
        thumbnail: None,
        tags: Vec::new(),
        category_ko: None,
    }
}

fn channel(name: &str, replays: Vec<Replay>) -> ChannelWithReplays {
    ChannelWithReplays {
        name: String::from(name),
        follower: 10,
        channel_id: format!("id-{}", name),
        image: None,
        replays,
    }
}

#[test]
fn finds_first_channel_holding_video() {
    let channels = vec![
        channel("a", vec![replay(1, "one"), replay(2, "two")]),
        channel("b", vec![replay(3, "three"), replay(2, "again")]),
    ];
    let (c, r) = find_channel_and_replay(3, &channels);
    assert_eq!(c.unwrap().name, "b");
    assert_eq!(r.unwrap().title, "three");
    let (c, r) = find_channel_and_replay(2, &channels);
    assert_eq!(c.unwrap().name, "a");
    assert_eq!(r.unwrap().title, "two");
}

#[test]
fn missing_video_finds_nothing() {
    let channels = vec![channel("a", vec![replay(1, "one")])];
    let (c, r) = find_channel_and_replay(9, &channels);
    assert!(c.is_none() && r.is_none());
    let (c, r) = find_channel_and_replay(1, &[]);
    assert!(c.is_none() && r.is_none());
}
