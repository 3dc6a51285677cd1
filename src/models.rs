//! Plain data records shared by the loaders, the analyses and the detector.
use vstd::prelude::*;

verus! {

/// Channel reference inside a live listing.
#[derive(Debug, Clone)]
pub struct ChannelInfo {
    pub channel_id: String,
}

/// One live broadcast of a listing page.
#[derive(Debug, Clone)]
pub struct Live {
    pub concurrent_user_count: u64,
    pub adult: bool,
    pub chat_channel_id: Option<String>,
    pub channel: ChannelInfo,
}

/// Cursor to the next listing page.
#[derive(Debug, Clone)]
pub struct PageNext {
    pub concurrent_user_count: u64,
    pub live_id: u64,
}

/// Paging block of a listing page.
#[derive(Debug, Clone)]
pub struct PageInfo {
    pub next: Option<PageNext>,
}

/// Body of a listing page.
#[derive(Debug, Clone)]
pub struct LivesContent {
    pub data: Vec<Live>,
    pub page: PageInfo,
}

/// A listing page as returned by the live-list endpoint.
#[derive(Debug, Clone)]
pub struct LivesResponse {
    pub content: LivesContent,
}

/// Channel details.
#[derive(Debug, Clone)]
pub struct ChannelDetail {
    pub channel_id: String,
    pub follower_count: Option<u64>,
    pub open_live: Option<bool>,
}

/// Response of the channel-detail endpoint.
#[derive(Debug, Clone)]
pub struct ChannelDetailResponse {
    pub content: Option<ChannelDetail>,
}

/// Live details (chat channel of a running broadcast).
#[derive(Debug, Clone)]
pub struct LiveDetail {
    pub chat_channel_id: Option<String>,
}

/// Response of the live-detail endpoint.
#[derive(Debug, Clone)]
pub struct LiveDetailResponse {
    pub content: Option<LiveDetail>,
}

/// The minimum needed to start following a live chat.
#[derive(Debug, Clone)]
pub struct LiveReady {
    pub channel_id: String,
    pub chat_channel_id: String,
    pub follower_count: u64,
}

/// Body of the chat-connection handshake.
#[derive(Debug, Clone)]
pub struct InitBody {
    pub uid: Option<String>,
    pub dev_type: i32,
    pub acc_tkn: Option<String>,
    pub auth: String,
    pub lib_ver: Option<String>,
    pub os_ver: Option<String>,
    pub dev_name: Option<String>,
    pub locale: Option<String>,
    pub timezone: Option<String>,
}

/// The chat-connection handshake.
#[derive(Debug, Clone)]
pub struct InitMessage {
    pub ver: String,
    pub cmd: i32,
    pub svcid: String,
    pub cid: String,
    pub tid: i32,
    pub bdy: InitBody,
}

/// A recorded broadcast (replay) of a channel.
#[derive(Debug, Clone)]
pub struct Replay {
    pub title: String,
    pub start: String,
    pub end: String,
    pub video_no: u64,
    pub thumbnail: Option<String>,
    pub tags: Vec<String>,
    pub category_ko: Option<String>,
}

/// A channel with its replays.
#[derive(Debug, Clone)]
pub struct ChannelWithReplays {
    pub name: String,
    pub follower: u64,
    pub channel_id: String,
    pub image: Option<String>,
    pub replays: Vec<Replay>,
}

/// One chat message. `timestamp` is in whole seconds since the Unix epoch;
/// logs are written in the fixed +09:00 zone, which only matters for display.
#[derive(Debug, Clone)]
pub struct ChatMessage {
    pub timestamp: i64,
    pub nickname: String,
    pub message: String,
    pub user_id: String,
}

/// All chat messages of one video, in no particular order.
#[derive(Debug, Clone)]
pub struct ChatLog {
    pub video_id: u64,
    pub messages: Vec<ChatMessage>,
}

/// Whether replay `j` of channel `i` is the first one, in channel order and
/// then replay order, whose video number is `video_id`.
pub open spec fn is_first_replay(channels: Seq<ChannelWithReplays>, video_id: u64, i: int, j: int) -> bool {
    &&& 0 <= i < channels.len()
    &&& 0 <= j < channels[i].replays@.len()
    &&& channels[i].replays@[j].video_no == video_id
    &&& forall|a: int, b: int|
        0 <= a < i && 0 <= b < channels[a].replays@.len() ==> channels[a].replays@[b].video_no != video_id
    &&& forall|b: int| 0 <= b < j ==> channels[i].replays@[b].video_no != video_id
}

/// Whether some replay of some channel has video number `video_id`.
pub open spec fn has_replay(channels: Seq<ChannelWithReplays>, video_id: u64) -> bool {
    exists|a: int, b: int|
        0 <= a < channels.len() && 0 <= b < channels[a].replays@.len()
            && channels[a].replays@[b].video_no == video_id
}

/// Finds the channel and the replay that recorded video `video_id`.
pub fn find_channel_and_replay(video_id: u64, channels: &[ChannelWithReplays]) -> (r: (
    Option<&ChannelWithReplays>,
    Option<&Replay>,
))
    ensures
        r.0.is_some() == r.1.is_some(),
        r.0.is_some() == has_replay(channels@, video_id),
        r.0.is_some() ==> exists|i: int, j: int|
            is_first_replay(channels@, video_id, i, j) && *r.0.unwrap() == channels@[i]
                && *r.1.unwrap() == channels@[i].replays@[j],
{
    let mut i: usize = 0;
    while i < channels.len()
        invariant
            0 <= i <= channels@.len(),
            forall|a: int, b: int|
                0 <= a < i && 0 <= b < channels@[a].replays@.len()
                    ==> channels@[a].replays@[b].video_no != video_id,
        decreases channels@.len() - i,
    {
        let channel = &channels[i];
        let mut j: usize = 0;
        while j < channel.replays.len()
            invariant
                0 <= i < channels@.len(),
                *channel == channels@[i as int],
                0 <= j <= channel.replays@.len(),
                forall|a: int, b: int|
                    0 <= a < i && 0 <= b < channels@[a].replays@.len()
                        ==> channels@[a].replays@[b].video_no != video_id,
                forall|b: int| 0 <= b < j ==> channel.replays@[b].video_no != video_id,
            decreases channel.replays@.len() - j,
        {
            if channel.replays[j].video_no == video_id {
                assert(is_first_replay(channels@, video_id, i as int, j as int));
                return (Some(channel), Some(&channel.replays[j]));
            }
            j += 1;
        }
        i += 1;
    }
    (None, None)
}

} // verus!
