//! Decisions of the live-chat scraper: which listed broadcasts to keep and
//! whether to fetch another page, when a broadcast is ready to follow, the
//! chat handshake, and what to do with a server message.
use vstd::prelude::*;
use crate::models::{ChannelDetail, InitBody, InitMessage, Live, LiveDetail, LiveReady, PageNext};

verus! {

/// Broadcasts of `lives` with at least `min_user` concurrent viewers, in order.
pub open spec fn popular(lives: Seq<Live>, min_user: u64) -> Seq<Live>
    decreases lives.len(),
{
    if lives.len() == 0 {
        Seq::empty()
    } else if lives.last().concurrent_user_count >= min_user {
        popular(lives.drop_last(), min_user).push(lives.last())
    } else {
        popular(lives.drop_last(), min_user)
    }
}

/// Some broadcast of `lives` has fewer than `min_user` concurrent viewers.
pub open spec fn has_unpopular(lives: Seq<Live>, min_user: u64) -> bool {
    exists|i: int| 0 <= i < lives.len() && (#[trigger] lives[i]).concurrent_user_count < min_user
}

/// One page of the popularity-ordered listing: keeps the broadcasts with at
/// least `min_user` viewers and gives the cursor of the page to fetch next,
/// or `None` once a page holds a less popular broadcast or there is no next
/// page.
pub fn page_step(lives: Vec<Live>, next: Option<PageNext>, min_user: u64) -> (r: (Vec<Live>, Option<PageNext>))
    ensures
        r.0@ == popular(lives@, min_user),
        r.1 == (if has_unpopular(lives@, min_user) {
            None
        } else {
            next
        }),
{
    let ghost all = lives@;
    let mut rest = lives;
    let mut kept: Vec<Live> = Vec::new();
    let mut stop = false;
    let ghost mut i: int = 0;
    while rest.len() > 0
        invariant
            0 <= i <= all.len(),
            rest@ == all.skip(i),
            kept@ == popular(all.take(i), min_user),
            stop == has_unpopular(all.take(i), min_user),
        decreases rest@.len(),
    {
        let l = rest.remove(0);
        assert(l == all[i]);
        assert(all.take(i + 1).drop_last() =~= all.take(i));
        assert(all.take(i + 1).last() == all[i]);
        let keep = l.concurrent_user_count >= min_user;
        proof {
            if has_unpopular(all.take(i), min_user) {
                let j = choose|j: int| 0 <= j < i && (#[trigger] all.take(i)[j]).concurrent_user_count < min_user;
                assert(all.take(i + 1)[j] == all.take(i)[j]);
            }
            if has_unpopular(all.take(i + 1), min_user) {
                let j = choose|j: int| 0 <= j < i + 1 && (#[trigger] all.take(i + 1)[j]).concurrent_user_count < min_user;
                if j < i {
                    assert(all.take(i + 1)[j] == all.take(i)[j]);
                }
            }
            if !keep {
                assert(all.take(i + 1)[i].concurrent_user_count < min_user);
            }
        }
        if keep {
            kept.push(l);
        } else {
            stop = true;
        }
        proof {
            assert(rest@ =~= all.skip(i + 1));
            i = i + 1;
        }
    }
    assert(all.take(i) =~= all);
    let cursor = if stop {
        None
    } else {
        next
    };
    (kept, cursor)
}

/// A listed broadcast can be followed once its channel reports a follower
/// count and its live details name a chat channel.
pub fn ready_live(channel_id: String, detail: Option<ChannelDetail>, live_detail: Option<LiveDetail>) -> (r: Option<LiveReady>)
    ensures
        r.is_some() == (detail.is_some() && detail.unwrap().follower_count.is_some() && live_detail.is_some()
            && live_detail.unwrap().chat_channel_id.is_some()),
        r.is_some() ==> r.unwrap() == (LiveReady {
            channel_id,
            chat_channel_id: live_detail.unwrap().chat_channel_id.unwrap(),
            follower_count: detail.unwrap().follower_count.unwrap(),
        }),
{
    match (detail, live_detail) {
        (Some(d), Some(ld)) => match (d.follower_count, ld.chat_channel_id) {
            (Some(follower_count), Some(chat_channel_id)) => Some(
                LiveReady { channel_id, chat_channel_id, follower_count },
            ),
            _ => None,
        },
        _ => None,
    }
}

/// The followed broadcast has ended: its channel reports that it is not live.
pub fn live_closed(detail: &Option<ChannelDetail>) -> (r: bool)
    ensures
        r == (detail.is_some() && detail.unwrap().open_live == Some(false)),
{
    match detail {
        Some(d) => match d.open_live {
            Some(open) => !open,
            None => false,
        },
        None => false,
    }
}

/// The handshake that joins chat channel `chat_channel_id` read-only.
pub fn init_message(chat_channel_id: String) -> (r: InitMessage)
    ensures
        r.ver@ == "3"@,
        r.cmd == 100,
        r.svcid@ == "game"@,
        r.cid == chat_channel_id,
        r.tid == 1,
        r.bdy.uid.is_none(),
        r.bdy.dev_type == 2001,
        r.bdy.acc_tkn.is_none(),
        r.bdy.auth@ == "READ"@,
        r.bdy.lib_ver.is_none(),
        r.bdy.os_ver.is_none(),
        r.bdy.dev_name.is_none(),
        r.bdy.locale.is_none(),
        r.bdy.timezone.is_none(),
{
    InitMessage {
        ver: "3".to_owned(),
        cmd: 100,
        svcid: "game".to_owned(),
        cid: chat_channel_id,
        tid: 1,
        bdy: InitBody {
            uid: None,
            dev_type: 2001,
            acc_tkn: None,
            auth: "READ".to_owned(),
            lib_ver: None,
            os_ver: None,
            dev_name: None,
            locale: None,
            timezone: None,
        },
    }
}

/// Command number of a server ping.
pub const CMD_PING: i64 = 0;

/// Command number of the answer to a server ping.
pub const CMD_PONG: i64 = 10000;

/// Command number of a batch of chat messages.
pub const CMD_CHAT: i64 = 93101;

/// What to do with a message from the chat server.
#[derive(Debug, Clone, Copy, PartialEq, Eq, Structural)]
pub enum ServerAction {
    /// Answer with a pong (`CMD_PONG`).
    Pong,
    /// Publish the chats carried in the message body.
    PublishChats,
    /// Nothing.
    Ignore,
}

/// The action for a server message with command number `cmd`.
pub fn server_action(cmd: i64) -> (r: ServerAction)
    ensures
        r == (if cmd == CMD_PING {
            ServerAction::Pong
        } else if cmd == CMD_CHAT {
            ServerAction::PublishChats
        } else {
            ServerAction::Ignore
        }),
{
    if cmd == CMD_PING {
        ServerAction::Pong
    } else if cmd == CMD_CHAT {
        ServerAction::PublishChats
    } else {
        ServerAction::Ignore
    }
}

} // verus!
