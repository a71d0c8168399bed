//! What the relay asks of its message store, and how stored messages are replayed.
use vstd::prelude::*;
use crate::json::{member_str, text_member};
use crate::relay::types::{ChatMessage, Outgoing, OutView};

verus! {

/// How many stored messages a joining client is sent, at most.
pub const HISTORY_LIMIT: i64 = 100;

/// The stored messages replayed to a client joining `room`: those of the
/// room, leaving out the ones marked deleted unless `include_deleted`, sorted
/// by time (oldest first when `oldest_first`), at most `limit` of them from
/// the front of that order.
pub struct HistoryQuery {
    pub room: String,
    pub include_deleted: bool,
    pub oldest_first: bool,
    pub limit: i64,
}

/// The history query for a client joining `room`: its messages not marked
/// deleted, the oldest `HISTORY_LIMIT` of them, oldest first.
pub fn history_query(room: &str) -> (r: HistoryQuery)
    ensures
        r.room@ == room@,
        !r.include_deleted,
        r.oldest_first,
        r.limit == HISTORY_LIMIT,
{
    HistoryQuery {
        room: room.to_owned(),
        include_deleted: false,
        oldest_first: true,
        limit: HISTORY_LIMIT,
    }
}

/// The replay of one stored message.
pub fn history_event(m: &ChatMessage) -> (r: Outgoing)
    ensures
        r@ == (OutView::History {
            msg_id: m.msg_id@,
            nick: m.nick@,
            text: m.text@,
            timestamp: m.timestamp,
            edited: m.edited,
        }),
{
    Outgoing::History {
        msg_id: m.msg_id.clone(),
        nick: m.nick.clone(),
        text: m.text.clone(),
        timestamp: m.timestamp,
        edited: m.edited,
    }
}

/// The string member `key` of an event, or the empty string when it is
/// missing or not a string.
pub fn sv(val: &serde_json::Value, key: &str) -> (r: String)
    ensures
        r@ == text_member(*val, key@),
{
    match member_str(val, key) {
        Some(s) => s,
        None => String::new(),
    }
}

} // verus!
