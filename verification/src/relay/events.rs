//! What the relay does with an event a client sends.
use vstd::prelude::*;
use crate::json::{json_strings, text_member, parsed_json, parse_json};
use crate::text::{trimmed, is_blank, same_text};
use crate::clock::{is_uuid_text, new_message_id, utc_now_millis};
use crate::relay::db::sv;
use crate::relay::types::{ChatMessage, Outgoing, OutView, Rooms};
use crate::relay::fanout::{Fanout, broadcast, broadcast_except, room_conns, without_conn};

verus! {

/// What a client's event asks for.
pub enum EventPlan {
    /// Nothing to do: an unknown kind, or a field missing or blank.
    Ignore,
    /// Post a new message.
    Post { text: String },
    /// Change the text of one of the sender's messages.
    Edit { msg_id: String, text: String },
    /// Delete one of the sender's messages.
    Delete { msg_id: String },
}

/// What a client's event asks for, as the contracts see it.
pub enum PlanView {
    Ignore,
    Post { text: Seq<char> },
    Edit { msg_id: Seq<char>, text: Seq<char> },
    Delete { msg_id: Seq<char> },
}

impl View for EventPlan {
    type V = PlanView;

    open spec fn view(&self) -> PlanView {
        match self {
            EventPlan::Ignore => PlanView::Ignore,
            EventPlan::Post { text } => PlanView::Post { text: text@ },
            EventPlan::Edit { msg_id, text } => PlanView::Edit { msg_id: msg_id@, text: text@ },
            EventPlan::Delete { msg_id } => PlanView::Delete { msg_id: msg_id@ },
        }
    }
}

/// What the event `v` asks for: by its `type`, a `msg` with a non-blank
/// `text` posts it; an `edit` with a `msg_id` and a non-blank `text` changes
/// that message; a `delete` with a `msg_id` deletes it; anything else is ignored.
pub open spec fn plan_of(v: serde_json::Value) -> PlanView {
    let kind = text_member(v, "type"@);
    let text = text_member(v, "text"@);
    let id = text_member(v, "msg_id"@);
    if kind == "msg"@ {
        if trimmed(text).len() > 0 {
            PlanView::Post { text }
        } else {
            PlanView::Ignore
        }
    } else if kind == "edit"@ {
        if id.len() == 0 || trimmed(text).len() == 0 {
            PlanView::Ignore
        } else {
            PlanView::Edit { msg_id: id, text }
        }
    } else if kind == "delete"@ {
        if id.len() == 0 {
            PlanView::Ignore
        } else {
            PlanView::Delete { msg_id: id }
        }
    } else {
        PlanView::Ignore
    }
}

/// Reads what the event `val` asks for.
pub fn read_event(val: &serde_json::Value) -> (r: EventPlan)
    ensures
        r@ == plan_of(*val),
{
    let kind = sv(val, "type");
    if same_text(kind.as_str(), "msg") {
        let text = sv(val, "text");
        if is_blank(text.as_str()) {
            EventPlan::Ignore
        } else {
            EventPlan::Post { text }
        }
    } else if same_text(kind.as_str(), "edit") {
        let msg_id = sv(val, "msg_id");
        let text = sv(val, "text");
        if msg_id.as_str().is_empty() || is_blank(text.as_str()) {
            EventPlan::Ignore
        } else {
            EventPlan::Edit { msg_id, text }
        }
    } else if same_text(kind.as_str(), "delete") {
        let msg_id = sv(val, "msg_id");
        if msg_id.as_str().is_empty() {
            EventPlan::Ignore
        } else {
            EventPlan::Delete { msg_id }
        }
    } else {
        EventPlan::Ignore
    }
}

/// How a stored message is to be changed.
pub enum Change {
    SetText { text: String },
    MarkDeleted,
}

/// A change to the stored message `msg_id`, applied only when it was posted
/// by `nick` in `room`.
pub struct UpdateRequest {
    pub msg_id: String,
    pub nick: String,
    pub room: String,
    pub change: Change,
}

/// What a change writes on the stored message: the new text when there is
/// one, and whether it marks the message edited or deleted (those flags are
/// only ever set to `true`).
pub struct StoredFields {
    pub text: Option<String>,
    pub sets_edited: bool,
    pub sets_deleted: bool,
}

/// The fields a change writes: a new text also marks the message edited; a
/// deletion marks it deleted and leaves its text.
pub fn update_fields(change: &Change) -> (r: StoredFields)
    ensures
        match change {
            Change::SetText { text } => (r.text matches Some(t) && t@ == text@) && r.sets_edited
                && !r.sets_deleted,
            Change::MarkDeleted => r.text is None && !r.sets_edited && r.sets_deleted,
        },
{
    match change {
        Change::SetText { text } => StoredFields {
            text: Some(text.clone()),
            sets_edited: true,
            sets_deleted: false,
        },
        Change::MarkDeleted => StoredFields { text: None, sets_edited: false, sets_deleted: true },
    }
}

/// The store work an event calls for.
pub enum EventAction {
    Nothing,
    /// Store this new message.
    Store { record: ChatMessage },
    /// Apply this change.
    Update { request: UpdateRequest },
}

/// The stored form of a new message.
pub fn post_record(msg_id: String, timestamp: i64, room: &str, nick: &str, text: String) -> (r:
    ChatMessage)
    ensures
        r.msg_id == msg_id,
        r.timestamp == timestamp,
        r.room@ == room@,
        r.nick@ == nick@,
        r.text == text,
        !r.deleted,
        !r.edited,
{
    ChatMessage {
        msg_id,
        room: room.to_owned(),
        nick: nick.to_owned(),
        text,
        timestamp,
        deleted: false,
        edited: false,
    }
}

/// `r` is the store work for the event `v` sent by `nick` in `room`.
pub open spec fn acts_on(v: serde_json::Value, nick: Seq<char>, room: Seq<char>, r: EventAction) -> bool {
    match plan_of(v) {
        PlanView::Ignore => r is Nothing,
        PlanView::Post { text } => r matches EventAction::Store { record } && record.room@ == room
            && record.nick@ == nick && record.text@ == text && !record.deleted && !record.edited
            && is_uuid_text(record.msg_id@),
        PlanView::Edit { msg_id, text } => r matches EventAction::Update { request }
            && request.msg_id@ == msg_id && request.nick@ == nick && request.room@ == room
            && (request.change matches Change::SetText { text: t } && t@ == text),
        PlanView::Delete { msg_id } => r matches EventAction::Update { request }
            && request.msg_id@ == msg_id && request.nick@ == nick && request.room@ == room
            && request.change is MarkDeleted,
    }
}

/// The store work for an event `val` sent by `nick` in `room`. A new message
/// gets a fresh random id and the current time.
pub fn handle_event(val: &serde_json::Value, nick: &str, room: &str) -> (r: EventAction)
    ensures
        acts_on(*val, nick@, room@, r),
{
    match read_event(val) {
        EventPlan::Ignore => EventAction::Nothing,
        EventPlan::Post { text } => {
            let msg_id = new_message_id();
            let ts = utc_now_millis();
            EventAction::Store { record: post_record(msg_id, ts, room, nick, text) }
        },
        EventPlan::Edit { msg_id, text } => EventAction::Update {
            request: UpdateRequest {
                msg_id,
                nick: nick.to_owned(),
                room: room.to_owned(),
                change: Change::SetText { text },
            },
        },
        EventPlan::Delete { msg_id } => EventAction::Update {
            request: UpdateRequest {
                msg_id,
                nick: nick.to_owned(),
                room: room.to_owned(),
                change: Change::MarkDeleted,
            },
        },
    }
}


/// The store work for a text frame `raw` sent by `nick` in `room`: a frame
/// that is not JSON asks for nothing; otherwise as `handle_event`.
pub fn handle_frame(raw: &str, nick: &str, room: &str) -> (r: EventAction)
    ensures
        parsed_json(raw@) is None ==> r is Nothing,
        parsed_json(raw@) matches Some(v) ==> acts_on(v, nick@, room@, r),
{
    match parse_json(raw) {
        Some(val) => handle_event(&val, nick, room),
        None => EventAction::Nothing,
    }
}

/// Who receives an event.
#[derive(PartialEq, Eq, Structural, Debug, Clone, Copy)]
pub enum Audience {
    /// Everyone in the sender's room, the sender included.
    Room,
    /// Everyone in the sender's room but the sender.
    RoomExceptSender,
    /// The sender alone.
    Sender,
}

/// An event and who receives it.
pub struct Delivery {
    pub to: Audience,
    pub event: Outgoing,
}

/// What is sent once a new message is stored: the message to the other
/// participants, then an acknowledgement with its id and time to the sender.
pub fn after_post(record: &ChatMessage) -> (r: Vec<Delivery>)
    ensures
        r@.len() == 2,
        r@[0].to == Audience::RoomExceptSender,
        r@[0].event@ == (OutView::Msg {
            msg_id: record.msg_id@,
            nick: record.nick@,
            text: record.text@,
            timestamp: record.timestamp,
            edited: false,
        }),
        r@[1].to == Audience::Sender,
        r@[1].event@ == (OutView::Ack { msg_id: record.msg_id@, timestamp: record.timestamp }),
{
    let mut r: Vec<Delivery> = Vec::new();
    r.push(
        Delivery {
            to: Audience::RoomExceptSender,
            event: Outgoing::Msg {
                msg_id: record.msg_id.clone(),
                nick: record.nick.clone(),
                text: record.text.clone(),
                timestamp: record.timestamp,
                edited: false,
            },
        },
    );
    r.push(
        Delivery {
            to: Audience::Sender,
            event: Outgoing::Ack { msg_id: record.msg_id.clone(), timestamp: record.timestamp },
        },
    );
    r
}

/// The text sent to a client whose change matched none of its messages.
pub open spec fn not_found_text(change: Change) -> Seq<char> {
    match change {
        Change::SetText { .. } => "Message not found or not yours to edit."@,
        Change::MarkDeleted => "Message not found or not yours to delete."@,
    }
}

/// What is sent once a change was tried. `matched` is the number of stored
/// messages it matched, or `None` when the store failed: when it matched
/// none, the sender alone is told; otherwise everyone in the room is told
/// of the change.
pub fn after_update(request: &UpdateRequest, matched: Option<u64>) -> (r: Delivery)
    ensures
        matched == Some(0u64) ==> r.to == Audience::Sender && r.event@ == (OutView::Error {
            text: not_found_text(request.change),
        }),
        matched != Some(0u64) ==> r.to == Audience::Room && r.event@ == match request.change {
            Change::SetText { text } => OutView::Edit { msg_id: request.msg_id@, text: text@ },
            Change::MarkDeleted => OutView::Delete { msg_id: request.msg_id@ },
        },
{
    let none_matched = match matched {
        Some(n) => n == 0,
        None => false,
    };
    if none_matched {
        let text = match &request.change {
            Change::SetText { .. } => "Message not found or not yours to edit.".to_owned(),
            Change::MarkDeleted => "Message not found or not yours to delete.".to_owned(),
        };
        Delivery { to: Audience::Sender, event: Outgoing::Error { text } }
    } else {
        let event = match &request.change {
            Change::SetText { text } => Outgoing::Edit {
                msg_id: request.msg_id.clone(),
                text: text.clone(),
            },
            Change::MarkDeleted => Outgoing::Delete { msg_id: request.msg_id.clone() },
        };
        Delivery { to: Audience::Room, event }
    }
}


/// The connections that a delivery for the client on connection `sender`,
/// in room `room`, goes to.
pub fn deliver(rooms: &Rooms, room: &str, sender: u64, d: Delivery) -> (r: Fanout)
    ensures
        r.event == d.event,
        d.to == Audience::Room ==> r.conns@ == room_conns(rooms@, room@),
        d.to == Audience::RoomExceptSender ==> r.conns@ == without_conn(room_conns(rooms@, room@), sender),
        d.to == Audience::Sender ==> r.conns@ == seq![sender],
{
    match d.to {
        Audience::Room => broadcast(rooms, room, d.event),
        Audience::RoomExceptSender => broadcast_except(rooms, room, d.event, sender),
        Audience::Sender => {
            let mut conns: Vec<u64> = Vec::new();
            conns.push(sender);
            assert(conns@ =~= seq![sender]);
            Fanout { conns, event: d.event }
        },
    }
}

} // verus!
